//! Images held as rows of packed 0x00RRGGBB texels.
use vstd::prelude::*;

verus! {

/// `r`, `g`, `b` packed as 0x00RRGGBB.
pub open spec fn rgb(r: u8, g: u8, b: u8) -> u32 {
    (r * 0x10000 + g * 0x100 + b) as u32
}

/// Packs three 8-bit channels into 0x00RRGGBB.
pub fn pack_rgb(r: u8, g: u8, b: u8) -> (c: u32)
    ensures
        c == rgb(r, g, b),
{
    let c: u32 = ((r as u32) << 16u32) | ((g as u32) << 8u32) | (b as u32);
    assert(c == r * 0x10000 + g * 0x100 + b) by (bit_vector)
        requires
            c == ((r as u32) << 16u32) | ((g as u32) << 8u32) | (b as u32),
    ;
    c
}

/// Splitting a packed colour into channels gives back the channels it was
/// packed from.
pub proof fn lemma_rgb_channels(r: u8, g: u8, b: u8)
    ensures
        rgb(r, g, b) < 0x100_0000,
        (rgb(r, g, b) / 0x10000) % 0x100 == r,
        (rgb(r, g, b) / 0x100) % 0x100 == g,
        rgb(r, g, b) % 0x100 == b,
{
    let c = rgb(r, g, b);
    assert(c == r * 0x10000 + g * 0x100 + b);
    assert(c < 0x100_0000 && (c / 0x10000) % 0x100 == r && (c / 0x100) % 0x100 == g && c % 0x100 == b)
        by (bit_vector)
        requires
            c == r * 0x10000 + g * 0x100 + b,
    ;
}

/// An image of `width` x `height` texels stored row by row.
pub struct Texture {
    width: usize,
    height: usize,
    pixels: Vec<u32>,
}

impl Texture {
    /// The store holds exactly `width * height` texels.
    #[verifier::type_invariant]
    spec fn holds_all_texels(&self) -> bool {
        self.pixels@.len() == self.width * self.height
    }

    pub closed spec fn spec_width(&self) -> usize {
        self.width
    }

    pub closed spec fn spec_height(&self) -> usize {
        self.height
    }

    /// The texels, row by row.
    pub closed spec fn texels(&self) -> Seq<u32> {
        self.pixels@
    }

    /// Builds a texture from 8-bit RGB data laid out row by row, three bytes
    /// per texel. Fails when the data is not exactly `width * height` texels.
    pub fn from_rgb8(width: usize, height: usize, data: &[u8]) -> (t: Option<Texture>)
        ensures
            t is Some <==> data@.len() == 3 * width * height,
            t matches Some(t) ==> {
                &&& t.spec_width() == width
                &&& t.spec_height() == height
                &&& t.texels().len() == width * height
                &&& forall|i: int|
                    0 <= i < width * height ==> #[trigger] t.texels()[i] == rgb(
                        data@[3 * i],
                        data@[3 * i + 1],
                        data@[3 * i + 2],
                    )
            },
    {
        let n = match width.checked_mul(height) {
            Some(n) => n,
            None => {
                let _len = data.len();
                proof {
                    assert(3 * width * height > usize::MAX) by (nonlinear_arith)
                        requires
                            width * height > usize::MAX,
                    ;
                }
                return None;
            },
        };
        proof {
            assert(3 * width * height == 3 * n) by (nonlinear_arith)
                requires
                    n == width * height,
            ;
        }
        if n > data.len() / 3 || data.len() != 3 * n {
            return None;
        }
        let len = data.len();
        let mut pixels: Vec<u32> = Vec::new();
        let mut i: usize = 0;
        while i < n
            invariant
                len == data@.len(),
                n == width * height,
                data@.len() == 3 * n,
                i <= n,
                pixels@.len() == i,
                forall|j: int|
                    0 <= j < i ==> #[trigger] pixels@[j] == rgb(
                        data@[3 * j],
                        data@[3 * j + 1],
                        data@[3 * j + 2],
                    ),
            decreases n - i,
        {
            let c = pack_rgb(data[3 * i], data[3 * i + 1], data[3 * i + 2]);
            pixels.push(c);
            i = i + 1;
        }
        Some(Texture { width, height, pixels })
    }

    pub fn width(&self) -> (w: usize)
        ensures
            w == self.spec_width(),
    {
        self.width
    }

    pub fn height(&self) -> (h: usize)
        ensures
            h == self.spec_height(),
    {
        self.height
    }

    /// The texel at column `x`, row `y`, read straight from the row-major
    /// store (no wrapping or clamping): the position only has to land inside
    /// the `width * height` texels.
    pub fn texel(&self, x: usize, y: usize) -> (c: u32)
        requires
            y * self.spec_width() + x < self.spec_width() * self.spec_height(),
        ensures
            c == self.texels()[y * self.spec_width() + x],
    {
        proof {
            use_type_invariant(self);
        }
        let _n = self.pixels.len();
        self.pixels[y * self.width + x]
    }
}

} // verus!
