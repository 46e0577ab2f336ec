use vstd::prelude::*;

verus! {

/// A row-major buffer of 0x00RRGGBB pixels.
pub struct Framebuffer {
    pub width: usize,
    pub height: usize,
    pub buffer: Vec<u32>,
}

/// Row-major offsets of distinct in-range positions are distinct and in range.
pub proof fn lemma_offset(w: int, h: int, x: int, y: int)
    requires
        0 <= x < w,
        0 <= y < h,
    ensures
        0 <= y * w + x < w * h,
        (y * w + x) % w == x,
        (y * w + x) / w == y,
{
    assert(0 <= y * w + x < w * h) by (nonlinear_arith)
        requires
            0 <= x < w,
            0 <= y < h,
    ;
    vstd::arithmetic::div_mod::lemma_fundamental_div_mod_converse(y * w + x, w, y, x);
}

impl Framebuffer {
    /// The buffer holds one pixel per position of the `width` x `height` grid.
    pub open spec fn wf(&self) -> bool {
        self.buffer@.len() == self.width * self.height
    }

    /// The colour at column `x`, row `y`.
    pub open spec fn pixel(&self, x: int, y: int) -> u32 {
        self.buffer@[y * self.width + x]
    }

    /// Creates a black framebuffer of the given size.
    pub fn new(width: usize, height: usize) -> (fb: Self)
        requires
            width * height <= usize::MAX,
        ensures
            fb.wf(),
            fb.width == width,
            fb.height == height,
            forall|i: int| 0 <= i < fb.buffer@.len() ==> fb.buffer@[i] == 0,
    {
        let n: usize = width * height;
        Framebuffer { width, height, buffer: vec![0u32; n] }
    }

    /// Paints every pixel black.
    pub fn clear(&mut self)
        ensures
            final(self).width == old(self).width,
            final(self).height == old(self).height,
            final(self).buffer@.len() == old(self).buffer@.len(),
            forall|i: int| 0 <= i < final(self).buffer@.len() ==> final(self).buffer@[i] == 0,
    {
        let n: usize = self.buffer.len();
        let mut i: usize = 0;
        while i < n
            invariant
                self.width == old(self).width,
                self.height == old(self).height,
                self.buffer@.len() == n,
                n == old(self).buffer@.len(),
                i <= n,
                forall|j: int| 0 <= j < i ==> self.buffer@[j] == 0,
            decreases n - i,
        {
            self.buffer[i] = 0;
            i = i + 1;
        }
    }

    /// Sets the pixel at column `x`, row `y`; a position outside the grid
    /// leaves the buffer unchanged.
    pub fn set_pixel(&mut self, x: usize, y: usize, color: u32)
        requires
            old(self).wf(),
        ensures
            final(self).wf(),
            final(self).width == old(self).width,
            final(self).height == old(self).height,
            x < old(self).width && y < old(self).height ==> final(self).buffer@ == old(self).buffer@.update(y * old(self).width + x, color),
            !(x < old(self).width && y < old(self).height) ==> final(self).buffer@ == old(self).buffer@,
    {
        let n: usize = self.buffer.len();
        if x < self.width && y < self.height {
            proof {
                lemma_offset(self.width as int, self.height as int, x as int, y as int);
            }
            let i: usize = y * self.width + x;
            self.buffer[i] = color;
        }
    }

    /// Paints column `x` from row `y0` down to row `y1` (both included, rows
    /// past the bottom edge ignored). Nothing happens when `x` is outside the
    /// grid or `y0 > y1`.
    pub fn draw_vline(&mut self, x: usize, y0: usize, y1: usize, color: u32)
        requires
            old(self).wf(),
        ensures
            final(self).wf(),
            final(self).width == old(self).width,
            final(self).height == old(self).height,
            forall|xx: int, yy: int|
                0 <= xx < old(self).width && 0 <= yy < old(self).height ==> #[trigger] final(self).pixel(xx, yy) == if xx == x && y0 <= yy <= y1 {
                    color
                } else {
                    old(self).pixel(xx, yy)
                },
    {
        if x >= self.width || y0 > y1 {
            return;
        }
        let ghost w = self.width as int;
        let ghost h = self.height as int;
        let last: usize = if y1 < self.height.saturating_sub(1) {
            y1
        } else {
            self.height.saturating_sub(1)
        };
        if y0 > last {
            // Only possible when the column starts below the bottom edge.
            assert forall|xx: int, yy: int| 0 <= xx < w && 0 <= yy < h implies #[trigger] self.pixel(xx, yy) == if xx == x && y0 <= yy <= y1 {
                color
            } else {
                old(self).pixel(xx, yy)
            } by {}
            return;
        }
        let mut y: usize = y0;
        loop
            invariant
                self.wf(),
                self.width == w,
                self.height == h,
                x < w,
                y0 <= y <= last,
                last <= y1,
                last < h || h == 0,
                w == old(self).width,
                h == old(self).height,
                h == 0 || last == y1 || (last == h - 1 && y1 >= last),
                forall|xx: int, yy: int|
                    0 <= xx < w && 0 <= yy < h ==> #[trigger] self.pixel(xx, yy) == if xx == x
                        && y0 <= yy < y {
                        color
                    } else {
                        old(self).pixel(xx, yy)
                    },
            decreases last - y,
        {
            let ghost prev = *self;
            self.set_pixel(x, y, color);
            assert forall|xx: int, yy: int| 0 <= xx < w && 0 <= yy < h implies #[trigger] self.pixel(xx, yy) == if xx == x && y0 <= yy <= y {
                color
            } else {
                old(self).pixel(xx, yy)
            } by {
                assert(prev.pixel(xx, yy) == if xx == x && y0 <= yy < y {
                    color
                } else {
                    old(self).pixel(xx, yy)
                });
                lemma_offset(w, h, xx, yy);
                if (y as int) < h {
                    lemma_offset(w, h, x as int, y as int);
                    if xx != x || yy != y {
                        assert(yy * w + xx != y * w + x);
                    }
                }
            }
            if y == last {
                assert forall|xx: int, yy: int| 0 <= xx < w && 0 <= yy < h implies #[trigger] self.pixel(xx, yy) == if xx == x && y0 <= yy <= y1 {
                    color
                } else {
                    old(self).pixel(xx, yy)
                } by {}
                return;
            }
            y = y + 1;
        }
    }
}

} // verus!
