//! The whole-number parts of drawing a screen column and a sprite pixel: the
//! rows a wall slice covers, which texture and texture column it uses, and
//! colour packing.
use vstd::prelude::*;

verus! {

/// The first and last rows of a wall slice `line_height` rows tall centred
/// on a screen `h` rows high, clipped to the screen (the height is never
/// negative: it comes from dividing the screen height by a positive distance).
pub fn wall_span(h: usize, line_height: i32) -> (span: (usize, usize))
    requires
        0 < h <= i32::MAX,
        line_height >= 0,
    ensures
        span.0 as int == {
            let s = -((line_height as int) / 2) + (h as int) / 2;
            if s < 0 {
                0
            } else {
                s
            }
        },
        span.1 as int == {
            let e = (line_height as int) / 2 + (h as int) / 2;
            if e > h - 1 {
                h - 1
            } else {
                e
            }
        },
{
    let hh: i32 = h as i32;
    let half: i32 = line_height / 2;
    let start: i32 = -half + hh / 2;
    let end: i32 = half + hh / 2;
    let draw_start: usize = if start < 0 {
        0
    } else {
        start as usize
    };
    let draw_end: usize = if end > hh - 1 {
        (hh - 1) as usize
    } else {
        end as usize
    };
    (draw_start, draw_end)
}

/// Which of `n` wall textures the cell `(map_x, map_y)` uses: their sum
/// taken modulo `n` (always non-negative).
pub fn texture_index(map_x: i32, map_y: i32, n: usize) -> (i: usize)
    requires
        0 < n <= i32::MAX,
        i32::MIN <= map_x + map_y <= i32::MAX,
    ensures
        i == (map_x + map_y) % (n as int),
        i < n,
{
    let s: i64 = map_x as i64 + map_y as i64;
    let m: i64 = n as i64;
    let e: i64 = if s >= 0 {
        s % m
    } else {
        let r = (-s) % m;
        if r == 0 {
            0
        } else {
            m - r
        }
    };
    proof {
        let si = s as int;
        let mi = m as int;
        if s < 0 {
            let r = (-si) % mi;
            vstd::arithmetic::div_mod::lemma_fundamental_div_mod(-si, mi);
            let q = (-si) / mi;
            assert((-q) * mi == -(mi * q)) by (nonlinear_arith);
            assert((-q - 1) * mi == -(mi * q) - mi) by (nonlinear_arith);
            if r == 0 {
                vstd::arithmetic::div_mod::lemma_fundamental_div_mod_converse(si, mi, -q, 0);
            } else {
                vstd::arithmetic::div_mod::lemma_fundamental_div_mod_converse(si, mi, -q - 1, mi - r);
            }
        }
    }
    e as usize
}

/// The texture column of a wall slice: `raw` counted from the other edge when
/// the slice is seen mirrored, kept inside a texture `tex_w` columns wide.
pub fn texture_column(raw: usize, tex_w: usize, flip: bool) -> (x: usize)
    requires
        tex_w > 0,
        flip ==> raw <= tex_w - 1,
    ensures
        x == {
            let c = if flip {
                tex_w - 1 - raw
            } else {
                raw as int
            };
            if c > tex_w - 1 {
                tex_w - 1
            } else {
                c
            }
        },
        x < tex_w,
{
    let mut x = raw;
    if flip {
        x = tex_w - 1 - x;
    }
    if x > tex_w - 1 {
        tex_w - 1
    } else {
        x
    }
}

/// The red, green and blue channels of a 0x00RRGGBB colour.
pub fn channels(color: u32) -> (c: (u8, u8, u8))
    ensures
        crate::texture::rgb(c.0, c.1, c.2) == color % 0x100_0000,
        c.0 == (color / 0x10000) % 0x100,
        c.1 == (color / 0x100) % 0x100,
        c.2 == color % 0x100,
{
    let r: u32 = (color >> 16u32) & 0xff;
    let g: u32 = (color >> 8u32) & 0xff;
    let b: u32 = color & 0xff;
    assert(r == (color / 0x10000) % 0x100 && g == (color / 0x100) % 0x100 && b == color % 0x100)
        by (bit_vector)
        requires
            r == (color >> 16u32) & 0xff,
            g == (color >> 8u32) & 0xff,
            b == color & 0xff,
    ;
    assert(r * 0x10000 + g * 0x100 + b == color % 0x100_0000) by (bit_vector)
        requires
            r == (color >> 16u32) & 0xff,
            g == (color >> 8u32) & 0xff,
            b == color & 0xff,
    ;
    (r as u8, g as u8, b as u8)
}

/// Packs three channel values into 0x00RRGGBB, each first lowered to 255 if
/// larger.
pub fn pack_saturating(r: u32, g: u32, b: u32) -> (c: u32)
    ensures
        c == crate::texture::rgb(
            if r > 255 { 255u8 } else { r as u8 },
            if g > 255 { 255u8 } else { g as u8 },
            if b > 255 { 255u8 } else { b as u8 },
        ),
{
    let r8: u8 = if r > 255 { 255 } else { r as u8 };
    let g8: u8 = if g > 255 { 255 } else { g as u8 };
    let b8: u8 = if b > 255 { 255 } else { b as u8 };
    crate::texture::pack_rgb(r8, g8, b8)
}

} // verus!
