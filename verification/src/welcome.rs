//! The title screen: the game's name, the level list with the chosen level
//! highlighted, and the key hints.
use vstd::prelude::*;
use crate::framebuffer::Framebuffer;

verus! {

/// The name shown for each level.
pub const LEVEL_NAMES: [&'static str; 3] = ["NIVEL 1", "NIVEL 2", "NIVEL 3"];

/// A line of text to draw, horizontally centred on the screen.
pub struct TextLine {
    /// When present, the line reads as this number, a space, then `text`.
    pub number: Option<usize>,
    pub text: &'static str,
    /// Row of the line's top edge.
    pub y: usize,
    /// Size multiplier of the glyphs.
    pub scale: usize,
    pub color: u32,
}

/// Column at which text `text_width` pixels wide starts when centred on a
/// screen `fb_width` pixels wide (flush left when it does not fit).
pub fn centered_x(fb_width: usize, text_width: usize) -> (x: usize)
    ensures
        x == if text_width <= fb_width {
            (fb_width - text_width) / 2
        } else {
            0
        },
{
    fb_width.saturating_sub(text_width) / 2
}

/// Row of the level list's first entry on a screen `h` pixels high.
pub open spec fn list_top(h: int) -> int {
    h / 6 + 150
}

/// Clears the screen and returns the title screen's lines: the title in
/// yellow at a sixth of the height, the prompt below it, one line per level
/// (green for the chosen one, grey for the others) 60 pixels apart, and the
/// key hint a fifth of the height above the bottom.
pub fn draw_welcome_screen(fb: &mut Framebuffer, selected: usize) -> (lines: Vec<TextLine>)
    ensures
        final(fb).width == old(fb).width,
        final(fb).height == old(fb).height,
        final(fb).buffer@.len() == old(fb).buffer@.len(),
        forall|i: int| 0 <= i < final(fb).buffer@.len() ==> final(fb).buffer@[i] == 0,
        lines@.len() == 6,
        lines@[0].number is None && lines@[0].text@ == "MAZE RAYCASTER"@ && lines@[0].y == old(fb).height
            / 6 && lines@[0].scale == 6 && lines@[0].color == 0xffdd33,
        lines@[1].number is None && lines@[1].text@ == "ELIGE NIVEL CON FLECHAS"@ && lines@[1].y == old(
            fb,
        ).height / 6 + 90 && lines@[1].scale == 3 && lines@[1].color == 0xffffff,
        forall|i: int|
            0 <= i < 3 ==> #[trigger] lines@[2 + i].number == Some((i + 1) as usize) && lines@[2
                + i].text@ == LEVEL_NAMES@[i]@ && lines@[2 + i].y == list_top(old(fb).height as int) + i
                * 60 && lines@[2 + i].scale == 3 && lines@[2 + i].color == if i == selected {
                0x22ff22u32
            } else {
                0xaaaaaau32
            },
        lines@[5].number is None && lines@[5].text@ == "ENTER PARA COMENZAR - F PARA FPS"@ && lines@[5].y
            == old(fb).height - old(fb).height / 5 && lines@[5].scale == 2 && lines@[5].color == 0xffffff,
{
    fb.clear();
    let h = fb.height;
    let mut lines: Vec<TextLine> = Vec::new();
    lines.push(TextLine { number: None, text: "MAZE RAYCASTER", y: h / 6, scale: 6, color: 0xffdd33 });
    lines.push(
        TextLine { number: None, text: "ELIGE NIVEL CON FLECHAS", y: h / 6 + 90, scale: 3, color: 0xffffff },
    );
    let scale: usize = 3;
    let spacing: usize = 60;
    let start_y: usize = h / 6 + 150;
    let mut i: usize = 0;
    while i < 3
        invariant
            h == old(fb).height,
            h / 6 + 270 <= usize::MAX,
            spacing == 60,
            scale == 3,
            start_y == list_top(h as int),
            i <= 3,
            lines@.len() == 2 + i,
            lines@[0].number is None && lines@[0].text@ == "MAZE RAYCASTER"@ && lines@[0].y == h / 6
                && lines@[0].scale == 6 && lines@[0].color == 0xffdd33,
            lines@[1].number is None && lines@[1].text@ == "ELIGE NIVEL CON FLECHAS"@ && lines@[1].y == h
                / 6 + 90 && lines@[1].scale == 3 && lines@[1].color == 0xffffff,
            forall|j: int|
                0 <= j < i ==> #[trigger] lines@[2 + j].number == Some((j + 1) as usize) && lines@[2
                    + j].text@ == LEVEL_NAMES@[j]@ && lines@[2 + j].y == list_top(h as int) + j * 60
                    && lines@[2 + j].scale == 3 && lines@[2 + j].color == if j == selected {
                    0x22ff22u32
                } else {
                    0xaaaaaau32
                },
        decreases 3 - i,
    {
        let color: u32 = if i == selected {
            0x22ff22
        } else {
            0xaaaaaa
        };
        lines.push(
            TextLine {
                number: Some(i + 1),
                text: LEVEL_NAMES[i],
                y: start_y + i * spacing,
                scale,
                color,
            },
        );
        i = i + 1;
    }
    lines.push(
        TextLine {
            number: None,
            text: "ENTER PARA COMENZAR - F PARA FPS",
            y: h - h / 5,
            scale: 2,
            color: 0xffffff,
        },
    );
    lines
}

} // verus!
