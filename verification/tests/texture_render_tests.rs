use maze_raycast::render::{channels, pack_saturating, texture_column, texture_index, wall_span};
use maze_raycast::texture::{pack_rgb, Texture};

#[test]
fn pack_rgb_layout() {
    assert_eq!(pack_rgb(0x12, 0x34, 0x56), 0x123456);
    assert_eq!(pack_rgb(255, 0, 0), 0xff0000);
    assert_eq!(pack_rgb(0, 0, 0), 0);
}

#[test]
fn texture_from_rgb8() {
    let data = [1u8, 2, 3, 4, 5, 6, 7, 8, 9, 10, 11, 12];
    let t = Texture::from_rgb8(2, 2, &data).unwrap();
    assert_eq!(t.width(), 2);
    assert_eq!(t.height(), 2);
    assert_eq!(t.texel(0, 0), 0x010203);
    assert_eq!(t.texel(1, 0), 0x040506);
    assert_eq!(t.texel(0, 1), 0x070809);
    assert_eq!(t.texel(1, 1), 0x0a0b0c);
    // No wrapping: column 2 of row 0 is the first texel of row 1.
    assert_eq!(t.texel(2, 0), 0x070809);
}

#[test]
fn texture_rejects_wrong_size() {
    assert!(Texture::from_rgb8(2, 2, &[0u8; 11]).is_none());
    assert!(Texture::from_rgb8(2, 2, &[0u8; 13]).is_none());
    assert!(Texture::from_rgb8(usize::MAX, 2, &[0u8; 3]).is_none());
    assert!(Texture::from_rgb8(0, 5, &[]).is_some());
}

#[test]
fn wall_span_centres_and_clips() {
    assert_eq!(wall_span(768, 100), (334, 434));
    assert_eq!(wall_span(768, 101), (334, 434));
    assert_eq!(wall_span(768, 2000), (0, 767));
    assert_eq!(wall_span(768, 0), (384, 384));
    assert_eq!(wall_span(1, 0), (0, 0));
}

#[test]
fn texture_index_is_euclidean() {
    assert_eq!(texture_index(3, 4, 4), 3);
    assert_eq!(texture_index(-3, 1, 4), 2);
    assert_eq!(texture_index(-4, 0, 4), 0);
    assert_eq!(texture_index(i32::MIN, 0, 3), 1);
    assert_eq!(texture_index(i32::MAX, 0, 1), 0);
}

#[test]
fn texture_column_flip_and_clamp() {
    assert_eq!(texture_column(3, 8, true), 4);
    assert_eq!(texture_column(3, 8, false), 3);
    assert_eq!(texture_column(10, 8, false), 7);
    assert_eq!(texture_column(7, 8, true), 0);
}

#[test]
fn channels_of_colour() {
    assert_eq!(channels(0x123456), (0x12, 0x34, 0x56));
    assert_eq!(channels(0xff00_00ff), (0, 0, 0xff));
    let (r, g, b) = channels(0x0a0b0c);
    assert_eq!(pack_rgb(r, g, b), 0x0a0b0c);
}

#[test]
fn pack_saturating_clamps_channels() {
    assert_eq!(pack_saturating(300, 5, 255), 0xff05ff);
    assert_eq!(pack_saturating(80, 150, 76), 0x50964c);
    assert_eq!(pack_saturating(u32::MAX, u32::MAX, u32::MAX), 0xffffff);
}
