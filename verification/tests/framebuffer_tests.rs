use maze_raycast::framebuffer::Framebuffer;

#[test]
fn new_framebuffer_is_black() {
    let fb = Framebuffer::new(4, 3);
    assert_eq!(fb.width, 4);
    assert_eq!(fb.height, 3);
    assert_eq!(fb.buffer.len(), 12);
    assert!(fb.buffer.iter().all(|&p| p == 0));
}

#[test]
fn set_pixel_writes_row_major() {
    let mut fb = Framebuffer::new(4, 3);
    fb.set_pixel(2, 1, 0xabcdef);
    assert_eq!(fb.buffer[1 * 4 + 2], 0xabcdef);
    assert_eq!(fb.buffer.iter().filter(|&&p| p != 0).count(), 1);
}

#[test]
fn set_pixel_outside_is_ignored() {
    let mut fb = Framebuffer::new(4, 3);
    fb.set_pixel(4, 0, 7);
    fb.set_pixel(0, 3, 7);
    fb.set_pixel(usize::MAX, usize::MAX, 7);
    assert!(fb.buffer.iter().all(|&p| p == 0));
}

#[test]
fn clear_blackens_everything() {
    let mut fb = Framebuffer::new(3, 2);
    for i in 0..6 {
        fb.buffer[i] = 0x123456;
    }
    fb.clear();
    assert!(fb.buffer.iter().all(|&p| p == 0));
    assert_eq!(fb.buffer.len(), 6);
}

#[test]
fn draw_vline_paints_inclusive_span() {
    let mut fb = Framebuffer::new(3, 5);
    fb.draw_vline(1, 1, 3, 9);
    for y in 0..5 {
        for x in 0..3 {
            let expect = if x == 1 && (1..=3).contains(&y) { 9 } else { 0 };
            assert_eq!(fb.buffer[y * 3 + x], expect, "pixel {x},{y}");
        }
    }
}

#[test]
fn draw_vline_clips_at_bottom() {
    let mut fb = Framebuffer::new(2, 3);
    fb.draw_vline(0, 1, 100, 5);
    assert_eq!(fb.buffer, vec![0, 0, 5, 0, 5, 0]);
}

#[test]
fn draw_vline_ignores_bad_input() {
    let mut fb = Framebuffer::new(2, 3);
    fb.draw_vline(2, 0, 2, 5);
    fb.draw_vline(0, 2, 1, 5);
    fb.draw_vline(0, 7, 9, 5);
    assert!(fb.buffer.iter().all(|&p| p == 0));
}
