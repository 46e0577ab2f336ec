use maze_raycast::framebuffer::Framebuffer;
use maze_raycast::maze::{Maze, LEVEL_SEEDS};
use maze_raycast::minimap::{
    draw_minimap, wall_color, BG_COLOR, BORDER_COLOR, GOAL_COLOR, PLAYER_COLOR,
};
use maze_raycast::welcome::{centered_x, draw_welcome_screen, LEVEL_NAMES};

fn px(fb: &Framebuffer, x: usize, y: usize) -> u32 {
    fb.buffer[y * fb.width + x]
}

#[test]
fn wall_colors() {
    assert_eq!(wall_color(1), 0xc62828);
    assert_eq!(wall_color(2), 0x1e64c8);
    assert_eq!(wall_color(3), 0x3ca03c);
    assert_eq!(wall_color(4), 0xd2a028);
    assert_eq!(wall_color(0), 0x969696);
    assert_eq!(wall_color(9), 0x969696);
}

#[test]
fn minimap_layout() {
    let m = Maze::generate(LEVEL_SEEDS[0]);
    let mut fb = Framebuffer::new(200, 150);
    for p in fb.buffer.iter_mut() {
        *p = 7;
    }
    let origin = draw_minimap(&mut fb, &m, 71, 21);
    assert_eq!(origin, Some((63, 12)));
    // Outside the frame nothing changes.
    assert_eq!(px(&fb, 60, 9), 7);
    assert_eq!(px(&fb, 199, 149), 7);
    // The frame.
    assert_eq!(px(&fb, 61, 10), BORDER_COLOR);
    assert_eq!(px(&fb, 62, 50), BORDER_COLOR);
    assert_eq!(px(&fb, 63 + 125 + 1, 12 + 95 + 1), BORDER_COLOR);
    // Rock, floor, goal.
    assert_eq!(px(&fb, 63, 12), wall_color(1));
    assert_eq!(px(&fb, 63 + 24 * 5 + 4, 12 + 18 * 5 + 4), wall_color(4));
    assert_eq!(px(&fb, 63 + 5 + 2, 12 + 5 + 2), BG_COLOR);
    assert_eq!(px(&fb, 63 + 5 + 1, 12 + 5 + 1), BG_COLOR);
    assert_eq!(px(&fb, 63 + 5 * 5, 12 + 13 * 5), GOAL_COLOR);
    assert_eq!(px(&fb, 63 + 5 * 5 + 4, 12 + 13 * 5 + 4), GOAL_COLOR);
    // The player's dot covers the 3 x 3 block around it.
    for dy in 0..3 {
        for dx in 0..3 {
            assert_eq!(px(&fb, 70 + dx, 20 + dy), PLAYER_COLOR);
        }
    }
}

#[test]
fn minimap_dot_clamps_to_edges() {
    let m = Maze::generate(LEVEL_SEEDS[0]);
    let mut fb = Framebuffer::new(200, 150);
    draw_minimap(&mut fb, &m, -5, 0);
    assert_eq!(px(&fb, 0, 0), PLAYER_COLOR);
    assert_eq!(px(&fb, 0, 1), PLAYER_COLOR);
    assert_eq!(px(&fb, 1, 0), 0);
}

#[test]
fn minimap_needs_room() {
    let m = Maze::generate(LEVEL_SEEDS[0]);
    let mut fb = Framebuffer::new(148, 150);
    assert_eq!(draw_minimap(&mut fb, &m, 10, 10), None);
    assert!(fb.buffer.iter().all(|&p| p == 0));
    let mut fb = Framebuffer::new(149, 119);
    assert_eq!(draw_minimap(&mut fb, &m, 10, 10), Some((12, 12)));
    let mut fb = Framebuffer::new(149, 118);
    assert_eq!(draw_minimap(&mut fb, &m, 10, 10), None);
}

#[test]
fn centred_text_column() {
    assert_eq!(centered_x(1024, 100), 462);
    assert_eq!(centered_x(1024, 101), 461);
    assert_eq!(centered_x(100, 300), 0);
}

#[test]
fn welcome_screen_lines() {
    let mut fb = Framebuffer::new(1024, 768);
    fb.buffer[5] = 3;
    let lines = draw_welcome_screen(&mut fb, 1);
    assert!(fb.buffer.iter().all(|&p| p == 0));
    assert_eq!(lines.len(), 6);
    assert_eq!(lines[0].text, "MAZE RAYCASTER");
    assert_eq!((lines[0].y, lines[0].scale, lines[0].color), (128, 6, 0xffdd33));
    assert_eq!(lines[1].text, "ELIGE NIVEL CON FLECHAS");
    assert_eq!((lines[1].y, lines[1].scale, lines[1].color), (218, 3, 0xffffff));
    for i in 0..3 {
        let l = &lines[2 + i];
        assert_eq!(l.number, Some(i + 1));
        assert_eq!(l.text, LEVEL_NAMES[i]);
        assert_eq!(l.y, 278 + 60 * i);
        assert_eq!(l.scale, 3);
        assert_eq!(l.color, if i == 1 { 0x22ff22 } else { 0xaaaaaa });
    }
    assert_eq!(lines[5].text, "ENTER PARA COMENZAR - F PARA FPS");
    assert_eq!((lines[5].y, lines[5].scale, lines[5].color), (615, 2, 0xffffff));
}
