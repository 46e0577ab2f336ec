use maze_raycast::game::{
    advance, has_next_level, menu_select, next_fps_index, stick_menu_step, Action, Frame,
    FrameInput, GameState, MenuKeys,
};

fn keys() -> MenuKeys {
    MenuKeys { level1: false, level2: false, level3: false, down: false, up: false }
}

fn input() -> FrameInput {
    FrameInput { keys: keys(), confirm: false, toggle_map: false, at_goal: false }
}

#[test]
fn menu_keys() {
    assert_eq!(menu_select(0, MenuKeys { down: true, ..keys() }), 1);
    assert_eq!(menu_select(2, MenuKeys { down: true, ..keys() }), 0);
    assert_eq!(menu_select(0, MenuKeys { up: true, ..keys() }), 2);
    assert_eq!(menu_select(1, MenuKeys { up: true, ..keys() }), 0);
    assert_eq!(menu_select(2, MenuKeys { level1: true, ..keys() }), 0);
    assert_eq!(menu_select(0, MenuKeys { level3: true, ..keys() }), 2);
    assert_eq!(menu_select(0, MenuKeys { level2: true, down: true, ..keys() }), 2);
    assert_eq!(menu_select(1, MenuKeys { down: true, up: true, ..keys() }), 1);
    assert_eq!(menu_select(1, keys()), 1);
}

#[test]
fn menu_down_then_up_returns() {
    for s in 0..3 {
        let d = menu_select(s, MenuKeys { down: true, ..keys() });
        assert_eq!(menu_select(d, MenuKeys { up: true, ..keys() }), s);
    }
}

#[test]
fn welcome_confirm_starts_level() {
    let f = Frame { state: GameState::Welcome, selected: 0, map_large: false };
    let (f2, a) = advance(f, FrameInput { confirm: true, keys: MenuKeys { down: true, ..keys() }, ..input() });
    assert_eq!(f2.state, GameState::Playing);
    assert_eq!(f2.selected, 1);
    assert_eq!(a, Action::StartLevel(1));
    let (f3, a) = advance(f, input());
    assert_eq!(f3, f);
    assert_eq!(a, Action::Nothing);
}

#[test]
fn reaching_goal_wins() {
    let f = Frame { state: GameState::Playing, selected: 2, map_large: false };
    let (f2, a) = advance(f, FrameInput { at_goal: true, toggle_map: true, ..input() });
    assert_eq!(f2, Frame { state: GameState::Won, selected: 2, map_large: true });
    assert_eq!(a, Action::Celebrate);
    let (f3, a) = advance(f, input());
    assert_eq!(f3, f);
    assert_eq!(a, Action::Nothing);
}

#[test]
fn after_win_next_level_or_menu() {
    let f = Frame { state: GameState::Won, selected: 0, map_large: true };
    let (f2, a) = advance(f, FrameInput { confirm: true, ..input() });
    assert_eq!(f2, Frame { state: GameState::Playing, selected: 1, map_large: true });
    assert_eq!(a, Action::StartLevel(1));
    let last = Frame { state: GameState::Won, selected: 2, map_large: false };
    let (f3, a) = advance(last, FrameInput { confirm: true, toggle_map: true, ..input() });
    assert_eq!(f3, Frame { state: GameState::Welcome, selected: 2, map_large: true });
    assert_eq!(a, Action::Nothing);
    let (f4, a) = advance(last, input());
    assert_eq!(f4, last);
    assert_eq!(a, Action::Nothing);
}

#[test]
fn next_level_exists() {
    assert!(has_next_level(0));
    assert!(has_next_level(1));
    assert!(!has_next_level(2));
}

#[test]
fn fps_cycles() {
    assert_eq!(next_fps_index(0), 1);
    assert_eq!(next_fps_index(1), 2);
    assert_eq!(next_fps_index(2), 0);
}

#[test]
fn stick_repeat() {
    let s = stick_menu_step(0, 1, 0, 220);
    assert!(s.up && !s.down && s.restart_timer);
    let s = stick_menu_step(1, 1, 100, 220);
    assert!(!s.up && !s.down && !s.restart_timer);
    let s = stick_menu_step(1, 1, 220, 220);
    assert!(s.up && s.restart_timer);
    let s = stick_menu_step(1, -1, 0, 220);
    assert!(s.down && !s.up && s.restart_timer);
    let s = stick_menu_step(-1, 0, 1000, 220);
    assert!(!s.up && !s.down && !s.restart_timer);
}
