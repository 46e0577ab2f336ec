//! The game's screens and the decisions taken on each frame: level choice on
//! the title screen, reaching the goal, and moving on after a win.
use vstd::prelude::*;

verus! {

/// Number of levels.
pub const LEVEL_COUNT: usize = 3;

/// The screen being shown.
#[derive(Clone, Copy, PartialEq, Eq, Structural, Debug)]
pub enum GameState {
    Welcome,
    Playing,
    Won,
}

/// The level-choice keys pressed on the title screen during one frame.
#[derive(Clone, Copy, Debug)]
pub struct MenuKeys {
    /// Choose the first level.
    pub level1: bool,
    /// Choose the second level.
    pub level2: bool,
    /// Choose the third level.
    pub level3: bool,
    /// Move the choice down (wrapping to the first level).
    pub down: bool,
    /// Move the choice up (wrapping to the last level).
    pub up: bool,
}

/// What the player did during one frame.
#[derive(Clone, Copy, Debug)]
pub struct FrameInput {
    pub keys: MenuKeys,
    /// Enter (or the confirm button) was pressed.
    pub confirm: bool,
    /// The map-size key was pressed.
    pub toggle_map: bool,
    /// After moving this frame, the player stands in the goal cell.
    pub at_goal: bool,
}

/// The state the frame loop carries from one frame to the next.
#[derive(Clone, Copy, PartialEq, Eq, Structural, Debug)]
pub struct Frame {
    pub state: GameState,
    /// The chosen level, `0`-based.
    pub selected: usize,
    /// Whether the map is drawn large.
    pub map_large: bool,
}

/// What the frame loop has to do besides drawing.
#[derive(Clone, Copy, PartialEq, Eq, Structural, Debug)]
pub enum Action {
    Nothing,
    /// Build the given level and put the player at its start.
    StartLevel(usize),
    /// The goal was reached: play the win sound and announce it.
    Celebrate,
}

/// The level below `s`, wrapping around.
pub open spec fn menu_down(s: int) -> int {
    (s + 1) % 3
}

/// The level above `s`, wrapping around.
pub open spec fn menu_up(s: int) -> int {
    (s + 2) % 3
}

/// The choice after one frame's keys, taken in the order level 1, level 2,
/// level 3, down, up.
pub open spec fn menu_choice(selected: int, keys: MenuKeys) -> int {
    let s1 = if keys.level1 {
        0
    } else {
        selected
    };
    let s2 = if keys.level2 {
        1
    } else {
        s1
    };
    let s3 = if keys.level3 {
        2
    } else {
        s2
    };
    let s4 = if keys.down {
        menu_down(s3)
    } else {
        s3
    };
    if keys.up {
        menu_up(s4)
    } else {
        s4
    }
}

/// Applies one frame's level-choice keys to the current choice.
pub fn menu_select(selected: usize, keys: MenuKeys) -> (s: usize)
    requires
        selected < LEVEL_COUNT,
    ensures
        s == menu_choice(selected as int, keys),
        s < LEVEL_COUNT,
{
    let mut s = selected;
    if keys.level1 {
        s = 0;
    }
    if keys.level2 {
        s = 1;
    }
    if keys.level3 {
        s = 2;
    }
    if keys.down {
        s = (s + 1) % LEVEL_COUNT;
    }
    if keys.up {
        s = (s + LEVEL_COUNT - 1) % LEVEL_COUNT;
    }
    s
}

/// Whether a level follows level `selected`.
pub fn has_next_level(selected: usize) -> (r: bool)
    ensures
        r == (selected + 1 < LEVEL_COUNT),
{
    selected < LEVEL_COUNT - 1
}

/// The next frame's state and the action to take, given this frame's input.
pub open spec fn next_frame(frame: Frame, input: FrameInput) -> (Frame, Action) {
    match frame.state {
        GameState::Welcome => {
            let s = menu_choice(frame.selected as int, input.keys) as usize;
            if input.confirm {
                (Frame { state: GameState::Playing, selected: s, ..frame }, Action::StartLevel(s))
            } else {
                (Frame { selected: s, ..frame }, Action::Nothing)
            }
        },
        GameState::Playing => {
            let f = Frame { map_large: frame.map_large != input.toggle_map, ..frame };
            if input.at_goal {
                (Frame { state: GameState::Won, ..f }, Action::Celebrate)
            } else {
                (f, Action::Nothing)
            }
        },
        GameState::Won => {
            let f = Frame { map_large: frame.map_large != input.toggle_map, ..frame };
            if input.confirm && frame.selected + 1 < 3 {
                let s = (frame.selected + 1) as usize;
                (Frame { state: GameState::Playing, selected: s, ..f }, Action::StartLevel(s))
            } else if input.confirm {
                (Frame { state: GameState::Welcome, ..f }, Action::Nothing)
            } else {
                (f, Action::Nothing)
            }
        },
    }
}

/// Decides one frame: on the title screen the keys move the choice and
/// confirming starts the chosen level; while playing the map key resizes the
/// map and reaching the goal wins; after a win, confirming starts the next
/// level, or returns to the title screen after the last one.
pub fn advance(frame: Frame, input: FrameInput) -> (r: (Frame, Action))
    requires
        frame.selected < LEVEL_COUNT,
    ensures
        r == next_frame(frame, input),
        r.0.selected < LEVEL_COUNT,
{
    match frame.state {
        GameState::Welcome => {
            let s = menu_select(frame.selected, input.keys);
            if input.confirm {
                (Frame { state: GameState::Playing, selected: s, map_large: frame.map_large }, Action::StartLevel(s))
            } else {
                (Frame { state: GameState::Welcome, selected: s, map_large: frame.map_large }, Action::Nothing)
            }
        },
        GameState::Playing => {
            let map_large = frame.map_large != input.toggle_map;
            if input.at_goal {
                (Frame { state: GameState::Won, selected: frame.selected, map_large }, Action::Celebrate)
            } else {
                (Frame { state: GameState::Playing, selected: frame.selected, map_large }, Action::Nothing)
            }
        },
        GameState::Won => {
            let map_large = frame.map_large != input.toggle_map;
            if input.confirm {
                if has_next_level(frame.selected) {
                    let s = frame.selected + 1;
                    (Frame { state: GameState::Playing, selected: s, map_large }, Action::StartLevel(s))
                } else {
                    (Frame { state: GameState::Welcome, selected: frame.selected, map_large }, Action::Nothing)
                }
            } else {
                (Frame { state: GameState::Won, selected: frame.selected, map_large }, Action::Nothing)
            }
        },
    }
}

/// The next of the three frame-rate settings, wrapping around.
pub fn next_fps_index(i: usize) -> (j: usize)
    requires
        i < 3,
    ensures
        j == (i + 1) % 3,
{
    (i + 1) % 3
}

/// On the title screen the level keys move the choice on every frame,
/// whether or not Enter is pressed: no key keeps it; Down alone moves to the
/// next level and Up alone to the previous one, wrapping around; Down and
/// Up together cancel out; a level key (the highest one pressed wins) picks
/// that level. Enter starts the chosen level; the map size is untouched.
pub proof fn lemma_title_screen(frame: Frame, input: FrameInput)
    requires
        frame.state == GameState::Welcome,
        frame.selected < LEVEL_COUNT,
    ensures
        ({
            let (next, action) = next_frame(frame, input);
            let k = input.keys;
            let no_level = !k.level1 && !k.level2 && !k.level3;
            &&& next.map_large == frame.map_large
            &&& next.selected < LEVEL_COUNT
            &&& next.selected == next_frame(frame, FrameInput { confirm: !input.confirm, ..input }).0.selected
            &&& (no_level && !k.down && !k.up ==> next.selected == frame.selected)
            &&& (no_level && k.down && !k.up ==> next.selected == (frame.selected + 1) % 3)
            &&& (no_level && !k.down && k.up ==> next.selected == (frame.selected + 2) % 3)
            &&& (no_level && k.down && k.up ==> next.selected == frame.selected)
            &&& (k.level3 && !k.down && !k.up ==> next.selected == 2)
            &&& (k.level2 && !k.level3 && !k.down && !k.up ==> next.selected == 1)
            &&& (k.level1 && !k.level2 && !k.level3 && !k.down && !k.up ==> next.selected == 0)
            &&& (input.confirm ==> next.state == GameState::Playing && action == Action::StartLevel(
                next.selected,
            ))
            &&& (!input.confirm ==> next.state == GameState::Welcome && action == Action::Nothing)
        }),
{
}

/// While playing, the map key flips the map size (also on the frame the goal
/// is reached), the level stays, and reaching the goal wins and celebrates;
/// otherwise play goes on with nothing to do.
pub proof fn lemma_playing(frame: Frame, input: FrameInput)
    requires
        frame.state == GameState::Playing,
    ensures
        ({
            let (next, action) = next_frame(frame, input);
            &&& next.map_large == (frame.map_large != input.toggle_map)
            &&& next.selected == frame.selected
            &&& (input.at_goal ==> next.state == GameState::Won && action == Action::Celebrate)
            &&& (!input.at_goal ==> next.state == GameState::Playing && action == Action::Nothing)
        }),
{
}

/// After a win the map key still flips the map size. Without Enter the win
/// screen stays. With Enter, level `i` is followed by level `i + 1` when
/// there is one (play resumes and that level is started), and the last
/// level leads back to the title screen with nothing started.
pub proof fn lemma_after_win(frame: Frame, input: FrameInput)
    requires
        frame.state == GameState::Won,
    ensures
        ({
            let (next, action) = next_frame(frame, input);
            &&& next.map_large == (frame.map_large != input.toggle_map)
            &&& (!input.confirm ==> next.state == GameState::Won && next.selected == frame.selected
                && action == Action::Nothing)
            &&& (input.confirm && frame.selected + 1 < LEVEL_COUNT ==> next.state == GameState::Playing
                && next.selected == frame.selected + 1 && action == Action::StartLevel(
                (frame.selected + 1) as usize,
            ))
            &&& (input.confirm && frame.selected + 1 >= LEVEL_COUNT ==> next.state == GameState::Welcome
                && next.selected == frame.selected && action == Action::Nothing)
        }),
{
}

/// Moving the level choice down and then up returns to where it was, and so
/// does up then down.
pub proof fn lemma_menu_round_trip(s: int)
    requires
        0 <= s < 3,
    ensures
        menu_up(menu_down(s)) == s,
        menu_down(menu_up(s)) == s,
{
}

/// Every level is started only after a win on the level before it or from
/// the title screen, and a start always names a real level.
pub proof fn lemma_start_is_a_level(frame: Frame, input: FrameInput)
    requires
        frame.selected < 3,
    ensures
        next_frame(frame, input).1 matches Action::StartLevel(l) ==> {
            &&& l < 3
            &&& l == next_frame(frame, input).0.selected
            &&& next_frame(frame, input).0.state == GameState::Playing
            &&& (frame.state == GameState::Welcome || (frame.state == GameState::Won && l == frame.selected + 1))
        },
{
}

/// Whether the menu stick fires a step this frame, and which way.
#[derive(Clone, Copy, PartialEq, Eq, Structural, Debug)]
pub struct StickStep {
    pub up: bool,
    pub down: bool,
    /// The repeat timer starts over.
    pub restart_timer: bool,
}

/// The menu stick held in direction `dir` (`1` up, `-1` down, `0` centred)
/// steps the choice when it has just been pushed to a new direction, or when
/// it has been held there for at least the repeat delay since the last step.
pub fn stick_menu_step(prev_dir: i8, dir: i8, held_nanos: u128, delay_nanos: u128) -> (r: StickStep)
    ensures
        r.restart_timer == (dir != 0 && (dir != prev_dir || held_nanos >= delay_nanos)),
        r.up == (r.restart_timer && dir > 0),
        r.down == (r.restart_timer && dir < 0),
{
    if dir != 0 && (dir != prev_dir || held_nanos >= delay_nanos) {
        StickStep { up: dir > 0, down: dir < 0, restart_timer: true }
    } else {
        StickStep { up: false, down: false, restart_timer: false }
    }
}

} // verus!
