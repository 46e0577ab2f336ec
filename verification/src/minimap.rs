//! The overhead map drawn in the top-right corner of the screen.
use vstd::prelude::*;
use crate::framebuffer::Framebuffer;
use crate::maze::Maze;

verus! {

/// Side of one maze cell on the map, in pixels.
pub const CELL_PX: usize = 5;

/// Gap between the map and the screen's top and right edges.
pub const MARGIN: usize = 12;

pub const BG_COLOR: u32 = 0x0d0d12;

pub const BORDER_COLOR: u32 = 0xe0e0e0;

pub const PLAYER_COLOR: u32 = 0xffdd33;

pub const GOAL_COLOR: u32 = 0x22ff22;

/// The map colour of each wall code.
pub open spec fn wall_color_of(wall_type: u8) -> u32 {
    if wall_type == 1 {
        0xc62828
    } else if wall_type == 2 {
        0x1e64c8
    } else if wall_type == 3 {
        0x3ca03c
    } else if wall_type == 4 {
        0xd2a028
    } else {
        0x969696
    }
}

/// The map colour of a wall code: red, blue, green and amber for codes 1 to
/// 4, grey for any other.
pub fn wall_color(wall_type: u8) -> (c: u32)
    ensures
        c == wall_color_of(wall_type),
{
    match wall_type {
        1 => 0xc62828,
        2 => 0x1e64c8,
        3 => 0x3ca03c,
        4 => 0xd2a028,
        _ => 0x969696,
    }
}

/// `(px, py)` lies in the `w` x `h` rectangle whose top-left corner is `(x0, y0)`.
pub open spec fn in_rect(px: int, py: int, x0: int, y0: int, w: int, h: int) -> bool {
    x0 <= px < x0 + w && y0 <= py < y0 + h
}

/// Paints the `w` x `h` rectangle whose top-left corner is `(x0, y0)`; the
/// part off the framebuffer is ignored.
pub fn fill_rect(fb: &mut Framebuffer, x0: usize, y0: usize, w: usize, h: usize, color: u32)
    requires
        old(fb).wf(),
        x0 + w <= usize::MAX,
        y0 + h <= usize::MAX,
    ensures
        final(fb).wf(),
        final(fb).width == old(fb).width,
        final(fb).height == old(fb).height,
        forall|px: int, py: int|
            0 <= px < old(fb).width && 0 <= py < old(fb).height ==> #[trigger] final(fb).pixel(px, py)
                == if in_rect(px, py, x0 as int, y0 as int, w as int, h as int) {
                color
            } else {
                old(fb).pixel(px, py)
            },
{
    if h == 0 {
        return;
    }
    let mut x: usize = x0;
    while x < x0 + w
        invariant
            fb.wf(),
            fb.width == old(fb).width,
            fb.height == old(fb).height,
            x0 <= x <= x0 + w,
            h > 0,
            y0 + h <= usize::MAX,
            x0 + w <= usize::MAX,
            forall|px: int, py: int|
                0 <= px < fb.width && 0 <= py < fb.height ==> #[trigger] fb.pixel(px, py) == if in_rect(
                    px,
                    py,
                    x0 as int,
                    y0 as int,
                    x - x0,
                    h as int,
                ) {
                    color
                } else {
                    old(fb).pixel(px, py)
                },
        decreases x0 + w - x,
    {
        let ghost prev = *fb;
        fb.draw_vline(x, y0, y0 + h - 1, color);
        assert forall|px: int, py: int| 0 <= px < fb.width && 0 <= py < fb.height implies #[trigger] fb.pixel(
            px,
            py,
        ) == if in_rect(px, py, x0 as int, y0 as int, x + 1 - x0, h as int) {
            color
        } else {
            old(fb).pixel(px, py)
        } by {
            assert(prev.pixel(px, py) == if in_rect(px, py, x0 as int, y0 as int, x - x0, h as int) {
                color
            } else {
                old(fb).pixel(px, py)
            });
        }
        x = x + 1;
    }
}

/// The colour the map gives `(px, py)` when the map's top-left corner is at
/// `(ox, oy)`: rock cells in their wall colour, the rest of the map dark, a
/// two-pixel light frame around it, and `below` off the map.
pub open spec fn map_layer(maze: Maze, ox: int, oy: int, px: int, py: int, below: u32) -> u32 {
    let mw = maze.width * 5;
    let mh = maze.height * 5;
    if in_rect(px, py, ox, oy, mw, mh) && maze.cell((px - ox) / 5, (py - oy) / 5) != 0 {
        wall_color_of(maze.cell((px - ox) / 5, (py - oy) / 5))
    } else if in_rect(px, py, ox, oy, mw, mh) {
        BG_COLOR
    } else if in_rect(px, py, ox - 2, oy - 2, mw + 4, mh + 4) {
        BORDER_COLOR
    } else {
        below
    }
}

/// One of the nine pixels of the player's dot: `(dotx + dx, doty + dy)` for
/// `dx`, `dy` in `-1..=1`, each coordinate raised to at least zero.
pub open spec fn on_dot(dotx: int, doty: int, px: int, py: int) -> bool {
    exists|dx: int, dy: int|
        -1 <= dx <= 1 && -1 <= dy <= 1 && px == #[trigger] clamp0(dotx + dx) && py == #[trigger] clamp0(
            doty + dy,
        )
}

pub open spec fn clamp0(v: int) -> int {
    if v < 0 {
        0
    } else {
        v
    }
}

/// The colour of `(px, py)` after the map is drawn over `below`.
pub open spec fn minimap_pixel(
    maze: Maze,
    ox: int,
    oy: int,
    dotx: int,
    doty: int,
    px: int,
    py: int,
    below: u32,
) -> u32 {
    if on_dot(dotx, doty, px, py) {
        PLAYER_COLOR
    } else if in_rect(px, py, ox + maze.goal.0 * 5, oy + maze.goal.1 * 5, 5, 5) {
        GOAL_COLOR
    } else {
        map_layer(maze, ox, oy, px, py, below)
    }
}

/// The smallest and largest column (or row) of the player's dot centred at
/// `c`: `c - 1` and `c + 1`, each raised to at least zero.
pub open spec fn dot_low(c: int) -> int {
    if c - 1 < 0 {
        0
    } else {
        c - 1
    }
}

pub open spec fn dot_high(c: int) -> int {
    if c + 1 < 0 {
        0
    } else {
        c + 1
    }
}

/// The player's dot is drawn last: every pixel of the dot's square shows the
/// player colour, whatever lies under it; a pixel of the goal square outside
/// the dot shows the goal colour.
pub proof fn lemma_dot_over_goal(
    maze: Maze,
    ox: int,
    oy: int,
    dotx: int,
    doty: int,
    px: int,
    py: int,
    below: u32,
)
    ensures
        dot_low(dotx) <= px <= dot_high(dotx) && dot_low(doty) <= py <= dot_high(doty) ==> minimap_pixel(
            maze,
            ox,
            oy,
            dotx,
            doty,
            px,
            py,
            below,
        ) == 0xffdd33,
        !(dot_low(dotx) <= px <= dot_high(dotx) && dot_low(doty) <= py <= dot_high(doty)) && ox
            + maze.goal.0 * 5 <= px < ox + maze.goal.0 * 5 + 5 && oy + maze.goal.1 * 5 <= py < oy
            + maze.goal.1 * 5 + 5 ==> minimap_pixel(maze, ox, oy, dotx, doty, px, py, below) == 0x22ff22,
{
    if dot_low(dotx) <= px <= dot_high(dotx) && dot_low(doty) <= py <= dot_high(doty) {
        let dx = if px == 0 && dotx - 1 < 0 {
            -1
        } else {
            px - dotx
        };
        let dy = if py == 0 && doty - 1 < 0 {
            -1
        } else {
            py - doty
        };
        assert(-1 <= dx <= 1 && -1 <= dy <= 1);
        assert(px == clamp0(dotx + dx) && py == clamp0(doty + dy));
        assert(on_dot(dotx, doty, px, py));
    }
    if on_dot(dotx, doty, px, py) {
        let (dx, dy) = choose|dx: int, dy: int|
            -1 <= dx <= 1 && -1 <= dy <= 1 && px == #[trigger] clamp0(dotx + dx) && py == #[trigger] clamp0(
                doty + dy,
            );
        assert(dot_low(dotx) <= px <= dot_high(dotx) && dot_low(doty) <= py <= dot_high(doty));
    }
}

/// Where the map's top-left corner goes on a `fb_width` x `fb_height` screen,
/// or `None` when the map and its margins do not fit.
pub open spec fn map_origin(fb_width: int, fb_height: int, maze_width: int, maze_height: int) -> Option<
    (int, int),
> {
    if maze_width * 5 + 24 > fb_width || maze_height * 5 + 24 > fb_height {
        None
    } else {
        Some((fb_width - maze_width * 5 - 12, 12))
    }
}

/// Where the map's top-left corner goes on a `fb_width` x `fb_height` screen
/// for a `maze_width` x `maze_height` maze, or `None` when it does not fit.
pub fn minimap_origin(fb_width: usize, fb_height: usize, maze_width: usize, maze_height: usize) -> (o: Option<
    (usize, usize),
>)
    requires
        maze_width * 5 + 24 <= usize::MAX,
        maze_height * 5 + 24 <= usize::MAX,
    ensures
        o is Some <==> map_origin(fb_width as int, fb_height as int, maze_width as int, maze_height as int) is Some,
        o matches Some(p) ==> map_origin(
            fb_width as int,
            fb_height as int,
            maze_width as int,
            maze_height as int,
        ) == Some((p.0 as int, p.1 as int)),
{
    let map_w: usize = maze_width * CELL_PX;
    let map_h: usize = maze_height * CELL_PX;
    if map_w + 2 * MARGIN > fb_width || map_h + 2 * MARGIN > fb_height {
        None
    } else {
        Some((fb_width - map_w - MARGIN, MARGIN))
    }
}

proof fn lemma_cell_of(o: int, c: int, p: int)
    requires
        o + c * 5 <= p < o + c * 5 + 5,
    ensures
        (p - o) / 5 == c,
{
    vstd::arithmetic::div_mod::lemma_fundamental_div_mod_converse(p - o, 5, c, p - o - c * 5);
}

proof fn lemma_in_cell(o: int, p: int, n: int)
    requires
        o <= p < o + n * 5,
    ensures
        0 <= (p - o) / 5 < n,
        o + ((p - o) / 5) * 5 <= p < o + ((p - o) / 5) * 5 + 5,
{
    vstd::arithmetic::div_mod::lemma_fundamental_div_mod(p - o, 5);
    assert(0 <= (p - o) / 5 < n) by (nonlinear_arith)
        requires
            0 <= p - o < n * 5,
            p - o == 5 * ((p - o) / 5) + (p - o) % 5,
            0 <= (p - o) % 5 < 5,
    ;
}

/// Draws the maze's overhead map in the top-right corner (rock by wall
/// colour, the goal cell green, a frame around it) and the player's dot
/// centred on pixel `(dotx, doty)`. Returns the map's top-left corner, or
/// `None`, leaving the screen as it was, when the map does not fit.
pub fn draw_minimap(fb: &mut Framebuffer, maze: &Maze, dotx: i32, doty: i32) -> (origin: Option<(usize, usize)>)
    requires
        old(fb).wf(),
        crate::grid::grid_fits(maze.cells@, maze.width as int, maze.height as int),
        maze.width * 5 + 24 <= usize::MAX,
        maze.height * 5 + 24 <= usize::MAX,
        old(fb).width + maze.goal.0 * 5 + 5 <= usize::MAX,
        maze.goal.1 * 5 + 17 <= usize::MAX,
        i32::MIN < dotx < i32::MAX,
        i32::MIN < doty < i32::MAX,
    ensures
        final(fb).wf(),
        final(fb).width == old(fb).width,
        final(fb).height == old(fb).height,
        origin is Some <==> map_origin(
            old(fb).width as int,
            old(fb).height as int,
            maze.width as int,
            maze.height as int,
        ) is Some,
        origin matches Some(o) ==> map_origin(
            old(fb).width as int,
            old(fb).height as int,
            maze.width as int,
            maze.height as int,
        ) == Some((o.0 as int, o.1 as int)),
        origin is None ==> final(fb).buffer@ == old(fb).buffer@,
        origin matches Some(o) ==> forall|px: int, py: int|
            0 <= px < old(fb).width && 0 <= py < old(fb).height ==> #[trigger] final(fb).pixel(px, py)
                == minimap_pixel(*maze, o.0 as int, o.1 as int, dotx as int, doty as int, px, py, old(fb).pixel(px, py)),
        origin is Some ==> forall|px: int, py: int|
            0 <= px < old(fb).width && 0 <= py < old(fb).height && dot_low(dotx as int) <= px <= dot_high(
                dotx as int,
            ) && dot_low(doty as int) <= py <= dot_high(doty as int) ==> #[trigger] final(fb).pixel(px, py)
                == 0xffdd33,
        origin matches Some(o) ==> forall|px: int, py: int|
            0 <= px < old(fb).width && 0 <= py < old(fb).height && !(dot_low(dotx as int) <= px <= dot_high(
                dotx as int,
            ) && dot_low(doty as int) <= py <= dot_high(doty as int)) && o.0 + maze.goal.0 * 5 <= px < o.0
                + maze.goal.0 * 5 + 5 && o.1 + maze.goal.1 * 5 <= py < o.1 + maze.goal.1 * 5 + 5
                ==> #[trigger] final(fb).pixel(px, py) == 0x22ff22,
{
    let map_w: usize = maze.width * CELL_PX;
    let map_h: usize = maze.height * CELL_PX;
    if map_w + 2 * MARGIN > fb.width || map_h + 2 * MARGIN > fb.height {
        return None;
    }
    let ox: usize = fb.width - map_w - MARGIN;
    let oy: usize = MARGIN;
    let ghost w = fb.width as int;
    let ghost h = fb.height as int;
    let ghost f0 = *fb;
    fill_rect(fb, ox - 2, oy - 2, map_w + 4, map_h + 4, BORDER_COLOR);
    fill_rect(fb, ox, oy, map_w, map_h, BG_COLOR);
    let ghost f2 = *fb;
    let mut cy: usize = 0;
    while cy < maze.height
        invariant
            fb.wf(),
            fb.width == w,
            fb.height == h,
            crate::grid::grid_fits(maze.cells@, maze.width as int, maze.height as int),
            map_w == maze.width * 5,
            map_h == maze.height * 5,
            ox + map_w + 12 == w,
            oy == 12,
            map_h + 24 <= h,
            cy <= maze.height,
            forall|px: int, py: int|
                0 <= px < w && 0 <= py < h ==> #[trigger] fb.pixel(px, py) == if in_rect(
                    px,
                    py,
                    ox as int,
                    oy as int,
                    map_w as int,
                    cy * 5,
                ) && maze.cell((px - ox) / 5, (py - oy) / 5) != 0 {
                    wall_color_of(maze.cell((px - ox) / 5, (py - oy) / 5))
                } else {
                    f2.pixel(px, py)
                },
        decreases maze.height - cy,
    {
        let mut cx: usize = 0;
        while cx < maze.width
            invariant
                fb.wf(),
                fb.width == w,
                fb.height == h,
                crate::grid::grid_fits(maze.cells@, maze.width as int, maze.height as int),
                map_w == maze.width * 5,
                map_h == maze.height * 5,
                ox + map_w + 12 == w,
                oy == 12,
                map_h + 24 <= h,
                cy < maze.height,
                cx <= maze.width,
                forall|px: int, py: int|
                    0 <= px < w && 0 <= py < h ==> #[trigger] fb.pixel(px, py) == if (in_rect(
                        px,
                        py,
                        ox as int,
                        oy as int,
                        map_w as int,
                        cy * 5,
                    ) || in_rect(px, py, ox as int, oy + cy * 5, cx * 5, 5)) && maze.cell(
                        (px - ox) / 5,
                        (py - oy) / 5,
                    ) != 0 {
                        wall_color_of(maze.cell((px - ox) / 5, (py - oy) / 5))
                    } else {
                        f2.pixel(px, py)
                    },
            decreases maze.width - cx,
        {
            let cell = maze.cells[cy][cx];
            let ghost prev = *fb;
            if cell != 0 {
                let color = wall_color(cell);
                fill_rect(fb, ox + cx * CELL_PX, oy + cy * CELL_PX, CELL_PX, CELL_PX, color);
            }
            assert forall|px: int, py: int| 0 <= px < w && 0 <= py < h implies #[trigger] fb.pixel(
                px,
                py,
            ) == if (in_rect(px, py, ox as int, oy as int, map_w as int, cy * 5) || in_rect(
                px,
                py,
                ox as int,
                oy + cy * 5,
                (cx + 1) * 5,
                5,
            )) && maze.cell((px - ox) / 5, (py - oy) / 5) != 0 {
                wall_color_of(maze.cell((px - ox) / 5, (py - oy) / 5))
            } else {
                f2.pixel(px, py)
            } by {
                assert(prev.pixel(px, py) == if (in_rect(
                    px,
                    py,
                    ox as int,
                    oy as int,
                    map_w as int,
                    cy * 5,
                ) || in_rect(px, py, ox as int, oy + cy * 5, cx * 5, 5)) && maze.cell(
                    (px - ox) / 5,
                    (py - oy) / 5,
                ) != 0 {
                    wall_color_of(maze.cell((px - ox) / 5, (py - oy) / 5))
                } else {
                    f2.pixel(px, py)
                });
                if in_rect(px, py, ox + cx * 5, oy + cy * 5, 5, 5) {
                    lemma_cell_of(ox as int, cx as int, px);
                    lemma_cell_of(oy as int, cy as int, py);
                }
            }
            cx = cx + 1;
        }
        cy = cy + 1;
    }
    let ghost f3 = *fb;
    fill_rect(fb, ox + maze.goal.0 * CELL_PX, oy + maze.goal.1 * CELL_PX, CELL_PX, CELL_PX, GOAL_COLOR);
    let ghost f4 = *fb;
    let mut dy: i32 = -1;
    while dy <= 1
        invariant
            fb.wf(),
            fb.width == w,
            fb.height == h,
            -1 <= dy <= 2,
            i32::MIN < dotx < i32::MAX,
            i32::MIN < doty < i32::MAX,
            forall|px: int, py: int|
                0 <= px < w && 0 <= py < h ==> #[trigger] fb.pixel(px, py) == if exists|ex: int, ey: int|
                    -1 <= ex <= 1 && -1 <= ey < dy && px == #[trigger] clamp0(dotx + ex) && py
                        == #[trigger] clamp0(doty + ey) {
                    PLAYER_COLOR
                } else {
                    f4.pixel(px, py)
                },
        decreases 2 - dy,
    {
        let mut dx: i32 = -1;
        while dx <= 1
            invariant
                fb.wf(),
                fb.width == w,
                fb.height == h,
                -1 <= dx <= 2,
                -1 <= dy <= 1,
                i32::MIN < dotx < i32::MAX,
                i32::MIN < doty < i32::MAX,
                forall|px: int, py: int|
                    0 <= px < w && 0 <= py < h ==> #[trigger] fb.pixel(px, py) == if exists|
                        ex: int,
                        ey: int,
                    |
                        ((-1 <= ex <= 1 && -1 <= ey < dy) || (-1 <= ex < dx && ey == dy)) && px
                            == #[trigger] clamp0(dotx + ex) && py == #[trigger] clamp0(doty + ey) {
                        PLAYER_COLOR
                    } else {
                        f4.pixel(px, py)
                    },
            decreases 2 - dx,
        {
            let qx: i32 = if dotx + dx < 0 {
                0
            } else {
                dotx + dx
            };
            let qy: i32 = if doty + dy < 0 {
                0
            } else {
                doty + dy
            };
            let ghost prev = *fb;
            fb.set_pixel(qx as usize, qy as usize, PLAYER_COLOR);
            assert forall|px: int, py: int| 0 <= px < w && 0 <= py < h implies #[trigger] fb.pixel(
                px,
                py,
            ) == if exists|ex: int, ey: int|
                ((-1 <= ex <= 1 && -1 <= ey < dy) || (-1 <= ex < dx + 1 && ey == dy)) && px
                    == #[trigger] clamp0(dotx + ex) && py == #[trigger] clamp0(doty + ey) {
                PLAYER_COLOR
            } else {
                f4.pixel(px, py)
            } by {
                crate::framebuffer::lemma_offset(w, h, px, py);
                if qx < w && qy < h {
                    crate::framebuffer::lemma_offset(w, h, qx as int, qy as int);
                }
                if px == qx && py == qy {
                    assert(px == clamp0(dotx + dx) && py == clamp0(doty + dy));
                } else {
                    if qx < w && qy < h {
                        assert(py * w + px != qy * w + qx);
                    }
                    assert(fb.pixel(px, py) == prev.pixel(px, py));
                }
            }
            dx = dx + 1;
        }
        dy = dy + 1;
    }
    proof {
        assert forall|px: int, py: int| 0 <= px < w && 0 <= py < h implies #[trigger] fb.pixel(px, py)
            == minimap_pixel(*maze, ox as int, oy as int, dotx as int, doty as int, px, py, f0.pixel(px, py)) by {
            assert(f3.pixel(px, py) == if in_rect(px, py, ox as int, oy as int, map_w as int, map_h as int)
                && maze.cell((px - ox) / 5, (py - oy) / 5) != 0 {
                wall_color_of(maze.cell((px - ox) / 5, (py - oy) / 5))
            } else {
                f2.pixel(px, py)
            });
        }
        assert forall|px: int, py: int| 0 <= px < w && 0 <= py < h implies #[trigger] fb.pixel(px, py)
            == minimap_pixel(*maze, ox as int, oy as int, dotx as int, doty as int, px, py, f0.pixel(px, py))
            && (dot_low(dotx as int) <= px <= dot_high(dotx as int) && dot_low(doty as int) <= py <= dot_high(
            doty as int) ==> fb.pixel(px, py) == 0xffdd33) && (!(dot_low(dotx as int) <= px <= dot_high(
            dotx as int) && dot_low(doty as int) <= py <= dot_high(doty as int)) && ox + maze.goal.0 * 5 <= px
            < ox + maze.goal.0 * 5 + 5 && oy + maze.goal.1 * 5 <= py < oy + maze.goal.1 * 5 + 5 ==> fb.pixel(
            px,
            py,
        ) == 0x22ff22) by {
            lemma_dot_over_goal(*maze, ox as int, oy as int, dotx as int, doty as int, px, py, f0.pixel(px, py));
        }
    }
    Some((ox, oy))
}

} // verus!
