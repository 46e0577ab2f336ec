//! Carving a maze out of solid rock by a randomised depth-first walk over a
//! grid of rooms.
use vstd::prelude::*;
use crate::grid;
use crate::maze::Rng;

verus! {

/// The code at column `x`, row `y`.
pub open spec fn code(g: Seq<Vec<u8>>, x: int, y: int) -> u8 {
    g[y]@[x]
}

/// Positions carving may open: inside the outer wall, and not a corner post
/// (a position with both coordinates even).
pub open spec fn carvable(x: int, y: int) -> bool {
    1 <= x <= 23 && 1 <= y <= 17 && !(x % 2 == 0 && y % 2 == 0)
}

/// `(cx, cy)` is a room of the 12 x 9 room grid; room `(cx, cy)` sits at
/// grid position `(2 cx + 1, 2 cy + 1)`.
pub open spec fn room_in(cx: int, cy: int) -> bool {
    0 <= cx < 12 && 0 <= cy < 9
}

/// Whether room `(cx, cy)` has been visited.
pub open spec fn vis(v: Seq<bool>, cx: int, cy: int) -> bool {
    v[cy * 12 + cx]
}

/// Every room next to `(cx, cy)` has been visited.
pub open spec fn finished(v: Seq<bool>, cx: int, cy: int) -> bool {
    &&& (cx > 0 ==> vis(v, cx - 1, cy))
    &&& (cx < 11 ==> vis(v, cx + 1, cy))
    &&& (cy > 0 ==> vis(v, cx, cy - 1))
    &&& (cy < 8 ==> vis(v, cx, cy + 1))
}

/// How many entries of `s` are `false`.
pub open spec fn count_false(s: Seq<bool>) -> nat
    decreases s.len(),
{
    if s.len() == 0 {
        0
    } else {
        count_false(s.drop_last()) + if !s.last() {
            1nat
        } else {
            0nat
        }
    }
}

proof fn lemma_count_false_update(s: Seq<bool>, i: int)
    requires
        0 <= i < s.len(),
        !s[i],
    ensures
        count_false(s.update(i, true)) + 1 == count_false(s),
    decreases s.len(),
{
    let t = s.update(i, true);
    if i == s.len() - 1 {
        assert(t.drop_last() =~= s.drop_last());
    } else {
        assert(t.drop_last() =~= s.drop_last().update(i, true));
        lemma_count_false_update(s.drop_last(), i);
    }
}

/// `e` is an unvisited room next to `(cx, cy)` together with the step to it.
pub open spec fn nbr_ok(v: Seq<bool>, cx: int, cy: int, e: (usize, usize, i32, i32)) -> bool {
    &&& room_in(e.0 as int, e.1 as int)
    &&& !vis(v, e.0 as int, e.1 as int)
    &&& e.0 == cx + e.2 && e.1 == cy + e.3
    &&& {
        ||| e.2 == -1 && e.3 == 0
        ||| e.2 == 1 && e.3 == 0
        ||| e.2 == 0 && e.3 == -1
        ||| e.2 == 0 && e.3 == 1
    }
}

/// An opening in a wall between two rooms is there only when both rooms have
/// been visited.
#[verifier::opaque]
pub open spec fn walls_ok(g: Seq<Vec<u8>>, v: Seq<bool>) -> bool {
    &&& forall|x: int, y: int|
        grid::in_grid(25, 19, x, y) && #[trigger] code(g, x, y) == 0 && x % 2 == 0 ==> vis(
            v,
            (x - 2) / 2,
            (y - 1) / 2,
        ) && vis(v, x / 2, (y - 1) / 2)
    &&& forall|x: int, y: int|
        grid::in_grid(25, 19, x, y) && #[trigger] code(g, x, y) == 0 && y % 2 == 0 ==> vis(
            v,
            (x - 1) / 2,
            (y - 2) / 2,
        ) && vis(v, (x - 1) / 2, y / 2)
}

/// State of the walk: rock and floor only, floor only where carving may open
/// it, a room is floor exactly when visited, every floor cell is reachable
/// from the first room, and every visited room either is on the stack or has
/// no unvisited neighbour.
#[verifier::opaque]
pub open spec fn dfs_inv(g: Seq<Vec<u8>>, v: Seq<bool>, stack: Seq<(usize, usize)>) -> bool {
    &&& grid::grid_wf(g, 25, 19)
    &&& v.len() == 108
    &&& forall|x: int, y: int|
        grid::in_grid(25, 19, x, y) ==> #[trigger] code(g, x, y) == 0 || code(g, x, y) == 1
    &&& forall|x: int, y: int|
        grid::in_grid(25, 19, x, y) && #[trigger] code(g, x, y) == 0 ==> carvable(x, y)
    &&& forall|cx: int, cy: int|
        room_in(cx, cy) ==> (code(g, 2 * cx + 1, 2 * cy + 1) == 0 <==> #[trigger] vis(v, cx, cy))
    &&& forall|x: int, y: int|
        #[trigger] grid::is_open(g, 25, 19, x, y) ==> grid::reachable(g, 25, 19, 1, 1, x, y)
    &&& forall|i: int|
        0 <= i < stack.len() ==> room_in(#[trigger] stack[i].0 as int, stack[i].1 as int) && vis(
            v,
            stack[i].0 as int,
            stack[i].1 as int,
        )
    &&& forall|cx: int, cy: int|
        room_in(cx, cy) && #[trigger] vis(v, cx, cy) ==> finished(v, cx, cy) || exists|i: int|
            0 <= i < stack.len() && #[trigger] stack[i].0 == cx && stack[i].1 == cy
    &&& vis(v, 0, 0)
    &&& walls_ok(g, v)
}

proof fn lemma_room_index(cx: int, cy: int)
    requires
        room_in(cx, cy),
    ensures
        0 <= cy * 12 + cx < 108,
        (cy * 12 + cx) % 12 == cx,
        (cy * 12 + cx) / 12 == cy,
{
    crate::framebuffer::lemma_offset(12, 9, cx, cy);
}

/// Leaving a room with no unvisited neighbour keeps the walk's state.
proof fn lemma_pop(g: Seq<Vec<u8>>, v: Seq<bool>, stack: Seq<(usize, usize)>)
    requires
        dfs_inv(g, v, stack),
        stack.len() > 0,
        finished(v, stack.last().0 as int, stack.last().1 as int),
    ensures
        dfs_inv(g, v, stack.drop_last()),
{
    reveal(dfs_inv);
    let s2 = stack.drop_last();
    assert forall|i: int| 0 <= i < s2.len() implies room_in(
        #[trigger] s2[i].0 as int,
        s2[i].1 as int,
    ) && vis(v, s2[i].0 as int, s2[i].1 as int) by {
        assert(s2[i] == stack[i]);
    }
    assert forall|cx: int, cy: int| room_in(cx, cy) && #[trigger] vis(v, cx, cy) implies finished(
        v,
        cx,
        cy,
    ) || exists|i: int| 0 <= i < s2.len() && #[trigger] s2[i].0 == cx && s2[i].1 == cy by {
        if !finished(v, cx, cy) {
            let i = choose|i: int| 0 <= i < stack.len() && #[trigger] stack[i].0 == cx && stack[i].1 == cy;
            assert(i != stack.len() - 1);
            assert(s2[i] == stack[i]);
        }
    }
}

/// Opening the wall between the room on top of the stack and an unvisited
/// neighbour, and that neighbour, keeps openings between visited rooms only;
/// both were rock before.
proof fn lemma_push_walls(
    g: Seq<Vec<u8>>,
    v: Seq<bool>,
    g2: Seq<Vec<u8>>,
    cx: int,
    cy: int,
    e: (usize, usize, i32, i32),
)
    requires
        walls_ok(g, v),
        v.len() == 108,
        room_in(cx, cy),
        vis(v, cx, cy),
        nbr_ok(v, cx, cy, e),
        forall|a: int, b: int| room_in(a, b) ==> (code(g, 2 * a + 1, 2 * b + 1) == 0 <==> #[trigger] vis(v, a, b)),
        forall|x: int, y: int| grid::in_grid(25, 19, x, y) ==> #[trigger] code(g, x, y) == 0 || code(g, x, y) == 1,
        forall|x: int, y: int| grid::in_grid(25, 19, x, y) && #[trigger] code(g, x, y) == 0 ==> carvable(x, y),
        forall|x: int, y: int|
            grid::in_grid(25, 19, x, y) ==> #[trigger] code(g2, x, y) == if (x == 2 * cx + 1 + e.2 && y
                == 2 * cy + 1 + e.3) || (x == 2 * e.0 + 1 && y == 2 * e.1 + 1) {
                0
            } else {
                code(g, x, y)
            },
    ensures
        walls_ok(g2, v.update(e.1 * 12 + e.0, true)),
        code(g, 2 * cx + 1 + e.2, 2 * cy + 1 + e.3) == 1,
        code(g, 2 * e.0 + 1, 2 * e.1 + 1) == 1,
{
    reveal(walls_ok);
    let nx = e.0 as int;
    let ny = e.1 as int;
    let v2 = v.update(ny * 12 + nx, true);
    lemma_room_index(nx, ny);
    assert forall|a: int, b: int| room_in(a, b) && vis(v, a, b) implies #[trigger] vis(v2, a, b) by {
        lemma_room_index(a, b);
    }
    assert(vis(v2, nx, ny));
    assert(!vis(v, nx, ny));
    let wx = 2 * cx + 1 + e.2;
    let wy = 2 * cy + 1 + e.3;
    assert(grid::in_grid(25, 19, wx, wy));
    assert(grid::in_grid(25, 19, 2 * nx + 1, 2 * ny + 1));
    assert(code(g, 2 * nx + 1, 2 * ny + 1) != 0);
    if code(g, wx, wy) == 0 {
        if wx % 2 == 0 {
            assert(vis(v, (wx - 2) / 2, (wy - 1) / 2) && vis(v, wx / 2, (wy - 1) / 2));
        } else {
            assert(vis(v, (wx - 1) / 2, (wy - 2) / 2) && vis(v, (wx - 1) / 2, wy / 2));
        }
    }
    assert forall|x: int, y: int|
        grid::in_grid(25, 19, x, y) && #[trigger] code(g2, x, y) == 0 && x % 2 == 0 implies vis(
        v2,
        (x - 2) / 2,
        (y - 1) / 2,
    ) && vis(v2, x / 2, (y - 1) / 2) by {
        if !(x == wx && y == wy) && !(x == 2 * nx + 1 && y == 2 * ny + 1) {
            assert(code(g, x, y) == 0);
            assert(carvable(x, y));
            assert(vis(v, (x - 2) / 2, (y - 1) / 2) && vis(v, x / 2, (y - 1) / 2));
            lemma_room_index((x - 2) / 2, (y - 1) / 2);
            lemma_room_index(x / 2, (y - 1) / 2);
        }
    }
    assert forall|x: int, y: int|
        grid::in_grid(25, 19, x, y) && #[trigger] code(g2, x, y) == 0 && y % 2 == 0 implies vis(
        v2,
        (x - 1) / 2,
        (y - 2) / 2,
    ) && vis(v2, (x - 1) / 2, y / 2) by {
        if !(x == wx && y == wy) && !(x == 2 * nx + 1 && y == 2 * ny + 1) {
            assert(code(g, x, y) == 0);
            assert(carvable(x, y));
            assert(vis(v, (x - 1) / 2, (y - 2) / 2) && vis(v, (x - 1) / 2, y / 2));
            lemma_room_index((x - 1) / 2, (y - 2) / 2);
            lemma_room_index((x - 1) / 2, y / 2);
        }
    }
}

/// Walking from room `(cx, cy)` to the unvisited neighbour `(nx, ny)`,
/// opening the wall between them and the new room, keeps the walk's state.
proof fn lemma_push(
    g: Seq<Vec<u8>>,
    v: Seq<bool>,
    stack: Seq<(usize, usize)>,
    g2: Seq<Vec<u8>>,
    e: (usize, usize, i32, i32),
)
    requires
        dfs_inv(g, v, stack),
        stack.len() > 0,
        nbr_ok(v, stack.last().0 as int, stack.last().1 as int, e),
        grid::grid_wf(g2, 25, 19),
        forall|x: int, y: int|
            grid::in_grid(25, 19, x, y) ==> #[trigger] code(g2, x, y) == if (x == 2 * stack.last().0
                + 1 + e.2 && y == 2 * stack.last().1 + 1 + e.3) || (x == 2 * e.0 + 1 && y == 2 * e.1
                + 1) {
                0
            } else {
                code(g, x, y)
            },
    ensures
        dfs_inv(g2, v.update(e.1 * 12 + e.0, true), stack.push((e.0, e.1))),
        count_false(v.update(e.1 * 12 + e.0, true)) + 1 == count_false(v),
        code(g, 2 * stack.last().0 + 1 + e.2, 2 * stack.last().1 + 1 + e.3) == 1,
        code(g, 2 * e.0 + 1, 2 * e.1 + 1) == 1,
{
    reveal(dfs_inv);
    let cx = stack.last().0 as int;
    let cy = stack.last().1 as int;
    let nx = e.0 as int;
    let ny = e.1 as int;
    let wx = 2 * cx + 1 + e.2;
    let wy = 2 * cy + 1 + e.3;
    let v2 = v.update(ny * 12 + nx, true);
    let s2 = stack.push((e.0, e.1));
    lemma_room_index(nx, ny);
    lemma_count_false_update(v, ny * 12 + nx);
    assert(stack[stack.len() - 1] == stack.last());
    assert(room_in(cx, cy) && vis(v, cx, cy));
    lemma_push_walls(g, v, g2, cx, cy, e);
    assert forall|a: int, b: int| room_in(a, b) implies #[trigger] vis(v2, a, b) == if a == nx && b == ny {
        true
    } else {
        vis(v, a, b)
    } by {
        lemma_room_index(a, b);
        if a != nx || b != ny {
            assert(b * 12 + a != ny * 12 + nx);
        }
    }
    // Connectivity: the old floor is still reachable, and so are the wall and
    // the new room, one and two steps past the current room.
    assert forall|a: int, b: int| #[trigger] grid::is_open(g, 25, 19, a, b) implies grid::is_open(
        g2,
        25,
        19,
        a,
        b,
    ) by {
        assert(code(g2, a, b) == 0);
    }
    assert(grid::is_open(g, 25, 19, 2 * cx + 1, 2 * cy + 1));
    let kc = choose|k: nat| #[trigger] grid::within(g, 25, 19, 1, 1, 2 * cx + 1, 2 * cy + 1, k);
    grid::lemma_within_grow(g, g2, 25, 19, 1, 1, 2 * cx + 1, 2 * cy + 1, kc);
    assert(code(g2, wx, wy) == 0);
    assert(grid::within(g2, 25, 19, 1, 1, wx, wy, kc + 1));
    assert(code(g2, 2 * nx + 1, 2 * ny + 1) == 0);
    assert(grid::within(g2, 25, 19, 1, 1, 2 * nx + 1, 2 * ny + 1, kc + 2));
    assert forall|a: int, b: int| #[trigger] grid::is_open(g2, 25, 19, a, b) implies grid::reachable(
        g2,
        25,
        19,
        1,
        1,
        a,
        b,
    ) by {
        if a == wx && b == wy {
            assert(grid::within(g2, 25, 19, 1, 1, a, b, kc + 1));
        } else if a == 2 * nx + 1 && b == 2 * ny + 1 {
            assert(grid::within(g2, 25, 19, 1, 1, a, b, kc + 2));
        } else {
            assert(code(g2, a, b) == code(g, a, b));
            assert(grid::is_open(g, 25, 19, a, b));
            let k = choose|k: nat| #[trigger] grid::within(g, 25, 19, 1, 1, a, b, k);
            grid::lemma_within_grow(g, g2, 25, 19, 1, 1, a, b, k);
            assert(grid::within(g2, 25, 19, 1, 1, a, b, k));
        }
    }
    assert forall|x: int, y: int| grid::in_grid(25, 19, x, y) && #[trigger] code(g2, x, y) == 0 implies carvable(
        x,
        y,
    ) by {
        if !((x == wx && y == wy) || (x == 2 * nx + 1 && y == 2 * ny + 1)) {
            assert(code(g, x, y) == 0);
        }
    }
    assert forall|a: int, b: int| room_in(a, b) implies (code(g2, 2 * a + 1, 2 * b + 1) == 0
        <==> #[trigger] vis(v2, a, b)) by {
        assert(vis(v2, a, b) == if a == nx && b == ny {
            true
        } else {
            vis(v, a, b)
        });
        assert(grid::in_grid(25, 19, 2 * a + 1, 2 * b + 1));
        if a != nx || b != ny {
            assert(!(2 * a + 1 == wx && 2 * b + 1 == wy));
            assert(code(g2, 2 * a + 1, 2 * b + 1) == code(g, 2 * a + 1, 2 * b + 1));
        }
    }
    assert forall|i: int| 0 <= i < s2.len() implies room_in(
        #[trigger] s2[i].0 as int,
        s2[i].1 as int,
    ) && vis(v2, s2[i].0 as int, s2[i].1 as int) by {
        if i < stack.len() {
            assert(s2[i] == stack[i]);
            assert(vis(v2, stack[i].0 as int, stack[i].1 as int) == if stack[i].0 == nx && stack[i].1
                == ny {
                true
            } else {
                vis(v, stack[i].0 as int, stack[i].1 as int)
            });
        }
    }
    assert forall|a: int, b: int| room_in(a, b) && #[trigger] vis(v2, a, b) implies finished(v2, a, b)
        || exists|i: int| 0 <= i < s2.len() && #[trigger] s2[i].0 == a && s2[i].1 == b by {
        if a == nx && b == ny {
            assert(s2[stack.len() as int].0 == a);
        } else {
            assert(vis(v, a, b));
            if finished(v, a, b) {
                if a > 0 {
                    assert(vis(v2, a - 1, b) == if a - 1 == nx && b == ny {
                        true
                    } else {
                        vis(v, a - 1, b)
                    });
                }
                if a < 11 {
                    assert(vis(v2, a + 1, b) == if a + 1 == nx && b == ny {
                        true
                    } else {
                        vis(v, a + 1, b)
                    });
                }
                if b > 0 {
                    assert(vis(v2, a, b - 1) == if a == nx && b - 1 == ny {
                        true
                    } else {
                        vis(v, a, b - 1)
                    });
                }
                if b < 8 {
                    assert(vis(v2, a, b + 1) == if a == nx && b + 1 == ny {
                        true
                    } else {
                        vis(v, a, b + 1)
                    });
                }
            } else {
                let i = choose|i: int| 0 <= i < stack.len() && #[trigger] stack[i].0 == a && stack[i].1 == b;
                assert(s2[i] == stack[i]);
            }
        }
    }
    assert(vis(v2, 0, 0) == if 0 == nx && 0 == ny {
        true
    } else {
        vis(v, 0, 0)
    });
}

/// When no visited room has an unvisited neighbour, every room is visited.
proof fn lemma_all_visited(v: Seq<bool>, cx: int, cy: int)
    requires
        vis(v, 0, 0),
        forall|a: int, b: int| room_in(a, b) && #[trigger] vis(v, a, b) ==> finished(v, a, b),
        room_in(cx, cy),
    ensures
        vis(v, cx, cy),
    decreases cx + cy,
{
    if cx > 0 {
        lemma_all_visited(v, cx - 1, cy);
    } else if cy > 0 {
        lemma_all_visited(v, cx, cy - 1);
    }
}


/// The unvisited rooms next to `(cx, cy)`, in the order west, east, north,
/// south, each with the step that leads to it.
pub open spec fn neighbors_of(v: Seq<bool>, cx: int, cy: int) -> Seq<(usize, usize, i32, i32)> {
    let s1 = if cx > 0 && !vis(v, cx - 1, cy) {
        seq![((cx - 1) as usize, cy as usize, -1i32, 0i32)]
    } else {
        seq![]
    };
    let s2 = if cx + 1 < 12 && !vis(v, cx + 1, cy) {
        s1.push(((cx + 1) as usize, cy as usize, 1i32, 0i32))
    } else {
        s1
    };
    let s3 = if cy > 0 && !vis(v, cx, cy - 1) {
        s2.push((cx as usize, (cy - 1) as usize, 0i32, -1i32))
    } else {
        s2
    };
    if cy + 1 < 9 && !vis(v, cx, cy + 1) {
        s3.push((cx as usize, (cy + 1) as usize, 0i32, 1i32))
    } else {
        s3
    }
}

/// What the walk's state says of the room on top of the stack.
proof fn lemma_dfs_facts(g: Seq<Vec<u8>>, v: Seq<bool>, stack: Seq<(usize, usize)>)
    requires
        dfs_inv(g, v, stack),
    ensures
        grid::grid_wf(g, 25, 19),
        v.len() == 108,
        stack.len() > 0 ==> room_in(stack.last().0 as int, stack.last().1 as int),
{
    reveal(dfs_inv);
    if stack.len() > 0 {
        assert(stack[stack.len() - 1] == stack.last());
    }
}

/// The unvisited rooms next to room `(cx, cy)`.
fn unvisited_neighbors(visited: &Vec<bool>, cx: usize, cy: usize) -> (ns: Vec<(usize, usize, i32, i32)>)
    requires
        visited@.len() == 108,
        room_in(cx as int, cy as int),
    ensures
        ns@ == neighbors_of(visited@, cx as int, cy as int),
        forall|i: int| 0 <= i < ns@.len() ==> nbr_ok(visited@, cx as int, cy as int, #[trigger] ns@[i]),
        ns@.len() == 0 ==> finished(visited@, cx as int, cy as int),
{
    proof {
        lemma_room_index(cx as int, cy as int);
    }
    let mut neighbors: Vec<(usize, usize, i32, i32)> = Vec::new();
    if cx > 0 && !visited[cy * 12 + cx - 1] {
        neighbors.push((cx - 1, cy, -1, 0));
    }
    if cx + 1 < 12 && !visited[cy * 12 + cx + 1] {
        neighbors.push((cx + 1, cy, 1, 0));
    }
    if cy > 0 && !visited[(cy - 1) * 12 + cx] {
        neighbors.push((cx, cy - 1, 0, -1));
    }
    if cy + 1 < 9 && !visited[(cy + 1) * 12 + cx] {
        neighbors.push((cx, cy + 1, 0, 1));
    }
    proof {
        assert(neighbors@ =~= neighbors_of(visited@, cx as int, cy as int));
    }
    neighbors
}

/// The state of the carving walk: the grid's rows, which rooms have been
/// visited, the stack of rooms being explored, and the generator's state.
pub struct Walk {
    pub grid: Seq<Seq<u8>>,
    pub visited: Seq<bool>,
    pub stack: Seq<(usize, usize)>,
    pub rng: u32,
}

/// The rows of a grid held as vectors.
pub open spec fn rows_of(g: Seq<Vec<u8>>) -> Seq<Seq<u8>> {
    g.map_values(|r: Vec<u8>| r@)
}

/// Solid rock except the top-left room, which alone is visited and on the
/// stack.
pub open spec fn walk_start(seed: u32) -> Walk {
    Walk {
        grid: Seq::new(
            19,
            |y: int|
                Seq::new(
                    25,
                    |x: int|
                        if x == 1 && y == 1 {
                            0u8
                        } else {
                            1u8
                        },
                ),
        ),
        visited: Seq::new(108, |i: int| i == 0),
        stack: seq![(0usize, 0usize)],
        rng: seed,
    }
}

/// One step of the walk. With an empty stack nothing changes. When the room
/// on top of the stack has no unvisited neighbour it is popped. Otherwise the
/// generator advances, its new state modulo the number of unvisited
/// neighbours picks one of them (in the order west, east, north, south), the
/// wall between the two rooms and the new room are opened, and the new room
/// is marked visited and pushed.
pub open spec fn walk_step(s: Walk) -> Walk {
    if s.stack.len() == 0 {
        s
    } else {
        let top = s.stack.last();
        let ns = neighbors_of(s.visited, top.0 as int, top.1 as int);
        if ns.len() == 0 {
            Walk { stack: s.stack.drop_last(), ..s }
        } else {
            let r = crate::maze::xorshift32(s.rng);
            let e = ns[(r as int) % (ns.len() as int)];
            let wx = 2 * top.0 + 1 + e.2;
            let wy = 2 * top.1 + 1 + e.3;
            let rx = 2 * e.0 + 1;
            let ry = 2 * e.1 + 1;
            let g1 = s.grid.update(wy, s.grid[wy].update(wx, 0u8));
            let g2 = g1.update(ry, g1[ry].update(rx, 0u8));
            Walk {
                grid: g2,
                visited: s.visited.update(e.1 * 12 + e.0, true),
                stack: s.stack.push((e.0, e.1)),
                rng: r,
            }
        }
    }
}

/// `n` steps of the walk from `s`.
pub open spec fn walk(s: Walk, n: nat) -> Walk
    decreases n,
{
    if n == 0 {
        s
    } else {
        walk(walk_step(s), (n - 1) as nat)
    }
}

/// The rock (`1`) and floor (`0`) that the walk for `seed` leaves once its
/// stack is empty, which takes at most 215 steps: every one of the 108 rooms
/// is pushed once and popped once, the first without a step.
pub open spec fn carved_grid(seed: u32) -> Seq<Seq<u8>> {
    walk(walk_start(seed), 215).grid
}

proof fn lemma_walk_succ(s: Walk, n: nat)
    ensures
        walk(s, n + 1) == walk_step(walk(s, n)),
    decreases n,
{
    assert(walk(s, n + 1) == walk(walk_step(s), n));
    if n > 0 {
        lemma_walk_succ(walk_step(s), (n - 1) as nat);
        assert(walk(s, n) == walk(walk_step(s), (n - 1) as nat));
    } else {
        assert(walk(walk_step(s), 0) == walk_step(s));
    }
}

proof fn lemma_walk_done(s: Walk, n: nat)
    requires
        s.stack.len() == 0,
    ensures
        walk(s, n) == s,
    decreases n,
{
    if n > 0 {
        lemma_walk_done(s, (n - 1) as nat);
    }
}

proof fn lemma_walk_split(s: Walk, a: nat, b: nat)
    ensures
        walk(s, a + b) == walk(walk(s, a), b),
    decreases a,
{
    if a > 0 {
        lemma_walk_split(walk_step(s), (a - 1) as nat, b);
        assert(walk(s, a + b) == walk(walk_step(s), (a - 1 + b) as nat));
    }
}

proof fn lemma_count_false_all(s: Seq<bool>)
    requires
        forall|i: int| 0 <= i < s.len() ==> !s[i],
    ensures
        count_false(s) == s.len(),
    decreases s.len(),
{
    if s.len() > 0 {
        lemma_count_false_all(s.drop_last());
    }
}

/// How many cells of the row are floor (`0`).
pub open spec fn row_floor(r: Seq<u8>) -> nat
    decreases r.len(),
{
    if r.len() == 0 {
        0
    } else {
        row_floor(r.drop_last()) + if r.last() == 0 {
            1nat
        } else {
            0nat
        }
    }
}

/// How many cells of the grid are floor (`0`).
pub open spec fn floor_count(g: Seq<Seq<u8>>) -> nat
    decreases g.len(),
{
    if g.len() == 0 {
        0
    } else {
        floor_count(g.drop_last()) + row_floor(g.last())
    }
}

proof fn lemma_row_floor_open(r: Seq<u8>, i: int)
    requires
        0 <= i < r.len(),
        r[i] != 0,
    ensures
        row_floor(r.update(i, 0u8)) == row_floor(r) + 1,
    decreases r.len(),
{
    let t = r.update(i, 0u8);
    if i == r.len() - 1 {
        assert(t.drop_last() =~= r.drop_last());
    } else {
        assert(t.drop_last() =~= r.drop_last().update(i, 0u8));
        lemma_row_floor_open(r.drop_last(), i);
    }
}

/// Opening one rock cell adds one floor cell.
pub proof fn lemma_floor_count_open(g: Seq<Seq<u8>>, x: int, y: int)
    requires
        0 <= y < g.len(),
        0 <= x < g[y].len(),
        g[y][x] != 0,
    ensures
        floor_count(g.update(y, g[y].update(x, 0u8))) == floor_count(g) + 1,
    decreases g.len(),
{
    let t = g.update(y, g[y].update(x, 0u8));
    lemma_row_floor_open(g[y], x);
    if y == g.len() - 1 {
        assert(t.drop_last() =~= g.drop_last());
    } else {
        assert(t.drop_last() =~= g.drop_last().update(y, g[y].update(x, 0u8)));
        lemma_floor_count_open(g.drop_last(), x, y);
    }
}

proof fn lemma_row_floor_same(r1: Seq<u8>, r2: Seq<u8>)
    requires
        r1.len() == r2.len(),
        forall|i: int| 0 <= i < r1.len() ==> (r1[i] == 0 <==> r2[i] == 0),
    ensures
        row_floor(r1) == row_floor(r2),
    decreases r1.len(),
{
    if r1.len() > 0 {
        lemma_row_floor_same(r1.drop_last(), r2.drop_last());
    }
}

/// Grids with floor in the same places have the same number of floor cells.
pub proof fn lemma_floor_count_same(g1: Seq<Seq<u8>>, g2: Seq<Seq<u8>>)
    requires
        g1.len() == g2.len(),
        forall|y: int| 0 <= y < g1.len() ==> #[trigger] g1[y].len() == g2[y].len(),
        forall|y: int, x: int|
            0 <= y < g1.len() && 0 <= x < g1[y].len() ==> (#[trigger] g1[y][x] == 0 <==> g2[y][x] == 0),
    ensures
        floor_count(g1) == floor_count(g2),
    decreases g1.len(),
{
    if g1.len() > 0 {
        let y = g1.len() - 1;
        assert(g1[y].len() == g2[y].len());
        assert forall|i: int| 0 <= i < g1.last().len() implies (g1.last()[i] == 0 <==> g2.last()[i] == 0) by {
            assert(g1[y][i] == 0 <==> g2[y][i] == 0);
        }
        lemma_row_floor_same(g1.last(), g2.last());
        lemma_floor_count_same(g1.drop_last(), g2.drop_last());
    }
}

proof fn lemma_floor_count_none(g: Seq<Seq<u8>>)
    requires
        forall|y: int, x: int| 0 <= y < g.len() && 0 <= x < g[y].len() ==> #[trigger] g[y][x] != 0,
    ensures
        floor_count(g) == 0,
    decreases g.len(),
{
    if g.len() > 0 {
        let y = g.len() - 1;
        assert forall|i: int| 0 <= i < g.last().len() implies g.last()[i] != 0 by {
            assert(g[y][i] != 0);
        }
        lemma_row_floor_none(g.last());
        lemma_floor_count_none(g.drop_last());
    }
}

proof fn lemma_row_floor_none(r: Seq<u8>)
    requires
        forall|i: int| 0 <= i < r.len() ==> r[i] != 0,
    ensures
        row_floor(r) == 0,
    decreases r.len(),
{
    if r.len() > 0 {
        lemma_row_floor_none(r.drop_last());
    }
}

proof fn lemma_count_false_none(s: Seq<bool>)
    requires
        forall|i: int| 0 <= i < s.len() ==> s[i],
    ensures
        count_false(s) == 0,
    decreases s.len(),
{
    if s.len() > 0 {
        lemma_count_false_none(s.drop_last());
    }
}

/// Carves the maze for `seed`: starting in the top-left room, repeatedly
/// steps from the room on top of the stack to an unvisited neighbouring room
/// picked by the generator, opening the wall between them, and backs up when
/// the room on top has no unvisited neighbour. Returns the 25 x 19 grid with
/// `0` for floor and `1` for rock.
pub fn carve(seed: u32) -> (cells: Vec<Vec<u8>>)
    ensures
        grid::grid_wf(cells@, 25, 19),
        forall|x: int, y: int|
            grid::in_grid(25, 19, x, y) ==> #[trigger] code(cells@, x, y) == 0 || code(cells@, x, y)
                == 1,
        forall|x: int, y: int|
            grid::in_grid(25, 19, x, y) && #[trigger] code(cells@, x, y) == 0 ==> carvable(x, y),
        forall|cx: int, cy: int| #[trigger] room_in(cx, cy) ==> code(cells@, 2 * cx + 1, 2 * cy + 1) == 0,
        forall|x: int, y: int| #[trigger]
            grid::is_open(cells@, 25, 19, x, y) ==> grid::reachable(cells@, 25, 19, 1, 1, x, y),
        rows_of(cells@) == carved_grid(seed),
        floor_count(rows_of(cells@)) == 215,
{
    let width: usize = crate::maze::LOGICAL_COLS * 2 + 1;
    let height: usize = crate::maze::LOGICAL_ROWS * 2 + 1;
    let mut cells: Vec<Vec<u8>> = Vec::new();
    while cells.len() < height
        invariant
            height == 19,
            width == 25,
            cells@.len() <= 19,
            forall|i: int|
                0 <= i < cells@.len() ==> #[trigger] cells@[i]@.len() == 25 && forall|j: int|
                    0 <= j < 25 ==> cells@[i]@[j] == 1,
        decreases 19 - cells@.len(),
    {
        let mut row: Vec<u8> = Vec::new();
        while row.len() < width
            invariant
                width == 25,
                row@.len() <= 25,
                forall|j: int| 0 <= j < row@.len() ==> row@[j] == 1,
            decreases 25 - row@.len(),
        {
            row.push(1);
        }
        cells.push(row);
    }
    let mut visited: Vec<bool> = Vec::new();
    while visited.len() < 108
        invariant
            visited@.len() <= 108,
            forall|i: int| 0 <= i < visited@.len() ==> !visited@[i],
        decreases 108 - visited@.len(),
    {
        visited.push(false);
    }
    let mut rng = Rng(seed);
    let mut stack: Vec<(usize, usize)> = Vec::new();
    stack.push((0, 0));
    let ghost g_visited = visited@;
    visited[0] = true;
    let ghost g_init = cells@;
    cells[1][1] = 0;
    proof {
        reveal(dfs_inv);
        assert(grid::within(cells@, 25, 19, 1, 1, 1, 1, 0));
        assert forall|x: int, y: int| grid::in_grid(25, 19, x, y) implies #[trigger] code(cells@, x, y)
            == if x == 1 && y == 1 {
            0u8
        } else {
            1u8
        } by {
            assert(g_init[y]@.len() == 25);
            if y != 1 {
                assert(cells@[y] == g_init[y]);
            }
        }
        assert forall|cx: int, cy: int| room_in(cx, cy) implies (code(cells@, 2 * cx + 1, 2 * cy + 1)
            == 0 <==> #[trigger] vis(visited@, cx, cy)) by {
            lemma_room_index(cx, cy);
            assert(grid::in_grid(25, 19, 2 * cx + 1, 2 * cy + 1));
        }
        assert forall|x: int, y: int| #[trigger] grid::is_open(cells@, 25, 19, x, y) implies grid::reachable(
            cells@,
            25,
            19,
            1,
            1,
            x,
            y,
        ) by {
            assert(code(cells@, x, y) == 0);
            assert(grid::within(cells@, 25, 19, 1, 1, x, y, 0));
        }
        assert forall|cx: int, cy: int| room_in(cx, cy) && #[trigger] vis(visited@, cx, cy) implies finished(
            visited@,
            cx,
            cy,
        ) || exists|i: int| 0 <= i < stack@.len() && #[trigger] stack@[i].0 == cx && stack@[i].1 == cy by {
            lemma_room_index(cx, cy);
            assert(stack@[0].0 == cx);
        }
        reveal(walls_ok);
        assert(dfs_inv(cells@, visited@, stack@));
        assert forall|y: int| 0 <= y < 19 implies #[trigger] rows_of(cells@)[y] =~= walk_start(seed).grid[y] by {
            assert(g_init[y]@.len() == 25);
            if y != 1 {
                assert(cells@[y] == g_init[y]);
            }
        }
        assert(rows_of(cells@) =~= walk_start(seed).grid);
        assert(visited@ =~= walk_start(seed).visited);
        assert(stack@ =~= walk_start(seed).stack);
        lemma_count_false_all(g_visited);
        lemma_count_false_update(g_visited, 0);
        assert(g_visited.update(0, true) =~= visited@);
        let ones = rows_of(g_init);
        assert forall|y: int, x: int| 0 <= y < ones.len() && 0 <= x < ones[y].len() implies #[trigger] ones[y][x] != 0 by {
            assert(g_init[y]@.len() == 25);
        }
        lemma_floor_count_none(ones);
        assert(g_init[1]@.len() == 25);
        lemma_floor_count_open(ones, 1, 1);
        assert(rows_of(cells@) =~= ones.update(1, ones[1].update(1, 0u8)));
    }
    let ghost mut steps: nat = 0;
    while stack.len() > 0
        invariant
            dfs_inv(cells@, visited@, stack@),
            rows_of(cells@) == walk(walk_start(seed), steps).grid,
            visited@ == walk(walk_start(seed), steps).visited,
            stack@ == walk(walk_start(seed), steps).stack,
            rng.0 == walk(walk_start(seed), steps).rng,
            steps + 2 * count_false(visited@) + stack@.len() == 215,
            floor_count(rows_of(cells@)) + 2 * count_false(visited@) == 215,
        decreases 2 * count_false(visited@) + stack@.len(),
    {
        let ghost before = walk(walk_start(seed), steps);
        proof {
            lemma_walk_succ(walk_start(seed), steps);
        }
        proof {
            lemma_dfs_facts(cells@, visited@, stack@);
        }
        let (cx, cy) = stack[stack.len() - 1];
        proof {
            assert(stack@[stack@.len() - 1] == stack@.last());
        }
        let neighbors = unvisited_neighbors(&visited, cx, cy);
        if neighbors.len() == 0 {
            proof {
                lemma_pop(cells@, visited@, stack@);
            }
            stack.pop();
            proof {
                assert(stack@ =~= walk_step(before).stack);
                steps = steps + 1;
            }
        } else {
            let k = rng.range(neighbors.len());
            let e = neighbors[k];
            let (nx, ny, dx, dy) = e;
            assert(nbr_ok(visited@, cx as int, cy as int, neighbors@[k as int]));
            let ghost g0 = cells@;
            let ghost v0 = visited@;
            let ghost s0 = stack@;
            proof {
                lemma_room_index(nx as int, ny as int);
            }
            visited[ny * 12 + nx] = true;
            let wall_x: usize = (cx as i32 * 2 + 1 + dx) as usize;
            let wall_y: usize = (cy as i32 * 2 + 1 + dy) as usize;
            cells[wall_y][wall_x] = 0;
            cells[ny * 2 + 1][nx * 2 + 1] = 0;
            stack.push((nx, ny));
            proof {
                assert forall|x: int, y: int| grid::in_grid(25, 19, x, y) implies #[trigger] code(
                    cells@,
                    x,
                    y,
                ) == if (x == 2 * s0.last().0 + 1 + e.2 && y == 2 * s0.last().1 + 1 + e.3) || (x == 2
                    * e.0 + 1 && y == 2 * e.1 + 1) {
                    0
                } else {
                    code(g0, x, y)
                } by {}
                lemma_push(g0, v0, s0, cells@, e);
                let next = walk_step(before);
                assert(s0.last() == (cx, cy));
                assert forall|y: int| 0 <= y < 19 implies #[trigger] rows_of(cells@)[y] =~= next.grid[y] by {
                    assert(cells@[y]@.len() == 25);
                    assert forall|x: int| 0 <= x < 25 implies rows_of(cells@)[y][x] == next.grid[y][x] by {
                        assert(code(cells@, x, y) == rows_of(cells@)[y][x]);
                        assert(code(g0, x, y) == before.grid[y][x]);
                    }
                }
                assert(rows_of(cells@) =~= next.grid);
                let bg = before.grid;
                let wx = 2 * cx + 1 + e.2;
                let wy = 2 * cy + 1 + e.3;
                let g1 = bg.update(wy, bg[wy].update(wx, 0u8));
                assert(bg[wy][wx] == code(g0, wx, wy));
                lemma_floor_count_open(bg, wx, wy);
                assert(g1[2 * ny + 1][2 * nx + 1] == code(g0, 2 * nx + 1, 2 * ny + 1));
                lemma_floor_count_open(g1, 2 * nx + 1, 2 * ny + 1);
                assert(visited@ =~= next.visited);
                assert(stack@ =~= next.stack);
                steps = steps + 1;
            }
        }
    }
    proof {
        lemma_walk_split(walk_start(seed), steps, (215 - steps) as nat);
        lemma_walk_done(walk(walk_start(seed), steps), (215 - steps) as nat);
        reveal(dfs_inv);
        assert forall|a: int, b: int| room_in(a, b) && #[trigger] vis(visited@, a, b) implies finished(
            visited@,
            a,
            b,
        ) by {}
        assert forall|cx: int, cy: int| #[trigger] room_in(cx, cy) implies code(
            cells@,
            2 * cx + 1,
            2 * cy + 1,
        ) == 0 by {
            lemma_all_visited(visited@, cx, cy);
        }
        assert forall|i: int| 0 <= i < visited@.len() implies visited@[i] by {
            let cx = i % 12;
            let cy = i / 12;
            assert(room_in(cx, cy));
            lemma_all_visited(visited@, cx, cy);
            assert(cy * 12 + cx == i);
        }
        lemma_count_false_none(visited@);
    }
    cells
}

} // verus!
