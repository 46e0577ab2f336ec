//! Paths through the open cells of a grid of wall codes (`0` is open floor),
//! and a breadth-first search that measures them.
use vstd::prelude::*;

verus! {

/// `(x, y)` lies inside a `w` x `h` grid.
pub open spec fn in_grid(w: int, h: int, x: int, y: int) -> bool {
    0 <= x < w && 0 <= y < h
}

/// Every row of `g` has `w` cells and there are `h` rows.
pub open spec fn grid_wf(g: Seq<Vec<u8>>, w: int, h: int) -> bool {
    &&& g.len() == h
    &&& forall|y: int| 0 <= y < h ==> #[trigger] g[y]@.len() == w
}

/// The grid has at least `h` rows, each of at least `w` cells; only the
/// top-left `w` x `h` corner is looked at.
pub open spec fn grid_fits(g: Seq<Vec<u8>>, w: int, h: int) -> bool {
    &&& g.len() >= h
    &&& forall|y: int| 0 <= y < h ==> #[trigger] g[y]@.len() >= w
}

/// `(x, y)` is an open (floor) cell of the grid.
pub open spec fn is_open(g: Seq<Vec<u8>>, w: int, h: int, x: int, y: int) -> bool {
    in_grid(w, h, x, y) && g[y]@[x] == 0
}

/// `(x, y)` can be reached from `(sx, sy)` in at most `k` unit steps, every
/// step going left, right, up or down onto an open cell. The starting cell
/// itself need not be open.
pub open spec fn within(
    g: Seq<Vec<u8>>,
    w: int,
    h: int,
    sx: int,
    sy: int,
    x: int,
    y: int,
    k: nat,
) -> bool
    decreases k,
{
    if k == 0 {
        x == sx && y == sy
    } else {
        let j = (k - 1) as nat;
        ||| within(g, w, h, sx, sy, x, y, j)
        ||| is_open(g, w, h, x, y) && {
            ||| within(g, w, h, sx, sy, x - 1, y, j)
            ||| within(g, w, h, sx, sy, x + 1, y, j)
            ||| within(g, w, h, sx, sy, x, y - 1, j)
            ||| within(g, w, h, sx, sy, x, y + 1, j)
        }
    }
}

/// `(x, y)` can be reached from `(sx, sy)` at all.
pub open spec fn reachable(g: Seq<Vec<u8>>, w: int, h: int, sx: int, sy: int, x: int, y: int) -> bool {
    exists|k: nat| #[trigger] within(g, w, h, sx, sy, x, y, k)
}

/// The shortest path from `(sx, sy)` to `(x, y)` takes exactly `d` steps.
pub open spec fn steps_from(
    g: Seq<Vec<u8>>,
    w: int,
    h: int,
    sx: int,
    sy: int,
    x: int,
    y: int,
    d: nat,
) -> bool {
    &&& within(g, w, h, sx, sy, x, y, d)
    &&& (d == 0 || !within(g, w, h, sx, sy, x, y, (d - 1) as nat))
}

/// The length of the shortest path, or `-1` for a cell that cannot be reached.
pub open spec fn distance(g: Seq<Vec<u8>>, w: int, h: int, sx: int, sy: int, x: int, y: int) -> int {
    if reachable(g, w, h, sx, sy, x, y) {
        (choose|d: nat| steps_from(g, w, h, sx, sy, x, y, d)) as int
    } else {
        -1
    }
}

/// Opening more cells never cuts a walk short.
pub proof fn lemma_within_grow(
    g: Seq<Vec<u8>>,
    g2: Seq<Vec<u8>>,
    w: int,
    h: int,
    sx: int,
    sy: int,
    x: int,
    y: int,
    k: nat,
)
    requires
        forall|a: int, b: int| #[trigger] is_open(g, w, h, a, b) ==> is_open(g2, w, h, a, b),
        within(g, w, h, sx, sy, x, y, k),
    ensures
        within(g2, w, h, sx, sy, x, y, k),
    decreases k,
{
    if k > 0 {
        let j = (k - 1) as nat;
        if within(g, w, h, sx, sy, x, y, j) {
            lemma_within_grow(g, g2, w, h, sx, sy, x, y, j);
        } else {
            assert(is_open(g, w, h, x, y));
            if within(g, w, h, sx, sy, x - 1, y, j) {
                lemma_within_grow(g, g2, w, h, sx, sy, x - 1, y, j);
            } else if within(g, w, h, sx, sy, x + 1, y, j) {
                lemma_within_grow(g, g2, w, h, sx, sy, x + 1, y, j);
            } else if within(g, w, h, sx, sy, x, y - 1, j) {
                lemma_within_grow(g, g2, w, h, sx, sy, x, y - 1, j);
            } else {
                lemma_within_grow(g, g2, w, h, sx, sy, x, y + 1, j);
            }
        }
    }
}

/// A longer allowance reaches at least as much.
pub proof fn lemma_within_mono(
    g: Seq<Vec<u8>>,
    w: int,
    h: int,
    sx: int,
    sy: int,
    x: int,
    y: int,
    k: nat,
    j: nat,
)
    requires
        within(g, w, h, sx, sy, x, y, k),
        k <= j,
    ensures
        within(g, w, h, sx, sy, x, y, j),
    decreases j - k,
{
    if k < j {
        lemma_within_mono(g, w, h, sx, sy, x, y, k, (j - 1) as nat);
    }
}

/// Only the start and cells inside the grid are ever reached.
pub proof fn lemma_within_in_grid(
    g: Seq<Vec<u8>>,
    w: int,
    h: int,
    sx: int,
    sy: int,
    x: int,
    y: int,
    k: nat,
)
    requires
        within(g, w, h, sx, sy, x, y, k),
        in_grid(w, h, sx, sy),
    ensures
        in_grid(w, h, x, y),
    decreases k,
{
    if k > 0 && within(g, w, h, sx, sy, x, y, (k - 1) as nat) {
        lemma_within_in_grid(g, w, h, sx, sy, x, y, (k - 1) as nat);
    }
}

/// A reachable cell has exactly one shortest distance, and it is no more
/// than any allowance that reaches the cell.
pub proof fn lemma_steps_least(
    g: Seq<Vec<u8>>,
    w: int,
    h: int,
    sx: int,
    sy: int,
    x: int,
    y: int,
    d: nat,
    k: nat,
)
    requires
        steps_from(g, w, h, sx, sy, x, y, d),
        within(g, w, h, sx, sy, x, y, k),
    ensures
        d <= k,
{
    if d > k {
        lemma_within_mono(g, w, h, sx, sy, x, y, k, (d - 1) as nat);
    }
}

/// A cell reached in exactly `d` steps has distance `d`.
pub proof fn lemma_distance_is(
    g: Seq<Vec<u8>>,
    w: int,
    h: int,
    sx: int,
    sy: int,
    x: int,
    y: int,
    d: nat,
)
    requires
        steps_from(g, w, h, sx, sy, x, y, d),
    ensures
        reachable(g, w, h, sx, sy, x, y),
        distance(g, w, h, sx, sy, x, y) == d,
{
    assert(within(g, w, h, sx, sy, x, y, d));
    let e = choose|e: nat| steps_from(g, w, h, sx, sy, x, y, e);
    lemma_steps_least(g, w, h, sx, sy, x, y, d, e);
    lemma_steps_least(g, w, h, sx, sy, x, y, e, d);
}

/// Every cell reached other than the start is open floor.
pub proof fn lemma_within_open(
    g: Seq<Vec<u8>>,
    w: int,
    h: int,
    sx: int,
    sy: int,
    x: int,
    y: int,
    k: nat,
)
    requires
        within(g, w, h, sx, sy, x, y, k),
        !(x == sx && y == sy),
    ensures
        is_open(g, w, h, x, y),
    decreases k,
{
    if within(g, w, h, sx, sy, x, y, (k - 1) as nat) {
        lemma_within_open(g, w, h, sx, sy, x, y, (k - 1) as nat);
    }
}



/// How many entries of `s` are zero.
pub open spec fn count_zero(s: Seq<usize>) -> nat
    decreases s.len(),
{
    if s.len() == 0 {
        0
    } else {
        count_zero(s.drop_last()) + if s.last() == 0 {
            1nat
        } else {
            0nat
        }
    }
}

proof fn lemma_count_zero_all(s: Seq<usize>)
    requires
        forall|i: int| 0 <= i < s.len() ==> s[i] == 0,
    ensures
        count_zero(s) == s.len(),
    decreases s.len(),
{
    if s.len() > 0 {
        lemma_count_zero_all(s.drop_last());
    }
}

proof fn lemma_count_zero_update(s: Seq<usize>, i: int, v: usize)
    requires
        0 <= i < s.len(),
        s[i] == 0,
        v != 0,
    ensures
        count_zero(s.update(i, v)) + 1 == count_zero(s),
    decreases s.len(),
{
    let t = s.update(i, v);
    if i == s.len() - 1 {
        assert(t.drop_last() =~= s.drop_last());
    } else {
        assert(t.drop_last() =~= s.drop_last().update(i, v));
        lemma_count_zero_update(s.drop_last(), i, v);
    }
}

/// The entry of a row-major table that belongs to `(x, y)`.
pub open spec fn stored(dist: Seq<usize>, w: int, x: int, y: int) -> int {
    dist[y * w + x] as int
}

pub open spec fn stored_at(dist: Seq<usize>, w: int, p: (usize, usize)) -> int {
    stored(dist, w, p.0 as int, p.1 as int)
}

/// `(nx, ny)` is one of the four cells next to `(x, y)`.
pub open spec fn adjacent(nx: int, ny: int, x: int, y: int) -> bool {
    ||| nx == x - 1 && ny == y
    ||| nx == x + 1 && ny == y
    ||| nx == x && ny == y - 1
    ||| nx == x && ny == y + 1
}

/// Every open cell next to `(x, y)` has been found.
pub open spec fn neighbors_found(g: Seq<Vec<u8>>, w: int, h: int, dist: Seq<usize>, x: int, y: int) -> bool {
    &&& is_open(g, w, h, x - 1, y) ==> stored(dist, w, x - 1, y) > 0
    &&& is_open(g, w, h, x + 1, y) ==> stored(dist, w, x + 1, y) > 0
    &&& is_open(g, w, h, x, y - 1) ==> stored(dist, w, x, y - 1) > 0
    &&& is_open(g, w, h, x, y + 1) ==> stored(dist, w, x, y + 1) > 0
}

/// State of the search: `dist` holds one plus the distance of every cell
/// found so far (zero for the others), `order` lists the found cells in the
/// order they were found, the cells before `qi` have been expanded, and
/// `level` is the distance being expanded.
#[verifier::opaque]
pub open spec fn bfs_inv(
    g: Seq<Vec<u8>>,
    w: int,
    h: int,
    sx: int,
    sy: int,
    dist: Seq<usize>,
    order: Seq<(usize, usize)>,
    qi: int,
    level: int,
) -> bool {
    &&& grid_fits(g, w, h)
    &&& in_grid(w, h, sx, sy)
    &&& w * h <= usize::MAX
    &&& dist.len() == w * h
    &&& 0 <= qi <= order.len()
    &&& order.len() >= 1
    &&& order[0].0 == sx && order[0].1 == sy
    &&& order.len() + count_zero(dist) == w * h
    &&& level >= 0
    &&& forall|i: int|
        0 <= i < order.len() ==> in_grid(w, h, #[trigger] order[i].0 as int, order[i].1 as int)
            && 0 < stored_at(dist, w, order[i]) <= order.len()
    &&& forall|x: int, y: int|
        in_grid(w, h, x, y) && #[trigger] stored(dist, w, x, y) > 0 ==> exists|i: int|
            0 <= i < order.len() && #[trigger] order[i].0 == x && order[i].1 == y
    &&& forall|x: int, y: int|
        in_grid(w, h, x, y) && #[trigger] stored(dist, w, x, y) > 0 ==> steps_from(
            g,
            w,
            h,
            sx,
            sy,
            x,
            y,
            (stored(dist, w, x, y) - 1) as nat,
        )
    &&& forall|i: int, j: int|
        0 <= i <= j < order.len() ==> stored_at(dist, w, #[trigger] order[i]) <= stored_at(
            dist,
            w,
            #[trigger] order[j],
        )
    &&& forall|i: int|
        0 <= i < qi ==> stored_at(dist, w, #[trigger] order[i]) <= level + 1 && neighbors_found(
            g,
            w,
            h,
            dist,
            order[i].0 as int,
            order[i].1 as int,
        )
    &&& forall|i: int|
        qi <= i < order.len() ==> level + 1 <= stored_at(dist, w, #[trigger] order[i]) <= level
            + 2
    &&& forall|x: int, y: int, k: nat|
        in_grid(w, h, x, y) && k <= level && #[trigger] within(g, w, h, sx, sy, x, y, k) ==> stored(
            dist,
            w,
            x,
            y,
        ) > 0
}


/// A cell next to an expanded cell is found, provided it is open.
proof fn lemma_found_next_to(
    g: Seq<Vec<u8>>,
    w: int,
    h: int,
    sx: int,
    sy: int,
    dist: Seq<usize>,
    order: Seq<(usize, usize)>,
    qi: int,
    level: int,
    qx: int,
    qy: int,
    x: int,
    y: int,
)
    requires
        bfs_inv(g, w, h, sx, sy, dist, order, qi, level),
        forall|i: int| qi <= i < order.len() ==> stored_at(dist, w, #[trigger] order[i]) >= level + 2,
        within(g, w, h, sx, sy, qx, qy, level as nat),
        adjacent(x, y, qx, qy),
        is_open(g, w, h, x, y),
    ensures
        stored(dist, w, x, y) > 0,
{
    reveal(bfs_inv);
    lemma_within_in_grid(g, w, h, sx, sy, qx, qy, level as nat);
    assert(stored(dist, w, qx, qy) > 0);
    let i = choose|i: int| 0 <= i < order.len() && #[trigger] order[i].0 == qx && order[i].1 == qy;
    lemma_steps_least(
        g,
        w,
        h,
        sx,
        sy,
        qx,
        qy,
        (stored(dist, w, qx, qy) - 1) as nat,
        level as nat,
    );
    assert(stored_at(dist, w, order[i]) == stored(dist, w, qx, qy));
    assert(i < qi);
    assert(neighbors_found(g, w, h, dist, order[i].0 as int, order[i].1 as int));
}

/// Once every cell of the current distance has been expanded, the search
/// may move on to the next distance.
proof fn lemma_level_up(
    g: Seq<Vec<u8>>,
    w: int,
    h: int,
    sx: int,
    sy: int,
    dist: Seq<usize>,
    order: Seq<(usize, usize)>,
    qi: int,
    level: int,
)
    requires
        bfs_inv(g, w, h, sx, sy, dist, order, qi, level),
        qi < order.len(),
        stored_at(dist, w, order[qi]) == level + 2,
    ensures
        bfs_inv(g, w, h, sx, sy, dist, order, qi, level + 1),
{
    reveal(bfs_inv);
    assert forall|i: int| qi <= i < order.len() implies stored_at(dist, w, #[trigger] order[i])
        >= level + 2 by {
        assert(stored_at(dist, w, order[qi]) <= stored_at(dist, w, order[i]));
    }
    let j = level as nat;
    assert forall|x: int, y: int, k: nat|
        in_grid(w, h, x, y) && k <= level + 1 && #[trigger] within(
            g,
            w,
            h,
            sx,
            sy,
            x,
            y,
            k,
        ) implies stored(dist, w, x, y) > 0 by {
        if k > level && !within(g, w, h, sx, sy, x, y, j) {
            assert(k == j + 1);
            if within(g, w, h, sx, sy, x - 1, y, j) {
                lemma_found_next_to(g, w, h, sx, sy, dist, order, qi, level, x - 1, y, x, y);
            } else if within(g, w, h, sx, sy, x + 1, y, j) {
                lemma_found_next_to(g, w, h, sx, sy, dist, order, qi, level, x + 1, y, x, y);
            } else if within(g, w, h, sx, sy, x, y - 1, j) {
                lemma_found_next_to(g, w, h, sx, sy, dist, order, qi, level, x, y - 1, x, y);
            } else {
                lemma_found_next_to(g, w, h, sx, sy, dist, order, qi, level, x, y + 1, x, y);
            }
        }
    }
}


/// Finding an open neighbour of the cell being expanded keeps the search state
/// consistent.
proof fn lemma_discover(
    g: Seq<Vec<u8>>,
    w: int,
    h: int,
    sx: int,
    sy: int,
    dist: Seq<usize>,
    order: Seq<(usize, usize)>,
    qi: int,
    level: int,
    nx: int,
    ny: int,
)
    requires
        bfs_inv(g, w, h, sx, sy, dist, order, qi, level),
        qi < order.len(),
        stored_at(dist, w, order[qi]) == level + 1,
        is_open(g, w, h, nx, ny),
        stored(dist, w, nx, ny) == 0,
        adjacent(nx, ny, order[qi].0 as int, order[qi].1 as int),
    ensures
        level + 2 <= order.len() + 1 <= w * h,
        bfs_inv(
            g,
            w,
            h,
            sx,
            sy,
            dist.update(ny * w + nx, (level + 2) as usize),
            order.push((nx as usize, ny as usize)),
            qi,
            level,
        ),
{
    reveal(bfs_inv);
    let v = ny * w + nx;
    crate::framebuffer::lemma_offset(w, h, nx, ny);
    lemma_count_zero_update(dist, v, 1);
    assert(order[qi] == order[qi]);
    assert(level + 2 <= w * h);
    let val = (level + 2) as usize;
    let d2 = dist.update(v, val);
    let o2 = order.push((nx as usize, ny as usize));
    crate::framebuffer::lemma_offset(w, h, nx, ny);
    lemma_count_zero_update(dist, v, val);
    assert(order[qi] == order[qi]);
    assert(level + 1 <= order.len());
    assert forall|x: int, y: int| in_grid(w, h, x, y) implies #[trigger] stored(d2, w, x, y) == if x
        == nx && y == ny {
        level + 2
    } else {
        stored(dist, w, x, y)
    } by {
        crate::framebuffer::lemma_offset(w, h, x, y);
        if x != nx || y != ny {
            assert(y * w + x != v);
        }
    }
    assert forall|i: int| 0 <= i < o2.len() implies in_grid(
        w,
        h,
        #[trigger] o2[i].0 as int,
        o2[i].1 as int,
    ) && 0 < stored_at(d2, w, o2[i]) <= o2.len() by {
        if i < order.len() {
            assert(o2[i] == order[i]);
            assert(in_grid(w, h, order[i].0 as int, order[i].1 as int));
        }
    }
    assert forall|x: int, y: int| in_grid(w, h, x, y) && #[trigger] stored(d2, w, x, y) > 0 implies exists|
        i: int,
    | 0 <= i < o2.len() && #[trigger] o2[i].0 == x && o2[i].1 == y by {
        if x == nx && y == ny {
            assert(o2[order.len() as int].0 == x);
        } else {
            assert(stored(dist, w, x, y) > 0);
            let i = choose|i: int| 0 <= i < order.len() && #[trigger] order[i].0 == x && order[i].1 == y;
            assert(o2[i] == order[i]);
        }
    }
    let ux = order[qi].0 as int;
    let uy = order[qi].1 as int;
    assert(stored(dist, w, ux, uy) > 0);
    assert(steps_from(g, w, h, sx, sy, ux, uy, level as nat));
    assert(!within(g, w, h, sx, sy, nx, ny, level as nat));
    assert(within(g, w, h, sx, sy, nx, ny, (level + 1) as nat));
    assert forall|x: int, y: int| in_grid(w, h, x, y) && #[trigger] stored(d2, w, x, y) > 0 implies steps_from(
        g,
        w,
        h,
        sx,
        sy,
        x,
        y,
        (stored(d2, w, x, y) - 1) as nat,
    ) by {}
    assert forall|i: int, j: int| 0 <= i <= j < o2.len() implies stored_at(d2, w, #[trigger] o2[i])
        <= stored_at(d2, w, #[trigger] o2[j]) by {
        if j < order.len() {
            assert(o2[i] == order[i]);
            assert(o2[j] == order[j]);
            assert(stored_at(dist, w, order[i]) <= stored_at(dist, w, order[j]));
        } else if i < order.len() {
            assert(o2[i] == order[i]);
            if i < qi {
                assert(stored_at(dist, w, order[i]) <= level + 1);
            } else {
                assert(stored_at(dist, w, order[i]) <= level + 2);
            }
        }
    }
    assert forall|i: int| 0 <= i < qi implies stored_at(d2, w, #[trigger] o2[i]) <= level + 1
        && neighbors_found(g, w, h, d2, o2[i].0 as int, o2[i].1 as int) by {
        assert(o2[i] == order[i]);
        assert(stored_at(dist, w, order[i]) <= level + 1);
        assert(neighbors_found(g, w, h, dist, order[i].0 as int, order[i].1 as int));
    }
    assert forall|i: int| qi <= i < o2.len() implies level + 1 <= stored_at(d2, w, #[trigger] o2[i])
        <= level + 2 by {
        if i < order.len() {
            assert(o2[i] == order[i]);
            assert(level + 1 <= stored_at(dist, w, order[i]) <= level + 2);
        }
    }
    assert forall|x: int, y: int, k: nat|
        in_grid(w, h, x, y) && k <= level && #[trigger] within(
            g,
            w,
            h,
            sx,
            sy,
            x,
            y,
            k,
        ) implies stored(d2, w, x, y) > 0 by {
        assert(stored(dist, w, x, y) > 0);
    }
}


/// Once every found cell has been expanded, every reachable cell has been found.
proof fn lemma_complete(
    g: Seq<Vec<u8>>,
    w: int,
    h: int,
    sx: int,
    sy: int,
    dist: Seq<usize>,
    order: Seq<(usize, usize)>,
    level: int,
    x: int,
    y: int,
    k: nat,
)
    requires
        bfs_inv(g, w, h, sx, sy, dist, order, order.len() as int, level),
        in_grid(w, h, x, y),
        within(g, w, h, sx, sy, x, y, k),
    ensures
        stored(dist, w, x, y) > 0,
    decreases k,
{
    reveal(bfs_inv);
    if k == 0 {
        assert(order[0] == order[0]);
    } else {
        let j = (k - 1) as nat;
        if within(g, w, h, sx, sy, x, y, j) {
            lemma_complete(g, w, h, sx, sy, dist, order, level, x, y, j);
        } else {
            let (qx, qy) = if within(g, w, h, sx, sy, x - 1, y, j) {
                (x - 1, y)
            } else if within(g, w, h, sx, sy, x + 1, y, j) {
                (x + 1, y)
            } else if within(g, w, h, sx, sy, x, y - 1, j) {
                (x, y - 1)
            } else {
                (x, y + 1)
            };
            lemma_within_in_grid(g, w, h, sx, sy, qx, qy, j);
            lemma_complete(g, w, h, sx, sy, dist, order, level, qx, qy, j);
            let i = choose|i: int| 0 <= i < order.len() && #[trigger] order[i].0 == qx && order[i].1 == qy;
            assert(neighbors_found(g, w, h, dist, order[i].0 as int, order[i].1 as int));
        }
    }
}

/// The outcome of a finished search from `(sx, sy)`: `dist` holds one plus
/// the shortest distance of every reachable cell and zero for the others, and
/// `order` lists the reachable cells, the start first.
pub open spec fn bfs_done(
    g: Seq<Vec<u8>>,
    w: int,
    h: int,
    sx: int,
    sy: int,
    dist: Seq<usize>,
    order: Seq<(usize, usize)>,
) -> bool {
    &&& dist.len() == w * h
    &&& order.len() >= 1
    &&& order[0].0 == sx && order[0].1 == sy
    &&& forall|i: int|
        0 <= i < order.len() ==> in_grid(w, h, #[trigger] order[i].0 as int, order[i].1 as int)
            && stored_at(dist, w, order[i]) > 0
    &&& forall|x: int, y: int|
        in_grid(w, h, x, y) ==> (#[trigger] stored(dist, w, x, y) > 0 <==> reachable(
            g,
            w,
            h,
            sx,
            sy,
            x,
            y,
        ))
    &&& forall|x: int, y: int|
        in_grid(w, h, x, y) && #[trigger] stored(dist, w, x, y) > 0 ==> distance(
            g,
            w,
            h,
            sx,
            sy,
            x,
            y,
        ) == stored(dist, w, x, y) - 1
    &&& forall|x: int, y: int|
        in_grid(w, h, x, y) && #[trigger] stored(dist, w, x, y) > 0 ==> exists|i: int|
            0 <= i < order.len() && #[trigger] order[i].0 == x && order[i].1 == y
}

/// One discovery attempt of the search, as a function of the search state:
/// the cell `(nx, ny)` is recorded (one more than `su`) and appended to the
/// order when it lies on the grid, is open and has not been found yet.
pub open spec fn discover_spec(
    g: Seq<Vec<u8>>,
    w: int,
    h: int,
    dist: Seq<usize>,
    order: Seq<(usize, usize)>,
    nx: int,
    ny: int,
    su: usize,
) -> (Seq<usize>, Seq<(usize, usize)>) {
    if in_grid(w, h, nx, ny) && g[ny]@[nx] == 0 && dist[ny * w + nx] == 0 {
        (dist.update(ny * w + nx, (su + 1) as usize), order.push((nx as usize, ny as usize)))
    } else {
        (dist, order)
    }
}

/// Expanding the cell at position `qi` of the order: its neighbours are tried
/// left, right, up, down.
pub open spec fn expand_spec(
    g: Seq<Vec<u8>>,
    w: int,
    h: int,
    dist: Seq<usize>,
    order: Seq<(usize, usize)>,
    qi: int,
) -> (Seq<usize>, Seq<(usize, usize)>) {
    let x = order[qi].0 as int;
    let y = order[qi].1 as int;
    let su = dist[y * w + x];
    let s1 = if x > 0 {
        discover_spec(g, w, h, dist, order, x - 1, y, su)
    } else {
        (dist, order)
    };
    let s2 = discover_spec(g, w, h, s1.0, s1.1, x + 1, y, su);
    let s3 = if y > 0 {
        discover_spec(g, w, h, s2.0, s2.1, x, y - 1, su)
    } else {
        s2
    };
    discover_spec(g, w, h, s3.0, s3.1, x, y + 1, su)
}

/// The search's table, order of discovery, and expansion point.
pub struct Search {
    pub dist: Seq<usize>,
    pub order: Seq<(usize, usize)>,
    pub qi: nat,
}

/// Only the start found, at distance zero (stored as one).
pub open spec fn search_start(w: int, h: int, sx: int, sy: int) -> Search {
    Search {
        dist: Seq::new(
            (w * h) as nat,
            |i: int|
                if i == sy * w + sx {
                    1usize
                } else {
                    0usize
                },
        ),
        order: seq![(sx as usize, sy as usize)],
        qi: 0,
    }
}

/// Expands the next cell of the order, if any is left.
pub open spec fn search_step(g: Seq<Vec<u8>>, w: int, h: int, s: Search) -> Search {
    if s.qi >= s.order.len() {
        s
    } else {
        let r = expand_spec(g, w, h, s.dist, s.order, s.qi as int);
        Search { dist: r.0, order: r.1, qi: s.qi + 1 }
    }
}

/// `n` steps of the search from `s`.
pub open spec fn search_run(g: Seq<Vec<u8>>, w: int, h: int, s: Search, n: nat) -> Search
    decreases n,
{
    if n == 0 {
        s
    } else {
        search_run(g, w, h, search_step(g, w, h, s), (n - 1) as nat)
    }
}

/// The finished breadth-first search from `(sx, sy)`: every cell is expanded
/// at most once, so `w * h` steps finish it.
pub open spec fn search_result(g: Seq<Vec<u8>>, w: int, h: int, sx: int, sy: int) -> Search {
    search_run(g, w, h, search_start(w, h, sx, sy), (w * h) as nat)
}

proof fn lemma_search_succ(g: Seq<Vec<u8>>, w: int, h: int, s: Search, n: nat)
    ensures
        search_run(g, w, h, s, n + 1) == search_step(g, w, h, search_run(g, w, h, s, n)),
    decreases n,
{
    assert(search_run(g, w, h, s, n + 1) == search_run(g, w, h, search_step(g, w, h, s), n));
    if n > 0 {
        lemma_search_succ(g, w, h, search_step(g, w, h, s), (n - 1) as nat);
        assert(search_run(g, w, h, s, n) == search_run(g, w, h, search_step(g, w, h, s), (n - 1) as nat));
    } else {
        assert(search_run(g, w, h, search_step(g, w, h, s), 0) == search_step(g, w, h, s));
    }
}

proof fn lemma_search_split(g: Seq<Vec<u8>>, w: int, h: int, s: Search, a: nat, b: nat)
    ensures
        search_run(g, w, h, s, a + b) == search_run(g, w, h, search_run(g, w, h, s, a), b),
    decreases a,
{
    if a > 0 {
        lemma_search_split(g, w, h, search_step(g, w, h, s), (a - 1) as nat, b);
        assert(search_run(g, w, h, s, a + b) == search_run(
            g,
            w,
            h,
            search_step(g, w, h, s),
            (a - 1 + b) as nat,
        ));
    }
}

proof fn lemma_search_done(g: Seq<Vec<u8>>, w: int, h: int, s: Search, n: nat)
    requires
        s.qi >= s.order.len(),
    ensures
        search_run(g, w, h, s, n) == s,
    decreases n,
{
    if n > 0 {
        lemma_search_done(g, w, h, s, (n - 1) as nat);
    }
}

/// Tries to find cell `(nx, ny)` from the cell being expanded.
fn discover(
    cells: &[Vec<u8>],
    width: usize,
    height: usize,
    dist: &mut Vec<usize>,
    order: &mut Vec<(usize, usize)>,
    nx: usize,
    ny: usize,
    su: usize,
    Ghost(sx): Ghost<int>,
    Ghost(sy): Ghost<int>,
    Ghost(qi): Ghost<int>,
    Ghost(level): Ghost<int>,
)
    requires
        bfs_inv(cells@, width as int, height as int, sx, sy, old(dist)@, old(order)@, qi, level),
        qi < old(order)@.len(),
        su == stored_at(old(dist)@, width as int, old(order)@[qi]),
        su == level + 1,
        adjacent(nx as int, ny as int, old(order)@[qi].0 as int, old(order)@[qi].1 as int),
    ensures
        bfs_inv(cells@, width as int, height as int, sx, sy, final(dist)@, final(order)@, qi, level),
        final(order)@.len() >= old(order)@.len(),
        forall|i: int| 0 <= i < old(order)@.len() ==> final(order)@[i] == old(order)@[i],
        forall|x: int, y: int|
            in_grid(width as int, height as int, x, y) && stored(old(dist)@, width as int, x, y) > 0
                ==> #[trigger] stored(final(dist)@, width as int, x, y) == stored(
                old(dist)@,
                width as int,
                x,
                y,
            ),
        is_open(cells@, width as int, height as int, nx as int, ny as int) ==> stored(
            final(dist)@,
            width as int,
            nx as int,
            ny as int,
        ) > 0,
        (final(dist)@, final(order)@) == discover_spec(
            cells@,
            width as int,
            height as int,
            old(dist)@,
            old(order)@,
            nx as int,
            ny as int,
            su,
        ),
{
    proof {
        reveal(bfs_inv);
    }
    if nx < width && ny < height && cells[ny][nx] == 0 {
        proof {
            crate::framebuffer::lemma_offset(width as int, height as int, nx as int, ny as int);
        }
        let i: usize = ny * width + nx;
        if dist[i] == 0 {
            proof {
                lemma_discover(
                    cells@,
                    width as int,
                    height as int,
                    sx,
                    sy,
                    dist@,
                    order@,
                    qi,
                    level,
                    nx as int,
                    ny as int,
                );
            }
            let ghost d0 = dist@;
            order.push((nx, ny));
            dist[i] = su + 1;
            assert forall|x: int, y: int|
                in_grid(width as int, height as int, x, y) && stored(d0, width as int, x, y) > 0
                    implies #[trigger] stored(dist@, width as int, x, y) == stored(d0, width as int, x, y) by {
                crate::framebuffer::lemma_offset(width as int, height as int, x, y);
                if y * width + x == i {
                    assert(stored(d0, width as int, x, y) == d0[i as int]);
                }
            }
        }
    }
}


/// What the search state says of the cell at position `qi` of the order.
proof fn lemma_inv_facts(
    g: Seq<Vec<u8>>,
    w: int,
    h: int,
    sx: int,
    sy: int,
    dist: Seq<usize>,
    order: Seq<(usize, usize)>,
    qi: int,
    level: int,
)
    requires
        bfs_inv(g, w, h, sx, sy, dist, order, qi, level),
        0 <= qi < order.len(),
    ensures
        in_grid(w, h, order[qi].0 as int, order[qi].1 as int),
        stored_at(dist, w, order[qi]) > 0,
        level + 1 <= stored_at(dist, w, order[qi]) <= level + 2,
        grid_fits(g, w, h),
        w * h <= usize::MAX,
        dist.len() == w * h,
        order.len() + count_zero(dist) == w * h,
{
    reveal(bfs_inv);
    assert(order[qi] == order[qi]);
}

/// The search never holds more cells than the grid.
proof fn lemma_inv_count(
    g: Seq<Vec<u8>>,
    w: int,
    h: int,
    sx: int,
    sy: int,
    dist: Seq<usize>,
    order: Seq<(usize, usize)>,
    qi: int,
    level: int,
)
    requires
        bfs_inv(g, w, h, sx, sy, dist, order, qi, level),
    ensures
        order.len() + count_zero(dist) == w * h,
        0 <= qi <= order.len(),
{
    reveal(bfs_inv);
}

/// Expanding the cell at position `qi` moves the expansion point past it.
proof fn lemma_expanded(
    g: Seq<Vec<u8>>,
    w: int,
    h: int,
    sx: int,
    sy: int,
    dist: Seq<usize>,
    order: Seq<(usize, usize)>,
    qi: int,
    level: int,
)
    requires
        bfs_inv(g, w, h, sx, sy, dist, order, qi, level),
        0 <= qi < order.len(),
        stored_at(dist, w, order[qi]) == level + 1,
        neighbors_found(g, w, h, dist, order[qi].0 as int, order[qi].1 as int),
    ensures
        bfs_inv(g, w, h, sx, sy, dist, order, qi + 1, level),
{
    reveal(bfs_inv);
}

/// Expands cell `order[qi]`: finds its open neighbours.
fn expand(
    cells: &[Vec<u8>],
    width: usize,
    height: usize,
    dist: &mut Vec<usize>,
    order: &mut Vec<(usize, usize)>,
    qi: usize,
    su: usize,
    Ghost(sx): Ghost<int>,
    Ghost(sy): Ghost<int>,
    Ghost(level): Ghost<int>,
)
    requires
        bfs_inv(cells@, width as int, height as int, sx, sy, old(dist)@, old(order)@, qi as int, level),
        qi < old(order)@.len(),
        su == stored_at(old(dist)@, width as int, old(order)@[qi as int]),
        su == level + 1,
    ensures
        bfs_inv(cells@, width as int, height as int, sx, sy, final(dist)@, final(order)@, qi + 1, level),
        final(order)@.len() >= old(order)@.len(),
        (final(dist)@, final(order)@) == expand_spec(
            cells@,
            width as int,
            height as int,
            old(dist)@,
            old(order)@,
            qi as int,
        ),
{
    let ghost g = cells@;
    let ghost w = width as int;
    let ghost h = height as int;
    let (x, y) = order[qi];
    assert(order@[qi as int] == (x, y));
    proof {
        lemma_inv_facts(g, w, h, sx, sy, dist@, order@, qi as int, level);
    }
    let ghost d0 = dist@;
    if x > 0 {
        discover(
            cells,
            width,
            height,
            dist,
            order,
            x - 1,
            y,
            su,
            Ghost(sx),
            Ghost(sy),
            Ghost(qi as int),
            Ghost(level),
        );
    }
    let ghost d1 = dist@;
    assert(order@[qi as int] == (x, y));
    assert(stored(d1, w, x as int, y as int) == su);
    discover(
        cells,
        width,
        height,
        dist,
        order,
        x + 1,
        y,
        su,
        Ghost(sx),
        Ghost(sy),
        Ghost(qi as int),
        Ghost(level),
    );
    let ghost d2 = dist@;
    assert(order@[qi as int] == (x, y));
    assert(stored(d2, w, x as int, y as int) == su);
    if y > 0 {
        discover(
            cells,
            width,
            height,
            dist,
            order,
            x,
            y - 1,
            su,
            Ghost(sx),
            Ghost(sy),
            Ghost(qi as int),
            Ghost(level),
        );
    }
    let ghost d3 = dist@;
    assert(order@[qi as int] == (x, y));
    assert(stored(d3, w, x as int, y as int) == su);
    discover(
        cells,
        width,
        height,
        dist,
        order,
        x,
        y + 1,
        su,
        Ghost(sx),
        Ghost(sy),
        Ghost(qi as int),
        Ghost(level),
    );
    assert(order@[qi as int] == (x, y));
    proof {
        let xi = x as int;
        let yi = y as int;
        assert(su == d0[yi * w + xi]);
        if is_open(g, w, h, xi - 1, yi) {
            assert(stored(d1, w, xi - 1, yi) > 0);
            assert(stored(d2, w, xi - 1, yi) > 0);
            assert(stored(d3, w, xi - 1, yi) > 0);
        }
        if is_open(g, w, h, xi + 1, yi) {
            assert(stored(d2, w, xi + 1, yi) > 0);
            assert(stored(d3, w, xi + 1, yi) > 0);
        }
        if is_open(g, w, h, xi, yi - 1) {
            assert(stored(d3, w, xi, yi - 1) > 0);
        }
        assert(neighbors_found(g, w, h, dist@, xi, yi));
        lemma_expanded(g, w, h, sx, sy, dist@, order@, qi as int, level);
    }
}

/// Breadth-first search from `start` over the open cells of the grid.
pub fn breadth_first(cells: &[Vec<u8>], width: usize, height: usize, start: (usize, usize)) -> (res: (
    Vec<usize>,
    Vec<(usize, usize)>,
))
    requires
        grid_fits(cells@, width as int, height as int),
        in_grid(width as int, height as int, start.0 as int, start.1 as int),
        width * height <= usize::MAX,
    ensures
        bfs_done(cells@, width as int, height as int, start.0 as int, start.1 as int, res.0@, res.1@),
        res.0@ == search_result(cells@, width as int, height as int, start.0 as int, start.1 as int).dist,
        res.1@ == search_result(cells@, width as int, height as int, start.0 as int, start.1 as int).order,
{
    let ghost g = cells@;
    let ghost w = width as int;
    let ghost h = height as int;
    let ghost sx = start.0 as int;
    let ghost sy = start.1 as int;
    let n: usize = width * height;
    let mut dist: Vec<usize> = Vec::new();
    while dist.len() < n
        invariant
            dist@.len() <= n,
            forall|i: int| 0 <= i < dist@.len() ==> dist@[i] == 0,
        decreases n - dist@.len(),
    {
        dist.push(0);
    }
    proof {
        reveal(bfs_inv);
        lemma_count_zero_all(dist@);
        crate::framebuffer::lemma_offset(w, h, sx, sy);
    }
    let si: usize = start.1 * width + start.0;
    let ghost zeros = dist@;
    dist[si] = 1;
    proof {
        lemma_count_zero_update(zeros, si as int, 1);
    }
    let mut order: Vec<(usize, usize)> = Vec::new();
    order.push(start);
    let mut qi: usize = 0;
    let ghost mut level: int = 0;
    proof {
        assert forall|x: int, y: int| in_grid(w, h, x, y) implies #[trigger] stored(dist@, w, x, y)
            == if x == sx && y == sy {
            1int
        } else {
            0int
        } by {
            crate::framebuffer::lemma_offset(w, h, x, y);
            if x != sx || y != sy {
                assert(y * w + x != si);
            }
        }
        assert(order@[0] == start);
        assert forall|x: int, y: int|
            in_grid(w, h, x, y) && #[trigger] stored(dist@, w, x, y) > 0 implies exists|i: int|
                0 <= i < order@.len() && #[trigger] order@[i].0 == x && order@[i].1 == y by {
            assert(order@[0].0 == x);
        }
        assert forall|x: int, y: int, k: nat|
            in_grid(w, h, x, y) && k <= level && #[trigger] within(
                g,
                w,
                h,
                sx,
                sy,
                x,
                y,
                k,
            ) implies stored(dist@, w, x, y) > 0 by {}
        assert(bfs_inv(g, w, h, sx, sy, dist@, order@, 0, 0));
        assert(dist@ =~= search_start(w, h, sx, sy).dist);
        assert(order@ =~= search_start(w, h, sx, sy).order);
    }
    while qi < order.len()
        invariant
            bfs_inv(g, w, h, sx, sy, dist@, order@, qi as int, level),
            g == cells@,
            w == width,
            h == height,
            (Search { dist: dist@, order: order@, qi: qi as nat }) == search_run(
                g,
                w,
                h,
                search_start(w, h, sx, sy),
                qi as nat,
            ),
        decreases 2 * count_zero(dist@) + order@.len() - qi,
    {
        proof {
            lemma_search_succ(g, w, h, search_start(w, h, sx, sy), qi as nat);
        }
        let (x, y) = order[qi];
        proof {
            lemma_inv_facts(g, w, h, sx, sy, dist@, order@, qi as int, level);
            crate::framebuffer::lemma_offset(w, h, x as int, y as int);
        }
        let su: usize = dist[y * width + x];
        proof {
            if su == level + 2 {
                lemma_level_up(g, w, h, sx, sy, dist@, order@, qi as int, level);
                level = level + 1;
            }
        }
        expand(cells, width, height, &mut dist, &mut order, qi, su, Ghost(sx), Ghost(sy), Ghost(level));
        proof {
            lemma_inv_count(g, w, h, sx, sy, dist@, order@, qi + 1, level);
        }
        assert((Search { dist: dist@, order: order@, qi: (qi + 1) as nat }) == search_run(
            g,
            w,
            h,
            search_start(w, h, sx, sy),
            (qi + 1) as nat,
        ));
        qi = qi + 1;
    }
    proof {
        lemma_inv_count(g, w, h, sx, sy, dist@, order@, qi as int, level);
        lemma_search_split(g, w, h, search_start(w, h, sx, sy), qi as nat, (w * h - qi) as nat);
        lemma_search_done(
            g,
            w,
            h,
            search_run(g, w, h, search_start(w, h, sx, sy), qi as nat),
            (w * h - qi) as nat,
        );
        reveal(bfs_inv);
        assert forall|x: int, y: int| in_grid(w, h, x, y) implies (#[trigger] stored(dist@, w, x, y)
            > 0 <==> reachable(g, w, h, sx, sy, x, y)) by {
            if stored(dist@, w, x, y) > 0 {
                assert(within(g, w, h, sx, sy, x, y, (stored(dist@, w, x, y) - 1) as nat));
            }
            if reachable(g, w, h, sx, sy, x, y) {
                let k = choose|k: nat| #[trigger] within(g, w, h, sx, sy, x, y, k);
                lemma_complete(g, w, h, sx, sy, dist@, order@, level, x, y, k);
            }
        }
        assert forall|x: int, y: int| in_grid(w, h, x, y) && #[trigger] stored(dist@, w, x, y)
            > 0 implies distance(g, w, h, sx, sy, x, y) == stored(dist@, w, x, y) - 1 by {
            lemma_distance_is(g, w, h, sx, sy, x, y, (stored(dist@, w, x, y) - 1) as nat);
        }
    }
    (dist, order)
}

} // verus!
