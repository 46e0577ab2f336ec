//! The maze: generation from a seed, wall queries, and the cells picked for
//! the player's start heading and the collectibles.
use vstd::prelude::*;
use crate::grid;

verus! {

/// Columns of logical cells; the grid has a wall between any two of them.
pub const LOGICAL_COLS: usize = 12;

/// Rows of logical cells.
pub const LOGICAL_ROWS: usize = 9;

/// The seed of each level's maze.
pub const LEVEL_SEEDS: [u32; 3] = [0x1234_5678, 0x9e37_79b9, 0x85eb_ca6b];

/// A maze laid out on a grid of wall codes: `0` is floor, `1`..`4` are walls
/// (coloured by quadrant).
pub struct Maze {
    /// `cells[y][x]` is the code of column `x`, row `y`.
    pub cells: Vec<Vec<u8>>,
    pub width: usize,
    pub height: usize,
    /// The cell the player starts in (the player stands at its centre).
    pub spawn: (usize, usize),
    /// The cell that ends the level.
    pub goal: (usize, usize),
}

/// One step of the xorshift32 generator.
pub open spec fn xorshift32(x: u32) -> u32 {
    let a = x ^ (x << 13u32);
    let b = a ^ (a >> 17u32);
    b ^ (b << 5u32)
}

/// `|a - b|`.
pub open spec fn abs_diff(a: int, b: int) -> int {
    if a >= b {
        a - b
    } else {
        b - a
    }
}

/// Scanning the first `n` cells of `order`: the first of them with the
/// largest recorded distance, or `init` when none is recorded farther.
pub open spec fn farthest_scan(dist: Seq<usize>, w: int, order: Seq<(usize, usize)>, n: nat, init: (
    usize,
    usize,
)) -> (usize, usize)
    decreases n,
{
    if n == 0 {
        init
    } else {
        let prev = farthest_scan(dist, w, order, (n - 1) as nat, init);
        let e = order[n - 1];
        if grid::stored_at(dist, w, e) > grid::stored_at(dist, w, prev) {
            e
        } else {
            prev
        }
    }
}

/// The cell `farthest_cell` picks: among the cells farthest from `start`, the
/// one the breadth-first search finds first.
pub open spec fn farthest_of(g: Seq<Vec<u8>>, w: int, h: int, start: (usize, usize)) -> (usize, usize) {
    let s = grid::search_result(g, w, h, start.0 as int, start.1 as int);
    farthest_scan(s.dist, w, s.order, s.order.len(), start)
}

/// `e` lies on a shortest walk of `total` steps between the two searches'
/// starting cells: `dist` and `gdist` record (plus one) its distances from
/// each, and they add up to `total`.
pub open spec fn on_path(dist: Seq<usize>, gdist: Seq<usize>, w: int, e: (usize, usize), total: int) -> bool {
    &&& grid::stored_at(dist, w, e) > 0
    &&& grid::stored_at(gdist, w, e) > 0
    &&& (grid::stored_at(dist, w, e) - 1) + (grid::stored_at(gdist, w, e) - 1) == total
}

/// `e` is a cell the scan may pick: on the path, and neither `avoid1` nor
/// `avoid2`.
pub open spec fn eligible(
    dist: Seq<usize>,
    gdist: Seq<usize>,
    w: int,
    e: (usize, usize),
    total: int,
    avoid1: (usize, usize),
    avoid2: (usize, usize),
) -> bool {
    e != avoid1 && e != avoid2 && on_path(dist, gdist, w, e, total)
}

/// Scanning the first `n` cells of `order`, keeping the eligible ones, the
/// first whose recorded distance is closest to `t`.
pub open spec fn closest_scan(
    dist: Seq<usize>,
    gdist: Seq<usize>,
    w: int,
    order: Seq<(usize, usize)>,
    n: nat,
    t: int,
    total: int,
    avoid1: (usize, usize),
    avoid2: (usize, usize),
) -> Option<(usize, usize)>
    decreases n,
{
    if n == 0 {
        None
    } else {
        let prev = closest_scan(dist, gdist, w, order, (n - 1) as nat, t, total, avoid1, avoid2);
        let e = order[n - 1];
        if !eligible(dist, gdist, w, e, total, avoid1, avoid2) {
            prev
        } else {
            match prev {
                None => Some(e),
                Some(b) => if abs_diff(grid::stored_at(dist, w, e) - 1, t) < abs_diff(
                    grid::stored_at(dist, w, b) - 1,
                    t,
                ) {
                    Some(e)
                } else {
                    prev
                },
            }
        }
    }
}

/// Among the searched cells that are eligible (on a shortest walk of `total`
/// steps, and neither `avoid1` nor `avoid2`), the first whose distance is
/// closest to `t`.
fn closest_to(
    dist: &Vec<usize>,
    gdist: &Vec<usize>,
    order: &Vec<(usize, usize)>,
    width: usize,
    t: usize,
    total: usize,
    avoid1: (usize, usize),
    avoid2: (usize, usize),
    Ghost(g): Ghost<Seq<Vec<u8>>>,
    Ghost(h): Ghost<int>,
    Ghost(sx): Ghost<int>,
    Ghost(sy): Ghost<int>,
) -> (best: Option<(usize, usize)>)
    requires
        grid::bfs_done(g, width as int, h, sx, sy, dist@, order@),
        gdist@.len() == width * h,
        width * h <= usize::MAX,
    ensures
        best is None <==> forall|j: int|
            0 <= j < order@.len() ==> !eligible(
                dist@,
                gdist@,
                width as int,
                #[trigger] order@[j],
                total as int,
                avoid1,
                avoid2,
            ),
        best matches Some(c) ==> {
            &&& exists|j: int| 0 <= j < order@.len() && #[trigger] order@[j] == c
            &&& eligible(dist@, gdist@, width as int, c, total as int, avoid1, avoid2)
            &&& forall|j: int|
                0 <= j < order@.len() && eligible(
                    dist@,
                    gdist@,
                    width as int,
                    #[trigger] order@[j],
                    total as int,
                    avoid1,
                    avoid2,
                ) ==> abs_diff(grid::stored_at(dist@, width as int, c) - 1, t as int) <= abs_diff(
                    grid::stored_at(dist@, width as int, order@[j]) - 1,
                    t as int,
                )
        },
        best == closest_scan(
            dist@,
            gdist@,
            width as int,
            order@,
            order@.len(),
            t as int,
            total as int,
            avoid1,
            avoid2,
        ),
{
    let ghost w = width as int;
    let mut best: Option<(usize, usize)> = None;
    let mut best_key: usize = 0;
    let mut i: usize = 0;
    while i < order.len()
        invariant
            grid::bfs_done(g, w, h, sx, sy, dist@, order@),
            gdist@.len() == w * h,
            w == width,
            w * h <= usize::MAX,
            i <= order@.len(),
            best == closest_scan(dist@, gdist@, w, order@, i as nat, t as int, total as int, avoid1, avoid2),
            best is None <==> forall|j: int|
                0 <= j < i ==> !eligible(dist@, gdist@, w, #[trigger] order@[j], total as int, avoid1, avoid2),
            best matches Some(c) ==> {
                &&& exists|j: int| 0 <= j < order@.len() && #[trigger] order@[j] == c
                &&& eligible(dist@, gdist@, w, c, total as int, avoid1, avoid2)
                &&& best_key == abs_diff(grid::stored_at(dist@, w, c) - 1, t as int)
                &&& forall|j: int|
                    0 <= j < i && eligible(dist@, gdist@, w, #[trigger] order@[j], total as int, avoid1, avoid2)
                        ==> best_key <= abs_diff(grid::stored_at(dist@, w, order@[j]) - 1, t as int)
            },
        decreases order@.len() - i,
    {
        let (x, y) = order[i];
        assert(order@[i as int] == (x, y));
        proof {
            crate::framebuffer::lemma_offset(w, h, x as int, y as int);
        }
        let d: usize = dist[y * width + x] - 1;
        let gd: usize = gdist[y * width + x];
        let keep = !(x == avoid1.0 && y == avoid1.1) && !(x == avoid2.0 && y == avoid2.1) && gd > 0 && d
            <= total && total - d == gd - 1;
        if keep {
            let key: usize = if d >= t {
                d - t
            } else {
                t - d
            };
            let better = match best {
                None => true,
                Some(_) => key < best_key,
            };
            if better {
                best = Some((x, y));
                best_key = key;
            }
        }
        i = i + 1;
    }
    best
}

/// The wall code of rock at `(x, y)` in a `w` x `h` maze: `1` in the top-left
/// quarter, `2` top-right, `3` bottom-left, `4` bottom-right (the right and
/// bottom quarters start at `w / 2` and `h / 2`).
pub open spec fn quadrant_code(w: int, h: int, x: int, y: int) -> u8 {
    let qx = x >= w / 2;
    let qy = y >= h / 2;
    if !qx && !qy {
        1
    } else if qx && !qy {
        2
    } else if !qx && qy {
        3
    } else {
        4
    }
}

/// The grid `c` with its rock (code `1`) recoloured by quadrant.
pub open spec fn painted(c: Seq<Vec<u8>>, x: int, y: int) -> u8 {
    if c[y]@[x] == 1 {
        quadrant_code(25, 19, x, y)
    } else {
        c[y]@[x]
    }
}

/// A xorshift32 pseudo-random generator; the field is its state.
pub struct Rng(pub u32);

impl Rng {
    /// Advances the state and returns the new state.
    pub fn next(&mut self) -> (r: u32)
        ensures
            r == xorshift32(old(self).0),
            final(self).0 == r,
    {
        let mut x = self.0;
        x ^= x << 13u32;
        x ^= x >> 17u32;
        x ^= x << 5u32;
        self.0 = x;
        x
    }

    /// Advances the state and returns the new state modulo `n`.
    pub fn range(&mut self, n: usize) -> (r: usize)
        requires
            n > 0,
        ensures
            final(self).0 == xorshift32(old(self).0),
            r == (xorshift32(old(self).0) as usize) % n,
            r < n,
    {
        (self.next() as usize) % n
    }
}

impl Maze {
    /// The grid has at least the stated numbers of rows and columns, and the
    /// start and goal lie on it.
    pub open spec fn wf(&self) -> bool {
        &&& grid::grid_fits(self.cells@, self.width as int, self.height as int)
        &&& grid::in_grid(self.width as int, self.height as int, self.spawn.0 as int, self.spawn.1 as int)
        &&& grid::in_grid(self.width as int, self.height as int, self.goal.0 as int, self.goal.1 as int)
    }

    /// The code of column `x`, row `y`.
    pub open spec fn cell(&self, x: int, y: int) -> u8 {
        self.cells@[y]@[x]
    }

    /// `(x, y)` is a floor cell of the maze.
    pub open spec fn open_at(&self, x: int, y: int) -> bool {
        grid::is_open(self.cells@, self.width as int, self.height as int, x, y)
    }

    /// `(x, y)` can be walked to from the start.
    pub open spec fn reachable_from_spawn(&self, x: int, y: int) -> bool {
        grid::reachable(
            self.cells@,
            self.width as int,
            self.height as int,
            self.spawn.0 as int,
            self.spawn.1 as int,
            x,
            y,
        )
    }

    /// Steps on the shortest walk from the start to `(x, y)`, or `-1`.
    pub open spec fn spawn_distance(&self, x: int, y: int) -> int {
        grid::distance(
            self.cells@,
            self.width as int,
            self.height as int,
            self.spawn.0 as int,
            self.spawn.1 as int,
            x,
            y,
        )
    }

    /// Whether `(x, y)` blocks movement: every position off the grid does.
    pub fn is_wall(&self, x: i32, y: i32) -> (r: bool)
        requires
            grid::grid_fits(self.cells@, self.width as int, self.height as int),
        ensures
            r == !self.open_at(x as int, y as int),
    {
        if x < 0 || y < 0 || x as usize >= self.width || y as usize >= self.height {
            return true;
        }
        self.cells[y as usize][x as usize] != 0
    }

    /// The code at `(x, y)`; positions off the grid read as wall code `1`.
    pub fn wall_type(&self, x: i32, y: i32) -> (r: u8)
        requires
            grid::grid_fits(self.cells@, self.width as int, self.height as int),
        ensures
            r == if grid::in_grid(self.width as int, self.height as int, x as int, y as int) {
                self.cell(x as int, y as int)
            } else {
                1
            },
    {
        if x < 0 || y < 0 || x as usize >= self.width || y as usize >= self.height {
            return 1;
        }
        self.cells[y as usize][x as usize]
    }

    /// Whether the cell `(x, y)` (the whole-number parts of a position) is the goal.
    pub fn is_goal(&self, x: usize, y: usize) -> (r: bool)
        ensures
            r == (x == self.goal.0 && y == self.goal.1),
    {
        x == self.goal.0 && y == self.goal.1
    }

    /// The heading, in quarter turns clockwise from east (`0` east, `1`
    /// south, `2` west, `-1` north), that the player should start with so as
    /// to look down an open corridor: the first open neighbour of the start
    /// cell in that order, or east when all four are walls.
    pub open spec fn facing(&self) -> int {
        let cx = self.spawn.0 as int;
        let cy = self.spawn.1 as int;
        if self.open_at(cx + 1, cy) {
            0
        } else if self.open_at(cx, cy + 1) {
            1
        } else if self.open_at(cx - 1, cy) {
            2
        } else if self.open_at(cx, cy - 1) {
            -1
        } else {
            0
        }
    }

    /// The start heading in quarter turns; see [`Maze::facing`].
    pub fn spawn_facing_angle(&self) -> (q: i32)
        requires
            grid::grid_fits(self.cells@, self.width as int, self.height as int),
            self.spawn.0 < i32::MAX,
            self.spawn.1 < i32::MAX,
        ensures
            q == self.facing(),
            (self.open_at(self.spawn.0 + 1, self.spawn.1 as int) || self.open_at(
                self.spawn.0 as int,
                self.spawn.1 + 1,
            ) || self.open_at(self.spawn.0 - 1, self.spawn.1 as int) || self.open_at(
                self.spawn.0 as int,
                self.spawn.1 - 1,
            )) ==> self.open_at(
                self.spawn.0 + if q == 0 {
                    1int
                } else if q == 2 {
                    -1int
                } else {
                    0int
                },
                self.spawn.1 + if q == 1 {
                    1int
                } else if q == -1 {
                    -1int
                } else {
                    0int
                },
            ),
    {
        let cx = self.spawn.0 as i32;
        let cy = self.spawn.1 as i32;
        if !self.is_wall(cx + 1, cy) {
            return 0;
        }
        if !self.is_wall(cx, cy + 1) {
            return 1;
        }
        if !self.is_wall(cx - 1, cy) {
            return 2;
        }
        if !self.is_wall(cx, cy - 1) {
            return -1;
        }
        0
    }

    /// The open cell farthest (by shortest walk) from `start`; among equally
    /// far cells the search meets one first. `start` counts as reached even
    /// when it is a wall.
    pub fn farthest_cell(cells: &[Vec<u8>], width: usize, height: usize, start: (usize, usize)) -> (far: (
        usize,
        usize,
    ))
        requires
            grid::grid_fits(cells@, width as int, height as int),
            grid::in_grid(width as int, height as int, start.0 as int, start.1 as int),
            width * height <= usize::MAX,
        ensures
            grid::in_grid(width as int, height as int, far.0 as int, far.1 as int),
            grid::reachable(
                cells@,
                width as int,
                height as int,
                start.0 as int,
                start.1 as int,
                far.0 as int,
                far.1 as int,
            ),
            forall|x: int, y: int|
                grid::in_grid(width as int, height as int, x, y) && #[trigger] grid::reachable(
                    cells@,
                    width as int,
                    height as int,
                    start.0 as int,
                    start.1 as int,
                    x,
                    y,
                ) ==> grid::distance(
                    cells@,
                    width as int,
                    height as int,
                    start.0 as int,
                    start.1 as int,
                    x,
                    y,
                ) <= grid::distance(
                    cells@,
                    width as int,
                    height as int,
                    start.0 as int,
                    start.1 as int,
                    far.0 as int,
                    far.1 as int,
                ),
            far == farthest_of(cells@, width as int, height as int, start),
    {
        let ghost g = cells@;
        let ghost w = width as int;
        let ghost h = height as int;
        let ghost sx = start.0 as int;
        let ghost sy = start.1 as int;
        let (dist, order) = grid::breadth_first(cells, width, height, start);
        let mut farthest = start;
        proof {
            crate::framebuffer::lemma_offset(w, h, sx, sy);
            assert(order@[0] == order@[0]);
        }
        let mut farthest_dist: usize = dist[start.1 * width + start.0];
        let mut i: usize = 0;
        while i < order.len()
            invariant
                grid::bfs_done(g, w, h, sx, sy, dist@, order@),
                w == width,
                h == height,
                g == cells@,
                grid::in_grid(w, h, farthest.0 as int, farthest.1 as int),
                farthest_dist == grid::stored_at(dist@, w, farthest),
                farthest_dist > 0,
                i <= order@.len(),
                farthest == farthest_scan(dist@, w, order@, i as nat, start),
                forall|j: int| 0 <= j < i ==> grid::stored_at(dist@, w, #[trigger] order@[j]) <= farthest_dist,
            decreases order@.len() - i,
        {
            let (x, y) = order[i];
            proof {
                assert(order@[i as int] == (x, y));
                crate::framebuffer::lemma_offset(w, h, x as int, y as int);
            }
            let d = dist[y * width + x];
            if d > farthest_dist {
                farthest_dist = d;
                farthest = (x, y);
            }
            i = i + 1;
        }
        proof {
            assert forall|x: int, y: int|
                grid::in_grid(w, h, x, y) && #[trigger] grid::reachable(g, w, h, sx, sy, x, y) implies grid::distance(
                g,
                w,
                h,
                sx,
                sy,
                x,
                y,
            ) <= grid::distance(g, w, h, sx, sy, farthest.0 as int, farthest.1 as int) by {
                assert(grid::stored(dist@, w, x, y) > 0);
                let j = choose|j: int| 0 <= j < order@.len() && #[trigger] order@[j].0 == x && order@[j].1 == y;
                assert(grid::stored_at(dist@, w, order@[j]) <= farthest_dist);
            }
            assert(grid::stored(dist@, w, farthest.0 as int, farthest.1 as int) > 0);
        }
        farthest
    }

    /// `(x, y)` can be walked to from the goal (walks go both ways).
    pub open spec fn reachable_from_goal(&self, x: int, y: int) -> bool {
        grid::reachable(
            self.cells@,
            self.width as int,
            self.height as int,
            self.goal.0 as int,
            self.goal.1 as int,
            x,
            y,
        )
    }

    /// Steps on the shortest walk between the goal and `(x, y)`.
    pub open spec fn goal_distance(&self, x: int, y: int) -> int {
        grid::distance(
            self.cells@,
            self.width as int,
            self.height as int,
            self.goal.0 as int,
            self.goal.1 as int,
            x,
            y,
        )
    }

    /// `(x, y)` lies on a shortest walk from the start to the goal: the
    /// goal can be reached, and going through `(x, y)` costs no extra step.
    /// In a maze carved as a tree this is the one path from start to goal.
    pub open spec fn on_goal_path(&self, x: int, y: int) -> bool {
        &&& grid::in_grid(self.width as int, self.height as int, x, y)
        &&& self.reachable_from_spawn(self.goal.0 as int, self.goal.1 as int)
        &&& self.reachable_from_spawn(x, y)
        &&& self.reachable_from_goal(x, y)
        &&& self.spawn_distance(x, y) + self.goal_distance(x, y) == self.spawn_distance(
            self.goal.0 as int,
            self.goal.1 as int,
        )
    }

    /// `(x, y)` may hold a collectible: it lies on the path from the start to
    /// the goal and is neither of them.
    pub open spec fn sprite_candidate(&self, x: int, y: int) -> bool {
        &&& self.on_goal_path(x, y)
        &&& !(x == self.spawn.0 && y == self.spawn.1)
        &&& !(x == self.goal.0 && y == self.goal.1)
    }

    /// The goal's walking distance from the start, taken as at least one.
    pub open spec fn goal_steps(&self) -> int {
        let d = self.spawn_distance(self.goal.0 as int, self.goal.1 as int);
        if d < 1 {
            1
        } else {
            d
        }
    }

    /// The walking distance aimed at by the `i`-th collectible: a third and
    /// two thirds of the way to the goal (rounded down).
    pub open spec fn sprite_target(&self, i: int) -> int {
        if i == 0 {
            self.goal_steps() / 3
        } else {
            self.goal_steps() * 2 / 3
        }
    }

    /// The cell picked for the `i`-th collectible: of the candidates, the one
    /// closest in walking distance to the `i`-th target that the
    /// breadth-first search from the start finds first.
    pub open spec fn sprite_pick(&self, i: int) -> Option<(usize, usize)> {
        let s = grid::search_result(
            self.cells@,
            self.width as int,
            self.height as int,
            self.spawn.0 as int,
            self.spawn.1 as int,
        );
        let sg = grid::search_result(
            self.cells@,
            self.width as int,
            self.height as int,
            self.goal.0 as int,
            self.goal.1 as int,
        );
        closest_scan(
            s.dist,
            sg.dist,
            self.width as int,
            s.order,
            s.order.len(),
            self.sprite_target(i),
            self.spawn_distance(self.goal.0 as int, self.goal.1 as int),
            self.spawn,
            self.goal,
        )
    }

    /// Picks the cells for the two collectibles along the path from the start
    /// to the goal: for each target distance in turn (a third and two thirds
    /// of the way), a cell of the path, other than the start and the goal,
    /// whose walking distance from the start is as close as possible to it.
    /// When the path has no such cell (the goal cannot be reached, or lies
    /// next to the start), none are picked.
    pub fn sprite_cells(&self) -> (spots: Vec<(usize, usize)>)
        requires
            self.wf(),
            self.width * self.height <= usize::MAX,
        ensures
            spots@.len() == if exists|x: int, y: int| #[trigger] self.sprite_candidate(x, y) {
                2int
            } else {
                0int
            },
            forall|i: int|
                0 <= i < spots@.len() ==> self.open_at(#[trigger] spots@[i].0 as int, spots@[i].1 as int),
            forall|i: int|
                0 <= i < spots@.len() ==> self.sprite_candidate(
                    #[trigger] spots@[i].0 as int,
                    spots@[i].1 as int,
                ) && forall|x: int, y: int| #[trigger]
                    self.sprite_candidate(x, y) ==> abs_diff(
                        self.spawn_distance(spots@[i].0 as int, spots@[i].1 as int),
                        self.sprite_target(i),
                    ) <= abs_diff(self.spawn_distance(x, y), self.sprite_target(i)),
            forall|i: int| 0 <= i < spots@.len() ==> self.sprite_pick(i) == Some(#[trigger] spots@[i]),
    {
        let ghost g = self.cells@;
        let ghost w = self.width as int;
        let ghost h = self.height as int;
        let ghost sx = self.spawn.0 as int;
        let ghost sy = self.spawn.1 as int;
        let ghost gx = self.goal.0 as int;
        let ghost gy = self.goal.1 as int;
        let width = self.width;
        let (dist, order) = grid::breadth_first(self.cells.as_slice(), self.width, self.height, self.spawn);
        proof {
            crate::framebuffer::lemma_offset(w, h, gx, gy);
        }
        let gs: usize = dist[self.goal.1 * width + self.goal.0];
        if gs == 0 {
            proof {
                assert(grid::stored(dist@, w, gx, gy) == 0);
                assert(!self.reachable_from_spawn(gx, gy));
                assert forall|x: int, y: int| !#[trigger] self.sprite_candidate(x, y) by {}
            }
            return Vec::new();
        }
        let (gdist, _gorder) = grid::breadth_first(self.cells.as_slice(), self.width, self.height, self.goal);
        let total: usize = gs - 1;
        let goal_dist: usize = if gs >= 2 {
            gs - 1
        } else {
            1
        };
        let t1: usize = goal_dist / 3;
        let t2: usize = goal_dist / 3 * 2 + goal_dist % 3 * 2 / 3;
        proof {
            assert(gs == grid::stored(dist@, w, gx, gy));
            assert(self.reachable_from_spawn(gx, gy));
            assert(self.spawn_distance(gx, gy) == gs - 1);
            assert(total == self.spawn_distance(gx, gy));
            assert(goal_dist == self.goal_steps());
            let q = goal_dist as int / 3;
            let r = goal_dist as int % 3;
            vstd::arithmetic::div_mod::lemma_fundamental_div_mod(goal_dist as int, 3);
            assert(goal_dist * 2 == 3 * (2 * q) + 2 * r);
            vstd::arithmetic::div_mod::lemma_fundamental_div_mod_converse(
                goal_dist * 2,
                3,
                2 * q + (2 * r) / 3,
                (2 * r) % 3,
            );
            assert(t2 == self.sprite_target(1));
            assert(t1 == self.sprite_target(0));
            assert forall|x: int, y: int| #[trigger]
                self.sprite_candidate(x, y) <==> (exists|j: int|
                    0 <= j < order@.len() && #[trigger] order@[j].0 == x && order@[j].1 == y && eligible(
                        dist@,
                        gdist@,
                        w,
                        order@[j],
                        total as int,
                        self.spawn,
                        self.goal,
                    )) by {
                if self.sprite_candidate(x, y) {
                    assert(grid::stored(dist@, w, x, y) > 0);
                    assert(grid::stored(gdist@, w, x, y) > 0);
                    let j = choose|j: int| 0 <= j < order@.len() && #[trigger] order@[j].0 == x && order@[j].1 == y;
                    assert(eligible(dist@, gdist@, w, order@[j], total as int, self.spawn, self.goal));
                }
                if exists|j: int|
                    0 <= j < order@.len() && #[trigger] order@[j].0 == x && order@[j].1 == y && eligible(
                        dist@,
                        gdist@,
                        w,
                        order@[j],
                        total as int,
                        self.spawn,
                        self.goal,
                    ) {
                    let j = choose|j: int|
                        0 <= j < order@.len() && #[trigger] order@[j].0 == x && order@[j].1 == y && eligible(
                            dist@,
                            gdist@,
                            w,
                            order@[j],
                            total as int,
                            self.spawn,
                            self.goal,
                        );
                    assert(grid::in_grid(w, h, order@[j].0 as int, order@[j].1 as int));
                    assert(grid::stored(dist@, w, x, y) > 0);
                    assert(grid::stored(gdist@, w, x, y) > 0);
                }
            }
        }
        let mut spots: Vec<(usize, usize)> = Vec::new();
        let first = closest_to(
            &dist,
            &gdist,
            &order,
            width,
            t1,
            total,
            self.spawn,
            self.goal,
            Ghost(g),
            Ghost(h),
            Ghost(sx),
            Ghost(sy),
        );
        let second = closest_to(
            &dist,
            &gdist,
            &order,
            width,
            t2,
            total,
            self.spawn,
            self.goal,
            Ghost(g),
            Ghost(h),
            Ghost(sx),
            Ghost(sy),
        );
        match first {
            Some(c) => {
                spots.push(c);
            },
            None => {},
        }
        match second {
            Some(c) => {
                spots.push(c);
            },
            None => {},
        }
        proof {
            if exists|x: int, y: int| #[trigger] self.sprite_candidate(x, y) {
                let (x, y) = choose|x: int, y: int| #[trigger] self.sprite_candidate(x, y);
                let j = choose|j: int|
                    0 <= j < order@.len() && #[trigger] order@[j].0 == x && order@[j].1 == y && eligible(
                        dist@,
                        gdist@,
                        w,
                        order@[j],
                        total as int,
                        self.spawn,
                        self.goal,
                    );
                assert(first is Some);
                assert(second is Some);
            } else {
                assert forall|j: int| 0 <= j < order@.len() implies !eligible(
                    dist@,
                    gdist@,
                    w,
                    #[trigger] order@[j],
                    total as int,
                    self.spawn,
                    self.goal,
                ) by {
                    let (x, y) = (order@[j].0 as int, order@[j].1 as int);
                    if eligible(dist@, gdist@, w, order@[j], total as int, self.spawn, self.goal) {
                        assert(self.sprite_candidate(x, y));
                    }
                }
            }
            assert forall|i: int| 0 <= i < spots@.len() implies self.sprite_candidate(
                #[trigger] spots@[i].0 as int,
                spots@[i].1 as int,
            ) by {
                let c = spots@[i];
                let jc = choose|j: int| 0 <= j < order@.len() && #[trigger] order@[j] == c;
                assert(order@[jc].0 == c.0 && order@[jc].1 == c.1);
            }
            assert forall|i: int| 0 <= i < spots@.len() implies self.open_at(
                #[trigger] spots@[i].0 as int,
                spots@[i].1 as int,
            ) by {
                let c = spots@[i];
                assert(self.sprite_candidate(c.0 as int, c.1 as int));
                let kc = choose|k: nat| #[trigger] grid::within(g, w, h, sx, sy, c.0 as int, c.1 as int, k);
                grid::lemma_within_open(g, w, h, sx, sy, c.0 as int, c.1 as int, kc);
            }
            assert forall|i: int| 0 <= i < spots@.len() implies self.sprite_candidate(
                #[trigger] spots@[i].0 as int,
                spots@[i].1 as int,
            ) && forall|x: int, y: int| #[trigger]
                self.sprite_candidate(x, y) ==> abs_diff(
                    self.spawn_distance(spots@[i].0 as int, spots@[i].1 as int),
                    self.sprite_target(i),
                ) <= abs_diff(self.spawn_distance(x, y), self.sprite_target(i)) by {
                let c = spots@[i];
                let t = self.sprite_target(i);
                assert(self.sprite_candidate(c.0 as int, c.1 as int));
                assert forall|x: int, y: int| #[trigger]
                    self.sprite_candidate(x, y) implies abs_diff(
                    self.spawn_distance(c.0 as int, c.1 as int),
                    t,
                ) <= abs_diff(self.spawn_distance(x, y), t) by {
                    let j = choose|j: int|
                        0 <= j < order@.len() && #[trigger] order@[j].0 == x && order@[j].1 == y && eligible(
                            dist@,
                            gdist@,
                            w,
                            order@[j],
                            total as int,
                            self.spawn,
                            self.goal,
                        );
                    assert(grid::stored(dist@, w, x, y) > 0);
                }
            }
        }
        spots
    }

    /// Generates the maze of a level from its seed: a 25 x 19 grid of 12 x 9
    /// rooms carved by a randomised depth-first walk (see
    /// [`crate::carve::carve`]), rock coloured by quadrant, the start in the
    /// top-left room and the goal at a cell as far from it as any.
    pub fn generate(seed: u32) -> (m: Self)
        ensures
            m.wf(),
            grid::grid_wf(m.cells@, 25, 19),
            m.width == 25,
            m.height == 19,
            m.spawn == (1usize, 1usize),
            forall|x: int, y: int|
                grid::in_grid(25, 19, x, y) ==> #[trigger] m.cell(x, y) == if crate::carve::carved_grid(
                    seed,
                )[y][x] == 1 {
                    quadrant_code(25, 19, x, y)
                } else {
                    crate::carve::carved_grid(seed)[y][x]
                },
            forall|x: int, y: int|
                grid::in_grid(25, 19, x, y) ==> #[trigger] m.cell(x, y) == 0 || m.cell(x, y)
                    == quadrant_code(25, 19, x, y),
            forall|x: int, y: int|
                grid::in_grid(25, 19, x, y) && #[trigger] m.cell(x, y) == 0 ==> crate::carve::carvable(
                    x,
                    y,
                ),
            forall|cx: int, cy: int| #[trigger]
                crate::carve::room_in(cx, cy) ==> m.cell(2 * cx + 1, 2 * cy + 1) == 0,
            forall|x: int, y: int| #[trigger] m.open_at(x, y) ==> m.reachable_from_spawn(x, y),
            m.goal == farthest_of(m.cells@, 25, 19, (1usize, 1usize)),
            m.reachable_from_spawn(m.goal.0 as int, m.goal.1 as int),
            forall|x: int, y: int|
                grid::in_grid(25, 19, x, y) && #[trigger] m.reachable_from_spawn(x, y) ==> m.spawn_distance(
                    x,
                    y,
                ) <= m.spawn_distance(m.goal.0 as int, m.goal.1 as int),
            crate::carve::floor_count(crate::carve::rows_of(m.cells@)) == 215,
    {
        let width: usize = LOGICAL_COLS * 2 + 1;
        let height: usize = LOGICAL_ROWS * 2 + 1;
        let mut cells = crate::carve::carve(seed);
        let ghost carved = cells@;
        let mut y: usize = 0;
        while y < height
            invariant
                width == 25,
                height == 19,
                y <= height,
                grid::grid_wf(cells@, 25, 19),
                forall|a: int, b: int|
                    grid::in_grid(25, 19, a, b) ==> #[trigger] cells@[b]@[a] == if b < y {
                        painted(carved, a, b)
                    } else {
                        carved[b]@[a]
                    },
            decreases height - y,
        {
            let mut x: usize = 0;
            while x < width
                invariant
                    width == 25,
                    height == 19,
                    y < height,
                    x <= width,
                    grid::grid_wf(cells@, 25, 19),
                    forall|a: int, b: int|
                        grid::in_grid(25, 19, a, b) ==> #[trigger] cells@[b]@[a] == if b < y || (b == y
                            && a < x) {
                            painted(carved, a, b)
                        } else {
                            carved[b]@[a]
                        },
                decreases width - x,
            {
                if cells[y][x] == 1 {
                    let qx = x >= width / 2;
                    let qy = y >= height / 2;
                    let c: u8 = if !qx && !qy {
                        1
                    } else if qx && !qy {
                        2
                    } else if !qx && qy {
                        3
                    } else {
                        4
                    };
                    cells[y][x] = c;
                }
                x = x + 1;
            }
            y = y + 1;
        }
        let spawn_cell = (1usize, 1usize);
        proof {
            assert forall|a: int, b: int| #[trigger] grid::is_open(carved, 25, 19, a, b) implies grid::is_open(
                cells@,
                25,
                19,
                a,
                b,
            ) by {
                assert(cells@[b]@[a] == painted(carved, a, b));
            }
            assert forall|a: int, b: int| #[trigger] grid::is_open(cells@, 25, 19, a, b) implies grid::is_open(
                carved,
                25,
                19,
                a,
                b,
            ) by {
                assert(cells@[b]@[a] == painted(carved, a, b));
            }
        }
        let goal_cell = Self::farthest_cell(cells.as_slice(), width, height, spawn_cell);
        let m = Maze { cells, width, height, spawn: spawn_cell, goal: goal_cell };
        proof {
            assert forall|x: int, y: int| grid::in_grid(25, 19, x, y) implies #[trigger] m.cell(x, y)
                == if crate::carve::carved_grid(seed)[y][x] == 1 {
                quadrant_code(25, 19, x, y)
            } else {
                crate::carve::carved_grid(seed)[y][x]
            } by {
                assert(m.cell(x, y) == painted(carved, x, y));
                assert(crate::carve::rows_of(carved)[y][x] == carved[y]@[x]);
            }
            assert forall|x: int, y: int| grid::in_grid(25, 19, x, y) implies #[trigger] m.cell(x, y) == 0
                || m.cell(x, y) == quadrant_code(25, 19, x, y) by {
                assert(m.cell(x, y) == painted(carved, x, y));
                assert(crate::carve::code(carved, x, y) == 0 || crate::carve::code(carved, x, y) == 1);
            }
            assert forall|x: int, y: int| grid::in_grid(25, 19, x, y) && #[trigger] m.cell(x, y) == 0 implies crate::carve::carvable(
                x,
                y,
            ) by {
                assert(m.cell(x, y) == painted(carved, x, y));
                assert(crate::carve::code(carved, x, y) == 0 || crate::carve::code(carved, x, y) == 1);
            }
            assert forall|cx: int, cy: int| #[trigger] crate::carve::room_in(cx, cy) implies m.cell(
                2 * cx + 1,
                2 * cy + 1,
            ) == 0 by {
                assert(m.cell(2 * cx + 1, 2 * cy + 1) == painted(carved, 2 * cx + 1, 2 * cy + 1));
            }
            assert forall|x: int, y: int| #[trigger] m.open_at(x, y) implies m.reachable_from_spawn(x, y) by {
                assert(grid::is_open(carved, 25, 19, x, y));
                let k = choose|k: nat| #[trigger] grid::within(carved, 25, 19, 1, 1, x, y, k);
                grid::lemma_within_grow(carved, m.cells@, 25, 19, 1, 1, x, y, k);
            }
            let pr = crate::carve::rows_of(m.cells@);
            let cr = crate::carve::rows_of(carved);
            assert forall|b: int| 0 <= b < 19 implies #[trigger] pr[b].len() == cr[b].len() by {}
            assert forall|b: int, a: int| 0 <= b < 19 && 0 <= a < pr[b].len() implies (#[trigger] pr[b][a]
                == 0 <==> cr[b][a] == 0) by {
                assert(m.cell(a, b) == painted(carved, a, b));
                assert(crate::carve::code(carved, a, b) == 0 || crate::carve::code(carved, a, b) == 1);
            }
            crate::carve::lemma_floor_count_same(pr, cr);
        }
        m
    }

    /// A position blocks movement exactly when its wall code is not zero
    /// (what `is_wall` and `wall_type` report agree everywhere).
    pub proof fn lemma_wall_iff_code(&self, x: int, y: int)
        requires
            self.wf(),
        ensures
            !self.open_at(x, y) <==> (if grid::in_grid(self.width as int, self.height as int, x, y) {
                self.cell(x, y)
            } else {
                1u8
            }) != 0,
    {
    }
}

} // verus!
