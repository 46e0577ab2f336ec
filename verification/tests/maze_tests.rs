use maze_raycast::grid::breadth_first;
use maze_raycast::maze::{Maze, Rng, LEVEL_SEEDS};

const LEVEL1_ROWS: [&str; 19] = [
    "1111111111112222222222222",
    "1010000000100000000000202",
    "1010111011102022222220202",
    "1010001010002000000020002",
    "1011101010112222222022202",
    "1000101000100000200020002",
    "1110111011112220202222222",
    "1010001010000000202000002",
    "1011101010112022202022202",
    "3030003000304040004040004",
    "3030333333304040444040404",
    "3030300030000040000040404",
    "3030303030334444404440404",
    "3000303000004000404000404",
    "3033333333304040404044404",
    "3000300000304040404040004",
    "3330303330334040444040444",
    "3000003000000040000040004",
    "3333333333334444444444444",
];

fn open_count(m: &Maze) -> usize {
    m.cells.iter().map(|r| r.iter().filter(|&&c| c == 0).count()).sum()
}

fn bfs_dist(m: &Maze, from: (usize, usize), to: (usize, usize)) -> Option<usize> {
    let (dist, _) = breadth_first(&m.cells, m.width, m.height, from);
    let d = dist[to.1 * m.width + to.0];
    if d == 0 { None } else { Some(d - 1) }
}

#[test]
fn xorshift_steps() {
    let mut r = Rng(1);
    assert_eq!(r.next(), 270369);
    assert_eq!(r.0, 270369);
    assert_eq!(r.next(), 67634689);
    let mut z = Rng(0);
    assert_eq!(z.next(), 0);
    let mut s = Rng(0x1234_5678);
    assert_eq!(s.next(), 2274908837);
}

#[test]
fn range_is_modulo_of_next() {
    let mut r = Rng(1);
    assert_eq!(r.range(4), 270369 % 4);
    assert_eq!(r.0, 270369);
    let mut r = Rng(0x1234_5678);
    assert_eq!(r.range(7), (2274908837u32 % 7) as usize);
    let mut r = Rng(99);
    for _ in 0..100 {
        assert!(r.range(3) < 3);
    }
}

#[test]
fn level_one_layout() {
    let m = Maze::generate(LEVEL_SEEDS[0]);
    assert_eq!(m.width, 25);
    assert_eq!(m.height, 19);
    assert_eq!(m.spawn, (1, 1));
    for (y, row) in LEVEL1_ROWS.iter().enumerate() {
        let got: String = m.cells[y].iter().map(|c| char::from(b'0' + c)).collect();
        assert_eq!(&got, row, "row {y}");
    }
    assert_eq!(m.goal, (5, 13));
    assert_eq!(bfs_dist(&m, m.spawn, m.goal), Some(140));
}

#[test]
fn level_goals() {
    let expected = [((5, 13), 140), ((9, 1), 112), ((13, 15), 154)];
    for (seed, (goal, d)) in LEVEL_SEEDS.iter().zip(expected) {
        let m = Maze::generate(*seed);
        assert_eq!(m.goal, goal);
        assert_eq!(bfs_dist(&m, m.spawn, m.goal), Some(d));
    }
    let m = Maze::generate(0);
    assert_eq!(m.goal, (23, 17));
    assert_eq!(bfs_dist(&m, m.spawn, m.goal), Some(214));
}

#[test]
fn generated_maze_is_a_spanning_tree_of_rooms() {
    for seed in [LEVEL_SEEDS[0], LEVEL_SEEDS[1], LEVEL_SEEDS[2], 1, 0, 0xdead_beef] {
        let m = Maze::generate(seed);
        // 108 rooms joined by 107 passages.
        assert_eq!(open_count(&m), 215);
        for cy in 0..9 {
            for cx in 0..12 {
                assert_eq!(m.cells[2 * cy + 1][2 * cx + 1], 0);
            }
        }
        for y in 0..19 {
            for x in 0..25 {
                let c = m.cells[y][x];
                if c == 0 {
                    assert!(bfs_dist(&m, m.spawn, (x, y)).is_some());
                    assert!(x % 2 == 1 || y % 2 == 1);
                    assert!(x > 0 && y > 0 && x < 24 && y < 18);
                } else {
                    let q = match (x >= 12, y >= 9) {
                        (false, false) => 1,
                        (true, false) => 2,
                        (false, true) => 3,
                        (true, true) => 4,
                    };
                    assert_eq!(c, q);
                }
            }
        }
    }
}

#[test]
fn generation_is_deterministic() {
    let a = Maze::generate(77);
    let b = Maze::generate(77);
    assert_eq!(a.cells, b.cells);
    assert_eq!(a.goal, b.goal);
}

#[test]
fn goal_is_farthest() {
    let m = Maze::generate(LEVEL_SEEDS[1]);
    let far = bfs_dist(&m, m.spawn, m.goal).unwrap();
    for y in 0..19 {
        for x in 0..25 {
            if let Some(d) = bfs_dist(&m, m.spawn, (x, y)) {
                assert!(d <= far);
            }
        }
    }
}

#[test]
fn walls_and_codes_agree() {
    let m = Maze::generate(LEVEL_SEEDS[0]);
    assert!(m.is_wall(-1, 3));
    assert!(m.is_wall(3, -1));
    assert!(m.is_wall(25, 1));
    assert!(m.is_wall(1, 19));
    assert_eq!(m.wall_type(-1, 3), 1);
    assert_eq!(m.wall_type(100, 100), 1);
    assert!(!m.is_wall(1, 1));
    assert_eq!(m.wall_type(1, 1), 0);
    assert_eq!(m.wall_type(24, 0), 2);
    assert_eq!(m.wall_type(0, 18), 3);
    assert_eq!(m.wall_type(24, 18), 4);
    for y in -2..21 {
        for x in -2..27 {
            assert_eq!(m.is_wall(x, y), m.wall_type(x, y) != 0);
        }
    }
}

#[test]
fn goal_cell_check() {
    let m = Maze::generate(LEVEL_SEEDS[0]);
    assert!(m.is_goal(5, 13));
    assert!(!m.is_goal(13, 5));
    assert!(!m.is_goal(1, 1));
}

#[test]
fn spawn_heading_faces_open_corridor() {
    // Level 1: east of (1,1) is rock, south is open.
    let m = Maze::generate(LEVEL_SEEDS[0]);
    assert_eq!(m.spawn_facing_angle(), 1);
    let mut cells = vec![vec![1u8; 3]; 3];
    cells[1][1] = 0;
    let mut closed = Maze { cells, width: 3, height: 3, spawn: (1, 1), goal: (1, 1) };
    assert_eq!(closed.spawn_facing_angle(), 0);
    closed.cells[1][2] = 0;
    assert_eq!(closed.spawn_facing_angle(), 0);
    closed.cells[1][2] = 1;
    closed.cells[1][0] = 0;
    assert_eq!(closed.spawn_facing_angle(), 2);
    closed.cells[0][1] = 0;
    assert_eq!(closed.spawn_facing_angle(), 2);
    closed.cells[1][0] = 1;
    assert_eq!(closed.spawn_facing_angle(), -1);
    closed.cells[2][1] = 0;
    assert_eq!(closed.spawn_facing_angle(), 1);
}

#[test]
fn sprite_cells_of_levels() {
    let expected = [[(15, 13), (18, 3)], [(14, 7), (17, 11)], [(12, 1), (23, 17)]];
    for (seed, cells) in LEVEL_SEEDS.iter().zip(expected) {
        let m = Maze::generate(*seed);
        assert_eq!(m.sprite_cells(), cells.to_vec());
    }
    let m = Maze::generate(LEVEL_SEEDS[0]);
    let spots = m.sprite_cells();
    assert_eq!(bfs_dist(&m, m.spawn, spots[0]), Some(46));
    assert_eq!(bfs_dist(&m, m.spawn, spots[1]), Some(93));
}

#[test]
fn sprite_cells_lie_on_the_goal_path() {
    for seed in LEVEL_SEEDS.iter().copied().chain([0u32, 1, 7, 0xdead_beef]) {
        let m = Maze::generate(seed);
        let total = bfs_dist(&m, m.spawn, m.goal).unwrap();
        let spots = m.sprite_cells();
        assert_eq!(spots.len(), 2);
        for (i, c) in spots.iter().enumerate() {
            let from_start = bfs_dist(&m, m.spawn, *c).unwrap();
            let to_goal = bfs_dist(&m, m.goal, *c).unwrap();
            assert_eq!(from_start + to_goal, total);
            let target = if i == 0 { total / 3 } else { total * 2 / 3 };
            assert_eq!(from_start, target);
        }
    }
}

#[test]
fn sprite_cells_skip_side_branch() {
    // The path runs down column 1 to the goal; a dead end leaves the start
    // to the right and is met first by the search, yet is never picked.
    let mut cells = vec![vec![1u8; 5]; 7];
    for y in 1..6 {
        cells[y][1] = 0;
    }
    cells[1][2] = 0;
    cells[1][3] = 0;
    let m = Maze { cells, width: 5, height: 7, spawn: (1, 1), goal: (1, 5) };
    assert_eq!(m.sprite_cells(), vec![(1, 2), (1, 3)]);
}

#[test]
fn sprite_cells_without_candidates() {
    let mut cells = vec![vec![1u8; 3]; 3];
    cells[1][1] = 0;
    let m = Maze { cells: cells.clone(), width: 3, height: 3, spawn: (1, 1), goal: (1, 1) };
    assert!(m.sprite_cells().is_empty());
    cells[1][2] = 0;
    let m = Maze { cells: cells.clone(), width: 3, height: 3, spawn: (1, 1), goal: (2, 1) };
    assert!(m.sprite_cells().is_empty());
}

#[test]
fn sprite_cells_with_unreachable_goal() {
    // A corridor of five cells; the goal is walled off, so there is no path
    // to place collectibles on.
    let mut cells = vec![vec![1u8; 7]; 3];
    for x in 1..6 {
        cells[1][x] = 0;
    }
    let m = Maze { cells, width: 7, height: 3, spawn: (1, 1), goal: (0, 0) };
    assert!(m.sprite_cells().is_empty());
}

#[test]
fn farthest_cell_on_corridor() {
    let mut cells = vec![vec![1u8; 7]; 3];
    for x in 1..6 {
        cells[1][x] = 0;
    }
    assert_eq!(Maze::farthest_cell(&cells, 7, 3, (3, 1)), (1, 1));
    assert_eq!(Maze::farthest_cell(&cells, 7, 3, (1, 1)), (5, 1));
    // A walled-in start is its own farthest cell.
    assert_eq!(Maze::farthest_cell(&cells, 7, 3, (0, 0)), (0, 0));
}
