use maze_raycast::grid::breadth_first;

fn grid(rows: &[&str]) -> Vec<Vec<u8>> {
    rows.iter().map(|r| r.bytes().map(|b| b - b'0').collect()).collect()
}

#[test]
fn bfs_distances_and_order() {
    let cells = grid(&["1111", "1001", "1101", "1001", "1111"]);
    let (dist, order) = breadth_first(&cells, 4, 5, (1, 1));
    let d = |x: usize, y: usize| dist[y * 4 + x];
    assert_eq!(d(1, 1), 1);
    assert_eq!(d(2, 1), 2);
    assert_eq!(d(2, 2), 3);
    assert_eq!(d(2, 3), 4);
    assert_eq!(d(1, 3), 5);
    assert_eq!(d(0, 0), 0);
    assert_eq!(order, vec![(1, 1), (2, 1), (2, 2), (2, 3), (1, 3)]);
}

#[test]
fn bfs_takes_shortest_path() {
    let cells = grid(&["00000", "01110", "00000"]);
    let (dist, order) = breadth_first(&cells, 5, 3, (0, 0));
    assert_eq!(dist[2 * 5 + 4], 7);
    assert_eq!(dist[0 * 5 + 4], 5);
    assert_eq!(dist[2 * 5 + 0], 3);
    assert_eq!(order.len(), 12);
    assert_eq!(order[0], (0, 0));
}

#[test]
fn bfs_from_wall_start() {
    let cells = grid(&["010", "111"]);
    let (dist, order) = breadth_first(&cells, 3, 2, (1, 0));
    assert_eq!(dist, vec![2, 1, 2, 0, 0, 0]);
    assert_eq!(order, vec![(1, 0), (0, 0), (2, 0)]);
}
