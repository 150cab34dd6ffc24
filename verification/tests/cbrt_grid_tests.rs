use road_graphs::cbrt_grid::{
    build_cbrt_grid, ceil_cbrt, join_perimeters, translate_edge, translate_point, Direction, Grid,
};

#[test]
fn directions_and_moves() {
    assert_eq!(Direction::Top.opposite(), Direction::Bottom);
    assert_eq!(Direction::Left.opposite(), Direction::Right);
    assert_eq!(translate_point((3, 4), Direction::Top, 2), (3, 6));
    assert_eq!(translate_point((3, 4), Direction::Left, 3), (0, 4));
    assert_eq!(translate_edge(((1, 1), (2, 2)), Direction::Right, 5), ((6, 1), (7, 2)));
    assert_eq!(translate_edge(((1, 1), (2, 2)), Direction::Bottom, 1), ((1, 0), (2, 1)));
}

#[test]
fn cube_roots_round_up() {
    assert_eq!(ceil_cbrt(0), 0);
    assert_eq!(ceil_cbrt(1), 1);
    assert_eq!(ceil_cbrt(2), 2);
    assert_eq!(ceil_cbrt(8), 2);
    assert_eq!(ceil_cbrt(9), 3);
}

#[test]
fn perimeters_join_to_the_right_and_on_top() {
    let p1 = vec![vec![(0, 1)], vec![(1, 0)], vec![(0, 0)], vec![(0, 0), (0, 1)]];
    let p2 = vec![vec![(2, 1)], vec![(3, 0)], vec![(2, 0)], vec![(2, 0)]];
    let right = join_perimeters(&p1, &p2, Direction::Right);
    assert_eq!(right, vec![vec![(0, 1), (2, 1)], vec![(3, 0)], vec![(0, 0), (2, 0)], vec![(0, 0), (0, 1)]]);
    let top = join_perimeters(&p1, &p2, Direction::Top);
    assert_eq!(top, vec![vec![(2, 1)], vec![(1, 0), (3, 0)], vec![(0, 0)], vec![(0, 0), (0, 1), (2, 0)]]);
}

#[test]
fn one_doubling_round_gives_a_square() {
    let edges = build_cbrt_grid(1);
    assert_eq!(
        edges,
        vec![
            ((0, 0), (0, 1024)),
            ((1024, 0), (1024, 1024)),
            ((0, 0), (1024, 0)),
            ((0, 1024), (1024, 1024)),
        ]
    );
}

#[test]
fn grids_stay_in_their_box() {
    let edges = build_cbrt_grid(4);
    let bound = 1 << 14;
    assert!(edges
        .iter()
        .all(|&((a, b), (c, d))| a < bound && b < bound && c < bound && d < bound));
    let nodes: std::collections::HashSet<(usize, usize)> = edges.iter().flat_map(|&(p, q)| [p, q]).collect();
    assert_eq!(nodes.len(), 256);
}

#[test]
fn joining_moves_edges_and_sides() {
    let mut a = Grid { perimeter: vec![vec![(0, 0)]; 4], edges: vec![], node_count: 1 };
    let mut b = a.translate(Direction::Top, 8);
    let j = a.cbrt_join(&mut b, Direction::Top);
    assert_eq!(j.node_count, 2);
    assert_eq!(j.edges, vec![((0, 0), (0, 8))]);
    assert!(a.edges.is_empty() && a.perimeter.is_empty() && b.perimeter.is_empty());
}

#[test]
fn working_base_grid() {
    let grid = road_graphs::sparse_grid::get_grid((2, 2), (6, 6), 2);
    assert_eq!(grid.len(), 12);
    grid.iter().for_each(|(a, b)| {
        assert_eq!(a.0 % 2, 0);
        assert_eq!(a.1 % 2, 0);
        assert_eq!(b.0 % 2, 0);
        assert_eq!(b.1 % 2, 0);
        assert!(a.0 >= 2);
        assert!(a.1 >= 2);
        assert!(a.0 <= 6);
        assert!(a.1 <= 6);
        assert!(b.0 >= 2);
        assert!(b.1 >= 2);
        assert!(b.0 <= 6);
        assert!(b.1 <= 6);
    });
}

#[test]
fn unit_grid_of_one_cell() {
    let grid = road_graphs::sparse_grid::get_grid((0, 0), (1, 1), 1);
    assert_eq!(grid, vec![((0, 0), (1, 0)), ((0, 0), (0, 1)), ((0, 1), (1, 1)), ((1, 0), (1, 1))]);
    assert!(road_graphs::sparse_grid::get_grid((3, 3), (3, 3), 5).is_empty());
}

#[test]
fn cbrt_grid_edge_counts() {
    // each join adds min(ceil(cbrt(joint size)), facing side) bridges
    assert_eq!(build_cbrt_grid(0).len(), 0);
    assert_eq!(build_cbrt_grid(1).len(), 4);
    assert_eq!(build_cbrt_grid(2).len(), 23);
    assert_eq!(build_cbrt_grid(3).len(), 104);
}
