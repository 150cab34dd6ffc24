use road_graphs::point_graph::graph_from_point_edges;
use road_graphs::sparse_grid::{build_sparse_grid_from_widths, build_sparse_grid_rec, get_random_cells};

#[test]
fn top_down_build_test() {
    let grid_widths = vec![3, 3, 3];
    let subgraph_counts = vec![0, 2, 2];
    let edges = build_sparse_grid_rec((0, 0), (8, 8), 2, &grid_widths, &subgraph_counts);
    edges
        .iter()
        .for_each(|(a, b)| println!("{} {} {} {}", a.0, a.1, b.0, b.1));
}

#[test]
fn sparse_grid_levels_stay_in_their_box() {
    let edges = build_sparse_grid_rec((0, 0), (8, 8), 2, &[3, 3, 3], &[0, 2, 2]);
    // The top grid with spacing 4 is always there.
    assert!(edges.contains(&((0, 0), (4, 0))));
    assert!(edges.contains(&((4, 4), (4, 8))));
    for (a, b) in &edges {
        assert!(a.0 <= 8 && a.1 <= 8 && b.0 <= 8 && b.1 <= 8);
    }
}

#[test]
fn random_cells_are_distinct_cells() {
    let cells = get_random_cells((0, 0), (8, 8), 3, 2);
    assert_eq!(cells.len(), 3);
    for (i, (bl, tr)) in cells.iter().enumerate() {
        assert_eq!(bl.0 % 2, 0);
        assert_eq!(bl.1 % 2, 0);
        assert_eq!((tr.0, tr.1), (bl.0 + 2, bl.1 + 2));
        assert!(tr.0 <= 8 && tr.1 <= 8);
        for other in &cells[i + 1..] {
            assert_ne!(*other, (*bl, *tr));
        }
    }
}

#[test]
fn sparse_grid_from_widths_is_sorted_without_repeats() {
    let edges = build_sparse_grid_from_widths(&[0, 2], &[3, 3]);
    // A 3x3 grid of spacing 2 (12 edges) and two unit 3x3 grids inside
    // cells; their border edges are halves of the coarse edges.
    for w in edges.windows(2) {
        assert!(w[0] < w[1]);
    }
    assert!(edges.len() >= 12 + 12);
    assert!(edges.len() <= 12 + 24);
}

#[test]
fn point_edges_become_a_graph() {
    let edges = vec![((5, 5), (0, 0)), ((0, 0), (0, 1)), ((0, 1), (5, 5))];
    let (points, g) = graph_from_point_edges(&edges);
    assert_eq!(points, vec![(0, 0), (0, 1), (5, 5)]);
    assert_eq!(g.get_num_nodes(), 3);
    assert!(g.has_edge(0, 2) && g.has_edge(0, 1) && g.has_edge(1, 2));
    assert_eq!(g.get_num_edges(), 3);
}
