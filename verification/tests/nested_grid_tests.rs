use road_graphs::graph::Graph;
use road_graphs::nested_grid::{build_nested_grid, get_subgrid_nodes, nested_grid_size, recurse_grid, NestedGrid, Placement};

fn c4() -> NestedGrid {
    NestedGrid {
        graph: Graph::from_edge_list(vec![(0, 1), (1, 2), (2, 3), (3, 0)]),
        placements: vec![None; 4],
    }
}

/// The positions of the nodes: `anchors` for the unplaced ones, and the
/// corners of its grid interpolated for each placed one.
fn positions(g: &NestedGrid, anchors: &[(f64, f64)]) -> Vec<(f64, f64)> {
    let mut pos: Vec<(f64, f64)> = Vec::new();
    let mut next = 0;
    for p in &g.placements {
        match p {
            None => {
                pos.push(anchors[next]);
                next += 1;
            }
            Some(q) => {
                let v = q.row as f64 / (q.width - 1) as f64;
                let u = q.col as f64 / (q.width - 1) as f64;
                let (bl, tl, tr, br) = (pos[q.bl], pos[q.tl], pos[q.tr], pos[q.br]);
                let x = (1.0 - u) * (1.0 - v) * bl.0 + u * (1.0 - v) * tl.0 + (1.0 - u) * v * br.0 + u * v * tr.0;
                let y = (1.0 - u) * (1.0 - v) * bl.1 + u * (1.0 - v) * tl.1 + (1.0 - u) * v * br.1 + u * v * tr.1;
                pos.push((x, y));
            }
        }
    }
    pos
}

fn distance(a: (f64, f64), b: (f64, f64)) -> f64 {
    ((a.0 - b.0) * (a.0 - b.0) + (a.1 - b.1) * (a.1 - b.1)).sqrt()
}

#[test]
fn test_get_subgrid_nodes() {
    let mut g = c4();
    let nodes = get_subgrid_nodes(&mut g, 3, 0, 1, 2, 3);
    assert_eq!(nodes[0][0], 0);
    assert_eq!(nodes[0][2], 1);
    assert_eq!(nodes[2][2], 2);
    assert_eq!(nodes[2][0], 3);
    let pos = positions(&g, &[(0.0, 0.0), (0.0, 1.0), (1.0, 1.0), (1.0, 0.0)]);
    assert!(distance((0.5, 0.0), pos[nodes[1][0]]) < 1e-6);
    assert!(distance((0.0, 0.5), pos[nodes[0][1]]) < 1e-6);
    assert!(distance((0.5, 0.5), pos[nodes[1][1]]) < 1e-6);
    assert!(distance((0.5, 1.0), pos[nodes[1][2]]) < 1e-6);
    assert!(distance((1.0, 0.5), pos[nodes[2][1]]) < 1e-6);
}

#[test]
fn test_nested_grid() {
    let g = build_nested_grid(3, 2);
    assert_eq!(g.graph.get_num_nodes(), 5 * 4 + 9);
}

#[test]
fn nested_grid_edges_are_the_cycle_and_the_grid_edges() {
    let g = build_nested_grid(3, 2);
    // the 4-cycle, the 12 edges of the top grid, and 12 in each of its 4 cells
    assert_eq!(g.graph.get_num_edges(), 4 + 12 + 4 * 12);
    assert!(g.graph.is_undirected());
}

#[test]
fn subgrid_nodes_are_numbered_in_row_major_order() {
    let mut g = c4();
    let nodes = get_subgrid_nodes(&mut g, 4, 0, 1, 2, 3);
    assert_eq!(
        nodes,
        vec![vec![0, 4, 5, 1], vec![6, 7, 8, 9], vec![10, 11, 12, 13], vec![3, 14, 15, 2]]
    );
    assert_eq!(g.graph.get_num_nodes(), 16);
    assert_eq!(g.placements[9], Some(Placement { bl: 0, tl: 1, tr: 2, br: 3, row: 1, col: 3, width: 4 }));
}

#[test]
fn a_single_grid_has_its_grid_edges() {
    let mut g = c4();
    recurse_grid(&mut g, 3, 1, 0, 1, 2, 3);
    // nine nodes, the 4-cycle plus the twelve edges of a 3 × 3 grid
    assert_eq!(g.graph.get_num_nodes(), 9);
    assert_eq!(g.graph.get_num_edges(), 16);
    assert!(g.graph.has_edge(0, 4));
    assert!(g.graph.has_edge(4, 1));
    assert!(g.graph.has_edge(0, 5));
    assert!(g.graph.has_edge(5, 6));
    assert!(g.graph.has_edge(6, 8));
    assert!(g.graph.has_edge(3, 8));
    assert!(g.graph.has_edge(7, 2));
    assert!(g.graph.is_undirected());
}

#[test]
fn nested_grids_fill_each_cell() {
    let g = build_nested_grid(3, 3);
    // 5 new nodes on top, 4 cells of 5 each, 16 cells of 5 each
    assert_eq!(g.graph.get_num_nodes(), 4 + 5 + 4 * 5 + 16 * 5);
    assert!(g.graph.is_undirected());
    for z in 4..g.graph.get_num_nodes() {
        let p = g.placements[z].unwrap();
        assert!(p.bl < z && p.tl < z && p.tr < z && p.br < z);
    }
}

#[test]
fn nested_grid_size_counts_the_nodes() {
    assert_eq!(nested_grid_size(3, 2), Some(29));
    assert_eq!(nested_grid_size(3, 3), Some(109));
    assert_eq!(nested_grid_size(1, 5), Some(4));
    assert_eq!(nested_grid_size(2, 7), Some(4));
    assert_eq!(nested_grid_size(usize::MAX, 1), None);
    assert_eq!(nested_grid_size(1000, 1000), None);
}

#[test]
fn a_grid_of_width_two_adds_no_node() {
    let g = build_nested_grid(2, 3);
    assert_eq!(g.graph.get_num_nodes(), 4);
    assert_eq!(g.graph.get_num_edges(), 4);
}
