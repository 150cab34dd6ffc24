use road_graphs::graph::Graph;
use road_graphs::mst::spanning_forest;

#[test]
fn kruskal_takes_edges_in_order() {
    // the square of the four points (0,0), (0,1), (2,0), (2,3), edges by
    // increasing length
    let edges = [(0, 1), (0, 2), (1, 3), (2, 3)];
    let mst = spanning_forest(4, &edges);
    assert_eq!(mst.get_num_nodes(), 4);
    assert_eq!(mst.get_num_edges(), 3);
    assert!(mst.has_edge(0, 1) && mst.has_edge(0, 2) && mst.has_edge(1, 3));
    assert!(!mst.has_edge(2, 3));
}

#[test]
fn kruskal_skips_loops_and_repeats() {
    let edges = [(0, 0), (0, 1), (1, 0), (2, 3), (1, 2), (3, 1)];
    let mst = spanning_forest(5, &edges);
    assert_eq!(mst.get_num_edges(), 3);
    assert!(mst.is_undirected());
    assert_eq!(mst.get_degree(4), 0);
}

#[test]
fn kruskal_spans_the_components() {
    let edges: Vec<(usize, usize)> = vec![(0, 1), (1, 2), (2, 0), (3, 4), (4, 5), (5, 3), (0, 2)];
    let mst = spanning_forest(6, &edges);
    assert_eq!(mst.get_num_edges(), 4);
    let g = Graph::from_edge_list(edges);
    for a in 0..6 {
        let d1 = mst.bfs(a);
        let d2 = g.bfs(a);
        for b in 0..6 {
            assert_eq!(d1[b] == usize::MAX, d2[b] == usize::MAX);
        }
    }
}
