use road_graphs::graph::Graph;
use road_graphs::search::integer_sqrt;

fn path(n: usize) -> Graph {
    Graph::from_edge_list((0..n - 1).map(|i| (i, i + 1)).collect())
}

#[test]
fn bfs_parallel_returns_nothing() {
    let g = path(5);
    assert!(g.bfs_parallel(0).is_empty());
    assert!(g.bfs_parallel(4).is_empty());
}

#[test]
fn bfs_bounded_takes_the_nearest_nodes() {
    let g = path(6);
    let d = g.bfs_bounded(2, 2);
    assert_eq!(d.len(), 2);
    assert!(!d.contains_key(2));
    assert_eq!(d.get(1), Some(1));
    assert_eq!(d.get(3), Some(1));

    let d = g.bfs_bounded(0, 3);
    assert_eq!(d.len(), 3);
    assert_eq!(d.get(1), Some(1));
    assert_eq!(d.get(2), Some(2));
    assert_eq!(d.get(3), Some(3));
    assert_eq!(d.get(4), None);
}

#[test]
fn bfs_bounded_stops_at_the_component() {
    let g = Graph::from_edge_list(vec![(0, 1), (1, 2), (3, 4)]);
    let d = g.bfs_bounded(0, 10);
    assert_eq!(d.len(), 2);
    assert_eq!(d.get(2), Some(2));
    assert_eq!(d.get(3), None);
    assert_eq!(g.bfs_bounded(0, 0).len(), 0);
}

#[test]
fn reconnect_probe_finds_a_way_around() {
    // A 4-cycle with the edge 0 - 1 taken out: 1 is still reached from 0.
    let mut g = Graph::from_edge_list(vec![(0, 1), (1, 2), (2, 3), (3, 0)]);
    g.remove_edge(0, 1);
    let mut budget = 10;
    let r = g.reconnect_probe(0, 1, &mut budget);
    assert_eq!(r, Some(2));
    assert!(budget < 10);
}

#[test]
fn reconnect_probe_reports_a_cut() {
    let mut g = path(4);
    g.remove_edge(1, 2);
    let mut budget = 100;
    assert_eq!(g.reconnect_probe(1, 2, &mut budget), None);
    assert!(budget > 0);
    let mut none_left = 0;
    let mut g2 = Graph::from_edge_list(vec![(0, 1), (1, 2), (2, 3), (3, 0)]);
    g2.remove_edge(0, 1);
    assert_eq!(g2.reconnect_probe(0, 1, &mut none_left), None);
}

#[test]
fn random_edge_is_an_edge() {
    let mut g = Graph::from_edge_list(vec![(0, 1), (2, 3)]);
    for _ in 0..20 {
        let (u, v) = g.get_random_edge();
        assert!(g.has_edge(u, v));
    }
    let (u, v) = g.remove_random_edge();
    assert!(!g.has_edge(u, v));
    assert_eq!(g.get_num_edges(), 1);
}

#[test]
fn try_add_edge_skips_loops_and_repeats() {
    let mut g = Graph::with_node_count(3);
    assert!(g.try_add_edge(0, 1));
    assert!(!g.try_add_edge(1, 0));
    assert!(!g.try_add_edge(2, 2));
    assert_eq!(g.get_num_edges(), 1);
}

#[test]
fn integer_square_roots() {
    assert_eq!(integer_sqrt(0), 0);
    assert_eq!(integer_sqrt(1), 1);
    assert_eq!(integer_sqrt(15), 3);
    assert_eq!(integer_sqrt(16), 4);
    assert_eq!(integer_sqrt(1_000_000), 1000);
    assert_eq!(integer_sqrt(usize::MAX), (1usize << (usize::BITS / 2)) - 1);
}

#[test]
fn hop_overview_lists_sampled_distances() {
    let g = path(10);
    let r = g.hop_overview_probabilistic(9);
    // Three starts, each with one to three distinct targets.
    assert!(r.len() >= 3 && r.len() <= 9);
    assert!(r.iter().all(|&d| d < 10));
    assert!(g.hop_overview_probabilistic(0).is_empty());
}

#[test]
fn bounded_agrees_with_full_search() {
    let g = Graph::from_edge_list(vec![(0, 1), (1, 2), (2, 3), (0, 4), (4, 3), (5, 6)]);
    let full = g.bfs(0);
    let bounded = g.bfs_bounded(0, 4);
    for (v, d) in bounded.to_vec() {
        assert_eq!(full[v], d);
    }
}

#[test]
fn neighbours_changed_in_place() {
    let mut g = Graph::with_node_count(3);
    g.get_neighbors_mut(0).insert(2);
    assert!(g.has_edge(0, 2));
    assert!(!g.has_edge(2, 0));
}
