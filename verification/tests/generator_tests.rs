use rand::Rng;
use road_graphs::generators::{combine_graph, generate_cbrt_maximal, generate_clique, generate_grid, integer_cbrt};
use road_graphs::graph::Graph;
use road_graphs::tree::RandomTreeWalk;

#[test]
fn cbrt_maximal() {
    let g = generate_cbrt_maximal(2000);
    assert_eq!(g.get_num_nodes(), 2506);
    assert_eq!(g.get_num_edges(), 87974);
}

#[test]
fn cbrt_maximal_small_inputs() {
    assert_eq!(generate_cbrt_maximal(0).get_num_nodes(), 1);
    assert_eq!(generate_cbrt_maximal(1).get_num_nodes(), 1);
    let g = generate_cbrt_maximal(2);
    // a separator node and two single nodes, nothing requested to join
    assert_eq!(g.get_num_nodes(), 3);
    assert_eq!(g.get_num_edges(), 0);
    let g = generate_cbrt_maximal(3);
    // one separator node joined to two single nodes
    assert_eq!(g.get_num_nodes(), 3);
    assert_eq!(g.get_num_edges(), 2);
}

#[test]
fn cbrt_maximal_joins_all_of_copies_smaller_than_asked() {
    // n = 4: one separator node and copies of the one-node graph for n = 1.
    let g = generate_cbrt_maximal(4);
    assert_eq!(g.get_num_nodes(), 3);
    assert_eq!(g.get_num_edges(), 2);
    // n = 10: a clique on 2 nodes and two copies of the 3-node graph for
    // n = 4, though 4 nodes were asked of each.
    let g = generate_cbrt_maximal(10);
    assert_eq!(g.get_num_nodes(), 8);
    assert_eq!(g.get_num_edges(), 17);
    for i in 0..2 {
        for j in 2..8 {
            assert!(g.has_edge(i, j));
        }
    }
    let g = generate_cbrt_maximal(100);
    assert_eq!(g.get_num_nodes(), 82);
    assert_eq!(g.get_num_edges(), 808);
}

#[test]
fn test_generate_grid() {
    let g = generate_grid(4);
    assert_eq!(g.get_num_nodes(), 16);
    assert_eq!(g.get_num_edges(), 24);
    assert!(g.has_edge(5, 1) && g.has_edge(5, 4) && g.has_edge(5, 6) && g.has_edge(5, 9));
    assert!(!g.has_edge(3, 4));
}

#[test]
fn cliques_and_cube_roots() {
    let g = generate_clique(5);
    assert_eq!(g.get_num_edges(), 10);
    assert!(!g.has_edge(2, 2));
    assert_eq!(integer_cbrt(26), 2);
    assert_eq!(integer_cbrt(27), 3);
    assert_eq!(integer_cbrt(0), 0);
    assert_eq!(integer_cbrt(usize::MAX), 2642245);
}

#[test]
fn combining_shifts_the_second_graph() {
    let mut g = Graph::from_edge_list(vec![(0, 1)]);
    combine_graph(&mut g, Graph::from_edge_list(vec![(0, 1), (1, 2)]));
    assert_eq!(g.get_num_nodes(), 5);
    assert!(g.has_edge(2, 3) && g.has_edge(3, 4) && !g.has_edge(1, 2));
}

#[test]
fn test_generate_random_tree() {
    let mut w = RandomTreeWalk::new(100);
    let mut rng = rand::thread_rng();
    while w.visited_count() < 100 {
        w.step(rng.gen_range(0..100));
    }
    let graph = w.into_graph();
    assert_eq!(graph.get_num_nodes(), 100);
    assert_eq!(graph.get_num_edges(), 99);

    for i in 0..graph.get_num_nodes() {
        assert!(graph.get_neighbors(i).len() >= 1);
    }
    assert!(graph.is_connected());
}

#[test]
fn random_walk_step_joins_only_new_nodes() {
    let mut w = RandomTreeWalk::new(3);
    w.step(2);
    assert_eq!(w.data, vec![vec![2], vec![], vec![0]]);
    w.step(0);
    assert_eq!(w.data, vec![vec![2], vec![], vec![0]]);
    w.step(1);
    assert_eq!(w.data, vec![vec![2, 1], vec![0], vec![0]]);
    assert_eq!(w.visited_count(), 3);
}
