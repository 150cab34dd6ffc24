use road_graphs::collections::NodeSet;
use road_graphs::graph::Graph;
use std::collections::HashSet;

fn c4() -> Graph {
    Graph::from_edge_list(vec![(0, 1), (1, 2), (2, 3), (3, 0)])
}

#[test]
fn simple_dijsktra_multi() {
    let g = c4();
    let u = 0;
    let mut ends = NodeSet::new();
    ends.insert(1);
    ends.insert(2);
    let result = g.dijkstra_multi(u, ends);
    assert_eq!(result.len(), 2);
    assert!(result.contains(&1));
    assert!(result.contains(&2));
}

#[test]
fn bfs_gives_hop_distances() {
    let g = Graph::from_edge_list(vec![(0, 1), (1, 2), (2, 3), (4, 5)]);
    assert_eq!(g.bfs(0), vec![0, 1, 2, 3, usize::MAX, usize::MAX]);
    assert_eq!(g.bfs(5), vec![usize::MAX, usize::MAX, usize::MAX, usize::MAX, 1, 0]);
    assert_eq!(g.bfs_adjncy(0), vec![0, 1, 2, 3, usize::MAX, usize::MAX]);
}

#[test]
fn dijkstra_is_hop_distance() {
    let g = c4();
    assert_eq!(g.dijkstra(0, 2), 2);
    assert_eq!(g.dijkstra(0, 3), 1);
    assert_eq!(g.dijkstra(1, 1), 0);
}

#[test]
fn connectivity() {
    assert!(c4().is_connected());
    let g = Graph::from_edge_list(vec![(0, 1), (2, 3)]);
    assert!(!g.is_connected());
}

#[test]
fn diameter_of_path_and_cycle() {
    let path = Graph::from_edge_list(vec![(0, 1), (1, 2), (2, 3), (3, 4)]);
    assert_eq!(path.get_diameter(), 4);
    assert_eq!(c4().get_diameter(), 2);
}

#[test]
fn add_then_remove_edge_restores_graph() {
    let mut g = c4();
    let before: Vec<(usize, usize)> = sorted(g.get_directed_edges());
    assert!(!g.has_edge(0, 2));
    g.add_edge(0, 2);
    assert!(g.has_edge(0, 2) && g.has_edge(2, 0));
    g.remove_edge(0, 2);
    assert_eq!(sorted(g.get_directed_edges()), before);
}

fn sorted(mut v: Vec<(usize, usize)>) -> Vec<(usize, usize)> {
    v.sort();
    v
}

#[test]
fn edges_of_c4() {
    let g = c4();
    assert_eq!(g.get_num_nodes(), 4);
    assert_eq!(g.get_num_edges(), 4);
    assert_eq!(sorted(g.get_directed_edges()), vec![(0, 1), (0, 3), (1, 2), (2, 3)]);
    assert_eq!(g.get_edges().len(), 8);
    assert!(g.is_undirected());
    assert_eq!(g.get_degree(0), 2);
}

#[test]
fn directed_graph_inversion_and_symmetrisation() {
    let mut g = Graph::from_edge_list_directed(vec![(0, 1), (1, 2)]);
    assert!(!g.is_undirected());
    g.invert();
    assert!(g.has_edge(1, 0) && g.has_edge(2, 1) && !g.has_edge(0, 1));
    g.make_undirected();
    assert!(g.is_undirected());
    assert_eq!(g.get_num_edges(), 2);
}

#[test]
fn node_growth_and_clearing() {
    let mut g = c4();
    let id = g.add_node();
    assert_eq!(id, 4);
    g.increase_size_to(7);
    assert_eq!(g.get_num_nodes(), 7);
    g.increase_size_to(3);
    assert_eq!(g.get_num_nodes(), 7);
    g.clear_vertex_edges(0);
    assert_eq!(g.get_degree(0), 0);
    assert!(!g.has_edge(1, 0) && !g.has_edge(3, 0));
    assert_eq!(g.nodes_iter().count(), 7);
}

#[test]
fn adjacency_array_of_c4() {
    let g = c4();
    let (xadj, adjncy) = g.get_adjacency_array();
    assert_eq!(xadj.len(), 5);
    assert_eq!(xadj[0], 0);
    assert_eq!(xadj[4], 8);
    for u in 0..4 {
        let got: HashSet<i32> = adjncy[xadj[u] as usize..xadj[u + 1] as usize].iter().copied().collect();
        let want: HashSet<i32> = g.get_neighbors(u).to_vec().into_iter().map(|x| x as i32).collect();
        assert_eq!(got, want);
    }
}

#[test]
fn random_choices_stay_in_graph() {
    let g = c4();
    for _ in 0..20 {
        let u = g.get_random_node();
        assert!(u < 4);
        let v = g.get_random_neighbor(u).unwrap();
        assert!(g.has_edge(u, v));
    }
    let lonely = Graph::with_node_count(1);
    assert_eq!(lonely.get_random_neighbor(0), None);
}

#[test]
fn removing_random_edges_keeps_the_rest() {
    let mut g = Graph::from_edge_list(vec![(0, 1), (1, 2), (2, 3), (3, 0), (0, 2)]);
    g.remove_random_edges(2);
    assert_eq!(g.get_num_edges(), 3);
    assert!(g.is_undirected());
}

#[test]
fn add_neighbours_and_edges() {
    let mut g = Graph::with_node_count(4);
    g.add_edges(&[(0, 1), (2, 3)]);
    assert_eq!(g.get_num_edges(), 2);
    let mut s = NodeSet::new();
    s.insert(3);
    g.add_neighbors(1, &s);
    assert!(g.has_edge(1, 3) && !g.has_edge(3, 1));
    g.add_directed_edge(3, 1);
    assert!(g.is_undirected());
}
