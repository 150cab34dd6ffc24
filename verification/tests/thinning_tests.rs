use road_graphs::generators::{generate_cbrt_maximal, generate_grid};
use road_graphs::graph::Graph;
use road_graphs::thinning::{grid_thin_step, DegreeThinning};

fn degrees(g: &Graph) -> Vec<usize> {
    (0..g.get_num_nodes()).map(|u| g.get_degree(u)).collect()
}

#[test]
fn thinning_starts_at_the_largest_degree() {
    let g = Graph::from_edge_list(vec![(0, 1), (0, 2), (0, 3), (1, 2)]);
    let t = DegreeThinning::from_graph(&g);
    assert_eq!(t.current_class(), 3);
    assert_eq!(degrees(&t.to_graph()), vec![3, 2, 2, 1]);
}

#[test]
fn removing_an_edge_moves_both_ends_down() {
    let g = Graph::from_edge_list(vec![(0, 1), (0, 2), (0, 3), (1, 2)]);
    let mut t = DegreeThinning::from_graph(&g);
    // the class of degree 3 becomes empty, within its limit of 0
    t.remove_edge_at(0, 1, &vec![]);
    let h = t.to_graph();
    assert_eq!(degrees(&h), vec![2, 1, 2, 1]);
    assert!(!h.has_edge(0, 1));
    assert!(!h.has_edge(1, 0));
    assert!(h.has_edge(0, 2));
    assert_eq!(t.current_class(), 2);
}

#[test]
fn a_class_above_its_limit_stays_current() {
    // a 4-clique: every node has degree 3
    let g = Graph::from_edge_list(vec![(0, 1), (0, 2), (0, 3), (1, 2), (1, 3), (2, 3)]);
    let mut t = DegreeThinning::from_graph(&g);
    t.remove_edge_at(0, 1, &vec![0, 0, 0, 1]);
    // nodes 2 and 3 keep degree 3: two nodes, above the limit of one
    assert_eq!(t.current_class(), 3);
    t.remove_edge_at(2, 3, &vec![0, 0, 0, 1]);
    assert_eq!(t.current_class(), 2);
    assert_eq!(degrees(&t.to_graph()), vec![2, 2, 2, 2]);
}

#[test]
fn a_class_within_its_limit_is_left() {
    let g = Graph::from_edge_list(vec![(0, 1), (0, 2), (0, 3), (1, 2), (1, 3), (2, 3)]);
    let mut t = DegreeThinning::from_graph(&g);
    t.remove_edge_at(0, 1, &vec![0, 0, 0, 2]);
    assert_eq!(t.current_class(), 2);
}

#[test]
fn approx_degrees_thins_a_path_to_one_edge() {
    let mut g = Graph::from_edge_list(vec![(0, 1), (1, 2)]);
    g.approx_degrees(&vec![]);
    assert_eq!(g.get_num_nodes(), 2);
    assert_eq!(g.get_num_edges(), 1);
    assert!(g.is_undirected());
}

#[test]
fn approx_degrees_leaves_low_degrees() {
    let mut g = Graph::from_edge_list(vec![(0, 1), (2, 3), (3, 4)]);
    // degree 2 is the largest; its class is left after one edge is gone
    g.approx_degrees(&vec![0, 0, 5]);
    assert_eq!(g.get_num_nodes(), 2);
    assert_eq!(g.get_num_edges(), 1);
}

#[test]
fn approx_degrees_on_a_clique() {
    let mut edges = Vec::new();
    for i in 0..8 {
        for j in i + 1..8 {
            edges.push((i, j));
        }
    }
    let mut g = Graph::from_edge_list(edges);
    // every class from degree 2 up may keep no node: a matching is left,
    // and one of its edges is the largest component
    g.approx_degrees(&vec![0, 8, 0]);
    assert!(g.is_undirected());
    assert_eq!(g.get_num_nodes(), 2);
    assert_eq!(g.get_num_edges(), 1);
}

#[test]
fn keep_random_edges_keeps_all_when_asked_for_more() {
    let mut g = Graph::from_edge_list(vec![(0, 1), (0, 2), (0, 3), (1, 2), (1, 3), (2, 3)]);
    g.keep_random_edges_connected(100);
    assert_eq!(g.get_num_nodes(), 4);
    assert_eq!(g.get_num_edges(), 6);
}

#[test]
fn keep_random_edges_keeps_that_many() {
    let mut g = Graph::from_edge_list(vec![(0, 1), (0, 2), (0, 3), (1, 2), (1, 3), (2, 3)]);
    g.keep_random_edges_connected(5);
    // five edges of a 4-clique stay connected on all four nodes
    assert_eq!(g.get_num_nodes(), 4);
    assert_eq!(g.get_num_edges(), 5);
}

const DEGREE_DISTRIBUTION_GER: [f64; 10] = [
    0.0,
    0.21926495500273885,
    0.14653504242688228,
    0.5506052026552709,
    0.08178824037766508,
    0.0016999235485956178,
    0.00009951534464091634,
    0.00000642594721066999,
    0.0000005210227468110803,
    0.00000017367424893702675,
];

/// Each degree class may keep a fifth more nodes than its share.
fn class_limits(dist: &[f64], n: usize) -> Vec<usize> {
    dist.iter().map(|&d| (1.2 * ((d * n as f64) as usize) as f64).floor() as usize).collect()
}

#[test]
fn gen_cbrt_maximal_degree_distribution() {
    let mut g = generate_cbrt_maximal(20000);
    let limits = class_limits(&DEGREE_DISTRIBUTION_GER, g.get_num_nodes());
    g.approx_degrees(&limits);
    assert!(g.is_undirected());
}

#[test]
fn degree_counts_count_each_degree() {
    let g = Graph::from_edge_list(vec![(0, 1), (0, 2), (0, 3), (1, 2), (5, 6)]);
    // degrees 3, 2, 2, 1, 0, 1, 1
    assert_eq!(g.degree_counts(), vec![1, 3, 2, 1]);
}

#[test]
fn degree_counts_of_an_edgeless_graph() {
    let g = Graph::with_node_count(3);
    assert_eq!(g.degree_counts(), vec![3]);
}

#[test]
fn grid_thin_step_takes_an_edge_only_when_both_counts_allow() {
    // a 3 × 3 grid: four corners of degree 2, four sides of degree 3, a centre of degree 4
    let mut g = generate_grid(3);
    let mut actual = g.degree_counts();
    actual.resize(5, 0);
    assert_eq!(actual, vec![0, 0, 4, 4, 1]);
    let centre = (0..9).find(|&u| g.get_degree(u) == 4).unwrap();
    let side = (0..9).find(|&u| g.has_edge(centre, u)).unwrap();
    // the centre does not have degree 3
    assert!(!grid_thin_step(&mut g, &mut actual, &vec![0, 0, 0, 0, 0], 3, centre, Some(side)));
    // the side's class is below its target
    assert!(!grid_thin_step(&mut g, &mut actual, &vec![0, 0, 0, 5, 0], 4, centre, Some(side)));
    assert_eq!(actual, vec![0, 0, 4, 4, 1]);
    assert!(grid_thin_step(&mut g, &mut actual, &vec![0, 0, 0, 0, 0], 4, centre, Some(side)));
    assert!(!g.has_edge(centre, side));
    assert_eq!(actual, vec![0, 0, 5, 4, 0]);
}
