use road_graphs::collections::{AdjMap, NodeSet};
use road_graphs::components::get_graph;
use road_graphs::graph::Graph;
use road_graphs::separator::{first_large_subgraph, large_subgraphs, last_largest, SeparatorQueue};
use std::collections::HashSet;

fn node_set(ids: &[usize]) -> NodeSet {
    let mut s = NodeSet::new();
    for &x in ids {
        s.insert(x);
    }
    s
}

fn neighbours(g: &Graph, u: usize) -> HashSet<usize> {
    g.get_neighbors(u).to_vec().into_iter().collect()
}

#[test]
fn test_get_graph() {
    let mut g = AdjMap::new();
    g.insert(99, vec![0, 2]);
    g.insert(0, vec![99, 2]);
    g.insert(2, vec![99, 0]);
    let g = get_graph(&g);
    assert_eq!(g.get_num_nodes(), 3);
    assert_eq!(g.get_num_edges(), 3);

    let set1: HashSet<usize> = [1, 2].iter().cloned().collect();
    let set2: HashSet<usize> = [0, 1].iter().cloned().collect();
    let set3: HashSet<usize> = [0, 2].iter().cloned().collect();
    for i in 0..g.get_num_nodes() {
        let test_set = neighbours(&g, i);
        assert!(test_set == set1 || test_set == set2 || test_set == set3);
    }
}

#[test]
fn test_get_subgraphs() {
    let g = Graph::new(vec![vec![1], vec![0, 2], vec![1, 3], vec![2, 4], vec![3]]);
    let s = node_set(&[2]);
    let subgraphs = g.get_subgraphs(&s);
    assert_eq!(subgraphs.len(), 2);
    assert_eq!(subgraphs[0].get_num_nodes(), 2);
    assert_eq!(subgraphs[1].get_num_edges(), 1);
    assert_eq!(subgraphs[0].get_num_nodes(), 2);
    assert_eq!(subgraphs[1].get_num_edges(), 1);
}

#[test]
fn test_get_subgraphs2() {
    let g = Graph::new(vec![
        vec![1, 2],
        vec![0, 2],
        vec![0, 1, 3],
        vec![2, 4, 5],
        vec![3, 5],
        vec![3, 4],
    ]);
    let s = node_set(&[3]);
    let subgraphs = g.get_subgraphs(&s);

    assert_eq!(subgraphs.len(), 2);
    for subgraph in subgraphs {
        for i in 0..subgraph.get_num_nodes() {
            let _ = subgraph.get_neighbors(i);
        }
    }
}

#[test]
fn subgraphs_map_lists_each_component() {
    let g = Graph::new(vec![vec![1], vec![0, 2], vec![1, 3], vec![2, 4], vec![3]]);
    let maps = g.get_subgraphs_map(&node_set(&[2]));
    assert_eq!(maps.len(), 2);
    let mut keys: Vec<Vec<usize>> = maps
        .iter()
        .map(|m| {
            let mut k = m.keys();
            k.sort();
            k
        })
        .collect();
    keys.sort();
    assert_eq!(keys, vec![vec![0, 1], vec![3, 4]]);
}

#[test]
fn subgraphs_of_empty_separator_is_whole_graph() {
    let g = Graph::from_edge_list(vec![(0, 1), (1, 2), (2, 3), (3, 0)]);
    let subgraphs = g.get_subgraphs(&NodeSet::new());
    assert_eq!(subgraphs.len(), 1);
    assert_eq!(subgraphs[0].get_num_nodes(), 4);
    assert_eq!(subgraphs[0].get_num_edges(), 4);
}

#[test]
fn largest_component_is_kept() {
    let g = Graph::from_edge_list(vec![(0, 1), (2, 3), (3, 4), (4, 2), (5, 5)]);
    let h = g.largest_connected_component();
    assert_eq!(h.get_num_nodes(), 3);
    assert_eq!(h.get_num_edges(), 3);
}

fn sized(n: usize) -> Graph {
    Graph::with_node_count(n)
}

#[test]
fn large_subgraphs_keep_order() {
    let r = large_subgraphs(vec![sized(5), sized(1), sized(7), sized(3)], 3);
    let sizes: Vec<usize> = r.iter().map(|g| g.get_num_nodes()).collect();
    assert_eq!(sizes, vec![5, 7]);
}

#[test]
fn first_large_subgraph_position() {
    assert_eq!(first_large_subgraph(&vec![sized(2), sized(9), sized(10)], 5), Some(1));
    assert_eq!(first_large_subgraph(&vec![sized(2), sized(3)], 5), None);
}

#[test]
fn last_largest_takes_the_last_of_equals() {
    let mut a = sized(4);
    a.add_edge(0, 1);
    let b = sized(4);
    let r = last_largest(vec![sized(2), a, b, sized(1)]);
    assert_eq!(r.get_num_nodes(), 4);
    assert_eq!(r.get_num_edges(), 0);
}

#[test]
fn separator_queue_order_and_budget() {
    let mut q = SeparatorQueue::new(sized(100), 2);
    let g = q.next_graph().unwrap();
    assert_eq!(g.get_num_nodes(), 100);
    // Taken out by swap_remove(0): first, then from the last back.
    q.push_subgraphs(vec![sized(10), sized(1), sized(20), sized(30)], 5);
    assert_eq!(q.next_graph().unwrap().get_num_nodes(), 10);
    // The budget of two cuts is spent.
    assert!(q.next_graph().is_none());
    assert_eq!(q.queue.len(), 2);
    assert_eq!(q.queue[0].get_num_nodes(), 30);
    assert_eq!(q.queue[1].get_num_nodes(), 20);
}
