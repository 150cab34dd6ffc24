use road_graphs::cch::{
    chordalize_and_tree, compute_separator_sizes_from_order, get_directed_graph, get_positions_from_order,
    get_subtree_sizes, traverse_separator_tree,
};
use road_graphs::graph::Graph;
use std::collections::HashSet;

fn c4() -> Graph {
    Graph::from_edge_list(vec![(0, 1), (1, 2), (2, 3), (3, 0)])
}

fn children(g: &Graph, u: usize) -> HashSet<usize> {
    g.get_neighbors(u).to_vec().into_iter().collect()
}

#[test]
fn c4_separator() {
    let g = c4();
    let order = vec![0, 2, 1, 3];
    let pos = get_positions_from_order(&order);
    let directed = get_directed_graph(&g, &pos);
    let tree = chordalize_and_tree(&directed, &order, &pos);
    assert_eq!(tree.get_num_nodes(), 4);
    let rows = compute_separator_sizes_from_order(&g, &order);
    assert!(rows.is_empty());
}

#[test]
fn positions_invert_the_order() {
    assert_eq!(get_positions_from_order(&[2, 0, 3, 1]), vec![1, 3, 0, 2]);
    assert_eq!(get_positions_from_order(&[]), Vec::<usize>::new());
}

#[test]
fn directed_graph_points_later_in_the_order() {
    let g = c4();
    let pos = get_positions_from_order(&[0, 2, 1, 3]);
    let d = get_directed_graph(&g, &pos);
    assert_eq!(children(&d, 0), [1, 3].into_iter().collect());
    assert_eq!(children(&d, 2), [1, 3].into_iter().collect());
    assert!(children(&d, 1).is_empty());
    assert!(children(&d, 3).is_empty());
}

#[test]
fn elimination_tree_of_c4() {
    let g = c4();
    let order = vec![0, 2, 1, 3];
    let pos = get_positions_from_order(&order);
    let d = get_directed_graph(&g, &pos);
    let tree = chordalize_and_tree(&d, &order, &pos);
    assert_eq!(children(&tree, 3), [1].into_iter().collect());
    assert_eq!(children(&tree, 1), [0, 2].into_iter().collect());
    assert!(children(&tree, 0).is_empty());
    assert!(children(&tree, 2).is_empty());
}

#[test]
fn elimination_tree_of_path_is_path() {
    let g = Graph::from_edge_list(vec![(0, 1), (1, 2), (2, 3)]);
    let order = vec![0, 1, 2, 3];
    let pos = get_positions_from_order(&order);
    let d = get_directed_graph(&g, &pos);
    let tree = chordalize_and_tree(&d, &order, &pos);
    for u in 0..3 {
        assert_eq!(children(&tree, u + 1), [u].into_iter().collect());
    }
    assert!(children(&tree, 0).is_empty());
}

#[test]
fn elimination_tree_adds_fill() {
    // a star centred on 0, eliminated centre first: the leaves chain up.
    let g = Graph::from_edge_list(vec![(0, 1), (0, 2), (0, 3)]);
    let order = vec![0, 1, 2, 3];
    let pos = get_positions_from_order(&order);
    let d = get_directed_graph(&g, &pos);
    let tree = chordalize_and_tree(&d, &order, &pos);
    assert_eq!(children(&tree, 1), [0].into_iter().collect());
    assert_eq!(children(&tree, 2), [1].into_iter().collect());
    assert_eq!(children(&tree, 3), [2].into_iter().collect());
}

#[test]
fn subtree_sizes_of_elimination_tree() {
    // 3 -> 1, 1 -> 0, 1 -> 2
    let tree = Graph::from_edge_list_directed(vec![(3, 1), (1, 0), (1, 2)]);
    assert_eq!(get_subtree_sizes(&tree, 3), vec![1, 3, 1, 4]);
    assert_eq!(get_subtree_sizes(&tree, 1), vec![1, 3, 1, 0]);
}

fn binary_tree(depth: usize) -> Graph {
    // node i has children 2i + 1 and 2i + 2
    let n = (1 << depth) - 1;
    let mut edges = Vec::new();
    for i in 0..n {
        for c in [2 * i + 1, 2 * i + 2] {
            if c < n {
                edges.push((i, c));
            }
        }
    }
    Graph::from_edge_list_directed(edges)
}

#[test]
fn separator_rows_of_a_binary_tree() {
    let tree = binary_tree(7);
    let sizes = get_subtree_sizes(&tree, 0);
    assert_eq!(sizes[0], 127);
    assert_eq!(sizes[1], 63);
    let mut rows = traverse_separator_tree(&tree, 0, &sizes);
    rows.sort();
    // nodes whose two subtrees have more than 10 nodes: the root (63 each)
    // and its children (31 each), and their children (15 each)
    let mut want = vec![(128, 1), (64, 1), (64, 1), (32, 1), (32, 1), (32, 1), (32, 1)];
    want.sort();
    assert_eq!(rows, want);
}

#[test]
fn separator_rows_count_single_child_chains() {
    // a path 0 -> 1 -> ... -> 29 -> 30, then 30 branches into two paths of 12
    let mut edges: Vec<(usize, usize)> = (0..30).map(|i| (i, i + 1)).collect();
    edges.push((30, 31));
    edges.extend((31..42).map(|i| (i, i + 1)));
    edges.push((30, 43));
    edges.extend((43..54).map(|i| (i, i + 1)));
    let tree = Graph::from_edge_list_directed(edges);
    let sizes = get_subtree_sizes(&tree, 0);
    assert_eq!(sizes[30], 25);
    let rows = traverse_separator_tree(&tree, 0, &sizes);
    // separator size grows by one along the chain of single large children
    assert_eq!(rows, vec![(25 + 31, 31)]);
}

#[test]
fn separator_sizes_of_a_grid() {
    let g = road_graphs::generators::generate_grid(12);
    let order: Vec<usize> = (0..144).collect();
    let rows = compute_separator_sizes_from_order(&g, &order);
    for (a, b) in rows {
        assert!(b >= 1 && a > b);
    }
}
