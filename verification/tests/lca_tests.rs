use rand::Rng;
use rayon::iter::{IntoParallelIterator, ParallelIterator};
use road_graphs::graph::Graph;
use road_graphs::lca::LcaUtil;
use road_graphs::tree::RandomTreeWalk;

fn random_tree(n: usize) -> Graph {
    let mut w = RandomTreeWalk::new(n);
    let mut rng = rand::thread_rng();
    while w.visited_count() < n {
        let next = rng.gen_range(0..n);
        w.step(next);
    }
    w.into_graph()
}

fn sample_tree() -> Graph {
    //        0
    //      /   \
    //     1     2
    //    / \     \
    //   3   4     5
    //           /
    //          6
    Graph::from_edge_list(vec![(0, 1), (0, 2), (1, 3), (1, 4), (2, 5), (5, 6)])
}

#[test]
fn lca_simple() {
    let n = 100_000;
    let g = random_tree(n);
    let lca = LcaUtil::new(&g);

    for i in 0..100 {
        (0..n).into_par_iter().for_each(|j| {
            lca.distance(i, j);
        });
    }
}

#[test]
fn lca_of_sample_tree() {
    let lca = LcaUtil::new(&sample_tree());
    assert_eq!(lca.query(3, 4), 1);
    assert_eq!(lca.query(3, 6), 0);
    assert_eq!(lca.query(6, 5), 5);
    assert_eq!(lca.query(2, 6), 2);
    assert_eq!(lca.query(4, 4), 4);
    assert_eq!(lca.query(0, 6), 0);
}

#[test]
fn tree_distances_of_sample_tree() {
    let lca = LcaUtil::new(&sample_tree());
    assert_eq!(lca.distance(3, 4), 2);
    assert_eq!(lca.distance(3, 6), 5);
    assert_eq!(lca.distance(6, 0), 3);
    assert_eq!(lca.distance(1, 1), 0);
}

#[test]
fn lca_on_a_long_path() {
    let n = 1000;
    let edges: Vec<(usize, usize)> = (0..n - 1).map(|i| (i, i + 1)).collect();
    let lca = LcaUtil::new(&Graph::from_edge_list(edges));
    assert_eq!(lca.query(999, 500), 500);
    assert_eq!(lca.distance(999, 3), 996);
}

#[test]
fn lca_of_a_small_tree() {
    let lca = LcaUtil::new(&Graph::new(vec![vec![1], vec![0, 2, 4], vec![1, 3], vec![2], vec![1]]));
    assert!((0..5).all(|u| lca.hangs_below_root(u)));
    assert_eq!(lca.query(3, 4), 1);
    assert_eq!(lca.query(4, 3), 1);
    assert_eq!(lca.query(3, 2), 2);
    assert_eq!(lca.query(0, 3), 0);
    assert_eq!(lca.distance(3, 4), 3);
    assert_eq!(lca.distance(2, 2), 0);
    assert_eq!(lca.distance(0, 3), 3);
}

#[test]
fn tree_distance_is_the_same_both_ways() {
    let lca = LcaUtil::new(&Graph::new(vec![vec![1], vec![0, 2, 4], vec![1, 3], vec![2], vec![1]]));
    for u in 0..5 {
        for v in 0..5 {
            assert_eq!(lca.distance(u, v), lca.distance(v, u));
            assert_eq!(lca.query(u, v), lca.query(v, u));
        }
    }
    assert_eq!(lca.distance(4, 3), 3);
    assert_eq!(lca.distance(3, 0), 3);
}

#[test]
fn tree_distance_matches_breadth_first_search() {
    let tree = Graph::new(vec![vec![1], vec![0, 2, 4], vec![1, 3], vec![2], vec![1]]);
    let lca = LcaUtil::new(&tree);
    for u in 0..5 {
        let dist = tree.bfs(u);
        for v in 0..5 {
            assert_eq!(lca.distance(u, v), dist[v]);
        }
    }
}

#[test]
fn tree_distances_of_random_trees_match_breadth_first_search() {
    for n in [1, 2, 7, 60] {
        let tree = random_tree(n);
        let lca = LcaUtil::new(&tree);
        for u in 0..n {
            let dist = tree.bfs(u);
            for v in 0..n {
                assert_eq!(lca.distance(u, v), dist[v]);
            }
        }
    }
}
