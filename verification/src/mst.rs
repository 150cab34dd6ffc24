//! Spanning forests by Kruskal's rule, with `petgraph`'s union-find.
use crate::graph::{in_range, is_symmetric, is_walk, reachable, walk_step, with_edge, Graph};
use crate::reach::{lemma_reach_mono, lemma_reach_self, lemma_reach_step, lemma_reach_trans};
use petgraph::unionfind::UnionFind;
use vstd::prelude::*;

verus! {

#[verifier::external_type_specification]
#[verifier::external_body]
#[verifier::reject_recursive_types(K)]
pub struct ExUnionFind<K>(UnionFind<K>);

/// A union-find over node ids.
pub type Partition = UnionFind<usize>;

/// A pair of node ids.
pub type NodePair = (usize, usize);

/// The pairs of elements that a union-find holds in one set.
pub uninterp spec fn union_find_pairs(uf: UnionFind<usize>) -> Set<(usize, usize)>;

/// The number of elements of a union-find.
pub uninterp spec fn union_find_len(uf: UnionFind<usize>) -> nat;

/// `petgraph::unionfind::UnionFind::new`: the elements `0..n`, each in a set
/// of its own.
#[verifier::external_body]
fn union_find_new(n: usize) -> (r: Partition)
    ensures
        union_find_len(r) == n,
        forall|p: NodePair| #[trigger] union_find_pairs(r).contains(p) <==> (p.0 == p.1 && p.0 < n),
{
    UnionFind::new(n)
}

/// `petgraph::unionfind::UnionFind::union`: merges the sets of `x` and `y`;
/// tells whether they were different. It panics on an element out of range.
#[verifier::external_body]
fn union_find_union(uf: &mut UnionFind<usize>, x: usize, y: usize) -> (merged: bool)
    requires
        x < union_find_len(*old(uf)),
        y < union_find_len(*old(uf)),
    ensures
        union_find_len(*final(uf)) == union_find_len(*old(uf)),
        merged == !union_find_pairs(*old(uf)).contains((x, y)),
        forall|p: NodePair|
            #[trigger] union_find_pairs(*final(uf)).contains(p) <==> union_find_pairs(*old(uf)).contains(p)
                || (union_find_pairs(*old(uf)).contains((p.0, x)) && union_find_pairs(*old(uf)).contains((y, p.1)))
                || (union_find_pairs(*old(uf)).contains((p.0, y)) && union_find_pairs(*old(uf)).contains((x, p.1))),
{
    uf.union(x, y)
}

/// The forest that Kruskal's rule takes from the edges in the order given,
/// on the nodes `0..n`: an edge is taken when the edges taken before it do
/// not join its ends yet.
pub open spec fn greedy_forest(n: nat, e: Seq<(usize, usize)>) -> Seq<Set<usize>>
    decreases e.len(),
{
    if e.len() == 0 {
        Seq::new(n, |i: int| Set::<usize>::empty())
    } else {
        let f = greedy_forest(n, e.drop_last());
        let (u, v) = e.last();
        if reachable(f, u, v) {
            f
        } else {
            with_edge(f, u, v)
        }
    }
}

/// With the edge `u - v` added to a symmetric graph, `a` reaches `b` exactly
/// when it did before, or through the new edge in one direction or the other.
pub proof fn lemma_reach_with_edge(g: Seq<Set<usize>>, u: usize, v: usize, a: usize, b: usize)
    requires
        in_range(g),
        is_symmetric(g),
        u < g.len(),
        v < g.len(),
        a < g.len(),
        b < g.len(),
    ensures
        reachable(with_edge(g, u, v), a, b) <==> (reachable(g, a, b) || (reachable(g, a, u) && reachable(g, v, b))
            || (reachable(g, a, v) && reachable(g, u, b))),
{
    let h = with_edge(g, u, v);
    assert forall|x: int, w: usize| 0 <= x < g.len() && #[trigger] g[x].contains(w) implies h[x].contains(w) by {}
    assert(h[u as int].contains(v));
    assert(h[v as int].contains(u));
    if reachable(g, a, b) {
        lemma_reach_mono(g, h, a, b);
    }
    if reachable(g, a, u) && reachable(g, v, b) {
        lemma_reach_mono(g, h, a, u);
        lemma_reach_mono(g, h, v, b);
        lemma_reach_step(h, a, u, v);
        lemma_reach_trans(h, a, v, b);
    }
    if reachable(g, a, v) && reachable(g, u, b) {
        lemma_reach_mono(g, h, a, v);
        lemma_reach_mono(g, h, u, b);
        lemma_reach_step(h, a, v, u);
        lemma_reach_trans(h, a, u, b);
    }
    if reachable(h, a, b) {
        let k = choose|k: nat| #[trigger] crate::graph::has_walk(h, a, b, k);
        let p = choose|p: Seq<usize>| #[trigger] is_walk(h, p) && p.len() == k + 1 && p[0] == a && p[p.len() - 1] == b;
        lemma_walk_with_edge(g, u, v, p);
    }
}

proof fn lemma_walk_with_edge(g: Seq<Set<usize>>, u: usize, v: usize, p: Seq<usize>)
    requires
        in_range(g),
        is_symmetric(g),
        u < g.len(),
        v < g.len(),
        is_walk(with_edge(g, u, v), p),
    ensures
        ({
            let a = p[0];
            let b = p[p.len() - 1];
            reachable(g, a, b) || (reachable(g, a, u) && reachable(g, v, b)) || (reachable(g, a, v) && reachable(
                g,
                u,
                b,
            ))
        }),
    decreases p.len(),
{
    let h = with_edge(g, u, v);
    let a = p[0];
    let b = p[p.len() - 1];
    lemma_reach_self(g, u);
    lemma_reach_self(g, v);
    if p.len() == 1 {
        lemma_reach_self(g, a);
    } else {
        let q = p.drop_last();
        assert forall|t: int| 0 <= t < q.len() - 1 implies #[trigger] walk_step(h, q, t) by {
            assert(walk_step(h, p, t));
        }
        assert(is_walk(h, q));
        lemma_walk_with_edge(g, u, v, q);
        let c = q[q.len() - 1];
        assert(walk_step(h, p, p.len() - 2));
        assert(p[p.len() - 2] == c);
        assert(c < g.len());
        assert(h[c as int].contains(b));
        if g[c as int].contains(b) {
            if reachable(g, a, c) {
                lemma_reach_step(g, a, c, b);
            }
            if reachable(g, v, c) {
                lemma_reach_step(g, v, c, b);
            }
            if reachable(g, u, c) {
                lemma_reach_step(g, u, c, b);
            }
        }
    }
}

/// Kruskal's rule over edges already in order: each edge that joins two
/// nodes not yet joined by the edges taken so far is taken.
pub fn spanning_forest(n: usize, edges: &[(usize, usize)]) -> (forest: Graph)
    requires
        forall|k: int| 0 <= k < edges@.len() ==> (#[trigger] edges@[k]).0 < n && edges@[k].1 < n,
    ensures
        forest@ == greedy_forest(n as nat, edges@),
{
    let mut uf = union_find_new(n);
    let mut g = Graph::with_node_count(n);
    assert(edges@.take(0) =~= Seq::<(usize, usize)>::empty());
    proof {
        assert forall|a: usize, b: usize| a < n && b < n implies (#[trigger] union_find_pairs(uf).contains((a, b))
            <==> reachable(g@, a, b)) by {
            if a == b {
                lemma_reach_self(g@, a);
            }
            if reachable(g@, a, b) {
                let m = Set::new(|x: usize| x == a);
                crate::reach::lemma_closed_set_holds_reachable(g@, m, a, b);
            }
        }
    }
    let mut k: usize = 0;
    while k < edges.len()
        invariant
            k <= edges@.len(),
            forall|t: int| 0 <= t < edges@.len() ==> (#[trigger] edges@[t]).0 < n && edges@[t].1 < n,
            g@ == greedy_forest(n as nat, edges@.take(k as int)),
            g@.len() == n,
            in_range(g@),
            is_symmetric(g@),
            union_find_len(uf) == n,
            forall|a: usize, b: usize| #[trigger] union_find_pairs(uf).contains((a, b)) ==> a < n && b < n,
            forall|a: usize, b: usize|
                a < n && b < n ==> (#[trigger] union_find_pairs(uf).contains((a, b)) <==> reachable(g@, a, b)),
        decreases edges@.len() - k,
    {
        let (u, v) = edges[k];
        let ghost g0 = g@;
        let ghost p0 = union_find_pairs(uf);
        assert(edges@.take(k as int + 1).drop_last() =~= edges@.take(k as int));
        assert(edges@.take(k as int + 1).last() == edges@[k as int]);
        let merged = union_find_union(&mut uf, u, v);
        if merged {
            g.add_edge(u, v);
            proof {
                assert forall|a: usize, b: usize| a < n && b < n implies (#[trigger] union_find_pairs(uf).contains(
                    (a, b),
                ) <==> reachable(g@, a, b)) by {
                    lemma_reach_with_edge(g0, u, v, a, b);
                    assert(p0.contains((a, u)) == reachable(g0, a, u));
                    assert(p0.contains((v, b)) == reachable(g0, v, b));
                    assert(p0.contains((a, v)) == reachable(g0, a, v));
                    assert(p0.contains((u, b)) == reachable(g0, u, b));
                    assert(p0.contains((a, b)) == reachable(g0, a, b));
                }
                assert forall|x: int, w: usize| 0 <= x < g@.len() && #[trigger] g@[x].contains(w) implies w < g@.len()
                    && g@[w as int].contains(x as usize) by {
                    if !g0[x].contains(w) {
                        assert((x == u && w == v) || (x == v && w == u));
                    }
                }
            }
        } else {
            proof {
                assert(reachable(g0, u, v));
                assert forall|a: usize, b: usize| a < n && b < n implies (#[trigger] union_find_pairs(uf).contains(
                    (a, b),
                ) <==> reachable(g@, a, b)) by {
                    assert(p0.contains((a, u)) == reachable(g0, a, u));
                    assert(p0.contains((v, b)) == reachable(g0, v, b));
                    assert(p0.contains((a, v)) == reachable(g0, a, v));
                    assert(p0.contains((u, b)) == reachable(g0, u, b));
                    assert(p0.contains((a, b)) == reachable(g0, a, b));
                    if reachable(g0, a, u) && reachable(g0, v, b) {
                        lemma_reach_trans(g0, a, u, v);
                        lemma_reach_trans(g0, a, v, b);
                    }
                    if reachable(g0, a, v) && reachable(g0, u, b) {
                        crate::reach::lemma_reach_symmetric(g0, u, v);
                        lemma_reach_trans(g0, a, v, u);
                        lemma_reach_trans(g0, a, u, b);
                    }
                }
            }
        }
        k = k + 1;
    }
    assert(edges@.take(edges@.len() as int) =~= edges@);
    g
}

/// `n` nodes and no edges.
pub open spec fn empty_graph(n: nat) -> Seq<Set<usize>> {
    Seq::new(n, |i: int| Set::<usize>::empty())
}

proof fn lemma_with_edge_keeps_symmetric(g: Seq<Set<usize>>, u: usize, v: usize)
    requires
        in_range(g),
        is_symmetric(g),
        u < g.len(),
        v < g.len(),
    ensures
        in_range(with_edge(g, u, v)),
        is_symmetric(with_edge(g, u, v)),
        with_edge(g, u, v).len() == g.len(),
{
    let h = with_edge(g, u, v);
    assert forall|x: int, w: usize| 0 <= x < h.len() && #[trigger] h[x].contains(w) implies w < h.len()
        && h[w as int].contains(x as usize) by {
        if !g[x].contains(w) {
            assert((x == u && w == v) || (x == v && w == u));
        }
    }
}

proof fn lemma_edge_graphs_symmetric(n: nat, e: Seq<(usize, usize)>)
    requires
        forall|k: int| 0 <= k < e.len() ==> (#[trigger] e[k]).0 < n && e[k].1 < n,
    ensures
        greedy_forest(n, e).len() == n,
        in_range(greedy_forest(n, e)),
        is_symmetric(greedy_forest(n, e)),
        crate::graph::with_edge_list(empty_graph(n), e).len() == n,
        in_range(crate::graph::with_edge_list(empty_graph(n), e)),
        is_symmetric(crate::graph::with_edge_list(empty_graph(n), e)),
    decreases e.len(),
{
    let g = crate::graph::with_edge_list(empty_graph(n), e);
    if e.len() == 0 {
        assert forall|x: int, w: usize| 0 <= x < g.len() && #[trigger] g[x].contains(w) implies false by {
            assert(crate::graph::edges_at(e, x).contains(w));
        }
    } else {
        let d = e.drop_last();
        assert forall|k: int| 0 <= k < d.len() implies (#[trigger] d[k]).0 < n && d[k].1 < n by {
            assert(d[k] == e[k]);
        }
        lemma_edge_graphs_symmetric(n, d);
        let (u, v) = e.last();
        if !reachable(greedy_forest(n, d), u, v) {
            lemma_with_edge_keeps_symmetric(greedy_forest(n, d), u, v);
        }
        crate::graph::lemma_with_edge_list_step(empty_graph(n), e, e.len() - 1);
        assert(e.take(e.len() as int) =~= e);
        assert(e.take(e.len() - 1) =~= d);
        lemma_with_edge_keeps_symmetric(crate::graph::with_edge_list(empty_graph(n), d), u, v);
    }
}

/// The forest that Kruskal's rule takes joins exactly the nodes that the
/// edges it was offered join.
pub proof fn lemma_greedy_forest_spans(n: nat, e: Seq<(usize, usize)>, a: usize, b: usize)
    requires
        forall|k: int| 0 <= k < e.len() ==> (#[trigger] e[k]).0 < n && e[k].1 < n,
        a < n,
        b < n,
    ensures
        reachable(greedy_forest(n, e), a, b) <==> reachable(crate::graph::with_edge_list(empty_graph(n), e), a, b),
    decreases e.len(),
{
    let f = greedy_forest(n, e);
    let g = crate::graph::with_edge_list(empty_graph(n), e);
    lemma_edge_graphs_symmetric(n, e);
    if e.len() == 0 {
        assert forall|x: int| 0 <= x < n implies #[trigger] g[x] =~= empty_graph(n)[x] by {
            assert forall|w: usize| !g[x].contains(w) by {
                if g[x].contains(w) {
                    assert(crate::graph::edges_at(e, x).contains(w));
                }
            }
        }
        assert(g =~= empty_graph(n));
        assert(f =~= empty_graph(n));
    } else {
        let d = e.drop_last();
        assert forall|k: int| 0 <= k < d.len() implies (#[trigger] d[k]).0 < n && d[k].1 < n by {
            assert(d[k] == e[k]);
        }
        lemma_edge_graphs_symmetric(n, d);
        let f0 = greedy_forest(n, d);
        let g0 = crate::graph::with_edge_list(empty_graph(n), d);
        let (u, v) = e.last();
        crate::graph::lemma_with_edge_list_step(empty_graph(n), e, e.len() - 1);
        assert(e.take(e.len() as int) =~= e);
        assert(e.take(e.len() - 1) =~= d);
        assert(g == crate::graph::with_edge(g0, u, v));
        lemma_greedy_forest_spans(n, d, a, b);
        lemma_greedy_forest_spans(n, d, a, u);
        lemma_greedy_forest_spans(n, d, a, v);
        lemma_greedy_forest_spans(n, d, u, b);
        lemma_greedy_forest_spans(n, d, v, b);
        lemma_reach_with_edge(g0, u, v, a, b);
        if reachable(f0, u, v) {
            assert(f == f0);
            if reachable(f0, a, u) && reachable(f0, v, b) {
                lemma_reach_trans(f0, a, u, v);
                lemma_reach_trans(f0, a, v, b);
            }
            if reachable(f0, a, v) && reachable(f0, u, b) {
                crate::reach::lemma_reach_symmetric(f0, u, v);
                lemma_reach_trans(f0, a, v, u);
                lemma_reach_trans(f0, a, u, b);
            }
        } else {
            lemma_reach_with_edge(f0, u, v, a, b);
        }
    }
}

} // verus!
