//! On a tree, the distance that [`LcaUtil::distance`](crate::lca::LcaUtil)
//! reads off the depths is the hop distance that breadth-first search finds
//! ([`lemma_tree_distance_is_hop_distance`]).
//!
//! The tree path from `u` to `v` is a walk of that length
//! ([`lemma_tree_path_is_walk`](crate::lca::lemma_tree_path_is_walk)). No
//! walk is shorter: in a tree every edge joins a node to its parent, and one
//! step along such an edge changes the tree distance from `u` by exactly one.
use crate::graph::{degree_sum, has_walk, in_range, is_bfs_result, is_hop_distance, is_symmetric, is_walk, reachable, walk_step};
use crate::lca::{
    anc, anc_at, is_lowest_common_ancestor, is_rooted_forest, is_tree_distance, lemma_anc_add, lemma_anc_depth,
    lemma_lowest_common_ancestor_unique, lemma_tree_path_is_walk, same_root, spans,
};
use crate::thinning::lemma_degree_sum_drops;
use vstd::prelude::*;

verus! {

/// Searching down from depth `d`: the deepest depth at most `d` at which
/// `u` and `v` have the same ancestor.
proof fn lemma_deepest_common(par: Seq<Option<usize>>, depth: Seq<usize>, u: usize, v: usize, d: nat) -> (e: nat)
    requires
        is_rooted_forest(par, depth),
        u < par.len(),
        v < par.len(),
        d <= depth[u as int],
        d <= depth[v as int],
        anc_at(par, depth, u, 0) == anc_at(par, depth, v, 0),
    ensures
        e <= d,
        anc_at(par, depth, u, e) == anc_at(par, depth, v, e),
        forall|f: nat| e < f <= d ==> anc_at(par, depth, u, f) != #[trigger] anc_at(par, depth, v, f),
    decreases d,
{
    if anc_at(par, depth, u, d) == anc_at(par, depth, v, d) {
        d
    } else {
        lemma_deepest_common(par, depth, u, v, (d - 1) as nat)
    }
}

/// Two nodes below the same root have a lowest common ancestor.
pub proof fn lemma_lowest_common_ancestor_exists(par: Seq<Option<usize>>, depth: Seq<usize>, u: usize, v: usize) -> (r: usize)
    requires
        is_rooted_forest(par, depth),
        u < par.len(),
        v < par.len(),
        same_root(par, depth, u, v),
    ensures
        is_lowest_common_ancestor(par, depth, u, v, r),
{
    let m: nat = if depth[u as int] <= depth[v as int] { depth[u as int] as nat } else { depth[v as int] as nat };
    let e = lemma_deepest_common(par, depth, u, v, m);
    lemma_anc_depth(par, depth, u, (depth[u as int] - e) as nat);
    let r = anc_at(par, depth, u, e)->0;
    assert(depth[r as int] == e);
    r
}

/// The tree distance between two nodes is at most one number.
pub proof fn lemma_tree_distance_unique(
    par: Seq<Option<usize>>,
    depth: Seq<usize>,
    u: usize,
    v: usize,
    d1: int,
    d2: int,
)
    requires
        is_rooted_forest(par, depth),
        u < par.len(),
        v < par.len(),
        is_tree_distance(par, depth, u, v, d1),
        is_tree_distance(par, depth, u, v, d2),
    ensures
        d1 == d2,
{
    let r1 = choose|r: usize|
        is_lowest_common_ancestor(par, depth, u, v, r) && d1 == depth[u as int] + depth[v as int] - 2
            * depth[r as int];
    let r2 = choose|r: usize|
        is_lowest_common_ancestor(par, depth, u, v, r) && d2 == depth[u as int] + depth[v as int] - 2
            * depth[r as int];
    lemma_lowest_common_ancestor_unique(par, depth, u, v, r1, r2);
}

/// Two nodes below the same root are some tree distance apart.
proof fn lemma_tree_distance_exists(par: Seq<Option<usize>>, depth: Seq<usize>, u: usize, v: usize) -> (d: int)
    requires
        is_rooted_forest(par, depth),
        u < par.len(),
        v < par.len(),
        same_root(par, depth, u, v),
    ensures
        is_tree_distance(par, depth, u, v, d),
{
    let r = lemma_lowest_common_ancestor_exists(par, depth, u, v);
    depth[u as int] + depth[v as int] - 2 * depth[r as int]
}

/// Above `x`, walking up from `x` one level more is walking up from its
/// parent `p`.
proof fn lemma_anc_through_parent(par: Seq<Option<usize>>, x: usize, p: usize, k: nat)
    requires
        0 <= x < par.len(),
        par[x as int] == Some(p),
    ensures
        anc(par, x, 1 + k) == anc(par, p, k),
{
    lemma_anc_add(par, x, 1, k);
    assert(anc(par, x, 0) == Some(x));
    assert(anc(par, x, 1) == par[x as int]);
}

/// The tree distances from `u` to a node and to its parent differ by one.
proof fn lemma_parent_step(
    par: Seq<Option<usize>>,
    depth: Seq<usize>,
    u: usize,
    x: usize,
    p: usize,
    d1: int,
    d2: int,
)
    requires
        is_rooted_forest(par, depth),
        u < par.len(),
        x < par.len(),
        par[x as int] == Some(p),
        is_tree_distance(par, depth, u, x, d1),
        is_tree_distance(par, depth, u, p, d2),
    ensures
        d1 == d2 + 1 || d2 == d1 + 1,
{
    let r = choose|r: usize|
        is_lowest_common_ancestor(par, depth, u, x, r) && d1 == depth[u as int] + depth[x as int] - 2
            * depth[r as int];
    let du = depth[u as int] as nat;
    let dx = depth[x as int] as nat;
    let dp = depth[p as int] as nat;
    assert(p < par.len() && dx == dp + 1);
    if r == x {
        // `x` lies above `u`, and so does its parent.
        lemma_anc_add(par, u, (du - dx) as nat, 1);
        assert(anc(par, x, 1) == par[x as int]) by {
            assert(anc(par, x, 0) == Some(x));
        }
        assert((du - dx) as nat + 1 == (du - dp) as nat);
        assert(anc_at(par, depth, u, dp) == Some(p));
        assert(anc_at(par, depth, p, dp) == Some(p));
        assert(is_lowest_common_ancestor(par, depth, u, p, p));
        assert(is_tree_distance(par, depth, u, p, du + dp - 2 * dp));
        lemma_tree_distance_unique(par, depth, u, p, d2, du + dp - 2 * dp);
    } else {
        // The lowest common ancestor lies above `x`, so above its parent.
        let dr = depth[r as int] as nat;
        if dr == dx {
            assert(anc_at(par, depth, x, dr) == anc(par, x, 0));
        }
        assert(dr <= dp);
        assert forall|f: nat| f <= dp implies anc_at(par, depth, p, f) == anc_at(par, depth, x, f) by {
            lemma_anc_through_parent(par, x, p, (dp - f) as nat);
            assert(1 + (dp - f) as nat == (dx - f) as nat);
        }
        assert(anc_at(par, depth, p, dr) == Some(r));
        assert forall|f: nat| dr < f <= du && f <= dp implies anc_at(par, depth, u, f) != #[trigger] anc_at(
            par,
            depth,
            p,
            f,
        ) by {
            assert(anc_at(par, depth, p, f) == anc_at(par, depth, x, f));
            assert(anc_at(par, depth, u, f) != anc_at(par, depth, x, f));
        }
        assert(is_lowest_common_ancestor(par, depth, u, p, r));
        assert(is_tree_distance(par, depth, u, p, du + dp - 2 * dr));
        lemma_tree_distance_unique(par, depth, u, p, d2, du + dp - 2 * dr);
    }
}

/// Every edge of `adj` joins a node and its parent.
pub open spec fn edges_are_tree_edges(adj: Seq<Set<usize>>, par: Seq<Option<usize>>) -> bool {
    forall|x: int, y: usize|
        0 <= x < adj.len() && #[trigger] adj[x].contains(y) ==> par[x] == Some(y) || (y < par.len()
            && par[y as int] == Some(x as usize))
}

/// When every edge joins a node and its parent and all nodes hang below one
/// root, a walk from `u` is at least as long as the tree distance from `u`
/// to its end.
proof fn lemma_walk_at_least_tree_distance(
    adj: Seq<Set<usize>>,
    par: Seq<Option<usize>>,
    depth: Seq<usize>,
    u: usize,
    p: Seq<usize>,
)
    requires
        is_rooted_forest(par, depth),
        adj.len() == par.len(),
        u < par.len(),
        edges_are_tree_edges(adj, par),
        forall|x: usize| x < par.len() ==> #[trigger] anc(par, x, depth[x as int] as nat) == Some(0usize),
        is_walk(adj, p),
        p[0] == u,
    ensures
        forall|d: int| #[trigger] is_tree_distance(par, depth, u, p[p.len() - 1], d) ==> d <= p.len() - 1,
    decreases p.len(),
{
    let w = p[p.len() - 1];
    assert(w < par.len());
    assert(anc(par, u, depth[u as int] as nat) == Some(0usize));
    assert(anc(par, w, depth[w as int] as nat) == Some(0usize));
    if p.len() == 1 {
        assert(anc_at(par, depth, u, depth[u as int] as nat) == Some(u)) by {
            assert(anc(par, u, 0) == Some(u));
        }
        assert(is_lowest_common_ancestor(par, depth, u, u, u));
        assert(is_tree_distance(par, depth, u, u, 0));
        assert forall|d: int| #[trigger] is_tree_distance(par, depth, u, p[p.len() - 1], d) implies d <= p.len()
            - 1 by {
            lemma_tree_distance_unique(par, depth, u, u, d, 0);
        }
    } else {
        let q = p.drop_last();
        assert forall|k: int| 0 <= k < q.len() - 1 implies #[trigger] walk_step(adj, q, k) by {
            assert(walk_step(adj, p, k));
        }
        assert(is_walk(adj, q));
        lemma_walk_at_least_tree_distance(adj, par, depth, u, q);
        let x = q[q.len() - 1];
        assert(walk_step(adj, p, p.len() - 2));
        assert(adj[x as int].contains(w));
        assert(anc(par, x, depth[x as int] as nat) == Some(0usize));
        let dx = lemma_tree_distance_exists(par, depth, u, x);
        let dw = lemma_tree_distance_exists(par, depth, u, w);
        assert(dx <= q.len() - 1);
        if par[x as int] == Some(w) {
            lemma_parent_step(par, depth, u, x, w, dx, dw);
        } else {
            assert(par[w as int] == Some(x));
            lemma_parent_step(par, depth, u, w, x, dw, dx);
        }
        assert forall|d: int| #[trigger] is_tree_distance(par, depth, u, p[p.len() - 1], d) implies d <= p.len()
            - 1 by {
            lemma_tree_distance_unique(par, depth, u, w, d, dw);
        }
    }
}

/// A tree: every edge in both directions, every node reached from node 0,
/// and `n - 1` edges (twice as many neighbour entries) on `n` nodes.
pub open spec fn is_tree(adj: Seq<Set<usize>>) -> bool {
    &&& adj.len() > 0
    &&& in_range(adj)
    &&& is_symmetric(adj)
    &&& forall|v: usize| v < adj.len() ==> #[trigger] reachable(adj, 0, v)
    &&& degree_sum(adj) == 2 * (adj.len() - 1)
}

/// The ids below `n`.
pub open spec fn ids_below(n: nat) -> Set<usize>
    decreases n,
{
    if n == 0 {
        Set::empty()
    } else {
        ids_below((n - 1) as nat).insert((n - 1) as usize)
    }
}

pub(crate) proof fn lemma_ids_below(n: nat)
    requires
        n <= usize::MAX,
    ensures
        ids_below(n).finite(),
        forall|y: usize| #[trigger] ids_below(n).contains(y) <==> y < n,
    decreases n,
{
    if n > 0 {
        lemma_ids_below((n - 1) as nat);
    }
}

/// The parent of each node, as a set of at most one node.
pub open spec fn parent_sets(par: Seq<Option<usize>>) -> Seq<Set<usize>> {
    par.map_values(
        |o: Option<usize>|
            match o {
                Some(p) => Set::empty().insert(p),
                None => Set::empty(),
            },
    )
}

/// The number of nodes with a parent.
pub open spec fn parented(par: Seq<Option<usize>>) -> nat
    decreases par.len(),
{
    if par.len() == 0 {
        0
    } else {
        parented(par.drop_last()) + if par.last() is Some {
            1nat
        } else {
            0nat
        }
    }
}

proof fn lemma_parent_sets_sum(par: Seq<Option<usize>>)
    ensures
        degree_sum(parent_sets(par)) == parented(par),
        forall|i: int| 0 <= i < par.len() ==> (#[trigger] parent_sets(par)[i]).finite(),
    decreases par.len(),
{
    if par.len() > 0 {
        assert(parent_sets(par).drop_last() =~= parent_sets(par.drop_last()));
        lemma_parent_sets_sum(par.drop_last());
        match par.last() {
            Some(p) => {
                assert(Set::<usize>::empty().insert(p).len() == 1);
            },
            None => {},
        }
    }
}

/// The children of each node among the nodes below `m`.
pub open spec fn children_upto(par: Seq<Option<usize>>, m: nat) -> Seq<Set<usize>>
    decreases m,
{
    if m == 0 {
        Seq::new(par.len(), |x: int| Set::<usize>::empty())
    } else {
        let s = children_upto(par, (m - 1) as nat);
        match par[m - 1] {
            Some(p) => if p < par.len() {
                s.update(p as int, s[p as int].insert((m - 1) as usize))
            } else {
                s
            },
            None => s,
        }
    }
}

/// Adding a new member to one set adds one to the sum of the sizes.
proof fn lemma_degree_sum_insert(s: Seq<Set<usize>>, i: int, e: usize)
    requires
        0 <= i < s.len(),
        s[i].finite(),
        !s[i].contains(e),
    ensures
        degree_sum(s.update(i, s[i].insert(e))) == degree_sum(s) + 1,
    decreases s.len(),
{
    let t = s.update(i, s[i].insert(e));
    if i == s.len() - 1 {
        assert(t.drop_last() =~= s.drop_last());
    } else {
        assert(t.drop_last() =~= s.drop_last().update(i, s[i].insert(e)));
        lemma_degree_sum_insert(s.drop_last(), i, e);
    }
}

/// Sizes that add up node by node add up in total.
proof fn lemma_degree_sum_add(a: Seq<Set<usize>>, b: Seq<Set<usize>>, c: Seq<Set<usize>>)
    requires
        a.len() == b.len(),
        b.len() == c.len(),
        forall|x: int| 0 <= x < c.len() ==> (#[trigger] c[x]).len() == a[x].len() + b[x].len(),
    ensures
        degree_sum(c) == degree_sum(a) + degree_sum(b),
    decreases c.len(),
{
    if c.len() > 0 {
        lemma_degree_sum_add(a.drop_last(), b.drop_last(), c.drop_last());
        assert(c.last().len() == a.last().len() + b.last().len());
    }
}

proof fn lemma_children_upto(par: Seq<Option<usize>>, m: nat)
    requires
        m <= par.len(),
        par.len() <= usize::MAX,
        forall|y: int| 0 <= y < par.len() ==> (#[trigger] par[y] matches Some(p) ==> p < par.len()),
    ensures
        children_upto(par, m).len() == par.len(),
        forall|x: int| 0 <= x < par.len() ==> (#[trigger] children_upto(par, m)[x]).finite(),
        forall|x: int, y: usize|
            0 <= x < par.len() ==> (#[trigger] children_upto(par, m)[x].contains(y) <==> (y < m
                && par[y as int] == Some(x as usize))),
        degree_sum(children_upto(par, m)) == parented(par.take(m as int)),
    decreases m,
{
    if m == 0 {
        assert(par.take(0) =~= Seq::<Option<usize>>::empty());
        let s = children_upto(par, 0);
        assert forall|k: int| 0 <= k <= s.len() implies degree_sum(#[trigger] s.take(k)) == 0 by {
            lemma_zero_prefix(s, k);
        }
        assert(s.take(s.len() as int) =~= s);
    } else {
        let s = children_upto(par, (m - 1) as nat);
        lemma_children_upto(par, (m - 1) as nat);
        assert(par.take(m as int).drop_last() =~= par.take(m - 1));
        assert(par.take(m as int).last() == par[m - 1]);
        match par[m - 1] {
            Some(p) => if p < par.len() {
                assert(!s[p as int].contains((m - 1) as usize));
                lemma_degree_sum_insert(s, p as int, (m - 1) as usize);
            } else {
            },
            None => {},
        }
    }
}

/// Every prefix of a sequence of empty sets sums to zero.
proof fn lemma_zero_prefix(s: Seq<Set<usize>>, k: int)
    requires
        0 <= k <= s.len(),
        forall|x: int| 0 <= x < s.len() ==> #[trigger] s[x] == Set::<usize>::empty(),
    ensures
        degree_sum(s.take(k)) == 0,
    decreases k,
{
    if k > 0 {
        assert(s.take(k).drop_last() =~= s.take(k - 1));
        lemma_zero_prefix(s, k - 1);
        assert(s.take(k).last() == Set::<usize>::empty());
    }
}

/// With node 0 the only node without a parent, the first `m` nodes have
/// `m - 1` parents among them.
proof fn lemma_parented_all(par: Seq<Option<usize>>, m: nat)
    requires
        1 <= m <= par.len(),
        par[0] is None,
        forall|x: int| 0 < x < par.len() ==> #[trigger] par[x] is Some,
    ensures
        parented(par.take(m as int)) == m - 1,
    decreases m,
{
    assert(par.take(m as int).drop_last() =~= par.take(m - 1));
    assert(par.take(m as int).last() == par[m - 1]);
    if m == 1 {
        assert(par.take(0) =~= Seq::<Option<usize>>::empty());
        assert(parented(par.take(0)) == 0);
    } else {
        lemma_parented_all(par, (m - 1) as nat);
        assert(par[m - 1] is Some);
    }
}

/// In a tree, every edge joins a node and its parent in the tree that a
/// search from node 0 spans: the parent and child links already account for
/// all `2 (n - 1)` neighbour entries.
pub proof fn lemma_tree_edges(adj: Seq<Set<usize>>, par: Seq<Option<usize>>, depth: Seq<usize>)
    requires
        is_tree(adj),
        adj.len() <= usize::MAX,
        spans(par, depth, adj),
    ensures
        edges_are_tree_edges(adj, par),
{
    let n = adj.len();
    assert forall|x: int| 0 < x < n implies #[trigger] par[x] is Some by {
        assert(reachable(adj, 0, x as usize));
    }
    let ps = parent_sets(par);
    let cs = children_upto(par, n);
    lemma_parent_sets_sum(par);
    lemma_children_upto(par, n);
    lemma_parented_all(par, n);
    assert(par.take(n as int) =~= par);
    let ks = Seq::new(n, |x: int| ps[x].union(cs[x]));
    lemma_ids_below(n);
    assert forall|x: int| 0 <= x < n implies {
        &&& (#[trigger] ks[x]).len() == ps[x].len() + cs[x].len()
        &&& ks[x].subset_of(adj[x])
        &&& adj[x].finite()
    } by {
        assert(ps[x].disjoint(cs[x])) by {
            match par[x] {
                Some(p) => {
                    if cs[x].contains(p) {
                        assert(par[p as int] == Some(x as usize));
                        assert(depth[x] == depth[p as int] + 1);
                        assert(depth[p as int] == depth[x] + 1);
                    }
                },
                None => {},
            }
        }
        vstd::set_lib::lemma_set_disjoint_lens(ps[x], cs[x]);
        assert forall|y: usize| ks[x].contains(y) implies adj[x].contains(y) by {
            if ps[x].contains(y) {
                assert(par[x] == Some(y));
                assert(adj[y as int].contains(x as usize));
            } else {
                assert(par[y as int] == Some(x as usize));
            }
        }
        assert(adj[x].subset_of(ids_below(n)));
        vstd::set_lib::lemma_set_subset_finite(ids_below(n), adj[x]);
    }
    lemma_degree_sum_add(ps, cs, ks);
    assert forall|x: int, y: usize| 0 <= x < adj.len() && #[trigger] adj[x].contains(y) implies par[x] == Some(y)
        || (y < par.len() && par[y as int] == Some(x as usize)) by {
        if !ks[x].contains(y) {
            assert forall|w: int| 0 <= w < n implies #[trigger] ks[w].len() <= adj[w].len() by {
                vstd::set_lib::lemma_len_subset(ks[w], adj[w]);
            }
            vstd::set_lib::lemma_len_subset(ks[x].insert(y), adj[x]);
            assert(ks[x].len() < adj[x].len());
            lemma_degree_sum_drops(adj, ks, x);
        }
        if ps[x].contains(y) {
            assert(par[x] == Some(y));
        } else {
            assert(cs[x].contains(y));
        }
    }
}

/// On a tree, the tree distance between `u` and `v` that the depths in
/// `par` and `depth` give (what `LcaUtil::distance` reports) is their hop
/// distance, which breadth-first search from `u` reports at `v`.
pub proof fn lemma_tree_distance_is_hop_distance(
    adj: Seq<Set<usize>>,
    par: Seq<Option<usize>>,
    depth: Seq<usize>,
    u: usize,
    v: usize,
    d: int,
)
    requires
        is_tree(adj),
        adj.len() <= usize::MAX,
        spans(par, depth, adj),
        u < adj.len(),
        v < adj.len(),
        is_tree_distance(par, depth, u, v, d),
    ensures
        d >= 0,
        is_hop_distance(adj, u, v, d as nat),
        forall|dist: Seq<usize>| #[trigger] is_bfs_result(adj, u, dist) ==> dist[v as int] == d,
{
    lemma_tree_edges(adj, par, depth);
    assert forall|x: int|
        0 <= x < par.len() implies (#[trigger] par[x] matches Some(p) ==> adj[x].contains(p) && adj[p as int].contains(
        x as usize,
    )) by {
        match par[x] {
            Some(p) => {
                assert(adj[p as int].contains(x as usize));
            },
            None => {},
        }
    }
    lemma_tree_path_is_walk(adj, par, depth, u, v, d);
    assert forall|x: usize| x < par.len() implies #[trigger] anc(par, x, depth[x as int] as nat) == Some(0usize) by {
        assert(reachable(adj, 0, x));
    }
    assert forall|k: nat| k < d implies !#[trigger] has_walk(adj, u, v, k) by {
        if has_walk(adj, u, v, k) {
            let p = choose|p: Seq<usize>| #[trigger] is_walk(adj, p) && p.len() == k + 1 && p[0] == u && p[p.len() - 1] == v;
            lemma_walk_at_least_tree_distance(adj, par, depth, u, p);
            assert(is_tree_distance(par, depth, u, p[p.len() - 1], d));
        }
    }
    assert(is_hop_distance(adj, u, v, d as nat));
    assert forall|dist: Seq<usize>| #[trigger] is_bfs_result(adj, u, dist) implies dist[v as int] == d by {
        assert(dist[v as int] <= d);
        assert(dist[v as int] != usize::MAX);
        assert(is_hop_distance(adj, u, v, dist[v as int] as nat));
        if dist[v as int] < d {
            assert(has_walk(adj, u, v, dist[v as int] as nat));
        }
    }
}

} // verus!
