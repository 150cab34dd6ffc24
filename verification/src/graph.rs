//! Undirected graphs as adjacency sets.
use crate::collections::NodeSet;
use vstd::prelude::*;

verus! {

/// A graph on the nodes `0..n`: `data[u]` holds the neighbours of `u`.
///
/// The algorithms read an edge `(a, b)` as undirected and expect `(b, a)` to
/// be present too; `add_directed_edge` is the one operation that adds a single
/// direction.
pub struct Graph {
    pub data: Vec<NodeSet>,
}

impl View for Graph {
    type V = Seq<Set<usize>>;

    open spec fn view(&self) -> Seq<Set<usize>> {
        self.data@.map_values(|s: NodeSet| s@)
    }
}

/// Adjacency `adj` with the edge `i - j` added in both directions.
pub open spec fn with_edge(adj: Seq<Set<usize>>, i: usize, j: usize) -> Seq<Set<usize>> {
    Seq::new(
        adj.len(),
        |x: int|
            {
                let with_j = if x == i { adj[x].insert(j) } else { adj[x] };
                if x == j { with_j.insert(i) } else { with_j }
            },
    )
}

/// Adjacency `adj` with the edge `i - j` removed in both directions.
pub open spec fn without_edge(adj: Seq<Set<usize>>, i: usize, j: usize) -> Seq<Set<usize>> {
    Seq::new(
        adj.len(),
        |x: int|
            {
                let without_j = if x == i { adj[x].remove(j) } else { adj[x] };
                if x == j { without_j.remove(i) } else { without_j }
            },
    )
}

/// The ids `b` that the list `e` pairs with `a`, in either order.
pub open spec fn edges_at(e: Seq<(usize, usize)>, a: int) -> Set<usize> {
    Set::new(
        |b: usize|
            exists|k: int|
                0 <= k < e.len() && ((e[k].0 == a && e[k].1 == b) || (e[k].1 == a && e[k].0 == b)),
    )
}

/// The ids `b` for which the list `e` holds the pair `(a, b)`.
pub open spec fn edges_from(e: Seq<(usize, usize)>, a: int) -> Set<usize> {
    Set::new(|b: usize| exists|k: int| 0 <= k < e.len() && e[k].0 == a && e[k].1 == b)
}

/// Adjacency `adj` with every pair of `e` added as an undirected edge.
pub open spec fn with_edge_list(adj: Seq<Set<usize>>, e: Seq<(usize, usize)>) -> Seq<Set<usize>> {
    Seq::new(adj.len(), |a: int| adj[a].union(edges_at(e, a)))
}

/// Adjacency `adj` with every pair of `e` added as a directed edge.
pub open spec fn with_directed_edge_list(adj: Seq<Set<usize>>, e: Seq<(usize, usize)>) -> Seq<
    Set<usize>,
> {
    Seq::new(adj.len(), |a: int| adj[a].union(edges_from(e, a)))
}

/// The largest id that the pairs of `e` name, or 0 for an empty list.
pub open spec fn max_endpoint(e: Seq<(usize, usize)>) -> nat
    decreases e.len(),
{
    if e.len() == 0 {
        0
    } else {
        let rest = max_endpoint(e.drop_last());
        let a = e.last().0 as nat;
        let b = e.last().1 as nat;
        let m = if a >= b { a } else { b };
        if rest >= m { rest } else { m }
    }
}

/// The graph that an edge list describes: nodes `0..=max_endpoint(e)`, each
/// pair an undirected edge.
pub open spec fn edge_list_graph(e: Seq<(usize, usize)>) -> Seq<Set<usize>> {
    Seq::new(max_endpoint(e) + 1, |a: int| edges_at(e, a))
}

/// The graph that an edge list describes, each pair a directed edge.
pub open spec fn directed_edge_list_graph(e: Seq<(usize, usize)>) -> Seq<Set<usize>> {
    Seq::new(max_endpoint(e) + 1, |a: int| edges_from(e, a))
}

/// The pairs `(a, b)` with `b` a neighbour of `a`.
pub open spec fn edge_pairs(adj: Seq<Set<usize>>) -> Set<(usize, usize)> {
    Set::new(|e: (usize, usize)| e.0 < adj.len() && adj[e.0 as int].contains(e.1))
}

/// The sum of the degrees of the nodes.
pub open spec fn degree_sum(adj: Seq<Set<usize>>) -> int
    decreases adj.len(),
{
    if adj.len() == 0 {
        0
    } else {
        degree_sum(adj.drop_last()) + adj.last().len()
    }
}

/// Every id that `e` names lies below `max_endpoint(e)` or equals it.
pub proof fn lemma_max_endpoint(e: Seq<(usize, usize)>)
    ensures
        forall|k: int|
            0 <= k < e.len() ==> (#[trigger] e[k]).0 <= max_endpoint(e) && e[k].1 <= max_endpoint(
                e,
            ),
    decreases e.len(),
{
    if e.len() > 0 {
        lemma_max_endpoint(e.drop_last());
        assert forall|k: int| 0 <= k < e.len() implies (#[trigger] e[k]).0 <= max_endpoint(e)
            && e[k].1 <= max_endpoint(e) by {
            if k < e.len() - 1 {
                assert(e[k] == e.drop_last()[k]);
            }
        }
    }
}

/// Adding the pairs of `e.take(k + 1)` is adding those of `e.take(k)` and then `e[k]`.
pub proof fn lemma_with_edge_list_step(adj: Seq<Set<usize>>, e: Seq<(usize, usize)>, k: int)
    requires
        0 <= k < e.len(),
        e[k].0 < adj.len(),
        e[k].1 < adj.len(),
    ensures
        with_edge_list(adj, e.take(k + 1)) == with_edge(
            with_edge_list(adj, e.take(k)),
            e[k].0,
            e[k].1,
        ),
{
    let lhs = with_edge_list(adj, e.take(k + 1));
    let rhs = with_edge(with_edge_list(adj, e.take(k)), e[k].0, e[k].1);
    assert forall|a: int| 0 <= a < adj.len() implies #[trigger] lhs[a] == rhs[a] by {
        assert forall|b: usize| lhs[a].contains(b) == rhs[a].contains(b) by {
            if edges_at(e.take(k + 1), a).contains(b) && !adj[a].contains(b) {
                let ek = e.take(k + 1);
                let t = choose|t: int|
                    0 <= t < ek.len() && ((#[trigger] ek[t].0 == a && ek[t].1 == b) || (ek[t].1 == a
                        && ek[t].0 == b));
                if t < k {
                    assert(e.take(k)[t] == e.take(k + 1)[t]);
                    assert(edges_at(e.take(k), a).contains(b));
                }
            }
            if edges_at(e.take(k), a).contains(b) {
                let ek = e.take(k);
                let t = choose|t: int|
                    0 <= t < ek.len() && ((#[trigger] ek[t].0 == a && ek[t].1 == b) || (ek[t].1 == a
                        && ek[t].0 == b));
                assert(e.take(k)[t] == e.take(k + 1)[t]);
                assert(edges_at(e.take(k + 1), a).contains(b));
            }
            if (a == e[k].0 && b == e[k].1) || (a == e[k].1 && b == e[k].0) {
                assert(e.take(k + 1)[k] == e[k]);
                assert(edges_at(e.take(k + 1), a).contains(b));
            }
        }
        assert(lhs[a] =~= rhs[a]);
    }
    assert(lhs =~= rhs);
}

/// Adding the pairs of `e.take(k + 1)` as directed edges is adding those of
/// `e.take(k)` and then `e[k]`.
pub proof fn lemma_with_directed_edge_list_step(adj: Seq<Set<usize>>, e: Seq<(usize, usize)>, k: int)
    requires
        0 <= k < e.len(),
        e[k].0 < adj.len(),
    ensures
        with_directed_edge_list(adj, e.take(k + 1)) == with_directed_edge_list(adj, e.take(k)).update(
            e[k].0 as int,
            with_directed_edge_list(adj, e.take(k))[e[k].0 as int].insert(e[k].1),
        ),
{
    let lhs = with_directed_edge_list(adj, e.take(k + 1));
    let rhs = with_directed_edge_list(adj, e.take(k)).update(
        e[k].0 as int,
        with_directed_edge_list(adj, e.take(k))[e[k].0 as int].insert(e[k].1),
    );
    assert forall|a: int| 0 <= a < adj.len() implies #[trigger] lhs[a] == rhs[a] by {
        assert forall|b: usize| lhs[a].contains(b) == rhs[a].contains(b) by {
            if edges_from(e.take(k + 1), a).contains(b) && !adj[a].contains(b) {
                let ek = e.take(k + 1);
                let t = choose|t: int| 0 <= t < ek.len() && #[trigger] ek[t].0 == a && ek[t].1 == b;
                if t < k {
                    assert(e.take(k)[t] == e.take(k + 1)[t]);
                    assert(edges_from(e.take(k), a).contains(b));
                }
            }
            if edges_from(e.take(k), a).contains(b) {
                let ek = e.take(k);
                let t = choose|t: int| 0 <= t < ek.len() && #[trigger] ek[t].0 == a && ek[t].1 == b;
                assert(e.take(k)[t] == e.take(k + 1)[t]);
                assert(edges_from(e.take(k + 1), a).contains(b));
            }
            if a == e[k].0 && b == e[k].1 {
                assert(e.take(k + 1)[k] == e[k]);
                assert(edges_from(e.take(k + 1), a).contains(b));
            }
        }
        assert(lhs[a] =~= rhs[a]);
    }
    assert(lhs =~= rhs);
}

impl Graph {
    /// A graph with `n` nodes and no edges.
    pub fn with_node_count(n: usize) -> (g: Graph)
        ensures
            g@ == Seq::new(n as nat, |i: int| Set::<usize>::empty()),
    {
        let mut data: Vec<NodeSet> = Vec::new();
        let mut k: usize = 0;
        while k < n
            invariant
                k <= n,
                data@.len() == k,
                forall|i: int| 0 <= i < k ==> (#[trigger] data@[i])@ == Set::<usize>::empty(),
            decreases n - k,
        {
            data.push(NodeSet::new());
            k = k + 1;
        }
        let g = Graph { data };
        assert(g@ =~= Seq::new(n as nat, |i: int| Set::<usize>::empty()));
        g
    }

    /// A graph with the same nodes and edges.
    pub fn duplicate(&self) -> (r: Graph)
        ensures
            r@ == self@,
    {
        let mut data: Vec<NodeSet> = Vec::new();
        let mut u: usize = 0;
        while u < self.data.len()
            invariant
                u <= self.data@.len(),
                data@.len() == u,
                forall|w: int| 0 <= w < u ==> (#[trigger] data@[w])@ == self.data@[w]@,
            decreases self.data@.len() - u,
        {
            data.push(self.data[u].duplicate());
            u = u + 1;
        }
        let r = Graph { data };
        assert(r@ =~= self@);
        r
    }

    /// Adds the undirected edge `i - j`.
    pub fn add_edge(&mut self, i: usize, j: usize)
        requires
            i < old(self)@.len(),
            j < old(self)@.len(),
        ensures
            final(self)@ == with_edge(old(self)@, i, j),
    {
        let ghost a0 = self@;
        self.data[i].insert(j);
        let ghost a1 = self@;
        assert(a1 =~= a0.update(i as int, a0[i as int].insert(j)));
        self.data[j].insert(i);
        assert(self@ =~= a1.update(j as int, a1[j as int].insert(i)));
        assert(self@ =~= with_edge(old(self)@, i, j));
    }
}

} // verus!

verus! {

/// Every neighbour id is a node of the graph.
pub open spec fn in_range(adj: Seq<Set<usize>>) -> bool {
    forall|u: int, v: usize| 0 <= u < adj.len() && #[trigger] adj[u].contains(v) ==> v < adj.len()
}

/// Every edge is present in both directions.
pub open spec fn is_symmetric(adj: Seq<Set<usize>>) -> bool {
    forall|u: int, v: usize|
        0 <= u < adj.len() && #[trigger] adj[u].contains(v) ==> v < adj.len() && adj[v as int].contains(
            u as usize,
        )
}

/// `p[k] - p[k + 1]` is an edge.
pub open spec fn walk_step(adj: Seq<Set<usize>>, p: Seq<usize>, k: int) -> bool {
    adj[p[k] as int].contains(p[k + 1])
}

/// `p` is a non-empty sequence of nodes, each joined to the next by an edge.
pub open spec fn is_walk(adj: Seq<Set<usize>>, p: Seq<usize>) -> bool {
    &&& p.len() > 0
    &&& forall|k: int| 0 <= k < p.len() ==> #[trigger] p[k] < adj.len()
    &&& forall|k: int| 0 <= k < p.len() - 1 ==> #[trigger] walk_step(adj, p, k)
}

/// There is a walk of `k` edges from `s` to `v`.
pub open spec fn has_walk(adj: Seq<Set<usize>>, s: usize, v: usize, k: nat) -> bool {
    exists|p: Seq<usize>|
        #[trigger] is_walk(adj, p) && p.len() == k + 1 && p[0] == s && p[p.len() - 1] == v
}

/// `v` can be reached from `s`.
pub open spec fn reachable(adj: Seq<Set<usize>>, s: usize, v: usize) -> bool {
    exists|k: nat| #[trigger] has_walk(adj, s, v, k)
}

/// `d` is the least number of edges on a walk from `s` to `v`.
pub open spec fn is_hop_distance(adj: Seq<Set<usize>>, s: usize, v: usize, d: nat) -> bool {
    &&& has_walk(adj, s, v, d)
    &&& forall|k: nat| k < d ==> !#[trigger] has_walk(adj, s, v, k)
}

/// `dist[v]` is the hop distance from `s` to `v`, or `usize::MAX` where `v`
/// cannot be reached.
pub open spec fn is_bfs_result(adj: Seq<Set<usize>>, s: usize, dist: Seq<usize>) -> bool {
    &&& dist.len() == adj.len()
    &&& forall|v: usize|
        v < adj.len() ==> {
            &&& (#[trigger] dist[v as int] == usize::MAX <==> !reachable(adj, s, v))
            &&& (dist[v as int] != usize::MAX ==> is_hop_distance(adj, s, v, dist[v as int] as nat))
        }
}

/// The facts from which `is_bfs_result` follows: `dist[s] == 0`, every finite
/// entry is the length of some walk, and no edge leaves a finite entry for a
/// node more than one step further.
pub open spec fn is_distance_certificate(adj: Seq<Set<usize>>, s: usize, dist: Seq<usize>) -> bool {
    &&& dist.len() == adj.len()
    &&& s < adj.len()
    &&& dist[s as int] == 0
    &&& forall|v: usize|
        v < dist.len() && #[trigger] dist[v as int] != usize::MAX ==> has_walk(
            adj,
            s,
            v,
            dist[v as int] as nat,
        )
    &&& forall|u: int, v: usize|
        0 <= u < dist.len() && dist[u] != usize::MAX && #[trigger] adj[u].contains(v) ==> {
            &&& v < dist.len()
            &&& dist[v as int] != usize::MAX
            &&& dist[v as int] <= dist[u] + 1
        }
}

/// A walk from `s` is never shorter than the certified distance of its end.
pub proof fn lemma_walk_bounds_distance(
    adj: Seq<Set<usize>>,
    s: usize,
    dist: Seq<usize>,
    p: Seq<usize>,
)
    requires
        is_distance_certificate(adj, s, dist),
        is_walk(adj, p),
        p[0] == s,
    ensures
        dist[p[p.len() - 1] as int] != usize::MAX,
        dist[p[p.len() - 1] as int] <= p.len() - 1,
    decreases p.len(),
{
    if p.len() > 1 {
        let q = p.drop_last();
        assert forall|k: int| 0 <= k < q.len() - 1 implies #[trigger] walk_step(adj, q, k) by {
            assert(walk_step(adj, p, k));
        }
        assert(q[0] == s);
        lemma_walk_bounds_distance(adj, s, dist, q);
        let k = p.len() - 2;
        assert(walk_step(adj, p, k));
        assert(adj[p[k] as int].contains(p[k + 1]));
        assert(p[k] < adj.len());
    }
}

/// The certificate pins `dist` down to the hop distances.
pub proof fn lemma_certificate_gives_bfs_result(adj: Seq<Set<usize>>, s: usize, dist: Seq<usize>)
    requires
        is_distance_certificate(adj, s, dist),
    ensures
        is_bfs_result(adj, s, dist),
{
    assert forall|v: usize| v < adj.len() implies {
        &&& (#[trigger] dist[v as int] == usize::MAX <==> !reachable(adj, s, v))
        &&& (dist[v as int] != usize::MAX ==> is_hop_distance(adj, s, v, dist[v as int] as nat))
    } by {
        if dist[v as int] != usize::MAX {
            assert(has_walk(adj, s, v, dist[v as int] as nat));
            assert forall|k: nat| k < dist[v as int] as nat implies !#[trigger] has_walk(
                adj,
                s,
                v,
                k,
            ) by {
                if has_walk(adj, s, v, k) {
                    let p = choose|p: Seq<usize>|
                        #[trigger] is_walk(adj, p) && p.len() == k + 1 && p[0] == s && p[p.len()
                            - 1] == v;
                    lemma_walk_bounds_distance(adj, s, dist, p);
                }
            }
        } else {
            if reachable(adj, s, v) {
                let k = choose|k: nat| #[trigger] has_walk(adj, s, v, k);
                let p = choose|p: Seq<usize>|
                    #[trigger] is_walk(adj, p) && p.len() == k + 1 && p[0] == s && p[p.len() - 1]
                        == v;
                lemma_walk_bounds_distance(adj, s, dist, p);
            }
        }
    }
}

/// A sequence of distinct ids below `n` has at most `n` entries.
pub proof fn lemma_distinct_below(q: Seq<usize>, n: usize)
    requires
        q.no_duplicates(),
        forall|k: int| 0 <= k < q.len() ==> #[trigger] q[k] < n,
    ensures
        q.len() <= n,
{
    let qi = q.map_values(|x: usize| x as int);
    assert forall|i: int, j: int| 0 <= i < qi.len() && 0 <= j < qi.len() && i != j implies qi[i]
        != qi[j] by {
        assert(q[i] != q[j]);
    }
    assert(qi.no_duplicates());
    qi.unique_seq_to_set();
    let r = vstd::set_lib::set_int_range(0, n as int);
    assert(qi.to_set().subset_of(r)) by {
        assert forall|x: int| qi.to_set().contains(x) implies r.contains(x) by {
            let k = choose|k: int| 0 <= k < qi.len() && qi[k] == x;
            assert(q[k] < n);
        }
    }
    vstd::set_lib::lemma_int_range(0, n as int);
    vstd::set_lib::lemma_len_subset(qi.to_set(), r);
}

} // verus!

verus! {

impl Graph {
    /// Adds every pair of `edges` as an undirected edge.
    pub fn add_edges(&mut self, edges: &[(usize, usize)])
        requires
            forall|k: int|
                0 <= k < edges@.len() ==> (#[trigger] edges@[k]).0 < old(self)@.len() && edges@[k].1
                    < old(self)@.len(),
        ensures
            final(self)@ == with_edge_list(old(self)@, edges@),
    {
        let ghost adj0 = self@;
        let mut k: usize = 0;
        assert(with_edge_list(adj0, edges@.take(0)) =~= adj0) by {
            assert forall|a: int| 0 <= a < adj0.len() implies #[trigger] with_edge_list(
                adj0,
                edges@.take(0),
            )[a] =~= adj0[a] by {
                assert(edges_at(edges@.take(0), a) =~= Set::<usize>::empty());
            }
        }
        while k < edges.len()
            invariant
                k <= edges@.len(),
                self@.len() == adj0.len(),
                self@ == with_edge_list(adj0, edges@.take(k as int)),
                forall|t: int|
                    0 <= t < edges@.len() ==> (#[trigger] edges@[t]).0 < adj0.len() && edges@[t].1
                        < adj0.len(),
            decreases edges.len() - k,
        {
            let (i, j) = edges[k];
            self.add_edge(i, j);
            proof {
                lemma_with_edge_list_step(adj0, edges@, k as int);
            }
            k = k + 1;
        }
        assert(edges@.take(edges@.len() as int) =~= edges@);
    }

    /// Adds the edge `i -> j` in one direction only.
    pub fn add_directed_edge(&mut self, i: usize, j: usize)
        requires
            i < old(self)@.len(),
        ensures
            final(self)@ == old(self)@.update(i as int, old(self)@[i as int].insert(j)),
    {
        self.data[i].insert(j);
        assert(self@ =~= old(self)@.update(i as int, old(self)@[i as int].insert(j)));
    }

    /// Removes the undirected edge `i - j`.
    pub fn remove_edge(&mut self, i: usize, j: usize)
        requires
            i < old(self)@.len(),
            j < old(self)@.len(),
        ensures
            final(self)@ == without_edge(old(self)@, i, j),
    {
        let ghost a0 = self@;
        self.data[i].remove(j);
        let ghost a1 = self@;
        assert(a1 =~= a0.update(i as int, a0[i as int].remove(j)));
        self.data[j].remove(i);
        assert(self@ =~= a1.update(j as int, a1[j as int].remove(i)));
        assert(self@ =~= without_edge(old(self)@, i, j));
    }

    /// Whether `j` is a neighbour of `i`.
    pub fn has_edge(&self, i: usize, j: usize) -> (r: bool)
        requires
            i < self@.len(),
        ensures
            r == self@[i as int].contains(j),
    {
        self.data[i].contains(j)
    }

    /// The graph on `max + 1` nodes, `max` the largest id the list names (0
    /// for an empty list), with every pair an undirected edge.
    pub fn from_edge_list(edges: Vec<(usize, usize)>) -> (g: Graph)
        requires
            max_endpoint(edges@) < usize::MAX,
        ensures
            g@ == edge_list_graph(edges@),
    {
        let max_idx = max_endpoint_of(&edges);
        let mut g = Graph::with_node_count(max_idx + 1);
        proof {
            lemma_max_endpoint(edges@);
        }
        g.add_edges(edges.as_slice());
        proof {
            let lhs = g@;
            let rhs = edge_list_graph(edges@);
            assert forall|a: int| 0 <= a < lhs.len() implies #[trigger] lhs[a] =~= rhs[a] by {}
            assert(lhs =~= rhs);
        }
        g
    }

    /// The graph on `max + 1` nodes, `max` the largest id the list names (0
    /// for an empty list), with every pair `(a, b)` a directed edge `a -> b`.
    pub fn from_edge_list_directed(edges: Vec<(usize, usize)>) -> (g: Graph)
        requires
            max_endpoint(edges@) < usize::MAX,
        ensures
            g@ == directed_edge_list_graph(edges@),
    {
        let max_idx = max_endpoint_of(&edges);
        let mut g = Graph::with_node_count(max_idx + 1);
        let ghost adj0 = g@;
        proof {
            lemma_max_endpoint(edges@);
            assert(with_directed_edge_list(adj0, edges@.take(0)) =~= adj0) by {
                assert forall|a: int| 0 <= a < adj0.len() implies #[trigger] with_directed_edge_list(
                    adj0,
                    edges@.take(0),
                )[a] =~= adj0[a] by {
                    assert(edges_from(edges@.take(0), a) =~= Set::<usize>::empty());
                }
            }
        }
        let mut k: usize = 0;
        while k < edges.len()
            invariant
                k <= edges@.len(),
                adj0.len() == max_endpoint(edges@) + 1,
                g@ == with_directed_edge_list(adj0, edges@.take(k as int)),
                forall|t: int|
                    0 <= t < edges@.len() ==> (#[trigger] edges@[t]).0 <= max_endpoint(edges@)
                        && edges@[t].1 <= max_endpoint(edges@),
            decreases edges.len() - k,
        {
            let (i, j) = edges[k];
            g.add_directed_edge(i, j);
            proof {
                lemma_with_directed_edge_list_step(adj0, edges@, k as int);
            }
            k = k + 1;
        }
        proof {
            assert(edges@.take(edges@.len() as int) =~= edges@);
            let lhs = g@;
            let rhs = directed_edge_list_graph(edges@);
            assert forall|a: int| 0 <= a < lhs.len() implies #[trigger] lhs[a] =~= rhs[a] by {}
            assert(lhs =~= rhs);
        }
        g
    }
}

/// The largest id that the pairs of `edges` name, or 0 for an empty list.
pub fn max_endpoint_of(edges: &Vec<(usize, usize)>) -> (m: usize)
    ensures
        m == max_endpoint(edges@),
{
    let mut m: usize = 0;
    let mut k: usize = 0;
    while k < edges.len()
        invariant
            k <= edges@.len(),
            m == max_endpoint(edges@.take(k as int)),
        decreases edges.len() - k,
    {
        let (a, b) = edges[k];
        let top = if a >= b { a } else { b };
        assert(edges@.take(k + 1).drop_last() =~= edges@.take(k as int));
        if top > m {
            m = top;
        }
        k = k + 1;
    }
    assert(edges@.take(edges@.len() as int) =~= edges@);
    m
}

/// Appending a new element to a sequence without duplicates.
pub proof fn lemma_push_fresh<A>(q: Seq<A>, x: A)
    requires
        q.no_duplicates(),
        !q.contains(x),
    ensures
        q.push(x).no_duplicates(),
        forall|y: A| #[trigger] q.push(x).contains(y) <==> (q.contains(y) || y == x),
{
    let q1 = q.push(x);
    assert forall|a: int, b: int| 0 <= a < q1.len() && 0 <= b < q1.len() && a != b implies q1[a]
        != q1[b] by {
        if a < q.len() && b < q.len() {
            assert(q1[a] == q[a] && q1[b] == q[b]);
        } else if a == q.len() {
            assert(q1[b] == q[b]);
            assert(q.contains(q[b]));
        } else {
            assert(q1[a] == q[a]);
            assert(q.contains(q[a]));
        }
    }
    assert forall|y: A| q1.contains(y) <==> (q.contains(y) || y == x) by {
        if q.contains(y) {
            let k = choose|k: int| 0 <= k < q.len() && q[k] == y;
            assert(q1[k] == y);
        }
        if y == x {
            assert(q1[q.len() as int] == x);
        }
        if q1.contains(y) {
            let k = choose|k: int| 0 <= k < q1.len() && q1[k] == y;
            if k < q.len() {
                assert(q[k] == y);
            }
        }
    }
}

/// One more element of a prefix.
pub proof fn lemma_take_one_more<A>(s: Seq<A>, j: int)
    requires
        0 <= j < s.len(),
    ensures
        s.take(j + 1) == s.take(j).push(s[j]),
        forall|y: A| #[trigger] s.take(j + 1).contains(y) <==> (s.take(j).contains(y) || y == s[j]),
        s.take(j + 1).to_set() == s.take(j).to_set().insert(s[j]),
{
    assert(s.take(j + 1) =~= s.take(j).push(s[j]));
    assert forall|y: A| #[trigger] s.take(j + 1).contains(y) <==> (s.take(j).contains(y) || y == s[j]) by {
        let a = s.take(j);
        let b = s.take(j + 1);
        if a.contains(y) {
            let k = choose|k: int| 0 <= k < a.len() && a[k] == y;
            assert(b[k] == y);
        }
        if y == s[j] {
            assert(b[j] == y);
        }
        if b.contains(y) {
            let k = choose|k: int| 0 <= k < b.len() && b[k] == y;
            if k < j {
                assert(a[k] == y);
            }
        }
    }
    assert(s.take(j + 1).to_set() =~= s.take(j).to_set().insert(s[j]));
}

/// The degrees of a prefix sum to at most the degrees of the whole.
pub proof fn lemma_degree_sum_prefix(adj: Seq<Set<usize>>, i: int)
    requires
        0 <= i <= adj.len(),
    ensures
        degree_sum(adj.take(i)) <= degree_sum(adj),
        degree_sum(adj.take(i)) >= 0,
    decreases adj.len(),
{
    if i == adj.len() {
        assert(adj.take(i) =~= adj);
        lemma_degree_sum_nonneg(adj);
    } else {
        lemma_degree_sum_prefix(adj.drop_last(), i);
        assert(adj.drop_last().take(i) =~= adj.take(i));
    }
}

/// A degree sum is never negative.
pub proof fn lemma_degree_sum_nonneg(adj: Seq<Set<usize>>)
    ensures
        degree_sum(adj) >= 0,
    decreases adj.len(),
{
    if adj.len() > 0 {
        lemma_degree_sum_nonneg(adj.drop_last());
    }
}

impl Graph {
    /// A graph whose node `i` has the ids of `edges[i]` as neighbours.
    pub fn new(edges: Vec<Vec<usize>>) -> (g: Graph)
        ensures
            g@.len() == edges@.len(),
            forall|i: int| 0 <= i < edges@.len() ==> #[trigger] g@[i] == edges@[i]@.to_set(),
    {
        let mut data: Vec<NodeSet> = Vec::new();
        let mut i: usize = 0;
        while i < edges.len()
            invariant
                i <= edges@.len(),
                data@.len() == i,
                forall|t: int| 0 <= t < i ==> (#[trigger] data@[t])@ == edges@[t]@.to_set(),
            decreases edges.len() - i,
        {
            let list = &edges[i];
            let mut set = NodeSet::new();
            let mut j: usize = 0;
            while j < list.len()
                invariant
                    j <= list@.len(),
                    set@ == list@.take(j as int).to_set(),
                decreases list.len() - j,
            {
                set.insert(list[j]);
                proof {
                    lemma_take_one_more(list@, j as int);
                }
                j = j + 1;
            }
            assert(list@.take(list@.len() as int) =~= list@);
            data.push(set);
            i = i + 1;
        }
        Graph { data }
    }

    /// The neighbours of `u`.
    pub fn get_neighbors(&self, u: usize) -> (r: &NodeSet)
        requires
            u < self@.len(),
        ensures
            r@ == self@[u as int],
    {
        &self.data[u]
    }

    /// The number of neighbours of `u`.
    pub fn get_degree(&self, u: usize) -> (r: usize)
        requires
            u < self@.len(),
        ensures
            r == self@[u as int].len(),
    {
        self.data[u].len()
    }

    /// Adds the ids of `neighbors` to the neighbours of `u`.
    pub fn add_neighbors(&mut self, u: usize, neighbors: &NodeSet)
        requires
            u < old(self)@.len(),
        ensures
            final(self)@ == old(self)@.update(u as int, old(self)@[u as int].union(neighbors@)),
    {
        self.data[u].extend(neighbors);
        assert(self@ =~= old(self)@.update(u as int, old(self)@[u as int].union(neighbors@)));
    }

    /// Adds a node without edges; returns its id.
    pub fn add_node(&mut self) -> (id: usize)
        ensures
            final(self)@ == old(self)@.push(Set::<usize>::empty()),
            id == old(self)@.len(),
    {
        self.data.push(NodeSet::new());
        assert(self@ =~= old(self)@.push(Set::<usize>::empty()));
        self.data.len() - 1
    }

    /// Grows the graph to `n` nodes with empty neighbourhoods; a graph with
    /// at least `n` nodes is left as it is.
    pub fn increase_size_to(&mut self, n: usize)
        ensures
            n <= old(self)@.len() ==> final(self)@ == old(self)@,
            n > old(self)@.len() ==> final(self)@ == old(self)@ + Seq::new(
                (n - old(self)@.len()) as nat,
                |i: int| Set::<usize>::empty(),
            ),
    {
        if n < self.data.len() {
            return;
        }
        let ghost a0 = self@;
        while self.data.len() < n
            invariant
                a0.len() <= self@.len() <= n || (n <= a0.len() && self@ == a0),
                self@ == a0 + Seq::new((self@.len() - a0.len()) as nat, |i: int| Set::<usize>::empty()),
            decreases n - self.data.len(),
        {
            let ghost prev = self@;
            self.data.push(NodeSet::new());
            assert(self@ =~= prev.push(Set::<usize>::empty()));
            assert(self@ =~= a0 + Seq::new((self@.len() - a0.len()) as nat, |i: int| Set::<usize>::empty()));
        }
        assert(n <= a0.len() ==> self@ =~= a0);
    }

    /// The node ids `0..n`.
    pub fn nodes_iter(&self) -> (r: std::ops::Range<usize>)
        ensures
            r.start == 0,
            r.end == self@.len(),
    {
        0..self.data.len()
    }

    /// Every pair `(a, b)` with `b` a neighbour of `a`, each once.
    pub fn get_edges(&self) -> (r: Vec<(usize, usize)>)
        ensures
            r@.no_duplicates(),
            r@.to_set() == edge_pairs(self@),
    {
        let ghost adj = self@;
        let n = self.data.len();
        let mut r: Vec<(usize, usize)> = Vec::new();
        let mut i: usize = 0;
        while i < n
            invariant
                n == adj.len(),
                adj == self@,
                i <= n,
                r@.no_duplicates(),
                forall|e: (usize, usize)|
                    #[trigger] r@.contains(e) <==> (e.0 < i && adj[e.0 as int].contains(e.1)),
            decreases n - i,
        {
            let nbrs = self.data[i].to_vec();
            assert(nbrs@.to_set() == adj[i as int]);
            let mut j: usize = 0;
            while j < nbrs.len()
                invariant
                    n == adj.len(),
                    i < n,
                    j <= nbrs@.len(),
                    nbrs@.no_duplicates(),
                    r@.no_duplicates(),
                    forall|e: (usize, usize)|
                        #[trigger] r@.contains(e) <==> ((e.0 < i && adj[e.0 as int].contains(e.1)) || (
                        e.0 == i && nbrs@.take(j as int).contains(e.1))),
                decreases nbrs.len() - j,
            {
                let x = (i, nbrs[j]);
                proof {
                    assert(!r@.contains(x)) by {
                        if nbrs@.take(j as int).contains(nbrs@[j as int]) {
                            let t = choose|t: int| 0 <= t < j && nbrs@.take(j as int)[t] == nbrs@[j as int];
                            assert(nbrs@[t] == nbrs@[j as int]);
                        }
                    }
                    lemma_push_fresh(r@, x);
                    lemma_take_one_more(nbrs@, j as int);
                }
                let ghost r_old = r@;
                r.push(x);
                proof {
                    assert forall|e: (usize, usize)|
                        #[trigger] r@.contains(e) <==> ((e.0 < i && adj[e.0 as int].contains(e.1)) || (
                        e.0 == i && nbrs@.take(j + 1).contains(e.1))) by {
                        assert(r@.contains(e) <==> (r_old.contains(e) || e == x));
                        assert(nbrs@.take(j + 1).contains(e.1) <==> (nbrs@.take(j as int).contains(e.1)
                            || e.1 == nbrs@[j as int]));
                    }
                }
                j = j + 1;
            }
            proof {
                assert(nbrs@.take(nbrs@.len() as int) =~= nbrs@);
                assert forall|y: usize| nbrs@.contains(y) <==> adj[i as int].contains(y) by {
                    assert(nbrs@.to_set().contains(y) == nbrs@.contains(y));
                }
            }
            i = i + 1;
        }
        assert(r@.to_set() =~= edge_pairs(adj));
        r
    }

    /// Every pair `(a, b)` with `b` a neighbour of `a` and `a < b`, each once.
    pub fn get_directed_edges(&self) -> (r: Vec<(usize, usize)>)
        ensures
            r@.no_duplicates(),
            r@.to_set() == edge_pairs(self@).filter(|e: (usize, usize)| e.0 < e.1),
    {
        let all = self.get_edges();
        let mut r: Vec<(usize, usize)> = Vec::new();
        let mut k: usize = 0;
        while k < all.len()
            invariant
                k <= all@.len(),
                all@.no_duplicates(),
                r@.no_duplicates(),
                forall|e: (usize, usize)|
                    #[trigger] r@.contains(e) <==> (all@.take(k as int).contains(e) && e.0 < e.1),
            decreases all.len() - k,
        {
            let e = all[k];
            proof {
                lemma_take_one_more(all@, k as int);
                assert(!all@.take(k as int).contains(e)) by {
                    if all@.take(k as int).contains(e) {
                        let t = choose|t: int| 0 <= t < k && all@.take(k as int)[t] == e;
                        assert(all@[t] == all@[k as int]);
                    }
                }
            }
            let ghost r_old = r@;
            if e.0 < e.1 {
                proof {
                    lemma_push_fresh(r@, e);
                }
                r.push(e);
            }
            proof {
                assert forall|f: (usize, usize)|
                    #[trigger] r@.contains(f) <==> (all@.take(k + 1).contains(f) && f.0 < f.1) by {
                    assert(all@.take(k + 1).contains(f) <==> (all@.take(k as int).contains(f) || f == e));
                    if e.0 < e.1 {
                        assert(r@ == r_old.push(e));
                        lemma_push_fresh(r_old, e);
                        assert(r@.contains(f) <==> (r_old.contains(f) || f == e));
                    } else {
                        assert(r@ == r_old);
                    }
                }
            }
            k = k + 1;
        }
        proof {
            assert(all@.take(all@.len() as int) =~= all@);
            assert forall|e: (usize, usize)| r@.to_set().contains(e) <==> edge_pairs(self@).filter(
                |e: (usize, usize)| e.0 < e.1,
            ).contains(e) by {
                assert(all@.to_set().contains(e) == all@.contains(e));
            }
            assert(r@.to_set() =~= edge_pairs(self@).filter(|e: (usize, usize)| e.0 < e.1));
        }
        r
    }

    /// The number of edges, counting each undirected edge once: half the sum
    /// of the degrees.
    pub fn get_num_edges(&self) -> (m: usize)
        requires
            degree_sum(self@) <= usize::MAX,
        ensures
            m == degree_sum(self@) / 2,
    {
        let ghost adj = self@;
        let mut sum: usize = 0;
        let mut i: usize = 0;
        while i < self.data.len()
            invariant
                adj == self@,
                i <= adj.len(),
                sum == degree_sum(adj.take(i as int)),
                degree_sum(adj) <= usize::MAX,
            decreases self.data.len() - i,
        {
            proof {
                assert(adj.take(i + 1).drop_last() =~= adj.take(i as int));
                lemma_degree_sum_prefix(adj, i + 1);
            }
            sum = sum + self.data[i].len();
            i = i + 1;
        }
        assert(adj.take(adj.len() as int) =~= adj);
        sum / 2
    }

    /// Whether every edge is present in both directions.
    pub fn is_undirected(&self) -> (r: bool)
        requires
            in_range(self@),
        ensures
            r == is_symmetric(self@),
    {
        let edges = self.get_edges();
        let mut k: usize = 0;
        while k < edges.len()
            invariant
                in_range(self@),
                k <= edges@.len(),
                edges@.to_set() == edge_pairs(self@),
                forall|t: int| 0 <= t < k ==> self@[(#[trigger] edges@[t]).1 as int].contains(edges@[t].0),
            decreases edges.len() - k,
        {
            let (u, v) = edges[k];
            assert(edges@.to_set().contains(edges@[k as int]));
            if !self.has_edge(v, u) {
                assert(!is_symmetric(self@)) by {
                    assert(self@[u as int].contains(v));
                }
                return false;
            }
            k = k + 1;
        }
        let n = self.data.len();
        assert forall|u: int, v: usize| 0 <= u < self@.len() && #[trigger] self@[u].contains(v) implies v
            < self@.len() && self@[v as int].contains(u as usize) by {
            assert(u < n);
            assert(edge_pairs(self@).contains((u as usize, v)));
            assert(edges@.to_set().contains((u as usize, v)));
            let t = choose|t: int| 0 <= t < edges@.len() && edges@[t] == (u as usize, v);
        }
        true
    }
}

/// Adjacency with every edge turned around: `u` is a neighbour of `v` when `v`
/// was a neighbour of `u`.
pub open spec fn inverted(adj: Seq<Set<usize>>) -> Seq<Set<usize>> {
    Seq::new(
        adj.len(),
        |v: int| Set::new(|u: usize| u < adj.len() && adj[u as int].contains(v as usize)),
    )
}

/// Adjacency with the reverse of every edge added.
pub open spec fn symmetrized(adj: Seq<Set<usize>>) -> Seq<Set<usize>> {
    Seq::new(adj.len(), |v: int| adj[v].union(inverted(adj)[v]))
}

/// Adjacency with the edges at `u` taken away: `u` loses all neighbours, and
/// every former neighbour of `u` loses `u`.
pub open spec fn cleared(adj: Seq<Set<usize>>, u: usize) -> Seq<Set<usize>> {
    Seq::new(
        adj.len(),
        |x: int|
            if x == u {
                Set::<usize>::empty()
            } else if adj[u as int].contains(x as usize) {
                adj[x].remove(u)
            } else {
                adj[x]
            },
    )
}

impl Graph {
    /// Turns every edge around.
    pub fn invert(&mut self)
        requires
            in_range(old(self)@),
        ensures
            final(self)@ == inverted(old(self)@),
    {
        let ghost adj = self@;
        let n = self.data.len();
        let mut g = Graph::with_node_count(n);
        let mut u: usize = 0;
        while u < n
            invariant
                adj == self@,
                n == adj.len(),
                in_range(adj),
                u <= n,
                g@.len() == n,
                forall|v: usize, x: usize|
                    v < n ==> (#[trigger] g@[v as int].contains(x) <==> (x < u && adj[x as int].contains(v))),
            decreases n - u,
        {
            let nbrs = self.data[u].to_vec();
            let mut j: usize = 0;
            while j < nbrs.len()
                invariant
                    adj == self@,
                    n == adj.len(),
                    in_range(adj),
                    u < n,
                    j <= nbrs@.len(),
                    nbrs@.to_set() == adj[u as int],
                    g@.len() == n,
                    forall|v: usize, x: usize|
                        v < n ==> (#[trigger] g@[v as int].contains(x) <==> ((x < u && adj[x as int].contains(v))
                            || (x == u && nbrs@.take(j as int).contains(v)))),
                decreases nbrs.len() - j,
            {
                let v = nbrs[j];
                assert(nbrs@.to_set().contains(v));
                let ghost g0 = g@;
                g.add_directed_edge(v, u);
                proof {
                    lemma_take_one_more(nbrs@, j as int);
                    assert forall|w: usize, x: usize| w < n implies (#[trigger] g@[w as int].contains(x) <==> ((
                    x < u && adj[x as int].contains(w)) || (x == u && nbrs@.take(j + 1).contains(w)))) by {
                        if w == v {
                            assert(g@[w as int] == g0[w as int].insert(u));
                        } else {
                            assert(g@[w as int] == g0[w as int]);
                        }
                    }
                }
                j = j + 1;
            }
            proof {
                assert(nbrs@.take(nbrs@.len() as int) =~= nbrs@);
                assert forall|v: usize, x: usize| v < n implies (#[trigger] g@[v as int].contains(x) <==> (x < u
                    + 1 && adj[x as int].contains(v))) by {
                    assert(nbrs@.contains(v) == nbrs@.to_set().contains(v));
                }
            }
            u = u + 1;
        }
        self.data = g.data;
        proof {
            assert forall|v: int| 0 <= v < n implies #[trigger] self@[v] =~= inverted(adj)[v] by {
                assert(self@[v] == g@[(v as usize) as int]);
            }
            assert(self@ =~= inverted(adj));
        }
    }

    /// Adds the reverse of every edge.
    pub fn make_undirected(&mut self)
        requires
            in_range(old(self)@),
        ensures
            final(self)@ == symmetrized(old(self)@),
    {
        let ghost adj = self@;
        let n = self.data.len();
        let edges = self.get_edges();
        let mut k: usize = 0;
        while k < edges.len()
            invariant
                n == adj.len(),
                in_range(adj),
                self@.len() == n,
                k <= edges@.len(),
                edges@.to_set() == edge_pairs(adj),
                forall|v: usize, x: usize|
                    v < n ==> (#[trigger] self@[v as int].contains(x) <==> (adj[v as int].contains(x) || (
                    exists|t: int| 0 <= t < k && edges@[t] == (x, v)))),
            decreases edges.len() - k,
        {
            let (u, v) = edges[k];
            assert(edges@.to_set().contains(edges@[k as int]));
            let ghost s0 = self@;
            self.add_directed_edge(v, u);
            proof {
                assert forall|w: usize, x: usize| w < n implies (#[trigger] self@[w as int].contains(x) <==> (
                adj[w as int].contains(x) || (exists|t: int| 0 <= t < k + 1 && edges@[t] == (x, w)))) by {
                    if exists|t: int| 0 <= t < k + 1 && edges@[t] == (x, w) {
                        let t = choose|t: int| 0 <= t < k + 1 && edges@[t] == (x, w);
                        if t < k {
                            assert(s0[w as int].contains(x));
                        }
                    }
                    if w == v {
                        assert(self@[w as int] == s0[w as int].insert(u));
                        if x == u {
                            assert(edges@[k as int] == (x, w));
                        }
                    } else {
                        assert(self@[w as int] == s0[w as int]);
                    }
                }
            }
            k = k + 1;
        }
        proof {
            assert forall|v: int| 0 <= v < n implies #[trigger] self@[v] =~= symmetrized(adj)[v] by {
                assert forall|x: usize| self@[v].contains(x) <==> symmetrized(adj)[v].contains(x) by {
                    let vu = v as usize;
                    assert(self@[vu as int].contains(x) <==> (adj[vu as int].contains(x) || (exists|t: int|
                        0 <= t < edges@.len() && edges@[t] == (x, vu))));
                    if exists|t: int| 0 <= t < edges@.len() && edges@[t] == (x, vu) {
                        let t = choose|t: int| 0 <= t < edges@.len() && edges@[t] == (x, vu);
                        assert(edges@.to_set().contains(edges@[t]));
                    }
                    if inverted(adj)[v].contains(x) {
                        assert(edge_pairs(adj).contains((x, vu)));
                        assert(edges@.to_set().contains((x, vu)));
                        let t = choose|t: int| 0 <= t < edges@.len() && edges@[t] == (x, vu);
                    }
                }
            }
            assert(self@ =~= symmetrized(adj));
        }
    }

    /// Removes every edge at `u`: `u` loses its neighbours, and each of them
    /// loses `u`.
    pub fn clear_vertex_edges(&mut self, u: usize)
        requires
            in_range(old(self)@),
            u < old(self)@.len(),
        ensures
            final(self)@ == cleared(old(self)@, u),
    {
        let ghost adj = self@;
        let n = self.data.len();
        let nbrs = self.data[u].to_vec();
        let mut j: usize = 0;
        while j < nbrs.len()
            invariant
                n == adj.len(),
                in_range(adj),
                u < n,
                self@.len() == n,
                nbrs@.to_set() == adj[u as int],
                nbrs@.no_duplicates(),
                j <= nbrs@.len(),
                forall|x: usize|
                    x < n ==> #[trigger] self@[x as int] == (if nbrs@.take(j as int).contains(x) {
                        adj[x as int].remove(u)
                    } else {
                        adj[x as int]
                    }),
            decreases nbrs.len() - j,
        {
            let v = nbrs[j];
            assert(nbrs@.to_set().contains(v));
            let ghost s0 = self@;
            self.data[v].remove(u);
            proof {
                lemma_take_one_more(nbrs@, j as int);
                assert(!nbrs@.take(j as int).contains(v)) by {
                    if nbrs@.take(j as int).contains(v) {
                        let t = choose|t: int| 0 <= t < j && nbrs@.take(j as int)[t] == v;
                        assert(nbrs@[t] == nbrs@[j as int]);
                    }
                }
                assert forall|x: usize| x < n implies #[trigger] self@[x as int] == (if nbrs@.take(j + 1).contains(
                    x,
                ) {
                    adj[x as int].remove(u)
                } else {
                    adj[x as int]
                }) by {
                    if x == v {
                        assert(self@[x as int] == s0[x as int].remove(u));
                    } else {
                        assert(self@[x as int] == s0[x as int]);
                    }
                }
            }
            j = j + 1;
        }
        let ghost s1 = self@;
        self.data[u].clear();
        proof {
            assert(nbrs@.take(nbrs@.len() as int) =~= nbrs@);
            assert forall|x: int| 0 <= x < n implies #[trigger] self@[x] =~= cleared(adj, u)[x] by {
                let xu = x as usize;
                if x != u {
                    assert(self@[x] == s1[x]);
                    assert(nbrs@.contains(xu) == nbrs@.to_set().contains(xu));
                }
            }
            assert(self@ =~= cleared(adj, u));
        }
    }

    /// A node drawn at random.
    pub fn get_random_node(&self) -> (r: usize)
        requires
            self@.len() > 0,
        ensures
            r < self@.len(),
    {
        crate::random::random_below(self.data.len())
    }

    /// A neighbour of `u` drawn at random, or `None` when `u` has none.
    pub fn get_random_neighbor(&self, u: usize) -> (r: Option<usize>)
        requires
            u < self@.len(),
        ensures
            r is None ==> self@[u as int] == Set::<usize>::empty(),
            r matches Some(v) ==> self@[u as int].contains(v),
    {
        self.data[u].choose_random()
    }

    /// A random edge `(u, v)`: `u` drawn at random among the nodes that have
    /// neighbours (as drawing nodes until one has a neighbour would), `v` a
    /// neighbour of `u` drawn at random. The graph must have an edge.
    pub fn get_random_edge(&mut self) -> (r: (usize, usize))
        requires
            exists|u: int| 0 <= u < old(self)@.len() && #[trigger] old(self)@[u] != Set::<usize>::empty(),
        ensures
            final(self)@ == old(self)@,
            r.0 < old(self)@.len(),
            old(self)@[r.0 as int].contains(r.1),
    {
        let mut candidates: Vec<usize> = Vec::new();
        let mut u: usize = 0;
        let ghost w = choose|u: int| 0 <= u < self@.len() && #[trigger] self@[u] != Set::<usize>::empty();
        while u < self.data.len()
            invariant
                u <= self@.len(),
                forall|t: int| 0 <= t < candidates@.len() ==> #[trigger] candidates@[t] < self@.len()
                    && self@[candidates@[t] as int] != Set::<usize>::empty(),
                0 <= w < self@.len(),
                self@[w] != Set::<usize>::empty(),
                w < u ==> candidates@.len() > 0,
            decreases self@.len() - u,
        {
            if self.data[u].len() > 0 {
                candidates.push(u);
            } else {
                proof {
                    assert(self@[u as int] == self.data@[u as int]@);
                }
            }
            u = u + 1;
        }
        let picked = crate::random::choose_from(&candidates);
        let node = picked.unwrap();
        proof {
            let t = choose|t: int| 0 <= t < candidates@.len() && candidates@[t] == node;
            assert(candidates@[t] < self@.len());
        }
        let v = self.get_random_neighbor(node).unwrap();
        (node, v)
    }

    /// Takes a random edge out of the graph (see [`Graph::get_random_edge`])
    /// and returns it.
    pub fn remove_random_edge(&mut self) -> (r: (usize, usize))
        requires
            in_range(old(self)@),
            exists|u: int| 0 <= u < old(self)@.len() && #[trigger] old(self)@[u] != Set::<usize>::empty(),
        ensures
            r.0 < old(self)@.len(),
            old(self)@[r.0 as int].contains(r.1),
            final(self)@ == without_edge(old(self)@, r.0, r.1),
    {
        let (u, v) = self.get_random_edge();
        self.remove_edge(u, v);
        (u, v)
    }

    /// The neighbour set of `u`, to change in place.
    pub fn get_neighbors_mut(&mut self, u: usize) -> (r: &mut NodeSet)
        requires
            u < old(self)@.len(),
        ensures
            r@ == old(self)@[u as int],
            final(self).data@ == old(self).data@.update(u as int, *final(r)),
    {
        &mut self.data[u]
    }

    /// Adds the edge `u - v` unless it is a loop or already present; tells
    /// whether it was added.
    pub fn try_add_edge(&mut self, u: usize, v: usize) -> (added: bool)
        requires
            u < old(self)@.len(),
            v < old(self)@.len(),
        ensures
            added == (u != v && !old(self)@[u as int].contains(v)),
            added ==> final(self)@ == with_edge(old(self)@, u, v),
            !added ==> final(self)@ == old(self)@,
    {
        if u != v && !self.has_edge(u, v) {
            self.add_edge(u, v);
            true
        } else {
            false
        }
    }

    /// Keeps all but `num_edges` of the edges `(a, b)` with `a < b`, chosen at
    /// random, and rebuilds the graph from the kept pairs as `from_edge_list`
    /// does (so the node count becomes the largest kept id plus one).
    pub fn remove_random_edges(&mut self, num_edges: usize)
        requires
            in_range(old(self)@),
            num_edges <= edge_pairs(old(self)@).filter(|e: (usize, usize)| e.0 < e.1).len(),
        ensures
            exists|kept: Seq<(usize, usize)>|
                {
                    &&& kept.no_duplicates()
                    &&& kept.len() == edge_pairs(old(self)@).filter(|e: (usize, usize)| e.0 < e.1).len()
                        - num_edges
                    &&& kept.to_set().subset_of(
                        edge_pairs(old(self)@).filter(|e: (usize, usize)| e.0 < e.1),
                    )
                    &&& final(self)@ == edge_list_graph(kept)
                },
    {
        let ghost adj = self@;
        let ghost dir = edge_pairs(adj).filter(|e: (usize, usize)| e.0 < e.1);
        let n = self.data.len();
        let mut edges = self.get_directed_edges();
        proof {
            edges@.unique_seq_to_set();
        }
        let ghost before = edges@;
        crate::random::shuffle_pairs(&mut edges);
        proof {
            before.lemma_multiset_has_no_duplicates();
            before.to_multiset_ensures();
            edges@.to_multiset_ensures();
            assert forall|x: (usize, usize)| edges@.to_multiset().contains(x) implies edges@.to_multiset().count(
                x,
            ) == 1 by {
                assert(before.to_multiset().contains(x));
            }
            edges@.lemma_multiset_has_no_duplicates_conv();
            assert forall|x: (usize, usize)| edges@.contains(x) implies before.contains(x) by {
                assert(edges@.to_multiset().count(x) > 0);
            }
        }
        let ghost shuffled = edges@;
        let keep = edges.len() - num_edges;
        edges.truncate(keep);
        proof {
            let kept = edges@;
            assert(kept.no_duplicates());
            assert forall|x: (usize, usize)| kept.to_set().contains(x) implies dir.contains(x) by {
                let t = choose|t: int| 0 <= t < kept.len() && kept[t] == x;
                assert(shuffled[t] == x);
                assert(shuffled.contains(x));
                assert(before.contains(x));
                assert(before.to_set().contains(x));
            }
            assert forall|t: int| 0 <= t < kept.len() implies (#[trigger] kept[t]).0 < n && kept[t].1 < n by {
                assert(kept.to_set().contains(kept[t]));
                assert(dir.contains(kept[t]));
            }
            lemma_max_endpoint(kept);
            lemma_max_endpoint_below(kept, n);
            assert(max_endpoint(kept) < usize::MAX);
        }
        let g = Graph::from_edge_list(edges);
        self.data = g.data;
    }
}

/// The largest id a list names is below any bound of all its ids.
pub proof fn lemma_max_endpoint_below(e: Seq<(usize, usize)>, n: usize)
    requires
        forall|t: int| 0 <= t < e.len() ==> (#[trigger] e[t]).0 < n && e[t].1 < n,
    ensures
        e.len() == 0 || max_endpoint(e) < n,
    decreases e.len(),
{
    if e.len() > 0 {
        assert(e[0].0 < n);
        assert forall|t: int| 0 <= t < e.drop_last().len() implies (#[trigger] e.drop_last()[t]).0 < n
            && e.drop_last()[t].1 < n by {
            assert(e.drop_last()[t] == e[t]);
        }
        lemma_max_endpoint_below(e.drop_last(), n);
        if e.drop_last().len() == 0 {
            assert(max_endpoint(e.drop_last()) == 0);
        }
        assert(e.last() == e[e.len() - 1]);
    }
}

/// `xadj`, `adjncy` is the adjacency array of `adj`, entries cast to `i32`:
/// the neighbours of `i` sit at positions `xadj[i]..xadj[i + 1]` of `adjncy`,
/// each once, and `xadj[i]` is the degree sum of the nodes before `i`.
pub open spec fn is_adjacency_array(adj: Seq<Set<usize>>, xadj: Seq<i32>, adjncy: Seq<i32>) -> bool {
    &&& xadj.len() == adj.len() + 1
    &&& adjncy.len() == degree_sum(adj)
    &&& forall|i: int| 0 <= i <= adj.len() ==> #[trigger] xadj[i] == degree_sum(adj.take(i)) as i32
    &&& forall|i: int|
        0 <= i < adj.len() ==> exists|nb: Seq<usize>|
            {
                &&& nb.no_duplicates()
                &&& nb.to_set() == #[trigger] adj[i]
                &&& nb.len() == adj[i].len()
                &&& forall|t: int| 0 <= t < nb.len() ==> adjncy[degree_sum(adj.take(i)) + t] == nb[t] as i32
            }
}

impl Graph {
    /// The adjacency array of the graph (the node ids and offsets cast to
    /// `i32`), as the graph partitioner takes it.
    pub fn get_adjacency_array(&self) -> (r: (Vec<i32>, Vec<i32>))
        requires
            self@.len() < usize::MAX,
        ensures
            is_adjacency_array(self@, r.0@, r.1@),
    {
        let ghost adj = self@;
        let n = self.data.len();
        let mut xadj: Vec<i32> = Vec::new();
        let mut adjncy: Vec<i32> = Vec::new();
        let mut i: usize = 0;
        while i < n
            invariant
                adj == self@,
                n == adj.len(),
                i <= n,
                xadj@.len() == i,
                adjncy@.len() == degree_sum(adj.take(i as int)),
                forall|k: int| 0 <= k < i ==> #[trigger] xadj@[k] == degree_sum(adj.take(k)) as i32,
                forall|k: int|
                    0 <= k < i ==> exists|nb: Seq<usize>|
                        {
                            &&& nb.no_duplicates()
                            &&& nb.to_set() == #[trigger] adj[k]
                            &&& nb.len() == adj[k].len()
                            &&& forall|t: int|
                                0 <= t < nb.len() ==> adjncy@[degree_sum(adj.take(k)) + t] == nb[t] as i32
                        },
            decreases n - i,
        {
            xadj.push(adjncy.len() as i32);
            let nbrs = self.data[i].to_vec();
            let ghost a0 = adjncy@;
            proof {
                nbrs@.unique_seq_to_set();
            }
            let mut j: usize = 0;
            while j < nbrs.len()
                invariant
                    j <= nbrs@.len(),
                    adjncy@.len() == a0.len() + j,
                    forall|t: int| 0 <= t < a0.len() ==> adjncy@[t] == a0[t],
                    forall|t: int| 0 <= t < j ==> adjncy@[a0.len() + t] == nbrs@[t] as i32,
                decreases nbrs.len() - j,
            {
                adjncy.push(nbrs[j] as i32);
                j = j + 1;
            }
            proof {
                assert(adj.take(i + 1).drop_last() =~= adj.take(i as int));
                assert(adj[i as int] == self.data@[i as int]@);
                assert forall|k: int|
                    0 <= k < i + 1 implies exists|nb: Seq<usize>|
                        {
                            &&& nb.no_duplicates()
                            &&& nb.to_set() == #[trigger] adj[k]
                            &&& nb.len() == adj[k].len()
                            &&& forall|t: int|
                                0 <= t < nb.len() ==> adjncy@[degree_sum(adj.take(k)) + t] == nb[t] as i32
                        } by {
                    if k < i {
                        let nb = choose|nb: Seq<usize>|
                            {
                                &&& nb.no_duplicates()
                                &&& nb.to_set() == #[trigger] adj[k]
                                &&& nb.len() == adj[k].len()
                                &&& forall|t: int|
                                    0 <= t < nb.len() ==> a0[degree_sum(adj.take(k)) + t] == nb[t] as i32
                            };
                        lemma_degree_sum_prefix(adj.take(i as int), k);
                        assert(adj.take(i as int).take(k) =~= adj.take(k));
                        lemma_degree_sum_prefix(adj.take(k + 1), k);
                        assert(adj.take(k + 1).take(k) =~= adj.take(k));
                        assert(adj.take(k + 1).drop_last() =~= adj.take(k));
                        lemma_degree_sum_prefix(adj.take(i as int), k + 1);
                        assert(adj.take(i as int).take(k + 1) =~= adj.take(k + 1));
                    } else {
                        assert(nbrs@.to_set() == adj[k]);
                    }
                }
            }
            i = i + 1;
        }
        xadj.push(adjncy.len() as i32);
        proof {
            assert(adj.take(n as int) =~= adj);
        }
        (xadj, adjncy)
    }
}

} // verus!

verus! {

/// A graph built from an edge list is undirected and names only its nodes:
/// every pair is an edge both ways.
pub proof fn lemma_edge_list_graph_undirected(e: Seq<(usize, usize)>)
    requires
        max_endpoint(e) < usize::MAX,
    ensures
        is_symmetric(edge_list_graph(e)),
        in_range(edge_list_graph(e)),
{
    let g = edge_list_graph(e);
    lemma_max_endpoint(e);
    assert forall|u: int, v: usize| 0 <= u < g.len() && #[trigger] g[u].contains(v) implies v < g.len() && g[v as int].contains(
        u as usize,
    ) by {
        let k = choose|k: int|
            0 <= k < e.len() && ((e[k].0 == u && e[k].1 == v) || (e[k].1 == u && e[k].0 == v));
        assert(e[k].0 <= max_endpoint(e) && e[k].1 <= max_endpoint(e));
    }
}

/// Taking an edge out undoes putting it in: on an undirected graph without
/// the edge `i - j`, adding it and removing it again gives the graph back.
pub proof fn lemma_remove_undoes_add(adj: Seq<Set<usize>>, i: usize, j: usize)
    requires
        i < adj.len(),
        j < adj.len(),
        is_symmetric(adj),
        !adj[i as int].contains(j),
    ensures
        without_edge(with_edge(adj, i, j), i, j) == adj,
{
    let r = without_edge(with_edge(adj, i, j), i, j);
    assert(!adj[j as int].contains(i));
    assert forall|x: int| 0 <= x < adj.len() implies #[trigger] r[x] =~= adj[x] by {}
    assert(r =~= adj);
}

/// Reversing every edge twice gives the graph back.
pub proof fn lemma_invert_twice(adj: Seq<Set<usize>>)
    requires
        in_range(adj),
        adj.len() <= usize::MAX,
    ensures
        inverted(inverted(adj)) == adj,
{
    let r = inverted(inverted(adj));
    assert forall|x: int| 0 <= x < adj.len() implies #[trigger] r[x] =~= adj[x] by {
        assert forall|y: usize| r[x].contains(y) <==> adj[x].contains(y) by {
            if adj[x].contains(y) {
                assert(y < adj.len());
                assert(inverted(adj)[y as int].contains(x as usize));
            }
        }
    }
    assert(r =~= adj);
}

/// Adding the reverse edges makes the graph undirected, and doing it again
/// changes nothing.
pub proof fn lemma_symmetrized_undirected(adj: Seq<Set<usize>>)
    requires
        in_range(adj),
        adj.len() <= usize::MAX,
    ensures
        is_symmetric(symmetrized(adj)),
        symmetrized(symmetrized(adj)) == symmetrized(adj),
{
    let s = symmetrized(adj);
    assert forall|u: int, v: usize| 0 <= u < s.len() && #[trigger] s[u].contains(v) implies v < s.len() && s[v as int].contains(
        u as usize,
    ) by {
        if adj[u].contains(v) {
            assert(inverted(adj)[v as int].contains(u as usize));
        }
    }
    let t = symmetrized(s);
    assert forall|x: int| 0 <= x < s.len() implies #[trigger] t[x] =~= s[x] by {
        assert forall|y: usize| t[x].contains(y) implies s[x].contains(y) by {
            if inverted(s)[x].contains(y) {
                assert(s[y as int].contains(x as usize));
            }
        }
    }
    assert(t =~= s);
}

} // verus!
