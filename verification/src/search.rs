//! Breadth-first search and the hop distances built on it.
use crate::collections::{usize_map_contents, NodeSet, UsizeMap};
use crate::graph::{
    degree_sum, is_adjacency_array, lemma_degree_sum_prefix,
    reachable, is_hop_distance,
    has_walk, in_range, is_bfs_result, is_walk, lemma_certificate_gives_bfs_result, lemma_distinct_below,
    walk_step, Graph,
};
use crate::random::random_below;
use crate::reach::{lemma_closed_set_holds_reachable, lemma_reach_self, lemma_reach_step, lemma_walk_extend};
use std::collections::VecDeque;
use vstd::prelude::*;

verus! {

/// A vector of `n` copies of `x`.
pub fn filled(n: usize, x: usize) -> (v: Vec<usize>)
    ensures
        v@ == Seq::new(n as nat, |i: int| x),
{
    let mut v: Vec<usize> = Vec::new();
    let mut k: usize = 0;
    while k < n
        invariant
            k <= n,
            v@ == Seq::new(k as nat, |i: int| x),
        decreases n - k,
    {
        v.push(x);
        k = k + 1;
    }
    v
}

/// What the search loop keeps: the queue `q` holds the discovered nodes in the
/// order found, with non-decreasing distances; nodes before `head` have had all
/// their neighbours discovered.
pub open spec fn bfs_invariant(
    adj: Seq<Set<usize>>,
    start: usize,
    dist: Seq<usize>,
    q: Seq<usize>,
    head: int,
) -> bool {
    &&& in_range(adj)
    &&& start < adj.len()
    &&& dist.len() == adj.len()
    &&& 0 <= head <= q.len() <= adj.len()
    &&& q.len() > 0
    &&& q[0] == start
    &&& q.no_duplicates()
    &&& forall|k: int| 0 <= k < q.len() ==> #[trigger] q[k] < adj.len()
    &&& forall|v: usize| v < adj.len() ==> (#[trigger] dist[v as int] != usize::MAX <==> q.contains(v))
    &&& forall|i: int, j: int|
        0 <= i <= j < q.len() ==> #[trigger] dist[q[i] as int] <= #[trigger] dist[q[j] as int]
    &&& head < q.len() ==> forall|k: int|
        0 <= k < q.len() ==> #[trigger] dist[q[k] as int] <= dist[q[head] as int] + 1
    &&& forall|k: int| 0 <= k < q.len() ==> #[trigger] dist[q[k] as int] <= k
    &&& dist[start as int] == 0
    &&& forall|k: int, v: usize|
        0 <= k < head && #[trigger] adj[q[k] as int].contains(v) ==> dist[v as int] != usize::MAX
            && dist[v as int] <= dist[q[k] as int] + 1
    &&& forall|v: usize|
        v < adj.len() && #[trigger] dist[v as int] != usize::MAX ==> has_walk(
            adj,
            start,
            v,
            dist[v as int] as nat,
        )
}

impl Graph {
    /// The number of nodes.
    pub fn get_num_nodes(&self) -> (n: usize)
        ensures
            n == self@.len(),
    {
        self.data.len()
    }

    /// Discovers the neighbours `nbrs` of the node at position `head` of the
    /// queue: each one not seen before gets the distance of that node plus one
    /// and joins the queue.
    fn visit_neighbors(
        &self,
        start: usize,
        dist: &mut Vec<usize>,
        queue: &mut Vec<usize>,
        head: usize,
        nbrs: &Vec<usize>,
    )
        requires
            bfs_invariant(self@, start, old(dist)@, old(queue)@, head as int),
            head < old(queue)@.len(),
            nbrs@.to_set() == self@[old(queue)@[head as int] as int],
            nbrs@.no_duplicates(),
        ensures
            bfs_invariant(self@, start, final(dist)@, final(queue)@, head + 1),
    {
        let ghost adj = self@;
        let n = self.data.len();
        let u = queue[head];
        let du = dist[u];
        let mut j: usize = 0;
        while j < nbrs.len()
            invariant
                adj == self@,
                n == adj.len(),
                head < queue@.len(),
                u == queue@[head as int],
                du == dist@[u as int],
                nbrs@.to_set() == adj[u as int],
                j <= nbrs@.len(),
                bfs_invariant(adj, start, dist@, queue@, head as int),
                forall|t: int|
                    0 <= t < j ==> dist@[#[trigger] nbrs@[t] as int] != usize::MAX && dist@[nbrs@[t] as int]
                        <= du + 1,
            decreases nbrs.len() - j,
        {
            let v = nbrs[j];
            let ghost d_before = dist@;
            assert(adj[u as int].contains(v)) by {
                assert(nbrs@.to_set().contains(v));
            }
            if dist[v] == usize::MAX {
                let ghost q0 = queue@;
                let ghost d0 = dist@;
                proof {
                    assert(!q0.contains(v));
                    let q1 = q0.push(v);
                    assert(q1.no_duplicates()) by {
                        assert forall|a: int, b: int|
                            0 <= a < q1.len() && 0 <= b < q1.len() && a != b implies q1[a]
                            != q1[b] by {
                            if a < q0.len() && b < q0.len() {
                                assert(q1[a] == q0[a] && q1[b] == q0[b]);
                            } else if a == q0.len() {
                                assert(q1[b] == q0[b]);
                                assert(q0.contains(q0[b]));
                            } else {
                                assert(q1[a] == q0[a]);
                                assert(q0.contains(q0[a]));
                            }
                        }
                    }
                    assert forall|k: int| 0 <= k < q1.len() implies #[trigger] q1[k] < n by {
                        if k < q0.len() { assert(q1[k] == q0[k]); }
                    }
                    lemma_distinct_below(q1, n);
                    assert(du <= head);
                }
                dist.set(v, du + 1);
                queue.push(v);
                proof {
                    let q1 = queue@;
                    let d1 = dist@;
                    assert(q1 == q0.push(v));
                    assert(d1 == d0.update(v as int, (du + 1) as usize));
                    // a walk to u, extended by the edge u - v
                    let p = choose|p: Seq<usize>|
                        #[trigger] is_walk(adj, p) && p.len() == du + 1 && p[0] == start && p[p.len()
                            - 1] == u;
                    let p2 = p.push(v);
                    assert(is_walk(adj, p2)) by {
                        assert forall|k: int| 0 <= k < p2.len() implies #[trigger] p2[k] < adj.len() by {
                            if k < p.len() { assert(p2[k] == p[k]); }
                        }
                        assert forall|k: int| 0 <= k < p2.len() - 1 implies #[trigger] walk_step(adj, p2, k) by {
                            if k < p.len() - 1 {
                                assert(walk_step(adj, p, k));
                            } else {
                                assert(p2[k] == u);
                            }
                        }
                    }
                    assert(has_walk(adj, start, v, (du + 1) as nat));
                    assert forall|w: usize| w < adj.len() implies (#[trigger] d1[w as int] != usize::MAX
                        <==> q1.contains(w)) by {
                        if w == v {
                            assert(q1[q0.len() as int] == v);
                        } else {
                            if q0.contains(w) {
                                let k = choose|k: int| 0 <= k < q0.len() && q0[k] == w;
                                assert(q1[k] == w);
                            }
                            if q1.contains(w) {
                                let k = choose|k: int| 0 <= k < q1.len() && q1[k] == w;
                                assert(k < q0.len());
                                assert(q0[k] == w);
                            }
                        }
                    }
                    assert forall|a: int, b: int| 0 <= a <= b < q1.len() implies #[trigger] d1[q1[a] as int]
                        <= #[trigger] d1[q1[b] as int] by {
                        if b < q0.len() {
                            assert(q1[a] == q0[a] && q1[b] == q0[b]);
                            assert(d0[q0[a] as int] <= d0[q0[b] as int]);
                            assert(q0[a] != v && q0[b] != v);
                        } else if a < q0.len() {
                            assert(q1[a] == q0[a]);
                            assert(d0[q0[a] as int] <= d0[q0[head as int] as int] + 1);
                            assert(q0[a] != v);
                        }
                    }
                    assert forall|k: int| 0 <= k < q1.len() implies #[trigger] d1[q1[k] as int] <= d1[q1[head as int] as int]
                        + 1 by {
                        assert(q1[head as int] == u);
                        if k < q0.len() {
                            assert(q1[k] == q0[k]);
                            assert(d0[q0[k] as int] <= d0[q0[head as int] as int] + 1);
                            assert(q0[k] != v);
                        }
                    }
                    assert forall|k: int| 0 <= k < q1.len() implies #[trigger] d1[q1[k] as int] <= k by {
                        if k < q0.len() {
                            assert(q1[k] == q0[k]);
                            assert(q0[k] != v);
                        }
                    }
                    assert forall|k: int, w: usize|
                        0 <= k < head && #[trigger] adj[q1[k] as int].contains(w) implies d1[w as int]
                        != usize::MAX && d1[w as int] <= d1[q1[k] as int] + 1 by {
                        assert(q1[k] == q0[k]);
                        assert(adj[q0[k] as int].contains(w));
                        assert(q0[k] != v);
                    }
                    assert forall|w: usize|
                        w < adj.len() && #[trigger] d1[w as int] != usize::MAX implies has_walk(
                        adj,
                        start,
                        w,
                        d1[w as int] as nat,
                    ) by {
                        if w != v {
                            assert(d0[w as int] != usize::MAX);
                        }
                    }
                    assert(bfs_invariant(adj, start, dist@, queue@, head as int));
                }
            }
            proof {
                let d = dist@;
                let q = queue@;
                assert(d[v as int] != usize::MAX);
                assert(q.contains(v));
                let k = choose|k: int| 0 <= k < q.len() && q[k] == v;
                assert(d[q[k] as int] <= d[q[head as int] as int] + 1);
                assert(d == d_before || (d_before[v as int] == usize::MAX && d == d_before.update(
                    v as int,
                    (du + 1) as usize,
                )));
                assert forall|t: int| 0 <= t < j + 1 implies d[#[trigger] nbrs@[t] as int] != usize::MAX
                    && d[nbrs@[t] as int] <= du + 1 by {
                    if t < j {
                        assert(d_before[nbrs@[t] as int] != usize::MAX);
                        assert(d_before[nbrs@[t] as int] <= du + 1);
                        assert(nbrs@.to_set().contains(nbrs@[t]));
                        assert(adj[u as int].contains(nbrs@[t]));
                        if nbrs@[t] == v {
                            assert(d == d_before);
                        } else {
                            assert(d[nbrs@[t] as int] == d_before[nbrs@[t] as int]);
                        }
                    } else {
                        assert(nbrs@[t] == v);
                        assert(q[head as int] == u);
                        assert(d[u as int] == du);
                    }
                }
            }
            j = j + 1;
        }
        proof {
            let q = queue@;
            let d = dist@;
            assert forall|k: int, w: usize|
                0 <= k < head + 1 && #[trigger] adj[q[k] as int].contains(w) implies d[w as int]
                != usize::MAX && d[w as int] <= d[q[k] as int] + 1 by {
                if k == head {
                    assert(nbrs@.to_set().contains(w));
                    let t = choose|t: int| 0 <= t < nbrs@.len() && nbrs@[t] == w;
                    assert(d[nbrs@[t] as int] != usize::MAX);
                }
            }
            if head + 1 < q.len() {
                assert forall|k: int| 0 <= k < q.len() implies #[trigger] d[q[k] as int] <= d[q[head + 1] as int]
                    + 1 by {
                    assert(d[q[k] as int] <= d[q[head as int] as int] + 1);
                    assert(d[q[head as int] as int] <= d[q[head + 1] as int]);
                }
            }
        }
    }

    /// Hop distances from `start` to every node; `usize::MAX` marks the nodes
    /// that cannot be reached.
    pub fn bfs(&self, start: usize) -> (dist: Vec<usize>)
        requires
            in_range(self@),
            start < self@.len(),
        ensures
            is_bfs_result(self@, start, dist@),
    {
        let ghost adj = self@;
        let n = self.data.len();
        let mut dist = filled(n, usize::MAX);
        dist.set(start, 0);
        let mut queue: Vec<usize> = Vec::new();
        queue.push(start);
        let mut head: usize = 0;
        proof {
            assert(queue@ =~= seq![start]);
            assert forall|v: usize| v < adj.len() implies (#[trigger] dist@[v as int] != usize::MAX
                <==> queue@.contains(v)) by {
                if v == start {
                    assert(queue@[0] == start);
                }
            }
            assert forall|v: usize|
                v < adj.len() && #[trigger] dist@[v as int] != usize::MAX implies has_walk(
                adj,
                start,
                v,
                dist@[v as int] as nat,
            ) by {
                let p = seq![start];
                assert(is_walk(adj, p));
            }
        }
        while head < queue.len()
            invariant
                adj == self@,
                n == adj.len(),
                bfs_invariant(adj, start, dist@, queue@, head as int),
            decreases n - head,
        {
            let u = queue[head];
            let nbrs = self.data[u].to_vec();
            self.visit_neighbors(start, &mut dist, &mut queue, head, &nbrs);
            head = head + 1;
        }
        proof {
            let q = queue@;
            let d = dist@;
            assert forall|x: int, w: usize|
                0 <= x < d.len() && d[x] != usize::MAX && #[trigger] adj[x].contains(w) implies {
                &&& w < d.len()
                &&& d[w as int] != usize::MAX
                &&& d[w as int] <= d[x] + 1
            } by {
                assert(d[(x as usize) as int] != usize::MAX);
                assert(q.contains(x as usize));
                let k = choose|k: int| 0 <= k < q.len() && q[k] == x as usize;
                assert(adj[q[k] as int].contains(w));
            }
            lemma_certificate_gives_bfs_result(adj, start, d);
        }
        dist
    }
}

/// The entries of `d` other than `usize::MAX`, in order.
pub open spec fn finite_entries(d: Seq<usize>) -> Seq<usize>
    decreases d.len(),
{
    if d.len() == 0 {
        Seq::empty()
    } else {
        let rest = finite_entries(d.drop_last());
        if d.last() != usize::MAX {
            rest.push(d.last())
        } else {
            rest
        }
    }
}

/// `m` is the largest entry of `f`, and `i` the last position holding it.
pub open spec fn is_last_maximum(f: Seq<usize>, i: int, m: usize) -> bool {
    &&& 0 <= i < f.len()
    &&& f[i] == m
    &&& forall|k: int| 0 <= k < f.len() ==> #[trigger] f[k] <= m
    &&& forall|k: int| i < k < f.len() ==> #[trigger] f[k] < m
}

/// The finite entries are no more than the entries.
pub proof fn lemma_finite_entries_len(d: Seq<usize>)
    ensures
        finite_entries(d).len() <= d.len(),
    decreases d.len(),
{
    if d.len() > 0 {
        lemma_finite_entries_len(d.drop_last());
    }
}

impl Graph {
    /// Whether every node can be reached from node 0.
    pub fn is_connected(&self) -> (r: bool)
        requires
            in_range(self@),
            self@.len() > 0,
        ensures
            r == forall|v: usize| v < self@.len() ==> reachable(self@, 0, v),
    {
        let dist = self.bfs(0);
        let mut k: usize = 0;
        while k < dist.len()
            invariant
                is_bfs_result(self@, 0, dist@),
                k <= dist@.len(),
                forall|v: usize| v < k ==> reachable(self@, 0, v),
            decreases dist.len() - k,
        {
            if dist[k] == usize::MAX {
                return false;
            }
            k = k + 1;
        }
        true
    }

    /// The hop distance from `start` to `end`, or `usize::MAX` when `end`
    /// cannot be reached (or is no node).
    pub fn dijkstra(&self, start: usize, end: usize) -> (r: usize)
        requires
            in_range(self@),
            start < self@.len(),
        ensures
            end >= self@.len() ==> r == usize::MAX,
            end < self@.len() ==> (r == usize::MAX <==> !reachable(self@, start, end)),
            end < self@.len() && r != usize::MAX ==> is_hop_distance(self@, start, end, r as nat),
    {
        let dist = self.bfs(start);
        if end < dist.len() {
            dist[end]
        } else {
            usize::MAX
        }
    }

    /// The hop distance from `start` to each id of `ends` (`usize::MAX` where
    /// it cannot be reached), in the order in which the set hands its ids out.
    pub fn dijkstra_multi(&self, start: usize, ends: NodeSet) -> (r: Vec<usize>)
        requires
            in_range(self@),
            start < self@.len(),
        ensures
            exists|order: Seq<usize>|
                {
                    &&& order.no_duplicates()
                    &&& order.to_set() == ends@
                    &&& order.len() == r@.len()
                    &&& forall|k: int|
                        0 <= k < order.len() ==> {
                            &&& (order[k] >= self@.len() ==> #[trigger] r@[k] == usize::MAX)
                            &&& (order[k] < self@.len() ==> (r@[k] == usize::MAX <==> !reachable(
                                self@,
                                start,
                                order[k],
                            )))
                            &&& (order[k] < self@.len() && r@[k] != usize::MAX ==> is_hop_distance(
                                self@,
                                start,
                                order[k],
                                r@[k] as nat,
                            ))
                        }
                },
    {
        let order = ends.to_vec();
        let dist = self.bfs(start);
        let mut r: Vec<usize> = Vec::new();
        let mut k: usize = 0;
        while k < order.len()
            invariant
                is_bfs_result(self@, start, dist@),
                k <= order@.len(),
                r@.len() == k,
                forall|t: int|
                    0 <= t < k ==> #[trigger] r@[t] == (if order@[t] < dist@.len() {
                        dist@[order@[t] as int]
                    } else {
                        usize::MAX
                    }),
            decreases order.len() - k,
        {
            let e = order[k];
            if e < dist.len() {
                r.push(dist[e]);
            } else {
                r.push(usize::MAX);
            }
            k = k + 1;
        }
        r
    }

    /// Runs a search from `start` and returns `(i, d)`: `d` is the largest
    /// finite distance, and `i` the last position of `d` among the finite
    /// distances (counted among those, not among all nodes).
    fn get_furthest_node(&self, start: usize) -> (r: (usize, usize))
        requires
            in_range(self@),
            start < self@.len(),
        ensures
            exists|dist: Seq<usize>|
                is_bfs_result(self@, start, dist) && is_last_maximum(
                    finite_entries(dist),
                    r.0 as int,
                    r.1,
                ),
    {
        let dist = self.bfs(start);
        let mut count: usize = 0;
        let mut best_index: usize = 0;
        let mut best: usize = 0;
        let mut k: usize = 0;
        while k < dist.len()
            invariant
                is_bfs_result(self@, start, dist@),
                k <= dist@.len(),
                count == finite_entries(dist@.take(k as int)).len(),
                count > 0 ==> is_last_maximum(
                    finite_entries(dist@.take(k as int)),
                    best_index as int,
                    best,
                ),
            decreases dist.len() - k,
        {
            let d = dist[k];
            proof {
                assert(dist@.take(k + 1).drop_last() =~= dist@.take(k as int));
                lemma_finite_entries_len(dist@.take(k as int));
            }
            if d != usize::MAX {
                if count == 0 || d >= best {
                    best_index = count;
                    best = d;
                }
                count = count + 1;
            }
            k = k + 1;
        }
        proof {
            assert(dist@.take(dist@.len() as int) =~= dist@);
            // the start node is at distance 0, so some entry is finite
            if count == 0 {
                let p = seq![start];
                assert(is_walk(self@, p));
                assert(has_walk(self@, start, start, 0));
                assert(reachable(self@, start, start));
                lemma_finite_entries_contains(dist@, start as int);
            }
        }
        (best_index, best)
    }

    /// Two sweeps of breadth-first search: from node 0 to the position `i`
    /// that `get_furthest_node` reports, then from node `i`; the largest finite
    /// distance of the second sweep.
    pub fn get_diameter(&self) -> (r: usize)
        requires
            in_range(self@),
            self@.len() > 0,
        ensures
            exists|d1: Seq<usize>, i: int, m: usize, d2: Seq<usize>, j: int|
                {
                    &&& is_bfs_result(self@, 0, d1)
                    &&& is_last_maximum(finite_entries(d1), i, m)
                    &&& is_bfs_result(self@, i as usize, d2)
                    &&& is_last_maximum(finite_entries(d2), j, r)
                },
    {
        let (furthest, m1) = self.get_furthest_node(0);
        let ghost d1 = choose|d1: Seq<usize>|
            is_bfs_result(self@, 0, d1) && is_last_maximum(finite_entries(d1), furthest as int, m1);
        proof {
            lemma_finite_entries_len(d1);
        }
        let (j, diameter) = self.get_furthest_node(furthest);
        proof {
            let d2 = choose|d2: Seq<usize>|
                is_bfs_result(self@, furthest, d2) && is_last_maximum(finite_entries(d2), j as int, diameter);
            assert(is_bfs_result(self@, (furthest as int) as usize, d2));
        }
        diameter
    }
}

/// A finite entry of `d` shows up among the finite entries.
pub proof fn lemma_finite_entries_contains(d: Seq<usize>, i: int)
    requires
        0 <= i < d.len(),
        d[i] != usize::MAX,
    ensures
        finite_entries(d).len() > 0,
    decreases d.len(),
{
    if i < d.len() - 1 {
        assert(d.drop_last()[i] == d[i]);
        lemma_finite_entries_contains(d.drop_last(), i);
    }
}

impl Graph {
    /// Hop distances from `start`, searching the adjacency array of the graph
    /// in place of its neighbour sets; `usize::MAX` marks the nodes that cannot
    /// be reached.
    pub fn bfs_adjncy(&self, start: usize) -> (dist: Vec<usize>)
        requires
            in_range(self@),
            start < self@.len(),
            self@.len() <= i32::MAX,
            degree_sum(self@) <= i32::MAX,
        ensures
            is_bfs_result(self@, start, dist@),
    {
        let ghost adj = self@;
        let (xadj, adjncy) = self.get_adjacency_array();
        let n = self.data.len();
        let mut dist = filled(n, usize::MAX);
        dist.set(start, 0);
        let mut queue: Vec<usize> = Vec::new();
        queue.push(start);
        let mut head: usize = 0;
        proof {
            assert(queue@ =~= seq![start]);
            assert forall|v: usize| v < adj.len() implies (#[trigger] dist@[v as int] != usize::MAX
                <==> queue@.contains(v)) by {
                if v == start {
                    assert(queue@[0] == start);
                }
            }
            assert forall|v: usize|
                v < adj.len() && #[trigger] dist@[v as int] != usize::MAX implies has_walk(
                adj,
                start,
                v,
                dist@[v as int] as nat,
            ) by {
                let p = seq![start];
                assert(is_walk(adj, p));
            }
        }
        while head < queue.len()
            invariant
                adj == self@,
                n == adj.len(),
                n <= i32::MAX,
                degree_sum(adj) <= i32::MAX,
                is_adjacency_array(adj, xadj@, adjncy@),
                bfs_invariant(adj, start, dist@, queue@, head as int),
            decreases n - head,
        {
            let u = queue[head];
            let ghost lo_i = degree_sum(adj.take(u as int));
            proof {
                lemma_degree_sum_prefix(adj, u as int);
                lemma_degree_sum_prefix(adj, u + 1);
                assert(adj.take(u + 1).drop_last() =~= adj.take(u as int));
                assert(xadj@[u as int] == lo_i as i32);
                assert(xadj@[u + 1] == degree_sum(adj.take(u + 1)) as i32);
            }
            let lo = xadj[u] as usize;
            let hi = xadj[u + 1] as usize;
            let ghost nb = choose|nb: Seq<usize>|
                {
                    &&& nb.no_duplicates()
                    &&& nb.to_set() == #[trigger] adj[u as int]
                    &&& nb.len() == adj[u as int].len()
                    &&& forall|t: int| 0 <= t < nb.len() ==> adjncy@[degree_sum(adj.take(u as int)) + t] == nb[t] as i32
                };
            proof {
                assert(lo == lo_i);
                assert(hi == lo_i + nb.len());
                assert forall|s: int| 0 <= s < nb.len() implies nb[s] < n by {
                    assert(nb.to_set().contains(nb[s]));
                    assert(adj[u as int].contains(nb[s]));
                }
            }
            let mut nbrs: Vec<usize> = Vec::new();
            let mut t: usize = lo;
            while t < hi
                invariant
                    lo <= t <= hi,
                    lo == degree_sum(adj.take(u as int)),
                    hi == lo + nb.len(),
                    hi <= adjncy@.len(),
                    nbrs@ == nb.take(t - lo),
                    forall|s: int| 0 <= s < nb.len() ==> adjncy@[lo + s] == nb[s] as i32,
                    forall|s: int| 0 <= s < nb.len() ==> nb[s] < n,
                    n <= i32::MAX,
                decreases hi - t,
            {
                proof {
                    assert(adjncy@[lo + (t - lo)] == nb[t - lo] as i32);
                }
                nbrs.push(adjncy[t] as usize);
                proof {
                    assert(nbrs@ =~= nb.take(t - lo + 1));
                }
                t = t + 1;
            }
            proof {
                assert(nbrs@ =~= nb);
            }
            self.visit_neighbors(start, &mut dist, &mut queue, head, &nbrs);
            head = head + 1;
        }
        proof {
            let q = queue@;
            let d = dist@;
            assert forall|x: int, w: usize|
                0 <= x < d.len() && d[x] != usize::MAX && #[trigger] adj[x].contains(w) implies {
                &&& w < d.len()
                &&& d[w as int] != usize::MAX
                &&& d[w as int] <= d[x] + 1
            } by {
                assert(d[(x as usize) as int] != usize::MAX);
                assert(q.contains(x as usize));
                let k = choose|k: int| 0 <= k < q.len() && q[k] == x as usize;
                assert(adj[q[k] as int].contains(w));
            }
            lemma_certificate_gives_bfs_result(adj, start, d);
        }
        dist
    }
}

/// The nodes whose entry in `dist` is still `usize::MAX`.
pub open spec fn not_yet_reached(dist: Seq<usize>) -> Set<int> {
    Set::new(|v: int| 0 <= v < dist.len() && dist[v] == usize::MAX)
}

proof fn lemma_not_yet_reached_finite(dist: Seq<usize>)
    ensures
        not_yet_reached(dist).finite(),
        not_yet_reached(dist).len() <= dist.len(),
{
    let range = Set::new(|v: int| 0 <= v < dist.len());
    assert(range =~= vstd::set_lib::set_int_range(0, dist.len() as int));
    vstd::set_lib::lemma_int_range(0, dist.len() as int);
    vstd::set_lib::lemma_len_subset(not_yet_reached(dist), range);
}

impl Graph {
    /// Runs the search from `start` level by level, each level the not_yet_reached
    /// neighbours of the last, and hands back an empty list: the distances
    /// it finds are not returned.
    pub fn bfs_parallel(&self, start: usize) -> (r: Vec<usize>)
        requires
            in_range(self@),
            start < self@.len(),
        ensures
            r@.len() == 0,
    {
        let n = self.data.len();
        let mut distances = filled(n, usize::MAX);
        distances.set(start, 0);
        let mut front: Vec<usize> = Vec::new();
        front.push(start);
        let mut depth: usize = 1;
        proof {
            lemma_not_yet_reached_finite(distances@);
            assert(not_yet_reached(filled_seq(n)) =~= vstd::set_lib::set_int_range(0, n as int));
            vstd::set_lib::lemma_int_range(0, n as int);
            assert(not_yet_reached(filled_seq(n)).contains(start as int));
            assert(not_yet_reached(distances@) =~= not_yet_reached(filled_seq(n)).remove(start as int));
            assert(not_yet_reached(distances@).len() + 1 == n);
        }
        while front.len() > 0
            invariant
                in_range(self@),
                n == self@.len(),
                distances@.len() == n,
                forall|t: int| 0 <= t < front@.len() ==> #[trigger] front@[t] < n,
                not_yet_reached(distances@).finite(),
                depth + not_yet_reached(distances@).len() <= n,
                depth >= 1,
            decreases not_yet_reached(distances@).len(), front@.len(),
        {
            let mut next = NodeSet::new();
            let mut k: usize = 0;
            while k < front.len()
                invariant
                    in_range(self@),
                    n == self@.len(),
                    distances@.len() == n,
                    forall|t: int| 0 <= t < front@.len() ==> #[trigger] front@[t] < n,
                    k <= front@.len(),
                    forall|v: usize| #[trigger] next@.contains(v) ==> v < n && distances@[v as int] == usize::MAX,
                decreases front.len() - k,
            {
                let u = front[k];
                let nbrs = self.data[u].to_vec();
                let mut j: usize = 0;
                while j < nbrs.len()
                    invariant
                        in_range(self@),
                        n == self@.len(),
                        u < n,
                        distances@.len() == n,
                        nbrs@.to_set() == self@[u as int],
                        j <= nbrs@.len(),
                        forall|v: usize| #[trigger] next@.contains(v) ==> v < n && distances@[v as int] == usize::MAX,
                    decreases nbrs.len() - j,
                {
                    let v = nbrs[j];
                    proof {
                        assert(nbrs@.to_set().contains(v));
                        assert(self@[u as int].contains(v));
                    }
                    if distances[v] == usize::MAX {
                        let ghost n0 = next@;
                        next.insert(v);
                        proof {
                            assert forall|w: usize| #[trigger] next@.contains(w) implies w < n
                                && distances@[w as int] == usize::MAX by {
                                if w != v {
                                    assert(n0.contains(w));
                                }
                            }
                        }
                    }
                    j = j + 1;
                }
                k = k + 1;
            }
            let level = next.to_vec();
            let ghost before = distances@;
            proof {
                assert forall|x: usize| #[trigger] level@.contains(x) implies x < n && before[x as int] == usize::MAX by {
                    assert(level@.to_set().contains(x));
                    assert(next@.contains(x));
                }
                if level@.len() > 0 {
                    let x = level@[0];
                    assert(level@.contains(x));
                    assert(not_yet_reached(before).contains(x as int));
                    assert(not_yet_reached(before).remove(x as int).len() + 1 == not_yet_reached(before).len());
                }
                assert forall|i: int| 0 <= i < level@.len() implies distances@[#[trigger] level@[i] as int] == usize::MAX by {
                    assert(level@.contains(level@[i]));
                }
            }
            let mut t: usize = 0;
            while t < level.len()
                invariant
                    n == distances@.len(),
                    before.len() == n,
                    level@.no_duplicates(),
                    forall|x: usize| #[trigger] level@.contains(x) ==> x < n && before[x as int] == usize::MAX,
                    t <= level@.len(),
                    t < level@.len() ==> depth < usize::MAX,
                    not_yet_reached(before).finite(),
                    not_yet_reached(distances@).finite(),
                    not_yet_reached(distances@).len() + t == not_yet_reached(before).len(),
                    forall|x: int| 0 <= x < n && distances@[x] != before[x] ==> exists|i: int|
                        0 <= i < t && level@[i] == x,
                    forall|i: int| t <= i < level@.len() ==> distances@[#[trigger] level@[i] as int] == usize::MAX,
                decreases level.len() - t,
            {
                let v = level[t];
                proof {
                    assert(level@.contains(v));
                }
                let ghost d0 = distances@;
                distances.set(v, depth);
                proof {
                    assert(not_yet_reached(distances@) =~= not_yet_reached(d0).remove(v as int));
                    assert forall|i: int| t + 1 <= i < level@.len() implies distances@[#[trigger] level@[i] as int]
                        == usize::MAX by {
                        assert(level@[i] != level@[t as int]);
                        assert(level@.contains(level@[i]));
                    }
                    assert forall|x: int| 0 <= x < n && distances@[x] != before[x] implies exists|i: int|
                        0 <= i < t + 1 && level@[i] == x by {
                        if x != v as int {
                            assert(d0[x] != before[x]);
                        } else {
                            assert(level@[t as int] == x);
                        }
                    }
                }
                t = t + 1;
            }
            if level.len() > 0 {
                depth = depth + 1;
            }
            proof {
                assert forall|i: int| 0 <= i < level@.len() implies #[trigger] level@[i] < n by {
                    assert(level@.contains(level@[i]));
                }
            }
            front = level;
        }
        Vec::new()
    }
}

/// `n` entries of `usize::MAX`.
pub open spec fn filled_seq(n: usize) -> Seq<usize> {
    Seq::new(n as nat, |i: int| usize::MAX)
}

impl Graph {
    /// After the edge `u - v` was taken out: a breadth-first search from `u`
    /// that takes at most `*budget` nodes off its queue (each spends one unit
    /// of the budget) and looks for a neighbour of `v` that was not yet seen.
    /// Returns the node whose neighbour `v` is, the first one met; `None` when
    /// the queue ran empty or the budget out. `v` is never found when it is
    /// `u` itself.
    pub fn reconnect_probe(&self, u: usize, v: usize, budget: &mut u32) -> (r: Option<usize>)
        requires
            in_range(self@),
            u < self@.len(),
        ensures
            *final(budget) <= *old(budget),
            r matches Some(w) ==> {
                &&& w < self@.len()
                &&& self@[w as int].contains(v)
                &&& reachable(self@, u, w)
                &&& v != u
            },
            r is None && *final(budget) > 0 ==> v == u || !reachable(self@, u, v),
            r is None && *final(budget) == 0 ==> exists|taken: Seq<usize>|
                {
                    &&& taken.len() == *old(budget)
                    &&& taken.no_duplicates()
                    &&& forall|t: int|
                        0 <= t < taken.len() ==> #[trigger] taken[t] < self@.len() && reachable(self@, u, taken[t])
                            && (v != u ==> !self@[taken[t] as int].contains(v))
                },
    {
        let ghost adj = self@;
        let mut queue: VecDeque<usize> = VecDeque::new();
        queue.push_back(u);
        let mut visited = NodeSet::new();
        visited.insert(u);
        proof {
            lemma_reach_self(adj, u);
            assert(queue@[0] == u);
            assert(queue@.contains(u));
        }
        let ghost mut taken: Seq<usize> = Seq::empty();
        while queue.len() > 0 && *budget > 0
            invariant
                adj == self@,
                taken.len() + *budget == *old(budget),
                taken.no_duplicates(),
                forall|t: int|
                    0 <= t < taken.len() ==> visited@.contains(#[trigger] taken[t]) && !queue@.contains(taken[t])
                        && (v != u ==> !adj[taken[t] as int].contains(v)),
                in_range(adj),
                u < adj.len(),
                *budget <= *old(budget),
                visited@.contains(u),
                forall|x: usize| #[trigger] visited@.contains(x) ==> x < adj.len() && reachable(adj, u, x),
                u != v ==> !visited@.contains(v),
                queue@.no_duplicates(),
                forall|t: int| 0 <= t < queue@.len() ==> visited@.contains(#[trigger] queue@[t]),
                forall|x: usize, y: usize|
                    visited@.contains(x) && !queue@.contains(x) && #[trigger] adj[x as int].contains(y)
                        ==> visited@.contains(y),
            decreases *budget,
        {
            *budget = *budget - 1;
            let ghost q0 = queue@;
            let x = queue.pop_front().unwrap();
            proof {
                assert(x == q0[0]);
                assert(visited@.contains(x));
                assert(!queue@.contains(x)) by {
                    if queue@.contains(x) {
                        let t = choose|t: int| 0 <= t < queue@.len() && queue@[t] == x;
                        assert(q0[t + 1] == q0[0]);
                    }
                }
                assert forall|z: usize, y: usize|
                    visited@.contains(z) && !queue@.contains(z) && z != x && #[trigger] adj[z as int].contains(y)
                        implies visited@.contains(y) by {
                    if q0.contains(z) {
                        let t = choose|t: int| 0 <= t < q0.len() && q0[t] == z;
                        if t > 0 {
                            assert(queue@[t - 1] == z);
                        }
                    }
                }
            }
            let nbrs = self.data[x].to_vec();
            let mut j: usize = 0;
            while j < nbrs.len()
                invariant
                    adj == self@,
                    in_range(adj),
                    u < adj.len(),
                    x < adj.len(),
                    nbrs@.to_set() == adj[x as int],
                    j <= nbrs@.len(),
                    *budget <= *old(budget),
                    visited@.contains(u),
                    visited@.contains(x),
                    reachable(adj, u, x),
                    !queue@.contains(x),
                    forall|z: usize| #[trigger] visited@.contains(z) ==> z < adj.len() && reachable(adj, u, z),
                    u != v ==> !visited@.contains(v),
                    queue@.no_duplicates(),
                    forall|t: int| 0 <= t < queue@.len() ==> visited@.contains(#[trigger] queue@[t]),
                    forall|z: usize, y: usize|
                        visited@.contains(z) && !queue@.contains(z) && z != x && #[trigger] adj[z as int].contains(y)
                            ==> visited@.contains(y),
                    forall|t: int| 0 <= t < j ==> visited@.contains(#[trigger] nbrs@[t]),
                    taken.len() + *budget + 1 == *old(budget),
                    taken.no_duplicates(),
                    !taken.contains(x),
                    forall|t: int|
                        0 <= t < taken.len() ==> visited@.contains(#[trigger] taken[t]) && !queue@.contains(taken[t])
                            && (v != u ==> !adj[taken[t] as int].contains(v)),
                decreases nbrs.len() - j,
            {
                let y = nbrs[j];
                proof {
                    assert(nbrs@.to_set().contains(y));
                    assert(adj[x as int].contains(y));
                }
                if visited.contains(y) {
                    j = j + 1;
                    continue;
                }
                if y == v {
                    return Some(x);
                }
                let ghost vq = queue@;
                let ghost vv = visited@;
                visited.insert(y);
                queue.push_back(y);
                proof {
                    lemma_reach_step(adj, u, x, y);
                    assert(queue@ == vq.push(y));
                    assert(queue@.no_duplicates()) by {
                        assert forall|s: int, t: int| 0 <= s < t < queue@.len() implies queue@[s] != queue@[t] by {
                            if t == vq.len() {
                                assert(vv.contains(vq[s]));
                            }
                        }
                    }
                    assert forall|t: int| 0 <= t < queue@.len() implies visited@.contains(#[trigger] queue@[t]) by {
                        if t < vq.len() {
                            assert(vv.contains(vq[t]));
                        }
                    }
                    assert(!queue@.contains(x)) by {
                        if queue@.contains(x) {
                            let t = choose|t: int| 0 <= t < queue@.len() && queue@[t] == x;
                            if t < vq.len() {
                                assert(vq.contains(x));
                            }
                        }
                    }
                    assert forall|z: usize, w: usize|
                        visited@.contains(z) && !queue@.contains(z) && z != x && #[trigger] adj[z as int].contains(w)
                            implies visited@.contains(w) by {
                        if z != y {
                            assert(vv.contains(z));
                            if vq.contains(z) {
                                let t = choose|t: int| 0 <= t < vq.len() && vq[t] == z;
                                assert(queue@[t] == z);
                            }
                        } else {
                            assert(queue@[vq.len() as int] == y);
                        }
                    }
                }
                j = j + 1;
            }
            proof {
                assert forall|w: usize| #[trigger] adj[x as int].contains(w) implies visited@.contains(w) by {
                    assert(nbrs@.to_set().contains(w));
                    let t = choose|t: int| 0 <= t < nbrs@.len() && nbrs@[t] == w;
                    assert(visited@.contains(nbrs@[t]));
                }
                let ghost t0 = taken;
                taken = taken.push(x);
                assert forall|t: int| 0 <= t < taken.len() implies visited@.contains(#[trigger] taken[t])
                    && !queue@.contains(taken[t]) && (v != u ==> !adj[taken[t] as int].contains(v)) by {
                    if t < t0.len() {
                        assert(taken[t] == t0[t]);
                    }
                }
                assert(taken.no_duplicates()) by {
                    assert forall|a: int, b: int| 0 <= a < b < taken.len() implies taken[a] != taken[b] by {
                        if b == t0.len() {
                            assert(t0.contains(t0[a]));
                        }
                    }
                }
            }
        }
        proof {
            if *budget > 0 && u != v && reachable(adj, u, v) {
                assert(queue@.len() == 0);
                assert forall|a: usize, b: usize| visited@.contains(a) && a < adj.len() && #[trigger] adj[a as int].contains(b)
                    implies visited@.contains(b) by {
                    assert(!queue@.contains(a));
                }
                lemma_closed_set_holds_reachable(adj, visited@, u, v);
            }
            assert forall|t: int| 0 <= t < taken.len() implies #[trigger] taken[t] < adj.len() && reachable(
                adj,
                u,
                taken[t],
            ) && (v != u ==> !adj[taken[t] as int].contains(v)) by {
                assert(visited@.contains(taken[t]));
            }
        }
        None
    }
}

/// The nodes that `s` reaches.
pub open spec fn reach_set(adj: Seq<Set<usize>>, s: usize) -> Set<usize> {
    Set::new(|w: usize| reachable(adj, s, w))
}

/// The number of entries that the bounded search returns: `bound`, or one
/// less than the number of nodes that `s` reaches if that is smaller.
pub open spec fn bounded_count(adj: Seq<Set<usize>>, s: usize, bound: nat) -> nat {
    if bound + 1 <= reach_set(adj, s).len() {
        bound
    } else {
        (reach_set(adj, s).len() - 1) as nat
    }
}

/// The state of the bounded search: the distances found `m`, the queue `q`
/// of (node, depth) pairs, the order `order` in which nodes were settled,
/// and `last`, the depth of the last node settled.
spec fn bounded_inv(
    adj: Seq<Set<usize>>,
    start: usize,
    m: Map<usize, usize>,
    q: Seq<(usize, usize)>,
    order: Seq<usize>,
    last: nat,
) -> bool {
    &&& order.no_duplicates()
    &&& forall|i: int| 0 <= i < order.len() ==> #[trigger] order[i] < adj.len()
    &&& m.dom() == order.to_set()
    &&& forall|v: usize| #[trigger]
        m.dom().contains(v) ==> is_hop_distance(adj, start, v, m[v] as nat) && m[v] <= last
    &&& order.len() == 0 ==> q == seq![(start, 0usize)] && last == 0
    &&& order.len() > 0 ==> order[0] == start && last + 1 <= order.len()
    &&& order.len() > 0 ==> forall|i: int| 0 <= i < q.len() ==> last <= (#[trigger] q[i]).1 <= last + 1
    &&& forall|i: int, j: int| 0 <= i <= j < q.len() ==> q[i].1 <= q[j].1
    &&& forall|i: int|
        0 <= i < q.len() ==> (#[trigger] q[i]).0 < adj.len() && has_walk(adj, start, q[i].0, q[i].1 as nat)
    &&& forall|u: usize, w: usize|
        m.dom().contains(u) && #[trigger] adj[u as int].contains(w) ==> m.dom().contains(w) || exists|i: int|
            #![trigger q[i]]
            0 <= i < q.len() && q[i].0 == w && q[i].1 <= m[u] + 1
}

/// A walk from `start` shorter than every queued depth ends at a settled
/// node.
proof fn lemma_settled_below(
    adj: Seq<Set<usize>>,
    start: usize,
    m: Map<usize, usize>,
    q: Seq<(usize, usize)>,
    order: Seq<usize>,
    last: nat,
    bar: nat,
    p: Seq<usize>,
)
    requires
        bounded_inv(adj, start, m, q, order, last),
        order.len() > 0,
        forall|i: int| 0 <= i < q.len() ==> (#[trigger] q[i]).1 >= bar,
        is_walk(adj, p),
        p[0] == start,
        p.len() - 1 < bar,
    ensures
        m.dom().contains(p[p.len() - 1]),
    decreases p.len(),
{
    if p.len() == 1 {
        assert(order.contains(order[0]));
        assert(order.to_set().contains(start));
    } else {
        let pre = p.drop_last();
        assert forall|k: int| 0 <= k < pre.len() - 1 implies #[trigger] walk_step(adj, pre, k) by {
            assert(walk_step(adj, p, k));
        }
        assert(is_walk(adj, pre));
        lemma_settled_below(adj, start, m, q, order, last, bar, pre);
        let x = pre[pre.len() - 1];
        let y = p[p.len() - 1];
        assert(has_walk(adj, start, x, (pre.len() - 1) as nat));
        assert(m.dom().contains(x));
        assert(is_hop_distance(adj, start, x, m[x] as nat));
        assert(m[x] <= pre.len() - 1) by {
            if m[x] > pre.len() - 1 {
                assert(!has_walk(adj, start, x, (pre.len() - 1) as nat));
            }
        }
        assert(walk_step(adj, p, p.len() - 2));
        assert(adj[x as int].contains(y));
        if !m.dom().contains(y) {
            let i = choose|i: int| #![trigger q[i]] 0 <= i < q.len() && q[i].0 == y && q[i].1 <= m[x] + 1;
            assert(q[i].1 >= bar);
        }
    }
}

impl Graph {
    /// Hop distances from `start` to the `bound` nodes nearest to it (fewer
    /// if it reaches fewer), found by a breadth-first search that stops once
    /// `bound + 1` nodes, `start` among them, are settled; `start` itself is
    /// left out. Among nodes at the same distance, which are taken depends on
    /// the order in which the neighbour sets are walked.
    pub fn bfs_bounded(&self, start: usize, bound: usize) -> (r: UsizeMap)
        requires
            in_range(self@),
            start < self@.len(),
            bound < usize::MAX,
        ensures
            forall|v: usize| #[trigger]
                r@.dom().contains(v) ==> v != start && v < self@.len() && is_hop_distance(
                    self@,
                    start,
                    v,
                    r@[v] as nat,
                ),
            forall|v: usize, w: usize, k: nat|
                #![trigger r@.dom().contains(v), has_walk(self@, start, w, k)]
                r@.dom().contains(v) && has_walk(self@, start, w, k) && k < r@[v] ==> w == start
                    || r@.dom().contains(w),
            r@.dom().len() == bounded_count(self@, start, bound as nat),
    {
        let ghost adj = self@;
        let n = self.data.len();
        let mut distances = UsizeMap::new();
        let mut queue: VecDeque<(usize, usize)> = VecDeque::new();
        queue.push_back((start, 0));
        let ghost mut order: Seq<usize> = Seq::empty();
        let ghost mut last: nat = 0;
        proof {
            assert(queue@ == seq![(start, 0usize)]);
            assert(usize_map_contents(distances).dom() =~= order.to_set());
            lemma_reach_self(adj, start);
            assert(has_walk(adj, start, start, 0)) by {
                let p = seq![start];
                assert(is_walk(adj, p));
            }
        }
        while distances.len() < bound + 1 && queue.len() > 0
            invariant
                adj == self@,
                n == adj.len(),
                in_range(adj),
                start < n,
                bound < usize::MAX,
                bounded_inv(adj, start, usize_map_contents(distances), queue@, order, last),
                order.len() <= n,
                order.len() <= bound + 1,
            decreases n - order.len(), queue@.len(),
        {
            let ghost m0 = usize_map_contents(distances);
            let ghost q0 = queue@;
            let (u, depth) = queue.pop_front().unwrap();
            proof {
                assert(q0[0] == (u, depth));
                assert(queue@ == q0.drop_first());
            }
            if distances.contains_key(u) {
                proof {
                    assert forall|a: usize, w: usize|
                        m0.dom().contains(a) && #[trigger] adj[a as int].contains(w) implies m0.dom().contains(w)
                            || exists|i: int|
                            #![trigger queue@[i]]
                            0 <= i < queue@.len() && queue@[i].0 == w && queue@[i].1 <= m0[a] + 1 by {
                        if !m0.dom().contains(w) {
                            let i = choose|i: int| #![trigger q0[i]] 0 <= i < q0.len() && q0[i].0 == w && q0[i].1 <= m0[a] + 1;
                            assert(i != 0);
                            assert(queue@[i - 1] == q0[i]);
                        }
                    }
                    assert forall|i: int| 0 <= i < queue@.len() implies (#[trigger] queue@[i]).0 < adj.len()
                        && has_walk(adj, start, queue@[i].0, queue@[i].1 as nat) by {
                        assert(queue@[i] == q0[i + 1]);
                    }
                    assert forall|i: int, j: int| 0 <= i <= j < queue@.len() implies queue@[i].1 <= queue@[j].1 by {
                        assert(queue@[i] == q0[i + 1]);
                        assert(queue@[j] == q0[j + 1]);
                    }
                    if order.len() > 0 {
                        assert forall|i: int| 0 <= i < queue@.len() implies last <= (#[trigger] queue@[i]).1 <= last
                            + 1 by {
                            assert(queue@[i] == q0[i + 1]);
                        }
                    } else {
                        assert(m0.dom().contains(u));
                        assert(order.to_set().contains(u));
                    }
                }
                continue;
            }
            // `u` is settled now, at its hop distance.
            proof {
                assert(!order.to_set().contains(u));
                assert(has_walk(adj, start, u, depth as nat));
                assert forall|k: nat| k < depth implies !#[trigger] has_walk(adj, start, u, k) by {
                    if has_walk(adj, start, u, k) {
                        let p = choose|p: Seq<usize>|
                            #[trigger] is_walk(adj, p) && p.len() == k + 1 && p[0] == start && p[p.len() - 1] == u;
                        if order.len() > 0 {
                            assert forall|i: int| 0 <= i < q0.len() implies (#[trigger] q0[i]).1 >= depth by {
                                assert(q0[0].1 <= q0[i].1);
                            }
                            lemma_settled_below(adj, start, m0, q0, order, last, depth as nat, p);
                        }
                    }
                }
                assert(is_hop_distance(adj, start, u, depth as nat));
                if order.len() > 0 {
                    assert(last <= depth <= last + 1) by {
                        assert(last <= q0[0].1 <= last + 1);
                    }
                }
                lemma_distinct_below(order.push(u), n);
                assert(forall|i: int| 0 <= i < order.push(u).len() ==> #[trigger] order.push(u)[i] < n) by {
                    assert forall|i: int| 0 <= i < order.push(u).len() implies #[trigger] order.push(u)[i] < n by {
                        if i < order.len() {
                            assert(order.push(u)[i] == order[i]);
                        }
                    }
                }
            }
            distances.insert(u, depth);
            proof {
                let m1 = usize_map_contents(distances);
                let o1 = order.push(u);
                assert(m1.dom() =~= o1.to_set()) by {
                    assert forall|x: usize| m1.dom().contains(x) <==> o1.to_set().contains(x) by {
                        if o1.contains(x) && x != u {
                            let i = choose|i: int| 0 <= i < o1.len() && o1[i] == x;
                            assert(order[i] == x);
                            assert(order.contains(x));
                        }
                        if order.contains(x) {
                            let i = choose|i: int| 0 <= i < order.len() && order[i] == x;
                            assert(o1[i] == x);
                        }
                        if x == u {
                            assert(o1[order.len() as int] == u);
                        }
                    }
                }
                assert(o1.no_duplicates()) by {
                    assert forall|i: int, j: int| 0 <= i < j < o1.len() implies o1[i] != o1[j] by {
                        if j == order.len() {
                            assert(order.contains(o1[i]));
                        }
                    }
                }
                if order.len() == 0 {
                    assert(u == start && depth == 0);
                    assert(o1[0] == start);
                }
                assert forall|a: usize, w: usize|
                    m1.dom().contains(a) && a != u && #[trigger] adj[a as int].contains(w) implies m1.dom().contains(w)
                        || exists|i: int|
                        #![trigger queue@[i]]
                        0 <= i < queue@.len() && queue@[i].0 == w && queue@[i].1 <= m1[a] + 1 by {
                    assert(m0.dom().contains(a));
                    if !m1.dom().contains(w) {
                        assert(!m0.dom().contains(w));
                        let i = choose|i: int| #![trigger q0[i]] 0 <= i < q0.len() && q0[i].0 == w && q0[i].1 <= m0[a] + 1;
                        assert(i != 0);
                        assert(queue@[i - 1] == q0[i]);
                    }
                }
                order.unique_seq_to_set();
                o1.unique_seq_to_set();
                order = o1;
                last = depth as nat;
            }
            let nbrs = self.data[u].to_vec();
            let mut j: usize = 0;
            while j < nbrs.len()
                invariant
                    adj == self@,
                    n == adj.len(),
                    in_range(adj),
                    start < n,
                    u < n,
                    nbrs@.to_set() == adj[u as int],
                    j <= nbrs@.len(),
                    order.len() > 0,
                    order[0] == start,
                    order.len() <= n,
                    last == depth,
                    usize_map_contents(distances).dom().contains(u),
                    usize_map_contents(distances)[u] == depth,
                    is_hop_distance(adj, start, u, depth as nat),
                    last + 1 <= order.len(),
                    order.no_duplicates(),
                    forall|i: int| 0 <= i < order.len() ==> #[trigger] order[i] < adj.len(),
                    usize_map_contents(distances).dom() == order.to_set(),
                    forall|v: usize| #[trigger]
                        usize_map_contents(distances).dom().contains(v) ==> is_hop_distance(
                            adj,
                            start,
                            v,
                            usize_map_contents(distances)[v] as nat,
                        ) && usize_map_contents(distances)[v] <= last,
                    forall|i: int| 0 <= i < queue@.len() ==> last <= (#[trigger] queue@[i]).1 <= last + 1,
                    forall|i: int, k: int| 0 <= i <= k < queue@.len() ==> queue@[i].1 <= queue@[k].1,
                    forall|i: int|
                        0 <= i < queue@.len() ==> (#[trigger] queue@[i]).0 < adj.len() && has_walk(
                            adj,
                            start,
                            queue@[i].0,
                            queue@[i].1 as nat,
                        ),
                    forall|a: usize, w: usize|
                        usize_map_contents(distances).dom().contains(a) && a != u && #[trigger] adj[a as int].contains(
                            w,
                        ) ==> usize_map_contents(distances).dom().contains(w) || exists|i: int|
                            #![trigger queue@[i]]
                            0 <= i < queue@.len() && queue@[i].0 == w && queue@[i].1 <= usize_map_contents(
                                distances,
                            )[a] + 1,
                    forall|t: int|
                        0 <= t < j ==> usize_map_contents(distances).dom().contains(#[trigger] nbrs@[t]) || exists|
                            i: int,
                        |
                            #![trigger queue@[i]]
                            0 <= i < queue@.len() && queue@[i].0 == nbrs@[t] && queue@[i].1 <= depth + 1,
                decreases nbrs.len() - j,
            {
                let v = nbrs[j];
                proof {
                    assert(nbrs@.to_set().contains(v));
                    assert(adj[u as int].contains(v));
                }
                if !distances.contains_key(v) {
                    let ghost qb = queue@;
                    proof {
                        lemma_walk_extend(adj, start, u, depth as nat, v);
                        assert(depth + 1 <= n);
                    }
                    queue.push_back((v, depth + 1));
                    proof {
                        assert(queue@ == qb.push((v, (depth + 1) as usize)));
                        assert forall|a: usize, w: usize|
                            usize_map_contents(distances).dom().contains(a) && a != u && #[trigger] adj[a as int].contains(w)
                                implies usize_map_contents(distances).dom().contains(w) || exists|i: int|
                                #![trigger queue@[i]]
                                0 <= i < queue@.len() && queue@[i].0 == w && queue@[i].1 <= usize_map_contents(
                                    distances,
                                )[a] + 1 by {
                            if !usize_map_contents(distances).dom().contains(w) {
                                let i = choose|i: int|
                                    #![trigger qb[i]]
                                    0 <= i < qb.len() && qb[i].0 == w && qb[i].1 <= usize_map_contents(distances)[a] + 1;
                                assert(queue@[i] == qb[i]);
                            }
                        }
                        assert forall|t: int| 0 <= t < j + 1 implies usize_map_contents(distances).dom().contains(
                            #[trigger] nbrs@[t],
                        ) || exists|i: int|
                            #![trigger queue@[i]]
                            0 <= i < queue@.len() && queue@[i].0 == nbrs@[t] && queue@[i].1 <= depth + 1 by {
                            if t == j {
                                assert(queue@[qb.len() as int] == (v, (depth + 1) as usize));
                            } else if !usize_map_contents(distances).dom().contains(nbrs@[t]) {
                                let i = choose|i: int|
                                    #![trigger qb[i]]
                                    0 <= i < qb.len() && qb[i].0 == nbrs@[t] && qb[i].1 <= depth + 1;
                                assert(queue@[i] == qb[i]);
                            }
                        }
                    }
                }
                j = j + 1;
            }
            proof {
                let m = usize_map_contents(distances);
                assert forall|a: usize, w: usize|
                    m.dom().contains(a) && #[trigger] adj[a as int].contains(w) implies m.dom().contains(w)
                        || exists|i: int| #![trigger queue@[i]] 0 <= i < queue@.len() && queue@[i].0 == w && queue@[i].1 <= m[a] + 1 by {
                    if a == u {
                        assert(nbrs@.to_set().contains(w));
                        let t = choose|t: int| 0 <= t < nbrs@.len() && nbrs@[t] == w;
                        assert(m.dom().contains(nbrs@[t]) || exists|i: int|
                            #![trigger queue@[i]]
                            0 <= i < queue@.len() && queue@[i].0 == nbrs@[t] && queue@[i].1 <= depth + 1);
                    }
                }
            }
        }
        let ghost m = usize_map_contents(distances);
        proof {
            order.unique_seq_to_set();
            assert(m.dom().len() >= bound + 1 || queue@.len() == 0);
            assert(order.len() > 0) by {
                if order.len() == 0 {
                    assert(m.dom() =~= Set::<usize>::empty());
                }
            }
            assert(order.contains(order[0]));
            assert(m.dom().contains(start));
            order.unique_seq_to_set();
            assert(m.dom().finite());
            // Every settled node is reached.
            assert(m.dom().subset_of(reach_set(adj, start))) by {
                assert forall|v: usize| m.dom().contains(v) implies reach_set(adj, start).contains(v) by {
                    assert(has_walk(adj, start, v, m[v] as nat));
                }
            }
            lemma_reach_set_finite(adj, start);
            vstd::set_lib::lemma_len_subset(m.dom(), reach_set(adj, start));
            if queue@.len() == 0 {
                assert(reach_set(adj, start).subset_of(m.dom())) by {
                    assert forall|w: usize| reach_set(adj, start).contains(w) implies m.dom().contains(w) by {
                        assert forall|a: usize, b: usize|
                            m.dom().contains(a) && a < adj.len() && #[trigger] adj[a as int].contains(b)
                                implies m.dom().contains(b) by {
                            if !m.dom().contains(b) {
                                let i = choose|i: int| #![trigger queue@[i]] 0 <= i < queue@.len() && queue@[i].0 == b && queue@[i].1 <= m[a] + 1;
                            }
                        }
                        lemma_closed_set_holds_reachable(adj, m.dom(), start, w);
                    }
                }
                assert(m.dom() =~= reach_set(adj, start));
            }
            // A walk shorter than a settled distance ends at a settled node.
            assert forall|v: usize, w: usize, k: nat|
                #![trigger m.dom().contains(v), has_walk(adj, start, w, k)]
                m.dom().contains(v) && has_walk(adj, start, w, k) && k < m[v] implies m.dom().contains(w) by {
                let p = choose|p: Seq<usize>|
                    #[trigger] is_walk(adj, p) && p.len() == k + 1 && p[0] == start && p[p.len() - 1] == w;
                if queue@.len() == 0 {
                    lemma_reach_from_walk(adj, start, w, k);
                } else {
                    assert forall|i: int| 0 <= i < queue@.len() implies (#[trigger] queue@[i]).1 >= last by {}
                    assert(m[v] <= last);
                    lemma_settled_below(adj, start, m, queue@, order, last, last, p);
                }
            }
        }
        distances.remove(start);
        proof {
            let r = usize_map_contents(distances);
            assert(r == m.remove(start));
            assert(r.dom() == m.dom().remove(start));
            assert(r.dom().len() == m.dom().len() - 1);
            if queue@.len() > 0 {
                assert(m.dom().len() == bound + 1);
            }
        }
        distances
    }
}

/// A walk is a witness of reachability.
proof fn lemma_reach_from_walk(adj: Seq<Set<usize>>, s: usize, w: usize, k: nat)
    requires
        has_walk(adj, s, w, k),
    ensures
        reachable(adj, s, w),
{
}

/// What a node reaches is finite.
proof fn lemma_reach_set_finite(adj: Seq<Set<usize>>, s: usize)
    requires
        s < adj.len(),
    ensures
        reach_set(adj, s).finite(),
{
    let range = Set::new(|v: usize| v < adj.len());
    assert forall|v: usize| reach_set(adj, s).contains(v) implies range.contains(v) by {
        let k = choose|k: nat| #[trigger] has_walk(adj, s, v, k);
        let p = choose|p: Seq<usize>| #[trigger] is_walk(adj, p) && p.len() == k + 1 && p[0] == s && p[p.len() - 1] == v;
        assert(p[p.len() - 1] < adj.len());
    }
    assert(range =~= Set::new(|v: usize| 0 <= v < adj.len()));
    lemma_usize_range_finite(adj.len());
    vstd::set_lib::lemma_len_subset(reach_set(adj, s), range);
}

/// The ids below `n` are finitely many.
proof fn lemma_usize_range_finite(n: nat)
    ensures
        Set::new(|v: usize| 0 <= v < n).finite(),
    decreases n,
{
    if n == 0 {
        assert(Set::new(|v: usize| 0 <= v < n) =~= Set::<usize>::empty());
    } else {
        lemma_usize_range_finite((n - 1) as nat);
        if n - 1 <= usize::MAX {
            assert(Set::new(|v: usize| 0 <= v < n) =~= Set::new(|v: usize| 0 <= v < (n - 1) as nat).insert(
                (n - 1) as usize,
            ));
        } else {
            assert(Set::new(|v: usize| 0 <= v < n) =~= Set::new(|v: usize| 0 <= v < (n - 1) as nat));
        }
    }
}

/// The bounded search and the full search agree: every distance that
/// [`Graph::bfs_bounded`] reports is the one that [`Graph::bfs`] gives.
pub proof fn lemma_bounded_agrees_with_full(
    adj: Seq<Set<usize>>,
    s: usize,
    m: Map<usize, usize>,
    dist: Seq<usize>,
)
    requires
        is_bfs_result(adj, s, dist),
        forall|v: usize| #[trigger]
            m.dom().contains(v) ==> v < adj.len() && is_hop_distance(adj, s, v, m[v] as nat),
    ensures
        forall|v: usize| #[trigger] m.dom().contains(v) ==> dist[v as int] == m[v],
{
    assert forall|v: usize| #[trigger] m.dom().contains(v) implies dist[v as int] == m[v] by {
        assert(has_walk(adj, s, v, m[v] as nat));
        assert(reachable(adj, s, v));
        assert(dist[v as int] != usize::MAX);
        let d = dist[v as int] as nat;
        assert(is_hop_distance(adj, s, v, d));
        if d < m[v] {
            assert(!has_walk(adj, s, v, d));
        } else if m[v] < d {
            assert(!has_walk(adj, s, v, m[v] as nat));
        }
    }
}

/// `s` is the integer square root of `n`: the largest number whose square
/// is at most `n`.
pub open spec fn is_integer_sqrt(n: nat, s: nat) -> bool {
    s * s <= n < (s + 1) * (s + 1)
}

/// The integer square root of `n`.
pub fn integer_sqrt(n: usize) -> (s: usize)
    ensures
        is_integer_sqrt(n as nat, s as nat),
{
    let nn = n as u128;
    let mut lo: u128 = 0;
    let mut hi: u128 = 0x1_0000_0001;
    assert(hi * hi > 0xffff_ffff_ffff_ffff) by (nonlinear_arith)
        requires
            hi == 0x1_0000_0001u128,
    ;
    while hi - lo > 1
        invariant
            nn == n,
            lo < hi <= 0x1_0000_0001,
            lo * lo <= nn,
            nn < hi * hi,
        decreases hi - lo,
    {
        let mid = lo + (hi - lo) / 2;
        assert(mid * mid <= 0x1_0000_0001u128 * 0x1_0000_0001u128) by (nonlinear_arith)
            requires
                mid <= 0x1_0000_0001u128,
        ;
        if mid * mid <= nn {
            lo = mid;
        } else {
            hi = mid;
        }
    }
    assert(lo < 0x1_0000_0000) by (nonlinear_arith)
        requires
            lo * lo <= nn,
            nn <= 0xffff_ffff_ffff_ffff,
            lo < hi,
            hi <= 0x1_0000_0001,
    {
        if lo >= 0x1_0000_0000 {
            assert(lo * lo >= 0x1_0000_0000u128 * 0x1_0000_0000u128);
        }
    }
    assert(lo <= nn) by (nonlinear_arith)
        requires
            lo * lo <= nn,
    ;
    lo as usize
}

/// The entries of the lists, one list after the other.
pub open spec fn concat(blocks: Seq<Seq<usize>>) -> Seq<usize>
    decreases blocks.len(),
{
    if blocks.len() == 0 {
        Seq::empty()
    } else {
        concat(blocks.drop_last()) + blocks.last()
    }
}

/// `r` lists the hop distances from `start` to the ids of `ends` in some
/// order of the ids (`usize::MAX` where the id is no node or cannot be
/// reached), as [`Graph::dijkstra_multi`] returns them.
pub open spec fn is_multi_distance(adj: Seq<Set<usize>>, start: usize, ends: Set<usize>, r: Seq<usize>) -> bool {
    exists|order: Seq<usize>|
        {
            &&& order.no_duplicates()
            &&& order.to_set() == ends
            &&& order.len() == r.len()
            &&& forall|k: int|
                0 <= k < order.len() ==> {
                    &&& (order[k] >= adj.len() ==> #[trigger] r[k] == usize::MAX)
                    &&& (order[k] < adj.len() ==> (r[k] == usize::MAX <==> !reachable(adj, start, order[k])))
                    &&& (order[k] < adj.len() && r[k] != usize::MAX ==> is_hop_distance(
                        adj,
                        start,
                        order[k],
                        r[k] as nat,
                    ))
                }
        }
}

impl Graph {
    /// Hop distances sampled at random: for each of the first `k` nodes, `k`
    /// the integer square root of `n`, the distances to `k` nodes drawn at
    /// random (repeats drawn once), one list after the other.
    pub fn hop_overview_probabilistic(&self, n: usize) -> (r: Vec<usize>)
        requires
            in_range(self@),
            integer_sqrt_spec(n as nat) <= self@.len(),
        ensures
            exists|blocks: Seq<Seq<usize>>, ends: Seq<Set<usize>>|
                {
                    &&& blocks.len() == integer_sqrt_spec(n as nat)
                    &&& ends.len() == blocks.len()
                    &&& r@ == concat(blocks)
                    &&& forall|i: int|
                        0 <= i < blocks.len() ==> {
                            &&& is_multi_distance(self@, i as usize, #[trigger] ends[i], blocks[i])
                            &&& ends[i].len() >= 1
                            &&& ends[i].len() <= blocks.len()
                            &&& forall|v: usize| ends[i].contains(v) ==> v < self@.len()
                        }
                },
    {
        let k = integer_sqrt(n);
        proof {
            lemma_integer_sqrt_unique(n as nat, k as nat);
        }
        let num_nodes = self.data.len();
        let mut r: Vec<usize> = Vec::new();
        let ghost mut blocks: Seq<Seq<usize>> = Seq::empty();
        let ghost mut ends_seen: Seq<Set<usize>> = Seq::empty();
        let mut i: usize = 0;
        while i < k
            invariant
                in_range(self@),
                num_nodes == self@.len(),
                k <= num_nodes,
                i <= k,
                blocks.len() == i,
                ends_seen.len() == i,
                r@ == concat(blocks),
                forall|t: int|
                    0 <= t < i ==> {
                        &&& is_multi_distance(self@, t as usize, #[trigger] ends_seen[t], blocks[t])
                        &&& ends_seen[t].len() >= 1
                        &&& ends_seen[t].len() <= k
                        &&& forall|v: usize| ends_seen[t].contains(v) ==> v < self@.len()
                    },
            decreases k - i,
        {
            let mut ends = NodeSet::new();
            let mut j: usize = 0;
            while j < k
                invariant
                    num_nodes == self@.len(),
                    k <= num_nodes,
                    i < k,
                    j <= k,
                    ends@.finite(),
                    j > 0 ==> ends@.len() >= 1,
                    ends@.len() <= j,
                    forall|v: usize| ends@.contains(v) ==> v < num_nodes,
                decreases k - j,
            {
                let ghost e0 = ends@;
                let v = random_below(num_nodes);
                ends.insert(v);
                proof {
                    if e0.contains(v) {
                        assert(ends@ =~= e0);
                    }
                }
                j = j + 1;
            }
            let ghost ends_here = ends@;
            let block = self.dijkstra_multi(i, ends);
            let ghost old_blocks = blocks;
            let ghost b = block@;
            proof {
                assert(is_multi_distance(self@, i, ends_here, b));
                blocks = blocks.push(b);
                ends_seen = ends_seen.push(ends_here);
            }
            let ghost r0 = r@;
            let mut block = block;
            r.append(&mut block);
            proof {
                assert(blocks.drop_last() =~= old_blocks);
                assert(blocks.last() == b);
                assert(r@ =~= r0 + b);
                assert forall|t: int| 0 <= t < i + 1 implies {
                    &&& is_multi_distance(self@, t as usize, #[trigger] ends_seen[t], blocks[t])
                    &&& ends_seen[t].len() >= 1
                    &&& ends_seen[t].len() <= k
                    &&& forall|v: usize| ends_seen[t].contains(v) ==> v < self@.len()
                } by {}
            }
            i = i + 1;
        }
        r
    }
}

/// The integer square root of `n`.
pub open spec fn integer_sqrt_spec(n: nat) -> nat
    decreases n,
{
    if n == 0 {
        0
    } else {
        let s = integer_sqrt_spec((n - 1) as nat);
        if (s + 1) * (s + 1) <= n {
            s + 1
        } else {
            s
        }
    }
}

/// The integer square root is unique, and the recursive definition finds it.
proof fn lemma_integer_sqrt_unique(n: nat, s: nat)
    requires
        is_integer_sqrt(n, s),
    ensures
        integer_sqrt_spec(n) == s,
    decreases n,
{
    if n == 0 {
        assert(s == 0) by (nonlinear_arith)
            requires
                s * s <= 0,
        ;
    } else {
        let t = integer_sqrt_spec((n - 1) as nat);
        assert(integer_sqrt_spec(n) == if (t + 1) * (t + 1) <= n {
            t + 1
        } else {
            t
        });
        if s * s <= n - 1 {
            lemma_integer_sqrt_unique((n - 1) as nat, s);
        } else {
            assert(s * s == n);
            assert(s >= 1) by (nonlinear_arith)
                requires
                    s * s == n,
                    n > 0,
            ;
            let p = (s - 1) as nat;
            let m = (n - 1) as nat;
            assert(p * p <= m && m < (p + 1) * (p + 1)) by (nonlinear_arith)
                requires
                    s * s == n,
                    s >= 1,
                    p == s - 1,
                    m == n - 1,
            ;
            lemma_integer_sqrt_unique(m, p);
        }
    }
}

} // verus!
