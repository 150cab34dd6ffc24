//! Connected components of a graph with a set of separator nodes taken out.
use crate::collections::{AdjMap, NodeSet, UsizeMap};
use crate::graph::{in_range, is_symmetric, reachable, Graph};
use crate::reach::{
    lemma_closed_set_holds_reachable, lemma_reach_self, lemma_reach_step, lemma_reach_symmetric,
    lemma_reach_trans,
};
use vstd::prelude::*;

verus! {

/// The graph with the nodes of `sep` cut off: they keep no neighbours, and no
/// node keeps them as neighbours.
pub open spec fn restrict(adj: Seq<Set<usize>>, sep: Set<usize>) -> Seq<Set<usize>> {
    Seq::new(
        adj.len(),
        |u: int|
            if sep.contains(u as usize) {
                Set::<usize>::empty()
            } else {
                adj[u].difference(sep)
            },
    )
}

/// `i` is the smallest node of its component in `g`, and not a separator node.
pub open spec fn is_component_root(g: Seq<Set<usize>>, sep: Set<usize>, i: usize) -> bool {
    &&& i < g.len()
    &&& !sep.contains(i)
    &&& forall|j: usize| j < i ==> !#[trigger] reachable(g, i, j)
}

/// The roots among the nodes `0..n`, in increasing order.
pub open spec fn component_roots(g: Seq<Set<usize>>, sep: Set<usize>, n: nat) -> Seq<usize>
    decreases n,
{
    if n == 0 {
        Seq::empty()
    } else {
        let rest = component_roots(g, sep, (n - 1) as nat);
        if is_component_root(g, sep, (n - 1) as usize) {
            rest.push((n - 1) as usize)
        } else {
            rest
        }
    }
}

/// `m` lists, for each node of the component of `root` that has neighbours,
/// those neighbours, each once.
pub open spec fn is_component_map(g: Seq<Set<usize>>, root: usize, m: Map<usize, Seq<usize>>) -> bool {
    &&& forall|u: usize|
        #[trigger] m.dom().contains(u) <==> (reachable(g, root, u) && g[u as int] != Set::<usize>::empty())
    &&& forall|u: usize|
        #[trigger] m.dom().contains(u) ==> m[u].no_duplicates() && m[u].to_set() == g[u as int]
}

/// Whether `v` holds `x`.
pub fn list_contains(v: &Vec<usize>, x: usize) -> (r: bool)
    ensures
        r == v@.contains(x),
{
    let mut k: usize = 0;
    while k < v.len()
        invariant
            k <= v@.len(),
            forall|t: int| 0 <= t < k ==> v@[t] != x,
        decreases v.len() - k,
    {
        if v[k] == x {
            return true;
        }
        k = k + 1;
    }
    false
}

/// The list of `key` with `x` appended unless it holds `x` already.
pub open spec fn with_listed(m: Map<usize, Seq<usize>>, key: usize, x: usize) -> Map<usize, Seq<usize>> {
    m.insert(
        key,
        if m.dom().contains(key) {
            if m[key].contains(x) {
                m[key]
            } else {
                m[key].push(x)
            }
        } else {
            seq![x]
        },
    )
}

/// Appends `x` to the list of `key` (starting an empty list where there is
/// none) unless the list holds it already.
pub fn add_to_list(m: &mut AdjMap, key: usize, x: usize)
    ensures
        final(m)@ == with_listed(old(m)@, key, x),
{
    let mut list = match m.remove(key) {
        Some(l) => l,
        None => Vec::new(),
    };
    if !list_contains(&list, x) {
        list.push(x);
    }
    m.insert(key, list);
    proof {
        let target = with_listed(old(m)@, key, x);
        assert(m@.dom() =~= target.dom());
        assert(m@ =~= target);
    }
}

/// What `with_listed` does to the list of each key.
pub proof fn lemma_listed(m: Map<usize, Seq<usize>>, key: usize, x: usize, y: usize)
    ensures
        with_listed(m, key, x).dom() == m.dom().insert(key),
        y != key ==> with_listed(m, key, x)[y] == m[y],
        y == key ==> with_listed(m, key, x)[y].to_set() == (if m.dom().contains(key) {
            m[key].to_set()
        } else {
            Set::<usize>::empty()
        }).insert(x),
        y == key && (!m.dom().contains(key) || m[key].no_duplicates()) ==> with_listed(m, key, x)[y].no_duplicates(),
        y == key ==> with_listed(m, key, x)[y].len() > 0,
        y == key ==> with_listed(m, key, x)[y].contains(x),
        y == key && m.dom().contains(key) ==> forall|z: usize| #[trigger] m[key].contains(z) ==> with_listed(m, key, x)[y].contains(z),
{
    let l = with_listed(m, key, x);
    if y == key {
        if m.dom().contains(key) {
            if m[key].contains(x) {
                assert(l[y].to_set() =~= m[key].to_set().insert(x));
            } else {
                assert(l[y].to_set() =~= m[key].to_set().insert(x)) by {
                    assert forall|z: usize| l[y].to_set().contains(z) <==> m[key].to_set().insert(x).contains(z) by {
                        if m[key].contains(z) {
                            let t = choose|t: int| 0 <= t < m[key].len() && m[key][t] == z;
                            assert(l[y][t] == z);
                        }
                        if z == x {
                            assert(l[y][m[key].len() as int] == x);
                        }
                        if l[y].contains(z) {
                            let t = choose|t: int| 0 <= t < l[y].len() && l[y][t] == z;
                            if t < m[key].len() {
                                assert(m[key][t] == z);
                            }
                        }
                    }
                }
                if m[key].no_duplicates() {
                    lemma_push_fresh_usize(m[key], x);
                }
                assert forall|z: usize| #[trigger] m[key].contains(z) implies l[y].contains(z) by {
                    let t = choose|t: int| 0 <= t < m[key].len() && m[key][t] == z;
                    assert(l[y][t] == z);
                }
                assert(l[y][m[key].len() as int] == x);
            }
        } else {
            assert(l[y] == seq![x]);
            assert(l[y].to_set() =~= Set::<usize>::empty().insert(x)) by {
                assert(l[y][0] == x);
            }
            assert(l[y][0] == x);
        }
    }
    assert(l.dom() =~= m.dom().insert(key));
}

/// Appending a new id to a list without duplicates.
pub proof fn lemma_push_fresh_usize(q: Seq<usize>, x: usize)
    requires
        q.no_duplicates(),
        !q.contains(x),
    ensures
        q.push(x).no_duplicates(),
        forall|y: usize| #[trigger] q.push(x).contains(y) <==> (q.contains(y) || y == x),
{
    crate::graph::lemma_push_fresh(q, x);
}

/// A vector of `n` copies of `false`.
pub fn all_false(n: usize) -> (v: Vec<bool>)
    ensures
        v@ == Seq::new(n as nat, |i: int| false),
{
    let mut v: Vec<bool> = Vec::new();
    let mut k: usize = 0;
    while k < n
        invariant
            k <= n,
            v@ == Seq::new(k as nat, |i: int| false),
        decreases n - k,
    {
        v.push(false);
        k = k + 1;
    }
    v
}

/// Cutting nodes off keeps neighbour ids in range and edges symmetric, and
/// nodes reachable from a non-separator node are non-separator nodes.
pub proof fn lemma_restrict(adj: Seq<Set<usize>>, sep: Set<usize>)
    requires
        in_range(adj),
        is_symmetric(adj),
    ensures
        in_range(restrict(adj, sep)),
        is_symmetric(restrict(adj, sep)),
        forall|s: usize, x: usize|
            s < adj.len() && !sep.contains(s) && #[trigger] reachable(restrict(adj, sep), s, x)
                ==> !sep.contains(x),
{
    let g = restrict(adj, sep);
    assert forall|u: int, v: usize| 0 <= u < g.len() && #[trigger] g[u].contains(v) implies v < g.len()
        && g[v as int].contains(u as usize) by {
        assert(adj[u].contains(v));
    }
    assert forall|s: usize, x: usize|
        s < adj.len() && !sep.contains(s) && #[trigger] reachable(g, s, x) implies !sep.contains(x) by {
        let m = Set::new(|y: usize| !sep.contains(y));
        assert forall|u: usize, w: usize| m.contains(u) && u < g.len() && #[trigger] g[u as int].contains(w)
            implies m.contains(w) by {}
        lemma_closed_set_holds_reachable(g, m, s, x);
    }
}

/// The number of `false` entries.
pub open spec fn count_unused(s: Seq<bool>) -> nat
    decreases s.len(),
{
    if s.len() == 0 {
        0
    } else {
        count_unused(s.drop_last()) + if s.last() {
            0nat
        } else {
            1nat
        }
    }
}

/// Setting a `false` entry to `true` leaves one fewer `false` entry.
pub proof fn lemma_count_unused_set(s: Seq<bool>, i: int)
    requires
        0 <= i < s.len(),
        !s[i],
    ensures
        count_unused(s.update(i, true)) + 1 == count_unused(s),
    decreases s.len(),
{
    let t = s.update(i, true);
    if i == s.len() - 1 {
        assert(t.drop_last() =~= s.drop_last());
    } else {
        assert(t.drop_last() =~= s.drop_last().update(i, true));
        lemma_count_unused_set(s.drop_last(), i);
    }
}

impl Graph {
    /// The connected components of the graph once the nodes of `separator`
    /// are cut off, one map per component, in the order of their smallest
    /// node. A component's map lists, for each of its nodes that has
    /// neighbours outside the separator, those neighbours; a component of a
    /// single node gives an empty map.
    pub fn get_subgraphs_map(&self, separator: &NodeSet) -> (r: Vec<AdjMap>)
        requires
            in_range(self@),
            is_symmetric(self@),
        ensures
            r@.len() == component_roots(restrict(self@, separator@), separator@, self@.len()).len(),
            forall|k: int|
                0 <= k < r@.len() ==> is_component_map(
                    restrict(self@, separator@),
                    #[trigger] component_roots(restrict(self@, separator@), separator@, self@.len())[k],
                    r@[k]@,
                ),
    {
        let ghost adj = self@;
        let ghost sep = separator@;
        let ghost g = restrict(adj, sep);
        proof {
            lemma_restrict(adj, sep);
        }
        let n = self.data.len();
        let mut used = all_false(n);
        let mut subgraphs: Vec<AdjMap> = Vec::new();
        let mut i: usize = 0;
        while i < n
            invariant
                adj == self@,
                sep == separator@,
                g == restrict(adj, sep),
                n == adj.len(),
                in_range(adj),
                is_symmetric(adj),
                in_range(g),
                is_symmetric(g),
                forall|s: usize, x: usize|
                    s < adj.len() && !sep.contains(s) && #[trigger] reachable(g, s, x) ==> !sep.contains(x),
                i <= n,
                used@.len() == n,
                forall|x: usize|
                    x < n ==> (#[trigger] used@[x as int] <==> exists|j: usize|
                        j < i && !sep.contains(j) && #[trigger] reachable(g, j, x)),
                subgraphs@.len() == component_roots(g, sep, i as nat).len(),
                forall|k: int|
                    0 <= k < subgraphs@.len() ==> is_component_map(
                        g,
                        #[trigger] component_roots(g, sep, i as nat)[k],
                        subgraphs@[k]@,
                    ),
            decreases n - i,
        {
            let ghost roots_before = component_roots(g, sep, i as nat);
            if used[i] || separator.contains(i) {
                proof {
                    assert(!is_component_root(g, sep, i)) by {
                        if used@[i as int] && !sep.contains(i) {
                            let j = choose|j: usize| j < i && !sep.contains(j) && #[trigger] reachable(g, j, i);
                            lemma_reach_symmetric(g, j, i);
                        }
                    }
                    assert(component_roots(g, sep, (i + 1) as nat) == roots_before);
                    assert forall|x: usize| x < n implies (#[trigger] used@[x as int] <==> exists|j: usize|
                        j < i + 1 && !sep.contains(j) && #[trigger] reachable(g, j, x)) by {
                        if exists|j: usize| j < i + 1 && !sep.contains(j) && #[trigger] reachable(g, j, x) {
                            let j = choose|j: usize| j < i + 1 && !sep.contains(j) && #[trigger] reachable(g, j, x);
                            if j == i {
                                let j0 = choose|j0: usize| j0 < i && !sep.contains(j0) && #[trigger] reachable(g, j0, i);
                                lemma_reach_trans(g, j0, i, x);
                            }
                        }
                    }
                }
                i = i + 1;
                continue;
            }
            // `i` starts a new component
            let ghost used0 = used@;
            proof {
                assert(is_component_root(g, sep, i)) by {
                    assert forall|j: usize| j < i implies !#[trigger] reachable(g, i, j) by {
                        if reachable(g, i, j) {
                            lemma_reach_symmetric(g, i, j);
                            assert(!sep.contains(j));
                        }
                    }
                }
                assert forall|x: usize| x < n && #[trigger] reachable(g, i, x) implies !used0[x as int] by {
                    if used0[x as int] {
                        let j = choose|j: usize| j < i && !sep.contains(j) && #[trigger] reachable(g, j, x);
                        lemma_reach_symmetric(g, i, x);
                        lemma_reach_trans(g, j, x, i);
                    }
                }
                lemma_reach_self(g, i);
            }
            let mut subgraph = AdjMap::new();
            let mut q: Vec<usize> = Vec::new();
            q.push(i);
            used.set(i, true);
            proof {
                assert(q@ =~= seq![i]);
                assert(q@[0] == i);
                assert(q@.contains(i));
                assert forall|u: usize| u < n && #[trigger] used@[u as int] && !used0[u as int] implies u == i by {}
            }
            while q.len() > 0
                invariant
                    adj == self@,
                    sep == separator@,
                    g == restrict(adj, sep),
                    n == adj.len(),
                    in_range(g),
                    is_symmetric(g),
                    forall|s: usize, x: usize|
                        s < adj.len() && !sep.contains(s) && #[trigger] reachable(g, s, x) ==> !sep.contains(x),
                    in_range(adj),
                    i < n,
                    !sep.contains(i),
                    used@.len() == n,
                    used0.len() == n,
                    used@[i as int],
                    forall|x: usize| x < n && #[trigger] reachable(g, i, x) ==> !used0[x as int],
                    forall|x: usize| x < n && #[trigger] used0[x as int] ==> used@[x as int],
                    forall|x: usize|
                        x < n && #[trigger] used@[x as int] && !used0[x as int] ==> reachable(g, i, x),
                    q@.no_duplicates(),
                    forall|t: int|
                        0 <= t < q@.len() ==> #[trigger] q@[t] < n && used@[q@[t] as int] && !used0[q@[t] as int],
                    forall|u: usize|
                        u < n && #[trigger] used@[u as int] && !used0[u as int] && !q@.contains(u) ==> {
                            &&& (forall|v: usize| #[trigger] g[u as int].contains(v) ==> used@[v as int])
                            &&& (g[u as int] != Set::<usize>::empty() ==> subgraph@.dom().contains(u)
                                && subgraph@[u].to_set() == g[u as int])
                        },
                    forall|x: usize|
                        #[trigger] subgraph@.dom().contains(x) ==> {
                            &&& x < n
                            &&& used@[x as int]
                            &&& !used0[x as int]
                            &&& subgraph@[x].no_duplicates()
                            &&& subgraph@[x].len() > 0
                            &&& subgraph@[x].to_set().subset_of(g[x as int])
                        },
                decreases count_unused(used@), q@.len(),
            {
                let ghost c0 = count_unused(used@);
                let ghost q_full = q@;
                let u = q.pop().unwrap();
                let ghost qp = q@.len();
                proof {
                    assert(q_full =~= q@.push(u));
                    assert forall|w: usize| w != u && #[trigger] q_full.contains(w) implies q@.contains(w) by {
                        let t = choose|t: int| 0 <= t < q_full.len() && q_full[t] == w;
                        if t < q@.len() {
                            assert(q@[t] == w);
                        }
                    }
                    assert(q_full.contains(u)) by {
                        assert(q_full[q@.len() as int] == u);
                    }
                    assert(q@.no_duplicates());
                    assert(!q@.contains(u)) by {
                        let q0 = q@.push(u);
                        if q@.contains(u) {
                            let t = choose|t: int| 0 <= t < q@.len() && q@[t] == u;
                            assert(q0[t] == q0[q@.len() as int]);
                        }
                    }
                }
                let nbrs = self.data[u].to_vec();
                let mut j: usize = 0;
                while j < nbrs.len()
                    invariant
                        adj == self@,
                        sep == separator@,
                        g == restrict(adj, sep),
                        n == adj.len(),
                        in_range(adj),
                        in_range(g),
                        is_symmetric(g),
                        forall|s: usize, x: usize|
                            s < adj.len() && !sep.contains(s) && #[trigger] reachable(g, s, x) ==> !sep.contains(x),
                        i < n,
                        !sep.contains(i),
                        u < n,
                        used@.len() == n,
                        used0.len() == n,
                        used@[i as int],
                        used@[u as int],
                        !used0[u as int],
                        reachable(g, i, u),
                        !q@.contains(u),
                        nbrs@.to_set() == adj[u as int],
                        j <= nbrs@.len(),
                        count_unused(used@) + q@.len() == c0 + qp,
                        q@.len() >= qp,
                        forall|x: usize| x < n && #[trigger] reachable(g, i, x) ==> !used0[x as int],
                        forall|x: usize| x < n && #[trigger] used0[x as int] ==> used@[x as int],
                        forall|x: usize|
                            x < n && #[trigger] used@[x as int] && !used0[x as int] ==> reachable(g, i, x),
                        q@.no_duplicates(),
                        forall|t: int|
                            0 <= t < q@.len() ==> #[trigger] q@[t] < n && used@[q@[t] as int] && !used0[q@[t] as int],
                        forall|w: usize|
                            w < n && w != u && #[trigger] used@[w as int] && !used0[w as int] && !q@.contains(w) ==> {
                                &&& (forall|v: usize| #[trigger] g[w as int].contains(v) ==> used@[v as int])
                                &&& (g[w as int] != Set::<usize>::empty() ==> subgraph@.dom().contains(w)
                                    && subgraph@[w].to_set() == g[w as int])
                            },
                        forall|x: usize|
                            #[trigger] subgraph@.dom().contains(x) ==> {
                                &&& x < n
                                &&& used@[x as int]
                                &&& !used0[x as int]
                                &&& subgraph@[x].no_duplicates()
                                &&& subgraph@[x].len() > 0
                                &&& subgraph@[x].to_set().subset_of(g[x as int])
                            },
                        forall|t: int|
                            0 <= t < j && !sep.contains(#[trigger] nbrs@[t]) ==> used@[nbrs@[t] as int]
                                && subgraph@.dom().contains(u) && subgraph@[u].contains(nbrs@[t]),
                    decreases nbrs.len() - j,
                {
                    let v = nbrs[j];
                    let ghost used_start = used@;
                    proof {
                        assert(nbrs@.to_set().contains(v));
                        assert(adj[u as int].contains(v));
                        assert(!sep.contains(u));
                    }
                    if !separator.contains(v) {
                        proof {
                            assert(g[u as int].contains(v));
                            lemma_reach_step(g, i, u, v);
                            assert(g[v as int].contains(u));
                        }
                        if !used[v] {
                            proof {
                                lemma_push_fresh_usize(q@, v);
                                lemma_count_unused_set(used@, v as int);
                            }
                            q.push(v);
                            used.set(v, true);
                        }
                        let ghost m0 = subgraph@;
                        add_to_list(&mut subgraph, u, v);
                        let ghost m1 = subgraph@;
                        add_to_list(&mut subgraph, v, u);
                        proof {
                            let m2 = subgraph@;
                            assert forall|x: usize| #[trigger] m2.dom().contains(x) implies {
                                &&& x < n
                                &&& used@[x as int]
                                &&& !used0[x as int]
                                &&& m2[x].no_duplicates()
                                &&& m2[x].len() > 0
                                &&& m2[x].to_set().subset_of(g[x as int])
                            } by {
                                if x != u && x != v {
                                    assert(m2[x] == m0[x]);
                                } else {
                                    lemma_listed(m0, u, v, x);
                                    lemma_listed(m1, v, u, x);
                                }
                            }
                            assert forall|w: usize|
                                w < n && w != u && #[trigger] used@[w as int] && !used0[w as int] && !q@.contains(w) implies {
                                    &&& (forall|y: usize| #[trigger] g[w as int].contains(y) ==> used@[y as int])
                                    &&& (g[w as int] != Set::<usize>::empty() ==> m2.dom().contains(w)
                                        && m2[w].to_set() == g[w as int])
                                } by {
                                if w == v {
                                    lemma_listed(m1, v, u, w);
                                    if m1.dom().contains(v) {
                                        assert(m2[v].to_set() =~= m1[v].to_set().insert(u));
                                    }
                                } else {
                                    assert(m2[w] == m0[w]);
                                }
                            }
                            assert forall|t: int|
                                0 <= t < j + 1 && !sep.contains(#[trigger] nbrs@[t]) implies used@[nbrs@[t] as int]
                                    && m2.dom().contains(u) && m2[u].contains(nbrs@[t]) by {
                                lemma_listed(m0, u, v, u);
                                if u == v {
                                    lemma_listed(m1, v, u, u);
                                } else {
                                    lemma_listed(m1, v, u, u);
                                    assert(m2[u] == m1[u]);
                                }
                                if t < j {
                                    assert(m0[u].contains(nbrs@[t]));
                                    assert(m1[u].contains(nbrs@[t]));
                                    assert(used_start[nbrs@[t] as int]);
                                    assert(nbrs@.to_set().contains(nbrs@[t]));
                                    assert(nbrs@[t] < n);
                                    assert(used@ == used_start || used@ == used_start.update(v as int, true));
                                } else {
                                    assert(nbrs@[t] == v);
                                    assert(m1[u].contains(v));
                                }
                            }
                        }
                    }
                    j = j + 1;
                }
                proof {
                    assert forall|w: usize|
                        w < n && #[trigger] used@[w as int] && !used0[w as int] && !q@.contains(w) implies {
                            &&& (forall|v: usize| #[trigger] g[w as int].contains(v) ==> used@[v as int])
                            &&& (g[w as int] != Set::<usize>::empty() ==> subgraph@.dom().contains(w)
                                && subgraph@[w].to_set() == g[w as int])
                        } by {
                        if w == u {
                            assert forall|v: usize| #[trigger] g[w as int].contains(v) implies used@[v as int] by {
                                assert(adj[u as int].contains(v));
                                assert(nbrs@.to_set().contains(v));
                                let t = choose|t: int| 0 <= t < nbrs@.len() && nbrs@[t] == v;
                            }
                            if g[w as int] != Set::<usize>::empty() {
                                assert(exists|y: usize| g[w as int].contains(y)) by {
                                    if !(exists|y: usize| g[w as int].contains(y)) {
                                        assert(g[w as int] =~= Set::<usize>::empty());
                                    }
                                }
                                let v = choose|y: usize| g[w as int].contains(y);
                                assert(nbrs@.to_set().contains(v));
                                let t = choose|t: int| 0 <= t < nbrs@.len() && nbrs@[t] == v;
                                assert(subgraph@.dom().contains(u));
                                assert forall|y: usize| subgraph@[u].to_set().contains(y) <==> g[u as int].contains(y) by {
                                    if g[u as int].contains(y) {
                                        assert(nbrs@.to_set().contains(y));
                                        let t2 = choose|t2: int| 0 <= t2 < nbrs@.len() && nbrs@[t2] == y;
                                        assert(subgraph@[u].contains(nbrs@[t2]));
                                    }
                                }
                                assert(subgraph@[u].to_set() =~= g[u as int]);
                            }
                        }
                    }
                }
            }
            proof {
                let m = Set::new(|x: usize| x < n && used@[x as int] && !used0[x as int]);
                assert forall|u: usize, w: usize| m.contains(u) && u < g.len() && #[trigger] g[u as int].contains(w)
                    implies m.contains(w) by {
                    assert(!q@.contains(u));
                    assert(used@[w as int]);
                    lemma_reach_step(g, i, u, w);
                }
                assert forall|x: usize| x < n && #[trigger] reachable(g, i, x) implies used@[x as int] && !used0[x as int] by {
                    lemma_closed_set_holds_reachable(g, m, i, x);
                }
                assert(is_component_root(g, sep, i)) by {
                    assert forall|j: usize| j < i implies !#[trigger] reachable(g, i, j) by {
                        if reachable(g, i, j) {
                            lemma_reach_symmetric(g, i, j);
                            assert(!sep.contains(j));
                        }
                    }
                }
                assert(component_roots(g, sep, (i + 1) as nat) == roots_before.push(i));
                assert forall|u: usize|
                    #[trigger] subgraph@.dom().contains(u) <==> (reachable(g, i, u) && g[u as int] != Set::<usize>::empty()) by {
                    if subgraph@.dom().contains(u) {
                        let y = subgraph@[u][0];
                        assert(subgraph@[u].to_set().contains(y));
                        assert(g[u as int].contains(y));
                    }
                    if reachable(g, i, u) && g[u as int] != Set::<usize>::empty() {
                        assert(u < n);
                        assert(!q@.contains(u));
                    }
                }
                assert forall|u: usize| #[trigger] subgraph@.dom().contains(u) implies subgraph@[u].no_duplicates()
                    && subgraph@[u].to_set() == g[u as int] by {
                    assert(!q@.contains(u));
                    let y = subgraph@[u][0];
                    assert(subgraph@[u].to_set().contains(y));
                }
                assert(is_component_map(g, i, subgraph@));
                assert forall|x: usize| x < n implies (#[trigger] used@[x as int] <==> exists|j: usize|
                    j < i + 1 && !sep.contains(j) && #[trigger] reachable(g, j, x)) by {
                    if used@[x as int] && !used0[x as int] {
                        assert(reachable(g, i, x));
                    }
                    if exists|j: usize| j < i + 1 && !sep.contains(j) && #[trigger] reachable(g, j, x) {
                        let j = choose|j: usize| j < i + 1 && !sep.contains(j) && #[trigger] reachable(g, j, x);
                        if j < i {
                            assert(used0[x as int]);
                        }
                    }
                    if used0[x as int] {
                        let j = choose|j: usize| j < i && !sep.contains(j) && #[trigger] reachable(g, j, x);
                    }
                }
            }
            subgraphs.push(subgraph);
            proof {
                let roots = component_roots(g, sep, (i + 1) as nat);
                assert forall|k: int| 0 <= k < subgraphs@.len() implies is_component_map(
                    g,
                    #[trigger] roots[k],
                    subgraphs@[k]@,
                ) by {
                    if k < subgraphs@.len() - 1 {
                        assert(roots[k] == roots_before[k]);
                    }
                }
            }
            i = i + 1;
        }
        subgraphs
    }
}

/// Every id that a list of `m` names is a key of `m`.
pub open spec fn lists_keys_only(m: Map<usize, Seq<usize>>) -> bool {
    forall|a: usize, t: int|
        #[trigger] m.dom().contains(a) && 0 <= t < m[a].len() ==> m.dom().contains(#[trigger] m[a][t])
}

/// `adj` is the graph of `m` with its keys renamed by `f` to `0..n`: `f` is a
/// bijection from the keys onto the node ids, and the neighbours of `f[a]`
/// are the renamed ids that `a` lists.
pub open spec fn is_relabelling(m: Map<usize, Seq<usize>>, f: Map<usize, usize>, adj: Seq<Set<usize>>) -> bool {
    &&& f.dom() == m.dom()
    &&& adj.len() == m.dom().len()
    &&& forall|a: usize| #[trigger] f.dom().contains(a) ==> f[a] < adj.len()
    &&& forall|a: usize, b: usize|
        #[trigger] f.dom().contains(a) && #[trigger] f.dom().contains(b) && a != b ==> f[a] != f[b]
    &&& forall|a: usize, y: usize|
        f.dom().contains(a) ==> (#[trigger] adj[f[a] as int].contains(y) <==> exists|t: int|
            0 <= t < m[a].len() && #[trigger] f[m[a][t]] == y)
}

/// A set inside a finite set, missing one of its elements, is smaller.
pub proof fn lemma_proper_subset_len(a: Set<usize>, b: Set<usize>, x: usize)
    requires
        b.finite(),
        a.subset_of(b),
        b.contains(x),
        !a.contains(x),
    ensures
        a.len() < b.len(),
        a.finite(),
{
    vstd::set_lib::lemma_len_subset(a.insert(x), b);
    vstd::set_lib::lemma_len_subset(a, b);
}

/// The keys of `f` are numbered `0..n` without repeats.
pub open spec fn is_numbering(f: Map<usize, usize>) -> bool {
    &&& f.dom().finite()
    &&& forall|a: usize| #[trigger] f.dom().contains(a) ==> f[a] < f.dom().len()
    &&& forall|a: usize, b: usize|
        #[trigger] f.dom().contains(a) && #[trigger] f.dom().contains(b) && a != b ==> f[a] != f[b]
}

/// The number of `key`, giving it the next free number if it has none.
pub fn get_or_assign(mapping: &mut UsizeMap, key: usize) -> (id: usize)
    requires
        is_numbering(old(mapping)@),
        !old(mapping)@.dom().contains(key) ==> old(mapping)@.dom().len() < usize::MAX,
    ensures
        is_numbering(final(mapping)@),
        old(mapping)@.dom().contains(key) ==> final(mapping)@ == old(mapping)@,
        !old(mapping)@.dom().contains(key) ==> final(mapping)@ == old(mapping)@.insert(key, id)
            && id == old(mapping)@.dom().len(),
        final(mapping)@.dom().contains(key),
        final(mapping)@[key] == id,
{
    match mapping.get(key) {
        Some(x) => x,
        None => {
            let id = mapping.len();
            mapping.insert(key, id);
            proof {
                let f = mapping@;
                assert(f.dom() =~= old(mapping)@.dom().insert(key));
                assert(f.dom().len() == id + 1);
            }
            id
        },
    }
}

/// The graph of a map of lists, its keys renamed to `0..n` in the order in
/// which the map hands them out.
pub fn get_graph(g_map: &AdjMap) -> (g: Graph)
    requires
        lists_keys_only(g_map@),
    ensures
        exists|f: Map<usize, usize>| is_relabelling(g_map@, f, g@),
{
    get_graph_and_mapping(g_map).0
}

/// The graph of a map of lists as [`get_graph`] builds it, and the renaming:
/// the new number of each key.
pub fn get_graph_and_mapping(g_map: &AdjMap) -> (r: (Graph, UsizeMap))
    requires
        lists_keys_only(g_map@),
    ensures
        is_relabelling(g_map@, r.1@, r.0@),
{
    let ghost m = g_map@;
    let keys = g_map.keys();
    let ghost ks = keys@;
    let count = g_map.len();
    proof {
        ks.unique_seq_to_set();
        assert(m.dom().finite());
    }
    let mut mapping = UsizeMap::new();
    let mut data: Vec<Vec<usize>> = Vec::new();
    let mut k: usize = 0;
    while k < count
        invariant
            k <= count,
            data@.len() == k,
            forall|t: int| 0 <= t < k ==> (#[trigger] data@[t])@ == Seq::<usize>::empty(),
        decreases count - k,
    {
        data.push(Vec::new());
        k = k + 1;
    }
    proof {
        assert(mapping@.dom() =~= Set::<usize>::empty());
    }
    let mut k: usize = 0;
    while k < keys.len()
        invariant
            m == g_map@,
            ks == keys@,
            ks.no_duplicates(),
            ks.to_set() == m.dom(),
            m.dom().finite(),
            count == m.dom().len(),
            lists_keys_only(m),
            k <= ks.len(),
            data@.len() == count,
            is_numbering(mapping@),
            mapping@.dom().subset_of(m.dom()),
            forall|t: int| 0 <= t < k ==> mapping@.dom().contains(#[trigger] ks[t]),
            forall|t: int, s: int|
                0 <= t < k && 0 <= s < m[ks[t]].len() ==> mapping@.dom().contains(#[trigger] m[ks[t]][s]),
            forall|t: int, y: usize|
                0 <= t < k ==> (#[trigger] data@[mapping@[ks[t]] as int]@.contains(y) <==> exists|s: int|
                    0 <= s < m[ks[t]].len() && #[trigger] mapping@[m[ks[t]][s]] == y),
            forall|x: int|
                0 <= x < count && (forall|t: int| 0 <= t < k ==> mapping@[#[trigger] ks[t]] != x) ==> (
                #[trigger] data@[x])@ == Seq::<usize>::empty(),
        decreases ks.len() - k,
    {
        let from = keys[k];
        let ghost f0 = mapping@;
        let ghost d0 = data@;
        proof {
            assert(ks.to_set().contains(from));
            vstd::set_lib::lemma_len_subset(mapping@.dom(), m.dom());
            if !mapping@.dom().contains(from) {
                lemma_proper_subset_len(mapping@.dom(), m.dom(), from);
            }
        }
        let to_nodes = match g_map.get(from) {
            Some(l) => l,
            None => Vec::new(),
        };
        let from_idx = get_or_assign(&mut mapping, from);
        proof {
            vstd::set_lib::lemma_len_subset(mapping@.dom(), m.dom());
            // `from` was not handled before: its list in `data` is empty
            assert forall|t: int| 0 <= t < k implies mapping@[#[trigger] ks[t]] != from_idx by {
                assert(ks[t] != from) by {
                    assert(ks[k as int] == from);
                }
                assert(f0.dom().contains(ks[t]));
            }
        }
        let mut j: usize = 0;
        while j < to_nodes.len()
            invariant
                m == g_map@,
                ks == keys@,
                ks.no_duplicates(),
                ks.to_set() == m.dom(),
                m.dom().finite(),
                count == m.dom().len(),
                lists_keys_only(m),
                k < ks.len(),
                from == ks[k as int],
                m.dom().contains(from),
                to_nodes@ == m[from],
                j <= to_nodes@.len(),
                data@.len() == count,
                is_numbering(mapping@),
                mapping@.dom().subset_of(m.dom()),
                f0.dom().subset_of(mapping@.dom()),
                forall|a: usize| #[trigger] f0.dom().contains(a) ==> mapping@[a] == f0[a],
                mapping@.dom().contains(from),
                mapping@[from] == from_idx,
                from_idx < count,
                forall|t: int| 0 <= t < k ==> mapping@[#[trigger] ks[t]] != from_idx,
                forall|t: int| 0 <= t < k ==> f0.dom().contains(#[trigger] ks[t]),
                forall|t: int, s: int|
                    0 <= t < k && 0 <= s < m[ks[t]].len() ==> f0.dom().contains(#[trigger] m[ks[t]][s]),
                forall|s: int| 0 <= s < j ==> mapping@.dom().contains(#[trigger] m[from][s]),
                forall|t: int, y: usize|
                    0 <= t < k ==> (#[trigger] data@[f0[ks[t]] as int]@.contains(y) <==> exists|s: int|
                        0 <= s < m[ks[t]].len() && #[trigger] f0[m[ks[t]][s]] == y),
                forall|y: usize|
                    #[trigger] data@[from_idx as int]@.contains(y) <==> exists|s: int|
                        0 <= s < j && #[trigger] mapping@[m[from][s]] == y,
                forall|x: int|
                    0 <= x < count && x != from_idx && (forall|t: int| 0 <= t < k ==> f0[#[trigger] ks[t]] != x)
                        ==> (#[trigger] data@[x])@ == Seq::<usize>::empty(),
            decreases to_nodes.len() - j,
        {
            let to = to_nodes[j];
            let ghost fm = mapping@;
            proof {
                assert(m.dom().contains(m[from][j as int]));
                vstd::set_lib::lemma_len_subset(mapping@.dom(), m.dom());
                if !mapping@.dom().contains(to) {
                    lemma_proper_subset_len(mapping@.dom(), m.dom(), to);
                }
            }
            let to_idx = get_or_assign(&mut mapping, to);
            let ghost dj = data@;
            data[from_idx].push(to_idx);
            proof {
                assert(forall|x: int| 0 <= x < count && x != from_idx ==> data@[x] == dj[x]);
                assert forall|a: usize| #[trigger] fm.dom().contains(a) implies mapping@[a] == fm[a] by {}
                assert forall|y: usize|
                    #[trigger] data@[from_idx as int]@.contains(y) <==> exists|s: int|
                        0 <= s < j + 1 && #[trigger] mapping@[m[from][s]] == y by {
                    assert(data@[from_idx as int]@ == dj[from_idx as int]@.push(to_idx));
                    if data@[from_idx as int]@.contains(y) {
                        let i2 = choose|i2: int| 0 <= i2 < data@[from_idx as int]@.len() && data@[from_idx as int]@[i2] == y;
                        if i2 < dj[from_idx as int]@.len() {
                            assert(dj[from_idx as int]@.contains(y));
                            let s = choose|s: int| 0 <= s < j && #[trigger] fm[m[from][s]] == y;
                            assert(mapping@[m[from][s]] == y);
                        } else {
                            assert(mapping@[m[from][j as int]] == y);
                        }
                    }
                    if exists|s: int| 0 <= s < j + 1 && #[trigger] mapping@[m[from][s]] == y {
                        let s = choose|s: int| 0 <= s < j + 1 && #[trigger] mapping@[m[from][s]] == y;
                        if s < j {
                            assert(fm[m[from][s]] == y);
                            assert(dj[from_idx as int]@.contains(y));
                            let i2 = choose|i2: int| 0 <= i2 < dj[from_idx as int]@.len() && dj[from_idx as int]@[i2] == y;
                            assert(data@[from_idx as int]@[i2] == y);
                        } else {
                            assert(data@[from_idx as int]@[dj[from_idx as int]@.len() as int] == y);
                        }
                    }
                }
            }
            j = j + 1;
        }
        proof {
            assert forall|t: int| 0 <= t < k + 1 implies mapping@.dom().contains(#[trigger] ks[t]) by {}
            assert forall|t: int, s: int|
                0 <= t < k + 1 && 0 <= s < m[ks[t]].len() implies mapping@.dom().contains(#[trigger] m[ks[t]][s]) by {}
            assert forall|t: int, y: usize|
                0 <= t < k + 1 implies (#[trigger] data@[mapping@[ks[t]] as int]@.contains(y) <==> exists|s: int|
                    0 <= s < m[ks[t]].len() && #[trigger] mapping@[m[ks[t]][s]] == y) by {
                if t < k {
                    assert(mapping@[ks[t]] == f0[ks[t]]);
                    assert forall|s: int| 0 <= s < m[ks[t]].len() implies mapping@[#[trigger] m[ks[t]][s]] == f0[m[ks[t]][s]] by {}
                    if exists|s: int| 0 <= s < m[ks[t]].len() && #[trigger] mapping@[m[ks[t]][s]] == y {
                        let s = choose|s: int| 0 <= s < m[ks[t]].len() && #[trigger] mapping@[m[ks[t]][s]] == y;
                        assert(f0[m[ks[t]][s]] == y);
                    }
                    if exists|s: int| 0 <= s < m[ks[t]].len() && #[trigger] f0[m[ks[t]][s]] == y {
                        let s = choose|s: int| 0 <= s < m[ks[t]].len() && #[trigger] f0[m[ks[t]][s]] == y;
                        assert(mapping@[m[ks[t]][s]] == y);
                    }
                } else {
                    assert(to_nodes@.len() == m[ks[t]].len());
                }
            }
            assert forall|x: int|
                0 <= x < count && (forall|t: int| 0 <= t < k + 1 ==> mapping@[#[trigger] ks[t]] != x) implies (
                #[trigger] data@[x])@ == Seq::<usize>::empty() by {
                assert(mapping@[ks[k as int]] != x);
                assert forall|t: int| 0 <= t < k implies f0[#[trigger] ks[t]] != x by {
                    assert(mapping@[ks[t]] != x);
                }
            }
        }
        k = k + 1;
    }
    let ghost f = mapping@;
    proof {
        assert(f.dom() =~= m.dom()) by {
            assert forall|a: usize| m.dom().contains(a) implies f.dom().contains(a) by {
                assert(ks.to_set().contains(a));
                let t = choose|t: int| 0 <= t < ks.len() && ks[t] == a;
            }
        }
    }
    let g = Graph::new(data);
    proof {
        assert forall|a: usize, y: usize| f.dom().contains(a) implies (#[trigger] g@[f[a] as int].contains(y)
            <==> exists|t: int| 0 <= t < m[a].len() && #[trigger] f[m[a][t]] == y) by {
            assert(ks.to_set().contains(a));
            let t = choose|t: int| 0 <= t < ks.len() && ks[t] == a;
            assert(g@[f[a] as int] == data@[f[a] as int]@.to_set());
        }
        assert(is_relabelling(m, f, g@));
    }
    (g, mapping)
}

/// The position of the map with the most keys, the last such.
pub fn last_largest_map(maps: &Vec<AdjMap>) -> (i: usize)
    requires
        maps@.len() > 0,
    ensures
        i < maps@.len(),
        forall|j: int| 0 <= j < maps@.len() ==> (#[trigger] maps@[j])@.dom().len() <= maps@[i as int]@.dom().len(),
        forall|j: int| i < j < maps@.len() ==> (#[trigger] maps@[j])@.dom().len() < maps@[i as int]@.dom().len(),
{
    let mut best: usize = 0;
    let mut k: usize = 1;
    while k < maps.len()
        invariant
            maps@.len() > 0,
            1 <= k <= maps@.len(),
            best < k,
            forall|j: int| 0 <= j < k ==> (#[trigger] maps@[j])@.dom().len() <= maps@[best as int]@.dom().len(),
            forall|j: int| best < j < k ==> (#[trigger] maps@[j])@.dom().len() < maps@[best as int]@.dom().len(),
        decreases maps.len() - k,
    {
        if maps[k].len() >= maps[best].len() {
            best = k;
        }
        k = k + 1;
    }
    best
}

/// The nodes of the component of `root` that have neighbours.
pub open spec fn component_nodes(g: Seq<Set<usize>>, root: usize) -> Set<usize> {
    Set::new(|u: usize| reachable(g, root, u) && g[u as int] != Set::<usize>::empty())
}

/// `h` is the graph of the component of `root`, its nodes renamed to `0..n`.
pub open spec fn is_component_graph(g: Seq<Set<usize>>, root: usize, h: Seq<Set<usize>>) -> bool {
    exists|m: Map<usize, Seq<usize>>, f: Map<usize, usize>|
        is_component_map(g, root, m) && is_relabelling(m, f, h)
}

/// `gs[k]` is a renamed graph of the component of `roots[k]`.
pub open spec fn are_component_graphs(g: Seq<Set<usize>>, roots: Seq<usize>, gs: Seq<Seq<Set<usize>>>) -> bool {
    &&& gs.len() == roots.len()
    &&& forall|k: int| 0 <= k < gs.len() ==> #[trigger] is_component_graph(g, roots[k], gs[k])
}

/// A component map of a symmetric graph lists only its own keys.
pub proof fn lemma_component_map_keys(g: Seq<Set<usize>>, root: usize, m: Map<usize, Seq<usize>>)
    requires
        in_range(g),
        is_symmetric(g),
        is_component_map(g, root, m),
    ensures
        lists_keys_only(m),
        m.dom() == component_nodes(g, root),
{
    assert forall|a: usize, t: int| #[trigger] m.dom().contains(a) && 0 <= t < m[a].len() implies m.dom().contains(
        #[trigger] m[a][t],
    ) by {
        let b = m[a][t];
        assert(m[a].to_set().contains(b));
        assert(g[a as int].contains(b));
        lemma_reach_step(g, root, a, b);
        assert(g[b as int].contains(a));
    }
    assert(m.dom() =~= component_nodes(g, root));
}

impl Graph {
    /// The components of the graph with the nodes of `separator` cut off, as
    /// graphs of their own (nodes renamed to `0..n`), in the order of their
    /// smallest node.
    pub fn get_subgraphs(&self, separator: &NodeSet) -> (r: Vec<Graph>)
        requires
            in_range(self@),
            is_symmetric(self@),
        ensures
            exists|gs: Seq<Seq<Set<usize>>>|
                {
                    &&& are_component_graphs(
                        restrict(self@, separator@),
                        component_roots(restrict(self@, separator@), separator@, self@.len()),
                        gs,
                    )
                    &&& r@.map_values(|h: Graph| h@) == gs
                },
    {
        let ghost g = restrict(self@, separator@);
        let ghost roots = component_roots(g, separator@, self@.len());
        proof {
            lemma_restrict(self@, separator@);
        }
        let maps = self.get_subgraphs_map(separator);
        let mut r: Vec<Graph> = Vec::new();
        let ghost mut gs: Seq<Seq<Set<usize>>> = Seq::empty();
        let mut k: usize = 0;
        while k < maps.len()
            invariant
                in_range(g),
                is_symmetric(g),
                maps@.len() == roots.len(),
                forall|t: int| 0 <= t < maps@.len() ==> is_component_map(g, #[trigger] roots[t], maps@[t]@),
                k <= maps@.len(),
                gs.len() == k,
                are_component_graphs(g, roots.take(k as int), gs),
                r@.map_values(|h: Graph| h@) == gs,
            decreases maps.len() - k,
        {
            proof {
                lemma_component_map_keys(g, roots[k as int], maps@[k as int]@);
            }
            let h = get_graph(&maps[k]);
            let ghost gs0 = gs;
            proof {
                gs = gs.push(h@);
                assert(gs.drop_last() =~= gs0);
                assert forall|t: int| 0 <= t < gs.len() implies #[trigger] is_component_graph(
                    g,
                    roots.take(k + 1)[t],
                    gs[t],
                ) by {
                    if t < k {
                        assert(gs[t] == gs0[t]);
                        assert(roots.take(k + 1)[t] == roots.take(k as int)[t]);
                        assert(is_component_graph(g, roots.take(k as int)[t], gs0[t]));
                    } else {
                        let f = choose|f: Map<usize, usize>| is_relabelling(maps@[k as int]@, f, h@);
                        assert(roots.take(k + 1)[t] == roots[k as int]);
                        assert(is_component_map(g, roots.take(k + 1)[t], maps@[k as int]@) && is_relabelling(
                            maps@[k as int]@,
                            f,
                            gs[t],
                        ));
                    }
                }
            }
            proof {
                assert(roots.take(k + 1).len() == k + 1);
                assert(are_component_graphs(g, roots.take(k + 1), gs));
            }
            let ghost r0 = r@;
            let ghost hv = h@;
            r.push(h);
            proof {
                assert(r@.map_values(|h: Graph| h@) =~= r0.map_values(|h: Graph| h@).push(hv));
            }
            k = k + 1;
        }
        proof {
            assert(roots.take(roots.len() as int) =~= roots);
        }
        r
    }
}

/// `h` is the largest of `hs` by node count, the last one where several are
/// largest.
pub open spec fn is_last_largest(hs: Seq<Seq<Set<usize>>>, h: Seq<Set<usize>>) -> bool {
    exists|i: int|
        {
            &&& 0 <= i < hs.len()
            &&& hs[i] == h
            &&& forall|j: int| 0 <= j < hs.len() ==> (#[trigger] hs[j]).len() <= h.len()
            &&& forall|j: int| i < j < hs.len() ==> (#[trigger] hs[j]).len() < h.len()
        }
}

impl Graph {
    /// The largest connected component (by its number of nodes that have
    /// neighbours) as a graph of its own, nodes renamed to `0..n`; the last
    /// such in the order of smallest nodes where several are largest. The
    /// graph must have an edge.
    pub fn largest_connected_component(&self) -> (r: Graph)
        requires
            in_range(self@),
            is_symmetric(self@),
            component_roots(restrict(self@, Set::<usize>::empty()), Set::<usize>::empty(), self@.len()).len() > 0,
        ensures
            exists|gs: Seq<Seq<Set<usize>>>|
                {
                    &&& are_component_graphs(
                        restrict(self@, Set::<usize>::empty()),
                        component_roots(restrict(self@, Set::<usize>::empty()), Set::<usize>::empty(), self@.len()),
                        gs,
                    )
                    &&& is_last_largest(gs, r@)
                },
    {
        let ghost g = restrict(self@, Set::<usize>::empty());
        let ghost roots = component_roots(g, Set::<usize>::empty(), self@.len());
        let empty = NodeSet::new();
        let subgraphs = self.get_subgraphs(&empty);
        let ghost gs = choose|gs: Seq<Seq<Set<usize>>>|
            are_component_graphs(g, roots, gs) && subgraphs@.map_values(|h: Graph| h@) == gs;
        let ghost hs = gs;
        proof {
            lemma_restrict(self@, Set::<usize>::empty());
            assert(subgraphs@.map_values(|h: Graph| h@).len() == subgraphs@.len());
            assert(crate::separator::views(subgraphs@) == hs);
        }
        crate::separator::last_largest(subgraphs)
    }
}

} // verus!
