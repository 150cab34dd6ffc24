//! Elimination trees of node orders, from which nested-dissection separator
//! sizes are read off.
use crate::graph::{edge_pairs, in_range, reachable, Graph};
use crate::components::count_unused;
use crate::reach::{lemma_reach_mono, lemma_reach_self, lemma_reach_step, lemma_reach_trans};
use vstd::prelude::*;

verus! {

/// `pos` inverts the order: `pos[order[i]] == i`, and `order` lists each of
/// the nodes `0..n` once.
pub open spec fn is_order_with_positions(order: Seq<usize>, pos: Seq<usize>, n: nat) -> bool {
    &&& order.len() == n
    &&& pos.len() == n
    &&& forall|i: int| 0 <= i < n ==> #[trigger] order[i] < n && pos[order[i] as int] == i
    &&& forall|v: int| 0 <= v < n ==> #[trigger] pos[v] < n && order[pos[v] as int] == v
}

/// For each node, the last position at which the order lists it (0 for a
/// node it does not list). The ids of the order must lie below its length.
pub fn get_positions_from_order(order: &[usize]) -> (pos: Vec<usize>)
    requires
        forall|i: int| 0 <= i < order@.len() ==> #[trigger] order@[i] < order@.len(),
    ensures
        pos@.len() == order@.len(),
        forall|v: int|
            0 <= v < order@.len() ==> {
                &&& (exists|i: int| 0 <= i < order@.len() && order@[i] == v) ==> {
                    &&& pos@[v] < order@.len()
                    &&& order@[#[trigger] pos@[v] as int] == v
                    &&& forall|j: int| pos@[v] < j < order@.len() ==> order@[j] != v
                }
                &&& !(exists|i: int| 0 <= i < order@.len() && order@[i] == v) ==> pos@[v] == 0
            },
{
    let n = order.len();
    let mut pos = crate::search::filled(n, 0);
    let mut i: usize = 0;
    while i < n
        invariant
            n == order@.len(),
            forall|k: int| 0 <= k < n ==> #[trigger] order@[k] < n,
            i <= n,
            pos@.len() == n,
            forall|v: int|
                0 <= v < n ==> {
                    &&& (exists|k: int| 0 <= k < i && order@[k] == v) ==> {
                        &&& pos@[v] < i
                        &&& order@[#[trigger] pos@[v] as int] == v
                        &&& forall|j: int| pos@[v] < j < i ==> order@[j] != v
                    }
                    &&& !(exists|k: int| 0 <= k < i && order@[k] == v) ==> pos@[v] == 0
                },
        decreases n - i,
    {
        let v = order[i];
        pos.set(v, i);
        proof {
            assert forall|w: int| 0 <= w < n implies {
                &&& (exists|k: int| 0 <= k < i + 1 && order@[k] == w) ==> {
                    &&& pos@[w] < i + 1
                    &&& order@[#[trigger] pos@[w] as int] == w
                    &&& forall|j: int| pos@[w] < j < i + 1 ==> order@[j] != w
                }
                &&& !(exists|k: int| 0 <= k < i + 1 && order@[k] == w) ==> pos@[w] == 0
            } by {
                if w != v {
                    if exists|k: int| 0 <= k < i + 1 && order@[k] == w {
                        let k = choose|k: int| 0 <= k < i + 1 && order@[k] == w;
                        assert(k < i);
                    }
                } else {
                    assert(order@[i as int] == w);
                }
            }
        }
        i = i + 1;
    }
    pos
}

/// The graph with each edge `u - v` directed from the node of smaller
/// position to the other (`u -> v` where `pos[u] < pos[v]`, else `v -> u`).
pub fn get_directed_graph(graph: &Graph, pos: &[usize]) -> (g: Graph)
    requires
        in_range(graph@),
        pos@.len() >= graph@.len(),
    ensures
        g@.len() == graph@.len(),
        forall|a: usize, b: usize|
            a < graph@.len() ==> (#[trigger] g@[a as int].contains(b) <==> ((graph@[a as int].contains(b)
                && pos@[a as int] < pos@[b as int]) || (b < graph@.len() && graph@[b as int].contains(a)
                && !(pos@[b as int] < pos@[a as int])))),
{
    let n = graph.get_num_nodes();
    let ghost adj = graph@;
    let mut g = Graph::with_node_count(n);
    let edges = graph.get_edges();
    let mut k: usize = 0;
    while k < edges.len()
        invariant
            n == adj.len(),
            in_range(adj),
            pos@.len() >= n,
            edges@.to_set() == edge_pairs(adj),
            g@.len() == n,
            k <= edges@.len(),
            forall|a: usize, b: usize|
                a < n ==> (#[trigger] g@[a as int].contains(b) <==> exists|t: int|
                    0 <= t < k && ((edges@[t] == (a, b) && pos@[a as int] < pos@[b as int]) || (edges@[t] == (
                    b,
                    a,
                ) && !(pos@[b as int] < pos@[a as int])))),
        decreases edges.len() - k,
    {
        let (u, v) = edges[k];
        assert(edges@.to_set().contains(edges@[k as int]));
        let ghost g0 = g@;
        if pos[u] < pos[v] {
            g.add_directed_edge(u, v);
        } else {
            g.add_directed_edge(v, u);
        }
        proof {
            assert forall|a: usize, b: usize| a < n implies (#[trigger] g@[a as int].contains(b) <==> exists|t: int|
                0 <= t < k + 1 && ((edges@[t] == (a, b) && pos@[a as int] < pos@[b as int]) || (edges@[t] == (
                b,
                a,
            ) && !(pos@[b as int] < pos@[a as int])))) by {
                if exists|t: int|
                    0 <= t < k + 1 && ((edges@[t] == (a, b) && pos@[a as int] < pos@[b as int]) || (edges@[t] == (
                    b,
                    a,
                ) && !(pos@[b as int] < pos@[a as int]))) {
                    let t = choose|t: int|
                        0 <= t < k + 1 && ((edges@[t] == (a, b) && pos@[a as int] < pos@[b as int]) || (edges@[t]
                            == (b, a) && !(pos@[b as int] < pos@[a as int])));
                    if t < k {
                        assert(g0[a as int].contains(b));
                    }
                }
            }
        }
        k = k + 1;
    }
    proof {
        assert forall|a: usize, b: usize| a < n implies (#[trigger] g@[a as int].contains(b) <==> ((adj[a as int].contains(b)
            && pos@[a as int] < pos@[b as int]) || (b < n && adj[b as int].contains(a) && !(pos@[b as int]
            < pos@[a as int])))) by {
            if adj[a as int].contains(b) && pos@[a as int] < pos@[b as int] {
                assert(edge_pairs(adj).contains((a, b)));
                assert(edges@.to_set().contains((a, b)));
                let t = choose|t: int| 0 <= t < edges@.len() && edges@[t] == (a, b);
            }
            if b < n && adj[b as int].contains(a) && !(pos@[b as int] < pos@[a as int]) {
                assert(edge_pairs(adj).contains((b, a)));
                assert(edges@.to_set().contains((b, a)));
                let t = choose|t: int| 0 <= t < edges@.len() && edges@[t] == (b, a);
            }
            if g@[a as int].contains(b) {
                let t = choose|t: int|
                    0 <= t < edges@.len() && ((edges@[t] == (a, b) && pos@[a as int] < pos@[b as int]) || (edges@[t]
                        == (b, a) && !(pos@[b as int] < pos@[a as int])));
                assert(edges@.to_set().contains(edges@[t]));
            }
        }
    }
    g
}

/// The node of `s` that comes first in the order, that is of smallest position.
pub open spec fn lowest(s: Set<usize>, pos: Seq<usize>) -> usize {
    choose|x: usize| s.contains(x) && forall|y: usize| s.contains(y) ==> pos[x as int] <= pos[y as int]
}

/// Eliminates node `v`: if its fill set is not empty, its lowest member `p`
/// becomes the parent of `v` in the tree and inherits the rest of the set;
/// the fill set of `v` is emptied.
pub open spec fn eliminate_node(
    state: (Seq<Set<usize>>, Seq<Set<usize>>),
    v: usize,
    pos: Seq<usize>,
) -> (Seq<Set<usize>>, Seq<Set<usize>>) {
    let fill = state.0;
    let tree = state.1;
    if fill[v as int] == Set::<usize>::empty() {
        state
    } else {
        let p = lowest(fill[v as int], pos);
        let cleared = fill.update(v as int, Set::<usize>::empty());
        (
            cleared.update(p as int, cleared[p as int].union(fill[v as int].remove(p))),
            tree.update(p as int, tree[p as int].insert(v)),
        )
    }
}

/// Fill sets and tree after eliminating the first `i` nodes of the order,
/// starting from the neighbour sets `g` and a tree without edges.
pub open spec fn eliminate(g: Seq<Set<usize>>, order: Seq<usize>, pos: Seq<usize>, i: nat) -> (
    Seq<Set<usize>>,
    Seq<Set<usize>>,
)
    decreases i,
{
    if i == 0 {
        (g, Seq::new(g.len(), |x: int| Set::<usize>::empty()))
    } else {
        eliminate_node(eliminate(g, order, pos, (i - 1) as nat), order[i - 1], pos)
    }
}

/// The elimination tree of the upward neighbour sets `g` under the order:
/// each edge goes from a parent to a child.
pub open spec fn elimination_tree(g: Seq<Set<usize>>, order: Seq<usize>, pos: Seq<usize>) -> Seq<
    Set<usize>,
> {
    eliminate(g, order, pos, g.len()).1
}

/// The lists `data` hold, as sets, the fill sets `fill`, all below `n`.
pub open spec fn lists_hold(data: Seq<Vec<usize>>, fill: Seq<Set<usize>>, n: nat) -> bool {
    &&& data.len() == n
    &&& fill.len() == n
    &&& forall|w: int| 0 <= w < n ==> (#[trigger] data[w])@.to_set() == fill[w]
    &&& forall|w: int, k: int| 0 <= w < n && 0 <= k < data[w]@.len() ==> #[trigger] data[w]@[k] < n
}

/// The position of the lowest member of a list; the list is not empty and
/// its members are nodes.
fn lowest_in_list(list: &Vec<usize>, pos: &[usize]) -> (p: usize)
    requires
        list@.len() > 0,
        forall|k: int| 0 <= k < list@.len() ==> #[trigger] list@[k] < pos@.len(),
    ensures
        list@.contains(p),
        forall|k: int| 0 <= k < list@.len() ==> pos@[p as int] <= pos@[#[trigger] list@[k] as int],
{
    let mut p = list[0];
    assert(list@.subrange(0, 1)[0] == p);
    let mut k: usize = 1;
    while k < list.len()
        invariant
            1 <= k <= list@.len(),
            forall|j: int| 0 <= j < list@.len() ==> #[trigger] list@[j] < pos@.len(),
            list@.subrange(0, k as int).contains(p),
            forall|j: int| 0 <= j < k ==> pos@[p as int] <= pos@[#[trigger] list@[j] as int],
        decreases list@.len() - k,
    {
        let x = list[k];
        assert(list@.subrange(0, k as int + 1)[k as int] == x);
        if pos[x] < pos[p] {
            p = x;
        }
        let ghost j0 = choose|j: int| 0 <= j < k && list@.subrange(0, k as int)[j] == p;
        assert(list@.subrange(0, k as int + 1).contains(p)) by {
            if p != x {
                assert(list@.subrange(0, k as int + 1)[j0] == p);
            }
        }
        k = k + 1;
    }
    assert(list@.subrange(0, list@.len() as int) =~= list@);
    p
}

/// The members of `list` other than `skip`, each once. `seen` marks with
/// `stamp` the ids already taken; no entry holds `stamp` on entry.
fn unique_without(list: &Vec<usize>, skip: usize, seen: &mut Vec<usize>, stamp: usize) -> (u: Vec<usize>)
    requires
        skip < old(seen)@.len(),
        forall|k: int| 0 <= k < list@.len() ==> #[trigger] list@[k] < old(seen)@.len(),
        forall|y: int| 0 <= y < old(seen)@.len() ==> #[trigger] old(seen)@[y] < stamp,
    ensures
        final(seen)@.len() == old(seen)@.len(),
        forall|y: int| 0 <= y < final(seen)@.len() ==> #[trigger] final(seen)@[y] <= stamp,
        u@.to_set() == list@.to_set().remove(skip),
        forall|k: int| 0 <= k < u@.len() ==> #[trigger] u@[k] < old(seen)@.len(),
{
    broadcast use vstd::seq_lib::group_seq_properties;

    let n = seen.len();
    seen.set(skip, stamp);
    let mut u: Vec<usize> = Vec::new();
    let mut k: usize = 0;
    while k < list.len()
        invariant
            n == seen@.len(),
            skip < n,
            k <= list@.len(),
            forall|j: int| 0 <= j < list@.len() ==> #[trigger] list@[j] < n,
            forall|y: int| 0 <= y < n ==> #[trigger] seen@[y] <= stamp,
            forall|y: int| 0 <= y < n ==> (#[trigger] seen@[y] == stamp <==> (y == skip || u@.contains(y as usize))),
            u@.to_set() == list@.subrange(0, k as int).to_set().remove(skip),
            forall|j: int| 0 <= j < u@.len() ==> #[trigger] u@[j] < n,
        decreases list@.len() - k,
    {
        let x = list[k];
        let ghost u0 = u@;
        if seen[x] != stamp {
            seen.set(x, stamp);
            u.push(x);
            assert(u@ == u0 + seq![x]);
        }
        assert(list@.subrange(0, k as int + 1) =~= list@.subrange(0, k as int) + seq![x]);
        proof {
            Seq::<usize>::lemma_to_set_insert_commutes(list@.subrange(0, k as int), x);
            Seq::<usize>::lemma_to_set_insert_commutes(u0, x);
            assert forall|y: int| 0 <= y < n implies (#[trigger] seen@[y] == stamp <==> (y == skip
                || u@.contains(y as usize))) by {
                if u@ != u0 {
                    assert(u@ == u0.push(x));
                    assert(u@[u0.len() as int] == x);
                    if y != x as int {
                        assert(u@.contains(y as usize) ==> u0.contains(y as usize)) by {
                            if u@.contains(y as usize) {
                                let j = choose|j: int| 0 <= j < u@.len() && u@[j] == y as usize;
                                assert(j < u0.len());
                                assert(u0[j] == y as usize);
                            }
                        }
                        assert(u0.contains(y as usize) ==> u@.contains(y as usize)) by {
                            if u0.contains(y as usize) {
                                let j = choose|j: int| 0 <= j < u0.len() && u0[j] == y as usize;
                                assert(u@[j] == y as usize);
                            }
                        }
                    }
                }
            }
            if u@ == u0 {
                assert(u0.contains(x) || x == skip);
            }
        }
        k = k + 1;
    }
    assert(list@.subrange(0, list@.len() as int) =~= list@);
    u
}

/// The neighbours of each node as lists.
fn neighbor_lists(g: &Graph) -> (data: Vec<Vec<usize>>)
    requires
        in_range(g@),
    ensures
        lists_hold(data@, g@, g@.len()),
{
    let n = g.get_num_nodes();
    let mut data: Vec<Vec<usize>> = Vec::new();
    let mut u: usize = 0;
    while u < n
        invariant
            n == g@.len(),
            in_range(g@),
            u <= n,
            data@.len() == u,
            forall|w: int| 0 <= w < u ==> (#[trigger] data@[w])@.to_set() == g@[w],
            forall|w: int, k: int| 0 <= w < u && 0 <= k < data@[w]@.len() ==> #[trigger] data@[w]@[k] < n,
        decreases n - u,
    {
        let l = g.get_neighbors(u).to_vec();
        proof {
            assert forall|k: int| 0 <= k < l@.len() implies #[trigger] l@[k] < n by {
                assert(l@.to_set().contains(l@[k]));
            }
        }
        data.push(l);
        u = u + 1;
    }
    data
}

/// The elimination tree of a node order, from the graph whose edges point
/// from each node to its neighbours later in the order: for each node `v` in
/// turn, the earliest node `p` among its (filled) later neighbours becomes its
/// parent, the edge `p -> v` is added, and `p` inherits the other neighbours.
pub fn chordalize_and_tree(directed_graph: &Graph, order: &[usize], pos: &[usize]) -> (tree: Graph)
    requires
        in_range(directed_graph@),
        is_order_with_positions(order@, pos@, directed_graph@.len()),
    ensures
        tree@ == elimination_tree(directed_graph@, order@, pos@),
{
    broadcast use vstd::seq_lib::group_seq_properties;

    let ghost g = directed_graph@;
    let n = directed_graph.get_num_nodes();
    let mut data = neighbor_lists(directed_graph);
    let mut tree = Graph::with_node_count(n);
    let mut seen = crate::search::filled(n, 0);
    assert(tree@ =~= eliminate(g, order@, pos@, 0).1);
    let mut i: usize = 0;
    while i < n
        invariant
            n == g.len(),
            i <= n,
            is_order_with_positions(order@, pos@, n as nat),
            lists_hold(data@, eliminate(g, order@, pos@, i as nat).0, n as nat),
            tree@ == eliminate(g, order@, pos@, i as nat).1,
            tree@.len() == n,
            seen@.len() == n,
            forall|y: int| 0 <= y < n ==> #[trigger] seen@[y] <= i,
        decreases n - i,
    {
        let ghost st = eliminate(g, order@, pos@, i as nat);
        let v = order[i];
        assert(eliminate(g, order@, pos@, (i + 1) as nat) == eliminate_node(st, v, pos@));
        let ghost fill_v = st.0[v as int];
        if data[v].len() > 0 {
            let p = lowest_in_list(&data[v], pos);
            proof {
                assert(fill_v.contains(p));
                assert forall|y: usize| fill_v.contains(y) implies pos@[p as int] <= pos@[y as int] by {
                    let k = choose|k: int| 0 <= k < data@[v as int]@.len() && data@[v as int]@[k] == y;
                }
                let q = lowest(fill_v, pos@);
                assert(fill_v.contains(q) && pos@[q as int] <= pos@[p as int]);
                assert(order@[pos@[q as int] as int] == q);
                assert(order@[pos@[p as int] as int] == p);
                assert(fill_v != Set::<usize>::empty());
            }
            let u = unique_without(&data[v], p, &mut seen, i + 1);
            data.set(v, Vec::new());
            let ghost before = data@;
            assert(before[p as int]@.to_set() == st.0.update(v as int, Set::<usize>::empty())[p as int]);
            let mut k: usize = 0;
            assert(u@.subrange(0, 0).to_set() =~= Set::<usize>::empty());
            assert(before[p as int]@.to_set() =~= before[p as int]@.to_set().union(u@.subrange(0, 0).to_set()));
            while k < u.len()
                invariant
                    data@.len() == n,
                    before.len() == n,
                    p < n,
                    k <= u@.len(),
                    forall|w: int| 0 <= w < n && w != p ==> #[trigger] data@[w] == before[w],
                    data@[p as int]@.to_set() == before[p as int]@.to_set().union(
                        u@.subrange(0, k as int).to_set(),
                    ),
                    forall|j: int| 0 <= j < data@[p as int]@.len() ==> #[trigger] data@[p as int]@[j] < n,
                    forall|j: int| 0 <= j < u@.len() ==> #[trigger] u@[j] < n,
                decreases u@.len() - k,
            {
                let x = u[k];
                let ghost old_p = data@[p as int]@;
                data[p].push(x);
                proof {
                    Seq::<usize>::lemma_to_set_insert_commutes(old_p, x);
                    assert(data@[p as int]@ == old_p + seq![x]);
                    assert(u@.subrange(0, k as int + 1) =~= u@.subrange(0, k as int) + seq![x]);
                    Seq::<usize>::lemma_to_set_insert_commutes(u@.subrange(0, k as int), x);
                    assert(data@[p as int]@.to_set() =~= before[p as int]@.to_set().union(
                        u@.subrange(0, k as int + 1).to_set(),
                    ));
                }
                k = k + 1;
            }
            assert(u@.subrange(0, u@.len() as int) =~= u@);
            tree.add_directed_edge(p, v);
            proof {
                let nst = eliminate(g, order@, pos@, (i + 1) as nat);
                assert(nst.0 == st.0.update(v as int, Set::<usize>::empty()).update(
                    p as int,
                    st.0.update(v as int, Set::<usize>::empty())[p as int].union(fill_v.remove(p)),
                ));
                assert forall|w: int| 0 <= w < n implies (#[trigger] data@[w])@.to_set() == nst.0[w] by {
                    if w != p as int && w == v as int {
                        assert(data@[w]@ =~= Seq::<usize>::empty());
                        assert(data@[w]@.to_set() =~= Set::<usize>::empty());
                    }
                }
                assert(tree@ == nst.1);
            }
        } else {
            assert(data@[v as int]@ =~= Seq::<usize>::empty());
            assert(fill_v =~= Set::<usize>::empty());
        }
        i = i + 1;
    }
    tree
}

/// Every edge of `g` points from a node to one later in the order.
pub open spec fn is_upward(g: Seq<Set<usize>>, pos: Seq<usize>) -> bool {
    forall|a: int, b: usize| 0 <= a < g.len() && #[trigger] g[a].contains(b) ==> pos[a] < pos[b as int]
}

proof fn lemma_min_pos_exists(s: Set<usize>, order: Seq<usize>, pos: Seq<usize>, n: nat, j: nat)
    requires
        is_order_with_positions(order, pos, n),
        forall|x: usize| #[trigger] s.contains(x) ==> x < n,
        exists|x: usize| #[trigger] s.contains(x) && pos[x as int] <= j,
    ensures
        exists|m: usize|
            #[trigger] s.contains(m) && forall|y: usize| #[trigger] s.contains(y) ==> pos[m as int] <= pos[y as int],
    decreases j,
{
    let x = choose|x: usize| #[trigger] s.contains(x) && pos[x as int] <= j;
    if j > 0 && exists|y: usize| #[trigger] s.contains(y) && pos[y as int] <= j - 1 {
        lemma_min_pos_exists(s, order, pos, n, (j - 1) as nat);
    } else {
        assert forall|y: usize| #[trigger] s.contains(y) implies pos[x as int] <= pos[y as int] by {
            if j > 0 {
                assert(!(pos[y as int] <= j - 1));
            }
        }
    }
}

/// The lowest member of a non-empty set of nodes is a member, comes no later
/// than any other, and is the only member that does.
proof fn lemma_lowest(s: Set<usize>, order: Seq<usize>, pos: Seq<usize>, n: nat)
    requires
        is_order_with_positions(order, pos, n),
        s != Set::<usize>::empty(),
        forall|x: usize| #[trigger] s.contains(x) ==> x < n,
    ensures
        s.contains(lowest(s, pos)),
        forall|y: usize| #[trigger] s.contains(y) ==> pos[lowest(s, pos) as int] <= pos[y as int],
        forall|y: usize| #[trigger] s.contains(y) && y != lowest(s, pos) ==> pos[lowest(s, pos) as int] < pos[y as int],
{
    let x0 = s.choose();
    assert(s.contains(x0)) by {
        if !s.contains(x0) {
            assert(s =~= Set::<usize>::empty());
        }
    }
    lemma_min_pos_exists(s, order, pos, n, pos[x0 as int] as nat);
    let m = lowest(s, pos);
    assert forall|y: usize| #[trigger] s.contains(y) && y != m implies pos[m as int] < pos[y as int] by {
        assert(order[pos[m as int] as int] == m);
        assert(order[pos[y as int] as int] == y);
    }
}

/// What holds after eliminating the first `i` nodes of the order.
pub open spec fn elimination_facts(g: Seq<Set<usize>>, order: Seq<usize>, pos: Seq<usize>, i: nat) -> bool {
    let n = g.len();
    let st = eliminate(g, order, pos, i);
    &&& st.0.len() == n
    &&& st.1.len() == n
    &&& forall|w: int, x: usize| 0 <= w < n && #[trigger] st.0[w].contains(x) ==> x < n
    &&& forall|p: int, x: usize| 0 <= p < n && #[trigger] st.1[p].contains(x) ==> x < n && pos[x as int] < i
    &&& forall|p1: int, p2: int, x: usize|
        0 <= p1 < n && 0 <= p2 < n && #[trigger] st.1[p1].contains(x) && #[trigger] st.1[p2].contains(x)
            ==> p1 == p2
    &&& is_upward(g, pos) ==> forall|w: int, x: usize|
        0 <= w < n && #[trigger] st.0[w].contains(x) ==> pos[w] < pos[x as int]
    &&& is_upward(g, pos) ==> forall|p: int, x: usize|
        0 <= p < n && #[trigger] st.1[p].contains(x) ==> pos[x as int] < pos[p]
    &&& is_upward(g, pos) ==> forall|w: int| 0 <= w < n && pos[w] < i ==> #[trigger] st.0[w] == Set::<
        usize,
    >::empty()
}

proof fn lemma_elimination_facts(g: Seq<Set<usize>>, order: Seq<usize>, pos: Seq<usize>, i: nat)
    requires
        in_range(g),
        is_order_with_positions(order, pos, g.len()),
        i <= g.len(),
    ensures
        elimination_facts(g, order, pos, i),
    decreases i,
{
    let n = g.len();
    if i == 0 {
        let st = eliminate(g, order, pos, 0);
        assert(st.1 == Seq::new(n, |x: int| Set::<usize>::empty()));
        assert forall|w: int| 0 <= w < n && pos[w] < 0 implies #[trigger] st.0[w] == Set::<usize>::empty() by {}
    } else {
        lemma_elimination_facts(g, order, pos, (i - 1) as nat);
        let st = eliminate(g, order, pos, (i - 1) as nat);
        let v = order[i - 1];
        assert(pos[v as int] == i - 1);
        let fill_v = st.0[v as int];
        if fill_v != Set::<usize>::empty() {
            lemma_lowest(fill_v, order, pos, n);
            let p = lowest(fill_v, pos);
            let cleared = st.0.update(v as int, Set::<usize>::empty());
            let nst = eliminate(g, order, pos, i);
            assert(nst.0 == cleared.update(p as int, cleared[p as int].union(fill_v.remove(p))));
            assert(nst.1 == st.1.update(p as int, st.1[p as int].insert(v)));
            assert forall|p1: int, p2: int, x: usize|
                0 <= p1 < n && 0 <= p2 < n && #[trigger] nst.1[p1].contains(x) && #[trigger] nst.1[p2].contains(x)
                    implies p1 == p2 by {
                if x == v {
                    if p1 != p as int {
                        assert(st.1[p1].contains(x));
                    }
                    if p2 != p as int {
                        assert(st.1[p2].contains(x));
                    }
                } else {
                    assert(st.1[p1].contains(x));
                    assert(st.1[p2].contains(x));
                }
            }
            if is_upward(g, pos) {
                assert(p != v);
                assert forall|w: int, x: usize| 0 <= w < n && #[trigger] nst.0[w].contains(x) implies pos[w]
                    < pos[x as int] by {
                    if w == p as int && !cleared[w].contains(x) {
                        assert(fill_v.contains(x) && x != p);
                    }
                }
                assert forall|w: int| 0 <= w < n && pos[w] < i implies #[trigger] nst.0[w] == Set::<
                    usize,
                >::empty() by {
                    if w == p as int {
                        assert(pos[p as int] > pos[v as int]);
                    }
                    if w != v as int {
                        assert(pos[w] < i - 1) by {
                            assert(order[pos[w] as int] == w);
                        }
                    }
                }
            }
        } else {
            if is_upward(g, pos) {
                assert forall|w: int| 0 <= w < n && pos[w] < i implies #[trigger] st.0[w] == Set::<
                    usize,
                >::empty() by {
                    if w != v as int {
                        assert(pos[w] < i - 1) by {
                            assert(order[pos[w] as int] == w);
                        }
                    }
                }
            }
        }
    }
}

/// In an elimination tree a node has at most one parent.
pub proof fn lemma_elimination_tree_unique_parent(
    g: Seq<Set<usize>>,
    order: Seq<usize>,
    pos: Seq<usize>,
    p1: usize,
    p2: usize,
    x: usize,
)
    requires
        in_range(g),
        is_order_with_positions(order, pos, g.len()),
        p1 < g.len(),
        p2 < g.len(),
        elimination_tree(g, order, pos)[p1 as int].contains(x),
        elimination_tree(g, order, pos)[p2 as int].contains(x),
    ensures
        p1 == p2,
{
    lemma_elimination_facts(g, order, pos, g.len());
}

/// When every edge of `g` points later in the order, every parent in the
/// elimination tree comes later in the order than its child.
pub proof fn lemma_elimination_tree_parent_later(
    g: Seq<Set<usize>>,
    order: Seq<usize>,
    pos: Seq<usize>,
    p: usize,
    x: usize,
)
    requires
        in_range(g),
        is_order_with_positions(order, pos, g.len()),
        is_upward(g, pos),
        p < g.len(),
        elimination_tree(g, order, pos)[p as int].contains(x),
    ensures
        x < g.len(),
        pos[x as int] < pos[p as int],
{
    lemma_elimination_facts(g, order, pos, g.len());
}

/// Each edge `a -> b` of `g` either joins `a` to a tree ancestor `b`, or `b`
/// waits in the fill set of a tree ancestor of `a`.
pub open spec fn edges_covered(g: Seq<Set<usize>>, st: (Seq<Set<usize>>, Seq<Set<usize>>)) -> bool {
    forall|a: usize, b: usize|
        a < g.len() && #[trigger] g[a as int].contains(b) ==> reachable(st.1, b, a) || exists|w: usize|
            w < g.len() && #[trigger] st.0[w as int].contains(b) && reachable(st.1, w, a)
}

proof fn lemma_edges_covered(g: Seq<Set<usize>>, order: Seq<usize>, pos: Seq<usize>, i: nat)
    requires
        in_range(g),
        is_order_with_positions(order, pos, g.len()),
        i <= g.len(),
    ensures
        edges_covered(g, eliminate(g, order, pos, i)),
    decreases i,
{
    let n = g.len();
    lemma_elimination_facts(g, order, pos, i);
    let nst = eliminate(g, order, pos, i);
    if i == 0 {
        assert forall|a: usize, b: usize| a < n && #[trigger] g[a as int].contains(b) implies reachable(
            nst.1,
            b,
            a,
        ) || exists|w: usize| w < n && #[trigger] nst.0[w as int].contains(b) && reachable(nst.1, w, a) by {
            lemma_reach_self(nst.1, a);
            assert(nst.0[a as int].contains(b));
        }
    } else {
        lemma_edges_covered(g, order, pos, (i - 1) as nat);
        lemma_elimination_facts(g, order, pos, (i - 1) as nat);
        let st = eliminate(g, order, pos, (i - 1) as nat);
        let v = order[i - 1];
        let fill_v = st.0[v as int];
        if fill_v != Set::<usize>::empty() {
            lemma_lowest(fill_v, order, pos, n);
            let p = lowest(fill_v, pos);
            let cleared = st.0.update(v as int, Set::<usize>::empty());
            assert(nst.0 == cleared.update(p as int, cleared[p as int].union(fill_v.remove(p))));
            assert(nst.1 == st.1.update(p as int, st.1[p as int].insert(v)));
            assert forall|u: int, w: usize| 0 <= u < n && #[trigger] st.1[u].contains(w) implies nst.1[u].contains(
                w,
            ) by {}
            assert(reachable(nst.1, p, v)) by {
                lemma_reach_self(nst.1, p);
                lemma_reach_step(nst.1, p, p, v);
            }
            assert forall|a: usize, b: usize| a < n && #[trigger] g[a as int].contains(b) implies reachable(
                nst.1,
                b,
                a,
            ) || exists|w: usize| w < n && #[trigger] nst.0[w as int].contains(b) && reachable(nst.1, w, a) by {
                if reachable(st.1, b, a) {
                    lemma_reach_mono(st.1, nst.1, b, a);
                } else {
                    let w = choose|w: usize| w < n && #[trigger] st.0[w as int].contains(b) && reachable(st.1, w, a);
                    lemma_reach_mono(st.1, nst.1, w, a);
                    if w != v {
                        assert(nst.0[w as int].contains(b));
                    } else if b == p {
                        lemma_reach_trans(nst.1, p, v, a);
                    } else {
                        lemma_reach_trans(nst.1, p, v, a);
                        assert(nst.0[p as int].contains(b));
                    }
                }
            }
        }
    }
}

/// When every edge of `g` points later in the order, each edge `a -> b` of
/// `g` joins `a` to one of its ancestors `b` in the elimination tree.
pub proof fn lemma_elimination_tree_covers_edges(
    g: Seq<Set<usize>>,
    order: Seq<usize>,
    pos: Seq<usize>,
    a: usize,
    b: usize,
)
    requires
        in_range(g),
        is_order_with_positions(order, pos, g.len()),
        is_upward(g, pos),
        a < g.len(),
        g[a as int].contains(b),
    ensures
        reachable(elimination_tree(g, order, pos), b, a),
{
    let n = g.len();
    lemma_elimination_facts(g, order, pos, n);
    lemma_edges_covered(g, order, pos, n);
    let st = eliminate(g, order, pos, n);
    if !reachable(st.1, b, a) {
        let w = choose|w: usize| w < n && #[trigger] st.0[w as int].contains(b) && reachable(st.1, w, a);
        assert(pos[w as int] < n);
        assert(st.0[w as int] == Set::<usize>::empty());
    }
}

/// `root` is the last node of the order that has a child in the tree.
pub open spec fn is_last_with_children(tree: Seq<Set<usize>>, order: Seq<usize>, root: usize) -> bool {
    exists|k: int|
        0 <= k < order.len() && order[k] == root && tree[root as int].len() > 0 && forall|j: int|
            k < j < order.len() ==> tree[#[trigger] order[j] as int].len() == 0
}

/// The last node of the order that has a child in the tree; some node of
/// the order must have one.
fn get_root_node(tree: &Graph, ord: &[usize]) -> (r: usize)
    requires
        forall|k: int| 0 <= k < ord@.len() ==> #[trigger] ord@[k] < tree@.len(),
        exists|k: int| 0 <= k < ord@.len() && tree@[#[trigger] ord@[k] as int].len() > 0,
    ensures
        is_last_with_children(tree@, ord@, r),
{
    let mut i = ord.len();
    while i > 0
        invariant
            i <= ord@.len(),
            forall|k: int| 0 <= k < ord@.len() ==> #[trigger] ord@[k] < tree@.len(),
            forall|j: int| i <= j < ord@.len() ==> tree@[#[trigger] ord@[j] as int].len() == 0,
            exists|k: int| 0 <= k < i && tree@[#[trigger] ord@[k] as int].len() > 0,
        decreases i,
    {
        i = i - 1;
        let node = ord[i];
        if tree.get_neighbors(node).len() > 0 {
            return node;
        }
    }
    proof {
        let k = choose|k: int| 0 <= k < i && tree@[#[trigger] ord@[k] as int].len() > 0;
    }
    0
}

/// Adds the size of a child to a running sum.
pub open spec fn add_size(sizes: Seq<usize>) -> spec_fn(int, usize) -> int {
    |acc: int, c: usize| acc + sizes[c as int]
}

/// The sizes of the nodes of `s`, summed.
pub open spec fn children_sum(s: Set<usize>, sizes: Seq<usize>) -> int {
    s.fold(0int, add_size(sizes))
}

/// Each node has at most one parent in the tree, and `root` has none.
pub open spec fn is_rooted_tree(tree: Seq<Set<usize>>, root: usize) -> bool {
    &&& forall|p1: int, p2: int, x: usize|
        0 <= p1 < tree.len() && 0 <= p2 < tree.len() && #[trigger] tree[p1].contains(x) && #[trigger] tree[p2].contains(
            x,
        ) ==> p1 == p2
    &&& forall|p: int| 0 <= p < tree.len() ==> !#[trigger] tree[p].contains(root)
}

proof fn lemma_add_size_commutative(sizes: Seq<usize>)
    ensures
        vstd::set::fold::is_fun_commutative(add_size(sizes)),
{
}

proof fn lemma_children_sum_empty(sizes: Seq<usize>)
    ensures
        children_sum(Set::<usize>::empty(), sizes) == 0,
{
    vstd::set::fold::lemma_fold_empty(0int, add_size(sizes));
}

proof fn lemma_children_sum_insert(s: Set<usize>, sizes: Seq<usize>, x: usize)
    requires
        s.finite(),
        !s.contains(x),
    ensures
        children_sum(s.insert(x), sizes) == children_sum(s, sizes) + sizes[x as int],
{
    lemma_add_size_commutative(sizes);
    vstd::set::fold::lemma_fold_insert(s, 0int, add_size(sizes), x);
}

/// The sum depends only on the sizes of the nodes summed.
proof fn lemma_children_sum_agree(s: Set<usize>, a: Seq<usize>, b: Seq<usize>)
    requires
        s.finite(),
        forall|x: usize| #[trigger] s.contains(x) ==> a[x as int] == b[x as int],
    ensures
        children_sum(s, a) == children_sum(s, b),
    decreases s.len(),
{
    if s.len() == 0 {
        assert(s =~= Set::<usize>::empty());
        lemma_children_sum_empty(a);
        lemma_children_sum_empty(b);
    } else {
        let x = s.choose();
        let t = s.remove(x);
        assert(t.insert(x) =~= s);
        lemma_children_sum_agree(t, a, b);
        lemma_children_sum_insert(t, a, x);
        lemma_children_sum_insert(t, b, x);
    }
}

/// The sizes of the first `j` nodes of `order`, summed.
pub open spec fn prefix_sum(sizes: Seq<usize>, order: Seq<usize>, j: int) -> int
    decreases j,
{
    if j <= 0 {
        0
    } else {
        prefix_sum(sizes, order, j - 1) + sizes[order[j - 1] as int]
    }
}

proof fn lemma_prefix_sum_update(sizes: Seq<usize>, order: Seq<usize>, j: int, x: usize, v: usize)
    requires
        0 <= j <= order.len(),
        order.no_duplicates(),
        x < sizes.len(),
        forall|m: int| 0 <= m < order.len() ==> #[trigger] order[m] < sizes.len(),
    ensures
        (exists|m: int| 0 <= m < j && order[m] == x) ==> prefix_sum(sizes.update(x as int, v), order, j) == prefix_sum(
            sizes,
            order,
            j,
        ) - sizes[x as int] + v,
        !(exists|m: int| 0 <= m < j && order[m] == x) ==> prefix_sum(sizes.update(x as int, v), order, j)
            == prefix_sum(sizes, order, j),
    decreases j,
{
    if j > 0 {
        lemma_prefix_sum_update(sizes, order, j - 1, x, v);
        assert(order[j - 1] < sizes.len());
        if order[j - 1] == x {
            assert(!(exists|m: int| 0 <= m < j - 1 && order[m] == x)) by {
                if exists|m: int| 0 <= m < j - 1 && order[m] == x {
                    let m = choose|m: int| 0 <= m < j - 1 && order[m] == x;
                    assert(order[m] == order[j - 1]);
                }
            }
        } else {
            if exists|m: int| 0 <= m < j && order[m] == x {
                let m = choose|m: int| 0 <= m < j && order[m] == x;
                assert(m < j - 1);
            }
        }
    }
}

proof fn lemma_prefix_sum_bound(sizes: Seq<usize>, order: Seq<usize>, j: int, m1: int, m2: int)
    requires
        0 <= j <= order.len(),
        0 <= m1 < j,
        0 <= m2 < j,
        m1 != m2,
    ensures
        sizes[order[m1] as int] + sizes[order[m2] as int] <= prefix_sum(sizes, order, j),
        sizes[order[m1] as int] <= prefix_sum(sizes, order, j),
    decreases j,
{
    lemma_prefix_sum_nonneg(sizes, order, j - 1);
    if m1 < j - 1 && m2 < j - 1 {
        lemma_prefix_sum_bound(sizes, order, j - 1, m1, m2);
    } else if m1 < j - 1 {
        lemma_prefix_sum_one(sizes, order, j - 1, m1);
    } else if m2 < j - 1 {
        lemma_prefix_sum_one(sizes, order, j - 1, m2);
    }
}

proof fn lemma_prefix_sum_one(sizes: Seq<usize>, order: Seq<usize>, j: int, m: int)
    requires
        0 <= m < j <= order.len(),
    ensures
        sizes[order[m] as int] <= prefix_sum(sizes, order, j),
    decreases j,
{
    lemma_prefix_sum_nonneg(sizes, order, j - 1);
    if m < j - 1 {
        lemma_prefix_sum_one(sizes, order, j - 1, m);
    }
}

proof fn lemma_prefix_sum_nonneg(sizes: Seq<usize>, order: Seq<usize>, j: int)
    ensures
        prefix_sum(sizes, order, j) >= 0,
    decreases j,
{
    if j > 0 {
        lemma_prefix_sum_nonneg(sizes, order, j - 1);
    }
}

/// What the breadth-first walk from `root` keeps.
spec fn walk_state(
    tree: Seq<Set<usize>>,
    root: usize,
    order: Seq<usize>,
    parent: Seq<usize>,
    pos: Seq<int>,
    visited: Seq<bool>,
    head: int,
) -> bool {
    let n = tree.len();
    &&& in_range(tree)
    &&& root < n
    &&& visited.len() == n
    &&& parent.len() == n
    &&& pos.len() == n
    &&& order.len() >= 1
    &&& order[0] == root
    &&& 0 <= head <= order.len()
    &&& forall|t: int| 0 <= t < order.len() ==> #[trigger] order[t] < n && pos[order[t] as int] == t
    &&& forall|w: int| 0 <= w < n ==> -1 <= #[trigger] pos[w] < order.len() && (pos[w] >= 0 ==> order[pos[w]] == w)
    &&& forall|w: int| 0 <= w < n ==> (#[trigger] visited[w] <==> pos[w] >= 0)
    &&& forall|t: int|
        0 < t < order.len() ==> #[trigger] parent[order[t] as int] < n && tree[parent[order[t] as int] as int].contains(
            order[t],
        ) && 0 <= pos[parent[order[t] as int] as int] < t
    &&& forall|t: int, c: usize| 0 <= t < head && #[trigger] tree[order[t] as int].contains(c) ==> pos[c as int] >= 0
    &&& forall|t: int| 0 <= t < head ==> (#[trigger] tree[order[t] as int]).finite()
    &&& forall|w: usize| w < n && pos[w as int] >= 0 ==> #[trigger] reachable(tree, root, w)
}

/// The nodes that `root` reaches in breadth-first order, the parent through
/// which each was found, and (as `pos`) the place of each in the order.
fn tree_order(tree: &Graph, root: usize) -> (r: (Vec<usize>, Vec<usize>, Ghost<Seq<int>>))
    requires
        in_range(tree@),
        root < tree@.len(),
    ensures
        walk_state(tree@, root, r.0@, r.1@, r.2@, Seq::new(tree@.len(), |w: int| r.2@[w] >= 0), r.0@.len() as int),
        r.0@.len() <= tree@.len(),
{
    let n = tree.get_num_nodes();
    let ghost g = tree@;
    let mut visited = crate::components::all_false(n);
    let mut parent = crate::search::filled(n, 0);
    let mut order: Vec<usize> = Vec::new();
    let ghost mut pos: Seq<int> = Seq::new(n as nat, |i: int| -1);
    proof {
        crate::lca::lemma_count_unused_all(n as nat);
        crate::components::lemma_count_unused_set(visited@, root as int);
    }
    visited.set(root, true);
    order.push(root);
    proof {
        pos = pos.update(root as int, 0);
        crate::reach::lemma_reach_self(g, root);
    }
    let mut head: usize = 0;
    while head < order.len()
        invariant
            n == g.len(),
            g == tree@,
            walk_state(g, root, order@, parent@, pos, visited@, head as int),
            count_unused(visited@) + order@.len() == n,
        decreases count_unused(visited@), order@.len() - head,
    {
        let u = order[head];
        let kids = tree.get_neighbors(u).to_vec();
        proof {
            vstd::seq_lib::seq_to_set_is_finite(kids@);
        }
        let ghost c0 = count_unused(visited@);
        let ghost l0 = order@.len();
        let mut k: usize = 0;
        while k < kids.len()
            invariant
                n == g.len(),
                g == tree@,
                u == order@[head as int],
                head < order@.len(),
                kids@.to_set() == g[u as int],
                walk_state(g, root, order@, parent@, pos, visited@, head as int),
                count_unused(visited@) + order@.len() == n,
                count_unused(visited@) + order@.len() == c0 + l0,
                order@.len() >= l0,
                k <= kids@.len(),
                forall|i: int| 0 <= i < k ==> pos[#[trigger] kids@[i] as int] >= 0,
            decreases kids@.len() - k,
        {
            let c = kids[k];
            assert(kids@.to_set().contains(c));
            let ghost pos_before = pos;
            if !visited[c] {
                proof {
                    crate::components::lemma_count_unused_set(visited@, c as int);
                    crate::reach::lemma_reach_step(g, root, u, c);
                }
                let ghost o0 = order@;
                let ghost p0 = pos;
                visited.set(c, true);
                parent.set(c, u);
                proof {
                    pos = pos.update(c as int, order@.len() as int);
                }
                order.push(c);
                proof {
                    assert forall|t: int| 0 <= t < order@.len() implies #[trigger] order@[t] < n && pos[order@[t] as int]
                        == t by {
                        if t < o0.len() {
                            assert(order@[t] == o0[t]);
                            assert(o0[t] != c);
                        }
                    }
                    assert forall|t: int|
                        0 < t < order@.len() implies #[trigger] parent@[order@[t] as int] < n && g[parent@[order@[t] as int] as int].contains(
                            order@[t],
                        ) && 0 <= pos[parent@[order@[t] as int] as int] < t by {
                        if t < o0.len() {
                            assert(order@[t] == o0[t]);
                            assert(o0[t] != c);
                            assert(parent@[order@[t] as int] != c) by {
                                assert(p0[parent@[order@[t] as int] as int] >= 0);
                            }
                        } else {
                            assert(order@[t] == c);
                            assert(u != c);
                        }
                    }
                    assert forall|t: int, x: usize| 0 <= t < head && #[trigger] g[order@[t] as int].contains(x) implies pos[x
                        as int] >= 0 by {
                        assert(order@[t] == o0[t]);
                    }
                    assert forall|t: int| 0 <= t < head implies (#[trigger] g[order@[t] as int]).finite() by {
                        assert(order@[t] == o0[t]);
                    }
                }
            }
            proof {
                assert forall|i: int| 0 <= i < k + 1 implies pos[#[trigger] kids@[i] as int] >= 0 by {
                    assert(kids@.to_set().contains(kids@[i]));
                    assert(kids@[i] < n);
                    if i < k {
                        assert(pos_before[kids@[i] as int] >= 0);
                    }
                }
            }
            k = k + 1;
        }
        proof {
            assert forall|t: int, x: usize| 0 <= t < head + 1 && #[trigger] g[order@[t] as int].contains(x) implies pos[x
                as int] >= 0 by {
                if t == head {
                    let i = choose|i: int| 0 <= i < kids@.len() && kids@[i] == x;
                }
            }
        }
        head = head + 1;
    }
    proof {
        assert(pos[order@[0] as int] == 0);
        assert(order@.no_duplicates()) by {
            assert forall|a: int, b: int| 0 <= a < b < order@.len() implies order@[a] != order@[b] by {
                assert(pos[order@[a] as int] == a);
                assert(pos[order@[b] as int] == b);
            }
        }
        crate::graph::lemma_distinct_below(order@, n);
        assert(visited@ =~= Seq::new(g.len(), |w: int| pos[w] >= 0));
    }
    (order, parent, Ghost(pos))
}

/// The children of `w` whose place in the order is `j` or later.
pub open spec fn settled(tree: Seq<Set<usize>>, pos: Seq<int>, w: int, j: int) -> Set<usize> {
    tree[w].filter(|c: usize| pos[c as int] >= j)
}

/// In a rooted tree walked from its root, each child comes after its parent,
/// and was found through it.
proof fn lemma_child_later(
    tree: Seq<Set<usize>>,
    root: usize,
    order: Seq<usize>,
    parent: Seq<usize>,
    pos: Seq<int>,
    w: int,
    c: usize,
)
    requires
        walk_state(tree, root, order, parent, pos, Seq::new(tree.len(), |x: int| pos[x] >= 0), order.len() as int),
        is_rooted_tree(tree, root),
        0 <= w < tree.len(),
        pos[w] >= 0,
        tree[w].contains(c),
    ensures
        c < tree.len(),
        pos[c as int] > pos[w],
        parent[c as int] == w,
{
    let t0 = pos[w];
    assert(order[t0] == w);
    assert(tree[order[t0] as int].contains(c));
    assert(pos[c as int] >= 0);
    let t = pos[c as int];
    assert(order[t] == c);
    if t == 0 {
        assert(c == root);
        assert(false);
    }
    assert(tree[parent[order[t] as int] as int].contains(order[t]));
    let p = parent[c as int];
    assert(tree[p as int].contains(c) && tree[w].contains(c));
    assert(p == w);
}

proof fn lemma_prefix_sum_zero(order: Seq<usize>, n: nat, j: int)
    requires
        forall|m: int| 0 <= m < order.len() ==> #[trigger] order[m] < n,
        0 <= j <= order.len(),
    ensures
        prefix_sum(Seq::new(n, |i: int| 0usize), order, j) == 0,
    decreases j,
{
    if j > 0 {
        lemma_prefix_sum_zero(order, n, j - 1);
    }
}

/// What the summing of sizes from the back of the order keeps: the nodes
/// from place `j` on have their sizes; every earlier one holds the sizes of
/// its children from place `j` on.
spec fn sizes_state(
    tree: Seq<Set<usize>>,
    order: Seq<usize>,
    pos: Seq<int>,
    sizes: Seq<usize>,
    j: int,
) -> bool {
    let n = tree.len();
    &&& sizes.len() == n
    &&& 0 <= j <= order.len()
    &&& forall|w: int| 0 <= w < n && pos[w] >= j ==> #[trigger] sizes[w] == 1 + children_sum(tree[w], sizes)
    &&& forall|w: int| 0 <= w < n && 0 <= pos[w] < j ==> #[trigger] sizes[w] == children_sum(settled(tree, pos, w, j), sizes)
    &&& forall|w: int| 0 <= w < n && pos[w] < 0 ==> #[trigger] sizes[w] == 0
    &&& j > 0 ==> prefix_sum(sizes, order, j) == order.len() - j
    &&& forall|w: int| 0 <= w < n ==> #[trigger] sizes[w] <= order.len()
}

/// `sizes` gives each node that `root` reaches one more than the sizes of
/// its children together, and 0 to the other nodes.
pub open spec fn is_subtree_sizes(tree: Seq<Set<usize>>, root: usize, sizes: Seq<usize>) -> bool {
    &&& sizes.len() == tree.len()
    &&& forall|u: usize|
        u < tree.len() ==> (#[trigger] reachable(tree, root, u) ==> sizes[u as int] == 1 + children_sum(
            tree[u as int],
            sizes,
        ))
    &&& forall|u: usize| u < tree.len() ==> (!#[trigger] reachable(tree, root, u) ==> sizes[u as int] == 0)
}

/// The size of the subtree below each node that `root` reaches: one more
/// than the sizes of its children together; 0 for the other nodes. Each
/// node must have at most one parent, and `root` none.
pub fn get_subtree_sizes(tree: &Graph, root: usize) -> (sizes: Vec<usize>)
    requires
        in_range(tree@),
        root < tree@.len(),
        is_rooted_tree(tree@, root),
    ensures
        is_subtree_sizes(tree@, root, sizes@),
        forall|u: int| 0 <= u < tree@.len() ==> #[trigger] sizes@[u] <= tree@.len(),
{
    let ghost g = tree@;
    let n = tree.get_num_nodes();
    let (order, parent, Ghost(pos)) = tree_order(tree, root);
    let ghost vis = Seq::new(g.len(), |w: int| pos[w] >= 0);
    let mut sizes = crate::search::filled(n, 0);
    proof {
        lemma_prefix_sum_zero(order@, n as nat, order@.len() as int);
        assert forall|w: int| 0 <= w < n && 0 <= pos[w] < order@.len() implies #[trigger] sizes@[w] == children_sum(
            settled(g, pos, w, order@.len() as int),
            sizes@,
        ) by {
            assert(settled(g, pos, w, order@.len() as int) =~= Set::<usize>::empty()) by {
                assert forall|c: usize| !settled(g, pos, w, order@.len() as int).contains(c) by {
                    if g[w].contains(c) {
                        assert(c < n);
                    }
                }
            }
            lemma_children_sum_empty(sizes@);
        }
    }
    let mut j = order.len();
    while j > 0
        invariant
            n == g.len(),
            g == tree@,
            walk_state(g, root, order@, parent@, pos, vis, order@.len() as int),
            vis == Seq::new(g.len(), |w: int| pos[w] >= 0),
            is_rooted_tree(g, root),
            order@.len() <= n,
            sizes_state(g, order@, pos, sizes@, j as int),
        decreases j,
    {
        j = j - 1;
        let u = order[j];
        let ghost s0 = sizes@;
        proof {
            assert(pos[u as int] == j);
            assert(g[u as int].finite());
            assert(settled(g, pos, u as int, j + 1) =~= g[u as int]) by {
                assert forall|c: usize| g[u as int].contains(c) implies pos[c as int] >= j + 1 by {
                    lemma_child_later(g, root, order@, parent@, pos, u as int, c);
                }
            }
            lemma_prefix_sum_one(s0, order@, j + 1, j as int);
        }
        sizes.set(u, sizes[u] + 1);
        let ghost s1 = sizes@;
        if j > 0 {
            let p = parent[u];
            proof {
                assert(0 <= pos[p as int] < j);
                assert(order@[pos[p as int]] == p);
                lemma_prefix_sum_bound(s0, order@, j + 1, pos[p as int], j as int);
            }
            sizes.set(p, sizes[p] + sizes[u]);
            proof {
                let s2 = sizes@;
                assert(order@.no_duplicates()) by {
                    assert forall|a: int, b: int| 0 <= a < b < order@.len() implies order@[a] != order@[b] by {
                        assert(pos[order@[a] as int] == a);
                        assert(pos[order@[b] as int] == b);
                    }
                }
                lemma_prefix_sum_update(s0, order@, j as int, u, s1[u as int]);
                lemma_prefix_sum_update(s1, order@, j as int, p, s2[p as int]);
                assert(!(exists|m: int| 0 <= m < j && order@[m] == u)) by {
                    if exists|m: int| 0 <= m < j && order@[m] == u {
                        let m = choose|m: int| 0 <= m < j && order@[m] == u;
                        assert(pos[order@[m] as int] == m);
                    }
                }
                assert(order@[pos[p as int]] == p);
                lemma_sizes_step(g, root, order@, parent@, pos, s0, s2, j as int, u, p);
            }
        } else {
            proof {
                lemma_sizes_root_step(g, root, order@, parent@, pos, s0, s1, u);
            }
        }
    }
    proof {
        let m = Set::new(|w: usize| w >= n || pos[w as int] >= 0);
        assert forall|a: usize, b: usize| m.contains(a) && a < g.len() && #[trigger] g[a as int].contains(b) implies m.contains(
            b,
        ) by {
            if b < n {
                let t = pos[a as int];
                assert(order@[t] == a);
                assert(g[order@[t] as int].contains(b));
            }
        }
        assert forall|u: usize| u < n implies (#[trigger] reachable(g, root, u) <==> pos[u as int] >= 0) by {
            if reachable(g, root, u) {
                crate::reach::lemma_closed_set_holds_reachable(g, m, root, u);
            }
        }
    }
    sizes
}

proof fn lemma_sizes_step(
    g: Seq<Set<usize>>,
    root: usize,
    order: Seq<usize>,
    parent: Seq<usize>,
    pos: Seq<int>,
    s0: Seq<usize>,
    s2: Seq<usize>,
    j: int,
    u: usize,
    p: usize,
)
    requires
        walk_state(g, root, order, parent, pos, Seq::new(g.len(), |w: int| pos[w] >= 0), order.len() as int),
        is_rooted_tree(g, root),
        sizes_state(g, order, pos, s0, j + 1),
        0 < j,
        j < order.len(),
        order[j] == u,
        pos[u as int] == j,
        parent[u as int] == p,
        p < g.len(),
        0 <= pos[p as int] < j,
        settled(g, pos, u as int, j + 1) == g[u as int],
        s2 == s0.update(u as int, (s0[u as int] + 1) as usize).update(
            p as int,
            (s0[p as int] + s0[u as int] + 1) as usize,
        ),
        s0[u as int] + 1 <= usize::MAX,
        s0[p as int] + s0[u as int] + 1 <= usize::MAX,
        prefix_sum(s2, order, j) == prefix_sum(s0, order, j + 1) + 1,
        s0[p as int] + s0[u as int] <= prefix_sum(s0, order, j + 1),
    ensures
        sizes_state(g, order, pos, s2, j),
{
    let n = g.len();
    assert(u < n);
    assert(p != u);
    assert(g[p as int].contains(u)) by {
        assert(g[parent[order[j] as int] as int].contains(order[j]));
    }
    assert(g[u as int].finite());
    assert forall|w: int| 0 <= w < n && pos[w] >= j implies #[trigger] s2[w] == 1 + children_sum(g[w], s2) by {
        assert(g[w].finite()) by {
            assert(order[pos[w]] == w);
        }
        assert forall|c: usize| #[trigger] g[w].contains(c) implies s0[c as int] == s2[c as int] by {
            lemma_child_later(g, root, order, parent, pos, w, c);
        }
        lemma_children_sum_agree(g[w], s0, s2);
        if w == u as int {
            assert(s0[w] == children_sum(settled(g, pos, w, j + 1), s0));
        } else {
            assert(s0[w] == 1 + children_sum(g[w], s0));
        }
    }
    assert forall|w: int| 0 <= w < n && 0 <= pos[w] < j implies #[trigger] s2[w] == children_sum(
        settled(g, pos, w, j),
        s2,
    ) by {
        assert(g[w].finite()) by {
            assert(order[pos[w]] == w);
        }
        g[w].lemma_len_filter(|c: usize| pos[c as int] >= j + 1);
        let old_set = settled(g, pos, w, j + 1);
        assert forall|c: usize| #[trigger] old_set.contains(c) implies s0[c as int] == s2[c as int] by {
            lemma_child_later(g, root, order, parent, pos, w, c);
        }
        lemma_children_sum_agree(old_set, s0, s2);
        if w == p as int {
            assert(settled(g, pos, w, j) =~= old_set.insert(u));
            lemma_children_sum_insert(old_set, s2, u);
        } else {
            assert(settled(g, pos, w, j) =~= old_set) by {
                if g[w].contains(u) {
                    lemma_child_later(g, root, order, parent, pos, w, u);
                }
            }
        }
    }
}

proof fn lemma_sizes_root_step(
    g: Seq<Set<usize>>,
    root: usize,
    order: Seq<usize>,
    parent: Seq<usize>,
    pos: Seq<int>,
    s0: Seq<usize>,
    s1: Seq<usize>,
    u: usize,
)
    requires
        walk_state(g, root, order, parent, pos, Seq::new(g.len(), |w: int| pos[w] >= 0), order.len() as int),
        is_rooted_tree(g, root),
        sizes_state(g, order, pos, s0, 1),
        order[0] == u,
        pos[u as int] == 0,
        settled(g, pos, u as int, 1) == g[u as int],
        s1 == s0.update(u as int, (s0[u as int] + 1) as usize),
        s0[u as int] + 1 <= usize::MAX,
        s0[u as int] <= prefix_sum(s0, order, 1),
    ensures
        sizes_state(g, order, pos, s1, 0),
{
    let n = g.len();
    assert forall|w: int| 0 <= w < n && pos[w] >= 0 implies #[trigger] s1[w] == 1 + children_sum(g[w], s1) by {
        assert(g[w].finite()) by {
            assert(order[pos[w]] == w);
        }
        assert forall|c: usize| #[trigger] g[w].contains(c) implies s0[c as int] == s1[c as int] by {
            lemma_child_later(g, root, order, parent, pos, w, c);
        }
        lemma_children_sum_agree(g[w], s0, s1);
    }
}

/// Children of subtrees smaller than this are too small to be followed.
pub open spec fn cutoff(size: usize) -> int {
    if size / 10 > 10 {
        (size / 10) as int
    } else {
        10
    }
}

/// The children of `v` whose subtrees exceed the cutoff of `v`.
pub open spec fn large_children(tree: Seq<Set<usize>>, sizes: Seq<usize>, v: usize) -> Set<usize> {
    tree[v as int].filter(|c: usize| sizes[c as int] > cutoff(sizes[v as int]))
}

/// A child `c` of `v` is large exactly when its subtree has more than 10
/// nodes and more than a tenth (rounded down) of the nodes of the subtree
/// of `v`: the cutoff is `max(10, sizes[v] / 10)`, growing with the size of
/// the parent's subtree.
pub proof fn lemma_large_child_exceeds_tenth(tree: Seq<Set<usize>>, sizes: Seq<usize>, v: usize, c: usize)
    ensures
        large_children(tree, sizes, v).contains(c) <==> (tree[v as int].contains(c) && sizes[c as int] > 10
            && sizes[c as int] > sizes[v as int] / 10),
{
}

/// `p` leads from `root` down through large children only.
pub open spec fn is_large_path(tree: Seq<Set<usize>>, sizes: Seq<usize>, root: usize, p: Seq<usize>) -> bool {
    &&& p.len() >= 1
    &&& p[0] == root
    &&& forall|t: int| 0 <= t < p.len() ==> #[trigger] p[t] < tree.len()
    &&& forall|t: int| 0 <= t < p.len() - 1 ==> large_children(tree, sizes, #[trigger] p[t]).contains(p[t + 1])
}

/// The separator size along the path: 1 at the root and after a node with
/// several large children; one more after a node with just one.
pub open spec fn sep_along(tree: Seq<Set<usize>>, sizes: Seq<usize>, p: Seq<usize>) -> int
    decreases p.len(),
{
    if p.len() <= 1 {
        1
    } else if large_children(tree, sizes, p[p.len() - 2]).len() == 1 {
        sep_along(tree, sizes, p.drop_last()) + 1
    } else {
        1
    }
}

/// The traversal reaches `v` with separator size `s`.
pub open spec fn visited_with(tree: Seq<Set<usize>>, sizes: Seq<usize>, root: usize, v: usize, s: int) -> bool {
    exists|p: Seq<usize>| #[trigger] is_large_path(tree, sizes, root, p) && p.last() == v && sep_along(tree, sizes, p) == s
}

proof fn lemma_visit_child(
    tree: Seq<Set<usize>>,
    sizes: Seq<usize>,
    root: usize,
    v: usize,
    s: int,
    c: usize,
)
    requires
        visited_with(tree, sizes, root, v, s),
        large_children(tree, sizes, v).contains(c),
        in_range(tree),
    ensures
        visited_with(
            tree,
            sizes,
            root,
            c,
            if large_children(tree, sizes, v).len() == 1 {
                s + 1
            } else {
                1
            },
        ),
{
    let p = choose|p: Seq<usize>| #[trigger] is_large_path(tree, sizes, root, p) && p.last() == v && sep_along(tree, sizes, p) == s;
    let q = p.push(c);
    assert(q.drop_last() =~= p);
    assert forall|t: int| 0 <= t < q.len() implies #[trigger] q[t] < tree.len() by {
        if t < p.len() {
            assert(q[t] == p[t]);
        } else {
            assert(tree[v as int].contains(c));
            assert(v < tree.len());
        }
    }
    assert forall|t: int| 0 <= t < q.len() - 1 implies large_children(tree, sizes, #[trigger] q[t]).contains(q[t + 1]) by {
        if t < p.len() - 1 {
            assert(q[t] == p[t] && q[t + 1] == p[t + 1]);
        } else {
            assert(q[t] == v);
        }
    }
    assert(is_large_path(tree, sizes, root, q));
    assert(q[q.len() - 2] == v);
}

/// The walk starts at the root with separator size 1.
pub proof fn lemma_root_visited(tree: Seq<Set<usize>>, sizes: Seq<usize>, root: usize)
    requires
        root < tree.len(),
    ensures
        visited_with(tree, sizes, root, root, 1),
{
    let p = seq![root];
    assert(is_large_path(tree, sizes, root, p));
}

/// Below a reached node with a single child of more than
/// `max(10, sizes[v] / 10)` nodes, the walk goes on into that child with a
/// separator one larger.
pub proof fn lemma_single_large_child_grows_separator(
    tree: Seq<Set<usize>>,
    sizes: Seq<usize>,
    root: usize,
    v: usize,
    s: int,
    c: usize,
)
    requires
        in_range(tree),
        v < tree.len(),
        sizes.len() == tree.len(),
        visited_with(tree, sizes, root, v, s),
        tree[v as int].contains(c),
        sizes[c as int] > 10 && sizes[c as int] > sizes[v as int] / 10,
        forall|d: usize|
            #[trigger] tree[v as int].contains(d) && d != c ==> sizes[d as int] <= 10 || sizes[d as int]
                <= sizes[v as int] / 10,
    ensures
        visited_with(tree, sizes, root, c, s + 1),
{
    let l = large_children(tree, sizes, v);
    assert forall|d: usize| l.contains(d) <==> d == c by {
        lemma_large_child_exceeds_tenth(tree, sizes, v, d);
    }
    assert(l =~= set![c]);
    lemma_visit_child(tree, sizes, root, v, s, c);
}

/// Below a reached node with two or more children of more than
/// `max(10, sizes[v] / 10)` nodes, the walk goes on into each of them with
/// separator size 1.
pub proof fn lemma_several_large_children_restart(
    tree: Seq<Set<usize>>,
    sizes: Seq<usize>,
    root: usize,
    v: usize,
    s: int,
    c: usize,
    d: usize,
)
    requires
        in_range(tree),
        tree.len() <= usize::MAX,
        v < tree.len(),
        sizes.len() == tree.len(),
        visited_with(tree, sizes, root, v, s),
        c != d,
        tree[v as int].contains(c),
        tree[v as int].contains(d),
        sizes[c as int] > 10 && sizes[c as int] > sizes[v as int] / 10,
        sizes[d as int] > 10 && sizes[d as int] > sizes[v as int] / 10,
    ensures
        visited_with(tree, sizes, root, c, 1),
{
    let l = large_children(tree, sizes, v);
    lemma_large_child_exceeds_tenth(tree, sizes, v, c);
    lemma_large_child_exceeds_tenth(tree, sizes, v, d);
    assert(set![c, d].subset_of(l));
    assert(tree[v as int].finite()) by {
        crate::tree_distance::lemma_ids_below(tree.len());
        assert(tree[v as int].subset_of(crate::tree_distance::ids_below(tree.len())));
        vstd::set_lib::lemma_set_subset_finite(crate::tree_distance::ids_below(tree.len()), tree[v as int]);
    }
    assert(l.subset_of(tree[v as int]));
    vstd::set_lib::lemma_set_subset_finite(tree[v as int], l);
    assert(set![c, d].len() == 2);
    vstd::set_lib::lemma_len_subset(set![c, d], l);
    lemma_visit_child(tree, sizes, root, v, s, c);
}

/// The large children of `node`, each once.
fn large_list(tree: &Graph, sizes: &[usize], node: usize) -> (large: Vec<usize>)
    requires
        in_range(tree@),
        node < tree@.len(),
        sizes@.len() == tree@.len(),
    ensures
        large@.no_duplicates(),
        large@.to_set() == large_children(tree@, sizes@, node),
        large@.len() == large_children(tree@, sizes@, node).len(),
        forall|i: int| 0 <= i < large@.len() ==> #[trigger] large@[i] < tree@.len(),
        forall|c: usize|
            #[trigger] large@.contains(c) <==> (tree@[node as int].contains(c) && sizes@[c as int] > 10
                && sizes@[c as int] > sizes@[node as int] / 10),
{
    let kids = tree.get_neighbors(node).to_vec();
    let tenth = sizes[node] / 10;
    let cut = if tenth > 10 {
        tenth
    } else {
        10
    };
    let mut large: Vec<usize> = Vec::new();
    let mut k: usize = 0;
    while k < kids.len()
        invariant
            in_range(tree@),
            node < tree@.len(),
            sizes@.len() == tree@.len(),
            kids@.no_duplicates(),
            kids@.to_set() == tree@[node as int],
            cut == cutoff(sizes@[node as int]),
            k <= kids@.len(),
            large@.no_duplicates(),
            forall|i: int| 0 <= i < large@.len() ==> #[trigger] large@[i] < tree@.len(),
            large@.to_set() == kids@.subrange(0, k as int).to_set().filter(
                |c: usize| sizes@[c as int] > cutoff(sizes@[node as int]),
            ),
        decreases kids@.len() - k,
    {
        let c = kids[k];
        assert(kids@.to_set().contains(c));
        let ghost l0 = large@;
        assert(kids@.subrange(0, k as int + 1) =~= kids@.subrange(0, k as int) + seq![c]);
        proof {
            Seq::<usize>::lemma_to_set_insert_commutes(kids@.subrange(0, k as int), c);
        }
        if sizes[c] > cut {
            proof {
                assert(!l0.contains(c)) by {
                    if l0.contains(c) {
                        assert(l0.to_set().contains(c));
                        let t = choose|t: int| 0 <= t < k && kids@.subrange(0, k as int)[t] == c;
                        assert(kids@[t] == kids@[k as int]);
                    }
                }
            }
            large.push(c);
            proof {
                Seq::<usize>::lemma_to_set_insert_commutes(l0, c);
                assert(large@ == l0 + seq![c]);
                assert(large@.no_duplicates()) by {
                    assert forall|a: int, b: int| 0 <= a < b < large@.len() implies large@[a] != large@[b] by {
                        if b == l0.len() {
                            assert(l0.contains(l0[a]));
                        }
                    }
                }
            }
        }
        proof {
            assert(large@.to_set() =~= kids@.subrange(0, k as int + 1).to_set().filter(
                |c: usize| sizes@[c as int] > cutoff(sizes@[node as int]),
            ));
        }
        k = k + 1;
    }
    assert(kids@.subrange(0, kids@.len() as int) =~= kids@);
    assert(large@.to_set() =~= large_children(tree@, sizes@, node));
    proof {
        large@.unique_seq_to_set();
        assert forall|c: usize| #[trigger] large@.contains(c) <==> (tree@[node as int].contains(c)
            && sizes@[c as int] > 10 && sizes@[c as int] > sizes@[node as int] / 10) by {
            assert(large@.contains(c) <==> large@.to_set().contains(c));
            lemma_large_child_exceeds_tenth(tree@, sizes@, node, c);
        }
    }
    large
}

/// The nodes on the stack.
pub open spec fn stack_holds(stack: Seq<(usize, usize)>, v: usize) -> bool {
    exists|k: int| 0 <= k < stack.len() && #[trigger] stack[k].0 == v
}

/// Every node of a large path lies in a set that holds the root and the large
/// children of its members.
proof fn lemma_large_path_in(tree: Seq<Set<usize>>, sizes: Seq<usize>, root: usize, p: Seq<usize>, q: Set<usize>)
    requires
        is_large_path(tree, sizes, root, p),
        q.contains(root),
        forall|x: usize, c: usize| q.contains(x) && #[trigger] large_children(tree, sizes, x).contains(c) ==> q.contains(c),
    ensures
        q.contains(p.last()),
    decreases p.len(),
{
    if p.len() > 1 {
        let r = p.drop_last();
        assert forall|t: int| 0 <= t < r.len() - 1 implies large_children(tree, sizes, #[trigger] r[t]).contains(r[t + 1]) by {
            assert(r[t] == p[t] && r[t + 1] == p[t + 1]);
        }
        assert forall|t: int| 0 <= t < r.len() implies #[trigger] r[t] < tree.len() by {
            assert(r[t] == p[t]);
        }
        lemma_large_path_in(tree, sizes, root, r, q);
        assert(large_children(tree, sizes, p[p.len() - 2]).contains(p[p.len() - 1]));
    }
}

/// `rows` holds, in some order, one row per node with several large children
/// that the walk down from `root` reaches: its subtree size plus its
/// separator size, and its separator size.
pub open spec fn are_separator_rows(
    tree: Seq<Set<usize>>,
    sizes: Seq<usize>,
    root: usize,
    rows: Seq<(usize, usize)>,
) -> bool {
    exists|nodes: Seq<usize>|
        {
            &&& nodes.no_duplicates()
            &&& nodes.len() == rows.len()
            &&& nodes.to_set() == Set::new(
                |v: usize|
                    v < tree.len() && (exists|s: int| visited_with(tree, sizes, root, v, s)) && large_children(
                        tree,
                        sizes,
                        v,
                    ).len() >= 2,
            )
            &&& forall|i: int|
                0 <= i < nodes.len() ==> visited_with(tree, sizes, root, #[trigger] nodes[i], rows[i].1 as int)
                    && rows[i].0 == sizes[nodes[i] as int] + rows[i].1
        }
}

/// What the traversal keeps: `pushed` lists the nodes ever put on the
/// stack, `done` those taken off it; every node taken off but `skip` has its
/// large children pushed and, if it has several, its row written.
spec fn traverse_state(
    tree: Seq<Set<usize>>,
    sizes: Seq<usize>,
    root: usize,
    stack: Seq<(usize, usize)>,
    pushed: Seq<usize>,
    done: Set<usize>,
    rows: Seq<(usize, usize)>,
    rnodes: Seq<usize>,
    skip: int,
) -> bool {
    let n = tree.len();
    &&& pushed.no_duplicates()
    &&& forall|i: int| 0 <= i < pushed.len() ==> #[trigger] pushed[i] < n
    &&& pushed.contains(root)
    &&& forall|k: int|
        0 <= k < stack.len() ==> #[trigger] stack[k].0 < n && 1 <= stack[k].1 <= pushed.len() && visited_with(
            tree,
            sizes,
            root,
            stack[k].0,
            stack[k].1 as int,
        )
    &&& forall|k1: int, k2: int| 0 <= k1 < k2 < stack.len() ==> (#[trigger] stack[k1]).0 != (#[trigger] stack[k2]).0
    &&& forall|x: usize| #[trigger] pushed.contains(x) <==> (done.contains(x) || stack_holds(stack, x))
    &&& forall|x: usize| #[trigger] done.contains(x) ==> !stack_holds(stack, x)
    &&& forall|x: usize|
        #[trigger] pushed.contains(x) && x != root ==> exists|y: usize| #[trigger] done.contains(y) && y < n && tree[y as int].contains(x)
    &&& forall|x: usize, c: usize|
        done.contains(x) && x != skip && #[trigger] large_children(tree, sizes, x).contains(c) ==> pushed.contains(c)
    &&& forall|x: usize| #[trigger] done.contains(x) ==> x < n && exists|s: int| visited_with(tree, sizes, root, x, s)
    &&& rnodes.no_duplicates()
    &&& rnodes.len() == rows.len()
    &&& forall|i: int|
        0 <= i < rnodes.len() ==> done.contains(#[trigger] rnodes[i]) && large_children(tree, sizes, rnodes[i]).len()
            >= 2 && visited_with(tree, sizes, root, rnodes[i], rows[i].1 as int) && rows[i].0 == sizes[rnodes[i] as int]
            + rows[i].1
    &&& forall|x: usize|
        #[trigger] done.contains(x) && x != skip && large_children(tree, sizes, x).len() >= 2 ==> rnodes.contains(x)
}

/// The rows `(subtree size + separator size, separator size)` of the nodes
/// with several large children that a walk down from `root` reaches through
/// large children: a child is large when its subtree exceeds a tenth of its
/// parent's (and at least 10); the separator size is 1 at the root and below
/// a node with several large children, and grows by one below a node with a
/// single one. Each node must have at most one parent, and `root` none.
#[verifier::rlimit(60)]
pub fn traverse_separator_tree(tree: &Graph, root: usize, subtree_sizes: &[usize]) -> (rows: Vec<(usize, usize)>)
    requires
        in_range(tree@),
        root < tree@.len(),
        is_rooted_tree(tree@, root),
        subtree_sizes@.len() == tree@.len(),
        forall|v: int| 0 <= v < tree@.len() ==> #[trigger] subtree_sizes@[v] + tree@.len() <= usize::MAX,
    ensures
        are_separator_rows(tree@, subtree_sizes@, root, rows@),
{
    let ghost g = tree@;
    let ghost sz = subtree_sizes@;
    let n = tree.get_num_nodes();
    let mut rows: Vec<(usize, usize)> = Vec::new();
    let mut stack: Vec<(usize, usize)> = Vec::new();
    stack.push((root, 1));
    let ghost mut pushed: Seq<usize> = seq![root];
    let ghost mut done: Set<usize> = Set::empty();
    let ghost mut rnodes: Seq<usize> = Seq::empty();
    proof {
        let p = seq![root];
        assert(is_large_path(g, sz, root, p));
        assert(sep_along(g, sz, p) == 1);
        assert(stack@[0] == (root, 1usize));
        assert forall|x: usize| #[trigger] pushed.contains(x) <==> (done.contains(x) || stack_holds(stack@, x)) by {
            if pushed.contains(x) {
                assert(stack@[0].0 == x);
            }
        }
    }
    while stack.len() > 0
        invariant
            n == g.len(),
            g == tree@,
            sz == subtree_sizes@,
            in_range(g),
            root < n,
            is_rooted_tree(g, root),
            sz.len() == n,
            forall|v: int| 0 <= v < n ==> #[trigger] sz[v] + n <= usize::MAX,
            traverse_state(g, sz, root, stack@, pushed, done, rows@, rnodes, -1),
        decreases 2 * (n - pushed.len()) + stack@.len(),
    {
        proof {
            crate::graph::lemma_distinct_below(pushed, n);
        }
        let top = stack.len() - 1;
        let (v, sep) = stack[top];
        let ghost st0 = stack@;
        let ghost pushed0 = pushed;
        let ghost done0 = done;
        stack.pop();
        proof {
            done = done.insert(v);
            assert(stack@ == st0.drop_last());
            lemma_pop_state(g, sz, root, st0, pushed0, done0, rows@, rnodes);
        }
        let large = large_list(tree, subtree_sizes, v);
        let next_sep = if large.len() == 1 {
            sep + 1
        } else {
            1
        };
        let mut k: usize = 0;
        while k < large.len()
            invariant
                n == g.len(),
                g == tree@,
                sz == subtree_sizes@,
                in_range(g),
                root < n,
                v < n,
                is_rooted_tree(g, root),
                sz.len() == n,
                large@.no_duplicates(),
                large@.to_set() == large_children(g, sz, v),
                large@.len() == large_children(g, sz, v).len(),
                forall|i: int| 0 <= i < large@.len() ==> #[trigger] large@[i] < n,
                k <= large@.len(),
                done0.insert(v) == done,
                !done0.contains(v),
                forall|x: usize| #[trigger] pushed0.contains(x) && x != root ==> exists|y: usize|
                    #[trigger] done0.contains(y) && y < n && g[y as int].contains(x),
                pushed == pushed0 + large@.subrange(0, k as int),
                stack@.len() == st0.len() - 1 + k,
                1 <= next_sep <= pushed0.len() + 1,
                visited_with(g, sz, root, v, sep as int),
                next_sep == (if large@.len() == 1 { sep + 1 } else { 1 }),
                traverse_state(g, sz, root, stack@, pushed, done, rows@, rnodes, v as int),
            decreases large@.len() - k,
        {
            let c = large[k];
            proof {
                assert(large@.to_set().contains(c));
                lemma_visit_child(g, sz, root, v, sep as int, c);
                assert(!pushed.contains(c)) by {
                    if pushed0.contains(c) {
                        assert(c != root) by {
                            assert(g[v as int].contains(c));
                        }
                        let y = choose|y: usize| #[trigger] done0.contains(y) && y < n && g[y as int].contains(c);
                        assert(g[v as int].contains(c));
                        assert(y == v);
                    }
                    if large@.subrange(0, k as int).contains(c) {
                        let t = choose|t: int| 0 <= t < k && large@.subrange(0, k as int)[t] == c;
                        assert(large@[t] == large@[k as int]);
                    }
                }
            }
            let ghost st1 = stack@;
            let ghost p1 = pushed;
            stack.push((c, next_sep));
            proof {
                pushed = pushed.push(c);
                assert(large@.subrange(0, k as int + 1) =~= large@.subrange(0, k as int).push(c));
                assert(pushed == pushed0 + large@.subrange(0, k as int + 1));
                lemma_push_state(g, sz, root, st1, p1, done, rows@, rnodes, v, c, next_sep);
            }
            k = k + 1;
        }
        proof {
            assert(large@.subrange(0, large@.len() as int) =~= large@);
            assert forall|c: usize| #[trigger] large_children(g, sz, v).contains(c) implies pushed.contains(c) by {
                assert(large@.to_set().contains(c));
                let i = choose|i: int| 0 <= i < large@.len() && large@[i] == c;
                assert(pushed[pushed0.len() + i] == c);
            }
        }
        if large.len() >= 2 {
            let ghost r0 = rows@;
            rows.push((subtree_sizes[v] + sep, sep));
            proof {
                assert(!rnodes.contains(v)) by {
                    if rnodes.contains(v) {
                        let i = choose|i: int| 0 <= i < rnodes.len() && rnodes[i] == v;
                        assert(done0.contains(rnodes[i]));
                    }
                }
                let rn0 = rnodes;
                rnodes = rnodes.push(v);
                lemma_row_state(g, sz, root, stack@, pushed, done, r0, rows@, rn0, v, sep);
            }
        }
        proof {
            if large@.len() >= 2 {
                assert(rnodes[rnodes.len() - 1] == v);
            }
            lemma_close_state(g, sz, root, stack@, pushed, done, rows@, rnodes, v);
            crate::graph::lemma_distinct_below(pushed, n);
        }
    }
    proof {
        let b = Set::new(
            |x: usize| x < n && (exists|s: int| visited_with(g, sz, root, x, s)) && large_children(g, sz, x).len() >= 2,
        );
        assert forall|x: usize| #[trigger] rnodes.to_set().contains(x) <==> b.contains(x) by {
            if b.contains(x) {
                let s = choose|s: int| visited_with(g, sz, root, x, s);
                let p = choose|p: Seq<usize>| #[trigger] is_large_path(g, sz, root, p) && p.last() == x && sep_along(
                    g,
                    sz,
                    p,
                ) == s;
                assert(done.contains(root)) by {
                    assert(pushed.contains(root));
                    assert(!stack_holds(stack@, root));
                }
                assert forall|y: usize, c: usize| done.contains(y) && #[trigger] large_children(g, sz, y).contains(c) implies done.contains(
                    c,
                ) by {
                    assert(pushed.contains(c));
                    assert(!stack_holds(stack@, c));
                }
                lemma_large_path_in(g, sz, root, p, done);
            }
            if rnodes.to_set().contains(x) {
                let i = choose|i: int| 0 <= i < rnodes.len() && rnodes[i] == x;
            }
        }
        assert(rnodes.to_set() =~= b);
        assert(are_separator_rows(g, sz, root, rows@)) by {
            assert(rnodes.len() == rows@.len());
        }
    }
    rows
}

proof fn lemma_pop_state(
    g: Seq<Set<usize>>,
    sz: Seq<usize>,
    root: usize,
    st0: Seq<(usize, usize)>,
    pushed: Seq<usize>,
    done0: Set<usize>,
    rows: Seq<(usize, usize)>,
    rnodes: Seq<usize>,
)
    requires
        traverse_state(g, sz, root, st0, pushed, done0, rows, rnodes, -1),
        st0.len() > 0,
    ensures
        !done0.contains(st0.last().0),
        st0.last().0 < g.len(),
        1 <= st0.last().1 <= pushed.len(),
        visited_with(g, sz, root, st0.last().0, st0.last().1 as int),
        traverse_state(g, sz, root, st0.drop_last(), pushed, done0.insert(st0.last().0), rows, rnodes, st0.last().0 as int),
{
    let (v, sep) = st0.last();
    let k0 = st0.len() - 1;
    assert(st0[k0] == st0.last());
    let st = st0.drop_last();
    let done = done0.insert(v);
    assert(stack_holds(st0, v));
    assert forall|k: int|
        0 <= k < st.len() implies #[trigger] st[k].0 < g.len() && 1 <= st[k].1 <= pushed.len() && visited_with(
            g,
            sz,
            root,
            st[k].0,
            st[k].1 as int,
        ) by {
        assert(st[k] == st0[k]);
    }
    assert forall|k1: int, k2: int| 0 <= k1 < k2 < st.len() implies (#[trigger] st[k1]).0 != (#[trigger] st[k2]).0 by {
        assert(st[k1] == st0[k1] && st[k2] == st0[k2]);
    }
    assert forall|x: usize| #[trigger] pushed.contains(x) <==> (done.contains(x) || stack_holds(st, x)) by {
        if stack_holds(st, x) {
            let k = choose|k: int| 0 <= k < st.len() && #[trigger] st[k].0 == x;
            assert(st0[k].0 == x);
        }
        if pushed.contains(x) && !done.contains(x) {
            let k = choose|k: int| 0 <= k < st0.len() && #[trigger] st0[k].0 == x;
            assert(k != k0);
            assert(st[k].0 == x);
        }
    }
    assert forall|x: usize| #[trigger] done.contains(x) implies !stack_holds(st, x) by {
        if stack_holds(st, x) {
            let k = choose|k: int| 0 <= k < st.len() && #[trigger] st[k].0 == x;
            assert(st0[k].0 == x);
            if x == v {
                assert(st0[k].0 != st0[k0].0);
            }
        }
    }
    assert forall|x: usize| #[trigger] pushed.contains(x) && x != root implies exists|y: usize|
        #[trigger] done.contains(y) && y < g.len() && g[y as int].contains(x) by {
        let y = choose|y: usize| #[trigger] done0.contains(y) && y < g.len() && g[y as int].contains(x);
        assert(done.contains(y));
    }
    assert forall|x: usize| #[trigger] done.contains(x) implies x < g.len() && exists|s: int| visited_with(
        g,
        sz,
        root,
        x,
        s,
    ) by {
        if x == v {
            assert(visited_with(g, sz, root, x, sep as int));
        }
    }
}

proof fn lemma_push_state(
    g: Seq<Set<usize>>,
    sz: Seq<usize>,
    root: usize,
    st: Seq<(usize, usize)>,
    pushed: Seq<usize>,
    done: Set<usize>,
    rows: Seq<(usize, usize)>,
    rnodes: Seq<usize>,
    v: usize,
    c: usize,
    next_sep: usize,
)
    requires
        traverse_state(g, sz, root, st, pushed, done, rows, rnodes, v as int),
        done.contains(v),
        v < g.len(),
        !pushed.contains(c),
        c < g.len(),
        g[v as int].contains(c),
        visited_with(g, sz, root, c, next_sep as int),
        1 <= next_sep <= pushed.len() + 1,
    ensures
        traverse_state(g, sz, root, st.push((c, next_sep)), pushed.push(c), done, rows, rnodes, v as int),
{
    let st2 = st.push((c, next_sep));
    let p2 = pushed.push(c);
    assert(!stack_holds(st, c)) by {
        if stack_holds(st, c) {
            let k = choose|k: int| 0 <= k < st.len() && #[trigger] st[k].0 == c;
            assert(pushed.contains(c));
        }
    }
    assert(!done.contains(c));
    assert(p2.no_duplicates()) by {
        assert forall|a: int, b: int| 0 <= a < b < p2.len() implies p2[a] != p2[b] by {
            if b == pushed.len() {
                assert(pushed.contains(pushed[a]));
            }
        }
    }
    assert forall|i: int| 0 <= i < p2.len() implies #[trigger] p2[i] < g.len() by {
        if i < pushed.len() {
            assert(p2[i] == pushed[i]);
        }
    }
    assert(p2.contains(root)) by {
        let i = choose|i: int| 0 <= i < pushed.len() && pushed[i] == root;
        assert(p2[i] == root);
    }
    assert forall|k: int|
        0 <= k < st2.len() implies #[trigger] st2[k].0 < g.len() && 1 <= st2[k].1 <= p2.len() && visited_with(
            g,
            sz,
            root,
            st2[k].0,
            st2[k].1 as int,
        ) by {
        if k < st.len() {
            assert(st2[k] == st[k]);
        }
    }
    assert forall|k1: int, k2: int| 0 <= k1 < k2 < st2.len() implies (#[trigger] st2[k1]).0 != (#[trigger] st2[k2]).0 by {
        assert(st2[k1] == st[k1]);
        if k2 < st.len() {
            assert(st2[k2] == st[k2]);
        } else {
            assert(stack_holds(st, st[k1].0));
        }
    }
    assert forall|x: usize| #[trigger] p2.contains(x) <==> (done.contains(x) || stack_holds(st2, x)) by {
        let kc = st.len() as int;
        assert(st2[kc] == (c, next_sep));
        if p2.contains(x) {
            let i = choose|i: int| 0 <= i < p2.len() && p2[i] == x;
            if i < pushed.len() {
                assert(pushed[i] == x);
                assert(pushed.contains(x));
                if !done.contains(x) {
                    assert(stack_holds(st, x));
                    let k = choose|k: int| 0 <= k < st.len() && #[trigger] st[k].0 == x;
                    assert(st2[k] == st[k]);
                    assert(st2[k].0 == x);
                }
            } else {
                assert(x == c);
                assert(st2[kc].0 == x);
            }
        }
        if done.contains(x) {
            assert(pushed.contains(x));
            let i = choose|i: int| 0 <= i < pushed.len() && pushed[i] == x;
            assert(p2[i] == x);
        }
        if stack_holds(st2, x) {
            let k = choose|k: int| 0 <= k < st2.len() && #[trigger] st2[k].0 == x;
            if k < st.len() {
                assert(st2[k] == st[k]);
                assert(st[k].0 == x);
                assert(stack_holds(st, x));
                assert(pushed.contains(x));
                let i = choose|i: int| 0 <= i < pushed.len() && pushed[i] == x;
                assert(p2[i] == x);
            } else {
                assert(x == c);
                assert(p2[pushed.len() as int] == x);
            }
        }
    }
    assert forall|x: usize| #[trigger] done.contains(x) implies !stack_holds(st2, x) by {
        if stack_holds(st2, x) {
            let k = choose|k: int| 0 <= k < st2.len() && #[trigger] st2[k].0 == x;
            if k < st.len() {
                assert(st[k].0 == x);
            }
        }
    }
    assert forall|x: usize| #[trigger] p2.contains(x) && x != root implies exists|y: usize|
        #[trigger] done.contains(y) && y < g.len() && g[y as int].contains(x) by {
        if x != c {
            let i = choose|i: int| 0 <= i < p2.len() && p2[i] == x;
            assert(pushed[i] == x);
            assert(pushed.contains(x));
        } else {
            assert(done.contains(v));
        }
    }
    assert forall|x: usize, d: usize|
        done.contains(x) && x != v && #[trigger] large_children(g, sz, x).contains(d) implies p2.contains(d) by {
        assert(pushed.contains(d));
        let i = choose|i: int| 0 <= i < pushed.len() && pushed[i] == d;
        assert(p2[i] == d);
    }
}

proof fn lemma_row_state(
    g: Seq<Set<usize>>,
    sz: Seq<usize>,
    root: usize,
    st: Seq<(usize, usize)>,
    pushed: Seq<usize>,
    done: Set<usize>,
    r0: Seq<(usize, usize)>,
    rows: Seq<(usize, usize)>,
    rn0: Seq<usize>,
    v: usize,
    sep: usize,
)
    requires
        traverse_state(g, sz, root, st, pushed, done, r0, rn0, v as int),
        done.contains(v),
        large_children(g, sz, v).len() >= 2,
        visited_with(g, sz, root, v, sep as int),
        !rn0.contains(v),
        rows == r0.push(((sz[v as int] + sep) as usize, sep)),
        sz[v as int] + sep <= usize::MAX,
    ensures
        traverse_state(g, sz, root, st, pushed, done, rows, rn0.push(v), v as int),
{
    let rn = rn0.push(v);
    assert(rn.no_duplicates()) by {
        assert forall|a: int, b: int| 0 <= a < b < rn.len() implies rn[a] != rn[b] by {
            if b == rn0.len() {
                assert(rn0.contains(rn0[a]));
            }
        }
    }
    assert forall|i: int|
        0 <= i < rn.len() implies done.contains(#[trigger] rn[i]) && large_children(g, sz, rn[i]).len() >= 2
            && visited_with(g, sz, root, rn[i], rows[i].1 as int) && rows[i].0 == sz[rn[i] as int] + rows[i].1 by {
        if i < rn0.len() {
            assert(rn[i] == rn0[i] && rows[i] == r0[i]);
        }
    }
    assert forall|x: usize| #[trigger] done.contains(x) && x != v && large_children(g, sz, x).len() >= 2 implies rn.contains(
        x,
    ) by {
        let i = choose|i: int| 0 <= i < rn0.len() && rn0[i] == x;
        assert(rn[i] == x);
    }
}

proof fn lemma_close_state(
    g: Seq<Set<usize>>,
    sz: Seq<usize>,
    root: usize,
    st: Seq<(usize, usize)>,
    pushed: Seq<usize>,
    done: Set<usize>,
    rows: Seq<(usize, usize)>,
    rnodes: Seq<usize>,
    v: usize,
)
    requires
        traverse_state(g, sz, root, st, pushed, done, rows, rnodes, v as int),
        forall|c: usize| #[trigger] large_children(g, sz, v).contains(c) ==> pushed.contains(c),
        large_children(g, sz, v).len() >= 2 ==> rnodes.contains(v),
    ensures
        traverse_state(g, sz, root, st, pushed, done, rows, rnodes, -1),
{
}

/// The graph with each edge `a - b` directed from the node earlier in the
/// order to the other.
pub open spec fn directed_by_order(graph: Seq<Set<usize>>, pos: Seq<usize>) -> Seq<Set<usize>> {
    Seq::new(
        graph.len(),
        |a: int|
            Set::new(
                |b: usize|
                    (graph[a].contains(b) && pos[a] < pos[b as int]) || (b < graph.len() && graph[b as int].contains(
                        a as usize,
                    ) && !(pos[b as int] < pos[a])),
            ),
    )
}

proof fn lemma_elimination_tree_finite(g: Seq<Set<usize>>, order: Seq<usize>, pos: Seq<usize>, i: nat)
    requires
        in_range(g),
        is_order_with_positions(order, pos, g.len()),
        i <= g.len(),
    ensures
        forall|p: int| 0 <= p < g.len() ==> (#[trigger] eliminate(g, order, pos, i).1[p]).finite(),
    decreases i,
{
    lemma_elimination_facts(g, order, pos, i);
    if i > 0 {
        lemma_elimination_tree_finite(g, order, pos, (i - 1) as nat);
        lemma_elimination_facts(g, order, pos, (i - 1) as nat);
        let st = eliminate(g, order, pos, (i - 1) as nat);
        let v = order[i - 1];
        if st.0[v as int] != Set::<usize>::empty() {
            lemma_lowest(st.0[v as int], order, pos, g.len());
        }
    }
}

/// The separator sizes of the nested dissection that a node order describes:
/// the elimination tree of the order is built, rooted at the last node of
/// the order that has a child, its subtree sizes are summed, and the rows of
/// its branching nodes are read off (see [`traverse_separator_tree`]). The
/// order must list each node once, the graph must have an edge and no loop.
pub fn compute_separator_sizes_from_order(graph: &Graph, order: &[usize]) -> (rows: Vec<(usize, usize)>)
    requires
        in_range(graph@),
        order@.len() == graph@.len(),
        2 * graph@.len() <= usize::MAX,
        order@.no_duplicates(),
        forall|i: int| 0 <= i < order@.len() ==> #[trigger] order@[i] < graph@.len(),
        forall|v: usize| v < graph@.len() ==> #[trigger] order@.contains(v),
        forall|a: int| 0 <= a < graph@.len() ==> !#[trigger] graph@[a].contains(a as usize),
        exists|a: int, b: usize| 0 <= a < graph@.len() && #[trigger] graph@[a].contains(b),
    ensures
        exists|pos: Seq<usize>, root: usize, sizes: Seq<usize>|
            {
                &&& is_order_with_positions(order@, pos, graph@.len())
                &&& is_last_with_children(elimination_tree(directed_by_order(graph@, pos), order@, pos), order@, root)
                &&& is_subtree_sizes(elimination_tree(directed_by_order(graph@, pos), order@, pos), root, sizes)
                &&& are_separator_rows(elimination_tree(directed_by_order(graph@, pos), order@, pos), sizes, root, rows@)
            },
{
    let ghost n = graph@.len();
    let pos = get_positions_from_order(order);
    proof {
        assert forall|i: int| 0 <= i < n implies #[trigger] order@[i] < n && pos@[order@[i] as int] == i by {
            let v = order@[i];
            assert(order@[i] == v);
            assert(pos@[v as int] < n);
            let t = pos@[v as int] as int;
            assert(order@[t] == v);
            if t != i {
                assert(order@[t] == order@[i]);
            }
        }
        assert forall|v: int| 0 <= v < n implies #[trigger] pos@[v] < n && order@[pos@[v] as int] == v by {
            assert(order@.contains(v as usize));
            let i = choose|i: int| 0 <= i < order@.len() && order@[i] == v as usize;
            assert(order@[i] == v);
        }
        assert(is_order_with_positions(order@, pos@, n));
    }
    let directed = get_directed_graph(graph, &pos);
    let ghost d = directed_by_order(graph@, pos@);
    proof {
        assert forall|a: int| 0 <= a < n implies #[trigger] directed@[a] =~= d[a] by {
            assert forall|b: usize| directed@[a].contains(b) == d[a].contains(b) by {
                assert(directed@[a as usize as int].contains(b) == d[a].contains(b));
            }
        }
        assert(directed@ =~= d);
        assert(in_range(d));
        assert forall|a: int, b: usize| 0 <= a < d.len() && #[trigger] d[a].contains(b) implies pos@[a] < pos@[b as int] by {
            if !(graph@[a].contains(b) && pos@[a] < pos@[b as int]) {
                assert(graph@[b as int].contains(a as usize));
                assert(b != a as usize);
                assert(order@[pos@[a] as int] == a);
                assert(order@[pos@[b as int] as int] == b);
            }
        }
        assert(is_upward(d, pos@));
    }
    let tree = chordalize_and_tree(&directed, order, &pos);
    let ghost t = tree@;
    proof {
        lemma_elimination_facts(d, order@, pos@, n);
        lemma_elimination_tree_finite(d, order@, pos@, n);
        let (a, b) = choose|a: int, b: usize| 0 <= a < n && #[trigger] graph@[a].contains(b);
        assert(b < n);
        assert(a != b as int);
        let (x, y) = if pos@[a] < pos@[b as int] {
            (a as usize, b)
        } else {
            (b, a as usize)
        };
        assert(d[x as int].contains(y)) by {
            if !(pos@[a] < pos@[b as int]) {
                assert(order@[pos@[a] as int] == a);
                assert(order@[pos@[b as int] as int] == b);
            }
        }
        lemma_elimination_tree_covers_edges(d, order@, pos@, x, y);
        assert(reachable(t, y, x));
        let k = choose|k: nat| #[trigger] crate::graph::has_walk(t, y, x, k);
        let w = choose|w: Seq<usize>|
            #[trigger] crate::graph::is_walk(t, w) && w.len() == k + 1 && w[0] == y && w[w.len() - 1] == x;
        assert(x != y) by {
            assert(order@[pos@[x as int] as int] == x);
        }
        assert(k > 0);
        assert(crate::graph::walk_step(t, w, 0));
        assert(t[y as int].contains(w[1]));
        assert(t[y as int].len() > 0);
        assert(order@[pos@[y as int] as int] == y);
        assert(t[order@[pos@[y as int] as int] as int].len() > 0);
    }
    let root = get_root_node(&tree, order);
    proof {
        let k = choose|k: int|
            0 <= k < order@.len() && order@[k] == root && t[root as int].len() > 0 && forall|j: int|
                k < j < order@.len() ==> t[#[trigger] order@[j] as int].len() == 0;
        assert(pos@[root as int] == k);
        assert forall|p: int| 0 <= p < t.len() implies !#[trigger] t[p].contains(root) by {
            if t[p].contains(root) {
                lemma_elimination_tree_parent_later(d, order@, pos@, p as usize, root);
                assert(t[p].len() > 0);
                assert(order@[pos@[p] as int] == p);
                assert(t[order@[pos@[p] as int] as int].len() == 0);
            }
        }
        assert(is_rooted_tree(t, root));
    }
    let sizes = get_subtree_sizes(&tree, root);
    let rows = traverse_separator_tree(&tree, root, sizes.as_slice());
    proof {
        assert(is_last_with_children(elimination_tree(directed_by_order(graph@, pos@), order@, pos@), order@, root));
    }
    rows
}

} // verus!
