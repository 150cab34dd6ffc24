//! Lowest common ancestors in a rooted tree by binary lifting.
use crate::components::{count_unused, lemma_count_unused_set};
use crate::graph::{has_walk, is_bfs_result, is_hop_distance, is_walk, reachable, walk_step, Graph};
use crate::reach::{lemma_closed_set_holds_reachable, lemma_reach_self, lemma_reach_step};
use vstd::arithmetic::power2::{lemma_pow2_adds, lemma_pow2_pos, lemma_pow2_unfold, pow2};
use vstd::prelude::*;

verus! {

/// The ancestor `k` levels above `u` following `par`, if there is one.
pub open spec fn anc(par: Seq<Option<usize>>, u: usize, k: nat) -> Option<usize>
    decreases k,
{
    if k == 0 {
        Some(u)
    } else {
        match anc(par, u, (k - 1) as nat) {
            Some(w) => par[w as int],
            None => None,
        }
    }
}

/// Parents and depths agree: a node with a parent lies one level below it,
/// a node without one is at depth 0.
pub open spec fn is_rooted_forest(par: Seq<Option<usize>>, depth: Seq<usize>) -> bool {
    &&& par.len() == depth.len()
    &&& forall|u: int|
        0 <= u < par.len() ==> match #[trigger] par[u] {
            Some(p) => p < par.len() && depth[u] == depth[p as int] + 1,
            None => depth[u] == 0,
        }
}

/// `par` and `depth` describe the tree that a search from node 0 spans in
/// `adj`: each parent is a neighbour, node 0 is the root, the nodes with a
/// parent (and node 0) are those that node 0 reaches, and each of them walks
/// up its depth to node 0.
pub open spec fn spans(par: Seq<Option<usize>>, depth: Seq<usize>, adj: Seq<Set<usize>>) -> bool {
    &&& is_rooted_forest(par, depth)
    &&& par.len() == adj.len()
    &&& adj.len() > 0
    &&& par[0] is None
    &&& forall|u: int|
        0 <= u < adj.len() ==> (#[trigger] par[u] matches Some(p) ==> adj[p as int].contains(u as usize))
    &&& forall|u: usize|
        u < adj.len() ==> ((u == 0 || par[u as int] is Some) <==> #[trigger] reachable(adj, 0, u))
    &&& forall|u: usize|
        u < adj.len() && (u == 0 || par[u as int] is Some) ==> #[trigger] anc(par, u, depth[u as int] as nat)
            == Some(0usize)
}

/// The ancestor of `u` at depth `d`.
pub open spec fn anc_at(par: Seq<Option<usize>>, depth: Seq<usize>, u: usize, d: nat) -> Option<usize> {
    anc(par, u, (depth[u as int] - d) as nat)
}

/// `r` is the deepest node that is an ancestor (or the node itself) of both
/// `u` and `v`.
pub open spec fn is_lowest_common_ancestor(
    par: Seq<Option<usize>>,
    depth: Seq<usize>,
    u: usize,
    v: usize,
    r: usize,
) -> bool {
    &&& r < par.len()
    &&& depth[r as int] <= depth[u as int]
    &&& depth[r as int] <= depth[v as int]
    &&& anc_at(par, depth, u, depth[r as int] as nat) == Some(r)
    &&& anc_at(par, depth, v, depth[r as int] as nat) == Some(r)
    &&& forall|d: nat|
        depth[r as int] < d <= depth[u as int] && d <= depth[v as int] ==> anc_at(par, depth, u, d)
            != #[trigger] anc_at(par, depth, v, d)
}

/// Walking up `a` levels and then `b` more is walking up `a + b` levels.
pub proof fn lemma_anc_add(par: Seq<Option<usize>>, u: usize, a: nat, b: nat)
    ensures
        anc(par, u, a + b) == match anc(par, u, a) {
            Some(w) => anc(par, w, b),
            None => None,
        },
    decreases b,
{
    if b > 0 {
        lemma_anc_add(par, u, a, (b - 1) as nat);
        assert((a + b - 1) as nat == a + (b - 1) as nat);
        match anc(par, u, a) {
            Some(w) => {},
            None => {},
        }
    }
}

/// A node found from node 0 walks up its depth to node 0, where each parent
/// is node 0 or has a parent itself.
pub proof fn lemma_walk_to_root(par: Seq<Option<usize>>, depth: Seq<usize>, u: usize)
    requires
        is_rooted_forest(par, depth),
        u < par.len(),
        forall|w: int| 0 <= w < par.len() ==> (#[trigger] par[w] matches Some(p) ==> p == 0 || par[p as int] is Some),
        u == 0 || par[u as int] is Some,
    ensures
        anc(par, u, depth[u as int] as nat) == Some(0usize),
    decreases depth[u as int],
{
    match par[u as int] {
        None => {
            assert(depth[u as int] == 0);
        },
        Some(p) => {
            lemma_walk_to_root(par, depth, p);
            lemma_anc_add(par, u, 1, depth[p as int] as nat);
            assert(anc(par, u, 1) == par[u as int]) by {
                assert(anc(par, u, 0) == Some(u));
            }
            assert(depth[u as int] as nat == 1 + depth[p as int] as nat);
        },
    }
}

/// Walking up at most `depth[u]` levels ends at a node of the matching depth;
/// walking further ends nowhere.
pub proof fn lemma_anc_depth(par: Seq<Option<usize>>, depth: Seq<usize>, u: usize, k: nat)
    requires
        is_rooted_forest(par, depth),
        u < par.len(),
    ensures
        k <= depth[u as int] ==> (anc(par, u, k) matches Some(w) && w < par.len() && depth[w as int] + k
            == depth[u as int]),
        k > depth[u as int] ==> anc(par, u, k) is None,
    decreases k,
{
    if k > 0 {
        lemma_anc_depth(par, depth, u, (k - 1) as nat);
        match anc(par, u, (k - 1) as nat) {
            Some(w) => {
                let pw = par[w as int];
                assert(pw == anc(par, u, k));
            },
            None => {},
        }
    }
}

/// Two nodes that share an ancestor at depth `d` share one at every depth
/// above it.
pub proof fn lemma_common_ancestor_above(
    par: Seq<Option<usize>>,
    depth: Seq<usize>,
    u: usize,
    v: usize,
    d: nat,
    e: nat,
)
    requires
        is_rooted_forest(par, depth),
        u < par.len(),
        v < par.len(),
        e <= d,
        d <= depth[u as int],
        d <= depth[v as int],
        anc_at(par, depth, u, d) == anc_at(par, depth, v, d),
    ensures
        anc_at(par, depth, u, e) == anc_at(par, depth, v, e),
{
    lemma_anc_add(par, u, (depth[u as int] - d) as nat, (d - e) as nat);
    lemma_anc_add(par, v, (depth[v as int] - d) as nat, (d - e) as nat);
    assert((depth[u as int] - d) as nat + (d - e) as nat == (depth[u as int] - e) as nat);
    assert((depth[v as int] - d) as nat + (d - e) as nat == (depth[v as int] - e) as nat);
    lemma_anc_depth(par, depth, u, (depth[u as int] - d) as nat);
}

/// The number of `true` entries is at most the length.
proof fn lemma_count_unused_le(s: Seq<bool>)
    ensures
        count_unused(s) <= s.len(),
    decreases s.len(),
{
    if s.len() > 0 {
        lemma_count_unused_le(s.drop_last());
    }
}

/// Lowest common ancestors in the tree that a depth-first search from node 0
/// spans, answered by binary lifting.
pub struct LcaUtil {
    n: usize,
    log_n: usize,
    parent: Vec<Vec<Option<usize>>>,
    depth: Vec<usize>,
}

impl LcaUtil {
    /// The parent of each node in the spanning tree (`None` at node 0 and at
    /// the nodes that node 0 does not reach).
    pub closed spec fn parents(&self) -> Seq<Option<usize>> {
        Seq::new(self.parent@.len(), |u: int| self.parent@[u]@[0])
    }

    /// The depth of each node in the spanning tree.
    pub closed spec fn depths(&self) -> Seq<usize> {
        self.depth@
    }

    /// The table holds, at `[u][j]`, the ancestor `2^j` levels above `u`.
    pub closed spec fn wf(&self) -> bool {
        &&& self.n == self.parent@.len()
        &&& self.n == self.depth@.len()
        &&& 0 < self.n
        &&& 2 * self.n <= usize::MAX
        &&& 1 <= self.log_n
        &&& self.n < pow2(self.log_n as nat)
        &&& forall|u: int| 0 <= u < self.n ==> (#[trigger] self.parent@[u])@.len() == self.log_n
        &&& forall|u: int, j: int|
            0 <= u < self.n && 0 <= j < self.log_n ==> #[trigger] self.parent@[u]@[j] == anc(
                self.parents(),
                u as usize,
                pow2(j as nat),
            )
        &&& is_rooted_forest(self.parents(), self.depth@)
        &&& forall|u: int| 0 <= u < self.n ==> #[trigger] self.depth@[u] < self.n
    }
}

/// What the search from node 0 keeps: `done` marks the nodes taken from the
/// stack, whose depth and parent are set; `visited` marks those taken or on
/// the stack.
spec fn search_state(
    adj: Seq<Set<usize>>,
    n: nat,
    visited: Seq<bool>,
    done: Seq<bool>,
    depth: Seq<usize>,
    table: Seq<Vec<Option<usize>>>,
    log_n: nat,
    stack: Seq<(usize, usize, Option<usize>)>,
) -> bool {
    let vc = n - count_unused(visited);
    &&& adj.len() == n
    &&& visited.len() == n
    &&& done.len() == n
    &&& depth.len() == n
    &&& table.len() == n
    &&& visited[0]
    &&& forall|w: int| 0 <= w < n ==> (#[trigger] table[w])@.len() == log_n
    &&& forall|w: int, j: int| 0 <= w < n && 1 <= j < log_n ==> (#[trigger] table[w]@[j]) is None
    &&& forall|k: int|
        0 <= k < stack.len() ==> {
            let (w, d, pw) = #[trigger] stack[k];
            &&& w < n
            &&& visited[w as int]
            &&& !done[w as int]
            &&& d < vc
            &&& match pw {
                Some(p) => w != 0 && p < n && done[p as int] && depth[p as int] + 1 == d && adj[p as int].contains(
                    w,
                ),
                None => w == 0 && d == 0,
            }
        }
    &&& forall|k1: int, k2: int| 0 <= k1 < k2 < stack.len() ==> (#[trigger] stack[k1]).0 != (#[trigger] stack[k2]).0
    &&& forall|w: int|
        0 <= w < n ==> (#[trigger] visited[w] <==> (done[w] || exists|k: int| 0 <= k < stack.len() && stack[k].0 == w))
    &&& forall|w: int|
        0 <= w < n ==> #[trigger] done[w] ==> {
            &&& depth[w] < vc
            &&& match table[w]@[0] {
                Some(p) => w != 0 && p < n && done[p as int] && depth[w] == depth[p as int] + 1 && adj[p as int].contains(
                    w as usize,
                ),
                None => w == 0 && depth[w] == 0,
            }
        }
    &&& forall|w: int| 0 <= w < n && !#[trigger] done[w] ==> depth[w] == 0 && table[w]@[0] is None
    &&& forall|w: int| 0 <= w < n && #[trigger] visited[w] ==> reachable(adj, 0, w as usize)
}

/// Every node taken from the stack, but `skip`, has all its neighbours
/// visited.
spec fn closed_except(adj: Seq<Set<usize>>, n: nat, visited: Seq<bool>, done: Seq<bool>, skip: int) -> bool {
    forall|w: int, x: usize|
        0 <= w < n && w != skip && done[w] && #[trigger] adj[w].contains(x) && x < n ==> visited[x as int]
}

pub proof fn lemma_count_unused_all(n: nat)
    ensures
        count_unused(Seq::new(n, |i: int| false)) == n,
    decreases n,
{
    if n > 0 {
        assert(Seq::new(n, |i: int| false).drop_last() =~= Seq::new((n - 1) as nat, |i: int| false));
        lemma_count_unused_all((n - 1) as nat);
    }
}

#[verifier::spinoff_prover]
#[verifier::rlimit(80)]
proof fn lemma_after_pop(
    adj: Seq<Set<usize>>,
    n: nat,
    visited: Seq<bool>,
    done: Seq<bool>,
    depth: Seq<usize>,
    table: Seq<Vec<Option<usize>>>,
    table2: Seq<Vec<Option<usize>>>,
    log_n: nat,
    stack: Seq<(usize, usize, Option<usize>)>,
)
    requires
        search_state(adj, n, visited, done, depth, table, log_n, stack),
        closed_except(adj, n, visited, done, -1),
        stack.len() > 0,
        log_n >= 1,
        table2.len() == n,
        stack.last().0 < n,
        table2[stack.last().0 as int]@ == table[stack.last().0 as int]@.update(0, stack.last().2),
        forall|w: int| 0 <= w < n && w != stack.last().0 ==> table2[w] == table[w],
    ensures
        ({
            let (u, d, pu) = stack.last();
            &&& u < n
            &&& !done[u as int]
            &&& search_state(
                adj,
                n,
                visited,
                done.update(u as int, true),
                depth.update(u as int, d),
                table2,
                log_n,
                stack.drop_last(),
            )
            &&& closed_except(adj, n, visited, done.update(u as int, true), u as int)
            &&& pu matches Some(p) ==> p < n && done[p as int]
        }),
{
    let (u, d, pu) = stack.last();
    let k0 = stack.len() - 1;
    assert(stack[k0] == stack.last());
    let done2 = done.update(u as int, true);
    let depth2 = depth.update(u as int, d);
    let st2 = stack.drop_last();
    let vc = n - count_unused(visited);
    assert forall|w: int| 0 <= w < n implies (#[trigger] table2[w])@.len() == log_n by {
        assert(table[w]@.len() == log_n);
    }
    assert forall|w: int, j: int| 0 <= w < n && 1 <= j < log_n implies (#[trigger] table2[w]@[j]) is None by {
        assert(table[w]@[j] is None);
    }
    assert forall|k: int| 0 <= k < st2.len() implies {
        let (w, e, pw) = #[trigger] st2[k];
        &&& w < n
        &&& visited[w as int]
        &&& !done2[w as int]
        &&& e < vc
        &&& match pw {
            Some(p) => w != 0 && p < n && done2[p as int] && depth2[p as int] + 1 == e && adj[p as int].contains(w),
            None => w == 0 && e == 0,
        }
    } by {
        assert(st2[k] == stack[k]);
        assert(stack[k].0 != stack[k0].0);
        match stack[k].2 {
            Some(p) => {
                assert(done[p as int]);
                assert(p != u);
            },
            None => {},
        }
    }
    assert forall|k1: int, k2: int| 0 <= k1 < k2 < st2.len() implies (#[trigger] st2[k1]).0 != (
    #[trigger] st2[k2]).0 by {
        assert(st2[k1] == stack[k1]);
        assert(st2[k2] == stack[k2]);
    }
    assert forall|w: int|
        0 <= w < n implies (#[trigger] visited[w] <==> (done2[w] || exists|k: int|
            0 <= k < st2.len() && st2[k].0 == w)) by {
        if visited[w] && !done2[w] {
            let k = choose|k: int| 0 <= k < stack.len() && stack[k].0 == w;
            assert(k != k0);
            assert(st2[k] == stack[k]);
        }
        if exists|k: int| 0 <= k < st2.len() && st2[k].0 == w {
            let k = choose|k: int| 0 <= k < st2.len() && st2[k].0 == w;
            assert(st2[k] == stack[k]);
        }
    }
    assert forall|w: int| 0 <= w < n && #[trigger] done2[w] implies {
        &&& depth2[w] < vc
        &&& match table2[w]@[0] {
            Some(p) => w != 0 && p < n && done2[p as int] && depth2[w] == depth2[p as int] + 1 && adj[p as int].contains(
                w as usize,
            ),
            None => w == 0 && depth2[w] == 0,
        }
    } by {
        if w != u as int {
            assert(done[w]);
            match table[w]@[0] {
                Some(p) => {
                    assert(done[p as int]);
                    assert(p != u);
                },
                None => {},
            }
        } else {
            match pu {
                Some(p) => {
                    assert(done[p as int]);
                    assert(p != u);
                },
                None => {},
            }
        }
    }
    assert forall|w: int| 0 <= w < n && !#[trigger] done2[w] implies depth2[w] == 0 && table2[w]@[0] is None by {
        assert(!done[w]);
    }
}

#[verifier::rlimit(40)]
proof fn lemma_after_push(
    adj: Seq<Set<usize>>,
    n: nat,
    visited: Seq<bool>,
    done: Seq<bool>,
    depth: Seq<usize>,
    table: Seq<Vec<Option<usize>>>,
    log_n: nat,
    stack: Seq<(usize, usize, Option<usize>)>,
    u: usize,
    w: usize,
)
    requires
        search_state(adj, n, visited, done, depth, table, log_n, stack),
        closed_except(adj, n, visited, done, u as int),
        u < n,
        w < n,
        done[u as int],
        !visited[w as int],
        adj[u as int].contains(w),
        reachable(adj, 0, w),
        n <= usize::MAX,
    ensures
        search_state(
            adj,
            n,
            visited.update(w as int, true),
            done,
            depth,
            table,
            log_n,
            stack.push((w, (depth[u as int] + 1) as usize, Some(u))),
        ),
        closed_except(adj, n, visited.update(w as int, true), done, u as int),
        count_unused(visited.update(w as int, true)) < count_unused(visited),
{
    lemma_count_unused_set(visited, w as int);
    let v2 = visited.update(w as int, true);
    let st2 = stack.push((w, (depth[u as int] + 1) as usize, Some(u)));
    let vc = n - count_unused(visited);
    let vc2 = n - count_unused(v2);
    assert(depth[u as int] < vc);
    assert(w != 0);
    assert forall|k: int| 0 <= k < st2.len() implies {
        let (x, e, px) = #[trigger] st2[k];
        &&& x < n
        &&& v2[x as int]
        &&& !done[x as int]
        &&& e < vc2
        &&& match px {
            Some(p) => x != 0 && p < n && done[p as int] && depth[p as int] + 1 == e && adj[p as int].contains(x),
            None => x == 0 && e == 0,
        }
    } by {
        if k < stack.len() {
            assert(st2[k] == stack[k]);
            assert(visited[stack[k].0 as int]);
            assert(stack[k].0 != w);
        } else {
            assert(st2[k] == (w, (depth[u as int] + 1) as usize, Some(u)));
            assert(!done[w as int]) by {
                if done[w as int] {
                    assert(visited[w as int]);
                }
            }
            assert((depth[u as int] + 1) as usize == depth[u as int] + 1);
        }
    }
    assert forall|k1: int, k2: int| 0 <= k1 < k2 < st2.len() implies (#[trigger] st2[k1]).0 != (
    #[trigger] st2[k2]).0 by {
        assert(st2[k1] == stack[k1]);
        if k2 < stack.len() {
            assert(st2[k2] == stack[k2]);
        } else {
            assert(visited[stack[k1].0 as int]);
        }
    }
    assert forall|x: int|
        0 <= x < n implies (#[trigger] v2[x] <==> (done[x] || exists|k: int| 0 <= k < st2.len() && st2[k].0 == x)) by {
        if x == w as int {
            assert(st2[stack.len() as int].0 == w);
        } else {
            if visited[x] && !done[x] {
                let k = choose|k: int| 0 <= k < stack.len() && stack[k].0 == x;
                assert(st2[k] == stack[k]);
            }
            if exists|k: int| 0 <= k < st2.len() && st2[k].0 == x {
                let k = choose|k: int| 0 <= k < st2.len() && st2[k].0 == x;
                if k < stack.len() {
                    assert(st2[k] == stack[k]);
                }
            }
        }
    }
    assert forall|x: int| 0 <= x < n && #[trigger] done[x] implies depth[x] < vc2 by {
        assert(depth[x] < vc);
    }
}

/// A row of `len` empty entries.
fn none_row(len: usize) -> (r: Vec<Option<usize>>)
    ensures
        r@.len() == len,
        forall|j: int| 0 <= j < len ==> (#[trigger] r@[j]) is None,
{
    let mut r: Vec<Option<usize>> = Vec::new();
    let mut k: usize = 0;
    while k < len
        invariant
            k <= len,
            r@.len() == k,
            forall|j: int| 0 <= j < k ==> (#[trigger] r@[j]) is None,
        decreases len - k,
    {
        r.push(None);
        k = k + 1;
    }
    r
}

/// Depth-first search from node 0: the parent through which each node was
/// found (first column of the table) and its depth.
fn search_from_root(tree: &Graph, log_n: usize) -> (r: (Vec<Vec<Option<usize>>>, Vec<usize>))
    requires
        tree@.len() > 0,
        log_n >= 1,
    ensures
        r.0@.len() == tree@.len(),
        r.1@.len() == tree@.len(),
        forall|w: int| 0 <= w < tree@.len() ==> (#[trigger] r.0@[w])@.len() == log_n,
        forall|w: int, j: int| 0 <= w < tree@.len() && 1 <= j < log_n ==> (#[trigger] r.0@[w]@[j]) is None,
        forall|w: int| 0 <= w < tree@.len() ==> #[trigger] r.1@[w] < tree@.len(),
        forall|w: int|
            0 <= w < tree@.len() ==> match (#[trigger] r.0@[w])@[0] {
                Some(p) => w != 0 && p < tree@.len() && r.1@[w] == r.1@[p as int] + 1 && tree@[p as int].contains(
                    w as usize,
                ),
                None => r.1@[w] == 0,
            },
        forall|u: usize|
            u < tree@.len() ==> ((u == 0 || r.0@[u as int]@[0] is Some) <==> #[trigger] reachable(tree@, 0, u)),
        forall|w: int|
            0 <= w < tree@.len() ==> ((#[trigger] r.0@[w])@[0] matches Some(p) ==> p == 0 || r.0@[p as int]@[0] is Some),
{
    let n = tree.get_num_nodes();
    let ghost adj = tree@;
    let mut table: Vec<Vec<Option<usize>>> = Vec::new();
    let mut i: usize = 0;
    while i < n
        invariant
            i <= n,
            table@.len() == i,
            forall|w: int| 0 <= w < i ==> (#[trigger] table@[w])@.len() == log_n,
            forall|w: int, j: int| 0 <= w < i && 0 <= j < log_n ==> (#[trigger] table@[w]@[j]) is None,
        decreases n - i,
    {
        table.push(none_row(log_n));
        i = i + 1;
    }
    let mut depth = crate::search::filled(n, 0);
    let mut visited = crate::components::all_false(n);
    let ghost mut done: Seq<bool> = Seq::new(n as nat, |i: int| false);
    let mut stack: Vec<(usize, usize, Option<usize>)> = Vec::new();
    proof {
        lemma_count_unused_all(n as nat);
        lemma_count_unused_set(visited@, 0);
        lemma_reach_self(adj, 0);
    }
    visited.set(0, true);
    stack.push((0, 0, None));
    assert(stack@[0] == (0usize, 0usize, None::<usize>));
    while stack.len() > 0
        invariant
            search_state(adj, n as nat, visited@, done, depth@, table@, log_n as nat, stack@),
            closed_except(adj, n as nat, visited@, done, -1),
            log_n >= 1,
            n == adj.len(),
            adj == tree@,
        decreases count_unused(visited@), stack@.len(),
    {
        let top = stack.len() - 1;
        let (u, d, pu) = stack[top];
        let ghost s0 = stack@;
        let ghost t0 = table@;
        let ghost done0 = done;
        let ghost depth0 = depth@;
        assert(s0.last() == (u, d, pu));
        assert(s0[top as int].0 < n);
        assert(table@[u as int]@.len() == log_n);
        stack.pop();
        depth.set(u, d);
        table[u].set(0, pu);
        proof {
            lemma_after_pop(adj, n as nat, visited@, done0, depth0, t0, table@, log_n as nat, s0);
            done = done.update(u as int, true);
            assert(stack@ == s0.drop_last());
        }
        let nbrs = tree.get_neighbors(u).to_vec();
        let ghost c0 = count_unused(visited@);
        let ghost l0 = stack@.len();
        let mut k: usize = 0;
        while k < nbrs.len()
            invariant
                search_state(adj, n as nat, visited@, done, depth@, table@, log_n as nat, stack@),
                closed_except(adj, n as nat, visited@, done, u as int),
                u < n,
                done[u as int],
                depth@[u as int] == d,
                nbrs@.to_set() == adj[u as int],
                k <= nbrs@.len(),
                forall|j: int| 0 <= j < k && nbrs@[j] < n ==> visited@[#[trigger] nbrs@[j] as int],
                pu matches Some(p) ==> p < n && done[p as int],
                log_n >= 1,
                n == adj.len(),
                adj == tree@,
                count_unused(visited@) <= c0,
                count_unused(visited@) == c0 ==> stack@.len() == l0,
            decreases nbrs@.len() - k,
        {
            let w = nbrs[k];
            assert(nbrs@.to_set().contains(w));
            if w < n {
                let is_parent = match pu {
                    Some(p) => p == w,
                    None => false,
                };
                if !is_parent && !visited[w] {
                    proof {
                        lemma_reach_step(adj, 0, u, w);
                        lemma_after_push(adj, n as nat, visited@, done, depth@, table@, log_n as nat, stack@, u, w);
                    }
                    visited.set(w, true);
                    stack.push((w, d + 1, Some(u)));
                }
            }
            k = k + 1;
        }
        proof {
            assert forall|w: int, x: usize|
                0 <= w < n && w != -1 && done[w] && #[trigger] adj[w].contains(x) && x < n implies visited@[x as int] by {
                if w == u as int {
                    let j = choose|j: int| 0 <= j < nbrs@.len() && nbrs@[j] == x;
                }
            }
        }
    }
    proof {
        lemma_count_unused_le(visited@);
        let m = Set::new(|w: usize| w >= n || visited@[w as int]);
        assert forall|w: int| 0 <= w < n implies #[trigger] depth@[w] < n by {
            if done[w] {
            }
        }
        assert forall|w: int| 0 <= w < n implies visited@[w] == done[w] by {}
        assert(m.contains(0));
        assert forall|a: usize, b: usize|
            m.contains(a) && a < adj.len() && #[trigger] adj[a as int].contains(b) implies m.contains(b) by {
            if b < n {
                assert(done[a as int]);
            }
        }
        assert forall|u: usize| u < n implies ((u == 0 || table@[u as int]@[0] is Some) <==> #[trigger] reachable(
            adj,
            0,
            u,
        )) by {
            if reachable(adj, 0, u) {
                lemma_closed_set_holds_reachable(adj, m, 0, u);
                assert(visited@[u as int]);
                assert(done[u as int]);
            }
            if table@[u as int]@[0] is Some {
                assert(done[u as int]);
            }
        }
        assert forall|w: int|
            0 <= w < n implies match (#[trigger] table@[w])@[0] {
                Some(p) => w != 0 && p < n && depth@[w] == depth@[p as int] + 1 && adj[p as int].contains(w as usize),
                None => depth@[w] == 0,
            } by {
            if done[w] {
            }
        }
        assert forall|w: int| 0 <= w < n implies ((#[trigger] table@[w])@[0] matches Some(p) ==> p == 0
            || table@[p as int]@[0] is Some) by {
            if table@[w]@[0] is Some {
                assert(done[w]);
                let p = table@[w]@[0]->0;
                assert(done[p as int]);
            }
        }
    }
    (table, depth)
}

impl LcaUtil {
    /// Roots the tree at node 0 by a depth-first search and tabulates, for
    /// each node, its ancestors `1, 2, 4, ...` levels up. A node that the
    /// search does not reach has no parent and depth 0.
    pub fn new(tree: &Graph) -> (r: LcaUtil)
        requires
            tree@.len() > 0,
            2 * tree@.len() <= usize::MAX,
        ensures
            r.wf(),
            r.parents().len() == tree@.len(),
            r.parents()[0] is None,
            forall|u: int|
                0 <= u < tree@.len() ==> (#[trigger] r.parents()[u] matches Some(p) ==> tree@[p as int].contains(
                    u as usize,
                )),
            forall|u: usize|
                u < tree@.len() ==> ((u == 0 || r.parents()[u as int] is Some) <==> #[trigger] reachable(
                    tree@,
                    0,
                    u,
                )),
            is_rooted_forest(r.parents(), r.depths()),
            forall|u: usize|
                u < tree@.len() && (u == 0 || r.parents()[u as int] is Some) ==> #[trigger] anc(
                    r.parents(),
                    u,
                    r.depths()[u as int] as nat,
                ) == Some(0usize),
            spans(r.parents(), r.depths(), tree@),
    {
        let n = tree.get_num_nodes();
        let mut log_n: usize = 0;
        let mut p: usize = 1;
        proof {
            vstd::arithmetic::power2::lemma2_to64();
        }
        while p <= n
            invariant
                1 <= p,
                p as nat == pow2(log_n as nat),
                p <= 2 * n,
                2 * n <= usize::MAX,
                n > 0,
                log_n < p,
                log_n == 0 ==> p == 1,
            decreases 2 * n + 1 - p,
        {
            p = p * 2;
            log_n = log_n + 1;
            proof {
                lemma_pow2_unfold(log_n as nat);
            }
        }
        let (mut table, depth) = search_from_root(tree, log_n);
        let ghost par = Seq::new(n as nat, |u: int| table@[u]@[0]);
        proof {
            assert forall|u: int| 0 <= u < n implies match #[trigger] par[u] {
                Some(q) => q < par.len() && depth@[u] == depth@[q as int] + 1,
                None => depth@[u] == 0,
            } by {
                assert(par[u] == table@[u]@[0]);
            }
            assert(is_rooted_forest(par, depth@));
            assert forall|u: int| 0 <= u < n implies #[trigger] table@[u]@[0] == anc(par, u as usize, pow2(0)) by {
                assert(pow2(0) == 1) by {
                    vstd::arithmetic::power2::lemma2_to64();
                }
                assert(anc(par, u as usize, 0) == Some(u as usize));
                assert(anc(par, u as usize, 1) == par[u]);
            }
        }
        let mut j: usize = 1;
        while j < log_n
            invariant
                1 <= j <= log_n,
                table@.len() == n,
                depth@.len() == n,
                par.len() == n,
                is_rooted_forest(par, depth@),
                forall|u: int| 0 <= u < n ==> (#[trigger] table@[u])@.len() == log_n,
                forall|u: int| 0 <= u < n ==> (#[trigger] table@[u])@[0] == par[u],
                forall|u: int, k: int|
                    0 <= u < n && 0 <= k < j ==> #[trigger] table@[u]@[k] == anc(par, u as usize, pow2(k as nat)),
                forall|u: int, k: int| 0 <= u < n && j <= k < log_n ==> (#[trigger] table@[u]@[k]) is None,
            decreases log_n - j,
        {
            let mut i: usize = 0;
            while i < n
                invariant
                    1 <= j < log_n,
                    i <= n,
                    table@.len() == n,
                    par.len() == n,
                    is_rooted_forest(par, depth@),
                    forall|u: int| 0 <= u < n ==> (#[trigger] table@[u])@.len() == log_n,
                    forall|u: int| 0 <= u < n ==> (#[trigger] table@[u])@[0] == par[u],
                    forall|u: int, k: int|
                        0 <= u < n && 0 <= k < j ==> #[trigger] table@[u]@[k] == anc(par, u as usize, pow2(k as nat)),
                    forall|u: int| 0 <= u < i ==> #[trigger] table@[u]@[j as int] == anc(par, u as usize, pow2(j as nat)),
                    forall|u: int| i <= u < n ==> (#[trigger] table@[u]@[j as int]) is None,
                    forall|u: int, k: int| 0 <= u < n && j < k < log_n ==> (#[trigger] table@[u]@[k]) is None,
                decreases n - i,
            {
                let half = table[i][j - 1];
                proof {
                    lemma_pow2_unfold(j as nat);
                    lemma_anc_add(par, i, pow2((j - 1) as nat), pow2((j - 1) as nat));
                    assert(pow2((j - 1) as nat) + pow2((j - 1) as nat) == pow2(j as nat));
                    lemma_anc_depth(par, depth@, i, pow2((j - 1) as nat));
                }
                match half {
                    Some(q) => {
                        let val = table[q][j - 1];
                        table[i].set(j, val);
                    },
                    None => {},
                }
                i = i + 1;
            }
            j = j + 1;
        }
        let r = LcaUtil { n, log_n, parent: table, depth };
        assert(r.parents() =~= par);
        proof {
            assert forall|u: usize| u < n && (u == 0 || par[u as int] is Some) implies #[trigger] anc(
                par,
                u,
                depth@[u as int] as nat,
            ) == Some(0usize) by {
                lemma_walk_to_root(par, depth@, u);
            }
        }
        r
    }
}

/// `u` and `v` hang below the same root.
pub open spec fn same_root(par: Seq<Option<usize>>, depth: Seq<usize>, u: usize, v: usize) -> bool {
    anc(par, u, depth[u as int] as nat) == anc(par, v, depth[v as int] as nat)
}

/// Two nodes have at most one lowest common ancestor.
pub proof fn lemma_lowest_common_ancestor_unique(
    par: Seq<Option<usize>>,
    depth: Seq<usize>,
    u: usize,
    v: usize,
    r1: usize,
    r2: usize,
)
    requires
        is_rooted_forest(par, depth),
        u < par.len(),
        v < par.len(),
        is_lowest_common_ancestor(par, depth, u, v, r1),
        is_lowest_common_ancestor(par, depth, u, v, r2),
    ensures
        r1 == r2,
{
    let d1 = depth[r1 as int] as nat;
    let d2 = depth[r2 as int] as nat;
    if d1 < d2 {
        assert(anc_at(par, depth, u, d2) != anc_at(par, depth, v, d2));
    } else if d2 < d1 {
        assert(anc_at(par, depth, u, d1) != anc_at(par, depth, v, d1));
    }
}

/// The lowest common ancestor does not depend on the order of the two
/// nodes: that of `u` and `v` is that of `v` and `u`.
pub proof fn lemma_lowest_common_ancestor_symmetric(
    par: Seq<Option<usize>>,
    depth: Seq<usize>,
    u: usize,
    v: usize,
    r: usize,
)
    requires
        is_lowest_common_ancestor(par, depth, u, v, r),
    ensures
        is_lowest_common_ancestor(par, depth, v, u, r),
{
    assert forall|d: nat|
        depth[r as int] < d <= depth[v as int] && d <= depth[u as int] implies anc_at(par, depth, v, d)
        != #[trigger] anc_at(par, depth, u, d) by {
        assert(anc_at(par, depth, u, d) != anc_at(par, depth, v, d));
    }
}

/// `d` is the number of tree edges between `u` and `v`: the way up from
/// `u` to their lowest common ancestor and down again to `v`.
pub open spec fn is_tree_distance(
    par: Seq<Option<usize>>,
    depth: Seq<usize>,
    u: usize,
    v: usize,
    d: int,
) -> bool {
    exists|r: usize|
        is_lowest_common_ancestor(par, depth, u, v, r) && d == depth[u as int] + depth[v as int] - 2
            * depth[r as int]
}

/// The tree distance is symmetric: the distance from `u` to `v` is the
/// distance from `v` to `u`.
pub proof fn lemma_tree_distance_symmetric(
    par: Seq<Option<usize>>,
    depth: Seq<usize>,
    u: usize,
    v: usize,
    d1: int,
    d2: int,
)
    requires
        is_rooted_forest(par, depth),
        u < par.len(),
        v < par.len(),
        is_tree_distance(par, depth, u, v, d1),
        is_tree_distance(par, depth, v, u, d2),
    ensures
        d1 == d2,
{
    let r1 = choose|r: usize|
        is_lowest_common_ancestor(par, depth, u, v, r) && d1 == depth[u as int] + depth[v as int] - 2
            * depth[r as int];
    let r2 = choose|r: usize|
        is_lowest_common_ancestor(par, depth, v, u, r) && d2 == depth[v as int] + depth[u as int] - 2
            * depth[r as int];
    lemma_lowest_common_ancestor_symmetric(par, depth, v, u, r2);
    lemma_lowest_common_ancestor_unique(par, depth, u, v, r1, r2);
}

/// The node `k` levels above `u` (node 0 where there is none).
pub open spec fn anc_node(par: Seq<Option<usize>>, u: usize, k: nat) -> usize {
    match anc(par, u, k) {
        Some(w) => w,
        None => 0,
    }
}

/// The path of the tree from `u` up `a` levels and then down `b` levels to
/// `v`: the nodes above `u` in turn, then those above `v` in reverse.
pub open spec fn tree_path(par: Seq<Option<usize>>, u: usize, v: usize, a: nat, b: nat) -> Seq<usize> {
    Seq::new(
        a + b + 1,
        |i: int|
            if i <= a {
                anc_node(par, u, i as nat)
            } else {
                anc_node(par, v, (a + b - i) as nat)
            },
    )
}

/// The tree distance is the length of a walk: in a graph that holds every
/// edge between a node and its parent in both directions, `d` edges lead
/// from `u` up to the lowest common ancestor and down to `v`, so
/// breadth-first search from `u` finds `v` at most `d` edges away.
pub proof fn lemma_tree_path_is_walk(
    adj: Seq<Set<usize>>,
    par: Seq<Option<usize>>,
    depth: Seq<usize>,
    u: usize,
    v: usize,
    d: int,
)
    requires
        is_rooted_forest(par, depth),
        adj.len() == par.len(),
        u < par.len(),
        v < par.len(),
        forall|x: int|
            0 <= x < par.len() ==> (#[trigger] par[x] matches Some(p) ==> adj[x].contains(p)
                && adj[p as int].contains(x as usize)),
        is_tree_distance(par, depth, u, v, d),
    ensures
        d >= 0,
        has_walk(adj, u, v, d as nat),
        forall|dist: Seq<usize>| #[trigger] is_bfs_result(adj, u, dist) ==> dist[v as int] <= d,
{
    let r = choose|r: usize|
        is_lowest_common_ancestor(par, depth, u, v, r) && d == depth[u as int] + depth[v as int] - 2
            * depth[r as int];
    let a = (depth[u as int] - depth[r as int]) as nat;
    let b = (depth[v as int] - depth[r as int]) as nat;
    assert(anc(par, u, a) == Some(r));
    assert(anc(par, v, b) == Some(r));
    let p = tree_path(par, u, v, a, b);
    assert forall|k: int| 0 <= k < p.len() implies #[trigger] p[k] < adj.len() by {
        if k <= a {
            lemma_anc_depth(par, depth, u, k as nat);
        } else {
            lemma_anc_depth(par, depth, v, (a + b - k) as nat);
        }
    }
    assert forall|k: int| 0 <= k < p.len() - 1 implies #[trigger] walk_step(adj, p, k) by {
        if k < a {
            lemma_anc_depth(par, depth, u, k as nat);
            let w = anc_node(par, u, k as nat);
            assert(anc(par, u, (k + 1) as nat) == par[w as int]);
            lemma_anc_depth(par, depth, u, (k + 1) as nat);
            assert(p[k] == w);
            assert(p[k + 1] == anc_node(par, u, (k + 1) as nat));
        } else {
            let j = (a + b - k - 1) as nat;
            lemma_anc_depth(par, depth, v, j);
            let x = anc_node(par, v, j);
            assert(anc(par, v, j + 1) == par[x as int]);
            lemma_anc_depth(par, depth, v, j + 1);
            assert(p[k + 1] == x);
            assert(p[k] == anc_node(par, v, j + 1));
        }
    }
    assert(is_walk(adj, p));
    assert(p[0] == u);
    assert(p[p.len() - 1] == v);
    assert(has_walk(adj, u, v, d as nat));
    assert forall|dist: Seq<usize>| #[trigger] is_bfs_result(adj, u, dist) implies dist[v as int] <= d by {
        assert(reachable(adj, u, v));
        assert(dist[v as int] != usize::MAX);
        assert(is_hop_distance(adj, u, v, dist[v as int] as nat));
        if d < dist[v as int] {
            assert(!has_walk(adj, u, v, d as nat));
        }
    }
}

impl LcaUtil {
    /// Whether `u` hangs below node 0: node 0 itself, or a node with a
    /// parent (those that node 0 reaches).
    pub fn hangs_below_root(&self, u: usize) -> (r: bool)
        requires
            self.wf(),
            u < self.parents().len(),
        ensures
            r == (u == 0 || self.parents()[u as int] is Some),
    {
        u == 0 || self.parent[u][0].is_some()
    }

    /// The lowest common ancestor of `u_node` and `v_node`, which must hang
    /// below the same root.
    pub fn query(&self, u_node: usize, v_node: usize) -> (r: usize)
        requires
            self.wf(),
            u_node < self.parents().len(),
            v_node < self.parents().len(),
            same_root(self.parents(), self.depths(), u_node, v_node),
        ensures
            is_lowest_common_ancestor(self.parents(), self.depths(), u_node, v_node, r),
    {
        let ghost par = self.parents();
        let ghost depth = self.depths();
        let n = self.n;
        let mut u = u_node;
        let mut v = v_node;
        if self.depth[u] < self.depth[v] {
            let t = u;
            u = v;
            v = t;
        }
        let ghost u0 = u;
        let ghost v0 = v;
        proof {
            assert(anc(par, u0, 0) == Some(u0));
            lemma_anc_depth(par, depth, u0, depth[u0 as int] as nat);
            lemma_anc_depth(par, depth, v0, depth[v0 as int] as nat);
            assert(depth[u0 as int] < pow2(self.log_n as nat));
        }
        let mut j: usize = self.log_n;
        while j > 0
            invariant
                self.wf(),
                par == self.parents(),
                depth == self.depths(),
                n == self.n,
                u0 < n,
                v0 < n,
                u < n,
                v == v0,
                j <= self.log_n,
                depth[v0 as int] <= depth[u as int] <= depth[u0 as int],
                anc_at(par, depth, u0, depth[u as int] as nat) == Some(u),
                depth[u as int] - depth[v0 as int] < pow2(j as nat),
            decreases j,
        {
            j = j - 1;
            let up = self.parent[u][j];
            proof {
                lemma_pow2_unfold((j + 1) as nat);
                lemma_pow2_pos(j as nat);
                lemma_anc_depth(par, depth, u, pow2(j as nat));
                lemma_anc_add(par, u0, (depth[u0 as int] - depth[u as int]) as nat, pow2(j as nat));
            }
            match up {
                Some(a) => {
                    if self.depth[a] >= self.depth[v] {
                        proof {
                            assert((depth[u0 as int] - depth[a as int]) as nat == (depth[u0 as int] - depth[u as int]) as nat
                                + pow2(j as nat));
                        }
                        u = a;
                    }
                },
                None => {},
            }
        }
        proof {
            vstd::arithmetic::power2::lemma2_to64();
            lemma_anc_depth(par, depth, v0, 0);
        }
        if u == v {
            return u;
        }
        let ghost dv = depth[v0 as int] as nat;
        proof {
            lemma_anc_depth(par, depth, u, pow2(self.log_n as nat));
            lemma_anc_depth(par, depth, v, pow2(self.log_n as nat));
        }
        j = self.log_n;
        while j > 0
            invariant
                self.wf(),
                par == self.parents(),
                depth == self.depths(),
                n == self.n,
                u0 < n,
                v0 < n,
                u < n,
                v < n,
                u != v,
                j <= self.log_n,
                depth[u as int] == depth[v as int],
                depth[u as int] <= dv,
                dv == depth[v0 as int],
                dv <= depth[u0 as int],
                anc_at(par, depth, u0, depth[u as int] as nat) == Some(u),
                anc_at(par, depth, v0, depth[v as int] as nat) == Some(v),
                anc(par, u, pow2(j as nat)) == anc(par, v, pow2(j as nat)),
                forall|d: nat|
                    depth[u as int] <= d <= dv ==> anc_at(par, depth, u0, d) != #[trigger] anc_at(par, depth, v0, d),
            decreases j,
        {
            j = j - 1;
            let pu = self.parent[u][j];
            let pv = self.parent[v][j];
            proof {
                lemma_pow2_unfold((j + 1) as nat);
                lemma_anc_add(par, u, pow2(j as nat), pow2(j as nat));
                lemma_anc_add(par, v, pow2(j as nat), pow2(j as nat));
                lemma_anc_depth(par, depth, u, pow2(j as nat));
                lemma_anc_depth(par, depth, v, pow2(j as nat));
                lemma_anc_add(par, u0, (depth[u0 as int] - depth[u as int]) as nat, pow2(j as nat));
                lemma_anc_add(par, v0, (depth[v0 as int] - depth[v as int]) as nat, pow2(j as nat));
            }
            match (pu, pv) {
                (Some(a), Some(b)) => {
                    if a != b {
                        proof {
                            let nd = depth[a as int] as nat;
                            assert((depth[u0 as int] - nd) as nat == (depth[u0 as int] - depth[u as int]) as nat
                                + pow2(j as nat));
                            assert((depth[v0 as int] - nd) as nat == (depth[v0 as int] - depth[v as int]) as nat
                                + pow2(j as nat));
                            assert forall|d: nat| nd <= d <= dv implies anc_at(par, depth, u0, d)
                                != #[trigger] anc_at(par, depth, v0, d) by {
                                if d < depth[u as int] && anc_at(par, depth, u0, d) == anc_at(par, depth, v0, d) {
                                    lemma_common_ancestor_above(par, depth, u0, v0, d, nd);
                                }
                            }
                        }
                        u = a;
                        v = b;
                    }
                },
                _ => {},
            }
        }
        proof {
            vstd::arithmetic::power2::lemma2_to64();
            assert(anc(par, u, 0) == Some(u));
            assert(anc(par, v, 0) == Some(v));
            if depth[u as int] == 0 {
                lemma_anc_add(par, u0, (depth[u0 as int] - depth[u as int]) as nat, 0);
                lemma_anc_add(par, v0, (depth[v0 as int] - depth[v as int]) as nat, 0);
                assert(anc(par, u0, depth[u0 as int] as nat) == Some(u));
                assert(anc(par, v0, depth[v0 as int] as nat) == Some(v));
                assert(same_root(par, depth, u_node, v_node));
                assert(false);
            }
            lemma_anc_depth(par, depth, u, 1);
            lemma_anc_add(par, u0, (depth[u0 as int] - depth[u as int]) as nat, 1);
            lemma_anc_add(par, v0, (depth[v0 as int] - depth[v as int]) as nat, 1);
        }
        match self.parent[u][0] {
            Some(w) => {
                proof {
                    let nd = depth[w as int] as nat;
                    assert((depth[u0 as int] - nd) as nat == (depth[u0 as int] - depth[u as int]) as nat + 1);
                    assert((depth[v0 as int] - nd) as nat == (depth[v0 as int] - depth[v as int]) as nat + 1);
                }
                w
            },
            None => {
                proof {
                    assert(false);
                }
                u
            },
        }
    }

    /// The number of tree edges between `u_node` and `v_node`, which must hang
    /// below the same root.
    pub fn distance(&self, u_node: usize, v_node: usize) -> (d: usize)
        requires
            self.wf(),
            u_node < self.parents().len(),
            v_node < self.parents().len(),
            same_root(self.parents(), self.depths(), u_node, v_node),
        ensures
            is_tree_distance(self.parents(), self.depths(), u_node, v_node, d as int),
    {
        let lca = self.query(u_node, v_node);
        self.depth[u_node] + self.depth[v_node] - 2 * self.depth[lca]
    }
}

} // verus!
