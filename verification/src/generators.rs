//! Synthetic graph families: grids, cliques, and recursive graphs whose
//! separators grow with the cube root of their size.
use crate::graph::{with_edge, Graph};
use vstd::prelude::*;

verus! {

/// In the `s` by `s` grid numbered row by row, `a` and `b` are vertical or
/// horizontal neighbours.
pub open spec fn grid_adjacent(s: int, a: int, b: int) -> bool {
    ||| a == b + s
    ||| b == a + s
    ||| (a == b + 1 && a % s != 0)
    ||| (b == a + 1 && b % s != 0)
}

/// The neighbours that the grid gives `a` among the nodes below `m`.
pub open spec fn grid_prefix(s: int, n: int, m: int, a: int, b: usize) -> bool {
    b < n && grid_adjacent(s, a, b as int) && a < m && b < m
}

proof fn lemma_grid_coords(s: int, i: int, j: int)
    requires
        0 <= i,
        0 <= j < s,
    ensures
        (i * s + j) % s == j,
        i > 0 ==> i * s + j >= s,
        i == 0 ==> i * s + j < s,
        (i + 1) * s == i * s + s,
{
    vstd::arithmetic::div_mod::lemma_fundamental_div_mod_converse(i * s + j, s, i, j);
    assert(i > 0 ==> i * s >= s) by (nonlinear_arith)
        requires
            0 <= i,
            0 < s,
    ;
    assert(i == 0 ==> i * s == 0) by (nonlinear_arith);
    assert((i + 1) * s == i * s + s) by (nonlinear_arith);
}

/// The `side_length` by `side_length` grid: node `i * side_length + j` is
/// joined to the nodes left, right, above and below it.
pub fn generate_grid(side_length: usize) -> (g: Graph)
    requires
        side_length * side_length <= usize::MAX,
    ensures
        g@.len() == side_length * side_length,
        forall|a: int, b: usize|
            0 <= a < g@.len() ==> (#[trigger] g@[a].contains(b) <==> b < g@.len() && grid_adjacent(
                side_length as int,
                a,
                b as int,
            )),
{
    let s = side_length;
    let n = s * s;
    let mut g = Graph::with_node_count(n);
    let mut i: usize = 0;
    while i < s
        invariant
            i <= s,
            n == s * s,
            g@.len() == n,
            i * s <= n,
            forall|a: int, b: usize|
                0 <= a < n ==> (#[trigger] g@[a].contains(b) <==> grid_prefix(s as int, n as int, (i * s) as int, a, b)),
        decreases s - i,
    {
        let mut j: usize = 0;
        proof {
            assert((i + 1) * s <= s * s) by (nonlinear_arith)
                requires
                    i < s,
            ;
        }
        while j < s
            invariant
                i < s,
                j <= s,
                n == s * s,
                g@.len() == n,
                (i + 1) * s <= n,
                forall|a: int, b: usize|
                    0 <= a < n ==> (#[trigger] g@[a].contains(b) <==> grid_prefix(
                        s as int,
                        n as int,
                        (i * s + j) as int,
                        a,
                        b,
                    )),
            decreases s - j,
        {
            proof {
                lemma_grid_coords(s as int, i as int, j as int);
            }
            let node = i * s + j;
            let ghost g0 = g@;
            if i > 0 {
                g.add_edge(node, node - s);
            }
            let ghost g1 = g@;
            if j > 0 {
                g.add_edge(node, node - 1);
            }
            proof {
                assert forall|a: int, b: usize| 0 <= a < n implies (#[trigger] g@[a].contains(b) <==> grid_prefix(
                    s as int,
                    n as int,
                    node + 1,
                    a,
                    b,
                )) by {
                    assert(g0[a].contains(b) <==> grid_prefix(s as int, n as int, node as int, a, b));
                    if i > 0 {
                        assert(g1 == with_edge(g0, node, (node - s) as usize));
                    } else {
                        assert(g1 == g0);
                    }
                    if j > 0 {
                        assert(g@ == with_edge(g1, node, (node - 1) as usize));
                    } else {
                        assert(g@ == g1);
                    }
                }
            }
            j = j + 1;
        }
        proof {
            lemma_grid_coords(s as int, i as int, 0);
        }
        i = i + 1;
    }
    g
}

/// The complete graph on `n` nodes.
pub fn generate_clique(n: usize) -> (g: Graph)
    ensures
        g@.len() == n,
        forall|a: int, b: usize| 0 <= a < n ==> (#[trigger] g@[a].contains(b) <==> b < n && a != b),
{
    let mut g = Graph::with_node_count(n);
    let mut i: usize = 0;
    while i < n
        invariant
            i <= n,
            g@.len() == n,
            forall|a: int, b: usize|
                0 <= a < n ==> (#[trigger] g@[a].contains(b) <==> b < n && a != b && (a < i || b < i)),
        decreases n - i,
    {
        let mut j: usize = i + 1;
        while j < n
            invariant
                i < n,
                i + 1 <= j <= n,
                g@.len() == n,
                forall|a: int, b: usize|
                    0 <= a < n ==> (#[trigger] g@[a].contains(b) <==> b < n && a != b && (a < i || b < i || (a
                        == i && b < j) || (b == i && a < j))),
            decreases n - j,
        {
            let ghost g0 = g@;
            g.add_edge(i, j);
            assert(g@ == with_edge(g0, i, j));
            j = j + 1;
        }
        i = i + 1;
    }
    g
}

/// `adj` with every id shifted up by `k`.
pub open spec fn shifted(adj: Seq<Set<usize>>, k: nat) -> Seq<Set<usize>> {
    Seq::new(adj.len(), |u: int| Set::new(|y: usize| y >= k && adj[u].contains((y - k) as usize)))
}

/// Appends the nodes and edges of `g2` to `g1`, the ids of `g2` shifted up
/// by the number of nodes of `g1`.
pub fn combine_graph(g1: &mut Graph, g2: Graph)
    requires
        crate::graph::in_range(g2@),
        old(g1)@.len() + g2@.len() <= usize::MAX,
    ensures
        final(g1)@ == old(g1)@ + shifted(g2@, old(g1)@.len()),
{
    let k = g1.data.len();
    let ghost a1 = g1@;
    let n2 = g2.data.len();
    let mut u: usize = 0;
    while u < n2
        invariant
            u <= n2,
            n2 == g2@.len(),
            k == a1.len(),
            k + n2 <= usize::MAX,
            crate::graph::in_range(g2@),
            g1@ == a1 + shifted(g2@, k as nat).subrange(0, u as int),
        decreases n2 - u,
    {
        let members = g2.data[u].to_vec();
        let mut set = crate::collections::NodeSet::new();
        let mut t: usize = 0;
        while t < members.len()
            invariant
                t <= members@.len(),
                u < n2,
                n2 == g2@.len(),
                k + n2 <= usize::MAX,
                crate::graph::in_range(g2@),
                members@.to_set() == g2@[u as int],
                forall|y: usize| #[trigger] set@.contains(y) <==> y >= k && exists|q: int|
                    0 <= q < t && members@[q] == (y - k) as usize,
            decreases members@.len() - t,
        {
            let x = members[t];
            assert(members@.to_set().contains(x));
            assert(x < n2);
            let ghost s0 = set@;
            set.insert(x + k);
            proof {
                assert forall|y: usize| #[trigger] set@.contains(y) <==> y >= k && exists|q: int|
                    0 <= q < t + 1 && members@[q] == (y - k) as usize by {
                    assert(s0.contains(y) <==> y >= k && exists|q: int| 0 <= q < t && members@[q] == (y - k) as usize);
                    if y == x + k {
                        assert(members@[t as int] == (y - k) as usize);
                    }
                    if y >= k && exists|q: int| 0 <= q < t + 1 && members@[q] == (y - k) as usize {
                        let q = choose|q: int| 0 <= q < t + 1 && members@[q] == (y - k) as usize;
                        if q == t {
                            assert(y == x + k);
                        }
                    }
                }
            }
            t = t + 1;
        }
        proof {
            assert forall|y: usize| #[trigger] set@.contains(y) <==> shifted(g2@, k as nat)[u as int].contains(y) by {
                if y >= k && g2@[u as int].contains((y - k) as usize) {
                    assert(members@.to_set().contains((y - k) as usize));
                }
            }
            assert(set@ =~= shifted(g2@, k as nat)[u as int]);
        }
        let ghost before = g1@;
        g1.data.push(set);
        proof {
            assert(g1@ =~= before.push(set@));
            assert(shifted(g2@, k as nat).subrange(0, u as int + 1) =~= shifted(g2@, k as nat).subrange(0, u as int).push(
                set@,
            ));
            assert(g1@ =~= a1 + shifted(g2@, k as nat).subrange(0, u as int + 1));
        }
        u = u + 1;
    }
    assert(shifted(g2@, k as nat).subrange(0, n2 as int) =~= shifted(g2@, k as nat));
}

/// `s` is the integer cube root of `n`: `s^3 <= n < (s + 1)^3`.
pub open spec fn is_cube_root(n: nat, s: nat) -> bool {
    s * s * s <= n && n < (s + 1) * (s + 1) * (s + 1)
}

/// The integer cube root of `n`.
pub open spec fn cube_root(n: nat) -> nat {
    choose|s: nat| #[trigger] is_cube_root(n, s)
}

proof fn lemma_cube_monotone(a: nat, b: nat)
    requires
        a <= b,
    ensures
        a * a * a <= b * b * b,
{
    assert(a * a <= b * b) by (nonlinear_arith)
        requires
            a <= b,
    ;
    assert(a * a * a <= b * b * b) by (nonlinear_arith)
        requires
            a <= b,
            a * a <= b * b,
    ;
}

/// The integer cube root is the only one.
pub proof fn lemma_cube_root_unique(n: nat, s: nat)
    requires
        is_cube_root(n, s),
    ensures
        cube_root(n) == s,
{
    let t = cube_root(n);
    assert(is_cube_root(n, t));
    if t < s {
        lemma_cube_monotone(t + 1, s);
    } else if s < t {
        lemma_cube_monotone(s + 1, t);
    }
}

/// Whether `(s + 1)^3 <= n`.
fn next_cube_at_most(s: usize, n: usize) -> (r: bool)
    requires
        s < usize::MAX,
    ensures
        r == ((s + 1) * (s + 1) * (s + 1) <= n),
{
    let t = s + 1;
    match t.checked_mul(t) {
        Some(t2) => match t2.checked_mul(t) {
            Some(t3) => t3 <= n,
            None => false,
        },
        None => {
            assert(t * t * t >= t * t) by (nonlinear_arith)
                requires
                    t >= 1,
            ;
            false
        },
    }
}

/// The integer cube root of `n`.
pub fn integer_cbrt(n: usize) -> (s: usize)
    ensures
        is_cube_root(n as nat, s as nat),
        s == cube_root(n as nat),
{
    let mut s: usize = 0;
    while s < usize::MAX && next_cube_at_most(s, n)
        invariant
            s * s * s <= n,
            s <= n,
        decreases n - s,
    {
        assert((s + 1) <= (s + 1) * (s + 1) * (s + 1)) by (nonlinear_arith);
        s = s + 1;
    }
    proof {
        if s == usize::MAX {
            assert(s * s * s >= 2 * s) by (nonlinear_arith)
                requires
                    s >= 2,
            ;
        }
        assert(n < (s + 1) * (s + 1) * (s + 1));
        lemma_cube_root_unique(n as nat, s as nat);
    }
    s
}

/// The size of the two halves below the separator of the family for `n`.
pub open spec fn cbrt_rest(n: nat) -> nat {
    let s = cube_root(n);
    if s <= n {
        ((n - s) / 2) as nat
    } else {
        0
    }
}

/// The graph family whose separators grow with the cube root: for `n <= 1` a
/// single node; otherwise a clique on `s = cube_root(n)` nodes, followed by
/// two copies of the graph for `r = cbrt_rest(n)`, with every clique node
/// joined to the `2 * r` nodes that follow the clique, or to all nodes of
/// the copies where these have fewer than `r` nodes each.
pub open spec fn cbrt_maximal_graph(n: nat) -> Seq<Set<usize>>
    decreases n,
{
    if n <= 1 {
        seq![Set::<usize>::empty()]
    } else {
        let s = cube_root(n);
        let r = cbrt_rest(n);
        let h = cbrt_maximal_graph(r);
        let k = h.len();
        let m = if r <= k { r } else { k };
        Seq::new(
            s + 2 * k,
            |a: int|
                Set::new(
                    |b: usize|
                        b < s + 2 * k && ((a < s && b < s && a != b) || (a < s && s <= b < s + 2 * m) || (b < s
                            && s <= a < s + 2 * m) || (s <= a < s + k && s <= b < s + k && h[a - s].contains(
                            (b - s) as usize,
                        )) || (s + k <= a && s + k <= b && h[a - s - k].contains((b - s - k) as usize))),
                ),
        )
    }
}

proof fn lemma_cube_root_exists(n: nat)
    ensures
        exists|s: nat| #[trigger] is_cube_root(n, s),
    decreases n,
{
    if n == 0 {
        assert(0nat * 0nat * 0nat == 0nat) by (nonlinear_arith);
        assert((0nat + 1) * (0nat + 1) * (0nat + 1) == 1nat) by (nonlinear_arith);
        assert(is_cube_root(0, 0));
    } else {
        lemma_cube_root_exists((n - 1) as nat);
        let s = choose|s: nat| #[trigger] is_cube_root((n - 1) as nat, s);
        if (s + 1) * (s + 1) * (s + 1) <= n {
            lemma_cube_monotone(s + 1, s + 2);
            assert((s + 1) * (s + 1) * (s + 1) < (s + 2) * (s + 2) * (s + 2)) by (nonlinear_arith);
            assert(is_cube_root(n, s + 1));
        } else {
            assert(is_cube_root(n, s));
        }
    }
}

proof fn lemma_cbrt_rest(n: nat)
    requires
        n > 1,
    ensures
        is_cube_root(n, cube_root(n)),
        1 <= cube_root(n) <= n,
        cbrt_rest(n) < n,
        cube_root(n) + 2 * cbrt_rest(n) <= n,
        cbrt_rest(n) == 0 ==> n == 2 && cube_root(n) == 1,
{
    lemma_cube_root_exists(n);
    let s = cube_root(n);
    assert(is_cube_root(n, s));
    assert(s >= 1) by {
        if s == 0 {
            assert((s + 1) * (s + 1) * (s + 1) == 1) by (nonlinear_arith)
                requires
                    s == 0,
            ;
        }
    }
    assert(s <= s * s * s) by (nonlinear_arith)
        requires
            s >= 1,
    ;
    if n - s < 2 {
        if s >= 2 {
            assert(s * s * s >= 4 * s) by (nonlinear_arith)
                requires
                    s >= 2,
            ;
        }
    }
}

/// The family for `n` has at most `2n - 1` nodes (one for `n <= 1`).
pub proof fn lemma_cbrt_maximal_size(n: nat)
    ensures
        cbrt_maximal_graph(n).len() >= 1,
        n <= 1 ==> cbrt_maximal_graph(n).len() == 1,
        n >= 1 ==> cbrt_maximal_graph(n).len() <= 2 * n - 1,
    decreases n,
{
    if n > 1 {
        lemma_cbrt_rest(n);
        lemma_cbrt_maximal_size(cbrt_rest(n));
    }
}

/// The edges of the family for `n` before the clique is joined to the two
/// copies: the clique on the first `s` nodes and the two copies of `h`.
pub open spec fn cbrt_parts(s: int, h: Seq<Set<usize>>, a: int, b: usize) -> bool {
    let k = h.len() as int;
    ||| (a < s && b < s && a != b)
    ||| (s <= a < s + k && s <= b < s + k && h[a - s].contains((b - s) as usize))
    ||| (s + k <= a && s + k <= b && h[a - s - k].contains((b - s - k) as usize))
}

/// The graph family whose separators grow with the cube root of its size
/// (see [`cbrt_maximal_graph`]); the two halves are the same graph.
pub fn generate_cbrt_maximal(n: usize) -> (g: Graph)
    requires
        n <= usize::MAX / 2,
    ensures
        g@ == cbrt_maximal_graph(n as nat),
        crate::graph::in_range(g@),
    decreases n,
{
    if n <= 1 {
        let g = Graph::with_node_count(1);
        assert(g@ =~= seq![Set::<usize>::empty()]);
        return g;
    }
    let sep_size = integer_cbrt(n);
    proof {
        lemma_cbrt_rest(n as nat);
        lemma_cbrt_maximal_size(n as nat);
        lemma_cbrt_maximal_size(cbrt_rest(n as nat));
    }
    let subgraph_size = (n - sep_size) / 2;
    let mut g = generate_clique(sep_size);
    let g1 = generate_cbrt_maximal(subgraph_size);
    let g2 = g1.duplicate();
    let k = g1.get_num_nodes();
    let joined = if subgraph_size <= k { subgraph_size } else { k };
    let ghost h = g1@;
    combine_graph(&mut g, g1);
    combine_graph(&mut g, g2);
    let big = sep_size + 2 * k;
    let ghost s = sep_size as int;
    let ghost r = joined as int;
    proof {
        assert forall|a: int, b: usize| 0 <= a < big implies (#[trigger] g@[a].contains(b) <==> b < big && cbrt_parts(
            s,
            h,
            a,
            b,
        )) by {
            if s <= a < s + k {
                assert(g@[a] == shifted(h, sep_size as nat)[a - s]);
                if g@[a].contains(b) {
                    assert(h[a - s].contains((b - s) as usize));
                }
            } else if s + k <= a {
                assert(g@[a] == shifted(h, (sep_size + k) as nat)[a - s - k]);
                if g@[a].contains(b) {
                    assert(h[a - s - k].contains((b - s - k) as usize));
                }
            }
        }
    }
    let mut i: usize = 0;
    while i < sep_size
        invariant
            i <= sep_size,
            s == sep_size,
            r == joined,
            joined <= k,
            big == sep_size + 2 * k,
            k == h.len(),
            g@.len() == big,
            forall|a: int, b: usize|
                0 <= a < big ==> (#[trigger] g@[a].contains(b) <==> b < big && (cbrt_parts(s, h, a, b) || (a
                    < i && s <= b < s + 2 * r) || (b < i && s <= a < s + 2 * r))),
        decreases sep_size - i,
    {
        let mut j: usize = 0;
        while j < 2 * joined
            invariant
                i < sep_size,
                j <= 2 * joined,
                s == sep_size,
                r == joined,
                joined <= k,
                big == sep_size + 2 * k,
                k == h.len(),
                g@.len() == big,
                forall|a: int, b: usize|
                    0 <= a < big ==> (#[trigger] g@[a].contains(b) <==> b < big && (cbrt_parts(s, h, a, b) || (a
                        < i && s <= b < s + 2 * r) || (b < i && s <= a < s + 2 * r) || (a == i && s <= b < s + j)
                        || (b == i && s <= a < s + j))),
            decreases 2 * joined - j,
        {
            let ghost g0 = g@;
            g.add_edge(i, j + sep_size);
            assert(g@ == with_edge(g0, i, (j + sep_size) as usize));
            j = j + 1;
        }
        i = i + 1;
    }
    proof {
        let t = cbrt_maximal_graph(n as nat);
        assert(t.len() == big);
        assert forall|a: int| 0 <= a < big implies g@[a] =~= t[a] by {}
        assert(g@ =~= t);
    }
    g
}

} // verus!
