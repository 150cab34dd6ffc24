//! Writing graphs as text: PACE (a header line `p tw n m`, then each edge
//! once, as the two end nodes counted from 1) and METIS (a header line
//! `n m`, then for each node its neighbours counted from 1).
use crate::edge_text::{
    all_digits, body_lines, digits_value, is_space, may_start_space, lemma_line_len, lemma_space_len, lemma_word_len, line_pair,
    one_based_pairs, parse_number, text_lines,
};
use crate::graph::{
    degree_sum, edge_list_graph, edge_pairs, edges_at, in_range, is_symmetric, lemma_max_endpoint, lemma_max_endpoint_below,
    max_endpoint, Graph,
};
use vstd::prelude::*;

verus! {

/// The decimal digits of `n`, most significant first.
pub open spec fn decimal(n: nat) -> Seq<u8>
    decreases n,
{
    if n < 10 {
        seq![(48 + n) as u8]
    } else {
        decimal(n / 10).push((48 + n % 10) as u8)
    }
}

/// The line of an edge, its ends counted from 1.
pub open spec fn pace_line(e: (usize, usize)) -> Seq<u8> {
    decimal((e.0 + 1) as nat) + seq![32u8] + decimal((e.1 + 1) as nat)
}

/// The lines of the edges, each ended by a line break.
pub open spec fn pace_body(edges: Seq<(usize, usize)>) -> Seq<u8>
    decreases edges.len(),
{
    if edges.len() == 0 {
        Seq::empty()
    } else {
        pace_line(edges[0]) + seq![10u8] + pace_body(edges.drop_first())
    }
}

/// The header line `p tw n m`, without its line break.
pub open spec fn pace_header(n: nat, m: nat) -> Seq<u8> {
    seq![112u8, 32u8, 116u8, 119u8, 32u8] + decimal(n) + seq![32u8] + decimal(m)
}

/// Appends the decimal digits of `x`.
fn push_decimal(out: &mut Vec<u8>, x: usize)
    ensures
        final(out)@ == old(out)@ + decimal(x as nat),
{
    let mut digits: Vec<u8> = Vec::new();
    let mut rest = x;
    // The digits found so far, least significant first: the number is the
    // digits of `rest` followed by `digits` reversed.
    while rest >= 10
        invariant
            decimal(x as nat) == decimal(rest as nat) + digits@.reverse(),
        decreases rest,
    {
        let ghost before = digits@;
        let d = (rest % 10) as u8;
        digits.push(48 + d);
        proof {
            assert(digits@.reverse() =~= seq![(48 + d) as u8] + before.reverse());
            assert(decimal(rest as nat) == decimal((rest / 10) as nat).push((48 + rest % 10) as u8));
            assert(decimal((rest / 10) as nat) + digits@.reverse() =~= decimal((rest / 10) as nat).push(
                (48 + rest % 10) as u8,
            ) + before.reverse());
        }
        rest = rest / 10;
    }
    let ghost before = digits@;
    digits.push(48 + rest as u8);
    proof {
        assert(digits@.reverse() =~= seq![(48 + rest) as u8] + before.reverse());
        assert(decimal(rest as nat) =~= seq![(48 + rest) as u8]);
    }
    let mut k = digits.len();
    let ghost start = out@;
    while k > 0
        invariant
            k <= digits@.len(),
            out@ == start + digits@.reverse().take(digits@.len() - k),
        decreases k,
    {
        k = k - 1;
        out.push(digits[k]);
        proof {
            let r = digits@.reverse();
            assert(r[digits@.len() - 1 - k] == digits@[k as int]);
            assert(r.take(digits@.len() - k) =~= r.take(digits@.len() - 1 - k).push(digits@[k as int]));
        }
    }
    proof {
        assert(digits@.reverse().take(digits@.len() as int) =~= digits@.reverse());
    }
}

/// The directed pairs `(a, b)` with `a < b` of the graph's edges.
pub open spec fn forward_pairs(adj: Seq<Set<usize>>) -> Set<(usize, usize)> {
    edge_pairs(adj).filter(|e: (usize, usize)| e.0 < e.1)
}

proof fn lemma_pace_body_push(e: Seq<(usize, usize)>, x: (usize, usize))
    ensures
        pace_body(e.push(x)) == pace_body(e) + pace_line(x) + seq![10u8],
    decreases e.len(),
{
    if e.len() == 0 {
        assert(e.push(x).drop_first() =~= Seq::<(usize, usize)>::empty());
        assert(e.push(x)[0] == x);
        assert(pace_body(Seq::<(usize, usize)>::empty()) =~= Seq::<u8>::empty());
        assert(pace_body(e) =~= Seq::<u8>::empty());
        assert(pace_body(e.push(x)) =~= pace_line(x) + seq![10u8] + Seq::<u8>::empty());
    } else {
        assert(e.push(x).drop_first() =~= e.drop_first().push(x));
        lemma_pace_body_push(e.drop_first(), x);
        assert(pace_body(e.push(x)) =~= pace_body(e) + pace_line(x) + seq![10u8]);
    }
}

impl Graph {
    /// The PACE text of the graph: the header `p tw n m` (`m` the number of
    /// edges), then each edge `a - b` with `a < b` once, as `a+1 b+1`, in the
    /// order in which [`Graph::get_directed_edges`] lists them; each line
    /// ended by a line break.
    pub fn pace_text(&self) -> (r: Vec<u8>)
        requires
            degree_sum(self@) <= usize::MAX,
            forall|e: (usize, usize)| #[trigger] edge_pairs(self@).contains(e) ==> e.1 < usize::MAX,
        ensures
            exists|edges: Seq<(usize, usize)>|
                {
                    &&& edges.no_duplicates()
                    &&& edges.to_set() == forward_pairs(self@)
                    &&& r@ == pace_header(self@.len(), (degree_sum(self@) / 2) as nat) + seq![10u8] + pace_body(edges)
                },
    {
        let mut out: Vec<u8> = Vec::new();
        out.push(112);
        out.push(32);
        out.push(116);
        out.push(119);
        out.push(32);
        push_decimal(&mut out, self.get_num_nodes());
        out.push(32);
        push_decimal(&mut out, self.get_num_edges());
        out.push(10);
        let ghost head = out@;
        proof {
            assert(head =~= pace_header(self@.len(), (degree_sum(self@) / 2) as nat) + seq![10u8]);
        }
        let edges = self.get_directed_edges();
        let mut k: usize = 0;
        while k < edges.len()
            invariant
                k <= edges@.len(),
                edges@.to_set() == forward_pairs(self@),
                forall|e: (usize, usize)| #[trigger] edge_pairs(self@).contains(e) ==> e.1 < usize::MAX,
                out@ == head + pace_body(edges@.take(k as int)),
            decreases edges.len() - k,
        {
            let (a, b) = edges[k];
            proof {
                assert(edges@.to_set().contains(edges@[k as int]));
                assert(edge_pairs(self@).contains((a, b)));
                lemma_pace_body_push(edges@.take(k as int), (a, b));
                assert(edges@.take(k + 1) =~= edges@.take(k as int).push((a, b)));
            }
            let ghost before = out@;
            push_decimal(&mut out, a + 1);
            out.push(32);
            push_decimal(&mut out, b + 1);
            out.push(10);
            proof {
                assert(out@ =~= before + pace_line((a, b)) + seq![10u8]);
            }
            k = k + 1;
        }
        proof {
            assert(edges@.take(edges@.len() as int) =~= edges@);
        }
        out
    }
}

/// The digits of a number are decimal digits, and read back as the number.
proof fn lemma_decimal(n: nat)
    ensures
        decimal(n).len() >= 1,
        all_digits(decimal(n)),
        digits_value(decimal(n)) == n,
    decreases n,
{
    if n >= 10 {
        lemma_decimal(n / 10);
        let d = decimal(n);
        assert(d.drop_last() =~= decimal(n / 10));
        assert(d.last() == (48 + n % 10) as u8);
        assert(d.last() - 48 == n % 10);
        assert(digits_value(d) == digits_value(decimal(n / 10)) * 10 + (d.last() - 48) as nat);
        assert((n / 10) * 10 + n % 10 == n) by (nonlinear_arith);
    } else {
        let d = decimal(n);
        assert(d.drop_last() =~= Seq::<u8>::empty());
        assert(d.last() - 48 == n);
        assert(digits_value(d) == digits_value(d.drop_last()) * 10 + (d.last() - 48) as nat);
    }
}

/// A line of the text has no line break.
proof fn lemma_no_break(l: Seq<u8>, digits: Seq<u8>)
    requires
        all_digits(digits),
    ensures
        forall|i: int| 0 <= i < digits.len() ==> digits[i] != 10 && !is_space(#[trigger] digits[i]) && digits[i] != 43,
{
}

/// Splitting off a first line that has no line break.
proof fn lemma_lines_split(l: Seq<u8>, rest: Seq<u8>)
    requires
        forall|i: int| 0 <= i < l.len() ==> #[trigger] l[i] != 10,
    ensures
        text_lines(l + seq![10u8] + rest) == seq![l] + text_lines(rest),
{
    let t = l + seq![10u8] + rest;
    lemma_line_len(t, l.len() as int);
    assert(t.take(l.len() as int) =~= l);
    assert(t.skip(l.len() as int + 1) =~= rest);
}

/// The lines of the body are the lines of the edges.
proof fn lemma_body_lines(e: Seq<(usize, usize)>)
    requires
        forall|k: int| 0 <= k < e.len() ==> (#[trigger] e[k]).0 < usize::MAX && e[k].1 < usize::MAX,
    ensures
        text_lines(pace_body(e)) == e.map_values(|x: (usize, usize)| pace_line(x)),
    decreases e.len(),
{
    if e.len() == 0 {
        assert(text_lines(Seq::<u8>::empty()) =~= Seq::<Seq<u8>>::empty());
        assert(e.map_values(|x: (usize, usize)| pace_line(x)) =~= Seq::<Seq<u8>>::empty());
    } else {
        let l = pace_line(e[0]);
        lemma_decimal((e[0].0 + 1) as nat);
        lemma_decimal((e[0].1 + 1) as nat);
        let d1 = decimal((e[0].0 + 1) as nat);
        let d2 = decimal((e[0].1 + 1) as nat);
        assert forall|i: int| 0 <= i < l.len() implies #[trigger] l[i] != 10 by {
            if i < d1.len() {
                assert(l[i] == d1[i]);
            } else if i > d1.len() {
                assert(l[i] == d2[i - d1.len() - 1]);
            }
        }
        assert forall|k: int| 0 <= k < e.drop_first().len() implies (#[trigger] e.drop_first()[k]).0 < usize::MAX
            && e.drop_first()[k].1 < usize::MAX by {
            assert(e.drop_first()[k] == e[k + 1]);
        }
        lemma_body_lines(e.drop_first());
        lemma_lines_split(l, pace_body(e.drop_first()));
        assert(e.map_values(|x: (usize, usize)| pace_line(x)) =~= seq![l] + e.drop_first().map_values(
            |x: (usize, usize)| pace_line(x),
        ));
    }
}

/// The two numbers of an edge's line are its ends counted from 1.
proof fn lemma_line_pair(x: (usize, usize))
    requires
        x.0 < usize::MAX,
        x.1 < usize::MAX,
    ensures
        line_pair(pace_line(x)) == Some(((x.0 + 1) as usize, (x.1 + 1) as usize)),
{
    let a = (x.0 + 1) as nat;
    let b = (x.1 + 1) as nat;
    lemma_decimal(a);
    lemma_decimal(b);
    let d1 = decimal(a);
    let d2 = decimal(b);
    let t = pace_line(x);
    assert(t == d1 + seq![32u8] + d2);
    // The first token is `d1`.
    lemma_space_len(t, 0);
    assert forall|k: int| 0 <= k < d1.len() implies !may_start_space(#[trigger] t[k]) by {
        assert(t[k] == d1[k]);
        assert(48 <= d1[k] <= 57);
    }
    lemma_word_len(t, d1.len() as int);
    assert(t.skip(0) =~= t);
    assert(t.take(d1.len() as int) =~= d1);
    let rest = t.skip(d1.len() as int);
    assert(rest =~= seq![32u8] + d2);
    // The second token is `d2`.
    assert forall|k: int| 0 <= k < 1 implies is_space(#[trigger] rest[k]) by {}
    assert(48 <= d2[0] <= 57);
    lemma_space_len(rest, 1);
    let w = rest.skip(1);
    assert(w =~= d2);
    assert forall|k: int| 0 <= k < d2.len() implies !may_start_space(#[trigger] w[k]) by {
        assert(48 <= d2[k] <= 57);
    }
    lemma_word_len(w, d2.len() as int);
    assert(w.take(d2.len() as int) =~= d2);
    // Both read back as numbers.
    assert(48 <= d1[0] <= 57);
    assert(parse_number(d1) == Some(a as usize));
    assert(parse_number(d2) == Some(b as usize));
}

/// Pairs read from the edges' lines are the edges.
proof fn lemma_one_based_lines(e: Seq<(usize, usize)>)
    requires
        forall|k: int| 0 <= k < e.len() ==> (#[trigger] e[k]).0 < usize::MAX && e[k].1 < usize::MAX,
    ensures
        one_based_pairs(e.map_values(|x: (usize, usize)| pace_line(x))) == Some(e),
    decreases e.len(),
{
    let ls = e.map_values(|x: (usize, usize)| pace_line(x));
    if e.len() == 0 {
        assert(ls.len() == 0);
    } else {
        assert(ls.drop_last() =~= e.drop_last().map_values(|x: (usize, usize)| pace_line(x)));
        assert forall|k: int| 0 <= k < e.drop_last().len() implies (#[trigger] e.drop_last()[k]).0 < usize::MAX
            && e.drop_last()[k].1 < usize::MAX by {
            assert(e.drop_last()[k] == e[k]);
        }
        lemma_one_based_lines(e.drop_last());
        let x = e.last();
        assert(ls.last() == pace_line(x));
        lemma_line_pair(x);
        assert(e.drop_last().push(x) =~= e);
    }
}

/// Reading a written PACE text gives back the edges written: for any header
/// and any list of edges whose ends are below `usize::MAX`, the lines after
/// the header read as the list.
pub proof fn lemma_pace_round_trip(n: nat, m: nat, edges: Seq<(usize, usize)>)
    requires
        forall|k: int| 0 <= k < edges.len() ==> (#[trigger] edges[k]).0 < usize::MAX && edges[k].1 < usize::MAX,
    ensures
        one_based_pairs(body_lines(pace_header(n, m) + seq![10u8] + pace_body(edges))) == Some(edges),
{
    let h = pace_header(n, m);
    lemma_decimal(n);
    lemma_decimal(m);
    let dn = decimal(n);
    let dm = decimal(m);
    assert forall|i: int| 0 <= i < h.len() implies #[trigger] h[i] != 10 by {
        if 5 <= i < 5 + dn.len() {
            assert(h[i] == dn[i - 5]);
        } else if i > 5 + dn.len() {
            assert(h[i] == dm[i - 6 - dn.len()]);
        }
    }
    lemma_lines_split(h, pace_body(edges));
    lemma_body_lines(edges);
    assert(body_lines(h + seq![10u8] + pace_body(edges)) =~= edges.map_values(|x: (usize, usize)| pace_line(x)));
    lemma_one_based_lines(edges);
}

/// The graph rebuilt from a PACE text is the graph written: for an
/// undirected graph without loops whose last node has a neighbour, the
/// graph that `from_edge_list` builds from its edges `(a, b)` with `a < b`,
/// listed in any order, is the graph itself.
pub proof fn lemma_pace_graph_round_trip(adj: Seq<Set<usize>>, edges: Seq<(usize, usize)>)
    requires
        in_range(adj),
        is_symmetric(adj),
        adj.len() >= 1,
        adj.len() <= usize::MAX,
        forall|a: int| 0 <= a < adj.len() ==> !#[trigger] adj[a].contains(a as usize),
        adj[adj.len() - 1] != Set::<usize>::empty(),
        edges.to_set() == forward_pairs(adj),
    ensures
        forall|k: int| 0 <= k < edges.len() ==> (#[trigger] edges[k]).0 < usize::MAX && edges[k].1 < usize::MAX,
        edge_list_graph(edges) == adj,
{
    let n = adj.len();
    assert forall|k: int| 0 <= k < edges.len() implies (#[trigger] edges[k]).0 < n && edges[k].1 < n by {
        assert(edges.to_set().contains(edges[k]));
        assert(edge_pairs(adj).contains(edges[k]));
    }
    // The last node has a neighbour, below it: that edge names it.
    let last = (n - 1) as usize;
    assert(exists|w: usize| adj[last as int].contains(w)) by {
        if !exists|w: usize| adj[last as int].contains(w) {
            assert(adj[last as int] =~= Set::<usize>::empty());
        }
    }
    let w = choose|w: usize| adj[last as int].contains(w);
    assert(adj[last as int].contains(w));
    assert(w < n && w != last);
    assert(adj[w as int].contains(last));
    assert(forward_pairs(adj).contains((w, last)));
    assert(edges.to_set().contains((w, last)));
    let k = choose|k: int| 0 <= k < edges.len() && edges[k] == (w, last);
    lemma_max_endpoint(edges);
    lemma_max_endpoint_below(edges, n as usize);
    assert(max_endpoint(edges) == last);
    let g = edge_list_graph(edges);
    assert forall|a: int| 0 <= a < n implies #[trigger] g[a] =~= adj[a] by {
        assert forall|b: usize| g[a].contains(b) <==> adj[a].contains(b) by {
            if adj[a].contains(b) {
                assert(b < n);
                if (a as usize) < b {
                    assert(forward_pairs(adj).contains((a as usize, b)));
                    assert(edges.to_set().contains((a as usize, b)));
                    let t = choose|t: int| 0 <= t < edges.len() && edges[t] == (a as usize, b);
                    assert(edges_at(edges, a).contains(b));
                } else {
                    assert(b != a as usize);
                    assert(adj[b as int].contains(a as usize));
                    assert(forward_pairs(adj).contains((b, a as usize)));
                    assert(edges.to_set().contains((b, a as usize)));
                    let t = choose|t: int| 0 <= t < edges.len() && edges[t] == (b, a as usize);
                    assert(edges_at(edges, a).contains(b));
                }
            }
            if g[a].contains(b) {
                let t = choose|t: int|
                    0 <= t < edges.len() && ((edges[t].0 == a && edges[t].1 == b) || (edges[t].1 == a && edges[t].0 == b));
                assert(edges.to_set().contains(edges[t]));
                assert(edge_pairs(adj).contains(edges[t]));
                if edges[t].1 == a && edges[t].0 == b {
                    assert(adj[b as int].contains(a as usize));
                }
            }
        }
    }
    assert(g =~= adj);
}

/// The METIS line of a node: each neighbour counted from 1, followed by a
/// space; then a line break.
pub open spec fn metis_line(nbrs: Seq<usize>) -> Seq<u8>
    decreases nbrs.len(),
{
    if nbrs.len() == 0 {
        seq![10u8]
    } else {
        decimal((nbrs[0] + 1) as nat) + seq![32u8] + metis_line(nbrs.drop_first())
    }
}

/// The METIS lines of the nodes, one after the other.
pub open spec fn metis_body(lists: Seq<Seq<usize>>) -> Seq<u8>
    decreases lists.len(),
{
    if lists.len() == 0 {
        Seq::empty()
    } else {
        metis_body(lists.drop_last()) + metis_line(lists.last())
    }
}

proof fn lemma_metis_line_push(nbrs: Seq<usize>, x: usize)
    ensures
        metis_line(nbrs.push(x)) == metis_line(nbrs).drop_last() + decimal((x + 1) as nat) + seq![32u8, 10u8],
    decreases nbrs.len(),
{
    if nbrs.len() == 0 {
        assert(nbrs.push(x).drop_first() =~= Seq::<usize>::empty());
        assert(nbrs.push(x)[0] == x);
        assert(metis_line(Seq::<usize>::empty()) =~= seq![10u8]);
        assert(metis_line(nbrs.push(x)) =~= decimal((x + 1) as nat) + seq![32u8] + seq![10u8]);
        assert(metis_line(nbrs).drop_last() =~= Seq::<u8>::empty());
        assert(metis_line(nbrs.push(x)) =~= metis_line(nbrs).drop_last() + decimal((x + 1) as nat) + seq![
            32u8,
            10u8,
        ]);
    } else {
        assert(nbrs.push(x).drop_first() =~= nbrs.drop_first().push(x));
        lemma_metis_line_push(nbrs.drop_first(), x);
        lemma_metis_line_ends(nbrs.drop_first());
        let d = decimal((nbrs[0] + 1) as nat) + seq![32u8];
        assert(metis_line(nbrs) == d + metis_line(nbrs.drop_first()));
        assert((d + metis_line(nbrs.drop_first())).drop_last() =~= d + metis_line(nbrs.drop_first()).drop_last());
        assert(metis_line(nbrs.push(x)) =~= metis_line(nbrs).drop_last() + decimal((x + 1) as nat) + seq![
            32u8,
            10u8,
        ]);
    }
}

impl Graph {
    /// The METIS text of the graph: the header `n m` (`m` the number of
    /// edges), then one line per node listing its neighbours counted from 1,
    /// each followed by a space, in the order in which the neighbour set
    /// hands them out.
    pub fn metis_text(&self) -> (r: Vec<u8>)
        requires
            degree_sum(self@) <= usize::MAX,
            forall|e: (usize, usize)| #[trigger] edge_pairs(self@).contains(e) ==> e.1 < usize::MAX,
        ensures
            exists|lists: Seq<Seq<usize>>|
                {
                    &&& lists.len() == self@.len()
                    &&& forall|u: int|
                        0 <= u < lists.len() ==> (#[trigger] lists[u]).no_duplicates() && lists[u].to_set()
                            == self@[u]
                    &&& r@ == decimal(self@.len()) + seq![32u8] + decimal((degree_sum(self@) / 2) as nat) + seq![
                        10u8,
                    ] + metis_body(lists)
                },
    {
        let mut out: Vec<u8> = Vec::new();
        push_decimal(&mut out, self.get_num_nodes());
        out.push(32);
        push_decimal(&mut out, self.get_num_edges());
        out.push(10);
        let ghost head = out@;
        let ghost mut lists: Seq<Seq<usize>> = Seq::empty();
        let mut u: usize = 0;
        while u < self.data.len()
            invariant
                u <= self@.len(),
                lists.len() == u,
                forall|t: int| 0 <= t < u ==> (#[trigger] lists[t]).no_duplicates() && lists[t].to_set() == self@[t],
                forall|e: (usize, usize)| #[trigger] edge_pairs(self@).contains(e) ==> e.1 < usize::MAX,
                out@ == head + metis_body(lists),
            decreases self@.len() - u,
        {
            let nbrs = self.data[u].to_vec();
            let ghost line_start = out@;
            let mut j: usize = 0;
            proof {
                assert(nbrs@.take(0) =~= Seq::<usize>::empty());
                assert(metis_line(Seq::<usize>::empty()) =~= seq![10u8]);
                assert(out@ =~= line_start + metis_line(nbrs@.take(0)).drop_last());
            }
            while j < nbrs.len()
                invariant
                    u < self@.len(),
                    j <= nbrs@.len(),
                    nbrs@.to_set() == self@[u as int],
                    forall|e: (usize, usize)| #[trigger] edge_pairs(self@).contains(e) ==> e.1 < usize::MAX,
                    out@ == line_start + metis_line(nbrs@.take(j as int)).drop_last(),
                decreases nbrs.len() - j,
            {
                let v = nbrs[j];
                proof {
                    assert(nbrs@.to_set().contains(v));
                    assert(edge_pairs(self@).contains((u, v)));
                    lemma_metis_line_push(nbrs@.take(j as int), v);
                    assert(nbrs@.take(j + 1) =~= nbrs@.take(j as int).push(v));
                }
                let ghost before = out@;
                push_decimal(&mut out, v + 1);
                out.push(32);
                proof {
                    let m = metis_line(nbrs@.take(j + 1));
                    assert(m == metis_line(nbrs@.take(j as int)).drop_last() + decimal((v + 1) as nat) + seq![32u8, 10u8]);
                    assert(m.drop_last() =~= metis_line(nbrs@.take(j as int)).drop_last() + decimal((v + 1) as nat)
                        + seq![32u8]);
                }
                j = j + 1;
            }
            out.push(10);
            proof {
                assert(nbrs@.take(nbrs@.len() as int) =~= nbrs@);
                let m = metis_line(nbrs@);
                lemma_metis_line_ends(nbrs@);
                assert(m =~= m.drop_last().push(10u8));
                let old_lists = lists;
                lists = lists.push(nbrs@);
                assert(lists.drop_last() =~= old_lists);
                assert(out@ =~= head + metis_body(lists));
            }
            u = u + 1;
        }
        out
    }
}

proof fn lemma_metis_line_ends(nbrs: Seq<usize>)
    ensures
        metis_line(nbrs).len() >= 1,
        metis_line(nbrs).last() == 10u8,
    decreases nbrs.len(),
{
    if nbrs.len() > 0 {
        lemma_metis_line_ends(nbrs.drop_first());
    }
}

} // verus!
