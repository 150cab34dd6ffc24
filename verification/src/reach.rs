//! Facts about walks and reachability.
use crate::graph::{has_walk, is_symmetric, is_walk, reachable, walk_step};
use vstd::prelude::*;

verus! {

/// Every node reaches itself.
pub proof fn lemma_reach_self(g: Seq<Set<usize>>, s: usize)
    requires
        s < g.len(),
    ensures
        reachable(g, s, s),
{
    let p = seq![s];
    assert(is_walk(g, p));
    assert(has_walk(g, s, s, 0));
}

/// A reachable node's neighbours are reachable.
pub proof fn lemma_reach_step(g: Seq<Set<usize>>, s: usize, u: usize, v: usize)
    requires
        reachable(g, s, u),
        u < g.len(),
        v < g.len(),
        g[u as int].contains(v),
    ensures
        reachable(g, s, v),
{
    let k = choose|k: nat| #[trigger] has_walk(g, s, u, k);
    let p = choose|p: Seq<usize>| #[trigger] is_walk(g, p) && p.len() == k + 1 && p[0] == s && p[p.len() - 1] == u;
    let p2 = p.push(v);
    assert forall|t: int| 0 <= t < p2.len() implies #[trigger] p2[t] < g.len() by {
        if t < p.len() {
            assert(p2[t] == p[t]);
        }
    }
    assert forall|t: int| 0 <= t < p2.len() - 1 implies #[trigger] walk_step(g, p2, t) by {
        if t < p.len() - 1 {
            assert(walk_step(g, p, t));
        }
    }
    assert(is_walk(g, p2));
    assert(has_walk(g, s, v, k + 1));
}

/// A walk to `u` followed by the edge `u - v` is a walk to `v` one edge
/// longer.
pub proof fn lemma_walk_extend(g: Seq<Set<usize>>, s: usize, u: usize, k: nat, v: usize)
    requires
        has_walk(g, s, u, k),
        u < g.len(),
        v < g.len(),
        g[u as int].contains(v),
    ensures
        has_walk(g, s, v, k + 1),
{
    let p = choose|p: Seq<usize>| #[trigger] is_walk(g, p) && p.len() == k + 1 && p[0] == s && p[p.len() - 1] == u;
    let p2 = p.push(v);
    assert forall|t: int| 0 <= t < p2.len() implies #[trigger] p2[t] < g.len() by {
        if t < p.len() {
            assert(p2[t] == p[t]);
        }
    }
    assert forall|t: int| 0 <= t < p2.len() - 1 implies #[trigger] walk_step(g, p2, t) by {
        if t < p.len() - 1 {
            assert(walk_step(g, p, t));
        }
    }
    assert(is_walk(g, p2));
}

/// Reachability composes.
pub proof fn lemma_reach_trans(g: Seq<Set<usize>>, a: usize, b: usize, c: usize)
    requires
        reachable(g, a, b),
        reachable(g, b, c),
    ensures
        reachable(g, a, c),
{
    let k1 = choose|k: nat| #[trigger] has_walk(g, a, b, k);
    let p1 = choose|p: Seq<usize>| #[trigger] is_walk(g, p) && p.len() == k1 + 1 && p[0] == a && p[p.len() - 1] == b;
    let k2 = choose|k: nat| #[trigger] has_walk(g, b, c, k);
    let p2 = choose|p: Seq<usize>| #[trigger] is_walk(g, p) && p.len() == k2 + 1 && p[0] == b && p[p.len() - 1] == c;
    let p = p1 + p2.drop_first();
    assert forall|t: int| 0 <= t < p.len() implies #[trigger] p[t] < g.len() by {
        if t < p1.len() {
            assert(p[t] == p1[t]);
        } else {
            assert(p[t] == p2[t - p1.len() + 1]);
        }
    }
    assert forall|t: int| 0 <= t < p.len() - 1 implies #[trigger] walk_step(g, p, t) by {
        if t < p1.len() - 1 {
            assert(walk_step(g, p1, t));
        } else if t == p1.len() - 1 {
            assert(walk_step(g, p2, 0));
            assert(p[t] == b);
            assert(p[t + 1] == p2[1]);
        } else {
            let t2 = t - p1.len() + 1;
            assert(walk_step(g, p2, t2));
            assert(p[t] == p2[t2]);
            assert(p[t + 1] == p2[t2 + 1]);
        }
    }
    assert(is_walk(g, p));
    if k2 == 0 {
        assert(p =~= p1);
    }
    assert(has_walk(g, a, c, (k1 + k2) as nat));
}

/// On a symmetric graph, reachability goes both ways.
pub proof fn lemma_reach_symmetric(g: Seq<Set<usize>>, a: usize, b: usize)
    requires
        is_symmetric(g),
        reachable(g, a, b),
    ensures
        reachable(g, b, a),
{
    let k = choose|k: nat| #[trigger] has_walk(g, a, b, k);
    let p = choose|p: Seq<usize>| #[trigger] is_walk(g, p) && p.len() == k + 1 && p[0] == a && p[p.len() - 1] == b;
    let r = p.reverse();
    assert forall|t: int| 0 <= t < r.len() implies #[trigger] r[t] < g.len() by {
        assert(r[t] == p[p.len() - 1 - t]);
    }
    assert forall|t: int| 0 <= t < r.len() - 1 implies #[trigger] walk_step(g, r, t) by {
        let t2 = p.len() - 2 - t;
        assert(walk_step(g, p, t2));
        assert(r[t] == p[t2 + 1]);
        assert(r[t + 1] == p[t2]);
        assert(p[t2] < g.len());
    }
    assert(is_walk(g, r));
    assert(has_walk(g, b, a, k));
}

/// A set that holds `s` and is closed under edges holds every node that `s`
/// reaches.
pub proof fn lemma_closed_set_holds_reachable(g: Seq<Set<usize>>, m: Set<usize>, s: usize, v: usize)
    requires
        m.contains(s),
        forall|u: usize, w: usize| m.contains(u) && u < g.len() && #[trigger] g[u as int].contains(w) ==> m.contains(w),
        reachable(g, s, v),
    ensures
        m.contains(v),
{
    let k = choose|k: nat| #[trigger] has_walk(g, s, v, k);
    let p = choose|p: Seq<usize>| #[trigger] is_walk(g, p) && p.len() == k + 1 && p[0] == s && p[p.len() - 1] == v;
    lemma_walk_in_closed_set(g, m, p);
}

/// Every node of a walk that starts in a closed set lies in it.
pub proof fn lemma_walk_in_closed_set(g: Seq<Set<usize>>, m: Set<usize>, p: Seq<usize>)
    requires
        is_walk(g, p),
        m.contains(p[0]),
        forall|u: usize, w: usize| m.contains(u) && u < g.len() && #[trigger] g[u as int].contains(w) ==> m.contains(w),
    ensures
        m.contains(p[p.len() - 1]),
    decreases p.len(),
{
    if p.len() > 1 {
        let q = p.drop_last();
        assert forall|t: int| 0 <= t < q.len() - 1 implies #[trigger] walk_step(g, q, t) by {
            assert(walk_step(g, p, t));
        }
        assert(is_walk(g, q));
        lemma_walk_in_closed_set(g, m, q);
        assert(walk_step(g, p, p.len() - 2));
        assert(p[p.len() - 2] < g.len());
    }
}

/// Adding edges keeps every node reachable that was.
pub proof fn lemma_reach_mono(g: Seq<Set<usize>>, h: Seq<Set<usize>>, s: usize, v: usize)
    requires
        g.len() == h.len(),
        forall|u: int, w: usize| 0 <= u < g.len() && #[trigger] g[u].contains(w) ==> h[u].contains(w),
        reachable(g, s, v),
    ensures
        reachable(h, s, v),
{
    let k = choose|k: nat| #[trigger] has_walk(g, s, v, k);
    let p = choose|p: Seq<usize>| #[trigger] is_walk(g, p) && p.len() == k + 1 && p[0] == s && p[p.len() - 1] == v;
    assert forall|t: int| 0 <= t < p.len() - 1 implies #[trigger] walk_step(h, p, t) by {
        assert(walk_step(g, p, t));
        assert(p[t] < g.len());
    }
    assert(is_walk(h, p));
    assert(has_walk(h, s, v, k));
}

} // verus!
