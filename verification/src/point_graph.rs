//! Graphs given as edges between grid points: the points become nodes,
//! numbered in the lexicographic order of the points.
use crate::cbrt_grid::{point_le, sort_points, Edge, Point};
use crate::collections::{point_map_contents, PointMap};
use crate::graph::{edge_list_graph, lemma_max_endpoint_below, Graph};
use vstd::prelude::*;

verus! {

/// `a` comes strictly before `b` in lexicographic order.
pub open spec fn point_lt(a: Point, b: Point) -> bool {
    a.0 < b.0 || (a.0 == b.0 && a.1 < b.1)
}

/// `p` is an end of some edge of `edges`.
pub open spec fn is_endpoint(edges: Seq<Edge>, p: Point) -> bool {
    exists|k: int| #![trigger edges[k]] 0 <= k < edges.len() && (edges[k].0 == p || edges[k].1 == p)
}

/// The edges with each point replaced by its position in `points`.
pub open spec fn indexed_edges(edges: Seq<Edge>, points: Seq<Point>) -> Seq<(usize, usize)> {
    edges.map_values(|e: Edge| (points.index_of(e.0) as usize, points.index_of(e.1) as usize))
}

/// The ends of the edges, each once, in lexicographic order.
fn endpoints(edges: &[Edge]) -> (r: Vec<Point>)
    ensures
        forall|i: int, j: int| 0 <= i < j < r@.len() ==> point_lt(r@[i], r@[j]),
        forall|p: Point| #[trigger] r@.contains(p) <==> is_endpoint(edges@, p),
{
    let mut all: Vec<Point> = Vec::new();
    let mut k: usize = 0;
    while k < edges.len()
        invariant
            k <= edges@.len(),
            forall|p: Point| #[trigger] all@.contains(p) <==> is_endpoint(edges@.take(k as int), p),
        decreases edges.len() - k,
    {
        let (a, b) = edges[k];
        let ghost all0 = all@;
        all.push(a);
        all.push(b);
        proof {
            assert(all@ == all0.push(a).push(b));
            let t0 = edges@.take(k as int);
            let t1 = edges@.take(k + 1);
            assert(t1[k as int] == edges@[k as int]);
            assert forall|p: Point| #[trigger] all@.contains(p) <==> is_endpoint(t1, p) by {
                if all@.contains(p) {
                    let i = choose|i: int| 0 <= i < all@.len() && all@[i] == p;
                    if i < all0.len() {
                        assert(all0[i] == p);
                        assert(all0.contains(p));
                        assert(is_endpoint(t0, p));
                        let q = choose|q: int| #![trigger t0[q]] 0 <= q < t0.len() && (t0[q].0 == p || t0[q].1 == p);
                        assert(0 <= q < k);
                        assert(t0[q] == edges@[q]);
                        assert(t1[q] == edges@[q]);
                        assert(t1[q].0 == p || t1[q].1 == p);
                    } else {
                        assert(t1[k as int].0 == p || t1[k as int].1 == p);
                    }
                }
                if is_endpoint(t1, p) {
                    let q = choose|q: int| #![trigger t1[q]] 0 <= q < t1.len() && (t1[q].0 == p || t1[q].1 == p);
                    if q < k {
                        assert(t0[q] == t1[q]);
                        assert(t0[q].0 == p || t0[q].1 == p);
                        assert(is_endpoint(t0, p));
                        assert(all0.contains(p));
                        let i = choose|i: int| 0 <= i < all0.len() && all0[i] == p;
                        assert(all@[i] == p);
                    } else if t1[q].0 == p {
                        assert(all@[all0.len() as int] == p);
                    } else {
                        assert(all@[all0.len() as int + 1] == p);
                    }
                }
            }
        }
        k = k + 1;
    }
    proof {
        assert(edges@.take(edges@.len() as int) =~= edges@);
    }
    let ghost unsorted = all@;
    sort_points(&mut all);
    proof {
        assert forall|p: Point| #[trigger] all@.contains(p) <==> unsorted.contains(p) by {
            vstd::seq_lib::to_multiset_contains(all@, p);
            vstd::seq_lib::to_multiset_contains(unsorted, p);
        }
    }
    let mut r: Vec<Point> = Vec::new();
    let mut t: usize = 0;
    while t < all.len()
        invariant
            forall|i: int, j: int| 0 <= i <= j < all@.len() ==> point_le(all@[i], all@[j]),
            t <= all@.len(),
            forall|i: int, j: int| 0 <= i < j < r@.len() ==> point_lt(r@[i], r@[j]),
            t > 0 ==> r@.len() > 0 && r@.last() == all@[t - 1],
            t == 0 ==> r@.len() == 0,
            forall|p: Point| #[trigger] r@.contains(p) <==> all@.take(t as int).contains(p),
        decreases all.len() - t,
    {
        let p = all[t];
        let fresh = if r.len() == 0 {
            true
        } else {
            let last = r[r.len() - 1];
            !(last.0 == p.0 && last.1 == p.1)
        };
        let ghost r0 = r@;
        proof {
            if t > 0 {
                assert(point_le(all@[t - 1], all@[t as int]));
            }
        }
        if fresh {
            r.push(p);
            proof {
                assert forall|i: int, j: int| 0 <= i < j < r@.len() implies point_lt(r@[i], r@[j]) by {
                    if j == r@.len() - 1 && i < j {
                        assert(point_lt(r0.last(), p));
                        if i < r0.len() - 1 {
                            assert(point_lt(r0[i], r0.last()));
                        }
                    }
                }
            }
        }
        proof {
            assert forall|x: Point| #[trigger] r@.contains(x) <==> all@.take(t + 1).contains(x) by {
                let s0 = all@.take(t as int);
                let s1 = all@.take(t + 1);
                assert(s1 == s0.push(p));
                if s1.contains(x) {
                    let k = choose|k: int| 0 <= k < s1.len() && s1[k] == x;
                    if k < t {
                        assert(s0[k] == x);
                        assert(s0.contains(x));
                        assert(r0.contains(x));
                        let k0 = choose|k0: int| 0 <= k0 < r0.len() && r0[k0] == x;
                        assert(r@[k0] == x);
                    } else {
                        assert(x == p);
                        if fresh {
                            assert(r@[r@.len() - 1] == x);
                        } else {
                            assert(r0[r0.len() - 1] == x);
                            assert(r@[r0.len() - 1] == x);
                        }
                    }
                }
                if r@.contains(x) {
                    let k = choose|k: int| 0 <= k < r@.len() && r@[k] == x;
                    if k < r0.len() {
                        assert(r0[k] == x);
                        assert(r0.contains(x));
                        assert(s0.contains(x));
                        let k0 = choose|k0: int| 0 <= k0 < s0.len() && s0[k0] == x;
                        assert(s1[k0] == x);
                    } else {
                        assert(x == p);
                        assert(s1[t as int] == x);
                    }
                }
            }
        }
        t = t + 1;
    }
    proof {
        assert(all@.take(all@.len() as int) =~= all@);
    }
    r
}

/// In a strictly increasing list, the point at position `i` is found at `i`.
proof fn lemma_index_of_increasing(points: Seq<Point>, i: int)
    requires
        0 <= i < points.len(),
        forall|s: int, t: int| 0 <= s < t < points.len() ==> point_lt(points[s], points[t]),
    ensures
        points.index_of(points[i]) == i,
{
    assert(points[i] == points[i]);
    let k = points.index_of(points[i]);
    assert(0 <= k < points.len() && points[k] == points[i]);
    if k < i {
        assert(point_lt(points[k], points[i]));
    } else if i < k {
        assert(point_lt(points[i], points[k]));
    }
}

/// The ends of the edges, each once, in lexicographic order, and the graph
/// on them (node `i` the point at position `i`) with an edge for each edge
/// of the list, built as `from_edge_list` builds it.
pub fn graph_from_point_edges(edges: &[Edge]) -> (r: (Vec<Point>, Graph))
    ensures
        forall|i: int, j: int| 0 <= i < j < r.0@.len() ==> point_lt(r.0@[i], r.0@[j]),
        forall|p: Point| #[trigger] r.0@.contains(p) <==> is_endpoint(edges@, p),
        r.1@ == edge_list_graph(indexed_edges(edges@, r.0@)),
{
    let points = endpoints(edges);
    let n = points.len();
    let mut index = PointMap::new();
    let mut k: usize = 0;
    while k < n
        invariant
            n == points@.len(),
            k <= n,
            forall|i: int, j: int| 0 <= i < j < points@.len() ==> point_lt(points@[i], points@[j]),
            forall|p: Point| #[trigger]
                point_map_contents(index).dom().contains(p) <==> exists|i: int| 0 <= i < k && points@[i] == p,
            forall|i: int| 0 <= i < k ==> point_map_contents(index)[#[trigger] points@[i]] == i,
        decreases n - k,
    {
        let ghost before = point_map_contents(index);
        index.insert(points[k], k);
        proof {
            assert forall|p: Point| #[trigger]
                point_map_contents(index).dom().contains(p) <==> exists|i: int| 0 <= i < k + 1 && points@[i] == p by {
                if p == points@[k as int] {
                    assert(0 <= k < k + 1 && points@[k as int] == p);
                }
                if before.dom().contains(p) {
                    let i = choose|i: int| 0 <= i < k && points@[i] == p;
                    assert(0 <= i < k + 1 && points@[i] == p);
                }
                if exists|i: int| 0 <= i < k + 1 && points@[i] == p {
                    let i = choose|i: int| 0 <= i < k + 1 && points@[i] == p;
                    if i < k {
                        assert(before.dom().contains(p));
                    }
                }
            }
            assert forall|i: int| 0 <= i < k + 1 implies point_map_contents(index)[#[trigger] points@[i]] == i by {
                if i < k {
                    assert(point_lt(points@[i], points@[k as int]));
                }
            }
        }
        k = k + 1;
    }
    let mut idx: Vec<(usize, usize)> = Vec::new();
    let mut t: usize = 0;
    while t < edges.len()
        invariant
            n == points@.len(),
            forall|i: int, j: int| 0 <= i < j < points@.len() ==> point_lt(points@[i], points@[j]),
            forall|p: Point| #[trigger] points@.contains(p) <==> is_endpoint(edges@, p),
            forall|p: Point| #[trigger]
                point_map_contents(index).dom().contains(p) <==> exists|i: int| 0 <= i < n && points@[i] == p,
            forall|i: int| 0 <= i < n ==> point_map_contents(index)[#[trigger] points@[i]] == i,
            t <= edges@.len(),
            idx@ == indexed_edges(edges@.take(t as int), points@),
            forall|s: int| 0 <= s < idx@.len() ==> (#[trigger] idx@[s]).0 < n && idx@[s].1 < n,
        decreases edges.len() - t,
    {
        let (a, b) = edges[t];
        proof {
            assert(is_endpoint(edges@, a) && is_endpoint(edges@, b)) by {
                assert(edges@[t as int].0 == a);
            }
            assert(points@.contains(a) && points@.contains(b));
            let ia = choose|i: int| 0 <= i < points@.len() && points@[i] == a;
            let ib = choose|i: int| 0 <= i < points@.len() && points@[i] == b;
            assert(point_map_contents(index).dom().contains(a));
            assert(point_map_contents(index).dom().contains(b));
            lemma_index_of_increasing(points@, ia);
            lemma_index_of_increasing(points@, ib);
            assert(point_map_contents(index)[points@[ia]] == ia);
            assert(point_map_contents(index)[points@[ib]] == ib);
        }
        let i = index.get(a).unwrap();
        let j = index.get(b).unwrap();
        idx.push((i, j));
        proof {
            assert(indexed_edges(edges@.take(t + 1), points@) =~= indexed_edges(edges@.take(t as int), points@).push(
                (i, j),
            ));
        }
        t = t + 1;
    }
    proof {
        assert(edges@.take(edges@.len() as int) =~= edges@);
        lemma_max_endpoint_below(idx@, n);
    }
    let g = Graph::from_edge_list(idx);
    (points, g)
}

} // verus!
