//! Road graphs from OpenStreetMap XML.
//!
//! An OSM file lists `node` elements (an id and a position) and `way`
//! elements (a chain of `nd` references to node ids). Every two consecutive
//! references of a way are a road segment. The graph has one node for each
//! node id that a way references and that a `node` element places, numbered
//! in increasing order of id, and an edge for each segment between two such
//! nodes.
//!
//! The elements come in as [`OsmEvent`]s (see `osm_xml` for reading them
//! from the XML itself); [`OsmCollector`] gathers the ways and
//! [`OsmCollector::finish`] numbers the nodes and builds the graph.
use crate::collections::{id_map_contents, IdMap, IdSet};
use crate::graph::{edges_at, lemma_with_edge_list_step, with_edge_list, Graph};
use vstd::prelude::*;

verus! {

/// One element of an OSM file, as far as the road graph needs it.
#[derive(Debug, Clone, Copy, PartialEq, Eq, Structural)]
pub enum OsmEvent {
    /// A `node` element (opening or empty tag) that gives its id, latitude
    /// and longitude.
    PositionedNode(i64),
    /// The opening tag of a `way` element.
    WayStart,
    /// An empty `way` element.
    EmptyWay,
    /// An `nd` element whose first `ref` attribute names the node id.
    NodeRef(i64),
    /// The closing tag of a `way` element.
    WayEnd,
}

/// What the collector has gathered so far.
#[verifier::ext_equal]
pub struct OsmModel {
    /// Inside a `way` element.
    pub in_way: bool,
    /// The references of the way being read.
    pub way: Seq<i64>,
    /// The road segments of the ways read, in order.
    pub pairs: Seq<(i64, i64)>,
    /// The node ids that ways referenced.
    pub referenced: Set<i64>,
    /// The node ids that `node` elements placed.
    pub positioned: Set<i64>,
}

/// The segments between consecutive references of `w`.
pub open spec fn consecutive_pairs(w: Seq<i64>) -> Seq<(i64, i64)> {
    if w.len() >= 2 {
        Seq::new((w.len() - 1) as nat, |i: int| (w[i], w[i + 1]))
    } else {
        Seq::empty()
    }
}

/// The collector after one more element.
pub open spec fn osm_step(m: OsmModel, e: OsmEvent) -> OsmModel {
    match e {
        OsmEvent::PositionedNode(id) => OsmModel { positioned: m.positioned.insert(id), ..m },
        OsmEvent::WayStart => OsmModel { in_way: true, way: Seq::empty(), ..m },
        OsmEvent::EmptyWay => OsmModel { way: Seq::empty(), ..m },
        OsmEvent::NodeRef(r) => if m.in_way {
            OsmModel { way: m.way.push(r), referenced: m.referenced.insert(r), ..m }
        } else {
            m
        },
        OsmEvent::WayEnd => OsmModel {
            in_way: false,
            way: Seq::empty(),
            pairs: m.pairs + consecutive_pairs(m.way),
            ..m
        },
    }
}

/// The collector before any element.
pub open spec fn osm_start() -> OsmModel {
    OsmModel {
        in_way: false,
        way: Seq::empty(),
        pairs: Seq::empty(),
        referenced: Set::empty(),
        positioned: Set::empty(),
    }
}

/// `ids` lists each node id of the graph once, in increasing order.
pub open spec fn is_node_order(ids: Seq<i64>, m: OsmModel) -> bool {
    &&& forall|i: int, j: int| 0 <= i < j < ids.len() ==> ids[i] < ids[j]
    &&& ids.to_set() == m.referenced.intersect(m.positioned)
}

/// The segments of `pairs` between nodes of `ids`, as edges between their
/// positions in `ids`.
pub open spec fn segment_edges(pairs: Seq<(i64, i64)>, ids: Seq<i64>) -> Seq<(usize, usize)>
    decreases pairs.len(),
{
    if pairs.len() == 0 {
        Seq::empty()
    } else {
        let rest = segment_edges(pairs.drop_last(), ids);
        let (a, b) = pairs.last();
        if ids.contains(a) && ids.contains(b) {
            rest.push((ids.index_of(a) as usize, ids.index_of(b) as usize))
        } else {
            rest
        }
    }
}

/// The road graph: a node for each id of `ids`, an edge for each segment.
pub open spec fn road_graph(m: OsmModel, ids: Seq<i64>) -> Seq<Set<usize>> {
    with_edge_list(
        Seq::new(ids.len(), |i: int| Set::<usize>::empty()),
        segment_edges(m.pairs, ids),
    )
}

/// Gathers the ways and node ids of an OSM file, element by element.
pub struct OsmCollector {
    in_way: bool,
    way: Vec<i64>,
    pairs: Vec<(i64, i64)>,
    referenced: IdSet,
    positioned: IdSet,
}

impl OsmCollector {
    /// What has been gathered.
    pub closed spec fn model(&self) -> OsmModel {
        OsmModel {
            in_way: self.in_way,
            way: self.way@,
            pairs: self.pairs@,
            referenced: self.referenced@,
            positioned: self.positioned@,
        }
    }

    /// A collector that has seen no element.
    pub fn new() -> (c: OsmCollector)
        ensures
            c.model() == osm_start(),
    {
        OsmCollector {
            in_way: false,
            way: Vec::new(),
            pairs: Vec::new(),
            referenced: IdSet::new(),
            positioned: IdSet::new(),
        }
    }

    /// Takes in the next element of the file.
    pub fn step(&mut self, e: OsmEvent)
        ensures
            final(self).model() == osm_step(old(self).model(), e),
    {
        match e {
            OsmEvent::PositionedNode(id) => {
                self.positioned.insert(id);
            },
            OsmEvent::WayStart => {
                self.in_way = true;
                self.way.clear();
            },
            OsmEvent::EmptyWay => {
                self.way.clear();
            },
            OsmEvent::NodeRef(r) => {
                if self.in_way {
                    self.way.push(r);
                    self.referenced.insert(r);
                }
            },
            OsmEvent::WayEnd => {
                self.in_way = false;
                let ghost p0 = self.pairs@;
                let ghost w = self.way@;
                if self.way.len() >= 2 {
                    let mut i: usize = 0;
                    while i < self.way.len() - 1
                        invariant
                            self.way@ == w,
                            !self.in_way,
                            self.referenced@ == old(self).referenced@,
                            self.positioned@ == old(self).positioned@,
                            w.len() >= 2,
                            i <= w.len() - 1,
                            self.pairs@ == p0 + consecutive_pairs(w).take(i as int),
                        decreases w.len() - 1 - i,
                    {
                        self.pairs.push((self.way[i], self.way[i + 1]));
                        proof {
                            assert(consecutive_pairs(w).take(i + 1) =~= consecutive_pairs(w).take(
                                i as int,
                            ).push((w[i as int], w[i + 1])));
                        }
                        i = i + 1;
                    }
                    assert(consecutive_pairs(w).take(i as int) =~= consecutive_pairs(w));
                } else {
                    assert(self.pairs@ =~= p0 + consecutive_pairs(w));
                }
                self.way.clear();
            },
        }
        proof {
            assert(self.model() =~= osm_step(old(self).model(), e));
        }
    }

    /// The node ids of the graph in increasing order (the position of an id
    /// is its node), and the road graph on them.
    pub fn finish(&self) -> (r: (Vec<i64>, Graph))
        ensures
            is_node_order(r.0@, self.model()),
            r.1@ == road_graph(self.model(), r.0@),
    {
        let ghost m = self.model();
        let mut ids: Vec<i64> = Vec::new();
        let all = self.referenced.to_vec();
        let mut q: usize = 0;
        while q < all.len()
            invariant
                q <= all@.len(),
                all@.no_duplicates(),
                all@.to_set() == m.referenced,
                m.positioned == self.positioned@,
                ids@.no_duplicates(),
                forall|x: i64|
                    #[trigger] ids@.contains(x) <==> (all@.take(q as int).contains(x)
                        && m.positioned.contains(x)),
            decreases all.len() - q,
        {
            let id = all[q];
            proof {
                assert(all@.take(q + 1) =~= all@.take(q as int).push(id));
                assert forall|x: i64| #[trigger] all@.take(q + 1).contains(x) <==> (all@.take(q as int).contains(x) || x == id) by {
                    let s0 = all@.take(q as int);
                    let s1 = all@.take(q + 1);
                    if s1.contains(x) && x != id {
                        let t = choose|t: int| 0 <= t < s1.len() && s1[t] == x;
                        assert(s0[t] == x);
                    }
                    if s0.contains(x) {
                        let t = choose|t: int| 0 <= t < s0.len() && s0[t] == x;
                        assert(s1[t] == x);
                    }
                    if x == id {
                        assert(s1[q as int] == x);
                    }
                }
                assert(!all@.take(q as int).contains(id)) by {
                    if all@.take(q as int).contains(id) {
                        let t = choose|t: int| 0 <= t < q && all@.take(q as int)[t] == id;
                        assert(all@[t] == all@[q as int]);
                    }
                }
            }
            if self.positioned.contains(id) {
                let ghost before = ids@;
                ids.push(id);
                proof {
                    assert(!before.contains(id));
                    assert forall|x: i64| #[trigger] ids@.contains(x) <==> (before.contains(x) || x == id) by {
                        if ids@.contains(x) && x != id {
                            let t = choose|t: int| 0 <= t < ids@.len() && ids@[t] == x;
                            assert(before[t] == x);
                        }
                        if x == id {
                            assert(ids@[before.len() as int] == id);
                        }
                        if before.contains(x) {
                            let t = choose|t: int| 0 <= t < before.len() && before[t] == x;
                            assert(ids@[t] == x);
                        }
                    }
                }
            }
            q = q + 1;
        }
        proof {
            assert(all@.take(all@.len() as int) =~= all@);
            assert forall|x: i64| ids@.to_set().contains(x) <==> m.referenced.intersect(
                m.positioned,
            ).contains(x) by {
                assert(all@.to_set().contains(x) <==> all@.contains(x));
            }
            assert(ids@.to_set() =~= m.referenced.intersect(m.positioned));
        }
        let ghost unsorted = ids@;
        sort_ids(&mut ids);
        proof {
            lemma_sorted_distinct(unsorted, ids@);
        }
        let n = ids.len();
        let mut index = IdMap::new();
        let mut k: usize = 0;
        while k < n
            invariant
                n == ids@.len(),
                k <= n,
                forall|i: int, j: int| 0 <= i < j < ids@.len() ==> ids@[i] < ids@[j],
                forall|x: i64| #[trigger]
                    id_map_contents(index).dom().contains(x) <==> exists|i: int| 0 <= i < k && ids@[i] == x,
                forall|i: int| 0 <= i < k ==> id_map_contents(index)[#[trigger] ids@[i]] == i,
            decreases n - k,
        {
            let ghost before = id_map_contents(index);
            index.insert(ids[k], k);
            proof {
                assert forall|x: i64| #[trigger]
                    id_map_contents(index).dom().contains(x) <==> exists|i: int| 0 <= i < k + 1 && ids@[i] == x by {
                    if x == ids@[k as int] {
                        assert(0 <= k < k + 1 && ids@[k as int] == x);
                    }
                    if before.dom().contains(x) {
                        let i = choose|i: int| 0 <= i < k && ids@[i] == x;
                        assert(0 <= i < k + 1 && ids@[i] == x);
                    }
                    if exists|i: int| 0 <= i < k + 1 && ids@[i] == x {
                        let i = choose|i: int| 0 <= i < k + 1 && ids@[i] == x;
                        if i < k {
                            assert(before.dom().contains(x));
                        }
                    }
                }
                assert forall|i: int| 0 <= i < k + 1 implies id_map_contents(index)[#[trigger] ids@[i]] == i by {
                    if i < k {
                        assert(ids@[i] < ids@[k as int]);
                    }
                }
            }
            k = k + 1;
        }
        proof {
            assert forall|x: i64| #[trigger] id_map_contents(index).dom().contains(x) <==> ids@.contains(x) by {
                if ids@.contains(x) {
                    let i = choose|i: int| 0 <= i < ids@.len() && ids@[i] == x;
                    assert(0 <= i < n && ids@[i] == x);
                }
            }
        }
        let mut g = Graph::with_node_count(n);
        let ghost empty = g@;
        assert(with_edge_list(empty, segment_edges(self.pairs@.take(0), ids@)) =~= empty) by {
            assert(segment_edges(self.pairs@.take(0), ids@) =~= Seq::<(usize, usize)>::empty());
            assert forall|a: int| 0 <= a < empty.len() implies #[trigger] with_edge_list(
                empty,
                Seq::<(usize, usize)>::empty(),
            )[a] =~= empty[a] by {
                assert(edges_at(Seq::<(usize, usize)>::empty(), a) =~= Set::<usize>::empty());
            }
        }
        let mut p: usize = 0;
        while p < self.pairs.len()
            invariant
                n == ids@.len(),
                forall|i: int, j: int| 0 <= i < j < ids@.len() ==> ids@[i] < ids@[j],
                forall|x: i64| #[trigger] id_map_contents(index).dom().contains(x) <==> ids@.contains(x),
                forall|i: int| 0 <= i < n ==> id_map_contents(index)[#[trigger] ids@[i]] == i,
                empty == Seq::new(n as nat, |i: int| Set::<usize>::empty()),
                p <= self.pairs@.len(),
                g@ == with_edge_list(empty, segment_edges(self.pairs@.take(p as int), ids@)),
            decreases self.pairs.len() - p,
        {
            let (a, b) = self.pairs[p];
            let ghost before = segment_edges(self.pairs@.take(p as int), ids@);
            proof {
                assert(ids@.take(n as int) =~= ids@);
                assert(self.pairs@.take(p + 1).drop_last() =~= self.pairs@.take(p as int));
                lemma_segment_edges_in_range(self.pairs@.take(p as int), ids@);
            }
            match (index.get(a), index.get(b)) {
                (Some(i), Some(j)) => {
                    proof {
                        lemma_index_of_sorted(ids@, i as int);
                        lemma_index_of_sorted(ids@, j as int);
                        let after = before.push((i, j));
                        assert(segment_edges(self.pairs@.take(p + 1), ids@) == after);
                        assert(after.take(before.len() as int) =~= before);
                        assert(after.take(before.len() as int + 1) =~= after);
                        lemma_with_edge_list_step(empty, after, before.len() as int);
                    }
                    g.add_edge(i, j);
                },
                _ => {
                    proof {
                        assert(!(ids@.contains(a) && ids@.contains(b)));
                        assert(segment_edges(self.pairs@.take(p + 1), ids@) == before);
                    }
                },
            }
            p = p + 1;
        }
        proof {
            assert(self.pairs@.take(p as int) =~= self.pairs@);
        }
        (ids, g)
    }
}

/// `<[i64]>::sort_unstable`: the same ids in nondecreasing order.
#[verifier::external_body]
fn sort_ids(v: &mut Vec<i64>)
    ensures
        final(v)@.to_multiset() == old(v)@.to_multiset(),
        forall|i: int, j: int| 0 <= i <= j < final(v)@.len() ==> final(v)@[i] <= final(v)@[j],
{
    v.sort_unstable()
}

/// A sorted rearrangement of a list without repeats is strictly increasing
/// and holds the same ids.
proof fn lemma_sorted_distinct(a: Seq<i64>, b: Seq<i64>)
    requires
        a.no_duplicates(),
        b.to_multiset() == a.to_multiset(),
        forall|i: int, j: int| 0 <= i <= j < b.len() ==> b[i] <= b[j],
    ensures
        forall|i: int, j: int| 0 <= i < j < b.len() ==> b[i] < b[j],
        b.to_set() == a.to_set(),
        b.len() == a.len(),
{
    a.lemma_multiset_has_no_duplicates();
    b.lemma_multiset_has_no_duplicates_conv();
    assert forall|x: i64| b.to_set().contains(x) <==> a.to_set().contains(x) by {
        vstd::seq_lib::to_multiset_contains(a, x);
        vstd::seq_lib::to_multiset_contains(b, x);
    }
    assert(b.to_set() =~= a.to_set());
    vstd::seq_lib::to_multiset_len(a);
    vstd::seq_lib::to_multiset_len(b);
}

/// In a strictly increasing list, the id at position `i` is found at `i`.
proof fn lemma_index_of_sorted(ids: Seq<i64>, i: int)
    requires
        0 <= i < ids.len(),
        forall|s: int, t: int| 0 <= s < t < ids.len() ==> ids[s] < ids[t],
    ensures
        ids.contains(ids[i]),
        ids.index_of(ids[i]) == i,
{
    assert(ids[i] == ids[i]);
    let k = ids.index_of(ids[i]);
    assert(0 <= k < ids.len() && ids[k] == ids[i]);
    if k < i {
        assert(ids[k] < ids[i]);
    } else if i < k {
        assert(ids[i] < ids[k]);
    }
}

/// The edges between nodes of `ids` join positions of `ids`.
proof fn lemma_segment_edges_in_range(pairs: Seq<(i64, i64)>, ids: Seq<i64>)
    requires
        ids.len() <= usize::MAX,
    ensures
        forall|t: int|
            0 <= t < segment_edges(pairs, ids).len() ==> (#[trigger] segment_edges(pairs, ids)[t]).0
                < ids.len() && segment_edges(pairs, ids)[t].1 < ids.len(),
    decreases pairs.len(),
{
    if pairs.len() > 0 {
        lemma_segment_edges_in_range(pairs.drop_last(), ids);
        let (a, b) = pairs.last();
        let rest = segment_edges(pairs.drop_last(), ids);
        if ids.contains(a) && ids.contains(b) {
            let i = ids.index_of(a);
            let j = ids.index_of(b);
            assert(0 <= i < ids.len() && ids[i] == a);
            assert(0 <= j < ids.len() && ids[j] == b);
            let all = rest.push((i as usize, j as usize));
            assert(segment_edges(pairs, ids) == all);
            assert forall|t: int| 0 <= t < all.len() implies (#[trigger] all[t]).0 < ids.len() && all[t].1
                < ids.len() by {
                if t < rest.len() {
                    assert(all[t] == rest[t]);
                }
            }
        }
    }
}

} // verus!
