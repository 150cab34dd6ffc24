//! Random trees grown by a random walk: the walk moves to a uniformly drawn
//! node at each step, and the first visit of a node joins it to the node the
//! walk came from.
use crate::collections::NodeSet;
use crate::graph::{is_symmetric, reachable, Graph};
use crate::reach::{lemma_reach_mono, lemma_reach_self, lemma_reach_step};
use vstd::prelude::*;

verus! {

/// The neighbour lists as sets.
pub open spec fn lists_view(data: Seq<Vec<usize>>) -> Seq<Set<usize>> {
    data.map_values(|l: Vec<usize>| l@.to_set())
}

/// The total length of the lists.
pub open spec fn total_len(data: Seq<Vec<usize>>) -> int
    decreases data.len(),
{
    if data.len() == 0 {
        0
    } else {
        total_len(data.drop_last()) + data.last()@.len()
    }
}

/// Lengthening one list by one lengthens the total by one.
proof fn lemma_total_len_update(data: Seq<Vec<usize>>, i: int, l: Vec<usize>)
    requires
        0 <= i < data.len(),
        l@.len() == data[i]@.len() + 1,
    ensures
        total_len(data.update(i, l)) == total_len(data) + 1,
    decreases data.len(),
{
    if i < data.len() - 1 {
        assert(data.update(i, l).drop_last() =~= data.drop_last().update(i, l));
        lemma_total_len_update(data.drop_last(), i, l);
    } else {
        assert(data.update(i, l).drop_last() =~= data.drop_last());
    }
}

/// The lists form a tree on the visited nodes: each edge is listed at both
/// ends, once, between visited nodes; there are `visited - 1` edges; and node
/// 0 reaches every visited node.
pub open spec fn is_tree_on(data: Seq<Vec<usize>>, visited: Set<usize>) -> bool {
    let n = data.len();
    &&& visited.contains(0)
    &&& forall|u: usize| #[trigger] visited.contains(u) ==> u < n
    &&& visited.finite()
    &&& forall|u: int, k: int|
        0 <= u < n && 0 <= k < data[u]@.len() ==> #[trigger] data[u]@[k] < n && visited.contains(data[u]@[k])
            && visited.contains(u as usize)
    &&& forall|u: int| 0 <= u < n ==> (#[trigger] data[u])@.no_duplicates()
    &&& is_symmetric(lists_view(data))
    &&& total_len(data) == 2 * (visited.len() - 1)
    &&& forall|v: usize| #[trigger] visited.contains(v) ==> reachable(lists_view(data), 0, v)
}

/// A random walk that grows a tree: the lists hold the tree, `visited` the
/// nodes reached so far and `current` the node the walk stands on.
pub struct RandomTreeWalk {
    pub data: Vec<Vec<usize>>,
    pub visited: NodeSet,
    pub current: usize,
}

impl RandomTreeWalk {
    /// The walk on `n` nodes standing on node 0, the only one reached.
    pub fn new(n: usize) -> (w: RandomTreeWalk)
        requires
            n > 0,
        ensures
            w.data@.len() == n,
            w.current == 0,
            w.visited@ == Set::<usize>::empty().insert(0),
            is_tree_on(w.data@, w.visited@),
    {
        let mut data: Vec<Vec<usize>> = Vec::new();
        let mut k: usize = 0;
        while k < n
            invariant
                k <= n,
                data@.len() == k,
                forall|u: int| 0 <= u < k ==> (#[trigger] data@[u])@ == Seq::<usize>::empty(),
            decreases n - k,
        {
            data.push(Vec::new());
            k = k + 1;
        }
        let mut visited = NodeSet::new();
        visited.insert(0);
        let w = RandomTreeWalk { data, visited, current: 0 };
        proof {
            let lv = lists_view(w.data@);
            assert forall|u: int| 0 <= u < n implies #[trigger] lv[u] == Set::<usize>::empty() by {
                assert(w.data@[u]@.to_set() =~= Set::<usize>::empty());
            }
            assert(total_len(w.data@) == 0) by {
                lemma_total_len_empty(w.data@);
            }
            assert(w.visited@.len() == 1) by {
                assert(w.visited@ =~= Set::<usize>::empty().insert(0));
            }
            assert forall|v: usize| #[trigger] w.visited@.contains(v) implies reachable(lv, 0, v) by {
                lemma_reach_self(lv, 0);
            }
        }
        w
    }

    /// The number of nodes reached so far.
    pub fn visited_count(&self) -> (c: usize)
        ensures
            c == self.visited@.len(),
    {
        self.visited.len()
    }

    /// The walk moves to `next`; the first visit of `next` joins it to the
    /// node the walk came from.
    pub fn step(&mut self, next: usize)
        requires
            next < old(self).data@.len(),
            old(self).current < old(self).data@.len(),
            old(self).visited@.contains(old(self).current),
            is_tree_on(old(self).data@, old(self).visited@),
        ensures
            final(self).current == next,
            final(self).visited@ == old(self).visited@.insert(next),
            old(self).visited@.contains(next) ==> final(self).data@ == old(self).data@,
            final(self).data@.len() == old(self).data@.len(),
            forall|u: int|
                0 <= u < old(self).data@.len() && u != old(self).current && u != next
                    ==> #[trigger] final(self).data@[u] == old(self).data@[u],
            !old(self).visited@.contains(next) ==> final(self).data@[old(self).current as int]@
                == old(self).data@[old(self).current as int]@.push(next),
            !old(self).visited@.contains(next) ==> final(self).data@[next as int]@
                == old(self).data@[next as int]@.push(old(self).current),
            is_tree_on(final(self).data@, final(self).visited@),
    {
        let n1 = self.current;
        if !self.visited.contains(next) {
            let ghost d0 = self.data@;
            let ghost v0 = self.visited@;
            proof {
                assert(next != n1);
                assert(d0[next as int]@.len() == 0) by {
                    if d0[next as int]@.len() > 0 {
                        assert(d0[next as int]@[0] < d0.len());
                        assert(v0.contains(next));
                    }
                }
            }
            self.visited.insert(next);
            self.data[n1].push(next);
            let ghost d1 = self.data@;
            self.data[next].push(n1);
            proof {
                let d2 = self.data@;
                let v2 = self.visited@;
                lemma_total_len_update(d0, n1 as int, d1[n1 as int]);
                assert(d1 == d0.update(n1 as int, d1[n1 as int]));
                lemma_total_len_update(d1, next as int, d2[next as int]);
                assert(d2 == d1.update(next as int, d2[next as int]));
                assert(d2[n1 as int]@ == d0[n1 as int]@.push(next));
                assert(d2[next as int]@ == d0[next as int]@.push(n1));
                let lv0 = lists_view(d0);
                let lv2 = lists_view(d2);
                assert forall|u: int, w: usize| 0 <= u < d0.len() && #[trigger] lv0[u].contains(w) implies lv2[u].contains(
                    w,
                ) by {
                    let k = choose|k: int| 0 <= k < d0[u]@.len() && d0[u]@[k] == w;
                    assert(d2[u]@[k] == w);
                }
                assert forall|u: int, k: int| 0 <= u < d2.len() && 0 <= k < d2[u]@.len() implies #[trigger] d2[u]@[k]
                    < d2.len() && v2.contains(d2[u]@[k]) && v2.contains(u as usize) by {
                    if u != n1 as int && u != next as int {
                        assert(d2[u] == d0[u]);
                    } else if k < d0[u]@.len() {
                        assert(d2[u]@[k] == d0[u]@[k]);
                    }
                }
                assert forall|u: int| 0 <= u < d2.len() implies (#[trigger] d2[u])@.no_duplicates() by {
                    if u == n1 as int {
                        assert forall|k: int| 0 <= k < d0[u]@.len() implies d0[u]@[k] != next by {
                            assert(v0.contains(d0[u]@[k]));
                        }
                    } else if u != next as int {
                        assert(d2[u] == d0[u]);
                    }
                }
                assert forall|u: int, w: usize| 0 <= u < lv2.len() && #[trigger] lv2[u].contains(w) implies w
                    < lv2.len() && lv2[w as int].contains(u as usize) by {
                    let k = choose|k: int| 0 <= k < d2[u]@.len() && d2[u]@[k] == w;
                    if (u == n1 as int && w == next) || (u == next as int && w == n1) {
                        assert(d2[w as int]@.last() == u as usize);
                    } else {
                        assert(k < d0[u]@.len() && d0[u]@[k] == w) by {
                            if u != n1 as int && u != next as int {
                                assert(d2[u] == d0[u]);
                            }
                        }
                        assert(lv0[u].contains(w));
                        assert(lv0[w as int].contains(u as usize));
                    }
                }
                assert forall|v: usize| #[trigger] v2.contains(v) implies reachable(lv2, 0, v) by {
                    if v == next {
                        lemma_reach_mono(lv0, lv2, 0, n1);
                        assert(lv2[n1 as int].contains(next)) by {
                            assert(d2[n1 as int]@.last() == next);
                        }
                        lemma_reach_step(lv2, 0, n1, next);
                    } else {
                        lemma_reach_mono(lv0, lv2, 0, v);
                    }
                }
            }
        } else {
            assert(self.visited@.insert(next) =~= self.visited@);
        }
        self.current = next;
    }

    /// The tree grown so far, as a graph.
    pub fn into_graph(self) -> (g: Graph)
        ensures
            g@ == lists_view(self.data@),
    {
        let g = Graph::new(self.data);
        assert(g@ =~= lists_view(self.data@));
        g
    }
}

proof fn lemma_total_len_empty(data: Seq<Vec<usize>>)
    requires
        forall|u: int| 0 <= u < data.len() ==> (#[trigger] data[u])@ == Seq::<usize>::empty(),
    ensures
        total_len(data) == 0,
    decreases data.len(),
{
    if data.len() > 0 {
        lemma_total_len_empty(data.drop_last());
    }
}

} // verus!
