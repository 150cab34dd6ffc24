//! A set of node ids with insertion, removal and a uniform random draw, each
//! in constant time.
use crate::collections::{NodeSet, UsizeMap};
use crate::random::choose_from;
use vstd::prelude::*;

verus! {

/// The ids sit in a list for the random draw; a map gives each id's index in
/// the list for removal.
pub struct RandomSet {
    vec: Vec<usize>,
    map: UsizeMap,
}

impl View for RandomSet {
    type V = Set<usize>;

    closed spec fn view(&self) -> Set<usize> {
        self.vec@.to_set()
    }
}

impl RandomSet {
    /// The list holds each id once, and the map sends each listed id to its
    /// index and nothing else.
    pub closed spec fn wf(&self) -> bool {
        &&& self.vec@.no_duplicates()
        &&& self.map@.dom() == self.vec@.to_set()
        &&& forall|i: int| 0 <= i < self.vec@.len() ==> #[trigger] self.map@[self.vec@[i]] == i
    }

    /// An empty set.
    pub fn new() -> (r: RandomSet)
        ensures
            r.wf(),
            r@ == Set::<usize>::empty(),
    {
        let r = RandomSet { vec: Vec::new(), map: UsizeMap::new() };
        assert(r.vec@.to_set() =~= Set::<usize>::empty());
        assert(r.map@.dom() =~= Set::<usize>::empty());
        r
    }

    /// A set with the ids of `set`.
    pub fn from_set(set: &NodeSet) -> (r: RandomSet)
        ensures
            r.wf(),
            r@ == set@,
    {
        let vec = set.to_vec();
        let mut map = UsizeMap::new();
        let mut i: usize = 0;
        while i < vec.len()
            invariant
                i <= vec@.len(),
                vec@.no_duplicates(),
                map@.dom() == vec@.subrange(0, i as int).to_set(),
                forall|k: int| 0 <= k < i ==> #[trigger] map@[vec@[k]] == k,
            decreases vec@.len() - i,
        {
            let ghost m0 = map@;
            map.insert(vec[i], i);
            proof {
                assert(vec@.subrange(0, i as int + 1) =~= vec@.subrange(0, i as int).push(vec@[i as int]));
                Seq::<usize>::lemma_to_set_insert_commutes(vec@.subrange(0, i as int), vec@[i as int]);
                assert(vec@.subrange(0, i as int).push(vec@[i as int]) =~= vec@.subrange(0, i as int) + seq![
                    vec@[i as int],
                ]);
                assert forall|k: int| 0 <= k < i + 1 implies #[trigger] map@[vec@[k]] == k by {
                    if k < i {
                        assert(vec@[k] != vec@[i as int]);
                    }
                }
            }
            i = i + 1;
        }
        assert(vec@.subrange(0, vec@.len() as int) =~= vec@);
        RandomSet { vec, map }
    }

    /// The ids as a `NodeSet`.
    pub fn to_set(&self) -> (r: NodeSet)
        ensures
            r@ == self@,
    {
        let mut r = NodeSet::new();
        let mut i: usize = 0;
        while i < self.vec.len()
            invariant
                i <= self.vec@.len(),
                r@ == self.vec@.subrange(0, i as int).to_set(),
            decreases self.vec@.len() - i,
        {
            r.insert(self.vec[i]);
            proof {
                assert(self.vec@.subrange(0, i as int + 1) =~= self.vec@.subrange(0, i as int) + seq![
                    self.vec@[i as int],
                ]);
                Seq::<usize>::lemma_to_set_insert_commutes(self.vec@.subrange(0, i as int), self.vec@[i as int]);
            }
            i = i + 1;
        }
        assert(self.vec@.subrange(0, self.vec@.len() as int) =~= self.vec@);
        r
    }

    /// Adds `x`.
    pub fn insert(&mut self, x: usize)
        requires
            old(self).wf(),
        ensures
            final(self).wf(),
            final(self)@ == old(self)@.insert(x),
    {
        if !self.map.contains_key(x) {
            let index = self.vec.len();
            let ghost v0 = self.vec@;
            self.vec.push(x);
            self.map.insert(x, index);
            proof {
                Seq::<usize>::lemma_to_set_insert_commutes(v0, x);
                assert(self.vec@ == v0 + seq![x]);
                assert forall|i: int| 0 <= i < self.vec@.len() implies #[trigger] self.map@[self.vec@[i]] == i by {
                    if i < v0.len() {
                        assert(v0.to_set().contains(v0[i]));
                    }
                }
                assert forall|i: int, j: int| 0 <= i < j < self.vec@.len() implies self.vec@[i] != self.vec@[j] by {
                    if j == v0.len() {
                        assert(v0.to_set().contains(v0[i]));
                    }
                }
            }
        } else {
            assert(old(self)@.insert(x) =~= old(self)@);
        }
    }

    /// Removes `x`; the last id of the list takes its place.
    pub fn remove(&mut self, x: &usize)
        requires
            old(self).wf(),
        ensures
            final(self).wf(),
            final(self)@ == old(self)@.remove(*x),
    {
        let x = *x;
        match self.map.get(x) {
            Some(i) => {
                let ghost v0 = self.vec@;
                let ghost m0 = self.map@;
                proof {
                    assert(v0.to_set().contains(x));
                    let k = choose|k: int| 0 <= k < v0.len() && v0[k] == x;
                    assert(m0[v0[k]] == k);
                    assert(i == k);
                }
                let last = self.vec.len() - 1;
                if i != last {
                    let last_elem = self.vec[last];
                    self.vec.set(i, last_elem);
                    self.map.insert(last_elem, i);
                }
                self.vec.pop();
                self.map.remove(x);
                proof {
                    let v1 = self.vec@;
                    assert forall|j: int| 0 <= j < v1.len() implies #[trigger] v1[j] != x && (v1[j] == v0[j] || (j == i
                        && v1[j] == v0[last as int])) by {}
                    assert forall|y: usize| v1.to_set().contains(y) <==> v0.to_set().remove(x).contains(y) by {
                        if v0.to_set().remove(x).contains(y) {
                            let t = choose|t: int| 0 <= t < v0.len() && v0[t] == y;
                            if t == last as int {
                                assert(v1[i as int] == y);
                            } else {
                                assert(t != i);
                                assert(v1[t] == y);
                            }
                        }
                        if v1.to_set().contains(y) {
                            let t = choose|t: int| 0 <= t < v1.len() && v1[t] == y;
                        }
                    }
                    assert(v1.to_set() =~= v0.to_set().remove(x));
                    assert forall|a: int, b: int| 0 <= a < b < v1.len() implies v1[a] != v1[b] by {
                        if a == i as int {
                            assert(v0[last as int] != v0[b]);
                        } else if b == i as int {
                            assert(v0[a] != v0[last as int]);
                        } else {
                            assert(v0[a] != v0[b]);
                        }
                    }
                    assert(self.map@.dom() =~= v1.to_set());
                    assert forall|j: int| 0 <= j < v1.len() implies #[trigger] self.map@[v1[j]] == j by {
                        if j != i as int {
                            assert(v0[j] != v0[last as int]);
                        }
                    }
                }
            },
            None => {
                assert(old(self)@.remove(x) =~= old(self)@);
            },
        }
    }

    /// The set is finite, and holds at most `n` ids when each lies below `n`.
    pub proof fn lemma_len_below(&self, n: usize)
        requires
            self.wf(),
            forall|x: usize| self@.contains(x) ==> x < n,
        ensures
            self@.finite(),
            self@.len() <= n,
    {
        self.vec@.unique_seq_to_set();
        assert forall|k: int| 0 <= k < self.vec@.len() implies #[trigger] self.vec@[k] < n by {
            assert(self@.contains(self.vec@[k]));
        }
        crate::graph::lemma_distinct_below(self.vec@, n);
    }

    /// One of the ids, drawn at random; `None` for an empty set.
    pub fn choose_random(&self) -> (r: Option<usize>)
        ensures
            r is None <==> self@ == Set::<usize>::empty(),
            r matches Some(x) ==> self@.contains(x),
    {
        let r = choose_from(&self.vec);
        proof {
            if self.vec@.len() > 0 {
                assert(self@.contains(self.vec@[0]));
            } else {
                assert(self@ =~= Set::<usize>::empty());
            }
        }
        r
    }

    /// The number of ids.
    pub fn len(&self) -> (r: usize)
        requires
            self.wf(),
        ensures
            r == self@.len(),
    {
        proof {
            self.vec@.unique_seq_to_set();
        }
        self.vec.len()
    }
}

} // verus!
