//! Hash-based collections of node ids.
//!
//! The graphs of this crate keep their adjacency in `hashbrown` hash sets and
//! maps. Each collection is held in a private field of a struct of its own; what
//! it holds is named by a spec function, and every method below states, over
//! that name, what the `hashbrown` method it calls does to the contents.
use rand::seq::IteratorRandom;
use vstd::prelude::*;

verus! {

/// A list of node ids.
pub type NodeList = Vec<usize>;

/// A set of node ids, backed by `hashbrown::HashSet<usize>`.
#[verifier::external_body]
pub struct NodeSet {
    set: hashbrown::HashSet<usize>,
}

/// The node ids that a [`NodeSet`] holds.
pub uninterp spec fn node_set_contents(s: NodeSet) -> Set<usize>;

impl View for NodeSet {
    type V = Set<usize>;

    open spec fn view(&self) -> Set<usize> {
        node_set_contents(*self)
    }
}

impl NodeSet {
    /// `hashbrown::HashSet::new`: an empty set.
    #[verifier::external_body]
    pub fn new() -> (r: NodeSet)
        ensures
            node_set_contents(r) == Set::<usize>::empty(),
    {
        NodeSet { set: hashbrown::HashSet::new() }
    }

    /// `hashbrown::HashSet::insert`: adds `x`; tells whether it was absent.
    #[verifier::external_body]
    pub fn insert(&mut self, x: usize) -> (added: bool)
        ensures
            node_set_contents(*final(self)) == node_set_contents(*old(self)).insert(x),
            added == !node_set_contents(*old(self)).contains(x),
    {
        self.set.insert(x)
    }

    /// `hashbrown::HashSet::remove`: removes `x`; tells whether it was present.
    #[verifier::external_body]
    pub fn remove(&mut self, x: usize) -> (removed: bool)
        ensures
            node_set_contents(*final(self)) == node_set_contents(*old(self)).remove(x),
            removed == node_set_contents(*old(self)).contains(x),
    {
        self.set.remove(&x)
    }

    /// `hashbrown::HashSet::contains`.
    #[verifier::external_body]
    pub fn contains(&self, x: usize) -> (r: bool)
        ensures
            r == node_set_contents(*self).contains(x),
    {
        self.set.contains(&x)
    }

    /// `hashbrown::HashSet::len`: the number of ids held, zero exactly when
    /// the set is empty.
    #[verifier::external_body]
    pub fn len(&self) -> (r: usize)
        ensures
            r == node_set_contents(*self).len(),
            r == 0 <==> node_set_contents(*self) == Set::<usize>::empty(),
    {
        self.set.len()
    }

    /// `hashbrown::HashSet::clear`: removes every id.
    #[verifier::external_body]
    pub fn clear(&mut self)
        ensures
            node_set_contents(*final(self)) == Set::<usize>::empty(),
    {
        self.set.clear()
    }

    /// `hashbrown::HashSet::extend` with the ids of `other`: the union.
    #[verifier::external_body]
    pub fn extend(&mut self, other: &NodeSet)
        ensures
            node_set_contents(*final(self)) == node_set_contents(*old(self)).union(node_set_contents(*other)),
    {
        self.set.extend(other.set.iter().copied())
    }

    /// The ids of the set, each once, in the order in which
    /// `hashbrown::HashSet::iter` walks them. That order depends on the
    /// hasher's random seed and is not stated.
    #[verifier::external_body]
    pub fn to_vec(&self) -> (r: Vec<usize>)
        ensures
            r@.no_duplicates(),
            r@.to_set() == node_set_contents(*self),
    {
        self.set.iter().copied().collect()
    }

    /// `hashbrown::HashSet::clone`: a set with the same ids.
    #[verifier::external_body]
    pub fn duplicate(&self) -> (r: NodeSet)
        ensures
            node_set_contents(r) == node_set_contents(*self),
    {
        NodeSet { set: self.set.clone() }
    }

    /// `rand::seq::IteratorRandom::choose` on the set's iterator: `None` for an
    /// empty set, else an id of the set. Which id comes back rests on chance.
    #[verifier::external_body]
    pub fn choose_random(&self) -> (r: Option<usize>)
        ensures
            r is None ==> node_set_contents(*self) == Set::<usize>::empty(),
            r matches Some(x) ==> node_set_contents(*self).contains(x),
    {
        self.set.iter().choose(&mut rand::thread_rng()).copied()
    }
}

/// A map from node ids to node ids, backed by `hashbrown::HashMap<usize, usize>`.
#[verifier::external_body]
pub struct UsizeMap {
    map: hashbrown::HashMap<usize, usize>,
}

/// The entries that a [`UsizeMap`] holds.
pub uninterp spec fn usize_map_contents(m: UsizeMap) -> Map<usize, usize>;

impl View for UsizeMap {
    type V = Map<usize, usize>;

    open spec fn view(&self) -> Map<usize, usize> {
        usize_map_contents(*self)
    }
}

impl UsizeMap {
    /// `hashbrown::HashMap::new`: an empty map.
    #[verifier::external_body]
    pub fn new() -> (r: UsizeMap)
        ensures
            usize_map_contents(r).dom() == Set::<usize>::empty(),
    {
        UsizeMap { map: hashbrown::HashMap::new() }
    }

    /// `hashbrown::HashMap::insert`: sets `k` to `v`; returns the old value.
    #[verifier::external_body]
    pub fn insert(&mut self, k: usize, v: usize) -> (prev: Option<usize>)
        ensures
            usize_map_contents(*final(self)) == usize_map_contents(*old(self)).insert(k, v),
            prev == (if usize_map_contents(*old(self)).dom().contains(k) { Some(usize_map_contents(*old(self))[k]) } else { None }),
    {
        self.map.insert(k, v)
    }

    /// `hashbrown::HashMap::get`, copied out.
    #[verifier::external_body]
    pub fn get(&self, k: usize) -> (r: Option<usize>)
        ensures
            r == (if usize_map_contents(*self).dom().contains(k) { Some(usize_map_contents(*self)[k]) } else { None }),
    {
        self.map.get(&k).copied()
    }

    /// `hashbrown::HashMap::contains_key`.
    #[verifier::external_body]
    pub fn contains_key(&self, k: usize) -> (r: bool)
        ensures
            r == usize_map_contents(*self).dom().contains(k),
    {
        self.map.contains_key(&k)
    }

    /// `hashbrown::HashMap::remove`: removes `k`; returns its value.
    #[verifier::external_body]
    pub fn remove(&mut self, k: usize) -> (prev: Option<usize>)
        ensures
            usize_map_contents(*final(self)) == usize_map_contents(*old(self)).remove(k),
            prev == (if usize_map_contents(*old(self)).dom().contains(k) { Some(usize_map_contents(*old(self))[k]) } else { None }),
    {
        self.map.remove(&k)
    }

    /// `hashbrown::HashMap::len`: the number of keys.
    #[verifier::external_body]
    pub fn len(&self) -> (r: usize)
        ensures
            r == usize_map_contents(*self).dom().len(),
    {
        self.map.len()
    }

    /// The entries of the map, each key once, in the order in which
    /// `hashbrown::HashMap::iter` walks them (not stated: it rests on the
    /// hasher's random seed).
    #[verifier::external_body]
    pub fn to_vec(&self) -> (r: Vec<(usize, usize)>)
        ensures
            r@.map_values(|e: (usize, usize)| e.0).no_duplicates(),
            r@.map_values(|e: (usize, usize)| e.0).to_set() == usize_map_contents(*self).dom(),
            forall|i: int| 0 <= i < r@.len() ==> #[trigger] usize_map_contents(*self)[r@[i].0] == r@[i].1,
    {
        self.map.iter().map(|(k, v)| (*k, *v)).collect()
    }
}

/// A map from node ids to lists of node ids, backed by
/// `hashbrown::HashMap<usize, Vec<usize>>`.
#[verifier::external_body]
pub struct AdjMap {
    map: hashbrown::HashMap<usize, Vec<usize>>,
}

/// The entries that an [`AdjMap`] holds.
pub uninterp spec fn adj_map_contents(m: AdjMap) -> Map<usize, Seq<usize>>;

impl View for AdjMap {
    type V = Map<usize, Seq<usize>>;

    open spec fn view(&self) -> Map<usize, Seq<usize>> {
        adj_map_contents(*self)
    }
}

impl AdjMap {
    /// `hashbrown::HashMap::new`: an empty map.
    #[verifier::external_body]
    pub fn new() -> (r: AdjMap)
        ensures
            adj_map_contents(r).dom() == Set::<usize>::empty(),
    {
        AdjMap { map: hashbrown::HashMap::new() }
    }

    /// `hashbrown::HashMap::insert`: sets `k` to the list `v`.
    #[verifier::external_body]
    pub fn insert(&mut self, k: usize, v: Vec<usize>)
        ensures
            adj_map_contents(*final(self)) == adj_map_contents(*old(self)).insert(k, v@),
    {
        self.map.insert(k, v);
    }

    /// `hashbrown::HashMap::remove`: takes the list of `k` out of the map.
    #[verifier::external_body]
    pub fn remove(&mut self, k: usize) -> (prev: Option<NodeList>)
        ensures
            adj_map_contents(*final(self)) == adj_map_contents(*old(self)).remove(k),
            prev is Some <==> adj_map_contents(*old(self)).dom().contains(k),
            prev matches Some(v) ==> v@ == adj_map_contents(*old(self))[k],
    {
        self.map.remove(&k)
    }

    /// `hashbrown::HashMap::contains_key`.
    #[verifier::external_body]
    pub fn contains_key(&self, k: usize) -> (r: bool)
        ensures
            r == adj_map_contents(*self).dom().contains(k),
    {
        self.map.contains_key(&k)
    }

    /// `hashbrown::HashMap::len`: the number of keys.
    #[verifier::external_body]
    pub fn len(&self) -> (r: usize)
        ensures
            r == adj_map_contents(*self).dom().len(),
    {
        self.map.len()
    }

    /// The keys of the map, each once, in the order in which
    /// `hashbrown::HashMap::keys` walks them (not stated: it rests on the
    /// hasher's random seed).
    #[verifier::external_body]
    pub fn keys(&self) -> (r: Vec<usize>)
        ensures
            r@.no_duplicates(),
            r@.to_set() == adj_map_contents(*self).dom(),
    {
        self.map.keys().copied().collect()
    }

    /// `hashbrown::HashMap::get`, cloned out.
    #[verifier::external_body]
    pub fn get(&self, k: usize) -> (r: Option<NodeList>)
        ensures
            r is Some <==> adj_map_contents(*self).dom().contains(k),
            r matches Some(v) ==> v@ == adj_map_contents(*self)[k],
    {
        self.map.get(&k).cloned()
    }
}

/// A set of map-element ids, backed by `hashbrown::HashSet<i64>`.
#[verifier::external_body]
pub struct IdSet {
    set: hashbrown::HashSet<i64>,
}

/// The ids that an [`IdSet`] holds.
pub uninterp spec fn id_set_contents(s: IdSet) -> Set<i64>;

impl View for IdSet {
    type V = Set<i64>;

    open spec fn view(&self) -> Set<i64> {
        id_set_contents(*self)
    }
}

impl IdSet {
    /// `hashbrown::HashSet::new`: an empty set.
    #[verifier::external_body]
    pub fn new() -> (r: IdSet)
        ensures
            id_set_contents(r) == Set::<i64>::empty(),
    {
        IdSet { set: hashbrown::HashSet::new() }
    }

    /// `hashbrown::HashSet::insert`: adds `x`.
    #[verifier::external_body]
    pub fn insert(&mut self, x: i64)
        ensures
            id_set_contents(*final(self)) == id_set_contents(*old(self)).insert(x),
    {
        self.set.insert(x);
    }

    /// `hashbrown::HashSet::contains`.
    #[verifier::external_body]
    pub fn contains(&self, x: i64) -> (r: bool)
        ensures
            r == id_set_contents(*self).contains(x),
    {
        self.set.contains(&x)
    }

    /// The ids of the set, each once, in the order in which
    /// `hashbrown::HashSet::iter` walks them (not stated: it rests on the
    /// hasher's random seed).
    #[verifier::external_body]
    pub fn to_vec(&self) -> (r: Vec<i64>)
        ensures
            r@.no_duplicates(),
            r@.to_set() == id_set_contents(*self),
    {
        self.set.iter().copied().collect()
    }
}

/// A map from map-element ids to node ids, backed by
/// `hashbrown::HashMap<i64, usize>`.
#[verifier::external_body]
pub struct IdMap {
    map: hashbrown::HashMap<i64, usize>,
}

/// The entries that an [`IdMap`] holds.
pub uninterp spec fn id_map_contents(m: IdMap) -> Map<i64, usize>;

impl View for IdMap {
    type V = Map<i64, usize>;

    open spec fn view(&self) -> Map<i64, usize> {
        id_map_contents(*self)
    }
}

impl IdMap {
    /// `hashbrown::HashMap::new`: an empty map.
    #[verifier::external_body]
    pub fn new() -> (r: IdMap)
        ensures
            id_map_contents(r).dom() == Set::<i64>::empty(),
    {
        IdMap { map: hashbrown::HashMap::new() }
    }

    /// `hashbrown::HashMap::insert`: sets `k` to `v`.
    #[verifier::external_body]
    pub fn insert(&mut self, k: i64, v: usize)
        ensures
            id_map_contents(*final(self)) == id_map_contents(*old(self)).insert(k, v),
    {
        self.map.insert(k, v);
    }

    /// `hashbrown::HashMap::get`, copied out.
    #[verifier::external_body]
    pub fn get(&self, k: i64) -> (r: Option<usize>)
        ensures
            r == (if id_map_contents(*self).dom().contains(k) { Some(id_map_contents(*self)[k]) } else { None }),
    {
        self.map.get(&k).copied()
    }
}

/// A map from grid points to node ids, backed by
/// `hashbrown::HashMap<(usize, usize), usize>`.
#[verifier::external_body]
pub struct PointMap {
    map: hashbrown::HashMap<(usize, usize), usize>,
}

/// The entries that a [`PointMap`] holds.
pub uninterp spec fn point_map_contents(m: PointMap) -> Map<(usize, usize), usize>;

impl View for PointMap {
    type V = Map<(usize, usize), usize>;

    open spec fn view(&self) -> Map<(usize, usize), usize> {
        point_map_contents(*self)
    }
}

impl PointMap {
    /// `hashbrown::HashMap::new`: an empty map.
    #[verifier::external_body]
    pub fn new() -> (r: PointMap)
        ensures
            point_map_contents(r).dom() == Set::<(usize, usize)>::empty(),
    {
        PointMap { map: hashbrown::HashMap::new() }
    }

    /// `hashbrown::HashMap::insert`: sets `k` to `v`.
    #[verifier::external_body]
    pub fn insert(&mut self, k: (usize, usize), v: usize)
        ensures
            point_map_contents(*final(self)) == point_map_contents(*old(self)).insert(k, v),
    {
        self.map.insert(k, v);
    }

    /// `hashbrown::HashMap::get`, copied out.
    #[verifier::external_body]
    pub fn get(&self, k: (usize, usize)) -> (r: Option<usize>)
        ensures
            r == (if point_map_contents(*self).dom().contains(k) { Some(point_map_contents(*self)[k]) } else { None }),
    {
        self.map.get(&k).copied()
    }
}

} // verus!
