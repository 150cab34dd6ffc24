//! The node-separator partitioner's settings, and the decisions that the
//! separator recursions take between two calls of the partitioner: which of
//! the components left by a separator are cut again, and in which order.
use crate::components::is_last_largest;
use crate::graph::Graph;
use std::collections::VecDeque;
use vstd::prelude::*;

verus! {

/// The preset with which the partitioner computes a node separator.
#[derive(Debug, Copy, Clone, PartialEq, Eq, Structural)]
pub enum Mode {
    Fast,
    Eco,
    Strong,
    FastSocial,
    EcoSocial,
    StrongSocial,
}

impl Mode {
    /// The number by which the partitioner knows the preset.
    pub fn code(&self) -> (c: i32)
        ensures
            c == match *self {
                Mode::Fast => 0i32,
                Mode::Eco => 1i32,
                Mode::Strong => 2i32,
                Mode::FastSocial => 3i32,
                Mode::EcoSocial => 4i32,
                Mode::StrongSocial => 5i32,
            },
    {
        match self {
            Mode::Fast => 0,
            Mode::Eco => 1,
            Mode::Strong => 2,
            Mode::FastSocial => 3,
            Mode::EcoSocial => 4,
            Mode::StrongSocial => 5,
        }
    }
}

/// The adjacency views of a list of graphs.
pub open spec fn views(gs: Seq<Graph>) -> Seq<Seq<Set<usize>>> {
    gs.map_values(|h: Graph| h@)
}

/// The graphs of `hs`, in order, that have more than `min_nodes` nodes.
pub open spec fn keep_larger(hs: Seq<Seq<Set<usize>>>, min_nodes: nat) -> Seq<Seq<Set<usize>>>
    decreases hs.len(),
{
    if hs.len() == 0 {
        Seq::empty()
    } else {
        let rest = keep_larger(hs.drop_last(), min_nodes);
        if hs.last().len() > min_nodes {
            rest.push(hs.last())
        } else {
            rest
        }
    }
}

/// The order in which repeated `swap_remove(0)` takes the entries of `s`
/// out: the first, then the others from the last back to the second.
pub open spec fn front_swap_order<A>(s: Seq<A>) -> Seq<A> {
    if s.len() == 0 {
        Seq::empty()
    } else {
        seq![s[0]] + s.subrange(1, s.len() as int).reverse()
    }
}

/// The components that a separator step cuts again: those with more than
/// `min_nodes` nodes, in their order.
pub fn large_subgraphs(subgraphs: Vec<Graph>, min_nodes: usize) -> (r: Vec<Graph>)
    ensures
        views(r@) == keep_larger(views(subgraphs@), min_nodes as nat),
{
    let ghost all = views(subgraphs@);
    let mut r: Vec<Graph> = Vec::new();
    for h in it: subgraphs.into_iter()
        invariant
            it.seq() == subgraphs@,
            all == views(subgraphs@),
            views(r@) == keep_larger(all.take(it.index() as int), min_nodes as nat),
    {
        proof {
            let k = it.index();
            assert(h == subgraphs@[k as int]);
            let pre = all.take(k + 1);
            assert(pre.drop_last() =~= all.take(k as int));
            assert(pre.last() == h@);
        }
        if h.get_num_nodes() > min_nodes {
            r.push(h);
            proof {
                assert(views(r@) =~= views(r@.drop_last()).push(r@.last()@));
            }
        }
    }
    proof {
        assert(all.take(all.len() as int) =~= all);
    }
    r
}

/// The position of the first component with more than `min_nodes` nodes:
/// the one that the depth-first separator recursion descends into.
pub fn first_large_subgraph(subgraphs: &Vec<Graph>, min_nodes: usize) -> (r: Option<usize>)
    ensures
        r is None <==> forall|i: int| 0 <= i < subgraphs@.len() ==> (#[trigger] subgraphs@[i]@).len() <= min_nodes,
        r matches Some(i) ==> i < subgraphs@.len() && subgraphs@[i as int]@.len() > min_nodes && forall|j: int|
            0 <= j < i ==> (#[trigger] subgraphs@[j]@).len() <= min_nodes,
{
    let mut i: usize = 0;
    while i < subgraphs.len()
        invariant
            i <= subgraphs@.len(),
            forall|j: int| 0 <= j < i ==> (#[trigger] subgraphs@[j]@).len() <= min_nodes,
        decreases subgraphs.len() - i,
    {
        if subgraphs[i].get_num_nodes() > min_nodes {
            return Some(i);
        }
        i = i + 1;
    }
    None
}

/// The graph with the most nodes, the last such in the list.
pub fn last_largest(subgraphs: Vec<Graph>) -> (r: Graph)
    requires
        subgraphs@.len() > 0,
    ensures
        is_last_largest(views(subgraphs@), r@),
{
    let ghost hs = views(subgraphs@);
    let mut subgraphs = subgraphs;
    let mut best: usize = 0;
    let mut k: usize = 1;
    while k < subgraphs.len()
        invariant
            views(subgraphs@) == hs,
            subgraphs@.len() > 0,
            1 <= k <= subgraphs@.len(),
            best < k,
            forall|j: int| 0 <= j < k ==> (#[trigger] hs[j]).len() <= hs[best as int].len(),
            forall|j: int| best < j < k ==> (#[trigger] hs[j]).len() < hs[best as int].len(),
        decreases subgraphs.len() - k,
    {
        proof {
            assert(hs[k as int] == subgraphs@[k as int]@);
            assert(hs[best as int] == subgraphs@[best as int]@);
        }
        if subgraphs[k].get_num_nodes() >= subgraphs[best].get_num_nodes() {
            best = k;
        }
        k = k + 1;
    }
    let r = subgraphs.swap_remove(best);
    proof {
        assert(hs[best as int] == r@);
    }
    r
}

/// The breadth-first separator recursion between two partitioner calls:
/// the graphs still to cut, and how many more cuts may be made.
pub struct SeparatorQueue {
    pub queue: VecDeque<Graph>,
    pub remaining: usize,
}

impl SeparatorQueue {
    /// A queue holding `g` alone, allowed `budget` cuts.
    pub fn new(g: Graph, budget: usize) -> (q: SeparatorQueue)
        ensures
            views(q.queue@) == seq![g@],
            q.remaining == budget,
    {
        let mut queue = VecDeque::new();
        queue.push_back(g);
        proof {
            assert(views(queue@) =~= seq![g@]);
        }
        SeparatorQueue { queue, remaining: budget }
    }

    /// The next graph to cut, taken from the front; `None` once the queue is
    /// empty or the budget spent. Each graph handed out spends one cut.
    pub fn next_graph(&mut self) -> (r: Option<Graph>)
        ensures
            old(self).queue@.len() == 0 || old(self).remaining == 0 ==> r is None && *final(self) == *old(self),
            old(self).queue@.len() > 0 && old(self).remaining > 0 ==> {
                &&& r matches Some(g) && g == old(self).queue@[0]
                &&& final(self).queue@ == old(self).queue@.drop_first()
                &&& final(self).remaining == old(self).remaining - 1
            },
    {
        if self.queue.len() == 0 || self.remaining == 0 {
            return None;
        }
        self.remaining = self.remaining - 1;
        self.queue.pop_front()
    }

    /// Queues, behind the graphs already waiting, the components of the last
    /// cut that have more than `min_nodes` nodes, taken from the list as
    /// repeated `swap_remove(0)` takes them: the first, then the others from
    /// the last back.
    pub fn push_subgraphs(&mut self, subgraphs: Vec<Graph>, min_nodes: usize)
        ensures
            views(final(self).queue@) == views(old(self).queue@) + keep_larger(
                views(front_swap_order(subgraphs@)),
                min_nodes as nat,
            ),
            final(self).remaining == old(self).remaining,
    {
        let mut subgraphs = subgraphs;
        let ghost order = front_swap_order(subgraphs@);
        let ghost q0 = views(self.queue@);
        let n = subgraphs.len();
        proof {
            assert(order.subrange(0, n as int) =~= order);
        }
        let mut i: usize = 0;
        while i < n
            invariant
                n == order.len(),
                i <= n,
                subgraphs@.len() == n - i,
                front_swap_order(subgraphs@) == order.subrange(i as int, n as int),
                views(self.queue@) == q0 + keep_larger(views(order.subrange(0, i as int)), min_nodes as nat),
                self.remaining == old(self).remaining,
            decreases n - i,
        {
            let ghost before = subgraphs@;
            proof {
                assert(before.len() == n - i);
            }
            let sub = subgraphs.swap_remove(0);
            proof {
                lemma_front_swap_step(before);
                assert(sub == order[i as int]);
                assert(subgraphs@ =~= if before.len() <= 1 { Seq::<Graph>::empty() } else {
                    seq![before.last()] + before.subrange(1, before.len() - 1)
                });
                let pre = views(order.subrange(0, i as int + 1));
                assert(pre.drop_last() =~= views(order.subrange(0, i as int)));
                assert(pre.last() == sub@);
                assert(order.subrange(i as int + 1, n as int) =~= order.subrange(i as int, n as int).drop_first());
            }
            if sub.get_num_nodes() > min_nodes {
                let ghost qb = views(self.queue@);
                self.queue.push_back(sub);
                proof {
                    assert(views(self.queue@) =~= qb.push(sub@));
                }
            }
            i = i + 1;
        }
        proof {
            assert(order.subrange(0, n as int) =~= order);
        }
    }
}

/// Taking the first entry out with `swap_remove(0)` leaves the rest of the
/// order: the list with its last entry moved to the front.
proof fn lemma_front_swap_step<A>(s: Seq<A>)
    requires
        s.len() > 0,
    ensures
        front_swap_order(s)[0] == s[0],
        front_swap_order(s).drop_first() == front_swap_order(
            if s.len() <= 1 { Seq::<A>::empty() } else { seq![s.last()] + s.subrange(1, s.len() - 1) },
        ),
{
    let o = front_swap_order(s);
    if s.len() <= 1 {
        assert(o.drop_first() =~= Seq::<A>::empty());
    } else {
        let t = seq![s.last()] + s.subrange(1, s.len() - 1);
        assert(t[0] == s.last());
        assert(t.subrange(1, t.len() as int) =~= s.subrange(1, s.len() - 1));
        assert(s.subrange(1, s.len() as int).reverse() =~= seq![s.last()] + s.subrange(1, s.len() - 1).reverse());
        assert(o.drop_first() =~= front_swap_order(t));
    }
}

} // verus!
