//! Graphs from the adjacency arrays `first_out` and `head` that graph files
//! hold: the neighbours of node `i` are `head[first_out[i]..first_out[i + 1]]`.
use crate::collections::NodeSet;
use crate::graph::{degree_sum, in_range, is_adjacency_array, lemma_degree_sum_prefix, lemma_take_one_more, Graph};
use crate::library::{encoded_i32s, lemma_i32s_round_trip, u32_at, u32_of};
use vstd::prelude::*;

verus! {

/// The ids of `head` from `start` up to `end`, as a set.
fn slice_set(head: &Vec<usize>, start: usize, end: usize) -> (s: NodeSet)
    requires
        start <= end <= head@.len(),
    ensures
        s@ == head@.subrange(start as int, end as int).to_set(),
{
    let mut s = NodeSet::new();
    let mut j = start;
    while j < end
        invariant
            start <= j <= end <= head@.len(),
            s@ == head@.subrange(start as int, j as int).to_set(),
        decreases end - j,
    {
        s.insert(head[j]);
        proof {
            let r = head@.subrange(start as int, j as int + 1);
            lemma_take_one_more(r, j - start);
            assert(r.take(j - start) =~= head@.subrange(start as int, j as int));
            assert(r.take(j - start + 1) =~= r);
        }
        j = j + 1;
    }
    s
}

/// The end of the neighbours of node `i`: the start of those of node
/// `i + 1`, or the end of `head` for the last node.
pub open spec fn slice_end(first_out: Seq<usize>, head_len: nat, i: int) -> int {
    if i + 1 < first_out.len() {
        first_out[i + 1] as int
    } else {
        head_len as int
    }
}

/// The graph that the adjacency arrays `first_out` and `head` describe:
/// node `i` (for each entry of `first_out` but the last) has the neighbours
/// `head[first_out[i]..end]`, `end` the start of node `i + 1` (the end of
/// `head` for the last node).
pub open spec fn arrays_graph(first_out: Seq<usize>, head: Seq<usize>) -> Seq<Set<usize>> {
    Seq::new(
        (first_out.len() - 1) as nat,
        |i: int|
            head.subrange(first_out[i] as int, slice_end(first_out.drop_last(), head.len(), i)).to_set(),
    )
}

/// The graph whose node `i` has the neighbours `head[first_out[i]..end]`,
/// `end` the start of node `i + 1` (the end of `head` for the last node);
/// the arrays as read from a graph file, whose `first_out` ends with an
/// entry for one node past the last, which is dropped.
pub fn from_adjacency_arrays(first_out: Vec<usize>, head: Vec<usize>) -> (g: Graph)
    requires
        first_out@.len() >= 1,
        forall|i: int|
            0 <= i < first_out@.len() - 1 ==> #[trigger] first_out@[i] <= slice_end(
                first_out@.drop_last(),
                head@.len(),
                i,
            ) <= head@.len(),
    ensures
        g@ == arrays_graph(first_out@, head@),
{
    let mut xadj = first_out;
    xadj.pop();
    let ghost x = xadj@;
    assert(x == first_out@.drop_last());
    let mut data: Vec<NodeSet> = Vec::new();
    let mut i: usize = 0;
    while i < xadj.len()
        invariant
            x == xadj@,
            x.len() == first_out@.len() - 1,
            forall|t: int| 0 <= t < x.len() ==> #[trigger] x[t] == first_out@[t],
            forall|t: int| 0 <= t < x.len() ==> #[trigger] x[t] <= slice_end(x, head@.len(), t) <= head@.len(),
            i <= x.len(),
            data@.len() == i,
            forall|t: int|
                0 <= t < i ==> (#[trigger] data@[t])@ == head@.subrange(x[t] as int, slice_end(x, head@.len(), t)).to_set(),
        decreases x.len() - i,
    {
        let start = xadj[i];
        let end = if i + 1 < xadj.len() {
            xadj[i + 1]
        } else {
            head.len()
        };
        assert(start <= slice_end(x, head@.len(), i as int));
        data.push(slice_set(&head, start, end));
        i = i + 1;
    }
    let g = Graph { data };
    assert(g@ =~= arrays_graph(first_out@, head@));
    g
}

/// The ids of `head` at the positions from `a` up to `b`; none where the
/// range is empty.
pub open spec fn range_set(head: Seq<usize>, a: int, b: int) -> Set<usize> {
    if a < b {
        head.subrange(a, b).to_set()
    } else {
        Set::empty()
    }
}

/// The graph on `first_out.len() - 1` nodes with the directed edges
/// `i -> head[j]` for `j` from `first_out[i]` up to `first_out[i + 1]`.
pub fn from_adjacency_arrays_directed(first_out: &Vec<usize>, head: &Vec<usize>) -> (g: Graph)
    requires
        first_out@.len() >= 1,
        forall|i: int|
            0 <= i < first_out@.len() - 1 && #[trigger] first_out@[i] < first_out@[i + 1]
                ==> first_out@[i + 1] <= head@.len(),
    ensures
        g@.len() == first_out@.len() - 1,
        forall|i: int|
            0 <= i < g@.len() ==> #[trigger] g@[i] == range_set(
                head@,
                first_out@[i] as int,
                first_out@[i + 1] as int,
            ),
{
    let n = first_out.len() - 1;
    let mut g = Graph::with_node_count(n);
    let mut i: usize = 0;
    while i < n
        invariant
            n == first_out@.len() - 1,
            forall|t: int|
                0 <= t < n && #[trigger] first_out@[t] < first_out@[t + 1] ==> first_out@[t + 1]
                    <= head@.len(),
            i <= n,
            g@.len() == n,
            forall|t: int|
                0 <= t < i ==> #[trigger] g@[t] == range_set(
                    head@,
                    first_out@[t] as int,
                    first_out@[t + 1] as int,
                ),
            forall|t: int| i <= t < n ==> #[trigger] g@[t] == Set::<usize>::empty(),
        decreases n - i,
    {
        let start = first_out[i];
        let end = first_out[i + 1];
        let mut j = start;
        assert(first_out@[i as int] < first_out@[i + 1] ==> first_out@[i + 1] <= head@.len());
        while j < end
            invariant
                n == first_out@.len() - 1,
                i < n,
                start == first_out@[i as int],
                end == first_out@[i + 1],
                start <= j,
                j < end ==> end <= head@.len(),
                j <= end || j == start,
                g@.len() == n,
                forall|t: int|
                    0 <= t < i ==> #[trigger] g@[t] == range_set(
                        head@,
                        first_out@[t] as int,
                        first_out@[t + 1] as int,
                    ),
                forall|t: int| i < t < n ==> #[trigger] g@[t] == Set::<usize>::empty(),
                g@[i as int] == range_set(head@, start as int, j as int),
            decreases end - j,
        {
            g.add_directed_edge(i, head[j]);
            proof {
                let r = head@.subrange(start as int, j as int + 1);
                lemma_take_one_more(r, j - start);
                assert(r.take(j - start) =~= head@.subrange(start as int, j as int));
                assert(r.take(j - start + 1) =~= r);
                if j == start {
                    assert(head@.subrange(start as int, j as int) =~= Seq::<usize>::empty());
                }
            }
            j = j + 1;
        }
        assert(g@[i as int] == range_set(head@, start as int, end as int));
        i = i + 1;
    }
    g
}

/// Writing a graph's adjacency arrays and reading them back gives the
/// graph again: when `first_out` and `head` hold the values of the arrays
/// that [`Graph::get_adjacency_array`] produces (all of which fit, as the
/// graph has fewer than 2^31 nodes and entries), the graph that
/// [`from_adjacency_arrays`] builds from them has the same neighbours at
/// every node.
pub proof fn lemma_adjacency_arrays_round_trip(
    adj: Seq<Set<usize>>,
    xadj: Seq<i32>,
    adjncy: Seq<i32>,
    first_out: Seq<usize>,
    head: Seq<usize>,
)
    requires
        in_range(adj),
        adj.len() < 0x8000_0000,
        degree_sum(adj) < 0x8000_0000,
        is_adjacency_array(adj, xadj, adjncy),
        first_out.len() == xadj.len(),
        forall|i: int| 0 <= i < first_out.len() ==> #[trigger] first_out[i] == xadj[i],
        head.len() == adjncy.len(),
        forall|t: int| 0 <= t < head.len() ==> #[trigger] head[t] == adjncy[t],
    ensures
        first_out.len() >= 1,
        forall|i: int|
            0 <= i < first_out.len() - 1 ==> #[trigger] first_out[i] <= slice_end(
                first_out.drop_last(),
                head.len(),
                i,
            ) <= head.len(),
        forall|i: int|
            0 <= i < adj.len() ==> #[trigger] head.subrange(
                first_out[i] as int,
                slice_end(first_out.drop_last(), head.len(), i),
            ).to_set() == adj[i],
        arrays_graph(first_out, head) == adj,
{
    let n = adj.len() as int;
    lemma_offsets(adj, xadj, first_out);
    assert forall|i: int|
        0 <= i < first_out.len() - 1 implies #[trigger] first_out[i] <= slice_end(
            first_out.drop_last(),
            head.len(),
            i,
        ) <= head.len() by {
        lemma_step_offsets(adj, first_out, head, i);
    }
    assert forall|i: int| 0 <= i < n implies #[trigger] head.subrange(
        first_out[i] as int,
        slice_end(first_out.drop_last(), head.len(), i),
    ).to_set() == adj[i] by {
        lemma_step_offsets(adj, first_out, head, i);
        lemma_slice_of_node(adj, xadj, adjncy, head, i);
    }
    assert(arrays_graph(first_out, head) =~= adj);
}

/// The offsets are the degree sums of the prefixes.
proof fn lemma_offsets(adj: Seq<Set<usize>>, xadj: Seq<i32>, first_out: Seq<usize>)
    requires
        degree_sum(adj) < 0x8000_0000,
        xadj.len() == adj.len() + 1,
        forall|i: int| 0 <= i <= adj.len() ==> #[trigger] xadj[i] == degree_sum(adj.take(i)) as i32,
        first_out.len() == xadj.len(),
        forall|i: int| 0 <= i < first_out.len() ==> #[trigger] first_out[i] == xadj[i],
    ensures
        forall|i: int| 0 <= i <= adj.len() ==> #[trigger] first_out[i] == degree_sum(adj.take(i)),
{
    assert forall|i: int| 0 <= i <= adj.len() implies #[trigger] first_out[i] == degree_sum(adj.take(i)) by {
        lemma_degree_sum_prefix(adj, i);
        assert(xadj[i] == degree_sum(adj.take(i)) as i32);
    }
}

/// Node `i`'s range ends where node `i + 1`'s starts, `adj[i].len()` on.
proof fn lemma_step_offsets(adj: Seq<Set<usize>>, first_out: Seq<usize>, head: Seq<usize>, i: int)
    requires
        0 <= i < adj.len(),
        first_out.len() == adj.len() + 1,
        forall|k: int| 0 <= k <= adj.len() ==> #[trigger] first_out[k] == degree_sum(adj.take(k)),
        head.len() == degree_sum(adj),
    ensures
        slice_end(first_out.drop_last(), head.len(), i) == first_out[i] + adj[i].len(),
        first_out[i] + adj[i].len() <= head.len(),
        first_out[i] >= 0,
{
    lemma_degree_sum_prefix(adj, i + 1);
    lemma_degree_sum_prefix(adj, i);
    assert(adj.take(i + 1).drop_last() =~= adj.take(i));
    assert(first_out[i + 1] == degree_sum(adj.take(i + 1)));
    if i + 1 == adj.len() {
        assert(adj.take(i + 1) =~= adj);
    }
}

/// The entries of `head` in node `i`'s range are its neighbours.
proof fn lemma_slice_of_node(adj: Seq<Set<usize>>, xadj: Seq<i32>, adjncy: Seq<i32>, head: Seq<usize>, i: int)
    requires
        in_range(adj),
        adj.len() < 0x8000_0000,
        is_adjacency_array(adj, xadj, adjncy),
        0 <= i < adj.len(),
        head.len() == adjncy.len(),
        forall|t: int| 0 <= t < head.len() ==> #[trigger] head[t] == adjncy[t],
    ensures
        head.subrange(degree_sum(adj.take(i)), degree_sum(adj.take(i)) + adj[i].len()).to_set() == adj[i],
{
    let start = degree_sum(adj.take(i));
    let nb = choose|nb: Seq<usize>|
        {
            &&& nb.no_duplicates()
            &&& nb.to_set() == #[trigger] adj[i]
            &&& nb.len() == adj[i].len()
            &&& forall|t: int| 0 <= t < nb.len() ==> adjncy[degree_sum(adj.take(i)) + t] == nb[t] as i32
        };
    lemma_degree_sum_prefix(adj, i + 1);
    lemma_degree_sum_prefix(adj, i);
    assert(adj.take(i + 1).drop_last() =~= adj.take(i));
    let sub = head.subrange(start, start + nb.len());
    assert forall|t: int| 0 <= t < nb.len() implies sub[t] == nb[t] by {
        assert(nb.to_set().contains(nb[t]));
        assert(adj[i].contains(nb[t]));
        assert(nb[t] < adj.len());
        assert(head[start + t] == adjncy[start + t]);
    }
    assert(sub =~= nb);
}

/// Each position below the degree sum lies in the range of some node.
proof fn lemma_position_of(adj: Seq<Set<usize>>, k: int) -> (i: int)
    requires
        0 <= k < degree_sum(adj),
    ensures
        0 <= i < adj.len(),
        degree_sum(adj.take(i)) <= k < degree_sum(adj.take(i)) + adj[i].len(),
    decreases adj.len(),
{
    let d = adj.drop_last();
    if k < degree_sum(d) {
        let i = lemma_position_of(d, k);
        assert(d.take(i) =~= adj.take(i));
        i
    } else {
        let i = adj.len() - 1;
        assert(adj.take(i) =~= d);
        i
    }
}

/// The ids that a file of 32-bit integers holds, as `read_to_usize_vec`
/// gives them.
pub open spec fn decoded_ids(bytes: Seq<u8>) -> Seq<usize> {
    Seq::new(bytes.len() / 4, |i: int| u32_at(bytes, i) as usize)
}

/// Saving the adjacency arrays of a graph as files of 32-bit integers
/// (`encode_i32s`) and reading the files back as ids (`read_to_usize_vec`)
/// gives arrays that `from_adjacency_arrays` takes, and it builds the graph
/// back from them.
pub proof fn lemma_saved_graph_round_trip(adj: Seq<Set<usize>>, xadj: Seq<i32>, adjncy: Seq<i32>)
    requires
        in_range(adj),
        adj.len() < 0x8000_0000,
        degree_sum(adj) < 0x8000_0000,
        is_adjacency_array(adj, xadj, adjncy),
    ensures
        ({
            let first_out = decoded_ids(encoded_i32s(xadj));
            let head = decoded_ids(encoded_i32s(adjncy));
            &&& encoded_i32s(xadj).len() % 4 == 0
            &&& encoded_i32s(adjncy).len() % 4 == 0
            &&& first_out.len() == adj.len() + 1
            &&& forall|i: int|
                0 <= i < first_out.len() - 1 ==> #[trigger] first_out[i] <= slice_end(
                    first_out.drop_last(),
                    head.len(),
                    i,
                ) <= head.len()
            &&& forall|i: int|
                0 <= i < adj.len() ==> #[trigger] head.subrange(
                    first_out[i] as int,
                    slice_end(first_out.drop_last(), head.len(), i),
                ).to_set() == adj[i]
            &&& arrays_graph(first_out, head) == adj
        }),
{
    let first_out = decoded_ids(encoded_i32s(xadj));
    let head = decoded_ids(encoded_i32s(adjncy));
    lemma_i32s_round_trip(xadj);
    lemma_i32s_round_trip(adjncy);
    assert forall|i: int| 0 <= i < first_out.len() implies #[trigger] first_out[i] == xadj[i] by {
        lemma_degree_sum_prefix(adj, i);
        assert(xadj[i] == degree_sum(adj.take(i)) as i32);
        assert(u32_at(encoded_i32s(xadj), i) == u32_of(xadj[i]));
    }
    assert forall|t: int| 0 <= t < head.len() implies #[trigger] head[t] == adjncy[t] by {
        let i = lemma_position_of(adj, t);
        let nb = choose|nb: Seq<usize>|
            {
                &&& nb.no_duplicates()
                &&& nb.to_set() == #[trigger] adj[i]
                &&& nb.len() == adj[i].len()
                &&& forall|s: int| 0 <= s < nb.len() ==> adjncy[degree_sum(adj.take(i)) + s] == nb[s] as i32
            };
        let s = t - degree_sum(adj.take(i));
        assert(adjncy[degree_sum(adj.take(i)) + s] == nb[s] as i32);
        assert(nb.to_set().contains(nb[s]));
        assert(nb[s] < adj.len());
        assert(u32_at(encoded_i32s(adjncy), t) == u32_of(adjncy[t]));
    }
    lemma_adjacency_arrays_round_trip(adj, xadj, adjncy, first_out, head);
}

} // verus!
