//! Thinning a graph towards a degree distribution: edges are taken away from
//! the nodes of the highest degree first, one degree class after the other.
use crate::components::{are_component_graphs, component_roots, is_last_largest, restrict};
use crate::graph::{degree_sum, edge_list_graph, edge_pairs, in_range, is_symmetric, without_edge, Graph};
use crate::random_set::RandomSet;
use vstd::prelude::*;

verus! {

/// The nodes of `adj` whose degree is `d`.
pub open spec fn degree_class(adj: Seq<Set<usize>>, d: int) -> Set<usize> {
    Set::new(|w: usize| w < adj.len() && adj[w as int].len() == d)
}

/// The largest size that the class of degree `d` may keep: `limits[d]`, and
/// zero past the end of `limits`.
pub open spec fn class_limit(limits: Seq<usize>, d: int) -> int {
    if 0 <= d < limits.len() {
        limits[d] as int
    } else {
        0
    }
}

/// Every neighbourhood is finite, of fewer than `k` nodes.
pub open spec fn degrees_below(adj: Seq<Set<usize>>, k: int) -> bool {
    forall|w: int| 0 <= w < adj.len() ==> (#[trigger] adj[w]).finite() && adj[w].len() < k
}

/// `t` has the nodes of `adj`, part of each neighbourhood, and is undirected.
pub open spec fn is_thinned(adj: Seq<Set<usize>>, t: Seq<Set<usize>>) -> bool {
    &&& t.len() == adj.len()
    &&& in_range(t)
    &&& is_symmetric(t)
    &&& forall|w: int| 0 <= w < adj.len() ==> (#[trigger] t[w]).subset_of(adj[w])
}

/// `r` is the graph that `largest_connected_component` gives for `adj`: the
/// last of the largest component graphs.
pub open spec fn is_largest_component_of(adj: Seq<Set<usize>>, r: Seq<Set<usize>>) -> bool {
    exists|gs: Seq<Seq<Set<usize>>>|
        {
            &&& are_component_graphs(
                restrict(adj, Set::<usize>::empty()),
                component_roots(restrict(adj, Set::<usize>::empty()), Set::<usize>::empty(), adj.len()),
                gs,
            )
            &&& is_last_largest(gs, r)
        }
}

/// No neighbourhood grows, and one shrinks: the degree sum drops.
pub proof fn lemma_degree_sum_drops(a: Seq<Set<usize>>, b: Seq<Set<usize>>, k: int)
    requires
        a.len() == b.len(),
        0 <= k < a.len(),
        forall|w: int| 0 <= w < a.len() ==> #[trigger] b[w].len() <= a[w].len(),
        b[k].len() < a[k].len(),
    ensures
        degree_sum(b) < degree_sum(a),
    decreases a.len(),
{
    if k == a.len() - 1 {
        lemma_degree_sum_monotone(a.drop_last(), b.drop_last());
    } else {
        lemma_degree_sum_drops(a.drop_last(), b.drop_last(), k);
    }
}

/// No neighbourhood grows: the degree sum does not grow.
pub proof fn lemma_degree_sum_monotone(a: Seq<Set<usize>>, b: Seq<Set<usize>>)
    requires
        a.len() == b.len(),
        forall|w: int| 0 <= w < a.len() ==> #[trigger] b[w].len() <= a[w].len(),
    ensures
        degree_sum(b) <= degree_sum(a),
    decreases a.len(),
{
    if a.len() > 0 {
        lemma_degree_sum_monotone(a.drop_last(), b.drop_last());
    }
}

/// The smallest node of a graph with a node is a component root.
pub proof fn lemma_first_root(g: Seq<Set<usize>>, n: nat)
    requires
        1 <= n <= g.len(),
    ensures
        component_roots(g, Set::<usize>::empty(), n).len() >= 1,
    decreases n,
{
    if n > 1 {
        lemma_first_root(g, (n - 1) as nat);
    } else {
        assert(crate::components::is_component_root(g, Set::<usize>::empty(), 0));
    }
}

/// What is left of the neighbourhood of `z` once the edge `v - u` is gone.
proof fn lemma_without_edge_contains(a: Seq<Set<usize>>, v: usize, u: usize, z: int, y: usize)
    requires
        0 <= z < a.len(),
    ensures
        without_edge(a, v, u)[z].contains(y) <==> a[z].contains(y) && !((z == v && y == u) || (z == u
            && y == v)),
{
}

/// Taking the edge `v - u` away from a node `v` of degree `cur` moves `v`
/// one class down, and `u` one class down too.
proof fn lemma_step_classes(a: Seq<Set<usize>>, c: Seq<Set<usize>>, cur: int, v: usize, u: usize)
    requires
        a.len() <= usize::MAX,
        in_range(a),
        is_symmetric(a),
        degrees_below(a, c.len() as int),
        forall|d: int| 0 <= d < c.len() ==> #[trigger] c[d] == degree_class(a, d),
        2 <= cur < c.len(),
        v < a.len(),
        a[v as int].len() == cur,
        a[v as int].contains(u),
    ensures
        ({
            let du = a[u as int].len() as int;
            let c1 = c.update(cur, c[cur].remove(v));
            let c2 = c1.update(cur - 1, c1[cur - 1].insert(v));
            let c3 = c2.update(du, c2[du].remove(u));
            let c4 = c3.update(du - 1, c3[du - 1].insert(u));
            let b = without_edge(a, v, u);
            &&& 1 <= du < c.len()
            &&& in_range(b)
            &&& is_symmetric(b)
            &&& degrees_below(b, c.len() as int)
            &&& forall|w: int| 0 <= w < a.len() ==> (#[trigger] b[w]).subset_of(a[w])
            &&& forall|d: int| 0 <= d < c.len() ==> #[trigger] c4[d] == degree_class(b, d)
        }),
{
    let du = a[u as int].len() as int;
    let c1 = c.update(cur, c[cur].remove(v));
    let c2 = c1.update(cur - 1, c1[cur - 1].insert(v));
    let c3 = c2.update(du, c2[du].remove(u));
    let c4 = c3.update(du - 1, c3[du - 1].insert(u));
    let b = without_edge(a, v, u);
    assert(u < a.len());
    assert(a[u as int].contains(v));
    assert(a[u as int].finite());
    assert(du >= 1) by {
        vstd::set::axiom_set_contains_len(a[u as int], v);
    }
    assert(b[v as int] == a[v as int].remove(u));
    assert(b[v as int].len() == cur - 1) by {
        vstd::set::axiom_set_remove_len(a[v as int], u);
    }
    if u != v {
        assert(b[u as int] == a[u as int].remove(v));
        assert(b[u as int].len() == du - 1) by {
            vstd::set::axiom_set_remove_len(a[u as int], v);
        }
    }
    assert forall|w: int| 0 <= w < a.len() implies (#[trigger] b[w]).subset_of(a[w]) by {}
    assert forall|w: int| 0 <= w < a.len() implies (#[trigger] b[w]).finite() && b[w].len() < c.len() by {
        vstd::set_lib::lemma_len_subset(b[w], a[w]);
    }
    assert forall|x: int, y: usize| 0 <= x < b.len() && #[trigger] b[x].contains(y) implies y < b.len()
        && b[y as int].contains(x as usize) by {
        lemma_without_edge_contains(a, v, u, x, y);
        assert(a[y as int].contains(x as usize));
        lemma_without_edge_contains(a, v, u, y as int, x as usize);
    }
    assert forall|d: int| 0 <= d < c.len() implies #[trigger] c4[d] == degree_class(b, d) by {
        assert forall|w: usize| c4[d].contains(w) <==> degree_class(b, d).contains(w) by {
            if w == v {
            } else if w == u {
            } else if w < a.len() {
                assert(b[w as int] == a[w as int]);
            }
        }
        assert(c4[d] =~= degree_class(b, d));
    }
}

/// `b` is `a` with the edge `v - u` taken away from a node `v` of degree `c`.
pub open spec fn removed_at(a: Seq<Set<usize>>, c: int, v: usize, u: usize, b: Seq<Set<usize>>) -> bool {
    &&& v < a.len()
    &&& a[v as int].len() == c
    &&& a[v as int].contains(u)
    &&& b == without_edge(a, v, u)
}

/// One step of the thinning from the graph `a` with current class `c` to
/// `b` with current class `c2`: where the class of degree `c` is empty, the
/// next lower class becomes current; else an edge is taken away from a node
/// of that class, and the next lower class becomes current once the class
/// holds at most `class_limit(limits, c)` nodes.
pub open spec fn thin_step(limits: Seq<usize>, a: Seq<Set<usize>>, c: int, b: Seq<Set<usize>>, c2: int) -> bool {
    &&& c >= 2
    &&& {
        ||| degree_class(a, c) == Set::<usize>::empty() && b == a && c2 == c - 1
        ||| exists|v: usize, u: usize|
            #[trigger] removed_at(a, c, v, u, b) && c2 == (if degree_class(b, c).len() <= class_limit(limits, c) {
                c - 1
            } else {
                c
            })
    }
}

/// `run` lists the states (graph, current class) of a thinning, each got
/// from the one before by one step.
pub open spec fn is_thin_run(limits: Seq<usize>, run: Seq<(Seq<Set<usize>>, int)>) -> bool {
    &&& run.len() >= 1
    &&& forall|k: int|
        0 <= k < run.len() - 1 ==> #[trigger] thin_step(limits, run[k].0, run[k].1, run[k + 1].0, run[k + 1].1)
}

/// `b` lacks an edge of `a`.
pub open spec fn lost_edge(a: Seq<Set<usize>>, b: Seq<Set<usize>>) -> bool {
    exists|w: int, y: usize| 0 <= w < a.len() && #[trigger] a[w].contains(y) && !b[w].contains(y)
}

/// `t` is what a thinning of `a` with these limits leaves: a run that starts
/// at `a` with the class of the largest degree current and stops when the
/// class of degree one or below is current.
pub open spec fn is_degree_thinning(limits: Seq<usize>, a: Seq<Set<usize>>, t: Seq<Set<usize>>) -> bool {
    exists|run: Seq<(Seq<Set<usize>>, int)>|
        {
            &&& #[trigger] is_thin_run(limits, run)
            &&& run[0].0 == a
            &&& degrees_below(a, run[0].1 + 1)
            &&& exists|w: int| 0 <= w < a.len() && a[w].len() == run[0].1
            &&& run.last().0 == t
            &&& run.last().1 <= 1
        }
}

/// A run followed by one more step is a run.
proof fn lemma_run_push(limits: Seq<usize>, run: Seq<(Seq<Set<usize>>, int)>, b: Seq<Set<usize>>, c2: int)
    requires
        is_thin_run(limits, run),
        thin_step(limits, run.last().0, run.last().1, b, c2),
    ensures
        is_thin_run(limits, run.push((b, c2))),
        run.push((b, c2))[0] == run[0],
{
    let r2 = run.push((b, c2));
    assert forall|k: int| 0 <= k < r2.len() - 1 implies #[trigger] thin_step(
        limits,
        r2[k].0,
        r2[k].1,
        r2[k + 1].0,
        r2[k + 1].1,
    ) by {
        if k < run.len() - 1 {
            assert(r2[k] == run[k] && r2[k + 1] == run[k + 1]);
        } else {
            assert(r2[k] == run.last());
        }
    }
}

/// The state of the thinning: a neighbourhood for each node, and for each
/// degree below `classes.len()` the nodes of that degree; `current` is the
/// class that loses edges next.
pub struct DegreeThinning {
    adjacency: Vec<RandomSet>,
    classes: Vec<RandomSet>,
    current: usize,
}

impl DegreeThinning {
    /// The neighbourhoods.
    pub closed spec fn adjacency_view(&self) -> Seq<Set<usize>> {
        self.adjacency@.map_values(|s: RandomSet| s@)
    }

    /// The degree whose class loses edges next.
    pub closed spec fn current_degree(&self) -> int {
        self.current as int
    }

    /// The number of degree classes kept: one more than the largest degree
    /// at the start.
    pub closed spec fn class_count(&self) -> int {
        self.classes@.len() as int
    }

    closed spec fn class_views(&self) -> Seq<Set<usize>> {
        self.classes@.map_values(|s: RandomSet| s@)
    }

    /// The neighbourhoods form an undirected graph whose degrees lie below
    /// the class count, and each class holds the nodes of its degree.
    pub closed spec fn wf(&self) -> bool {
        &&& self.adjacency@.len() <= usize::MAX
        &&& forall|w: int| 0 <= w < self.adjacency@.len() ==> (#[trigger] self.adjacency@[w]).wf()
        &&& forall|d: int| 0 <= d < self.classes@.len() ==> (#[trigger] self.classes@[d]).wf()
        &&& in_range(self.adjacency_view())
        &&& is_symmetric(self.adjacency_view())
        &&& degrees_below(self.adjacency_view(), self.classes@.len() as int)
        &&& forall|d: int|
            0 <= d < self.classes@.len() ==> #[trigger] self.class_views()[d] == degree_class(
                self.adjacency_view(),
                d,
            )
        &&& self.current < self.classes@.len()
    }

    /// The state for `g`: one class for each degree up to the largest, which
    /// is the class that loses edges first.
    pub fn from_graph(g: &Graph) -> (t: DegreeThinning)
        requires
            0 < g@.len() < usize::MAX,
            in_range(g@),
            is_symmetric(g@),
        ensures
            t.wf(),
            t.adjacency_view() == g@,
            degrees_below(g@, t.class_count()),
            exists|w: int| 0 <= w < g@.len() && g@[w].len() == t.class_count() - 1,
            t.current_degree() == t.class_count() - 1,
    {
        let n = g.data.len();
        let mut adjacency: Vec<RandomSet> = Vec::new();
        let mut max_degree: usize = 0;
        let mut i: usize = 0;
        while i < n
            invariant
                n == g@.len(),
                0 < n < usize::MAX,
                in_range(g@),
                i <= n,
                adjacency@.len() == i,
                max_degree <= n,
                forall|w: int| 0 <= w < i ==> (#[trigger] adjacency@[w]).wf() && adjacency@[w]@ == g@[w],
                forall|w: int| 0 <= w < i ==> (#[trigger] g@[w]).finite() && g@[w].len() <= max_degree,
                i > 0 ==> exists|w: int| 0 <= w < i && g@[w].len() == max_degree,
            decreases n - i,
        {
            let s = RandomSet::from_set(&g.data[i]);
            proof {
                assert(s@ == g@[i as int]);
                s.lemma_len_below(n);
            }
            let d = s.len();
            if d > max_degree || i == 0 {
                max_degree = d;
            }
            adjacency.push(s);
            proof {
                assert(g@[i as int].len() <= max_degree);
            }
            i = i + 1;
        }
        let k = max_degree + 1;
        let mut classes: Vec<RandomSet> = Vec::new();
        let mut d: usize = 0;
        while d < k
            invariant
                d <= k,
                classes@.len() == d,
                forall|x: int| 0 <= x < d ==> (#[trigger] classes@[x]).wf() && classes@[x]@ == Set::<
                    usize,
                >::empty(),
            decreases k - d,
        {
            classes.push(RandomSet::new());
            d = d + 1;
        }
        let ghost a = adjacency@.map_values(|s: RandomSet| s@);
        proof {
            assert(a =~= g@);
        }
        let mut j: usize = 0;
        while j < n
            invariant
                n == adjacency@.len(),
                a == adjacency@.map_values(|s: RandomSet| s@),
                a == g@,
                j <= n,
                classes@.len() == k,
                k == max_degree + 1,
                forall|w: int| 0 <= w < n ==> (#[trigger] adjacency@[w]).wf(),
                forall|w: int| 0 <= w < n ==> (#[trigger] g@[w]).finite() && g@[w].len() <= max_degree,
                forall|x: int| 0 <= x < k ==> (#[trigger] classes@[x]).wf(),
                forall|x: int|
                    0 <= x < k ==> (#[trigger] classes@[x])@ == Set::new(
                        |w: usize| w < j && a[w as int].len() == x,
                    ),
            decreases n - j,
        {
            proof {
                assert(adjacency@[j as int]@ == a[j as int]);
                assert(a[j as int].len() <= max_degree);
            }
            let deg = adjacency[j].len();
            let ghost c0 = classes@;
            classes[deg].insert(j);
            proof {
                assert forall|x: int| 0 <= x < k implies (#[trigger] classes@[x])@ == Set::new(
                    |w: usize| w < j + 1 && a[w as int].len() == x,
                ) by {
                    if x == deg {
                        assert(classes@[x]@ =~= Set::new(|w: usize| w < j + 1 && a[w as int].len() == x));
                    } else {
                        assert(classes@[x] == c0[x]);
                        assert(classes@[x]@ =~= Set::new(|w: usize| w < j + 1 && a[w as int].len() == x));
                    }
                }
                assert forall|x: int| 0 <= x < k implies (#[trigger] classes@[x]).wf() by {
                    if x != deg {
                        assert(classes@[x] == c0[x]);
                    }
                }
            }
            j = j + 1;
        }
        let t = DegreeThinning { adjacency, classes, current: max_degree };
        proof {
            assert(t.adjacency_view() == a);
            assert forall|x: int| 0 <= x < k implies #[trigger] t.class_views()[x] == degree_class(
                t.adjacency_view(),
                x,
            ) by {
                assert(t.class_views()[x] =~= degree_class(a, x));
            }
        }
        t
    }

    /// Takes the edge `v - u` away from the node `v` of the current degree;
    /// then, where the current class holds no more nodes than `limits` lets
    /// it keep (`class_limit`), the next lower class becomes current.
    pub fn remove_edge_at(&mut self, v: usize, u: usize, limits: &Vec<usize>)
        requires
            old(self).wf(),
            old(self).current_degree() >= 2,
            v < old(self).adjacency_view().len(),
            old(self).adjacency_view()[v as int].len() == old(self).current_degree(),
            old(self).adjacency_view()[v as int].contains(u),
        ensures
            final(self).wf(),
            final(self).class_count() == old(self).class_count(),
            final(self).adjacency_view() == without_edge(old(self).adjacency_view(), v, u),
            final(self).current_degree() == (if degree_class(
                final(self).adjacency_view(),
                old(self).current_degree(),
            ).len() <= class_limit(limits@, old(self).current_degree()) {
                old(self).current_degree() - 1
            } else {
                old(self).current_degree()
            }),
    {
        let cur = self.current;
        let ghost a = self.adjacency_view();
        let ghost c = self.class_views();
        let ghost ac = self.adjacency@;
        let ghost cc = self.classes@;
        proof {
            lemma_step_classes(a, c, cur as int, v, u);
            assert(a[v as int].contains(u));
            assert(u < a.len());
        }
        let ghost du = a[u as int].len() as int;
        self.classes[cur].remove(&v);
        self.classes[cur - 1].insert(v);
        let deg_u = self.adjacency[u].len();
        assert(deg_u == du);
        self.classes[deg_u].remove(&u);
        self.classes[deg_u - 1].insert(u);
        self.adjacency[v].remove(&u);
        self.adjacency[u].remove(&v);
        proof {
            let c1 = c.update(cur as int, c[cur as int].remove(v));
            let c2 = c1.update(cur - 1, c1[cur - 1].insert(v));
            let c3 = c2.update(du, c2[du].remove(u));
            let c4 = c3.update(du - 1, c3[du - 1].insert(u));
            assert(self.class_views() =~= c4);
            let a1 = a.update(v as int, a[v as int].remove(u));
            let a2 = a1.update(u as int, a1[u as int].remove(v));
            assert(self.adjacency_view() =~= a2);
            assert(a2 =~= without_edge(a, v, u));
            assert forall|w: int| 0 <= w < self.adjacency@.len() implies (#[trigger] self.adjacency@[w]).wf() by {
                if w != v && w != u {
                    assert(self.adjacency@[w] == ac[w]);
                }
            }
            assert forall|x: int| 0 <= x < self.classes@.len() implies (#[trigger] self.classes@[x]).wf() by {
                if x != cur && x != cur - 1 && x != du && x != du - 1 {
                    assert(self.classes@[x] == cc[x]);
                }
            }
        }
        proof {
            assert(self.class_views()[cur as int] == degree_class(self.adjacency_view(), cur as int));
            assert(self.classes@[cur as int]@ == self.class_views()[cur as int]);
        }
        let size = self.classes[cur].len();
        let limit = if cur < limits.len() {
            limits[cur]
        } else {
            0
        };
        if size <= limit {
            self.current = cur - 1;
        }
    }

    /// Takes edges away until the current class is that of degree one: a
    /// node of the current degree and one of its neighbours are drawn at
    /// random and their edge is taken away (`remove_edge_at`); where the
    /// current class is empty, the next lower one becomes current. What it
    /// goes through is a run of such steps (`is_thin_run`), whatever is drawn.
    pub fn thin(&mut self, limits: &Vec<usize>)
        requires
            old(self).wf(),
        ensures
            final(self).wf(),
            final(self).current_degree() <= 1,
            final(self).class_count() == old(self).class_count(),
            is_thinned(old(self).adjacency_view(), final(self).adjacency_view()),
            exists|run: Seq<(Seq<Set<usize>>, int)>|
                {
                    &&& #[trigger] is_thin_run(limits@, run)
                    &&& run[0] == (old(self).adjacency_view(), old(self).current_degree())
                    &&& run.last() == (final(self).adjacency_view(), final(self).current_degree())
                },
            old(self).current_degree() >= 2 && degree_class(old(self).adjacency_view(), old(self).current_degree())
                != Set::<usize>::empty() ==> lost_edge(old(self).adjacency_view(), final(self).adjacency_view()),
    {
        let ghost start = self.adjacency_view();
        let ghost c0 = self.current as int;
        let ghost k = self.classes@.len();
        let ghost mut run: Seq<(Seq<Set<usize>>, int)> = seq![(start, c0)];
        proof {
            assert forall|w: int| 0 <= w < start.len() implies (#[trigger] start[w]).subset_of(start[w]) by {}
        }
        while self.current > 1
            invariant
                self.wf(),
                self.classes@.len() == k,
                is_thinned(start, self.adjacency_view()),
                is_thin_run(limits@, run),
                run[0] == (start, c0),
                run.last() == (self.adjacency_view(), self.current as int),
                c0 >= 2 && degree_class(start, c0) != Set::<usize>::empty() ==> lost_edge(start, self.adjacency_view())
                    || (self.adjacency_view() == start && self.current == c0),
            decreases degree_sum(self.adjacency_view()), self.current,
        {
            let cur = self.current;
            let ghost a = self.adjacency_view();
            let ghost cv = self.class_views();
            let ghost run0 = run;
            match self.classes[cur].choose_random() {
                None => {
                    self.current = cur - 1;
                    proof {
                        assert(self.adjacency_view() =~= a);
                        assert(self.class_views() =~= cv);
                        crate::graph::lemma_degree_sum_nonneg(a);
                        assert(cv[cur as int] == self.classes@[cur as int]@);
                        assert(degree_class(a, cur as int) == Set::<usize>::empty());
                        assert(thin_step(limits@, a, cur as int, self.adjacency_view(), self.current as int));
                        run = run.push((self.adjacency_view(), self.current as int));
                        lemma_run_push(limits@, run0, self.adjacency_view(), self.current as int);
                    }
                },
                Some(v) => {
                    proof {
                        assert(self.class_views()[cur as int].contains(v));
                        assert(degree_class(a, cur as int).contains(v));
                        assert(self.adjacency@[v as int]@ == a[v as int]);
                    }
                    match self.adjacency[v].choose_random() {
                        None => {
                            proof {
                                assert(a[v as int].len() == 0);
                            }
                        },
                        Some(u) => {
                            self.remove_edge_at(v, u, limits);
                            proof {
                                let b = self.adjacency_view();
                                assert forall|w: int| 0 <= w < start.len() implies (#[trigger] b[w]).subset_of(
                                    start[w],
                                ) by {
                                    assert(b[w].subset_of(a[w]));
                                }
                                assert(a[v as int].contains(u));
                                vstd::set::axiom_set_remove_len(a[v as int], u);
                                assert forall|w: int| 0 <= w < a.len() implies #[trigger] b[w].len() <= a[w].len() by {
                                    vstd::set_lib::lemma_len_subset(b[w], a[w]);
                                }
                                lemma_degree_sum_drops(a, b, v as int);
                                crate::graph::lemma_degree_sum_nonneg(b);
                                assert(removed_at(a, cur as int, v, u, b));
                                assert(thin_step(limits@, a, cur as int, b, self.current as int));
                                run = run.push((b, self.current as int));
                                lemma_run_push(limits@, run0, b, self.current as int);
                                lemma_without_edge_contains(a, v, u, v as int, u);
                                assert(lost_edge(a, b));
                                assert(lost_edge(start, b)) by {
                                    if lost_edge(start, a) {
                                        let (w, y) = choose|w: int, y: usize|
                                            0 <= w < start.len() && #[trigger] start[w].contains(y) && !a[w].contains(y);
                                        assert(b[w].subset_of(a[w]));
                                    } else {
                                        assert(start[v as int].contains(u));
                                    }
                                }
                            }
                        },
                    }
                },
            }
        }
    }

    /// The degree whose class loses edges next.
    pub fn current_class(&self) -> (d: usize)
        ensures
            d == self.current_degree(),
    {
        self.current
    }

    /// The neighbourhoods as a graph.
    pub fn to_graph(&self) -> (g: Graph)
        ensures
            g@ == self.adjacency_view(),
    {
        let mut data: Vec<crate::collections::NodeSet> = Vec::new();
        let mut w: usize = 0;
        while w < self.adjacency.len()
            invariant
                w <= self.adjacency@.len(),
                data@.len() == w,
                forall|x: int| 0 <= x < w ==> (#[trigger] data@[x])@ == self.adjacency@[x]@,
            decreases self.adjacency@.len() - w,
        {
            data.push(self.adjacency[w].to_set());
            w = w + 1;
        }
        let g = Graph { data };
        assert(g@ =~= self.adjacency_view());
        g
    }
}

impl Graph {
    /// Takes edges away from the nodes of the highest degree, one degree
    /// class after the other from the top (`DegreeThinning::thin`): a class
    /// of degree `d` is left once it holds at most `class_limits[d]` nodes
    /// (none past the end of the list). Then the largest component is kept.
    /// Where some node has two neighbours or more, an edge is taken away.
    pub fn approx_degrees(&mut self, class_limits: &Vec<usize>)
        requires
            0 < old(self)@.len() < usize::MAX,
            in_range(old(self)@),
            is_symmetric(old(self)@),
        ensures
            exists|t: Seq<Set<usize>>|
                {
                    &&& is_thinned(old(self)@, t)
                    &&& is_degree_thinning(class_limits@, old(self)@, t)
                    &&& (exists|w: int| 0 <= w < old(self)@.len() && old(self)@[w].len() >= 2) ==> lost_edge(
                        old(self)@,
                        t,
                    )
                    &&& #[trigger] is_largest_component_of(t, final(self)@)
                },
    {
        let ghost start = self@;
        let mut t = DegreeThinning::from_graph(self);
        let ghost t0 = t.adjacency_view();
        let ghost c0 = t.current_degree();
        t.thin(class_limits);
        let thinned = t.to_graph();
        proof {
            lemma_first_root(restrict(thinned@, Set::<usize>::empty()), thinned@.len());
        }
        let r = thinned.largest_connected_component();
        self.data = r.data;
        proof {
            assert(self@ == r@);
            assert(is_largest_component_of(thinned@, self@));
            assert(is_thinned(start, thinned@));
            let run = choose|run: Seq<(Seq<Set<usize>>, int)>|
                {
                    &&& #[trigger] is_thin_run(class_limits@, run)
                    &&& run[0] == (t0, c0)
                    &&& run.last() == (thinned@, t.current_degree())
                };
            assert(is_degree_thinning(class_limits@, start, thinned@));
            if exists|w: int| 0 <= w < start.len() && start[w].len() >= 2 {
                let w0 = choose|w: int| 0 <= w < start.len() && start[w].len() >= 2;
                let wm = choose|w: int| 0 <= w < start.len() && start[w].len() == c0;
                assert(start[w0].len() < c0 + 1);
                assert(degree_class(start, c0).contains(wm as usize));
            }
        }
    }
}

impl Graph {
    /// Keeps `edge_count` of the edges, chosen at random (all of them where
    /// there are fewer), builds a graph from the kept pairs as
    /// `from_edge_list` does, and keeps its largest component.
    pub fn keep_random_edges_connected(&mut self, edge_count: usize)
        requires
            in_range(old(self)@),
        ensures
            exists|kept: Seq<(usize, usize)>|
                {
                    &&& kept.no_duplicates()
                    &&& kept.len() == if edge_count < edge_pairs(old(self)@).filter(
                        |e: (usize, usize)| e.0 < e.1,
                    ).len() {
                        edge_count as int
                    } else {
                        edge_pairs(old(self)@).filter(|e: (usize, usize)| e.0 < e.1).len() as int
                    }
                    &&& kept.to_set().subset_of(
                        edge_pairs(old(self)@).filter(|e: (usize, usize)| e.0 < e.1),
                    )
                    &&& #[trigger] is_largest_component_of(edge_list_graph(kept), final(self)@)
                },
    {
        let ghost adj = self@;
        let ghost dir = edge_pairs(adj).filter(|e: (usize, usize)| e.0 < e.1);
        let n = self.data.len();
        let mut edges = self.get_directed_edges();
        proof {
            edges@.unique_seq_to_set();
        }
        let ghost before = edges@;
        crate::random::shuffle_pairs(&mut edges);
        proof {
            before.lemma_multiset_has_no_duplicates();
            before.to_multiset_ensures();
            edges@.to_multiset_ensures();
            assert forall|x: (usize, usize)| edges@.to_multiset().contains(x) implies edges@.to_multiset().count(
                x,
            ) == 1 by {
                assert(before.to_multiset().contains(x));
            }
            edges@.lemma_multiset_has_no_duplicates_conv();
            assert forall|x: (usize, usize)| edges@.contains(x) implies before.contains(x) by {
                assert(edges@.to_multiset().count(x) > 0);
            }
        }
        let ghost shuffled = edges@;
        edges.truncate(edge_count);
        proof {
            let kept = edges@;
            assert(kept.no_duplicates());
            assert forall|x: (usize, usize)| kept.to_set().contains(x) implies dir.contains(x) by {
                let t = choose|t: int| 0 <= t < kept.len() && kept[t] == x;
                assert(shuffled[t] == x);
                assert(shuffled.contains(x));
                assert(before.contains(x));
                assert(before.to_set().contains(x));
            }
            assert forall|t: int| 0 <= t < kept.len() implies (#[trigger] kept[t]).0 < n && kept[t].1 < n by {
                assert(kept.to_set().contains(kept[t]));
                assert(dir.contains(kept[t]));
            }
            crate::graph::lemma_max_endpoint(kept);
            crate::graph::lemma_max_endpoint_below(kept, n);
        }
        let ghost kept = edges@;
        let g = Graph::from_edge_list(edges);
        proof {
            crate::graph::lemma_edge_list_graph_undirected(kept);
            lemma_first_root(restrict(g@, Set::<usize>::empty()), g@.len());
        }
        let r = g.largest_connected_component();
        self.data = r.data;
        proof {
            assert(self@ == r@);
            assert(is_largest_component_of(edge_list_graph(kept), self@));
        }
    }
}

/// The number of nodes among the first `n` of `adj` whose degree is `d`.
pub open spec fn degree_count(adj: Seq<Set<usize>>, d: int, n: nat) -> nat
    decreases n,
{
    if n == 0 {
        0
    } else {
        degree_count(adj, d, (n - 1) as nat) + if adj[n - 1].len() == d {
            1nat
        } else {
            0nat
        }
    }
}

/// The number of nodes counted below `n` is at most `n`.
proof fn lemma_degree_count_bound(adj: Seq<Set<usize>>, d: int, n: nat)
    ensures
        degree_count(adj, d, n) <= n,
    decreases n,
{
    if n > 0 {
        lemma_degree_count_bound(adj, d, (n - 1) as nat);
    }
}

impl Graph {
    /// For each degree from zero up to the largest, the number of nodes of
    /// that degree. The graph must have a node.
    pub fn degree_counts(&self) -> (r: Vec<usize>)
        requires
            self@.len() > 0,
            forall|u: int| 0 <= u < self@.len() ==> #[trigger] self@[u].len() < usize::MAX,
        ensures
            forall|u: int| 0 <= u < self@.len() ==> #[trigger] self@[u].len() < r@.len(),
            exists|u: int| 0 <= u < self@.len() && self@[u].len() == r@.len() - 1,
            forall|d: int| 0 <= d < r@.len() ==> #[trigger] r@[d] == degree_count(self@, d, self@.len()),
    {
        let n = self.data.len();
        let mut max_degree: usize = 0;
        let mut u: usize = 0;
        while u < n
            invariant
                n == self@.len(),
                u <= n,
                forall|w: int| 0 <= w < self@.len() ==> #[trigger] self@[w].len() < usize::MAX,
                forall|w: int| 0 <= w < u ==> #[trigger] self@[w].len() <= max_degree,
                u > 0 ==> exists|w: int| 0 <= w < u && self@[w].len() == max_degree,
            decreases n - u,
        {
            let d = self.data[u].len();
            assert(d == self@[u as int].len());
            if d > max_degree || u == 0 {
                max_degree = d;
            }
            u = u + 1;
        }
        let mut counts: Vec<usize> = Vec::new();
        let mut k: usize = 0;
        while k <= max_degree
            invariant
                k <= max_degree + 1,
                max_degree < usize::MAX,
                counts@.len() == k,
                forall|d: int| 0 <= d < k ==> #[trigger] counts@[d] == 0,
            decreases max_degree + 1 - k,
        {
            counts.push(0);
            k = k + 1;
        }
        let mut v: usize = 0;
        while v < n
            invariant
                n == self@.len(),
                v <= n,
                counts@.len() == max_degree + 1,
                forall|w: int| 0 <= w < n ==> #[trigger] self@[w].len() <= max_degree,
                forall|d: int| 0 <= d <= max_degree ==> #[trigger] counts@[d] == degree_count(self@, d, v as nat),
            decreases n - v,
        {
            let d = self.data[v].len();
            assert(d == self@[v as int].len());
            proof {
                lemma_degree_count_bound(self@, d as int, v as nat);
            }
            counts.set(d, counts[d] + 1);
            v = v + 1;
        }
        counts
    }
}

/// One if the neighbourhood of `w` has `d` nodes, else zero.
pub open spec fn has_degree(adj: Seq<Set<usize>>, w: int, d: int) -> int {
    if adj[w].len() == d {
        1
    } else {
        0
    }
}

/// Where only the neighbourhoods of the distinct nodes `u` and `x` change,
/// the counts of a degree change by what these two nodes take away and add.
proof fn lemma_degree_count_two(a: Seq<Set<usize>>, b: Seq<Set<usize>>, d: int, n: nat, u: int, x: int)
    requires
        a.len() == b.len(),
        n <= a.len(),
        u != x,
        0 <= u < a.len(),
        0 <= x < a.len(),
        forall|w: int| 0 <= w < a.len() && w != u && w != x ==> #[trigger] b[w] == a[w],
    ensures
        degree_count(b, d, n) + (if u < n { has_degree(a, u, d) } else { 0 }) + (if x < n {
            has_degree(a, x, d)
        } else {
            0
        }) == degree_count(a, d, n) + (if u < n { has_degree(b, u, d) } else { 0 }) + (if x < n {
            has_degree(b, x, d)
        } else {
            0
        }),
    decreases n,
{
    if n > 0 {
        lemma_degree_count_two(a, b, d, (n - 1) as nat, u, x);
    }
}

/// Two distinct nodes below `n` are counted with their degrees.
proof fn lemma_degree_count_at_least(a: Seq<Set<usize>>, d: int, n: nat, u: int, x: int)
    requires
        n <= a.len(),
        u != x,
        0 <= u < n,
        0 <= x < n,
    ensures
        degree_count(a, d, n) >= has_degree(a, u, d) + has_degree(a, x, d),
    decreases n,
{
    if n > 0 {
        if u == n - 1 || x == n - 1 {
            lemma_degree_count_one(a, d, (n - 1) as nat, if u == n - 1 { x } else { u });
        } else {
            lemma_degree_count_at_least(a, d, (n - 1) as nat, u, x);
        }
    }
}

/// A node below `n` is counted with its degree.
proof fn lemma_degree_count_one(a: Seq<Set<usize>>, d: int, n: nat, u: int)
    requires
        n <= a.len(),
        0 <= u < n,
    ensures
        degree_count(a, d, n) >= has_degree(a, u, d),
    decreases n,
{
    if u < n - 1 {
        lemma_degree_count_one(a, d, (n - 1) as nat, u);
    }
}

/// The draw takes the edge `u - v` away: `u` has degree `i`, and the count
/// of the degree of its neighbour `v` has reached its target.
pub open spec fn grid_step_taken(
    a: Seq<Set<usize>>,
    actual: Seq<usize>,
    target: Seq<usize>,
    i: int,
    u: usize,
    v: Option<usize>,
) -> bool {
    match v {
        Some(x) => a[u as int].len() == i && actual[a[x as int].len() as int] >= target[a[x as int].len() as int],
        None => false,
    }
}

/// One draw of the thinning of a grid towards degree targets: where `u` has
/// degree `i` and its neighbour `v` has a degree whose count `actual` has
/// reached its target, the edge `u - v` is taken away and the counts of the
/// two degrees move one down. `actual` holds the number of nodes of each
/// degree up to four; `v` is `None` exactly when `u` has no neighbour.
/// Returns whether the edge was taken away.
pub fn grid_thin_step(
    g: &mut Graph,
    actual: &mut Vec<usize>,
    target: &Vec<usize>,
    i: usize,
    u: usize,
    v: Option<usize>,
) -> (removed: bool)
    requires
        in_range(old(g)@),
        is_symmetric(old(g)@),
        old(g)@.len() + 2 <= usize::MAX,
        forall|w: int| 0 <= w < old(g)@.len() ==> !(#[trigger] old(g)@[w]).contains(w as usize),
        degrees_below(old(g)@, 5),
        old(actual)@.len() == 5,
        target@.len() == 5,
        forall|d: int| 0 <= d < 5 ==> #[trigger] old(actual)@[d] == degree_count(old(g)@, d, old(g)@.len()),
        2 <= i < 5,
        u < old(g)@.len(),
        v is None <==> old(g)@[u as int] == Set::<usize>::empty(),
        v matches Some(x) ==> old(g)@[u as int].contains(x),
    ensures
        removed == grid_step_taken(old(g)@, old(actual)@, target@, i as int, u, v),
        removed ==> match v {
            Some(x) => final(g)@ == without_edge(old(g)@, u, x) && forall|d: int|
                0 <= d < 5 ==> #[trigger] final(actual)@[d] == old(actual)@[d] - (if d == i { 1int } else { 0 }) - (if d
                    == old(g)@[x as int].len() { 1int } else { 0 }) + (if d == i - 1 { 1int } else { 0 }) + (if d
                    == old(g)@[x as int].len() - 1 { 1int } else { 0 }),
            None => false,
        },
        !removed ==> final(g)@ == old(g)@ && final(actual)@ == old(actual)@,
        final(actual)@.len() == 5,
        forall|d: int| 0 <= d < 5 ==> #[trigger] final(actual)@[d] == degree_count(final(g)@, d, final(g)@.len()),
{
    let du = g.get_degree(u);
    if du != i {
        return false;
    }
    match v {
        None => {
            proof {
                assert(old(g)@[u as int].len() == 0);
            }
            false
        },
        Some(x) => {
            let dv = g.get_degree(x);
            if actual[dv] < target[dv] {
                return false;
            }
            let ghost a = g@;
            let ghost c = actual@;
            proof {
                assert(x < a.len());
                assert(x != u);
                assert(a[x as int].contains(u));
                vstd::set::axiom_set_contains_len(a[x as int], u);
                lemma_degree_count_bound(a, du as int, a.len());
                lemma_degree_count_bound(a, dv as int, a.len());
                lemma_degree_count_bound(a, du - 1, a.len());
                lemma_degree_count_bound(a, dv - 1, a.len());
            }
            g.remove_edge(u, x);
            let ghost b = g@;
            proof {
                vstd::set::axiom_set_remove_len(a[u as int], x);
                vstd::set::axiom_set_remove_len(a[x as int], u);
                lemma_without_edge_contains(a, u, x, u as int, x);
                assert(b[u as int] == a[u as int].remove(x));
                assert(b[x as int] == a[x as int].remove(u));
                assert forall|d: int| 0 <= d < 5 implies degree_count(b, d, b.len()) == c[d] - (if d == du { 1int } else { 0 }) - (if d
                    == dv { 1int } else { 0 }) + (if d == du - 1 { 1int } else { 0 }) + (if d == dv - 1 { 1int } else { 0 }) by {
                    lemma_degree_count_two(a, b, d, a.len(), u as int, x as int);
                }
                lemma_degree_count_at_least(a, du as int, a.len(), u as int, x as int);
                lemma_degree_count_at_least(a, dv as int, a.len(), u as int, x as int);
            }
            actual.set(du, actual[du] - 1);
            actual.set(dv, actual[dv] - 1);
            actual.set(du - 1, actual[du - 1] + 1);
            actual.set(dv - 1, actual[dv - 1] + 1);
            true
        },
    }
}

} // verus!
