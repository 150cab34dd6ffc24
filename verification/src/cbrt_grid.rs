//! Grids doubled again and again, each copy joined to the grid it copies by about
//! the cube root of their size many bridges between facing sides.
use crate::generators::{integer_cbrt, is_cube_root};
use crate::random::shuffle_pairs;
use vstd::arithmetic::power2::{lemma_pow2_strictly_increases, lemma_pow2_unfold, pow2};
use vstd::prelude::*;

verus! {

/// A grid point.
pub type Point = (usize, usize);

/// An edge between two grid points.
pub type Edge = (Point, Point);

/// A side of a grid.
#[derive(Debug, Clone, Copy, PartialEq, Eq, Structural)]
pub enum Direction {
    Top,
    Right,
    Bottom,
    Left,
}

impl Direction {
    /// The facing side.
    pub fn opposite(&self) -> (d: Direction)
        ensures
            d == match *self {
                Direction::Top => Direction::Bottom,
                Direction::Right => Direction::Left,
                Direction::Bottom => Direction::Top,
                Direction::Left => Direction::Right,
            },
    {
        match self {
            Direction::Top => Direction::Bottom,
            Direction::Right => Direction::Left,
            Direction::Bottom => Direction::Top,
            Direction::Left => Direction::Right,
        }
    }

    /// The index of the side in a perimeter: top, right, bottom, left.
    pub fn index(&self) -> (i: usize)
        ensures
            i == side_index(*self),
    {
        match self {
            Direction::Top => 0,
            Direction::Right => 1,
            Direction::Bottom => 2,
            Direction::Left => 3,
        }
    }
}

/// The index of a side: top, right, bottom, left.
pub open spec fn side_index(d: Direction) -> int {
    match d {
        Direction::Top => 0,
        Direction::Right => 1,
        Direction::Bottom => 2,
        Direction::Left => 3,
    }
}

/// The point moved `length` steps towards the side.
pub open spec fn moved(p: Point, direction: Direction, length: nat) -> (int, int) {
    match direction {
        Direction::Top => (p.0 as int, p.1 + length),
        Direction::Right => (p.0 + length, p.1 as int),
        Direction::Bottom => (p.0 as int, p.1 - length),
        Direction::Left => (p.0 - length, p.1 as int),
    }
}

/// The move stays within the coordinates.
pub open spec fn fits(p: Point, direction: Direction, length: nat) -> bool {
    let q = moved(p, direction, length);
    0 <= q.0 <= usize::MAX && 0 <= q.1 <= usize::MAX
}

/// The point moved `length` steps towards the side.
pub fn translate_point(point: Point, direction: Direction, length: usize) -> (q: Point)
    requires
        fits(point, direction, length as nat),
    ensures
        q.0 == moved(point, direction, length as nat).0,
        q.1 == moved(point, direction, length as nat).1,
{
    match direction {
        Direction::Top => (point.0, point.1 + length),
        Direction::Right => (point.0 + length, point.1),
        Direction::Bottom => (point.0, point.1 - length),
        Direction::Left => (point.0 - length, point.1),
    }
}

/// Both ends of the edge moved `length` steps towards the side.
pub fn translate_edge(edge: Edge, direction: Direction, length: usize) -> (f: Edge)
    requires
        fits(edge.0, direction, length as nat),
        fits(edge.1, direction, length as nat),
    ensures
        f.0.0 == moved(edge.0, direction, length as nat).0,
        f.0.1 == moved(edge.0, direction, length as nat).1,
        f.1.0 == moved(edge.1, direction, length as nat).0,
        f.1.1 == moved(edge.1, direction, length as nat).1,
{
    (translate_point(edge.0, direction, length), translate_point(edge.1, direction, length))
}

/// `q` is `p` moved `length` steps towards the side.
pub open spec fn is_moved(p: Point, q: Point, direction: Direction, length: nat) -> bool {
    q.0 == moved(p, direction, length).0 && q.1 == moved(p, direction, length).1
}

/// Each point of a list moved.
fn translate_points(points: &Vec<Point>, direction: Direction, length: usize) -> (r: Vec<Point>)
    requires
        forall|i: int| 0 <= i < points@.len() ==> fits(#[trigger] points@[i], direction, length as nat),
    ensures
        r@.len() == points@.len(),
        forall|i: int| 0 <= i < points@.len() ==> is_moved(points@[i], #[trigger] r@[i], direction, length as nat),
{
    let mut r: Vec<Point> = Vec::new();
    let mut i: usize = 0;
    while i < points.len()
        invariant
            i <= points@.len(),
            r@.len() == i,
            forall|j: int| 0 <= j < points@.len() ==> fits(#[trigger] points@[j], direction, length as nat),
            forall|j: int| 0 <= j < i ==> is_moved(points@[j], #[trigger] r@[j], direction, length as nat),
        decreases points@.len() - i,
    {
        r.push(translate_point(points[i], direction, length));
        i = i + 1;
    }
    r
}

/// A grid as its edges, the points along each of its four sides (top,
/// right, bottom, left) and its number of nodes.
pub struct Grid {
    pub perimeter: Vec<Vec<Point>>,
    pub edges: Vec<Edge>,
    pub node_count: usize,
}

/// Every point of the grid can be moved.
pub open spec fn grid_fits(g: &Grid, direction: Direction, length: nat) -> bool {
    &&& forall|s: int, i: int|
        0 <= s < g.perimeter@.len() && 0 <= i < g.perimeter@[s]@.len() ==> fits(
            #[trigger] g.perimeter@[s]@[i],
            direction,
            length,
        )
    &&& forall|i: int|
        0 <= i < g.edges@.len() ==> fits((#[trigger] g.edges@[i]).0, direction, length) && fits(
            g.edges@[i].1,
            direction,
            length,
        )
}

impl Grid {
    /// A copy of the grid moved `length` steps towards the side.
    pub fn translate(&self, direction: Direction, length: usize) -> (t: Grid)
        requires
            grid_fits(self, direction, length as nat),
        ensures
            t.node_count == self.node_count,
            t.perimeter@.len() == self.perimeter@.len(),
            forall|s: int|
                0 <= s < self.perimeter@.len() ==> (#[trigger] t.perimeter@[s])@.len() == self.perimeter@[s]@.len(),
            forall|s: int, i: int|
                0 <= s < self.perimeter@.len() && 0 <= i < self.perimeter@[s]@.len() ==> is_moved(
                    self.perimeter@[s]@[i],
                    #[trigger] t.perimeter@[s]@[i],
                    direction,
                    length as nat,
                ),
            t.edges@.len() == self.edges@.len(),
            forall|i: int|
                0 <= i < self.edges@.len() ==> is_moved(self.edges@[i].0, (#[trigger] t.edges@[i]).0, direction, length as nat)
                    && is_moved(self.edges@[i].1, t.edges@[i].1, direction, length as nat),
    {
        let mut perimeter: Vec<Vec<Point>> = Vec::new();
        let mut s: usize = 0;
        while s < self.perimeter.len()
            invariant
                s <= self.perimeter@.len(),
                grid_fits(self, direction, length as nat),
                perimeter@.len() == s,
                forall|k: int| 0 <= k < s ==> (#[trigger] perimeter@[k])@.len() == self.perimeter@[k]@.len(),
                forall|k: int, i: int|
                    0 <= k < s && 0 <= i < self.perimeter@[k]@.len() ==> is_moved(
                        self.perimeter@[k]@[i],
                        #[trigger] perimeter@[k]@[i],
                        direction,
                        length as nat,
                    ),
            decreases self.perimeter@.len() - s,
        {
            let side = translate_points(&self.perimeter[s], direction, length);
            perimeter.push(side);
            s = s + 1;
        }
        let mut edges: Vec<Edge> = Vec::new();
        let mut i: usize = 0;
        while i < self.edges.len()
            invariant
                i <= self.edges@.len(),
                grid_fits(self, direction, length as nat),
                edges@.len() == i,
                forall|j: int|
                    0 <= j < i ==> is_moved(self.edges@[j].0, (#[trigger] edges@[j]).0, direction, length as nat)
                        && is_moved(self.edges@[j].1, edges@[j].1, direction, length as nat),
            decreases self.edges@.len() - i,
        {
            edges.push(translate_edge(self.edges[i], direction, length));
            i = i + 1;
        }
        Grid { perimeter, edges, node_count: self.node_count }
    }
}

/// `a` comes before `b` or equals it in lexicographic order.
pub open spec fn point_le(a: Point, b: Point) -> bool {
    a.0 < b.0 || (a.0 == b.0 && a.1 <= b.1)
}

/// `slice::sort_unstable` on a list of points: the same points, in
/// lexicographic order.
#[verifier::external_body]
pub(crate) fn sort_points(v: &mut Vec<Point>)
    ensures
        final(v)@.to_multiset() == old(v)@.to_multiset(),
        final(v)@.len() == old(v)@.len(),
        forall|i: int| 0 <= i < final(v)@.len() - 1 ==> point_le(#[trigger] final(v)@[i], final(v)@[i + 1]),
        forall|i: int, j: int| 0 <= i <= j < final(v)@.len() ==> point_le(final(v)@[i], final(v)@[j]),
{
    v.sort_unstable()
}

/// `c` is the least number whose cube is at least `m`.
pub open spec fn is_ceil_cube_root(m: nat, c: nat) -> bool {
    c * c * c >= m && (c == 0 || (c - 1) * (c - 1) * (c - 1) < m)
}

/// The least number whose cube is at least `m`.
pub fn ceil_cbrt(m: usize) -> (c: usize)
    ensures
        is_ceil_cube_root(m as nat, c as nat),
{
    let s = integer_cbrt(m);
    proof {
        assert(is_cube_root(m as nat, s as nat));
        assert(s * s * s <= m);
        assert(s * s <= m) by (nonlinear_arith)
            requires
                s * s * s <= m,
        ;
    }
    if s * s * s == m {
        proof {
            if s > 0 {
                assert((s - 1) * (s - 1) * (s - 1) < s * s * s) by (nonlinear_arith)
                    requires
                        s >= 1,
                ;
            }
        }
        s
    } else {
        proof {
            assert((s + 1) * (s + 1) * (s + 1) > m);
            assert(s + 1 <= usize::MAX) by {
                assert(s <= s * s * s || s == 0) by (nonlinear_arith);
                if s == usize::MAX {
                    assert(s * s * s >= 2 * s) by (nonlinear_arith)
                        requires
                            s >= 2,
                    ;
                }
            }
        }
        s + 1
    }
}

/// A copy of a list of points.
fn copy_points(a: &Vec<Point>) -> (r: Vec<Point>)
    ensures
        r@ == a@,
{
    let mut r: Vec<Point> = Vec::new();
    let mut i: usize = 0;
    while i < a.len()
        invariant
            i <= a@.len(),
            r@ == a@.subrange(0, i as int),
        decreases a@.len() - i,
    {
        r.push(a[i]);
        assert(a@.subrange(0, i as int + 1) =~= a@.subrange(0, i as int).push(a@[i as int]));
        i = i + 1;
    }
    assert(a@.subrange(0, a@.len() as int) =~= a@);
    r
}

/// The points of `a` followed by those of `b`.
fn concat_points(a: &Vec<Point>, b: &Vec<Point>) -> (r: Vec<Point>)
    ensures
        r@ == a@ + b@,
{
    let mut r = copy_points(a);
    let mut i: usize = 0;
    while i < b.len()
        invariant
            i <= b@.len(),
            r@ == a@ + b@.subrange(0, i as int),
        decreases b@.len() - i,
    {
        r.push(b[i]);
        assert(b@.subrange(0, i as int + 1) =~= b@.subrange(0, i as int).push(b@[i as int]));
        i = i + 1;
    }
    assert(b@.subrange(0, b@.len() as int) =~= b@);
    r
}

/// The sides of two grids side by side: the second to the right of or on top
/// of the first.
pub open spec fn joined_perimeters(p1: Seq<Seq<Point>>, p2: Seq<Seq<Point>>, direction: Direction) -> Seq<
    Seq<Point>,
> {
    if direction == Direction::Right {
        seq![p1[0] + p2[0], p2[1], p1[2] + p2[2], p1[3]]
    } else {
        seq![p2[0], p1[1] + p2[1], p1[2], p1[3] + p2[3]]
    }
}

/// The sides of a grid as sequences.
pub open spec fn sides(p: Seq<Vec<Point>>) -> Seq<Seq<Point>> {
    p.map_values(|v: Vec<Point>| v@)
}

/// The sides of the grid that `p2` bounds placed to the right of or on top
/// of the grid that `p1` bounds; the other directions are not supported.
pub fn join_perimeters(p1: &Vec<Vec<Point>>, p2: &Vec<Vec<Point>>, direction: Direction) -> (r: Vec<Vec<Point>>)
    requires
        p1@.len() == 4,
        p2@.len() == 4,
        direction == Direction::Right || direction == Direction::Top,
    ensures
        sides(r@) == joined_perimeters(sides(p1@), sides(p2@), direction),
{
    let mut r: Vec<Vec<Point>> = Vec::new();
    match direction {
        Direction::Right => {
            r.push(concat_points(&p1[0], &p2[0]));
            r.push(copy_points(&p2[1]));
            r.push(concat_points(&p1[2], &p2[2]));
            r.push(copy_points(&p1[3]));
        },
        _ => {
            r.push(copy_points(&p2[0]));
            r.push(concat_points(&p1[1], &p2[1]));
            r.push(copy_points(&p1[2]));
            r.push(concat_points(&p1[3], &p2[3]));
        },
    }
    assert(sides(r@) =~= joined_perimeters(sides(p1@), sides(p2@), direction));
    r
}

/// The `i`-th points of the two lists paired, as far as both reach.
fn zip_points(a: &Vec<Point>, b: &Vec<Point>) -> (r: Vec<Edge>)
    ensures
        r@.len() == if a@.len() <= b@.len() { a@.len() } else { b@.len() },
        forall|i: int| 0 <= i < r@.len() ==> #[trigger] r@[i] == (a@[i], b@[i]),
{
    let mut r: Vec<Edge> = Vec::new();
    let mut i: usize = 0;
    while i < a.len() && i < b.len()
        invariant
            i <= a@.len(),
            i <= b@.len(),
            r@.len() == i,
            forall|j: int| 0 <= j < i ==> #[trigger] r@[j] == (a@[j], b@[j]),
        decreases a@.len() - i,
    {
        r.push((a[i], b[i]));
        i = i + 1;
    }
    r
}

proof fn lemma_prefix_sub_multiset(s: Seq<Point>, m: int)
    requires
        0 <= m <= s.len(),
    ensures
        s.subrange(0, m).to_multiset().subset_of(s.to_multiset()),
{
    vstd::seq_lib::lemma_multiset_commutative(s.subrange(0, m), s.subrange(m, s.len() as int));
    assert(s.subrange(0, m) + s.subrange(m, s.len() as int) =~= s);
}

/// Up to `count` points of `side`, drawn at random and sorted.
fn pick_sorted(side: &Vec<Point>, count: usize) -> (r: Vec<Point>)
    ensures
        r@.len() == if count <= side@.len() { count as int } else { side@.len() as int },
        r@.to_multiset().subset_of(side@.to_multiset()),
        forall|i: int| 0 <= i < r@.len() - 1 ==> point_le(#[trigger] r@[i], r@[i + 1]),
{
    let mut v = copy_points(side);
    shuffle_pairs(&mut v);
    let ghost shuffled = v@;
    v.truncate(count);
    proof {
        if count <= shuffled.len() {
            lemma_prefix_sub_multiset(shuffled, count as int);
        }
    }
    sort_points(&mut v);
    v
}

/// `bridges` pair up, in order, the points `b1` and `b2`, drawn from the
/// sides `s1` and `s2`, as many from each as the least number `c` whose cube
/// reaches `total` (or the whole side if it is shorter), each sorted.
pub open spec fn is_bridging(
    s1: Seq<Point>,
    s2: Seq<Point>,
    total: nat,
    bridges: Seq<Edge>,
    c: nat,
    b1: Seq<Point>,
    b2: Seq<Point>,
) -> bool {
    &&& is_ceil_cube_root(total, c)
    &&& b1.len() == if c <= s1.len() { c as int } else { s1.len() as int }
    &&& b2.len() == if c <= s2.len() { c as int } else { s2.len() as int }
    &&& b1.to_multiset().subset_of(s1.to_multiset())
    &&& b2.to_multiset().subset_of(s2.to_multiset())
    &&& forall|i: int| 0 <= i < b1.len() - 1 ==> point_le(#[trigger] b1[i], b1[i + 1])
    &&& forall|i: int| 0 <= i < b2.len() - 1 ==> point_le(#[trigger] b2[i], b2[i + 1])
    &&& bridges.len() == if b1.len() <= b2.len() { b1.len() } else { b2.len() }
    &&& forall|i: int| 0 <= i < bridges.len() ==> #[trigger] bridges[i] == (b1[i], b2[i])
}

impl Grid {
    /// Joins `other`, lying beyond the side `side` of this grid, to it: about
    /// the cube root of their joint size many points of the facing sides,
    /// drawn at random and sorted, are paired up by bridges. The two grids
    /// give up their edges and sides to the joint grid.
    pub fn cbrt_join(&mut self, other: &mut Grid, side: Direction) -> (joint: Grid)
        requires
            old(self).perimeter@.len() == 4,
            old(other).perimeter@.len() == 4,
            side == Direction::Right || side == Direction::Top,
            old(self).node_count + old(other).node_count <= usize::MAX,
        ensures
            joint.node_count == old(self).node_count + old(other).node_count,
            sides(joint.perimeter@) == joined_perimeters(sides(old(self).perimeter@), sides(old(other).perimeter@), side),
            joint.edges@.len() >= old(self).edges@.len() + old(other).edges@.len(),
            joint.edges@.subrange(0, (old(self).edges@.len() + old(other).edges@.len()) as int) == old(self).edges@ + old(
                other,
            ).edges@,
            ({
                let s1 = old(self).perimeter@[side_index(side)]@;
                let s2 = old(other).perimeter@[side_index(side) + 2 - 4 * (side_index(side) / 2)]@;
                let bridges = joint.edges@.subrange(
                    (old(self).edges@.len() + old(other).edges@.len()) as int,
                    joint.edges@.len() as int,
                );
                exists|c: nat, b1: Seq<Point>, b2: Seq<Point>|
                    #[trigger] is_bridging(s1, s2, (old(self).node_count + old(other).node_count) as nat, bridges, c, b1, b2)
            }),
            final(self).edges@.len() == 0,
            final(self).perimeter@.len() == 0,
            final(other).edges@.len() == 0,
            final(other).perimeter@.len() == 0,
    {
        let ghost l1 = self.edges@.len();
        let ghost l2 = other.edges@.len();
        let ghost e1 = self.edges@;
        let ghost e2 = other.edges@;
        let opposite = side.opposite();
        let total = self.node_count + other.node_count;
        let c = ceil_cbrt(total);
        let join_side_1 = pick_sorted(&self.perimeter[side.index()], c);
        let join_side_2 = pick_sorted(&other.perimeter[opposite.index()], c);
        let mut bridges = zip_points(&join_side_1, &join_side_2);
        let ghost bv = bridges@;
        let mut new_edges: Vec<Edge> = Vec::new();
        new_edges.append(&mut self.edges);
        new_edges.append(&mut other.edges);
        new_edges.append(&mut bridges);
        let perimeter = join_perimeters(&self.perimeter, &other.perimeter, side);
        self.perimeter = Vec::new();
        other.perimeter = Vec::new();
        proof {
            assert(new_edges@ == e1 + e2 + bv);
            assert(new_edges@.subrange(0, (l1 + l2) as int) =~= e1 + e2);
            assert(new_edges@.subrange((l1 + l2) as int, new_edges@.len() as int) =~= bv);
            assert(side_index(opposite) == side_index(side) + 2 - 4 * (side_index(side) / 2));
        }
        let joint = Grid { perimeter, edges: new_edges, node_count: total };
        proof {
            let s1 = old(self).perimeter@[side_index(side)]@;
            let s2 = old(other).perimeter@[side_index(side) + 2 - 4 * (side_index(side) / 2)]@;
            let bridges = joint.edges@.subrange(
                (old(self).edges@.len() + old(other).edges@.len()) as int,
                joint.edges@.len() as int,
            );
            assert(bridges == bv);
            assert(is_bridging(
                s1,
                s2,
                (old(self).node_count + old(other).node_count) as nat,
                bridges,
                c as nat,
                join_side_1@,
                join_side_2@,
            ));
        }
        joint
    }
}

/// Every point of the grid lies in `[0, bx) x [0, by)`.
pub open spec fn grid_within(g: &Grid, bx: nat, by: nat) -> bool {
    &&& forall|s: int, i: int|
        0 <= s < g.perimeter@.len() && 0 <= i < g.perimeter@[s]@.len() ==> (#[trigger] g.perimeter@[s]@[i]).0 < bx
            && g.perimeter@[s]@[i].1 < by
    &&& forall|i: int|
        0 <= i < g.edges@.len() ==> (#[trigger] g.edges@[i]).0.0 < bx && g.edges@[i].0.1 < by && g.edges@[i].1.0 < bx
            && g.edges@[i].1.1 < by
}

proof fn lemma_sub_multiset_member(b: Seq<Point>, s: Seq<Point>, i: int)
    requires
        b.to_multiset().subset_of(s.to_multiset()),
        0 <= i < b.len(),
    ensures
        s.contains(b[i]),
{
    vstd::seq_lib::to_multiset_contains(b, b[i]);
    vstd::seq_lib::to_multiset_contains(s, b[i]);
    assert(b.contains(b[i]));
}

/// Joining two grids that lie in the same box gives a grid in that box.
proof fn lemma_join_within(
    p1: Seq<Vec<Point>>,
    p2: Seq<Vec<Point>>,
    e1: Seq<Edge>,
    e2: Seq<Edge>,
    joint: &Grid,
    side: Direction,
    n1: nat,
    n2: nat,
    bx: nat,
    by: nat,
)
    requires
        p1.len() == 4,
        p2.len() == 4,
        forall|s: int, i: int| 0 <= s < 4 && 0 <= i < p1[s]@.len() ==> (#[trigger] p1[s]@[i]).0 < bx && p1[s]@[i].1 < by,
        forall|s: int, i: int| 0 <= s < 4 && 0 <= i < p2[s]@.len() ==> (#[trigger] p2[s]@[i]).0 < bx && p2[s]@[i].1 < by,
        forall|i: int|
            0 <= i < e1.len() ==> (#[trigger] e1[i]).0.0 < bx && e1[i].0.1 < by && e1[i].1.0 < bx && e1[i].1.1 < by,
        forall|i: int|
            0 <= i < e2.len() ==> (#[trigger] e2[i]).0.0 < bx && e2[i].0.1 < by && e2[i].1.0 < bx && e2[i].1.1 < by,
        side == Direction::Right || side == Direction::Top,
        sides(joint.perimeter@) == joined_perimeters(sides(p1), sides(p2), side),
        joint.edges@.len() >= e1.len() + e2.len(),
        joint.edges@.subrange(0, (e1.len() + e2.len()) as int) == e1 + e2,
        ({
            let s1 = p1[side_index(side)]@;
            let s2 = p2[side_index(side) + 2 - 4 * (side_index(side) / 2)]@;
            let bridges = joint.edges@.subrange((e1.len() + e2.len()) as int, joint.edges@.len() as int);
            exists|c: nat, b1: Seq<Point>, b2: Seq<Point>| #[trigger] is_bridging(s1, s2, n1 + n2, bridges, c, b1, b2)
        }),
    ensures
        grid_within(joint, bx, by),
        joint.perimeter@.len() == 4,
{
    let sj = sides(joint.perimeter@);
    assert(sj.len() == 4);
    assert forall|s: int, i: int| 0 <= s < joint.perimeter@.len() && 0 <= i < joint.perimeter@[s]@.len() implies (
    #[trigger] joint.perimeter@[s]@[i]).0 < bx && joint.perimeter@[s]@[i].1 < by by {
        assert(sj[s] == joint.perimeter@[s]@);
        let q = joint.perimeter@[s]@[i];
        if side == Direction::Right {
            if s == 0 || s == 2 {
                if i < p1[s]@.len() {
                    assert(q == p1[s]@[i]);
                } else {
                    assert(q == p2[s]@[i - p1[s]@.len()]);
                }
            } else if s == 1 {
                assert(q == p2[1]@[i]);
            } else {
                assert(q == p1[3]@[i]);
            }
        } else {
            if s == 1 || s == 3 {
                if i < p1[s]@.len() {
                    assert(q == p1[s]@[i]);
                } else {
                    assert(q == p2[s]@[i - p1[s]@.len()]);
                }
            } else if s == 0 {
                assert(q == p2[0]@[i]);
            } else {
                assert(q == p1[2]@[i]);
            }
        }
    }
    let l = (e1.len() + e2.len()) as int;
    let s1 = p1[side_index(side)]@;
    let s2 = p2[side_index(side) + 2 - 4 * (side_index(side) / 2)]@;
    let bridges = joint.edges@.subrange(l, joint.edges@.len() as int);
    let (c, b1, b2) = choose|c: nat, b1: Seq<Point>, b2: Seq<Point>| #[trigger] is_bridging(
        s1,
        s2,
        n1 + n2,
        bridges,
        c,
        b1,
        b2,
    );
    assert forall|i: int| 0 <= i < joint.edges@.len() implies (#[trigger] joint.edges@[i]).0.0 < bx
        && joint.edges@[i].0.1 < by && joint.edges@[i].1.0 < bx && joint.edges@[i].1.1 < by by {
        if i < l {
            assert(joint.edges@[i] == joint.edges@.subrange(0, l)[i]);
            if i < e1.len() {
                assert((e1 + e2)[i] == e1[i]);
            } else {
                assert((e1 + e2)[i] == e2[i - e1.len()]);
            }
        } else {
            let t = i - l;
            assert(joint.edges@[i] == bridges[t]);
            assert(bridges[t] == (b1[t], b2[t]));
            lemma_sub_multiset_member(b1, s1, t);
            lemma_sub_multiset_member(b2, s2, t);
            let k1 = choose|k: int| 0 <= k < s1.len() && s1[k] == b1[t];
            let k2 = choose|k: int| 0 <= k < s2.len() && s2[k] == b2[t];
            assert(p1[side_index(side)]@[k1] == b1[t]);
            assert(p2[side_index(side) + 2 - 4 * (side_index(side) / 2)]@[k2] == b2[t]);
        }
    }
}

proof fn lemma_translated_within(g: &Grid, t: &Grid, direction: Direction, length: nat, bx: nat, by: nat)
    requires
        grid_within(g, bx, by),
        t.perimeter@.len() == g.perimeter@.len(),
        forall|s: int| 0 <= s < g.perimeter@.len() ==> (#[trigger] t.perimeter@[s])@.len() == g.perimeter@[s]@.len(),
        forall|s: int, i: int|
            0 <= s < g.perimeter@.len() && 0 <= i < g.perimeter@[s]@.len() ==> is_moved(
                g.perimeter@[s]@[i],
                #[trigger] t.perimeter@[s]@[i],
                direction,
                length,
            ),
        t.edges@.len() == g.edges@.len(),
        forall|i: int|
            0 <= i < g.edges@.len() ==> is_moved(g.edges@[i].0, (#[trigger] t.edges@[i]).0, direction, length)
                && is_moved(g.edges@[i].1, t.edges@[i].1, direction, length),
        direction == Direction::Top || direction == Direction::Right,
    ensures
        direction == Direction::Top ==> grid_within(t, bx, by + length),
        direction == Direction::Right ==> grid_within(t, bx + length, by),
{
    assert forall|s: int, i: int| 0 <= s < t.perimeter@.len() && 0 <= i < t.perimeter@[s]@.len() implies (
    #[trigger] t.perimeter@[s]@[i]).0 < bx + length && t.perimeter@[s]@[i].1 < by + length by {
        assert(is_moved(g.perimeter@[s]@[i], t.perimeter@[s]@[i], direction, length));
    }
    assert forall|i: int| 0 <= i < t.edges@.len() implies (#[trigger] t.edges@[i]).0.0 < bx + length
        && t.edges@[i].0.1 < by + length && t.edges@[i].1.0 < bx + length && t.edges@[i].1.1 < by + length by {
        assert(is_moved(g.edges@[i].0, t.edges@[i].0, direction, length));
        assert(is_moved(g.edges@[i].1, t.edges@[i].1, direction, length));
    }
    if direction == Direction::Top {
        assert forall|s: int, i: int| 0 <= s < t.perimeter@.len() && 0 <= i < t.perimeter@[s]@.len() implies (
        #[trigger] t.perimeter@[s]@[i]).0 < bx && t.perimeter@[s]@[i].1 < by + length by {
            assert(is_moved(g.perimeter@[s]@[i], t.perimeter@[s]@[i], direction, length));
        }
        assert forall|i: int| 0 <= i < t.edges@.len() implies (#[trigger] t.edges@[i]).0.0 < bx && t.edges@[i].0.1
            < by + length && t.edges@[i].1.0 < bx && t.edges@[i].1.1 < by + length by {
            assert(is_moved(g.edges@[i].0, t.edges@[i].0, direction, length));
            assert(is_moved(g.edges@[i].1, t.edges@[i].1, direction, length));
        }
    } else {
        assert forall|s: int, i: int| 0 <= s < t.perimeter@.len() && 0 <= i < t.perimeter@[s]@.len() implies (
        #[trigger] t.perimeter@[s]@[i]).0 < bx + length && t.perimeter@[s]@[i].1 < by by {
            assert(is_moved(g.perimeter@[s]@[i], t.perimeter@[s]@[i], direction, length));
        }
        assert forall|i: int| 0 <= i < t.edges@.len() implies (#[trigger] t.edges@[i]).0.0 < bx + length
            && t.edges@[i].0.1 < by && t.edges@[i].1.0 < bx + length && t.edges@[i].1.1 < by by {
            assert(is_moved(g.edges@[i].0, t.edges@[i].0, direction, length));
            assert(is_moved(g.edges@[i].1, t.edges@[i].1, direction, length));
        }
    }
}

/// The least number whose cube is at least `m`.
pub open spec fn ceil_cube_root(m: nat) -> nat {
    choose|c: nat| is_ceil_cube_root(m, c)
}

/// The smaller of two numbers.
pub open spec fn min_nat(a: nat, b: nat) -> nat {
    if a <= b {
        a
    } else {
        b
    }
}

/// A number whose cube is the least to reach `m` is `ceil_cube_root(m)`.
pub proof fn lemma_ceil_cube_root_unique(m: nat, c: nat)
    requires
        is_ceil_cube_root(m, c),
    ensures
        c == ceil_cube_root(m),
{
    let d = ceil_cube_root(m);
    assert(is_ceil_cube_root(m, d));
    if c < d {
        assert(c * c * c <= (d - 1) * (d - 1) * (d - 1)) by (nonlinear_arith)
            requires
                c <= d - 1,
                c >= 0,
        ;
    } else if d < c {
        assert(d * d * d <= (c - 1) * (c - 1) * (c - 1)) by (nonlinear_arith)
            requires
                d <= c - 1,
                d >= 0,
        ;
    }
}

/// The number of edges of `build_cbrt_grid(k)`: each round doubles a grid
/// of `4^i` nodes whose sides hold `2^i` points, upwards and then to the
/// right, and each join adds as many bridges as the cube root of the joint
/// size (rounded up) or the facing sides allow.
pub open spec fn cbrt_grid_edge_count(k: nat) -> nat
    decreases k,
{
    if k == 0 {
        0
    } else {
        let i = (k - 1) as nat;
        let s = pow2(i);
        let n = pow2(2 * i);
        2 * (2 * cbrt_grid_edge_count(i) + min_nat(ceil_cube_root(2 * n), s)) + min_nat(
            ceil_cube_root(4 * n),
            2 * s,
        )
    }
}

/// A join adds as many edges as the cube root of the joint size (rounded
/// up) or the shorter facing side allows.
proof fn lemma_join_count(
    p1: Seq<Vec<Point>>,
    p2: Seq<Vec<Point>>,
    e1: Seq<Edge>,
    e2: Seq<Edge>,
    joint: &Grid,
    side: Direction,
    n1: nat,
    n2: nat,
)
    requires
        joint.edges@.len() >= e1.len() + e2.len(),
        ({
            let s1 = p1[side_index(side)]@;
            let s2 = p2[side_index(side) + 2 - 4 * (side_index(side) / 2)]@;
            let bridges = joint.edges@.subrange((e1.len() + e2.len()) as int, joint.edges@.len() as int);
            exists|c: nat, b1: Seq<Point>, b2: Seq<Point>| #[trigger] is_bridging(s1, s2, n1 + n2, bridges, c, b1, b2)
        }),
    ensures
        joint.edges@.len() == e1.len() + e2.len() + min_nat(
            ceil_cube_root(n1 + n2),
            min_nat(
                p1[side_index(side)]@.len(),
                p2[side_index(side) + 2 - 4 * (side_index(side) / 2)]@.len(),
            ),
        ),
{
    let s1 = p1[side_index(side)]@;
    let s2 = p2[side_index(side) + 2 - 4 * (side_index(side) / 2)]@;
    let bridges = joint.edges@.subrange((e1.len() + e2.len()) as int, joint.edges@.len() as int);
    let (c, b1, b2) = choose|c: nat, b1: Seq<Point>, b2: Seq<Point>| #[trigger] is_bridging(
        s1,
        s2,
        n1 + n2,
        bridges,
        c,
        b1,
        b2,
    );
    lemma_ceil_cube_root_unique(n1 + n2, c);
}

/// One doubling step: a copy of `g` is moved `length` steps towards `side`
/// and joined to `g`.
fn double_towards(g: Grid, side: Direction, length: usize) -> (r: Grid)
    requires
        side == Direction::Top || side == Direction::Right,
        g.perimeter@.len() == 4,
        side == Direction::Top ==> grid_within(&g, length as nat, length as nat),
        side == Direction::Right ==> grid_within(&g, length as nat, 2 * length as nat),
        2 * length <= usize::MAX,
        2 * g.node_count <= usize::MAX,
    ensures
        r.perimeter@.len() == 4,
        r.node_count == 2 * g.node_count,
        side == Direction::Top ==> grid_within(&r, length as nat, 2 * length as nat),
        side == Direction::Right ==> grid_within(&r, 2 * length as nat, 2 * length as nat),
        side == Direction::Top ==> r.perimeter@[0]@.len() == g.perimeter@[0]@.len() && r.perimeter@[1]@.len() == 2
            * g.perimeter@[1]@.len() && r.perimeter@[2]@.len() == g.perimeter@[2]@.len() && r.perimeter@[3]@.len()
            == 2 * g.perimeter@[3]@.len(),
        side == Direction::Right ==> r.perimeter@[0]@.len() == 2 * g.perimeter@[0]@.len() && r.perimeter@[1]@.len()
            == g.perimeter@[1]@.len() && r.perimeter@[2]@.len() == 2 * g.perimeter@[2]@.len()
            && r.perimeter@[3]@.len() == g.perimeter@[3]@.len(),
        r.edges@.len() == 2 * g.edges@.len() + min_nat(
            ceil_cube_root(2 * g.node_count as nat),
            min_nat(
                g.perimeter@[side_index(side)]@.len(),
                g.perimeter@[side_index(side) + 2 - 4 * (side_index(side) / 2)]@.len(),
            ),
        ),
{
    let mut g = g;
    let ghost bx = if side == Direction::Top { length as nat } else { 2 * length as nat };
    let ghost by = 2 * length as nat;
    proof {
        if side == Direction::Top {
            assert(grid_within(&g, length as nat, length as nat));
        } else {
            assert(grid_within(&g, length as nat, 2 * length as nat));
        }
    }
    let mut g_new = g.translate(side, length);
    proof {
        if side == Direction::Top {
            lemma_translated_within(&g, &g_new, side, length as nat, length as nat, length as nat);
        } else {
            lemma_translated_within(&g, &g_new, side, length as nat, length as nat, 2 * length as nat);
        }
    }
    let ghost p1 = g.perimeter@;
    let ghost p2 = g_new.perimeter@;
    let ghost e1 = g.edges@;
    let ghost e2 = g_new.edges@;
    let ghost n1 = g.node_count as nat;
    let ghost n2 = g_new.node_count as nat;
    let r = g.cbrt_join(&mut g_new, side);
    proof {
        lemma_join_within(p1, p2, e1, e2, &r, side, n1, n2, bx, by);
        lemma_join_count(p1, p2, e1, e2, &r, side, n1, n2);
        assert(sides(r.perimeter@)[0] == r.perimeter@[0]@);
        assert(sides(r.perimeter@)[1] == r.perimeter@[1]@);
        assert(sides(r.perimeter@)[2] == r.perimeter@[2]@);
        assert(sides(r.perimeter@)[3] == r.perimeter@[3]@);
        assert(sides(p1)[0] == p1[0]@ && sides(p1)[1] == p1[1]@ && sides(p1)[2] == p1[2]@ && sides(p1)[3] == p1[3]@);
        assert(sides(p2)[0] == p2[0]@ && sides(p2)[1] == p2[1]@ && sides(p2)[2] == p2[2]@ && sides(p2)[3] == p2[3]@);
    }
    r
}

/// The edges of the grid grown from a single point by `num_doubles` rounds,
/// each doubling it upwards and then to the right, the copies moved by
/// `2^(i + 10)` in round `i`. Every end point lies below `2^(num_doubles + 10)`
/// in both coordinates, and there are `cbrt_grid_edge_count(num_doubles)`
/// edges.
pub fn build_cbrt_grid(num_doubles: usize) -> (edges: Vec<Edge>)
    requires
        pow2((num_doubles + 10) as nat) <= usize::MAX,
        pow2((2 * num_doubles) as nat) <= usize::MAX,
    ensures
        forall|i: int|
            0 <= i < edges@.len() ==> (#[trigger] edges@[i]).0.0 < pow2((num_doubles + 10) as nat) && edges@[i].0.1
                < pow2((num_doubles + 10) as nat) && edges@[i].1.0 < pow2((num_doubles + 10) as nat)
                && edges@[i].1.1 < pow2((num_doubles + 10) as nat),
        edges@.len() == cbrt_grid_edge_count(num_doubles as nat),
{
    let p: Point = (0, 0);
    let mut perimeter: Vec<Vec<Point>> = Vec::new();
    let mut k: usize = 0;
    while k < 4
        invariant
            k <= 4,
            perimeter@.len() == k,
            forall|s: int| 0 <= s < k ==> (#[trigger] perimeter@[s])@ == seq![p],
        decreases 4 - k,
    {
        let mut side: Vec<Point> = Vec::new();
        side.push(p);
        perimeter.push(side);
        k = k + 1;
    }
    let mut g = Grid { perimeter, edges: Vec::new(), node_count: 1 };
    let mut step: usize = 1024;
    let mut i: usize = 0;
    proof {
        vstd::arithmetic::power2::lemma2_to64();
    }
    while i < num_doubles
        invariant
            i <= num_doubles,
            step == pow2((i + 10) as nat),
            g.node_count == pow2((2 * i) as nat),
            g.perimeter@.len() == 4,
            forall|k: int| 0 <= k < 4 ==> (#[trigger] g.perimeter@[k])@.len() == pow2(i as nat),
            g.edges@.len() == cbrt_grid_edge_count(i as nat),
            grid_within(&g, step as nat, step as nat),
            pow2((num_doubles + 10) as nat) <= usize::MAX,
            pow2((2 * num_doubles) as nat) <= usize::MAX,
        decreases num_doubles - i,
    {
        proof {
            lemma_pow2_unfold((i + 11) as nat);
            lemma_pow2_unfold((2 * i + 1) as nat);
            lemma_pow2_unfold((2 * i + 2) as nat);
            if i + 11 < num_doubles + 10 {
                lemma_pow2_strictly_increases((i + 11) as nat, (num_doubles + 10) as nat);
            }
            if 2 * i + 2 < 2 * num_doubles {
                lemma_pow2_strictly_increases((2 * i + 2) as nat, (2 * num_doubles) as nat);
            }
        }
        let ghost e0 = g.edges@.len();
        let ghost n0 = g.node_count as nat;
        g = double_towards(g, Direction::Top, step);
        proof {
            assert(g.node_count == 2 * n0);
        }
        g = double_towards(g, Direction::Right, step);
        proof {
            lemma_pow2_unfold((i + 1) as nat);
            assert(pow2((i + 1) as nat) == 2 * pow2(i as nat));
            assert(cbrt_grid_edge_count((i + 1) as nat) == 2 * (2 * e0 + min_nat(ceil_cube_root(2 * n0), pow2(i as nat)))
                + min_nat(ceil_cube_root(4 * n0), 2 * pow2(i as nat)));
            assert(2 * (2 * n0) == 4 * n0);
        }
        step = step * 2;
        i = i + 1;
    }
    proof {
        assert forall|j: int| 0 <= j < g.edges@.len() implies (#[trigger] g.edges@[j]).0.0 < step && g.edges@[j].0.1
            < step && g.edges@[j].1.0 < step && g.edges@[j].1.1 < step by {}
    }
    g.edges
}

} // verus!
