//! Grids of grids: a coarse grid some of whose cells hold finer grids.
use crate::cbrt_grid::{point_le, Edge, Point};
use crate::random::sample_distinct;
use vstd::prelude::*;

verus! {

/// `e` joins a point of the lattice with spacing `stride` from `bl` to its
/// right or upper neighbour, both within the box from `bl` to `tr`.
pub open spec fn is_grid_edge(e: Edge, bl: Point, tr: Point, stride: nat) -> bool {
    exists|a: nat, b: nat|
        #![trigger a * stride, b * stride]
        e.0.0 == bl.0 + a * stride && e.0.1 == bl.1 + b * stride && e.0.0 <= tr.0 && e.0.1 <= tr.1 && ((e.1.0
            == e.0.0 + stride && e.1.1 == e.0.1 && e.1.0 <= tr.0) || (e.1.1 == e.0.1 + stride && e.1.0 == e.0.0
            && e.1.1 <= tr.1))
}

/// The edges of the grid with spacing `stride` spanning the box from
/// `bottom_left` to `top_right`, whose sides must be multiples of `stride`.
pub fn get_grid(bottom_left: Point, top_right: Point, stride: usize) -> (edges: Vec<Edge>)
    requires
        stride > 0,
        bottom_left.0 <= top_right.0,
        bottom_left.1 <= top_right.1,
        (top_right.0 - bottom_left.0) % (stride as int) == 0,
        (top_right.1 - bottom_left.1) % (stride as int) == 0,
        top_right.0 + stride <= usize::MAX,
        top_right.1 + stride <= usize::MAX,
    ensures
        edges@.no_duplicates(),
        forall|e: Edge| #[trigger] edges@.contains(e) <==> is_grid_edge(e, bottom_left, top_right, stride as nat),
{
    let mut edges: Vec<Edge> = Vec::new();
    let mut i = bottom_left.0;
    let ghost mut a: nat = 0;
    while i <= top_right.0
        invariant
            stride > 0,
            bottom_left.0 <= top_right.0,
            bottom_left.1 <= top_right.1,
            top_right.0 + stride <= usize::MAX,
            top_right.1 + stride <= usize::MAX,
            i == bottom_left.0 + a * stride,
            i <= top_right.0 + stride,
            edges@.no_duplicates(),
            forall|e: Edge| #[trigger] edges@.contains(e) <==> (is_grid_edge(e, bottom_left, top_right, stride as nat)
                && e.0.0 < i),
        decreases top_right.0 + stride - i,
    {
        let mut j = bottom_left.1;
        let ghost mut b: nat = 0;
        while j <= top_right.1
            invariant
                stride > 0,
                i <= top_right.0,
                bottom_left.1 <= top_right.1,
                top_right.0 + stride <= usize::MAX,
                top_right.1 + stride <= usize::MAX,
                i == bottom_left.0 + a * stride,
                j == bottom_left.1 + b * stride,
                j <= top_right.1 + stride,
                edges@.no_duplicates(),
                forall|e: Edge| #[trigger] edges@.contains(e) <==> (is_grid_edge(e, bottom_left, top_right, stride as nat)
                    && (e.0.0 < i || (e.0.0 == i && e.0.1 < j))),
            decreases top_right.1 + stride - j,
        {
            let ghost e0 = edges@;
            if i + stride <= top_right.0 {
                edges.push(((i, j), (i + stride, j)));
            }
            let ghost e1 = edges@;
            if j + stride <= top_right.1 {
                edges.push(((i, j), (i, j + stride)));
            }
            proof {
                assert forall|e: Edge| #[trigger] edges@.contains(e) <==> (is_grid_edge(
                    e,
                    bottom_left,
                    top_right,
                    stride as nat,
                ) && (e.0.0 < i || (e.0.0 == i && e.0.1 < j + stride))) by {
                    if e.0.0 == i && j <= e.0.1 < j + stride && is_grid_edge(e, bottom_left, top_right, stride as nat) {
                        let (a2, b2) = choose|a2: nat, b2: nat|
                            #![trigger a2 * stride, b2 * stride]
                            e.0.0 == bottom_left.0 + a2 * stride && e.0.1 == bottom_left.1 + b2 * stride && e.0.0
                                <= top_right.0 && e.0.1 <= top_right.1 && ((e.1.0 == e.0.0 + stride && e.1.1 == e.0.1
                                && e.1.0 <= top_right.0) || (e.1.1 == e.0.1 + stride && e.1.0 == e.0.0 && e.1.1
                                <= top_right.1));
                        assert(b2 == b) by {
                            if b2 < b {
                                assert(b2 * stride + stride <= b * stride) by (nonlinear_arith)
                                    requires
                                        b2 < b,
                            ;
                            } else if b2 > b {
                                assert(b * stride + stride <= b2 * stride) by (nonlinear_arith)
                                    requires
                                        b < b2,
                            ;
                            }
                        }
                        assert(e.0.1 == j);
                        if e.1.0 == e.0.0 + stride && e.1.1 == e.0.1 && e.1.0 <= top_right.0 {
                            assert(e == ((i, j), ((i + stride) as usize, j)));
                            assert(e1[e1.len() - 1] == e);
                            assert(edges@.contains(e)) by {
                                if e1 != edges@ {
                                    assert(edges@[e1.len() - 1] == e);
                                }
                            }
                        } else {
                            assert(e == ((i, j), (i, (j + stride) as usize)));
                            assert(edges@[edges@.len() - 1] == e);
                        }
                    }
                    if edges@.contains(e) && !e0.contains(e) {
                        assert(e.0 == (i, j));
                        assert(is_grid_edge(e, bottom_left, top_right, stride as nat)) by {
                            let sn = stride as nat;
                            assert(e.0.0 == bottom_left.0 + a * sn && e.0.1 == bottom_left.1 + b * sn);
                            if e1 != e0 && e == e1[e1.len() - 1] {
                                assert(e == ((i, j), ((i + stride) as usize, j)));
                            } else {
                                assert(e == edges@[edges@.len() - 1]);
                                assert(e == ((i, j), (i, (j + stride) as usize)));
                            }
                        }
                    }
                    if e0.contains(e) {
                        assert(edges@.contains(e)) by {
                            let k = choose|k: int| 0 <= k < e0.len() && e0[k] == e;
                            assert(edges@[k] == e);
                        }
                    }
                }
                assert(edges@.no_duplicates()) by {
                    assert forall|x: int, y: int| 0 <= x < y < edges@.len() implies edges@[x] != edges@[y] by {
                        if y >= e0.len() && x < e0.len() {
                            assert(e0.contains(e0[x]));
                            assert(e0[x].0.0 < i || (e0[x].0.0 == i && e0[x].0.1 < j));
                        }
                    }
                }
                assert(j + stride == bottom_left.1 + (b + 1) * stride) by (nonlinear_arith)
                    requires
                        j == bottom_left.1 + b * stride,
                ;
                b = b + 1;
            }
            j = j + stride;
        }
        proof {
            assert forall|e: Edge| #[trigger] edges@.contains(e) <==> (is_grid_edge(
                e,
                bottom_left,
                top_right,
                stride as nat,
            ) && e.0.0 < i + stride) by {
                if is_grid_edge(e, bottom_left, top_right, stride as nat) && i <= e.0.0 < i + stride {
                    let (a2, b2) = choose|a2: nat, b2: nat|
                        #![trigger a2 * stride, b2 * stride]
                        e.0.0 == bottom_left.0 + a2 * stride && e.0.1 == bottom_left.1 + b2 * stride && e.0.0
                            <= top_right.0 && e.0.1 <= top_right.1 && ((e.1.0 == e.0.0 + stride && e.1.1 == e.0.1
                            && e.1.0 <= top_right.0) || (e.1.1 == e.0.1 + stride && e.1.0 == e.0.0 && e.1.1
                            <= top_right.1));
                    assert(a2 == a) by {
                        if a2 < a {
                            assert(a2 * stride + stride <= a * stride) by (nonlinear_arith)
                                requires
                                    a2 < a,
                            ;
                        } else if a2 > a {
                            assert(a * stride + stride <= a2 * stride) by (nonlinear_arith)
                                requires
                                    a < a2,
                            ;
                        }
                    }
                }
            }
            assert(i + stride == bottom_left.0 + (a + 1) * stride) by (nonlinear_arith)
                requires
                    i == bottom_left.0 + a * stride,
            ;
            a = a + 1;
        }
        i = i + stride;
    }
    edges
}

/// The side of a cell at `level`: the product of `w - 1` over the grid
/// widths `w` of the levels up to `level` (1 below level 0).
pub open spec fn span(widths: Seq<usize>, level: int) -> int
    decreases level + 1,
{
    if level < 0 {
        1
    } else {
        span(widths, level - 1) * (widths[level] - 1)
    }
}

/// Both points of `e` lie in the box from `bl` to `tr`.
pub open spec fn in_box(e: Edge, bl: Point, tr: Point) -> bool {
    &&& bl.0 <= e.0.0 <= tr.0 && bl.1 <= e.0.1 <= tr.1
    &&& bl.0 <= e.1.0 <= tr.0 && bl.1 <= e.1.1 <= tr.1
}

/// `c` is the cell at column `x` and row `y` of the grid with spacing
/// `stride` from `bl`.
pub open spec fn is_cell(c: (Point, Point), bl: Point, stride: nat, x: nat, y: nat) -> bool {
    &&& c.0.0 == bl.0 + x * stride && c.0.1 == bl.1 + y * stride
    &&& c.1.0 == c.0.0 + stride && c.1.1 == c.0.1 + stride
}

/// `c` is a cell of the grid with spacing `stride` from `bl` and `counts`
/// columns and rows.
pub open spec fn is_grid_cell(c: (Point, Point), bl: Point, stride: nat, counts: nat) -> bool {
    exists|x: nat, y: nat| x < counts && y < counts && #[trigger] is_cell(c, bl, stride, x, y)
}

/// `c` is a cell of a grid with `counts` columns and rows, the one with
/// number `k` when they are numbered row by row within each column.
pub open spec fn is_numbered_cell(c: (Point, Point), bl: Point, stride: nat, counts: nat, k: int) -> bool {
    exists|x: nat, y: nat| x < counts && y < counts && #[trigger] is_cell(c, bl, stride, x, y) && k == x * counts + y
}

/// `subgraph_count` distinct cells of the grid with spacing `stride` over
/// the box from `bottom_left` to `top_right`, drawn at random.
pub fn get_random_cells(bottom_left: Point, top_right: Point, subgraph_count: usize, stride: usize) -> (r: Vec<
    (Point, Point),
>)
    requires
        stride > 0,
        bottom_left.0 <= top_right.0,
        bottom_left.1 + (top_right.0 - bottom_left.0) <= usize::MAX,
        ((top_right.0 - bottom_left.0) / (stride as int)) * ((top_right.0 - bottom_left.0) / (stride as int))
            <= usize::MAX,
        subgraph_count <= ((top_right.0 - bottom_left.0) / (stride as int)) * ((top_right.0 - bottom_left.0) / (
        stride as int)),
    ensures
        r@.len() == subgraph_count,
        r@.no_duplicates(),
        forall|i: int|
            0 <= i < r@.len() ==> is_grid_cell(
                #[trigger] r@[i],
                bottom_left,
                stride as nat,
                ((top_right.0 - bottom_left.0) / (stride as int)) as nat,
            ),
{
    let counts = (top_right.0 - bottom_left.0) / stride;
    assert(counts * stride <= top_right.0 - bottom_left.0) by (nonlinear_arith)
        requires
            counts == (top_right.0 - bottom_left.0) / (stride as int),
            stride > 0,
            top_right.0 >= bottom_left.0,
    ;
    let picks = sample_distinct(counts * counts, subgraph_count);
    let mut r: Vec<(Point, Point)> = Vec::new();
    let mut i: usize = 0;
    while i < picks.len()
        invariant
            stride > 0,
            counts == (top_right.0 - bottom_left.0) / (stride as int),
            counts * stride <= top_right.0 - bottom_left.0,
            bottom_left.1 + (top_right.0 - bottom_left.0) <= usize::MAX,
            bottom_left.0 <= top_right.0,
            picks@.no_duplicates(),
            forall|t: int| 0 <= t < picks@.len() ==> #[trigger] picks@[t] < counts * counts,
            i <= picks@.len(),
            r@.len() == i,
            r@.no_duplicates(),
            forall|t: int|
                0 <= t < i ==> is_numbered_cell(#[trigger] r@[t], bottom_left, stride as nat, counts as nat, picks@[t] as int),
        decreases picks.len() - i,
    {
        let k = picks[i];
        let x = k / counts;
        let y = k % counts;
        assert(x < counts && y < counts && x * stride + stride <= counts * stride && y * stride + stride <= counts
            * stride && k == x * counts + y) by (nonlinear_arith)
            requires
                k < counts * counts,
                x == k / counts,
                y == k % counts,
                counts > 0,
        ;
        let cx = x * stride + bottom_left.0;
        let cy = y * stride + bottom_left.1;
        let cell = ((cx, cy), (cx + stride, cy + stride));
        proof {
            assert(is_cell(cell, bottom_left, stride as nat, x as nat, y as nat));
            assert forall|t: int| 0 <= t < i implies r@[t] != cell by {
                assert(is_numbered_cell(r@[t], bottom_left, stride as nat, counts as nat, picks@[t] as int));
                let (xt, yt) = choose|xt: nat, yt: nat|
                    xt < counts && yt < counts && #[trigger] is_cell(r@[t], bottom_left, stride as nat, xt, yt)
                        && picks@[t] == xt * counts + yt;
                if r@[t] == cell {
                    assert(xt * stride == x * stride);
                    assert(yt * stride == y * stride);
                    assert(xt == x && yt == y) by (nonlinear_arith)
                        requires
                            xt * stride == x * stride,
                            yt * stride == y * stride,
                            stride > 0,
                    ;
                    assert(picks@[t] == picks@[i as int]);
                }
            }
        }
        let ghost r0 = r@;
        r.push(cell);
        proof {
            assert forall|t: int| 0 <= t < i + 1 implies is_numbered_cell(#[trigger] r@[t], bottom_left, stride as nat, counts as nat, picks@[t] as int) by {
                if t == i {
                    let xx = x as nat;
                    let yy = y as nat;
                    assert(r@[t] == cell);
                    assert(xx < counts && yy < counts);
                    assert(picks@[t] == xx * counts + yy);
                    assert(is_cell(r@[t], bottom_left, stride as nat, xx, yy));
                } else {
                    assert(r@[t] == r0[t]);
                    assert(is_numbered_cell(r0[t], bottom_left, stride as nat, counts as nat, picks@[t] as int));
                }
            }
        }
        i = i + 1;
    }
    r
}

/// Cells are at least one unit wide while every grid has two columns.
proof fn lemma_span_grows(widths: Seq<usize>, level: int)
    requires
        level < widths.len(),
        forall|k: int| 0 <= k <= level ==> #[trigger] widths[k] >= 2,
    ensures
        span(widths, level) >= 1,
        level >= 0 ==> span(widths, level) >= span(widths, level - 1),
    decreases level + 1,
{
    if level >= 0 {
        lemma_span_grows(widths, level - 1);
        let a = span(widths, level - 1);
        let b = widths[level] - 1;
        assert(a * b >= a) by (nonlinear_arith)
            requires
                a >= 1,
                b >= 1,
        ;
    }
}

/// What [`build_sparse_grid_rec`] needs of the box and the levels: the box
/// is square with the side of a cell at `level`, leaves room for one more
/// side, and each level draws no more cells than its grid has.
pub open spec fn sparse_levels_fit(
    bl: Point,
    tr: Point,
    level: int,
    widths: Seq<usize>,
    counts: Seq<usize>,
) -> bool {
    &&& 0 <= level < widths.len()
    &&& level < counts.len()
    &&& forall|k: int| 0 <= k <= level ==> #[trigger] widths[k] >= 2
    &&& forall|k: int|
        1 <= k <= level ==> (#[trigger] widths[k] - 1) * (widths[k] - 1) <= usize::MAX && counts[k] <= (widths[k]
            - 1) * (widths[k] - 1)
    &&& bl.0 <= tr.0 && bl.1 <= tr.1
    &&& tr.0 - bl.0 == span(widths, level)
    &&& tr.1 - bl.1 == span(widths, level)
    &&& tr.0 + span(widths, level) <= usize::MAX
    &&& tr.1 + span(widths, level) <= usize::MAX
}

/// `edges` holds a finer grid in each of `count` distinct cells of the grid
/// with spacing `stride` and `cells` columns and rows from `bl`: every edge
/// of the grid with spacing `fine` spanning such a cell.
pub open spec fn holds_subgrids(
    edges: Seq<Edge>,
    bl: Point,
    stride: nat,
    cells: nat,
    count: nat,
    fine: nat,
) -> bool {
    exists|cs: Seq<(Point, Point)>|
        {
            &&& cs.len() == count
            &&& cs.no_duplicates()
            &&& forall|i: int| 0 <= i < cs.len() ==> is_grid_cell(#[trigger] cs[i], bl, stride, cells)
            &&& forall|i: int|
                0 <= i < cs.len() ==> forall|e: Edge|
                    is_grid_edge(e, (#[trigger] cs[i]).0, cs[i].1, fine) ==> #[trigger] edges.contains(e)
        }
}

/// The edges of a grid of grids in the box from `bottom_left` to
/// `top_right`: the grid of `grid_widths[level]` points a side, and in
/// `subgraph_counts[level]` of its cells, drawn at random, a grid of grids
/// one level down; level 0 is a plain grid with unit spacing.
pub fn build_sparse_grid_rec(
    bottom_left: Point,
    top_right: Point,
    level: usize,
    grid_widths: &[usize],
    subgraph_counts: &[usize],
) -> (edges: Vec<Edge>)
    requires
        sparse_levels_fit(bottom_left, top_right, level as int, grid_widths@, subgraph_counts@),
    ensures
        forall|e: Edge| #[trigger] edges@.contains(e) ==> in_box(e, bottom_left, top_right),
        forall|e: Edge|
            is_grid_edge(e, bottom_left, top_right, span(grid_widths@, level - 1) as nat) ==> #[trigger] edges@.contains(
                e,
            ),
        level >= 1 ==> holds_subgrids(
            edges@,
            bottom_left,
            span(grid_widths@, level - 1) as nat,
            (grid_widths@[level as int] - 1) as nat,
            subgraph_counts@[level as int] as nat,
            span(grid_widths@, level - 2) as nat,
        ),
    decreases level,
{
    let ghost w = grid_widths@;
    let subgraph_count = subgraph_counts[level];
    let grid_width = grid_widths[level];
    let ghost below = span(w, level - 1);
    proof {
        lemma_span_grows(w, level as int);
        lemma_span_grows(w, level - 1);
        assert(span(w, level as int) == below * (grid_width - 1));
        vstd::arithmetic::div_mod::lemma_div_multiples_vanish(below, grid_width - 1);
        assert(below * (grid_width - 1) == (grid_width - 1) * below) by (nonlinear_arith);
        vstd::arithmetic::div_mod::lemma_mod_multiples_basic(grid_width - 1, below);
    }
    let stride = (top_right.0 - bottom_left.0) / (grid_width - 1);
    assert(stride == below);
    let mut edges = get_grid(bottom_left, top_right, stride);
    proof {
        assert forall|e: Edge| #[trigger] edges@.contains(e) implies in_box(e, bottom_left, top_right) by {
            let (a, b) = choose|a: nat, b: nat|
                #![trigger a * stride, b * stride]
                e.0.0 == bottom_left.0 + a * stride && e.0.1 == bottom_left.1 + b * stride && e.0.0 <= top_right.0
                    && e.0.1 <= top_right.1 && ((e.1.0 == e.0.0 + stride && e.1.1 == e.0.1 && e.1.0 <= top_right.0)
                    || (e.1.1 == e.0.1 + stride && e.1.0 == e.0.0 && e.1.1 <= top_right.1));
        }
    }
    if level == 0 {
        return edges;
    }
    let ghost counts = (grid_width - 1) as nat;
    proof {
        assert((top_right.0 - bottom_left.0) / (stride as int) == counts) by {
            assert(span(w, level as int) == (grid_width - 1) * below) by (nonlinear_arith)
                requires
                    span(w, level as int) == below * (grid_width - 1),
            ;
            vstd::arithmetic::div_mod::lemma_div_multiples_vanish((grid_width - 1) as int, below);
            assert(below * (grid_width - 1) == (grid_width - 1) * below) by (nonlinear_arith);
        }
        assert(w[level as int] >= 2);
    }
    let cells = get_random_cells(bottom_left, top_right, subgraph_count, stride);
    let mut t: usize = 0;
    while t < cells.len()
        invariant
            sparse_levels_fit(bottom_left, top_right, level as int, grid_widths@, subgraph_counts@),
            w == grid_widths@,
            level >= 1,
            stride == below,
            below == span(w, level - 1),
            below >= 1,
            below <= span(w, level as int),
            counts == (top_right.0 - bottom_left.0) / (stride as int),
            forall|i: int|
                0 <= i < cells@.len() ==> is_grid_cell(#[trigger] cells@[i], bottom_left, stride as nat, counts),
            t <= cells@.len(),
            forall|e: Edge| #[trigger] edges@.contains(e) ==> in_box(e, bottom_left, top_right),
            forall|e: Edge| is_grid_edge(e, bottom_left, top_right, below as nat) ==> #[trigger] edges@.contains(e),
            cells@.len() == subgraph_count,
            subgraph_count == subgraph_counts@[level as int],
            cells@.no_duplicates(),
            forall|i: int|
                0 <= i < t ==> forall|e: Edge|
                    is_grid_edge(e, (#[trigger] cells@[i]).0, cells@[i].1, span(w, level - 2) as nat)
                        ==> #[trigger] edges@.contains(e),
        decreases cells.len() - t,
    {
        let (cbl, ctr) = cells[t];
        proof {
            assert(is_grid_cell(cells@[t as int], bottom_left, stride as nat, counts));
            let (x, y) = choose|x: nat, y: nat| x < counts && y < counts && #[trigger] is_cell(
                cells@[t as int],
                bottom_left,
                stride as nat,
                x,
                y,
            );
            assert(x * stride + stride <= counts * stride && y * stride + stride <= counts * stride)
                by (nonlinear_arith)
                requires
                    x < counts,
                    y < counts,
            ;
            assert(counts * stride == top_right.0 - bottom_left.0) by (nonlinear_arith)
                requires
                    counts == (top_right.0 - bottom_left.0) / (stride as int),
                    stride == below,
                    top_right.0 - bottom_left.0 == span(w, level as int),
                    span(w, level as int) == span(w, level - 1) * (w[level as int] - 1),
                    below == span(w, level - 1),
                    below >= 1,
            {
                vstd::arithmetic::div_mod::lemma_div_multiples_vanish((w[level as int] - 1) as int, below);
            }
            assert(forall|k: int| 0 <= k <= level - 1 ==> #[trigger] w[k] >= 2);
            assert(sparse_levels_fit(cbl, ctr, level - 1, grid_widths@, subgraph_counts@));
        }
        let mut sub = build_sparse_grid_rec(cbl, ctr, level - 1, grid_widths, subgraph_counts);
        let ghost e0 = edges@;
        let ghost s0 = sub@;
        edges.append(&mut sub);
        proof {
            assert forall|e: Edge| #[trigger] edges@.contains(e) implies in_box(e, bottom_left, top_right) by {
                let k = choose|k: int| 0 <= k < edges@.len() && edges@[k] == e;
                if k < e0.len() {
                    assert(e0.contains(e));
                } else {
                    assert(s0[k - e0.len()] == e);
                    assert(s0.contains(e));
                }
            }
            assert forall|e: Edge| is_grid_edge(e, bottom_left, top_right, below as nat) implies #[trigger] edges@.contains(
                e,
            ) by {
                assert(e0.contains(e));
                let k = choose|k: int| 0 <= k < e0.len() && e0[k] == e;
                assert(edges@[k] == e);
            }
            assert forall|i: int| 0 <= i < t + 1 implies forall|e: Edge|
                is_grid_edge(e, (#[trigger] cells@[i]).0, cells@[i].1, span(w, level - 2) as nat)
                    ==> #[trigger] edges@.contains(e) by {
                assert forall|e: Edge|
                    is_grid_edge(e, cells@[i].0, cells@[i].1, span(w, level - 2) as nat) implies #[trigger] edges@.contains(
                    e,
                ) by {
                    if i < t {
                        assert(e0.contains(e));
                        let k = choose|k: int| 0 <= k < e0.len() && e0[k] == e;
                        assert(edges@[k] == e);
                    } else {
                        assert(cells@[i] == (cbl, ctr));
                        assert(s0.contains(e));
                        let k = choose|k: int| 0 <= k < s0.len() && s0[k] == e;
                        assert(edges@[e0.len() + k] == e);
                    }
                }
            }
        }
        t = t + 1;
    }
    proof {
        assert(holds_subgrids(
            edges@,
            bottom_left,
            span(w, level - 1) as nat,
            (w[level as int] - 1) as nat,
            subgraph_counts@[level as int] as nat,
            span(w, level - 2) as nat,
        )) by {
            assert(counts == (w[level as int] - 1) as nat);
            assert forall|i: int| 0 <= i < cells@.len() implies is_grid_cell(
                #[trigger] cells@[i],
                bottom_left,
                span(w, level - 1) as nat,
                (w[level as int] - 1) as nat,
            ) by {}
        }
    }
    edges
}

/// `a` comes before `b` in the order of tuples.
pub open spec fn edge_lt(a: Edge, b: Edge) -> bool {
    a.0.0 < b.0.0 || (a.0.0 == b.0.0 && a.0.1 < b.0.1) || (a.0 == b.0 && (a.1.0 < b.1.0 || (a.1.0 == b.1.0
        && a.1.1 < b.1.1)))
}

/// `a` comes before `b` in the order of tuples, or is `b`.
pub open spec fn edge_le(a: Edge, b: Edge) -> bool {
    edge_lt(a, b) || a == b
}

/// `<[Edge]>::sort_unstable`: the same edges in the order of tuples.
#[verifier::external_body]
fn sort_edges(v: &mut Vec<Edge>)
    ensures
        final(v)@.to_multiset() == old(v)@.to_multiset(),
        forall|i: int, j: int| 0 <= i <= j < final(v)@.len() ==> edge_le(final(v)@[i], final(v)@[j]),
{
    v.sort_unstable()
}

/// The edges of `v` in the order of tuples, each once.
fn sorted_distinct(v: Vec<Edge>) -> (r: Vec<Edge>)
    ensures
        forall|i: int, j: int| 0 <= i < j < r@.len() ==> edge_lt(r@[i], r@[j]),
        forall|e: Edge| #[trigger] r@.contains(e) <==> v@.contains(e),
{
    let mut v = v;
    let ghost orig = v@;
    sort_edges(&mut v);
    proof {
        assert forall|e: Edge| #[trigger] v@.contains(e) <==> orig.contains(e) by {
            vstd::seq_lib::to_multiset_contains(v@, e);
            vstd::seq_lib::to_multiset_contains(orig, e);
        }
    }
    let mut r: Vec<Edge> = Vec::new();
    let mut t: usize = 0;
    while t < v.len()
        invariant
            forall|i: int, j: int| 0 <= i <= j < v@.len() ==> edge_le(v@[i], v@[j]),
            t <= v@.len(),
            forall|i: int, j: int| 0 <= i < j < r@.len() ==> edge_lt(r@[i], r@[j]),
            t > 0 ==> r@.len() > 0 && r@.last() == v@[t - 1],
            t == 0 ==> r@.len() == 0,
            forall|e: Edge| #[trigger] r@.contains(e) <==> v@.take(t as int).contains(e),
        decreases v.len() - t,
    {
        let e = v[t];
        let fresh = if r.len() == 0 {
            true
        } else {
            let last = r[r.len() - 1];
            !(last.0.0 == e.0.0 && last.0.1 == e.0.1 && last.1.0 == e.1.0 && last.1.1 == e.1.1)
        };
        let ghost r0 = r@;
        proof {
            assert(v@.take(t + 1) =~= v@.take(t as int).push(e));
            if t > 0 {
                assert(edge_le(v@[t - 1], v@[t as int]));
            }
        }
        if fresh {
            r.push(e);
            proof {
                assert forall|i: int, j: int| 0 <= i < j < r@.len() implies edge_lt(r@[i], r@[j]) by {
                    if j == r@.len() - 1 && i < j {
                        assert(r0.len() > 0 ==> edge_lt(r0.last(), e));
                        if i < r0.len() - 1 {
                            assert(edge_lt(r0[i], r0.last()));
                        }
                    }
                }
            }
        }
        proof {
            assert forall|x: Edge| #[trigger] r@.contains(x) <==> v@.take(t + 1).contains(x) by {
                let s0 = v@.take(t as int);
                let s1 = v@.take(t + 1);
                assert(s1 == s0.push(e));
                if s1.contains(x) {
                    let k = choose|k: int| 0 <= k < s1.len() && s1[k] == x;
                    if k < t {
                        assert(s0[k] == x);
                        assert(s0.contains(x));
                        assert(r0.contains(x));
                        let k0 = choose|k0: int| 0 <= k0 < r0.len() && r0[k0] == x;
                        assert(r@[k0] == x);
                    } else {
                        assert(x == e);
                        if fresh {
                            assert(r@[r@.len() - 1] == x);
                        } else {
                            assert(r0.len() > 0);
                            assert(r0[r0.len() - 1] == x);
                            assert(r@[r0.len() - 1] == x);
                        }
                    }
                }
                if r@.contains(x) {
                    let k = choose|k: int| 0 <= k < r@.len() && r@[k] == x;
                    if k < r0.len() {
                        assert(r0[k] == x);
                        assert(r0.contains(x));
                        assert(s0.contains(x));
                        let k0 = choose|k0: int| 0 <= k0 < s0.len() && s0[k0] == x;
                        assert(s1[k0] == x);
                    } else {
                        assert(x == e);
                        assert(s1[t as int] == x);
                    }
                }
            }
        }
        t = t + 1;
    }
    proof {
        assert(v@.take(v@.len() as int) =~= v@);
    }
    r
}

/// Cells never shrink going up the levels.
proof fn lemma_span_mono(widths: Seq<usize>, a: int, b: int)
    requires
        -1 <= a <= b < widths.len(),
        forall|k: int| 0 <= k <= b ==> #[trigger] widths[k] >= 2,
    ensures
        span(widths, a) <= span(widths, b),
    decreases b - a,
{
    if a < b {
        lemma_span_mono(widths, a, b - 1);
        lemma_span_grows(widths, b);
    }
}

/// The edges of a grid of grids with the given grid width on each level,
/// bottom level first (see [`build_sparse_grid_rec`]), spanning the box
/// from the origin to the side of the top level's cell, in the order of
/// tuples, each once. The lowest level holds no subgraphs.
pub fn build_sparse_grid_from_widths(subgraph_counts: &[usize], grid_widths: &[usize]) -> (edges: Vec<Edge>)
    requires
        subgraph_counts@.len() == grid_widths@.len(),
        grid_widths@.len() >= 1,
        subgraph_counts@[0] == 0,
        sparse_levels_fit(
            (0, 0),
            (span(grid_widths@, grid_widths@.len() - 1) as usize, span(grid_widths@, grid_widths@.len() - 1) as usize),
            grid_widths@.len() - 1,
            grid_widths@,
            subgraph_counts@,
        ),
    ensures
        forall|i: int, j: int| 0 <= i < j < edges@.len() ==> edge_lt(edges@[i], edges@[j]),
        forall|e: Edge|
            #[trigger] edges@.contains(e) ==> in_box(
                e,
                (0, 0),
                (
                    span(grid_widths@, grid_widths@.len() - 1) as usize,
                    span(grid_widths@, grid_widths@.len() - 1) as usize,
                ),
            ),
        forall|e: Edge|
            is_grid_edge(
                e,
                (0, 0),
                (
                    span(grid_widths@, grid_widths@.len() - 1) as usize,
                    span(grid_widths@, grid_widths@.len() - 1) as usize,
                ),
                span(grid_widths@, grid_widths@.len() - 2) as nat,
            ) ==> #[trigger] edges@.contains(e),
        grid_widths@.len() >= 2 ==> holds_subgrids(
            edges@,
            (0, 0),
            span(grid_widths@, grid_widths@.len() - 2) as nat,
            (grid_widths@[grid_widths@.len() - 1] - 1) as nat,
            subgraph_counts@[grid_widths@.len() - 1] as nat,
            span(grid_widths@, grid_widths@.len() - 3) as nat,
        ),
{
    let ghost w = grid_widths@;
    let ghost top = w.len() - 1;
    let mut scale: usize = 1;
    let mut k: usize = 0;
    while k < grid_widths.len()
        invariant
            w == grid_widths@,
            top == w.len() - 1,
            sparse_levels_fit(
                (0, 0),
                (span(w, top) as usize, span(w, top) as usize),
                top,
                w,
                subgraph_counts@,
            ),
            k <= w.len(),
            scale == span(w, k - 1),
        decreases grid_widths.len() - k,
    {
        proof {
            lemma_span_mono(w, k as int, top);
            lemma_span_grows(w, k as int);
        }
        scale = scale * (grid_widths[k] - 1);
        k = k + 1;
    }
    let raw = build_sparse_grid_rec((0, 0), (scale, scale), grid_widths.len() - 1, grid_widths, subgraph_counts);
    let edges = sorted_distinct(raw);
    proof {
        if w.len() >= 2 {
            let stride = span(w, top - 1) as nat;
            let cells = (w[top] - 1) as nat;
            let count = subgraph_counts@[top] as nat;
            let fine = span(w, top - 2) as nat;
            assert(holds_subgrids(raw@, (0, 0), stride, cells, count, fine));
            let cs = choose|cs: Seq<(Point, Point)>|
                {
                    &&& cs.len() == count
                    &&& cs.no_duplicates()
                    &&& forall|i: int| 0 <= i < cs.len() ==> is_grid_cell(#[trigger] cs[i], (0, 0), stride, cells)
                    &&& forall|i: int|
                        0 <= i < cs.len() ==> forall|e: Edge|
                            is_grid_edge(e, (#[trigger] cs[i]).0, cs[i].1, fine) ==> #[trigger] raw@.contains(e)
                };
            assert forall|i: int| 0 <= i < cs.len() implies forall|e: Edge|
                is_grid_edge(e, (#[trigger] cs[i]).0, cs[i].1, fine) ==> #[trigger] edges@.contains(e) by {
                assert forall|e: Edge| is_grid_edge(e, cs[i].0, cs[i].1, fine) implies #[trigger] edges@.contains(e) by {
                    assert(raw@.contains(e));
                }
            }
            assert(holds_subgrids(edges@, (0, 0), stride, cells, count, fine));
        }
    }
    edges
}

} // verus!
