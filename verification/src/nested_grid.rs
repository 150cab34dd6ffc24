//! Grids nested into the cells of grids: a `width × width` grid spans the
//! four corner nodes of a cell, and each of its cells holds a grid of the
//! next level. A node records where it lies in its grid, so that a position
//! can be given to it from the positions of its corners.
use crate::graph::{in_range, is_symmetric, with_edge, Graph};
use vstd::prelude::*;

verus! {

/// Where a node lies: at row `row`, column `col` of a `width × width` grid
/// whose corners are the nodes `bl` (row 0, column 0), `tl` (row 0, last
/// column), `br` (last row, column 0) and `tr` (last row, last column).
#[derive(Debug, Clone, Copy, PartialEq, Eq, Structural)]
pub struct Placement {
    pub bl: usize,
    pub tl: usize,
    pub tr: usize,
    pub br: usize,
    pub row: usize,
    pub col: usize,
    pub width: usize,
}

/// A graph of nested grids: `placements[z]` tells where node `z` lies, or is
/// `None` for a node that lies where it was put from outside.
pub struct NestedGrid {
    pub graph: Graph,
    pub placements: Vec<Option<Placement>>,
}

/// A placed node comes after the corners of its grid, inside that grid.
pub open spec fn placement_precedes(p: Option<Placement>, z: int) -> bool {
    match p {
        None => true,
        Some(q) => q.bl < z && q.tl < z && q.tr < z && q.br < z && q.row < q.width && q.col < q.width,
    }
}

/// The number of nodes that a grid of `width` adds to its four corners,
/// with the grids nested into its cells down to `level` (a level of one or
/// less nests none).
pub open spec fn nested_count(width: int, level: nat) -> int
    decreases level,
{
    if width < 2 {
        0
    } else {
        width * width - 4 + if level > 1 {
            (width - 1) * (width - 1) * nested_count(width, (level - 1) as nat)
        } else {
            0
        }
    }
}

/// The nodes that one grid of `width` adds to its four corners.
pub open spec fn new_in_grid(width: int) -> int {
    if width < 2 {
        0
    } else {
        width * width - 4
    }
}

/// The number of corner cells of a `width × width` grid that come before
/// row `r`, column `c` in row-major order.
pub open spec fn corners_before(width: int, r: int, c: int) -> int {
    (if r > 0 || c > 0 {
        1int
    } else {
        0int
    }) + (if r > 0 {
        1int
    } else {
        0int
    }) + (if r == width - 1 && c > 0 && width > 1 {
        1int
    } else {
        0int
    })
}

/// The node at row `r`, column `c` of the grid of `width` with the given
/// corners whose other nodes are numbered from `base` on in row-major order.
pub open spec fn grid_node(
    width: int,
    bl: usize,
    tl: usize,
    tr: usize,
    br: usize,
    base: int,
    r: int,
    c: int,
) -> int {
    if r == 0 && c == 0 {
        bl as int
    } else if r == 0 && c == width - 1 {
        tl as int
    } else if r == width - 1 && c == 0 {
        br as int
    } else if r == width - 1 && c == width - 1 {
        tr as int
    } else {
        base + r * width + c - corners_before(width, r, c)
    }
}

/// Row `r`, column `c` holds one of the four corners.
pub open spec fn is_corner_cell(width: int, r: int, c: int) -> bool {
    (r == 0 || r == width - 1) && (c == 0 || c == width - 1)
}

impl NestedGrid {
    /// Each node has its entry, the graph is undirected, and placed nodes
    /// come after their corners.
    pub open spec fn wf(&self) -> bool {
        &&& self.placements@.len() == self.graph@.len()
        &&& self.graph@.len() <= usize::MAX
        &&& in_range(self.graph@)
        &&& is_symmetric(self.graph@)
        &&& forall|z: int|
            0 <= z < self.placements@.len() ==> placement_precedes(#[trigger] self.placements@[z], z)
    }
}

/// Moving on by one cell in row-major order: a corner cell adds no node.
proof fn lemma_next_cell(width: int, r: int, c: int)
    requires
        2 <= width,
        0 <= r < width,
        0 <= c < width,
    ensures
        c + 1 < width ==> (r * width + c + 1 - corners_before(width, r, c + 1)) == (r * width + c
            - corners_before(width, r, c)) + if is_corner_cell(width, r, c) {
            0int
        } else {
            1int
        },
        c + 1 == width && r + 1 < width ==> ((r + 1) * width - corners_before(width, r + 1, 0)) == (r
            * width + c - corners_before(width, r, c)) + if is_corner_cell(width, r, c) {
            0int
        } else {
            1int
        },
{
    assert((r + 1) * width == r * width + width) by (nonlinear_arith);
}

/// A cell that is no corner has a number of its own among the non-corner
/// cells.
proof fn lemma_rank_nonneg(width: int, r: int, c: int)
    requires
        2 <= width,
        0 <= r < width,
        0 <= c < width,
        !is_corner_cell(width, r, c),
    ensures
        r * width + c - corners_before(width, r, c) >= 0,
{
    if r >= 1 {
        assert(r * width >= width) by (nonlinear_arith)
            requires
                r >= 1,
                width >= 2,
        ;
    }
}

/// The non-corner cells of a grid number `width * width - 4`.
proof fn lemma_last_cell(width: int)
    requires
        2 <= width,
    ensures
        (width - 1) * width + (width - 1) - corners_before(width, width - 1, width - 1) + 0 == width
            * width - 4 + 0,
{
    assert((width - 1) * width == width * width - width) by (nonlinear_arith);
}

/// A cell that is no corner gets a node below the count of new nodes.
proof fn lemma_rank_bounds(width: int, r: int, c: int)
    requires
        2 <= width,
        0 <= r < width,
        0 <= c < width,
        !is_corner_cell(width, r, c),
    ensures
        0 <= r * width + c - corners_before(width, r, c) < width * width - 4,
{
    lemma_rank_nonneg(width, r, c);
    if r == width - 1 {
        assert((width - 1) * width == width * width - width) by (nonlinear_arith);
    } else {
        assert(r * width <= (width - 2) * width) by (nonlinear_arith)
            requires
                0 <= r <= width - 2,
                width >= 2,
        ;
        assert((width - 2) * width == width * width - 2 * width) by (nonlinear_arith);
    }
}

/// Nested grids add no negative number of nodes.
pub proof fn lemma_nested_count_nonneg(width: int, level: nat)
    ensures
        nested_count(width, level) >= 0,
    decreases level,
{
    if width >= 2 {
        assert(width * width >= 4) by (nonlinear_arith)
            requires
                width >= 2,
        ;
        if level > 1 {
            lemma_nested_count_nonneg(width, (level - 1) as nat);
            assert((width - 1) * (width - 1) * nested_count(width, (level - 1) as nat) >= 0) by (nonlinear_arith)
                requires
                    width >= 2,
                    nested_count(width, (level - 1) as nat) >= 0,
            ;
        }
    }
}

/// The node `z` is one of the corners, or one of the nodes `base..end`.
pub open spec fn in_grid(bl: usize, tl: usize, tr: usize, br: usize, base: int, end: int, z: int) -> bool {
    z == bl || z == tl || z == tr || z == br || (base <= z < end)
}

/// Adds the nodes of a grid of `width` spanned by the corners `bl`, `tl`,
/// `tr` and `br`, in row-major order, each placed in the grid; returns the
/// grid's nodes by row and column.
pub fn get_subgrid_nodes(
    g: &mut NestedGrid,
    width: usize,
    bl: usize,
    tl: usize,
    tr: usize,
    br: usize,
) -> (nodes: Vec<Vec<usize>>)
    requires
        old(g).wf(),
        bl < old(g).graph@.len(),
        tl < old(g).graph@.len(),
        tr < old(g).graph@.len(),
        br < old(g).graph@.len(),
        old(g).graph@.len() + new_in_grid(width as int) <= usize::MAX,
    ensures
        final(g).wf(),
        final(g).graph@ == old(g).graph@ + Seq::new(
            new_in_grid(width as int) as nat,
            |i: int| Set::<usize>::empty(),
        ),
        final(g).placements@.subrange(0, old(g).placements@.len() as int) == old(g).placements@,
        nodes@.len() == width,
        forall|r: int| 0 <= r < width ==> (#[trigger] nodes@[r])@.len() == width,
        forall|r: int, c: int|
            0 <= r < width && 0 <= c < width ==> nodes@[r]@[c] == grid_node(
                width as int,
                bl,
                tl,
                tr,
                br,
                old(g).graph@.len() as int,
                r,
                c,
            ),
        forall|r: int, c: int|
            0 <= r < width && 0 <= c < width && !is_corner_cell(width as int, r, c)
                ==> final(g).placements@[grid_node(width as int, bl, tl, tr, br, old(g).graph@.len() as int, r, c)]
                == Some(Placement { bl, tl, tr, br, row: r as usize, col: c as usize, width }),
{
    let ghost base = g.graph@.len() as int;
    let ghost w = width as int;
    let ghost g0 = g.graph@;
    let ghost p0 = g.placements@;
    let mut nodes: Vec<Vec<usize>> = Vec::new();
    let mut i: usize = 0;
    while i < width
        invariant
            0 <= i <= width,
            w == width,
            g.wf(),
            bl < base && tl < base && tr < base && br < base,
            base == g0.len(),
            base + new_in_grid(w) <= usize::MAX,
            nodes@.len() == i,
            forall|r: int| 0 <= r < i ==> (#[trigger] nodes@[r])@.len() == width,
            forall|r: int, c: int|
                0 <= r < i && 0 <= c < width ==> nodes@[r]@[c] == grid_node(w, bl, tl, tr, br, base, r, c),
            width >= 2 && i < width ==> g.graph@.len() == base + i * w - corners_before(w, i as int, 0),
            width >= 2 && i == width ==> g.graph@.len() == base + new_in_grid(w),
            width < 2 ==> g.graph@.len() == base,
            g.graph@ == g0 + Seq::new((g.graph@.len() - base) as nat, |k: int| Set::<usize>::empty()),
            g.placements@.subrange(0, base) == p0,
            forall|r: int, c: int|
                0 <= r < i && 0 <= c < width && !is_corner_cell(w, r, c) ==> grid_node(w, bl, tl, tr, br, base, r, c)
                    < g.placements@.len() && g.placements@[grid_node(
                    w,
                    bl,
                    tl,
                    tr,
                    br,
                    base,
                    r,
                    c,
                )] == Some(Placement { bl, tl, tr, br, row: r as usize, col: c as usize, width }),
        decreases width - i,
    {
        let mut row: Vec<usize> = Vec::new();
        let mut j: usize = 0;
        while j < width
            invariant
                0 <= i < width,
                0 <= j <= width,
                w == width,
                g.wf(),
                bl < base && tl < base && tr < base && br < base,
                base == g0.len(),
                base + new_in_grid(w) <= usize::MAX,
                nodes@.len() == i,
                forall|r: int| 0 <= r < i ==> (#[trigger] nodes@[r])@.len() == width,
                forall|r: int, c: int|
                    0 <= r < i && 0 <= c < width ==> nodes@[r]@[c] == grid_node(w, bl, tl, tr, br, base, r, c),
                row@.len() == j,
                forall|c: int| 0 <= c < j ==> row@[c] == grid_node(w, bl, tl, tr, br, base, i as int, c),
                width >= 2 && j < width ==> g.graph@.len() == base + i * w + j - corners_before(
                    w,
                    i as int,
                    j as int,
                ),
                width >= 2 && j == width && i + 1 < width ==> g.graph@.len() == base + (i + 1) * w
                    - corners_before(w, i + 1, 0),
                width >= 2 && j == width && i + 1 == width ==> g.graph@.len() == base + new_in_grid(w),
                width < 2 ==> g.graph@.len() == base,
                g.graph@ == g0 + Seq::new((g.graph@.len() - base) as nat, |k: int| Set::<usize>::empty()),
                g.placements@.subrange(0, base) == p0,
                forall|r: int, c: int|
                    0 <= r < i && 0 <= c < width && !is_corner_cell(w, r, c) ==> grid_node(w, bl, tl, tr, br, base, r, c)
                    < g.placements@.len() && g.placements@[grid_node(
                        w,
                        bl,
                        tl,
                        tr,
                        br,
                        base,
                        r,
                        c,
                    )] == Some(Placement { bl, tl, tr, br, row: r as usize, col: c as usize, width }),
                forall|c: int|
                    0 <= c < j && !is_corner_cell(w, i as int, c) ==> grid_node(w, bl, tl, tr, br, base, i as int, c)
                        < g.placements@.len() && g.placements@[grid_node(
                        w,
                        bl,
                        tl,
                        tr,
                        br,
                        base,
                        i as int,
                        c,
                    )] == Some(Placement { bl, tl, tr, br, row: i, col: c as usize, width }),
            decreases width - j,
        {
            proof {
                if width >= 2 {
                    lemma_next_cell(w, i as int, j as int);
                    if i + 1 == width && j + 1 == width {
                        lemma_last_cell(w);
                    }
                }
            }
            let ghost before = g.graph@;
            let ghost pbefore = g.placements@;
            let node = if i == 0 && j == 0 {
                bl
            } else if i == 0 && j == width - 1 {
                tl
            } else if i == width - 1 && j == 0 {
                br
            } else if i == width - 1 && j == width - 1 {
                tr
            } else {
                proof {
                    lemma_rank_bounds(w, i as int, j as int);
                }
                let z = g.graph.add_node();
                g.placements.push(Some(Placement { bl, tl, tr, br, row: i, col: j, width }));
                proof {
                    assert(g.graph@ =~= g0 + Seq::new(
                        (g.graph@.len() - base) as nat,
                        |k: int| Set::<usize>::empty(),
                    ));
                    assert(g.placements@.subrange(0, base) =~= p0);
                            assert forall|x: int| 0 <= x < g.placements@.len() implies placement_precedes(
                        #[trigger] g.placements@[x],
                        x,
                    ) by {
                        if x < pbefore.len() {
                            assert(g.placements@[x] == pbefore[x]);
                        }
                    }
                }
                z
            };
            proof {
                assert forall|c: int| 0 <= c < j + 1 && !is_corner_cell(w, i as int, c) implies grid_node(
                    w,
                    bl,
                    tl,
                    tr,
                    br,
                    base,
                    i as int,
                    c,
                ) < g.placements@.len() && g.placements@[grid_node(w, bl, tl, tr, br, base, i as int, c)]
                    == Some(Placement { bl, tl, tr, br, row: i, col: c as usize, width }) by {
                    if c < j {
                        let x = grid_node(w, bl, tl, tr, br, base, i as int, c);
                        lemma_rank_nonneg(w, i as int, c);
                        assert(0 <= x < pbefore.len());
                        assert(pbefore[x] == Some(Placement { bl, tl, tr, br, row: i, col: c as usize, width }));
                        assert(g.placements@[x] == pbefore[x]);
                    }
                }
            }
            row.push(node);
            j = j + 1;
        }
        nodes.push(row);
        i = i + 1;
    }
    proof {
        if width < 2 {
            assert(g.graph@ =~= g0 + Seq::new(new_in_grid(w) as nat, |k: int| Set::<usize>::empty()));
        }
    }
    nodes
}

/// Adding the edge `a - b` to an undirected graph keeps it undirected and
/// adds nothing else.
proof fn lemma_add_edge_step(adj: Seq<Set<usize>>, a: usize, b: usize)
    requires
        in_range(adj),
        is_symmetric(adj),
        a < adj.len(),
        b < adj.len(),
    ensures
        with_edge(adj, a, b).len() == adj.len(),
        in_range(with_edge(adj, a, b)),
        is_symmetric(with_edge(adj, a, b)),
        forall|x: int, y: usize| 0 <= x < adj.len() && #[trigger] adj[x].contains(y) ==> with_edge(adj, a, b)[x].contains(y),
        forall|x: int, y: usize|
            0 <= x < adj.len() && #[trigger] with_edge(adj, a, b)[x].contains(y) ==> adj[x].contains(y) || (x == a
                && y == b) || (x == b && y == a),
{
    let h = with_edge(adj, a, b);
    assert forall|x: int, y: usize| 0 <= x < h.len() && #[trigger] h[x].contains(y) implies y < h.len() && h[y as int].contains(
        x as usize,
    ) by {
        if !adj[x].contains(y) {
        } else {
            assert(adj[y as int].contains(x as usize));
        }
    }
}

/// The cells before row `i`, column `j` that hold a nested grid leave room
/// for one more.
proof fn lemma_cells_bound(width: int, i: int, j: int, cnt: int)
    requires
        1 <= i < width,
        1 <= j < width,
        cnt >= 0,
    ensures
        ((i - 1) * (width - 1) + (j - 1) + 1) * cnt <= (width - 1) * (width - 1) * cnt,
{
    assert((i - 1) * (width - 1) + (j - 1) + 1 <= (width - 1) * (width - 1)) by (nonlinear_arith)
        requires
            1 <= i < width,
            1 <= j < width,
    ;
    assert(((i - 1) * (width - 1) + (j - 1) + 1) * cnt <= (width - 1) * (width - 1) * cnt) by (nonlinear_arith)
        requires
            (i - 1) * (width - 1) + (j - 1) + 1 <= (width - 1) * (width - 1),
            cnt >= 0,
    ;
}

/// Every node of the grid with these corners whose other nodes are
/// numbered from `base` on lies below `end` and in the grid.
pub open spec fn nodes_below(width: int, bl: usize, tl: usize, tr: usize, br: usize, base: int, end: int) -> bool {
    forall|r: int, c: int|
        0 <= r < width && 0 <= c < width ==> 0 <= #[trigger] grid_node(width, bl, tl, tr, br, base, r, c) < end
            && in_grid(bl, tl, tr, br, base, end, grid_node(width, bl, tl, tr, br, base, r, c))
}

/// The graph after the edges of the cell at row `i`, column `j` are added:
/// to the node before it in its column, then to the one before it in its
/// row.
pub open spec fn cell_edges(
    adj: Seq<Set<usize>>,
    width: int,
    bl: usize,
    tl: usize,
    tr: usize,
    br: usize,
    base: int,
    i: int,
    j: int,
) -> Seq<Set<usize>> {
    let a = grid_node(width, bl, tl, tr, br, base, i, j) as usize;
    let m = if i > 0 {
        with_edge(adj, a, grid_node(width, bl, tl, tr, br, base, i - 1, j) as usize)
    } else {
        adj
    };
    if j > 0 {
        with_edge(m, a, grid_node(width, bl, tl, tr, br, base, i, j - 1) as usize)
    } else {
        m
    }
}

/// The nodes of a grid lie in it, below the end of its new nodes.
proof fn lemma_nodes_below(width: int, bl: usize, tl: usize, tr: usize, br: usize, base: int)
    requires
        0 <= width,
        bl < base && tl < base && tr < base && br < base,
    ensures
        nodes_below(width, bl, tl, tr, br, base, base + new_in_grid(width)),
{
    if width >= 2 {
        assert(width * width >= 4) by (nonlinear_arith)
            requires
                width >= 2,
        ;
    }
    assert forall|r: int, c: int| 0 <= r < width && 0 <= c < width implies 0 <= #[trigger] grid_node(
        width,
        bl,
        tl,
        tr,
        br,
        base,
        r,
        c,
    ) < base + new_in_grid(width) && in_grid(
        bl,
        tl,
        tr,
        br,
        base,
        base + new_in_grid(width),
        grid_node(width, bl, tl, tr, br, base, r, c),
    ) by {
        if !is_corner_cell(width, r, c) {
            assert(width >= 2);
            lemma_rank_bounds(width, r, c);
        }
    }
}

/// The edge `x - y`, either way round, joins the node at row `r`, column
/// `c` of the grid to the node before it in its column or in its row.
pub open spec fn cell_edge(
    width: int,
    bl: usize,
    tl: usize,
    tr: usize,
    br: usize,
    base: int,
    r: int,
    c: int,
    x: int,
    y: int,
) -> bool {
    let a = grid_node(width, bl, tl, tr, br, base, r, c);
    let up = grid_node(width, bl, tl, tr, br, base, r - 1, c);
    let left = grid_node(width, bl, tl, tr, br, base, r, c - 1);
    ||| r > 0 && ((x == a && y == up) || (x == up && y == a))
    ||| c > 0 && ((x == a && y == left) || (x == left && y == a))
}

/// The first new node of the grid nested `level - 1` deep into the cell
/// whose far corner is at row `i`, column `j`: the cells fill up in
/// row-major order after the grid's own new nodes.
pub open spec fn child_base(width: int, level: nat, base: int, i: int, j: int) -> int {
    base + new_in_grid(width) + ((i - 1) * (width - 1) + (j - 1)) * nested_count(width, (level - 1) as nat)
}

/// The edge `x - y` is one of the edges of the grid with these corners
/// whose new nodes are numbered from `base` on, or of the grids nested into
/// its cells down to `level`.
pub open spec fn is_nested_edge(
    width: int,
    level: nat,
    bl: usize,
    tl: usize,
    tr: usize,
    br: usize,
    base: int,
    x: int,
    y: int,
) -> bool
    decreases level,
{
    ||| exists|r: int, c: int|
        0 <= r < width && 0 <= c < width && #[trigger] cell_edge(width, bl, tl, tr, br, base, r, c, x, y)
    ||| level > 1 && exists|i: int, j: int|
        #![trigger child_base(width, level, base, i, j)]
        1 <= i < width && 1 <= j < width && is_nested_edge(
            width,
            (level - 1) as nat,
            grid_node(width, bl, tl, tr, br, base, i - 1, j - 1) as usize,
            grid_node(width, bl, tl, tr, br, base, i - 1, j) as usize,
            grid_node(width, bl, tl, tr, br, base, i, j) as usize,
            grid_node(width, bl, tl, tr, br, base, i, j - 1) as usize,
            child_base(width, level, base, i, j),
            x,
            y,
        )
}

/// The edge `x - y` belongs to the grid nested into the cell whose far
/// corner is at row `i`, column `j`.
pub open spec fn child_edge(
    width: int,
    level: nat,
    bl: usize,
    tl: usize,
    tr: usize,
    br: usize,
    base: int,
    i: int,
    j: int,
    x: int,
    y: int,
) -> bool {
    level > 1 && is_nested_edge(
        width,
        (level - 1) as nat,
        grid_node(width, bl, tl, tr, br, base, i - 1, j - 1) as usize,
        grid_node(width, bl, tl, tr, br, base, i - 1, j) as usize,
        grid_node(width, bl, tl, tr, br, base, i, j) as usize,
        grid_node(width, bl, tl, tr, br, base, i, j - 1) as usize,
        child_base(width, level, base, i, j),
        x,
        y,
    )
}

/// The edge `x - y` is an edge of a cell before row `i`, column `j`.
pub open spec fn cell_edges_before(
    width: int,
    bl: usize,
    tl: usize,
    tr: usize,
    br: usize,
    base: int,
    i: int,
    j: int,
    x: int,
    y: int,
) -> bool {
    exists|r: int, c: int|
        0 <= r < width && 0 <= c < width && (r < i || (r == i && c < j)) && #[trigger] cell_edge(
            width,
            bl,
            tl,
            tr,
            br,
            base,
            r,
            c,
            x,
            y,
        )
}

/// The edge `x - y` is an edge of a grid nested into a cell before row `i`,
/// column `j`.
pub open spec fn child_edges_before(
    width: int,
    level: nat,
    bl: usize,
    tl: usize,
    tr: usize,
    br: usize,
    base: int,
    i: int,
    j: int,
    x: int,
    y: int,
) -> bool {
    level > 1 && exists|a: int, b: int|
        1 <= a < width && 1 <= b < width && (a < i || (a == i && b < j)) && #[trigger] child_edge(
            width,
            level,
            bl,
            tl,
            tr,
            br,
            base,
            a,
            b,
            x,
            y,
        )
}

/// The edges of `g` are those of `g0`, the cell edges before row `gi`,
/// column `gj`, and the edges of the grids nested into the cells before row
/// `ci`, column `cj`.
pub open spec fn grid_state(
    g: Seq<Set<usize>>,
    g0: Seq<Set<usize>>,
    width: int,
    level: nat,
    bl: usize,
    tl: usize,
    tr: usize,
    br: usize,
    gi: int,
    gj: int,
    ci: int,
    cj: int,
) -> bool {
    forall|x: int, y: usize|
        0 <= x < g.len() ==> (#[trigger] g[x].contains(y) <==> (x < g0.len() && g0[x].contains(y))
            || cell_edges_before(width, bl, tl, tr, br, g0.len() as int, gi, gj, x, y as int)
            || child_edges_before(width, level, bl, tl, tr, br, g0.len() as int, ci, cj, x, y as int))
}

/// The two ends of a nested edge lie in the grid: corners, or new nodes of
/// the grid or of the grids nested into it.
pub proof fn lemma_nested_edge_in_grid(
    width: int,
    level: nat,
    bl: usize,
    tl: usize,
    tr: usize,
    br: usize,
    base: int,
    x: int,
    y: int,
)
    requires
        0 <= width,
        bl < base && tl < base && tr < base && br < base,
        base + nested_count(width, level) <= usize::MAX,
        is_nested_edge(width, level, bl, tl, tr, br, base, x, y),
    ensures
        in_grid(bl, tl, tr, br, base, base + nested_count(width, level), x),
        in_grid(bl, tl, tr, br, base, base + nested_count(width, level), y),
    decreases level,
{
    lemma_nodes_below(width, bl, tl, tr, br, base);
    lemma_nested_count_nonneg(width, level);
    if width < 2 {
        assert forall|r: int, c: int| 0 <= r < width && 0 <= c < width implies !#[trigger] cell_edge(
            width,
            bl,
            tl,
            tr,
            br,
            base,
            r,
            c,
            x,
            y,
        ) by {
            assert(r == 0 && c == 0);
        }
        assert(false);
    }
    let cnt = nested_count(width, (level - 1) as nat);
    if level > 1 {
        lemma_nested_count_nonneg(width, (level - 1) as nat);
        assert((width - 1) * (width - 1) * cnt >= 0) by (nonlinear_arith)
            requires
                cnt >= 0,
        ;
    }
    assert(width * width >= 4) by (nonlinear_arith)
        requires
            width >= 2,
    ;
    assert(new_in_grid(width) <= nested_count(width, level));
    if exists|r: int, c: int| 0 <= r < width && 0 <= c < width && #[trigger] cell_edge(width, bl, tl, tr, br, base, r, c, x, y) {
        let (r, c) = choose|r: int, c: int| 0 <= r < width && 0 <= c < width && #[trigger] cell_edge(width, bl, tl, tr, br, base, r, c, x, y);
        assert(nodes_below(width, bl, tl, tr, br, base, base + new_in_grid(width)));
        let a = grid_node(width, bl, tl, tr, br, base, r, c);
        assert(in_grid(bl, tl, tr, br, base, base + new_in_grid(width), a));
        if r > 0 {
            assert(in_grid(bl, tl, tr, br, base, base + new_in_grid(width), grid_node(width, bl, tl, tr, br, base, r - 1, c)));
        }
        if c > 0 {
            assert(in_grid(bl, tl, tr, br, base, base + new_in_grid(width), grid_node(width, bl, tl, tr, br, base, r, c - 1)));
        }
        assert(in_grid(bl, tl, tr, br, base, base + new_in_grid(width), x));
        assert(in_grid(bl, tl, tr, br, base, base + new_in_grid(width), y));
    } else {
        let (i, j) = choose|i: int, j: int|
            #![trigger child_base(width, level, base, i, j)]
            1 <= i < width && 1 <= j < width && is_nested_edge(
                width,
                (level - 1) as nat,
                grid_node(width, bl, tl, tr, br, base, i - 1, j - 1) as usize,
                grid_node(width, bl, tl, tr, br, base, i - 1, j) as usize,
                grid_node(width, bl, tl, tr, br, base, i, j) as usize,
                grid_node(width, bl, tl, tr, br, base, i, j - 1) as usize,
                child_base(width, level, base, i, j),
                x,
                y,
            );
        let cb = child_base(width, level, base, i, j);
        let c_bl = grid_node(width, bl, tl, tr, br, base, i - 1, j - 1);
        let c_tl = grid_node(width, bl, tl, tr, br, base, i - 1, j);
        let c_tr = grid_node(width, bl, tl, tr, br, base, i, j);
        let c_br = grid_node(width, bl, tl, tr, br, base, i, j - 1);
        assert(in_grid(bl, tl, tr, br, base, base + new_in_grid(width), c_bl));
        assert(in_grid(bl, tl, tr, br, base, base + new_in_grid(width), c_tl));
        assert(in_grid(bl, tl, tr, br, base, base + new_in_grid(width), c_tr));
        assert(in_grid(bl, tl, tr, br, base, base + new_in_grid(width), c_br));
        lemma_cells_bound(width, i, j, cnt);
        assert(((i - 1) * (width - 1) + (j - 1)) * cnt >= 0) by (nonlinear_arith)
            requires
                i >= 1,
                j >= 1,
                width >= 2,
                cnt >= 0,
        ;
        assert((((i - 1) * (width - 1) + (j - 1)) + 1) * cnt == ((i - 1) * (width - 1) + (j - 1)) * cnt + cnt)
            by (nonlinear_arith);
        assert(level > 1);
        assert(nested_count(width, level) == new_in_grid(width) + (width - 1) * (width - 1) * cnt);
        lemma_nested_edge_in_grid(
            width,
            (level - 1) as nat,
            c_bl as usize,
            c_tl as usize,
            c_tr as usize,
            c_br as usize,
            cb,
            x,
            y,
        );
        assert(in_grid(c_bl as usize, c_tl as usize, c_tr as usize, c_br as usize, cb, cb + cnt, x));
    }
}

/// Adding the edges of one cell: the cell edges now reach past that cell.
proof fn lemma_state_cell(
    before: Seq<Set<usize>>,
    g0: Seq<Set<usize>>,
    width: int,
    level: nat,
    bl: usize,
    tl: usize,
    tr: usize,
    br: usize,
    i: int,
    j: int,
)
    requires
        in_range(before),
        is_symmetric(before),
        before.len() <= usize::MAX,
        0 <= i < width,
        0 <= j < width,
        nodes_below(width, bl, tl, tr, br, g0.len() as int, g0.len() + new_in_grid(width)),
        g0.len() + new_in_grid(width) <= before.len(),
        grid_state(before, g0, width, level, bl, tl, tr, br, i, j, i, j),
    ensures
        ({
            let after = cell_edges(before, width, bl, tl, tr, br, g0.len() as int, i, j);
            &&& after.len() == before.len()
            &&& in_range(after)
            &&& is_symmetric(after)
            &&& grid_state(after, g0, width, level, bl, tl, tr, br, i, j + 1, i, j)
        }),
{
    let base = g0.len() as int;
    let a = grid_node(width, bl, tl, tr, br, base, i, j);
    let up = grid_node(width, bl, tl, tr, br, base, i - 1, j);
    let left = grid_node(width, bl, tl, tr, br, base, i, j - 1);
    let m = if i > 0 {
        with_edge(before, a as usize, up as usize)
    } else {
        before
    };
    let after = cell_edges(before, width, bl, tl, tr, br, base, i, j);
    assert(0 <= a < before.len());
    if i > 0 {
        assert(0 <= up < before.len());
        lemma_add_edge_step(before, a as usize, up as usize);
    }
    if j > 0 {
        assert(0 <= left < before.len());
        lemma_add_edge_step(m, a as usize, left as usize);
    }
    assert forall|x: int, y: usize| 0 <= x < after.len() implies (#[trigger] after[x].contains(y) <==> (x < g0.len()
        && g0[x].contains(y)) || cell_edges_before(width, bl, tl, tr, br, base, i, j + 1, x, y as int)
        || child_edges_before(width, level, bl, tl, tr, br, base, i, j, x, y as int)) by {
        let here = cell_edge(width, bl, tl, tr, br, base, i, j, x, y as int);
        assert(after[x].contains(y) <==> before[x].contains(y) || here);
        if cell_edges_before(width, bl, tl, tr, br, base, i, j + 1, x, y as int) {
            let (r, c) = choose|r: int, c: int|
                0 <= r < width && 0 <= c < width && (r < i || (r == i && c < j + 1)) && #[trigger] cell_edge(
                    width,
                    bl,
                    tl,
                    tr,
                    br,
                    base,
                    r,
                    c,
                    x,
                    y as int,
                );
            if r == i && c == j {
            } else {
                assert(cell_edges_before(width, bl, tl, tr, br, base, i, j, x, y as int));
            }
        }
        if cell_edges_before(width, bl, tl, tr, br, base, i, j, x, y as int) {
            let (r, c) = choose|r: int, c: int|
                0 <= r < width && 0 <= c < width && (r < i || (r == i && c < j)) && #[trigger] cell_edge(
                    width,
                    bl,
                    tl,
                    tr,
                    br,
                    base,
                    r,
                    c,
                    x,
                    y as int,
                );
            assert(cell_edges_before(width, bl, tl, tr, br, base, i, j + 1, x, y as int));
        }
        if here {
            assert(cell_edges_before(width, bl, tl, tr, br, base, i, j + 1, x, y as int));
        }
    }
}

/// The edges of the grids nested into the cells before row `i`, column `j`
/// join nodes below the first new node of the grid nested into that cell.
proof fn lemma_earlier_children_below(
    width: int,
    level: nat,
    bl: usize,
    tl: usize,
    tr: usize,
    br: usize,
    base: int,
    i: int,
    j: int,
    x: int,
    y: int,
)
    requires
        2 <= width,
        1 <= i < width,
        1 <= j < width,
        level > 1,
        bl < base && tl < base && tr < base && br < base,
        base + nested_count(width, level) <= usize::MAX,
        child_edges_before(width, level, bl, tl, tr, br, base, i, j, x, y),
    ensures
        x < child_base(width, level, base, i, j),
        y < child_base(width, level, base, i, j),
{
    let cnt = nested_count(width, (level - 1) as nat);
    lemma_nested_count_nonneg(width, (level - 1) as nat);
    lemma_nodes_below(width, bl, tl, tr, br, base);
    let (a, b) = choose|a: int, b: int|
        1 <= a < width && 1 <= b < width && (a < i || (a == i && b < j)) && #[trigger] child_edge(
            width,
            level,
            bl,
            tl,
            tr,
            br,
            base,
            a,
            b,
            x,
            y,
        );
    let cb = child_base(width, level, base, a, b);
    let k = (a - 1) * (width - 1) + (b - 1);
    let kk = (i - 1) * (width - 1) + (j - 1);
    assert(k < kk) by (nonlinear_arith)
        requires
            1 <= a <= i,
            a < i || b < j,
            1 <= b < width,
            1 <= j < width,
            k == (a - 1) * (width - 1) + (b - 1),
            kk == (i - 1) * (width - 1) + (j - 1),
    ;
    assert((k + 1) * cnt <= kk * cnt) by (nonlinear_arith)
        requires
            k + 1 <= kk,
            cnt >= 0,
    ;
    assert((k + 1) * cnt == k * cnt + cnt) by (nonlinear_arith);
    assert(k * cnt >= 0) by (nonlinear_arith)
        requires
            k >= 0,
            cnt >= 0,
    ;
    assert(width * width >= 4) by (nonlinear_arith)
        requires
            width >= 2,
    ;
    let c_bl = grid_node(width, bl, tl, tr, br, base, a - 1, b - 1);
    let c_tl = grid_node(width, bl, tl, tr, br, base, a - 1, b);
    let c_tr = grid_node(width, bl, tl, tr, br, base, a, b);
    let c_br = grid_node(width, bl, tl, tr, br, base, a, b - 1);
    assert(0 <= c_bl < base + new_in_grid(width));
    assert(0 <= c_tl < base + new_in_grid(width));
    assert(0 <= c_tr < base + new_in_grid(width));
    assert(0 <= c_br < base + new_in_grid(width));
    lemma_cells_bound(width, a, b, cnt);
    assert(nested_count(width, level) == new_in_grid(width) + (width - 1) * (width - 1) * cnt);
    lemma_nested_edge_in_grid(
        width,
        (level - 1) as nat,
        c_bl as usize,
        c_tl as usize,
        c_tr as usize,
        c_br as usize,
        cb,
        x,
        y,
    );
}

/// The cell edges before row `i`, column `j` join nodes of the grid.
proof fn lemma_cell_edges_below(
    width: int,
    bl: usize,
    tl: usize,
    tr: usize,
    br: usize,
    base: int,
    i: int,
    j: int,
    x: int,
    y: int,
)
    requires
        0 <= width,
        bl < base && tl < base && tr < base && br < base,
        cell_edges_before(width, bl, tl, tr, br, base, i, j, x, y),
    ensures
        0 <= x < base + new_in_grid(width),
        0 <= y < base + new_in_grid(width),
{
    lemma_nodes_below(width, bl, tl, tr, br, base);
    let (r, c) = choose|r: int, c: int|
        0 <= r < width && 0 <= c < width && (r < i || (r == i && c < j)) && #[trigger] cell_edge(
            width,
            bl,
            tl,
            tr,
            br,
            base,
            r,
            c,
            x,
            y,
        );
    assert(0 <= grid_node(width, bl, tl, tr, br, base, r, c) < base + new_in_grid(width));
    if r > 0 {
        assert(0 <= grid_node(width, bl, tl, tr, br, base, r - 1, c) < base + new_in_grid(width));
    }
    if c > 0 {
        assert(0 <= grid_node(width, bl, tl, tr, br, base, r, c - 1) < base + new_in_grid(width));
    }
}

/// The grids nested into the cells before the one after row `i`, column
/// `j` are those before it and the one in it.
proof fn lemma_children_step(
    width: int,
    level: nat,
    bl: usize,
    tl: usize,
    tr: usize,
    br: usize,
    base: int,
    i: int,
    j: int,
    x: int,
    y: int,
)
    ensures
        child_edges_before(width, level, bl, tl, tr, br, base, i, j + 1, x, y) <==> child_edges_before(
            width,
            level,
            bl,
            tl,
            tr,
            br,
            base,
            i,
            j,
            x,
            y,
        ) || (level > 1 && 1 <= i < width && 1 <= j < width && child_edge(width, level, bl, tl, tr, br, base, i, j, x, y)),
{
    if child_edges_before(width, level, bl, tl, tr, br, base, i, j + 1, x, y) {
        let (a, b) = choose|a: int, b: int|
            1 <= a < width && 1 <= b < width && (a < i || (a == i && b < j + 1)) && #[trigger] child_edge(
                width,
                level,
                bl,
                tl,
                tr,
                br,
                base,
                a,
                b,
                x,
                y,
            );
        if !(a == i && b == j) {
            assert(child_edges_before(width, level, bl, tl, tr, br, base, i, j, x, y));
        }
    }
    if child_edges_before(width, level, bl, tl, tr, br, base, i, j, x, y) {
        let (a, b) = choose|a: int, b: int|
            1 <= a < width && 1 <= b < width && (a < i || (a == i && b < j)) && #[trigger] child_edge(
                width,
                level,
                bl,
                tl,
                tr,
                br,
                base,
                a,
                b,
                x,
                y,
            );
        assert(child_edges_before(width, level, bl, tl, tr, br, base, i, j + 1, x, y));
    }
}

/// Nesting a grid into the cell at row `i`, column `j`: its edges join in.
proof fn lemma_state_child(
    pre: Seq<Set<usize>>,
    post: Seq<Set<usize>>,
    g0: Seq<Set<usize>>,
    width: int,
    level: nat,
    bl: usize,
    tl: usize,
    tr: usize,
    br: usize,
    i: int,
    j: int,
)
    requires
        2 <= width,
        1 <= i < width,
        1 <= j < width,
        level > 1,
        bl < g0.len() && tl < g0.len() && tr < g0.len() && br < g0.len(),
        g0.len() + nested_count(width, level) <= usize::MAX,
        g0.len() + new_in_grid(width) <= pre.len(),
        pre.len() == child_base(width, level, g0.len() as int, i, j),
        post.len() >= pre.len(),
        grid_state(pre, g0, width, level, bl, tl, tr, br, i, j + 1, i, j),
        forall|x: int, y: usize|
            0 <= x < post.len() ==> (#[trigger] post[x].contains(y) <==> (x < pre.len() && pre[x].contains(y))
                || child_edge(width, level, bl, tl, tr, br, g0.len() as int, i, j, x, y as int)),
    ensures
        grid_state(post, g0, width, level, bl, tl, tr, br, i, j + 1, i, j + 1),
{
    let base = g0.len() as int;
    assert(width * width >= 4) by (nonlinear_arith)
        requires
            width >= 2,
    ;
    assert forall|x: int, y: usize| 0 <= x < post.len() implies (#[trigger] post[x].contains(y) <==> (x < g0.len()
        && g0[x].contains(y)) || cell_edges_before(width, bl, tl, tr, br, base, i, j + 1, x, y as int)
        || child_edges_before(width, level, bl, tl, tr, br, base, i, j + 1, x, y as int)) by {
        lemma_children_step(width, level, bl, tl, tr, br, base, i, j, x, y as int);
        if child_edges_before(width, level, bl, tl, tr, br, base, i, j, x, y as int) {
            lemma_earlier_children_below(width, level, bl, tl, tr, br, base, i, j, x, y as int);
        }
        if cell_edges_before(width, bl, tl, tr, br, base, i, j + 1, x, y as int) {
            lemma_cell_edges_below(width, bl, tl, tr, br, base, i, j + 1, x, y as int);
        }
    }
}

/// Before any cell, the edges are those of `g0`.
proof fn lemma_state_start(
    g1: Seq<Set<usize>>,
    g0: Seq<Set<usize>>,
    width: int,
    level: nat,
    bl: usize,
    tl: usize,
    tr: usize,
    br: usize,
)
    requires
        g0.len() <= g1.len(),
        forall|x: int| 0 <= x < g0.len() ==> #[trigger] g1[x] == g0[x],
        forall|x: int| g0.len() <= x < g1.len() ==> #[trigger] g1[x] == Set::<usize>::empty(),
    ensures
        grid_state(g1, g0, width, level, bl, tl, tr, br, 0, 0, 0, 0),
{
    assert forall|x: int, y: usize| 0 <= x < g1.len() implies (#[trigger] g1[x].contains(y) <==> (x < g0.len()
        && g0[x].contains(y)) || cell_edges_before(width, bl, tl, tr, br, g0.len() as int, 0, 0, x, y as int)
        || child_edges_before(width, level, bl, tl, tr, br, g0.len() as int, 0, 0, x, y as int)) by {
        if x >= g0.len() {
            assert(g1[x] == Set::<usize>::empty());
        }
    }
}

/// A cell that holds no nested grid adds none.
proof fn lemma_state_no_child(
    g: Seq<Set<usize>>,
    g0: Seq<Set<usize>>,
    width: int,
    level: nat,
    bl: usize,
    tl: usize,
    tr: usize,
    br: usize,
    i: int,
    j: int,
)
    requires
        !(1 <= i && 1 <= j && level > 1),
        grid_state(g, g0, width, level, bl, tl, tr, br, i, j + 1, i, j),
    ensures
        grid_state(g, g0, width, level, bl, tl, tr, br, i, j + 1, i, j + 1),
{
    assert forall|x: int, y: usize| 0 <= x < g.len() implies (#[trigger] g[x].contains(y) <==> (x < g0.len()
        && g0[x].contains(y)) || cell_edges_before(width, bl, tl, tr, br, g0.len() as int, i, j + 1, x, y as int)
        || child_edges_before(width, level, bl, tl, tr, br, g0.len() as int, i, j + 1, x, y as int)) by {
        lemma_children_step(width, level, bl, tl, tr, br, g0.len() as int, i, j, x, y as int);
    }
}

/// Having gone through a whole row is having gone up to the next.
proof fn lemma_state_next_row(
    g: Seq<Set<usize>>,
    g0: Seq<Set<usize>>,
    width: int,
    level: nat,
    bl: usize,
    tl: usize,
    tr: usize,
    br: usize,
    i: int,
)
    requires
        grid_state(g, g0, width, level, bl, tl, tr, br, i, width, i, width),
    ensures
        grid_state(g, g0, width, level, bl, tl, tr, br, i + 1, 0, i + 1, 0),
{
    let base = g0.len() as int;
    assert forall|x: int, y: int|
        cell_edges_before(width, bl, tl, tr, br, base, i, width, x, y) == cell_edges_before(
            width,
            bl,
            tl,
            tr,
            br,
            base,
            i + 1,
            0,
            x,
            y,
        ) && child_edges_before(width, level, bl, tl, tr, br, base, i, width, x, y) == child_edges_before(
            width,
            level,
            bl,
            tl,
            tr,
            br,
            base,
            i + 1,
            0,
            x,
            y,
        ) by {
        if cell_edges_before(width, bl, tl, tr, br, base, i + 1, 0, x, y) {
            let (r, c) = choose|r: int, c: int|
                0 <= r < width && 0 <= c < width && (r < i + 1 || (r == i + 1 && c < 0)) && #[trigger] cell_edge(
                    width,
                    bl,
                    tl,
                    tr,
                    br,
                    base,
                    r,
                    c,
                    x,
                    y,
                );
            assert(cell_edges_before(width, bl, tl, tr, br, base, i, width, x, y));
        }
        if child_edges_before(width, level, bl, tl, tr, br, base, i + 1, 0, x, y) {
            let (a, b) = choose|a: int, b: int|
                1 <= a < width && 1 <= b < width && (a < i + 1 || (a == i + 1 && b < 0)) && #[trigger] child_edge(
                    width,
                    level,
                    bl,
                    tl,
                    tr,
                    br,
                    base,
                    a,
                    b,
                    x,
                    y,
                );
            assert(child_edges_before(width, level, bl, tl, tr, br, base, i, width, x, y));
        }
    }
}

/// Having gone through all cells, the new edges are the nested edges.
proof fn lemma_state_end(
    g: Seq<Set<usize>>,
    g0: Seq<Set<usize>>,
    width: int,
    level: nat,
    bl: usize,
    tl: usize,
    tr: usize,
    br: usize,
)
    requires
        grid_state(g, g0, width, level, bl, tl, tr, br, width, 0, width, 0),
    ensures
        forall|x: int, y: usize|
            0 <= x < g.len() ==> (#[trigger] g[x].contains(y) <==> (x < g0.len() && g0[x].contains(y))
                || is_nested_edge(width, level, bl, tl, tr, br, g0.len() as int, x, y as int)),
{
    let base = g0.len() as int;
    assert forall|x: int, y: int|
        is_nested_edge(width, level, bl, tl, tr, br, base, x, y) == (cell_edges_before(
            width,
            bl,
            tl,
            tr,
            br,
            base,
            width,
            0,
            x,
            y,
        ) || child_edges_before(width, level, bl, tl, tr, br, base, width, 0, x, y)) by {
        if exists|r: int, c: int|
            0 <= r < width && 0 <= c < width && #[trigger] cell_edge(width, bl, tl, tr, br, base, r, c, x, y) {
            let (r, c) = choose|r: int, c: int|
                0 <= r < width && 0 <= c < width && #[trigger] cell_edge(width, bl, tl, tr, br, base, r, c, x, y);
            assert(cell_edges_before(width, bl, tl, tr, br, base, width, 0, x, y));
        }
        if level > 1 && exists|i: int, j: int|
            #![trigger child_base(width, level, base, i, j)]
            1 <= i < width && 1 <= j < width && is_nested_edge(
                width,
                (level - 1) as nat,
                grid_node(width, bl, tl, tr, br, base, i - 1, j - 1) as usize,
                grid_node(width, bl, tl, tr, br, base, i - 1, j) as usize,
                grid_node(width, bl, tl, tr, br, base, i, j) as usize,
                grid_node(width, bl, tl, tr, br, base, i, j - 1) as usize,
                child_base(width, level, base, i, j),
                x,
                y,
            ) {
            let (i, j) = choose|i: int, j: int|
                #![trigger child_base(width, level, base, i, j)]
                1 <= i < width && 1 <= j < width && is_nested_edge(
                    width,
                    (level - 1) as nat,
                    grid_node(width, bl, tl, tr, br, base, i - 1, j - 1) as usize,
                    grid_node(width, bl, tl, tr, br, base, i - 1, j) as usize,
                    grid_node(width, bl, tl, tr, br, base, i, j) as usize,
                    grid_node(width, bl, tl, tr, br, base, i, j - 1) as usize,
                    child_base(width, level, base, i, j),
                    x,
                    y,
                );
            assert(child_edge(width, level, bl, tl, tr, br, base, i, j, x, y));
            assert(child_edges_before(width, level, bl, tl, tr, br, base, width, 0, x, y));
        }
        if cell_edges_before(width, bl, tl, tr, br, base, width, 0, x, y) {
            let (r, c) = choose|r: int, c: int|
                0 <= r < width && 0 <= c < width && (r < width || (r == width && c < 0)) && #[trigger] cell_edge(
                    width,
                    bl,
                    tl,
                    tr,
                    br,
                    base,
                    r,
                    c,
                    x,
                    y,
                );
        }
        if child_edges_before(width, level, bl, tl, tr, br, base, width, 0, x, y) {
            let (a, b) = choose|a: int, b: int|
                1 <= a < width && 1 <= b < width && (a < width || (a == width && b < 0)) && #[trigger] child_edge(
                    width,
                    level,
                    bl,
                    tl,
                    tr,
                    br,
                    base,
                    a,
                    b,
                    x,
                    y,
                );
            assert(child_base(width, level, base, a, b) == child_base(width, level, base, a, b));
        }
    }
}

/// Adds a grid of `width` spanned by the corners `bl`, `tl`, `tr` and `br`
/// (`get_subgrid_nodes`), joins each of its nodes to the one before it in
/// its column and in its row, and, from level two on, nests a grid of the
/// next lower level into each of its cells, cell by cell in row-major order.
///
/// The new nodes are those of `nested_count`; the new edges are exactly the
/// nested edges (`is_nested_edge`); the grid's own nodes are placed in it.
#[verifier::rlimit(60)]
pub fn recurse_grid(g: &mut NestedGrid, width: usize, level: usize, bl: usize, tl: usize, tr: usize, br: usize)
    requires
        old(g).wf(),
        bl < old(g).graph@.len(),
        tl < old(g).graph@.len(),
        tr < old(g).graph@.len(),
        br < old(g).graph@.len(),
        old(g).graph@.len() + nested_count(width as int, level as nat) <= usize::MAX,
    ensures
        final(g).wf(),
        final(g).graph@.len() == old(g).graph@.len() + nested_count(width as int, level as nat),
        final(g).placements@.subrange(0, old(g).placements@.len() as int) == old(g).placements@,
        forall|x: int, y: usize|
            0 <= x < final(g).graph@.len() ==> (#[trigger] final(g).graph@[x].contains(y) <==> (x
                < old(g).graph@.len() && old(g).graph@[x].contains(y)) || is_nested_edge(
                width as int,
                level as nat,
                bl,
                tl,
                tr,
                br,
                old(g).graph@.len() as int,
                x,
                y as int,
            )),
        forall|r: int, c: int|
            0 <= r < width && 0 <= c < width && !is_corner_cell(width as int, r, c)
                ==> final(g).placements@[grid_node(width as int, bl, tl, tr, br, old(g).graph@.len() as int, r, c)]
                == Some(Placement { bl, tl, tr, br, row: r as usize, col: c as usize, width }),
    decreases level,
{
    let ghost base = g.graph@.len() as int;
    let ghost w = width as int;
    let ghost lv = level as nat;
    let ghost g0 = g.graph@;
    let ghost p0 = g.placements@;
    let ghost cnt: int = if level > 1 {
        nested_count(w, (level - 1) as nat)
    } else {
        0
    };
    proof {
        lemma_nested_count_nonneg(w, lv);
        if level > 1 {
            lemma_nested_count_nonneg(w, (level - 1) as nat);
        }
        if width >= 2 {
            assert(w * w >= 4) by (nonlinear_arith)
                requires
                    w >= 2,
            ;
        }
    }
    let sub = get_subgrid_nodes(g, width, bl, tl, tr, br);
    let ghost g1 = g.graph@;
    let ghost p1 = g.placements@;
    proof {
        lemma_nodes_below(w, bl, tl, tr, br, base);
        lemma_state_start(g1, g0, w, lv, bl, tl, tr, br);
    }
    let ghost mut cells: int = 0;
    let mut i: usize = 0;
    while i < width
        invariant
            0 <= i <= width,
            w == width,
            lv == level,
            g.wf(),
            base == g0.len(),
            bl < base && tl < base && tr < base && br < base,
            g1.len() == base + new_in_grid(w),
            base <= g1.len(),
            base + nested_count(w, lv) <= usize::MAX,
            cnt >= 0,
            width >= 2 ==> new_in_grid(w) + (w - 1) * (w - 1) * cnt == nested_count(w, lv),
            width < 2 ==> nested_count(w, lv) == 0,
            level > 1 ==> cnt == nested_count(w, (level - 1) as nat),
            level <= 1 ==> cnt == 0,
            sub@.len() == width,
            forall|r: int| 0 <= r < width ==> (#[trigger] sub@[r])@.len() == width,
            forall|r: int, c: int|
                0 <= r < width && 0 <= c < width ==> sub@[r]@[c] == grid_node(w, bl, tl, tr, br, base, r, c),
            nodes_below(w, bl, tl, tr, br, base, g1.len() as int),
            cells == if i == 0 {
                0
            } else {
                (i - 1) * (w - 1)
            },
            g.graph@.len() == g1.len() + cells * cnt,
            grid_state(g.graph@, g0, w, lv, bl, tl, tr, br, i as int, 0, i as int, 0),
            g.placements@.subrange(0, g1.len() as int) == p1,
        decreases width - i,
    {
        let mut j: usize = 0;
        while j < width
            invariant
                0 <= i < width,
                0 <= j <= width,
                w == width,
                lv == level,
                g.wf(),
                base == g0.len(),
                bl < base && tl < base && tr < base && br < base,
                g1.len() == base + new_in_grid(w),
                base <= g1.len(),
                base + nested_count(w, lv) <= usize::MAX,
                cnt >= 0,
                width >= 2 ==> new_in_grid(w) + (w - 1) * (w - 1) * cnt == nested_count(w, lv),
                width < 2 ==> nested_count(w, lv) == 0,
                level > 1 ==> cnt == nested_count(w, (level - 1) as nat),
                level <= 1 ==> cnt == 0,
                sub@.len() == width,
                forall|r: int| 0 <= r < width ==> (#[trigger] sub@[r])@.len() == width,
                forall|r: int, c: int|
                    0 <= r < width && 0 <= c < width ==> sub@[r]@[c] == grid_node(w, bl, tl, tr, br, base, r, c),
                nodes_below(w, bl, tl, tr, br, base, g1.len() as int),
                cells == if i == 0 {
                    0
                } else {
                    (i - 1) * (w - 1) + if j == 0 {
                        0
                    } else {
                        j - 1
                    }
                },
                g.graph@.len() == g1.len() + cells * cnt,
                grid_state(g.graph@, g0, w, lv, bl, tl, tr, br, i as int, j as int, i as int, j as int),
                g.placements@.subrange(0, g1.len() as int) == p1,
            decreases width - j,
        {
            let ghost before = g.graph@;
            proof {
                assert(cells * cnt >= 0) by (nonlinear_arith)
                    requires
                        cells >= 0,
                        cnt >= 0,
                ;
                lemma_state_cell(before, g0, w, lv, bl, tl, tr, br, i as int, j as int);
                assert(0 <= grid_node(w, bl, tl, tr, br, base, i as int, j as int) < g1.len());
                if i > 0 {
                    assert(0 <= grid_node(w, bl, tl, tr, br, base, i - 1, j as int) < g1.len());
                    lemma_add_edge_step(
                        before,
                        grid_node(w, bl, tl, tr, br, base, i as int, j as int) as usize,
                        grid_node(w, bl, tl, tr, br, base, i - 1, j as int) as usize,
                    );
                }
            }
            if i > 0 {
                g.graph.add_edge(sub[i][j], sub[i - 1][j]);
            }
            if j > 0 {
                g.graph.add_edge(sub[i][j], sub[i][j - 1]);
            }
            proof {
                assert(g.graph@ == cell_edges(before, w, bl, tl, tr, br, base, i as int, j as int));
                assert forall|z: int| 0 <= z < g.placements@.len() implies placement_precedes(
                    #[trigger] g.placements@[z],
                    z,
                ) by {}
            }
            if i > 0 && j > 0 && level > 1 {
                let ghost pre = g.graph@;
                proof {
                    lemma_cells_bound(w, i as int, j as int, cnt);
                    assert((cells + 1) * cnt == cells * cnt + cnt) by (nonlinear_arith);
                    assert(0 <= grid_node(w, bl, tl, tr, br, base, i - 1, j - 1) < g1.len());
                    assert(0 <= grid_node(w, bl, tl, tr, br, base, i - 1, j as int) < g1.len());
                    assert(0 <= grid_node(w, bl, tl, tr, br, base, i as int, j - 1) < g1.len());
                    assert(pre.len() == child_base(w, lv, base, i as int, j as int));
                }
                recurse_grid(g, width, level - 1, sub[i - 1][j - 1], sub[i - 1][j], sub[i][j], sub[i][j - 1]);
                proof {
                    let post = g.graph@;
                    assert forall|x: int, y: usize| 0 <= x < post.len() implies (#[trigger] post[x].contains(y) <==> (x
                        < pre.len() && pre[x].contains(y)) || child_edge(
                        w,
                        lv,
                        bl,
                        tl,
                        tr,
                        br,
                        base,
                        i as int,
                        j as int,
                        x,
                        y as int,
                    )) by {}
                    lemma_state_child(pre, post, g0, w, lv, bl, tl, tr, br, i as int, j as int);
                    assert(g.placements@.subrange(0, g1.len() as int) =~= p1);
                }
            } else {
                proof {
                    lemma_state_no_child(g.graph@, g0, w, lv, bl, tl, tr, br, i as int, j as int);
                }
            }
            proof {
                if i > 0 && j > 0 {
                    assert((cells + 1) * cnt == cells * cnt + cnt) by (nonlinear_arith);
                    cells = cells + 1;
                }
            }
            j = j + 1;
        }
        proof {
            if i > 0 {
                assert((i - 1) * (w - 1) + (w - 1) == i * (w - 1)) by (nonlinear_arith);
            }
            lemma_state_next_row(g.graph@, g0, w, lv, bl, tl, tr, br, i as int);
        }
        i = i + 1;
    }
    proof {
        if width >= 1 {
            assert(cells == (w - 1) * (w - 1));
        }
        if width < 2 {
            assert(cells * cnt == 0) by (nonlinear_arith)
                requires
                    cells == 0,
            ;
        }
        lemma_state_end(g.graph@, g0, w, lv, bl, tl, tr, br);
        assert(g.placements@.subrange(0, base) =~= p0) by {
            assert(g.placements@.subrange(0, base) == g.placements@.subrange(0, g1.len() as int).subrange(0, base));
        }
        assert forall|r: int, c: int|
            0 <= r < width && 0 <= c < width && !is_corner_cell(w, r, c) implies g.placements@[grid_node(
                w,
                bl,
                tl,
                tr,
                br,
                base,
                r,
                c,
            )] == Some(Placement { bl, tl, tr, br, row: r as usize, col: c as usize, width }) by {
            let x = grid_node(w, bl, tl, tr, br, base, r, c);
            assert(0 <= x < g1.len());
            assert(g.placements@.subrange(0, g1.len() as int)[x] == g.placements@[x]);
        }
    }
}

/// The edge `x - y` is one of the cycle `0 - 1 - 2 - 3 - 0`.
pub open spec fn is_cycle_edge(x: int, y: int) -> bool {
    ||| x == 0 && (y == 1 || y == 3)
    ||| x == 1 && (y == 0 || y == 2)
    ||| x == 2 && (y == 1 || y == 3)
    ||| x == 3 && (y == 2 || y == 0)
}

/// The cycle `0 - 1 - 2 - 3 - 0` with a grid of `width` spanned by it
/// (`bl` 0, `tl` 1, `tr` 2, `br` 3) and grids nested into its cells down to
/// `levels` (`recurse_grid`). The four cycle nodes carry no placement.
pub fn build_nested_grid(width: usize, levels: usize) -> (g: NestedGrid)
    requires
        4 + nested_count(width as int, levels as nat) <= usize::MAX,
    ensures
        g.wf(),
        g.graph@.len() == 4 + nested_count(width as int, levels as nat),
        forall|z: int| 0 <= z < 4 ==> #[trigger] g.placements@[z] == None::<Placement>,
        forall|x: int, y: usize|
            0 <= x < g.graph@.len() ==> (#[trigger] g.graph@[x].contains(y) <==> is_cycle_edge(x, y as int)
                || is_nested_edge(width as int, levels as nat, 0, 1, 2, 3, 4, x, y as int)),
        forall|r: int, c: int|
            0 <= r < width && 0 <= c < width && !is_corner_cell(width as int, r, c)
                ==> g.placements@[grid_node(width as int, 0, 1, 2, 3, 4, r, c)] == Some(
                Placement { bl: 0, tl: 1, tr: 2, br: 3, row: r as usize, col: c as usize, width },
            ),
{
    let mut graph = Graph::with_node_count(4);
    let ghost e0 = graph@;
    proof {
        assert(in_range(e0));
        assert(is_symmetric(e0));
        lemma_add_edge_step(e0, 0, 1);
    }
    graph.add_edge(0, 1);
    proof {
        lemma_add_edge_step(graph@, 1, 2);
    }
    graph.add_edge(1, 2);
    proof {
        lemma_add_edge_step(graph@, 2, 3);
    }
    graph.add_edge(2, 3);
    proof {
        lemma_add_edge_step(graph@, 3, 0);
    }
    graph.add_edge(3, 0);
    let ghost e4 = graph@;
    proof {
        assert forall|x: int, y: usize| 0 <= x < 4 implies (#[trigger] e4[x].contains(y) <==> is_cycle_edge(
            x,
            y as int,
        )) by {}
    }
    let mut placements: Vec<Option<Placement>> = Vec::new();
    let mut k: usize = 0;
    while k < 4
        invariant
            k <= 4,
            placements@.len() == k,
            forall|z: int| 0 <= z < k ==> #[trigger] placements@[z] == None::<Placement>,
        decreases 4 - k,
    {
        placements.push(None);
        k = k + 1;
    }
    let mut g = NestedGrid { graph, placements };
    recurse_grid(&mut g, width, levels, 0, 1, 2, 3);
    proof {
        lemma_nested_count_nonneg(width as int, levels as nat);
        assert forall|z: int| 0 <= z < 4 implies #[trigger] g.placements@[z] == None::<Placement> by {
            assert(g.placements@.subrange(0, 4)[z] == g.placements@[z]);
        }
        assert forall|x: int, y: usize| 0 <= x < g.graph@.len() implies (#[trigger] g.graph@[x].contains(y)
            <==> is_cycle_edge(x, y as int) || is_nested_edge(width as int, levels as nat, 0, 1, 2, 3, 4, x, y as int)) by {
            if x < 4 {
                assert(e4[x].contains(y) <==> is_cycle_edge(x, y as int));
            }
        }
    }
    g
}

/// Nesting one level deeper adds nodes.
proof fn lemma_nested_count_grows(width: int, level: nat)
    requires
        width >= 2,
    ensures
        nested_count(width, level) <= nested_count(width, level + 1),
    decreases level,
{
    lemma_nested_count_nonneg(width, level);
    assert((width - 1) * (width - 1) >= 1) by (nonlinear_arith)
        requires
            width >= 2,
    ;
    if level > 1 {
        lemma_nested_count_grows(width, (level - 1) as nat);
        lemma_nested_count_nonneg(width, (level - 1) as nat);
        assert((width - 1) * (width - 1) * nested_count(width, (level - 1) as nat) <= (width - 1) * (width
            - 1) * nested_count(width, level)) by (nonlinear_arith)
            requires
                nested_count(width, (level - 1) as nat) <= nested_count(width, level),
                (width - 1) * (width - 1) >= 1,
        ;
    } else if level == 1 {
        assert(nested_count(width, level + 1) == width * width - 4 + (width - 1) * (width - 1)
            * nested_count(width, level));
        assert((width - 1) * (width - 1) * nested_count(width, level) >= nested_count(width, level))
            by (nonlinear_arith)
            requires
                nested_count(width, level) >= 0,
                (width - 1) * (width - 1) >= 1,
        ;
    }
}

/// Nesting deeper adds nodes.
proof fn lemma_nested_count_monotone(width: int, l: nat, m: nat)
    requires
        width >= 2,
        l <= m,
    ensures
        nested_count(width, l) <= nested_count(width, m),
    decreases m - l,
{
    if l < m {
        lemma_nested_count_grows(width, l);
        lemma_nested_count_monotone(width, l + 1, m);
    }
}

/// The number of nodes of `build_nested_grid(width, levels)`, or `None`
/// where it does not fit in a `usize`.
pub fn nested_grid_size(width: usize, levels: usize) -> (r: Option<usize>)
    ensures
        r matches Some(n) ==> n == 4 + nested_count(width as int, levels as nat),
        r is None ==> 4 + nested_count(width as int, levels as nat) > usize::MAX,
{
    let ghost w = width as int;
    if width < 2 {
        return Some(4);
    }
    proof {
        lemma_nested_count_nonneg(w, levels as nat);
        lemma_nested_count_monotone(w, 0, levels as nat);
        assert(w * w >= 4) by (nonlinear_arith)
            requires
                w >= 2,
        ;
    }
    let new = match width.checked_mul(width) {
        Some(sq) => sq - 4,
        None => {
            return None;
        },
    };
    let side = width - 1;
    let cells = match side.checked_mul(side) {
        Some(c) => c,
        None => {
            proof {
                assert(side * side <= w * w) by (nonlinear_arith)
                    requires
                        side == w - 1,
                        w >= 2,
                ;
            }
            return None;
        },
    };
    let mut count: usize = new;
    let mut level: usize = 1;
    while level < levels
        invariant
            1 <= level,
            level <= levels || level == 1,
            w == width,
            w >= 2,
            new == w * w - 4,
            cells == (w - 1) * (w - 1),
            count == nested_count(w, level as nat),
        decreases levels - level,
    {
        proof {
            lemma_nested_count_nonneg(w, level as nat);
            lemma_nested_count_monotone(w, (level + 1) as nat, levels as nat);
            assert(nested_count(w, (level + 1) as nat) == new + cells * count);
        }
        let more = match cells.checked_mul(count) {
            Some(m) => m,
            None => {
                return None;
            },
        };
        count = match new.checked_add(more) {
            Some(c) => c,
            None => {
                return None;
            },
        };
        level = level + 1;
    }
    proof {
        if levels == 0 {
            assert(nested_count(w, 0) == nested_count(w, 1));
            assert(count == nested_count(w, levels as nat));
        } else {
            assert(level == levels);
            assert(count == nested_count(w, levels as nat));
        }
    }
    count.checked_add(4)
}

} // verus!
