//! Site percolation on a grid of cells, with edges that may wrap around, tracked by weighted
//! quick-union over the cells plus a start node and an end node.
use vstd::prelude::*;
use vstd::arithmetic::div_mod::{lemma_fundamental_div_mod, lemma_fundamental_div_mod_converse};
use crate::algorithms::connectivity::{
    law_reach_monotone, is_path, is_reach_of, lemma_reach_no_edges, lemma_reach_same_edges, law_union_adds_edge, linked,
    no_edges, reach, reach_rel, with_edge,
};
use crate::algorithms::forest::{joined, law_joined_keeps_agreement, union_model};
use crate::algorithms::union_find::WeightedQuickUnion;
use crate::grid::Grid;
use crate::random::random_below;

verus! {

/// Color index of a blocked cell.
pub const COLOR_INDEX_BLACK: usize = 0;

/// Color index of an open cell reached by neither the start nor the end node.
pub const COLOR_INDEX_WHITE: usize = 1;

/// Color index of a cell reached from the start node.
pub const COLOR_INDEX_BLUE: usize = 2;

/// Color index of a cell reached from the end node.
pub const COLOR_INDEX_RED: usize = 3;

/// Color index of a cell in the first of the components picked out for colors of their own.
pub const COLOR_INDEX_FIRST_EXTRA: usize = 4;

/// `i` is the first position of `r` in `roots`.
pub open spec fn first_match(roots: Seq<int>, r: int, i: int) -> bool {
    &&& 0 <= i < roots.len()
    &&& roots[i] == r
    &&& forall|j: int| 0 <= j < i ==> roots[j] != r
}

/// The color index of an open cell reached by neither the start nor the end node, whose
/// component has root `root`: that of the first of `roots` equal to it, but on the last frame,
/// or white.
pub open spec fn open_color_index(root: int, roots: Seq<int>, is_last_frame: bool) -> int {
    if !is_last_frame && exists|i: int| first_match(roots, root, i) {
        COLOR_INDEX_FIRST_EXTRA + choose|i: int| first_match(roots, root, i)
    } else {
        COLOR_INDEX_WHITE as int
    }
}

/// The first position `i` of `root` in `roots` is `choose`n by `open_color_index`.
pub proof fn lemma_first_match_unique(roots: Seq<int>, root: int, i: int)
    requires
        first_match(roots, root, i),
    ensures
        (choose|k: int| first_match(roots, root, k)) == i,
{
    let k = choose|k: int| first_match(roots, root, k);
    assert(first_match(roots, root, k));
    if k < i {
        assert(roots[k] != root);
    } else if i < k {
        assert(roots[i] != root);
    }
}

/// What a cell shows: blocked, open, or open and reached from the start node.
#[derive(Clone, Copy, PartialEq, Eq)]
pub enum PercolationBlockState {
    Blocked,
    Open,
    Filled,
}

/// Where the start and end nodes attach.
#[derive(Clone, Copy)]
pub enum PercolationType {
    /// The start node above the top row, the end node below the bottom row.
    TopBottom,
    /// The start node at a disc in the top-left corner, the end node at one in the bottom-right.
    TopLeftBottomRight { radius: usize },
    /// The start node at a disc in the middle, the end node at the top row and the left edge.
    CenterOut { radius: usize },
}

impl PercolationType {
    /// The name of the type.
    pub fn to_name(&self) -> (name: &'static str)
        ensures
            name@ == match self {
                PercolationType::TopBottom => "top-bottom"@,
                PercolationType::TopLeftBottomRight { .. } => "top-left-bottom-right"@,
                PercolationType::CenterOut { .. } => "center-out"@,
            },
    {
        match self {
            PercolationType::TopBottom => "top-bottom",
            PercolationType::TopLeftBottomRight { radius: _ } => "top-left-bottom-right",
            PercolationType::CenterOut { radius: _ } => "center-out",
        }
    }
}

/// The coordinate `v` on an axis of `size` cells: moved to the other edge when it is just off
/// the grid and the axis wraps, absent when it is off the grid and the axis does not wrap.
pub open spec fn wrap_axis(v: int, size: int, wrap: bool) -> Option<int> {
    if v < 0 {
        if wrap {
            Some(v + size)
        } else {
            None
        }
    } else if v >= size {
        if wrap {
            Some(v - size)
        } else {
            None
        }
    } else {
        Some(v)
    }
}

/// The cell at `(x, y)` after wrapping, if any.
pub open spec fn resolved(w: int, h: int, wrap_lr: bool, wrap_tb: bool, x: int, y: int) -> Option<
    (int, int),
> {
    match wrap_axis(x, w, wrap_lr) {
        Some(a) => match wrap_axis(y, h, wrap_tb) {
            Some(b) => Some((a, b)),
            None => None,
        },
        None => None,
    }
}

/// Column step of direction `k`: north, east, south, west.
pub open spec fn dir_dx(k: int) -> int {
    if k == 1 {
        1
    } else if k == 3 {
        -1
    } else {
        0
    }
}

/// Row step of direction `k`: north, east, south, west.
pub open spec fn dir_dy(k: int) -> int {
    if k == 0 {
        -1
    } else if k == 2 {
        1
    } else {
        0
    }
}

/// The node of the neighbor of cell node `u` in direction `k`, if any.
pub open spec fn neighbor_node(w: int, h: int, wrap_lr: bool, wrap_tb: bool, u: int, k: int) -> Option<int> {
    match resolved(w, h, wrap_lr, wrap_tb, u % w + dir_dx(k), u / w + dir_dy(k)) {
        Some((a, b)) => Some(b * w + a),
        None => None,
    }
}

/// `v` is one of the four neighbors of cell node `u`.
pub open spec fn adjacent(w: int, h: int, wrap_lr: bool, wrap_tb: bool, u: int, v: int) -> bool {
    &&& 0 <= u < w * h
    &&& {
        ||| neighbor_node(w, h, wrap_lr, wrap_tb, u, 0) == Some(v)
        ||| neighbor_node(w, h, wrap_lr, wrap_tb, u, 1) == Some(v)
        ||| neighbor_node(w, h, wrap_lr, wrap_tb, u, 2) == Some(v)
        ||| neighbor_node(w, h, wrap_lr, wrap_tb, u, 3) == Some(v)
    }
}

/// The cell of node `u` is open.
pub open spec fn cell_open(cells: Seq<Seq<bool>>, w: int, u: int) -> bool {
    cells[u / w][u % w]
}

/// The graph of a percolation grid: the attachments of the start and end nodes, and the pairs
/// of neighboring open cells.
pub open spec fn perc_edges(
    cells: Seq<Seq<bool>>,
    w: int,
    h: int,
    wrap_lr: bool,
    wrap_tb: bool,
    links: Seq<(int, int)>,
) -> spec_fn(int, int) -> bool {
    |u: int, v: int|
        links.contains((u, v)) || (0 <= v < w * h && cell_open(cells, w, u) && cell_open(cells, w, v)
            && adjacent(w, h, wrap_lr, wrap_tb, u, v))
}

/// The union-find model after cell node `c`, just opened in `cells`, is joined with each of
/// its first `k` neighbors, up, right, down and left, that is open.
pub open spec fn perc_open_model(
    m: (Seq<int>, Seq<nat>, Seq<usize>),
    compress: bool,
    cells: Seq<Seq<bool>>,
    w: int,
    h: int,
    wrap_lr: bool,
    wrap_tb: bool,
    c: int,
    k: int,
) -> (Seq<int>, Seq<nat>, Seq<usize>)
    decreases k,
{
    if k <= 0 {
        m
    } else {
        let prev = perc_open_model(m, compress, cells, w, h, wrap_lr, wrap_tb, c, k - 1);
        match neighbor_node(w, h, wrap_lr, wrap_tb, c, k - 1) {
            Some(nb) => if cell_open(cells, w, nb) {
                union_model(prev, compress, c, nb)
            } else {
                prev
            },
            None => prev,
        }
    }
}

/// Opening cells never separates nodes: with every cell of `cells` open in `more`, whatever
/// is linked in the grid of `cells` is linked in the grid of `more`. In particular a grid that
/// percolates keeps percolating as cells open.
pub proof fn law_opening_keeps_links(
    cells: Seq<Seq<bool>>,
    more: Seq<Seq<bool>>,
    w: int,
    h: int,
    wrap_lr: bool,
    wrap_tb: bool,
    links: Seq<(int, int)>,
)
    requires
        0 < w,
        forall|x: int, y: int| 0 <= x < w && 0 <= y < h && #[trigger] cells[y][x] ==> more[y][x],
    ensures
        forall|a: int, b: int|
            #[trigger] reach(perc_edges(cells, w, h, wrap_lr, wrap_tb, links), w * h + 2, a, b) ==> reach(
                perc_edges(more, w, h, wrap_lr, wrap_tb, links),
                w * h + 2,
                a,
                b,
            ),
{
    let e1 = perc_edges(cells, w, h, wrap_lr, wrap_tb, links);
    let e2 = perc_edges(more, w, h, wrap_lr, wrap_tb, links);
    assert forall|u: int, v: int| 0 <= u < w * h + 2 && 0 <= v < w * h + 2 && #[trigger] linked(e1, u, v) implies linked(
        e2,
        u,
        v,
    ) by {
        if 0 <= u < w * h {
            lemma_node_decode(w, h, u);
        }
        if 0 <= v < w * h {
            lemma_node_decode(w, h, v);
        }
        if e1(u, v) && !links.contains((u, v)) {
            assert(cell_open(more, w, u) && cell_open(more, w, v));
        }
        if e1(v, u) && !links.contains((v, u)) {
            assert(cell_open(more, w, u) && cell_open(more, w, v));
        }
    }
    law_reach_monotone(e1, e2, w * h + 2);
}

/// The node of cell `(x, y)` decodes back to it.
pub proof fn lemma_node_coords(w: int, h: int, x: int, y: int)
    requires
        0 <= x < w,
        0 <= y < h,
    ensures
        0 <= y * w + x < w * h,
        (y * w + x) / w == y,
        (y * w + x) % w == x,
{
    lemma_fundamental_div_mod_converse(y * w + x, w, y, x);
    assert(y * w + x < w * h) by (nonlinear_arith)
        requires
            0 <= x < w,
            0 <= y < h,
    ;
    assert(0 <= y * w) by (nonlinear_arith)
        requires
            0 <= x < w,
            0 <= y,
    ;
}

/// A cell node decodes to a cell.
pub proof fn lemma_node_decode(w: int, h: int, u: int)
    requires
        0 < w,
        0 <= u < w * h,
    ensures
        0 <= u % w < w,
        0 <= u / w < h,
        (u / w) * w + u % w == u,
{
    let x = u % w;
    let y = u / w;
    assert(u == w * y + x) by (nonlinear_arith)
        requires
            w > 0,
            x == u % w,
            y == u / w,
    ;
    assert(0 <= x < w) by (nonlinear_arith)
        requires
            w > 0,
            x == u % w,
    ;
    assert(y * w == w * y) by (nonlinear_arith);
    assert(0 <= y < h) by (nonlinear_arith)
        requires
            w > 0,
            u == w * y + x,
            0 <= x < w,
            0 <= u < w * h,
    ;
}

/// Neighborhood is symmetric.
pub proof fn lemma_adjacent_symmetric(w: int, h: int, wrap_lr: bool, wrap_tb: bool, u: int, v: int)
    requires
        0 < w,
        0 < h,
        adjacent(w, h, wrap_lr, wrap_tb, u, v),
    ensures
        adjacent(w, h, wrap_lr, wrap_tb, v, u),
{
    lemma_node_decode(w, h, u);
    let ux = u % w;
    let uy = u / w;
    let k = if neighbor_node(w, h, wrap_lr, wrap_tb, u, 0) == Some(v) {
        0
    } else if neighbor_node(w, h, wrap_lr, wrap_tb, u, 1) == Some(v) {
        1
    } else if neighbor_node(w, h, wrap_lr, wrap_tb, u, 2) == Some(v) {
        2
    } else {
        3
    };
    let (vx, vy) = resolved(w, h, wrap_lr, wrap_tb, ux + dir_dx(k), uy + dir_dy(k))->0;
    assert(0 <= vx < w && 0 <= vy < h);
    assert(v == vy * w + vx);
    lemma_node_coords(w, h, vx, vy);
    let back = if k == 0 {
        2int
    } else if k == 1 {
        3int
    } else if k == 2 {
        0int
    } else {
        1int
    };
    assert(resolved(w, h, wrap_lr, wrap_tb, vx + dir_dx(back), vy + dir_dy(back)) == Some((ux, uy)));
    assert(neighbor_node(w, h, wrap_lr, wrap_tb, v, back) == Some(uy * w + ux));
}

/// The graph `base` plus the edges from cell node `c` to those of its first `k` neighbors that
/// are open in `cells`.
pub open spec fn opened_edges(
    base: spec_fn(int, int) -> bool,
    cells: Seq<Seq<bool>>,
    w: int,
    h: int,
    wrap_lr: bool,
    wrap_tb: bool,
    c: int,
    k: nat,
) -> spec_fn(int, int) -> bool
    decreases k,
{
    if k == 0 {
        base
    } else {
        let prev = opened_edges(base, cells, w, h, wrap_lr, wrap_tb, c, (k - 1) as nat);
        let nb = neighbor_node(w, h, wrap_lr, wrap_tb, c, k - 1);
        if nb is Some && cell_open(cells, w, nb->0) {
            with_edge(prev, c, nb->0)
        } else {
            prev
        }
    }
}

/// The cells with `(x, y)` open.
pub open spec fn with_open(cells: Seq<Seq<bool>>, x: int, y: int) -> Seq<Seq<bool>> {
    cells.update(y, cells[y].update(x, true))
}

/// `v` is one of the first `k` neighbors of cell node `c`, and it is open in `cells`.
pub open spec fn open_neighbor_upto(
    cells: Seq<Seq<bool>>,
    w: int,
    h: int,
    wrap_lr: bool,
    wrap_tb: bool,
    c: int,
    v: int,
    k: nat,
) -> bool
    decreases k,
{
    if k == 0 {
        false
    } else {
        open_neighbor_upto(cells, w, h, wrap_lr, wrap_tb, c, v, (k - 1) as nat) || (neighbor_node(
            w,
            h,
            wrap_lr,
            wrap_tb,
            c,
            k - 1,
        ) == Some(v) && cell_open(cells, w, v))
    }
}

proof fn lemma_opened_edges_unfold(
    base: spec_fn(int, int) -> bool,
    cells: Seq<Seq<bool>>,
    w: int,
    h: int,
    wrap_lr: bool,
    wrap_tb: bool,
    c: int,
    k: nat,
)
    ensures
        forall|u: int, v: int|
            #[trigger] opened_edges(base, cells, w, h, wrap_lr, wrap_tb, c, k)(u, v) == (base(u, v)
                || (u == c && open_neighbor_upto(cells, w, h, wrap_lr, wrap_tb, c, v, k))),
    decreases k,
{
    if k > 0 {
        lemma_opened_edges_unfold(base, cells, w, h, wrap_lr, wrap_tb, c, (k - 1) as nat);
        let prev = opened_edges(base, cells, w, h, wrap_lr, wrap_tb, c, (k - 1) as nat);
        let nb = neighbor_node(w, h, wrap_lr, wrap_tb, c, k - 1);
        assert forall|u: int, v: int|
            #[trigger] opened_edges(base, cells, w, h, wrap_lr, wrap_tb, c, k)(u, v) == (base(u, v)
                || (u == c && open_neighbor_upto(cells, w, h, wrap_lr, wrap_tb, c, v, k))) by {
            assert(prev(u, v) == (base(u, v) || (u == c && open_neighbor_upto(
                cells,
                w,
                h,
                wrap_lr,
                wrap_tb,
                c,
                v,
                (k - 1) as nat,
            ))));
            if nb is Some && cell_open(cells, w, nb->0) {
                assert(opened_edges(base, cells, w, h, wrap_lr, wrap_tb, c, k) == with_edge(prev, c, nb->0));
            } else {
                assert(opened_edges(base, cells, w, h, wrap_lr, wrap_tb, c, k) == prev);
            }
        }
    }
}

/// Opening a closed cell and linking it to its open neighbors gives the graph of the grid
/// with that cell open.
pub proof fn lemma_opened_edges_match(
    cells: Seq<Seq<bool>>,
    w: int,
    h: int,
    wrap_lr: bool,
    wrap_tb: bool,
    links: Seq<(int, int)>,
    x: int,
    y: int,
)
    requires
        0 < w,
        0 < h,
        cells.len() == h,
        forall|r: int| 0 <= r < h ==> #[trigger] cells[r].len() == w,
        0 <= x < w,
        0 <= y < h,
        !cells[y][x],
    ensures
        forall|u: int, v: int|
            #[trigger] linked(
                opened_edges(
                    perc_edges(cells, w, h, wrap_lr, wrap_tb, links),
                    with_open(cells, x, y),
                    w,
                    h,
                    wrap_lr,
                    wrap_tb,
                    y * w + x,
                    4,
                ),
                u,
                v,
            ) == linked(perc_edges(with_open(cells, x, y), w, h, wrap_lr, wrap_tb, links), u, v),
{
    let c = y * w + x;
    let cells2 = with_open(cells, x, y);
    let old_e = perc_edges(cells, w, h, wrap_lr, wrap_tb, links);
    let new_e = perc_edges(cells2, w, h, wrap_lr, wrap_tb, links);
    let e4 = opened_edges(old_e, cells2, w, h, wrap_lr, wrap_tb, c, 4);
    lemma_node_coords(w, h, x, y);
    lemma_node_decode(w, h, c);
    lemma_opened_edges_unfold(old_e, cells2, w, h, wrap_lr, wrap_tb, c, 4);
    // The neighbors of `c` are cells.
    assert forall|k: int| 0 <= k < 4 && #[trigger] neighbor_node(w, h, wrap_lr, wrap_tb, c, k)
        is Some implies 0 <= neighbor_node(w, h, wrap_lr, wrap_tb, c, k)->0 < w * h by {
        let (a, b) = resolved(w, h, wrap_lr, wrap_tb, c % w + dir_dx(k), c / w + dir_dy(k))->0;
        lemma_node_coords(w, h, a, b);
    }
    // The open neighbors of `c` are its adjacent open cells.
    assert forall|v: int| #[trigger] open_neighbor_upto(cells2, w, h, wrap_lr, wrap_tb, c, v, 4) == (
    0 <= v < w * h && cell_open(cells2, w, v) && adjacent(w, h, wrap_lr, wrap_tb, c, v)) by {
        reveal_with_fuel(open_neighbor_upto, 5);
    }
    // Which nodes are open after the change.
    assert forall|z: int| 0 <= z < w * h implies #[trigger] cell_open(cells2, w, z) == (z == c
        || cell_open(cells, w, z)) by {
        lemma_node_decode(w, h, z);
        if z / w == y && z % w == x {
            assert(z == c);
        }
    }
    assert(!cell_open(cells, w, c));
    assert forall|u: int, v: int| #[trigger] linked(e4, u, v) == linked(new_e, u, v) by {
        if 0 <= u < w * h && 0 <= v < w * h {
            if adjacent(w, h, wrap_lr, wrap_tb, u, v) {
                lemma_adjacent_symmetric(w, h, wrap_lr, wrap_tb, u, v);
            }
            if adjacent(w, h, wrap_lr, wrap_tb, v, u) {
                lemma_adjacent_symmetric(w, h, wrap_lr, wrap_tb, v, u);
            }
        }
        assert(e4(u, v) == (old_e(u, v) || (u == c && open_neighbor_upto(
            cells2,
            w,
            h,
            wrap_lr,
            wrap_tb,
            c,
            v,
            4,
        ))));
        assert(e4(v, u) == (old_e(v, u) || (v == c && open_neighbor_upto(
            cells2,
            w,
            h,
            wrap_lr,
            wrap_tb,
            c,
            u,
            4,
        ))));
    }
}

/// A percolation grid: `width` by `height` cells, each blocked or open, plus a start node and an
/// end node; `connections` joins the nodes that are linked through open neighbors.
pub struct PercolationGrid {
    pub width: usize,
    pub height: usize,
    pub wrap_top_bottom: bool,
    pub wrap_left_right: bool,
    pub start_node_index: usize,
    pub end_node_index: usize,
    pub grid: Grid<bool>,
    pub connections: WeightedQuickUnion,
    /// The attachments of the start and end nodes made so far.
    pub links: Ghost<Seq<(int, int)>>,
}

impl PercolationGrid {
    /// Cells plus the start and end nodes.
    pub open spec fn node_count(&self) -> int {
        self.width * self.height + 2
    }

    /// The graph whose reachability the connections hold.
    pub open spec fn edges(&self) -> spec_fn(int, int) -> bool {
        perc_edges(
            self.grid.cells(),
            self.width as int,
            self.height as int,
            self.wrap_left_right,
            self.wrap_top_bottom,
            self.links@,
        )
    }

    /// The cell `(x, y)` is open.
    pub open spec fn is_open(&self, x: int, y: int) -> bool {
        self.grid.cell(x, y)
    }

    /// Nodes `a` and `b` are linked through open cells and attachments.
    pub open spec fn linked_nodes(&self, a: int, b: int) -> bool {
        reach(self.edges(), self.node_count(), a, b)
    }

    /// The start node is linked to the end node.
    pub open spec fn spec_percolates(&self) -> bool {
        self.linked_nodes(self.start_node_index as int, self.end_node_index as int)
    }

    /// The sizes fit the machine and the grid matches them.
    pub open spec fn dims_ok(&self) -> bool {
        &&& 1 <= self.width <= isize::MAX
        &&& 1 <= self.height <= isize::MAX
        &&& self.width * self.height + 2 <= usize::MAX
        &&& self.grid.wf()
        &&& self.grid.width == self.width
        &&& self.grid.height == self.height
    }

    /// Everything but the cells, the connections and the attachments stays.
    pub open spec fn same_frame(&self, other: &Self) -> bool {
        &&& self.width == other.width
        &&& self.height == other.height
        &&& self.wrap_top_bottom == other.wrap_top_bottom
        &&& self.wrap_left_right == other.wrap_left_right
        &&& self.start_node_index == other.start_node_index
        &&& self.end_node_index == other.end_node_index
    }

    pub open spec fn wf(&self) -> bool {
        &&& self.dims_ok()
        &&& self.grid.width == self.width
        &&& self.grid.height == self.height
        &&& !self.grid.record_events
        &&& self.start_node_index == self.width * self.height
        &&& self.end_node_index == self.width * self.height + 1
        &&& self.connections.wf()
        &&& self.connections.size() == self.node_count()
        &&& is_reach_of(self.connections.conn_rel(), self.edges(), self.node_count())
    }

    /// The color index of cell `(x, y)` with `roots` the roots of the components that have
    /// colors of their own: black when blocked, blue when reached from the start node, red
    /// when reached from the end node, else the color of its component among `roots` (but on
    /// the last frame) or white.
    pub open spec fn color_index_of(&self, roots: Seq<int>, x: int, y: int, is_last_frame: bool) -> int {
        if !self.is_open(x, y) {
            COLOR_INDEX_BLACK as int
        } else if self.linked_nodes(self.start_node_index as int, y * self.width + x) {
            COLOR_INDEX_BLUE as int
        } else if self.linked_nodes(self.end_node_index as int, y * self.width + x) {
            COLOR_INDEX_RED as int
        } else {
            open_color_index(self.connections.root_of(y * self.width + x), roots, is_last_frame)
        }
    }

    /// The node of cell `(x, y)`.
    fn node_index(&self, x: usize, y: usize) -> (i: usize)
        requires
            self.dims_ok(),
            x < self.width,
            y < self.height,
        ensures
            i == y * self.width + x,
            i < self.width * self.height,
            (i as int) / (self.width as int) == y,
            (i as int) % (self.width as int) == x,
    {
        proof {
            lemma_node_coords(self.width as int, self.height as int, x as int, y as int);
        }
        (y * self.width) + x
    }

    /// The cell at `(x, y)` after wrapping the edges that wrap.
    fn resolve_x_y(&self, x: isize, y: isize) -> (r: Option<(usize, usize)>)
        requires
            self.dims_ok(),
        ensures
            r == match resolved(
                self.width as int,
                self.height as int,
                self.wrap_left_right,
                self.wrap_top_bottom,
                x as int,
                y as int,
            ) {
                Some((a, b)) => Some((a as usize, b as usize)),
                None => None,
            },
    {
        let width = self.width as isize;
        let mut rx = x;
        if rx < 0 {
            if self.wrap_left_right {
                rx += width;
            } else {
                return None;
            }
        } else {
            if rx >= width {
                if self.wrap_left_right {
                    rx -= width;
                } else {
                    return None;
                }
            }
        }
        let height = self.height as isize;
        let mut ry = y;
        if ry < 0 {
            if self.wrap_top_bottom {
                ry += height;
            } else {
                return None;
            }
        } else {
            if ry >= height {
                if self.wrap_top_bottom {
                    ry -= height;
                } else {
                    return None;
                }
            }
        }
        Some((rx as usize, ry as usize))
    }

    /// Whether the start node is linked to the end node.
    pub fn percolates(&mut self) -> (p: bool)
        requires
            old(self).wf(),
        ensures
            *final(self) == *old(self),
            p == old(self).spec_percolates(),
    {
        proof {
            assert(self.connections.conn_rel()(
                self.start_node_index as int,
                self.end_node_index as int,
            ) == self.spec_percolates());
        }
        self.connections.is_connected(self.start_node_index, self.end_node_index)
    }

    /// What the cell `(x, y)` shows.
    pub fn block_state(&mut self, x: usize, y: usize) -> (state: PercolationBlockState)
        requires
            old(self).wf(),
            x < old(self).width,
            y < old(self).height,
        ensures
            *final(self) == *old(self),
            state == if !old(self).is_open(x as int, y as int) {
                PercolationBlockState::Blocked
            } else if old(self).linked_nodes(
                old(self).start_node_index as int,
                y * old(self).width + x,
            ) {
                PercolationBlockState::Filled
            } else {
                PercolationBlockState::Open
            },
    {
        if self.grid.get_xy(x, y) {
            let node = self.node_index(x, y);
            proof {
                assert(self.connections.conn_rel()(self.start_node_index as int, node as int)
                    == self.linked_nodes(self.start_node_index as int, node as int));
            }
            if self.connections.is_connected(self.start_node_index, node) {
                PercolationBlockState::Filled
            } else {
                PercolationBlockState::Open
            }
        } else {
            PercolationBlockState::Blocked
        }
    }

    /// Opens the cell `(x, y)` and joins it with each of its open neighbors, north, east, south
    /// and west; `false`, with nothing changed, when it was open already.
    #[verifier::rlimit(40)]
    pub fn open(&mut self, x: usize, y: usize) -> (opened: bool)
        requires
            old(self).wf(),
            x < old(self).width,
            y < old(self).height,
        ensures
            final(self).wf(),
            final(self).same_frame(old(self)),
            final(self).links == old(self).links,
            opened == !old(self).is_open(x as int, y as int),
            final(self).grid.cells() == with_open(old(self).grid.cells(), x as int, y as int),
            forall|cx: int, cy: int|
                0 <= cx < old(self).width && 0 <= cy < old(self).height ==> #[trigger] final(self).is_open(cx, cy)
                    == (old(self).is_open(cx, cy) || (cx == x && cy == y)),
            forall|a: int, b: int| #[trigger] old(self).linked_nodes(a, b) ==> final(self).linked_nodes(a, b),
            !opened ==> *final(self) == *old(self),
            opened ==> final(self).connections.model() == perc_open_model(
                old(self).connections.model(),
                old(self).connections.path_compression,
                final(self).grid.cells(),
                old(self).width as int,
                old(self).height as int,
                old(self).wrap_left_right,
                old(self).wrap_top_bottom,
                y * old(self).width + x,
                4,
            ),
    {
        if self.grid.get_xy(x, y) {
            proof {
                let cells = self.grid.cells();
                assert(cells[y as int].update(x as int, true) =~= cells[y as int]);
                assert(with_open(cells, x as int, y as int) =~= cells);
            }
            return false;
        }
        let ghost w = self.width as int;
        let ghost h = self.height as int;
        let ghost n = self.node_count();
        let ghost old_cells = self.grid.cells();
        let ghost old_edges = self.edges();
        self.grid.set_xy(x, y, true);
        let ghost cells2 = self.grid.cells();
        proof {
            assert(cells2 == with_open(old_cells, x as int, y as int));
        }
        let node_index = self.node_index(x, y);
        let xi = x as isize;
        let yi = y as isize;
        let mut adjacents: Vec<(isize, isize)> = Vec::new();
        adjacents.push((xi, yi - 1));
        adjacents.push((xi + 1, yi));
        adjacents.push((xi, yi + 1));
        adjacents.push((xi - 1, yi));
        let ghost m0 = self.connections.model();
        let ghost pc = self.connections.path_compression;
        for k in 0..4
            invariant
                self.connections.path_compression == pc,
                self.connections.model() == perc_open_model(
                    m0,
                    pc,
                    cells2,
                    w,
                    h,
                    self.wrap_left_right,
                    self.wrap_top_bottom,
                    node_index as int,
                    k as int,
                ),
                self.dims_ok(),
                self.same_frame(old(self)),
                self.links == old(self).links,
                !self.grid.record_events,
                self.grid.cells() == cells2,
                self.connections.wf(),
                self.connections.size() == n,
                n == self.node_count(),
                w == self.width,
                h == self.height,
                node_index == y * self.width + x,
                node_index < self.width * self.height,
                (node_index as int) / w == y,
                (node_index as int) % w == x,
                x < self.width,
                y < self.height,
                adjacents@.len() == 4,
                forall|j: int|
                    0 <= j < 4 ==> (#[trigger] adjacents@[j]).0 == x + dir_dx(j) && adjacents@[j].1
                        == y + dir_dy(j),
                is_reach_of(
                    self.connections.conn_rel(),
                    opened_edges(
                        old_edges,
                        cells2,
                        w,
                        h,
                        self.wrap_left_right,
                        self.wrap_top_bottom,
                        node_index as int,
                        k as nat,
                    ),
                    n,
                ),
        {
            let ghost ek = opened_edges(
                old_edges,
                cells2,
                w,
                h,
                self.wrap_left_right,
                self.wrap_top_bottom,
                node_index as int,
                k as nat,
            );
            let (adj_x, adj_y) = adjacents[k];
            let resolved_cell = self.resolve_x_y(adj_x, adj_y);
            let ghost nb = neighbor_node(
                w,
                h,
                self.wrap_left_right,
                self.wrap_top_bottom,
                node_index as int,
                k as int,
            );
            if let Some((ax, ay)) = resolved_cell {
                let open_neighbor = self.grid.get_xy(ax, ay);
                let neighbor = self.node_index(ax, ay);
                proof {
                    assert(nb == Some(neighbor as int));
                    assert(cell_open(cells2, w, neighbor as int) == open_neighbor);
                }
                if open_neighbor {
                    let ghost before = self.connections;
                    self.connections.union(node_index, neighbor);
                    proof {
                        law_joined_keeps_agreement(
                            before.conn_rel(),
                            reach_rel(ek, n),
                            n,
                            node_index as int,
                            neighbor as int,
                        );
                        law_union_adds_edge(ek, n, node_index as int, neighbor as int);
                        assert forall|a: int, b: int| 0 <= a < n && 0 <= b < n implies #[trigger] self.connections.conn_rel()(
                            a,
                            b,
                        ) == reach(with_edge(ek, node_index as int, neighbor as int), n, a, b) by {
                            assert(self.connections.connected(a, b) == joined(
                                before.conn_rel(),
                                node_index as int,
                                neighbor as int,
                                a,
                                b,
                            ));
                        }
                    }
                }
            } else {
                proof {
                    assert(nb is None);
                }
            }
        }
        proof {
            lemma_opened_edges_match(
                old_cells,
                w,
                h,
                self.wrap_left_right,
                self.wrap_top_bottom,
                self.links@,
                x as int,
                y as int,
            );
            let e4 = opened_edges(
                old_edges,
                cells2,
                w,
                h,
                self.wrap_left_right,
                self.wrap_top_bottom,
                node_index as int,
                4,
            );
            lemma_reach_same_edges(e4, self.edges(), n);
            assert forall|a: int, b: int| 0 <= a < n && 0 <= b < n implies #[trigger] self.connections.conn_rel()(
                a,
                b,
            ) == reach(self.edges(), n, a, b) by {
                assert(reach(e4, n, a, b) == reach(self.edges(), n, a, b));
            }
            law_opening_keeps_links(
                old_cells,
                self.grid.cells(),
                w,
                h,
                self.wrap_left_right,
                self.wrap_top_bottom,
                self.links@,
            );
        }
        true
    }

    /// A grid of blocked cells with the start and end nodes attached, and their cells opened,
    /// as `type_` says.
    pub fn new(width: usize, height: usize, type_: PercolationType) -> (perc: Self)
        requires
            1 <= width <= isize::MAX,
            1 <= height <= isize::MAX,
            width * height + 2 <= usize::MAX,
            type_fits(type_, width as int, height as int),
        ensures
            perc.wf(),
            perc.width == width,
            perc.height == height,
            perc.wrap_left_right,
            perc.wrap_top_bottom == type_ is CenterOut,
            perc.links@ == initial_links(type_, width as int, height as int),
            forall|cx: int, cy: int|
                0 <= cx < width && 0 <= cy < height ==> #[trigger] perc.is_open(cx, cy)
                    == initially_open(type_, width as int, height as int, cx, cy),
            match type_ {
                PercolationType::TopBottom => perc.linked_nodes(width * height, 0) && perc.linked_nodes(
                    width * height + 1,
                    (height - 1) * width,
                ),
                PercolationType::TopLeftBottomRight { .. } => perc.linked_nodes(width * height, 0)
                    && perc.linked_nodes(width * height + 1, width * height - 1),
                PercolationType::CenterOut { radius } => perc.linked_nodes(
                    width * height,
                    (height / 2 - radius) * width + (width / 2 - radius),
                ) && perc.linked_nodes(width * height + 1, 0),
            },
    {
        let mut grid = Grid::new(width, height, false);
        let ghost fresh = grid;
        grid.record_events = false;
        let connections = WeightedQuickUnion::new((width * height) + 2, true);
        let start_node_index = width * height;
        let end_node_index = start_node_index + 1;
        let wrap_top_bottom = match type_ {
            PercolationType::CenterOut { radius: _ } => true,
            _ => false,
        };
        let mut perc = Self {
            width,
            height,
            wrap_top_bottom,
            wrap_left_right: true,
            start_node_index,
            end_node_index,
            grid,
            connections,
            links: Ghost(Seq::empty()),
        };
        proof {
            let n = perc.node_count();
            let w = width as int;
            let h = height as int;
            assert forall|u: int, v: int| 0 <= u < n && 0 <= v < n implies #[trigger] linked(
                no_edges(),
                u,
                v,
            ) == linked(perc.edges(), u, v) by {
                if 0 <= u < w * h {
                    lemma_node_decode(w, h, u);
                    assert(perc.grid.cells() == fresh.cells());
                    assert(!fresh.cell(u % w, u / w));
                }
                if 0 <= v < w * h {
                    lemma_node_decode(w, h, v);
                    assert(perc.grid.cells() == fresh.cells());
                    assert(!fresh.cell(v % w, v / w));
                }
            }
            lemma_reach_same_edges(no_edges(), perc.edges(), n);
            assert forall|a: int, b: int| 0 <= a < n && 0 <= b < n implies #[trigger] perc.connections.conn_rel()(
                a,
                b,
            ) == reach(perc.edges(), n, a, b) by {
                lemma_reach_no_edges(n, a, b);
            }
            assert(width * height < (width * height) + 2);
            assert forall|cx: int, cy: int| 0 <= cx < width && 0 <= cy < height implies !#[trigger] perc.is_open(
                cx,
                cy,
            ) by {
                assert(perc.grid.cells() == fresh.cells());
                assert(!fresh.cell(cx, cy));
            }
        }
        proof {
            assert((height - 1) * width < width * height) by (nonlinear_arith)
                requires
                    width >= 1,
                    height >= 1,
            ;
            assert((height - 1) * width >= 0) by (nonlinear_arith)
                requires
                    width >= 1,
                    height >= 1,
            ;
            assert(height * width == width * height && width * height >= 1) by (nonlinear_arith)
                requires
                    width >= 1,
                    height >= 1,
            ;
        }
        let bottom_row_first_node_index = (height - 1) * width;
        match type_ {
            PercolationType::TopBottom => {
                perc.attach(start_node_index, 0);
                perc.open_top_row();
                perc.attach(end_node_index, bottom_row_first_node_index);
                perc.open_bottom_row();
            },
            PercolationType::TopLeftBottomRight { radius } => {
                perc.attach(start_node_index, 0);
                perc.open_circle(0, 0, radius);
                perc.attach(end_node_index, (height * width) - 1);
                perc.open_circle(width - 1, height - 1, radius);
            },
            PercolationType::CenterOut { radius } => {
                let center_x = (width / 2) - radius;
                let center_y = (height / 2) - radius;
                let center = perc.node_index(center_x, center_y);
                perc.attach(start_node_index, center);
                perc.open_circle(center_x, center_y, radius);
                perc.attach(end_node_index, 0);
                perc.open_top_row();
                perc.open_left_edge();
            },
        }
        proof {
            assert(perc.links@ =~= initial_links(type_, width as int, height as int));
            law_new_attachments(perc, type_);
        }
        perc
    }

    /// Joins nodes `a` and `b` and records the attachment.
    fn attach(&mut self, a: usize, b: usize)
        requires
            old(self).wf(),
            a < old(self).node_count(),
            b < old(self).node_count(),
        ensures
            final(self).wf(),
            final(self).same_frame(old(self)),
            final(self).grid == old(self).grid,
            final(self).links@ == old(self).links@.push((a as int, b as int)),
            forall|cx: int, cy: int| #[trigger] final(self).is_open(cx, cy) == old(self).is_open(cx, cy),
    {
        let ghost n = self.node_count();
        let ghost e = self.edges();
        let ghost before = self.connections;
        self.connections.union(a, b);
        self.links = Ghost(self.links@.push((a as int, b as int)));
        proof {
            law_joined_keeps_agreement(before.conn_rel(), reach_rel(e, n), n, a as int, b as int);
            law_union_adds_edge(e, n, a as int, b as int);
            let e2 = with_edge(e, a as int, b as int);
            assert forall|u: int, v: int| 0 <= u < n && 0 <= v < n implies #[trigger] linked(e2, u, v)
                == linked(self.edges(), u, v) by {
                assert(self.links@.contains((u, v)) == (old(self).links@.contains((u, v)) || (u, v)
                    == (a as int, b as int))) by {
                    if (u, v) == (a as int, b as int) {
                        assert(self.links@[self.links@.len() - 1] == (u, v));
                    }
                    if old(self).links@.contains((u, v)) {
                        let i = choose|i: int| 0 <= i < old(self).links@.len() && old(self).links@[i] == (u, v);
                        assert(self.links@[i] == (u, v));
                    }
                }
                assert(self.links@.contains((v, u)) == (old(self).links@.contains((v, u)) || (v, u)
                    == (a as int, b as int))) by {
                    if (v, u) == (a as int, b as int) {
                        assert(self.links@[self.links@.len() - 1] == (v, u));
                    }
                    if old(self).links@.contains((v, u)) {
                        let i = choose|i: int| 0 <= i < old(self).links@.len() && old(self).links@[i] == (v, u);
                        assert(self.links@[i] == (v, u));
                    }
                }
            }
            lemma_reach_same_edges(e2, self.edges(), n);
            assert forall|u: int, v: int| 0 <= u < n && 0 <= v < n implies #[trigger] self.connections.conn_rel()(
                u,
                v,
            ) == reach(self.edges(), n, u, v) by {
                assert(self.connections.connected(u, v) == joined(before.conn_rel(), a as int, b as int, u, v));
                assert(reach(e2, n, u, v) == reach(self.edges(), n, u, v));
            }
        }
    }

    /// Draws a cell at random and opens it; returns the cell and whether it was blocked.
    pub fn open_random(&mut self) -> (r: (usize, usize, bool))
        requires
            old(self).wf(),
        ensures
            final(self).wf(),
            final(self).same_frame(old(self)),
            final(self).links == old(self).links,
            r.0 < old(self).width,
            r.1 < old(self).height,
            r.2 == !old(self).is_open(r.0 as int, r.1 as int),
            final(self).grid.cells() == with_open(old(self).grid.cells(), r.0 as int, r.1 as int),
            forall|a: int, b: int| #[trigger] old(self).linked_nodes(a, b) ==> final(self).linked_nodes(a, b),
            !r.2 ==> *final(self) == *old(self),
            r.2 ==> final(self).connections.model() == perc_open_model(
                old(self).connections.model(),
                old(self).connections.path_compression,
                final(self).grid.cells(),
                old(self).width as int,
                old(self).height as int,
                old(self).wrap_left_right,
                old(self).wrap_top_bottom,
                r.1 * old(self).width + r.0,
                4,
            ),
    {
        let x = random_below(self.width);
        let y = random_below(self.height);
        let opened = self.open(x, y);
        (x, y, opened)
    }

    /// Opens every cell of the rectangle with top-left cell `(left, top)`.
    pub fn open_rectangle(&mut self, left: usize, top: usize, width: usize, height: usize)
        requires
            old(self).wf(),
            left + width <= old(self).width,
            top + height <= old(self).height,
        ensures
            final(self).wf(),
            final(self).same_frame(old(self)),
            final(self).links == old(self).links,
            forall|cx: int, cy: int|
                0 <= cx < old(self).width && 0 <= cy < old(self).height ==> #[trigger] final(self).is_open(cx, cy)
                    == (old(self).is_open(cx, cy) || (left <= cx < left + width && top <= cy < top
                    + height)),
    {
        for y in top..top + height
            invariant
                self.wf(),
                self.same_frame(old(self)),
                self.links == old(self).links,
                left + width <= self.width,
                top + height <= self.height,
                forall|cx: int, cy: int|
                    0 <= cx < self.width && 0 <= cy < self.height ==> #[trigger] self.is_open(cx, cy)
                        == (old(self).is_open(cx, cy) || (left <= cx < left + width && top <= cy < y)),
        {
            for x in left..left + width
                invariant
                    self.wf(),
                    self.same_frame(old(self)),
                    self.links == old(self).links,
                    left + width <= self.width,
                    top <= y < top + height,
                    top + height <= self.height,
                    forall|cx: int, cy: int|
                        0 <= cx < self.width && 0 <= cy < self.height ==> #[trigger] self.is_open(cx, cy)
                            == (old(self).is_open(cx, cy) || (left <= cx < left + width && top <= cy
                            < y) || (cy == y && left <= cx < x)),
            {
                self.open(x, y);
            }
        }
    }

    fn open_top_row(&mut self)
        requires
            old(self).wf(),
        ensures
            final(self).wf(),
            final(self).same_frame(old(self)),
            final(self).links == old(self).links,
            forall|cx: int, cy: int|
                0 <= cx < old(self).width && 0 <= cy < old(self).height ==> #[trigger] final(self).is_open(cx, cy)
                    == (old(self).is_open(cx, cy) || cy == 0),
    {
        self.open_rectangle(0, 0, self.width, 1);
    }

    fn open_bottom_row(&mut self)
        requires
            old(self).wf(),
        ensures
            final(self).wf(),
            final(self).same_frame(old(self)),
            final(self).links == old(self).links,
            forall|cx: int, cy: int|
                0 <= cx < old(self).width && 0 <= cy < old(self).height ==> #[trigger] final(self).is_open(cx, cy)
                    == (old(self).is_open(cx, cy) || cy == old(self).height - 1),
    {
        self.open_rectangle(0, self.height - 1, self.width, 1);
    }

    fn open_left_edge(&mut self)
        requires
            old(self).wf(),
        ensures
            final(self).wf(),
            final(self).same_frame(old(self)),
            final(self).links == old(self).links,
            forall|cx: int, cy: int|
                0 <= cx < old(self).width && 0 <= cy < old(self).height ==> #[trigger] final(self).is_open(cx, cy)
                    == (old(self).is_open(cx, cy) || cx == 0),
    {
        self.open_rectangle(0, 0, 1, self.height);
    }

    /// Opens every cell within `radius` of `(center_x, center_y)`, distances measured between
    /// cell coordinates.
    pub fn open_circle(&mut self, center_x: usize, center_y: usize, radius: usize)
        requires
            old(self).wf(),
            center_x + radius <= isize::MAX,
            center_y + radius <= isize::MAX,
            2 * radius * radius <= isize::MAX,
        ensures
            final(self).wf(),
            final(self).same_frame(old(self)),
            final(self).links == old(self).links,
            forall|cx: int, cy: int|
                0 <= cx < old(self).width && 0 <= cy < old(self).height ==> #[trigger] final(self).is_open(cx, cy)
                    == (old(self).is_open(cx, cy) || in_circle(
                    center_x as int,
                    center_y as int,
                    radius as int,
                    cx,
                    cy,
                )),
    {
        let ghost (ccx, ccy, rr) = (center_x as int, center_y as int, radius as int);
        proof {
            assert(radius * radius <= 2 * radius * radius) by (nonlinear_arith);
        }
        let center_x = center_x as isize;
        let center_y = center_y as isize;
        let radius = radius as isize;
        let start_x = if center_x - radius > 0 {
            center_x - radius
        } else {
            0
        };
        let start_y = if center_y - radius > 0 {
            center_y - radius
        } else {
            0
        };
        let last_x = self.width as isize - 1;
        let last_y = self.height as isize - 1;
        let end_x = if center_x + radius < last_x {
            center_x + radius
        } else {
            last_x
        };
        let end_y = if center_y + radius < last_y {
            center_y + radius
        } else {
            last_y
        };
        proof {
            assert(radius * radius + radius * radius == 2 * radius * radius) by (nonlinear_arith);
            assert(0 <= radius * radius) by (nonlinear_arith);
        }
        let r_squared = rounded_to_f32((radius * radius) as u64);
        proof {
            assert forall|cx: int, cy: int|
                0 <= cx < self.width && 0 <= cy < self.height && in_circle(ccx, ccy, rr, cx, cy) implies cy
                >= start_y by {
            }
        }
        let mut y = start_y;
        while y <= end_y
            invariant
                self.wf(),
                self.same_frame(old(self)),
                self.links == old(self).links,
                ccx == center_x,
                ccy == center_y,
                rr == radius,
                0 <= radius,
                0 <= center_x,
                0 <= center_y,
                r_squared == f32_rounded(radius * radius),
                2 * radius * radius <= isize::MAX,
                radius * radius + radius * radius == 2 * radius * radius,
                0 <= start_x,
                center_x - radius <= start_x,
                0 <= start_y <= y,
                center_y - radius <= start_y,
                end_x < self.width,
                end_x <= center_x + radius,
                end_y < self.height,
                end_y <= center_y + radius,
                end_y == (if center_y + radius < self.height - 1 {
                    center_y + radius
                } else {
                    self.height - 1
                }),
                end_x == (if center_x + radius < self.width - 1 {
                    center_x + radius
                } else {
                    self.width - 1
                }),
                start_x == (if center_x - radius > 0 {
                    center_x - radius
                } else {
                    0
                }),
                start_y == (if center_y - radius > 0 {
                    center_y - radius
                } else {
                    0
                }),
                y <= end_y + 1 || y == start_y,
                forall|cx: int, cy: int|
                    0 <= cx < self.width && 0 <= cy < self.height ==> #[trigger] self.is_open(cx, cy)
                        == (old(self).is_open(cx, cy) || (in_circle(ccx, ccy, rr, cx, cy) && cy < y)),
            decreases end_y + 1 - y,
        {
            let mut x = start_x;
            proof {
                assert forall|cx: int, cy: int|
                    0 <= cx < self.width && 0 <= cy < self.height && in_circle(ccx, ccy, rr, cx, cy)
                        implies cx >= start_x by {
                    }
            }
            while x <= end_x
                invariant
                    self.wf(),
                    self.same_frame(old(self)),
                    self.links == old(self).links,
                    ccx == center_x,
                    ccy == center_y,
                    rr == radius,
                    0 <= radius,
                    r_squared == f32_rounded(radius * radius),
                    2 * radius * radius <= isize::MAX,
                    radius * radius + radius * radius == 2 * radius * radius,
                    0 <= start_x <= x,
                    center_x - radius <= start_x,
                    0 <= start_y <= y <= end_y,
                    center_y - radius <= start_y,
                    end_x < self.width,
                    end_x <= center_x + radius,
                    end_y < self.height,
                    end_y <= center_y + radius,
                    x <= end_x + 1 || x == start_x,
                    forall|cx: int, cy: int|
                        0 <= cx < self.width && 0 <= cy < self.height ==> #[trigger] self.is_open(cx, cy)
                            == (old(self).is_open(cx, cy) || (in_circle(ccx, ccy, rr, cx, cy) && (cy
                            < y || (cy == y && cx < x)))),
                decreases end_x + 1 - x,
            {
                let dx = x - center_x;
                let dy = y - center_y;
                proof {
                    assert(0 <= dx * dx <= radius * radius) by (nonlinear_arith)
                        requires
                            -radius <= dx <= radius,
                    ;
                    assert(0 <= dy * dy <= radius * radius) by (nonlinear_arith)
                        requires
                            -radius <= dy <= radius,
                    ;
                }
                let dist_squared = rounded_to_f32((dx * dx + dy * dy) as u64);
                if dist_squared <= r_squared {
                    self.open(x as usize, y as usize);
                }
                x = x + 1;
            }
            proof {
                assert forall|cx: int, cy: int|
                    0 <= cx < self.width && 0 <= cy < self.height && cy == y && in_circle(
                        ccx,
                        ccy,
                        rr,
                        cx,
                        cy,
                    ) implies cx < x by {
                    }
            }
            y = y + 1;
        }
        proof {
            assert forall|cx: int, cy: int|
                0 <= cx < self.width && 0 <= cy < self.height && in_circle(ccx, ccy, rr, cx, cy) implies cy
                < y by {
            }
        }
    }
}

/// The sizes leave room for the discs that `type_` opens.
pub open spec fn type_fits(type_: PercolationType, w: int, h: int) -> bool {
    match type_ {
        PercolationType::TopBottom => true,
        PercolationType::TopLeftBottomRight { radius } => {
            &&& w - 1 + radius <= isize::MAX
            &&& h - 1 + radius <= isize::MAX
            &&& 2 * radius * radius <= isize::MAX
        },
        PercolationType::CenterOut { radius } => {
            &&& radius <= w / 2
            &&& radius <= h / 2
            &&& 2 * radius * radius <= isize::MAX
        },
    }
}

/// The attachments that `new` makes for `type_`.
pub open spec fn initial_links(type_: PercolationType, w: int, h: int) -> Seq<(int, int)> {
    let start = w * h;
    match type_ {
        PercolationType::TopBottom => seq![(start, 0), (start + 1, (h - 1) * w)],
        PercolationType::TopLeftBottomRight { .. } => seq![(start, 0), (start + 1, h * w - 1)],
        PercolationType::CenterOut { radius } => seq![
            (start, (h / 2 - radius) * w + (w / 2 - radius)),
            (start + 1, 0),
        ],
    }
}

/// The cells that `new` opens for `type_`.
pub open spec fn initially_open(type_: PercolationType, w: int, h: int, x: int, y: int) -> bool {
    match type_ {
        PercolationType::TopBottom => y == 0 || y == h - 1,
        PercolationType::TopLeftBottomRight { radius } => in_circle(0, 0, radius as int, x, y)
            || in_circle(w - 1, h - 1, radius as int, x, y),
        PercolationType::CenterOut { radius } => in_circle(
            w / 2 - radius,
            h / 2 - radius,
            radius as int,
            x,
            y,
        ) || y == 0 || x == 0,
    }
}

/// Cell `(x, y)` is opened by the disc of `radius` around `(center_x, center_y)`: it lies in
/// the square of the cells within `radius` on each axis, and its squared distance from the
/// center, held as an `f32`, is no more than the squared radius held as an `f32`.
pub open spec fn in_circle(center_x: int, center_y: int, radius: int, x: int, y: int) -> bool {
    &&& center_x - radius <= x <= center_x + radius
    &&& center_y - radius <= y <= center_y + radius
    &&& f32_rounded((x - center_x) * (x - center_x) + (y - center_y) * (y - center_y)) <= f32_rounded(
        radius * radius,
    )
}

/// The spacing of the `f32` values near the count `n`: one up to 2^24, doubling with each
/// further bit of `n`, so that `n / f32_unit(n)` keeps 24 bits.
pub open spec fn f32_unit(n: int) -> int
    decreases n,
{
    if n < 0x100_0000 {
        1
    } else {
        2 * f32_unit(n / 2)
    }
}

/// The value of the `f32` nearest to the count `n`, ties going to the even multiple of the
/// spacing: `n` itself up to 2^24.
pub open spec fn f32_rounded(n: int) -> int {
    let u = f32_unit(n);
    let q = n / u;
    let rem = n % u;
    if 2 * rem > u || (2 * rem == u && q % 2 == 1) {
        (q + 1) * u
    } else {
        q * u
    }
}

/// The spacing of the `f32` values near `n`.
fn f32_unit_of(n: u64) -> (u: u64)
    ensures
        u == f32_unit(n as int),
        u >= 1,
        u == 1 || u * 0x80_0000 <= n,
    decreases n,
{
    if n < 0x100_0000 {
        1
    } else {
        2 * f32_unit_of(n / 2)
    }
}

/// The value of `n as f32`, as an integer: the count rounded to the nearest `f32`.
pub fn rounded_to_f32(n: u64) -> (r: u64)
    requires
        n <= i64::MAX,
    ensures
        r == f32_rounded(n as int),
{
    let u = f32_unit_of(n);
    let q = n / u;
    let rem = n % u;
    proof {
        lemma_fundamental_div_mod(n as int, u as int);
        assert(u * q + rem == n);
        assert(u * q == q * u) by (nonlinear_arith);
        assert((q + 1) * u == q * u + u) by (nonlinear_arith);
        assert(0 <= q * u) by (nonlinear_arith)
            requires
                q >= 0,
                u >= 1,
        ;
    }
    if 2 * rem > u || (2 * rem == u && q % 2 == 1) {
        (q + 1) * u
    } else {
        q * u
    }
}

/// The color index of cell `(x, y)`: black when blocked, blue when reached from the start
/// node, red when reached from the end node, else the color of its component among
/// `largest_roots` (but on the last frame) or white.
pub fn block_color_index(
    perc: &mut PercolationGrid,
    largest_roots: &Vec<usize>,
    x: usize,
    y: usize,
    is_last_frame: bool,
) -> (index: usize)
    requires
        old(perc).wf(),
        x < old(perc).width,
        y < old(perc).height,
        largest_roots@.len() + COLOR_INDEX_FIRST_EXTRA <= usize::MAX,
    ensures
        *final(perc) == *old(perc),
        index == old(perc).color_index_of(largest_roots@.map_values(|r: usize| r as int), x as int, y as int, is_last_frame),
{
    match perc.block_state(x, y) {
        PercolationBlockState::Blocked => COLOR_INDEX_BLACK,
        PercolationBlockState::Open => {
            let node_index = perc.node_index(x, y);
            let node_root_index = perc.connections.root(node_index);
            proof {
                assert(perc.connections.conn_rel()(perc.end_node_index as int, node_index as int)
                    == perc.linked_nodes(perc.end_node_index as int, node_index as int));
            }
            let end_node_index = perc.end_node_index;
            if perc.connections.is_connected(end_node_index, node_index) {
                COLOR_INDEX_RED
            } else {
                let ghost roots = largest_roots@.map_values(|r: usize| r as int);
                if !is_last_frame {
                    for i in 0..largest_roots.len()
                        invariant
                            roots == largest_roots@.map_values(|r: usize| r as int),
                            *perc == *old(perc),
                            largest_roots@.len() + COLOR_INDEX_FIRST_EXTRA <= usize::MAX,
                            !is_last_frame,
                            node_index == y * perc.width + x,
                            perc.is_open(x as int, y as int),
                            !perc.linked_nodes(perc.start_node_index as int, node_index as int),
                            !perc.linked_nodes(perc.end_node_index as int, node_index as int),
                            node_root_index == perc.connections.root_of(node_index as int),
                            forall|j: int| 0 <= j < i ==> roots[j] != node_root_index,
                    {
                        if node_root_index == largest_roots[i] {
                            proof {
                                assert(first_match(roots, node_root_index as int, i as int));
                                lemma_first_match_unique(roots, node_root_index as int, i as int);
                            }
                            return COLOR_INDEX_FIRST_EXTRA + i;
                        }
                    }
                    proof {
                        assert(!exists|i: int| first_match(roots, node_root_index as int, i));
                    }
                }
                COLOR_INDEX_WHITE
            }
        },
        PercolationBlockState::Filled => COLOR_INDEX_BLUE,
    }
}

/// `i` is the first position in `nodes` of a node linked to `u`.
pub open spec fn first_linked(perc: PercolationGrid, nodes: Seq<int>, u: int, i: int) -> bool {
    &&& 0 <= i < nodes.len()
    &&& perc.linked_nodes(nodes[i], u)
    &&& forall|j: int| 0 <= j < i ==> !perc.linked_nodes(nodes[j], u)
}

/// The color index of cell `(x, y)` with `nodes` standing for the components that have colors
/// of their own: black when blocked, blue when reached from the start node, red when reached
/// from the end node, else the color of the first of `nodes` linked to it (but on the last
/// frame) or white.
pub open spec fn linked_color_index_of(perc: PercolationGrid, nodes: Seq<int>, x: int, y: int, is_last_frame: bool) -> int {
    let u = y * perc.width + x;
    if !perc.is_open(x, y) {
        COLOR_INDEX_BLACK as int
    } else if perc.linked_nodes(perc.start_node_index as int, u) {
        COLOR_INDEX_BLUE as int
    } else if perc.linked_nodes(perc.end_node_index as int, u) {
        COLOR_INDEX_RED as int
    } else if !is_last_frame && exists|i: int| first_linked(perc, nodes, u, i) {
        COLOR_INDEX_FIRST_EXTRA + choose|i: int| first_linked(perc, nodes, u, i)
    } else {
        COLOR_INDEX_WHITE as int
    }
}

/// The first position linked to `u` is the one `choose`n.
proof fn lemma_first_linked_unique(perc: PercolationGrid, nodes: Seq<int>, u: int, i: int)
    requires
        first_linked(perc, nodes, u, i),
    ensures
        (choose|k: int| first_linked(perc, nodes, u, k)) == i,
{
    let k = choose|k: int| first_linked(perc, nodes, u, k);
    assert(first_linked(perc, nodes, u, k));
    if k < i {
        assert(!perc.linked_nodes(nodes[k], u));
    } else if i < k {
        assert(!perc.linked_nodes(nodes[i], u));
    }
}

/// The color index of cell `(x, y)` as `block_color_index` gives it, but with the colored
/// components known by any of their nodes: an open cell reached from neither end takes the
/// color of the first of `nodes` linked to it.
pub fn block_color_index_linked(
    perc: &mut PercolationGrid,
    nodes: &Vec<usize>,
    x: usize,
    y: usize,
    is_last_frame: bool,
) -> (index: usize)
    requires
        old(perc).wf(),
        x < old(perc).width,
        y < old(perc).height,
        nodes@.len() + COLOR_INDEX_FIRST_EXTRA <= usize::MAX,
        forall|i: int| 0 <= i < nodes@.len() ==> #[trigger] nodes@[i] < old(perc).node_count(),
    ensures
        *final(perc) == *old(perc),
        index == linked_color_index_of(*old(perc), nodes@.map_values(|n: usize| n as int), x as int, y as int, is_last_frame),
{
    let ghost start = *perc;
    let ghost ns = nodes@.map_values(|n: usize| n as int);
    match perc.block_state(x, y) {
        PercolationBlockState::Blocked => COLOR_INDEX_BLACK,
        PercolationBlockState::Open => {
            let node_index = perc.node_index(x, y);
            proof {
                assert(perc.connections.conn_rel()(perc.end_node_index as int, node_index as int)
                    == perc.linked_nodes(perc.end_node_index as int, node_index as int));
            }
            let end_node_index = perc.end_node_index;
            if perc.connections.is_connected(end_node_index, node_index) {
                COLOR_INDEX_RED
            } else {
                if !is_last_frame {
                    for i in 0..nodes.len()
                        invariant
                            ns == nodes@.map_values(|n: usize| n as int),
                            *perc == start,
                            start == *old(perc),
                            start.wf(),
                            nodes@.len() + COLOR_INDEX_FIRST_EXTRA <= usize::MAX,
                            forall|k: int| 0 <= k < nodes@.len() ==> #[trigger] nodes@[k] < start.node_count(),
                            node_index == y * perc.width + x,
                            node_index < perc.width * perc.height,
                            !is_last_frame,
                            start.is_open(x as int, y as int),
                            !start.linked_nodes(start.start_node_index as int, node_index as int),
                            !start.linked_nodes(start.end_node_index as int, node_index as int),
                            forall|j: int| 0 <= j < i ==> !start.linked_nodes(#[trigger] ns[j], node_index as int),
                    {
                        let node = nodes[i];
                        proof {
                            assert(perc.connections.conn_rel()(node as int, node_index as int)
                                == perc.linked_nodes(node as int, node_index as int));
                        }
                        if perc.connections.is_connected(node, node_index) {
                            proof {
                                assert(ns[i as int] == node);
                                assert(first_linked(start, ns, node_index as int, i as int));
                                lemma_first_linked_unique(start, ns, node_index as int, i as int);
                            }
                            return COLOR_INDEX_FIRST_EXTRA + i;
                        }
                    }
                    proof {
                        assert forall|i: int| !first_linked(start, ns, node_index as int, i) by {
                            if 0 <= i < ns.len() {
                                assert(!start.linked_nodes(ns[i], node_index as int));
                            }
                        }
                    }
                }
                COLOR_INDEX_WHITE
            }
        },
        PercolationBlockState::Filled => COLOR_INDEX_BLUE,
    }
}

/// Whether a run that opens random cells draws a frame once it has opened `step_count` cells:
/// from `start_render_step` on, at each multiple of `steps_per_frame` and when it percolates.
pub fn renders_live_step(step_count: usize, start_render_step: usize, steps_per_frame: usize, percolates: bool) -> (r: bool)
    requires
        steps_per_frame > 0,
    ensures
        r == (step_count >= start_render_step && (step_count % steps_per_frame == 0 || percolates)),
{
    step_count >= start_render_step && (step_count % steps_per_frame == 0 || percolates)
}

/// Where a run that opens random cells until it percolates stands: the cells it opened and the
/// frames it drew.
#[derive(Clone, Copy)]
pub struct LiveState {
    pub step_count: usize,
    pub frames: usize,
}

/// What a live run does after drawing a cell: nothing more, or draw a frame, first looking up
/// the colored components when `look_up_roots` holds; `last_frame` when the grid percolates.
#[derive(Clone, Copy)]
pub enum LiveAction {
    Wait,
    Draw { look_up_roots: bool, last_frame: bool },
}

impl LiveState {
    /// A run that has opened nothing and drawn nothing.
    pub fn new() -> (s: Self)
        ensures
            s.step_count == 0,
            s.frames == 0,
    {
        LiveState { step_count: 0, frames: 0 }
    }

    /// Whether the run draws another cell: while the grid does not percolate and, when frames
    /// are capped, fewer than `max_frames` are drawn.
    pub fn goes_on(&self, percolates: bool, max_frames: Option<usize>) -> (r: bool)
        ensures
            r == (!percolates && match max_frames {
                Some(m) => self.frames < m,
                None => true,
            }),
    {
        !percolates && match max_frames {
            Some(m) => self.frames < m,
            None => true,
        }
    }

    /// The next state and the action after drawing a cell: one that was already open changes
    /// nothing; a newly opened one counts a step, and from `start_render_step` on a frame is
    /// drawn at each multiple of `steps_per_frame` and when the grid percolates, the colored
    /// components being looked up while none are known (`roots_empty`).
    pub fn step(
        &self,
        opened: bool,
        percolates: bool,
        roots_empty: bool,
        start_render_step: usize,
        steps_per_frame: usize,
    ) -> (r: (
        LiveState,
        LiveAction,
    ))
        requires
            steps_per_frame > 0,
            opened ==> self.step_count < usize::MAX && self.frames < usize::MAX,
        ensures
            !opened ==> r.0 == *self && r.1 == LiveAction::Wait,
            opened ==> {
                let steps = self.step_count + 1;
                let draw = steps >= start_render_step && (steps % steps_per_frame as int == 0 || percolates);
                &&& r.0.step_count == steps
                &&& r.0.frames == self.frames + if draw {
                    1int
                } else {
                    0
                }
                &&& r.1 == if draw {
                    LiveAction::Draw { look_up_roots: roots_empty, last_frame: percolates }
                } else {
                    LiveAction::Wait
                }
            },
    {
        if !opened {
            return (*self, LiveAction::Wait);
        }
        let step_count = self.step_count + 1;
        if renders_live_step(step_count, start_render_step, steps_per_frame, percolates) {
            (
                LiveState { step_count, frames: self.frames + 1 },
                LiveAction::Draw { look_up_roots: roots_empty, last_frame: percolates },
            )
        } else {
            (LiveState { step_count, frames: self.frames }, LiveAction::Wait)
        }
    }
}

/// The grid of the color indexes of all cells.
pub fn color_grid(perc: &mut PercolationGrid, largest_roots: &Vec<usize>, is_last_frame: bool) -> (grid: Grid<usize>)
    requires
        old(perc).wf(),
        largest_roots@.len() + COLOR_INDEX_FIRST_EXTRA <= usize::MAX,
    ensures
        *final(perc) == *old(perc),
        grid.wf(),
        grid.width == old(perc).width,
        grid.height == old(perc).height,
        !grid.record_events,
        forall|x: int, y: int|
            0 <= x < old(perc).width && 0 <= y < old(perc).height ==> #[trigger] grid.cell(x, y)
                == old(perc).color_index_of(largest_roots@.map_values(|r: usize| r as int), x, y, is_last_frame),
{
    let (width, height) = (perc.width, perc.height);
    let mut color_grid = Grid::new(width, height, 0);
    color_grid.record_events = false;
    for color_y in 0..height
        invariant
            *perc == *old(perc),
            perc.wf(),
            width == perc.width,
            height == perc.height,
            largest_roots@.len() + COLOR_INDEX_FIRST_EXTRA <= usize::MAX,
            color_grid.wf(),
            color_grid.width == width,
            color_grid.height == height,
            !color_grid.record_events,
            forall|x: int, y: int|
                0 <= x < width && 0 <= y < color_y ==> #[trigger] color_grid.cell(x, y) == perc.color_index_of(
                    largest_roots@.map_values(|r: usize| r as int),
                    x,
                    y,
                    is_last_frame,
                ),
    {
        for color_x in 0..width
            invariant
                *perc == *old(perc),
                perc.wf(),
                width == perc.width,
                height == perc.height,
                color_y < height,
                largest_roots@.len() + COLOR_INDEX_FIRST_EXTRA <= usize::MAX,
                color_grid.wf(),
                color_grid.width == width,
                color_grid.height == height,
                !color_grid.record_events,
                forall|x: int, y: int|
                    0 <= x < width && 0 <= y < height && (y < color_y || (y == color_y && x < color_x))
                        ==> #[trigger] color_grid.cell(x, y) == perc.color_index_of(
                        largest_roots@.map_values(|r: usize| r as int),
                        x,
                        y,
                        is_last_frame,
                    ),
        {
            let index = block_color_index(perc, largest_roots, color_x, color_y, is_last_frame);
            color_grid.set_xy(color_x, color_y, index);
        }
    }
    color_grid
}

/// An edge between two nodes lets each reach the other.
proof fn lemma_edge_reaches(edges: spec_fn(int, int) -> bool, n: int, a: int, b: int)
    requires
        0 <= a < n,
        0 <= b < n,
        edges(a, b),
    ensures
        reach(edges, n, a, b),
        reach(edges, n, b, a),
{
    let p1 = seq![a, b];
    let p2 = seq![b, a];
    assert(linked(edges, p1[0], p1[1]));
    assert(linked(edges, p2[0], p2[1]));
    assert(is_path(edges, n, p1));
    assert(is_path(edges, n, p2));
}

/// Where a new grid attaches its start and end nodes, which each reach the cell they are
/// attached to: for top to bottom, the first cells of the top and of the bottom row; for the
/// corner discs, the top-left and the bottom-right cell; for center out, the start node at the
/// top-left cell of the square around the middle disc and the end node at the top-left cell of
/// the grid, on the open top row and left edge.
pub proof fn law_new_attachments(perc: PercolationGrid, type_: PercolationType)
    requires
        perc.wf(),
        type_fits(type_, perc.width as int, perc.height as int),
        perc.links@ == initial_links(type_, perc.width as int, perc.height as int),
    ensures
        ({
            let (w, h) = (perc.width as int, perc.height as int);
            let (s, e) = (perc.start_node_index as int, perc.end_node_index as int);
            match type_ {
                PercolationType::TopBottom => perc.linked_nodes(s, 0) && perc.linked_nodes(e, (h - 1) * w),
                PercolationType::TopLeftBottomRight { .. } => perc.linked_nodes(s, 0) && perc.linked_nodes(
                    e,
                    w * h - 1,
                ),
                PercolationType::CenterOut { radius } => perc.linked_nodes(
                    s,
                    (h / 2 - radius) * w + (w / 2 - radius),
                ) && perc.linked_nodes(e, 0),
            }
        }),
{
    let (w, h) = (perc.width as int, perc.height as int);
    let n = perc.node_count();
    let links = perc.links@;
    let (s, e) = (perc.start_node_index as int, perc.end_node_index as int);
    assert(1 <= w * h) by (nonlinear_arith)
        requires
            w >= 1,
            h >= 1,
    ;
    assert(0 <= (h - 1) * w < w * h) by (nonlinear_arith)
        requires
            w >= 1,
            h >= 1,
    ;
    match type_ {
        PercolationType::TopBottom => {
            assert(links[0] == (s, 0int) && links[1] == (e, (h - 1) * w));
            assert(links.contains((s, 0int)) && links.contains((e, (h - 1) * w)));
            lemma_edge_reaches(perc.edges(), n, s, 0);
            lemma_edge_reaches(perc.edges(), n, e, (h - 1) * w);
        },
        PercolationType::TopLeftBottomRight { .. } => {
            assert(h * w == w * h) by (nonlinear_arith);
            assert(links[0] == (s, 0int) && links[1] == (e, w * h - 1));
            assert(links.contains((s, 0int)) && links.contains((e, w * h - 1)));
            lemma_edge_reaches(perc.edges(), n, s, 0);
            lemma_edge_reaches(perc.edges(), n, e, w * h - 1);
        },
        PercolationType::CenterOut { radius } => {
            let c = (h / 2 - radius) * w + (w / 2 - radius);
            assert(0 <= c < w * h) by (nonlinear_arith)
                requires
                    w >= 1,
                    h >= 1,
                    0 <= radius <= w / 2,
                    radius <= h / 2,
                    c == (h / 2 - radius) * w + (w / 2 - radius),
            ;
            assert(links[0] == (s, c) && links[1] == (e, 0int));
            assert(links.contains((s, c)) && links.contains((e, 0int)));
            lemma_edge_reaches(perc.edges(), n, s, c);
            lemma_edge_reaches(perc.edges(), n, e, 0);
        },
    }
}

} // verus!
