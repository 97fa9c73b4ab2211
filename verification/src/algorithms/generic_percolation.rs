//! Site percolation from the top row to the bottom row of a grid whose edges do not wrap,
//! with nodes numbered by any unsigned type and joined by `GenericUnion`.
use vstd::prelude::*;
use crate::algorithms::connectivity::{
    is_reach_of, lemma_reach_no_edges, lemma_reach_same_edges, law_union_adds_edge, linked,
    no_edges, reach, reach_rel, with_edge,
};
use crate::algorithms::forest::{joined, law_joined_keeps_agreement, union_model};
use crate::algorithms::generic_union::{val, GenericUnion, NodeIndex};
use crate::algorithms::percolation::{
    law_opening_keeps_links, cell_open, lemma_node_coords, lemma_node_decode, lemma_opened_edges_match, neighbor_node,
    opened_edges, perc_edges, with_open, first_match, lemma_first_match_unique, open_color_index,
    PercolationBlockState, COLOR_INDEX_BLACK, COLOR_INDEX_BLUE, COLOR_INDEX_FIRST_EXTRA,
    COLOR_INDEX_RED, COLOR_INDEX_WHITE,
};
use crate::algorithms::generic_union::index_values;
use crate::algorithms::components::largest_first;
use crate::random::random_below;
use crate::grid::Grid;

verus! {

/// The flat cell list, row after row, seen as rows of `w` cells.
pub open spec fn rows(cells: Seq<bool>, w: int, h: int) -> Seq<Seq<bool>> {
    Seq::new(h as nat, |y: int| Seq::new(w as nat, |x: int| cells[y * w + x]))
}

/// The attachments made by `GenericPercolation::new` for the first `k` columns: the start node
/// to the top cell and the end node to the bottom cell of each column, in that order.
pub open spec fn column_links(w: int, h: int, k: int) -> Seq<(int, int)> {
    Seq::new(
        (2 * k) as nat,
        |i: int|
            if i % 2 == 0 {
                (w * h, i / 2)
            } else {
                (w * h + 1, (h - 1) * w + i / 2)
            },
    )
}

/// A cell node is open in the rows exactly when it is open in the flat list.
pub proof fn lemma_rows_cell(cells: Seq<bool>, w: int, h: int, u: int)
    requires
        0 < w,
        0 <= u < w * h,
    ensures
        cell_open(rows(cells, w, h), w, u) == cells[u],
{
    lemma_node_decode(w, h, u);
}

/// Opening cell `(x, y)` in the rows is opening its node in the flat list.
pub proof fn lemma_rows_open(cells: Seq<bool>, w: int, h: int, x: int, y: int)
    requires
        0 <= x < w,
        0 <= y < h,
        cells.len() == w * h,
    ensures
        with_open(rows(cells, w, h), x, y) == rows(cells.update(y * w + x, true), w, h),
{
    let c = y * w + x;
    let r0 = rows(cells, w, h);
    let r1 = with_open(r0, x, y);
    let r2 = rows(cells.update(c, true), w, h);
    lemma_node_coords(w, h, x, y);
    assert forall|r: int| 0 <= r < h implies #[trigger] r1[r] == r2[r] by {
        assert forall|i: int| 0 <= i < w implies r1[r][i] == r2[r][i] by {
            lemma_node_coords(w, h, i, r);
            assert(r2[r][i] == cells.update(c, true)[r * w + i]);
            if r == y {
                assert(r1[r] == r0[y].update(x, true));
                if i == x {
                } else {
                    assert(r * w + i != c);
                }
            } else {
                assert(r1[r] == r0[r]);
                assert(r * w + i != c);
            }
        }
        assert(r1[r] =~= r2[r]);
    }
    assert(r1 =~= r2);
}

/// The union-find model after cell node `c`, just opened in `cells`, is joined with each of
/// its first `k` neighbors, up, right, down and left, that is open.
pub open spec fn open_model(
    m: (Seq<int>, Seq<nat>, Seq<usize>),
    cells: Seq<bool>,
    w: int,
    h: int,
    c: int,
    k: int,
) -> (Seq<int>, Seq<nat>, Seq<usize>)
    decreases k,
{
    if k <= 0 {
        m
    } else {
        let prev = open_model(m, cells, w, h, c, k - 1);
        match neighbor_node(w, h, false, false, c, k - 1) {
            Some(nb) => if cells[nb] {
                union_model(prev, true, c, nb)
            } else {
                prev
            },
            None => prev,
        }
    }
}

/// A grid of `width` by `height` cells, each blocked or open, with a start node attached to
/// every top cell and an end node attached to every bottom cell; `union` joins the nodes that
/// are linked through open neighbors.
pub struct GenericPercolation<T: NodeIndex> {
    pub width: T,
    pub height: T,
    pub width_usize: usize,
    pub height_usize: usize,
    pub start_node_index: T,
    pub end_node_index: T,
    pub cell_count: T,
    pub cells: Vec<bool>,
    pub union: GenericUnion<T>,
    /// The attachments of the start and end nodes.
    pub links: Ghost<Seq<(int, int)>>,
}

impl<T: NodeIndex> GenericPercolation<T> {
    pub open spec fn w(&self) -> int {
        val(self.width)
    }

    pub open spec fn h(&self) -> int {
        val(self.height)
    }

    /// Cells plus the start and end nodes.
    pub open spec fn node_count(&self) -> int {
        self.w() * self.h() + 2
    }

    /// The cell `(x, y)` is open.
    pub open spec fn is_open(&self, x: int, y: int) -> bool {
        self.cells@[y * self.w() + x]
    }

    /// The graph whose reachability the union holds.
    pub open spec fn edges(&self) -> spec_fn(int, int) -> bool {
        perc_edges(rows(self.cells@, self.w(), self.h()), self.w(), self.h(), false, false, self.links@)
    }

    /// Nodes `a` and `b` are linked through open cells and attachments.
    pub open spec fn linked_nodes(&self, a: int, b: int) -> bool {
        reach(self.edges(), self.node_count(), a, b)
    }

    /// The start node is linked to the end node.
    pub open spec fn spec_percolates(&self) -> bool {
        self.linked_nodes(val(self.start_node_index), val(self.end_node_index))
    }

    /// The sizes fit the node type and the machine, and the fields agree with them.
    pub open spec fn dims_ok(&self) -> bool {
        &&& 1 <= self.w()
        &&& 1 <= self.h()
        &&& self.w() * self.h() + 2 <= T::max_value()
        &&& self.w() * self.h() + 2 <= usize::MAX
        &&& self.width_usize == self.w()
        &&& self.height_usize == self.h()
        &&& val(self.cell_count) == self.w() * self.h()
        &&& val(self.start_node_index) == self.w() * self.h()
        &&& val(self.end_node_index) == self.w() * self.h() + 1
        &&& self.cells@.len() == self.w() * self.h()
    }

    /// Everything but the cells, the union and the attachments stays.
    pub open spec fn same_frame(&self, other: &Self) -> bool {
        &&& self.width == other.width
        &&& self.height == other.height
        &&& self.width_usize == other.width_usize
        &&& self.height_usize == other.height_usize
        &&& self.start_node_index == other.start_node_index
        &&& self.end_node_index == other.end_node_index
        &&& self.cell_count == other.cell_count
    }

    pub open spec fn wf(&self) -> bool {
        &&& self.dims_ok()
        &&& self.union.wf()
        &&& self.union.count() == self.node_count()
        &&& is_reach_of(self.union.conn_rel(), self.edges(), self.node_count())
    }

    /// A grid of blocked cells with the start node attached to each top cell and the end node
    /// to each bottom cell.
    pub fn new(width: T, height: T) -> (perc: Self)
        requires
            1 <= val(width),
            1 <= val(height),
            val(width) * val(height) + 2 <= T::max_value(),
            val(width) * val(height) + 2 <= usize::MAX,
        ensures
            perc.wf(),
            perc.width == width,
            perc.height == height,
            perc.links@ == column_links(val(width), val(height), val(width)),
            forall|i: int| 0 <= i < perc.cells@.len() ==> !#[trigger] perc.cells@[i],
    {
        let ghost w = val(width);
        let ghost h = val(height);
        proof {
            assert(w * h >= 1 && h * w == w * h && w <= w * h && h <= w * h) by (nonlinear_arith)
                requires
                    w >= 1,
                    h >= 1,
            ;
            assert((h - 1) * w + w == w * h && (h - 1) * w >= 0) by (nonlinear_arith)
                requires
                    w >= 1,
                    h >= 1,
            ;
        }
        let cell_count = width.times(height);
        let cell_count_usize = Self::to_usize(cell_count);
        let mut cells: Vec<bool> = Vec::with_capacity(cell_count_usize);
        for _i in 0..cell_count_usize
            invariant
                cells@.len() == _i,
                forall|j: int| 0 <= j < cells@.len() ==> !#[trigger] cells@[j],
        {
            cells.push(false);
        }
        let one = T::one();
        let union_size = cell_count.plus(one).plus(one);
        let union = GenericUnion::new(union_size);
        let start_node_index = cell_count;
        let end_node_index = cell_count.plus(one);
        let mut perc = Self {
            width,
            height,
            width_usize: Self::to_usize(width),
            height_usize: Self::to_usize(height),
            start_node_index,
            end_node_index,
            cell_count,
            cells,
            union,
            links: Ghost(Seq::empty()),
        };
        proof {
            let n = perc.node_count();
            assert forall|u: int, v: int| 0 <= u < n && 0 <= v < n implies #[trigger] linked(
                no_edges(),
                u,
                v,
            ) == linked(perc.edges(), u, v) by {
                if 0 <= u < w * h {
                    lemma_rows_cell(perc.cells@, w, h, u);
                }
                if 0 <= v < w * h {
                    lemma_rows_cell(perc.cells@, w, h, v);
                }
            }
            lemma_reach_same_edges(no_edges(), perc.edges(), n);
            assert forall|a: int, b: int| 0 <= a < n && 0 <= b < n implies #[trigger] perc.union.conn_rel()(
                a,
                b,
            ) == reach(perc.edges(), n, a, b) by {
                lemma_reach_no_edges(n, a, b);
            }
        }
        // Connect the start node to every cell in the top row, and the end node to every cell
        // in the bottom row.
        let bottom_row_first_node_index = height.minus(one).times(width);
        let zero = T::zero();
        proof {
            assert(perc.links@ =~= column_links(w, h, 0));
        }
        let mut x = zero;
        while x.less(width)
            invariant
                perc.wf(),
                perc.width == width,
                perc.height == height,
                w == val(width),
                h == val(height),
                w * h >= 1,
                w <= w * h,
                (h - 1) * w + w == w * h,
                (h - 1) * w >= 0,
                val(bottom_row_first_node_index) == (h - 1) * w,
                start_node_index == perc.start_node_index,
                end_node_index == perc.end_node_index,
                val(one) == 1,
                0 <= val(x) <= w,
                perc.links@ == column_links(w, h, val(x)),
                forall|i: int| 0 <= i < perc.cells@.len() ==> !#[trigger] perc.cells@[i],
            decreases w - val(x),
        {
            let ghost k = val(x);
            perc.attach(start_node_index, x);
            perc.attach(end_node_index, bottom_row_first_node_index.plus(x));
            proof {
                let s = column_links(w, h, k + 1);
                assert((2 * k) % 2 == 0 && (2 * k) / 2 == k);
                assert((2 * k + 1) % 2 == 1 && (2 * k + 1) / 2 == k);
                assert(s[2 * k] == (w * h, k));
                assert(s[2 * k + 1] == (w * h + 1, (h - 1) * w + k));
                assert(perc.links@ =~= s);
            }
            x = x.plus(one);
        }
        perc
    }

    /// A fresh grid of the same size as `other`.
    pub fn clone_new(other: &Self) -> (perc: Self)
        requires
            other.wf(),
        ensures
            perc.wf(),
            perc.width == other.width,
            perc.height == other.height,
            perc.links@ == column_links(other.w(), other.h(), other.w()),
            forall|i: int| 0 <= i < perc.cells@.len() ==> !#[trigger] perc.cells@[i],
    {
        Self::new(other.width, other.height)
    }

    /// Joins nodes `a` and `b` and records the attachment.
    fn attach(&mut self, a: T, b: T)
        requires
            old(self).wf(),
            val(a) < old(self).node_count(),
            val(b) < old(self).node_count(),
        ensures
            final(self).wf(),
            final(self).same_frame(old(self)),
            final(self).cells == old(self).cells,
            final(self).links@ == old(self).links@.push((val(a), val(b))),
    {
        let ghost n = self.node_count();
        let ghost e = self.edges();
        let ghost before = self.union;
        let ghost (ai, bi) = (val(a), val(b));
        self.union.union(a, b);
        self.links = Ghost(self.links@.push((ai, bi)));
        proof {
            law_joined_keeps_agreement(before.conn_rel(), reach_rel(e, n), n, ai, bi);
            law_union_adds_edge(e, n, ai, bi);
            let e2 = with_edge(e, ai, bi);
            assert forall|u: int, v: int| 0 <= u < n && 0 <= v < n implies #[trigger] linked(e2, u, v)
                == linked(self.edges(), u, v) by {
                assert(self.links@.contains((u, v)) == (old(self).links@.contains((u, v)) || (u, v)
                    == (ai, bi))) by {
                    if (u, v) == (ai, bi) {
                        assert(self.links@[self.links@.len() - 1] == (u, v));
                    }
                    if old(self).links@.contains((u, v)) {
                        let i = choose|i: int| 0 <= i < old(self).links@.len() && old(self).links@[i] == (u, v);
                        assert(self.links@[i] == (u, v));
                    }
                }
                assert(self.links@.contains((v, u)) == (old(self).links@.contains((v, u)) || (v, u)
                    == (ai, bi))) by {
                    if (v, u) == (ai, bi) {
                        assert(self.links@[self.links@.len() - 1] == (v, u));
                    }
                    if old(self).links@.contains((v, u)) {
                        let i = choose|i: int| 0 <= i < old(self).links@.len() && old(self).links@[i] == (v, u);
                        assert(self.links@[i] == (v, u));
                    }
                }
            }
            lemma_reach_same_edges(e2, self.edges(), n);
            assert forall|u: int, v: int| 0 <= u < n && 0 <= v < n implies #[trigger] self.union.conn_rel()(
                u,
                v,
            ) == reach(self.edges(), n, u, v) by {
                assert(self.union.connected(u, v) == joined(before.conn_rel(), ai, bi, u, v));
                assert(reach(e2, n, u, v) == reach(self.edges(), n, u, v));
            }
        }
    }

    /// The node of cell `(x, y)`.
    pub fn x_y_to_index(&self, x: T, y: T) -> (i: T)
        requires
            val(y) * self.w() + val(x) <= T::max_value(),
        ensures
            val(i) == val(y) * self.w() + val(x),
    {
        proof {
            assert(0 <= val(y) * self.w()) by (nonlinear_arith)
                requires
                    0 <= val(y),
                    0 <= self.w(),
            ;
        }
        y.times(self.width).plus(x)
    }

    /// The node of cell `(x, y)` as a `usize`.
    pub fn x_y_to_index_usize(&self, x: T, y: T) -> (i: usize)
        requires
            val(y) * self.w() + val(x) <= T::max_value(),
            val(y) * self.w() + val(x) <= usize::MAX,
        ensures
            i == val(y) * self.w() + val(x),
    {
        Self::to_usize(self.x_y_to_index(x, y))
    }

    /// Whether the cell `(x, y)` is open.
    pub fn is_open_x_y(&self, x: T, y: T) -> (open: bool)
        requires
            self.dims_ok(),
            val(x) < self.w(),
            val(y) < self.h(),
        ensures
            open == self.is_open(val(x), val(y)),
    {
        proof {
            lemma_node_coords(self.w(), self.h(), val(x), val(y));
        }
        self.cells[self.x_y_to_index_usize(x, y)]
    }

    /// Whether the start node is linked to the end node.
    pub fn percolates(&self) -> (p: bool)
        requires
            self.wf(),
        ensures
            p == self.spec_percolates(),
    {
        proof {
            assert(self.union.conn_rel()(val(self.start_node_index), val(self.end_node_index))
                == self.spec_percolates());
        }
        self.union.is_connected(self.start_node_index, self.end_node_index)
    }

    /// What the cell `(x, y)` shows.
    pub fn block_state(&self, x: T, y: T) -> (state: PercolationBlockState)
        requires
            self.wf(),
            val(x) < self.w(),
            val(y) < self.h(),
        ensures
            state == if !self.is_open(val(x), val(y)) {
                PercolationBlockState::Blocked
            } else if self.linked_nodes(val(self.start_node_index), val(y) * self.w() + val(x)) {
                PercolationBlockState::Filled
            } else {
                PercolationBlockState::Open
            },
    {
        proof {
            lemma_node_coords(self.w(), self.h(), val(x), val(y));
        }
        let index_usize = self.x_y_to_index_usize(x, y);
        if self.cells[index_usize] {
            let index = self.x_y_to_index(x, y);
            proof {
                assert(self.union.conn_rel()(val(self.start_node_index), val(index))
                    == self.linked_nodes(val(self.start_node_index), val(index)));
            }
            if self.union.is_connected(self.start_node_index, index) {
                PercolationBlockState::Filled
            } else {
                PercolationBlockState::Open
            }
        } else {
            PercolationBlockState::Blocked
        }
    }

    /// Joins cell node `c` with its neighbor `(nx, ny)` in direction `k`, node `nb`, when that
    /// neighbor is open.
    fn join_if_open(
        &mut self,
        c: T,
        nx: T,
        ny: T,
        nb: T,
        Ghost(base): Ghost<spec_fn(int, int) -> bool>,
        Ghost(k): Ghost<nat>,
    )
        requires
            old(self).dims_ok(),
            old(self).union.wf(),
            old(self).union.count() == old(self).node_count(),
            k < 4,
            val(c) < old(self).w() * old(self).h(),
            val(nx) < old(self).w(),
            val(ny) < old(self).h(),
            val(nb) == val(ny) * old(self).w() + val(nx),
            neighbor_node(old(self).w(), old(self).h(), false, false, val(c), k as int) == Some(val(nb)),
            is_reach_of(
                old(self).union.conn_rel(),
                opened_edges(
                    base,
                    rows(old(self).cells@, old(self).w(), old(self).h()),
                    old(self).w(),
                    old(self).h(),
                    false,
                    false,
                    val(c),
                    k,
                ),
                old(self).node_count(),
            ),
        ensures
            final(self).dims_ok(),
            final(self).union.wf(),
            final(self).union.count() == old(self).union.count(),
            final(self).same_frame(old(self)),
            final(self).cells == old(self).cells,
            final(self).links == old(self).links,
            final(self).union.model() == if old(self).cells@[val(nb)] {
                union_model(old(self).union.model(), true, val(c), val(nb))
            } else {
                old(self).union.model()
            },
            is_reach_of(
                final(self).union.conn_rel(),
                opened_edges(
                    base,
                    rows(old(self).cells@, old(self).w(), old(self).h()),
                    old(self).w(),
                    old(self).h(),
                    false,
                    false,
                    val(c),
                    (k + 1) as nat,
                ),
                old(self).node_count(),
            ),
    {
        let ghost w = self.w();
        let ghost h = self.h();
        let ghost n = self.node_count();
        let ghost cells = rows(self.cells@, w, h);
        let ghost ek = opened_edges(base, cells, w, h, false, false, val(c), k);
        proof {
            lemma_node_coords(w, h, val(nx), val(ny));
            lemma_rows_cell(self.cells@, w, h, val(nb));
        }
        if self.is_open_x_y(nx, ny) {
            let ghost before = self.union;
            self.union.union(c, nb);
            proof {
                law_joined_keeps_agreement(before.conn_rel(), reach_rel(ek, n), n, val(c), val(nb));
                law_union_adds_edge(ek, n, val(c), val(nb));
                assert forall|a: int, b: int| 0 <= a < n && 0 <= b < n implies #[trigger] self.union.conn_rel()(
                    a,
                    b,
                ) == reach(with_edge(ek, val(c), val(nb)), n, a, b) by {
                    assert(self.union.connected(a, b) == joined(before.conn_rel(), val(c), val(nb), a, b));
                }
            }
        }
    }

    /// Opens the cell `(x, y)` and joins it with each of its open neighbors, up, right, down and
    /// left; `false`, with nothing changed, when it was open already.
    #[verifier::rlimit(40)]
    pub fn open(&mut self, x: T, y: T) -> (opened: bool)
        requires
            old(self).wf(),
            val(x) < old(self).w(),
            val(y) < old(self).h(),
        ensures
            final(self).wf(),
            final(self).same_frame(old(self)),
            final(self).links == old(self).links,
            opened == !old(self).is_open(val(x), val(y)),
            final(self).cells@ == old(self).cells@.update(val(y) * old(self).w() + val(x), true),
            forall|a: int, b: int| #[trigger] old(self).linked_nodes(a, b) ==> final(self).linked_nodes(a, b),
            !opened ==> final(self).union == old(self).union,
            opened ==> final(self).union.model() == open_model(
                old(self).union.model(),
                final(self).cells@,
                old(self).w(),
                old(self).h(),
                val(y) * old(self).w() + val(x),
                4,
            ),
    {
        let ghost w = self.w();
        let ghost h = self.h();
        let ghost n = self.node_count();
        proof {
            lemma_node_coords(w, h, val(x), val(y));
        }
        let index_usize = self.x_y_to_index_usize(x, y);
        if self.cells[index_usize] {
            // The cell is already open.
            proof {
                assert(self.cells@.update(index_usize as int, true) =~= self.cells@);
            }
            return false;
        }
        let ghost old_cells = self.cells@;
        let ghost old_edges = self.edges();
        self.cells.set(index_usize, true);
        let ghost cells2 = rows(self.cells@, w, h);
        let index = self.x_y_to_index(x, y);
        let ghost c = val(index);
        proof {
            lemma_rows_open(old_cells, w, h, val(x), val(y));
            assert(cells2 == with_open(rows(old_cells, w, h), val(x), val(y)));
            assert(opened_edges(old_edges, cells2, w, h, false, false, c, 0) == old_edges);
            assert(is_reach_of(self.union.conn_rel(), opened_edges(old_edges, cells2, w, h, false, false, c, 0), n));
            assert(c / w == val(y) && c % w == val(x));
        }
        let ghost m0 = self.union.model();
        let ghost cnew = self.cells@;
        proof {
            assert(open_model(m0, cnew, w, h, c, 0) == m0);
        }
        let zero = T::zero();
        let one = T::one();
        // Up.
        if zero.less(y) {
            proof {
                assert(c - w == (val(y) - 1) * w + val(x)) by (nonlinear_arith)
                    requires
                        c == val(y) * w + val(x),
                ;
                assert(neighbor_node(w, h, false, false, c, 0) == Some(c - w));
            }
            self.join_if_open(index, x, y.minus(one), index.minus(self.width), Ghost(old_edges), Ghost(0));
            proof {
                assert(self.union.model() == open_model(m0, cnew, w, h, c, 1));
            }
        } else {
            proof {
                assert(neighbor_node(w, h, false, false, c, 0) is None);
                assert(opened_edges(old_edges, cells2, w, h, false, false, c, 1) == opened_edges(
                    old_edges,
                    cells2,
                    w,
                    h,
                    false,
                    false,
                    c,
                    0,
                ));
                assert(self.union.model() == open_model(m0, cnew, w, h, c, 1));
            }
        }
        assert(is_reach_of(
            self.union.conn_rel(),
            opened_edges(old_edges, cells2, w, h, false, false, c, 1),
            n,
        ));
        // Right.
        if x.less(self.width.minus(one)) {
            proof {
                assert(neighbor_node(w, h, false, false, c, 1) == Some(c + 1));
            }
            self.join_if_open(index, x.plus(one), y, index.plus(one), Ghost(old_edges), Ghost(1));
            proof {
                assert(self.union.model() == open_model(m0, cnew, w, h, c, 2));
            }
        } else {
            proof {
                assert(neighbor_node(w, h, false, false, c, 1) is None);
                assert(opened_edges(old_edges, cells2, w, h, false, false, c, 2) == opened_edges(
                    old_edges,
                    cells2,
                    w,
                    h,
                    false,
                    false,
                    c,
                    1,
                ));
                assert(self.union.model() == open_model(m0, cnew, w, h, c, 2));
            }
        }
        assert(is_reach_of(
            self.union.conn_rel(),
            opened_edges(old_edges, cells2, w, h, false, false, c, 2),
            n,
        ));
        // Down.
        if y.less(self.height.minus(one)) {
            proof {
                assert(c + w == (val(y) + 1) * w + val(x)) by (nonlinear_arith)
                    requires
                        c == val(y) * w + val(x),
                ;
                lemma_node_coords(w, h, val(x), val(y) + 1);
                assert(neighbor_node(w, h, false, false, c, 2) == Some(c + w));
            }
            self.join_if_open(index, x, y.plus(one), index.plus(self.width), Ghost(old_edges), Ghost(2));
            proof {
                assert(self.union.model() == open_model(m0, cnew, w, h, c, 3));
            }
        } else {
            proof {
                assert(neighbor_node(w, h, false, false, c, 2) is None);
                assert(opened_edges(old_edges, cells2, w, h, false, false, c, 3) == opened_edges(
                    old_edges,
                    cells2,
                    w,
                    h,
                    false,
                    false,
                    c,
                    2,
                ));
                assert(self.union.model() == open_model(m0, cnew, w, h, c, 3));
            }
        }
        assert(is_reach_of(
            self.union.conn_rel(),
            opened_edges(old_edges, cells2, w, h, false, false, c, 3),
            n,
        ));
        // Left.
        if zero.less(x) {
            proof {
                assert(neighbor_node(w, h, false, false, c, 3) == Some(c - 1));
            }
            self.join_if_open(index, x.minus(one), y, index.minus(one), Ghost(old_edges), Ghost(3));
            proof {
                assert(self.union.model() == open_model(m0, cnew, w, h, c, 4));
            }
        } else {
            proof {
                assert(neighbor_node(w, h, false, false, c, 3) is None);
                assert(opened_edges(old_edges, cells2, w, h, false, false, c, 4) == opened_edges(
                    old_edges,
                    cells2,
                    w,
                    h,
                    false,
                    false,
                    c,
                    3,
                ));
                assert(self.union.model() == open_model(m0, cnew, w, h, c, 4));
            }
        }
        assert(is_reach_of(
            self.union.conn_rel(),
            opened_edges(old_edges, cells2, w, h, false, false, c, 4),
            n,
        ));
        proof {
            lemma_opened_edges_match(rows(old_cells, w, h), w, h, false, false, self.links@, val(x), val(y));
            let e4 = opened_edges(old_edges, cells2, w, h, false, false, c, 4);
            lemma_reach_same_edges(e4, self.edges(), n);
            assert forall|a: int, b: int| 0 <= a < n && 0 <= b < n implies #[trigger] self.union.conn_rel()(
                a,
                b,
            ) == reach(self.edges(), n, a, b) by {
                assert(reach(e4, n, a, b) == reach(self.edges(), n, a, b));
            }
            law_opening_keeps_links(rows(old_cells, w, h), cells2, w, h, false, false, self.links@);
        }
        true
    }

    /// Opens the cell `(x, y)` given as `usize` coordinates.
    pub fn open_usize(&mut self, x: usize, y: usize) -> (opened: bool)
        requires
            old(self).wf(),
            x < old(self).w(),
            y < old(self).h(),
        ensures
            final(self).wf(),
            final(self).same_frame(old(self)),
            final(self).links == old(self).links,
            opened == !old(self).is_open(x as int, y as int),
            final(self).cells@ == old(self).cells@.update(y * old(self).w() + x, true),
            forall|a: int, b: int| #[trigger] old(self).linked_nodes(a, b) ==> final(self).linked_nodes(a, b),
            !opened ==> final(self).union == old(self).union,
            opened ==> final(self).union.model() == open_model(
                old(self).union.model(),
                final(self).cells@,
                old(self).w(),
                old(self).h(),
                y * old(self).w() + x,
                4,
            ),
    {
        proof {
            assert(self.w() <= self.w() * self.h() && self.h() <= self.w() * self.h()) by (nonlinear_arith)
                requires
                    self.w() >= 1,
                    self.h() >= 1,
            ;
        }
        self.open(Self::from_usize(x), Self::from_usize(y))
    }

    /// Opens every cell of the rectangle with top-left cell `(left, top)`.
    pub fn open_rectangle(&mut self, left: T, top: T, width: T, height: T)
        requires
            old(self).wf(),
            val(left) + val(width) <= old(self).w(),
            val(top) + val(height) <= old(self).h(),
        ensures
            final(self).wf(),
            final(self).same_frame(old(self)),
            final(self).links == old(self).links,
            final(self).cells@.len() == old(self).cells@.len(),
            forall|cx: int, cy: int|
                0 <= cx < old(self).w() && 0 <= cy < old(self).h() ==> #[trigger] final(self).is_open(cx, cy)
                    == (old(self).is_open(cx, cy) || (val(left) <= cx < val(left) + val(width) && val(top)
                    <= cy < val(top) + val(height))),
    {
        let ghost (l, t, rw, rh) = (val(left), val(top), val(width), val(height));
        proof {
            assert(self.w() <= self.w() * self.h() && self.h() <= self.w() * self.h()) by (nonlinear_arith)
                requires
                    self.w() >= 1,
                    self.h() >= 1,
            ;
        }
        let right = left.plus(width);
        let bottom = top.plus(height);
        let mut y = top;
        while y.less(bottom)
            invariant
                self.wf(),
                self.same_frame(old(self)),
                self.links == old(self).links,
                val(right) == l + rw,
                val(bottom) == t + rh,
                l == val(left),
                rw == val(width),
                l + rw <= self.w(),
                t + rh <= self.h(),
                self.w() + 1 <= T::max_value(),
                self.h() + 1 <= T::max_value(),
                t <= val(y) <= t + rh,
                forall|cx: int, cy: int|
                    0 <= cx < self.w() && 0 <= cy < self.h() ==> #[trigger] self.is_open(cx, cy) == (old(
                        self,
                    ).is_open(cx, cy) || (l <= cx < l + rw && t <= cy < val(y))),
            decreases t + rh - val(y),
        {
            let mut x = left;
            while x.less(right)
                invariant
                    self.wf(),
                    self.same_frame(old(self)),
                    self.links == old(self).links,
                    val(right) == l + rw,
                    val(bottom) == t + rh,
                    l == val(left),
                    rw == val(width),
                    l + rw <= self.w(),
                    t + rh <= self.h(),
                    self.w() + 1 <= T::max_value(),
                    self.h() + 1 <= T::max_value(),
                    t <= val(y) < t + rh,
                    l <= val(x) <= l + rw,
                    forall|cx: int, cy: int|
                        0 <= cx < self.w() && 0 <= cy < self.h() ==> #[trigger] self.is_open(cx, cy) == (old(
                            self,
                        ).is_open(cx, cy) || (l <= cx < l + rw && t <= cy < val(y)) || (cy == val(y) && l
                            <= cx < val(x))),
                decreases l + rw - val(x),
            {
                let ghost prev = *self;
                let ghost (xi, yi) = (val(x), val(y));
                self.open(x, y);
                proof {
                    let (w, h) = (self.w(), self.h());
                    lemma_node_coords(w, h, xi, yi);
                    assert forall|cx: int, cy: int| 0 <= cx < w && 0 <= cy < h implies #[trigger] self.is_open(
                        cx,
                        cy,
                    ) == (prev.is_open(cx, cy) || (cx == xi && cy == yi)) by {
                        lemma_node_coords(w, h, cx, cy);
                    }
                }
                x = x.plus(T::one());
            }
            y = y.plus(T::one());
        }
    }

    #[allow(dead_code)]
    fn open_top_row(&mut self)
        requires
            old(self).wf(),
        ensures
            final(self).wf(),
            final(self).same_frame(old(self)),
            final(self).links == old(self).links,
            forall|cx: int, cy: int|
                0 <= cx < old(self).w() && 0 <= cy < old(self).h() ==> #[trigger] final(self).is_open(cx, cy)
                    == (old(self).is_open(cx, cy) || cy == 0),
    {
        self.open_rectangle(T::zero(), T::zero(), self.width, T::one());
    }

    #[allow(dead_code)]
    fn open_bottom_row(&mut self)
        requires
            old(self).wf(),
        ensures
            final(self).wf(),
            final(self).same_frame(old(self)),
            final(self).links == old(self).links,
            forall|cx: int, cy: int|
                0 <= cx < old(self).w() && 0 <= cy < old(self).h() ==> #[trigger] final(self).is_open(cx, cy)
                    == (old(self).is_open(cx, cy) || cy == old(self).h() - 1),
    {
        self.open_rectangle(T::zero(), self.height.minus(T::one()), self.width, T::one());
    }

    /// The color index of cell `(x, y)` with `roots` the roots of the components that have
    /// colors of their own.
    pub open spec fn color_index_of(&self, roots: Seq<int>, x: int, y: int, is_last_frame: bool) -> int {
        if !self.is_open(x, y) {
            COLOR_INDEX_BLACK as int
        } else if self.linked_nodes(val(self.start_node_index), y * self.w() + x) {
            COLOR_INDEX_BLUE as int
        } else if self.linked_nodes(val(self.end_node_index), y * self.w() + x) {
            COLOR_INDEX_RED as int
        } else {
            open_color_index(self.union.root_of(y * self.w() + x), roots, is_last_frame)
        }
    }

    /// The color index of cell `(x, y)`: black when blocked, blue when reached from the start
    /// node, red when reached from the end node, else the color of its component among
    /// `largest_roots` (but on the last frame) or white.
    pub fn block_color_index(&self, largest_roots: &Vec<T>, x: T, y: T, is_last_frame: bool) -> (index: usize)
        requires
            self.wf(),
            val(x) < self.w(),
            val(y) < self.h(),
            largest_roots@.len() + COLOR_INDEX_FIRST_EXTRA <= usize::MAX,
        ensures
            index == self.color_index_of(index_values(largest_roots@), val(x), val(y), is_last_frame),
    {
        proof {
            lemma_node_coords(self.w(), self.h(), val(x), val(y));
        }
        match self.block_state(x, y) {
            PercolationBlockState::Blocked => COLOR_INDEX_BLACK,
            PercolationBlockState::Open => {
                let node_index = self.x_y_to_index(x, y);
                let node_root_index = self.union.root(node_index);
                proof {
                    assert(self.union.conn_rel()(val(self.end_node_index), val(node_index))
                        == self.linked_nodes(val(self.end_node_index), val(node_index)));
                }
                if self.union.is_connected(self.end_node_index, node_index) {
                    COLOR_INDEX_RED
                } else {
                    let ghost roots = index_values(largest_roots@);
                    if !is_last_frame {
                        for i in 0..largest_roots.len()
                            invariant
                                roots == index_values(largest_roots@),
                                largest_roots@.len() + COLOR_INDEX_FIRST_EXTRA <= usize::MAX,
                                val(node_root_index) == self.union.root_of(val(node_index)),
                                !is_last_frame,
                                val(node_index) == val(y) * self.w() + val(x),
                                self.is_open(val(x), val(y)),
                                !self.linked_nodes(val(self.start_node_index), val(node_index)),
                                !self.linked_nodes(val(self.end_node_index), val(node_index)),
                                forall|j: int| 0 <= j < i ==> roots[j] != val(node_root_index),
                        {
                            if node_root_index.same(largest_roots[i]) {
                                proof {
                                    assert(first_match(roots, val(node_root_index), i as int));
                                    lemma_first_match_unique(roots, val(node_root_index), i as int);
                                }
                                return COLOR_INDEX_FIRST_EXTRA + i;
                            }
                        }
                        proof {
                            assert(!exists|i: int| first_match(roots, val(node_root_index), i));
                        }
                    }
                    COLOR_INDEX_WHITE
                }
            },
            PercolationBlockState::Filled => COLOR_INDEX_BLUE,
        }
    }

    /// The grid of the color indexes of all cells.
    pub fn color_grid(&self, largest_roots: &Vec<T>, is_last_frame: bool) -> (grid: Grid<usize>)
        requires
            self.wf(),
            largest_roots@.len() + COLOR_INDEX_FIRST_EXTRA <= usize::MAX,
        ensures
            grid.wf(),
            grid.width == self.w(),
            grid.height == self.h(),
            !grid.record_events,
            forall|x: int, y: int|
                0 <= x < self.w() && 0 <= y < self.h() ==> #[trigger] grid.cell(x, y) == self.color_index_of(
                    index_values(largest_roots@),
                    x,
                    y,
                    is_last_frame,
                ),
    {
        let (width, height) = (self.width_usize, self.height_usize);
        let mut color_grid = Grid::new(width, height, 0);
        color_grid.record_events = false;
        proof {
            assert(self.w() <= self.w() * self.h() && self.h() <= self.w() * self.h()) by (nonlinear_arith)
                requires
                    self.w() >= 1,
                    self.h() >= 1,
            ;
        }
        for color_y in 0..height
            invariant
                self.wf(),
                width == self.w(),
                height == self.h(),
                width <= T::max_value(),
                height <= T::max_value(),
                largest_roots@.len() + COLOR_INDEX_FIRST_EXTRA <= usize::MAX,
                color_grid.wf(),
                color_grid.width == width,
                color_grid.height == height,
                !color_grid.record_events,
                forall|x: int, y: int|
                    0 <= x < width && 0 <= y < color_y ==> #[trigger] color_grid.cell(x, y) == self.color_index_of(
                        index_values(largest_roots@),
                        x,
                        y,
                        is_last_frame,
                    ),
        {
            for color_x in 0..width
                invariant
                    self.wf(),
                    width == self.w(),
                    height == self.h(),
                    width <= T::max_value(),
                    height <= T::max_value(),
                    color_y < height,
                    largest_roots@.len() + COLOR_INDEX_FIRST_EXTRA <= usize::MAX,
                    color_grid.wf(),
                    color_grid.width == width,
                    color_grid.height == height,
                    !color_grid.record_events,
                    forall|x: int, y: int|
                        0 <= x < width && 0 <= y < height && (y < color_y || (y == color_y && x < color_x))
                            ==> #[trigger] color_grid.cell(x, y) == self.color_index_of(
                            index_values(largest_roots@),
                            x,
                            y,
                            is_last_frame,
                        ),
            {
                let index = self.block_color_index(
                    largest_roots,
                    Self::from_usize(color_x),
                    Self::from_usize(color_y),
                    is_last_frame,
                );
                color_grid.set_xy(color_x, color_y, index);
            }
        }
        color_grid
    }

    /// The cells and the parent of each node.
    pub fn get_state(&self) -> (state: (Vec<bool>, Vec<usize>))
        requires
            self.wf(),
        ensures
            state.0@ == self.cells@,
            state.1@.len() == self.union.count(),
            forall|i: int| 0 <= i < state.1@.len() ==> #[trigger] state.1@[i] == self.union.parents()[i],
    {
        let mut parents: Vec<usize> = Vec::new();
        for i in 0..self.union.nodes.len()
            invariant
                self.wf(),
                parents@.len() == i,
                forall|j: int| 0 <= j < i ==> #[trigger] parents@[j] == self.union.parents()[j],
        {
            proof {
                T::lemma_range(self.union.nodes@[i as int]);
                assert(self.union.parents()[i as int] < self.union.count());
            }
            parents.push(Self::to_usize(self.union.nodes[i]));
        }
        (self.cells.clone(), parents)
    }

    /// The cells after opening the first `i` of `pairs`, from this grid's cells.
    pub open spec fn cells_after(&self, pairs: Seq<(usize, usize)>, i: int) -> Seq<bool>
        decreases i,
    {
        if i <= 0 {
            self.cells@
        } else {
            self.cells_after(pairs, i - 1).update(pairs[i - 1].1 * self.w() + pairs[i - 1].0, true)
        }
    }

    /// The pair `pairs[i]` names a cell still blocked after the pairs before it.
    pub open spec fn opens_new(&self, pairs: Seq<(usize, usize)>, i: int) -> bool {
        !self.cells_after(pairs, i)[pairs[i].1 * self.w() + pairs[i].0]
    }

    /// How many of the first `i` pairs open a blocked cell.
    pub open spec fn new_count(&self, pairs: Seq<(usize, usize)>, i: int) -> int
        decreases i,
    {
        if i <= 0 {
            0
        } else {
            self.new_count(pairs, i - 1) + if self.opens_new(pairs, i - 1) {
                1int
            } else {
                0
            }
        }
    }

    /// The start node reaches the end node when the cells are `cells`.
    pub open spec fn percolates_with(&self, cells: Seq<bool>) -> bool {
        reach(
            perc_edges(rows(cells, self.w(), self.h()), self.w(), self.h(), false, false, self.links@),
            self.node_count(),
            val(self.start_node_index),
            val(self.end_node_index),
        )
    }

    /// Opening `pairs[i]` opens a blocked cell and makes the grid percolate.
    pub open spec fn percolates_at(&self, pairs: Seq<(usize, usize)>, i: int) -> bool {
        self.opens_new(pairs, i) && self.percolates_with(self.cells_after(pairs, i + 1))
    }

    /// Opens the cells of `pairs` in turn until the grid percolates, and counts the cells that
    /// were blocked when their pair came; an error when the pairs run out first.
    pub fn get_steps_to_percolation(&mut self, pairs: &[(usize, usize)]) -> (result: Result<usize, String>)
        requires
            old(self).wf(),
            forall|i: int| 0 <= i < pairs@.len() ==> #[trigger] pairs@[i].0 < old(self).w() && pairs@[i].1
                < old(self).h(),
        ensures
            final(self).wf(),
            final(self).same_frame(old(self)),
            final(self).links == old(self).links,
            match result {
                Ok(steps) => exists|i: int|
                    0 <= i < pairs@.len() && #[trigger] old(self).percolates_at(pairs@, i) && (forall|j: int|
                        0 <= j < i ==> !old(self).percolates_at(pairs@, j)) && steps == old(self).new_count(
                        pairs@,
                        i + 1,
                    ) && final(self).cells@ == old(self).cells_after(pairs@, i + 1) && final(self).union.model()
                        == old(self).model_after(pairs@, i + 1),
                Err(message) => (forall|j: int|
                    0 <= j < pairs@.len() ==> !old(self).percolates_at(pairs@, j)) && final(self).cells@
                    == old(self).cells_after(pairs@, pairs@.len() as int) && final(self).union.model()
                    == old(self).model_after(pairs@, pairs@.len() as int) && message@
                    == "Ran out of pairs before percolation."@,
            },
    {
        let ghost orig = *self;
        let mut step_count: usize = 0;
        proof {
            assert(self.w() <= self.w() * self.h() && self.h() <= self.w() * self.h()) by (nonlinear_arith)
                requires
                    self.w() >= 1,
                    self.h() >= 1,
            ;
        }
        for i in 0..pairs.len()
            invariant
                self.wf(),
                self.same_frame(&orig),
                self.links == orig.links,
                orig == *old(self),
                orig.wf(),
                self.w() <= T::max_value(),
                self.h() <= T::max_value(),
                forall|k: int| 0 <= k < pairs@.len() ==> #[trigger] pairs@[k].0 < orig.w() && pairs@[k].1
                    < orig.h(),
                self.cells@ == orig.cells_after(pairs@, i as int),
                self.union.model() == orig.model_after(pairs@, i as int),
                step_count == orig.new_count(pairs@, i as int),
                step_count <= i,
                forall|j: int| 0 <= j < i ==> !orig.percolates_at(pairs@, j),
        {
            let (x, y) = pairs[i];
            let opened = self.open(Self::from_usize(x), Self::from_usize(y));
            proof {
                assert(self.cells@ == orig.cells_after(pairs@, i + 1));
                assert(self.union.model() == orig.model_after(pairs@, i + 1));
            }
            if opened {
                step_count += 1;
                if self.percolates() {
                    proof {
                        assert(orig.percolates_at(pairs@, i as int));
                    }
                    return Ok(step_count);
                }
            }
        }
        Err("Ran out of pairs before percolation.".to_owned())
    }

    /// The union-find model after opening the cells of the first `i` pairs in turn, each cell
    /// still blocked joined with its open neighbors.
    pub open spec fn model_after(&self, pairs: Seq<(usize, usize)>, i: int) -> (Seq<int>, Seq<nat>, Seq<usize>)
        decreases i,
    {
        if i <= 0 {
            self.union.model()
        } else {
            let prev = self.model_after(pairs, i - 1);
            let c = pairs[i - 1].1 * self.w() + pairs[i - 1].0;
            if self.cells_after(pairs, i - 1)[c] {
                prev
            } else {
                open_model(prev, self.cells_after(pairs, i), self.w(), self.h(), c, 4)
            }
        }
    }

    /// One frame of a replay from `self` of the cells of `pairs`, drawn at step `step` from
    /// `state` with the colored components `roots`: the state holds the cells opened by the
    /// pairs up to and including the step, and the grid holds the color index of every cell,
    /// the step counting as the last frame when it is the last pair.
    pub open spec fn replay_frame(
        &self,
        pairs: Seq<(usize, usize)>,
        step: int,
        state: Self,
        roots: Seq<T>,
        grid: Grid<usize>,
    ) -> bool {
        &&& state.wf()
        &&& state.same_frame(self)
        &&& state.links == self.links
        &&& state.cells@ == self.cells_after(pairs, step + 1)
        &&& state.union.model() == self.model_after(pairs, step + 1)
        &&& grid.wf()
        &&& grid.width == self.w()
        &&& grid.height == self.h()
        &&& !grid.record_events
        &&& forall|x: int, y: int|
            0 <= x < self.w() && 0 <= y < self.h() ==> #[trigger] grid.cell(x, y) == state.color_index_of(
                index_values(roots),
                x,
                y,
                step == pairs.len() - 1,
            )
    }

    /// The colored components of frame `j`: those of the frame before while it had any, else
    /// the `limit` largest components of the frame's state.
    pub open spec fn replay_roots(states: Seq<Self>, roots: Seq<Seq<T>>, limit: usize, j: int) -> bool {
        if j > 0 && roots[j - 1].len() > 0 {
            roots[j] == roots[j - 1]
        } else {
            largest_first(
                states[j].union.size_values(),
                limit as nat,
                roots[j].map_values(|x: T| x.index_value() as usize),
            )
        }
    }

    /// The grids are the frames of a replay from `self` of the cells of `pairs` drawn at the
    /// steps of `steps`, from the states `states` with the colored components `roots`.
    pub open spec fn replayed(
        &self,
        pairs: Seq<(usize, usize)>,
        steps: Seq<usize>,
        limit: usize,
        grids: Seq<Grid<usize>>,
        states: Seq<Self>,
        roots: Seq<Seq<T>>,
    ) -> bool {
        &&& states.len() == steps.len()
        &&& roots.len() == steps.len()
        &&& grids.len() == steps.len()
        &&& forall|j: int|
            0 <= j < steps.len() ==> #[trigger] self.replay_frame(pairs, steps[j] as int, states[j], roots[j], grids[j])
                && Self::replay_roots(states, roots, limit, j)
    }

    /// Opens the cells of `pairs` in turn and, at each step of `steps`, makes the grid of the
    /// color indexes of all cells; the components with colors of their own are the `limit`
    /// largest at the first frame drawn, looked up again at each frame while there are none.
    pub fn replay_color_grids(&mut self, pairs: &[(usize, usize)], steps: &Vec<usize>, limit: usize) -> (grids: Vec<
        Grid<usize>,
    >)
        requires
            old(self).wf(),
            forall|i: int| 0 <= i < pairs@.len() ==> #[trigger] pairs@[i].0 < old(self).w() && pairs@[i].1
                < old(self).h(),
            forall|i: int, j: int| 0 <= i < j < steps@.len() ==> #[trigger] steps@[i] < #[trigger] steps@[j],
            forall|i: int| 0 <= i < steps@.len() ==> #[trigger] steps@[i] < pairs@.len(),
            limit + COLOR_INDEX_FIRST_EXTRA <= usize::MAX,
        ensures
            final(self).wf(),
            final(self).same_frame(old(self)),
            final(self).links == old(self).links,
            final(self).cells@ == old(self).cells_after(pairs@, pairs@.len() as int),
            final(self).union.model() == old(self).model_after(pairs@, pairs@.len() as int),
            grids@.len() == steps@.len(),
            exists|states: Seq<Self>, roots: Seq<Seq<T>>| #[trigger] old(self).replayed(
                pairs@,
                steps@,
                limit,
                grids@,
                states,
                roots,
            ),
    {
        let ghost orig = *self;
        let mut grids: Vec<Grid<usize>> = Vec::new();
        let mut largest_roots: Vec<T> = Vec::new();
        let ghost mut states: Seq<Self> = Seq::empty();
        let ghost mut roots: Seq<Seq<T>> = Seq::empty();
        let mut next: usize = 0;
        proof {
            assert(self.w() <= self.w() * self.h() && self.h() <= self.w() * self.h()) by (nonlinear_arith)
                requires
                    self.w() >= 1,
                    self.h() >= 1,
            ;
        }
        for i in 0..pairs.len()
            invariant
                self.w() <= T::max_value(),
                self.h() <= T::max_value(),
                self.wf(),
                self.same_frame(&orig),
                self.links == orig.links,
                orig == *old(self),
                orig.wf(),
                forall|k: int| 0 <= k < pairs@.len() ==> #[trigger] pairs@[k].0 < orig.w() && pairs@[k].1
                    < orig.h(),
                forall|a: int, b: int| 0 <= a < b < steps@.len() ==> #[trigger] steps@[a] < #[trigger] steps@[b],
                forall|k: int| 0 <= k < steps@.len() ==> #[trigger] steps@[k] < pairs@.len(),
                limit + COLOR_INDEX_FIRST_EXTRA <= usize::MAX,
                self.cells@ == orig.cells_after(pairs@, i as int),
                self.union.model() == orig.model_after(pairs@, i as int),
                next <= steps@.len(),
                next < steps@.len() ==> steps@[next as int] >= i,
                next > 0 ==> steps@[next - 1] < i,
                grids@.len() == next,
                states.len() == next,
                roots.len() == next,
                largest_roots@.len() <= limit,
                next > 0 ==> largest_roots@ == roots[next - 1],
                next == 0 ==> largest_roots@.len() == 0,
                forall|j: int|
                    0 <= j < next ==> #[trigger] orig.replay_frame(pairs@, steps@[j] as int, states[j], roots[j], grids@[j]),
                forall|j: int| 0 <= j < next ==> #[trigger] Self::replay_roots(states, roots, limit, j),
        {
            let (x, y) = pairs[i];
            self.open(Self::from_usize(x), Self::from_usize(y));
            proof {
                assert(self.cells@ == orig.cells_after(pairs@, i + 1));
                assert(self.union.model() == orig.model_after(pairs@, i + 1));
            }
            if next < steps.len() && steps[next] == i {
                if largest_roots.len() == 0 {
                    largest_roots = self.union.get_roots_of_largest_components(limit);
                }
                let is_last_frame = i == pairs.len() - 1;
                let grid = self.color_grid(&largest_roots, is_last_frame);
                proof {
                    let old_states = states;
                    let old_roots = roots;
                    states = states.push(*self);
                    roots = roots.push(largest_roots@);
                    assert(orig.replay_frame(pairs@, steps@[next as int] as int, states[next as int], roots[next as int], grid));
                    assert(Self::replay_roots(states, roots, limit, next as int));
                    assert forall|j: int| 0 <= j < next implies Self::replay_roots(states, roots, limit, j) by {
                        assert(orig.replay_frame(pairs@, steps@[j] as int, old_states[j], old_roots[j], grids@[j]));
                        assert(Self::replay_roots(old_states, old_roots, limit, j));
                        assert(states[j] == old_states[j]);
                        assert(roots[j] == old_roots[j]);
                        if j > 0 {
                            assert(roots[j - 1] == old_roots[j - 1]);
                        }
                    }
                }
                let ghost before_grids = grids@;
                let ghost g = grid;
                grids.push(grid);
                next = next + 1;
                proof {
                    assert forall|j: int| 0 <= j < next implies #[trigger] orig.replay_frame(
                        pairs@,
                        steps@[j] as int,
                        states[j],
                        roots[j],
                        grids@[j],
                    ) && Self::replay_roots(states, roots, limit, j) by {
                        if j < next - 1 {
                            assert(grids@[j] == before_grids[j]);
                        } else {
                            assert(grids@[j] == g);
                            assert(orig.replay_frame(pairs@, steps@[j] as int, states[j], roots[j], g));
                        }
                    }
                }
            }
        }
        proof {
            if next < steps@.len() {
                assert(steps@[next as int] < pairs@.len());
            }
            assert(orig.replayed(pairs@, steps@, limit, grids@, states, roots));
        }
        grids
    }

    /// Draws a cell at random and opens it; returns the cell and whether it was blocked.
    pub fn open_random(&mut self) -> (r: (T, T, bool))
        requires
            old(self).wf(),
        ensures
            final(self).wf(),
            final(self).same_frame(old(self)),
            final(self).links == old(self).links,
            val(r.0) < old(self).w(),
            val(r.1) < old(self).h(),
            r.2 == !old(self).is_open(val(r.0), val(r.1)),
            final(self).cells@ == old(self).cells@.update(val(r.1) * old(self).w() + val(r.0), true),
            forall|a: int, b: int| #[trigger] old(self).linked_nodes(a, b) ==> final(self).linked_nodes(a, b),
            !r.2 ==> final(self).union == old(self).union,
            r.2 ==> final(self).union.model() == open_model(
                old(self).union.model(),
                final(self).cells@,
                old(self).w(),
                old(self).h(),
                val(r.1) * old(self).w() + val(r.0),
                4,
            ),
    {
        proof {
            assert(self.w() <= self.w() * self.h() && self.h() <= self.w() * self.h()) by (nonlinear_arith)
                requires
                    self.w() >= 1,
                    self.h() >= 1,
            ;
        }
        let x = Self::from_usize(random_below(self.width_usize));
        let y = Self::from_usize(random_below(self.height_usize));
        let opened = self.open(x, y);
        (x, y, opened)
    }

    /// The value as a `usize`.
    pub fn to_usize(val: T) -> (r: usize)
        requires
            val.index_value() <= usize::MAX,
        ensures
            r == val.index_value(),
    {
        val.to_usize()
    }

    /// The node value of a `usize`.
    pub fn from_usize(val: usize) -> (r: T)
        requires
            val <= T::max_value(),
        ensures
            r.index_value() == val,
    {
        T::from_usize(val)
    }
}

} // verus!
