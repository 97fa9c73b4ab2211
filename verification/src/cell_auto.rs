//! Cellular automata on a grid of open and closed cells: each cell keeps the list of its
//! neighbors and the number of them that are open, and a step opens and closes cells by the
//! rule of an algorithm applied to the counts before the step.
use vstd::prelude::*;
use crate::algorithms::percolation::{lemma_node_coords, lemma_node_decode, wrap_axis};
use crate::cave_cell::{CELL_CLOSED, CELL_OPEN};
use crate::grid::{Grid, GridNeighborType, GridWrappingStyle};
use crate::{cell_index_to_x_y_isize, x_y_to_cell_index_isize};

verus! {

/// The rule that decides from the number of open neighbors whether a cell opens or closes.
#[derive(Clone, Copy)]
pub enum CellAutoAlgorithm {
    Original,
    B3S1234,
    B3S12345,
    GameOfLife,
}

impl CellAutoAlgorithm {
    /// A closed cell with `neighbor_count` open neighbors opens.
    pub open spec fn opens(&self, neighbor_count: int) -> bool {
        match self {
            CellAutoAlgorithm::Original => neighbor_count > 4,
            _ => neighbor_count == 3,
        }
    }

    /// An open cell with `neighbor_count` open neighbors closes.
    pub open spec fn closes(&self, neighbor_count: int) -> bool {
        match self {
            CellAutoAlgorithm::Original => neighbor_count < 3,
            CellAutoAlgorithm::B3S1234 => neighbor_count < 1 || neighbor_count > 4,
            CellAutoAlgorithm::B3S12345 => neighbor_count < 1 || neighbor_count > 5,
            CellAutoAlgorithm::GameOfLife => neighbor_count < 2 || neighbor_count > 3,
        }
    }

    /// Whether a closed cell with `neighbor_count` open neighbors opens.
    pub fn should_open(&self, neighbor_count: usize) -> (r: bool)
        ensures
            r == self.opens(neighbor_count as int),
            r == match self {
                CellAutoAlgorithm::Original => neighbor_count > 4,
                _ => neighbor_count == 3,
            },
    {
        proof {
            law_step_rules(*self, false, neighbor_count as int);
        }
        match self {
            CellAutoAlgorithm::Original => neighbor_count > 4,
            CellAutoAlgorithm::B3S1234 | CellAutoAlgorithm::B3S12345 | CellAutoAlgorithm::GameOfLife => neighbor_count == 3,
        }
    }

    /// Whether an open cell with `neighbor_count` open neighbors closes.
    pub fn should_close(&self, neighbor_count: usize) -> (r: bool)
        ensures
            r == self.closes(neighbor_count as int),
            r == match self {
                CellAutoAlgorithm::Original => neighbor_count < 3,
                CellAutoAlgorithm::GameOfLife => neighbor_count < 2 || neighbor_count > 3,
                CellAutoAlgorithm::B3S1234 => neighbor_count == 0 || neighbor_count > 4,
                CellAutoAlgorithm::B3S12345 => neighbor_count == 0 || neighbor_count > 5,
            },
    {
        proof {
            law_step_rules(*self, true, neighbor_count as int);
        }
        match self {
            CellAutoAlgorithm::Original => neighbor_count < 3,
            CellAutoAlgorithm::B3S1234 => neighbor_count < 1 || neighbor_count > 4,
            CellAutoAlgorithm::B3S12345 => neighbor_count < 1 || neighbor_count > 5,
            CellAutoAlgorithm::GameOfLife => neighbor_count < 2 || neighbor_count > 3,
        }
    }
}

/// The left and right edges wrap.
pub open spec fn wraps_x(wrapping_style: GridWrappingStyle) -> bool {
    wrapping_style is Horizontal || wrapping_style is Toroidal
}

/// The top and bottom edges wrap.
pub open spec fn wraps_y(wrapping_style: GridWrappingStyle) -> bool {
    wrapping_style is Vertical || wrapping_style is Toroidal
}

/// The cell index of `(x, y)` after wrapping, if it lands on the grid.
pub open spec fn resolve(w: int, h: int, wrapping_style: GridWrappingStyle, x: int, y: int) -> Option<int> {
    match (wrap_axis(x, w, wraps_x(wrapping_style)), wrap_axis(y, h, wraps_y(wrapping_style))) {
        (Some(a), Some(b)) => Some(b * w + a),
        _ => None,
    }
}

/// What the candidate `(x, y)` adds to a neighbor list: nothing when it is skipped or off the
/// grid, else its cell index.
pub open spec fn candidate(
    w: int,
    h: int,
    wrapping_style: GridWrappingStyle,
    x: int,
    y: int,
    skip: bool,
) -> Seq<int> {
    if skip {
        Seq::empty()
    } else {
        match resolve(w, h, wrapping_style, x, y) {
            Some(i) => seq![i],
            None => Seq::empty(),
        }
    }
}

/// The Moore candidates of `(cx, cy)` in row `y`, from column `cx - range` on for `k` columns.
pub open spec fn moore_row(
    w: int,
    h: int,
    wrapping_style: GridWrappingStyle,
    cx: int,
    cy: int,
    range: int,
    y: int,
    k: int,
) -> Seq<int>
    decreases k,
{
    if k <= 0 {
        Seq::empty()
    } else {
        let x = cx - range + k - 1;
        moore_row(w, h, wrapping_style, cx, cy, range, y, k - 1) + candidate(
            w,
            h,
            wrapping_style,
            x,
            y,
            x == cx && y == cy,
        )
    }
}

/// The Moore candidates of `(cx, cy)` in the first `j` rows, from row `cy - range` on.
pub open spec fn moore_rows(
    w: int,
    h: int,
    wrapping_style: GridWrappingStyle,
    cx: int,
    cy: int,
    range: int,
    j: int,
) -> Seq<int>
    decreases j,
{
    if j <= 0 {
        Seq::empty()
    } else {
        moore_rows(w, h, wrapping_style, cx, cy, range, j - 1) + moore_row(
            w,
            h,
            wrapping_style,
            cx,
            cy,
            range,
            cy - range + j - 1,
            2 * range + 1,
        )
    }
}

/// The vertical cross candidates of `(cx, cy)`, from row `cy - range` on for `k` rows.
pub open spec fn cross_column(
    w: int,
    h: int,
    wrapping_style: GridWrappingStyle,
    cx: int,
    cy: int,
    range: int,
    k: int,
) -> Seq<int>
    decreases k,
{
    if k <= 0 {
        Seq::empty()
    } else {
        let y = cy - range + k - 1;
        cross_column(w, h, wrapping_style, cx, cy, range, k - 1) + candidate(
            w,
            h,
            wrapping_style,
            cx,
            y,
            y == cy,
        )
    }
}

/// The horizontal cross candidates of `(cx, cy)`, from column `cx - range` on for `k`
/// columns.
pub open spec fn cross_row(
    w: int,
    h: int,
    wrapping_style: GridWrappingStyle,
    cx: int,
    cy: int,
    range: int,
    k: int,
) -> Seq<int>
    decreases k,
{
    if k <= 0 {
        Seq::empty()
    } else {
        let x = cx - range + k - 1;
        cross_row(w, h, wrapping_style, cx, cy, range, k - 1) + candidate(
            w,
            h,
            wrapping_style,
            x,
            cy,
            x == cx,
        )
    }
}

/// The neighbor list of cell `cell_index`, in the order the candidates are visited: row by
/// row over the square for Moore neighbors; down the column, then along the row, for von
/// Neumann neighbors.
pub open spec fn neighbor_list(
    w: int,
    h: int,
    neighbor_type: GridNeighborType,
    wrapping_style: GridWrappingStyle,
    cell_index: int,
) -> Seq<int> {
    let (cx, cy) = (cell_index % w, cell_index / w);
    match neighbor_type {
        GridNeighborType::Moore { range } => moore_rows(
            w,
            h,
            wrapping_style,
            cx,
            cy,
            range as int,
            2 * range + 1,
        ),
        GridNeighborType::VonNeuman { range } => cross_column(
            w,
            h,
            wrapping_style,
            cx,
            cy,
            range as int,
            2 * range + 1,
        ) + cross_row(w, h, wrapping_style, cx, cy, range as int, 2 * range + 1),
    }
}

/// The range of a neighborhood.
pub open spec fn range_of(neighbor_type: GridNeighborType) -> int {
    match neighbor_type {
        GridNeighborType::Moore { range } => range as int,
        GridNeighborType::VonNeuman { range } => range as int,
    }
}

/// The sizes and the range fit the machine, and a wrapping edge is never crossed twice.
pub open spec fn neighborhood_fits(
    w: int,
    h: int,
    neighbor_type: GridNeighborType,
    wrapping_style: GridWrappingStyle,
) -> bool {
    let range = range_of(neighbor_type);
    &&& 1 <= w
    &&& 1 <= h
    &&& w * h <= isize::MAX
    &&& w + range < isize::MAX
    &&& h + range < isize::MAX
    &&& wraps_x(wrapping_style) ==> range <= w
    &&& wraps_y(wrapping_style) ==> range <= h
}

/// Wrapping `v`, within one `size` of the axis, gives a coordinate on the axis.
proof fn lemma_wrap_axis_in(v: int, size: int, wrap: bool)
    requires
        size >= 1,
        wrap ==> -size <= v < 2 * size,
    ensures
        wrap_axis(v, size, wrap) matches Some(a) ==> 0 <= a < size,
{
}

/// The values of a list of cell indexes, as integers.
pub open spec fn ints(s: Seq<usize>) -> Seq<int> {
    s.map_values(|u: usize| u as int)
}

impl CellAutoGrid {
    /// The cell index of `(x, y)` after wrapping the edges that `wrapping_style` wraps, or
    /// `None` when it falls off an edge that does not wrap.
    fn resolve_neighbor(
        width: isize,
        height: isize,
        wrapping_style: &GridWrappingStyle,
        x: isize,
        y: isize,
    ) -> (r: Option<usize>)
        requires
            1 <= width,
            1 <= height,
            width * height <= isize::MAX,
            wraps_x(*wrapping_style) ==> -width <= x < 2 * width,
            wraps_y(*wrapping_style) ==> -height <= y < 2 * height,
        ensures
            r == match resolve(width as int, height as int, *wrapping_style, x as int, y as int) {
                Some(i) => Some(i as usize),
                None => None::<usize>,
            },
            r matches Some(i) ==> i < width * height,
            resolve(width as int, height as int, *wrapping_style, x as int, y as int) matches Some(i) ==> 0 <= i
                < width * height,
    {
        proof {
            lemma_wrap_axis_in(x as int, width as int, wraps_x(*wrapping_style));
            lemma_wrap_axis_in(y as int, height as int, wraps_y(*wrapping_style));
        }
        let x = if x < 0 {
            match wrapping_style {
                GridWrappingStyle::Horizontal | GridWrappingStyle::Toroidal => Some(x + width),
                _ => None,
            }
        } else if x >= width {
            match wrapping_style {
                GridWrappingStyle::Horizontal | GridWrappingStyle::Toroidal => Some(x - width),
                _ => None,
            }
        } else {
            Some(x)
        };
        if x.is_none() {
            return None;
        }
        let y = if y < 0 {
            match wrapping_style {
                GridWrappingStyle::Vertical | GridWrappingStyle::Toroidal => Some(y + height),
                _ => None,
            }
        } else if y >= height {
            match wrapping_style {
                GridWrappingStyle::Vertical | GridWrappingStyle::Toroidal => Some(y - height),
                _ => None,
            }
        } else {
            Some(y)
        };
        match (x, y) {
            (Some(x), Some(y)) => {
                proof {
                    assert(0 <= y * width + x < width * height) by (nonlinear_arith)
                        requires
                            0 <= x < width,
                            0 <= y < height,
                    ;
                    assert(0 <= y * width <= isize::MAX) by (nonlinear_arith)
                        requires
                            0 <= y < height,
                            1 <= width,
                            width * height <= isize::MAX,
                    ;
                }
                Some(x_y_to_cell_index_isize(width, x, y))
            },
            _ => None,
        }
    }

    /// Appends the cell index of candidate `(x, y)` to `v`, unless it is skipped or off the grid.
    fn push_candidate(
        v: &mut Vec<usize>,
        width: isize,
        height: isize,
        wrapping_style: &GridWrappingStyle,
        x: isize,
        y: isize,
        skip: bool,
    )
        requires
            1 <= width,
            1 <= height,
            width * height <= isize::MAX,
            wraps_x(*wrapping_style) ==> -width <= x < 2 * width,
            wraps_y(*wrapping_style) ==> -height <= y < 2 * height,
            forall|k: int| 0 <= k < old(v)@.len() ==> #[trigger] old(v)@[k] < width * height,
        ensures
            ints(final(v)@) == ints(old(v)@) + candidate(
                width as int,
                height as int,
                *wrapping_style,
                x as int,
                y as int,
                skip,
            ),
            forall|k: int| 0 <= k < final(v)@.len() ==> #[trigger] final(v)@[k] < width * height,
    {
        if !skip {
            if let Some(cell_index) = Self::resolve_neighbor(width, height, wrapping_style, x, y) {
                v.push(cell_index);
                proof {
                    assert(ints(v@) =~= ints(old(v)@) + seq![cell_index as int]);
                }
            } else {
                assert(ints(v@) =~= ints(old(v)@) + Seq::<int>::empty());
            }
        } else {
            assert(ints(v@) =~= ints(old(v)@) + Seq::<int>::empty());
        }
    }

    /// The cell indexes of the neighbors of cell `cell_index`, as `neighbor_list` orders them.
    pub fn neighbors(
        width: usize,
        height: usize,
        neighbor_type: &GridNeighborType,
        wrapping_style: &GridWrappingStyle,
        cell_index: usize,
    ) -> (v: Vec<usize>)
        requires
            neighborhood_fits(width as int, height as int, *neighbor_type, *wrapping_style),
            cell_index < width * height,
        ensures
            ints(v@) == neighbor_list(width as int, height as int, *neighbor_type, *wrapping_style, cell_index as int),
            forall|k: int| 0 <= k < v@.len() ==> #[trigger] v@[k] < width * height,
    {
        let ghost (w, h) = (width as int, height as int);
        let ghost ws = *wrapping_style;
        let (width, height) = (width as isize, height as isize);
        let (x, y) = cell_index_to_x_y_isize(width, cell_index);
        proof {
            assert(0 <= x < w && 0 <= y < h) by (nonlinear_arith)
                requires
                    x == (cell_index as int) % w,
                    y == (cell_index as int) / w,
                    0 <= cell_index < w * h,
                    w >= 1,
            ;
        }
        let mut v: Vec<usize> = Vec::new();
        match neighbor_type {
            GridNeighborType::Moore { range } => {
                // Surrounding cells.
                let ghost r = *range as int;
                let range = *range as isize;
                let mut y_candidate = y - range;
                assert(ints(v@) =~= moore_rows(w, h, ws, x as int, y as int, r, 0));
                while y_candidate <= y + range
                    invariant
                        w == width,
                        h == height,
                        ws == *wrapping_style,
                        neighborhood_fits(w, h, *neighbor_type, ws),
                        r == range,
                        r == range_of(*neighbor_type),
                        0 <= x < w,
                        0 <= y < h,
                        y - r <= y_candidate <= y + r + 1,
                        ints(v@) == moore_rows(w, h, ws, x as int, y as int, r, y_candidate - (y - r)),
                        forall|k: int| 0 <= k < v@.len() ==> #[trigger] v@[k] < w * h,
                    decreases y + r + 1 - y_candidate,
                {
                    let ghost j = y_candidate - (y - r);
                    let ghost before = ints(v@);
                    let mut x_candidate = x - range;
                    assert(ints(v@) =~= before + moore_row(w, h, ws, x as int, y as int, r, y_candidate as int, 0));
                    while x_candidate <= x + range
                        invariant
                            w == width,
                            h == height,
                            ws == *wrapping_style,
                            neighborhood_fits(w, h, *neighbor_type, ws),
                            r == range,
                            r == range_of(*neighbor_type),
                            0 <= x < w,
                            0 <= y < h,
                            y - r <= y_candidate <= y + r,
                            x - r <= x_candidate <= x + r + 1,
                            ints(v@) == before + moore_row(
                                w,
                                h,
                                ws,
                                x as int,
                                y as int,
                                r,
                                y_candidate as int,
                                x_candidate - (x - r),
                            ),
                            forall|k: int| 0 <= k < v@.len() ==> #[trigger] v@[k] < w * h,
                        decreases x + r + 1 - x_candidate,
                    {
                        Self::push_candidate(
                            &mut v,
                            width,
                            height,
                            wrapping_style,
                            x_candidate,
                            y_candidate,
                            y_candidate == y && x_candidate == x,
                        );
                        x_candidate += 1;
                    }
                    proof {
                        assert(x_candidate - (x - r) == 2 * r + 1);
                        assert(moore_rows(w, h, ws, x as int, y as int, r, j + 1) == before + moore_row(
                            w,
                            h,
                            ws,
                            x as int,
                            y as int,
                            r,
                            y_candidate as int,
                            2 * r + 1,
                        ));
                    }
                    y_candidate += 1;
                }
            },
            GridNeighborType::VonNeuman { range } => {
                // Cross.
                let ghost r = *range as int;
                let range = *range as isize;
                // Vertical cells.
                let mut y_candidate = y - range;
                assert(ints(v@) =~= cross_column(w, h, ws, x as int, y as int, r, 0));
                while y_candidate <= y + range
                    invariant
                        w == width,
                        h == height,
                        ws == *wrapping_style,
                        neighborhood_fits(w, h, *neighbor_type, ws),
                        r == range,
                        r == range_of(*neighbor_type),
                        0 <= x < w,
                        0 <= y < h,
                        y - r <= y_candidate <= y + r + 1,
                        ints(v@) == cross_column(w, h, ws, x as int, y as int, r, y_candidate - (y - r)),
                        forall|k: int| 0 <= k < v@.len() ==> #[trigger] v@[k] < w * h,
                    decreases y + r + 1 - y_candidate,
                {
                    Self::push_candidate(&mut v, width, height, wrapping_style, x, y_candidate, y_candidate == y);
                    y_candidate += 1;
                }
                let ghost column = ints(v@);
                // Horizontal cells.
                let mut x_candidate = x - range;
                assert(ints(v@) =~= column + cross_row(w, h, ws, x as int, y as int, r, 0));
                while x_candidate <= x + range
                    invariant
                        w == width,
                        h == height,
                        ws == *wrapping_style,
                        neighborhood_fits(w, h, *neighbor_type, ws),
                        r == range,
                        r == range_of(*neighbor_type),
                        0 <= x < w,
                        0 <= y < h,
                        x - r <= x_candidate <= x + r + 1,
                        ints(v@) == column + cross_row(w, h, ws, x as int, y as int, r, x_candidate - (x - r)),
                        forall|k: int| 0 <= k < v@.len() ==> #[trigger] v@[k] < w * h,
                    decreases x + r + 1 - x_candidate,
                {
                    Self::push_candidate(&mut v, width, height, wrapping_style, x_candidate, y, x_candidate == x);
                    proof {
                        let k = x_candidate - (x - r);
                        assert(cross_row(w, h, ws, x as int, y as int, r, k + 1) == cross_row(
                            w,
                            h,
                            ws,
                            x as int,
                            y as int,
                            r,
                            k,
                        ) + candidate(w, h, ws, x_candidate as int, y as int, x_candidate == x));
                        assert(ints(v@) =~= column + cross_row(w, h, ws, x as int, y as int, r, k + 1));
                    }
                    x_candidate += 1;
                }
            },
        }
        v
    }
}

/// How often `v` occurs in `s`.
pub open spec fn count_in(s: Seq<int>, v: int) -> int
    decreases s.len(),
{
    if s.len() == 0 {
        0
    } else {
        count_in(s.drop_last(), v) + if s.last() == v {
            1int
        } else {
            0
        }
    }
}

/// How often cell `i` occurs in the neighbor lists of the open cells among the first `k`.
pub open spec fn open_sum(opens: Seq<bool>, lists: Seq<Seq<int>>, i: int, k: int) -> int
    decreases k,
{
    if k <= 0 {
        0
    } else {
        open_sum(opens, lists, i, k - 1) + if opens[k - 1] {
            count_in(lists[k - 1], i)
        } else {
            0
        }
    }
}

/// The longest neighbor list a neighborhood can give.
pub open spec fn max_neighbors(neighbor_type: GridNeighborType) -> int {
    match neighbor_type {
        GridNeighborType::Moore { range } => (2 * range + 1) * (2 * range + 1),
        GridNeighborType::VonNeuman { range } => 2 * (2 * range + 1),
    }
}

pub proof fn lemma_count_in_bounds(s: Seq<int>, v: int)
    ensures
        0 <= count_in(s, v) <= s.len(),
    decreases s.len(),
{
    if s.len() > 0 {
        lemma_count_in_bounds(s.drop_last(), v);
    }
}

/// Counting over one more element of a list.
pub proof fn lemma_count_in_take(s: Seq<int>, v: int, k: int)
    requires
        0 <= k < s.len(),
    ensures
        count_in(s.take(k + 1), v) == count_in(s.take(k), v) + if s[k] == v {
            1int
        } else {
            0
        },
{
    assert(s.take(k + 1).drop_last() =~= s.take(k));
}

/// Each list adds at most its length, so the sum over `k` lists of length at most `m` is at
/// most `k * m`.
pub proof fn lemma_open_sum_bounds(opens: Seq<bool>, lists: Seq<Seq<int>>, i: int, k: int, m: int)
    requires
        0 <= k <= lists.len(),
        0 <= m,
        forall|j: int| 0 <= j < k ==> #[trigger] lists[j].len() <= m,
    ensures
        0 <= open_sum(opens, lists, i, k) <= k * m,
    decreases k,
{
    if k > 0 {
        lemma_open_sum_bounds(opens, lists, i, k - 1, m);
        lemma_count_in_bounds(lists[k - 1], i);
        assert((k - 1) * m + m == k * m) by (nonlinear_arith);
    }
}

/// Opening or closing cell `c` adds or removes its list once.
pub proof fn lemma_open_sum_flip(opens: Seq<bool>, lists: Seq<Seq<int>>, i: int, k: int, c: int, b: bool)
    requires
        0 <= c < opens.len(),
        0 <= k <= opens.len(),
        opens[c] != b,
    ensures
        open_sum(opens.update(c, b), lists, i, k) == open_sum(opens, lists, i, k) + if c < k {
            if b {
                count_in(lists[c], i)
            } else {
                -count_in(lists[c], i)
            }
        } else {
            0
        },
    decreases k,
{
    if k > 0 {
        lemma_open_sum_flip(opens, lists, i, k - 1, c, b);
    }
}

/// One cell of an automaton: whether it is open, its neighbors, and how many of them are open.
pub struct CellAutoCell {
    pub open: bool,
    pub neighbors: Vec<usize>,
    pub neighbor_open_count: usize,
}

impl CellAutoCell {
    /// A closed cell with the given neighbors, none of them counted open.
    pub fn new(neighbors: Vec<usize>) -> (cell: Self)
        ensures
            !cell.open,
            cell.neighbors@ == neighbors@,
            cell.neighbor_open_count == 0,
    {
        Self { open: false, neighbors, neighbor_open_count: 0 }
    }
}

proof fn lemma_moore_row_len(
    w: int,
    h: int,
    ws: GridWrappingStyle,
    cx: int,
    cy: int,
    range: int,
    y: int,
    k: int,
)
    requires
        0 <= k,
    ensures
        moore_row(w, h, ws, cx, cy, range, y, k).len() <= k,
    decreases k,
{
    if k > 0 {
        lemma_moore_row_len(w, h, ws, cx, cy, range, y, k - 1);
    }
}

proof fn lemma_moore_rows_len(w: int, h: int, ws: GridWrappingStyle, cx: int, cy: int, range: int, j: int)
    requires
        0 <= j,
        0 <= range,
    ensures
        moore_rows(w, h, ws, cx, cy, range, j).len() <= j * (2 * range + 1),
    decreases j,
{
    if j > 0 {
        lemma_moore_rows_len(w, h, ws, cx, cy, range, j - 1);
        lemma_moore_row_len(w, h, ws, cx, cy, range, cy - range + j - 1, 2 * range + 1);
        assert((j - 1) * (2 * range + 1) + (2 * range + 1) == j * (2 * range + 1)) by (nonlinear_arith);
    }
}

proof fn lemma_cross_len(w: int, h: int, ws: GridWrappingStyle, cx: int, cy: int, range: int, k: int)
    requires
        0 <= k,
    ensures
        cross_column(w, h, ws, cx, cy, range, k).len() <= k,
        cross_row(w, h, ws, cx, cy, range, k).len() <= k,
    decreases k,
{
    if k > 0 {
        lemma_cross_len(w, h, ws, cx, cy, range, k - 1);
    }
}

/// No neighbor list is longer than `max_neighbors`.
pub proof fn lemma_neighbor_list_len(
    w: int,
    h: int,
    neighbor_type: GridNeighborType,
    ws: GridWrappingStyle,
    cell_index: int,
)
    ensures
        neighbor_list(w, h, neighbor_type, ws, cell_index).len() <= max_neighbors(neighbor_type),
{
    let (cx, cy) = (cell_index % w, cell_index / w);
    match neighbor_type {
        GridNeighborType::Moore { range } => {
            lemma_moore_rows_len(w, h, ws, cx, cy, range as int, 2 * range + 1);
        },
        GridNeighborType::VonNeuman { range } => {
            lemma_cross_len(w, h, ws, cx, cy, range as int, 2 * range + 1);
        },
    }
}

/// A grid of cells that open and close by the rule of `algorithm`.
pub struct CellAutoGrid {
    pub width: usize,
    pub height: usize,
    pub algorithm: CellAutoAlgorithm,
    pub neighbor_type: GridNeighborType,
    pub wrapping_style: GridWrappingStyle,
    pub cells: Vec<CellAutoCell>,
}

impl CellAutoGrid {
    pub open spec fn cell_count(&self) -> int {
        self.width * self.height
    }

    /// Which cells are open.
    pub open spec fn opens(&self) -> Seq<bool> {
        self.cells@.map_values(|c: CellAutoCell| c.open)
    }

    /// The neighbor lists.
    pub open spec fn lists(&self) -> Seq<Seq<int>> {
        self.cells@.map_values(|c: CellAutoCell| ints(c.neighbors@))
    }

    /// The number of open neighbors of cell `i`, a neighbor counted as often as it is listed.
    pub open spec fn open_neighbors(&self, i: int) -> int {
        open_sum(self.opens(), self.lists(), i, self.cell_count())
    }

    /// Each cell lists its neighbors, and counts how many of them are open.
    pub open spec fn wf(&self) -> bool {
        &&& neighborhood_fits(self.width as int, self.height as int, self.neighbor_type, self.wrapping_style)
        &&& self.cell_count() * max_neighbors(self.neighbor_type) <= usize::MAX
        &&& self.cells@.len() == self.cell_count()
        &&& forall|i: int|
            0 <= i < self.cell_count() ==> #[trigger] ints(self.cells@[i].neighbors@) == neighbor_list(
                self.width as int,
                self.height as int,
                self.neighbor_type,
                self.wrapping_style,
                i,
            )
        &&& forall|i: int, k: int|
            0 <= i < self.cell_count() && 0 <= k < self.cells@[i].neighbors@.len() ==> #[trigger] self.cells@[i].neighbors@[k]
                < self.cell_count()
        &&& forall|i: int|
            0 <= i < self.cell_count() ==> #[trigger] self.cells@[i].neighbor_open_count == self.open_neighbors(i)
    }

    /// Width, height, rule and neighborhood stay.
    pub open spec fn same_frame(&self, other: &Self) -> bool {
        &&& self.width == other.width
        &&& self.height == other.height
        &&& self.algorithm == other.algorithm
        &&& self.neighbor_type == other.neighbor_type
        &&& self.wrapping_style == other.wrapping_style
    }

    /// A grid of closed cells, each listing its neighbors.
    pub fn new(
        width: usize,
        height: usize,
        algorithm: CellAutoAlgorithm,
        neighbor_type: GridNeighborType,
        wrapping_style: GridWrappingStyle,
    ) -> (grid: Self)
        requires
            neighborhood_fits(width as int, height as int, neighbor_type, wrapping_style),
            width * height * max_neighbors(neighbor_type) <= usize::MAX,
        ensures
            grid.wf(),
            grid.width == width,
            grid.height == height,
            grid.algorithm == algorithm,
            grid.neighbor_type == neighbor_type,
            grid.wrapping_style == wrapping_style,
            forall|i: int| 0 <= i < grid.cell_count() ==> !#[trigger] grid.opens()[i],
    {
        let cell_count = width * height;
        let mut cells: Vec<CellAutoCell> = Vec::with_capacity(cell_count);
        for cell_index in 0..cell_count
            invariant
                cell_count == width * height,
                neighborhood_fits(width as int, height as int, neighbor_type, wrapping_style),
                cells@.len() == cell_index,
                forall|i: int|
                    0 <= i < cell_index ==> #[trigger] ints(cells@[i].neighbors@) == neighbor_list(
                        width as int,
                        height as int,
                        neighbor_type,
                        wrapping_style,
                        i,
                    ),
                forall|i: int, k: int|
                    0 <= i < cell_index && 0 <= k < cells@[i].neighbors@.len() ==> #[trigger] cells@[i].neighbors@[k]
                        < cell_count,
                forall|i: int| 0 <= i < cell_index ==> !#[trigger] cells@[i].open,
                forall|i: int| 0 <= i < cell_index ==> #[trigger] cells@[i].neighbor_open_count == 0,
        {
            let neighbors = Self::neighbors(width, height, &neighbor_type, &wrapping_style, cell_index);
            cells.push(CellAutoCell::new(neighbors));
        }
        let grid = Self { width, height, algorithm, neighbor_type, wrapping_style, cells };
        proof {
            assert forall|i: int| 0 <= i < grid.cell_count() implies #[trigger] grid.cells@[i].neighbor_open_count
                == grid.open_neighbors(i) by {
                lemma_open_sum_closed(grid.opens(), grid.lists(), i, grid.cell_count());
            }
        }
        grid
    }
}

/// A prefix of a list holds no more copies of `v` than the list.
pub proof fn lemma_count_in_prefix(s: Seq<int>, v: int, k: int)
    requires
        0 <= k <= s.len(),
    ensures
        count_in(s.take(k), v) <= count_in(s, v),
    decreases s.len() - k,
{
    if k < s.len() {
        lemma_count_in_take(s, v, k);
        lemma_count_in_prefix(s, v, k + 1);
    } else {
        assert(s.take(k) =~= s);
    }
}

impl CellAutoGrid {
    /// Every list is at most `max_neighbors` long, so no count exceeds the cell count times
    /// that.
    proof fn lemma_sum_fits(&self, opens: Seq<bool>, i: int)
        requires
            self.wf(),
            opens.len() == self.cell_count(),
        ensures
            0 <= open_sum(opens, self.lists(), i, self.cell_count()) <= usize::MAX,
    {
        let n = self.cell_count();
        let m = max_neighbors(self.neighbor_type);
        assert forall|j: int| 0 <= j < n implies #[trigger] self.lists()[j].len() <= m by {
            lemma_neighbor_list_len(
                self.width as int,
                self.height as int,
                self.neighbor_type,
                self.wrapping_style,
                j,
            );
        }
        assert(m >= 0) by (nonlinear_arith)
            requires
                m == max_neighbors(self.neighbor_type),
        ;
        lemma_open_sum_bounds(opens, self.lists(), i, n, m);
    }

    /// Opens cell `cell_index`, counting it at each of its neighbors, when it is closed.
    pub fn open(&mut self, cell_index: usize)
        requires
            old(self).wf(),
            cell_index < old(self).cell_count(),
        ensures
            final(self).wf(),
            final(self).same_frame(old(self)),
            final(self).opens() == old(self).opens().update(cell_index as int, true),
            final(self).lists() == old(self).lists(),
    {
        if !self.cells[cell_index].open {
            let ghost n = self.cell_count();
            let ghost c = cell_index as int;
            let ghost start = *self;
            let ghost list = self.lists()[c];
            self.cells[cell_index].open = true;
            let ghost opened = start.opens().update(c, true);
            proof {
                assert(self.opens() =~= opened);
                assert(self.lists() =~= start.lists());
                assert forall|i: int| 0 <= i < n implies #[trigger] open_sum(opened, start.lists(), i, n)
                    == start.open_neighbors(i) + count_in(list, i) by {
                    lemma_open_sum_flip(start.opens(), start.lists(), i, n, c, true);
                }
            }
            let len = self.cells[cell_index].neighbors.len();
            for k in 0..len
                invariant
                    start.wf(),
                    self.same_frame(&start),
                    n == start.cell_count(),
                    0 <= c < n,
                    len == list.len(),
                    list == start.lists()[c],
                    self.cells@.len() == n,
                    self.opens() == opened,
                    self.lists() == start.lists(),
                    c == cell_index,
                    forall|j: int| 0 <= j < n ==> #[trigger] self.cells@[j].neighbors@ == start.cells@[j].neighbors@,
                    forall|i: int|
                        0 <= i < n ==> #[trigger] open_sum(opened, start.lists(), i, n) == start.open_neighbors(i)
                            + count_in(list, i),
                    forall|i: int|
                        0 <= i < n ==> #[trigger] self.cells@[i].neighbor_open_count == start.open_neighbors(i)
                            + count_in(list.take(k as int), i),
            {
                let neighbor_index = self.cells[cell_index].neighbors[k];
                proof {
                    let nb = neighbor_index as int;
                    assert(list[k as int] == nb);
                    assert(0 <= nb < n);
                    lemma_count_in_take(list, nb, k as int);
                    lemma_count_in_prefix(list, nb, k + 1);
                    start.lemma_sum_fits(opened, nb);
                }
                let ghost before = *self;
                self.cells[neighbor_index].neighbor_open_count += 1;
                proof {
                    assert(self.opens() =~= opened) by {
                        assert forall|j: int| 0 <= j < n implies #[trigger] self.cells@[j].open == before.cells@[j].open by {}
                    }
                    assert(self.lists() =~= start.lists()) by {
                        assert forall|j: int| 0 <= j < n implies #[trigger] self.cells@[j].neighbors@ == before.cells@[j].neighbors@ by {}
                    }
                    assert forall|i: int| 0 <= i < n implies #[trigger] self.cells@[i].neighbor_open_count
                        == start.open_neighbors(i) + count_in(list.take(k + 1), i) by {
                        lemma_count_in_take(list, i, k as int);
                    }
                }
            }
            proof {
                assert(list.take(len as int) =~= list);
            }
        } else {
            proof {
                assert(self.opens().update(cell_index as int, true) =~= self.opens());
            }
        }
    }

    /// Closes cell `cell_index`, uncounting it at each of its neighbors, when it is open.
    pub fn close(&mut self, cell_index: usize)
        requires
            old(self).wf(),
            cell_index < old(self).cell_count(),
        ensures
            final(self).wf(),
            final(self).same_frame(old(self)),
            final(self).opens() == old(self).opens().update(cell_index as int, false),
            final(self).lists() == old(self).lists(),
    {
        if self.cells[cell_index].open {
            let ghost n = self.cell_count();
            let ghost c = cell_index as int;
            let ghost start = *self;
            let ghost list = self.lists()[c];
            self.cells[cell_index].open = false;
            let ghost closed = start.opens().update(c, false);
            proof {
                assert(self.opens() =~= closed);
                assert(self.lists() =~= start.lists());
                assert forall|i: int| 0 <= i < n implies #[trigger] open_sum(closed, start.lists(), i, n)
                    == start.open_neighbors(i) - count_in(list, i) by {
                    lemma_open_sum_flip(start.opens(), start.lists(), i, n, c, false);
                }
            }
            let len = self.cells[cell_index].neighbors.len();
            for k in 0..len
                invariant
                    start.wf(),
                    self.same_frame(&start),
                    n == start.cell_count(),
                    0 <= c < n,
                    len == list.len(),
                    list == start.lists()[c],
                    self.cells@.len() == n,
                    self.opens() == closed,
                    self.lists() == start.lists(),
                    c == cell_index,
                    forall|j: int| 0 <= j < n ==> #[trigger] self.cells@[j].neighbors@ == start.cells@[j].neighbors@,
                    forall|i: int|
                        0 <= i < n ==> #[trigger] open_sum(closed, start.lists(), i, n) == start.open_neighbors(i)
                            - count_in(list, i),
                    forall|i: int|
                        0 <= i < n ==> #[trigger] self.cells@[i].neighbor_open_count == start.open_neighbors(i)
                            - count_in(list.take(k as int), i),
            {
                let neighbor_index = self.cells[cell_index].neighbors[k];
                proof {
                    let nb = neighbor_index as int;
                    assert(list[k as int] == nb);
                    assert(0 <= nb < n);
                    lemma_count_in_take(list, nb, k as int);
                    lemma_count_in_prefix(list, nb, k + 1);
                    start.lemma_sum_fits(closed, nb);
                }
                let ghost before = *self;
                self.cells[neighbor_index].neighbor_open_count -= 1;
                proof {
                    assert(self.opens() =~= closed) by {
                        assert forall|j: int| 0 <= j < n implies #[trigger] self.cells@[j].open == before.cells@[j].open by {}
                    }
                    assert(self.lists() =~= start.lists()) by {
                        assert forall|j: int| 0 <= j < n implies #[trigger] self.cells@[j].neighbors@ == before.cells@[j].neighbors@ by {}
                    }
                    assert forall|i: int| 0 <= i < n implies #[trigger] self.cells@[i].neighbor_open_count
                        == start.open_neighbors(i) - count_in(list.take(k + 1), i) by {
                        lemma_count_in_take(list, i, k as int);
                    }
                }
            }
            proof {
                assert(list.take(len as int) =~= list);
            }
        } else {
            proof {
                assert(self.opens().update(cell_index as int, false) =~= self.opens());
            }
        }
    }
}

/// Whether a cell is open after a step, from whether it was open and how many of its
/// neighbors were.
pub open spec fn next_open(algorithm: CellAutoAlgorithm, open: bool, neighbor_count: int) -> bool {
    if open {
        !algorithm.closes(neighbor_count)
    } else {
        algorithm.opens(neighbor_count)
    }
}

impl CellAutoGrid {
    /// Opens and closes every cell by the rule, all of them judged by the counts before the
    /// step.
    pub fn step(&mut self)
        requires
            old(self).wf(),
        ensures
            final(self).wf(),
            final(self).same_frame(old(self)),
            final(self).lists() == old(self).lists(),
            forall|i: int|
                0 <= i < old(self).cell_count() ==> #[trigger] final(self).opens()[i] == next_open(
                    old(self).algorithm,
                    old(self).opens()[i],
                    old(self).cells@[i].neighbor_open_count as int,
                ),
    {
        let ghost start = *self;
        let ghost n = self.cell_count();
        let cell_count = self.cells.len();
        let mut old_open: Vec<bool> = Vec::with_capacity(cell_count);
        let mut old_neighbor_open_count: Vec<usize> = Vec::with_capacity(cell_count);
        for cell_index in 0..cell_count
            invariant
                *self == start,
                start.wf(),
                cell_count == n,
                self.cells@.len() == n,
                old_open@.len() == cell_index,
                old_neighbor_open_count@.len() == cell_index,
                forall|j: int| 0 <= j < cell_index ==> #[trigger] old_open@[j] == start.opens()[j],
                forall|j: int|
                    0 <= j < cell_index ==> #[trigger] old_neighbor_open_count@[j]
                        == start.cells@[j].neighbor_open_count,
        {
            old_open.push(self.cells[cell_index].open);
            old_neighbor_open_count.push(self.cells[cell_index].neighbor_open_count);
        }
        for cell_index in 0..cell_count
            invariant
                self.wf(),
                self.same_frame(&start),
                self.lists() == start.lists(),
                start.wf(),
                cell_count == n,
                n == start.cell_count(),
                old_open@.len() == n,
                old_neighbor_open_count@.len() == n,
                forall|j: int| 0 <= j < n ==> #[trigger] old_open@[j] == start.opens()[j],
                forall|j: int|
                    0 <= j < n ==> #[trigger] old_neighbor_open_count@[j] == start.cells@[j].neighbor_open_count,
                forall|j: int|
                    0 <= j < cell_index ==> #[trigger] self.opens()[j] == next_open(
                        start.algorithm,
                        start.opens()[j],
                        start.cells@[j].neighbor_open_count as int,
                    ),
                forall|j: int| cell_index <= j < n ==> #[trigger] self.opens()[j] == start.opens()[j],
        {
            let open = old_open[cell_index];
            let open_neighbor_count = old_neighbor_open_count[cell_index];
            if open {
                if self.algorithm.should_close(open_neighbor_count) {
                    self.close(cell_index);
                }
            } else {
                if self.algorithm.should_open(open_neighbor_count) {
                    self.open(cell_index);
                }
            }
        }
    }
}

/// With every cell closed the sum is zero.
proof fn lemma_open_sum_closed(opens: Seq<bool>, lists: Seq<Seq<int>>, i: int, k: int)
    requires
        0 <= k <= opens.len(),
        forall|j: int| 0 <= j < k ==> !#[trigger] opens[j],
    ensures
        open_sum(opens, lists, i, k) == 0,
    decreases k,
{
    if k > 0 {
        lemma_open_sum_closed(opens, lists, i, k - 1);
    }
}

impl CellAutoGrid {
    /// The grid of the cells' states: `CELL_OPEN` for an open cell, `CELL_CLOSED` for a closed
    /// one, row by row.
    pub fn state_grid(&self) -> (grid: Grid<usize>)
        requires
            self.wf(),
        ensures
            grid.wf(),
            grid.width == self.width,
            grid.height == self.height,
            grid.default_value == CELL_CLOSED,
            forall|x: int, y: int|
                0 <= x < self.width && 0 <= y < self.height ==> #[trigger] grid.cell(x, y) == if self.opens()[y
                    * self.width + x] {
                    CELL_OPEN
                } else {
                    CELL_CLOSED
                },
    {
        let mut grid = Grid::new(self.width, self.height, CELL_CLOSED);
        grid.record_events = false;
        for y in 0..self.height
            invariant
                self.wf(),
                grid.wf(),
                grid.width == self.width,
                grid.height == self.height,
                grid.default_value == CELL_CLOSED,
                !grid.record_events,
                forall|x: int, r: int|
                    0 <= x < self.width && 0 <= r < y ==> #[trigger] grid.cell(x, r) == if self.opens()[r * self.width
                        + x] {
                        CELL_OPEN
                    } else {
                        CELL_CLOSED
                    },
        {
            for x in 0..self.width
                invariant
                    self.wf(),
                    y < self.height,
                    grid.wf(),
                    grid.width == self.width,
                    grid.height == self.height,
                    grid.default_value == CELL_CLOSED,
                    !grid.record_events,
                    forall|c: int, r: int|
                        0 <= c < self.width && 0 <= r < self.height && (r < y || (r == y && c < x)) ==> #[trigger] grid.cell(
                            c,
                            r,
                        ) == if self.opens()[r * self.width + c] {
                            CELL_OPEN
                        } else {
                            CELL_CLOSED
                        },
            {
                proof {
                    assert(y * self.width + x < self.width * self.height) by (nonlinear_arith)
                        requires
                            y < self.height,
                            x < self.width,
                    ;
                }
                let index = y * self.width + x;
                let value = if self.cells[index].open {
                    CELL_OPEN
                } else {
                    CELL_CLOSED
                };
                grid.set_xy(x, y, value);
            }
        }
        grid
    }
}

/// The cell `(x, y)` lies in the neighborhood of `(cx, cy)`: within the range on both axes and
/// not the cell itself, and for von Neumann neighbors on its row or its column.
pub open spec fn in_neighborhood(neighbor_type: GridNeighborType, cx: int, cy: int, x: int, y: int) -> bool {
    let r = range_of(neighbor_type);
    match neighbor_type {
        GridNeighborType::Moore { .. } => cx - r <= x <= cx + r && cy - r <= y <= cy + r && !(x == cx && y == cy),
        GridNeighborType::VonNeuman { .. } => (x == cx && cy - r <= y <= cy + r && y != cy) || (y == cy && cx - r
            <= x <= cx + r && x != cx),
    }
}

proof fn lemma_concat_contains(a: Seq<int>, b: Seq<int>, v: int)
    ensures
        (a + b).contains(v) <==> a.contains(v) || b.contains(v),
{
    if (a + b).contains(v) {
        let i = choose|i: int| 0 <= i < (a + b).len() && (a + b)[i] == v;
        if i < a.len() {
            assert(a[i] == v);
        } else {
            assert(b[i - a.len()] == v);
        }
    }
    if a.contains(v) {
        let i = choose|i: int| 0 <= i < a.len() && a[i] == v;
        assert((a + b)[i] == v);
    }
    if b.contains(v) {
        let i = choose|i: int| 0 <= i < b.len() && b[i] == v;
        assert((a + b)[i + a.len()] == v);
    }
}

proof fn lemma_candidate_contains(w: int, h: int, ws: GridWrappingStyle, x: int, y: int, skip: bool, v: int)
    ensures
        candidate(w, h, ws, x, y, skip).contains(v) <==> !skip && resolve(w, h, ws, x, y) == Some(v),
{
    if !skip {
        if let Some(i) = resolve(w, h, ws, x, y) {
            assert(seq![i][0] == i);
        }
    }
}

proof fn lemma_moore_row_contains(
    w: int,
    h: int,
    ws: GridWrappingStyle,
    cx: int,
    cy: int,
    range: int,
    y: int,
    k: int,
    v: int,
)
    requires
        k >= 0,
    ensures
        moore_row(w, h, ws, cx, cy, range, y, k).contains(v) <==> exists|x: int|
            cx - range <= x < cx - range + k && !(x == cx && y == cy) && #[trigger] resolve(w, h, ws, x, y) == Some(v),
    decreases k,
{
    if k > 0 {
        lemma_moore_row_contains(w, h, ws, cx, cy, range, y, k - 1, v);
        let x = cx - range + k - 1;
        lemma_concat_contains(
            moore_row(w, h, ws, cx, cy, range, y, k - 1),
            candidate(w, h, ws, x, y, x == cx && y == cy),
            v,
        );
        lemma_candidate_contains(w, h, ws, x, y, x == cx && y == cy, v);
    }
}

proof fn lemma_moore_rows_contains(
    w: int,
    h: int,
    ws: GridWrappingStyle,
    cx: int,
    cy: int,
    range: int,
    j: int,
    v: int,
)
    requires
        j >= 0,
        range >= 0,
    ensures
        moore_rows(w, h, ws, cx, cy, range, j).contains(v) <==> exists|x: int, y: int|
            cx - range <= x <= cx + range && cy - range <= y < cy - range + j && !(x == cx && y == cy)
                && #[trigger] resolve(w, h, ws, x, y) == Some(v),
    decreases j,
{
    if j > 0 {
        lemma_moore_rows_contains(w, h, ws, cx, cy, range, j - 1, v);
        let y = cy - range + j - 1;
        lemma_concat_contains(
            moore_rows(w, h, ws, cx, cy, range, j - 1),
            moore_row(w, h, ws, cx, cy, range, y, 2 * range + 1),
            v,
        );
        lemma_moore_row_contains(w, h, ws, cx, cy, range, y, 2 * range + 1, v);
    }
}

proof fn lemma_cross_column_contains(
    w: int,
    h: int,
    ws: GridWrappingStyle,
    cx: int,
    cy: int,
    range: int,
    k: int,
    v: int,
)
    requires
        k >= 0,
    ensures
        cross_column(w, h, ws, cx, cy, range, k).contains(v) <==> exists|y: int|
            cy - range <= y < cy - range + k && y != cy && #[trigger] resolve(w, h, ws, cx, y) == Some(v),
    decreases k,
{
    if k > 0 {
        lemma_cross_column_contains(w, h, ws, cx, cy, range, k - 1, v);
        let y = cy - range + k - 1;
        lemma_concat_contains(
            cross_column(w, h, ws, cx, cy, range, k - 1),
            candidate(w, h, ws, cx, y, y == cy),
            v,
        );
        lemma_candidate_contains(w, h, ws, cx, y, y == cy, v);
    }
}

proof fn lemma_cross_row_contains(
    w: int,
    h: int,
    ws: GridWrappingStyle,
    cx: int,
    cy: int,
    range: int,
    k: int,
    v: int,
)
    requires
        k >= 0,
    ensures
        cross_row(w, h, ws, cx, cy, range, k).contains(v) <==> exists|x: int|
            cx - range <= x < cx - range + k && x != cx && #[trigger] resolve(w, h, ws, x, cy) == Some(v),
    decreases k,
{
    if k > 0 {
        lemma_cross_row_contains(w, h, ws, cx, cy, range, k - 1, v);
        let x = cx - range + k - 1;
        lemma_concat_contains(
            cross_row(w, h, ws, cx, cy, range, k - 1),
            candidate(w, h, ws, x, cy, x == cx),
            v,
        );
        lemma_candidate_contains(w, h, ws, x, cy, x == cx, v);
    }
}

/// Cell `v` is in the neighbor list of `i` exactly when some cell of the neighborhood of `i`
/// lands on `v`.
pub proof fn lemma_neighbor_list_contains(
    w: int,
    h: int,
    neighbor_type: GridNeighborType,
    ws: GridWrappingStyle,
    i: int,
    v: int,
)
    ensures
        neighbor_list(w, h, neighbor_type, ws, i).contains(v) <==> exists|x: int, y: int|
            in_neighborhood(neighbor_type, i % w, i / w, x, y) && #[trigger] resolve(w, h, ws, x, y) == Some(v),
{
    let (cx, cy) = (i % w, i / w);
    let r = range_of(neighbor_type);
    match neighbor_type {
        GridNeighborType::Moore { range } => {
            lemma_moore_rows_contains(w, h, ws, cx, cy, r, 2 * r + 1, v);
        },
        GridNeighborType::VonNeuman { range } => {
            lemma_concat_contains(
                cross_column(w, h, ws, cx, cy, r, 2 * r + 1),
                cross_row(w, h, ws, cx, cy, r, 2 * r + 1),
                v,
            );
            lemma_cross_column_contains(w, h, ws, cx, cy, r, 2 * r + 1, v);
            lemma_cross_row_contains(w, h, ws, cx, cy, r, 2 * r + 1, v);
            if neighbor_list(w, h, neighbor_type, ws, i).contains(v) {
                if cross_column(w, h, ws, cx, cy, r, 2 * r + 1).contains(v) {
                    let y = choose|y: int|
                        cy - r <= y < cy - r + 2 * r + 1 && y != cy && #[trigger] resolve(w, h, ws, cx, y) == Some(v);
                    assert(in_neighborhood(neighbor_type, cx, cy, cx, y));
                } else {
                    let x = choose|x: int|
                        cx - r <= x < cx - r + 2 * r + 1 && x != cx && #[trigger] resolve(w, h, ws, x, cy) == Some(v);
                    assert(in_neighborhood(neighbor_type, cx, cy, x, cy));
                }
            }
            if exists|x: int, y: int|
                in_neighborhood(neighbor_type, cx, cy, x, y) && #[trigger] resolve(w, h, ws, x, y) == Some(v) {
                let (x, y) = choose|x: int, y: int|
                    in_neighborhood(neighbor_type, cx, cy, x, y) && #[trigger] resolve(w, h, ws, x, y) == Some(v);
                if x == cx && y != cy {
                    assert(cross_column(w, h, ws, cx, cy, r, 2 * r + 1).contains(v));
                } else {
                    assert(cross_row(w, h, ws, cx, cy, r, 2 * r + 1).contains(v));
                }
            }
        },
    }
}

/// Stepping back from where `v` wrapped to by the same offset returns to `c`.
proof fn lemma_wrap_back(c: int, v: int, size: int, wrap: bool, a: int)
    requires
        0 <= c < size,
        wrap_axis(v, size, wrap) == Some(a),
        wrap ==> -size <= v - c <= size,
    ensures
        wrap_axis(a - (v - c), size, wrap) == Some(c),
{
}

/// If `j` is a neighbor of `i`, then `i` is a neighbor of `j`.
proof fn lemma_neighbor_back(
    w: int,
    h: int,
    neighbor_type: GridNeighborType,
    ws: GridWrappingStyle,
    i: int,
    j: int,
)
    requires
        neighborhood_fits(w, h, neighbor_type, ws),
        0 <= i < w * h,
        0 <= j < w * h,
        neighbor_list(w, h, neighbor_type, ws, i).contains(j),
    ensures
        neighbor_list(w, h, neighbor_type, ws, j).contains(i),
{
    let r = range_of(neighbor_type);
    lemma_neighbor_list_contains(w, h, neighbor_type, ws, i, j);
    lemma_neighbor_list_contains(w, h, neighbor_type, ws, j, i);
    lemma_node_decode(w, h, i);
    let (cx, cy) = (i % w, i / w);
    let (x, y) = choose|x: int, y: int|
        in_neighborhood(neighbor_type, cx, cy, x, y) && #[trigger] resolve(w, h, ws, x, y) == Some(j);
    let a = wrap_axis(x, w, wraps_x(ws))->0;
    let b = wrap_axis(y, h, wraps_y(ws))->0;
    lemma_wrap_axis_in(x, w, wraps_x(ws));
    lemma_wrap_axis_in(y, h, wraps_y(ws));
    assert(j == b * w + a);
    lemma_node_coords(w, h, a, b);
    lemma_wrap_back(cx, x, w, wraps_x(ws), a);
    lemma_wrap_back(cy, y, h, wraps_y(ws), b);
    let (x2, y2) = (a - (x - cx), b - (y - cy));
    assert(resolve(w, h, ws, x2, y2) == Some(i));
    assert(in_neighborhood(neighbor_type, j % w, j / w, x2, y2));
}

/// The neighbor relation is symmetric: `j` is in the neighbor list of `i` exactly when `i` is in
/// the neighbor list of `j`, for either neighborhood and any wrapping.
pub proof fn law_neighbors_symmetric(
    w: int,
    h: int,
    neighbor_type: GridNeighborType,
    ws: GridWrappingStyle,
    i: int,
    j: int,
)
    requires
        neighborhood_fits(w, h, neighbor_type, ws),
        0 <= i < w * h,
        0 <= j < w * h,
    ensures
        neighbor_list(w, h, neighbor_type, ws, i).contains(j) == neighbor_list(w, h, neighbor_type, ws, j).contains(i),
{
    if neighbor_list(w, h, neighbor_type, ws, i).contains(j) {
        lemma_neighbor_back(w, h, neighbor_type, ws, i, j);
    }
    if neighbor_list(w, h, neighbor_type, ws, j).contains(i) {
        lemma_neighbor_back(w, h, neighbor_type, ws, j, i);
    }
}

/// The rules of a step, for a cell with `count` open neighbors: under Game of Life, B3S1234 and
/// B3S12345 a closed cell opens exactly when three neighbors are open; an open cell closes under
/// Game of Life with fewer than two or more than three, under B3S1234 with none or more than
/// four, under B3S12345 with none or more than five; under the original rule a closed cell opens
/// with more than four and an open cell closes with fewer than three.
pub proof fn law_step_rules(algorithm: CellAutoAlgorithm, open: bool, count: int)
    requires
        count >= 0,
    ensures
        algorithm.opens(count) == match algorithm {
            CellAutoAlgorithm::Original => count > 4,
            _ => count == 3,
        },
        algorithm.closes(count) == match algorithm {
            CellAutoAlgorithm::Original => count < 3,
            CellAutoAlgorithm::GameOfLife => count < 2 || count > 3,
            CellAutoAlgorithm::B3S1234 => count == 0 || count > 4,
            CellAutoAlgorithm::B3S12345 => count == 0 || count > 5,
        },
        next_open(algorithm, open, count) == if open {
            match algorithm {
                CellAutoAlgorithm::Original => count >= 3,
                CellAutoAlgorithm::GameOfLife => 2 <= count <= 3,
                CellAutoAlgorithm::B3S1234 => 1 <= count <= 4,
                CellAutoAlgorithm::B3S12345 => 1 <= count <= 5,
            }
        } else {
            match algorithm {
                CellAutoAlgorithm::Original => count > 4,
                _ => count == 3,
            }
        },
{
}

} // verus!
