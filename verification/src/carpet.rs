//! Square carpets: squares drawn side by side counter-clockwise, each side ending in a smaller
//! square, with every cell counting how many sides cover it; variants confine the work to the
//! wedge of the grid and complete the rest by symmetry, or draw each square's border at once.
use vstd::prelude::*;
use crate::grid::{in_wedge, completed_from_wedge, Grid, GridCoord, GridEvent, GridEventCell, Point, applied, event_fits};
use crate::algorithms::percolation::lemma_node_coords;

verus! {

/// How a carpet is drawn.
#[derive(Clone, Copy, PartialEq, Eq, Structural)]
pub enum CarpetAlgorithm {
    /// Every square, side by side.
    Simple,
    /// Only the squares that meet the wedge, then the rest by symmetry.
    Wedge,
    /// Each square's whole border at once, only in the wedge, then the rest by symmetry.
    FlatSquare,
}

impl CarpetAlgorithm {
    pub fn to_name(&self) -> (name: &'static str)
        ensures
            name@ == match self {
                CarpetAlgorithm::Simple => "Simple"@,
                CarpetAlgorithm::Wedge => "Wedge"@,
                CarpetAlgorithm::FlatSquare => "FlatSquare"@,
            },
    {
        match self {
            CarpetAlgorithm::Simple => "Simple",
            CarpetAlgorithm::Wedge => "Wedge",
            CarpetAlgorithm::FlatSquare => "FlatSquare",
        }
    }
}

/// The direction of a side.
#[derive(Clone, Copy)]
pub enum Direction {
    Up,
    Left,
    Down,
    Right,
}

impl Direction {
    /// The direction a quarter turn counter-clockwise.
    pub open spec fn turned(self) -> Direction {
        match self {
            Direction::Up => Direction::Left,
            Direction::Left => Direction::Down,
            Direction::Down => Direction::Right,
            Direction::Right => Direction::Up,
        }
    }

    pub fn ccw(&self) -> (d: Self)
        ensures
            d == self.turned(),
    {
        match self {
            Direction::Up => Direction::Left,
            Direction::Left => Direction::Down,
            Direction::Down => Direction::Right,
            Direction::Right => Direction::Up,
        }
    }
}

/// The direction after `j` quarter turns counter-clockwise.
pub open spec fn turned_times(d: Direction, j: nat) -> Direction
    decreases j,
{
    if j == 0 {
        d
    } else {
        turned_times(d, (j - 1) as nat).turned()
    }
}

/// The far end of a side that starts at `(x, y)` and runs `ln` cells further in direction `d`.
pub open spec fn side_end(x: int, y: int, d: Direction, ln: int) -> (int, int) {
    match d {
        Direction::Up => (x, y - ln),
        Direction::Left => (x - ln, y),
        Direction::Down => (x, y + ln),
        Direction::Right => (x + ln, y),
    }
}

/// The corner reached after `j` sides of a square that starts at `(x, y)` in direction `d`.
pub open spec fn corner(x: int, y: int, d: Direction, ln: int, j: nat) -> (int, int)
    decreases j,
{
    if j == 0 {
        (x, y)
    } else {
        let (cx, cy) = corner(x, y, d, ln, (j - 1) as nat);
        side_end(cx, cy, turned_times(d, (j - 1) as nat), ln)
    }
}

/// The box `(left, top, right, bottom)` spanned by two cells.
pub open spec fn span(x1: int, y1: int, x2: int, y2: int) -> (int, int, int, int) {
    (
        if x1 <= x2 { x1 } else { x2 },
        if y1 <= y2 { y1 } else { y2 },
        if x1 <= x2 { x2 } else { x1 },
        if y1 <= y2 { y2 } else { y1 },
    )
}

/// The box covered by the square that starts at `(x, y)` in direction `d` with sides `ln`
/// cells beyond their first.
pub open spec fn square_box(x: int, y: int, d: Direction, ln: int) -> (int, int, int, int) {
    match d {
        Direction::Up => (x - ln, y - ln, x, y),
        Direction::Left => (x - ln, y, x, y + ln),
        Direction::Down => (x, y, x + ln, y + ln),
        Direction::Right => (x, y - ln, x + ln, y),
    }
}

/// The cell lies in the box.
pub open spec fn in_box(b: (int, int, int, int), x: int, y: int) -> bool {
    b.0 <= x <= b.2 && b.1 <= y <= b.3
}

/// Every cell of the box lies in the wedge of a grid of side `side`.
pub open spec fn box_in_wedge(side: int, b: (int, int, int, int)) -> bool {
    forall|x: int, y: int| b.0 <= x <= b.2 && b.1 <= y <= b.3 ==> #[trigger] in_wedge(side, x, y)
}

/// Some cell of the box lies in the wedge of a grid of side `side`.
pub open spec fn box_meets_wedge(side: int, b: (int, int, int, int)) -> bool {
    exists|x: int, y: int| b.0 <= x <= b.2 && b.1 <= y <= b.3 && #[trigger] in_wedge(side, x, y)
}

/// Whether a square with box `b` is skipped, and whether what is drawn of it lies wholly in
/// the wedge, when only the wedge is drawn (`wedge`) and the square lies in a box wholly in
/// the wedge (`in_wedge`) or not.
pub open spec fn wedge_check(wedge: bool, side: int, b: (int, int, int, int), in_wedge: bool) -> (bool, bool) {
    if wedge && !in_wedge {
        if box_in_wedge(side, b) {
            (false, true)
        } else {
            (!box_meets_wedge(side, b), false)
        }
    } else {
        (false, in_wedge)
    }
}

/// The boxes covered by the sides of the square that starts at `(x, y)` in direction `d` at
/// depth `depth`, in the order they are drawn, with the squares at their ends.
pub open spec fn square_sides(
    lengths: Seq<usize>,
    wedge: bool,
    side: int,
    x: int,
    y: int,
    d: Direction,
    depth: int,
    in_wedge: bool,
) -> Seq<(int, int, int, int)>
    decreases lengths.len() - depth, 5int,
{
    if 0 <= depth < lengths.len() {
        let ln = lengths[depth] - 1;
        let (skipped, iw) = wedge_check(wedge, side, square_box(x, y, d, ln), in_wedge);
        if skipped {
            Seq::empty()
        } else {
            first_sides(lengths, wedge, side, x, y, d, depth, iw, 4)
        }
    } else {
        Seq::empty()
    }
}

/// The boxes of the first `k` sides of the square that starts at `(x, y)` in direction `d`,
/// each followed by those of the square at its end.
pub open spec fn first_sides(
    lengths: Seq<usize>,
    wedge: bool,
    side: int,
    x: int,
    y: int,
    d: Direction,
    depth: int,
    in_wedge: bool,
    k: int,
) -> Seq<(int, int, int, int)>
    decreases lengths.len() - depth, k,
{
    if 0 <= depth < lengths.len() && 0 < k <= 4 {
        let ln = lengths[depth] - 1;
        let (sx, sy) = corner(x, y, d, ln, (k - 1) as nat);
        let sd = turned_times(d, (k - 1) as nat);
        let (ex, ey) = side_end(sx, sy, sd, ln);
        first_sides(lengths, wedge, side, x, y, d, depth, in_wedge, k - 1) + seq![span(sx, sy, ex, ey)]
            + if depth + 1 < lengths.len() {
            square_sides(lengths, wedge, side, ex, ey, sd.turned(), depth + 1, in_wedge)
        } else {
            Seq::empty()
        }
    } else {
        Seq::empty()
    }
}

/// How many squares the square that starts at `(x, y)` in direction `d` at depth `depth`
/// draws, itself and those at the ends of its sides, and how many times whether one of them
/// meets the wedge is checked: one check for each square reached while only the wedge is drawn
/// and it is not yet known to lie in the wedge, drawn or skipped.
#[verifier::opaque]
pub open spec fn square_tally(
    lengths: Seq<usize>,
    wedge: bool,
    side: int,
    x: int,
    y: int,
    d: Direction,
    depth: int,
    in_wedge: bool,
) -> (nat, nat)
    decreases lengths.len() - depth, 5int,
{
    if 0 <= depth < lengths.len() {
        let ln = lengths[depth] - 1;
        let checked: nat = if wedge && !in_wedge {
            1
        } else {
            0
        };
        let (skipped, iw) = wedge_check(wedge, side, square_box(x, y, d, ln), in_wedge);
        if skipped {
            (0, checked)
        } else {
            let t = first_tally(lengths, wedge, side, x, y, d, depth, iw, 4);
            (t.0 + 1, t.1 + checked)
        }
    } else {
        (0, 0)
    }
}

/// The squares drawn and the checks made by the squares at the ends of the first `k` sides of
/// the square that starts at `(x, y)` in direction `d`.
#[verifier::opaque]
pub open spec fn first_tally(
    lengths: Seq<usize>,
    wedge: bool,
    side: int,
    x: int,
    y: int,
    d: Direction,
    depth: int,
    in_wedge: bool,
    k: int,
) -> (nat, nat)
    decreases lengths.len() - depth, k,
{
    if 0 <= depth < lengths.len() && 0 < k <= 4 {
        let ln = lengths[depth] - 1;
        let (sx, sy) = corner(x, y, d, ln, (k - 1) as nat);
        let sd = turned_times(d, (k - 1) as nat);
        let (ex, ey) = side_end(sx, sy, sd, ln);
        let before = first_tally(lengths, wedge, side, x, y, d, depth, in_wedge, k - 1);
        let child = if depth + 1 < lengths.len() {
            square_tally(lengths, wedge, side, ex, ey, sd.turned(), depth + 1, in_wedge)
        } else {
            (0nat, 0nat)
        };
        (before.0 + child.0, before.1 + child.1)
    } else {
        (0, 0)
    }
}

/// How many of the boxes cover the cell.
pub open spec fn cover_count(boxes: Seq<(int, int, int, int)>, x: int, y: int) -> int
    decreases boxes.len(),
{
    if boxes.len() == 0 {
        0
    } else {
        cover_count(boxes.drop_last(), x, y) + if in_box(boxes.last(), x, y) {
            1int
        } else {
            0
        }
    }
}

/// The changes of an event as `(x, y, value)` triples.
pub open spec fn change_triples(changes: Seq<GridEventCell<usize>>) -> Seq<(int, int, int)> {
    changes.map_values(|c: GridEventCell<usize>| (c.coord.x as int, c.coord.y as int, c.value as int))
}

/// The event that touching box `b` records on counts `base`: every cell of the box, row by row
/// and left to right, set to its count plus one.
pub open spec fn box_event(base: spec_fn(int, int) -> int, b: (int, int, int, int)) -> Seq<(int, int, int)> {
    let w = b.2 - b.0 + 1;
    Seq::new(
        ((b.3 - b.1 + 1) * w) as nat,
        |k: int| (b.0 + k % w, b.1 + k / w, base(b.0 + k % w, b.1 + k / w) + 1),
    )
}

/// The counts of an `n` by `n` grid with counts `base` once the boxes have each added one to
/// their cells; zero off the grid.
pub open spec fn grown_on(n: int, base: spec_fn(int, int) -> int, boxes: Seq<(int, int, int, int)>) -> spec_fn(
    int,
    int,
) -> int {
    |x: int, y: int|
        if 0 <= x < n && 0 <= y < n {
            base(x, y) + cover_count(boxes, x, y)
        } else {
            0
        }
}

/// The events recorded when the boxes are touched in turn on an `n` by `n` grid with counts
/// `base`, each on the counts the boxes before it left.
pub open spec fn drawn_events(n: int, base: spec_fn(int, int) -> int, boxes: Seq<(int, int, int, int)>) -> Seq<
    Seq<(int, int, int)>,
>
    decreases boxes.len(),
{
    if boxes.len() == 0 {
        Seq::empty()
    } else {
        drawn_events(n, base, boxes.drop_last()).push(box_event(grown_on(n, base, boxes.drop_last()), boxes.last()))
    }
}

/// Growing by `a` and then by `b` is growing by `a + b`.
pub proof fn lemma_grown_on_concat(
    n: int,
    base: spec_fn(int, int) -> int,
    a: Seq<(int, int, int, int)>,
    b: Seq<(int, int, int, int)>,
)
    ensures
        grown_on(n, grown_on(n, base, a), b) == grown_on(n, base, a + b),
{
    assert forall|x: int, y: int| #[trigger] grown_on(n, grown_on(n, base, a), b)(x, y) == grown_on(n, base, a + b)(
        x,
        y,
    ) by {
        lemma_cover_count_concat(a, b, x, y);
    }
    assert(grown_on(n, grown_on(n, base, a), b) =~= grown_on(n, base, a + b));
}

/// The events of `a + b` are those of `a`, then those of `b` on the counts `a` left.
pub proof fn lemma_drawn_events_concat(
    n: int,
    base: spec_fn(int, int) -> int,
    a: Seq<(int, int, int, int)>,
    b: Seq<(int, int, int, int)>,
)
    ensures
        drawn_events(n, base, a + b) == drawn_events(n, base, a) + drawn_events(n, grown_on(n, base, a), b),
    decreases b.len(),
{
    if b.len() == 0 {
        assert(a + b =~= a);
        assert(drawn_events(n, base, a) + drawn_events(n, grown_on(n, base, a), b) =~= drawn_events(n, base, a));
    } else {
        let bd = b.drop_last();
        lemma_drawn_events_concat(n, base, a, bd);
        assert((a + b).drop_last() =~= a + bd);
        assert((a + b).last() == b.last());
        lemma_grown_on_concat(n, base, a, bd);
        assert(drawn_events(n, base, a + b) =~= drawn_events(n, base, a) + drawn_events(n, grown_on(n, base, a), b));
    }
}

pub proof fn lemma_cover_count_concat(a: Seq<(int, int, int, int)>, b: Seq<(int, int, int, int)>, x: int, y: int)
    ensures
        cover_count(a + b, x, y) == cover_count(a, x, y) + cover_count(b, x, y),
    decreases b.len(),
{
    if b.len() > 0 {
        lemma_cover_count_concat(a, b.drop_last(), x, y);
        assert((a + b).drop_last() =~= a + b.drop_last());
    } else {
        assert(a + b =~= a);
    }
}

pub proof fn lemma_cover_count_nonneg(a: Seq<(int, int, int, int)>, x: int, y: int)
    ensures
        cover_count(a, x, y) >= 0,
    decreases a.len(),
{
    if a.len() > 0 {
        lemma_cover_count_nonneg(a.drop_last(), x, y);
    }
}

/// One box covers exactly its own cells.
pub proof fn lemma_cover_count_single(b: (int, int, int, int), x: int, y: int)
    ensures
        cover_count(seq![b], x, y) == if in_box(b, x, y) {
            1int
        } else {
            0
        },
{
    let e = seq![b].drop_last();
    assert(e.len() == 0);
    assert(cover_count(e, x, y) == 0);
    assert(seq![b].last() == b);
}

/// Starting a square from the end of one of its sides, turned, covers the same box.
pub proof fn lemma_box_rotates(x: int, y: int, d: Direction, ln: int)
    ensures
        ({
            let (ex, ey) = side_end(x, y, d, ln);
            square_box(ex, ey, d.turned(), ln) == square_box(x, y, d, ln)
        }),
{
}

/// Every corner of a square starts the same box.
pub proof fn lemma_corner_box(x: int, y: int, d: Direction, ln: int, j: nat)
    ensures
        ({
            let (cx, cy) = corner(x, y, d, ln, j);
            square_box(cx, cy, turned_times(d, j), ln) == square_box(x, y, d, ln)
        }),
    decreases j,
{
    if j > 0 {
        lemma_corner_box(x, y, d, ln, (j - 1) as nat);
        let (cx, cy) = corner(x, y, d, ln, (j - 1) as nat);
        lemma_box_rotates(cx, cy, turned_times(d, (j - 1) as nat), ln);
    }
}

/// The side from a corner and the smaller square at its end stay in the square's box.
pub proof fn lemma_side_in_box(x: int, y: int, d: Direction, ln: int, ln2: int)
    requires
        0 <= ln2 <= ln,
    ensures
        ({
            let (ex, ey) = side_end(x, y, d, ln);
            let b = square_box(x, y, d, ln);
            let s = span(x, y, ex, ey);
            let c = square_box(ex, ey, d.turned(), ln2);
            &&& b.0 <= s.0 && s.2 <= b.2 && b.1 <= s.1 && s.3 <= b.3
            &&& b.0 <= c.0 && c.2 <= b.2 && b.1 <= c.1 && c.3 <= b.3
        }),
{
}

/// The side lengths of the squares at each depth: at least one cell, never growing, the first
/// no longer than the carpet.
pub open spec fn lengths_ok(lengths: Seq<usize>, size: int) -> bool {
    &&& forall|i: int| 0 <= i < lengths.len() ==> 1 <= #[trigger] lengths[i] <= size
    &&& forall|i: int, j: int| 0 <= i <= j < lengths.len() ==> #[trigger] lengths[j] <= #[trigger] lengths[i]
}

/// The box lies in a grid of side `size`.
pub open spec fn box_fits(b: (int, int, int, int), size: int) -> bool {
    0 <= b.0 && 0 <= b.1 && b.2 < size && b.3 < size
}

/// A carpet of `size` by `size` cells drawn by `algorithm`; `side_lengths` holds the side
/// lengths of the squares at each depth when they are drawn side by side, `square_sizes`
/// when their borders are drawn whole.
pub struct Carpet {
    pub size: usize,
    pub min_length: usize,
    pub side_lengths: Vec<usize>,
    pub square_sizes: Vec<usize>,
    pub algorithm: CarpetAlgorithm,
    pub record_events: bool,
    pub grid: Grid<usize>,
    pub cells: Vec<usize>,
    /// Squares drawn side by side.
    pub count_square: usize,
    /// Sides drawn.
    pub count_side: usize,
    /// Boxes touched without recording events.
    pub count_touch_rect: usize,
    /// Checks of whether a square meets the wedge.
    pub count_check_square_in_wedge: usize,
}

impl Carpet {
    /// The sizes fit, the grid is the carpet's, and the side lengths are usable.
    pub open spec fn wf(&self) -> bool {
        &&& 1 <= self.size
        &&& self.size * self.size <= usize::MAX
        &&& self.grid.wf()
        &&& self.grid.width == self.size
        &&& self.grid.height == self.size
        &&& self.grid.record_events == self.record_events
        &&& lengths_ok(self.side_lengths@, self.size as int)
        &&& lengths_ok(self.square_sizes@, self.size as int)
        &&& self.side_lengths@.len() >= 1
    }

    /// Everything but the grid's cells and events, the cell counts and the counters of
    /// drawing work stays.
    pub open spec fn same_setup(&self, other: &Self) -> bool {
        &&& self.size == other.size
        &&& self.min_length == other.min_length
        &&& self.side_lengths == other.side_lengths
        &&& self.square_sizes == other.square_sizes
        &&& self.algorithm == other.algorithm
        &&& self.record_events == other.record_events
        &&& self.grid.width == other.grid.width
        &&& self.grid.height == other.grid.height
        &&& self.grid.default_value == other.grid.default_value
        &&& self.grid.record_events == other.grid.record_events
    }

    /// Everything but the grid's cells and the cell counts stays.
    pub open spec fn same_frame(&self, other: &Self) -> bool {
        &&& self.same_setup(other)
        &&& self.grid.events == other.grid.events
        &&& self.count_square == other.count_square
        &&& self.count_side == other.count_side
        &&& self.count_touch_rect == other.count_touch_rect
        &&& self.count_check_square_in_wedge == other.count_check_square_in_wedge
    }

    /// The counters grew from those of `before` by `sides` sides, each touching its box
    /// unless events are recorded, and by the squares drawn and the wedge checks of `tally`.
    pub open spec fn counted(&self, before: &Self, sides: int, tally: (nat, nat)) -> bool {
        &&& self.count_square == before.count_square + tally.0
        &&& self.count_side == before.count_side + sides
        &&& self.count_touch_rect == before.count_touch_rect + if before.record_events {
            0
        } else {
            sides
        }
        &&& self.count_check_square_in_wedge == before.count_check_square_in_wedge + tally.1
    }

    /// The counts of the grid, zero off it.
    pub open spec fn counts(&self) -> spec_fn(int, int) -> int {
        |x: int, y: int|
            if 0 <= x < self.size && 0 <= y < self.size {
                self.grid.cell(x, y) as int
            } else {
                0
            }
    }

    /// The changes of each recorded event, as `(x, y, value)` triples.
    pub open spec fn event_list(&self) -> Seq<Seq<(int, int, int)>> {
        self.grid.events@.map_values(|e: GridEvent<usize>| change_triples(e.cells@))
    }

    /// When events are recorded, one event more than `before` had for each of the boxes, each
    /// touching its box on the counts the boxes before it left; else the events of `before`.
    pub open spec fn events_drawn(&self, before: &Self, boxes: Seq<(int, int, int, int)>) -> bool {
        if before.record_events {
            self.event_list() == before.event_list() + drawn_events(before.size as int, before.counts(), boxes)
        } else {
            self.grid.events == before.grid.events
        }
    }

    /// Counts that grew by `boxes` are the counts before, grown by them.
    pub proof fn lemma_counts_grown(&self, before: &Self, boxes: Seq<(int, int, int, int)>)
        requires
            self.size == before.size,
            self.grew_by(before, boxes),
        ensures
            self.counts() == grown_on(before.size as int, before.counts(), boxes),
    {
        assert forall|x: int, y: int| #[trigger] self.counts()(x, y) == grown_on(before.size as int, before.counts(), boxes)(
            x,
            y,
        ) by {
            if 0 <= x < self.size && 0 <= y < self.size {
                assert(self.grid.cell(x, y) == before.grid.cell(x, y) + cover_count(boxes, x, y));
            }
        }
        assert(self.counts() =~= grown_on(before.size as int, before.counts(), boxes));
    }

    /// The counters can grow by `sides` sides and by `tally` within `usize::MAX`.
    pub open spec fn counter_room(&self, sides: int, tally: (nat, nat)) -> bool {
        &&& self.count_square + tally.0 <= usize::MAX
        &&& self.count_side + sides <= usize::MAX
        &&& self.count_touch_rect + sides <= usize::MAX
        &&& self.count_check_square_in_wedge + tally.1 <= usize::MAX
    }

    /// Only the wedge is drawn while the squares are drawn side by side.
    pub open spec fn uses_wedge(&self) -> bool {
        self.algorithm == CarpetAlgorithm::Wedge
    }

    /// Each cell of the grid grew by how many of `boxes` cover it.
    pub open spec fn grew_by(&self, before: &Self, boxes: Seq<(int, int, int, int)>) -> bool {
        forall|x: int, y: int|
            0 <= x < self.size && 0 <= y < self.size ==> #[trigger] self.grid.cell(x, y) == before.grid.cell(x, y)
                + cover_count(boxes, x, y)
    }

    /// No cell would pass `usize::MAX` by growing by how many of `boxes` cover it.
    pub open spec fn room_for(&self, boxes: Seq<(int, int, int, int)>) -> bool {
        forall|x: int, y: int|
            0 <= x < self.size && 0 <= y < self.size ==> #[trigger] self.grid.cell(x, y) + cover_count(
                boxes,
                x,
                y,
            ) <= usize::MAX
    }

    /// The boxes drawn by the square that starts at `coord` in `direction` at `depth`.
    pub open spec fn square_boxes(&self, coord: GridCoord, direction: Direction, depth: int, in_wedge: bool) -> Seq<
        (int, int, int, int),
    > {
        square_sides(
            self.side_lengths@,
            self.uses_wedge(),
            self.size as int,
            coord.x as int,
            coord.y as int,
            direction,
            depth,
            in_wedge,
        )
    }

    /// The squares drawn and the wedge checks made by the square that starts at `coord` in
    /// `direction` at `depth`.
    pub open spec fn square_count(&self, coord: GridCoord, direction: Direction, depth: int, in_wedge: bool) -> (
        nat,
        nat,
    ) {
        square_tally(
            self.side_lengths@,
            self.uses_wedge(),
            self.size as int,
            coord.x as int,
            coord.y as int,
            direction,
            depth,
            in_wedge,
        )
    }

    /// Adds one to every cell of the box spanned by the two cells.
    fn touch_rect_no_event(&mut self, coord1: GridCoord, coord2: GridCoord)
        requires
            old(self).wf(),
            !old(self).record_events,
            coord1.x < old(self).size,
            coord1.y < old(self).size,
            coord2.x < old(self).size,
            coord2.y < old(self).size,
            old(self).room_for(seq![span(coord1.x as int, coord1.y as int, coord2.x as int, coord2.y as int)]),
            old(self).count_touch_rect < usize::MAX,
        ensures
            final(self).wf(),
            final(self).same_setup(old(self)),
            final(self).count_square == old(self).count_square,
            final(self).count_side == old(self).count_side,
            final(self).count_touch_rect == old(self).count_touch_rect + 1,
            final(self).count_check_square_in_wedge == old(self).count_check_square_in_wedge,
            final(self).grid.events == old(self).grid.events,
            final(self).cells == old(self).cells,
            final(self).grew_by(old(self), seq![span(coord1.x as int, coord1.y as int, coord2.x as int, coord2.y as int)]),
    {
        let ghost b = span(coord1.x as int, coord1.y as int, coord2.x as int, coord2.y as int);
        let mut coord1 = coord1;
        let mut coord2 = coord2;
        Point::fix_top_left_bottom_right(&mut coord1, &mut coord2);
        proof {
            assert forall|x: int, y: int| #[trigger] cover_count(seq![b], x, y) == if in_box(b, x, y) {
                1int
            } else {
                0
            } by {
                lemma_cover_count_single(b, x, y);
            }
        }
        let mut y = coord1.y;
        while y <= coord2.y
            invariant
                self.wf(),
                self.same_frame(old(self)),
                self.cells == old(self).cells,
                !self.record_events,
                b == (coord1.x as int, coord1.y as int, coord2.x as int, coord2.y as int),
                coord2.x < self.size,
                coord2.y < self.size,
                coord1.y <= y <= coord2.y + 1,
                coord1.x <= coord2.x,
                forall|x: int, y: int| #[trigger] cover_count(seq![b], x, y) == if in_box(b, x, y) {
                    1int
                } else {
                    0
                },
                old(self).room_for(seq![b]),
                forall|cx: int, cy: int|
                    0 <= cx < self.size && 0 <= cy < self.size ==> #[trigger] self.grid.cell(cx, cy)
                        == old(self).grid.cell(cx, cy) + if in_box(b, cx, cy) && cy < y {
                        1int
                    } else {
                        0
                    },
            decreases coord2.y + 1 - y,
        {
            let mut x = coord1.x;
            while x <= coord2.x
                invariant
                    self.wf(),
                    self.same_frame(old(self)),
                    self.cells == old(self).cells,
                    !self.record_events,
                    b == (coord1.x as int, coord1.y as int, coord2.x as int, coord2.y as int),
                    coord2.x < self.size,
                    coord2.y < self.size,
                    coord1.y <= y <= coord2.y,
                    coord1.x <= coord2.x,
                    coord1.x <= x <= coord2.x + 1,
                    forall|x: int, y: int| #[trigger] cover_count(seq![b], x, y) == if in_box(b, x, y) {
                        1int
                    } else {
                        0
                    },
                    old(self).room_for(seq![b]),
                    forall|cx: int, cy: int|
                        0 <= cx < self.size && 0 <= cy < self.size ==> #[trigger] self.grid.cell(cx, cy)
                            == old(self).grid.cell(cx, cy) + if in_box(b, cx, cy) && (cy < y || (cy == y
                            && cx < x)) {
                            1int
                        } else {
                            0
                        },
                decreases coord2.x + 1 - x,
            {
                let current_cell_value = self.grid.get_xy(x, y);
                proof {
                    assert(old(self).grid.cell(x as int, y as int) + cover_count(seq![b], x as int, y as int)
                        <= usize::MAX);
                }
                let ghost before = self.grid;
                self.grid.set_coord(GridCoord::new(x, y), current_cell_value + 1);
                proof {
                    assert forall|cx: int, cy: int| 0 <= cx < self.size && 0 <= cy < self.size implies #[trigger] self.grid.cell(
                        cx,
                        cy,
                    ) == old(self).grid.cell(cx, cy) + if in_box(b, cx, cy) && (cy < y || (cy == y && cx
                        <= x)) {
                        1int
                    } else {
                        0
                    } by {
                        assert(before.cell(cx, cy) == old(self).grid.cell(cx, cy) + if in_box(b, cx, cy) && (cy
                            < y || (cy == y && cx < x)) {
                            1int
                        } else {
                            0
                        });
                    }
                }
                x += 1;
            }
            y += 1;
        }
        self.count_touch_rect += 1;
    }

    /// Collects in `event` the change of every cell of the box spanned by the two cells to its
    /// value plus one.
    fn touch_rect(&self, event: &mut GridEvent<usize>, coord1: GridCoord, coord2: GridCoord)
        requires
            self.wf(),
            old(event).cells@.len() == 0,
            coord1.x < self.size,
            coord1.y < self.size,
            coord2.x < self.size,
            coord2.y < self.size,
            self.room_for(seq![span(coord1.x as int, coord1.y as int, coord2.x as int, coord2.y as int)]),
        ensures
            event_fits(final(event).cells@, self.size as int, self.size as int),
            shaped_like(applied(self.grid.cells(), final(event).cells@), self.size as int),
            forall|x: int, y: int|
                0 <= x < self.size && 0 <= y < self.size ==> #[trigger] applied(self.grid.cells(), final(event).cells@)[y][x]
                    == self.grid.cell(x, y) + cover_count(
                    seq![span(coord1.x as int, coord1.y as int, coord2.x as int, coord2.y as int)],
                    x,
                    y,
                ),
            change_triples(final(event).cells@) == box_event(
                self.counts(),
                span(coord1.x as int, coord1.y as int, coord2.x as int, coord2.y as int),
            ),
    {
        let ghost b = span(coord1.x as int, coord1.y as int, coord2.x as int, coord2.y as int);
        let ghost cells = self.grid.cells();
        let ghost n = self.size as int;
        let ghost bw = b.2 - b.0 + 1;
        let ghost all = box_event(self.counts(), b);
        let mut coord1 = coord1;
        let mut coord2 = coord2;
        Point::fix_top_left_bottom_right(&mut coord1, &mut coord2);
        proof {
            assert forall|x: int, y: int| #[trigger] cover_count(seq![b], x, y) == if in_box(b, x, y) {
                1int
            } else {
                0
            } by {
                lemma_cover_count_single(b, x, y);
            }
            assert(applied(cells, event.cells@) == cells);
            assert(change_triples(event.cells@) =~= all.take(0));
            assert(0 * bw == 0);
            assert(coord1.y == b.1);
        }
        let mut y = coord1.y;
        while y <= coord2.y
            invariant
                self.wf(),
                bw == b.2 - b.0 + 1,
                all == box_event(self.counts(), b),
                all.len() == (b.3 - b.1 + 1) * bw,
                change_triples(event.cells@) == all.take((y - b.1) * bw),
                cells == self.grid.cells(),
                n == self.size,
                b == (coord1.x as int, coord1.y as int, coord2.x as int, coord2.y as int),
                coord2.x < self.size,
                coord2.y < self.size,
                coord1.x <= coord2.x,
                coord1.y <= y <= coord2.y + 1,
                forall|x: int, y: int| #[trigger] cover_count(seq![b], x, y) == if in_box(b, x, y) {
                    1int
                } else {
                    0
                },
                self.room_for(seq![b]),
                event_fits(event.cells@, n, n),
                shaped_like(applied(cells, event.cells@), n),
                forall|cx: int, cy: int|
                    0 <= cx < n && 0 <= cy < n ==> #[trigger] applied(cells, event.cells@)[cy][cx] == self.grid.cell(
                        cx,
                        cy,
                    ) + if in_box(b, cx, cy) && cy < y {
                        1int
                    } else {
                        0
                    },
            decreases coord2.y + 1 - y,
        {
            let mut x = coord1.x;
            while x <= coord2.x
                invariant
                    self.wf(),
                    bw == b.2 - b.0 + 1,
                    all == box_event(self.counts(), b),
                    all.len() == (b.3 - b.1 + 1) * bw,
                    change_triples(event.cells@) == all.take((y - b.1) * bw + (x - b.0)),
                    cells == self.grid.cells(),
                    n == self.size,
                    b == (coord1.x as int, coord1.y as int, coord2.x as int, coord2.y as int),
                    coord2.x < self.size,
                    coord2.y < self.size,
                    coord1.x <= coord2.x,
                    coord1.y <= y <= coord2.y,
                    coord1.x <= x <= coord2.x + 1,
                    forall|x: int, y: int| #[trigger] cover_count(seq![b], x, y) == if in_box(b, x, y) {
                        1int
                    } else {
                        0
                    },
                    self.room_for(seq![b]),
                    event_fits(event.cells@, n, n),
                    shaped_like(applied(cells, event.cells@), n),
                    forall|cx: int, cy: int|
                        0 <= cx < n && 0 <= cy < n ==> #[trigger] applied(cells, event.cells@)[cy][cx]
                            == self.grid.cell(cx, cy) + if in_box(b, cx, cy) && (cy < y || (cy == y && cx
                            < x)) {
                            1int
                        } else {
                            0
                        },
                decreases coord2.x + 1 - x,
            {
                let current_cell_value = self.grid.get_xy(x, y);
                proof {
                    assert(self.grid.cell(x as int, y as int) + cover_count(seq![b], x as int, y as int)
                        <= usize::MAX);
                }
                let ghost before = event.cells@;
                event.set_cell(GridCoord::new(x, y), current_cell_value + 1);
                proof {
                    let k = (y - b.1) * bw + (x - b.0);
                    lemma_node_coords(bw, b.3 - b.1 + 1, x - b.0, y - b.1);
                    assert(k % bw == x - b.0 && k / bw == y - b.1);
                    assert(bw * (b.3 - b.1 + 1) == (b.3 - b.1 + 1) * bw) by (nonlinear_arith);
                    assert(0 <= k < all.len());
                    assert(change_triples(before) == all.take(k));
                    assert(change_triples(before).len() == before.len());
                    assert(before.len() == k);
                    assert(all[k] == (x as int, y as int, self.grid.cell(x as int, y as int) + 1));
                    assert(event.cells@ == before.push(GridEventCell { coord: Point { x, y }, value: (current_cell_value + 1) as usize }));
                    assert(change_triples(before) == all.take(k));
                    assert forall|j: int| 0 <= j < k + 1 implies #[trigger] change_triples(event.cells@)[j] == all.take(k + 1)[j] by {
                        if j < k {
                            assert(change_triples(event.cells@)[j] == change_triples(before)[j]);
                        }
                    }
                    assert(change_triples(event.cells@) =~= all.take(k + 1));
                    let a0 = applied(cells, before);
                    assert(event.cells@.drop_last() =~= before);
                    let a1 = applied(cells, event.cells@);
                    assert(a1 == a0.update(y as int, a0[y as int].update(x as int, (current_cell_value + 1) as usize)));
                    assert forall|k: int| 0 <= k < event.cells@.len() implies (#[trigger] event.cells@[k]).coord.x
                        < n && event.cells@[k].coord.y < n by {
                        if k < before.len() {
                            assert(event.cells@[k] == before[k]);
                        }
                    }
                    assert forall|r: int| 0 <= r < n implies #[trigger] a1[r].len() == n by {}
                    assert forall|cx: int, cy: int| 0 <= cx < n && 0 <= cy < n implies #[trigger] a1[cy][cx]
                        == self.grid.cell(cx, cy) + if in_box(b, cx, cy) && (cy < y || (cy == y && cx <= x)) {
                        1int
                    } else {
                        0
                    } by {
                        assert(a0[cy][cx] == self.grid.cell(cx, cy) + if in_box(b, cx, cy) && (cy < y || (cy
                            == y && cx < x)) {
                            1int
                        } else {
                            0
                        });
                    }
                }
                x += 1;
            }
            proof {
                assert((y - b.1) * bw + (x - b.0) == (y + 1 - b.1) * bw) by (nonlinear_arith)
                    requires
                        x - b.0 == bw,
                ;
            }
            y += 1;
        }
        proof {
            assert(all.take((y - b.1) * bw) =~= all);
        }
    }
}

/// A side and the square at its end add to the boxes of the sides before it.
proof fn lemma_first_sides_grow(
    lengths: Seq<usize>,
    wedge: bool,
    side: int,
    x: int,
    y: int,
    d: Direction,
    depth: int,
    in_wedge: bool,
    j: int,
    cx: int,
    cy: int,
)
    requires
        0 <= depth < lengths.len(),
        0 <= j < 4,
    ensures
        cover_count(first_sides(lengths, wedge, side, x, y, d, depth, in_wedge, j), cx, cy) <= cover_count(
            first_sides(lengths, wedge, side, x, y, d, depth, in_wedge, 4),
            cx,
            cy,
        ),
    decreases 4 - j,
{
    let a = first_sides(lengths, wedge, side, x, y, d, depth, in_wedge, j);
    let b = first_sides(lengths, wedge, side, x, y, d, depth, in_wedge, j + 1);
    let rest = b.subrange(a.len() as int, b.len() as int);
    assert(b =~= a + rest);
    lemma_cover_count_concat(a, rest, cx, cy);
    lemma_cover_count_nonneg(rest, cx, cy);
    if j + 1 < 4 {
        lemma_first_sides_grow(lengths, wedge, side, x, y, d, depth, in_wedge, j + 1, cx, cy);
    }
}

/// The sides and the tally of the first `j` sides of a square are no more than those of all
/// four.
proof fn lemma_first_grow(
    lengths: Seq<usize>,
    wedge: bool,
    side: int,
    x: int,
    y: int,
    d: Direction,
    depth: int,
    in_wedge: bool,
    j: int,
)
    requires
        0 <= depth < lengths.len(),
        0 <= j <= 4,
    ensures
        first_sides(lengths, wedge, side, x, y, d, depth, in_wedge, j).len() <= first_sides(
            lengths,
            wedge,
            side,
            x,
            y,
            d,
            depth,
            in_wedge,
            4,
        ).len(),
        first_tally(lengths, wedge, side, x, y, d, depth, in_wedge, j).0 <= first_tally(
            lengths,
            wedge,
            side,
            x,
            y,
            d,
            depth,
            in_wedge,
            4,
        ).0,
        first_tally(lengths, wedge, side, x, y, d, depth, in_wedge, j).1 <= first_tally(
            lengths,
            wedge,
            side,
            x,
            y,
            d,
            depth,
            in_wedge,
            4,
        ).1,
    decreases 4 - j,
{
    reveal(square_tally);
    reveal(first_tally);
    if j < 4 {
        lemma_first_grow(lengths, wedge, side, x, y, d, depth, in_wedge, j + 1);
    }
}

impl Carpet {
    /// The boxes drawn by the side that starts at `coord` in `direction` at `depth`: the side
    /// itself, then the square at its end.
    pub open spec fn side_boxes(&self, coord: GridCoord, direction: Direction, depth: int, in_wedge: bool) -> Seq<
        (int, int, int, int),
    > {
        let ln = self.side_lengths@[depth] - 1;
        let (ex, ey) = side_end(coord.x as int, coord.y as int, direction, ln);
        seq![span(coord.x as int, coord.y as int, ex, ey)] + if depth + 1 < self.side_lengths@.len() {
            square_sides(
                self.side_lengths@,
                self.uses_wedge(),
                self.size as int,
                ex,
                ey,
                direction.turned(),
                depth + 1,
                in_wedge,
            )
        } else {
            Seq::empty()
        }
    }

    /// The squares drawn and the wedge checks made by the square at the end of the side that
    /// starts at `coord` in `direction` at `depth`.
    pub open spec fn side_count(&self, coord: GridCoord, direction: Direction, depth: int, in_wedge: bool) -> (
        nat,
        nat,
    ) {
        let ln = self.side_lengths@[depth] - 1;
        let (ex, ey) = side_end(coord.x as int, coord.y as int, direction, ln);
        if depth + 1 < self.side_lengths@.len() {
            square_tally(
                self.side_lengths@,
                self.uses_wedge(),
                self.size as int,
                ex,
                ey,
                direction.turned(),
                depth + 1,
                in_wedge,
            )
        } else {
            (0, 0)
        }
    }

    /// Draws the square that starts at `coord` in `direction` at `depth`: its four sides in
    /// turn, counter-clockwise, each followed by the smaller square at its end; when only the
    /// wedge is drawn, a square outside it is skipped.
    #[verifier::rlimit(100)]
    #[verifier::spinoff_prover]
    fn square(&mut self, coord: GridCoord, direction: Direction, depth: usize, in_wedge: bool)
        requires
            old(self).wf(),
            old(self).uses_wedge() ==> old(self).size % 2 == 0,
            depth < old(self).side_lengths@.len(),
            box_fits(
                square_box(coord.x as int, coord.y as int, direction, old(self).side_lengths@[depth as int] - 1),
                old(self).size as int,
            ),
            old(self).room_for(old(self).square_boxes(coord, direction, depth as int, in_wedge)),
            old(self).counter_room(
                old(self).square_boxes(coord, direction, depth as int, in_wedge).len() as int,
                old(self).square_count(coord, direction, depth as int, in_wedge),
            ),
        ensures
            final(self).wf(),
            final(self).same_setup(old(self)),
            final(self).cells == old(self).cells,
            final(self).grew_by(old(self), old(self).square_boxes(coord, direction, depth as int, in_wedge)),
            final(self).counted(
                old(self),
                old(self).square_boxes(coord, direction, depth as int, in_wedge).len() as int,
                old(self).square_count(coord, direction, depth as int, in_wedge),
            ),
            final(self).events_drawn(old(self), old(self).square_boxes(coord, direction, depth as int, in_wedge)),
        decreases old(self).side_lengths@.len() - depth, 5int,
    {
        let ghost start = *self;
        let ghost ln = self.side_lengths@[depth as int] - 1;
        let ghost b = square_box(coord.x as int, coord.y as int, direction, ln);
        let ghost old_in_wedge = in_wedge;
        proof {
            lemma_square_tally_unfold(
                start.side_lengths@,
                start.uses_wedge(),
                start.size as int,
                coord.x as int,
                coord.y as int,
                direction,
                depth as int,
                in_wedge,
            );
        }
        let mut in_wedge = in_wedge;
        if self.algorithm == CarpetAlgorithm::Wedge {
            if !in_wedge {
                self.count_check_square_in_wedge += 1;
                // First see if any part of the planned square falls within the wedge.
                let ln = self.side_lengths[depth] - 1;
                let (x1, y1, x2, y2) = match direction {
                    Direction::Up => (coord.x - ln, coord.y - ln, coord.x, coord.y),
                    Direction::Left => (coord.x - ln, coord.y, coord.x, coord.y + ln),
                    Direction::Down => (coord.x, coord.y, coord.x + ln, coord.y + ln),
                    Direction::Right => (coord.x, coord.y - ln, coord.x + ln, coord.y),
                };
                in_wedge = self.grid.rectangle_inside_wedge_xy(x1, y1, x2, y2);
                if !in_wedge {
                    let intersects_wedge = self.grid.rectangle_intersects_wedge_xy(x1, y1, x2, y2);
                    if !intersects_wedge {
                        proof {
                            assert(start.square_boxes(coord, direction, depth as int, old_in_wedge) =~= Seq::<
                                (int, int, int, int),
                            >::empty());
                            assert forall|x: int, y: int|
                                0 <= x < self.size && 0 <= y < self.size implies #[trigger] self.grid.cell(
                                x,
                                y,
                            ) == start.grid.cell(x, y) + cover_count(
                                start.square_boxes(coord, direction, depth as int, old_in_wedge),
                                x,
                                y,
                            ) by {}
                            lemma_square_tally_unfold(
                                start.side_lengths@,
                                start.uses_wedge(),
                                start.size as int,
                                coord.x as int,
                                coord.y as int,
                                direction,
                                depth as int,
                                old_in_wedge,
                            );
                        }
                        return ;
                    }
                }
            }
        }
        self.count_square += 1;
        let ghost iw = in_wedge;
        let ghost (x0, y0) = (coord.x as int, coord.y as int);
        let ghost d0 = direction;
        let ghost lengths = start.side_lengths@;
        let ghost wedge = start.uses_wedge();
        let ghost n = start.size as int;
        let ghost ck: nat = if wedge && !old_in_wedge {
            1
        } else {
            0
        };
        let ghost tally = start.square_count(coord, direction, depth as int, old_in_wedge);
        proof {
            assert(start.square_boxes(coord, direction, depth as int, old_in_wedge)
                == first_sides(lengths, wedge, n, x0, y0, d0, depth as int, iw, 4));
            lemma_square_tally_unfold(lengths, wedge, n, x0, y0, d0, depth as int, old_in_wedge);
            lemma_first_tally_step(lengths, wedge, n, x0, y0, d0, depth as int, iw, 0);
            assert(tally == ({
                let t = first_tally(lengths, wedge, n, x0, y0, d0, depth as int, iw, 4);
                (t.0 + 1, t.1 + ck)
            }));
            assert(first_sides(lengths, wedge, n, x0, y0, d0, depth as int, iw, 0) =~= Seq::<
                (int, int, int, int),
            >::empty());
            assert forall|x: int, y: int| 0 <= x < self.size && 0 <= y < self.size implies #[trigger] self.grid.cell(
                x,
                y,
            ) == start.grid.cell(x, y) + cover_count(
                first_sides(lengths, wedge, n, x0, y0, d0, depth as int, iw, 0),
                x,
                y,
            ) by {}
        }
        let mut coord = coord;
        let mut direction = direction;
        for k in 0usize..4
            invariant
                self.wf(),
                self.same_setup(&start),
                self.cells == start.cells,
                self.side_lengths@ == start.side_lengths@,
                start.uses_wedge() ==> start.size % 2 == 0,
                start == *old(self),
                tally == ({
                    let t = first_tally(lengths, wedge, n, x0, y0, d0, depth as int, iw, 4);
                    (t.0 + 1, t.1 + ck)
                }),
                start.counter_room(first_sides(lengths, wedge, n, x0, y0, d0, depth as int, iw, 4).len() as int, tally),
                self.counted(
                    &start,
                    first_sides(lengths, wedge, n, x0, y0, d0, depth as int, iw, k as int).len() as int,
                    ({
                        let t = first_tally(lengths, wedge, n, x0, y0, d0, depth as int, iw, k as int);
                        (t.0 + 1, t.1 + ck)
                    }),
                ),
                in_wedge == iw,
                start.wf(),
                depth < lengths.len(),
                lengths == start.side_lengths@,
                wedge == start.uses_wedge(),
                n == start.size,
                ln == lengths[depth as int] - 1,
                b == square_box(x0, y0, d0, ln),
                box_fits(b, n),
                (coord.x as int, coord.y as int) == corner(x0, y0, d0, ln, k as nat),
                direction == turned_times(d0, k as nat),
                start.room_for(first_sides(lengths, wedge, n, x0, y0, d0, depth as int, iw, 4)),
                self.grew_by(&start, first_sides(lengths, wedge, n, x0, y0, d0, depth as int, iw, k as int)),
                self.events_drawn(&start, first_sides(lengths, wedge, n, x0, y0, d0, depth as int, iw, k as int)),
        {
            let ghost fk = first_sides(lengths, wedge, n, x0, y0, d0, depth as int, iw, k as int);
            let ghost fk1 = first_sides(lengths, wedge, n, x0, y0, d0, depth as int, iw, k + 1);
            let ghost sb = self.side_boxes(coord, direction, depth as int, iw);
            let ghost tk = first_tally(lengths, wedge, n, x0, y0, d0, depth as int, iw, k as int);
            let ghost tk1 = first_tally(lengths, wedge, n, x0, y0, d0, depth as int, iw, k + 1);
            let ghost sc = self.side_count(coord, direction, depth as int, iw);
            proof {
                lemma_corner_box(x0, y0, d0, ln, k as nat);
                assert(fk1 =~= fk + sb);
                lemma_first_tally_step(lengths, wedge, n, x0, y0, d0, depth as int, iw, k as int);
                assert(tk1 == (tk.0 + sc.0, tk.1 + sc.1));
                lemma_first_grow(lengths, wedge, n, x0, y0, d0, depth as int, iw, k + 1);
                assert(fk1.len() == fk.len() + sb.len());
                assert(self.counter_room(sb.len() as int, sc));
                assert forall|x: int, y: int| 0 <= x < self.size && 0 <= y < self.size implies #[trigger] self.grid.cell(
                    x,
                    y,
                ) + cover_count(sb, x, y) <= usize::MAX by {
                    lemma_cover_count_concat(fk, sb, x, y);
                    if k + 1 < 4 {
                        lemma_first_sides_grow(lengths, wedge, n, x0, y0, d0, depth as int, iw, k + 1, x, y);
                    }
                }
            }
            let ghost before = *self;
            coord = self.side(coord, direction, depth, in_wedge);
            proof {
                assert forall|x: int, y: int| 0 <= x < self.size && 0 <= y < self.size implies #[trigger] self.grid.cell(
                    x,
                    y,
                ) == start.grid.cell(x, y) + cover_count(fk1, x, y) by {
                    lemma_cover_count_concat(fk, sb, x, y);
                    assert(before.grid.cell(x, y) == start.grid.cell(x, y) + cover_count(fk, x, y));
                }
                assert(self.counted(&start, fk1.len() as int, (tk1.0 + 1, tk1.1 + ck)));
                if start.record_events {
                    before.lemma_counts_grown(&start, fk);
                    lemma_drawn_events_concat(n, start.counts(), fk, sb);
                    assert(self.event_list() =~= start.event_list() + drawn_events(n, start.counts(), fk1));
                }
            }
            direction = direction.ccw();
        }
    }
}

impl Carpet {
    /// Draws the side that starts at `coord1` in `direction` at `depth`, then the smaller
    /// square at its end, turned counter-clockwise; returns the end of the side.
    #[verifier::rlimit(100)]
    fn side(&mut self, coord1: GridCoord, direction: Direction, depth: usize, in_wedge: bool) -> (coord2: GridCoord)
        requires
            old(self).wf(),
            old(self).uses_wedge() ==> old(self).size % 2 == 0,
            depth < old(self).side_lengths@.len(),
            box_fits(
                square_box(coord1.x as int, coord1.y as int, direction, old(self).side_lengths@[depth as int] - 1),
                old(self).size as int,
            ),
            old(self).room_for(old(self).side_boxes(coord1, direction, depth as int, in_wedge)),
            old(self).counter_room(
                old(self).side_boxes(coord1, direction, depth as int, in_wedge).len() as int,
                old(self).side_count(coord1, direction, depth as int, in_wedge),
            ),
        ensures
            final(self).wf(),
            final(self).same_setup(old(self)),
            final(self).cells == old(self).cells,
            final(self).grew_by(old(self), old(self).side_boxes(coord1, direction, depth as int, in_wedge)),
            final(self).counted(
                old(self),
                old(self).side_boxes(coord1, direction, depth as int, in_wedge).len() as int,
                old(self).side_count(coord1, direction, depth as int, in_wedge),
            ),
            final(self).events_drawn(old(self), old(self).side_boxes(coord1, direction, depth as int, in_wedge)),
            (coord2.x as int, coord2.y as int) == side_end(
                coord1.x as int,
                coord1.y as int,
                direction,
                old(self).side_lengths@[depth as int] - 1,
            ),
        decreases old(self).side_lengths@.len() - depth, 4int,
    {
        let ghost start = *self;
        let ghost n = self.size as int;
        let ghost sc = start.side_count(coord1, direction, depth as int, in_wedge);
        let length = self.side_lengths[depth];
        let ln = length - 1;
        let (x1, y1) = (coord1.x, coord1.y);
        let (x2, y2) = match direction {
            Direction::Up => (x1, y1 - ln),
            Direction::Left => (x1 - ln, y1),
            Direction::Down => (x1, y1 + ln),
            Direction::Right => (x1 + ln, y1),
        };
        let coord2 = GridCoord::new(x2, y2);
        let ghost seg = seq![span(x1 as int, y1 as int, x2 as int, y2 as int)];
        let ghost sb = start.side_boxes(coord1, direction, depth as int, in_wedge);
        let ghost child = sb.subrange(1, sb.len() as int);
        proof {
            assert(sb =~= seg + child);
            assert forall|x: int, y: int| 0 <= x < n && 0 <= y < n implies #[trigger] self.grid.cell(x, y)
                + cover_count(seg, x, y) <= usize::MAX by {
                lemma_cover_count_concat(seg, child, x, y);
                lemma_cover_count_nonneg(child, x, y);
            }
            assert(sb.len() == child.len() + 1);
        }
        self.count_side += 1;
        if self.record_events {
            let mut event = GridEvent::new();
            self.touch_rect(&mut event, coord1, coord2);
            let ghost ev = event.cells@;
            let ghost listed = self.event_list();
            self.grid.add_event(event);
            proof {
                assert forall|x: int, y: int| 0 <= x < n && 0 <= y < n implies #[trigger] self.grid.cell(x, y)
                    == start.grid.cell(x, y) + cover_count(seg, x, y) by {
                    assert(self.grid.cells() == applied(start.grid.cells(), ev));
                }
                start.lemma_counts_grown(&start, Seq::empty());
                assert(seg.drop_last() =~= Seq::<(int, int, int, int)>::empty());
                assert(drawn_events(n, start.counts(), seg.drop_last()) =~= Seq::<Seq<(int, int, int)>>::empty());
                assert(drawn_events(n, start.counts(), seg) =~= seq![box_event(start.counts(), seg[0])]);
                assert(self.event_list() =~= listed.push(change_triples(ev)));
                assert(self.event_list() =~= start.event_list() + drawn_events(n, start.counts(), seg));
            }
        } else {
            self.touch_rect_no_event(coord1, coord2);
        }
        proof {
            assert(self.events_drawn(&start, seg));
        }
        // Draw a smaller square starting at the end of the side and turning counter-clockwise.
        let lengths_len = self.side_lengths.len();
        let next_depth = depth + 1;
        if next_depth < lengths_len {
            let ghost mid = *self;
            proof {
                lemma_side_in_box(
                    x1 as int,
                    y1 as int,
                    direction,
                    ln as int,
                    self.side_lengths@[next_depth as int] - 1,
                );
                assert(child == start.square_boxes(coord2, direction.turned(), next_depth as int, in_wedge));
                assert(sc == start.square_count(coord2, direction.turned(), next_depth as int, in_wedge));
                assert forall|x: int, y: int| 0 <= x < n && 0 <= y < n implies #[trigger] self.grid.cell(x, y)
                    + cover_count(child, x, y) <= usize::MAX by {
                    lemma_cover_count_concat(seg, child, x, y);
                }
                assert(self.counted(&start, 1, (0, 0)));
                assert(self.counter_room(child.len() as int, sc));
            }
            self.square(coord2, direction.ccw(), next_depth, in_wedge);
            proof {
                assert forall|x: int, y: int| 0 <= x < n && 0 <= y < n implies #[trigger] self.grid.cell(x, y)
                    == start.grid.cell(x, y) + cover_count(sb, x, y) by {
                    lemma_cover_count_concat(seg, child, x, y);
                    assert(mid.grid.cell(x, y) == start.grid.cell(x, y) + cover_count(seg, x, y));
                }
                assert(self.counted(&start, sb.len() as int, sc));
                if start.record_events {
                    mid.lemma_counts_grown(&start, seg);
                    lemma_drawn_events_concat(n, start.counts(), seg, child);
                    assert(self.event_list() =~= start.event_list() + drawn_events(n, start.counts(), sb));
                }
            }
        } else {
            proof {
                assert(child =~= Seq::<(int, int, int, int)>::empty());
                assert(sb =~= seg);
                assert(sc == (0nat, 0nat));
            }
        }
        coord2
    }
}

/// One when `c` holds, else zero.
pub open spec fn indicator(c: bool) -> int {
    if c {
        1
    } else {
        0
    }
}

/// How many times drawing the border of box `b` adds one to the cell: once for each of the top
/// row, the bottom row, the left column and the right column that holds it.
pub open spec fn border_count(b: (int, int, int, int), x: int, y: int) -> int {
    indicator(y == b.1 && b.0 <= x <= b.2) + indicator(y == b.3 && b.0 <= x <= b.2) + indicator(
        x == b.0 && b.1 <= y <= b.3,
    ) + indicator(x == b.2 && b.1 <= y <= b.3)
}

/// The sum of `border_count` over the boxes.
pub open spec fn border_total(boxes: Seq<(int, int, int, int)>, x: int, y: int) -> int
    decreases boxes.len(),
{
    if boxes.len() == 0 {
        0
    } else {
        border_total(boxes.drop_last(), x, y) + border_count(boxes.last(), x, y)
    }
}

pub proof fn lemma_border_total_concat(a: Seq<(int, int, int, int)>, b: Seq<(int, int, int, int)>, x: int, y: int)
    ensures
        border_total(a + b, x, y) == border_total(a, x, y) + border_total(b, x, y),
    decreases b.len(),
{
    if b.len() > 0 {
        lemma_border_total_concat(a, b.drop_last(), x, y);
        assert((a + b).drop_last() =~= a + b.drop_last());
    } else {
        assert(a + b =~= a);
    }
}

pub proof fn lemma_border_total_nonneg(a: Seq<(int, int, int, int)>, x: int, y: int)
    ensures
        border_total(a, x, y) >= 0,
    decreases a.len(),
{
    if a.len() > 0 {
        lemma_border_total_nonneg(a.drop_last(), x, y);
    }
}

pub proof fn lemma_border_total_single(b: (int, int, int, int), x: int, y: int)
    ensures
        border_total(seq![b], x, y) == border_count(b, x, y),
{
    let e = seq![b].drop_last();
    assert(e.len() == 0);
    assert(border_total(e, x, y) == 0);
    assert(seq![b].last() == b);
}

/// The squares whose borders are drawn from the square `(x1, y1)`-`(x2, y2)` at `depth`: the
/// square itself, unless it misses the wedge, then the four squares of the next size in its
/// corners, top-left, top-right, bottom-right, bottom-left.
pub open spec fn flat_squares(
    sizes: Seq<usize>,
    side: int,
    depth: int,
    in_wedge: bool,
    x1: int,
    y1: int,
    x2: int,
    y2: int,
) -> Seq<(int, int, int, int)>
    decreases sizes.len() - depth,
{
    let b = (x1, y1, x2, y2);
    let (skipped, iw) = wedge_check(true, side, b, in_wedge);
    if skipped {
        Seq::empty()
    } else if 0 <= depth && depth + 1 < sizes.len() {
        let o = sizes[depth + 1] - 1;
        seq![b] + flat_squares(sizes, side, depth + 1, iw, x1, y1, x1 + o, y1 + o) + flat_squares(
            sizes,
            side,
            depth + 1,
            iw,
            x2 - o,
            y1,
            x2,
            y1 + o,
        ) + flat_squares(sizes, side, depth + 1, iw, x2 - o, y2 - o, x2, y2) + flat_squares(
            sizes,
            side,
            depth + 1,
            iw,
            x1,
            y2 - o,
            x1 + o,
            y2,
        )
    } else {
        seq![b]
    }
}

impl Carpet {
    /// The squares drawn by `flat_square` from `(x1, y1)`-`(x2, y2)` at `depth`.
    pub open spec fn flat_boxes(&self, depth: int, in_wedge: bool, x1: int, y1: int, x2: int, y2: int) -> Seq<
        (int, int, int, int),
    > {
        flat_squares(self.square_sizes@, self.size as int, depth, in_wedge, x1, y1, x2, y2)
    }

    /// The count of cell `(x, y)` in the flat cell list.
    pub open spec fn flat_cell(&self, x: int, y: int) -> int {
        self.cells@[y * self.size + x] as int
    }

    /// Each cell of the flat list grew by the borders of `boxes` through it; the list past the
    /// grid's cells stays.
    pub open spec fn flat_grew_by(&self, before: &Self, boxes: Seq<(int, int, int, int)>) -> bool {
        &&& self.cells@.len() == before.cells@.len()
        &&& forall|x: int, y: int|
            0 <= x < self.size && 0 <= y < self.size ==> #[trigger] self.flat_cell(x, y) == before.flat_cell(x, y)
                + border_total(boxes, x, y)
        &&& forall|i: int|
            self.size * self.size <= i < self.cells@.len() ==> #[trigger] self.cells@[i] == before.cells@[i]
    }

    /// No flat count would pass `usize::MAX` by adding the borders of `boxes`.
    pub open spec fn flat_room_for(&self, boxes: Seq<(int, int, int, int)>) -> bool {
        forall|x: int, y: int|
            0 <= x < self.size && 0 <= y < self.size ==> #[trigger] self.flat_cell(x, y) + border_total(boxes, x, y)
                <= usize::MAX
    }

    /// Adds one to each cell of the top and bottom rows and of the left and right columns of
    /// the box, a cell as often as it lies on them.
    #[verifier::rlimit(40)]
    fn draw_border(&mut self, x1: usize, y1: usize, x2: usize, y2: usize)
        requires
            old(self).wf(),
            old(self).cells@.len() >= old(self).size * old(self).size,
            x1 <= x2 < old(self).size,
            y1 <= y2 < old(self).size,
            old(self).flat_room_for(seq![(x1 as int, y1 as int, x2 as int, y2 as int)]),
        ensures
            final(self).wf(),
            final(self).same_frame(old(self)),
            final(self).grid == old(self).grid,
            final(self).flat_grew_by(old(self), seq![(x1 as int, y1 as int, x2 as int, y2 as int)]),
    {
        let ghost b = (x1 as int, y1 as int, x2 as int, y2 as int);
        let ghost n = self.size as int;
        let size = self.size;
        proof {
            assert forall|x: int, y: int| #[trigger] border_total(seq![b], x, y) == border_count(b, x, y) by {
                lemma_border_total_single(b, x, y);
            }
        }
        // Top and bottom of the square.
        let mut x = x1;
        while x <= x2
            invariant
                self.wf(),
                self.same_frame(old(self)),
                self.grid == old(self).grid,
                self.cells@.len() == old(self).cells@.len(),
                n == self.size,
                size == self.size,
                n * n <= self.cells@.len(),
                b == (x1 as int, y1 as int, x2 as int, y2 as int),
                x1 <= x2 < n,
                y1 <= y2 < n,
                x1 <= x <= x2 + 1,
                forall|x: int, y: int| #[trigger] border_total(seq![b], x, y) == border_count(b, x, y),
                old(self).flat_room_for(seq![b]),
                forall|cx: int, cy: int|
                    0 <= cx < n && 0 <= cy < n ==> #[trigger] self.flat_cell(cx, cy) == old(self).flat_cell(cx, cy)
                        + indicator(cy == y1 && x1 <= cx < x) + indicator(cy == y2 && x1 <= cx < x),
                forall|i: int| n * n <= i < self.cells@.len() ==> #[trigger] self.cells@[i] == old(self).cells@[i],
            decreases x2 + 1 - x,
        {
            proof {
                lemma_node_coords(n, n, x as int, y1 as int);
                lemma_node_coords(n, n, x as int, y2 as int);
                assert(old(self).flat_cell(x as int, y1 as int) + border_total(seq![b], x as int, y1 as int)
                    <= usize::MAX);
                assert(old(self).flat_cell(x as int, y2 as int) + border_total(seq![b], x as int, y2 as int)
                    <= usize::MAX);
            }
            let ghost pre = *self;
            let top = (y1 * size) + x;
            proof {
                assert(self.flat_cell(x as int, y1 as int) == old(self).flat_cell(x as int, y1 as int));
                assert(self.cells@[top as int] == self.flat_cell(x as int, y1 as int));
                assert(border_count(b, x as int, y1 as int) >= 1 + indicator(y1 == y2));
            }
            self.cells[top] += 1;
            let bottom = (y2 * size) + x;
            proof {
                if y1 != y2 {
                    assert(pre.flat_cell(x as int, y2 as int) == old(self).flat_cell(x as int, y2 as int));
                }
                assert(self.cells@[bottom as int] == old(self).flat_cell(x as int, y2 as int) + indicator(y1
                    == y2));
                assert(border_count(b, x as int, y2 as int) >= 1 + indicator(y1 == y2));
            }
            self.cells[bottom] += 1;
            proof {
                assert forall|cx: int, cy: int| 0 <= cx < n && 0 <= cy < n implies #[trigger] self.flat_cell(cx, cy)
                    == old(self).flat_cell(cx, cy) + indicator(cy == y1 && x1 <= cx < x + 1) + indicator(cy
                    == y2 && x1 <= cx < x + 1) by {
                    lemma_node_coords(n, n, cx, cy);
                    assert(pre.flat_cell(cx, cy) == old(self).flat_cell(cx, cy) + indicator(cy == y1 && x1 <= cx
                        < x) + indicator(cy == y2 && x1 <= cx < x));
                }
            }
            x += 1;
        }
        // Left and right edges of the square.
        let mut y = y1;
        while y <= y2
            invariant
                self.wf(),
                self.same_frame(old(self)),
                self.grid == old(self).grid,
                self.cells@.len() == old(self).cells@.len(),
                n == self.size,
                size == self.size,
                n * n <= self.cells@.len(),
                b == (x1 as int, y1 as int, x2 as int, y2 as int),
                x1 <= x2 < n,
                y1 <= y2 < n,
                y1 <= y <= y2 + 1,
                forall|x: int, y: int| #[trigger] border_total(seq![b], x, y) == border_count(b, x, y),
                old(self).flat_room_for(seq![b]),
                forall|cx: int, cy: int|
                    0 <= cx < n && 0 <= cy < n ==> #[trigger] self.flat_cell(cx, cy) == old(self).flat_cell(cx, cy)
                        + indicator(cy == y1 && x1 <= cx <= x2) + indicator(cy == y2 && x1 <= cx <= x2)
                        + indicator(cx == x1 && y1 <= cy < y) + indicator(cx == x2 && y1 <= cy < y),
                forall|i: int| n * n <= i < self.cells@.len() ==> #[trigger] self.cells@[i] == old(self).cells@[i],
            decreases y2 + 1 - y,
        {
            proof {
                lemma_node_coords(n, n, x1 as int, y as int);
                lemma_node_coords(n, n, x2 as int, y as int);
                assert(old(self).flat_cell(x1 as int, y as int) + border_total(seq![b], x1 as int, y as int)
                    <= usize::MAX);
                assert(old(self).flat_cell(x2 as int, y as int) + border_total(seq![b], x2 as int, y as int)
                    <= usize::MAX);
            }
            let ghost pre = *self;
            let left = (y * size) + x1;
            proof {
                assert(self.flat_cell(x1 as int, y as int) == old(self).flat_cell(x1 as int, y as int) + indicator(
                    y == y1,
                ) + indicator(y == y2));
                assert(self.cells@[left as int] == self.flat_cell(x1 as int, y as int));
                assert(border_count(b, x1 as int, y as int) >= 1 + indicator(y == y1) + indicator(y == y2)
                    + indicator(x1 == x2));
            }
            self.cells[left] += 1;
            let right = (y * size) + x2;
            proof {
                if x1 != x2 {
                    assert(pre.flat_cell(x2 as int, y as int) == old(self).flat_cell(x2 as int, y as int) + indicator(y == y1)
                        + indicator(y == y2));
                }
                assert(self.cells@[right as int] == old(self).flat_cell(x2 as int, y as int) + indicator(y == y1)
                    + indicator(y == y2) + indicator(x1 == x2));
                assert(border_count(b, x2 as int, y as int) >= 1 + indicator(y == y1) + indicator(y == y2)
                    + indicator(x1 == x2));
            }
            self.cells[right] += 1;
            proof {
                assert forall|cx: int, cy: int| 0 <= cx < n && 0 <= cy < n implies #[trigger] self.flat_cell(cx, cy)
                    == old(self).flat_cell(cx, cy) + indicator(cy == y1 && x1 <= cx <= x2) + indicator(cy == y2
                    && x1 <= cx <= x2) + indicator(cx == x1 && y1 <= cy < y + 1) + indicator(cx == x2 && y1
                    <= cy < y + 1) by {
                    lemma_node_coords(n, n, cx, cy);
                    assert(pre.flat_cell(cx, cy) == old(self).flat_cell(cx, cy) + indicator(cy == y1 && x1 <= cx
                        <= x2) + indicator(cy == y2 && x1 <= cx <= x2) + indicator(cx == x1 && y1 <= cy < y)
                        + indicator(cx == x2 && y1 <= cy < y));
                }
            }
            y += 1;
        }
    }
}

/// The borders of a square and the four squares in its corners add up.
proof fn lemma_border_total_five(
    b: (int, int, int, int),
    c1: Seq<(int, int, int, int)>,
    c2: Seq<(int, int, int, int)>,
    c3: Seq<(int, int, int, int)>,
    c4: Seq<(int, int, int, int)>,
    x: int,
    y: int,
)
    ensures
        border_total(seq![b] + c1 + c2 + c3 + c4, x, y) == border_count(b, x, y) + border_total(c1, x, y)
            + border_total(c2, x, y) + border_total(c3, x, y) + border_total(c4, x, y),
        border_total(c1, x, y) >= 0,
        border_total(c2, x, y) >= 0,
        border_total(c3, x, y) >= 0,
        border_total(c4, x, y) >= 0,
{
    lemma_border_total_single(b, x, y);
    lemma_border_total_concat(seq![b], c1, x, y);
    lemma_border_total_concat(seq![b] + c1, c2, x, y);
    lemma_border_total_concat(seq![b] + c1 + c2, c3, x, y);
    lemma_border_total_concat(seq![b] + c1 + c2 + c3, c4, x, y);
    lemma_border_total_nonneg(c1, x, y);
    lemma_border_total_nonneg(c2, x, y);
    lemma_border_total_nonneg(c3, x, y);
    lemma_border_total_nonneg(c4, x, y);
}

impl Carpet {
    /// Draws the border of the square `(x1, y1)`-`(x2, y2)` at `depth`, unless it misses the
    /// wedge, then the four squares of the next size in its corners.
    #[verifier::rlimit(60)]
    fn flat_square(&mut self, depth: usize, inside_wedge: bool, x1: usize, y1: usize, x2: usize, y2: usize)
        requires
            old(self).wf(),
            old(self).size % 2 == 0,
            old(self).cells@.len() >= old(self).size * old(self).size,
            depth < usize::MAX,
            x1 <= x2 < old(self).size,
            y1 <= y2 < old(self).size,
            forall|j: int|
                depth < j < old(self).square_sizes@.len() ==> #[trigger] old(self).square_sizes@[j] - 1 <= x2 - x1
                    && old(self).square_sizes@[j] - 1 <= y2 - y1,
            old(self).flat_room_for(old(self).flat_boxes(depth as int, inside_wedge, x1 as int, y1 as int, x2 as int, y2 as int)),
        ensures
            final(self).wf(),
            final(self).same_frame(old(self)),
            final(self).grid == old(self).grid,
            final(self).flat_grew_by(
                old(self),
                old(self).flat_boxes(depth as int, inside_wedge, x1 as int, y1 as int, x2 as int, y2 as int),
            ),
        decreases old(self).square_sizes@.len() - depth,
    {
        let ghost start = *self;
        let ghost n = self.size as int;
        let ghost b = (x1 as int, y1 as int, x2 as int, y2 as int);
        let ghost all = start.flat_boxes(depth as int, inside_wedge, x1 as int, y1 as int, x2 as int, y2 as int);
        let mut inside_wedge = inside_wedge;
        if !inside_wedge {
            inside_wedge = self.grid.rectangle_inside_wedge_xy(x1, y1, x2, y2);
            if !inside_wedge {
                let intersects_wedge = self.grid.rectangle_intersects_wedge_xy(x1, y1, x2, y2);
                if !intersects_wedge {
                    proof {
                        assert(all =~= Seq::<(int, int, int, int)>::empty());
                        assert forall|x: int, y: int| 0 <= x < n && 0 <= y < n implies #[trigger] self.flat_cell(x, y)
                            == start.flat_cell(x, y) + border_total(all, x, y) by {}
                    }
                    return ;
                }
            }
        }
        let ghost iw = inside_wedge;
        let lengths_len = self.square_sizes.len();
        let next_depth = depth + 1;
        if next_depth < lengths_len {
            let offset = self.square_sizes[next_depth] - 1;
            let ghost o = offset as int;
            let ghost c1 = flat_squares(start.square_sizes@, n, next_depth as int, iw, x1 as int, y1 as int, x1 + o, y1 + o);
            let ghost c2 = flat_squares(start.square_sizes@, n, next_depth as int, iw, x2 - o, y1 as int, x2 as int, y1 + o);
            let ghost c3 = flat_squares(start.square_sizes@, n, next_depth as int, iw, x2 - o, y2 - o, x2 as int, y2 as int);
            let ghost c4 = flat_squares(start.square_sizes@, n, next_depth as int, iw, x1 as int, y2 - o, x1 + o, y2 as int);
            proof {
                assert(all == seq![b] + c1 + c2 + c3 + c4);
                assert forall|x: int, y: int| 0 <= x < n && 0 <= y < n implies #[trigger] self.flat_cell(x, y)
                    + border_total(seq![b], x, y) <= usize::MAX by {
                    lemma_border_total_five(b, c1, c2, c3, c4, x, y);
                    lemma_border_total_single(b, x, y);
                }
                assert forall|j: int| next_depth < j < start.square_sizes@.len() implies #[trigger] start.square_sizes@[j] - 1
                    <= o by {}
            }
            self.draw_border(x1, y1, x2, y2);
            let ghost s1 = *self;
            proof {
                assert forall|x: int, y: int| 0 <= x < n && 0 <= y < n implies #[trigger] self.flat_cell(x, y)
                    + border_total(c1, x, y) <= usize::MAX by {
                    lemma_border_total_five(b, c1, c2, c3, c4, x, y);
                    lemma_border_total_single(b, x, y);
                }
            }
            // Smaller square at top-left of the current square.
            self.flat_square(next_depth, inside_wedge, x1, y1, x1 + offset, y1 + offset);
            let ghost s2 = *self;
            proof {
                assert forall|x: int, y: int| 0 <= x < n && 0 <= y < n implies #[trigger] self.flat_cell(x, y)
                    + border_total(c2, x, y) <= usize::MAX by {
                    lemma_border_total_five(b, c1, c2, c3, c4, x, y);
                    lemma_border_total_single(b, x, y);
                    assert(s1.flat_cell(x, y) == start.flat_cell(x, y) + border_total(seq![b], x, y));
                }
            }
            // Smaller square at top-right of the current square.
            self.flat_square(next_depth, inside_wedge, x2 - offset, y1, x2, y1 + offset);
            let ghost s3 = *self;
            proof {
                assert forall|x: int, y: int| 0 <= x < n && 0 <= y < n implies #[trigger] self.flat_cell(x, y)
                    + border_total(c3, x, y) <= usize::MAX by {
                    lemma_border_total_five(b, c1, c2, c3, c4, x, y);
                    lemma_border_total_single(b, x, y);
                    assert(s1.flat_cell(x, y) == start.flat_cell(x, y) + border_total(seq![b], x, y));
                    assert(s2.flat_cell(x, y) == s1.flat_cell(x, y) + border_total(c1, x, y));
                }
            }
            // Smaller square at bottom-right of the current square.
            self.flat_square(next_depth, inside_wedge, x2 - offset, y2 - offset, x2, y2);
            let ghost s4 = *self;
            proof {
                assert forall|x: int, y: int| 0 <= x < n && 0 <= y < n implies #[trigger] self.flat_cell(x, y)
                    + border_total(c4, x, y) <= usize::MAX by {
                    lemma_border_total_five(b, c1, c2, c3, c4, x, y);
                    lemma_border_total_single(b, x, y);
                    assert(s1.flat_cell(x, y) == start.flat_cell(x, y) + border_total(seq![b], x, y));
                    assert(s2.flat_cell(x, y) == s1.flat_cell(x, y) + border_total(c1, x, y));
                    assert(s3.flat_cell(x, y) == s2.flat_cell(x, y) + border_total(c2, x, y));
                }
            }
            // Smaller square at bottom-left of the current square.
            self.flat_square(next_depth, inside_wedge, x1, y2 - offset, x1 + offset, y2);
            proof {
                assert forall|x: int, y: int| 0 <= x < n && 0 <= y < n implies #[trigger] self.flat_cell(x, y)
                    == start.flat_cell(x, y) + border_total(all, x, y) by {
                    lemma_border_total_five(b, c1, c2, c3, c4, x, y);
                    lemma_border_total_single(b, x, y);
                    assert(s1.flat_cell(x, y) == start.flat_cell(x, y) + border_total(seq![b], x, y));
                    assert(s2.flat_cell(x, y) == s1.flat_cell(x, y) + border_total(c1, x, y));
                    assert(s3.flat_cell(x, y) == s2.flat_cell(x, y) + border_total(c2, x, y));
                    assert(s4.flat_cell(x, y) == s3.flat_cell(x, y) + border_total(c3, x, y));
                }
                assert forall|i: int| n * n <= i < self.cells@.len() implies #[trigger] self.cells@[i]
                    == start.cells@[i] by {
                    assert(s1.cells@[i] == start.cells@[i]);
                    assert(s2.cells@[i] == s1.cells@[i]);
                    assert(s3.cells@[i] == s2.cells@[i]);
                    assert(s4.cells@[i] == s3.cells@[i]);
                }
            }
        } else {
            proof {
                assert(all == seq![b]);
            }
            self.draw_border(x1, y1, x2, y2);
        }
    }
}

/// The cells of `grid` after each grew by how many of `boxes` cover it.
pub open spec fn grown(grid: Grid<usize>, boxes: Seq<(int, int, int, int)>) -> Seq<Seq<usize>> {
    Seq::new(
        grid.height as nat,
        |y: int| Seq::new(grid.width as nat, |x: int| (grid.cell(x, y) + cover_count(boxes, x, y)) as usize),
    )
}

impl Carpet {
    /// The boxes of the sides drawn from the top-left corner, going down first.
    pub open spec fn ccw_boxes(&self) -> Seq<(int, int, int, int)> {
        self.square_boxes(Point { x: 0usize, y: 0usize }, Direction::Down, 0, false)
    }

    /// The squares drawn and the wedge checks made from the top-left corner, going down first.
    pub open spec fn ccw_count(&self) -> (nat, nat) {
        self.square_count(Point { x: 0usize, y: 0usize }, Direction::Down, 0, false)
    }

    /// The squares whose borders are drawn, from the whole carpet down.
    pub open spec fn flat_top_boxes(&self) -> Seq<(int, int, int, int)> {
        self.flat_boxes(0, false, 0, 0, self.size - 1, self.size - 1)
    }

    /// The flat cell list with a zero for every cell of the grid appended.
    pub open spec fn padded_cells(&self) -> Seq<usize> {
        self.cells@ + Seq::new((self.size * self.size) as nat, |i: int| 0usize)
    }

    /// The grid drawn square border by square border, before its completion from the wedge.
    pub open spec fn flat_drawn(&self) -> Seq<Seq<usize>> {
        Seq::new(
            self.size as nat,
            |y: int|
                Seq::new(
                    self.size as nat,
                    |x: int| (self.padded_cells()[y * self.size + x] + border_total(self.flat_top_boxes(), x, y)) as usize,
                ),
        )
    }

    /// No cell passes `usize::MAX` while the carpet is drawn by its algorithm.
    pub open spec fn room_to_draw(&self) -> bool {
        if self.algorithm == CarpetAlgorithm::FlatSquare {
            forall|x: int, y: int|
                0 <= x < self.size && 0 <= y < self.size ==> #[trigger] self.padded_cells()[y * self.size + x]
                    + border_total(self.flat_top_boxes(), x, y) <= usize::MAX
        } else {
            &&& self.room_for(self.ccw_boxes())
            &&& self.counter_room(self.ccw_boxes().len() as int, self.ccw_count())
        }
    }

    /// The algorithm can run: one that works in the wedge needs a grid of even side that does
    /// not record events.
    pub open spec fn can_go(&self) -> bool {
        self.algorithm != CarpetAlgorithm::Simple ==> self.size % 2 == 0 && !self.record_events
    }

    /// An empty carpet.
    pub fn new(
        size: usize,
        min_length: usize,
        side_lengths: Vec<usize>,
        square_sizes: Vec<usize>,
        algorithm: CarpetAlgorithm,
        record_events: bool,
    ) -> (carpet: Self)
        requires
            1 <= size,
            size * size <= usize::MAX,
            lengths_ok(side_lengths@, size as int),
            lengths_ok(square_sizes@, size as int),
            side_lengths@.len() >= 1,
        ensures
            carpet.wf(),
            carpet.size == size,
            carpet.min_length == min_length,
            carpet.side_lengths@ == side_lengths@,
            carpet.square_sizes@ == square_sizes@,
            carpet.algorithm == algorithm,
            carpet.record_events == record_events,
            carpet.cells@.len() == 0,
            carpet.grid.events@.len() == 0,
            carpet.count_square == 0,
            carpet.count_side == 0,
            carpet.count_touch_rect == 0,
            carpet.count_check_square_in_wedge == 0,
            forall|x: int, y: int| 0 <= x < size && 0 <= y < size ==> #[trigger] carpet.grid.cell(x, y) == 0,
    {
        let mut grid = Grid::new(size, size, 0);
        let ghost fresh = grid;
        grid.record_events = record_events;
        proof {
            assert forall|x: int, y: int| 0 <= x < size && 0 <= y < size implies #[trigger] grid.cell(x, y) == 0 by {
                assert(fresh.cell(x, y) == 0);
                assert(grid.cells() == fresh.cells());
            }
        }
        Self {
            size,
            min_length,
            side_lengths,
            square_sizes,
            algorithm,
            record_events,
            grid,
            cells: Vec::new(),
            count_square: 0,
            count_side: 0,
            count_touch_rect: 0,
            count_check_square_in_wedge: 0,
        }
    }

    /// Draws the carpet by its algorithm.
    pub fn go(&mut self)
        requires
            old(self).wf(),
            old(self).can_go(),
            old(self).room_to_draw(),
        ensures
            final(self).wf(),
            final(self).same_setup(old(self)),
            old(self).algorithm == CarpetAlgorithm::FlatSquare ==> final(self).same_frame(old(self)),
            old(self).algorithm != CarpetAlgorithm::FlatSquare ==> final(self).counted(
                old(self),
                old(self).ccw_boxes().len() as int,
                old(self).ccw_count(),
            ),
            old(self).algorithm != CarpetAlgorithm::FlatSquare ==> final(self).events_drawn(old(self), old(self).ccw_boxes()),
            old(self).algorithm == CarpetAlgorithm::Simple ==> final(self).grew_by(old(self), old(self).ccw_boxes()),
            old(self).algorithm == CarpetAlgorithm::Wedge ==> forall|x: int, y: int|
                0 <= x < old(self).size && 0 <= y < old(self).size ==> #[trigger] final(self).grid.cell(x, y)
                    == completed_from_wedge(grown(old(self).grid, old(self).ccw_boxes()), old(self).size as int, x, y),
            old(self).algorithm == CarpetAlgorithm::FlatSquare ==> forall|x: int, y: int|
                0 <= x < old(self).size && 0 <= y < old(self).size ==> #[trigger] final(self).grid.cell(x, y)
                    == completed_from_wedge(old(self).flat_drawn(), old(self).size as int, x, y),
    {
        match self.algorithm {
            CarpetAlgorithm::Simple | CarpetAlgorithm::Wedge => self.go_ccw(),
            CarpetAlgorithm::FlatSquare => self.go_flat_square(),
        }
    }

    /// Draws a square around the edges of the carpet, starting at the top left and going down
    /// the left edge; each side ends in a smaller square.
    fn go_ccw(&mut self)
        requires
            old(self).wf(),
            old(self).algorithm != CarpetAlgorithm::FlatSquare,
            old(self).can_go(),
            old(self).room_for(old(self).ccw_boxes()),
            old(self).counter_room(old(self).ccw_boxes().len() as int, old(self).ccw_count()),
        ensures
            final(self).wf(),
            final(self).same_setup(old(self)),
            final(self).counted(old(self), old(self).ccw_boxes().len() as int, old(self).ccw_count()),
            final(self).events_drawn(old(self), old(self).ccw_boxes()),
            old(self).algorithm == CarpetAlgorithm::Simple ==> final(self).grew_by(old(self), old(self).ccw_boxes()),
            old(self).algorithm == CarpetAlgorithm::Wedge ==> forall|x: int, y: int|
                0 <= x < old(self).size && 0 <= y < old(self).size ==> #[trigger] final(self).grid.cell(x, y)
                    == completed_from_wedge(grown(old(self).grid, old(self).ccw_boxes()), old(self).size as int, x, y),
    {
        let coord = GridCoord::new(0, 0);
        let direction = Direction::Down;
        self.square(coord, direction, 0, false);
        if self.algorithm == CarpetAlgorithm::Wedge {
            let ghost drawn = self.grid;
            proof {
                let g = grown(old(self).grid, old(self).ccw_boxes());
                assert forall|r: int| 0 <= r < self.size implies #[trigger] drawn.cells()[r] =~= g[r] by {
                    assert forall|c: int| 0 <= c < self.size implies drawn.cells()[r][c] == g[r][c] by {
                        assert(drawn.cell(c, r) == old(self).grid.cell(c, r) + cover_count(old(self).ccw_boxes(), c, r));
                    }
                }
                assert(drawn.cells() =~= g);
            }
            self.grid.complete_from_wedge();
        }
    }

    /// Draws the border of the whole carpet, then four smaller squares within it, and so on,
    /// in a flat list of counts; copies the counts to the grid and completes it from the wedge.
    fn go_flat_square(&mut self)
        requires
            old(self).wf(),
            old(self).algorithm == CarpetAlgorithm::FlatSquare,
            old(self).can_go(),
            old(self).room_to_draw(),
        ensures
            final(self).wf(),
            final(self).same_frame(old(self)),
            forall|x: int, y: int|
                0 <= x < old(self).size && 0 <= y < old(self).size ==> #[trigger] final(self).grid.cell(x, y)
                    == completed_from_wedge(old(self).flat_drawn(), old(self).size as int, x, y),
    {
        let ghost start = *self;
        let ghost n = self.size as int;
        let size = self.size;
        let cell_count = size * size;
        for _i in 0..cell_count
            invariant
                self.wf(),
                self.same_frame(&start),
                self.grid == start.grid,
                cell_count == n * n,
                n == start.size,
                self.cells@ == start.padded_cells().take(start.cells@.len() + _i),
        {
            self.cells.push(0);
            proof {
                assert(self.cells@ =~= start.padded_cells().take(start.cells@.len() + _i + 1));
            }
        }
        proof {
            assert(self.cells@ =~= start.padded_cells());
            assert(self.flat_top_boxes() == start.flat_top_boxes());
            assert forall|j: int| 0 < j < self.square_sizes@.len() implies #[trigger] self.square_sizes@[j] - 1 <= (
            size - 1) - 0 && self.square_sizes@[j] - 1 <= (size - 1) - 0 by {}
        }
        self.flat_square(0, false, 0, 0, size - 1, size - 1);
        let ghost flat = *self;
        for y in 0..size
            invariant
                self.wf(),
                self.same_frame(&start),
                !self.record_events,
                self.cells == flat.cells,
                flat.cells@.len() >= n * n,
                n == start.size,
                size == n,
                forall|cx: int, cy: int|
                    0 <= cx < n && 0 <= cy < y ==> #[trigger] self.grid.cell(cx, cy) == flat.cells@[cy * n + cx],
        {
            for x in 0..size
                invariant
                    self.wf(),
                    self.same_frame(&start),
                    !self.record_events,
                    self.cells == flat.cells,
                    flat.cells@.len() >= n * n,
                    n == start.size,
                    size == n,
                    y < n,
                    forall|cx: int, cy: int|
                        0 <= cx < n && 0 <= cy < n && (cy < y || (cy == y && cx < x)) ==> #[trigger] self.grid.cell(
                            cx,
                            cy,
                        ) == flat.cells@[cy * n + cx],
            {
                proof {
                    lemma_node_coords(n, n, x as int, y as int);
                }
                let v = self.cells[(y * size) + x];
                self.grid.set_xy(x, y, v);
            }
        }
        let ghost copied = self.grid;
        proof {
            let g = start.flat_drawn();
            assert forall|r: int| 0 <= r < n implies #[trigger] copied.cells()[r] =~= g[r] by {
                assert forall|c: int| 0 <= c < n implies copied.cells()[r][c] == g[r][c] by {
                    assert(copied.cell(c, r) == flat.cells@[r * n + c]);
                    assert(flat.flat_cell(c, r) == start.padded_cells()[r * n + c] + border_total(
                        start.flat_top_boxes(),
                        c,
                        r,
                    ));
                }
            }
            assert(copied.cells() =~= g);
        }
        self.grid.complete_from_wedge();
    }
}

/// No cell count, nor any counter of the squares, sides, touched boxes and wedge checks, passes
/// `usize::MAX` while a carpet of zeros is drawn.
pub open spec fn fresh_room(size: int, side_lengths: Seq<usize>, square_sizes: Seq<usize>, algorithm: CarpetAlgorithm) -> bool {
    if algorithm == CarpetAlgorithm::FlatSquare {
        forall|x: int, y: int|
            0 <= x < size && 0 <= y < size ==> #[trigger] border_total(
                flat_squares(square_sizes, size, 0, false, 0, 0, size - 1, size - 1),
                x,
                y,
            ) <= usize::MAX
    } else {
        let boxes = square_sides(
            side_lengths,
            algorithm == CarpetAlgorithm::Wedge,
            size,
            0,
            0,
            Direction::Down,
            0,
            false,
        );
        let tally = square_tally(
            side_lengths,
            algorithm == CarpetAlgorithm::Wedge,
            size,
            0,
            0,
            Direction::Down,
            0,
            false,
        );
        &&& forall|x: int, y: int| 0 <= x < size && 0 <= y < size ==> #[trigger] cover_count(boxes, x, y) <= usize::MAX
        &&& boxes.len() <= usize::MAX
        &&& tally.0 <= usize::MAX
        &&& tally.1 <= usize::MAX
    }
}

/// A bound on the sides drawn by a square whose lengths run `m` more depths down: four sides,
/// each followed by a square one depth further.
pub open spec fn side_bound(m: int) -> int
    decreases m,
{
    if m <= 0 {
        0
    } else {
        4 * (1 + side_bound(m - 1))
    }
}

/// A bound on the borders drawn by a square whose sizes run `m` more depths down: its own,
/// then four squares one depth further.
pub open spec fn flat_bound(m: int) -> int
    decreases m,
{
    if m <= 1 {
        1
    } else {
        1 + 4 * flat_bound(m - 1)
    }
}

proof fn lemma_flat_bound_pos(m: int)
    ensures
        flat_bound(m) >= 1,
    decreases m,
{
    if m > 1 {
        lemma_flat_bound_pos(m - 1);
    }
}

/// The bound never falls as the depths grow.
proof fn lemma_flat_bound_grows(a: int, b: int)
    requires
        a <= b,
    ensures
        flat_bound(a) <= flat_bound(b),
    decreases b - a,
{
    if a < b {
        lemma_flat_bound_grows(a, b - 1);
        lemma_flat_bound_pos(b - 1);
    }
}

/// The bound never falls as the depths grow.
proof fn lemma_side_bound_grows(a: int, b: int)
    requires
        a <= b,
    ensures
        side_bound(a) <= side_bound(b),
    decreases b - a,
{
    if a < b {
        lemma_side_bound_grows(a, b - 1);
        lemma_side_bound_nonneg(b - 1);
    }
}

proof fn lemma_side_bound_nonneg(m: int)
    ensures
        side_bound(m) >= 0,
    decreases m,
{
    if m > 0 {
        lemma_side_bound_nonneg(m - 1);
    }
}

/// A square draws no more sides than the bound for its depths.
proof fn lemma_square_sides_len(
    lengths: Seq<usize>,
    wedge: bool,
    side: int,
    x: int,
    y: int,
    d: Direction,
    depth: int,
    in_wedge: bool,
)
    requires
        0 <= depth,
    ensures
        square_sides(lengths, wedge, side, x, y, d, depth, in_wedge).len() <= side_bound(lengths.len() - depth),
    decreases lengths.len() - depth, 5int,
{
    lemma_side_bound_nonneg(lengths.len() - depth);
    if depth < lengths.len() {
        let ln = lengths[depth] - 1;
        let (skipped, iw) = wedge_check(wedge, side, square_box(x, y, d, ln), in_wedge);
        if !skipped {
            lemma_first_sides_len(lengths, wedge, side, x, y, d, depth, iw, 4);
        }
    }
}

/// The first `k` sides of a square, each with the square at its end, stay within `k` times
/// one side and the bound one depth further.
proof fn lemma_first_sides_len(
    lengths: Seq<usize>,
    wedge: bool,
    side: int,
    x: int,
    y: int,
    d: Direction,
    depth: int,
    in_wedge: bool,
    k: int,
)
    requires
        0 <= depth < lengths.len(),
        0 <= k <= 4,
    ensures
        first_sides(lengths, wedge, side, x, y, d, depth, in_wedge, k).len() <= k * (1 + side_bound(
            lengths.len() - depth - 1,
        )),
    decreases lengths.len() - depth, k,
{
    let c = 1 + side_bound(lengths.len() - depth - 1);
    lemma_side_bound_nonneg(lengths.len() - depth - 1);
    if k > 0 {
        lemma_first_sides_len(lengths, wedge, side, x, y, d, depth, in_wedge, k - 1);
        let ln = lengths[depth] - 1;
        let (sx, sy) = corner(x, y, d, ln, (k - 1) as nat);
        let sd = turned_times(d, (k - 1) as nat);
        let (ex, ey) = side_end(sx, sy, sd, ln);
        let prev = first_sides(lengths, wedge, side, x, y, d, depth, in_wedge, k - 1);
        let tail = if depth + 1 < lengths.len() {
            square_sides(lengths, wedge, side, ex, ey, sd.turned(), depth + 1, in_wedge)
        } else {
            Seq::empty()
        };
        assert(first_sides(lengths, wedge, side, x, y, d, depth, in_wedge, k) == prev + seq![span(sx, sy, ex, ey)]
            + tail);
        if depth + 1 < lengths.len() {
            lemma_square_sides_len(lengths, wedge, side, ex, ey, sd.turned(), depth + 1, in_wedge);
        }
        assert(tail.len() <= c - 1);
        assert((k - 1) * c + c == k * c) by (nonlinear_arith);
    } else {
        assert(k * c == 0) by (nonlinear_arith)
            requires
                k == 0,
        ;
    }
}

/// A square's tally: none drawn when it is skipped, else itself and those at the ends of its
/// sides; one check more when it is checked.
proof fn lemma_square_tally_unfold(
    lengths: Seq<usize>,
    wedge: bool,
    side: int,
    x: int,
    y: int,
    d: Direction,
    depth: int,
    in_wedge: bool,
)
    requires
        0 <= depth < lengths.len(),
    ensures
        ({
            let checked: nat = if wedge && !in_wedge {
                1
            } else {
                0
            };
            let (skipped, iw) = wedge_check(wedge, side, square_box(x, y, d, lengths[depth] - 1), in_wedge);
            square_tally(lengths, wedge, side, x, y, d, depth, in_wedge) == if skipped {
                (0nat, checked)
            } else {
                let t = first_tally(lengths, wedge, side, x, y, d, depth, iw, 4);
                (t.0 + 1, t.1 + checked)
            }
        }),
{
    reveal(square_tally);
    reveal(first_tally);
}

/// The tally of the first `k + 1` sides adds that of the square at the end of side `k`.
proof fn lemma_first_tally_step(
    lengths: Seq<usize>,
    wedge: bool,
    side: int,
    x: int,
    y: int,
    d: Direction,
    depth: int,
    in_wedge: bool,
    k: int,
)
    requires
        0 <= depth < lengths.len(),
        0 <= k < 4,
    ensures
        ({
            let ln = lengths[depth] - 1;
            let (sx, sy) = corner(x, y, d, ln, k as nat);
            let sd = turned_times(d, k as nat);
            let (ex, ey) = side_end(sx, sy, sd, ln);
            let before = first_tally(lengths, wedge, side, x, y, d, depth, in_wedge, k);
            let child = if depth + 1 < lengths.len() {
                square_tally(lengths, wedge, side, ex, ey, sd.turned(), depth + 1, in_wedge)
            } else {
                (0nat, 0nat)
            };
            first_tally(lengths, wedge, side, x, y, d, depth, in_wedge, k + 1) == (
                before.0 + child.0,
                before.1 + child.1,
            )
        }),
        first_tally(lengths, wedge, side, x, y, d, depth, in_wedge, 0) == (0nat, 0nat),
{
    reveal(square_tally);
    reveal(first_tally);
}

/// A square draws and checks no more squares than the side bound for its depths.
proof fn lemma_square_tally_le(
    lengths: Seq<usize>,
    wedge: bool,
    side: int,
    x: int,
    y: int,
    d: Direction,
    depth: int,
    in_wedge: bool,
)
    requires
        0 <= depth,
    ensures
        square_tally(lengths, wedge, side, x, y, d, depth, in_wedge).0 <= side_bound(lengths.len() - depth),
        square_tally(lengths, wedge, side, x, y, d, depth, in_wedge).1 <= side_bound(lengths.len() - depth),
    decreases lengths.len() - depth, 5int,
{
    reveal(square_tally);
    reveal(first_tally);
    lemma_side_bound_nonneg(lengths.len() - depth);
    if depth < lengths.len() {
        let ln = lengths[depth] - 1;
        let (skipped, iw) = wedge_check(wedge, side, square_box(x, y, d, ln), in_wedge);
        lemma_side_bound_nonneg(lengths.len() - depth - 1);
        assert(side_bound(lengths.len() - depth) == 4 * (1 + side_bound(lengths.len() - depth - 1)));
        if !skipped {
            lemma_first_tally_le(lengths, wedge, side, x, y, d, depth, iw, 4);
        }
    }
}

/// The squares at the ends of the first `k` sides draw and check no more than `k` times the
/// side bound one depth further.
proof fn lemma_first_tally_le(
    lengths: Seq<usize>,
    wedge: bool,
    side: int,
    x: int,
    y: int,
    d: Direction,
    depth: int,
    in_wedge: bool,
    k: int,
)
    requires
        0 <= depth < lengths.len(),
        0 <= k <= 4,
    ensures
        first_tally(lengths, wedge, side, x, y, d, depth, in_wedge, k).0 <= k * side_bound(
            lengths.len() - depth - 1,
        ),
        first_tally(lengths, wedge, side, x, y, d, depth, in_wedge, k).1 <= k * side_bound(
            lengths.len() - depth - 1,
        ),
    decreases lengths.len() - depth, k,
{
    reveal(square_tally);
    reveal(first_tally);
    let c = side_bound(lengths.len() - depth - 1);
    lemma_side_bound_nonneg(lengths.len() - depth - 1);
    if k > 0 {
        lemma_first_tally_le(lengths, wedge, side, x, y, d, depth, in_wedge, k - 1);
        let ln = lengths[depth] - 1;
        let (sx, sy) = corner(x, y, d, ln, (k - 1) as nat);
        let sd = turned_times(d, (k - 1) as nat);
        let (ex, ey) = side_end(sx, sy, sd, ln);
        if depth + 1 < lengths.len() {
            lemma_square_tally_le(lengths, wedge, side, ex, ey, sd.turned(), depth + 1, in_wedge);
        } else {
            assert(c == 0);
        }
        assert((k - 1) * c + c == k * c) by (nonlinear_arith);
    } else {
        assert(k * c == 0) by (nonlinear_arith)
            requires
                k == 0,
        ;
    }
}

/// A square draws no more borders than the bound for its depths.
proof fn lemma_flat_squares_len(
    sizes: Seq<usize>,
    side: int,
    depth: int,
    in_wedge: bool,
    x1: int,
    y1: int,
    x2: int,
    y2: int,
)
    requires
        0 <= depth,
    ensures
        flat_squares(sizes, side, depth, in_wedge, x1, y1, x2, y2).len() <= flat_bound(sizes.len() - depth),
    decreases sizes.len() - depth,
{
    let b = (x1, y1, x2, y2);
    let (skipped, iw) = wedge_check(true, side, b, in_wedge);
    lemma_flat_bound_pos(sizes.len() - depth);
    if !skipped && depth + 1 < sizes.len() {
        let o = sizes[depth + 1] - 1;
        let q1 = flat_squares(sizes, side, depth + 1, iw, x1, y1, x1 + o, y1 + o);
        let q2 = flat_squares(sizes, side, depth + 1, iw, x2 - o, y1, x2, y1 + o);
        let q3 = flat_squares(sizes, side, depth + 1, iw, x2 - o, y2 - o, x2, y2);
        let q4 = flat_squares(sizes, side, depth + 1, iw, x1, y2 - o, x1 + o, y2);
        assert(flat_squares(sizes, side, depth, in_wedge, x1, y1, x2, y2) == seq![b] + q1 + q2 + q3 + q4);
        lemma_flat_squares_len(sizes, side, depth + 1, iw, x1, y1, x1 + o, y1 + o);
        lemma_flat_squares_len(sizes, side, depth + 1, iw, x2 - o, y1, x2, y1 + o);
        lemma_flat_squares_len(sizes, side, depth + 1, iw, x2 - o, y2 - o, x2, y2);
        lemma_flat_squares_len(sizes, side, depth + 1, iw, x1, y2 - o, x1 + o, y2);
    }
}

/// No more boxes cover a cell than there are boxes.
proof fn lemma_cover_count_le(boxes: Seq<(int, int, int, int)>, x: int, y: int)
    ensures
        cover_count(boxes, x, y) <= boxes.len(),
    decreases boxes.len(),
{
    if boxes.len() > 0 {
        lemma_cover_count_le(boxes.drop_last(), x, y);
    }
}

/// Each border adds at most four to a cell.
proof fn lemma_border_total_le(boxes: Seq<(int, int, int, int)>, x: int, y: int)
    ensures
        border_total(boxes, x, y) <= 4 * boxes.len(),
    decreases boxes.len(),
{
    if boxes.len() > 0 {
        lemma_border_total_le(boxes.drop_last(), x, y);
    }
}

/// Whether the counts of a carpet drawn by `algorithm` with these lengths are sure to fit a
/// `usize`: true when even a cell under every side, or on every border, of every square would
/// keep its count within `usize::MAX`.
pub fn counts_fit(side_lengths: &Vec<usize>, square_sizes: &Vec<usize>, algorithm: CarpetAlgorithm) -> (fit: bool)
    ensures
        fit == if algorithm == CarpetAlgorithm::FlatSquare {
            4 * flat_bound(square_sizes@.len() as int) <= usize::MAX
        } else {
            side_bound(side_lengths@.len() as int) <= usize::MAX
        },
        fit ==> forall|size: int| #[trigger] fresh_room(size, side_lengths@, square_sizes@, algorithm),
{
    let is_flat = match algorithm {
        CarpetAlgorithm::FlatSquare => true,
        _ => false,
    };
    if is_flat {
        // flat_bound(m) for m = the number of sizes, times four.
        let mut bound: usize = 1;
        let mut m: usize = 1;
        while m < square_sizes.len()
            invariant
                1 <= m,
                m <= square_sizes@.len() || m == 1,
                algorithm == CarpetAlgorithm::FlatSquare,
                bound == flat_bound(m as int),
            decreases square_sizes@.len() - m,
        {
            proof {
                lemma_flat_bound_grows(m + 1, square_sizes@.len() as int);
                lemma_flat_bound_pos(m as int);
                assert(flat_bound(m + 1) == 1 + 4 * flat_bound(m as int));
            }
            match bound.checked_mul(4) {
                Some(times) => match times.checked_add(1) {
                    Some(next) => {
                        bound = next;
                    },
                    None => {
                        return false;
                    },
                },
                None => {
                    return false;
                },
            }
            m = m + 1;
        }
        proof {
            if square_sizes@.len() <= 1 {
                assert(flat_bound(square_sizes@.len() as int) == 1);
                assert(flat_bound(m as int) == 1);
            }
        }
        match bound.checked_mul(4) {
            Some(_) => {},
            None => {
                return false;
            },
        }
        proof {
            let n = square_sizes@.len() as int;
            assert(flat_bound(n) <= flat_bound(m as int)) by {
                if n <= 1 {
                    assert(flat_bound(n) == 1);
                }
            }
            assert forall|size: int| #[trigger] fresh_room(size, side_lengths@, square_sizes@, algorithm) by {
                let boxes = flat_squares(square_sizes@, size, 0, false, 0, 0, size - 1, size - 1);
                lemma_flat_squares_len(square_sizes@, size, 0, false, 0, 0, size - 1, size - 1);
                assert forall|x: int, y: int| 0 <= x < size && 0 <= y < size implies #[trigger] border_total(
                    boxes,
                    x,
                    y,
                ) <= usize::MAX by {
                    lemma_border_total_le(boxes, x, y);
                }
            }
        }
        true
    } else {
        // side_bound(m) for m = the number of lengths.
        let mut bound: usize = 0;
        let mut m: usize = 0;
        while m < side_lengths.len()
            invariant
                m <= side_lengths@.len(),
                bound == side_bound(m as int),
                algorithm != CarpetAlgorithm::FlatSquare,
            decreases side_lengths@.len() - m,
        {
            proof {
                lemma_side_bound_grows(m + 1, side_lengths@.len() as int);
                lemma_side_bound_nonneg(m as int);
                assert(side_bound(m + 1) == 4 * (1 + side_bound(m as int)));
            }
            match bound.checked_add(1) {
                Some(more) => match more.checked_mul(4) {
                    Some(next) => {
                        bound = next;
                    },
                    None => {
                        return false;
                    },
                },
                None => {
                    return false;
                },
            }
            m = m + 1;
        }
        proof {
            assert forall|size: int| #[trigger] fresh_room(size, side_lengths@, square_sizes@, algorithm) by {
                let boxes = square_sides(
                    side_lengths@,
                    algorithm == CarpetAlgorithm::Wedge,
                    size,
                    0,
                    0,
                    Direction::Down,
                    0,
                    false,
                );
                lemma_square_sides_len(side_lengths@, algorithm == CarpetAlgorithm::Wedge, size, 0, 0, Direction::Down, 0, false);
                lemma_square_tally_le(side_lengths@, algorithm == CarpetAlgorithm::Wedge, size, 0, 0, Direction::Down, 0, false);
                assert forall|x: int, y: int| 0 <= x < size && 0 <= y < size implies #[trigger] cover_count(
                    boxes,
                    x,
                    y,
                ) <= usize::MAX by {
                    lemma_cover_count_le(boxes, x, y);
                }
            }
        }
        true
    }
}

/// Builds and draws a carpet that does not record events.
pub fn create_one(
    size: usize,
    min_length: usize,
    side_lengths: Vec<usize>,
    square_sizes: Vec<usize>,
    algorithm: CarpetAlgorithm,
) -> (carpet: Carpet)
    requires
        1 <= size,
        size * size <= usize::MAX,
        lengths_ok(side_lengths@, size as int),
        lengths_ok(square_sizes@, size as int),
        side_lengths@.len() >= 1,
        algorithm != CarpetAlgorithm::Simple ==> size % 2 == 0,
        fresh_room(size as int, side_lengths@, square_sizes@, algorithm),
    ensures
        carpet.wf(),
        carpet.size == size,
        carpet.min_length == min_length,
        carpet.side_lengths@ == side_lengths@,
        carpet.square_sizes@ == square_sizes@,
        carpet.algorithm == algorithm,
        !carpet.record_events,
        carpet.grid.events@.len() == 0,
        algorithm == CarpetAlgorithm::FlatSquare ==> carpet.count_square == 0 && carpet.count_side == 0
            && carpet.count_touch_rect == 0 && carpet.count_check_square_in_wedge == 0,
        algorithm != CarpetAlgorithm::FlatSquare ==> {
            &&& carpet.count_square == carpet.ccw_count().0
            &&& carpet.count_side == carpet.ccw_boxes().len()
            &&& carpet.count_touch_rect == carpet.ccw_boxes().len()
            &&& carpet.count_check_square_in_wedge == carpet.ccw_count().1
        },
        forall|x: int, y: int|
            0 <= x < size && 0 <= y < size ==> #[trigger] carpet.grid.cell(x, y) == match algorithm {
                CarpetAlgorithm::Simple => cover_grid(size as int, carpet.ccw_boxes())[y][x],
                CarpetAlgorithm::Wedge => completed_from_wedge(
                    cover_grid(size as int, carpet.ccw_boxes()),
                    size as int,
                    x,
                    y,
                ),
                CarpetAlgorithm::FlatSquare => completed_from_wedge(
                    border_grid(size as int, carpet.flat_top_boxes()),
                    size as int,
                    x,
                    y,
                ),
            },
{
    let record_events = false;
    let mut carpet = Carpet::new(size, min_length, side_lengths, square_sizes, algorithm, record_events);
    let ghost fresh = carpet;
    proof {
        if algorithm == CarpetAlgorithm::FlatSquare {
            assert forall|x: int, y: int| 0 <= x < size && 0 <= y < size implies #[trigger] carpet.padded_cells()[y
                * size + x] + border_total(carpet.flat_top_boxes(), x, y) <= usize::MAX by {
                lemma_node_coords(size as int, size as int, x, y);
                assert(carpet.padded_cells()[y * size + x] == 0);
            }
        }
    }
    carpet.go();
    proof {
        let n = size as int;
        if algorithm == CarpetAlgorithm::FlatSquare {
            assert(fresh.flat_drawn() =~= border_grid(n, fresh.flat_top_boxes())) by {
                assert forall|y: int| 0 <= y < n implies #[trigger] fresh.flat_drawn()[y] =~= border_grid(
                    n,
                    fresh.flat_top_boxes(),
                )[y] by {
                    assert forall|x: int| 0 <= x < n implies fresh.flat_drawn()[y][x] == border_grid(
                        n,
                        fresh.flat_top_boxes(),
                    )[y][x] by {
                        lemma_node_coords(n, n, x, y);
                        assert(fresh.padded_cells()[y * size + x] == 0);
                    }
                }
            }
        } else {
            assert(grown(fresh.grid, fresh.ccw_boxes()) =~= cover_grid(n, fresh.ccw_boxes())) by {
                assert forall|y: int| 0 <= y < n implies #[trigger] grown(fresh.grid, fresh.ccw_boxes())[y] =~= cover_grid(
                    n,
                    fresh.ccw_boxes(),
                )[y] by {
                    assert forall|x: int| 0 <= x < n implies grown(fresh.grid, fresh.ccw_boxes())[y][x] == cover_grid(
                        n,
                        fresh.ccw_boxes(),
                    )[y][x] by {
                        assert(fresh.grid.cell(x, y) == 0);
                    }
                }
            }
            if algorithm == CarpetAlgorithm::Simple {
                assert forall|x: int, y: int| 0 <= x < n && 0 <= y < n implies #[trigger] carpet.grid.cell(x, y)
                    == cover_grid(n, carpet.ccw_boxes())[y][x] by {
                    assert(fresh.grid.cell(x, y) == 0);
                }
            }
        }
    }
    carpet
}

/// The grid of how many of the boxes cover each cell of a `size` by `size` grid.
pub open spec fn cover_grid(size: int, boxes: Seq<(int, int, int, int)>) -> Seq<Seq<usize>> {
    Seq::new(size as nat, |y: int| Seq::new(size as nat, |x: int| cover_count(boxes, x, y) as usize))
}

/// The grid of how many borders of the boxes pass through each cell of a `size` by `size` grid.
pub open spec fn border_grid(size: int, boxes: Seq<(int, int, int, int)>) -> Seq<Seq<usize>> {
    Seq::new(size as nat, |y: int| Seq::new(size as nat, |x: int| border_total(boxes, x, y) as usize))
}

/// The character for a cell count: `'` for none, a base-36 digit up to 35, `#` beyond.
pub fn count_to_char(count: &usize) -> (c: char)
    ensures
        c == if *count == 0 {
            '\''
        } else if *count <= 9 {
            (('0' as u32) + *count) as char
        } else if *count <= 35 {
            (('a' as u32) + *count - 10) as char
        } else {
            '#'
        },
{
    if *count == 0 {
        '\''
    } else if *count <= 9 {
        let digits = "0123456789";
        proof {
            reveal_strlit("0123456789");
        }
        digits.get_char(*count)
    } else if *count <= 35 {
        let letters = "abcdefghijklmnopqrstuvwxyz";
        proof {
            reveal_strlit("abcdefghijklmnopqrstuvwxyz");
        }
        letters.get_char(*count - 10)
    } else {
        '#'
    }
}

/// A light shade for an even count, a dark one for an odd count.
pub fn count_to_char_black_white(count: &usize) -> (c: char)
    ensures
        c == if *count % 2 == 0 {
            '\u{2591}'
        } else {
            '\u{2593}'
        },
{
    if count % 2 == 0 {
        '\u{2591}'
    } else {
        '\u{2593}'
    }
}

/// `cells` has `n` rows of `n` values.
pub open spec fn shaped_like<T>(cells: Seq<Seq<T>>, n: int) -> bool {
    &&& cells.len() == n
    &&& forall|r: int| 0 <= r < n ==> #[trigger] cells[r].len() == n
}

} // verus!
