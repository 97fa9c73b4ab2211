//! A rectangular grid of values stored row by row, with the edits it can record as events and
//! the reflections used to complete a symmetric picture from one wedge.
use vstd::prelude::*;
use crate::random::random_below;

verus! {

/// A point on a grid.
#[derive(Clone, Copy)]
pub struct Point<T> {
    pub x: T,
    pub y: T,
}

pub type GridCoord = Point<usize>;

impl Point<usize> {
    pub fn new(x: usize, y: usize) -> (p: Self)
        ensures
            p.x == x,
            p.y == y,
    {
        Point { x, y }
    }

    /// Reorders two corners so that the first is the top left and the second the bottom right
    /// of the rectangle they span.
    pub fn fix_top_left_bottom_right(a: &mut Self, b: &mut Self)
        ensures
            final(a).x == if old(a).x <= old(b).x { old(a).x } else { old(b).x },
            final(b).x == if old(a).x <= old(b).x { old(b).x } else { old(a).x },
            final(a).y == if old(a).y <= old(b).y { old(a).y } else { old(b).y },
            final(b).y == if old(a).y <= old(b).y { old(b).y } else { old(a).y },
    {
        if a.x > b.x {
            let t = a.x;
            a.x = b.x;
            b.x = t;
        }
        if a.y > b.y {
            let t = a.y;
            a.y = b.y;
            b.y = t;
        }
    }
}

/// Which cells count as the neighbors of a cell.
#[derive(Clone, Copy)]
pub enum GridNeighborType {
    /// The square of cells within `range` steps, diagonals included.
    Moore { range: usize },
    /// The cells within `range` steps along the row and the column.
    VonNeuman { range: usize },
}

/// Which edges of the grid wrap around to the opposite edge.
#[derive(Clone, Copy)]
pub enum GridWrappingStyle {
    Unwrapped,
    Horizontal,
    Vertical,
    Toroidal,
}

/// One cell of an event: the value it takes.
#[derive(Clone, Copy)]
pub struct GridEventCell<T> {
    pub coord: GridCoord,
    pub value: T,
}

/// A set of cell changes applied together.
#[derive(Clone)]
pub struct GridEvent<T> {
    pub cells: Vec<GridEventCell<T>>,
}

/// A rectangle given by its top-left and bottom-right cells, both included.
pub struct GridRectangle {
    x1: usize,
    y1: usize,
    x2: usize,
    y2: usize,
}

/// A `width` by `height` grid stored as `height` rows of `width` values.
#[derive(Clone)]
pub struct Grid<T: Copy> {
    pub width: usize,
    pub height: usize,
    pub default_value: T,
    pub cell_values: Vec<Vec<T>>,
    pub events: Vec<GridEvent<T>>,
    pub record_events: bool,
}

impl GridRectangle {
    pub closed spec fn left(&self) -> usize {
        self.x1
    }

    pub closed spec fn top(&self) -> usize {
        self.y1
    }

    pub closed spec fn right(&self) -> usize {
        self.x2
    }

    pub closed spec fn bottom(&self) -> usize {
        self.y2
    }

    pub fn new(x1: usize, y1: usize, x2: usize, y2: usize) -> (r: Self)
        requires
            x1 <= x2,
            y1 <= y2,
        ensures
            r.left() == x1,
            r.top() == y1,
            r.right() == x2,
            r.bottom() == y2,
    {
        Self { x1, y1, x2, y2 }
    }

    /// The rectangle spanned by the corners `(a, b)` and `(c, d)`, taken in either order.
    pub fn spanning(a: usize, b: usize, c: usize, d: usize) -> (r: Self)
        ensures
            r.left() == if a <= c { a } else { c },
            r.right() == if a <= c { c } else { a },
            r.top() == if b <= d { b } else { d },
            r.bottom() == if b <= d { d } else { b },
    {
        let (x1, x2) = if a <= c { (a, c) } else { (c, a) };
        let (y1, y2) = if b <= d { (b, d) } else { (d, b) };
        Self::new(x1, y1, x2, y2)
    }
}

/// How far a rectangle that starts at `start` may reach past it along a side of `size` cells
/// while spanning at most `max_extent` cells: the room left before the edge, capped at
/// `max_extent - 1`.
pub fn extent_room(size: usize, start: usize, max_extent: usize) -> (m: usize)
    requires
        start < size,
        max_extent > 0,
    ensures
        m == if size - start - 1 < max_extent - 1 { size - start - 1 } else { max_extent - 1 },
{
    let room = (size - start) - 1;
    if room < max_extent - 1 {
        room
    } else {
        max_extent - 1
    }
}

impl<T: Copy> GridEvent<T> {
    pub fn new() -> (e: Self)
        ensures
            e.cells@.len() == 0,
    {
        Self { cells: Vec::new() }
    }

    /// Adds a change of the cell at `coord` to `value`.
    pub fn set_cell(&mut self, coord: GridCoord, value: T)
        ensures
            final(self).cells@ == old(self).cells@.push(GridEventCell { coord, value }),
    {
        self.cells.push(GridEventCell::new(coord, value));
    }
}

impl<T: Copy> GridEventCell<T> {
    pub fn new(coord: GridCoord, value: T) -> (c: Self)
        ensures
            c.coord == coord,
            c.value == value,
    {
        Self { coord, value }
    }
}

/// The rows of a grid as sequences.
pub open spec fn rows<T>(cell_values: Seq<Vec<T>>) -> Seq<Seq<T>> {
    cell_values.map_values(|r: Vec<T>| r@)
}

/// `cells` has `height` rows of `width` values.
pub open spec fn shaped<T>(cells: Seq<Seq<T>>, width: int, height: int) -> bool {
    &&& cells.len() == height
    &&& forall|y: int| 0 <= y < height ==> #[trigger] cells[y].len() == width
}

/// The cells after applying an event's changes in order.
pub open spec fn applied<T>(cells: Seq<Seq<T>>, changes: Seq<GridEventCell<T>>) -> Seq<Seq<T>>
    decreases changes.len(),
{
    if changes.len() == 0 {
        cells
    } else {
        let prev = applied(cells, changes.drop_last());
        let c = changes.last();
        prev.update(c.coord.y as int, prev[c.coord.y as int].update(c.coord.x as int, c.value))
    }
}

/// Every change of an event lies inside a `width` by `height` grid.
pub open spec fn event_fits<T>(changes: Seq<GridEventCell<T>>, width: int, height: int) -> bool {
    forall|k: int|
        0 <= k < changes.len() ==> (#[trigger] changes[k]).coord.x < width && changes[k].coord.y
            < height
}

impl<T: Copy> Grid<T> {
    /// The cells, row by row.
    pub open spec fn cells(&self) -> Seq<Seq<T>> {
        rows(self.cell_values@)
    }

    /// The value at column `x` of row `y`.
    pub open spec fn cell(&self, x: int, y: int) -> T {
        self.cells()[y][x]
    }

    /// The grid holds `height` rows of `width` cells.
    pub open spec fn wf(&self) -> bool {
        shaped(self.cells(), self.width as int, self.height as int)
    }

    /// A grid where every cell holds `default_value`; it records events.
    pub fn new(width: usize, height: usize, default_value: T) -> (g: Self)
        ensures
            g.wf(),
            g.width == width,
            g.height == height,
            g.default_value == default_value,
            g.record_events,
            g.events@.len() == 0,
            forall|x: int, y: int|
                0 <= x < width && 0 <= y < height ==> #[trigger] g.cell(x, y) == default_value,
    {
        let mut grid = Self {
            width,
            height,
            default_value,
            cell_values: Vec::new(),
            events: Vec::new(),
            record_events: true,
        };
        grid.create_cells();
        grid
    }

    /// A grid of the same size whose cells, and the values in its events, are those of
    /// `source_grid` passed through `value_func`.
    pub fn new_from<U: Copy, F: Fn(&U) -> T>(source_grid: &Grid<U>, default_value: T, value_func: F) -> (g: Self)
        requires
            source_grid.wf(),
            forall|u: U| #[trigger] value_func.requires((&u,)),
        ensures
            g.wf(),
            g.width == source_grid.width,
            g.height == source_grid.height,
            g.default_value == default_value,
            g.record_events == source_grid.record_events,
            forall|x: int, y: int|
                0 <= x < g.width && 0 <= y < g.height ==> value_func.ensures(
                    (&source_grid.cell(x, y),),
                    #[trigger] g.cell(x, y),
                ),
            g.events@.len() == source_grid.events@.len(),
            forall|k: int|
                0 <= k < g.events@.len() ==> (#[trigger] g.events@[k]).cells@.len() == source_grid.events@[k].cells@.len(),
            forall|k: int, c: int|
                0 <= k < g.events@.len() && 0 <= c < g.events@[k].cells@.len() ==> (#[trigger] g.events@[k].cells@[c]).coord
                    == source_grid.events@[k].cells@[c].coord && value_func.ensures(
                    (&source_grid.events@[k].cells@[c].value,),
                    g.events@[k].cells@[c].value,
                ),
    {
        let mut cell_values: Vec<Vec<T>> = Vec::new();
        for y in 0..source_grid.cell_values.len()
            invariant
                source_grid.wf(),
                forall|u: U| #[trigger] value_func.requires((&u,)),
                cell_values@.len() == y,
                forall|r: int| 0 <= r < y ==> (#[trigger] cell_values@[r])@.len() == source_grid.width,
                forall|c: int, r: int|
                    0 <= c < source_grid.width && 0 <= r < y ==> value_func.ensures(
                        (&source_grid.cell(c, r),),
                        #[trigger] cell_values@[r]@[c],
                    ),
        {
            proof {
                assert(source_grid.cells()[y as int] == source_grid.cell_values@[y as int]@);
            }
            let source_row = &source_grid.cell_values[y];
            let mut row: Vec<T> = Vec::with_capacity(source_row.len());
            for x in 0..source_row.len()
                invariant
                    forall|u: U| #[trigger] value_func.requires((&u,)),
                    row@.len() == x,
                    forall|c: int| 0 <= c < x ==> value_func.ensures((&source_row@[c],), #[trigger] row@[c]),
            {
                row.push(value_func(&source_row[x]));
            }
            cell_values.push(row);
        }
        let mut events: Vec<GridEvent<T>> = Vec::new();
        for k in 0..source_grid.events.len()
            invariant
                forall|u: U| #[trigger] value_func.requires((&u,)),
                events@.len() == k,
                forall|j: int| 0 <= j < k ==> (#[trigger] events@[j]).cells@.len() == source_grid.events@[j].cells@.len(),
                forall|j: int, c: int|
                    0 <= j < k && 0 <= c < events@[j].cells@.len() ==> (#[trigger] events@[j].cells@[c]).coord
                        == source_grid.events@[j].cells@[c].coord && value_func.ensures(
                        (&source_grid.events@[j].cells@[c].value,),
                        events@[j].cells@[c].value,
                    ),
        {
            let source_event = &source_grid.events[k];
            let mut event: GridEvent<T> = GridEvent::new();
            for c in 0..source_event.cells.len()
                invariant
                    forall|u: U| #[trigger] value_func.requires((&u,)),
                    event.cells@.len() == c,
                    forall|i: int|
                        0 <= i < c ==> (#[trigger] event.cells@[i]).coord == source_event.cells@[i].coord
                            && value_func.ensures((&source_event.cells@[i].value,), event.cells@[i].value),
            {
                let source_event_cell = &source_event.cells[c];
                let event_cell = GridEventCell::new(source_event_cell.coord, value_func(&source_event_cell.value));
                event.cells.push(event_cell);
            }
            events.push(event);
        }
        let grid = Self {
            width: source_grid.width,
            height: source_grid.height,
            default_value,
            cell_values,
            events,
            record_events: source_grid.record_events,
        };
        proof {
            assert forall|x: int, y: int| 0 <= x < grid.width && 0 <= y < grid.height implies value_func.ensures(
                (&source_grid.cell(x, y),),
                #[trigger] grid.cell(x, y),
            ) by {
                assert(grid.cells()[y] == grid.cell_values@[y]@);
            }
        }
        grid
    }

    fn create_cells(&mut self)
        ensures
            final(self).wf(),
            final(self).width == old(self).width,
            final(self).height == old(self).height,
            final(self).default_value == old(self).default_value,
            final(self).record_events == old(self).record_events,
            final(self).events == old(self).events,
            forall|x: int, y: int|
                0 <= x < old(self).width && 0 <= y < old(self).height ==> #[trigger] final(self).cell(x, y)
                    == old(self).default_value,
    {
        let width = self.width;
        let height = self.height;
        let default_value = self.default_value;
        let mut cell_values: Vec<Vec<T>> = Vec::with_capacity(height);
        for y in 0..height
            invariant
                cell_values@.len() == y,
                forall|r: int| 0 <= r < y ==> (#[trigger] cell_values@[r])@.len() == width,
                forall|c: int, r: int|
                    0 <= c < width && 0 <= r < y ==> #[trigger] cell_values@[r]@[c] == default_value,
        {
            let mut row: Vec<T> = Vec::with_capacity(width);
            for x in 0..width
                invariant
                    row@.len() == x,
                    forall|c: int| 0 <= c < x ==> #[trigger] row@[c] == default_value,
            {
                row.push(default_value);
            }
            cell_values.push(row);
        }
        self.cell_values = cell_values;
        proof {
            assert forall|r: int| 0 <= r < self.height implies #[trigger] self.cells()[r]
                == self.cell_values@[r]@ by {}
        }
    }

    /// Applies an event to the cells and records it.
    pub fn add_event(&mut self, event: GridEvent<T>)
        requires
            old(self).wf(),
            old(self).record_events,
            event_fits(event.cells@, old(self).width as int, old(self).height as int),
        ensures
            final(self).wf(),
            final(self).width == old(self).width,
            final(self).height == old(self).height,
            final(self).record_events,
            final(self).default_value == old(self).default_value,
            final(self).cells() == applied(old(self).cells(), event.cells@),
            final(self).events@ == old(self).events@.push(event),
    {
        self.apply_event(&event);
        self.events.push(event);
    }

    fn apply_event(&mut self, event: &GridEvent<T>)
        requires
            old(self).wf(),
            old(self).record_events,
            event_fits(event.cells@, old(self).width as int, old(self).height as int),
        ensures
            final(self).wf(),
            final(self).width == old(self).width,
            final(self).height == old(self).height,
            final(self).record_events == old(self).record_events,
            final(self).default_value == old(self).default_value,
            final(self).events == old(self).events,
            final(self).cells() == applied(old(self).cells(), event.cells@),
    {
        for k in 0..event.cells.len()
            invariant
                self.wf(),
                self.width == old(self).width,
                self.height == old(self).height,
                self.record_events == old(self).record_events,
                self.default_value == old(self).default_value,
                self.events == old(self).events,
                event_fits(event.cells@, self.width as int, self.height as int),
                self.cells() == applied(old(self).cells(), event.cells@.take(k as int)),
        {
            let c = event.cells[k];
            let ghost before = self.cells();
            proof {
                assert(self.cells()[c.coord.y as int] == self.cell_values@[c.coord.y as int]@);
            }
            self.cell_values[c.coord.y][c.coord.x] = c.value;
            proof {
                assert(event.cells@.take(k + 1).drop_last() =~= event.cells@.take(k as int));
                assert(self.cells() =~= before.update(
                    c.coord.y as int,
                    before[c.coord.y as int].update(c.coord.x as int, c.value),
                ));
            }
        }
        proof {
            assert(event.cells@.take(event.cells@.len() as int) =~= event.cells@);
        }
    }

    /// The value at column `x` of row `y`.
    pub fn get_xy(&self, x: usize, y: usize) -> (v: T)
        requires
            self.wf(),
            x < self.width,
            y < self.height,
        ensures
            v == self.cell(x as int, y as int),
    {
        proof {
            assert(self.cells()[y as int] == self.cell_values@[y as int]@);
        }
        self.cell_values[y][x]
    }

    pub fn get_coord(&self, coord: GridCoord) -> (v: T)
        requires
            self.wf(),
            coord.x < self.width,
            coord.y < self.height,
        ensures
            v == self.cell(coord.x as int, coord.y as int),
    {
        self.get_xy(coord.x, coord.y)
    }

    /// Sets the value at column `x` of row `y`, on a grid that does not record events.
    pub fn set_xy(&mut self, x: usize, y: usize, value: T)
        requires
            old(self).wf(),
            !old(self).record_events,
            x < old(self).width,
            y < old(self).height,
        ensures
            final(self).wf(),
            final(self).width == old(self).width,
            final(self).height == old(self).height,
            final(self).default_value == old(self).default_value,
            final(self).record_events == old(self).record_events,
            final(self).events == old(self).events,
            final(self).cells() == old(self).cells().update(
                y as int,
                old(self).cells()[y as int].update(x as int, value),
            ),
            forall|c: int, r: int|
                0 <= c < old(self).width && 0 <= r < old(self).height ==> #[trigger] final(self).cell(c, r)
                    == if c == x && r == y {
                    value
                } else {
                    old(self).cell(c, r)
                },
    {
        proof {
            assert(self.cells()[y as int] == self.cell_values@[y as int]@);
        }
        self.cell_values[y][x] = value;
        proof {
            assert(self.cells() =~= old(self).cells().update(
                y as int,
                old(self).cells()[y as int].update(x as int, value),
            ));
        }
    }

    pub fn set_coord(&mut self, coord: GridCoord, value: T)
        requires
            old(self).wf(),
            !old(self).record_events,
            coord.x < old(self).width,
            coord.y < old(self).height,
        ensures
            final(self).wf(),
            final(self).width == old(self).width,
            final(self).height == old(self).height,
            final(self).default_value == old(self).default_value,
            final(self).record_events == old(self).record_events,
            final(self).events == old(self).events,
            final(self).cells() == old(self).cells().update(
                coord.y as int,
                old(self).cells()[coord.y as int].update(coord.x as int, value),
            ),
    {
        self.set_xy(coord.x, coord.y, value)
    }

    pub fn coord_is_in_grid(&self, coord: GridCoord) -> (b: bool)
        ensures
            b == (coord.x < self.width && coord.y < self.height),
    {
        coord.x < self.width && coord.y < self.height
    }

    /// The grid is square with an even side, so that its wedge is defined.
    pub open spec fn wedge_ready(&self) -> bool {
        &&& self.width == self.height
        &&& self.width % 2 == 0
    }

    /// Whether the cell is in the wedge: the top half, on or below the diagonal.
    pub fn point_in_wedge(&self, x: usize, y: usize) -> (b: bool)
        requires
            self.wedge_ready(),
            x < self.width,
            y < self.height,
        ensures
            b == in_wedge(self.height as int, x as int, y as int),
    {
        y < self.height / 2 && y >= x
    }

    /// Whether every cell of the rectangle lies in the wedge.
    pub fn rectangle_inside_wedge_xy(&self, x1: usize, y1: usize, x2: usize, y2: usize) -> (b: bool)
        requires
            self.wedge_ready(),
            x2 < self.width,
            y2 < self.height,
            x1 <= x2,
            y1 <= y2,
        ensures
            b == (forall|x: int, y: int|
                x1 <= x <= x2 && y1 <= y <= y2 ==> #[trigger] in_wedge(self.height as int, x, y)),
    {
        let b = self.point_in_wedge(x1, y1) && self.point_in_wedge(x2, y1) && self.point_in_wedge(
            x2,
            y2,
        ) && self.point_in_wedge(x1, y2);
        proof {
            if !b {
                if !in_wedge(self.height as int, x1 as int, y1 as int) {
                } else if !in_wedge(self.height as int, x2 as int, y1 as int) {
                } else if !in_wedge(self.height as int, x2 as int, y2 as int) {
                } else {
                    assert(!in_wedge(self.height as int, x1 as int, y2 as int));
                }
            }
        }
        b
    }

    /// Whether some cell of the rectangle lies in the wedge.
    pub fn rectangle_intersects_wedge_xy(&self, x1: usize, y1: usize, x2: usize, y2: usize) -> (b: bool)
        requires
            self.wedge_ready(),
            x2 < self.width,
            y2 < self.height,
            x1 <= x2,
            y1 <= y2,
        ensures
            b == (exists|x: int, y: int|
                x1 <= x <= x2 && y1 <= y <= y2 && #[trigger] in_wedge(self.height as int, x, y)),
    {
        let half = self.height / 2;
        let b = x1 < half && y1 < half && y2 >= x1;
        proof {
            if b {
                let y = if y1 >= x1 {
                    y1 as int
                } else {
                    x1 as int
                };
                assert(in_wedge(self.height as int, x1 as int, y));
            }
        }
        b
    }

    pub fn rectangle_inside_wedge(&self, rectangle: &GridRectangle) -> (b: bool)
        requires
            self.wedge_ready(),
            rectangle.right() < self.width,
            rectangle.bottom() < self.height,
            rectangle.left() <= rectangle.right(),
            rectangle.top() <= rectangle.bottom(),
        ensures
            b == (forall|x: int, y: int|
                rectangle.left() <= x <= rectangle.right() && rectangle.top() <= y
                    <= rectangle.bottom() ==> #[trigger] in_wedge(self.height as int, x, y)),
    {
        self.rectangle_inside_wedge_xy(rectangle.x1, rectangle.y1, rectangle.x2, rectangle.y2)
    }

    pub fn rectangle_intersects_wedge(&self, rectangle: &GridRectangle) -> (b: bool)
        requires
            self.wedge_ready(),
            rectangle.right() < self.width,
            rectangle.bottom() < self.height,
            rectangle.left() <= rectangle.right(),
            rectangle.top() <= rectangle.bottom(),
        ensures
            b == (exists|x: int, y: int|
                rectangle.left() <= x <= rectangle.right() && rectangle.top() <= y
                    <= rectangle.bottom() && #[trigger] in_wedge(self.height as int, x, y)),
    {
        self.rectangle_intersects_wedge_xy(rectangle.x1, rectangle.y1, rectangle.x2, rectangle.y2)
    }

    /// Copies each cell below the diagonal of the top half to its mirror image above the
    /// diagonal.
    pub fn reflect_copy_wedge(&mut self)
        requires
            old(self).wf(),
            old(self).wedge_ready(),
            !old(self).record_events,
        ensures
            final(self).wf(),
            final(self).width == old(self).width,
            final(self).height == old(self).height,
            final(self).default_value == old(self).default_value,
            final(self).record_events == old(self).record_events,
            final(self).events == old(self).events,
            forall|x: int, y: int|
                0 <= x < old(self).width && 0 <= y < old(self).height ==> #[trigger] final(self).cell(x, y)
                    == wedge_reflected(old(self).cells(), old(self).height as int, x, y),
    {
        let half = self.height / 2;
        let ghost orig = self.cells();
        let mut y: usize = 1;
        while y < half
            invariant
                y <= half || y == 1,
                self.wf(),
                self.width == old(self).width,
                self.height == old(self).height,
                self.default_value == old(self).default_value,
                self.record_events == old(self).record_events,
                !self.record_events,
                self.events == old(self).events,
                old(self).wedge_ready(),
                half == self.height / 2,
                orig == old(self).cells(),
                y >= 1,
                forall|c: int, r: int|
                    0 <= c < self.width && 0 <= r < self.height ==> #[trigger] self.cell(c, r) == if r
                        < c && c < y {
                        orig[c][r]
                    } else {
                        orig[r][c]
                    },
            decreases half - y,
        {
            for x in 0..y
                invariant
                    self.wf(),
                    self.width == old(self).width,
                    self.height == old(self).height,
                    self.default_value == old(self).default_value,
                    self.record_events == old(self).record_events,
                    !self.record_events,
                    self.events == old(self).events,
                    old(self).wedge_ready(),
                    half == self.height / 2,
                    y < half,
                    orig == old(self).cells(),
                    forall|c: int, r: int|
                        0 <= c < self.width && 0 <= r < self.height ==> #[trigger] self.cell(c, r)
                            == if r < c && (c < y || (c == y && r < x)) {
                            orig[c][r]
                        } else {
                            orig[r][c]
                        },
            {
                let v = self.get_xy(x, y);
                self.set_xy(y, x, v);
            }
            y = y + 1;
        }
    }

    /// Copies the left half of each row of the top half, except the first row, onto the right
    /// half as its mirror image.
    pub fn reflect_copy_top_left_quarter(&mut self)
        requires
            old(self).wf(),
            old(self).width % 2 == 0,
            old(self).height % 2 == 0,
            old(self).width > 0,
            !old(self).record_events,
        ensures
            final(self).wf(),
            final(self).width == old(self).width,
            final(self).height == old(self).height,
            final(self).default_value == old(self).default_value,
            final(self).record_events == old(self).record_events,
            final(self).events == old(self).events,
            forall|x: int, y: int|
                0 <= x < old(self).width && 0 <= y < old(self).height ==> #[trigger] final(self).cell(x, y)
                    == quarter_reflected(
                    old(self).cells(),
                    old(self).width as int,
                    old(self).height as int,
                    x,
                    y,
                ),
    {
        let half_width = self.width / 2;
        let x_last = self.width - 1;
        let ghost orig = self.cells();
        let mut y: usize = 1;
        while y < self.height / 2
            invariant
                y <= self.height / 2 || y == 1,
                self.wf(),
                self.width == old(self).width,
                self.height == old(self).height,
                self.default_value == old(self).default_value,
                self.record_events == old(self).record_events,
                !self.record_events,
                self.events == old(self).events,
                old(self).width % 2 == 0,
                half_width == self.width / 2,
                x_last == self.width - 1,
                orig == old(self).cells(),
                y >= 1,
                forall|c: int, r: int|
                    0 <= c < self.width && 0 <= r < self.height ==> #[trigger] self.cell(c, r) == if 1
                        <= r < y && c >= half_width {
                        orig[r][x_last - c]
                    } else {
                        orig[r][c]
                    },
            decreases self.height / 2 - y,
        {
            for x in 0..half_width
                invariant
                    self.wf(),
                    self.width == old(self).width,
                    self.height == old(self).height,
                    self.default_value == old(self).default_value,
                    self.record_events == old(self).record_events,
                    !self.record_events,
                    self.events == old(self).events,
                    old(self).width % 2 == 0,
                    half_width == self.width / 2,
                    x_last == self.width - 1,
                    orig == old(self).cells(),
                    1 <= y < self.height / 2,
                    forall|c: int, r: int|
                        0 <= c < self.width && 0 <= r < self.height ==> #[trigger] self.cell(c, r)
                            == if (1 <= r < y && c >= half_width) || (r == y && c > x_last - x) {
                            orig[r][x_last - c]
                        } else {
                            orig[r][c]
                        },
            {
                let v = self.get_xy(x, y);
                self.set_xy(x_last - x, y, v);
            }
            y = y + 1;
        }
    }

    /// Copies each row of the top half, except the first row, onto its mirror image in the
    /// bottom half.
    pub fn reflect_copy_top_half(&mut self)
        requires
            old(self).wf(),
            old(self).width % 2 == 0,
            old(self).height % 2 == 0,
            old(self).height > 0,
            !old(self).record_events,
        ensures
            final(self).wf(),
            final(self).width == old(self).width,
            final(self).height == old(self).height,
            final(self).default_value == old(self).default_value,
            final(self).record_events == old(self).record_events,
            final(self).events == old(self).events,
            forall|x: int, y: int|
                0 <= x < old(self).width && 0 <= y < old(self).height ==> #[trigger] final(self).cell(x, y)
                    == half_reflected(old(self).cells(), old(self).height as int, x, y),
    {
        let y_last = self.height - 1;
        let ghost orig = self.cells();
        let mut y: usize = 1;
        while y < self.height / 2
            invariant
                y <= self.height / 2 || y == 1,
                self.wf(),
                self.width == old(self).width,
                self.height == old(self).height,
                self.default_value == old(self).default_value,
                self.record_events == old(self).record_events,
                !self.record_events,
                self.events == old(self).events,
                old(self).height % 2 == 0,
                y_last == self.height - 1,
                orig == old(self).cells(),
                y >= 1,
                forall|c: int, r: int|
                    0 <= c < self.width && 0 <= r < self.height ==> #[trigger] self.cell(c, r) == if y_last
                        - y < r <= y_last - 1 {
                        orig[y_last - r][c]
                    } else {
                        orig[r][c]
                    },
            decreases self.height / 2 - y,
        {
            let w = self.width;
            for x in 0..w
                invariant
                    w == self.width,
                    self.wf(),
                    self.width == old(self).width,
                    self.height == old(self).height,
                    self.default_value == old(self).default_value,
                    self.record_events == old(self).record_events,
                    !self.record_events,
                    self.events == old(self).events,
                    old(self).height % 2 == 0,
                    y_last == self.height - 1,
                    orig == old(self).cells(),
                    1 <= y < self.height / 2,
                    forall|c: int, r: int|
                        0 <= c < self.width && 0 <= r < self.height ==> #[trigger] self.cell(c, r)
                            == if (y_last - y < r <= y_last - 1) || (r == y_last - y && c < x) {
                            orig[y_last - r][c]
                        } else {
                            orig[r][c]
                        },
            {
                let v = self.get_xy(x, y);
                self.set_xy(x, y_last - y, v);
            }
            y = y + 1;
        }
    }

    /// Completes a symmetric picture from its wedge: the wedge is mirrored across the diagonal,
    /// then the top-left quarter across the vertical middle, then the top half across the
    /// horizontal middle.
    pub fn complete_from_wedge(&mut self)
        requires
            old(self).wf(),
            old(self).wedge_ready(),
            old(self).width > 0,
            !old(self).record_events,
        ensures
            final(self).wf(),
            final(self).width == old(self).width,
            final(self).height == old(self).height,
            final(self).default_value == old(self).default_value,
            final(self).record_events == old(self).record_events,
            final(self).events == old(self).events,
            forall|x: int, y: int|
                0 <= x < old(self).width && 0 <= y < old(self).height ==> #[trigger] final(self).cell(x, y)
                    == completed_from_wedge(old(self).cells(), old(self).width as int, x, y),
    {
        let ghost c0 = self.cells();
        self.reflect_copy_wedge();
        let ghost g1 = *self;
        self.reflect_copy_top_left_quarter();
        let ghost g2 = *self;
        self.reflect_copy_top_half();
        proof {
            let n = self.width as int;
            assert forall|x: int, y: int| 0 <= x < n && 0 <= y < n implies #[trigger] self.cell(x, y)
                == completed_from_wedge(c0, n, x, y) by {
                let y2 = if n / 2 <= y <= n - 2 {
                    n - 1 - y
                } else {
                    y
                };
                assert(self.cell(x, y) == half_reflected(g2.cells(), n, x, y));
                assert(self.cell(x, y) == g2.cell(x, y2));
                let x1 = if 1 <= y2 < n / 2 && x >= n / 2 {
                    n - 1 - x
                } else {
                    x
                };
                assert(g2.cell(x, y2) == quarter_reflected(g1.cells(), n, n, x, y2));
                assert(g2.cell(x, y2) == g1.cell(x1, y2));
                assert(g1.cell(x1, y2) == wedge_reflected(c0, n, x1, y2));
            }
        }
    }

    /// Whether the rectangle lies inside the grid.
    pub fn contains_rectangle(&self, rectangle: &GridRectangle) -> (b: bool)
        ensures
            b == (rectangle.right() < self.width && rectangle.bottom() < self.height),
    {
        rectangle.x2 < self.width && rectangle.y2 < self.height
    }

    /// Sets the cells on the border of the rectangle to `value`.
    pub fn outline_rectangle(&mut self, rectangle: &GridRectangle, value: &T)
        requires
            old(self).wf(),
            !old(self).record_events,
            rectangle.left() <= rectangle.right(),
            rectangle.top() <= rectangle.bottom(),
            rectangle.right() < old(self).width,
            rectangle.bottom() < old(self).height,
        ensures
            final(self).wf(),
            final(self).width == old(self).width,
            final(self).height == old(self).height,
            final(self).default_value == old(self).default_value,
            final(self).record_events == old(self).record_events,
            final(self).events == old(self).events,
            forall|x: int, y: int|
                0 <= x < old(self).width && 0 <= y < old(self).height ==> #[trigger] final(self).cell(x, y)
                    == if on_border(rectangle, x, y) {
                    *value
                } else {
                    old(self).cell(x, y)
                },
    {
        let x1 = rectangle.x1;
        let x2 = rectangle.x2;
        let y1 = rectangle.y1;
        let y2 = rectangle.y2;
        // Top and bottom edges.
        for x in x1..x2 + 1
            invariant
                self.wf(),
                self.width == old(self).width,
                self.height == old(self).height,
                self.default_value == old(self).default_value,
                self.record_events == old(self).record_events,
                !self.record_events,
                self.events == old(self).events,
                x1 == rectangle.left(),
                x2 == rectangle.right(),
                y1 == rectangle.top(),
                y2 == rectangle.bottom(),
                x2 < self.width,
                y2 < self.height,
                y1 <= y2,
                x1 <= x,
                forall|c: int, r: int|
                    0 <= c < self.width && 0 <= r < self.height ==> #[trigger] self.cell(c, r) == if (r
                        == y1 || r == y2) && x1 <= c < x {
                        *value
                    } else {
                        old(self).cell(c, r)
                    },
        {
            self.set_xy(x, y1, *value);
            self.set_xy(x, y2, *value);
        }
        // Left and right edges.
        let mut y = y1 + 1;
        while y < y2
            invariant
                y <= y2 || y == y1 + 1,
                self.wf(),
                self.width == old(self).width,
                self.height == old(self).height,
                self.default_value == old(self).default_value,
                self.record_events == old(self).record_events,
                !self.record_events,
                self.events == old(self).events,
                x1 == rectangle.left(),
                x2 == rectangle.right(),
                y1 == rectangle.top(),
                y2 == rectangle.bottom(),
                x1 <= x2 < self.width,
                y2 < self.height,
                y1 < y,
                forall|c: int, r: int|
                    0 <= c < self.width && 0 <= r < self.height ==> #[trigger] self.cell(c, r) == if ((r
                        == y1 || r == y2) && x1 <= c <= x2) || ((c == x1 || c == x2) && y1 < r < y) {
                        *value
                    } else {
                        old(self).cell(c, r)
                    },
            decreases y2 - y,
        {
            self.set_xy(x1, y, *value);
            self.set_xy(x2, y, *value);
            y = y + 1;
        }
    }

    /// A random rectangle inside the grid.
    pub fn random_rectangle(&self) -> (r: GridRectangle)
        requires
            self.width > 0,
            self.height > 0,
        ensures
            r.left() <= r.right() < self.width,
            r.top() <= r.bottom() < self.height,
    {
        let a = random_below(self.width);
        let b = random_below(self.height);
        let c = random_below(self.width);
        let d = random_below(self.height);
        GridRectangle::spanning(a, b, c, d)
    }

    /// A random rectangle inside the grid, at most `max_width` wide and `max_height` high.
    pub fn random_rectangle_limit(&self, max_width: usize, max_height: usize) -> (r: GridRectangle)
        requires
            self.width > 0,
            self.height > 0,
            max_width > 0,
            max_height > 0,
        ensures
            r.left() <= r.right() < self.width,
            r.top() <= r.bottom() < self.height,
            r.right() - r.left() < max_width,
            r.bottom() - r.top() < max_height,
    {
        let x1 = random_below(self.width);
        let y1 = random_below(self.height);
        let x_add_max = extent_room(self.width, x1, max_width);
        let y_add_max = extent_room(self.height, y1, max_height);
        let x2 = x1 + random_below(x_add_max + 1);
        let y2 = y1 + random_below(y_add_max + 1);
        GridRectangle::new(x1, y1, x2, y2)
    }
}

impl Grid<usize> {
    /// The least and the greatest cell value; `(usize::MAX, 0)` for a grid without cells.
    pub fn min_max(&self) -> (mm: (usize, usize))
        ensures
            forall|y: int, x: int|
                0 <= y < self.cells().len() && 0 <= x < self.cells()[y].len() ==> mm.0 <= #[trigger] self.cells()[y][x]
                    <= mm.1,
            mm.0 == usize::MAX || exists|y: int, x: int|
                0 <= y < self.cells().len() && 0 <= x < self.cells()[y].len() && #[trigger] self.cells()[y][x]
                    == mm.0,
            mm.1 == 0 || exists|y: int, x: int|
                0 <= y < self.cells().len() && 0 <= x < self.cells()[y].len() && #[trigger] self.cells()[y][x]
                    == mm.1,
    {
        let mut min = usize::MAX;
        let mut max = usize::MIN;
        let ghost cells = self.cells();
        for y in 0..self.cell_values.len()
            invariant
                cells == self.cells(),
                cells.len() == self.cell_values@.len(),
                forall|r: int, x: int|
                    0 <= r < y && 0 <= x < cells[r].len() ==> min <= #[trigger] cells[r][x] <= max,
                min == usize::MAX || exists|r: int, x: int|
                    0 <= r < cells.len() && 0 <= x < cells[r].len() && #[trigger] cells[r][x] == min,
                max == 0 || exists|r: int, x: int|
                    0 <= r < cells.len() && 0 <= x < cells[r].len() && #[trigger] cells[r][x] == max,
        {
            let row = &self.cell_values[y];
            proof {
                assert(cells[y as int] == row@);
            }
            for x in 0..row.len()
                invariant
                    cells == self.cells(),
                    cells.len() == self.cell_values@.len(),
                    y < cells.len(),
                    cells[y as int] == row@,
                    forall|r: int, c: int|
                        0 <= r < y && 0 <= c < cells[r].len() ==> min <= #[trigger] cells[r][c] <= max,
                    forall|c: int| 0 <= c < x ==> min <= #[trigger] cells[y as int][c] <= max,
                    min == usize::MAX || exists|r: int, c: int|
                        0 <= r < cells.len() && 0 <= c < cells[r].len() && #[trigger] cells[r][c] == min,
                    max == 0 || exists|r: int, c: int|
                        0 <= r < cells.len() && 0 <= c < cells[r].len() && #[trigger] cells[r][c] == max,
            {
                let value = row[x];
                proof {
                    assert(cells[y as int][x as int] == value);
                }
                if value < min {
                    min = value;
                }
                if value > max {
                    max = value;
                }
            }
        }
        (min, max)
    }
}

/// The cell at `(x, y)` after mirroring the wedge across the diagonal.
pub open spec fn wedge_reflected<T>(cells: Seq<Seq<T>>, side: int, x: int, y: int) -> T {
    if y < x && x < side / 2 {
        cells[x][y]
    } else {
        cells[y][x]
    }
}

/// The cell at `(x, y)` after mirroring the left half of the rows `1..height / 2` onto their
/// right half.
pub open spec fn quarter_reflected<T>(cells: Seq<Seq<T>>, width: int, height: int, x: int, y: int) -> T {
    if 1 <= y < height / 2 && x >= width / 2 {
        cells[y][width - 1 - x]
    } else {
        cells[y][x]
    }
}

/// The cell at `(x, y)` after mirroring the rows `1..height / 2` onto the bottom half.
pub open spec fn half_reflected<T>(cells: Seq<Seq<T>>, height: int, x: int, y: int) -> T {
    if height / 2 <= y <= height - 2 {
        cells[height - 1 - y][x]
    } else {
        cells[y][x]
    }
}

/// The cell at `(x, y)` of a square grid of side `side` completed from its wedge.
pub open spec fn completed_from_wedge<T>(cells: Seq<Seq<T>>, side: int, x: int, y: int) -> T {
    let y2 = if side / 2 <= y <= side - 2 {
        side - 1 - y
    } else {
        y
    };
    let x1 = if 1 <= y2 < side / 2 && x >= side / 2 {
        side - 1 - x
    } else {
        x
    };
    wedge_reflected(cells, side, x1, y2)
}

/// Writing a value to a cell of a grid, as `set_xy` and `set_coord` do, keeps the grid's shape;
/// reading that cell then gives back the value, and every other cell reads as before.
pub proof fn law_read_after_write<T>(cells: Seq<Seq<T>>, width: int, height: int, x: int, y: int, value: T, c: int, r: int)
    requires
        shaped(cells, width, height),
        0 <= x < width,
        0 <= y < height,
        0 <= c < width,
        0 <= r < height,
    ensures
        shaped(cells.update(y, cells[y].update(x, value)), width, height),
        cells.update(y, cells[y].update(x, value))[r][c] == if c == x && r == y {
            value
        } else {
            cells[r][c]
        },
{
    let written = cells.update(y, cells[y].update(x, value));
    assert forall|k: int| 0 <= k < height implies #[trigger] written[k].len() == width by {
        if k != y {
            assert(written[k] == cells[k]);
        }
    }
}

/// A grid completed from its wedge is mirrored: across the diagonal of its top-left quarter,
/// and, in every row but the first and the last, left to right and top to bottom.
pub proof fn law_completed_is_symmetric<T>(cells: Seq<Seq<T>>, side: int, x: int, y: int)
    requires
        side >= 2,
        side % 2 == 0,
        0 <= x < side,
        0 <= y < side,
    ensures
        x < side / 2 && y < side / 2 ==> completed_from_wedge(cells, side, x, y) == completed_from_wedge(
            cells,
            side,
            y,
            x,
        ),
        1 <= y <= side - 2 ==> completed_from_wedge(cells, side, x, y) == completed_from_wedge(
            cells,
            side,
            side - 1 - x,
            y,
        ),
        1 <= y <= side - 2 ==> completed_from_wedge(cells, side, x, y) == completed_from_wedge(
            cells,
            side,
            x,
            side - 1 - y,
        ),
{
}

/// The cell lies on the border of the rectangle.
pub open spec fn on_border(rectangle: &GridRectangle, x: int, y: int) -> bool {
    &&& rectangle.left() <= x <= rectangle.right()
    &&& rectangle.top() <= y <= rectangle.bottom()
    &&& (x == rectangle.left() || x == rectangle.right() || y == rectangle.top() || y
        == rectangle.bottom())
}


/// The wedge of a square grid with side `side`: the top half, on or below the diagonal.
pub open spec fn in_wedge(side: int, x: int, y: int) -> bool {
    y < side / 2 && y >= x
}

/// Sets every cell outside the wedge to `value`.
pub fn fill_grid_non_wedge<T: Copy>(grid: &mut Grid<T>, value: &T)
    requires
        old(grid).wf(),
        old(grid).wedge_ready(),
        !old(grid).record_events,
    ensures
        final(grid).wf(),
        final(grid).width == old(grid).width,
        final(grid).height == old(grid).height,
        final(grid).default_value == old(grid).default_value,
        final(grid).record_events == old(grid).record_events,
        final(grid).events == old(grid).events,
        forall|x: int, y: int|
            0 <= x < old(grid).width && 0 <= y < old(grid).height ==> #[trigger] final(grid).cell(x, y) == if in_wedge(
                old(grid).height as int,
                x,
                y,
            ) {
                old(grid).cell(x, y)
            } else {
                *value
            },
{
    let (width, height) = (grid.width, grid.height);
    for y in 0..height
        invariant
            grid.wf(),
            grid.wedge_ready(),
            !grid.record_events,
            grid.width == width,
            grid.height == height,
            width == old(grid).width,
            height == old(grid).height,
            grid.default_value == old(grid).default_value,
            grid.record_events == old(grid).record_events,
            grid.events == old(grid).events,
            forall|cx: int, cy: int|
                0 <= cx < width && 0 <= cy < height ==> #[trigger] grid.cell(cx, cy) == if cy < y && !in_wedge(
                    height as int,
                    cx,
                    cy,
                ) {
                    *value
                } else {
                    old(grid).cell(cx, cy)
                },
    {
        for x in 0..width
            invariant
                grid.wf(),
                grid.wedge_ready(),
                !grid.record_events,
                grid.width == width,
                grid.height == height,
                width == old(grid).width,
                height == old(grid).height,
                y < height,
                grid.default_value == old(grid).default_value,
                grid.record_events == old(grid).record_events,
                grid.events == old(grid).events,
                forall|cx: int, cy: int|
                    0 <= cx < width && 0 <= cy < height ==> #[trigger] grid.cell(cx, cy) == if (cy < y || (cy == y
                        && cx < x)) && !in_wedge(height as int, cx, cy) {
                        *value
                    } else {
                        old(grid).cell(cx, cy)
                    },
        {
            if !grid.point_in_wedge(x, y) {
                grid.set_xy(x, y, *value);
            }
        }
    }
}

} // verus!
