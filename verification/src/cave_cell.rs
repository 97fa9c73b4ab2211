//! Cave generation on a grid of open and closed cells: each generation opens and closes cells
//! by how many of their eight surrounding cells, wrapping at every edge, are open.
use vstd::prelude::*;
use crate::cell_auto::{ints, lemma_neighbor_list_len, max_neighbors, neighbor_list, CellAutoGrid};
use crate::grid::{Grid, GridNeighborType, GridWrappingStyle};

verus! {

/// The value of a closed cell.
pub const CELL_CLOSED: usize = 0;

/// The value of an open cell.
pub const CELL_OPEN: usize = 1;

/// The rule of a generation.
#[derive(Clone, Copy)]
pub enum Algorithm {
    /// Open when more than the birth limit of neighbors are open; close when fewer than the
    /// death limit are.
    Original,
    B3S1234,
    B3S12345,
    GameOfLife,
}

impl Algorithm {
    /// The fewest open neighbors with which an open cell stays open.
    pub fn live_min(&self) -> (n: usize)
        requires
            !(*self is Original),
        ensures
            n == match self {
                Algorithm::GameOfLife => 2usize,
                _ => 1usize,
            },
    {
        match self {
            Algorithm::B3S1234 | Algorithm::B3S12345 => 1,
            Algorithm::GameOfLife => 2,
            Algorithm::Original => 0,
        }
    }

    /// The most open neighbors with which an open cell stays open.
    pub fn live_max(&self) -> (n: usize)
        requires
            !(*self is Original),
        ensures
            n == match self {
                Algorithm::B3S1234 => 4usize,
                Algorithm::B3S12345 => 5usize,
                _ => 3usize,
            },
    {
        match self {
            Algorithm::B3S1234 => 4,
            Algorithm::B3S12345 => 5,
            Algorithm::GameOfLife => 3,
            Algorithm::Original => 0,
        }
    }

    /// The number of open neighbors with which a closed cell opens.
    pub fn born(&self) -> (n: usize)
        requires
            !(*self is Original),
        ensures
            n == 3,
    {
        match self {
            Algorithm::B3S1234 | Algorithm::B3S12345 | Algorithm::GameOfLife => 3,
            Algorithm::Original => 0,
        }
    }
}

/// The eight surrounding cells, wrapping at every edge.
pub open spec fn surrounding() -> GridNeighborType {
    GridNeighborType::Moore { range: 1 }
}

/// How many of the cells listed in `list` hold `CELL_OPEN`.
pub open spec fn open_listed(cells: Seq<Seq<usize>>, w: int, list: Seq<int>) -> int
    decreases list.len(),
{
    if list.len() == 0 {
        0
    } else {
        open_listed(cells, w, list.drop_last()) + if cells[list.last() / w][list.last() % w]
            == CELL_OPEN {
            1int
        } else {
            0
        }
    }
}

/// The number of open cells around `(x, y)`, a cell counted as often as it surrounds it.
pub open spec fn open_around(grid: Grid<usize>, x: int, y: int) -> int {
    open_listed(
        grid.cells(),
        grid.width as int,
        neighbor_list(
            grid.width as int,
            grid.height as int,
            surrounding(),
            GridWrappingStyle::Toroidal,
            y * grid.width + x,
        ),
    )
}

/// The value of a cell after a generation, from its value and its open neighbors.
pub open spec fn next_value(
    algorithm: Algorithm,
    death_limit: int,
    birth_limit: int,
    value: usize,
    count: int,
) -> usize {
    match algorithm {
        Algorithm::Original => if value == CELL_CLOSED {
            if count > birth_limit {
                CELL_OPEN
            } else {
                CELL_CLOSED
            }
        } else {
            if count < death_limit {
                CELL_CLOSED
            } else {
                CELL_OPEN
            }
        },
        _ => if value == CELL_CLOSED {
            if count == 3 {
                CELL_OPEN
            } else {
                CELL_CLOSED
            }
        } else {
            let (live_min, live_max) = match algorithm {
                Algorithm::B3S1234 => (1int, 4int),
                Algorithm::B3S12345 => (1, 5),
                _ => (2, 3),
            };
            if count < live_min || count > live_max {
                CELL_CLOSED
            } else {
                CELL_OPEN
            }
        },
    }
}

/// The grid is one the generations can run on: every cell is open or closed, and its cell
/// count fits the machine.
pub open spec fn cave_ready(grid: Grid<usize>) -> bool {
    &&& grid.wf()
    &&& 1 <= grid.width
    &&& 1 <= grid.height
    &&& grid.width * grid.height * 9 <= isize::MAX
    &&& forall|x: int, y: int|
        0 <= x < grid.width && 0 <= y < grid.height ==> #[trigger] grid.cell(x, y) == CELL_CLOSED
            || grid.cell(x, y) == CELL_OPEN
}

/// The number of open cells among the eight around `(x, y)`, wrapping at the edges.
pub fn count_open_neighbors(grid: &Grid<usize>, x: usize, y: usize) -> (count: usize)
    requires
        cave_ready(*grid),
        x < grid.width,
        y < grid.height,
    ensures
        count == open_around(*grid, x as int, y as int),
{
    let (w, h) = (grid.width, grid.height);
    proof {
        assert(w * h <= w * h * 9 && w * 9 <= w * h * 9 && h * 9 <= w * h * 9) by (nonlinear_arith)
            requires
                w >= 1,
                h >= 1,
        ;
        assert(0 <= y * w + x < w * h) by (nonlinear_arith)
            requires
                x < w,
                y < h,
        ;
    }
    let cell_index = y * w + x;
    let neighbors = CellAutoGrid::neighbors(
        w,
        h,
        &GridNeighborType::Moore { range: 1 },
        &GridWrappingStyle::Toroidal,
        cell_index,
    );
    let ghost list = ints(neighbors@);
    proof {
        lemma_neighbor_list_len(w as int, h as int, surrounding(), GridWrappingStyle::Toroidal, cell_index as int);
        assert(max_neighbors(surrounding()) == 9) by {
            let r: int = 1;
            assert((2 * r + 1) * (2 * r + 1) == 9) by (nonlinear_arith)
                requires
                    r == 1,
            ;
        }
        assert(list.len() == neighbors@.len());
    }
    let mut count: usize = 0;
    for k in 0..neighbors.len()
        invariant
            cave_ready(*grid),
            w == grid.width,
            h == grid.height,
            list == ints(neighbors@),
            forall|j: int| 0 <= j < neighbors@.len() ==> #[trigger] neighbors@[j] < w * h,
            neighbors@.len() <= 9,
            count <= k,
            count == open_listed(grid.cells(), w as int, list.take(k as int)),
    {
        let neighbor = neighbors[k];
        proof {
            assert(list.take(k + 1).drop_last() =~= list.take(k as int));
            assert(0 <= neighbor / w < h && 0 <= neighbor % w < w) by (nonlinear_arith)
                requires
                    neighbor < w * h,
                    w >= 1,
            ;
        }
        if grid.get_xy(neighbor % w, neighbor / w) == CELL_OPEN {
            count += 1;
        }
    }
    proof {
        assert(list.take(neighbors@.len() as int) =~= list);
    }
    count
}

/// The grid after one generation: every cell takes its next value by `algorithm`, judged by
/// the open cells around it before the generation.
pub fn next_generation(
    grid: &Grid<usize>,
    algorithm: &Algorithm,
    death_limit: usize,
    birth_limit: usize,
) -> (new_grid: Grid<usize>)
    requires
        cave_ready(*grid),
    ensures
        cave_ready(new_grid),
        new_grid.width == grid.width,
        new_grid.height == grid.height,
        new_grid.default_value == grid.default_value,
        !new_grid.record_events,
        forall|x: int, y: int|
            0 <= x < grid.width && 0 <= y < grid.height ==> #[trigger] new_grid.cell(x, y) == next_value(
                *algorithm,
                death_limit as int,
                birth_limit as int,
                grid.cell(x, y),
                open_around(*grid, x, y),
            ),
        !(*algorithm is Original) ==> forall|x: int, y: int|
            0 <= x < grid.width && 0 <= y < grid.height ==> (#[trigger] new_grid.cell(x, y) == CELL_OPEN) == if grid.cell(
                x,
                y,
            ) == CELL_OPEN {
                let c = open_around(*grid, x, y);
                match *algorithm {
                    Algorithm::B3S1234 => 1 <= c <= 4,
                    Algorithm::B3S12345 => 1 <= c <= 5,
                    _ => 2 <= c <= 3,
                }
            } else {
                open_around(*grid, x, y) == 3
            },
{
    let (width, height) = (grid.width, grid.height);
    let mut new_grid = Grid::new(width, height, grid.default_value);
    new_grid.record_events = false;
    for y in 0..height
        invariant
            cave_ready(*grid),
            width == grid.width,
            height == grid.height,
            new_grid.wf(),
            new_grid.width == width,
            new_grid.height == height,
            new_grid.default_value == grid.default_value,
            !new_grid.record_events,
            forall|cx: int, cy: int|
                0 <= cx < width && 0 <= cy < y ==> #[trigger] new_grid.cell(cx, cy) == next_value(
                    *algorithm,
                    death_limit as int,
                    birth_limit as int,
                    grid.cell(cx, cy),
                    open_around(*grid, cx, cy),
                ),
    {
        for x in 0..width
            invariant
                cave_ready(*grid),
                width == grid.width,
                height == grid.height,
                y < height,
                new_grid.wf(),
                new_grid.width == width,
                new_grid.height == height,
                new_grid.default_value == grid.default_value,
                !new_grid.record_events,
                forall|cx: int, cy: int|
                    0 <= cx < width && 0 <= cy < height && (cy < y || (cy == y && cx < x))
                        ==> #[trigger] new_grid.cell(cx, cy) == next_value(
                        *algorithm,
                        death_limit as int,
                        birth_limit as int,
                        grid.cell(cx, cy),
                        open_around(*grid, cx, cy),
                    ),
        {
            let count = count_open_neighbors(grid, x, y);
            let value = grid.get_xy(x, y);
            let next = match algorithm {
                Algorithm::Original => {
                    if value == CELL_CLOSED {
                        if count > birth_limit {
                            CELL_OPEN
                        } else {
                            CELL_CLOSED
                        }
                    } else {
                        if count < death_limit {
                            CELL_CLOSED
                        } else {
                            CELL_OPEN
                        }
                    }
                },
                Algorithm::B3S1234 | Algorithm::B3S12345 | Algorithm::GameOfLife => {
                    if value == CELL_CLOSED {
                        if count == algorithm.born() {
                            CELL_OPEN
                        } else {
                            CELL_CLOSED
                        }
                    } else {
                        if count < algorithm.live_min() || count > algorithm.live_max() {
                            CELL_CLOSED
                        } else {
                            CELL_OPEN
                        }
                    }
                },
            };
            new_grid.set_xy(x, y, next);
        }
    }
    proof {
        assert(is_next_generation(*grid, new_grid, *algorithm, death_limit as int, birth_limit as int));
        assert forall|x: int, y: int| !(*algorithm is Original) && 0 <= x < grid.width && 0 <= y < grid.height implies (#[trigger] new_grid.cell(x, y)
            == CELL_OPEN) == if grid.cell(x, y) == CELL_OPEN {
            let c = open_around(*grid, x, y);
            match *algorithm {
                Algorithm::B3S1234 => 1 <= c <= 4,
                Algorithm::B3S12345 => 1 <= c <= 5,
                _ => 2 <= c <= 3,
            }
        } else {
            open_around(*grid, x, y) == 3
        } by {
            law_generation_rules(*grid, new_grid, *algorithm, death_limit as int, birth_limit as int, x, y);
        }
    }
    new_grid
}

/// `new_grid` is the generation after `grid`: the same sizes and default, no events recorded,
/// and each cell the next value of the cell under the rule given its open neighbors.
pub open spec fn is_next_generation(
    grid: Grid<usize>,
    new_grid: Grid<usize>,
    algorithm: Algorithm,
    death_limit: int,
    birth_limit: int,
) -> bool {
    &&& cave_ready(new_grid)
    &&& new_grid.width == grid.width
    &&& new_grid.height == grid.height
    &&& new_grid.default_value == grid.default_value
    &&& !new_grid.record_events
    &&& forall|x: int, y: int|
        0 <= x < grid.width && 0 <= y < grid.height ==> #[trigger] new_grid.cell(x, y) == next_value(
            algorithm,
            death_limit,
            birth_limit,
            grid.cell(x, y),
            open_around(grid, x, y),
        )
}

/// `grid` and the `steps` generations after it, first to last.
pub fn generations(grid: Grid<usize>, steps: usize, algorithm: &Algorithm, death_limit: usize, birth_limit: usize) -> (gs:
    Vec<Grid<usize>>)
    requires
        cave_ready(grid),
    ensures
        gs@.len() == steps + 1,
        gs@[0] == grid,
        forall|i: int| 0 <= i < steps ==> is_next_generation(
            #[trigger] gs@[i],
            gs@[i + 1],
            *algorithm,
            death_limit as int,
            birth_limit as int,
        ),
{
    let ghost first = grid;
    let mut gs: Vec<Grid<usize>> = Vec::new();
    gs.push(grid);
    for i in 0..steps
        invariant
            gs@.len() == i + 1,
            gs@[0] == first,
            cave_ready(gs@[i as int]),
            forall|k: int| 0 <= k < i ==> is_next_generation(
                #[trigger] gs@[k],
                gs@[k + 1],
                *algorithm,
                death_limit as int,
                birth_limit as int,
            ),
    {
        let next = next_generation(&gs[i], algorithm, death_limit, birth_limit);
        let ghost before = gs@;
        gs.push(next);
        proof {
            assert(gs@[i as int] == before[i as int]);
            assert forall|k: int| 0 <= k < i + 1 implies is_next_generation(
                #[trigger] gs@[k],
                gs@[k + 1],
                *algorithm,
                death_limit as int,
                birth_limit as int,
            ) by {
                assert(gs@[k] == before[k]);
                if k < i {
                    assert(gs@[k + 1] == before[k + 1]);
                }
            }
        }
    }
    gs
}

/// The rules of a generation, cell by cell, for any grid and the generation after it. Under the
/// life rules a closed cell opens exactly when three of its eight surrounding cells are open,
/// and an open cell stays open exactly when from two to three (Game of Life), from one to four
/// (B3S1234) or from one to five (B3S12345) of them are open: more close it by overcrowding,
/// fewer by isolation. Under the original rule a closed cell opens when more than
/// `birth_limit` are open, and an open cell closes when fewer than `death_limit` are.
pub proof fn law_generation_rules(
    grid: Grid<usize>,
    new_grid: Grid<usize>,
    algorithm: Algorithm,
    death_limit: int,
    birth_limit: int,
    x: int,
    y: int,
)
    requires
        cave_ready(grid),
        is_next_generation(grid, new_grid, algorithm, death_limit, birth_limit),
        0 <= x < grid.width,
        0 <= y < grid.height,
    ensures
        ({
            let c = open_around(grid, x, y);
            let was_open = grid.cell(x, y) == CELL_OPEN;
            let now_open = new_grid.cell(x, y) == CELL_OPEN;
            &&& new_grid.cell(x, y) == CELL_OPEN || new_grid.cell(x, y) == CELL_CLOSED
            &&& match algorithm {
                Algorithm::Original => now_open == if was_open {
                    c >= death_limit
                } else {
                    c > birth_limit
                },
                Algorithm::GameOfLife => now_open == if was_open {
                    2 <= c <= 3
                } else {
                    c == 3
                },
                Algorithm::B3S1234 => now_open == if was_open {
                    1 <= c <= 4
                } else {
                    c == 3
                },
                Algorithm::B3S12345 => now_open == if was_open {
                    1 <= c <= 5
                } else {
                    c == 3
                },
            }
        }),
{
    assert(grid.cell(x, y) == CELL_CLOSED || grid.cell(x, y) == CELL_OPEN);
}

} // verus!
