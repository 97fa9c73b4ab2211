use draw::cell_auto::{CellAutoAlgorithm, CellAutoCell, CellAutoGrid};
use draw::grid::{GridNeighborType, GridWrappingStyle};

fn open_cells(grid: &CellAutoGrid) -> Vec<usize> {
    (0..grid.cells.len()).filter(|i| grid.cells[*i].open).collect()
}

#[test]
fn moore_neighbors_in_row_order() {
    let moore = GridNeighborType::Moore { range: 1 };
    assert_eq!(
        CellAutoGrid::neighbors(3, 3, &moore, &GridWrappingStyle::Unwrapped, 4),
        vec![0, 1, 2, 3, 5, 6, 7, 8]
    );
    assert_eq!(CellAutoGrid::neighbors(3, 3, &moore, &GridWrappingStyle::Unwrapped, 0), vec![1, 3, 4]);
    assert_eq!(
        CellAutoGrid::neighbors(3, 3, &moore, &GridWrappingStyle::Toroidal, 0),
        vec![8, 6, 7, 2, 1, 5, 3, 4]
    );
}

#[test]
fn von_neumann_neighbors_column_then_row() {
    let cross = GridNeighborType::VonNeuman { range: 1 };
    assert_eq!(CellAutoGrid::neighbors(3, 3, &cross, &GridWrappingStyle::Unwrapped, 4), vec![1, 7, 3, 5]);
    assert_eq!(CellAutoGrid::neighbors(3, 3, &cross, &GridWrappingStyle::Horizontal, 0), vec![3, 2, 1]);
    assert_eq!(CellAutoGrid::neighbors(3, 3, &cross, &GridWrappingStyle::Vertical, 0), vec![6, 3, 1]);
    let wide = GridNeighborType::VonNeuman { range: 2 };
    assert_eq!(CellAutoGrid::neighbors(5, 1, &wide, &GridWrappingStyle::Unwrapped, 2), vec![0, 1, 3, 4]);
}

#[test]
fn rules_of_the_algorithms() {
    assert!(CellAutoAlgorithm::Original.should_open(5));
    assert!(!CellAutoAlgorithm::Original.should_open(4));
    assert!(CellAutoAlgorithm::Original.should_close(2));
    assert!(!CellAutoAlgorithm::Original.should_close(3));
    assert!(CellAutoAlgorithm::GameOfLife.should_open(3));
    assert!(!CellAutoAlgorithm::GameOfLife.should_open(2));
    assert!(CellAutoAlgorithm::GameOfLife.should_close(1));
    assert!(CellAutoAlgorithm::GameOfLife.should_close(4));
    assert!(!CellAutoAlgorithm::GameOfLife.should_close(2));
    assert!(CellAutoAlgorithm::B3S1234.should_close(0));
    assert!(!CellAutoAlgorithm::B3S1234.should_close(4));
    assert!(CellAutoAlgorithm::B3S1234.should_close(5));
    assert!(!CellAutoAlgorithm::B3S12345.should_close(5));
    assert!(CellAutoAlgorithm::B3S12345.should_close(6));
}

#[test]
fn new_cell_is_closed() {
    let cell = CellAutoCell::new(vec![1, 2]);
    assert!(!cell.open);
    assert_eq!(cell.neighbors, vec![1, 2]);
    assert_eq!(cell.neighbor_open_count, 0);
}

#[test]
fn opening_and_closing_keep_counts() {
    let mut grid = CellAutoGrid::new(
        3,
        3,
        CellAutoAlgorithm::GameOfLife,
        GridNeighborType::Moore { range: 1 },
        GridWrappingStyle::Unwrapped,
    );
    grid.open(4);
    grid.open(4);
    grid.open(0);
    assert_eq!(open_cells(&grid), vec![0, 4]);
    let counts: Vec<usize> = grid.cells.iter().map(|c| c.neighbor_open_count).collect();
    assert_eq!(counts, vec![1, 2, 1, 2, 1, 1, 1, 1, 1]);
    grid.close(4);
    grid.close(4);
    let counts: Vec<usize> = grid.cells.iter().map(|c| c.neighbor_open_count).collect();
    assert_eq!(counts, vec![0, 1, 0, 1, 1, 0, 0, 0, 0]);
}

#[test]
fn blinker_turns() {
    let mut grid = CellAutoGrid::new(
        5,
        5,
        CellAutoAlgorithm::GameOfLife,
        GridNeighborType::Moore { range: 1 },
        GridWrappingStyle::Toroidal,
    );
    for i in [11usize, 12, 13].iter() {
        grid.open(*i);
    }
    grid.step();
    assert_eq!(open_cells(&grid), vec![7, 12, 17]);
    assert_eq!(grid.cells[12].neighbor_open_count, 2);
    grid.step();
    assert_eq!(open_cells(&grid), vec![11, 12, 13]);
}

#[test]
fn cave_rule_fills_crowded_cells() {
    let mut grid = CellAutoGrid::new(
        3,
        3,
        CellAutoAlgorithm::Original,
        GridNeighborType::Moore { range: 1 },
        GridWrappingStyle::Unwrapped,
    );
    for i in [0usize, 1, 2, 3, 5].iter() {
        grid.open(*i);
    }
    grid.step();
    // The center has five open neighbors and opens; the top middle keeps four and stays; the
    // others have two and close.
    assert_eq!(open_cells(&grid), vec![1, 4]);
}

#[test]
fn state_grid_shows_open_cells() {
    let mut grid = CellAutoGrid::new(
        5,
        5,
        CellAutoAlgorithm::GameOfLife,
        GridNeighborType::Moore { range: 1 },
        GridWrappingStyle::Toroidal,
    );
    for i in [11usize, 12, 13].iter() {
        grid.open(*i);
    }
    let states = grid.state_grid();
    assert_eq!(states.width, 5);
    assert_eq!(states.height, 5);
    let rows: Vec<Vec<usize>> = (0..5).map(|y| (0..5).map(|x| states.get_xy(x, y)).collect()).collect();
    assert_eq!(rows[2], vec![0, 1, 1, 1, 0]);
    assert_eq!(rows.iter().map(|row| row.iter().sum::<usize>()).sum::<usize>(), 3);
}

#[test]
fn neighbor_relation_is_symmetric() {
    let (width, height) = (5usize, 4usize);
    let types = [GridNeighborType::Moore { range: 1 }, GridNeighborType::VonNeuman { range: 2 }];
    let styles = [GridWrappingStyle::Unwrapped, GridWrappingStyle::Horizontal, GridWrappingStyle::Vertical, GridWrappingStyle::Toroidal];
    for neighbor_type in types.iter() {
        for style in styles.iter() {
            let lists: Vec<Vec<usize>> =
                (0..width * height).map(|i| CellAutoGrid::neighbors(width, height, neighbor_type, style, i)).collect();
            for i in 0..width * height {
                for j in 0..width * height {
                    assert_eq!(lists[i].contains(&j), lists[j].contains(&i));
                }
            }
        }
    }
}
