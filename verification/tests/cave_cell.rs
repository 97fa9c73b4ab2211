use draw::cave_cell::{count_open_neighbors, generations, next_generation, Algorithm, CELL_CLOSED, CELL_OPEN};
use draw::grid::Grid;

fn grid_from(rows: &[&[usize]]) -> Grid<usize> {
    let mut grid = Grid::new(rows[0].len(), rows.len(), CELL_CLOSED);
    grid.record_events = false;
    for (y, row) in rows.iter().enumerate() {
        for (x, value) in row.iter().enumerate() {
            grid.set_xy(x, y, *value);
        }
    }
    grid
}

fn rows(grid: &Grid<usize>) -> Vec<Vec<usize>> {
    (0..grid.height).map(|y| (0..grid.width).map(|x| grid.get_xy(x, y)).collect()).collect()
}

#[test]
fn limits_of_the_life_rules() {
    assert_eq!((Algorithm::B3S1234.live_min(), Algorithm::B3S1234.live_max(), Algorithm::B3S1234.born()), (1, 4, 3));
    assert_eq!((Algorithm::B3S12345.live_min(), Algorithm::B3S12345.live_max()), (1, 5));
    assert_eq!((Algorithm::GameOfLife.live_min(), Algorithm::GameOfLife.live_max()), (2, 3));
}

#[test]
fn neighbors_wrap_at_every_edge() {
    let grid = grid_from(&[&[1, 0, 0, 0], &[0, 0, 0, 0], &[0, 0, 0, 0], &[0, 0, 0, 1]]);
    assert_eq!(count_open_neighbors(&grid, 0, 0), 1);
    assert_eq!(count_open_neighbors(&grid, 3, 0), 2);
    assert_eq!(count_open_neighbors(&grid, 1, 1), 1);
    assert_eq!(count_open_neighbors(&grid, 2, 2), 1);
    assert_eq!(count_open_neighbors(&grid, 1, 2), 0);
}

#[test]
fn life_blinker_turns() {
    let grid = grid_from(&[
        &[0, 0, 0, 0, 0],
        &[0, 0, 0, 0, 0],
        &[0, 1, 1, 1, 0],
        &[0, 0, 0, 0, 0],
        &[0, 0, 0, 0, 0],
    ]);
    let next = next_generation(&grid, &Algorithm::GameOfLife, 3, 4);
    assert_eq!(
        rows(&next),
        vec![vec![0, 0, 0, 0, 0], vec![0, 0, 1, 0, 0], vec![0, 0, 1, 0, 0], vec![0, 0, 1, 0, 0], vec![0, 0, 0, 0, 0]]
    );
    assert!(!next.record_events);
}

#[test]
fn original_rule_uses_the_limits() {
    let grid = grid_from(&[
        &[1, 1, 1, 0],
        &[1, 0, 1, 0],
        &[0, 0, 0, 0],
        &[0, 0, 0, 0],
    ]);
    let next = next_generation(&grid, &Algorithm::Original, 3, 4);
    // The hole has five open neighbors, more than the birth limit, and opens; cell (3, 1)
    // has four, no more than it, and stays closed.
    assert_eq!(next.get_xy(1, 1), CELL_OPEN);
    assert_eq!(next.get_xy(3, 1), CELL_CLOSED);
    // The top middle has four open neighbors, at least the death limit, and stays open.
    assert_eq!(next.get_xy(1, 0), CELL_OPEN);
}

#[test]
fn generations_run_the_rule_step_by_step() {
    let grid = grid_from(&[
        &[0, 0, 0, 0, 0],
        &[0, 0, 0, 0, 0],
        &[0, 1, 1, 1, 0],
        &[0, 0, 0, 0, 0],
        &[0, 0, 0, 0, 0],
    ]);
    let first = rows(&grid);
    let gs = generations(grid, 3, &Algorithm::GameOfLife, 3, 4);
    assert_eq!(gs.len(), 4);
    assert_eq!(rows(&gs[0]), first);
    for i in 0..3 {
        let next = next_generation(&gs[i], &Algorithm::GameOfLife, 3, 4);
        assert_eq!(rows(&gs[i + 1]), rows(&next));
    }
    // A blinker returns to itself every second generation.
    assert_eq!(rows(&gs[2]), first);
    assert_eq!(generations(gs[3].clone(), 0, &Algorithm::Original, 3, 4).len(), 1);
}
