use draw::grid::{extent_room, Grid, GridCoord, GridEvent, GridRectangle, Point};

fn rows(grid: &Grid<usize>) -> Vec<Vec<usize>> {
    (0..grid.height).map(|y| (0..grid.width).map(|x| grid.get_xy(x, y)).collect()).collect()
}

fn numbered(size: usize) -> Grid<usize> {
    let mut grid = Grid::new(size, size, 0);
    grid.record_events = false;
    for y in 0..size {
        for x in 0..size {
            grid.set_xy(x, y, y * 10 + x);
        }
    }
    grid
}

#[test]
fn new_grid_holds_the_default() {
    let grid = Grid::new(3, 2, 7usize);
    assert_eq!(rows(&grid), vec![vec![7, 7, 7], vec![7, 7, 7]]);
    assert!(grid.record_events);
    assert!(grid.events.is_empty());
    assert!(grid.coord_is_in_grid(GridCoord::new(2, 1)));
    assert!(!grid.coord_is_in_grid(GridCoord::new(3, 1)));
}

#[test]
fn events_apply_in_order_and_are_kept() {
    let mut grid = Grid::new(2, 2, 0usize);
    let mut event = GridEvent::new();
    event.set_cell(GridCoord::new(1, 0), 5);
    event.set_cell(GridCoord::new(1, 0), 6);
    event.set_cell(GridCoord::new(0, 1), 2);
    grid.add_event(event);
    assert_eq!(rows(&grid), vec![vec![0, 6], vec![2, 0]]);
    assert_eq!(grid.events.len(), 1);
    assert_eq!(grid.get_coord(GridCoord::new(1, 0)), 6);
}

#[test]
fn set_coord_changes_one_cell() {
    let mut grid = Grid::new(2, 2, 1usize);
    grid.record_events = false;
    grid.set_coord(GridCoord::new(0, 1), 9);
    assert_eq!(rows(&grid), vec![vec![1, 1], vec![9, 1]]);
}

#[test]
fn corners_are_reordered() {
    let mut a = Point::new(5, 1);
    let mut b = Point::new(2, 4);
    Point::fix_top_left_bottom_right(&mut a, &mut b);
    assert_eq!((a.x, a.y, b.x, b.y), (2, 1, 5, 4));
}

#[test]
fn wedge_membership() {
    let grid = Grid::new(8, 8, 0usize);
    assert!(grid.point_in_wedge(0, 0));
    assert!(grid.point_in_wedge(2, 3));
    assert!(!grid.point_in_wedge(3, 2));
    assert!(!grid.point_in_wedge(0, 4));
    assert!(grid.rectangle_inside_wedge_xy(0, 1, 1, 3));
    assert!(!grid.rectangle_inside_wedge_xy(0, 0, 1, 1));
    assert!(grid.rectangle_intersects_wedge_xy(0, 0, 1, 1));
    assert!(!grid.rectangle_intersects_wedge_xy(4, 0, 7, 3));
    assert!(!grid.rectangle_intersects_wedge_xy(0, 4, 3, 7));
    let rectangle = GridRectangle::new(1, 2, 2, 3);
    assert!(grid.rectangle_inside_wedge(&rectangle));
    assert!(grid.rectangle_intersects_wedge(&rectangle));
    assert!(grid.contains_rectangle(&rectangle));
    assert!(!grid.contains_rectangle(&GridRectangle::new(1, 2, 8, 3)));
}

#[test]
fn reflections() {
    let mut grid = numbered(4);
    grid.reflect_copy_wedge();
    assert_eq!(rows(&grid), vec![vec![0, 10, 2, 3], vec![10, 11, 12, 13], vec![20, 21, 22, 23], vec![30, 31, 32, 33]]);
    let mut grid = numbered(4);
    grid.reflect_copy_top_left_quarter();
    assert_eq!(rows(&grid), vec![vec![0, 1, 2, 3], vec![10, 11, 11, 10], vec![20, 21, 22, 23], vec![30, 31, 32, 33]]);
    let mut grid = numbered(4);
    grid.reflect_copy_top_half();
    assert_eq!(rows(&grid), vec![vec![0, 1, 2, 3], vec![10, 11, 12, 13], vec![10, 11, 12, 13], vec![30, 31, 32, 33]]);
}

#[test]
fn completion_from_the_wedge() {
    let mut grid = numbered(4);
    grid.complete_from_wedge();
    assert_eq!(rows(&grid), vec![vec![0, 10, 2, 3], vec![10, 11, 11, 10], vec![10, 11, 11, 10], vec![30, 31, 32, 33]]);
}

#[test]
fn outline_sets_the_border() {
    let mut grid = Grid::new(4, 4, 0usize);
    grid.record_events = false;
    grid.outline_rectangle(&GridRectangle::new(0, 1, 2, 3), &1);
    assert_eq!(rows(&grid), vec![vec![0, 0, 0, 0], vec![1, 1, 1, 0], vec![1, 0, 1, 0], vec![1, 1, 1, 0]]);
}

#[test]
fn min_and_max() {
    let grid = numbered(3);
    assert_eq!(grid.min_max(), (0, 22));
}

#[test]
fn random_rectangles_lie_inside() {
    let grid = Grid::new(5, 4, 0usize);
    for _ in 0..50 {
        let rectangle = grid.random_rectangle();
        assert!(grid.contains_rectangle(&rectangle));
        let limited = grid.random_rectangle_limit(2, 1);
        assert!(grid.contains_rectangle(&limited));
    }
}

#[test]
fn new_from_maps_every_cell_and_event() {
    let mut source = Grid::new(2, 2, 0usize);
    let mut event = GridEvent::new();
    event.set_cell(GridCoord::new(1, 0), 12);
    source.add_event(event);
    let chars = Grid::new_from(&source, ' ', draw::carpet::count_to_char);
    assert_eq!(chars.width, 2);
    assert_eq!(chars.height, 2);
    assert_eq!(chars.default_value, ' ');
    assert!(chars.record_events);
    assert_eq!(chars.cell_values, vec![vec!['\'', 'c'], vec!['\'', '\'']]);
    assert_eq!(chars.events.len(), 1);
    assert_eq!(chars.events[0].cells.len(), 1);
    assert_eq!((chars.events[0].cells[0].coord.x, chars.events[0].cells[0].coord.y), (1, 0));
    assert_eq!(chars.events[0].cells[0].value, 'c');
}

#[test]
fn fill_non_wedge_keeps_only_the_wedge() {
    let mut grid = numbered(4);
    draw::grid::fill_grid_non_wedge(&mut grid, &99);
    assert_eq!(
        rows(&grid),
        vec![vec![0, 99, 99, 99], vec![10, 11, 99, 99], vec![99, 99, 99, 99], vec![99, 99, 99, 99]]
    );
}

#[test]
fn grids_are_equal_by_size_and_cells() {
    let a = numbered(3);
    let mut b = numbered(3);
    b.default_value = 5;
    b.record_events = true;
    b.add_event(GridEvent::new());
    assert!(a == b);
    b.record_events = false;
    b.set_xy(2, 1, 0);
    assert!(a != b);
    assert!(numbered(3) != numbered(4));
    let mut c = numbered(3);
    c.height = 2;
    assert!(a != c);
}

#[test]
fn completed_grid_is_mirrored() {
    let mut grid = numbered(6);
    grid.complete_from_wedge();
    let cells = rows(&grid);
    for y in 0..3 {
        for x in 0..3 {
            assert_eq!(cells[y][x], cells[x][y]);
        }
    }
    for y in 1..5 {
        for x in 0..6 {
            assert_eq!(cells[y][x], cells[y][5 - x]);
            assert_eq!(cells[y][x], cells[5 - y][x]);
        }
    }
    // The first and the last rows are left as they were outside the quarter.
    assert_eq!(cells[0], vec![0, 10, 20, 3, 4, 5]);
    assert_eq!(cells[5], vec![50, 51, 52, 53, 54, 55]);
}

#[test]
fn positions_of_changed_grids() {
    let a = numbered(2);
    let mut b = numbered(2);
    b.set_xy(0, 0, 9);
    let grids = vec![a.clone(), a.clone(), b.clone(), b.clone(), a.clone(), numbered(3)];
    assert_eq!(draw::grid_eq::changed_positions(&grids), vec![0, 2, 4, 5]);
    assert_eq!(draw::grid_eq::changed_positions(&Vec::new()), Vec::<usize>::new());
}

#[test]
fn a_read_gives_back_the_last_write() {
    let mut grid = numbered(3);
    grid.set_xy(1, 2, 99);
    grid.set_coord(GridCoord::new(0, 0), 7);
    grid.set_xy(1, 2, 42);
    assert_eq!(grid.get_xy(1, 2), 42);
    assert_eq!(grid.get_coord(GridCoord::new(0, 0)), 7);
    assert_eq!(rows(&grid), vec![vec![7, 1, 2], vec![10, 11, 12], vec![20, 42, 22]]);
}

#[test]
fn spanning_orders_the_corners() {
    let mut grid = Grid::new(5, 4, 0usize);
    let rectangle = GridRectangle::spanning(3, 2, 1, 0);
    assert!(grid.contains_rectangle(&rectangle));
    grid.outline_rectangle(&rectangle, &7);
    assert_eq!(grid.get_xy(1, 0), 7);
    assert_eq!(grid.get_xy(3, 0), 7);
    assert_eq!(grid.get_xy(1, 2), 7);
    assert_eq!(grid.get_xy(3, 2), 7);
    assert_eq!(grid.get_xy(2, 1), 0);
    assert_eq!(grid.get_xy(0, 0), 0);
    assert_eq!(grid.get_xy(4, 3), 0);
    assert_eq!(grid.get_xy(2, 3), 0);
}

#[test]
fn extent_room_stops_at_the_edge_or_the_limit() {
    assert_eq!(extent_room(10, 2, 4), 3);
    assert_eq!(extent_room(10, 8, 4), 1);
    assert_eq!(extent_room(10, 9, 4), 0);
    assert_eq!(extent_room(10, 0, 1), 0);
    assert_eq!(extent_room(10, 0, 100), 9);
}
