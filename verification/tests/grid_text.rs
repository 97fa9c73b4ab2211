use draw::grid::Grid;

fn numbered(width: usize, height: usize) -> Grid<usize> {
    let mut grid = Grid::new(width, height, 0usize);
    grid.record_events = false;
    for y in 0..height {
        for x in 0..width {
            grid.set_xy(x, y, y * 10 + x + 1);
        }
    }
    grid
}

#[test]
fn text_of_a_small_grid() {
    let grid = numbered(2, 2);
    let text = grid.to_text();
    assert_eq!(String::from_utf8(text).unwrap(), "2\n2\n1\t2\n11\t12");
}

#[test]
fn text_of_a_grid_with_large_values() {
    let mut grid = Grid::new(3, 1, 0usize);
    grid.record_events = false;
    grid.set_xy(0, 0, 0);
    grid.set_xy(1, 0, 1234567);
    grid.set_xy(2, 0, 90);
    let text = grid.to_text();
    assert_eq!(String::from_utf8(text).unwrap(), "3\n1\n0\t1234567\t90");
}

#[test]
fn text_round_trip() {
    let grid = numbered(4, 3);
    let back = Grid::<usize>::from_text(&grid.to_text()).unwrap();
    assert_eq!(back.width, 4);
    assert_eq!(back.height, 3);
    assert_eq!(back.cell_values, grid.cell_values);
    assert_eq!(back.default_value, 0);
    assert!(back.record_events);
    assert!(back.events.is_empty());
}

#[test]
fn text_with_plus_signs_parses() {
    let grid = Grid::<usize>::from_text(b"+2\n1\n+5\t6").unwrap();
    assert_eq!(grid.width, 2);
    assert_eq!(grid.height, 1);
    assert_eq!(grid.cell_values, vec![vec![5, 6]]);
}

#[test]
fn text_without_the_height_line_is_refused() {
    assert!(Grid::<usize>::from_text(b"2").is_none());
    assert!(Grid::<usize>::from_text(b"").is_none());
}

#[test]
fn text_with_a_bad_number_is_refused() {
    assert!(Grid::<usize>::from_text(b"x\n1\n1").is_none());
    assert!(Grid::<usize>::from_text(b"1\n-1\n1").is_none());
    assert!(Grid::<usize>::from_text(b"2\n1\n1\t").is_none());
    assert!(Grid::<usize>::from_text(b"1\n1\n99999999999999999999999").is_none());
    assert!(Grid::<usize>::from_text(b"1\n1\n+").is_none());
}

#[test]
fn text_with_only_the_sizes_has_no_rows() {
    let grid = Grid::<usize>::from_text(b"3\n4").unwrap();
    assert_eq!(grid.width, 3);
    assert_eq!(grid.height, 4);
    assert!(grid.cell_values.is_empty());
}
