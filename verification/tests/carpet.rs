use draw::carpet::{count_to_char, count_to_char_black_white, create_one, Carpet, CarpetAlgorithm, Direction};

fn rows(carpet: &Carpet) -> Vec<Vec<usize>> {
    (0..carpet.size).map(|y| (0..carpet.size).map(|x| carpet.grid.get_xy(x, y)).collect()).collect()
}

#[test]
fn algorithm_names() {
    assert_eq!(CarpetAlgorithm::Simple.to_name(), "Simple");
    assert_eq!(CarpetAlgorithm::Wedge.to_name(), "Wedge");
    assert_eq!(CarpetAlgorithm::FlatSquare.to_name(), "FlatSquare");
    assert!(CarpetAlgorithm::Wedge == CarpetAlgorithm::Wedge);
    assert!(CarpetAlgorithm::Wedge != CarpetAlgorithm::Simple);
}

#[test]
fn directions_turn_counter_clockwise() {
    let mut direction = Direction::Down;
    let mut names = vec![];
    for _ in 0..4 {
        direction = direction.ccw();
        names.push(match direction {
            Direction::Up => "up",
            Direction::Left => "left",
            Direction::Down => "down",
            Direction::Right => "right",
        });
    }
    assert_eq!(names, vec!["right", "up", "left", "down"]);
}

#[test]
fn one_square_counts_its_sides() {
    let carpet = create_one(4, 1, vec![4], vec![4], CarpetAlgorithm::Simple);
    assert_eq!(rows(&carpet), vec![vec![2, 1, 1, 2], vec![1, 0, 0, 1], vec![1, 0, 0, 1], vec![2, 1, 1, 2]]);
}

#[test]
fn each_side_ends_in_a_smaller_square() {
    let carpet = create_one(4, 1, vec![4, 2], vec![4, 2], CarpetAlgorithm::Simple);
    assert_eq!(rows(&carpet), vec![vec![4, 3, 3, 4], vec![3, 2, 2, 3], vec![3, 2, 2, 3], vec![4, 3, 3, 4]]);
}

#[test]
fn recording_events_gives_the_same_counts() {
    let mut carpet = Carpet::new(4, 1, vec![4, 2], vec![4, 2], CarpetAlgorithm::Simple, true);
    carpet.go();
    assert_eq!(rows(&carpet), vec![vec![4, 3, 3, 4], vec![3, 2, 2, 3], vec![3, 2, 2, 3], vec![4, 3, 3, 4]]);
    // One event per side: four sides of the big square and four of each small one.
    assert_eq!(carpet.grid.events.len(), 20);
}

#[test]
fn wedge_and_flat_squares_agree() {
    let wedge = create_one(4, 1, vec![4, 2], vec![4, 2], CarpetAlgorithm::Wedge);
    let flat = create_one(4, 1, vec![4, 2], vec![4, 2], CarpetAlgorithm::FlatSquare);
    let expected = vec![vec![4, 3, 1, 2], vec![3, 2, 2, 3], vec![3, 2, 2, 3], vec![2, 1, 1, 2]];
    assert_eq!(rows(&wedge), expected);
    assert_eq!(rows(&flat), expected);
}

#[test]
fn count_characters() {
    assert_eq!(count_to_char(&0), '\'');
    assert_eq!(count_to_char(&5), '5');
    assert_eq!(count_to_char(&10), 'a');
    assert_eq!(count_to_char(&35), 'z');
    assert_eq!(count_to_char(&36), '#');
    assert_eq!(count_to_char_black_white(&4), '\u{2591}');
    assert_eq!(count_to_char_black_white(&7), '\u{2593}');
}

#[test]
fn counts_fit_for_shallow_carpets_only() {
    assert!(draw::carpet::counts_fit(&vec![8, 4, 2], &vec![], CarpetAlgorithm::Simple));
    assert!(draw::carpet::counts_fit(&vec![8], &vec![8, 4, 2], CarpetAlgorithm::FlatSquare));
    let deep = vec![1usize; 40];
    assert!(!draw::carpet::counts_fit(&deep, &vec![], CarpetAlgorithm::Wedge));
    assert!(!draw::carpet::counts_fit(&vec![8], &deep, CarpetAlgorithm::FlatSquare));
}

#[test]
fn counters_count_the_drawing_work() {
    let simple = create_one(4, 1, vec![4, 2], vec![4, 2], CarpetAlgorithm::Simple);
    assert_eq!(simple.count_square, 5);
    assert_eq!(simple.count_side, 20);
    assert_eq!(simple.count_touch_rect, 20);
    assert_eq!(simple.count_check_square_in_wedge, 0);

    let wedge = create_one(4, 1, vec![4, 2], vec![4, 2], CarpetAlgorithm::Wedge);
    assert_eq!(wedge.count_check_square_in_wedge, 5);
    assert_eq!(wedge.count_side, 4 * wedge.count_square);
    assert_eq!(wedge.count_touch_rect, wedge.count_side);

    let flat = create_one(4, 1, vec![4, 2], vec![4, 2], CarpetAlgorithm::FlatSquare);
    assert_eq!((flat.count_square, flat.count_side, flat.count_touch_rect, flat.count_check_square_in_wedge), (0, 0, 0, 0));
}

#[test]
fn recording_events_touches_no_box_directly() {
    let mut carpet = Carpet::new(4, 1, vec![4, 2], vec![4, 2], CarpetAlgorithm::Simple, true);
    carpet.go();
    assert_eq!(carpet.count_square, 5);
    assert_eq!(carpet.count_side, 20);
    assert_eq!(carpet.count_touch_rect, 0);
}

#[test]
fn each_side_records_one_event_over_its_box() {
    let mut carpet = Carpet::new(4, 1, vec![4, 2], vec![4, 2], CarpetAlgorithm::Simple, true);
    carpet.go();
    let first: Vec<(usize, usize, usize)> =
        carpet.grid.events[0].cells.iter().map(|c| (c.coord.x, c.coord.y, c.value)).collect();
    assert_eq!(first, vec![(0, 0, 1), (0, 1, 1), (0, 2, 1), (0, 3, 1)]);
    let second: Vec<(usize, usize, usize)> =
        carpet.grid.events[1].cells.iter().map(|c| (c.coord.x, c.coord.y, c.value)).collect();
    assert_eq!(second, vec![(0, 3, 2), (1, 3, 1)]);
    // Replayed on zeros, every change adds one to the cell's count at that point.
    let mut counts = vec![vec![0usize; 4]; 4];
    for event in carpet.grid.events.iter() {
        assert!(!event.cells.is_empty());
        for c in event.cells.iter() {
            assert_eq!(c.value, counts[c.coord.y][c.coord.x] + 1);
            counts[c.coord.y][c.coord.x] = c.value;
        }
    }
    assert_eq!(counts, rows(&carpet));
    let quiet = create_one(4, 1, vec![4, 2], vec![4, 2], CarpetAlgorithm::Simple);
    assert!(quiet.grid.events.is_empty());
}
