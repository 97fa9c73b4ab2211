use draw::algorithms::percolate_anim::{listed_frame_steps, rule_frame_steps};
use draw::algorithms::generic_percolation::GenericPercolation;
use draw::algorithms::percolation::{
    rounded_to_f32, LiveAction, LiveState, block_color_index, block_color_index_linked, color_grid, renders_live_step, PercolationBlockState, PercolationGrid, PercolationType,
};

fn state_name(state: PercolationBlockState) -> &'static str {
    match state {
        PercolationBlockState::Blocked => "blocked",
        PercolationBlockState::Open => "open",
        PercolationBlockState::Filled => "filled",
    }
}

#[test]
fn top_bottom_grid_percolates_through_the_middle() {
    let mut perc = PercolationGrid::new(3, 3, PercolationType::TopBottom);
    assert!(!perc.wrap_top_bottom);
    assert!(perc.wrap_left_right);
    assert_eq!(state_name(perc.block_state(0, 0)), "filled");
    assert_eq!(state_name(perc.block_state(1, 1)), "blocked");
    assert!(!perc.percolates());
    assert!(perc.open(1, 1));
    assert!(!perc.open(1, 1));
    assert!(perc.percolates());
    assert_eq!(state_name(perc.block_state(1, 1)), "filled");
    assert_eq!(state_name(perc.block_state(0, 1)), "blocked");
}

#[test]
fn one_middle_cell_joins_top_and_bottom_rows() {
    let mut perc = PercolationGrid::new(4, 3, PercolationType::TopBottom);
    assert!(perc.open(3, 1));
    assert!(perc.percolates());
}

#[test]
fn corner_discs_are_open() {
    let mut perc = PercolationGrid::new(5, 5, PercolationType::TopLeftBottomRight { radius: 1 });
    for (x, y) in [(0usize, 0usize), (1, 0), (0, 1), (4, 4), (3, 4), (4, 3)].iter() {
        assert_ne!(state_name(perc.block_state(*x, *y)), "blocked");
    }
    assert_eq!(state_name(perc.block_state(1, 1)), "blocked");
    assert_eq!(state_name(perc.block_state(2, 2)), "blocked");
    assert!(!perc.percolates());
}

#[test]
fn open_rectangle_opens_every_cell() {
    let mut perc = PercolationGrid::new(4, 4, PercolationType::TopBottom);
    perc.open_rectangle(1, 1, 2, 2);
    for y in 1..3 {
        for x in 1..3 {
            assert_ne!(state_name(perc.block_state(x, y)), "blocked");
        }
    }
    assert_eq!(state_name(perc.block_state(0, 1)), "blocked");
    assert!(perc.percolates());
}

#[test]
fn open_circle_uses_integer_distances() {
    let mut perc = PercolationGrid::new(7, 7, PercolationType::TopBottom);
    perc.open_circle(3, 3, 1);
    assert_ne!(state_name(perc.block_state(3, 2)), "blocked");
    assert_ne!(state_name(perc.block_state(2, 3)), "blocked");
    assert_eq!(state_name(perc.block_state(2, 2)), "blocked");
    assert_eq!(state_name(perc.block_state(3, 5)), "blocked");
}

#[test]
fn color_indexes_of_a_percolating_grid() {
    let mut perc = PercolationGrid::new(3, 3, PercolationType::TopBottom);
    perc.open(1, 1);
    let grid = color_grid(&mut perc, &vec![], false);
    let rows: Vec<Vec<usize>> = (0..3).map(|y| (0..3).map(|x| grid.get_xy(x, y)).collect()).collect();
    assert_eq!(rows, vec![vec![2, 2, 2], vec![0, 2, 0], vec![2, 2, 2]]);
    assert_eq!(block_color_index(&mut perc, &vec![], 0, 1, false), 0);
}

#[test]
fn open_random_opens_the_drawn_cell() {
    let mut perc = PercolationGrid::new(3, 3, PercolationType::TopBottom);
    let (x, y, opened) = perc.open_random();
    assert!(x < 3 && y < 3);
    assert_eq!(opened, y == 1);
    assert_ne!(state_name(perc.block_state(x, y)), "blocked");
}

#[test]
fn generic_percolation_starts_blocked() {
    let mut perc: GenericPercolation<u32> = GenericPercolation::new(3, 3);
    assert!(!perc.percolates());
    assert_eq!(state_name(perc.block_state(0, 0)), "blocked");
    assert!(perc.open(1, 0));
    assert!(perc.open(1, 1));
    assert!(!perc.open(1, 1));
    assert_eq!(state_name(perc.block_state(1, 1)), "filled");
    assert!(!perc.percolates());
    assert!(perc.open_usize(1, 2));
    assert!(perc.percolates());
    assert_eq!(perc.x_y_to_index(2, 1), 5);
    assert_eq!(perc.x_y_to_index_usize(2, 2), 8);
    assert!(perc.is_open_x_y(1, 2));
    assert!(!perc.is_open_x_y(0, 2));
}

#[test]
fn generic_percolation_counts_new_cells() {
    let mut perc: GenericPercolation<u16> = GenericPercolation::new(3, 3);
    let pairs = [(1usize, 0usize), (1, 0), (1, 1), (1, 2), (0, 0)];
    assert_eq!(perc.get_steps_to_percolation(&pairs), Ok(3));
    assert!(!perc.is_open_x_y(0, 0));
}

#[test]
fn generic_percolation_runs_out_of_pairs() {
    let mut perc: GenericPercolation<u32> = GenericPercolation::new(3, 3);
    let result = perc.get_steps_to_percolation(&[(0, 0), (2, 2)]);
    assert_eq!(result, Err("Ran out of pairs before percolation.".to_string()));
}

#[test]
fn single_row_percolates_once_a_cell_opens() {
    let mut perc: GenericPercolation<u8> = GenericPercolation::new(2, 1);
    // Every cell is both a top cell and a bottom cell.
    assert!(perc.percolates());
    assert_eq!(perc.get_steps_to_percolation(&[(0, 0)]), Ok(1));
}

#[test]
fn generic_percolation_state_after_new() {
    let perc: GenericPercolation<u32> = GenericPercolation::new(2, 2);
    let (cells, parents) = perc.get_state();
    assert_eq!(cells, vec![false; 4]);
    assert_eq!(parents, vec![4, 4, 5, 5, 4, 5]);
    let fresh = GenericPercolation::clone_new(&perc);
    assert_eq!(fresh.get_state(), (cells, parents));
}

#[test]
fn generic_color_indexes() {
    let mut perc: GenericPercolation<u32> = GenericPercolation::new(3, 3);
    perc.open(0, 1);
    assert_eq!(perc.block_color_index(&vec![3], 0, 1, false), 4);
    assert_eq!(perc.block_color_index(&vec![5, 3], 0, 1, false), 5);
    assert_eq!(perc.block_color_index(&vec![3], 0, 1, true), 1);
    assert_eq!(perc.block_color_index(&vec![], 0, 1, false), 1);
    assert_eq!(perc.block_color_index(&vec![3], 1, 1, false), 0);
    perc.open(0, 2);
    // Now reached from the end node.
    assert_eq!(perc.block_color_index(&vec![3], 0, 1, false), 3);
    perc.open(0, 0);
    assert_eq!(perc.block_color_index(&vec![3], 0, 1, false), 2);
    let grid = perc.color_grid(&vec![], false);
    assert_eq!(grid.get_xy(0, 1), 2);
    assert_eq!(grid.get_xy(2, 2), 0);
}

#[test]
fn generic_open_rectangle_and_random() {
    let mut perc: GenericPercolation<u32> = GenericPercolation::new(4, 4);
    perc.open_rectangle(1, 0, 1, 4);
    assert!(perc.percolates());
    let (x, y, opened) = perc.open_random();
    assert!(x < 4 && y < 4);
    assert_eq!(opened, x != 1);
    assert!(perc.is_open_x_y(x, y));
}

#[test]
fn linked_color_indexes() {
    let mut perc = PercolationGrid::new(3, 5, PercolationType::TopBottom);
    assert!(perc.open(1, 2));
    assert!(perc.open(0, 2));
    assert_eq!(block_color_index_linked(&mut perc, &vec![7, 6], 1, 2, false), 4);
    assert_eq!(block_color_index_linked(&mut perc, &vec![8, 7], 0, 2, false), 5);
    assert_eq!(block_color_index_linked(&mut perc, &vec![8], 0, 2, false), 1);
    assert_eq!(block_color_index_linked(&mut perc, &vec![7], 0, 2, true), 1);
    assert_eq!(block_color_index_linked(&mut perc, &vec![7], 1, 1, false), 0);
    assert_eq!(block_color_index_linked(&mut perc, &vec![7], 1, 0, false), 2);
    assert_eq!(block_color_index_linked(&mut perc, &vec![7], 1, 4, false), 3);
}

#[test]
fn replay_draws_a_color_grid_at_each_listed_step() {
    let mut perc: GenericPercolation<u32> = GenericPercolation::new(3, 3);
    let pairs = vec![(1usize, 0usize), (1, 1), (1, 2)];
    let grids = perc.replay_color_grids(&pairs, &vec![0, 2], 5);
    assert_eq!(grids.len(), 2);
    let rows = |g: &draw::grid::Grid<usize>| -> Vec<Vec<usize>> {
        (0..3).map(|y| (0..3).map(|x| g.get_xy(x, y)).collect()).collect()
    };
    assert_eq!(rows(&grids[0]), vec![vec![0, 2, 0], vec![0, 0, 0], vec![0, 0, 0]]);
    assert_eq!(rows(&grids[1]), vec![vec![0, 2, 0], vec![0, 2, 0], vec![0, 2, 0]]);
    assert!(perc.percolates());
}

#[test]
fn replay_colors_the_largest_components() {
    let mut perc: GenericPercolation<u32> = GenericPercolation::new(3, 3);
    let pairs = vec![(0usize, 1usize), (0, 2), (2, 2)];
    let grids = perc.replay_color_grids(&pairs, &vec![1, 2], 5);
    assert_eq!(grids.len(), 2);
    // The open pair in the left column is reached from the end node through the bottom row.
    assert_eq!(grids[0].get_xy(0, 1), 3);
    assert_eq!(grids[1].get_xy(2, 2), 3);
}

#[test]
fn frame_steps_by_rule() {
    assert_eq!(rule_frame_steps(10, 6, 2), vec![6, 8, 9]);
    assert_eq!(rule_frame_steps(10, 6, 0), vec![6, 7, 8, 9]);
    assert_eq!(rule_frame_steps(5, 0, 3), vec![0, 3, 4]);
    assert_eq!(rule_frame_steps(0, 0, 1), Vec::<usize>::new());
}

#[test]
fn frame_steps_from_a_list() {
    assert_eq!(listed_frame_steps(10, &vec![2, 5, 7]), vec![2, 5, 7, 9]);
    assert_eq!(listed_frame_steps(6, &vec![4, 3]), vec![4, 5]);
    assert_eq!(listed_frame_steps(3, &vec![9]), vec![2]);
}

#[test]
fn live_frames_fall_on_multiples_after_the_start() {
    assert!(!renders_live_step(5, 10, 5, false));
    assert!(renders_live_step(10, 10, 5, false));
    assert!(!renders_live_step(11, 10, 5, false));
    assert!(renders_live_step(11, 10, 5, true));
    assert!(!renders_live_step(9, 10, 1, true));
}

#[test]
fn squared_distances_round_as_f32_does() {
    let mut values: Vec<u64> = vec![0, 1, 2, 16_777_215, 16_777_216, 16_777_217, 16_777_218, 16_777_219, 33_554_433, 33_554_434, 33_554_435, 33_554_438];
    let mut n: u64 = 12_345;
    for _ in 0..2000 {
        n = n.wrapping_mul(6_364_136_223_846_793_005).wrapping_add(1_442_695_040_888_963_407) >> 1;
        values.push(n);
        values.push(n >> 20);
        values.push(n >> 37);
    }
    values.push(i64::MAX as u64);
    for &v in values.iter() {
        assert_eq!(rounded_to_f32(v) as f64, (v as f32) as f64, "rounding {}", v);
    }
    assert_eq!(rounded_to_f32(16_777_217), 16_777_216);
    assert_eq!(rounded_to_f32(16_777_219), 16_777_220);
}

#[test]
fn live_runs_draw_from_the_start_at_multiples_and_at_the_end() {
    let state = LiveState::new();
    assert!(state.goes_on(false, None));
    assert!(!state.goes_on(true, None));
    assert!(!state.goes_on(false, Some(0)));
    // A cell that was already open changes nothing.
    let (same, action) = state.step(false, false, true, 2, 3);
    assert_eq!((same.step_count, same.frames), (0, 0));
    assert!(matches!(action, LiveAction::Wait));
    let mut state = state;
    let mut drawn = vec![];
    for k in 1..=7usize {
        let percolates = k == 7;
        let (next, action) = state.step(true, percolates, drawn.is_empty(), 2, 3);
        state = next;
        if let LiveAction::Draw { look_up_roots, last_frame } = action {
            assert_eq!(look_up_roots, drawn.is_empty());
            assert_eq!(last_frame, percolates);
            drawn.push(k);
        }
    }
    assert_eq!(drawn, vec![3, 6, 7]);
    assert_eq!((state.step_count, state.frames), (7, 3));
    assert!(!state.goes_on(false, Some(3)));
}
