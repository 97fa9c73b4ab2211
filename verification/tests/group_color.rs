use draw::algorithms::generic_percolation::GenericPercolation;
use draw::algorithms::generic_union::GenericUnion;
use draw::algorithms::group_color::GroupColor;
use draw::algorithms::percolation::PercolationBlockState;

fn color_of(groups: &GroupColor<u32>, root: u32) -> Option<usize> {
    groups.groups.iter().find(|(key, _)| *key == root).map(|(_, color)| *color)
}

#[test]
fn colors_follow_merged_components() {
    let mut union: GenericUnion<u32> = GenericUnion::new(10u32);
    let mut groups = GroupColor::new(false);
    groups.update(vec![3, 7], &union);
    assert_eq!(color_of(&groups, 3), Some(4));
    assert_eq!(color_of(&groups, 7), Some(5));
    assert_eq!(groups.groups.len(), 2);

    // 3 joins 8, whose root wins the tie; 8 takes over the color of 3.
    union.union(8, 3);
    assert_eq!(union.root(3), 8);
    groups.update(vec![8, 7], &union);
    assert_eq!(color_of(&groups, 8), Some(4));
    assert_eq!(color_of(&groups, 7), Some(5));
    assert_eq!(color_of(&groups, 3), None);

    // 7 disappears without joining 9, so 9 gets the spare color of 7.
    groups.update(vec![8, 9], &union);
    assert_eq!(color_of(&groups, 9), Some(5));
    assert_eq!(color_of(&groups, 8), Some(4));
    assert_eq!(color_of(&groups, 7), None);
    assert_eq!(groups.groups.len(), 2);
}

#[test]
fn first_groups_repeat_the_last_color_of_a_root() {
    let union: GenericUnion<u32> = GenericUnion::new(4u32);
    let mut groups = GroupColor::new(true);
    groups.update(vec![1, 2, 1], &union);
    assert_eq!(color_of(&groups, 1), Some(6));
    assert_eq!(color_of(&groups, 2), Some(5));
}

#[test]
fn block_colors_of_groups() {
    let mut union: GenericUnion<u32> = GenericUnion::new(10u32);
    union.union(8, 3);
    let mut groups = GroupColor::new(false);
    groups.update(vec![8], &union);
    assert_eq!(groups.block_color_index(3, 0, PercolationBlockState::Open, false, &union), 4);
    assert_eq!(groups.block_color_index(3, 0, PercolationBlockState::Open, true, &union), 0);
    assert_eq!(groups.block_color_index(3, 8, PercolationBlockState::Open, false, &union), 3);
    assert_eq!(groups.block_color_index(3, 0, PercolationBlockState::Filled, false, &union), 2);
    assert_eq!(groups.block_color_index(3, 0, PercolationBlockState::Blocked, false, &union), 0);
    assert_eq!(groups.block_color_index(1, 0, PercolationBlockState::Open, false, &union), 0);
    let white = GroupColor::<u32>::new(true);
    assert_eq!(white.block_color_index(1, 0, PercolationBlockState::Open, false, &union), 1);
}

#[test]
fn an_update_without_spare_colors_is_refused() {
    let union: GenericUnion<u32> = GenericUnion::new(10u32);
    let mut groups = GroupColor::new(false);
    assert!(groups.try_update(vec![3], &union));
    assert_eq!(color_of(&groups, 3), Some(4));
    // 3 is still tracked, so 5 would need a color that no dropped root frees.
    assert!(!groups.colors_suffice_for(&vec![3, 5], &union));
    assert!(!groups.try_update(vec![3, 5], &union));
    assert_eq!(groups.groups.len(), 1);
    assert_eq!(color_of(&groups, 3), Some(4));
    // Dropping 3 frees its color for 5.
    assert!(groups.colors_suffice_for(&vec![5], &union));
    assert!(groups.try_update(vec![5], &union));
    assert_eq!(color_of(&groups, 5), Some(4));
    assert_eq!(color_of(&groups, 3), None);
}

#[test]
fn group_color_grid_of_a_percolation() {
    let mut perc: GenericPercolation<u32> = GenericPercolation::new(3, 3);
    perc.open(1, 1);
    perc.open(0, 2);
    let mut groups = GroupColor::new(false);
    let root = perc.union.root(4);
    groups.update(vec![root], &perc.union);
    let grid = groups.color_grid(&perc, false);
    let rows: Vec<Vec<usize>> = (0..3).map(|y| (0..3).map(|x| grid.get_xy(x, y)).collect()).collect();
    // (1, 1) is its own component with the first group color; (0, 2) joins the end node.
    assert_eq!(rows, vec![vec![0, 0, 0], vec![0, 4, 0], vec![3, 0, 0]]);
    let last = groups.color_grid(&perc, true);
    assert_eq!(last.get_xy(1, 1), 0);
    let mut white = GroupColor::new(true);
    white.update(vec![], &perc.union);
    assert_eq!(white.color_grid(&perc, false).get_xy(1, 1), 1);
}

fn grid_rows(g: &draw::grid::Grid<usize>, w: usize, h: usize) -> Vec<Vec<usize>> {
    (0..h).map(|y| (0..w).map(|x| g.get_xy(x, y)).collect()).collect()
}

#[test]
fn group_replay_matches_a_step_by_step_replay() {
    let pairs = vec![(0usize, 0usize), (1, 0), (3, 0), (3, 1), (0, 2), (0, 3), (2, 2), (1, 2), (2, 1), (2, 0)];
    let steps = vec![1usize, 3, 5, 7, 9];
    let (limit, threshold) = (2usize, 3usize);
    let mut perc: GenericPercolation<u32> = GenericPercolation::new(4, 4);
    let mut groups = GroupColor::new(false);
    let grids = perc.replay_group_color_grids(&pairs, &steps, limit, threshold, &mut groups).ok().unwrap();
    assert_eq!(grids.len(), steps.len());

    let mut by_hand: GenericPercolation<u32> = GenericPercolation::new(4, 4);
    let mut hand_groups = GroupColor::new(false);
    let mut next = 0;
    for (i, &(x, y)) in pairs.iter().enumerate() {
        by_hand.open_usize(x, y);
        if next < steps.len() && steps[next] == i {
            let roots = by_hand.union.get_roots_of_largest_components(limit);
            if i >= threshold {
                assert!(hand_groups.try_update(roots, &by_hand.union));
            }
            let expected = hand_groups.color_grid(&by_hand, i == pairs.len() - 1);
            assert_eq!(grid_rows(&grids[next], 4, 4), grid_rows(&expected, 4, 4));
            next += 1;
        }
    }
    assert_eq!(next, steps.len());
    assert_eq!(groups.groups.len(), hand_groups.groups.len());
    // Before the threshold no group has a color of its own.
    assert!(grid_rows(&grids[0], 4, 4).iter().flatten().all(|&c| c < 4));
}
