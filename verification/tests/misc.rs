use draw::algorithms::percolate_anim::{from_usize_16, from_usize_32};
use draw::algorithms::percolation::PercolationType;
use draw::color::Color256;
use draw::random::random_x_y_pairs;
use draw::{cell_index_to_x_y_isize, cell_index_to_x_y_usize, x_y_to_cell_index_isize, x_y_to_cell_index_usize};

#[test]
fn cell_index_round_trip() {
    assert_eq!(cell_index_to_x_y_usize(4, 9), (1, 2));
    assert_eq!(x_y_to_cell_index_usize(4, 1, 2), 9);
    assert_eq!(cell_index_to_x_y_isize(5, 13), (3, 2));
    assert_eq!(x_y_to_cell_index_isize(5, 3, 2), 13);
}

#[test]
fn colors_keep_their_channels() {
    assert_eq!(Color256::from_rgb(1, 2, 3).into_tuple(), (1, 2, 3, 255));
    assert_eq!(Color256::from_rgba(9, 8, 7, 6).into_tuple(), (9, 8, 7, 6));
}

#[test]
fn narrowing_conversions() {
    assert_eq!(from_usize_32(70_000), 70_000u32);
    assert_eq!(from_usize_16(65_535), u16::MAX);
}

#[test]
fn percolation_type_names() {
    assert_eq!(PercolationType::TopBottom.to_name(), "top-bottom");
    assert_eq!(PercolationType::TopLeftBottomRight { radius: 3 }.to_name(), "top-left-bottom-right");
    assert_eq!(PercolationType::CenterOut { radius: 3 }.to_name(), "center-out");
}

#[test]
fn random_pairs_stay_in_range() {
    let pairs = random_x_y_pairs(3, 40);
    assert_eq!(pairs.len(), 40);
    assert!(pairs.iter().all(|(x, y)| *x < 3 && *y < 3));
}

#[test]
fn frame_steps_count_from_the_last_frame() {
    let steps = draw::algorithms::percolate_anim::frame_steps(&vec![5, 3], 10, 0);
    assert_eq!(steps, vec![1, 4, 9]);
    let steps = draw::algorithms::percolate_anim::frame_steps(&vec![5, 3], 10, 100);
    assert_eq!(steps, vec![101, 104, 109]);
}

#[test]
fn a_single_frame_is_drawn_at_the_last_step() {
    let steps = draw::algorithms::percolate_anim::frame_steps(&vec![], 25, 10);
    assert_eq!(steps, vec![34]);
}
