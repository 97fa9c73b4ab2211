pub mod forest;
pub mod union_find;
pub mod components;
pub mod generic_union;
pub mod connectivity;
pub mod percolation;
pub mod generic_percolation;
pub mod percolate_anim;
pub mod group_color;
