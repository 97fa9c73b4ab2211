//! Grids, union-find structures, percolation and cellular automata.

pub mod algorithms;
pub mod carpet;
pub mod cave_cell;
pub mod cell_auto;
pub mod color;
pub mod grid;
pub mod grid_eq;
pub mod grid_text;
pub mod random;

use vstd::prelude::*;

verus! {

/// Splits a row-major cell index into its `(x, y)` coordinates for a grid of the given width.
pub fn cell_index_to_x_y_usize(width: usize, cell_index: usize) -> (xy: (usize, usize))
    requires
        width > 0,
    ensures
        xy.0 == cell_index % width,
        xy.1 == cell_index / width,
{
    (cell_index % width, cell_index / width)
}

/// Signed variant of `cell_index_to_x_y_usize`.
pub fn cell_index_to_x_y_isize(width: isize, cell_index: usize) -> (xy: (isize, isize))
    requires
        width > 0,
        cell_index <= isize::MAX,
    ensures
        xy.0 == (cell_index as int) % (width as int),
        xy.1 == (cell_index as int) / (width as int),
{
    let cell_index = cell_index as isize;
    (cell_index % width, cell_index / width)
}

/// Row-major cell index of `(x, y)` in a grid of the given width.
pub fn x_y_to_cell_index_usize(width: usize, x: usize, y: usize) -> (index: usize)
    requires
        y * width + x <= usize::MAX,
    ensures
        index == y * width + x,
{
    proof {
        assert(0 <= y * width) by (nonlinear_arith);
    }
    (y * width) + x
}

/// Signed variant of `x_y_to_cell_index_usize`; the sum is reinterpreted as a `usize`.
pub fn x_y_to_cell_index_isize(width: isize, x: isize, y: isize) -> (index: usize)
    requires
        isize::MIN <= y * width <= isize::MAX,
        isize::MIN <= y * width + x <= isize::MAX,
    ensures
        index == (y * width + x) as usize,
{
    ((y * width) + x) as usize
}

} // verus!
