//! Two grids of counts are equal when they have the same size and the same cells; their
//! default values and events do not count.
use vstd::prelude::*;
use vstd::std_specs::cmp::PartialEqSpecImpl;
use crate::grid::Grid;

verus! {

/// The grids have the same size and the same cells.
pub open spec fn same_grid(a: Grid<usize>, b: Grid<usize>) -> bool {
    &&& a.width == b.width
    &&& a.height == b.height
    &&& a.cells() == b.cells()
}

impl PartialEqSpecImpl for Grid<usize> {
    open spec fn obeys_eq_spec() -> bool {
        true
    }

    open spec fn eq_spec(&self, other: &Grid<usize>) -> bool {
        same_grid(*self, *other)
    }
}

impl PartialEq for Grid<usize> {
    fn eq(&self, other: &Self) -> (same: bool) {
        if self.width != other.width || self.height != other.height || self.cell_values.len()
            != other.cell_values.len() {
            proof {
                if self.width == other.width && self.height == other.height {
                    assert(self.cells().len() != other.cells().len());
                }
            }
            return false;
        }
        for y in 0..self.cell_values.len()
            invariant
                self.cell_values@.len() == other.cell_values@.len(),
                forall|k: int| 0 <= k < y ==> #[trigger] self.cells()[k] == other.cells()[k],
        {
            let row = &self.cell_values[y];
            let other_row = &other.cell_values[y];
            if row.len() != other_row.len() {
                proof {
                    assert(self.cells()[y as int].len() != other.cells()[y as int].len());
                }
                return false;
            }
            for x in 0..row.len()
                invariant
                    row@ == self.cells()[y as int],
                    other_row@ == other.cells()[y as int],
                    row@.len() == other_row@.len(),
                    forall|j: int| 0 <= j < x ==> #[trigger] row@[j] == other_row@[j],
            {
                if row[x] != other_row[x] {
                    proof {
                        assert(self.cells()[y as int][x as int] != other.cells()[y as int][x as int]);
                    }
                    return false;
                }
            }
            proof {
                assert(row@ =~= other_row@);
            }
        }
        proof {
            assert(self.cells() =~= other.cells());
        }
        true
    }
}

impl Eq for Grid<usize> {

}

/// The grid at `k` differs from the one before it; the first grid always does.
pub open spec fn differs_from_previous(grids: Seq<Grid<usize>>, k: int) -> bool {
    k == 0 || !same_grid(grids[k], grids[k - 1])
}

/// The positions, in order, of the grids that differ from the grid before them.
pub fn changed_positions(grids: &Vec<Grid<usize>>) -> (positions: Vec<usize>)
    ensures
        forall|i: int, j: int| 0 <= i < j < positions@.len() ==> #[trigger] positions@[i] < #[trigger] positions@[j],
        forall|i: int|
            0 <= i < positions@.len() ==> #[trigger] positions@[i] < grids@.len() && differs_from_previous(
                grids@,
                positions@[i] as int,
            ),
        forall|k: int|
            0 <= k < grids@.len() && differs_from_previous(grids@, k) ==> #[trigger] positions@.contains(k as usize),
{
    let mut positions: Vec<usize> = Vec::new();
    for k in 0..grids.len()
        invariant
            forall|i: int, j: int| 0 <= i < j < positions@.len() ==> #[trigger] positions@[i] < #[trigger] positions@[j],
            forall|i: int|
                0 <= i < positions@.len() ==> #[trigger] positions@[i] < k && differs_from_previous(
                    grids@,
                    positions@[i] as int,
                ),
            forall|m: int| 0 <= m < k && differs_from_previous(grids@, m) ==> #[trigger] positions@.contains(m as usize),
    {
        let changed = k == 0 || grids[k] != grids[k - 1];
        if changed {
            let ghost before = positions@;
            positions.push(k);
            proof {
                assert(positions@[before.len() as int] == k);
                assert forall|m: int| 0 <= m < k + 1 && differs_from_previous(grids@, m) implies #[trigger] positions@.contains(
                    m as usize,
                ) by {
                    if m < k {
                        assert(before.contains(m as usize));
                        let i = choose|i: int| 0 <= i < before.len() && before[i] == m as usize;
                        assert(positions@[i] == m as usize);
                    } else {
                        assert(positions@[before.len() as int] == m as usize);
                    }
                }
            }
        }
    }
    positions
}

} // verus!
