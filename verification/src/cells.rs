//! Mapping of clamped cell coordinates to row-major cell indices, shared by
//! the soil grid and the creature grid.

use vstd::prelude::*;

verus! {

/// The row-major index of the cell at column `cx`, row `cy`, each coordinate
/// first clamped to the last column or row.
pub open spec fn clamped_cell_spec(cx: int, cy: int, cols: int, rows: int) -> int {
    let x = if cx >= cols { cols - 1 } else { cx };
    let y = if cy >= rows { rows - 1 } else { cy };
    y * cols + x
}

/// Index of the cell holding the (already scaled, non-negative) coordinates
/// `cx`, `cy`; coordinates past the last column or row land in it.
pub fn clamped_cell(cx: usize, cy: usize, cols: usize, rows: usize) -> (r: usize)
    requires
        cols > 0,
        rows > 0,
        cols * rows <= usize::MAX,
    ensures
        r == clamped_cell_spec(cx as int, cy as int, cols as int, rows as int),
        r < cols * rows,
{
    let x = if cx >= cols { cols - 1 } else { cx };
    let y = if cy >= rows { rows - 1 } else { cy };
    proof {
        assert(y * cols + x < cols * rows) by (nonlinear_arith)
            requires
                y < rows,
                x < cols,
        ;
        assert(y * cols <= cols * rows) by (nonlinear_arith)
            requires
                y < rows,
        ;
    }
    y * cols + x
}

} // verus!
