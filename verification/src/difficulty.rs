//! Integer parts of difficulty rating: its errors and the unknown-cell
//! count of a line.
use vstd::prelude::*;
use crate::types::{CellState, LineId, grid_col, grid_row};

verus! {

/// Why a rating could not be produced.
#[derive(Clone, Debug, PartialEq, Eq)]
pub enum DifficultyError {
    /// Row and column clue totals disagree: the puzzle is structurally invalid.
    InvalidPuzzle(String),
    /// Propagation hit a contradiction: no valid solution exists at all.
    Unsolvable,
}

/// Number of unknown cells of `l`.
pub open spec fn unknown_count(l: Seq<CellState>) -> nat
    decreases l.len(),
{
    if l.len() == 0 {
        0
    } else {
        unknown_count(l.drop_last()) + (if l.last() == CellState::Unknown { 1nat } else { 0nat })
    }
}

/// The cells of a row or column of a `rows` by `cols` grid.
pub open spec fn line_cells(g: Seq<CellState>, rows: nat, cols: nat, line: LineId) -> Seq<CellState> {
    match line {
        LineId::Row(r) => grid_row(g, cols, r as int),
        LineId::Col(c) => grid_col(g, rows, cols, c as int),
    }
}

/// Number of unknown cells on one row or column of a row-major grid.
pub fn count_unknowns(grid: &[CellState], rows: usize, cols: usize, line: LineId) -> (n: usize)
    requires
        grid@.len() == rows * cols,
        match line {
            LineId::Row(r) => r < rows,
            LineId::Col(c) => c < cols,
        },
    ensures
        n == unknown_count(line_cells(grid@, rows as nat, cols as nat, line)),
{
    let len = grid.len();
    match line {
        LineId::Row(r) => {
            proof {
                assert((r + 1) * cols <= rows * cols) by (nonlinear_arith)
                    requires
                        r < rows,
                ;
                assert((r + 1) * cols == r * cols + cols) by (nonlinear_arith);
            }
            let start = r * cols;
            let mut n: usize = 0;
            let mut k: usize = 0;
            while k < cols
                invariant
                    k <= cols,
                    start == r * cols,
                    start + cols <= grid@.len(),
                    len == grid@.len(),
                    n <= k,
                    n == unknown_count(grid@.subrange(start as int, start + k)),
                decreases cols - k,
            {
                assert(grid@.subrange(start as int, start + k + 1).drop_last() =~= grid@.subrange(
                    start as int,
                    start + k,
                ));
                if grid[start + k] == CellState::Unknown {
                    n += 1;
                }
                k += 1;
            }
            n
        },
        LineId::Col(c) => {
            let mut n: usize = 0;
            let mut r: usize = 0;
            while r < rows
                invariant
                    r <= rows,
                    c < cols,
                    grid@.len() == rows * cols,
                    len == grid@.len(),
                    n <= r,
                    n == unknown_count(grid_col(grid@, r as nat, cols as nat, c as int)),
                decreases rows - r,
            {
                proof {
                    crate::search::lemma_cell_index(r as int, c as int, rows as int, cols as int);
                    assert(grid_col(grid@, (r + 1) as nat, cols as nat, c as int).drop_last() =~= grid_col(
                        grid@,
                        r as nat,
                        cols as nat,
                        c as int,
                    ));
                }
                if grid[r * cols + c] == CellState::Unknown {
                    n += 1;
                }
                r += 1;
            }
            n
        },
    }
}

} // verus!
