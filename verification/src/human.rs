//! The human-logic solver: a placeholder that makes no deductions.
use vstd::prelude::*;
use crate::types::{CellState, Puzzle, SolutionState, SolveContext, SolveResult, SolveStep, Solver};

verus! {

/// Solver for human-style logic. It does not deduce anything yet: every
/// solve ends `Partial` with an all-unknown grid.
pub struct HumanSolver;

/// A grid of `n` unknown cells.
pub fn unknown_cells(n: usize) -> (g: Vec<CellState>)
    ensures
        g@ == crate::types::blank(n as nat),
{
    let mut g: Vec<CellState> = Vec::new();
    let mut i: usize = 0;
    while i < n
        invariant
            i <= n,
            g@ == crate::types::blank(i as nat),
        decreases n - i,
    {
        g.push(CellState::Unknown);
        i += 1;
        assert(g@ =~= crate::types::blank(i as nat));
    }
    g
}

impl Solver for HumanSolver {
    /// Always `Partial`, with every cell unknown and no steps.
    fn solve(&self, puzzle: &Puzzle, _ctx: &SolveContext) -> (res: SolveResult)
        ensures
            res.state == SolutionState::Partial,
            res.grid@ == crate::types::blank((puzzle.width * puzzle.height) as nat),
            res.steps@.len() == 0,
    {
        let steps: Vec<SolveStep> = Vec::new();
        SolveResult {
            state: SolutionState::Partial,
            grid: unknown_cells(puzzle.width * puzzle.height),
            steps,
        }
    }
}

} // verus!
