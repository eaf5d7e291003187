//! The solvers a user can pick, and what each of them can do.
use vstd::prelude::*;
use crate::human::HumanSolver;
use crate::solver::{
    GraphSearchSolver, propagated_result, propagation_decides, search_node, side_total, totals_agree, totals_message,
};
use crate::types::{
    AllSolutions, CellState, ExhaustiveSolver, Puzzle, SolutionState, SolveContext, SolveResult, Solver, blank,
    replay, trace_ok,
};

verus! {

/// Who solves the puzzle.
#[derive(Debug, Clone, Copy, PartialEq, Eq, Hash, Structural)]
pub enum SolverKind {
    /// Human player: no solver, just manual grid editing.
    Manual,
    /// Graph search with the fewest-completions heuristic.
    Cuttlefish,
    /// Constraint propagation.
    DeepRed,
    /// Human-logic placeholder.
    Noobie,
}

impl SolverKind {
    /// Whether a machine solver does the solving.
    pub fn is_machine(self) -> (r: bool)
        ensures
            r == !(self is Manual),
    {
        !matches!(self, SolverKind::Manual)
    }

    /// Whether the solver can enumerate every solution.
    pub fn supports_exhaustive(self) -> (r: bool)
        ensures
            r == (self is Cuttlefish),
    {
        matches!(self, SolverKind::Cuttlefish)
    }

    /// The name shown for the solver.
    pub fn display_name(self) -> (s: &'static str)
        ensures
            s@ == match self {
                SolverKind::Manual => "Manual"@,
                SolverKind::Cuttlefish => "Cuttlefish"@,
                SolverKind::DeepRed => "Deep Red"@,
                SolverKind::Noobie => "Noobie"@,
            },
    {
        match self {
            SolverKind::Manual => "Manual",
            SolverKind::Cuttlefish => "Cuttlefish",
            SolverKind::DeepRed => "Deep Red",
            SolverKind::Noobie => "Noobie",
        }
    }

    /// Solves `puzzle` with this solver: the graph search for `Cuttlefish`,
    /// the human-logic solver for `Noobie`. `DeepRed`'s propagation solver
    /// is not part of this library, so it gives `None`. `Manual` has no
    /// solver and is not accepted.
    pub fn solve(self, puzzle: &Puzzle, ctx: &SolveContext) -> (r: Option<SolveResult>)
        requires
            puzzle.wf(),
            !(self is Manual),
        ensures
            r is Some <==> (self is Cuttlefish || self is Noobie),
            self is Noobie ==> (r matches Some(res) && res.state == SolutionState::Partial && res.grid@ == blank(
                (puzzle.width * puzzle.height) as nat,
            ) && res.steps@.len() == 0),
            self is Cuttlefish ==> (r matches Some(res) && {
                &&& res.state is Invalid <==> !totals_agree(puzzle)
                &&& res.state matches SolutionState::Invalid(m) ==> m@ == totals_message(
                    side_total(puzzle.row_clues@) as nat,
                    side_total(puzzle.col_clues@) as nat,
                )
                &&& res.state is Invalid ==> res.grid@.len() == 0 && res.steps@.len() == 0
                &&& !(res.state is Invalid) ==> {
                    &&& res.state is Complete || res.state is Unsolvable || res.state is Aborted
                    &&& res.grid@.len() == puzzle.width * puzzle.height
                    &&& replay(blank((puzzle.width * puzzle.height) as nat), puzzle.width as nat, res.steps@)
                        == res.grid@
                    &&& trace_ok(blank((puzzle.width * puzzle.height) as nat), puzzle.width as nat, res.steps@)
                }
                &&& res.state is Complete ==> puzzle.solved_by(res.grid@)
                &&& res.state is Unsolvable ==> forall|g: Seq<CellState>| !puzzle.solved_by(g)
                &&& propagation_decides(puzzle) ==> !(res.state is Aborted)
                &&& propagation_decides(puzzle) && totals_agree(puzzle) ==> propagated_result(puzzle, res.grid@, res.steps@)
                &&& res.state is Unsolvable ==> propagated_result(puzzle, res.grid@, res.steps@)
                &&& res.state is Aborted ==> !propagation_decides(puzzle) && search_node(puzzle, res.grid@)
            }),
    {
        match self {
            SolverKind::Cuttlefish => Some(GraphSearchSolver.solve(puzzle, ctx)),
            SolverKind::Noobie => Some(HumanSolver.solve(puzzle, ctx)),
            _ => None,
        }
    }

    /// Every solution, for a solver that can enumerate them; `None` for the
    /// others.
    pub fn solve_all(self, puzzle: &Puzzle, ctx: &SolveContext) -> (r: Option<AllSolutions>)
        requires
            puzzle.wf(),
        ensures
            r is Some <==> self is Cuttlefish,
            r matches Some(a) ==> {
                &&& !totals_agree(puzzle) ==> a.solutions@.len() == 0 && a.nodes_expanded == 0 && a.nodes_pushed == 0
                    && !a.aborted
                &&& forall|k: int|
                    0 <= k < a.solutions@.len() ==> {
                        &&& (#[trigger] a.solutions@[k]).state is Complete
                        &&& puzzle.solved_by(a.solutions@[k].grid@)
                        &&& replay(blank((puzzle.width * puzzle.height) as nat), puzzle.width as nat, a.solutions@[k].steps@)
                            == a.solutions@[k].grid@
                        &&& trace_ok(blank((puzzle.width * puzzle.height) as nat), puzzle.width as nat, a.solutions@[k].steps@)
                    }
                &&& !a.aborted ==> forall|g: Seq<CellState>|
                    #[trigger] puzzle.solved_by(g) ==> exists|k: int|
                        0 <= k < a.solutions@.len() && (#[trigger] a.solutions@[k]).grid@ == g
                &&& forall|i: int, j: int|
                    0 <= i < a.solutions@.len() && 0 <= j < a.solutions@.len() && i != j ==> (
                    #[trigger] a.solutions@[i]).grid@ != (#[trigger] a.solutions@[j]).grid@
                &&& a.nodes_expanded <= a.nodes_pushed
                &&& propagation_decides(puzzle) ==> !a.aborted && a.nodes_expanded == 0 && a.nodes_pushed == 0
                &&& a.aborted ==> !propagation_decides(puzzle) && a.nodes_expanded >= 1
            },
    {
        match self {
            SolverKind::Cuttlefish => Some(GraphSearchSolver.solve_all(puzzle, ctx)),
            _ => None,
        }
    }
}

} // verus!
