use nonogram::report::{all_solutions_lines, grid_lines, result_lines, solution_mismatches};
use nonogram::solver::GraphSearchSolver;
use nonogram::types::{AllSolutions, CellState, ExhaustiveSolver, Puzzle, SolutionState, SolveContext, SolveResult};

use CellState::{Empty as E, Filled as F, Unknown as U};

fn sample(solution: Option<Vec<CellState>>, answer: Option<&str>) -> Puzzle {
    Puzzle {
        name: "sample".into(),
        answer: answer.map(|a| a.to_string()),
        width: 3,
        height: 2,
        row_clues: vec![vec![1, 1], vec![2]],
        col_clues: vec![vec![2], vec![1], vec![1]],
        solution,
    }
}

#[test]
fn grid_text_marks_cells() {
    let p = sample(None, None);
    assert_eq!(grid_lines(&p, &[F, E, F, F, F, E], true), vec!["#.#", "##."]);
    assert_eq!(grid_lines(&p, &[F, E, U, U, F, E], false), vec!["#x.", ".#x"]);
}

#[test]
fn mismatches_against_known_solution() {
    let p = sample(Some(vec![F, E, F, F, F, E]), None);
    assert_eq!(solution_mismatches(&p, &[F, E, F, F, F, E]), None);
    assert_eq!(solution_mismatches(&p, &[F, F, F, F, E, E]), Some(vec![(0, 1), (1, 1)]));
    assert_eq!(solution_mismatches(&sample(None, None), &[E; 6]), None);
}

#[test]
fn solved_report_with_check_and_answer() {
    let p = sample(Some(vec![F, E, F, F, F, E]), Some("A boat"));
    let result = GraphSearchSolver.solve_all(&p, &SolveContext::default());
    let single = &result.solutions[0];
    assert_eq!(
        result_lines(&p, single),
        vec!["=== sample (3×2) ===", "Solved.", "#.#", "##.", "Verified correct.", "Answer: A boat", ""]
    );
    let wrong = sample(Some(vec![F, F, F, F, F, E]), None);
    let lines = result_lines(&wrong, single);
    assert_eq!(lines[4], "WRONG: 1 cell(s) differ from known solution:");
    assert_eq!(lines[5], "  row=0 col=1");
}

#[test]
fn other_states_report() {
    let p = sample(None, None);
    let partial = SolveResult { state: SolutionState::Partial, grid: vec![F, E, U, U, U, U], steps: vec![] };
    assert_eq!(
        result_lines(&p, &partial),
        vec!["=== sample (3×2) ===", "Partial — no further progress:", "#x.", "...", ""]
    );
    let invalid = SolveResult { state: SolutionState::Invalid("bad totals".into()), grid: vec![], steps: vec![] };
    assert_eq!(result_lines(&p, &invalid), vec!["=== sample (3×2) ===", "Invalid puzzle — bad totals", ""]);
}

#[test]
fn exhaustive_reports() {
    let p = Puzzle {
        name: "perm".into(),
        answer: None,
        width: 2,
        height: 2,
        row_clues: vec![vec![1], vec![1]],
        col_clues: vec![vec![1], vec![1]],
        solution: None,
    };
    let all = GraphSearchSolver.solve_all(&p, &SolveContext::default());
    let lines = all_solutions_lines(&p, &all);
    assert_eq!(lines[0], "=== perm (2×2) — solution 1/2 ===");
    assert_eq!(lines[4], "=== perm (2×2) — solution 2/2 ===");
    assert_eq!(lines.len(), 10);
    assert_eq!(lines[8], format!("2 solutions found.  nodes_expanded: {}", all.nodes_expanded));
    let none = AllSolutions { solutions: vec![], nodes_expanded: 0, nodes_pushed: 0, aborted: true };
    assert_eq!(
        all_solutions_lines(&p, &none),
        vec!["=== perm (2×2) ===", "Search aborted — no solution found yet.", ""]
    );
}

#[test]
fn no_known_solution_means_no_mismatches_for_any_grid() {
    let p = Puzzle {
        name: "flat".into(),
        answer: None,
        width: 0,
        height: 2,
        row_clues: vec![vec![], vec![]],
        col_clues: vec![],
        solution: None,
    };
    assert_eq!(solution_mismatches(&p, &[F, E, U]), None);
}
