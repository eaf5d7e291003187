use nonogram::line::{count_completions, enumerate_completions};
use nonogram::line::Cell;
use nonogram::search::{ProgressConfig, ProgressUpdate};
use nonogram::solver::GraphSearchSolver;
use nonogram::solver_kind::SolverKind;
use nonogram::types::{CellState, ExhaustiveSolver, Puzzle, SolutionState, SolveContext, Solver};
use std::time::Duration;

// n×n grid of single-cell clues: any permutation matrix satisfies every
// line, so intersection propagation alone forces nothing and the solver
// must branch.
fn permutation_puzzle(n: usize) -> Puzzle {
    Puzzle {
        name: "permutation".into(),
        answer: None,
        width: n,
        height: n,
        row_clues: vec![vec![1]; n],
        col_clues: vec![vec![1]; n],
        solution: None,
    }
}

fn puzzle(w: usize, h: usize, rows: Vec<Vec<u32>>, cols: Vec<Vec<u32>>) -> Puzzle {
    Puzzle { name: "p".into(), answer: None, width: w, height: h, row_clues: rows, col_clues: cols, solution: None }
}

fn runs(line: &[CellState]) -> Vec<u32> {
    let mut out = Vec::new();
    let mut n = 0u32;
    for c in line {
        if *c == CellState::Filled {
            n += 1;
        } else if n > 0 {
            out.push(n);
            n = 0;
        }
    }
    if n > 0 {
        out.push(n);
    }
    out
}

fn satisfies(p: &Puzzle, grid: &[CellState]) -> bool {
    if grid.len() != p.width * p.height || grid.iter().any(|c| *c == CellState::Unknown) {
        return false;
    }
    for r in 0..p.height {
        let row: Vec<CellState> = (0..p.width).map(|c| grid[r * p.width + c]).collect();
        let expected: Vec<u32> = p.row_clues[r].iter().copied().filter(|v| *v != 0).collect();
        if runs(&row) != expected {
            return false;
        }
    }
    for c in 0..p.width {
        let col: Vec<CellState> = (0..p.height).map(|r| grid[r * p.width + c]).collect();
        let expected: Vec<u32> = p.col_clues[c].iter().copied().filter(|v| *v != 0).collect();
        if runs(&col) != expected {
            return false;
        }
    }
    true
}

fn replay(w: usize, h: usize, result: &nonogram::types::SolveResult) -> Vec<CellState> {
    let mut g = vec![CellState::Unknown; w * h];
    for st in &result.steps {
        for &(r, c, s) in &st.cells_changed {
            if c < w && r * w + c < g.len() {
                g[r * w + c] = s;
            }
        }
    }
    g
}

#[test]
fn solve_with_progress_default_config_matches_plain_solve() {
    let puzzle = permutation_puzzle(4);
    let ctx = SolveContext::default();
    let solver = GraphSearchSolver;
    let plain = solver.solve(&puzzle, &ctx);
    let observed = solver.solve_with_progress(&puzzle, &ctx, &ProgressConfig::default(), None::<&mut fn(ProgressUpdate)>);
    assert_eq!(plain.state, observed.state);
    assert_eq!(plain.grid.len(), observed.grid.len());
    assert_eq!(plain.state, SolutionState::Complete);
}

#[test]
fn progress_callback_fires_during_branching_solve() {
    let puzzle = permutation_puzzle(4);
    let ctx = SolveContext::default();
    let solver = GraphSearchSolver;
    let config = ProgressConfig {
        log_steps: true,
        log_meta_interval: Some(Duration::ZERO),
        snapshot_interval: Some(Duration::ZERO),
    };
    let mut snapshots = 0usize;
    let mut on_progress = |update: ProgressUpdate| {
        snapshots += 1;
        assert_eq!(update.cells_total, 16);
        assert!(update.cells_known <= update.cells_total);
        assert_eq!(update.grid.len(), update.cells_total);
    };
    let result = solver.solve_with_progress(&puzzle, &ctx, &config, Some(&mut on_progress));
    assert_eq!(result.state, SolutionState::Complete);
    assert!(snapshots > 0, "expected at least one progress snapshot for a branching solve");
}

#[test]
fn progress_disabled_by_default_never_invokes_callback() {
    let puzzle = permutation_puzzle(4);
    let ctx = SolveContext::default();
    let solver = GraphSearchSolver;
    let mut calls = 0usize;
    let mut on_progress = |_: ProgressUpdate| {
        calls += 1;
    };
    solver.solve_with_progress(&puzzle, &ctx, &ProgressConfig::default(), Some(&mut on_progress));
    assert_eq!(calls, 0);
}

#[test]
fn complete_solve_satisfies_every_clue_and_replays() {
    // A heart-ish 5×5 puzzle with a unique solution.
    let p = puzzle(
        5,
        5,
        vec![vec![1, 1], vec![5], vec![5], vec![3], vec![1]],
        vec![vec![2], vec![4], vec![4], vec![4], vec![2]],
    );
    let result = GraphSearchSolver.solve(&p, &SolveContext::default());
    assert_eq!(result.state, SolutionState::Complete);
    assert!(satisfies(&p, &result.grid));
    assert_eq!(replay(5, 5, &result), result.grid);
}

#[test]
fn mismatched_totals_are_invalid_with_both_sums() {
    let p = puzzle(2, 2, vec![vec![2], vec![0]], vec![vec![1], vec![0]]);
    let result = GraphSearchSolver.solve(&p, &SolveContext::default());
    assert_eq!(
        result.state,
        SolutionState::Invalid("row clues sum to 2 but column clues sum to 1".to_string())
    );
    assert!(result.grid.is_empty());
    assert!(result.steps.is_empty());
}

#[test]
fn contradictory_clues_are_unsolvable() {
    // Both totals are 2, and the first column alone fits them.
    let p = puzzle(2, 2, vec![vec![1], vec![1]], vec![vec![2], vec![]]);
    let ok = GraphSearchSolver.solve(&p, &SolveContext::default());
    assert_eq!(ok.state, SolutionState::Complete);
    assert!(satisfies(&p, &ok.grid));
    // Totals agree (2 = 2), but the row wants a gap between its two cells
    // while the columns ask for the first two cells filled and the last one
    // empty.
    let q = puzzle(3, 1, vec![vec![1, 1]], vec![vec![1], vec![1], vec![]]);
    let result = GraphSearchSolver.solve(&q, &SolveContext::default());
    assert_eq!(result.state, SolutionState::Unsolvable);
    assert_eq!(result.grid.len(), 3);
    assert_eq!(replay(3, 1, &result), result.grid);
}

#[test]
fn cancelled_solve_is_aborted() {
    let p = permutation_puzzle(5);
    let ctx = SolveContext::default();
    ctx.cancel.cancel();
    assert!(ctx.cancel.is_cancelled());
    let result = GraphSearchSolver.solve(&p, &ctx);
    assert_eq!(result.state, SolutionState::Aborted);
    ctx.cancel.reset();
    assert!(!ctx.cancel.is_cancelled());
}

#[test]
fn solve_all_finds_every_permutation_once() {
    let p = permutation_puzzle(3);
    let all = GraphSearchSolver.solve_all(&p, &SolveContext::default());
    assert!(!all.aborted);
    assert_eq!(all.solutions.len(), 6);
    for (i, s) in all.solutions.iter().enumerate() {
        assert_eq!(s.state, SolutionState::Complete);
        assert!(satisfies(&p, &s.grid));
        assert_eq!(replay(3, 3, s), s.grid);
        for t in &all.solutions[i + 1..] {
            assert_ne!(s.grid, t.grid);
        }
    }
}

#[test]
fn a_zero_clue_admits_no_solution() {
    // Totals agree, but no run of filled cells has length 0.
    let p = puzzle(2, 2, vec![vec![1, 0], vec![1]], vec![vec![1], vec![1]]);
    let all = GraphSearchSolver.solve_all(&p, &SolveContext::default());
    assert!(all.solutions.is_empty());
    assert!(!all.aborted);
}

#[test]
fn solve_all_of_mismatched_totals_is_empty() {
    let p = puzzle(2, 2, vec![vec![2], vec![0]], vec![vec![1], vec![0]]);
    let all = GraphSearchSolver.solve_all(&p, &SolveContext::default());
    assert!(all.solutions.is_empty());
    assert_eq!(all.nodes_expanded, 0);
    assert_eq!(all.nodes_pushed, 0);
}

#[test]
fn solver_kinds_describe_themselves() {
    assert!(!SolverKind::Manual.is_machine());
    assert!(SolverKind::Cuttlefish.is_machine());
    assert!(SolverKind::DeepRed.is_machine());
    assert!(SolverKind::Cuttlefish.supports_exhaustive());
    assert!(!SolverKind::Noobie.supports_exhaustive());
    assert_eq!(SolverKind::DeepRed.display_name(), "Deep Red");
    assert_eq!(SolverKind::Manual.display_name(), "Manual");
    let p = permutation_puzzle(2);
    let ctx = SolveContext::default();
    assert!(SolverKind::DeepRed.solve_all(&p, &ctx).is_none());
    let all = SolverKind::Cuttlefish.solve_all(&p, &ctx).unwrap();
    assert_eq!(all.solutions.len(), 2);
}

#[test]
fn propagation_alone_decides_even_when_cancelled() {
    // The rows alone fill every cell; column 0 is then [Filled, Empty],
    // which does not match its clue [2].
    let p = puzzle(2, 2, vec![vec![2], vec![]], vec![vec![2], vec![]]);
    let ctx = SolveContext::default();
    ctx.cancel.cancel();
    let result = GraphSearchSolver.solve(&p, &ctx);
    assert_eq!(result.state, SolutionState::Unsolvable);
    assert_eq!(result.grid, vec![CellState::Filled, CellState::Filled, CellState::Empty, CellState::Empty]);
    assert_eq!(replay(2, 2, &result), result.grid);
    let all = GraphSearchSolver.solve_all(&p, &ctx);
    assert!(!all.aborted);
    assert!(all.solutions.is_empty());
    assert_eq!(all.nodes_expanded, 0);
    assert_eq!(all.nodes_pushed, 0);
    // A puzzle that propagation solves outright is complete, cancelled or not.
    let q = puzzle(2, 2, vec![vec![2], vec![2]], vec![vec![2], vec![2]]);
    let solved = GraphSearchSolver.solve(&q, &ctx);
    assert_eq!(solved.state, SolutionState::Complete);
    assert_eq!(solved.grid, vec![CellState::Filled; 4]);
    ctx.cancel.reset();
}

#[test]
fn search_counters_never_expand_more_than_they_queue() {
    let p = permutation_puzzle(3);
    let all = GraphSearchSolver.solve_all(&p, &SolveContext::default());
    assert!(all.nodes_expanded >= 1);
    assert!(all.nodes_expanded <= all.nodes_pushed);
}

#[test]
fn solver_kinds_solve_with_their_own_solver() {
    let p = permutation_puzzle(2);
    let ctx = SolveContext::default();
    let r = SolverKind::Cuttlefish.solve(&p, &ctx).unwrap();
    assert_eq!(r.state, SolutionState::Complete);
    assert!(satisfies(&p, &r.grid));
    let h = SolverKind::Noobie.solve(&p, &ctx).unwrap();
    assert_eq!(h.state, SolutionState::Partial);
    assert_eq!(h.grid, vec![CellState::Unknown; 4]);
    assert!(h.steps.is_empty());
    assert!(SolverKind::DeepRed.solve(&p, &ctx).is_none());
}

#[test]
fn every_trace_step_names_its_line_and_sets_each_cell_once() {
    let p = puzzle(
        5,
        5,
        vec![vec![2], vec![1, 1], vec![5], vec![1], vec![3]],
        vec![vec![3], vec![1, 1], vec![3, 1], vec![1, 1], vec![1, 1]],
    );
    for result in [GraphSearchSolver.solve(&p, &SolveContext::default()), GraphSearchSolver.solve(&permutation_puzzle(4), &SolveContext::default())] {
        let mut seen = std::collections::HashSet::new();
        for step in &result.steps {
            assert!(!step.cells_changed.is_empty());
            let line = step.line.expect("every step names its line");
            for &(r, c, s) in &step.cells_changed {
                assert_ne!(s, CellState::Unknown);
                match line {
                    nonogram::types::LineId::Row(row) => assert_eq!(r, row),
                    nonogram::types::LineId::Col(col) => assert_eq!(c, col),
                }
                assert!(seen.insert((r, c)), "cell set twice");
            }
        }
    }
}

#[test]
fn completions_come_in_order_of_block_starts() {
    assert_eq!(
        enumerate_completions(&[Cell::Unknown; 3], &[1]),
        vec![
            vec![Cell::Filled, Cell::Empty, Cell::Empty],
            vec![Cell::Empty, Cell::Filled, Cell::Empty],
            vec![Cell::Empty, Cell::Empty, Cell::Filled],
        ]
    );
    assert_eq!(
        enumerate_completions(&[Cell::Unknown; 5], &[1, 2]),
        vec![
            vec![Cell::Filled, Cell::Empty, Cell::Filled, Cell::Filled, Cell::Empty],
            vec![Cell::Filled, Cell::Empty, Cell::Empty, Cell::Filled, Cell::Filled],
            vec![Cell::Empty, Cell::Filled, Cell::Empty, Cell::Filled, Cell::Filled],
        ]
    );
    // A known filled cell rules out the other layouts.
    assert_eq!(
        enumerate_completions(&[Cell::Unknown, Cell::Filled, Cell::Unknown], &[1]),
        vec![vec![Cell::Empty, Cell::Filled, Cell::Empty]]
    );
}

#[test]
fn placement_count_is_the_number_of_completions() {
    for (cells, clues) in [
        (vec![Cell::Unknown; 5], vec![1usize, 2]),
        (vec![Cell::Unknown; 7], vec![2, 1, 1]),
        (vec![Cell::Unknown, Cell::Filled, Cell::Unknown, Cell::Unknown], vec![2]),
        (vec![Cell::Empty; 3], vec![1]),
    ] {
        assert_eq!(count_completions(&cells, &clues), enumerate_completions(&cells, &clues).len());
    }
    assert_eq!(count_completions(&[Cell::Unknown; 5], &[1, 2]), 3);
}

fn no_progress() -> Option<&'static mut fn(ProgressUpdate)> {
    None
}

#[test]
fn search_with_a_check_that_never_stops_is_complete_or_unsolvable() {
    // Propagation decides: no node is queued and the check is never asked.
    let p = puzzle(2, 2, vec![vec![2], vec![]], vec![vec![2], vec![]]);
    let s = nonogram::search::SearchState::from_puzzle(&p);
    let r = s.solve_counted(&|| -> bool { panic!("not asked") }, &ProgressConfig::default(), no_progress());
    assert_eq!(r.0, SolutionState::Unsolvable);
    assert_eq!(r.1, vec![Cell::Filled, Cell::Filled, Cell::Empty, Cell::Empty]);
    assert_eq!(r.3, 0);
    // Propagation forces nothing: the search branches and finds a solution.
    let q = permutation_puzzle(4);
    let t = nonogram::search::SearchState::from_puzzle(&q);
    let r = t.solve_counted(&|| false, &ProgressConfig::default(), no_progress());
    assert_eq!(r.0, SolutionState::Complete);
    assert!(r.3 >= 1);
    let all = t.solve_all_counted(&|| false);
    assert!(!all.3);
    assert_eq!(all.0.len(), 24);
    assert!(all.1 <= all.2);
}

#[test]
fn search_with_a_check_that_always_stops_hands_back_the_root() {
    let q = permutation_puzzle(4);
    let t = nonogram::search::SearchState::from_puzzle(&q);
    let r = t.solve_counted(&|| true, &ProgressConfig::default(), no_progress());
    assert_eq!(r.0, SolutionState::Aborted);
    assert_eq!(r.1, vec![Cell::Unknown; 16]);
    assert!(r.2.is_empty());
    assert_eq!(r.3, 1);
    let all = t.solve_all_counted(&|| true);
    assert!(all.3);
    assert!(all.0.is_empty());
    assert_eq!((all.1, all.2), (1, 1));
}

#[test]
fn two_by_two_diagonals_are_both_found() {
    let p = puzzle(2, 2, vec![vec![1], vec![1]], vec![vec![1], vec![1]]);
    let all = GraphSearchSolver.solve_all(&p, &SolveContext::default());
    assert!(!all.aborted);
    let mut grids: Vec<Vec<CellState>> = all.solutions.iter().map(|s| s.grid.clone()).collect();
    grids.sort_by_key(|g| g.iter().map(|c| *c == CellState::Filled).collect::<Vec<_>>());
    assert_eq!(
        grids,
        vec![
            vec![CellState::Empty, CellState::Filled, CellState::Filled, CellState::Empty],
            vec![CellState::Filled, CellState::Empty, CellState::Empty, CellState::Filled],
        ]
    );
    assert!(all.solutions.iter().all(|s| s.state == SolutionState::Complete));
}
