use nonogram::status::{detail_status, BatchTally, StatusTone};
use nonogram::types::{AllSolutions, CellState, SolutionState, SolveResult};

use CellState::{Empty as E, Filled as F, Unknown as U};

fn result(state: SolutionState, grid: Vec<CellState>) -> SolveResult {
    SolveResult { state, grid, steps: vec![] }
}

fn all(n: usize, aborted: bool) -> AllSolutions {
    AllSolutions {
        solutions: (0..n).map(|_| result(SolutionState::Complete, vec![F])).collect(),
        nodes_expanded: 0,
        nodes_pushed: 0,
        aborted,
    }
}

#[test]
fn exhaustive_search_statuses() {
    let s = detail_status(Some(&all(0, false)), None, false, 4);
    assert_eq!((s.tone, s.text.as_str()), (StatusTone::Failure, "No solutions"));
    let s = detail_status(Some(&all(1, true)), None, false, 4);
    assert_eq!((s.tone, s.text.as_str()), (StatusTone::Success, "Unique solution (aborted)"));
    let s = detail_status(Some(&all(3, false)), Some(&result(SolutionState::Complete, vec![F])), false, 4);
    assert_eq!((s.tone, s.text.as_str()), (StatusTone::Ambiguous, "3 solutions \u{2014} ambiguous"));
}

#[test]
fn single_solve_statuses() {
    let s = detail_status(None, Some(&result(SolutionState::Complete, vec![F, E])), false, 2);
    assert_eq!((s.tone, s.text.as_str()), (StatusTone::Success, "Solved"));
    let s = detail_status(None, Some(&result(SolutionState::Aborted, vec![F, U, E, U])), false, 4);
    assert_eq!((s.tone, s.text.as_str()), (StatusTone::Warning, "Aborted (2/4)"));
    let s = detail_status(None, Some(&result(SolutionState::Partial, vec![U, U, E])), false, 3);
    assert_eq!((s.tone, s.text.as_str()), (StatusTone::Ambiguous, "Partial (1/3)"));
    let s = detail_status(None, Some(&result(SolutionState::Unsolvable, vec![])), false, 3);
    assert_eq!((s.tone, s.text.as_str()), (StatusTone::Failure, "No solution"));
    let s = detail_status(None, Some(&result(SolutionState::Invalid("bad clues".into()), vec![])), false, 3);
    assert_eq!((s.tone, s.text.as_str()), (StatusTone::Warning, "Invalid \u{2014} bad clues"));
}

#[test]
fn hand_solve_statuses() {
    let s = detail_status(None, None, true, 3);
    assert_eq!((s.tone, s.text.as_str()), (StatusTone::Success, "Solved"));
    let s = detail_status(None, None, false, 3);
    assert_eq!((s.tone, s.text.as_str()), (StatusTone::Neutral, "Not yet solved"));
}

#[test]
fn batch_summary_counts_outcomes() {
    let mut t = BatchTally::new(4);
    t.note_invalid();
    t.note_result(&SolutionState::Complete);
    t.note_result(&SolutionState::Aborted);
    t.note_result(&SolutionState::Partial);
    assert_eq!(t.summary(), "Done: 2/3 solved, 1 invalid, 1 aborted");
    let mut u = BatchTally::new(1);
    u.note_result(&SolutionState::Unsolvable);
    assert_eq!(u.summary(), "Done: 1/1 solved");
    assert_eq!(BatchTally::new(0).summary(), "Done: 0/0 solved");
}
