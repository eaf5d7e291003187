use nonogram::assist::{
    check_line_fulfilled, compute_hover_runs, forced_empty_from_edges, grid_at_step, individually_fulfilled_clues,
    is_puzzle_fully_solved, mark_unknown_range, preview_cells, scan_confirmed_left, scan_confirmed_right,
    trivial_invalid_reason, HoverRun, HoverRuns,
};
use nonogram::types::{CellState, Puzzle, SolutionState, SolveResult, SolveStep};

use CellState::{Empty as E, Filled as F, Unknown as U};

fn sample() -> Puzzle {
    // # . #
    // # # .
    Puzzle {
        name: "sample".into(),
        answer: None,
        width: 3,
        height: 2,
        row_clues: vec![vec![1, 1], vec![2]],
        col_clues: vec![vec![2], vec![1], vec![1]],
        solution: None,
    }
}

#[test]
fn line_fulfilment() {
    assert!(check_line_fulfilled(&[1, 2], &[F, E, F, F]));
    assert!(check_line_fulfilled(&[1, 2], &[F, U, F, F, U]));
    assert!(!check_line_fulfilled(&[1, 2], &[F, F, F, E]));
    assert!(check_line_fulfilled(&[], &[E, U]));
    assert!(!check_line_fulfilled(&[0], &[E]));
}

#[test]
fn whole_puzzle_solved_check() {
    let p = sample();
    assert!(is_puzzle_fully_solved(&p, &[F, E, F, F, F, E]));
    assert!(!is_puzzle_fully_solved(&p, &[F, E, F, F, E, F]));
}

#[test]
fn clue_dimming_from_both_edges() {
    assert_eq!(individually_fulfilled_clues(&[1, 1, 2], &[F, E, U, U, F, F]), vec![true, false, true]);
    assert_eq!(individually_fulfilled_clues(&[2], &[F, U, U]), vec![false]);
    assert_eq!(individually_fulfilled_clues(&[1, 2], &[F, E, F, F]), vec![true, true]);
    assert_eq!(individually_fulfilled_clues(&[], &[U]), Vec::<bool>::new());
}

#[test]
fn confirmed_run_scans() {
    assert_eq!(scan_confirmed_left(&[1, 1], &[E, F, E, F, U]), vec![(1, 2)]);
    assert_eq!(scan_confirmed_right(&[1, 1], &[E, F, E, F, U], 1), Vec::<(usize, usize)>::new());
    assert_eq!(scan_confirmed_right(&[1, 2], &[U, E, F, F], 0), vec![(2, 4)]);
    let mut out = vec![9];
    mark_unknown_range(&[U, E, U, F], 0, 3, &mut out);
    assert_eq!(out, vec![9, 0, 2]);
}

#[test]
fn edge_forced_empties() {
    // Clues 1 and 1 matched from both edges: the middle unknown must be empty.
    assert_eq!(forced_empty_from_edges(&[1, 1], &[F, E, U, E, F]), vec![2]);
    // Only the left clue is confirmed: nothing is forced.
    assert_eq!(forced_empty_from_edges(&[1, 1], &[F, E, U, U, U]), Vec::<usize>::new());
    // Runs next to unknown edge cells are not confirmed: nothing is forced.
    assert_eq!(forced_empty_from_edges(&[2], &[U, E, F, F, E, U]), Vec::<usize>::new());
    assert_eq!(forced_empty_from_edges(&[1], &[]), Vec::<usize>::new());
}

#[test]
fn edge_runs_covering_every_clue_force_the_rest_empty() {
    // The run confirmed from the left accounts for the only clue: the cell
    // to the right of it is forced empty.
    assert_eq!(forced_empty_from_edges(&[1], &[F, E, U]), vec![2]);
    // The same from the right: every unknown cell before the run.
    assert_eq!(forced_empty_from_edges(&[1], &[U, U, E, F]), vec![0, 1]);
    assert_eq!(forced_empty_from_edges(&[1, 2], &[F, E, F, F, E, U, U]), vec![5, 6]);
}

#[test]
fn hover_runs_follow_filled_cells() {
    let p = sample();
    let grid = [F, E, F, F, F, E];
    let key = (0, 0);
    let runs = compute_hover_runs(Some((key, 1, 1)), key, &p, &grid);
    assert_eq!(runs.h, Some(HoverRun { fixed: 1, start: 0, end: 1 }));
    assert_eq!(runs.v, None);
    let runs = compute_hover_runs(Some((key, 0, 0)), key, &p, &grid);
    assert_eq!(runs.h, None);
    assert_eq!(runs.v, Some(HoverRun { fixed: 0, start: 0, end: 1 }));
    assert_eq!(compute_hover_runs(Some((key, 0, 1)), key, &p, &grid), HoverRuns::none());
    assert_eq!(compute_hover_runs(Some(((1, 0), 1, 1)), key, &p, &grid), HoverRuns::none());
    assert_eq!(compute_hover_runs(None, key, &p, &grid), HoverRuns::none());
}

#[test]
fn drag_preview_is_axis_locked() {
    assert_eq!(preview_cells((2, 3), (3, 0)), vec![(2, 0), (2, 1), (2, 2), (2, 3)]);
    assert_eq!(preview_cells((1, 1), (4, 2)), vec![(1, 1), (2, 1), (3, 1), (4, 1)]);
    assert_eq!(preview_cells((5, 5), (5, 5)), vec![(5, 5)]);
    // A tie goes horizontal.
    assert_eq!(preview_cells((0, 0), (1, 1)), vec![(0, 0), (0, 1)]);
}

#[test]
fn trivial_invalid_reasons() {
    assert_eq!(trivial_invalid_reason(&sample()), None);
    let mut p = sample();
    p.col_clues = vec![vec![2], vec![1], vec![0]];
    assert_eq!(
        trivial_invalid_reason(&p).unwrap(),
        "clue sums don't match (rows sum to 4, cols sum to 3)"
    );
    let q = Puzzle {
        name: "q".into(),
        answer: None,
        width: 2,
        height: 2,
        row_clues: vec![vec![1, 1], vec![]],
        col_clues: vec![vec![1], vec![1]],
        solution: None,
    };
    assert_eq!(
        trivial_invalid_reason(&q).unwrap(),
        "row 1 requires at least 3 cells but the grid is only 2 wide"
    );
    let r = Puzzle {
        name: "r".into(),
        answer: None,
        width: 1,
        height: 2,
        row_clues: vec![vec![1], vec![1]],
        col_clues: vec![vec![1, 1]],
        solution: None,
    };
    assert_eq!(
        trivial_invalid_reason(&r).unwrap(),
        "col 1 requires at least 3 cells but the grid is only 2 tall"
    );
}

#[test]
fn stepping_through_a_trace() {
    let p = sample();
    let result = SolveResult {
        state: SolutionState::Complete,
        grid: vec![F, E, F, F, F, E],
        steps: vec![
            SolveStep { description: "a".into(), line: None, cells_changed: vec![(0, 0, F), (1, 2, E)] },
            SolveStep { description: "b".into(), line: None, cells_changed: vec![(0, 1, E)] },
        ],
    };
    assert_eq!(grid_at_step(&p, &result, 0), vec![U; 6]);
    assert_eq!(grid_at_step(&p, &result, 1), vec![F, U, U, U, U, E]);
    assert_eq!(grid_at_step(&p, &result, 2), result.grid);
    assert_eq!(grid_at_step(&p, &result, 7), result.grid);
}

#[test]
fn a_trivially_invalid_puzzle_has_no_solution() {
    // Row 1 needs three cells in a grid two wide: no grid of the sixteen
    // satisfies every clue.
    let q = Puzzle {
        name: "q".into(),
        answer: None,
        width: 2,
        height: 2,
        row_clues: vec![vec![1, 1], vec![]],
        col_clues: vec![vec![1], vec![1]],
        solution: None,
    };
    assert!(trivial_invalid_reason(&q).is_some());
    for bits in 0u32..16 {
        let grid: Vec<CellState> = (0..4).map(|i| if bits & (1 << i) != 0 { F } else { E }).collect();
        assert!(!is_puzzle_fully_solved(&q, &grid));
    }
}
