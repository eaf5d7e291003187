use nonogram::difficulty::{count_unknowns, DifficultyError};
use nonogram::human::{unknown_cells, HumanSolver};
use nonogram::types::{CellState, LineId, Puzzle, SolutionState, SolveContext, Solver};

#[test]
fn count_unknowns_reads_rows_and_cols_correctly() {
    let grid = vec![
        CellState::Filled, CellState::Unknown, CellState::Empty,
        CellState::Unknown, CellState::Unknown, CellState::Filled,
        CellState::Empty, CellState::Filled, CellState::Unknown,
    ];
    // row1 = [Unknown, Unknown, Filled] -> 2 unknowns
    assert_eq!(count_unknowns(&grid, 3, 3, LineId::Row(1)), 2);
    // col2 = [Empty, Filled, Unknown] -> 1 unknown
    assert_eq!(count_unknowns(&grid, 3, 3, LineId::Col(2)), 1);
}

#[test]
fn count_unknowns_on_a_wide_grid() {
    // 2 rows, 3 columns.
    let grid = vec![
        CellState::Unknown, CellState::Unknown, CellState::Unknown,
        CellState::Filled, CellState::Unknown, CellState::Empty,
    ];
    assert_eq!(count_unknowns(&grid, 2, 3, LineId::Row(0)), 3);
    assert_eq!(count_unknowns(&grid, 2, 3, LineId::Row(1)), 1);
    assert_eq!(count_unknowns(&grid, 2, 3, LineId::Col(0)), 1);
    assert_eq!(count_unknowns(&grid, 2, 3, LineId::Col(1)), 2);
}

#[test]
fn difficulty_errors_compare_by_value() {
    assert_eq!(DifficultyError::InvalidPuzzle("x".into()), DifficultyError::InvalidPuzzle("x".into()));
    assert_ne!(DifficultyError::InvalidPuzzle("x".into()), DifficultyError::Unsolvable);
}

#[test]
fn human_solver_leaves_everything_unknown() {
    let p = Puzzle {
        name: "h".into(),
        answer: None,
        width: 3,
        height: 2,
        row_clues: vec![vec![3], vec![1]],
        col_clues: vec![vec![1], vec![2], vec![1]],
        solution: None,
    };
    let r = HumanSolver.solve(&p, &SolveContext::default());
    assert_eq!(r.state, SolutionState::Partial);
    assert_eq!(r.grid, vec![CellState::Unknown; 6]);
    assert!(r.steps.is_empty());
    assert_eq!(unknown_cells(4), vec![CellState::Unknown; 4]);
}
