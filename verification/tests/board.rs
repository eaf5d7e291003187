use nonogram::board::{
    active_steps_len, assist_lines, cell_tier, display_grid, click_target, clue_sum, line_infeasible, origin_tier, DragPreview,
    DragStroke, LineAssist, ManualBoard, StepNav, CLEAR_HISTORY,
};
use nonogram::types::{AllSolutions, CellState, LineId, Puzzle, SolutionState, SolveResult, SolveStep};

use CellState::{Empty as E, Filled as F, Unknown as U};

fn sample() -> Puzzle {
    // # . #
    // # # .
    Puzzle {
        name: "sample".into(),
        answer: None,
        width: 3,
        height: 2,
        row_clues: vec![vec![1, 1], vec![2]],
        col_clues: vec![vec![2], vec![1], vec![1]],
        solution: None,
    }
}

fn strip() -> Puzzle {
    Puzzle {
        name: "strip".into(),
        answer: None,
        width: 5,
        height: 1,
        row_clues: vec![vec![1, 1]],
        col_clues: vec![vec![1], vec![], vec![], vec![], vec![1]],
        solution: None,
    }
}

const OFF: LineAssist = LineAssist { auto_fill_empty: false, auto_cross_edges: false };
const FILL: LineAssist = LineAssist { auto_fill_empty: true, auto_cross_edges: false };
const CROSS: LineAssist = LineAssist { auto_fill_empty: false, auto_cross_edges: true };

#[test]
fn clicks_toggle_cells() {
    assert_eq!(click_target(U, false), F);
    assert_eq!(click_target(E, false), F);
    assert_eq!(click_target(F, false), U);
    assert_eq!(click_target(U, true), E);
    assert_eq!(click_target(F, true), E);
    assert_eq!(click_target(E, true), U);
}

#[test]
fn press_paints_and_undo_redo_walk_history() {
    let p = sample();
    let mut board = ManualBoard::new(vec![U; 6]);
    let mut stroke = DragStroke::idle();
    stroke.press(&mut board, &p, 1, 1, false, false, OFF, false);
    assert_eq!(board.grid, vec![U, U, U, U, F, U]);
    assert_eq!(stroke.paint, Some(F));
    // Dragging paints without a new undo point.
    stroke.enter(&mut board, &p, 1, 2, false, OFF, false);
    assert_eq!(board.grid, vec![U, U, U, U, F, F]);
    assert_eq!(stroke.release().is_none(), true);
    assert_eq!(stroke.paint, None);
    assert_eq!(board.undo.len(), 1);

    board.undo();
    assert_eq!(board.grid, vec![U; 6]);
    assert_eq!(board.redo, vec![vec![U, U, U, U, F, F]]);
    board.redo();
    assert_eq!(board.grid, vec![U, U, U, U, F, F]);
    assert!(board.redo.is_empty());
    // Nothing left to redo: no change.
    board.redo();
    assert_eq!(board.grid, vec![U, U, U, U, F, F]);
    // A new change forgets redo.
    board.undo();
    stroke.press(&mut board, &p, 0, 0, true, false, OFF, false);
    assert_eq!(board.grid, vec![E, U, U, U, U, U]);
    assert!(board.redo.is_empty());
}

#[test]
fn right_click_on_empty_cell_clears_it() {
    let p = sample();
    let mut board = ManualBoard::new(vec![E, U, U, U, U, U]);
    let mut stroke = DragStroke::idle();
    stroke.press(&mut board, &p, 0, 0, true, false, OFF, false);
    assert_eq!(board.grid[0], U);
    assert_eq!(stroke.paint, Some(U));
}

#[test]
fn axis_locked_stroke_paints_on_release() {
    let p = sample();
    let mut board = ManualBoard::new(vec![U; 6]);
    let mut stroke = DragStroke::idle();
    stroke.press(&mut board, &p, 0, 0, false, true, OFF, false);
    assert_eq!(board.grid, vec![U; 6]);
    stroke.enter(&mut board, &p, 1, 2, true, OFF, false);
    let preview = stroke.release().unwrap();
    assert_eq!(preview.anchor, (0, 0));
    assert_eq!(preview.current, (1, 2));
    assert_eq!(preview.paint, F);
    board.apply_stroke(&p, preview, OFF, false);
    // The column distance is larger: the stroke runs along row 0.
    assert_eq!(board.grid, vec![F, F, F, U, U, U]);
    board.undo();
    assert_eq!(board.grid, vec![U; 6]);
}

#[test]
fn vertical_stroke_follows_the_anchor_column() {
    let p = sample();
    let mut board = ManualBoard::new(vec![U; 6]);
    let stroke = DragPreview { anchor: (1, 2), current: (0, 2), paint: E };
    board.apply_stroke(&p, stroke, OFF, false);
    assert_eq!(board.grid, vec![U, U, E, U, U, E]);
}

#[test]
fn auto_fill_marks_a_finished_line_empty() {
    let p = strip();
    let mut grid = vec![F, E, U, E, F];
    assist_lines(&mut grid, &p, 0, 4, F, FILL, false);
    assert_eq!(grid, vec![F, E, E, E, F]);
    // Not while a solver result is shown, nor for an unknown paint.
    let mut grid = vec![F, E, U, E, F];
    assist_lines(&mut grid, &p, 0, 4, F, FILL, true);
    assert_eq!(grid, vec![F, E, U, E, F]);
    assist_lines(&mut grid, &p, 0, 4, U, FILL, false);
    assert_eq!(grid, vec![F, E, U, E, F]);
    // An unfinished line is left alone.
    let mut grid = vec![F, E, U, U, U];
    assist_lines(&mut grid, &p, 0, 0, F, FILL, false);
    assert_eq!(grid, vec![F, E, U, U, U]);
}

#[test]
fn auto_cross_marks_cells_between_edge_runs() {
    let p = strip();
    let mut board = ManualBoard::new(vec![F, E, U, E, U]);
    board.paint(&p, 0, 4, F, CROSS, false);
    assert_eq!(board.grid, vec![F, E, E, E, F]);
    let mut board = ManualBoard::new(vec![F, E, U, E, U]);
    board.paint(&p, 0, 4, F, OFF, false);
    assert_eq!(board.grid, vec![F, E, U, E, F]);
}

#[test]
fn auto_fill_of_a_column() {
    let p = sample();
    // Column 1 has clue 1; filling (0, 1) completes it, row 0 (clues 1 1) is not done.
    let mut grid = vec![U, F, U, U, U, U];
    assist_lines(&mut grid, &p, 0, 1, F, FILL, false);
    assert_eq!(grid, vec![U, F, U, U, E, U]);
    let mut grid = vec![F, U, U, F, F, U];
    assist_lines(&mut grid, &p, 1, 1, F, FILL, false);
    // Row 1 shows its clue 2: (1, 2) becomes empty; column 1 (clue 1) too: (0, 1).
    assert_eq!(grid, vec![F, E, U, F, F, E]);
}

#[test]
fn clear_keeps_a_bounded_history() {
    let mut board = ManualBoard::new(vec![F, E]);
    board.clear(2);
    assert_eq!(board.grid, vec![U, U]);
    assert_eq!(board.undo, vec![vec![F, E]]);
    for _ in 0..CLEAR_HISTORY + 10 {
        board.clear(2);
    }
    assert_eq!(board.undo.len(), CLEAR_HISTORY);
    // A puzzle without cells keeps its grid.
    let mut empty = ManualBoard::new(vec![]);
    empty.clear(0);
    assert!(empty.grid.is_empty());
    assert_eq!(empty.undo.len(), 1);
}

#[test]
fn rejecting_a_trial_restores_its_start() {
    let p = sample();
    let mut board = ManualBoard::new(vec![F, U, U, U, U, U]);
    board.trial_enter();
    let mut stroke = DragStroke::idle();
    stroke.press(&mut board, &p, 1, 0, false, false, OFF, false);
    stroke.release();
    stroke.press(&mut board, &p, 1, 1, false, false, OFF, false);
    stroke.release();
    assert_eq!(board.trial.len(), 1);
    assert_eq!(board.trial[0].1, Some((1, 0)));
    assert_eq!(board.grid, vec![F, U, U, F, F, U]);
    board.trial_reject();
    assert_eq!(board.grid, vec![F, U, U, U, U, U]);
    assert!(board.trial.is_empty());
    // Accepting keeps the changes.
    board.trial_enter();
    stroke.press(&mut board, &p, 0, 2, false, false, OFF, false);
    board.trial_accept();
    assert_eq!(board.grid, vec![F, U, F, U, U, U]);
    assert!(board.trial.is_empty());
    // Without a tier nothing happens.
    board.trial_reject();
    assert_eq!(board.grid, vec![F, U, F, U, U, U]);
}

#[test]
fn taking_over_a_solve_walks_back_through_its_trace() {
    let p = sample();
    let steps = vec![
        SolveStep { description: "row 0".into(), line: Some(LineId::Row(0)), cells_changed: vec![(0, 0, F)] },
        SolveStep {
            description: "row 1".into(),
            line: Some(LineId::Row(1)),
            cells_changed: vec![(1, 0, F), (1, 1, F)],
        },
    ];
    let result = SolveResult { state: SolutionState::Complete, grid: vec![F, E, F, F, F, E], steps };
    let mut board = ManualBoard::new(vec![E, U, U, U, U, U]);
    board.copy_solve(&p, &result);
    assert_eq!(board.grid, vec![F, E, F, F, F, E]);
    assert_eq!(board.undo.len(), 3);
    board.undo();
    assert_eq!(board.grid, vec![F, U, U, U, U, U]);
    board.undo();
    assert_eq!(board.grid, vec![U; 6]);
    board.undo();
    assert_eq!(board.grid, vec![E, U, U, U, U, U]);
}

#[test]
fn step_cursor_navigation() {
    let mut nav = StepNav::start();
    nav.forward(Some(2));
    nav.forward(Some(2));
    nav.forward(Some(2));
    assert_eq!(nav.cursor, 2);
    nav.back();
    assert_eq!(nav.cursor, 1);
    nav.first();
    assert_eq!(nav.cursor, 0);
    nav.back();
    assert_eq!(nav.cursor, 0);
    nav.last(Some(5));
    assert_eq!(nav.cursor, 5);
    nav.forward(None);
    assert_eq!(nav.cursor, 5);
}

#[test]
fn replay_restarts_and_stops_at_the_end() {
    let mut nav = StepNav { solution_index: 0, cursor: 3, replaying: false };
    nav.toggle_replay(Some(3));
    assert!(nav.replaying);
    assert_eq!(nav.cursor, 0);
    nav.tick(Some(3));
    nav.tick(Some(3));
    nav.tick(Some(3));
    assert_eq!(nav.cursor, 3);
    assert!(nav.replaying);
    nav.tick(Some(3));
    assert!(!nav.replaying);
    assert_eq!(nav.cursor, 3);
    // Without a focused puzzle replay does not start.
    nav.toggle_replay(None);
    assert!(!nav.replaying);
    nav.toggle_replay(Some(3));
    nav.toggle_replay(Some(3));
    assert!(!nav.replaying);
}

fn result_with_steps(n: usize) -> SolveResult {
    let steps = (0..n)
        .map(|i| SolveStep { description: format!("step {i}"), line: None, cells_changed: vec![] })
        .collect();
    SolveResult { state: SolutionState::Complete, grid: vec![F], steps }
}

#[test]
fn solution_navigation_shows_each_trace_end() {
    let all = AllSolutions {
        solutions: vec![result_with_steps(2), result_with_steps(5), result_with_steps(1)],
        nodes_expanded: 0,
        nodes_pushed: 0,
        aborted: false,
    };
    let single = result_with_steps(7);
    assert_eq!(active_steps_len(Some(&all), 1, Some(&single)), 5);
    assert_eq!(active_steps_len(Some(&all), 9, Some(&single)), 7);
    assert_eq!(active_steps_len(None, 0, None), 0);

    let mut nav = StepNav::start();
    nav.sync(Some(&all), Some(&single));
    assert_eq!((nav.solution_index, nav.cursor), (2, 1));
    nav.next_solution(Some(&all));
    assert_eq!((nav.solution_index, nav.cursor), (2, 1));
    nav.replaying = true;
    nav.prev_solution(Some(&all), true);
    assert_eq!((nav.solution_index, nav.cursor, nav.replaying), (1, 5, false));
    nav.prev_solution(Some(&all), true);
    nav.prev_solution(Some(&all), true);
    assert_eq!((nav.solution_index, nav.cursor), (0, 2));
    nav.next_solution(Some(&all));
    assert_eq!((nav.solution_index, nav.cursor), (1, 5));
    nav.sync(None, Some(&single));
    assert_eq!((nav.solution_index, nav.cursor), (0, 7));
    nav.sync(None, None);
    assert_eq!((nav.solution_index, nav.cursor), (0, 0));
}

#[test]
fn trial_tiers_of_cells() {
    let trial = vec![(vec![F, U, U], None), (vec![F, E, U], Some((0, 2)))];
    assert_eq!(cell_tier(&trial, 0, F), 0);
    assert_eq!(cell_tier(&trial, 1, E), 1);
    assert_eq!(cell_tier(&trial, 2, F), 2);
    assert_eq!(cell_tier(&trial, 5, F), 2);
    assert_eq!(cell_tier(&trial, 2, U), 0);
    assert_eq!(cell_tier(&vec![], 2, F), 0);
    assert_eq!(origin_tier(&trial, 0, 2), Some(2));
    assert_eq!(origin_tier(&trial, 1, 1), None);
    let nested = vec![(vec![U], Some((0, 0))), (vec![F], Some((0, 0)))];
    assert_eq!(origin_tier(&nested, 0, 0), Some(1));
}

#[test]
fn clue_totals_and_overlong_lines() {
    assert_eq!(clue_sum(&[1, 2, 3], false), 6);
    assert_eq!(clue_sum(&[1, 2, 3], true), 8);
    assert_eq!(clue_sum(&[], false), 0);
    assert_eq!(clue_sum(&[], true), 0);
    assert_eq!(clue_sum(&[u32::MAX, 1], false), 0);
    assert_eq!(clue_sum(&[u32::MAX, 1], true), 1);
    assert!(line_infeasible(&[2, 2], 4));
    assert!(!line_infeasible(&[2, 1], 4));
    assert!(!line_infeasible(&[], 0));
}

#[test]
fn shown_grid_follows_the_step_cursor() {
    let p = sample();
    let steps = vec![
        SolveStep { description: "row 0".into(), line: Some(LineId::Row(0)), cells_changed: vec![(0, 0, F)] },
        SolveStep { description: "row 1".into(), line: Some(LineId::Row(1)), cells_changed: vec![(1, 1, F)] },
    ];
    let result = SolveResult { state: SolutionState::Complete, grid: vec![F, E, F, F, F, E], steps };
    assert_eq!(display_grid(&p, Some(&result), 0, None), Some(vec![U; 6]));
    assert_eq!(display_grid(&p, Some(&result), 1, None), Some(vec![F, U, U, U, U, U]));
    assert_eq!(display_grid(&p, Some(&result), 7, None), Some(vec![F, E, F, F, F, E]));
    let snapshot = vec![F, U, U, U, U, E];
    let empty = SolveResult { state: SolutionState::Aborted, grid: vec![], steps: vec![] };
    assert_eq!(display_grid(&p, Some(&empty), 0, Some(&snapshot)), Some(snapshot.clone()));
    assert_eq!(display_grid(&p, None, 0, Some(&snapshot)), Some(snapshot.clone()));
    assert_eq!(display_grid(&p, None, 0, None), None);
}
