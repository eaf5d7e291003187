use nonogram::export::{
    decode_pz_group, export_puzprv3, format_solve_log, parse_puzzlink_url, parse_pzprv3, puzzle_to_puzzlink_url,
    ExportFormat,
};
use nonogram::parse::ParsedPuzzle;
use nonogram::types::{CellState, LineId, Puzzle, SolveStep};

fn sample() -> Puzzle {
    // # . #
    // # # .
    Puzzle {
        name: "sample".into(),
        answer: None,
        width: 3,
        height: 2,
        row_clues: vec![vec![1, 1], vec![2]],
        col_clues: vec![vec![2], vec![1], vec![1]],
        solution: None,
    }
}

fn chars(s: &str) -> Vec<char> {
    s.chars().collect()
}

#[test]
fn export_format_label() {
    assert_eq!(ExportFormat::PuzPreV3.label(), "Puz-Pre v3");
}

#[test]
fn puzzlink_url_encodes_groups_and_zero_runs() {
    assert_eq!(puzzle_to_puzzlink_url(&sample()), "https://puzz.link/p?nonogram/3/2/211112g");
    let wide = Puzzle {
        name: "w".into(),
        answer: None,
        width: 1,
        height: 2,
        row_clues: vec![vec![], vec![]],
        col_clues: vec![vec![]],
        solution: None,
    };
    // Column group of one slot: one zero ('g'); each row group of one slot: 'g'.
    assert_eq!(puzzle_to_puzzlink_url(&wide), "https://puzz.link/p?nonogram/1/2/ggg");
    let big = Puzzle {
        name: "b".into(),
        answer: None,
        width: 1,
        height: 1,
        row_clues: vec![vec![20]],
        col_clues: vec![vec![12]],
        solution: None,
    };
    assert_eq!(puzzle_to_puzzlink_url(&big), "https://puzz.link/p?nonogram/1/1/c-14");
}

#[test]
fn puzzlink_url_decodes_back() {
    let (title, entries) = parse_puzzlink_url("https://puzz.link/p?nonogram/3/2/211112g").unwrap();
    assert_eq!(title, "puzz.link 3×2");
    assert_eq!(entries.len(), 1);
    match &entries[0] {
        ParsedPuzzle::Valid(p) => {
            assert_eq!(p.name, "3×2");
            assert_eq!(p.width, 3);
            assert_eq!(p.height, 2);
            assert_eq!(p.col_clues, vec![vec![2], vec![1], vec![1]]);
            assert_eq!(p.row_clues, vec![vec![1, 1], vec![2]]);
        }
        _ => panic!("expected a valid puzzle"),
    }
}

#[test]
fn puzzlink_url_errors() {
    assert_eq!(parse_puzzlink_url("https://example.com/").unwrap_err(), "Not a puzz.link nonogram URL");
    assert_eq!(parse_puzzlink_url("p?nonogram/x/2/11").unwrap_err(), "Invalid width");
    assert_eq!(parse_puzzlink_url("p?nonogram/2").unwrap_err(), "Missing height");
    assert_eq!(parse_puzzlink_url("p?nonogram/2/y/11").unwrap_err(), "Invalid height");
    assert_eq!(parse_puzzlink_url("p?nonogram/2/2").unwrap_err(), "Missing encoded data");
    assert_eq!(parse_puzzlink_url("p?nonogram/0/2/11").unwrap_err(), "Zero-dimension puzzle");
    assert_eq!(parse_puzzlink_url("p?nonogram/1/1/!").unwrap_err(), "col 1: unexpected char '!'");
    assert_eq!(parse_puzzlink_url("p?nonogram/1/1/1").unwrap_err(), "row 1: unexpected end of data in group");
}

#[test]
fn pz_group_decoding() {
    let (v, j) = decode_pz_group(&chars("-10c"), 0, 2).unwrap();
    assert_eq!(v, vec![12, 16]);
    assert_eq!(j, 4);
    // A full group swallows an optional 'f' marker.
    let (v, j) = decode_pz_group(&chars("3f9"), 0, 1).unwrap();
    assert_eq!(v, vec![3]);
    assert_eq!(j, 2);
    // 'z' counts twenty zeros and continues into the next run character.
    let (v, j) = decode_pz_group(&chars("zh5"), 0, 22).unwrap();
    assert!(v.is_empty());
    assert_eq!(j, 2);
    assert_eq!(decode_pz_group(&chars("1h"), 0, 2).unwrap_err(), "group size mismatch: 1 values + 2 zeros ≠ 2");
    assert_eq!(decode_pz_group(&chars(""), 0, 1).unwrap_err(), "unexpected end of data in group");
    assert_eq!(decode_pz_group(&chars("-1"), 0, 1).unwrap_err(), "truncated hex value");
    assert_eq!(decode_pz_group(&chars("-zz"), 0, 1).unwrap_err(), "invalid hex: -zz");
    assert_eq!(decode_pz_group(&chars("?"), 0, 1).unwrap_err(), "unexpected char '?'");
}

#[test]
fn puzprv3_export_layout() {
    let p = sample();
    let grid = vec![
        CellState::Filled, CellState::Empty, CellState::Filled,
        CellState::Filled, CellState::Filled, CellState::Unknown,
    ];
    let text = export_puzprv3(&p.row_clues, &p.col_clues, 3, 2, Some(&grid), &[true, false], &[false, true, false]);
    let expected = "pzprv3\nnonogram\n2\n3\n\
                    . . 2 c1 1\n\
                    c1 c1 # . #\n\
                    . 2 # # .\n";
    assert_eq!(text, expected);
    let blank = export_puzprv3(&p.row_clues, &p.col_clues, 3, 2, None, &[], &[]);
    assert_eq!(blank, "pzprv3\nnonogram\n2\n3\n. . 2 1 1\n1 1 . . .\n. 2 . . .\n");
}

#[test]
fn puzprv3_reads_back_what_it_writes() {
    let p = sample();
    let text = export_puzprv3(&p.row_clues, &p.col_clues, 3, 2, None, &[true, true], &[true, false, true]);
    let entries = parse_pzprv3(&text).unwrap();
    assert_eq!(entries.len(), 1);
    let q = entries[0].as_puzzle().unwrap();
    assert_eq!(q.name, "3×2");
    assert_eq!(q.width, 3);
    assert_eq!(q.height, 2);
    assert_eq!(q.row_clues, p.row_clues);
    assert_eq!(q.col_clues, p.col_clues);
}

#[test]
fn puzprv3_errors() {
    assert_eq!(parse_pzprv3("pzprv2\n").unwrap_err(), "Expected 'pzprv3', got 'pzprv2'");
    assert_eq!(parse_pzprv3("pzprv3\nother\n").unwrap_err(), "Expected 'nonogram', got 'other'");
    assert_eq!(parse_pzprv3("pzprv3\nnonogram\n").unwrap_err(), "Missing height");
    assert_eq!(parse_pzprv3("pzprv3\nnonogram\nx\n1\n").unwrap_err(), "Invalid height");
    assert_eq!(parse_pzprv3("pzprv3\nnonogram\n1\n").unwrap_err(), "Missing width");
    assert_eq!(parse_pzprv3("pzprv3\nnonogram\n1\n0\n").unwrap_err(), "Zero-dimension puzzle");
    assert_eq!(parse_pzprv3("pzprv3\nnonogram\n1\n1\n. 1\n").unwrap_err(), "Missing row 1");
    assert_eq!(parse_pzprv3("pzprv3\nnonogram\n1\n1\n. 1 2\n").unwrap_err(), "Row 0: expected 2 tokens, got 3");
    assert_eq!(parse_pzprv3("pzprv3\nnonogram\n1\n1\n. q\n1 .\n").unwrap_err(), "Invalid clue token 'q'");
}

#[test]
fn solve_log_reports_steps_and_lines() {
    let steps = vec![
        SolveStep {
            description: "Row 1: overlap".into(),
            line: Some(LineId::Row(0)),
            cells_changed: vec![(0, 0, CellState::Filled), (0, 1, CellState::Empty)],
        },
        SolveStep {
            description: "Col 2: branch".into(),
            line: None,
            cells_changed: vec![(1, 1, CellState::Filled)],
        },
    ];
    let log = format_solve_log("tiny", 2, 2, &steps);
    let mut expected = String::new();
    expected.push_str("=== Solve Log ===\n");
    expected.push_str("Puzzle: \"tiny\" (2×2)\n\n");
    expected.push_str("Summary\n-------\n");
    expected.push_str("Total steps:       2\n");
    expected.push_str("Propagation steps: 1\n");
    expected.push_str("Branching steps:   1  (steps 2)\n");
    expected.push_str("\nSteps\n-----\n");
    expected.push_str("\n  Step 1  Row 1: overlap  [2 cells]\n");
    expected.push_str("            \u{25A1}\u{25A1}\n");
    expected.push_str("          \u{2192} \u{25A0}\u{00D7}\n");
    expected.push_str("\n  Step 2  \u{2605} BRANCH  Col 2: branch  [1 cell]\n");
    assert_eq!(log, expected);
    let empty = format_solve_log("none", 1, 1, &vec![]);
    assert_eq!(
        empty,
        "=== Solve Log ===\nPuzzle: \"none\" (1×1)\n\nSummary\n-------\nTotal steps:       0\nPropagation steps: 0\nBranching steps:   0  (none)\n"
    );
}

#[test]
fn solve_log_of_a_grid_without_columns() {
    // A row of a grid of width zero has no cells: its line prints empty
    // whatever its index.
    let steps = vec![SolveStep { description: "Row 6: overlap".into(), line: Some(LineId::Row(5)), cells_changed: vec![] }];
    let log = format_solve_log("flat", 0, 2, &steps);
    let mut expected = String::new();
    expected.push_str("=== Solve Log ===\n");
    expected.push_str("Puzzle: \"flat\" (0×2)\n\n");
    expected.push_str("Summary\n-------\n");
    expected.push_str("Total steps:       1\n");
    expected.push_str("Propagation steps: 1\n");
    expected.push_str("Branching steps:   0  (none)\n");
    expected.push_str("\nSteps\n-----\n");
    expected.push_str("\n  Step 1  Row 6: overlap  [0 cells]\n");
    expected.push_str("            \n");
    expected.push_str("          \u{2192} \n");
    assert_eq!(log, expected);
}
