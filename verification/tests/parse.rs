use nonogram::export::puzzle_to_file_string;
use nonogram::parse::{normalize_clues, parse_content, parse_puzzle_line, ParseError, ParsedPuzzle};
use nonogram::types::{CellState, Puzzle};

#[test]
fn parses_the_readme_example() {
    let p = parse_puzzle_line("Example;C:1|1|1/R:1|1|1").unwrap();
    assert_eq!(p.name, "Example");
    assert_eq!(p.width, 3);
    assert_eq!(p.height, 3);
    assert_eq!(p.col_clues, vec![vec![1], vec![1], vec![1]]);
    assert_eq!(p.row_clues, vec![vec![1], vec![1], vec![1]]);
    assert!(p.answer.is_none());
    assert!(p.solution.is_none());
}

#[test]
fn sections_may_come_in_either_order_and_zero_means_empty() {
    let p = parse_puzzle_line("  Mixed ;R: 3 1 | 0 /C:2|1 1|0|1 ").unwrap();
    assert_eq!(p.name, "Mixed");
    assert_eq!(p.row_clues, vec![vec![3, 1], vec![]]);
    assert_eq!(p.col_clues, vec![vec![2], vec![1, 1], vec![], vec![1]]);
    assert_eq!(p.width, 4);
    assert_eq!(p.height, 2);
}

#[test]
fn answer_and_solution_fields() {
    let p = parse_puzzle_line("Dot;C:1|0/R:1;  Answer here ;10").unwrap();
    assert_eq!(p.answer.as_deref(), Some("Answer here"));
    assert_eq!(p.solution, Some(vec![CellState::Filled, CellState::Empty]));
    let q = parse_puzzle_line("Dot;C:1|0/R:1;;10").unwrap();
    assert!(q.answer.is_none());
    assert_eq!(q.solution, Some(vec![CellState::Filled, CellState::Empty]));
}

#[test]
fn each_parse_error_and_its_message() {
    let e = parse_puzzle_line("no clues here").unwrap_err();
    assert!(matches!(e, ParseError::MissingClues));
    assert_eq!(e.message(), "missing clue section");

    let e = parse_puzzle_line("name;C:1|1").unwrap_err();
    assert!(matches!(e, ParseError::MissingClues));

    let e = parse_puzzle_line("   ;C:1/R:1").unwrap_err();
    assert!(matches!(e, ParseError::EmptyName));
    assert_eq!(e.message(), "empty puzzle name");

    let e = parse_puzzle_line("n;C:1 x|1/R:1").unwrap_err();
    assert!(matches!(e, ParseError::InvalidClue(ref s) if s == "x"));
    assert_eq!(e.message(), "invalid clue number: x");

    let e = parse_puzzle_line("n;X:1/R:1").unwrap_err();
    assert!(matches!(e, ParseError::InvalidClueSection(ref s) if s == "X:1"));
    assert_eq!(e.message(), "clue section missing C: or R: prefix: \"X:1\"");

    let e = parse_puzzle_line("n;C:1/C:1").unwrap_err();
    assert!(matches!(e, ParseError::InvalidClueSection(ref s) if s == "C:1/C:1"));

    let e = parse_puzzle_line("n;C:1|1/R:2;a;101").unwrap_err();
    assert!(matches!(e, ParseError::SolutionLength { got: 3, expected: 2 }));
    assert_eq!(e.message(), "solution length 3 does not match grid 2");

    let e = parse_puzzle_line("n;C:1|1/R:2;a;1x").unwrap_err();
    assert!(matches!(e, ParseError::InvalidClue(ref s) if s == "x"));

    let e = ParseError::ClueTotalMismatch { row_total: 2, col_total: 1 };
    assert_eq!(e.message(), "row clues sum to 2 but column clues sum to 1");
}

#[test]
fn content_skips_blanks_and_comments_and_flags_bad_totals() {
    let content = "# a comment\n\nGood;C:1|1/R:2\r\nBad;C:1|0/R:2\nbroken line\n";
    let entries = parse_content(content);
    assert_eq!(entries.len(), 3);
    assert!(entries[0].is_valid());
    assert_eq!(entries[0].name(), "Good");
    assert_eq!(entries[0].as_puzzle().unwrap().width, 2);
    match &entries[1] {
        ParsedPuzzle::Invalid { name, reason, puzzle } => {
            assert_eq!(name, "Bad");
            assert!(matches!(reason, ParseError::ClueTotalMismatch { row_total: 2, col_total: 1 }));
            assert_eq!(puzzle.as_ref().unwrap().height, 1);
        }
        _ => panic!("expected an invalid entry"),
    }
    assert!(!entries[1].is_valid());
    assert!(entries[1].as_puzzle().is_none());
    assert_eq!(entries[2].name(), "broken line");
    assert!(entries[2].as_puzzle().is_none());
}

#[test]
fn normalize_drops_zero_entries() {
    assert_eq!(normalize_clues(vec![vec![0], vec![1, 0, 2], vec![]]), vec![vec![], vec![1, 2], vec![]]);
}

#[test]
fn written_line_reads_back_as_the_same_puzzle() {
    let p = Puzzle {
        name: "Round trip".into(),
        answer: Some("A cat".into()),
        width: 3,
        height: 2,
        row_clues: vec![vec![1, 1], vec![]],
        col_clues: vec![vec![1], vec![], vec![12]],
        solution: Some(vec![
            CellState::Filled, CellState::Empty, CellState::Filled,
            CellState::Empty, CellState::Empty, CellState::Empty,
        ]),
    };
    let line = puzzle_to_file_string(&p);
    assert_eq!(line, "Round trip;C:1|0|12/R:1 1|0;A cat;101000");
    let q = parse_puzzle_line(&line).unwrap();
    assert_eq!(q.name, p.name);
    assert_eq!(q.answer, p.answer);
    assert_eq!(q.width, p.width);
    assert_eq!(q.height, p.height);
    assert_eq!(q.row_clues, p.row_clues);
    assert_eq!(q.col_clues, p.col_clues);
    assert_eq!(q.solution, p.solution);
}

#[test]
fn written_line_without_answer_keeps_the_solution() {
    let p = Puzzle {
        name: "S".into(),
        answer: None,
        width: 1,
        height: 1,
        row_clues: vec![vec![1]],
        col_clues: vec![vec![1]],
        solution: Some(vec![CellState::Filled]),
    };
    let line = puzzle_to_file_string(&p);
    assert_eq!(line, "S;C:1/R:1;;1");
    let q = parse_puzzle_line(&line).unwrap();
    assert!(q.answer.is_none());
    assert_eq!(q.solution, p.solution);
}
