use nonogram::solution_file::{group_solved, solution_string, with_forward_slashes, with_solution};
use nonogram::types::CellState::{Empty as E, Filled as F, Unknown as U};

#[test]
fn solution_field_of_a_grid() {
    assert_eq!(solution_string(&[F, E, U, F]), "1001");
    assert_eq!(solution_string(&[]), "");
}

#[test]
fn solution_is_written_into_the_puzzle_line() {
    let content = "# header\nalpha;C:1/R:1\nbeta;C:1/R:1; Beta ;0\n\n";
    assert_eq!(
        with_solution(content, "beta", "1"),
        "# header\nalpha;C:1/R:1\nbeta;C:1/R:1;Beta;1\n\n"
    );
    assert_eq!(
        with_solution(content, "alpha", "01"),
        "# header\nalpha;C:1/R:1;;01\nbeta;C:1/R:1; Beta ;0\n\n"
    );
    // No such puzzle: the content comes back unchanged.
    assert_eq!(with_solution(content, "gamma", "1"), content);
    // Carriage returns go with the line breaks; no final break is added.
    assert_eq!(with_solution("  gamma ;C:1/R:1\r\nx", "gamma", "1"), "gamma ;C:1/R:1;;1\nx");
    // A line with only a name has no clue field and stays.
    assert_eq!(with_solution("delta", "delta", "1"), "delta");
}

#[test]
fn paths_use_forward_slashes() {
    assert_eq!(with_forward_slashes("puzzles\\easy\\a.txt"), "puzzles/easy/a.txt");
    assert_eq!(with_forward_slashes("a/b"), "a/b");
}

#[test]
fn solved_puzzles_group_by_file() {
    let pairs = vec![
        ("b.txt".to_string(), "z".to_string()),
        ("a.txt".to_string(), "y".to_string()),
        ("b.txt".to_string(), "x".to_string()),
    ];
    assert_eq!(
        group_solved(&pairs),
        vec![
            ("a.txt".to_string(), vec!["y".to_string()]),
            ("b.txt".to_string(), vec!["x".to_string(), "z".to_string()]),
        ]
    );
    assert!(group_solved(&vec![]).is_empty());
}
