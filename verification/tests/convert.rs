use nonogram::convert::{
    check_line_endings, clue_sum, clues_to_str, convert_generic, convert_letter, convert_plain, convert_semicolon,
    decode_letter_line, decode_token, detect_clue_sep, detect_format, looks_like_puzzle_string, normalize_clue,
    normalize_line_endings, parse_generic_clue, parse_plain_line, parse_semicolon_line, parse_sep_arg,
    resolve_token, sep_display, sep_eq, sep_token, split_lines, split_puzzles, split_section,
    validate_sep_uniqueness, Output, Sep, SeparatorConfig,
};

fn chars(s: &str) -> Vec<char> {
    s.chars().collect()
}

fn text(v: &[char]) -> String {
    v.iter().collect()
}

fn stdout_lines(out: &[Output]) -> Vec<String> {
    out.iter()
        .filter_map(|o| match o {
            Output::Stdout(s) => Some(s.clone()),
            Output::Stderr(_) => None,
        })
        .collect()
}

fn stderr_lines(out: &[Output]) -> Vec<String> {
    out.iter()
        .filter_map(|o| match o {
            Output::Stderr(s) => Some(s.clone()),
            Output::Stdout(_) => None,
        })
        .collect()
}

#[test]
fn tokens_resolve_to_separators() {
    assert!(matches!(resolve_token(&chars("comma")), Sep::Literal(ref s) if s == ","));
    assert!(matches!(resolve_token(&chars("sc")), Sep::Literal(ref s) if s == ";"));
    assert!(matches!(resolve_token(&chars("tb")), Sep::Literal(ref s) if s == "\t"));
    assert!(matches!(resolve_token(&chars("hyphen")), Sep::Literal(ref s) if s == "-"));
    assert!(matches!(resolve_token(&chars("nl")), Sep::Newline));
    assert!(matches!(resolve_token(&chars("blankline")), Sep::BlankLine));
    assert!(matches!(resolve_token(&chars("COLUMNS")), Sep::Literal(ref s) if s == "COLUMNS"));
}

#[test]
fn separators_display_and_name() {
    assert_eq!(sep_display(&Sep::Literal(",".into())), "\",\"");
    assert_eq!(sep_display(&Sep::Literal("\t".into())), "\"\\t\"");
    assert_eq!(sep_display(&Sep::Newline), "newline");
    assert_eq!(sep_display(&Sep::BlankLine), "blankline");
    assert_eq!(sep_token(&Sep::Literal(" ".into())), "space");
    assert_eq!(sep_token(&Sep::Literal("/".into())), "slash");
    assert_eq!(sep_token(&Sep::Literal("COLUMNS".into())), "COLUMNS");
    assert_eq!(sep_token(&Sep::Newline), "newline");
    assert!(sep_eq(&Sep::Literal("x".into()), &Sep::Literal("x".into())));
    assert!(!sep_eq(&Sep::Literal("x".into()), &Sep::Newline));
}

#[test]
fn sep_argument_parsing() {
    let c = parse_sep_arg("comma,colon,dash").unwrap();
    assert!(matches!(c.clue, Sep::Literal(ref s) if s == ","));
    assert!(matches!(c.line, Sep::Literal(ref s) if s == ":"));
    assert!(matches!(c.section, Sep::Literal(ref s) if s == "-"));
    assert!(matches!(c.puzzle, Sep::BlankLine));
    assert_eq!(
        parse_sep_arg("a,b").unwrap_err(),
        "--sep requires 3 or 4 comma-separated tokens (A,B,C or A,B,C,D), got 2"
    );
    assert_eq!(
        parse_sep_arg("comma,cm,dash").unwrap_err(),
        "clue-sep and line-sep are both \",\" — all separators must be distinct"
    );
    assert_eq!(
        parse_sep_arg("comma,nl,dash,newline").unwrap_err(),
        "line-sep and puzzle-sep are both newline — all separators must be distinct"
    );
    let ok = SeparatorConfig {
        clue: Sep::Literal(",".into()),
        line: Sep::Newline,
        section: Sep::Literal("COLUMNS".into()),
        puzzle: Sep::BlankLine,
    };
    assert!(validate_sep_uniqueness(&ok).is_ok());
}

#[test]
fn line_endings() {
    assert!(check_line_endings("a\r\nb\r\n").is_ok());
    assert!(check_line_endings("a\nb\n").is_ok());
    assert_eq!(
        check_line_endings("a\r\nb\n").unwrap_err(),
        "mixed line endings (CRLF and bare LF) — convert to a consistent format first (e.g. dos2unix or unix2dos)"
    );
    assert_eq!(normalize_line_endings("a\r\nb\rc\n"), "a\nb\nc\n");
}

#[test]
fn letter_tokens_decode() {
    assert_eq!(decode_token(&chars("BA")).unwrap(), vec![2, 1]);
    assert_eq!(decode_token(&chars("Z")).unwrap(), vec![26]);
    assert_eq!(decode_token(&chars("Ab")).unwrap_err(), "unexpected character 'b' (only A–Z allowed)");
    assert_eq!(decode_letter_line(&chars("C BA  CB")).unwrap(), vec![vec![3], vec![2, 1], vec![3, 2]]);
}

#[test]
fn clue_text_and_sums() {
    assert_eq!(clues_to_str(&vec![vec![1, 5], vec![3], vec![], vec![2, 2]]), "1 5,3,0,2 2");
    assert_eq!(clue_sum(&vec![vec![1, 5], vec![3], vec![]]), 9);
    assert_eq!(normalize_clue(vec![0]), Vec::<u32>::new());
    assert_eq!(normalize_clue(vec![0, 1]), vec![0, 1]);
}

#[test]
fn clue_line_parsers() {
    assert_eq!(parse_semicolon_line(&chars("1; 2 ;3")).unwrap(), vec![1, 2, 3]);
    assert_eq!(parse_semicolon_line(&chars("0")).unwrap(), Vec::<u32>::new());
    assert_eq!(parse_semicolon_line(&chars("1;;2")).unwrap_err(), "invalid number ''");
    assert_eq!(parse_plain_line(&chars(" 4  1 ")).unwrap(), vec![4, 1]);
    assert_eq!(parse_plain_line(&chars("4 x")).unwrap_err(), "invalid number 'x'");
    let comma = Sep::Literal(",".into());
    assert_eq!(parse_generic_clue(&chars("1, 2,,3"), &comma).unwrap(), vec![1, 2, 3]);
    assert_eq!(parse_generic_clue(&chars("0"), &comma).unwrap(), Vec::<u32>::new());
    assert_eq!(parse_generic_clue(&chars("1,q"), &comma).unwrap_err(), "invalid number 'q'");
}

#[test]
fn splitting_helpers() {
    let blocks = split_puzzles(&chars("a\nb\n\n  \nc\n"), &Sep::BlankLine);
    assert_eq!(blocks.iter().map(|b| text(b)).collect::<Vec<_>>(), vec!["a\nb", "c"]);
    let lines = split_puzzles(&chars("x\ny"), &Sep::Newline);
    assert_eq!(lines.iter().map(|b| text(b)).collect::<Vec<_>>(), vec!["x", "y"]);
    let (a, b) = split_section(&chars("1 2\nCOLUMNS\n3"), &Sep::Literal("COLUMNS".into())).unwrap();
    assert_eq!((text(&a), text(&b)), ("1 2".to_string(), "3".to_string()));
    let (a, b) = split_section(&chars("1,1:2-2:1"), &Sep::Literal("-".into())).unwrap();
    assert_eq!((text(&a), text(&b)), ("1,1:2".to_string(), "2:1".to_string()));
    assert!(split_section(&chars("no separator"), &Sep::Newline).is_none());
    let ls = split_lines(&chars(" 1 : 2 ::3"), &Sep::Literal(":".into()));
    assert_eq!(ls.iter().map(|b| text(b)).collect::<Vec<_>>(), vec!["1", "2", "3"]);
}

#[test]
fn puzzle_string_detection() {
    assert!(looks_like_puzzle_string(&chars("1,1:2-2:1:1")));
    assert!(!looks_like_puzzle_string(&chars("1-2-3")));
    assert!(!looks_like_puzzle_string(&chars("1 2-3")));
    let lines = vec![chars("1;2"), chars("3")];
    assert!(matches!(detect_clue_sep(&lines), Some(Sep::Literal(ref s)) if s == ";"));
    let lines = vec![chars("1  2"), chars("3")];
    assert!(matches!(detect_clue_sep(&lines), Some(Sep::Literal(ref s)) if s == " "));
    let lines = vec![chars("a b")];
    assert!(detect_clue_sep(&lines).is_none());
}

#[test]
fn letter_conversion() {
    let out = convert_letter(&chars("AA B\nB A A\n\nAA\n"), "Puzzle", false);
    assert_eq!(stdout_lines(&out), vec!["Puzzle 1|2,1,1/1 1,2"]);
    assert_eq!(stderr_lines(&out), vec!["Warning: block 2 has 1 line(s), expected 2 — skipping."]);
    let col_major = convert_letter(&chars("B A A\nAA B\n"), "P", true);
    assert_eq!(stdout_lines(&col_major), vec!["P 1|2,1,1/1 1,2"]);
    let bad = convert_letter(&chars("Ax\nA\n"), "P", false);
    assert_eq!(stderr_lines(&bad), vec!["Warning: block 1 row error: unexpected character 'x' (only A–Z allowed) — skipping."]);
}

#[test]
fn mismatched_totals_warn_before_the_line() {
    let out = convert_letter(&chars("B\nA\n"), "P", false);
    match (&out[0], &out[1]) {
        (Output::Stderr(w), Output::Stdout(l)) => {
            assert_eq!(w, "Warning: puzzle 1 clue mismatch (row total 2 ≠ col total 1) — input may be transposed or malformed.");
            assert_eq!(l, "P 1|1/2");
        }
        _ => panic!("expected a warning, then the line"),
    }
}

#[test]
fn columns_style_conversions() {
    let semi = convert_semicolon(&chars("1;1\n2\ncolumns\n2\n1\n0\n"), "S", false);
    assert_eq!(stdout_lines(&semi), vec!["S 1|2,1,0/1 1,2"]);
    assert_eq!(stderr_lines(&semi), vec!["Warning: puzzle 1 clue mismatch (row total 4 ≠ col total 3) — input may be transposed or malformed."]);
    let plain = convert_plain(&chars("1 1\n2\nCOLUMNS\n2\n1\n1\n\n1\n"), "P", false);
    assert_eq!(stdout_lines(&plain), vec!["P 1|2,1,1/1 1,2"]);
    assert_eq!(stderr_lines(&plain), vec!["Warning: block 2 has no COLUMNS separator — skipping."]);
}

#[test]
fn generic_conversion_with_custom_separators() {
    let config = parse_sep_arg("comma,colon,dash,newline").unwrap();
    let out = convert_generic(&chars("1,1:2-2:1:1\nbad\n1-x\n"), "G", &config, false);
    assert_eq!(stdout_lines(&out), vec!["G 1|2,1,1/1 1,2"]);
    assert_eq!(
        stderr_lines(&out),
        vec![
            "Warning: puzzle 2 has no \"-\" section separator — skipping.",
            "Warning: puzzle 2 col 0: invalid number 'x' — skipping.",
        ]
    );
    let swapped = convert_generic(&chars("2:1:1-1,1:2\n"), "G", &config, true);
    assert_eq!(stdout_lines(&swapped), vec!["G 1|2,1,1/1 1,2"]);
}

#[test]
fn detection_reports() {
    assert_eq!(detect_format(&chars("\n  \n"), "f.txt"), vec!["Detect: 'f.txt' appears to be empty."]);
    assert_eq!(
        detect_format(&chars("AB C\nB B\n"), "f.txt"),
        vec!["Detected letter encoding (A=1 … Z=26) for 'f.txt'.", "  Use: --format letter"]
    );
    let report = detect_format(&chars("1;2\n3\nCOLUMNS\n2\n\n1\n"), "f.txt");
    assert_eq!(report[0], "Detected separators for 'f.txt':");
    assert_eq!(report[1], "  A (clue)   : \";\"");
    assert_eq!(report[4], "  D (puzzle) : blankline");
    assert_eq!(report[6], "  Suggested: --sep semicolon,newline,COLUMNS,blankline");
    let rs = detect_format(&chars("1,1:2-2:1:1\n"), "r.txt");
    assert_eq!(rs[6], "  Suggested: --sep comma,colon,dash,newline");
    let unknown = detect_format(&chars("x y\n"), "u.txt");
    assert_eq!(
        unknown,
        vec![
            "Detect: could not identify a known format for 'u.txt'.",
            "  Clue separator hint: unknown",
            "  Inspect the file and specify --sep A,B,C[,D] manually.",
        ]
    );
}
