use nonogram::settings::{AssistFlag, AssistFlags, RunLengthOptions, RunLengthToggle};
use nonogram::letter_import::{convert_letter_content, decode_line};
use nonogram::scan::{collect_digits, fold_case, natural_str_cmp};
use nonogram::session::{Crosshair, FrozenRegion, LoadedFile, TimerState};
use nonogram::settings::{default_subcells, first_subcell_of, subcells_of, FocusKey, SecondaryFocusKey, SubcellKind};
use nonogram::url_import::{import_nonograms_page, parse_puzzle_nonograms_html};
use nonogram::parse::ParsedPuzzle;
use std::cmp::Ordering;

fn chars(s: &str) -> Vec<char> {
    s.chars().collect()
}

#[test]
fn natural_order_compares_numbers_by_value() {
    assert_eq!(natural_str_cmp("file2", "file10"), Ordering::Less);
    assert_eq!(natural_str_cmp("File10", "file2"), Ordering::Greater);
    assert_eq!(natural_str_cmp("abc", "ABC"), Ordering::Equal);
    assert_eq!(natural_str_cmp("a", "ab"), Ordering::Less);
    assert_eq!(natural_str_cmp("", ""), Ordering::Equal);
    assert_eq!(natural_str_cmp("x007", "x7"), Ordering::Equal);
    assert_eq!(natural_str_cmp("b1", "a9"), Ordering::Greater);
}

#[test]
fn natural_order_is_transitive_on_a_chain() {
    let names = ["", "!x", "a", "file2", "File10", "file10b", "~"];
    for i in 0..names.len() {
        for j in i + 1..names.len() {
            assert_eq!(natural_str_cmp(names[i], names[j]), Ordering::Less, "{} {}", names[i], names[j]);
        }
    }
    // Digit runs sort between the characters below '0' and those above '9'.
    assert_eq!(natural_str_cmp("#", "5"), Ordering::Less);
    assert_eq!(natural_str_cmp("5", "a"), Ordering::Less);
    assert_eq!(natural_str_cmp("#", "a"), Ordering::Less);
}

#[test]
fn digit_runs_and_case_folding() {
    assert_eq!(collect_digits(&chars("ab123c"), 2), (123, 5));
    assert_eq!(collect_digits(&chars("9"), 0), (9, 1));
    assert_eq!(collect_digits(&chars("x"), 0), (0, 0));
    assert_eq!(fold_case('Q'), 'q' as u32);
    assert_eq!(fold_case('q'), 'q' as u32);
    assert_eq!(fold_case('É'), 'É' as u32);
}

#[test]
fn letter_files_become_puzzles() {
    let puzzles = convert_letter_content("AA B\nB A A\n\nA\n\nB\nA x\n\nC\nC\n", "Letters");
    assert_eq!(puzzles.len(), 2);
    assert_eq!(puzzles[0].name, "Letters 1");
    assert_eq!(puzzles[0].row_clues, vec![vec![1, 1], vec![2]]);
    assert_eq!(puzzles[0].col_clues, vec![vec![2], vec![1], vec![1]]);
    assert_eq!(puzzles[0].width, 3);
    assert_eq!(puzzles[0].height, 2);
    // Blocks are numbered by position, the skipped ones included.
    assert_eq!(puzzles[1].name, "Letters 4");
    assert_eq!(puzzles[1].row_clues, vec![vec![3]]);
    assert_eq!(decode_line(&chars("AB  C")), Some(vec![vec![1, 2], vec![3]]));
    assert_eq!(decode_line(&chars("A1")), None);
}

const PAGE: &str = "<html><head><title> Daily Griddler </title></head><body>\
<script>var task = '2/1.x/1/1.1/2'; var cfg = { puzzleWidth: 3, puzzleHeight:\t2 };</script></body></html>";

#[test]
fn nonograms_page_import() {
    let (name, entries) = parse_puzzle_nonograms_html(PAGE, "https://www.puzzle-nonograms.com/?pl=abcdef0123456789&x=1").unwrap();
    assert_eq!(name, "Daily Griddler 3×2 #abcdef012345");
    match &entries[0] {
        ParsedPuzzle::Valid(p) => {
            assert_eq!(p.name, name);
            assert_eq!(p.width, 3);
            assert_eq!(p.height, 2);
            assert_eq!(p.col_clues, vec![vec![2], vec![1], vec![1]]);
            assert_eq!(p.row_clues, vec![vec![1, 1], vec![2]]);
        }
        _ => panic!("expected a valid puzzle"),
    }
}

#[test]
fn nonograms_title_mentioning_the_site_is_replaced() {
    let page = PAGE.replace("Daily Griddler", "NONOGRAMS Online");
    let (name, _) = parse_puzzle_nonograms_html(&page, "https://www.puzzle-nonograms.com/").unwrap();
    assert_eq!(name, "puzzle-nonograms.com 3×2 #imported");
    let untitled = PAGE.replace("<title> Daily Griddler </title>", "");
    let (name, _) = parse_puzzle_nonograms_html(&untitled, "x?pl=7").unwrap();
    assert_eq!(name, "puzzle-nonograms.com 3×2 #7");
}

#[test]
fn nonograms_page_errors() {
    assert_eq!(
        parse_puzzle_nonograms_html("nothing", "u").unwrap_err(),
        "Could not find `var task = '...'` in page source"
    );
    assert_eq!(
        parse_puzzle_nonograms_html("var task = '1/1'", "u").unwrap_err(),
        "Could not find puzzleWidth in page source"
    );
    assert_eq!(
        parse_puzzle_nonograms_html("var task = '1/1' puzzleWidth: 1", "u").unwrap_err(),
        "Could not find puzzleHeight in page source"
    );
    assert_eq!(
        parse_puzzle_nonograms_html("var task = '1/1/1' puzzleWidth: 1 puzzleHeight: 1", "u").unwrap_err(),
        "Expected 2 groups (1×1) but got 3"
    );
    let r = import_nonograms_page("var task = '1/1' puzzleWidth: 1 puzzleHeight: 1 <title>Mine</title>", "u", Some("mine"));
    assert_eq!(r.unwrap().0, "Mine 1×1 #imported");
}

#[test]
fn timer_counts_only_while_running() {
    let mut t = TimerState::default();
    assert_eq!(t.elapsed_secs, 0);
    assert!(!t.running);
    t.tick();
    assert_eq!(t.elapsed_secs, 0);
    t.running = true;
    t.tick();
    t.tick();
    assert_eq!(t.elapsed_secs, 2);
    assert_eq!(t.label(), "0:02");
    t.elapsed_secs = 3 * 3600 + 7 * 60 + 9;
    assert_eq!(t.label(), "3:07:09");
    t.elapsed_secs = 59 * 60 + 59;
    assert_eq!(t.label(), "59:59");
}

#[test]
fn crosshair_follows_regions() {
    let mut x = Crosshair::none();
    x.enter_cell((0, 1), 2, 3);
    assert_eq!(x.hover_cell, Some(((0, 1), 2, 3)));
    x.enter_region(FrozenRegion::Cells);
    assert_eq!((x.row, x.col), (Some(2), Some(3)));
    x.enter_region(FrozenRegion::RowAxis(4));
    assert_eq!((x.hover_cell, x.row, x.col), (None, Some(4), None));
    x.enter_region(FrozenRegion::ColAxis(5));
    assert_eq!((x.hover_cell, x.row, x.col), (None, None, Some(5)));
    x.enter_region(FrozenRegion::Other);
    assert_eq!((x.hover_cell, x.row, x.col), (None, None, None));
    let f = LoadedFile {
        path: "p.txt".into(),
        name: "p".into(),
        folder: None,
        auto_loaded: false,
        puzzles: Vec::new(),
        collapsed: true,
    };
    assert!(f.collapsed && f.puzzles.is_empty());
}

#[test]
fn focus_keys_and_subcells() {
    assert_eq!(FocusKey::Escape.label(), "Esc");
    assert_eq!(FocusKey::F11.label(), "F11");
    assert_eq!(SecondaryFocusKey::Off.label(), "None");
    assert!(SecondaryFocusKey::G.matches_str("g"));
    assert!(SecondaryFocusKey::G.matches_str("G"));
    assert!(!SecondaryFocusKey::G.matches_str("h"));
    assert!(!SecondaryFocusKey::Off.matches_str("f"));
    let g = default_subcells();
    assert_eq!(subcells_of(&g, SubcellKind::H), vec![(2, 0)]);
    assert_eq!(subcells_of(&g, SubcellKind::V), vec![(0, 2)]);
    assert_eq!(subcells_of(&g, SubcellKind::Empty).len(), 7);
    assert_eq!(first_subcell_of(&g, SubcellKind::Empty), Some((0, 0)));
    assert_eq!(SubcellKind::default(), SubcellKind::Empty);
    let none = [[SubcellKind::Empty; 3]; 3];
    assert_eq!(first_subcell_of(&none, SubcellKind::V), None);
}

#[test]
fn run_length_label_modes_exclude_each_other() {
    let mut o = RunLengthOptions::defaults();
    assert!(o.show_hover && o.hover_threshold == 2);
    o.apply(RunLengthToggle::FourDirLabels);
    assert!(o.four_dir_labels_enabled && !o.adj_label_enabled);
    o.apply(RunLengthToggle::AdjLabelEnabled);
    assert!(o.adj_label_enabled && !o.four_dir_labels_enabled);
    o.apply(RunLengthToggle::AdjLabelEnabled);
    assert!(!o.adj_label_enabled && !o.four_dir_labels_enabled);
    o.apply(RunLengthToggle::StartThreshold(5));
    assert_eq!(o.start_threshold, 5);
    assert_eq!(o.subcells[1][1], SubcellKind::Empty);
    o.apply(RunLengthToggle::SubcellToggle(1, 1));
    assert_eq!(o.subcells[1][1], SubcellKind::H);
    o.apply(RunLengthToggle::SubcellToggle(1, 1));
    assert_eq!(o.subcells[1][1], SubcellKind::V);
    o.apply(RunLengthToggle::SubcellToggle(1, 1));
    assert_eq!(o.subcells[1][1], SubcellKind::Empty);
    assert_eq!(o.subcells[2][0], SubcellKind::H);
}

#[test]
fn assistance_switches_flip_one_at_a_time() {
    let mut f = AssistFlags::off();
    f.toggle(AssistFlag::AxisLock);
    assert!(f.axis_lock && !f.auto_dim && !f.auto_fill_empty);
    f.toggle(AssistFlag::AutoCrossEdges);
    f.toggle(AssistFlag::AxisLock);
    assert!(!f.axis_lock && f.auto_cross_edges);
}
