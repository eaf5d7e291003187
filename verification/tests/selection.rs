use nonogram::file_list::{
    add_found_file, add_opened_file, all_picked, file_header, folder_header, group_files, scan_status,
};
use nonogram::parse::{ParseError, ParsedPuzzle};
use nonogram::selection::Selection;
use nonogram::session::LoadedFile;
use nonogram::types::Puzzle;

fn valid(name: &str) -> ParsedPuzzle {
    ParsedPuzzle::Valid(Puzzle {
        name: name.into(),
        answer: None,
        width: 1,
        height: 1,
        row_clues: vec![vec![1]],
        col_clues: vec![vec![1]],
        solution: None,
    })
}

fn invalid() -> ParsedPuzzle {
    ParsedPuzzle::Invalid { name: "bad".into(), reason: ParseError::EmptyName, puzzle: None }
}

fn file(name: &str, folder: Option<&str>, puzzles: Vec<ParsedPuzzle>) -> LoadedFile {
    LoadedFile {
        path: format!("puzzles/{name}"),
        name: name.into(),
        folder: folder.map(|f| f.to_string()),
        auto_loaded: true,
        puzzles,
        collapsed: false,
    }
}

fn files() -> Vec<LoadedFile> {
    vec![
        file("a.txt", Some("easy"), vec![valid("a0"), invalid(), valid("a2")]),
        file("b.txt", Some("hard"), vec![valid("b0"), valid("b1")]),
        file("c.txt", Some("easy"), vec![valid("c0")]),
    ]
}

fn picked(s: &Selection) -> Vec<(usize, usize)> {
    let mut v = s.keys.clone();
    v.sort();
    v
}

#[test]
fn plain_and_ctrl_clicks() {
    let f = files();
    let mut s = Selection::new();
    s.click(&f, (0, 2), false, false);
    assert_eq!(picked(&s), vec![(0, 2)]);
    assert_eq!(s.anchor, Some((0, 2)));
    s.click(&f, (1, 0), false, true);
    assert_eq!(picked(&s), vec![(0, 2), (1, 0)]);
    assert_eq!(s.anchor, Some((1, 0)));
    // Ctrl-click on a picked puzzle unpicks it and keeps the anchor.
    s.click(&f, (0, 2), false, true);
    assert_eq!(picked(&s), vec![(1, 0)]);
    assert_eq!(s.anchor, Some((1, 0)));
    // Invalid entries are not picked.
    s.click(&f, (0, 1), false, false);
    assert_eq!(picked(&s), vec![(1, 0)]);
    s.click(&f, (7, 0), false, false);
    assert_eq!(picked(&s), vec![(1, 0)]);
}

#[test]
fn shift_click_picks_a_run() {
    let f = files();
    let mut s = Selection::new();
    s.click(&f, (1, 1), false, false);
    s.click(&f, (0, 0), true, false);
    assert_eq!(picked(&s), vec![(0, 0), (0, 2), (1, 0), (1, 1)]);
    // The anchor stays where it was.
    assert_eq!(s.anchor, Some((1, 1)));
    // With Ctrl the run is added to the pick.
    s.click(&f, (2, 0), false, false);
    s.click(&f, (0, 0), false, true);
    s.click(&f, (1, 1), true, true);
    assert_eq!(picked(&s), vec![(0, 0), (0, 2), (1, 0), (1, 1), (2, 0)]);
    // Without an anchor the run is the clicked puzzle.
    let mut t = Selection::new();
    t.click(&f, (1, 0), true, false);
    assert_eq!(picked(&t), vec![(1, 0)]);
    assert_eq!(t.anchor, None);
}

#[test]
fn file_folder_and_whole_list_toggles() {
    let f = files();
    let mut s = Selection::new();
    s.set_file(&f, 0, true);
    assert_eq!(picked(&s), vec![(0, 0), (0, 2)]);
    s.set_folder(&f, "easy", true);
    assert_eq!(picked(&s), vec![(0, 0), (0, 2), (2, 0)]);
    s.set_folder(&f, "easy", false);
    assert!(picked(&s).is_empty());
    s.select_all(&f);
    assert_eq!(picked(&s), vec![(0, 0), (0, 2), (1, 0), (1, 1), (2, 0)]);
    s.set_file(&f, 9, false);
    assert_eq!(picked(&s).len(), 5);
    s.toggle((1, 1), false);
    assert!(!s.contains((1, 1)));
    s.toggle((0, 1), true);
    assert!(s.contains((0, 1)));
    s.clear();
    assert!(picked(&s).is_empty());
}

#[test]
fn files_group_by_folder_in_name_order() {
    let mut f = files();
    f.push(file("d.txt", None, vec![valid("d0")]));
    f.push(file("e.txt", Some("Easy"), vec![]));
    let (top, groups) = group_files(&f);
    assert_eq!(top, vec![3]);
    let named: Vec<(String, Vec<usize>)> =
        groups.into_iter().map(|(n, v)| (n.into_iter().collect::<String>(), v)).collect();
    assert_eq!(
        named,
        vec![("Easy".to_string(), vec![4]), ("easy".to_string(), vec![0, 2]), ("hard".to_string(), vec![1])]
    );
}

#[test]
fn picked_counts_beside_files_and_folders() {
    let f = files();
    let mut s = Selection::new();
    s.click(&f, (0, 0), false, false);
    assert_eq!(file_header(&s, &f[0], 0), ("1/2 (+1 invalid)".to_string(), false));
    s.click(&f, (0, 2), false, true);
    assert_eq!(file_header(&s, &f[0], 0), ("2/2 (+1 invalid)".to_string(), true));
    assert_eq!(file_header(&s, &f[1], 1), ("0/2".to_string(), false));
    assert_eq!(folder_header(&s, &f, &vec![0, 2]), ("2/3".to_string(), false));
    assert!(!all_picked(&s, &f));
    s.select_all(&f);
    assert!(all_picked(&s, &f));
    assert_eq!(folder_header(&s, &f, &vec![0, 2]), ("3/3".to_string(), true));
    assert!(!all_picked(&s, &vec![]));
}

#[test]
fn opened_and_scanned_files_are_taken_in() {
    let mut f: Vec<LoadedFile> = Vec::new();
    let status = add_opened_file(&mut f, "x/a.txt".into(), "a.txt".into(), vec![valid("a0"), invalid()]);
    assert_eq!(status, "Loaded 1 puzzle(s) from a.txt (1 invalid)");
    assert_eq!(f.len(), 1);
    assert!(!f[0].auto_loaded && f[0].collapsed && f[0].folder.is_none());
    // The same path again reports but adds nothing.
    let status = add_opened_file(&mut f, "x/a.txt".into(), "a.txt".into(), vec![valid("a0")]);
    assert_eq!(status, "Loaded 1 puzzle(s) from a.txt");
    assert_eq!(f.len(), 1);
    assert_eq!(f[0].puzzles.len(), 2);

    add_found_file(&mut f, "x/b.txt".into(), "b.txt".into(), Some("easy".into()), vec![valid("b0")]);
    assert_eq!(f.len(), 2);
    assert!(f[1].auto_loaded);
    // A rescan of a known path replaces its puzzles and folder only.
    add_found_file(&mut f, "x/a.txt".into(), "other".into(), Some("hard".into()), vec![valid("n0"), valid("n1")]);
    assert_eq!(f.len(), 2);
    assert_eq!(f[0].name, "a.txt");
    assert_eq!(f[0].folder.as_deref(), Some("hard"));
    assert_eq!(f[0].puzzles.len(), 2);
    assert!(!f[0].auto_loaded);
}

#[test]
fn scan_progress_and_summary() {
    let mut f: Vec<LoadedFile> = Vec::new();
    assert_eq!(scan_status(&f, 2, 5, false), "Loading 3 / 5 files\u{2026}");
    assert_eq!(scan_status(&f, 0, 5, true), "No default puzzles found in puzzles/");
    assert_eq!(scan_status(&f, 0, 5, false), "Loaded 0 puzzle(s) from puzzles/");
    add_found_file(&mut f, "p/a.txt".into(), "a.txt".into(), None, vec![valid("a0"), invalid(), valid("a2")]);
    add_opened_file(&mut f, "q/b.txt".into(), "b.txt".into(), vec![valid("b0")]);
    assert_eq!(scan_status(&f, 0, 1, true), "Loaded 2 puzzle(s) from puzzles/ (1 invalid)");
}
