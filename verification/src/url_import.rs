//! Import of puzzles from puzzle-nonograms.com page sources: the page
//! embeds `var task = '...'` (column groups then row groups, `/`-separated,
//! values `.`-separated) and `puzzleWidth: W`, `puzzleHeight: H`.
use vstd::prelude::*;
use crate::parse::{EntryModel, ParsedPuzzle, entry_models};
use crate::text::{
    chars_to_string, copy_range, decimal, digit_char, digit_to_char, extend_chars, extend_decimal, extend_str, find_chars, find_from,
    lemma_find_from_bounds, parse_u32, parse_u32_chars, parse_usize, parse_usize_chars, split_chars, split_on,
    str_to_chars, trim, trim_chars, views,
};
use crate::types::{Puzzle, PuzzleModel, clue_lists};
use crate::convert::owned;

verus! {

/// The text between the first `before` and the next `after` character.
pub open spec fn between(html: Seq<char>, before: Seq<char>, after: char) -> Option<Seq<char>> {
    match find_from(html, before, 0) {
        None => None,
        Some(p) => {
            let start = p + before.len();
            match find_from(html.skip(start as int), seq![after], 0) {
                None => None,
                Some(e) => Some(html.subrange(start as int, (start + e) as int)),
            }
        },
    }
}

/// Finds the text between `before` and the next `after` character.
pub fn extract_str_between(html: &[char], before: &str, after: char) -> (r: Option<Vec<char>>)
    ensures
        match r {
            Some(v) => between(html@, before@, after) == Some(v@),
            None => between(html@, before@, after) is None,
        },
{
    let b = str_to_chars(before);
    proof {
        lemma_find_from_bounds(html@, b@, 0);
    }
    let p = match find_chars(html, b.as_slice(), 0) {
        Some(p) => p,
        None => {
            return None;
        },
    };
    let n = html.len();
    let start = p + b.len();
    let rest = copy_range(html, start, n);
    assert(html@.subrange(start as int, n as int) =~= html@.skip(start as int));
    let mut a: Vec<char> = Vec::new();
    a.push(after);
    assert(a@ =~= seq![after]);
    proof {
        lemma_find_from_bounds(rest@, a@, 0);
    }
    let e = match find_chars(rest.as_slice(), a.as_slice(), 0) {
        Some(e) => e,
        None => {
            return None;
        },
    };
    Some(copy_range(html, start, start + e))
}

/// Characters skipped before a number: spaces, colons and tabs.
pub open spec fn number_sep(c: char) -> bool {
    c == ' ' || c == ':' || c == '\t'
}

/// First index at or after `i` that is not a separator (or the length).
pub open spec fn skip_seps(s: Seq<char>, i: nat) -> nat
    decreases s.len() - i,
{
    if i < s.len() && number_sep(s[i as int]) {
        skip_seps(s, i + 1)
    } else {
        i
    }
}

/// The number after the first `marker`, past spaces, colons and tabs.
pub open spec fn usize_after(html: Seq<char>, marker: Seq<char>) -> Option<usize> {
    match find_from(html, marker, 0) {
        None => None,
        Some(p) => {
            let pos = p + marker.len();
            let i = skip_seps(html, pos);
            let e = crate::scan::digits_end(html, i);
            if e == i {
                None
            } else {
                parse_usize(html.subrange(i as int, e as int))
            }
        },
    }
}

proof fn lemma_skip_seps(s: Seq<char>, i: nat)
    requires
        i <= s.len(),
    ensures
        i <= skip_seps(s, i) <= s.len(),
    decreases s.len() - i,
{
    if i < s.len() && number_sep(s[i as int]) {
        lemma_skip_seps(s, i + 1);
    }
}

proof fn lemma_digits_end_bound(s: Seq<char>, i: nat)
    requires
        i <= s.len(),
    ensures
        i <= crate::scan::digits_end(s, i) <= s.len(),
    decreases s.len() - i,
{
    if i < s.len() && crate::scan::is_digit(s[i as int]) {
        lemma_digits_end_bound(s, i + 1);
    }
}

/// Reads the number after `marker`.
pub fn extract_usize_after(html: &[char], marker: &str) -> (r: Option<usize>)
    ensures
        r == usize_after(html@, marker@),
{
    let m = str_to_chars(marker);
    proof {
        lemma_find_from_bounds(html@, m@, 0);
    }
    let p = match find_chars(html, m.as_slice(), 0) {
        Some(p) => p,
        None => {
            return None;
        },
    };
    let n = html.len();
    let pos = p + m.len();
    let mut i = pos;
    while i < n && (html[i] == ' ' || html[i] == ':' || html[i] == '\t')
        invariant
            pos <= i <= n,
            n == html@.len(),
            skip_seps(html@, pos as nat) == skip_seps(html@, i as nat),
        decreases n - i,
    {
        i += 1;
    }
    let mut e = i;
    while e < n && (0x30 <= html[e] as u32 && html[e] as u32 <= 0x39)
        invariant
            i <= e <= n,
            n == html@.len(),
            crate::scan::digits_end(html@, i as nat) == crate::scan::digits_end(html@, e as nat),
        decreases n - e,
    {
        e += 1;
    }
    if e == i {
        return None;
    }
    let digits = copy_range(html, i, e);
    parse_usize_chars(digits.as_slice())
}

/// The trimmed text between `<title>` and `</title>`, if not blank.
pub open spec fn page_title(html: Seq<char>) -> Option<Seq<char>> {
    match between_strs(html, "<title>"@, "</title>"@) {
        None => None,
        Some(t) => if trim(t).len() == 0 { None } else { Some(trim(t)) },
    }
}

/// The text between the first `before` and the next `after`.
pub open spec fn between_strs(html: Seq<char>, before: Seq<char>, after: Seq<char>) -> Option<Seq<char>> {
    match find_from(html, before, 0) {
        None => None,
        Some(p) => {
            let start = p + before.len();
            match find_from(html.skip(start as int), after, 0) {
                None => None,
                Some(e) => Some(html.subrange(start as int, (start + e) as int)),
            }
        },
    }
}

/// The page title, if present and not blank.
pub fn extract_page_title(html: &[char]) -> (r: Option<Vec<char>>)
    ensures
        match r {
            Some(v) => page_title(html@) == Some(v@),
            None => page_title(html@) is None,
        },
{
    let b = str_to_chars("<title>");
    let a = str_to_chars("</title>");
    proof {
        lemma_find_from_bounds(html@, b@, 0);
    }
    let p = match find_chars(html, b.as_slice(), 0) {
        Some(p) => p,
        None => {
            return None;
        },
    };
    let n = html.len();
    let start = p + b.len();
    let rest = copy_range(html, start, n);
    assert(html@.subrange(start as int, n as int) =~= html@.skip(start as int));
    proof {
        lemma_find_from_bounds(rest@, a@, 0);
    }
    let e = match find_chars(rest.as_slice(), a.as_slice(), 0) {
        Some(e) => e,
        None => {
            return None;
        },
    };
    let t = copy_range(html, start, start + e);
    let title = trim_chars(t.as_slice());
    if title.len() == 0 {
        None
    } else {
        Some(title)
    }
}


/// The clue values of one group: the pieces that parse as `u32`, in order;
/// the others are dropped.
pub open spec fn parsed_values(pieces: Seq<Seq<char>>) -> Seq<u32>
    decreases pieces.len(),
{
    if pieces.len() == 0 {
        Seq::empty()
    } else {
        let rest = parsed_values(pieces.drop_last());
        match parse_u32(pieces.last()) {
            Some(v) => rest.push(v),
            None => rest,
        }
    }
}

/// A group whose pieces are all numbers gives their values in the order
/// they are written: value `k` is the number written `k`-th.
pub proof fn lemma_group_values_in_order(pieces: Seq<Seq<char>>)
    requires
        forall|k: int| 0 <= k < pieces.len() ==> #[trigger] parse_u32(pieces[k]) is Some,
    ensures
        parsed_values(pieces).len() == pieces.len(),
        forall|k: int| 0 <= k < pieces.len() ==> parsed_values(pieces)[k] == parse_u32(#[trigger] pieces[k])->0,
    decreases pieces.len(),
{
    if pieces.len() > 0 {
        let front = pieces.drop_last();
        assert forall|k: int| 0 <= k < front.len() implies #[trigger] parse_u32(front[k]) is Some by {
            assert(front[k] == pieces[k]);
        }
        lemma_group_values_in_order(front);
        assert(parse_u32(pieces[pieces.len() - 1]) is Some);
        assert forall|k: int| 0 <= k < pieces.len() implies parsed_values(pieces)[k] == parse_u32(
            #[trigger] pieces[k],
        )->0 by {
            if k < front.len() {
                assert(front[k] == pieces[k]);
            }
        }
    }
}

/// The clue groups of a task string: `/`-separated groups of
/// `.`-separated values.
pub open spec fn task_groups(task: Seq<char>) -> Seq<Seq<u32>> {
    split_on(task, '/').map_values(|g: Seq<char>| parsed_values(split_on(g, '.')))
}

/// The clue group `gi` of a task string whose `.`-separated pieces are all
/// numbers holds those numbers, in the order they are written.
pub proof fn lemma_task_group_in_order(task: Seq<char>, gi: int)
    requires
        0 <= gi < split_on(task, '/').len(),
        forall|k: int|
            0 <= k < split_on(split_on(task, '/')[gi], '.').len() ==> #[trigger] parse_u32(
                split_on(split_on(task, '/')[gi], '.')[k],
            ) is Some,
    ensures
        task_groups(task)[gi].len() == split_on(split_on(task, '/')[gi], '.').len(),
        forall|k: int|
            0 <= k < task_groups(task)[gi].len() ==> #[trigger] task_groups(task)[gi][k] == parse_u32(
                split_on(split_on(task, '/')[gi], '.')[k],
            )->0,
{
    lemma_group_values_in_order(split_on(split_on(task, '/')[gi], '.'));
}

/// Reads the values of one `.`-separated group.
fn parse_task_group(g: &[char]) -> (r: Vec<u32>)
    ensures
        r@ == parsed_values(split_on(g@, '.')),
{
    let pieces = split_chars(g, '.');
    let ghost ps = views(pieces@);
    let mut out: Vec<u32> = Vec::new();
    let mut i: usize = 0;
    while i < pieces.len()
        invariant
            i <= pieces@.len(),
            ps == views(pieces@),
            ps == split_on(g@, '.'),
            out@ == parsed_values(ps.take(i as int)),
        decreases pieces@.len() - i,
    {
        assert(ps.take(i + 1).drop_last() =~= ps.take(i as int));
        assert(ps.take(i + 1).last() == pieces@[i as int]@);
        match parse_u32_chars(pieces[i].as_slice()) {
            Some(v) => out.push(v),
            None => {},
        }
        i += 1;
    }
    assert(ps.take(pieces@.len() as int) =~= ps);
    out
}

/// Reads all clue groups of a task string.
fn parse_task_groups(task: &[char]) -> (r: Vec<Vec<u32>>)
    ensures
        clue_lists(r@) == task_groups(task@),
{
    let groups = split_chars(task, '/');
    let ghost gs = views(groups@);
    let mut out: Vec<Vec<u32>> = Vec::new();
    let mut i: usize = 0;
    while i < groups.len()
        invariant
            i <= groups@.len(),
            gs == views(groups@),
            gs == split_on(task@, '/'),
            clue_lists(out@) == gs.take(i as int).map_values(|g: Seq<char>| parsed_values(split_on(g, '.'))),
        decreases groups@.len() - i,
    {
        let vals = parse_task_group(groups[i].as_slice());
        assert(gs[i as int] == groups@[i as int]@);
        let ghost before = clue_lists(out@);
        out.push(vals);
        assert(clue_lists(out@) =~= before.push(vals@));
        i += 1;
        assert(clue_lists(out@) =~= gs.take(i as int).map_values(|g: Seq<char>| parsed_values(split_on(g, '.'))));
    }
    assert(gs.take(groups@.len() as int) =~= gs);
    out
}

/// Bytes that `c` takes in UTF-8.
pub open spec fn utf8_width(c: char) -> nat {
    if (c as u32) < 0x80 {
        1
    } else if (c as u32) < 0x800 {
        2
    } else if (c as u32) < 0x10000 {
        3
    } else {
        4
    }
}

/// Bytes that `s` takes in UTF-8.
pub open spec fn utf8_len(s: Seq<char>) -> nat
    decreases s.len(),
{
    if s.len() == 0 {
        0
    } else {
        utf8_width(s[0]) + utf8_len(s.drop_first())
    }
}

/// The longest prefix of `s` that takes at most `budget` bytes in UTF-8.
pub open spec fn utf8_prefix(s: Seq<char>, budget: int) -> Seq<char>
    decreases s.len(),
{
    if s.len() == 0 || utf8_width(s[0]) > budget {
        Seq::empty()
    } else {
        seq![s[0]] + utf8_prefix(s.drop_first(), budget - utf8_width(s[0]))
    }
}

/// The text before the first `&`.
pub open spec fn before_ampersand(s: Seq<char>) -> Seq<char> {
    match find_from(s, seq!['&'], 0) {
        Some(e) => s.take(e as int),
        None => s,
    }
}

/// The raw puzzle id of a URL: the text after the first `pl=`, up to the
/// next `&`.
pub open spec fn raw_url_id(url: Seq<char>) -> Option<Seq<char>> {
    match find_from(url, "pl="@, 0) {
        Some(i) => Some(before_ampersand(url.skip((i + "pl="@.len()) as int))),
        None => None,
    }
}

/// The id shown in an imported puzzle's name: the raw id cut to its first
/// twelve bytes, or `imported` when the URL has no `pl=`.
pub open spec fn url_id(url: Seq<char>) -> Seq<char> {
    match raw_url_id(url) {
        Some(id) => utf8_prefix(id, 12),
        None => "imported"@,
    }
}

/// The raw id is short, or its first twelve bytes end on a character
/// boundary (cutting it elsewhere is an error of the byte-indexed slice).
pub open spec fn url_id_cuttable(url: Seq<char>) -> bool {
    match raw_url_id(url) {
        Some(id) => utf8_len(id) <= 12 || utf8_len(utf8_prefix(id, 12)) == 12,
        None => true,
    }
}

/// Site name used in the puzzle's name: the page title unless its lowercase
/// form mentions "nonogram", else the site's domain.
pub open spec fn site_title(title: Option<Seq<char>>, lowered: Option<Seq<char>>) -> Seq<char> {
    match (title, lowered) {
        (Some(t), Some(l)) => if find_from(l, "nonogram"@, 0) is Some {
            "puzzle-nonograms.com"@
        } else {
            t
        },
        _ => "puzzle-nonograms.com"@,
    }
}

/// `"{site} {w}×{h} #{id}"`.
pub open spec fn imported_name(site: Seq<char>, w: nat, h: nat, id: Seq<char>) -> Seq<char> {
    site + " "@ + decimal(w) + "×"@ + decimal(h) + " #"@ + id
}

/// The message for a group count that does not match the dimensions.
pub open spec fn group_count_message(w: nat, h: nat, got: nat) -> Seq<char> {
    "Expected "@ + decimal(w + h) + " groups ("@ + decimal(w) + "×"@ + decimal(h) + ") but got "@ + decimal(got)
}

/// What the page gives before the title and URL are used: the width, the
/// height and the clue groups, or the error message.
pub open spec fn page_task(html: Seq<char>) -> Result<(usize, usize, Seq<Seq<u32>>), Seq<char>> {
    match between(html, "var task = '"@, '\'') {
        None => Err("Could not find `var task = '...'` in page source"@),
        Some(task) => match usize_after(html, "puzzleWidth:"@) {
            None => Err("Could not find puzzleWidth in page source"@),
            Some(w) => match usize_after(html, "puzzleHeight:"@) {
                None => Err("Could not find puzzleHeight in page source"@),
                Some(h) => {
                    let groups = task_groups(task);
                    if groups.len() != w + h {
                        Err(group_count_message(w as nat, h as nat, groups.len()))
                    } else {
                        Ok((w, h, groups))
                    }
                },
            },
        },
    }
}

/// The import of a page: the name and its single valid puzzle (columns
/// first in the task, then rows), or the error message. `lowered` is the
/// lowercase form of the page title.
pub open spec fn page_import(html: Seq<char>, url: Seq<char>, lowered: Option<Seq<char>>) -> Result<
    (Seq<char>, Seq<EntryModel>),
    Seq<char>,
> {
    match page_task(html) {
        Err(e) => Err(e),
        Ok((w, h, groups)) => {
            let name = imported_name(site_title(page_title(html), lowered), w as nat, h as nat, url_id(url));
            Ok(
                (
                    name,
                    seq![
                        EntryModel::Valid(
                            PuzzleModel {
                                name,
                                answer: None,
                                width: w as nat,
                                height: h as nat,
                                row_clues: groups.skip(w as int),
                                col_clues: groups.take(w as int),
                                solution: None,
                            },
                        ),
                    ],
                ),
            )
        },
    }
}

/// The import result as mathematical values.
pub open spec fn import_result_model(r: Result<(String, Vec<ParsedPuzzle>), String>) -> Result<
    (Seq<char>, Seq<EntryModel>),
    Seq<char>,
> {
    match r {
        Ok((n, v)) => Ok((n@, entry_models(v@))),
        Err(e) => Err(e@),
    }
}

/// Appends the decimal rendering of `a + b`.
fn extend_decimal_sum(v: &mut Vec<char>, a: u64, b: u64)
    ensures
        final(v)@ == old(v)@ + decimal((a + b) as nat),
{
    let s: u128 = a as u128 + b as u128;
    if s <= 0xffff_ffff_ffff_ffff {
        extend_decimal(v, s as u64);
    } else {
        let q: u128 = s / 10;
        let r: u128 = s % 10;
        extend_decimal(v, q as u64);
        v.push(digit_to_char(r as u64));
        assert(decimal(s as nat) == decimal(q as nat).push(digit_char(r as nat)));
    }
}

/// Bytes that `c` takes in UTF-8.
fn utf8_width_of(c: char) -> (w: usize)
    ensures
        w == utf8_width(c),
{
    let u = c as u32;
    if u < 0x80 {
        1
    } else if u < 0x800 {
        2
    } else if u < 0x10000 {
        3
    } else {
        4
    }
}

/// The longest prefix of `s` within twelve UTF-8 bytes.
fn id_prefix(s: &[char]) -> (r: Vec<char>)
    ensures
        r@ == utf8_prefix(s@, 12),
{
    let n = s.len();
    let mut i: usize = 0;
    let mut bytes: usize = 0;
    assert(s@.skip(0) =~= s@);
    while i < n && bytes + utf8_width_of(s[i]) <= 12
        invariant
            i <= n,
            n == s@.len(),
            bytes <= 12,
            utf8_prefix(s@, 12) == s@.take(i as int) + utf8_prefix(s@.skip(i as int), 12 - bytes),
        decreases n - i,
    {
        let ghost rest = s@.skip(i as int);
        assert(rest[0] == s@[i as int]);
        assert(rest.drop_first() =~= s@.skip(i + 1));
        assert(s@.take(i + 1) =~= s@.take(i as int) + seq![s@[i as int]]);
        bytes = bytes + utf8_width_of(s[i]);
        i += 1;
    }
    proof {
        let rest = s@.skip(i as int);
        if i < n {
            assert(rest[0] == s@[i as int]);
        }
        assert(utf8_prefix(rest, 12 - bytes) =~= Seq::<char>::empty());
        assert(s@.take(i as int) + Seq::<char>::empty() =~= s@.take(i as int));
    }
    copy_range(s, 0, i)
}

/// The id shown in an imported puzzle's name.
fn extract_url_id(url: &[char]) -> (r: Vec<char>)
    requires
        url_id_cuttable(url@),
    ensures
        r@ == url_id(url@),
{
    let m = str_to_chars("pl=");
    proof {
        lemma_find_from_bounds(url@, m@, 0);
    }
    match find_chars(url, m.as_slice(), 0) {
        None => str_to_chars("imported"),
        Some(i) => {
            let n = url.len();
            let rest = copy_range(url, i + m.len(), n);
            assert(rest@ =~= url@.skip((i + m@.len()) as int));
            let mut a: Vec<char> = Vec::new();
            a.push('&');
            assert(a@ =~= seq!['&']);
            proof {
                lemma_find_from_bounds(rest@, a@, 0);
            }
            let piece = match find_chars(rest.as_slice(), a.as_slice(), 0) {
                Some(e) => copy_range(rest.as_slice(), 0, e),
                None => rest,
            };
            assert(piece@ == before_ampersand(url@.skip((i + m@.len()) as int)));
            id_prefix(piece.as_slice())
        },
    }
}

/// Builds the import of a page from its source, its URL and the lowercase
/// form of its title (`None` when the page has no title).
pub fn import_nonograms_page(html: &str, url: &str, lowered_title: Option<&str>) -> (r: Result<
    (String, Vec<ParsedPuzzle>),
    String,
>)
    requires
        page_task(html@) is Ok ==> url_id_cuttable(url@),
    ensures
        import_result_model(r) == page_import(html@, url@, match lowered_title {
            Some(l) => Some(l@),
            None => None,
        }),
{
    let hc = str_to_chars(html);
    let task = match extract_str_between(hc.as_slice(), "var task = '", '\'') {
        Some(t) => t,
        None => {
            return Err(owned("Could not find `var task = '...'` in page source"));
        },
    };
    let width = match extract_usize_after(hc.as_slice(), "puzzleWidth:") {
        Some(w) => w,
        None => {
            return Err(owned("Could not find puzzleWidth in page source"));
        },
    };
    let height = match extract_usize_after(hc.as_slice(), "puzzleHeight:") {
        Some(h) => h,
        None => {
            return Err(owned("Could not find puzzleHeight in page source"));
        },
    };
    let mut groups = parse_task_groups(task.as_slice());
    let total: u128 = width as u128 + height as u128;
    if groups.len() as u128 != total {
        let mut m: Vec<char> = Vec::new();
        extend_str(&mut m, "Expected ");
        extend_decimal_sum(&mut m, width as u64, height as u64);
        extend_str(&mut m, " groups (");
        extend_decimal(&mut m, width as u64);
        extend_str(&mut m, "×");
        extend_decimal(&mut m, height as u64);
        extend_str(&mut m, ") but got ");
        extend_decimal(&mut m, groups.len() as u64);
        return Err(chars_to_string(m.as_slice()));
    }
    let ghost all = clue_lists(groups@);
    let row_clues = groups.split_off(width);
    let col_clues = groups;
    assert(clue_lists(col_clues@) =~= all.take(width as int));
    assert(clue_lists(row_clues@) =~= all.skip(width as int));
    let title = extract_page_title(hc.as_slice());
    let mut site: Vec<char> = Vec::new();
    let keep = match (title, lowered_title) {
        (Some(t), Some(l)) => {
            let lc = str_to_chars(l);
            let nc = str_to_chars("nonogram");
            if find_chars(lc.as_slice(), nc.as_slice(), 0).is_some() {
                false
            } else {
                site = t;
                true
            }
        },
        _ => false,
    };
    if !keep {
        site = str_to_chars("puzzle-nonograms.com");
    }
    let uc = str_to_chars(url);
    let id = extract_url_id(uc.as_slice());
    let mut nm: Vec<char> = Vec::new();
    extend_chars(&mut nm, site.as_slice());
    extend_str(&mut nm, " ");
    extend_decimal(&mut nm, width as u64);
    extend_str(&mut nm, "×");
    extend_decimal(&mut nm, height as u64);
    extend_str(&mut nm, " #");
    extend_chars(&mut nm, id.as_slice());
    let name = chars_to_string(nm.as_slice());
    let puzzle = Puzzle {
        name: chars_to_string(nm.as_slice()),
        answer: None,
        width,
        height,
        row_clues,
        col_clues,
        solution: None,
    };
    let mut entries: Vec<ParsedPuzzle> = Vec::new();
    entries.push(ParsedPuzzle::Valid(puzzle));
    proof {
        assert(entry_models(entries@) =~= seq![entries@[0]@]);
    }
    Ok((name, entries))
}

/// The lowercase form of a text, as `str::to_lowercase` computes it.
pub uninterp spec fn lowercase_text(s: Seq<char>) -> Seq<char>;

/// `str::to_lowercase`: the text with every character replaced by its
/// Unicode lowercase mapping. The result is named, not described.
#[verifier::external_body]
fn to_lowercase(s: &str) -> (r: String)
    ensures
        r@ == lowercase_text(s@),
{
    s.to_lowercase()
}

/// Imports the puzzle of a puzzle-nonograms.com page from its source and
/// its URL.
pub fn parse_puzzle_nonograms_html(html: &str, url: &str) -> (r: Result<(String, Vec<ParsedPuzzle>), String>)
    requires
        page_task(html@) is Ok ==> url_id_cuttable(url@),
    ensures
        import_result_model(r) == page_import(html@, url@, match page_title(html@) {
            Some(t) => Some(lowercase_text(t)),
            None => None,
        }),
{
    let hc = str_to_chars(html);
    match extract_page_title(hc.as_slice()) {
        Some(t) => {
            let ts = chars_to_string(t.as_slice());
            let lowered = to_lowercase(ts.as_str());
            import_nonograms_page(html, url, Some(lowered.as_str()))
        },
        None => import_nonograms_page(html, url, None),
    }
}

} // verus!
