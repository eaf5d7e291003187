//! Parser for the native puzzle format, one puzzle per line:
//! `name;C:col_clues/R:row_clues[;answer[;solution]]`.
//!
//! Clue groups within a section are `|`-separated and values within a
//! group are whitespace-separated; `C:` and `R:` may come in either order.
//! The optional solution is a flat string of `1` (filled) and `0` (empty).
use vstd::prelude::*;
use crate::text::{
    chars_to_string, decimal, extend_chars, extend_decimal, extend_str, parse_u32, parse_u32_chars,
    split_chars, split_lines_chars, split_on, split_words, splitn_chars, splitn_on, str_to_chars,
    trim, trim_chars, views, words, lines,
};
use crate::types::{CellState, Puzzle, PuzzleModel, clue_lists};

verus! {

/// A parse error, as mathematical values.
pub ghost enum ErrModel {
    MissingClues,
    EmptyName,
    InvalidClue(Seq<char>),
    InvalidClueSection(Seq<char>),
    SolutionLength(nat, nat),
    ClueTotalMismatch(u32, u32),
}

/// Errors that can occur while parsing a single puzzle line.
#[derive(Debug, Clone)]
pub enum ParseError {
    /// The line has no clue section, or it lacks the `/` between sections.
    MissingClues,
    /// The puzzle name is empty.
    EmptyName,
    /// A clue value (or solution character) is not a valid number.
    InvalidClue(String),
    /// A clue section does not start with `C:` or `R:`.
    InvalidClueSection(String),
    /// The solution does not have one character per cell.
    SolutionLength { got: usize, expected: usize },
    /// The row clues and the column clues add up to different totals.
    ClueTotalMismatch { row_total: u32, col_total: u32 },
}

impl View for ParseError {
    type V = ErrModel;

    open spec fn view(&self) -> ErrModel {
        match self {
            ParseError::MissingClues => ErrModel::MissingClues,
            ParseError::EmptyName => ErrModel::EmptyName,
            ParseError::InvalidClue(s) => ErrModel::InvalidClue(s@),
            ParseError::InvalidClueSection(s) => ErrModel::InvalidClueSection(s@),
            ParseError::SolutionLength { got, expected } => ErrModel::SolutionLength(
                *got as nat,
                *expected as nat,
            ),
            ParseError::ClueTotalMismatch { row_total, col_total } => ErrModel::ClueTotalMismatch(
                *row_total,
                *col_total,
            ),
        }
    }
}

/// The text of an error.
pub open spec fn error_text(e: ErrModel) -> Seq<char> {
    match e {
        ErrModel::MissingClues => "missing clue section"@,
        ErrModel::EmptyName => "empty puzzle name"@,
        ErrModel::InvalidClue(s) => "invalid clue number: "@ + s,
        ErrModel::InvalidClueSection(s) => "clue section missing C: or R: prefix: \""@ + s + "\""@,
        ErrModel::SolutionLength(got, expected) => "solution length "@ + decimal(got) + " does not match grid "@
            + decimal(expected),
        ErrModel::ClueTotalMismatch(r, c) => "row clues sum to "@ + decimal(r as nat)
            + " but column clues sum to "@ + decimal(c as nat),
    }
}

impl ParseError {
    /// The human-readable text of the error.
    pub fn message(&self) -> (s: String)
        ensures
            s@ == error_text(self@),
    {
        let mut v: Vec<char> = Vec::new();
        match self {
            ParseError::MissingClues => extend_str(&mut v, "missing clue section"),
            ParseError::EmptyName => extend_str(&mut v, "empty puzzle name"),
            ParseError::InvalidClue(s) => {
                extend_str(&mut v, "invalid clue number: ");
                extend_str(&mut v, s.as_str());
            },
            ParseError::InvalidClueSection(s) => {
                extend_str(&mut v, "clue section missing C: or R: prefix: \"");
                extend_str(&mut v, s.as_str());
                extend_str(&mut v, "\"");
            },
            ParseError::SolutionLength { got, expected } => {
                extend_str(&mut v, "solution length ");
                extend_decimal(&mut v, *got as u64);
                extend_str(&mut v, " does not match grid ");
                extend_decimal(&mut v, *expected as u64);
            },
            ParseError::ClueTotalMismatch { row_total, col_total } => {
                extend_str(&mut v, "row clues sum to ");
                extend_decimal(&mut v, *row_total as u64);
                extend_str(&mut v, " but column clues sum to ");
                extend_decimal(&mut v, *col_total as u64);
            },
        }
        chars_to_string(&v)
    }
}

/// `o` followed by the values of `r`, or the error of `r`.
pub open spec fn prepend<T>(o: Seq<T>, r: Result<Seq<T>, ErrModel>) -> Result<Seq<T>, ErrModel> {
    match r {
        Ok(x) => Ok(o + x),
        Err(e) => Err(e),
    }
}

/// The numbers of one clue group, or the first word that is not one.
pub open spec fn group_values(ws: Seq<Seq<char>>) -> Result<Seq<u32>, ErrModel>
    decreases ws.len(),
{
    if ws.len() == 0 {
        Ok(Seq::empty())
    } else {
        match parse_u32(ws[0]) {
            None => Err(ErrModel::InvalidClue(ws[0])),
            Some(v) => prepend(seq![v], group_values(ws.drop_first())),
        }
    }
}

/// The clue lists of the groups `gs`, or the first invalid word.
pub open spec fn groups_values(gs: Seq<Seq<char>>) -> Result<Seq<Seq<u32>>, ErrModel>
    decreases gs.len(),
{
    if gs.len() == 0 {
        Ok(Seq::empty())
    } else {
        match group_values(words(gs[0])) {
            Err(e) => Err(e),
            Ok(v) => prepend(seq![v], groups_values(gs.drop_first())),
        }
    }
}

/// A `|`-separated clue section: `"3 1|1 1 1|5"` gives `[[3, 1], [1, 1, 1], [5]]`.
pub open spec fn pipe_group(s: Seq<char>) -> Result<Seq<Seq<u32>>, ErrModel> {
    groups_values(split_on(s, '|'))
}

/// The first `n` characters of `s`, or all of them if it is shorter.
pub open spec fn first_chars(s: Seq<char>, n: nat) -> Seq<char> {
    if s.len() <= n { s } else { s.take(n as int) }
}

/// A trimmed clue section split into its `C` or `R` tag and the rest.
pub open spec fn section_prefix(s: Seq<char>) -> Result<(char, Seq<char>), ErrModel> {
    let t = trim(s);
    if t.len() >= 2 && t[0] == 'C' && t[1] == ':' {
        Ok(('C', t.skip(2)))
    } else if t.len() >= 2 && t[0] == 'R' && t[1] == ':' {
        Ok(('R', t.skip(2)))
    } else {
        Err(ErrModel::InvalidClueSection(first_chars(t, 20)))
    }
}

/// A clue list without its zero entries (a lone `0` marks an empty line).
pub open spec fn drop_zeros(q: Seq<u32>) -> Seq<u32>
    decreases q.len(),
{
    if q.len() == 0 {
        Seq::empty()
    } else if q.last() == 0 {
        drop_zeros(q.drop_last())
    } else {
        drop_zeros(q.drop_last()).push(q.last())
    }
}

/// Every clue list without its zero entries.
pub open spec fn normalized(v: Seq<Seq<u32>>) -> Seq<Seq<u32>> {
    v.map_values(|q: Seq<u32>| drop_zeros(q))
}

/// The cells of a solution string, or the first character that is
/// neither `1` nor `0`.
pub open spec fn solution_cells(s: Seq<char>) -> Result<Seq<CellState>, ErrModel>
    decreases s.len(),
{
    if s.len() == 0 {
        Ok(Seq::empty())
    } else if s[0] == '1' {
        prepend(seq![CellState::Filled], solution_cells(s.drop_first()))
    } else if s[0] == '0' {
        prepend(seq![CellState::Empty], solution_cells(s.drop_first()))
    } else {
        Err(ErrModel::InvalidClue(seq![s[0]]))
    }
}

/// `w * h` as a wrapping `usize` product.
pub open spec fn cell_count(w: nat, h: nat) -> nat {
    (w * h) % (usize::MAX as nat + 1)
}

/// Both clue sections parsed, columns first.
pub open spec fn both_sections(c: Seq<char>, r: Seq<char>) -> Result<(Seq<Seq<u32>>, Seq<Seq<u32>>), ErrModel> {
    match pipe_group(c) {
        Err(e) => Err(e),
        Ok(cv) => match pipe_group(r) {
            Err(e) => Err(e),
            Ok(rv) => Ok((cv, rv)),
        },
    }
}

/// The optional answer field: present and not blank.
pub open spec fn answer_field(parts: Seq<Seq<char>>) -> Option<Seq<char>> {
    if parts.len() >= 3 && trim(parts[2]).len() > 0 {
        Some(trim(parts[2]))
    } else {
        None
    }
}

/// The puzzle of a line once its clues are known.
pub open spec fn finish_line(name: Seq<char>, parts: Seq<Seq<char>>, cols: Seq<Seq<u32>>, rows: Seq<Seq<u32>>) -> Result<
    PuzzleModel,
    ErrModel,
> {
    let model = PuzzleModel {
        name,
        answer: answer_field(parts),
        width: cols.len(),
        height: rows.len(),
        row_clues: rows,
        col_clues: cols,
        solution: None,
    };
    if parts.len() == 4 {
        match solution_cells(trim(parts[3])) {
            Err(e) => Err(e),
            Ok(sol) => if sol.len() != cell_count(cols.len(), rows.len()) {
                Err(ErrModel::SolutionLength(sol.len(), cell_count(cols.len(), rows.len())))
            } else {
                Ok(PuzzleModel { solution: Some(sol), ..model })
            },
        }
    } else {
        Ok(model)
    }
}

/// The puzzle described by one line, or why it is malformed.
pub open spec fn line_model(line: Seq<char>) -> Result<PuzzleModel, ErrModel> {
    let parts = splitn_on(line, 4, ';');
    if parts.len() < 2 {
        Err(ErrModel::MissingClues)
    } else if trim(parts[0]).len() == 0 {
        Err(ErrModel::EmptyName)
    } else {
        let sections = splitn_on(trim(parts[1]), 2, '/');
        if sections.len() != 2 {
            Err(ErrModel::MissingClues)
        } else {
            match section_prefix(sections[0]) {
                Err(e) => Err(e),
                Ok(a) => match section_prefix(sections[1]) {
                    Err(e) => Err(e),
                    Ok(b) => {
                        let clues = if a.0 == 'C' && b.0 == 'R' {
                            both_sections(a.1, b.1)
                        } else if a.0 == 'R' && b.0 == 'C' {
                            both_sections(b.1, a.1)
                        } else {
                            Err(ErrModel::InvalidClueSection(first_chars(parts[1], 20)))
                        };
                        match clues {
                            Err(e) => Err(e),
                            Ok(cr) => finish_line(trim(parts[0]), parts, normalized(cr.0), normalized(cr.1)),
                        }
                    },
                },
            }
        }
    }
}

/// The mathematical value of a parse result.
pub open spec fn result_model(r: Result<Puzzle, ParseError>) -> Result<PuzzleModel, ErrModel> {
    match r {
        Ok(p) => Ok(p@),
        Err(e) => Err(e@),
    }
}

/// Parses the numbers of one whitespace-separated clue group.
fn parse_group(s: &[char]) -> (r: Result<Vec<u32>, ParseError>)
    ensures
        match r {
            Ok(v) => group_values(words(s@)) == Ok::<Seq<u32>, ErrModel>(v@),
            Err(e) => group_values(words(s@)) == Err::<Seq<u32>, ErrModel>(e@),
        },
{
    let ws = split_words(s);
    let ghost wv = views(ws@);
    let mut out: Vec<u32> = Vec::new();
    let mut i: usize = 0;
    assert(wv.skip(0) =~= wv);
    assert(out@ + Seq::<u32>::empty() =~= out@);
    while i < ws.len()
        invariant
            i <= ws@.len(),
            wv == views(ws@),
            wv == words(s@),
            group_values(wv) == prepend(out@, group_values(wv.skip(i as int))),
        decreases ws@.len() - i,
    {
        let ghost rest = wv.skip(i as int);
        assert(rest[0] == ws@[i as int]@);
        assert(rest.drop_first() =~= wv.skip(i + 1));
        match parse_u32_chars(ws[i].as_slice()) {
            None => {
                return Err(ParseError::InvalidClue(chars_to_string(ws[i].as_slice())));
            },
            Some(v) => {
                let ghost before = out@;
                out.push(v);
                proof {
                    let tail = group_values(wv.skip(i + 1));
                    match tail {
                        Ok(x) => {
                            assert(before + (seq![v] + x) =~= out@ + x);
                        },
                        Err(e) => {},
                    }
                }
            },
        }
        i += 1;
    }
    assert(wv.skip(i as int) =~= Seq::<Seq<char>>::empty());
    assert(out@ + Seq::<u32>::empty() =~= out@);
    Ok(out)
}

/// The clue lists of a `|`-separated clue section.
fn parse_pipe_group(s: &[char]) -> (r: Result<Vec<Vec<u32>>, ParseError>)
    ensures
        match r {
            Ok(v) => pipe_group(s@) == Ok::<Seq<Seq<u32>>, ErrModel>(clue_lists(v@)),
            Err(e) => pipe_group(s@) == Err::<Seq<Seq<u32>>, ErrModel>(e@),
        },
{
    let gs = split_chars(s, '|');
    let ghost gv = views(gs@);
    let mut out: Vec<Vec<u32>> = Vec::new();
    let mut i: usize = 0;
    assert(gv.skip(0) =~= gv);
    assert(clue_lists(out@) + Seq::<Seq<u32>>::empty() =~= clue_lists(out@));
    while i < gs.len()
        invariant
            i <= gs@.len(),
            gv == views(gs@),
            gv == split_on(s@, '|'),
            groups_values(gv) == prepend(clue_lists(out@), groups_values(gv.skip(i as int))),
        decreases gs@.len() - i,
    {
        let ghost rest = gv.skip(i as int);
        assert(rest[0] == gs@[i as int]@);
        assert(rest.drop_first() =~= gv.skip(i + 1));
        match parse_group(gs[i].as_slice()) {
            Err(e) => {
                return Err(e);
            },
            Ok(v) => {
                let ghost before = clue_lists(out@);
                let ghost vv = v@;
                out.push(v);
                proof {
                    assert(clue_lists(out@) =~= before.push(vv));
                    let tail = groups_values(gv.skip(i + 1));
                    match tail {
                        Ok(x) => {
                            assert(before + (seq![vv] + x) =~= clue_lists(out@) + x);
                        },
                        Err(e) => {},
                    }
                }
            },
        }
        i += 1;
    }
    assert(gv.skip(i as int) =~= Seq::<Seq<char>>::empty());
    assert(clue_lists(out@) + Seq::<Seq<u32>>::empty() =~= clue_lists(out@));
    Ok(out)
}

/// The first `n` characters of `s` (all of them if it is shorter).
fn take_chars(s: &[char], n: usize) -> (r: Vec<char>)
    ensures
        r@ == first_chars(s@, n as nat),
{
    let end = if s.len() <= n { s.len() } else { n };
    let r = crate::text::copy_range(s, 0, end);
    assert(s@.subrange(0, s@.len() as int) =~= s@);
    r
}

/// Splits a clue section into its `C`/`R` tag and the clues after it.
fn split_section_prefix(s: &[char]) -> (r: Result<(char, Vec<char>), ParseError>)
    ensures
        match r {
            Ok(p) => section_prefix(s@) == Ok::<(char, Seq<char>), ErrModel>((p.0, p.1@)),
            Err(e) => section_prefix(s@) == Err::<(char, Seq<char>), ErrModel>(e@),
        },
{
    let t = trim_chars(s);
    let n = t.len();
    if n >= 2 && t[0] == 'C' && t[1] == ':' {
        Ok(('C', crate::text::copy_range(t.as_slice(), 2, n)))
    } else if n >= 2 && t[0] == 'R' && t[1] == ':' {
        Ok(('R', crate::text::copy_range(t.as_slice(), 2, n)))
    } else {
        Err(ParseError::InvalidClueSection(chars_to_string(take_chars(t.as_slice(), 20).as_slice())))
    }
}

/// One clue list without its zeros.
fn drop_zero_clues(q: &Vec<u32>) -> (r: Vec<u32>)
    ensures
        r@ == drop_zeros(q@),
{
    let mut r: Vec<u32> = Vec::new();
    let mut i: usize = 0;
    while i < q.len()
        invariant
            i <= q@.len(),
            r@ == drop_zeros(q@.take(i as int)),
        decreases q@.len() - i,
    {
        assert(q@.take(i + 1).drop_last() =~= q@.take(i as int));
        if q[i] != 0 {
            r.push(q[i]);
        }
        i += 1;
    }
    assert(q@.take(q@.len() as int) =~= q@);
    r
}

/// Strips zero sentinels: `[0]` becomes `[]`, an entirely empty line.
pub fn normalize_clues(clues: Vec<Vec<u32>>) -> (r: Vec<Vec<u32>>)
    ensures
        clue_lists(r@) == normalized(clue_lists(clues@)),
{
    let mut r: Vec<Vec<u32>> = Vec::new();
    let mut i: usize = 0;
    while i < clues.len()
        invariant
            i <= clues@.len(),
            r@.len() == i,
            forall|k: int| 0 <= k < i ==> (#[trigger] r@[k])@ == drop_zeros(clues@[k]@),
        decreases clues@.len() - i,
    {
        r.push(drop_zero_clues(&clues[i]));
        i += 1;
    }
    assert(clue_lists(r@) =~= normalized(clue_lists(clues@)));
    r
}

/// The cells of a solution string.
fn parse_solution(s: &[char]) -> (r: Result<Vec<CellState>, ParseError>)
    ensures
        match r {
            Ok(v) => solution_cells(s@) == Ok::<Seq<CellState>, ErrModel>(v@),
            Err(e) => solution_cells(s@) == Err::<Seq<CellState>, ErrModel>(e@),
        },
{
    let mut out: Vec<CellState> = Vec::new();
    let mut i: usize = 0;
    assert(s@.skip(0) =~= s@);
    assert(out@ + Seq::<CellState>::empty() =~= out@);
    while i < s.len()
        invariant
            i <= s@.len(),
            solution_cells(s@) == prepend(out@, solution_cells(s@.skip(i as int))),
        decreases s@.len() - i,
    {
        let ghost rest = s@.skip(i as int);
        assert(rest[0] == s@[i as int]);
        assert(rest.drop_first() =~= s@.skip(i + 1));
        let c = s[i];
        let cell = if c == '1' {
            CellState::Filled
        } else if c == '0' {
            CellState::Empty
        } else {
            let mut one: Vec<char> = Vec::new();
            one.push(c);
            assert(one@ =~= seq![c]);
            return Err(ParseError::InvalidClue(chars_to_string(one.as_slice())));
        };
        let ghost before = out@;
        out.push(cell);
        proof {
            match solution_cells(s@.skip(i + 1)) {
                Ok(x) => {
                    assert(before + (seq![cell] + x) =~= out@ + x);
                },
                Err(e) => {},
            }
        }
        i += 1;
    }
    assert(s@.skip(i as int) =~= Seq::<char>::empty());
    assert(out@ + Seq::<CellState>::empty() =~= out@);
    Ok(out)
}

/// Parses one puzzle line: `name;C:col_clues/R:row_clues[;answer[;solution]]`.
///
/// The field count decides the optional fields: two give name and clues,
/// three add the answer (blank means none), four add the solution.
pub fn parse_puzzle_line(line: &str) -> (r: Result<Puzzle, ParseError>)
    ensures
        result_model(r) == line_model(line@),
{
    let lc = str_to_chars(line);
    let parts = splitn_chars(lc.as_slice(), 4, ';');
    let ghost pv = views(parts@);
    if parts.len() < 2 {
        return Err(ParseError::MissingClues);
    }
    assert(pv[0] == parts@[0]@ && pv[1] == parts@[1]@);
    let name_chars = trim_chars(parts[0].as_slice());
    if name_chars.len() == 0 {
        return Err(ParseError::EmptyName);
    }
    let clue_part = trim_chars(parts[1].as_slice());
    let sections = splitn_chars(clue_part.as_slice(), 2, '/');
    if sections.len() != 2 {
        return Err(ParseError::MissingClues);
    }
    let ghost sv = views(sections@);
    assert(sv[0] == sections@[0]@ && sv[1] == sections@[1]@);
    let (a_tag, a_str) = match split_section_prefix(sections[0].as_slice()) {
        Ok(x) => x,
        Err(e) => {
            return Err(e);
        },
    };
    let (b_tag, b_str) = match split_section_prefix(sections[1].as_slice()) {
        Ok(x) => x,
        Err(e) => {
            return Err(e);
        },
    };
    let (col_clues, row_clues) = if a_tag == 'C' && b_tag == 'R' {
        let c = match parse_pipe_group(a_str.as_slice()) {
            Ok(x) => x,
            Err(e) => {
                return Err(e);
            },
        };
        let r = match parse_pipe_group(b_str.as_slice()) {
            Ok(x) => x,
            Err(e) => {
                return Err(e);
            },
        };
        (c, r)
    } else if a_tag == 'R' && b_tag == 'C' {
        let c = match parse_pipe_group(b_str.as_slice()) {
            Ok(x) => x,
            Err(e) => {
                return Err(e);
            },
        };
        let r = match parse_pipe_group(a_str.as_slice()) {
            Ok(x) => x,
            Err(e) => {
                return Err(e);
            },
        };
        (c, r)
    } else {
        return Err(
            ParseError::InvalidClueSection(chars_to_string(take_chars(parts[1].as_slice(), 20).as_slice())),
        );
    };
    let col_clues = normalize_clues(col_clues);
    let row_clues = normalize_clues(row_clues);
    let width = col_clues.len();
    let height = row_clues.len();
    let answer = if parts.len() >= 3 {
        assert(pv[2] == parts@[2]@);
        let t = trim_chars(parts[2].as_slice());
        if t.len() == 0 {
            None
        } else {
            Some(chars_to_string(t.as_slice()))
        }
    } else {
        None
    };
    let solution = if parts.len() == 4 {
        assert(pv[3] == parts@[3]@);
        let t = trim_chars(parts[3].as_slice());
        let sol = match parse_solution(t.as_slice()) {
            Ok(x) => x,
            Err(e) => {
                return Err(e);
            },
        };
        let expected = width.wrapping_mul(height);
        if sol.len() != expected {
            return Err(ParseError::SolutionLength { got: sol.len(), expected });
        }
        Some(sol)
    } else {
        None
    };
    Ok(Puzzle { name: chars_to_string(name_chars.as_slice()), answer, width, height, row_clues, col_clues, solution })
}

/// A parsed entry, as mathematical values.
pub ghost enum EntryModel {
    Valid(PuzzleModel),
    Invalid(Seq<char>, ErrModel, Option<PuzzleModel>),
}

/// Result of parsing a single puzzle entry.
#[derive(Debug, Clone)]
pub enum ParsedPuzzle {
    Valid(Puzzle),
    /// A structurally invalid entry. `puzzle` is `Some` when the clues
    /// parsed but their totals disagree, `None` for hard parse failures.
    Invalid { name: String, reason: ParseError, puzzle: Option<Puzzle> },
}

/// The model of an optional puzzle.
pub open spec fn opt_puzzle(o: Option<Puzzle>) -> Option<PuzzleModel> {
    match o {
        Some(p) => Some(p@),
        None => None,
    }
}

impl View for ParsedPuzzle {
    type V = EntryModel;

    open spec fn view(&self) -> EntryModel {
        match self {
            ParsedPuzzle::Valid(p) => EntryModel::Valid(p@),
            ParsedPuzzle::Invalid { name, reason, puzzle } => EntryModel::Invalid(
                name@,
                reason@,
                opt_puzzle(*puzzle),
            ),
        }
    }
}

/// The name an entry is listed under.
pub open spec fn entry_name_of(e: EntryModel) -> Seq<char> {
    match e {
        EntryModel::Valid(p) => p.name,
        EntryModel::Invalid(name, _, _) => name,
    }
}

impl ParsedPuzzle {
    /// The entry's puzzle name.
    pub fn name(&self) -> (r: &str)
        ensures
            r@ == entry_name_of(self@),
    {
        match self {
            ParsedPuzzle::Valid(p) => p.name.as_str(),
            ParsedPuzzle::Invalid { name, .. } => name.as_str(),
        }
    }

    /// The puzzle of a valid entry.
    pub fn as_puzzle(&self) -> (r: Option<&Puzzle>)
        ensures
            match self {
                ParsedPuzzle::Valid(p) => r == Some(p),
                ParsedPuzzle::Invalid { .. } => r is None,
            },
    {
        match self {
            ParsedPuzzle::Valid(p) => Some(p),
            ParsedPuzzle::Invalid { .. } => None,
        }
    }

    /// Whether the entry is a valid puzzle.
    pub fn is_valid(&self) -> (r: bool)
        ensures
            r == (self is Valid),
    {
        match self {
            ParsedPuzzle::Valid(_) => true,
            ParsedPuzzle::Invalid { .. } => false,
        }
    }
}

/// A trimmed line that holds an entry: neither blank nor a `#` comment.
pub open spec fn keep_line(t: Seq<char>) -> bool {
    t.len() > 0 && t[0] != '#'
}

/// The name reported for a line that failed to parse: its first field,
/// trimmed, or else its first 40 characters.
pub open spec fn failed_name(t: Seq<char>) -> Seq<char> {
    let f = trim(splitn_on(t, 2, ';')[0]);
    if f.len() > 0 { f } else { first_chars(t, 40) }
}

/// Total of a side's clues, summed in `u32` with wrap-around.
pub open spec fn wrapped_total(v: Seq<Seq<u32>>) -> u32 {
    crate::types::wrap_u32(crate::types::clues_sum(v))
}

/// The entry of one trimmed, non-comment line.
pub open spec fn entry_model(t: Seq<char>) -> EntryModel {
    match line_model(t) {
        Ok(p) => if wrapped_total(p.row_clues) != wrapped_total(p.col_clues) {
            EntryModel::Invalid(
                p.name,
                ErrModel::ClueTotalMismatch(wrapped_total(p.row_clues), wrapped_total(p.col_clues)),
                Some(p),
            )
        } else {
            EntryModel::Valid(p)
        },
        Err(e) => EntryModel::Invalid(failed_name(t), e, None),
    }
}

/// The entries of a list of lines, in order.
pub open spec fn entries(ls: Seq<Seq<char>>) -> Seq<EntryModel>
    decreases ls.len(),
{
    if ls.len() == 0 {
        Seq::empty()
    } else {
        entries(ls.drop_last()) + (if keep_line(trim(ls.last())) {
            seq![entry_model(trim(ls.last()))]
        } else {
            Seq::empty()
        })
    }
}

/// The models of a list of parsed entries.
pub open spec fn entry_models(v: Seq<ParsedPuzzle>) -> Seq<EntryModel> {
    v.map_values(|e: ParsedPuzzle| e@)
}

/// Parses one trimmed entry line, with the clue-total check.
fn parse_entry(t: &[char]) -> (r: ParsedPuzzle)
    ensures
        r@ == entry_model(t@),
{
    let line = chars_to_string(t);
    match parse_puzzle_line(line.as_str()) {
        Ok(puzzle) => {
            let row_total = crate::solver::side_sum(&puzzle.row_clues);
            let col_total = crate::solver::side_sum(&puzzle.col_clues);
            if row_total != col_total {
                let name = puzzle.name.clone();
                ParsedPuzzle::Invalid {
                    name,
                    reason: ParseError::ClueTotalMismatch { row_total, col_total },
                    puzzle: Some(puzzle),
                }
            } else {
                ParsedPuzzle::Valid(puzzle)
            }
        },
        Err(reason) => {
            let first = splitn_chars(t, 2, ';');
            proof {
                crate::text::lemma_splitn_nonempty(t@, 2, ';', Seq::empty());
                assert(views(first@)[0] == first@[0]@);
            }
            let f = trim_chars(first[0].as_slice());
            let name = if f.len() > 0 {
                chars_to_string(f.as_slice())
            } else {
                chars_to_string(take_chars(t, 40).as_slice())
            };
            ParsedPuzzle::Invalid { name, reason, puzzle: None }
        },
    }
}

/// Parses every puzzle of a file's text, one entry per line.
///
/// Blank lines and lines starting with `#` are skipped. A malformed line
/// gives an `Invalid` entry, and parsing goes on with the next line.
pub fn parse_content(content: &str) -> (r: Vec<ParsedPuzzle>)
    ensures
        entry_models(r@) == entries(lines(content@)),
{
    let cc = str_to_chars(content);
    let ls = split_lines_chars(cc.as_slice());
    let ghost lv = views(ls@);
    let mut out: Vec<ParsedPuzzle> = Vec::new();
    let mut i: usize = 0;
    assert(lv.take(0) =~= Seq::<Seq<char>>::empty());
    assert(entry_models(out@) =~= Seq::<EntryModel>::empty());
    while i < ls.len()
        invariant
            i <= ls@.len(),
            lv == views(ls@),
            entry_models(out@) == entries(lv.take(i as int)),
        decreases ls@.len() - i,
    {
        assert(lv.take(i + 1).drop_last() =~= lv.take(i as int));
        assert(lv.take(i + 1).last() == ls@[i as int]@);
        let t = trim_chars(ls[i].as_slice());
        let ghost before = entry_models(out@);
        if t.len() > 0 && t[0] != '#' {
            out.push(parse_entry(t.as_slice()));
            assert(entry_models(out@) =~= before + seq![entry_model(t@)]);
        } else {
            assert(entry_models(out@) =~= before + Seq::<EntryModel>::empty());
        }
        i += 1;
    }
    assert(lv.take(ls@.len() as int) =~= lv);
    out
}

} // verus!
