//! Conversion of puzzle files in other formats to the native one-line
//! format, and detection of an unknown file's separators.
//!
//! Every step reports what it would print as [`Output`] entries: puzzle
//! lines for standard output and warnings for standard error.
use vstd::prelude::*;
use crate::parse::{group_values, prepend};
use crate::text::{
    chars_eq, chars_to_string, copy_range, decimal, extend_chars, extend_decimal, extend_str, find_chars,
    find_from, is_ws, join, join_chars, lines, parse_u32, parse_u32_chars, split_by_str, split_chars,
    split_lines_chars, split_on, split_str, split_words, str_to_chars, trim, trim_chars, views, words,
};

verus! {

/// A separator, as mathematical values.
pub ghost enum SepModel {
    Literal(Seq<char>),
    Newline,
    BlankLine,
}

/// A separator between parts of a puzzle file.
#[derive(Clone, Debug)]
pub enum Sep {
    /// Any literal string (such as `,`, `:` or `COLUMNS`).
    Literal(String),
    /// A single line feed, after line-ending normalization.
    Newline,
    /// A run of two or more line feeds, absorbing whitespace-only lines.
    BlankLine,
}

impl View for Sep {
    type V = SepModel;

    open spec fn view(&self) -> SepModel {
        match self {
            Sep::Literal(s) => SepModel::Literal(s@),
            Sep::Newline => SepModel::Newline,
            Sep::BlankLine => SepModel::BlankLine,
        }
    }
}

/// The four separators, in parse-hierarchy order.
pub ghost struct ConfigModel {
    pub clue: SepModel,
    pub line: SepModel,
    pub section: SepModel,
    pub puzzle: SepModel,
}

/// Separators between clue values, clue lines, the two sections, and
/// puzzles.
#[derive(Clone, Debug)]
pub struct SeparatorConfig {
    pub clue: Sep,
    pub line: Sep,
    pub section: Sep,
    pub puzzle: Sep,
}

impl View for SeparatorConfig {
    type V = ConfigModel;

    open spec fn view(&self) -> ConfigModel {
        ConfigModel { clue: self.clue@, line: self.line@, section: self.section@, puzzle: self.puzzle@ }
    }
}

/// A line of output, as mathematical values.
pub ghost enum OutModel {
    Stdout(Seq<char>),
    Stderr(Seq<char>),
}

/// A line the converter prints: a converted puzzle on standard output, or
/// a warning on standard error.
#[derive(Clone, Debug)]
pub enum Output {
    Stdout(String),
    Stderr(String),
}

impl View for Output {
    type V = OutModel;

    open spec fn view(&self) -> OutModel {
        match self {
            Output::Stdout(s) => OutModel::Stdout(s@),
            Output::Stderr(s) => OutModel::Stderr(s@),
        }
    }
}

/// The models of a list of outputs.
pub open spec fn outs(v: Seq<Output>) -> Seq<OutModel> {
    v.map_values(|o: Output| o@)
}

/// An owned copy of a string slice.
pub fn owned(s: &str) -> (r: String)
    ensures
        r@ == s@,
{
    let v = str_to_chars(s);
    chars_to_string(v.as_slice())
}

/// Whether the characters of `s` spell `lit`.
fn text_is(s: &[char], lit: &str) -> (r: bool)
    ensures
        r == (s@ == lit@),
{
    let l = str_to_chars(lit);
    chars_eq(s, l.as_slice())
}

/// The separator a `--sep` token names; any other token is a literal.
pub open spec fn token_sep(s: Seq<char>) -> SepModel {
    if s == "cm"@ || s == "comma"@ {
        SepModel::Literal(","@)
    } else if s == "cl"@ || s == "colon"@ {
        SepModel::Literal(":"@)
    } else if s == "sc"@ || s == "semi"@ || s == "semicolon"@ {
        SepModel::Literal(";"@)
    } else if s == "sp"@ || s == "space"@ {
        SepModel::Literal(" "@)
    } else if s == "tb"@ || s == "tab"@ {
        SepModel::Literal("\t"@)
    } else if s == "da"@ || s == "dash"@ || s == "hy"@ || s == "hyphen"@ {
        SepModel::Literal("-"@)
    } else if s == "sl"@ || s == "slash"@ {
        SepModel::Literal("/"@)
    } else if s == "nl"@ || s == "new"@ || s == "newline"@ {
        SepModel::Newline
    } else if s == "bl"@ || s == "blank"@ || s == "blankline"@ {
        SepModel::BlankLine
    } else {
        SepModel::Literal(s)
    }
}

/// Resolves a `--sep` token to a separator.
pub fn resolve_token(s: &[char]) -> (r: Sep)
    ensures
        r@ == token_sep(s@),
{
    if text_is(s, "cm") || text_is(s, "comma") {
        Sep::Literal(owned(","))
    } else if text_is(s, "cl") || text_is(s, "colon") {
        Sep::Literal(owned(":"))
    } else if text_is(s, "sc") || text_is(s, "semi") || text_is(s, "semicolon") {
        Sep::Literal(owned(";"))
    } else if text_is(s, "sp") || text_is(s, "space") {
        Sep::Literal(owned(" "))
    } else if text_is(s, "tb") || text_is(s, "tab") {
        Sep::Literal(owned("\t"))
    } else if text_is(s, "da") || text_is(s, "dash") || text_is(s, "hy") || text_is(s, "hyphen") {
        Sep::Literal(owned("-"))
    } else if text_is(s, "sl") || text_is(s, "slash") {
        Sep::Literal(owned("/"))
    } else if text_is(s, "nl") || text_is(s, "new") || text_is(s, "newline") {
        Sep::Newline
    } else if text_is(s, "bl") || text_is(s, "blank") || text_is(s, "blankline") {
        Sep::BlankLine
    } else {
        Sep::Literal(chars_to_string(s))
    }
}

/// What `format!("{:?}", s)` gives for the string `s`: the text in double
/// quotes with Rust's debug escapes.
pub uninterp spec fn debug_quoted(s: Seq<char>) -> Seq<char>;

/// `<str as Debug>::fmt`, through `format!("{:?}", ..)`. The result is
/// named by `debug_quoted` of the argument; nothing else is claimed.
#[verifier::external_body]
fn quote_debug(s: &str) -> (r: String)
    ensures
        r@ == debug_quoted(s@),
{
    format!("{:?}", s)
}

/// How a separator is shown in messages.
pub open spec fn sep_shown(s: SepModel) -> Seq<char> {
    match s {
        SepModel::Literal(t) => debug_quoted(t),
        SepModel::Newline => "newline"@,
        SepModel::BlankLine => "blankline"@,
    }
}

/// How a separator is shown in messages: a literal in quotes, else its name.
pub fn sep_display(sep: &Sep) -> (r: String)
    ensures
        r@ == sep_shown(sep@),
{
    match sep {
        Sep::Literal(s) => quote_debug(s.as_str()),
        Sep::Newline => owned("newline"),
        Sep::BlankLine => owned("blankline"),
    }
}

/// The token that names a separator on the command line.
pub open spec fn sep_token_text(s: SepModel) -> Seq<char> {
    match s {
        SepModel::Literal(t) => if t == ","@ {
            "comma"@
        } else if t == ":"@ {
            "colon"@
        } else if t == ";"@ {
            "semicolon"@
        } else if t == " "@ {
            "space"@
        } else if t == "\t"@ {
            "tab"@
        } else if t == "-"@ {
            "dash"@
        } else if t == "/"@ {
            "slash"@
        } else {
            t
        },
        SepModel::Newline => "newline"@,
        SepModel::BlankLine => "blankline"@,
    }
}

/// The command-line token for a separator.
pub fn sep_token(sep: &Sep) -> (r: String)
    ensures
        r@ == sep_token_text(sep@),
{
    match sep {
        Sep::Literal(s) => {
            let c = str_to_chars(s.as_str());
            if text_is(c.as_slice(), ",") {
                owned("comma")
            } else if text_is(c.as_slice(), ":") {
                owned("colon")
            } else if text_is(c.as_slice(), ";") {
                owned("semicolon")
            } else if text_is(c.as_slice(), " ") {
                owned("space")
            } else if text_is(c.as_slice(), "\t") {
                owned("tab")
            } else if text_is(c.as_slice(), "-") {
                owned("dash")
            } else if text_is(c.as_slice(), "/") {
                owned("slash")
            } else {
                chars_to_string(c.as_slice())
            }
        },
        Sep::Newline => owned("newline"),
        Sep::BlankLine => owned("blankline"),
    }
}

/// Whether two separators are the same.
pub fn sep_eq(a: &Sep, b: &Sep) -> (r: bool)
    ensures
        r == (a@ == b@),
{
    match (a, b) {
        (Sep::Literal(x), Sep::Literal(y)) => {
            let xc = str_to_chars(x.as_str());
            let yc = str_to_chars(y.as_str());
            chars_eq(xc.as_slice(), yc.as_slice())
        },
        (Sep::Newline, Sep::Newline) => true,
        (Sep::BlankLine, Sep::BlankLine) => true,
        _ => false,
    }
}

/// The error for two separators that coincide.
pub open spec fn same_sep_text(a_name: Seq<char>, b_name: Seq<char>, a: SepModel) -> Seq<char> {
    a_name + "-sep and "@ + b_name + "-sep are both "@ + sep_shown(a) + " — all separators must be distinct"@
}

/// The first pair of coinciding separators, in the order clue–line,
/// clue–section, clue–puzzle, line–section, line–puzzle, section–puzzle.
pub open spec fn uniqueness_error(c: ConfigModel) -> Option<Seq<char>> {
    if c.clue == c.line {
        Some(same_sep_text("clue"@, "line"@, c.clue))
    } else if c.clue == c.section {
        Some(same_sep_text("clue"@, "section"@, c.clue))
    } else if c.clue == c.puzzle {
        Some(same_sep_text("clue"@, "puzzle"@, c.clue))
    } else if c.line == c.section {
        Some(same_sep_text("line"@, "section"@, c.line))
    } else if c.line == c.puzzle {
        Some(same_sep_text("line"@, "puzzle"@, c.line))
    } else if c.section == c.puzzle {
        Some(same_sep_text("section"@, "puzzle"@, c.section))
    } else {
        None
    }
}

/// The error for a pair of coinciding separators.
fn same_sep_error(a_name: &str, b_name: &str, a: &Sep) -> (r: String)
    ensures
        r@ == same_sep_text(a_name@, b_name@, a@),
{
    let mut v: Vec<char> = Vec::new();
    extend_str(&mut v, a_name);
    extend_str(&mut v, "-sep and ");
    extend_str(&mut v, b_name);
    extend_str(&mut v, "-sep are both ");
    let d = sep_display(a);
    extend_str(&mut v, d.as_str());
    extend_str(&mut v, " — all separators must be distinct");
    chars_to_string(v.as_slice())
}

/// Checks that the four separators are pairwise distinct.
pub fn validate_sep_uniqueness(c: &SeparatorConfig) -> (r: Result<(), String>)
    ensures
        match r {
            Ok(()) => uniqueness_error(c@) is None,
            Err(e) => uniqueness_error(c@) == Some(e@),
        },
{
    if sep_eq(&c.clue, &c.line) {
        return Err(same_sep_error("clue", "line", &c.clue));
    }
    if sep_eq(&c.clue, &c.section) {
        return Err(same_sep_error("clue", "section", &c.clue));
    }
    if sep_eq(&c.clue, &c.puzzle) {
        return Err(same_sep_error("clue", "puzzle", &c.clue));
    }
    if sep_eq(&c.line, &c.section) {
        return Err(same_sep_error("line", "section", &c.line));
    }
    if sep_eq(&c.line, &c.puzzle) {
        return Err(same_sep_error("line", "puzzle", &c.line));
    }
    if sep_eq(&c.section, &c.puzzle) {
        return Err(same_sep_error("section", "puzzle", &c.section));
    }
    Ok(())
}

/// The separators a `--sep A,B,C[,D]` argument gives, or why it is
/// refused. `D` defaults to a blank line.
pub open spec fn sep_arg_result(arg: Seq<char>) -> Result<ConfigModel, Seq<char>> {
    let parts = split_on(arg, ',');
    if parts.len() < 3 || parts.len() > 4 {
        Err(
            "--sep requires 3 or 4 comma-separated tokens (A,B,C or A,B,C,D), got "@ + decimal(parts.len()),
        )
    } else {
        let c = ConfigModel {
            clue: token_sep(parts[0]),
            line: token_sep(parts[1]),
            section: token_sep(parts[2]),
            puzzle: if parts.len() == 4 { token_sep(parts[3]) } else { SepModel::BlankLine },
        };
        match uniqueness_error(c) {
            Some(e) => Err(e),
            None => Ok(c),
        }
    }
}

/// Parses a `--sep` argument into the four separators.
pub fn parse_sep_arg(arg: &str) -> (r: Result<SeparatorConfig, String>)
    ensures
        match r {
            Ok(c) => sep_arg_result(arg@) == Ok::<ConfigModel, Seq<char>>(c@),
            Err(e) => sep_arg_result(arg@) == Err::<ConfigModel, Seq<char>>(e@),
        },
{
    let a = str_to_chars(arg);
    let parts = split_chars(a.as_slice(), ',');
    let ghost pv = views(parts@);
    if parts.len() < 3 || parts.len() > 4 {
        let mut v: Vec<char> = Vec::new();
        extend_str(&mut v, "--sep requires 3 or 4 comma-separated tokens (A,B,C or A,B,C,D), got ");
        extend_decimal(&mut v, parts.len() as u64);
        return Err(chars_to_string(v.as_slice()));
    }
    assert(pv[0] == parts@[0]@ && pv[1] == parts@[1]@ && pv[2] == parts@[2]@);
    let puzzle = if parts.len() == 4 {
        assert(pv[3] == parts@[3]@);
        resolve_token(parts[3].as_slice())
    } else {
        Sep::BlankLine
    };
    let config = SeparatorConfig {
        clue: resolve_token(parts[0].as_slice()),
        line: resolve_token(parts[1].as_slice()),
        section: resolve_token(parts[2].as_slice()),
        puzzle,
    };
    match validate_sep_uniqueness(&config) {
        Ok(()) => Ok(config),
        Err(e) => Err(e),
    }
}

/// `s` has a carriage return directly followed by a line feed.
pub open spec fn has_crlf(s: Seq<char>) -> bool {
    exists|i: int| 0 <= i < s.len() - 1 && s[i] == '\r' && #[trigger] s[i + 1] == '\n'
}

/// `s` has a line feed not directly preceded by a carriage return.
pub open spec fn has_bare_lf(s: Seq<char>) -> bool {
    exists|i: int| 0 <= i < s.len() && #[trigger] s[i] == '\n' && (i == 0 || s[i - 1] != '\r')
}

/// The error for a file that mixes line endings.
pub open spec fn mixed_endings_text() -> Seq<char> {
    "mixed line endings (CRLF and bare LF) — convert to a consistent format first (e.g. dos2unix or unix2dos)"@
}

/// Refuses text that mixes CRLF and bare LF line endings.
pub fn check_line_endings(content: &str) -> (r: Result<(), String>)
    ensures
        match r {
            Ok(()) => !(has_crlf(content@) && has_bare_lf(content@)),
            Err(e) => has_crlf(content@) && has_bare_lf(content@) && e@ == mixed_endings_text(),
        },
{
    let s = str_to_chars(content);
    let mut crlf = false;
    let mut bare = false;
    let mut i: usize = 0;
    while i < s.len()
        invariant
            i <= s@.len(),
            s@ == content@,
            crlf == exists|k: int| 0 <= k < i && k < s@.len() - 1 && s@[k] == '\r' && #[trigger] s@[k + 1] == '\n',
            bare == exists|k: int| 0 <= k < i && #[trigger] s@[k] == '\n' && (k == 0 || s@[k - 1] != '\r'),
        decreases s@.len() - i,
    {
        if s[i] == '\r' && i + 1 < s.len() && s[i + 1] == '\n' {
            crlf = true;
        }
        if s[i] == '\n' && (i == 0 || s[i - 1] != '\r') {
            bare = true;
        }
        i += 1;
    }
    if crlf && bare {
        Err(owned(
            "mixed line endings (CRLF and bare LF) — convert to a consistent format first (e.g. dos2unix or unix2dos)",
        ))
    } else {
        Ok(())
    }
}

/// `s` with every CRLF, and every other carriage return, turned into a
/// line feed.
pub open spec fn normalized_endings(s: Seq<char>) -> Seq<char>
    decreases s.len(),
{
    if s.len() == 0 {
        Seq::empty()
    } else if s[0] == '\r' && s.len() > 1 && s[1] == '\n' {
        seq!['\n'] + normalized_endings(s.skip(2))
    } else if s[0] == '\r' {
        seq!['\n'] + normalized_endings(s.drop_first())
    } else {
        seq![s[0]] + normalized_endings(s.drop_first())
    }
}

/// Normalizes line endings to LF.
pub fn normalize_line_endings(content: &str) -> (r: String)
    ensures
        r@ == normalized_endings(content@),
{
    let s = str_to_chars(content);
    let mut out: Vec<char> = Vec::new();
    let mut i: usize = 0;
    assert(s@.skip(0) =~= s@);
    while i < s.len()
        invariant
            i <= s@.len(),
            out@ + normalized_endings(s@.skip(i as int)) == normalized_endings(s@),
        decreases s@.len() - i,
    {
        let ghost rest = s@.skip(i as int);
        let ghost before = out@;
        if s[i] == '\r' && i + 1 < s.len() && s[i + 1] == '\n' {
            out.push('\n');
            assert(rest.skip(2) =~= s@.skip(i + 2));
            i += 2;
        } else {
            if s[i] == '\r' {
                out.push('\n');
            } else {
                out.push(s[i]);
            }
            assert(rest.drop_first() =~= s@.skip(i + 1));
            i += 1;
        }
        assert(out@ + normalized_endings(s@.skip(i as int)) =~= before + normalized_endings(rest));
    }
    assert(out@ + Seq::<char>::empty() =~= out@);
    chars_to_string(out.as_slice())
}

/// `o` followed by the values of `r`, or the error of `r`.
pub open spec fn then_values<T>(o: Seq<T>, r: Result<Seq<T>, Seq<char>>) -> Result<Seq<T>, Seq<char>> {
    match r {
        Ok(x) => Ok(o + x),
        Err(e) => Err(e),
    }
}

/// `c` is an ASCII upper-case letter.
pub open spec fn is_upper(c: char) -> bool {
    0x41 <= (c as u32) <= 0x5a
}

/// The values of a letter token (`A` = 1 … `Z` = 26), or the error for its
/// first other character.
pub open spec fn letter_values(s: Seq<char>) -> Result<Seq<u32>, Seq<char>>
    decreases s.len(),
{
    if s.len() == 0 {
        Ok(Seq::empty())
    } else if is_upper(s[0]) {
        then_values(seq![((s[0] as u32) - 0x40) as u32], letter_values(s.drop_first()))
    } else {
        Err("unexpected character '"@ + seq![s[0]] + "' (only A–Z allowed)"@)
    }
}

/// Decodes one letter token: `"BA"` gives `[2, 1]`.
pub fn decode_token(token: &[char]) -> (r: Result<Vec<u32>, String>)
    ensures
        match r {
            Ok(v) => letter_values(token@) == Ok::<Seq<u32>, Seq<char>>(v@),
            Err(e) => letter_values(token@) == Err::<Seq<u32>, Seq<char>>(e@),
        },
{
    let mut out: Vec<u32> = Vec::new();
    let mut i: usize = 0;
    assert(token@.skip(0) =~= token@);
    assert(out@ + Seq::<u32>::empty() =~= out@);
    while i < token.len()
        invariant
            i <= token@.len(),
            letter_values(token@) == then_values(out@, letter_values(token@.skip(i as int))),
        decreases token@.len() - i,
    {
        let ghost rest = token@.skip(i as int);
        assert(rest[0] == token@[i as int]);
        assert(rest.drop_first() =~= token@.skip(i + 1));
        let c = token[i];
        let u = c as u32;
        if !(0x41 <= u && u <= 0x5a) {
            let mut v: Vec<char> = Vec::new();
            extend_str(&mut v, "unexpected character '");
            v.push(c);
            extend_str(&mut v, "' (only A–Z allowed)");
            assert(v@ =~= "unexpected character '"@ + seq![c] + "' (only A–Z allowed)"@);
            return Err(chars_to_string(v.as_slice()));
        }
        let ghost before = out@;
        out.push(u - 0x40);
        proof {
            match letter_values(token@.skip(i + 1)) {
                Ok(x) => {
                    assert(before + (seq![(u - 0x40) as u32] + x) =~= out@ + x);
                },
                Err(e) => {},
            }
        }
        i += 1;
    }
    assert(token@.skip(i as int) =~= Seq::<char>::empty());
    assert(out@ + Seq::<u32>::empty() =~= out@);
    Ok(out)
}

/// The clue lists of a line of letter tokens, or the first token's error.
pub open spec fn letter_lines(ws: Seq<Seq<char>>) -> Result<Seq<Seq<u32>>, Seq<char>>
    decreases ws.len(),
{
    if ws.len() == 0 {
        Ok(Seq::empty())
    } else {
        match letter_values(ws[0]) {
            Err(e) => Err(e),
            Ok(v) => then_values(seq![v], letter_lines(ws.drop_first())),
        }
    }
}

/// Decodes a line of letter tokens: `"C BA CB"` gives `[[3], [2, 1], [3, 2]]`.
pub fn decode_letter_line(line: &[char]) -> (r: Result<Vec<Vec<u32>>, String>)
    ensures
        match r {
            Ok(v) => letter_lines(words(line@)) == Ok::<Seq<Seq<u32>>, Seq<char>>(crate::types::clue_lists(v@)),
            Err(e) => letter_lines(words(line@)) == Err::<Seq<Seq<u32>>, Seq<char>>(e@),
        },
{
    let ws = split_words(line);
    let ghost wv = views(ws@);
    let mut out: Vec<Vec<u32>> = Vec::new();
    let mut i: usize = 0;
    assert(wv.skip(0) =~= wv);
    assert(crate::types::clue_lists(out@) + Seq::<Seq<u32>>::empty() =~= crate::types::clue_lists(out@));
    while i < ws.len()
        invariant
            i <= ws@.len(),
            wv == views(ws@),
            wv == words(line@),
            letter_lines(wv) == then_values(crate::types::clue_lists(out@), letter_lines(wv.skip(i as int))),
        decreases ws@.len() - i,
    {
        let ghost rest = wv.skip(i as int);
        assert(rest[0] == ws@[i as int]@);
        assert(rest.drop_first() =~= wv.skip(i + 1));
        match decode_token(ws[i].as_slice()) {
            Err(e) => {
                return Err(e);
            },
            Ok(v) => {
                let ghost before = crate::types::clue_lists(out@);
                let ghost vv = v@;
                out.push(v);
                proof {
                    assert(crate::types::clue_lists(out@) =~= before.push(vv));
                    match letter_lines(wv.skip(i + 1)) {
                        Ok(x) => {
                            assert(before + (seq![vv] + x) =~= crate::types::clue_lists(out@) + x);
                        },
                        Err(e) => {},
                    }
                }
            },
        }
        i += 1;
    }
    assert(wv.skip(i as int) =~= Seq::<Seq<char>>::empty());
    assert(crate::types::clue_lists(out@) + Seq::<Seq<u32>>::empty() =~= crate::types::clue_lists(out@));
    Ok(out)
}

/// One clue list as text: its numbers separated by spaces, `0` when empty.
pub open spec fn clue_line_text(q: Seq<u32>) -> Seq<char> {
    if q.len() == 0 {
        "0"@
    } else {
        join(q.map_values(|n: u32| decimal(n as nat)), " "@)
    }
}

/// Clue lists as text, separated by `sep`.
pub open spec fn clues_text(v: Seq<Seq<u32>>, sep: Seq<char>) -> Seq<char> {
    join(v.map_values(|q: Seq<u32>| clue_line_text(q)), sep)
}

/// The text of one clue list.
pub fn clue_line_to_chars(q: &Vec<u32>) -> (r: Vec<char>)
    ensures
        r@ == clue_line_text(q@),
{
    if q.len() == 0 {
        return str_to_chars("0");
    }
    let mut parts: Vec<Vec<char>> = Vec::new();
    let mut i: usize = 0;
    while i < q.len()
        invariant
            i <= q@.len(),
            views(parts@) == q@.take(i as int).map_values(|n: u32| decimal(n as nat)),
        decreases q@.len() - i,
    {
        let ghost before = views(parts@);
        let d = crate::text::decimal_chars(q[i] as u64);
        let ghost dv = d@;
        parts.push(d);
        assert(views(parts@) =~= before.push(dv));
        assert(q@.take(i + 1).map_values(|n: u32| decimal(n as nat)) =~= q@.take(i as int).map_values(
            |n: u32| decimal(n as nat),
        ).push(decimal(q@[i as int] as nat)));
        i += 1;
    }
    assert(q@.take(q@.len() as int) =~= q@);
    let sp = str_to_chars(" ");
    join_chars(&parts, sp.as_slice())
}

/// The text of clue lists separated by `sep`.
pub fn clues_to_chars(clues: &Vec<Vec<u32>>, sep: &str) -> (r: Vec<char>)
    ensures
        r@ == clues_text(crate::types::clue_lists(clues@), sep@),
{
    let mut parts: Vec<Vec<char>> = Vec::new();
    let mut i: usize = 0;
    let ghost cl = crate::types::clue_lists(clues@);
    while i < clues.len()
        invariant
            i <= clues@.len(),
            cl == crate::types::clue_lists(clues@),
            views(parts@) == cl.take(i as int).map_values(|q: Seq<u32>| clue_line_text(q)),
        decreases clues@.len() - i,
    {
        let ghost before = views(parts@);
        let t = clue_line_to_chars(&clues[i]);
        let ghost tv = t@;
        parts.push(t);
        assert(views(parts@) =~= before.push(tv));
        assert(cl[i as int] == clues@[i as int]@);
        assert(cl.take(i + 1).map_values(|q: Seq<u32>| clue_line_text(q)) =~= cl.take(i as int).map_values(
            |q: Seq<u32>| clue_line_text(q),
        ).push(clue_line_text(cl[i as int])));
        i += 1;
    }
    assert(cl.take(clues@.len() as int) =~= cl);
    let sc = str_to_chars(sep);
    join_chars(&parts, sc.as_slice())
}

/// `[[1, 5], [3], [2, 2]]` as `"1 5,3,2 2"`; an empty clue list is `"0"`.
pub fn clues_to_str(clues: &Vec<Vec<u32>>) -> (r: String)
    ensures
        r@ == clues_text(crate::types::clue_lists(clues@), ","@),
{
    let v = clues_to_chars(clues, ",");
    chars_to_string(v.as_slice())
}

/// Sum of all clues, wrapping in `u32`.
pub fn clue_sum(clues: &Vec<Vec<u32>>) -> (t: u32)
    ensures
        t == crate::solver::side_total(clues@),
{
    crate::solver::side_sum(clues)
}

/// The output for one converted puzzle: a warning when its clue totals
/// differ, then its line `prefix num|cols/rows`.
pub open spec fn emit_model(prefix: Seq<char>, num: nat, cols: Seq<Seq<u32>>, rows: Seq<Seq<u32>>) -> Seq<OutModel> {
    let rt = crate::parse::wrapped_total(rows);
    let ct = crate::parse::wrapped_total(cols);
    (if rt != ct {
        seq![
            OutModel::Stderr(
                "Warning: puzzle "@ + decimal(num) + " clue mismatch (row total "@ + decimal(rt as nat)
                    + " ≠ col total "@ + decimal(ct as nat) + ") — input may be transposed or malformed."@,
            ),
        ]
    } else {
        Seq::empty()
    }) + seq![
        OutModel::Stdout(
            prefix + " "@ + decimal(num) + "|"@ + clues_text(cols, ","@) + "/"@ + clues_text(rows, ","@),
        ),
    ]
}

/// Appends the output for one converted puzzle.
pub fn emit(out: &mut Vec<Output>, name_prefix: &str, num: usize, col_clues: &Vec<Vec<u32>>, row_clues: &Vec<Vec<u32>>)
    ensures
        outs(final(out)@) == outs(old(out)@) + emit_model(
            name_prefix@,
            num as nat,
            crate::types::clue_lists(col_clues@),
            crate::types::clue_lists(row_clues@),
        ),
{
    let ghost o = outs(out@);
    let row_total = clue_sum(row_clues);
    let col_total = clue_sum(col_clues);
    if row_total != col_total {
        let mut v: Vec<char> = Vec::new();
        extend_str(&mut v, "Warning: puzzle ");
        extend_decimal(&mut v, num as u64);
        extend_str(&mut v, " clue mismatch (row total ");
        extend_decimal(&mut v, row_total as u64);
        extend_str(&mut v, " ≠ col total ");
        extend_decimal(&mut v, col_total as u64);
        extend_str(&mut v, ") — input may be transposed or malformed.");
        out.push(Output::Stderr(chars_to_string(v.as_slice())));
    }
    let ghost mid = outs(out@);
    let mut v: Vec<char> = Vec::new();
    extend_str(&mut v, name_prefix);
    extend_str(&mut v, " ");
    extend_decimal(&mut v, num as u64);
    extend_str(&mut v, "|");
    let c = clues_to_chars(col_clues, ",");
    extend_chars(&mut v, c.as_slice());
    extend_str(&mut v, "/");
    let r = clues_to_chars(row_clues, ",");
    extend_chars(&mut v, r.as_slice());
    out.push(Output::Stdout(chars_to_string(v.as_slice())));
    assert(outs(out@) =~= o + emit_model(
        name_prefix@,
        num as nat,
        crate::types::clue_lists(col_clues@),
        crate::types::clue_lists(row_clues@),
    ));
}

/// `[0]` stands for an empty clue list.
pub open spec fn zero_sentinel(q: Seq<u32>) -> Seq<u32> {
    if q == seq![0u32] { Seq::empty() } else { q }
}

/// Turns a lone `0` into an empty clue list.
pub fn normalize_clue(runs: Vec<u32>) -> (r: Vec<u32>)
    ensures
        r@ == zero_sentinel(runs@),
{
    if runs.len() == 1 && runs[0] == 0 {
        assert(runs@ =~= seq![0u32]);
        Vec::new()
    } else {
        runs
    }
}

/// The numbers of the words `ws`, or the error for the first that is not one.
pub open spec fn numbers_of(ws: Seq<Seq<char>>) -> Result<Seq<u32>, Seq<char>>
    decreases ws.len(),
{
    if ws.len() == 0 {
        Ok(Seq::empty())
    } else {
        match parse_u32(ws[0]) {
            None => Err("invalid number '"@ + ws[0] + "'"@),
            Some(v) => then_values(seq![v], numbers_of(ws.drop_first())),
        }
    }
}

/// Parses every word as a number.
fn parse_numbers(ws: &Vec<Vec<char>>) -> (r: Result<Vec<u32>, String>)
    ensures
        match r {
            Ok(v) => numbers_of(views(ws@)) == Ok::<Seq<u32>, Seq<char>>(v@),
            Err(e) => numbers_of(views(ws@)) == Err::<Seq<u32>, Seq<char>>(e@),
        },
{
    let ghost wv = views(ws@);
    let mut out: Vec<u32> = Vec::new();
    let mut i: usize = 0;
    assert(wv.skip(0) =~= wv);
    assert(out@ + Seq::<u32>::empty() =~= out@);
    while i < ws.len()
        invariant
            i <= ws@.len(),
            wv == views(ws@),
            numbers_of(wv) == then_values(out@, numbers_of(wv.skip(i as int))),
        decreases ws@.len() - i,
    {
        let ghost rest = wv.skip(i as int);
        assert(rest[0] == ws@[i as int]@);
        assert(rest.drop_first() =~= wv.skip(i + 1));
        match parse_u32_chars(ws[i].as_slice()) {
            None => {
                let mut v: Vec<char> = Vec::new();
                extend_str(&mut v, "invalid number '");
                extend_chars(&mut v, ws[i].as_slice());
                extend_str(&mut v, "'");
                return Err(chars_to_string(v.as_slice()));
            },
            Some(x) => {
                let ghost before = out@;
                out.push(x);
                proof {
                    match numbers_of(wv.skip(i + 1)) {
                        Ok(t) => {
                            assert(before + (seq![x] + t) =~= out@ + t);
                        },
                        Err(e) => {},
                    }
                }
            },
        }
        i += 1;
    }
    assert(wv.skip(i as int) =~= Seq::<Seq<char>>::empty());
    assert(out@ + Seq::<u32>::empty() =~= out@);
    Ok(out)
}

/// The trimmed pieces that are not blank, in order.
pub open spec fn nonblank_trimmed(ps: Seq<Seq<char>>) -> Seq<Seq<char>>
    decreases ps.len(),
{
    if ps.len() == 0 {
        Seq::empty()
    } else {
        nonblank_trimmed(ps.drop_last()) + (if trim(ps.last()).len() > 0 {
            seq![trim(ps.last())]
        } else {
            Seq::empty()
        })
    }
}

/// Trims every piece and drops the blank ones.
fn trim_nonblank(ps: &Vec<Vec<char>>) -> (r: Vec<Vec<char>>)
    ensures
        views(r@) == nonblank_trimmed(views(ps@)),
{
    let ghost pv = views(ps@);
    let mut out: Vec<Vec<char>> = Vec::new();
    let mut i: usize = 0;
    assert(pv.take(0) =~= Seq::<Seq<char>>::empty());
    while i < ps.len()
        invariant
            i <= ps@.len(),
            pv == views(ps@),
            views(out@) == nonblank_trimmed(pv.take(i as int)),
        decreases ps@.len() - i,
    {
        assert(pv.take(i + 1).drop_last() =~= pv.take(i as int));
        assert(pv.take(i + 1).last() == ps@[i as int]@);
        let t = trim_chars(ps[i].as_slice());
        let ghost before = views(out@);
        if t.len() > 0 {
            out.push(t);
            assert(views(out@) =~= before + seq![trim(ps@[i as int]@)]);
        } else {
            assert(views(out@) =~= before + Seq::<Seq<char>>::empty());
        }
        i += 1;
    }
    assert(pv.take(ps@.len() as int) =~= pv);
    out
}

/// The pieces of `s` between separators `sep`.
pub open spec fn sep_pieces(s: Seq<char>, sep: SepModel) -> Seq<Seq<char>> {
    match sep {
        SepModel::Literal(p) => split_str(s, p),
        SepModel::Newline => lines(s),
        SepModel::BlankLine => seq![s],
    }
}

/// Splits `s` at `sep` (a blank-line separator keeps `s` whole).
fn pieces_of(s: &[char], sep: &Sep) -> (r: Vec<Vec<char>>)
    ensures
        views(r@) == sep_pieces(s@, sep@),
{
    match sep {
        Sep::Literal(p) => {
            let pc = str_to_chars(p.as_str());
            split_by_str(s, pc.as_slice())
        },
        Sep::Newline => split_lines_chars(s),
        Sep::BlankLine => {
            let mut r: Vec<Vec<char>> = Vec::new();
            r.push(copy_range(s, 0, s.len()));
            assert(s@.subrange(0, s@.len() as int) =~= s@);
            assert(views(r@) =~= seq![s@]);
            r
        },
    }
}

/// The clue list of one generic clue line, or why it is malformed.
pub open spec fn generic_clue(line: Seq<char>, sep: SepModel) -> Result<Seq<u32>, Seq<char>> {
    match numbers_of(nonblank_trimmed(sep_pieces(line, sep))) {
        Ok(q) => Ok(zero_sentinel(q)),
        Err(e) => Err(e),
    }
}

/// Parses one clue line whose values are separated by `sep`.
pub fn parse_generic_clue(line: &[char], sep: &Sep) -> (r: Result<Vec<u32>, String>)
    ensures
        match r {
            Ok(v) => generic_clue(line@, sep@) == Ok::<Seq<u32>, Seq<char>>(v@),
            Err(e) => generic_clue(line@, sep@) == Err::<Seq<u32>, Seq<char>>(e@),
        },
{
    let parts = pieces_of(line, sep);
    let ws = trim_nonblank(&parts);
    match parse_numbers(&ws) {
        Ok(v) => Ok(normalize_clue(v)),
        Err(e) => Err(e),
    }
}

/// The trimmed pieces, blank ones included.
pub open spec fn all_trimmed(ps: Seq<Seq<char>>) -> Seq<Seq<char>> {
    ps.map_values(|p: Seq<char>| trim(p))
}

/// The clue list of a `;`-separated line, or why it is malformed.
pub open spec fn semicolon_clue(line: Seq<char>) -> Result<Seq<u32>, Seq<char>> {
    match numbers_of(all_trimmed(split_on(line, ';'))) {
        Ok(q) => Ok(zero_sentinel(q)),
        Err(e) => Err(e),
    }
}

/// Parses a clue line of `;`-separated values.
pub fn parse_semicolon_line(line: &[char]) -> (r: Result<Vec<u32>, String>)
    ensures
        match r {
            Ok(v) => semicolon_clue(line@) == Ok::<Seq<u32>, Seq<char>>(v@),
            Err(e) => semicolon_clue(line@) == Err::<Seq<u32>, Seq<char>>(e@),
        },
{
    let parts = split_chars(line, ';');
    let ghost pv = views(parts@);
    let mut ws: Vec<Vec<char>> = Vec::new();
    let mut i: usize = 0;
    while i < parts.len()
        invariant
            i <= parts@.len(),
            pv == views(parts@),
            views(ws@) == all_trimmed(pv.take(i as int)),
        decreases parts@.len() - i,
    {
        let ghost before = views(ws@);
        let t = trim_chars(parts[i].as_slice());
        let ghost tv = t@;
        ws.push(t);
        assert(views(ws@) =~= before.push(tv));
        assert(pv[i as int] == parts@[i as int]@);
        assert(all_trimmed(pv.take(i + 1)) =~= all_trimmed(pv.take(i as int)).push(trim(pv[i as int])));
        i += 1;
    }
    assert(pv.take(parts@.len() as int) =~= pv);
    match parse_numbers(&ws) {
        Ok(v) => Ok(normalize_clue(v)),
        Err(e) => Err(e),
    }
}

/// The clue list of a whitespace-separated line, or why it is malformed.
pub open spec fn plain_clue(line: Seq<char>) -> Result<Seq<u32>, Seq<char>> {
    match numbers_of(words(line)) {
        Ok(q) => Ok(zero_sentinel(q)),
        Err(e) => Err(e),
    }
}

/// Parses a clue line of whitespace-separated values.
pub fn parse_plain_line(line: &[char]) -> (r: Result<Vec<u32>, String>)
    ensures
        match r {
            Ok(v) => plain_clue(line@) == Ok::<Seq<u32>, Seq<char>>(v@),
            Err(e) => plain_clue(line@) == Err::<Seq<u32>, Seq<char>>(e@),
        },
{
    let ws = split_words(line);
    match parse_numbers(&ws) {
        Ok(v) => Ok(normalize_clue(v)),
        Err(e) => Err(e),
    }
}

/// Blocks of consecutive non-blank lines, each joined with line feeds,
/// where `cur` holds the lines of the block being read.
pub open spec fn blocks_from(ls: Seq<Seq<char>>, cur: Seq<Seq<char>>) -> Seq<Seq<char>>
    decreases ls.len(),
{
    if ls.len() == 0 {
        if cur.len() > 0 { seq![join(cur, "\n"@)] } else { Seq::empty() }
    } else if trim(ls[0]).len() == 0 {
        (if cur.len() > 0 { seq![join(cur, "\n"@)] } else { Seq::<Seq<char>>::empty() }) + blocks_from(
            ls.drop_first(),
            Seq::empty(),
        )
    } else {
        blocks_from(ls.drop_first(), cur.push(ls[0]))
    }
}

/// The puzzle blocks of `content` under the puzzle separator `sep`.
pub open spec fn puzzle_blocks(content: Seq<char>, sep: SepModel) -> Seq<Seq<char>> {
    match sep {
        SepModel::BlankLine => blocks_from(lines(content), Seq::empty()),
        SepModel::Newline => lines(content),
        SepModel::Literal(p) => split_str(content, p),
    }
}

/// Groups lines into blocks separated by blank lines.
fn blank_line_blocks(content: &[char]) -> (r: Vec<Vec<char>>)
    ensures
        views(r@) == blocks_from(lines(content@), Seq::empty()),
{
    let ls = split_lines_chars(content);
    let ghost lv = views(ls@);
    let mut blocks: Vec<Vec<char>> = Vec::new();
    let mut current: Vec<Vec<char>> = Vec::new();
    let mut i: usize = 0;
    let nl = str_to_chars("\n");
    assert(lv.skip(0) =~= lv);
    assert(views(current@) =~= Seq::<Seq<char>>::empty());
    assert(views(blocks@) + blocks_from(lv, Seq::empty()) =~= blocks_from(lv, Seq::empty()));
    while i < ls.len()
        invariant
            i <= ls@.len(),
            lv == views(ls@),
            nl@ == "\n"@,
            views(blocks@) + blocks_from(lv.skip(i as int), views(current@)) == blocks_from(lv, Seq::empty()),
        decreases ls@.len() - i,
    {
        let ghost rest = lv.skip(i as int);
        assert(rest[0] == ls@[i as int]@);
        assert(rest.drop_first() =~= lv.skip(i + 1));
        let t = trim_chars(ls[i].as_slice());
        if t.len() == 0 {
            if current.len() > 0 {
                let j = join_chars(&current, nl.as_slice());
                let ghost before = views(blocks@);
                let ghost jv = j@;
                blocks.push(j);
                current = Vec::new();
                assert(views(current@) =~= Seq::<Seq<char>>::empty());
                assert(views(blocks@) =~= before.push(jv));
                assert(views(blocks@) + blocks_from(lv.skip(i + 1), views(current@)) =~= before + (seq![jv]
                    + blocks_from(lv.skip(i + 1), Seq::empty())));
            } else {
                assert(views(current@) =~= Seq::<Seq<char>>::empty());
                assert(Seq::<Seq<char>>::empty() + blocks_from(lv.skip(i + 1), Seq::empty()) =~= blocks_from(
                    lv.skip(i + 1),
                    Seq::empty(),
                ));
            }
        } else {
            let ghost cv = views(current@);
            let line = copy_range(ls[i].as_slice(), 0, ls[i].len());
            assert(ls@[i as int]@.subrange(0, ls@[i as int]@.len() as int) =~= ls@[i as int]@);
            current.push(line);
            assert(views(current@) =~= cv.push(lv[i as int]));
        }
        i += 1;
    }
    if current.len() > 0 {
        let j = join_chars(&current, nl.as_slice());
        let ghost before = views(blocks@);
        let ghost jv = j@;
        blocks.push(j);
        assert(views(blocks@) =~= before + seq![jv]);
    } else {
        assert(views(blocks@) + Seq::<Seq<char>>::empty() =~= views(blocks@));
    }
    blocks
}

/// Splits `content` into puzzle blocks.
pub fn split_puzzles(content: &[char], sep: &Sep) -> (r: Vec<Vec<char>>)
    ensures
        views(r@) == puzzle_blocks(content@, sep@),
{
    match sep {
        Sep::BlankLine => blank_line_blocks(content),
        Sep::Newline => split_lines_chars(content),
        Sep::Literal(p) => {
            let pc = str_to_chars(p.as_str());
            split_by_str(content, pc.as_slice())
        },
    }
}

/// `s` starts with `p`.
pub open spec fn starts_with(s: Seq<char>, p: Seq<char>) -> bool {
    p.len() <= s.len() && s.take(p.len() as int) == p
}

/// `s` ends with `p`.
pub open spec fn ends_with(s: Seq<char>, p: Seq<char>) -> bool {
    p.len() <= s.len() && s.skip(s.len() - p.len()) == p
}

/// First line index at or after `i` whose line is blank (or the length).
pub open spec fn first_blank(ls: Seq<Seq<char>>, i: nat) -> nat
    decreases ls.len() - i,
{
    if i < ls.len() && trim(ls[i as int]).len() != 0 {
        first_blank(ls, i + 1)
    } else {
        i
    }
}

/// First line index at or after `i` whose line is not blank (or the length).
pub open spec fn first_nonblank(ls: Seq<Seq<char>>, i: nat) -> nat
    decreases ls.len() - i,
{
    if i < ls.len() && trim(ls[i as int]).len() == 0 {
        first_nonblank(ls, i + 1)
    } else {
        i
    }
}

/// A puzzle block split into its two sections at the section separator.
/// A literal separator is first looked for as a whole line, then inline.
pub open spec fn section_split(block: Seq<char>, sep: SepModel) -> Option<(Seq<char>, Seq<char>)> {
    match sep {
        SepModel::Literal(s) => {
            let mid = "\n"@ + s + "\n"@;
            let head = s + "\n"@;
            let tail = "\n"@ + s;
            match find_from(block, mid, 0) {
                Some(p) => Some((block.take(p as int), block.skip((p + mid.len()) as int))),
                None => if starts_with(block, head) {
                    Some((Seq::empty(), block.skip(head.len() as int)))
                } else if ends_with(block, tail) {
                    Some((block.take(block.len() - tail.len()), Seq::empty()))
                } else {
                    match find_from(block, s, 0) {
                        Some(p) => Some((block.take(p as int), block.skip((p + s.len()) as int))),
                        None => None,
                    }
                },
            }
        },
        SepModel::Newline => match find_from(block, "\n"@, 0) {
            Some(p) => Some((block.take(p as int), block.skip(p + 1int))),
            None => None,
        },
        SepModel::BlankLine => {
            let ls = lines(block);
            let i = first_blank(ls, 0);
            if i < ls.len() {
                let rest = first_nonblank(ls, i);
                Some((join(ls.take(i as int), "\n"@), join(ls.skip(rest as int), "\n"@)))
            } else {
                None
            }
        },
    }
}

proof fn lemma_find_in(s: Seq<char>, p: Seq<char>)
    ensures
        match find_from(s, p, 0) {
            Some(k) => k + p.len() <= s.len(),
            None => true,
        },
{
    crate::text::lemma_find_from_bounds(s, p, 0);
}

/// Cuts `s` around the occurrence of `p` at `k`.
fn cut_around(s: &[char], k: usize, plen: usize) -> (r: (Vec<char>, Vec<char>))
    requires
        k + plen <= s@.len(),
    ensures
        r.0@ == s@.take(k as int),
        r.1@ == s@.skip(k + plen),
{
    let n = s.len();
    let a = copy_range(s, 0, k);
    let b = copy_range(s, k + plen, n);
    assert(s@.subrange(0, k as int) =~= s@.take(k as int));
    assert(s@.subrange(k + plen, s@.len() as int) =~= s@.skip(k + plen));
    (a, b)
}

/// Splits a puzzle block into its first and second sections.
pub fn split_section(block: &[char], sep: &Sep) -> (r: Option<(Vec<char>, Vec<char>)>)
    ensures
        match r {
            Some((a, b)) => section_split(block@, sep@) == Some((a@, b@)),
            None => section_split(block@, sep@) is None,
        },
{
    match sep {
        Sep::Literal(sv) => {
            let s = str_to_chars(sv.as_str());
            let mut mid: Vec<char> = Vec::new();
            extend_str(&mut mid, "\n");
            extend_chars(&mut mid, s.as_slice());
            extend_str(&mut mid, "\n");
            let mut head: Vec<char> = Vec::new();
            extend_chars(&mut head, s.as_slice());
            extend_str(&mut head, "\n");
            let mut tail: Vec<char> = Vec::new();
            extend_str(&mut tail, "\n");
            extend_chars(&mut tail, s.as_slice());
            proof {
                lemma_find_in(block@, mid@);
                lemma_find_in(block@, s@);
            }
            if let Some(p) = find_chars(block, mid.as_slice(), 0) {
                return Some(cut_around(block, p, mid.len()));
            }
            let n = block.len();
            if head.len() <= n && crate::text::occurs_at(block, head.as_slice(), 0) {
                assert(block@.subrange(0, head@.len() as int) =~= block@.take(head@.len() as int));
                let rest = copy_range(block, head.len(), n);
                assert(block@.subrange(head@.len() as int, n as int) =~= block@.skip(head@.len() as int));
                return Some((Vec::new(), rest));
            }
            if tail.len() <= n && crate::text::occurs_at(block, tail.as_slice(), n - tail.len()) {
                assert(block@.subrange(n - tail@.len(), n as int) =~= block@.skip(n - tail@.len()));
                let front = copy_range(block, 0, n - tail.len());
                assert(block@.subrange(0, n - tail@.len()) =~= block@.take(n - tail@.len()));
                return Some((front, Vec::new()));
            }
            proof {
                if head@.len() <= n {
                    assert(block@.subrange(0, head@.len() as int) =~= block@.take(head@.len() as int));
                }
                if tail@.len() <= n {
                    assert(block@.subrange(n - tail@.len(), n as int) =~= block@.skip(n - tail@.len()));
                }
            }
            match find_chars(block, s.as_slice(), 0) {
                Some(p) => Some(cut_around(block, p, s.len())),
                None => None,
            }
        },
        Sep::Newline => {
            let nl = str_to_chars("\n");
            proof {
                reveal_strlit("\n");
                lemma_find_in(block@, nl@);
            }
            match find_chars(block, nl.as_slice(), 0) {
                Some(p) => Some(cut_around(block, p, 1)),
                None => None,
            }
        },
        Sep::BlankLine => {
            let ls = split_lines_chars(block);
            let ghost lv = views(ls@);
            let mut i: usize = 0;
            while i < ls.len() && trim_chars(ls[i].as_slice()).len() != 0
                invariant
                    i <= ls@.len(),
                    lv == views(ls@),
                    first_blank(lv, 0) == first_blank(lv, i as nat),
                decreases ls@.len() - i,
            {
                assert(lv[i as int] == ls@[i as int]@);
                i += 1;
            }
            if i < ls.len() {
                assert(lv[i as int] == ls@[i as int]@);
            }
            if i >= ls.len() {
                return None;
            }
            let mut rest = i;
            while rest < ls.len() && trim_chars(ls[rest].as_slice()).len() == 0
                invariant
                    i <= rest <= ls@.len(),
                    lv == views(ls@),
                    first_nonblank(lv, i as nat) == first_nonblank(lv, rest as nat),
                decreases ls@.len() - rest,
            {
                assert(lv[rest as int] == ls@[rest as int]@);
                rest += 1;
            }
            if rest < ls.len() {
                assert(lv[rest as int] == ls@[rest as int]@);
            }
            let nl = str_to_chars("\n");
            let mut front: Vec<Vec<char>> = Vec::new();
            let mut k: usize = 0;
            while k < i
                invariant
                    k <= i <= ls@.len(),
                    lv == views(ls@),
                    views(front@) == lv.take(k as int),
                decreases i - k,
            {
                let ghost before = views(front@);
                let c = copy_range(ls[k].as_slice(), 0, ls[k].len());
                assert(ls@[k as int]@.subrange(0, ls@[k as int]@.len() as int) =~= ls@[k as int]@);
                front.push(c);
                assert(views(front@) =~= before.push(lv[k as int]));
                k += 1;
                assert(views(front@) =~= lv.take(k as int));
            }
            let mut back: Vec<Vec<char>> = Vec::new();
            let mut k: usize = rest;
            while k < ls.len()
                invariant
                    rest <= k <= ls@.len(),
                    lv == views(ls@),
                    views(back@) == lv.subrange(rest as int, k as int),
                decreases ls@.len() - k,
            {
                let ghost before = views(back@);
                let c = copy_range(ls[k].as_slice(), 0, ls[k].len());
                assert(ls@[k as int]@.subrange(0, ls@[k as int]@.len() as int) =~= ls@[k as int]@);
                back.push(c);
                assert(views(back@) =~= before.push(lv[k as int]));
                k += 1;
                assert(views(back@) =~= lv.subrange(rest as int, k as int));
            }
            assert(lv.subrange(rest as int, lv.len() as int) =~= lv.skip(rest as int));
            Some((join_chars(&front, nl.as_slice()), join_chars(&back, nl.as_slice())))
        },
    }
}

/// The clue lines of a section under the line separator `sep`: trimmed and
/// without blank ones, except that blank-line separation keeps the blocks.
pub open spec fn section_lines(section: Seq<char>, sep: SepModel) -> Seq<Seq<char>> {
    match sep {
        SepModel::BlankLine => puzzle_blocks(section, sep),
        _ => nonblank_trimmed(sep_pieces(section, sep)),
    }
}

/// Splits a section into its clue lines.
pub fn split_lines(section: &[char], sep: &Sep) -> (r: Vec<Vec<char>>)
    ensures
        views(r@) == section_lines(section@, sep@),
{
    match sep {
        Sep::BlankLine => split_puzzles(section, sep),
        _ => {
            let raw = pieces_of(section, sep);
            trim_nonblank(&raw)
        },
    }
}

/// Number of occurrences of `c` in `s`.
pub open spec fn count_char(s: Seq<char>, c: char) -> nat
    decreases s.len(),
{
    if s.len() == 0 {
        0
    } else {
        count_char(s.drop_last(), c) + (if s.last() == c { 1nat } else { 0nat })
    }
}

/// A line in the R puzzle-string style: exactly one `-`, and only digits,
/// `,`, `:` and `-`.
pub open spec fn puzzle_string_like(s: Seq<char>) -> bool {
    &&& count_char(s, '-') == 1
    &&& forall|i: int|
        0 <= i < s.len() ==> crate::scan::is_digit(#[trigger] s[i]) || s[i] == ',' || s[i] == ':' || s[i]
            == '-'
}

/// Whether a line looks like an R puzzle string (`1,2:3-4:5`).
pub fn looks_like_puzzle_string(line: &[char]) -> (r: bool)
    ensures
        r == puzzle_string_like(line@),
{
    let mut dashes: usize = 0;
    let mut ok = true;
    let mut i: usize = 0;
    while i < line.len()
        invariant
            i <= line@.len(),
            dashes == count_char(line@.take(i as int), '-'),
            dashes <= i,
            ok == forall|k: int|
                0 <= k < i ==> crate::scan::is_digit(#[trigger] line@[k]) || line@[k] == ',' || line@[k] == ':'
                    || line@[k] == '-',
        decreases line@.len() - i,
    {
        assert(line@.take(i + 1).drop_last() =~= line@.take(i as int));
        let c = line[i];
        if c == '-' {
            dashes += 1;
        }
        let u = c as u32;
        if !((0x30 <= u && u <= 0x39) || c == ',' || c == ':' || c == '-') {
            ok = false;
        }
        i += 1;
    }
    assert(line@.take(line@.len() as int) =~= line@);
    dashes == 1 && ok
}

/// Every part, trimmed, is a number.
pub open spec fn parts_numeric(ps: Seq<Seq<char>>) -> bool {
    forall|k: int| 0 <= k < ps.len() ==> parse_u32(trim(#[trigger] ps[k])) is Some
}

/// Splitting every line at `p` gives only numbers.
pub open spec fn split_numeric(ls: Seq<Seq<char>>, p: Seq<char>) -> bool {
    forall|i: int| 0 <= i < ls.len() ==> parts_numeric(split_str(#[trigger] ls[i], p))
}

/// Some line splits at `p` into two or more parts.
pub open spec fn split_multi(ls: Seq<Seq<char>>, p: Seq<char>) -> bool {
    exists|i: int| 0 <= i < ls.len() && split_str(#[trigger] ls[i], p).len() >= 2
}

/// Every line's words are numbers.
pub open spec fn words_numeric(ls: Seq<Seq<char>>) -> bool {
    forall|i: int| 0 <= i < ls.len() ==> parts_numeric(words(#[trigger] ls[i]))
}

/// Some line has two or more words.
pub open spec fn words_multi(ls: Seq<Seq<char>>) -> bool {
    exists|i: int| 0 <= i < ls.len() && words(#[trigger] ls[i]).len() >= 2
}

/// The clue separator the sample lines suggest: `;`, then `,`, then
/// whitespace, the first under which every part is a number and some line
/// has several parts.
pub open spec fn clue_sep_guess(ls: Seq<Seq<char>>) -> Option<SepModel> {
    if split_numeric(ls, ";"@) && split_multi(ls, ";"@) {
        Some(SepModel::Literal(";"@))
    } else if split_numeric(ls, ","@) && split_multi(ls, ","@) {
        Some(SepModel::Literal(","@))
    } else if words_numeric(ls) && words_multi(ls) {
        Some(SepModel::Literal(" "@))
    } else {
        None
    }
}

/// Whether every part, trimmed, is a number.
fn all_parts_numeric(ps: &Vec<Vec<char>>) -> (r: bool)
    ensures
        r == parts_numeric(views(ps@)),
{
    let mut k: usize = 0;
    while k < ps.len()
        invariant
            k <= ps@.len(),
            forall|m: int| 0 <= m < k ==> parse_u32(trim(#[trigger] views(ps@)[m])) is Some,
        decreases ps@.len() - k,
    {
        let t = trim_chars(ps[k].as_slice());
        assert(views(ps@)[k as int] == ps@[k as int]@);
        if parse_u32_chars(t.as_slice()).is_none() {
            return false;
        }
        k += 1;
    }
    true
}

/// Whether splitting at `p` fits the lines: (all numeric, some multi-part).
fn split_fits(lines: &Vec<Vec<char>>, p: &str) -> (r: (bool, bool))
    ensures
        r.0 == split_numeric(views(lines@), p@),
        r.0 ==> r.1 == split_multi(views(lines@), p@),
{
    let pc = str_to_chars(p);
    let ghost lv = views(lines@);
    let mut multi = false;
    let mut i: usize = 0;
    while i < lines.len()
        invariant
            i <= lines@.len(),
            lv == views(lines@),
            pc@ == p@,
            forall|k: int| 0 <= k < i ==> parts_numeric(split_str(#[trigger] lv[k], p@)),
            multi == exists|k: int| 0 <= k < i && split_str(#[trigger] lv[k], p@).len() >= 2,
        decreases lines@.len() - i,
    {
        let parts = split_by_str(lines[i].as_slice(), pc.as_slice());
        assert(lv[i as int] == lines@[i as int]@);
        if parts.len() >= 2 {
            multi = true;
        }
        if !all_parts_numeric(&parts) {
            return (false, multi);
        }
        i += 1;
    }
    (true, multi)
}

/// Whether the lines' words fit: (all numeric, some line with several).
fn words_fit(lines: &Vec<Vec<char>>) -> (r: (bool, bool))
    ensures
        r.0 == words_numeric(views(lines@)),
        r.0 ==> r.1 == words_multi(views(lines@)),
{
    let ghost lv = views(lines@);
    let mut multi = false;
    let mut i: usize = 0;
    while i < lines.len()
        invariant
            i <= lines@.len(),
            lv == views(lines@),
            forall|k: int| 0 <= k < i ==> parts_numeric(words(#[trigger] lv[k])),
            multi == exists|k: int| 0 <= k < i && words(#[trigger] lv[k]).len() >= 2,
        decreases lines@.len() - i,
    {
        let parts = split_words(lines[i].as_slice());
        assert(lv[i as int] == lines@[i as int]@);
        if parts.len() >= 2 {
            multi = true;
        }
        let ghost pv = views(parts@);
        let mut k: usize = 0;
        while k < parts.len()
            invariant
                k <= parts@.len(),
                i < lines@.len(),
                lv == views(lines@),
                pv == views(parts@),
                pv == words(lv[i as int]),
                forall|m: int| 0 <= m < k ==> parse_u32(trim(#[trigger] pv[m])) is Some,
            decreases parts@.len() - k,
        {
            assert(pv[k as int] == parts@[k as int]@);
            proof {
                lemma_word_trimmed(lv[i as int], k as int);
            }
            if parse_u32_chars(parts[k].as_slice()).is_none() {
                assert(!parts_numeric(words(lv[i as int])));
                return (false, multi);
            }
            k += 1;
        }
        i += 1;
    }
    (true, multi)
}

/// A word has no surrounding whitespace.
proof fn lemma_word_trimmed(s: Seq<char>, k: int)
    requires
        0 <= k < words(s).len(),
    ensures
        trim(words(s)[k]) == words(s)[k],
{
    lemma_words_no_ws(s, Seq::empty());
    let w = words(s)[k];
    assert(no_ws(w));
    if w.len() > 0 {
        assert(!is_ws(w[0]));
        assert(!is_ws(w[w.len() - 1]));
    }
}

/// `w` holds no whitespace.
pub open spec fn no_ws(w: Seq<char>) -> bool {
    forall|j: int| 0 <= j < w.len() ==> !is_ws(#[trigger] w[j])
}

/// Every word is free of whitespace.
proof fn lemma_words_no_ws(s: Seq<char>, cur: Seq<char>)
    requires
        no_ws(cur),
    ensures
        forall|k: int|
            0 <= k < crate::text::words_from(s, cur).len() ==> no_ws(#[trigger] crate::text::words_from(s, cur)[k]),
    decreases s.len(),
{
    let r = crate::text::words_from(s, cur);
    if s.len() == 0 {
        if cur.len() > 0 {
            assert(r[0] == cur);
        }
    } else if is_ws(s[0]) {
        lemma_words_no_ws(s.drop_first(), Seq::empty());
        let pre = if cur.len() > 0 { seq![cur] } else { Seq::<Seq<char>>::empty() };
        let rest = crate::text::words_from(s.drop_first(), Seq::empty());
        assert(r == pre + rest);
        assert forall|k: int| 0 <= k < r.len() implies no_ws(#[trigger] r[k]) by {
            if k < pre.len() {
                assert(r[k] == cur);
            } else {
                assert(r[k] == rest[k - pre.len()]);
            }
        }
    } else {
        let c2 = cur.push(s[0]);
        assert forall|j: int| 0 <= j < c2.len() implies !is_ws(#[trigger] c2[j]) by {
            if j < cur.len() {
                assert(c2[j] == cur[j]);
            }
        }
        lemma_words_no_ws(s.drop_first(), c2);
        assert(r == crate::text::words_from(s.drop_first(), c2));
    }
}

/// Guesses the clue separator from sample lines.
pub fn detect_clue_sep(lines: &Vec<Vec<char>>) -> (r: Option<Sep>)
    ensures
        match r {
            Some(s) => clue_sep_guess(views(lines@)) == Some(s@),
            None => clue_sep_guess(views(lines@)) is None,
        },
{
    let (ok, multi) = split_fits(lines, ";");
    if ok && multi {
        return Some(Sep::Literal(owned(";")));
    }
    let (ok, multi) = split_fits(lines, ",");
    if ok && multi {
        return Some(Sep::Literal(owned(",")));
    }
    let (ok, multi) = words_fit(lines);
    if ok && multi {
        return Some(Sep::Literal(owned(" ")));
    }
    None
}

/// The next puzzle number (a `usize` counter that wraps around).
pub open spec fn next_num(n: nat) -> nat {
    if n >= usize::MAX { 0 } else { n + 1 }
}

/// The clue lists of lines `i..` of a section, or the index and error of
/// the first line that is malformed.
pub open spec fn clue_rows_from(ls: Seq<Seq<char>>, sep: SepModel, i: nat) -> Result<Seq<Seq<u32>>, (nat, Seq<char>)>
    decreases ls.len() - i,
{
    if i >= ls.len() {
        Ok(Seq::empty())
    } else {
        match generic_clue(ls[i as int], sep) {
            Err(e) => Err((i, e)),
            Ok(q) => match clue_rows_from(ls, sep, i + 1) {
                Ok(r) => Ok(seq![q] + r),
                Err(x) => Err(x),
            },
        }
    }
}

/// The warning for a skipped puzzle or block.
pub open spec fn skip_warning(kind: Seq<char>, num: nat, what: Seq<char>) -> OutModel {
    OutModel::Stderr("Warning: "@ + kind + " "@ + decimal(num) + what + " — skipping."@)
}

/// The output of one trimmed generic block, and whether it gave a puzzle.
pub open spec fn generic_block(block: Seq<char>, prefix: Seq<char>, c: ConfigModel, col_major: bool, num: nat) -> (
    Seq<OutModel>,
    bool,
) {
    if block.len() == 0 {
        (Seq::empty(), false)
    } else {
        match section_split(block, c.section) {
            None => (
                seq![skip_warning("puzzle"@, num, " has no "@ + sep_shown(c.section) + " section separator"@)],
                false,
            ),
            Some(ab) => {
                let rs = if col_major { ab.1 } else { ab.0 };
                let cs = if col_major { ab.0 } else { ab.1 };
                match clue_rows_from(section_lines(rs, c.line), c.clue, 0) {
                    Err(x) => (seq![skip_warning("puzzle"@, num, " row "@ + decimal(x.0) + ": "@ + x.1)], false),
                    Ok(rows) => match clue_rows_from(section_lines(cs, c.line), c.clue, 0) {
                        Err(x) => (seq![skip_warning("puzzle"@, num, " col "@ + decimal(x.0) + ": "@ + x.1)], false),
                        Ok(cols) => (emit_model(prefix, num, cols, rows), true),
                    },
                }
            },
        }
    }
}

/// The output for blocks `k..`, numbering puzzles from `num`.
pub open spec fn generic_from(
    blocks: Seq<Seq<char>>,
    prefix: Seq<char>,
    c: ConfigModel,
    col_major: bool,
    num: nat,
    k: nat,
) -> Seq<OutModel>
    decreases blocks.len() - k,
{
    if k >= blocks.len() {
        Seq::empty()
    } else {
        let (o, ok) = generic_block(trim(blocks[k as int]), prefix, c, col_major, num);
        o + generic_from(blocks, prefix, c, col_major, if ok { next_num(num) } else { num }, k + 1)
    }
}

/// Parses every clue line of a section; on a malformed line, its index
/// and error.
fn parse_clue_lines(ls: &Vec<Vec<char>>, sep: &Sep) -> (r: Result<Vec<Vec<u32>>, (usize, String)>)
    ensures
        match r {
            Ok(v) => clue_rows_from(views(ls@), sep@, 0) == Ok::<Seq<Seq<u32>>, (nat, Seq<char>)>(
                crate::types::clue_lists(v@),
            ),
            Err((i, e)) => clue_rows_from(views(ls@), sep@, 0) == Err::<Seq<Seq<u32>>, (nat, Seq<char>)>(
                (i as nat, e@),
            ),
        },
{
    let ghost lv = views(ls@);
    let mut out: Vec<Vec<u32>> = Vec::new();
    let mut i: usize = 0;
    assert(crate::types::clue_lists(out@) + Seq::<Seq<u32>>::empty() =~= crate::types::clue_lists(out@));
    while i < ls.len()
        invariant
            i <= ls@.len(),
            lv == views(ls@),
            clue_rows_from(lv, sep@, 0) == match clue_rows_from(lv, sep@, i as nat) {
                Ok(r) => Ok(crate::types::clue_lists(out@) + r),
                Err(x) => Err::<Seq<Seq<u32>>, (nat, Seq<char>)>(x),
            },
        decreases ls@.len() - i,
    {
        assert(lv[i as int] == ls@[i as int]@);
        match parse_generic_clue(ls[i].as_slice(), sep) {
            Err(e) => {
                return Err((i, e));
            },
            Ok(q) => {
                let ghost before = crate::types::clue_lists(out@);
                let ghost qv = q@;
                out.push(q);
                proof {
                    assert(crate::types::clue_lists(out@) =~= before.push(qv));
                    match clue_rows_from(lv, sep@, (i + 1) as nat) {
                        Ok(t) => {
                            assert(before + (seq![qv] + t) =~= crate::types::clue_lists(out@) + t);
                        },
                        Err(x) => {},
                    }
                }
            },
        }
        i += 1;
    }
    assert(crate::types::clue_lists(out@) + Seq::<Seq<u32>>::empty() =~= crate::types::clue_lists(out@));
    Ok(out)
}

/// Appends a skip warning.
fn push_skip(out: &mut Vec<Output>, kind: &str, num: usize, what: &[char])
    ensures
        outs(final(out)@) == outs(old(out)@).push(skip_warning(kind@, num as nat, what@)),
{
    let mut v: Vec<char> = Vec::new();
    extend_str(&mut v, "Warning: ");
    extend_str(&mut v, kind);
    extend_str(&mut v, " ");
    extend_decimal(&mut v, num as u64);
    extend_chars(&mut v, what);
    extend_str(&mut v, " — skipping.");
    let ghost o = outs(out@);
    out.push(Output::Stderr(chars_to_string(v.as_slice())));
    assert(outs(out@) =~= o.push(skip_warning(kind@, num as nat, what@)));
}

/// The text `" row 3: msg"` of a line error.
fn line_error_text(which: &str, i: usize, e: &String) -> (r: Vec<char>)
    ensures
        r@ == which@ + decimal(i as nat) + ": "@ + e@,
{
    let mut v: Vec<char> = Vec::new();
    extend_str(&mut v, which);
    extend_decimal(&mut v, i as u64);
    extend_str(&mut v, ": ");
    extend_str(&mut v, e.as_str());
    v
}

/// Converts one trimmed block with custom separators; whether it gave a
/// puzzle.
fn convert_block(
    out: &mut Vec<Output>,
    block: &[char],
    name_prefix: &str,
    config: &SeparatorConfig,
    col_major: bool,
    puzzle_num: usize,
) -> (ok: bool)
    ensures
        outs(final(out)@) == outs(old(out)@) + generic_block(block@, name_prefix@, config@, col_major, puzzle_num as nat).0,
        ok == generic_block(block@, name_prefix@, config@, col_major, puzzle_num as nat).1,
{
    let ghost o0 = outs(out@);
    let ghost res = generic_block(block@, name_prefix@, config@, col_major, puzzle_num as nat);
    if block.len() == 0 {
        assert(outs(out@) =~= o0 + res.0);
        return false;
    }
    match split_section(block, &config.section) {
        None => {
            let d = sep_display(&config.section);
            let mut w: Vec<char> = Vec::new();
            extend_str(&mut w, " has no ");
            extend_str(&mut w, d.as_str());
            extend_str(&mut w, " section separator");
            push_skip(out, "puzzle", puzzle_num, w.as_slice());
            assert(outs(out@) =~= o0 + res.0);
            false
        },
        Some((first, second)) => {
            let (row_section, col_section) = if col_major {
                (second, first)
            } else {
                (first, second)
            };
            let row_lines = split_lines(row_section.as_slice(), &config.line);
            match parse_clue_lines(&row_lines, &config.clue) {
                Err((i, e)) => {
                    let w = line_error_text(" row ", i, &e);
                    push_skip(out, "puzzle", puzzle_num, w.as_slice());
                    assert(outs(out@) =~= o0 + res.0);
                    false
                },
                Ok(row_clues) => {
                    let col_lines = split_lines(col_section.as_slice(), &config.line);
                    match parse_clue_lines(&col_lines, &config.clue) {
                        Err((i, e)) => {
                            let w = line_error_text(" col ", i, &e);
                            push_skip(out, "puzzle", puzzle_num, w.as_slice());
                            assert(outs(out@) =~= o0 + res.0);
                            false
                        },
                        Ok(col_clues) => {
                            emit(out, name_prefix, puzzle_num, &col_clues, &row_clues);
                            true
                        },
                    }
                },
            }
        },
    }
}

/// Converts a file with custom separators.
pub fn convert_generic(content: &[char], name_prefix: &str, config: &SeparatorConfig, col_major: bool) -> (r: Vec<
    Output,
>)
    ensures
        outs(r@) == generic_from(puzzle_blocks(content@, config.puzzle@), name_prefix@, config@, col_major, 1, 0),
{
    let blocks = split_puzzles(content, &config.puzzle);
    let ghost bv = views(blocks@);
    let mut out: Vec<Output> = Vec::new();
    let mut puzzle_num: usize = 1;
    let mut k: usize = 0;
    assert(outs(out@) =~= Seq::<OutModel>::empty());
    while k < blocks.len()
        invariant
            k <= blocks@.len(),
            bv == views(blocks@),
            generic_from(bv, name_prefix@, config@, col_major, 1, 0) == outs(out@) + generic_from(
                bv,
                name_prefix@,
                config@,
                col_major,
                puzzle_num as nat,
                k as nat,
            ),
        decreases blocks@.len() - k,
    {
        assert(bv[k as int] == blocks@[k as int]@);
        let block = trim_chars(blocks[k].as_slice());
        if convert_block(&mut out, block.as_slice(), name_prefix, config, col_major, puzzle_num) {
            puzzle_num = puzzle_num.wrapping_add(1);
        }
        k += 1;
    }
    assert(outs(out@) + Seq::<OutModel>::empty() =~= outs(out@));
    out
}

/// The output of one pending letter block, and the next puzzle number.
pub open spec fn letter_flush(pending: Seq<Seq<char>>, prefix: Seq<char>, num: nat, col_major: bool) -> (
    Seq<OutModel>,
    nat,
) {
    if pending.len() == 0 {
        (Seq::empty(), num)
    } else if pending.len() != 2 {
        (
            seq![skip_warning("block"@, num, " has "@ + decimal(pending.len()) + " line(s), expected 2"@)],
            num,
        )
    } else {
        let first = if col_major { pending[1] } else { pending[0] };
        let second = if col_major { pending[0] } else { pending[1] };
        match letter_lines(words(first)) {
            Err(e) => (seq![skip_warning("block"@, num, " row error: "@ + e)], num),
            Ok(rows) => match letter_lines(words(second)) {
                Err(e) => (seq![skip_warning("block"@, num, " col error: "@ + e)], num),
                Ok(cols) => (emit_model(prefix, num, cols, rows), next_num(num)),
            },
        }
    }
}

/// The output for lines `k..` of a letter file, with `pending` the
/// trimmed lines of the block being read.
pub open spec fn letter_from(
    ls: Seq<Seq<char>>,
    pending: Seq<Seq<char>>,
    prefix: Seq<char>,
    num: nat,
    col_major: bool,
    k: nat,
) -> Seq<OutModel>
    decreases ls.len() - k,
{
    if k >= ls.len() {
        letter_flush(pending, prefix, num, col_major).0
    } else if trim(ls[k as int]).len() == 0 {
        let (o, n2) = letter_flush(pending, prefix, num, col_major);
        o + letter_from(ls, Seq::empty(), prefix, n2, col_major, k + 1)
    } else {
        letter_from(ls, pending.push(trim(ls[k as int])), prefix, num, col_major, k + 1)
    }
}

/// Converts one pending block of a letter file: two lines, rows then
/// columns (or the reverse when column-major).
pub fn flush_letter(
    out: &mut Vec<Output>,
    lines: &Vec<Vec<char>>,
    name_prefix: &str,
    current_num: usize,
    next_num_out: &mut usize,
    col_major: bool,
)
    requires
        *old(next_num_out) == current_num,
    ensures
        outs(final(out)@) == outs(old(out)@) + letter_flush(views(lines@), name_prefix@, current_num as nat, col_major).0,
        *final(next_num_out) as nat == letter_flush(views(lines@), name_prefix@, current_num as nat, col_major).1,
{
    let ghost o0 = outs(out@);
    let ghost lv = views(lines@);
    if lines.len() == 0 {
        assert(outs(out@) =~= o0 + Seq::<OutModel>::empty());
        return;
    }
    if lines.len() != 2 {
        let mut w: Vec<char> = Vec::new();
        extend_str(&mut w, " has ");
        extend_decimal(&mut w, lines.len() as u64);
        extend_str(&mut w, " line(s), expected 2");
        push_skip(out, "block", current_num, w.as_slice());
        assert(outs(out@) =~= o0 + letter_flush(lv, name_prefix@, current_num as nat, col_major).0);
        return;
    }
    assert(lv[0] == lines@[0]@ && lv[1] == lines@[1]@);
    let (first, second) = if col_major { (&lines[1], &lines[0]) } else { (&lines[0], &lines[1]) };
    let row_clues = match decode_letter_line(first.as_slice()) {
        Ok(c) => c,
        Err(e) => {
            let mut w: Vec<char> = Vec::new();
            extend_str(&mut w, " row error: ");
            extend_str(&mut w, e.as_str());
            push_skip(out, "block", current_num, w.as_slice());
            assert(outs(out@) =~= o0 + letter_flush(lv, name_prefix@, current_num as nat, col_major).0);
            return;
        },
    };
    let col_clues = match decode_letter_line(second.as_slice()) {
        Ok(c) => c,
        Err(e) => {
            let mut w: Vec<char> = Vec::new();
            extend_str(&mut w, " col error: ");
            extend_str(&mut w, e.as_str());
            push_skip(out, "block", current_num, w.as_slice());
            assert(outs(out@) =~= o0 + letter_flush(lv, name_prefix@, current_num as nat, col_major).0);
            return;
        },
    };
    emit(out, name_prefix, current_num, &col_clues, &row_clues);
    *next_num_out = (*next_num_out).wrapping_add(1);
}

/// Converts a letter-encoded file: blocks of two lines separated by blank
/// lines, row clues then column clues, `A` = 1 … `Z` = 26.
pub fn convert_letter(content: &[char], name_prefix: &str, col_major: bool) -> (r: Vec<Output>)
    ensures
        outs(r@) == letter_from(lines(content@), Seq::empty(), name_prefix@, 1, col_major, 0),
{
    let ls = split_lines_chars(content);
    let ghost lv = views(ls@);
    let mut out: Vec<Output> = Vec::new();
    let mut puzzle_num: usize = 1;
    let mut pending: Vec<Vec<char>> = Vec::new();
    let mut k: usize = 0;
    assert(outs(out@) =~= Seq::<OutModel>::empty());
    assert(views(pending@) =~= Seq::<Seq<char>>::empty());
    while k < ls.len()
        invariant
            k <= ls@.len(),
            lv == views(ls@),
            letter_from(lv, Seq::empty(), name_prefix@, 1, col_major, 0) == outs(out@) + letter_from(
                lv,
                views(pending@),
                name_prefix@,
                puzzle_num as nat,
                col_major,
                k as nat,
            ),
        decreases ls@.len() - k,
    {
        assert(lv[k as int] == ls@[k as int]@);
        let line = trim_chars(ls[k].as_slice());
        if line.len() == 0 {
            let ghost o0 = outs(out@);
            let current = puzzle_num;
            flush_letter(&mut out, &pending, name_prefix, current, &mut puzzle_num, col_major);
            pending = Vec::new();
            assert(views(pending@) =~= Seq::<Seq<char>>::empty());
        } else {
            let ghost pv = views(pending@);
            let ghost lvk = line@;
            pending.push(line);
            assert(views(pending@) =~= pv.push(lvk));
        }
        k += 1;
    }
    let current = puzzle_num;
    flush_letter(&mut out, &pending, name_prefix, current, &mut puzzle_num, col_major);
    out
}

/// The two styles of one-clue-per-line files.
#[derive(Clone, Copy, Debug, PartialEq, Eq, Structural)]
pub enum ColumnsStyle {
    /// Values separated by semicolons.
    Semicolon,
    /// Values separated by whitespace.
    Plain,
}

/// The clue list of one line in the given style.
pub open spec fn styled_clue(style: ColumnsStyle, line: Seq<char>) -> Result<Seq<u32>, Seq<char>> {
    match style {
        ColumnsStyle::Semicolon => semicolon_clue(line),
        ColumnsStyle::Plain => plain_clue(line),
    }
}

/// The clue lists of lines `i..`, or the index and error of the first
/// malformed one.
pub open spec fn styled_rows_from(ls: Seq<Seq<char>>, style: ColumnsStyle, i: nat) -> Result<
    Seq<Seq<u32>>,
    (nat, Seq<char>),
>
    decreases ls.len() - i,
{
    if i >= ls.len() {
        Ok(Seq::empty())
    } else {
        match styled_clue(style, ls[i as int]) {
            Err(e) => Err((i, e)),
            Ok(q) => match styled_rows_from(ls, style, i + 1) {
                Ok(r) => Ok(seq![q] + r),
                Err(x) => Err(x),
            },
        }
    }
}

/// `a` equals `b` up to ASCII case.
pub open spec fn same_ignoring_case(a: Seq<char>, b: Seq<char>) -> bool {
    a.len() == b.len() && forall|i: int| 0 <= i < a.len() ==> crate::scan::folded(#[trigger] a[i])
        == crate::scan::folded(b[i])
}

/// Index of the first line spelling `COLUMNS` in any case.
pub open spec fn columns_index(ls: Seq<Seq<char>>, i: nat) -> Option<nat>
    decreases ls.len() - i,
{
    if i >= ls.len() {
        None
    } else if same_ignoring_case(ls[i as int], "COLUMNS"@) {
        Some(i)
    } else {
        columns_index(ls, i + 1)
    }
}

/// The output of one block of a columns-style file, and the next number.
pub open spec fn columns_flush(
    block: Seq<Seq<char>>,
    prefix: Seq<char>,
    num: nat,
    style: ColumnsStyle,
    col_major: bool,
) -> (Seq<OutModel>, nat) {
    if block.len() == 0 {
        (Seq::empty(), num)
    } else {
        match columns_index(block, 0) {
            None => (seq![skip_warning("block"@, num, " has no COLUMNS separator"@)], num),
            Some(idx) => {
                let first = block.take(idx as int);
                let second = block.skip(idx + 1int);
                let row_lines = if col_major { second } else { first };
                let col_lines = if col_major { first } else { second };
                match styled_rows_from(row_lines, style, 0) {
                    Err(x) => (seq![skip_warning("block"@, num, " row "@ + decimal(x.0) + ": "@ + x.1)], num),
                    Ok(rows) => match styled_rows_from(col_lines, style, 0) {
                        Err(x) => (seq![skip_warning("block"@, num, " col "@ + decimal(x.0) + ": "@ + x.1)], num),
                        Ok(cols) => (emit_model(prefix, num, cols, rows), next_num(num)),
                    },
                }
            },
        }
    }
}

/// The output for lines `k..` of a columns-style file, with `block` the
/// trimmed lines read so far.
pub open spec fn columns_from(
    ls: Seq<Seq<char>>,
    block: Seq<Seq<char>>,
    prefix: Seq<char>,
    num: nat,
    style: ColumnsStyle,
    col_major: bool,
    k: nat,
) -> Seq<OutModel>
    decreases ls.len() - k,
{
    if k >= ls.len() {
        columns_flush(block, prefix, num, style, col_major).0
    } else if trim(ls[k as int]).len() == 0 {
        let (o, n2) = columns_flush(block, prefix, num, style, col_major);
        o + columns_from(ls, Seq::empty(), prefix, n2, style, col_major, k + 1)
    } else {
        columns_from(ls, block.push(trim(ls[k as int])), prefix, num, style, col_major, k + 1)
    }
}

/// Whether `a` spells `COLUMNS` in any case.
fn is_columns_keyword(a: &[char]) -> (r: bool)
    ensures
        r == same_ignoring_case(a@, "COLUMNS"@),
{
    let kw = str_to_chars("COLUMNS");
    if a.len() != kw.len() {
        return false;
    }
    let mut i: usize = 0;
    while i < a.len()
        invariant
            i <= a@.len(),
            a@.len() == kw@.len(),
            kw@ == "COLUMNS"@,
            forall|k: int| 0 <= k < i ==> crate::scan::folded(#[trigger] a@[k]) == crate::scan::folded(kw@[k]),
        decreases a@.len() - i,
    {
        if crate::scan::fold_case(a[i]) != crate::scan::fold_case(kw[i]) {
            return false;
        }
        i += 1;
    }
    true
}

/// Parses one clue line in the given style.
pub fn parse_styled(style: ColumnsStyle, line: &[char]) -> (r: Result<Vec<u32>, String>)
    ensures
        match r {
            Ok(v) => styled_clue(style, line@) == Ok::<Seq<u32>, Seq<char>>(v@),
            Err(e) => styled_clue(style, line@) == Err::<Seq<u32>, Seq<char>>(e@),
        },
{
    match style {
        ColumnsStyle::Semicolon => parse_semicolon_line(line),
        ColumnsStyle::Plain => parse_plain_line(line),
    }
}

/// Parses lines `from..to` in the given style; on a malformed line, its
/// index within the range and error.
fn parse_styled_range(ls: &Vec<Vec<char>>, from: usize, to: usize, style: ColumnsStyle) -> (r: Result<
    Vec<Vec<u32>>,
    (usize, String),
>)
    requires
        from <= to <= ls@.len(),
    ensures
        match r {
            Ok(v) => styled_rows_from(views(ls@).subrange(from as int, to as int), style, 0) == Ok::<
                Seq<Seq<u32>>,
                (nat, Seq<char>),
            >(crate::types::clue_lists(v@)),
            Err((i, e)) => styled_rows_from(views(ls@).subrange(from as int, to as int), style, 0) == Err::<
                Seq<Seq<u32>>,
                (nat, Seq<char>),
            >((i as nat, e@)),
        },
{
    let ghost lv = views(ls@).subrange(from as int, to as int);
    let mut out: Vec<Vec<u32>> = Vec::new();
    let mut i: usize = 0;
    assert(crate::types::clue_lists(out@) + Seq::<Seq<u32>>::empty() =~= crate::types::clue_lists(out@));
    while i < to - from
        invariant
            from <= to <= ls@.len(),
            i <= to - from,
            lv == views(ls@).subrange(from as int, to as int),
            styled_rows_from(lv, style, 0) == match styled_rows_from(lv, style, i as nat) {
                Ok(r) => Ok(crate::types::clue_lists(out@) + r),
                Err(x) => Err::<Seq<Seq<u32>>, (nat, Seq<char>)>(x),
            },
        decreases to - from - i,
    {
        assert(lv[i as int] == ls@[from + i]@);
        match parse_styled(style, ls[from + i].as_slice()) {
            Err(e) => {
                return Err((i, e));
            },
            Ok(q) => {
                let ghost before = crate::types::clue_lists(out@);
                let ghost qv = q@;
                out.push(q);
                proof {
                    assert(crate::types::clue_lists(out@) =~= before.push(qv));
                    match styled_rows_from(lv, style, (i + 1) as nat) {
                        Ok(t) => {
                            assert(before + (seq![qv] + t) =~= crate::types::clue_lists(out@) + t);
                        },
                        Err(x) => {},
                    }
                }
            },
        }
        i += 1;
    }
    assert(crate::types::clue_lists(out@) + Seq::<Seq<u32>>::empty() =~= crate::types::clue_lists(out@));
    Ok(out)
}

/// Converts one block of a columns-style file.
pub fn flush_columns(
    out: &mut Vec<Output>,
    lines: &Vec<Vec<char>>,
    name_prefix: &str,
    current_num: usize,
    next_num_out: &mut usize,
    style: ColumnsStyle,
    col_major: bool,
)
    requires
        *old(next_num_out) == current_num,
    ensures
        outs(final(out)@) == outs(old(out)@) + columns_flush(
            views(lines@),
            name_prefix@,
            current_num as nat,
            style,
            col_major,
        ).0,
        *final(next_num_out) as nat == columns_flush(views(lines@), name_prefix@, current_num as nat, style, col_major).1,
{
    let ghost o0 = outs(out@);
    let ghost lv = views(lines@);
    let ghost want = columns_flush(lv, name_prefix@, current_num as nat, style, col_major);
    if lines.len() == 0 {
        assert(outs(out@) =~= o0 + Seq::<OutModel>::empty());
        return;
    }
    let mut idx: usize = 0;
    while idx < lines.len() && !is_columns_keyword(lines[idx].as_slice())
        invariant
            idx <= lines@.len(),
            lv == views(lines@),
            columns_index(lv, 0) == columns_index(lv, idx as nat),
        decreases lines@.len() - idx,
    {
        assert(lv[idx as int] == lines@[idx as int]@);
        idx += 1;
    }
    if idx < lines.len() {
        assert(lv[idx as int] == lines@[idx as int]@);
    }
    if idx >= lines.len() {
        let w = str_to_chars(" has no COLUMNS separator");
        push_skip(out, "block", current_num, w.as_slice());
        assert(outs(out@) =~= o0 + want.0);
        return;
    }
    let n = lines.len();
    let (r0, r1, c0, c1) = if col_major { (idx + 1, n, 0, idx) } else { (0, idx, idx + 1, n) };
    proof {
        assert(lv.take(idx as int) =~= lv.subrange(0, idx as int));
        assert(lv.skip(idx + 1) =~= lv.subrange(idx + 1, n as int));
    }
    let row_clues = match parse_styled_range(lines, r0, r1, style) {
        Ok(c) => c,
        Err((i, e)) => {
            let w = line_error_text(" row ", i, &e);
            push_skip(out, "block", current_num, w.as_slice());
            assert(outs(out@) =~= o0 + want.0);
            return;
        },
    };
    let col_clues = match parse_styled_range(lines, c0, c1, style) {
        Ok(c) => c,
        Err((i, e)) => {
            let w = line_error_text(" col ", i, &e);
            push_skip(out, "block", current_num, w.as_slice());
            assert(outs(out@) =~= o0 + want.0);
            return;
        },
    };
    emit(out, name_prefix, current_num, &col_clues, &row_clues);
    *next_num_out = (*next_num_out).wrapping_add(1);
}

/// Converts a columns-style file: blocks separated by blank lines, one clue
/// per line, a `COLUMNS` line between row clues and column clues.
pub fn convert_columns_style(content: &[char], name_prefix: &str, style: ColumnsStyle, col_major: bool) -> (r: Vec<
    Output,
>)
    ensures
        outs(r@) == columns_from(lines(content@), Seq::empty(), name_prefix@, 1, style, col_major, 0),
{
    let ls = split_lines_chars(content);
    let ghost lv = views(ls@);
    let mut out: Vec<Output> = Vec::new();
    let mut puzzle_num: usize = 1;
    let mut block: Vec<Vec<char>> = Vec::new();
    let mut k: usize = 0;
    assert(outs(out@) =~= Seq::<OutModel>::empty());
    assert(views(block@) =~= Seq::<Seq<char>>::empty());
    while k < ls.len()
        invariant
            k <= ls@.len(),
            lv == views(ls@),
            columns_from(lv, Seq::empty(), name_prefix@, 1, style, col_major, 0) == outs(out@) + columns_from(
                lv,
                views(block@),
                name_prefix@,
                puzzle_num as nat,
                style,
                col_major,
                k as nat,
            ),
        decreases ls@.len() - k,
    {
        assert(lv[k as int] == ls@[k as int]@);
        let line = trim_chars(ls[k].as_slice());
        if line.len() == 0 {
            let current = puzzle_num;
            flush_columns(&mut out, &block, name_prefix, current, &mut puzzle_num, style, col_major);
            block = Vec::new();
            assert(views(block@) =~= Seq::<Seq<char>>::empty());
        } else {
            let ghost bv = views(block@);
            let ghost lvk = line@;
            block.push(line);
            assert(views(block@) =~= bv.push(lvk));
        }
        k += 1;
    }
    let current = puzzle_num;
    flush_columns(&mut out, &block, name_prefix, current, &mut puzzle_num, style, col_major);
    out
}

/// Converts a columns-style file with `;`-separated values.
pub fn convert_semicolon(content: &[char], name_prefix: &str, col_major: bool) -> (r: Vec<Output>)
    ensures
        outs(r@) == columns_from(lines(content@), Seq::empty(), name_prefix@, 1, ColumnsStyle::Semicolon, col_major, 0),
{
    convert_columns_style(content, name_prefix, ColumnsStyle::Semicolon, col_major)
}

/// Converts a columns-style file with whitespace-separated values.
pub fn convert_plain(content: &[char], name_prefix: &str, col_major: bool) -> (r: Vec<Output>)
    ensures
        outs(r@) == columns_from(lines(content@), Seq::empty(), name_prefix@, 1, ColumnsStyle::Plain, col_major, 0),
{
    convert_columns_style(content, name_prefix, ColumnsStyle::Plain, col_major)
}

/// The lines, in order, that satisfy `keep` (by their trimmed text).
pub open spec fn lines_where(ls: Seq<Seq<char>>, keep: spec_fn(Seq<char>) -> bool) -> Seq<Seq<char>>
    decreases ls.len(),
{
    if ls.len() == 0 {
        Seq::empty()
    } else {
        lines_where(ls.drop_last(), keep) + (if keep(trim(ls.last())) { seq![ls.last()] } else { Seq::empty() })
    }
}

/// A trimmed line that is not blank.
pub open spec fn not_blank(t: Seq<char>) -> bool {
    t.len() > 0
}

/// A trimmed line that is neither blank nor the `COLUMNS` keyword.
pub open spec fn clue_content(t: Seq<char>) -> bool {
    t.len() > 0 && !same_ignoring_case(t, "COLUMNS"@)
}

/// A line made only of upper-case ASCII letters and spaces.
pub open spec fn letters_only(l: Seq<char>) -> bool {
    forall|i: int| 0 <= i < l.len() ==> is_upper(#[trigger] l[i]) || l[i] == ' '
}

/// The first `n` entries, or all of them.
pub open spec fn first_n<T>(s: Seq<T>, n: nat) -> Seq<T> {
    if s.len() <= n { s } else { s.take(n as int) }
}

/// The note closing a separator report.
pub open spec fn major_order_note() -> Seq<char> {
    "  Note: major order not deduced — add -r (rows first) or -c (cols first)"@
}

/// What detect mode reports, one message line per entry.
pub open spec fn detect_report(content: Seq<char>, filename: Seq<char>) -> Seq<Seq<char>> {
    let ls = lines(content);
    let nonempty = lines_where(ls, |t: Seq<char>| not_blank(t));
    if nonempty.len() == 0 {
        seq!["Detect: '"@ + filename + "' appears to be empty."@]
    } else if forall|i: int| 0 <= i < nonempty.len() ==> letters_only(#[trigger] nonempty[i]) {
        seq!["Detected letter encoding (A=1 … Z=26) for '"@ + filename + "'."@, "  Use: --format letter"@]
    } else if exists|i: int| 0 <= i < ls.len() && same_ignoring_case(trim(#[trigger] ls[i]), "COLUMNS"@) {
        let d_tok = if exists|i: int| 0 <= i < ls.len() && trim(#[trigger] ls[i]).len() == 0 {
            "blankline"@
        } else {
            "newline"@
        };
        let sample = first_n(lines_where(ls, |t: Seq<char>| clue_content(t)), 10);
        let a_display = match clue_sep_guess(sample) {
            Some(sep) => sep_shown(sep),
            None => "unknown"@,
        };
        let a_tok = match clue_sep_guess(sample) {
            Some(sep) => sep_token_text(sep),
            None => "?"@,
        };
        seq![
            "Detected separators for '"@ + filename + "':"@,
            "  A (clue)   : "@ + a_display,
            "  B (line)   : newline"@,
            "  C (section): \"COLUMNS\" keyword"@,
            "  D (puzzle) : "@ + d_tok,
            Seq::empty(),
            "  Suggested: --sep "@ + a_tok + ",newline,COLUMNS,"@ + d_tok,
            major_order_note(),
        ]
    } else {
        let sample = first_n(nonempty, 10);
        if forall|i: int| 0 <= i < sample.len() ==> puzzle_string_like(#[trigger] sample[i]) {
            seq![
                "Detected separators for '"@ + filename + "':"@,
                "  A (clue)   : \",\" (comma)"@,
                "  B (line)   : \":\" (colon)"@,
                "  C (section): \"-\" (dash)"@,
                "  D (puzzle) : newline"@,
                Seq::empty(),
                "  Suggested: --sep comma,colon,dash,newline"@,
                major_order_note(),
            ]
        } else {
            let hint = match clue_sep_guess(sample) {
                Some(sep) => sep_shown(sep) + " (token: "@ + sep_token_text(sep) + ")"@,
                None => "unknown"@,
            };
            seq![
                "Detect: could not identify a known format for '"@ + filename + "'."@,
                "  Clue separator hint: "@ + hint,
                "  Inspect the file and specify --sep A,B,C[,D] manually."@,
            ]
        }
    }
}

/// The non-blank lines, untrimmed.
fn nonblank_lines(ls: &Vec<Vec<char>>) -> (r: Vec<Vec<char>>)
    ensures
        views(r@) == lines_where(views(ls@), |t: Seq<char>| not_blank(t)),
{
    let ghost lv = views(ls@);
    let mut out: Vec<Vec<char>> = Vec::new();
    let mut i: usize = 0;
    assert(lv.take(0) =~= Seq::<Seq<char>>::empty());
    while i < ls.len()
        invariant
            i <= ls@.len(),
            lv == views(ls@),
            views(out@) == lines_where(lv.take(i as int), |t: Seq<char>| not_blank(t)),
        decreases ls@.len() - i,
    {
        assert(lv.take(i + 1).drop_last() =~= lv.take(i as int));
        assert(lv.take(i + 1).last() == ls@[i as int]@);
        let t = trim_chars(ls[i].as_slice());
        let ghost before = views(out@);
        if t.len() > 0 {
            let c = copy_range(ls[i].as_slice(), 0, ls[i].len());
            assert(ls@[i as int]@.subrange(0, ls@[i as int]@.len() as int) =~= ls@[i as int]@);
            out.push(c);
            assert(views(out@) =~= before + seq![lv[i as int]]);
        } else {
            assert(views(out@) =~= before + Seq::<Seq<char>>::empty());
        }
        i += 1;
    }
    assert(lv.take(ls@.len() as int) =~= lv);
    out
}

/// Up to ten lines that are neither blank nor `COLUMNS`, untrimmed.
fn clue_sample(ls: &Vec<Vec<char>>) -> (r: Vec<Vec<char>>)
    ensures
        views(r@) == first_n(lines_where(views(ls@), |t: Seq<char>| clue_content(t)), 10),
{
    let ghost lv = views(ls@);
    let mut out: Vec<Vec<char>> = Vec::new();
    let mut i: usize = 0;
    assert(lv.take(0) =~= Seq::<Seq<char>>::empty());
    while i < ls.len()
        invariant
            i <= ls@.len(),
            lv == views(ls@),
            views(out@) == first_n(lines_where(lv.take(i as int), |t: Seq<char>| clue_content(t)), 10),
        decreases ls@.len() - i,
    {
        proof {
            lemma_lines_where_grows(lv, i as int, |t: Seq<char>| clue_content(t));
        }
        assert(lv.take(i + 1).drop_last() =~= lv.take(i as int));
        assert(lv.take(i + 1).last() == ls@[i as int]@);
        let t = trim_chars(ls[i].as_slice());
        let ghost before = views(out@);
        let ghost all_before = lines_where(lv.take(i as int), |t: Seq<char>| clue_content(t));
        if t.len() > 0 && !is_columns_keyword(t.as_slice()) {
            if out.len() < 10 {
                assert(views(out@).len() == out@.len());
                assert(all_before.len() < 10);
                assert(views(out@) == all_before);
                let c = copy_range(ls[i].as_slice(), 0, ls[i].len());
                assert(ls@[i as int]@.subrange(0, ls@[i as int]@.len() as int) =~= ls@[i as int]@);
                out.push(c);
                assert(views(out@) =~= first_n(all_before + seq![lv[i as int]], 10));
            } else {
                assert(first_n(all_before + seq![lv[i as int]], 10) =~= first_n(all_before, 10));
            }
        } else {
            assert(all_before + Seq::<Seq<char>>::empty() =~= all_before);
        }
        i += 1;
    }
    assert(lv.take(ls@.len() as int) =~= lv);
    out
}

proof fn lemma_lines_where_grows(ls: Seq<Seq<char>>, i: int, keep: spec_fn(Seq<char>) -> bool)
    requires
        0 <= i < ls.len(),
    ensures
        lines_where(ls.take(i + 1), keep) == lines_where(ls.take(i), keep) + (if keep(trim(ls[i])) {
            seq![ls[i]]
        } else {
            Seq::empty()
        }),
{
    assert(ls.take(i + 1).drop_last() =~= ls.take(i));
}

/// Owned strings of character vectors.
fn to_strings(v: &Vec<Vec<char>>) -> (r: Vec<String>)
    ensures
        r@.map_values(|s: String| s@) == views(v@),
{
    let mut r: Vec<String> = Vec::new();
    let mut i: usize = 0;
    while i < v.len()
        invariant
            i <= v@.len(),
            r@.map_values(|s: String| s@) == views(v@).take(i as int),
        decreases v@.len() - i,
    {
        let ghost before = r@.map_values(|s: String| s@);
        let s = chars_to_string(v[i].as_slice());
        let ghost sv = s@;
        r.push(s);
        assert(r@.map_values(|s: String| s@) =~= before.push(sv));
        i += 1;
        assert(r@.map_values(|s: String| s@) =~= views(v@).take(i as int));
    }
    assert(views(v@).take(v@.len() as int) =~= views(v@));
    r
}

/// Whether every line is made of upper-case letters and spaces only.
fn all_letters_only(ls: &Vec<Vec<char>>) -> (r: bool)
    ensures
        r == forall|i: int| 0 <= i < ls@.len() ==> letters_only(#[trigger] views(ls@)[i]),
{
    let mut i: usize = 0;
    while i < ls.len()
        invariant
            i <= ls@.len(),
            forall|k: int| 0 <= k < i ==> letters_only(#[trigger] views(ls@)[k]),
        decreases ls@.len() - i,
    {
        let l = &ls[i];
        assert(views(ls@)[i as int] == l@);
        let mut j: usize = 0;
        while j < l.len()
            invariant
                j <= l@.len(),
                i < ls@.len(),
                views(ls@)[i as int] == l@,
                forall|m: int| 0 <= m < j ==> is_upper(#[trigger] l@[m]) || l@[m] == ' ',
            decreases l@.len() - j,
        {
            let u = l[j] as u32;
            if !((0x41 <= u && u <= 0x5a) || l[j] == ' ') {
                assert(!letters_only(views(ls@)[i as int]));
                return false;
            }
            j += 1;
        }
        i += 1;
    }
    true
}

/// Whether some line is `COLUMNS` (trimmed, any case), and whether some
/// line is blank.
fn scan_columns_and_blanks(ls: &Vec<Vec<char>>) -> (r: (bool, bool))
    ensures
        r.0 == exists|i: int| 0 <= i < ls@.len() && same_ignoring_case(trim(#[trigger] views(ls@)[i]), "COLUMNS"@),
        r.1 == exists|i: int| 0 <= i < ls@.len() && trim(#[trigger] views(ls@)[i]).len() == 0,
{
    let mut cols = false;
    let mut blank = false;
    let mut i: usize = 0;
    while i < ls.len()
        invariant
            i <= ls@.len(),
            cols == exists|k: int| 0 <= k < i && same_ignoring_case(trim(#[trigger] views(ls@)[k]), "COLUMNS"@),
            blank == exists|k: int| 0 <= k < i && trim(#[trigger] views(ls@)[k]).len() == 0,
        decreases ls@.len() - i,
    {
        assert(views(ls@)[i as int] == ls@[i as int]@);
        let t = trim_chars(ls[i].as_slice());
        if is_columns_keyword(t.as_slice()) {
            cols = true;
        }
        if t.len() == 0 {
            blank = true;
        }
        i += 1;
    }
    (cols, blank)
}

/// The first `n` lines, or all of them.
fn first_lines(ls: &Vec<Vec<char>>, n: usize) -> (r: Vec<Vec<char>>)
    ensures
        views(r@) == first_n(views(ls@), n as nat),
{
    let end = if ls.len() <= n { ls.len() } else { n };
    let mut out: Vec<Vec<char>> = Vec::new();
    let mut i: usize = 0;
    while i < end
        invariant
            i <= end <= ls@.len(),
            views(out@) == views(ls@).take(i as int),
        decreases end - i,
    {
        let ghost before = views(out@);
        let c = copy_range(ls[i].as_slice(), 0, ls[i].len());
        assert(ls@[i as int]@.subrange(0, ls@[i as int]@.len() as int) =~= ls@[i as int]@);
        out.push(c);
        assert(views(out@) =~= before.push(views(ls@)[i as int]));
        i += 1;
        assert(views(out@) =~= views(ls@).take(i as int));
    }
    assert(views(ls@).take(ls@.len() as int) =~= views(ls@));
    out
}

/// Whether every line looks like an R puzzle string.
fn all_puzzle_strings(ls: &Vec<Vec<char>>) -> (r: bool)
    ensures
        r == forall|i: int| 0 <= i < ls@.len() ==> puzzle_string_like(#[trigger] views(ls@)[i]),
{
    let mut i: usize = 0;
    while i < ls.len()
        invariant
            i <= ls@.len(),
            forall|k: int| 0 <= k < i ==> puzzle_string_like(#[trigger] views(ls@)[k]),
        decreases ls@.len() - i,
    {
        assert(views(ls@)[i as int] == ls@[i as int]@);
        if !looks_like_puzzle_string(ls[i].as_slice()) {
            return false;
        }
        i += 1;
    }
    true
}

/// Reports the separators a file appears to use.
#[verifier::spinoff_prover]
#[verifier::rlimit(40)]
pub fn detect_format(content: &[char], filename: &str) -> (r: Vec<String>)
    ensures
        r@.map_values(|s: String| s@) == detect_report(content@, filename@),
{
    let ls = split_lines_chars(content);
    let ghost lv = views(ls@);
    let nonempty = nonblank_lines(&ls);
    let mut out: Vec<Vec<char>> = Vec::new();
    let fname = str_to_chars(filename);
    if nonempty.len() == 0 {
        let mut v: Vec<char> = Vec::new();
        extend_str(&mut v, "Detect: '");
        extend_chars(&mut v, fname.as_slice());
        extend_str(&mut v, "' appears to be empty.");
        out.push(v);
        let r = to_strings(&out);
        assert(r@.map_values(|s: String| s@) =~= detect_report(content@, filename@));
        return r;
    }
    if all_letters_only(&nonempty) {
        let mut v: Vec<char> = Vec::new();
        extend_str(&mut v, "Detected letter encoding (A=1 … Z=26) for '");
        extend_chars(&mut v, fname.as_slice());
        extend_str(&mut v, "'.");
        out.push(v);
        out.push(str_to_chars("  Use: --format letter"));
        let r = to_strings(&out);
        assert(r@.map_values(|s: String| s@) =~= detect_report(content@, filename@));
        return r;
    }
    let (has_columns, has_blank) = scan_columns_and_blanks(&ls);
    if has_columns {
        let d_tok = if has_blank { "blankline" } else { "newline" };
        let sample = clue_sample(&ls);
        let (a_display, a_tok) = match detect_clue_sep(&sample) {
            Some(sep) => (sep_display(&sep), sep_token(&sep)),
            None => (owned("unknown"), owned("?")),
        };
        let mut v: Vec<char> = Vec::new();
        extend_str(&mut v, "Detected separators for '");
        extend_chars(&mut v, fname.as_slice());
        extend_str(&mut v, "':");
        out.push(v);
        let mut v: Vec<char> = Vec::new();
        extend_str(&mut v, "  A (clue)   : ");
        extend_str(&mut v, a_display.as_str());
        out.push(v);
        out.push(str_to_chars("  B (line)   : newline"));
        out.push(str_to_chars("  C (section): \"COLUMNS\" keyword"));
        let mut v: Vec<char> = Vec::new();
        extend_str(&mut v, "  D (puzzle) : ");
        extend_str(&mut v, d_tok);
        out.push(v);
        out.push(Vec::new());
        let mut v: Vec<char> = Vec::new();
        extend_str(&mut v, "  Suggested: --sep ");
        extend_str(&mut v, a_tok.as_str());
        extend_str(&mut v, ",newline,COLUMNS,");
        extend_str(&mut v, d_tok);
        out.push(v);
        out.push(str_to_chars("  Note: major order not deduced — add -r (rows first) or -c (cols first)"));
        let r = to_strings(&out);
        assert(r@.map_values(|s: String| s@) =~= detect_report(content@, filename@));
        return r;
    }
    let sample = first_lines(&nonempty, 10);
    if all_puzzle_strings(&sample) {
        let mut v: Vec<char> = Vec::new();
        extend_str(&mut v, "Detected separators for '");
        extend_chars(&mut v, fname.as_slice());
        extend_str(&mut v, "':");
        out.push(v);
        out.push(str_to_chars("  A (clue)   : \",\" (comma)"));
        out.push(str_to_chars("  B (line)   : \":\" (colon)"));
        out.push(str_to_chars("  C (section): \"-\" (dash)"));
        out.push(str_to_chars("  D (puzzle) : newline"));
        out.push(Vec::new());
        out.push(str_to_chars("  Suggested: --sep comma,colon,dash,newline"));
        out.push(str_to_chars("  Note: major order not deduced — add -r (rows first) or -c (cols first)"));
        let r = to_strings(&out);
        assert(r@.map_values(|s: String| s@) =~= detect_report(content@, filename@));
        return r;
    }
    let hint = match detect_clue_sep(&sample) {
        Some(sep) => {
            let mut v: Vec<char> = Vec::new();
            let d = sep_display(&sep);
            let t = sep_token(&sep);
            extend_str(&mut v, d.as_str());
            extend_str(&mut v, " (token: ");
            extend_str(&mut v, t.as_str());
            extend_str(&mut v, ")");
            v
        },
        None => str_to_chars("unknown"),
    };
    let mut v: Vec<char> = Vec::new();
    extend_str(&mut v, "Detect: could not identify a known format for '");
    extend_chars(&mut v, fname.as_slice());
    extend_str(&mut v, "'.");
    out.push(v);
    let mut v: Vec<char> = Vec::new();
    extend_str(&mut v, "  Clue separator hint: ");
    extend_chars(&mut v, hint.as_slice());
    out.push(v);
    out.push(str_to_chars("  Inspect the file and specify --sep A,B,C[,D] manually."));
    let r = to_strings(&out);
    assert(r@.map_values(|s: String| s@) =~= detect_report(content@, filename@));
    r
}

} // verus!
