//! Puzzle export and import: the native one-line format, puzz.link URLs,
//! and the Puz-Pre v3 text format; and the solve-log report.
use vstd::prelude::*;
use crate::convert::clues_text;
use crate::text::{
    chars_to_string, decimal, decimal_chars, extend_chars, extend_decimal, extend_str, str_to_chars, views,
};
use crate::types::{CellState, Puzzle, PuzzleModel, clue_lists, replay};

verus! {

/// Export targets.
#[derive(Debug, Clone, Copy, PartialEq, Eq, Structural)]
pub enum ExportFormat {
    PuzPreV3,
}

impl ExportFormat {
    /// The name shown for the format.
    pub fn label(self) -> (s: &'static str)
        ensures
            s@ == "Puz-Pre v3"@,
    {
        match self {
            ExportFormat::PuzPreV3 => "Puz-Pre v3",
        }
    }
}

/// A solution as a string of `1` (filled) and `0` (anything else).
pub open spec fn solution_text(s: Seq<CellState>) -> Seq<char> {
    s.map_values(|st: CellState| if st == CellState::Filled { '1' } else { '0' })
}

/// The native one-line text of a puzzle:
/// `name;C:cols/R:rows[;answer][;solution]`, clue lists `|`-separated.
pub open spec fn file_text(p: PuzzleModel) -> Seq<char> {
    let base = p.name + ";C:"@ + clues_text(p.col_clues, "|"@) + "/R:"@ + clues_text(p.row_clues, "|"@);
    match (p.answer, p.solution) {
        (Some(a), Some(s)) => base + ";"@ + a + ";"@ + solution_text(s),
        (Some(a), None) => base + ";"@ + a,
        (None, Some(s)) => base + ";;"@ + solution_text(s),
        (None, None) => base,
    }
}

/// Appends the solution string of a grid.
fn extend_solution(v: &mut Vec<char>, sol: &Vec<CellState>)
    ensures
        final(v)@ == old(v)@ + solution_text(sol@),
{
    let ghost v0 = v@;
    let mut i: usize = 0;
    while i < sol.len()
        invariant
            i <= sol@.len(),
            v@ == v0 + solution_text(sol@.take(i as int)),
        decreases sol@.len() - i,
    {
        v.push(if sol[i] == CellState::Filled { '1' } else { '0' });
        i += 1;
        assert(v@ =~= v0 + solution_text(sol@.take(i as int)));
    }
    assert(sol@.take(sol@.len() as int) =~= sol@);
}

/// The puzzle as one line of the native format.
pub fn puzzle_to_file_string(puzzle: &Puzzle) -> (s: String)
    ensures
        s@ == file_text(puzzle@),
{
    let mut v: Vec<char> = Vec::new();
    extend_str(&mut v, puzzle.name.as_str());
    extend_str(&mut v, ";C:");
    let c = crate::convert::clues_to_chars(&puzzle.col_clues, "|");
    extend_chars(&mut v, c.as_slice());
    extend_str(&mut v, "/R:");
    let r = crate::convert::clues_to_chars(&puzzle.row_clues, "|");
    extend_chars(&mut v, r.as_slice());
    match (&puzzle.answer, &puzzle.solution) {
        (Some(ans), Some(sol)) => {
            extend_str(&mut v, ";");
            extend_str(&mut v, ans.as_str());
            extend_str(&mut v, ";");
            extend_solution(&mut v, sol);
        },
        (Some(ans), None) => {
            extend_str(&mut v, ";");
            extend_str(&mut v, ans.as_str());
        },
        (None, Some(sol)) => {
            extend_str(&mut v, ";;");
            extend_solution(&mut v, sol);
        },
        (None, None) => {},
    }
    chars_to_string(v.as_slice())
}

/// The lower-case hexadecimal digit for `d < 16`.
pub open spec fn hex_digit(d: nat) -> char {
    if d < 10 {
        ((0x30 + d) as u32) as char
    } else {
        ((0x61 + d - 10) as u32) as char
    }
}

/// Lower-case hexadecimal rendering of `n` without leading zeros.
pub open spec fn hex(n: nat) -> Seq<char>
    decreases n,
{
    if n < 16 {
        seq![hex_digit(n)]
    } else {
        hex(n / 16).push(hex_digit(n % 16))
    }
}

/// The puzz.link code of one clue value: a digit or `a`–`f` up to 15,
/// else `-` and the value in (at least two) hexadecimal digits.
pub open spec fn value_code(v: u32) -> Seq<char> {
    if v <= 9 {
        seq![hex_digit(v as nat)]
    } else if v <= 15 {
        seq![hex_digit(v as nat)]
    } else {
        seq!['-'] + hex(v as nat)
    }
}

/// The codes of the values of `q`, last value first.
pub open spec fn values_code(q: Seq<u32>) -> Seq<char>
    decreases q.len(),
{
    if q.len() == 0 {
        Seq::empty()
    } else {
        value_code(q.last()) + values_code(q.drop_last())
    }
}

/// The code for `zeros` empty slots: `z` for every twenty, then one
/// character `g`–`y` for the remaining one to nineteen.
pub open spec fn zeros_code(zeros: nat) -> Seq<char> {
    Seq::new(zeros / 20, |_i: int| 'z') + (if zeros % 20 > 0 {
        seq![((0x66 + zeros % 20) as u32) as char]
    } else {
        Seq::empty()
    })
}

/// The code of one clue list padded to `g` slots.
pub open spec fn group_code(q: Seq<u32>, g: nat) -> Seq<char> {
    values_code(q) + zeros_code(if g > q.len() { (g - q.len()) as nat } else { 0 })
}

/// The codes of the clue lists `v[..k]`, each padded to `g` slots.
pub open spec fn groups_code(v: Seq<Seq<u32>>, k: nat, g: nat) -> Seq<char>
    decreases k,
{
    if k == 0 || k > v.len() {
        Seq::empty()
    } else {
        groups_code(v, (k - 1) as nat, g) + group_code(v[k - 1], g)
    }
}

/// `(n + 1) / 2`, the number of clue slots of a line of `n` cells.
pub open spec fn half_up(n: nat) -> nat {
    n / 2 + n % 2
}

/// The puzz.link URL of a puzzle.
pub open spec fn puzzlink_text(p: PuzzleModel) -> Seq<char> {
    "https://puzz.link/p?nonogram/"@ + decimal(p.width) + "/"@ + decimal(p.height) + "/"@ + groups_code(
        p.col_clues,
        p.width,
        half_up(p.height),
    ) + groups_code(p.row_clues, p.height, half_up(p.width))
}

/// Lower-case hexadecimal digits of `n`.
fn hex_chars(n: u32) -> (v: Vec<char>)
    ensures
        v@ == hex(n as nat),
    decreases n,
{
    if n < 16 {
        let mut v = Vec::new();
        v.push(hex_digit_char(n));
        v
    } else {
        let mut v = hex_chars(n / 16);
        v.push(hex_digit_char(n % 16));
        v
    }
}

/// The hexadecimal digit of `d < 16`.
fn hex_digit_char(d: u32) -> (c: char)
    requires
        d < 16,
    ensures
        c == hex_digit(d as nat),
{
    if d < 10 {
        char_of(0x30 + d)
    } else {
        char_of(0x61 + d - 10)
    }
}

/// The character with an ASCII code.
fn char_of(u: u32) -> (c: char)
    requires
        u < 0x80,
    ensures
        c == (u as char),
{
    let b = u as u8;
    b as char
}

/// Appends the code of one clue list padded to `g` slots.
fn encode_group(out: &mut Vec<char>, clues: &Vec<u32>, g: usize)
    ensures
        final(out)@ == old(out)@ + group_code(clues@, g as nat),
{
    let ghost o = old(out)@;
    let mut k: usize = clues.len();
    assert(clues@.take(clues@.len() as int) =~= clues@);
    while k > 0
        invariant
            k <= clues@.len(),
            out@ + values_code(clues@.take(k as int)) == o + values_code(clues@),
        decreases k,
    {
        let v = clues[k - 1];
        let ghost before = out@;
        if v <= 9 {
            out.push(hex_digit_char(v));
        } else if v <= 15 {
            out.push(hex_digit_char(v));
        } else {
            out.push('-');
            let h = hex_chars(v);
            extend_chars(out, h.as_slice());
        }
        proof {
            let t = clues@.take(k as int);
            assert(t.drop_last() =~= clues@.take(k - 1));
            assert(t.last() == v);
            assert(out@ =~= before + value_code(v));
            assert(values_code(t) == value_code(v) + values_code(t.drop_last()));
            assert(out@ + values_code(clues@.take(k - 1)) =~= before + values_code(t));
        }
        k -= 1;
    }
    assert(clues@.take(0) =~= Seq::<u32>::empty());
    let mut zeros: usize = if g > clues.len() { g - clues.len() } else { 0 };
    let ghost z0 = zeros as nat;
    let ghost o2 = out@;
    let mut n: usize = 0;
    while zeros >= 20
        invariant
            z0 == n * 20 + zeros,
            z0 <= usize::MAX,
            out@ == o2 + Seq::new(n as nat, |_i: int| 'z'),
        decreases zeros,
    {
        out.push('z');
        zeros -= 20;
        n += 1;
        assert(out@ =~= o2 + Seq::new(n as nat, |_i: int| 'z'));
    }
    proof {
        assert(n == z0 / 20 && zeros == z0 % 20) by (nonlinear_arith)
            requires
                z0 == n * 20 + zeros,
                zeros < 20,
        ;
    }
    if zeros > 0 {
        out.push(char_of(0x66 + zeros as u32));
    }
    assert(out@ =~= o + group_code(clues@, g as nat));
}

/// The puzz.link URL of a puzzle.
pub fn puzzle_to_puzzlink_url(puzzle: &Puzzle) -> (s: String)
    requires
        puzzle.wf(),
    ensures
        s@ == puzzlink_text(puzzle@),
{
    let w = puzzle.width;
    let h = puzzle.height;
    let g_col = h / 2 + h % 2;
    let g_row = w / 2 + w % 2;
    let mut data: Vec<char> = Vec::new();
    let ghost cl = clue_lists(puzzle.col_clues@);
    let ghost rl = clue_lists(puzzle.row_clues@);
    let mut c: usize = 0;
    while c < w
        invariant
            puzzle.wf(),
            w == puzzle.width,
            c <= w,
            cl == clue_lists(puzzle.col_clues@),
            data@ == groups_code(cl, c as nat, g_col as nat),
        decreases w - c,
    {
        assert(cl[c as int] == puzzle.col_clues@[c as int]@);
        encode_group(&mut data, &puzzle.col_clues[c], g_col);
        c += 1;
    }
    let ghost mid = data@;
    let mut r: usize = 0;
    while r < h
        invariant
            puzzle.wf(),
            h == puzzle.height,
            r <= h,
            rl == clue_lists(puzzle.row_clues@),
            data@ == mid + groups_code(rl, r as nat, g_row as nat),
        decreases h - r,
    {
        assert(rl[r as int] == puzzle.row_clues@[r as int]@);
        encode_group(&mut data, &puzzle.row_clues[r], g_row);
        r += 1;
    }
    let mut v: Vec<char> = Vec::new();
    extend_str(&mut v, "https://puzz.link/p?nonogram/");
    extend_decimal(&mut v, w as u64);
    extend_str(&mut v, "/");
    extend_decimal(&mut v, h as u64);
    extend_str(&mut v, "/");
    extend_chars(&mut v, data.as_slice());
    chars_to_string(v.as_slice())
}

/// `c` is a hexadecimal digit (either case).
pub open spec fn is_hex_digit(c: char) -> bool {
    let u = c as u32;
    (0x30 <= u <= 0x39) || (0x61 <= u <= 0x66) || (0x41 <= u <= 0x46)
}

/// The value of a hexadecimal digit.
pub open spec fn hex_value(c: char) -> nat {
    let u = c as u32;
    if 0x30 <= u <= 0x39 {
        (u - 0x30) as nat
    } else if 0x61 <= u <= 0x66 {
        (u - 0x61 + 10) as nat
    } else {
        (u - 0x41 + 10) as nat
    }
}

/// `u32::from_str_radix` of two characters in base 16: two hexadecimal
/// digits, or `+` and one.
pub open spec fn hex_pair(h1: char, h2: char) -> Option<u32> {
    if h1 == '+' {
        if is_hex_digit(h2) { Some(hex_value(h2) as u32) } else { None }
    } else if is_hex_digit(h1) && is_hex_digit(h2) {
        Some((16 * hex_value(h1) + hex_value(h2)) as u32)
    } else {
        None
    }
}

/// The count a zero-run character stands for: its low byte minus `f`,
/// wrapping in a byte.
pub open spec fn zero_weight(c: char) -> u8 {
    vstd::wrapping::u8_specs::wrapping_sub(c as u8, 0x66)
}

/// `c` comes at or after `g`.
pub open spec fn run_char(c: char) -> bool {
    (c as u32) >= 0x67
}

/// The zero count of the run starting with `s[i]`, added to `count`, and
/// the index after the run: a `z` continues the run when another run
/// character follows.
pub open spec fn zero_run(s: Seq<char>, i: nat, count: usize) -> (usize, nat)
    decreases s.len() - i,
{
    if i >= s.len() {
        (count, i)
    } else {
        let c2 = vstd::wrapping::usize_specs::wrapping_add(count, zero_weight(s[i as int]) as usize);
        if s[i as int] == 'z' && i + 1 < s.len() && run_char(s[i + 1int]) {
            zero_run(s, i + 1, c2)
        } else {
            (c2, i + 1)
        }
    }
}

/// A decoded group once its values and trailing zero count are known.
pub open spec fn group_finish(vals: Seq<u32>, zeros: usize, j: nat, g: usize) -> Result<(Seq<u32>, nat), Seq<char>> {
    if vstd::wrapping::usize_specs::wrapping_add(vals.len() as usize, zeros) != g {
        Err(
            "group size mismatch: "@ + decimal(vals.len()) + " values + "@ + decimal(zeros as nat) + " zeros ≠ "@
                + decimal(g as nat),
        )
    } else {
        Ok((vals.reverse(), j))
    }
}

/// Decodes one group of `g` slots from index `i`, with `vals` read so far
/// (last clue first): its clue list in order and the index after it.
pub open spec fn pz_group(s: Seq<char>, i: nat, g: usize, vals: Seq<u32>) -> Result<(Seq<u32>, nat), Seq<char>>
    decreases s.len() + 1 - i,
{
    if vals.len() == g {
        group_finish(vals, 0, if i < s.len() && s[i as int] == 'f' { i + 1 } else { i }, g)
    } else if i >= s.len() {
        Err("unexpected end of data in group"@)
    } else {
        let c = s[i as int];
        let u = c as u32;
        if run_char(c) {
            let (count, j) = zero_run(s, i, 0);
            group_finish(vals, count, j, g)
        } else if 0x30 <= u <= 0x39 {
            pz_group(s, i + 1, g, vals.push((u - 0x30) as u32))
        } else if 0x61 <= u <= 0x66 {
            pz_group(s, i + 1, g, vals.push((u - 0x61 + 10) as u32))
        } else if c == '-' {
            if i + 2 >= s.len() {
                Err("truncated hex value"@)
            } else {
                match hex_pair(s[i + 1int], s[i + 2int]) {
                    Some(v) => pz_group(s, i + 3, g, vals.push(v)),
                    None => Err("invalid hex: -"@ + seq![s[i + 1int], s[i + 2int]]),
                }
            }
        } else {
            Err("unexpected char '"@ + seq![c] + "'"@)
        }
    }
}

proof fn lemma_zero_run_next(s: Seq<char>, i: nat, count: usize)
    requires
        i < s.len(),
    ensures
        i < zero_run(s, i, count).1 <= s.len(),
    decreases s.len() - i,
{
    let c2 = vstd::wrapping::usize_specs::wrapping_add(count, zero_weight(s[i as int]) as usize);
    if s[i as int] == 'z' && i + 1 < s.len() && run_char(s[i + 1int]) {
        lemma_zero_run_next(s, i + 1, c2);
    }
}

/// The value of a hexadecimal digit character.
fn hex_value_exec(c: char) -> (r: u32)
    requires
        is_hex_digit(c),
    ensures
        r == hex_value(c),
{
    let u = c as u32;
    if 0x30 <= u && u <= 0x39 {
        u - 0x30
    } else if 0x61 <= u && u <= 0x66 {
        u - 0x61 + 10
    } else {
        u - 0x41 + 10
    }
}

/// Whether `c` is a hexadecimal digit.
fn hex_digit_exec(c: char) -> (r: bool)
    ensures
        r == is_hex_digit(c),
{
    let u = c as u32;
    (0x30 <= u && u <= 0x39) || (0x61 <= u && u <= 0x66) || (0x41 <= u && u <= 0x46)
}

/// Parses two characters as a base-16 number.
fn parse_hex_pair(h1: char, h2: char) -> (r: Option<u32>)
    ensures
        r == hex_pair(h1, h2),
{
    if h1 == '+' {
        if hex_digit_exec(h2) { Some(hex_value_exec(h2)) } else { None }
    } else if hex_digit_exec(h1) && hex_digit_exec(h2) {
        Some(16 * hex_value_exec(h1) + hex_value_exec(h2))
    } else {
        None
    }
}

/// The values of a group, in order.
fn reversed(v: &Vec<u32>) -> (r: Vec<u32>)
    ensures
        r@ == v@.reverse(),
{
    let mut r: Vec<u32> = Vec::new();
    let mut k: usize = v.len();
    while k > 0
        invariant
            k <= v@.len(),
            r@ == v@.subrange(k as int, v@.len() as int).reverse(),
        decreases k,
    {
        k -= 1;
        r.push(v[k]);
        assert(r@ =~= v@.subrange(k as int, v@.len() as int).reverse());
    }
    assert(v@.subrange(0, v@.len() as int) =~= v@);
    r
}

/// Decodes one group of `g` slots starting at index `i`: its clue list and
/// the index after it.
pub fn decode_pz_group(s: &[char], start: usize, g: usize) -> (r: Result<(Vec<u32>, usize), String>)
    requires
        start <= s@.len(),
    ensures
        match r {
            Ok((v, j)) => pz_group(s@, start as nat, g, Seq::empty()) == Ok::<(Seq<u32>, nat), Seq<char>>(
                (v@, j as nat),
            ),
            Err(e) => pz_group(s@, start as nat, g, Seq::empty()) == Err::<(Seq<u32>, nat), Seq<char>>(e@),
        },
{
    let n = s.len();
    let mut values: Vec<u32> = Vec::new();
    let mut i = start;
    let ghost want = pz_group(s@, start as nat, g, Seq::empty());
    loop
        invariant
            want == pz_group(s@, start as nat, g, Seq::empty()),
            i <= s@.len(),
            n == s@.len(),
            values@.len() <= g,
            want == pz_group(s@, i as nat, g, values@),
        decreases s@.len() + 1 - i,
    {
        if values.len() == g {
            let j = if i < n && s[i] == 'f' { i + 1 } else { i };
            return finish_group(&values, 0, j, g);
        }
        if i >= n {
            return Err(crate::convert::owned("unexpected end of data in group"));
        }
        let c = s[i];
        let u = c as u32;
        if u >= 0x67 {
            proof {
                lemma_zero_run_next(s@, i as nat, 0);
            }
            let mut count: usize = 0;
            let mut k = i;
            loop
                invariant_except_break
                    i <= k < s@.len(),
                    zero_run(s@, i as nat, 0) == zero_run(s@, k as nat, count),
                invariant
                    n == s@.len(),
                ensures
                    zero_run(s@, i as nat, 0) == (count, k as nat),
                    k <= s@.len(),
                decreases s@.len() - k,
            {
                let b: u8 = #[verifier::truncate] (s[k] as u8);
                let c2 = count.wrapping_add(b.wrapping_sub(0x66) as usize);
                if s[k] == 'z' && k + 1 < n && s[k + 1] as u32 >= 0x67 {
                    count = c2;
                    k += 1;
                } else {
                    count = c2;
                    k += 1;
                    break;
                }
            }
            return finish_group(&values, count, k, g);
        } else if 0x30 <= u && u <= 0x39 {
            values.push(u - 0x30);
            i += 1;
        } else if 0x61 <= u && u <= 0x66 {
            values.push(u - 0x61 + 10);
            i += 1;
        } else if c == '-' {
            if n - i <= 2 {
                return Err(crate::convert::owned("truncated hex value"));
            }
            match parse_hex_pair(s[i + 1], s[i + 2]) {
                Some(v) => {
                    values.push(v);
                    i += 3;
                },
                None => {
                    let mut m: Vec<char> = Vec::new();
                    extend_str(&mut m, "invalid hex: -");
                    m.push(s[i + 1]);
                    m.push(s[i + 2]);
                    assert(m@ =~= "invalid hex: -"@ + seq![s@[i + 1], s@[i + 2]]);
                    return Err(chars_to_string(m.as_slice()));
                },
            }
        } else {
            let mut m: Vec<char> = Vec::new();
            extend_str(&mut m, "unexpected char '");
            m.push(c);
            extend_str(&mut m, "'");
            assert(m@ =~= "unexpected char '"@ + seq![c] + "'"@);
            return Err(chars_to_string(m.as_slice()));
        }
    }
}

/// Checks a group's size and puts its values in order.
fn finish_group(values: &Vec<u32>, zeros: usize, j: usize, g: usize) -> (r: Result<(Vec<u32>, usize), String>)
    requires
        values@.len() <= g,
    ensures
        match r {
            Ok((v, k)) => group_finish(values@, zeros, j as nat, g) == Ok::<(Seq<u32>, nat), Seq<char>>(
                (v@, k as nat),
            ),
            Err(e) => group_finish(values@, zeros, j as nat, g) == Err::<(Seq<u32>, nat), Seq<char>>(e@),
        },
{
    if values.len().wrapping_add(zeros) != g {
        let mut m: Vec<char> = Vec::new();
        extend_str(&mut m, "group size mismatch: ");
        extend_decimal(&mut m, values.len() as u64);
        extend_str(&mut m, " values + ");
        extend_decimal(&mut m, zeros as u64);
        extend_str(&mut m, " zeros ≠ ");
        extend_decimal(&mut m, g as u64);
        return Err(chars_to_string(m.as_slice()));
    }
    Ok((reversed(values), j))
}

proof fn lemma_pz_group_next(s: Seq<char>, i: nat, g: usize, vals: Seq<u32>)
    requires
        i <= s.len(),
    ensures
        pz_group(s, i, g, vals) matches Ok(x) ==> i <= x.1 <= s.len(),
    decreases s.len() + 1 - i,
{
    if vals.len() == g {
    } else if i < s.len() {
        let c = s[i as int];
        let u = c as u32;
        if run_char(c) {
            lemma_zero_run_next(s, i, 0);
        } else if 0x30 <= u <= 0x39 {
            lemma_pz_group_next(s, i + 1, g, vals.push((u - 0x30) as u32));
        } else if 0x61 <= u <= 0x66 {
            lemma_pz_group_next(s, i + 1, g, vals.push((u - 0x61 + 10) as u32));
        } else if c == '-' && i + 2 < s.len() {
            match hex_pair(s[i + 1int], s[i + 2int]) {
                Some(v) => lemma_pz_group_next(s, i + 3, g, vals.push(v)),
                None => {},
            }
        }
    }
}

/// Decodes `count - k` more groups of `g` slots from index `i`, numbered
/// from `k + 1` in error messages under `label`.
pub open spec fn groups_from(s: Seq<char>, i: nat, k: nat, count: nat, g: usize, label: Seq<char>) -> Result<
    (Seq<Seq<u32>>, nat),
    Seq<char>,
>
    decreases count - k,
{
    if k >= count {
        Ok((Seq::empty(), i))
    } else {
        match pz_group(s, i, g, Seq::empty()) {
            Err(e) => Err(label + decimal(k + 1) + ": "@ + e),
            Ok(x) => match groups_from(s, x.1, k + 1, count, g, label) {
                Err(e) => Err(e),
                Ok(y) => Ok((seq![x.0] + y.0, y.1)),
            },
        }
    }
}

/// The title and puzzle a puzz.link nonogram URL encodes, or why it does
/// not decode: `…nonogram/W/H/data`.
pub open spec fn url_model(url: Seq<char>) -> Result<(Seq<char>, PuzzleModel), Seq<char>> {
    match crate::text::find_from(url, "nonogram/"@, 0) {
        None => Err("Not a puzz.link nonogram URL"@),
        Some(pos) => {
            let parts = crate::text::splitn_on(url.skip((pos + "nonogram/"@.len()) as int), 3, '/');
            match crate::text::parse_usize(parts[0]) {
                None => Err("Invalid width"@),
                Some(w) => if parts.len() < 2 {
                    Err("Missing height"@)
                } else {
                    match crate::text::parse_usize(parts[1]) {
                        None => Err("Invalid height"@),
                        Some(h) => if parts.len() < 3 {
                            Err("Missing encoded data"@)
                        } else if w == 0 || h == 0 {
                            Err("Zero-dimension puzzle"@)
                        } else {
                            let data = parts[2];
                            match groups_from(data, 0, 0, w as nat, half_up(h as nat) as usize, "col "@) {
                                Err(e) => Err(e),
                                Ok(c) => match groups_from(data, c.1, 0, h as nat, half_up(w as nat) as usize, "row "@) {
                                    Err(e) => Err(e),
                                    Ok(r) => {
                                        let name = decimal(w as nat) + "×"@ + decimal(h as nat);
                                        Ok(
                                            (
                                                "puzz.link "@ + name,
                                                PuzzleModel {
                                                    name,
                                                    answer: None,
                                                    width: w as nat,
                                                    height: h as nat,
                                                    row_clues: r.0,
                                                    col_clues: c.0,
                                                    solution: None,
                                                },
                                            ),
                                        )
                                    },
                                },
                            }
                        },
                    }
                },
            }
        },
    }
}

/// Decodes `count` groups of `g` slots from index `i`.
fn decode_groups(s: &[char], i: usize, count: usize, g: usize, label: &str) -> (r: Result<(Vec<Vec<u32>>, usize), String>)
    requires
        i <= s@.len(),
    ensures
        match r {
            Ok((v, j)) => j <= s@.len() && groups_from(s@, i as nat, 0, count as nat, g, label@) == Ok::<
                (Seq<Seq<u32>>, nat),
                Seq<char>,
            >((clue_lists(v@), j as nat)),
            Err(e) => groups_from(s@, i as nat, 0, count as nat, g, label@) == Err::<(Seq<Seq<u32>>, nat), Seq<char>>(
                e@,
            ),
        },
{
    let mut out: Vec<Vec<u32>> = Vec::new();
    let mut pos = i;
    let mut k: usize = 0;
    let ghost want = groups_from(s@, i as nat, 0, count as nat, g, label@);
    assert(clue_lists(out@) + Seq::<Seq<u32>>::empty() =~= clue_lists(out@));
    while k < count
        invariant
            k <= count,
            pos <= s@.len(),
            want == groups_from(s@, i as nat, 0, count as nat, g, label@),
            want == match groups_from(s@, pos as nat, k as nat, count as nat, g, label@) {
                Ok(y) => Ok((clue_lists(out@) + y.0, y.1)),
                Err(e) => Err::<(Seq<Seq<u32>>, nat), Seq<char>>(e),
            },
        decreases count - k,
    {
        proof {
            lemma_pz_group_next(s@, pos as nat, g, Seq::empty());
        }
        match decode_pz_group(s, pos, g) {
            Err(e) => {
                let mut m: Vec<char> = Vec::new();
                extend_str(&mut m, label);
                extend_decimal(&mut m, (k + 1) as u64);
                extend_str(&mut m, ": ");
                extend_str(&mut m, e.as_str());
                return Err(chars_to_string(m.as_slice()));
            },
            Ok((v, j)) => {
                let ghost before = clue_lists(out@);
                let ghost vv = v@;
                out.push(v);
                proof {
                    assert(clue_lists(out@) =~= before.push(vv));
                    match groups_from(s@, j as nat, (k + 1) as nat, count as nat, g, label@) {
                        Ok(y) => {
                            assert(before + (seq![vv] + y.0) =~= clue_lists(out@) + y.0);
                        },
                        Err(e) => {},
                    }
                }
                pos = j;
            },
        }
        k += 1;
    }
    assert(clue_lists(out@) + Seq::<Seq<u32>>::empty() =~= clue_lists(out@));
    Ok((out, pos))
}

/// Decodes a puzz.link nonogram URL (`https://puzz.link/p?nonogram/W/H/data`,
/// or any text holding that path) into a title and its puzzle.
pub fn parse_puzzlink_url(url: &str) -> (r: Result<(String, Vec<crate::parse::ParsedPuzzle>), String>)
    ensures
        match r {
            Ok((t, v)) => url_model(url@) is Ok && t@ == url_model(url@)->Ok_0.0 && crate::parse::entry_models(v@)
                == seq![crate::parse::EntryModel::Valid(url_model(url@)->Ok_0.1)],
            Err(e) => url_model(url@) == Err::<(Seq<char>, PuzzleModel), Seq<char>>(e@),
        },
{
    let u = str_to_chars(url);
    let marker = str_to_chars("nonogram/");
    proof {
        crate::text::lemma_find_from_bounds(u@, marker@, 0);
    }
    let pos = match crate::text::find_chars(u.as_slice(), marker.as_slice(), 0) {
        Some(p) => p,
        None => {
            return Err(crate::convert::owned("Not a puzz.link nonogram URL"));
        },
    };
    let n = u.len();
    let rest = crate::text::copy_range(u.as_slice(), pos + marker.len(), n);
    assert(u@.subrange(pos + marker@.len(), u@.len() as int) =~= u@.skip(pos + marker@.len()));
    let parts = crate::text::splitn_chars(rest.as_slice(), 3, '/');
    let ghost pv = views(parts@);
    proof {
        crate::text::lemma_splitn_nonempty(rest@, 3, '/', Seq::empty());
    }
    assert(pv[0] == parts@[0]@);
    let w = match crate::text::parse_usize_chars(parts[0].as_slice()) {
        Some(x) => x,
        None => {
            return Err(crate::convert::owned("Invalid width"));
        },
    };
    if parts.len() < 2 {
        return Err(crate::convert::owned("Missing height"));
    }
    assert(pv[1] == parts@[1]@);
    let h = match crate::text::parse_usize_chars(parts[1].as_slice()) {
        Some(x) => x,
        None => {
            return Err(crate::convert::owned("Invalid height"));
        },
    };
    if parts.len() < 3 {
        return Err(crate::convert::owned("Missing encoded data"));
    }
    if w == 0 || h == 0 {
        return Err(crate::convert::owned("Zero-dimension puzzle"));
    }
    assert(pv[2] == parts@[2]@);
    let data = &parts[2];
    let g_col = h / 2 + h % 2;
    let g_row = w / 2 + w % 2;
    let (col_clues, j) = match decode_groups(data.as_slice(), 0, w, g_col, "col ") {
        Ok(x) => x,
        Err(e) => {
            return Err(e);
        },
    };
    let (row_clues, _k) = match decode_groups(data.as_slice(), j, h, g_row, "row ") {
        Ok(x) => x,
        Err(e) => {
            return Err(e);
        },
    };
    let mut name: Vec<char> = Vec::new();
    extend_decimal(&mut name, w as u64);
    extend_str(&mut name, "×");
    extend_decimal(&mut name, h as u64);
    let mut title: Vec<char> = Vec::new();
    extend_str(&mut title, "puzz.link ");
    extend_chars(&mut title, name.as_slice());
    let puzzle = Puzzle {
        name: chars_to_string(name.as_slice()),
        width: w,
        height: h,
        col_clues,
        row_clues,
        answer: None,
        solution: None,
    };
    let mut v: Vec<crate::parse::ParsedPuzzle> = Vec::new();
    v.push(crate::parse::ParsedPuzzle::Valid(puzzle));
    assert(crate::parse::entry_models(v@) =~= seq![crate::parse::EntryModel::Valid(url_model(url@)->Ok_0.1)]);
    Ok((chars_to_string(title.as_slice()), v))
}

/// One token of the Puz-Pre v3 layout at row `ri`, column `ci`: dots in
/// the corner, column clues bottom-aligned above the grid, row clues
/// right-aligned left of it (`c`-prefixed when the line is fulfilled), and
/// `#` for filled grid cells.
pub open spec fn pzprv3_token(
    rows: Seq<Seq<u32>>,
    cols: Seq<Seq<u32>>,
    w: nat,
    h: nat,
    grid: Option<Seq<CellState>>,
    frows: Seq<bool>,
    fcols: Seq<bool>,
    ri: nat,
    ci: nat,
) -> Seq<char> {
    let max_cd = half_up(h);
    let max_rd = half_up(w);
    if ri < max_cd {
        if ci < max_rd {
            "."@
        } else {
            let c = (ci - max_rd) as nat;
            let q = cols[c as int];
            let pad = (max_cd - q.len()) as nat;
            if ri >= pad {
                let n = q[ri - pad];
                if c < fcols.len() && fcols[c as int] {
                    "c"@ + decimal(n as nat)
                } else {
                    decimal(n as nat)
                }
            } else {
                "."@
            }
        }
    } else {
        let r = (ri - max_cd) as nat;
        if ci < max_rd {
            let q = rows[r as int];
            let pad = (max_rd - q.len()) as nat;
            if ci >= pad {
                let n = q[ci - pad];
                if r < frows.len() && frows[r as int] {
                    "c"@ + decimal(n as nat)
                } else {
                    decimal(n as nat)
                }
            } else {
                "."@
            }
        } else {
            let c = (ci - max_rd) as nat;
            match grid {
                Some(g) => if g[(r * w + c) as int] == CellState::Filled { "#"@ } else { "."@ },
                None => "."@,
            }
        }
    }
}

/// The first `k` layout rows, each its tokens joined by spaces and ended by
/// a line feed.
pub open spec fn pzprv3_rows(
    rows: Seq<Seq<u32>>,
    cols: Seq<Seq<u32>>,
    w: nat,
    h: nat,
    grid: Option<Seq<CellState>>,
    frows: Seq<bool>,
    fcols: Seq<bool>,
    k: nat,
) -> Seq<char>
    decreases k,
{
    if k == 0 {
        Seq::empty()
    } else {
        pzprv3_rows(rows, cols, w, h, grid, frows, fcols, (k - 1) as nat) + crate::text::join(
            Seq::new(
                half_up(w) + w,
                |ci: int| pzprv3_token(rows, cols, w, h, grid, frows, fcols, (k - 1) as nat, ci as nat),
            ),
            " "@,
        ) + "\n"@
    }
}

/// The Puz-Pre v3 text: header, then the layout rows.
pub open spec fn pzprv3_text(
    rows: Seq<Seq<u32>>,
    cols: Seq<Seq<u32>>,
    w: nat,
    h: nat,
    grid: Option<Seq<CellState>>,
    frows: Seq<bool>,
    fcols: Seq<bool>,
) -> Seq<char> {
    "pzprv3\nnonogram\n"@ + decimal(h) + "\n"@ + decimal(w) + "\n"@ + pzprv3_rows(
        rows,
        cols,
        w,
        h,
        grid,
        frows,
        fcols,
        half_up(h) + h,
    )
}

/// The grid cells of an optional grid.
pub open spec fn opt_grid(g: Option<&[CellState]>) -> Option<Seq<CellState>> {
    match g {
        Some(s) => Some(s@),
        None => None,
    }
}

/// The text of a clue value, `c`-prefixed when its line is fulfilled.
fn clue_token(n: u32, fulfilled: bool) -> (r: Vec<char>)
    ensures
        r@ == (if fulfilled { "c"@ + decimal(n as nat) } else { decimal(n as nat) }),
{
    let mut v: Vec<char> = Vec::new();
    if fulfilled {
        extend_str(&mut v, "c");
    }
    extend_decimal(&mut v, n as u64);
    v
}

/// Exports clues (and optionally a grid) in the Puz-Pre v3 format.
pub fn export_puzprv3(
    row_clues: &Vec<Vec<u32>>,
    col_clues: &Vec<Vec<u32>>,
    w: usize,
    h: usize,
    grid: Option<&[CellState]>,
    fulfilled_rows: &[bool],
    fulfilled_cols: &[bool],
) -> (s: String)
    requires
        half_up(h as nat) + h <= usize::MAX,
        half_up(w as nat) + w <= usize::MAX,
        w * h <= usize::MAX,
        row_clues@.len() >= h,
        col_clues@.len() >= w,
        forall|r: int| 0 <= r < h ==> (#[trigger] row_clues@[r])@.len() <= half_up(w as nat),
        forall|c: int| 0 <= c < w ==> (#[trigger] col_clues@[c])@.len() <= half_up(h as nat),
        grid matches Some(g) ==> g@.len() >= w * h,
    ensures
        s@ == pzprv3_text(
            clue_lists(row_clues@),
            clue_lists(col_clues@),
            w as nat,
            h as nat,
            opt_grid(grid),
            fulfilled_rows@,
            fulfilled_cols@,
        ),
{
    let max_cd = h / 2 + h % 2;
    let max_rd = w / 2 + w % 2;
    let total_rows = max_cd + h;
    let total_cols = max_rd + w;
    let ghost rl = clue_lists(row_clues@);
    let ghost cl = clue_lists(col_clues@);
    let ghost og = opt_grid(grid);
    let mut out: Vec<char> = Vec::new();
    extend_str(&mut out, "pzprv3\nnonogram\n");
    extend_decimal(&mut out, h as u64);
    extend_str(&mut out, "\n");
    extend_decimal(&mut out, w as u64);
    extend_str(&mut out, "\n");
    let ghost head = out@;
    let sp = str_to_chars(" ");
    let mut row_idx: usize = 0;
    while row_idx < total_rows
        invariant
            max_cd == half_up(h as nat),
            max_rd == half_up(w as nat),
            total_rows == max_cd + h,
            total_cols == max_rd + w,
            w * h <= usize::MAX,
            row_clues@.len() >= h,
            col_clues@.len() >= w,
            forall|r: int| 0 <= r < h ==> (#[trigger] row_clues@[r])@.len() <= half_up(w as nat),
            forall|c: int| 0 <= c < w ==> (#[trigger] col_clues@[c])@.len() <= half_up(h as nat),
            grid matches Some(g) ==> g@.len() >= w * h,
            rl == clue_lists(row_clues@),
            cl == clue_lists(col_clues@),
            og == opt_grid(grid),
            sp@ == " "@,
            row_idx <= total_rows,
            out@ == head + pzprv3_rows(rl, cl, w as nat, h as nat, og, fulfilled_rows@, fulfilled_cols@, row_idx as nat),
        decreases total_rows - row_idx,
    {
        let mut tokens: Vec<Vec<char>> = Vec::new();
        let mut col_idx: usize = 0;
        while col_idx < total_cols
            invariant
                max_cd == half_up(h as nat),
                max_rd == half_up(w as nat),
                total_rows == max_cd + h,
                total_cols == max_rd + w,
                w * h <= usize::MAX,
                row_clues@.len() >= h,
                col_clues@.len() >= w,
                forall|r: int| 0 <= r < h ==> (#[trigger] row_clues@[r])@.len() <= half_up(w as nat),
                forall|c: int| 0 <= c < w ==> (#[trigger] col_clues@[c])@.len() <= half_up(h as nat),
                grid matches Some(g) ==> g@.len() >= w * h,
                rl == clue_lists(row_clues@),
                cl == clue_lists(col_clues@),
                og == opt_grid(grid),
                row_idx < total_rows,
                col_idx <= total_cols,
                views(tokens@) == Seq::new(
                    col_idx as nat,
                    |ci: int|
                        pzprv3_token(
                            rl,
                            cl,
                            w as nat,
                            h as nat,
                            og,
                            fulfilled_rows@,
                            fulfilled_cols@,
                            row_idx as nat,
                            ci as nat,
                        ),
                ),
            decreases total_cols - col_idx,
        {
            let ghost want = pzprv3_token(
                rl,
                cl,
                w as nat,
                h as nat,
                og,
                fulfilled_rows@,
                fulfilled_cols@,
                row_idx as nat,
                col_idx as nat,
            );
            let token: Vec<char> = if row_idx < max_cd {
                if col_idx < max_rd {
                    str_to_chars(".")
                } else {
                    let c = col_idx - max_rd;
                    let clues = &col_clues[c];
                    assert(cl[c as int] == clues@);
                    let pad = max_cd - clues.len();
                    if row_idx >= pad {
                        let n = clues[row_idx - pad];
                        let f = c < fulfilled_cols.len() && fulfilled_cols[c];
                        clue_token(n, f)
                    } else {
                        str_to_chars(".")
                    }
                }
            } else {
                let r = row_idx - max_cd;
                if col_idx < max_rd {
                    let clues = &row_clues[r];
                    assert(rl[r as int] == clues@);
                    let pad = max_rd - clues.len();
                    if col_idx >= pad {
                        let n = clues[col_idx - pad];
                        let f = r < fulfilled_rows.len() && fulfilled_rows[r];
                        clue_token(n, f)
                    } else {
                        str_to_chars(".")
                    }
                } else {
                    let c = col_idx - max_rd;
                    proof {
                        crate::search::lemma_cell_index(r as int, c as int, h as int, w as int);
                        assert(h * w == w * h) by (nonlinear_arith);
                    }
                    match grid {
                        Some(g) => {
                            if g[r * w + c] == CellState::Filled {
                                str_to_chars("#")
                            } else {
                                str_to_chars(".")
                            }
                        },
                        None => str_to_chars("."),
                    }
                }
            };
            assert(token@ == want);
            let ghost before = views(tokens@);
            tokens.push(token);
            assert(views(tokens@) =~= before.push(want));
            col_idx += 1;
            assert(views(tokens@) =~= Seq::new(
                col_idx as nat,
                |ci: int|
                    pzprv3_token(
                        rl,
                        cl,
                        w as nat,
                        h as nat,
                        og,
                        fulfilled_rows@,
                        fulfilled_cols@,
                        row_idx as nat,
                        ci as nat,
                    ),
            ));
        }
        let line = crate::text::join_chars(&tokens, sp.as_slice());
        extend_chars(&mut out, line.as_slice());
        extend_str(&mut out, "\n");
        row_idx += 1;
    }
    chars_to_string(out.as_slice())
}

/// Line `k` of `ls`, or the empty line past the end.
pub open spec fn line_or_empty(ls: Seq<Seq<char>>, k: nat) -> Seq<char> {
    if k < ls.len() { ls[k as int] } else { Seq::empty() }
}

/// The token rows `i..total` of the layout, read from lines `start + i`:
/// each must have `cols` whitespace-separated tokens.
pub open spec fn token_rows(ls: Seq<Seq<char>>, start: nat, i: nat, total: nat, cols: nat) -> Result<
    Seq<Seq<Seq<char>>>,
    Seq<char>,
>
    decreases total - i,
{
    if i >= total {
        Ok(Seq::empty())
    } else if start + i >= ls.len() {
        Err("Missing row "@ + decimal(i))
    } else {
        let toks = crate::text::words(ls[(start + i) as int]);
        if toks.len() != cols {
            Err("Row "@ + decimal(i) + ": expected "@ + decimal(cols) + " tokens, got "@ + decimal(toks.len()))
        } else {
            match token_rows(ls, start, i + 1, total, cols) {
                Err(e) => Err(e),
                Ok(rest) => Ok(seq![toks] + rest),
            }
        }
    }
}

/// A clue token: a number, optionally prefixed by `c`.
pub open spec fn clue_token_value(tok: Seq<char>) -> Result<u32, Seq<char>> {
    let s = if tok.len() > 0 && tok[0] == 'c' { tok.drop_first() } else { tok };
    match crate::text::parse_u32(s) {
        Some(v) => Ok(v),
        None => Err("Invalid clue token '"@ + tok + "'"@),
    }
}

/// The clue values of the non-dot tokens `(k, at)`, `(k + 1, at)`, … up
/// to `(stop - 1, at)` of a column, or of a row when `by_row`.
pub open spec fn clue_run(grid: Seq<Seq<Seq<char>>>, fixed: nat, k: nat, stop: nat, by_row: bool) -> Result<
    Seq<u32>,
    Seq<char>,
>
    decreases stop - k,
{
    if k >= stop {
        Ok(Seq::empty())
    } else {
        let tok = if by_row { grid[fixed as int][k as int] } else { grid[k as int][fixed as int] };
        if tok == "."@ {
            clue_run(grid, fixed, k + 1, stop, by_row)
        } else {
            match clue_token_value(tok) {
                Err(e) => Err(e),
                Ok(v) => match clue_run(grid, fixed, k + 1, stop, by_row) {
                    Err(e) => Err(e),
                    Ok(rest) => Ok(seq![v] + rest),
                },
            }
        }
    }
}

/// The clue lists of lines `i..n`: column `c` reads layout column
/// `offset + c` over rows `0..depth`; row `r` reads layout row `offset + r`
/// over columns `0..depth`.
pub open spec fn clue_lines(grid: Seq<Seq<Seq<char>>>, i: nat, n: nat, offset: nat, depth: nat, by_row: bool) -> Result<
    Seq<Seq<u32>>,
    Seq<char>,
>
    decreases n - i,
{
    if i >= n {
        Ok(Seq::empty())
    } else {
        match clue_run(grid, offset + i, 0, depth, by_row) {
            Err(e) => Err(e),
            Ok(q) => match clue_lines(grid, i + 1, n, offset, depth, by_row) {
                Err(e) => Err(e),
                Ok(rest) => Ok(seq![q] + rest),
            },
        }
    }
}

/// The puzzle a Puz-Pre v3 text holds, or why it does not parse.
pub open spec fn pzprv3_model(content: Seq<char>) -> Result<PuzzleModel, Seq<char>> {
    let ls = crate::text::lines(content);
    let l0 = crate::text::trim(line_or_empty(ls, 0));
    let l1 = crate::text::trim(line_or_empty(ls, 1));
    if l0 != "pzprv3"@ {
        Err("Expected 'pzprv3', got '"@ + l0 + "'"@)
    } else if l1 != "nonogram"@ {
        Err("Expected 'nonogram', got '"@ + l1 + "'"@)
    } else if ls.len() < 3 {
        Err("Missing height"@)
    } else {
        match crate::text::parse_usize(crate::text::trim(ls[2])) {
            None => Err("Invalid height"@),
            Some(h) => if ls.len() < 4 {
                Err("Missing width"@)
            } else {
                match crate::text::parse_usize(crate::text::trim(ls[3])) {
                    None => Err("Invalid width"@),
                    Some(w) => if w == 0 || h == 0 {
                        Err("Zero-dimension puzzle"@)
                    } else {
                        let max_cd = half_up(h as nat);
                        let max_rd = half_up(w as nat);
                        match token_rows(ls, 4, 0, (max_cd + h) as nat, (max_rd + w) as nat) {
                            Err(e) => Err(e),
                            Ok(grid) => match clue_lines(grid, 0, w as nat, max_rd, max_cd, false) {
                                Err(e) => Err(e),
                                Ok(cols) => match clue_lines(grid, 0, h as nat, max_cd, max_rd, true) {
                                    Err(e) => Err(e),
                                    Ok(rows) => Ok(
                                        PuzzleModel {
                                            name: decimal(w as nat) + "×"@ + decimal(h as nat),
                                            answer: None,
                                            width: w as nat,
                                            height: h as nat,
                                            row_clues: rows,
                                            col_clues: cols,
                                            solution: None,
                                        },
                                    ),
                                },
                            },
                        }
                    },
                }
            },
        }
    }
}

/// The header dimensions, when they parse, leave room for the layout
/// sizes in a `usize`.
pub open spec fn pzprv3_sizes_fit(content: Seq<char>) -> bool {
    let ls = crate::text::lines(content);
    &&& (ls.len() >= 3 && crate::text::parse_usize(crate::text::trim(ls[2])) is Some) ==> half_up(
        crate::text::parse_usize(crate::text::trim(ls[2]))->0 as nat,
    ) + crate::text::parse_usize(crate::text::trim(ls[2]))->0 <= usize::MAX
    &&& (ls.len() >= 4 && crate::text::parse_usize(crate::text::trim(ls[3])) is Some) ==> half_up(
        crate::text::parse_usize(crate::text::trim(ls[3]))->0 as nat,
    ) + crate::text::parse_usize(crate::text::trim(ls[3]))->0 <= usize::MAX
}

/// The views of a list of token rows.
pub open spec fn token_views(v: Seq<Vec<Vec<char>>>) -> Seq<Seq<Seq<char>>> {
    v.map_values(|r: Vec<Vec<char>>| views(r@))
}

/// Parses a clue token.
fn parse_clue_token(tok: &[char]) -> (r: Result<u32, String>)
    ensures
        match r {
            Ok(v) => clue_token_value(tok@) == Ok::<u32, Seq<char>>(v),
            Err(e) => clue_token_value(tok@) == Err::<u32, Seq<char>>(e@),
        },
{
    let n = tok.len();
    let body = if n > 0 && tok[0] == 'c' {
        crate::text::copy_range(tok, 1, n)
    } else {
        crate::text::copy_range(tok, 0, n)
    };
    assert(tok@.subrange(0, n as int) =~= tok@);
    assert(n > 0 ==> tok@.subrange(1, n as int) =~= tok@.drop_first());
    match crate::text::parse_u32_chars(body.as_slice()) {
        Some(v) => Ok(v),
        None => {
            let mut m: Vec<char> = Vec::new();
            extend_str(&mut m, "Invalid clue token '");
            extend_chars(&mut m, tok);
            extend_str(&mut m, "'");
            Err(chars_to_string(m.as_slice()))
        },
    }
}

/// Reads the clues of one column (or row when `by_row`).
fn read_clue_run(grid: &Vec<Vec<Vec<char>>>, fixed: usize, stop: usize, by_row: bool) -> (r: Result<Vec<u32>, String>)
    requires
        by_row ==> fixed < grid@.len() && stop <= grid@[fixed as int]@.len(),
        !by_row ==> stop <= grid@.len() && forall|k: int| 0 <= k < stop ==> fixed < (#[trigger] grid@[k])@.len(),
    ensures
        match r {
            Ok(v) => clue_run(token_views(grid@), fixed as nat, 0, stop as nat, by_row) == Ok::<Seq<u32>, Seq<char>>(v@),
            Err(e) => clue_run(token_views(grid@), fixed as nat, 0, stop as nat, by_row) == Err::<Seq<u32>, Seq<char>>(e@),
        },
{
    let ghost gv = token_views(grid@);
    let dot = str_to_chars(".");
    let mut out: Vec<u32> = Vec::new();
    let mut k: usize = 0;
    assert(out@ + Seq::<u32>::empty() =~= out@);
    while k < stop
        invariant
            k <= stop,
            gv == token_views(grid@),
            dot@ == "."@,
            by_row ==> fixed < grid@.len() && stop <= grid@[fixed as int]@.len(),
            !by_row ==> stop <= grid@.len() && forall|m: int| 0 <= m < stop ==> fixed < (#[trigger] grid@[m])@.len(),
            clue_run(gv, fixed as nat, 0, stop as nat, by_row) == match clue_run(gv, fixed as nat, k as nat, stop as nat, by_row) {
                Ok(r) => Ok(out@ + r),
                Err(e) => Err::<Seq<u32>, Seq<char>>(e),
            },
        decreases stop - k,
    {
        let tok: &Vec<char> = if by_row { &grid[fixed][k] } else { &grid[k][fixed] };
        proof {
            if by_row {
                assert(gv[fixed as int] == views(grid@[fixed as int]@));
                assert(gv[fixed as int][k as int] == tok@);
            } else {
                assert(gv[k as int] == views(grid@[k as int]@));
                assert(gv[k as int][fixed as int] == tok@);
            }
        }
        if !crate::text::chars_eq(tok.as_slice(), dot.as_slice()) {
            match parse_clue_token(tok.as_slice()) {
                Err(e) => {
                    return Err(e);
                },
                Ok(v) => {
                    let ghost before = out@;
                    out.push(v);
                    proof {
                        match clue_run(gv, fixed as nat, (k + 1) as nat, stop as nat, by_row) {
                            Ok(t) => {
                                assert(before + (seq![v] + t) =~= out@ + t);
                            },
                            Err(e) => {},
                        }
                    }
                },
            }
        }
        k += 1;
    }
    assert(out@ + Seq::<u32>::empty() =~= out@);
    Ok(out)
}

/// Reads the clue lists of `n` columns (or rows when `by_row`).
fn read_clue_lines(grid: &Vec<Vec<Vec<char>>>, n: usize, offset: usize, depth: usize, by_row: bool) -> (r: Result<
    Vec<Vec<u32>>,
    String,
>)
    requires
        offset + n <= usize::MAX,
        by_row ==> offset + n <= grid@.len() && forall|k: int|
            offset <= k < offset + n ==> depth <= (#[trigger] grid@[k])@.len(),
        !by_row ==> depth <= grid@.len() && forall|k: int| 0 <= k < depth ==> offset + n <= (#[trigger] grid@[k])@.len(),
    ensures
        match r {
            Ok(v) => clue_lines(token_views(grid@), 0, n as nat, offset as nat, depth as nat, by_row) == Ok::<
                Seq<Seq<u32>>,
                Seq<char>,
            >(clue_lists(v@)),
            Err(e) => clue_lines(token_views(grid@), 0, n as nat, offset as nat, depth as nat, by_row) == Err::<
                Seq<Seq<u32>>,
                Seq<char>,
            >(e@),
        },
{
    let ghost gv = token_views(grid@);
    let mut out: Vec<Vec<u32>> = Vec::new();
    let mut i: usize = 0;
    assert(clue_lists(out@) + Seq::<Seq<u32>>::empty() =~= clue_lists(out@));
    while i < n
        invariant
            i <= n,
            offset + n <= usize::MAX,
            gv == token_views(grid@),
            by_row ==> offset + n <= grid@.len() && forall|k: int|
                offset <= k < offset + n ==> depth <= (#[trigger] grid@[k])@.len(),
            !by_row ==> depth <= grid@.len() && forall|k: int| 0 <= k < depth ==> offset + n <= (#[trigger] grid@[k])@.len(),
            clue_lines(gv, 0, n as nat, offset as nat, depth as nat, by_row) == match clue_lines(
                gv,
                i as nat,
                n as nat,
                offset as nat,
                depth as nat,
                by_row,
            ) {
                Ok(r) => Ok(clue_lists(out@) + r),
                Err(e) => Err::<Seq<Seq<u32>>, Seq<char>>(e),
            },
        decreases n - i,
    {
        match read_clue_run(grid, offset + i, depth, by_row) {
            Err(e) => {
                return Err(e);
            },
            Ok(q) => {
                let ghost before = clue_lists(out@);
                let ghost qv = q@;
                out.push(q);
                proof {
                    assert(clue_lists(out@) =~= before.push(qv));
                    match clue_lines(gv, (i + 1) as nat, n as nat, offset as nat, depth as nat, by_row) {
                        Ok(t) => {
                            assert(before + (seq![qv] + t) =~= clue_lists(out@) + t);
                        },
                        Err(e) => {},
                    }
                }
            },
        }
        i += 1;
    }
    assert(clue_lists(out@) + Seq::<Seq<u32>>::empty() =~= clue_lists(out@));
    Ok(out)
}

/// Reads `total` token rows of `cols` tokens from lines `start..`.
fn read_token_rows(ls: &Vec<Vec<char>>, start: usize, total: usize, cols: usize) -> (r: Result<
    Vec<Vec<Vec<char>>>,
    String,
>)
    requires
        start <= ls@.len(),
    ensures
        match r {
            Ok(g) => token_rows(views(ls@), start as nat, 0, total as nat, cols as nat) == Ok::<
                Seq<Seq<Seq<char>>>,
                Seq<char>,
            >(token_views(g@)) && g@.len() == total && forall|k: int|
                0 <= k < total ==> (#[trigger] g@[k])@.len() == cols,
            Err(e) => token_rows(views(ls@), start as nat, 0, total as nat, cols as nat) == Err::<
                Seq<Seq<Seq<char>>>,
                Seq<char>,
            >(e@),
        },
{
    let ghost lv = views(ls@);
    let mut out: Vec<Vec<Vec<char>>> = Vec::new();
    let mut i: usize = 0;
    assert(token_views(out@) + Seq::<Seq<Seq<char>>>::empty() =~= token_views(out@));
    while i < total
        invariant
            i <= total,
            start <= ls@.len(),
            lv == views(ls@),
            out@.len() == i,
            forall|k: int| 0 <= k < i ==> (#[trigger] out@[k])@.len() == cols,
            token_rows(lv, start as nat, 0, total as nat, cols as nat) == match token_rows(
                lv,
                start as nat,
                i as nat,
                total as nat,
                cols as nat,
            ) {
                Ok(r) => Ok(token_views(out@) + r),
                Err(e) => Err::<Seq<Seq<Seq<char>>>, Seq<char>>(e),
            },
        decreases total - i,
    {
        if i >= ls.len() - start {
            let mut m: Vec<char> = Vec::new();
            extend_str(&mut m, "Missing row ");
            extend_decimal(&mut m, i as u64);
            return Err(chars_to_string(m.as_slice()));
        }
        assert(lv[start + i] == ls@[start + i]@);
        let toks = crate::text::split_words(ls[start + i].as_slice());
        if toks.len() != cols {
            let mut m: Vec<char> = Vec::new();
            extend_str(&mut m, "Row ");
            extend_decimal(&mut m, i as u64);
            extend_str(&mut m, ": expected ");
            extend_decimal(&mut m, cols as u64);
            extend_str(&mut m, " tokens, got ");
            extend_decimal(&mut m, toks.len() as u64);
            return Err(chars_to_string(m.as_slice()));
        }
        let ghost before = token_views(out@);
        let ghost tv = views(toks@);
        out.push(toks);
        proof {
            assert(token_views(out@) =~= before.push(tv));
            match token_rows(lv, start as nat, (i + 1) as nat, total as nat, cols as nat) {
                Ok(t) => {
                    assert(before + (seq![tv] + t) =~= token_views(out@) + t);
                },
                Err(e) => {},
            }
        }
        i += 1;
    }
    assert(token_views(out@) + Seq::<Seq<Seq<char>>>::empty() =~= token_views(out@));
    Ok(out)
}

/// Parses a Puz-Pre v3 text into its puzzle.
pub fn parse_pzprv3(content: &str) -> (r: Result<Vec<crate::parse::ParsedPuzzle>, String>)
    requires
        pzprv3_sizes_fit(content@),
    ensures
        match r {
            Ok(v) => pzprv3_model(content@) is Ok && crate::parse::entry_models(v@) == seq![
                crate::parse::EntryModel::Valid(pzprv3_model(content@)->Ok_0),
            ],
            Err(e) => pzprv3_model(content@) == Err::<PuzzleModel, Seq<char>>(e@),
        },
{
    let cc = str_to_chars(content);
    let ls = crate::text::split_lines_chars(cc.as_slice());
    let ghost lv = views(ls@);
    let l0 = if ls.len() > 0 { crate::text::trim_chars(ls[0].as_slice()) } else { Vec::new() };
    proof {
        if lv.len() > 0 {
            assert(lv[0] == ls@[0]@);
        } else {
            assert(crate::text::trim(Seq::<char>::empty()) =~= Seq::<char>::empty());
        }
    }
    if !crate::text::chars_eq(l0.as_slice(), str_to_chars("pzprv3").as_slice()) {
        let mut m: Vec<char> = Vec::new();
        extend_str(&mut m, "Expected 'pzprv3', got '");
        extend_chars(&mut m, l0.as_slice());
        extend_str(&mut m, "'");
        return Err(chars_to_string(m.as_slice()));
    }
    let l1 = if ls.len() > 1 { crate::text::trim_chars(ls[1].as_slice()) } else { Vec::new() };
    proof {
        if lv.len() > 1 {
            assert(lv[1] == ls@[1]@);
        } else {
            assert(crate::text::trim(Seq::<char>::empty()) =~= Seq::<char>::empty());
        }
    }
    if !crate::text::chars_eq(l1.as_slice(), str_to_chars("nonogram").as_slice()) {
        let mut m: Vec<char> = Vec::new();
        extend_str(&mut m, "Expected 'nonogram', got '");
        extend_chars(&mut m, l1.as_slice());
        extend_str(&mut m, "'");
        return Err(chars_to_string(m.as_slice()));
    }
    if ls.len() < 3 {
        return Err(crate::convert::owned("Missing height"));
    }
    assert(lv[2] == ls@[2]@);
    let h = match crate::text::parse_usize_chars(crate::text::trim_chars(ls[2].as_slice()).as_slice()) {
        Some(x) => x,
        None => {
            return Err(crate::convert::owned("Invalid height"));
        },
    };
    if ls.len() < 4 {
        return Err(crate::convert::owned("Missing width"));
    }
    assert(lv[3] == ls@[3]@);
    let w = match crate::text::parse_usize_chars(crate::text::trim_chars(ls[3].as_slice()).as_slice()) {
        Some(x) => x,
        None => {
            return Err(crate::convert::owned("Invalid width"));
        },
    };
    if w == 0 || h == 0 {
        return Err(crate::convert::owned("Zero-dimension puzzle"));
    }
    let max_cd = h / 2 + h % 2;
    let max_rd = w / 2 + w % 2;
    let total_rows = max_cd + h;
    let total_cols = max_rd + w;
    let grid = match read_token_rows(&ls, 4, total_rows, total_cols) {
        Ok(g) => g,
        Err(e) => {
            return Err(e);
        },
    };
    let col_clues = match read_clue_lines(&grid, w, max_rd, max_cd, false) {
        Ok(c) => c,
        Err(e) => {
            return Err(e);
        },
    };
    let row_clues = match read_clue_lines(&grid, h, max_cd, max_rd, true) {
        Ok(c) => c,
        Err(e) => {
            return Err(e);
        },
    };
    let mut name: Vec<char> = Vec::new();
    extend_decimal(&mut name, w as u64);
    extend_str(&mut name, "×");
    extend_decimal(&mut name, h as u64);
    let puzzle = Puzzle {
        name: chars_to_string(name.as_slice()),
        width: w,
        height: h,
        col_clues,
        row_clues,
        answer: None,
        solution: None,
    };
    let mut v: Vec<crate::parse::ParsedPuzzle> = Vec::new();
    v.push(crate::parse::ParsedPuzzle::Valid(puzzle));
    assert(crate::parse::entry_models(v@) =~= seq![crate::parse::EntryModel::Valid(pzprv3_model(content@)->Ok_0)]);
    Ok(v)
}

/// A step that is a branching decision: its description mentions
/// `": branch"`.
pub open spec fn is_branch(st: crate::types::SolveStep) -> bool {
    crate::text::find_from(st.description@, ": branch"@, 0) is Some
}

/// The 1-based numbers of the branching steps among the first `k`.
pub open spec fn branch_numbers(steps: Seq<crate::types::SolveStep>, k: nat) -> Seq<nat>
    decreases k,
{
    if k == 0 || k > steps.len() {
        Seq::empty()
    } else {
        branch_numbers(steps, (k - 1) as nat) + (if is_branch(steps[k - 1]) { seq![k] } else { Seq::empty() })
    }
}

/// `s` right-aligned in a field of `width` characters.
pub open spec fn pad_left(s: Seq<char>, width: nat) -> Seq<char> {
    if s.len() < width { Seq::new((width - s.len()) as nat, |_i: int| ' ') + s } else { s }
}

/// The glyph of a cell before a step: filled or not.
pub open spec fn glyph(st: CellState) -> char {
    if st == CellState::Filled { '\u{25A0}' } else { '\u{25A1}' }
}

/// Some change of `chs` is at `(r, c)`.
pub open spec fn changed_at(chs: Seq<(usize, usize, CellState)>, r: int, c: int) -> bool {
    exists|k: int| 0 <= k < chs.len() && (#[trigger] chs[k]).0 == r && chs[k].1 == c
}

/// The glyph of a cell after a step: a changed cell shows filled or
/// crossed, an unchanged one as before.
pub open spec fn after_glyph(st: CellState, changed: bool) -> char {
    if changed {
        if st == CellState::Filled { '\u{25A0}' } else { '\u{00D7}' }
    } else {
        glyph(st)
    }
}

/// The glyphs of a row or column of a grid, before a step.
pub open spec fn before_glyphs(g: Seq<CellState>, w: nat, h: nat, lid: crate::types::LineId) -> Seq<char> {
    match lid {
        crate::types::LineId::Row(r) => Seq::new(w, |c: int| glyph(g[r * w + c])),
        crate::types::LineId::Col(c) => Seq::new(h, |r: int| glyph(g[r * w + c])),
    }
}

/// The glyphs of a row or column of a grid, after a step with changes `chs`.
pub open spec fn after_glyphs(
    g: Seq<CellState>,
    chs: Seq<(usize, usize, CellState)>,
    w: nat,
    h: nat,
    lid: crate::types::LineId,
) -> Seq<char> {
    match lid {
        crate::types::LineId::Row(r) => Seq::new(w, |c: int| after_glyph(g[r * w + c], changed_at(chs, r as int, c))),
        crate::types::LineId::Col(c) => Seq::new(h, |r: int| after_glyph(g[r * w + c], changed_at(chs, r, c as int))),
    }
}

/// The log entry of step number `n` (1-based), replayed from grid `g`.
pub open spec fn step_entry(st: crate::types::SolveStep, n: nat, g: Seq<CellState>, w: nat, h: nat, wd: nat) -> Seq<
    char,
> {
    let nc = st.cells_changed@.len();
    let head = "\n  Step "@ + pad_left(decimal(n), wd) + (if is_branch(st) { "  \u{2605} BRANCH  "@ } else { "  "@ })
        + st.description@ + "  ["@ + decimal(nc) + " cell"@ + (if nc == 1 { Seq::empty() } else { "s"@ }) + "]\n"@;
    match st.line {
        Some(lid) => {
            let after = crate::types::apply_changes(g, w, st.cells_changed@);
            let prefix = Seq::new(wd + 9, |_i: int| ' ');
            head + prefix + "  "@ + before_glyphs(g, w, h, lid) + "\n"@ + prefix + "\u{2192} "@ + after_glyphs(
                after,
                st.cells_changed@,
                w,
                h,
                lid,
            ) + "\n"@
        },
        None => head,
    }
}

/// The log entries of the first `k` steps.
pub open spec fn step_entries(steps: Seq<crate::types::SolveStep>, w: nat, h: nat, wd: nat, k: nat) -> Seq<char>
    decreases k,
{
    if k == 0 || k > steps.len() {
        Seq::empty()
    } else {
        step_entries(steps, w, h, wd, (k - 1) as nat) + step_entry(
            steps[k - 1],
            k,
            replay(crate::types::blank(w * h), w, steps.take(k - 1)),
            w,
            h,
            wd,
        )
    }
}

/// The solve-log report of a trace.
pub open spec fn solve_log_text(name: Seq<char>, w: nat, h: nat, steps: Seq<crate::types::SolveStep>) -> Seq<char> {
    let n = steps.len();
    let branches = branch_numbers(steps, n);
    let branch_line = if branches.len() == 0 {
        "0  (none)"@
    } else {
        decimal(branches.len()) + "  (steps "@ + crate::text::join(branches.map_values(|b: nat| decimal(b)), ", "@)
            + ")"@
    };
    "=== Solve Log ===\n"@ + "Puzzle: \""@ + name + "\" ("@ + decimal(w) + "×"@ + decimal(h) + ")\n\n"@
        + "Summary\n-------\n"@ + "Total steps:       "@ + decimal(n) + "\n"@ + "Propagation steps: "@ + decimal(
        (n - branches.len()) as nat,
    ) + "\n"@ + "Branching steps:   "@ + branch_line + "\n"@ + (if n > 0 {
        "\nSteps\n-----\n"@ + step_entries(steps, w, h, decimal(n).len(), n)
    } else {
        Seq::empty()
    })
}

/// Applies one step's changes to a grid.
fn apply_step(grid: &mut Vec<CellState>, w: usize, changes: &Vec<(usize, usize, CellState)>)
    requires
        forall|j: int|
            0 <= j < changes@.len() ==> {
                let ch = #[trigger] changes@[j];
                ch.1 < w && ch.0 * w + ch.1 < old(grid)@.len()
            },
    ensures
        final(grid)@ == crate::types::apply_changes(old(grid)@, w as nat, changes@),
{
    let ghost g0 = old(grid)@;
    let mut j: usize = 0;
    let len = grid.len();
    assert(changes@.take(0) =~= Seq::<(usize, usize, CellState)>::empty());
    while j < changes.len()
        invariant
            j <= changes@.len(),
            grid@.len() == g0.len(),
            len == g0.len(),
            forall|m: int|
                0 <= m < changes@.len() ==> {
                    let ch = #[trigger] changes@[m];
                    ch.1 < w && ch.0 * w + ch.1 < g0.len()
                },
            grid@ == crate::types::apply_changes(g0, w as nat, changes@.take(j as int)),
        decreases changes@.len() - j,
    {
        let (r, c, st) = changes[j];
        proof {
            assert(changes@.take(j + 1).drop_last() =~= changes@.take(j as int));
            crate::types::lemma_apply_changes_len(g0, w as nat, changes@.take(j as int));
        }
        grid.set(r * w + c, st);
        j += 1;
    }
    assert(changes@.take(changes@.len() as int) =~= changes@);
}

/// Whether some change is at `(r, c)`.
fn changed_exec(chs: &Vec<(usize, usize, CellState)>, r: usize, c: usize) -> (b: bool)
    ensures
        b == changed_at(chs@, r as int, c as int),
{
    let mut k: usize = 0;
    while k < chs.len()
        invariant
            k <= chs@.len(),
            forall|m: int| 0 <= m < k ==> !((#[trigger] chs@[m]).0 == r && chs@[m].1 == c),
        decreases chs@.len() - k,
    {
        if chs[k].0 == r && chs[k].1 == c {
            return true;
        }
        k += 1;
    }
    false
}

/// The glyph character of a cell before a step.
fn glyph_exec(st: CellState) -> (c: char)
    ensures
        c == glyph(st),
{
    if st == CellState::Filled { '\u{25A0}' } else { '\u{25A1}' }
}

/// The glyphs of a line before (`chs` is `None`) or after a step.
fn line_glyphs(
    g: &Vec<CellState>,
    w: usize,
    h: usize,
    lid: crate::types::LineId,
    chs: Option<&Vec<(usize, usize, CellState)>>,
) -> (v: Vec<char>)
    requires
        g@.len() == w * h,
        match lid {
            crate::types::LineId::Row(r) => r < h || w == 0,
            crate::types::LineId::Col(c) => c < w || h == 0,
        },
    ensures
        match chs {
            None => v@ == before_glyphs(g@, w as nat, h as nat, lid),
            Some(c) => v@ == after_glyphs(g@, c@, w as nat, h as nat, lid),
        },
{
    let mut v: Vec<char> = Vec::new();
    let _len = g.len();
    match lid {
        crate::types::LineId::Row(r) => {
            let mut c: usize = 0;
            while c < w
                invariant
                    c <= w,
                    r < h || w == 0,
                    g@.len() == w * h,
                    _len == g@.len(),
                    match chs {
                        None => v@ == Seq::new(c as nat, |k: int| glyph(g@[r * w + k])),
                        Some(x) => v@ == Seq::new(
                            c as nat,
                            |k: int| after_glyph(g@[r * w + k], changed_at(x@, r as int, k)),
                        ),
                    },
                decreases w - c,
            {
                proof {
                    crate::search::lemma_cell_index(r as int, c as int, h as int, w as int);
                    assert(h * w == w * h) by (nonlinear_arith);
                }
                let st = g[r * w + c];
                let ch = match chs {
                    None => glyph_exec(st),
                    Some(x) => {
                        if changed_exec(x, r, c) {
                            if st == CellState::Filled { '\u{25A0}' } else { '\u{00D7}' }
                        } else {
                            glyph_exec(st)
                        }
                    },
                };
                v.push(ch);
                c += 1;
                proof {
                    match chs {
                        None => {
                            assert(v@ =~= Seq::new(c as nat, |k: int| glyph(g@[r * w + k])));
                        },
                        Some(x) => {
                            assert(v@ =~= Seq::new(
                                c as nat,
                                |k: int| after_glyph(g@[r * w + k], changed_at(x@, r as int, k)),
                            ));
                        },
                    }
                }
            }
        },
        crate::types::LineId::Col(c) => {
            let mut r: usize = 0;
            while r < h
                invariant
                    r <= h,
                    c < w || h == 0,
                    g@.len() == w * h,
                    _len == g@.len(),
                    match chs {
                        None => v@ == Seq::new(r as nat, |k: int| glyph(g@[k * w + c])),
                        Some(x) => v@ == Seq::new(
                            r as nat,
                            |k: int| after_glyph(g@[k * w + c], changed_at(x@, k, c as int)),
                        ),
                    },
                decreases h - r,
            {
                proof {
                    crate::search::lemma_cell_index(r as int, c as int, h as int, w as int);
                    assert(h * w == w * h) by (nonlinear_arith);
                }
                let st = g[r * w + c];
                let ch = match chs {
                    None => glyph_exec(st),
                    Some(x) => {
                        if changed_exec(x, r, c) {
                            if st == CellState::Filled { '\u{25A0}' } else { '\u{00D7}' }
                        } else {
                            glyph_exec(st)
                        }
                    },
                };
                v.push(ch);
                r += 1;
                proof {
                    match chs {
                        None => {
                            assert(v@ =~= Seq::new(r as nat, |k: int| glyph(g@[k * w + c])));
                        },
                        Some(x) => {
                            assert(v@ =~= Seq::new(
                                r as nat,
                                |k: int| after_glyph(g@[k * w + c], changed_at(x@, k, c as int)),
                            ));
                        },
                    }
                }
            }
        },
    }
    v
}

/// Every step's changes lie in the grid, and every step's line lies in it
/// too unless that line has no cells (a row of a grid of width zero, a
/// column of a grid of height zero).
pub open spec fn trace_in_grid(steps: Seq<crate::types::SolveStep>, w: nat, h: nat) -> bool {
    &&& crate::assist::changes_in_grid(steps, steps.len() as int, w, w * h)
    &&& forall|i: int|
        0 <= i < steps.len() ==> match (#[trigger] steps[i]).line {
            Some(crate::types::LineId::Row(r)) => r < h || w == 0,
            Some(crate::types::LineId::Col(c)) => c < w || h == 0,
            None => true,
        }
}

/// Whether a step is a branching decision.
fn branch_step(st: &crate::types::SolveStep) -> (b: bool)
    ensures
        b == is_branch(*st),
{
    let d = str_to_chars(st.description.as_str());
    let p = str_to_chars(": branch");
    crate::text::find_chars(d.as_slice(), p.as_slice(), 0).is_some()
}

/// The solve-log report of a trace: a summary of step counts, then each
/// step with the line it acted on before and after.
pub fn format_solve_log(name: &str, width: usize, height: usize, steps: &Vec<crate::types::SolveStep>) -> (s: String)
    requires
        width * height <= usize::MAX,
        trace_in_grid(steps@, width as nat, height as nat),
    ensures
        s@ == solve_log_text(name@, width as nat, height as nat, steps@),
{
    let n = steps.len();
    let mut branches: Vec<usize> = Vec::new();
    let mut i: usize = 0;
    while i < n
        invariant
            i <= n,
            n == steps@.len(),
            branches@.map_values(|b: usize| b as nat) == branch_numbers(steps@, i as nat),
            forall|k: int| 0 <= k < branches@.len() ==> branches@[k] <= i,
        decreases n - i,
    {
        let ghost before = branches@.map_values(|b: usize| b as nat);
        if branch_step(&steps[i]) {
            branches.push(i + 1);
            assert(branches@.map_values(|b: usize| b as nat) =~= before + seq![(i + 1) as nat]);
        } else {
            assert(branches@.map_values(|b: usize| b as nat) =~= before + Seq::<nat>::empty());
        }
        i += 1;
    }
    let ghost bn = branch_numbers(steps@, n as nat);
    proof {
        assert(bn.len() == branches@.len());
        assert(branches@.len() <= n) by {
            lemma_branch_numbers_len(steps@, n as nat);
        }
    }
    let prop_count = n - branches.len();
    let mut branch_line: Vec<char> = Vec::new();
    if branches.len() == 0 {
        extend_str(&mut branch_line, "0  (none)");
    } else {
        let mut parts: Vec<Vec<char>> = Vec::new();
        let mut k: usize = 0;
        while k < branches.len()
            invariant
                k <= branches@.len(),
                views(parts@) == branches@.take(k as int).map_values(|b: usize| decimal(b as nat)),
            decreases branches@.len() - k,
        {
            let ghost before = views(parts@);
            let d = decimal_chars(branches[k] as u64);
            let ghost dv = d@;
            parts.push(d);
            assert(views(parts@) =~= before.push(dv));
            k += 1;
            assert(views(parts@) =~= branches@.take(k as int).map_values(|b: usize| decimal(b as nat)));
        }
        assert(branches@.take(branches@.len() as int) =~= branches@);
        assert(branches@.map_values(|b: usize| decimal(b as nat)) =~= bn.map_values(|b: nat| decimal(b)));
        extend_decimal(&mut branch_line, branches.len() as u64);
        extend_str(&mut branch_line, "  (steps ");
        let j = crate::text::join_chars(&parts, str_to_chars(", ").as_slice());
        extend_chars(&mut branch_line, j.as_slice());
        extend_str(&mut branch_line, ")");
    }
    let mut out: Vec<char> = Vec::new();
    extend_str(&mut out, "=== Solve Log ===\n");
    extend_str(&mut out, "Puzzle: \"");
    extend_str(&mut out, name);
    extend_str(&mut out, "\" (");
    extend_decimal(&mut out, width as u64);
    extend_str(&mut out, "×");
    extend_decimal(&mut out, height as u64);
    extend_str(&mut out, ")\n\n");
    extend_str(&mut out, "Summary\n-------\n");
    extend_str(&mut out, "Total steps:       ");
    extend_decimal(&mut out, n as u64);
    extend_str(&mut out, "\n");
    extend_str(&mut out, "Propagation steps: ");
    extend_decimal(&mut out, prop_count as u64);
    extend_str(&mut out, "\n");
    extend_str(&mut out, "Branching steps:   ");
    extend_chars(&mut out, branch_line.as_slice());
    extend_str(&mut out, "\n");
    if n > 0 {
        extend_str(&mut out, "\nSteps\n-----\n");
        let ghost head = out@;
        let wd = decimal_chars(n as u64).len();
        let mut grid = crate::human::unknown_cells(width * height);
        let mut i: usize = 0;
        assert(steps@.take(0) =~= Seq::<crate::types::SolveStep>::empty());
        while i < n
            invariant
                i <= n,
                n == steps@.len(),
                width * height <= usize::MAX,
                trace_in_grid(steps@, width as nat, height as nat),
                wd == decimal(n as nat).len(),
                grid@ == replay(crate::types::blank((width * height) as nat), width as nat, steps@.take(i as int)),
                grid@.len() == width * height,
                out@ == head + step_entries(steps@, width as nat, height as nat, wd as nat, i as nat),
            decreases n - i,
        {
            let st = &steps[i];
            let ghost g0 = grid@;
            let mut e: Vec<char> = Vec::new();
            extend_str(&mut e, "\n  Step ");
            let num = decimal_chars((i + 1) as u64);
            let mut pad: usize = num.len();
            while pad < wd
                invariant
                    num@.len() <= pad <= wd || num@.len() >= wd,
                    num@.len() >= wd ==> pad == num@.len(),
                    pad >= num@.len(),
                    e@ == "\n  Step "@ + Seq::new((pad - num@.len()) as nat, |_i: int| ' '),
                decreases wd - pad,
            {
                e.push(' ');
                pad += 1;
                assert(e@ =~= "\n  Step "@ + Seq::new((pad - num@.len()) as nat, |_i: int| ' '));
            }
            extend_chars(&mut e, num.as_slice());
            proof {
                if num@.len() < wd {
                    assert(pad == wd);
                } else {
                    assert(Seq::new((pad - num@.len()) as nat, |_i: int| ' ') =~= Seq::<char>::empty());
                }
                assert(e@ =~= "\n  Step "@ + pad_left(decimal((i + 1) as nat), wd as nat));
            }
            if branch_step(st) {
                extend_str(&mut e, "  \u{2605} BRANCH  ");
            } else {
                extend_str(&mut e, "  ");
            }
            extend_str(&mut e, st.description.as_str());
            extend_str(&mut e, "  [");
            let nc = st.cells_changed.len();
            extend_decimal(&mut e, nc as u64);
            extend_str(&mut e, " cell");
            if nc != 1 {
                extend_str(&mut e, "s");
            }
            extend_str(&mut e, "]\n");
            proof {
                assert(st == steps@[i as int]);
                assert forall|j: int| 0 <= j < st.cells_changed@.len() implies {
                    let ch = #[trigger] st.cells_changed@[j];
                    ch.1 < width && ch.0 * width + ch.1 < grid@.len()
                } by {
                    assert(st.cells_changed@[j] == steps@[i as int].cells_changed@[j]);
                }
            }
            match st.line {
                Some(lid) => {
                    let before = line_glyphs(&grid, width, height, lid, None);
                    apply_step(&mut grid, width, &st.cells_changed);
                    proof {
                        crate::types::lemma_apply_changes_len(g0, width as nat, st.cells_changed@);
                    }
                    let after = line_glyphs(&grid, width, height, lid, Some(&st.cells_changed));
                    let mut k: usize = 0;
                    let mut prefix: Vec<char> = Vec::new();
                    extend_str(&mut prefix, "         ");
                    proof {
                        reveal_strlit("         ");
                        assert(prefix@ =~= Seq::new(9, |_i: int| ' '));
                    }
                    while k < wd
                        invariant
                            k <= wd,
                            prefix@ == Seq::new((k + 9) as nat, |_i: int| ' '),
                        decreases wd - k,
                    {
                        prefix.push(' ');
                        k += 1;
                        assert(prefix@ =~= Seq::new((k + 9) as nat, |_i: int| ' '));
                    }
                    extend_chars(&mut e, prefix.as_slice());
                    extend_str(&mut e, "  ");
                    extend_chars(&mut e, before.as_slice());
                    extend_str(&mut e, "\n");
                    extend_chars(&mut e, prefix.as_slice());
                    extend_str(&mut e, "\u{2192} ");
                    extend_chars(&mut e, after.as_slice());
                    extend_str(&mut e, "\n");
                },
                None => {
                    apply_step(&mut grid, width, &st.cells_changed);
                },
            }
            proof {
                assert(e@ =~= step_entry(steps@[i as int], (i + 1) as nat, g0, width as nat, height as nat, wd as nat));
                assert(steps@.take(i + 1).drop_last() =~= steps@.take(i as int));
                assert(steps@.take(i + 1).last() == steps@[i as int]);
                crate::types::lemma_apply_changes_len(g0, width as nat, st.cells_changed@);
            }
            extend_chars(&mut out, e.as_slice());
            i += 1;
        }
    }
    proof {
        assert(n > 0 ==> steps@.take(n as int) =~= steps@);
    }
    chars_to_string(out.as_slice())
}

proof fn lemma_branch_numbers_len(steps: Seq<crate::types::SolveStep>, k: nat)
    requires
        k <= steps.len(),
    ensures
        branch_numbers(steps, k).len() <= k,
    decreases k,
{
    if k > 0 {
        lemma_branch_numbers_len(steps, (k - 1) as nat);
    }
}

} // verus!
