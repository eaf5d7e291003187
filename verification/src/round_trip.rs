//! What reading gives back of writing: a puzzle written as one line of the
//! native format parses back to the same puzzle, and the clues written as a
//! Puz-Pre v3 layout or as a puzz.link URL read back as the same clues.
use vstd::prelude::*;
use crate::convert::{clue_line_text, clues_text};
use crate::export::{
    clue_lines, clue_run, clue_token_value, file_text, group_code, group_finish, groups_code, groups_from, half_up,
    hex, hex_digit, hex_pair, hex_value, is_hex_digit, line_or_empty, puzzlink_text, pz_group, pzprv3_model,
    pzprv3_rows, pzprv3_sizes_fit, pzprv3_text, pzprv3_token, run_char, solution_text, token_rows, url_model,
    value_code, values_code, zero_run, zero_weight, zeros_code,
};
use crate::parse::{
    ErrModel, answer_field, both_sections, drop_zeros, finish_line, group_values, groups_values, line_model,
    normalized, pipe_group, section_prefix, solution_cells, cell_count,
};
use crate::text::{
    all_digits, decimal, digit_char, digit_value, digits_value, is_ws, join, lines, parse_u32, parse_usize,
    split_from, split_on, splitn_from, splitn_on, strip_cr, trim, trim_end, trim_start, words, words_from,
};
use crate::types::{CellState, PuzzleModel};

verus! {

/// `s` does not contain `c`.
pub open spec fn free_of(s: Seq<char>, c: char) -> bool {
    forall|i: int| 0 <= i < s.len() ==> s[i] != c
}

/// `s` holds no whitespace.
pub open spec fn no_ws(s: Seq<char>) -> bool {
    forall|i: int| 0 <= i < s.len() ==> !is_ws(#[trigger] s[i])
}

proof fn lemma_split_chunk(x: Seq<char>, s: Seq<char>, sep: char, cur: Seq<char>)
    requires
        free_of(x, sep),
    ensures
        split_from(x + s, sep, cur) == split_from(s, sep, cur + x),
    decreases x.len(),
{
    if x.len() == 0 {
        assert(x + s =~= s);
        assert(cur + x =~= cur);
    } else {
        assert((x + s).drop_first() =~= x.drop_first() + s);
        assert((x + s)[0] == x[0]);
        lemma_split_chunk(x.drop_first(), s, sep, cur.push(x[0]));
        assert(cur.push(x[0]) + x.drop_first() =~= cur + x);
    }
}

proof fn lemma_split_concat(x: Seq<char>, y: Seq<char>, sep: char, cur: Seq<char>)
    ensures
        split_from(x + seq![sep] + y, sep, cur) == split_from(x, sep, cur) + split_from(y, sep, Seq::empty()),
    decreases x.len(),
{
    if x.len() == 0 {
        assert(x + seq![sep] + y =~= seq![sep] + y);
        assert((seq![sep] + y).drop_first() =~= y);
    } else {
        let t = x + seq![sep] + y;
        assert(t.drop_first() =~= x.drop_first() + seq![sep] + y);
        assert(t[0] == x[0]);
        if x[0] == sep {
            lemma_split_concat(x.drop_first(), y, sep, Seq::empty());
        } else {
            lemma_split_concat(x.drop_first(), y, sep, cur.push(x[0]));
        }
    }
}

/// Splitting the parts joined by `sep` gives the parts back when none of
/// them holds `sep`.
proof fn lemma_split_join(parts: Seq<Seq<char>>, sep: char)
    requires
        parts.len() >= 1,
        forall|i: int| 0 <= i < parts.len() ==> free_of(#[trigger] parts[i], sep),
    ensures
        split_on(join(parts, seq![sep]), sep) == parts,
    decreases parts.len(),
{
    if parts.len() == 1 {
        lemma_split_chunk(parts[0], Seq::empty(), sep, Seq::empty());
        assert(parts[0] + Seq::<char>::empty() =~= parts[0]);
        assert(Seq::<char>::empty() + parts[0] =~= parts[0]);
        assert(seq![parts[0]] =~= parts);
    } else {
        let d = parts.drop_last();
        assert(forall|i: int| 0 <= i < d.len() ==> d[i] == parts[i]);
        lemma_split_join(d, sep);
        lemma_split_concat(join(d, seq![sep]), parts.last(), sep, Seq::empty());
        lemma_split_chunk(parts.last(), Seq::empty(), sep, Seq::empty());
        assert(parts.last() + Seq::<char>::empty() =~= parts.last());
        assert(Seq::<char>::empty() + parts.last() =~= parts.last());
        assert(d + seq![parts.last()] =~= parts);
    }
}

proof fn lemma_splitn_chunk(x: Seq<char>, s: Seq<char>, n: nat, sep: char, cur: Seq<char>)
    requires
        free_of(x, sep),
    ensures
        splitn_from(x + s, n, sep, cur) == splitn_from(s, n, sep, cur + x),
    decreases x.len(),
{
    if x.len() == 0 {
        assert(x + s =~= s);
        assert(cur + x =~= cur);
    } else {
        assert((x + s).drop_first() =~= x.drop_first() + s);
        assert((x + s)[0] == x[0]);
        lemma_splitn_chunk(x.drop_first(), s, n, sep, cur.push(x[0]));
        assert(cur.push(x[0]) + x.drop_first() =~= cur + x);
    }
}

/// One piece free of `sep`, then `sep`, then the rest.
proof fn lemma_splitn_piece(x: Seq<char>, y: Seq<char>, n: nat, sep: char)
    requires
        free_of(x, sep),
        n > 1,
    ensures
        splitn_from(x + seq![sep] + y, n, sep, Seq::empty()) == seq![x] + splitn_from(
            y,
            (n - 1) as nat,
            sep,
            Seq::empty(),
        ),
{
    assert(x + seq![sep] + y =~= x + (seq![sep] + y));
    lemma_splitn_chunk(x, seq![sep] + y, n, sep, Seq::empty());
    assert(Seq::<char>::empty() + x =~= x);
    assert((seq![sep] + y).drop_first() =~= y);
}

/// The last piece: free of `sep`.
proof fn lemma_splitn_last(x: Seq<char>, n: nat, sep: char)
    requires
        free_of(x, sep),
    ensures
        splitn_from(x, n, sep, Seq::empty()) == seq![x],
{
    lemma_splitn_chunk(x, Seq::empty(), n, sep, Seq::empty());
    assert(x + Seq::<char>::empty() =~= x);
    assert(Seq::<char>::empty() + x =~= x);
}

proof fn lemma_words_chunk(x: Seq<char>, s: Seq<char>, cur: Seq<char>)
    requires
        no_ws(x),
    ensures
        words_from(x + s, cur) == words_from(s, cur + x),
    decreases x.len(),
{
    if x.len() == 0 {
        assert(x + s =~= s);
        assert(cur + x =~= cur);
    } else {
        assert((x + s).drop_first() =~= x.drop_first() + s);
        assert((x + s)[0] == x[0]);
        assert(!is_ws(x[0]));
        lemma_words_chunk(x.drop_first(), s, cur.push(x[0]));
        assert(cur.push(x[0]) + x.drop_first() =~= cur + x);
    }
}

proof fn lemma_words_concat(x: Seq<char>, y: Seq<char>, cur: Seq<char>)
    ensures
        words_from(x + seq![' '] + y, cur) == words_from(x, cur) + words_from(y, Seq::empty()),
    decreases x.len(),
{
    assert(is_ws(' '));
    if x.len() == 0 {
        assert(x + seq![' '] + y =~= seq![' '] + y);
        assert((seq![' '] + y).drop_first() =~= y);
        if cur.len() > 0 {
        } else {
            assert(Seq::<Seq<char>>::empty() + words_from(y, Seq::empty()) =~= words_from(y, Seq::empty()));
            assert(words_from(x, cur) =~= Seq::<Seq<char>>::empty());
        }
    } else {
        let t = x + seq![' '] + y;
        assert(t.drop_first() =~= x.drop_first() + seq![' '] + y);
        assert(t[0] == x[0]);
        if is_ws(x[0]) {
            lemma_words_concat(x.drop_first(), y, Seq::empty());
            let head = if cur.len() > 0 { seq![cur] } else { Seq::<Seq<char>>::empty() };
            assert(head + (words_from(x.drop_first(), Seq::empty()) + words_from(y, Seq::empty())) =~= (head
                + words_from(x.drop_first(), Seq::empty())) + words_from(y, Seq::empty()));
        } else {
            lemma_words_concat(x.drop_first(), y, cur.push(x[0]));
        }
    }
}

/// The words of texts joined by single spaces are those texts, when each is
/// a non-empty run without whitespace.
proof fn lemma_words_join(ws: Seq<Seq<char>>)
    requires
        ws.len() >= 1,
        forall|i: int| 0 <= i < ws.len() ==> no_ws(#[trigger] ws[i]) && ws[i].len() > 0,
    ensures
        words(join(ws, " "@)) == ws,
    decreases ws.len(),
{
    reveal_strlit(" ");
    assert(" "@ =~= seq![' ']);
    if ws.len() == 1 {
        lemma_words_chunk(ws[0], Seq::empty(), Seq::empty());
        assert(ws[0] + Seq::<char>::empty() =~= ws[0]);
        assert(Seq::<char>::empty() + ws[0] =~= ws[0]);
        assert(seq![ws[0]] =~= ws);
    } else {
        let d = ws.drop_last();
        assert(forall|i: int| 0 <= i < d.len() ==> d[i] == ws[i]);
        lemma_words_join(d);
        lemma_words_concat(join(d, " "@), ws.last(), Seq::empty());
        lemma_words_chunk(ws.last(), Seq::empty(), Seq::empty());
        assert(ws.last() + Seq::<char>::empty() =~= ws.last());
        assert(Seq::<char>::empty() + ws.last() =~= ws.last());
        assert(d + seq![ws.last()] =~= ws);
    }
}

/// The decimal rendering of `n`: non-empty ASCII digits worth `n`.
proof fn lemma_decimal_digits(n: nat)
    ensures
        decimal(n).len() >= 1,
        all_digits(decimal(n)),
        digits_value(decimal(n)) == n,
        0x30 <= decimal(n)[0] as u32 <= 0x39,
        0x30 <= decimal(n).last() as u32 <= 0x39,
    decreases n,
{
    if n < 10 {
        let c = digit_char(n);
        assert(0x30 <= c as u32 <= 0x39 && c as u32 - 0x30 == n);
        assert(decimal(n) == seq![c]);
        assert(decimal(n).drop_last() =~= Seq::<char>::empty());
        assert(digits_value(Seq::<char>::empty()) == 0);
        assert(digit_value(c) == n);
    } else {
        lemma_decimal_digits(n / 10);
        let s = decimal(n / 10);
        let c = digit_char(n % 10);
        assert(0x30 <= c as u32 <= 0x39 && c as u32 - 0x30 == n % 10);
        assert(decimal(n).drop_last() =~= s);
        assert(decimal(n)[0] == s[0]);
        assert(digit_value(c) == n % 10);
        assert(digits_value(decimal(n)) == digits_value(s) * 10 + digit_value(c));
        assert((n / 10) * 10 + n % 10 == n);
    }
}

/// A `u32` written in decimal parses back to itself.
proof fn lemma_parse_decimal(n: u32)
    ensures
        parse_u32(decimal(n as nat)) == Some(n),
        no_ws(decimal(n as nat)),
        decimal(n as nat).len() > 0,
        free_of(decimal(n as nat), '|'),
        free_of(decimal(n as nat), '/'),
        free_of(decimal(n as nat), ';'),
{
    lemma_decimal_digits(n as nat);
    let d = decimal(n as nat);
    assert(d[0] != '+');
    assert forall|i: int| 0 <= i < d.len() implies !is_ws(#[trigger] d[i]) && d[i] != '|' && d[i] != '/'
        && d[i] != ';' by {
        assert(0x30 <= d[i] as u32 <= 0x39);
    }
}


/// Every character of `s` satisfies `pred`.
pub open spec fn all_chars(s: Seq<char>, pred: spec_fn(char) -> bool) -> bool {
    forall|i: int| 0 <= i < s.len() ==> pred(#[trigger] s[i])
}

/// An ASCII digit or a space.
pub open spec fn digit_or_space(c: char) -> bool {
    (0x30 <= c as u32 <= 0x39) || c == ' '
}

/// A character of a clue section: a digit, a space or `|`.
pub open spec fn clue_char(c: char) -> bool {
    digit_or_space(c) || c == '|'
}

proof fn lemma_join_chars(parts: Seq<Seq<char>>, sep: Seq<char>, pred: spec_fn(char) -> bool)
    requires
        forall|i: int| 0 <= i < parts.len() ==> all_chars(#[trigger] parts[i], pred),
        all_chars(sep, pred),
    ensures
        all_chars(join(parts, sep), pred),
    decreases parts.len(),
{
    if parts.len() > 1 {
        let d = parts.drop_last();
        assert(forall|i: int| 0 <= i < d.len() ==> d[i] == parts[i]);
        lemma_join_chars(d, sep, pred);
        let j = join(d, sep);
        let l = parts.last();
        assert(all_chars(l, pred));
        assert forall|i: int| 0 <= i < (j + sep + l).len() implies pred(#[trigger] (j + sep + l)[i]) by {
            if i < j.len() {
                assert((j + sep + l)[i] == j[i]);
            } else if i < j.len() + sep.len() {
                assert((j + sep + l)[i] == sep[i - j.len()]);
            } else {
                assert((j + sep + l)[i] == l[i - j.len() - sep.len()]);
            }
        }
    } else if parts.len() == 1 {
        assert(all_chars(parts[0], pred));
    }
}

proof fn lemma_join_last(parts: Seq<Seq<char>>, sep: Seq<char>)
    requires
        parts.len() >= 1,
        parts.last().len() > 0,
    ensures
        join(parts, sep).len() > 0,
        join(parts, sep).last() == parts.last().last(),
{
}

proof fn lemma_join_first(parts: Seq<Seq<char>>, sep: Seq<char>)
    requires
        parts.len() >= 1,
        parts[0].len() > 0,
    ensures
        join(parts, sep).len() > 0,
        join(parts, sep)[0] == parts[0][0],
    decreases parts.len(),
{
    if parts.len() > 1 {
        let d = parts.drop_last();
        assert(d[0] == parts[0]);
        lemma_join_first(d, sep);
    }
}

/// How a clue list reads back: an empty one is written as a lone `0`.
pub open spec fn shown(q: Seq<u32>) -> Seq<u32> {
    if q.len() == 0 { seq![0u32] } else { q }
}

/// The text of a clue list: non-empty digits and single spaces, starting
/// and ending with a digit.
proof fn lemma_clue_line_text(q: Seq<u32>)
    ensures
        clue_line_text(q).len() > 0,
        all_chars(clue_line_text(q), |c: char| digit_or_space(c)),
        0x30 <= clue_line_text(q)[0] as u32 <= 0x39,
        0x30 <= clue_line_text(q).last() as u32 <= 0x39,
        words(clue_line_text(q)) == (if q.len() == 0 {
            seq![decimal(0)]
        } else {
            q.map_values(|n: u32| decimal(n as nat))
        }),
{
    reveal_strlit("0");
    reveal_strlit(" ");
    if q.len() == 0 {
        lemma_decimal_digits(0);
        assert("0"@ =~= decimal(0));
        lemma_parse_decimal(0);
        lemma_words_join(seq![decimal(0)]);
        assert(join(seq![decimal(0)], " "@) == decimal(0));
        assert(all_chars(decimal(0), |c: char| digit_or_space(c)));
    } else {
        let ds = q.map_values(|n: u32| decimal(n as nat));
        assert forall|i: int| 0 <= i < ds.len() implies no_ws(#[trigger] ds[i]) && ds[i].len() > 0 && all_chars(
            ds[i],
            |c: char| digit_or_space(c),
        ) by {
            lemma_parse_decimal(q[i]);
            lemma_decimal_digits(q[i] as nat);
        }
        lemma_words_join(ds);
        assert(all_chars(" "@, |c: char| digit_or_space(c)));
        lemma_join_chars(ds, " "@, |c: char| digit_or_space(c));
        lemma_decimal_digits(q[0] as nat);
        lemma_decimal_digits(q.last() as nat);
        lemma_join_first(ds, " "@);
        lemma_join_last(ds, " "@);
    }
}

proof fn lemma_group_values_decimals(q: Seq<u32>)
    ensures
        group_values(q.map_values(|n: u32| decimal(n as nat))) == Ok::<Seq<u32>, ErrModel>(q),
    decreases q.len(),
{
    let ds = q.map_values(|n: u32| decimal(n as nat));
    if q.len() > 0 {
        lemma_parse_decimal(q[0]);
        assert(ds.drop_first() =~= q.drop_first().map_values(|n: u32| decimal(n as nat)));
        lemma_group_values_decimals(q.drop_first());
        assert(seq![q[0]] + q.drop_first() =~= q);
    } else {
        assert(q =~= Seq::<u32>::empty());
    }
}

/// One clue list's text reads back as the list (a lone zero for an empty
/// one).
proof fn lemma_clue_line_reads_back(q: Seq<u32>)
    ensures
        group_values(words(clue_line_text(q))) == Ok::<Seq<u32>, ErrModel>(shown(q)),
{
    lemma_clue_line_text(q);
    if q.len() == 0 {
        lemma_group_values_decimals(seq![0u32]);
        assert(seq![0u32].map_values(|n: u32| decimal(n as nat)) =~= seq![decimal(0)]);
    } else {
        lemma_group_values_decimals(q);
    }
}

proof fn lemma_groups_read_back(v: Seq<Seq<u32>>)
    ensures
        groups_values(v.map_values(|q: Seq<u32>| clue_line_text(q))) == Ok::<Seq<Seq<u32>>, ErrModel>(
            v.map_values(|q: Seq<u32>| shown(q)),
        ),
    decreases v.len(),
{
    let ts = v.map_values(|q: Seq<u32>| clue_line_text(q));
    if v.len() > 0 {
        lemma_clue_line_reads_back(v[0]);
        assert(ts.drop_first() =~= v.drop_first().map_values(|q: Seq<u32>| clue_line_text(q)));
        lemma_groups_read_back(v.drop_first());
        assert(seq![shown(v[0])] + v.drop_first().map_values(|q: Seq<u32>| shown(q)) =~= v.map_values(
            |q: Seq<u32>| shown(q),
        ));
    } else {
        assert(v.map_values(|q: Seq<u32>| shown(q)) =~= Seq::<Seq<u32>>::empty());
    }
}

/// A clue section's text: non-empty, of digits, spaces and `|`, starting and
/// ending with a digit; it reads back as the clue lists.
proof fn lemma_clues_text(v: Seq<Seq<u32>>)
    requires
        v.len() >= 1,
    ensures
        clues_text(v, "|"@).len() > 0,
        all_chars(clues_text(v, "|"@), |c: char| clue_char(c)),
        0x30 <= clues_text(v, "|"@)[0] as u32 <= 0x39,
        0x30 <= clues_text(v, "|"@).last() as u32 <= 0x39,
        pipe_group(clues_text(v, "|"@)) == Ok::<Seq<Seq<u32>>, ErrModel>(v.map_values(|q: Seq<u32>| shown(q))),
{
    reveal_strlit("|");
    assert("|"@ =~= seq!['|']);
    let ts = v.map_values(|q: Seq<u32>| clue_line_text(q));
    assert forall|i: int| 0 <= i < ts.len() implies free_of(#[trigger] ts[i], '|') && all_chars(
        ts[i],
        |c: char| clue_char(c),
    ) by {
        lemma_clue_line_text(v[i]);
        assert(all_chars(ts[i], |c: char| digit_or_space(c)));
        assert forall|k: int| 0 <= k < ts[i].len() implies ts[i][k] != '|' && clue_char(ts[i][k]) by {
            assert(digit_or_space(ts[i][k]));
        }
    }
    lemma_split_join(ts, '|');
    lemma_groups_read_back(v);
    lemma_join_chars(ts, "|"@, |c: char| clue_char(c));
    lemma_clue_line_text(v[0]);
    lemma_clue_line_text(v.last());
    lemma_join_first(ts, "|"@);
    lemma_join_last(ts, "|"@);
}

proof fn lemma_drop_zeros_keeps(q: Seq<u32>)
    requires
        forall|i: int| 0 <= i < q.len() ==> q[i] != 0,
    ensures
        drop_zeros(q) == q,
    decreases q.len(),
{
    if q.len() > 0 {
        lemma_drop_zeros_keeps(q.drop_last());
        assert(q.drop_last().push(q.last()) =~= q);
    }
}

/// Clue lists without zero entries come back from their shown form.
proof fn lemma_normalized_shown(v: Seq<Seq<u32>>)
    requires
        forall|i: int, j: int| 0 <= i < v.len() && 0 <= j < v[i].len() ==> v[i][j] != 0,
    ensures
        normalized(v.map_values(|q: Seq<u32>| shown(q))) == v,
{
    let w = normalized(v.map_values(|q: Seq<u32>| shown(q)));
    assert forall|i: int| 0 <= i < v.len() implies w[i] == v[i] by {
        if v[i].len() == 0 {
            assert(seq![0u32].drop_last() =~= Seq::<u32>::empty());
            assert(seq![0u32].last() == 0);
            assert(drop_zeros(seq![0u32]) == drop_zeros(Seq::<u32>::empty()));
            assert(v[i] =~= Seq::<u32>::empty());
        } else {
            lemma_drop_zeros_keeps(v[i]);
        }
    }
    assert(w =~= v);
}

/// A solution of filled and empty cells reads back from its text.
proof fn lemma_solution_reads_back(s: Seq<CellState>)
    requires
        forall|i: int| 0 <= i < s.len() ==> s[i] == CellState::Filled || s[i] == CellState::Empty,
    ensures
        solution_cells(solution_text(s)) == Ok::<Seq<CellState>, ErrModel>(s),
        forall|i: int| 0 <= i < solution_text(s).len() ==> (#[trigger] solution_text(s)[i] == '0' || solution_text(
            s,
        )[i] == '1'),
    decreases s.len(),
{
    if s.len() > 0 {
        assert(solution_text(s).drop_first() =~= solution_text(s.drop_first()));
        lemma_solution_reads_back(s.drop_first());
        if s[0] == CellState::Filled {
            assert(seq![CellState::Filled] + s.drop_first() =~= s);
        } else {
            assert(seq![CellState::Empty] + s.drop_first() =~= s);
        }
    } else {
        assert(s =~= Seq::<CellState>::empty());
    }
}

/// `s` has no whitespace at either end.
proof fn lemma_trim_same(s: Seq<char>)
    requires
        s.len() == 0 || (!is_ws(s[0]) && !is_ws(s.last())),
    ensures
        trim(s) == s,
{
}


proof fn lemma_clue_chars_free(s: Seq<char>)
    requires
        all_chars(s, |c: char| clue_char(c)),
    ensures
        free_of(s, '/'),
        free_of(s, ';'),
{
    assert forall|i: int| 0 <= i < s.len() implies s[i] != '/' && s[i] != ';' by {
        assert(clue_char(s[i]));
    }
}

/// A puzzle that one line of the native format carries unchanged: a name
/// and an answer that are non-empty, hold no `;` and no whitespace at their
/// ends; at least one row and one column, as many as the dimensions say;
/// no zero in a clue list (an empty list is how a blank line is written);
/// and a solution, if any, of filled and empty cells only, one per cell.
pub open spec fn fits_file_format(p: PuzzleModel) -> bool {
    &&& p.name.len() > 0 && trim(p.name) == p.name && free_of(p.name, ';')
    &&& p.col_clues.len() >= 1 && p.row_clues.len() >= 1
    &&& p.width == p.col_clues.len() && p.height == p.row_clues.len()
    &&& forall|i: int, j: int|
        0 <= i < p.row_clues.len() && 0 <= j < p.row_clues[i].len() ==> p.row_clues[i][j] != 0
    &&& forall|i: int, j: int|
        0 <= i < p.col_clues.len() && 0 <= j < p.col_clues[i].len() ==> p.col_clues[i][j] != 0
    &&& match p.answer {
        Some(a) => a.len() > 0 && trim(a) == a && free_of(a, ';'),
        None => true,
    }
    &&& match p.solution {
        Some(sol) => {
            &&& sol.len() == p.width * p.height
            &&& p.width * p.height <= usize::MAX
            &&& forall|i: int| 0 <= i < sol.len() ==> sol[i] == CellState::Filled || sol[i] == CellState::Empty
        },
        None => true,
    }
}

/// The clue field of the line: `C:` and the column clues, `/R:` and the row
/// clues.
pub open spec fn clue_field(p: PuzzleModel) -> Seq<char> {
    seq!['C', ':'] + clues_text(p.col_clues, "|"@) + seq!['/'] + (seq!['R', ':'] + clues_text(p.row_clues, "|"@))
}

/// The `;`-separated fields of the line.
pub open spec fn file_fields(p: PuzzleModel) -> Seq<Seq<char>> {
    match (p.answer, p.solution) {
        (Some(a), Some(sol)) => seq![p.name, clue_field(p), a, solution_text(sol)],
        (Some(a), None) => seq![p.name, clue_field(p), a],
        (None, Some(sol)) => seq![p.name, clue_field(p), Seq::<char>::empty(), solution_text(sol)],
        (None, None) => seq![p.name, clue_field(p)],
    }
}

/// The clue texts of both sides: their characters, ends and reading.
proof fn lemma_clue_texts(p: PuzzleModel)
    requires
        fits_file_format(p),
    ensures
        free_of(seq!['C', ':'] + clues_text(p.col_clues, "|"@), '/'),
        free_of(seq!['C', ':'] + clues_text(p.col_clues, "|"@), ';'),
        free_of(seq!['R', ':'] + clues_text(p.row_clues, "|"@), '/'),
        free_of(seq!['R', ':'] + clues_text(p.row_clues, "|"@), ';'),
        free_of(clue_field(p), ';'),
        clues_text(p.col_clues, "|"@).len() > 0,
        clues_text(p.row_clues, "|"@).len() > 0,
        !is_ws(clues_text(p.col_clues, "|"@).last()),
        !is_ws(clues_text(p.row_clues, "|"@).last()),
        pipe_group(clues_text(p.col_clues, "|"@)) == Ok::<Seq<Seq<u32>>, ErrModel>(
            p.col_clues.map_values(|q: Seq<u32>| shown(q)),
        ),
        pipe_group(clues_text(p.row_clues, "|"@)) == Ok::<Seq<Seq<u32>>, ErrModel>(
            p.row_clues.map_values(|q: Seq<u32>| shown(q)),
        ),
{
    let ct = clues_text(p.col_clues, "|"@);
    let rt = clues_text(p.row_clues, "|"@);
    lemma_clues_text(p.col_clues);
    lemma_clues_text(p.row_clues);
    lemma_clue_chars_free(ct);
    lemma_clue_chars_free(rt);
    let x = seq!['C', ':'] + ct;
    let y = seq!['R', ':'] + rt;
    let body = x + seq!['/'] + y;
    assert(free_of(x, '/') && free_of(x, ';')) by {
        assert forall|i: int| 0 <= i < x.len() implies x[i] != '/' && x[i] != ';' by {
            if i >= 2 {
                assert(x[i] == ct[i - 2]);
            }
        }
    }
    assert(free_of(y, '/') && free_of(y, ';')) by {
        assert forall|i: int| 0 <= i < y.len() implies y[i] != '/' && y[i] != ';' by {
            if i >= 2 {
                assert(y[i] == rt[i - 2]);
            }
        }
    }
    assert(free_of(body, ';')) by {
        assert forall|i: int| 0 <= i < body.len() implies body[i] != ';' by {
            if i < x.len() {
                assert(body[i] == x[i]);
            } else if i > x.len() {
                assert(body[i] == y[i - x.len() - 1]);
            }
        }
    }
}

/// The line splits into its fields at `;`.
#[verifier::spinoff_prover]
proof fn lemma_file_fields(p: PuzzleModel)
    requires
        fits_file_format(p),
    ensures
        splitn_on(file_text(p), 4, ';') == file_fields(p),
{
    reveal_strlit(";C:");
    reveal_strlit("/R:");
    reveal_strlit(";");
    reveal_strlit(";;");
    lemma_clue_texts(p);
    let ct = clues_text(p.col_clues, "|"@);
    let rt = clues_text(p.row_clues, "|"@);
    let body = clue_field(p);
    let base = p.name + ";C:"@ + ct + "/R:"@ + rt;
    assert(base =~= p.name + seq![';'] + body);
    let line = file_text(p);
    let parts = splitn_on(line, 4, ';');
    match (p.answer, p.solution) {
        (Some(a), Some(sol)) => {
            let st = solution_text(sol);
            lemma_solution_reads_back(sol);
            assert(free_of(st, ';'));
            let r2 = a + seq![';'] + st;
            let r1 = body + seq![';'] + r2;
            assert(line =~= p.name + seq![';'] + r1);
            lemma_splitn_piece(p.name, r1, 4, ';');
            lemma_splitn_piece(body, r2, 3, ';');
            lemma_splitn_piece(a, st, 2, ';');
            lemma_splitn_last(st, 1, ';');
            assert(parts =~= file_fields(p));
        },
        (Some(a), None) => {
            let r1 = body + seq![';'] + a;
            assert(line =~= p.name + seq![';'] + r1);
            lemma_splitn_piece(p.name, r1, 4, ';');
            lemma_splitn_piece(body, a, 3, ';');
            lemma_splitn_last(a, 2, ';');
            assert(parts =~= file_fields(p));
        },
        (None, Some(sol)) => {
            let st = solution_text(sol);
            lemma_solution_reads_back(sol);
            assert(free_of(st, ';'));
            let e = Seq::<char>::empty();
            let r2 = e + seq![';'] + st;
            let r1 = body + seq![';'] + r2;
            assert(line =~= p.name + seq![';'] + r1);
            lemma_splitn_piece(p.name, r1, 4, ';');
            lemma_splitn_piece(body, r2, 3, ';');
            lemma_splitn_piece(e, st, 2, ';');
            lemma_splitn_last(st, 1, ';');
            assert(parts =~= file_fields(p));
        },
        (None, None) => {
            assert(line =~= p.name + seq![';'] + body);
            lemma_splitn_piece(p.name, body, 4, ';');
            lemma_splitn_last(body, 3, ';');
            assert(parts =~= file_fields(p));
        },
    }
}

/// The clue field reads back as the puzzle's clue lists.
#[verifier::spinoff_prover]
proof fn lemma_clue_field(p: PuzzleModel)
    requires
        fits_file_format(p),
    ensures
        ({
            let sections = splitn_on(trim(clue_field(p)), 2, '/');
            &&& sections.len() == 2
            &&& section_prefix(sections[0]) == Ok::<(char, Seq<char>), ErrModel>(
                ('C', clues_text(p.col_clues, "|"@)),
            )
            &&& section_prefix(sections[1]) == Ok::<(char, Seq<char>), ErrModel>(
                ('R', clues_text(p.row_clues, "|"@)),
            )
        }),
{
    lemma_clue_texts(p);
    let ct = clues_text(p.col_clues, "|"@);
    let rt = clues_text(p.row_clues, "|"@);
    let x = seq!['C', ':'] + ct;
    let y = seq!['R', ':'] + rt;
    let body = clue_field(p);
    assert(body[0] == 'C');
    assert(body.last() == rt.last());
    lemma_trim_same(body);
    let sections = splitn_on(trim(body), 2, '/');
    lemma_splitn_piece(x, y, 2, '/');
    lemma_splitn_last(y, 1, '/');
    assert(sections =~= seq![x, y]);
    assert(x.last() == ct.last());
    assert(y.last() == rt.last());
    lemma_trim_same(x);
    lemma_trim_same(y);
    assert(x.skip(2) =~= ct);
    assert(y.skip(2) =~= rt);
}

/// Reading back the line that `puzzle_to_file_string` writes gives the
/// same puzzle, for every puzzle that the format can carry.
pub proof fn lemma_file_line_round_trip(p: PuzzleModel)
    requires
        fits_file_format(p),
    ensures
        line_model(file_text(p)) == Ok::<PuzzleModel, ErrModel>(p),
{
    lemma_file_fields(p);
    lemma_clue_field(p);
    lemma_clue_texts(p);
    let parts = file_fields(p);
    let ct = clues_text(p.col_clues, "|"@);
    let rt = clues_text(p.row_clues, "|"@);
    let cols = p.col_clues.map_values(|q: Seq<u32>| shown(q));
    let rows = p.row_clues.map_values(|q: Seq<u32>| shown(q));
    assert(both_sections(ct, rt) == Ok::<(Seq<Seq<u32>>, Seq<Seq<u32>>), ErrModel>((cols, rows)));
    lemma_normalized_shown(p.col_clues);
    lemma_normalized_shown(p.row_clues);
    match p.answer {
        Some(a) => assert(answer_field(parts) == Some(a)),
        None => {
            if parts.len() >= 3 {
                assert(parts[2] =~= Seq::<char>::empty());
            }
            assert(answer_field(parts) is None);
        },
    }
    match p.solution {
        Some(sol) => {
            let st = solution_text(sol);
            lemma_solution_reads_back(sol);
            assert(parts.len() == 4 && parts[3] == st);
            if st.len() > 0 {
                assert(st[0] == '0' || st[0] == '1');
                assert(st.last() == '0' || st.last() == '1');
            }
            lemma_trim_same(st);
            assert(cell_count(p.width, p.height) == p.width * p.height) by {
                vstd::arithmetic::div_mod::lemma_small_mod(
                    (p.width * p.height) as nat,
                    (usize::MAX as nat + 1) as nat,
                );
            }
            assert(finish_line(p.name, parts, p.col_clues, p.row_clues) == Ok::<PuzzleModel, ErrModel>(p));
        },
        None => {
            assert(parts.len() != 4);
            assert(finish_line(p.name, parts, p.col_clues, p.row_clues) == Ok::<PuzzleModel, ErrModel>(p));
        },
    }
}


/// Lines, each followed by a line feed.
pub open spec fn lf_lines(ls: Seq<Seq<char>>) -> Seq<char>
    decreases ls.len(),
{
    if ls.len() == 0 {
        Seq::empty()
    } else {
        ls[0] + seq!['\n'] + lf_lines(ls.drop_first())
    }
}

/// A line that `str::lines` gives back unchanged: no line feed, and no
/// carriage return at its end.
pub open spec fn plain_line(l: Seq<char>) -> bool {
    free_of(l, '\n') && (l.len() == 0 || l.last() != '\r')
}

proof fn lemma_split_lf_lines(ls: Seq<Seq<char>>)
    requires
        forall|i: int| 0 <= i < ls.len() ==> plain_line(#[trigger] ls[i]),
    ensures
        split_on(lf_lines(ls), '\n') == ls + seq![Seq::<char>::empty()],
    decreases ls.len(),
{
    if ls.len() == 0 {
        assert(ls + seq![Seq::<char>::empty()] =~= seq![Seq::<char>::empty()]);
    } else {
        let rest = ls.drop_first();
        assert(forall|i: int| 0 <= i < rest.len() ==> rest[i] == ls[i + 1]);
        lemma_split_lf_lines(rest);
        assert(plain_line(ls[0]));
        lemma_split_concat(ls[0], lf_lines(rest), '\n', Seq::empty());
        lemma_split_chunk(ls[0], Seq::empty(), '\n', Seq::empty());
        assert(ls[0] + Seq::<char>::empty() =~= ls[0]);
        assert(Seq::<char>::empty() + ls[0] =~= ls[0]);
        assert(seq![ls[0]] + (rest + seq![Seq::<char>::empty()]) =~= ls + seq![Seq::<char>::empty()]);
    }
}

/// `str::lines` gives back the lines of a line-feed-terminated text.
proof fn lemma_lines_of_lf_lines(ls: Seq<Seq<char>>)
    requires
        forall|i: int| 0 <= i < ls.len() ==> plain_line(#[trigger] ls[i]),
    ensures
        lines(lf_lines(ls)) == ls,
{
    lemma_split_lf_lines(ls);
    let p = split_on(lf_lines(ls), '\n');
    assert(p.drop_last() =~= ls);
    assert forall|i: int| 0 <= i < ls.len() implies strip_cr(ls[i]) == ls[i] by {
        assert(plain_line(ls[i]));
    }
    assert(ls.map_values(|l: Seq<char>| strip_cr(l)) =~= ls);
    assert(ls + Seq::<Seq<char>>::empty() =~= ls);
}

proof fn lemma_lf_lines_push(a: Seq<Seq<char>>, x: Seq<char>)
    ensures
        lf_lines(a.push(x)) == lf_lines(a) + x + seq!['\n'],
    decreases a.len(),
{
    if a.len() == 0 {
        assert(a.push(x).drop_first() =~= Seq::<Seq<char>>::empty());
        assert(lf_lines(Seq::<Seq<char>>::empty()) == Seq::<char>::empty());
        assert(a.push(x)[0] == x);
        assert(lf_lines(a.push(x)) =~= x + seq!['\n']);
        assert(lf_lines(a) + x + seq!['\n'] =~= x + seq!['\n']);
    } else {
        assert(a.push(x).drop_first() =~= a.drop_first().push(x));
        lemma_lf_lines_push(a.drop_first(), x);
        assert(lf_lines(a.push(x)) =~= lf_lines(a) + x + seq!['\n']);
    }
}

/// The tokens of layout row `ri`.
pub open spec fn layout_tokens(
    rows: Seq<Seq<u32>>,
    cols: Seq<Seq<u32>>,
    w: nat,
    h: nat,
    grid: Option<Seq<CellState>>,
    frows: Seq<bool>,
    fcols: Seq<bool>,
    ri: nat,
) -> Seq<Seq<char>> {
    Seq::new(half_up(w) + w, |ci: int| pzprv3_token(rows, cols, w, h, grid, frows, fcols, ri, ci as nat))
}

/// The layout rows `0..k` as text lines.
pub open spec fn layout_lines(
    rows: Seq<Seq<u32>>,
    cols: Seq<Seq<u32>>,
    w: nat,
    h: nat,
    grid: Option<Seq<CellState>>,
    frows: Seq<bool>,
    fcols: Seq<bool>,
    k: nat,
) -> Seq<Seq<char>> {
    Seq::new(k, |ri: int| join(layout_tokens(rows, cols, w, h, grid, frows, fcols, ri as nat), " "@))
}

proof fn lemma_rows_are_lf_lines(
    rows: Seq<Seq<u32>>,
    cols: Seq<Seq<u32>>,
    w: nat,
    h: nat,
    grid: Option<Seq<CellState>>,
    frows: Seq<bool>,
    fcols: Seq<bool>,
    k: nat,
)
    ensures
        pzprv3_rows(rows, cols, w, h, grid, frows, fcols, k) == lf_lines(
            layout_lines(rows, cols, w, h, grid, frows, fcols, k),
        ),
    decreases k,
{
    reveal_strlit("\n");
    assert("\n"@ =~= seq!['\n']);
    if k == 0 {
        assert(layout_lines(rows, cols, w, h, grid, frows, fcols, 0) =~= Seq::<Seq<char>>::empty());
    } else {
        let prev = layout_lines(rows, cols, w, h, grid, frows, fcols, (k - 1) as nat);
        let cur = layout_lines(rows, cols, w, h, grid, frows, fcols, k);
        lemma_rows_are_lf_lines(rows, cols, w, h, grid, frows, fcols, (k - 1) as nat);
        assert(cur =~= prev.push(join(layout_tokens(rows, cols, w, h, grid, frows, fcols, (k - 1) as nat), " "@)));
        assert(layout_tokens(rows, cols, w, h, grid, frows, fcols, (k - 1) as nat) =~= Seq::new(
            half_up(w) + w,
            |ci: int| pzprv3_token(rows, cols, w, h, grid, frows, fcols, (k - 1) as nat, ci as nat),
        ));
        lemma_lf_lines_push(prev, join(layout_tokens(rows, cols, w, h, grid, frows, fcols, (k - 1) as nat), " "@));
    }
}

/// The clues fit the Puz-Pre v3 layout: both sides non-empty, a clue list
/// per line with no more values than the layout has slots, and a layout
/// whose size fits in a `usize`.
pub open spec fn fits_layout(rows: Seq<Seq<u32>>, cols: Seq<Seq<u32>>, w: nat, h: nat) -> bool {
    &&& w >= 1 && h >= 1
    &&& rows.len() >= h && cols.len() >= w
    &&& forall|r: int| 0 <= r < h ==> (#[trigger] rows[r]).len() <= half_up(w)
    &&& forall|c: int| 0 <= c < w ==> (#[trigger] cols[c]).len() <= half_up(h)
    &&& half_up(h) + h <= usize::MAX && half_up(w) + w <= usize::MAX
}

/// The text of a clue slot holding `n`, marked when its line is fulfilled.
pub open spec fn value_token(n: u32, mark: bool) -> Seq<char> {
    if mark { seq!['c'] + decimal(n as nat) } else { decimal(n as nat) }
}

/// A value token is not a dot, reads back as its value, and is a plain
/// non-empty word.
proof fn lemma_value_token(n: u32, mark: bool)
    ensures
        value_token(n, mark) != "."@,
        clue_token_value(value_token(n, mark)) == Ok::<u32, Seq<char>>(n),
        value_token(n, mark).len() > 0,
        no_ws(value_token(n, mark)),
        free_of(value_token(n, mark), '\n'),
        0x30 <= value_token(n, mark).last() as u32 <= 0x39,
{
    reveal_strlit(".");
    lemma_parse_decimal(n);
    lemma_decimal_digits(n as nat);
    let d = decimal(n as nat);
    let t = value_token(n, mark);
    assert(d[0] != 'c' && d[0] != '.');
    assert forall|i: int| 0 <= i < d.len() implies d[i] != '\n' by {
        assert(0x30 <= d[i] as u32 <= 0x39);
    }
    if mark {
        assert(t.drop_first() =~= d);
        assert(t[0] == 'c');
        assert forall|i: int| 0 <= i < t.len() implies !is_ws(#[trigger] t[i]) && t[i] != '\n' by {
            if i > 0 {
                assert(t[i] == d[i - 1]);
            }
        }
        assert(t.last() == d.last());
        assert(t[0] != "."@[0]);
    } else {
        assert(t[0] != "."@[0]);
    }
}

/// Every token of the layout is a plain non-empty word.
proof fn lemma_layout_token(
    rows: Seq<Seq<u32>>,
    cols: Seq<Seq<u32>>,
    w: nat,
    h: nat,
    grid: Option<Seq<CellState>>,
    frows: Seq<bool>,
    fcols: Seq<bool>,
    ri: nat,
    ci: nat,
)
    requires
        fits_layout(rows, cols, w, h),
        ri < half_up(h) + h,
        ci < half_up(w) + w,
    ensures
        ({
            let t = pzprv3_token(rows, cols, w, h, grid, frows, fcols, ri, ci);
            &&& t.len() > 0
            &&& no_ws(t)
            &&& free_of(t, '\n')
            &&& t.last() != '\r'
        }),
{
    reveal_strlit(".");
    reveal_strlit("#");
    reveal_strlit("c");
    let t = pzprv3_token(rows, cols, w, h, grid, frows, fcols, ri, ci);
    let max_cd = half_up(h);
    let max_rd = half_up(w);
    if ri < max_cd && ci >= max_rd {
        let c = (ci - max_rd) as nat;
        let q = cols[c as int];
        let pad = (max_cd - q.len()) as nat;
        if ri >= pad {
            let n = q[ri - pad];
            let mark = c < fcols.len() && fcols[c as int];
            lemma_value_token(n, mark);
            assert(t == value_token(n, mark));
        }
    } else if ri >= max_cd && ci < max_rd {
        let r = (ri - max_cd) as nat;
        let q = rows[r as int];
        let pad = (max_rd - q.len()) as nat;
        if ci >= pad {
            let n = q[ci - pad];
            let mark = r < frows.len() && frows[r as int];
            lemma_value_token(n, mark);
            assert(t == value_token(n, mark));
        }
    }
}

/// A layout row's text: a plain line whose words are its tokens.
proof fn lemma_layout_line(
    rows: Seq<Seq<u32>>,
    cols: Seq<Seq<u32>>,
    w: nat,
    h: nat,
    grid: Option<Seq<CellState>>,
    frows: Seq<bool>,
    fcols: Seq<bool>,
    ri: nat,
)
    requires
        fits_layout(rows, cols, w, h),
        ri < half_up(h) + h,
    ensures
        plain_line(join(layout_tokens(rows, cols, w, h, grid, frows, fcols, ri), " "@)),
        words(join(layout_tokens(rows, cols, w, h, grid, frows, fcols, ri), " "@)) == layout_tokens(
            rows,
            cols,
            w,
            h,
            grid,
            frows,
            fcols,
            ri,
        ),
{
    reveal_strlit(" ");
    let ts = layout_tokens(rows, cols, w, h, grid, frows, fcols, ri);
    assert forall|i: int| 0 <= i < ts.len() implies no_ws(#[trigger] ts[i]) && ts[i].len() > 0 && all_chars(
        ts[i],
        |c: char| c != '\n',
    ) && ts[i].last() != '\r' by {
        lemma_layout_token(rows, cols, w, h, grid, frows, fcols, ri, i as nat);
    }
    lemma_words_join(ts);
    assert(all_chars(" "@, |c: char| c != '\n'));
    lemma_join_chars(ts, " "@, |c: char| c != '\n');
    lemma_join_last(ts, " "@);
    let j = join(ts, " "@);
    assert(free_of(j, '\n')) by {
        assert forall|i: int| 0 <= i < j.len() implies j[i] != '\n' by {
            assert(all_chars(j, |c: char| c != '\n'));
        }
    }
}

/// The header lines of the text, then the layout rows.
pub open spec fn layout_text_lines(
    rows: Seq<Seq<u32>>,
    cols: Seq<Seq<u32>>,
    w: nat,
    h: nat,
    grid: Option<Seq<CellState>>,
    frows: Seq<bool>,
    fcols: Seq<bool>,
) -> Seq<Seq<char>> {
    seq!["pzprv3"@, "nonogram"@, decimal(h), decimal(w)] + layout_lines(
        rows,
        cols,
        w,
        h,
        grid,
        frows,
        fcols,
        half_up(h) + h,
    )
}

/// The text's lines are the header lines and the layout rows.
#[verifier::spinoff_prover]
proof fn lemma_layout_text_lines(
    rows: Seq<Seq<u32>>,
    cols: Seq<Seq<u32>>,
    w: nat,
    h: nat,
    grid: Option<Seq<CellState>>,
    frows: Seq<bool>,
    fcols: Seq<bool>,
)
    requires
        fits_layout(rows, cols, w, h),
    ensures
        lines(pzprv3_text(rows, cols, w, h, grid, frows, fcols)) == layout_text_lines(
            rows,
            cols,
            w,
            h,
            grid,
            frows,
            fcols,
        ),
{
    reveal_strlit("pzprv3\nnonogram\n");
    reveal_strlit("pzprv3");
    reveal_strlit("nonogram");
    reveal_strlit("\n");
    let k = half_up(h) + h;
    let ll = layout_lines(rows, cols, w, h, grid, frows, fcols, k);
    let all = layout_text_lines(rows, cols, w, h, grid, frows, fcols);
    lemma_rows_are_lf_lines(rows, cols, w, h, grid, frows, fcols, k);
    assert(all.drop_first().drop_first().drop_first().drop_first() =~= ll);
    assert(all.drop_first().drop_first().drop_first() =~= seq![decimal(w)] + ll);
    assert(all.drop_first().drop_first() =~= seq![decimal(h), decimal(w)] + ll);
    assert(all.drop_first() =~= seq!["nonogram"@, decimal(h), decimal(w)] + ll);
    assert((seq![decimal(w)] + ll).drop_first() =~= ll);
    assert((seq![decimal(h), decimal(w)] + ll).drop_first() =~= seq![decimal(w)] + ll);
    assert((seq!["nonogram"@, decimal(h), decimal(w)] + ll).drop_first() =~= seq![decimal(h), decimal(w)] + ll);
    let a1 = all.drop_first();
    let a2 = a1.drop_first();
    let a3 = a2.drop_first();
    let a4 = a3.drop_first();
    assert(lf_lines(all) == all[0] + seq!['\n'] + lf_lines(a1));
    assert(lf_lines(a1) == a1[0] + seq!['\n'] + lf_lines(a2));
    assert(lf_lines(a2) == a2[0] + seq!['\n'] + lf_lines(a3));
    assert(lf_lines(a3) == a3[0] + seq!['\n'] + lf_lines(a4));
    assert("pzprv3\nnonogram\n"@ =~= "pzprv3"@ + seq!['\n'] + "nonogram"@ + seq!['\n']);
    assert(pzprv3_text(rows, cols, w, h, grid, frows, fcols) =~= lf_lines(all));
    lemma_decimal_digits(h);
    lemma_decimal_digits(w);
    assert forall|i: int| 0 <= i < all.len() implies plain_line(#[trigger] all[i]) by {
        if i >= 4 {
            assert(all[i] == ll[i - 4]);
            lemma_layout_line(rows, cols, w, h, grid, frows, fcols, (i - 4) as nat);
        } else if i == 2 || i == 3 {
            let d = if i == 2 { decimal(h) } else { decimal(w) };
            assert forall|j: int| 0 <= j < d.len() implies d[j] != '\n' by {
                assert(0x30 <= d[j] as u32 <= 0x39);
            }
        }
    }
    lemma_lines_of_lf_lines(all);
}


/// The layout as tokens: row `ri` is `layout_tokens(.., ri)`.
pub open spec fn layout_grid(
    rows: Seq<Seq<u32>>,
    cols: Seq<Seq<u32>>,
    w: nat,
    h: nat,
    grid: Option<Seq<CellState>>,
    frows: Seq<bool>,
    fcols: Seq<bool>,
) -> Seq<Seq<Seq<char>>> {
    Seq::new(half_up(h) + h, |ri: int| layout_tokens(rows, cols, w, h, grid, frows, fcols, ri as nat))
}

#[verifier::spinoff_prover]
proof fn lemma_token_rows(
    rows: Seq<Seq<u32>>,
    cols: Seq<Seq<u32>>,
    w: nat,
    h: nat,
    grid: Option<Seq<CellState>>,
    frows: Seq<bool>,
    fcols: Seq<bool>,
    i: nat,
)
    requires
        fits_layout(rows, cols, w, h),
        i <= half_up(h) + h,
    ensures
        token_rows(
            layout_text_lines(rows, cols, w, h, grid, frows, fcols),
            4,
            i,
            half_up(h) + h,
            half_up(w) + w,
        ) == Ok::<Seq<Seq<Seq<char>>>, Seq<char>>(
            layout_grid(rows, cols, w, h, grid, frows, fcols).skip(i as int),
        ),
    decreases half_up(h) + h - i,
{
    let k = half_up(h) + h;
    let ls = layout_text_lines(rows, cols, w, h, grid, frows, fcols);
    let g = layout_grid(rows, cols, w, h, grid, frows, fcols);
    if i >= k {
        assert(g.skip(i as int) =~= Seq::<Seq<Seq<char>>>::empty());
    } else {
        lemma_token_rows(rows, cols, w, h, grid, frows, fcols, i + 1);
        lemma_layout_line(rows, cols, w, h, grid, frows, fcols, i);
        assert(ls[(4 + i) as int] == join(layout_tokens(rows, cols, w, h, grid, frows, fcols, i), " "@));
        assert(g[i as int] == layout_tokens(rows, cols, w, h, grid, frows, fcols, i));
        assert(seq![g[i as int]] + g.skip((i + 1) as int) =~= g.skip(i as int));
    }
}

/// The token of layout position `j` along a line: row `fixed` when
/// `by_row`, else column `fixed`.
pub open spec fn line_cell(grid: Seq<Seq<Seq<char>>>, fixed: nat, j: nat, by_row: bool) -> Seq<char> {
    if by_row { grid[fixed as int][j as int] } else { grid[j as int][fixed as int] }
}

/// The token written at slot `j` of a clue line with `pad` leading dots.
pub open spec fn slot_token(q: Seq<u32>, pad: nat, mark: bool, j: nat) -> Seq<char> {
    if j >= pad { value_token(q[j - pad], mark) } else { "."@ }
}

proof fn lemma_clue_run_reads(
    grid: Seq<Seq<Seq<char>>>,
    fixed: nat,
    k: nat,
    stop: nat,
    by_row: bool,
    q: Seq<u32>,
    mark: bool,
)
    requires
        k <= stop,
        q.len() <= stop,
        forall|j: nat|
            k <= j < stop ==> #[trigger] line_cell(grid, fixed, j, by_row) == slot_token(
                q,
                (stop - q.len()) as nat,
                mark,
                j,
            ),
    ensures
        clue_run(grid, fixed, k, stop, by_row) == Ok::<Seq<u32>, Seq<char>>(
            q.skip(if k >= stop - q.len() { k - (stop - q.len()) } else { 0 }),
        ),
    decreases stop - k,
{
    let pad = (stop - q.len()) as nat;
    if k == stop {
        assert(q.skip(q.len() as int) =~= Seq::<u32>::empty());
    } else {
        lemma_clue_run_reads(grid, fixed, k + 1, stop, by_row, q, mark);
        let tok = line_cell(grid, fixed, k, by_row);
        assert(tok == slot_token(q, pad, mark, k));
        if k >= pad {
            lemma_value_token(q[k - pad], mark);
            assert(seq![q[k - pad]] + q.skip(k + 1 - pad) =~= q.skip(k - pad));
        } else {
            reveal_strlit(".");
        }
    }
}

proof fn lemma_clue_lines_read(
    grid: Seq<Seq<Seq<char>>>,
    i: nat,
    n: nat,
    offset: nat,
    depth: nat,
    by_row: bool,
    qs: Seq<Seq<u32>>,
)
    requires
        i <= n <= qs.len(),
        forall|l: nat|
            i <= l < n ==> #[trigger] clue_run(grid, offset + l, 0, depth, by_row) == Ok::<Seq<u32>, Seq<char>>(
                qs[l as int],
            ),
    ensures
        clue_lines(grid, i, n, offset, depth, by_row) == Ok::<Seq<Seq<u32>>, Seq<char>>(
            qs.subrange(i as int, n as int),
        ),
    decreases n - i,
{
    if i == n {
        assert(qs.subrange(i as int, n as int) =~= Seq::<Seq<u32>>::empty());
    } else {
        lemma_clue_lines_read(grid, i + 1, n, offset, depth, by_row, qs);
        assert(clue_run(grid, offset + i, 0, depth, by_row) == Ok::<Seq<u32>, Seq<char>>(qs[i as int]));
        assert(seq![qs[i as int]] + qs.subrange((i + 1) as int, n as int) =~= qs.subrange(i as int, n as int));
    }
}

/// The column clues read back from the layout.
#[verifier::spinoff_prover]
proof fn lemma_layout_cols(
    rows: Seq<Seq<u32>>,
    cols: Seq<Seq<u32>>,
    w: nat,
    h: nat,
    grid: Option<Seq<CellState>>,
    frows: Seq<bool>,
    fcols: Seq<bool>,
)
    requires
        fits_layout(rows, cols, w, h),
    ensures
        clue_lines(layout_grid(rows, cols, w, h, grid, frows, fcols), 0, w, half_up(w), half_up(h), false) == Ok::<
            Seq<Seq<u32>>,
            Seq<char>,
        >(cols.take(w as int)),
{
    let g = layout_grid(rows, cols, w, h, grid, frows, fcols);
    let max_cd = half_up(h);
    let max_rd = half_up(w);
    assert forall|l: nat| 0 <= l < w implies #[trigger] clue_run(g, max_rd + l, 0, max_cd, false) == Ok::<
        Seq<u32>,
        Seq<char>,
    >(cols[l as int]) by {
        let q = cols[l as int];
        assert(q.len() <= max_cd);
        let mark = l < fcols.len() && fcols[l as int];
        assert forall|j: nat| 0 <= j < max_cd implies #[trigger] line_cell(g, max_rd + l, j, false) == slot_token(
            q,
            (max_cd - q.len()) as nat,
            mark,
            j,
        ) by {
            assert(line_cell(g, max_rd + l, j, false) == pzprv3_token(
                rows,
                cols,
                w,
                h,
                grid,
                frows,
                fcols,
                j,
                max_rd + l,
            ));
            reveal_strlit("c");
            assert("c"@ =~= seq!['c']);
        }
        lemma_clue_run_reads(g, max_rd + l, 0, max_cd, false, q, mark);
        assert(q.skip(0) =~= q);
    }
    lemma_clue_lines_read(g, 0, w, max_rd, max_cd, false, cols);
    assert(cols.subrange(0, w as int) =~= cols.take(w as int));
}

/// The row clues read back from the layout.
#[verifier::spinoff_prover]
proof fn lemma_layout_rows(
    rows: Seq<Seq<u32>>,
    cols: Seq<Seq<u32>>,
    w: nat,
    h: nat,
    grid: Option<Seq<CellState>>,
    frows: Seq<bool>,
    fcols: Seq<bool>,
)
    requires
        fits_layout(rows, cols, w, h),
    ensures
        clue_lines(layout_grid(rows, cols, w, h, grid, frows, fcols), 0, h, half_up(h), half_up(w), true) == Ok::<
            Seq<Seq<u32>>,
            Seq<char>,
        >(rows.take(h as int)),
{
    let g = layout_grid(rows, cols, w, h, grid, frows, fcols);
    let max_cd = half_up(h);
    let max_rd = half_up(w);
    assert forall|l: nat| 0 <= l < h implies #[trigger] clue_run(g, max_cd + l, 0, max_rd, true) == Ok::<
        Seq<u32>,
        Seq<char>,
    >(rows[l as int]) by {
        let q = rows[l as int];
        assert(q.len() <= max_rd);
        let mark = l < frows.len() && frows[l as int];
        assert forall|j: nat| 0 <= j < max_rd implies #[trigger] line_cell(g, max_cd + l, j, true) == slot_token(
            q,
            (max_rd - q.len()) as nat,
            mark,
            j,
        ) by {
            assert(line_cell(g, max_cd + l, j, true) == pzprv3_token(
                rows,
                cols,
                w,
                h,
                grid,
                frows,
                fcols,
                max_cd + l,
                j,
            ));
            reveal_strlit("c");
            assert("c"@ =~= seq!['c']);
        }
        lemma_clue_run_reads(g, max_cd + l, 0, max_rd, true, q, mark);
        assert(q.skip(0) =~= q);
    }
    lemma_clue_lines_read(g, 0, h, max_cd, max_rd, true, rows);
    assert(rows.subrange(0, h as int) =~= rows.take(h as int));
}

/// A dimension written in decimal reads back as itself.
proof fn lemma_parse_dimension(n: nat)
    requires
        n <= usize::MAX,
    ensures
        trim(decimal(n)) == decimal(n),
        parse_usize(trim(decimal(n))) == Some(n as usize),
{
    lemma_decimal_digits(n);
    let d = decimal(n);
    assert(!is_ws(d[0]) && !is_ws(d.last())) by {
        assert(0x30 <= d[0] as u32 <= 0x39);
        assert(0x30 <= d.last() as u32 <= 0x39);
    }
    lemma_trim_same(d);
    assert(d[0] != '+');
}

/// The clues written as a Puz-Pre v3 layout read back as the same clues:
/// a `w`×`h` puzzle named `{w}×{h}` with the first `w` column clue lists and
/// the first `h` row clue lists, whatever the grid and the fulfilled-line
/// marks; and the text is one that the reader accepts.
pub proof fn lemma_puzprv3_round_trip(
    rows: Seq<Seq<u32>>,
    cols: Seq<Seq<u32>>,
    w: nat,
    h: nat,
    grid: Option<Seq<CellState>>,
    frows: Seq<bool>,
    fcols: Seq<bool>,
)
    requires
        fits_layout(rows, cols, w, h),
    ensures
        pzprv3_sizes_fit(pzprv3_text(rows, cols, w, h, grid, frows, fcols)),
        pzprv3_model(pzprv3_text(rows, cols, w, h, grid, frows, fcols)) == Ok::<PuzzleModel, Seq<char>>(
            PuzzleModel {
                name: decimal(w) + "×"@ + decimal(h),
                answer: None,
                width: w,
                height: h,
                row_clues: rows.take(h as int),
                col_clues: cols.take(w as int),
                solution: None,
            },
        ),
{
    reveal_strlit("pzprv3");
    reveal_strlit("nonogram");
    let text = pzprv3_text(rows, cols, w, h, grid, frows, fcols);
    let ls = layout_text_lines(rows, cols, w, h, grid, frows, fcols);
    lemma_layout_text_lines(rows, cols, w, h, grid, frows, fcols);
    assert(lines(text) == ls);
    assert(ls[0] == "pzprv3"@ && ls[1] == "nonogram"@ && ls[2] == decimal(h) && ls[3] == decimal(w));
    lemma_trim_same("pzprv3"@);
    lemma_trim_same("nonogram"@);
    assert(line_or_empty(ls, 0) == "pzprv3"@);
    assert(line_or_empty(ls, 1) == "nonogram"@);
    lemma_parse_dimension(h);
    lemma_parse_dimension(w);
    lemma_token_rows(rows, cols, w, h, grid, frows, fcols, 0);
    let g = layout_grid(rows, cols, w, h, grid, frows, fcols);
    assert(g.skip(0) =~= g);
    lemma_layout_cols(rows, cols, w, h, grid, frows, fcols);
    lemma_layout_rows(rows, cols, w, h, grid, frows, fcols);
}


/// `t` stands in `s` at index `i`.
pub open spec fn occurs_at(s: Seq<char>, t: Seq<char>, i: int) -> bool {
    0 <= i && i + t.len() <= s.len() && s.subrange(i, i + t.len()) == t
}

/// Reading one value code: the value joins the values read so far.
proof fn lemma_value_read(s: Seq<char>, i: nat, g: usize, vals: Seq<u32>, v: u32)
    requires
        v <= 255,
        occurs_at(s, value_code(v), i as int),
        vals.len() < g,
    ensures
        pz_group(s, i, g, vals) == pz_group(s, i + value_code(v).len(), g, vals.push(v)),
{
    let code = value_code(v);
    let ii = i as int;
    assert(s[i as int] == code[0]) by {
        assert(s.subrange(ii, ii + code.len())[0] == s[i as int]);
    }
    if v <= 15 {
        let c = hex_digit(v as nat);
        assert(code == seq![c]);
        if v <= 9 {
            assert(c as u32 == 0x30 + v);
        } else {
            assert(c as u32 == 0x61 + v - 10);
        }
    } else {
        let hi = v / 16;
        let lo = v % 16;
        assert(1 <= hi <= 15);
        assert(hex(v as nat) == hex((v / 16) as nat).push(hex_digit((v % 16) as nat)));
        assert(hex((v / 16) as nat) == seq![hex_digit(hi as nat)]);
        assert(code =~= seq!['-', hex_digit(hi as nat), hex_digit(lo as nat)]);
        assert(s[ii + 1] == code[1] && s[ii + 2] == code[2]) by {
            assert(s.subrange(ii, ii + code.len())[1] == s[ii + 1]);
            assert(s.subrange(ii, ii + code.len())[2] == s[ii + 2]);
        }
        let h1 = hex_digit(hi as nat);
        let h2 = hex_digit(lo as nat);
        assert(is_hex_digit(h1) && hex_value(h1) == hi) by {
            if hi < 10 {
                assert(h1 as u32 == 0x30 + hi);
            } else {
                assert(h1 as u32 == 0x61 + hi - 10);
            }
        }
        assert(is_hex_digit(h2) && hex_value(h2) == lo) by {
            if lo < 10 {
                assert(h2 as u32 == 0x30 + lo);
            } else {
                assert(h2 as u32 == 0x61 + lo - 10);
            }
        }
        assert(h1 != '+');
        assert(16 * hi + lo == v);
        assert(hex_pair(h1, h2) == Some(v));
    }
}

/// Reading the codes of a clue list (last value first): the values join
/// the values read so far, in reverse.
proof fn lemma_values_read(s: Seq<char>, i: nat, g: usize, vals: Seq<u32>, q: Seq<u32>)
    requires
        forall|k: int| 0 <= k < q.len() ==> q[k] <= 255,
        occurs_at(s, values_code(q), i as int),
        vals.len() + q.len() <= g,
    ensures
        pz_group(s, i, g, vals) == pz_group(s, i + values_code(q).len(), g, vals + q.reverse()),
    decreases q.len(),
{
    if q.len() == 0 {
        assert(vals + q.reverse() =~= vals);
    } else {
        let v = q.last();
        let rest = q.drop_last();
        let c1 = value_code(v);
        let c2 = values_code(rest);
        let ii = i as int;
        assert(values_code(q) == c1 + c2);
        let whole = s.subrange(ii, ii + values_code(q).len());
        assert(whole == c1 + c2);
        assert(s.subrange(ii, ii + c1.len()) =~= whole.subrange(0, c1.len() as int));
        assert(whole.subrange(0, c1.len() as int) =~= c1);
        assert(s.subrange(ii + c1.len(), ii + c1.len() + c2.len()) =~= whole.subrange(
            c1.len() as int,
            whole.len() as int,
        ));
        assert(whole.subrange(c1.len() as int, whole.len() as int) =~= c2);
        assert(occurs_at(s, c1, ii));
        assert(occurs_at(s, c2, ii + c1.len()));
        lemma_value_read(s, i, g, vals, v);
        lemma_values_read(s, i + c1.len(), g, vals.push(v), rest);
        assert(vals.push(v) + rest.reverse() =~= vals + q.reverse());
    }
}


/// The last character of a zero-run code: the remainder's letter.
pub open spec fn zero_tail(b: nat) -> Seq<char> {
    if b > 0 { seq![((0x66 + b) as u32) as char] } else { Seq::empty() }
}

proof fn lemma_tail_char(b: nat)
    requires
        0 < b < 20,
    ensures
        zero_weight(((0x66 + b) as u32) as char) == b,
        ((0x66 + b) as u32) as char != 'z',
        run_char(((0x66 + b) as u32) as char),
{
    let c = ((0x66 + b) as u32) as char;
    assert(c as u32 == 0x66 + b);
    assert(c as u8 == 0x66 + b);
}

/// Reading a zero-run code `z`×`a` then the remainder's letter: the count
/// grows by the zeros it stands for, and reading stops right after it.
proof fn lemma_zero_run_read(s: Seq<char>, i: nat, a: nat, b: nat, count: usize)
    requires
        b < 20,
        a > 0 || b > 0,
        occurs_at(s, Seq::new(a, |_k: int| 'z') + zero_tail(b), i as int),
        b == 0 ==> i + a >= s.len() || !run_char(s[(i + a) as int]),
        count + 20 * a + b <= usize::MAX,
    ensures
        zero_run(s, i, count) == ((count + 20 * a + b) as usize, i + a + (if b > 0 { 1nat } else { 0nat })),
    decreases a,
{
    let code = Seq::new(a, |_k: int| 'z') + zero_tail(b);
    let ii = i as int;
    assert(s[ii] == code[0]) by {
        assert(s.subrange(ii, ii + code.len())[0] == s[ii]);
    }
    assert('z' as u8 == 0x7a);
    if a == 0 {
        lemma_tail_char(b);
        assert(code[0] == ((0x66 + b) as u32) as char);
    } else {
        assert(code[0] == 'z');
        assert(zero_weight('z') == 20);
        let c2 = (count + 20) as usize;
        let rest = Seq::new((a - 1) as nat, |_k: int| 'z') + zero_tail(b);
        assert(code =~= seq!['z'] + rest);
        if a > 1 || b > 0 {
            assert(s[ii + 1] == code[1]) by {
                assert(s.subrange(ii, ii + code.len())[1] == s[ii + 1]);
            }
            if a > 1 {
                assert(code[1] == 'z');
            } else {
                lemma_tail_char(b);
                assert(code[1] == ((0x66 + b) as u32) as char);
            }
            assert(occurs_at(s, rest, ii + 1)) by {
                assert(s.subrange(ii + 1, ii + 1 + rest.len()) =~= s.subrange(ii, ii + code.len()).subrange(
                    1,
                    code.len() as int,
                ));
                assert(s.subrange(ii, ii + code.len()).subrange(1, code.len() as int) =~= rest);
            }
            lemma_zero_run_read(s, i + 1, (a - 1) as nat, b, c2);
        }
    }
}


/// What may follow a group's code for it to read back: after a full group
/// no `f` (a marker the reader skips), and after a run of zeros that ends
/// in a `z` no further zero-run letter (the reader would count it in).
pub open spec fn group_end_ok(s: Seq<char>, j: nat, q: Seq<u32>, g: nat) -> bool {
    &&& q.len() == g ==> j >= s.len() || s[j as int] != 'f'
    &&& (g > q.len() && (g - q.len()) % 20 == 0) ==> j >= s.len() || !run_char(s[j as int])
}

/// A group's code reads back as its clue list, ending where the code ends.
proof fn lemma_group_read(s: Seq<char>, i: nat, g: usize, q: Seq<u32>)
    requires
        q.len() <= g,
        forall|k: int| 0 <= k < q.len() ==> q[k] <= 255,
        occurs_at(s, group_code(q, g as nat), i as int),
        group_end_ok(s, i + group_code(q, g as nat).len(), q, g as nat),
    ensures
        pz_group(s, i, g, Seq::empty()) == Ok::<(Seq<u32>, nat), Seq<char>>(
            (q, i + group_code(q, g as nat).len()),
        ),
{
    let vc = values_code(q);
    let z = (g - q.len()) as nat;
    let zc = zeros_code(z);
    let code = group_code(q, g as nat);
    assert(code == vc + zc);
    let ii = i as int;
    let whole = s.subrange(ii, ii + code.len());
    assert(occurs_at(s, vc, ii)) by {
        assert(s.subrange(ii, ii + vc.len()) =~= whole.subrange(0, vc.len() as int));
        assert(whole.subrange(0, vc.len() as int) =~= vc);
    }
    assert(occurs_at(s, zc, ii + vc.len())) by {
        assert(s.subrange(ii + vc.len(), ii + vc.len() + zc.len()) =~= whole.subrange(
            vc.len() as int,
            whole.len() as int,
        ));
        assert(whole.subrange(vc.len() as int, whole.len() as int) =~= zc);
    }
    lemma_values_read(s, i, g, Seq::empty(), q);
    assert(Seq::<u32>::empty() + q.reverse() =~= q.reverse());
    assert(q.reverse().reverse() =~= q);
    let p = i + vc.len();
    if z == 0 {
        assert(zc =~= Seq::<char>::empty());
        assert(q.reverse().len() == g);
    } else {
        assert(zc =~= Seq::new(z / 20, |_k: int| 'z') + zero_tail(z % 20));
        assert(s[p as int] == zc[0]) by {
            assert(s.subrange(ii + vc.len(), ii + vc.len() + zc.len())[0] == s[p as int]);
        }
        if z / 20 > 0 {
            assert(zc[0] == 'z');
        } else {
            lemma_tail_char(z % 20);
            assert(zc[0] == ((0x66 + z % 20) as u32) as char);
        }
        assert(run_char(s[p as int]));
        assert(z == 20 * (z / 20) + z % 20);
        lemma_zero_run_read(s, p, z / 20, z % 20, 0);
        assert(zc.len() == z / 20 + (if z % 20 > 0 { 1nat } else { 0nat }));
    }
}


proof fn lemma_groups_code_prefix(v: Seq<Seq<u32>>, k: nat, count: nat, g: nat)
    requires
        k <= count <= v.len(),
    ensures
        groups_code(v, k, g).len() <= groups_code(v, count, g).len(),
        groups_code(v, count, g).subrange(0, groups_code(v, k, g).len() as int) == groups_code(v, k, g),
    decreases count - k,
{
    if k < count {
        lemma_groups_code_prefix(v, k, (count - 1) as nat, g);
        let a = groups_code(v, (count - 1) as nat, g);
        let b = groups_code(v, count, g);
        assert(b == a + group_code(v[count - 1], g));
        assert(b.subrange(0, groups_code(v, k, g).len() as int) =~= a.subrange(
            0,
            groups_code(v, k, g).len() as int,
        ));
    } else {
        let b = groups_code(v, count, g);
        assert(b.subrange(0, b.len() as int) =~= b);
    }
}

/// The groups `k..count` of a run of group codes read back as their clue
/// lists, ending where the codes end.
proof fn lemma_groups_read(s: Seq<char>, base: nat, v: Seq<Seq<u32>>, k: nat, count: nat, g: usize, label: Seq<char>)
    requires
        k <= count <= v.len(),
        occurs_at(s, groups_code(v, count, g as nat), base as int),
        forall|c: int| 0 <= c < count ==> (#[trigger] v[c]).len() <= g,
        forall|c: int, m: int| 0 <= c < count && 0 <= m < v[c].len() ==> v[c][m] <= 255,
        forall|c: nat|
            k <= c < count ==> group_end_ok(
                s,
                base + groups_code(v, c + 1, g as nat).len(),
                #[trigger] v[c as int],
                g as nat,
            ),
    ensures
        groups_from(s, base + groups_code(v, k, g as nat).len(), k, count, g, label) == Ok::<
            (Seq<Seq<u32>>, nat),
            Seq<char>,
        >((v.subrange(k as int, count as int), base + groups_code(v, count, g as nat).len())),
    decreases count - k,
{
    let gn = g as nat;
    if k == count {
        assert(v.subrange(k as int, count as int) =~= Seq::<Seq<u32>>::empty());
    } else {
        let a = groups_code(v, k, gn);
        let b = groups_code(v, k + 1, gn);
        let code = group_code(v[k as int], gn);
        assert(b == a + code);
        lemma_groups_code_prefix(v, k + 1, count, gn);
        let all = groups_code(v, count, gn);
        let bi = base as int;
        assert(occurs_at(s, code, bi + a.len())) by {
            assert(all.subrange(0, b.len() as int) == b);
            assert(s.subrange(bi, bi + all.len()) == all);
            assert(s.subrange(bi + a.len(), bi + a.len() + code.len()) =~= all.subrange(
                a.len() as int,
                b.len() as int,
            ));
            assert(all.subrange(a.len() as int, b.len() as int) =~= b.subrange(a.len() as int, b.len() as int));
            assert(b.subrange(a.len() as int, b.len() as int) =~= code);
        }
        assert(group_end_ok(s, base + b.len(), v[k as int], gn));
        lemma_group_read(s, base + a.len(), g, v[k as int]);
        lemma_groups_read(s, base, v, k + 1, count, g, label);
        assert(seq![v[k as int]] + v.subrange((k + 1) as int, count as int) =~= v.subrange(k as int, count as int));
    }
}


/// The code of group `k` stands right after the codes of the groups before.
proof fn lemma_group_code_at(s: Seq<char>, base: nat, v: Seq<Seq<u32>>, k: nat, count: nat, g: nat)
    requires
        k < count <= v.len(),
        occurs_at(s, groups_code(v, count, g), base as int),
    ensures
        occurs_at(s, group_code(v[k as int], g), (base + groups_code(v, k, g).len()) as int),
        groups_code(v, k + 1, g).len() == groups_code(v, k, g).len() + group_code(v[k as int], g).len(),
{
    let a = groups_code(v, k, g);
    let b = groups_code(v, k + 1, g);
    let code = group_code(v[k as int], g);
    assert(b == a + code);
    lemma_groups_code_prefix(v, k + 1, count, g);
    let all = groups_code(v, count, g);
    let bi = base as int;
    assert(all.subrange(0, b.len() as int) == b);
    assert(s.subrange(bi, bi + all.len()) == all);
    assert(s.subrange(bi + a.len(), bi + a.len() + code.len()) =~= all.subrange(a.len() as int, b.len() as int));
    assert(all.subrange(a.len() as int, b.len() as int) =~= b.subrange(a.len() as int, b.len() as int));
    assert(b.subrange(a.len() as int, b.len() as int) =~= code);
}

/// The first character of a group's code: a value's code when the list is
/// not empty (`f` only for a last value of fifteen), else a zero-run letter.
proof fn lemma_group_first_char(q: Seq<u32>, g: nat)
    requires
        g >= 1,
        q.len() <= g,
        forall|k: int| 0 <= k < q.len() ==> q[k] <= 255,
    ensures
        group_code(q, g).len() > 0,
        (group_code(q, g)[0] == 'f') == (q.len() > 0 && q.last() == 15),
        run_char(group_code(q, g)[0]) == (q.len() == 0),
{
    let vc = values_code(q);
    let z = (g - q.len()) as nat;
    let zc = zeros_code(z);
    assert(group_code(q, g) == vc + zc);
    if q.len() > 0 {
        let v = q.last();
        let c = value_code(v);
        assert(vc == c + values_code(q.drop_last()));
        if v <= 9 {
            assert(hex_digit(v as nat) as u32 == 0x30 + v);
        } else if v <= 15 {
            assert(hex_digit(v as nat) as u32 == 0x61 + v - 10);
        }
        assert(c.len() > 0);
        assert((vc + zc)[0] == c[0]);
    } else {
        assert(vc =~= Seq::<char>::empty());
        assert(vc + zc =~= zc);
        assert(zc =~= Seq::new(z / 20, |_k: int| 'z') + zero_tail(z % 20));
        if z / 20 > 0 {
            assert(zc[0] == 'z');
        } else {
            lemma_tail_char(z % 20);
            assert(zc[0] == ((0x66 + z % 20) as u32) as char);
        }
    }
}

/// A character of a puzz.link group code.
pub open spec fn link_char(c: char) -> bool {
    is_hex_digit(c) || c == '-' || run_char(c)
}

proof fn lemma_groups_code_chars(v: Seq<Seq<u32>>, k: nat, g: nat)
    requires
        k <= v.len(),
        forall|c: int, m: int| 0 <= c < k && 0 <= m < v[c].len() ==> v[c][m] <= 255,
    ensures
        all_chars(groups_code(v, k, g), |c: char| link_char(c)),
    decreases k,
{
    if k > 0 {
        lemma_groups_code_chars(v, (k - 1) as nat, g);
        let q = v[k - 1];
        let a = groups_code(v, (k - 1) as nat, g);
        let code = group_code(q, g);
        lemma_values_chars(q);
        let z = if g > q.len() { (g - q.len()) as nat } else { 0 };
        let zc = zeros_code(z);
        assert(all_chars(zc, |c: char| link_char(c))) by {
            assert forall|i: int| 0 <= i < zc.len() implies link_char(#[trigger] zc[i]) by {
                if i < z / 20 {
                    assert(zc[i] == 'z');
                } else {
                    lemma_tail_char(z % 20);
                    assert(zc[i] == ((0x66 + z % 20) as u32) as char);
                }
            }
        }
        let b = a + code;
        assert(groups_code(v, k, g) == b);
        assert(code == values_code(q) + zc);
        assert forall|i: int| 0 <= i < b.len() implies link_char(#[trigger] b[i]) by {
            if i < a.len() {
                assert(b[i] == a[i]);
            } else if i < a.len() + values_code(q).len() {
                assert(b[i] == values_code(q)[i - a.len()]);
            } else {
                assert(b[i] == zc[i - a.len() - values_code(q).len()]);
            }
        }
    }
}

proof fn lemma_values_chars(q: Seq<u32>)
    ensures
        all_chars(values_code(q), |c: char| link_char(c)),
    decreases q.len(),
{
    if q.len() > 0 {
        lemma_values_chars(q.drop_last());
        let v = q.last();
        let c = value_code(v);
        let r = values_code(q.drop_last());
        assert(values_code(q) == c + r);
        assert(all_chars(c, |ch: char| link_char(ch))) by {
            if v <= 15 {
                if v <= 9 {
                    assert(hex_digit(v as nat) as u32 == 0x30 + v);
                } else {
                    assert(hex_digit(v as nat) as u32 == 0x61 + v - 10);
                }
            } else {
                lemma_hex_chars(v as nat);
                assert forall|i: int| 0 <= i < c.len() implies link_char(#[trigger] c[i]) by {
                    if i > 0 {
                        assert(c[i] == hex(v as nat)[i - 1]);
                    }
                }
            }
        }
        assert forall|i: int| 0 <= i < c.len() + r.len() implies link_char(#[trigger] (c + r)[i]) by {
            if i < c.len() {
                assert((c + r)[i] == c[i]);
            } else {
                assert((c + r)[i] == r[i - c.len()]);
            }
        }
    }
}

proof fn lemma_hex_chars(n: nat)
    ensures
        all_chars(hex(n), |c: char| is_hex_digit(c)),
    decreases n,
{
    let d = if n < 16 { n } else { n % 16 };
    assert(is_hex_digit(hex_digit(d))) by {
        if d < 10 {
            assert(hex_digit(d) as u32 == 0x30 + d);
        } else {
            assert(hex_digit(d) as u32 == 0x61 + d - 10);
        }
    }
    if n >= 16 {
        lemma_hex_chars(n / 16);
        let h = hex(n / 16);
        assert forall|i: int| 0 <= i < h.len() + 1 implies is_hex_digit(#[trigger] h.push(hex_digit(d))[i]) by {
            if i < h.len() {
                assert(h.push(hex_digit(d))[i] == h[i]);
            }
        }
    }
}


/// The groups of a puzzle in puzz.link order, each with its number of
/// slots: the columns, then the rows.
pub open spec fn link_groups(p: PuzzleModel) -> Seq<(Seq<u32>, nat)> {
    p.col_clues.map_values(|q: Seq<u32>| (q, half_up(p.height))) + p.row_clues.map_values(
        |q: Seq<u32>| (q, half_up(p.width)),
    )
}

/// What the reader needs of the group after `a`: after a full group, not a
/// list whose last value is fifteen (written `f`, the marker the reader
/// skips after a full group); after a group padded by a positive multiple
/// of twenty zeros, not an empty list (its zero run would be read into the
/// first).
pub open spec fn link_follows(a: (Seq<u32>, nat), b: Seq<u32>) -> bool {
    &&& a.0.len() == a.1 ==> b.len() == 0 || b.last() != 15
    &&& (a.1 > a.0.len() && (a.1 - a.0.len()) % 20 == 0) ==> b.len() > 0
}

/// A puzzle that its puzz.link URL carries unchanged: at least one row and
/// one column, a clue list per line with no more values than the line has
/// slots, values of at most 255 (written as two hexadecimal digits), and
/// no group boundary that the reader would misplace.
pub open spec fn fits_link(p: PuzzleModel) -> bool {
    &&& p.width >= 1 && p.height >= 1
    &&& p.width <= usize::MAX && p.height <= usize::MAX
    &&& p.col_clues.len() == p.width && p.row_clues.len() == p.height
    &&& forall|c: int| 0 <= c < p.width ==> (#[trigger] p.col_clues[c]).len() <= half_up(p.height)
    &&& forall|r: int| 0 <= r < p.height ==> (#[trigger] p.row_clues[r]).len() <= half_up(p.width)
    &&& forall|c: int, m: int| 0 <= c < p.width && 0 <= m < p.col_clues[c].len() ==> p.col_clues[c][m] <= 255
    &&& forall|r: int, m: int| 0 <= r < p.height && 0 <= m < p.row_clues[r].len() ==> p.row_clues[r][m] <= 255
    &&& forall|i: int|
        0 <= i < link_groups(p).len() - 1 ==> link_follows(#[trigger] link_groups(p)[i], link_groups(p)[i + 1].0)
}

/// The data part of the URL: the column groups' codes, then the rows'.
pub open spec fn link_data(p: PuzzleModel) -> Seq<char> {
    groups_code(p.col_clues, p.width, half_up(p.height)) + groups_code(p.row_clues, p.height, half_up(p.width))
}

/// The group `next`, when it comes right after the end `j` of another
/// group, makes that end readable if the two follow each other correctly.
proof fn lemma_end_before(s: Seq<char>, j: nat, a: (Seq<u32>, nat), next: Seq<u32>, gn: nat)
    requires
        gn >= 1,
        next.len() <= gn,
        forall|k: int| 0 <= k < next.len() ==> next[k] <= 255,
        occurs_at(s, group_code(next, gn), j as int),
        link_follows(a, next),
    ensures
        group_end_ok(s, j, a.0, a.1),
{
    lemma_group_first_char(next, gn);
    assert(s[j as int] == group_code(next, gn)[0]) by {
        assert(s.subrange(j as int, j as int + group_code(next, gn).len())[0] == s[j as int]);
    }
}

#[verifier::spinoff_prover]
proof fn lemma_col_ends(p: PuzzleModel)
    requires
        fits_link(p),
    ensures
        forall|c: nat|
            0 <= c < p.width ==> group_end_ok(
                link_data(p),
                0 + groups_code(p.col_clues, c + 1, half_up(p.height)).len(),
                #[trigger] p.col_clues[c as int],
                half_up(p.height),
            ),
{
    let d = link_data(p);
    let gh = half_up(p.height);
    let gw = half_up(p.width);
    let cc = groups_code(p.col_clues, p.width, gh);
    let rc = groups_code(p.row_clues, p.height, gw);
    let gs = link_groups(p);
    assert(occurs_at(d, cc, 0)) by {
        assert(d.subrange(0, cc.len() as int) =~= cc);
    }
    assert(occurs_at(d, rc, cc.len() as int)) by {
        assert(d.subrange(cc.len() as int, cc.len() as int + rc.len()) =~= rc);
    }
    assert forall|c: nat| 0 <= c < p.width implies group_end_ok(
        d,
        0 + groups_code(p.col_clues, c + 1, gh).len(),
        #[trigger] p.col_clues[c as int],
        gh,
    ) by {
        let ci = c as int;
        assert(gs[ci] == (p.col_clues[ci], gh));
        let j = groups_code(p.col_clues, c + 1, gh).len();
        if c + 1 < p.width {
            lemma_group_code_at(d, 0, p.col_clues, c + 1, p.width, gh);
            assert(gs[ci + 1] == (p.col_clues[ci + 1], gh));
            assert(link_follows(gs[ci], gs[ci + 1].0));
            lemma_end_before(d, j, gs[ci], p.col_clues[ci + 1], gh);
        } else {
            assert(c + 1 == p.width);
            lemma_group_code_at(d, cc.len(), p.row_clues, 0, p.height, gw);
            assert(groups_code(p.row_clues, 0, gw).len() == 0);
            assert(gs[ci + 1] == (p.row_clues[0], gw));
            assert(link_follows(gs[ci], gs[ci + 1].0));
            lemma_end_before(d, j, gs[ci], p.row_clues[0], gw);
        }
    }
}

#[verifier::spinoff_prover]
proof fn lemma_row_ends(p: PuzzleModel)
    requires
        fits_link(p),
    ensures
        forall|r: nat|
            0 <= r < p.height ==> group_end_ok(
                link_data(p),
                groups_code(p.col_clues, p.width, half_up(p.height)).len() + groups_code(
                    p.row_clues,
                    r + 1,
                    half_up(p.width),
                ).len(),
                #[trigger] p.row_clues[r as int],
                half_up(p.width),
            ),
{
    let d = link_data(p);
    let gh = half_up(p.height);
    let gw = half_up(p.width);
    let cc = groups_code(p.col_clues, p.width, gh);
    let rc = groups_code(p.row_clues, p.height, gw);
    let gs = link_groups(p);
    let w = p.width;
    assert(occurs_at(d, rc, cc.len() as int)) by {
        assert(d.subrange(cc.len() as int, cc.len() as int + rc.len()) =~= rc);
    }
    assert forall|r: nat| 0 <= r < p.height implies group_end_ok(
        d,
        cc.len() + groups_code(p.row_clues, r + 1, gw).len(),
        #[trigger] p.row_clues[r as int],
        gw,
    ) by {
        let ri = r as int;
        let wi = w as int;
        assert(gs[wi + ri] == (p.row_clues[ri], gw));
        let j = cc.len() + groups_code(p.row_clues, r + 1, gw).len();
        if r + 1 < p.height {
            lemma_group_code_at(d, cc.len(), p.row_clues, r + 1, p.height, gw);
            assert(gs[wi + ri + 1] == (p.row_clues[ri + 1], gw));
            assert(link_follows(gs[wi + ri], gs[wi + ri + 1].0));
            lemma_end_before(d, j, gs[wi + ri], p.row_clues[ri + 1], gw);
        } else {
            assert(j == d.len());
        }
    }
}


/// `p` does not stand in `s` at index `k`, and would fit there.
pub open spec fn no_match_at(s: Seq<char>, p: Seq<char>, k: int) -> bool {
    k + p.len() <= s.len() && s.subrange(k, k + p.len()) != p
}

proof fn lemma_find_from_skip(s: Seq<char>, p: Seq<char>, i: nat, j: nat)
    requires
        i <= j,
        forall|k: int| i <= k < j ==> #[trigger] no_match_at(s, p, k),
    ensures
        crate::text::find_from(s, p, i) == crate::text::find_from(s, p, j),
    decreases j - i,
{
    if i < j {
        assert(no_match_at(s, p, i as int));
        lemma_find_from_skip(s, p, (i + 1) as nat, j);
    }
}

/// The URL names the puzzle's path once, at its fixed place.
proof fn lemma_link_marker(rest: Seq<char>)
    ensures
        crate::text::find_from("https://puzz.link/p?nonogram/"@ + rest, "nonogram/"@, 0) == Some(20nat),
{
    reveal_strlit("https://puzz.link/p?nonogram/");
    reveal_strlit("nonogram/");
    let pre = "https://puzz.link/p?nonogram/"@;
    let u = pre + rest;
    let m = "nonogram/"@;
    assert(pre.len() == 29);
    assert forall|k: int| 0 <= k < 20 implies #[trigger] no_match_at(u, m, k) by {
        let t = u.subrange(k, k + m.len());
        if k == 15 {
            assert(t[1] == u[16] && u[16] == pre[16]);
            assert(t[1] != m[1]);
        } else {
            assert(t[0] == u[k] && u[k] == pre[k]);
            assert(t[0] != m[0]);
        }
    }
    lemma_find_from_skip(u, m, 0, 20);
    assert(u.subrange(20, 29) =~= m);
}

/// The URL's path after the marker splits into the width, the height and
/// the data.
#[verifier::spinoff_prover]
proof fn lemma_link_parts(p: PuzzleModel)
    requires
        fits_link(p),
    ensures
        crate::text::find_from(puzzlink_text(p), "nonogram/"@, 0) == Some(20nat),
        "nonogram/"@.len() == 9,
        splitn_on(puzzlink_text(p).skip(29), 3, '/') == seq![decimal(p.width), decimal(p.height), link_data(p)],
{
    reveal_strlit("/");
    reveal_strlit("nonogram/");
    let w = p.width;
    let h = p.height;
    let gh = half_up(h);
    let gw = half_up(w);
    let cc = groups_code(p.col_clues, w, gh);
    let rc = groups_code(p.row_clues, h, gw);
    let d = link_data(p);
    let dw = decimal(w);
    let dh = decimal(h);
    let rest = dw + seq!['/'] + (dh + seq!['/'] + d);
    let url = puzzlink_text(p);
    assert(url =~= "https://puzz.link/p?nonogram/"@ + rest);
    lemma_link_marker(rest);
    assert(url.skip(29) =~= rest) by {
        reveal_strlit("https://puzz.link/p?nonogram/");
    }
    lemma_decimal_digits(w);
    lemma_decimal_digits(h);
    assert(free_of(dw, '/') && free_of(dh, '/')) by {
        assert forall|i: int| 0 <= i < dw.len() implies dw[i] != '/' by {
            assert(0x30 <= dw[i] as u32 <= 0x39);
        }
        assert forall|i: int| 0 <= i < dh.len() implies dh[i] != '/' by {
            assert(0x30 <= dh[i] as u32 <= 0x39);
        }
    }
    lemma_groups_code_chars(p.col_clues, w, gh);
    lemma_groups_code_chars(p.row_clues, h, gw);
    assert(free_of(d, '/')) by {
        assert forall|i: int| 0 <= i < d.len() implies d[i] != '/' by {
            if i < cc.len() {
                assert(d[i] == cc[i]);
                assert(link_char(cc[i]));
            } else {
                assert(d[i] == rc[i - cc.len()]);
                assert(link_char(rc[i - cc.len()]));
            }
        }
    }
    lemma_splitn_piece(dw, dh + seq!['/'] + d, 3, '/');
    lemma_splitn_piece(dh, d, 2, '/');
    lemma_splitn_last(d, 1, '/');
    assert(splitn_on(url.skip(29), 3, '/') =~= seq![dw, dh, d]);
}

/// The data reads back as the column clues, then the row clues.
#[verifier::spinoff_prover]
proof fn lemma_link_groups(p: PuzzleModel)
    requires
        fits_link(p),
    ensures
        groups_from(link_data(p), 0, 0, p.width, half_up(p.height) as usize, "col "@) == Ok::<
            (Seq<Seq<u32>>, nat),
            Seq<char>,
        >((p.col_clues, groups_code(p.col_clues, p.width, half_up(p.height)).len())),
        groups_from(
            link_data(p),
            groups_code(p.col_clues, p.width, half_up(p.height)).len(),
            0,
            p.height,
            half_up(p.width) as usize,
            "row "@,
        ) == Ok::<(Seq<Seq<u32>>, nat), Seq<char>>((p.row_clues, link_data(p).len())),
{
    let w = p.width;
    let h = p.height;
    let gh = half_up(h);
    let gw = half_up(w);
    let cc = groups_code(p.col_clues, w, gh);
    let rc = groups_code(p.row_clues, h, gw);
    let d = link_data(p);
    assert(half_up(h) <= h && half_up(w) <= w);
    lemma_col_ends(p);
    lemma_row_ends(p);
    assert(occurs_at(d, cc, 0)) by {
        assert(d.subrange(0, cc.len() as int) =~= cc);
    }
    assert(occurs_at(d, rc, cc.len() as int)) by {
        assert(d.subrange(cc.len() as int, cc.len() as int + rc.len()) =~= rc);
    }
    assert(groups_code(p.col_clues, 0, gh).len() == 0);
    assert(groups_code(p.row_clues, 0, gw).len() == 0);
    lemma_groups_read(d, 0, p.col_clues, 0, w, gh as usize, "col "@);
    lemma_groups_read(d, cc.len(), p.row_clues, 0, h, gw as usize, "row "@);
    assert(p.col_clues.subrange(0, w as int) =~= p.col_clues);
    assert(p.row_clues.subrange(0, h as int) =~= p.row_clues);
}

/// Reading the URL that `puzzle_to_puzzlink_url` writes gives the same
/// clues back, for every puzzle that the URL format can carry: a puzzle
/// named `{w}×{h}` with the same dimensions and clue lists, titled
/// `puzz.link {w}×{h}`.
pub proof fn lemma_puzzlink_round_trip(p: PuzzleModel)
    requires
        fits_link(p),
    ensures
        url_model(puzzlink_text(p)) == Ok::<(Seq<char>, PuzzleModel), Seq<char>>(
            (
                "puzz.link "@ + (decimal(p.width) + "×"@ + decimal(p.height)),
                PuzzleModel {
                    name: decimal(p.width) + "×"@ + decimal(p.height),
                    answer: None,
                    width: p.width,
                    height: p.height,
                    row_clues: p.row_clues,
                    col_clues: p.col_clues,
                    solution: None,
                },
            ),
        ),
{
    lemma_link_parts(p);
    lemma_link_groups(p);
    lemma_parse_dimension(p.width);
    lemma_parse_dimension(p.height);
    assert(half_up(p.height) <= p.height && half_up(p.width) <= p.width);
}

} // verus!
