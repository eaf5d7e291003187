//! Character-level text helpers: conversion between strings and character
//! vectors, decimal rendering and parsing, whitespace, splitting and joining.
use vstd::prelude::*;

verus! {

/// Copies the characters of a string slice into a vector.
pub fn str_to_chars(s: &str) -> (v: Vec<char>)
    ensures
        v@ == s@,
{
    let mut v: Vec<char> = Vec::new();
    for c in it: s.chars()
        invariant
            v@ == it.seq().take(it.index() as int),
    {
        v.push(c);
    }
    v
}

/// Appends one character to a string (`String::push`).
#[verifier::external_body]
fn push_char(s: &mut String, c: char)
    ensures
        final(s)@ == old(s)@.push(c),
{
    s.push(c);
}

/// Builds a string from its characters.
pub fn chars_to_string(v: &[char]) -> (s: String)
    ensures
        s@ == v@,
{
    let mut s = String::new();
    let mut i: usize = 0;
    while i < v.len()
        invariant
            i <= v.len(),
            s@ == v@.take(i as int),
        decreases v.len() - i,
    {
        push_char(&mut s, v[i]);
        i += 1;
        assert(s@ =~= v@.take(i as int));
    }
    assert(v@.take(v.len() as int) =~= v@);
    s
}

/// The decimal digit character for `d < 10`.
pub open spec fn digit_char(d: nat) -> char {
    if d == 0 { '0' } else if d == 1 { '1' } else if d == 2 { '2' } else if d == 3 { '3' } else if d == 4 {
        '4'
    } else if d == 5 { '5' } else if d == 6 { '6' } else if d == 7 { '7' } else if d == 8 { '8' } else {
        '9'
    }
}

/// Decimal rendering of `n` without leading zeros (`"0"` for zero).
pub open spec fn decimal(n: nat) -> Seq<char>
    decreases n,
{
    if n < 10 {
        seq![digit_char(n)]
    } else {
        decimal(n / 10).push(digit_char(n % 10))
    }
}

/// The digit character of a value below ten.
pub fn digit_to_char(d: u64) -> (c: char)
    requires
        d < 10,
    ensures
        c == digit_char(d as nat),
{
    if d == 0 { '0' } else if d == 1 { '1' } else if d == 2 { '2' } else if d == 3 { '3' } else if d == 4 {
        '4'
    } else if d == 5 { '5' } else if d == 6 { '6' } else if d == 7 { '7' } else if d == 8 { '8' } else {
        '9'
    }
}

/// Decimal characters of `n`.
pub fn decimal_chars(n: u64) -> (v: Vec<char>)
    ensures
        v@ == decimal(n as nat),
    decreases n,
{
    if n < 10 {
        let mut v = Vec::new();
        v.push(digit_to_char(n));
        v
    } else {
        let mut v = decimal_chars(n / 10);
        v.push(digit_to_char(n % 10));
        v
    }
}

/// Appends the characters of `t` to `v`.
pub fn extend_chars(v: &mut Vec<char>, t: &[char])
    ensures
        final(v)@ == old(v)@ + t@,
{
    let mut i: usize = 0;
    while i < t.len()
        invariant
            i <= t.len(),
            v@ == old(v)@ + t@.take(i as int),
        decreases t.len() - i,
    {
        v.push(t[i]);
        i += 1;
        assert(v@ =~= old(v)@ + t@.take(i as int));
    }
    assert(t@.take(t.len() as int) =~= t@);
}

/// Appends the characters of the string slice `t` to `v`.
pub fn extend_str(v: &mut Vec<char>, t: &str)
    ensures
        final(v)@ == old(v)@ + t@,
{
    let tc = str_to_chars(t);
    extend_chars(v, &tc);
}

/// Appends the decimal rendering of `n` to `v`.
pub fn extend_decimal(v: &mut Vec<char>, n: u64)
    ensures
        final(v)@ == old(v)@ + decimal(n as nat),
{
    let d = decimal_chars(n);
    extend_chars(v, &d);
}

/// `char::is_whitespace`: the characters with the Unicode `White_Space`
/// property.
pub open spec fn is_ws(c: char) -> bool {
    let u = c as u32;
    ||| 0x9 <= u <= 0xd
    ||| u == 0x20
    ||| u == 0x85
    ||| u == 0xa0
    ||| u == 0x1680
    ||| 0x2000 <= u <= 0x200a
    ||| u == 0x2028
    ||| u == 0x2029
    ||| u == 0x202f
    ||| u == 0x205f
    ||| u == 0x3000
}

/// Whether `c` is a whitespace character.
pub fn is_whitespace(c: char) -> (r: bool)
    ensures
        r == is_ws(c),
{
    let u = c as u32;
    (0x9 <= u && u <= 0xd) || u == 0x20 || u == 0x85 || u == 0xa0 || u == 0x1680 || (0x2000 <= u && u
        <= 0x200a) || u == 0x2028 || u == 0x2029 || u == 0x202f || u == 0x205f || u == 0x3000
}

/// `s` without its leading whitespace.
pub open spec fn trim_start(s: Seq<char>) -> Seq<char>
    decreases s.len(),
{
    if s.len() > 0 && is_ws(s[0]) {
        trim_start(s.drop_first())
    } else {
        s
    }
}

/// `s` without its trailing whitespace.
pub open spec fn trim_end(s: Seq<char>) -> Seq<char>
    decreases s.len(),
{
    if s.len() > 0 && is_ws(s.last()) {
        trim_end(s.drop_last())
    } else {
        s
    }
}

/// `s` without leading and trailing whitespace (`str::trim`).
pub open spec fn trim(s: Seq<char>) -> Seq<char> {
    trim_end(trim_start(s))
}

/// Copies `s[from..to]`.
pub fn copy_range<T: Copy>(s: &[T], from: usize, to: usize) -> (r: Vec<T>)
    requires
        from <= to <= s@.len(),
    ensures
        r@ == s@.subrange(from as int, to as int),
{
    let mut r: Vec<T> = Vec::new();
    let mut k: usize = from;
    while k < to
        invariant
            from <= k <= to <= s@.len(),
            r@ == s@.subrange(from as int, k as int),
        decreases to - k,
    {
        r.push(s[k]);
        k += 1;
        assert(r@ =~= s@.subrange(from as int, k as int));
    }
    r
}

/// `s` without leading and trailing whitespace.
pub fn trim_chars(s: &[char]) -> (r: Vec<char>)
    ensures
        r@ == trim(s@),
{
    let mut i: usize = 0;
    assert(s@.skip(0) =~= s@);
    while i < s.len() && is_whitespace(s[i])
        invariant
            i <= s@.len(),
            trim_start(s@) == trim_start(s@.skip(i as int)),
        decreases s@.len() - i,
    {
        assert(s@.skip(i as int).drop_first() =~= s@.skip(i + 1));
        i += 1;
    }
    assert(trim_start(s@) == s@.skip(i as int));
    let mut j: usize = s.len();
    while j > i && is_whitespace(s[j - 1])
        invariant
            i <= j <= s@.len(),
            trim_start(s@) == s@.skip(i as int),
            trim(s@) == trim_end(s@.subrange(i as int, j as int)),
        decreases j,
    {
        assert(s@.subrange(i as int, j as int).drop_last() =~= s@.subrange(i as int, j - 1));
        j -= 1;
    }
    copy_range(s, i, j)
}

/// The views of a list of character vectors.
pub open spec fn views(v: Seq<Vec<char>>) -> Seq<Seq<char>> {
    v.map_values(|x: Vec<char>| x@)
}

/// Pieces of `s` between the separators `sep`, where `cur` is the piece
/// read so far (`str::split` with a character pattern).
pub open spec fn split_from(s: Seq<char>, sep: char, cur: Seq<char>) -> Seq<Seq<char>>
    decreases s.len(),
{
    if s.len() == 0 {
        seq![cur]
    } else if s[0] == sep {
        seq![cur] + split_from(s.drop_first(), sep, Seq::empty())
    } else {
        split_from(s.drop_first(), sep, cur.push(s[0]))
    }
}

/// Pieces of `s` between the separators `sep`.
pub open spec fn split_on(s: Seq<char>, sep: char) -> Seq<Seq<char>> {
    split_from(s, sep, Seq::empty())
}

/// At most `n` pieces of `s`: the last one keeps the remaining separators
/// (`str::splitn` with a character pattern), where `cur` is the piece read
/// so far.
pub open spec fn splitn_from(s: Seq<char>, n: nat, sep: char, cur: Seq<char>) -> Seq<Seq<char>>
    decreases s.len(),
{
    if s.len() == 0 {
        seq![cur]
    } else if s[0] == sep && n > 1 {
        seq![cur] + splitn_from(s.drop_first(), (n - 1) as nat, sep, Seq::empty())
    } else {
        splitn_from(s.drop_first(), n, sep, cur.push(s[0]))
    }
}

/// At most `n` pieces of `s` split at `sep`.
pub open spec fn splitn_on(s: Seq<char>, n: nat, sep: char) -> Seq<Seq<char>> {
    splitn_from(s, n, sep, Seq::empty())
}

/// Splits `s` at every `sep`.
pub fn split_chars(s: &[char], sep: char) -> (r: Vec<Vec<char>>)
    ensures
        views(r@) == split_on(s@, sep),
{
    let mut out: Vec<Vec<char>> = Vec::new();
    let mut cur: Vec<char> = Vec::new();
    let mut i: usize = 0;
    assert(s@.skip(0) =~= s@);
    while i < s.len()
        invariant
            i <= s@.len(),
            views(out@) + split_from(s@.skip(i as int), sep, cur@) == split_on(s@, sep),
        decreases s@.len() - i,
    {
        let ghost rest = s@.skip(i as int);
        assert(rest.drop_first() =~= s@.skip(i + 1));
        if s[i] == sep {
            let ghost before = out@;
            let ghost piece = cur@;
            out.push(cur);
            cur = Vec::new();
            assert(views(out@) =~= views(before) + seq![piece]);
            assert(views(out@) + split_from(s@.skip(i + 1), sep, cur@) =~= views(before) + (seq![piece]
                + split_from(s@.skip(i + 1), sep, Seq::empty())));
        } else {
            cur.push(s[i]);
        }
        i += 1;
    }
    let ghost before = out@;
    let ghost piece = cur@;
    out.push(cur);
    assert(views(out@) =~= views(before) + seq![piece]);
    out
}

/// Splits `s` at the first `n - 1` occurrences of `sep`.
pub fn splitn_chars(s: &[char], n: usize, sep: char) -> (r: Vec<Vec<char>>)
    ensures
        views(r@) == splitn_on(s@, n as nat, sep),
{
    let mut out: Vec<Vec<char>> = Vec::new();
    let mut cur: Vec<char> = Vec::new();
    let mut left: usize = n;
    let mut i: usize = 0;
    assert(s@.skip(0) =~= s@);
    while i < s.len()
        invariant
            i <= s@.len(),
            views(out@) + splitn_from(s@.skip(i as int), left as nat, sep, cur@) == splitn_on(s@, n as nat, sep),
        decreases s@.len() - i,
    {
        let ghost rest = s@.skip(i as int);
        assert(rest.drop_first() =~= s@.skip(i + 1));
        if s[i] == sep && left > 1 {
            let ghost before = out@;
            let ghost piece = cur@;
            out.push(cur);
            cur = Vec::new();
            left -= 1;
            assert(views(out@) =~= views(before) + seq![piece]);
            assert(views(out@) + splitn_from(s@.skip(i + 1), left as nat, sep, cur@) =~= views(before) + (
            seq![piece] + splitn_from(s@.skip(i + 1), left as nat, sep, Seq::empty())));
        } else {
            cur.push(s[i]);
        }
        i += 1;
    }
    let ghost before = out@;
    let ghost piece = cur@;
    out.push(cur);
    assert(views(out@) =~= views(before) + seq![piece]);
    out
}

/// The maximal runs of non-whitespace characters of `s`, where `cur` is the
/// run read so far (`str::split_whitespace`).
pub open spec fn words_from(s: Seq<char>, cur: Seq<char>) -> Seq<Seq<char>>
    decreases s.len(),
{
    if s.len() == 0 {
        if cur.len() > 0 { seq![cur] } else { Seq::empty() }
    } else if is_ws(s[0]) {
        (if cur.len() > 0 { seq![cur] } else { Seq::<Seq<char>>::empty() }) + words_from(s.drop_first(), Seq::empty())
    } else {
        words_from(s.drop_first(), cur.push(s[0]))
    }
}

/// The whitespace-separated words of `s`.
pub open spec fn words(s: Seq<char>) -> Seq<Seq<char>> {
    words_from(s, Seq::empty())
}

/// Splits `s` into its whitespace-separated words.
pub fn split_words(s: &[char]) -> (r: Vec<Vec<char>>)
    ensures
        views(r@) == words(s@),
{
    let mut out: Vec<Vec<char>> = Vec::new();
    let mut cur: Vec<char> = Vec::new();
    let mut i: usize = 0;
    assert(s@.skip(0) =~= s@);
    while i < s.len()
        invariant
            i <= s@.len(),
            views(out@) + words_from(s@.skip(i as int), cur@) == words(s@),
        decreases s@.len() - i,
    {
        let ghost rest = s@.skip(i as int);
        assert(rest.drop_first() =~= s@.skip(i + 1));
        assert(rest[0] == s@[i as int]);
        if is_whitespace(s[i]) {
            assert(words_from(rest, cur@) == (if cur@.len() > 0 { seq![cur@] } else {
                Seq::<Seq<char>>::empty()
            }) + words_from(s@.skip(i + 1), Seq::empty()));
            if cur.len() > 0 {
                let ghost before = out@;
                let ghost piece = cur@;
                out.push(cur);
                cur = Vec::new();
                assert(views(out@) =~= views(before) + seq![piece]);
                assert(views(out@) + words_from(s@.skip(i + 1), cur@) =~= views(before) + (seq![piece]
                    + words_from(s@.skip(i + 1), Seq::empty())));
            } else {
                assert(cur@ =~= Seq::<char>::empty());
                assert(Seq::<Seq<char>>::empty() + words_from(s@.skip(i + 1), Seq::empty()) =~= words_from(
                    s@.skip(i + 1),
                    Seq::empty(),
                ));
            }
        } else {
            assert(words_from(rest, cur@) == words_from(s@.skip(i + 1), cur@.push(s@[i as int])));
            cur.push(s[i]);
        }
        i += 1;
    }
    if cur.len() > 0 {
        let ghost before = out@;
        let ghost piece = cur@;
        out.push(cur);
        assert(views(out@) =~= views(before) + seq![piece]);
    } else {
        assert(views(out@) + Seq::<Seq<char>>::empty() =~= views(out@));
    }
    out
}

/// Every character of `s` is an ASCII digit.
pub open spec fn all_digits(s: Seq<char>) -> bool {
    forall|i: int| 0 <= i < s.len() ==> 0x30 <= (#[trigger] s[i]) as u32 <= 0x39
}

/// Value of the decimal digit `c`.
pub open spec fn digit_value(c: char) -> nat {
    (c as u32 - 0x30) as nat
}

/// Value of a string of decimal digits.
pub open spec fn digits_value(s: Seq<char>) -> nat
    decreases s.len(),
{
    if s.len() == 0 {
        0
    } else {
        digits_value(s.drop_last()) * 10 + digit_value(s.last())
    }
}

/// `u32::from_str`: an optional `+`, then one or more ASCII digits whose
/// value fits in a `u32`.
pub open spec fn parse_u32(s: Seq<char>) -> Option<u32> {
    let d = if s.len() > 0 && s[0] == '+' { s.drop_first() } else { s };
    if d.len() > 0 && all_digits(d) && digits_value(d) <= u32::MAX {
        Some(digits_value(d) as u32)
    } else {
        None
    }
}

/// Parses a decimal `u32` as `str::parse::<u32>` does.
pub fn parse_u32_chars(s: &[char]) -> (r: Option<u32>)
    ensures
        r == parse_u32(s@),
{
    let start: usize = if s.len() > 0 && s[0] == '+' { 1 } else { 0 };
    let ghost d = if s@.len() > 0 && s@[0] == '+' { s@.drop_first() } else { s@ };
    assert(d =~= s@.skip(start as int));
    if start >= s.len() {
        assert(d.len() == 0);
        return None;
    }
    let mut v: u64 = 0;
    let mut over = false;
    let mut i: usize = start;
    assert(s@.subrange(start as int, start as int) =~= Seq::<char>::empty());
    while i < s.len()
        invariant
            start <= i <= s@.len(),
            d == s@.skip(start as int),
            d == (if s@.len() > 0 && s@[0] == '+' { s@.drop_first() } else { s@ }),
            all_digits(s@.subrange(start as int, i as int)),
            over ==> digits_value(s@.subrange(start as int, i as int)) > u32::MAX,
            !over ==> v == digits_value(s@.subrange(start as int, i as int)) && v <= u32::MAX,
        decreases s@.len() - i,
    {
        let c = s[i];
        let u = c as u32;
        if !(0x30 <= u && u <= 0x39) {
            assert(!all_digits(d)) by {
                assert(d[i - start] == c);
            }
            return None;
        }
        let dv = (u - 0x30) as u64;
        let ghost p = s@.subrange(start as int, i + 1);
        assert(p.drop_last() =~= s@.subrange(start as int, i as int));
        assert(p.last() == c);
        if !over {
            v = v * 10 + dv;
            if v > 0xffff_ffff {
                over = true;
            }
        }
        i += 1;
    }
    assert(s@.subrange(start as int, s@.len() as int) =~= d);
    if over {
        None
    } else {
        Some(v as u32)
    }
}

/// `s` without one trailing carriage return, if it has one.
pub open spec fn strip_cr(s: Seq<char>) -> Seq<char> {
    if s.len() > 0 && s.last() == '\r' { s.drop_last() } else { s }
}

/// `str::lines`: the pieces between line feeds, each without a trailing
/// carriage return before its line feed; a final line feed does not start
/// another line.
pub open spec fn lines(s: Seq<char>) -> Seq<Seq<char>> {
    let p = split_on(s, '\n');
    p.drop_last().map_values(|l: Seq<char>| strip_cr(l)) + (if p.last().len() > 0 {
        seq![p.last()]
    } else {
        Seq::empty()
    })
}

/// Splits `s` into lines as `str::lines` does.
pub fn split_lines_chars(s: &[char]) -> (r: Vec<Vec<char>>)
    ensures
        views(r@) == lines(s@),
{
    let mut pieces = split_chars(s, '\n');
    proof {
        lemma_split_nonempty(s@, '\n', Seq::empty());
    }
    let last = pieces.pop().unwrap();
    let mut out: Vec<Vec<char>> = Vec::new();
    let mut i: usize = 0;
    let ghost p = split_on(s@, '\n');
    assert(views(pieces@) =~= p.drop_last());
    while i < pieces.len()
        invariant
            i <= pieces@.len(),
            p.len() >= 1,
            views(pieces@) == p.drop_last(),
            views(out@) == p.drop_last().take(i as int).map_values(|l: Seq<char>| strip_cr(l)),
        decreases pieces@.len() - i,
    {
        let l = &pieces[i];
        let n = l.len();
        let line = if n > 0 && l[n - 1] == '\r' {
            copy_range(l.as_slice(), 0, n - 1)
        } else {
            copy_range(l.as_slice(), 0, n)
        };
        proof {
            assert(l@ == p.drop_last()[i as int]);
            assert(l@.drop_last() =~= l@.subrange(0, n - 1));
            assert(l@ =~= l@.subrange(0, n as int));
        }
        let ghost before = out@;
        out.push(line);
        proof {
            let q = p.drop_last();
            assert(q.take(i + 1).map_values(|l: Seq<char>| strip_cr(l)) =~= q.take(i as int).map_values(
                |l: Seq<char>| strip_cr(l),
            ).push(strip_cr(q[i as int])));
            assert(views(out@) =~= views(before).push(strip_cr(q[i as int])));
        }
        i += 1;
    }
    assert(p.drop_last().take(pieces@.len() as int) =~= p.drop_last());
    if last.len() > 0 {
        let ghost before = out@;
        out.push(last);
        assert(views(out@) =~= views(before) + seq![p.last()]);
    } else {
        assert(views(out@) + Seq::<Seq<char>>::empty() =~= views(out@));
    }
    out
}

/// Splitting never yields an empty list of pieces.
pub proof fn lemma_split_nonempty(s: Seq<char>, sep: char, cur: Seq<char>)
    ensures
        split_from(s, sep, cur).len() >= 1,
    decreases s.len(),
{
    if s.len() > 0 {
        lemma_split_nonempty(s.drop_first(), sep, if s[0] == sep { Seq::empty() } else { cur.push(s[0]) });
    }
}

/// Splitting at most `n` ways never yields an empty list of pieces.
pub proof fn lemma_splitn_nonempty(s: Seq<char>, n: nat, sep: char, cur: Seq<char>)
    ensures
        splitn_from(s, n, sep, cur).len() >= 1,
    decreases s.len(),
{
    if s.len() > 0 {
        if s[0] == sep && n > 1 {
            lemma_splitn_nonempty(s.drop_first(), (n - 1) as nat, sep, Seq::empty());
        } else {
            lemma_splitn_nonempty(s.drop_first(), n, sep, cur.push(s[0]));
        }
    }
}

/// First index at or after `i` where `p` occurs in `s`.
pub open spec fn find_from(s: Seq<char>, p: Seq<char>, i: nat) -> Option<nat>
    decreases s.len() + 1 - i,
{
    if i + p.len() > s.len() {
        None
    } else if s.subrange(i as int, (i + p.len()) as int) == p {
        Some(i)
    } else {
        find_from(s, p, i + 1)
    }
}

/// `s` cut at every non-overlapping occurrence of `p`, left to right
/// (`str::split` with a string pattern). An empty pattern matches at every
/// character boundary.
pub open spec fn split_str(s: Seq<char>, p: Seq<char>) -> Seq<Seq<char>>
    decreases s.len(),
{
    if p.len() == 0 {
        seq![Seq::<char>::empty()] + s.map_values(|c: char| seq![c]) + seq![Seq::<char>::empty()]
    } else {
        match find_from(s, p, 0) {
            Some(i) => if i + p.len() <= s.len() {
                seq![s.take(i as int)] + split_str(s.skip((i + p.len()) as int), p)
            } else {
                seq![s]
            },
            None => seq![s],
        }
    }
}

/// The parts joined with `sep` between consecutive ones.
pub open spec fn join(parts: Seq<Seq<char>>, sep: Seq<char>) -> Seq<char>
    decreases parts.len(),
{
    if parts.len() == 0 {
        Seq::empty()
    } else if parts.len() == 1 {
        parts[0]
    } else {
        join(parts.drop_last(), sep) + sep + parts.last()
    }
}

pub proof fn lemma_find_from_bounds(s: Seq<char>, p: Seq<char>, i: nat)
    ensures
        match find_from(s, p, i) {
            Some(k) => i <= k && k + p.len() <= s.len() && s.subrange(k as int, (k + p.len()) as int) == p,
            None => true,
        },
    decreases s.len() + 1 - i,
{
    if i + p.len() <= s.len() && s.subrange(i as int, (i + p.len()) as int) != p {
        lemma_find_from_bounds(s, p, i + 1);
    }
}

/// Whether `p` occurs in `s` at index `i`.
pub fn occurs_at(s: &[char], p: &[char], i: usize) -> (r: bool)
    requires
        i <= s@.len(),
    ensures
        r == (i + p@.len() <= s@.len() && s@.subrange(i as int, i + p@.len()) == p@),
{
    let n = s.len();
    if p.len() > n - i {
        return false;
    }
    let mut k: usize = 0;
    while k < p.len()
        invariant
            k <= p@.len(),
            n == s@.len(),
            i + p@.len() <= s@.len(),
            forall|m: int| 0 <= m < k ==> s@[i + m] == p@[m],
        decreases p@.len() - k,
    {
        if s[i + k] != p[k] {
            assert(s@.subrange(i as int, i + p@.len())[k as int] != p@[k as int]);
            return false;
        }
        k += 1;
    }
    assert(s@.subrange(i as int, i + p@.len()) =~= p@);
    true
}

/// First index at or after `from` where `p` occurs in `s`.
pub fn find_chars(s: &[char], p: &[char], from: usize) -> (r: Option<usize>)
    requires
        from <= s@.len(),
    ensures
        match r {
            Some(k) => find_from(s@, p@, from as nat) == Some(k as nat),
            None => find_from(s@, p@, from as nat) is None,
        },
{
    let mut i = from;
    while i <= s.len()
        invariant
            from <= i,
            i <= s@.len() + 1,
            find_from(s@, p@, from as nat) == find_from(s@, p@, i as nat),
        decreases s@.len() + 1 - i,
    {
        if occurs_at(s, p, i) {
            return Some(i);
        }
        if p.len() > s.len() - i {
            return None;
        }
        if i == s.len() {
            assert(p@.len() == 0 ==> s@.subrange(i as int, i as int) =~= p@);
            return None;
        }
        i += 1;
    }
    None
}

/// Splits `s` at every occurrence of the string `p`.
pub fn split_by_str(s: &[char], p: &[char]) -> (r: Vec<Vec<char>>)
    ensures
        views(r@) == split_str(s@, p@),
{
    let mut out: Vec<Vec<char>> = Vec::new();
    if p.len() == 0 {
        out.push(Vec::new());
        let mut i: usize = 0;
        while i < s.len()
            invariant
                i <= s@.len(),
                views(out@) == seq![Seq::<char>::empty()] + s@.take(i as int).map_values(|c: char| seq![c]),
            decreases s@.len() - i,
        {
            let mut one: Vec<char> = Vec::new();
            one.push(s[i]);
            let ghost before = views(out@);
            let ghost c = s@[i as int];
            assert(one@ =~= seq![c]);
            out.push(one);
            assert(views(out@) =~= before.push(seq![c]));
            assert(s@.take(i + 1).map_values(|c: char| seq![c]) =~= s@.take(i as int).map_values(|c: char| seq![c]).push(
                seq![c],
            ));
            i += 1;
            assert(views(out@) =~= seq![Seq::<char>::empty()] + s@.take(i as int).map_values(|c: char| seq![c]));
        }
        let ghost before = views(out@);
        out.push(Vec::new());
        assert(s@.take(s@.len() as int) =~= s@);
        assert(views(out@) =~= split_str(s@, p@));
        return out;
    }
    let mut start: usize = 0;
    let n = s.len();
    assert(s@.skip(0) =~= s@);
    loop
        invariant
            p@.len() > 0,
            n == s@.len(),
            start <= s@.len(),
            views(out@) + split_str(s@.skip(start as int), p@) == split_str(s@, p@),
        decreases s@.len() - start,
    {
        let ghost rest = s@.skip(start as int);
        match find_chars(s, p, start) {
            Some(k) => {
                proof {
                    lemma_find_from_bounds(s@, p@, start as nat);
                    lemma_find_shift(s@, p@, start as nat, 0);
                    assert(rest.take(k - start) =~= s@.subrange(start as int, k as int));
                    assert(rest.skip(k - start + p@.len()) =~= s@.skip(k + p@.len()));
                }
                let piece = copy_range(s, start, k);
                let ghost before = views(out@);
                out.push(piece);
                assert(views(out@) =~= before + seq![piece@]);
                assert(views(out@) + split_str(s@.skip(k + p@.len()), p@) =~= before + (seq![rest.take(k - start)]
                    + split_str(rest.skip(k - start + p@.len()), p@)));
                start = k + p.len();
            },
            None => {
                proof {
                    lemma_find_shift(s@, p@, start as nat, 0);
                }
                let piece = copy_range(s, start, s.len());
                let ghost before = views(out@);
                out.push(piece);
                assert(piece@ =~= rest);
                assert(views(out@) =~= before + seq![rest]);
                return out;
            },
        }
    }
}

/// Searching a suffix is searching the whole from the suffix's start.
proof fn lemma_find_shift(s: Seq<char>, p: Seq<char>, start: nat, j: nat)
    requires
        start <= s.len(),
    ensures
        match find_from(s.skip(start as int), p, j) {
            Some(k) => find_from(s, p, start + j) == Some(start + k),
            None => find_from(s, p, start + j) is None,
        },
    decreases s.len() + 1 - (start + j),
{
    let t = s.skip(start as int);
    if j + p.len() <= t.len() {
        assert(t.subrange(j as int, (j + p.len()) as int) =~= s.subrange((start + j) as int, (start + j + p.len()) as int));
        if t.subrange(j as int, (j + p.len()) as int) != p {
            lemma_find_shift(s, p, start, j + 1);
        }
    }
}

/// Joins the parts with `sep` between consecutive ones.
pub fn join_chars(parts: &Vec<Vec<char>>, sep: &[char]) -> (r: Vec<char>)
    ensures
        r@ == join(views(parts@), sep@),
{
    let mut r: Vec<char> = Vec::new();
    let mut i: usize = 0;
    let ghost pv = views(parts@);
    while i < parts.len()
        invariant
            i <= parts@.len(),
            pv == views(parts@),
            r@ == join(pv.take(i as int), sep@),
        decreases parts@.len() - i,
    {
        let ghost before = r@;
        if i > 0 {
            extend_chars(&mut r, sep);
        }
        extend_chars(&mut r, parts[i].as_slice());
        proof {
            let t = pv.take(i + 1);
            assert(t.drop_last() =~= pv.take(i as int));
            assert(t.last() == parts@[i as int]@);
            if i == 0 {
                assert(r@ =~= t[0]);
            }
        }
        i += 1;
    }
    assert(pv.take(parts@.len() as int) =~= pv);
    r
}

/// Whether two character slices are equal.
pub fn chars_eq(a: &[char], b: &[char]) -> (r: bool)
    ensures
        r == (a@ == b@),
{
    if a.len() != b.len() {
        return false;
    }
    let mut i: usize = 0;
    while i < a.len()
        invariant
            i <= a@.len(),
            a@.len() == b@.len(),
            forall|k: int| 0 <= k < i ==> a@[k] == b@[k],
        decreases a@.len() - i,
    {
        if a[i] != b[i] {
            return false;
        }
        i += 1;
    }
    assert(a@ =~= b@);
    true
}

/// `usize::from_str`: an optional `+`, then one or more ASCII digits whose
/// value fits in a `usize`.
pub open spec fn parse_usize(s: Seq<char>) -> Option<usize> {
    let d = if s.len() > 0 && s[0] == '+' { s.drop_first() } else { s };
    if d.len() > 0 && all_digits(d) && digits_value(d) <= usize::MAX {
        Some(digits_value(d) as usize)
    } else {
        None
    }
}

/// Parses a decimal `usize` as `str::parse::<usize>` does.
pub fn parse_usize_chars(s: &[char]) -> (r: Option<usize>)
    ensures
        r == parse_usize(s@),
{
    let start: usize = if s.len() > 0 && s[0] == '+' { 1 } else { 0 };
    let ghost d = if s@.len() > 0 && s@[0] == '+' { s@.drop_first() } else { s@ };
    assert(d =~= s@.skip(start as int));
    if start >= s.len() {
        assert(d.len() == 0);
        return None;
    }
    let mut v: u128 = 0;
    let mut over = false;
    let mut i: usize = start;
    assert(s@.subrange(start as int, start as int) =~= Seq::<char>::empty());
    while i < s.len()
        invariant
            start <= i <= s@.len(),
            d == s@.skip(start as int),
            d == (if s@.len() > 0 && s@[0] == '+' { s@.drop_first() } else { s@ }),
            all_digits(s@.subrange(start as int, i as int)),
            over ==> digits_value(s@.subrange(start as int, i as int)) > usize::MAX,
            !over ==> v == digits_value(s@.subrange(start as int, i as int)) && v <= usize::MAX,
        decreases s@.len() - i,
    {
        let c = s[i];
        let u = c as u32;
        if !(0x30 <= u && u <= 0x39) {
            assert(!all_digits(d)) by {
                assert(d[i - start] == c);
            }
            return None;
        }
        let dv = (u - 0x30) as u128;
        let ghost p = s@.subrange(start as int, i + 1);
        assert(p.drop_last() =~= s@.subrange(start as int, i as int));
        assert(p.last() == c);
        if !over {
            v = v * 10 + dv;
            if v > usize::MAX as u128 {
                over = true;
            }
        }
        i += 1;
    }
    assert(s@.subrange(start as int, s@.len() as int) =~= d);
    if over {
        None
    } else {
        Some(v as usize)
    }
}

} // verus!
