//! Natural ordering of file names: runs of digits compare by value, other
//! characters compare case-insensitively.
use vstd::prelude::*;
use crate::text::str_to_chars;

verus! {

/// `c` is an ASCII digit.
pub open spec fn is_digit(c: char) -> bool {
    0x30 <= (c as u32) <= 0x39
}

/// The code of `c` with ASCII upper-case letters folded to lower case.
pub open spec fn folded(c: char) -> u32 {
    if 0x41 <= (c as u32) <= 0x5a {
        (c as u32 + 0x20) as u32
    } else {
        c as u32
    }
}

/// First index at or after `i` that is not a digit (or the length).
pub open spec fn digits_end(s: Seq<char>, i: nat) -> nat
    decreases s.len() - i,
{
    if i < s.len() && is_digit(s[i as int]) {
        digits_end(s, i + 1)
    } else {
        i
    }
}

/// Value of the digits of `s`, accumulated in a `u64` that wraps around.
pub open spec fn wrapped_value(s: Seq<char>) -> u64
    decreases s.len(),
{
    if s.len() == 0 {
        0
    } else {
        ((wrapped_value(s.drop_last()) as nat * 10 + ((s.last() as u32) - 0x30) as nat) % 0x1_0000_0000_0000_0000) as u64
    }
}

/// The natural order of `a[i..]` and `b[j..]`: -1, 0 or 1.
pub open spec fn natural_order(a: Seq<char>, b: Seq<char>, i: nat, j: nat) -> int
    decreases a.len() - i + b.len() - j,
{
    if i >= a.len() && j >= b.len() {
        0
    } else if i >= a.len() {
        -1
    } else if j >= b.len() {
        1
    } else if is_digit(a[i as int]) && is_digit(b[j as int]) {
        let ie = digits_end(a, i);
        let je = digits_end(b, j);
        let an = wrapped_value(a.subrange(i as int, ie as int));
        let bn = wrapped_value(b.subrange(j as int, je as int));
        if an < bn {
            -1
        } else if an > bn {
            1
        } else if ie > i && je > j && ie <= a.len() && je <= b.len() {
            natural_order(a, b, ie, je)
        } else {
            0
        }
    } else if folded(a[i as int]) < folded(b[j as int]) {
        -1
    } else if folded(a[i as int]) > folded(b[j as int]) {
        1
    } else {
        natural_order(a, b, i + 1, j + 1)
    }
}

proof fn lemma_digits_end(s: Seq<char>, i: nat)
    requires
        i <= s.len(),
    ensures
        i <= digits_end(s, i) <= s.len(),
        i < s.len() && is_digit(s[i as int]) ==> digits_end(s, i) > i,
    decreases s.len() - i,
{
    if i < s.len() && is_digit(s[i as int]) {
        lemma_digits_end(s, i + 1);
    }
}

/// `natural_order` from positions given as indices.
pub open spec fn order_from(a: Seq<char>, b: Seq<char>, i: usize, j: usize) -> int {
    natural_order(a, b, i as nat, j as nat)
}

proof fn lemma_digits_end_at(s: Seq<char>, i: usize)
    requires
        i <= s.len(),
    ensures
        i <= digits_end(s, i as nat) <= s.len(),
        i < s.len() && is_digit(s[i as int]) ==> digits_end(s, i as nat) > i,
{
    lemma_digits_end(s, i as nat);
}

/// Whether `c` is an ASCII digit.
fn digit_char(c: char) -> (r: bool)
    ensures
        r == is_digit(c),
{
    let u = c as u32;
    0x30 <= u && u <= 0x39
}

/// `c` with ASCII upper-case letters folded to lower case, as a code.
pub fn fold_case(c: char) -> (r: u32)
    ensures
        r == folded(c),
{
    let u = c as u32;
    if 0x41 <= u && u <= 0x5a {
        u + 0x20
    } else {
        u
    }
}

/// Reads the run of digits starting at `i`: its value (wrapping in a
/// `u64`) and the index after it.
pub fn collect_digits(s: &[char], i: usize) -> (r: (u64, usize))
    requires
        i <= s@.len(),
    ensures
        r.1 == digits_end(s@, i as nat),
        r.0 == wrapped_value(s@.subrange(i as int, r.1 as int)),
{
    let mut n: u64 = 0;
    let mut k = i;
    assert(s@.subrange(i as int, i as int) =~= Seq::<char>::empty());
    while k < s.len() && digit_char(s[k])
        invariant
            i <= k <= s@.len(),
            digits_end(s@, i as nat) == digits_end(s@, k as nat),
            n == wrapped_value(s@.subrange(i as int, k as int)),
        decreases s@.len() - k,
    {
        let d = (s[k] as u32 - 0x30) as u64;
        let nm = n.wrapping_mul(10);
        let n2 = nm.wrapping_add(d);
        proof {
            let big: int = 0x1_0000_0000_0000_0000;
            assert(s@.subrange(i as int, k + 1).drop_last() =~= s@.subrange(i as int, k as int));
            assert(s@.subrange(i as int, k + 1).last() == s@[k as int]);
            assert(nm == (n as nat * 10) % (big as nat));
            assert(d < 10);
            vstd::arithmetic::div_mod::lemma_mod_bound((n as nat * 10) as int, big);
            vstd::arithmetic::div_mod::lemma_add_mod_noop((n as nat * 10) as int, d as int, big);
            vstd::arithmetic::div_mod::lemma_small_mod(d as nat, big as nat);
            if nm + d < big {
                vstd::arithmetic::div_mod::lemma_small_mod((nm + d) as nat, big as nat);
                assert(n2 == nm + d);
            } else {
                vstd::arithmetic::div_mod::lemma_fundamental_div_mod_converse_mod(nm + d, big, 1, nm + d - big);
                assert(n2 == nm + d - big);
            }
            assert(n2 == (n as nat * 10 + d as nat) % (big as nat));
        }
        n = n2;
        k += 1;
    }
    (n, k)
}

/// The natural order of two strings: equal runs of digits compare by their
/// value, other characters one by one, ignoring ASCII case; a string that
/// runs out first comes first.
pub fn natural_str_cmp(a: &str, b: &str) -> (r: std::cmp::Ordering)
    ensures
        (r == std::cmp::Ordering::Less) == (natural_order(a@, b@, 0, 0) == -1),
        (r == std::cmp::Ordering::Equal) == (natural_order(a@, b@, 0, 0) == 0),
        (r == std::cmp::Ordering::Greater) == (natural_order(a@, b@, 0, 0) == 1),
{
    let av = str_to_chars(a);
    let bv = str_to_chars(b);
    let mut i: usize = 0;
    let mut j: usize = 0;
    loop
        invariant
            av@ == a@,
            bv@ == b@,
            i <= av@.len(),
            j <= bv@.len(),
            natural_order(a@, b@, 0, 0) == order_from(a@, b@, i, j),
        decreases av@.len() - i + bv@.len() - j,
    {
        if i >= av.len() && j >= bv.len() {
            return std::cmp::Ordering::Equal;
        }
        if i >= av.len() {
            return std::cmp::Ordering::Less;
        }
        if j >= bv.len() {
            return std::cmp::Ordering::Greater;
        }
        if digit_char(av[i]) && digit_char(bv[j]) {
            proof {
                lemma_digits_end_at(a@, i);
                lemma_digits_end_at(b@, j);
            }
            let (an, i2) = collect_digits(av.as_slice(), i);
            let (bn, j2) = collect_digits(bv.as_slice(), j);
            if an < bn {
                return std::cmp::Ordering::Less;
            }
            if an > bn {
                return std::cmp::Ordering::Greater;
            }
            i = i2;
            j = j2;
        } else {
            let ac = fold_case(av[i]);
            let bc = fold_case(bv[j]);
            if ac < bc {
                return std::cmp::Ordering::Less;
            }
            if ac > bc {
                return std::cmp::Ordering::Greater;
            }
            i += 1;
            j += 1;
        }
    }
}


/// Swapping the two names reverses their natural order.
pub proof fn lemma_natural_order_antisymmetric(a: Seq<char>, b: Seq<char>, i: nat, j: nat)
    ensures
        natural_order(a, b, i, j) == -natural_order(b, a, j, i),
    decreases a.len() - i + b.len() - j,
{
    if i < a.len() && j < b.len() {
        if is_digit(a[i as int]) && is_digit(b[j as int]) {
            let ie = digits_end(a, i);
            let je = digits_end(b, j);
            if ie > i && je > j && ie <= a.len() && je <= b.len() {
                lemma_natural_order_antisymmetric(a, b, ie, je);
            }
        } else {
            lemma_natural_order_antisymmetric(a, b, i + 1, j + 1);
        }
    }
}

/// A name is in natural order equal to itself.
pub proof fn lemma_natural_order_reflexive(a: Seq<char>, i: nat)
    ensures
        natural_order(a, a, i, i) == 0,
    decreases a.len() - i,
{
    if i < a.len() {
        if is_digit(a[i as int]) {
            lemma_digits_end(a, i);
            lemma_natural_order_reflexive(a, digits_end(a, i));
        } else {
            lemma_natural_order_reflexive(a, i + 1);
        }
    }
}

/// Case folding keeps digits as they are and never turns a non-digit into a
/// digit.
proof fn lemma_folded_digit(c: char)
    ensures
        is_digit(c) ==> folded(c) == c as u32 && 0x30 <= folded(c) <= 0x39,
        !is_digit(c) ==> folded(c) < 0x30 || folded(c) > 0x39,
{
}

proof fn lemma_transitive_from(a: Seq<char>, b: Seq<char>, c: Seq<char>, i: nat, j: nat, k: nat)
    requires
        i <= a.len(),
        j <= b.len(),
        k <= c.len(),
        natural_order(a, b, i, j) <= 0,
        natural_order(b, c, j, k) <= 0,
    ensures
        natural_order(a, c, i, k) <= 0,
    decreases a.len() - i + b.len() - j + c.len() - k,
{
    if i < a.len() && j < b.len() && k < c.len() {
        let x = a[i as int];
        let y = b[j as int];
        let z = c[k as int];
        lemma_folded_digit(x);
        lemma_folded_digit(y);
        lemma_folded_digit(z);
        lemma_digits_end(a, i);
        lemma_digits_end(b, j);
        lemma_digits_end(c, k);
        if is_digit(x) && is_digit(y) && is_digit(z) {
            let an = wrapped_value(a.subrange(i as int, digits_end(a, i) as int));
            let bn = wrapped_value(b.subrange(j as int, digits_end(b, j) as int));
            let cn = wrapped_value(c.subrange(k as int, digits_end(c, k) as int));
            if an == bn && bn == cn {
                lemma_transitive_from(a, b, c, digits_end(a, i), digits_end(b, j), digits_end(c, k));
            }
        } else if !is_digit(x) && !is_digit(y) && !is_digit(z) {
            if folded(x) == folded(y) && folded(y) == folded(z) {
                lemma_transitive_from(a, b, c, i + 1, j + 1, k + 1);
            }
        }
    }
}

/// Natural order is transitive: a name that comes no later than a second,
/// which comes no later than a third, comes no later than the third.
pub proof fn lemma_natural_order_transitive(a: Seq<char>, b: Seq<char>, c: Seq<char>)
    requires
        natural_order(a, b, 0, 0) <= 0,
        natural_order(b, c, 0, 0) <= 0,
    ensures
        natural_order(a, c, 0, 0) <= 0,
{
    lemma_transitive_from(a, b, c, 0, 0, 0);
}

} // verus!
