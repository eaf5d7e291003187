//! Single-line reasoning over a partially known row or column: clue
//! placements, their enumeration and counting, forced cells, and the final
//! run-length check of a fully known line.
use vstd::prelude::*;

verus! {

/// Working cell state of the search (kept apart from the public `CellState`).
#[derive(Clone, Copy, PartialEq, Eq, Hash, Debug, Structural)]
pub enum Cell {
    Unknown,
    Filled,
    Empty,
}

/// Every cell of `t` is known.
pub open spec fn is_full(t: Seq<Cell>) -> bool {
    forall|k: int| 0 <= k < t.len() ==> t[k] != Cell::Unknown
}

/// No cell of `t` is `Filled`.
pub open spec fn no_filled(t: Seq<Cell>) -> bool {
    forall|k: int| 0 <= k < t.len() ==> t[k] != Cell::Filled
}

/// No cell of `t` is `Empty`.
pub open spec fn no_empty(t: Seq<Cell>) -> bool {
    forall|k: int| 0 <= k < t.len() ==> t[k] != Cell::Empty
}

/// `l` keeps every known cell of `t`.
pub open spec fn agrees(l: Seq<Cell>, t: Seq<Cell>) -> bool {
    &&& l.len() == t.len()
    &&& forall|k: int| 0 <= k < t.len() && t[k] != Cell::Unknown ==> l[k] == t[k]
}

/// `t` (a fully known line) is laid out as the clue list `q`: optional empty
/// cells, then for each clue a block of that many filled cells, separated by
/// one or more empty cells, with only empty cells after the last block. A
/// block may only end flush with the line when it is the last one.
pub open spec fn fits(t: Seq<Cell>, q: Seq<usize>) -> bool
    decreases t.len(),
{
    if q.len() == 0 {
        forall|k: int| 0 <= k < t.len() ==> t[k] == Cell::Empty
    } else if t.len() == 0 {
        q.len() == 1 && q[0] == 0
    } else {
        ||| (t[0] == Cell::Empty && fits(t.drop_first(), q))
        ||| {
            &&& q[0] <= t.len()
            &&& forall|k: int| 0 <= k < q[0] ==> t[k] == Cell::Filled
            &&& if q[0] == t.len() {
                q.len() == 1
            } else {
                t[q[0] as int] == Cell::Empty && fits(t.skip(q[0] + 1), q.drop_first())
            }
        }
    }
}

/// `l` is a completion of the partial line `t` under clues `q`.
pub open spec fn is_completion(l: Seq<Cell>, t: Seq<Cell>, q: Seq<usize>) -> bool {
    agrees(l, t) && fits(l, q)
}

/// A block of `g` cells can start at the front of `t`: none of them is
/// known empty and the cell after the block (if any) is not known filled.
pub open spec fn block_ok(t: Seq<Cell>, g: int) -> bool {
    &&& g <= t.len()
    &&& no_empty(t.take(g))
    &&& (g == t.len() || t[g] != Cell::Filled)
}

/// Number of ways to place the clues `q` into the partial line `t`
/// (each way: skip a non-filled cell, or start the next block here).
pub open spec fn placements(t: Seq<Cell>, q: Seq<usize>) -> nat
    decreases t.len(),
{
    if q.len() == 0 {
        if no_filled(t) { 1 } else { 0 }
    } else if t.len() == 0 {
        0
    } else {
        (if t[0] != Cell::Filled { placements(t.drop_first(), q) } else { 0 }) + (if block_ok(
            t,
            q[0] as int,
        ) {
            placements(t.skip(if q[0] + 1 <= t.len() { q[0] + 1 } else { t.len() as int }), q.drop_first())
        } else {
            0
        })
    }
}

/// The completions of the partial line `t` under clues `q`.
pub open spec fn completion_set(t: Seq<Cell>, q: Seq<usize>) -> Set<Seq<Cell>> {
    Set::new(|l: Seq<Cell>| is_completion(l, t, q))
}

/// The cells a block of `g` puts at the front of a line of length `n`:
/// `g` filled cells, then an empty one unless the block reaches the end.
pub open spec fn block_prefix(g: nat, n: nat) -> Seq<Cell> {
    if g < n { Seq::new(g, |_k: int| Cell::Filled).push(Cell::Empty) } else { Seq::new(g, |_k: int| Cell::Filled) }
}

/// With every clue at least one, `placements` counts the completions: the
/// ways to place the clues are exactly the different ways to finish the
/// line.
pub proof fn lemma_placements_count(t: Seq<Cell>, q: Seq<usize>)
    requires
        nonzero(q),
    ensures
        completion_set(t, q).finite(),
        completion_set(t, q).len() == placements(t, q),
    decreases t.len(),
{
    let s = completion_set(t, q);
    if q.len() == 0 {
        let e = Seq::new(t.len(), |_i: int| Cell::Empty);
        if no_filled(t) {
            assert forall|l: Seq<Cell>| s.contains(l) <==> l == e by {
                if s.contains(l) {
                    assert(l =~= e);
                }
                if l == e {
                    assert(is_completion(e, t, q));
                }
            }
            assert(s =~= set![e]);
        } else {
            let k = choose|k: int| 0 <= k < t.len() && t[k] == Cell::Filled;
            assert forall|l: Seq<Cell>| !s.contains(l) by {
                if s.contains(l) {
                    assert(l[k] == Cell::Filled);
                }
            }
            assert(s =~= Set::<Seq<Cell>>::empty());
        }
    } else if t.len() == 0 {
        assert forall|l: Seq<Cell>| !s.contains(l) by {
            if s.contains(l) {
                assert(l.len() == 0);
                assert(q[0] > 0);
            }
        }
        assert(s =~= Set::<Seq<Cell>>::empty());
    } else {
        let g = q[0] as nat;
        let n = t.len();
        let rest = t.drop_first();
        let next: int = if g + 1 <= n { g as int + 1 } else { n as int };
        let tb = t.skip(next);
        let q1 = q.drop_first();
        let pre = block_prefix(g, n);
        assert(nonzero(q1)) by {
            assert forall|i: int| 0 <= i < q1.len() implies q1[i] > 0 by {
                assert(q1[i] == q[i + 1]);
            }
        }
        lemma_placements_count(rest, q);
        lemma_placements_count(tb, q1);
        let sa = completion_set(rest, q);
        let sb = completion_set(tb, q1);
        let fa = |l: Seq<Cell>| seq![Cell::Empty] + l;
        let fb = |l: Seq<Cell>| pre + l;
        let a = if t[0] != Cell::Filled { sa.map(fa) } else { Set::<Seq<Cell>>::empty() };
        let b = if block_ok(t, g as int) { sb.map(fb) } else { Set::<Seq<Cell>>::empty() };
        assert(g <= n ==> pre.len() == next);
        // Every completion starts with an empty cell or with the first block.
        assert forall|l: Seq<Cell>| s.contains(l) <==> a.contains(l) || b.contains(l) by {
            if s.contains(l) {
                assert(l.len() == n);
                if l[0] == Cell::Empty && fits(l.drop_first(), q) {
                    assert(t[0] != Cell::Filled);
                    assert(agrees(l.drop_first(), rest));
                    assert(sa.contains(l.drop_first()));
                    assert(l =~= fa(l.drop_first()));
                    assert(a.contains(l));
                } else {
                    assert(g <= n);
                    assert forall|k: int| 0 <= k < g implies l[k] == Cell::Filled by {}
                    assert(no_empty(t.take(g as int)));
                    if g < n {
                        assert(l[g as int] == Cell::Empty);
                    }
                    assert(block_ok(t, g as int));
                    let lb = l.skip(next);
                    assert(agrees(lb, tb));
                    if g == n {
                        assert(q.len() == 1);
                        assert(q1.len() == 0);
                    } else {
                        assert(lb =~= l.skip(g as int + 1));
                    }
                    assert(fits(lb, q1));
                    assert(sb.contains(lb));
                    assert(l =~= pre + lb);
                    assert(b.contains(l));
                }
            }
            if a.contains(l) {
                let x = choose|x: Seq<Cell>| sa.contains(x) && l == fa(x);
                assert(l.drop_first() =~= x);
                assert(l[0] == Cell::Empty);
                assert(agrees(l, t));
                assert(fits(l, q));
            }
            if b.contains(l) {
                let x = choose|x: Seq<Cell>| sb.contains(x) && l == fb(x);
                assert(l.len() == n);
                assert forall|k: int| 0 <= k < n && t[k] != Cell::Unknown implies l[k] == t[k] by {
                    if k < g {
                        assert(t.take(g as int)[k] == t[k]);
                    } else if k >= next {
                        assert(l[k] == x[k - next]);
                        assert(tb[k - next] == t[k]);
                    }
                }
                if g == n {
                    assert(x.len() == 0);
                    if q1.len() > 0 {
                        assert(q1[0] > 0);
                    }
                    assert(q.len() == 1);
                } else {
                    assert(l.skip(g as int + 1) =~= x);
                }
                assert(fits(l, q));
            }
        }
        assert(s =~= a + b);
        assert(vstd::relations::injective_on(fa, sa)) by {
            assert forall|x1: Seq<Cell>, x2: Seq<Cell>| sa.contains(x1) && sa.contains(x2) && fa(x1) == fa(x2) implies x1 == x2 by {
                assert(fa(x1).drop_first() =~= x1);
                assert(fa(x2).drop_first() =~= x2);
            }
        }
        assert(vstd::relations::injective_on(fb, sb)) by {
            assert forall|x1: Seq<Cell>, x2: Seq<Cell>| sb.contains(x1) && sb.contains(x2) && fb(x1) == fb(x2) implies x1 == x2 by {
                assert(fb(x1).skip(pre.len() as int) =~= x1);
                assert(fb(x2).skip(pre.len() as int) =~= x2);
            }
        }
        if t[0] != Cell::Filled {
            vstd::set_lib::lemma_map_size(sa, a, fa);
        }
        if block_ok(t, g as int) {
            vstd::set_lib::lemma_map_size(sb, b, fb);
        }
        assert(a.disjoint(b)) by {
            assert forall|l: Seq<Cell>| a.contains(l) implies !b.contains(l) by {
                let x = choose|x: Seq<Cell>| sa.contains(x) && l == fa(x);
                assert(l[0] == Cell::Empty);
                if b.contains(l) {
                    let y = choose|y: Seq<Cell>| sb.contains(y) && l == fb(y);
                    assert(q[0] > 0);
                    assert(l[0] == pre[0]);
                }
            }
        }
        vstd::set_lib::lemma_set_disjoint_lens(a, b);
    }
}

/// `x` clamped to `usize::MAX`.
pub open spec fn clamp_usize(x: nat) -> usize {
    if x > usize::MAX { usize::MAX } else { x as usize }
}

proof fn lemma_clamp_add(a: nat, b: nat)
    ensures
        clamp_usize(a + b) == (if clamp_usize(a) + clamp_usize(b) > usize::MAX { usize::MAX } else {
            (clamp_usize(a) + clamp_usize(b)) as usize
        }),
{
}

/// Well-formed memo table for `count_inner`: every stored entry is the
/// clamped placement count of the matching suffixes.
pub open spec fn memo_ok(memo: Seq<Vec<Option<usize>>>, t: Seq<Cell>, q: Seq<usize>) -> bool {
    &&& memo.len() == t.len() + 1
    &&& forall|i: int| 0 <= i < memo.len() ==> #[trigger] memo[i]@.len() == q.len() + 1
    &&& forall|i: int, j: int|
        0 <= i < memo.len() && 0 <= j <= q.len() && (#[trigger] memo[i]@[j]) is Some ==> memo[i]@[j]
            == Some(clamp_usize(placements(t.skip(i), q.skip(j))))
}

/// Clamped number of placements of `clues[qi..]` into `cells[ci..]`,
/// memoised in `memo`.
fn count_inner(
    cells: &[Cell],
    ci: usize,
    clues: &[usize],
    qi: usize,
    memo: &mut Vec<Vec<Option<usize>>>,
) -> (v: usize)
    requires
        ci <= cells.len(),
        qi <= clues.len(),
        memo_ok(old(memo)@, cells@, clues@),
    ensures
        memo_ok(final(memo)@, cells@, clues@),
        v == clamp_usize(placements(cells@.skip(ci as int), clues@.skip(qi as int))),
    decreases clues.len() - qi, cells.len() - ci,
{
    let n = cells.len();
    if let Some(v) = memo[ci][qi] {
        return v;
    }
    let ghost t = cells@.skip(ci as int);
    let ghost q = clues@.skip(qi as int);
    let v = if qi == clues.len() {
        let mut k = ci;
        let mut ok = true;
        while k < n
            invariant
                ci <= k <= n,
                n == cells.len(),
                ok == (forall|j: int| ci <= j < k ==> cells@[j] != Cell::Filled),
            decreases n - k,
        {
            if cells[k] == Cell::Filled {
                ok = false;
            }
            k += 1;
        }
        assert(q.len() == 0);
        assert(ok == no_filled(t)) by {
            if ok {
                assert forall|j: int| 0 <= j < t.len() implies t[j] != Cell::Filled by {
                    assert(t[j] == cells@[ci + j]);
                }
            } else {
                let j = choose|j: int| ci <= j < n && cells@[j] == Cell::Filled;
                assert(t[j - ci] == cells@[j]);
            }
        }
        if ok { 1 } else { 0 }
    } else if ci >= n {
        assert(t.len() == 0);
        0
    } else {
        let mut total: usize = 0;
        assert(t[0] == cells@[ci as int]);
        assert(t.drop_first() =~= cells@.skip(ci + 1));
        if cells[ci] != Cell::Filled {
            let a = count_inner(cells, ci + 1, clues, qi, memo);
            total = total.saturating_add(a);
        }
        let ghost first = total;
        let g = clues[qi];
        assert(q[0] == g);
        assert(q.drop_first() =~= clues@.skip(qi + 1));
        let mut second: usize = 0;
        let mut took = false;
        if g <= n - ci {
            let mut k = ci;
            let mut fits = true;
            while k < ci + g
                invariant
                    ci <= k <= ci + g,
                    ci + g <= n,
                    n == cells.len(),
                    fits == (forall|j: int| ci <= j < k ==> cells@[j] != Cell::Empty),
                decreases ci + g - k,
            {
                if cells[k] == Cell::Empty {
                    fits = false;
                }
                k += 1;
            }
            let after = ci + g == n || cells[ci + g] != Cell::Filled;
            assert((fits && after) == block_ok(t, g as int)) by {
                if fits {
                    assert forall|j: int| 0 <= j < t.take(g as int).len() implies t.take(
                        g as int,
                    )[j] != Cell::Empty by {
                        assert(t.take(g as int)[j] == cells@[ci + j]);
                    }
                } else {
                    let j = choose|j: int| ci <= j < ci + g && cells@[j] == Cell::Empty;
                    assert(t.take(g as int)[j - ci] == cells@[j]);
                }
                if ci + g < n {
                    assert(t[g as int] == cells@[ci + g]);
                }
            }
            if fits && after {
                let next = if ci + g == n { n } else { ci + g + 1 };
                assert(t.skip(if g + 1 <= t.len() { g + 1 } else { t.len() as int })
                    =~= cells@.skip(next as int));
                second = count_inner(cells, next, clues, qi + 1, memo);
                took = true;
                total = total.saturating_add(second);
            }
        }
        proof {
            let pa = if t[0] != Cell::Filled { placements(t.drop_first(), q) } else { 0 };
            let pb = if block_ok(t, g as int) {
                placements(t.skip(if g + 1 <= t.len() { g + 1 } else { t.len() as int }), q.drop_first())
            } else {
                0
            };
            assert(placements(t, q) == pa + pb);
            assert(first == clamp_usize(pa));
            assert(took ==> second == clamp_usize(pb));
            assert(!took ==> pb == 0);
            lemma_clamp_add(pa, pb);
        }
        total
    };
    memo[ci][qi] = Some(v);
    proof {
        let m = memo@;
        assert forall|i: int, j: int|
            0 <= i < m.len() && 0 <= j <= clues@.len() && (#[trigger] m[i]@[j]) is Some implies m[i]@[j]
                == Some(clamp_usize(placements(cells@.skip(i), clues@.skip(j)))) by {
            if i == ci && j == qi {
            } else {
            }
        }
    }
    v
}

/// Clamped number of ways to place `clues` into the partial line `cells`.
pub fn count_completions(cells: &[Cell], clues: &[usize]) -> (r: usize)
    ensures
        r == clamp_usize(placements(cells@, clues@)),
{
    let n = cells.len();
    let m = clues.len();
    let mut row: Vec<Option<usize>> = Vec::new();
    row.push(None);
    let mut j: usize = 0;
    while j < m
        invariant
            j <= m,
            row@.len() == j + 1,
            forall|k: int| 0 <= k < row@.len() ==> row@[k] is None,
        decreases m - j,
    {
        row.push(None);
        j += 1;
    }
    let mut memo: Vec<Vec<Option<usize>>> = Vec::new();
    memo.push(row.clone());
    let mut i: usize = 0;
    while i < n
        invariant
            i <= n,
            memo@.len() == i + 1,
            row@.len() == m + 1,
            forall|k: int| 0 <= k < row@.len() ==> row@[k] is None,
            forall|a: int| 0 <= a < memo@.len() ==> #[trigger] memo@[a]@.len() == m + 1,
            forall|a: int, b: int|
                0 <= a < memo@.len() && 0 <= b <= m ==> (#[trigger] memo@[a]@[b]) is None,
        decreases n - i,
    {
        memo.push(row.clone());
        i += 1;
    }
    assert(cells@.skip(0) =~= cells@);
    assert(clues@.skip(0) =~= clues@);
    count_inner(cells, 0, clues, 0, &mut memo)
}

/// Lengths of the maximal filled runs of `t`, left to right, where `run`
/// filled cells directly precede `t`.
pub open spec fn runs_acc(t: Seq<Cell>, run: int) -> Seq<int>
    decreases t.len(),
{
    if t.len() == 0 {
        if run > 0 { seq![run] } else { Seq::empty() }
    } else if t[0] == Cell::Filled {
        runs_acc(t.drop_first(), run + 1)
    } else {
        (if run > 0 { seq![run] } else { Seq::<int>::empty() }) + runs_acc(t.drop_first(), 0)
    }
}

/// Lengths of the maximal filled runs of `t`, left to right.
pub open spec fn runs(t: Seq<Cell>) -> Seq<int> {
    runs_acc(t, 0)
}

/// Every run has at least one cell.
pub proof fn lemma_runs_positive(t: Seq<Cell>, run: int)
    requires
        run >= 0,
    ensures
        forall|i: int| 0 <= i < runs_acc(t, run).len() ==> runs_acc(t, run)[i] > 0,
    decreases t.len(),
{
    if t.len() == 0 {
        if run > 0 {
            assert(runs_acc(t, run) =~= seq![run]);
        } else {
            assert(runs_acc(t, run) =~= Seq::<int>::empty());
        }
    } else {
        if t[0] == Cell::Filled {
            lemma_runs_positive(t.drop_first(), run + 1);
            assert(runs_acc(t, run) == runs_acc(t.drop_first(), run + 1));
        } else {
            lemma_runs_positive(t.drop_first(), 0);
            let head = if run > 0 { seq![run] } else { Seq::<int>::empty() };
            let tail = runs_acc(t.drop_first(), 0);
            assert forall|i: int| 0 <= i < runs_acc(t, run).len() implies runs_acc(t, run)[i] > 0 by {
                if i >= head.len() {
                    assert(runs_acc(t, run)[i] == tail[i - head.len()]);
                }
            }
        }
    }
}

/// A clue list as integers.
pub open spec fn as_ints(q: Seq<usize>) -> Seq<int> {
    q.map_values(|x: usize| x as int)
}

/// Element-wise equality of two `usize` slices.
pub fn usize_slices_equal(a: &[usize], b: &[usize]) -> (r: bool)
    ensures
        r == (a@ == b@),
{
    if a.len() != b.len() {
        return false;
    }
    let mut i: usize = 0;
    while i < a.len()
        invariant
            0 <= i <= a.len(),
            a.len() == b.len(),
            forall|k: int| 0 <= k < i ==> a@[k] == b@[k],
        decreases a.len() - i,
    {
        if a[i] != b[i] {
            return false;
        }
        i += 1;
    }
    assert(a@ =~= b@);
    true
}

/// A fully known line whose filled runs are exactly `clues`.
pub fn line_matches(cells: &[Cell], clues: &[usize]) -> (r: bool)
    ensures
        r == (is_full(cells@) && runs(cells@) == as_ints(clues@)),
{
    let mut groups: Vec<usize> = Vec::new();
    let mut run: usize = 0;
    let mut i: usize = 0;
    assert(cells@.skip(0) =~= cells@);
    while i < cells.len()
        invariant
            0 <= i <= cells.len(),
            run <= i,
            forall|k: int| 0 <= k < i ==> cells@[k] != Cell::Unknown,
            as_ints(groups@) + runs_acc(cells@.skip(i as int), run as int) == runs(cells@),
        decreases cells.len() - i,
    {
        let ghost rest = cells@.skip(i as int);
        assert(rest[0] == cells@[i as int]);
        assert(rest.drop_first() =~= cells@.skip(i + 1));
        match cells[i] {
            Cell::Filled => {
                run += 1;
            },
            Cell::Empty => {
                if run > 0 {
                    let ghost before = groups@;
                    groups.push(run);
                    assert(as_ints(groups@) =~= as_ints(before) + seq![run as int]);
                    assert(as_ints(groups@) + runs_acc(cells@.skip(i + 1), 0) =~= as_ints(before)
                        + (seq![run as int] + runs_acc(cells@.skip(i + 1), 0)));
                    run = 0;
                } else {
                    assert(runs_acc(rest, 0) =~= runs_acc(cells@.skip(i + 1), 0));
                }
            },
            Cell::Unknown => {
                return false;
            },
        }
        i += 1;
    }
    assert(cells@.skip(i as int).len() == 0);
    if run > 0 {
        let ghost before = groups@;
        groups.push(run);
        assert(as_ints(groups@) =~= as_ints(before) + seq![run as int]);
    } else {
        assert(as_ints(groups@) + Seq::<int>::empty() =~= as_ints(groups@));
    }
    let r = usize_slices_equal(groups.as_slice(), clues);
    proof {
        if r {
            assert(as_ints(groups@) =~= as_ints(clues@));
        } else {
            if runs(cells@) == as_ints(clues@) {
                assert(groups@.len() == clues@.len());
                assert forall|k: int| 0 <= k < clues@.len() implies groups@[k] == clues@[k] by {
                    assert(as_ints(groups@)[k] == as_ints(clues@)[k]);
                }
                assert(groups@ =~= clues@);
            }
        }
    }
    r
}

/// For each position, the value every completion agrees on, or `None`.
pub fn forced_cells(completions: &[Vec<Cell>]) -> (r: Vec<Option<Cell>>)
    requires
        completions.len() > 0,
        forall|k: int| 0 <= k < completions.len() ==> #[trigger] completions@[k]@.len() == completions@[0]@.len(),
    ensures
        r@.len() == completions@[0]@.len(),
        forall|i: int| 0 <= i < r@.len() ==> #[trigger] r@[i] == (if (forall|k: int| 0 <= k < completions.len()
            ==> #[trigger] completions@[k]@[i] == completions@[0]@[i]) {
            Some(completions@[0]@[i])
        } else {
            None
        }),
{
    let n = completions[0].len();
    let mut r: Vec<Option<Cell>> = Vec::new();
    let mut i: usize = 0;
    while i < n
        invariant
            i <= n,
            completions.len() > 0,
            n == completions@[0]@.len(),
            forall|k: int| 0 <= k < completions.len() ==> #[trigger] completions@[k]@.len() == n,
            r@.len() == i,
            forall|p: int| 0 <= p < i ==> #[trigger] r@[p] == (if (forall|k: int| 0 <= k < completions.len()
                ==> #[trigger] completions@[k]@[p] == completions@[0]@[p]) {
                Some(completions@[0]@[p])
            } else {
                None
            }),
        decreases n - i,
    {
        let v = completions[0][i];
        let mut all = true;
        let mut k: usize = 1;
        while k < completions.len()
            invariant
                1 <= k <= completions.len(),
                i < n,
                n == completions@[0]@.len(),
                v == completions@[0]@[i as int],
                forall|j: int| 0 <= j < completions.len() ==> #[trigger] completions@[j]@.len() == n,
                all == (forall|j: int| 0 <= j < k ==> #[trigger] completions@[j]@[i as int] == v),
            decreases completions.len() - k,
        {
            if completions[k][i] != v {
                all = false;
            }
            k += 1;
        }
        if all {
            r.push(Some(v));
        } else {
            r.push(None);
        }
        i += 1;
    }
    r
}

/// `2^e`.
pub open spec fn exp2(e: nat) -> nat
    decreases e,
{
    if e == 0 { 1 } else { 2 * exp2((e - 1) as nat) }
}

/// Sum of a clue list.
pub open spec fn clue_total(q: Seq<usize>) -> nat
    decreases q.len(),
{
    if q.len() == 0 { 0 } else { (q[0] as nat + clue_total(q.drop_first())) as nat }
}

/// `a` copies of `c`.
pub open spec fn repeat(c: Cell, a: nat) -> Seq<Cell> {
    Seq::new(a, |_k: int| c)
}

/// The first block of `t` (clues `q`, `q` nonempty) starts at offset `s`.
pub open spec fn decomp(t: Seq<Cell>, q: Seq<usize>, s: int) -> bool {
    &&& 0 <= s
    &&& s + q[0] <= t.len()
    &&& forall|k: int| 0 <= k < s ==> t[k] == Cell::Empty
    &&& forall|k: int| s <= k < s + q[0] ==> t[k] == Cell::Filled
    &&& if s + q[0] == t.len() {
        q.len() == 1
    } else {
        t[s + q[0]] == Cell::Empty && fits(t.skip(s + q[0] + 1), q.drop_first())
    }
}

pub proof fn lemma_fits_full(t: Seq<Cell>, q: Seq<usize>)
    requires
        fits(t, q),
    ensures
        is_full(t),
    decreases t.len(),
{
    if q.len() == 0 {
    } else if t.len() == 0 {
    } else if t[0] == Cell::Empty && fits(t.drop_first(), q) {
        lemma_fits_full(t.drop_first(), q);
        assert forall|k: int| 0 <= k < t.len() implies t[k] != Cell::Unknown by {
            if k > 0 {
                assert(t[k] == t.drop_first()[k - 1]);
            }
        }
    } else {
        let g = q[0] as int;
        if g == t.len() {
        } else {
            lemma_fits_full(t.skip(g + 1), q.drop_first());
            assert forall|k: int| 0 <= k < t.len() implies t[k] != Cell::Unknown by {
                if k > g {
                    assert(t[k] == t.skip(g + 1)[k - g - 1]);
                }
            }
        }
    }
}

proof fn lemma_fits_decompose(t: Seq<Cell>, q: Seq<usize>) -> (s: int)
    requires
        fits(t, q),
        q.len() > 0,
    ensures
        decomp(t, q, s),
    decreases t.len(),
{
    if t.len() > 0 && t[0] == Cell::Empty && fits(t.drop_first(), q) {
        let s0 = lemma_fits_decompose(t.drop_first(), q);
        let u = t.drop_first();
        assert forall|k: int| 0 <= k < s0 + 1 implies t[k] == Cell::Empty by {
            if k > 0 {
                assert(t[k] == u[k - 1]);
            }
        }
        assert forall|k: int| s0 + 1 <= k < s0 + 1 + q[0] implies t[k] == Cell::Filled by {
            assert(t[k] == u[k - 1]);
        }
        if s0 + q[0] < u.len() {
            assert(t[s0 + 1 + q[0]] == u[s0 + q[0]]);
            assert(t.skip(s0 + 1 + q[0] + 1) =~= u.skip(s0 + q[0] + 1));
        }
        s0 + 1
    } else {
        0
    }
}

proof fn lemma_fits_min_len(t: Seq<Cell>, q: Seq<usize>)
    requires
        fits(t, q),
        q.len() > 0,
    ensures
        t.len() + 1 >= clue_total(q) + q.len(),
    decreases t.len(),
{
    let s = lemma_fits_decompose(t, q);
    let q2 = q.drop_first();
    assert(clue_total(q) == q[0] + clue_total(q2));
    if s + q[0] == t.len() {
        assert(q2.len() == 0);
    } else {
        if q2.len() > 0 {
            lemma_fits_min_len(t.skip(s + q[0] + 1), q2);
        }
    }
}

proof fn lemma_fits_empties(a: nat, t: Seq<Cell>, q: Seq<usize>)
    requires
        fits(t, q),
    ensures
        fits(repeat(Cell::Empty, a) + t, q),
    decreases a,
{
    if a > 0 {
        lemma_fits_empties((a - 1) as nat, t, q);
        let u = repeat(Cell::Empty, a) + t;
        assert(u.drop_first() =~= repeat(Cell::Empty, (a - 1) as nat) + t);
        if q.len() == 0 {
            assert forall|k: int| 0 <= k < u.len() implies u[k] == Cell::Empty by {
                if k >= a {
                    assert(u[k] == t[k - a]);
                }
            }
        }
    }
}

proof fn lemma_fits_block(g: nat, t: Seq<Cell>, q: Seq<usize>)
    requires
        q.len() > 0,
        q[0] == g,
        fits(t, q.drop_first()),
    ensures
        fits(repeat(Cell::Filled, g) + seq![Cell::Empty] + t, q),
{
    let u = repeat(Cell::Filled, g) + seq![Cell::Empty] + t;
    assert(u[g as int] == Cell::Empty);
    assert(u.skip(g as int + 1) =~= t);
    assert forall|k: int| 0 <= k < q[0] implies u[k] == Cell::Filled by {}
}

proof fn lemma_fits_last_block(g: nat, q: Seq<usize>)
    requires
        q.len() == 1,
        q[0] == g,
    ensures
        fits(repeat(Cell::Filled, g), q),
{
    let u = repeat(Cell::Filled, g);
    assert forall|k: int| 0 <= k < q[0] implies u[k] == Cell::Filled by {}
}

/// Every completion listed in `out` from index `from` on.
pub open spec fn listed(out: Seq<Vec<Cell>>, from: int, l: Seq<Cell>) -> bool {
    exists|k: int| from <= k < out.len() && #[trigger] out[k]@ == l
}

/// The entries of `out` from index `from` on are completions of `o` under `q`.
pub open spec fn all_completions(out: Seq<Vec<Cell>>, from: int, o: Seq<Cell>, q: Seq<usize>) -> bool {
    forall|k: int| from <= k < out.len() ==> is_completion(#[trigger] out[k]@, o, q)
}

/// Fitting the remaining clues after `prefix` fits the whole clue list.
pub open spec fn prefix_ok(prefix: Seq<Cell>, rest_len: nat, qi: int, q: Seq<usize>) -> bool {
    forall|t: Seq<Cell>|
        t.len() == rest_len && #[trigger] fits(t, q.skip(qi)) ==> fits(prefix + t, q)
}

/// Sum of `clues[from..]` plus the count of those clues, clamped to `usize::MAX`.
fn tail_need(clues: &[usize], from: usize) -> (r: usize)
    requires
        from <= clues.len(),
    ensures
        r == clamp_usize((clue_total(clues@.skip(from as int)) + (clues.len() - from)) as nat),
    decreases clues.len() - from,
{
    if from == clues.len() {
        0
    } else {
        let rest = tail_need(clues, from + 1);
        let ghost q = clues@.skip(from as int);
        assert(q.drop_first() =~= clues@.skip(from + 1));
        let a = clues[from].saturating_add(1);
        proof {
            lemma_clamp_add((clue_total(q.drop_first()) + (clues.len() - from - 1)) as nat, (clues[from as int] + 1) as nat);
        }
        rest.saturating_add(a)
    }
}

pub proof fn lemma_exp2_pos(e: nat)
    ensures
        exp2(e) >= 1,
    decreases e,
{
    if e > 0 {
        lemma_exp2_pos((e - 1) as nat);
    }
}

pub proof fn lemma_exp2_step(e: nat)
    ensures
        exp2(e + 1) == 2 * exp2(e),
{
}

pub proof fn lemma_exp2_mono(a: nat, b: nat)
    requires
        a <= b,
    ensures
        exp2(a) <= exp2(b),
    decreases b,
{
    if a < b {
        lemma_exp2_mono(a, (b - 1) as nat);
        lemma_exp2_pos((b - 1) as nat);
    }
}

/// Setting cells `[ci, next)` to the block layout keeps the recursion's
/// preconditions.
proof fn place_step_setup(
    o: Seq<Cell>,
    b0: Seq<Cell>,
    b1: Seq<Cell>,
    ci: int,
    start: int,
    g: int,
    next: int,
    qi: int,
    clues: Seq<usize>,
)
    requires
        b0.len() == o.len(),
        b1.len() == o.len(),
        0 <= ci <= start,
        0 <= g,
        start + g <= o.len(),
        next == (if start + g < o.len() { start + g + 1 } else { o.len() as int }),
        forall|p: int| 0 <= p < ci ==> b1[p] == b0[p],
        forall|p: int| ci <= p < start ==> b1[p] == Cell::Empty,
        forall|p: int| start <= p < start + g ==> b1[p] == Cell::Filled,
        start + g < o.len() ==> b1[start + g] == Cell::Empty,
        forall|p: int| next <= p < o.len() ==> b1[p] == b0[p],
        b0.skip(ci) == o.skip(ci),
        is_full(b0.take(ci)),
        agrees(b0.take(ci), o.take(ci)),
        prefix_ok(b0.take(ci), (o.len() - ci) as nat, qi, clues),
        forall|p: int| ci <= p < start ==> o[p] != Cell::Filled,
        forall|p: int| start <= p < start + g ==> o[p] != Cell::Empty,
        start + g < o.len() ==> o[start + g] != Cell::Filled,
        0 <= qi < clues.len(),
        clues[qi] == g,
        start + g == o.len() ==> qi + 1 == clues.len(),
    ensures
        b1.skip(next) == o.skip(next),
        is_full(b1.take(next)),
        agrees(b1.take(next), o.take(next)),
        prefix_ok(b1.take(next), (o.len() - next) as nat, qi + 1, clues),
{
    let n = o.len() as int;
    assert forall|p: int| next <= p < n implies b1[p] == o[p] by {
        assert(b0.skip(ci)[p - ci] == o.skip(ci)[p - ci]);
    }
    assert(b1.skip(next) =~= o.skip(next));
    assert forall|p: int| 0 <= p < next implies b1.take(next)[p] != Cell::Unknown by {
        if p < ci {
            assert(b0.take(ci)[p] == b1[p]);
        }
    }
    assert forall|p: int| 0 <= p < next && o.take(next)[p] != Cell::Unknown implies b1.take(next)[p] == o.take(
        next,
    )[p] by {
        if p < ci {
            assert(b0.take(ci)[p] == b1[p]);
            assert(o.take(ci)[p] == o[p]);
        }
    }
    let q = clues.skip(qi);
    assert(q[0] == g);
    assert(q.drop_first() =~= clues.skip(qi + 1));
    let mid = if start + g < n {
        repeat(Cell::Empty, (start - ci) as nat) + repeat(Cell::Filled, g as nat) + seq![Cell::Empty]
    } else {
        repeat(Cell::Empty, (start - ci) as nat) + repeat(Cell::Filled, g as nat)
    };
    assert(b1.take(next) =~= b0.take(ci) + mid);
    assert forall|t: Seq<Cell>|
        t.len() == n - next && #[trigger] fits(t, clues.skip(qi + 1)) implies fits(b1.take(next) + t, clues) by {
        let u = mid + t;
        if start + g < n {
            lemma_fits_block(g as nat, t, q);
            assert(repeat(Cell::Filled, g as nat) + seq![Cell::Empty] + t =~= repeat(Cell::Filled, g as nat)
                + seq![Cell::Empty] + t);
            lemma_fits_empties((start - ci) as nat, repeat(Cell::Filled, g as nat) + seq![Cell::Empty] + t, q);
            assert(u =~= repeat(Cell::Empty, (start - ci) as nat) + (repeat(Cell::Filled, g as nat) + seq![
                Cell::Empty,
            ] + t));
        } else {
            assert(t.len() == 0);
            assert(q.len() == 1);
            lemma_fits_last_block(g as nat, q);
            lemma_fits_empties((start - ci) as nat, repeat(Cell::Filled, g as nat), q);
            assert(u =~= repeat(Cell::Empty, (start - ci) as nat) + repeat(Cell::Filled, g as nat));
        }
        assert(fits(b0.take(ci) + u, clues));
        assert(b0.take(ci) + u =~= b1.take(next) + t);
    }
}

/// A completion whose first block (of the clues from `qi` on) starts at
/// `start` is one of those the recursion at `next` lists.
proof fn place_step_complete(
    o: Seq<Cell>,
    b0: Seq<Cell>,
    b1: Seq<Cell>,
    l: Seq<Cell>,
    ci: int,
    start: int,
    g: int,
    next: int,
    qi: int,
    clues: Seq<usize>,
    s: int,
)
    requires
        b0.len() == o.len(),
        b1.len() == o.len(),
        0 <= ci <= start,
        0 <= g,
        start + g <= o.len(),
        next == (if start + g < o.len() { start + g + 1 } else { o.len() as int }),
        forall|p: int| 0 <= p < ci ==> b1[p] == b0[p],
        forall|p: int| ci <= p < start ==> b1[p] == Cell::Empty,
        forall|p: int| start <= p < start + g ==> b1[p] == Cell::Filled,
        start + g < o.len() ==> b1[start + g] == Cell::Empty,
        0 <= qi < clues.len(),
        clues[qi] == g,
        is_completion(l, o, clues),
        l.take(ci) == b0.take(ci),
        decomp(l.skip(ci), clues.skip(qi), s),
        ci + s == start,
    ensures
        l.take(next) == b1.take(next),
        fits(l.skip(next), clues.skip(qi + 1)),
{
    let t = l.skip(ci);
    let q = clues.skip(qi);
    let n = o.len() as int;
    assert(q[0] == g);
    assert(q.drop_first() =~= clues.skip(qi + 1));
    assert forall|p: int| 0 <= p < next implies l.take(next)[p] == b1.take(next)[p] by {
        if p < ci {
            assert(l.take(ci)[p] == b0.take(ci)[p]);
        } else {
            assert(t[p - ci] == l[p]);
        }
    }
    assert(l.take(next) =~= b1.take(next));
    if start + g < n {
        assert(t.skip(s + g + 1) =~= l.skip(next));
    } else {
        assert(l.skip(next).len() == 0);
        assert(q.len() == 1);
        assert(clues.skip(qi + 1).len() == 0);
    }
}

/// The entries of `out` from index `lo` on are pairwise different.
#[verifier::opaque]
pub open spec fn distinct_from(out: Seq<Vec<Cell>>, lo: int) -> bool {
    forall|i: int, j: int| lo <= i < j < out.len() ==> #[trigger] out[i]@ != #[trigger] out[j]@
}

/// `a` comes before `b` in the order completions are listed: at the first
/// cell where they differ, `a` is filled and `b` empty. For two layouts
/// of one clue list this is: the first block that starts elsewhere starts
/// earlier in `a`.
pub open spec fn filled_first(a: Seq<Cell>, b: Seq<Cell>) -> bool {
    exists|p: int|
        0 <= p < a.len() && p < b.len() && #[trigger] a.take(p) == b.take(p) && a[p] == Cell::Filled && b[p]
            == Cell::Empty
}

/// The entries of `out` from index `lo` on are in listing order: each
/// comes before every later one.
#[verifier::opaque]
pub open spec fn ordered_from(out: Seq<Vec<Cell>>, lo: int) -> bool {
    forall|i: int, j: int| lo <= i < j < out.len() ==> filled_first(#[trigger] out[i]@, #[trigger] out[j]@)
}

proof fn lemma_filled_first_asym(a: Seq<Cell>, b: Seq<Cell>)
    requires
        filled_first(a, b),
    ensures
        !filled_first(b, a),
        a != b,
{
    let p1 = choose|p: int| 0 <= p < a.len() && p < b.len() && #[trigger] a.take(p) == b.take(p) && a[p] == Cell::Filled
        && b[p] == Cell::Empty;
    if filled_first(b, a) {
        let p2 = choose|p: int| 0 <= p < b.len() && p < a.len() && #[trigger] b.take(p) == a.take(p) && b[p]
            == Cell::Filled && a[p] == Cell::Empty;
        if p1 < p2 {
            assert(b.take(p2)[p1] == a.take(p2)[p1]);
        } else if p2 < p1 {
            assert(a.take(p1)[p2] == b.take(p1)[p2]);
        }
    }
}

/// Listing order pins a list down: two lists in listing order that list
/// the same lines are the same list.
proof fn lemma_ordered_unique(x: Seq<Vec<Cell>>, y: Seq<Vec<Cell>>)
    requires
        ordered_from(x, 0),
        ordered_from(y, 0),
        forall|l: Seq<Cell>| listed(x, 0, l) <==> listed(y, 0, l),
    ensures
        x.len() == y.len(),
        forall|i: int| 0 <= i < x.len() ==> #[trigger] x[i]@ == y[i]@,
    decreases x.len(),
{
    reveal(ordered_from);
    if x.len() == 0 {
        if y.len() > 0 {
            assert(listed(y, 0, y[0]@));
        }
    } else if y.len() == 0 {
        assert(listed(x, 0, x[0]@));
    } else {
        assert(listed(x, 0, x[0]@));
        assert(listed(y, 0, y[0]@));
        let j = choose|j: int| 0 <= j < y.len() && #[trigger] y[j]@ == x[0]@;
        let i = choose|i: int| 0 <= i < x.len() && #[trigger] x[i]@ == y[0]@;
        if j > 0 && i > 0 {
            assert(filled_first(y[0]@, y[j]@));
            assert(filled_first(x[0]@, x[i]@));
            lemma_filled_first_asym(y[0]@, x[0]@);
        } else if j > 0 {
            assert(filled_first(y[0]@, y[j]@));
        } else if i > 0 {
            assert(filled_first(x[0]@, x[i]@));
        }
        assert(x[0]@ == y[0]@);
        let x1 = x.drop_first();
        let y1 = y.drop_first();
        assert forall|a: int, b: int| 0 <= a < b < x1.len() implies filled_first(#[trigger] x1[a]@, #[trigger] x1[b]@) by {
            assert(x1[a] == x[a + 1] && x1[b] == x[b + 1]);
        }
        assert forall|a: int, b: int| 0 <= a < b < y1.len() implies filled_first(#[trigger] y1[a]@, #[trigger] y1[b]@) by {
            assert(y1[a] == y[a + 1] && y1[b] == y[b + 1]);
        }
        assert forall|l: Seq<Cell>| listed(x1, 0, l) <==> listed(y1, 0, l) by {
            if listed(x1, 0, l) {
                let k = choose|k: int| 0 <= k < x1.len() && #[trigger] x1[k]@ == l;
                assert(x[k + 1]@ == l);
                assert(filled_first(x[0]@, x[k + 1]@));
                assert(listed(x, 0, l));
                let m = choose|m: int| 0 <= m < y.len() && #[trigger] y[m]@ == l;
                if m == 0 {
                    assert(l == x[0]@);
                }
                assert(y1[m - 1]@ == l);
            }
            if listed(y1, 0, l) {
                let k = choose|k: int| 0 <= k < y1.len() && #[trigger] y1[k]@ == l;
                assert(y[k + 1]@ == l);
                assert(filled_first(y[0]@, y[k + 1]@));
                assert(listed(y, 0, l));
                let m = choose|m: int| 0 <= m < x.len() && #[trigger] x[m]@ == l;
                if m == 0 {
                    assert(l == y[0]@);
                }
                assert(x1[m - 1]@ == l);
            }
        }
        assert(ordered_from(x1, 0));
        assert(ordered_from(y1, 0));
        lemma_ordered_unique(x1, y1);
        assert forall|i: int| 0 <= i < x.len() implies #[trigger] x[i]@ == y[i]@ by {
            if i > 0 {
                assert(x1[i - 1]@ == y1[i - 1]@);
            }
        }
    }
}

/// A list that holds every completion of `cells` under `clues` (every
/// clue at least one), each once and nothing else, has as many entries as
/// there are placements: the list `enumerate_completions` returns has as
/// many entries as `count_completions` counts (below `usize::MAX`).
pub proof fn lemma_list_counts_placements(x: Seq<Vec<Cell>>, cells: Seq<Cell>, clues: Seq<usize>)
    requires
        nonzero(clues),
        all_completions(x, 0, cells, clues),
        forall|l: Seq<Cell>| is_completion(l, cells, clues) ==> listed(x, 0, l),
        distinct_from(x, 0),
    ensures
        x.len() == placements(cells, clues),
{
    reveal(distinct_from);
    let v = x.map_values(|e: Vec<Cell>| e@);
    assert(v.no_duplicates()) by {
        assert forall|i: int, j: int| 0 <= i < v.len() && 0 <= j < v.len() && i != j implies v[i] != v[j] by {
            if i < j {
                assert(x[i]@ != x[j]@);
            } else {
                assert(x[j]@ != x[i]@);
            }
        }
    }
    v.unique_seq_to_set();
    assert(v.to_set() =~= completion_set(cells, clues)) by {
        assert forall|l: Seq<Cell>| v.to_set().contains(l) <==> completion_set(cells, clues).contains(l) by {
            if v.to_set().contains(l) {
                let k = choose|k: int| 0 <= k < v.len() && v[k] == l;
                assert(is_completion(x[k]@, cells, clues));
            }
            if completion_set(cells, clues).contains(l) {
                assert(listed(x, 0, l));
                let k = choose|k: int| 0 <= k < x.len() && #[trigger] x[k]@ == l;
                assert(v[k] == l);
            }
        }
    }
    lemma_placements_count(cells, clues);
}

/// The completions of a line are one list: any two lists that hold every
/// completion of `cells` under `clues`, nothing else, in listing order,
/// are the same list. So the list that
/// `enumerate_completions` returns is the only one its contract allows.
pub proof fn lemma_completions_determined(x: Seq<Vec<Cell>>, y: Seq<Vec<Cell>>, cells: Seq<Cell>, clues: Seq<usize>)
    requires
        all_completions(x, 0, cells, clues),
        all_completions(y, 0, cells, clues),
        forall|l: Seq<Cell>| is_completion(l, cells, clues) ==> listed(x, 0, l),
        forall|l: Seq<Cell>| is_completion(l, cells, clues) ==> listed(y, 0, l),
        ordered_from(x, 0),
        ordered_from(y, 0),
    ensures
        x.len() == y.len(),
        forall|i: int| 0 <= i < x.len() ==> #[trigger] x[i]@ == y[i]@,
{
    assert forall|l: Seq<Cell>| listed(x, 0, l) <==> listed(y, 0, l) by {
        if listed(x, 0, l) {
            let k = choose|k: int| 0 <= k < x.len() && #[trigger] x[k]@ == l;
            assert(is_completion(x[k]@, cells, clues));
        }
        if listed(y, 0, l) {
            let k = choose|k: int| 0 <= k < y.len() && #[trigger] y[k]@ == l;
            assert(is_completion(y[k]@, cells, clues));
        }
    }
    lemma_ordered_unique(x, y);
}

/// The entries of `out` from index `lo` on begin with `pre`.
#[verifier::opaque]
pub open spec fn prefixed(out: Seq<Vec<Cell>>, lo: int, pre: Seq<Cell>) -> bool {
    forall|p: int| lo <= p < out.len() ==> (#[trigger] out[p]@).take(pre.len() as int) == pre
}

/// Every clue is at least one.
pub open spec fn nonzero(q: Seq<usize>) -> bool {
    forall|i: int| 0 <= i < q.len() ==> q[i] > 0
}

/// `l` has its first block at `s`: empty cells from `ci` up to `s`, then a
/// filled cell.
pub open spec fn block_at(l: Seq<Cell>, ci: int, s: int) -> bool {
    &&& ci <= s < l.len()
    &&& l[s] == Cell::Filled
    &&& forall|x: int| ci <= x < s ==> l[x] == Cell::Empty
}

/// `l` has its first block (from `ci`) before `start`.
pub open spec fn starts_before(l: Seq<Cell>, ci: int, start: int) -> bool {
    exists|s: int| s < start && #[trigger] block_at(l, ci, s)
}

/// The entries of `out` from index `lo` on have their first block (from
/// `ci`) before `start`.
#[verifier::opaque]
pub open spec fn started_before(out: Seq<Vec<Cell>>, lo: int, ci: int, start: int) -> bool {
    forall|p: int| lo <= p < out.len() ==> starts_before(#[trigger] out[p]@, ci, start)
}

proof fn lemma_fresh_none(out: Seq<Vec<Cell>>, lo: int, ci: int, start: int, pre: Seq<Cell>)
    requires
        out.len() <= lo,
    ensures
        distinct_from(out, lo),
        prefixed(out, lo, pre),
        started_before(out, lo, ci, start),
        ordered_from(out, lo),
{
    reveal(distinct_from);
    reveal(prefixed);
    reveal(started_before);
    reveal(ordered_from);
}

proof fn lemma_fresh_one(out: Seq<Vec<Cell>>, lo: int, pre: Seq<Cell>)
    requires
        out.len() == lo + 1,
        0 <= lo,
        out[lo]@.take(pre.len() as int) == pre,
    ensures
        distinct_from(out, lo),
        prefixed(out, lo, pre),
        ordered_from(out, lo),
{
    reveal(distinct_from);
    reveal(prefixed);
    reveal(ordered_from);
}

proof fn lemma_started_later(out: Seq<Vec<Cell>>, lo: int, ci: int, start: int)
    requires
        started_before(out, lo, ci, start),
    ensures
        started_before(out, lo, ci, start + 1),
{
    reveal(started_before);
    assert forall|p: int| lo <= p < out.len() implies starts_before(#[trigger] out[p]@, ci, start + 1) by {
        assert(starts_before(out[p]@, ci, start));
        let s = choose|s: int| s < start && #[trigger] block_at(out[p]@, ci, s);
        assert(block_at(out[p]@, ci, s));
    }
}

/// New entries that begin with `b1[..next]` keep the common prefix.
proof fn lemma_prefixed_join(
    out1: Seq<Vec<Cell>>,
    out2: Seq<Vec<Cell>>,
    lo: int,
    ci: int,
    next: int,
    b0: Seq<Cell>,
    b1: Seq<Cell>,
)
    requires
        0 <= lo <= out1.len() <= out2.len(),
        0 <= ci <= next <= b1.len(),
        out2.take(out1.len() as int) == out1,
        prefixed(out1, lo, b0.take(ci)),
        prefixed(out2, out1.len() as int, b1.take(next)),
        b1.take(ci) == b0.take(ci),
        forall|p: int| out1.len() <= p < out2.len() ==> (#[trigger] out2[p]@).len() == b1.len(),
    ensures
        prefixed(out2, lo, b0.take(ci)),
{
    reveal(prefixed);
    let m = out1.len() as int;
    assert forall|p: int| lo <= p < out2.len() implies (#[trigger] out2[p]@).take(b0.take(ci).len() as int)
        == b0.take(ci) by {
        if p < m {
            assert(out2.take(m)[p] == out1[p]);
        } else {
            let l = out2[p]@;
            assert(l.take(next) == b1.take(next));
            assert(l.take(ci) =~= l.take(next).take(ci));
            assert(b1.take(next).take(ci) =~= b1.take(ci));
        }
    }
}

/// New entries with their first block at `start` join older ones with
/// earlier first blocks: all stay different, with the same prefix.
proof fn lemma_fresh_join(
    out1: Seq<Vec<Cell>>,
    out2: Seq<Vec<Cell>>,
    lo: int,
    ci: int,
    start: int,
    next: int,
    b0: Seq<Cell>,
    b1: Seq<Cell>,
)
    requires
        0 <= lo <= out1.len() <= out2.len(),
        0 <= ci <= start < next <= b1.len(),
        b0.len() == b1.len(),
        out2.take(out1.len() as int) == out1,
        distinct_from(out1, lo),
        prefixed(out1, lo, b0.take(ci)),
        started_before(out1, lo, ci, start),
        ordered_from(out1, lo),
        ordered_from(out2, out1.len() as int),
        distinct_from(out2, out1.len() as int),
        prefixed(out2, out1.len() as int, b1.take(next)),
        b1.take(ci) == b0.take(ci),
        b1[start] == Cell::Filled,
        forall|x: int| ci <= x < start ==> b1[x] == Cell::Empty,
        forall|p: int| out1.len() <= p < out2.len() ==> (#[trigger] out2[p]@).len() == b1.len(),
    ensures
        distinct_from(out2, lo),
        prefixed(out2, lo, b0.take(ci)),
        started_before(out2, lo, ci, start + 1),
        ordered_from(out2, lo),
{
    reveal(distinct_from);
    reveal(prefixed);
    reveal(started_before);
    reveal(ordered_from);
    let m = out1.len() as int;
    assert forall|p: int| lo <= p < m implies out2[p] == out1[p] by {
        assert(out2.take(m)[p] == out1[p]);
    }
    assert forall|p: int| m <= p < out2.len() implies block_at(#[trigger] out2[p]@, ci, start) && (
    out2[p]@).take(ci) == b0.take(ci) by {
        let l = out2[p]@;
        assert(l.take(next) == b1.take(next));
        assert(l[start] == l.take(next)[start]);
        assert forall|x: int| ci <= x < start implies l[x] == Cell::Empty by {
            assert(l[x] == l.take(next)[x]);
        }
        assert(l.take(ci) =~= l.take(next).take(ci));
        assert(b1.take(next).take(ci) =~= b1.take(ci));
    }
    assert forall|i: int, j: int| lo <= i < j < out2.len() implies #[trigger] out2[i]@ != #[trigger] out2[j]@ by {
        if j < m {
            assert(out1[i]@ != out1[j]@);
        } else if i < m {
            assert(starts_before(out1[i]@, ci, start));
            let s = choose|s: int| s < start && #[trigger] block_at(out1[i]@, ci, s);
            assert(out2[i]@[s] == Cell::Filled);
            assert(block_at(out2[j]@, ci, start));
            assert(out2[j]@[s] == Cell::Empty);
        }
    }
    assert forall|i: int, j: int| lo <= i < j < out2.len() implies filled_first(#[trigger] out2[i]@, #[trigger] out2[j]@) by {
        if j < m {
            assert(filled_first(out1[i]@, out1[j]@));
        } else if i >= m {
            assert(filled_first(out2[i]@, out2[j]@));
        } else {
            assert(starts_before(out1[i]@, ci, start));
            let s = choose|s: int| s < start && #[trigger] block_at(out1[i]@, ci, s);
            let a = out2[i]@;
            let b = out2[j]@;
            assert(block_at(a, ci, s));
            assert(block_at(b, ci, start));
            assert(a.take(ci) == b0.take(ci));
            assert(b.take(ci) == b0.take(ci));
            assert forall|x: int| 0 <= x < s implies a[x] == b[x] by {
                if x < ci {
                    assert(a.take(ci)[x] == b.take(ci)[x]);
                }
            }
            assert(a.take(s) =~= b.take(s));
        }
    }
    assert forall|p: int| lo <= p < out2.len() implies starts_before(#[trigger] out2[p]@, ci, start + 1) by {
        if p < m {
            assert(starts_before(out1[p]@, ci, start));
            let s = choose|s: int| s < start && #[trigger] block_at(out1[p]@, ci, s);
            assert(block_at(out2[p]@, ci, s));
        } else {
            assert(block_at(out2[p]@, ci, start));
        }
    }
}

/// Appends to `out` every completion of `orig` whose first `ci` cells are
/// `buf[..ci]` and whose remaining cells place `clues[qi..]`.
#[verifier::rlimit(60)]
fn place(
    orig: &[Cell],
    buf: &mut Vec<Cell>,
    ci: usize,
    clues: &[usize],
    qi: usize,
    out: &mut Vec<Vec<Cell>>,
)
    requires
        old(buf)@.len() == orig@.len(),
        ci <= orig.len(),
        qi <= clues.len(),
        old(buf)@.skip(ci as int) == orig@.skip(ci as int),
        is_full(old(buf)@.take(ci as int)),
        agrees(old(buf)@.take(ci as int), orig@.take(ci as int)),
        prefix_ok(old(buf)@.take(ci as int), (orig.len() - ci) as nat, qi as int, clues@),
    ensures
        final(buf)@ == old(buf)@,
        final(out)@.len() >= old(out)@.len(),
        final(out)@.take(old(out)@.len() as int) == old(out)@,
        final(out)@.len() - old(out)@.len() <= exp2((orig.len() - ci + 1) as nat),
        all_completions(final(out)@, old(out)@.len() as int, orig@, clues@),
        forall|l: Seq<Cell>|
            is_completion(l, orig@, clues@) && l.take(ci as int) == old(buf)@.take(ci as int) && fits(
                l.skip(ci as int),
                clues@.skip(qi as int),
            ) ==> listed(final(out)@, old(out)@.len() as int, l),
        prefixed(final(out)@, old(out)@.len() as int, old(buf)@.take(ci as int)),
        nonzero(clues@) ==> distinct_from(final(out)@, old(out)@.len() as int),
        nonzero(clues@) ==> ordered_from(final(out)@, old(out)@.len() as int),
    decreases clues.len() - qi,
{
    let n = orig.len();
    let ghost o = orig@;
    let ghost b0 = buf@;
    let ghost out0 = out@;
    let ghost q = clues@.skip(qi as int);
    proof {
        lemma_exp2_pos((n - ci) as nat);
        lemma_exp2_step((n - ci) as nat);
        assert(out@.take(out0.len() as int) =~= out0);
    }
    if qi == clues.len() {
        let mut k = ci;
        #[verifier::loop_isolation(false)]
        while k < n
            invariant
                ci <= k <= n,
                n == orig.len(),
                qi == clues.len(),
                out@ == out0,
                forall|j: int| ci <= j < k ==> orig@[j] != Cell::Filled,
            decreases n - k,
        {
            if orig[k] == Cell::Filled {
                proof {
                    assert forall|l: Seq<Cell>|
                        is_completion(l, orig@, clues@) && l.take(ci as int) == b0.take(ci as int) && fits(
                            l.skip(ci as int),
                            clues@.skip(qi as int),
                        ) implies listed(out@, out0.len() as int, l) by {
                        assert(clues@.skip(qi as int).len() == 0);
                        assert(l.skip(ci as int)[k - ci] == l[k as int]);
                        assert(l[k as int] == orig@[k as int]);
                    }
                    lemma_fresh_none(out@, out0.len() as int, ci as int, ci as int, b0.take(ci as int));
                }
                return;
            }
            k += 1;
        }
        let mut completion: Vec<Cell> = Vec::new();
        let mut j: usize = 0;
        while j < n
            invariant
                j <= n,
                ci <= n,
                n == orig.len(),
                buf@ == b0,
                b0.len() == n,
                b0.skip(ci as int) == orig@.skip(ci as int),
                is_full(b0.take(ci as int)),
                completion@.len() == j,
                forall|p: int| 0 <= p < j && p < ci ==> completion@[p] == b0[p],
                forall|p: int| ci <= p < j ==> completion@[p] == Cell::Empty,
                forall|p: int| ci <= p < n ==> orig@[p] != Cell::Filled,
            decreases n - j,
        {
            let c = buf[j];
            proof {
                if j >= ci {
                    assert(b0.skip(ci as int)[j - ci] == orig@.skip(ci as int)[j - ci]);
                } else {
                    assert(b0.take(ci as int)[j as int] == b0[j as int]);
                }
            }
            if c == Cell::Unknown {
                completion.push(Cell::Empty);
            } else {
                completion.push(c);
            }
            j += 1;
        }
        let ghost e = repeat(Cell::Empty, (n - ci) as nat);
        proof {
            assert(completion@ =~= b0.take(ci as int) + e);
            assert(fits(e, q));
            assert(fits(b0.take(ci as int) + e, clues@));
            assert forall|p: int| 0 <= p < n && orig@[p] != Cell::Unknown implies completion@[p] == orig@[p] by {
                if p < ci {
                    assert(b0.take(ci as int)[p] == completion@[p]);
                    assert(orig@.take(ci as int)[p] == orig@[p]);
                }
            }
        }
        let ghost cv = completion@;
        out.push(completion);
        proof {
            assert(out@[out0.len() as int]@ == cv);
            assert(out@.take(out0.len() as int) =~= out0);
            assert forall|l: Seq<Cell>|
                is_completion(l, orig@, clues@) && l.take(ci as int) == b0.take(ci as int) && fits(
                    l.skip(ci as int),
                    clues@.skip(qi as int),
                ) implies listed(out@, out0.len() as int, l) by {
                assert(l =~= l.take(ci as int) + l.skip(ci as int));
                assert(l.skip(ci as int) =~= e);
                assert(out@[out0.len() as int]@ == l);
            }
            assert(cv.take(ci as int) =~= b0.take(ci as int));
            lemma_fresh_one(out@, out0.len() as int, b0.take(ci as int));
        }
        return;
    }
    let g = clues[qi];
    let tail = tail_need(clues, qi + 1);
    proof {
        assert(q[0] == g);
        assert(q.drop_first() =~= clues@.skip(qi + 1));
    }
    if g > n - ci || tail > n - ci - g {
        proof {
            assert forall|l: Seq<Cell>|
                is_completion(l, orig@, clues@) && l.take(ci as int) == b0.take(ci as int) && fits(
                    l.skip(ci as int),
                    clues@.skip(qi as int),
                ) implies listed(out@, out0.len() as int, l) by {
                let t = l.skip(ci as int);
                let s = lemma_fits_decompose(t, q);
                if q.drop_first().len() > 0 {
                    if s + q[0] < t.len() {
                        lemma_fits_min_len(t.skip(s + q[0] + 1), q.drop_first());
                    }
                }
            }
            lemma_fresh_none(out@, out0.len() as int, ci as int, ci as int, b0.take(ci as int));
        }
        return;
    }
    let max_start = n - g - tail;
    let mut start = ci;
    proof {
        lemma_fresh_none(out@, out0.len() as int, ci as int, ci as int, b0.take(ci as int));
    }
    loop
        invariant_except_break
            out@.len() - out0.len() + exp2((n - start + 1) as nat) <= exp2((n - ci + 1) as nat),
            nonzero(clues@) ==> started_before(out@, out0.len() as int, ci as int, start as int),
        invariant
            ci <= start <= max_start,
            max_start + g + tail == n,
            n == orig.len(),
            o == orig@,
            q == clues@.skip(qi as int),
            q.drop_first() == clues@.skip(qi + 1),
            qi < clues.len(),
            g == clues@[qi as int],
            tail == clamp_usize((clue_total(clues@.skip(qi + 1)) + (clues.len() - qi - 1)) as nat),
            buf@ == b0,
            b0.len() == n,
            b0.skip(ci as int) == orig@.skip(ci as int),
            is_full(b0.take(ci as int)),
            agrees(b0.take(ci as int), orig@.take(ci as int)),
            prefix_ok(b0.take(ci as int), (n - ci) as nat, qi as int, clues@),
            out@.len() >= out0.len(),
            out@.take(out0.len() as int) == out0,
            all_completions(out@, out0.len() as int, orig@, clues@),
            forall|p: int| ci <= p < start ==> orig@[p] != Cell::Filled,
            prefixed(out@, out0.len() as int, b0.take(ci as int)),
            nonzero(clues@) ==> distinct_from(out@, out0.len() as int),
            nonzero(clues@) ==> ordered_from(out@, out0.len() as int),
            forall|l: Seq<Cell>, s: int|
                is_completion(l, orig@, clues@) && l.take(ci as int) == b0.take(ci as int) && #[trigger] decomp(
                    l.skip(ci as int),
                    q,
                    s,
                ) && ci + s < start ==> listed(out@, out0.len() as int, l),
        ensures
            buf@ == b0,
            out@.len() >= out0.len(),
            out@.take(out0.len() as int) == out0,
            out@.len() - out0.len() <= exp2((n - ci + 1) as nat),
            all_completions(out@, out0.len() as int, orig@, clues@),
            forall|l: Seq<Cell>|
                is_completion(l, orig@, clues@) && l.take(ci as int) == b0.take(ci as int) && fits(
                    l.skip(ci as int),
                    clues@.skip(qi as int),
                ) ==> listed(out@, out0.len() as int, l),
            prefixed(out@, out0.len() as int, b0.take(ci as int)),
            nonzero(clues@) ==> distinct_from(out@, out0.len() as int),
            nonzero(clues@) ==> ordered_from(out@, out0.len() as int),
        decreases max_start - start,
    {
        let ghost len_before = out@.len();
        let mut blocked = false;
        let mut k = start;
        while k < start + g
            invariant
                start <= k <= start + g,
                start + g <= n,
                n == orig.len(),
                blocked == (exists|j: int| start <= j < k && orig@[j] == Cell::Empty),
            decreases start + g - k,
        {
            if orig[k] == Cell::Empty {
                blocked = true;
            }
            k += 1;
        }
        let after_filled = start + g < n && orig[start + g] == Cell::Filled;
        if !blocked && !after_filled {
            let mut i = ci;
            while i < start
                invariant
                    ci <= i <= start,
                    start + g <= n,
                    buf@.len() == n,
                    b0.len() == n,
                    forall|p: int| 0 <= p < ci ==> buf@[p] == b0[p],
                    forall|p: int| ci <= p < i ==> buf@[p] == Cell::Empty,
                    forall|p: int| i <= p < n ==> buf@[p] == b0[p],
                decreases start - i,
            {
                buf.set(i, Cell::Empty);
                i += 1;
            }
            let mut i = start;
            while i < start + g
                invariant
                    start <= i <= start + g,
                    ci <= start,
                    start + g <= n,
                    buf@.len() == n,
                    b0.len() == n,
                    forall|p: int| 0 <= p < ci ==> buf@[p] == b0[p],
                    forall|p: int| ci <= p < start ==> buf@[p] == Cell::Empty,
                    forall|p: int| start <= p < i ==> buf@[p] == Cell::Filled,
                    forall|p: int| i <= p < n ==> buf@[p] == b0[p],
                decreases start + g - i,
            {
                buf.set(i, Cell::Filled);
                i += 1;
            }
            let next_ci = if start + g < n {
                buf.set(start + g, Cell::Empty);
                start + g + 1
            } else {
                n
            };
            let ghost b1 = buf@;
            proof {
                if start + g == n {
                    assert(tail == 0);
                    assert(clues.len() - qi - 1 == 0);
                }
                place_step_setup(
                    orig@,
                    b0,
                    b1,
                    ci as int,
                    start as int,
                    g as int,
                    next_ci as int,
                    qi as int,
                    clues@,
                );
            }
            let ghost out1 = out@;
            place(orig, buf, next_ci, clues, qi + 1, out);
            let ghost out2 = out@;
            let mut i = ci;
            while i < next_ci
                invariant
                    ci <= i <= next_ci,
                    next_ci <= n,
                    n == orig.len(),
                    buf@.len() == n,
                    b0.len() == n,
                    forall|p: int| 0 <= p < ci ==> buf@[p] == b0[p],
                    forall|p: int| ci <= p < i ==> buf@[p] == orig@[p],
                    forall|p: int| i <= p < n ==> buf@[p] == b1[p],
                    forall|p: int| 0 <= p < ci ==> b1[p] == b0[p],
                    b1.skip(next_ci as int) == orig@.skip(next_ci as int),
                    b1.len() == n,
                decreases next_ci - i,
            {
                buf.set(i, orig[i]);
                i += 1;
            }
            proof {
                assert forall|p: int| 0 <= p < n implies buf@[p] == b0[p] by {
                    if p >= next_ci {
                        assert(b1.skip(next_ci as int)[p - next_ci] == orig@.skip(next_ci as int)[p - next_ci]);
                    }
                    if p >= ci {
                        assert(b0.skip(ci as int)[p - ci] == orig@.skip(ci as int)[p - ci]);
                    }
                }
                assert(buf@ =~= b0);
                assert(out2.take(out0.len() as int) =~= out0) by {
                    assert forall|p: int| 0 <= p < out0.len() implies out2[p] == out0[p] by {
                        assert(out2.take(out1.len() as int)[p] == out1[p]);
                        assert(out1.take(out0.len() as int)[p] == out0[p]);
                    }
                }
                assert forall|p: int| out0.len() <= p < out2.len() implies is_completion(
                    #[trigger] out2[p]@,
                    orig@,
                    clues@,
                ) by {
                    if p < out1.len() {
                        assert(out2.take(out1.len() as int)[p] == out1[p]);
                    }
                }
                assert forall|l: Seq<Cell>, s: int|
                    is_completion(l, orig@, clues@) && l.take(ci as int) == b0.take(ci as int) && #[trigger] decomp(
                        l.skip(ci as int),
                        q,
                        s,
                    ) && ci + s < start + 1 implies listed(out2, out0.len() as int, l) by {
                    if ci + s < start {
                        assert(listed(out1, out0.len() as int, l));
                        let w = choose|w: int| out0.len() <= w < out1.len() && #[trigger] out1[w]@ == l;
                        assert(out2.take(out1.len() as int)[w] == out1[w]);
                        assert(out2[w]@ == l);
                    } else {
                        place_step_complete(
                            orig@,
                            b0,
                            b1,
                            l,
                            ci as int,
                            start as int,
                            g as int,
                            next_ci as int,
                            qi as int,
                            clues@,
                            s,
                        );
                        assert(listed(out2, out1.len() as int, l));
                        let w = choose|w: int| out1.len() <= w < out2.len() && #[trigger] out2[w]@ == l;
                        assert(out2[w]@ == l);
                    }
                }
                assert forall|p: int| out1.len() <= p < out2.len() implies (#[trigger] out2[p]@).len() == b1.len() by {
                    assert(is_completion(out2[p]@, orig@, clues@));
                }
                assert(b1.take(ci as int) =~= b0.take(ci as int));
                if nonzero(clues@) {
                    assert(g == clues@[qi as int] && g > 0);
                    assert(b1[start as int] == Cell::Filled);
                    lemma_fresh_join(
                        out1,
                        out2,
                        out0.len() as int,
                        ci as int,
                        start as int,
                        next_ci as int,
                        b0,
                        b1,
                    );
                } else {
                    lemma_prefixed_join(out1, out2, out0.len() as int, ci as int, next_ci as int, b0, b1);
                }
                lemma_exp2_step((n - start) as nat);
                lemma_exp2_pos((n - start) as nat);
                if start + g < n {
                    lemma_exp2_mono((n - next_ci + 1) as nat, (n - start) as nat);
                } else if start < n {
                    lemma_exp2_mono(1, (n - start) as nat);
                }
                assert(out2.len() - len_before <= exp2((n - start + 1) as nat));
                assert(start < n ==> out2.len() - len_before <= exp2((n - start) as nat));
            }
        } else {
            proof {
                assert forall|l: Seq<Cell>, s: int|
                    is_completion(l, orig@, clues@) && l.take(ci as int) == b0.take(ci as int) && #[trigger] decomp(
                        l.skip(ci as int),
                        q,
                        s,
                    ) && ci + s < start + 1 implies listed(out@, out0.len() as int, l) by {
                    if ci + s == start {
                        let t = l.skip(ci as int);
                        if blocked {
                            let j = choose|j: int| start <= j < start + g && orig@[j] == Cell::Empty;
                            assert(t[j - ci] == l[j]);
                        } else {
                            assert(t[start + g - ci] == l[start + g]);
                        }
                    }
                }
                lemma_exp2_step((n - start) as nat);
                lemma_exp2_pos((n - start) as nat);
                if nonzero(clues@) {
                    lemma_started_later(out@, out0.len() as int, ci as int, start as int);
                }
            }
        }
        if start == max_start {
            proof {
                assert forall|l: Seq<Cell>|
                    is_completion(l, orig@, clues@) && l.take(ci as int) == b0.take(ci as int) && fits(
                        l.skip(ci as int),
                        clues@.skip(qi as int),
                    ) implies listed(out@, out0.len() as int, l) by {
                    let t = l.skip(ci as int);
                    let s = lemma_fits_decompose(t, q);
                    if q.drop_first().len() > 0 {
                        if s + q[0] < t.len() {
                            lemma_fits_min_len(t.skip(s + q[0] + 1), q.drop_first());
                        }
                    }
                    assert(ci + s <= max_start);
                }
            }
            break;
        }
        if orig[start] == Cell::Filled {
            proof {
                assert forall|l: Seq<Cell>|
                    is_completion(l, orig@, clues@) && l.take(ci as int) == b0.take(ci as int) && fits(
                        l.skip(ci as int),
                        clues@.skip(qi as int),
                    ) implies listed(out@, out0.len() as int, l) by {
                    let t = l.skip(ci as int);
                    let s = lemma_fits_decompose(t, q);
                    if ci + s > start {
                        assert(t[start - ci] == l[start as int]);
                    }
                }
            }
            break;
        }
        start += 1;
    }
}

/// Every completion of the partial line `cells` under `clues`, in listing
/// order: with every clue at least one, each completion appears once and
/// comes before those whose first differently placed block starts
/// further right.
pub fn enumerate_completions(cells: &[Cell], clues: &[usize]) -> (out: Vec<Vec<Cell>>)
    ensures
        out@.len() <= exp2((cells.len() + 1) as nat),
        all_completions(out@, 0, cells@, clues@),
        forall|l: Seq<Cell>| is_completion(l, cells@, clues@) ==> listed(out@, 0, l),
        nonzero(clues@) ==> distinct_from(out@, 0),
        nonzero(clues@) ==> ordered_from(out@, 0),
        nonzero(clues@) ==> out@.len() == placements(cells@, clues@),
{
    let mut out: Vec<Vec<Cell>> = Vec::new();
    let mut buf: Vec<Cell> = Vec::new();
    let mut i: usize = 0;
    while i < cells.len()
        invariant
            i <= cells.len(),
            buf@ == cells@.take(i as int),
        decreases cells.len() - i,
    {
        buf.push(cells[i]);
        i += 1;
        assert(buf@ =~= cells@.take(i as int));
    }
    proof {
        assert(buf@ =~= cells@);
        assert(buf@.skip(0) =~= cells@.skip(0));
        assert(buf@.take(0) =~= Seq::<Cell>::empty());
        assert(cells@.take(0) =~= Seq::<Cell>::empty());
        assert forall|t: Seq<Cell>| t.len() == cells.len() && #[trigger] fits(t, clues@.skip(0)) implies fits(
            buf@.take(0) + t,
            clues@,
        ) by {
            assert(clues@.skip(0) =~= clues@);
            assert(buf@.take(0) + t =~= t);
        }
    }
    place(cells, &mut buf, 0, clues, 0, &mut out);
    proof {
        assert forall|l: Seq<Cell>| is_completion(l, cells@, clues@) implies listed(out@, 0, l) by {
            assert(l.take(0) =~= buf@.take(0));
            assert(l.skip(0) =~= l);
            assert(clues@.skip(0) =~= clues@);
        }
        if nonzero(clues@) {
            lemma_list_counts_placements(out@, cells@, clues@);
        }
    }
    out
}

/// Number of leading filled cells of `t`.
pub open spec fn lead_filled(t: Seq<Cell>) -> nat
    decreases t.len(),
{
    if t.len() > 0 && t[0] == Cell::Filled { 1 + lead_filled(t.drop_first()) } else { 0 }
}

proof fn lemma_lead_filled(t: Seq<Cell>)
    ensures
        lead_filled(t) <= t.len(),
        forall|i: int| 0 <= i < lead_filled(t) ==> t[i] == Cell::Filled,
        lead_filled(t) == t.len() || t[lead_filled(t) as int] != Cell::Filled,
    decreases t.len(),
{
    if t.len() > 0 && t[0] == Cell::Filled {
        let u = t.drop_first();
        lemma_lead_filled(u);
        assert forall|i: int| 0 <= i < lead_filled(t) implies t[i] == Cell::Filled by {
            if i > 0 {
                assert(t[i] == u[i - 1]);
            }
        }
        if lead_filled(t) < t.len() {
            assert(t[lead_filled(t) as int] == u[lead_filled(u) as int]);
        }
    }
}

proof fn lemma_runs_acc_skip(t: Seq<Cell>, r: int, k: int)
    requires
        0 <= k <= t.len(),
        forall|i: int| 0 <= i < k ==> t[i] == Cell::Filled,
    ensures
        runs_acc(t, r) == runs_acc(t.skip(k), r + k),
    decreases k,
{
    if k > 0 {
        let u = t.drop_first();
        assert forall|i: int| 0 <= i < k - 1 implies u[i] == Cell::Filled by {
            assert(u[i] == t[i + 1]);
        }
        lemma_runs_acc_skip(u, r + 1, k - 1);
        assert(u.skip(k - 1) =~= t.skip(k));
    } else {
        assert(t.skip(0) =~= t);
    }
}

/// A fully known line whose filled runs are exactly `q` fits `q`.
pub proof fn lemma_runs_fits(t: Seq<Cell>, q: Seq<usize>)
    requires
        is_full(t),
        runs(t) == as_ints(q),
    ensures
        fits(t, q),
    decreases t.len(),
{
    if t.len() == 0 {
        assert(runs(t).len() == 0);
        assert(as_ints(q).len() == q.len());
    } else if t[0] == Cell::Empty {
        let u = t.drop_first();
        assert(runs(t) =~= runs(u));
        assert forall|i: int| 0 <= i < u.len() implies u[i] != Cell::Unknown by {
            assert(u[i] == t[i + 1]);
        }
        lemma_runs_fits(u, q);
        if q.len() == 0 {
            assert forall|k: int| 0 <= k < t.len() implies t[k] == Cell::Empty by {
                if k > 0 {
                    assert(t[k] == u[k - 1]);
                }
            }
        }
    } else {
        lemma_lead_filled(t);
        let k = lead_filled(t) as int;
        lemma_runs_acc_skip(t, 0, k);
        let rest = t.skip(k);
        if k == t.len() {
            assert(rest.len() == 0);
            assert(runs(t) =~= seq![k]);
            assert(as_ints(q).len() == q.len());
            assert(as_ints(q)[0] == q[0] as int);
        } else {
            assert(rest[0] == t[k]);
            assert(rest[0] == Cell::Empty);
            assert(rest.drop_first() =~= t.skip(k + 1));
            let u = t.skip(k + 1);
            assert(runs(t) =~= seq![k] + runs(u));
            assert(as_ints(q).len() == q.len());
            assert(as_ints(q)[0] == q[0] as int);
            assert(as_ints(q.drop_first()) =~= as_ints(q).drop_first());
            assert(runs(u) =~= (seq![k] + runs(u)).drop_first());
            assert forall|i: int| 0 <= i < u.len() implies u[i] != Cell::Unknown by {
                assert(u[i] == t[i + k + 1]);
            }
            lemma_runs_fits(u, q.drop_first());
        }
    }
}

} // verus!
