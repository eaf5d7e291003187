//! Counting filled cells: a solved grid's row clues and column clues both
//! add up to its number of filled cells, so clue totals that differ rule
//! out every solution.
use vstd::prelude::*;
use crate::types::{
    CellState, Puzzle, clue_ints, clue_lists, clues_sum, filled_runs, filled_runs_from, grid_col, grid_row,
    line_sum,
};

verus! {

/// `f(0) + f(1) + ... + f(n - 1)`.
pub open spec fn sum_to(n: nat, f: spec_fn(int) -> int) -> int
    decreases n,
{
    if n == 0 {
        0
    } else {
        sum_to((n - 1) as nat, f) + f(n - 1)
    }
}

proof fn lemma_sum_ext(n: nat, f: spec_fn(int) -> int, g: spec_fn(int) -> int)
    requires
        forall|i: int| 0 <= i < n ==> #[trigger] f(i) == g(i),
    ensures
        sum_to(n, f) == sum_to(n, g),
    decreases n,
{
    if n > 0 {
        lemma_sum_ext((n - 1) as nat, f, g);
    }
}

proof fn lemma_sum_add(n: nat, f: spec_fn(int) -> int, g: spec_fn(int) -> int)
    ensures
        sum_to(n, |i: int| f(i) + g(i)) == sum_to(n, f) + sum_to(n, g),
    decreases n,
{
    if n > 0 {
        lemma_sum_add((n - 1) as nat, f, g);
    }
}

proof fn lemma_sum_zero(n: nat)
    ensures
        sum_to(n, |i: int| 0int) == 0,
    decreases n,
{
    if n > 0 {
        lemma_sum_zero((n - 1) as nat);
    }
}

proof fn lemma_sum_shift(n: nat, f: spec_fn(int) -> int)
    requires
        n > 0,
    ensures
        sum_to(n, f) == f(0) + sum_to((n - 1) as nat, |i: int| f(i + 1)),
    decreases n,
{
    let g = |i: int| f(i + 1);
    if n > 1 {
        lemma_sum_shift((n - 1) as nat, f);
        assert(sum_to((n - 1) as nat, g) == sum_to((n - 2) as nat, g) + g(n - 2));
    } else {
        assert(sum_to(0, g) == 0);
        assert(sum_to(1, f) == sum_to(0, f) + f(0));
    }
}

/// Summing a table by rows or by columns gives the same total.
proof fn lemma_sum_swap(h: nat, w: nat, f: spec_fn(int, int) -> int)
    ensures
        sum_to(h, |r: int| sum_to(w, |c: int| f(r, c))) == sum_to(w, |c: int| sum_to(h, |r: int| f(r, c))),
    decreases h,
{
    if h == 0 {
        lemma_sum_ext(w, |c: int| sum_to(0, |r: int| f(r, c)), |i: int| 0int);
        lemma_sum_zero(w);
    } else {
        let hm = (h - 1) as nat;
        lemma_sum_swap(hm, w, f);
        let a = |c: int| sum_to(hm, |r: int| f(r, c));
        let b = |c: int| f(hm as int, c);
        lemma_sum_ext(w, |c: int| sum_to(h, |r: int| f(r, c)), |i: int| a(i) + b(i));
        lemma_sum_add(w, a, b);
    }
}

/// 1 if cell `i` of `l` is filled, else 0.
pub open spec fn filled_at(l: Seq<CellState>, i: int) -> int {
    if l[i] == CellState::Filled { 1 } else { 0 }
}

/// Number of filled cells of `l`.
pub open spec fn count_filled(l: Seq<CellState>) -> int {
    sum_to(l.len(), |i: int| filled_at(l, i))
}

proof fn lemma_count_drop_first(l: Seq<CellState>)
    requires
        l.len() > 0,
    ensures
        count_filled(l) == filled_at(l, 0) + count_filled(l.drop_first()),
{
    let f = |i: int| filled_at(l, i);
    lemma_sum_shift(l.len(), f);
    lemma_sum_ext((l.len() - 1) as nat, |i: int| f(i + 1), |i: int| filled_at(l.drop_first(), i));
}

/// Sum of a sequence of integers.
pub open spec fn seq_total(s: Seq<int>) -> int
    decreases s.len(),
{
    if s.len() == 0 {
        0
    } else {
        s[0] + seq_total(s.drop_first())
    }
}

proof fn lemma_seq_total_concat(a: Seq<int>, b: Seq<int>)
    ensures
        seq_total(a + b) == seq_total(a) + seq_total(b),
    decreases a.len(),
{
    if a.len() == 0 {
        assert(a + b =~= b);
    } else {
        lemma_seq_total_concat(a.drop_first(), b);
        assert((a + b).drop_first() =~= a.drop_first() + b);
    }
}

proof fn lemma_seq_total_single(x: int)
    ensures
        seq_total(seq![x]) == x,
{
    let s = seq![x];
    assert(s.len() == 1 && s[0] == x);
    assert(s.drop_first() =~= Seq::<int>::empty());
    assert(seq_total(s.drop_first()) == 0);
}

/// The runs of filled cells add up to the number of filled cells.
proof fn lemma_runs_total(l: Seq<CellState>, run: int)
    requires
        run >= 0,
    ensures
        seq_total(filled_runs_from(l, run)) == run + count_filled(l),
    decreases l.len(),
{
    if l.len() == 0 {
        if run > 0 {
            lemma_seq_total_single(run);
        }
    } else {
        lemma_count_drop_first(l);
        if l[0] == CellState::Filled {
            lemma_runs_total(l.drop_first(), run + 1);
        } else {
            lemma_runs_total(l.drop_first(), 0);
            let pre = if run > 0 { seq![run] } else { Seq::<int>::empty() };
            lemma_seq_total_concat(pre, filled_runs_from(l.drop_first(), 0));
            if run > 0 {
                lemma_seq_total_single(run);
            }
        }
    }
}

proof fn lemma_line_sum_total(q: Seq<u32>)
    ensures
        line_sum(q) == seq_total(clue_ints(q)),
    decreases q.len(),
{
    if q.len() == 0 {
    } else {
        lemma_line_sum_total(q.drop_last());
        assert(clue_ints(q) =~= clue_ints(q.drop_last()) + seq![q.last() as int]);
        lemma_seq_total_concat(clue_ints(q.drop_last()), seq![q.last() as int]);
        lemma_seq_total_single(q.last() as int);
    }
}

proof fn lemma_clues_sum_as_sum(v: Seq<Seq<u32>>)
    ensures
        clues_sum(v) == sum_to(v.len(), |r: int| line_sum(v[r])),
    decreases v.len(),
{
    if v.len() > 0 {
        let vm = v.drop_last();
        lemma_clues_sum_as_sum(vm);
        lemma_sum_ext(vm.len(), |r: int| line_sum(vm[r]), |r: int| line_sum(v[r]));
    }
}

/// In a solved grid, the row clues and the column clues add up to the same
/// total: the number of filled cells.
pub proof fn lemma_solution_totals(p: &Puzzle, g: Seq<CellState>)
    requires
        p.wf(),
        p.solved_by(g),
    ensures
        clues_sum(clue_lists(p.row_clues@)) == clues_sum(clue_lists(p.col_clues@)),
{
    let h = p.height as nat;
    let w = p.width as nat;
    let rows = clue_lists(p.row_clues@);
    let cols = clue_lists(p.col_clues@);
    let f = |r: int, c: int| filled_at(g, r * w + c);
    assert(g.len() == h * w) by (nonlinear_arith)
        requires
            g.len() == p.width * p.height,
            h == p.height,
            w == p.width,
    ;
    assert forall|r: int| 0 <= r < h implies #[trigger] line_sum(rows[r]) == sum_to(w, |c: int| f(r, c)) by {
        let l = grid_row(g, w, r);
        assert(filled_runs(l) == clue_ints(p.row_clues@[r]@));
        lemma_line_sum_total(rows[r]);
        lemma_runs_total(l, 0);
        if w > 0 {
            crate::search::lemma_cell_index(r, 0, h as int, w as int);
        } else {
            assert(r * w == 0) by (nonlinear_arith)
                requires
                    w == 0,
            ;
        }
        assert(l.len() == w);
        assert forall|c: int| 0 <= c < w implies filled_at(l, c) == f(r, c) by {
            crate::search::lemma_cell_index(r, c, h as int, w as int);
        }
        lemma_sum_ext(w, |i: int| filled_at(l, i), |c: int| f(r, c));
    }
    assert forall|c: int| 0 <= c < w implies #[trigger] line_sum(cols[c]) == sum_to(h, |r: int| f(r, c)) by {
        let l = grid_col(g, h, w, c);
        assert(filled_runs(l) == clue_ints(p.col_clues@[c]@));
        lemma_line_sum_total(cols[c]);
        lemma_runs_total(l, 0);
        lemma_sum_ext(h, |i: int| filled_at(l, i), |r: int| f(r, c));
    }
    lemma_clues_sum_as_sum(rows);
    lemma_clues_sum_as_sum(cols);
    lemma_sum_ext(h, |r: int| line_sum(rows[r]), |r: int| sum_to(w, |c: int| f(r, c)));
    lemma_sum_ext(w, |c: int| line_sum(cols[c]), |c: int| sum_to(h, |r: int| f(r, c)));
    lemma_sum_swap(h, w, f);
}

} // verus!
