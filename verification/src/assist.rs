//! Play assistance for a grid being filled in: stepping through a solve
//! trace, checking lines against their clues, clues already satisfied at
//! the line ends, cells forced empty by edge-confirmed runs, the filled
//! runs under the cursor, and axis-locked drag strokes.
use vstd::prelude::*;
use crate::types::{
    CellState, Puzzle, SolveResult, apply_changes, blank, clue_ints, filled_runs, filled_runs_from, grid_col,
    grid_row, replay,
};

verus! {

/// Every change of the first `k` steps lies inside a grid of width `w` and
/// `n` cells.
pub open spec fn changes_in_grid(steps: Seq<crate::types::SolveStep>, k: int, w: nat, n: nat) -> bool {
    forall|i: int, j: int|
        0 <= i < k && 0 <= j < steps[i].cells_changed@.len() ==> {
            let ch = #[trigger] steps[i].cells_changed@[j];
            &&& ch.1 < w
            &&& ch.0 * w + ch.1 < n
        }
}

/// Copies a grid of cell states.
pub fn copy_states(g: &Vec<CellState>) -> (r: Vec<CellState>)
    ensures
        r@ == g@,
{
    let mut r: Vec<CellState> = Vec::new();
    let mut i: usize = 0;
    while i < g.len()
        invariant
            i <= g@.len(),
            r@ == g@.take(i as int),
        decreases g@.len() - i,
    {
        r.push(g[i]);
        i += 1;
        assert(r@ =~= g@.take(i as int));
    }
    assert(g@.take(g@.len() as int) =~= g@);
    r
}

/// The grid after the first `cursor` steps of a solve trace, replayed onto a
/// blank grid; at or past the end of the trace, the solve's final grid.
pub fn grid_at_step(puzzle: &Puzzle, result: &SolveResult, cursor: usize) -> (g: Vec<CellState>)
    requires
        puzzle.width * puzzle.height <= usize::MAX,
        cursor < result.steps@.len() ==> changes_in_grid(
            result.steps@,
            cursor as int,
            puzzle.width as nat,
            (puzzle.width * puzzle.height) as nat,
        ),
    ensures
        cursor >= result.steps@.len() ==> g@ == result.grid@,
        cursor < result.steps@.len() ==> g@ == replay(
            blank((puzzle.width * puzzle.height) as nat),
            puzzle.width as nat,
            result.steps@.take(cursor as int),
        ),
{
    if result.steps.len() == 0 || cursor >= result.steps.len() {
        return copy_states(&result.grid);
    }
    let w = puzzle.width;
    let n = w * puzzle.height;
    let mut grid = crate::human::unknown_cells(n);
    let mut k: usize = 0;
    assert(result.steps@.take(0) =~= Seq::<crate::types::SolveStep>::empty());
    while k < cursor
        invariant
            k <= cursor < result.steps@.len(),
            n == w * puzzle.height,
            w == puzzle.width,
            grid@.len() == n,
            changes_in_grid(result.steps@, cursor as int, w as nat, n as nat),
            grid@ == replay(blank(n as nat), w as nat, result.steps@.take(k as int)),
        decreases cursor - k,
    {
        let changes = &result.steps[k].cells_changed;
        let ghost g0 = grid@;
        let mut j: usize = 0;
        assert(changes@.take(0) =~= Seq::<(usize, usize, CellState)>::empty());
        while j < changes.len()
            invariant
                k < cursor < result.steps@.len(),
                j <= changes@.len(),
                changes == result.steps@[k as int].cells_changed,
                n == w * puzzle.height,
                w == puzzle.width,
                grid@.len() == n,
                changes_in_grid(result.steps@, cursor as int, w as nat, n as nat),
                grid@ == apply_changes(g0, w as nat, changes@.take(j as int)),
            decreases changes@.len() - j,
        {
            let (r, c, st) = changes[j];
            proof {
                assert(changes@[j as int] == result.steps@[k as int].cells_changed@[j as int]);
                assert(changes@.take(j + 1).drop_last() =~= changes@.take(j as int));
                crate::types::lemma_apply_changes_len(g0, w as nat, changes@.take(j as int));
            }
            grid.set(r * w + c, st);
            j += 1;
        }
        proof {
            assert(changes@.take(changes@.len() as int) =~= changes@);
            assert(result.steps@.take(k + 1).drop_last() =~= result.steps@.take(k as int));
            crate::types::lemma_apply_changes_len(g0, w as nat, changes@);
        }
        k += 1;
    }
    grid
}

/// Filled runs of `cells` are exactly `clues` (unknown cells count as gaps).
pub fn check_line_fulfilled(clues: &[u32], cells: &[CellState]) -> (r: bool)
    ensures
        r == (filled_runs(cells@) == clue_ints(clues@)),
{
    let mut groups: Vec<usize> = Vec::new();
    let mut run: usize = 0;
    let mut i: usize = 0;
    assert(cells@.skip(0) =~= cells@);
    while i < cells.len()
        invariant
            0 <= i <= cells.len(),
            run <= i,
            crate::line::as_ints(groups@) + filled_runs_from(cells@.skip(i as int), run as int) == filled_runs(
                cells@,
            ),
        decreases cells.len() - i,
    {
        let ghost rest = cells@.skip(i as int);
        assert(rest[0] == cells@[i as int]);
        assert(rest.drop_first() =~= cells@.skip(i + 1));
        if cells[i] == CellState::Filled {
            run += 1;
        } else if run > 0 {
            let ghost before = groups@;
            groups.push(run);
            assert(crate::line::as_ints(groups@) =~= crate::line::as_ints(before) + seq![run as int]);
            assert(crate::line::as_ints(groups@) + filled_runs_from(cells@.skip(i + 1), 0) =~= crate::line::as_ints(
                before,
            ) + (seq![run as int] + filled_runs_from(cells@.skip(i + 1), 0)));
            run = 0;
        } else {
            assert(filled_runs_from(rest, 0) =~= filled_runs_from(cells@.skip(i + 1), 0));
        }
        i += 1;
    }
    if run > 0 {
        let ghost before = groups@;
        groups.push(run);
        assert(crate::line::as_ints(groups@) =~= crate::line::as_ints(before) + seq![run as int]);
    } else {
        assert(crate::line::as_ints(groups@) + Seq::<int>::empty() =~= crate::line::as_ints(groups@));
    }
    if groups.len() != clues.len() {
        return false;
    }
    let mut k: usize = 0;
    while k < groups.len()
        invariant
            k <= groups@.len(),
            groups@.len() == clues@.len(),
            crate::line::as_ints(groups@) == filled_runs(cells@),
            forall|m: int| 0 <= m < k ==> groups@[m] == clues@[m] as usize,
        decreases groups@.len() - k,
    {
        if groups[k] != clues[k] as usize {
            assert(crate::line::as_ints(groups@)[k as int] != clue_ints(clues@)[k as int]);
            return false;
        }
        k += 1;
    }
    assert(crate::line::as_ints(groups@) =~= clue_ints(clues@));
    true
}

impl Puzzle {
    /// Every row and column of `g` has exactly its clues as filled runs,
    /// unknown cells counting as gaps.
    pub open spec fn runs_match(&self, g: Seq<CellState>) -> bool {
        &&& forall|r: int|
            0 <= r < self.height ==> filled_runs(#[trigger] grid_row(g, self.width as nat, r)) == clue_ints(
                self.row_clues@[r]@,
            )
        &&& forall|c: int|
            0 <= c < self.width ==> filled_runs(
                #[trigger] grid_col(g, self.height as nat, self.width as nat, c),
            ) == clue_ints(self.col_clues@[c]@)
    }
}

/// A solved grid matches every clue; a grid that matches every clue and
/// has no unknown cell is solved.
pub proof fn lemma_solved_iff_runs_match(p: &Puzzle, g: Seq<CellState>)
    ensures
        p.solved_by(g) <==> (g.len() == p.width * p.height && (forall|i: int|
            0 <= i < g.len() ==> g[i] != CellState::Unknown) && p.runs_match(g)),
{
}

/// Copies row `r` of a grid of width `w`.
pub(crate) fn row_cells(grid: &[CellState], w: usize, r: usize) -> (v: Vec<CellState>)
    requires
        r * w + w <= grid@.len(),
    ensures
        v@ == grid_row(grid@, w as nat, r as int),
{
    let _len = grid.len();
    let start = r * w;
    crate::text::copy_range(grid, start, start + w)
}

/// Copies column `c` of a grid of height `h` and width `w`.
pub(crate) fn col_cells(grid: &[CellState], h: usize, w: usize, c: usize) -> (v: Vec<CellState>)
    requires
        c < w,
        grid@.len() == h * w,
    ensures
        v@ == grid_col(grid@, h as nat, w as nat, c as int),
{
    let mut v: Vec<CellState> = Vec::new();
    let mut r: usize = 0;
    let len = grid.len();
    while r < h
        invariant
            r <= h,
            c < w,
            grid@.len() == h * w,
            len == grid@.len(),
            v@ == grid_col(grid@, r as nat, w as nat, c as int),
        decreases h - r,
    {
        proof {
            crate::search::lemma_cell_index(r as int, c as int, h as int, w as int);
        }
        v.push(grid[r * w + c]);
        r += 1;
        assert(v@ =~= grid_col(grid@, r as nat, w as nat, c as int));
    }
    v
}

/// Whether every row and column of the grid matches its clues.
pub fn is_puzzle_fully_solved(puzzle: &Puzzle, grid: &[CellState]) -> (r: bool)
    requires
        puzzle.wf(),
        grid@.len() == puzzle.width * puzzle.height,
    ensures
        r == puzzle.runs_match(grid@),
{
    let w = puzzle.width;
    let h = puzzle.height;
    proof {
        assert(grid@.len() == h * w) by (nonlinear_arith)
            requires
                grid@.len() == puzzle.width * puzzle.height,
                w == puzzle.width,
                h == puzzle.height,
        ;
    }
    let mut r: usize = 0;
    while r < h
        invariant
            puzzle.wf(),
            w == puzzle.width,
            h == puzzle.height,
            grid@.len() == h * w,
            r <= h,
            forall|k: int|
                0 <= k < r ==> filled_runs(#[trigger] grid_row(grid@, w as nat, k)) == clue_ints(
                    puzzle.row_clues@[k]@,
                ),
        decreases h - r,
    {
        proof {
            if w > 0 {
                crate::search::lemma_cell_index(r as int, 0, h as int, w as int);
            } else {
                assert(r * w == 0) by (nonlinear_arith)
                    requires
                        w == 0,
                ;
            }
        }
        let cells = row_cells(grid, w, r);
        if !check_line_fulfilled(puzzle.row_clues[r].as_slice(), cells.as_slice()) {
            return false;
        }
        r += 1;
    }
    let mut c: usize = 0;
    while c < w
        invariant
            puzzle.wf(),
            w == puzzle.width,
            h == puzzle.height,
            grid@.len() == h * w,
            c <= w,
            forall|k: int|
                0 <= k < h ==> filled_runs(#[trigger] grid_row(grid@, w as nat, k)) == clue_ints(
                    puzzle.row_clues@[k]@,
                ),
            forall|k: int|
                0 <= k < c ==> filled_runs(#[trigger] grid_col(grid@, h as nat, w as nat, k)) == clue_ints(
                    puzzle.col_clues@[k]@,
                ),
        decreases w - c,
    {
        let cells = col_cells(grid, h, w, c);
        if !check_line_fulfilled(puzzle.col_clues[c].as_slice(), cells.as_slice()) {
            return false;
        }
        c += 1;
    }
    true
}

/// First index at or after `i` whose cell is not empty (or the length).
pub open spec fn skip_empty(cells: Seq<CellState>, i: nat) -> nat
    decreases cells.len() - i,
{
    if i < cells.len() && cells[i as int] == CellState::Empty {
        skip_empty(cells, i + 1)
    } else {
        i
    }
}

/// First index at or after `i` whose cell is not filled (or the length).
pub open spec fn skip_filled(cells: Seq<CellState>, i: nat) -> nat
    decreases cells.len() - i,
{
    if i < cells.len() && cells[i as int] == CellState::Filled {
        skip_filled(cells, i + 1)
    } else {
        i
    }
}

/// Last index at or before `i` whose cell is not empty (or -1).
pub open spec fn back_empty(cells: Seq<CellState>, i: int) -> int
    decreases i + 1,
{
    if i >= 0 && i < cells.len() && cells[i] == CellState::Empty {
        back_empty(cells, i - 1)
    } else {
        i
    }
}

/// Last index at or before `i` whose cell is not filled (or -1).
pub open spec fn back_filled(cells: Seq<CellState>, i: int) -> int
    decreases i + 1,
{
    if i >= 0 && i < cells.len() && cells[i] == CellState::Filled {
        back_filled(cells, i - 1)
    } else {
        i
    }
}

proof fn lemma_skip_bounds(cells: Seq<CellState>, i: nat)
    requires
        i <= cells.len(),
    ensures
        i <= skip_empty(cells, i) <= cells.len(),
        i <= skip_filled(cells, i) <= cells.len(),
        skip_filled(cells, i) < cells.len() ==> cells[skip_filled(cells, i) as int] != CellState::Filled,
        skip_empty(cells, i) < cells.len() ==> cells[skip_empty(cells, i) as int] != CellState::Empty,
    decreases cells.len() - i,
{
    if i < cells.len() {
        lemma_skip_bounds(cells, i + 1);
    }
}

proof fn lemma_back_bounds(cells: Seq<CellState>, i: int)
    requires
        -1 <= i < cells.len(),
    ensures
        -1 <= back_empty(cells, i) <= i,
        -1 <= back_filled(cells, i) <= i,
        back_filled(cells, i) >= 0 ==> cells[back_filled(cells, i)] != CellState::Filled,
        back_empty(cells, i) >= 0 ==> cells[back_empty(cells, i)] != CellState::Empty,
    decreases i + 1,
{
    if i >= 0 {
        lemma_back_bounds(cells, i - 1);
    }
}

/// How many clues, from the left, are matched by runs with a confirmed left
/// boundary, scanning from clue `ci` and cell `gi`.
pub open spec fn matched_left(clues: Seq<u32>, cells: Seq<CellState>, ci: nat, gi: nat) -> nat
    decreases cells.len() - gi,
{
    if ci >= clues.len() || gi > cells.len() {
        ci
    } else {
        let s = skip_empty(cells, gi);
        if s >= cells.len() || cells[s as int] == CellState::Unknown {
            ci
        } else {
            let e = skip_filled(cells, s);
            if e - s == clues[ci as int] as int && gi < e <= cells.len() {
                matched_left(clues, cells, ci + 1, e)
            } else {
                ci
            }
        }
    }
}

/// Index of the clue at which the right-to-left pass stops: clues above it
/// are matched by runs with a confirmed right boundary. Scans clue `ci` down
/// to `lo`, from cell `gi` leftwards.
pub open spec fn matched_right(clues: Seq<u32>, cells: Seq<CellState>, ci: int, gi: int, lo: int) -> int
    decreases gi + 1,
{
    if ci < lo || gi < -1 || gi >= cells.len() {
        ci
    } else {
        let s = back_empty(cells, gi);
        if s < 0 || cells[s] == CellState::Unknown {
            ci
        } else {
            let e = back_filled(cells, s);
            if 0 <= ci < clues.len() && s - e == clues[ci] as int && -1 <= e < gi {
                matched_right(clues, cells, ci - 1, e, lo)
            } else {
                ci
            }
        }
    }
}

/// Cells `s..e` of `cells` are a maximal run of filled cells: all filled,
/// with the line's edge or a cell that is not filled on either side.
pub open spec fn maximal_run(cells: Seq<CellState>, s: int, e: int) -> bool {
    &&& 0 <= s < e <= cells.len()
    &&& forall|x: int| s <= x < e ==> #[trigger] cells[x] == CellState::Filled
    &&& (s == 0 || cells[s - 1] != CellState::Filled)
    &&& (e == cells.len() || cells[e] != CellState::Filled)
}

/// The line has a maximal run of filled cells of length `len`.
pub open spec fn has_run_of(cells: Seq<CellState>, len: int) -> bool {
    exists|s: int, e: int| #[trigger] maximal_run(cells, s, e) && e - s == len
}

proof fn lemma_skip_runs(cells: Seq<CellState>, i: nat)
    requires
        i <= cells.len(),
    ensures
        forall|x: int| i <= x < skip_empty(cells, i) ==> cells[x] == CellState::Empty,
        forall|x: int| i <= x < skip_filled(cells, i) ==> cells[x] == CellState::Filled,
    decreases cells.len() - i,
{
    if i < cells.len() {
        lemma_skip_runs(cells, i + 1);
    }
}

proof fn lemma_back_runs(cells: Seq<CellState>, i: int)
    requires
        -1 <= i < cells.len(),
    ensures
        forall|x: int| back_empty(cells, i) < x <= i ==> cells[x] == CellState::Empty,
        forall|x: int| back_filled(cells, i) < x <= i ==> cells[x] == CellState::Filled,
    decreases i + 1,
{
    if i >= 0 {
        lemma_back_runs(cells, i - 1);
    }
}

/// Every clue the left pass matches, from clue `ci` and cell `gi` on, is
/// the length of a maximal run of filled cells.
proof fn lemma_left_runs(clues: Seq<u32>, cells: Seq<CellState>, ci: nat, gi: nat)
    requires
        gi <= cells.len(),
        gi == 0 || gi == cells.len() || cells[gi as int] != CellState::Filled,
    ensures
        forall|k: int| ci <= k < matched_left(clues, cells, ci, gi) ==> has_run_of(cells, clues[k] as int),
    decreases cells.len() - gi,
{
    if ci < clues.len() {
        lemma_skip_bounds(cells, gi);
        lemma_skip_runs(cells, gi);
        let s = skip_empty(cells, gi);
        if s < cells.len() && cells[s as int] != CellState::Unknown {
            lemma_skip_bounds(cells, s);
            lemma_skip_runs(cells, s);
            let e = skip_filled(cells, s);
            if e - s == clues[ci as int] as int && gi < e <= cells.len() {
                assert(cells[s as int] == CellState::Filled);
                assert(e > s) by {
                    if e == s {
                        assert(skip_filled(cells, s) == skip_filled(cells, s + 1));
                        lemma_skip_bounds(cells, s + 1);
                    }
                }
                assert(s == 0 || cells[s - 1] != CellState::Filled) by {
                    if s > gi {
                        assert(cells[s - 1] == CellState::Empty);
                    }
                }
                assert(maximal_run(cells, s as int, e as int));
                lemma_left_runs(clues, cells, ci + 1, e);
            }
        }
    }
}

/// Every clue the right pass matches, from clue `ci` down and cell `gi`
/// leftwards, is the length of a maximal run of filled cells.
proof fn lemma_right_runs(clues: Seq<u32>, cells: Seq<CellState>, ci: int, gi: int, lo: int)
    requires
        -1 <= gi < cells.len(),
        gi == -1 || gi == cells.len() - 1 || cells[gi] != CellState::Filled,
    ensures
        forall|k: int| matched_right(clues, cells, ci, gi, lo) < k <= ci ==> has_run_of(cells, clues[k] as int),
    decreases gi + 1,
{
    if ci >= lo {
        lemma_back_bounds(cells, gi);
        lemma_back_runs(cells, gi);
        let s = back_empty(cells, gi);
        if s >= 0 && cells[s] != CellState::Unknown {
            lemma_back_bounds(cells, s);
            lemma_back_runs(cells, s);
            let e = back_filled(cells, s);
            if 0 <= ci < clues.len() && s - e == clues[ci] as int && -1 <= e < gi {
                assert(cells[s] == CellState::Filled);
                assert(e < s) by {
                    if e == s {
                        assert(back_filled(cells, s) == back_filled(cells, s - 1));
                        lemma_back_bounds(cells, s - 1);
                    }
                }
                assert(s + 1 == cells.len() || cells[s + 1] != CellState::Filled) by {
                    if s < gi {
                        assert(cells[s + 1] == CellState::Empty);
                    }
                }
                assert(maximal_run(cells, e + 1, s + 1));
                lemma_right_runs(clues, cells, ci - 1, e, lo);
            }
        }
    }
}

/// A dimmed clue is fulfilled by the line as it stands: when clue `k` is
/// matched from the left or from the right edge, the line has a maximal run
/// of filled cells of exactly that clue's length.
pub proof fn lemma_fulfilled_clue_has_run(clues: Seq<u32>, cells: Seq<CellState>, k: int)
    requires
        0 <= k < clues.len(),
        k < matched_left(clues, cells, 0, 0) || k > matched_right(
            clues,
            cells,
            clues.len() - 1,
            cells.len() - 1,
            matched_left(clues, cells, 0, 0) as int,
        ),
    ensures
        has_run_of(cells, clues[k] as int),
{
    lemma_left_runs(clues, cells, 0, 0);
    lemma_right_runs(clues, cells, clues.len() - 1, cells.len() - 1, matched_left(clues, cells, 0, 0) as int);
}

/// Leading empty cells contribute no run.
proof fn lemma_runs_skip_empties(cells: Seq<CellState>, gi: nat)
    requires
        gi <= cells.len(),
    ensures
        filled_runs_from(cells.skip(gi as int), 0) == filled_runs_from(cells.skip(skip_empty(cells, gi) as int), 0),
    decreases cells.len() - gi,
{
    if gi < cells.len() && cells[gi as int] == CellState::Empty {
        assert(cells.skip(gi as int).drop_first() =~= cells.skip(gi as int + 1));
        assert(cells.skip(gi as int)[0] == cells[gi as int]);
        assert(filled_runs_from(cells.skip(gi as int), 0) =~= Seq::<int>::empty() + filled_runs_from(
            cells.skip(gi as int + 1),
            0,
        ));
        lemma_runs_skip_empties(cells, gi + 1);
    }
}

/// A block of filled cells from `x` to the block's end adds to the run in
/// progress.
proof fn lemma_runs_through_block(cells: Seq<CellState>, x: nat, r: int)
    requires
        x <= cells.len(),
        r >= 0,
    ensures
        filled_runs_from(cells.skip(x as int), r) == filled_runs_from(
            cells.skip(skip_filled(cells, x) as int),
            r + skip_filled(cells, x) - x,
        ),
    decreases cells.len() - x,
{
    if x < cells.len() && cells[x as int] == CellState::Filled {
        assert(cells.skip(x as int).drop_first() =~= cells.skip(x as int + 1));
        assert(cells.skip(x as int)[0] == cells[x as int]);
        lemma_runs_through_block(cells, x + 1, r + 1);
    }
}

/// On a fully known line whose runs from cell `gi` on are the clues from
/// `ci` on, the left pass matches every remaining clue.
proof fn lemma_left_all(clues: Seq<u32>, cells: Seq<CellState>, ci: nat, gi: nat)
    requires
        gi <= cells.len(),
        ci <= clues.len(),
        forall|x: int| 0 <= x < cells.len() ==> cells[x] != CellState::Unknown,
        filled_runs_from(cells.skip(gi as int), 0) == clue_ints(clues.skip(ci as int)),
    ensures
        matched_left(clues, cells, ci, gi) == clues.len(),
    decreases cells.len() - gi,
{
    if ci < clues.len() {
        lemma_skip_bounds(cells, gi);
        lemma_runs_skip_empties(cells, gi);
        let s = skip_empty(cells, gi);
        assert(clue_ints(clues.skip(ci as int)).len() > 0);
        if s >= cells.len() {
            assert(cells.skip(s as int) =~= Seq::<CellState>::empty());
        }
        assert(s < cells.len());
        assert(cells[s as int] == CellState::Filled);
        lemma_skip_bounds(cells, s);
        lemma_runs_through_block(cells, s, 0);
        let e = skip_filled(cells, s);
        assert(e > s) by {
            if e == s {
                assert(skip_filled(cells, s) == skip_filled(cells, s + 1));
                lemma_skip_bounds(cells, s + 1);
            }
        }
        let rest = filled_runs_from(cells.skip(e as int), 0);
        if e < cells.len() {
            assert(cells[e as int] == CellState::Empty);
            assert(cells.skip(e as int).drop_first() =~= cells.skip(e as int + 1));
            assert(cells.skip(e as int)[0] == cells[e as int]);
            assert(filled_runs_from(cells.skip(e as int), e - s) =~= seq![e - s] + filled_runs_from(
                cells.skip(e as int + 1),
                0,
            ));
            assert(rest =~= Seq::<int>::empty() + filled_runs_from(cells.skip(e as int + 1), 0));
        } else {
            assert(cells.skip(e as int) =~= Seq::<CellState>::empty());
        }
        assert(filled_runs_from(cells.skip(e as int), e - s) =~= seq![e - s] + rest);
        let q = clue_ints(clues.skip(ci as int));
        assert(q[0] == clues[ci as int] as int);
        assert(e - s == clues[ci as int] as int);
        assert(clue_ints(clues.skip(ci as int + 1)) =~= q.drop_first());
        assert(rest =~= q.drop_first());
        lemma_left_all(clues, cells, ci + 1, e);
    }
}

/// A fully known line whose filled runs are exactly its clues has every
/// clue dimmed: the left pass matches them all.
pub proof fn lemma_solved_line_dims_all(clues: Seq<u32>, cells: Seq<CellState>)
    requires
        forall|x: int| 0 <= x < cells.len() ==> cells[x] != CellState::Unknown,
        filled_runs(cells) == clue_ints(clues),
    ensures
        matched_left(clues, cells, 0, 0) == clues.len(),
{
    assert(cells.skip(0) =~= cells);
    assert(clues.skip(0) =~= clues);
    lemma_left_all(clues, cells, 0, 0);
}

/// The first `p` cells are known, the `p`-th is the end of a run of filled
/// cells (the next cell is not filled, or the line ends), and the runs of
/// those cells are exactly the clues `0..=k`.
pub open spec fn left_prefix_fits(clues: Seq<u32>, cells: Seq<CellState>, k: int, p: int) -> bool {
    &&& 0 < p <= cells.len()
    &&& forall|x: int| 0 <= x < p ==> #[trigger] cells[x] != CellState::Unknown
    &&& cells[p - 1] == CellState::Filled
    &&& (p == cells.len() || cells[p] != CellState::Filled)
    &&& filled_runs(cells.take(p)) == clue_ints(clues.take(k + 1))
}

/// Some known stretch from the left edge has exactly the clues `0..=k` as
/// its runs and ends a run of filled cells.
pub open spec fn left_known_through(clues: Seq<u32>, cells: Seq<CellState>, k: int) -> bool {
    exists|p: int| #[trigger] left_prefix_fits(clues, cells, k, p)
}

/// `n` copies of the state `c`.
pub open spec fn cells_of_state(c: CellState, n: nat) -> Seq<CellState> {
    Seq::new(n, |_i: int| c)
}

proof fn lemma_runs_filled_block(b: nat, r: int)
    requires
        r >= 0,
        b + r > 0,
    ensures
        filled_runs_from(cells_of_state(CellState::Filled, b), r) == seq![r + b],
    decreases b,
{
    let f = cells_of_state(CellState::Filled, b);
    if b == 0 {
        assert(f =~= Seq::<CellState>::empty());
    } else {
        assert(f.drop_first() =~= cells_of_state(CellState::Filled, (b - 1) as nat));
        lemma_runs_filled_block((b - 1) as nat, r + 1);
    }
}

proof fn lemma_runs_empties_then_block(a: nat, b: nat)
    requires
        b > 0,
    ensures
        filled_runs_from(cells_of_state(CellState::Empty, a) + cells_of_state(CellState::Filled, b), 0) == seq![b as int],
    decreases a,
{
    let t = cells_of_state(CellState::Empty, a) + cells_of_state(CellState::Filled, b);
    if a == 0 {
        assert(t =~= cells_of_state(CellState::Filled, b));
        lemma_runs_filled_block(b, 0);
    } else {
        assert(t.drop_first() =~= cells_of_state(CellState::Empty, (a - 1) as nat) + cells_of_state(CellState::Filled, b));
        assert(t[0] == CellState::Empty);
        lemma_runs_empties_then_block((a - 1) as nat, b);
        assert(filled_runs_from(t, 0) =~= Seq::<int>::empty() + filled_runs_from(t.drop_first(), 0));
    }
}

proof fn lemma_matched_left_ge(clues: Seq<u32>, cells: Seq<CellState>, ci: nat, gi: nat)
    ensures
        matched_left(clues, cells, ci, gi) >= ci,
    decreases cells.len() - gi,
{
    if ci < clues.len() && gi <= cells.len() {
        let s = skip_empty(cells, gi);
        if s < cells.len() && cells[s as int] != CellState::Unknown {
            let e = skip_filled(cells, s);
            if e - s == clues[ci as int] as int && gi < e <= cells.len() {
                lemma_matched_left_ge(clues, cells, ci + 1, e);
            }
        }
    }
}

/// Each clue the left pass matches from clue `ci` and cell `gi` ends a
/// known prefix whose runs are exactly the clues up to it.
proof fn lemma_left_prefix_sound(clues: Seq<u32>, cells: Seq<CellState>, ci: nat, gi: nat)
    requires
        gi <= cells.len(),
        ci <= clues.len(),
        forall|x: int| 0 <= x < gi ==> #[trigger] cells[x] != CellState::Unknown,
        filled_runs(cells.take(gi as int)) == clue_ints(clues.take(ci as int)),
        gi == 0 || (cells[gi - 1] == CellState::Filled && (gi == cells.len() || cells[gi as int] != CellState::Filled)),
    ensures
        forall|k: int| ci <= k < matched_left(clues, cells, ci, gi) ==> #[trigger] left_known_through(clues, cells, k),
    decreases cells.len() - gi,
{
    if ci < clues.len() {
        lemma_skip_bounds(cells, gi);
        lemma_skip_runs(cells, gi);
        let s = skip_empty(cells, gi);
        if s < cells.len() && cells[s as int] != CellState::Unknown {
            lemma_skip_bounds(cells, s);
            lemma_skip_runs(cells, s);
            let e = skip_filled(cells, s);
            if e - s == clues[ci as int] as int && gi < e <= cells.len() {
                assert(cells[s as int] == CellState::Filled);
                assert(e > s) by {
                    if e == s {
                        assert(skip_filled(cells, s) == skip_filled(cells, s + 1));
                        lemma_skip_bounds(cells, s + 1);
                    }
                }
                let mid = cells.subrange(gi as int, e as int);
                assert(mid =~= cells_of_state(CellState::Empty, (s - gi) as nat) + cells_of_state(
                    CellState::Filled,
                    (e - s) as nat,
                ));
                lemma_runs_empties_then_block((s - gi) as nat, (e - s) as nat);
                assert(cells.take(e as int) =~= cells.take(gi as int) + mid);
                if gi == 0 {
                    assert(cells.take(gi as int) + mid =~= mid);
                    assert(clues.take(ci as int).len() == 0);
                } else {
                    assert(s > gi);
                    assert(mid[0] == CellState::Empty);
                    lemma_runs_split(cells.take(gi as int), mid, 0);
                }
                assert(clue_ints(clues.take(ci as int + 1)) =~= clue_ints(clues.take(ci as int)).push(clues[ci as int] as int));
                assert(filled_runs(cells.take(e as int)) =~= clue_ints(clues.take(ci as int + 1)));
                assert forall|x: int| 0 <= x < e implies #[trigger] cells[x] != CellState::Unknown by {
                    if x >= gi && x < s {
                        assert(cells[x] == CellState::Empty);
                    }
                }
                assert(left_prefix_fits(clues, cells, ci as int, e as int));
                assert(left_known_through(clues, cells, ci as int));
                lemma_left_prefix_sound(clues, cells, ci + 1, e);
            }
        }
    }
}

/// Two lines that agree on cells `i..=j` skip the same empty and filled
/// cells up to `j`.
proof fn lemma_skips_agree(a: Seq<CellState>, b: Seq<CellState>, i: nat, j: nat)
    requires
        i <= j < a.len(),
        j < b.len(),
        forall|x: int| i <= x <= j ==> a[x] == b[x],
    ensures
        skip_empty(a, i) <= j ==> skip_empty(b, i) == skip_empty(a, i),
        skip_filled(a, i) <= j ==> skip_filled(b, i) == skip_filled(a, i),
    decreases j - i,
{
    assert(a[i as int] == b[i as int]);
    lemma_skip_bounds(a, i + 1);
    lemma_skip_bounds(b, i + 1);
    if i < j {
        lemma_skips_agree(a, b, i + 1, j);
    }
}

/// The left pass over the first `p` cells and clues `0..=k` matches them
/// all, so the pass over the whole line gets past clue `k`, when cell `p`
/// is not filled.
proof fn lemma_left_local(clues: Seq<u32>, cells: Seq<CellState>, k: int, p: int, ci: nat, gi: nat)
    requires
        0 <= k < clues.len(),
        0 < p <= cells.len(),
        p == cells.len() || cells[p] != CellState::Filled,
        gi <= p,
        ci <= k + 1,
        matched_left(clues.take(k + 1), cells.take(p), ci, gi) == k + 1,
    ensures
        matched_left(clues, cells, ci, gi) >= k + 1,
    decreases p - gi,
{
    let q = clues.take(k + 1);
    let c = cells.take(p);
    if ci == k + 1 {
        lemma_matched_left_ge(clues, cells, ci, gi);
    } else {
        lemma_skip_bounds(c, gi);
        let s = skip_empty(c, gi);
        assert(s < p && c[s as int] != CellState::Unknown);
        lemma_skip_bounds(c, s);
        let e = skip_filled(c, s);
        assert(e - s == q[ci as int] as int && gi < e <= p);
        assert(q[ci as int] == clues[ci as int]);
        lemma_skips_agree(c, cells, gi, s);
        assert(skip_empty(cells, gi) == s);
        assert(cells[s as int] == c[s as int]);
        if e < p {
            lemma_skips_agree(c, cells, s, e);
            assert(skip_filled(cells, s) == e);
        } else {
            lemma_skip_runs(c, s);
            assert forall|x: int| s <= x < e implies cells[x] == CellState::Filled by {
                assert(c[x] == cells[x]);
            }
            lemma_skip_filled_to(cells, s, e as nat);
        }
        lemma_left_local(clues, cells, k, p, ci + 1, e);
    }
}

/// A run of filled cells from `s` up to a cell that is not filled (or the
/// end) is what `skip_filled` skips.
proof fn lemma_skip_filled_to(cells: Seq<CellState>, s: nat, e: nat)
    requires
        s <= e <= cells.len(),
        forall|x: int| s <= x < e ==> cells[x] == CellState::Filled,
        e == cells.len() || cells[e as int] != CellState::Filled,
    ensures
        skip_filled(cells, s) == e,
    decreases e - s,
{
    if s < e {
        lemma_skip_filled_to(cells, s + 1, e);
    }
}

/// Clue `k` is dimmed from the left exactly when the line, read from its
/// left edge, has a known stretch ending a run of filled cells whose runs
/// are exactly the clues `0..=k`.
pub proof fn lemma_left_dim_exact(clues: Seq<u32>, cells: Seq<CellState>, k: int)
    requires
        0 <= k < clues.len(),
    ensures
        k < matched_left(clues, cells, 0, 0) <==> left_known_through(clues, cells, k),
{
    assert(cells.take(0) =~= Seq::<CellState>::empty());
    assert(clues.take(0) =~= Seq::<u32>::empty());
    assert(filled_runs(cells.take(0)) =~= Seq::<int>::empty());
    assert(clue_ints(clues.take(0)) =~= Seq::<int>::empty());
    lemma_left_prefix_sound(clues, cells, 0, 0);
    if exists|p: int| #[trigger] left_prefix_fits(clues, cells, k, p) {
        let p = choose|p: int| #[trigger] left_prefix_fits(clues, cells, k, p);
        let c = cells.take(p);
        let q = clues.take(k + 1);
        assert forall|x: int| 0 <= x < c.len() implies c[x] != CellState::Unknown by {
            assert(c[x] == cells[x]);
        }
        assert(c.skip(0) =~= c);
        assert(q.skip(0) =~= q);
        lemma_left_all(q, c, 0, 0);
        lemma_left_local(clues, cells, k, p, 0, 0);
    }
}

/// From cell `p` to the right edge the cells are known, cell `p` starts a
/// run of filled cells (the cell before is not filled, or the line starts
/// there), and the runs of those cells are exactly the clues `k..`.
pub open spec fn right_suffix_fits(clues: Seq<u32>, cells: Seq<CellState>, k: int, p: int) -> bool {
    &&& 0 <= p < cells.len()
    &&& forall|x: int| p <= x < cells.len() ==> #[trigger] cells[x] != CellState::Unknown
    &&& cells[p] == CellState::Filled
    &&& (p == 0 || cells[p - 1] != CellState::Filled)
    &&& filled_runs(cells.skip(p)) == clue_ints(clues.skip(k))
}

/// Some known stretch reaching the right edge has exactly the clues `k..`
/// as its runs and starts a run of filled cells.
pub open spec fn right_known_from(clues: Seq<u32>, cells: Seq<CellState>, k: int) -> bool {
    exists|p: int| #[trigger] right_suffix_fits(clues, cells, k, p)
}

proof fn lemma_runs_leading_empties(a: nat, t: Seq<CellState>)
    ensures
        filled_runs_from(cells_of_state(CellState::Empty, a) + t, 0) == filled_runs_from(t, 0),
    decreases a,
{
    let u = cells_of_state(CellState::Empty, a) + t;
    if a == 0 {
        assert(u =~= t);
    } else {
        assert(u.drop_first() =~= cells_of_state(CellState::Empty, (a - 1) as nat) + t);
        assert(u[0] == CellState::Empty);
        lemma_runs_leading_empties((a - 1) as nat, t);
        assert(filled_runs_from(u, 0) =~= Seq::<int>::empty() + filled_runs_from(u.drop_first(), 0));
    }
}

proof fn lemma_matched_right_le(clues: Seq<u32>, cells: Seq<CellState>, ci: int, gi: int, lo: int)
    ensures
        matched_right(clues, cells, ci, gi, lo) <= ci,
    decreases gi + 1,
{
    if ci >= lo && -1 <= gi < cells.len() {
        let s = back_empty(cells, gi);
        if s >= 0 && cells[s] != CellState::Unknown {
            let e = back_filled(cells, s);
            if 0 <= ci < clues.len() && s - e == clues[ci] as int && -1 <= e < gi {
                lemma_matched_right_le(clues, cells, ci - 1, e, lo);
            }
        }
    }
}

/// Each clue the right pass matches, from clue `ci` down and cell `gi`
/// leftwards, starts a known stretch to the right edge whose runs are
/// exactly the clues from it on.
proof fn lemma_right_suffix_sound(clues: Seq<u32>, cells: Seq<CellState>, ci: int, gi: int, lo: int)
    requires
        -1 <= gi < cells.len(),
        -1 <= ci < clues.len(),
        forall|x: int| gi < x < cells.len() ==> #[trigger] cells[x] != CellState::Unknown,
        filled_runs(cells.skip(gi + 1)) == clue_ints(clues.skip(ci + 1)),
        gi == cells.len() - 1 || (cells[gi + 1] == CellState::Filled && (gi == -1 || cells[gi] != CellState::Filled)),
    ensures
        forall|k: int| matched_right(clues, cells, ci, gi, lo) < k <= ci ==> #[trigger] right_known_from(clues, cells, k),
    decreases gi + 1,
{
    if ci >= lo {
        lemma_back_bounds(cells, gi);
        lemma_back_runs(cells, gi);
        let s = back_empty(cells, gi);
        if s >= 0 && cells[s] != CellState::Unknown {
            lemma_back_bounds(cells, s);
            lemma_back_runs(cells, s);
            let e = back_filled(cells, s);
            if 0 <= ci < clues.len() && s - e == clues[ci] as int && -1 <= e < gi {
                assert(cells[s] == CellState::Filled);
                assert(e < s) by {
                    if e == s {
                        assert(back_filled(cells, s) == back_filled(cells, s - 1));
                        lemma_back_bounds(cells, s - 1);
                    }
                }
                let b = cells_of_state(CellState::Filled, (s - e) as nat);
                let rest = cells.skip(gi + 1);
                let mid = cells_of_state(CellState::Empty, (gi - s) as nat);
                assert(cells.skip(e + 1) =~= b + (mid + rest));
                if gi == s {
                    assert(gi == cells.len() - 1);
                    assert(rest =~= Seq::<CellState>::empty());
                    assert(b + (mid + rest) =~= b);
                    lemma_runs_filled_block((s - e) as nat, 0);
                    assert(filled_runs(rest) =~= Seq::<int>::empty());
                } else {
                    assert((mid + rest)[0] == CellState::Empty);
                    lemma_runs_split(b, mid + rest, 0);
                    lemma_runs_filled_block((s - e) as nat, 0);
                    lemma_runs_leading_empties((gi - s) as nat, rest);
                }
                assert(filled_runs(cells.skip(e + 1)) =~= seq![s - e] + filled_runs(rest));
                assert(clue_ints(clues.skip(ci)) =~= seq![clues[ci] as int] + clue_ints(clues.skip(ci + 1)));
                assert forall|x: int| e + 1 <= x < cells.len() implies #[trigger] cells[x] != CellState::Unknown by {
                    if x > s && x <= gi {
                        assert(cells[x] == CellState::Empty);
                    }
                }
                assert(right_suffix_fits(clues, cells, ci, e + 1));
                assert(right_known_from(clues, cells, ci));
                lemma_right_suffix_sound(clues, cells, ci - 1, e, lo);
            }
        }
    }
}

/// On cells `p..=gi`, known, starting a run at `p` and with runs exactly
/// the clues `k..=ci`, the right pass from clue `ci` and cell `gi` gets
/// below clue `k`, as long as it may go that low.
proof fn lemma_right_suffix_complete(
    clues: Seq<u32>,
    cells: Seq<CellState>,
    ci: int,
    gi: int,
    k: int,
    p: int,
    lo: int,
)
    requires
        lo <= k <= ci < clues.len(),
        0 <= k,
        0 <= p <= gi < cells.len(),
        forall|x: int| p <= x <= gi ==> #[trigger] cells[x] != CellState::Unknown,
        cells[p] == CellState::Filled,
        p == 0 || cells[p - 1] != CellState::Filled,
        filled_runs(cells.subrange(p, gi + 1)) == clue_ints(clues.subrange(k, ci + 1)),
    ensures
        matched_right(clues, cells, ci, gi, lo) < k,
    decreases gi + 1,
{
    lemma_back_bounds(cells, gi);
    lemma_back_runs(cells, gi);
    let s = back_empty(cells, gi);
    assert(s >= p) by {
        if s < p {
            assert(cells[p] == CellState::Empty);
        }
    }
    assert(cells[s] != CellState::Empty);
    assert(cells[s] == CellState::Filled);
    lemma_back_bounds(cells, s);
    lemma_back_runs(cells, s);
    let e = back_filled(cells, s);
    assert(e >= p - 1) by {
        if e < p - 1 {
            assert(cells[p - 1] == CellState::Filled);
        }
    }
    assert(e < s) by {
        if e == s {
            assert(back_filled(cells, s) == back_filled(cells, s - 1));
            lemma_back_bounds(cells, s - 1);
        }
    }
    let whole = cells.subrange(p, gi + 1);
    let b = cells_of_state(CellState::Filled, (s - e) as nat);
    let mid = cells_of_state(CellState::Empty, (gi - s) as nat);
    let q = clue_ints(clues.subrange(k, ci + 1));
    let tail_runs = seq![s - e];
    assert(b + mid =~= cells.subrange(e + 1, gi + 1));
    if s < gi {
        assert(mid[0] == CellState::Empty);
        lemma_runs_split(b, mid, 0);
        lemma_runs_leading_empties((gi - s) as nat, Seq::<CellState>::empty());
        assert(mid + Seq::<CellState>::empty() =~= mid);
    } else {
        assert(b + mid =~= b);
    }
    lemma_runs_filled_block((s - e) as nat, 0);
    assert(filled_runs(Seq::<CellState>::empty()) =~= Seq::<int>::empty());
    assert(filled_runs(cells.subrange(e + 1, gi + 1)) =~= tail_runs);
    if e == p - 1 {
        assert(whole =~= cells.subrange(e + 1, gi + 1));
        assert(q.len() == 1);
        assert(clues.subrange(k, ci + 1).len() == ci + 1 - k);
        assert(k == ci);
        assert(q[0] == clues[ci] as int);
        lemma_matched_right_le(clues, cells, ci - 1, e, lo);
    } else {
        let front = cells.subrange(p, e);
        let c = cells.subrange(e, gi + 1);
        assert(cells[e] == CellState::Empty);
        assert(whole =~= front + c);
        assert(c[0] == CellState::Empty);
        lemma_runs_split(front, c, 0);
        assert(c.drop_first() =~= cells.subrange(e + 1, gi + 1));
        assert(filled_runs_from(c, 0) =~= Seq::<int>::empty() + filled_runs_from(c.drop_first(), 0));
        lemma_runs_trailing_empty(cells, p, e);
        let fr = filled_runs(front);
        assert(filled_runs(whole) =~= fr + tail_runs);
        assert(clues.subrange(k, ci + 1) =~= clues.subrange(k, ci).push(clues[ci]));
        assert forall|x: int| 0 <= x < q.len() implies q[x] == (clue_ints(clues.subrange(k, ci)) + seq![clues[ci] as int])[x] by {
            if x < ci - k {
                assert(clues.subrange(k, ci + 1)[x] == clues.subrange(k, ci)[x]);
            }
        }
        assert(q =~= clue_ints(clues.subrange(k, ci)) + seq![clues[ci] as int]);
        assert(q.last() == s - e);
        assert((fr + tail_runs).drop_last() =~= fr);
        assert((clue_ints(clues.subrange(k, ci)) + seq![clues[ci] as int]).drop_last() =~= clue_ints(
            clues.subrange(k, ci),
        ));
        assert(fr =~= clue_ints(clues.subrange(k, ci)));
        if k == ci {
            lemma_matched_right_le(clues, cells, ci - 1, e, lo);
        } else {
            assert(clue_ints(clues.subrange(k, ci)).len() > 0);
            assert(filled_runs(cells.subrange(p, e + 1)) == fr);
            lemma_right_suffix_complete(clues, cells, ci - 1, e, k, p, lo);
        }
    }
}

/// Clue `k` is dimmed from the right exactly when the line, read from its
/// right edge, has a known stretch starting a run of filled cells whose
/// runs are exactly the clues from `k` on, as far as the right pass may
/// go (down to the first clue the left pass did not match).
pub proof fn lemma_right_dim_exact(clues: Seq<u32>, cells: Seq<CellState>, k: int, lo: int)
    requires
        0 <= k < clues.len(),
        0 <= lo <= k,
    ensures
        k > matched_right(clues, cells, clues.len() - 1, cells.len() - 1, lo) <==> right_known_from(clues, cells, k),
{
    let n = clues.len() as int;
    let w = cells.len() as int;
    assert(cells.skip(w) =~= Seq::<CellState>::empty());
    assert(clues.skip(n) =~= Seq::<u32>::empty());
    assert(filled_runs(cells.skip(w)) =~= Seq::<int>::empty());
    assert(clue_ints(clues.skip(n)) =~= Seq::<int>::empty());
    lemma_right_suffix_sound(clues, cells, n - 1, w - 1, lo);
    if right_known_from(clues, cells, k) {
        let p = choose|p: int| #[trigger] right_suffix_fits(clues, cells, k, p);
        assert(cells.subrange(p, w) =~= cells.skip(p));
        assert(clues.subrange(k, n) =~= clues.skip(k));
        lemma_right_suffix_complete(clues, cells, n - 1, w - 1, k, p, lo);
    }
}

/// Which clues the two passes dim, in terms of the line alone: clue `k`
/// is dimmed exactly when a known stretch from the left edge has the
/// clues `0..=k` as its runs, or a known stretch to the right edge has the
/// clues `k..` as its runs, each stretch bounded by the ends of its runs.
pub proof fn lemma_dimmed_exactly(clues: Seq<u32>, cells: Seq<CellState>, k: int)
    requires
        0 <= k < clues.len(),
    ensures
        (k < matched_left(clues, cells, 0, 0) || k > matched_right(
            clues,
            cells,
            clues.len() - 1,
            cells.len() - 1,
            matched_left(clues, cells, 0, 0) as int,
        )) <==> (left_known_through(clues, cells, k) || right_known_from(clues, cells, k)),
{
    let ml = matched_left(clues, cells, 0, 0);
    lemma_left_dim_exact(clues, cells, k);
    if k >= ml {
        lemma_right_dim_exact(clues, cells, k, ml as int);
    }
}

/// A vector of `n` copies of `false`.
fn falses(n: usize) -> (v: Vec<bool>)
    ensures
        v@.len() == n,
        forall|k: int| 0 <= k < n ==> !v@[k],
{
    let mut v: Vec<bool> = Vec::new();
    let mut i: usize = 0;
    while i < n
        invariant
            i <= n,
            v@.len() == i,
            forall|k: int| 0 <= k < i ==> !v@[k],
        decreases n - i,
    {
        v.push(false);
        i += 1;
    }
    v
}

/// Advances `gi` past empty cells.
fn skip_empty_exec(cells: &[CellState], gi: usize) -> (r: usize)
    requires
        gi <= cells@.len(),
    ensures
        r == skip_empty(cells@, gi as nat),
{
    let mut g = gi;
    while g < cells.len() && cells[g] == CellState::Empty
        invariant
            gi <= g <= cells@.len(),
            skip_empty(cells@, gi as nat) == skip_empty(cells@, g as nat),
        decreases cells@.len() - g,
    {
        g += 1;
    }
    g
}

/// Advances `gi` past filled cells.
fn skip_filled_exec(cells: &[CellState], gi: usize) -> (r: usize)
    requires
        gi <= cells@.len(),
    ensures
        r == skip_filled(cells@, gi as nat),
{
    let mut g = gi;
    while g < cells.len() && cells[g] == CellState::Filled
        invariant
            gi <= g <= cells@.len(),
            skip_filled(cells@, gi as nat) == skip_filled(cells@, g as nat),
        decreases cells@.len() - g,
    {
        g += 1;
    }
    g
}

/// Moves left past empty cells; positions are one past the cell index.
fn back_empty_exec(cells: &[CellState], gj: usize) -> (r: usize)
    requires
        gj <= cells@.len(),
    ensures
        r as int - 1 == back_empty(cells@, gj as int - 1),
        r <= gj,
{
    let mut g = gj;
    while g > 0 && cells[g - 1] == CellState::Empty
        invariant
            g <= gj <= cells@.len(),
            back_empty(cells@, gj as int - 1) == back_empty(cells@, g as int - 1),
        decreases g,
    {
        g -= 1;
    }
    g
}

/// Moves left past filled cells; positions are one past the cell index.
fn back_filled_exec(cells: &[CellState], gj: usize) -> (r: usize)
    requires
        gj <= cells@.len(),
    ensures
        r as int - 1 == back_filled(cells@, gj as int - 1),
        r <= gj,
{
    let mut g = gj;
    while g > 0 && cells[g - 1] == CellState::Filled
        invariant
            g <= gj <= cells@.len(),
            back_filled(cells@, gj as int - 1) == back_filled(cells@, g as int - 1),
        decreases g,
    {
        g -= 1;
    }
    g
}

/// Which clues are individually satisfied: matched in order from the left
/// edge by runs whose left boundary is confirmed (edge or empty cell), or
/// from the right edge by runs whose right boundary is confirmed.
pub fn individually_fulfilled_clues(clues: &[u32], cells: &[CellState]) -> (dim: Vec<bool>)
    ensures
        dim@.len() == clues@.len(),
        forall|k: int|
            0 <= k < clues@.len() ==> #[trigger] dim@[k] == (k < matched_left(clues@, cells@, 0, 0) || k
                > matched_right(
                clues@,
                cells@,
                clues@.len() - 1,
                cells@.len() - 1,
                matched_left(clues@, cells@, 0, 0) as int,
            )),
        forall|k: int| 0 <= k < clues@.len() && #[trigger] dim@[k] ==> has_run_of(cells@, clues@[k] as int),
        forall|k: int| 0 <= k < clues@.len() && #[trigger] left_known_through(clues@, cells@, k) ==> dim@[k],
        forall|k: int|
            0 <= k < clues@.len() ==> (#[trigger] dim@[k] <==> (left_known_through(clues@, cells@, k) || right_known_from(
                clues@,
                cells@,
                k,
            ))),
        (forall|x: int| 0 <= x < cells@.len() ==> cells@[x] != CellState::Unknown) && filled_runs(cells@) == clue_ints(
            clues@,
        ) ==> forall|k: int| 0 <= k < clues@.len() ==> #[trigger] dim@[k],
{
    proof {
        assert forall|k: int| 0 <= k < clues@.len() && (k < matched_left(clues@, cells@, 0, 0) || k > matched_right(
            clues@,
            cells@,
            clues@.len() - 1,
            cells@.len() - 1,
            matched_left(clues@, cells@, 0, 0) as int,
        )) implies has_run_of(cells@, clues@[k] as int) by {
            lemma_fulfilled_clue_has_run(clues@, cells@, k);
        }
        assert forall|k: int| 0 <= k < clues@.len() && #[trigger] left_known_through(clues@, cells@, k) implies k
            < matched_left(clues@, cells@, 0, 0) by {
            lemma_left_dim_exact(clues@, cells@, k);
        }
        assert forall|k: int| 0 <= k < clues@.len() implies ((k < matched_left(clues@, cells@, 0, 0) || k > matched_right(
            clues@,
            cells@,
            clues@.len() - 1,
            cells@.len() - 1,
            matched_left(clues@, cells@, 0, 0) as int,
        )) <==> (left_known_through(clues@, cells@, k) || right_known_from(clues@, cells@, k))) by {
            lemma_dimmed_exactly(clues@, cells@, k);
        }
        if (forall|x: int| 0 <= x < cells@.len() ==> cells@[x] != CellState::Unknown) && filled_runs(cells@)
            == clue_ints(clues@) {
            lemma_solved_line_dims_all(clues@, cells@);
        }
    }
    let n = clues.len();
    let w = cells.len();
    let mut dim = falses(n);
    let ghost lm = matched_left(clues@, cells@, 0, 0);
    if n == 0 || w == 0 {
        proof {
            if n > 0 {
                assert(skip_empty(cells@, 0) == 0);
                assert(lm == 0);
                assert(back_empty(cells@, -1) == -1);
            }
        }
        return dim;
    }
    let mut ci: usize = 0;
    let mut gi: usize = 0;
    let mut stop = false;
    while ci < n && !stop
        invariant
            n == clues@.len(),
            w == cells@.len(),
            ci <= n,
            gi <= w,
            dim@.len() == n,
            !stop ==> lm == matched_left(clues@, cells@, ci as nat, gi as nat),
            stop ==> lm == ci,
            forall|k: int| 0 <= k < n ==> #[trigger] dim@[k] == (k < ci),
        decreases n - ci, if stop { 0int } else { 1int },
    {
        proof {
            lemma_skip_bounds(cells@, gi as nat);
        }
        let s = skip_empty_exec(cells, gi);
        if s >= w || cells[s] == CellState::Unknown {
            stop = true;
        } else {
            proof {
                lemma_skip_bounds(cells@, s as nat);
                assert(skip_filled(cells@, s as nat) == skip_filled(cells@, (s + 1) as nat));
                lemma_skip_bounds(cells@, (s + 1) as nat);
            }
            let e = skip_filled_exec(cells, s);
            if e - s == clues[ci] as usize {
                dim.set(ci, true);
                ci += 1;
                gi = e;
            } else {
                stop = true;
            }
        }
    }
    let left_matched = ci;
    assert(left_matched == lm);
    let mut cj: usize = n;
    let mut gj: usize = w;
    let ghost rm = matched_right(clues@, cells@, n - 1, w - 1, lm as int);
    stop = false;
    while cj > left_matched && !stop
        invariant
            n == clues@.len(),
            w == cells@.len(),
            left_matched == lm,
            lm <= cj <= n,
            gj <= w,
            dim@.len() == n,
            !stop ==> rm == matched_right(clues@, cells@, cj - 1, gj - 1, lm as int),
            stop ==> rm == cj - 1,
            forall|k: int| 0 <= k < n ==> #[trigger] dim@[k] == (k < lm || k >= cj),
        decreases cj, if stop { 0int } else { 1int },
    {
        proof {
            lemma_back_bounds(cells@, gj - 1);
        }
        let s = back_empty_exec(cells, gj);
        if s == 0 || cells[s - 1] == CellState::Unknown {
            stop = true;
        } else {
            proof {
                lemma_back_bounds(cells@, s - 1);
                assert(back_filled(cells@, s - 1) == back_filled(cells@, s - 2));
                lemma_back_bounds(cells@, s - 2);
            }
            let e = back_filled_exec(cells, s);
            if s - e == clues[cj - 1] as usize {
                dim.set(cj - 1, true);
                cj -= 1;
                gj = e;
            } else {
                stop = true;
            }
        }
    }
    dim
}

/// Runs confirmed on both sides, matched to the clues in order from the
/// left edge, as `(start, end)` pairs (end exclusive), scanning from clue
/// `ci` and cell `gi`.
pub open spec fn confirmed_left(clues: Seq<u32>, cells: Seq<CellState>, ci: nat, gi: nat) -> Seq<(usize, usize)>
    decreases cells.len() - gi,
{
    if ci >= clues.len() || gi > cells.len() {
        Seq::empty()
    } else {
        let s = skip_empty(cells, gi);
        if s >= cells.len() || cells[s as int] == CellState::Unknown {
            Seq::empty()
        } else {
            let e = skip_filled(cells, s);
            if e < cells.len() && cells[e as int] == CellState::Unknown {
                Seq::empty()
            } else if e - s == clues[ci as int] as int && gi < e <= cells.len() {
                seq![(s as usize, e as usize)] + confirmed_left(clues, cells, ci + 1, e)
            } else {
                Seq::empty()
            }
        }
    }
}

/// Runs confirmed on both sides, matched to the clues in order from the
/// right edge (rightmost first), scanning clue `ci` down to `lo` from cell
/// `gi` leftwards.
pub open spec fn confirmed_right(clues: Seq<u32>, cells: Seq<CellState>, ci: int, gi: int, lo: int) -> Seq<
    (usize, usize),
>
    decreases gi + 1,
{
    if ci < lo || gi < -1 || gi >= cells.len() {
        Seq::empty()
    } else {
        let s = back_empty(cells, gi);
        if s < 0 || cells[s] == CellState::Unknown {
            Seq::empty()
        } else {
            let e = back_filled(cells, s);
            if e >= 0 && cells[e] == CellState::Unknown {
                Seq::empty()
            } else if 0 <= ci < clues.len() && s - e == clues[ci] as int && -1 <= e < gi {
                seq![((e + 1) as usize, (s + 1) as usize)] + confirmed_right(clues, cells, ci - 1, e, lo)
            } else {
                Seq::empty()
            }
        }
    }
}

/// Left scan: runs whose both boundaries are confirmed (empty cell or
/// edge), matched to the clues in order from the left.
pub fn scan_confirmed_left(clues: &[u32], cells: &[CellState]) -> (runs: Vec<(usize, usize)>)
    ensures
        runs@ == confirmed_left(clues@, cells@, 0, 0),
{
    let n = clues.len();
    let w = cells.len();
    let mut runs: Vec<(usize, usize)> = Vec::new();
    let ghost want = confirmed_left(clues@, cells@, 0, 0);
    let mut ci: usize = 0;
    let mut gi: usize = 0;
    let mut stop = false;
    while ci < n && !stop
        invariant
            n == clues@.len(),
            w == cells@.len(),
            ci <= n,
            gi <= w,
            !stop ==> want == runs@ + confirmed_left(clues@, cells@, ci as nat, gi as nat),
            stop ==> want == runs@,
        decreases n - ci, if stop { 0int } else { 1int },
    {
        proof {
            lemma_skip_bounds(cells@, gi as nat);
        }
        let s = skip_empty_exec(cells, gi);
        if s >= w || cells[s] == CellState::Unknown {
            stop = true;
            assert(runs@ + Seq::<(usize, usize)>::empty() =~= runs@);
        } else {
            proof {
                lemma_skip_bounds(cells@, s as nat);
                assert(skip_filled(cells@, s as nat) == skip_filled(cells@, (s + 1) as nat));
                lemma_skip_bounds(cells@, (s + 1) as nat);
            }
            let e = skip_filled_exec(cells, s);
            if e < w && cells[e] == CellState::Unknown {
                stop = true;
                assert(runs@ + Seq::<(usize, usize)>::empty() =~= runs@);
            } else if e - s == clues[ci] as usize {
                let ghost before = runs@;
                runs.push((s, e));
                assert(before + (seq![(s, e)] + confirmed_left(clues@, cells@, (ci + 1) as nat, e as nat)) =~= runs@
                    + confirmed_left(clues@, cells@, (ci + 1) as nat, e as nat));
                ci += 1;
                gi = e;
            } else {
                stop = true;
                assert(runs@ + Seq::<(usize, usize)>::empty() =~= runs@);
            }
        }
    }
    proof {
        if !stop {
            assert(runs@ + Seq::<(usize, usize)>::empty() =~= runs@);
        }
    }
    runs
}

/// Right scan: runs whose both boundaries are confirmed, matched to clues
/// `skip_left..` from the right, rightmost first.
pub fn scan_confirmed_right(clues: &[u32], cells: &[CellState], skip_left: usize) -> (runs: Vec<(usize, usize)>)
    ensures
        runs@ == confirmed_right(clues@, cells@, clues@.len() - 1, cells@.len() - 1, skip_left as int),
{
    let n = clues.len();
    let w = cells.len();
    let mut runs: Vec<(usize, usize)> = Vec::new();
    let ghost want = confirmed_right(clues@, cells@, n - 1, w - 1, skip_left as int);
    let mut cj: usize = n;
    let mut gj: usize = w;
    let mut stop = false;
    proof {
        assert(runs@ + want =~= want);
    }
    while cj > skip_left && !stop
        invariant
            n == clues@.len(),
            w == cells@.len(),
            cj <= n,
            gj <= w,
            !stop ==> want == runs@ + confirmed_right(clues@, cells@, cj - 1, gj - 1, skip_left as int),
            stop ==> want == runs@,
        decreases cj, if stop { 0int } else { 1int },
    {
        proof {
            lemma_back_bounds(cells@, gj - 1);
        }
        let s = back_empty_exec(cells, gj);
        if s == 0 || cells[s - 1] == CellState::Unknown {
            stop = true;
            assert(runs@ + Seq::<(usize, usize)>::empty() =~= runs@);
        } else {
            proof {
                lemma_back_bounds(cells@, s - 1);
                assert(back_filled(cells@, s - 1) == back_filled(cells@, s - 2));
                lemma_back_bounds(cells@, s - 2);
            }
            let e = back_filled_exec(cells, s);
            if e > 0 && cells[e - 1] == CellState::Unknown {
                stop = true;
                assert(runs@ + Seq::<(usize, usize)>::empty() =~= runs@);
            } else if s - e == clues[cj - 1] as usize {
                let ghost before = runs@;
                runs.push((e, s));
                assert(before + (seq![(e, s)] + confirmed_right(clues@, cells@, cj - 2, e - 1, skip_left as int))
                    =~= runs@ + confirmed_right(clues@, cells@, cj - 2, e - 1, skip_left as int));
                cj -= 1;
                gj = e;
            } else {
                stop = true;
                assert(runs@ + Seq::<(usize, usize)>::empty() =~= runs@);
            }
        }
    }
    proof {
        if !stop {
            assert(runs@ + Seq::<(usize, usize)>::empty() =~= runs@);
        }
    }
    runs
}

/// The unknown cells with index in `a..b`, in order.
pub open spec fn unknowns_between(cells: Seq<CellState>, a: int, b: int) -> Seq<usize>
    decreases b - a,
{
    if b <= a {
        Seq::empty()
    } else {
        unknowns_between(cells, a, b - 1) + (if cells[b - 1] == CellState::Unknown {
            seq![(b - 1) as usize]
        } else {
            Seq::empty()
        })
    }
}

/// Appends the indices of the unknown cells in `a..b` to `out`.
pub fn mark_unknown_range(cells: &[CellState], a: usize, b: usize, out: &mut Vec<usize>)
    requires
        b <= cells@.len(),
    ensures
        final(out)@ == old(out)@ + unknowns_between(cells@, a as int, b as int),
{
    let ghost o = old(out)@;
    let mut i = a;
    assert(o + unknowns_between(cells@, a as int, a as int) =~= o);
    while i < b
        invariant
            a <= i,
            i <= b || b < a,
            b < a ==> i == a,
            b <= cells@.len(),
            out@ == o + unknowns_between(cells@, a as int, i as int),
        decreases b - i,
    {
        let ghost before = out@;
        if cells[i] == CellState::Unknown {
            out.push(i);
        }
        i += 1;
        assert(out@ =~= o + unknowns_between(cells@, a as int, i as int));
    }
    proof {
        if b < a {
            assert(unknowns_between(cells@, a as int, b as int) =~= Seq::<usize>::empty());
        }
    }
}

/// Every pair lies within the line, start before end.
pub open spec fn pairs_in(p: Seq<(usize, usize)>, len: nat) -> bool {
    forall|k: int| 0 <= k < p.len() ==> (#[trigger] p[k]).0 <= p[k].1 <= len
}

proof fn lemma_confirmed_left_in(clues: Seq<u32>, cells: Seq<CellState>, ci: nat, gi: nat)
    requires
        cells.len() <= usize::MAX,
    ensures
        pairs_in(confirmed_left(clues, cells, ci, gi), cells.len()),
    decreases cells.len() - gi,
{
    if ci < clues.len() && gi <= cells.len() {
        lemma_skip_bounds(cells, gi);
        let s = skip_empty(cells, gi);
        if s < cells.len() && cells[s as int] != CellState::Unknown {
            lemma_skip_bounds(cells, s);
            let e = skip_filled(cells, s);
            if e - s == clues[ci as int] as int && gi < e <= cells.len() {
                lemma_confirmed_left_in(clues, cells, ci + 1, e);
                let rest = confirmed_left(clues, cells, ci + 1, e);
                let all = seq![(s as usize, e as usize)] + rest;
                assert forall|k: int| 0 <= k < all.len() implies (#[trigger] all[k]).0 <= all[k].1 <= cells.len() by {
                    if k > 0 {
                        assert(all[k] == rest[k - 1]);
                    }
                }
            }
        }
    }
}

proof fn lemma_confirmed_right_in(clues: Seq<u32>, cells: Seq<CellState>, ci: int, gi: int, lo: int)
    requires
        cells.len() <= usize::MAX,
    ensures
        pairs_in(confirmed_right(clues, cells, ci, gi, lo), cells.len()),
    decreases gi + 1,
{
    if ci >= lo && -1 <= gi < cells.len() {
        lemma_back_bounds(cells, gi);
        let s = back_empty(cells, gi);
        if s >= 0 && cells[s] != CellState::Unknown {
            lemma_back_bounds(cells, s);
            let e = back_filled(cells, s);
            if 0 <= ci < clues.len() && s - e == clues[ci] as int && -1 <= e < gi {
                lemma_confirmed_right_in(clues, cells, ci - 1, e, lo);
                let rest = confirmed_right(clues, cells, ci - 1, e, lo);
                let all = seq![((e + 1) as usize, (s + 1) as usize)] + rest;
                assert forall|k: int| 0 <= k < all.len() implies (#[trigger] all[k]).0 <= all[k].1 <= cells.len() by {
                    if k > 0 {
                        assert(all[k] == rest[k - 1]);
                    }
                }
            }
        }
    }
}

/// Unknown cells in the gaps between consecutive left-confirmed runs,
/// over the first `k` gaps.
pub open spec fn left_gaps(cells: Seq<CellState>, left: Seq<(usize, usize)>, k: int) -> Seq<usize>
    decreases k,
{
    if k <= 0 {
        Seq::empty()
    } else {
        left_gaps(cells, left, k - 1) + unknowns_between(cells, left[k - 1].1 as int, left[k].0 as int)
    }
}

/// Unknown cells in the gaps between consecutive right-confirmed runs
/// (rightmost first), over the first `k` gaps.
pub open spec fn right_gaps(cells: Seq<CellState>, right: Seq<(usize, usize)>, k: int) -> Seq<usize>
    decreases k,
{
    if k <= 0 {
        Seq::empty()
    } else {
        right_gaps(cells, right, k - 1) + unknowns_between(cells, right[k].1 as int, right[k - 1].0 as int)
    }
}

/// The unknown cells that edge-confirmed runs force empty, with repeats:
/// before the first left run, between left runs, in the gap between the
/// two scans when together they account for every clue (from the end of
/// the last left run, or the line's start, to the start of the leftmost
/// right run, or the line's end), between right runs, and after the last
/// right run.
pub open spec fn edge_marks(clues: Seq<u32>, cells: Seq<CellState>) -> Seq<usize> {
    let left = confirmed_left(clues, cells, 0, 0);
    let right = confirmed_right(clues, cells, clues.len() - 1, cells.len() - 1, left.len() as int);
    (if left.len() > 0 { unknowns_between(cells, 0, left[0].0 as int) } else { Seq::empty() })
        + left_gaps(cells, left, left.len() - 1)
        + (if left.len() + right.len() == clues.len() && clues.len() > 0 {
        unknowns_between(cells, gap_start(left), gap_end(right, cells.len() as int))
    } else {
        Seq::empty()
    })
        + right_gaps(cells, right, right.len() - 1)
        + (if right.len() > 0 { unknowns_between(cells, right[0].1 as int, cells.len() as int) } else {
        Seq::empty()
    })
}

/// Where the gap after the left scan's runs begins: the end of its last
/// run, or the line's start when it confirmed none.
pub open spec fn gap_start(left: Seq<(usize, usize)>) -> int {
    if left.len() > 0 { left.last().1 as int } else { 0 }
}

/// Where the gap before the right scan's runs ends: the start of its
/// leftmost run, or the line's end when it confirmed none.
pub open spec fn gap_end(right: Seq<(usize, usize)>, len: int) -> int {
    if right.len() > 0 { right.last().0 as int } else { len }
}

/// Strictly increasing.
pub open spec fn increasing(s: Seq<usize>) -> bool {
    forall|i: int, j: int| 0 <= i < j < s.len() ==> s[i] < s[j]
}

/// The distinct values of `v`, in increasing order; every value is below `n`.
fn sorted_unique(v: &Vec<usize>, n: usize) -> (r: Vec<usize>)
    requires
        forall|k: int| 0 <= k < v@.len() ==> v@[k] < n,
    ensures
        increasing(r@),
        forall|x: usize| r@.contains(x) <==> v@.contains(x),
{
    let mut mask = falses(n);
    let mut k: usize = 0;
    while k < v.len()
        invariant
            k <= v@.len(),
            mask@.len() == n,
            forall|m: int| 0 <= m < v@.len() ==> v@[m] < n,
            forall|i: int| 0 <= i < n ==> #[trigger] mask@[i] == v@.take(k as int).contains(i as usize),
        decreases v@.len() - k,
    {
        let x = v[k];
        mask.set(x, true);
        k += 1;
        assert forall|i: int| 0 <= i < n implies #[trigger] mask@[i] == v@.take(k as int).contains(i as usize) by {
            assert(v@.take(k as int) =~= v@.take(k - 1).push(x));
            if mask@[i] && i != x {
                assert(v@.take(k - 1).contains(i as usize));
            }
            if i == x {
                assert(v@.take(k as int)[k - 1] == x);
            }
        }
    }
    assert(v@.take(v@.len() as int) =~= v@);
    let mut r: Vec<usize> = Vec::new();
    let mut i: usize = 0;
    while i < n
        invariant
            i <= n,
            mask@.len() == n,
            forall|j: int| 0 <= j < n ==> #[trigger] mask@[j] == v@.contains(j as usize),
            increasing(r@),
            forall|m: int| 0 <= m < r@.len() ==> r@[m] < i,
            forall|x: usize| x < i ==> (r@.contains(x) <==> v@.contains(x)),
        decreases n - i,
    {
        if mask[i] {
            let ghost before = r@;
            r.push(i);
            assert forall|x: usize| x < i + 1 implies (r@.contains(x) <==> v@.contains(x)) by {
                if x < i {
                    if r@.contains(x) {
                        let m = choose|m: int| 0 <= m < r@.len() && r@[m] == x;
                        assert(before[m] == x);
                    }
                    if v@.contains(x) {
                        assert(before.contains(x));
                        let m = choose|m: int| 0 <= m < before.len() && before[m] == x;
                        assert(r@[m] == x);
                    }
                } else {
                    assert(r@[r@.len() - 1] == i);
                }
            }
        } else {
            assert forall|x: usize| x < i + 1 implies (r@.contains(x) <==> v@.contains(x)) by {
                if x == i {
                    assert(!mask@[i as int]);
                }
            }
        }
        i += 1;
    }
    assert forall|x: usize| r@.contains(x) <==> v@.contains(x) by {
        if x >= n {
            if v@.contains(x) {
                let m = choose|m: int| 0 <= m < v@.len() && v@[m] == x;
            }
        }
    }
    r
}

proof fn lemma_unknowns_between_below(cells: Seq<CellState>, a: int, b: int)
    requires
        0 <= a,
        b <= cells.len() <= usize::MAX,
    ensures
        forall|k: int| 0 <= k < unknowns_between(cells, a, b).len() ==> #[trigger] unknowns_between(cells, a, b)[k]
            < b,
    decreases b - a,
{
    if b > a {
        lemma_unknowns_between_below(cells, a, b - 1);
        let p = unknowns_between(cells, a, b - 1);
        let all = unknowns_between(cells, a, b);
        assert forall|k: int| 0 <= k < all.len() implies #[trigger] all[k] < b by {
            if k < p.len() {
                assert(all[k] == p[k]);
            } else {
                assert(all[k] == (b - 1) as usize);
            }
        }
    }
}

/// Appends the unknown cells of `a..b` and keeps every entry below the
/// line length.
fn mark_bounded(cells: &[CellState], a: usize, b: usize, out: &mut Vec<usize>)
    requires
        b <= cells@.len(),
        forall|m: int| 0 <= m < old(out)@.len() ==> old(out)@[m] < cells@.len(),
    ensures
        final(out)@ == old(out)@ + unknowns_between(cells@, a as int, b as int),
        forall|m: int| 0 <= m < final(out)@.len() ==> final(out)@[m] < cells@.len(),
{
    let ghost o = old(out)@;
    let _len = cells.len();
    mark_unknown_range(cells, a, b, out);
    proof {
        lemma_unknowns_between_below(cells@, a as int, b as int);
        assert forall|m: int| 0 <= m < out@.len() implies out@[m] < cells@.len() by {
            if m >= o.len() {
                assert(out@[m] == unknowns_between(cells@, a as int, b as int)[m - o.len()]);
            }
        }
    }
}

/// Indices of unknown cells that are certainly empty, in increasing order:
/// before the first and after the last edge-confirmed run, between
/// consecutive confirmed runs of either scan, and between the two scans
/// when together they account for every clue; so when the runs confirmed
/// from one edge already account for every clue, every unknown cell
/// beyond the last of them is marked.
pub fn forced_empty_from_edges(clues: &[u32], cells: &[CellState]) -> (r: Vec<usize>)
    ensures
        increasing(r@),
        forall|x: usize| r@.contains(x) <==> edge_marks(clues@, cells@).contains(x),
        forall|x: usize| edge_marks(clues@, cells@).contains(x) ==> x < cells@.len(),
{
    let n = clues.len();
    let len = cells.len();
    if len == 0 {
        let r: Vec<usize> = Vec::new();
        proof {
            assert(skip_empty(cells@, 0) == 0);
            assert(back_empty(cells@, -1) == -1);
            assert(edge_marks(clues@, cells@) =~= Seq::<usize>::empty());
        }
        return r;
    }
    let left = scan_confirmed_left(clues, cells);
    let right = scan_confirmed_right(clues, cells, left.len());
    proof {
        lemma_confirmed_left_in(clues@, cells@, 0, 0);
        lemma_confirmed_right_in(clues@, cells@, n - 1, len - 1, left@.len() as int);
    }
    let ghost lv = left@;
    let ghost rv = right@;
    let mut out: Vec<usize> = Vec::new();
    let ghost head = if lv.len() > 0 { unknowns_between(cells@, 0, lv[0].0 as int) } else { Seq::empty() };
    if left.len() > 0 {
        mark_bounded(cells, 0, left[0].0, &mut out);
    }
    assert(out@ =~= head);
    let mut k: usize = 1;
    if left.len() > 1 {
        while k < left.len()
            invariant
                1 <= k <= lv.len(),
                left@ == lv,
                lv.len() > 1,
                len == cells@.len(),
                pairs_in(lv, len as nat),
                forall|m: int| 0 <= m < out@.len() ==> out@[m] < cells@.len(),
                out@ == head + left_gaps(cells@, lv, k - 1),
            decreases lv.len() - k,
        {
            mark_bounded(cells, left[k - 1].1, left[k].0, &mut out);
            k += 1;
            assert(out@ =~= head + left_gaps(cells@, lv, k - 1));
        }
    }
    let ghost after_left = head + left_gaps(cells@, lv, lv.len() - 1);
    proof {
        if lv.len() <= 1 {
            assert(left_gaps(cells@, lv, lv.len() - 1) =~= Seq::<usize>::empty());
            assert(out@ =~= after_left);
        }
    }
    let ghost mid = if lv.len() + rv.len() == n && n > 0 {
        unknowns_between(cells@, gap_start(lv), gap_end(rv, len as int))
    } else {
        Seq::empty()
    };
    if left.len() <= n && n - left.len() == right.len() && n > 0 {
        let a = if left.len() > 0 { left[left.len() - 1].1 } else { 0 };
        let b = if right.len() > 0 { right[right.len() - 1].0 } else { len };
        mark_bounded(cells, a, b, &mut out);
    }
    assert(out@ =~= after_left + mid);
    let mut k: usize = 1;
    if right.len() > 1 {
        while k < right.len()
            invariant
                1 <= k <= rv.len(),
                right@ == rv,
                rv.len() > 1,
                len == cells@.len(),
                pairs_in(rv, len as nat),
                forall|m: int| 0 <= m < out@.len() ==> out@[m] < cells@.len(),
                out@ == after_left + mid + right_gaps(cells@, rv, k - 1),
            decreases rv.len() - k,
        {
            mark_bounded(cells, right[k].1, right[k - 1].0, &mut out);
            k += 1;
            assert(out@ =~= after_left + mid + right_gaps(cells@, rv, k - 1));
        }
    }
    proof {
        if rv.len() <= 1 {
            assert(right_gaps(cells@, rv, rv.len() - 1) =~= Seq::<usize>::empty());
            assert(out@ =~= after_left + mid + right_gaps(cells@, rv, rv.len() - 1));
        }
    }
    let ghost before_tail = out@;
    if right.len() > 0 {
        mark_bounded(cells, right[0].1, len, &mut out);
    }
    assert(out@ =~= edge_marks(clues@, cells@));
    proof {
        assert forall|x: usize| edge_marks(clues@, cells@).contains(x) implies x < cells@.len() by {
            let m = choose|m: int| 0 <= m < out@.len() && out@[m] == x;
        }
    }
    sorted_unique(&out, len)
}

/// A filled run under the cursor: `fixed` is its row (horizontal) or
/// column (vertical), `start..=end` its extent along the line.
#[derive(Clone, Copy, Debug, PartialEq, Eq)]
pub struct HoverRun {
    pub fixed: usize,
    pub start: usize,
    pub end: usize,
}

/// The horizontal and vertical filled runs through the hovered cell.
#[derive(Clone, Copy, Debug, PartialEq, Eq)]
pub struct HoverRuns {
    pub h: Option<HoverRun>,
    pub v: Option<HoverRun>,
}

impl HoverRuns {
    /// No run in either direction.
    pub fn none() -> (r: Self)
        ensures
            r.h is None,
            r.v is None,
    {
        HoverRuns { h: None, v: None }
    }
}

/// First column of the filled run of row `r` that reaches column `c`.
pub open spec fn run_left(g: Seq<CellState>, w: nat, r: nat, c: nat) -> nat
    decreases c,
{
    if c > 0 && g[r * w + c - 1] == CellState::Filled {
        run_left(g, w, r, (c - 1) as nat)
    } else {
        c
    }
}

/// Last column of the filled run of row `r` that reaches column `c`.
pub open spec fn run_right(g: Seq<CellState>, w: nat, r: nat, c: nat) -> nat
    decreases w - c,
{
    if c + 1 < w && g[(r * w + c + 1) as int] == CellState::Filled {
        run_right(g, w, r, c + 1)
    } else {
        c
    }
}

/// First row of the filled run of column `c` that reaches row `r`.
pub open spec fn run_up(g: Seq<CellState>, w: nat, r: nat, c: nat) -> nat
    decreases r,
{
    if r > 0 && g[(r - 1) * w + c] == CellState::Filled {
        run_up(g, w, (r - 1) as nat, c)
    } else {
        r
    }
}

/// Last row of the filled run of column `c` that reaches row `r`, in a grid
/// of height `h`.
pub open spec fn run_down(g: Seq<CellState>, w: nat, h: nat, r: nat, c: nat) -> nat
    decreases h - r,
{
    if r + 1 < h && g[((r + 1) * w + c) as int] == CellState::Filled {
        run_down(g, w, h, r + 1, c)
    } else {
        r
    }
}

/// The filled runs through the hovered cell of the grid shown for `for_key`:
/// a direction gets a run only when it spans two or more cells.
pub fn compute_hover_runs(
    hover_cell: Option<((usize, usize), usize, usize)>,
    for_key: (usize, usize),
    puzzle: &Puzzle,
    grid: &[CellState],
) -> (res: HoverRuns)
    requires
        puzzle.width * puzzle.height <= grid@.len(),
    ensures
        match hover_cell {
            Some((k, hr, hc)) if k == for_key && hr < puzzle.height && hc < puzzle.width && grid@[hr * puzzle.width
                + hc] == CellState::Filled => {
                let w = puzzle.width as nat;
                let h = puzzle.height as nat;
                let hs = run_left(grid@, w, hr as nat, hc as nat);
                let he = run_right(grid@, w, hr as nat, hc as nat);
                let vs = run_up(grid@, w, hr as nat, hc as nat);
                let ve = run_down(grid@, w, h, hr as nat, hc as nat);
                &&& res.h == (if he > hs { Some(HoverRun { fixed: hr, start: hs as usize, end: he as usize }) } else { None })
                &&& res.v == (if ve > vs { Some(HoverRun { fixed: hc, start: vs as usize, end: ve as usize }) } else { None })
            },
            _ => res.h is None && res.v is None,
        },
{
    let (hkey, hr, hc) = match hover_cell {
        Some(v) => v,
        None => {
            return HoverRuns::none();
        },
    };
    if hkey.0 != for_key.0 || hkey.1 != for_key.1 {
        return HoverRuns::none();
    }
    let w = puzzle.width;
    let h = puzzle.height;
    let _len = grid.len();
    if hr >= h || hc >= w {
        return HoverRuns::none();
    }
    proof {
        crate::search::lemma_cell_index(hr as int, hc as int, h as int, w as int);
        assert(h * w == puzzle.width * puzzle.height) by (nonlinear_arith)
            requires
                h == puzzle.height,
                w == puzzle.width,
        ;
    }
    if grid[hr * w + hc] != CellState::Filled {
        return HoverRuns::none();
    }
    let mut hs = hc;
    while hs > 0 && grid[hr * w + hs - 1] == CellState::Filled
        invariant
            hs <= hc < w,
            hr < h,
            hr * w + w <= h * w,
            h * w <= grid@.len(),
            _len == grid@.len(),
            run_left(grid@, w as nat, hr as nat, hc as nat) == run_left(grid@, w as nat, hr as nat, hs as nat),
        decreases hs,
    {
        proof {
            crate::search::lemma_cell_index(hr as int, hs - 1, h as int, w as int);
        }
        hs -= 1;
    }
    let mut he = hc;
    while he + 1 < w && grid[hr * w + he + 1] == CellState::Filled
        invariant
            hc <= he < w,
            hr < h,
            hr * w + w <= h * w,
            h * w <= grid@.len(),
            _len == grid@.len(),
            run_right(grid@, w as nat, hr as nat, hc as nat) == run_right(grid@, w as nat, hr as nat, he as nat),
        decreases w - he,
    {
        proof {
            crate::search::lemma_cell_index(hr as int, he + 1, h as int, w as int);
        }
        he += 1;
    }
    let mut vs = hr;
    loop
        invariant
            vs <= hr < h,
            hc < w,
            h * w <= grid@.len(),
            _len == grid@.len(),
            run_up(grid@, w as nat, hr as nat, hc as nat) == run_up(grid@, w as nat, vs as nat, hc as nat),
        ensures
            vs <= hr,
            vs == 0 || grid@[(vs - 1) * w + hc] != CellState::Filled,
            run_up(grid@, w as nat, hr as nat, hc as nat) == run_up(grid@, w as nat, vs as nat, hc as nat),
        decreases vs,
    {
        if vs == 0 {
            break;
        }
        proof {
            crate::search::lemma_cell_index(vs - 1, hc as int, h as int, w as int);
        }
        if grid[(vs - 1) * w + hc] != CellState::Filled {
            break;
        }
        vs -= 1;
    }
    let mut ve = hr;
    loop
        invariant
            hr <= ve < h,
            hc < w,
            h * w <= grid@.len(),
            _len == grid@.len(),
            run_down(grid@, w as nat, h as nat, hr as nat, hc as nat) == run_down(
                grid@,
                w as nat,
                h as nat,
                ve as nat,
                hc as nat,
            ),
        ensures
            hr <= ve < h,
            ve + 1 >= h || grid@[(ve + 1) * w + hc] != CellState::Filled,
            run_down(grid@, w as nat, h as nat, hr as nat, hc as nat) == run_down(
                grid@,
                w as nat,
                h as nat,
                ve as nat,
                hc as nat,
            ),
        decreases h - ve,
    {
        if ve + 1 >= h {
            break;
        }
        proof {
            crate::search::lemma_cell_index(ve + 1, hc as int, h as int, w as int);
        }
        if grid[(ve + 1) * w + hc] != CellState::Filled {
            break;
        }
        ve += 1;
    }
    HoverRuns {
        h: if he > hs { Some(HoverRun { fixed: hr, start: hs, end: he }) } else { None },
        v: if ve > vs { Some(HoverRun { fixed: hc, start: vs, end: ve }) } else { None },
    }
}

/// The cells an axis-locked drag from `anchor` to `current` paints, as
/// `(row, col)`: along the anchor's row when the column distance is at
/// least the row distance, else along the anchor's column, in increasing
/// order.
pub open spec fn preview_spec(anchor: (usize, usize), current: (usize, usize)) -> Seq<(usize, usize)> {
    let (ar, ac) = anchor;
    let (cr, cc) = current;
    let dr = if cr >= ar { cr - ar } else { ar - cr };
    let dc = if cc >= ac { cc - ac } else { ac - cc };
    if dc >= dr {
        let c0 = if ac <= cc { ac } else { cc };
        Seq::new((dc + 1) as nat, |i: int| (ar, (c0 + i) as usize))
    } else {
        let r0 = if ar <= cr { ar } else { cr };
        Seq::new((dr + 1) as nat, |i: int| ((r0 + i) as usize, ac))
    }
}

/// The line of cells to paint for an axis-locked drag.
pub fn preview_cells(anchor: (usize, usize), current: (usize, usize)) -> (r: Vec<(usize, usize)>)
    ensures
        r@ == preview_spec(anchor, current),
{
    let (ar, ac) = anchor;
    let (cr, cc) = current;
    let dr = if cr >= ar { cr - ar } else { ar - cr };
    let dc = if cc >= ac { cc - ac } else { ac - cc };
    let mut out: Vec<(usize, usize)> = Vec::new();
    if dc >= dr {
        let (c0, c1) = if ac <= cc { (ac, cc) } else { (cc, ac) };
        let mut c = c0;
        loop
            invariant_except_break
                c0 <= c <= c1,
                c1 - c0 == dc,
                out@ == Seq::new((c - c0) as nat, |i: int| (ar, (c0 + i) as usize)),
            ensures
                out@ == Seq::new((dc + 1) as nat, |i: int| (ar, (c0 + i) as usize)),
            decreases c1 - c,
        {
            out.push((ar, c));
            assert(out@ =~= Seq::new((c + 1 - c0) as nat, |i: int| (ar, (c0 + i) as usize)));
            if c == c1 {
                break;
            }
            c += 1;
        }
    } else {
        let (r0, r1) = if ar <= cr { (ar, cr) } else { (cr, ar) };
        let mut r = r0;
        loop
            invariant_except_break
                r0 <= r <= r1,
                r1 - r0 == dr,
                out@ == Seq::new((r - r0) as nat, |i: int| ((r0 + i) as usize, ac)),
            ensures
                out@ == Seq::new((dr + 1) as nat, |i: int| ((r0 + i) as usize, ac)),
            decreases r1 - r,
        {
            out.push((r, ac));
            assert(out@ =~= Seq::new((r + 1 - r0) as nat, |i: int| ((r0 + i) as usize, ac)));
            if r == r1 {
                break;
            }
            r += 1;
        }
    }
    out
}

/// Cells a line needs at least: its clues plus one gap between each pair,
/// summed in `u32` with wrap-around.
pub open spec fn min_cells(q: Seq<u32>) -> u32 {
    vstd::wrapping::u32_specs::wrapping_add(
        crate::types::wrap_u32(crate::types::line_sum(q)),
        (if q.len() > 0 { (q.len() - 1) as usize } else { 0usize }) as u32,
    )
}

/// Index of the first line from `from` on that needs more than `bound` cells.
pub open spec fn first_too_long(v: Seq<Seq<u32>>, bound: u32, from: nat) -> Option<nat>
    decreases v.len() - from,
{
    if from >= v.len() {
        None
    } else if min_cells(v[from as int]) > bound {
        Some(from)
    } else {
        first_too_long(v, bound, from + 1)
    }
}

/// Why a puzzle is unsolvable at a glance: clue totals that differ, or a
/// line whose clues cannot fit in it.
pub open spec fn invalid_reason(p: &Puzzle) -> Option<Seq<char>> {
    let rs = crate::solver::side_total(p.row_clues@);
    let cs = crate::solver::side_total(p.col_clues@);
    let rows = crate::types::clue_lists(p.row_clues@);
    let cols = crate::types::clue_lists(p.col_clues@);
    let w = (p.col_clues@.len() as usize) as u32;
    let h = (p.row_clues@.len() as usize) as u32;
    if rs != cs {
        Some(
            "clue sums don't match (rows sum to "@ + crate::text::decimal(rs as nat) + ", cols sum to "@
                + crate::text::decimal(cs as nat) + ")"@,
        )
    } else {
        match first_too_long(rows, w, 0) {
            Some(i) => Some(
                "row "@ + crate::text::decimal(i + 1) + " requires at least "@ + crate::text::decimal(
                    min_cells(rows[i as int]) as nat,
                ) + " cells but the grid is only "@ + crate::text::decimal(w as nat) + " wide"@,
            ),
            None => match first_too_long(cols, h, 0) {
                Some(i) => Some(
                    "col "@ + crate::text::decimal(i + 1) + " requires at least "@ + crate::text::decimal(
                        min_cells(cols[i as int]) as nat,
                    ) + " cells but the grid is only "@ + crate::text::decimal(h as nat) + " tall"@,
                ),
                None => None,
            },
        }
    }
}

/// The wrapping sum of one clue list.
fn line_total(q: &[u32]) -> (t: u32)
    ensures
        t == crate::types::wrap_u32(crate::types::line_sum(q@)),
{
    let mut t: u32 = 0;
    let mut j: usize = 0;
    assert(q@.take(0) =~= Seq::<u32>::empty());
    while j < q.len()
        invariant
            j <= q@.len(),
            t == crate::types::wrap_u32(crate::types::line_sum(q@.take(j as int))),
        decreases q@.len() - j,
    {
        proof {
            crate::solver::lemma_line_sum_nonneg(q@.take(j as int));
            crate::solver::lemma_wrap_add(crate::types::line_sum(q@.take(j as int)), q@[j as int]);
            assert(q@.take(j + 1).drop_last() =~= q@.take(j as int));
        }
        t = t.wrapping_add(q[j]);
        j += 1;
    }
    assert(q@.take(q@.len() as int) =~= q@);
    t
}

/// Cells a clue list needs at least.
pub(crate) fn line_min_cells(q: &[u32]) -> (m: u32)
    ensures
        m == min_cells(q@),
{
    let gaps: usize = if q.len() > 0 { q.len() - 1 } else { 0 };
    line_total(q).wrapping_add(#[verifier::truncate] (gaps as u32))
}

/// The first line, from `from` on, that needs more than `bound` cells.
fn find_too_long(v: &Vec<Vec<u32>>, bound: u32) -> (r: Option<(usize, u32)>)
    ensures
        match r {
            Some((i, m)) => i < v@.len() && first_too_long(crate::types::clue_lists(v@), bound, 0) == Some(i as nat)
                && m == min_cells(crate::types::clue_lists(v@)[i as int]),
            None => first_too_long(crate::types::clue_lists(v@), bound, 0) is None,
        },
{
    let ghost cl = crate::types::clue_lists(v@);
    let mut i: usize = 0;
    while i < v.len()
        invariant
            i <= v@.len(),
            cl == crate::types::clue_lists(v@),
            first_too_long(cl, bound, 0) == first_too_long(cl, bound, i as nat),
        decreases v@.len() - i,
    {
        let m = line_min_cells(v[i].as_slice());
        assert(cl[i as int] == v@[i as int]@);
        if m > bound {
            return Some((i, m));
        }
        i += 1;
    }
    None
}

/// Sum of a sequence of integers.
pub open spec fn ints_total(s: Seq<int>) -> int
    decreases s.len(),
{
    if s.len() == 0 {
        0
    } else {
        s[0] + ints_total(s.drop_first())
    }
}

proof fn lemma_ints_total_last(s: Seq<int>)
    requires
        s.len() > 0,
    ensures
        ints_total(s) == ints_total(s.drop_last()) + s.last(),
    decreases s.len(),
{
    if s.len() > 1 {
        lemma_ints_total_last(s.drop_first());
        assert(s.drop_first().drop_last() =~= s.drop_last().drop_first());
        assert(s.drop_first().last() == s.last());
    } else {
        assert(s.drop_first() =~= Seq::<int>::empty());
        assert(s.drop_last() =~= Seq::<int>::empty());
    }
}

proof fn lemma_clue_total(q: Seq<u32>)
    ensures
        ints_total(crate::types::clue_ints(q)) == crate::types::line_sum(q),
        crate::types::line_sum(q) >= 0,
    decreases q.len(),
{
    if q.len() > 0 {
        lemma_clue_total(q.drop_last());
        assert(crate::types::clue_ints(q).drop_last() =~= crate::types::clue_ints(q.drop_last()));
        lemma_ints_total_last(crate::types::clue_ints(q));
    }
}

/// The runs of a line, with one empty cell between each two, fit in it:
/// their total plus their number is at most the line's length plus the
/// run in progress plus one.
proof fn lemma_runs_room(l: Seq<CellState>, run: int)
    requires
        run >= 0,
    ensures
        ints_total(filled_runs_from(l, run)) + filled_runs_from(l, run).len() <= l.len() + run + 1,
    decreases l.len(),
{
    if l.len() == 0 {
        if run > 0 {
            assert(seq![run].drop_first() =~= Seq::<int>::empty());
            assert(ints_total(seq![run]) == run + ints_total(Seq::<int>::empty()));
        } else {
            assert(filled_runs_from(l, run) =~= Seq::<int>::empty());
        }
    } else if l[0] == CellState::Filled {
        lemma_runs_room(l.drop_first(), run + 1);
    } else {
        lemma_runs_room(l.drop_first(), 0);
        if run > 0 {
            let rest = filled_runs_from(l.drop_first(), 0);
            let all = seq![run] + rest;
            assert(all.drop_first() =~= rest);
            assert(all[0] == run);
            assert(filled_runs_from(l, run) == all);
            assert(ints_total(all) == run + ints_total(rest));
        } else {
            assert(Seq::<int>::empty() + filled_runs_from(l.drop_first(), 0) =~= filled_runs_from(l.drop_first(), 0));
        }
    }
}

/// A line whose runs are the clues `q` is at least as long as the cells
/// those clues need, when it fits in a `u32`.
proof fn lemma_min_cells_fit(l: Seq<CellState>, q: Seq<u32>)
    requires
        filled_runs(l) == crate::types::clue_ints(q),
        l.len() <= u32::MAX,
    ensures
        min_cells(q) <= l.len(),
{
    lemma_runs_room(l, 0);
    lemma_clue_total(q);
    let t = crate::types::line_sum(q);
    assert(crate::types::clue_ints(q).len() == q.len());
    assert(t % 0x1_0000_0000 == t);
}

/// The line `first_too_long` finds needs more than `bound` cells.
proof fn lemma_first_too_long(v: Seq<Seq<u32>>, bound: u32, from: nat)
    ensures
        first_too_long(v, bound, from) matches Some(i) ==> from <= i < v.len() && min_cells(v[i as int]) > bound,
    decreases v.len() - from,
{
    if from < v.len() && min_cells(v[from as int]) <= bound {
        lemma_first_too_long(v, bound, from + 1);
    }
}

/// A puzzle with a reason to be unsolvable at a glance has no solution:
/// no fully known grid matches all its clues. (Dimensions above `u32::MAX`
/// are left out: the bound the clues are checked against is the dimension
/// cut to 32 bits.)
pub proof fn lemma_invalid_reason_unsolvable(p: &Puzzle, g: Seq<CellState>)
    requires
        p.wf(),
        p.width <= u32::MAX,
        p.height <= u32::MAX,
        invalid_reason(p) is Some,
    ensures
        !p.solved_by(g),
{
    if p.solved_by(g) {
        if !crate::solver::totals_agree(p) {
            crate::solver::lemma_mismatch_unsolvable(p);
        } else {
            let rows = crate::types::clue_lists(p.row_clues@);
            let cols = crate::types::clue_lists(p.col_clues@);
            let w = (p.col_clues@.len() as usize) as u32;
            let h = (p.row_clues@.len() as usize) as u32;
            assert(w == p.width);
            assert(h == p.height);
            lemma_first_too_long(rows, w, 0);
            lemma_first_too_long(cols, h, 0);
            if first_too_long(rows, w, 0) is Some {
                let i = first_too_long(rows, w, 0)->0 as int;
                let line = crate::types::grid_row(g, p.width as nat, i);
                assert(filled_runs(line) == crate::types::clue_ints(p.row_clues@[i]@));
                assert(rows[i] == p.row_clues@[i]@);
                assert(p.width * i + p.width <= p.width * p.height) by (nonlinear_arith)
                    requires
                        0 <= i < p.height,
                ;
                assert(line.len() == p.width) by {
                    assert(i * p.width == p.width * i) by (nonlinear_arith);
                }
                lemma_min_cells_fit(line, rows[i]);
            } else {
                let i = first_too_long(cols, h, 0)->0 as int;
                let line = crate::types::grid_col(g, p.height as nat, p.width as nat, i);
                assert(filled_runs(line) == crate::types::clue_ints(p.col_clues@[i]@));
                assert(cols[i] == p.col_clues@[i]@);
                lemma_min_cells_fit(line, cols[i]);
            }
        }
    }
}

/// A reason the puzzle is trivially unsolvable, found without solving.
pub fn trivial_invalid_reason(puzzle: &Puzzle) -> (r: Option<String>)
    ensures
        match r {
            Some(s) => invalid_reason(puzzle) == Some(s@),
            None => invalid_reason(puzzle) is None,
        },
{
    let row_sum = crate::solver::side_sum(&puzzle.row_clues);
    let col_sum = crate::solver::side_sum(&puzzle.col_clues);
    let mut v: Vec<char> = Vec::new();
    if row_sum != col_sum {
        crate::text::extend_str(&mut v, "clue sums don't match (rows sum to ");
        crate::text::extend_decimal(&mut v, row_sum as u64);
        crate::text::extend_str(&mut v, ", cols sum to ");
        crate::text::extend_decimal(&mut v, col_sum as u64);
        crate::text::extend_str(&mut v, ")");
        return Some(crate::text::chars_to_string(&v));
    }
    let w: u32 = #[verifier::truncate] (puzzle.col_clues.len() as u32);
    let h: u32 = #[verifier::truncate] (puzzle.row_clues.len() as u32);
    if let Some((i, min)) = find_too_long(&puzzle.row_clues, w) {
        crate::text::extend_str(&mut v, "row ");
        crate::text::extend_decimal(&mut v, (i + 1) as u64);
        crate::text::extend_str(&mut v, " requires at least ");
        crate::text::extend_decimal(&mut v, min as u64);
        crate::text::extend_str(&mut v, " cells but the grid is only ");
        crate::text::extend_decimal(&mut v, w as u64);
        crate::text::extend_str(&mut v, " wide");
        assert(v@ =~= invalid_reason(puzzle)->0);
        return Some(crate::text::chars_to_string(&v));
    }
    if let Some((i, min)) = find_too_long(&puzzle.col_clues, h) {
        crate::text::extend_str(&mut v, "col ");
        crate::text::extend_decimal(&mut v, (i + 1) as u64);
        crate::text::extend_str(&mut v, " requires at least ");
        crate::text::extend_decimal(&mut v, min as u64);
        crate::text::extend_str(&mut v, " cells but the grid is only ");
        crate::text::extend_decimal(&mut v, h as u64);
        crate::text::extend_str(&mut v, " tall");
        assert(v@ =~= invalid_reason(puzzle)->0);
        return Some(crate::text::chars_to_string(&v));
    }
    None
}


/// `g` is a way to finish the line `cells`: no unknown cell, and the cells
/// already known keep their state.
pub open spec fn completes(cells: Seq<CellState>, g: Seq<CellState>) -> bool {
    &&& g.len() == cells.len()
    &&& forall|i: int|
        0 <= i < g.len() ==> #[trigger] g[i] != CellState::Unknown && (cells[i] != CellState::Unknown ==> g[i]
            == cells[i])
}

/// No cell of `cells[a..b]` is unknown.
pub open spec fn known_in(cells: Seq<CellState>, a: int, b: int) -> bool {
    forall|i: int| a <= i < b ==> #[trigger] cells[i] != CellState::Unknown
}

/// A cell that is not filled ends the run before it.
proof fn lemma_runs_split(b: Seq<CellState>, c: Seq<CellState>, run: int)
    requires
        c.len() >= 1,
        c[0] != CellState::Filled,
    ensures
        filled_runs_from(b + c, run) == filled_runs_from(b, run) + filled_runs_from(c, 0),
    decreases b.len(),
{
    if b.len() == 0 {
        assert(b + c =~= c);
        let pre = if run > 0 { seq![run] } else { Seq::<int>::empty() };
        assert(filled_runs_from(c, 0) =~= Seq::<int>::empty() + filled_runs_from(c.drop_first(), 0));
        assert(filled_runs_from(b, run) =~= pre);
        assert(filled_runs_from(c, run) =~= pre + filled_runs_from(c.drop_first(), 0));
    } else {
        assert((b + c).drop_first() =~= b.drop_first() + c);
        assert((b + c)[0] == b[0]);
        if b[0] == CellState::Filled {
            lemma_runs_split(b.drop_first(), c, run + 1);
        } else {
            lemma_runs_split(b.drop_first(), c, 0);
            let pre = if run > 0 { seq![run] } else { Seq::<int>::empty() };
            assert(pre + (filled_runs_from(b.drop_first(), 0) + filled_runs_from(c, 0)) =~= (pre + filled_runs_from(
                b.drop_first(),
                0,
            )) + filled_runs_from(c, 0));
        }
    }
}

/// Cells that are not filled, before the rest, add no run.
proof fn lemma_runs_skip_unfilled(a: Seq<CellState>, b: Seq<CellState>)
    requires
        forall|i: int| 0 <= i < a.len() ==> a[i] != CellState::Filled,
    ensures
        filled_runs_from(a + b, 0) == filled_runs_from(b, 0),
    decreases a.len(),
{
    if a.len() == 0 {
        assert(a + b =~= b);
    } else {
        assert((a + b).drop_first() =~= a.drop_first() + b);
        assert((a + b)[0] == a[0]);
        assert(filled_runs_from(a + b, 0) =~= Seq::<int>::empty() + filled_runs_from(a.drop_first() + b, 0));
        lemma_runs_skip_unfilled(a.drop_first(), b);
    }
}

/// A block of `k` filled cells after `run` filled ones is one run.
proof fn lemma_runs_block(f: Seq<CellState>, run: int)
    requires
        forall|i: int| 0 <= i < f.len() ==> f[i] == CellState::Filled,
        run >= 0,
        run + f.len() > 0,
    ensures
        filled_runs_from(f, run) == seq![run + f.len()],
    decreases f.len(),
{
    if f.len() > 0 {
        lemma_runs_block(f.drop_first(), run + 1);
    }
}

/// A line holding a filled cell has a run.
proof fn lemma_runs_nonempty(l: Seq<CellState>, run: int, x: int)
    requires
        0 <= x < l.len(),
        l[x] == CellState::Filled,
        run >= 0,
    ensures
        filled_runs_from(l, run).len() >= 1,
    decreases l.len(),
{
    if l[0] == CellState::Filled {
        if l.len() == 1 {
            assert(filled_runs_from(l.drop_first(), run + 1) =~= seq![run + 1]);
        } else {
            lemma_runs_nonempty_or_run(l.drop_first(), run + 1);
        }
    } else {
        lemma_runs_nonempty(l.drop_first(), 0, x - 1);
    }
}

proof fn lemma_runs_nonempty_or_run(l: Seq<CellState>, run: int)
    requires
        run > 0,
    ensures
        filled_runs_from(l, run).len() >= 1,
    decreases l.len(),
{
    if l.len() > 0 {
        if l[0] == CellState::Filled {
            lemma_runs_nonempty_or_run(l.drop_first(), run + 1);
        }
    }
}


proof fn lemma_skip_cells(cells: Seq<CellState>, i: nat)
    requires
        i <= cells.len(),
    ensures
        forall|k: int| i <= k < skip_empty(cells, i) ==> cells[k] == CellState::Empty,
        forall|k: int| i <= k < skip_filled(cells, i) ==> cells[k] == CellState::Filled,
    decreases cells.len() - i,
{
    if i < cells.len() {
        lemma_skip_cells(cells, i + 1);
    }
}

proof fn lemma_back_cells(cells: Seq<CellState>, i: int)
    requires
        -1 <= i < cells.len(),
    ensures
        forall|k: int| back_empty(cells, i) < k <= i ==> cells[k] == CellState::Empty,
        forall|k: int| back_filled(cells, i) < k <= i ==> cells[k] == CellState::Filled,
    decreases i + 1,
{
    if i >= 0 {
        lemma_back_cells(cells, i - 1);
    }
}

/// The first run met scanning right from `gi`: its cells, and the empty
/// cells before it, are known, and in every way to finish the line they
/// form one run of `e - s` cells.
proof fn lemma_left_head(cells: Seq<CellState>, g: Seq<CellState>, gi: nat)
    requires
        completes(cells, g),
        gi <= cells.len(),
        skip_empty(cells, gi) < cells.len(),
        cells[skip_empty(cells, gi) as int] != CellState::Unknown,
    ensures
        ({
            let s = skip_empty(cells, gi);
            let e = skip_filled(cells, s);
            &&& gi <= s < e <= cells.len()
            &&& known_in(cells, gi as int, e as int)
            &&& filled_runs_from(g.subrange(gi as int, e as int), 0) == seq![e - s]
            &&& (e < cells.len() ==> cells[e as int] != CellState::Filled)
        }),
{
    let s = skip_empty(cells, gi);
    lemma_skip_bounds(cells, gi);
    lemma_skip_bounds(cells, s);
    let e = skip_filled(cells, s);
    assert(skip_filled(cells, s) == skip_filled(cells, s + 1));
    lemma_skip_bounds(cells, s + 1);
    lemma_skip_cells(cells, gi);
    lemma_skip_cells(cells, s);
    let head = g.subrange(gi as int, e as int);
    let ea = g.subrange(gi as int, s as int);
    let fb = g.subrange(s as int, e as int);
    assert(head =~= ea + fb);
    assert forall|i: int| 0 <= i < ea.len() implies ea[i] != CellState::Filled by {
        assert(cells[gi + i] == CellState::Empty);
        assert(g[gi + i] != CellState::Unknown);
    }
    assert forall|i: int| 0 <= i < fb.len() implies fb[i] == CellState::Filled by {
        assert(cells[s + i] == CellState::Filled);
        assert(g[s + i] != CellState::Unknown);
    }
    lemma_runs_skip_unfilled(ea, fb);
    lemma_runs_block(fb, 0);
    assert forall|i: int| gi <= i < e implies #[trigger] cells[i] != CellState::Unknown by {
        if i < s {
            assert(cells[i] == CellState::Empty);
        } else {
            assert(cells[i] == CellState::Filled);
        }
    }
}

/// What the left scan from clue `ci` and cell `gi` establishes in every
/// way `g` to finish the line: its runs are ordered inside the known cells
/// `gi..E` (E the end of the last run), the cell at `E` is empty or the
/// line's end, and the runs of `g[gi..E]` are the matched clues.
#[verifier::spinoff_prover]
proof fn lemma_left_prefix(clues: Seq<u32>, cells: Seq<CellState>, g: Seq<CellState>, ci: nat, gi: nat)
    requires
        completes(cells, g),
        gi <= cells.len(),
        cells.len() <= usize::MAX,
    ensures
        ({
            let t = confirmed_left(clues, cells, ci, gi);
            t.len() > 0 ==> {
                let e = t.last().1 as int;
                &&& forall|j: int| 0 <= j < t.len() ==> gi <= (#[trigger] t[j]).0 <= t[j].1 <= e
                &&& forall|j: int| 0 < j < t.len() ==> t[j - 1].1 <= (#[trigger] t[j]).0
                &&& e <= cells.len()
                &&& known_in(cells, gi as int, e)
                &&& (e == cells.len() || cells[e] == CellState::Empty)
                &&& ci + t.len() <= clues.len()
                &&& filled_runs_from(g.subrange(gi as int, e), 0) == clue_ints(
                    clues.subrange(ci as int, (ci + t.len()) as int),
                )
            }
        }),
    decreases cells.len() - gi,
{
    let t = confirmed_left(clues, cells, ci, gi);
    if ci < clues.len() && gi <= cells.len() {
        lemma_skip_bounds(cells, gi);
        let s = skip_empty(cells, gi);
        if s < cells.len() && cells[s as int] != CellState::Unknown {
            lemma_skip_bounds(cells, s);
            let e = skip_filled(cells, s);
            if !(e < cells.len() && cells[e as int] == CellState::Unknown) && e - s == clues[ci as int] as int
                && gi < e <= cells.len() {
                lemma_left_head(cells, g, gi);
                lemma_left_prefix(clues, cells, g, ci + 1, e);
                let rest = confirmed_left(clues, cells, ci + 1, e);
                assert(t == seq![(s as usize, e as usize)] + rest);
                let head = g.subrange(gi as int, e as int);
                if rest.len() == 0 {
                    assert(clue_ints(clues.subrange(ci as int, (ci + 1) as int)) =~= seq![clues[ci as int] as int]);
                } else {
                    let last = rest.last().1 as int;
                    assert(t.last() == rest.last());
                    assert(e < cells.len()) by {
                        if e == cells.len() {
                            lemma_skip_bounds(cells, e);
                        }
                    }
                    assert(cells[e as int] == CellState::Empty);
                    assert forall|j: int| 0 <= j < t.len() implies gi <= (#[trigger] t[j]).0 <= t[j].1 <= last by {
                        if j > 0 {
                            assert(t[j] == rest[j - 1]);
                        }
                    }
                    assert forall|j: int| 0 < j < t.len() implies t[j - 1].1 <= (#[trigger] t[j]).0 by {
                        assert(t[j] == rest[j - 1]);
                        if j > 1 {
                            assert(t[j - 1] == rest[j - 2]);
                        }
                    }
                    assert(known_in(cells, gi as int, last)) by {
                        assert forall|i: int| gi <= i < last implies #[trigger] cells[i] != CellState::Unknown by {
                            if i < e {
                                assert(known_in(cells, gi as int, e as int));
                            } else {
                                assert(known_in(cells, e as int, last));
                            }
                        }
                    }
                    let whole = g.subrange(gi as int, last);
                    let tail = g.subrange(e as int, last);
                    assert(whole =~= head + tail);
                    assert(tail[0] == g[e as int]);
                    assert(g[e as int] == CellState::Empty);
                    lemma_runs_split(head, tail, 0);
                    assert(clue_ints(clues.subrange(ci as int, (ci + t.len()) as int)) =~= seq![clues[ci as int] as int]
                        + clue_ints(clues.subrange((ci + 1) as int, (ci + 1 + rest.len()) as int)));
                }
            }
        }
    }
}


/// The first run met scanning left from `gi`: its cells, and the empty
/// cells after it, are known, and in every way to finish the line they
/// form one run of `s - e` cells.
proof fn lemma_right_head(cells: Seq<CellState>, g: Seq<CellState>, gi: int)
    requires
        completes(cells, g),
        -1 <= gi < cells.len(),
        back_empty(cells, gi) >= 0,
        cells[back_empty(cells, gi)] != CellState::Unknown,
    ensures
        ({
            let s = back_empty(cells, gi);
            let e = back_filled(cells, s);
            &&& -1 <= e < s <= gi
            &&& known_in(cells, e + 1, gi + 1)
            &&& filled_runs_from(g.subrange(e + 1, gi + 1), 0) == seq![s - e]
            &&& (e >= 0 ==> cells[e] != CellState::Filled)
        }),
{
    let s = back_empty(cells, gi);
    lemma_back_bounds(cells, gi);
    lemma_back_bounds(cells, s);
    let e = back_filled(cells, s);
    assert(back_filled(cells, s) == back_filled(cells, s - 1));
    lemma_back_bounds(cells, s - 1);
    lemma_back_cells(cells, gi);
    lemma_back_cells(cells, s);
    let seg = g.subrange(e + 1, gi + 1);
    let fb = g.subrange(e + 1, s + 1);
    let ea = g.subrange(s + 1, gi + 1);
    assert(seg =~= fb + ea);
    assert forall|i: int| 0 <= i < ea.len() implies ea[i] != CellState::Filled by {
        assert(cells[s + 1 + i] == CellState::Empty);
        assert(g[s + 1 + i] != CellState::Unknown);
    }
    assert forall|i: int| 0 <= i < fb.len() implies fb[i] == CellState::Filled by {
        assert(cells[e + 1 + i] == CellState::Filled);
        assert(g[e + 1 + i] != CellState::Unknown);
    }
    lemma_runs_block(fb, 0);
    if ea.len() > 0 {
        lemma_runs_split(fb, ea, 0);
        lemma_runs_skip_unfilled(ea, Seq::empty());
        assert(ea + Seq::<CellState>::empty() =~= ea);
        assert(filled_runs_from(Seq::<CellState>::empty(), 0) =~= Seq::<int>::empty());
        assert(seq![s - e] + Seq::<int>::empty() =~= seq![s - e]);
    } else {
        assert(seg =~= fb);
    }
    assert forall|i: int| e + 1 <= i < gi + 1 implies #[trigger] cells[i] != CellState::Unknown by {
        if i > s {
            assert(cells[i] == CellState::Empty);
        } else {
            assert(cells[i] == CellState::Filled);
        }
    }
}

/// An empty cell at `e` splits the runs of `g[a..b]` into those of
/// `g[a..=e]` and those of `g[e+1..b]`.
proof fn lemma_runs_around_empty(g: Seq<CellState>, a: int, e: int, b: int)
    requires
        0 <= a <= e < b <= g.len(),
        g[e] == CellState::Empty,
    ensures
        filled_runs_from(g.subrange(a, b), 0) == filled_runs_from(g.subrange(a, e + 1), 0) + filled_runs_from(
            g.subrange(e + 1, b),
            0,
        ),
{
    let before = g.subrange(a, e);
    let mid = g.subrange(e, b);
    let head = g.subrange(e + 1, b);
    assert(g.subrange(a, b) =~= before + mid);
    assert(mid[0] == g[e]);
    lemma_runs_split(before, mid, 0);
    assert(mid =~= seq![g[e]] + head);
    lemma_runs_skip_unfilled(seq![g[e]], head);
    assert(g.subrange(a, e + 1) =~= before + seq![g[e]]);
    lemma_runs_split(before, seq![g[e]], 0);
    assert(seq![g[e]].drop_first() =~= Seq::<CellState>::empty());
    assert(seq![g[e]][0] == g[e]);
    assert(filled_runs_from(seq![g[e]], 0) =~= Seq::<int>::empty() + filled_runs_from(Seq::<CellState>::empty(), 0));
    assert(filled_runs_from(before, 0) + Seq::<int>::empty() =~= filled_runs_from(before, 0));
}

/// What the right scan from clue `ci` and cell `gi` establishes in every
/// way `g` to finish the line: its runs are ordered inside the known cells
/// `S..=gi` (S the start of the last run found), the cell before `S` is
/// empty or the line's start, and the runs of `g[S..=gi]` are the matched
/// clues.
#[verifier::spinoff_prover]
#[verifier::rlimit(60)]
proof fn lemma_right_suffix(clues: Seq<u32>, cells: Seq<CellState>, g: Seq<CellState>, ci: int, gi: int, lo: int)
    requires
        completes(cells, g),
        -1 <= gi < cells.len(),
        cells.len() <= usize::MAX,
    ensures
        ({
            let t = confirmed_right(clues, cells, ci, gi, lo);
            t.len() > 0 ==> {
                let st = t.last().0 as int;
                &&& forall|j: int| 0 <= j < t.len() ==> st <= (#[trigger] t[j]).0 <= t[j].1 <= gi + 1
                &&& forall|j: int| 0 < j < t.len() ==> (#[trigger] t[j]).1 <= t[j - 1].0
                &&& 0 <= st
                &&& known_in(cells, st, gi + 1)
                &&& (st == 0 || cells[st - 1] == CellState::Empty)
                &&& lo <= ci - t.len() + 1 && 0 <= ci - t.len() + 1 && ci < clues.len()
                &&& filled_runs_from(g.subrange(st, gi + 1), 0) == clue_ints(
                    clues.subrange(ci - t.len() + 1, ci + 1),
                )
            }
        }),
    decreases gi + 1,
{
    let t = confirmed_right(clues, cells, ci, gi, lo);
    if ci >= lo && -1 <= gi < cells.len() {
        lemma_back_bounds(cells, gi);
        let s = back_empty(cells, gi);
        if s >= 0 && cells[s] != CellState::Unknown {
            lemma_back_bounds(cells, s);
            let e = back_filled(cells, s);
            if !(e >= 0 && cells[e] == CellState::Unknown) && 0 <= ci < clues.len() && s - e == clues[ci] as int
                && -1 <= e < gi {
                lemma_right_head(cells, g, gi);
                lemma_right_suffix(clues, cells, g, ci - 1, e, lo);
                let rest = confirmed_right(clues, cells, ci - 1, e, lo);
                assert(t == seq![((e + 1) as usize, (s + 1) as usize)] + rest);
                let head = g.subrange(e + 1, gi + 1);
                if rest.len() == 0 {
                    assert(clue_ints(clues.subrange(ci, ci + 1)) =~= seq![clues[ci] as int]);
                } else {
                    let st = rest.last().0 as int;
                    assert(t.last() == rest.last());
                    assert(e >= 0) by {
                        if e == -1 {
                            assert(back_empty(cells, -1) == -1);
                        }
                    }
                    assert(cells[e] == CellState::Empty);
                    assert forall|j: int| 0 <= j < t.len() implies st <= (#[trigger] t[j]).0 <= t[j].1 <= gi + 1 by {
                        if j > 0 {
                            assert(t[j] == rest[j - 1]);
                        }
                    }
                    assert forall|j: int| 0 < j < t.len() implies (#[trigger] t[j]).1 <= t[j - 1].0 by {
                        assert(t[j] == rest[j - 1]);
                        if j > 1 {
                            assert(t[j - 1] == rest[j - 2]);
                        }
                    }
                    assert(known_in(cells, st, gi + 1)) by {
                        assert forall|i: int| st <= i < gi + 1 implies #[trigger] cells[i] != CellState::Unknown by {
                            if i <= e {
                                assert(known_in(cells, st, e + 1));
                            } else {
                                assert(known_in(cells, e + 1, gi + 1));
                            }
                        }
                    }
                    lemma_runs_around_empty(g, st, e, gi + 1);
                    let r = rest.len() as int;
                    assert(clue_ints(clues.subrange(ci - t.len() + 1, ci + 1)) =~= clue_ints(
                        clues.subrange(ci - 1 - r + 1, ci),
                    ) + seq![clues[ci] as int]);
                }
            }
        }
    }
}


/// An empty last cell adds no run.
proof fn lemma_runs_trailing_empty(g: Seq<CellState>, a: int, e: int)
    requires
        0 <= a <= e < g.len(),
        g[e] == CellState::Empty,
    ensures
        filled_runs_from(g.subrange(a, e + 1), 0) == filled_runs_from(g.subrange(a, e), 0),
{
    let before = g.subrange(a, e);
    assert(g.subrange(a, e + 1) =~= before + seq![g[e]]);
    lemma_runs_split(before, seq![g[e]], 0);
    assert(seq![g[e]].drop_first() =~= Seq::<CellState>::empty());
    assert(seq![g[e]][0] == g[e]);
    assert(filled_runs_from(seq![g[e]], 0) =~= Seq::<int>::empty() + filled_runs_from(Seq::<CellState>::empty(), 0));
    assert(filled_runs_from(before, 0) + Seq::<int>::empty() =~= filled_runs_from(before, 0));
}

/// Known cells hold no unknown cell to mark.
proof fn lemma_unknowns_none(cells: Seq<CellState>, a: int, b: int)
    requires
        known_in(cells, a, b),
    ensures
        unknowns_between(cells, a, b) == Seq::<usize>::empty(),
    decreases b - a,
{
    if b > a {
        lemma_unknowns_none(cells, a, b - 1);
        assert(cells[b - 1] != CellState::Unknown);
        assert(unknowns_between(cells, a, b) =~= Seq::<usize>::empty());
    }
}

/// A marked cell of `a..b` lies there and is unknown.
proof fn lemma_unknowns_member(cells: Seq<CellState>, a: int, b: int, x: usize)
    requires
        0 <= a,
        b <= cells.len() <= usize::MAX,
        unknowns_between(cells, a, b).contains(x),
    ensures
        a <= x < b,
        cells[x as int] == CellState::Unknown,
    decreases b - a,
{
    if b > a {
        let p = unknowns_between(cells, a, b - 1);
        let m = choose|m: int| 0 <= m < unknowns_between(cells, a, b).len() && unknowns_between(cells, a, b)[m] == x;
        if m < p.len() {
            assert(p[m] == x);
            lemma_unknowns_member(cells, a, b - 1, x);
        } else {
            assert(cells[b - 1] == CellState::Unknown);
            assert(x == (b - 1) as usize);
        }
    }
}

proof fn lemma_left_gaps_none(cells: Seq<CellState>, left: Seq<(usize, usize)>, k: int, e: int)
    requires
        k < left.len(),
        known_in(cells, 0, e),
        forall|j: int| 0 <= j < left.len() ==> (#[trigger] left[j]).0 <= left[j].1 <= e,
    ensures
        left_gaps(cells, left, k) == Seq::<usize>::empty(),
    decreases k,
{
    if k > 0 {
        lemma_left_gaps_none(cells, left, k - 1, e);
        assert(left[k - 1].0 <= left[k - 1].1);
        assert(left[k].0 <= e);
        assert(known_in(cells, left[k - 1].1 as int, left[k].0 as int));
        lemma_unknowns_none(cells, left[k - 1].1 as int, left[k].0 as int);
        assert(left_gaps(cells, left, k) =~= Seq::<usize>::empty());
    }
}

proof fn lemma_right_gaps_none(cells: Seq<CellState>, right: Seq<(usize, usize)>, k: int, st: int, len: int)
    requires
        k < right.len(),
        known_in(cells, st, len),
        forall|j: int| 0 <= j < right.len() ==> st <= (#[trigger] right[j]).0 <= right[j].1 <= len,
    ensures
        right_gaps(cells, right, k) == Seq::<usize>::empty(),
    decreases k,
{
    if k > 0 {
        lemma_right_gaps_none(cells, right, k - 1, st, len);
        assert(right[k].0 <= right[k].1);
        assert(known_in(cells, right[k].1 as int, right[k - 1].0 as int));
        lemma_unknowns_none(cells, right[k].1 as int, right[k - 1].0 as int);
        assert(right_gaps(cells, right, k) =~= Seq::<usize>::empty());
    }
}

/// The left scan's part of the marks is empty, and what it leaves known.
#[verifier::spinoff_prover]
proof fn lemma_left_marks(clues: Seq<u32>, cells: Seq<CellState>, g: Seq<CellState>)
    requires
        cells.len() <= usize::MAX,
        completes(cells, g),
    ensures
        ({
            let left = confirmed_left(clues, cells, 0, 0);
            let k = left.len() as int;
            &&& (if k > 0 { unknowns_between(cells, 0, left[0].0 as int) } else { Seq::<usize>::empty() })
                == Seq::<usize>::empty()
            &&& left_gaps(cells, left, k - 1) == Seq::<usize>::empty()
            &&& k > 0 ==> {
                let e = left.last().1 as int;
                &&& e <= cells.len()
                &&& known_in(cells, 0, e)
                &&& (e == cells.len() || cells[e] == CellState::Empty)
                &&& k <= clues.len()
                &&& filled_runs_from(g.subrange(0, e), 0) == clue_ints(clues.subrange(0, k))
            }
        }),
{
    let left = confirmed_left(clues, cells, 0, 0);
    let k = left.len() as int;
    lemma_left_prefix(clues, cells, g, 0, 0);
    if k > 0 {
        let e = left.last().1 as int;
        assert(left[0].0 <= e);
        assert(known_in(cells, 0, left[0].0 as int));
        lemma_unknowns_none(cells, 0, left[0].0 as int);
        lemma_left_gaps_none(cells, left, k - 1, e);
    } else {
        assert(left_gaps(cells, left, k - 1) =~= Seq::<usize>::empty());
    }
}

/// The right scan's part of the marks is empty, and what it leaves known.
#[verifier::spinoff_prover]
proof fn lemma_right_marks(clues: Seq<u32>, cells: Seq<CellState>, g: Seq<CellState>, lo: int)
    requires
        cells.len() <= usize::MAX,
        completes(cells, g),
    ensures
        ({
            let n = clues.len() as int;
            let len = cells.len() as int;
            let right = confirmed_right(clues, cells, n - 1, len - 1, lo);
            let m = right.len() as int;
            &&& right_gaps(cells, right, m - 1) == Seq::<usize>::empty()
            &&& (if m > 0 { unknowns_between(cells, right[0].1 as int, len) } else { Seq::<usize>::empty() })
                == Seq::<usize>::empty()
            &&& m > 0 ==> {
                let st = right.last().0 as int;
                &&& 0 <= st <= len
                &&& known_in(cells, st, len)
                &&& (st == 0 || cells[st - 1] == CellState::Empty)
                &&& lo <= n - m
                &&& filled_runs_from(g.subrange(st, len), 0) == clue_ints(clues.subrange(n - m, n))
            }
        }),
{
    let n = clues.len() as int;
    let len = cells.len() as int;
    let right = confirmed_right(clues, cells, n - 1, len - 1, lo);
    let m = right.len() as int;
    lemma_right_suffix(clues, cells, g, n - 1, len - 1, lo);
    if m > 0 {
        let st = right.last().0 as int;
        assert(st <= right[0].1 <= len);
        assert(known_in(cells, right[0].1 as int, len));
        lemma_unknowns_none(cells, right[0].1 as int, len);
        lemma_right_gaps_none(cells, right, m - 1, st, len);
    } else {
        assert(right_gaps(cells, right, m - 1) =~= Seq::<usize>::empty());
    }
}

/// A filled cell between the two scans' runs would be one run too many.
proof fn lemma_middle_empty(g: Seq<CellState>, e: int, r: int, x: int, k: nat, m: nat, n: nat)
    requires
        0 <= e < x < r - 1,
        r <= g.len(),
        g[e] == CellState::Empty,
        g[r - 1] == CellState::Empty,
        filled_runs_from(g.subrange(0, e), 0).len() == k,
        filled_runs_from(g.subrange(r, g.len() as int), 0).len() == m,
        filled_runs(g).len() == n,
        k + m == n,
    ensures
        g[x] != CellState::Filled,
{
    let len = g.len() as int;
    if g[x] == CellState::Filled {
        assert(g.subrange(0, len) =~= g);
        lemma_runs_around_empty(g, 0, e, len);
        lemma_runs_trailing_empty(g, 0, e);
        lemma_runs_around_empty(g, e + 1, r - 1, len);
        lemma_runs_trailing_empty(g, e + 1, r - 1);
        let mid = g.subrange(e + 1, r - 1);
        assert(mid[x - (e + 1)] == g[x]);
        lemma_runs_nonempty(mid, 0, x - (e + 1));
    }
}

/// The cells marked from the edges are certainly empty: every cell that
/// `forced_empty_from_edges` reports is unknown in the line, and empty in
/// every way to finish the line that fits its clues.
pub proof fn lemma_forced_empty_sound(clues: Seq<u32>, cells: Seq<CellState>, g: Seq<CellState>, x: usize)
    requires
        cells.len() <= usize::MAX,
        completes(cells, g),
        filled_runs(g) == clue_ints(clues),
        edge_marks(clues, cells).contains(x),
    ensures
        x < cells.len(),
        cells[x as int] == CellState::Unknown,
        g[x as int] == CellState::Empty,
{
    let n = clues.len() as int;
    let len = cells.len() as int;
    let left = confirmed_left(clues, cells, 0, 0);
    let k = left.len() as int;
    let right = confirmed_right(clues, cells, n - 1, len - 1, k);
    let m = right.len() as int;
    lemma_left_marks(clues, cells, g);
    lemma_right_marks(clues, cells, g, k);
    let pa = if k > 0 { unknowns_between(cells, 0, left[0].0 as int) } else { Seq::<usize>::empty() };
    let pb = left_gaps(cells, left, k - 1);
    let pc = if k + m == n && n > 0 {
        unknowns_between(cells, gap_start(left), gap_end(right, len))
    } else {
        Seq::<usize>::empty()
    };
    let pd = right_gaps(cells, right, m - 1);
    let pe = if m > 0 { unknowns_between(cells, right[0].1 as int, len) } else { Seq::<usize>::empty() };
    assert(edge_marks(clues, cells) == pa + pb + pc + pd + pe);
    assert(edge_marks(clues, cells) =~= pc);
    assert(k + m == n && n > 0);
    let e = gap_start(left);
    let r = gap_end(right, len);
    lemma_unknowns_member(cells, e, r, x);
    let xi = x as int;
    assert(clue_ints(clues).len() == n);
    if k > 0 {
        assert(xi > e) by {
            assert(cells[e] == CellState::Empty);
        }
        assert(g[e] == CellState::Empty);
    }
    if m > 0 {
        assert(r >= 1 && cells[r - 1] == CellState::Empty);
        assert(xi < r - 1);
        assert(g[r - 1] == CellState::Empty);
    }
    if k > 0 && m > 0 {
        lemma_middle_empty(g, e, r, xi, k as nat, m as nat, n as nat);
    } else if k > 0 {
        lemma_tail_empty(g, e, xi, n as nat);
    } else {
        lemma_head_empty(g, r, xi, n as nat);
    }
}

/// A filled cell after the runs that already account for every clue would
/// be one run too many.
proof fn lemma_tail_empty(g: Seq<CellState>, e: int, x: int, n: nat)
    requires
        0 <= e < x < g.len(),
        g[e] == CellState::Empty,
        filled_runs_from(g.subrange(0, e), 0).len() == n,
        filled_runs(g).len() == n,
    ensures
        g[x] != CellState::Filled,
{
    let len = g.len() as int;
    if g[x] == CellState::Filled {
        assert(g.subrange(0, len) =~= g);
        lemma_runs_around_empty(g, 0, e, len);
        lemma_runs_trailing_empty(g, 0, e);
        let tail = g.subrange(e + 1, len);
        assert(tail[x - (e + 1)] == g[x]);
        lemma_runs_nonempty(tail, 0, x - (e + 1));
    }
}

/// A filled cell before the runs that already account for every clue would
/// be one run too many.
proof fn lemma_head_empty(g: Seq<CellState>, r: int, x: int, m: nat)
    requires
        0 <= x < r - 1,
        r <= g.len(),
        g[r - 1] == CellState::Empty,
        filled_runs_from(g.subrange(r, g.len() as int), 0).len() == m,
        filled_runs(g).len() == m,
    ensures
        g[x] != CellState::Filled,
{
    let len = g.len() as int;
    if g[x] == CellState::Filled {
        assert(g.subrange(0, len) =~= g);
        lemma_runs_around_empty(g, 0, r - 1, len);
        lemma_runs_trailing_empty(g, 0, r - 1);
        let head = g.subrange(0, r - 1);
        assert(head[x] == g[x]);
        lemma_runs_nonempty(head, 0, x);
    }
}

} // verus!
