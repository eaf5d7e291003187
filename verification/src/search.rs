//! Best-first graph search with a fewest-completions (MRV) heuristic and
//! intersection propagation.
//!
//! Each search node is a fully propagated partial grid. The queue always
//! expands the node whose most constrained unresolved line has the fewest
//! valid completions; propagation after every branch often finishes the
//! puzzle without further search.
use vstd::prelude::*;
use crate::line::{
    agrees, all_completions, as_ints, clamp_usize, count_completions, placements, enumerate_completions, exp2, forced_cells,
    is_completion, is_full, lemma_exp2_mono, lemma_fits_full, lemma_runs_fits, line_matches, listed, runs,
    distinct_from, nonzero, ordered_from, Cell,
};
use crate::text::{chars_to_string, decimal, extend_decimal, extend_str};
use crate::types::{
    CellState, LineId, SolveStep, apply_changes, blank, lemma_replay_concat, lemma_trace_concat, lemma_trace_same, replay,
    on_line, set_cell, step_ok, trace_ok,
};

verus! {

/// The public cell state of a working cell.
pub open spec fn cell_state(c: Cell) -> CellState {
    match c {
        Cell::Unknown => CellState::Unknown,
        Cell::Filled => CellState::Filled,
        Cell::Empty => CellState::Empty,
    }
}

/// The public cell states of a working grid.
pub open spec fn states(g: Seq<Cell>) -> Seq<CellState> {
    g.map_values(|c: Cell| cell_state(c))
}

/// Converts a working cell to its public state.
pub fn to_state(c: Cell) -> (s: CellState)
    ensures
        s == cell_state(c),
{
    match c {
        Cell::Unknown => CellState::Unknown,
        Cell::Filled => CellState::Filled,
        Cell::Empty => CellState::Empty,
    }
}

/// Row `r` of a row-major grid with `cols` columns.
pub open spec fn row_of(g: Seq<Cell>, cols: nat, r: int) -> Seq<Cell> {
    g.subrange(r * cols, r * cols + cols)
}

/// Column `c` of a row-major grid with `rows` rows and `cols` columns.
pub open spec fn col_of(g: Seq<Cell>, rows: nat, cols: nat, c: int) -> Seq<Cell> {
    Seq::new(rows, |r: int| g[r * cols + c])
}

/// A fully known line whose filled runs are exactly the clues.
pub open spec fn line_ok(l: Seq<Cell>, q: Seq<usize>) -> bool {
    is_full(l) && runs(l) == as_ints(q)
}

/// Line propagation has nothing left to do on `l` under clues `q`: the
/// line is fully known, or it has a completion and every unknown cell is
/// filled in one completion and empty in another.
pub open spec fn settled(l: Seq<Cell>, q: Seq<usize>) -> bool {
    ||| is_full(l)
    ||| {
        &&& exists|c: Seq<Cell>| is_completion(c, l, q)
        &&& forall|i: int|
            0 <= i < l.len() && l[i] == Cell::Unknown ==> exists|c1: Seq<Cell>, c2: Seq<Cell>|
                is_completion(c1, l, q) && is_completion(c2, l, q) && c1[i] != c2[i]
    }
}

/// The line `l` still has an unknown cell and no completion under `q`.
pub open spec fn stuck(l: Seq<Cell>, q: Seq<usize>) -> bool {
    !is_full(l) && forall|c: Seq<Cell>| !is_completion(c, l, q)
}

/// A line whose forced values (the values all its completions agree on)
/// are already known is settled.
proof fn lemma_settled(cells: Seq<Cell>, q: Seq<usize>, comps: Seq<Vec<Cell>>, forced: Seq<Option<Cell>>)
    requires
        comps.len() > 0,
        all_completions(comps, 0, cells, q),
        is_full(comps[0]@),
        forced.len() == cells.len(),
        forall|i: int| 0 <= i < forced.len() ==> #[trigger] forced[i] == (if (forall|k: int|
            0 <= k < comps.len() ==> #[trigger] comps[k]@[i] == comps[0]@[i]) {
            Some(comps[0]@[i])
        } else {
            None
        }),
        forall|i: int| 0 <= i < cells.len() ==> (#[trigger] forced[i] matches Some(v) ==> v == cells[i]),
    ensures
        settled(cells, q),
{
    assert(is_completion(comps[0]@, cells, q));
    assert forall|i: int| 0 <= i < cells.len() && cells[i] == Cell::Unknown implies exists|c1: Seq<Cell>, c2: Seq<Cell>|
        is_completion(c1, cells, q) && is_completion(c2, cells, q) && c1[i] != c2[i] by {
        assert(comps[0]@[i] != Cell::Unknown);
        if forall|k: int| 0 <= k < comps.len() ==> #[trigger] comps[k]@[i] == comps[0]@[i] {
            assert(forced[i] == Some(comps[0]@[i]));
        }
        let k = choose|k: int| 0 <= k < comps.len() && #[trigger] comps[k]@[i] != comps[0]@[i];
        assert(is_completion(comps[k]@, cells, q));
    }
}

/// What line propagation makes of `l` under clues `q`: an unknown cell on
/// which every completion agrees takes that value; every other cell stays.
pub open spec fn forced_line(l: Seq<Cell>, q: Seq<usize>) -> Seq<Cell> {
    let c0 = choose|c: Seq<Cell>| is_completion(c, l, q);
    Seq::new(
        l.len(),
        |i: int|
            if l[i] == Cell::Unknown && forall|c: Seq<Cell>| #[trigger] is_completion(c, l, q) ==> c[i] == c0[i] {
                c0[i]
            } else {
                l[i]
            },
    )
}

/// The listed completions decide each cell of `forced_line`: where they
/// all agree the line takes their value, elsewhere it keeps its own.
proof fn lemma_forced_value(cells: Seq<Cell>, q: Seq<usize>, comps: Seq<Vec<Cell>>, forced: Seq<Option<Cell>>, i: int)
    requires
        comps.len() > 0,
        all_completions(comps, 0, cells, q),
        forall|l: Seq<Cell>| is_completion(l, cells, q) ==> listed(comps, 0, l),
        0 <= i < cells.len(),
        forced.len() == cells.len(),
        forced[i] == (if (forall|k: int| 0 <= k < comps.len() ==> #[trigger] comps[k]@[i] == comps[0]@[i]) {
            Some(comps[0]@[i])
        } else {
            None
        }),
    ensures
        forced[i] matches Some(v) ==> forced_line(cells, q)[i] == v,
        forced[i] is None ==> forced_line(cells, q)[i] == cells[i],
{
    assert(is_completion(comps[0]@, cells, q));
    let c0 = choose|c: Seq<Cell>| is_completion(c, cells, q);
    assert(is_completion(c0, cells, q));
    if forall|k: int| 0 <= k < comps.len() ==> #[trigger] comps[k]@[i] == comps[0]@[i] {
        assert forall|c: Seq<Cell>| #[trigger] is_completion(c, cells, q) implies c[i] == comps[0]@[i] by {
            assert(listed(comps, 0, c));
            let k = choose|k: int| 0 <= k < comps.len() && #[trigger] comps[k]@ == c;
        }
        if cells[i] != Cell::Unknown {
            assert(comps[0]@[i] == cells[i]);
        }
    } else {
        let k = choose|k: int| 0 <= k < comps.len() && #[trigger] comps[k]@[i] != comps[0]@[i];
        assert(is_completion(comps[k]@, cells, q));
    }
}

/// Number of unknown cells.
pub open spec fn unknowns(g: Seq<Cell>) -> nat
    decreases g.len(),
{
    if g.len() == 0 {
        0
    } else {
        unknowns(g.drop_last()) + (if g.last() == Cell::Unknown { 1nat } else { 0nat })
    }
}

pub proof fn lemma_unknowns_update(g: Seq<Cell>, i: int, v: Cell)
    requires
        0 <= i < g.len(),
    ensures
        unknowns(g.update(i, v)) + (if g[i] == Cell::Unknown { 1nat } else { 0nat }) == unknowns(g) + (if v
            == Cell::Unknown { 1nat } else { 0nat }),
    decreases g.len(),
{
    let h = g.update(i, v);
    if i == g.len() - 1 {
        assert(h.drop_last() =~= g.drop_last());
    } else {
        lemma_unknowns_update(g.drop_last(), i, v);
        assert(h.drop_last() =~= g.drop_last().update(i, v));
    }
}

pub proof fn lemma_unknowns_full(g: Seq<Cell>)
    ensures
        (unknowns(g) == 0) == is_full(g),
    decreases g.len(),
{
    if g.len() > 0 {
        lemma_unknowns_full(g.drop_last());
        if is_full(g) {
            assert(is_full(g.drop_last()));
        } else {
            let k = choose|k: int| 0 <= k < g.len() && g[k] == Cell::Unknown;
            if k < g.len() - 1 {
                assert(g.drop_last()[k] == g[k]);
            }
        }
        if unknowns(g) == 0 {
            assert forall|k: int| 0 <= k < g.len() implies g[k] != Cell::Unknown by {
                if k < g.len() - 1 {
                    assert(g.drop_last()[k] == g[k]);
                }
            }
        }
    }
}

pub proof fn lemma_unknowns_bound(g: Seq<Cell>)
    ensures
        unknowns(g) <= g.len(),
    decreases g.len(),
{
    if g.len() > 0 {
        lemma_unknowns_bound(g.drop_last());
    }
}

pub proof fn lemma_cell_index(r: int, c: int, rows: int, cols: int)
    requires
        0 <= r < rows,
        0 <= c < cols,
    ensures
        0 <= r * cols,
        r * cols + c < rows * cols,
        r * cols + cols <= rows * cols,
{
    assert(0 <= r * cols) by (nonlinear_arith)
        requires
            0 <= r,
            0 <= c < cols,
    ;
    assert(r * cols + cols <= rows * cols) by (nonlinear_arith)
        requires
            0 <= r < rows,
            0 <= c < cols,
    ;
}

pub proof fn lemma_cell_index_unique(r1: int, c1: int, r2: int, c2: int, cols: int)
    requires
        0 <= r1,
        0 <= r2,
        0 <= c1 < cols,
        0 <= c2 < cols,
        r1 * cols + c1 == r2 * cols + c2,
    ensures
        r1 == r2,
        c1 == c2,
{
    if r1 < r2 {
        assert(r1 * cols + cols <= r2 * cols) by (nonlinear_arith)
            requires
                r1 < r2,
                0 <= c1 < cols,
        ;
    } else if r2 < r1 {
        assert(r2 * cols + cols <= r1 * cols) by (nonlinear_arith)
            requires
                r2 < r1,
                0 <= c1 < cols,
        ;
    }
}

/// Text of a step description: `"row 3: propagation"`, `"col 0: branch"`.
pub open spec fn step_text(is_row: bool, idx: nat, branch: bool) -> Seq<char> {
    (if is_row { "row "@ } else { "col "@ }) + decimal(idx) + (if branch { ": branch"@ } else {
        ": propagation"@
    })
}

/// The description of a propagation or branch step on a line.
fn line_description(is_row: bool, idx: usize, branch: bool) -> (s: String)
    ensures
        s@ == step_text(is_row, idx as nat, branch),
{
    let mut v: Vec<char> = Vec::new();
    if is_row {
        extend_str(&mut v, "row ");
    } else {
        extend_str(&mut v, "col ");
    }
    extend_decimal(&mut v, idx as u64);
    if branch {
        extend_str(&mut v, ": branch");
    } else {
        extend_str(&mut v, ": propagation");
    }
    chars_to_string(&v)
}

/// A row or column of the search grid.
#[derive(Clone, Copy)]
enum Line {
    Row(usize),
    Col(usize),
}

/// The public name of a line.
spec fn line_id(line: Line) -> LineId {
    match line {
        Line::Row(r) => LineId::Row(r),
        Line::Col(c) => LineId::Col(c),
    }
}

/// Position along `line` of the changed cell `ch`.
spec fn pos_on(line: Line, ch: (usize, usize, CellState)) -> int {
    match line {
        Line::Row(_) => ch.1 as int,
        Line::Col(_) => ch.0 as int,
    }
}

/// The search problem: dimensions and clues (as `usize`).
pub struct SearchState {
    pub rows: usize,
    pub cols: usize,
    pub row_clues: Vec<Vec<usize>>,
    pub col_clues: Vec<Vec<usize>>,
}

impl SearchState {
    /// One clue list per line and a grid size that fits in `usize`.
    pub open spec fn wf(&self) -> bool {
        &&& self.row_clues@.len() == self.rows
        &&& self.col_clues@.len() == self.cols
        &&& self.rows * self.cols <= usize::MAX
    }

    /// Number of grid cells.
    pub open spec fn size(&self) -> nat {
        (self.rows * self.cols) as nat
    }

    pub open spec fn rclues(&self, r: int) -> Seq<usize> {
        self.row_clues@[r]@
    }

    pub open spec fn cclues(&self, c: int) -> Seq<usize> {
        self.col_clues@[c]@
    }

    pub open spec fn row(&self, g: Seq<Cell>, r: int) -> Seq<Cell> {
        row_of(g, self.cols as nat, r)
    }

    pub open spec fn col(&self, g: Seq<Cell>, c: int) -> Seq<Cell> {
        col_of(g, self.rows as nat, self.cols as nat, c)
    }

    /// `g` is a fully known grid whose every row and column has exactly
    /// its clues as filled runs.
    pub open spec fn solves(&self, g: Seq<Cell>) -> bool {
        &&& g.len() == self.size()
        &&& forall|r: int| 0 <= r < self.rows ==> line_ok(#[trigger] self.row(g, r), self.rclues(r))
        &&& forall|c: int| 0 <= c < self.cols ==> line_ok(#[trigger] self.col(g, c), self.cclues(c))
    }

    proof fn lemma_row_completion(&self, s: Seq<Cell>, g: Seq<Cell>, r: int)
        requires
            self.wf(),
            self.solves(s),
            agrees(s, g),
            0 <= r < self.rows,
        ensures
            is_completion(self.row(s, r), self.row(g, r), self.rclues(r)),
    {
        let cols = self.cols as int;
        assert(line_ok(self.row(s, r), self.rclues(r)));
        lemma_runs_fits(self.row(s, r), self.rclues(r));
        if cols > 0 {
            lemma_cell_index(r, 0, self.rows as int, cols);
        } else {
            assert(r * cols == 0) by (nonlinear_arith)
                requires
                    cols == 0,
            ;
        }
        assert forall|k: int| 0 <= k < cols && self.row(g, r)[k] != Cell::Unknown implies self.row(s, r)[k]
            == self.row(g, r)[k] by {
            lemma_cell_index(r, k, self.rows as int, cols);
        }
    }

    proof fn lemma_col_completion(&self, s: Seq<Cell>, g: Seq<Cell>, c: int)
        requires
            self.wf(),
            self.solves(s),
            agrees(s, g),
            0 <= c < self.cols,
        ensures
            is_completion(self.col(s, c), self.col(g, c), self.cclues(c)),
    {
        assert(line_ok(self.col(s, c), self.cclues(c)));
        lemma_runs_fits(self.col(s, c), self.cclues(c));
        assert forall|k: int| 0 <= k < self.rows && self.col(g, c)[k] != Cell::Unknown implies self.col(s, c)[k]
            == self.col(g, c)[k] by {
            lemma_cell_index(k, c, self.rows as int, self.cols as int);
        }
    }

    /// A copy of row `r`.
    fn extract_row(&self, grid: &Vec<Cell>, r: usize) -> (v: Vec<Cell>)
        requires
            self.wf(),
            grid@.len() == self.size(),
            r < self.rows,
        ensures
            v@ == self.row(grid@, r as int),
    {
        proof {
            if self.cols > 0 {
                lemma_cell_index(r as int, 0, self.rows as int, self.cols as int);
            } else {
                assert(r * self.cols == 0) by (nonlinear_arith)
                    requires
                        self.cols == 0,
                ;
            }
        }
        let start = r * self.cols;
        let mut v: Vec<Cell> = Vec::new();
        let mut c: usize = 0;
        while c < self.cols
            invariant
                self.wf(),
                grid@.len() == self.size(),
                r < self.rows,
                start == r * self.cols,
                start + self.cols <= self.size(),
                c <= self.cols,
                v@ == grid@.subrange(start as int, start + c),
            decreases self.cols - c,
        {
            v.push(grid[start + c]);
            c += 1;
            assert(v@ =~= grid@.subrange(start as int, start + c));
        }
        v
    }

    /// A copy of column `c`.
    fn extract_col(&self, grid: &Vec<Cell>, c: usize) -> (v: Vec<Cell>)
        requires
            self.wf(),
            grid@.len() == self.size(),
            c < self.cols,
        ensures
            v@ == self.col(grid@, c as int),
    {
        let mut v: Vec<Cell> = Vec::new();
        let mut r: usize = 0;
        while r < self.rows
            invariant
                self.wf(),
                grid@.len() == self.size(),
                c < self.cols,
                r <= self.rows,
                v@.len() == r,
                forall|k: int| 0 <= k < r ==> v@[k] == grid@[k * self.cols + c],
            decreases self.rows - r,
        {
            proof {
                lemma_cell_index(r as int, c as int, self.rows as int, self.cols as int);
            }
            v.push(grid[r * self.cols + c]);
            r += 1;
        }
        assert(v@ =~= self.col(grid@, c as int));
        v
    }
}

/// Whether a line has an unknown cell.
fn has_unknown(cells: &[Cell]) -> (r: bool)
    ensures
        r == !is_full(cells@),
{
    let mut i: usize = 0;
    while i < cells.len()
        invariant
            i <= cells.len(),
            forall|k: int| 0 <= k < i ==> cells@[k] != Cell::Unknown,
        decreases cells.len() - i,
    {
        if cells[i] == Cell::Unknown {
            return true;
        }
        i += 1;
    }
    false
}

impl SearchState {
    /// Forces the cells of row `r` on which every completion agrees.
    /// Returns `(false, _)` when the row has no completion at all, and
    /// whether any cell changed.
    #[verifier::rlimit(40)]
    fn propagate_row(&self, grid: &mut Vec<Cell>, steps: &mut Vec<SolveStep>, r: usize) -> (res: (
        bool,
        bool,
    ))
        requires
            self.wf(),
            old(grid)@.len() == self.size(),
            r < self.rows,
        ensures
            final(grid)@.len() == self.size(),
            agrees(final(grid)@, old(grid)@),
            (res.0, final(grid)@) == self.line_step(old(grid)@, r as int),
            !res.0 ==> stuck(self.row(final(grid)@, r as int), self.rclues(r as int)),
            res.0 && !res.1 ==> settled(self.row(final(grid)@, r as int), self.rclues(r as int)),
            res.1 ==> unknowns(final(grid)@) < unknowns(old(grid)@),
            !res.1 ==> final(grid)@ == old(grid)@,
            !res.0 ==> !res.1 && forall|s: Seq<Cell>| !(#[trigger] self.solves(s) && agrees(s, old(grid)@)),
            forall|s: Seq<Cell>| #[trigger] self.solves(s) && agrees(s, old(grid)@) ==> agrees(s, final(grid)@),
            final(steps)@.len() >= old(steps)@.len(),
            final(steps)@.take(old(steps)@.len() as int) == old(steps)@,
            states(final(grid)@) == replay(
                states(old(grid)@),
                self.cols as nat,
                final(steps)@.skip(old(steps)@.len() as int),
            ),
            trace_ok(states(old(grid)@), self.cols as nat, final(steps)@.skip(old(steps)@.len() as int)),
            matches_trace(final(steps)@.skip(old(steps)@.len() as int), self.visit_trace(old(grid)@, r as int)),
    {
        let ghost g0 = grid@;
        let ghost st0 = steps@;
        let cols = self.cols;
        proof {
            assert(steps@.skip(st0.len() as int) =~= Seq::<SolveStep>::empty());
            assert(steps@.take(st0.len() as int) =~= st0);
        }
        let cells = self.extract_row(grid, r);
        if !has_unknown(&cells) {
            return (true, false);
        }
        let completions = enumerate_completions(&cells, self.row_clues[r].as_slice());
        if completions.len() == 0 {
            proof {
                assert forall|s: Seq<Cell>| !(#[trigger] self.solves(s) && agrees(s, g0)) by {
                    if self.solves(s) && agrees(s, g0) {
                        self.lemma_row_completion(s, g0, r as int);
                        assert(listed(completions@, 0, self.row(s, r as int)));
                    }
                }
                assert forall|l: Seq<Cell>| !is_completion(l, cells@, self.rclues(r as int)) by {
                    if is_completion(l, cells@, self.rclues(r as int)) {
                        assert(listed(completions@, 0, l));
                    }
                }
            }
            return (false, false);
        }
        proof {
            assert forall|k: int| 0 <= k < completions.len() implies #[trigger] completions@[k]@.len()
                == completions@[0]@.len() by {
                assert(is_completion(completions@[k]@, cells@, self.rclues(r as int)));
                assert(is_completion(completions@[0]@, cells@, self.rclues(r as int)));
            }
            assert(is_completion(completions@[0]@, cells@, self.rclues(r as int)));
            lemma_fits_full(completions@[0]@, self.rclues(r as int));
            lemma_cell_index(r as int, 0, self.rows as int, cols as int);
        }
        let forced = forced_cells(&completions);
        let ghost fl = forced_line(cells@, self.rclues(r as int));
        let mut cells_changed: Vec<(usize, usize, CellState)> = Vec::new();
        let mut changed = false;
        let base = r * cols;
        let mut c: usize = 0;
        while c < cols
            invariant
                self.wf(),
                cols == self.cols,
                r < self.rows,
                base == r * cols,
                base + cols <= self.size(),
                c <= cols,
                g0.len() == self.size(),
                grid@.len() == self.size(),
                cells@ == self.row(g0, r as int),
                completions@.len() > 0,
                all_completions(completions@, 0, cells@, self.rclues(r as int)),
                forall|l: Seq<Cell>| is_completion(l, cells@, self.rclues(r as int)) ==> listed(completions@, 0, l),
                is_full(completions@[0]@),
                completions@[0]@.len() == cols,
                forced@.len() == cols,
                forall|i: int| 0 <= i < forced@.len() ==> #[trigger] forced@[i] == (if (forall|k: int|
                    0 <= k < completions.len() ==> #[trigger] completions@[k]@[i] == completions@[0]@[i]) {
                    Some(completions@[0]@[i])
                } else {
                    None
                }),
                forall|i: int| 0 <= i < g0.len() && !(base <= i < base + c) ==> grid@[i] == g0[i],
                fl == forced_line(cells@, self.rclues(r as int)),
                cells@ == self.line_at(g0, r as int),
                self.clues_at(r as int) == self.rclues(r as int),
                cells_changed@ == self.visit_changes(g0, r as int, c as nat),
                forall|j: int| 0 <= j < c ==> #[trigger] self.row(grid@, r as int)[j] == fl[j],
                agrees(grid@, g0),
                changed == (cells_changed@.len() > 0),
                changed ==> unknowns(grid@) < unknowns(g0),
                !changed ==> grid@ == g0,
                !changed ==> forall|i: int| 0 <= i < c ==> (#[trigger] forced@[i] matches Some(v) ==> v == cells@[i]),
                states(grid@) == apply_changes(states(g0), cols as nat, cells_changed@),
                forall|j: int|
                    0 <= j < cells_changed@.len() ==> {
                        let ch = #[trigger] cells_changed@[j];
                        &&& ch.0 == r
                        &&& ch.1 < c
                        &&& ch.0 * cols + ch.1 < self.size()
                        &&& states(g0)[ch.0 * cols + ch.1] == CellState::Unknown
                        &&& ch.2 != CellState::Unknown
                    },
                forall|j1: int, j2: int|
                    0 <= j1 < j2 < cells_changed@.len() ==> (#[trigger] cells_changed@[j1]).1 < (
                    #[trigger] cells_changed@[j2]).1,
                forall|s: Seq<Cell>| #[trigger] self.solves(s) && agrees(s, g0) ==> agrees(s, grid@),
            decreases cols - c,
        {
            let idx = base + c;
            let ghost gb = grid@;
            let ghost cc0 = cells_changed@;
            proof {
                lemma_cell_index(r as int, c as int, self.rows as int, cols as int);
            }
            if let Some(v) = forced[c] {
                if grid[idx] != v {
                    proof {
                        assert(v == completions@[0]@[c as int]);
                        assert(is_completion(completions@[0]@, cells@, self.rclues(r as int)));
                        assert(cells@[c as int] == g0[idx as int]);
                        assert(grid@[idx as int] == g0[idx as int]);
                        assert(g0[idx as int] == Cell::Unknown);
                        assert(v != Cell::Unknown);
                        lemma_unknowns_update(grid@, idx as int, v);
                    }
                    let ghost gprev = grid@;
                    let ghost cprev = cells_changed@;
                    grid.set(idx, v);
                    cells_changed.push((r, c, to_state(v)));
                    changed = true;
                    proof {
                        assert(states(grid@) =~= set_cell(states(gprev), cols as nat, (r, c, cell_state(v))));
                        assert(cells_changed@.drop_last() =~= cprev);
                        assert(cells_changed@[cprev.len() as int] == (r, c, cell_state(v)));
                        assert forall|j: int| 0 <= j < cprev.len() implies #[trigger] cells_changed@[j] == cprev[j] by {}
                        assert forall|s: Seq<Cell>| #[trigger] self.solves(s) && agrees(s, g0) implies agrees(s, grid@) by {
                            self.lemma_row_completion(s, g0, r as int);
                            let l = self.row(s, r as int);
                            assert(listed(completions@, 0, l));
                            let k = choose|k: int| 0 <= k < completions@.len() && #[trigger] completions@[k]@ == l;
                            assert(completions@[k]@[c as int] == v);
                            assert(l[c as int] == s[idx as int]);
                            assert(agrees(s, gprev));
                        }
                    }
                }
            }
            proof {
                assert(cells@[c as int] == g0[idx as int]);
                lemma_forced_value(cells@, self.rclues(r as int), completions@, forced@, c as int);
                assert(self.row(grid@, r as int)[c as int] == grid@[idx as int]);
                assert(completions@[0]@[c as int] != Cell::Unknown);
                assert(fl[c as int] == cells@[c as int] || fl[c as int] == completions@[0]@[c as int]);
                assert(cells_changed@ == self.visit_changes(g0, r as int, (c + 1) as nat)) by {
                    if cells@[c as int] == Cell::Unknown && fl[c as int] != Cell::Unknown {
                        assert(cells_changed@ == cc0.push((r, c, cell_state(fl[c as int]))));
                    } else {
                        assert(cells_changed@ == cc0);
                    }
                }
                assert forall|j: int| 0 <= j < c + 1 implies #[trigger] self.row(grid@, r as int)[j] == fl[j] by {
                    if j < c {
                        lemma_cell_index(r as int, j, self.rows as int, cols as int);
                        assert(self.row(gb, r as int)[j] == fl[j]);
                        assert(self.row(gb, r as int)[j] == gb[base + j]);
                        assert(grid@[base + j] == gb[base + j]);
                    }
                }
            }
            c += 1;
        }
        proof {
            if !changed {
                lemma_settled(cells@, self.rclues(r as int), completions@, forced@);
            }
            assert(is_completion(completions@[0]@, cells@, self.rclues(r as int)));
            assert(grid@ =~= self.put_line(g0, r as int, fl)) by {
                assert forall|i: int| 0 <= i < grid@.len() implies grid@[i] == self.put_line(g0, r as int, fl)[i] by {
                    if base <= i < base + cols {
                        assert(self.row(grid@, r as int)[i - base] == grid@[i]);
                    }
                }
            }
        }
        if cells_changed.len() > 0 {
            let description = line_description(true, r, false);
            let ghost chs = cells_changed@;
            let step = SolveStep { description, line: Some(LineId::Row(r)), cells_changed };
            steps.push(step);
            proof {
                assert(steps@.skip(st0.len() as int) =~= seq![step]);
                assert(seq![step].drop_last() =~= Seq::<SolveStep>::empty());
                assert(step.cells_changed@ == chs);
                assert(is_completion(completions@[0]@, cells@, self.rclues(r as int)));
                assert(self.line_at(g0, r as int).len() == cols);
                assert(matches_trace(seq![step], self.visit_trace(g0, r as int)));
                assert(step_ok(states(g0), cols as nat, step)) by {
                    assert forall|j1: int, j2: int|
                        0 <= j1 < j2 < chs.len() implies (#[trigger] chs[j1]).0 != (#[trigger] chs[j2]).0 || chs[j1].1
                            != chs[j2].1 by {}
                }
                assert(replay(states(g0), cols as nat, Seq::<SolveStep>::empty()) == states(g0));
                assert(seq![step].last() == step);
                assert(trace_ok(states(g0), cols as nat, seq![step].drop_last()));
                assert(trace_ok(states(g0), cols as nat, seq![step]));
                assert(steps@.take(st0.len() as int) =~= st0);
                assert(seq![step].drop_last() =~= Seq::<SolveStep>::empty());
                assert(replay(states(g0), cols as nat, Seq::<SolveStep>::empty()) == states(g0));
                assert(replay(states(g0), cols as nat, seq![step]) == apply_changes(
                    replay(states(g0), cols as nat, seq![step].drop_last()),
                    cols as nat,
                    step.cells_changed@,
                ));
            }
        } else {
            proof {
                assert(replay(states(g0), cols as nat, Seq::<SolveStep>::empty()) == states(g0));
                assert(apply_changes(states(g0), cols as nat, cells_changed@) == states(g0));
            }
        }
        (true, changed)
    }
}

impl SearchState {
    /// Forces the cells of column `c` on which every completion agrees.
    /// Returns `(false, _)` when the column has no completion at all, and
    /// whether any cell changed.
    #[verifier::rlimit(40)]
    fn propagate_col(&self, grid: &mut Vec<Cell>, steps: &mut Vec<SolveStep>, c: usize) -> (res: (
        bool,
        bool,
    ))
        requires
            self.wf(),
            old(grid)@.len() == self.size(),
            c < self.cols,
        ensures
            final(grid)@.len() == self.size(),
            agrees(final(grid)@, old(grid)@),
            (res.0, final(grid)@) == self.line_step(old(grid)@, self.rows + c),
            !res.0 ==> stuck(self.col(final(grid)@, c as int), self.cclues(c as int)),
            res.0 && !res.1 ==> settled(self.col(final(grid)@, c as int), self.cclues(c as int)),
            res.1 ==> unknowns(final(grid)@) < unknowns(old(grid)@),
            !res.1 ==> final(grid)@ == old(grid)@,
            !res.0 ==> !res.1 && forall|s: Seq<Cell>| !(#[trigger] self.solves(s) && agrees(s, old(grid)@)),
            forall|s: Seq<Cell>| #[trigger] self.solves(s) && agrees(s, old(grid)@) ==> agrees(s, final(grid)@),
            final(steps)@.len() >= old(steps)@.len(),
            final(steps)@.take(old(steps)@.len() as int) == old(steps)@,
            states(final(grid)@) == replay(
                states(old(grid)@),
                self.cols as nat,
                final(steps)@.skip(old(steps)@.len() as int),
            ),
            trace_ok(states(old(grid)@), self.cols as nat, final(steps)@.skip(old(steps)@.len() as int)),
            matches_trace(final(steps)@.skip(old(steps)@.len() as int), self.visit_trace(old(grid)@, self.rows + c)),
    {
        let ghost g0 = grid@;
        let ghost st0 = steps@;
        let cols = self.cols;
        let rows = self.rows;
        proof {
            assert(steps@.skip(st0.len() as int) =~= Seq::<SolveStep>::empty());
            assert(steps@.take(st0.len() as int) =~= st0);
        }
        let cells = self.extract_col(grid, c);
        if !has_unknown(&cells) {
            return (true, false);
        }
        let completions = enumerate_completions(&cells, self.col_clues[c].as_slice());
        if completions.len() == 0 {
            proof {
                assert forall|s: Seq<Cell>| !(#[trigger] self.solves(s) && agrees(s, g0)) by {
                    if self.solves(s) && agrees(s, g0) {
                        self.lemma_col_completion(s, g0, c as int);
                        assert(listed(completions@, 0, self.col(s, c as int)));
                    }
                }
                assert forall|l: Seq<Cell>| !is_completion(l, cells@, self.cclues(c as int)) by {
                    if is_completion(l, cells@, self.cclues(c as int)) {
                        assert(listed(completions@, 0, l));
                    }
                }
            }
            return (false, false);
        }
        proof {
            assert forall|k: int| 0 <= k < completions.len() implies #[trigger] completions@[k]@.len()
                == completions@[0]@.len() by {
                assert(is_completion(completions@[k]@, cells@, self.cclues(c as int)));
                assert(is_completion(completions@[0]@, cells@, self.cclues(c as int)));
            }
            assert(is_completion(completions@[0]@, cells@, self.cclues(c as int)));
            lemma_fits_full(completions@[0]@, self.cclues(c as int));
        }
        let forced = forced_cells(&completions);
        let ghost fl = forced_line(cells@, self.cclues(c as int));
        let mut cells_changed: Vec<(usize, usize, CellState)> = Vec::new();
        let mut changed = false;
        let mut rr: usize = 0;
        while rr < rows
            invariant
                self.wf(),
                cols == self.cols,
                rows == self.rows,
                c < cols,
                rr <= rows,
                g0.len() == self.size(),
                grid@.len() == self.size(),
                cells@ == self.col(g0, c as int),
                completions@.len() > 0,
                all_completions(completions@, 0, cells@, self.cclues(c as int)),
                forall|l: Seq<Cell>| is_completion(l, cells@, self.cclues(c as int)) ==> listed(completions@, 0, l),
                is_full(completions@[0]@),
                completions@[0]@.len() == rows,
                forced@.len() == rows,
                forall|i: int| 0 <= i < forced@.len() ==> #[trigger] forced@[i] == (if (forall|k: int|
                    0 <= k < completions.len() ==> #[trigger] completions@[k]@[i] == completions@[0]@[i]) {
                    Some(completions@[0]@[i])
                } else {
                    None
                }),
                forall|k: int| rr <= k < rows ==> #[trigger] self.col(grid@, c as int)[k] == self.col(g0, c as int)[k],
                fl == forced_line(cells@, self.cclues(c as int)),
                cells@ == self.line_at(g0, self.rows + c),
                self.clues_at(self.rows + c) == self.cclues(c as int),
                cells_changed@ == self.visit_changes(g0, self.rows + c, rr as nat),
                forall|j: int| 0 <= j < rr ==> #[trigger] self.col(grid@, c as int)[j] == fl[j],
                forall|i: int| 0 <= i < g0.len() && i % (cols as int) != c ==> #[trigger] grid@[i] == g0[i],
                agrees(grid@, g0),
                changed == (cells_changed@.len() > 0),
                changed ==> unknowns(grid@) < unknowns(g0),
                !changed ==> grid@ == g0,
                !changed ==> forall|i: int| 0 <= i < rr ==> (#[trigger] forced@[i] matches Some(v) ==> v == cells@[i]),
                states(grid@) == apply_changes(states(g0), cols as nat, cells_changed@),
                forall|j: int|
                    0 <= j < cells_changed@.len() ==> {
                        let ch = #[trigger] cells_changed@[j];
                        &&& ch.1 == c
                        &&& ch.0 < rr
                        &&& ch.0 * cols + ch.1 < self.size()
                        &&& states(g0)[ch.0 * cols + ch.1] == CellState::Unknown
                        &&& ch.2 != CellState::Unknown
                    },
                forall|j1: int, j2: int|
                    0 <= j1 < j2 < cells_changed@.len() ==> (#[trigger] cells_changed@[j1]).0 < (
                    #[trigger] cells_changed@[j2]).0,
                forall|s: Seq<Cell>| #[trigger] self.solves(s) && agrees(s, g0) ==> agrees(s, grid@),
            decreases rows - rr,
        {
            proof {
                lemma_cell_index(rr as int, c as int, rows as int, cols as int);
            }
            let idx = rr * cols + c;
            let ghost gb = grid@;
            let ghost cc0 = cells_changed@;
            proof {
                lemma_join_index(rr as int, c as int, cols as int);
            }
            if let Some(v) = forced[rr] {
                if grid[idx] != v {
                    proof {
                        assert(v == completions@[0]@[rr as int]);
                        assert(is_completion(completions@[0]@, cells@, self.cclues(c as int)));
                        assert(cells@[rr as int] == g0[idx as int]);
                        assert(self.col(grid@, c as int)[rr as int] == self.col(g0, c as int)[rr as int]);
                        assert(grid@[idx as int] == g0[idx as int]);
                        assert(g0[idx as int] == Cell::Unknown);
                        assert(v != Cell::Unknown);
                        lemma_unknowns_update(grid@, idx as int, v);
                    }
                    let ghost gprev = grid@;
                    let ghost cprev = cells_changed@;
                    grid.set(idx, v);
                    cells_changed.push((rr, c, to_state(v)));
                    changed = true;
                    proof {
                        assert(states(grid@) =~= set_cell(states(gprev), cols as nat, (rr, c, cell_state(v))));
                        assert(cells_changed@.drop_last() =~= cprev);
                        assert(cells_changed@[cprev.len() as int] == (rr, c, cell_state(v)));
                        assert forall|j: int| 0 <= j < cprev.len() implies #[trigger] cells_changed@[j] == cprev[j] by {}
                        assert forall|k: int| rr + 1 <= k < rows implies #[trigger] self.col(grid@, c as int)[k] == self.col(g0, c as int)[k] by {
                            lemma_cell_index(k, c as int, rows as int, cols as int);
                            assert(self.col(gprev, c as int)[k] == self.col(g0, c as int)[k]);
                            if k * cols + c == idx {
                                lemma_cell_index_unique(k, c as int, rr as int, c as int, cols as int);
                            }
                        }
                        assert forall|s: Seq<Cell>| #[trigger] self.solves(s) && agrees(s, g0) implies agrees(s, grid@) by {
                            self.lemma_col_completion(s, g0, c as int);
                            let l = self.col(s, c as int);
                            assert(listed(completions@, 0, l));
                            let k = choose|k: int| 0 <= k < completions@.len() && #[trigger] completions@[k]@ == l;
                            assert(completions@[k]@[rr as int] == v);
                            assert(l[rr as int] == s[idx as int]);
                            assert(agrees(s, gprev));
                        }
                    }
                }
            }
            proof {
                assert(cells@[rr as int] == self.col(g0, c as int)[rr as int]);
                assert(self.col(g0, c as int)[rr as int] == g0[idx as int]);
                lemma_forced_value(cells@, self.cclues(c as int), completions@, forced@, rr as int);
                assert(self.col(grid@, c as int)[rr as int] == grid@[idx as int]);
                assert(completions@[0]@[rr as int] != Cell::Unknown);
                assert(fl[rr as int] == cells@[rr as int] || fl[rr as int] == completions@[0]@[rr as int]);
                assert(cells_changed@ == self.visit_changes(g0, self.rows + c, (rr + 1) as nat)) by {
                    if cells@[rr as int] == Cell::Unknown && fl[rr as int] != Cell::Unknown {
                        assert(cells_changed@ == cc0.push((rr, c, cell_state(fl[rr as int]))));
                    } else {
                        assert(cells_changed@ == cc0);
                    }
                }
                assert forall|j: int| 0 <= j < rr + 1 implies #[trigger] self.col(grid@, c as int)[j] == fl[j] by {
                    if j < rr {
                        lemma_cell_index(j, c as int, rows as int, cols as int);
                        assert(self.col(gb, c as int)[j] == fl[j]);
                        assert(self.col(gb, c as int)[j] == gb[j * cols + c]);
                        if j * cols + c == idx {
                            lemma_cell_index_unique(j, c as int, rr as int, c as int, cols as int);
                        }
                        assert(grid@[j * cols + c] == gb[j * cols + c]);
                    }
                }
                assert forall|i: int| 0 <= i < g0.len() && i % (cols as int) != c implies #[trigger] grid@[i] == g0[i] by {
                    assert(gb[i] == g0[i]);
                }
            }
            rr += 1;
        }
        proof {
            if !changed {
                lemma_settled(cells@, self.cclues(c as int), completions@, forced@);
            }
            assert(is_completion(completions@[0]@, cells@, self.cclues(c as int)));
            assert(grid@ =~= self.put_line(g0, self.rows + c, fl)) by {
                assert forall|i: int| 0 <= i < grid@.len() implies grid@[i] == self.put_line(g0, self.rows + c, fl)[i] by {
                    if i % (cols as int) == c {
                        lemma_split_index(i, rows as int, cols as int);
                        let k = i / (cols as int);
                        assert(self.col(grid@, c as int)[k] == fl[k]);
                        assert(self.col(grid@, c as int)[k] == grid@[k * cols + c]);
                    }
                }
            }
        }
        if cells_changed.len() > 0 {
            let description = line_description(false, c, false);
            let ghost chs = cells_changed@;
            let step = SolveStep { description, line: Some(LineId::Col(c)), cells_changed };
            steps.push(step);
            proof {
                assert(steps@.skip(st0.len() as int) =~= seq![step]);
                assert(seq![step].drop_last() =~= Seq::<SolveStep>::empty());
                assert(step.cells_changed@ == chs);
                assert(is_completion(completions@[0]@, cells@, self.cclues(c as int)));
                assert(self.line_at(g0, self.rows + c).len() == rows);
                assert(matches_trace(seq![step], self.visit_trace(g0, self.rows + c)));
                assert(step_ok(states(g0), cols as nat, step)) by {
                    assert forall|j1: int, j2: int|
                        0 <= j1 < j2 < chs.len() implies (#[trigger] chs[j1]).0 != (#[trigger] chs[j2]).0 || chs[j1].1
                            != chs[j2].1 by {}
                }
                assert(replay(states(g0), cols as nat, Seq::<SolveStep>::empty()) == states(g0));
                assert(seq![step].last() == step);
                assert(trace_ok(states(g0), cols as nat, seq![step].drop_last()));
                assert(trace_ok(states(g0), cols as nat, seq![step]));
                assert(steps@.take(st0.len() as int) =~= st0);
                assert(seq![step].drop_last() =~= Seq::<SolveStep>::empty());
                assert(replay(states(g0), cols as nat, Seq::<SolveStep>::empty()) == states(g0));
                assert(replay(states(g0), cols as nat, seq![step]) == apply_changes(
                    replay(states(g0), cols as nat, seq![step].drop_last()),
                    cols as nat,
                    step.cells_changed@,
                ));
            }
        } else {
            proof {
                assert(replay(states(g0), cols as nat, Seq::<SolveStep>::empty()) == states(g0));
                assert(apply_changes(states(g0), cols as nat, cells_changed@) == states(g0));
            }
        }
        (true, changed)
    }
}

impl SearchState {
    /// Cascades intersection-forced cells over all rows and columns until
    /// nothing changes. Returns `false` on a line with no completion. Adds
    /// one step per line visit that fixed at least one cell, listing
    /// exactly the cells that visit fixed (`settle`, `settle_trace`).
    fn propagate(&self, grid: &mut Vec<Cell>, steps: &mut Vec<SolveStep>) -> (ok: bool)
        requires
            self.wf(),
            old(grid)@.len() == self.size(),
        ensures
            final(grid)@.len() == self.size(),
            agrees(final(grid)@, old(grid)@),
            (ok, final(grid)@) == self.settle(old(grid)@, (self.size() + 1) as nat),
            ok ==> forall|k: int| 0 <= k < self.nlines() ==> settled(#[trigger] self.line_at(final(grid)@, k), self.clues_at(k)),
            !ok ==> exists|k: int| 0 <= k < self.nlines() && stuck(#[trigger] self.line_at(final(grid)@, k), self.clues_at(k)),
            unknowns(final(grid)@) <= unknowns(old(grid)@),
            forall|s: Seq<Cell>| #[trigger] self.solves(s) && agrees(s, old(grid)@) ==> ok && agrees(s, final(grid)@),
            final(steps)@.len() >= old(steps)@.len(),
            final(steps)@.take(old(steps)@.len() as int) == old(steps)@,
            states(final(grid)@) == replay(
                states(old(grid)@),
                self.cols as nat,
                final(steps)@.skip(old(steps)@.len() as int),
            ),
            trace_ok(states(old(grid)@), self.cols as nat, final(steps)@.skip(old(steps)@.len() as int)),
            matches_trace(
                final(steps)@.skip(old(steps)@.len() as int),
                self.settle_trace(old(grid)@, (self.size() + 1) as nat),
            ),
    {
        let ghost g0 = grid@;
        let ghost st0 = steps@;
        let cols = self.cols;
        proof {
            assert(steps@.skip(st0.len() as int) =~= Seq::<SolveStep>::empty());
            assert(steps@.take(st0.len() as int) =~= st0);
            assert(agrees(grid@, g0));
            lemma_unknowns_bound(grid@);
        }
        let ghost mut fuel: nat = (self.size() + 1) as nat;
        let ghost mut done: Seq<(LineId, Seq<(usize, usize, CellState)>, Seq<char>)> = Seq::empty();
        loop
            invariant_except_break
                self.settle_trace(g0, (self.size() + 1) as nat) == done + self.settle_trace(grid@, fuel),
                matches_trace(steps@.skip(st0.len() as int), done),
            invariant
                self.wf(),
                cols == self.cols,
                g0.len() == self.size(),
                g0 == old(grid)@,
                st0 == old(steps)@,
                grid@.len() == self.size(),
                agrees(grid@, g0),
                unknowns(grid@) <= unknowns(g0),
                forall|s: Seq<Cell>| #[trigger] self.solves(s) && agrees(s, g0) ==> agrees(s, grid@),
                steps@.len() >= st0.len(),
                steps@.take(st0.len() as int) == st0,
                states(grid@) == replay(states(g0), cols as nat, steps@.skip(st0.len() as int)),
                trace_ok(states(g0), cols as nat, steps@.skip(st0.len() as int)),
                self.settle(g0, (self.size() + 1) as nat) == self.settle(grid@, fuel),
                fuel >= unknowns(grid@) + 1,
            ensures
                matches_trace(steps@.skip(st0.len() as int), self.settle_trace(g0, (self.size() + 1) as nat)),
                forall|k: int| 0 <= k < self.nlines() ==> settled(#[trigger] self.line_at(grid@, k), self.clues_at(k)),
                self.settle(g0, (self.size() + 1) as nat) == (true, grid@),
            decreases unknowns(grid@),
        {
            let ghost u0 = unknowns(grid@);
            let ghost gs = grid@;
            let ghost sp0 = steps@;
            let mut changed = false;
            let mut r: usize = 0;
            while r < self.rows
                invariant
                    self.wf(),
                    cols == self.cols,
                    r <= self.rows,
                    g0.len() == self.size(),
                    g0 == old(grid)@,
                    st0 == old(steps)@,
                g0 == old(grid)@,
                st0 == old(steps)@,
                    grid@.len() == self.size(),
                    agrees(grid@, g0),
                    unknowns(grid@) <= u0,
                    u0 <= unknowns(g0),
                    u0 == unknowns(gs),
                    self.settle(g0, (self.size() + 1) as nat) == self.settle(gs, fuel),
                    fuel >= u0 + 1,
                    self.settle_trace(g0, (self.size() + 1) as nat) == done + self.settle_trace(gs, fuel),
                    matches_trace(sp0.skip(st0.len() as int), done),
                    sp0.len() >= st0.len(),
                    sp0.take(st0.len() as int) == st0,
                    steps@.len() >= sp0.len(),
                    steps@.take(sp0.len() as int) == sp0,
                    changed ==> unknowns(grid@) < u0,
                    !changed ==> grid@ == gs,
                    !changed ==> forall|k: int| 0 <= k < r ==> settled(#[trigger] self.row(grid@, k), self.rclues(k)),
                    self.sweep(gs, r as nat) == (true, grid@),
                    matches_trace(steps@.skip(sp0.len() as int), self.sweep_trace(gs, r as nat)),
                    forall|s: Seq<Cell>| #[trigger] self.solves(s) && agrees(s, g0) ==> agrees(s, grid@),
                    steps@.len() >= st0.len(),
                    steps@.take(st0.len() as int) == st0,
                    states(grid@) == replay(states(g0), cols as nat, steps@.skip(st0.len() as int)),
                trace_ok(states(g0), cols as nat, steps@.skip(st0.len() as int)),
                decreases self.rows - r,
            {
                let ghost gp = grid@;
                let ghost sp = steps@;
                let (ok, ch) = self.propagate_row(grid, steps, r);
                proof {
                    self.lemma_step_chain(g0, gp, grid@, st0, sp, steps@);
                }
                proof {
                    assert(self.sweep(gs, (r + 1) as nat) == self.line_step(gp, r as int));
                    assert(self.sweep_trace(gs, (r + 1) as nat) == self.sweep_trace(gs, r as nat) + self.visit_trace(gp, r as int));
                    lemma_skip_split(sp0, sp, steps@);
                    lemma_matches_concat(sp.skip(sp0.len() as int), steps@.skip(sp.len() as int), self.sweep_trace(gs, r as nat), self.visit_trace(gp, r as int));
                }
                if !ok {
                    proof {
                        assert(self.line_at(grid@, r as int) == self.row(grid@, r as int));
                        self.lemma_sweep_stops(gs, (r + 1) as nat, self.nlines() as nat);
                        self.lemma_sweep_trace_stops(gs, (r + 1) as nat, self.nlines() as nat);
                        lemma_skip_split(st0, sp0, steps@);
                        lemma_matches_concat(sp0.skip(st0.len() as int), steps@.skip(sp0.len() as int), done, self.sweep_trace(gs, (r + 1) as nat));
                    }
                    return false;
                }
                if ch {
                    changed = true;
                }
                r += 1;
            }
            let mut c: usize = 0;
            while c < self.cols
                invariant
                    self.wf(),
                    cols == self.cols,
                    c <= self.cols,
                    g0.len() == self.size(),
                    g0 == old(grid)@,
                    st0 == old(steps)@,
                g0 == old(grid)@,
                st0 == old(steps)@,
                    grid@.len() == self.size(),
                    agrees(grid@, g0),
                    unknowns(grid@) <= u0,
                    u0 <= unknowns(g0),
                    u0 == unknowns(gs),
                    self.settle(g0, (self.size() + 1) as nat) == self.settle(gs, fuel),
                    fuel >= u0 + 1,
                    self.settle_trace(g0, (self.size() + 1) as nat) == done + self.settle_trace(gs, fuel),
                    matches_trace(sp0.skip(st0.len() as int), done),
                    sp0.len() >= st0.len(),
                    sp0.take(st0.len() as int) == st0,
                    steps@.len() >= sp0.len(),
                    steps@.take(sp0.len() as int) == sp0,
                    changed ==> unknowns(grid@) < u0,
                    !changed ==> grid@ == gs,
                    !changed ==> forall|k: int| 0 <= k < self.rows ==> settled(#[trigger] self.row(grid@, k), self.rclues(k)),
                    !changed ==> forall|k: int| 0 <= k < c ==> settled(#[trigger] self.col(grid@, k), self.cclues(k)),
                    self.sweep(gs, (self.rows + c) as nat) == (true, grid@),
                    matches_trace(steps@.skip(sp0.len() as int), self.sweep_trace(gs, (self.rows + c) as nat)),
                    forall|s: Seq<Cell>| #[trigger] self.solves(s) && agrees(s, g0) ==> agrees(s, grid@),
                    steps@.len() >= st0.len(),
                    steps@.take(st0.len() as int) == st0,
                    states(grid@) == replay(states(g0), cols as nat, steps@.skip(st0.len() as int)),
                trace_ok(states(g0), cols as nat, steps@.skip(st0.len() as int)),
                decreases self.cols - c,
            {
                let ghost gp = grid@;
                let ghost sp = steps@;
                let (ok, ch) = self.propagate_col(grid, steps, c);
                proof {
                    self.lemma_step_chain(g0, gp, grid@, st0, sp, steps@);
                }
                proof {
                    assert(self.sweep(gs, (self.rows + c + 1) as nat) == self.line_step(gp, self.rows + c));
                    assert(self.sweep_trace(gs, (self.rows + c + 1) as nat) == self.sweep_trace(gs, (self.rows + c) as nat) + self.visit_trace(gp, self.rows + c));
                    lemma_skip_split(sp0, sp, steps@);
                    lemma_matches_concat(sp.skip(sp0.len() as int), steps@.skip(sp.len() as int), self.sweep_trace(gs, (self.rows + c) as nat), self.visit_trace(gp, self.rows + c));
                }
                if !ok {
                    proof {
                        assert(self.line_at(grid@, self.rows + c) == self.col(grid@, c as int));
                        assert(self.clues_at(self.rows + c) == self.cclues(c as int));
                        self.lemma_sweep_stops(gs, (self.rows + c + 1) as nat, self.nlines() as nat);
                        self.lemma_sweep_trace_stops(gs, (self.rows + c + 1) as nat, self.nlines() as nat);
                        lemma_skip_split(st0, sp0, steps@);
                        lemma_matches_concat(sp0.skip(st0.len() as int), steps@.skip(sp0.len() as int), done, self.sweep_trace(gs, (self.rows + c + 1) as nat));
                    }
                    return false;
                }
                if ch {
                    changed = true;
                }
                c += 1;
            }
            if !changed {
                proof {
                    assert forall|k: int| 0 <= k < self.nlines() implies settled(#[trigger] self.line_at(grid@, k), self.clues_at(k)) by {
                        if k >= self.rows {
                            assert(settled(self.col(grid@, k - self.rows), self.cclues(k - self.rows)));
                        }
                    }
                }
                proof {
                    lemma_skip_split(st0, sp0, steps@);
                    lemma_matches_concat(sp0.skip(st0.len() as int), steps@.skip(sp0.len() as int), done, self.sweep_trace(gs, self.nlines() as nat));
                }
                break;
            }
            proof {
                assert(grid@ != gs);
                lemma_skip_split(st0, sp0, steps@);
                lemma_matches_concat(sp0.skip(st0.len() as int), steps@.skip(sp0.len() as int), done, self.sweep_trace(gs, self.nlines() as nat));
                assert(self.settle_trace(gs, fuel) == self.sweep_trace(gs, self.nlines() as nat) + self.settle_trace(grid@, (fuel - 1) as nat));
                assert(done + (self.sweep_trace(gs, self.nlines() as nat) + self.settle_trace(grid@, (fuel - 1) as nat)) =~= (done + self.sweep_trace(gs, self.nlines() as nat)) + self.settle_trace(grid@, (fuel - 1) as nat));
                done = done + self.sweep_trace(gs, self.nlines() as nat);
                fuel = (fuel - 1) as nat;
            }
        }
        true
    }

    /// Chains two consecutive stages of grid refinement and step recording.
    proof fn lemma_step_chain(
        &self,
        g0: Seq<Cell>,
        g1: Seq<Cell>,
        g2: Seq<Cell>,
        s0: Seq<SolveStep>,
        s1: Seq<SolveStep>,
        s2: Seq<SolveStep>,
    )
        requires
            g0.len() == g1.len(),
            g1.len() == g2.len(),
            agrees(g1, g0),
            agrees(g2, g1),
            s1.len() >= s0.len(),
            s1.take(s0.len() as int) == s0,
            s2.len() >= s1.len(),
            s2.take(s1.len() as int) == s1,
            states(g1) == replay(states(g0), self.cols as nat, s1.skip(s0.len() as int)),
            states(g2) == replay(states(g1), self.cols as nat, s2.skip(s1.len() as int)),
            trace_ok(states(g0), self.cols as nat, s1.skip(s0.len() as int)),
            trace_ok(states(g1), self.cols as nat, s2.skip(s1.len() as int)),
        ensures
            agrees(g2, g0),
            s2.take(s0.len() as int) == s0,
            states(g2) == replay(states(g0), self.cols as nat, s2.skip(s0.len() as int)),
            trace_ok(states(g0), self.cols as nat, s2.skip(s0.len() as int)),
    {
        assert(s2.take(s0.len() as int) =~= s0) by {
            assert forall|i: int| 0 <= i < s0.len() implies s2[i] == s0[i] by {
                assert(s2.take(s1.len() as int)[i] == s1[i]);
                assert(s1.take(s0.len() as int)[i] == s0[i]);
            }
        }
        assert(s2.skip(s0.len() as int) =~= s1.skip(s0.len() as int) + s2.skip(s1.len() as int)) by {
            assert forall|i: int| s0.len() <= i < s1.len() implies #[trigger] s2[i] == s1[i] by {
                assert(s2.take(s1.len() as int)[i] == s1[i]);
            }
        }
        lemma_replay_concat(states(g0), self.cols as nat, s1.skip(s0.len() as int), s2.skip(s1.len() as int));
        lemma_trace_concat(states(g0), self.cols as nat, s1.skip(s0.len() as int), s2.skip(s1.len() as int));
    }
}

pub proof fn lemma_split_index(i: int, rows: int, cols: int)
    requires
        0 <= i < rows * cols,
        cols > 0,
    ensures
        0 <= i / cols < rows,
        0 <= i % cols < cols,
        i == (i / cols) * cols + i % cols,
{
    vstd::arithmetic::div_mod::lemma_fundamental_div_mod(i, cols);
    vstd::arithmetic::div_mod::lemma_mod_bound(i, cols);
    let q = i / cols;
    let m = i % cols;
    assert(cols * q == q * cols) by (nonlinear_arith);
    assert(0 <= q) by (nonlinear_arith)
        requires
            i == q * cols + m,
            0 <= i,
            0 <= m < cols,
    ;
    assert(q < rows) by (nonlinear_arith)
        requires
            i == q * cols + m,
            i < rows * cols,
            0 <= m,
            cols > 0,
    ;
}

proof fn lemma_join_index(k: int, c: int, cols: int)
    requires
        0 <= k,
        0 <= c < cols,
    ensures
        (k * cols + c) / cols == k,
        (k * cols + c) % cols == c,
{
    vstd::arithmetic::div_mod::lemma_fundamental_div_mod_converse_div(k * cols + c, cols, k, c);
    vstd::arithmetic::div_mod::lemma_fundamental_div_mod_converse_mod(k * cols + c, cols, k, c);
}

impl SearchState {
    /// Line number `k` in search order: rows first, then columns.
    pub open spec fn line_at(&self, g: Seq<Cell>, k: int) -> Seq<Cell> {
        if k < self.rows { self.row(g, k) } else { self.col(g, k - self.rows) }
    }

    pub open spec fn clues_at(&self, k: int) -> Seq<usize> {
        if k < self.rows { self.rclues(k) } else { self.cclues(k - self.rows) }
    }

    /// Grid `g` with line `k` (in search order) replaced by `l`.
    pub open spec fn put_line(&self, g: Seq<Cell>, k: int, l: Seq<Cell>) -> Seq<Cell> {
        Seq::new(
            g.len(),
            |i: int|
                if k < self.rows {
                    if k * self.cols <= i < k * self.cols + self.cols {
                        l[i - k * self.cols]
                    } else {
                        g[i]
                    }
                } else {
                    if i % (self.cols as int) == k - self.rows {
                        l[i / (self.cols as int)]
                    } else {
                        g[i]
                    }
                },
        )
    }

    /// One visit of line `k`: `(false, g)` when the line has an unknown
    /// cell and no completion; `g` itself when the line is fully known;
    /// otherwise `g` with the line's forced cells set.
    pub open spec fn line_step(&self, g: Seq<Cell>, k: int) -> (bool, Seq<Cell>) {
        let l = self.line_at(g, k);
        let q = self.clues_at(k);
        if stuck(l, q) {
            (false, g)
        } else if is_full(l) {
            (true, g)
        } else {
            (true, self.put_line(g, k, forced_line(l, q)))
        }
    }

    /// Visits lines `0..k` in search order, stopping at the first stuck one.
    pub open spec fn sweep(&self, g: Seq<Cell>, k: nat) -> (bool, Seq<Cell>)
        decreases k,
    {
        if k == 0 {
            (true, g)
        } else {
            let p = self.sweep(g, (k - 1) as nat);
            if !p.0 {
                p
            } else {
                self.line_step(p.1, k - 1)
            }
        }
    }

    /// Sweeps every line again and again until a stuck line or a sweep
    /// that changes nothing, within `fuel` further sweeps.
    pub open spec fn settle(&self, g: Seq<Cell>, fuel: nat) -> (bool, Seq<Cell>)
        decreases fuel,
    {
        let p = self.sweep(g, self.nlines() as nat);
        if !p.0 || p.1 == g || fuel == 0 {
            p
        } else {
            self.settle(p.1, (fuel - 1) as nat)
        }
    }

    /// What propagation makes of the all-unknown grid: whether it met no
    /// stuck line, and the grid it reached.
    pub open spec fn root(&self) -> (bool, Seq<Cell>) {
        self.settle(Seq::new(self.size(), |i: int| Cell::Unknown), self.size() + 1)
    }

    /// Propagation alone decides the puzzle: it meets a stuck line or
    /// leaves no unknown cell.
    pub open spec fn root_decided(&self) -> bool {
        !self.root().0 || is_full(self.root().1)
    }

    /// Two problems with the same dimensions and the same clues.
    pub open spec fn same_problem(&self, o: &SearchState) -> bool {
        &&& self.rows == o.rows
        &&& self.cols == o.cols
        &&& forall|r: int| 0 <= r < self.rows ==> #[trigger] self.rclues(r) == o.rclues(r)
        &&& forall|c: int| 0 <= c < self.cols ==> #[trigger] self.cclues(c) == o.cclues(c)
    }

    proof fn lemma_sweep_same(&self, o: &SearchState, g: Seq<Cell>, k: nat)
        requires
            self.same_problem(o),
            k <= self.nlines(),
        ensures
            self.sweep(g, k) == o.sweep(g, k),
        decreases k,
    {
        if k > 0 {
            self.lemma_sweep_same(o, g, (k - 1) as nat);
            let h = self.sweep(g, (k - 1) as nat).1;
            assert(self.clues_at(k - 1) == o.clues_at(k - 1));
            assert(self.line_at(h, k - 1) == o.line_at(h, k - 1));
        }
    }

    proof fn lemma_settle_same(&self, o: &SearchState, g: Seq<Cell>, fuel: nat)
        requires
            self.same_problem(o),
        ensures
            self.settle(g, fuel) == o.settle(g, fuel),
        decreases fuel,
    {
        self.lemma_sweep_same(o, g, self.nlines() as nat);
        if fuel > 0 {
            self.lemma_settle_same(o, self.sweep(g, self.nlines() as nat).1, (fuel - 1) as nat);
        }
    }

    /// Propagation depends on the dimensions and clues alone.
    pub proof fn lemma_root_same(&self, o: &SearchState)
        requires
            self.same_problem(o),
        ensures
            self.root() == o.root(),
    {
        self.lemma_settle_same(o, Seq::new(self.size(), |i: int| Cell::Unknown), self.size() + 1);
    }

    /// The public name of line `k` in search order.
    pub open spec fn line_name(&self, k: int) -> LineId {
        if k < self.rows { LineId::Row(k as usize) } else { LineId::Col((k - self.rows) as usize) }
    }

    /// The changes a visit of line `k` makes among its first `p` cells:
    /// each unknown cell that propagation fixes, in order along the line,
    /// as (row, column, new state).
    pub open spec fn visit_changes(&self, g: Seq<Cell>, k: int, p: nat) -> Seq<(usize, usize, CellState)>
        decreases p,
    {
        if p == 0 {
            Seq::empty()
        } else {
            let prev = self.visit_changes(g, k, (p - 1) as nat);
            let l = self.line_at(g, k);
            let f = forced_line(l, self.clues_at(k));
            let i = p - 1;
            if l[i] == Cell::Unknown && f[i] != Cell::Unknown {
                prev.push(
                    if k < self.rows {
                        (k as usize, i as usize, cell_state(f[i]))
                    } else {
                        (i as usize, (k - self.rows) as usize, cell_state(f[i]))
                    },
                )
            } else {
                prev
            }
        }
    }

    /// The steps a visit of line `k` records on `g` (line, changes,
    /// description): none when the line is stuck, fully known, or gains no
    /// known cell; else one.
    pub open spec fn visit_trace(&self, g: Seq<Cell>, k: int) -> Seq<(LineId, Seq<(usize, usize, CellState)>, Seq<char>)> {
        let l = self.line_at(g, k);
        let ch = self.visit_changes(g, k, l.len());
        if stuck(l, self.clues_at(k)) || is_full(l) || ch.len() == 0 {
            Seq::empty()
        } else {
            seq![(self.line_name(k), ch, step_text(k < self.rows, (if k < self.rows { k } else { k - self.rows }) as nat, false))]
        }
    }

    /// The steps recorded by visiting lines `0..k`, up to the first stuck one.
    pub open spec fn sweep_trace(&self, g: Seq<Cell>, k: nat) -> Seq<(LineId, Seq<(usize, usize, CellState)>, Seq<char>)>
        decreases k,
    {
        if k == 0 {
            Seq::empty()
        } else {
            let p = self.sweep(g, (k - 1) as nat);
            if !p.0 {
                self.sweep_trace(g, (k - 1) as nat)
            } else {
                self.sweep_trace(g, (k - 1) as nat) + self.visit_trace(p.1, k - 1)
            }
        }
    }

    /// The steps recorded by `settle`.
    pub open spec fn settle_trace(&self, g: Seq<Cell>, fuel: nat) -> Seq<(LineId, Seq<(usize, usize, CellState)>, Seq<char>)>
        decreases fuel,
    {
        let p = self.sweep(g, self.nlines() as nat);
        let t = self.sweep_trace(g, self.nlines() as nat);
        if !p.0 || p.1 == g || fuel == 0 {
            t
        } else {
            t + self.settle_trace(p.1, (fuel - 1) as nat)
        }
    }

    /// The steps propagation records from the all-unknown grid.
    pub open spec fn root_trace(&self) -> Seq<(LineId, Seq<(usize, usize, CellState)>, Seq<char>)> {
        self.settle_trace(Seq::new(self.size(), |i: int| Cell::Unknown), self.size() + 1)
    }

    /// Once a sweep has met a stuck line, further lines record nothing.
    proof fn lemma_sweep_trace_stops(&self, g: Seq<Cell>, k: nat, k2: nat)
        requires
            k <= k2,
            !self.sweep(g, k).0,
        ensures
            self.sweep_trace(g, k2) == self.sweep_trace(g, k),
        decreases k2,
    {
        if k2 > k {
            self.lemma_sweep_trace_stops(g, k, (k2 - 1) as nat);
            self.lemma_sweep_stops(g, k, (k2 - 1) as nat);
        }
    }

    /// Once a sweep has met a stuck line, further lines change nothing.
    proof fn lemma_sweep_stops(&self, g: Seq<Cell>, k: nat, k2: nat)
        requires
            k <= k2,
            !self.sweep(g, k).0,
        ensures
            self.sweep(g, k2) == self.sweep(g, k),
        decreases k2,
    {
        if k2 > k {
            self.lemma_sweep_stops(g, k, (k2 - 1) as nat);
        }
    }

    /// Clamped completion count of line `k`.
    pub open spec fn lcount(&self, g: Seq<Cell>, k: int) -> usize {
        clamp_usize(placements(self.line_at(g, k), self.clues_at(k)))
    }

    /// Line `k` still has an unknown cell.
    pub open spec fn open_line(&self, g: Seq<Cell>, k: int) -> bool {
        !is_full(self.line_at(g, k))
    }

    pub open spec fn nlines(&self) -> int {
        self.rows + self.cols
    }

    /// Every clue of every line is at least one.
    pub open spec fn all_nonzero(&self) -> bool {
        forall|k: int| 0 <= k < self.nlines() ==> nonzero(#[trigger] self.clues_at(k))
    }

    /// A clue of zero rules out every grid: no run of filled cells is empty.
    pub proof fn lemma_zero_clue_unsolvable(&self, s: Seq<Cell>)
        requires
            self.wf(),
            !self.all_nonzero(),
        ensures
            !self.solves(s),
    {
        let k = choose|k: int| 0 <= k < self.nlines() && !nonzero(#[trigger] self.clues_at(k));
        let q = self.clues_at(k);
        let i = choose|i: int| 0 <= i < q.len() && !(q[i] > 0);
        if self.solves(s) {
            let l = self.line_at(s, k);
            if k < self.rows {
                assert(line_ok(self.row(s, k), self.rclues(k)));
            } else {
                assert(line_ok(self.col(s, k - self.rows), self.cclues(k - self.rows)));
            }
            assert(runs(l) == as_ints(q));
            crate::line::lemma_runs_positive(l, 0);
            assert(runs(l)[i] == as_ints(q)[i]);
        }
    }

    spec fn lidx(&self, line: Line) -> int {
        match line {
            Line::Row(r) => r as int,
            Line::Col(c) => self.rows + c,
        }
    }

    /// Position of flat cell `i` within `line`, if it lies on it.
    spec fn line_pos(&self, line: Line, i: int) -> Option<int> {
        match line {
            Line::Row(r) => if r * self.cols <= i < r * self.cols + self.cols {
                Some(i - r * self.cols)
            } else {
                None
            },
            Line::Col(c) => if self.cols > 0 && i % (self.cols as int) == c {
                Some(i / (self.cols as int))
            } else {
                None
            },
        }
    }

    /// `g` with the first `p` cells of `line` replaced by `comp`.
    spec fn applied_upto(&self, g: Seq<Cell>, line: Line, comp: Seq<Cell>, p: int) -> Seq<Cell> {
        Seq::new(
            g.len(),
            |i: int|
                match self.line_pos(line, i) {
                    Some(q) => if q < p { comp[q] } else { g[i] },
                    None => g[i],
                },
        )
    }

    /// Whether every line is fully known.
    fn is_complete(&self, grid: &[Cell]) -> (r: bool)
        ensures
            r == is_full(grid@),
    {
        !has_unknown(grid)
    }

    /// Whether the grid is a solution: every row and column fully known and
    /// matching its clues.
    fn check(&self, grid: &Vec<Cell>) -> (r: bool)
        requires
            self.wf(),
            grid@.len() == self.size(),
        ensures
            r == self.solves(grid@),
    {
        let mut r: usize = 0;
        while r < self.rows
            invariant
                self.wf(),
                grid@.len() == self.size(),
                r <= self.rows,
                forall|k: int| 0 <= k < r ==> line_ok(#[trigger] self.row(grid@, k), self.rclues(k)),
            decreases self.rows - r,
        {
            let cells = self.extract_row(grid, r);
            if !line_matches(&cells, self.row_clues[r].as_slice()) {
                return false;
            }
            r += 1;
        }
        let mut c: usize = 0;
        while c < self.cols
            invariant
                self.wf(),
                grid@.len() == self.size(),
                c <= self.cols,
                forall|k: int| 0 <= k < self.rows ==> line_ok(#[trigger] self.row(grid@, k), self.rclues(k)),
                forall|k: int| 0 <= k < c ==> line_ok(#[trigger] self.col(grid@, k), self.cclues(k)),
            decreases self.cols - c,
        {
            let cells = self.extract_col(grid, c);
            if !line_matches(&cells, self.col_clues[c].as_slice()) {
                return false;
            }
            c += 1;
        }
        true
    }

    /// Fewest clamped completions among the lines that still have an unknown
    /// cell (`usize::MAX` when there is none).
    fn min_completion_count(&self, grid: &Vec<Cell>) -> (m: usize)
        requires
            self.wf(),
            grid@.len() == self.size(),
        ensures
            forall|k: int| 0 <= k < self.nlines() && self.open_line(grid@, k) ==> m <= self.lcount(grid@, k),
            m == usize::MAX || exists|k: int|
                0 <= k < self.nlines() && self.open_line(grid@, k) && m == self.lcount(grid@, k),
    {
        let mut min = usize::MAX;
        let mut r: usize = 0;
        while r < self.rows
            invariant
                self.wf(),
                grid@.len() == self.size(),
                r <= self.rows,
                forall|k: int| 0 <= k < r && self.open_line(grid@, k) ==> min <= self.lcount(grid@, k),
                min == usize::MAX || exists|k: int|
                    0 <= k < r && self.open_line(grid@, k) && min == self.lcount(grid@, k),
            decreases self.rows - r,
        {
            let cells = self.extract_row(grid, r);
            if has_unknown(&cells) {
                let n = count_completions(&cells, self.row_clues[r].as_slice());
                assert(n == self.lcount(grid@, r as int));
                if n < min {
                    min = n;
                }
            }
            r += 1;
        }
        let mut c: usize = 0;
        while c < self.cols
            invariant
                self.wf(),
                grid@.len() == self.size(),
                c <= self.cols,
                forall|k: int| 0 <= k < self.rows + c && self.open_line(grid@, k) ==> min <= self.lcount(grid@, k),
                min == usize::MAX || exists|k: int|
                    0 <= k < self.rows + c && self.open_line(grid@, k) && min == self.lcount(grid@, k),
            decreases self.cols - c,
        {
            let cells = self.extract_col(grid, c);
            if has_unknown(&cells) {
                let n = count_completions(&cells, self.col_clues[c].as_slice());
                assert(n == self.lcount(grid@, self.rows + c));
                assert(self.line_at(grid@, self.rows + c) == self.col(grid@, c as int));
                if n < min {
                    min = n;
                }
            }
            c += 1;
        }
        min
    }
}

impl SearchState {
    spec fn line_valid(&self, line: Line) -> bool {
        match line {
            Line::Row(r) => r < self.rows,
            Line::Col(c) => c < self.cols,
        }
    }

    /// `best` is the first line, among the first `upto` in search order,
    /// with the fewest completions among those still open.
    spec fn best_so_far(&self, g: Seq<Cell>, best: Option<(Line, usize)>, upto: int) -> bool {
        match best {
            None => forall|k: int| 0 <= k < upto ==> !self.open_line(g, k),
            Some((line, b)) => {
                &&& self.line_valid(line)
                &&& 0 <= self.lidx(line) < upto
                &&& self.open_line(g, self.lidx(line))
                &&& b == self.lcount(g, self.lidx(line))
                &&& forall|j: int| 0 <= j < upto && self.open_line(g, j) ==> b <= self.lcount(g, j)
                &&& forall|j: int| 0 <= j < self.lidx(line) && self.open_line(g, j) ==> b < self.lcount(g, j)
            },
        }
    }

    /// The open line with the fewest completions (the first such in search
    /// order), with all of its completions; `None` when every line is known.
    fn most_constrained(&self, grid: &Vec<Cell>) -> (res: Option<(Line, Vec<Vec<Cell>>)>)
        requires
            self.wf(),
            grid@.len() == self.size(),
        ensures
            res is None ==> forall|k: int| 0 <= k < self.nlines() ==> !self.open_line(grid@, k),
            res matches Some((line, comps)) ==> {
                let k = self.lidx(line);
                &&& self.line_valid(line)
                &&& 0 <= k < self.nlines()
                &&& self.open_line(grid@, k)
                &&& forall|j: int| 0 <= j < self.nlines() && self.open_line(grid@, j) ==> self.lcount(grid@, k) <= self.lcount(grid@, j)
                &&& forall|j: int| 0 <= j < k && self.open_line(grid@, j) ==> self.lcount(grid@, k) < self.lcount(grid@, j)
                &&& all_completions(comps@, 0, self.line_at(grid@, k), self.clues_at(k))
                &&& forall|l: Seq<Cell>| is_completion(l, self.line_at(grid@, k), self.clues_at(k)) ==> listed(comps@, 0, l)
                &&& comps@.len() <= exp2((self.line_at(grid@, k).len() + 1) as nat)
                &&& self.all_nonzero() ==> distinct_from(comps@, 0)
                &&& nonzero(self.clues_at(k)) ==> ordered_from(comps@, 0)
            },
    {
        let mut best: Option<(Line, usize)> = None;
        let mut r: usize = 0;
        while r < self.rows
            invariant
                self.wf(),
                grid@.len() == self.size(),
                r <= self.rows,
                self.best_so_far(grid@, best, r as int),
            decreases self.rows - r,
        {
            let cells = self.extract_row(grid, r);
            if has_unknown(&cells) {
                let count = count_completions(&cells, self.row_clues[r].as_slice());
                let better = match best {
                    None => true,
                    Some((_, b)) => count < b,
                };
                if better {
                    best = Some((Line::Row(r), count));
                }
            }
            r += 1;
        }
        let mut c: usize = 0;
        while c < self.cols
            invariant
                self.wf(),
                grid@.len() == self.size(),
                c <= self.cols,
                self.best_so_far(grid@, best, self.rows + c),
            decreases self.cols - c,
        {
            let cells = self.extract_col(grid, c);
            proof {
                assert(self.line_at(grid@, self.rows + c) == self.col(grid@, c as int));
            }
            if has_unknown(&cells) {
                let count = count_completions(&cells, self.col_clues[c].as_slice());
                let better = match best {
                    None => true,
                    Some((_, b)) => count < b,
                };
                if better {
                    best = Some((Line::Col(c), count));
                }
            }
            c += 1;
        }
        match best {
            None => None,
            Some((line, _)) => {
                let completions = match line {
                    Line::Row(r) => {
                        let cells = self.extract_row(grid, r);
                        enumerate_completions(&cells, self.row_clues[r].as_slice())
                    },
                    Line::Col(c) => {
                        let cells = self.extract_col(grid, c);
                        proof {
                            assert(self.line_at(grid@, self.rows + c) == self.col(grid@, c as int));
                        }
                        enumerate_completions(&cells, self.col_clues[c].as_slice())
                    },
                };
                Some((line, completions))
            },
        }
    }
}

impl SearchState {
    spec fn line_len(&self, line: Line) -> nat {
        match line {
            Line::Row(_) => self.cols as nat,
            Line::Col(_) => self.rows as nat,
        }
    }

    /// Flat index of position `p` of `line`.
    spec fn flat(&self, line: Line, p: int) -> int {
        match line {
            Line::Row(r) => r * self.cols + p,
            Line::Col(c) => p * self.cols + c,
        }
    }

    proof fn lemma_flat(&self, line: Line, p: int)
        requires
            self.wf(),
            self.line_valid(line),
            0 <= p < self.line_len(line),
        ensures
            0 <= self.flat(line, p) < self.size(),
            self.line_pos(line, self.flat(line, p)) == Some(p),
            forall|g: Seq<Cell>| g.len() == self.size() ==> #[trigger] self.line_at(g, self.lidx(line))[p] == g[self.flat(line, p)],
    {
        match line {
            Line::Row(r) => {
                lemma_cell_index(r as int, p, self.rows as int, self.cols as int);
            },
            Line::Col(c) => {
                lemma_cell_index(p, c as int, self.rows as int, self.cols as int);
                lemma_join_index(p, c as int, self.cols as int);
            },
        }
    }

    proof fn lemma_line_len(&self, g: Seq<Cell>, line: Line)
        requires
            self.wf(),
            self.line_valid(line),
            g.len() == self.size(),
        ensures
            self.line_at(g, self.lidx(line)).len() == self.line_len(line),
            self.clues_at(self.lidx(line)) == (match line {
                Line::Row(r) => self.rclues(r as int),
                Line::Col(c) => self.cclues(c as int),
            }),
    {
        match line {
            Line::Row(r) => {
                if self.cols > 0 {
                    lemma_cell_index(r as int, 0, self.rows as int, self.cols as int);
                } else {
                    assert(r * self.cols == 0) by (nonlinear_arith)
                        requires
                            self.cols == 0,
                    ;
                }
            },
            Line::Col(c) => {},
        }
    }

    /// A flat cell on `line` sits at position `q` with flat index `i`.
    proof fn lemma_pos_flat(&self, line: Line, i: int)
        requires
            self.wf(),
            self.line_valid(line),
            0 <= i < self.size(),
            self.line_pos(line, i) is Some,
        ensures
            0 <= self.line_pos(line, i)->0 < self.line_len(line),
            self.flat(line, self.line_pos(line, i)->0) == i,
    {
        match line {
            Line::Row(r) => {},
            Line::Col(c) => {
                lemma_split_index(i, self.rows as int, self.cols as int);
            },
        }
    }

    /// Replacing a line of `g` by the matching line of a grid `s` that keeps
    /// `g`'s known cells still gives a grid that `s` keeps.
    proof fn lemma_applied_agrees(&self, s: Seq<Cell>, g: Seq<Cell>, line: Line, comp: Seq<Cell>)
        requires
            self.wf(),
            self.line_valid(line),
            g.len() == self.size(),
            agrees(s, g),
            self.line_at(s, self.lidx(line)) == comp,
        ensures
            agrees(s, self.applied_upto(g, line, comp, self.line_len(line) as int)),
    {
        let a = self.applied_upto(g, line, comp, self.line_len(line) as int);
        assert forall|i: int| 0 <= i < g.len() && a[i] != Cell::Unknown implies s[i] == a[i] by {
            if self.line_pos(line, i) is Some {
                self.lemma_pos_flat(line, i);
                let q = self.line_pos(line, i)->0;
                self.lemma_flat(line, q);
                assert(self.line_at(s, self.lidx(line))[q] == s[self.flat(line, q)]);
            }
        }
    }

    /// Overwriting `line` of `g` with a completion of that line keeps the
    /// known cells of `g`.
    proof fn lemma_applied_keeps(&self, g: Seq<Cell>, line: Line, comp: Seq<Cell>)
        requires
            self.wf(),
            self.line_valid(line),
            g.len() == self.size(),
            agrees(comp, self.line_at(g, self.lidx(line))),
        ensures
            agrees(self.applied_upto(g, line, comp, self.line_len(line) as int), g),
    {
        let a = self.applied_upto(g, line, comp, self.line_len(line) as int);
        self.lemma_line_len(g, line);
        assert forall|i: int| 0 <= i < g.len() && g[i] != Cell::Unknown implies a[i] == g[i] by {
            if self.line_pos(line, i) is Some {
                self.lemma_pos_flat(line, i);
                let q = self.line_pos(line, i)->0;
                self.lemma_flat(line, q);
                assert(self.line_at(g, self.lidx(line))[q] == g[i]);
            }
        }
    }

    /// A grid that keeps the known cells of `g` with `line` overwritten by a
    /// fully known `comp` has `comp` on that line.
    proof fn lemma_applied_line(&self, g: Seq<Cell>, h: Seq<Cell>, line: Line, comp: Seq<Cell>)
        requires
            self.wf(),
            self.line_valid(line),
            g.len() == self.size(),
            comp.len() == self.line_len(line),
            is_full(comp),
            agrees(h, self.applied_upto(g, line, comp, self.line_len(line) as int)),
        ensures
            self.line_at(h, self.lidx(line)) == comp,
    {
        let a = self.applied_upto(g, line, comp, self.line_len(line) as int);
        self.lemma_line_len(h, line);
        assert forall|q: int| 0 <= q < comp.len() implies self.line_at(h, self.lidx(line))[q] == comp[q] by {
            self.lemma_flat(line, q);
            assert(a[self.flat(line, q)] == comp[q]);
        }
        assert(self.line_at(h, self.lidx(line)) =~= comp);
    }

    /// Overwrites `line` with `completion`.
    fn apply_line(&self, grid: &mut Vec<Cell>, line: Line, completion: &[Cell])
        requires
            self.wf(),
            self.line_valid(line),
            old(grid)@.len() == self.size(),
            completion@.len() == self.line_len(line),
        ensures
            final(grid)@ == self.applied_upto(old(grid)@, line, completion@, self.line_len(line) as int),
            agrees(completion@, self.line_at(old(grid)@, self.lidx(line))) && is_full(completion@)
                && self.open_line(old(grid)@, self.lidx(line)) ==> unknowns(final(grid)@) < unknowns(old(grid)@),
    {
        let ghost g0 = grid@;
        let ghost premise = agrees(completion@, self.line_at(g0, self.lidx(line))) && is_full(completion@);
        let n = completion.len();
        let mut p: usize = 0;
        let mut hit = false;
        proof {
            assert(grid@ =~= self.applied_upto(g0, line, completion@, 0));
            self.lemma_line_len(g0, line);
        }
        while p < n
            invariant
                self.wf(),
                self.line_valid(line),
                g0.len() == self.size(),
                n == completion@.len(),
                n == self.line_len(line),
                self.line_at(g0, self.lidx(line)).len() == n,
                p <= n,
                grid@ == self.applied_upto(g0, line, completion@, p as int),
                premise == (agrees(completion@, self.line_at(g0, self.lidx(line))) && is_full(completion@)),
                premise ==> unknowns(grid@) + (if hit { 1nat } else { 0nat }) <= unknowns(g0),
                hit == exists|q: int| 0 <= q < p && self.line_at(g0, self.lidx(line))[q] == Cell::Unknown,
            decreases n - p,
        {
            proof {
                self.lemma_flat(line, p as int);
            }
            let idx = match line {
                Line::Row(r) => r * self.cols + p,
                Line::Col(c) => p * self.cols + c,
            };
            let ghost before = grid@;
            let old_val = grid[idx];
            proof {
                assert(before[idx as int] == g0[idx as int]);
                assert(self.line_at(g0, self.lidx(line))[p as int] == g0[idx as int]);
                if premise {
                    lemma_unknowns_update(before, idx as int, completion@[p as int]);
                }
            }
            grid.set(idx, completion[p]);
            if old_val == Cell::Unknown {
                hit = true;
            }
            proof {
                assert forall|i: int| 0 <= i < g0.len() implies grid@[i] == self.applied_upto(
                    g0,
                    line,
                    completion@,
                    p + 1,
                )[i] by {
                    if i != idx {
                        if self.line_pos(line, i) is Some {
                            self.lemma_pos_flat(line, i);
                        }
                    }
                }
                assert(grid@ =~= self.applied_upto(g0, line, completion@, p + 1));
            }
            p += 1;
        }
    }
}

impl SearchState {
    /// The cells that overwriting `line` with `completion` changes, as
    /// `(row, col, new_state)`, in line order.
    fn branch_changes(&self, grid: &Vec<Cell>, line: Line, completion: &[Cell]) -> (out: Vec<(usize, usize, CellState)>)
        requires
            self.wf(),
            self.line_valid(line),
            grid@.len() == self.size(),
            completion@.len() == self.line_len(line),
            agrees(completion@, self.line_at(grid@, self.lidx(line))),
            is_full(completion@),
        ensures
            apply_changes(states(grid@), self.cols as nat, out@) == states(
                self.applied_upto(grid@, line, completion@, self.line_len(line) as int),
            ),
            forall|j: int|
                0 <= j < out@.len() ==> {
                    let ch = #[trigger] out@[j];
                    &&& on_line(line_id(line), ch)
                    &&& ch.1 < self.cols
                    &&& ch.0 * self.cols + ch.1 < self.size()
                    &&& states(grid@)[ch.0 * self.cols + ch.1] == CellState::Unknown
                    &&& ch.2 != CellState::Unknown
                },
            forall|j1: int, j2: int|
                0 <= j1 < j2 < out@.len() ==> pos_on(line, #[trigger] out@[j1]) < pos_on(line, #[trigger] out@[j2]),
    {
        let ghost g = grid@;
        let n = completion.len();
        let mut out: Vec<(usize, usize, CellState)> = Vec::new();
        let mut p: usize = 0;
        proof {
            assert(g =~= self.applied_upto(g, line, completion@, 0));
        }
        while p < n
            invariant
                self.wf(),
                self.line_valid(line),
                g == grid@,
                g.len() == self.size(),
                n == completion@.len(),
                n == self.line_len(line),
                p <= n,
                apply_changes(states(g), self.cols as nat, out@) == states(
                    self.applied_upto(g, line, completion@, p as int),
                ),
                agrees(completion@, self.line_at(g, self.lidx(line))),
                is_full(completion@),
                forall|j: int|
                    0 <= j < out@.len() ==> {
                        let ch = #[trigger] out@[j];
                        &&& on_line(line_id(line), ch)
                        &&& ch.1 < self.cols
                        &&& ch.0 * self.cols + ch.1 < self.size()
                        &&& states(g)[ch.0 * self.cols + ch.1] == CellState::Unknown
                        &&& ch.2 != CellState::Unknown
                        &&& pos_on(line, ch) < p
                    },
                forall|j1: int, j2: int|
                    0 <= j1 < j2 < out@.len() ==> pos_on(line, #[trigger] out@[j1]) < pos_on(line, #[trigger] out@[j2]),
            decreases n - p,
        {
            proof {
                self.lemma_flat(line, p as int);
            }
            let (rr, cc) = match line {
                Line::Row(r) => (r, p),
                Line::Col(c) => (p, c),
            };
            let idx = rr * self.cols + cc;
            let v = completion[p];
            let ghost prev = self.applied_upto(g, line, completion@, p as int);
            let ghost next = self.applied_upto(g, line, completion@, p + 1);
            proof {
                assert forall|i: int| 0 <= i < g.len() && i != idx implies next[i] == prev[i] by {
                    if self.line_pos(line, i) is Some {
                        self.lemma_pos_flat(line, i);
                    }
                }
                assert(prev[idx as int] == g[idx as int]);
                assert(next[idx as int] == v);
            }
            if grid[idx] != v {
                let ghost before = out@;
                out.push((rr, cc, to_state(v)));
                proof {
                    assert(out@.drop_last() =~= before);
                    assert(states(next) =~= states(prev).update(idx as int, cell_state(v)));
                    assert(idx == self.flat(line, p as int));
                    assert(self.line_at(g, self.lidx(line))[p as int] == g[idx as int]);
                    assert(completion@[p as int] == v);
                    assert(g[idx as int] == Cell::Unknown);
                    assert(v != Cell::Unknown);
                    assert(out@[before.len() as int] == (rr, cc, cell_state(v)));
                    assert forall|j: int| 0 <= j < before.len() implies #[trigger] out@[j] == before[j] by {}
                    match line {
                        Line::Row(r) => {
                            assert(cc < self.cols);
                        },
                        Line::Col(c) => {
                            assert(cc < self.cols);
                        },
                    }
                }
            } else {
                proof {
                    assert(next =~= prev);
                }
            }
            p += 1;
        }
        out
    }
}

/// Replay only reads the changed cells of each step.
pub proof fn lemma_replay_same_changes(g: Seq<CellState>, w: nat, s1: Seq<SolveStep>, s2: Seq<SolveStep>)
    requires
        s1.len() == s2.len(),
        forall|i: int| 0 <= i < s1.len() ==> #[trigger] s1[i].cells_changed@ == s2[i].cells_changed@,
    ensures
        replay(g, w, s1) == replay(g, w, s2),
    decreases s1.len(),
{
    if s1.len() > 0 {
        lemma_replay_same_changes(g, w, s1.drop_last(), s2.drop_last());
        assert(s1.last().cells_changed@ == s2.last().cells_changed@);
    }
}

/// A copy of a working grid.
fn copy_cells(v: &Vec<Cell>) -> (r: Vec<Cell>)
    ensures
        r@ == v@,
{
    let mut r: Vec<Cell> = Vec::new();
    let mut i: usize = 0;
    while i < v.len()
        invariant
            i <= v.len(),
            r@ == v@.take(i as int),
        decreases v.len() - i,
    {
        r.push(v[i]);
        i += 1;
        assert(r@ =~= v@.take(i as int));
    }
    assert(v@.take(v.len() as int) =~= v@);
    r
}

/// `a` has the description, line and changes of `b`.
pub open spec fn same_step(a: SolveStep, b: SolveStep) -> bool {
    &&& a.cells_changed@ == b.cells_changed@
    &&& a.description@ == b.description@
    &&& a.line == b.line
}

/// A copy of a step.
fn copy_step(st: &SolveStep) -> (r: SolveStep)
    ensures
        same_step(r, *st),
{
    let mut ch: Vec<(usize, usize, CellState)> = Vec::new();
    let mut j: usize = 0;
    while j < st.cells_changed.len()
        invariant
            j <= st.cells_changed@.len(),
            ch@ == st.cells_changed@.take(j as int),
        decreases st.cells_changed@.len() - j,
    {
        ch.push(st.cells_changed[j]);
        j += 1;
        assert(ch@ =~= st.cells_changed@.take(j as int));
    }
    assert(st.cells_changed@.take(st.cells_changed@.len() as int) =~= st.cells_changed@);
    SolveStep { description: st.description.clone(), line: st.line, cells_changed: ch }
}

/// A copy of a step trace with the same descriptions, lines and changes.
pub fn copy_steps(steps: &Vec<SolveStep>) -> (r: Vec<SolveStep>)
    ensures
        r@.len() == steps@.len(),
        forall|i: int| 0 <= i < r@.len() ==> {
            &&& #[trigger] r@[i].cells_changed@ == steps@[i].cells_changed@
            &&& r@[i].description@ == steps@[i].description@
            &&& r@[i].line == steps@[i].line
        },
{
    let mut r: Vec<SolveStep> = Vec::new();
    let mut i: usize = 0;
    while i < steps.len()
        invariant
            i <= steps.len(),
            r@.len() == i,
            forall|k: int| 0 <= k < i ==> #[trigger] same_step(r@[k], steps@[k]),
        decreases steps.len() - i,
    {
        let c = copy_step(&steps[i]);
        let ghost r0 = r@;
        r.push(c);
        proof {
            assert forall|k: int| 0 <= k < i + 1 implies #[trigger] same_step(r@[k], steps@[k]) by {
                if k < i {
                    assert(r@[k] == r0[k]);
                }
            }
        }
        i += 1;
    }
    proof {
        assert forall|k: int| 0 <= k < r@.len() implies {
            &&& #[trigger] r@[k].cells_changed@ == steps@[k].cells_changed@
            &&& r@[k].description@ == steps@[k].description@
            &&& r@[k].line == steps@[k].line
        } by {
            assert(same_step(r@[k], steps@[k]));
        }
    }
    r
}

/// `steps` are the recorded steps `t`: same lines, changes and
/// descriptions, in the same order.
pub open spec fn matches_trace(steps: Seq<SolveStep>, t: Seq<(LineId, Seq<(usize, usize, CellState)>, Seq<char>)>) -> bool {
    &&& steps.len() == t.len()
    &&& forall|i: int|
        0 <= i < steps.len() ==> {
            &&& (#[trigger] steps[i]).line == Some(t[i].0)
            &&& steps[i].cells_changed@ == t[i].1
            &&& steps[i].description@ == t[i].2
        }
}

/// A trace that extends one that extends `s0` splits at the middle one.
proof fn lemma_skip_split(s0: Seq<SolveStep>, s1: Seq<SolveStep>, s2: Seq<SolveStep>)
    requires
        s1.len() >= s0.len(),
        s1.take(s0.len() as int) == s0,
        s2.len() >= s1.len(),
        s2.take(s1.len() as int) == s1,
    ensures
        s2.skip(s0.len() as int) == s1.skip(s0.len() as int) + s2.skip(s1.len() as int),
        s2.take(s0.len() as int) == s0,
{
    assert(s2.take(s0.len() as int) =~= s0) by {
        assert forall|i: int| 0 <= i < s0.len() implies s2[i] == s0[i] by {
            assert(s2.take(s1.len() as int)[i] == s1[i]);
            assert(s1.take(s0.len() as int)[i] == s0[i]);
        }
    }
    assert(s2.skip(s0.len() as int) =~= s1.skip(s0.len() as int) + s2.skip(s1.len() as int)) by {
        assert forall|i: int| s0.len() <= i < s1.len() implies #[trigger] s2[i] == s1[i] by {
            assert(s2.take(s1.len() as int)[i] == s1[i]);
        }
    }
}

proof fn lemma_matches_concat(
    a: Seq<SolveStep>,
    b: Seq<SolveStep>,
    ta: Seq<(LineId, Seq<(usize, usize, CellState)>, Seq<char>)>,
    tb: Seq<(LineId, Seq<(usize, usize, CellState)>, Seq<char>)>,
)
    requires
        matches_trace(a, ta),
        matches_trace(b, tb),
    ensures
        matches_trace(a + b, ta + tb),
{
    assert forall|i: int| 0 <= i < (a + b).len() implies {
        &&& (#[trigger] (a + b)[i]).line == Some((ta + tb)[i].0)
        &&& (a + b)[i].cells_changed@ == (ta + tb)[i].1
        &&& (a + b)[i].description@ == (ta + tb)[i].2
    } by {
        if i < a.len() {
            assert((a + b)[i] == a[i]);
        } else {
            assert((a + b)[i] == b[i - a.len()]);
        }
    }
}

/// A fully known grid kept by `s` is `s`.
proof fn lemma_full_agrees_eq(s: Seq<Cell>, g: Seq<Cell>)
    requires
        is_full(g),
        agrees(s, g),
    ensures
        s == g,
{
    assert(s =~= g);
}

impl SearchState {
    /// Every line of a grid kept by a solution `s` has the matching line of
    /// `s` among its completions.
    proof fn lemma_line_completion(&self, s: Seq<Cell>, g: Seq<Cell>, k: int)
        requires
            self.wf(),
            self.solves(s),
            agrees(s, g),
            0 <= k < self.nlines(),
        ensures
            is_completion(self.line_at(s, k), self.line_at(g, k), self.clues_at(k)),
    {
        if k < self.rows {
            self.lemma_row_completion(s, g, k);
        } else {
            self.lemma_col_completion(s, g, k - self.rows);
        }
    }

    /// A grid with no open line is fully known.
    proof fn lemma_closed_full(&self, g: Seq<Cell>)
        requires
            self.wf(),
            g.len() == self.size(),
            forall|k: int| 0 <= k < self.nlines() ==> !self.open_line(g, k),
        ensures
            is_full(g),
    {
        assert forall|i: int| 0 <= i < g.len() implies g[i] != Cell::Unknown by {
            let rows = self.rows as int;
            let cols = self.cols as int;
            assert(cols > 0) by (nonlinear_arith)
                requires
                    0 <= i < rows * cols,
                    rows >= 0,
                    cols >= 0,
            ;
            lemma_split_index(i, self.rows as int, self.cols as int);
            let r = i / (self.cols as int);
            let c = i % (self.cols as int);
            assert(!self.open_line(g, r));
            lemma_cell_index(r, c, self.rows as int, self.cols as int);
            assert(self.row(g, r)[c] == g[i]);
        }
    }

    /// Builds the child of `grid`/`steps` that takes `completion` for `line`:
    /// records the branch step, overwrites the line and propagates. `None`
    /// when propagation finds a contradiction.
    fn branch(&self, grid: &Vec<Cell>, steps: &Vec<SolveStep>, line: Line, completion: &[Cell]) -> (res: Option<
        (Vec<Cell>, Vec<SolveStep>),
    >)
        requires
            self.wf(),
            self.line_valid(line),
            grid@.len() == self.size(),
            0 <= self.lidx(line) < self.nlines(),
            self.open_line(grid@, self.lidx(line)),
            is_completion(completion@, self.line_at(grid@, self.lidx(line)), self.clues_at(self.lidx(line))),
            states(grid@) == replay(blank(self.size()), self.cols as nat, steps@),
            trace_ok(blank(self.size()), self.cols as nat, steps@),
        ensures
            res is None ==> forall|s: Seq<Cell>|
                #[trigger] self.solves(s) && agrees(s, grid@) && self.line_at(s, self.lidx(line)) == completion@ ==> false,
            res matches Some((g, st)) ==> {
                &&& g@.len() == self.size()
                &&& unknowns(g@) < unknowns(grid@)
                &&& states(g@) == replay(blank(self.size()), self.cols as nat, st@)
                &&& forall|s: Seq<Cell>|
                    #[trigger] self.solves(s) && agrees(s, grid@) && self.line_at(s, self.lidx(line)) == completion@
                        ==> agrees(s, g@)
                &&& agrees(g@, grid@)
                &&& self.line_at(g@, self.lidx(line)) == completion@
                &&& self.propagated(g@)
                &&& trace_ok(blank(self.size()), self.cols as nat, st@)
            },
    {
        let ghost k = self.lidx(line);
        proof {
            self.lemma_line_len(grid@, line);
            lemma_fits_full(completion@, self.clues_at(k));
        }
        let mut g = copy_cells(grid);
        let mut st = copy_steps(steps);
        proof {
            lemma_replay_same_changes(blank(self.size()), self.cols as nat, st@, steps@);
            lemma_trace_same(blank(self.size()), self.cols as nat, steps@, st@);
        }
        let ghost st1 = st@;
        let cells_changed = self.branch_changes(&g, line, completion);
        if cells_changed.len() > 0 {
            let (is_row, idx, id) = match line {
                Line::Row(r) => (true, r, LineId::Row(r)),
                Line::Col(c) => (false, c, LineId::Col(c)),
            };
            let description = line_description(is_row, idx, true);
            let ghost chs = cells_changed@;
            let step = SolveStep { description, line: Some(id), cells_changed };
            st.push(step);
            proof {
                assert(st@.drop_last() =~= st1);
                assert(id == line_id(line));
                assert(step.cells_changed@ == chs);
                assert(states(g@) == replay(blank(self.size()), self.cols as nat, st1));
                assert(step_ok(states(g@), self.cols as nat, step)) by {
                    assert forall|j1: int, j2: int|
                        0 <= j1 < j2 < chs.len() implies (#[trigger] chs[j1]).0 != (#[trigger] chs[j2]).0 || chs[j1].1
                            != chs[j2].1 by {
                        assert(pos_on(line, chs[j1]) < pos_on(line, chs[j2]));
                    }
                }
                assert(st@.last() == step);
                assert(trace_ok(blank(self.size()), self.cols as nat, st@));
            }
        } else {
            proof {
                assert(apply_changes(states(g@), self.cols as nat, cells_changed@) == states(g@));
            }
        }
        let ghost g_before = g@;
        self.apply_line(&mut g, line, completion);
        proof {
            assert(states(g@) == replay(blank(self.size()), self.cols as nat, st@));
            assert forall|s: Seq<Cell>|
                #[trigger] self.solves(s) && agrees(s, grid@) && self.line_at(s, k) == completion@ implies agrees(s, g@) by {
                self.lemma_applied_agrees(s, grid@, line, completion@);
            }
        }
        let ghost g_applied = g@;
        let ghost st_applied = st@;
        let ok = self.propagate(&mut g, &mut st);
        proof {
            assert(st@ =~= st_applied + st@.skip(st_applied.len() as int)) by {
                assert forall|i: int| 0 <= i < st_applied.len() implies st@[i] == st_applied[i] by {
                    assert(st@.take(st_applied.len() as int)[i] == st_applied[i]);
                }
            }
            lemma_replay_concat(
                blank(self.size()),
                self.cols as nat,
                st_applied,
                st@.skip(st_applied.len() as int),
            );
            lemma_trace_concat(blank(self.size()), self.cols as nat, st_applied, st@.skip(st_applied.len() as int));
        }
        if !ok {
            return None;
        }
        proof {
            self.lemma_applied_keeps(grid@, line, completion@);
            self.lemma_applied_line(grid@, g@, line, completion@);
        }
        Some((g, st))
    }
}

/// `b` to the power `e`.
pub open spec fn pow_nat(b: nat, e: nat) -> nat
    decreases e,
{
    if e == 0 { 1 } else { b * pow_nat(b, (e - 1) as nat) }
}

proof fn lemma_pow_pos(b: nat, e: nat)
    requires
        b >= 1,
    ensures
        pow_nat(b, e) >= 1,
    decreases e,
{
    if e > 0 {
        lemma_pow_pos(b, (e - 1) as nat);
        assert(b * pow_nat(b, (e - 1) as nat) >= 1) by (nonlinear_arith)
            requires
                b >= 1,
                pow_nat(b, (e - 1) as nat) >= 1,
        ;
    }
}

proof fn lemma_pow_mono(b: nat, a: nat, e: nat)
    requires
        b >= 1,
        a <= e,
    ensures
        pow_nat(b, a) <= pow_nat(b, e),
    decreases e,
{
    if a < e {
        lemma_pow_mono(b, a, (e - 1) as nat);
        let x = pow_nat(b, (e - 1) as nat);
        assert(x <= b * x) by (nonlinear_arith)
            requires
                b >= 1,
        ;
    }
}

/// A search node: a propagated partial grid, its trace, and its priority.
pub struct Node {
    pub min_count: usize,
    pub grid: Vec<Cell>,
    pub steps: Vec<SolveStep>,
}

/// Termination weight of a queue of nodes: `b` to the power of each node's
/// unknown-cell count, summed.
pub open spec fn heap_weight(h: Seq<Node>, b: nat) -> nat
    decreases h.len(),
{
    if h.len() == 0 {
        0
    } else {
        heap_weight(h.drop_last(), b) + pow_nat(b, unknowns(h.last().grid@))
    }
}

proof fn lemma_weight_push(h: Seq<Node>, x: Node, b: nat)
    ensures
        heap_weight(h.push(x), b) == heap_weight(h, b) + pow_nat(b, unknowns(x.grid@)),
{
    assert(h.push(x).drop_last() =~= h);
}

proof fn lemma_weight_remove(h: Seq<Node>, i: int, b: nat)
    requires
        0 <= i < h.len(),
    ensures
        heap_weight(h, b) == heap_weight(h.remove(i), b) + pow_nat(b, unknowns(h[i].grid@)),
    decreases h.len(),
{
    if i == h.len() - 1 {
        assert(h.remove(i) =~= h.drop_last());
    } else {
        lemma_weight_remove(h.drop_last(), i, b);
        assert(h.remove(i).drop_last() =~= h.drop_last().remove(i));
        assert(h.remove(i).last() == h.last());
    }
}

/// Index of the first node with the smallest priority.
fn min_index(heap: &Vec<Node>) -> (i: usize)
    requires
        heap@.len() > 0,
    ensures
        i < heap@.len(),
        forall|k: int| 0 <= k < heap@.len() ==> heap@[i as int].min_count <= #[trigger] heap@[k].min_count,
{
    let mut best: usize = 0;
    let mut k: usize = 1;
    while k < heap.len()
        invariant
            1 <= k <= heap@.len(),
            best < k,
            forall|j: int| 0 <= j < k ==> heap@[best as int].min_count <= #[trigger] heap@[j].min_count,
        decreases heap@.len() - k,
    {
        if heap[k].min_count < heap[best].min_count {
            best = k;
        }
        k += 1;
    }
    best
}

/// A grid of `n` unknown cells.
fn unknown_grid(n: usize) -> (g: Vec<Cell>)
    ensures
        g@.len() == n,
        forall|i: int| 0 <= i < n ==> g@[i] == Cell::Unknown,
{
    let mut g: Vec<Cell> = Vec::new();
    let mut i: usize = 0;
    while i < n
        invariant
            i <= n,
            g@.len() == i,
            forall|k: int| 0 <= k < i ==> g@[k] == Cell::Unknown,
        decreases n - i,
    {
        g.push(Cell::Unknown);
        i += 1;
    }
    g
}

/// Number of known cells.
fn count_known(g: &Vec<Cell>) -> (n: usize)
    ensures
        n + unknowns(g@) == g@.len(),
{
    let mut n: usize = 0;
    let mut i: usize = 0;
    while i < g.len()
        invariant
            i <= g@.len(),
            n + unknowns(g@.take(i as int)) == i,
        decreases g@.len() - i,
    {
        assert(g@.take(i + 1).drop_last() =~= g@.take(i as int));
        if g[i] != Cell::Unknown {
            n += 1;
        }
        i += 1;
    }
    assert(g@.take(g@.len() as int) =~= g@);
    n
}

/// The public cell states of a working grid.
fn to_states(g: &Vec<Cell>) -> (r: Vec<CellState>)
    ensures
        r@ == states(g@),
{
    let mut r: Vec<CellState> = Vec::new();
    let mut i: usize = 0;
    while i < g.len()
        invariant
            i <= g@.len(),
            r@ == states(g@.take(i as int)),
        decreases g@.len() - i,
    {
        r.push(to_state(g[i]));
        i += 1;
        assert(r@ =~= states(g@.take(i as int)));
    }
    assert(g@.take(g@.len() as int) =~= g@);
    r
}

#[verifier::external_type_specification]
#[verifier::external_body]
pub struct ExInstant(std::time::Instant);

/// `<Duration as Clone>::clone`: `Duration` is `Copy`, so a clone is the
/// same value.
pub assume_specification[ <std::time::Duration as Clone>::clone ](d: &std::time::Duration) -> (r:
    std::time::Duration)
    ensures
        r == *d,
;

/// Controls the opt-in observability hooks of
/// [`GraphSearchSolver::solve_with_progress`]. Every field defaults to off.
#[derive(Clone, Debug, Default)]
pub struct ProgressConfig {
    /// Ask for a log line per productive step. The search writes no log
    /// itself: a caller that wants one logs the returned trace.
    pub log_steps: bool,
    /// Ask for a periodic one-line search summary, at most this often. The
    /// search writes no log itself: a caller that wants one takes the
    /// summaries from progress snapshots.
    pub log_meta_interval: Option<std::time::Duration>,
    /// Invoke the `on_progress` callback with a grid snapshot, no more often
    /// than this interval.
    pub snapshot_interval: Option<std::time::Duration>,
}

/// A point-in-time snapshot of search progress.
#[derive(Clone, Debug)]
pub struct ProgressUpdate {
    /// Search nodes queued so far.
    pub nodes_pushed: usize,
    /// Search nodes expanded so far.
    pub nodes_expanded: usize,
    /// Queued nodes, counting the one being expanded.
    pub heap_len: usize,
    /// Fewest completions among the open lines of the snapshot's grid.
    pub best_min_count: usize,
    /// Known cells in the snapshot's grid.
    pub cells_known: usize,
    /// Total cells in the grid.
    pub cells_total: usize,
    /// Wall-clock time since the search began.
    pub elapsed: std::time::Duration,
    /// Grid snapshot.
    pub grid: Vec<CellState>,
}

/// `Instant::now`: the current time. Nothing is claimed of the value.
#[verifier::external_body]
fn clock_now() -> std::time::Instant {
    std::time::Instant::now()
}

/// `Instant::duration_since`: time from `earlier` to `later`. Nothing is
/// claimed of the value.
#[verifier::external_body]
fn time_between(later: &std::time::Instant, earlier: &std::time::Instant) -> std::time::Duration {
    later.duration_since(*earlier)
}

/// `Instant::elapsed`: time since `start`. Nothing is claimed of the value.
#[verifier::external_body]
fn time_since(start: &std::time::Instant) -> std::time::Duration {
    start.elapsed()
}

/// `Duration >= Duration`. The comparison of two durations read from the
/// clock is not described here; nothing is claimed of the result.
#[verifier::external_body]
fn duration_reached(d: &std::time::Duration, interval: &std::time::Duration) -> bool {
    *d >= *interval
}

/// The cancellation check `check` never answers yes.
pub open spec fn never_cancels<C: Fn() -> bool>(check: C) -> bool {
    forall|b: bool| call_ensures(check, (), b) ==> !b
}

/// The cancellation check `check` always answers yes.
pub open spec fn always_cancels<C: Fn() -> bool>(check: C) -> bool {
    forall|b: bool| call_ensures(check, (), b) ==> b
}

/// `n`, or `usize::MAX` when `n` does not fit.
pub open spec fn saturate(n: nat) -> usize {
    if n > usize::MAX { usize::MAX } else { n as usize }
}

/// A consistent progress snapshot of a grid of `cells` cells: its grid
/// has `cells_total == cells` cells of which `cells_known` are known, at
/// least one node was expanded, no more were expanded than queued, and
/// the queue is not empty.
pub open spec fn snapshot_ok(u: ProgressUpdate, cells: nat) -> bool {
    &&& u.cells_total == cells
    &&& exists|g: Seq<Cell>|
        #![trigger states(g)]
        g.len() == u.cells_total && u.grid@ == states(g) && u.cells_known + unknowns(g) == u.cells_total
    &&& 1 <= u.nodes_expanded <= u.nodes_pushed
    &&& u.heap_len >= 1
}

/// Hands a progress snapshot of a grid of `cells` cells to the caller's
/// callback: the only place the callback is called, and only with a
/// consistent snapshot. Nothing is claimed of what the callback does.
#[verifier::external_body]
fn deliver<F: FnMut(ProgressUpdate)>(f: &mut &mut F, update: ProgressUpdate, cells: usize)
    requires
        snapshot_ok(update, cells as nat),
{
    (*f)(update)
}

impl SearchState {
    /// A queued node: right size, not fully known, and its grid is what its
    /// trace replays to.
    pub open spec fn node_ok(&self, nd: Node) -> bool {
        &&& nd.grid@.len() == self.size()
        &&& !is_full(nd.grid@)
        &&& states(nd.grid@) == replay(blank(self.size()), self.cols as nat, nd.steps@)
        &&& trace_ok(blank(self.size()), self.cols as nat, nd.steps@)
    }

    /// Every line of `g` is settled: propagation has nothing left to do.
    pub open spec fn propagated(&self, g: Seq<Cell>) -> bool {
        forall|k: int| 0 <= k < self.nlines() ==> settled(#[trigger] self.line_at(g, k), self.clues_at(k))
    }

    /// Every solution keeps the known cells of some queued node.
    pub open spec fn covered(&self, heap: Seq<Node>) -> bool {
        forall|s: Seq<Cell>| #[trigger] self.solves(s) ==> exists|k: int| 0 <= k < heap.len() && agrees(s, heap[k].grid@)
    }

    proof fn lemma_line_len_bound(&self, line: Line)
        requires
            self.wf(),
            self.line_valid(line),
        ensures
            self.line_len(line) <= self.size(),
    {
        match line {
            Line::Row(r) => {
                assert(self.cols <= self.rows * self.cols) by (nonlinear_arith)
                    requires
                        r < self.rows,
                ;
            },
            Line::Col(c) => {
                assert(self.rows <= self.rows * self.cols) by (nonlinear_arith)
                    requires
                        c < self.cols,
                ;
            },
        }
    }

    proof fn lemma_weight_drop(w1: nat, j: nat, p: nat, b: nat)
        requires
            j <= b - 1,
            b >= 1,
            p >= 1,
        ensures
            w1 + j * p < w1 + b * p,
    {
        assert(j * p < b * p) by (nonlinear_arith)
            requires
                j <= b - 1,
                p >= 1,
        ;
    }

    /// The best-first search. Returns the final state, grid and trace, and
    /// the number of queued nodes (saturating).
    ///
    /// Propagation from the all-unknown grid comes first. When it decides
    /// the puzzle (a stuck line, or no unknown cell left) the result is
    /// `Complete` or `Unsolvable` with that grid and trace, no node is
    /// queued, and `cancelled` is never called. Otherwise `cancelled` is
    /// asked once per expanded node, and a yes ends the search `Aborted`
    /// with that node's grid, which keeps every cell the first propagation
    /// fixed (the root's own grid and trace when the very first answer is
    /// yes). A search that is never told to stop is not `Aborted`: it ends
    /// `Complete` exactly when the puzzle has a solution. `Unsolvable` always returns the first
    /// propagation's grid and trace. Every trace is a sequence of good
    /// steps (`trace_ok`).
    #[verifier::rlimit(80)]
    pub fn solve_counted<C: Fn() -> bool, F: FnMut(ProgressUpdate)>(
        &self,
        cancelled: &C,
        config: &ProgressConfig,
        on_progress: Option<&mut F>,
    ) -> (res: (crate::types::SolutionState, Vec<Cell>, Vec<SolveStep>, usize))
        requires
            self.wf(),
            call_requires(*cancelled, ()),
        ensures
            never_cancels(*cancelled) ==> !(res.0 is Aborted) && (res.0 is Complete <==> exists|s: Seq<Cell>|
                self.solves(s)),
            always_cancels(*cancelled) && !self.root_decided() ==> res.0 is Aborted && res.1@ == self.root().1
                && matches_trace(res.2@, self.root_trace()) && res.3 == 1,
            self.root_decided() <==> res.3 == 0,
            res.0 is Complete || res.0 is Unsolvable || res.0 is Aborted,
            res.0 is Complete ==> self.solves(res.1@),
            res.0 is Unsolvable ==> forall|s: Seq<Cell>| !self.solves(s),
            res.1@.len() == self.size(),
            states(res.1@) == replay(blank(self.size()), self.cols as nat, res.2@),
            trace_ok(blank(self.size()), self.cols as nat, res.2@),
            self.root_decided() ==> !(res.0 is Aborted) && res.1@ == self.root().1 && (res.0 is Complete <==> self.root().0
                && self.solves(self.root().1)),
            res.0 is Unsolvable ==> res.1@ == self.root().1 && matches_trace(res.2@, self.root_trace()),
            self.root_decided() ==> matches_trace(res.2@, self.root_trace()),
            res.0 is Aborted ==> {
                &&& !self.root_decided()
                &&& !is_full(res.1@)
                &&& agrees(res.1@, self.root().1)
                &&& self.propagated(res.1@)
                &&& res.3 >= 1
            },
    {
        let n = self.rows * self.cols;
        let mut grid = unknown_grid(n);
        let mut steps: Vec<SolveStep> = Vec::new();
        let mut pushed: usize = 0;
        let mut expanded: usize = 0;
        proof {
            assert(states(grid@) =~= blank(self.size()));
            assert(steps@.skip(0) =~= steps@);
            assert forall|s: Seq<Cell>| #[trigger] self.solves(s) implies agrees(s, grid@) by {}
        }
        let ghost g_blank = grid@;
        proof {
            assert(g_blank =~= Seq::new(self.size(), |i: int| Cell::Unknown));
        }
        if !self.propagate(&mut grid, &mut steps) {
            proof {
                assert(steps@.skip(0) =~= steps@);
                assert forall|s: Seq<Cell>| !self.solves(s) by {
                    if self.solves(s) {
                        assert(agrees(s, g_blank));
                    }
                }
            }
            return (crate::types::SolutionState::Unsolvable, grid, steps, pushed);
        }
        proof {
            assert(steps@.skip(0) =~= steps@);
            assert(self.settle_trace(g_blank, (self.size() + 1) as nat) == self.root_trace());
            assert(matches_trace(steps@, self.root_trace()));
        }
        if self.is_complete(&grid) {
            if self.check(&grid) {
                return (crate::types::SolutionState::Complete, grid, steps, pushed);
            } else {
                proof {
                    assert forall|s: Seq<Cell>| !self.solves(s) by {
                        if self.solves(s) {
                            assert(agrees(s, g_blank));
                            lemma_full_agrees_eq(s, grid@);
                        }
                    }
                }
                return (crate::types::SolutionState::Unsolvable, grid, steps, pushed);
            }
        }
        let partial_grid = copy_cells(&grid);
        let partial_steps = copy_steps(&steps);
        proof {
            lemma_replay_same_changes(blank(self.size()), self.cols as nat, partial_steps@, steps@);
            lemma_trace_same(blank(self.size()), self.cols as nat, steps@, partial_steps@);
            assert forall|i: int| 0 <= i < partial_steps@.len() implies {
                &&& (#[trigger] partial_steps@[i]).line == Some(self.root_trace()[i].0)
                &&& partial_steps@[i].cells_changed@ == self.root_trace()[i].1
                &&& partial_steps@[i].description@ == self.root_trace()[i].2
            } by {
                assert(partial_steps@[i].cells_changed@ == steps@[i].cells_changed@);
                assert(steps@[i].line == Some(self.root_trace()[i].0));
            }
        }
        let start = clock_now();
        let mut last_snapshot: Option<std::time::Instant> = None;
        let mut on_progress = on_progress;
        let mut heap: Vec<Node> = Vec::new();
        let mc = self.min_completion_count(&grid);
        let ghost g_root = grid@;
        heap.push(Node { min_count: mc, grid, steps });
        pushed = pushed.saturating_add(1);
        let ghost mut p_true: nat = 1;
        let ghost mut e_true: nat = 0;
        let ghost b = exp2(self.size() + 1) + 1;
        proof {
            assert(heap@[0].grid@ == g_root);
            assert forall|s: Seq<Cell>| #[trigger] self.solves(s) implies exists|k: int|
                0 <= k < heap@.len() && agrees(s, heap@[k].grid@) by {
                assert(agrees(s, g_blank));
                assert(agrees(s, heap@[0].grid@));
            }
        }
        while heap.len() > 0
            invariant
                self.wf(),
                b == exp2(self.size() + 1) + 1,
                forall|k: int| 0 <= k < heap@.len() ==> self.node_ok(#[trigger] heap@[k]),
                self.covered(heap@),
                partial_grid@.len() == self.size(),
                states(partial_grid@) == replay(blank(self.size()), self.cols as nat, partial_steps@),
                trace_ok(blank(self.size()), self.cols as nat, partial_steps@),
                matches_trace(partial_steps@, self.root_trace()),
                self.root().0,
                !is_full(self.root().1),
                partial_grid@ == self.root().1,
                forall|k: int| 0 <= k < heap@.len() ==> self.propagated(#[trigger] heap@[k].grid@) && agrees(
                    heap@[k].grid@,
                    self.root().1,
                ),
                pushed == saturate(p_true),
                expanded == saturate(e_true),
                e_true + heap@.len() == p_true,
                p_true >= 1,
                call_requires(*cancelled, ()),
                n == self.rows * self.cols,
                always_cancels(*cancelled) ==> e_true == 0 && p_true == 1 && heap@[0].grid@ == self.root().1
                    && matches_trace(heap@[0].steps@, self.root_trace()),
            decreases heap_weight(heap@, b),
        {
            let i = min_index(&heap);
            let ghost h0 = heap@;
            let node = heap.remove(i);
            expanded = expanded.saturating_add(1);
            proof {
                e_true = e_true + 1;
            }
            let ghost u = unknowns(node.grid@);
            let ghost w1 = heap_weight(heap@, b);
            proof {
                lemma_weight_remove(h0, i as int, b);
                assert(node == h0[i as int]);
                assert(self.node_ok(node));
                lemma_unknowns_full(node.grid@);
                assert(u >= 1);
                lemma_pow_pos(b, (u - 1) as nat);
                assert(pow_nat(b, u) == b * pow_nat(b, (u - 1) as nat));
                assert forall|k: int| 0 <= k < heap@.len() implies self.node_ok(#[trigger] heap@[k]) by {
                    if k < i {
                        assert(heap@[k] == h0[k]);
                    } else {
                        assert(heap@[k] == h0[k + 1]);
                    }
                }
                assert forall|k: int| 0 <= k < heap@.len() implies self.propagated(#[trigger] heap@[k].grid@) && agrees(
                    heap@[k].grid@,
                    self.root().1,
                ) by {
                    if k < i {
                        assert(heap@[k] == h0[k]);
                    } else {
                        assert(heap@[k] == h0[k + 1]);
                    }
                }
                assert(self.propagated(node.grid@) && agrees(node.grid@, self.root().1));
            }
            let stop = cancelled();
            if stop {
                return (crate::types::SolutionState::Aborted, node.grid, node.steps, pushed);
            }
            proof {
                assert(call_ensures(*cancelled, (), stop));
                assert(!always_cancels(*cancelled));
            }
            match self.most_constrained(&node.grid) {
                None => {
                    proof {
                        self.lemma_closed_full(node.grid@);
                    }
                },
                Some((line, completions)) => {
                    let ghost k = self.lidx(line);
                    let ghost p = pow_nat(b, (u - 1) as nat);
                    proof {
                        self.lemma_line_len(node.grid@, line);
                        self.lemma_line_len_bound(line);
                        lemma_exp2_mono((self.line_len(line) + 1) as nat, self.size() + 1);
                        assert forall|s: Seq<Cell>| #[trigger] self.solves(s) implies (exists|kk: int|
                            0 <= kk < heap@.len() && agrees(s, heap@[kk].grid@)) || (agrees(s, node.grid@)
                            && exists|jj: int|
                            0 <= jj < completions@.len() && completions@[jj]@ == self.line_at(s, k)) by {
                            let kk = choose|kk: int| 0 <= kk < h0.len() && agrees(s, h0[kk].grid@);
                            if kk < i {
                                assert(heap@[kk] == h0[kk]);
                            } else if kk > i {
                                assert(heap@[kk - 1] == h0[kk]);
                            } else {
                                self.lemma_line_completion(s, node.grid@, k);
                                assert(listed(completions@, 0, self.line_at(s, k)));
                            }
                        }
                    }
                    let mut j: usize = 0;
                    while j < completions.len()
                        invariant
                            self.wf(),
                            b == exp2(self.size() + 1) + 1,
                            self.node_ok(node),
                            u == unknowns(node.grid@),
                            u >= 1,
                            p == pow_nat(b, (u - 1) as nat),
                            p >= 1,
                            pow_nat(b, u) == b * p,
                            self.line_valid(line),
                            k == self.lidx(line),
                            0 <= k < self.nlines(),
                            self.open_line(node.grid@, k),
                            all_completions(completions@, 0, self.line_at(node.grid@, k), self.clues_at(k)),
                            completions@.len() <= b - 1,
                            j <= completions@.len(),
                            forall|kk: int| 0 <= kk < heap@.len() ==> self.node_ok(#[trigger] heap@[kk]),
                            forall|s: Seq<Cell>| #[trigger] self.solves(s) ==> (exists|kk: int|
                                0 <= kk < heap@.len() && agrees(s, heap@[kk].grid@)) || (agrees(s, node.grid@)
                                && exists|jj: int|
                                j <= jj < completions@.len() && completions@[jj]@ == self.line_at(s, k)),
                            heap_weight(heap@, b) <= w1 + j * p,
                            partial_grid@.len() == self.size(),
                            states(partial_grid@) == replay(blank(self.size()), self.cols as nat, partial_steps@),
                            trace_ok(blank(self.size()), self.cols as nat, partial_steps@),
                            matches_trace(partial_steps@, self.root_trace()),
                            self.root().0,
                            !is_full(self.root().1),
                            partial_grid@ == self.root().1,
                            agrees(node.grid@, self.root().1),
                            forall|kk: int| 0 <= kk < heap@.len() ==> self.propagated(#[trigger] heap@[kk].grid@) && agrees(
                                heap@[kk].grid@,
                                self.root().1,
                            ),
                            pushed == saturate(p_true),
                            expanded == saturate(e_true),
                            e_true + heap@.len() == p_true,
                            e_true >= 1,
                            !always_cancels(*cancelled),
                            call_requires(*cancelled, ()),
                            n == self.rows * self.cols,
                        decreases completions@.len() - j,
                    {
                        proof {
                            assert(is_completion(completions@[j as int]@, self.line_at(node.grid@, k), self.clues_at(k)));
                        }
                        let ghost hj = heap@;
                        match self.branch(&node.grid, &node.steps, line, completions[j].as_slice()) {
                            None => {
                                proof {
                                    assert(heap_weight(heap@, b) <= w1 + (j + 1) * p) by (nonlinear_arith)
                                        requires
                                            heap_weight(heap@, b) <= w1 + j * p,
                                            p >= 1,
                                    ;
                                }
                            },
                            Some((g, st)) => {
                                if self.is_complete(&g) {
                                    if self.check(&g) {
                                        return (crate::types::SolutionState::Complete, g, st, pushed);
                                    }
                                    proof {
                                        assert forall|s: Seq<Cell>|
                                            #[trigger] self.solves(s) && agrees(s, node.grid@) && self.line_at(s, k)
                                                == completions@[j as int]@ implies false by {
                                            lemma_full_agrees_eq(s, g@);
                                        }
                                        assert(heap_weight(heap@, b) <= w1 + (j + 1) * p) by (nonlinear_arith)
                                            requires
                                                heap_weight(heap@, b) <= w1 + j * p,
                                                p >= 1,
                                        ;
                                    }
                                } else {
                                    let min_count = self.min_completion_count(&g);
                                    pushed = pushed.saturating_add(1);
                                    proof {
                                        p_true = p_true + 1;
                                    }
                                    if let Some(iv) = config.snapshot_interval {
                                        let now = clock_now();
                                        let due = match last_snapshot {
                                            None => true,
                                            Some(t) => {
                                                let d = time_between(&now, &t);
                                                duration_reached(&d, &iv)
                                            },
                                        };
                                        if due {
                                            match on_progress {
                                                Some(ref mut cb) => {
                                                    let known = count_known(&g);
                                                    let update = ProgressUpdate {
                                                        nodes_pushed: pushed,
                                                        nodes_expanded: expanded,
                                                        heap_len: heap.len().saturating_add(1),
                                                        best_min_count: min_count,
                                                        cells_known: known,
                                                        cells_total: g.len(),
                                                        elapsed: time_since(&start),
                                                        grid: to_states(&g),
                                                    };
                                                    proof {
                                                        assert(update.grid@ == states(g@));
                                                    }
                                                    deliver(cb, update, n);
                                                },
                                                None => {},
                                            }
                                            last_snapshot = Some(now);
                                        }
                                    }
                                    let ghost gv = g@;
                                    let child = Node { min_count, grid: g, steps: st };
                                    heap.push(child);
                                    proof {
                                        assert forall|kk: int| 0 <= kk < heap@.len() implies self.propagated(#[trigger] heap@[kk].grid@) && agrees(
                                            heap@[kk].grid@,
                                            self.root().1,
                                        ) by {
                                            if kk < hj.len() {
                                                assert(heap@[kk] == hj[kk]);
                                            } else {
                                                assert(heap@[kk].grid@ == gv);
                                                assert(agrees(gv, node.grid@));
                                            }
                                        }
                                        lemma_weight_push(hj, child, b);
                                        lemma_pow_mono(b, unknowns(gv), (u - 1) as nat);
                                        assert(heap_weight(heap@, b) <= w1 + (j + 1) * p) by (nonlinear_arith)
                                            requires
                                                heap_weight(heap@, b) <= w1 + j * p + p,
                                        ;
                                        assert forall|kk: int| 0 <= kk < heap@.len() implies self.node_ok(#[trigger] heap@[kk]) by {
                                            if kk < hj.len() {
                                                assert(heap@[kk] == hj[kk]);
                                            } else {
                                                lemma_unknowns_full(gv);
                                            }
                                        }
                                        assert forall|s: Seq<Cell>| #[trigger] self.solves(s) implies (exists|kk: int|
                                            0 <= kk < heap@.len() && agrees(s, heap@[kk].grid@)) || (agrees(s, node.grid@)
                                            && exists|jj: int|
                                            j + 1 <= jj < completions@.len() && completions@[jj]@ == self.line_at(s, k)) by {
                                            if exists|kk: int| 0 <= kk < hj.len() && agrees(s, hj[kk].grid@) {
                                                let kk = choose|kk: int| 0 <= kk < hj.len() && agrees(s, hj[kk].grid@);
                                                assert(heap@[kk] == hj[kk]);
                                            } else if self.line_at(s, k) == completions@[j as int]@ {
                                                assert(agrees(s, heap@[hj.len() as int].grid@));
                                            }
                                        }
                                    }
                                }
                            },
                        }
                        j += 1;
                    }
                    proof {
                        Self::lemma_weight_drop(w1, completions@.len() as nat, p, b);
                        assert(w1 + completions@.len() * p <= w1 + (b - 1) * p) by (nonlinear_arith)
                            requires
                                completions@.len() <= b - 1,
                                p >= 1,
                        ;
                    }
                },
            }
        }
        (crate::types::SolutionState::Unsolvable, partial_grid, partial_steps, pushed)
    }
}

/// Some cell is known in both `a` and `b`, with different values.
pub open spec fn clash(a: Seq<Cell>, b: Seq<Cell>) -> bool {
    exists|i: int|
        0 <= i < a.len() && 0 <= i < b.len() && a[i] != Cell::Unknown && b[i] != Cell::Unknown && #[trigger] a[i]
            != #[trigger] b[i]
}

/// Every two of the queued grids `hs` and the found grids `fs` clash.
#[verifier::opaque]
pub open spec fn apart(hs: Seq<Seq<Cell>>, fs: Seq<Seq<Cell>>) -> bool {
    &&& forall|i: int, j: int| 0 <= i < hs.len() && 0 <= j < hs.len() && i != j ==> clash(#[trigger] hs[i], #[trigger] hs[j])
    &&& forall|i: int, j: int| 0 <= i < hs.len() && 0 <= j < fs.len() ==> clash(#[trigger] hs[i], #[trigger] fs[j])
    &&& forall|i: int, j: int| 0 <= i < fs.len() && 0 <= j < fs.len() && i != j ==> clash(#[trigger] fs[i], #[trigger] fs[j])
}

/// The grids of the queued nodes.
pub open spec fn node_grids(h: Seq<Node>) -> Seq<Seq<Cell>> {
    Seq::new(h.len(), |i: int| h[i].grid@)
}

/// The grids of the found entries.
pub open spec fn found_grids(f: Seq<(Vec<Cell>, Vec<SolveStep>)>) -> Seq<Seq<Cell>> {
    Seq::new(f.len(), |i: int| f[i].0@)
}

/// No two found entries have the same grid.
pub open spec fn distinct_grids(f: Seq<(Vec<Cell>, Vec<SolveStep>)>) -> bool {
    forall|i: int, j: int| 0 <= i < f.len() && 0 <= j < f.len() && i != j ==> #[trigger] f[i].0@ != #[trigger] f[j].0@
}

/// Found grids that clash pairwise are all different.
proof fn lemma_apart_distinct(hs: Seq<Seq<Cell>>, f: Seq<(Vec<Cell>, Vec<SolveStep>)>)
    requires
        apart(hs, found_grids(f)),
    ensures
        distinct_grids(f),
{
    reveal(apart);
    let fs = found_grids(f);
    assert forall|i: int, j: int| 0 <= i < f.len() && 0 <= j < f.len() && i != j implies #[trigger] f[i].0@
        != #[trigger] f[j].0@ by {
        assert(clash(fs[i], fs[j]));
    }
}

/// `s` is the grid of one of the `found` entries.
pub open spec fn found_has(found: Seq<(Vec<Cell>, Vec<SolveStep>)>, s: Seq<Cell>) -> bool {
    exists|k: int| 0 <= k < found.len() && (#[trigger] found[k]).0@ == s
}

impl SearchState {
    /// Every solution keeps the known cells of some queued node or has been
    /// found already.
    pub open spec fn covered_or_found(&self, heap: Seq<Node>, found: Seq<(Vec<Cell>, Vec<SolveStep>)>) -> bool {
        forall|s: Seq<Cell>| #[trigger] self.solves(s) ==> (exists|k: int| 0 <= k < heap.len() && agrees(s, heap[k].grid@))
            || found_has(found, s)
    }

    /// Every entry of `found` is a solution whose trace replays to it.
    pub open spec fn found_ok(&self, found: Seq<(Vec<Cell>, Vec<SolveStep>)>) -> bool {
        forall|k: int| 0 <= k < found.len() ==> {
            &&& self.solves(#[trigger] found[k].0@)
            &&& states(found[k].0@) == replay(blank(self.size()), self.cols as nat, found[k].1@)
            &&& trace_ok(blank(self.size()), self.cols as nat, found[k].1@)
        }
    }

    /// Grids added while a node `g` is expanded along line `k`: each keeps
    /// the known cells of `g` and has one of the first `j` completions on
    /// that line.
    spec fn from_branch(&self, e: Seq<Cell>, g: Seq<Cell>, k: int, comps: Seq<Vec<Cell>>, j: int) -> bool {
        &&& agrees(e, g)
        &&& exists|jj: int| 0 <= jj < j && self.line_at(e, k) == #[trigger] comps[jj]@
    }

    /// Midway through expanding node `g` along line `k`: the queued grids
    /// `hs` and the found grids `fs` extend `h0` and `f0` older entries that
    /// all clash with `g`; every newer entry comes from one of the first `j`
    /// completions; and every two entries clash.
    #[verifier::opaque]
    spec fn expanding(
        &self,
        hs: Seq<Seq<Cell>>,
        fs: Seq<Seq<Cell>>,
        h0: int,
        f0: int,
        g: Seq<Cell>,
        k: int,
        comps: Seq<Vec<Cell>>,
        j: int,
    ) -> bool {
        &&& 0 <= h0 <= hs.len()
        &&& 0 <= f0 <= fs.len()
        &&& apart(hs, fs)
        &&& forall|i: int| 0 <= i < h0 ==> clash(g, #[trigger] hs[i])
        &&& forall|i: int| 0 <= i < f0 ==> clash(g, #[trigger] fs[i])
        &&& forall|i: int| h0 <= i < hs.len() ==> self.from_branch(#[trigger] hs[i], g, k, comps, j)
        &&& forall|i: int| f0 <= i < fs.len() ==> self.from_branch(#[trigger] fs[i], g, k, comps, j)
    }

    /// Taking node `i` off a queue whose entries all clash starts its
    /// expansion.
    proof fn lemma_expand_start(&self, hs: Seq<Seq<Cell>>, fs: Seq<Seq<Cell>>, i: int, k: int, comps: Seq<Vec<Cell>>)
        requires
            apart(hs, fs),
            0 <= i < hs.len(),
        ensures
            self.expanding(hs.remove(i), fs, hs.len() - 1, fs.len() as int, hs[i], k, comps, 0),
    {
        reveal(apart);
        reveal(SearchState::expanding);
        let hr = hs.remove(i);
        assert forall|a: int| 0 <= a < hr.len() implies clash(hs[i], #[trigger] hr[a]) by {
            if a < i {
                assert(hr[a] == hs[a]);
            } else {
                assert(hr[a] == hs[a + 1]);
            }
        }
        assert forall|a: int, b: int| 0 <= a < hr.len() && 0 <= b < hr.len() && a != b implies clash(
            #[trigger] hr[a],
            #[trigger] hr[b],
        ) by {
            let a1 = if a < i { a } else { a + 1 };
            let b1 = if b < i { b } else { b + 1 };
            assert(hr[a] == hs[a1]);
            assert(hr[b] == hs[b1]);
        }
        assert forall|a: int, b: int| 0 <= a < hr.len() && 0 <= b < fs.len() implies clash(
            #[trigger] hr[a],
            #[trigger] fs[b],
        ) by {
            let a1 = if a < i { a } else { a + 1 };
            assert(hr[a] == hs[a1]);
        }
    }

    /// A completion that gives no new entry moves the expansion on.
    proof fn lemma_expand_skip(
        &self,
        hs: Seq<Seq<Cell>>,
        fs: Seq<Seq<Cell>>,
        h0: int,
        f0: int,
        g: Seq<Cell>,
        k: int,
        comps: Seq<Vec<Cell>>,
        j: int,
    )
        requires
            self.expanding(hs, fs, h0, f0, g, k, comps, j),
        ensures
            self.expanding(hs, fs, h0, f0, g, k, comps, j + 1),
    {
        reveal(SearchState::expanding);
        assert forall|i: int| h0 <= i < hs.len() implies self.from_branch(#[trigger] hs[i], g, k, comps, j + 1) by {
            assert(self.from_branch(hs[i], g, k, comps, j));
        }
        assert forall|i: int| f0 <= i < fs.len() implies self.from_branch(#[trigger] fs[i], g, k, comps, j + 1) by {
            assert(self.from_branch(fs[i], g, k, comps, j));
        }
    }

    /// Two grids with different fully known lines `k` clash.
    proof fn lemma_line_clash(&self, a: Seq<Cell>, b: Seq<Cell>, line: Line)
        requires
            self.wf(),
            self.line_valid(line),
            a.len() == self.size(),
            b.len() == self.size(),
            is_full(self.line_at(a, self.lidx(line))),
            is_full(self.line_at(b, self.lidx(line))),
            self.line_at(a, self.lidx(line)) != self.line_at(b, self.lidx(line)),
        ensures
            clash(a, b),
    {
        let k = self.lidx(line);
        self.lemma_line_len(a, line);
        self.lemma_line_len(b, line);
        let la = self.line_at(a, k);
        let lb = self.line_at(b, k);
        let q = choose|q: int| 0 <= q < la.len() && la[q] != lb[q];
        assert(exists|q: int| 0 <= q < la.len() && la[q] != lb[q]) by {
            if !(exists|q: int| 0 <= q < la.len() && la[q] != lb[q]) {
                assert(la =~= lb);
            }
        }
        self.lemma_flat(line, q);
        let i = self.flat(line, q);
        assert(la[q] == a[i]);
        assert(lb[q] == b[i]);
    }

    /// A new entry from completion `j` clashes with every entry so far.
    proof fn lemma_expand_fresh(
        &self,
        hs: Seq<Seq<Cell>>,
        fs: Seq<Seq<Cell>>,
        h0: int,
        f0: int,
        g: Seq<Cell>,
        line: Line,
        comps: Seq<Vec<Cell>>,
        j: int,
        x: Seq<Cell>,
    )
        requires
            self.wf(),
            self.line_valid(line),
            g.len() == self.size(),
            self.expanding(hs, fs, h0, f0, g, self.lidx(line), comps, j),
            0 <= j < comps.len(),
            distinct_from(comps, 0),
            forall|jj: int| 0 <= jj < comps.len() ==> is_full(#[trigger] comps[jj]@),
            agrees(x, g),
            self.line_at(x, self.lidx(line)) == comps[j]@,
        ensures
            forall|i: int| 0 <= i < hs.len() ==> clash(x, #[trigger] hs[i]) && clash(hs[i], x),
            forall|i: int| 0 <= i < fs.len() ==> clash(x, #[trigger] fs[i]) && clash(fs[i], x),
    {
        reveal(SearchState::expanding);
        reveal(distinct_from);
        let k = self.lidx(line);
        assert forall|e: Seq<Cell>|
            (clash(g, e) || self.from_branch(e, g, k, comps, j)) implies #[trigger] clash(x, e) && clash(e, x) by {
            if clash(g, e) {
                let i = choose|i: int|
                    0 <= i < g.len() && 0 <= i < e.len() && g[i] != Cell::Unknown && e[i] != Cell::Unknown && #[trigger] g[i]
                        != #[trigger] e[i];
                assert(x[i] == g[i]);
            } else {
                let jj = choose|jj: int| 0 <= jj < j && self.line_at(e, k) == #[trigger] comps[jj]@;
                assert(comps[jj]@ != comps[j]@);
                assert(is_full(comps[jj]@));
                self.lemma_line_clash(x, e, line);
                let i = choose|i: int|
                    0 <= i < x.len() && 0 <= i < e.len() && x[i] != Cell::Unknown && e[i] != Cell::Unknown && #[trigger] x[i]
                        != #[trigger] e[i];
                assert(e[i] != x[i]);
            }
        }
        assert forall|i: int| 0 <= i < hs.len() implies clash(x, #[trigger] hs[i]) && clash(hs[i], x) by {
            if i < h0 {
                assert(clash(g, hs[i]));
            } else {
                assert(self.from_branch(hs[i], g, k, comps, j));
            }
        }
        assert forall|i: int| 0 <= i < fs.len() implies clash(x, #[trigger] fs[i]) && clash(fs[i], x) by {
            if i < f0 {
                assert(clash(g, fs[i]));
            } else {
                assert(self.from_branch(fs[i], g, k, comps, j));
            }
        }
    }

    /// Queueing or finding a new entry from completion `j` moves the
    /// expansion on.
    proof fn lemma_expand_push(
        &self,
        hs: Seq<Seq<Cell>>,
        fs: Seq<Seq<Cell>>,
        h0: int,
        f0: int,
        g: Seq<Cell>,
        line: Line,
        comps: Seq<Vec<Cell>>,
        j: int,
        x: Seq<Cell>,
        queued: bool,
    )
        requires
            self.wf(),
            self.line_valid(line),
            g.len() == self.size(),
            self.expanding(hs, fs, h0, f0, g, self.lidx(line), comps, j),
            0 <= j < comps.len(),
            distinct_from(comps, 0),
            forall|jj: int| 0 <= jj < comps.len() ==> is_full(#[trigger] comps[jj]@),
            agrees(x, g),
            self.line_at(x, self.lidx(line)) == comps[j]@,
        ensures
            queued ==> self.expanding(hs.push(x), fs, h0, f0, g, self.lidx(line), comps, j + 1),
            !queued ==> self.expanding(hs, fs.push(x), h0, f0, g, self.lidx(line), comps, j + 1),
    {
        let k = self.lidx(line);
        self.lemma_expand_fresh(hs, fs, h0, f0, g, line, comps, j, x);
        self.lemma_expand_skip(hs, fs, h0, f0, g, k, comps, j);
        reveal(SearchState::expanding);
        reveal(apart);
        assert(self.from_branch(x, g, k, comps, j + 1)) by {
            assert(self.line_at(x, k) == comps[j]@);
        }
        if queued {
            let h2 = hs.push(x);
            assert forall|i: int| 0 <= i < h2.len() - 1 implies #[trigger] h2[i] == hs[i] by {}
            assert(h2[h2.len() - 1] == x);
        } else {
            let f2 = fs.push(x);
            assert forall|i: int| 0 <= i < f2.len() - 1 implies #[trigger] f2[i] == fs[i] by {}
            assert(f2[f2.len() - 1] == x);
        }
    }

    /// Each "found" entry carries its grid; the grids of an expansion clash
    /// pairwise.
    proof fn lemma_expand_end(
        &self,
        hs: Seq<Seq<Cell>>,
        fs: Seq<Seq<Cell>>,
        h0: int,
        f0: int,
        g: Seq<Cell>,
        k: int,
        comps: Seq<Vec<Cell>>,
        j: int,
    )
        requires
            self.expanding(hs, fs, h0, f0, g, k, comps, j),
        ensures
            apart(hs, fs),
    {
        reveal(SearchState::expanding);
    }

    /// Exhaustive best-first search. Returns every solution found (grid and
    /// trace), the numbers of expanded and queued nodes (saturating; never
    /// more expanded than queued), and whether the search was cancelled:
    /// `cancelled` is asked once per expanded node, never when propagation
    /// from the all-unknown grid decides the puzzle, and a search that is
    /// never told to stop finds every solution.
    #[verifier::rlimit(80)]
    pub fn solve_all_counted<C: Fn() -> bool>(&self, cancelled: &C) -> (res: (
        Vec<(Vec<Cell>, Vec<SolveStep>)>,
        usize,
        usize,
        bool,
    ))
        requires
            self.wf(),
            call_requires(*cancelled, ()),
        ensures
            never_cancels(*cancelled) ==> !res.3,
            always_cancels(*cancelled) && !self.root_decided() ==> res.3 && res.0@.len() == 0 && res.1 == 1 && res.2 == 1,
            self.found_ok(res.0@),
            !res.3 ==> forall|s: Seq<Cell>| #[trigger] self.solves(s) ==> found_has(res.0@, s),
            self.all_nonzero() ==> distinct_grids(res.0@),
            res.1 <= res.2,
            self.root_decided() ==> !res.3 && res.1 == 0 && res.2 == 0,
            res.3 ==> !self.root_decided() && res.1 >= 1,
    {
        let n = self.rows * self.cols;
        let mut grid = unknown_grid(n);
        let mut steps: Vec<SolveStep> = Vec::new();
        let mut expanded: usize = 0;
        let mut pushed: usize = 0;
        let mut solutions: Vec<(Vec<Cell>, Vec<SolveStep>)> = Vec::new();
        proof {
            assert(states(grid@) =~= blank(self.size()));
            assert(steps@.skip(0) =~= steps@);
        }
        let ghost g_blank = grid@;
        proof {
            assert(g_blank =~= Seq::new(self.size(), |i: int| Cell::Unknown));
        }
        if !self.propagate(&mut grid, &mut steps) {
            proof {
                assert forall|s: Seq<Cell>| #[trigger] self.solves(s) implies found_has(solutions@, s) by {
                    assert(agrees(s, g_blank));
                }
            }
            return (solutions, expanded, pushed, false);
        }
        proof {
            assert(steps@.skip(0) =~= steps@);
        }
        if self.is_complete(&grid) {
            let ghost gv = grid@;
            let ok = self.check(&grid);
            if ok {
                solutions.push((grid, steps));
            }
            proof {
                assert forall|s: Seq<Cell>| #[trigger] self.solves(s) implies found_has(solutions@, s) by {
                    assert(agrees(s, g_blank));
                    assert(agrees(s, gv));
                    lemma_full_agrees_eq(s, gv);
                    assert(ok);
                    assert(solutions@[0].0@ == gv);
                }
            }
            return (solutions, expanded, pushed, false);
        }
        let mut heap: Vec<Node> = Vec::new();
        let mc = self.min_completion_count(&grid);
        heap.push(Node { min_count: mc, grid, steps });
        pushed = pushed.saturating_add(1);
        let ghost mut p_true: nat = 1;
        let ghost mut e_true: nat = 0;
        let ghost b = exp2(self.size() + 1) + 1;
        proof {
            assert forall|s: Seq<Cell>| #[trigger] self.solves(s) implies (exists|k: int|
                0 <= k < heap@.len() && agrees(s, heap@[k].grid@)) || found_has(solutions@, s) by {
                assert(agrees(s, g_blank));
                assert(agrees(s, heap@[0].grid@));
            }
            reveal(apart);
        }
        while heap.len() > 0
            invariant
                self.wf(),
                b == exp2(self.size() + 1) + 1,
                forall|k: int| 0 <= k < heap@.len() ==> self.node_ok(#[trigger] heap@[k]),
                self.covered_or_found(heap@, solutions@),
                self.found_ok(solutions@),
                self.all_nonzero() ==> apart(node_grids(heap@), found_grids(solutions@)),
                !self.root_decided(),
                pushed == saturate(p_true),
                expanded == saturate(e_true),
                e_true + heap@.len() == p_true,
                p_true >= 1,
                call_requires(*cancelled, ()),
                always_cancels(*cancelled) ==> e_true == 0 && p_true == 1 && solutions@.len() == 0,
            decreases heap_weight(heap@, b),
        {
            let i = min_index(&heap);
            let ghost h0 = heap@;
            let node = heap.remove(i);
            expanded = expanded.saturating_add(1);
            proof {
                e_true = e_true + 1;
            }
            let ghost u = unknowns(node.grid@);
            let ghost w1 = heap_weight(heap@, b);
            proof {
                lemma_weight_remove(h0, i as int, b);
                assert(node == h0[i as int]);
                assert(self.node_ok(node));
                lemma_unknowns_full(node.grid@);
                lemma_pow_pos(b, (u - 1) as nat);
                assert(pow_nat(b, u) == b * pow_nat(b, (u - 1) as nat));
                assert forall|k: int| 0 <= k < heap@.len() implies self.node_ok(#[trigger] heap@[k]) by {
                    if k < i {
                        assert(heap@[k] == h0[k]);
                    } else {
                        assert(heap@[k] == h0[k + 1]);
                    }
                }
                if self.all_nonzero() {
                    lemma_apart_distinct(node_grids(h0), solutions@);
                }
            }
            if cancelled() {
                return (solutions, expanded, pushed, true);
            }
            match self.most_constrained(&node.grid) {
                None => {
                    proof {
                        self.lemma_closed_full(node.grid@);
                    }
                },
                Some((line, completions)) => {
                    let ghost k = self.lidx(line);
                    let ghost p = pow_nat(b, (u - 1) as nat);
                    proof {
                        self.lemma_line_len(node.grid@, line);
                        self.lemma_line_len_bound(line);
                        lemma_exp2_mono((self.line_len(line) + 1) as nat, self.size() + 1);
                        assert forall|s: Seq<Cell>| #[trigger] self.solves(s) implies (exists|kk: int|
                            0 <= kk < heap@.len() && agrees(s, heap@[kk].grid@)) || found_has(solutions@, s) || (agrees(s, node.grid@)
                            && exists|jj: int|
                            0 <= jj < completions@.len() && completions@[jj]@ == self.line_at(s, k)) by {
                            if exists|kk: int| 0 <= kk < h0.len() && agrees(s, h0[kk].grid@) {
                                let kk = choose|kk: int| 0 <= kk < h0.len() && agrees(s, h0[kk].grid@);
                                if kk < i {
                                    assert(heap@[kk] == h0[kk]);
                                } else if kk > i {
                                    assert(heap@[kk - 1] == h0[kk]);
                                } else {
                                    self.lemma_line_completion(s, node.grid@, k);
                                    assert(listed(completions@, 0, self.line_at(s, k)));
                                }
                            }
                        }
                        assert forall|jj: int| 0 <= jj < completions@.len() implies is_full(#[trigger] completions@[jj]@) by {
                            lemma_fits_full(completions@[jj]@, self.clues_at(k));
                        }
                        if self.all_nonzero() {
                            self.lemma_expand_start(node_grids(h0), found_grids(solutions@), i as int, k, completions@);
                            assert(node_grids(h0).remove(i as int) =~= node_grids(heap@));
                            assert(node_grids(h0)[i as int] == node.grid@);
                        }
                    }
                    let ghost hlen = heap@.len() as int;
                    let ghost flen = solutions@.len() as int;
                    let mut j: usize = 0;
                    while j < completions.len()
                        invariant
                            self.wf(),
                            b == exp2(self.size() + 1) + 1,
                            self.node_ok(node),
                            u == unknowns(node.grid@),
                            u >= 1,
                            p == pow_nat(b, (u - 1) as nat),
                            p >= 1,
                            pow_nat(b, u) == b * p,
                            self.line_valid(line),
                            k == self.lidx(line),
                            0 <= k < self.nlines(),
                            self.open_line(node.grid@, k),
                            all_completions(completions@, 0, self.line_at(node.grid@, k), self.clues_at(k)),
                            completions@.len() <= b - 1,
                            j <= completions@.len(),
                            forall|kk: int| 0 <= kk < heap@.len() ==> self.node_ok(#[trigger] heap@[kk]),
                            self.found_ok(solutions@),
                            forall|s: Seq<Cell>| #[trigger] self.solves(s) ==> (exists|kk: int|
                                0 <= kk < heap@.len() && agrees(s, heap@[kk].grid@)) || found_has(solutions@, s) || (agrees(s, node.grid@)
                                && exists|jj: int|
                                j <= jj < completions@.len() && completions@[jj]@ == self.line_at(s, k)),
                            heap_weight(heap@, b) <= w1 + j * p,
                            forall|jj: int| 0 <= jj < completions@.len() ==> is_full(#[trigger] completions@[jj]@),
                            self.all_nonzero() ==> distinct_from(completions@, 0),
                            self.all_nonzero() ==> self.expanding(
                                node_grids(heap@),
                                found_grids(solutions@),
                                hlen,
                                flen,
                                node.grid@,
                                k,
                                completions@,
                                j as int,
                            ),
                            !self.root_decided(),
                            pushed == saturate(p_true),
                            expanded == saturate(e_true),
                            e_true + heap@.len() == p_true,
                            e_true >= 1,
                        decreases completions@.len() - j,
                    {
                        proof {
                            assert(is_completion(completions@[j as int]@, self.line_at(node.grid@, k), self.clues_at(k)));
                        }
                        let ghost hj = heap@;
                        let ghost sj = solutions@;
                        match self.branch(&node.grid, &node.steps, line, completions[j].as_slice()) {
                            None => {
                                proof {
                                    assert(heap_weight(heap@, b) <= w1 + (j + 1) * p) by (nonlinear_arith)
                                        requires
                                            heap_weight(heap@, b) <= w1 + j * p,
                                            p >= 1,
                                    ;
                                    if self.all_nonzero() {
                                        self.lemma_expand_skip(
                                            node_grids(heap@),
                                            found_grids(solutions@),
                                            hlen,
                                            flen,
                                            node.grid@,
                                            k,
                                            completions@,
                                            j as int,
                                        );
                                    }
                                }
                            },
                            Some((g, st)) => {
                                let ghost gv = g@;
                                if self.is_complete(&g) {
                                    if self.check(&g) {
                                        solutions.push((g, st));
                                        proof {
                                            if self.all_nonzero() {
                                                self.lemma_expand_push(
                                                    node_grids(heap@),
                                                    found_grids(sj),
                                                    hlen,
                                                    flen,
                                                    node.grid@,
                                                    line,
                                                    completions@,
                                                    j as int,
                                                    gv,
                                                    false,
                                                );
                                                assert(found_grids(sj).push(gv) =~= found_grids(solutions@));
                                            }
                                        }
                                    } else {
                                        proof {
                                            if self.all_nonzero() {
                                                self.lemma_expand_skip(
                                                    node_grids(heap@),
                                                    found_grids(solutions@),
                                                    hlen,
                                                    flen,
                                                    node.grid@,
                                                    k,
                                                    completions@,
                                                    j as int,
                                                );
                                            }
                                        }
                                    }
                                    proof {
                                        assert(heap_weight(heap@, b) <= w1 + (j + 1) * p) by (nonlinear_arith)
                                            requires
                                                heap_weight(heap@, b) <= w1 + j * p,
                                                p >= 1,
                                        ;
                                        assert forall|kk: int| 0 <= kk < solutions@.len() implies {
                                            &&& self.solves(#[trigger] solutions@[kk].0@)
                                            &&& states(solutions@[kk].0@) == replay(blank(self.size()), self.cols as nat, solutions@[kk].1@)
                                        } by {
                                            if kk < sj.len() {
                                                assert(solutions@[kk] == sj[kk]);
                                            }
                                        }
                                        assert forall|s: Seq<Cell>| #[trigger] self.solves(s) implies (exists|kk: int|
                                            0 <= kk < heap@.len() && agrees(s, heap@[kk].grid@)) || found_has(solutions@, s) || (agrees(s, node.grid@)
                                            && exists|jj: int|
                                            j + 1 <= jj < completions@.len() && completions@[jj]@ == self.line_at(s, k)) by {
                                            if found_has(sj, s) {
                                                let kk = choose|kk: int| 0 <= kk < sj.len() && (#[trigger] sj[kk]).0@ == s;
                                                assert(solutions@[kk] == sj[kk]);
                                            } else if agrees(s, node.grid@) && self.line_at(s, k) == completions@[j as int]@ {
                                                lemma_full_agrees_eq(s, gv);
                                                assert(solutions@[sj.len() as int].0@ == s);
                                            }
                                        }
                                    }
                                } else {
                                    let min_count = self.min_completion_count(&g);
                                    let child = Node { min_count, grid: g, steps: st };
                                    heap.push(child);
                                    pushed = pushed.saturating_add(1);
                                    proof {
                                        p_true = p_true + 1;
                                    }
                                    proof {
                                        if self.all_nonzero() {
                                            self.lemma_expand_push(
                                                node_grids(hj),
                                                found_grids(solutions@),
                                                hlen,
                                                flen,
                                                node.grid@,
                                                line,
                                                completions@,
                                                j as int,
                                                gv,
                                                true,
                                            );
                                            assert(node_grids(hj).push(gv) =~= node_grids(heap@));
                                        }
                                        lemma_weight_push(hj, child, b);
                                        lemma_pow_mono(b, unknowns(gv), (u - 1) as nat);
                                        assert(heap_weight(heap@, b) <= w1 + (j + 1) * p) by (nonlinear_arith)
                                            requires
                                                heap_weight(heap@, b) <= w1 + j * p + p,
                                        ;
                                        assert forall|kk: int| 0 <= kk < heap@.len() implies self.node_ok(#[trigger] heap@[kk]) by {
                                            if kk < hj.len() {
                                                assert(heap@[kk] == hj[kk]);
                                            } else {
                                                lemma_unknowns_full(gv);
                                            }
                                        }
                                        assert forall|s: Seq<Cell>| #[trigger] self.solves(s) implies (exists|kk: int|
                                            0 <= kk < heap@.len() && agrees(s, heap@[kk].grid@)) || found_has(solutions@, s) || (agrees(s, node.grid@)
                                            && exists|jj: int|
                                            j + 1 <= jj < completions@.len() && completions@[jj]@ == self.line_at(s, k)) by {
                                            if exists|kk: int| 0 <= kk < hj.len() && agrees(s, hj[kk].grid@) {
                                                let kk = choose|kk: int| 0 <= kk < hj.len() && agrees(s, hj[kk].grid@);
                                                assert(heap@[kk] == hj[kk]);
                                            } else if agrees(s, node.grid@) && self.line_at(s, k) == completions@[j as int]@ {
                                                assert(agrees(s, heap@[hj.len() as int].grid@));
                                            }
                                        }
                                    }
                                }
                            },
                        }
                        j += 1;
                    }
                    proof {
                        if self.all_nonzero() {
                            self.lemma_expand_end(
                                node_grids(heap@),
                                found_grids(solutions@),
                                hlen,
                                flen,
                                node.grid@,
                                k,
                                completions@,
                                j as int,
                            );
                        }
                        Self::lemma_weight_drop(w1, completions@.len() as nat, p, b);
                        assert(w1 + completions@.len() * p <= w1 + (b - 1) * p) by (nonlinear_arith)
                            requires
                                completions@.len() <= b - 1,
                                p >= 1,
                        ;
                    }
                },
            }
        }
        proof {
            if self.all_nonzero() {
                lemma_apart_distinct(node_grids(heap@), solutions@);
            }
        }
        (solutions, expanded, pushed, false)
    }
}

} // verus!
