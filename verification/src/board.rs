//! The board a puzzle is solved on by hand: clicks and drag strokes, line
//! assistance after each painted cell, undo and redo, trial tiers, and the
//! cursor that steps through a solver's trace.
use vstd::prelude::*;
use crate::assist::{
    changes_in_grid, check_line_fulfilled, col_cells, copy_states, edge_marks, forced_empty_from_edges, grid_at_step,
    line_min_cells, min_cells, preview_cells, preview_spec, row_cells,
};
use crate::types::{
    AllSolutions, CellState, Puzzle, SolveResult, blank, clue_ints, filled_runs, grid_col, grid_row, line_sum, replay,
    wrap_u32,
};

verus! {

/// `g` with the cells whose indices are in `s` marked empty.
pub open spec fn with_empties(g: Seq<CellState>, s: Set<int>) -> Seq<CellState> {
    Seq::new(g.len(), |i: int| if s.contains(i) { CellState::Empty } else { g[i] })
}

/// Index `i` lies on row `r` of a grid of width `w`.
pub open spec fn on_row(i: int, w: nat, r: int) -> bool {
    r * w <= i < r * w + w
}

/// Index `i` is the cell of column `c` in row `k` of a grid of width `w`
/// and height `h`.
pub open spec fn col_cell(i: int, h: nat, w: nat, c: int, k: int) -> bool {
    0 <= k < h && i == k * w + c
}

/// Auto-fill of a row: once row `r` shows exactly its clues, its unknown
/// cells become empty.
pub open spec fn filled_row(g: Seq<CellState>, w: nat, r: int, clues: Seq<u32>) -> Seq<CellState> {
    if filled_runs(grid_row(g, w, r)) == clue_ints(clues) {
        with_empties(g, Set::new(|i: int| on_row(i, w, r) && g[i] == CellState::Unknown))
    } else {
        g
    }
}

/// Auto-fill of a column.
pub open spec fn filled_col(g: Seq<CellState>, h: nat, w: nat, c: int, clues: Seq<u32>) -> Seq<CellState> {
    if filled_runs(grid_col(g, h, w, c)) == clue_ints(clues) {
        with_empties(
            g,
            Set::new(|i: int| exists|k: int| #[trigger] col_cell(i, h, w, c, k) && g[i] == CellState::Unknown),
        )
    } else {
        g
    }
}

/// Auto-cross of a row: the cells of row `r` that its edge-confirmed runs
/// rule out become empty.
pub open spec fn crossed_row(g: Seq<CellState>, w: nat, r: int, clues: Seq<u32>) -> Seq<CellState> {
    with_empties(
        g,
        Set::new(|i: int| on_row(i, w, r) && edge_marks(clues, grid_row(g, w, r)).contains((i - r * w) as usize)),
    )
}

/// Auto-cross of a column.
pub open spec fn crossed_col(g: Seq<CellState>, h: nat, w: nat, c: int, clues: Seq<u32>) -> Seq<CellState> {
    with_empties(
        g,
        Set::new(
            |i: int|
                exists|k: int| #[trigger] col_cell(i, h, w, c, k) && edge_marks(clues, grid_col(g, h, w, c)).contains(k as usize),
        ),
    )
}

/// Which line assistance runs after a cell is painted.
#[derive(Clone, Copy, Debug)]
pub struct LineAssist {
    /// Mark the unknown cells of a line empty once it shows its clues.
    pub auto_fill_empty: bool,
    /// Mark empty the cells that runs confirmed from the line ends rule out.
    pub auto_cross_edges: bool,
}

/// The grid after line assistance for cell (`row`, `col`) painted `paint`:
/// nothing for an unknown paint, with both aids off, or when a solver
/// result is shown; else auto-fill of the row then the column, then
/// auto-cross of the row then the column, each on the grid left by the one
/// before.
pub open spec fn assisted(
    g: Seq<CellState>,
    p: Puzzle,
    row: int,
    col: int,
    paint: CellState,
    assist: LineAssist,
    machine: bool,
) -> Seq<CellState> {
    let w = p.width as nat;
    let h = p.height as nat;
    if paint == CellState::Unknown || (!assist.auto_fill_empty && !assist.auto_cross_edges) || machine {
        g
    } else {
        let g1 = if assist.auto_fill_empty {
            filled_col(filled_row(g, w, row, p.row_clues@[row]@), h, w, col, p.col_clues@[col]@)
        } else {
            g
        };
        if assist.auto_cross_edges {
            let g2 = crossed_row(g1, w, row, p.row_clues@[row]@);
            crossed_col(g2, h, w, col, p.col_clues@[col]@)
        } else {
            g1
        }
    }
}

/// Auto-fill of row `r` on `grid`.
fn fill_row(grid: &mut Vec<CellState>, h: usize, w: usize, r: usize, clues: &[u32])
    requires
        old(grid)@.len() == h * w,
        h * w <= usize::MAX,
        r < h,
    ensures
        final(grid)@ == filled_row(old(grid)@, w as nat, r as int, clues@),
{
    let ghost g0 = grid@;
    proof {
        assert(r * w + w <= h * w) by (nonlinear_arith)
            requires
                r < h,
        ;
    }
    let cells = row_cells(grid.as_slice(), w, r);
    if !check_line_fulfilled(clues, cells.as_slice()) {
        return;
    }
    let base = r * w;
    let mut c: usize = 0;
    proof {
        assert(grid@ =~= with_empties(g0, Set::new(|i: int| base <= i < base + c && g0[i] == CellState::Unknown)));
    }
    while c < w
        invariant
            g0.len() == h * w,
            h * w <= usize::MAX,
            base == r * w,
            base + w <= h * w,
            c <= w,
            grid@ == with_empties(g0, Set::new(|i: int| base <= i < base + c && g0[i] == CellState::Unknown)),
        decreases w - c,
    {
        if grid[base + c] == CellState::Unknown {
            grid.set(base + c, CellState::Empty);
        }
        c += 1;
        assert(grid@ =~= with_empties(g0, Set::new(|i: int| base <= i < base + c && g0[i] == CellState::Unknown)));
    }
    assert(grid@ =~= filled_row(g0, w as nat, r as int, clues@));
}

/// Auto-fill of column `c` on `grid`.
fn fill_col(grid: &mut Vec<CellState>, h: usize, w: usize, c: usize, clues: &[u32])
    requires
        old(grid)@.len() == h * w,
        h * w <= usize::MAX,
        c < w,
    ensures
        final(grid)@ == filled_col(old(grid)@, h as nat, w as nat, c as int, clues@),
{
    let ghost g0 = grid@;
    let cells = col_cells(grid.as_slice(), h, w, c);
    if !check_line_fulfilled(clues, cells.as_slice()) {
        return;
    }
    let mut k: usize = 0;
    proof {
        assert(grid@ =~= with_empties(
            g0,
            Set::new(|i: int| exists|kk: int| #[trigger] col_cell(i, k as nat, w as nat, c as int, kk) && g0[i] == CellState::Unknown),
        ));
    }
    while k < h
        invariant
            g0.len() == h * w,
            h * w <= usize::MAX,
            c < w,
            k <= h,
            grid@ == with_empties(
                g0,
                Set::new(
                    |i: int|
                        exists|kk: int| #[trigger] col_cell(i, k as nat, w as nat, c as int, kk) && g0[i] == CellState::Unknown,
                ),
            ),
        decreases h - k,
    {
        proof {
            crate::search::lemma_cell_index(k as int, c as int, h as int, w as int);
        }
        let idx = k * w + c;
        let ghost before = grid@;
        if grid[idx] == CellState::Unknown {
            grid.set(idx, CellState::Empty);
        }
        proof {
            let s1 = Set::new(
                |i: int| exists|kk: int| #[trigger] col_cell(i, k as nat, w as nat, c as int, kk) && g0[i] == CellState::Unknown,
            );
            let s2 = Set::new(
                |i: int| exists|kk: int| #[trigger] col_cell(i, (k + 1) as nat, w as nat, c as int, kk) && g0[i] == CellState::Unknown,
            );
            assert(col_cell(idx as int, (k + 1) as nat, w as nat, c as int, k as int));
            assert forall|i: int| 0 <= i < g0.len() && i != idx implies s1.contains(i) == s2.contains(i) by {
                if s2.contains(i) {
                    let kk = choose|kk: int| #[trigger] col_cell(i, (k + 1) as nat, w as nat, c as int, kk) && g0[i] == CellState::Unknown;
                    if kk == k {
                        assert(i == idx);
                    }
                    assert(col_cell(i, k as nat, w as nat, c as int, kk));
                }
                if s1.contains(i) {
                    let kk = choose|kk: int| #[trigger] col_cell(i, k as nat, w as nat, c as int, kk) && g0[i] == CellState::Unknown;
                    assert(col_cell(i, (k + 1) as nat, w as nat, c as int, kk));
                }
            }
            assert forall|kk: int| #[trigger] col_cell(idx as int, k as nat, w as nat, c as int, kk) implies false by {
                crate::search::lemma_cell_index_unique(kk, c as int, k as int, c as int, w as int);
            }
            assert(!s1.contains(idx as int));
            assert(grid@ =~= with_empties(g0, s2));
        }
        k += 1;
    }
    assert(grid@ =~= filled_col(g0, h as nat, w as nat, c as int, clues@));
}

/// Auto-cross of row `r` on `grid`.
fn cross_row(grid: &mut Vec<CellState>, h: usize, w: usize, r: usize, clues: &[u32])
    requires
        old(grid)@.len() == h * w,
        h * w <= usize::MAX,
        r < h,
    ensures
        final(grid)@ == crossed_row(old(grid)@, w as nat, r as int, clues@),
{
    let ghost g0 = grid@;
    proof {
        assert(r * w + w <= h * w) by (nonlinear_arith)
            requires
                r < h,
        ;
    }
    let cells = row_cells(grid.as_slice(), w, r);
    let marks = forced_empty_from_edges(clues, cells.as_slice());
    let ghost em = edge_marks(clues@, cells@);
    let base = r * w;
    let mut t: usize = 0;
    proof {
        assert(grid@ =~= with_empties(
            g0,
            Set::new(|i: int| on_row(i, w as nat, r as int) && marks@.take(t as int).contains((i - base) as usize)),
        ));
    }
    while t < marks.len()
        invariant
            g0.len() == h * w,
            h * w <= usize::MAX,
            base == r * w,
            base + w <= h * w,
            cells@.len() == w,
            em == edge_marks(clues@, cells@),
            forall|x: usize| marks@.contains(x) <==> em.contains(x),
            forall|x: usize| em.contains(x) ==> x < cells@.len(),
            t <= marks@.len(),
            grid@ == with_empties(
                g0,
                Set::new(|i: int| on_row(i, w as nat, r as int) && marks@.take(t as int).contains((i - base) as usize)),
            ),
        decreases marks@.len() - t,
    {
        let m = marks[t];
        proof {
            assert(marks@.contains(m));
            assert(em.contains(m));
        }
        grid.set(base + m, CellState::Empty);
        proof {
            let s2 = Set::new(
                |i: int| on_row(i, w as nat, r as int) && marks@.take(t + 1).contains((i - base) as usize),
            );
            assert(marks@.take(t + 1) =~= marks@.take(t as int).push(m));
            assert(marks@.take(t + 1)[t as int] == m);
            assert(on_row(base + m, w as nat, r as int));
            assert(((base + m) - base) as usize == m);
            assert(s2.contains(base + m));
            assert(grid@ =~= with_empties(g0, s2));
        }
        t += 1;
    }
    proof {
        assert(marks@.take(t as int) =~= marks@);
        assert(cells@ == grid_row(g0, w as nat, r as int));
        assert(grid@ =~= crossed_row(g0, w as nat, r as int, clues@));
    }
}

/// Auto-cross of column `c` on `grid`.
fn cross_col(grid: &mut Vec<CellState>, h: usize, w: usize, c: usize, clues: &[u32])
    requires
        old(grid)@.len() == h * w,
        h * w <= usize::MAX,
        c < w,
    ensures
        final(grid)@ == crossed_col(old(grid)@, h as nat, w as nat, c as int, clues@),
{
    let ghost g0 = grid@;
    let cells = col_cells(grid.as_slice(), h, w, c);
    let marks = forced_empty_from_edges(clues, cells.as_slice());
    let ghost em = edge_marks(clues@, cells@);
    let mut t: usize = 0;
    proof {
        assert(grid@ =~= with_empties(
            g0,
            Set::new(
                |i: int| exists|k: int| #[trigger] col_cell(i, h as nat, w as nat, c as int, k) && marks@.take(t as int).contains(k as usize),
            ),
        ));
    }
    while t < marks.len()
        invariant
            g0.len() == h * w,
            h * w <= usize::MAX,
            c < w,
            cells@.len() == h,
            em == edge_marks(clues@, cells@),
            forall|x: usize| marks@.contains(x) <==> em.contains(x),
            forall|x: usize| em.contains(x) ==> x < cells@.len(),
            t <= marks@.len(),
            grid@ == with_empties(
                g0,
                Set::new(
                    |i: int|
                        exists|k: int| #[trigger] col_cell(i, h as nat, w as nat, c as int, k) && marks@.take(t as int).contains(k as usize),
                ),
            ),
        decreases marks@.len() - t,
    {
        let m = marks[t];
        proof {
            assert(marks@.contains(m));
            assert(em.contains(m));
            assert(m < h);
            crate::search::lemma_cell_index(m as int, c as int, h as int, w as int);
        }
        let idx = m * w + c;
        grid.set(idx, CellState::Empty);
        proof {
            let s1 = Set::new(
                |i: int|
                    exists|k: int| #[trigger] col_cell(i, h as nat, w as nat, c as int, k) && marks@.take(t as int).contains(k as usize),
            );
            let s2 = Set::new(
                |i: int|
                    exists|k: int| #[trigger] col_cell(i, h as nat, w as nat, c as int, k) && marks@.take(t + 1).contains(k as usize),
            );
            assert(marks@.take(t + 1) =~= marks@.take(t as int).push(m));
            assert(col_cell(idx as int, h as nat, w as nat, c as int, m as int));
            assert(marks@.take(t + 1)[t as int] == m);
            assert(marks@.take(t + 1).contains((m as int) as usize));
            assert(s2.contains(idx as int));
            assert forall|i: int| 0 <= i < g0.len() && i != idx implies s1.contains(i) == s2.contains(i) by {
                if s2.contains(i) {
                    let k = choose|k: int| #[trigger] col_cell(i, h as nat, w as nat, c as int, k) && marks@.take(t + 1).contains(k as usize);
                    if k == m {
                        assert(i == idx);
                    }
                    assert(marks@.take(t as int).contains(k as usize));
                }
            }
            assert(grid@ =~= with_empties(g0, s2));
        }
        t += 1;
    }
    proof {
        assert(marks@.take(t as int) =~= marks@);
        assert(cells@ == grid_col(g0, h as nat, w as nat, c as int));
        assert(grid@ =~= crossed_col(g0, h as nat, w as nat, c as int, clues@));
    }
}

/// Runs line assistance for cell (`row`, `col`) just painted `paint`.
/// `machine` is whether a solver result is shown for the puzzle.
pub fn assist_lines(
    grid: &mut Vec<CellState>,
    puzzle: &Puzzle,
    row: usize,
    col: usize,
    paint: CellState,
    assist: LineAssist,
    machine: bool,
)
    requires
        puzzle.wf(),
        old(grid)@.len() == puzzle.width * puzzle.height,
        row < puzzle.height,
        col < puzzle.width,
    ensures
        final(grid)@ == assisted(old(grid)@, *puzzle, row as int, col as int, paint, assist, machine),
{
    if paint == CellState::Unknown {
        return;
    }
    if !assist.auto_fill_empty && !assist.auto_cross_edges {
        return;
    }
    if machine {
        return;
    }
    let w = puzzle.width;
    let h = puzzle.height;
    proof {
        assert(grid@.len() == h * w) by (nonlinear_arith)
            requires
                grid@.len() == puzzle.width * puzzle.height,
                w == puzzle.width,
                h == puzzle.height,
        ;
    }
    if assist.auto_fill_empty {
        fill_row(grid, h, w, row, puzzle.row_clues[row].as_slice());
        fill_col(grid, h, w, col, puzzle.col_clues[col].as_slice());
    }
    if assist.auto_cross_edges {
        cross_row(grid, h, w, row, puzzle.row_clues[row].as_slice());
        cross_col(grid, h, w, col, puzzle.col_clues[col].as_slice());
    }
}

/// A puzzle's grid as it is being filled in by hand, with its history.
pub struct ManualBoard {
    /// The grid, row-major.
    pub grid: Vec<CellState>,
    /// Grids that undo goes back to, the most recent last.
    pub undo: Vec<Vec<CellState>>,
    /// Grids that redo brings back, the most recently undone last.
    pub redo: Vec<Vec<CellState>>,
    /// Open trial tiers, the innermost last: the grid when the tier was
    /// entered and the first cell clicked in it.
    pub trial: Vec<(Vec<CellState>, Option<(usize, usize)>)>,
}

/// The contents of a board as plain values.
pub struct BoardView {
    pub grid: Seq<CellState>,
    pub undo: Seq<Seq<CellState>>,
    pub redo: Seq<Seq<CellState>>,
    pub trial: Seq<(Seq<CellState>, Option<(usize, usize)>)>,
}

/// The grids held by a stack of snapshots.
pub open spec fn grids_of(v: Seq<Vec<CellState>>) -> Seq<Seq<CellState>> {
    Seq::new(v.len(), |i: int| v[i]@)
}

/// The grids and first cells held by a stack of trial tiers.
pub open spec fn tiers_of(v: Seq<(Vec<CellState>, Option<(usize, usize)>)>) -> Seq<(Seq<CellState>, Option<(usize, usize)>)> {
    Seq::new(v.len(), |i: int| (v[i].0@, v[i].1))
}

impl View for ManualBoard {
    type V = BoardView;

    open spec fn view(&self) -> BoardView {
        BoardView {
            grid: self.grid@,
            undo: grids_of(self.undo@),
            redo: grids_of(self.redo@),
            trial: tiers_of(self.trial@),
        }
    }
}

/// Every grid of the board, current or saved, has `n` cells.
pub open spec fn sized(b: BoardView, n: nat) -> bool {
    &&& b.grid.len() == n
    &&& forall|i: int| 0 <= i < b.undo.len() ==> (#[trigger] b.undo[i]).len() == n
    &&& forall|i: int| 0 <= i < b.redo.len() ==> (#[trigger] b.redo[i]).len() == n
    &&& forall|i: int| 0 <= i < b.trial.len() ==> (#[trigger] b.trial[i]).0.len() == n
}

/// `b` with its grid replaced by `g`.
pub open spec fn with_grid(b: BoardView, g: Seq<CellState>) -> BoardView {
    BoardView { grid: g, undo: b.undo, redo: b.redo, trial: b.trial }
}

/// The current grid saved for undo before a change; redo is forgotten.
pub open spec fn recorded(b: BoardView) -> BoardView {
    BoardView { grid: b.grid, undo: b.undo.push(b.grid), redo: Seq::empty(), trial: b.trial }
}

/// Back to the last saved grid, the current one kept for redo; nothing
/// when there is none.
pub open spec fn undone(b: BoardView) -> BoardView {
    if b.undo.len() == 0 {
        b
    } else {
        BoardView { grid: b.undo.last(), undo: b.undo.drop_last(), redo: b.redo.push(b.grid), trial: b.trial }
    }
}

/// Forward to the last undone grid, the current one kept for undo; nothing
/// when there is none.
pub open spec fn redone(b: BoardView) -> BoardView {
    if b.redo.len() == 0 {
        b
    } else {
        BoardView { grid: b.redo.last(), undo: b.undo.push(b.grid), redo: b.redo.drop_last(), trial: b.trial }
    }
}

/// `b` after `k` undos.
pub open spec fn undone_times(b: BoardView, k: nat) -> BoardView
    decreases k,
{
    if k == 0 {
        b
    } else {
        undone(undone_times(b, (k - 1) as nat))
    }
}

/// Most saved grids kept when a board is cleared.
pub const CLEAR_HISTORY: usize = 500;

/// The grid reset to `n` unknown cells (left alone when `n` is 0), the old
/// one saved for undo, keeping at most `CLEAR_HISTORY` saved grids; redo
/// is forgotten.
pub open spec fn cleared(b: BoardView, n: nat) -> BoardView {
    let u = b.undo.push(b.grid);
    BoardView {
        grid: if n > 0 { Seq::new(n, |i: int| CellState::Unknown) } else { b.grid },
        undo: if u.len() > CLEAR_HISTORY { u.drop_first() } else { u },
        redo: Seq::empty(),
        trial: b.trial,
    }
}

/// A new trial tier that starts from the current grid.
pub open spec fn trial_entered(b: BoardView) -> BoardView {
    BoardView { grid: b.grid, undo: b.undo, redo: b.redo, trial: b.trial.push((b.grid, None)) }
}

/// The innermost trial tier closed, its changes kept.
pub open spec fn trial_accepted(b: BoardView) -> BoardView {
    if b.trial.len() == 0 {
        b
    } else {
        BoardView { grid: b.grid, undo: b.undo, redo: b.redo, trial: b.trial.drop_last() }
    }
}

/// The innermost trial tier closed and the grid put back to where it began.
pub open spec fn trial_rejected(b: BoardView) -> BoardView {
    if b.trial.len() == 0 {
        b
    } else {
        BoardView { grid: b.trial.last().0, undo: b.undo, redo: b.redo, trial: b.trial.drop_last() }
    }
}

/// The first cell clicked in the innermost trial tier, once set, stays.
pub open spec fn origin_noted(b: BoardView, row: usize, col: usize) -> BoardView {
    if b.trial.len() > 0 && b.trial.last().1 is None {
        BoardView {
            grid: b.grid,
            undo: b.undo,
            redo: b.redo,
            trial: b.trial.update(b.trial.len() - 1, (b.trial.last().0, Some((row, col)))),
        }
    } else {
        b
    }
}

/// The grids of a solve trace before each of its steps, on `n` cells of
/// width `w`.
pub open spec fn trace_grids(steps: Seq<crate::types::SolveStep>, w: nat, n: nat) -> Seq<Seq<CellState>> {
    Seq::new(steps.len(), |c: int| replay(blank(n), w, steps.take(c)))
}

/// A solve taken over for hand solving: the current grid and the grid
/// before each step of the trace saved for undo, the final grid current,
/// redo forgotten.
pub open spec fn copied(b: BoardView, trace: Seq<Seq<CellState>>, fin: Seq<CellState>) -> BoardView {
    BoardView { grid: fin, undo: b.undo.push(b.grid) + trace, redo: Seq::empty(), trial: b.trial }
}

/// A grid of `n` unknown cells.
fn unknown_grid(n: usize) -> (g: Vec<CellState>)
    ensures
        g@ == Seq::new(n as nat, |i: int| CellState::Unknown),
{
    let mut g: Vec<CellState> = Vec::new();
    let mut i: usize = 0;
    while i < n
        invariant
            i <= n,
            g@ == Seq::new(i as nat, |k: int| CellState::Unknown),
        decreases n - i,
    {
        g.push(CellState::Unknown);
        i += 1;
        assert(g@ =~= Seq::new(i as nat, |k: int| CellState::Unknown));
    }
    g
}

impl ManualBoard {
    /// A board showing `grid`, with no history.
    pub fn new(grid: Vec<CellState>) -> (b: Self)
        ensures
            b@ == (BoardView { grid: grid@, undo: Seq::empty(), redo: Seq::empty(), trial: Seq::empty() }),
    {
        let b = ManualBoard { grid, undo: Vec::new(), redo: Vec::new(), trial: Vec::new() };
        proof {
            assert(grids_of(b.undo@) =~= Seq::empty());
            assert(grids_of(b.redo@) =~= Seq::empty());
            assert(tiers_of(b.trial@) =~= Seq::empty());
        }
        b
    }

    /// Saves the current grid for undo before a change; forgets redo.
    pub fn record(&mut self)
        ensures
            final(self)@ == recorded(old(self)@),
    {
        let snap = copy_states(&self.grid);
        self.undo.push(snap);
        self.redo = Vec::new();
        proof {
            assert(grids_of(self.undo@) =~= old(self)@.undo.push(old(self)@.grid));
            assert(grids_of(self.redo@) =~= Seq::empty());
        }
    }

    /// Goes back to the last saved grid, keeping the current one for redo.
    pub fn undo(&mut self)
        ensures
            final(self)@ == undone(old(self)@),
    {
        if let Some(prev) = self.undo.pop() {
            let current = copy_states(&self.grid);
            self.grid = prev;
            self.redo.push(current);
            proof {
                assert(grids_of(self.undo@) =~= old(self)@.undo.drop_last());
                assert(grids_of(self.redo@) =~= old(self)@.redo.push(old(self)@.grid));
            }
        }
    }

    /// Brings back the last undone grid, keeping the current one for undo.
    pub fn redo(&mut self)
        ensures
            final(self)@ == redone(old(self)@),
    {
        if let Some(next) = self.redo.pop() {
            let current = copy_states(&self.grid);
            self.grid = next;
            self.undo.push(current);
            proof {
                assert(grids_of(self.redo@) =~= old(self)@.redo.drop_last());
                assert(grids_of(self.undo@) =~= old(self)@.undo.push(old(self)@.grid));
            }
        }
    }

    /// Resets the grid to `n` unknown cells, saving the old one for undo.
    /// (A puzzle with no grid filled in by hand has no board yet: it gets
    /// one from [`ManualBoard::new`], with nothing saved.)
    pub fn clear(&mut self, n: usize)
        ensures
            final(self)@ == cleared(old(self)@, n as nat),
    {
        let snap = copy_states(&self.grid);
        self.undo.push(snap);
        if self.undo.len() > CLEAR_HISTORY {
            self.undo.remove(0);
        }
        self.redo = Vec::new();
        if n > 0 {
            self.grid = unknown_grid(n);
        }
        proof {
            let u = old(self)@.undo.push(old(self)@.grid);
            if u.len() > CLEAR_HISTORY {
                assert(grids_of(self.undo@) =~= u.drop_first());
            } else {
                assert(grids_of(self.undo@) =~= u);
            }
            assert(grids_of(self.redo@) =~= Seq::empty());
        }
    }

    /// Opens a trial tier at the current grid.
    pub fn trial_enter(&mut self)
        ensures
            final(self)@ == trial_entered(old(self)@),
    {
        let snap = copy_states(&self.grid);
        self.trial.push((snap, None));
        proof {
            assert(tiers_of(self.trial@) =~= old(self)@.trial.push((old(self)@.grid, None)));
        }
    }

    /// Closes the innermost trial tier, keeping its changes.
    pub fn trial_accept(&mut self)
        ensures
            final(self)@ == trial_accepted(old(self)@),
    {
        if self.trial.len() > 0 {
            let _ = self.trial.pop();
            proof {
                assert(tiers_of(self.trial@) =~= old(self)@.trial.drop_last());
            }
        }
    }

    /// Closes the innermost trial tier and puts the grid back to where the
    /// tier began.
    pub fn trial_reject(&mut self)
        ensures
            final(self)@ == trial_rejected(old(self)@),
    {
        if let Some((snap, _origin)) = self.trial.pop() {
            self.grid = snap;
            proof {
                assert(tiers_of(self.trial@) =~= old(self)@.trial.drop_last());
            }
        }
    }

    /// Notes (`row`, `col`) as the first cell of the innermost trial tier,
    /// unless one is noted already.
    pub fn note_trial_origin(&mut self, row: usize, col: usize)
        ensures
            final(self)@ == origin_noted(old(self)@, row, col),
    {
        if self.trial.len() > 0 {
            let last = self.trial.len() - 1;
            if self.trial[last].1.is_none() {
                let (snap, _none) = self.trial.pop().unwrap();
                self.trial.push((snap, Some((row, col))));
                proof {
                    let t0 = old(self)@.trial;
                    assert(tiers_of(self.trial@) =~= t0.update(t0.len() - 1, (t0.last().0, Some((row, col)))));
                }
            }
        }
    }

    /// Takes over a solve for hand solving: saves the current grid and the
    /// grid before each step of the trace for undo, shows the final grid,
    /// and forgets redo.
    pub fn copy_solve(&mut self, puzzle: &Puzzle, result: &SolveResult)
        requires
            puzzle.width * puzzle.height <= usize::MAX,
            changes_in_grid(
                result.steps@,
                result.steps@.len() as int,
                puzzle.width as nat,
                (puzzle.width * puzzle.height) as nat,
            ),
        ensures
            final(self)@ == copied(
                old(self)@,
                trace_grids(result.steps@, puzzle.width as nat, (puzzle.width * puzzle.height) as nat),
                result.grid@,
            ),
    {
        let ghost n = (puzzle.width * puzzle.height) as nat;
        let ghost w = puzzle.width as nat;
        let ghost u0 = old(self)@.undo.push(old(self)@.grid);
        let snap = copy_states(&self.grid);
        self.undo.push(snap);
        proof {
            assert(grids_of(self.undo@) =~= u0);
        }
        let mut c: usize = 0;
        while c < result.steps.len()
            invariant
                puzzle.width * puzzle.height <= usize::MAX,
                n == puzzle.width * puzzle.height,
                w == puzzle.width,
                changes_in_grid(result.steps@, result.steps@.len() as int, w, n),
                c <= result.steps@.len(),
                grids_of(self.undo@) == u0 + trace_grids(result.steps@, w, n).take(c as int),
                tiers_of(self.trial@) == old(self)@.trial,
            decreases result.steps@.len() - c,
        {
            let g = grid_at_step(puzzle, result, c);
            let ghost before = grids_of(self.undo@);
            self.undo.push(g);
            c += 1;
            proof {
                assert(grids_of(self.undo@) =~= before.push(g@));
                assert(trace_grids(result.steps@, w, n).take(c as int) =~= trace_grids(result.steps@, w, n).take(
                    c - 1,
                ).push(g@));
                assert(grids_of(self.undo@) =~= u0 + trace_grids(result.steps@, w, n).take(c as int));
            }
        }
        self.grid = copy_states(&result.grid);
        self.redo = Vec::new();
        proof {
            assert(trace_grids(result.steps@, w, n).take(c as int) =~= trace_grids(result.steps@, w, n));
            assert(grids_of(self.redo@) =~= Seq::empty());
        }
    }
}

/// The state a click paints: a left click fills the cell, or clears it if
/// it is filled; a right click marks it empty, or clears it if it is empty.
pub open spec fn click_spec(current: CellState, right: bool) -> CellState {
    if right {
        if current == CellState::Empty {
            CellState::Unknown
        } else {
            CellState::Empty
        }
    } else {
        if current == CellState::Filled {
            CellState::Unknown
        } else {
            CellState::Filled
        }
    }
}

/// The state a click on a cell showing `current` paints.
pub fn click_target(current: CellState, right: bool) -> (r: CellState)
    ensures
        r == click_spec(current, right),
{
    if right {
        match current {
            CellState::Empty => CellState::Unknown,
            _ => CellState::Empty,
        }
    } else {
        match current {
            CellState::Filled => CellState::Unknown,
            _ => CellState::Filled,
        }
    }
}

/// Cell (`row`, `col`) painted `paint`, then line assistance for it.
pub open spec fn painted(
    g: Seq<CellState>,
    p: Puzzle,
    row: int,
    col: int,
    paint: CellState,
    assist: LineAssist,
    machine: bool,
) -> Seq<CellState> {
    assisted(g.update(row * p.width + col, paint), p, row, col, paint, assist, machine)
}

/// Every cell of `cells` painted `paint`, in order.
pub open spec fn paint_all(g: Seq<CellState>, w: nat, cells: Seq<(usize, usize)>, paint: CellState) -> Seq<CellState>
    decreases cells.len(),
{
    if cells.len() == 0 {
        g
    } else {
        paint_all(g, w, cells.drop_last(), paint).update(cells.last().0 * w + cells.last().1, paint)
    }
}

/// Line assistance for every cell of `cells`, in order.
pub open spec fn assist_all(
    g: Seq<CellState>,
    p: Puzzle,
    cells: Seq<(usize, usize)>,
    paint: CellState,
    assist: LineAssist,
    machine: bool,
) -> Seq<CellState>
    decreases cells.len(),
{
    if cells.len() == 0 {
        g
    } else {
        assisted(
            assist_all(g, p, cells.drop_last(), paint, assist, machine),
            p,
            cells.last().0 as int,
            cells.last().1 as int,
            paint,
            assist,
            machine,
        )
    }
}

/// Every cell of `cells` lies in a grid of width `w` and height `h`.
pub open spec fn cells_within(cells: Seq<(usize, usize)>, h: nat, w: nat) -> bool {
    forall|k: int| 0 <= k < cells.len() ==> (#[trigger] cells[k]).0 < h && cells[k].1 < w
}

/// An axis-locked stroke: where it began, where the cursor is, and what it
/// paints.
#[derive(Clone, Copy, Debug)]
pub struct DragPreview {
    pub anchor: (usize, usize),
    pub current: (usize, usize),
    pub paint: CellState,
}

/// What a held mouse button is doing.
#[derive(Clone, Copy, Debug)]
pub struct DragStroke {
    /// The state being painted while the button is held.
    pub paint: Option<CellState>,
    /// The axis-locked stroke painted on release.
    pub preview: Option<DragPreview>,
}

proof fn lemma_paint_all_len(g: Seq<CellState>, w: nat, cells: Seq<(usize, usize)>, paint: CellState)
    requires
        forall|k: int| 0 <= k < cells.len() ==> (#[trigger] cells[k]).0 * w + cells[k].1 < g.len(),
    ensures
        paint_all(g, w, cells, paint).len() == g.len(),
    decreases cells.len(),
{
    if cells.len() > 0 {
        lemma_paint_all_len(g, w, cells.drop_last(), paint);
    }
}

proof fn lemma_assist_all_len(
    g: Seq<CellState>,
    p: Puzzle,
    cells: Seq<(usize, usize)>,
    paint: CellState,
    assist: LineAssist,
    machine: bool,
)
    ensures
        assist_all(g, p, cells, paint, assist, machine).len() == g.len(),
    decreases cells.len(),
{
    if cells.len() > 0 {
        lemma_assist_all_len(g, p, cells.drop_last(), paint, assist, machine);
    }
}

/// The stroke cells between two cells of a grid lie in that grid.
proof fn lemma_preview_within(anchor: (usize, usize), current: (usize, usize), h: nat, w: nat)
    requires
        anchor.0 < h,
        anchor.1 < w,
        current.0 < h,
        current.1 < w,
    ensures
        cells_within(preview_spec(anchor, current), h, w),
{
}

impl ManualBoard {
    /// Paints cell (`row`, `col`) and runs line assistance for it.
    pub fn paint(
        &mut self,
        puzzle: &Puzzle,
        row: usize,
        col: usize,
        paint: CellState,
        assist: LineAssist,
        machine: bool,
    )
        requires
            puzzle.wf(),
            old(self)@.grid.len() == puzzle.width * puzzle.height,
            row < puzzle.height,
            col < puzzle.width,
        ensures
            final(self)@ == with_grid(
                old(self)@,
                painted(old(self)@.grid, *puzzle, row as int, col as int, paint, assist, machine),
            ),
    {
        proof {
            crate::search::lemma_cell_index(row as int, col as int, puzzle.height as int, puzzle.width as int);
            assert(puzzle.height * puzzle.width == puzzle.width * puzzle.height) by (nonlinear_arith);
        }
        let idx = row * puzzle.width + col;
        self.grid.set(idx, paint);
        assist_lines(&mut self.grid, puzzle, row, col, paint, assist, machine);
    }

    /// Paints a released axis-locked stroke: saves the grid for undo, paints
    /// every cell of the stroke, then runs line assistance for each.
    pub fn apply_stroke(&mut self, puzzle: &Puzzle, stroke: DragPreview, assist: LineAssist, machine: bool)
        requires
            puzzle.wf(),
            old(self)@.grid.len() == puzzle.width * puzzle.height,
            stroke.anchor.0 < puzzle.height,
            stroke.anchor.1 < puzzle.width,
            stroke.current.0 < puzzle.height,
            stroke.current.1 < puzzle.width,
        ensures
            final(self)@ == with_grid(
                recorded(old(self)@),
                assist_all(
                    paint_all(
                        old(self)@.grid,
                        puzzle.width as nat,
                        preview_spec(stroke.anchor, stroke.current),
                        stroke.paint,
                    ),
                    *puzzle,
                    preview_spec(stroke.anchor, stroke.current),
                    stroke.paint,
                    assist,
                    machine,
                ),
            ),
    {
        let ghost b0 = self@;
        let w = puzzle.width;
        let h = puzzle.height;
        self.record();
        let cells = preview_cells(stroke.anchor, stroke.current);
        proof {
            lemma_preview_within(stroke.anchor, stroke.current, h as nat, w as nat);
            assert forall|k: int| 0 <= k < cells@.len() implies (#[trigger] cells@[k]).0 * w + cells@[k].1 < b0.grid.len() by {
                crate::search::lemma_cell_index(cells@[k].0 as int, cells@[k].1 as int, h as int, w as int);
                assert(h * w == w * h) by (nonlinear_arith);
            }
            assert(puzzle.height * puzzle.width == puzzle.width * puzzle.height) by (nonlinear_arith);
            assert(paint_all(b0.grid, w as nat, cells@.take(0), stroke.paint) == b0.grid);
        }
        let mut k: usize = 0;
        while k < cells.len()
            invariant
                puzzle.wf(),
                w == puzzle.width,
                h == puzzle.height,
                b0.grid.len() == w * h,
                cells_within(cells@, h as nat, w as nat),
                forall|j: int| 0 <= j < cells@.len() ==> (#[trigger] cells@[j]).0 * w + cells@[j].1 < b0.grid.len(),
                k <= cells@.len(),
                self@ == with_grid(recorded(b0), paint_all(b0.grid, w as nat, cells@.take(k as int), stroke.paint)),
            decreases cells@.len() - k,
        {
            let (r, c) = cells[k];
            proof {
                lemma_paint_all_len(b0.grid, w as nat, cells@.take(k as int), stroke.paint);
                assert(cells@[k as int].0 < h && cells@[k as int].1 < w);
                crate::search::lemma_cell_index(r as int, c as int, h as int, w as int);
                assert(h * w == w * h) by (nonlinear_arith);
                assert(cells@.take(k + 1).drop_last() =~= cells@.take(k as int));
                assert(cells@.take(k + 1).last() == (r, c));
            }
            if r * w + c < self.grid.len() {
                self.grid.set(r * w + c, stroke.paint);
            }
            k += 1;
        }
        let ghost g1 = self.grid@;
        proof {
            assert(cells@.take(k as int) =~= cells@);
            lemma_paint_all_len(b0.grid, w as nat, cells@, stroke.paint);
            assert(assist_all(g1, *puzzle, cells@.take(0), stroke.paint, assist, machine) == g1);
        }
        let mut k: usize = 0;
        while k < cells.len()
            invariant
                puzzle.wf(),
                w == puzzle.width,
                h == puzzle.height,
                g1.len() == w * h,
                cells_within(cells@, h as nat, w as nat),
                k <= cells@.len(),
                self@ == with_grid(recorded(b0), assist_all(g1, *puzzle, cells@.take(k as int), stroke.paint, assist, machine)),
            decreases cells@.len() - k,
        {
            let (r, c) = cells[k];
            proof {
                lemma_assist_all_len(g1, *puzzle, cells@.take(k as int), stroke.paint, assist, machine);
                assert(cells@[k as int].0 < h && cells@[k as int].1 < w);
                assert(cells@.take(k + 1).drop_last() =~= cells@.take(k as int));
                assert(cells@.take(k + 1).last() == (r, c));
            }
            assist_lines(&mut self.grid, puzzle, r, c, stroke.paint, assist, machine);
            k += 1;
        }
        proof {
            assert(cells@.take(k as int) =~= cells@);
        }
    }
}

impl DragStroke {
    /// No button held.
    pub fn idle() -> (s: Self)
        ensures
            s.paint is None,
            s.preview is None,
    {
        DragStroke { paint: None, preview: None }
    }

    /// A press on cell (`row`, `col`). The clicked cell decides what the
    /// stroke paints. With axis lock the stroke is only previewed until
    /// release; without, the grid is saved for undo and the cell painted at
    /// once. Either way the cell becomes the first of the innermost trial
    /// tier if that has none yet.
    pub fn press(
        &mut self,
        board: &mut ManualBoard,
        puzzle: &Puzzle,
        row: usize,
        col: usize,
        right: bool,
        axis_lock: bool,
        assist: LineAssist,
        machine: bool,
    )
        requires
            puzzle.wf(),
            old(board)@.grid.len() == puzzle.width * puzzle.height,
            row < puzzle.height,
            col < puzzle.width,
        ensures
            ({
                let target = click_spec(old(board)@.grid[row * puzzle.width + col], right);
                let b1 = origin_noted(old(board)@, row, col);
                &&& final(self).paint == Some(target)
                &&& axis_lock ==> final(board)@ == b1 && final(self).preview == Some(
                    DragPreview { anchor: (row, col), current: (row, col), paint: target },
                )
                &&& !axis_lock ==> final(board)@ == with_grid(
                    recorded(b1),
                    painted(b1.grid, *puzzle, row as int, col as int, target, assist, machine),
                ) && final(self).preview == old(self).preview
            }),
    {
        proof {
            crate::search::lemma_cell_index(row as int, col as int, puzzle.height as int, puzzle.width as int);
            assert(puzzle.height * puzzle.width == puzzle.width * puzzle.height) by (nonlinear_arith);
        }
        let target = click_target(board.grid[row * puzzle.width + col], right);
        board.note_trial_origin(row, col);
        if axis_lock {
            self.preview = Some(DragPreview { anchor: (row, col), current: (row, col), paint: target });
            self.paint = Some(target);
        } else {
            board.record();
            board.paint(puzzle, row, col, target, assist, machine);
            self.paint = Some(target);
        }
    }

    /// The cursor enters cell (`row`, `col`). While a button is held, an
    /// axis-locked stroke moves its end there; otherwise the cell is painted
    /// at once (without a new undo point).
    pub fn enter(
        &mut self,
        board: &mut ManualBoard,
        puzzle: &Puzzle,
        row: usize,
        col: usize,
        axis_lock: bool,
        assist: LineAssist,
        machine: bool,
    )
        requires
            puzzle.wf(),
            old(board)@.grid.len() == puzzle.width * puzzle.height,
            row < puzzle.height,
            col < puzzle.width,
        ensures
            final(self).paint == old(self).paint,
            old(self).paint is None ==> final(board)@ == old(board)@ && final(self).preview == old(self).preview,
            old(self).paint matches Some(t) ==> {
                &&& axis_lock ==> final(board)@ == old(board)@ && final(self).preview == (match old(self).preview {
                    Some(p) => Some(DragPreview { anchor: p.anchor, current: (row, col), paint: p.paint }),
                    None => None,
                })
                &&& !axis_lock ==> final(board)@ == with_grid(
                    old(board)@,
                    painted(old(board)@.grid, *puzzle, row as int, col as int, t, assist, machine),
                ) && final(self).preview == old(self).preview
            },
    {
        if let Some(t) = self.paint {
            if axis_lock {
                if let Some(p) = self.preview {
                    self.preview = Some(DragPreview { anchor: p.anchor, current: (row, col), paint: p.paint });
                }
            } else {
                board.paint(puzzle, row, col, t, assist, machine);
            }
        }
    }

    /// The button is released: hands back the axis-locked stroke to paint,
    /// if any, and goes idle.
    pub fn release(&mut self) -> (p: Option<DragPreview>)
        ensures
            p == old(self).preview,
            final(self).paint is None,
            final(self).preview is None,
    {
        let p = self.preview;
        self.preview = None;
        self.paint = None;
        p
    }
}

/// Where the trace viewer stands: which of several solutions is shown, how
/// many steps of its trace are applied, and whether it is replaying.
#[derive(Clone, Copy, Debug, PartialEq, Eq, Structural)]
pub struct StepNav {
    pub solution_index: usize,
    pub cursor: usize,
    pub replaying: bool,
}

/// Length of the trace on show: that of solution `index` of `all` when
/// there is one, else that of `result`, else 0.
pub open spec fn shown_steps(all: Option<AllSolutions>, index: int, result: Option<SolveResult>) -> nat {
    if all is Some && 0 <= index < all->0.solutions@.len() {
        all->0.solutions@[index].steps@.len()
    } else if result is Some {
        result->0.steps@.len()
    } else {
        0
    }
}

/// Back to the start of the trace, replay stopped.
pub open spec fn nav_first(n: StepNav) -> StepNav {
    StepNav { solution_index: n.solution_index, cursor: 0, replaying: false }
}

/// One step back, if not at the start.
pub open spec fn nav_back(n: StepNav) -> StepNav {
    StepNav { solution_index: n.solution_index, cursor: if n.cursor > 0 { (n.cursor - 1) as usize } else { 0 }, replaying: n.replaying }
}

/// One step forward, not past the end `max` of the trace on show; nothing
/// without one.
pub open spec fn nav_forward(n: StepNav, max: Option<usize>) -> StepNav {
    match max {
        Some(m) => StepNav {
            solution_index: n.solution_index,
            cursor: if n.cursor + 1 <= m { (n.cursor + 1) as usize } else { m },
            replaying: n.replaying,
        },
        None => n,
    }
}

/// To the end `max` of the trace on show; nothing without one.
pub open spec fn nav_last(n: StepNav, max: Option<usize>) -> StepNav {
    match max {
        Some(m) => StepNav { solution_index: n.solution_index, cursor: m, replaying: n.replaying },
        None => n,
    }
}

/// Replay switched on or off; switched on at the end of the trace it starts
/// over, and without a trace on show it stays off.
pub open spec fn nav_toggle(n: StepNav, max: Option<usize>) -> StepNav {
    if n.replaying {
        StepNav { solution_index: n.solution_index, cursor: n.cursor, replaying: false }
    } else {
        match max {
            Some(m) => StepNav {
                solution_index: n.solution_index,
                cursor: if n.cursor >= m { 0 } else { n.cursor },
                replaying: true,
            },
            None => StepNav { solution_index: n.solution_index, cursor: n.cursor, replaying: false },
        }
    }
}

/// One replay tick: a step forward, or the replay stops at the end of the
/// trace or without one.
pub open spec fn nav_tick(n: StepNav, max: Option<usize>) -> StepNav {
    match max {
        Some(m) => if n.cursor >= m {
            StepNav { solution_index: n.solution_index, cursor: n.cursor, replaying: false }
        } else {
            StepNav { solution_index: n.solution_index, cursor: (n.cursor + 1) as usize, replaying: n.replaying }
        },
        None => StepNav { solution_index: n.solution_index, cursor: n.cursor, replaying: false },
    }
}

/// Length of a trace, as the step cursor takes it.
fn steps_len(r: &SolveResult) -> (n: usize)
    ensures
        n == r.steps@.len(),
{
    r.steps.len()
}

/// Length of the trace on show.
pub fn active_steps_len(all: Option<&AllSolutions>, index: usize, result: Option<&SolveResult>) -> (n: usize)
    ensures
        n == shown_steps(
            match all {
                Some(a) => Some(*a),
                None => None,
            },
            index as int,
            match result {
                Some(r) => Some(*r),
                None => None,
            },
        ),
{
    if let Some(a) = all {
        if index < a.solutions.len() {
            return steps_len(&a.solutions[index]);
        }
    }
    match result {
        Some(r) => steps_len(r),
        None => 0,
    }
}

impl StepNav {
    /// The first solution, at the start of its trace, not replaying.
    pub fn start() -> (n: Self)
        ensures
            n == (StepNav { solution_index: 0, cursor: 0, replaying: false }),
    {
        StepNav { solution_index: 0, cursor: 0, replaying: false }
    }

    /// Back to the start of the trace, replay stopped.
    pub fn first(&mut self)
        ensures
            *final(self) == nav_first(*old(self)),
    {
        self.cursor = 0;
        self.replaying = false;
    }

    /// One step back.
    pub fn back(&mut self)
        ensures
            *final(self) == nav_back(*old(self)),
    {
        self.cursor = self.cursor.saturating_sub(1);
    }

    /// One step forward, not past `max`, the length of the trace on show
    /// (`None` when no puzzle is focused).
    pub fn forward(&mut self, max: Option<usize>)
        requires
            max is Some ==> old(self).cursor < usize::MAX,
        ensures
            *final(self) == nav_forward(*old(self), max),
    {
        if let Some(m) = max {
            let next = self.cursor + 1;
            self.cursor = if next <= m { next } else { m };
        }
    }

    /// To the end of the trace on show.
    pub fn last(&mut self, max: Option<usize>)
        ensures
            *final(self) == nav_last(*old(self), max),
    {
        if let Some(m) = max {
            self.cursor = m;
        }
    }

    /// Switches replay on or off.
    pub fn toggle_replay(&mut self, max: Option<usize>)
        ensures
            *final(self) == nav_toggle(*old(self), max),
    {
        self.replaying = !self.replaying;
        if self.replaying {
            match max {
                Some(m) => {
                    if self.cursor >= m {
                        self.cursor = 0;
                    }
                },
                None => {
                    self.replaying = false;
                },
            }
        }
    }

    /// One replay tick.
    pub fn tick(&mut self, max: Option<usize>)
        ensures
            *final(self) == nav_tick(*old(self), max),
    {
        match max {
            Some(m) => {
                if self.cursor >= m {
                    self.replaying = false;
                } else {
                    self.cursor += 1;
                }
            },
            None => {
                self.replaying = false;
            },
        }
    }

    /// Shows the end of the trace of the last solution of `all`, or of
    /// `result` when there is no list of solutions; everything at 0 when
    /// there is neither (as when no puzzle is focused).
    pub fn sync(&mut self, all: Option<&AllSolutions>, result: Option<&SolveResult>)
        ensures
            final(self).replaying == old(self).replaying,
            final(self).solution_index == (match all {
                Some(a) => if a.solutions@.len() > 0 { (a.solutions@.len() - 1) as usize } else { 0 },
                None => 0,
            }),
            final(self).cursor == shown_steps(
                match all {
                    Some(a) => Some(*a),
                    None => None,
                },
                final(self).solution_index as int,
                match result {
                    Some(r) => Some(*r),
                    None => None,
                },
            ),
    {
        self.solution_index = match all {
            Some(a) => a.solutions.len().saturating_sub(1),
            None => 0,
        };
        self.cursor = active_steps_len(all, self.solution_index, result);
    }

    /// The previous solution of `all` (the list on show, `None` when no
    /// puzzle is focused), at the end of its trace; nothing at the first.
    pub fn prev_solution(&mut self, all: Option<&AllSolutions>, focused: bool)
        ensures
            old(self).solution_index == 0 ==> *final(self) == *old(self),
            old(self).solution_index > 0 ==> {
                &&& final(self).solution_index == old(self).solution_index - 1
                &&& !final(self).replaying
                &&& final(self).cursor == if focused {
                    shown_steps(
                        match all {
                            Some(a) => Some(*a),
                            None => None,
                        },
                        final(self).solution_index as int,
                        None,
                    ) as usize
                } else {
                    old(self).cursor
                }
            },
    {
        if self.solution_index > 0 {
            self.solution_index -= 1;
            self.replaying = false;
            if focused {
                self.cursor = active_steps_len(all, self.solution_index, None);
            }
        }
    }

    /// The next solution of `all`, at the end of its trace; nothing at the
    /// last one or without a list.
    pub fn next_solution(&mut self, all: Option<&AllSolutions>)
        ensures
            ({
                let last = match all {
                    Some(a) => if a.solutions@.len() > 0 { a.solutions@.len() - 1 } else { 0 },
                    None => 0,
                };
                &&& old(self).solution_index >= last ==> *final(self) == *old(self)
                &&& old(self).solution_index < last ==> {
                    &&& final(self).solution_index == old(self).solution_index + 1
                    &&& !final(self).replaying
                    &&& final(self).cursor == shown_steps(
                        match all {
                            Some(a) => Some(*a),
                            None => None,
                        },
                        final(self).solution_index as int,
                        None,
                    )
                }
            }),
    {
        let last = match all {
            Some(a) => a.solutions.len().saturating_sub(1),
            None => 0,
        };
        if self.solution_index < last {
            self.solution_index += 1;
            self.replaying = false;
            self.cursor = active_steps_len(all, self.solution_index, None);
        }
    }
}

/// The grid shown for a machine solver: the trace on show replayed up to
/// `cursor` (its final grid at or past the end); when there is none, or its
/// grid is empty, the latest progress snapshot, if any.
pub open spec fn shown_grid(
    active: Option<SolveResult>,
    cursor: int,
    progress: Option<Seq<CellState>>,
    w: nat,
    n: nat,
) -> Option<Seq<CellState>> {
    match active {
        Some(r) => if r.grid@.len() > 0 {
            Some(if 0 <= cursor < r.steps@.len() { replay(blank(n), w, r.steps@.take(cursor)) } else { r.grid@ })
        } else {
            progress
        },
        None => progress,
    }
}

/// The grid shown for a machine solver.
pub fn display_grid(
    puzzle: &Puzzle,
    active: Option<&SolveResult>,
    cursor: usize,
    progress: Option<&Vec<CellState>>,
) -> (g: Option<Vec<CellState>>)
    requires
        puzzle.width * puzzle.height <= usize::MAX,
        active matches Some(r) ==> (cursor < r.steps@.len() ==> changes_in_grid(
            r.steps@,
            cursor as int,
            puzzle.width as nat,
            (puzzle.width * puzzle.height) as nat,
        )),
    ensures
        (match g {
            Some(v) => Some(v@),
            None => None,
        }) == shown_grid(
            match active {
                Some(r) => Some(*r),
                None => None,
            },
            cursor as int,
            match progress {
                Some(p) => Some(p@),
                None => None,
            },
            puzzle.width as nat,
            (puzzle.width * puzzle.height) as nat,
        ),
{
    if let Some(r) = active {
        if r.grid.len() > 0 {
            return Some(grid_at_step(puzzle, r, cursor));
        }
    }
    match progress {
        Some(p) => Some(copy_states(p)),
        None => None,
    }
}

/// Navigation never takes the step cursor past the end of the trace on
/// show, and a replay tick at the end stops the replay.
pub proof fn lemma_cursor_within_trace(n: StepNav, m: usize)
    requires
        n.cursor <= m,
    ensures
        nav_first(n).cursor <= m,
        nav_back(n).cursor <= m,
        nav_forward(n, Some(m)).cursor <= m,
        nav_last(n, Some(m)).cursor <= m,
        nav_toggle(n, Some(m)).cursor <= m,
        nav_tick(n, Some(m)).cursor <= m,
        n.cursor == m ==> !nav_tick(n, Some(m)).replaying,
{
}

/// Undoing right after a change, however many cells it painted, brings
/// back the grid from before it; the changed grid is kept for redo.
pub proof fn lemma_undo_after_change(b: BoardView, g: Seq<CellState>)
    ensures
        undone(with_grid(recorded(b), g)) == (BoardView {
            grid: b.grid,
            undo: b.undo,
            redo: seq![g],
            trial: b.trial,
        }),
{
    assert(b.undo.push(b.grid).drop_last() =~= b.undo);
    assert(Seq::<Seq<CellState>>::empty().push(g) =~= seq![g]);
}

/// Redo undoes an undo, when there was something to undo.
pub proof fn lemma_redo_after_undo(b: BoardView)
    requires
        b.undo.len() > 0,
    ensures
        redone(undone(b)) == b,
{
    assert(b.undo.drop_last().push(b.undo.last()) =~= b.undo);
    assert(b.redo.push(b.grid).drop_last() =~= b.redo);
}

/// Undo undoes a redo, when there was something to redo.
pub proof fn lemma_undo_after_redo(b: BoardView)
    requires
        b.redo.len() > 0,
    ensures
        undone(redone(b)) == b,
{
    assert(b.redo.drop_last().push(b.redo.last()) =~= b.redo);
    assert(b.undo.push(b.grid).drop_last() =~= b.undo);
}

/// Rejecting a trial tier puts back the grid and the tiers from when it was
/// entered, whatever was painted, undone or redone inside it.
pub proof fn lemma_reject_restores(
    b: BoardView,
    g: Seq<CellState>,
    undo: Seq<Seq<CellState>>,
    redo: Seq<Seq<CellState>>,
    origin: Option<(usize, usize)>,
)
    ensures
        trial_rejected(
            BoardView { grid: g, undo, redo, trial: trial_entered(b).trial.update(b.trial.len() as int, (b.grid, origin)) },
        ) == (BoardView { grid: b.grid, undo, redo, trial: b.trial }),
{
    let t = trial_entered(b).trial.update(b.trial.len() as int, (b.grid, origin));
    assert(t.drop_last() =~= b.trial);
}

/// Noting the first cell of a trial tier keeps the grid every tier began
/// with.
pub proof fn lemma_origin_keeps_tiers(b: BoardView, row: usize, col: usize)
    ensures
        origin_noted(b, row, col).grid == b.grid,
        origin_noted(b, row, col).trial.len() == b.trial.len(),
        forall|i: int| 0 <= i < b.trial.len() ==> (#[trigger] origin_noted(b, row, col).trial[i]).0 == b.trial[i].0,
{
}

/// Every operation on a board keeps all its grids, current and saved, at
/// `n` cells, given a new grid of `n` cells where one is painted in.
pub proof fn lemma_ops_keep_size(b: BoardView, n: nat, g: Seq<CellState>, row: usize, col: usize)
    requires
        sized(b, n),
        g.len() == n,
    ensures
        sized(with_grid(b, g), n),
        sized(recorded(b), n),
        sized(undone(b), n),
        sized(redone(b), n),
        sized(cleared(b, n), n),
        sized(trial_entered(b), n),
        sized(trial_accepted(b), n),
        sized(trial_rejected(b), n),
        sized(origin_noted(b, row, col), n),
{
    let c = cleared(b, n);
    let u = b.undo.push(b.grid);
    assert forall|i: int| 0 <= i < c.undo.len() implies (#[trigger] c.undo[i]).len() == n by {
        if u.len() > CLEAR_HISTORY {
            assert(c.undo[i] == u[i + 1]);
        }
    }
}

/// `k` undos from a board with enough saved grids go back through them,
/// the most recent first.
proof fn lemma_undo_steps(c: BoardView, k: nat)
    requires
        k <= c.undo.len(),
    ensures
        undone_times(c, k).undo == c.undo.take(c.undo.len() - k),
        undone_times(c, k).trial == c.trial,
        k > 0 ==> undone_times(c, k).grid == c.undo[c.undo.len() - k],
    decreases k,
{
    if k == 0 {
        assert(c.undo.take(c.undo.len() as int) =~= c.undo);
    } else {
        lemma_undo_steps(c, (k - 1) as nat);
        let prev = undone_times(c, (k - 1) as nat);
        assert(prev.undo.drop_last() =~= c.undo.take(c.undo.len() - k));
    }
}

/// After a solve is taken over, each undo goes one step further back
/// through its trace, and one more undo shows the grid from before.
pub proof fn lemma_copy_walks_back(b: BoardView, trace: Seq<Seq<CellState>>, fin: Seq<CellState>, k: nat)
    requires
        1 <= k <= trace.len() + 1,
    ensures
        k <= trace.len() ==> undone_times(copied(b, trace, fin), k).grid == trace[trace.len() - k],
        k == trace.len() + 1 ==> undone_times(copied(b, trace, fin), k).grid == b.grid,
{
    let c = copied(b, trace, fin);
    lemma_undo_steps(c, k);
    let u = b.undo.push(b.grid);
    assert(c.undo[c.undo.len() - k] == (u + trace)[u.len() + trace.len() - k]);
}

/// State of cell `idx` in a saved grid; unknown past its end.
pub open spec fn saved_at(s: Seq<CellState>, idx: int) -> CellState {
    if 0 <= idx < s.len() {
        s[idx]
    } else {
        CellState::Unknown
    }
}

/// Among the first `k` trial tiers, the innermost (counted from 1) whose
/// starting grid has cell `idx` other than `state`; 0 if none.
pub open spec fn changed_in(tiers: Seq<(Seq<CellState>, Option<(usize, usize)>)>, idx: int, state: CellState, k: int) -> nat
    decreases k,
{
    if k <= 0 || k > tiers.len() {
        0
    } else if saved_at(tiers[k - 1].0, idx) != state {
        k as nat
    } else {
        changed_in(tiers, idx, state, k - 1)
    }
}

/// The trial tier a cell showing `state` was set in, counted from 1; 0 for
/// an unknown cell, outside any trial, or when no tier changed it.
pub open spec fn tier_of(tiers: Seq<(Seq<CellState>, Option<(usize, usize)>)>, idx: int, state: CellState) -> nat {
    if tiers.len() == 0 || state == CellState::Unknown {
        0
    } else {
        changed_in(tiers, idx, state, tiers.len() as int)
    }
}

/// From tier `k` on, the outermost tier (counted from 1) that began at
/// cell (`row`, `col`).
pub open spec fn origin_from(tiers: Seq<(Seq<CellState>, Option<(usize, usize)>)>, row: usize, col: usize, k: int) -> Option<nat>
    decreases tiers.len() - k,
{
    if k < 0 || k >= tiers.len() {
        None
    } else if tiers[k].1 == Some((row, col)) {
        Some((k + 1) as nat)
    } else {
        origin_from(tiers, row, col, k + 1)
    }
}

/// The trial tier whose first click was cell `idx` showing `state`, if
/// any: the innermost tier whose saved grid differs there, for colouring.
pub fn cell_tier(trial: &Vec<(Vec<CellState>, Option<(usize, usize)>)>, idx: usize, state: CellState) -> (t: usize)
    ensures
        t == tier_of(tiers_of(trial@), idx as int, state),
{
    let ghost tiers = tiers_of(trial@);
    if trial.len() == 0 || state == CellState::Unknown {
        return 0;
    }
    let mut k: usize = trial.len();
    while k > 0
        invariant
            k <= trial@.len(),
            trial@.len() > 0,
            state != CellState::Unknown,
            tiers == tiers_of(trial@),
            changed_in(tiers, idx as int, state, trial@.len() as int) == changed_in(tiers, idx as int, state, k as int),
        decreases k,
    {
        let snap = &trial[k - 1].0;
        let saved = if idx < snap.len() { snap[idx] } else { CellState::Unknown };
        proof {
            assert(tiers[k - 1].0 == snap@);
        }
        if saved != state {
            return k;
        }
        k -= 1;
    }
    0
}

/// The outermost trial tier (counted from 1) whose first click was cell
/// (`row`, `col`), if any.
pub fn origin_tier(trial: &Vec<(Vec<CellState>, Option<(usize, usize)>)>, row: usize, col: usize) -> (t: Option<usize>)
    ensures
        t == (match origin_from(tiers_of(trial@), row, col, 0) {
            Some(k) => Some(k as usize),
            None => None,
        }),
{
    let ghost tiers = tiers_of(trial@);
    let mut k: usize = 0;
    while k < trial.len()
        invariant
            k <= trial@.len(),
            tiers == tiers_of(trial@),
            origin_from(tiers, row, col, 0) == origin_from(tiers, row, col, k as int),
        decreases trial@.len() - k,
    {
        proof {
            assert(tiers[k as int].1 == trial@[k as int].1);
        }
        if trial[k].1 == Some((row, col)) {
            return Some(k + 1);
        }
        k += 1;
    }
    None
}

/// The total shown beside a line's clues: their sum, plus the gaps between
/// them when `with_gaps` is on, wrapping as `u32` addition does.
pub fn clue_sum(clues: &[u32], with_gaps: bool) -> (s: u32)
    ensures
        s == if with_gaps {
            min_cells(clues@)
        } else {
            wrap_u32(line_sum(clues@))
        },
{
    let m = line_min_cells(clues);
    if with_gaps {
        m
    } else {
        let gaps: usize = if clues.len() > 0 { clues.len() - 1 } else { 0 };
        let g: u32 = #[verifier::truncate] (gaps as u32);
        let t = m.wrapping_sub(g);
        proof {
            let l = wrap_u32(line_sum(clues@));
            assert(m == vstd::wrapping::u32_specs::wrapping_add(l, g));
            assert(t == l) by (bit_vector)
                requires
                    m == (if l + g > u32::MAX { (l + g - 0x1_0000_0000) as u32 } else { (l + g) as u32 }),
                    t == (if m - g < 0 { (m - g + 0x1_0000_0000) as u32 } else { (m - g) as u32 }),
            ;
        }
        t
    }
}

/// A line whose clues need more cells than its length `len` (taken as a
/// `u32`, truncated) is flagged.
pub fn line_infeasible(clues: &[u32], len: usize) -> (r: bool)
    ensures
        r == (min_cells(clues@) > (len as u32)),
{
    let l: u32 = #[verifier::truncate] (len as u32);
    line_min_cells(clues) > l
}

} // verus!
