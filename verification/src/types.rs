//! Shared puzzle types: cells, puzzle definitions, solve results and traces,
//! cancellation, and the solver traits.
use vstd::prelude::*;

verus! {

/// The three-valued state of a single grid cell.
///
/// `Filled` is a shaded cell and `Empty` a blank one.
#[derive(Clone, Copy, PartialEq, Eq, Debug, Structural)]
pub enum CellState {
    Unknown,
    Filled,
    Empty,
}

/// Immutable puzzle definition: dimensions, clues, optional known solution.
#[derive(Clone, Debug)]
pub struct Puzzle {
    pub name: String,
    /// The real title, revealed after solving. `None` if not provided.
    pub answer: Option<String>,
    pub width: usize,
    pub height: usize,
    /// `row_clues[r]` is the clue list for row `r`.
    pub row_clues: Vec<Vec<u32>>,
    /// `col_clues[c]` is the clue list for column `c`.
    pub col_clues: Vec<Vec<u32>>,
    /// Known solution, flat and row-major; absent for unsolved puzzles.
    pub solution: Option<Vec<CellState>>,
}

/// What a puzzle holds, as mathematical values.
pub ghost struct PuzzleModel {
    pub name: Seq<char>,
    pub answer: Option<Seq<char>>,
    pub width: nat,
    pub height: nat,
    pub row_clues: Seq<Seq<u32>>,
    pub col_clues: Seq<Seq<u32>>,
    pub solution: Option<Seq<CellState>>,
}

/// The characters of an optional string.
pub open spec fn opt_chars(o: Option<String>) -> Option<Seq<char>> {
    match o {
        Some(s) => Some(s@),
        None => None,
    }
}

/// The cells of an optional grid.
pub open spec fn opt_cells(o: Option<Vec<CellState>>) -> Option<Seq<CellState>> {
    match o {
        Some(v) => Some(v@),
        None => None,
    }
}

impl View for Puzzle {
    type V = PuzzleModel;

    open spec fn view(&self) -> PuzzleModel {
        PuzzleModel {
            name: self.name@,
            answer: opt_chars(self.answer),
            width: self.width as nat,
            height: self.height as nat,
            row_clues: clue_lists(self.row_clues@),
            col_clues: clue_lists(self.col_clues@),
            solution: opt_cells(self.solution),
        }
    }
}

/// The clue lists of a puzzle as sequences.
pub open spec fn clue_lists(v: Seq<Vec<u32>>) -> Seq<Seq<u32>> {
    v.map_values(|c: Vec<u32>| c@)
}

impl Puzzle {
    /// One clue list per row and per column, and a grid that fits in memory.
    pub open spec fn wf(&self) -> bool {
        &&& self.row_clues@.len() == self.height
        &&& self.col_clues@.len() == self.width
        &&& self.width * self.height <= usize::MAX
    }
}

impl Puzzle {
    /// `g` is a fully known grid, row-major, whose every row and column has
    /// exactly its clues as runs of filled cells.
    pub open spec fn solved_by(&self, g: Seq<CellState>) -> bool {
        &&& g.len() == self.width * self.height
        &&& forall|i: int| 0 <= i < g.len() ==> g[i] != CellState::Unknown
        &&& forall|r: int|
            0 <= r < self.height ==> filled_runs(#[trigger] grid_row(g, self.width as nat, r)) == clue_ints(
                self.row_clues@[r]@,
            )
        &&& forall|c: int|
            0 <= c < self.width ==> filled_runs(
                #[trigger] grid_col(g, self.height as nat, self.width as nat, c),
            ) == clue_ints(self.col_clues@[c]@)
    }
}

/// Lengths of the maximal runs of filled cells of `l`, left to right, where
/// `run` filled cells directly precede `l`.
pub open spec fn filled_runs_from(l: Seq<CellState>, run: int) -> Seq<int>
    decreases l.len(),
{
    if l.len() == 0 {
        if run > 0 { seq![run] } else { Seq::empty() }
    } else if l[0] == CellState::Filled {
        filled_runs_from(l.drop_first(), run + 1)
    } else {
        (if run > 0 { seq![run] } else { Seq::<int>::empty() }) + filled_runs_from(l.drop_first(), 0)
    }
}

/// Lengths of the maximal runs of filled cells of `l`, left to right.
pub open spec fn filled_runs(l: Seq<CellState>) -> Seq<int> {
    filled_runs_from(l, 0)
}

/// A clue list as integers.
pub open spec fn clue_ints(q: Seq<u32>) -> Seq<int> {
    q.map_values(|x: u32| x as int)
}

/// Row `r` of a row-major grid of width `w`.
pub open spec fn grid_row(g: Seq<CellState>, w: nat, r: int) -> Seq<CellState> {
    g.subrange(r * w, r * w + w)
}

/// Column `c` of a row-major grid of height `h` and width `w`.
pub open spec fn grid_col(g: Seq<CellState>, h: nat, w: nat, c: int) -> Seq<CellState> {
    Seq::new(h, |r: int| g[r * w + c])
}

/// Sum of the clues of one line.
pub open spec fn line_sum(q: Seq<u32>) -> int
    decreases q.len(),
{
    if q.len() == 0 {
        0
    } else {
        line_sum(q.drop_last()) + q.last()
    }
}

/// Sum of all clues of a list of lines.
pub open spec fn clues_sum(v: Seq<Seq<u32>>) -> int
    decreases v.len(),
{
    if v.len() == 0 {
        0
    } else {
        clues_sum(v.drop_last()) + line_sum(v.last())
    }
}

/// `x` reduced to 32 bits, as a `u32` sum that wraps on overflow gives it.
pub open spec fn wrap_u32(x: int) -> u32 {
    (x % 0x1_0000_0000) as u32
}

/// Identifies a row or column.
#[derive(Clone, Copy, Debug, PartialEq, Eq, Structural)]
pub enum LineId {
    Row(usize),
    Col(usize),
}

/// One logical deduction or branching decision made during solving.
#[derive(Clone, Debug)]
pub struct SolveStep {
    /// Human-readable description of what happened.
    pub description: String,
    /// The line this step acted on, if applicable.
    pub line: Option<LineId>,
    /// Cells whose state changed as a result of this step: (row, col, new_state).
    pub cells_changed: Vec<(usize, usize, CellState)>,
}

/// The state of a solve attempt.
#[derive(Debug, PartialEq, Eq, Clone)]
pub enum SolutionState {
    /// Every cell was determined and the grid is consistent.
    Complete,
    /// The solver ran out of techniques; solvability is unknown.
    Partial,
    /// The search space was exhausted: no valid grid exists.
    Unsolvable,
    /// The solve was interrupted by a `CancelToken`.
    Aborted,
    /// The puzzle is structurally malformed; no solve was attempted.
    Invalid(String),
}

/// Everything a solver returns: solution state, final grid, and trace.
#[derive(Clone, Debug)]
pub struct SolveResult {
    pub state: SolutionState,
    /// Flat row-major grid. Empty only when `state` is `Invalid`.
    pub grid: Vec<CellState>,
    /// Ordered trace of deductions.
    pub steps: Vec<SolveStep>,
}

/// Writes one changed cell `(row, col, state)` into a row-major grid of
/// width `w`; positions outside the grid leave it unchanged.
pub open spec fn set_cell(g: Seq<CellState>, w: nat, ch: (usize, usize, CellState)) -> Seq<CellState> {
    let i = ch.0 * w + ch.1;
    if 0 <= i < g.len() && ch.1 < w { g.update(i, ch.2) } else { g }
}

/// Writes a list of changed cells, in order.
pub open spec fn apply_changes(g: Seq<CellState>, w: nat, chs: Seq<(usize, usize, CellState)>) -> Seq<
    CellState,
>
    decreases chs.len(),
{
    if chs.len() == 0 {
        g
    } else {
        set_cell(apply_changes(g, w, chs.drop_last()), w, chs.last())
    }
}

/// Replays the changed cells of every step, in order.
pub open spec fn replay(g: Seq<CellState>, w: nat, steps: Seq<SolveStep>) -> Seq<CellState>
    decreases steps.len(),
{
    if steps.len() == 0 {
        g
    } else {
        apply_changes(replay(g, w, steps.drop_last()), w, steps.last().cells_changed@)
    }
}

/// A grid of `n` unknown cells.
pub open spec fn blank(n: nat) -> Seq<CellState> {
    Seq::new(n, |_i: int| CellState::Unknown)
}

/// Change `ch` is a cell of line `l`.
pub open spec fn on_line(l: LineId, ch: (usize, usize, CellState)) -> bool {
    match l {
        LineId::Row(r) => ch.0 == r,
        LineId::Col(c) => ch.1 == c,
    }
}

/// A step applied to grid `g` of width `w`: it names its line and changes
/// at least one cell; each change is a cell of that line, inside the grid,
/// unknown in `g` and set to a known state; no cell is changed twice.
pub open spec fn step_ok(g: Seq<CellState>, w: nat, st: SolveStep) -> bool {
    &&& st.line is Some
    &&& st.cells_changed@.len() >= 1
    &&& forall|j: int|
        0 <= j < st.cells_changed@.len() ==> {
            let ch = #[trigger] st.cells_changed@[j];
            &&& on_line(st.line.unwrap(), ch)
            &&& ch.1 < w
            &&& ch.0 * w + ch.1 < g.len()
            &&& g[ch.0 * w + ch.1] == CellState::Unknown
            &&& ch.2 != CellState::Unknown
        }
    &&& forall|j1: int, j2: int|
        0 <= j1 < j2 < st.cells_changed@.len() ==> (#[trigger] st.cells_changed@[j1]).0 != (
        #[trigger] st.cells_changed@[j2]).0 || st.cells_changed@[j1].1 != st.cells_changed@[j2].1
}

/// Every step of `steps`, replayed in order from `g`, is a good step on
/// the grid it is applied to.
pub open spec fn trace_ok(g: Seq<CellState>, w: nat, steps: Seq<SolveStep>) -> bool
    decreases steps.len(),
{
    steps.len() == 0 || (trace_ok(g, w, steps.drop_last()) && step_ok(
        replay(g, w, steps.drop_last()),
        w,
        steps.last(),
    ))
}

/// Two traces of good steps, the second starting where the first ends,
/// make one.
pub proof fn lemma_trace_concat(g: Seq<CellState>, w: nat, s1: Seq<SolveStep>, s2: Seq<SolveStep>)
    requires
        trace_ok(g, w, s1),
        trace_ok(replay(g, w, s1), w, s2),
    ensures
        trace_ok(g, w, s1 + s2),
    decreases s2.len(),
{
    if s2.len() == 0 {
        assert(s1 + s2 =~= s1);
    } else {
        lemma_trace_concat(g, w, s1, s2.drop_last());
        assert((s1 + s2).drop_last() =~= s1 + s2.drop_last());
        assert((s1 + s2).last() == s2.last());
        lemma_replay_concat(g, w, s1, s2.drop_last());
    }
}

/// Whether a trace is good depends only on each step's line and changes.
pub proof fn lemma_trace_same(g: Seq<CellState>, w: nat, s1: Seq<SolveStep>, s2: Seq<SolveStep>)
    requires
        s1.len() == s2.len(),
        forall|i: int|
            0 <= i < s1.len() ==> #[trigger] s1[i].cells_changed@ == s2[i].cells_changed@ && s1[i].line == s2[i].line,
        trace_ok(g, w, s1),
    ensures
        trace_ok(g, w, s2),
        replay(g, w, s1) == replay(g, w, s2),
    decreases s1.len(),
{
    if s1.len() > 0 {
        lemma_trace_same(g, w, s1.drop_last(), s2.drop_last());
        assert(s1.last().cells_changed@ == s2.last().cells_changed@);
        assert(s1.last().line == s2.last().line);
    }
}

/// Replaying `s1 + s2` replays `s1`, then `s2`.
pub proof fn lemma_replay_concat(g: Seq<CellState>, w: nat, s1: Seq<SolveStep>, s2: Seq<SolveStep>)
    ensures
        replay(g, w, s1 + s2) == replay(replay(g, w, s1), w, s2),
    decreases s2.len(),
{
    if s2.len() == 0 {
        assert(s1 + s2 =~= s1);
    } else {
        lemma_replay_concat(g, w, s1, s2.drop_last());
        assert((s1 + s2).drop_last() =~= s1 + s2.drop_last());
    }
}

/// Changing cells never changes the grid's length.
pub proof fn lemma_apply_changes_len(g: Seq<CellState>, w: nat, chs: Seq<(usize, usize, CellState)>)
    ensures
        apply_changes(g, w, chs).len() == g.len(),
    decreases chs.len(),
{
    if chs.len() > 0 {
        lemma_apply_changes_len(g, w, chs.drop_last());
    }
}

/// Changes to known states leave known cells known, and make every cell
/// they name known.
proof fn lemma_apply_known(g: Seq<CellState>, w: nat, chs: Seq<(usize, usize, CellState)>, i: int)
    requires
        0 <= i < g.len(),
        forall|j: int| 0 <= j < chs.len() ==> (#[trigger] chs[j]).2 != CellState::Unknown,
        g[i] != CellState::Unknown || exists|j: int| 0 <= j < chs.len() && (#[trigger] chs[j]).0 * w + chs[j].1 == i
            && chs[j].1 < w,
    ensures
        apply_changes(g, w, chs)[i] != CellState::Unknown,
    decreases chs.len(),
{
    lemma_apply_changes_len(g, w, chs);
    if chs.len() > 0 {
        let last = chs.last();
        let rest = chs.drop_last();
        lemma_apply_changes_len(g, w, rest);
        if last.0 * w + last.1 == i && last.1 < w {
        } else {
            if g[i] == CellState::Unknown {
                let j = choose|j: int| 0 <= j < chs.len() && (#[trigger] chs[j]).0 * w + chs[j].1 == i && chs[j].1 < w;
                assert(j < rest.len());
                assert(rest[j] == chs[j]);
            }
            assert forall|j: int| 0 <= j < rest.len() implies (#[trigger] rest[j]).2 != CellState::Unknown by {
                assert(rest[j] == chs[j]);
            }
            lemma_apply_known(g, w, rest, i);
        }
    }
}

/// Step `k` of a good trace is a good step on the grid the earlier steps
/// leave.
pub proof fn lemma_trace_step(g: Seq<CellState>, w: nat, steps: Seq<SolveStep>, k: int)
    requires
        trace_ok(g, w, steps),
        0 <= k < steps.len(),
    ensures
        step_ok(replay(g, w, steps.take(k)), w, steps[k]),
    decreases steps.len(),
{
    if k == steps.len() - 1 {
        assert(steps.take(k) =~= steps.drop_last());
    } else {
        lemma_trace_step(g, w, steps.drop_last(), k);
        assert(steps.drop_last().take(k) =~= steps.take(k));
    }
}

/// In a good trace a cell known after step `k1` stays known after every
/// later step.
proof fn lemma_trace_keeps(g: Seq<CellState>, w: nat, steps: Seq<SolveStep>, k1: int, k2: int, i: int)
    requires
        trace_ok(g, w, steps),
        0 <= k1 <= k2 <= steps.len(),
        0 <= i < g.len(),
        replay(g, w, steps.take(k1))[i] != CellState::Unknown,
    ensures
        replay(g, w, steps.take(k2))[i] != CellState::Unknown,
    decreases k2 - k1,
{
    if k2 > k1 {
        lemma_trace_keeps(g, w, steps, k1, k2 - 1, i);
        lemma_trace_step(g, w, steps, k2 - 1);
        assert(steps.take(k2).drop_last() =~= steps.take(k2 - 1));
        assert(steps.take(k2).last() == steps[k2 - 1]);
        lemma_replay_len(g, w, steps.take(k2 - 1));
        lemma_apply_known(replay(g, w, steps.take(k2 - 1)), w, steps[k2 - 1].cells_changed@, i);
    }
}

proof fn lemma_replay_len(g: Seq<CellState>, w: nat, steps: Seq<SolveStep>)
    ensures
        replay(g, w, steps).len() == g.len(),
    decreases steps.len(),
{
    if steps.len() > 0 {
        lemma_replay_len(g, w, steps.drop_last());
        lemma_apply_changes_len(replay(g, w, steps.drop_last()), w, steps.last().cells_changed@);
    }
}

/// A good trace changes no cell twice: two changes of different steps, or
/// two different changes of one step, name different cells.
pub proof fn lemma_trace_sets_once(g: Seq<CellState>, w: nat, steps: Seq<SolveStep>, k1: int, j1: int, k2: int, j2: int)
    requires
        trace_ok(g, w, steps),
        0 <= k1 <= k2 < steps.len(),
        0 <= j1 < steps[k1].cells_changed@.len(),
        0 <= j2 < steps[k2].cells_changed@.len(),
        k1 < k2 || j1 != j2,
    ensures
        steps[k1].cells_changed@[j1].0 != steps[k2].cells_changed@[j2].0 || steps[k1].cells_changed@[j1].1
            != steps[k2].cells_changed@[j2].1,
{
    let a = steps[k1].cells_changed@[j1];
    let b = steps[k2].cells_changed@[j2];
    lemma_trace_step(g, w, steps, k1);
    if k1 == k2 {
        if j1 > j2 {
            assert(steps[k1].cells_changed@[j2].0 != steps[k1].cells_changed@[j1].0 || steps[k1].cells_changed@[j2].1
                != steps[k1].cells_changed@[j1].1);
        }
    } else if a.0 == b.0 && a.1 == b.1 {
        let pre = replay(g, w, steps.take(k1));
        let chs = steps[k1].cells_changed@;
        let i = a.0 * w + a.1;
        lemma_replay_len(g, w, steps.take(k1));
        assert(0 <= i < g.len());
        assert(chs[j1] == a);
        lemma_apply_known(pre, w, chs, i);
        assert(steps.take(k1 + 1).drop_last() =~= steps.take(k1));
        assert(steps.take(k1 + 1).last() == steps[k1]);
        lemma_trace_keeps(g, w, steps, k1 + 1, k2, i);
        lemma_trace_step(g, w, steps, k2);
    }
}

/// Cooperative cancellation flag shared between a solver and its caller.
#[derive(Clone, Default)]
pub struct CancelToken(std::sync::Arc<std::sync::atomic::AtomicBool>);

impl CancelToken {
    /// Requests cancellation.
    pub fn cancel(&self) {
        self.0.store(true, std::sync::atomic::Ordering::Relaxed);
    }

    /// Whether cancellation has been requested (by any holder of the token).
    pub fn is_cancelled(&self) -> bool {
        self.0.load(std::sync::atomic::Ordering::Relaxed)
    }

    /// Clears a cancellation request.
    pub fn reset(&self) {
        self.0.store(false, std::sync::atomic::Ordering::Relaxed);
    }
}

/// Context passed to `Solver::solve`.
#[derive(Clone, Default)]
pub struct SolveContext {
    pub cancel: CancelToken,
}

/// A puzzle solver.
pub trait Solver {
    /// Solves a puzzle whose clue lists match its dimensions.
    fn solve(&self, puzzle: &Puzzle, ctx: &SolveContext) -> (res: SolveResult)
        requires
            puzzle.wf(),
    ;
}

/// All solutions found by an exhaustive search.
#[derive(Clone, Debug)]
pub struct AllSolutions {
    /// Every valid solution found, each with its own grid and step trace.
    pub solutions: Vec<SolveResult>,
    /// Search nodes expanded.
    pub nodes_expanded: usize,
    /// Search nodes queued.
    pub nodes_pushed: usize,
    /// `true` if the search was cut short by the `CancelToken`.
    pub aborted: bool,
}

/// Implemented by solvers capable of enumerating all solutions to a puzzle.
pub trait ExhaustiveSolver {
    /// Finds every solution of a puzzle whose clue lists match its
    /// dimensions.
    fn solve_all(&self, puzzle: &Puzzle, ctx: &SolveContext) -> (res: AllSolutions)
        requires
            puzzle.wf(),
    ;
}

} // verus!
