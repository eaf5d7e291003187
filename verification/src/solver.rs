//! The public face of the graph-search solver: building the search problem
//! from a puzzle, the clue-total check, and the `Solver` and
//! `ExhaustiveSolver` implementations.
use vstd::prelude::*;
use crate::line::{Cell, agrees, as_ints, is_full, nonzero, runs, runs_acc};
use crate::search::{
    ProgressConfig, ProgressUpdate, SearchState, cell_state, copy_steps, distinct_grids, found_has, matches_trace, states,
    to_state,
};
use crate::text::{chars_to_string, decimal, extend_decimal, extend_str};
use crate::types::{
    AllSolutions, CellState, ExhaustiveSolver, Puzzle, SolutionState, SolveContext, SolveResult, SolveStep,
    Solver, blank, clue_ints, clue_lists, clues_sum, filled_runs, filled_runs_from, grid_col, grid_row,
    line_sum, replay, trace_ok, wrap_u32,
};

verus! {

/// Line propagation from the all-unknown grid decides `p`: it meets a
/// line with no completion, or leaves no cell unknown.
pub open spec fn propagation_decides(p: &Puzzle) -> bool {
    exists|s: SearchState| s.wf() && s.models(p) && s.root_decided()
}

/// `grid` and `steps` are the grid that line propagation from the
/// all-unknown grid reaches on `p` and the steps it records on the way.
pub open spec fn propagated_result(p: &Puzzle, grid: Seq<CellState>, steps: Seq<SolveStep>) -> bool {
    exists|s: SearchState| s.wf() && s.models(p) && states(s.root().1) == grid && matches_trace(steps, s.root_trace())
}

/// `grid` is a grid the search queues for `p`: not fully known, keeping
/// every cell that propagation from the all-unknown grid fixed, with
/// nothing left for propagation to do on any line.
pub open spec fn search_node(p: &Puzzle, grid: Seq<CellState>) -> bool {
    exists|s: SearchState, g: Seq<Cell>|
        #![trigger s.models(p), states(g)]
        s.wf() && s.models(p) && states(g) == grid && !is_full(g) && agrees(g, s.root().1) && s.propagated(g)
}

/// The working cell for a public cell state.
pub open spec fn cell_of(s: CellState) -> Cell {
    match s {
        CellState::Unknown => Cell::Unknown,
        CellState::Filled => Cell::Filled,
        CellState::Empty => Cell::Empty,
    }
}

/// The working grid for a grid of public cell states.
pub open spec fn cells_of(g: Seq<CellState>) -> Seq<Cell> {
    g.map_values(|s: CellState| cell_of(s))
}

proof fn lemma_states_cells_of(g: Seq<CellState>)
    ensures
        states(cells_of(g)) == g,
{
    assert(states(cells_of(g)) =~= g);
}

/// Different working grids have different public cell states.
proof fn lemma_states_injective(a: Seq<Cell>, b: Seq<Cell>)
    requires
        states(a) == states(b),
    ensures
        a == b,
{
    assert(a.len() == states(a).len());
    assert(b.len() == states(b).len());
    assert forall|i: int| 0 <= i < a.len() implies a[i] == b[i] by {
        assert(states(a)[i] == cell_state(a[i]));
        assert(states(b)[i] == cell_state(b[i]));
    }
    assert(a =~= b);
}

/// Run lengths do not depend on which cell type spells the line.
proof fn lemma_runs_states(t: Seq<Cell>, run: int)
    ensures
        runs_acc(t, run) == filled_runs_from(states(t), run),
    decreases t.len(),
{
    if t.len() > 0 {
        assert(states(t).drop_first() =~= states(t.drop_first()));
        lemma_runs_states(t.drop_first(), 0);
        lemma_runs_states(t.drop_first(), run + 1);
    }
}

/// Total of the clues of a puzzle side, summed in `u32` with wrap-around.
pub open spec fn side_total(v: Seq<Vec<u32>>) -> u32 {
    wrap_u32(clues_sum(clue_lists(v)))
}

/// The row clues and the column clues add up to the same `u32` total.
pub open spec fn totals_agree(p: &Puzzle) -> bool {
    side_total(p.row_clues@) == side_total(p.col_clues@)
}

/// Text of the error for mismatched clue totals.
pub open spec fn totals_message(row_total: nat, col_total: nat) -> Seq<char> {
    "row clues sum to "@ + decimal(row_total) + " but column clues sum to "@ + decimal(col_total)
}

pub proof fn lemma_wrap_add(x: int, v: u32)
    requires
        x >= 0,
    ensures
        vstd::wrapping::u32_specs::wrapping_add(wrap_u32(x), v) == wrap_u32(x + v),
{
    let m: int = 0x1_0000_0000;
    let a = x % m;
    vstd::arithmetic::div_mod::lemma_mod_bound(x, m);
    vstd::arithmetic::div_mod::lemma_add_mod_noop(x, v as int, m);
    vstd::arithmetic::div_mod::lemma_small_mod(v as nat, m as nat);
    if a + v < m {
        vstd::arithmetic::div_mod::lemma_small_mod((a + v) as nat, m as nat);
    } else {
        vstd::arithmetic::div_mod::lemma_fundamental_div_mod_converse_mod(a + v, m, 1, a + v - m);
    }
}

pub proof fn lemma_line_sum_nonneg(q: Seq<u32>)
    ensures
        line_sum(q) >= 0,
    decreases q.len(),
{
    if q.len() > 0 {
        lemma_line_sum_nonneg(q.drop_last());
    }
}

proof fn lemma_clues_sum_nonneg(v: Seq<Seq<u32>>)
    ensures
        clues_sum(v) >= 0,
    decreases v.len(),
{
    if v.len() > 0 {
        lemma_clues_sum_nonneg(v.drop_last());
        lemma_line_sum_nonneg(v.last());
    }
}

/// Sum of all clues of one side, wrapping on overflow.
pub(crate) fn side_sum(v: &Vec<Vec<u32>>) -> (t: u32)
    ensures
        t == side_total(v@),
{
    let mut t: u32 = 0;
    let mut i: usize = 0;
    proof {
        assert(clue_lists(v@).take(0) =~= Seq::<Seq<u32>>::empty());
    }
    while i < v.len()
        invariant
            i <= v@.len(),
            t == wrap_u32(clues_sum(clue_lists(v@).take(i as int))),
        decreases v@.len() - i,
    {
        let q = &v[i];
        let ghost before = clues_sum(clue_lists(v@).take(i as int));
        proof {
            lemma_clues_sum_nonneg(clue_lists(v@).take(i as int));
            assert(q@.take(0) =~= Seq::<u32>::empty());
        }
        let mut j: usize = 0;
        while j < q.len()
            invariant
                j <= q@.len(),
                before >= 0,
                t == wrap_u32(before + line_sum(q@.take(j as int))),
            decreases q@.len() - j,
        {
            proof {
                lemma_line_sum_nonneg(q@.take(j as int));
                lemma_wrap_add(before + line_sum(q@.take(j as int)), q@[j as int]);
                assert(q@.take(j + 1).drop_last() =~= q@.take(j as int));
            }
            t = t.wrapping_add(q[j]);
            j += 1;
        }
        proof {
            assert(q@.take(q@.len() as int) =~= q@);
            assert(clue_lists(v@).take(i + 1).drop_last() =~= clue_lists(v@).take(i as int));
        }
        i += 1;
    }
    proof {
        assert(clue_lists(v@).take(v@.len() as int) =~= clue_lists(v@));
    }
    t
}

/// Whether the row clues and the column clues add up to the same total.
pub fn clue_totals_match(puzzle: &Puzzle) -> (r: bool)
    ensures
        r == totals_agree(puzzle),
{
    side_sum(&puzzle.row_clues) == side_sum(&puzzle.col_clues)
}

/// Converts one clue list to `usize`.
fn clues_to_usize(q: &Vec<u32>) -> (out: Vec<usize>)
    ensures
        as_ints(out@) == clue_ints(q@),
{
    let mut out: Vec<usize> = Vec::new();
    let mut j: usize = 0;
    while j < q.len()
        invariant
            j <= q@.len(),
            out@.len() == j,
            as_ints(out@) == clue_ints(q@.take(j as int)),
        decreases q@.len() - j,
    {
        let x = q[j];
        let ghost before = out@;
        out.push(x as usize);
        proof {
            assert forall|k: int| 0 <= k <= j implies #[trigger] as_ints(out@)[k] == clue_ints(q@.take(j + 1))[k] by {
                if k < j {
                    assert(as_ints(before)[k] == clue_ints(q@.take(j as int))[k]);
                    assert(out@[k] == before[k]);
                }
            }
        }
        j += 1;
        assert(as_ints(out@) =~= clue_ints(q@.take(j as int)));
    }
    assert(q@.take(q@.len() as int) =~= q@);
    out
}

/// Converts all clue lists of one side to `usize`.
fn side_to_usize(v: &Vec<Vec<u32>>) -> (out: Vec<Vec<usize>>)
    ensures
        out@.len() == v@.len(),
        forall|k: int| 0 <= k < v@.len() ==> as_ints(#[trigger] out@[k]@) == clue_ints(v@[k]@),
{
    let mut out: Vec<Vec<usize>> = Vec::new();
    let mut i: usize = 0;
    while i < v.len()
        invariant
            i <= v@.len(),
            out@.len() == i,
            forall|k: int| 0 <= k < i ==> as_ints(#[trigger] out@[k]@) == clue_ints(v@[k]@),
        decreases v@.len() - i,
    {
        out.push(clues_to_usize(&v[i]));
        i += 1;
    }
    out
}

impl SearchState {
    /// This search problem is the puzzle `p`: same dimensions, same clues.
    pub open spec fn models(&self, p: &Puzzle) -> bool {
        &&& self.rows == p.height
        &&& self.cols == p.width
        &&& self.row_clues@.len() == p.row_clues@.len()
        &&& self.col_clues@.len() == p.col_clues@.len()
        &&& forall|r: int|
            0 <= r < self.row_clues@.len() ==> as_ints(#[trigger] self.rclues(r)) == clue_ints(p.row_clues@[r]@)
        &&& forall|c: int|
            0 <= c < self.col_clues@.len() ==> as_ints(#[trigger] self.cclues(c)) == clue_ints(p.col_clues@[c]@)
    }

    /// The search problem of a puzzle.
    /// Two search problems that model the same puzzle have the same
    /// dimensions and clues.
    pub proof fn lemma_models_same(&self, o: &SearchState, p: &Puzzle)
        requires
            self.wf(),
            o.wf(),
            self.models(p),
            o.models(p),
        ensures
            self.same_problem(o),
            self.root() == o.root(),
    {
        assert forall|r: int| 0 <= r < self.rows implies #[trigger] self.rclues(r) == o.rclues(r) by {
            assert(as_ints(self.rclues(r)) == as_ints(o.rclues(r)));
            assert(self.rclues(r).len() == as_ints(self.rclues(r)).len());
            assert(o.rclues(r).len() == as_ints(o.rclues(r)).len());
            assert forall|i: int| 0 <= i < self.rclues(r).len() implies self.rclues(r)[i] == o.rclues(r)[i] by {
                assert(as_ints(self.rclues(r))[i] == as_ints(o.rclues(r))[i]);
            }
            assert(self.rclues(r) =~= o.rclues(r));
        }
        assert forall|c: int| 0 <= c < self.cols implies #[trigger] self.cclues(c) == o.cclues(c) by {
            assert(as_ints(self.cclues(c)) == as_ints(o.cclues(c)));
            assert(self.cclues(c).len() == as_ints(self.cclues(c)).len());
            assert(o.cclues(c).len() == as_ints(o.cclues(c)).len());
            assert forall|i: int| 0 <= i < self.cclues(c).len() implies self.cclues(c)[i] == o.cclues(c)[i] by {
                assert(as_ints(self.cclues(c))[i] == as_ints(o.cclues(c))[i]);
            }
            assert(self.cclues(c) =~= o.cclues(c));
        }
        self.lemma_root_same(o);
    }

    pub fn from_puzzle(p: &Puzzle) -> (s: SearchState)
        requires
            p.wf(),
        ensures
            s.wf(),
            s.models(p),
    {
        let s = SearchState {
            rows: p.height,
            cols: p.width,
            row_clues: side_to_usize(&p.row_clues),
            col_clues: side_to_usize(&p.col_clues),
        };
        proof {
            assert(s.rows * s.cols == p.width * p.height) by (nonlinear_arith)
                requires
                    s.rows == p.height,
                    s.cols == p.width,
            ;
        }
        s
    }

    /// A working grid solves this search problem exactly when its public
    /// cell states solve the puzzle it models.
    pub proof fn lemma_solves_iff(&self, p: &Puzzle, g: Seq<Cell>)
        requires
            self.wf(),
            self.models(p),
        ensures
            self.solves(g) == p.solved_by(states(g)),
    {
        let w = self.cols as int;
        let h = self.rows as int;
        let sg = states(g);
        assert(h * w == p.width * p.height) by (nonlinear_arith)
            requires
                h == p.height,
                w == p.width,
        ;
        assert forall|r: int| 0 <= r < h && g.len() == h * w implies grid_row(sg, w as nat, r) == states(
            #[trigger] self.row(g, r),
        ) by {
            if w > 0 {
                crate::search::lemma_cell_index(r, 0, h, w);
            } else {
                assert(r * w == 0) by (nonlinear_arith)
                    requires
                        w == 0,
                ;
            }
            assert(grid_row(sg, w as nat, r) =~= states(self.row(g, r)));
        }
        assert forall|c: int| 0 <= c < w && g.len() == h * w implies grid_col(sg, h as nat, w as nat, c) == states(
            #[trigger] self.col(g, c),
        ) by {
            assert forall|r: int| 0 <= r < h implies #[trigger] sg[r * w + c] == cell_state(g[r * w + c]) by {
                crate::search::lemma_cell_index(r, c, h, w);
            }
            assert(grid_col(sg, h as nat, w as nat, c) =~= states(self.col(g, c)));
        }
        if self.solves(g) {
            assert forall|i: int| 0 <= i < sg.len() implies sg[i] != CellState::Unknown by {
                crate::search::lemma_split_index(i, h, w);
                let r = i / w;
                let c = i % w;
                crate::search::lemma_cell_index(r, c, h, w);
                assert(is_full(self.row(g, r)));
                assert(self.row(g, r)[c] == g[i]);
            }
            assert forall|r: int| 0 <= r < h implies filled_runs(#[trigger] grid_row(sg, w as nat, r)) == clue_ints(
                p.row_clues@[r]@,
            ) by {
                assert(crate::search::line_ok(self.row(g, r), self.rclues(r)));
                lemma_runs_states(self.row(g, r), 0);
            }
            assert forall|c: int| 0 <= c < w implies filled_runs(
                #[trigger] grid_col(sg, h as nat, w as nat, c),
            ) == clue_ints(p.col_clues@[c]@) by {
                assert(crate::search::line_ok(self.col(g, c), self.cclues(c)));
                lemma_runs_states(self.col(g, c), 0);
            }
        }
        if p.solved_by(sg) {
            assert forall|r: int| 0 <= r < h implies crate::search::line_ok(
                #[trigger] self.row(g, r),
                self.rclues(r),
            ) by {
                lemma_runs_states(self.row(g, r), 0);
                assert(filled_runs(grid_row(sg, w as nat, r)) == clue_ints(p.row_clues@[r]@));
                if w > 0 {
                    crate::search::lemma_cell_index(r, 0, h, w);
                } else {
                    assert(r * w == 0) by (nonlinear_arith)
                        requires
                            w == 0,
                    ;
                }
                assert(self.row(g, r).len() == w);
                assert forall|k: int| 0 <= k < self.row(g, r).len() implies self.row(g, r)[k] != Cell::Unknown by {
                    crate::search::lemma_cell_index(r, k, h, w);
                    assert(sg[r * w + k] != CellState::Unknown);
                }
            }
            assert forall|c: int| 0 <= c < w implies crate::search::line_ok(
                #[trigger] self.col(g, c),
                self.cclues(c),
            ) by {
                lemma_runs_states(self.col(g, c), 0);
                assert(filled_runs(grid_col(sg, h as nat, w as nat, c)) == clue_ints(p.col_clues@[c]@));
                assert forall|k: int| 0 <= k < self.col(g, c).len() implies self.col(g, c)[k] != Cell::Unknown by {
                    crate::search::lemma_cell_index(k, c, h, w);
                    assert(sg[k * w + c] != CellState::Unknown);
                }
            }
        }
    }
}

/// A puzzle whose row and column clue totals differ has no solution.
pub proof fn lemma_mismatch_unsolvable(p: &Puzzle)
    requires
        p.wf(),
        !totals_agree(p),
    ensures
        forall|g: Seq<CellState>| !p.solved_by(g),
{
    assert forall|g: Seq<CellState>| !p.solved_by(g) by {
        if p.solved_by(g) {
            crate::counting::lemma_solution_totals(p, g);
        }
    }
}

/// The best-first graph-search solver.
pub struct GraphSearchSolver;

/// The error for mismatched clue totals.
fn totals_error(row_total: u32, col_total: u32) -> (s: String)
    ensures
        s@ == totals_message(row_total as nat, col_total as nat),
{
    let mut v: Vec<char> = Vec::new();
    extend_str(&mut v, "row clues sum to ");
    extend_decimal(&mut v, row_total as u64);
    extend_str(&mut v, " but column clues sum to ");
    extend_decimal(&mut v, col_total as u64);
    chars_to_string(&v)
}

/// Public cell states of a working grid.
fn grid_states(g: &Vec<Cell>) -> (r: Vec<CellState>)
    ensures
        r@ == states(g@),
{
    let mut r: Vec<CellState> = Vec::new();
    let mut i: usize = 0;
    while i < g.len()
        invariant
            i <= g@.len(),
            r@ == states(g@.take(i as int)),
        decreases g@.len() - i,
    {
        r.push(to_state(g[i]));
        i += 1;
        assert(r@ =~= states(g@.take(i as int)));
    }
    assert(g@.take(g@.len() as int) =~= g@);
    r
}

impl GraphSearchSolver {
    /// Solves `puzzle` like `Solver::solve`, with opt-in progress snapshots:
    /// when `config.snapshot_interval` is set, `on_progress` receives a
    /// [`ProgressUpdate`] at most that often.
    ///
    /// Mismatched clue totals give `Invalid` with the two totals and an
    /// empty grid. Otherwise the state is `Complete` (the grid solves the
    /// puzzle), `Unsolvable` (no grid solves it; the grid and trace are
    /// those of propagation from the all-unknown grid) or `Aborted` (only
    /// when that propagation does not decide the puzzle), and replaying
    /// the trace onto a blank grid gives the returned grid. Each step of
    /// the trace names its line and sets at least one unknown cell of it;
    /// no cell is set twice. The callback only ever receives consistent
    /// snapshots.
    pub fn solve_with_progress<F: FnMut(ProgressUpdate)>(
        &self,
        puzzle: &Puzzle,
        ctx: &SolveContext,
        config: &ProgressConfig,
        on_progress: Option<&mut F>,
    ) -> (res: SolveResult)
        requires
            puzzle.wf(),
        ensures
            res.state is Invalid <==> !totals_agree(puzzle),
            res.state matches SolutionState::Invalid(m) ==> m@ == totals_message(
                side_total(puzzle.row_clues@) as nat,
                side_total(puzzle.col_clues@) as nat,
            ),
            res.state is Invalid ==> res.grid@.len() == 0 && res.steps@.len() == 0 && forall|g: Seq<CellState>|
                !puzzle.solved_by(g),
            !(res.state is Invalid) ==> {
                &&& res.state is Complete || res.state is Unsolvable || res.state is Aborted
                &&& res.grid@.len() == puzzle.width * puzzle.height
                &&& replay(blank((puzzle.width * puzzle.height) as nat), puzzle.width as nat, res.steps@) == res.grid@
                &&& trace_ok(blank((puzzle.width * puzzle.height) as nat), puzzle.width as nat, res.steps@)
            },
            res.state is Complete ==> puzzle.solved_by(res.grid@),
            res.state is Unsolvable ==> forall|g: Seq<CellState>| !puzzle.solved_by(g),
            propagation_decides(puzzle) ==> !(res.state is Aborted),
            propagation_decides(puzzle) && totals_agree(puzzle) ==> propagated_result(puzzle, res.grid@, res.steps@),
            res.state is Unsolvable ==> propagated_result(puzzle, res.grid@, res.steps@),
            res.state is Aborted ==> !propagation_decides(puzzle) && search_node(puzzle, res.grid@),
    {
        if !clue_totals_match(puzzle) {
            proof {
                lemma_mismatch_unsolvable(puzzle);
            }
            let row_total = side_sum(&puzzle.row_clues);
            let col_total = side_sum(&puzzle.col_clues);
            return SolveResult {
                state: SolutionState::Invalid(totals_error(row_total, col_total)),
                grid: Vec::new(),
                steps: Vec::new(),
            };
        }
        let search = SearchState::from_puzzle(puzzle);
        let cancelled = || ctx.cancel.is_cancelled();
        let (state, grid, steps, _nodes) = search.solve_counted(&cancelled, config, on_progress);
        let out = grid_states(&grid);
        proof {
            assert(search.size() == puzzle.width * puzzle.height) by (nonlinear_arith)
                requires
                    search.rows == puzzle.height,
                    search.cols == puzzle.width,
            ;
            if state is Complete {
                search.lemma_solves_iff(puzzle, grid@);
            }
            if state is Unsolvable {
                assert forall|g: Seq<CellState>| !puzzle.solved_by(g) by {
                    lemma_states_cells_of(g);
                    search.lemma_solves_iff(puzzle, cells_of(g));
                }
            }
            if propagation_decides(puzzle) {
                let s2 = choose|s2: SearchState| s2.wf() && s2.models(puzzle) && s2.root_decided();
                search.lemma_models_same(&s2, puzzle);
            }
            if state is Unsolvable || propagation_decides(puzzle) {
                assert(search.wf() && search.models(puzzle) && states(search.root().1) == out@ && matches_trace(
                    steps@,
                    search.root_trace(),
                ));
            }
            if state is Aborted {
                assert forall|s2: SearchState| !(s2.wf() && s2.models(puzzle) && s2.root_decided()) by {
                    if s2.wf() && s2.models(puzzle) {
                        search.lemma_models_same(&s2, puzzle);
                    }
                }
                assert(search.wf() && search.models(puzzle) && states(grid@) == out@ && !is_full(grid@) && agrees(
                    grid@,
                    search.root().1,
                ) && search.propagated(grid@));
            }
        }
        SolveResult { state, grid: out, steps }
    }
}

impl Solver for GraphSearchSolver {
    /// The graph-search solve with every progress hook off.
    fn solve(&self, puzzle: &Puzzle, ctx: &SolveContext) -> (res: SolveResult)
        ensures
            res.state is Invalid <==> !totals_agree(puzzle),
            res.state matches SolutionState::Invalid(m) ==> m@ == totals_message(
                side_total(puzzle.row_clues@) as nat,
                side_total(puzzle.col_clues@) as nat,
            ),
            res.state is Invalid ==> res.grid@.len() == 0 && res.steps@.len() == 0 && forall|g: Seq<CellState>|
                !puzzle.solved_by(g),
            !(res.state is Invalid) ==> {
                &&& res.state is Complete || res.state is Unsolvable || res.state is Aborted
                &&& res.grid@.len() == puzzle.width * puzzle.height
                &&& replay(blank((puzzle.width * puzzle.height) as nat), puzzle.width as nat, res.steps@) == res.grid@
                &&& trace_ok(blank((puzzle.width * puzzle.height) as nat), puzzle.width as nat, res.steps@)
            },
            res.state is Complete ==> puzzle.solved_by(res.grid@),
            res.state is Unsolvable ==> forall|g: Seq<CellState>| !puzzle.solved_by(g),
            propagation_decides(puzzle) ==> !(res.state is Aborted),
            propagation_decides(puzzle) && totals_agree(puzzle) ==> propagated_result(puzzle, res.grid@, res.steps@),
            res.state is Unsolvable ==> propagated_result(puzzle, res.grid@, res.steps@),
            res.state is Aborted ==> !propagation_decides(puzzle) && search_node(puzzle, res.grid@),
    {
        let config = ProgressConfig { log_steps: false, log_meta_interval: None, snapshot_interval: None };
        // With snapshots off the callback is never invoked.
        let mut ignore = |_u: ProgressUpdate| {};
        self.solve_with_progress(puzzle, ctx, &config, Some(&mut ignore))
    }
}

impl ExhaustiveSolver for GraphSearchSolver {
    /// Every solution of the puzzle, each with its trace. Mismatched clue
    /// totals give no solutions and zero counts. Unless the search was
    /// cancelled, every grid that solves the puzzle is among the results.
    fn solve_all(&self, puzzle: &Puzzle, ctx: &SolveContext) -> (res: AllSolutions)
        ensures
            !totals_agree(puzzle) ==> res.solutions@.len() == 0 && res.nodes_expanded == 0 && res.nodes_pushed
                == 0 && !res.aborted,
            forall|k: int|
                0 <= k < res.solutions@.len() ==> {
                    &&& (#[trigger] res.solutions@[k]).state is Complete
                    &&& puzzle.solved_by(res.solutions@[k].grid@)
                    &&& replay(blank((puzzle.width * puzzle.height) as nat), puzzle.width as nat, res.solutions@[k].steps@)
                        == res.solutions@[k].grid@
                    &&& trace_ok(blank((puzzle.width * puzzle.height) as nat), puzzle.width as nat, res.solutions@[k].steps@)
                },
            !res.aborted ==> forall|g: Seq<CellState>|
                #[trigger] puzzle.solved_by(g) ==> exists|k: int|
                    0 <= k < res.solutions@.len() && (#[trigger] res.solutions@[k]).grid@ == g,
            forall|i: int, j: int|
                0 <= i < res.solutions@.len() && 0 <= j < res.solutions@.len() && i != j ==> (
                #[trigger] res.solutions@[i]).grid@ != (#[trigger] res.solutions@[j]).grid@,
            res.nodes_expanded <= res.nodes_pushed,
            propagation_decides(puzzle) ==> !res.aborted && res.nodes_expanded == 0 && res.nodes_pushed == 0,
            res.aborted ==> !propagation_decides(puzzle) && res.nodes_expanded >= 1,
    {
        if !clue_totals_match(puzzle) {
            proof {
                lemma_mismatch_unsolvable(puzzle);
            }
            return AllSolutions { solutions: Vec::new(), nodes_expanded: 0, nodes_pushed: 0, aborted: false };
        }
        let search = SearchState::from_puzzle(puzzle);
        let cancelled = || ctx.cancel.is_cancelled();
        let (found, nodes_expanded, nodes_pushed, aborted) = search.solve_all_counted(&cancelled);
        proof {
            if propagation_decides(puzzle) {
                let s2 = choose|s2: SearchState| s2.wf() && s2.models(puzzle) && s2.root_decided();
                search.lemma_models_same(&s2, puzzle);
            }
            if aborted {
                assert forall|s2: SearchState| !(s2.wf() && s2.models(puzzle) && s2.root_decided()) by {
                    if s2.wf() && s2.models(puzzle) {
                        search.lemma_models_same(&s2, puzzle);
                    }
                }
            }
        }
        proof {
            assert(search.size() == puzzle.width * puzzle.height) by (nonlinear_arith)
                requires
                    search.rows == puzzle.height,
                    search.cols == puzzle.width,
            ;
        }
        proof {
            if !search.all_nonzero() {
                if found@.len() > 0 {
                    search.lemma_zero_clue_unsolvable(found@[0].0@);
                }
            }
        }
        let mut solutions: Vec<SolveResult> = Vec::new();
        let mut i: usize = 0;
        while i < found.len()
            invariant
                search.wf(),
                search.models(puzzle),
                search.size() == puzzle.width * puzzle.height,
                search.found_ok(found@),
                distinct_grids(found@),
                i <= found@.len(),
                solutions@.len() == i,
                forall|k: int|
                    0 <= k < i ==> {
                        &&& (#[trigger] solutions@[k]).state is Complete
                        &&& solutions@[k].grid@ == states(found@[k].0@)
                        &&& replay(blank((puzzle.width * puzzle.height) as nat), puzzle.width as nat, solutions@[k].steps@)
                            == solutions@[k].grid@
                        &&& trace_ok(blank((puzzle.width * puzzle.height) as nat), puzzle.width as nat, solutions@[k].steps@)
                    },
            decreases found@.len() - i,
        {
            let grid = grid_states(&found[i].0);
            let steps = copy_steps(&found[i].1);
            proof {
                crate::search::lemma_replay_same_changes(
                    blank(search.size()),
                    search.cols as nat,
                    steps@,
                    found@[i as int].1@,
                );
                crate::types::lemma_trace_same(blank(search.size()), search.cols as nat, found@[i as int].1@, steps@);
            }
            solutions.push(SolveResult { state: SolutionState::Complete, grid, steps });
            i += 1;
        }
        proof {
            assert forall|k: int| 0 <= k < solutions@.len() implies puzzle.solved_by(
                (#[trigger] solutions@[k]).grid@,
            ) by {
                search.lemma_solves_iff(puzzle, found@[k].0@);
            }
            {
                assert forall|a: int, c: int|
                    0 <= a < solutions@.len() && 0 <= c < solutions@.len() && a != c implies (
                    #[trigger] solutions@[a]).grid@ != (#[trigger] solutions@[c]).grid@ by {
                    assert(found@[a].0@ != found@[c].0@);
                    if states(found@[a].0@) == states(found@[c].0@) {
                        lemma_states_injective(found@[a].0@, found@[c].0@);
                    }
                }
            }
            if !aborted {
                assert forall|g: Seq<CellState>| #[trigger] puzzle.solved_by(g) implies exists|k: int|
                    0 <= k < solutions@.len() && (#[trigger] solutions@[k]).grid@ == g by {
                    lemma_states_cells_of(g);
                    search.lemma_solves_iff(puzzle, cells_of(g));
                    assert(found_has(found@, cells_of(g)));
                    let k = choose|k: int| 0 <= k < found@.len() && (#[trigger] found@[k]).0@ == cells_of(g);
                    assert(solutions@[k].grid@ == g);
                }
            }
        }
        AllSolutions { solutions, nodes_expanded, nodes_pushed, aborted }
    }
}

} // verus!
