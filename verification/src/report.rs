//! The text the command-line solver prints for a solve: the grid, the
//! check against a known solution, and the summary of an exhaustive search.
use vstd::prelude::*;
use crate::convert::owned;
use crate::text::{chars_to_string, decimal, extend_decimal, extend_str};
use crate::types::{AllSolutions, CellState, Puzzle, SolutionState, SolveResult};

verus! {

/// The character of a cell: `#` filled; an empty cell is `.` in a
/// finished grid and `x` otherwise; an unknown cell is `.`.
pub open spec fn cell_glyph(c: CellState, complete: bool) -> char {
    match c {
        CellState::Filled => '#',
        CellState::Empty => if complete { '.' } else { 'x' },
        CellState::Unknown => '.',
    }
}

/// The text of a row of cells.
pub open spec fn row_text(cells: Seq<CellState>, complete: bool) -> Seq<char> {
    cells.map_values(|c: CellState| cell_glyph(c, complete))
}

/// The lines of a `w`-wide grid, its first `h` rows.
pub open spec fn grid_text(g: Seq<CellState>, w: nat, h: nat, complete: bool) -> Seq<Seq<char>> {
    Seq::new(h, |r: int| row_text(g.subrange(r * w, (r + 1) * w), complete))
}

/// The views of a list of strings.
pub open spec fn string_views(v: Seq<String>) -> Seq<Seq<char>> {
    v.map_values(|s: String| s@)
}

/// The text of one row.
fn row_string(g: &[CellState], from: usize, to: usize, complete: bool) -> (s: String)
    requires
        from <= to <= g@.len(),
    ensures
        s@ == row_text(g@.subrange(from as int, to as int), complete),
{
    let mut v: Vec<char> = Vec::new();
    let mut i = from;
    while i < to
        invariant
            from <= i <= to <= g@.len(),
            v@ == row_text(g@.subrange(from as int, i as int), complete),
        decreases to - i,
    {
        let c = match g[i] {
            CellState::Filled => '#',
            CellState::Empty => if complete { '.' } else { 'x' },
            CellState::Unknown => '.',
        };
        v.push(c);
        i += 1;
        assert(v@ =~= row_text(g@.subrange(from as int, i as int), complete));
    }
    chars_to_string(v.as_slice())
}

/// The grid as text, one string per row.
pub fn grid_lines(puzzle: &Puzzle, grid: &[CellState], complete: bool) -> (r: Vec<String>)
    requires
        puzzle.width * puzzle.height <= grid@.len(),
    ensures
        string_views(r@) == grid_text(grid@, puzzle.width as nat, puzzle.height as nat, complete),
{
    let w = puzzle.width;
    let h = puzzle.height;
    let n = grid.len();
    let mut out: Vec<String> = Vec::new();
    let mut r: usize = 0;
    while r < h
        invariant
            r <= h,
            n == grid@.len(),
            w == puzzle.width,
            h == puzzle.height,
            w * h <= grid@.len(),
            string_views(out@) == grid_text(grid@, w as nat, h as nat, complete).take(r as int),
        decreases h - r,
    {
        assert(r * w + w <= w * h) by (nonlinear_arith)
            requires
                r < h,
        ;
        assert(r * w + w == (r + 1) * w) by (nonlinear_arith);
        assert(r * w <= r * w + w);
        let line = row_string(grid, r * w, r * w + w, complete);
        let ghost before = string_views(out@);
        out.push(line);
        r += 1;
        assert(string_views(out@) =~= grid_text(grid@, w as nat, h as nat, complete).take(r as int)) by {
            assert(string_views(out@) =~= before.push(line@));
        }
    }
    assert(grid_text(grid@, w as nat, h as nat, complete).take(h as int) =~= grid_text(
        grid@,
        w as nat,
        h as nat,
        complete,
    ));
    out
}

/// The `(row, column)` of each of the first `n` cells of `g` that differ
/// from `sol`, in order.
pub open spec fn differing(g: Seq<CellState>, sol: Seq<CellState>, w: nat, n: nat) -> Seq<(usize, usize)>
    decreases n,
{
    if n == 0 {
        Seq::empty()
    } else {
        let i = (n - 1) as nat;
        differing(g, sol, w, i) + (if g[i as int] != sol[i as int] {
            seq![((i / w) as usize, (i % w) as usize)]
        } else {
            Seq::empty()
        })
    }
}

/// The check of a grid against the puzzle's known solution: `None` when
/// there is none or the grid agrees with it, else the differing cells.
pub open spec fn mismatch_model(sol: Option<Seq<CellState>>, g: Seq<CellState>, w: nat) -> Option<
    Seq<(usize, usize)>,
> {
    match sol {
        None => None,
        Some(s) => {
            let d = differing(g, s, w, g.len());
            if d.len() == 0 { None } else { Some(d) }
        },
    }
}

/// The `(row, column)` of cell `i` of a row-major grid of width `w`.
pub open spec fn cell_pos(i: nat, w: nat) -> (usize, usize) {
    ((i / w) as usize, (i % w) as usize)
}

/// The index in a row-major grid of width `w` of the cell at `pos`.
pub open spec fn flat_index(pos: (usize, usize), w: nat) -> int {
    pos.0 * w + pos.1
}

proof fn lemma_cell_pos_flat(i: nat, w: nat)
    requires
        w > 0,
        i <= usize::MAX,
    ensures
        flat_index(cell_pos(i, w), w) == i,
{
    vstd::arithmetic::div_mod::lemma_fundamental_div_mod(i as int, w as int);
    vstd::arithmetic::div_mod::lemma_div_pos_is_pos(i as int, w as int);
    vstd::arithmetic::div_mod::lemma_div_is_ordered_by_denominator(i as int, 1, w as int);
    vstd::arithmetic::div_mod::lemma_mod_bound(i as int, w as int);
    vstd::arithmetic::div_mod::lemma_mod_decreases(i, w);
    let q = i / w;
    let r = i % w;
    assert(w * q == q * w) by (nonlinear_arith);
    assert(cell_pos(i, w).0 == q);
    assert(cell_pos(i, w).1 == r);
}

proof fn lemma_differing(g: Seq<CellState>, sol: Seq<CellState>, w: nat, n: nat)
    requires
        n <= g.len(),
        n <= sol.len(),
        g.len() <= usize::MAX,
    ensures
        w > 0 ==> forall|j1: int, j2: int|
            0 <= j1 < j2 < differing(g, sol, w, n).len() ==> flat_index(#[trigger] differing(g, sol, w, n)[j1], w)
                < flat_index(#[trigger] differing(g, sol, w, n)[j2], w),
        w > 0 ==> forall|j: int|
            0 <= j < differing(g, sol, w, n).len() ==> flat_index(#[trigger] differing(g, sol, w, n)[j], w) < n,
        differing(g, sol, w, n).len() == 0 <==> forall|i: int| 0 <= i < n ==> g[i] == sol[i],
        forall|i: nat| i < n && g[i as int] != sol[i as int] ==> #[trigger] differing(g, sol, w, n).contains(
            cell_pos(i, w),
        ),
        forall|j: int|
            0 <= j < differing(g, sol, w, n).len() ==> exists|i: nat|
                i < n && g[i as int] != sol[i as int] && #[trigger] differing(g, sol, w, n)[j] == cell_pos(i, w),
    decreases n,
{
    if n > 0 {
        let m = (n - 1) as nat;
        lemma_differing(g, sol, w, m);
        let d0 = differing(g, sol, w, m);
        let d = differing(g, sol, w, n);
        let tail = if g[m as int] != sol[m as int] { seq![cell_pos(m, w)] } else { Seq::<(usize, usize)>::empty() };
        assert(d == d0 + tail);
        if w > 0 {
            lemma_cell_pos_flat(m, w);
            assert forall|j: int| 0 <= j < d.len() implies flat_index(#[trigger] d[j], w) < n by {
                if j < d0.len() {
                    assert(d[j] == d0[j]);
                } else {
                    assert(d[j] == cell_pos(m, w));
                }
            }
            assert forall|j1: int, j2: int| 0 <= j1 < j2 < d.len() implies flat_index(#[trigger] d[j1], w) < flat_index(
                #[trigger] d[j2],
                w,
            ) by {
                assert(d[j1] == d0[j1]);
                if j2 < d0.len() {
                    assert(d[j2] == d0[j2]);
                } else {
                    assert(d[j2] == cell_pos(m, w));
                    assert(flat_index(d0[j1], w) < m);
                }
            }
        }
        assert forall|i: nat| i < n && g[i as int] != sol[i as int] implies #[trigger] d.contains(cell_pos(i, w)) by {
            if i < m {
                assert(d0.contains(cell_pos(i, w)));
                let j = choose|j: int| 0 <= j < d0.len() && d0[j] == cell_pos(i, w);
                assert(d[j] == d0[j]);
            } else {
                assert(d[d0.len() as int] == cell_pos(m, w));
            }
        }
        assert forall|j: int| 0 <= j < d.len() implies exists|i: nat|
            i < n && g[i as int] != sol[i as int] && #[trigger] d[j] == cell_pos(i, w) by {
            if j < d0.len() {
                assert(d[j] == d0[j]);
                let i = choose|i: nat| i < m && g[i as int] != sol[i as int] && #[trigger] d0[j] == cell_pos(i, w);
                assert(d[j] == cell_pos(i, w));
            } else {
                assert(d[j] == cell_pos(m, w));
            }
        }
        if d.len() == 0 {
            assert forall|i: int| 0 <= i < n implies g[i] == sol[i] by {
                if g[i] != sol[i] {
                    if i < m {
                        assert(d0.len() == 0);
                    } else {
                        assert(tail.len() == 1);
                    }
                }
            }
        }
        if forall|i: int| 0 <= i < n ==> g[i] == sol[i] {
            assert(g[m as int] == sol[m as int]);
        }
    }
}

/// What checking a grid against a known solution reports: nothing exactly
/// when every cell of the grid equals the solution's cell, and otherwise
/// the `(row, column)` of every cell that differs and of no other cell, in
/// the grid's row-major order.
pub proof fn lemma_mismatch_law(sol: Seq<CellState>, g: Seq<CellState>, w: nat)
    requires
        g.len() <= sol.len(),
        g.len() <= usize::MAX,
    ensures
        w > 0 ==> (mismatch_model(Some(sol), g, w) matches Some(v) ==> forall|j1: int, j2: int|
            0 <= j1 < j2 < v.len() ==> flat_index(#[trigger] v[j1], w) < flat_index(#[trigger] v[j2], w)),
        mismatch_model(None, g, w) is None,
        mismatch_model(Some(sol), g, w) is None <==> forall|i: int| 0 <= i < g.len() ==> g[i] == sol[i],
        forall|i: nat|
            i < g.len() && g[i as int] != sol[i as int] ==> (mismatch_model(Some(sol), g, w) matches Some(v)
                && v.contains(cell_pos(i, w))),
        mismatch_model(Some(sol), g, w) matches Some(v) ==> forall|j: int|
            0 <= j < v.len() ==> exists|i: nat| i < g.len() && g[i as int] != sol[i as int] && #[trigger] v[j] == cell_pos(i, w),
{
    lemma_differing(g, sol, w, g.len());
    assert forall|i: nat|
        i < g.len() && g[i as int] != sol[i as int] implies (mismatch_model(Some(sol), g, w) matches Some(v)
            && v.contains(cell_pos(i, w))) by {
        assert(differing(g, sol, w, g.len()).contains(cell_pos(i, w)));
    }
}

/// The cells where `grid` differs from the puzzle's known solution; `None`
/// when the puzzle has no solution or the grid matches it.
pub fn solution_mismatches(puzzle: &Puzzle, grid: &[CellState]) -> (r: Option<Vec<(usize, usize)>>)
    requires
        match puzzle.solution {
            Some(s) => grid@.len() <= s@.len() && (puzzle.width > 0 || forall|i: int|
                0 <= i < grid@.len() ==> grid@[i] == s@[i]),
            None => true,
        },
    ensures
        match r {
            Some(v) => mismatch_model(crate::types::opt_cells(puzzle.solution), grid@, puzzle.width as nat) == Some(
                v@,
            ),
            None => mismatch_model(crate::types::opt_cells(puzzle.solution), grid@, puzzle.width as nat) is None,
        },
        puzzle.solution is None ==> r is None,
        puzzle.solution matches Some(s) ==> (r is None <==> forall|i: int| 0 <= i < grid@.len() ==> grid@[i] == s@[i]),
        puzzle.solution matches Some(s) ==> forall|i: nat|
            i < grid@.len() && grid@[i as int] != s@[i as int] ==> (r matches Some(v) && v@.contains(
                cell_pos(i, puzzle.width as nat),
            )),
        puzzle.width > 0 ==> (r matches Some(v) ==> forall|j1: int, j2: int|
            0 <= j1 < j2 < v@.len() ==> flat_index(#[trigger] v@[j1], puzzle.width as nat) < flat_index(
                #[trigger] v@[j2],
                puzzle.width as nat,
            )),
        puzzle.solution matches Some(s) ==> (r matches Some(v) ==> forall|j: int|
            0 <= j < v@.len() ==> exists|i: nat|
                i < grid@.len() && grid@[i as int] != s@[i as int] && #[trigger] v@[j] == cell_pos(i, puzzle.width as nat)),
{
    let _len = grid.len();
    proof {
        if puzzle.solution is Some {
            lemma_mismatch_law(puzzle.solution->0@, grid@, puzzle.width as nat);
        }
    }
    let sol = match &puzzle.solution {
        Some(s) => s,
        None => {
            return None;
        },
    };
    let w = puzzle.width;
    let mut out: Vec<(usize, usize)> = Vec::new();
    let mut i: usize = 0;
    while i < grid.len()
        invariant
            i <= grid@.len(),
            grid@.len() <= sol@.len(),
            w == puzzle.width,
            w > 0 || forall|k: int| 0 <= k < grid@.len() ==> grid@[k] == sol@[k],
            out@ == differing(grid@, sol@, w as nat, i as nat),
        decreases grid@.len() - i,
    {
        if grid[i] != sol[i] {
            out.push((i / w, i % w));
        }
        i += 1;
    }
    if out.len() == 0 {
        None
    } else {
        Some(out)
    }
}

/// `"=== {name} ({w}×{h}) ==="`.
pub open spec fn heading(p: Seq<char>, w: nat, h: nat) -> Seq<char> {
    "=== "@ + p + " ("@ + decimal(w) + "×"@ + decimal(h) + ") ==="@
}

/// The lines reporting the check against a known solution.
pub open spec fn check_lines(m: Option<Seq<(usize, usize)>>, has_solution: bool) -> Seq<Seq<char>> {
    match m {
        Some(d) => seq!["WRONG: "@ + decimal(d.len()) + " cell(s) differ from known solution:"@] + d.map_values(
            |rc: (usize, usize)| "  row="@ + decimal(rc.0 as nat) + " col="@ + decimal(rc.1 as nat),
        ),
        None => if has_solution { seq!["Verified correct."@] } else { Seq::empty() },
    }
}

/// The report of one solve.
pub open spec fn result_text(p: crate::types::PuzzleModel, state: SolutionState, g: Seq<CellState>) -> Seq<
    Seq<char>,
> {
    let head = seq![heading(p.name, p.width, p.height)];
    let body = match state {
        SolutionState::Complete => seq!["Solved."@] + grid_text(g, p.width, p.height, true) + check_lines(
            mismatch_model(p.solution, g, p.width),
            p.solution is Some,
        ) + match p.answer {
            Some(a) => seq!["Answer: "@ + a],
            None => Seq::empty(),
        },
        SolutionState::Partial => seq!["Partial — no further progress:"@] + grid_text(g, p.width, p.height, false),
        SolutionState::Unsolvable => seq!["No solution exists."@] + grid_text(g, p.width, p.height, false),
        SolutionState::Aborted => seq!["Aborted — partial grid:"@] + grid_text(g, p.width, p.height, false),
        SolutionState::Invalid(reason) => seq!["Invalid puzzle — "@ + reason@],
    };
    head + body + seq![Seq::<char>::empty()]
}

/// `"=== {name} ({w}×{h}) ==="`.
fn heading_string(puzzle: &Puzzle) -> (s: String)
    ensures
        s@ == heading(puzzle.name@, puzzle.width as nat, puzzle.height as nat),
{
    let mut v: Vec<char> = Vec::new();
    extend_str(&mut v, "=== ");
    extend_str(&mut v, puzzle.name.as_str());
    extend_str(&mut v, " (");
    extend_decimal(&mut v, puzzle.width as u64);
    extend_str(&mut v, "×");
    extend_decimal(&mut v, puzzle.height as u64);
    extend_str(&mut v, ") ===");
    chars_to_string(v.as_slice())
}

/// Appends the lines of a check against the known solution.
fn push_check_lines(out: &mut Vec<String>, m: &Option<Vec<(usize, usize)>>, has_solution: bool)
    ensures
        string_views(final(out)@) == string_views(old(out)@) + check_lines(
            match m {
                Some(d) => Some(d@),
                None => None,
            },
            has_solution,
        ),
{
    let ghost o = string_views(old(out)@);
    match m {
        Some(d) => {
            let mut v: Vec<char> = Vec::new();
            extend_str(&mut v, "WRONG: ");
            extend_decimal(&mut v, d.len() as u64);
            extend_str(&mut v, " cell(s) differ from known solution:");
            out.push(chars_to_string(v.as_slice()));
            let ghost lines = d@.map_values(
                |rc: (usize, usize)| "  row="@ + decimal(rc.0 as nat) + " col="@ + decimal(rc.1 as nat),
            );
            let ghost first = v@;
            let mut k: usize = 0;
            while k < d.len()
                invariant
                    k <= d@.len(),
                    string_views(out@) == o + seq![first] + lines.take(k as int),
                    lines == d@.map_values(
                        |rc: (usize, usize)| "  row="@ + decimal(rc.0 as nat) + " col="@ + decimal(rc.1 as nat),
                    ),
                decreases d@.len() - k,
            {
                let (r, c) = d[k];
                let mut t: Vec<char> = Vec::new();
                extend_str(&mut t, "  row=");
                extend_decimal(&mut t, r as u64);
                extend_str(&mut t, " col=");
                extend_decimal(&mut t, c as u64);
                let ghost before = string_views(out@);
                out.push(chars_to_string(t.as_slice()));
                k += 1;
                assert(string_views(out@) =~= before.push(t@));
                assert(string_views(out@) =~= o + seq![first] + lines.take(k as int));
            }
            assert(lines.take(d@.len() as int) =~= lines);
            assert(string_views(out@) =~= o + (seq![first] + lines));
        },
        None => {
            if has_solution {
                let ghost before = string_views(out@);
                out.push(owned("Verified correct."));
                assert(string_views(out@) =~= before.push("Verified correct."@));
            } else {
                assert(string_views(out@) =~= o + Seq::<Seq<char>>::empty());
            }
        },
    }
}

/// Appends the strings of `more`.
fn append_lines(out: &mut Vec<String>, more: Vec<String>)
    ensures
        string_views(final(out)@) == string_views(old(out)@) + string_views(more@),
{
    let ghost o = string_views(old(out)@);
    let ghost m = string_views(more@);
    let mut k: usize = 0;
    while k < more.len()
        invariant
            k <= more@.len(),
            m == string_views(more@),
            string_views(out@) == o + m.take(k as int),
        decreases more@.len() - k,
    {
        let ghost before = string_views(out@);
        let s = owned(more[k].as_str());
        assert(m[k as int] == more@[k as int]@);
        out.push(s);
        assert(string_views(out@) =~= before.push(m[k as int]));
        k += 1;
        assert(string_views(out@) =~= o + m.take(k as int));
    }
    assert(m.take(more@.len() as int) =~= m);
}

/// The report printed for one solve.
pub fn result_lines(puzzle: &Puzzle, result: &SolveResult) -> (r: Vec<String>)
    requires
        puzzle.width * puzzle.height <= result.grid@.len() || result.state is Invalid,
        puzzle.width > 0 || result.grid@.len() == 0,
        match puzzle.solution {
            Some(s) => result.grid@.len() <= s@.len(),
            None => true,
        },
    ensures
        string_views(r@) == result_text(puzzle@, result.state, result.grid@),
{
    let mut out: Vec<String> = Vec::new();
    out.push(heading_string(puzzle));
    let ghost head = seq![heading(puzzle.name@, puzzle.width as nat, puzzle.height as nat)];
    assert(string_views(out@) =~= head);
    let ghost pm = puzzle@;
    let ghost g = result.grid@;
    match &result.state {
        SolutionState::Complete => {
            out.push(owned("Solved."));
            append_lines(&mut out, grid_lines(puzzle, result.grid.as_slice(), true));
            let m = solution_mismatches(puzzle, result.grid.as_slice());
            push_check_lines(&mut out, &m, puzzle.solution.is_some());
            let ghost mid = string_views(out@);
            assert(mid =~= head + seq!["Solved."@] + grid_text(g, pm.width, pm.height, true) + check_lines(
                mismatch_model(pm.solution, g, pm.width),
                pm.solution is Some,
            ));
            match &puzzle.answer {
                Some(a) => {
                    let mut v: Vec<char> = Vec::new();
                    extend_str(&mut v, "Answer: ");
                    extend_str(&mut v, a.as_str());
                    out.push(chars_to_string(v.as_slice()));
                    assert(string_views(out@) =~= mid.push(v@));
                },
                None => {},
            }
        },
        SolutionState::Partial => {
            out.push(owned("Partial — no further progress:"));
            append_lines(&mut out, grid_lines(puzzle, result.grid.as_slice(), false));
        },
        SolutionState::Unsolvable => {
            out.push(owned("No solution exists."));
            append_lines(&mut out, grid_lines(puzzle, result.grid.as_slice(), false));
        },
        SolutionState::Aborted => {
            out.push(owned("Aborted — partial grid:"));
            append_lines(&mut out, grid_lines(puzzle, result.grid.as_slice(), false));
        },
        SolutionState::Invalid(reason) => {
            let mut v: Vec<char> = Vec::new();
            extend_str(&mut v, "Invalid puzzle — ");
            extend_str(&mut v, reason.as_str());
            out.push(chars_to_string(v.as_slice()));
        },
    }
    let ghost before_end = string_views(out@);
    out.push(String::new());
    assert(string_views(out@) =~= before_end.push(Seq::<char>::empty()));
    assert(string_views(out@) =~= result_text(puzzle@, result.state, result.grid@));
    out
}


/// `"=== {name} ({w}×{h}) — solution {k}/{n} ==="`.
pub open spec fn solution_heading(p: Seq<char>, w: nat, h: nat, k: nat, n: nat) -> Seq<char> {
    "=== "@ + p + " ("@ + decimal(w) + "×"@ + decimal(h) + ") — solution "@ + decimal(k) + "/"@ + decimal(n)
        + " ==="@
}

/// The lines of the `k`-th of `n` solutions.
pub open spec fn solution_block(p: crate::types::PuzzleModel, g: Seq<CellState>, k: nat, n: nat) -> Seq<Seq<char>> {
    seq![solution_heading(p.name, p.width, p.height, k, n)] + grid_text(g, p.width, p.height, true) + check_lines(
        mismatch_model(p.solution, g, p.width),
        p.solution is Some,
    ) + seq![Seq::<char>::empty()]
}

/// The blocks of the first `k` solutions.
pub open spec fn solution_blocks(p: crate::types::PuzzleModel, sols: Seq<SolveResult>, k: nat) -> Seq<Seq<char>>
    decreases k,
{
    if k == 0 {
        Seq::empty()
    } else {
        solution_blocks(p, sols, (k - 1) as nat) + solution_block(p, sols[k - 1].grid@, k, sols.len())
    }
}

/// The report of an exhaustive search.
pub open spec fn all_text(p: crate::types::PuzzleModel, sols: Seq<SolveResult>, aborted: bool, expanded: nat) -> Seq<
    Seq<char>,
> {
    let n = sols.len();
    if n == 0 {
        seq![
            heading(p.name, p.width, p.height),
            if aborted { "Search aborted — no solution found yet."@ } else { "No solution found."@ },
            Seq::<char>::empty(),
        ]
    } else {
        let label = if n == 1 { "solution"@ } else { "solutions"@ };
        solution_blocks(p, sols, n) + seq![
            decimal(n) + " "@ + label + (if aborted { " found (search aborted).  nodes_expanded: "@ } else {
                " found.  nodes_expanded: "@
            }) + decimal(expanded),
            Seq::<char>::empty(),
        ]
    }
}

/// The solutions' grids fit the puzzle: each has a cell per grid position
/// and, with a known solution, no more cells than it.
pub open spec fn grids_fit(p: &Puzzle, sols: Seq<SolveResult>) -> bool {
    forall|i: int|
        0 <= i < sols.len() ==> {
            &&& p.width * p.height <= (#[trigger] sols[i]).grid@.len()
            &&& p.width > 0 || sols[i].grid@.len() == 0
            &&& match p.solution {
                Some(s) => sols[i].grid@.len() <= s@.len(),
                None => true,
            }
        }
}

/// The report printed for an exhaustive search.
pub fn all_solutions_lines(puzzle: &Puzzle, all: &AllSolutions) -> (r: Vec<String>)
    requires
        grids_fit(puzzle, all.solutions@),
    ensures
        string_views(r@) == all_text(puzzle@, all.solutions@, all.aborted, all.nodes_expanded as nat),
{
    let n = all.solutions.len();
    let mut out: Vec<String> = Vec::new();
    if n == 0 {
        out.push(heading_string(puzzle));
        if all.aborted {
            out.push(owned("Search aborted — no solution found yet."));
        } else {
            out.push(owned("No solution found."));
        }
        out.push(String::new());
        assert(string_views(out@) =~= all_text(puzzle@, all.solutions@, all.aborted, all.nodes_expanded as nat));
        return out;
    }
    let ghost pm = puzzle@;
    let ghost sols = all.solutions@;
    let mut i: usize = 0;
    while i < n
        invariant
            i <= n,
            n == sols.len(),
            sols == all.solutions@,
            pm == puzzle@,
            grids_fit(puzzle, sols),
            string_views(out@) == solution_blocks(pm, sols, i as nat),
        decreases n - i,
    {
        let sol = &all.solutions[i];
        assert(sol == sols[i as int]);
        let ghost before = string_views(out@);
        let mut v: Vec<char> = Vec::new();
        extend_str(&mut v, "=== ");
        extend_str(&mut v, puzzle.name.as_str());
        extend_str(&mut v, " (");
        extend_decimal(&mut v, puzzle.width as u64);
        extend_str(&mut v, "×");
        extend_decimal(&mut v, puzzle.height as u64);
        extend_str(&mut v, ") — solution ");
        extend_decimal(&mut v, (i + 1) as u64);
        extend_str(&mut v, "/");
        extend_decimal(&mut v, n as u64);
        extend_str(&mut v, " ===");
        out.push(chars_to_string(v.as_slice()));
        append_lines(&mut out, grid_lines(puzzle, sol.grid.as_slice(), true));
        let m = solution_mismatches(puzzle, sol.grid.as_slice());
        push_check_lines(&mut out, &m, puzzle.solution.is_some());
        let ghost mid = string_views(out@);
        out.push(String::new());
        assert(string_views(out@) =~= mid.push(Seq::<char>::empty()));
        assert(string_views(out@) =~= before + solution_block(pm, sol.grid@, (i + 1) as nat, n as nat));
        i += 1;
    }
    let ghost blocks = string_views(out@);
    let mut v: Vec<char> = Vec::new();
    extend_decimal(&mut v, n as u64);
    extend_str(&mut v, " ");
    if n == 1 {
        extend_str(&mut v, "solution");
    } else {
        extend_str(&mut v, "solutions");
    }
    if all.aborted {
        extend_str(&mut v, " found (search aborted).  nodes_expanded: ");
    } else {
        extend_str(&mut v, " found.  nodes_expanded: ");
    }
    extend_decimal(&mut v, all.nodes_expanded as u64);
    out.push(chars_to_string(v.as_slice()));
    out.push(String::new());
    assert(string_views(out@) =~= blocks + seq![v@, Seq::<char>::empty()]);
    assert(v@ =~= all_text(puzzle@, all.solutions@, all.aborted, all.nodes_expanded as nat)[blocks.len() as int]);
    out
}

} // verus!
