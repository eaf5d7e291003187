//! Status lines: what the solvers found for a focused puzzle, or how far a
//! hand solve has come, and the closing line of a batch of solves.
use vstd::prelude::*;
use crate::text::{chars_to_string, decimal, extend_decimal, extend_str};
use crate::types::{AllSolutions, CellState, SolutionState, SolveResult};

verus! {

/// How a status reads at a glance.
#[derive(Clone, Copy, Debug, PartialEq, Eq, Structural)]
pub enum StatusTone {
    /// Solved, or a unique solution.
    Success,
    /// No solution.
    Failure,
    /// Several solutions, or a partial solve.
    Ambiguous,
    /// Aborted, or an invalid puzzle.
    Warning,
    /// Nothing to report yet.
    Neutral,
}

/// A status line and its tone.
#[derive(Clone, Debug)]
pub struct DetailStatus {
    pub tone: StatusTone,
    pub text: String,
}

/// Number of known cells of `g`.
pub open spec fn known_count(g: Seq<CellState>) -> nat
    decreases g.len(),
{
    if g.len() == 0 {
        0
    } else {
        known_count(g.drop_last()) + if g.last() != CellState::Unknown { 1nat } else { 0nat }
    }
}

proof fn lemma_known_count_bound(g: Seq<CellState>)
    ensures
        known_count(g) <= g.len(),
    decreases g.len(),
{
    if g.len() > 0 {
        lemma_known_count_bound(g.drop_last());
    }
}

/// `"(filled/total)"` for a grid with `known` of `total` cells known.
pub open spec fn progress_text(known: nat, total: nat) -> Seq<char> {
    "("@ + decimal(known) + "/"@ + decimal(total) + ")"@
}

/// The status of a focused puzzle, from the solution list `all` of an
/// exhaustive search (first), the single `result` of a solver, or whether
/// it was solved by hand; `cells` is its number of cells.
pub open spec fn status_of(
    all: Option<AllSolutions>,
    result: Option<SolveResult>,
    manually_solved: bool,
    cells: nat,
) -> (StatusTone, Seq<char>) {
    match all {
        Some(a) => {
            let n = a.solutions@.len();
            let suffix = if a.aborted { " (aborted)"@ } else { Seq::<char>::empty() };
            if n == 0 {
                (StatusTone::Failure, "No solutions"@ + suffix)
            } else if n == 1 {
                (StatusTone::Success, "Unique solution"@ + suffix)
            } else {
                (StatusTone::Ambiguous, decimal(n) + " solutions \u{2014} ambiguous"@ + suffix)
            }
        },
        None => match result {
            Some(r) => match r.state {
                SolutionState::Complete => (StatusTone::Success, "Solved"@),
                SolutionState::Aborted => (StatusTone::Warning, "Aborted "@ + progress_text(known_count(r.grid@), cells)),
                SolutionState::Partial => (StatusTone::Ambiguous, "Partial "@ + progress_text(known_count(r.grid@), cells)),
                SolutionState::Unsolvable => (StatusTone::Failure, "No solution"@),
                SolutionState::Invalid(reason) => (StatusTone::Warning, "Invalid \u{2014} "@ + reason@),
            },
            None => if manually_solved {
                (StatusTone::Success, "Solved"@)
            } else {
                (StatusTone::Neutral, "Not yet solved"@)
            },
        },
    }
}

/// Counts the known cells of a grid.
fn count_known(g: &Vec<CellState>) -> (n: usize)
    ensures
        n == known_count(g@),
{
    let mut n: usize = 0;
    let mut i: usize = 0;
    while i < g.len()
        invariant
            i <= g@.len(),
            n == known_count(g@.take(i as int)),
        decreases g@.len() - i,
    {
        proof {
            assert(g@.take(i + 1).drop_last() =~= g@.take(i as int));
            lemma_known_count_bound(g@.take(i as int));
        }
        if g[i] != CellState::Unknown {
            n += 1;
        }
        i += 1;
    }
    assert(g@.take(g@.len() as int) =~= g@);
    n
}

/// Appends `"(known/total)"`.
fn push_progress(v: &mut Vec<char>, known: usize, total: usize)
    ensures
        final(v)@ == old(v)@ + progress_text(known as nat, total as nat),
{
    extend_str(v, "(");
    extend_decimal(v, known as u64);
    extend_str(v, "/");
    extend_decimal(v, total as u64);
    extend_str(v, ")");
    proof {
        assert(final(v)@ =~= old(v)@ + progress_text(known as nat, total as nat));
    }
}

/// The status of a focused puzzle.
pub fn detail_status(
    all: Option<&AllSolutions>,
    result: Option<&SolveResult>,
    manually_solved: bool,
    cells: usize,
) -> (s: DetailStatus)
    requires
        cells <= u64::MAX,
    ensures
        (s.tone, s.text@) == status_of(
            match all {
                Some(a) => Some(*a),
                None => None,
            },
            match result {
                Some(r) => Some(*r),
                None => None,
            },
            manually_solved,
            cells as nat,
        ),
{
    let mut v: Vec<char> = Vec::new();
    if let Some(a) = all {
        let n = a.solutions.len();
        let tone = if n == 0 {
            extend_str(&mut v, "No solutions");
            StatusTone::Failure
        } else if n == 1 {
            extend_str(&mut v, "Unique solution");
            StatusTone::Success
        } else {
            extend_decimal(&mut v, n as u64);
            extend_str(&mut v, " solutions \u{2014} ambiguous");
            StatusTone::Ambiguous
        };
        if a.aborted {
            extend_str(&mut v, " (aborted)");
        }
        proof {
            let suffix = if a.aborted { " (aborted)"@ } else { Seq::<char>::empty() };
            if n == 0 {
                assert(v@ =~= "No solutions"@ + suffix);
            } else if n == 1 {
                assert(v@ =~= "Unique solution"@ + suffix);
            } else {
                assert(v@ =~= decimal(n as nat) + " solutions \u{2014} ambiguous"@ + suffix);
            }
        }
        return DetailStatus { tone, text: chars_to_string(v.as_slice()) };
    }
    let tone = match result {
        Some(r) => match &r.state {
            SolutionState::Complete => {
                extend_str(&mut v, "Solved");
                StatusTone::Success
            },
            SolutionState::Aborted => {
                extend_str(&mut v, "Aborted ");
                let k = count_known(&r.grid);
                push_progress(&mut v, k, cells);
                StatusTone::Warning
            },
            SolutionState::Partial => {
                extend_str(&mut v, "Partial ");
                let k = count_known(&r.grid);
                push_progress(&mut v, k, cells);
                StatusTone::Ambiguous
            },
            SolutionState::Unsolvable => {
                extend_str(&mut v, "No solution");
                StatusTone::Failure
            },
            SolutionState::Invalid(reason) => {
                extend_str(&mut v, "Invalid \u{2014} ");
                extend_str(&mut v, reason.as_str());
                StatusTone::Warning
            },
        },
        None => if manually_solved {
            extend_str(&mut v, "Solved");
            StatusTone::Success
        } else {
            extend_str(&mut v, "Not yet solved");
            StatusTone::Neutral
        },
    };
    DetailStatus { tone, text: chars_to_string(v.as_slice()) }
}

/// The outcome count of a batch of solves of `total` puzzles.
#[derive(Clone, Copy, Debug)]
pub struct BatchTally {
    pub total: usize,
    pub solved: usize,
    pub aborted: usize,
    pub invalid: usize,
}

/// The closing status line of a batch: solved out of attempted (the
/// puzzles not found invalid up front), then the invalid and aborted
/// counts when there are any.
pub open spec fn batch_summary(t: BatchTally) -> Seq<char> {
    "Done: "@ + decimal(t.solved as nat) + "/"@ + decimal((t.total - t.invalid) as nat) + " solved"@ + (if t.invalid
        > 0 {
        ", "@ + decimal(t.invalid as nat) + " invalid"@
    } else {
        Seq::empty()
    }) + (if t.aborted > 0 {
        ", "@ + decimal(t.aborted as nat) + " aborted"@
    } else {
        Seq::empty()
    })
}

impl BatchTally {
    /// Counts never exceed the batch.
    pub open spec fn wf(&self) -> bool {
        self.solved + self.aborted + self.invalid <= self.total
    }

    /// A batch of `total` puzzles, none done.
    pub fn new(total: usize) -> (t: Self)
        ensures
            t == (BatchTally { total, solved: 0, aborted: 0, invalid: 0 }),
            t.wf(),
    {
        BatchTally { total, solved: 0, aborted: 0, invalid: 0 }
    }

    /// A puzzle found invalid before solving.
    pub fn note_invalid(&mut self)
        requires
            old(self).wf(),
            old(self).solved + old(self).aborted + old(self).invalid < old(self).total,
        ensures
            *final(self) == (BatchTally { invalid: (old(self).invalid + 1) as usize, ..*old(self) }),
            final(self).wf(),
    {
        self.invalid += 1;
    }

    /// A solve that finished in `state`: aborted ones and the rest are
    /// counted apart.
    pub fn note_result(&mut self, state: &SolutionState)
        requires
            old(self).wf(),
            old(self).solved + old(self).aborted + old(self).invalid < old(self).total,
        ensures
            *state is Aborted ==> *final(self) == (BatchTally { aborted: (old(self).aborted + 1) as usize, ..*old(self) }),
            !(*state is Aborted) ==> *final(self) == (BatchTally { solved: (old(self).solved + 1) as usize, ..*old(self) }),
            final(self).wf(),
    {
        match state {
            SolutionState::Aborted => self.aborted += 1,
            _ => self.solved += 1,
        }
    }

    /// The closing status line.
    pub fn summary(&self) -> (s: String)
        requires
            self.wf(),
        ensures
            s@ == batch_summary(*self),
    {
        let mut v: Vec<char> = Vec::new();
        extend_str(&mut v, "Done: ");
        extend_decimal(&mut v, self.solved as u64);
        extend_str(&mut v, "/");
        extend_decimal(&mut v, (self.total - self.invalid) as u64);
        extend_str(&mut v, " solved");
        if self.invalid > 0 {
            extend_str(&mut v, ", ");
            extend_decimal(&mut v, self.invalid as u64);
            extend_str(&mut v, " invalid");
        }
        if self.aborted > 0 {
            extend_str(&mut v, ", ");
            extend_decimal(&mut v, self.aborted as u64);
            extend_str(&mut v, " aborted");
        }
        proof {
            assert(v@ =~= batch_summary(*self));
        }
        chars_to_string(v.as_slice())
    }
}

} // verus!
