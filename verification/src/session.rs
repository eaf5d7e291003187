//! Per-session state of the puzzle browser that carries no drawing: loaded
//! files, per-puzzle timers, and the crosshair that follows the cursor over
//! the grid's regions.
use vstd::prelude::*;
use crate::parse::ParsedPuzzle;
use crate::text::{chars_to_string, decimal, digit_char, extend_decimal};

verus! {

/// A puzzle file that was loaded into the browser.
pub struct LoadedFile {
    pub path: String,
    pub name: String,
    pub folder: Option<String>,
    pub auto_loaded: bool,
    pub puzzles: Vec<ParsedPuzzle>,
    pub collapsed: bool,
}

/// The solving clock of one puzzle.
#[derive(Debug, Clone)]
pub struct TimerState {
    pub elapsed_secs: u64,
    pub running: bool,
}

impl Default for TimerState {
    /// A stopped clock at zero.
    fn default() -> (r: Self)
        ensures
            r.elapsed_secs == 0,
            !r.running,
    {
        TimerState { elapsed_secs: 0, running: false }
    }
}

/// Two-digit rendering of a value below one hundred.
pub open spec fn two_digits(n: nat) -> Seq<char> {
    if n < 10 {
        seq!['0', digit_char(n)]
    } else {
        decimal(n)
    }
}

/// The clock text of `s` seconds: `h:mm:ss` from one hour on, else `m:ss`.
pub open spec fn clock_text(s: nat) -> Seq<char> {
    let h = s / 3600;
    let m = (s % 3600) / 60;
    let sec = s % 60;
    if h > 0 {
        decimal(h) + ":"@ + two_digits(m) + ":"@ + two_digits(sec)
    } else {
        decimal(m) + ":"@ + two_digits(sec)
    }
}

/// Appends the two-digit rendering of `n < 100`.
fn extend_two_digits(v: &mut Vec<char>, n: u64)
    requires
        n < 100,
    ensures
        final(v)@ == old(v)@ + two_digits(n as nat),
{
    if n < 10 {
        v.push('0');
        extend_decimal(v, n);
        assert(decimal(n as nat) == seq![digit_char(n as nat)]);
        assert(final(v)@ =~= old(v)@ + two_digits(n as nat)) by {
            assert(old(v)@.push('0') + seq![digit_char(n as nat)] =~= old(v)@ + seq!['0', digit_char(n as nat)]);
        }
    } else {
        extend_decimal(v, n);
    }
}

impl TimerState {
    /// One second passes: a running clock counts it, a stopped one does not.
    pub fn tick(&mut self)
        requires
            old(self).running ==> old(self).elapsed_secs < u64::MAX,
        ensures
            final(self).running == old(self).running,
            final(self).elapsed_secs == if old(self).running {
                old(self).elapsed_secs + 1
            } else {
                old(self).elapsed_secs as int
            },
    {
        if self.running {
            self.elapsed_secs = self.elapsed_secs + 1;
        }
    }

    /// The clock as shown beside the puzzle.
    pub fn label(&self) -> (r: String)
        ensures
            r@ == clock_text(self.elapsed_secs as nat),
    {
        let s = self.elapsed_secs;
        let h = s / 3600;
        let m = (s % 3600) / 60;
        let sec = s % 60;
        let mut v: Vec<char> = Vec::new();
        proof {
            reveal_strlit(":");
            assert(":"@ =~= seq![':']);
        }
        if h > 0 {
            extend_decimal(&mut v, h);
            v.push(':');
            extend_two_digits(&mut v, m);
            v.push(':');
            extend_two_digits(&mut v, sec);
            assert(v@ =~= clock_text(s as nat));
        } else {
            extend_decimal(&mut v, m);
            v.push(':');
            extend_two_digits(&mut v, sec);
            assert(v@ =~= clock_text(s as nat));
        }
        chars_to_string(v.as_slice())
    }
}

/// The region of the grid view under the cursor.
#[derive(Debug, Clone, Copy, PartialEq, Eq, Structural)]
pub enum FrozenRegion {
    /// The puzzle cells.
    Cells,
    /// The row clues or row sums, at the given row.
    RowAxis(usize),
    /// The column clues or column sums, at the given column.
    ColAxis(usize),
    /// Any other part: corners, controls, navigation.
    Other,
}

/// What the grid highlights under the cursor: the hovered cell (puzzle key,
/// row, column) and the crosshair's row and column.
#[derive(Debug, Clone, Copy)]
pub struct Crosshair {
    pub hover_cell: Option<((usize, usize), usize, usize)>,
    pub row: Option<usize>,
    pub col: Option<usize>,
}

impl Crosshair {
    /// Nothing highlighted.
    pub fn none() -> (r: Self)
        ensures
            r.hover_cell is None && r.row is None && r.col is None,
    {
        Crosshair { hover_cell: None, row: None, col: None }
    }

    /// The cursor moved into `region`: over the cells the highlight stays
    /// as the cell under the cursor set it; over a clue axis only that
    /// axis's line is highlighted; elsewhere nothing is.
    pub fn enter_region(&mut self, region: FrozenRegion)
        ensures
            match region {
                FrozenRegion::Cells => *final(self) == *old(self),
                FrozenRegion::RowAxis(r) => final(self).hover_cell is None && final(self).row == Some(r)
                    && final(self).col is None,
                FrozenRegion::ColAxis(c) => final(self).hover_cell is None && final(self).row is None
                    && final(self).col == Some(c),
                FrozenRegion::Other => final(self).hover_cell is None && final(self).row is None
                    && final(self).col is None,
            },
    {
        match region {
            FrozenRegion::Cells => {},
            FrozenRegion::RowAxis(r) => {
                self.hover_cell = None;
                self.row = Some(r);
                self.col = None;
            },
            FrozenRegion::ColAxis(c) => {
                self.hover_cell = None;
                self.row = None;
                self.col = Some(c);
            },
            FrozenRegion::Other => {
                self.hover_cell = None;
                self.row = None;
                self.col = None;
            },
        }
    }

    /// The cursor entered the cell `(row, col)` of puzzle `key`: it is
    /// hovered and the crosshair goes through it.
    pub fn enter_cell(&mut self, key: (usize, usize), row: usize, col: usize)
        ensures
            final(self).hover_cell == Some((key, row, col)),
            final(self).row == Some(row),
            final(self).col == Some(col),
    {
        self.hover_cell = Some((key, row, col));
        self.row = Some(row);
        self.col = Some(col);
    }
}

} // verus!
