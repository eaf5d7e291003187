//! Settings that carry no colours: the focus-mode keys, the options of
//! run-length labels with their layout inside a cell's 3×3 subcells, and
//! the assistance switches.
use vstd::prelude::*;
use crate::convert::owned;
use crate::text::{chars_eq, str_to_chars};

verus! {

/// The function key that toggles focus mode.
#[derive(Clone, Copy, Debug, PartialEq, Eq, Structural)]
pub enum FocusKey {
    F9,
    F10,
    F11,
    F12,
    Escape,
}

/// The name shown for a focus key.
pub open spec fn focus_key_text(k: FocusKey) -> Seq<char> {
    match k {
        FocusKey::F9 => "F9"@,
        FocusKey::F10 => "F10"@,
        FocusKey::F11 => "F11"@,
        FocusKey::F12 => "F12"@,
        FocusKey::Escape => "Esc"@,
    }
}

impl FocusKey {
    /// The key's name as the settings show it.
    pub fn label(&self) -> (r: String)
        ensures
            r@ == focus_key_text(*self),
    {
        match self {
            FocusKey::F9 => owned("F9"),
            FocusKey::F10 => owned("F10"),
            FocusKey::F11 => owned("F11"),
            FocusKey::F12 => owned("F12"),
            FocusKey::Escape => owned("Esc"),
        }
    }
}

/// The character key that also toggles focus mode, if any.
#[derive(Clone, Copy, Debug, PartialEq, Eq, Structural)]
pub enum SecondaryFocusKey {
    /// No secondary key.
    Off,
    F,
    G,
    H,
    Z,
}

/// Whether the typed text `c` is the secondary key, in either case.
pub open spec fn secondary_matches(k: SecondaryFocusKey, c: Seq<char>) -> bool {
    match k {
        SecondaryFocusKey::Off => false,
        SecondaryFocusKey::F => c == "f"@ || c == "F"@,
        SecondaryFocusKey::G => c == "g"@ || c == "G"@,
        SecondaryFocusKey::H => c == "h"@ || c == "H"@,
        SecondaryFocusKey::Z => c == "z"@ || c == "Z"@,
    }
}

/// The name shown for a secondary focus key.
pub open spec fn secondary_key_text(k: SecondaryFocusKey) -> Seq<char> {
    match k {
        SecondaryFocusKey::Off => "None"@,
        SecondaryFocusKey::F => "F"@,
        SecondaryFocusKey::G => "G"@,
        SecondaryFocusKey::H => "H"@,
        SecondaryFocusKey::Z => "Z"@,
    }
}

/// Whether `c` spells one of the two texts.
fn is_either(c: &[char], a: &str, b: &str) -> (r: bool)
    ensures
        r == (c@ == a@ || c@ == b@),
{
    let ac = str_to_chars(a);
    let bc = str_to_chars(b);
    chars_eq(c, ac.as_slice()) || chars_eq(c, bc.as_slice())
}

impl SecondaryFocusKey {
    /// Whether the typed text is this key (lower or upper case); never for
    /// `None`.
    pub fn matches_str(&self, c: &str) -> (r: bool)
        ensures
            r == secondary_matches(*self, c@),
    {
        let cc = str_to_chars(c);
        match self {
            SecondaryFocusKey::Off => false,
            SecondaryFocusKey::F => is_either(cc.as_slice(), "f", "F"),
            SecondaryFocusKey::G => is_either(cc.as_slice(), "g", "G"),
            SecondaryFocusKey::H => is_either(cc.as_slice(), "h", "H"),
            SecondaryFocusKey::Z => is_either(cc.as_slice(), "z", "Z"),
        }
    }

    /// The key's name as the settings show it.
    pub fn label(&self) -> (r: String)
        ensures
            r@ == secondary_key_text(*self),
    {
        match self {
            SecondaryFocusKey::Off => owned("None"),
            SecondaryFocusKey::F => owned("F"),
            SecondaryFocusKey::G => owned("G"),
            SecondaryFocusKey::H => owned("H"),
            SecondaryFocusKey::Z => owned("Z"),
        }
    }
}

/// Which axis label, if any, a subcell of a cell holds.
#[derive(Clone, Copy, Debug, PartialEq, Eq, Structural)]
pub enum SubcellKind {
    Empty,
    H,
    V,
}

impl Default for SubcellKind {
    /// An empty subcell.
    fn default() -> (r: Self)
        ensures
            r == SubcellKind::Empty,
    {
        SubcellKind::Empty
    }
}

/// The kind held at row `r`, column `c` of the 3×3 layout.
pub open spec fn subcell_at(g: [[SubcellKind; 3]; 3], r: int, c: int) -> SubcellKind {
    g@[r]@[c]
}

/// The positions from the `k`-th on (row-major) that hold `kind`.
pub open spec fn positions_from(g: [[SubcellKind; 3]; 3], kind: SubcellKind, k: nat) -> Seq<(usize, usize)>
    decreases 9 - k,
{
    if k >= 9 {
        Seq::empty()
    } else {
        let rest = positions_from(g, kind, k + 1);
        if subcell_at(g, (k / 3) as int, (k % 3) as int) == kind {
            seq![((k / 3) as usize, (k % 3) as usize)] + rest
        } else {
            rest
        }
    }
}

/// The default layout: the horizontal label bottom-left, the vertical one
/// top-right.
pub fn default_subcells() -> (g: [[SubcellKind; 3]; 3])
    ensures
        forall|r: int, c: int|
            0 <= r < 3 && 0 <= c < 3 ==> #[trigger] subcell_at(g, r, c) == if r == 2 && c == 0 {
                SubcellKind::H
            } else if r == 0 && c == 2 {
                SubcellKind::V
            } else {
                SubcellKind::Empty
            },
{
    [
        [SubcellKind::Empty, SubcellKind::Empty, SubcellKind::V],
        [SubcellKind::Empty, SubcellKind::Empty, SubcellKind::Empty],
        [SubcellKind::H, SubcellKind::Empty, SubcellKind::Empty],
    ]
}

/// All subcell positions holding `kind`, in row-major order.
pub fn subcells_of(g: &[[SubcellKind; 3]; 3], kind: SubcellKind) -> (r: Vec<(usize, usize)>)
    ensures
        r@ == positions_from(*g, kind, 0),
{
    let mut out: Vec<(usize, usize)> = Vec::new();
    let mut k: usize = 0;
    while k < 9
        invariant
            k <= 9,
            out@ + positions_from(*g, kind, k as nat) == positions_from(*g, kind, 0),
        decreases 9 - k,
    {
        let r = k / 3;
        let c = k % 3;
        let row = g[r];
        if row[c] == kind {
            out.push((r, c));
            assert(out@ + positions_from(*g, kind, (k + 1) as nat) =~= out@.drop_last() + positions_from(
                *g,
                kind,
                k as nat,
            ));
        }
        k += 1;
    }
    assert(out@ + positions_from(*g, kind, 9) =~= out@);
    out
}

/// The first subcell position holding `kind`, if any.
pub fn first_subcell_of(g: &[[SubcellKind; 3]; 3], kind: SubcellKind) -> (r: Option<(usize, usize)>)
    ensures
        r == (if positions_from(*g, kind, 0).len() > 0 {
            Some(positions_from(*g, kind, 0)[0])
        } else {
            None
        }),
{
    let all = subcells_of(g, kind);
    if all.len() > 0 {
        Some(all[0])
    } else {
        None
    }
}

/// The next kind a click on a subcell of the layout picker gives: empty,
/// then horizontal, then vertical, then empty again.
pub open spec fn next_kind(k: SubcellKind) -> SubcellKind {
    match k {
        SubcellKind::Empty => SubcellKind::H,
        SubcellKind::H => SubcellKind::V,
        SubcellKind::V => SubcellKind::Empty,
    }
}

/// How the lengths of filled runs are labelled on the grid, the colours
/// and text size aside.
#[derive(Clone, Copy, Debug)]
pub struct RunLengthOptions {
    pub show_start: bool,
    pub start_threshold: u32,
    pub show_end: bool,
    pub end_threshold: u32,
    pub show_hover: bool,
    pub hover_threshold: u32,
    /// Label runs in the cell next to them.
    pub adj_label_enabled: bool,
    pub adj_label_h_prefer_after: bool,
    pub adj_label_v_prefer_after: bool,
    /// Label runs in all four directions, placed by the subcell layout.
    pub four_dir_labels_enabled: bool,
    pub subcells: [[SubcellKind; 3]; 3],
    pub label_h_custom: bool,
    pub label_v_custom: bool,
}

/// A change to the run-length options.
#[derive(Clone, Copy, Debug)]
pub enum RunLengthToggle {
    ShowStart,
    StartThreshold(u32),
    ShowEnd,
    EndThreshold(u32),
    ShowHover,
    HoverThreshold(u32),
    AdjLabelEnabled,
    AdjLabelHPreferAfter,
    AdjLabelVPreferAfter,
    FourDirLabels,
    SubcellToggle(usize, usize),
    LabelHCustom,
    LabelVCustom,
}

/// The options after `t`, subcell clicks aside (they change only the
/// layout; see `RunLengthOptions::apply`). Switching adjacent labels on
/// switches the four-direction labels off and the other way round.
pub open spec fn toggled(o: RunLengthOptions, t: RunLengthToggle) -> RunLengthOptions {
    match t {
        RunLengthToggle::ShowStart => RunLengthOptions { show_start: !o.show_start, ..o },
        RunLengthToggle::StartThreshold(v) => RunLengthOptions { start_threshold: v, ..o },
        RunLengthToggle::ShowEnd => RunLengthOptions { show_end: !o.show_end, ..o },
        RunLengthToggle::EndThreshold(v) => RunLengthOptions { end_threshold: v, ..o },
        RunLengthToggle::ShowHover => RunLengthOptions { show_hover: !o.show_hover, ..o },
        RunLengthToggle::HoverThreshold(v) => RunLengthOptions { hover_threshold: v, ..o },
        RunLengthToggle::AdjLabelEnabled => RunLengthOptions {
            adj_label_enabled: !o.adj_label_enabled,
            four_dir_labels_enabled: if !o.adj_label_enabled { false } else { o.four_dir_labels_enabled },
            ..o
        },
        RunLengthToggle::AdjLabelHPreferAfter => RunLengthOptions {
            adj_label_h_prefer_after: !o.adj_label_h_prefer_after,
            ..o
        },
        RunLengthToggle::AdjLabelVPreferAfter => RunLengthOptions {
            adj_label_v_prefer_after: !o.adj_label_v_prefer_after,
            ..o
        },
        RunLengthToggle::FourDirLabels => RunLengthOptions {
            four_dir_labels_enabled: !o.four_dir_labels_enabled,
            adj_label_enabled: if !o.four_dir_labels_enabled { false } else { o.adj_label_enabled },
            ..o
        },
        RunLengthToggle::SubcellToggle(r, c) => o,
        RunLengthToggle::LabelHCustom => RunLengthOptions { label_h_custom: !o.label_h_custom, ..o },
        RunLengthToggle::LabelVCustom => RunLengthOptions { label_v_custom: !o.label_v_custom, ..o },
    }
}

impl RunLengthOptions {
    /// The stored defaults: hover labels from runs of two, start and end
    /// labels off with threshold three, labels placed after the run, the
    /// default subcell layout.
    pub fn defaults() -> (o: Self)
        ensures
            !o.show_start && o.start_threshold == 3,
            !o.show_end && o.end_threshold == 3,
            o.show_hover && o.hover_threshold == 2,
            !o.adj_label_enabled && o.adj_label_h_prefer_after && o.adj_label_v_prefer_after,
            !o.four_dir_labels_enabled,
            !o.label_h_custom && !o.label_v_custom,
            forall|r: int, c: int|
                0 <= r < 3 && 0 <= c < 3 ==> #[trigger] subcell_at(o.subcells, r, c) == if r == 2 && c == 0 {
                    SubcellKind::H
                } else if r == 0 && c == 2 {
                    SubcellKind::V
                } else {
                    SubcellKind::Empty
                },
    {
        RunLengthOptions {
            show_start: false,
            start_threshold: 3,
            show_end: false,
            end_threshold: 3,
            show_hover: true,
            hover_threshold: 2,
            adj_label_enabled: false,
            adj_label_h_prefer_after: true,
            adj_label_v_prefer_after: true,
            four_dir_labels_enabled: false,
            subcells: default_subcells(),
            label_h_custom: false,
            label_v_custom: false,
        }
    }

    /// Applies one change.
    pub fn apply(&mut self, t: RunLengthToggle)
        requires
            t matches RunLengthToggle::SubcellToggle(r, c) ==> r < 3 && c < 3,
        ensures
            !(t is SubcellToggle) ==> *final(self) == toggled(*old(self), t),
            t matches RunLengthToggle::SubcellToggle(r, c) ==> {
                &&& final(self).subcells@[r as int]@[c as int] == next_kind(old(self).subcells@[r as int]@[c as int])
                &&& forall|i: int, j: int|
                    0 <= i < 3 && 0 <= j < 3 && (i != r || j != c) ==> #[trigger] final(self).subcells@[i]@[j]
                        == old(self).subcells@[i]@[j]
                &&& *final(self) == (RunLengthOptions { subcells: final(self).subcells, ..*old(self) })
            },
    {
        match t {
            RunLengthToggle::ShowStart => self.show_start = !self.show_start,
            RunLengthToggle::StartThreshold(v) => self.start_threshold = v,
            RunLengthToggle::ShowEnd => self.show_end = !self.show_end,
            RunLengthToggle::EndThreshold(v) => self.end_threshold = v,
            RunLengthToggle::ShowHover => self.show_hover = !self.show_hover,
            RunLengthToggle::HoverThreshold(v) => self.hover_threshold = v,
            RunLengthToggle::AdjLabelEnabled => {
                self.adj_label_enabled = !self.adj_label_enabled;
                if self.adj_label_enabled {
                    self.four_dir_labels_enabled = false;
                }
            },
            RunLengthToggle::AdjLabelHPreferAfter => self.adj_label_h_prefer_after = !self.adj_label_h_prefer_after,
            RunLengthToggle::AdjLabelVPreferAfter => self.adj_label_v_prefer_after = !self.adj_label_v_prefer_after,
            RunLengthToggle::FourDirLabels => {
                self.four_dir_labels_enabled = !self.four_dir_labels_enabled;
                if self.four_dir_labels_enabled {
                    self.adj_label_enabled = false;
                }
            },
            RunLengthToggle::SubcellToggle(r, c) => {
                let mut row = self.subcells[r];
                row[c] = match row[c] {
                    SubcellKind::Empty => SubcellKind::H,
                    SubcellKind::H => SubcellKind::V,
                    SubcellKind::V => SubcellKind::Empty,
                };
                self.subcells[r] = row;
            },
            RunLengthToggle::LabelHCustom => self.label_h_custom = !self.label_h_custom,
            RunLengthToggle::LabelVCustom => self.label_v_custom = !self.label_v_custom,
        }
    }
}

/// Adjacent and four-direction labels are never both on: no change to the
/// options turns both on when they were not.
pub proof fn lemma_label_modes_exclusive(o: RunLengthOptions, t: RunLengthToggle)
    requires
        !(o.adj_label_enabled && o.four_dir_labels_enabled),
    ensures
        !(toggled(o, t).adj_label_enabled && toggled(o, t).four_dir_labels_enabled),
{
}

/// The assistance switches of the play area.
#[derive(Clone, Copy, Debug, PartialEq, Eq, Structural)]
pub struct AssistFlags {
    pub auto_dim: bool,
    pub auto_fill_empty: bool,
    pub auto_cross_edges: bool,
    pub clue_sums_with_gaps: bool,
    pub crosshair_enabled: bool,
    pub crosshair_skip_hover: bool,
    pub axis_lock: bool,
}

/// One assistance switch.
#[derive(Clone, Copy, Debug, PartialEq, Eq, Structural)]
pub enum AssistFlag {
    AutoDim,
    AutoFillEmpty,
    ClueSumsWithGaps,
    AutoCrossEdges,
    CrosshairEnabled,
    CrosshairSkipHover,
    AxisLock,
}

impl AssistFlags {
    /// Every switch off.
    pub fn off() -> (f: Self)
        ensures
            f == (AssistFlags {
                auto_dim: false,
                auto_fill_empty: false,
                auto_cross_edges: false,
                clue_sums_with_gaps: false,
                crosshair_enabled: false,
                crosshair_skip_hover: false,
                axis_lock: false,
            }),
    {
        AssistFlags {
            auto_dim: false,
            auto_fill_empty: false,
            auto_cross_edges: false,
            clue_sums_with_gaps: false,
            crosshair_enabled: false,
            crosshair_skip_hover: false,
            axis_lock: false,
        }
    }

    /// Flips one switch, leaving the others.
    pub fn toggle(&mut self, flag: AssistFlag)
        ensures
            final(self).auto_dim == (old(self).auto_dim != (flag == AssistFlag::AutoDim)),
            final(self).auto_fill_empty == (old(self).auto_fill_empty != (flag == AssistFlag::AutoFillEmpty)),
            final(self).auto_cross_edges == (old(self).auto_cross_edges != (flag == AssistFlag::AutoCrossEdges)),
            final(self).clue_sums_with_gaps == (old(self).clue_sums_with_gaps != (flag == AssistFlag::ClueSumsWithGaps)),
            final(self).crosshair_enabled == (old(self).crosshair_enabled != (flag == AssistFlag::CrosshairEnabled)),
            final(self).crosshair_skip_hover == (old(self).crosshair_skip_hover != (flag
                == AssistFlag::CrosshairSkipHover)),
            final(self).axis_lock == (old(self).axis_lock != (flag == AssistFlag::AxisLock)),
    {
        match flag {
            AssistFlag::AutoDim => self.auto_dim = !self.auto_dim,
            AssistFlag::AutoFillEmpty => self.auto_fill_empty = !self.auto_fill_empty,
            AssistFlag::ClueSumsWithGaps => self.clue_sums_with_gaps = !self.clue_sums_with_gaps,
            AssistFlag::AutoCrossEdges => self.auto_cross_edges = !self.auto_cross_edges,
            AssistFlag::CrosshairEnabled => self.crosshair_enabled = !self.crosshair_enabled,
            AssistFlag::CrosshairSkipHover => self.crosshair_skip_hover = !self.crosshair_skip_hover,
            AssistFlag::AxisLock => self.axis_lock = !self.axis_lock,
        }
    }
}

} // verus!
