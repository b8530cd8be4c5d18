//! The work the application hands out (reading directories and files,
//! scanning status, computing diffs, coloring) and what comes back, with
//! the parts of that work that are pure computation.
use vstd::prelude::*;
use crate::align::{align, aligned_rows};
use crate::changes::{ChangeSet, DiffSpec, FileChange, HeadInfo, Loaded, UnsupportedReason};
use crate::highlight::Highlighted;
use crate::lines::{AlignedDiff, Cell, LineTable, lemma_lines_len, spec_lines};
use crate::state::rows_in_tables;
use crate::align::histogram_line_hunks;
pub use crate::walker::DirEntry;

verus! {

/// Where the colors of a highlighting job go: a diff colors each side apart.
#[derive(Copy, Clone, PartialEq, Eq, Debug, Structural)]
pub enum HighlightTarget {
    Text,
    DiffOld,
    DiffNew,
}

/// A job for the workers.
#[derive(Debug)]
pub enum TaskRequest {
    ScanStatus { generation: u64, spec: DiffSpec },
    ReadDir { generation: u64, node: u32, dir: String, show_ignored: bool },
    LoadText { generation: u64, path: String, abs: String },
    ComputeDiff { generation: u64, change: FileChange, spec: DiffSpec },
    /// Coloring, run after the text is shown since it is slow.
    Highlight {
        generation: u64,
        target: HighlightTarget,
        path: String,
        table: LineTable,
        theme: String,
        max_lines: usize,
        /// Color the lines up to this one; the visible part goes first.
        upto: usize,
    },
}

#[derive(Debug)]
pub struct StatusOutcome {
    pub changes: ChangeSet,
    pub head: HeadInfo,
}

#[derive(Debug)]
pub enum Content {
    Ready { diff: AlignedDiff },
    Unsupported(UnsupportedReason),
}

#[derive(Debug)]
pub enum TextOutcome {
    Ready { table: LineTable },
    Unsupported(UnsupportedReason),
}

/// A finished job.
#[derive(Debug)]
pub enum TaskResult {
    Status { generation: u64, outcome: Result<StatusOutcome, String> },
    Dir { generation: u64, node: u32, outcome: Result<Vec<DirEntry>, String> },
    Text { generation: u64, path: String, outcome: Result<TextOutcome, String> },
    Diff { generation: u64, change: FileChange, outcome: Result<Content, String> },
    Highlight { generation: u64, target: HighlightTarget, highlight: Option<Highlighted> },
}

/// A diff that a diff view can hold: row numbers fit in `u32`, and every
/// line a row names is in its table.
pub open spec fn diff_fits(d: AlignedDiff) -> bool {
    d.rows@.len() < u32::MAX && rows_in_tables(d)
}

impl AlignedDiff {
    /// Checks `diff_fits`.
    pub fn fits_view(&self) -> (b: bool)
        ensures
            b == diff_fits(*self),
    {
        if self.rows.len() >= 0xffff_ffff {
            return false;
        }
        let m = self.old.len();
        let n = self.new.len();
        let mut k: usize = 0;
        while k < self.rows.len()
            invariant
                k <= self.rows@.len(),
                m == self.old.lines().len(),
                n == self.new.lines().len(),
                forall|t: int| 0 <= t < k ==> {
                    &&& ((#[trigger] self.rows@[t]).left matches Cell::Line(i) ==> i < self.old.lines().len())
                    &&& (self.rows@[t].right matches Cell::Line(j) ==> j < self.new.lines().len())
                },
            decreases self.rows@.len() - k,
        {
            let ok_left = match self.rows[k].left {
                Cell::Line(i) => (i as usize) < m,
                Cell::Pad => true,
            };
            let ok_right = match self.rows[k].right {
                Cell::Line(j) => (j as usize) < n,
                Cell::Pad => true,
            };
            if !ok_left || !ok_right {
                return false;
            }
            k += 1;
        }
        true
    }
}

/// What a file read for the text view becomes: its lines, or the reason
/// it is not shown as text.
pub fn text_outcome(loaded: Loaded) -> (r: TextOutcome)
    requires
        loaded matches Loaded::Text(b) ==> b@.len() <= u32::MAX,
    ensures
        match loaded {
            Loaded::Text(b) => r matches TextOutcome::Ready { table } && table@ == b@ && table.lines() == spec_lines(b@),
            Loaded::Unsupported(reason) => r == TextOutcome::Unsupported(reason),
        },
{
    match loaded {
        Loaded::Text(bytes) => TextOutcome::Ready { table: LineTable::new(bytes) },
        Loaded::Unsupported(reason) => TextOutcome::Unsupported(reason),
    }
}

/// What the two sides of a change become: their aligned rows, or the
/// reason (the old side's first) that they are not diffed as text.
pub fn diff_outcome(old_side: Loaded, new_side: Loaded) -> (r: Content)
    requires
        old_side matches Loaded::Text(o) ==> (new_side matches Loaded::Text(n) ==> o@.len() + n@.len() < u32::MAX),
        old_side matches Loaded::Text(o) ==> (new_side is Text ==> spec_lines(o@).len() < 0x7fff_ffff),
        new_side matches Loaded::Text(n) ==> (old_side is Text ==> spec_lines(n@).len() < 0x7fff_ffff),
    ensures
        old_side matches Loaded::Unsupported(reason) ==> r == Content::Unsupported(reason),
        old_side is Text ==> (new_side matches Loaded::Unsupported(reason) ==> r == Content::Unsupported(reason)),
        old_side matches Loaded::Text(o) ==> (new_side matches Loaded::Text(n) ==> (r matches Content::Ready { diff }
            && diff.old@ == o@ && diff.new@ == n@
            && diff.rows@ == aligned_rows(spec_lines(o@), spec_lines(n@),
                histogram_line_hunks(spec_lines(o@), spec_lines(n@))))),
{
    match (old_side, new_side) {
        (Loaded::Unsupported(reason), _) => Content::Unsupported(reason),
        (_, Loaded::Unsupported(reason)) => Content::Unsupported(reason),
        (Loaded::Text(o), Loaded::Text(n)) => {
            proof {
                lemma_lines_len(o@);
                lemma_lines_len(n@);
            }
            let ot = LineTable::new(o);
            let nt = LineTable::new(n);
            Content::Ready { diff: align(ot, nt) }
        },
    }
}

} // verus!
