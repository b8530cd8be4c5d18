//! Aligning the old and new lines of a file into one sequence of row pairs.
//!
//! The line diff comes from gix (histogram algorithm, then the line
//! postprocessing). Between its blocks of changes every line is kept on both
//! sides; inside a block, lines at the same position pair up when they are
//! alike, and the rest stand alone against padding. The result always holds
//! every line of both files.
use vstd::prelude::*;
use gix::diff::blob::{Algorithm, Diff, InternedInput};
use crate::changes::LineStat;
use crate::lines::{AlignedDiff, Cell, HunkAnchor, LineTable, RowKind, RowPair, spec_lines};
use crate::similarity::{is_similar, similar};

verus! {

/// One block of changes of a line diff: the old lines
/// `before_start..before_end` were replaced by the new lines
/// `after_start..after_end`.
#[derive(Copy, Clone, PartialEq, Eq, Debug, Structural)]
pub struct LineHunk {
    pub before_start: u32,
    pub before_end: u32,
    pub after_start: u32,
    pub after_end: u32,
}

/// The blocks of changes that gix computes for two sequences of lines with
/// the histogram algorithm and its line postprocessing.
pub uninterp spec fn histogram_line_hunks(old: Seq<Seq<u8>>, new: Seq<Seq<u8>>) -> Seq<LineHunk>;

/// Where the lines after block `k - 1` begin on the old side.
pub open spec fn gap_old(h: Seq<LineHunk>, k: int) -> int {
    if k <= 0 { 0 } else { h[k - 1].before_end as int }
}

/// Where the lines after block `k - 1` begin on the new side.
pub open spec fn gap_new(h: Seq<LineHunk>, k: int) -> int {
    if k <= 0 { 0 } else { h[k - 1].after_end as int }
}

/// How many unchanged lines come before block `k` (or after the last one, for `k == h.len()`).
pub open spec fn gap_len(h: Seq<LineHunk>, k: int, m: int) -> int {
    if k < h.len() { h[k].before_start - gap_old(h, k) } else { m - gap_old(h, k) }
}

/// The blocks are in order, inside both files and not empty, and the
/// unchanged stretches between them are equally long on both sides.
pub open spec fn hunks_wf(h: Seq<LineHunk>, m: int, n: int) -> bool {
    &&& forall|k: int| 0 <= k < h.len() ==> {
        &&& gap_old(h, k) <= (#[trigger] h[k]).before_start <= h[k].before_end <= m
        &&& gap_new(h, k) <= h[k].after_start <= h[k].after_end <= n
        &&& (h[k].before_start < h[k].before_end || h[k].after_start < h[k].after_end)
        &&& h[k].before_start - gap_old(h, k) == h[k].after_start - gap_new(h, k)
    }
    &&& m - gap_old(h, h.len() as int) == n - gap_new(h, h.len() as int)
}

/// Unchanged line `t` of stretch `k` is the same on both sides.
pub open spec fn gap_line_equal(old: Seq<Seq<u8>>, new: Seq<Seq<u8>>, h: Seq<LineHunk>, k: int, t: int) -> bool {
    old[gap_old(h, k) + t] == new[gap_new(h, k) + t]
}

/// Every unchanged line is the same on both sides.
pub open spec fn gaps_match(old: Seq<Seq<u8>>, new: Seq<Seq<u8>>, h: Seq<LineHunk>) -> bool {
    forall|k: int, t: int|
        0 <= k <= h.len() && 0 <= t < gap_len(h, k, old.len() as int) ==> #[trigger] gap_line_equal(old, new, h, k, t)
}

/// Calls gix's line diff: interns both line sequences, runs
/// `Diff::compute` with `Algorithm::Histogram`, applies
/// `Diff::postprocess_lines`, and lists `Diff::hunks`. The result is named
/// by `histogram_line_hunks`. `Diff::compute` asserts that each side has
/// fewer than `i32::MAX` lines, which the `requires` asks. What it further claims follows from the
/// `Diff` being an edit script that turns the old lines into the new ones
/// (its documentation) and from how `HunkIter::next` walks the removed and
/// added flags in step: blocks come in order, are not empty, lie inside the
/// files, and the unchanged stretches between them have equal length and
/// equal lines on both sides.
#[verifier::external_body]
fn line_hunks(old: &Vec<&[u8]>, new: &Vec<&[u8]>) -> (h: Vec<LineHunk>)
    requires
        old@.len() < 0x7fff_ffff,
        new@.len() < 0x7fff_ffff,
    ensures
        h@ == histogram_line_hunks(old@.map_values(|l: &[u8]| l@), new@.map_values(|l: &[u8]| l@)),
        hunks_wf(h@, old@.len() as int, new@.len() as int),
        gaps_match(old@.map_values(|l: &[u8]| l@), new@.map_values(|l: &[u8]| l@), h@),
{
    let mut input: InternedInput<&[u8]> = InternedInput::default();
    input.update_before(old.iter().copied());
    input.update_after(new.iter().copied());
    let mut diff = Diff::compute(Algorithm::Histogram, &input);
    diff.postprocess_lines(&input);
    diff.hunks().map(|h| LineHunk {
        before_start: h.before.start,
        before_end: h.before.end,
        after_start: h.after.start,
        after_end: h.after.end,
    }).collect()
}

pub open spec fn context_row(i: int, j: int) -> RowPair {
    RowPair { left: Cell::Line(i as u32), right: Cell::Line(j as u32), kind: RowKind::Context }
}

pub open spec fn removed_row_spec(i: int) -> RowPair {
    RowPair { left: Cell::Line(i as u32), right: Cell::Pad, kind: RowKind::Removed }
}

pub open spec fn added_row_spec(j: int) -> RowPair {
    RowPair { left: Cell::Pad, right: Cell::Line(j as u32), kind: RowKind::Added }
}

/// `count` unchanged lines from old line `i` and new line `j` on.
pub open spec fn context_rows(i: int, j: int, count: int) -> Seq<RowPair> {
    Seq::new(count as nat, |t: int| context_row(i + t, j + t))
}

/// The rows for old line `i` against new line `j` inside a block: one
/// changed row when they pair up, else the removed line and then the added one.
pub open spec fn pair_rows(old: Seq<Seq<u8>>, new: Seq<Seq<u8>>, force: bool, i: int, j: int) -> Seq<RowPair> {
    if force || similar(old[i], new[j]) {
        seq![RowPair { left: Cell::Line(i as u32), right: Cell::Line(j as u32), kind: RowKind::Changed }]
    } else {
        seq![removed_row_spec(i), added_row_spec(j)]
    }
}

/// The rows of the first `k` position pairs of block `h`.
pub open spec fn paired_rows(old: Seq<Seq<u8>>, new: Seq<Seq<u8>>, h: LineHunk, k: int) -> Seq<RowPair>
    decreases k,
{
    if k <= 0 {
        Seq::empty()
    } else {
        let force = h.before_end - h.before_start == 1 && h.after_end - h.after_start == 1;
        paired_rows(old, new, h, k - 1) + pair_rows(
            old,
            new,
            force,
            h.before_start + k - 1,
            h.after_start + k - 1,
        )
    }
}

pub open spec fn min_int(a: int, b: int) -> int {
    if a <= b { a } else { b }
}

/// The rows of one block: the lines at equal positions, then the old lines
/// left over, then the new lines left over. A one-line-for-one-line block
/// always pairs.
pub open spec fn block_rows(old: Seq<Seq<u8>>, new: Seq<Seq<u8>>, h: LineHunk) -> Seq<RowPair> {
    let r = h.before_end - h.before_start;
    let a = h.after_end - h.after_start;
    let p = min_int(r, a);
    paired_rows(old, new, h, p) + Seq::new((r - p) as nat, |t: int| removed_row_spec(h.before_start + p + t))
        + Seq::new((a - p) as nat, |t: int| added_row_spec(h.after_start + p + t))
}

/// The rows up to the end of block `k - 1`.
pub open spec fn emitted(old: Seq<Seq<u8>>, new: Seq<Seq<u8>>, h: Seq<LineHunk>, k: int) -> Seq<RowPair>
    decreases k,
{
    if k <= 0 {
        Seq::empty()
    } else {
        emitted(old, new, h, k - 1) + context_rows(gap_old(h, k - 1), gap_new(h, k - 1), gap_len(h, k - 1, old.len() as int))
            + block_rows(old, new, h[k - 1])
    }
}

/// All rows: each block preceded by the unchanged lines before it, then the unchanged lines after the last.
pub open spec fn aligned_rows(old: Seq<Seq<u8>>, new: Seq<Seq<u8>>, h: Seq<LineHunk>) -> Seq<RowPair> {
    let k = h.len() as int;
    emitted(old, new, h, k) + context_rows(gap_old(h, k), gap_new(h, k), gap_len(h, k, old.len() as int))
}

/// Where block `k` lies in the rows.
pub open spec fn anchor_of(old: Seq<Seq<u8>>, new: Seq<Seq<u8>>, h: Seq<LineHunk>, k: int) -> HunkAnchor {
    HunkAnchor {
        start: (emitted(old, new, h, k).len() + gap_len(h, k, old.len() as int)) as u32,
        end: emitted(old, new, h, k + 1).len() as u32,
    }
}

pub open spec fn removed_total(h: Seq<LineHunk>) -> int
    decreases h.len(),
{
    if h.len() == 0 { 0 } else { removed_total(h.drop_last()) + h.last().before_end - h.last().before_start }
}

pub open spec fn added_total(h: Seq<LineHunk>) -> int
    decreases h.len(),
{
    if h.len() == 0 { 0 } else { added_total(h.drop_last()) + h.last().after_end - h.last().after_start }
}

proof fn lemma_paired_len(old: Seq<Seq<u8>>, new: Seq<Seq<u8>>, h: LineHunk, k: int)
    requires
        k >= 0,
    ensures
        paired_rows(old, new, h, k).len() <= 2 * k,
    decreases k,
{
    if k > 0 {
        lemma_paired_len(old, new, h, k - 1);
    }
}

proof fn lemma_block_len(old: Seq<Seq<u8>>, new: Seq<Seq<u8>>, h: LineHunk)
    requires
        h.before_start <= h.before_end,
        h.after_start <= h.after_end,
    ensures
        block_rows(old, new, h).len() <= (h.before_end - h.before_start) + (h.after_end - h.after_start),
{
    let r = h.before_end - h.before_start;
    let a = h.after_end - h.after_start;
    lemma_paired_len(old, new, h, min_int(r, a));
}

proof fn lemma_emitted_bounds(old: Seq<Seq<u8>>, new: Seq<Seq<u8>>, h: Seq<LineHunk>, k: int)
    requires
        hunks_wf(h, old.len() as int, new.len() as int),
        0 <= k <= h.len(),
    ensures
        emitted(old, new, h, k).len() <= gap_old(h, k) + gap_new(h, k),
        removed_total(h.take(k)) <= gap_old(h, k),
        added_total(h.take(k)) <= gap_new(h, k),
    decreases k,
{
    if k > 0 {
        lemma_emitted_bounds(old, new, h, k - 1);
        assert(h[k - 1] == h[k - 1]);
        lemma_block_len(old, new, h[k - 1]);
        assert(h.take(k).drop_last() =~= h.take(k - 1));
    }
}

fn push_context(rows: &mut Vec<RowPair>, old_cur: &mut u32, new_cur: &mut u32, until: u32)
    requires
        *old(old_cur) <= until,
        *old(new_cur) + (until - *old(old_cur)) < u32::MAX,
    ensures
        final(rows)@ == old(rows)@ + context_rows(*old(old_cur) as int, *old(new_cur) as int, until - *old(old_cur)),
        *final(old_cur) == until,
        *final(new_cur) == *old(new_cur) + (until - *old(old_cur)),
{
    let ghost o0 = *old_cur;
    let ghost n0 = *new_cur;
    let ghost r0 = rows@;
    while *old_cur < until
        invariant
            o0 <= *old_cur <= until,
            *new_cur == n0 + (*old_cur - o0),
            n0 + (until - o0) < u32::MAX,
            rows@ == r0 + context_rows(o0 as int, n0 as int, *old_cur - o0),
        decreases until - *old_cur,
    {
        rows.push(RowPair { left: Cell::Line(*old_cur), right: Cell::Line(*new_cur), kind: RowKind::Context });
        *old_cur = *old_cur + 1;
        *new_cur = *new_cur + 1;
        assert(rows@ =~= r0 + context_rows(o0 as int, n0 as int, *old_cur - o0));
    }
}

fn removed_row(i: u32) -> (r: RowPair)
    ensures
        r == removed_row_spec(i as int),
{
    RowPair { left: Cell::Line(i), right: Cell::Pad, kind: RowKind::Removed }
}

fn added_row(i: u32) -> (r: RowPair)
    ensures
        r == added_row_spec(i as int),
{
    RowPair { left: Cell::Pad, right: Cell::Line(i), kind: RowKind::Added }
}

fn align_block(ot: &LineTable, nt: &LineTable, h: LineHunk, rows: &mut Vec<RowPair>, stat: &mut LineStat)
    requires
        h.before_start <= h.before_end <= ot.lines().len(),
        h.after_start <= h.after_end <= nt.lines().len(),
        old(stat).removed + (h.before_end - h.before_start) <= u32::MAX,
        old(stat).added + (h.after_end - h.after_start) <= u32::MAX,
    ensures
        final(rows)@ == old(rows)@ + block_rows(ot.lines(), nt.lines(), h),
        final(stat).removed == old(stat).removed + (h.before_end - h.before_start),
        final(stat).added == old(stat).added + (h.after_end - h.after_start),
{
    let ghost r0 = rows@;
    let ghost s0 = *stat;
    let removed = h.before_end - h.before_start;
    let added = h.after_end - h.after_start;
    let force_pair = removed == 1 && added == 1;
    let paired = if removed <= added { removed } else { added };
    let mut k: u32 = 0;
    while k < paired
        invariant
            k <= paired,
            paired == min_int(removed as int, added as int),
            removed == h.before_end - h.before_start,
            added == h.after_end - h.after_start,
            force_pair == (removed == 1 && added == 1),
            h.before_start <= h.before_end <= ot.lines().len(),
            h.after_start <= h.after_end <= nt.lines().len(),
            rows@ == r0 + paired_rows(ot.lines(), nt.lines(), h, k as int),
            stat.removed == s0.removed + k,
            stat.added == s0.added + k,
            s0.removed + removed <= u32::MAX,
            s0.added + added <= u32::MAX,
        decreases paired - k,
    {
        let oi = h.before_start + k;
        let ni = h.after_start + k;
        let pair = force_pair || is_similar(ot.line(oi), nt.line(ni));
        if pair {
            rows.push(RowPair { left: Cell::Line(oi), right: Cell::Line(ni), kind: RowKind::Changed });
        } else {
            rows.push(removed_row(oi));
            rows.push(added_row(ni));
        }
        stat.removed = stat.removed + 1;
        stat.added = stat.added + 1;
        k += 1;
        assert(rows@ =~= r0 + paired_rows(ot.lines(), nt.lines(), h, k as int));
    }
    let ghost r1 = rows@;
    let mut k: u32 = paired;
    while k < removed
        invariant
            paired <= k <= removed,
            paired == min_int(removed as int, added as int),
            removed == h.before_end - h.before_start,
            h.before_start <= h.before_end,
            rows@ == r1 + Seq::new((k - paired) as nat, |t: int| removed_row_spec(h.before_start + paired + t)),
            stat.removed == s0.removed + k,
            stat.added == s0.added + paired,
            s0.removed + removed <= u32::MAX,
        decreases removed - k,
    {
        rows.push(removed_row(h.before_start + k));
        stat.removed = stat.removed + 1;
        k += 1;
        assert(rows@ =~= r1 + Seq::new((k - paired) as nat, |t: int| removed_row_spec(h.before_start + paired + t)));
    }
    let ghost r2 = rows@;
    let mut k: u32 = paired;
    while k < added
        invariant
            paired <= k <= added,
            paired == min_int(removed as int, added as int),
            added == h.after_end - h.after_start,
            h.after_start <= h.after_end,
            rows@ == r2 + Seq::new((k - paired) as nat, |t: int| added_row_spec(h.after_start + paired + t)),
            stat.added == s0.added + k,
            stat.removed == s0.removed + removed,
            s0.added + added <= u32::MAX,
        decreases added - k,
    {
        rows.push(added_row(h.after_start + k));
        stat.added = stat.added + 1;
        k += 1;
        assert(rows@ =~= r2 + Seq::new((k - paired) as nat, |t: int| added_row_spec(h.after_start + paired + t)));
    }
    assert(rows@ =~= r0 + block_rows(ot.lines(), nt.lines(), h));
}


/// The old line of a row, if it has one.
pub open spec fn left_of(r: RowPair) -> Seq<u32> {
    match r.left {
        Cell::Line(i) => seq![i],
        Cell::Pad => Seq::empty(),
    }
}

/// The new line of a row, if it has one.
pub open spec fn right_of(r: RowPair) -> Seq<u32> {
    match r.right {
        Cell::Line(i) => seq![i],
        Cell::Pad => Seq::empty(),
    }
}

/// The old lines that the rows show, top to bottom.
pub open spec fn lefts(rs: Seq<RowPair>) -> Seq<u32>
    decreases rs.len(),
{
    if rs.len() == 0 { Seq::empty() } else { lefts(rs.drop_last()) + left_of(rs.last()) }
}

/// The new lines that the rows show, top to bottom.
pub open spec fn rights(rs: Seq<RowPair>) -> Seq<u32>
    decreases rs.len(),
{
    if rs.len() == 0 { Seq::empty() } else { rights(rs.drop_last()) + right_of(rs.last()) }
}

/// The line numbers `a..b`.
pub open spec fn span(a: int, b: int) -> Seq<u32> {
    Seq::new((b - a) as nat, |t: int| (a + t) as u32)
}

proof fn lemma_lefts_concat(a: Seq<RowPair>, b: Seq<RowPair>)
    ensures
        lefts(a + b) == lefts(a) + lefts(b),
        rights(a + b) == rights(a) + rights(b),
    decreases b.len(),
{
    if b.len() == 0 {
        assert(a + b =~= a);
        assert(lefts(a) + lefts(b) =~= lefts(a));
        assert(rights(a) + rights(b) =~= rights(a));
    } else {
        lemma_lefts_concat(a, b.drop_last());
        assert((a + b).drop_last() =~= a + b.drop_last());
        assert(lefts(a) + lefts(b) =~= lefts(a) + lefts(b.drop_last()) + left_of(b.last()));
        assert(rights(a) + rights(b) =~= rights(a) + rights(b.drop_last()) + right_of(b.last()));
    }
}

pub proof fn lemma_span_concat(a: int, b: int, c: int)
    requires
        a <= b <= c,
    ensures
        span(a, b) + span(b, c) == span(a, c),
{
    assert(span(a, b) + span(b, c) =~= span(a, c));
}

proof fn lemma_lefts_context(i: int, j: int, c: int)
    requires
        c >= 0,
    ensures
        lefts(context_rows(i, j, c)) == span(i, i + c),
        rights(context_rows(i, j, c)) == span(j, j + c),
    decreases c,
{
    if c > 0 {
        lemma_lefts_context(i, j, c - 1);
        assert(context_rows(i, j, c).drop_last() =~= context_rows(i, j, c - 1));
        assert(span(i, i + c - 1) + seq![(i + c - 1) as u32] =~= span(i, i + c));
        assert(span(j, j + c - 1) + seq![(j + c - 1) as u32] =~= span(j, j + c));
    } else {
        assert(context_rows(i, j, c) =~= Seq::<RowPair>::empty());
        assert(span(i, i) =~= Seq::<u32>::empty());
        assert(span(j, j) =~= Seq::<u32>::empty());
    }
}

proof fn lemma_lefts_removed(i: int, c: int)
    requires
        c >= 0,
    ensures
        lefts(Seq::new(c as nat, |t: int| removed_row_spec(i + t))) == span(i, i + c),
        rights(Seq::new(c as nat, |t: int| removed_row_spec(i + t))) == Seq::<u32>::empty(),
    decreases c,
{
    if c > 0 {
        lemma_lefts_removed(i, c - 1);
        assert(Seq::new(c as nat, |t: int| removed_row_spec(i + t)).drop_last() =~= Seq::new(
            (c - 1) as nat,
            |t: int| removed_row_spec(i + t),
        ));
        assert(span(i, i + c - 1) + seq![(i + c - 1) as u32] =~= span(i, i + c));
        assert(Seq::<u32>::empty() + Seq::<u32>::empty() =~= Seq::<u32>::empty());
    } else {
        assert(Seq::new(c as nat, |t: int| removed_row_spec(i + t)) =~= Seq::<RowPair>::empty());
        assert(span(i, i) =~= Seq::<u32>::empty());
    }
}

proof fn lemma_lefts_added(j: int, c: int)
    requires
        c >= 0,
    ensures
        rights(Seq::new(c as nat, |t: int| added_row_spec(j + t))) == span(j, j + c),
        lefts(Seq::new(c as nat, |t: int| added_row_spec(j + t))) == Seq::<u32>::empty(),
    decreases c,
{
    if c > 0 {
        lemma_lefts_added(j, c - 1);
        assert(Seq::new(c as nat, |t: int| added_row_spec(j + t)).drop_last() =~= Seq::new(
            (c - 1) as nat,
            |t: int| added_row_spec(j + t),
        ));
        assert(span(j, j + c - 1) + seq![(j + c - 1) as u32] =~= span(j, j + c));
        assert(Seq::<u32>::empty() + Seq::<u32>::empty() =~= Seq::<u32>::empty());
    } else {
        assert(Seq::new(c as nat, |t: int| added_row_spec(j + t)) =~= Seq::<RowPair>::empty());
        assert(span(j, j) =~= Seq::<u32>::empty());
    }
}

proof fn lemma_lefts_paired(o: Seq<Seq<u8>>, n: Seq<Seq<u8>>, h: LineHunk, k: int)
    requires
        k >= 0,
    ensures
        lefts(paired_rows(o, n, h, k)) == span(h.before_start as int, h.before_start + k),
        rights(paired_rows(o, n, h, k)) == span(h.after_start as int, h.after_start + k),
    decreases k,
{
    reveal_with_fuel(lefts, 3);
    reveal_with_fuel(rights, 3);
    if k > 0 {
        lemma_lefts_paired(o, n, h, k - 1);
        let force = h.before_end - h.before_start == 1 && h.after_end - h.after_start == 1;
        let pr = pair_rows(o, n, force, h.before_start + k - 1, h.after_start + k - 1);
        lemma_lefts_concat(paired_rows(o, n, h, k - 1), pr);
        if force || similar(o[h.before_start + k - 1], n[h.after_start + k - 1]) {
            assert(pr.drop_last() =~= Seq::<RowPair>::empty());
        } else {
            assert(pr.drop_last().drop_last() =~= Seq::<RowPair>::empty());
            assert(pr.drop_last() =~= seq![removed_row_spec(h.before_start + k - 1)]);
        }
        assert(lefts(pr) =~= seq![(h.before_start + k - 1) as u32]);
        assert(rights(pr) =~= seq![(h.after_start + k - 1) as u32]);
        assert(span(h.before_start as int, h.before_start + k - 1) + seq![(h.before_start + k - 1) as u32]
            =~= span(h.before_start as int, h.before_start + k));
        assert(span(h.after_start as int, h.after_start + k - 1) + seq![(h.after_start + k - 1) as u32]
            =~= span(h.after_start as int, h.after_start + k));
    } else {
        assert(span(h.before_start as int, h.before_start as int) =~= Seq::<u32>::empty());
        assert(span(h.after_start as int, h.after_start as int) =~= Seq::<u32>::empty());
    }
}

proof fn lemma_lefts_block(o: Seq<Seq<u8>>, n: Seq<Seq<u8>>, h: LineHunk)
    requires
        h.before_start <= h.before_end,
        h.after_start <= h.after_end,
    ensures
        lefts(block_rows(o, n, h)) == span(h.before_start as int, h.before_end as int),
        rights(block_rows(o, n, h)) == span(h.after_start as int, h.after_end as int),
{
    let r = h.before_end - h.before_start;
    let a = h.after_end - h.after_start;
    let p = min_int(r, a);
    let x = paired_rows(o, n, h, p);
    let y = Seq::new((r - p) as nat, |t: int| removed_row_spec(h.before_start + p + t));
    let z = Seq::new((a - p) as nat, |t: int| added_row_spec(h.after_start + p + t));
    lemma_lefts_paired(o, n, h, p);
    lemma_lefts_removed(h.before_start + p, r - p);
    lemma_lefts_added(h.after_start + p, a - p);
    lemma_lefts_concat(x, y);
    lemma_lefts_concat(x + y, z);
    lemma_span_concat(h.before_start as int, h.before_start + p, h.before_end as int);
    lemma_span_concat(h.after_start as int, h.after_start + p, h.after_end as int);
    assert(lefts(x) + lefts(y) + Seq::<u32>::empty() =~= lefts(x) + lefts(y));
    assert(rights(x) + Seq::<u32>::empty() =~= rights(x));
}

proof fn lemma_lefts_emitted(o: Seq<Seq<u8>>, n: Seq<Seq<u8>>, h: Seq<LineHunk>, k: int)
    requires
        hunks_wf(h, o.len() as int, n.len() as int),
        0 <= k <= h.len(),
    ensures
        lefts(emitted(o, n, h, k)) == span(0, gap_old(h, k)),
        rights(emitted(o, n, h, k)) == span(0, gap_new(h, k)),
    decreases k,
{
    if k > 0 {
        lemma_lefts_emitted(o, n, h, k - 1);
        assert(h[k - 1] == h[k - 1]);
        let c = context_rows(gap_old(h, k - 1), gap_new(h, k - 1), gap_len(h, k - 1, o.len() as int));
        lemma_lefts_context(gap_old(h, k - 1), gap_new(h, k - 1), gap_len(h, k - 1, o.len() as int));
        lemma_lefts_block(o, n, h[k - 1]);
        lemma_lefts_concat(emitted(o, n, h, k - 1), c);
        lemma_lefts_concat(emitted(o, n, h, k - 1) + c, block_rows(o, n, h[k - 1]));
        lemma_span_concat(0, gap_old(h, k - 1), h[k - 1].before_start as int);
        lemma_span_concat(0, h[k - 1].before_start as int, h[k - 1].before_end as int);
        lemma_span_concat(0, gap_new(h, k - 1), h[k - 1].after_start as int);
        lemma_span_concat(0, h[k - 1].after_start as int, h[k - 1].after_end as int);
    } else {
        assert(span(0, 0) =~= Seq::<u32>::empty());
    }
}

/// The old lines that the rows show are every old line, once and in order;
/// the same holds of the new lines.
pub proof fn lemma_rows_cover_both_files(o: Seq<Seq<u8>>, n: Seq<Seq<u8>>, h: Seq<LineHunk>)
    requires
        hunks_wf(h, o.len() as int, n.len() as int),
    ensures
        lefts(aligned_rows(o, n, h)) == span(0, o.len() as int),
        rights(aligned_rows(o, n, h)) == span(0, n.len() as int),
{
    let k = h.len() as int;
    lemma_lefts_emitted(o, n, h, k);
    lemma_lefts_context(gap_old(h, k), gap_new(h, k), gap_len(h, k, o.len() as int));
    lemma_lefts_concat(emitted(o, n, h, k), context_rows(gap_old(h, k), gap_new(h, k), gap_len(h, k, o.len() as int)));
    lemma_span_concat(0, gap_old(h, k), o.len() as int);
    lemma_span_concat(0, gap_new(h, k), n.len() as int);
}

/// A context row shows a line on each side, and the two lines are equal.
pub open spec fn context_ok(o: Seq<Seq<u8>>, n: Seq<Seq<u8>>, r: RowPair) -> bool {
    r.kind == RowKind::Context ==> (r.left matches Cell::Line(i) && r.right matches Cell::Line(j)
        && o[i as int] == n[j as int])
}

proof fn lemma_paired_not_context(o: Seq<Seq<u8>>, n: Seq<Seq<u8>>, h: LineHunk, k: int)
    requires
        k >= 0,
    ensures
        paired_rows(o, n, h, k).len() >= k,
        forall|x: int| 0 <= x < paired_rows(o, n, h, k).len() ==> (#[trigger] paired_rows(o, n, h, k)[x]).kind != RowKind::Context,
    decreases k,
{
    if k > 0 {
        lemma_paired_not_context(o, n, h, k - 1);
    }
}

proof fn lemma_block_not_context(o: Seq<Seq<u8>>, n: Seq<Seq<u8>>, h: LineHunk)
    requires
        h.before_start <= h.before_end,
        h.after_start <= h.after_end,
    ensures
        block_rows(o, n, h).len() >= h.before_end - h.before_start,
        block_rows(o, n, h).len() >= h.after_end - h.after_start,
        forall|x: int| 0 <= x < block_rows(o, n, h).len() ==> (#[trigger] block_rows(o, n, h)[x]).kind != RowKind::Context,
{
    let r = h.before_end - h.before_start;
    let a = h.after_end - h.after_start;
    lemma_paired_not_context(o, n, h, min_int(r, a));
}

proof fn lemma_emitted_context(o: Seq<Seq<u8>>, n: Seq<Seq<u8>>, h: Seq<LineHunk>, k: int)
    requires
        hunks_wf(h, o.len() as int, n.len() as int),
        gaps_match(o, n, h),
        o.len() < u32::MAX,
        n.len() < u32::MAX,
        0 <= k <= h.len(),
    ensures
        forall|x: int| 0 <= x < emitted(o, n, h, k).len() ==> context_ok(o, n, #[trigger] emitted(o, n, h, k)[x]),
    decreases k,
{
    if k > 0 {
        lemma_emitted_context(o, n, h, k - 1);
        assert(h[k - 1] == h[k - 1]);
        lemma_block_not_context(o, n, h[k - 1]);
        let e = emitted(o, n, h, k - 1);
        let c = context_rows(gap_old(h, k - 1), gap_new(h, k - 1), gap_len(h, k - 1, o.len() as int));
        let b = block_rows(o, n, h[k - 1]);
        assert forall|x: int| 0 <= x < emitted(o, n, h, k).len() implies context_ok(o, n, #[trigger] emitted(o, n, h, k)[x]) by {
            if x < e.len() {
                assert(emitted(o, n, h, k)[x] == e[x]);
            } else if x < e.len() + c.len() {
                let t = x - e.len();
                assert(emitted(o, n, h, k)[x] == c[t]);
                assert(gap_line_equal(o, n, h, k - 1, t));
            } else {
                assert(emitted(o, n, h, k)[x] == b[x - e.len() - c.len()]);
            }
        }
    }
}

/// Every context row shows the same line on both sides.
pub proof fn lemma_context_rows_match(o: Seq<Seq<u8>>, n: Seq<Seq<u8>>, h: Seq<LineHunk>)
    requires
        hunks_wf(h, o.len() as int, n.len() as int),
        gaps_match(o, n, h),
        o.len() < u32::MAX,
        n.len() < u32::MAX,
    ensures
        forall|x: int| 0 <= x < aligned_rows(o, n, h).len() ==> context_ok(o, n, #[trigger] aligned_rows(o, n, h)[x]),
{
    let k = h.len() as int;
    lemma_emitted_context(o, n, h, k);
    let e = emitted(o, n, h, k);
    let c = context_rows(gap_old(h, k), gap_new(h, k), gap_len(h, k, o.len() as int));
    assert forall|x: int| 0 <= x < aligned_rows(o, n, h).len() implies context_ok(o, n, #[trigger] aligned_rows(o, n, h)[x]) by {
        if x < e.len() {
            assert(aligned_rows(o, n, h)[x] == e[x]);
        } else {
            let t = x - e.len();
            assert(aligned_rows(o, n, h)[x] == c[t]);
            assert(gap_line_equal(o, n, h, k, t));
        }
    }
}

proof fn lemma_emitted_monotone(o: Seq<Seq<u8>>, n: Seq<Seq<u8>>, h: Seq<LineHunk>, j: int, k: int)
    requires
        hunks_wf(h, o.len() as int, n.len() as int),
        0 <= j <= k <= h.len(),
    ensures
        emitted(o, n, h, j).len() <= emitted(o, n, h, k).len(),
    decreases k - j,
{
    if j < k {
        lemma_emitted_monotone(o, n, h, j, k - 1);
    }
}

/// Each block covers at least one row, and the blocks follow one another
/// without overlap, inside the rows.
pub proof fn lemma_anchors_ordered(o: Seq<Seq<u8>>, n: Seq<Seq<u8>>, h: Seq<LineHunk>)
    requires
        hunks_wf(h, o.len() as int, n.len() as int),
        o.len() + n.len() < u32::MAX,
    ensures
        forall|k: int| 0 <= k < h.len() ==> (#[trigger] anchors(o, n, h)[k]).start < anchors(o, n, h)[k].end
            <= aligned_rows(o, n, h).len(),
        forall|j: int, k: int| 0 <= j < k < h.len() ==> (#[trigger] anchors(o, n, h)[j]).end
            <= (#[trigger] anchors(o, n, h)[k]).start,
{
    assert forall|k: int| 0 <= k < h.len() implies (#[trigger] anchors(o, n, h)[k]).start < anchors(o, n, h)[k].end
        <= aligned_rows(o, n, h).len() by {
        assert(h[k] == h[k]);
        lemma_block_not_context(o, n, h[k]);
        lemma_emitted_bounds(o, n, h, k + 1);
        lemma_emitted_monotone(o, n, h, k + 1, h.len() as int);
        lemma_emitted_bounds(o, n, h, h.len() as int);
    }
    assert forall|j: int, k: int| 0 <= j < k < h.len() implies (#[trigger] anchors(o, n, h)[j]).end
        <= (#[trigger] anchors(o, n, h)[k]).start by {
        lemma_emitted_monotone(o, n, h, j + 1, k);
        lemma_emitted_bounds(o, n, h, k);
        lemma_emitted_bounds(o, n, h, j + 1);
        assert(h[k] == h[k]);
    }
}

/// Whether one of the first `k` blocks' anchors covers row `x`.
pub open spec fn in_block(o: Seq<Seq<u8>>, n: Seq<Seq<u8>>, h: Seq<LineHunk>, k: int, x: int) -> bool {
    exists|j: int| 0 <= j < k && (#[trigger] anchor_of(o, n, h, j)).covers(x)
}

/// Where block `k` starts and ends in the rows, as plain numbers.
proof fn lemma_anchor_at(o: Seq<Seq<u8>>, n: Seq<Seq<u8>>, h: Seq<LineHunk>, k: int)
    requires
        hunks_wf(h, o.len() as int, n.len() as int),
        o.len() + n.len() < u32::MAX,
        0 <= k < h.len(),
    ensures
        anchor_of(o, n, h, k).start as int == emitted(o, n, h, k).len() + gap_len(h, k, o.len() as int),
        anchor_of(o, n, h, k).end as int == emitted(o, n, h, k + 1).len(),
        emitted(o, n, h, k + 1).len() == emitted(o, n, h, k).len() + gap_len(h, k, o.len() as int)
            + block_rows(o, n, h[k]).len(),
        gap_len(h, k, o.len() as int) >= 0,
{
    assert(h[k] == h[k]);
    lemma_emitted_bounds(o, n, h, k + 1);
    lemma_emitted_monotone(o, n, h, k, k + 1);
}

/// A row among those up to block `k` is a context row exactly when none of
/// those blocks covers it.
proof fn lemma_emitted_kinds(o: Seq<Seq<u8>>, n: Seq<Seq<u8>>, h: Seq<LineHunk>, k: int, x: int)
    requires
        hunks_wf(h, o.len() as int, n.len() as int),
        o.len() + n.len() < u32::MAX,
        0 <= k <= h.len(),
        0 <= x < emitted(o, n, h, k).len(),
    ensures
        (emitted(o, n, h, k)[x].kind == RowKind::Context) <==> !in_block(o, n, h, k, x),
    decreases k,
{
    if k > 0 {
        let e = emitted(o, n, h, k - 1);
        let g = gap_len(h, k - 1, o.len() as int);
        lemma_anchor_at(o, n, h, k - 1);
        if x < e.len() {
            lemma_emitted_kinds(o, n, h, k - 1, x);
            lemma_kinds_before(o, n, h, k, x);
        } else if x < e.len() + g {
            lemma_kinds_gap(o, n, h, k, x);
        } else {
            lemma_kinds_block(o, n, h, k, x);
        }
    }
}

#[verifier::spinoff_prover]
#[verifier::rlimit(40)]
proof fn lemma_kinds_before(o: Seq<Seq<u8>>, n: Seq<Seq<u8>>, h: Seq<LineHunk>, k: int, x: int)
    requires
        hunks_wf(h, o.len() as int, n.len() as int),
        o.len() + n.len() < u32::MAX,
        0 < k <= h.len(),
        0 <= x < emitted(o, n, h, k - 1).len(),
        (emitted(o, n, h, k - 1)[x].kind == RowKind::Context) <==> !in_block(o, n, h, k - 1, x),
    ensures
        (emitted(o, n, h, k)[x].kind == RowKind::Context) <==> !in_block(o, n, h, k, x),
{
    let e = emitted(o, n, h, k - 1);
    let c = context_rows(gap_old(h, k - 1), gap_new(h, k - 1), gap_len(h, k - 1, o.len() as int));
    let b = block_rows(o, n, h[k - 1]);
    assert(emitted(o, n, h, k) == e + c + b);
    assert((e + c + b)[x] == e[x]);
    lemma_anchor_at(o, n, h, k - 1);
    let last = anchor_of(o, n, h, k - 1);
    assert(!last.covers(x));
    if in_block(o, n, h, k, x) {
        let j = choose|j: int| 0 <= j < k && (#[trigger] anchor_of(o, n, h, j)).covers(x);
        assert(j != k - 1);
        assert(0 <= j < k - 1 && anchor_of(o, n, h, j).covers(x));
    }
    if in_block(o, n, h, k - 1, x) {
        let j = choose|j: int| 0 <= j < k - 1 && (#[trigger] anchor_of(o, n, h, j)).covers(x);
        assert(0 <= j < k && anchor_of(o, n, h, j).covers(x));
    }
}

#[verifier::spinoff_prover]
#[verifier::rlimit(40)]
proof fn lemma_kinds_gap(o: Seq<Seq<u8>>, n: Seq<Seq<u8>>, h: Seq<LineHunk>, k: int, x: int)
    requires
        hunks_wf(h, o.len() as int, n.len() as int),
        o.len() + n.len() < u32::MAX,
        0 < k <= h.len(),
        emitted(o, n, h, k - 1).len() <= x < emitted(o, n, h, k - 1).len() + gap_len(h, k - 1, o.len() as int),
    ensures
        emitted(o, n, h, k)[x].kind == RowKind::Context,
        !in_block(o, n, h, k, x),
{
    let e = emitted(o, n, h, k - 1);
    let c = context_rows(gap_old(h, k - 1), gap_new(h, k - 1), gap_len(h, k - 1, o.len() as int));
    let b = block_rows(o, n, h[k - 1]);
    assert(emitted(o, n, h, k) == e + c + b);
    assert((e + c + b)[x] == c[x - e.len()]);
    if in_block(o, n, h, k, x) {
        let j = choose|j: int| 0 <= j < k && (#[trigger] anchor_of(o, n, h, j)).covers(x);
        lemma_anchor_at(o, n, h, j);
        if j < k - 1 {
            lemma_emitted_monotone(o, n, h, j + 1, k - 1);
        }
    }
}

#[verifier::spinoff_prover]
#[verifier::rlimit(40)]
proof fn lemma_kinds_block(o: Seq<Seq<u8>>, n: Seq<Seq<u8>>, h: Seq<LineHunk>, k: int, x: int)
    requires
        hunks_wf(h, o.len() as int, n.len() as int),
        o.len() + n.len() < u32::MAX,
        0 < k <= h.len(),
        emitted(o, n, h, k - 1).len() + gap_len(h, k - 1, o.len() as int) <= x < emitted(o, n, h, k).len(),
    ensures
        emitted(o, n, h, k)[x].kind != RowKind::Context,
        in_block(o, n, h, k, x),
{
    let e = emitted(o, n, h, k - 1);
    let c = context_rows(gap_old(h, k - 1), gap_new(h, k - 1), gap_len(h, k - 1, o.len() as int));
    let b = block_rows(o, n, h[k - 1]);
    lemma_anchor_at(o, n, h, k - 1);
    assert(h[k - 1] == h[k - 1]);
    lemma_block_not_context(o, n, h[k - 1]);
    assert(emitted(o, n, h, k) == e + c + b);
    assert((e + c + b)[x] == b[x - e.len() - c.len()]);
    assert(anchor_of(o, n, h, k - 1).covers(x));
}

/// A row is a context row exactly when no block's anchor covers it: the
/// rows of the blocks are the changed ones, and only they.
pub proof fn lemma_context_iff_outside_hunks(o: Seq<Seq<u8>>, n: Seq<Seq<u8>>, h: Seq<LineHunk>, x: int)
    requires
        hunks_wf(h, o.len() as int, n.len() as int),
        o.len() + n.len() < u32::MAX,
        0 <= x < aligned_rows(o, n, h).len(),
    ensures
        (aligned_rows(o, n, h)[x].kind == RowKind::Context)
            <==> !(exists|k: int| 0 <= k < h.len() && (#[trigger] anchors(o, n, h)[k]).covers(x)),
{
    let kk = h.len() as int;
    let e = emitted(o, n, h, kk);
    let c = context_rows(gap_old(h, kk), gap_new(h, kk), gap_len(h, kk, o.len() as int));
    if x < e.len() {
        assert(aligned_rows(o, n, h)[x] == e[x]);
        lemma_emitted_kinds(o, n, h, kk, x);
        if exists|k: int| 0 <= k < h.len() && (#[trigger] anchors(o, n, h)[k]).covers(x) {
            let k = choose|k: int| 0 <= k < h.len() && (#[trigger] anchors(o, n, h)[k]).covers(x);
            assert(anchors(o, n, h)[k] == anchor_of(o, n, h, k));
        }
        if in_block(o, n, h, kk, x) {
            let j = choose|j: int| 0 <= j < kk && (#[trigger] anchor_of(o, n, h, j)).covers(x);
            assert(anchors(o, n, h)[j] == anchor_of(o, n, h, j));
        }
    } else {
        assert(aligned_rows(o, n, h)[x] == c[x - e.len()]);
        if exists|k: int| 0 <= k < h.len() && (#[trigger] anchors(o, n, h)[k]).covers(x) {
            let k = choose|k: int| 0 <= k < h.len() && (#[trigger] anchors(o, n, h)[k]).covers(x);
            assert(anchors(o, n, h)[k] == anchor_of(o, n, h, k));
            lemma_anchor_at(o, n, h, k);
            lemma_emitted_monotone(o, n, h, k + 1, kk);
        }
    }
}

/// The old lines shown by the rows that are not context rows (`right`: the
/// new lines), top to bottom.
pub open spec fn changed_lines(rs: Seq<RowPair>, right: bool) -> Seq<u32>
    decreases rs.len(),
{
    if rs.len() == 0 {
        Seq::empty()
    } else {
        changed_lines(rs.drop_last(), right) + if rs.last().kind != RowKind::Context {
            if right { right_of(rs.last()) } else { left_of(rs.last()) }
        } else {
            Seq::empty()
        }
    }
}

proof fn lemma_changed_concat(a: Seq<RowPair>, b: Seq<RowPair>, right: bool)
    ensures
        changed_lines(a + b, right) == changed_lines(a, right) + changed_lines(b, right),
    decreases b.len(),
{
    if b.len() == 0 {
        assert(a + b =~= a);
        assert(changed_lines(a, right) + changed_lines(b, right) =~= changed_lines(a, right));
    } else {
        lemma_changed_concat(a, b.drop_last(), right);
        assert((a + b).drop_last() =~= a + b.drop_last());
        assert((a + b).last() == b.last());
    }
}

proof fn lemma_changed_context(i: int, j: int, c: int, right: bool)
    requires
        c >= 0,
    ensures
        changed_lines(context_rows(i, j, c), right).len() == 0,
    decreases c,
{
    if c > 0 {
        lemma_changed_context(i, j, c - 1, right);
        assert(context_rows(i, j, c).drop_last() =~= context_rows(i, j, c - 1));
    }
}

/// Rows none of which is a context row show as changed all the lines they show.
proof fn lemma_changed_all(rs: Seq<RowPair>, right: bool)
    requires
        forall|x: int| 0 <= x < rs.len() ==> (#[trigger] rs[x]).kind != RowKind::Context,
    ensures
        changed_lines(rs, right) == if right { rights(rs) } else { lefts(rs) },
    decreases rs.len(),
{
    if rs.len() > 0 {
        assert forall|x: int| 0 <= x < rs.len() - 1 implies (#[trigger] rs.drop_last()[x]).kind != RowKind::Context by {
            assert(rs.drop_last()[x] == rs[x]);
        }
        lemma_changed_all(rs.drop_last(), right);
        assert(rs.last() == rs[rs.len() - 1]);
    }
}

proof fn lemma_changed_emitted(o: Seq<Seq<u8>>, n: Seq<Seq<u8>>, h: Seq<LineHunk>, k: int)
    requires
        hunks_wf(h, o.len() as int, n.len() as int),
        0 <= k <= h.len(),
    ensures
        changed_lines(emitted(o, n, h, k), false).len() == removed_total(h.take(k)),
        changed_lines(emitted(o, n, h, k), true).len() == added_total(h.take(k)),
    decreases k,
{
    if k > 0 {
        lemma_changed_emitted(o, n, h, k - 1);
        assert(h[k - 1] == h[k - 1]);
        let e = emitted(o, n, h, k - 1);
        let g = gap_len(h, k - 1, o.len() as int);
        let c = context_rows(gap_old(h, k - 1), gap_new(h, k - 1), g);
        let b = block_rows(o, n, h[k - 1]);
        lemma_changed_concat(e, c, false);
        lemma_changed_concat(e + c, b, false);
        lemma_changed_concat(e, c, true);
        lemma_changed_concat(e + c, b, true);
        lemma_changed_context(gap_old(h, k - 1), gap_new(h, k - 1), g, false);
        lemma_changed_context(gap_old(h, k - 1), gap_new(h, k - 1), g, true);
        lemma_block_not_context(o, n, h[k - 1]);
        lemma_changed_all(b, false);
        lemma_changed_all(b, true);
        lemma_lefts_block(o, n, h[k - 1]);
        assert(h.take(k).drop_last() =~= h.take(k - 1));
        assert(h.take(k).last() == h[k - 1]);
    } else {
        assert(h.take(0).len() == 0);
    }
}

/// The statistics count the changed lines: the old lines shown by rows
/// that are not context rows, and the same of the new lines.
pub proof fn lemma_stat_counts_changed_lines(o: Seq<Seq<u8>>, n: Seq<Seq<u8>>, h: Seq<LineHunk>)
    requires
        hunks_wf(h, o.len() as int, n.len() as int),
    ensures
        changed_lines(aligned_rows(o, n, h), false).len() == removed_total(h),
        changed_lines(aligned_rows(o, n, h), true).len() == added_total(h),
{
    let kk = h.len() as int;
    lemma_changed_emitted(o, n, h, kk);
    let e = emitted(o, n, h, kk);
    let g = gap_len(h, kk, o.len() as int);
    lemma_changed_concat(e, context_rows(gap_old(h, kk), gap_new(h, kk), g), false);
    lemma_changed_concat(e, context_rows(gap_old(h, kk), gap_new(h, kk), g), true);
    assert(g >= 0);
    lemma_changed_context(gap_old(h, kk), gap_new(h, kk), g, false);
    lemma_changed_context(gap_old(h, kk), gap_new(h, kk), g, true);
    assert(h.take(kk) =~= h);
}

/// The anchors of all blocks.
pub open spec fn anchors(old: Seq<Seq<u8>>, new: Seq<Seq<u8>>, h: Seq<LineHunk>) -> Seq<HunkAnchor> {
    Seq::new(h.len(), |k: int| anchor_of(old, new, h, k))
}

/// Aligns the two files along the given blocks of changes: unchanged lines
/// pair up one to one, each block yields its rows, and the statistics count
/// the lines the blocks remove and add.
pub fn align_with_hunks(ot: LineTable, nt: LineTable, h: &Vec<LineHunk>) -> (d: AlignedDiff)
    requires
        hunks_wf(h@, ot.lines().len() as int, nt.lines().len() as int),
        ot.lines().len() + nt.lines().len() < u32::MAX,
    ensures
        d.old@ == ot@,
        d.new@ == nt@,
        d.old.lines() == ot.lines(),
        d.new.lines() == nt.lines(),
        d.rows@ == aligned_rows(ot.lines(), nt.lines(), h@),
        d.hunks@ == anchors(ot.lines(), nt.lines(), h@),
        d.stat.removed == removed_total(h@),
        d.stat.added == added_total(h@),
{
    let ghost o = ot.lines();
    let ghost n = nt.lines();
    let ghost m = o.len() as int;
    let mut rows: Vec<RowPair> = Vec::new();
    let mut hunks: Vec<HunkAnchor> = Vec::new();
    let mut stat = LineStat { added: 0, removed: 0 };
    let mut old_cur: u32 = 0;
    let mut new_cur: u32 = 0;
    let mut k: usize = 0;
    let count = h.len();
    while k < count
        invariant
            count == h@.len(),
            k <= count,
            o == ot.lines(),
            n == nt.lines(),
            m == o.len(),
            hunks_wf(h@, m, n.len() as int),
            m + n.len() < u32::MAX,
            old_cur == gap_old(h@, k as int),
            new_cur == gap_new(h@, k as int),
            rows@ == emitted(o, n, h@, k as int),
            hunks@ == Seq::new(k as nat, |j: int| anchor_of(o, n, h@, j)),
            stat.removed == removed_total(h@.take(k as int)),
            stat.added == added_total(h@.take(k as int)),
        decreases count - k,
    {
        let hk = h[k];
        proof {
            lemma_emitted_bounds(o, n, h@, k as int);
            lemma_emitted_bounds(o, n, h@, k + 1);
            assert(h@.take(k + 1).drop_last() =~= h@.take(k as int));
            assert(h@[k as int] == hk);
        }
        push_context(&mut rows, &mut old_cur, &mut new_cur, hk.before_start);
        let start = rows.len() as u32;
        align_block(&ot, &nt, hk, &mut rows, &mut stat);
        let end = rows.len() as u32;
        hunks.push(HunkAnchor { start, end });
        old_cur = hk.before_end;
        new_cur = hk.after_end;
        k += 1;
        proof {
            assert(rows@ =~= emitted(o, n, h@, k as int));
            assert(hunks@ =~= Seq::new(k as nat, |j: int| anchor_of(o, n, h@, j)));
        }
    }
    proof {
        lemma_emitted_bounds(o, n, h@, count as int);
        assert(h@.take(count as int) =~= h@);
    }
    push_context(&mut rows, &mut old_cur, &mut new_cur, ot.len() as u32);
    AlignedDiff { rows, old: ot, new: nt, hunks, stat }
}

/// Aligns all lines of `old` and `new` into row pairs along gix's histogram
/// line diff. The result holds the whole of both files.
pub fn align(ot: LineTable, nt: LineTable) -> (d: AlignedDiff)
    requires
        ot.lines().len() + nt.lines().len() < u32::MAX,
        ot.lines().len() < 0x7fff_ffff,
        nt.lines().len() < 0x7fff_ffff,
    ensures
        d.old@ == ot@,
        d.new@ == nt@,
        d.old.lines() == ot.lines(),
        d.new.lines() == nt.lines(),
        d.rows@ == aligned_rows(ot.lines(), nt.lines(), histogram_line_hunks(ot.lines(), nt.lines())),
        d.hunks@ == anchors(ot.lines(), nt.lines(), histogram_line_hunks(ot.lines(), nt.lines())),
        d.stat.removed == removed_total(histogram_line_hunks(ot.lines(), nt.lines())),
        d.stat.added == added_total(histogram_line_hunks(ot.lines(), nt.lines())),
        hunks_wf(histogram_line_hunks(ot.lines(), nt.lines()), ot.lines().len() as int, nt.lines().len() as int),
        gaps_match(ot.lines(), nt.lines(), histogram_line_hunks(ot.lines(), nt.lines())),
        lefts(d.rows@) == span(0, ot.lines().len() as int),
        rights(d.rows@) == span(0, nt.lines().len() as int),
        forall|x: int| 0 <= x < d.rows@.len() ==> context_ok(ot.lines(), nt.lines(), #[trigger] d.rows@[x]),
        forall|k: int| 0 <= k < d.hunks@.len() ==> (#[trigger] d.hunks@[k]).start < d.hunks@[k].end <= d.rows@.len(),
        forall|j: int, k: int| 0 <= j < k < d.hunks@.len() ==> (#[trigger] d.hunks@[j]).end <= (#[trigger] d.hunks@[k]).start,
{
    let old_lines = ot.iter_lines();
    let new_lines = nt.iter_lines();
    let h = line_hunks(&old_lines, &new_lines);
    proof {
        assert(old_lines@.map_values(|l: &[u8]| l@) =~= ot.lines());
        assert(new_lines@.map_values(|l: &[u8]| l@) =~= nt.lines());
        let hs = histogram_line_hunks(ot.lines(), nt.lines());
        lemma_rows_cover_both_files(ot.lines(), nt.lines(), hs);
        lemma_context_rows_match(ot.lines(), nt.lines(), hs);
        lemma_anchors_ordered(ot.lines(), nt.lines(), hs);
    }
    align_with_hunks(ot, nt, &h)
}

} // verus!
