//! Searching the content pane: every place where the query's bytes occur
//! in a line, left to right without overlap. A query without an ASCII
//! capital matches regardless of ASCII case; one with a capital matches
//! exactly.
use vstd::prelude::*;
use core::ops::Range;
use crate::lines::{AlignedDiff, Cell, strip_cr};
use crate::state::{ContentState, rows_in_tables};
use crate::task::diff_fits;

verus! {

/// `b` as it is compared: ASCII capitals lowered when `fold`.
pub open spec fn fold_byte(b: u8, fold: bool) -> u8 {
    if fold && 65 <= b <= 90 { (b + 32) as u8 } else { b }
}

/// Whether `q` has an ASCII capital, which makes the search exact.
pub open spec fn has_capital(q: Seq<u8>) -> bool {
    exists|t: int| 0 <= t < q.len() && 65 <= #[trigger] q[t] <= 90
}

/// Whether `q` occurs in `line` at byte `i`.
pub open spec fn match_at(line: Seq<u8>, q: Seq<u8>, fold: bool, i: int) -> bool {
    &&& 0 <= i
    &&& i + q.len() <= line.len()
    &&& forall|t: int| 0 <= t < q.len() ==> fold_byte(#[trigger] line[i + t], fold) == q[t]
}

/// The occurrences of `q` in `line` from byte `i` on, leftmost first and
/// without overlap; none for an empty query.
pub open spec fn hits_from(line: Seq<u8>, q: Seq<u8>, fold: bool, i: int) -> Seq<Range<usize>>
    decreases line.len() - i,
{
    if q.len() == 0 || i < 0 || i + q.len() > line.len() {
        Seq::empty()
    } else if match_at(line, q, fold, i) {
        seq![Range { start: i as usize, end: (i + q.len()) as usize }] + hits_from(line, q, fold, i + q.len())
    } else {
        hits_from(line, q, fold, i + 1)
    }
}

/// The occurrences of `q` in `line`.
pub fn line_hits(line: &[u8], q: &[u8], fold: bool) -> (r: Vec<Range<usize>>)
    ensures
        r@ == hits_from(line@, q@, fold, 0),
{
    let mut out: Vec<Range<usize>> = Vec::new();
    if q.len() == 0 {
        return out;
    }
    let n = line.len();
    let m = q.len();
    let mut i: usize = 0;
    assert(out@ + hits_from(line@, q@, fold, 0) =~= hits_from(line@, q@, fold, 0));
    while i <= n && m <= n - i
        invariant
            n == line@.len(),
            m == q@.len(),
            m > 0,
            i <= n + 1,
            out@ + hits_from(line@, q@, fold, i as int) == hits_from(line@, q@, fold, 0),
        decreases n + 1 - i,
    {
        let mut t: usize = 0;
        let mut ok = true;
        while t < m
            invariant
                i + m <= n,
                n == line@.len(),
                m == q@.len(),
                t <= m,
                ok == forall|u: int| 0 <= u < t ==> fold_byte(#[trigger] line@[i + u], fold) == q@[u],
            decreases m - t,
        {
            let b = line[i + t];
            let f: u8 = if fold && 65 <= b && b <= 90 { b + 32 } else { b };
            if f != q[t] {
                ok = false;
            }
            t += 1;
        }
        if ok {
            let r = Range { start: i, end: i + m };
            let ghost before = out@;
            out.push(r);
            assert(out@ + hits_from(line@, q@, fold, (i + m) as int) =~= before + hits_from(line@, q@, fold, i as int));
            i = i + m;
        } else {
            i = i + 1;
        }
    }
    assert(out@ + hits_from(line@, q@, fold, i as int) =~= out@);
    out
}

/// The hits of the first `k` lines of a text, as (line, old side, range).
pub open spec fn text_hits(lines: Seq<Seq<u8>>, q: Seq<u8>, fold: bool, k: int) -> Seq<(u32, bool, Range<usize>)>
    decreases k,
{
    if k <= 0 || k > lines.len() {
        Seq::empty()
    } else {
        text_hits(lines, q, fold, k - 1) + hits_from(strip_cr(lines[k - 1]), q, fold, 0).map_values(
            |r: Range<usize>| ((k - 1) as u32, false, r))
    }
}

/// The hits of one side of a diff row: in its line, if it has one.
pub open spec fn cell_hits(lines: Seq<Seq<u8>>, c: Cell, row: int, right: bool, q: Seq<u8>, fold: bool) -> Seq<(u32, bool, Range<usize>)> {
    match c {
        Cell::Line(i) => hits_from(strip_cr(lines[i as int]), q, fold, 0).map_values(|r: Range<usize>| (row as u32, right, r)),
        Cell::Pad => Seq::empty(),
    }
}

/// The hits of the first `k` rows of a diff: each row's old side, then its new side.
pub open spec fn diff_hits(d: AlignedDiff, q: Seq<u8>, fold: bool, k: int) -> Seq<(u32, bool, Range<usize>)>
    decreases k,
{
    if k <= 0 || k > d.rows@.len() {
        Seq::empty()
    } else {
        diff_hits(d, q, fold, k - 1) + cell_hits(d.old.lines(), d.rows@[k - 1].left, k - 1, false, q, fold)
            + cell_hits(d.new.lines(), d.rows@[k - 1].right, k - 1, true, q, fold)
    }
}

/// The hits of `q` in what the content pane shows: the lines of a text, or
/// the rows of a diff whose lines lie in its tables; nothing otherwise.
pub open spec fn content_hits(c: ContentState, q: Seq<u8>) -> Seq<(u32, bool, Range<usize>)> {
    let fold = !has_capital(q);
    match c {
        ContentState::Text(v) => text_hits(v.table.lines(), q, fold, v.table.lines().len() as int),
        ContentState::Diff(v) => if diff_fits(v.diff) { diff_hits(v.diff, q, fold, v.diff.rows@.len() as int) } else { Seq::empty() },
        _ => Seq::empty(),
    }
}

/// Whether `q` has an ASCII capital.
fn capital_in(q: &[u8]) -> (b: bool)
    ensures
        b == has_capital(q@),
{
    let mut t: usize = 0;
    while t < q.len()
        invariant
            t <= q@.len(),
            forall|u: int| 0 <= u < t ==> !(65 <= #[trigger] q@[u] <= 90),
        decreases q@.len() - t,
    {
        if 65 <= q[t] && q[t] <= 90 {
            return true;
        }
        t += 1;
    }
    false
}

fn tag_hits(out: &mut Vec<(u32, bool, Range<usize>)>, hits: Vec<Range<usize>>, row: u32, right: bool)
    ensures
        final(out)@ == old(out)@ + hits@.map_values(|r: Range<usize>| (row, right, r)),
{
    let mut j: usize = 0;
    let ghost start = out@;
    while j < hits.len()
        invariant
            j <= hits@.len(),
            out@ == start + hits@.take(j as int).map_values(|r: Range<usize>| (row, right, r)),
        decreases hits@.len() - j,
    {
        let r = Range { start: hits[j].start, end: hits[j].end };
        out.push((row, right, r));
        j += 1;
        assert(hits@.take(j as int).map_values(|r: Range<usize>| (row, right, r))
            =~= hits@.take(j - 1).map_values(|r: Range<usize>| (row, right, r)).push((row, right, r)));
    }
    assert(hits@.take(hits@.len() as int) =~= hits@);
}

/// The hits of `q` in what the content pane shows.
pub fn content_matches(c: &ContentState, q: &[u8]) -> (r: Vec<(u32, bool, Range<usize>)>)
    ensures
        r@ == content_hits(*c, q@),
{
    let fold = !capital_in(q);
    let mut out: Vec<(u32, bool, Range<usize>)> = Vec::new();
    match c {
        ContentState::Text(v) => {
            let n = v.table.len();
            let mut k: usize = 0;
            while k < n
                invariant
                    k <= n,
                    n == v.table.lines().len(),
                    n <= u32::MAX,
                    out@ == text_hits(v.table.lines(), q@, fold, k as int),
                decreases n - k,
            {
                let hits = line_hits(v.table.line_display(k as u32), q, fold);
                tag_hits(&mut out, hits, k as u32, false);
                k += 1;
            }
        },
        ContentState::Diff(v) => {
            if v.diff.fits_view() {
                let n = v.diff.rows.len();
                let mut k: usize = 0;
                while k < n
                    invariant
                        k <= n,
                        n == v.diff.rows@.len(),
                        n < u32::MAX,
                        rows_in_tables(v.diff),
                        out@ == diff_hits(v.diff, q@, fold, k as int),
                    decreases n - k,
                {
                    let pair = v.diff.rows[k];
                    match pair.left {
                        Cell::Line(i) => {
                            let hits = line_hits(v.diff.old.line_display(i), q, fold);
                            tag_hits(&mut out, hits, k as u32, false);
                        },
                        Cell::Pad => {},
                    }
                    match pair.right {
                        Cell::Line(j) => {
                            let hits = line_hits(v.diff.new.line_display(j), q, fold);
                            tag_hits(&mut out, hits, k as u32, true);
                        },
                        Cell::Pad => {},
                    }
                    k += 1;
                    assert(out@ =~= diff_hits(v.diff, q@, fold, k as int));
                }
            }
        },
        _ => {},
    }
    out
}

} // verus!
