//! What the screen shows: the mode, the focused pane, overlays, search
//! results, and the content pane's text or diff with its folded display.
use vstd::prelude::*;
use vstd::multiset::Multiset;
use core::ops::Range;
use vstd::utf8::{decode_utf8, valid_utf8};
use vstd::string::StringSliceAdditionalSpecFns;
use crate::align::{span, lemma_span_concat};
use crate::changes::{FileChange, UnsupportedReason};
use crate::highlight::Highlighted;
use crate::inline::{InlineSpans, inline_diff, spec_inline_diff};
use crate::lines::{AlignedDiff, Cell, HunkAnchor, LineTable, RowKind, strip_cr};

verus! {

#[derive(Copy, Clone, PartialEq, Eq, Debug, Structural)]
pub enum Mode {
    Tree,
    Diff,
}

#[derive(Copy, Clone, PartialEq, Eq, Debug, Structural)]
pub enum Focus {
    Tree,
    Content,
}

/// The order of the changed files in diff mode.
#[derive(Copy, Clone, PartialEq, Eq, Debug, Structural)]
pub enum ChangeSort {
    /// By path from the repository root.
    Path,
    /// Grouped by kind of change, by path within a kind.
    Kind,
}

impl ChangeSort {
    pub fn next(self) -> (s: ChangeSort)
        ensures
            s == match self {
                ChangeSort::Path => ChangeSort::Kind,
                ChangeSort::Kind => ChangeSort::Path,
            },
    {
        match self {
            ChangeSort::Path => ChangeSort::Kind,
            ChangeSort::Kind => ChangeSort::Path,
        }
    }

    pub fn label(self) -> (l: &'static str)
        ensures
            l@ == match self {
                ChangeSort::Path => "パス順"@,
                ChangeSort::Kind => "種別順"@,
            },
    {
        match self {
            ChangeSort::Path => "パス順",
            ChangeSort::Kind => "種別順",
        }
    }
}

#[derive(Copy, Clone, PartialEq, Eq, Debug, Structural)]
pub enum InputKind {
    /// Searching the content pane.
    Search,
    /// Filtering the tree by file name.
    Filter,
}

#[derive(Clone, Debug)]
pub enum Overlay {
    /// No overlay is open.
    Closed,
    Help,
    Input { kind: InputKind, buffer: String },
}

impl Overlay {
    pub fn is_help(&self) -> (b: bool)
        ensures
            b == (self is Help),
    {
        match self {
            Overlay::Help => true,
            _ => false,
        }
    }

    pub fn is_input(&self) -> (b: bool)
        ensures
            b == (self is Input),
    {
        match self {
            Overlay::Input { .. } => true,
            _ => false,
        }
    }
}

/// A search hit: a row, and whether it is on the right (new) side.
pub open spec fn hit_key(m: (u32, bool, Range<usize>)) -> (u32, bool) {
    (m.0, m.1)
}

/// The ranges of the matches on one row and side, in order.
pub open spec fn ranges_for(ms: Seq<(u32, bool, Range<usize>)>, k: (u32, bool)) -> Seq<Range<usize>>
    decreases ms.len(),
{
    if ms.len() == 0 {
        Seq::empty()
    } else {
        let r = ranges_for(ms.drop_last(), k);
        if hit_key(ms.last()) == k { r.push(ms.last().2) } else { r }
    }
}

/// Hits in row order, the left side first.
pub open spec fn hit_lt(a: (u32, bool), b: (u32, bool)) -> bool {
    a.0 < b.0 || (a.0 == b.0 && !a.1 && b.1)
}

/// The ranges stored under key `k`, none when it has no entry.
pub open spec fn lookup(keys: Seq<(u32, bool)>, lists: Seq<Seq<Range<usize>>>, k: (u32, bool)) -> Seq<Range<usize>> {
    if keys.contains(k) {
        lists[choose|i: int| 0 <= i < keys.len() && keys[i] == k]
    } else {
        Seq::empty()
    }
}

pub open spec fn list_views(lists: Seq<Vec<Range<usize>>>) -> Seq<Seq<Range<usize>>> {
    lists.map_values(|l: Vec<Range<usize>>| l@)
}

pub open spec fn keys_unique(keys: Seq<(u32, bool)>) -> bool {
    forall|i: int, j: int| 0 <= i < j < keys.len() ==> keys[i] != keys[j]
}

/// Calls `slice::sort_unstable` on the hits, which orders them as tuples:
/// by row, then the left side before the right.
#[verifier::external_body]
fn sort_hits(v: &mut Vec<(u32, bool)>)
    ensures
        final(v)@.to_multiset() == old(v)@.to_multiset(),
        forall|i: int, j: int| 0 <= i < j < final(v)@.len() ==> !hit_lt(final(v)@[j], final(v)@[i]),
{
    v.sort_unstable()
}

/// The matches of the content pane's search, looked up by row and side.
#[derive(Debug, Default)]
pub struct SearchState {
    pub query: String,
    /// The rows and sides with a match, in order of first match.
    pub keys: Vec<(u32, bool)>,
    /// The ranges matched on each of them.
    pub lists: Vec<Vec<Range<usize>>>,
    /// The rows and sides with a match, in order.
    pub hits: Vec<(u32, bool)>,
    pub current: usize,
}

impl SearchState {
    pub open spec fn wf(&self) -> bool {
        &&& self.keys@.len() == self.lists@.len()
        &&& keys_unique(self.keys@)
    }

    /// The ranges stored for a row and side.
    pub open spec fn ranges_v(&self, k: (u32, bool)) -> Seq<Range<usize>> {
        lookup(self.keys@, list_views(self.lists@), k)
    }

    /// Nothing searched.
    pub open spec fn is_fresh(&self) -> bool {
        &&& self.query@.len() == 0
        &&& self.keys@.len() == 0
        &&& self.lists@.len() == 0
        &&& self.hits@.len() == 0
        &&& self.current == 0
    }

    pub fn new() -> (s: SearchState)
        ensures
            s.wf(),
            s.is_fresh(),
            forall|k: (u32, bool)| #[trigger] s.ranges_v(k).len() == 0,
    {
        SearchState { query: String::new(), keys: Vec::new(), lists: Vec::new(), hits: Vec::new(), current: 0 }
    }

    pub fn is_active(&self) -> (b: bool)
        ensures
            b == (self.query@.len() > 0),
    {
        !self.query.as_str().is_empty()
    }

    pub fn clear(&mut self)
        ensures
            final(self).wf(),
            final(self).is_fresh(),
            forall|k: (u32, bool)| #[trigger] final(self).ranges_v(k).len() == 0,
    {
        *self = SearchState::new();
    }

    /// Stores the matches of `query`: the ranges of each row and side in
    /// the order given, and each row and side with a match once among the
    /// hits, in order.
    pub fn set(&mut self, query: String, matches: Vec<(u32, bool, Range<usize>)>)
        ensures
            final(self).wf(),
            final(self).query == query,
            final(self).current == 0,
            forall|k: (u32, bool)| #[trigger] final(self).ranges_v(k) == ranges_for(matches@, k),
            forall|k: (u32, bool)| #[trigger] final(self).hits@.contains(k) <==> exists|i: int|
                0 <= i < matches@.len() && hit_key(#[trigger] matches@[i]) == k,
            forall|i: int, j: int| 0 <= i < j < final(self).hits@.len() ==> hit_lt(final(self).hits@[i], final(self).hits@[j]),
    {
        let mut keys: Vec<(u32, bool)> = Vec::new();
        let mut lists: Vec<Vec<Range<usize>>> = Vec::new();
        let mut n: usize = 0;
        while n < matches.len()
            invariant
                n <= matches@.len(),
                keys@.len() == lists@.len(),
                keys_unique(keys@),
                forall|k: (u32, bool)| #[trigger] lookup(keys@, list_views(lists@), k)
                    == ranges_for(matches@.take(n as int), k),
                forall|k: (u32, bool)| #[trigger] keys@.contains(k) <==> exists|i: int|
                    0 <= i < n && hit_key(#[trigger] matches@[i]) == k,
            decreases matches@.len() - n,
        {
            let row = matches[n].0;
            let right = matches[n].1;
            let r = Range { start: matches[n].2.start, end: matches[n].2.end };
            let ghost before_lists = list_views(lists@);
            let ghost before_keys = keys@;
            proof {
                assert(matches@.take(n + 1).drop_last() =~= matches@.take(n as int));
                assert(matches@.take(n + 1).last() == matches@[n as int]);
            }
            let mut idx: usize = 0;
            while idx < keys.len() && !(keys[idx].0 == row && keys[idx].1 == right)
                invariant
                    idx <= keys@.len(),
                    forall|t: int| 0 <= t < idx ==> keys@[t] != (row, right),
                decreases keys@.len() - idx,
            {
                idx += 1;
            }
            if idx < keys.len() {
                lists[idx].push(r);
                proof {
                    let key = (row, right);
                    let after = list_views(lists@);
                    assert(keys@[idx as int] == key);
                    assert(keys@.contains(key));
                    assert(keys@ == before_keys);
                    assert(after =~= before_lists.update(idx as int, before_lists[idx as int].push(r)));
                    assert(r == matches@[n as int].2);
                    assert forall|k: (u32, bool)| #[trigger] lookup(keys@, after, k) == ranges_for(matches@.take(n + 1), k) by {
                        assert(ranges_for(matches@.take(n + 1), k) == if k == key {
                            ranges_for(matches@.take(n as int), k).push(r)
                        } else {
                            ranges_for(matches@.take(n as int), k)
                        });
                        assert(lookup(before_keys, before_lists, k) == ranges_for(matches@.take(n as int), k));
                        if keys@.contains(k) {
                            let c = choose|i: int| 0 <= i < keys@.len() && keys@[i] == k;
                            if k == key {
                                assert(c == idx as int);
                            } else {
                                assert(c != idx as int);
                            }
                        }
                    }
                    assert forall|k: (u32, bool)| #[trigger] keys@.contains(k) implies exists|i: int|
                        0 <= i < n + 1 && hit_key(#[trigger] matches@[i]) == k by {
                        assert(before_keys.contains(k));
                    }
                    assert forall|k: (u32, bool)| (exists|i: int| 0 <= i < n + 1 && hit_key(#[trigger] matches@[i]) == k)
                        implies #[trigger] keys@.contains(k) by {
                        let i = choose|i: int| 0 <= i < n + 1 && hit_key(#[trigger] matches@[i]) == k;
                        if i == n {
                            assert(hit_key(matches@[i]) == key);
                        }
                    }
                }
            } else {
                let mut list: Vec<Range<usize>> = Vec::new();
                list.push(r);
                keys.push((row, right));
                lists.push(list);
                proof {
                    let key = (row, right);
                    let after = list_views(lists@);
                    let m = before_keys.len() as int;
                    assert(keys@ == before_keys.push(key));
                    assert(after =~= before_lists.push(seq![r]));
                    assert(r == matches@[n as int].2);
                    assert(!before_keys.contains(key));
                    assert(keys_unique(keys@)) by {
                        assert forall|i: int, j: int| 0 <= i < j < keys@.len() implies keys@[i] != keys@[j] by {
                            if j == m {
                                assert(keys@[i] == before_keys[i]);
                            } else {
                                assert(keys@[i] == before_keys[i] && keys@[j] == before_keys[j]);
                            }
                        }
                    }
                    assert forall|k: (u32, bool)| #[trigger] lookup(keys@, after, k) == ranges_for(matches@.take(n + 1), k) by {
                        assert(ranges_for(matches@.take(n + 1), k) == if k == key {
                            ranges_for(matches@.take(n as int), k).push(r)
                        } else {
                            ranges_for(matches@.take(n as int), k)
                        });
                        assert(lookup(before_keys, before_lists, k) == ranges_for(matches@.take(n as int), k));
                        if k == key {
                            assert(keys@[m] == k);
                            assert(keys@.contains(k));
                            let c = choose|i: int| 0 <= i < keys@.len() && keys@[i] == k;
                            assert(c == m);
                            assert(ranges_for(matches@.take(n as int), k) =~= Seq::<Range<usize>>::empty()) by {
                                if ranges_for(matches@.take(n as int), k).len() > 0 {
                                    lemma_ranges_for_key(matches@.take(n as int), k);
                                    let i = choose|i: int| 0 <= i < matches@.take(n as int).len() && hit_key(#[trigger] matches@.take(n as int)[i]) == k;
                                    assert(hit_key(matches@[i]) == k);
                                }
                            }
                        } else if keys@.contains(k) {
                            let c = choose|i: int| 0 <= i < keys@.len() && keys@[i] == k;
                            assert(c < m);
                            assert(before_keys[c] == k);
                            assert(before_keys.contains(k));
                            let c0 = choose|i: int| 0 <= i < before_keys.len() && before_keys[i] == k;
                            assert(keys@[c0] == k);
                            assert(c == c0);
                            assert(after[c] == before_lists[c]);
                        } else {
                            assert(!before_keys.contains(k)) by {
                                if before_keys.contains(k) {
                                    let c0 = choose|i: int| 0 <= i < before_keys.len() && before_keys[i] == k;
                                    assert(keys@[c0] == k);
                                }
                            }
                        }
                    }
                    assert forall|k: (u32, bool)| #[trigger] keys@.contains(k) implies exists|i: int|
                        0 <= i < n + 1 && hit_key(#[trigger] matches@[i]) == k by {
                        let c = choose|i: int| 0 <= i < keys@.len() && keys@[i] == k;
                        if c < m {
                            assert(before_keys[c] == k);
                            assert(before_keys.contains(k));
                        } else {
                            assert(hit_key(matches@[n as int]) == k);
                        }
                    }
                    assert forall|k: (u32, bool)| (exists|i: int| 0 <= i < n + 1 && hit_key(#[trigger] matches@[i]) == k)
                        implies #[trigger] keys@.contains(k) by {
                        let i = choose|i: int| 0 <= i < n + 1 && hit_key(#[trigger] matches@[i]) == k;
                        if i == n {
                            assert(keys@[m] == k);
                        } else {
                            assert(before_keys.contains(k));
                            let c0 = choose|t: int| 0 <= t < before_keys.len() && before_keys[t] == k;
                            assert(keys@[c0] == k);
                        }
                    }
                }
            }
            n += 1;
        }
        assert(matches@.take(n as int) =~= matches@);
        let mut hits: Vec<(u32, bool)> = Vec::new();
        let mut t: usize = 0;
        while t < keys.len()
            invariant
                t <= keys@.len(),
                hits@ == keys@.take(t as int),
            decreases keys@.len() - t,
        {
            hits.push(keys[t]);
            t += 1;
            assert(hits@ =~= keys@.take(t as int));
        }
        assert(keys@.take(t as int) =~= keys@);
        let ghost unsorted = hits@;
        sort_hits(&mut hits);
        proof {
            assert forall|k: (u32, bool)| #[trigger] hits@.contains(k) <==> unsorted.contains(k) by {
                assert(hits@.to_multiset().count(k) == unsorted.to_multiset().count(k));
                broadcast use vstd::seq_lib::group_to_multiset_ensures;
            }
            assert forall|i: int, j: int| 0 <= i < j < hits@.len() implies hit_lt(hits@[i], hits@[j]) by {
                assert(!hit_lt(hits@[j], hits@[i]));
                if hits@[i] == hits@[j] {
                    lemma_unique_count(unsorted, hits@[i]);
                    lemma_count_two(hits@, i, j);
                }
            }
        }
        self.query = query;
        self.keys = keys;
        self.lists = lists;
        self.hits = hits;
        self.current = 0;
    }

    /// The ranges of the matches on a row and side.
    pub fn ranges(&self, row: u32, right: bool) -> (r: &[Range<usize>])
        requires
            self.wf(),
        ensures
            r@ == self.ranges_v((row, right)),
    {
        let mut idx: usize = 0;
        while idx < self.keys.len()
            invariant
                self.wf(),
                idx <= self.keys@.len(),
                forall|t: int| 0 <= t < idx ==> self.keys@[t] != (row, right),
            decreases self.keys@.len() - idx,
        {
            if self.keys[idx].0 == row && self.keys[idx].1 == right {
                proof {
                    assert(self.keys@[idx as int] == (row, right));
                    assert(self.keys@.contains((row, right)));
                    let c = choose|i: int| 0 <= i < self.keys@.len() && self.keys@[i] == (row, right);
                    assert(c == idx);
                }
                return self.lists[idx].as_slice();
            }
            idx += 1;
        }
        assert(!self.keys@.contains((row, right)));
        &[]
    }
}

proof fn lemma_ranges_for_key(ms: Seq<(u32, bool, Range<usize>)>, k: (u32, bool))
    requires
        ranges_for(ms, k).len() > 0,
    ensures
        exists|i: int| 0 <= i < ms.len() && hit_key(#[trigger] ms[i]) == k,
    decreases ms.len(),
{
    if hit_key(ms.last()) != k {
        lemma_ranges_for_key(ms.drop_last(), k);
        let i = choose|i: int| 0 <= i < ms.drop_last().len() && hit_key(#[trigger] ms.drop_last()[i]) == k;
        assert(ms[i] == ms.drop_last()[i]);
    }
}

proof fn lemma_unique_count(s: Seq<(u32, bool)>, k: (u32, bool))
    requires
        keys_unique(s),
    ensures
        s.to_multiset().count(k) <= 1,
    decreases s.len(),
{
    broadcast use vstd::seq_lib::group_to_multiset_ensures;
    broadcast use vstd::multiset::group_multiset_axioms;
    if s.len() > 0 {
        let rest = s.drop_last();
        let a = s.last();
        assert forall|i: int, j: int| 0 <= i < j < rest.len() implies rest[i] != rest[j] by {
            assert(rest[i] == s[i] && rest[j] == s[j]);
        }
        lemma_unique_count(rest, k);
        assert(s =~= rest.push(a));
        assert(rest.push(a).to_multiset() =~= rest.to_multiset().insert(a));
        if a == k {
            assert(!rest.contains(k)) by {
                if rest.contains(k) {
                    let i = choose|i: int| 0 <= i < rest.len() && rest[i] == k;
                    assert(s[i] == s[s.len() - 1]);
                }
            }
            assert(rest.to_multiset().count(k) == 0);
        }
    } else {
        assert(s.to_multiset() =~= Multiset::<(u32, bool)>::empty());
    }
}

proof fn lemma_count_two(s: Seq<(u32, bool)>, i: int, j: int)
    requires
        0 <= i < j < s.len(),
        s[i] == s[j],
    ensures
        s.to_multiset().count(s[i]) >= 2,
{
    broadcast use vstd::seq_lib::group_to_multiset_ensures;
    broadcast use vstd::multiset::group_multiset_axioms;
    let k = s[i];
    let a = s.take(j);
    let front = s.take(j + 1);
    let back = s.skip(j + 1);
    assert(front =~= a.push(k));
    assert(a[i] == k);
    assert(a.contains(k));
    assert(a.to_multiset().count(k) > 0);
    assert(a.push(k).to_multiset() =~= a.to_multiset().insert(k));
    assert(front.to_multiset().count(k) >= 2);
    vstd::seq_lib::lemma_multiset_commutative(front, back);
    assert(s =~= front + back);
    assert((front + back).to_multiset().count(k) == front.to_multiset().count(k) + back.to_multiset().count(k));
}

/// A file shown as text.
#[derive(Debug)]
pub struct TextView {
    pub path: String,
    pub table: LineTable,
    pub highlight: Option<Highlighted>,
    pub offset: usize,
    pub hscroll: usize,
}

/// One row of a folded display: a row of the diff, or a run of unchanged
/// rows left out.
#[derive(Copy, Clone, PartialEq, Eq, Debug, Structural)]
pub enum DisplayRow {
    Row(u32),
    Gap { start: u32, count: u32 },
}

pub open spec fn sat_sub(a: int, b: int) -> int {
    if a > b { a - b } else { 0 }
}

pub open spec fn min_of(a: int, b: int) -> int {
    if a < b { a } else { b }
}

/// Row `i` lies within `context` rows of hunk `h`.
pub open spec fn near_hunk(h: HunkAnchor, context: int, total: int, i: int) -> bool {
    sat_sub(h.start as int, context) <= i < min_of(h.end + context, total)
}

/// Which rows a folded display keeps: those near some hunk.
pub open spec fn kept_rows(hunks: Seq<HunkAnchor>, context: int, total: int) -> Seq<bool> {
    Seq::new(total as nat, |i: int| exists|k: int| 0 <= k < hunks.len() && #[trigger] near_hunk(hunks[k], context, total, i))
}

/// The first row at or after `i` that is kept, or the end.
pub open spec fn run_end(keep: Seq<bool>, i: int) -> int
    decreases keep.len() - i,
{
    if 0 <= i < keep.len() && !keep[i] {
        run_end(keep, i + 1)
    } else {
        i
    }
}

pub proof fn lemma_run_end(keep: Seq<bool>, i: int)
    requires
        0 <= i <= keep.len(),
    ensures
        i <= run_end(keep, i) <= keep.len(),
        i < keep.len() && !keep[i] ==> i < run_end(keep, i),
        forall|t: int| i <= t < run_end(keep, i) ==> !keep[t],
        run_end(keep, i) < keep.len() ==> keep[run_end(keep, i)],
    decreases keep.len() - i,
{
    if 0 <= i < keep.len() && !keep[i] {
        lemma_run_end(keep, i + 1);
    }
}

/// Display rows for the diff rows `a..b`, one each.
pub open spec fn rows_between(a: int, b: int) -> Seq<DisplayRow> {
    Seq::new((b - a) as nat, |t: int| DisplayRow::Row((a + t) as u32))
}

/// The folded display of the rows from `i` on: kept rows stay, a run of
/// two or more left-out rows becomes one gap unless it was expanded (by
/// its first row), and a single left-out row stays.
pub open spec fn fold_from(keep: Seq<bool>, gaps: Seq<u32>, i: int) -> Seq<DisplayRow>
    decreases keep.len() - i,
{
    if i < 0 || i >= keep.len() {
        Seq::empty()
    } else if keep[i] {
        seq![DisplayRow::Row(i as u32)] + fold_from(keep, gaps, i + 1)
    } else {
        let j = run_end(keep, i);
        proof {
            lemma_run_end(keep, i);
        }
        (if j - i < 2 || gaps.contains(i as u32) {
            rows_between(i, j)
        } else {
            seq![DisplayRow::Gap { start: i as u32, count: (j - i) as u32 }]
        }) + fold_from(keep, gaps, j)
    }
}

/// The diff rows that a display shows or stands for, in order.
pub open spec fn expand_display(d: Seq<DisplayRow>) -> Seq<u32>
    decreases d.len(),
{
    if d.len() == 0 {
        Seq::empty()
    } else {
        expand_display(d.drop_last()) + match d.last() {
            DisplayRow::Row(r) => seq![r],
            DisplayRow::Gap { start, count } => span(start as int, start + count),
        }
    }
}

pub proof fn lemma_expand_concat(a: Seq<DisplayRow>, b: Seq<DisplayRow>)
    ensures
        expand_display(a + b) == expand_display(a) + expand_display(b),
    decreases b.len(),
{
    if b.len() == 0 {
        assert(a + b =~= a);
        assert(expand_display(a) + expand_display(b) =~= expand_display(a));
    } else {
        lemma_expand_concat(a, b.drop_last());
        assert((a + b).drop_last() =~= a + b.drop_last());
        assert((a + b).last() == b.last());
    }
}

proof fn lemma_expand_rows_between(a: int, b: int)
    requires
        0 <= a <= b < u32::MAX,
    ensures
        expand_display(rows_between(a, b)) == span(a, b),
    decreases b - a,
{
    if a < b {
        lemma_expand_rows_between(a, b - 1);
        assert(rows_between(a, b).drop_last() =~= rows_between(a, b - 1));
        lemma_span_concat(a, b - 1, b);
        assert(span(b - 1, b) =~= seq![(b - 1) as u32]);
    } else {
        assert(span(a, b) =~= Seq::<u32>::empty());
    }
}

/// A folded display stands for every diff row, once each and in order: folding
/// leaves rows out of sight but loses none.
pub proof fn lemma_fold_covers(keep: Seq<bool>, gaps: Seq<u32>, i: int)
    requires
        0 <= i <= keep.len(),
        keep.len() < u32::MAX,
    ensures
        expand_display(fold_from(keep, gaps, i)) == span(i, keep.len() as int),
    decreases keep.len() - i,
{
    if i == keep.len() {
        assert(span(i, i) =~= Seq::<u32>::empty());
    } else if keep[i] {
        lemma_fold_covers(keep, gaps, i + 1);
        lemma_expand_concat(seq![DisplayRow::Row(i as u32)], fold_from(keep, gaps, i + 1));
        assert(seq![DisplayRow::Row(i as u32)].drop_last() =~= Seq::<DisplayRow>::empty());
        reveal_with_fuel(expand_display, 2);
        assert(expand_display(seq![DisplayRow::Row(i as u32)]) =~= seq![i as u32]);
        lemma_span_concat(i, i + 1, keep.len() as int);
        assert(span(i, i + 1) =~= seq![i as u32]);
    } else {
        let j = run_end(keep, i);
        lemma_run_end(keep, i);
        lemma_fold_covers(keep, gaps, j);
        let part = if j - i < 2 || gaps.contains(i as u32) {
            rows_between(i, j)
        } else {
            seq![DisplayRow::Gap { start: i as u32, count: (j - i) as u32 }]
        };
        lemma_expand_concat(part, fold_from(keep, gaps, j));
        if j - i < 2 || gaps.contains(i as u32) {
            lemma_expand_rows_between(i, j);
        } else {
            assert(part.drop_last() =~= Seq::<DisplayRow>::empty());
            reveal_with_fuel(expand_display, 2);
            assert(expand_display(part) =~= span(i, j));
        }
        lemma_span_concat(i, j, keep.len() as int);
    }
}

/// Every gap of a folded display stands for at least two rows.
pub proof fn lemma_fold_gaps(keep: Seq<bool>, gaps: Seq<u32>, i: int)
    requires
        0 <= i <= keep.len(),
        keep.len() < u32::MAX,
    ensures
        forall|k: int| 0 <= k < fold_from(keep, gaps, i).len() ==>
            (#[trigger] fold_from(keep, gaps, i)[k] matches DisplayRow::Gap { count, .. } ==> count >= 2),
    decreases keep.len() - i,
{
    let d = fold_from(keep, gaps, i);
    if i < keep.len() {
        if keep[i] {
            lemma_fold_gaps(keep, gaps, i + 1);
            assert forall|k: int| 0 <= k < d.len() implies (#[trigger] d[k] matches DisplayRow::Gap { count, .. } ==> count >= 2) by {
                if k > 0 {
                    assert(d[k] == fold_from(keep, gaps, i + 1)[k - 1]);
                }
            }
        } else {
            let j = run_end(keep, i);
            lemma_run_end(keep, i);
            lemma_fold_gaps(keep, gaps, j);
            let part = if j - i < 2 || gaps.contains(i as u32) {
                rows_between(i, j)
            } else {
                seq![DisplayRow::Gap { start: i as u32, count: (j - i) as u32 }]
            };
            assert forall|k: int| 0 <= k < d.len() implies (#[trigger] d[k] matches DisplayRow::Gap { count, .. } ==> count >= 2) by {
                if k >= part.len() {
                    assert(d[k] == fold_from(keep, gaps, j)[k - part.len()]);
                } else {
                    assert(d[k] == part[k]);
                }
            }
        }
    }
}

/// The first diff row that a display entry stands for.
pub open spec fn entry_start(d: DisplayRow) -> int {
    match d {
        DisplayRow::Row(r) => r as int,
        DisplayRow::Gap { start, .. } => start as int,
    }
}

/// How many diff rows a display entry stands for.
pub open spec fn entry_size(d: DisplayRow) -> int {
    match d {
        DisplayRow::Row(_) => 1,
        DisplayRow::Gap { count, .. } => count as int,
    }
}

/// The last of entries that stand for the rows `0..n` starts where the
/// others end, and those others stand for the rows before it.
proof fn lemma_last_entry(d: Seq<DisplayRow>, n: int)
    requires
        d.len() > 0,
        0 <= n < u32::MAX,
        expand_display(d) == span(0, n),
        d.last() matches DisplayRow::Gap { count, .. } ==> count >= 1,
    ensures
        entry_start(d.last()) == expand_display(d.drop_last()).len(),
        1 <= entry_size(d.last()),
        expand_display(d.drop_last()) == span(0, expand_display(d.drop_last()).len() as int),
        expand_display(d.drop_last()).len() + entry_size(d.last()) == n,
{
    let dl = d.drop_last();
    let last = d.last();
    let l = expand_display(dl).len() as int;
    let piece = match last {
        DisplayRow::Row(r) => seq![r],
        DisplayRow::Gap { start, count } => span(start as int, start + count),
    };
    assert(expand_display(d) == expand_display(dl) + piece);
    assert(piece.len() == entry_size(last));
    assert(piece.len() >= 1);
    assert(expand_display(d).len() == n);
    assert(l + piece.len() == n);
    assert(expand_display(d)[l] == piece[0]);
    assert(piece[0] as int == entry_start(last));
    assert(span(0, n)[l] as int == l);
    assert(expand_display(dl) =~= span(0, l)) by {
        assert forall|t: int| 0 <= t < l implies expand_display(dl)[t] == span(0, l)[t] by {
            assert(expand_display(d)[t] == expand_display(dl)[t]);
        }
    }
}

/// Entries that stand for the rows `0..n` in order, none of them empty,
/// follow one another: entry `k` starts where those before it end.
pub proof fn lemma_entry_follows(d: Seq<DisplayRow>, n: int, k: int)
    requires
        0 <= n < u32::MAX,
        expand_display(d) == span(0, n),
        forall|t: int| 0 <= t < d.len() ==> (#[trigger] d[t] matches DisplayRow::Gap { count, .. } ==> count >= 1),
        0 <= k < d.len(),
    ensures
        entry_start(d[k]) == expand_display(d.take(k)).len(),
        1 <= entry_size(d[k]),
        entry_start(d[k]) + entry_size(d[k]) == expand_display(d.take(k + 1)).len(),
    decreases d.len(),
{
    let dl = d.drop_last();
    assert(d.last() == d[d.len() - 1]);
    lemma_last_entry(d, n);
    if k == d.len() - 1 {
        assert(d.take(k) =~= dl);
        assert(d.take(k + 1) =~= d);
    } else {
        let l = expand_display(dl).len() as int;
        assert forall|t: int| 0 <= t < dl.len() implies (#[trigger] dl[t] matches DisplayRow::Gap { count, .. } ==> count >= 1) by {
            assert(dl[t] == d[t]);
        }
        lemma_entry_follows(dl, l, k);
        assert(d[k] == dl[k]);
        assert(d.take(k) =~= dl.take(k));
        assert(d.take(k + 1) =~= dl.take(k + 1));
    }
}

/// In a display built by folding, the row that entry `i` starts at is found
/// again at entry `i`: no earlier entry shows that row or one after it, and
/// entry `i` does. The rows that the entries start at increase strictly.
pub proof fn lemma_display_round_trip(v: DiffView, context: int, gaps: Seq<u32>, i: int)
    requires
        v.wf(),
        v.folded,
        v.display@ == spec_display(v.diff, true, context, gaps),
        0 <= i < v.display@.len(),
    ensures
        shows_at_or_after(v.display@[i], row_at_spec(v, i) as int),
        forall|k: int| 0 <= k < i ==> !shows_at_or_after(#[trigger] v.display@[k], row_at_spec(v, i) as int),
        forall|j: int, k: int| 0 <= j < k < v.display@.len() ==> row_at_spec(v, j) < row_at_spec(v, k),
{
    let d = v.display@;
    let n = v.diff.rows@.len() as int;
    let keep = kept_rows(v.diff.hunks@, context, n);
    lemma_fold_gaps(keep, gaps, 0);
    assert forall|k: int| 0 <= k < d.len() implies (#[trigger] d[k] matches DisplayRow::Gap { count, .. } ==> count >= 1) by {
        assert(d[k] == fold_from(keep, gaps, 0)[k]);
    }
    assert forall|j: int, k: int| 0 <= j < k < d.len() implies entry_start(#[trigger] d[j]) + entry_size(d[j]) <= entry_start(#[trigger] d[k]) by {
        lemma_entry_follows(d, n, j);
        lemma_entry_follows(d, n, k);
        lemma_expand_prefix_len(d, j + 1, k);
    }
    lemma_entry_follows(d, n, i);
    assert forall|k: int| 0 <= k < i implies !shows_at_or_after(#[trigger] d[k], row_at_spec(v, i) as int) by {
        assert(entry_start(d[k]) + entry_size(d[k]) <= entry_start(d[i]));
    }
    assert forall|j: int, k: int| 0 <= j < k < d.len() implies row_at_spec(v, j) < row_at_spec(v, k) by {
        assert(entry_start(d[j]) + entry_size(d[j]) <= entry_start(d[k]));
        lemma_entry_follows(d, n, j);
    }
}

/// A longer prefix of a display stands for at least as many rows.
pub proof fn lemma_expand_prefix_len(d: Seq<DisplayRow>, a: int, b: int)
    requires
        0 <= a <= b <= d.len(),
    ensures
        expand_display(d.take(a)).len() <= expand_display(d.take(b)).len(),
    decreases b - a,
{
    if a < b {
        lemma_expand_prefix_len(d, a, b - 1);
        assert(d.take(b).drop_last() =~= d.take(b - 1));
    }
}

/// Whether a display entry obeys the folding rule: a gap is a whole run
/// of two or more rows left out, not expanded; a row left out belongs to a
/// run shorter than two or expanded.
pub open spec fn fold_rule(keep: Seq<bool>, gaps: Seq<u32>, d: DisplayRow) -> bool {
    match d {
        DisplayRow::Gap { start, count } => {
            &&& count >= 2
            &&& !gaps.contains(start)
            &&& (start == 0 || keep[start - 1])
            &&& start + count == run_end(keep, start as int)
            &&& forall|r: int| start <= r < start + count ==> !#[trigger] keep[r]
        },
        DisplayRow::Row(r) => !keep[r as int] ==> exists|a: int| {
            &&& 0 <= a <= r < run_end(keep, a)
            &&& (a == 0 || keep[a - 1])
            &&& (run_end(keep, a) - a < 2 || gaps.contains(a as u32))
        },
    }
}

/// Every entry of a folded display obeys the folding rule: rows near a
/// hunk stay rows, and each longest run of other rows becomes one gap when
/// it has two or more rows and was not expanded, else stays rows.
pub proof fn lemma_fold_rule(keep: Seq<bool>, gaps: Seq<u32>, i: int)
    requires
        0 <= i <= keep.len(),
        keep.len() < u32::MAX,
        i == 0 || keep[i - 1] || (i < keep.len() && keep[i]),
    ensures
        forall|k: int| 0 <= k < fold_from(keep, gaps, i).len() ==> fold_rule(keep, gaps, #[trigger] fold_from(keep, gaps, i)[k]),
    decreases keep.len() - i,
{
    let d = fold_from(keep, gaps, i);
    if i < keep.len() {
        if keep[i] {
            lemma_fold_rule(keep, gaps, i + 1);
            assert forall|k: int| 0 <= k < d.len() implies fold_rule(keep, gaps, #[trigger] d[k]) by {
                if k > 0 {
                    assert(d[k] == fold_from(keep, gaps, i + 1)[k - 1]);
                }
            }
        } else {
            let j = run_end(keep, i);
            lemma_run_end(keep, i);
            if j < keep.len() {
                lemma_fold_rule(keep, gaps, j);
            }
            let part = if j - i < 2 || gaps.contains(i as u32) {
                rows_between(i, j)
            } else {
                seq![DisplayRow::Gap { start: i as u32, count: (j - i) as u32 }]
            };
            assert(d == part + fold_from(keep, gaps, j));
            assert forall|k: int| 0 <= k < d.len() implies fold_rule(keep, gaps, #[trigger] d[k]) by {
                if k >= part.len() {
                    assert(d[k] == fold_from(keep, gaps, j)[k - part.len()]);
                    if j == keep.len() {
                        assert(fold_from(keep, gaps, j).len() == 0);
                    }
                } else {
                    assert(d[k] == part[k]);
                    if j - i < 2 || gaps.contains(i as u32) {
                        assert(d[k] == DisplayRow::Row((i + k) as u32));
                        assert(0 <= i <= i + k < run_end(keep, i));
                    }
                }
            }
        }
    }
}

/// A folded display stands for every row once and in order, and each of
/// its entries obeys the folding rule over the rows kept near the hunks.
pub proof fn lemma_display_partition(diff: AlignedDiff, context: int, gaps: Seq<u32>)
    requires
        diff.rows@.len() < u32::MAX,
    ensures
        expand_display(spec_display(diff, true, context, gaps)) == span(0, diff.rows@.len() as int),
        forall|k: int| 0 <= k < spec_display(diff, true, context, gaps).len() ==> fold_rule(
            kept_rows(diff.hunks@, context, diff.rows@.len() as int), gaps, #[trigger] spec_display(diff, true, context, gaps)[k]),
{
    let keep = kept_rows(diff.hunks@, context, diff.rows@.len() as int);
    lemma_fold_covers(keep, gaps, 0);
    lemma_fold_rule(keep, gaps, 0);
}

/// The display rows of a diff view: the folded display, or nothing when
/// every row is shown.
pub open spec fn spec_display(diff: AlignedDiff, folded: bool, context: int, gaps: Seq<u32>) -> Seq<DisplayRow> {
    if folded {
        fold_from(kept_rows(diff.hunks@, context, diff.rows@.len() as int), gaps, 0)
    } else {
        Seq::empty()
    }
}

/// The diff row shown at display index `index` (a gap's first row).
pub open spec fn row_at_spec(v: DiffView, index: int) -> u32 {
    if v.folded {
        if 0 <= index < v.display@.len() {
            match v.display@[index] {
                DisplayRow::Row(x) => x,
                DisplayRow::Gap { start, .. } => start,
            }
        } else {
            0
        }
    } else if 0 <= index < v.diff.rows@.len() {
        index as u32
    } else {
        0
    }
}

/// The row hunk jumps start from, for a window of `height` rows.
pub open spec fn anchor_spec(v: DiffView, height: int) -> u32 {
    let len = if v.folded { v.display@.len() as int } else { v.diff.rows@.len() as int };
    let want = v.offset + (if height > 0 { height } else { 1 }) / 4;
    if len == 0 { 0 } else { row_at_spec(v, if want < len - 1 { want } else { len - 1 }) }
}

/// The display index that shows diff row `row`: the first display row at or
/// after it, else the last display row.
pub open spec fn shows_at_or_after(d: DisplayRow, row: int) -> bool {
    match d {
        DisplayRow::Row(r) => r >= row,
        DisplayRow::Gap { start, count } => row < start + count,
    }
}

/// The spans of a changed row whose two lines are valid UTF-8; none for
/// any other row.
pub open spec fn spec_row_spans(diff: AlignedDiff, row: int) -> (Seq<Range<usize>>, Seq<Range<usize>>) {
    let pair = diff.rows@[row];
    match (pair.kind, pair.left, pair.right) {
        (RowKind::Changed, Cell::Line(i), Cell::Line(j)) => {
            let ob = strip_cr(diff.old.lines()[i as int]);
            let nb = strip_cr(diff.new.lines()[j as int]);
            if valid_utf8(ob) && valid_utf8(nb) {
                spec_inline_diff(decode_utf8(ob), decode_utf8(nb))
            } else {
                (Seq::empty(), Seq::empty())
            }
        },
        _ => (Seq::empty(), Seq::empty()),
    }
}

/// Calls `str::from_utf8`, which accepts exactly the valid UTF-8 byte strings.
#[verifier::external_body]
pub(crate) fn utf8_str(bytes: &[u8]) -> (r: Option<&str>)
    ensures
        match r {
            Some(s) => valid_utf8(bytes@) && s.spec_bytes() == bytes@,
            None => !valid_utf8(bytes@),
        },
{
    std::str::from_utf8(bytes).ok()
}

fn copy_ranges(v: &Vec<Range<usize>>) -> (r: Vec<Range<usize>>)
    ensures
        r@ == v@,
{
    let mut r: Vec<Range<usize>> = Vec::new();
    let mut i: usize = 0;
    while i < v.len()
        invariant
            i <= v@.len(),
            r@ == v@.take(i as int),
        decreases v@.len() - i,
    {
        r.push(Range { start: v[i].start, end: v[i].end });
        i += 1;
        assert(r@ =~= v@.take(i as int));
    }
    assert(v@.take(i as int) =~= v@);
    r
}

fn copy_spans(s: &InlineSpans) -> (r: InlineSpans)
    ensures
        r.old@ == s.old@,
        r.new@ == s.new@,
{
    InlineSpans { old: copy_ranges(&s.old), new: copy_ranges(&s.new) }
}

pub fn contains_u32(v: &Vec<u32>, x: u32) -> (b: bool)
    ensures
        b == v@.contains(x),
{
    let mut i: usize = 0;
    while i < v.len()
        invariant
            i <= v@.len(),
            forall|t: int| 0 <= t < i ==> v@[t] != x,
        decreases v@.len() - i,
    {
        if v[i] == x {
            return true;
        }
        i += 1;
    }
    false
}

/// Every line that a row names lies inside its side's table.
pub open spec fn rows_in_tables(d: AlignedDiff) -> bool {
    forall|k: int| 0 <= k < d.rows@.len() ==> {
        &&& ((#[trigger] d.rows@[k]).left matches Cell::Line(i) ==> i < d.old.lines().len())
        &&& (d.rows@[k].right matches Cell::Line(j) ==> j < d.new.lines().len())
    }
}

/// A diff shown side by side or unified, possibly folded around its hunks.
#[derive(Debug)]
pub struct DiffView {
    pub change: FileChange,
    pub diff: AlignedDiff,
    pub old_highlight: Option<Highlighted>,
    pub new_highlight: Option<Highlighted>,
    pub folded: bool,
    pub display: Vec<DisplayRow>,
    /// Gaps the user expanded, by their first row.
    pub expanded_gaps: Vec<u32>,
    pub offset: usize,
    pub hscroll: usize,
    /// The hunk last jumped to; a manual scroll forgets it.
    pub hunk_cursor: Option<usize>,
    /// Word spans already computed, by row.
    pub inline: Vec<(u32, InlineSpans)>,
}

impl DiffView {
    /// The display stands for every row in order, and the cached word spans
    /// are those of their rows.
    pub open spec fn wf(&self) -> bool {
        &&& self.wf_base()
        &&& self.folded ==> expand_display(self.display@) == span(0, self.diff.rows@.len() as int)
    }

    /// The rows have `u32` indices, and the cached word spans are those of their rows.
    pub open spec fn wf_base(&self) -> bool {
        &&& self.diff.rows@.len() < u32::MAX
        &&& (self.hunk_cursor matches Some(c) ==> c < self.diff.hunks@.len())
        &&& forall|k: int| 0 <= k < self.inline@.len() ==> {
            &&& (#[trigger] self.inline@[k]).0 < self.diff.rows@.len()
            &&& (self.inline@[k].1.old@, self.inline@[k].1.new@) == spec_row_spans(self.diff, self.inline@[k].0 as int)
        }
    }

    pub fn new(change: FileChange, diff: AlignedDiff, folded: bool, context: usize) -> (v: DiffView)
        requires
            diff.rows@.len() < u32::MAX,
        ensures
            v.wf(),
            v.change == change,
            v.diff == diff,
            v.old_highlight is None,
            v.new_highlight is None,
            v.folded == folded,
            v.display@ == spec_display(diff, folded, context as int, Seq::empty()),
            v.expanded_gaps@.len() == 0,
            v.offset == 0,
            v.hscroll == 0,
            v.hunk_cursor is None,
            v.inline@.len() == 0,
    {
        let mut view = DiffView {
            change,
            diff,
            old_highlight: None,
            new_highlight: None,
            folded,
            display: Vec::new(),
            expanded_gaps: Vec::new(),
            offset: 0,
            hscroll: 0,
            hunk_cursor: None,
            inline: Vec::new(),
        };
        view.rebuild_display(context);
        view
    }

    /// Recomputes the folded display; it is empty when every row is shown.
    pub fn rebuild_display(&mut self, context: usize)
        requires
            old(self).wf_base(),
        ensures
            final(self).wf(),
            final(self).display@ == spec_display(old(self).diff, old(self).folded, context as int, old(self).expanded_gaps@),
            final(self).change == old(self).change,
            final(self).diff == old(self).diff,
            final(self).old_highlight == old(self).old_highlight,
            final(self).new_highlight == old(self).new_highlight,
            final(self).folded == old(self).folded,
            final(self).expanded_gaps == old(self).expanded_gaps,
            final(self).offset == old(self).offset,
            final(self).hscroll == old(self).hscroll,
            final(self).hunk_cursor == old(self).hunk_cursor,
            final(self).inline == old(self).inline,
    {
        self.display = Vec::new();
        if !self.folded {
            return;
        }
        let total = self.diff.rows.len();
        let ghost hunks = self.diff.hunks@;
        let mut keep: Vec<bool> = Vec::new();
        let mut t: usize = 0;
        while t < total
            invariant
                t <= total,
                keep@ == Seq::new(t as nat, |i: int| false),
            decreases total - t,
        {
            keep.push(false);
            t += 1;
            assert(keep@ =~= Seq::new(t as nat, |i: int| false));
        }
        let mut k: usize = 0;
        while k < self.diff.hunks.len()
            invariant
                k <= hunks.len(),
                hunks == self.diff.hunks@,
                total == self.diff.rows@.len(),
                keep@.len() == total,
                forall|i: int| 0 <= i < total ==> #[trigger] keep@[i] == exists|q: int| 0 <= q < k && #[trigger] near_hunk(hunks[q], context as int, total as int, i),
            decreases hunks.len() - k,
        {
            let hs = self.diff.hunks[k].start as usize;
            let he = self.diff.hunks[k].end as usize;
            let start = if hs > context { hs - context } else { 0 };
            let end = if he >= total { total } else if context >= total - he { total } else { he + context };
            let ghost before = keep@;
            proof {
                assert(sat_sub(hunks[k as int].start as int, context as int) == start);
                assert(min_of(hunks[k as int].end + context, total as int) == end);
            }
            let mut j = start;
            while j < end
                invariant
                    end <= total,
                    start <= j,
                    j <= end || j == start,
                    keep@.len() == total,
                    forall|i: int| 0 <= i < total ==> #[trigger] keep@[i] == (before[i] || (start <= i < j)),
                decreases end - j,
            {
                keep.set(j, true);
                j += 1;
            }
            proof {
                assert forall|i: int| 0 <= i < total implies #[trigger] keep@[i] == exists|q: int| 0 <= q < k + 1 && #[trigger] near_hunk(hunks[q], context as int, total as int, i) by {
                    assert(near_hunk(hunks[k as int], context as int, total as int, i) == (start <= i < end));
                    assert(keep@[i] == (before[i] || (start <= i < end)));
                    if before[i] {
                        let q = choose|q: int| 0 <= q < k && #[trigger] near_hunk(hunks[q], context as int, total as int, i);
                        assert(near_hunk(hunks[q], context as int, total as int, i));
                    }
                    if exists|q: int| 0 <= q < k + 1 && #[trigger] near_hunk(hunks[q], context as int, total as int, i) {
                        let q = choose|q: int| 0 <= q < k + 1 && #[trigger] near_hunk(hunks[q], context as int, total as int, i);
                        if q < k {
                            assert(before[i]);
                        }
                    }
                }
            }
            k += 1;
        }
        assert(keep@ =~= kept_rows(hunks, context as int, total as int));
        let ghost target = fold_from(keep@, self.expanded_gaps@, 0);
        let mut display: Vec<DisplayRow> = Vec::new();
        let mut i: usize = 0;
        while i < total
            invariant
                i <= total,
                total == keep@.len(),
                total < u32::MAX,
                display@ + fold_from(keep@, self.expanded_gaps@, i as int) == target,
            decreases total - i,
        {
            if keep[i] {
                display.push(DisplayRow::Row(i as u32));
                i += 1;
                proof {
                    assert(display@ + fold_from(keep@, self.expanded_gaps@, i as int) =~= target);
                }
                continue;
            }
            let start = i;
            proof {
                lemma_run_end(keep@, start as int);
            }
            while i < total && !keep[i]
                invariant
                    start <= i <= total,
                    total == keep@.len(),
                    run_end(keep@, start as int) == run_end(keep@, i as int),
                decreases total - i,
            {
                i += 1;
            }
            let count = i - start;
            let ghost part = if count < 2 || self.expanded_gaps@.contains(start as u32) {
                rows_between(start as int, i as int)
            } else {
                seq![DisplayRow::Gap { start: start as u32, count: count as u32 }]
            };
            let ghost before = display@;
            if count < 2 || contains_u32(&self.expanded_gaps, start as u32) {
                let mut row = start;
                while row < i
                    invariant
                        start <= row <= i,
                        i < u32::MAX,
                        display@ == before + rows_between(start as int, row as int),
                    decreases i - row,
                {
                    display.push(DisplayRow::Row(row as u32));
                    row += 1;
                    assert(display@ =~= before + rows_between(start as int, row as int));
                }
            } else {
                display.push(DisplayRow::Gap { start: start as u32, count: count as u32 });
            }
            proof {
                assert(display@ =~= before + part);
                assert(fold_from(keep@, self.expanded_gaps@, start as int) == part + fold_from(keep@, self.expanded_gaps@, i as int));
                assert(display@ + fold_from(keep@, self.expanded_gaps@, i as int) =~= target);
            }
        }
        assert(fold_from(keep@, self.expanded_gaps@, i as int) =~= Seq::<DisplayRow>::empty());
        assert(display@ =~= target);
        proof {
            lemma_fold_covers(keep@, self.expanded_gaps@, 0);
        }
        self.display = display;
    }

    /// The number of display rows.
    pub fn display_len(&self) -> (n: usize)
        ensures
            n == if self.folded { self.display@.len() } else { self.diff.rows@.len() },
    {
        if self.folded {
            self.display.len()
        } else {
            self.diff.rows.len()
        }
    }

    /// Display row `index`: from the folded display, or the diff row itself.
    pub fn display_row(&self, index: usize) -> (r: Option<DisplayRow>)
        requires
            self.wf(),
        ensures
            r == if self.folded {
                if index < self.display@.len() { Some(self.display@[index as int]) } else { None::<DisplayRow> }
            } else {
                if index < self.diff.rows@.len() { Some(DisplayRow::Row(index as u32)) } else { None::<DisplayRow> }
            },
    {
        if self.folded {
            if index < self.display.len() {
                Some(self.display[index])
            } else {
                None
            }
        } else if index < self.diff.rows.len() {
            Some(DisplayRow::Row(index as u32))
        } else {
            None
        }
    }

    /// Display row `i` of the view, as `display_row` gives it.
    pub open spec fn display_at(&self, i: int) -> DisplayRow {
        if self.folded { self.display@[i] } else { DisplayRow::Row(i as u32) }
    }

    /// The display rows a pane of `height` rows shows from the scroll offset.
    pub fn window(&self, height: usize) -> (w: Vec<DisplayRow>)
        requires
            self.wf(),
        ensures
            w@.len() == if self.offset >= (if self.folded { self.display@.len() } else { self.diff.rows@.len() }) {
                0
            } else {
                min_of(height as int, (if self.folded { self.display@.len() } else { self.diff.rows@.len() }) - self.offset)
            },
            forall|k: int| 0 <= k < w@.len() ==> #[trigger] w@[k] == self.display_at(self.offset + k),
    {
        let total = self.display_len();
        let mut w: Vec<DisplayRow> = Vec::new();
        let mut i = self.offset;
        while i < total && w.len() < height
            invariant
                self.wf(),
                total == (if self.folded { self.display@.len() } else { self.diff.rows@.len() }),
                self.offset <= i,
                i <= total || i == self.offset,
                w@.len() == i - self.offset,
                w@.len() <= height,
                forall|k: int| 0 <= k < w@.len() ==> #[trigger] w@[k] == self.display_at(self.offset + k),
            decreases total - i,
        {
            match self.display_row(i) {
                Some(r) => w.push(r),
                None => {},
            }
            i += 1;
        }
        w
    }

    /// The display index that shows diff row `row`, so that folding or
    /// unfolding keeps the view where it was.
    pub fn display_index_of_row(&self, row: u32) -> (i: usize)
        ensures
            !self.folded ==> i == row,
            self.folded && (exists|k: int| 0 <= k < self.display@.len() && shows_at_or_after(#[trigger] self.display@[k], row as int)) ==> {
                &&& i < self.display@.len()
                &&& shows_at_or_after(self.display@[i as int], row as int)
                &&& forall|k: int| 0 <= k < i ==> !shows_at_or_after(#[trigger] self.display@[k], row as int)
            },
            self.folded && !(exists|k: int| 0 <= k < self.display@.len() && shows_at_or_after(#[trigger] self.display@[k], row as int))
                ==> i == if self.display@.len() > 0 { self.display@.len() - 1 } else { 0 },
    {
        if !self.folded {
            return row as usize;
        }
        let mut k: usize = 0;
        while k < self.display.len()
            invariant
                self.folded,
                k <= self.display@.len(),
                forall|t: int| 0 <= t < k ==> !shows_at_or_after(#[trigger] self.display@[t], row as int),
            decreases self.display@.len() - k,
        {
            let hit = match self.display[k] {
                DisplayRow::Row(r) => r >= row,
                DisplayRow::Gap { start, count } => (row as u64) < (start as u64) + (count as u64),
            };
            if hit {
                return k;
            }
            k += 1;
        }
        if self.display.len() > 0 { self.display.len() - 1 } else { 0 }
    }

    /// The diff row at display index `index`; a gap gives its first row.
    pub fn row_at_display(&self, index: usize) -> (r: u32)
        requires
            self.wf(),
        ensures
            r == row_at_spec(*self, index as int),
    {
        match self.display_row(index) {
            Some(DisplayRow::Row(r)) => r,
            Some(DisplayRow::Gap { start, .. }) => start,
            None => 0,
        }
    }

    /// The row that hunk jumps start from: the one a quarter of the window
    /// below the top, where a jump puts its target.
    pub fn anchor_row(&self, height: usize) -> (r: u32)
        requires
            self.wf(),
        ensures
            r == anchor_spec(*self, height as int),
    {
        let len = self.display_len();
        if len == 0 {
            return 0;
        }
        let h = if height > 0 { height } else { 1 };
        let index = if self.offset >= len - 1 || h / 4 >= (len - 1) - self.offset { len - 1 } else { self.offset + h / 4 };
        self.row_at_display(index)
    }

    /// The word spans of diff row `row`, computed once and kept; none when
    /// word spans are off. The cache keeps what it held; an enabled call
    /// leaves the row's spans in it, and a call with spans off leaves it as
    /// it was.
    pub fn inline_spans(&mut self, row: u32, enabled: bool) -> (r: InlineSpans)
        requires
            old(self).wf(),
            rows_in_tables(old(self).diff),
            row < old(self).diff.rows@.len(),
        ensures
            final(self).wf(),
            !enabled ==> r.old@.len() == 0 && r.new@.len() == 0,
            enabled ==> (r.old@, r.new@) == spec_row_spans(old(self).diff, row as int),
            !enabled ==> final(self).inline@ == old(self).inline@,
            old(self).inline@.len() <= final(self).inline@.len() <= old(self).inline@.len() + 1,
            final(self).inline@.subrange(0, old(self).inline@.len() as int) == old(self).inline@,
            enabled ==> exists|k: int| 0 <= k < final(self).inline@.len() && (#[trigger] final(self).inline@[k]).0 == row,
            final(self).diff == old(self).diff,
            final(self).display == old(self).display,
            final(self).folded == old(self).folded,
            final(self).offset == old(self).offset,
            final(self).hscroll == old(self).hscroll,
            final(self).hunk_cursor == old(self).hunk_cursor,
            final(self).expanded_gaps == old(self).expanded_gaps,
            final(self).change == old(self).change,
            final(self).old_highlight == old(self).old_highlight,
            final(self).new_highlight == old(self).new_highlight,
    {
        if !enabled {
            proof {
                assert(self.inline@.subrange(0, self.inline@.len() as int) =~= self.inline@);
            }
            return InlineSpans { old: Vec::new(), new: Vec::new() };
        }
        let mut k: usize = 0;
        while k < self.inline.len()
            invariant
                k <= self.inline@.len(),
                enabled,
                *self == *old(self),
                self.wf(),
                forall|t: int| 0 <= t < k ==> (#[trigger] self.inline@[t]).0 != row,
            decreases self.inline@.len() - k,
        {
            if self.inline[k].0 == row {
                assert(self.inline@[k as int].0 == row);
                assert(self.inline@.subrange(0, self.inline@.len() as int) =~= self.inline@);
                return copy_spans(&self.inline[k].1);
            }
            k += 1;
        }
        let pair = self.diff.rows[row as usize];
        let spans = match (pair.kind, pair.left, pair.right) {
            (RowKind::Changed, Cell::Line(i), Cell::Line(j)) => {
                let ob = self.diff.old.line_display(i);
                let nb = self.diff.new.line_display(j);
                proof {
                    assert(ob@.len() == vstd::slice::spec_slice_len(ob));
                    assert(nb@.len() == vstd::slice::spec_slice_len(nb));
                }
                match (utf8_str(ob), utf8_str(nb)) {
                    (Some(o), Some(n)) => {
                        proof {
                            vstd::utf8::encode_utf8_decode_utf8(o@);
                            vstd::utf8::encode_utf8_decode_utf8(n@);
                        }
                        inline_diff(o, n)
                    },
                    _ => InlineSpans { old: Vec::new(), new: Vec::new() },
                }
            },
            _ => InlineSpans { old: Vec::new(), new: Vec::new() },
        };
        let kept = copy_spans(&spans);
        let ghost before = self.inline@;
        self.inline.push((row, kept));
        proof {
            assert(self.inline@.subrange(0, before.len() as int) =~= before);
            assert(self.inline@[before.len() as int].0 == row);
        }
        spans
    }
}

/// What the content pane shows.
#[derive(Debug)]
pub enum ContentState {
    Empty,
    Loading { path: String },
    Text(TextView),
    Diff(DiffView),
    /// A binary or oversized file: an expected outcome.
    Unsupported { path: String, reason: UnsupportedReason },
    /// Loading failed; the cause is shown.
    Failed { path: String, error: String },
}

pub open spec fn spec_content_path(c: ContentState) -> Option<String> {
    match c {
        ContentState::Empty => None,
        ContentState::Loading { path } => Some(path),
        ContentState::Unsupported { path, .. } => Some(path),
        ContentState::Failed { path, .. } => Some(path),
        ContentState::Text(v) => Some(v.path),
        ContentState::Diff(v) => Some(v.change.path),
    }
}

impl ContentState {
    /// The path of the file shown or being loaded.
    pub fn path(&self) -> (p: Option<&String>)
        ensures
            match p {
                Some(s) => spec_content_path(*self) == Some(*s),
                None => spec_content_path(*self) is None,
            },
    {
        match self {
            ContentState::Empty => None,
            ContentState::Loading { path } => Some(path),
            ContentState::Unsupported { path, .. } => Some(path),
            ContentState::Failed { path, .. } => Some(path),
            ContentState::Text(v) => Some(&v.path),
            ContentState::Diff(v) => Some(&v.change.path),
        }
    }

    pub open spec fn wf(&self) -> bool {
        match self {
            ContentState::Diff(v) => v.wf(),
            _ => true,
        }
    }
}

} // verus!
