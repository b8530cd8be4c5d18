//! A file's contents split into lines, and the aligned pair of two files.
use vstd::prelude::*;
use vstd::slice::slice_subrange;
use crate::changes::LineStat;

verus! {

/// The lines of `s` read from the front, `cur` being the part of the
/// current line already read: each `\n` ends a line; the text after the
/// last `\n` is one more line unless it is empty.
pub open spec fn split_from(s: Seq<u8>, cur: Seq<u8>) -> Seq<Seq<u8>>
    decreases s.len(),
{
    if s.len() == 0 {
        if cur.len() == 0 { Seq::empty() } else { seq![cur] }
    } else if s[0] == 10u8 {
        seq![cur] + split_from(s.drop_first(), Seq::empty())
    } else {
        split_from(s.drop_first(), cur.push(s[0]))
    }
}

/// The lines of a file, without their line ends.
pub open spec fn spec_lines(bytes: Seq<u8>) -> Seq<Seq<u8>> {
    split_from(bytes, Seq::empty())
}

/// Whether the file ends at a line end (an empty file counts as one).
pub open spec fn ends_with_newline(bytes: Seq<u8>) -> bool {
    bytes.len() == 0 || bytes.last() == 10u8
}

/// A line without a trailing carriage return.
pub open spec fn strip_cr(line: Seq<u8>) -> Seq<u8> {
    if line.len() > 0 && line.last() == 13u8 { line.drop_last() } else { line }
}

/// The contents of a file and the byte range of each of its lines. The
/// lines are ranges into the contents; they are not copied.
#[derive(Debug, Default)]
pub struct LineTable {
    bytes: Vec<u8>,
    ranges: Vec<(u32, u32)>,
    trailing_newline: bool,
}

impl View for LineTable {
    type V = Seq<u8>;

    closed spec fn view(&self) -> Seq<u8> {
        self.bytes@
    }
}

impl LineTable {
    closed spec fn range_lines(&self) -> Seq<Seq<u8>> {
        Seq::new(
            self.ranges@.len(),
            |k: int| self.bytes@.subrange(self.ranges@[k].0 as int, self.ranges@[k].1 as int),
        )
    }

    #[verifier::type_invariant]
    closed spec fn wf(&self) -> bool {
        &&& self.bytes@.len() <= u32::MAX
        &&& forall|k: int|
            0 <= k < self.ranges@.len() ==> #[trigger] self.ranges@[k].0 <= self.ranges@[k].1
                <= self.bytes@.len()
        &&& self.range_lines() == spec_lines(self.bytes@)
        &&& self.trailing_newline == ends_with_newline(self.bytes@)
    }

    /// The lines of this table.
    pub closed spec fn lines(&self) -> Seq<Seq<u8>> {
        spec_lines(self.bytes@)
    }
}

proof fn lemma_split_len(s: Seq<u8>, cur: Seq<u8>)
    ensures
        split_from(s, cur).len() <= s.len() + 1,
        cur.len() == 0 ==> split_from(s, cur).len() <= s.len(),
    decreases s.len(),
{
    if s.len() > 0 {
        if s[0] == 10u8 {
            lemma_split_len(s.drop_first(), Seq::empty());
        } else {
            lemma_split_len(s.drop_first(), cur.push(s[0]));
        }
    }
}

/// The lines, each followed by a `\n`.
pub open spec fn join_lines(ls: Seq<Seq<u8>>) -> Seq<u8>
    decreases ls.len(),
{
    if ls.len() == 0 { Seq::empty() } else { ls[0] + seq![10u8] + join_lines(ls.drop_first()) }
}

/// How many `\n` bytes `s` holds.
pub open spec fn newline_count(s: Seq<u8>) -> int
    decreases s.len(),
{
    if s.len() == 0 { 0 } else { (if s[0] == 10u8 { 1int } else { 0int }) + newline_count(s.drop_first()) }
}

/// Whether the split of `s` after the bytes `cur` ends at a line end.
spec fn split_ends(s: Seq<u8>, cur: Seq<u8>) -> bool {
    (s.len() == 0 && cur.len() == 0) || (s.len() > 0 && s.last() == 10u8)
}

proof fn lemma_split_round_trip(s: Seq<u8>, cur: Seq<u8>)
    requires
        forall|t: int| 0 <= t < cur.len() ==> cur[t] != 10u8,
    ensures
        join_lines(split_from(s, cur)) == if split_ends(s, cur) { cur + s } else { cur + s + seq![10u8] },
        split_from(s, cur).len() == newline_count(s) + if split_ends(s, cur) { 0int } else { 1int },
        forall|k: int, t: int| 0 <= k < split_from(s, cur).len() && 0 <= t < split_from(s, cur)[k].len()
            ==> split_from(s, cur)[k][t] != 10u8,
    decreases s.len(),
{
    let l = split_from(s, cur);
    if s.len() == 0 {
        if cur.len() > 0 {
            assert(l == seq![cur]);
            assert(l.drop_first() =~= Seq::<Seq<u8>>::empty());
            assert(join_lines(l.drop_first()) == Seq::<u8>::empty());
            assert(l[0] == cur);
            assert(join_lines(l) == cur + seq![10u8] + Seq::<u8>::empty());
            assert(cur + s =~= cur);
            assert(join_lines(l) =~= cur + s + seq![10u8]);
        } else {
            assert(cur + s =~= Seq::<u8>::empty());
        }
    } else {
        let rest = s.drop_first();
        if s[0] == 10u8 {
            lemma_split_round_trip(rest, Seq::empty());
            let r = split_from(rest, Seq::empty());
            assert(l == seq![cur] + r);
            assert(l.drop_first() =~= r);
            assert(l[0] == cur);
            if rest.len() > 0 {
                assert(rest.last() == s.last());
            }
            assert(cur + s =~= cur + seq![10u8] + rest);
            assert(cur + s + seq![10u8] =~= cur + seq![10u8] + (rest + seq![10u8]));
            assert(Seq::<u8>::empty() + rest =~= rest);
            assert(Seq::<u8>::empty() + rest + seq![10u8] =~= rest + seq![10u8]);
            assert forall|k: int, t: int| 0 <= k < l.len() && 0 <= t < l[k].len() implies l[k][t] != 10u8 by {
                if k > 0 {
                    assert(l[k] == r[k - 1]);
                }
            }
            assert(join_lines(l) == cur + seq![10u8] + join_lines(r));
        } else {
            let c2 = cur.push(s[0]);
            assert forall|t: int| 0 <= t < c2.len() implies c2[t] != 10u8 by {
                if t < cur.len() {
                    assert(c2[t] == cur[t]);
                }
            }
            lemma_split_round_trip(rest, c2);
            assert(cur + s =~= c2 + rest);
            assert(cur + s + seq![10u8] =~= c2 + rest + seq![10u8]);
            if rest.len() > 0 {
                assert(rest.last() == s.last());
            }
        }
    }
}

/// A file is its lines joined back by `\n`, with a final `\n` only where the
/// file has one; it has one line per `\n`, and one more when it does not end
/// with one; and no line holds a `\n`.
pub proof fn lemma_lines_round_trip(bytes: Seq<u8>)
    ensures
        join_lines(spec_lines(bytes)) == if ends_with_newline(bytes) { bytes } else { bytes.push(10u8) },
        spec_lines(bytes).len() == newline_count(bytes) + if ends_with_newline(bytes) { 0int } else { 1int },
        forall|k: int, t: int| 0 <= k < spec_lines(bytes).len() && 0 <= t < spec_lines(bytes)[k].len()
            ==> spec_lines(bytes)[k][t] != 10u8,
{
    lemma_split_round_trip(bytes, Seq::empty());
    assert(Seq::<u8>::empty() + bytes =~= bytes);
    assert(Seq::<u8>::empty() + bytes + seq![10u8] =~= bytes.push(10u8));
}

/// A file has no more lines than bytes.
pub proof fn lemma_lines_len(bytes: Seq<u8>)
    ensures
        spec_lines(bytes).len() <= bytes.len(),
{
    lemma_split_len(bytes, Seq::empty());
}

impl LineTable {
    /// Splits `bytes` into lines at `\n`. A `\r` before it stays in the line.
    pub fn new(bytes: Vec<u8>) -> (t: LineTable)
        requires
            bytes@.len() <= u32::MAX,
        ensures
            t@ == bytes@,
            t.lines() == spec_lines(bytes@),
    {
        let mut ranges: Vec<(u32, u32)> = Vec::new();
        let mut start: usize = 0;
        let mut i: usize = 0;
        let n = bytes.len();
        proof {
            assert(bytes@.skip(0) =~= bytes@);
            assert(bytes@.subrange(0, 0) =~= Seq::<u8>::empty());
        }
        while i < n
            invariant
                n == bytes@.len(),
                n <= u32::MAX,
                start <= i <= n,
                forall|k: int|
                    0 <= k < ranges@.len() ==> #[trigger] ranges@[k].0 <= ranges@[k].1 <= start,
                Seq::new(
                    ranges@.len(),
                    |k: int| bytes@.subrange(ranges@[k].0 as int, ranges@[k].1 as int),
                ) + split_from(bytes@.skip(i as int), bytes@.subrange(start as int, i as int))
                    == spec_lines(bytes@),
                start == 0 || bytes@[start - 1] == 10u8,
                start < i ==> bytes@[i - 1] != 10u8,
            decreases n - i,
        {
            let ghost done = Seq::new(
                ranges@.len(),
                |k: int| bytes@.subrange(ranges@[k].0 as int, ranges@[k].1 as int),
            );
            let ghost cur = bytes@.subrange(start as int, i as int);
            proof {
                assert(bytes@.skip(i as int).drop_first() =~= bytes@.skip(i + 1));
                assert(bytes@.skip(i as int)[0] == bytes@[i as int]);
            }
            if bytes[i] == 10u8 {
                ranges.push((start as u32, i as u32));
                start = i + 1;
                proof {
                    assert(bytes@.subrange(start as int, i + 1) =~= Seq::<u8>::empty());
                    let now = Seq::new(
                        ranges@.len(),
                        |k: int| bytes@.subrange(ranges@[k].0 as int, ranges@[k].1 as int),
                    );
                    assert(now =~= done + seq![cur]);
                }
            } else {
                proof {
                    assert(cur.push(bytes@[i as int]) =~= bytes@.subrange(start as int, i + 1));
                }
            }
            i += 1;
        }
        let trailing_newline = start == n;
        proof {
            assert(bytes@.skip(n as int) =~= Seq::<u8>::empty());
        }
        if !trailing_newline {
            let ghost done = Seq::new(
                ranges@.len(),
                |k: int| bytes@.subrange(ranges@[k].0 as int, ranges@[k].1 as int),
            );
            ranges.push((start as u32, n as u32));
            proof {
                let now = Seq::new(
                    ranges@.len(),
                    |k: int| bytes@.subrange(ranges@[k].0 as int, ranges@[k].1 as int),
                );
                assert(now =~= done + seq![bytes@.subrange(start as int, n as int)]);
            }
        } else {
            proof {
                assert(bytes@.subrange(start as int, n as int) =~= Seq::<u8>::empty());
                let now = Seq::new(
                    ranges@.len(),
                    |k: int| bytes@.subrange(ranges@[k].0 as int, ranges@[k].1 as int),
                );
                assert(now + Seq::<Seq<u8>>::empty() =~= now);
            }
        }
        LineTable { bytes, ranges, trailing_newline }
    }
}

impl LineTable {
    /// The number of lines.
    pub fn len(&self) -> (n: usize)
        ensures
            n == self.lines().len(),
            n <= u32::MAX,
    {
        proof {
            use_type_invariant(self);
            lemma_split_len(self.bytes@, Seq::empty());
            assert(self.range_lines().len() == self.ranges@.len());
        }
        self.ranges.len()
    }

    pub fn is_empty(&self) -> (b: bool)
        ensures
            b == (self.lines().len() == 0),
    {
        proof {
            use_type_invariant(self);
            assert(self.range_lines().len() == self.ranges@.len());
        }
        self.ranges.len() == 0
    }

    /// Line `i` without its `\n`; a `\r` before it stays.
    pub fn line(&self, i: u32) -> (l: &[u8])
        requires
            i < self.lines().len(),
        ensures
            l@ == self.lines()[i as int],
    {
        proof {
            use_type_invariant(self);
            assert(self.range_lines()[i as int] == self.lines()[i as int]);
        }
        let (s, e) = self.ranges[i as usize];
        slice_subrange(self.bytes.as_slice(), s as usize, e as usize)
    }

    /// Line `i` for display: without a trailing `\r`.
    pub fn line_display(&self, i: u32) -> (l: &[u8])
        requires
            i < self.lines().len(),
        ensures
            l@ == strip_cr(self.lines()[i as int]),
    {
        let raw = self.line(i);
        if raw.len() > 0 && raw[raw.len() - 1] == 13u8 {
            slice_subrange(raw, 0, raw.len() - 1)
        } else {
            raw
        }
    }

    /// Whether line `i` ends with `\r`.
    pub fn has_cr(&self, i: u32) -> (b: bool)
        requires
            i < self.lines().len(),
        ensures
            b == (self.lines()[i as int].len() > 0 && self.lines()[i as int].last() == 13u8),
    {
        let raw = self.line(i);
        raw.len() > 0 && raw[raw.len() - 1] == 13u8
    }

    /// Whether `i` is the last line and the file does not end with `\n`.
    pub fn is_last_without_newline(&self, i: u32) -> (b: bool)
        ensures
            b == (!ends_with_newline(self@) && i + 1 == self.lines().len()),
    {
        proof {
            use_type_invariant(self);
            assert(self.range_lines().len() == self.ranges@.len());
        }
        !self.trailing_newline && self.ranges.len() > 0 && i as usize == self.ranges.len() - 1
    }

    /// All lines, in order.
    pub fn iter_lines(&self) -> (v: Vec<&[u8]>)
        ensures
            v@.len() == self.lines().len(),
            forall|k: int| 0 <= k < v@.len() ==> (#[trigger] v@[k])@ == self.lines()[k],
    {
        let n = self.len();
        let mut v: Vec<&[u8]> = Vec::new();
        let mut i: usize = 0;
        while i < n
            invariant
                i <= n,
                n == self.lines().len(),
                n <= u32::MAX,
                v@.len() == i,
                forall|k: int| 0 <= k < i ==> (#[trigger] v@[k])@ == self.lines()[k],
            decreases n - i,
        {
            v.push(self.line(i as u32));
            i += 1;
        }
        v
    }

    /// A copy with the same contents.
    pub fn duplicate(&self) -> (t: LineTable)
        ensures
            t@ == self@,
            t.lines() == self.lines(),
    {
        proof {
            use_type_invariant(self);
        }
        let bytes = vstd::slice::slice_to_vec(self.bytes.as_slice());
        LineTable::new(bytes)
    }
}

/// One side's cell of an aligned row.
#[derive(Copy, Clone, PartialEq, Eq, Debug, Structural)]
pub enum Cell {
    Line(u32),
    /// Only the other side has a line here.
    Pad,
}

impl Cell {
    pub open spec fn spec_line(self) -> Option<u32> {
        match self {
            Cell::Line(i) => Some(i),
            Cell::Pad => None,
        }
    }

    pub fn line(self) -> (r: Option<u32>)
        ensures
            r == self.spec_line(),
    {
        match self {
            Cell::Line(i) => Some(i),
            Cell::Pad => None,
        }
    }
}

#[derive(Copy, Clone, PartialEq, Eq, Debug, Structural)]
pub enum RowKind {
    Context,
    Removed,
    Added,
    /// Both sides have a line and they differ; word-level spans apply.
    Changed,
}

#[derive(Copy, Clone, PartialEq, Eq, Debug, Structural)]
pub struct RowPair {
    pub left: Cell,
    pub right: Cell,
    pub kind: RowKind,
}

/// Where a block of changes lies in the rows: `start..end`. Used for jumps.
#[derive(Copy, Clone, PartialEq, Eq, Debug, Structural)]
pub struct HunkAnchor {
    pub start: u32,
    pub end: u32,
}

impl HunkAnchor {
    pub open spec fn covers(self, row: int) -> bool {
        self.start <= row < self.end
    }
}

/// The old and new files as one sequence of row pairs over the whole file.
#[derive(Debug, Default)]
pub struct AlignedDiff {
    pub rows: Vec<RowPair>,
    pub old: LineTable,
    pub new: LineTable,
    pub hunks: Vec<HunkAnchor>,
    pub stat: LineStat,
}

impl AlignedDiff {
    /// The first block of changes that starts after `row`.
    pub fn next_hunk_index(&self, row: usize) -> (r: Option<usize>)
        ensures
            match r {
                Some(h) => h < self.hunks@.len() && self.hunks@[h as int].start > row
                    && forall|k: int| 0 <= k < h ==> self.hunks@[k].start <= row,
                None => forall|k: int| 0 <= k < self.hunks@.len() ==> self.hunks@[k].start <= row,
            },
    {
        let mut h: usize = 0;
        while h < self.hunks.len()
            invariant
                h <= self.hunks@.len(),
                forall|k: int| 0 <= k < h ==> self.hunks@[k].start <= row,
            decreases self.hunks@.len() - h,
        {
            if self.hunks[h].start as usize > row {
                return Some(h);
            }
            h += 1;
        }
        None
    }

    /// The last block of changes that starts before `row`.
    pub fn prev_hunk_index(&self, row: usize) -> (r: Option<usize>)
        ensures
            match r {
                Some(h) => h < self.hunks@.len() && self.hunks@[h as int].start < row
                    && forall|k: int| h < k < self.hunks@.len() ==> self.hunks@[k].start >= row,
                None => forall|k: int| 0 <= k < self.hunks@.len() ==> self.hunks@[k].start >= row,
            },
    {
        let mut h: usize = self.hunks.len();
        while h > 0
            invariant
                h <= self.hunks@.len(),
                forall|k: int| h <= k < self.hunks@.len() ==> self.hunks@[k].start >= row,
            decreases h,
        {
            if (self.hunks[h - 1].start as usize) < row {
                return Some(h - 1);
            }
            h -= 1;
        }
        None
    }

    /// The first block of changes that covers `row`.
    pub fn hunk_index_at(&self, row: usize) -> (r: Option<usize>)
        ensures
            match r {
                Some(h) => h < self.hunks@.len() && self.hunks@[h as int].covers(row as int)
                    && forall|k: int|
                    0 <= k < h ==> !(#[trigger] self.hunks@[k]).covers(row as int),
                None => forall|k: int|
                    0 <= k < self.hunks@.len() ==> !(#[trigger] self.hunks@[k]).covers(row as int),
            },
    {
        let mut h: usize = 0;
        while h < self.hunks.len()
            invariant
                h <= self.hunks@.len(),
                forall|k: int|
                    0 <= k < h ==> !(#[trigger] self.hunks@[k]).covers(row as int),
            decreases self.hunks@.len() - h,
        {
            if self.hunks[h].start as usize <= row && row < self.hunks[h].end as usize {
                return Some(h);
            }
            h += 1;
        }
        None
    }
}

} // verus!
