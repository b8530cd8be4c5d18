//! How one side of a diff row is laid out in its column: the line number
//! right-aligned in the gutter, the change marker, the visible segments of
//! the text, the marks of a carriage return or a missing final newline,
//! and, on changed rows, the blank that colors the row to the column's end.
use vstd::prelude::*;
use vstd::string::StringSliceAdditionalSpecFns;
use core::ops::Range;
use crate::changes::Side;
use crate::lines::{Cell, LineTable, RowKind, RowPair};
use crate::strs::{chars_of, string_of};
use crate::text::{TextOpts, cwidth, lemma_cwidth_bounds, max_cwidth, render_line, segs_view, spaces, spec_render_line,
    width_of_chars};

verus! {

/// The character of decimal digit `d`.
pub open spec fn digit_char(d: int) -> char {
    if d == 0 { '0' } else if d == 1 { '1' } else if d == 2 { '2' } else if d == 3 { '3' } else if d == 4 { '4' }
    else if d == 5 { '5' } else if d == 6 { '6' } else if d == 7 { '7' } else if d == 8 { '8' } else { '9' }
}

/// `n` written in decimal.
pub open spec fn decimal(n: nat) -> Seq<char>
    decreases n,
{
    if n < 10 {
        seq![digit_char(n as int)]
    } else {
        decimal(n / 10).push(digit_char((n % 10) as int))
    }
}

/// `s` with spaces in front up to `w` columns.
pub open spec fn right_aligned(s: Seq<char>, w: int) -> Seq<char> {
    if s.len() < w { spaces(w - s.len()) + s } else { s }
}

fn digit_of(d: u64) -> (c: char)
    requires
        d < 10,
    ensures
        c == digit_char(d as int),
{
    match d {
        0 => '0',
        1 => '1',
        2 => '2',
        3 => '3',
        4 => '4',
        5 => '5',
        6 => '6',
        7 => '7',
        8 => '8',
        _ => '9',
    }
}

fn decimal_chars(n: u64) -> (v: Vec<char>)
    ensures
        v@ == decimal(n as nat),
    decreases n,
{
    if n < 10 {
        let mut v: Vec<char> = Vec::new();
        v.push(digit_of(n));
        assert(v@ =~= seq![digit_char(n as int)]);
        v
    } else {
        let mut v = decimal_chars(n / 10);
        v.push(digit_of(n % 10));
        v
    }
}

/// `n` in decimal, right-aligned to `width` columns.
pub fn number_text(n: u64, width: usize) -> (s: String)
    ensures
        s@ == right_aligned(decimal(n as nat), width as int),
{
    let digits = decimal_chars(n);
    let mut v: Vec<char> = Vec::new();
    if digits.len() < width {
        let pad = width - digits.len();
        let mut k: usize = 0;
        while k < pad
            invariant
                k <= pad,
                v@ == spaces(k as int),
            decreases pad - k,
        {
            v.push(' ');
            k += 1;
            assert(v@ =~= spaces(k as int));
        }
    }
    let mut i: usize = 0;
    let ghost front = v@;
    while i < digits.len()
        invariant
            i <= digits@.len(),
            v@ == front + digits@.take(i as int),
        decreases digits@.len() - i,
    {
        v.push(digits[i]);
        i += 1;
        assert(v@ =~= front + digits@.take(i as int));
    }
    assert(digits@.take(i as int) =~= digits@);
    assert(v@ =~= right_aligned(decimal(n as nat), width as int));
    string_of(v.as_slice())
}

/// The marker of a side of a row: `-` where the old side changed, `+`
/// where the new side did, a blank otherwise.
pub open spec fn marker_of(kind: RowKind, side: Side) -> char {
    match side {
        Side::Old => if kind == RowKind::Removed || kind == RowKind::Changed { '-' } else { ' ' },
        Side::New => if kind == RowKind::Added || kind == RowKind::Changed { '+' } else { ' ' },
    }
}

pub fn marker(kind: RowKind, side: Side) -> (c: char)
    ensures
        c == marker_of(kind, side),
{
    match side {
        Side::Old => if kind == RowKind::Removed || kind == RowKind::Changed { '-' } else { ' ' },
        Side::New => if kind == RowKind::Added || kind == RowKind::Changed { '+' } else { ' ' },
    }
}

/// The sides a unified view shows for a row, in order.
pub open spec fn unified_sides_of(kind: RowKind) -> Seq<Side> {
    match kind {
        RowKind::Context => seq![Side::Old],
        RowKind::Removed => seq![Side::Old],
        RowKind::Added => seq![Side::New],
        RowKind::Changed => seq![Side::Old, Side::New],
    }
}

pub fn unified_sides(kind: RowKind) -> (v: Vec<Side>)
    ensures
        v@ == unified_sides_of(kind),
{
    let mut v: Vec<Side> = Vec::new();
    match kind {
        RowKind::Context | RowKind::Removed => v.push(Side::Old),
        RowKind::Added => v.push(Side::New),
        RowKind::Changed => {
            v.push(Side::Old);
            v.push(Side::New);
        },
    }
    assert(v@ =~= unified_sides_of(kind));
    v
}

/// The columns the segments take, each measured from its own start.
pub open spec fn segs_width(segs: Seq<(Seq<char>, bool)>, opts: TextOpts) -> int
    decreases segs.len(),
{
    if segs.len() == 0 {
        0
    } else {
        segs_width(segs.drop_last(), opts) + width_of_chars(segs.last().0, opts)
    }
}

pub open spec fn sat_sub(a: int, b: int) -> int {
    if a > b { a - b } else { 0 }
}

pub open spec fn min_usize(x: int) -> int {
    if x < usize::MAX { x } else { usize::MAX as int }
}

/// The width of `s`, or `usize::MAX` when it is wider.
fn capped_width(s: &str, opts: TextOpts) -> (w: usize)
    ensures
        w == min_usize(width_of_chars(s@, opts)),
{
    let cs = chars_of(s);
    let mut col: usize = 0;
    let mut i: usize = 0;
    proof {
        assert(cs@.take(0) =~= Seq::<char>::empty());
    }
    while i < cs.len()
        invariant
            cs@ == s@,
            i <= cs@.len(),
            col == min_usize(width_of_chars(cs@.take(i as int), opts)),
        decreases cs@.len() - i,
    {
        proof {
            assert(cs@.take(i + 1).drop_last() =~= cs@.take(i as int));
            crate::text::lemma_width_lower(cs@.take(i as int), opts);
            lemma_cwidth_bounds(opts, cs[i as int], width_of_chars(cs@.take(i as int), opts));
        }
        if col < usize::MAX {
            let w = opts.char_width(cs[i], col);
            col = if w <= usize::MAX - col { col + w } else { usize::MAX };
        }
        i += 1;
    }
    assert(cs@.take(cs@.len() as int) =~= cs@);
    col
}

/// One side of a diff row, laid out.
#[derive(Debug)]
pub enum SideCells {
    /// The side has no line on this row: blank over the whole column.
    Pad { width: usize },
    Line {
        /// The line number, right-aligned in the gutter.
        number: String,
        marker: char,
        /// Whether the row is a change, so that it is colored.
        changed: bool,
        /// The visible text, marked where it lies in `marks`.
        segments: Vec<(String, bool)>,
        /// `␍` for a carriage return, `¬` for a missing final newline.
        suffix: String,
        /// Blank columns that color a changed row to the column's end.
        fill: usize,
    },
}

/// The marks after a line: a carriage return, then a missing final newline.
pub open spec fn suffix_of(table: LineTable, i: u32) -> Seq<char> {
    let cr = table.lines()[i as int].len() > 0 && table.lines()[i as int].last() == 13u8;
    let nonl = !crate::lines::ends_with_newline(table@) && i + 1 == table.lines().len();
    (if cr { seq!['␍'] } else { Seq::empty() }) + (if nonl { seq!['¬'] } else { Seq::empty() })
}

/// What `side_cells` gives.
pub open spec fn laid_out(
    r: SideCells,
    table: LineTable,
    text: Seq<char>,
    pair: RowPair,
    side: Side,
    marks: Seq<Range<usize>>,
    num_width: int,
    width: int,
    hscroll: int,
    opts: TextOpts,
) -> bool {
    let cell = match side {
        Side::Old => pair.left,
        Side::New => pair.right,
    };
    let content = sat_sub(width, num_width + 2);
    match cell {
        Cell::Pad => r == SideCells::Pad { width: width as usize },
        Cell::Line(i) => r matches SideCells::Line { number, marker, changed, segments, suffix, fill } && {
            &&& number@ == right_aligned(decimal((i + 1) as nat), num_width)
            &&& marker == marker_of(pair.kind, side)
            &&& changed == (pair.kind != RowKind::Context)
            &&& segs_view(segments@) == spec_render_line(text, marks, opts, hscroll, content)
            &&& suffix@ == suffix_of(table, i)
            &&& fill == if changed {
                sat_sub(content, segs_width(segs_view(segments@), opts) + suffix@.len())
            } else {
                0
            }
        },
    }
}

/// Lays out one side of a diff row in a column of `width`, with a gutter of
/// `num_width` for the line number, the text (which reads line `i` of
/// `table`) scrolled by `hscroll` and marked where it lies in `marks`.
pub fn side_cells(
    table: &LineTable,
    text: &str,
    pair: RowPair,
    side: Side,
    marks: &[Range<usize>],
    num_width: usize,
    width: usize,
    hscroll: usize,
    opts: TextOpts,
) -> (r: SideCells)
    requires
        text.spec_bytes().len() <= usize::MAX,
        num_width < usize::MAX - 2,
        hscroll + width + max_cwidth(opts) <= usize::MAX,
        (match side { Side::Old => pair.left, Side::New => pair.right }) matches Cell::Line(i) ==> i < table.lines().len(),
    ensures
        laid_out(r, *table, text@, pair, side, marks@, num_width as int, width as int, hscroll as int, opts),
{
    let cell = match side {
        Side::Old => pair.left,
        Side::New => pair.right,
    };
    let index = match cell {
        Cell::Pad => {
            return SideCells::Pad { width };
        },
        Cell::Line(i) => i,
    };
    let content = if width > num_width + 2 { width - (num_width + 2) } else { 0 };
    let changed = pair.kind != RowKind::Context;
    let number = number_text(index as u64 + 1, num_width);
    let segments = render_line(text, marks, opts, hscroll, content);
    let mut suffix = String::new();
    if table.has_cr(index) {
        suffix.append("␍");
    }
    if table.is_last_without_newline(index) {
        suffix.append("¬");
    }
    proof {
        reveal_strlit("␍");
        reveal_strlit("¬");
        assert(suffix@ =~= suffix_of(*table, index));
    }
    let mut fill: usize = 0;
    if changed {
        let mut used: usize = 0;
        let mut k: usize = 0;
        proof {
            assert(segs_view(segments@).take(0) =~= Seq::<(Seq<char>, bool)>::empty());
        }
        while k < segments.len()
            invariant
                k <= segments@.len(),
                used == min_usize(segs_width(segs_view(segments@).take(k as int), opts)),
            decreases segments@.len() - k,
        {
            let w = capped_width(segments[k].0.as_str(), opts);
            proof {
                let t = segs_view(segments@).take(k + 1);
                assert(t.drop_last() =~= segs_view(segments@).take(k as int));
                assert(t.last() == (segments@[k as int].0@, segments@[k as int].1));
                lemma_segs_width_nonneg(segs_view(segments@).take(k as int), opts);
                crate::text::lemma_width_lower(segments@[k as int].0@, opts);
            }
            used = if w <= usize::MAX - used { used + w } else { usize::MAX };
            k += 1;
        }
        proof {
            assert(segs_view(segments@).take(k as int) =~= segs_view(segments@));
            lemma_segs_width_nonneg(segs_view(segments@), opts);
        }
        let n = chars_of(suffix.as_str()).len();
        let taken = if n <= usize::MAX - used { used + n } else { usize::MAX };
        fill = if content > taken { content - taken } else { 0 };
    }
    SideCells::Line { number, marker: marker(pair.kind, side), changed, segments, suffix, fill }
}

pub proof fn lemma_segs_width_nonneg(segs: Seq<(Seq<char>, bool)>, opts: TextOpts)
    ensures
        segs_width(segs, opts) >= 0,
    decreases segs.len(),
{
    if segs.len() > 0 {
        lemma_segs_width_nonneg(segs.drop_last(), opts);
        crate::text::lemma_width_lower(segs.last().0, opts);
    }
}

} // verus!
