//! Display widths of text in a terminal: tabs expand to the next tab stop,
//! control characters take one column, wide characters two; lines are
//! clipped to a window of columns, and labels are cut or padded to a width.
use vstd::prelude::*;
use core::ops::Range;
use unicode_width::UnicodeWidthChar;
use crate::strs::{chars_of, push_char, string_of};
use crate::inline::{byte_off, byte_len, lemma_byte_len_encode, lemma_byte_off_step, lemma_byte_off_mono, utf8_width};
use vstd::string::StringSliceAdditionalSpecFns;

verus! {

/// How text is measured.
#[derive(Copy, Clone, Debug, PartialEq, Eq, Structural)]
pub struct TextOpts {
    pub tab_width: usize,
    /// Whether East Asian Ambiguous characters take two columns.
    pub ambiguous_wide: bool,
}

impl TextOpts {
    /// Tabs of four columns, ambiguous characters narrow.
    pub fn new_default() -> (o: TextOpts)
        ensures
            o == (TextOpts { tab_width: 4, ambiguous_wide: false }),
    {
        TextOpts { tab_width: 4, ambiguous_wide: false }
    }
}

impl Default for TextOpts {
    fn default() -> (o: TextOpts)
        ensures
            o == (TextOpts { tab_width: 4, ambiguous_wide: false }),
    {
        TextOpts { tab_width: 4, ambiguous_wide: false }
    }
}

/// The width of `c` that unicode-width's `UnicodeWidthChar::width` gives.
pub uninterp spec fn uw_width(c: char) -> Option<usize>;

/// The width of `c` that unicode-width's `UnicodeWidthChar::width_cjk` gives.
pub uninterp spec fn uw_width_cjk(c: char) -> Option<usize>;

pub open spec fn spec_is_control(c: char) -> bool {
    (c as u32) < 0x20 || c as u32 == 0x7f
}

/// What unicode-width's lookup shows for every character: no width for
/// the control codes below U+0020 and from U+007F to U+009F, one column for
/// printable ASCII, otherwise a table value that fits a byte.
pub open spec fn uw_facts(c: char, w: Option<usize>) -> bool {
    &&& (w is None <==> ((c as u32) < 0x20 || (0x7f <= (c as u32) && (c as u32) < 0xa0)))
    &&& (0x20 <= (c as u32) && (c as u32) < 0x7f ==> w == Some(1usize))
    &&& (w matches Some(x) ==> x <= 255)
}

/// Calls `UnicodeWidthChar::width`; the result is named by `uw_width`.
#[verifier::external_body]
fn char_width_narrow(c: char) -> (w: Option<usize>)
    ensures
        w == uw_width(c),
        uw_facts(c, w),
{
    c.width()
}

/// Calls `UnicodeWidthChar::width_cjk`; the result is named by `uw_width_cjk`.
#[verifier::external_body]
fn char_width_cjk(c: char) -> (w: Option<usize>)
    ensures
        w == uw_width_cjk(c),
        uw_facts(c, w),
{
    c.width_cjk()
}

pub fn is_control(c: char) -> (b: bool)
    ensures
        b == spec_is_control(c),
{
    (c as u32) < 0x20 || c as u32 == 0x7f
}

/// The columns that `c` takes when it starts at column `col`: a tab runs
/// to the next tab stop, a control character takes one column (it is shown
/// as a dot), printable ASCII one, any other character at least one.
pub open spec fn cwidth(opts: TextOpts, c: char, col: int) -> int {
    if c == '\t' {
        let w = if opts.tab_width >= 1 { opts.tab_width as int } else { 1 };
        w - col % w
    } else if spec_is_control(c) {
        1
    } else if 0x20 <= (c as u32) && (c as u32) < 0x7f {
        1
    } else {
        let w = if opts.ambiguous_wide { uw_width_cjk(c) } else { uw_width(c) };
        match w {
            Some(x) => if x >= 1 { x as int } else { 1 },
            None => 1,
        }
    }
}

/// The largest number of columns one character can take.
pub open spec fn max_cwidth(opts: TextOpts) -> int {
    opts.tab_width + 256
}

impl TextOpts {
    pub fn char_width(&self, c: char, col: usize) -> (w: usize)
        ensures
            w == cwidth(*self, c, col as int),
            1 <= w <= max_cwidth(*self),
    {
        if c == '\t' {
            let w = if self.tab_width >= 1 { self.tab_width } else { 1 };
            return w - (col % w);
        }
        if is_control(c) {
            return 1;
        }
        if 0x20 <= (c as u32) && (c as u32) < 0x7f {
            return 1;
        }
        let w = if self.ambiguous_wide { char_width_cjk(c) } else { char_width_narrow(c) };
        match w {
            Some(x) => if x >= 1 { x } else { 1 },
            None => 1,
        }
    }
}

/// The column after the characters, starting from column 0.
pub open spec fn width_of_chars(cs: Seq<char>, opts: TextOpts) -> int
    decreases cs.len(),
{
    if cs.len() == 0 {
        0
    } else {
        let c0 = width_of_chars(cs.drop_last(), opts);
        c0 + cwidth(opts, cs.last(), c0)
    }
}

pub proof fn lemma_cwidth_bounds(opts: TextOpts, c: char, col: int)
    requires
        col >= 0,
    ensures
        1 <= cwidth(opts, c, col),
{
    if c == '\t' {
        let w = if opts.tab_width >= 1 { opts.tab_width as int } else { 1 };
        assert(0 <= col % w < w) by (nonlinear_arith)
            requires
                w >= 1,
        ;
    }
}

pub proof fn lemma_width_lower(cs: Seq<char>, opts: TextOpts)
    ensures
        cs.len() <= width_of_chars(cs, opts),
    decreases cs.len(),
{
    if cs.len() > 0 {
        lemma_width_lower(cs.drop_last(), opts);
        lemma_cwidth_bounds(opts, cs.last(), width_of_chars(cs.drop_last(), opts));
    }
}

/// Whether the width of a line fits in `usize`.
pub open spec fn measurable(cs: Seq<char>, opts: TextOpts) -> bool {
    width_of_chars(cs, opts) <= usize::MAX
}

/// A prefix is never wider than the whole.
pub proof fn lemma_width_prefix(cs: Seq<char>, opts: TextOpts, i: int)
    requires
        0 <= i <= cs.len(),
    ensures
        width_of_chars(cs.take(i), opts) <= width_of_chars(cs, opts),
    decreases cs.len() - i,
{
    if i < cs.len() {
        lemma_width_prefix(cs, opts, i + 1);
        assert(cs.take(i + 1).drop_last() =~= cs.take(i));
        lemma_width_lower(cs.take(i), opts);
        lemma_cwidth_bounds(opts, cs[i], width_of_chars(cs.take(i), opts));
    } else {
        assert(cs.take(i) =~= cs);
    }
}

/// The display width of `s`, or `None` when it does not fit in `usize`.
pub fn checked_width(s: &str, opts: TextOpts) -> (r: Option<usize>)
    ensures
        match r {
            Some(w) => w == width_of_chars(s@, opts),
            None => !measurable(s@, opts),
        },
{
    let cs = chars_of(s);
    let mut col: usize = 0;
    let mut i: usize = 0;
    proof {
        assert(cs@.take(0) =~= Seq::<char>::empty());
    }
    while i < cs.len()
        invariant
            cs@ == s@,
            i <= cs@.len(),
            col == width_of_chars(cs@.take(i as int), opts),
        decreases cs@.len() - i,
    {
        proof {
            assert(cs@.take(i + 1).drop_last() =~= cs@.take(i as int));
        }
        let w = opts.char_width(cs[i], col);
        if w > usize::MAX - col {
            proof {
                lemma_width_prefix(cs@, opts, i + 1);
            }
            return None;
        }
        col = col + w;
        i += 1;
    }
    assert(cs@.take(cs@.len() as int) =~= cs@);
    Some(col)
}

/// The display width of `s`.
pub fn display_width(s: &str, opts: TextOpts) -> (w: usize)
    requires
        measurable(s@, opts),
    ensures
        w == width_of_chars(s@, opts),
{
    let cs = chars_of(s);
    let mut col: usize = 0;
    let mut i: usize = 0;
    proof {
        assert(cs@.take(0) =~= Seq::<char>::empty());
    }
    while i < cs.len()
        invariant
            cs@ == s@,
            measurable(cs@, opts),
            i <= cs@.len(),
            col == width_of_chars(cs@.take(i as int), opts),
        decreases cs@.len() - i,
    {
        proof {
            assert(cs@.take(i + 1).drop_last() =~= cs@.take(i as int));
            lemma_width_prefix(cs@, opts, i + 1);
        }
        let w = opts.char_width(cs[i], col);
        col = col + w;
        i += 1;
    }
    assert(cs@.take(cs@.len() as int) =~= cs@);
    col
}

/// How many leading characters fit in `limit` columns, from character `k` on.
pub open spec fn fit_len(cs: Seq<char>, opts: TextOpts, limit: int, k: int) -> int
    decreases cs.len() - k,
{
    if 0 <= k < cs.len() && width_of_chars(cs.take(k + 1), opts) <= limit {
        fit_len(cs, opts, limit, k + 1)
    } else {
        k
    }
}

/// `s` as it fits in `width` columns: whole if it fits, else the leading
/// characters that fit in one column less, followed by `…`.
pub open spec fn spec_fit_width(s: Seq<char>, width: int, opts: TextOpts) -> Seq<char> {
    if width == 0 {
        Seq::empty()
    } else if width_of_chars(s, opts) <= width {
        s
    } else {
        s.take(fit_len(s, opts, width - 1, 0)) + seq!['…']
    }
}

/// The characters that `fit_len` keeps fit in `limit` columns.
proof fn lemma_fit_len_fits(cs: Seq<char>, opts: TextOpts, limit: int, k: int)
    requires
        0 <= k <= cs.len(),
        width_of_chars(cs.take(k), opts) <= limit,
    ensures
        k <= fit_len(cs, opts, limit, k) <= cs.len(),
        width_of_chars(cs.take(fit_len(cs, opts, limit, k)), opts) <= limit,
    decreases cs.len() - k,
{
    if 0 <= k < cs.len() && width_of_chars(cs.take(k + 1), opts) <= limit {
        lemma_fit_len_fits(cs, opts, limit, k + 1);
    }
}

/// What `fit_width` gives fits in `width` columns, save that the `…` that
/// ends a cut text takes the width that unicode-width gives it.
pub proof fn lemma_fit_width_bound(s: Seq<char>, width: int, opts: TextOpts)
    requires
        width >= 0,
    ensures
        width_of_chars(spec_fit_width(s, width, opts), opts) <= width
            || width_of_chars(spec_fit_width(s, width, opts), opts) <= width - 1
                + cwidth(opts, '…', width_of_chars(spec_fit_width(s, width, opts).drop_last(), opts)),
{
    let r = spec_fit_width(s, width, opts);
    if width > 0 && width_of_chars(s, opts) > width {
        assert(s.take(0) =~= Seq::<char>::empty());
        lemma_fit_len_fits(s, opts, width - 1, 0);
        let p = s.take(fit_len(s, opts, width - 1, 0));
        assert(r == p + seq!['…']);
        assert(r.drop_last() =~= p);
        assert(r.last() == '…');
    } else if width == 0 {
        assert(r =~= Seq::<char>::empty());
    }
}

/// Cuts `s` to `width` columns, ending it with `…` when it does not fit.
pub fn fit_width(s: &str, width: usize, opts: TextOpts) -> (r: String)
    requires
        measurable(s@, opts),
    ensures
        r@ == spec_fit_width(s@, width as int, opts),
        width_of_chars(r@, opts) <= width
            || width_of_chars(r@, opts) <= width - 1 + cwidth(opts, '…', width_of_chars(r@.drop_last(), opts)),
{
    proof {
        lemma_fit_width_bound(s@, width as int, opts);
    }
    if width == 0 {
        return String::new();
    }
    if display_width(s, opts) <= width {
        return String::from_str(s);
    }
    let cs = chars_of(s);
    let limit = width - 1;
    let mut col: usize = 0;
    let mut i: usize = 0;
    proof {
        assert(cs@.take(0) =~= Seq::<char>::empty());
        if cs@.len() >= 1 {
            assert(cs@.take(1).drop_last() =~= cs@.take(0));
            assert(cs@.take(1).last() == cs@[0]);
            lemma_width_prefix(cs@, opts, 1);
        }
    }
    while i < cs.len() && col + opts.char_width(cs[i], col) <= limit
        invariant
            cs@ == s@,
            measurable(cs@, opts),
            i <= cs@.len(),
            col == width_of_chars(cs@.take(i as int), opts),
            col <= limit,
            i < cs@.len() ==> col + cwidth(opts, cs@[i as int], col as int) <= usize::MAX,
            fit_len(cs@, opts, limit as int, 0) == fit_len(cs@, opts, limit as int, i as int),
        decreases cs@.len() - i,
    {
        proof {
            assert(cs@.take(i + 1).drop_last() =~= cs@.take(i as int));
            if i + 2 <= cs@.len() {
                assert(cs@.take(i + 2).drop_last() =~= cs@.take(i + 1));
                assert(cs@.take(i + 2).last() == cs@[i + 1]);
                lemma_width_prefix(cs@, opts, i + 2);
            }
        }
        let w = opts.char_width(cs[i], col);
        col = col + w;
        i += 1;
    }
    proof {
        if i < cs.len() {
            assert(cs@.take(i + 1).drop_last() =~= cs@.take(i as int));
        }
    }
    let mut out: Vec<char> = Vec::new();
    let mut k: usize = 0;
    while k < i
        invariant
            k <= i <= cs@.len(),
            out@ == cs@.take(k as int),
        decreases i - k,
    {
        out.push(cs[k]);
        k += 1;
        assert(out@ =~= cs@.take(k as int));
    }
    out.push('…');
    let r = string_of(out.as_slice());
    assert(r@ == spec_fit_width(s@, width as int, opts));
    r
}

pub open spec fn spaces(n: int) -> Seq<char> {
    Seq::new(n as nat, |i: int| ' ')
}

fn space_string(n: usize) -> (r: String)
    ensures
        r@ == spaces(n as int),
{
    let mut r = String::new();
    let mut k: usize = 0;
    while k < n
        invariant
            k <= n,
            r@ == spaces(k as int),
        decreases n - k,
    {
        push_char(&mut r, ' ');
        k += 1;
        assert(r@ =~= spaces(k as int));
    }
    r
}

/// `s` with spaces on the right up to `width` columns.
pub open spec fn spec_pad_to(s: Seq<char>, width: int, opts: TextOpts) -> Seq<char> {
    if width_of_chars(s, opts) >= width { s } else { s + spaces(width - width_of_chars(s, opts)) }
}

/// Spaces after a text add one column each.
pub proof fn lemma_width_spaces(s: Seq<char>, n: nat, opts: TextOpts)
    ensures
        width_of_chars(s + spaces(n as int), opts) == width_of_chars(s, opts) + n,
    decreases n,
{
    if n == 0 {
        assert(s + spaces(0) =~= s);
    } else {
        lemma_width_spaces(s, (n - 1) as nat, opts);
        let t = s + spaces(n as int);
        assert(t.drop_last() =~= s + spaces(n - 1));
        assert(t.last() == ' ');
    }
}

/// Padding makes a text exactly as wide as asked when it was narrower, and
/// leaves a wider one as it is.
pub proof fn lemma_pad_to_width(s: Seq<char>, width: int, opts: TextOpts)
    ensures
        width_of_chars(spec_pad_to(s, width, opts), opts) == if width_of_chars(s, opts) >= width {
            width_of_chars(s, opts)
        } else {
            width
        },
{
    if width_of_chars(s, opts) < width {
        lemma_width_spaces(s, (width - width_of_chars(s, opts)) as nat, opts);
    }
}

/// Pads `s` with spaces on the right up to `width` columns.
pub fn pad_to(s: &str, width: usize, opts: TextOpts) -> (r: String)
    requires
        measurable(s@, opts),
    ensures
        r@ == spec_pad_to(s@, width as int, opts),
        width_of_chars(r@, opts) == if width_of_chars(s@, opts) >= width { width_of_chars(s@, opts) } else { width as int },
{
    proof {
        lemma_pad_to_width(s@, width as int, opts);
    }
    let w = display_width(s, opts);
    if w >= width {
        return String::from_str(s);
    }
    let mut out = String::from_str(s);
    let pad = space_string(width - w);
    out.append(pad.as_str());
    out
}

pub open spec fn digits(n: nat) -> nat
    decreases n,
{
    if n < 10 { 1 } else { 1 + digits(n / 10) }
}

/// Columns of the line-number gutter: the digits of the line count (at
/// least of 1), and never fewer than three.
pub fn gutter_width(total_lines: usize) -> (w: usize)
    ensures
        w == (if digits(if total_lines >= 1 { total_lines as nat } else { 1 }) >= 3 {
            digits(if total_lines >= 1 { total_lines as nat } else { 1 })
        } else {
            3
        }),
{
    let mut n: usize = if total_lines >= 1 { total_lines } else { 1 };
    let ghost n0 = n as nat;
    let mut d: usize = 1;
    proof {
        lemma_digits_le(n0);
    }
    while n >= 10
        invariant
            d + digits(n as nat) == 1 + digits(n0),
            digits(n0) <= n0,
            n0 <= usize::MAX,
            n0 >= 1,
            digits(n as nat) >= 1,
        decreases n,
    {
        proof {
            lemma_digits_bound(n as nat);
        }
        assert(digits(n as nat) == 1 + digits((n / 10) as nat));
        n = n / 10;
        d += 1;
    }
    if d >= 3 { d } else { 3 }
}

proof fn lemma_digits_le(n: nat)
    requires
        n >= 1,
    ensures
        digits(n) <= n,
    decreases n,
{
    if n >= 10 {
        lemma_digits_le(n / 10);
    }
}

proof fn lemma_digits_bound(n: nat)
    ensures
        digits(n) >= 1,
        n >= 10 ==> digits(n / 10) >= 1,
    decreases n,
{
    if n >= 10 {
        lemma_digits_bound(n / 10);
    }
}

/// The first highlight range from `k` on that does not end at or before `byte`.
pub open spec fn advance_hi(hl: Seq<Range<usize>>, k: int, byte: int) -> int
    decreases hl.len() - k,
{
    if 0 <= k < hl.len() && hl[k].end <= byte { advance_hi(hl, k + 1, byte) } else { k }
}

/// Appends a piece of text, joining it to the last segment when that has the same mark.
pub open spec fn push_seg(out: Seq<(Seq<char>, bool)>, text: Seq<char>, hi: bool) -> Seq<(Seq<char>, bool)> {
    if out.len() > 0 && out.last().1 == hi {
        out.drop_last().push((out.last().0 + text, hi))
    } else {
        out.push((text, hi))
    }
}

pub open spec fn max_int(a: int, b: int) -> int {
    if a >= b { a } else { b }
}

pub open spec fn min_of(a: int, b: int) -> int {
    if a <= b { a } else { b }
}

/// What a character occupying columns `col..next` shows inside the window
/// `skip..end`: a tab, or a character cut by the window's edge, shows as
/// spaces over its visible columns; a control character as `·`.
pub open spec fn piece(c: char, col: int, next: int, skip: int, end: int) -> Seq<char> {
    if c == '\t' || col < skip || next > end {
        spaces(min_of(next, end) - max_int(col, skip))
    } else if spec_is_control(c) {
        seq!['·']
    } else {
        seq![c]
    }
}

/// The segments of the window `skip..end`, from character `i` at column
/// `col` on, the highlight scan being at range `k`.
pub open spec fn render_from(
    cs: Seq<char>,
    hl: Seq<Range<usize>>,
    opts: TextOpts,
    skip: int,
    end: int,
    i: int,
    col: int,
    k: int,
    out: Seq<(Seq<char>, bool)>,
) -> Seq<(Seq<char>, bool)>
    decreases cs.len() - i,
{
    if i < 0 || i >= cs.len() || col >= end {
        out
    } else {
        let next = col + cwidth(opts, cs[i], col);
        if next <= skip {
            render_from(cs, hl, opts, skip, end, i + 1, next, k, out)
        } else {
            let byte = byte_off(cs, i);
            let k2 = advance_hi(hl, k, byte);
            let hi = 0 <= k2 < hl.len() && hl[k2].start <= byte < hl[k2].end;
            render_from(cs, hl, opts, skip, end, i + 1, next, k2, push_seg(out, piece(cs[i], col, next, skip, end), hi))
        }
    }
}

/// The segments that show `line` in the window of `max_cols` columns after
/// the first `skip_cols`, each marked whether it lies in a highlight range.
pub open spec fn spec_render_line(
    cs: Seq<char>,
    hl: Seq<Range<usize>>,
    opts: TextOpts,
    skip: int,
    max_cols: int,
) -> Seq<(Seq<char>, bool)> {
    if max_cols == 0 {
        Seq::empty()
    } else {
        render_from(cs, hl, opts, skip, skip + max_cols, 0, 0, 0, Seq::empty())
    }
}

/// The text that the segments show, one after another.
pub open spec fn shown_text(segs: Seq<(Seq<char>, bool)>) -> Seq<char>
    decreases segs.len(),
{
    if segs.len() == 0 {
        Seq::empty()
    } else {
        shown_text(segs.drop_last()) + segs.last().0
    }
}

/// Whether the only control characters of `cs` are tabs.
pub open spec fn only_tab_controls(cs: Seq<char>) -> bool {
    forall|j: int| 0 <= j < cs.len() && spec_is_control(#[trigger] cs[j]) ==> cs[j] == '\t'
}

pub open spec fn tab_free(cs: Seq<char>) -> bool {
    forall|j: int| 0 <= j < cs.len() ==> #[trigger] cs[j] != '\t'
}

proof fn lemma_shown_push(out: Seq<(Seq<char>, bool)>, text: Seq<char>, hi: bool)
    ensures
        shown_text(push_seg(out, text, hi)) == shown_text(out) + text,
{
    if out.len() > 0 && out.last().1 == hi {
        let r = out.drop_last().push((out.last().0 + text, hi));
        assert(r.drop_last() =~= out.drop_last());
        assert(shown_text(r) =~= shown_text(out) + text);
    } else {
        let r = out.push((text, hi));
        assert(r.drop_last() =~= out);
    }
}

/// Characters that hold no tab add their widths wherever they stand.
proof fn lemma_width_append(a: Seq<char>, b: Seq<char>, opts: TextOpts)
    requires
        tab_free(b),
    ensures
        width_of_chars(a + b, opts) == width_of_chars(a, opts) + width_of_chars(b, opts),
    decreases b.len(),
{
    if b.len() == 0 {
        assert(a + b =~= a);
    } else {
        lemma_width_append(a, b.drop_last(), opts);
        assert((a + b).drop_last() =~= a + b.drop_last());
        assert((a + b).last() == b.last());
        assert(b.last() != '\t');
    }
}

proof fn lemma_render_from_width(
    cs: Seq<char>,
    hl: Seq<Range<usize>>,
    opts: TextOpts,
    skip: int,
    end: int,
    i: int,
    col: int,
    k: int,
    out: Seq<(Seq<char>, bool)>,
)
    requires
        0 <= skip < end,
        0 <= i <= cs.len(),
        col == width_of_chars(cs.take(i), opts),
        tab_free(shown_text(out)),
        only_tab_controls(cs) ==> width_of_chars(shown_text(out), opts) == max_int(0, min_of(col, end) - skip),
    ensures
        tab_free(shown_text(render_from(cs, hl, opts, skip, end, i, col, k, out))),
        only_tab_controls(cs) ==> width_of_chars(shown_text(render_from(cs, hl, opts, skip, end, i, col, k, out)), opts)
            == max_int(0, min_of(width_of_chars(cs, opts), end) - skip),
    decreases cs.len() - i,
{
    lemma_width_prefix(cs, opts, i);
    if i >= cs.len() {
        assert(cs.take(i) =~= cs);
    } else if col >= end {
    } else {
        let c = cs[i];
        let next = col + cwidth(opts, c, col);
        lemma_width_lower(cs.take(i), opts);
        lemma_cwidth_bounds(opts, c, col);
        assert(cs.take(i + 1).drop_last() =~= cs.take(i));
        assert(width_of_chars(cs.take(i + 1), opts) == next);
        if next <= skip {
            lemma_render_from_width(cs, hl, opts, skip, end, i + 1, next, k, out);
        } else {
            let byte = byte_off(cs, i);
            let k2 = advance_hi(hl, k, byte);
            let hi = 0 <= k2 < hl.len() && hl[k2].start <= byte < hl[k2].end;
            let p = piece(c, col, next, skip, end);
            let out2 = push_seg(out, p, hi);
            lemma_shown_push(out, p, hi);
            let n = min_of(next, end) - max_int(col, skip);
            if c == '\t' || col < skip || end < next {
                assert(n > 0);
                lemma_width_spaces(Seq::empty(), n as nat, opts);
                assert(Seq::<char>::empty() + spaces(n) =~= spaces(n));
                assert(width_of_chars(p, opts) == n);
            } else if spec_is_control(c) {
                assert(!only_tab_controls(cs) || c == '\t');
            } else {
                assert(p.drop_last() =~= Seq::<char>::empty());
                assert(width_of_chars(p.drop_last(), opts) == 0);
                assert(p.last() == c);
                assert(width_of_chars(p, opts) == cwidth(opts, c, 0));
                assert(width_of_chars(p, opts) == n);
            }
            assert(tab_free(p));
            lemma_width_append(shown_text(out), p, opts);
            assert(tab_free(shown_text(out2))) by {
                assert forall|j: int| 0 <= j < shown_text(out2).len() implies #[trigger] shown_text(out2)[j] != '\t' by {
                    if j < shown_text(out).len() {
                        assert(shown_text(out2)[j] == shown_text(out)[j]);
                    } else {
                        assert(shown_text(out2)[j] == p[j - shown_text(out).len()]);
                    }
                }
            }
            lemma_render_from_width(cs, hl, opts, skip, end, i + 1, next, k2, out2);
        }
    }
}

/// A rendered line holds no tab, and, when its only control characters are
/// tabs, it takes exactly the columns of the line that fall in the window:
/// none when the line ends before the window, else from the window's left
/// edge to the line's end or the window's right edge, whichever comes first.
pub proof fn lemma_render_width(cs: Seq<char>, hl: Seq<Range<usize>>, opts: TextOpts, skip: int, max_cols: int)
    requires
        0 <= skip,
        0 <= max_cols,
    ensures
        tab_free(shown_text(spec_render_line(cs, hl, opts, skip, max_cols))),
        only_tab_controls(cs) ==> width_of_chars(shown_text(spec_render_line(cs, hl, opts, skip, max_cols)), opts)
            == max_int(0, min_of(width_of_chars(cs, opts), skip + max_cols) - skip),
{
    if max_cols == 0 {
        assert(shown_text(Seq::<(Seq<char>, bool)>::empty()) =~= Seq::<char>::empty());
    } else {
        assert(cs.take(0) =~= Seq::<char>::empty());
        assert(shown_text(Seq::<(Seq<char>, bool)>::empty()) =~= Seq::<char>::empty());
        lemma_render_from_width(cs, hl, opts, skip, skip + max_cols, 0, 0, 0, Seq::empty());
    }
}

/// The characters as a terminal shows them: each tab replaced by the spaces
/// up to the next tab stop, each other control character by `·`.
pub open spec fn expand_tabs(cs: Seq<char>, opts: TextOpts) -> Seq<char>
    decreases cs.len(),
{
    if cs.len() == 0 {
        Seq::empty()
    } else {
        let before = cs.drop_last();
        expand_tabs(before, opts) + if cs.last() == '\t' {
            spaces(cwidth(opts, '\t', width_of_chars(before, opts)))
        } else if (cs.last() as u32) < 0x20 || cs.last() as u32 == 0x7f {
            seq!['·']
        } else {
            seq![cs.last()]
        }
    }
}

proof fn lemma_render_from_expands(
    cs: Seq<char>,
    hl: Seq<Range<usize>>,
    opts: TextOpts,
    end: int,
    i: int,
    col: int,
    k: int,
    out: Seq<(Seq<char>, bool)>,
)
    requires
        0 <= i <= cs.len(),
        width_of_chars(cs, opts) <= end,
        col == width_of_chars(cs.take(i), opts),
        shown_text(out) == expand_tabs(cs.take(i), opts),
    ensures
        shown_text(render_from(cs, hl, opts, 0, end, i, col, k, out)) == expand_tabs(cs, opts),
    decreases cs.len() - i,
{
    if i >= cs.len() {
        assert(cs.take(i) =~= cs);
    } else {
        let c = cs[i];
        let next = col + cwidth(opts, c, col);
        lemma_width_lower(cs.take(i), opts);
        lemma_cwidth_bounds(opts, c, col);
        let t = cs.take(i + 1);
        assert(t.drop_last() =~= cs.take(i));
        assert(t.last() == c);
        assert(width_of_chars(t, opts) == next);
        lemma_width_prefix(cs, opts, i + 1);
        let byte = byte_off(cs, i);
        let k2 = advance_hi(hl, k, byte);
        let hi = 0 <= k2 < hl.len() && hl[k2].start <= byte < hl[k2].end;
        let p = piece(c, col, next, 0, end);
        if c == '\t' {
            assert(p == spaces(cwidth(opts, '\t', col)));
        } else if spec_is_control(c) {
            assert(p == seq!['·']);
        } else {
            assert(p == seq![c]);
        }
        assert(expand_tabs(t, opts) == expand_tabs(cs.take(i), opts) + p);
        lemma_shown_push(out, p, hi);
        lemma_render_from_expands(cs, hl, opts, end, i + 1, next, k2, push_seg(out, p, hi));
    }
}

/// A line that fits in the window, shown from its first column, is shown
/// with each tab expanded to spaces up to the next tab stop, each other
/// control character as `·`, and every other character as it is.
pub proof fn lemma_render_expands(cs: Seq<char>, hl: Seq<Range<usize>>, opts: TextOpts, max_cols: int)
    requires
        width_of_chars(cs, opts) <= max_cols,
    ensures
        shown_text(spec_render_line(cs, hl, opts, 0, max_cols)) == expand_tabs(cs, opts),
{
    assert(shown_text(Seq::<(Seq<char>, bool)>::empty()) =~= Seq::<char>::empty());
    if max_cols == 0 {
        lemma_width_lower(cs, opts);
        assert(cs =~= Seq::<char>::empty());
    } else {
        assert(cs.take(0) =~= Seq::<char>::empty());
        lemma_render_from_expands(cs, hl, opts, max_cols, 0, 0, 0, Seq::empty());
    }
}

proof fn lemma_render_from_unmarked(
    cs: Seq<char>,
    hl: Seq<Range<usize>>,
    opts: TextOpts,
    skip: int,
    end: int,
    i: int,
    col: int,
    k: int,
    out: Seq<(Seq<char>, bool)>,
)
    requires
        hl.len() == 0,
        out.len() <= 1,
        forall|j: int| 0 <= j < out.len() ==> !(#[trigger] out[j]).1,
    ensures
        render_from(cs, hl, opts, skip, end, i, col, k, out).len() <= 1,
        forall|j: int| 0 <= j < render_from(cs, hl, opts, skip, end, i, col, k, out).len()
            ==> !(#[trigger] render_from(cs, hl, opts, skip, end, i, col, k, out)[j]).1,
    decreases cs.len() - i,
{
    if i < 0 || i >= cs.len() || col >= end {
    } else {
        let next = col + cwidth(opts, cs[i], col);
        if next <= skip {
            lemma_render_from_unmarked(cs, hl, opts, skip, end, i + 1, next, k, out);
        } else {
            let byte = byte_off(cs, i);
            let k2 = advance_hi(hl, k, byte);
            let p = piece(cs[i], col, next, skip, end);
            let out2 = push_seg(out, p, false);
            if out.len() > 0 {
                assert(!out.last().1);
            }
            lemma_render_from_unmarked(cs, hl, opts, skip, end, i + 1, next, k2, out2);
        }
    }
}

/// Without highlight ranges a line is one unmarked segment, or none.
pub proof fn lemma_render_unmarked(cs: Seq<char>, hl: Seq<Range<usize>>, opts: TextOpts, skip: int, max_cols: int)
    requires
        hl.len() == 0,
    ensures
        spec_render_line(cs, hl, opts, skip, max_cols).len() <= 1,
        forall|j: int| 0 <= j < spec_render_line(cs, hl, opts, skip, max_cols).len()
            ==> !(#[trigger] spec_render_line(cs, hl, opts, skip, max_cols)[j]).1,
{
    if max_cols != 0 {
        lemma_render_from_unmarked(cs, hl, opts, skip, skip + max_cols, 0, 0, 0, Seq::empty());
    }
}

pub open spec fn segs_view(v: Seq<(String, bool)>) -> Seq<(Seq<char>, bool)> {
    v.map_values(|p: (String, bool)| (p.0@, p.1))
}

fn push_segment(out: &mut Vec<(String, bool)>, text: String, hi: bool)
    ensures
        segs_view(final(out)@) == push_seg(segs_view(old(out)@), text@, hi),
{
    let n = out.len();
    if n > 0 && out[n - 1].1 == hi {
        let (mut t, h) = out.pop().unwrap();
        t.append(text.as_str());
        out.push((t, h));
        proof {
            assert(segs_view(final(out)@) =~= push_seg(segs_view(old(out)@), text@, hi));
        }
    } else {
        out.push((text, hi));
        proof {
            assert(segs_view(final(out)@) =~= push_seg(segs_view(old(out)@), text@, hi));
        }
    }
}

fn utf8_width_exec(c: char) -> (w: usize)
    ensures
        w == utf8_width(c),
{
    let u = c as u32;
    if u <= 0x7F { 1 } else if u <= 0x7FF { 2 } else if u <= 0xFFFF { 3 } else { 4 }
}

/// One line as display segments: tabs expanded, control characters shown
/// as `·`, clipped to `max_cols` columns after `skip_cols`, each segment
/// marked whether it lies in one of the highlight byte ranges.
pub fn render_line(
    line: &str,
    highlights: &[Range<usize>],
    opts: TextOpts,
    skip_cols: usize,
    max_cols: usize,
) -> (out: Vec<(String, bool)>)
    requires
        line.spec_bytes().len() <= usize::MAX,
        skip_cols + max_cols + max_cwidth(opts) <= usize::MAX,
    ensures
        segs_view(out@) == spec_render_line(line@, highlights@, opts, skip_cols as int, max_cols as int),
        tab_free(shown_text(segs_view(out@))),
        only_tab_controls(line@) ==> width_of_chars(shown_text(segs_view(out@)), opts) == max_int(0,
            min_of(width_of_chars(line@, opts), skip_cols + max_cols) - skip_cols),
        skip_cols == 0 && width_of_chars(line@, opts) <= max_cols ==> shown_text(segs_view(out@))
            == expand_tabs(line@, opts),
        highlights@.len() == 0 ==> segs_view(out@).len() <= 1 && forall|j: int| 0 <= j < segs_view(out@).len()
            ==> !(#[trigger] segs_view(out@)[j]).1,
{
    proof {
        lemma_render_width(line@, highlights@, opts, skip_cols as int, max_cols as int);
        if highlights@.len() == 0 {
            lemma_render_unmarked(line@, highlights@, opts, skip_cols as int, max_cols as int);
        }
        if skip_cols == 0 && width_of_chars(line@, opts) <= max_cols {
            lemma_render_expands(line@, highlights@, opts, max_cols as int);
        }
    }
    let mut out: Vec<(String, bool)> = Vec::new();
    if max_cols == 0 {
        return out;
    }
    let cs = chars_of(line);
    proof {
        lemma_byte_len_encode(cs@);
        assert(cs@.take(0) =~= Seq::<char>::empty());
        assert(segs_view(out@) =~= Seq::<(Seq<char>, bool)>::empty());
    }
    let end_col = skip_cols + max_cols;
    let mut col: usize = 0;
    let mut hi_index: usize = 0;
    let mut byte: usize = 0;
    let mut i: usize = 0;
    while i < cs.len() && col < end_col
        invariant
            cs@ == line@,
            byte_len(cs@) <= usize::MAX,
            i <= cs@.len(),
            end_col == skip_cols + max_cols,
            end_col + max_cwidth(opts) <= usize::MAX,
            byte == byte_off(cs@, i as int),
            hi_index <= highlights@.len(),
            render_from(cs@, highlights@, opts, skip_cols as int, end_col as int, i as int, col as int,
                hi_index as int, segs_view(out@)) == spec_render_line(line@, highlights@, opts,
                skip_cols as int, max_cols as int),
        decreases cs@.len() - i,
    {
        let c = cs[i];
        proof {
            lemma_byte_off_step(cs@, i as int);
            lemma_byte_off_mono(cs@, i + 1, cs@.len() as int);
        }
        let w = opts.char_width(c, col);
        let next = col + w;
        if next > skip_cols {
            let ghost k0 = hi_index;
            while hi_index < highlights.len() && highlights[hi_index].end <= byte
                invariant
                    k0 <= hi_index <= highlights@.len(),
                    advance_hi(highlights@, k0 as int, byte as int) == advance_hi(highlights@, hi_index as int, byte as int),
                decreases highlights@.len() - hi_index,
            {
                hi_index += 1;
            }
            let hi = hi_index < highlights.len() && highlights[hi_index].start <= byte && byte < highlights[hi_index].end;
            let vis_start = if col >= skip_cols { col } else { skip_cols };
            let vis_end = if next <= end_col { next } else { end_col };
            let text = if c == '\t' || col < skip_cols || next > end_col {
                space_string(vis_end - vis_start)
            } else if is_control(c) {
                let mut t = String::new();
                push_char(&mut t, '·');
                t
            } else {
                let mut t = String::new();
                push_char(&mut t, c);
                t
            };
            proof {
                assert(text@ =~= piece(c, col as int, next as int, skip_cols as int, end_col as int));
            }
            push_segment(&mut out, text, hi);
        }
        col = next;
        byte = byte + utf8_width_exec(c);
        i += 1;
    }
    out
}

} // verus!
