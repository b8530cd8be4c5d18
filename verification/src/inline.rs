//! Word-level differences inside a changed line.
//!
//! A line is cut into tokens (a run of word characters, a run of white
//! space, or any other single character; CJK characters stand alone, as
//! white space does not separate their words), the two token sequences are
//! diffed with gix, and the byte ranges of removed and added tokens,
//! merged where they touch, are the spans to highlight.
use vstd::prelude::*;
use gix::diff::blob::{Algorithm, Diff, InternedInput};
use core::ops::Range;
use vstd::string::StringSliceAdditionalSpecFns;
use vstd::utf8::encode_utf8;
use crate::strs::{chars_of, char_is_alphanumeric, char_is_whitespace, is_alnum, is_white, string_of};

verus! {

/// Longest line, in bytes, that is diffed word by word.
pub const MAX_LINE_BYTES: usize = 2000;
/// Most tokens per line that are diffed word by word.
pub const MAX_TOKENS: usize = 500;

pub open spec fn spec_is_cjk(c: char) -> bool {
    let u = c as u32;
    (0x3000 <= u <= 0x303F) || (0x3040 <= u <= 0x30FF) || (0x3400 <= u <= 0x4DBF) || (0x4E00 <= u
        <= 0x9FFF) || (0xF900 <= u <= 0xFAFF) || (0xFF00 <= u <= 0xFFEF) || (0x20000 <= u <= 0x2FA1F)
}

/// CJK characters each form a token of their own.
pub fn is_cjk(c: char) -> (b: bool)
    ensures
        b == spec_is_cjk(c),
{
    let u = c as u32;
    (0x3000 <= u && u <= 0x303F) || (0x3040 <= u && u <= 0x30FF) || (0x3400 <= u && u <= 0x4DBF)
        || (0x4E00 <= u && u <= 0x9FFF) || (0xF900 <= u && u <= 0xFAFF) || (0xFF00 <= u && u
        <= 0xFFEF) || (0x20000 <= u && u <= 0x2FA1F)
}

pub open spec fn spec_is_word(c: char) -> bool {
    !spec_is_cjk(c) && (is_alnum(c) || c == '_')
}

/// A character that belongs to a word: alphanumeric or `_`, and not CJK.
pub fn is_word(c: char) -> (b: bool)
    ensures
        b == spec_is_word(c),
{
    !is_cjk(c) && (char_is_alphanumeric(c) || c == '_')
}

/// The bytes that `c` takes in UTF-8.
pub open spec fn utf8_width(c: char) -> int {
    let u = c as u32;
    if u <= 0x7F { 1 } else if u <= 0x7FF { 2 } else if u <= 0xFFFF { 3 } else { 4 }
}

/// The bytes that the characters take in UTF-8.
pub open spec fn byte_len(cs: Seq<char>) -> int
    decreases cs.len(),
{
    if cs.len() == 0 { 0 } else { utf8_width(cs[0]) + byte_len(cs.drop_first()) }
}

pub proof fn lemma_byte_len_encode(cs: Seq<char>)
    ensures
        byte_len(cs) == vstd::utf8::encode_utf8(cs).len(),
    decreases cs.len(),
{
    if cs.len() > 0 {
        lemma_byte_len_encode(cs.drop_first());
        vstd::utf8::char_is_scalar(cs[0]);
    }
}

pub proof fn lemma_byte_len_concat(a: Seq<char>, b: Seq<char>)
    ensures
        byte_len(a + b) == byte_len(a) + byte_len(b),
    decreases a.len(),
{
    if a.len() > 0 {
        lemma_byte_len_concat(a.drop_first(), b);
        assert((a + b).drop_first() =~= a.drop_first() + b);
    } else {
        assert(a + b =~= b);
    }
}

pub proof fn lemma_byte_len_nonneg(a: Seq<char>)
    ensures
        byte_len(a) >= a.len(),
    decreases a.len(),
{
    if a.len() > 0 {
        lemma_byte_len_nonneg(a.drop_first());
    }
}

/// The byte offset of character `i`.
pub open spec fn byte_off(cs: Seq<char>, i: int) -> int {
    byte_len(cs.take(i))
}

pub proof fn lemma_byte_off_step(cs: Seq<char>, i: int)
    requires
        0 <= i < cs.len(),
    ensures
        byte_off(cs, i + 1) == byte_off(cs, i) + utf8_width(cs[i]),
{
    lemma_byte_len_concat(cs.take(i), seq![cs[i]]);
    assert(cs.take(i) + seq![cs[i]] =~= cs.take(i + 1));
    assert(seq![cs[i]].drop_first() =~= Seq::<char>::empty());
    assert(byte_len(seq![cs[i]]) == utf8_width(cs[i]) + byte_len(seq![cs[i]].drop_first()));
    assert(byte_len(Seq::<char>::empty()) == 0);
}

pub proof fn lemma_byte_off_mono(cs: Seq<char>, i: int, j: int)
    requires
        0 <= i <= j <= cs.len(),
    ensures
        byte_off(cs, i) <= byte_off(cs, j) <= byte_len(cs),
    decreases j - i,
{
    if i < j {
        lemma_byte_off_mono(cs, i, j - 1);
        lemma_byte_off_step(cs, j - 1);
    }
    lemma_byte_len_concat(cs.take(j), cs.skip(j));
    assert(cs.take(j) + cs.skip(j) =~= cs);
    lemma_byte_len_nonneg(cs.skip(j));
}

/// Where a run of word characters (`word`) or of white space starting at `j` ends.
pub open spec fn run_end(cs: Seq<char>, j: int, word: bool) -> int
    decreases cs.len() - j,
{
    if 0 <= j < cs.len() && (if word { spec_is_word(cs[j]) } else { is_white(cs[j]) }) {
        run_end(cs, j + 1, word)
    } else {
        j
    }
}

pub proof fn lemma_run_end(cs: Seq<char>, j: int, word: bool)
    requires
        0 <= j <= cs.len(),
    ensures
        j <= run_end(cs, j, word) <= cs.len(),
    decreases cs.len() - j,
{
    if j < cs.len() && (if word { spec_is_word(cs[j]) } else { is_white(cs[j]) }) {
        lemma_run_end(cs, j + 1, word);
    }
}

/// Where the token that starts at character `i` ends.
pub open spec fn token_end(cs: Seq<char>, i: int) -> int {
    if spec_is_word(cs[i]) {
        run_end(cs, i + 1, true)
    } else if is_white(cs[i]) {
        run_end(cs, i + 1, false)
    } else {
        i + 1
    }
}

/// The tokens from character `i` on, as character ranges.
pub open spec fn char_tokens(cs: Seq<char>, i: int) -> Seq<(int, int)>
    decreases cs.len() - i,
{
    if i < 0 || i >= cs.len() {
        Seq::empty()
    } else {
        let e = token_end(cs, i);
        if e <= i || e > cs.len() {
            Seq::empty()
        } else {
            seq![(i, e)] + char_tokens(cs, e)
        }
    }
}

pub open spec fn to_bytes(cs: Seq<char>, t: (int, int)) -> Range<usize> {
    Range { start: byte_off(cs, t.0) as usize, end: byte_off(cs, t.1) as usize }
}

/// The tokens of a line, as byte ranges.
pub open spec fn spec_tokenize(s: Seq<char>) -> Seq<Range<usize>> {
    char_tokens(s, 0).map_values(|t: (int, int)| to_bytes(s, t))
}

proof fn lemma_char_tokens_cover(cs: Seq<char>, i: int)
    requires
        0 <= i <= cs.len(),
    ensures
        ({
            let t = char_tokens(cs, i);
            &&& (t.len() == 0 <==> i == cs.len())
            &&& t.len() > 0 ==> t[0].0 == i && t.last().1 == cs.len()
            &&& forall|k: int| 0 <= k < t.len() ==> i <= (#[trigger] t[k]).0 < t[k].1 <= cs.len()
            &&& forall|k: int| 0 <= k < t.len() - 1 ==> (#[trigger] t[k]).1 == t[k + 1].0
        }),
    decreases cs.len() - i,
{
    if i < cs.len() {
        let e = token_end(cs, i);
        lemma_run_end(cs, i + 1, true);
        lemma_run_end(cs, i + 1, false);
        assert(i < e <= cs.len());
        lemma_char_tokens_cover(cs, e);
        let rest = char_tokens(cs, e);
        let t = char_tokens(cs, i);
        assert(t == seq![(i, e)] + rest);
        assert forall|k: int| 0 <= k < t.len() - 1 implies (#[trigger] t[k]).1 == t[k + 1].0 by {
            if k > 0 {
                assert(t[k] == rest[k - 1] && t[k + 1] == rest[k]);
            }
        }
        assert forall|k: int| 0 <= k < t.len() implies i <= (#[trigger] t[k]).0 < t[k].1 <= cs.len() by {
            if k > 0 {
                assert(t[k] == rest[k - 1]);
            }
        }
    }
}

/// A run ends at the first character outside its class, or at the end.
proof fn lemma_run_shape(cs: Seq<char>, j: int, word: bool)
    requires
        0 <= j <= cs.len(),
    ensures
        forall|t: int| j <= t < run_end(cs, j, word) ==> if word { spec_is_word(#[trigger] cs[t]) } else { is_white(cs[t]) },
        run_end(cs, j, word) == cs.len() || !(if word { spec_is_word(cs[run_end(cs, j, word)]) } else { is_white(cs[run_end(cs, j, word)]) }),
    decreases cs.len() - j,
{
    lemma_run_end(cs, j, word);
    if j < cs.len() && (if word { spec_is_word(cs[j]) } else { is_white(cs[j]) }) {
        lemma_run_shape(cs, j + 1, word);
    }
}

/// Each token from character `i` on ends where `token_end` says.
proof fn lemma_tokens_end(cs: Seq<char>, i: int)
    requires
        0 <= i <= cs.len(),
    ensures
        forall|k: int| 0 <= k < char_tokens(cs, i).len() ==> (#[trigger] char_tokens(cs, i)[k]).1 == token_end(cs, char_tokens(cs, i)[k].0),
    decreases cs.len() - i,
{
    if i < cs.len() {
        let e = token_end(cs, i);
        lemma_run_end(cs, i + 1, true);
        lemma_run_end(cs, i + 1, false);
        lemma_tokens_end(cs, e);
        let t = char_tokens(cs, i);
        let rest = char_tokens(cs, e);
        assert(t == seq![(i, e)] + rest);
        assert forall|k: int| 0 <= k < t.len() implies (#[trigger] t[k]).1 == token_end(cs, t[k].0) by {
            if k > 0 {
                assert(t[k] == rest[k - 1]);
            }
        }
    }
}

/// The tokens of a line, as characters: each is a longest run of word
/// characters, a longest run of white space, or one other character.
pub proof fn lemma_token_shape(cs: Seq<char>)
    ensures
        forall|k: int| 0 <= k < char_tokens(cs, 0).len() ==> {
            let (a, b) = #[trigger] char_tokens(cs, 0)[k];
            &&& spec_is_word(cs[a]) ==> (forall|t: int| a <= t < b ==> spec_is_word(#[trigger] cs[t]))
                && (b == cs.len() || !spec_is_word(cs[b]))
            &&& !spec_is_word(cs[a]) && is_white(cs[a]) ==> (forall|t: int| a <= t < b ==> is_white(#[trigger] cs[t]))
                && (b == cs.len() || !is_white(cs[b]))
            &&& !spec_is_word(cs[a]) && !is_white(cs[a]) ==> b == a + 1
        },
{
    lemma_char_tokens_cover(cs, 0);
    lemma_tokens_end(cs, 0);
    assert forall|k: int| 0 <= k < char_tokens(cs, 0).len() implies {
        let (a, b) = #[trigger] char_tokens(cs, 0)[k];
        &&& spec_is_word(cs[a]) ==> (forall|t: int| a <= t < b ==> spec_is_word(#[trigger] cs[t]))
            && (b == cs.len() || !spec_is_word(cs[b]))
        &&& !spec_is_word(cs[a]) && is_white(cs[a]) ==> (forall|t: int| a <= t < b ==> is_white(#[trigger] cs[t]))
            && (b == cs.len() || !is_white(cs[b]))
        &&& !spec_is_word(cs[a]) && !is_white(cs[a]) ==> b == a + 1
    } by {
        let (a, b) = char_tokens(cs, 0)[k];
        lemma_run_shape(cs, a + 1, true);
        lemma_run_shape(cs, a + 1, false);
    }
}

/// A CJK character other than the ideographic space is a token of its own:
/// hiragana and katakana (U+3040..U+30FF), CJK punctuation, ideographs and
/// their extensions, compatibility ideographs and full-width forms are never
/// joined to the characters around them.
pub proof fn lemma_cjk_single(cs: Seq<char>)
    ensures
        forall|k: int| 0 <= k < char_tokens(cs, 0).len() ==> {
            let (a, b) = #[trigger] char_tokens(cs, 0)[k];
            let u = cs[a] as u32;
            (0x3001 <= u <= 0x303F) || (0x3040 <= u <= 0x309F) || (0x30A0 <= u <= 0x30FF)
                || (0x3400 <= u <= 0x4DBF) || (0x4E00 <= u <= 0x9FFF) || (0xF900 <= u <= 0xFAFF)
                || (0xFF00 <= u <= 0xFFEF) || (0x20000 <= u <= 0x2FA1F) ==> b == a + 1
        },
{
    lemma_token_shape(cs);
}

/// The tokens of a line follow one another and cover it: none is empty,
/// the first starts at byte 0, each ends where the next starts, and the
/// last ends at the line's end; a line has no tokens only when it is empty.
pub proof fn lemma_tokens_cover(s: Seq<char>)
    requires
        byte_len(s) <= usize::MAX,
    ensures
        ({
            let t = spec_tokenize(s);
            &&& (t.len() == 0 <==> s.len() == 0)
            &&& t.len() > 0 ==> t[0].start == 0 && t.last().end == byte_len(s)
            &&& forall|k: int| 0 <= k < t.len() ==> (#[trigger] t[k]).start < t[k].end
            &&& forall|k: int| 0 <= k < t.len() - 1 ==> (#[trigger] t[k]).end == t[k + 1].start
        }),
{
    lemma_char_tokens_cover(s, 0);
    let c = char_tokens(s, 0);
    let t = spec_tokenize(s);
    assert(s.take(0) =~= Seq::<char>::empty());
    assert(s.take(s.len() as int) =~= s);
    assert forall|k: int| 0 <= k < c.len() implies (#[trigger] t[k]).start == byte_off(s, c[k].0)
        && t[k].end == byte_off(s, c[k].1) && byte_off(s, c[k].0) < byte_off(s, c[k].1) by {
        lemma_byte_off_mono(s, c[k].0, c[k].1);
        lemma_byte_off_mono(s, c[k].1, s.len() as int);
        lemma_byte_off_mono(s, 0, c[k].0);
        lemma_byte_off_step(s, c[k].0);
        lemma_byte_off_mono(s, c[k].0 + 1, c[k].1);
        assert(utf8_width(s[c[k].0]) >= 1);
    }
    assert forall|k: int| 0 <= k < t.len() - 1 implies (#[trigger] t[k]).end == t[k + 1].start by {
        assert(c[k].1 == c[k + 1].0);
    }
}

fn in_class(c: char, word: bool) -> (b: bool)
    ensures
        b == (if word { spec_is_word(c) } else { is_white(c) }),
{
    if word { is_word(c) } else { char_is_whitespace(c) }
}

fn width_of(c: char) -> (w: usize)
    ensures
        w == utf8_width(c),
{
    let u = c as u32;
    if u <= 0x7F { 1 } else if u <= 0x7FF { 2 } else if u <= 0xFFFF { 3 } else { 4 }
}

/// The end of the run of the given class that starts at `j`, with its byte offset.
fn scan_run(cs: &Vec<char>, j: usize, pos: usize, word: bool) -> (r: (usize, usize))
    requires
        j <= cs@.len(),
        pos == byte_off(cs@, j as int),
        byte_len(cs@) <= usize::MAX,
    ensures
        r.0 == run_end(cs@, j as int, word),
        r.1 == byte_off(cs@, r.0 as int),
{
    let mut k = j;
    let mut p = pos;
    while k < cs.len() && in_class(cs[k], word)
        invariant
            j <= k <= cs@.len(),
            p == byte_off(cs@, k as int),
            byte_len(cs@) <= usize::MAX,
            run_end(cs@, j as int, word) == run_end(cs@, k as int, word),
        decreases cs@.len() - k,
    {
        proof {
            lemma_byte_off_step(cs@, k as int);
            lemma_byte_off_mono(cs@, k + 1, cs@.len() as int);
        }
        p = p + width_of(cs[k]);
        k += 1;
    }
    (k, p)
}

/// Cuts a line into words, runs of white space, and single other
/// characters (each CJK character on its own); returns their byte ranges.
pub fn tokenize(s: &str) -> (out: Vec<Range<usize>>)
    requires
        s.spec_bytes().len() <= usize::MAX,
    ensures
        out@ == spec_tokenize(s@),
{
    let cs = chars_of(s);
    proof {
        lemma_byte_len_encode(cs@);
        assert(cs@.take(0) =~= Seq::<char>::empty());
    }
    let ghost all = char_tokens(cs@, 0).map_values(|t: (int, int)| to_bytes(cs@, t));
    let mut out: Vec<Range<usize>> = Vec::new();
    let mut i: usize = 0;
    let mut pos: usize = 0;
    while i < cs.len()
        invariant
            cs@ == s@,
            i <= cs@.len(),
            pos == byte_off(cs@, i as int),
            byte_len(cs@) <= usize::MAX,
            all == char_tokens(cs@, 0).map_values(|t: (int, int)| to_bytes(cs@, t)),
            out@ + char_tokens(cs@, i as int).map_values(|t: (int, int)| to_bytes(cs@, t)) == all,
        decreases cs@.len() - i,
    {
        let c = cs[i];
        proof {
            lemma_byte_off_step(cs@, i as int);
            lemma_byte_off_mono(cs@, i + 1, cs@.len() as int);
        }
        let next_pos = pos + width_of(c);
        let (end, end_pos) = if is_word(c) {
            scan_run(&cs, i + 1, next_pos, true)
        } else if char_is_whitespace(c) {
            scan_run(&cs, i + 1, next_pos, false)
        } else {
            (i + 1, next_pos)
        };
        proof {
            lemma_run_end(cs@, i + 1, true);
            lemma_run_end(cs@, i + 1, false);
            assert(end == token_end(cs@, i as int));
            let rest = char_tokens(cs@, end as int).map_values(|t: (int, int)| to_bytes(cs@, t));
            assert(char_tokens(cs@, i as int) == seq![(i as int, end as int)] + char_tokens(cs@, end as int));
            assert(char_tokens(cs@, i as int).map_values(|t: (int, int)| to_bytes(cs@, t))
                =~= seq![to_bytes(cs@, (i as int, end as int))] + rest);
            assert(to_bytes(cs@, (i as int, end as int)) == (Range { start: pos, end: end_pos }));
            assert(out@.push(Range { start: pos, end: end_pos }) + rest =~= out@ + (seq![to_bytes(cs@, (i as int, end as int))] + rest));
        }
        out.push(Range { start: pos, end: end_pos });
        i = end;
        pos = end_pos;
    }
    proof {
        assert(char_tokens(cs@, i as int) =~= Seq::<(int, int)>::empty());
        assert(out@ + Seq::<Range<usize>>::empty() =~= out@);
    }
    out
}

/// The texts of the tokens of a line.
pub open spec fn token_texts_spec(s: Seq<char>) -> Seq<Seq<char>> {
    char_tokens(s, 0).map_values(|t: (int, int)| s.subrange(t.0, t.1))
}

fn run_end_exec(cs: &Vec<char>, j: usize, word: bool) -> (k: usize)
    requires
        j <= cs@.len(),
    ensures
        k == run_end(cs@, j as int, word),
{
    let mut k = j;
    while k < cs.len() && in_class(cs[k], word)
        invariant
            j <= k <= cs@.len(),
            run_end(cs@, j as int, word) == run_end(cs@, k as int, word),
        decreases cs@.len() - k,
    {
        k += 1;
    }
    k
}

fn chars_between(cs: &Vec<char>, a: usize, b: usize) -> (s: String)
    requires
        a <= b <= cs@.len(),
    ensures
        s@ == cs@.subrange(a as int, b as int),
{
    let mut v: Vec<char> = Vec::new();
    let mut k = a;
    while k < b
        invariant
            a <= k <= b <= cs@.len(),
            v@ == cs@.subrange(a as int, k as int),
        decreases b - k,
    {
        v.push(cs[k]);
        k += 1;
        assert(v@ =~= cs@.subrange(a as int, k as int));
    }
    string_of(v.as_slice())
}

/// The texts of the tokens of a line, in order.
pub fn token_texts(s: &str) -> (out: Vec<String>)
    ensures
        out@.map_values(|x: String| x@) == token_texts_spec(s@),
{
    let cs = chars_of(s);
    let ghost all = token_texts_spec(cs@);
    let mut out: Vec<String> = Vec::new();
    let mut i: usize = 0;
    while i < cs.len()
        invariant
            cs@ == s@,
            i <= cs@.len(),
            all == token_texts_spec(cs@),
            out@.map_values(|x: String| x@) + char_tokens(cs@, i as int).map_values(
                |t: (int, int)| cs@.subrange(t.0, t.1),
            ) == all,
        decreases cs@.len() - i,
    {
        let c = cs[i];
        let end = if is_word(c) {
            run_end_exec(&cs, i + 1, true)
        } else if char_is_whitespace(c) {
            run_end_exec(&cs, i + 1, false)
        } else {
            i + 1
        };
        proof {
            lemma_run_end(cs@, i + 1, true);
            lemma_run_end(cs@, i + 1, false);
            assert(end == token_end(cs@, i as int));
        }
        let text = chars_between(&cs, i, end);
        proof {
            let rest = char_tokens(cs@, end as int).map_values(|t: (int, int)| cs@.subrange(t.0, t.1));
            assert(char_tokens(cs@, i as int) == seq![(i as int, end as int)] + char_tokens(cs@, end as int));
            assert(char_tokens(cs@, i as int).map_values(|t: (int, int)| cs@.subrange(t.0, t.1))
                =~= seq![cs@.subrange(i as int, end as int)] + rest);
            assert(out@.push(text).map_values(|x: String| x@) =~= out@.map_values(|x: String| x@).push(text@));
            assert(out@.map_values(|x: String| x@).push(text@) + rest =~= out@.map_values(|x: String| x@) + (seq![cs@.subrange(i as int, end as int)] + rest));
        }
        out.push(text);
        i = end;
    }
    proof {
        assert(char_tokens(cs@, i as int) =~= Seq::<(int, int)>::empty());
        assert(out@.map_values(|x: String| x@) + Seq::<Seq<char>>::empty() =~= out@.map_values(|x: String| x@));
    }
    out
}

/// The byte ranges to highlight in the old and in the new line.
#[derive(Clone, Debug, Default)]
pub struct InlineSpans {
    pub old: Vec<Range<usize>>,
    pub new: Vec<Range<usize>>,
}

/// Which tokens gix's histogram diff marks as removed from the old
/// sequence and as added to the new one.
pub uninterp spec fn token_diff(old: Seq<Seq<char>>, new: Seq<Seq<char>>) -> (Seq<bool>, Seq<bool>);

/// Calls gix's `Diff::compute` with `Algorithm::Histogram` on the interned
/// token texts and reads `Diff::is_removed` and `Diff::is_added` for every
/// token. The result is named by `token_diff`; its flag vectors have one
/// entry per token, as `Diff::compute_with` sizes them.
#[verifier::external_body]
fn token_flags(old: &Vec<String>, new: &Vec<String>) -> (r: (Vec<bool>, Vec<bool>))
    requires
        old@.len() < 0x7fff_ffff,
        new@.len() < 0x7fff_ffff,
    ensures
        (r.0@, r.1@) == token_diff(old@.map_values(|x: String| x@), new@.map_values(|x: String| x@)),
        r.0@.len() == old@.len(),
        r.1@.len() == new@.len(),
{
    let mut input: InternedInput<&str> = InternedInput::default();
    input.update_before(old.iter().map(|x| x.as_str()));
    input.update_after(new.iter().map(|x| x.as_str()));
    let diff = Diff::compute(Algorithm::Histogram, &input);
    let removed = (0..old.len()).map(|i| diff.is_removed(i as u32)).collect();
    let added = (0..new.len()).map(|i| diff.is_added(i as u32)).collect();
    (removed, added)
}

/// The tokens whose flag is set, in order.
pub open spec fn selected(tokens: Seq<Range<usize>>, flags: Seq<bool>) -> Seq<Range<usize>>
    decreases tokens.len(),
{
    if tokens.len() == 0 || flags.len() < tokens.len() {
        Seq::empty()
    } else {
        let rest = selected(tokens.drop_last(), flags);
        if flags[tokens.len() - 1] { rest.push(tokens.last()) } else { rest }
    }
}

/// Ranges sorted by start, with each range that touches or overlaps the one
/// before it merged into that one.
pub open spec fn merged(rs: Seq<Range<usize>>) -> Seq<Range<usize>>
    decreases rs.len(),
{
    if rs.len() == 0 {
        Seq::empty()
    } else {
        let m = merged(rs.drop_last());
        let r = rs.last();
        if m.len() > 0 && m.last().end >= r.start {
            let end = if m.last().end >= r.end { m.last().end } else { r.end };
            m.drop_last().push(Range { start: m.last().start, end: end })
        } else {
            m.push(r)
        }
    }
}

fn merge_adjacent(ranges: Vec<Range<usize>>) -> (out: Vec<Range<usize>>)
    ensures
        out@ == merged(ranges@),
{
    let mut out: Vec<Range<usize>> = Vec::new();
    let mut i: usize = 0;
    while i < ranges.len()
        invariant
            i <= ranges@.len(),
            out@ == merged(ranges@.take(i as int)),
        decreases ranges@.len() - i,
    {
        let r = Range { start: ranges[i].start, end: ranges[i].end };
        proof {
            assert(ranges@.take(i + 1).drop_last() =~= ranges@.take(i as int));
        }
        let n = out.len();
        if n > 0 && out[n - 1].end >= r.start {
            let last = out.pop().unwrap();
            let end = if last.end >= r.end { last.end } else { r.end };
            out.push(Range { start: last.start, end });
        } else {
            out.push(r);
        }
        i += 1;
    }
    assert(ranges@.take(ranges@.len() as int) =~= ranges@);
    out
}

/// The merged byte ranges of the tokens whose flag is set.
pub fn spans_from_flags(tokens: &Vec<Range<usize>>, flags: &Vec<bool>) -> (out: Vec<Range<usize>>)
    requires
        flags@.len() == tokens@.len(),
    ensures
        out@ == merged(selected(tokens@, flags@)),
{
    let mut picked: Vec<Range<usize>> = Vec::new();
    let mut i: usize = 0;
    while i < tokens.len()
        invariant
            i <= tokens@.len(),
            flags@.len() == tokens@.len(),
            picked@ == selected(tokens@.take(i as int), flags@),
        decreases tokens@.len() - i,
    {
        proof {
            assert(tokens@.take(i + 1).drop_last() =~= tokens@.take(i as int));
        }
        if flags[i] {
            picked.push(Range { start: tokens[i].start, end: tokens[i].end });
        }
        i += 1;
    }
    assert(tokens@.take(tokens@.len() as int) =~= tokens@);
    merge_adjacent(picked)
}

/// One range over each whole line.
pub fn whole_line(ol: &str, nl: &str) -> (r: InlineSpans)
    ensures
        r.old@ == seq![Range { start: 0usize, end: ol.spec_bytes().len() as usize }],
        r.new@ == seq![Range { start: 0usize, end: nl.spec_bytes().len() as usize }],
{
    let mut o: Vec<Range<usize>> = Vec::new();
    o.push(Range { start: 0, end: ol.len() });
    let mut n: Vec<Range<usize>> = Vec::new();
    n.push(Range { start: 0, end: nl.len() });
    InlineSpans { old: o, new: n }
}

fn same_chars(a: &Vec<char>, b: &Vec<char>) -> (r: bool)
    ensures
        r == (a@ == b@),
{
    if a.len() != b.len() {
        return false;
    }
    let mut k: usize = 0;
    while k < a.len() && a[k] == b[k]
        invariant
            a@.len() == b@.len(),
            k <= a@.len(),
            forall|p: int| 0 <= p < k ==> a@[p] == b@[p],
        decreases a@.len() - k,
    {
        k += 1;
    }
    if k == a.len() {
        assert(a@ =~= b@);
        true
    } else {
        assert(a@[k as int] != b@[k as int]);
        false
    }
}

/// The spans that `inline_diff` gives for two lines, as one value.
pub open spec fn spec_inline_diff(ol: Seq<char>, nl: Seq<char>) -> (Seq<Range<usize>>, Seq<Range<usize>>) {
    let ob = encode_utf8(ol).len();
    let nb = encode_utf8(nl).len();
    if ol == nl {
        (Seq::empty(), Seq::empty())
    } else if ob > MAX_LINE_BYTES || nb > MAX_LINE_BYTES || char_tokens(ol, 0).len() > MAX_TOKENS
        || char_tokens(nl, 0).len() > MAX_TOKENS {
        (seq![Range { start: 0usize, end: ob as usize }], seq![Range { start: 0usize, end: nb as usize }])
    } else {
        let flags = token_diff(token_texts_spec(ol), token_texts_spec(nl));
        (merged(selected(spec_tokenize(ol), flags.0)), merged(selected(spec_tokenize(nl), flags.1)))
    }
}

/// The byte ranges where two lines differ, token by token. Equal lines give
/// no ranges; a line over 2000 bytes, or with over 500 tokens, is marked
/// whole on both sides.
pub fn inline_diff(ol: &str, nl: &str) -> (r: InlineSpans)
    requires
        ol.spec_bytes().len() <= usize::MAX,
        nl.spec_bytes().len() <= usize::MAX,
    ensures
        ol@ == nl@ ==> r.old@.len() == 0 && r.new@.len() == 0,
        ol@ != nl@ && (ol.spec_bytes().len() > MAX_LINE_BYTES || nl.spec_bytes().len() > MAX_LINE_BYTES
            || char_tokens(ol@, 0).len() > MAX_TOKENS || char_tokens(nl@, 0).len() > MAX_TOKENS) ==> (
        r.old@ == seq![Range { start: 0usize, end: ol.spec_bytes().len() as usize }]
            && r.new@ == seq![Range { start: 0usize, end: nl.spec_bytes().len() as usize }]),
        ol@ != nl@ && ol.spec_bytes().len() <= MAX_LINE_BYTES && nl.spec_bytes().len() <= MAX_LINE_BYTES
            && char_tokens(ol@, 0).len() <= MAX_TOKENS && char_tokens(nl@, 0).len() <= MAX_TOKENS ==> ({
            let flags = token_diff(token_texts_spec(ol@), token_texts_spec(nl@));
            &&& r.old@ == merged(selected(spec_tokenize(ol@), flags.0))
            &&& r.new@ == merged(selected(spec_tokenize(nl@), flags.1))
        }),
        (r.old@, r.new@) == spec_inline_diff(ol@, nl@),
{
    let oc = chars_of(ol);
    let nc = chars_of(nl);
    if same_chars(&oc, &nc) {
        return InlineSpans { old: Vec::new(), new: Vec::new() };
    }
    if ol.len() > MAX_LINE_BYTES || nl.len() > MAX_LINE_BYTES {
        return whole_line(ol, nl);
    }
    let old_tokens = tokenize(ol);
    let new_tokens = tokenize(nl);
    if old_tokens.len() > MAX_TOKENS || new_tokens.len() > MAX_TOKENS {
        return whole_line(ol, nl);
    }
    assert(old_tokens@.len() == char_tokens(ol@, 0).len());
    assert(new_tokens@.len() == char_tokens(nl@, 0).len());
    let old_texts = token_texts(ol);
    let new_texts = token_texts(nl);
    proof {
        assert(old_texts@.map_values(|x: String| x@).len() == old_texts@.len());
        assert(new_texts@.map_values(|x: String| x@).len() == new_texts@.len());
    }
    let (removed, added) = token_flags(&old_texts, &new_texts);
    InlineSpans {
        old: spans_from_flags(&old_tokens, &removed),
        new: spans_from_flags(&new_tokens, &added),
    }
}

} // verus!
