//! Syntax colors of a file: per line, byte ranges with a foreground color.
//! The highlighter works on a whole file and hands back, for each line, the
//! styled regions in order; they become merged color ranges here.
use vstd::prelude::*;
use core::ops::Range;
use syntect::easy::HighlightLines;
use syntect::highlighting::ThemeSet;
use syntect::parsing::SyntaxSet;
use vstd::utf8::{decode_utf8, valid_utf8};
use vstd::string::StringSliceAdditionalSpecFns;
use crate::lines::{LineTable, strip_cr};
use crate::paths::name_of;
use crate::state::utf8_str;
use crate::strs::{chars_of, push_char, string_of};
use crate::walker::{sort_strings, text_lt};

verus! {

/// The theme used when the configuration names none.
pub const DEFAULT_THEME: &'static str = "base16-ocean.dark";

#[derive(Copy, Clone, PartialEq, Eq, Debug, Structural)]
pub struct Rgb {
    pub r: u8,
    pub g: u8,
    pub b: u8,
}

impl Rgb {
    pub fn new(r: u8, g: u8, b: u8) -> (c: Rgb)
        ensures
            c == (Rgb { r, g, b }),
    {
        Rgb { r, g, b }
    }
}

/// The colors of every line of a file.
#[derive(Debug, Default)]
pub struct Highlighted {
    lines: Vec<Vec<(Range<usize>, Rgb)>>,
}

impl Highlighted {
    pub closed spec fn lines_v(&self) -> Seq<Seq<(Range<usize>, Rgb)>> {
        self.lines@.map_values(|l: Vec<(Range<usize>, Rgb)>| l@)
    }

    pub fn new(lines: Vec<Vec<(Range<usize>, Rgb)>>) -> (h: Highlighted)
        ensures
            h.lines_v() == lines@.map_values(|l: Vec<(Range<usize>, Rgb)>| l@),
    {
        Highlighted { lines }
    }

    /// The colors of line `index`; none past the last line.
    pub fn line(&self, index: u32) -> (r: &[(Range<usize>, Rgb)])
        ensures
            r@ == if index < self.lines_v().len() { self.lines_v()[index as int] } else { Seq::empty() },
    {
        if (index as usize) < self.lines.len() {
            self.lines[index as usize].as_slice()
        } else {
            &[]
        }
    }
}

/// The byte offset where region `k` starts: the lengths of those before it.
pub open spec fn region_start(regions: Seq<(Rgb, usize)>, k: int) -> int
    decreases k,
{
    if k <= 0 || k > regions.len() {
        0
    } else {
        region_start(regions, k - 1) + regions[k - 1].1
    }
}

/// The color ranges of the first `k` regions, clipped to `line_len` bytes;
/// empty ranges are dropped and a range that continues the previous one in
/// the same color extends it.
pub open spec fn colors_upto(regions: Seq<(Rgb, usize)>, line_len: int, k: int) -> Seq<(Range<usize>, Rgb)>
    decreases k,
{
    if k <= 0 || k > regions.len() {
        Seq::empty()
    } else {
        let prev = colors_upto(regions, line_len, k - 1);
        let start = region_start(regions, k - 1);
        let full_end = start + regions[k - 1].1;
        let end = if full_end < line_len { full_end } else { line_len };
        let color = regions[k - 1].0;
        if start >= end {
            prev
        } else if prev.len() > 0 && prev.last().1 == color && prev.last().0.end == start {
            prev.drop_last().push((Range { start: prev.last().0.start, end: end as usize }, color))
        } else {
            prev.push((Range { start: start as usize, end: end as usize }, color))
        }
    }
}

/// The color ranges of one line from the highlighter's styled regions, each
/// given by its color and its length in bytes (the line's `\n` included).
pub fn to_colors(regions: &[(Rgb, usize)], line_len: usize) -> (out: Vec<(Range<usize>, Rgb)>)
    requires
        region_start(regions@, regions@.len() as int) <= usize::MAX,
    ensures
        out@ == colors_upto(regions@, line_len as int, regions@.len() as int),
{
    let mut out: Vec<(Range<usize>, Rgb)> = Vec::new();
    let mut offset: usize = 0;
    let mut k: usize = 0;
    proof {
        lemma_region_start_mono(regions@, 0, regions@.len() as int);
    }
    while k < regions.len()
        invariant
            k <= regions@.len(),
            offset == region_start(regions@, k as int),
            region_start(regions@, regions@.len() as int) <= usize::MAX,
            out@ == colors_upto(regions@, line_len as int, k as int),
        decreases regions@.len() - k,
    {
        proof {
            lemma_region_start_mono(regions@, k + 1, regions@.len() as int);
        }
        let (color, len) = regions[k];
        let start = offset;
        offset = offset + len;
        let end = if offset < line_len { offset } else { line_len };
        k += 1;
        if start >= end {
            continue;
        }
        let n = out.len();
        if n > 0 && out[n - 1].1 == color && out[n - 1].0.end == start {
            let last = out.pop().unwrap();
            out.push((Range { start: last.0.start, end }, color));
        } else {
            out.push((Range { start, end }, color));
        }
    }
    out
}

pub proof fn lemma_region_start_mono(regions: Seq<(Rgb, usize)>, j: int, k: int)
    requires
        0 <= j <= k <= regions.len(),
    ensures
        region_start(regions, j) <= region_start(regions, k),
    decreases k - j,
{
    if j < k {
        lemma_region_start_mono(regions, j, k - 1);
    }
}

/// The names of the themes that syntect bundles, in ascending byte order.
pub open spec fn bundled_themes() -> Seq<Seq<char>> {
    seq![
        "InspiredGitHub"@,
        "Solarized (dark)"@,
        "Solarized (light)"@,
        "base16-eighties.dark"@,
        "base16-mocha.dark"@,
        "base16-ocean.dark"@,
        "base16-ocean.light"@,
    ]
}

/// Calls `ThemeSet::load_defaults` and reads the keys of its `themes` map.
/// syntect documents those keys as the seven names of `bundled_themes`, and
/// the map is a `BTreeMap`, whose keys come out in ascending order.
#[verifier::external_body]
fn bundled_theme_names() -> (names: Vec<String>)
    ensures
        names@.len() == bundled_themes().len(),
        forall|i: int| 0 <= i < names@.len() ==> (#[trigger] names@[i])@ == bundled_themes()[i],
{
    ThemeSet::load_defaults().themes.keys().cloned().collect()
}

/// Whether `name` is one of the bundled theme names.
pub open spec fn is_bundled_theme(name: Seq<char>) -> bool {
    exists|j: int| 0 <= j < bundled_themes().len() && bundled_themes()[j] == name
}

/// The names of every theme: syntect's and the library's own.
pub open spec fn all_themes() -> Seq<Seq<char>> {
    bundled_themes() + seq!["tdv-dark"@, "tdv-light"@]
}

/// Whether `name` is one of `all_themes`.
pub open spec fn is_known_theme(name: Seq<char>) -> bool {
    exists|j: int| 0 <= j < all_themes().len() && all_themes()[j] == name
}

/// Whether some string of `names` reads `name`.
pub open spec fn names_hold(names: Seq<String>, name: Seq<char>) -> bool {
    exists|i: int| 0 <= i < names.len() && names[i]@ == name
}

/// Names rearranged from the list of all themes are those names.
proof fn lemma_same_names(before: Seq<String>, after: Seq<String>)
    requires
        after.to_multiset() == before.to_multiset(),
        before.len() == all_themes().len(),
        forall|i: int| 0 <= i < before.len() ==> (#[trigger] before[i])@ == all_themes()[i],
    ensures
        after.len() == all_themes().len(),
        forall|i: int| 0 <= i < after.len() ==> is_known_theme(#[trigger] after[i]@),
        forall|j: int| 0 <= j < all_themes().len() ==> names_hold(after, #[trigger] all_themes()[j]),
{
    broadcast use vstd::seq_lib::group_to_multiset_ensures;
    assert(after.len() == after.to_multiset().len());
    assert(before.len() == before.to_multiset().len());
    assert forall|i: int| 0 <= i < after.len() implies is_known_theme(#[trigger] after[i]@) by {
        assert(after.to_multiset().count(after[i]) > 0);
        assert(before.contains(after[i]));
        let j = choose|j: int| 0 <= j < before.len() && before[j] == after[i];
        assert(before[j]@ == all_themes()[j]);
        assert(all_themes()[j] == after[i]@);
    }
    assert forall|j: int| 0 <= j < all_themes().len() implies names_hold(after, #[trigger] all_themes()[j]) by {
        assert(before[j]@ == all_themes()[j]);
        assert(before.to_multiset().count(before[j]) > 0);
        assert(after.contains(before[j]));
        let i = choose|i: int| 0 <= i < after.len() && after[i] == before[j];
        assert(after[i]@ == all_themes()[j]);
    }
}

/// The names of every theme, syntect's bundled ones and `tdv-dark` and
/// `tdv-light`, sorted: each name once.
pub fn theme_names() -> (names: Vec<String>)
    ensures
        names@.len() == all_themes().len(),
        forall|i: int| 0 <= i < names@.len() ==> is_known_theme(#[trigger] names@[i]@),
        forall|j: int| 0 <= j < all_themes().len() ==> names_hold(names@, #[trigger] all_themes()[j]),
        forall|j: int, k: int| 0 <= j < k < names@.len() ==> !text_lt(#[trigger] names@[k]@, #[trigger] names@[j]@),
{
    let mut names = bundled_theme_names();
    names.push(String::from_str("tdv-dark"));
    names.push(String::from_str("tdv-light"));
    let ghost before = names@;
    proof {
        assert forall|i: int| 0 <= i < before.len() implies (#[trigger] before[i])@ == all_themes()[i] by {
            if i < bundled_themes().len() {
                assert(before[i] == names@[i]);
            }
        }
    }
    sort_strings(&mut names);
    proof {
        lemma_same_names(before, names@);
    }
    names
}

/// The name of the syntax that `SyntaxSet::find_syntax_by_extension` finds
/// for `ext` in syntect's bundled syntax set.
pub uninterp spec fn syntax_for_extension(ext: Seq<char>) -> Option<Seq<char>>;

/// The name of the syntax that `SyntaxSet::find_syntax_by_first_line` finds
/// in syntect's bundled syntax set for a first line with these bytes.
pub uninterp spec fn syntax_for_first_line(line: Seq<u8>) -> Option<Seq<char>>;

/// What a `HighlightLines` of the bundled syntax named `syntax` and the
/// bundled theme named `theme` gives for each of `lines` in turn: per line,
/// the foreground color and byte length of each styled region, or `None`
/// where it fails.
pub uninterp spec fn bundled_theme_regions(syntax: Seq<char>, theme: Seq<char>, lines: Seq<Seq<char>>) -> Seq<Option<Seq<(Rgb, usize)>>>;

/// The same for the theme that `ThemeSet::load_from_reader` reads from the
/// property list `theme`.
pub uninterp spec fn text_theme_regions(syntax: Seq<char>, theme: Seq<char>, lines: Seq<Seq<char>>) -> Seq<Option<Seq<(Rgb, usize)>>>;

pub open spec fn opt_name(r: Option<String>) -> Option<Seq<char>> {
    match r {
        Some(s) => Some(s@),
        None => None,
    }
}

pub open spec fn regions_view(r: Seq<Option<Vec<(Rgb, usize)>>>) -> Seq<Option<Seq<(Rgb, usize)>>> {
    r.map_values(|o: Option<Vec<(Rgb, usize)>>| match o {
        Some(v) => Some(v@),
        None => None,
    })
}

pub open spec fn strings_view(lines: Seq<String>) -> Seq<Seq<char>> {
    lines.map_values(|l: String| l@)
}

/// Loads syntect's bundled syntaxes and calls
/// `SyntaxSet::find_syntax_by_extension`; gives the name of the syntax found.
#[verifier::external_body]
fn syntax_by_extension(ext: &str) -> (r: Option<String>)
    ensures
        opt_name(r) == syntax_for_extension(ext@),
{
    SyntaxSet::load_defaults_newlines().find_syntax_by_extension(ext).map(|s| s.name.clone())
}

/// Loads syntect's bundled syntaxes and calls
/// `SyntaxSet::find_syntax_by_first_line`; gives the name of the syntax found.
#[verifier::external_body]
fn syntax_by_first_line(line: &str) -> (r: Option<String>)
    ensures
        opt_name(r) == syntax_for_first_line(line.spec_bytes()),
{
    SyntaxSet::load_defaults_newlines().find_syntax_by_first_line(line).map(|s| s.name.clone())
}

/// Loads syntect's bundled syntaxes and themes, finds the syntax by name
/// and the theme in the `themes` map, and feeds `lines` one after another
/// to `HighlightLines::highlight_line`. The result is named by
/// `bundled_theme_regions`; how many entries it has is not stated.
#[verifier::external_body]
fn regions_in_bundled_theme(syntax: &str, theme: &str, lines: &Vec<String>) -> (r: Vec<Option<Vec<(Rgb, usize)>>>)
    ensures
        regions_view(r@) == bundled_theme_regions(syntax@, theme@, strings_view(lines@)),
{
    let set = SyntaxSet::load_defaults_newlines();
    match (set.find_syntax_by_name(syntax), ThemeSet::load_defaults().themes.remove(theme)) {
        (Some(s), Some(t)) => {
            let mut h = HighlightLines::new(s, &t);
            lines.iter().map(|l| h.highlight_line(l, &set).ok().map(|rs| rs.iter().map(|(st, p)| (Rgb::new(st.foreground.r, st.foreground.g, st.foreground.b), p.len())).collect())).collect()
        },
        _ => Vec::new(),
    }
}

/// Loads syntect's bundled syntaxes, finds the syntax by name, reads a
/// theme from the property list `theme` with `ThemeSet::load_from_reader`,
/// and feeds `lines` one after another to `HighlightLines::highlight_line`.
/// The result is named by `text_theme_regions`; how many entries it has is
/// not stated.
#[verifier::external_body]
fn regions_in_theme_text(syntax: &str, theme: &str, lines: &Vec<String>) -> (r: Vec<Option<Vec<(Rgb, usize)>>>)
    ensures
        regions_view(r@) == text_theme_regions(syntax@, theme@, strings_view(lines@)),
{
    let set = SyntaxSet::load_defaults_newlines();
    match (set.find_syntax_by_name(syntax), ThemeSet::load_from_reader(&mut std::io::Cursor::new(theme.as_bytes()))) {
        (Some(s), Ok(t)) => {
            let mut h = HighlightLines::new(s, &t);
            lines.iter().map(|l| h.highlight_line(l, &set).ok().map(|rs| rs.iter().map(|(st, p)| (Rgb::new(st.foreground.r, st.foreground.g, st.foreground.b), p.len())).collect())).collect()
        },
        _ => Vec::new(),
    }
}

/// `tdv-dark`: One Dark's colors as a TextMate theme, with rules for the
/// scopes that syntect gives (generic arguments and primitive types among
/// them).
pub const TDV_DARK: &'static str = "<?xml version=\"1.0\" encoding=\"UTF-8\"?>\n\
<plist version=\"1.0\"><dict>\n\
<key>name</key><string>tdv-dark</string>\n\
<key>settings</key><array>\n\
<dict><key>settings</key><dict><key>foreground</key><string>#ABB2BF</string><key>background</key><string>#282C34</string></dict></dict>\n\
<dict><key>scope</key><string>comment, punctuation.definition.comment</string><key>settings</key><dict><key>foreground</key><string>#5C6370</string><key>fontStyle</key><string>italic</string></dict></dict>\n\
<dict><key>scope</key><string>keyword, storage.type, storage.modifier</string><key>settings</key><dict><key>foreground</key><string>#C678DD</string></dict></dict>\n\
<dict><key>scope</key><string>keyword.operator</string><key>settings</key><dict><key>foreground</key><string>#56B6C2</string></dict></dict>\n\
<dict><key>scope</key><string>string, constant.character</string><key>settings</key><dict><key>foreground</key><string>#98C379</string></dict></dict>\n\
<dict><key>scope</key><string>constant.numeric, constant.language, constant.other, support.constant</string><key>settings</key><dict><key>foreground</key><string>#D19A66</string></dict></dict>\n\
<dict><key>scope</key><string>entity.name.function, support.function, meta.function-call</string><key>settings</key><dict><key>foreground</key><string>#61AFEF</string></dict></dict>\n\
<dict><key>scope</key><string>entity.name.type, entity.name.class, entity.name.struct, entity.name.enum, entity.name.trait, entity.name.namespace, support.type, support.class, storage.type.numeric, meta.generic</string><key>settings</key><dict><key>foreground</key><string>#E5C07B</string></dict></dict>\n\
<dict><key>scope</key><string>variable.parameter, variable.language, variable.other.member, entity.name.tag</string><key>settings</key><dict><key>foreground</key><string>#E06C75</string></dict></dict>\n\
<dict><key>scope</key><string>entity.other.attribute-name, meta.attribute, meta.annotation</string><key>settings</key><dict><key>foreground</key><string>#D19A66</string></dict></dict>\n\
<dict><key>scope</key><string>constant.character.escape, string.regexp</string><key>settings</key><dict><key>foreground</key><string>#56B6C2</string></dict></dict>\n\
</array></dict></plist>\n\
";

/// `tdv-light`: the same rules in One Light's colors.
pub const TDV_LIGHT: &'static str = "<?xml version=\"1.0\" encoding=\"UTF-8\"?>\n\
<plist version=\"1.0\"><dict>\n\
<key>name</key><string>tdv-light</string>\n\
<key>settings</key><array>\n\
<dict><key>settings</key><dict><key>foreground</key><string>#383A42</string><key>background</key><string>#FAFAFA</string></dict></dict>\n\
<dict><key>scope</key><string>comment, punctuation.definition.comment</string><key>settings</key><dict><key>foreground</key><string>#A0A1A7</string><key>fontStyle</key><string>italic</string></dict></dict>\n\
<dict><key>scope</key><string>keyword, storage.type, storage.modifier</string><key>settings</key><dict><key>foreground</key><string>#A626A4</string></dict></dict>\n\
<dict><key>scope</key><string>keyword.operator</string><key>settings</key><dict><key>foreground</key><string>#0184BC</string></dict></dict>\n\
<dict><key>scope</key><string>string, constant.character</string><key>settings</key><dict><key>foreground</key><string>#50A14F</string></dict></dict>\n\
<dict><key>scope</key><string>constant.numeric, constant.language, constant.other, support.constant</string><key>settings</key><dict><key>foreground</key><string>#986801</string></dict></dict>\n\
<dict><key>scope</key><string>entity.name.function, support.function, meta.function-call</string><key>settings</key><dict><key>foreground</key><string>#4078F2</string></dict></dict>\n\
<dict><key>scope</key><string>entity.name.type, entity.name.class, entity.name.struct, entity.name.enum, entity.name.trait, entity.name.namespace, support.type, support.class, storage.type.numeric, meta.generic</string><key>settings</key><dict><key>foreground</key><string>#C18401</string></dict></dict>\n\
<dict><key>scope</key><string>variable.parameter, variable.language, variable.other.member, entity.name.tag</string><key>settings</key><dict><key>foreground</key><string>#E45649</string></dict></dict>\n\
<dict><key>scope</key><string>entity.other.attribute-name, meta.attribute, meta.annotation</string><key>settings</key><dict><key>foreground</key><string>#986801</string></dict></dict>\n\
<dict><key>scope</key><string>constant.character.escape, string.regexp</string><key>settings</key><dict><key>foreground</key><string>#0184BC</string></dict></dict>\n\
</array></dict></plist>\n\
";


/// The extension of the last component of `p`: what follows its last dot,
/// unless that dot starts the name.
pub open spec fn extension_of(p: Seq<char>) -> Option<Seq<char>> {
    let n = name_of(p);
    if exists|i: int| 0 < i < n.len() && n[i] == '.' {
        let d = choose|i: int| 0 < i < n.len() && n[i] == '.' && forall|j: int| i < j < n.len() ==> n[j] != '.';
        Some(n.skip(d + 1))
    } else {
        None
    }
}

/// The extension of `path`, as `Path::extension` reads it.
pub fn file_extension(path: &str) -> (r: Option<String>)
    ensures
        match r {
            Some(e) => extension_of(path@) == Some(e@),
            None => extension_of(path@) is None,
        },
{
    let name = crate::paths::file_name(path);
    let cs = chars_of(name.as_str());
    let mut k: usize = cs.len();
    while k > 0 && cs[k - 1] != '.'
        invariant
            k <= cs@.len(),
            cs@ == name_of(path@),
            forall|j: int| k <= j < cs@.len() ==> cs@[j] != '.',
        decreases k,
    {
        k -= 1;
    }
    if k <= 1 {
        proof {
            let n = cs@;
            if exists|i: int| 0 < i < n.len() && n[i] == '.' {
                let i = choose|i: int| 0 < i < n.len() && n[i] == '.';
                assert(i >= k);
                assert(false);
            }
        }
        return None;
    }
    let mut v: Vec<char> = Vec::new();
    let mut j: usize = k;
    while j < cs.len()
        invariant
            k <= j <= cs@.len(),
            v@ == cs@.subrange(k as int, j as int),
        decreases cs@.len() - j,
    {
        v.push(cs[j]);
        j += 1;
        assert(v@ =~= cs@.subrange(k as int, j as int));
    }
    proof {
        let n = cs@;
        let dot = (k - 1) as int;
        assert(0 < dot < n.len() && n[dot] == '.');
        let d = choose|i: int| 0 < i < n.len() && n[i] == '.' && forall|j: int| i < j < n.len() ==> n[j] != '.';
        assert(0 < dot < n.len() && n[dot] == '.' && forall|j: int| dot < j < n.len() ==> n[j] != '.');
        assert(d == dot) by {
            if d < dot {
                assert(n[dot] != '.');
            } else if d > dot {
                assert(n[d] != '.');
            }
        }
        assert(v@ =~= n.skip(d + 1));
    }
    Some(string_of(v.as_slice()))
}

/// The syntax of a file, as a syntax name: by its extension, else by its
/// whole file name taken as an extension, else by its first line.
pub open spec fn syntax_of(path: Seq<char>, first: Option<Seq<u8>>) -> Option<Seq<char>> {
    let by_ext = match extension_of(path) {
        Some(e) => syntax_for_extension(e),
        None => None,
    };
    let by_name = if name_of(path).len() > 0 { syntax_for_extension(name_of(path)) } else { None };
    if by_ext is Some {
        by_ext
    } else if by_name is Some {
        by_name
    } else {
        match first {
            Some(l) => syntax_for_first_line(l),
            None => None,
        }
    }
}

/// Whether neither the extension of `path` nor its whole file name names a syntax.
pub open spec fn no_name_syntax(path: Seq<char>) -> bool {
    &&& (extension_of(path) matches Some(e) ==> syntax_for_extension(e) is None)
    &&& (name_of(path).len() > 0 ==> syntax_for_extension(name_of(path)) is None)
}

/// When neither the extension nor the file name gives a syntax, the syntax
/// is the one found by the first line, and there is none without a first line.
pub proof fn lemma_syntax_by_first_line(path: Seq<char>, first: Option<Seq<u8>>)
    requires
        no_name_syntax(path),
    ensures
        first matches Some(l) ==> syntax_of(path, first) == syntax_for_first_line(l),
        first is None ==> syntax_of(path, first) is None,
{
}

/// The extension decides first: a syntax found by it is the syntax, whatever
/// the file name and the first line; when it finds none, a syntax found by
/// the whole file name is the syntax, whatever the first line.
pub proof fn lemma_syntax_by_name(path: Seq<char>, first: Option<Seq<u8>>)
    ensures
        extension_of(path) is Some && syntax_for_extension(extension_of(path)->0) is Some
            ==> syntax_of(path, first) == syntax_for_extension(extension_of(path)->0),
        (extension_of(path) matches Some(e) ==> syntax_for_extension(e) is None) && name_of(path).len() > 0
            && syntax_for_extension(name_of(path)) is Some ==> syntax_of(path, first) == syntax_for_extension(name_of(path)),
{
}

/// The first line of a file, when it is valid UTF-8.
pub open spec fn first_text(lines: Seq<Seq<u8>>) -> Option<Seq<u8>> {
    if valid_utf8(strip_cr(lines[0])) { Some(strip_cr(lines[0])) } else { None }
}

fn find_syntax(path: &str, first_line: Option<&str>) -> (r: Option<String>)
    ensures
        opt_name(r) == syntax_of(path@, match first_line {
            Some(l) => Some(l.spec_bytes()),
            None => None,
        }),
        no_name_syntax(path@) ==> opt_name(r) == match first_line {
            Some(l) => syntax_for_first_line(l.spec_bytes()),
            None => None,
        },
{
    let by_ext = match file_extension(path) {
        Some(ext) => syntax_by_extension(ext.as_str()),
        None => None,
    };
    if by_ext.is_some() {
        return by_ext;
    }
    let name = crate::paths::file_name(path);
    if !name.as_str().is_empty() {
        let by_name = syntax_by_extension(name.as_str());
        if by_name.is_some() {
            return by_name;
        }
    }
    match first_line {
        Some(line) => syntax_by_first_line(line),
        None => None,
    }
}

/// The total length of the regions, when it fits in `usize`.
fn regions_len(regions: &Vec<(Rgb, usize)>) -> (r: Option<usize>)
    ensures
        match r {
            Some(n) => n == region_start(regions@, regions@.len() as int),
            None => region_start(regions@, regions@.len() as int) > usize::MAX,
        },
{
    let mut total: usize = 0;
    let mut k: usize = 0;
    while k < regions.len()
        invariant
            k <= regions@.len(),
            total == region_start(regions@, k as int),
        decreases regions@.len() - k,
    {
        if regions[k].1 > usize::MAX - total {
            proof {
                lemma_region_start_mono(regions@, k + 1, regions@.len() as int);
            }
            return None;
        }
        total = total + regions[k].1;
        k += 1;
    }
    Some(total)
}

/// Whether `name` is one of `tdv-dark` and `tdv-light`, and which.
pub open spec fn own_choice(name: Seq<char>) -> Option<bool> {
    if name == "tdv-dark"@ {
        Some(true)
    } else if name == "tdv-light"@ {
        Some(false)
    } else {
        None
    }
}

/// The regions of `fed` in the syntax named `syntax` under the theme named
/// `theme`: one of the library's own, else a bundled one, else the default.
pub open spec fn regions_for(syntax: Seq<char>, theme: Seq<char>, fed: Seq<Seq<char>>) -> Seq<Option<Seq<(Rgb, usize)>>> {
    match own_choice(theme) {
        Some(dark) => text_theme_regions(syntax, if dark { TDV_DARK@ } else { TDV_LIGHT@ }, fed),
        None => bundled_theme_regions(syntax, if is_bundled_theme(theme) { theme } else { DEFAULT_THEME@ }, fed),
    }
}

/// The lines before line `k` that the highlighter is given: each valid
/// UTF-8 line (without a carriage return) with a newline after it.
pub open spec fn fed_lines(lines: Seq<Seq<u8>>, k: int) -> Seq<Seq<char>>
    decreases k,
{
    if k <= 0 || k > lines.len() {
        Seq::empty()
    } else {
        let prev = fed_lines(lines, k - 1);
        let l = strip_cr(lines[k - 1]);
        if valid_utf8(l) { prev.push(decode_utf8(l).push('\n')) } else { prev }
    }
}

/// Whether the highlighter gave the `j`-th fed line regions whose lengths add up.
pub open spec fn region_ok(regions: Seq<Option<Seq<(Rgb, usize)>>>, j: int) -> bool {
    &&& 0 <= j < regions.len()
    &&& regions[j] matches Some(rs)
    &&& region_start(rs, rs.len() as int) <= usize::MAX
}

/// Whether the highlighter did not fail on any of the first `j` fed lines.
pub open spec fn ok_before(regions: Seq<Option<Seq<(Rgb, usize)>>>, j: int) -> bool {
    forall|t: int| 0 <= t < j ==> #[trigger] region_ok(regions, t)
}

/// The colors of line `k`: none for a line that is not valid UTF-8 or that
/// comes at or after the first failure, else its regions as color ranges.
pub open spec fn line_colors(lines: Seq<Seq<u8>>, regions: Seq<Option<Seq<(Rgb, usize)>>>, k: int) -> Seq<(Range<usize>, Rgb)> {
    let l = strip_cr(lines[k]);
    let j = fed_lines(lines, k).len() as int;
    if valid_utf8(l) && ok_before(regions, j + 1) {
        let rs = regions[j]->0;
        colors_upto(rs, l.len() as int, rs.len() as int)
    } else {
        Seq::empty()
    }
}

/// Whether `name` is one of the bundled theme names.
fn bundled_name(name: &String) -> (r: bool)
    ensures
        r == is_bundled_theme(name@),
{
    let names = bundled_theme_names();
    let mut i: usize = 0;
    while i < names.len()
        invariant
            i <= names@.len(),
            names@.len() == bundled_themes().len(),
            forall|k: int| 0 <= k < names@.len() ==> (#[trigger] names@[k])@ == bundled_themes()[k],
            forall|k: int| 0 <= k < i ==> bundled_themes()[k] != name@,
        decreases names@.len() - i,
    {
        if names[i] == *name {
            assert(names@[i as int]@ == bundled_themes()[i as int]);
            return true;
        }
        i += 1;
    }
    false
}

/// Colors the first `upto` lines of a file. Nothing is colored when the
/// file is empty, longer than `max_lines`, or of no syntax that syntect
/// knows. The theme is `theme_name` when the library or syntect has it,
/// else the default. Each valid UTF-8 line is fed to the highlighter in
/// turn; a line that is not valid UTF-8 gets no colors and is not fed, and
/// once the highlighter fails the lines left get none either.
pub fn highlight(table: &LineTable, path: &str, theme_name: &str, max_lines: usize, upto: usize) -> (r: Option<Highlighted>)
    ensures
        r is Some <==> (table.lines().len() > 0 && table.lines().len() <= max_lines
            && syntax_of(path@, first_text(table.lines())) is Some),
        r matches Some(h) ==> {
            let n = table.lines().len() as int;
            let end = if upto < n { upto as int } else { n };
            let regions = regions_for(syntax_of(path@, first_text(table.lines()))->0, theme_name@, fed_lines(table.lines(), end));
            &&& h.lines_v().len() == end
            &&& forall|k: int| 0 <= k < end ==> #[trigger] h.lines_v()[k] == line_colors(table.lines(), regions, k)
        },
        table.lines().len() > 0 && no_name_syntax(path@) && valid_utf8(strip_cr(table.lines()[0])) ==> {
            &&& (r is Some <==> table.lines().len() <= max_lines
                && syntax_for_first_line(strip_cr(table.lines()[0])) is Some)
            &&& (r matches Some(h) ==> forall|k: int| 0 <= k < h.lines_v().len() ==> #[trigger] h.lines_v()[k]
                == line_colors(table.lines(), regions_for(syntax_for_first_line(strip_cr(table.lines()[0]))->0,
                theme_name@, fed_lines(table.lines(), h.lines_v().len() as int)), k))
        },
{
    if table.is_empty() || table.len() > max_lines {
        return None;
    }
    proof {
        if no_name_syntax(path@) {
            lemma_syntax_by_first_line(path@, first_text(table.lines()));
        }
    }
    let first_line = utf8_str(table.line_display(0));
    let syntax = match find_syntax(path, first_line) {
        Some(s) => s,
        None => {
            return None;
        },
    };
    let ghost lines = table.lines();
    let n = table.len();
    let end: usize = if upto < n { upto } else { n };
    let mut fed: Vec<String> = Vec::new();
    let mut i: usize = 0;
    while i < end
        invariant
            i <= end,
            end <= lines.len(),
            n == lines.len(),
            n <= u32::MAX,
            lines == table.lines(),
            strings_view(fed@) == fed_lines(lines, i as int),
        decreases end - i,
    {
        let l = table.line_display(i as u32);
        match utf8_str(l) {
            Some(text) => {
                let mut v = String::from_str(text);
                push_char(&mut v, '\n');
                proof {
                    broadcast use vstd::utf8::encode_utf8_decode_utf8;
                    assert(text.spec_bytes() == vstd::utf8::encode_utf8(text@));
                    assert(v@ == decode_utf8(l@).push('\n'));
                }
                fed.push(v);
            },
            None => {},
        }
        proof {
            assert(strings_view(fed@) =~= fed_lines(lines, i + 1));
        }
        i += 1;
    }
    let theme = String::from_str(theme_name);
    let regions = if theme == String::from_str("tdv-dark") {
        regions_in_theme_text(syntax.as_str(), TDV_DARK, &fed)
    } else if theme == String::from_str("tdv-light") {
        regions_in_theme_text(syntax.as_str(), TDV_LIGHT, &fed)
    } else if bundled_name(&theme) {
        regions_in_bundled_theme(syntax.as_str(), theme_name, &fed)
    } else {
        regions_in_bundled_theme(syntax.as_str(), DEFAULT_THEME, &fed)
    };
    let ghost rv = regions_view(regions@);
    proof {
        reveal_strlit("tdv-dark");
        reveal_strlit("tdv-light");
        assert(rv == regions_for(syntax@, theme_name@, fed_lines(lines, end as int)));
    }
    let mut out: Vec<Vec<(Range<usize>, Rgb)>> = Vec::new();
    let mut ok = true;
    let mut j: usize = 0;
    i = 0;
    while i < end
        invariant
            i <= end,
            end <= lines.len(),
            n == lines.len(),
            n <= u32::MAX,
            lines == table.lines(),
            rv == regions_view(regions@),
            j == fed_lines(lines, i as int).len(),
            j <= i,
            ok == ok_before(rv, j as int),
            out@.len() == i,
            forall|k: int| 0 <= k < i ==> (#[trigger] out@[k])@ == line_colors(lines, rv, k),
        decreases end - i,
    {
        let l = table.line_display(i as u32);
        let mut colors: Vec<(Range<usize>, Rgb)> = Vec::new();
        let ghost was_ok = ok;
        let ghost j0 = j as int;
        let ll = l.len();
        proof {
            assert(l@ == strip_cr(lines[i as int]));
            assert(ll == l@.len());
        }
        match utf8_str(l) {
            Some(text) => {
                if ok && j < regions.len() {
                    match &regions[j] {
                        Some(rs) => match regions_len(rs) {
                            Some(_) => {
                                let tl = text.len();
                                let sl = rs.as_slice();
                                colors = to_colors(sl, tl);
                                proof {
                                    assert(sl@ == rs@);
                                    assert(text.spec_bytes() == l@);
                                    assert(l@.len() <= usize::MAX);
                                    assert(tl == text.spec_bytes().len() as usize);
                                    assert(tl == l@.len());
                                    assert(rv[j as int] == Some(rs@));
                                    assert(text.spec_bytes() == l@);
                                    assert(region_ok(rv, j0));
                                    assert(ok_before(rv, j0 + 1)) by {
                                        assert forall|t: int| 0 <= t < j0 + 1 implies #[trigger] region_ok(rv, t) by {
                                            if t < j0 {
                                                assert(region_ok(rv, t));
                                            }
                                        }
                                    }
                                    assert(valid_utf8(strip_cr(lines[i as int])));
                                    assert(fed_lines(lines, i as int).len() == j0);
                                    assert(rv[j0]->0 == rs@);
                                    assert(colors@ == colors_upto(rs@, l@.len() as int, rs@.len() as int));
                                    assert(colors@ == line_colors(lines, rv, i as int));
                                }
                            },
                            None => {
                                ok = false;
                            },
                        },
                        None => {
                            ok = false;
                        },
                    }
                } else {
                    ok = false;
                }
                proof {
                    assert(ok == ok_before(rv, j + 1)) by {
                        if was_ok && !ok {
                            assert(!region_ok(rv, j as int));
                        }
                        if !was_ok {
                            let t = choose|t: int| 0 <= t < j && !region_ok(rv, t);
                            assert(!region_ok(rv, t));
                        }
                    }
                }
                j += 1;
            },
            None => {},
        }
        proof {
            assert(fed_lines(lines, i as int).len() == j0);
            if valid_utf8(l@) && !ok {
                assert(!ok_before(rv, j0 + 1));
                assert(colors@ == Seq::<(Range<usize>, Rgb)>::empty());
            }
            assert(colors@ == line_colors(lines, rv, i as int));
        }
        out.push(colors);
        proof {
            assert(out@[i as int]@ == line_colors(lines, rv, i as int));
        }
        i += 1;
    }
    Some(Highlighted::new(out))
}

} // verus!
