use tdv::inline::{inline_diff, tokenize};
use tdv::similarity::{is_similar, similarity_counts};

/// The bigram Dice coefficient of two lines, from the library's counts.
fn similarity(a: &[u8], b: &[u8]) -> f32 {
    if a == b {
        return 1.0;
    }
    if a.is_empty() || b.is_empty() {
        return 0.0;
    }
    let (common, total) = similarity_counts(a, b);
    2.0 * common as f32 / total as f32
}

#[test]
fn tokenize_splits_words_whitespace_and_symbols() {
    let t = tokenize("let x = 1;");
    let got: Vec<&str> = t.iter().map(|r| &"let x = 1;"[r.clone()]).collect();
    assert_eq!(got, vec!["let", " ", "x", " ", "=", " ", "1", ";"]);
}

#[test]
fn tokenize_splits_cjk_per_char() {
    let s = "日本語コメント";
    let t = tokenize(s);
    assert_eq!(t.len(), s.chars().count());
}

#[test]
fn inline_diff_marks_only_changed_token() {
    let spans = inline_diff("let x = 1;", "let x = 2;");
    assert_eq!(spans.old.len(), 1);
    assert_eq!(&"let x = 1;"[spans.old[0].clone()], "1");
    assert_eq!(&"let x = 2;"[spans.new[0].clone()], "2");
}

#[test]
fn inline_diff_on_identical_lines_is_empty() {
    let spans = inline_diff("same", "same");
    assert!(spans.old.is_empty() && spans.new.is_empty());
}

#[test]
fn similarity_bounds() {
    assert_eq!(similarity(b"abc", b"abc"), 1.0);
    assert_eq!(similarity(b"abc", b""), 0.0);
    assert!(similarity(b"let x = 1;", b"let x = 2;") > 0.5);
    assert!(similarity(b"fn main() {}", b"struct Foo;") < 0.35);
    assert!(similarity(b"b", b"b1") >= 0.35);
    assert!(similarity(b"5", b"X") < 0.35);
}

#[test]
fn similarity_counts_use_sentinels() {
    // "ab" gives the bigrams ^a, ab, b$; "ac" gives ^a, ac, c$.
    assert_eq!(similarity_counts(b"ab", b"ac"), (1, 6));
}

#[test]
fn pairing_follows_the_threshold() {
    assert!(is_similar(b"let x = 1;", b"let x = 2;"));
    assert!(!is_similar(b"fn main() {}", b"struct Foo;"));
    assert!(is_similar(b"same", b"same"));
    assert!(!is_similar(b"", b"x"));
}

#[test]
fn inline_diff_of_whole_replacement_covers_the_words() {
    let spans = inline_diff("alpha beta", "alpha gamma");
    assert_eq!(spans.old.len(), 1);
    assert_eq!(&"alpha beta"[spans.old[0].clone()], "beta");
    assert_eq!(&"alpha gamma"[spans.new[0].clone()], "gamma");
}

#[test]
fn tokens_cover_the_line_without_gaps() {
    let s = "αβ  x=日本,\tend";
    let t = tokenize(s);
    assert_eq!(t.first().map(|r| r.start), Some(0));
    assert_eq!(t.last().map(|r| r.end), Some(s.len()));
    for w in t.windows(2) {
        assert_eq!(w[0].end, w[1].start);
    }
    assert!(t.iter().all(|r| r.start < r.end));
    assert!(tokenize("").is_empty());
}

#[test]
fn tokens_are_longest_runs_or_single_characters() {
    let s = "ab_1  ==日本 x";
    let parts: Vec<&str> = tokenize(s).into_iter().map(|r| &s[r]).collect();
    assert_eq!(parts, vec!["ab_1", "  ", "=", "=", "日", "本", " ", "x"]);
}

#[test]
fn white_space_is_what_std_says_for_every_char() {
    for u in 0u32..=0x10ffff {
        if let Some(c) = char::from_u32(u) {
            assert_eq!(tdv::strs::char_is_whitespace(c), c.is_whitespace(), "U+{u:04X}");
        }
    }
}
