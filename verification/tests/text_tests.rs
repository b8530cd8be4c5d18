use tdv::text::{display_width, fit_width, gutter_width, pad_to, render_line, TextOpts};

fn opts() -> TextOpts {
    TextOpts::default()
}

fn joined(segs: &[(String, bool)]) -> String {
    segs.iter().map(|(t, _)| t.as_str()).collect()
}

#[test]
fn full_width_chars_count_as_two_columns() {
    assert_eq!(display_width("日本語", opts()), 6);
    assert_eq!(display_width("abc", opts()), 3);
    assert_eq!(display_width("あa", opts()), 3);
}

#[test]
fn tabs_expand_to_next_tab_stop() {
    assert_eq!(display_width("\t", opts()), 4);
    assert_eq!(display_width("ab\t", opts()), 4);
    assert_eq!(display_width("abcd\t", opts()), 8);
}

#[test]
fn render_clips_to_the_window() {
    let segs = render_line("abcdefgh", &[], opts(), 2, 3);
    assert_eq!(joined(&segs), "cde");
}

#[test]
fn render_pads_when_wide_char_straddles_boundary() {
    let segs = render_line("あい", &[], opts(), 0, 3);
    assert_eq!(joined(&segs), "あ ");
}

#[test]
fn render_marks_highlight_ranges() {
    let ranges = vec![8..9];
    let segs = render_line("let x = 1;", &ranges, opts(), 0, 20);
    let hi: Vec<&str> = segs.iter().filter(|(_, h)| *h).map(|(t, _)| t.as_str()).collect();
    assert_eq!(hi, vec!["1"]);
}

#[test]
fn render_visualizes_control_chars() {
    let segs = render_line("a\u{7}b", &[], opts(), 0, 10);
    assert_eq!(joined(&segs), "a·b");
}

#[test]
fn fit_width_truncates_with_ellipsis() {
    assert_eq!(fit_width("abcdef", 4, opts()), "abc…");
    assert_eq!(fit_width("abc", 4, opts()), "abc");
    assert_eq!(fit_width("日本語", 4, opts()), "日…");
}

#[test]
fn pad_to_uses_display_width() {
    assert_eq!(pad_to("あ", 4, opts()), "あ  ");
    assert_eq!(display_width(&pad_to("あ", 4, opts()), opts()), 4);
}

#[test]
fn ambiguous_characters_follow_the_setting() {
    let wide = TextOpts { tab_width: 4, ambiguous_wide: true };
    assert_eq!(display_width("\u{a1}", opts()), 1);
    assert_eq!(display_width("\u{a1}", wide), 2);
}

#[test]
fn render_skips_a_wide_char_cut_on_the_left() {
    let segs = render_line("あい", &[], opts(), 1, 3);
    assert_eq!(joined(&segs), " い");
}

#[test]
fn gutter_fits_the_largest_line_number() {
    assert_eq!(gutter_width(0), 3);
    assert_eq!(gutter_width(99), 3);
    assert_eq!(gutter_width(1000), 4);
    assert_eq!(gutter_width(12345), 5);
}

#[test]
fn fit_width_of_zero_is_empty() {
    assert_eq!(fit_width("abc", 0, opts()), "");
}

#[test]
fn short_text_is_measured_whatever_the_tab_width() {
    let opts = TextOpts { tab_width: usize::MAX / 2 + 1, ambiguous_wide: false };
    assert_eq!(tdv::text::checked_width("ab", opts), Some(2));
    assert_eq!(tdv::text::display_width("ab", opts), 2);
    assert_eq!(tdv::text::checked_width("\t", opts), Some(usize::MAX / 2 + 1));
    assert_eq!(tdv::text::checked_width("\t\t", opts), None);
}
