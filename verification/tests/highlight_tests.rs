use tdv::highlight::{theme_names, to_colors, Highlighted, Rgb, DEFAULT_THEME};

#[test]
fn default_theme_exists() {
    assert!(theme_names().iter().any(|n| n == DEFAULT_THEME));
}

#[test]
fn theme_names_are_the_bundled_ones_and_the_own_two_in_order() {
    let expected = [
        "InspiredGitHub",
        "Solarized (dark)",
        "Solarized (light)",
        "base16-eighties.dark",
        "base16-mocha.dark",
        "base16-ocean.dark",
        "base16-ocean.light",
        "tdv-dark",
        "tdv-light",
    ];
    assert_eq!(theme_names(), expected.iter().map(|s| s.to_string()).collect::<Vec<_>>());
}

#[test]
fn theme_names_are_sorted() {
    let names = theme_names();
    assert!(!names.is_empty());
    for w in names.windows(2) {
        assert!(w[0] <= w[1], "{:?}", w);
    }
}

#[test]
fn colors_merge_and_stay_inside_the_line() {
    let red = Rgb::new(255, 0, 0);
    let blue = Rgb::new(0, 0, 255);
    // Regions: 2 bytes red, 3 bytes red, 0 bytes blue, 4 bytes blue; the line has 7 bytes.
    let regions = vec![(red, 2), (red, 3), (blue, 0), (blue, 4)];
    let colors = to_colors(&regions, 7);
    assert_eq!(colors, vec![(0..5, red), (5..7, blue)]);
}

#[test]
fn lines_past_the_end_have_no_colors() {
    let h = Highlighted::new(vec![vec![(0..1, Rgb::new(1, 2, 3))]]);
    assert_eq!(h.line(0).len(), 1);
    assert!(h.line(5).is_empty());
}

use syntect::parsing::SyntaxSet;
use tdv::highlight::{file_extension, highlight};
use tdv::lines::LineTable;

fn table(s: &str) -> LineTable {
    LineTable::new(s.as_bytes().to_vec())
}

fn color(t: &LineTable, path: &str, max_lines: usize) -> Option<Highlighted> {
    highlight(t, path, DEFAULT_THEME, max_lines, usize::MAX)
}

#[test]
fn rust_source_gets_colors() {
    let t = table("fn main() {\n    let x = 1;\n}\n");
    let h = color(&t, "main.rs", 1000).expect("colored");
    assert!(!h.line(0).is_empty());
    let colors: Vec<Rgb> = h.line(0).iter().map(|(_, c)| *c).collect();
    assert!(colors.len() > 1, "one color for the whole line: {colors:?}");
}

#[test]
fn ranges_stay_inside_the_line() {
    let t = table("fn main() {}\n");
    let h = color(&t, "main.rs", 1000).unwrap();
    let len = t.line_display(0).len();
    for (range, _) in h.line(0) {
        assert!(range.end <= len, "{range:?} goes past {len}");
    }
}

#[test]
fn unknown_extension_is_not_highlighted() {
    let t = table("なにか\n");
    assert!(color(&t, "a.unknown-ext", 1000).is_none());
}

#[test]
fn nameless_file_without_a_text_first_line_is_not_highlighted() {
    let t = LineTable::new(vec![0xff, 0xfe, b'\n']);
    assert!(color(&t, "", 1000).is_none());
}

#[test]
fn oversized_file_is_skipped() {
    let t = table(&"x\n".repeat(50));
    assert!(color(&t, "a.rs", 10).is_none());
}

#[test]
fn only_the_lines_asked_for_are_colored() {
    let body: String = (1..=10).map(|i| format!("fn f{i}() {{}}\n")).collect();
    let t = table(&body);
    let h = highlight(&t, "long.rs", "no-such-theme", 1000, 4).expect("the default theme is used");
    assert!(!h.line(3).is_empty());
    assert!(h.line(4).is_empty());
}

#[test]
fn extensions_follow_the_last_dot_of_the_name() {
    assert_eq!(file_extension("src/main.rs"), Some("rs".to_string()));
    assert_eq!(file_extension("a.tar.gz"), Some("gz".to_string()));
    assert_eq!(file_extension("dir.d/Makefile"), None);
    assert_eq!(file_extension(".bashrc"), None);
    assert_eq!(file_extension("foo."), Some(String::new()));
}

#[test]
fn bundled_syntax_names_are_unique() {
    let set = SyntaxSet::load_defaults_newlines();
    let mut names: Vec<&str> = set.syntaxes().iter().map(|s| s.name.as_str()).collect();
    let all = names.len();
    names.sort_unstable();
    names.dedup();
    assert_eq!(names.len(), all);
}

#[test]
fn own_dark_theme_colors_rust_keywords() {
    let t = table("fn main() {\n    let x = 1;\n}\n");
    let h = highlight(&t, "main.rs", "tdv-dark", 1000, usize::MAX).expect("colored");
    let keyword = Rgb::new(198, 120, 221);
    assert!(h.line(0).iter().any(|(r, c)| *c == keyword && r.start == 0), "{:?}", h.line(0));
    let light = highlight(&t, "main.rs", "tdv-light", 1000, usize::MAX).expect("colored");
    assert!(light.line(0).iter().any(|(_, c)| *c == Rgb::new(166, 38, 164)), "{:?}", light.line(0));
}

#[test]
fn own_themes_are_readable_theme_files() {
    for text in [tdv::highlight::TDV_DARK, tdv::highlight::TDV_LIGHT] {
        let theme = syntect::highlighting::ThemeSet::load_from_reader(&mut std::io::Cursor::new(text.as_bytes())).expect("a theme");
        assert_eq!(theme.scopes.len(), 10);
    }
}
