//! Settings: their defaults, the values a configuration file may give, how
//! they are checked and applied, and the command-line overrides on top.
use vstd::prelude::*;
use crate::highlight::{DEFAULT_THEME, all_themes, is_known_theme, names_hold, theme_names};
use crate::text::TextOpts;

verus! {

/// The colors that mark removed and added lines.
#[derive(Copy, Clone, PartialEq, Eq, Debug, Structural)]
pub enum Palette {
    RedGreen,
    BlueOrange,
}

pub open spec fn spec_parse_palette(name: Seq<char>) -> Option<Palette> {
    if name == "red-green"@ {
        Some(Palette::RedGreen)
    } else if name == "blue-orange"@ {
        Some(Palette::BlueOrange)
    } else {
        None
    }
}

impl Palette {
    /// `red-green` or `blue-orange`.
    pub fn parse(name: &str) -> (p: Option<Palette>)
        ensures
            p == spec_parse_palette(name@),
    {
        let given = name.to_owned();
        if given == "red-green".to_owned() {
            Some(Palette::RedGreen)
        } else if given == "blue-orange".to_owned() {
            Some(Palette::BlueOrange)
        } else {
            None
        }
    }
}

#[derive(Clone, Debug)]
pub struct Config {
    /// The tree pane's share of the width.
    pub tree_ratio: u16,
    pub show_status_bar: bool,
    pub text: TextOpts,
    /// Whether a diff opens with all lines shown rather than folded.
    pub full_file: bool,
    /// Lines kept around each change when a diff is folded.
    pub fold_context: usize,
    pub inline_words: bool,
    pub max_file_bytes: u64,
    pub syntax_highlight: bool,
    pub syntax_theme: String,
    /// Files with more lines than this are not colored.
    pub max_highlight_lines: usize,
    pub palette: Palette,
}

/// The settings when nothing is configured, but for the theme's name.
pub open spec fn default_values(c: Config) -> bool {
    &&& c.tree_ratio == 5
    &&& c.show_status_bar
    &&& c.text == (TextOpts { tab_width: 4, ambiguous_wide: false })
    &&& c.full_file
    &&& c.fold_context == 3
    &&& c.inline_words
    &&& c.max_file_bytes == 2 * 1024 * 1024
    &&& c.syntax_highlight
    &&& c.max_highlight_lines == 20_000
    &&& c.palette == Palette::RedGreen
}

impl Default for Config {
    fn default() -> (c: Config)
        ensures
            default_values(c),
            c.syntax_theme@ == DEFAULT_THEME@,
    {
        Config {
            tree_ratio: 5,
            show_status_bar: true,
            text: TextOpts::new_default(),
            full_file: true,
            fold_context: 3,
            inline_words: true,
            max_file_bytes: 2 * 1024 * 1024,
            syntax_highlight: true,
            syntax_theme: DEFAULT_THEME.to_owned(),
            max_highlight_lines: 20_000,
            palette: Palette::RedGreen,
        }
    }
}

/// The `[ui]` table of the configuration file.
#[derive(Clone, Debug, Default)]
pub struct UiSection {
    pub tree_ratio: Option<u16>,
    pub show_status_bar: Option<bool>,
    pub tab_width: Option<usize>,
    pub ambiguous_width_wide: Option<bool>,
    pub syntax_highlight: Option<bool>,
    pub max_highlight_lines: Option<usize>,
}

/// The `[diff]` table.
#[derive(Clone, Debug, Default)]
pub struct DiffSection {
    pub full_file: Option<bool>,
    pub fold_context: Option<usize>,
    pub inline_words: Option<bool>,
    pub max_file_bytes: Option<u64>,
}

/// The `[theme]` table.
#[derive(Clone, Debug, Default)]
pub struct ThemeSection {
    pub palette: Option<String>,
    pub syntax: Option<String>,
}

/// A configuration file as read, every value optional.
#[derive(Clone, Debug, Default)]
pub struct FileConfig {
    pub ui: Option<UiSection>,
    pub diff: Option<DiffSection>,
    pub theme: Option<ThemeSection>,
}

/// A value of the configuration file that is out of range or unknown.
#[derive(Clone, Debug, PartialEq, Eq)]
pub enum ConfigError {
    /// `ui.tree_ratio` outside 1 to 16.
    TreeRatio(u16),
    /// `ui.tab_width` of 0.
    TabWidth,
    /// `theme.palette` other than the two known names.
    Palette(String),
    /// `theme.syntax` naming no bundled theme.
    SyntaxTheme(String),
}

impl ConfigError {
    /// The setting at fault, as written in the file.
    pub fn key(&self) -> (k: &'static str)
        ensures
            k@ == match self {
                ConfigError::TreeRatio(_) => "ui.tree_ratio"@,
                ConfigError::TabWidth => "ui.tab_width"@,
                ConfigError::Palette(_) => "theme.palette"@,
                ConfigError::SyntaxTheme(_) => "theme.syntax"@,
            },
    {
        match self {
            ConfigError::TreeRatio(_) => "ui.tree_ratio",
            ConfigError::TabWidth => "ui.tab_width",
            ConfigError::Palette(_) => "theme.palette",
            ConfigError::SyntaxTheme(_) => "theme.syntax",
        }
    }
}

pub open spec fn ui_get<T>(f: FileConfig, get: spec_fn(UiSection) -> Option<T>) -> Option<T> {
    match f.ui {
        Some(u) => get(u),
        None => None,
    }
}

pub open spec fn diff_get<T>(f: FileConfig, get: spec_fn(DiffSection) -> Option<T>) -> Option<T> {
    match f.diff {
        Some(d) => get(d),
        None => None,
    }
}

pub open spec fn theme_get(f: FileConfig, get: spec_fn(ThemeSection) -> Option<String>) -> Option<String> {
    match f.theme {
        Some(t) => get(t),
        None => None,
    }
}

pub open spec fn or_default<T>(v: Option<T>, d: T) -> T {
    match v {
        Some(x) => x,
        None => d,
    }
}

pub open spec fn bad_ratio(f: FileConfig) -> bool {
    ui_get(f, |u: UiSection| u.tree_ratio) matches Some(v) && !(1 <= v <= 16)
}

pub open spec fn bad_tab(f: FileConfig) -> bool {
    ui_get(f, |u: UiSection| u.tab_width) == Some(0usize)
}

pub open spec fn bad_palette(f: FileConfig) -> bool {
    theme_get(f, |t: ThemeSection| t.palette) matches Some(p) && spec_parse_palette(p@) is None
}

pub open spec fn bad_syntax(f: FileConfig, known: Seq<Seq<char>>) -> bool {
    theme_get(f, |t: ThemeSection| t.syntax) matches Some(s) && !known.contains(s@)
}

/// `c` holds the file's values, and the defaults where the file is silent.
pub open spec fn applied(f: FileConfig, c: Config) -> bool {
    &&& c.tree_ratio == or_default(ui_get(f, |u: UiSection| u.tree_ratio), 5u16)
    &&& c.show_status_bar == or_default(ui_get(f, |u: UiSection| u.show_status_bar), true)
    &&& c.text.tab_width == or_default(ui_get(f, |u: UiSection| u.tab_width), 4usize)
    &&& c.text.ambiguous_wide == or_default(ui_get(f, |u: UiSection| u.ambiguous_width_wide), false)
    &&& c.syntax_highlight == or_default(ui_get(f, |u: UiSection| u.syntax_highlight), true)
    &&& c.max_highlight_lines == or_default(ui_get(f, |u: UiSection| u.max_highlight_lines), 20_000usize)
    &&& c.full_file == or_default(diff_get(f, |d: DiffSection| d.full_file), true)
    &&& c.fold_context == or_default(diff_get(f, |d: DiffSection| d.fold_context), 3usize)
    &&& c.inline_words == or_default(diff_get(f, |d: DiffSection| d.inline_words), true)
    &&& c.max_file_bytes == or_default(diff_get(f, |d: DiffSection| d.max_file_bytes), 2097152u64)
    &&& c.palette == match theme_get(f, |t: ThemeSection| t.palette) {
        Some(p) => or_default(spec_parse_palette(p@), Palette::RedGreen),
        None => Palette::RedGreen,
    }
    &&& c.syntax_theme@ == match theme_get(f, |t: ThemeSection| t.syntax) {
        Some(s) => s@,
        None => DEFAULT_THEME@,
    }
}

fn contains_name(known: &Vec<String>, name: &String) -> (b: bool)
    ensures
        b == known@.map_values(|s: String| s@).contains(name@),
{
    let mut i: usize = 0;
    while i < known.len()
        invariant
            i <= known@.len(),
            forall|j: int| 0 <= j < i ==> (#[trigger] known@[j])@ != name@,
        decreases known@.len() - i,
    {
        if known[i] == *name {
            assert(known@.map_values(|s: String| s@)[i as int] == name@);
            return true;
        }
        i += 1;
    }
    assert(!known@.map_values(|s: String| s@).contains(name@)) by {
        if known@.map_values(|s: String| s@).contains(name@) {
            let names = known@.map_values(|s: String| s@);
            let j = choose|j: int| 0 <= j < names.len() && #[trigger] names[j] == name@;
            assert(known@[j]@ == name@);
        }
    }
    false
}

impl FileConfig {
    /// Checks the file's values against their ranges and the known theme
    /// names, in the order of the file's tables, and applies them over the
    /// defaults.
    pub fn into_config_with(self, known: &Vec<String>) -> (r: Result<Config, ConfigError>)
        ensures
            bad_ratio(self) ==> r == Err::<Config, ConfigError>(ConfigError::TreeRatio(ui_get(self, |u: UiSection| u.tree_ratio)->0)),
            !bad_ratio(self) && bad_tab(self) ==> r == Err::<Config, ConfigError>(ConfigError::TabWidth),
            !bad_ratio(self) && !bad_tab(self) && bad_palette(self) ==> (r matches Err(ConfigError::Palette(n))
                && n@ == theme_get(self, |t: ThemeSection| t.palette)->0@),
            !bad_ratio(self) && !bad_tab(self) && !bad_palette(self) && bad_syntax(self, known@.map_values(|s: String| s@))
                ==> (r matches Err(ConfigError::SyntaxTheme(n)) && n@ == theme_get(self, |t: ThemeSection| t.syntax)->0@),
            !bad_ratio(self) && !bad_tab(self) && !bad_palette(self) && !bad_syntax(self, known@.map_values(|s: String| s@))
                ==> (r matches Ok(c) && applied(self, c)),
    {
        let mut cfg = Config::default();
        match self.ui {
            Some(ui) => {
                match ui.tree_ratio {
                    Some(ratio) => {
                        if !(1 <= ratio && ratio <= 16) {
                            return Err(ConfigError::TreeRatio(ratio));
                        }
                        cfg.tree_ratio = ratio;
                    },
                    None => {},
                }
                match ui.show_status_bar {
                    Some(v) => cfg.show_status_bar = v,
                    None => {},
                }
                match ui.tab_width {
                    Some(v) => {
                        if v == 0 {
                            return Err(ConfigError::TabWidth);
                        }
                        cfg.text.tab_width = v;
                    },
                    None => {},
                }
                match ui.ambiguous_width_wide {
                    Some(v) => cfg.text.ambiguous_wide = v,
                    None => {},
                }
                match ui.syntax_highlight {
                    Some(v) => cfg.syntax_highlight = v,
                    None => {},
                }
                match ui.max_highlight_lines {
                    Some(v) => cfg.max_highlight_lines = v,
                    None => {},
                }
            },
            None => {},
        }
        match self.diff {
            Some(diff) => {
                match diff.full_file {
                    Some(v) => cfg.full_file = v,
                    None => {},
                }
                match diff.fold_context {
                    Some(v) => cfg.fold_context = v,
                    None => {},
                }
                match diff.inline_words {
                    Some(v) => cfg.inline_words = v,
                    None => {},
                }
                match diff.max_file_bytes {
                    Some(v) => cfg.max_file_bytes = v,
                    None => {},
                }
            },
            None => {},
        }
        match self.theme {
            Some(theme) => {
                match theme.palette {
                    Some(name) => {
                        match Palette::parse(name.as_str()) {
                            Some(p) => cfg.palette = p,
                            None => {
                                return Err(ConfigError::Palette(name));
                            },
                        }
                    },
                    None => {},
                }
                match theme.syntax {
                    Some(name) => {
                        if !contains_name(known, &name) {
                            return Err(ConfigError::SyntaxTheme(name));
                        }
                        cfg.syntax_theme = name;
                    },
                    None => {},
                }
            },
            None => {},
        }
        Ok(cfg)
    }

    /// As `into_config_with`, against every theme: syntect's bundled ones
    /// and the library's `tdv-dark` and `tdv-light`.
    pub fn into_config(self) -> (r: Result<Config, ConfigError>)
        ensures
            bad_ratio(self) ==> r == Err::<Config, ConfigError>(ConfigError::TreeRatio(ui_get(self, |u: UiSection| u.tree_ratio)->0)),
            !bad_ratio(self) && bad_tab(self) ==> r == Err::<Config, ConfigError>(ConfigError::TabWidth),
            !bad_ratio(self) && !bad_tab(self) && bad_palette(self) ==> (r matches Err(ConfigError::Palette(n))
                && n@ == theme_get(self, |t: ThemeSection| t.palette)->0@),
            !bad_ratio(self) && !bad_tab(self) && !bad_palette(self) && bad_syntax(self, all_themes())
                ==> (r matches Err(ConfigError::SyntaxTheme(n)) && n@ == theme_get(self, |t: ThemeSection| t.syntax)->0@),
            !bad_ratio(self) && !bad_tab(self) && !bad_palette(self) && !bad_syntax(self, all_themes())
                ==> (r matches Ok(c) && applied(self, c)),
    {
        let known = theme_names();
        proof {
            let kv = known@.map_values(|s: String| s@);
            assert forall|x: Seq<char>| kv.contains(x) <==> all_themes().contains(x) by {
                if kv.contains(x) {
                    let i = choose|i: int| 0 <= i < kv.len() && kv[i] == x;
                    assert(is_known_theme(known@[i]@));
                    let j = choose|j: int| 0 <= j < all_themes().len() && all_themes()[j] == known@[i]@;
                    assert(all_themes()[j] == x);
                }
                if all_themes().contains(x) {
                    let j = choose|j: int| 0 <= j < all_themes().len() && all_themes()[j] == x;
                    assert(names_hold(known@, all_themes()[j]));
                    let i = choose|i: int| 0 <= i < known@.len() && known@[i]@ == all_themes()[j];
                    assert(kv[i] == x);
                }
            }
            assert(bad_syntax(self, kv) == bad_syntax(self, all_themes()));
        }
        self.into_config_with(&known)
    }
}

/// The command line: where to start, which configuration file to read, and
/// the settings it overrides.
#[derive(Clone, Debug, Default)]
pub struct Cli {
    pub path: Option<String>,
    pub config: Option<String>,
    pub no_highlight: bool,
    pub max_file_bytes: Option<u64>,
    pub ambiguous_wide: bool,
    pub tab_width: Option<usize>,
}

impl Cli {
    /// Applies the command line's settings over the configuration; a tab
    /// width of 0 counts as 1.
    pub fn apply_to(&self, cfg: &mut Config)
        ensures
            final(cfg).max_file_bytes == or_default(self.max_file_bytes, old(cfg).max_file_bytes),
            final(cfg).text.tab_width == match self.tab_width {
                Some(v) => if v == 0 { 1 } else { v },
                None => old(cfg).text.tab_width,
            },
            final(cfg).text.ambiguous_wide == (self.ambiguous_wide || old(cfg).text.ambiguous_wide),
            final(cfg).syntax_highlight == (!self.no_highlight && old(cfg).syntax_highlight),
            final(cfg).tree_ratio == old(cfg).tree_ratio,
            final(cfg).show_status_bar == old(cfg).show_status_bar,
            final(cfg).full_file == old(cfg).full_file,
            final(cfg).fold_context == old(cfg).fold_context,
            final(cfg).inline_words == old(cfg).inline_words,
            final(cfg).syntax_theme == old(cfg).syntax_theme,
            final(cfg).max_highlight_lines == old(cfg).max_highlight_lines,
            final(cfg).palette == old(cfg).palette,
    {
        match self.max_file_bytes {
            Some(v) => cfg.max_file_bytes = v,
            None => {},
        }
        match self.tab_width {
            Some(v) => cfg.text.tab_width = if v == 0 { 1 } else { v },
            None => {},
        }
        if self.ambiguous_wide {
            cfg.text.ambiguous_wide = true;
        }
        if self.no_highlight {
            cfg.syntax_highlight = false;
        }
    }
}

} // verus!
