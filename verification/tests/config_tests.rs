use tdv::config::{Cli, Config, ConfigError, DiffSection, FileConfig, Palette, ThemeSection, UiSection};

fn error_key(f: FileConfig) -> String {
    match f.into_config() {
        Err(e) => e.key().to_string(),
        Ok(_) => panic!("the configuration was accepted"),
    }
}

#[test]
fn empty_file_yields_defaults() {
    let cfg = match FileConfig::default().into_config() {
        Ok(c) => c,
        Err(_) => panic!("an empty file was refused"),
    };
    assert_eq!(cfg.tree_ratio, Config::default().tree_ratio);
}

#[test]
fn values_are_applied() {
    let f = FileConfig {
        ui: Some(UiSection { tree_ratio: Some(4), tab_width: Some(8), ..UiSection::default() }),
        diff: Some(DiffSection { full_file: Some(false), fold_context: Some(5), ..DiffSection::default() }),
        theme: Some(ThemeSection { palette: Some("blue-orange".to_string()), syntax: None }),
    };
    let cfg = match f.into_config() {
        Ok(c) => c,
        Err(_) => panic!("refused"),
    };
    assert_eq!(cfg.tree_ratio, 4);
    assert_eq!(cfg.text.tab_width, 8);
    assert!(!cfg.full_file);
    assert_eq!(cfg.fold_context, 5);
    assert_eq!(cfg.palette, Palette::BlueOrange);
}

#[test]
fn out_of_range_tree_ratio_is_reported() {
    let f = FileConfig {
        ui: Some(UiSection { tree_ratio: Some(17), ..UiSection::default() }),
        ..FileConfig::default()
    };
    let error = error_key(f);
    assert!(error.contains("tree_ratio"), "{error}");
}

#[test]
fn unknown_palette_is_reported() {
    let f = FileConfig {
        theme: Some(ThemeSection { palette: Some("pink".to_string()), syntax: None }),
        ..FileConfig::default()
    };
    let error = error_key(f);
    assert!(error.contains("palette"), "{error}");
}

#[test]
fn zero_tab_width_is_reported() {
    let f = FileConfig {
        ui: Some(UiSection { tab_width: Some(0), ..UiSection::default() }),
        ..FileConfig::default()
    };
    assert_eq!(error_key(f), "ui.tab_width");
}

#[test]
fn unknown_syntax_theme_is_reported() {
    let f = FileConfig {
        theme: Some(ThemeSection { palette: None, syntax: Some("no-such-theme".to_string()) }),
        ..FileConfig::default()
    };
    match f.into_config() {
        Err(ConfigError::SyntaxTheme(name)) => assert_eq!(name, "no-such-theme"),
        _ => panic!("an unknown theme was accepted"),
    }
}

#[test]
fn bundled_syntax_theme_is_accepted() {
    let f = FileConfig {
        theme: Some(ThemeSection { palette: None, syntax: Some("InspiredGitHub".to_string()) }),
        ..FileConfig::default()
    };
    let cfg = match f.into_config() {
        Ok(c) => c,
        Err(_) => panic!("a bundled theme was refused"),
    };
    assert_eq!(cfg.syntax_theme, "InspiredGitHub");
}

#[test]
fn readme_sample_with_own_theme_is_accepted() {
    for name in ["tdv-dark", "tdv-light"] {
        let f = FileConfig {
            ui: Some(UiSection { tree_ratio: Some(5), ..UiSection::default() }),
            theme: Some(ThemeSection { palette: Some("red-green".to_string()), syntax: Some(name.to_string()) }),
            ..FileConfig::default()
        };
        let cfg = match f.into_config() {
            Ok(c) => c,
            Err(_) => panic!("{name} was refused"),
        };
        assert_eq!(cfg.syntax_theme, name);
        assert_eq!(cfg.tree_ratio, 5);
    }
}

#[test]
fn tree_ratio_is_checked_before_the_palette() {
    let f = FileConfig {
        ui: Some(UiSection { tree_ratio: Some(0), ..UiSection::default() }),
        diff: None,
        theme: Some(ThemeSection { palette: Some("pink".to_string()), syntax: None }),
    };
    match f.into_config() {
        Err(ConfigError::TreeRatio(v)) => assert_eq!(v, 0),
        _ => panic!("expected the tree ratio error"),
    }
}

#[test]
fn defaults_are_the_documented_ones() {
    let cfg = Config::default();
    assert_eq!(cfg.tree_ratio, 5);
    assert_eq!(cfg.text.tab_width, 4);
    assert!(cfg.full_file);
    assert_eq!(cfg.fold_context, 3);
    assert_eq!(cfg.max_file_bytes, 2 * 1024 * 1024);
    assert_eq!(cfg.max_highlight_lines, 20_000);
    assert_eq!(cfg.palette, Palette::RedGreen);
    assert_eq!(cfg.syntax_theme, tdv::highlight::DEFAULT_THEME);
}

#[test]
fn command_line_overrides_the_file() {
    let mut cfg = Config::default();
    let cli = Cli { no_highlight: true, tab_width: Some(0), max_file_bytes: Some(10), ..Cli::default() };
    cli.apply_to(&mut cfg);
    assert!(!cfg.syntax_highlight);
    assert_eq!(cfg.text.tab_width, 1);
    assert_eq!(cfg.max_file_bytes, 10);
    assert_eq!(cfg.tree_ratio, 5);
}

#[test]
fn palettes_parse_by_name() {
    assert_eq!(Palette::parse("red-green"), Some(Palette::RedGreen));
    assert_eq!(Palette::parse("blue-orange"), Some(Palette::BlueOrange));
    assert_eq!(Palette::parse("pink"), None);
}
