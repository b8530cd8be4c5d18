use tdv::align::align;
use tdv::search::{content_matches, line_hits};
use tdv::app::App;
use tdv::changes::{ChangeKind, ChangeSet, DiffSpec, FileChange, HeadInfo};
use tdv::config::Config;
use tdv::keys::{Action, KeyCode, KeyInput, KeyMap};
use tdv::lines::LineTable;
use tdv::state::{ChangeSort, ContentState, Focus, Mode, Overlay};
use tdv::task::{Content, StatusOutcome, TaskRequest, TaskResult, TextOutcome};
use tdv::update::{apply, on_task, result_fits};
use tdv::walker::{tidy_entries, DirEntry};

fn entry(name: &str, is_dir: bool) -> DirEntry {
    DirEntry { name: name.to_string(), is_dir }
}

fn table(s: &str) -> LineTable {
    LineTable::new(s.as_bytes().to_vec())
}

fn change(path: &str, kind: ChangeKind) -> FileChange {
    FileChange { path: path.to_string(), old_path: None, kind, index_kind: None, worktree_kind: None }
}

fn take(app: &mut App, r: TaskResult) {
    assert!(result_fits(app, &r));
    on_task(app, r);
}

fn names(app: &mut App) -> Vec<String> {
    let t = app.tree();
    let ids = t.visible().to_vec();
    ids.iter().map(|id| t.node(*id).name.clone()).collect()
}

fn fresh(has_repo: bool) -> App {
    App::new(Config::default(), "/repo".to_string(), has_repo)
}

fn with_root(app: &mut App, entries: Vec<DirEntry>) {
    take(app, TaskResult::Dir { generation: 1, node: 0, outcome: Ok(tidy_entries(entries)) });
}

#[test]
fn start_asks_for_the_root_and_the_status() {
    let app = fresh(true);
    assert_eq!(app.outbox.len(), 2);
    match &app.outbox[0] {
        TaskRequest::ReadDir { node, dir, show_ignored, .. } => {
            assert_eq!(*node, 0);
            assert_eq!(dir, "/repo");
            assert!(!show_ignored);
        },
        other => panic!("{other:?}"),
    }
    assert!(matches!(app.outbox[1], TaskRequest::ScanStatus { .. }));
    assert!(app.scanning);
    assert_eq!(fresh(false).outbox.len(), 1);
}

#[test]
fn directory_entries_are_listed_in_order_without_git() {
    let mut app = fresh(false);
    with_root(&mut app, vec![entry("b.txt", false), entry(".git", true), entry("Src", true), entry("a.txt", false), entry("lib", true)]);
    assert_eq!(names(&mut app), vec!["lib", "Src", "a.txt", "b.txt"]);
}

#[test]
fn a_file_is_loaded_and_colored_after_it_shows() {
    let mut app = fresh(false);
    with_root(&mut app, vec![entry("src", true), entry("README.md", false)]);
    apply(&mut app, Action::TreeMove(1));
    let generation = app.generation;
    match app.outbox.last() {
        Some(TaskRequest::LoadText { generation: g, path, abs }) => {
            assert_eq!(*g, generation);
            assert_eq!(path, "README.md");
            assert_eq!(abs, "/repo/README.md");
        },
        other => panic!("{other:?}"),
    }
    assert!(matches!(app.content, ContentState::Loading { .. }));
    let before = app.outbox.len();
    take(&mut app, TaskResult::Text {
        generation,
        path: "README.md".to_string(),
        outcome: Ok(TextOutcome::Ready { table: table("# title\n") }),
    });
    match &app.content {
        ContentState::Text(v) => {
            assert_eq!(v.path, "README.md");
            assert_eq!(v.table.len(), 1);
            assert_eq!(v.offset, 0);
        },
        _ => panic!("the text is not shown"),
    }
    // A short file is colored in one go.
    assert_eq!(app.outbox.len(), before + 1);
    match app.outbox.last() {
        Some(TaskRequest::Highlight { upto, path, .. }) => {
            assert_eq!(*upto, usize::MAX);
            assert_eq!(path, "README.md");
        },
        other => panic!("{other:?}"),
    }
}

#[test]
fn a_long_file_is_colored_ahead_of_the_pane_first() {
    let mut app = fresh(false);
    with_root(&mut app, vec![entry("long.rs", false)]);
    apply(&mut app, Action::TreeMove(0));
    let generation = app.generation;
    let body: String = (1..=300).map(|i| format!("fn f{i}() {{}}\n")).collect();
    let before = app.outbox.len();
    take(&mut app, TaskResult::Text { generation, path: "long.rs".to_string(), outcome: Ok(TextOutcome::Ready { table: table(&body) }) });
    assert_eq!(app.outbox.len(), before + 2);
    match (&app.outbox[before], &app.outbox[before + 1]) {
        (TaskRequest::Highlight { upto: first, .. }, TaskRequest::Highlight { upto: second, .. }) => {
            assert_eq!(*first, 64);
            assert_eq!(*second, usize::MAX);
        },
        other => panic!("{other:?}"),
    }
}

#[test]
fn a_result_for_an_earlier_selection_is_dropped() {
    let mut app = fresh(false);
    with_root(&mut app, vec![entry("a.txt", false), entry("b.txt", false)]);
    apply(&mut app, Action::TreeMove(0));
    let stale = app.generation;
    apply(&mut app, Action::TreeMove(1));
    take(&mut app, TaskResult::Text { generation: stale, path: "a.txt".to_string(), outcome: Ok(TextOutcome::Ready { table: table("a\n") }) });
    assert!(matches!(&app.content, ContentState::Loading { path } if path == "b.txt"));
}

#[test]
fn a_failed_read_is_reported() {
    let mut app = fresh(false);
    take(&mut app, TaskResult::Dir { generation: 1, node: 0, outcome: Err("denied".to_string()) });
    assert_eq!(app.notice.as_deref(), Some("ディレクトリを読めない: denied"));
}

#[test]
fn opening_a_directory_asks_for_its_children_once() {
    let mut app = fresh(false);
    with_root(&mut app, vec![entry("src", true)]);
    apply(&mut app, Action::TreeOpen);
    match app.outbox.last() {
        Some(TaskRequest::ReadDir { node, dir, .. }) => {
            assert_eq!(*node, 1);
            assert_eq!(dir, "/repo/src");
        },
        other => panic!("{other:?}"),
    }
    let g = app.generation;
    take(&mut app, TaskResult::Dir { generation: g, node: 1, outcome: Ok(vec![entry("main.rs", false)]) });
    assert_eq!(names(&mut app), vec!["src", "main.rs"]);
    let count = app.outbox.len();
    apply(&mut app, Action::TreeToggle);
    apply(&mut app, Action::TreeToggle);
    assert_eq!(app.outbox.len(), count);
    // Entries for a directory that already has children are dropped.
    take(&mut app, TaskResult::Dir { generation: 0, node: 1, outcome: Ok(vec![entry("other.rs", false)]) });
    assert_eq!(app.fs_tree.node_count(), 3);
}

#[test]
fn reload_brings_back_expanded_directories_and_the_selection() {
    let mut app = fresh(false);
    with_root(&mut app, vec![entry("src", true), entry("z.txt", false)]);
    apply(&mut app, Action::TreeOpen);
    let g = app.generation;
    take(&mut app, TaskResult::Dir { generation: g, node: 1, outcome: Ok(vec![entry("main.rs", false)]) });
    apply(&mut app, Action::TreeMove(1));
    let id = app.fs_tree.selected_id().unwrap();
    assert_eq!(app.fs_tree.node(id).name, "main.rs");

    apply(&mut app, Action::Reload);
    assert_eq!(app.fs_tree.node_count(), 1);
    assert_eq!(app.pending_expand, vec!["src".to_string()]);
    assert_eq!(app.pending_select.as_deref(), Some("src/main.rs"));

    let before = app.outbox.len();
    let g = app.generation;
    take(&mut app, TaskResult::Dir { generation: g, node: 0, outcome: Ok(vec![entry("src", true), entry("z.txt", false)]) });
    // The directory expanded before is asked for again.
    assert_eq!(app.outbox.len(), before + 1);
    match app.outbox.last() {
        Some(TaskRequest::ReadDir { dir, .. }) => assert_eq!(dir, "/repo/src"),
        other => panic!("{other:?}"),
    }
    let g = app.generation;
    take(&mut app, TaskResult::Dir { generation: g, node: 1, outcome: Ok(vec![entry("main.rs", false)]) });
    assert!(app.pending_select.is_none());
    let id = app.fs_tree.selected_id().unwrap();
    assert_eq!(app.fs_tree.node(id).path, "src/main.rs");
    assert!(matches!(&app.content, ContentState::Loading { path } if path == "src/main.rs"));
}

fn status_of(files: Vec<FileChange>) -> StatusOutcome {
    StatusOutcome {
        changes: ChangeSet { files },
        head: HeadInfo { name: "main".to_string() },
    }
}

/// An application in diff mode showing the diff of `old` against `new` for `a.rs`.
fn diff_app(old: &str, new: &str, height: usize) -> App {
    let mut app = fresh(true);
    app.content_height = height;
    take(&mut app, TaskResult::Status { generation: 1, outcome: Ok(status_of(vec![change("a.rs", ChangeKind::Modified)])) });
    apply(&mut app, Action::SetMode(Mode::Diff));
    assert_eq!(app.mode, Mode::Diff);
    match app.outbox.last() {
        Some(TaskRequest::ComputeDiff { change, spec, .. }) => {
            assert_eq!(change.path, "a.rs");
            assert_eq!(*spec, DiffSpec::WorktreeVsHead);
        },
        other => panic!("{other:?}"),
    }
    let generation = app.generation;
    let diff = align(table(old), table(new));
    take(&mut app, TaskResult::Diff { generation, change: change("a.rs", ChangeKind::Modified), outcome: Ok(Content::Ready { diff }) });
    assert!(matches!(app.content, ContentState::Diff(_)));
    app
}

fn cursor(app: &App) -> Option<usize> {
    match &app.content {
        ContentState::Diff(v) => v.hunk_cursor,
        _ => None,
    }
}

#[test]
fn hunk_jumps_go_through_each_hunk_in_turn() {
    let old: String = (1..=40).map(|i| format!("line {i}\n")).collect();
    let new = old.replace("line 5\n", "line 5 changed\n").replace("line 30\n", "line 30 changed\n");
    let mut app = diff_app(&old, &new, 10);
    apply(&mut app, Action::NextHunk);
    assert_eq!(cursor(&app), Some(0));
    apply(&mut app, Action::NextHunk);
    assert_eq!(cursor(&app), Some(1));
    apply(&mut app, Action::NextHunk);
    assert_eq!(cursor(&app), Some(1));
    assert_eq!(app.notice.as_deref(), Some("これ以降に変更箇所はない"));
    apply(&mut app, Action::PrevHunk);
    assert_eq!(cursor(&app), Some(0));
    apply(&mut app, Action::PrevHunk);
    assert_eq!(app.notice.as_deref(), Some("これ以前に変更箇所はない"));
    // A manual scroll forgets the hunk jumped to.
    apply(&mut app, Action::ContentFirst);
    assert_eq!(cursor(&app), None);
}

#[test]
fn hunk_jump_puts_the_change_a_quarter_down() {
    let old: String = (1..=100).map(|i| format!("line {i}\n")).collect();
    let new = old.replace("line 60\n", "changed\n");
    let mut app = diff_app(&old, &new, 20);
    apply(&mut app, Action::NextHunk);
    match &app.content {
        ContentState::Diff(v) => assert_eq!(v.offset, 59 - 5),
        _ => panic!(),
    }
}

#[test]
fn scrolling_stops_at_the_last_page() {
    let old: String = (1..=30).map(|i| format!("{i}\n")).collect();
    let new = old.replace("15\n", "x\n");
    let mut app = diff_app(&old, &new, 10);
    apply(&mut app, Action::ContentScroll(100));
    let offset = |app: &App| match &app.content {
        ContentState::Diff(v) => v.offset,
        _ => usize::MAX,
    };
    assert_eq!(offset(&app), 20);
    apply(&mut app, Action::ContentScroll(-3));
    assert_eq!(offset(&app), 17);
    apply(&mut app, Action::ContentHalfPage(-1));
    assert_eq!(offset(&app), 12);
    apply(&mut app, Action::ContentPage(-1));
    assert_eq!(offset(&app), 2);
    apply(&mut app, Action::ContentPage(-1));
    assert_eq!(offset(&app), 0);
    apply(&mut app, Action::ContentLast);
    assert_eq!(offset(&app), 20);
    apply(&mut app, Action::ContentHScroll(-4));
    apply(&mut app, Action::ContentHScroll(6));
    match &app.content {
        ContentState::Diff(v) => assert_eq!(v.hscroll, 6),
        _ => panic!(),
    }
}

#[test]
fn folding_keeps_the_rows_near_changes() {
    let old: String = (1..=30).map(|i| format!("{i}\n")).collect();
    let new = old.replace("15\n", "x\n");
    let mut app = diff_app(&old, &new, 10);
    app.cfg.fold_context = 2;
    apply(&mut app, Action::ToggleFold);
    match &app.content {
        ContentState::Diff(v) => {
            assert!(v.folded);
            // A gap, rows 12 to 16, and a gap.
            assert_eq!(v.display_len(), 7);
        },
        _ => panic!(),
    }
    apply(&mut app, Action::ContentFirst);
    apply(&mut app, Action::ExpandGap);
    match &app.content {
        ContentState::Diff(v) => assert_eq!(v.display_len(), 18),
        _ => panic!(),
    }
    apply(&mut app, Action::ToggleFold);
    match &app.content {
        ContentState::Diff(v) => {
            assert!(!v.folded);
            assert_eq!(v.display_len(), 30);
        },
        _ => panic!(),
    }
}

#[test]
fn diff_mode_needs_a_repository() {
    let mut app = fresh(false);
    apply(&mut app, Action::ToggleMode);
    assert_eq!(app.mode, Mode::Tree);
    assert_eq!(app.notice.as_deref(), Some("Git リポジトリではないため diff モードを使えない"));
    apply(&mut app, Action::Escape);
    assert!(app.notice.is_none());
}

#[test]
fn status_builds_the_change_tree() {
    let mut app = fresh(true);
    let files = vec![change("src/b.rs", ChangeKind::Modified), change("a.txt", ChangeKind::Added)];
    take(&mut app, TaskResult::Status { generation: 1, outcome: Ok(status_of(files)) });
    assert!(!app.scanning);
    apply(&mut app, Action::SetMode(Mode::Diff));
    assert_eq!(names(&mut app), vec!["src/b.rs", "a.txt"]);
    apply(&mut app, Action::ToggleHierarchy);
    assert_eq!(names(&mut app), vec!["src", "b.rs", "a.txt"]);
    // The file selected before stays selected.
    let id = app.change_tree.selected_id().unwrap();
    assert_eq!(app.change_tree.node(id).path, "src/b.rs");
}

#[test]
fn next_file_skips_directories() {
    let mut app = fresh(true);
    let files = vec![change("a/x.rs", ChangeKind::Modified), change("b/y.rs", ChangeKind::Deleted)];
    take(&mut app, TaskResult::Status { generation: 1, outcome: Ok(status_of(files)) });
    apply(&mut app, Action::ToggleHierarchy);
    apply(&mut app, Action::SetMode(Mode::Diff));
    let selected = |app: &mut App| {
        let id = app.change_tree.selected_id().unwrap();
        app.change_tree.node(id).path.clone()
    };
    apply(&mut app, Action::TreeFirst);
    assert_eq!(selected(&mut app), "a");
    apply(&mut app, Action::NextFile);
    assert_eq!(selected(&mut app), "a/x.rs");
    apply(&mut app, Action::NextFile);
    assert_eq!(selected(&mut app), "b/y.rs");
    apply(&mut app, Action::PrevFile);
    assert_eq!(selected(&mut app), "a/x.rs");
}

#[test]
fn a_stale_status_is_dropped_and_a_failed_one_reported() {
    let mut app = fresh(true);
    apply(&mut app, Action::Reload);
    take(&mut app, TaskResult::Status { generation: 1, outcome: Ok(status_of(vec![change("a", ChangeKind::Added)])) });
    assert!(app.changes.files.is_empty());
    take(&mut app, TaskResult::Status { generation: 2, outcome: Err("broken".to_string()) });
    assert_eq!(app.notice.as_deref(), Some("status の取得に失敗: broken"));
    assert!(!app.scanning);
}

#[test]
fn small_actions_change_one_setting() {
    let mut app = fresh(false);
    apply(&mut app, Action::ResizeTree(10));
    assert_eq!(app.tree_ratio, 8);
    apply(&mut app, Action::ResizeTree(-20));
    assert_eq!(app.tree_ratio, 1);
    apply(&mut app, Action::ToggleHelp);
    assert!(matches!(app.overlay, Overlay::Help));
    apply(&mut app, Action::ToggleHelp);
    assert!(matches!(app.overlay, Overlay::Closed));
    apply(&mut app, Action::CycleFocus(1));
    assert_eq!(app.focus, Focus::Content);
    apply(&mut app, Action::CycleFocus(-1));
    assert_eq!(app.focus, Focus::Tree);
    apply(&mut app, Action::Quit);
    assert!(app.should_quit);
}

#[test]
fn keys_map_to_actions() {
    let key = |code| KeyInput { code, ctrl: false, release: false };
    let mut keys = KeyMap::new();
    assert_eq!(keys.map(key(KeyCode::Char('q')), Focus::Tree, &Overlay::Closed), Action::Quit);
    assert_eq!(keys.map(key(KeyCode::Char('j')), Focus::Tree, &Overlay::Closed), Action::TreeMove(1));
    assert_eq!(keys.map(key(KeyCode::Char('j')), Focus::Content, &Overlay::Closed), Action::ContentScroll(1));
    assert_eq!(keys.map(key(KeyCode::Char(']')), Focus::Content, &Overlay::Closed), Action::Noop);
    assert_eq!(keys.map(key(KeyCode::Char('c')), Focus::Content, &Overlay::Closed), Action::NextHunk);
    assert_eq!(keys.map(key(KeyCode::Char('[')), Focus::Tree, &Overlay::Closed), Action::Noop);
    assert_eq!(keys.map(key(KeyCode::Char('f')), Focus::Tree, &Overlay::Closed), Action::PrevFile);
    assert_eq!(keys.map(key(KeyCode::Char('j')), Focus::Tree, &Overlay::Help), Action::Noop);
    assert_eq!(keys.map(key(KeyCode::Esc), Focus::Tree, &Overlay::Help), Action::Escape);
    let released = KeyInput { code: KeyCode::Char('q'), ctrl: false, release: true };
    assert_eq!(keys.map(released, Focus::Tree, &Overlay::Closed), Action::Noop);
    let ctrl_c = KeyInput { code: KeyCode::Char('c'), ctrl: true, release: false };
    assert_eq!(keys.map(ctrl_c, Focus::Tree, &Overlay::Help), Action::Quit);
}

#[test]
fn highlight_results_go_to_their_side() {
    let old: String = (1..=5).map(|i| format!("{i}\n")).collect();
    let new = old.replace("3\n", "x\n");
    let mut app = diff_app(&old, &new, 10);
    let generation = app.generation;
    let h = tdv::highlight::Highlighted::new(vec![Vec::new(); 5]);
    take(&mut app, TaskResult::Highlight { generation, target: tdv::task::HighlightTarget::DiffNew, highlight: Some(h) });
    match &app.content {
        ContentState::Diff(v) => {
            assert!(v.new_highlight.is_some());
            assert!(v.old_highlight.is_none());
        },
        _ => panic!(),
    }
    let stale = tdv::highlight::Highlighted::new(Vec::new());
    take(&mut app, TaskResult::Highlight { generation: generation - 1, target: tdv::task::HighlightTarget::DiffOld, highlight: Some(stale) });
    match &app.content {
        ContentState::Diff(v) => assert!(v.old_highlight.is_none()),
        _ => panic!(),
    }
}

#[test]
fn word_spans_come_from_the_changed_pair() {
    let mut app = diff_app("let x = 1;\n", "let x = 2;\n", 10);
    match &mut app.content {
        ContentState::Diff(v) => {
            assert_eq!(v.diff.rows[0].kind, tdv::lines::RowKind::Changed);
            let spans = v.inline_spans(0, true);
            assert_eq!(spans.old, vec![8..9]);
            assert_eq!(spans.new, vec![8..9]);
            // A second lookup gives the same spans.
            let again = v.inline_spans(0, true);
            assert_eq!(again.old, vec![8..9]);
            let off = v.inline_spans(0, false);
            assert!(off.old.is_empty() && off.new.is_empty());
        },
        _ => panic!(),
    }
}

#[test]
fn search_hits_are_kept_in_row_order() {
    let mut s = tdv::state::SearchState::new();
    s.set("x".to_string(), vec![(5, true, 1..2), (2, false, 0..1), (5, true, 4..5), (2, true, 3..4)]);
    assert!(s.is_active());
    assert_eq!(s.hits, vec![(2, false), (2, true), (5, true)]);
    assert_eq!(s.ranges(5, true).to_vec(), vec![1..2, 4..5]);
    assert!(s.ranges(5, false).is_empty());
    s.clear();
    assert!(!s.is_active());
}

#[test]
fn window_lists_the_rows_from_the_offset() {
    let old: String = (1..=30).map(|i| format!("{i}\n")).collect();
    let new = old.replace("15\n", "x\n");
    let mut app = diff_app(&old, &new, 10);
    apply(&mut app, Action::ContentScroll(25));
    match &app.content {
        ContentState::Diff(v) => {
            let w = v.window(10);
            assert_eq!(w.len(), 10);
            assert_eq!(w[0], tdv::state::DisplayRow::Row(20));
            assert_eq!(v.window(3).len(), 3);
        },
        _ => panic!(),
    }
    app.cfg.fold_context = 1;
    apply(&mut app, Action::ToggleFold);
    match &app.content {
        ContentState::Diff(v) => {
            let w = v.window(100);
            assert_eq!(w.len(), v.display_len() - v.offset);
        },
        _ => panic!(),
    }
}

fn change_paths(app: &mut App) -> Vec<String> {
    let ids = app.change_tree.visible().to_vec();
    ids.iter().map(|id| app.change_tree.node(*id).path.clone()).collect()
}

#[test]
fn change_tree_lists_changes_in_the_sort_order() {
    let mut app = fresh(true);
    app.hierarchical_changes = false;
    app.changes = ChangeSet {
        files: vec![
            change("src/added.rs", ChangeKind::Added),
            change("src/main.rs", ChangeKind::Modified),
            change("src/removed.rs", ChangeKind::Deleted),
            change("untracked.txt", ChangeKind::Untracked),
        ],
    };
    app.rebuild_change_tree();
    assert_eq!(change_paths(&mut app), vec!["src/added.rs", "src/main.rs", "src/removed.rs", "untracked.txt"]);
    app.change_sort = ChangeSort::Kind;
    app.rebuild_change_tree();
    assert_eq!(change_paths(&mut app), vec!["src/main.rs", "src/added.rs", "src/removed.rs", "untracked.txt"]);
    app.hierarchical_changes = true;
    app.rebuild_change_tree();
    assert_eq!(change_paths(&mut app), vec!["src", "src/main.rs", "src/added.rs", "src/removed.rs", "untracked.txt"]);
}

#[test]
fn sort_toggle_groups_changes_by_kind() {
    let mut app = fresh(true);
    app.hierarchical_changes = false;
    app.changes = ChangeSet {
        files: vec![
            change("src/added.rs", ChangeKind::Added),
            change("src/main.rs", ChangeKind::Modified),
            change("src/removed.rs", ChangeKind::Deleted),
            change("untracked.txt", ChangeKind::Untracked),
        ],
    };
    app.rebuild_change_tree();
    let by_path = vec!["src/added.rs", "src/main.rs", "src/removed.rs", "untracked.txt"];
    assert_eq!(change_paths(&mut app), by_path);
    apply(&mut app, Action::CycleSort);
    assert_eq!(change_paths(&mut app), vec!["src/main.rs", "src/added.rs", "src/removed.rs", "untracked.txt"]);
    apply(&mut app, Action::CycleSort);
    assert_eq!(change_paths(&mut app), by_path);
}

#[test]
fn unified_and_wrap_toggle_and_keys_reach_them() {
    let mut app = fresh(false);
    assert!(!app.unified && !app.wrap);
    apply(&mut app, Action::ToggleUnified);
    apply(&mut app, Action::ToggleWrap);
    assert!(app.unified && app.wrap);
    apply(&mut app, Action::ToggleUnified);
    assert!(!app.unified);
    let mut keys = KeyMap::new();
    let key = |c: char| KeyInput { code: KeyCode::Char(c), ctrl: false, release: false };
    assert_eq!(keys.map(key('u'), Focus::Content, &Overlay::Closed), Action::ToggleUnified);
    assert_eq!(keys.map(key('w'), Focus::Tree, &Overlay::Closed), Action::ToggleWrap);
    assert_eq!(keys.map(key('S'), Focus::Tree, &Overlay::Closed), Action::CycleSort);
    let ctrl_u = KeyInput { code: KeyCode::Char('u'), ctrl: true, release: false };
    assert_eq!(keys.map(ctrl_u, Focus::Content, &Overlay::Closed), Action::ContentHalfPage(-1));
}

#[test]
fn filter_narrows_the_tree_and_cancel_restores_it() {
    let mut app = fresh(false);
    with_root(&mut app, vec![entry("src", true), entry("README.md", false), entry("untracked.txt", false)]);
    let before = app.fs_tree.visible_len();
    apply(&mut app, Action::StartFilter);
    for c in "readme".chars() {
        apply(&mut app, Action::InputChar(c));
    }
    assert_eq!(names(&mut app), vec!["README.md"]);
    assert!(app.fs_tree.visible_len() < before);
    apply(&mut app, Action::InputBackspace);
    assert!(matches!(&app.overlay, Overlay::Input { buffer, .. } if buffer == "readm"));
    apply(&mut app, Action::InputCancel);
    assert!(matches!(app.overlay, Overlay::Closed));
    assert_eq!(app.fs_tree.visible_len(), before);
    let mut keys = KeyMap::new();
    let key = |c: KeyCode| KeyInput { code: c, ctrl: false, release: false };
    assert_eq!(keys.map(key(KeyCode::Char('/')), Focus::Tree, &Overlay::Closed), Action::StartFilter);
    apply(&mut app, Action::StartFilter);
    let open = app.overlay.clone();
    assert_eq!(keys.map(key(KeyCode::Char('q')), Focus::Tree, &open), Action::InputChar('q'));
    assert_eq!(keys.map(key(KeyCode::Backspace), Focus::Tree, &open), Action::InputBackspace);
    assert_eq!(keys.map(key(KeyCode::Enter), Focus::Tree, &open), Action::InputSubmit);
    assert_eq!(keys.map(key(KeyCode::Esc), Focus::Tree, &open), Action::InputCancel);
}

fn open_text(app: &mut App, body: &str) {
    with_root(app, vec![entry("notes.txt", false)]);
    apply(app, Action::TreeMove(0));
    let generation = app.generation;
    take(app, TaskResult::Text {
        generation,
        path: "notes.txt".to_string(),
        outcome: Ok(TextOutcome::Ready { table: table(body) }),
    });
}

fn numbered(count: usize) -> String {
    (1..=count).map(|i| format!("line {i}\n")).collect()
}

#[test]
fn search_finds_matches_and_scrolls_to_them() {
    let mut app = fresh(false);
    app.content_height = 10;
    open_text(&mut app, &numbered(60));
    apply(&mut app, Action::StartSearch);
    for c in "line 50".chars() {
        apply(&mut app, Action::InputChar(c));
    }
    assert_eq!(app.search.hits, vec![(49, false)]);
    assert_eq!(app.search.ranges(49, false).to_vec(), vec![0..7]);
    apply(&mut app, Action::InputSubmit);
    assert!(matches!(app.overlay, Overlay::Closed));
    match &app.content {
        ContentState::Text(v) => assert_eq!(v.offset, 47),
        _ => panic!("no text"),
    }
}

#[test]
fn search_without_match_reports_it() {
    let mut app = fresh(false);
    open_text(&mut app, &numbered(5));
    apply(&mut app, Action::StartSearch);
    for c in "存在しない".chars() {
        apply(&mut app, Action::InputChar(c));
    }
    apply(&mut app, Action::InputSubmit);
    assert!(app.search.hits.is_empty());
    assert_eq!(app.notice.as_deref(), Some("一致なし"));
}

#[test]
fn search_is_case_insensitive_unless_query_has_uppercase() {
    let mut app = fresh(false);
    open_text(&mut app, "Line one\nline two\n");
    apply(&mut app, Action::StartSearch);
    for c in "LINE".chars() {
        apply(&mut app, Action::InputChar(c));
    }
    assert!(app.search.hits.is_empty());
    for _ in 0..4 {
        apply(&mut app, Action::InputBackspace);
    }
    for c in "line".chars() {
        apply(&mut app, Action::InputChar(c));
    }
    assert_eq!(app.search.hits, vec![(0, false), (1, false)]);
    apply(&mut app, Action::InputSubmit);
    assert_eq!(app.search.current, 0);
    apply(&mut app, Action::NextMatch);
    assert_eq!(app.search.current, 1);
    apply(&mut app, Action::NextMatch);
    assert_eq!(app.search.current, 0);
    apply(&mut app, Action::PrevMatch);
    assert_eq!(app.search.current, 1);
    apply(&mut app, Action::StartSearch);
    apply(&mut app, Action::InputCancel);
    assert!(app.search.hits.is_empty());
    let mut keys = KeyMap::new();
    let key = |c: char| KeyInput { code: KeyCode::Char(c), ctrl: false, release: false };
    assert_eq!(keys.map(key('/'), Focus::Content, &Overlay::Closed), Action::StartSearch);
    assert_eq!(keys.map(key('n'), Focus::Content, &Overlay::Closed), Action::NextMatch);
    assert_eq!(keys.map(key('N'), Focus::Content, &Overlay::Closed), Action::PrevMatch);
}

#[test]
fn search_matches_both_sides_of_a_diff() {
    assert_eq!(line_hits(b"abcabc", b"bc", true), vec![1..3, 4..6]);
    assert_eq!(line_hits(b"aaaa", b"aa", true), vec![0..2, 2..4]);
    assert_eq!(line_hits(b"ABC", b"abc", true), vec![0..3]);
    assert!(line_hits(b"ABC", b"abc", false).is_empty());
    let diff = align(table("same\nold x\n"), table("same\nnew x\n"));
    let content = ContentState::Diff(tdv::state::DiffView::new(change("a.txt", ChangeKind::Modified), diff, false, 3));
    let hits = content_matches(&content, b"x");
    assert!(hits.iter().any(|(_, right, _)| !*right));
    assert!(hits.iter().any(|(_, right, _)| *right));
}
