use tdv::changes::{ChangeKind, DiffSpec};
use tdv::status::{changes_from, Acc, TreeObservation as T, WorktreeObservation as W};
use tdv::paths::watched_rel;

fn acc(tree: Option<T>, worktree: Option<W>) -> Acc {
    Acc { tree, worktree, ..Acc::default() }
}

type Case = (Option<T>, Option<W>, Option<ChangeKind>, Option<ChangeKind>, Option<ChangeKind>);

#[test]
fn observations_resolve_per_spec() {
    let cases: &[Case] = &[
        (Some(T::Addition), None, Some(ChangeKind::Added), Some(ChangeKind::Added), None),
        (Some(T::Addition), Some(W::Modified), Some(ChangeKind::Added), Some(ChangeKind::Added), Some(ChangeKind::Modified)),
        (Some(T::Addition), Some(W::Removed), None, Some(ChangeKind::Added), Some(ChangeKind::Deleted)),
        (Some(T::Deletion), None, Some(ChangeKind::Deleted), Some(ChangeKind::Deleted), None),
        (Some(T::Modification), None, Some(ChangeKind::Modified), Some(ChangeKind::Modified), None),
        (Some(T::Modification), Some(W::Modified), Some(ChangeKind::Modified), Some(ChangeKind::Modified), Some(ChangeKind::Modified)),
        (None, Some(W::Modified), Some(ChangeKind::Modified), None, Some(ChangeKind::Modified)),
        (None, Some(W::Removed), Some(ChangeKind::Deleted), None, Some(ChangeKind::Deleted)),
        (None, Some(W::Untracked), Some(ChangeKind::Untracked), None, Some(ChangeKind::Untracked)),
        (Some(T::Rewrite), None, Some(ChangeKind::Renamed), Some(ChangeKind::Renamed), None),
        (None, Some(W::Rewrite), Some(ChangeKind::Renamed), None, Some(ChangeKind::Renamed)),
        (None, None, None, None, None),
    ];
    for (tree, worktree, head, staged, index) in cases {
        let a = acc(*tree, *worktree);
        assert_eq!(a.resolve(&DiffSpec::WorktreeVsHead), *head, "{:?}", (tree.is_some(), worktree.is_some()));
        assert_eq!(a.resolve(&DiffSpec::StagedVsHead), *staged);
        assert_eq!(a.resolve(&DiffSpec::WorktreeVsIndex), *index);
    }
}

#[test]
fn rename_source_follows_the_spec() {
    let a = Acc {
        tree: Some(T::Rewrite),
        worktree: Some(W::Rewrite),
        tree_old_path: Some("old-in-head".to_string()),
        worktree_old_path: Some("old-in-index".to_string()),
    };
    assert_eq!(a.old_path(&DiffSpec::StagedVsHead).unwrap(), "old-in-head");
    assert_eq!(a.old_path(&DiffSpec::WorktreeVsIndex).unwrap(), "old-in-index");
    assert_eq!(a.old_path(&DiffSpec::WorktreeVsHead).unwrap(), "old-in-head");

    let only_worktree = Acc {
        worktree: Some(W::Rewrite),
        worktree_old_path: Some("old-in-index".to_string()),
        ..Acc::default()
    };
    assert_eq!(only_worktree.old_path(&DiffSpec::WorktreeVsHead).unwrap(), "old-in-index");
}

#[test]
fn changes_are_listed_in_path_order_without_unchanged_paths() {
    let entries = vec![
        ("src/b.rs".to_string(), acc(Some(T::Modification), None)),
        ("a.txt".to_string(), acc(None, Some(W::Untracked))),
        ("src/a.rs".to_string(), acc(None, None)),
        ("src/a/x.rs".to_string(), acc(Some(T::Addition), None)),
    ];
    let set = changes_from(&entries, &DiffSpec::WorktreeVsHead);
    let got: Vec<(String, ChangeKind)> = set.files.iter().map(|c| (c.path.clone(), c.kind)).collect();
    assert_eq!(
        got,
        vec![
            ("a.txt".to_string(), ChangeKind::Untracked),
            ("src/a/x.rs".to_string(), ChangeKind::Added),
            ("src/b.rs".to_string(), ChangeKind::Modified),
        ]
    );
}

#[test]
fn range_specs_parse_and_label() {
    match DiffSpec::parse_range("main..feature") {
        Ok(DiffSpec::Range { from, to }) => {
            assert_eq!(from, "main");
            assert_eq!(to, "feature");
        },
        _ => panic!("a range was refused"),
    }
    match DiffSpec::parse_range("  main ") {
        Ok(DiffSpec::Range { from, to }) => {
            assert_eq!(from, "main");
            assert_eq!(to, "HEAD");
        },
        _ => panic!("a single ref was refused"),
    }
    assert!(DiffSpec::parse_range("   ").is_err());
    assert!(DiffSpec::parse_range("a...b").is_err());
    assert_eq!(DiffSpec::parse_range("..x").ok(), Some(DiffSpec::Range { from: "HEAD".to_string(), to: "x".to_string() }));
    assert_eq!(DiffSpec::WorktreeVsHead.next(), DiffSpec::StagedVsHead);
}

#[test]
fn watched_paths_are_below_the_root_and_outside_git() {
    assert_eq!(watched_rel("/repo", "/repo/src/main.rs"), Some("src/main.rs".to_string()));
    assert_eq!(watched_rel("/repo/", "/repo/src"), Some("src".to_string()));
    assert_eq!(watched_rel("/repo", "/repo"), Some(String::new()));
    assert_eq!(watched_rel("/repo", "/repository/a"), None);
    assert_eq!(watched_rel("/repo", "/tmp/other"), None);
    assert_eq!(watched_rel("/repo", "/repo/.git/index"), None);
    assert_eq!(watched_rel("/repo", "/repo/sub/.git"), None);
    assert_eq!(watched_rel("/repo", "/repo/.github/ci.yml"), Some(".github/ci.yml".to_string()));
    assert_eq!(watched_rel("/repo", "/repo/x.git/y"), Some("x.git/y".to_string()));
}
