use tdv::tree::{Node, TreeModel};

fn build() -> TreeModel {
    let mut t = TreeModel::new();
    let src = t.push_child(
        TreeModel::ROOT,
        Node::dir("src".to_string(), "src".to_string(), 0, Some(0)),
    );
    t.push_child(
        src,
        Node::file("main.rs".to_string(), "src/main.rs".to_string(), 1, Some(src)),
    );
    t.push_child(
        TreeModel::ROOT,
        Node::file("Cargo.toml".to_string(), "Cargo.toml".to_string(), 0, Some(0)),
    );
    t
}

fn names(t: &mut TreeModel) -> Vec<String> {
    let ids = t.visible().to_vec();
    ids.iter().map(|id| t.node(*id).name.clone()).collect()
}

#[test]
fn collapsed_directory_hides_children() {
    let mut t = build();
    assert_eq!(t.visible_len(), 2);
}

#[test]
fn expanding_reveals_children_in_order() {
    let mut t = build();
    let src = t.find_by_path("src").unwrap();
    t.expand(src);
    assert_eq!(names(&mut t), vec!["src", "main.rs", "Cargo.toml"]);
}

#[test]
fn reveal_expands_ancestors() {
    let mut t = build();
    let file = t.find_by_path("src/main.rs").unwrap();
    t.reveal_node(file);
    assert_eq!(t.selected_node().unwrap().name, "main.rs");
}

#[test]
fn selection_is_clamped() {
    let mut t = build();
    t.move_selection(100);
    assert_eq!(t.selected_index(), 1);
    t.move_selection(-100);
    assert_eq!(t.selected_index(), 0);
}

#[test]
fn scroll_follows_selection() {
    let mut t = build();
    t.select_last();
    t.scroll_into_view(1);
    assert_eq!(t.offset(), 1);
    t.select_first();
    t.scroll_into_view(1);
    assert_eq!(t.offset(), 0);
}

#[test]
fn collapsing_hides_the_children_again() {
    let mut t = build();
    let src = t.find_by_path("src").unwrap();
    t.toggle(src);
    assert_eq!(t.visible_len(), 3);
    t.toggle(src);
    assert_eq!(t.visible_len(), 2);
}

#[test]
fn filter_keeps_ancestors_of_matches() {
    let mut t = build();
    t.set_filter(Some("MAIN".to_string()));
    assert_eq!(names(&mut t), vec!["src", "main.rs"]);
    t.set_filter(None);
    assert_eq!(names(&mut t), vec!["src", "Cargo.toml"]);
}

#[test]
fn window_keeps_the_selection_visible() {
    let mut t = build();
    let src = t.find_by_path("src").unwrap();
    t.expand(src);
    t.select_last();
    t.scroll_into_view(2);
    assert_eq!(t.selected_index(), 2);
    assert_eq!(t.offset(), 1);
}

#[test]
fn parent_and_paths_are_found() {
    let t = build();
    let file = t.find_by_path("src/main.rs").unwrap();
    let src = t.find_by_path("src").unwrap();
    assert_eq!(t.parent_of(file), Some(src));
    assert_eq!(t.parent_of(src), None);
    assert_eq!(t.find_by_path("nowhere"), None);
}

#[test]
fn loading_children_marks_the_directory() {
    let mut t = build();
    let src = t.find_by_path("src").unwrap();
    assert!(t.children_loaded(src));
    let empty = t.push_child(TreeModel::ROOT, Node::dir("empty".to_string(), "empty".to_string(), 0, Some(0)));
    assert!(!t.children_loaded(empty));
    t.mark_loaded(empty);
    assert!(t.children_loaded(empty));
    assert_eq!(t.children_count(empty), 0);
}

#[test]
fn expanded_paths_leave_out_the_root() {
    let mut t = build();
    let src = t.find_by_path("src").unwrap();
    t.expand(src);
    assert_eq!(t.expanded_dir_paths(), vec!["src".to_string()]);
}

#[test]
fn the_empty_path_finds_the_root() {
    let t = TreeModel::new();
    assert_eq!(t.find_by_path(""), Some(TreeModel::ROOT));
}
