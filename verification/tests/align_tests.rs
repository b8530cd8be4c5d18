use tdv::align::align;
use tdv::lines::{AlignedDiff, Cell, LineTable, RowKind};
use tdv::changes::{ChangeKind, FileChange};
use tdv::lines::{HunkAnchor, RowPair};
use tdv::state::{DiffView, DisplayRow};

fn table(s: &str) -> LineTable {
    LineTable::new(s.as_bytes().to_vec())
}

fn aligned(old: &str, new: &str) -> AlignedDiff {
    align(table(old), table(new))
}

/// One side rebuilt from the rows.
fn reconstruct(d: &AlignedDiff, left: bool) -> Vec<String> {
    d.rows
        .iter()
        .filter_map(|r| {
            let (cell, t) = if left { (r.left, &d.old) } else { (r.right, &d.new) };
            cell.line().map(|i| String::from_utf8_lossy(t.line(i)).into_owned())
        })
        .collect()
}

fn lines_of(s: &str) -> Vec<String> {
    let t = table(s);
    t.iter_lines().iter().map(|l| String::from_utf8_lossy(l).into_owned()).collect()
}

fn assert_invariants(old: &str, new: &str) {
    let d = aligned(old, new);
    assert_eq!(reconstruct(&d, true), lines_of(old), "left side");
    assert_eq!(reconstruct(&d, false), lines_of(new), "right side");
    for r in &d.rows {
        if r.kind == RowKind::Context {
            let (l, rr) = (r.left.line().unwrap(), r.right.line().unwrap());
            assert_eq!(d.old.line(l), d.new.line(rr), "context rows differ");
        }
    }
    let mut prev_end = 0;
    for h in &d.hunks {
        assert!(h.start >= prev_end, "hunks overlap or go backwards");
        assert!(h.start < h.end);
        prev_end = h.end;
    }
}

#[test]
fn context_only_when_identical() {
    let d = aligned("a\nb\nc\n", "a\nb\nc\n");
    assert_eq!(d.rows.len(), 3);
    assert!(d.rows.iter().all(|r| r.kind == RowKind::Context));
    assert!(d.hunks.is_empty());
}

#[test]
fn keeps_all_context_lines_outside_hunks() {
    let old = "1\n2\n3\n4\n5\n6\n7\n8\n9\n10\n";
    let new = "1\n2\n3\n4\nX\n6\n7\n8\n9\n10\n";
    let d = aligned(old, new);
    assert_eq!(d.rows.len(), 10);
    assert_eq!(d.hunks.len(), 1);
    assert_invariants(old, new);
}

#[test]
fn pure_addition_pads_left() {
    let d = aligned("a\n", "a\nb\nc\n");
    assert_eq!(d.rows.len(), 3);
    assert_eq!(d.rows[1].kind, RowKind::Added);
    assert_eq!(d.rows[1].left, Cell::Pad);
    assert_eq!(d.stat.added, 2);
    assert_eq!(d.stat.removed, 0);
}

#[test]
fn pure_deletion_pads_right() {
    let d = aligned("a\nb\nc\n", "a\n");
    assert_eq!(d.rows.len(), 3);
    assert_eq!(d.rows[1].kind, RowKind::Removed);
    assert_eq!(d.rows[1].right, Cell::Pad);
    assert_eq!(d.stat.removed, 2);
}

#[test]
fn similar_lines_pair_into_changed_row() {
    let d = aligned("let x = 1;\n", "let x = 2;\n");
    assert_eq!(d.rows.len(), 1);
    assert_eq!(d.rows[0].kind, RowKind::Changed);
}

#[test]
fn single_line_replacement_always_pairs() {
    let d = aligned("fn main() {}\n", "struct Foo;\n");
    assert_eq!(d.rows.len(), 1);
    assert_eq!(d.rows[0].kind, RowKind::Changed);
}

#[test]
fn dissimilar_lines_in_multiline_block_split_into_two_rows() {
    let old = "fn main() {}\nlet x = 1;\n";
    let new = "struct Foo;\nlet x = 2;\n";
    let d = aligned(old, new);
    assert_invariants(old, new);
    assert_eq!(d.rows.len(), 3);
    assert_eq!(d.rows[0].kind, RowKind::Removed);
    assert_eq!(d.rows[1].kind, RowKind::Added);
    assert_eq!(d.rows[2].kind, RowKind::Changed);
}

#[test]
fn one_to_three_change() {
    let old = "a\nb\nc\n";
    let new = "a\nb1\nb2\nb3\nc\n";
    let d = aligned(old, new);
    assert_invariants(old, new);
    assert_eq!(d.rows.len(), 5);
}

#[test]
fn empty_old_means_all_added() {
    let d = aligned("", "a\nb\n");
    assert_eq!(d.rows.len(), 2);
    assert!(d.rows.iter().all(|r| r.kind == RowKind::Added));
}

#[test]
fn invariants_hold_for_various_inputs() {
    let cases = [
        ("", ""),
        ("a\n", ""),
        ("", "a\n"),
        ("a\nb\nc\n", "c\nb\na\n"),
        ("x\n", "x"),
        ("head\nmid\ntail\n", "head\ntail\n"),
        ("a\n\n\nb\n", "a\nb\n"),
        ("日本語\nコメント\n", "日本語\n変更\n"),
    ];
    for (old, new) in cases {
        assert_invariants(old, new);
    }
}

#[test]
fn missing_trailing_newline_is_tracked() {
    let t = table("a\nb");
    assert_eq!(t.len(), 2);
    assert!(t.is_last_without_newline(1));
}

#[test]
fn crlf_is_visible_in_diff_but_stripped_for_display() {
    let t = table("a\r\n");
    assert!(t.has_cr(0));
    assert_eq!(t.line_display(0), b"a");
    assert_eq!(t.line(0), b"a\r");
    let d = aligned("a\n", "a\r\n");
    assert_eq!(d.hunks.len(), 1);
}

#[test]
fn hunks_cover_exactly_the_changed_rows() {
    let d = aligned("a\nb\nc\nd\ne\n", "a\nB\nc\nd\nE\nf\n");
    for (i, r) in d.rows.iter().enumerate() {
        let inside = d.hunks.iter().any(|h| (h.start as usize) <= i && i < h.end as usize);
        assert_eq!(inside, r.kind != RowKind::Context, "row {i}");
    }
    assert_eq!(d.hunks.len(), 2);
}

#[test]
fn stat_counts_each_side() {
    let d = aligned("a\nb\nc\n", "a\nx\ny\nc\n");
    assert_eq!(d.stat.removed, 1);
    assert_eq!(d.stat.added, 2);
}

#[test]
fn hunk_lookup_finds_neighbours() {
    let d = aligned("1\n2\n3\n4\n5\n6\n7\n8\n", "1\nX\n3\n4\n5\n6\nY\n8\n");
    assert_eq!(d.hunks.len(), 2);
    assert_eq!(d.next_hunk_index(0), Some(0));
    assert_eq!(d.next_hunk_index(1), Some(1));
    assert_eq!(d.next_hunk_index(6), None);
    assert_eq!(d.prev_hunk_index(7), Some(1));
    assert_eq!(d.prev_hunk_index(6), Some(0));
    assert_eq!(d.prev_hunk_index(1), None);
    assert_eq!(d.hunk_index_at(6), Some(1));
    assert_eq!(d.hunk_index_at(3), None);
}

#[test]
fn a_view_folds_a_diff_whatever_its_tables_hold() {
    let rows: Vec<RowPair> = (0..8u32)
        .map(|i| RowPair { left: Cell::Line(i), right: Cell::Line(i), kind: if i == 3 { RowKind::Changed } else { RowKind::Context } })
        .collect();
    let change = FileChange { path: "a.txt".to_string(), old_path: None, kind: ChangeKind::Modified, index_kind: None, worktree_kind: None };
    let diff = AlignedDiff { rows, hunks: vec![HunkAnchor { start: 3, end: 4 }], ..AlignedDiff::default() };
    let view = DiffView::new(change.clone(), diff, true, 2);
    assert_eq!(
        view.display,
        vec![
            DisplayRow::Row(0),
            DisplayRow::Row(1),
            DisplayRow::Row(2),
            DisplayRow::Row(3),
            DisplayRow::Row(4),
            DisplayRow::Row(5),
            DisplayRow::Gap { start: 6, count: 2 },
        ]
    );
    assert_eq!(view.offset, 0);
    assert_eq!(view.hscroll, 0);
    assert_eq!(view.hunk_cursor, None);
    for i in 0..view.display.len() {
        assert_eq!(view.display_index_of_row(view.row_at_display(i)), i);
        if i > 0 {
            assert!(view.row_at_display(i - 1) < view.row_at_display(i));
        }
    }
    let rows: Vec<RowPair> = (0..8u32).map(|i| RowPair { left: Cell::Line(i), right: Cell::Line(i), kind: RowKind::Context }).collect();
    let flat = DiffView::new(change, AlignedDiff { rows, ..AlignedDiff::default() }, false, 2);
    assert!(flat.display.is_empty());
    assert_eq!(flat.display_len(), 8);
}

#[test]
fn context_rows_are_exactly_those_outside_the_hunks() {
    for (old, new) in [("a\nb\nc\n", "c\nb\na\n"), ("head\nmid\ntail\n", "head\ntail\n"), ("a\n\n\nb\n", "a\nb\n"), ("x\n", "x")] {
        let d = align(LineTable::new(old.as_bytes().to_vec()), LineTable::new(new.as_bytes().to_vec()));
        for (x, row) in d.rows.iter().enumerate() {
            let covered = d.hunks.iter().any(|h| (h.start as usize) <= x && x < h.end as usize);
            assert_eq!(row.kind == RowKind::Context, !covered, "{old:?} {new:?} row {x}");
        }
        let removed = d.rows.iter().filter(|r| r.kind != RowKind::Context && matches!(r.left, Cell::Line(_))).count();
        let added = d.rows.iter().filter(|r| r.kind != RowKind::Context && matches!(r.right, Cell::Line(_))).count();
        assert_eq!(d.stat.removed as usize, removed);
        assert_eq!(d.stat.added as usize, added);
    }
}

#[test]
fn lines_join_back_into_the_file() {
    for text in ["", "a", "a\n", "a\nb", "a\r\nb\n", "\n\n", "x\n\ny"] {
        let t = LineTable::new(text.as_bytes().to_vec());
        let newlines = text.bytes().filter(|b| *b == b'\n').count();
        let extra = if !text.is_empty() && !text.ends_with('\n') { 1 } else { 0 };
        assert_eq!(t.len(), newlines + extra, "{text:?}");
        let mut joined: Vec<u8> = Vec::new();
        for i in 0..t.len() {
            assert!(!t.line(i as u32).contains(&b'\n'));
            if i > 0 {
                joined.push(b'\n');
            }
            joined.extend_from_slice(t.line(i as u32));
        }
        if text.ends_with('\n') {
            joined.push(b'\n');
        }
        assert_eq!(joined, text.as_bytes(), "{text:?}");
    }
}
