use tdv::changes::Side;
use tdv::layout::{marker, number_text, side_cells, unified_sides, SideCells};
use tdv::lines::{Cell, LineTable, RowKind, RowPair};
use tdv::text::TextOpts;

fn table(s: &str) -> LineTable {
    LineTable::new(s.as_bytes().to_vec())
}

#[test]
fn numbers_are_right_aligned() {
    assert_eq!(number_text(7, 3), "  7");
    assert_eq!(number_text(1234, 3), "1234");
    assert_eq!(number_text(0, 0), "0");
    assert_eq!(number_text(10, 2), "10");
}

#[test]
fn markers_follow_the_row_kind() {
    assert_eq!(marker(RowKind::Changed, Side::Old), '-');
    assert_eq!(marker(RowKind::Changed, Side::New), '+');
    assert_eq!(marker(RowKind::Added, Side::Old), ' ');
    assert_eq!(marker(RowKind::Removed, Side::Old), '-');
    assert_eq!(marker(RowKind::Context, Side::New), ' ');
}

#[test]
fn unified_view_shows_old_before_new() {
    assert_eq!(unified_sides(RowKind::Changed), vec![Side::Old, Side::New]);
    assert_eq!(unified_sides(RowKind::Added), vec![Side::New]);
    assert_eq!(unified_sides(RowKind::Context), vec![Side::Old]);
}

#[test]
fn changed_side_is_filled_to_the_column_end() {
    let t = table("ab\r\ncd");
    let pair = RowPair { left: Cell::Line(0), right: Cell::Pad, kind: RowKind::Removed };
    match side_cells(&t, "ab", pair, Side::Old, &[], 3, 12, 0, TextOpts::default()) {
        SideCells::Line { number, marker, changed, segments, suffix, fill } => {
            assert_eq!(number, "  1");
            assert_eq!(marker, '-');
            assert!(changed);
            assert_eq!(segments, vec![("ab".to_string(), false)]);
            assert_eq!(suffix, "␍");
            // 12 columns less 5 for the gutter, 2 for the text, 1 for the mark.
            assert_eq!(fill, 4);
        },
        other => panic!("{other:?}"),
    }
    match side_cells(&t, "", pair, Side::New, &[], 3, 12, 0, TextOpts::default()) {
        SideCells::Pad { width } => assert_eq!(width, 12),
        other => panic!("{other:?}"),
    }
}

#[test]
fn context_side_is_not_filled_and_marks_a_missing_newline() {
    let t = table("ab\r\ncd");
    let pair = RowPair { left: Cell::Line(1), right: Cell::Line(1), kind: RowKind::Context };
    match side_cells(&t, "cd", pair, Side::New, &[0..1], 3, 12, 0, TextOpts::default()) {
        SideCells::Line { marker, changed, segments, suffix, fill, .. } => {
            assert_eq!(marker, ' ');
            assert!(!changed);
            assert_eq!(segments, vec![("c".to_string(), true), ("d".to_string(), false)]);
            assert_eq!(suffix, "¬");
            assert_eq!(fill, 0);
        },
        other => panic!("{other:?}"),
    }
}
