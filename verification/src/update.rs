//! How the application's state answers an action or a finished job.
use vstd::prelude::*;
use crate::app::{App, change_tree_rebuilt, changes_fit, content_request, file_requested, next_gen};
use crate::changes::FileChange;
use crate::paths::join_of;
use crate::task::{Content, TaskRequest, TaskResult, diff_fits};
use crate::app::fits_change_tree;
use crate::results::{diff_taken, dir_taken, highlight_taken, on_diff, on_dir, on_highlight, on_status, on_text, status_taken,
    text_taken};
use crate::tree::{Node, expanded_paths, synced_from, with_expanded};
use crate::keys::Action;
use crate::lines::HunkAnchor;
use crate::state::{sat_sub, ChangeSort, InputKind, SearchState, hit_key, hit_lt, ranges_for, ContentState, DiffView, DisplayRow, Focus, Mode, Overlay, TextView, anchor_spec, shows_at_or_after,
    spec_display};
use crate::tree::{TreeModel, clamp_sel, selected_of};
use crate::strs::{chars_of, lowercase, push_char, string_of};
use vstd::slice::slice_subrange;
use vstd::utf8::encode_utf8;
use crate::search::{content_hits, content_matches};

verus! {

/// The rows of what the content pane shows.
pub open spec fn content_len_of(c: ContentState) -> int {
    match c {
        ContentState::Text(v) => v.table.lines().len() as int,
        ContentState::Diff(v) => if v.folded { v.display@.len() as int } else { v.diff.rows@.len() as int },
        _ => 0,
    }
}

/// The rows a scroll page moves: the pane's height, at least one.
pub open spec fn page(h: usize) -> int {
    if h > 0 { h as int } else { 1 }
}

/// The last scroll offset that still fills the pane.
pub open spec fn offset_cap(a: App) -> int {
    let d = content_len_of(a.content) - page(a.content_height);
    if d > 0 { d } else { 0 }
}

/// The content with its scroll offset set to `o`; a manual scroll of a
/// diff forgets the hunk last jumped to.
pub open spec fn with_offset(c: ContentState, o: usize) -> ContentState {
    match c {
        ContentState::Text(v) => ContentState::Text(TextView { offset: o, ..v }),
        ContentState::Diff(v) => ContentState::Diff(DiffView { offset: o, hunk_cursor: None, ..v }),
        other => other,
    }
}

/// The content's scroll offset, if it scrolls.
pub open spec fn offset_of(c: ContentState) -> Option<usize> {
    match c {
        ContentState::Text(v) => Some(v.offset),
        ContentState::Diff(v) => Some(v.offset),
        _ => None,
    }
}

pub open spec fn min_int(a: int, b: int) -> int {
    if a < b { a } else { b }
}

/// `x` kept inside `lo..=hi`.
pub open spec fn clamp_int(x: int, lo: int, hi: int) -> int {
    if x < lo { lo } else if x > hi { hi } else { x }
}

/// The number of rows of what the content pane shows.
pub fn content_len(app: &App) -> (n: usize)
    requires
        app.wf(),
    ensures
        n == content_len_of(app.content),
{
    match &app.content {
        ContentState::Text(v) => v.table.len(),
        ContentState::Diff(v) => v.display_len(),
        _ => 0,
    }
}

/// What scrolling the content pane to `value` does, from `a` to `b`.
pub open spec fn offset_set(a: App, b: App, value: usize) -> bool {
    &&& (b == (App {
        content: with_offset(a.content, min_int(value as int, offset_cap(a)) as usize),
        ..a
    }))
}

/// Scrolls the content pane to `value`, no further than its last full page.
pub fn set_offset(app: &mut App, value: usize)
    requires
        old(app).wf(),
    ensures
        final(app).wf(),
        offset_set(*old(app), *final(app), value),
{
    let len = content_len(app);
    let h = if app.content_height > 0 { app.content_height } else { 1 };
    let max = if len > h { len - h } else { 0 };
    let value = if value < max { value } else { max };
    let mut content = ContentState::Empty;
    std::mem::swap(&mut content, &mut app.content);
    let content = match content {
        ContentState::Text(v) => ContentState::Text(TextView { offset: value, ..v }),
        ContentState::Diff(v) => ContentState::Diff(DiffView { offset: value, hunk_cursor: None, ..v }),
        other => other,
    };
    app.content = content;
}

/// What scrolling the content pane by `delta` rows does, from `a` to `b`.
pub open spec fn scrolled(a: App, b: App, delta: isize) -> bool {
    &&& (offset_of(a.content) is None ==> b == a)
    &&& (offset_of(a.content) matches Some(cur) ==> b == (App {
        content: with_offset(a.content,
            min_int(clamp_int(cur + delta, 0, usize::MAX as int), offset_cap(a)) as usize),
        ..a
    }))
}

/// Scrolls the content pane by `delta` rows.
pub fn scroll(app: &mut App, delta: isize)
    requires
        old(app).wf(),
    ensures
        final(app).wf(),
        scrolled(*old(app), *final(app), delta),
{
    let current = match &app.content {
        ContentState::Text(v) => v.offset,
        ContentState::Diff(v) => v.offset,
        _ => {
            return;
        },
    };
    let next: i128 = current as i128 + delta as i128;
    let next = if next < 0 { 0 } else if next > usize::MAX as i128 { usize::MAX } else { next as usize };
    set_offset(app, next);
}

/// What scrolling the content pane sideways by `delta` does, from `a` to `b`.
pub open spec fn hscrolled(a: App, b: App, delta: isize) -> bool {
    &&& (b == (App { content: b.content, ..a }))
    &&& (match a.content {
        ContentState::Text(v) => b.content == ContentState::Text(
            TextView { hscroll: clamp_int(v.hscroll + delta, 0, usize::MAX as int) as usize, ..v }),
        ContentState::Diff(v) => b.content == ContentState::Diff(
            DiffView { hscroll: clamp_int(v.hscroll + delta, 0, usize::MAX as int) as usize, ..v }),
        _ => b.content == a.content,
    })
}

/// Scrolls the content pane sideways by `delta` columns, not left of the start.
pub fn hscroll(app: &mut App, delta: isize)
    requires
        old(app).wf(),
    ensures
        final(app).wf(),
        hscrolled(*old(app), *final(app), delta),
{
    let mut content = ContentState::Empty;
    std::mem::swap(&mut content, &mut app.content);
    let content = match content {
        ContentState::Text(v) => {
            let next: i128 = v.hscroll as i128 + delta as i128;
            let h = if next < 0 { 0 } else if next > usize::MAX as i128 { usize::MAX } else { next as usize };
            ContentState::Text(TextView { hscroll: h, ..v })
        },
        ContentState::Diff(v) => {
            let next: i128 = v.hscroll as i128 + delta as i128;
            let h = if next < 0 { 0 } else if next > usize::MAX as i128 { usize::MAX } else { next as usize };
            ContentState::Diff(DiffView { hscroll: h, ..v })
        },
        other => other,
    };
    app.content = content;
}

/// `r` is the first hunk that starts after `row`.
pub open spec fn next_hunk_is(hunks: Seq<HunkAnchor>, row: int, r: Option<usize>) -> bool {
    match r {
        Some(h) => h < hunks.len() && hunks[h as int].start > row && forall|k: int| 0 <= k < h ==> hunks[k].start <= row,
        None => forall|k: int| 0 <= k < hunks.len() ==> hunks[k].start <= row,
    }
}

/// `r` is the last hunk that starts before `row`.
pub open spec fn prev_hunk_is(hunks: Seq<HunkAnchor>, row: int, r: Option<usize>) -> bool {
    match r {
        Some(h) => h < hunks.len() && hunks[h as int].start < row && forall|k: int| h < k < hunks.len() ==> hunks[k].start >= row,
        None => forall|k: int| 0 <= k < hunks.len() ==> hunks[k].start >= row,
    }
}

/// The hunk a jump goes to: the one after (or before) the hunk last jumped
/// to, or, when the view was scrolled since, the first after (or last
/// before) the anchor row.
pub open spec fn jump_target(v: DiffView, forward: bool, height: int, t: Option<usize>) -> bool {
    match v.hunk_cursor {
        Some(c) => t == if forward {
            if c + 1 < v.diff.hunks@.len() { Some((c + 1) as usize) } else { None::<usize> }
        } else {
            if c > 0 { Some((c - 1) as usize) } else { None::<usize> }
        },
        None => if forward {
            next_hunk_is(v.diff.hunks@, anchor_spec(v, height) as int, t)
        } else {
            prev_hunk_is(v.diff.hunks@, anchor_spec(v, height) as int, t)
        },
    }
}

/// `i` is the display index that shows diff row `row`.
pub open spec fn index_of_row_is(v: DiffView, row: int, i: int) -> bool {
    if !v.folded {
        i == row
    } else if exists|k: int| 0 <= k < v.display@.len() && shows_at_or_after(#[trigger] v.display@[k], row) {
        &&& 0 <= i < v.display@.len()
        &&& shows_at_or_after(v.display@[i], row)
        &&& forall|k: int| 0 <= k < i ==> !shows_at_or_after(#[trigger] v.display@[k], row)
    } else {
        i == if v.display@.len() > 0 { v.display@.len() - 1 } else { 0 }
    }
}

/// The number of display rows of a diff view.
pub open spec fn display_len_of(v: DiffView) -> int {
    if v.folded { v.display@.len() as int } else { v.diff.rows@.len() as int }
}

/// The offset that puts display index `i` a quarter of the window from the
/// top, no further than the last full page.
pub open spec fn jump_offset(i: int, height: int, len: int) -> int {
    let a = if i > height / 4 { i - height / 4 } else { 0 };
    let m = if len > height { len - height } else { 0 };
    if a < m { a } else { m }
}

/// What a hunk jump does, from `a` to `b`.
pub open spec fn jump_done(a: App, b: App, forward: bool) -> bool {
    let height = page(a.content_height);
    match a.content {
        ContentState::Diff(v) => exists|t: Option<usize>| #[trigger] jump_target(v, forward, height, t) && match t {
            None => {
                &&& b == (App { notice: b.notice, ..a })
                &&& b.notice matches Some(n) && n@ == if forward { "これ以降に変更箇所はない"@ } else { "これ以前に変更箇所はない"@ }
            },
            Some(k) => exists|i: int| #[trigger] index_of_row_is(v, v.diff.hunks@[k as int].start as int, i) && b == (App {
                content: ContentState::Diff(DiffView {
                    offset: jump_offset(i, height, display_len_of(v)) as usize,
                    hunk_cursor: Some(k),
                    ..v
                }),
                ..a
            }),
        },
        _ => b == a,
    }
}

/// Jumps to the next (or previous) hunk of the diff shown.
pub fn jump_hunk(app: &mut App, forward: bool)
    requires
        old(app).wf(),
    ensures
        final(app).wf(),
        jump_done(*old(app), *final(app), forward),
{
    let height = if app.content_height > 0 { app.content_height } else { 1 };
    let mut content = ContentState::Empty;
    std::mem::swap(&mut content, &mut app.content);
    match content {
        ContentState::Diff(mut view) => {
            let ghost v0 = view;
            assert(view.wf());
            let n_hunks = view.diff.hunks.len();
            let target = match view.hunk_cursor {
                Some(c) => if forward {
                    if c + 1 < n_hunks { Some(c + 1) } else { None }
                } else {
                    if c > 0 { Some(c - 1) } else { None }
                },
                None => {
                    let current = view.anchor_row(height) as usize;
                    if forward {
                        view.diff.next_hunk_index(current)
                    } else {
                        view.diff.prev_hunk_index(current)
                    }
                },
            };
            assert(jump_target(v0, forward, height as int, target));
            match target {
                None => {
                    app.content = ContentState::Diff(view);
                    app.notice = Some(if forward {
                        String::from_str("これ以降に変更箇所はない")
                    } else {
                        String::from_str("これ以前に変更箇所はない")
                    });
                },
                Some(k) => {
                    let row = view.diff.hunks[k].start;
                    let index = view.display_index_of_row(row);
                    assert(index_of_row_is(v0, row as int, index as int));
                    let quarter = height / 4;
                    let start = if index > quarter { index - quarter } else { 0 };
                    let len = view.display_len();
                    let max = if len > height { len - height } else { 0 };
                    view.offset = if start < max { start } else { max };
                    view.hunk_cursor = Some(k);
                    app.content = ContentState::Diff(view);
                },
            }
        },
        other => {
            app.content = other;
        },
    }
}

/// `v` folded the other way, with the display `d`.
pub open spec fn refolded(v: DiffView, d: Vec<DisplayRow>) -> DiffView {
    DiffView { folded: !v.folded, display: d, ..v }
}

/// What folding or unfolding the diff shown does, from `a` to `b`.
pub open spec fn fold_toggled(a: App, b: App) -> bool {
    &&& (match a.content {
        ContentState::Diff(v) => exists|i: int| #[trigger] index_of_row_is(
            refolded(v, b.content->Diff_0.display),
            crate::state::row_at_spec(v, v.offset as int) as int, i) && {
            &&& b == (App { content: b.content, ..a })
            &&& b.content == ContentState::Diff(DiffView {
                folded: !v.folded,
                display: b.content->Diff_0.display,
                offset: i as usize,
                ..v
            })
            &&& b.content->Diff_0.display@ == spec_display(v.diff, !v.folded, a.cfg.fold_context as int, v.expanded_gaps@)
        },
        _ => b == a,
    })
}

/// Folds or unfolds the diff shown, keeping the same row at the top.
pub fn toggle_fold(app: &mut App)
    requires
        old(app).wf(),
    ensures
        final(app).wf(),
        fold_toggled(*old(app), *final(app)),
{
    let context = app.cfg.fold_context;
    let mut content = ContentState::Empty;
    std::mem::swap(&mut content, &mut app.content);
    match content {
        ContentState::Diff(mut view) => {
            let ghost v0 = view;
            let anchor = view.row_at_display(view.offset);
            view.folded = !view.folded;
            view.rebuild_display(context);
            let ghost mid = view;
            view.offset = view.display_index_of_row(anchor);
            assert(index_of_row_is(mid, anchor as int, view.offset as int));
            app.content = ContentState::Diff(view);
        },
        other => {
            app.content = other;
        },
    }
}

/// What opening the fold under the top row does, from `a` to `b`.
pub open spec fn gap_expanded(a: App, b: App) -> bool {
    &&& (b == (App { content: b.content, ..a }))
    &&& (match a.content {
        ContentState::Diff(v) => if v.folded && 0 <= v.offset < v.display@.len()
            && v.display@[v.offset as int] is Gap {
            let start = v.display@[v.offset as int]->start;
            let gaps = if v.expanded_gaps@.contains(start) { v.expanded_gaps@ } else { v.expanded_gaps@.push(start) };
            b.content matches ContentState::Diff(w) && {
                &&& w == (DiffView { display: w.display, expanded_gaps: w.expanded_gaps, offset: w.offset, ..v })
                &&& w.expanded_gaps@ == gaps
                &&& w.display@ == spec_display(v.diff, true, a.cfg.fold_context as int, gaps)
                &&& index_of_row_is(w, start as int, w.offset as int)
            }
        } else {
            b.content == a.content
        },
        _ => b.content == a.content,
    })
}

/// Opens the fold under the top row of a folded diff, if it is a gap.
pub fn expand_gap(app: &mut App)
    requires
        old(app).wf(),
    ensures
        final(app).wf(),
        gap_expanded(*old(app), *final(app)),
{
    let context = app.cfg.fold_context;
    let mut content = ContentState::Empty;
    std::mem::swap(&mut content, &mut app.content);
    match content {
        ContentState::Diff(mut view) => {
            if view.folded {
                match view.display_row(view.offset) {
                    Some(DisplayRow::Gap { start, .. }) => {
                        if !crate::state::contains_u32(&view.expanded_gaps, start) {
                            view.expanded_gaps.push(start);
                        }
                        view.rebuild_display(context);
                        view.offset = view.display_index_of_row(start);
                    },
                    _ => {},
                }
            }
            app.content = ContentState::Diff(view);
        },
        other => {
            app.content = other;
        },
    }
}

/// `b` is `a` with its current tree related to `a`'s by `rel`, nothing else changed.
pub open spec fn tree_step(a: App, b: App, rel: spec_fn(TreeModel, TreeModel) -> bool) -> bool {
    &&& b == (App { fs_tree: b.fs_tree, change_tree: b.change_tree, ..a })
    &&& match a.mode {
        Mode::Tree => rel(a.fs_tree, b.fs_tree) && b.change_tree == a.change_tree,
        Mode::Diff => rel(a.change_tree, b.change_tree) && b.fs_tree == a.fs_tree,
    }
}

/// The current tree's rows brought up to date.
pub open spec fn synced_step(a: App, b: App) -> bool {
    tree_step(a, b, |x: TreeModel, y: TreeModel| synced_from(x, y))
}

/// A directory of the current tree opened, closed or flipped.
pub open spec fn dir_step(a: App, b: App, id: int, to: Option<bool>) -> bool {
    tree_step(a, b, |x: TreeModel, y: TreeModel| dir_set(x, y, id, to))
}

/// The current tree's selection put on node `id`.
pub open spec fn select_step(a: App, b: App, id: u32) -> bool {
    tree_step(a, b, |x: TreeModel, y: TreeModel| node_selected(x, y, id))
}

/// `b` is `a` with the selection moved by `delta`, kept inside the rows.
pub open spec fn moved_by(a: TreeModel, b: TreeModel, delta: int) -> bool {
    let len = a.rows().len() as int;
    let s = clamp_sel(a.sel(), len) + delta;
    &&& b.wf()
    &&& b.nodes_v() == a.nodes_v()
    &&& b.filter_v() == a.filter_v()
    &&& b.off() == a.off()
    &&& b.sel() == if len == 0 { 0 } else if s < 0 { 0 } else if s > len - 1 { len - 1 } else { s }
}

/// `b` is `a` with the selection on the first row (`last`: on the last).
pub open spec fn selected_end(a: TreeModel, b: TreeModel, last: bool) -> bool {
    &&& b.wf()
    &&& b.nodes_v() == a.nodes_v()
    &&& b.filter_v() == a.filter_v()
    &&& b.off() == a.off()
    &&& b.sel() == if last && a.rows().len() > 0 { a.rows().len() - 1 } else { 0 }
}

/// Moves the current tree's selection by `delta` rows.
fn tree_move(app: &mut App, delta: isize)
    requires
        old(app).wf(),
    ensures
        final(app).wf(),
        tree_step(*old(app), *final(app), |x: TreeModel, y: TreeModel| moved_by(x, y, delta as int)),
{
    match app.mode {
        Mode::Tree => app.fs_tree.move_selection(delta),
        Mode::Diff => app.change_tree.move_selection(delta),
    }
}

/// Selects the current tree's first row (`last`: its last row).
pub(crate) fn tree_select_end(app: &mut App, last: bool)
    requires
        old(app).wf(),
    ensures
        final(app).wf(),
        tree_step(*old(app), *final(app), |x: TreeModel, y: TreeModel| selected_end(x, y, last)),
{
    match app.mode {
        Mode::Tree => if last { app.fs_tree.select_last() } else { app.fs_tree.select_first() },
        Mode::Diff => if last { app.change_tree.select_last() } else { app.change_tree.select_first() },
    }
}

/// The id on the current tree's selected row, with its rows brought up to date.
fn tree_selected_id(app: &mut App) -> (r: Option<u32>)
    requires
        old(app).wf(),
    ensures
        final(app).wf(),
        synced_step(*old(app), *final(app)),
        r == selected_id_of(old(app).cur_tree()),
        r matches Some(id) ==> id < old(app).cur_tree().nodes_v().len(),
{
    match app.mode {
        Mode::Tree => app.fs_tree.selected_id(),
        Mode::Diff => app.change_tree.selected_id(),
    }
}

/// The id on the selected row of `t`, read at its stored selection.
pub open spec fn selected_id_of(t: TreeModel) -> Option<u32> {
    if t.sel() < t.rows().len() { Some(t.rows()[t.sel()]) } else { None }
}

/// Asks for the children of directory `id` of the file tree, when they are
/// not loaded yet and the file tree is shown.
pub fn load_children_if_needed(app: &mut App, id: u32)
    requires
        old(app).wf(),
        old(app).mode == Mode::Tree ==> id < old(app).fs_tree.nodes_v().len(),
    ensures
        final(app).wf(),
        old(app).mode != Mode::Tree || old(app).fs_tree.nodes_v()[id as int].children is Some ==> *final(app) == *old(app),
        old(app).mode == Mode::Tree && old(app).fs_tree.nodes_v()[id as int].children is None ==> {
            &&& *final(app) == (App { outbox: final(app).outbox, generation: next_gen(old(app).generation), ..*old(app) })
            &&& final(app).outbox@.drop_last() == old(app).outbox@
            &&& final(app).outbox@.len() == old(app).outbox@.len() + 1
            &&& final(app).outbox@.last() matches TaskRequest::ReadDir { generation, node, dir, show_ignored }
                && generation == final(app).generation && node == id
                && dir@ == join_of(old(app).root@, old(app).fs_tree.nodes_v()[id as int].path@)
                && show_ignored == old(app).show_ignored
        },
{
    if app.mode != Mode::Tree || app.fs_tree.children_loaded(id) {
        return;
    }
    let rel = app.fs_tree.node(id).path.clone();
    app.request_dir(id, &rel);
}

/// Reads the file tree anew, remembering which directories were expanded
/// and which path was selected so that they come back as the entries arrive.
pub fn reload_fs_tree(app: &mut App)
    requires
        old(app).wf(),
    ensures
        final(app).wf(),
        *final(app) == (App {
            fs_tree: final(app).fs_tree,
            pending_expand: final(app).pending_expand,
            pending_select: final(app).pending_select,
            outbox: final(app).outbox,
            generation: next_gen(old(app).generation),
            ..*old(app)
        }),
        final(app).pending_expand@.map_values(|p: String| p@) == expanded_paths(old(app).fs_tree.nodes_v()),
        final(app).pending_select == match selected_of(old(app).fs_tree) {
            Some(n) => Some(n.path),
            None => None::<String>,
        },
        final(app).fs_tree.nodes_v().len() == 1 && crate::tree::fresh_root(final(app).fs_tree.nodes_v()[0]),
        final(app).fs_tree.filter_v() is None,
        final(app).fs_tree.sel() == 0 && final(app).fs_tree.off() == 0,
        final(app).outbox@.drop_last() == old(app).outbox@,
        final(app).outbox@.len() == old(app).outbox@.len() + 1,
        final(app).outbox@.last() matches TaskRequest::ReadDir { generation, node, dir, show_ignored }
            && generation == final(app).generation && node == 0 && dir == old(app).root
            && show_ignored == old(app).show_ignored,
{
    app.pending_expand = app.fs_tree.expanded_dir_paths();
    app.pending_select = match app.fs_tree.selected_node() {
        Some(n) => Some(n.path.clone()),
        None => None,
    };
    app.fs_tree.clear();
    app.request_root_dir();
}

/// `b` is `a` with directory `id` expanded (`Some(true)`), collapsed
/// (`Some(false)`) or flipped (`None`); a file stays as it is.
pub open spec fn dir_set(a: TreeModel, b: TreeModel, id: int, to: Option<bool>) -> bool {
    let n = a.nodes_v()[id];
    let e = match to { Some(x) => x, None => !n.expanded };
    &&& b.wf()
    &&& b.nodes_v() == if n.is_dir { a.nodes_v().update(id, with_expanded(n, e)) } else { a.nodes_v() }
    &&& b.filter_v() == a.filter_v()
    &&& b.sel() == a.sel()
    &&& b.off() == a.off()
}

/// Sets the expanded flag of directory `id` of the current tree.
fn tree_set_dir(app: &mut App, id: u32, to: Option<bool>)
    requires
        old(app).wf(),
        id < old(app).cur_tree().nodes_v().len(),
    ensures
        final(app).wf(),
        dir_step(*old(app), *final(app), id as int, to),
{
    match app.mode {
        Mode::Tree => match to {
            Some(true) => app.fs_tree.expand(id),
            Some(false) => app.fs_tree.collapse(id),
            None => app.fs_tree.toggle(id),
        },
        Mode::Diff => match to {
            Some(true) => app.change_tree.expand(id),
            Some(false) => app.change_tree.collapse(id),
            None => app.change_tree.toggle(id),
        },
    }
}

/// What loading the children of `id` does, from `a` to `b`.
pub open spec fn children_asked(a: App, b: App, id: u32) -> bool {
    &&& (a.mode != Mode::Tree || a.fs_tree.nodes_v()[id as int].children is Some ==> b == a)
    &&& (a.mode == Mode::Tree && a.fs_tree.nodes_v()[id as int].children is None ==> {
        &&& b == (App { outbox: b.outbox, generation: next_gen(a.generation), ..a })
        &&& b.outbox@.drop_last() == a.outbox@
        &&& b.outbox@.len() == a.outbox@.len() + 1
        &&& b.outbox@.last() matches TaskRequest::ReadDir { generation, node, dir, show_ignored }
            && generation == b.generation && node == id
            && dir@ == join_of(a.root@, a.fs_tree.nodes_v()[id as int].path@)
            && show_ignored == a.show_ignored
    })
}

/// What opening the selected node does, from `a` to `b`.
pub open spec fn tree_opened(a: App, b: App) -> bool {
    &&& (exists|m: App| #[trigger] synced_step(a, m) && m.wf() && {
        match selected_id_of(a.cur_tree()) {
            None => b == m,
            Some(id) => if a.cur_tree().nodes_v()[id as int].is_dir {
                exists|m2: App| #[trigger] dir_step(m, m2, id as int, Some(true))
                    && children_asked(m2, b, id)
            } else {
                exists|m2: App| #[trigger] content_request(m, m2, selected_of(m.cur_tree()))
                    && b == (App { focus: Focus::Content, ..m2 })
            },
        }
    })
}

/// Opens the selected node: a directory expands (and its children are
/// asked for), a file is shown and the content pane takes the focus.
pub fn tree_open(app: &mut App)
    requires
        old(app).wf(),
    ensures
        final(app).wf(),
        tree_opened(*old(app), *final(app)),
{
    let id = match tree_selected_id(app) {
        Some(id) => id,
        None => {
            return;
        },
    };
    let ghost m = *app;
    let is_dir = match app.mode {
        Mode::Tree => app.fs_tree.node(id).is_dir,
        Mode::Diff => app.change_tree.node(id).is_dir,
    };
    if is_dir {
        tree_set_dir(app, id, Some(true));
        let ghost m2 = *app;
        load_children_if_needed(app, id);
        assert(dir_step(m, m2, id as int, Some(true)));
        assert(children_asked(m2, *app, id));
    } else {
        app.request_content();
        let ghost m2 = *app;
        app.focus = Focus::Content;
        assert(content_request(m, m2, selected_of(m.cur_tree())));
    }
}

/// What closing the selected directory does, from `a` to `b`.
pub open spec fn tree_collapsed(a: App, b: App) -> bool {
    &&& (exists|m: App| #[trigger] synced_step(a, m) && m.wf() && {
        match selected_id_of(a.cur_tree()) {
            None => b == m,
            Some(id) => {
                let n = a.cur_tree().nodes_v()[id as int];
                if n.is_dir && n.expanded {
                    dir_step(m, b, id as int, Some(false))
                } else {
                    match n.parent {
                        Some(p) => if p != 0 {
                            exists|m2: App| #[trigger] select_step(m, m2, p)
                                && content_request(m2, b, selected_of(m2.cur_tree()))
                        } else {
                            b == m
                        },
                        None => b == m,
                    }
                }
            },
        }
    })
}

/// Closes the selected directory; on a file or a closed directory, selects
/// the parent instead and shows it.
pub fn tree_collapse(app: &mut App)
    requires
        old(app).wf(),
    ensures
        final(app).wf(),
        tree_collapsed(*old(app), *final(app)),
{
    let id = match tree_selected_id(app) {
        Some(id) => id,
        None => {
            return;
        },
    };
    let ghost m = *app;
    let (is_dir, expanded, parent) = match app.mode {
        Mode::Tree => {
            let n = app.fs_tree.node(id);
            (n.is_dir, n.expanded, app.fs_tree.parent_of(id))
        },
        Mode::Diff => {
            let n = app.change_tree.node(id);
            (n.is_dir, n.expanded, app.change_tree.parent_of(id))
        },
    };
    if is_dir && expanded {
        tree_set_dir(app, id, Some(false));
    } else {
        match parent {
            Some(p) => {
                match app.mode {
                    Mode::Tree => app.fs_tree.select_node(p),
                    Mode::Diff => app.change_tree.select_node(p),
                }
                let ghost m2 = *app;
                assert(select_step(m, m2, p));
                app.request_content();
            },
            None => {},
        }
    }
}

/// `b` is `a` with the first row that shows `id` selected, if any.
pub open spec fn node_selected(a: TreeModel, b: TreeModel, id: u32) -> bool {
    &&& b.wf()
    &&& b.nodes_v() == a.nodes_v()
    &&& b.filter_v() == a.filter_v()
    &&& b.off() == a.off()
    &&& (a.rows().contains(id) ==> {
        &&& 0 <= b.sel() < a.rows().len()
        &&& a.rows()[b.sel()] == id
        &&& forall|j: int| 0 <= j < b.sel() ==> a.rows()[j] != id
    })
    &&& (!a.rows().contains(id) ==> b.sel() == clamp_sel(a.sel(), a.rows().len() as int))
}

/// `m` is `a` switched to `mode`: the tree left has its rows brought up to
/// date; the tree entered keeps its nodes but for directories expanded to
/// show the path selected before, and has a selection whenever it has rows;
/// nothing else changed.
pub open spec fn switched(a: App, m: App, mode: Mode) -> bool {
    let left = a.cur_tree();
    let entered_before = match mode {
        Mode::Tree => a.fs_tree,
        Mode::Diff => a.change_tree,
    };
    &&& m == (App { fs_tree: m.fs_tree, change_tree: m.change_tree, mode, ..a })
    &&& m.wf()
    &&& synced_from(left, a.cur_tree_after(m))
    &&& m.cur_tree().filter_v() == entered_before.filter_v()
    &&& m.cur_tree().off() == entered_before.off()
    &&& m.cur_tree().nodes_v().len() == entered_before.nodes_v().len()
    &&& m.cur_tree().rows().len() > 0 ==> selected_of(m.cur_tree()) is Some
}

impl App {
    /// In `m`, the tree of this state's mode.
    pub open spec fn cur_tree_after(&self, m: App) -> TreeModel {
        match self.mode {
            Mode::Tree => m.fs_tree,
            Mode::Diff => m.change_tree,
        }
    }
}

/// What switching to `mode` does, from `a` to `b`.
pub open spec fn mode_set(a: App, b: App, mode: Mode) -> bool {
    &&& (a.mode == mode ==> b == a)
    &&& (a.mode != mode && mode == Mode::Diff && !a.has_repo ==> {
        &&& b == (App { notice: b.notice, ..a })
        &&& b.notice matches Some(n) && n@ == "Git リポジトリではないため diff モードを使えない"@
    })
    &&& (a.mode != mode && (mode == Mode::Tree || a.has_repo) ==> exists|m: App|
        #[trigger] switched(a, m, mode) && content_request(m, b, selected_of(m.cur_tree())))
}

/// Switches to `mode`, carrying the selected path over, and shows what is
/// selected there. Diff mode needs a repository.
pub fn set_mode(app: &mut App, mode: Mode)
    requires
        old(app).wf(),
    ensures
        final(app).wf(),
        mode_set(*old(app), *final(app), mode),
{
    if app.mode == mode {
        return;
    }
    if mode == Mode::Diff && !app.has_repo {
        app.notice = Some(String::from_str("Git リポジトリではないため diff モードを使えない"));
        return;
    }
    switch_mode(app, mode);
    let ghost m = *app;
    app.request_content();
    assert(switched(*old(app), m, mode));
}

/// Switches to `mode`, carrying the selected path over.
#[verifier::spinoff_prover]
#[verifier::rlimit(100)]
fn switch_mode(app: &mut App, mode: Mode)
    requires
        old(app).wf(),
        old(app).mode != mode,
    ensures
        switched(*old(app), *final(app), mode),
{
    let current: Option<String> = match app.mode {
        Mode::Tree => match app.fs_tree.selected_node() {
            Some(n) => Some(n.path.clone()),
            None => None,
        },
        Mode::Diff => match app.change_tree.selected_node() {
            Some(n) => Some(n.path.clone()),
            None => None,
        },
    };
    app.mode = mode;
    match current {
        Some(path) => {
            let found = match app.mode {
                Mode::Tree => app.fs_tree.find_by_path(path.as_str()),
                Mode::Diff => app.change_tree.find_by_path(path.as_str()),
            };
            match found {
                Some(id) => {
                    proof {
                        let ns = app.cur_tree().nodes_v();
                        crate::tree::lemma_expand_up_frame(ns, ns[id as int].parent);
                    }
                    match app.mode {
                        Mode::Tree => app.fs_tree.reveal_node(id),
                        Mode::Diff => app.change_tree.reveal_node(id),
                    }
                },
                None => {},
            }
        },
        None => {},
    }
    let has = tree_selected_id(app);
    if has.is_none() {
        tree_select_end(app, false);
    }
}

/// What reading everything anew does, from `a` to `b`.
pub open spec fn reloaded(a: App, b: App) -> bool {
    &&& (exists|m1: App, m2: App| #[trigger] status_asked(a, m1) && #[trigger] fs_reloaded(m1, m2)
        && content_request(m2, b, selected_of(m2.cur_tree())))
}

/// Reads the status, the file tree and the content anew.
pub fn reload(app: &mut App)
    requires
        old(app).wf(),
    ensures
        final(app).wf(),
        reloaded(*old(app), *final(app)),
{
    app.request_status();
    let ghost m1 = *app;
    reload_fs_tree(app);
    let ghost m2 = *app;
    app.request_content();
    assert(status_asked(*old(app), m1));
    assert(fs_reloaded(m1, m2));
}

/// What asking for the status does, from `a` to `b`.
pub open spec fn status_asked(a: App, b: App) -> bool {
    &&& (!a.has_repo ==> b == a)
    &&& (a.has_repo ==> {
        &&& b == (App { outbox: b.outbox, status_generation: next_gen(a.status_generation), scanning: true, ..a })
        &&& b.outbox@.len() == a.outbox@.len() + 1
        &&& b.outbox@.drop_last() == a.outbox@
        &&& b.outbox@.last() matches TaskRequest::ScanStatus { generation, spec }
            && generation == b.status_generation && spec == a.diff_spec
    })
}

/// What reading the file tree anew does, from `a` to `b`.
pub open spec fn fs_reloaded(a: App, b: App) -> bool {
    &&& b.wf()
    &&& b == (App {
        fs_tree: b.fs_tree,
        pending_expand: b.pending_expand,
        pending_select: b.pending_select,
        outbox: b.outbox,
        generation: next_gen(a.generation),
        ..a
    })
    &&& b.pending_expand@.map_values(|p: String| p@) == expanded_paths(a.fs_tree.nodes_v())
    &&& b.pending_select == match selected_of(a.fs_tree) {
        Some(n) => Some(n.path),
        None => None::<String>,
    }
    &&& b.fs_tree.nodes_v().len() == 1 && crate::tree::fresh_root(b.fs_tree.nodes_v()[0])
    &&& b.fs_tree.filter_v() is None
    &&& b.fs_tree.sel() == 0 && b.fs_tree.off() == 0
    &&& b.outbox@.drop_last() == a.outbox@
    &&& b.outbox@.len() == a.outbox@.len() + 1
    &&& b.outbox@.last() matches TaskRequest::ReadDir { generation, node, dir, show_ignored }
        && generation == b.generation && node == 0 && dir == a.root && show_ignored == a.show_ignored
}

/// The selection after `k` moves of `d` rows from `s0` in a list of `len` rows.
pub open spec fn stepped_sel(s0: int, d: int, len: int, k: nat) -> int
    decreases k,
{
    if k == 0 {
        s0
    } else {
        let p = stepped_sel(s0, d, len, (k - 1) as nat) + d;
        if len == 0 { 0 } else if p < 0 { 0 } else if p > len - 1 { len - 1 } else { p }
    }
}

pub proof fn lemma_stepped_range(s0: int, d: int, len: int, k: nat)
    requires
        0 <= s0,
        0 <= len,
        len == 0 ==> s0 == 0,
        len > 0 ==> s0 < len,
    ensures
        0 <= stepped_sel(s0, d, len, k),
        len == 0 ==> stepped_sel(s0, d, len, k) == 0,
        len > 0 ==> stepped_sel(s0, d, len, k) < len,
    decreases k,
{
    if k > 0 {
        lemma_stepped_range(s0, d, len, (k - 1) as nat);
    }
}

/// Whether the row at selection `s` of tree `t` shows a file.
pub open spec fn file_at(t: TreeModel, s: int) -> bool {
    0 <= s < t.rows().len() && !t.nodes_v()[t.rows()[s] as int].is_dir
}

/// `b` is `a` with the selection at `s`.
pub open spec fn sel_set(a: TreeModel, b: TreeModel, s: int) -> bool {
    &&& b.wf()
    &&& b.nodes_v() == a.nodes_v()
    &&& b.filter_v() == a.filter_v()
    &&& b.off() == a.off()
    &&& b.sel() == s
}

/// What stepping to the next changed file does, from `a` to `b`.
pub open spec fn file_stepped(a: App, b: App, delta: isize) -> bool {
    &&& (a.mode != Mode::Diff ==> b == a)
    &&& (a.mode == Mode::Diff ==> ({
        let t = a.change_tree;
        let len = t.rows().len() as int;
        let s0 = clamp_sel(t.sel(), len);
        if exists|k: nat| 1 <= k <= len && #[trigger] file_at(t, stepped_sel(s0, delta as int, len, k)) {
            exists|k: nat, m: App| 1 <= k <= len && #[trigger] file_at(t, stepped_sel(s0, delta as int, len, k))
                && (forall|j: nat| 1 <= j < k ==> !#[trigger] file_at(t, stepped_sel(s0, delta as int, len, j)))
                && m == (App { change_tree: m.change_tree, ..a })
                && sel_set(t, m.change_tree, stepped_sel(s0, delta as int, len, k))
                && #[trigger] content_request(m, b, selected_of(m.cur_tree()))
        } else {
            &&& b == (App { change_tree: b.change_tree, ..a })
            &&& sel_set(t, b.change_tree, stepped_sel(s0, delta as int, len, len as nat))
        }
    }))
}

/// In diff mode, moves the selection by `delta` rows at a time, at most once
/// per row, until it is on a file, and shows that file.
pub fn step_change_file(app: &mut App, delta: isize)
    requires
        old(app).wf(),
    ensures
        final(app).wf(),
        file_stepped(*old(app), *final(app), delta),
{
    if app.mode != Mode::Diff {
        return;
    }
    let ghost t = app.change_tree;
    let n = app.change_tree.visible_len();
    let ghost len = n as int;
    let ghost s0 = clamp_sel(t.sel(), len);
    proof {
        t.lemma_indices();
    }
    let mut i: usize = 0;
    let mut moved = false;
    while i < n
        invariant_except_break
            i <= n,
            !moved,
            forall|j: nat| 1 <= j <= i ==> !#[trigger] file_at(t, stepped_sel(s0, delta as int, len, j)),
        invariant
            n == t.rows().len(),
            len == n as int,
            0 <= s0,
            len == 0 ==> s0 == 0,
            len > 0 ==> s0 < len,
            app.wf(),
            app.mode == Mode::Diff,
            *app == (App { change_tree: app.change_tree, ..*old(app) }),
            sel_set(t, app.change_tree, stepped_sel(s0, delta as int, len, i as nat)),
        ensures
            moved ==> 1 <= i <= n && file_at(t, stepped_sel(s0, delta as int, len, i as nat))
                && forall|j: nat| 1 <= j < i ==> !#[trigger] file_at(t, stepped_sel(s0, delta as int, len, j)),
            !moved ==> i == n,
            !moved ==> forall|j: nat| 1 <= j <= i ==> !#[trigger] file_at(t, stepped_sel(s0, delta as int, len, j)),
            sel_set(t, app.change_tree, stepped_sel(s0, delta as int, len, i as nat)),
            *app == (App { change_tree: app.change_tree, ..*old(app) }),
            app.wf(),
        decreases n - i,
    {
        proof {
            lemma_stepped_range(s0, delta as int, len, i as nat);
        }
        app.change_tree.move_selection(delta);
        let is_file = match app.change_tree.selected_node() {
            Some(nd) => !nd.is_dir,
            None => false,
        };
        i += 1;
        if is_file {
            moved = true;
            break;
        }
    }
    if moved {
        let ghost m = *app;
        app.request_content();
        assert(content_request(m, *app, selected_of(m.cur_tree())));
        assert(file_at(t, stepped_sel(s0, delta as int, len, i as nat)));
        assert(sel_set(t, m.change_tree, stepped_sel(s0, delta as int, len, i as nat)));
    }
}

/// What a finished job needs of the state it comes back to: status changes
/// that fit the change tree, directory entries that fit the file tree's
/// ids and depths, and a diff that fits a view.
pub open spec fn task_fits(a: App, r: TaskResult) -> bool {
    match r {
        TaskResult::Status { outcome, .. } => outcome matches Ok(s) ==> changes_fit(s.changes.files@),
        TaskResult::Dir { node, outcome, .. } => outcome matches Ok(entries) ==> {
            &&& a.fs_tree.nodes_v().len() + entries@.len() + 1 < u32::MAX
            &&& 0 < node < a.fs_tree.nodes_v().len() ==> a.fs_tree.nodes_v()[node as int].depth < u16::MAX
        },
        TaskResult::Diff { outcome, .. } => outcome matches Ok(Content::Ready { diff }) ==> diff_fits(diff),
        _ => true,
    }
}

/// Checks `task_fits`.
pub fn result_fits(app: &App, r: &TaskResult) -> (b: bool)
    requires
        app.wf(),
    ensures
        b == task_fits(*app, *r),
{
    match r {
        TaskResult::Status { outcome, .. } => match outcome {
            Ok(s) => fits_change_tree(&s.changes.files),
            Err(_) => true,
        },
        TaskResult::Dir { node, outcome, .. } => match outcome {
            Ok(entries) => {
                let n = app.fs_tree.node_count();
                if n >= 0xffff_fffe || entries.len() >= 0xffff_fffe - n {
                    return false;
                }
                if 0 < *node && (*node as usize) < n {
                    app.fs_tree.node(*node).depth < 0xffff
                } else {
                    true
                }
            },
            Err(_) => true,
        },
        TaskResult::Diff { outcome, .. } => match outcome {
            Ok(Content::Ready { diff }) => diff.fits_view(),
            _ => true,
        },
        _ => true,
    }
}

/// What a finished job does, from `a` to `b`.
pub open spec fn task_taken(a: App, b: App, r: TaskResult) -> bool {
    match r {
        TaskResult::Status { generation, outcome } => status_taken(a, b, generation, outcome),
        TaskResult::Dir { node, outcome, .. } => dir_taken(a, b, node, outcome),
        TaskResult::Text { generation, path, outcome } => text_taken(a, b, generation, path, outcome),
        TaskResult::Diff { generation, change, outcome } => diff_taken(a, b, generation, change, outcome),
        TaskResult::Highlight { generation, target, highlight } => highlight_taken(a, b, generation, target, highlight),
    }
}

/// The generation of a job for the content pane, if it is one.
pub open spec fn content_generation(r: TaskResult) -> Option<u64> {
    match r {
        TaskResult::Text { generation, .. } => Some(generation),
        TaskResult::Diff { generation, .. } => Some(generation),
        TaskResult::Highlight { generation, .. } => Some(generation),
        _ => None,
    }
}

/// A text, diff or coloring asked for before a newer file was asked for is
/// dropped when it comes back: asking for a file moves the generation on.
pub proof fn lemma_earlier_results_dropped(a: App, b: App, c: App, n: Node, r: TaskResult)
    requires
        file_requested(a, b, n),
        content_generation(r) == Some(a.generation),
        task_taken(b, c, r),
    ensures
        c == b,
{
    assert(b.generation != a.generation);
}

/// A status scan asked for before the last one is dropped when it comes back.
pub proof fn lemma_earlier_scans_dropped(a: App, b: App, c: App, r: TaskResult)
    requires
        status_asked(a, b),
        a.has_repo,
        r matches TaskResult::Status { generation, .. } && generation == a.status_generation,
        task_taken(b, c, r),
    ensures
        c == b,
{
    assert(b.status_generation != a.status_generation);
}

/// Takes a finished job. Directory entries are taken whenever they come,
/// the others only for the latest request of their kind.
pub fn on_task(app: &mut App, result: TaskResult)
    requires
        old(app).wf(),
        task_fits(*old(app), result),
    ensures
        final(app).wf(),
        task_taken(*old(app), *final(app), result),
{
    match result {
        TaskResult::Status { generation, outcome } => on_status(app, generation, outcome),
        TaskResult::Dir { generation, node, outcome } => on_dir(app, node, outcome),
        TaskResult::Text { generation, path, outcome } => on_text(app, generation, path, outcome),
        TaskResult::Diff { generation, change, outcome } => on_diff(app, generation, change, outcome),
        TaskResult::Highlight { generation, target, highlight } => on_highlight(app, generation, target, highlight),
    }
}

/// Half a pane of `h` rows, at least one.
pub open spec fn half_page(h: usize) -> int {
    if h / 2 > 0 { (h / 2) as int } else { 1 }
}

/// `x` kept inside the range of `isize`.
pub open spec fn sat_isize(x: int) -> int {
    clamp_int(x, isize::MIN as int, isize::MAX as int)
}

/// The current tree's selection moved by `delta` rows.
pub open spec fn tree_moved(a: App, b: App, delta: int) -> bool {
    tree_step(a, b, |x: TreeModel, y: TreeModel| moved_by(x, y, delta))
}

/// The current tree's first row (`last`: its last row) selected.
pub open spec fn tree_ended(a: App, b: App, last: bool) -> bool {
    tree_step(a, b, |x: TreeModel, y: TreeModel| selected_end(x, y, last))
}

/// What flipping the selected directory does, from `a` to `b`: it opens or
/// closes, and its children are asked for when they are not loaded yet.
pub open spec fn dir_toggled(a: App, b: App) -> bool {
    exists|m: App| #[trigger] synced_step(a, m) && m.wf() && {
        match selected_id_of(a.cur_tree()) {
            None => b == m,
            Some(id) => if a.cur_tree().nodes_v()[id as int].is_dir {
                exists|m2: App| #[trigger] dir_step(m, m2, id as int, None) && children_asked(m2, b, id)
            } else {
                b == m
            },
        }
    }
}

/// `a` with the grouping of the change tree flipped.
pub open spec fn regrouped(a: App) -> App {
    App { hierarchical_changes: !a.hierarchical_changes, ..a }
}

/// What flipping the grouping of the change tree does, from `a` to `b`:
/// the tree is built anew, and diff mode shows what is selected.
pub open spec fn hierarchy_toggled(a: App, b: App) -> bool {
    exists|m1: App| #[trigger] change_tree_rebuilt(regrouped(a), m1) && if a.mode == Mode::Diff {
        content_request(m1, b, selected_of(m1.cur_tree()))
    } else {
        b == m1
    }
}

pub open spec fn resorted(a: App) -> App {
    App {
        change_sort: match a.change_sort {
            ChangeSort::Path => ChangeSort::Kind,
            ChangeSort::Kind => ChangeSort::Path,
        },
        ..a
    }
}

/// What the next order of the changes does, from `a` to `b`: the tree is
/// built anew in that order, and diff mode shows what is selected.
pub open spec fn sort_cycled(a: App, b: App) -> bool {
    exists|m1: App| #[trigger] change_tree_rebuilt(resorted(a), m1) && if a.mode == Mode::Diff {
        content_request(m1, b, selected_of(m1.cur_tree()))
    } else {
        b == m1
    }
}

/// The kind and text of the open input line, if one is open.
pub open spec fn input_of(o: Overlay) -> Option<(InputKind, Seq<char>)> {
    match o {
        Overlay::Input { kind, buffer } => Some((kind, buffer@)),
        _ => None,
    }
}

/// The filter that a filter text gives: none when it is empty, else the
/// text lowercased.
pub open spec fn filter_of(f: Seq<char>) -> Option<Seq<char>> {
    if f.len() > 0 { Some(lowercase(f)) } else { None }
}

/// The current tree filtered by `filter`, nothing else changed.
pub open spec fn filter_set(a: App, b: App, filter: Option<Seq<char>>) -> bool {
    &&& b.wf()
    &&& match a.mode {
        Mode::Tree => b == (App { fs_tree: b.fs_tree, ..a }),
        Mode::Diff => b == (App { change_tree: b.change_tree, ..a }),
    }
    &&& b.cur_tree().filter_v() == filter
    &&& b.cur_tree().nodes_v() == a.cur_tree().nodes_v()
    &&& b.cur_tree().sel() == a.cur_tree().sel()
    &&& b.cur_tree().off() == a.cur_tree().off()
}

/// The input line of `a` holding `text` instead, nothing else changed.
pub open spec fn input_edited(a: App, m: App, kind: InputKind, text: Seq<char>) -> bool {
    &&& input_of(m.overlay) == Some((kind, text))
    &&& m == (App { overlay: m.overlay, ..a })
}

/// The search holds the hits of `text` in what the content pane shows,
/// nothing else changed.
pub open spec fn search_set(a: App, b: App, text: Seq<char>) -> bool {
    let hits = content_hits(a.content, encode_utf8(text));
    &&& b == (App { search: b.search, ..a })
    &&& b.search.wf()
    &&& b.search.query@ == text
    &&& b.search.current == 0
    &&& forall|k: (u32, bool)| #[trigger] b.search.ranges_v(k) == ranges_for(hits, k)
    &&& forall|k: (u32, bool)| #[trigger] b.search.hits@.contains(k) <==> exists|i: int|
        0 <= i < hits.len() && hit_key(#[trigger] hits[i]) == k
    &&& forall|i: int, j: int| 0 <= i < j < b.search.hits@.len() ==> hit_lt(b.search.hits@[i], b.search.hits@[j])
}

/// What editing the input line into `text` does: a filter line filters
/// the current tree, and a search line searches the content, as it is typed.
pub open spec fn input_changed(a: App, b: App, text_of: spec_fn(Seq<char>) -> Seq<char>) -> bool {
    match input_of(a.overlay) {
        None => b == a,
        Some((kind, text)) => exists|m: App| #[trigger] input_edited(a, m, kind, text_of(text)) && if kind == InputKind::Filter {
            filter_set(m, b, filter_of(text_of(text)))
        } else {
            search_set(m, b, text_of(text))
        },
    }
}

/// Hit `k` of the search made current, and its row brought into view a
/// quarter of the pane from the top, as a hunk jump does.
pub open spec fn hit_shown(a: App, b: App, k: int) -> bool {
    let row = a.search.hits@[k].0 as int;
    let h = page(a.content_height);
    let s = SearchState { current: k as usize, ..a.search };
    match a.content {
        ContentState::Text(v) => b == (App {
            content: ContentState::Text(TextView { offset: jump_offset(row, h, v.table.lines().len() as int) as usize, ..v }),
            search: s,
            ..a
        }),
        ContentState::Diff(v) => exists|i: int| #[trigger] index_of_row_is(v, row, i) && b == (App {
            content: ContentState::Diff(DiffView { offset: jump_offset(i, h, display_len_of(v)) as usize, hunk_cursor: None, ..v }),
            search: s,
            ..a
        }),
        _ => b == (App { search: s, ..a }),
    }
}

/// What closing the input line does: a cancelled filter line clears the
/// current tree's filter, a cancelled search line clears the search; a
/// submitted search shows its first hit, or says that nothing matched.
pub open spec fn input_closed(a: App, b: App, cancel: bool) -> bool {
    let closed = App { overlay: Overlay::Closed, ..a };
    match input_of(a.overlay) {
        None => b == a,
        Some((kind, _)) => if kind == InputKind::Filter {
            if cancel { filter_set(closed, b, None) } else { b == closed }
        } else if cancel {
            &&& b == (App { search: b.search, ..closed })
            &&& b.search.wf()
            &&& b.search.is_fresh()
        } else if a.search.hits@.len() == 0 {
            &&& b == (App { notice: b.notice, ..closed })
            &&& b.notice matches Some(n) && n@ == "一致なし"@
        } else {
            hit_shown(closed, b, 0)
        },
    }
}

/// What stepping to the next (or previous) hit does: nothing without hits.
pub open spec fn hit_stepped(a: App, b: App, forward: bool) -> bool {
    let n = a.search.hits@.len() as int;
    if n == 0 {
        b == a
    } else {
        let c = a.search.current as int;
        hit_shown(a, b, if forward { if c + 1 < n { c + 1 } else { 0 } } else { if 0 < c && c <= n { c - 1 } else { n - 1 } })
    }
}

/// What an action does, from `a` to `b`.
pub open spec fn applied(a: App, b: App, action: Action) -> bool {
    match action {
        Action::Noop => b == a,
        Action::Quit => b == (App { should_quit: true, ..a }),
        Action::Escape => b == (App { overlay: Overlay::Closed, notice: None, ..a }),
        Action::ToggleHelp => b == (App { overlay: if a.overlay is Help { Overlay::Closed } else { Overlay::Help }, ..a }),
        Action::ToggleMode => mode_set(a, b, if a.mode == Mode::Tree { Mode::Diff } else { Mode::Tree }),
        Action::SetMode(mode) => mode_set(a, b, mode),
        Action::CycleFocus(_) => b == (App { focus: if a.focus == Focus::Tree { Focus::Content } else { Focus::Tree }, ..a }),
        Action::Reload => reloaded(a, b),
        Action::ResizeTree(delta) => b == (App { tree_ratio: clamp_int(a.tree_ratio + delta, 1, 8) as u16, ..a }),
        Action::TreeMove(delta) => exists|m: App| #[trigger] tree_moved(a, m, delta as int)
            && content_request(m, b, selected_of(m.cur_tree())),
        Action::TreeHalfPage(dir) => exists|m: App| #[trigger] tree_moved(a, m, sat_isize(half_page(a.tree_height) * dir))
            && content_request(m, b, selected_of(m.cur_tree())),
        Action::TreeFirst => exists|m: App| #[trigger] tree_ended(a, m, false)
            && content_request(m, b, selected_of(m.cur_tree())),
        Action::TreeLast => exists|m: App| #[trigger] tree_ended(a, m, true)
            && content_request(m, b, selected_of(m.cur_tree())),
        Action::TreeOpen => tree_opened(a, b),
        Action::TreeCollapse => tree_collapsed(a, b),
        Action::TreeToggle => dir_toggled(a, b),
        Action::ToggleIgnored => fs_reloaded(App { show_ignored: !a.show_ignored, ..a }, b),
        Action::ToggleHierarchy => hierarchy_toggled(a, b),
        Action::CycleSort => sort_cycled(a, b),
        Action::ToggleUnified => b == (App { unified: !a.unified, ..a }),
        Action::ToggleWrap => b == (App { wrap: !a.wrap, ..a }),
        Action::StartFilter => {
            &&& input_of(b.overlay) == Some((InputKind::Filter, Seq::<char>::empty()))
            &&& b == (App { overlay: b.overlay, ..a })
        },
        Action::InputChar(c) => input_changed(a, b, |t: Seq<char>| t.push(c)),
        Action::InputBackspace => input_changed(a, b, |t: Seq<char>| if t.len() > 0 { t.drop_last() } else { t }),
        Action::InputSubmit => input_closed(a, b, false),
        Action::InputCancel => input_closed(a, b, true),
        Action::StartSearch => {
            &&& input_of(b.overlay) == Some((InputKind::Search, Seq::<char>::empty()))
            &&& b == (App { overlay: b.overlay, ..a })
        },
        Action::NextMatch => hit_stepped(a, b, true),
        Action::PrevMatch => hit_stepped(a, b, false),
        Action::ContentScroll(delta) => scrolled(a, b, delta),
        Action::ContentHalfPage(dir) => scrolled(a, b, sat_isize(half_page(a.content_height) * dir) as isize),
        Action::ContentPage(dir) => scrolled(a, b, sat_isize(page(a.content_height) * dir) as isize),
        Action::ContentFirst => offset_set(a, b, 0),
        Action::ContentLast => offset_set(a, b, sat_sub(content_len_of(a.content), page(a.content_height)) as usize),
        Action::ContentHScroll(delta) => hscrolled(a, b, delta),
        Action::NextHunk => jump_done(a, b, true),
        Action::PrevHunk => jump_done(a, b, false),
        Action::NextFile => file_stepped(a, b, 1isize),
        Action::PrevFile => file_stepped(a, b, -1isize),
        Action::ToggleFold => fold_toggled(a, b),
        Action::ExpandGap => gap_expanded(a, b),
    }
}

/// `step` rows `dir` times, kept inside the range of `isize`.
fn steps(step: usize, dir: i8) -> (r: isize)
    ensures
        r == sat_isize(step * dir),
{
    assert(-128 * (step as int) <= (step as int) * (dir as int) <= 127 * (step as int)) by (nonlinear_arith)
        requires
            -128 <= dir <= 127,
            0 <= step,
    ;
    let p: i128 = step as i128 * dir as i128;
    if p < isize::MIN as i128 {
        isize::MIN
    } else if p > isize::MAX as i128 {
        isize::MAX
    } else {
        p as isize
    }
}

/// Flips the selected directory, and asks for its children when they are
/// not loaded yet.
fn tree_toggle(app: &mut App)
    requires
        old(app).wf(),
    ensures
        final(app).wf(),
        dir_toggled(*old(app), *final(app)),
{
    let id = match tree_selected_id(app) {
        Some(id) => id,
        None => {
            return;
        },
    };
    let ghost m = *app;
    let is_dir = match app.mode {
        Mode::Tree => app.fs_tree.node(id).is_dir,
        Mode::Diff => app.change_tree.node(id).is_dir,
    };
    if is_dir {
        tree_set_dir(app, id, None);
        let ghost m2 = *app;
        load_children_if_needed(app, id);
        assert(dir_step(m, m2, id as int, None));
    }
}

/// Flips the grouping of the change tree and builds it anew; diff mode
/// shows what is selected then.
fn toggle_hierarchy(app: &mut App)
    requires
        old(app).wf(),
    ensures
        final(app).wf(),
        hierarchy_toggled(*old(app), *final(app)),
{
    app.hierarchical_changes = !app.hierarchical_changes;
    let ghost m0 = *app;
    app.rebuild_change_tree();
    let ghost m1 = *app;
    assert(m0 == regrouped(*old(app)));
    assert(change_tree_rebuilt(regrouped(*old(app)), m1));
    if app.mode == Mode::Diff {
        app.request_content();
        assert(content_request(m1, *app, selected_of(m1.cur_tree())));
    } else {
        assert(*app == m1);
    }
}


/// Filters the current tree by `f`.
fn filter_cur_tree(app: &mut App, f: Option<String>)
    requires
        old(app).wf(),
    ensures
        filter_set(*old(app), *final(app), match f {
            Some(t) => filter_of(t@),
            None => None,
        }),
{
    match app.mode {
        Mode::Tree => app.fs_tree.set_filter(f),
        Mode::Diff => app.change_tree.set_filter(f),
    }
}

/// Puts `text` in the open input line and filters by it when it is a filter line.
fn edit_input(app: &mut App, kind: InputKind, text: String)
    requires
        old(app).wf(),
        input_of(old(app).overlay) is Some,
        input_of(old(app).overlay) matches Some((k, _)) && k == kind,
    ensures
        exists|m: App| #[trigger] input_edited(*old(app), m, kind, text@) && if kind == InputKind::Filter {
            filter_set(m, *final(app), filter_of(text@))
        } else {
            search_set(m, *final(app), text@)
        },
{
    let keep = text.clone();
    app.overlay = Overlay::Input { kind, buffer: keep };
    let ghost m = *app;
    assert(input_edited(*old(app), m, kind, text@));
    if kind == InputKind::Filter {
        filter_cur_tree(app, Some(text));
    } else {
        run_search(app, text);
    }
}


/// Adds `c` to the open input line.
fn type_char(app: &mut App, c: char)
    requires
        old(app).wf(),
    ensures
        input_changed(*old(app), *final(app), |t: Seq<char>| t.push(c)),
{
    match open_input(&app.overlay) {
        Some((kind, text)) => {
            let mut t = text;
            push_char(&mut t, c);
            edit_input(app, kind, t);
        },
        None => {},
    }
}

/// Takes the last character off the open input line.
fn erase_char(app: &mut App)
    requires
        old(app).wf(),
    ensures
        input_changed(*old(app), *final(app), |t: Seq<char>| if t.len() > 0 { t.drop_last() } else { t }),
{
    match open_input(&app.overlay) {
        Some((kind, text)) => {
            let cs = chars_of(text.as_str());
            let t = if cs.len() > 0 { string_of(slice_subrange(cs.as_slice(), 0, cs.len() - 1)) } else { text };
            proof {
                if cs@.len() > 0 {
                    assert(cs@.subrange(0, cs@.len() - 1) =~= cs@.drop_last());
                }
            }
            edit_input(app, kind, t);
        },
        None => {},
    }
}

/// Closes the open input line, submitted or cancelled.
fn close_input(app: &mut App, cancel: bool)
    requires
        old(app).wf(),
    ensures
        input_closed(*old(app), *final(app), cancel),
{
    match open_input(&app.overlay) {
        Some((kind, _)) => {
            app.overlay = Overlay::Closed;
            if kind == InputKind::Filter {
                if cancel {
                    filter_cur_tree(app, None);
                }
            } else if cancel {
                app.search.clear();
            } else if app.search.hits.len() == 0 {
                app.notice = Some(String::from_str("一致なし"));
            } else {
                show_hit(app, 0);
            }
        },
        None => {},
    }
}

/// Searches what the content pane shows for `text`.
fn run_search(app: &mut App, text: String)
    requires
        old(app).wf(),
    ensures
        final(app).wf(),
        search_set(*old(app), *final(app), text@),
{
    let matches = content_matches(&app.content, text.as_str().as_bytes());
    app.search.set(text, matches);
}

/// Makes hit `k` current and brings its row into view.
fn show_hit(app: &mut App, k: usize)
    requires
        old(app).wf(),
        k < old(app).search.hits@.len(),
    ensures
        final(app).wf(),
        hit_shown(*old(app), *final(app), k as int),
{
    let row = app.search.hits[k].0;
    let height = if app.content_height > 0 { app.content_height } else { 1 };
    app.search.current = k;
    let quarter = height / 4;
    let mut content = ContentState::Empty;
    std::mem::swap(&mut content, &mut app.content);
    match content {
        ContentState::Text(mut v) => {
            let index = row as usize;
            let start = if index > quarter { index - quarter } else { 0 };
            let len = v.table.len();
            let max = if len > height { len - height } else { 0 };
            v.offset = if start < max { start } else { max };
            app.content = ContentState::Text(v);
        },
        ContentState::Diff(mut view) => {
            let ghost v0 = view;
            let index = view.display_index_of_row(row);
            assert(index_of_row_is(v0, row as int, index as int));
            let start = if index > quarter { index - quarter } else { 0 };
            let len = view.display_len();
            let max = if len > height { len - height } else { 0 };
            view.offset = if start < max { start } else { max };
            view.hunk_cursor = None;
            app.content = ContentState::Diff(view);
        },
        other => {
            app.content = other;
        },
    }
}

/// Steps to the next (or previous) hit, going round at the ends.
fn step_hit(app: &mut App, forward: bool)
    requires
        old(app).wf(),
    ensures
        final(app).wf(),
        hit_stepped(*old(app), *final(app), forward),
{
    let n = app.search.hits.len();
    if n == 0 {
        return;
    }
    let c = app.search.current;
    let k = if forward {
        if c < n - 1 { c + 1 } else { 0 }
    } else {
        if 0 < c && c <= n { c - 1 } else { n - 1 }
    };
    show_hit(app, k);
}

/// The open input line's kind and text.
fn open_input(o: &Overlay) -> (r: Option<(InputKind, String)>)
    ensures
        match r {
            Some((k, t)) => input_of(*o) == Some((k, t@)),
            None => input_of(*o) is None,
        },
{
    match o {
        Overlay::Input { kind, buffer } => Some((*kind, buffer.clone())),
        _ => None,
    }
}

/// Orders the changes the other way and builds the change tree anew.
fn cycle_sort(app: &mut App)
    requires
        old(app).wf(),
    ensures
        final(app).wf(),
        sort_cycled(*old(app), *final(app)),
{
    app.change_sort = app.change_sort.next();
    let ghost m0 = *app;
    app.rebuild_change_tree();
    let ghost m1 = *app;
    assert(m0 == resorted(*old(app)));
    assert(change_tree_rebuilt(resorted(*old(app)), m1));
    if app.mode == Mode::Diff {
        app.request_content();
        assert(content_request(m1, *app, selected_of(m1.cur_tree())));
    } else {
        assert(*app == m1);
    }
}

/// Moves the current tree's selection by `delta` rows and shows what is selected.
fn move_and_show(app: &mut App, delta: isize)
    requires
        old(app).wf(),
    ensures
        final(app).wf(),
        exists|m: App| #[trigger] tree_moved(*old(app), m, delta as int)
            && content_request(m, *final(app), selected_of(m.cur_tree())),
{
    tree_move(app, delta);
    let ghost m = *app;
    app.request_content();
    assert(tree_moved(*old(app), m, delta as int));
}

/// Selects the current tree's first (`last`: last) row and shows it.
fn end_and_show(app: &mut App, last: bool)
    requires
        old(app).wf(),
    ensures
        final(app).wf(),
        exists|m: App| #[trigger] tree_ended(*old(app), m, last)
            && content_request(m, *final(app), selected_of(m.cur_tree())),
{
    tree_select_end(app, last);
    let ghost m = *app;
    app.request_content();
    assert(tree_ended(*old(app), m, last));
}

/// Carries out an action.
#[verifier::spinoff_prover]
#[verifier::rlimit(100)]
pub fn apply(app: &mut App, action: Action)
    requires
        old(app).wf(),
    ensures
        final(app).wf(),
        applied(*old(app), *final(app), action),
{
    match action {
        Action::Noop => {},
        Action::Quit => {
            app.should_quit = true;
        },
        Action::Escape => {
            app.overlay = Overlay::Closed;
            app.notice = None;
        },
        Action::ToggleHelp => {
            app.overlay = if app.overlay.is_help() { Overlay::Closed } else { Overlay::Help };
        },
        Action::ToggleMode => {
            let next = if app.mode == Mode::Tree { Mode::Diff } else { Mode::Tree };
            set_mode(app, next);
        },
        Action::SetMode(mode) => set_mode(app, mode),
        Action::CycleFocus(_) => {
            app.focus = if app.focus == Focus::Tree { Focus::Content } else { Focus::Tree };
        },
        Action::Reload => reload(app),
        Action::ResizeTree(delta) => {
            let r: i32 = app.tree_ratio as i32 + delta as i32;
            app.tree_ratio = if r < 1 { 1 } else if r > 8 { 8 } else { r as u16 };
        },
        Action::TreeMove(delta) => move_and_show(app, delta),
        Action::TreeHalfPage(dir) => {
            let half = app.tree_height / 2;
            let delta = steps(if half > 0 { half } else { 1 }, dir);
            assert(delta as int == sat_isize(half_page(old(app).tree_height) * dir));
            move_and_show(app, delta);
        },
        Action::TreeFirst => end_and_show(app, false),
        Action::TreeLast => end_and_show(app, true),
        Action::TreeOpen => tree_open(app),
        Action::TreeCollapse => tree_collapse(app),
        Action::TreeToggle => tree_toggle(app),
        Action::ToggleIgnored => {
            app.show_ignored = !app.show_ignored;
            reload_fs_tree(app);
        },
        Action::ToggleHierarchy => toggle_hierarchy(app),
        Action::CycleSort => cycle_sort(app),
        Action::ToggleUnified => {
            app.unified = !app.unified;
        },
        Action::ToggleWrap => {
            app.wrap = !app.wrap;
        },
        Action::StartFilter => {
            app.overlay = Overlay::Input { kind: InputKind::Filter, buffer: String::new() };
        },
        Action::InputChar(c) => type_char(app, c),
        Action::InputBackspace => erase_char(app),
        Action::InputSubmit => close_input(app, false),
        Action::InputCancel => close_input(app, true),
        Action::StartSearch => {
            app.overlay = Overlay::Input { kind: InputKind::Search, buffer: String::new() };
        },
        Action::NextMatch => step_hit(app, true),
        Action::PrevMatch => step_hit(app, false),
        Action::ContentScroll(delta) => scroll(app, delta),
        Action::ContentHalfPage(dir) => {
            let half = app.content_height / 2;
            let delta = steps(if half > 0 { half } else { 1 }, dir);
            scroll(app, delta);
        },
        Action::ContentPage(dir) => {
            let h = app.content_height;
            let delta = steps(if h > 0 { h } else { 1 }, dir);
            scroll(app, delta);
        },
        Action::ContentFirst => set_offset(app, 0),
        Action::ContentLast => {
            let len = content_len(app);
            let h = if app.content_height > 0 { app.content_height } else { 1 };
            set_offset(app, if len > h { len - h } else { 0 });
        },
        Action::ContentHScroll(delta) => hscroll(app, delta),
        Action::NextHunk => jump_hunk(app, true),
        Action::PrevHunk => jump_hunk(app, false),
        Action::NextFile => step_change_file(app, 1),
        Action::PrevFile => step_change_file(app, -1),
        Action::ToggleFold => toggle_fold(app),
        Action::ExpandGap => expand_gap(app),
    }
}

} // verus!
