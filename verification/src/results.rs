//! What the application's state does with each kind of finished job.
use vstd::prelude::*;
use crate::app::{App, next_gen, change_tree_rebuilt, changes_fit, content_request, fs_status_applied, highlight_asked};
use crate::changes::FileChange;
use crate::highlight::Highlighted;
use crate::state::{ContentState, DiffView, Mode, TextView, spec_display};
use crate::task::{Content, HighlightTarget, StatusOutcome, TextOutcome, diff_fits};
use crate::tree::{Node, TreeModel, dirs_up, expand_up, kids, same_but_children, selected_of, with_expanded};
use crate::paths::{join_of, join_path};
use crate::task::{DirEntry, TaskRequest};
use crate::update::{selected_end, tree_select_end, tree_step};

verus! {

/// The current tree's first row selected, nothing else changed.
pub open spec fn first_selected(a: App, b: App) -> bool {
    tree_step(a, b, |x: TreeModel, y: TreeModel| selected_end(x, y, false))
}

/// `prefix` followed by `tail`.
pub open spec fn message_of(prefix: Seq<char>, tail: Seq<char>) -> Seq<char> {
    prefix + tail
}

/// What a finished status scan does, from `a` to `b`. A scan asked before
/// the last one is dropped. A failure is reported. Otherwise the changes
/// and the head are taken, the change tree is built anew, the file tree is
/// marked, and diff mode with nothing shown selects its first row and shows it.
pub open spec fn status_taken(a: App, b: App, generation: u64, outcome: Result<StatusOutcome, String>) -> bool {
    if generation != a.status_generation {
        b == a
    } else {
        match outcome {
            Err(e) => {
                &&& b == (App { scanning: false, notice: b.notice, ..a })
                &&& b.notice matches Some(n) && n@ == message_of("status の取得に失敗: "@, e@)
            },
            Ok(s) => {
                let m0 = App { scanning: false, changes: s.changes, head: Some(s.head), ..a };
                exists|m1: App, m2: App| #[trigger] change_tree_rebuilt(m0, m1) && #[trigger] fs_status_applied(m1, m2) && {
                    if m2.mode == Mode::Diff && m2.content is Empty {
                        exists|m3: App| #[trigger] first_selected(m2, m3)
                            && content_request(m3, b, selected_of(m3.cur_tree()))
                    } else {
                        b == m2
                    }
                }
            },
        }
    }
}

/// Takes the result of a status scan.
pub fn on_status(app: &mut App, generation: u64, outcome: Result<StatusOutcome, String>)
    requires
        old(app).wf(),
        outcome matches Ok(s) ==> changes_fit(s.changes.files@),
    ensures
        final(app).wf(),
        status_taken(*old(app), *final(app), generation, outcome),
{
    if generation != app.status_generation {
        return;
    }
    app.scanning = false;
    match outcome {
        Ok(status) => {
            app.changes = status.changes;
            app.head = Some(status.head);
            let ghost m0 = *app;
            app.rebuild_change_tree();
            let ghost m1 = *app;
            app.apply_status_to_fs_tree();
            let ghost m2 = *app;
            assert(change_tree_rebuilt(m0, m1));
            assert(fs_status_applied(m1, m2));
            if app.mode == Mode::Diff && app.content_is_empty() {
                tree_select_end(app, false);
                let ghost m3 = *app;
                app.request_content();
                assert(first_selected(m2, m3));
            }
        },
        Err(error) => {
            let mut msg = String::from_str("status の取得に失敗: ");
            msg.append(error.as_str());
            app.notice = Some(msg);
        },
    }
}

/// What a loaded file does, from `a` to `b`: a result for an earlier
/// selection is dropped; text is shown from its top and its colors are
/// asked for; otherwise the reason or the failure is shown.
pub open spec fn text_taken(a: App, b: App, generation: u64, path: String, outcome: Result<TextOutcome, String>) -> bool {
    if generation != a.generation {
        b == a
    } else {
        match outcome {
            Ok(TextOutcome::Ready { table }) => highlight_asked(
                App { content: ContentState::Text(TextView { path, table, highlight: None, offset: 0, hscroll: 0 }), ..a },
                b, generation, HighlightTarget::Text, path, table),
            Ok(TextOutcome::Unsupported(reason)) => b == (App { content: ContentState::Unsupported { path, reason }, ..a }),
            Err(error) => b == (App { content: ContentState::Failed { path, error }, ..a }),
        }
    }
}

/// Takes a file loaded for the text view.
pub fn on_text(app: &mut App, generation: u64, path: String, outcome: Result<TextOutcome, String>)
    requires
        old(app).wf(),
    ensures
        final(app).wf(),
        text_taken(*old(app), *final(app), generation, path, outcome),
{
    if generation != app.generation {
        return;
    }
    match outcome {
        Ok(TextOutcome::Ready { table }) => {
            let colored = table.duplicate();
            let shown = path.clone();
            app.content = ContentState::Text(TextView { path, table, highlight: None, offset: 0, hscroll: 0 });
            app.request_highlight(generation, HighlightTarget::Text, shown, colored);
        },
        Ok(TextOutcome::Unsupported(reason)) => {
            app.content = ContentState::Unsupported { path, reason };
        },
        Err(error) => {
            app.content = ContentState::Failed { path, error };
        },
    }
}

/// The view a diff opens in: folded unless the whole file is configured,
/// at the top, with nothing colored yet.
pub open spec fn opened_view(v: DiffView, a: App, change: FileChange, d: crate::lines::AlignedDiff) -> bool {
    &&& v.wf()
    &&& v.change == change
    &&& v.diff == d
    &&& v.old_highlight is None
    &&& v.new_highlight is None
    &&& v.folded == !a.cfg.full_file
    &&& v.display@ == spec_display(d, !a.cfg.full_file, a.cfg.fold_context as int, Seq::empty())
    &&& v.expanded_gaps@.len() == 0
    &&& v.offset == 0
    &&& v.hscroll == 0
    &&& v.hunk_cursor is None
    &&& v.inline@.len() == 0
}

/// What a computed diff does, from `a` to `b`: a result for an earlier
/// selection is dropped; a diff is shown and the colors of its old side
/// (under the path it had there) and of its new side are asked for;
/// otherwise the reason or the failure is shown.
pub open spec fn diff_taken(a: App, b: App, generation: u64, change: FileChange, outcome: Result<Content, String>) -> bool {
    if generation != a.generation {
        b == a
    } else {
        match outcome {
            Ok(Content::Ready { diff }) => exists|v: DiffView, m: App| #[trigger] opened_view(v, a, change, diff)
                && #[trigger] highlight_asked(App { content: ContentState::Diff(v), ..a }, m, generation,
                    HighlightTarget::DiffOld, change.spec_old_lookup_path(), diff.old)
                && highlight_asked(m, b, generation, HighlightTarget::DiffNew, change.path, diff.new),
            Ok(Content::Unsupported(reason)) => b == (App { content: ContentState::Unsupported { path: change.path, reason }, ..a }),
            Err(error) => b == (App { content: ContentState::Failed { path: change.path, error }, ..a }),
        }
    }
}

/// Takes a computed diff.
pub fn on_diff(app: &mut App, generation: u64, change: FileChange, outcome: Result<Content, String>)
    requires
        old(app).wf(),
        outcome matches Ok(Content::Ready { diff }) ==> diff_fits(diff),
    ensures
        final(app).wf(),
        diff_taken(*old(app), *final(app), generation, change, outcome),
{
    if generation != app.generation {
        return;
    }
    let path = change.path.clone();
    match outcome {
        Ok(Content::Ready { diff }) => {
            let old_path = change.old_lookup_path().clone();
            let old_table = diff.old.duplicate();
            let new_table = diff.new.duplicate();
            let view = DiffView::new(change, diff, !app.cfg.full_file, app.cfg.fold_context);
            let ghost v = view;
            app.content = ContentState::Diff(view);
            app.request_highlight(generation, HighlightTarget::DiffOld, old_path, old_table);
            let ghost m = *app;
            app.request_highlight(generation, HighlightTarget::DiffNew, path, new_table);
            assert(opened_view(v, *old(app), change, diff));
            assert(highlight_asked(App { content: ContentState::Diff(v), ..*old(app) }, m, generation,
                    HighlightTarget::DiffOld, change.spec_old_lookup_path(), diff.old));
            assert(highlight_asked(m, *app, generation, HighlightTarget::DiffNew, change.path, diff.new));
        },
        Ok(Content::Unsupported(reason)) => {
            app.content = ContentState::Unsupported { path, reason };
        },
        Err(error) => {
            app.content = ContentState::Failed { path, error };
        },
    }
}

/// The content with the colors of `target` set, when it shows that kind of view.
pub open spec fn with_highlight(c: ContentState, target: HighlightTarget, h: Option<Highlighted>) -> ContentState {
    match c {
        ContentState::Text(v) => if target == HighlightTarget::Text {
            ContentState::Text(TextView { highlight: h, ..v })
        } else {
            c
        },
        ContentState::Diff(v) => if target == HighlightTarget::DiffOld {
            ContentState::Diff(DiffView { old_highlight: h, ..v })
        } else if target == HighlightTarget::DiffNew {
            ContentState::Diff(DiffView { new_highlight: h, ..v })
        } else {
            c
        },
        _ => c,
    }
}

/// What colors do, from `a` to `b`: those of an earlier selection are
/// dropped; otherwise they go to the view of their target.
pub open spec fn highlight_taken(a: App, b: App, generation: u64, target: HighlightTarget, h: Option<Highlighted>) -> bool {
    if generation != a.generation {
        b == a
    } else {
        b == (App { content: with_highlight(a.content, target, h), ..a })
    }
}

/// Takes the colors of the file shown.
pub fn on_highlight(app: &mut App, generation: u64, target: HighlightTarget, highlight: Option<Highlighted>)
    requires
        old(app).wf(),
    ensures
        final(app).wf(),
        highlight_taken(*old(app), *final(app), generation, target, highlight),
{
    if generation != app.generation {
        return;
    }
    let mut content = ContentState::Empty;
    std::mem::swap(&mut content, &mut app.content);
    let content = match content {
        ContentState::Text(v) => if target == HighlightTarget::Text {
            ContentState::Text(TextView { highlight, ..v })
        } else {
            ContentState::Text(v)
        },
        ContentState::Diff(v) => if target == HighlightTarget::DiffOld {
            ContentState::Diff(DiffView { old_highlight: highlight, ..v })
        } else if target == HighlightTarget::DiffNew {
            ContentState::Diff(DiffView { new_highlight: highlight, ..v })
        } else {
            ContentState::Diff(v)
        },
        other => other,
    };
    app.content = content;
}

/// The path of entry `e` of the directory at `base`.
pub open spec fn entry_path(base: Seq<char>, e: DirEntry) -> Seq<char> {
    join_of(base, e.name@)
}

/// Some string of `v` reads `p`.
pub open spec fn has_path(v: Seq<String>, p: Seq<char>) -> bool {
    exists|k: int| 0 <= k < v.len() && (#[trigger] v[k])@ == p
}

/// Whether `v` holds a string that reads as `p`.
pub fn contains_path(v: &Vec<String>, p: &String) -> (b: bool)
    ensures
        b == has_path(v@, p@),
{
    let mut i: usize = 0;
    while i < v.len()
        invariant
            i <= v@.len(),
            forall|k: int| 0 <= k < i ==> (#[trigger] v@[k])@ != p@,
        decreases v@.len() - i,
    {
        if v[i] == *p {
            return true;
        }
        i += 1;
    }
    false
}

/// The depth of the children of node `id`: the root's are at depth 0.
pub open spec fn child_depth(nodes: Seq<Node>, id: u32) -> u16 {
    if id == 0 { 0 } else { (nodes[id as int].depth + 1) as u16 }
}

/// `n` is the node made for entry `e` under directory `pid` at `base`,
/// expanded when it is a directory that was expanded before.
pub open spec fn entry_shown(n: Node, e: DirEntry, base: Seq<char>, depth: u16, pid: u32, expand: bool) -> bool {
    &&& n.name == e.name
    &&& n.path@ == entry_path(base, e)
    &&& n.is_dir == e.is_dir
    &&& n.depth == depth
    &&& n.parent == Some(pid)
    &&& (if e.is_dir { n.children is None } else { n.children matches Some(c) && c@.len() == 0 })
    &&& n.expanded == (e.is_dir && expand)
    &&& n.status is None
}

/// `m` is `a` with the entries added, in order, as the children of
/// directory `node` of the file tree, which is then marked as loaded.
pub open spec fn dir_filled(a: App, m: App, node: u32, entries: Seq<DirEntry>) -> bool {
    let before = a.fs_tree.nodes_v();
    let after = m.fs_tree.nodes_v();
    let n0 = before.len() as int;
    let base = before[node as int].path@;
    &&& m.wf()
    &&& m == (App { fs_tree: m.fs_tree, ..a })
    &&& after.len() == n0 + entries.len()
    &&& forall|k: int| 0 <= k < n0 && k != node ==> #[trigger] after[k] == before[k]
    &&& same_but_children(before[node as int], after[node as int])
    &&& after[node as int].children is Some
    &&& kids(after, node as int) == Seq::new(entries.len(), |j: int| (n0 + j) as u32)
    &&& forall|j: int| 0 <= j < entries.len() ==> entry_shown(after[n0 + j], #[trigger] entries[j], base,
        child_depth(before, node), node, has_path(a.pending_expand@, entry_path(base, entries[j])))
    &&& m.fs_tree.filter_v() == a.fs_tree.filter_v()
    &&& m.fs_tree.sel() == a.fs_tree.sel()
    &&& m.fs_tree.off() == a.fs_tree.off()
}

/// The ids, in order, given to the entries that are directories expanded
/// before, when the first entry gets id `n0`.
pub open spec fn expand_ids(entries: Seq<DirEntry>, base: Seq<char>, pending: Seq<String>, n0: int) -> Seq<u32>
    decreases entries.len(),
{
    if entries.len() == 0 {
        Seq::empty()
    } else {
        let i = entries.len() - 1;
        let prev = expand_ids(entries.drop_last(), base, pending, n0);
        if entries[i].is_dir && has_path(pending, entry_path(base, entries[i])) {
            prev.push((n0 + i) as u32)
        } else {
            prev
        }
    }
}

pub proof fn lemma_expand_ids_range(entries: Seq<DirEntry>, base: Seq<char>, pending: Seq<String>, n0: int)
    requires
        0 <= n0,
        n0 + entries.len() < u32::MAX,
    ensures
        expand_ids(entries, base, pending, n0).len() <= entries.len(),
        forall|k: int| 0 <= k < expand_ids(entries, base, pending, n0).len() ==>
            n0 <= #[trigger] expand_ids(entries, base, pending, n0)[k] < n0 + entries.len(),
    decreases entries.len(),
{
    if entries.len() > 0 {
        lemma_expand_ids_range(entries.drop_last(), base, pending, n0);
    }
}

/// The index of the last entry whose path is `p`.
pub open spec fn last_pick(entries: Seq<DirEntry>, base: Seq<char>, p: Seq<char>) -> Option<int>
    decreases entries.len(),
{
    if entries.len() == 0 {
        None
    } else if entry_path(base, entries.last()) == p {
        Some(entries.len() - 1)
    } else {
        last_pick(entries.drop_last(), base, p)
    }
}

pub proof fn lemma_last_pick_range(entries: Seq<DirEntry>, base: Seq<char>, p: Seq<char>)
    ensures
        last_pick(entries, base, p) matches Some(i) ==> 0 <= i < entries.len(),
    decreases entries.len(),
{
    if entries.len() > 0 {
        lemma_last_pick_range(entries.drop_last(), base, p);
    }
}

/// The entry to select: the last one with the path that was selected before.
pub open spec fn pick_of(pending: Option<String>, entries: Seq<DirEntry>, base: Seq<char>) -> Option<int> {
    match pending {
        Some(p) => last_pick(entries, base, p@),
        None => None,
    }
}

/// Generation `g` moved on `k` times.
pub open spec fn gen_iter(g: u64, k: nat) -> u64
    decreases k,
{
    if k == 0 { g } else { next_gen(gen_iter(g, (k - 1) as nat)) }
}

/// `b` is `a` with the children of each directory of `ids` asked for, in
/// order, each under a new generation.
pub open spec fn dirs_asked(a: App, b: App, ids: Seq<u32>) -> bool {
    let first = a.outbox@.len() as int;
    &&& b == (App { outbox: b.outbox, generation: gen_iter(a.generation, ids.len()), ..a })
    &&& b.outbox@.len() == first + ids.len()
    &&& b.outbox@.take(first) == a.outbox@
    &&& forall|k: int| 0 <= k < ids.len() ==> (b.outbox@[first + k] matches TaskRequest::ReadDir {
        generation, node, dir, show_ignored }
        && generation == gen_iter(a.generation, (k + 1) as nat) && node == #[trigger] ids[k]
        && dir@ == join_of(a.root@, a.fs_tree.nodes_v()[ids[k] as int].path@)
        && show_ignored == a.show_ignored)
}

/// `y` is `x` with the directories above `id` expanded and the row of `id`
/// selected when it shows.
pub open spec fn node_revealed(x: TreeModel, y: TreeModel, id: u32) -> bool {
    &&& y.wf()
    &&& y.nodes_v() == expand_up(x.nodes_v(), x.nodes_v()[id as int].parent)
    &&& y.filter_v() == x.filter_v()
    &&& y.off() == x.off()
    &&& (y.rows().contains(id) ==> {
        &&& 0 <= y.sel() < y.rows().len()
        &&& y.rows()[y.sel()] == id
        &&& forall|j: int| 0 <= j < y.sel() ==> y.rows()[j] != id
    })
    &&& (x.filter_v() is None && 0 < id && dirs_up(x.nodes_v(), id as int) ==> y.rows().contains(id))
}

/// `b` is `a` with the path waited for found at node `id` of the file tree
/// and revealed there.
pub open spec fn found_again(a: App, b: App, id: u32) -> bool {
    &&& b.wf()
    &&& b == (App { pending_select: None, fs_tree: b.fs_tree, ..a })
    &&& node_revealed(a.fs_tree, b.fs_tree, id)
}

/// What the entries of a directory do, from `a` to `b`. A failure is
/// reported. Entries for a node that is gone or already has children are
/// dropped. Otherwise they become the node's children, the file tree is
/// marked with the changes, the children expanded before are asked for in
/// turn, and the path selected before, when it is among them, is revealed
/// and, in tree mode, shown.
pub open spec fn dir_taken(a: App, b: App, node: u32, outcome: Result<Vec<DirEntry>, String>) -> bool {
    match outcome {
        Err(e) => {
            &&& b == (App { notice: b.notice, ..a })
            &&& b.notice matches Some(n) && n@ == message_of("ディレクトリを読めない: "@, e@)
        },
        Ok(entries) => {
            let nodes = a.fs_tree.nodes_v();
            if node >= nodes.len() || kids(nodes, node as int).len() > 0 {
                b == a
            } else {
                let base = nodes[node as int].path@;
                let n0 = nodes.len() as int;
                exists|m1: App, m2: App, m3: App| #[trigger] dir_filled(a, m1, node, entries@)
                    && #[trigger] fs_status_applied(m1, m2)
                    && #[trigger] dirs_asked(m2, m3, expand_ids(entries@, base, a.pending_expand@, n0))
                    && match pick_of(a.pending_select, entries@, base) {
                        None => b == m3,
                        Some(i) => exists|m4: App| #[trigger] found_again(m3, m4, (n0 + i) as u32) && if a.mode == Mode::Tree {
                            content_request(m4, b, selected_of(m4.cur_tree()))
                        } else {
                            b == m4
                        },
                    }
            }
        },
    }
}

/// Adds the entries as the children of directory `node` of the file tree,
/// expanding those that were expanded before, and marks it as loaded.
/// Returns the ids of the expanded ones, and that of the last entry with
/// the path waited for.
#[verifier::spinoff_prover]
#[verifier::rlimit(60)]
fn fill_dir(app: &mut App, node: u32, entries: &Vec<DirEntry>) -> (r: (Vec<u32>, Option<u32>))
    requires
        old(app).wf(),
        node < old(app).fs_tree.nodes_v().len(),
        kids(old(app).fs_tree.nodes_v(), node as int).len() == 0,
        old(app).fs_tree.nodes_v().len() + entries@.len() + 1 < u32::MAX,
        node != 0 ==> old(app).fs_tree.nodes_v()[node as int].depth < u16::MAX,
    ensures
        dir_filled(*old(app), *final(app), node, entries@),
        r.0@ == expand_ids(entries@, old(app).fs_tree.nodes_v()[node as int].path@, old(app).pending_expand@,
            old(app).fs_tree.nodes_v().len() as int),
        r.1 == match pick_of(old(app).pending_select, entries@, old(app).fs_tree.nodes_v()[node as int].path@) {
            Some(j) => Some((old(app).fs_tree.nodes_v().len() + j) as u32),
            None => None::<u32>,
        },
{
    let ghost before = app.fs_tree.nodes_v();
    let ghost pending = app.pending_expand@;
    let ghost waited = app.pending_select;
    let mut tree = TreeModel::new();
    std::mem::swap(&mut tree, &mut app.fs_tree);
    let n0 = tree.node_count();
    let base = tree.node(node).path.clone();
    let depth: u16 = if node == 0 { 0 } else { tree.node(node).depth + 1 };
    let mut ids: Vec<u32> = Vec::new();
    let mut pick: Option<u32> = None;
    let mut i: usize = 0;
    proof {
        assert(entries@.take(0) =~= Seq::<DirEntry>::empty());
        assert(kids(before, node as int) =~= Seq::new(0, |j: int| (n0 + j) as u32));
    }
    while i < entries.len()
        invariant
            i <= entries@.len(),
            pending == app.pending_expand@,
            waited == app.pending_select,
            n0 == before.len(),
            node < n0,
            n0 + entries@.len() + 1 < u32::MAX,
            base@ == before[node as int].path@,
            depth == child_depth(before, node),
            tree.wf(),
            tree.nodes_v().len() == n0 + i,
            forall|k: int| 0 <= k < n0 && k != node ==> #[trigger] tree.nodes_v()[k] == before[k],
            same_but_children(before[node as int], tree.nodes_v()[node as int]),
            i > 0 ==> tree.nodes_v()[node as int].children is Some,
            kids(tree.nodes_v(), node as int) == Seq::new(i as nat, |j: int| (n0 + j) as u32),
            forall|j: int| 0 <= j < i ==> entry_shown(tree.nodes_v()[n0 + j], #[trigger] entries@[j], base@,
                depth, node, has_path(pending, entry_path(base@, entries@[j]))),
            tree.filter_v() == old(app).fs_tree.filter_v(),
            tree.sel() == old(app).fs_tree.sel(),
            tree.off() == old(app).fs_tree.off(),
            ids@ == expand_ids(entries@.take(i as int), base@, pending, n0 as int),
            pick == match pick_of(waited, entries@.take(i as int), base@) {
                Some(j) => Some((n0 + j) as u32),
                None => None::<u32>,
            },
        decreases entries@.len() - i,
    {
        let e = &entries[i];
        let path = join_path(base.as_str(), e.name.as_str());
        let child = if e.is_dir {
            Node::dir(e.name.clone(), path.clone(), depth, Some(node))
        } else {
            Node::file(e.name.clone(), path.clone(), depth, Some(node))
        };
        let ghost mid = tree.nodes_v();
        let id = tree.push_child(node, child);
        let expand = e.is_dir && contains_path(&app.pending_expand, &path);
        if expand {
            tree.expand(id);
            ids.push(id);
        }
        let hit = match &app.pending_select {
            Some(p) => *p == path,
            None => false,
        };
        if hit {
            pick = Some(id);
        }
        proof {
            let t = entries@.take(i + 1);
            assert(t.drop_last() =~= entries@.take(i as int));
            assert(t.last() == entries@[i as int]);
            assert(kids(tree.nodes_v(), node as int) =~= Seq::new((i + 1) as nat, |j: int| (n0 + j) as u32));
            assert forall|j: int| 0 <= j < i + 1 implies entry_shown(tree.nodes_v()[n0 + j], #[trigger] entries@[j],
                base@, depth, node, has_path(pending, entry_path(base@, entries@[j]))) by {
                if j < i {
                    assert(tree.nodes_v()[n0 + j] == mid[n0 + j]);
                }
            }
        }
        i += 1;
    }
    let ghost filled = tree.nodes_v();
    tree.mark_loaded(node);
    app.fs_tree = tree;
    proof {
        assert(entries@.take(i as int) =~= entries@);
        assert forall|j: int| 0 <= j < entries@.len() implies entry_shown(app.fs_tree.nodes_v()[n0 + j], #[trigger] entries@[j],
            base@, depth, node, has_path(pending, entry_path(base@, entries@[j]))) by {
            assert(app.fs_tree.nodes_v()[n0 + j] == filled[n0 + j]);
        }
    }
    (ids, pick)
}

/// Asks for the children of each directory of `ids`, in order.
#[verifier::spinoff_prover]
#[verifier::rlimit(60)]
fn ask_dirs(app: &mut App, ids: &Vec<u32>)
    requires
        old(app).wf(),
        forall|k: int| 0 <= k < ids@.len() ==> #[trigger] ids@[k] < old(app).fs_tree.nodes_v().len(),
    ensures
        final(app).wf(),
        dirs_asked(*old(app), *final(app), ids@),
{
    let mut k: usize = 0;
    proof {
        assert(ids@.take(0) =~= Seq::<u32>::empty());
        assert(app.outbox@.take(app.outbox@.len() as int) =~= app.outbox@);
    }
    while k < ids.len()
        invariant
            k <= ids@.len(),
            forall|t: int| 0 <= t < ids@.len() ==> #[trigger] ids@[t] < old(app).fs_tree.nodes_v().len(),
            app.wf(),
            app.fs_tree == old(app).fs_tree,
            dirs_asked(*old(app), *app, ids@.take(k as int)),
        decreases ids@.len() - k,
    {
        let id = ids[k];
        let rel = app.fs_tree.node(id).path.clone();
        let ghost prev = *app;
        app.request_dir(id, &rel);
        proof {
            let first = old(app).outbox@.len() as int;
            let t = ids@.take(k + 1);
            assert(t.drop_last() =~= ids@.take(k as int));
            assert(app.outbox@.take(first) =~= old(app).outbox@) by {
                assert(app.outbox@.drop_last() == prev.outbox@);
                assert(prev.outbox@.take(first) == old(app).outbox@);
            }
            assert forall|q: int| 0 <= q < t.len() implies (app.outbox@[first + q] matches TaskRequest::ReadDir {
                generation, node, dir, show_ignored }
                && generation == gen_iter(old(app).generation, (q + 1) as nat) && node == #[trigger] t[q]
                && dir@ == join_of(old(app).root@, old(app).fs_tree.nodes_v()[t[q] as int].path@)
                && show_ignored == old(app).show_ignored) by {
                if q < k {
                    assert(app.outbox@[first + q] == prev.outbox@[first + q]);
                    assert(t[q] == ids@.take(k as int)[q]);
                }
            }
        }
        k += 1;
    }
    assert(ids@.take(k as int) =~= ids@);
}

/// Takes the entries of a directory of the file tree.
#[verifier::spinoff_prover]
#[verifier::rlimit(60)]
pub fn on_dir(app: &mut App, node: u32, outcome: Result<Vec<DirEntry>, String>)
    requires
        old(app).wf(),
        outcome matches Ok(entries) ==> old(app).fs_tree.nodes_v().len() + entries@.len() + 1 < u32::MAX,
        outcome is Ok && 0 < node < old(app).fs_tree.nodes_v().len() ==> old(app).fs_tree.nodes_v()[node as int].depth < u16::MAX,
    ensures
        final(app).wf(),
        dir_taken(*old(app), *final(app), node, outcome),
{
    match outcome {
        Err(error) => {
            let mut msg = String::from_str("ディレクトリを読めない: ");
            msg.append(error.as_str());
            app.notice = Some(msg);
        },
        Ok(entries) => {
            if app.fs_tree.node_count() <= node as usize {
                return;
            }
            if app.fs_tree.children_count(node) > 0 {
                return;
            }
            let ghost nodes = app.fs_tree.nodes_v();
            let ghost base = nodes[node as int].path@;
            let ghost n0 = nodes.len() as int;
            let (ids, pick) = fill_dir(app, node, &entries);
            let ghost m1 = *app;
            app.apply_status_to_fs_tree();
            let ghost m2 = *app;
            proof {
                lemma_expand_ids_range(entries@, base, old(app).pending_expand@, n0);
                lemma_last_pick_range(entries@, base, m1.pending_select->0@);
            }
            ask_dirs(app, &ids);
            let ghost m3 = *app;
            assert(dir_filled(*old(app), m1, node, entries@));
            assert(fs_status_applied(m1, m2));
            assert(dirs_asked(m2, m3, expand_ids(entries@, base, old(app).pending_expand@, n0)));
            match pick {
                Some(id) => {
                    app.pending_select = None;
                    app.fs_tree.reveal_node(id);
                    let ghost m4 = *app;
                    assert(found_again(m3, m4, id));
                    if app.mode == Mode::Tree {
                        app.request_content();
                    }
                },
                None => {},
            }
        },
    }
}

} // verus!
