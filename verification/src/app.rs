//! The application's state, and the jobs it asks for. Jobs are not run
//! here: each request is queued in the outbox, and whoever drives the
//! application runs them and hands their results back.
use vstd::prelude::*;
use crate::changes::{ChangeKind, ChangeSet, DiffSpec, FileChange, HeadInfo, first_with_path};
use crate::config::Config;
use crate::lines::LineTable;
use crate::paths::{file_name, join_of, join_path, name_of, parent_of, parent_path};
use crate::state::{ChangeSort, ContentState, Focus, Mode, Overlay, SearchState};
use crate::strs::chars_of;
use crate::status::{change_lt, sort_change_indices};
use crate::task::{HighlightTarget, TaskRequest};
use crate::tree::{Node, TreeModel, clamp_sel, expand_up, fresh_root, kids, same_but_children, selected_of, synced_from,
    tree_shape, with_expanded, with_status};

verus! {

pub struct App {
    pub cfg: Config,
    /// The directory shown: the repository's work tree, or the start directory.
    pub root: String,
    /// Whether `root` is a Git work tree; diff mode needs one.
    pub has_repo: bool,
    /// Requests not yet handed to the workers, oldest first.
    pub outbox: Vec<TaskRequest>,
    pub head: Option<HeadInfo>,
    pub mode: Mode,
    pub focus: Focus,
    pub overlay: Overlay,
    pub fs_tree: TreeModel,
    pub change_tree: TreeModel,
    pub changes: ChangeSet,
    pub content: ContentState,
    pub search: SearchState,
    pub notice: Option<String>,
    pub generation: u64,
    pub status_generation: u64,
    pub tree_ratio: u16,
    pub show_ignored: bool,
    pub hierarchical_changes: bool,
    pub change_sort: ChangeSort,
    /// What diff mode compares.
    pub diff_spec: DiffSpec,
    /// Diffs forced into one column.
    pub unified: bool,
    /// Long lines wrap in the content pane.
    pub wrap: bool,
    pub scanning: bool,
    pub should_quit: bool,
    /// Directories to expand again, and the path to select again, while the
    /// file tree is read anew.
    pub pending_expand: Vec<String>,
    pub pending_select: Option<String>,
    /// Pane heights of the last drawing, for scroll steps.
    pub tree_height: usize,
    pub content_height: usize,
}

/// The generation after `g`, counting on from 0 after the largest.
pub open spec fn next_gen(g: u64) -> u64 {
    if g < u64::MAX { (g + 1) as u64 } else { 0 }
}

impl App {
    pub open spec fn wf(&self) -> bool {
        &&& self.fs_tree.wf()
        &&& self.change_tree.wf()
        &&& self.content.wf()
        &&& self.search.wf()
        &&& changes_fit(self.changes.files@)
    }

    /// The tree of the current mode.
    pub open spec fn cur_tree(&self) -> TreeModel {
        match self.mode {
            Mode::Tree => self.fs_tree,
            Mode::Diff => self.change_tree,
        }
    }

    /// A fresh application in tree mode, which asks for the root directory
    /// and, in a repository, for the status.
    pub fn new(cfg: Config, root: String, has_repo: bool) -> (app: App)
        ensures
            app.wf(),
            app.cfg == cfg,
            app.root == root,
            app.has_repo == has_repo,
            app.head is None,
            app.mode == Mode::Tree,
            app.focus == Focus::Tree,
            app.overlay is Closed,
            app.fs_tree.nodes_v().len() == 1 && fresh_root(app.fs_tree.nodes_v()[0]),
            app.change_tree.nodes_v().len() == 1 && fresh_root(app.change_tree.nodes_v()[0]),
            app.changes.files@.len() == 0,
            app.content is Empty,
            app.notice is None,
            app.generation == 1,
            app.status_generation == (if has_repo { 1u64 } else { 0u64 }),
            app.tree_ratio == cfg.tree_ratio,
            !app.show_ignored && !app.hierarchical_changes && !app.unified && !app.wrap,
            app.change_sort == ChangeSort::Path,
            app.diff_spec == DiffSpec::WorktreeVsHead,
            app.scanning == has_repo,
            !app.should_quit,
            app.pending_expand@.len() == 0,
            app.pending_select is None,
            app.outbox@.len() == (if has_repo { 2int } else { 1int }),
            app.outbox@[0] matches TaskRequest::ReadDir { generation, node, dir, show_ignored }
                && generation == 1 && node == 0 && dir@ == root@ && !show_ignored,
            has_repo ==> (app.outbox@[1] matches TaskRequest::ScanStatus { generation, spec }
                && generation == 1 && spec == DiffSpec::WorktreeVsHead),
    {
        let tree_ratio = cfg.tree_ratio;
        let mut app = App {
            cfg,
            root,
            has_repo,
            outbox: Vec::new(),
            head: None,
            mode: Mode::Tree,
            focus: Focus::Tree,
            overlay: Overlay::Closed,
            fs_tree: TreeModel::new(),
            change_tree: TreeModel::new(),
            changes: ChangeSet { files: Vec::new() },
            content: ContentState::Empty,
            search: SearchState::new(),
            notice: None,
            generation: 0,
            status_generation: 0,
            tree_ratio,
            show_ignored: false,
            hierarchical_changes: false,
            change_sort: ChangeSort::Path,
            diff_spec: DiffSpec::WorktreeVsHead,
            unified: false,
            wrap: false,
            scanning: false,
            should_quit: false,
            pending_expand: Vec::new(),
            pending_select: None,
            tree_height: 1,
            content_height: 1,
        };
        proof {
            assert(all_indices(0) =~= Seq::<usize>::empty());
            assert(tree_budget(app.changes.files@) == 0);
        }
        app.request_root_dir();
        app.request_status();
        app
    }

    /// The tree of the current mode.
    pub fn tree(&mut self) -> (t: &mut TreeModel)
        ensures
            *t == old(self).cur_tree(),
            final(self).mode == old(self).mode,
            old(self).mode == Mode::Tree ==> final(self).fs_tree == *final(t) && final(self).change_tree == old(self).change_tree,
            old(self).mode == Mode::Diff ==> final(self).change_tree == *final(t) && final(self).fs_tree == old(self).fs_tree,
    {
        match self.mode {
            Mode::Tree => &mut self.fs_tree,
            Mode::Diff => &mut self.change_tree,
        }
    }

    /// Moves on to the next generation and returns it.
    pub fn next_generation(&mut self) -> (g: u64)
        ensures
            g == next_gen(old(self).generation),
            *final(self) == (App { generation: g, ..*old(self) }),
    {
        self.generation = if self.generation < u64::MAX { self.generation + 1 } else { 0 };
        self.generation
    }

    /// Asks for the root directory's entries, as a new generation.
    pub fn request_root_dir(&mut self)
        ensures
            *final(self) == (App { outbox: final(self).outbox, generation: next_gen(old(self).generation), ..*old(self) }),
            final(self).outbox@.len() == old(self).outbox@.len() + 1,
            final(self).outbox@.drop_last() == old(self).outbox@,
            final(self).outbox@.last() matches TaskRequest::ReadDir { generation, node, dir, show_ignored }
                && generation == final(self).generation && node == 0 && dir == old(self).root
                && show_ignored == old(self).show_ignored,
    {
        let generation = self.next_generation();
        let dir = self.root.clone();
        self.outbox.push(TaskRequest::ReadDir { generation, node: TreeModel::ROOT, dir, show_ignored: self.show_ignored });
        assert(self.outbox@.drop_last() =~= old(self).outbox@);
    }

    /// Asks for the status of the repository, if there is one.
    pub fn request_status(&mut self)
        ensures
            !old(self).has_repo ==> *final(self) == *old(self),
            old(self).has_repo ==> {
                &&& *final(self) == (App {
                    outbox: final(self).outbox,
                    status_generation: next_gen(old(self).status_generation),
                    scanning: true,
                    ..*old(self)
                })
                &&& final(self).outbox@.len() == old(self).outbox@.len() + 1
                &&& final(self).outbox@.drop_last() == old(self).outbox@
                &&& final(self).outbox@.last() matches TaskRequest::ScanStatus { generation, spec }
                    && generation == final(self).status_generation && spec == old(self).diff_spec
            },
    {
        if !self.has_repo {
            return;
        }
        self.status_generation = if self.status_generation < u64::MAX { self.status_generation + 1 } else { 0 };
        self.scanning = true;
        let generation = self.status_generation;
        let spec = self.diff_spec.duplicate();
        self.outbox.push(TaskRequest::ScanStatus { generation, spec });
        assert(self.outbox@.drop_last() =~= old(self).outbox@);
    }

    /// Asks for the entries of the directory at `rel` below the root, for node `node`.
    pub fn request_dir(&mut self, node: u32, rel: &String)
        ensures
            *final(self) == (App { outbox: final(self).outbox, generation: next_gen(old(self).generation), ..*old(self) }),
            final(self).outbox@.len() == old(self).outbox@.len() + 1,
            final(self).outbox@.drop_last() == old(self).outbox@,
            final(self).outbox@.last() matches TaskRequest::ReadDir { generation, node: n, dir, show_ignored }
                && generation == final(self).generation && n == node && dir@ == join_of(old(self).root@, rel@)
                && show_ignored == old(self).show_ignored,
    {
        let generation = self.next_generation();
        let dir = join_path(self.root.as_str(), rel.as_str());
        self.outbox.push(TaskRequest::ReadDir { generation, node, dir, show_ignored: self.show_ignored });
        assert(self.outbox@.drop_last() =~= old(self).outbox@);
    }

    /// Asks for the colors of a file that is shown: first the lines that
    /// fit twice the content pane (at least 64) when the file is longer,
    /// then the whole file. The workers take jobs in order, so the visible
    /// part is colored first. Nothing is asked when coloring is off.
    #[verifier::spinoff_prover]
    #[verifier::rlimit(50)]
    pub fn request_highlight(&mut self, generation: u64, target: HighlightTarget, path: String, table: LineTable)
        ensures
            highlight_asked(*old(self), *final(self), generation, target, path, table),
    {
        if !self.cfg.syntax_highlight {
            return;
        }
        let theme = self.cfg.syntax_theme.clone();
        let max_lines = self.cfg.max_highlight_lines;
        let twice = if self.content_height > usize::MAX / 2 { usize::MAX } else { self.content_height * 2 };
        let visible = if twice > 64 { twice } else { 64 };
        let ghost first = self.outbox@.len();
        if visible < table.len() {
            self.outbox.push(TaskRequest::Highlight {
                generation,
                target,
                path: path.clone(),
                table: table.duplicate(),
                theme: theme.clone(),
                max_lines,
                upto: visible,
            });
        }
        self.outbox.push(TaskRequest::Highlight { generation, target, path, table, theme, max_lines, upto: usize::MAX });
        assert(self.outbox@.take(first as int) =~= old(self).outbox@);
    }

    /// Asks for what the selected node shows: a file's text in tree mode,
    /// its diff in diff mode. A new generation lets results for earlier
    /// selections be dropped when they come.
    pub fn request_content(&mut self)
        requires
            old(self).wf(),
        ensures
            content_request(*old(self), *final(self), selected_of(old(self).cur_tree())),
    {
        let picked: Option<(bool, String)> = match self.mode {
            Mode::Tree => match self.fs_tree.selected_node() {
                Some(n) => Some((n.is_dir, n.path.clone())),
                None => None,
            },
            Mode::Diff => match self.change_tree.selected_node() {
                Some(n) => Some((n.is_dir, n.path.clone())),
                None => None,
            },
        };
        match picked {
            None => {
                self.content = ContentState::Empty;
            },
            Some((is_dir, path)) => {
                if is_dir {
                    self.content = ContentState::Empty;
                    return;
                }
                let generation = self.next_generation();
                self.search.clear();
                match self.mode {
                    Mode::Tree => {
                        let abs = join_path(self.root.as_str(), path.as_str());
                        self.content = ContentState::Loading { path: path.clone() };
                        self.outbox.push(TaskRequest::LoadText { generation, path, abs });
                        assert(self.outbox@.drop_last() =~= old(self).outbox@);
                    },
                    Mode::Diff => {
                        let found = match self.changes.find(&path) {
                            Some(c) => Some(c.duplicate()),
                            None => None,
                        };
                        match found {
                            None => {
                                self.content = ContentState::Empty;
                            },
                            Some(change) => {
                                self.content = ContentState::Loading { path: path.clone() };
                                let spec = self.diff_spec.duplicate();
                                self.outbox.push(TaskRequest::ComputeDiff { generation, change, spec });
                                assert(self.outbox@.drop_last() =~= old(self).outbox@);
                            },
                        }
                    },
                }
            },
        }
    }

    /// Marks every node of the file tree with the kind of change of its path.
    pub fn apply_status_to_fs_tree(&mut self)
        requires
            old(self).wf(),
        ensures
            fs_status_applied(*old(self), *final(self)),
    {
        let n = self.fs_tree.node_count();
        let ghost start = self.fs_tree.nodes_v();
        let mut id: usize = 0;
        while id < n
            invariant
                id <= n,
                n == start.len(),
                n < u32::MAX,
                self.wf(),
                *self == (App { fs_tree: self.fs_tree, ..*old(self) }),
                self.fs_tree.nodes_v().len() == n,
                forall|k: int| 0 <= k < id ==> #[trigger] self.fs_tree.nodes_v()[k]
                    == with_status(start[k], last_kind(self.changes.files@, start[k].path@)),
                forall|k: int| id <= k < n ==> #[trigger] self.fs_tree.nodes_v()[k] == start[k],
                self.fs_tree.filter_v() == old(self).fs_tree.filter_v(),
                self.fs_tree.sel() == old(self).fs_tree.sel(),
                self.fs_tree.off() == old(self).fs_tree.off(),
            decreases n - id,
        {
            let status = last_change_kind(&self.changes.files, &self.fs_tree.node(id as u32).path);
            self.fs_tree.set_status(id as u32, status);
            proof {
                assert(self.fs_tree.nodes_v()[id as int] == with_status(start[id as int], last_kind(self.changes.files@, start[id as int].path@)));
            }
            id += 1;
        }
    }

    pub fn content_is_empty(&self) -> (b: bool)
        ensures
            b == (self.content is Empty),
    {
        match self.content {
            ContentState::Empty => true,
            _ => false,
        }
    }

    /// The changed files' indices in the current sort order. Path order is
    /// the order they come in.
    fn sorted_changes(&self) -> (order: Vec<usize>)
        ensures
            change_order(self.changes.files@, order@, self.change_sort == ChangeSort::Kind),
    {
        let n = self.changes.files.len();
        let mut order: Vec<usize> = Vec::new();
        let mut i: usize = 0;
        while i < n
            invariant
                i <= n,
                n == self.changes.files@.len(),
                order@ == all_indices(i as int),
            decreases n - i,
        {
            order.push(i);
            i += 1;
            assert(order@ =~= all_indices(i as int));
        }
        if self.change_sort == ChangeSort::Kind {
            sort_change_indices(&self.changes.files, &mut order, true);
        }
        order
    }

    /// Builds the diff mode's tree anew from the changed files, flat or
    /// grouped under their directories, and selects again the path that was
    /// selected, when the new tree has it.
    #[verifier::spinoff_prover]
    #[verifier::rlimit(60)]
    pub fn rebuild_change_tree(&mut self)
        requires
            old(self).wf(),
            changes_fit(old(self).changes.files@),
        ensures
            change_tree_rebuilt(*old(self), *final(self)),
    {
        let prev: Option<String> = match self.change_tree.selected_node() {
            Some(n) => if n.path.as_str().is_empty() { None } else { Some(n.path.clone()) },
            None => None,
        };
        let ghost files = self.changes.files@;
        let order = self.sorted_changes();
        let grouped = self.hierarchical_changes;
        proof {
            broadcast use vstd::seq_lib::group_to_multiset_ensures;
            assert(order@.len() == order@.to_multiset().len());
            assert(all_indices(files.len() as int).len() == all_indices(files.len() as int).to_multiset().len());
        }
        let tree = build_change_tree(&self.changes.files, &order, grouped);
        self.change_tree = tree;
        proof {
            if !grouped {
                lemma_flat_rows(self.change_tree.nodes_v());
            }
        }
        assert(change_order(files, order@, self.change_sort == ChangeSort::Kind)
            && files_shown(self.change_tree.nodes_v(), files, order@, grouped));
        match prev {
            Some(p) => {
                match self.change_tree.find_by_path(p.as_str()) {
                    Some(id) => {
                        proof {
                            lemma_dirs_up(self.change_tree.nodes_v(), id as int);
                            assert(id != 0);
                        }
                        let ghost shown = self.change_tree.nodes_v();
                        self.change_tree.reveal_node(id);
                        proof {
                            let r = self.change_tree.nodes_v();
                            crate::tree::lemma_expand_up_frame(shown, shown[id as int].parent);
                            assert(r[id as int].path == shown[id as int].path);
                            lemma_flag_files(shown, r);
                            assert(same_shape(shown, r)) by {
                                assert forall|q: int| 0 <= q < r.len() implies r[q] == with_expanded(shown[q], r[q].expanded) by {}
                            }
                            lemma_shape_keeps(shown, r);
                            if !grouped {
                                lemma_flat_rows(r);
                            }
                            if grouped {
                                assert forall|q: int| 0 < q < r.len() && (#[trigger] r[q]).is_dir implies r[q].expanded by {
                                    assert(r[q] == with_expanded(shown[q], r[q].expanded));
                                }
                            }
                            assert forall|t: int| 0 <= t < order@.len() implies {
                                let n = #[trigger] file_nodes(r)[t];
                                let c = files[order@[t] as int];
                                &&& n.path@ == c.path@
                                &&& n.status == Some(c.kind)
                                &&& n.name@ == if grouped { name_of(c.path@) } else { c.path@ }
                            } by {
                                assert(file_nodes(r)[t] == with_expanded(file_nodes(shown)[t], file_nodes(r)[t].expanded));
                            }
                            assert(files_shown(r, files, order@, grouped));
                        }
                    },
                    None => {},
                }
            },
            None => {},
        }
    }
}

/// What asking for the content of `picked` does, from `a` to `b`: nothing
/// to show for no node or a directory; otherwise a new generation, a
/// cleared search, and a load of the file's text (tree mode) or of its
/// change's diff (diff mode, when the file is among the changes).
/// Only the current tree (its rows brought up to date), the content, the
/// search, the outbox and the generation change.
pub open spec fn content_request(a: App, b: App, picked: Option<Node>) -> bool {
    &&& b.wf()
    &&& b == (App {
        fs_tree: b.fs_tree,
        change_tree: b.change_tree,
        content: b.content,
        search: b.search,
        outbox: b.outbox,
        generation: b.generation,
        ..a
    })
    &&& (a.mode == Mode::Tree ==> synced_from(a.fs_tree, b.fs_tree) && b.change_tree == a.change_tree)
    &&& (a.mode == Mode::Diff ==> synced_from(a.change_tree, b.change_tree) && b.fs_tree == a.fs_tree)
    &&& match picked {
        Some(n) => if !n.is_dir {
            file_requested(a, b, n)
        } else {
            nothing_to_show(a, b)
        },
        None => nothing_to_show(a, b),
    }
}

/// The content pane is emptied, and nothing is asked.
pub open spec fn nothing_to_show(a: App, b: App) -> bool {
    b.content is Empty && b.search == a.search && b.outbox == a.outbox && b.generation == a.generation
}

/// The file of node `n` is asked for, as its mode shows it.
pub open spec fn file_requested(a: App, b: App, n: Node) -> bool {
    &&& b.generation == next_gen(a.generation)
    &&& b.search.is_fresh()
    &&& match a.mode {
        Mode::Tree => {
            &&& b.content == ContentState::Loading { path: n.path }
            &&& b.outbox@.len() == a.outbox@.len() + 1
            &&& b.outbox@.drop_last() == a.outbox@
            &&& b.outbox@.last() matches TaskRequest::LoadText { generation, path, abs }
                && generation == b.generation && path == n.path && abs@ == join_of(a.root@, n.path@)
        },
        Mode::Diff => match first_with_path(a.changes.files@, n.path@) {
            None => b.content is Empty && b.outbox == a.outbox,
            Some(c) => {
                &&& b.content == ContentState::Loading { path: n.path }
                &&& b.outbox@.len() == a.outbox@.len() + 1
                &&& b.outbox@.drop_last() == a.outbox@
                &&& b.outbox@.last() matches TaskRequest::ComputeDiff { generation, change, spec }
                    && generation == b.generation && change == c && spec == a.diff_spec
            },
        },
    }
}

/// What asking for the colors of `table` does, from `a` to `b`: with
/// coloring on, a job for the lines ahead of the pane when the file is
/// longer, then one for the whole file, each after the jobs queued before.
pub open spec fn highlight_asked(a: App, b: App, generation: u64, target: HighlightTarget, path: String, table: LineTable) -> bool {
    &&& b == (App { outbox: b.outbox, ..a })
    &&& (!a.cfg.syntax_highlight ==> b.outbox == a.outbox)
    &&& (a.cfg.syntax_highlight ==> ({
        let visible = highlight_ahead(a.content_height as int);
        let first = a.outbox@.len();
        &&& b.outbox@.len() == first + (if visible < table.lines().len() { 2int } else { 1int })
        &&& b.outbox@.take(first as int) == a.outbox@
        &&& visible < table.lines().len() ==> (b.outbox@[first as int] matches TaskRequest::Highlight {
            generation: g, target: t, path: p, table: tb, theme, max_lines, upto }
            && g == generation && t == target && p == path && tb@ == table@ && tb.lines() == table.lines()
            && theme == a.cfg.syntax_theme && max_lines == a.cfg.max_highlight_lines && upto == visible)
        &&& b.outbox@.last() matches TaskRequest::Highlight {
            generation: g, target: t, path: p, table: tb, theme, max_lines, upto }
            && g == generation && t == target && p == path && tb@ == table@ && tb.lines() == table.lines()
            && theme == a.cfg.syntax_theme && max_lines == a.cfg.max_highlight_lines
            && upto == usize::MAX
    }))
}

/// The rows colored ahead for a content pane of `h` rows.
pub open spec fn highlight_ahead(h: int) -> int {
    let twice = if h > usize::MAX / 2 { usize::MAX as int } else { h * 2 };
    if twice > 64 { twice } else { 64 }
}

/// The file nodes of an arena, in arena order.
pub open spec fn file_nodes(nodes: Seq<Node>) -> Seq<Node>
    decreases nodes.len(),
{
    if nodes.len() == 0 {
        Seq::empty()
    } else {
        let r = file_nodes(nodes.drop_last());
        if !nodes.last().is_dir { r.push(nodes.last()) } else { r }
    }
}

/// Two arenas with the same file nodes at the same places, whose other
/// nodes are all directories.
pub open spec fn same_files(a: Seq<Node>, b: Seq<Node>) -> bool {
    &&& a.len() == b.len()
    &&& forall|k: int| 0 <= k < a.len() ==> (#[trigger] a[k]).is_dir == b[k].is_dir
    &&& forall|k: int| 0 <= k < a.len() && !a[k].is_dir ==> #[trigger] b[k] == a[k]
}

pub proof fn lemma_same_files(a: Seq<Node>, b: Seq<Node>)
    requires
        same_files(a, b),
    ensures
        file_nodes(a) == file_nodes(b),
    decreases a.len(),
{
    if a.len() > 0 {
        assert(same_files(a.drop_last(), b.drop_last())) by {
            assert forall|k: int| 0 <= k < a.len() - 1 implies (#[trigger] a.drop_last()[k]).is_dir == b.drop_last()[k].is_dir by {
                assert(a.drop_last()[k] == a[k] && b.drop_last()[k] == b[k]);
            }
            assert forall|k: int| 0 <= k < a.len() - 1 && !a.drop_last()[k].is_dir implies #[trigger] b.drop_last()[k] == a.drop_last()[k] by {
                assert(a.drop_last()[k] == a[k] && b.drop_last()[k] == b[k]);
            }
        }
        lemma_same_files(a.drop_last(), b.drop_last());
        assert(a.last() == a[a.len() - 1]);
    }
}

/// Changing expanded flags changes no other field of the file nodes.
pub proof fn lemma_flag_files(a: Seq<Node>, b: Seq<Node>)
    requires
        a.len() == b.len(),
        forall|k: int| 0 <= k < a.len() ==> #[trigger] b[k] == with_expanded(a[k], b[k].expanded),
    ensures
        file_nodes(b).len() == file_nodes(a).len(),
        forall|t: int| 0 <= t < file_nodes(a).len() ==> #[trigger] file_nodes(b)[t] == with_expanded(file_nodes(a)[t], file_nodes(b)[t].expanded),
    decreases a.len(),
{
    if a.len() > 0 {
        assert forall|k: int| 0 <= k < a.len() - 1 implies #[trigger] b.drop_last()[k] == with_expanded(a.drop_last()[k], b.drop_last()[k].expanded) by {
            assert(b[k] == with_expanded(a[k], b[k].expanded));
        }
        lemma_flag_files(a.drop_last(), b.drop_last());
        assert(b[b.len() - 1] == with_expanded(a[a.len() - 1], b[b.len() - 1].expanded));
    }
}

/// Every node below the root hangs under a directory.
pub open spec fn parents_are_dirs(nodes: Seq<Node>) -> bool {
    forall|c: int| 0 < c < nodes.len() ==> ((#[trigger] nodes[c]).parent matches Some(p) && p < nodes.len()
        && nodes[p as int].is_dir)
}

/// Every node lists its children in ascending order: the order they were added.
pub open spec fn kids_ascending(nodes: Seq<Node>) -> bool {
    forall|p: int, i: int, j: int| 0 <= p < nodes.len() && 0 <= i < j < kids(nodes, p).len()
        ==> #[trigger] kids(nodes, p)[i] < #[trigger] kids(nodes, p)[j]
}

/// Every node below the root hangs under the node of its path's parent
/// directory (the root for a top-level path).
pub open spec fn under_parent_dirs(nodes: Seq<Node>) -> bool {
    forall|c: int| 0 < c < nodes.len() ==> ((#[trigger] nodes[c]).parent matches Some(p) && p < nodes.len()
        && nodes[p as int].path@ == parent_of(nodes[c].path@))
}

/// A flat list: every node below the root is a file under the root, and
/// the root lists them in the order they were added.
pub open spec fn flat_list(nodes: Seq<Node>) -> bool {
    &&& forall|c: int| 0 < c < nodes.len() ==> !(#[trigger] nodes[c]).is_dir && nodes[c].parent == Some(0u32)
    &&& kids(nodes, 0) == Seq::new((nodes.len() - 1) as nat, |i: int| (i + 1) as u32)
}

/// `b` has the nodes of `a`, linked and named the same way.
pub open spec fn same_shape(a: Seq<Node>, b: Seq<Node>) -> bool {
    &&& a.len() == b.len()
    &&& forall|k: int| 0 <= k < a.len() ==> {
        &&& (#[trigger] b[k]).children == a[k].children
        &&& b[k].parent == a[k].parent
        &&& b[k].path == a[k].path
        &&& b[k].is_dir == a[k].is_dir
    }
}

/// Flags and statuses do not change how the nodes hang together.
pub proof fn lemma_shape_keeps(a: Seq<Node>, b: Seq<Node>)
    requires
        same_shape(a, b),
        a.len() > 0,
    ensures
        kids_ascending(a) ==> kids_ascending(b),
        under_parent_dirs(a) ==> under_parent_dirs(b),
        flat_list(a) ==> flat_list(b),
        parents_are_dirs(a) ==> parents_are_dirs(b),
{
    assert forall|p: int| 0 <= p < a.len() implies kids(b, p) == kids(a, p) by {
        assert(b[p].children == a[p].children);
    }
    if kids_ascending(a) {
        assert forall|p: int, i: int, j: int| 0 <= p < b.len() && 0 <= i < j < kids(b, p).len()
            implies #[trigger] kids(b, p)[i] < #[trigger] kids(b, p)[j] by {
            assert(kids(b, p) == kids(a, p));
        }
    }
    if under_parent_dirs(a) {
        assert forall|c: int| 0 < c < b.len() implies ((#[trigger] b[c]).parent matches Some(p) && p < b.len()
            && b[p as int].path@ == parent_of(b[c].path@)) by {
            assert(a[c].parent matches Some(p) && p < a.len());
            let p = a[c].parent->0 as int;
            assert(b[p].path == a[p].path);
        }
    }
    if flat_list(a) {
        assert(kids(b, 0) == kids(a, 0));
        assert forall|c: int| 0 < c < b.len() implies !(#[trigger] b[c]).is_dir && b[c].parent == Some(0u32) by {
            assert(!a[c].is_dir && a[c].parent == Some(0u32));
        }
    }
    if parents_are_dirs(a) {
        assert forall|c: int| 0 < c < b.len() implies ((#[trigger] b[c]).parent matches Some(p) && p < b.len()
            && b[p as int].is_dir) by {
            assert(a[c].parent matches Some(p) && p < a.len());
            let p = a[c].parent->0 as int;
            assert(b[p].is_dir == a[p].is_dir);
        }
    }
}

/// What pushing a node as the last child of `parent` leaves of the others.
pub open spec fn pushed_child(before: Seq<Node>, after: Seq<Node>, parent: int) -> bool {
    &&& tree_shape(before)
    &&& after.len() == before.len() + 1
    &&& 0 <= parent < before.len()
    &&& forall|k: int| 0 <= k < before.len() && k != parent ==> #[trigger] after[k] == before[k]
    &&& same_but_children(before[parent], after[parent])
    &&& kids(after, parent) == kids(before, parent).push(before.len() as u32)
    &&& kids(after, before.len() as int).len() == 0
    &&& after[before.len() as int].parent == Some(parent as u32)
}

proof fn lemma_push_ascending(before: Seq<Node>, after: Seq<Node>, parent: int)
    requires
        pushed_child(before, after, parent),
        kids_ascending(before),
    ensures
        kids_ascending(after),
{
    let n = before.len() as int;
    assert forall|p: int, i: int, j: int| 0 <= p < after.len() && 0 <= i < j < kids(after, p).len()
        implies #[trigger] kids(after, p)[i] < #[trigger] kids(after, p)[j] by {
        if p == parent {
            assert(kids(after, p)[i] == kids(before, p)[i]);
            assert(kids(before, p)[i] < before.len());
            if j < kids(before, p).len() {
                assert(kids(after, p)[j] == kids(before, p)[j]);
            }
        } else if p < n {
            assert(after[p] == before[p]);
            assert(kids(after, p) == kids(before, p));
        }
    }
}

proof fn lemma_push_under_parent(before: Seq<Node>, after: Seq<Node>, parent: int)
    requires
        pushed_child(before, after, parent),
        under_parent_dirs(before),
        before[parent].path@ == parent_of(after[before.len() as int].path@),
    ensures
        under_parent_dirs(after),
{
    let n = before.len() as int;
    assert forall|c: int| 0 < c < after.len() implies ((#[trigger] after[c]).parent matches Some(p) && p < after.len()
        && after[p as int].path@ == parent_of(after[c].path@)) by {
        if c < n {
            let p = before[c].parent->0 as int;
            if c != parent {
                assert(after[c] == before[c]);
            }
            assert(after[c].parent == before[c].parent && after[c].path == before[c].path);
            if p != parent {
                assert(after[p] == before[p]);
            }
        }
    }
}

proof fn lemma_push_flat(before: Seq<Node>, after: Seq<Node>)
    requires
        pushed_child(before, after, 0),
        flat_list(before),
        !after[before.len() as int].is_dir,
    ensures
        flat_list(after),
{
    let n = before.len() as int;
    assert forall|c: int| 0 < c < after.len() implies !(#[trigger] after[c]).is_dir && after[c].parent == Some(0u32) by {
        if c < n {
            assert(after[c] == before[c]);
        }
    }
    assert(kids(after, 0) =~= Seq::new((after.len() - 1) as nat, |i: int| (i + 1) as u32));
}

/// Adding a node at the end of its parent's list keeps the lists ascending,
/// and keeps a grouped tree grouped or a flat list flat when the node goes
/// where it belongs.
pub proof fn lemma_push_shape(before: Seq<Node>, after: Seq<Node>, parent: int)
    requires
        pushed_child(before, after, parent),
    ensures
        kids_ascending(before) ==> kids_ascending(after),
        under_parent_dirs(before) && before[parent].path@ == parent_of(after[before.len() as int].path@)
            ==> under_parent_dirs(after),
        flat_list(before) && parent == 0 && !after[before.len() as int].is_dir ==> flat_list(after),
{
    if kids_ascending(before) {
        lemma_push_ascending(before, after, parent);
    }
    if under_parent_dirs(before) && before[parent].path@ == parent_of(after[before.len() as int].path@) {
        lemma_push_under_parent(before, after, parent);
    }
    if flat_list(before) && parent == 0 && !after[before.len() as int].is_dir {
        lemma_push_flat(before, after);
    }
}

/// A flat list shows its files as the root lists them.
pub proof fn lemma_flat_rows(nodes: Seq<Node>)
    requires
        tree_shape(nodes),
        flat_list(nodes),
    ensures
        crate::tree::list_rows(nodes, kids(nodes, 0), 0) == kids(nodes, 0),
{
    lemma_flat_prefix(nodes, kids(nodes, 0).len() as int);
    assert(kids(nodes, 0).take(kids(nodes, 0).len() as int) =~= kids(nodes, 0));
}

proof fn lemma_flat_prefix(nodes: Seq<Node>, m: int)
    requires
        tree_shape(nodes),
        flat_list(nodes),
        0 <= m <= kids(nodes, 0).len(),
    ensures
        crate::tree::list_rows(nodes, kids(nodes, 0).take(m), 0) == kids(nodes, 0).take(m),
    decreases m,
{
    let ids = kids(nodes, 0).take(m);
    if m > 0 {
        lemma_flat_prefix(nodes, m - 1);
        assert(ids.drop_last() =~= kids(nodes, 0).take(m - 1));
        let last = ids.last();
        assert(last == kids(nodes, 0)[m - 1]);
        assert(0 < last < nodes.len());
        assert(!nodes[last as int].is_dir);
        assert(crate::tree::subtree_rows(nodes, last as int) =~= seq![last]);
        assert(ids =~= kids(nodes, 0).take(m - 1).push(last));
    } else {
        assert(ids =~= Seq::<u32>::empty());
    }
}

/// Every node's depth is at most the length of its path.
pub open spec fn depth_fits(nodes: Seq<Node>) -> bool {
    forall|c: int| 0 <= c < nodes.len() ==> (#[trigger] nodes[c]).depth <= nodes[c].path@.len()
}

/// Every directory below the root is expanded.
pub open spec fn dirs_expanded(nodes: Seq<Node>) -> bool {
    forall|c: int| 0 < c < nodes.len() && (#[trigger] nodes[c]).is_dir ==> nodes[c].expanded
}

/// The directories made so far, by path.
pub open spec fn dirs_known(dirs: Seq<(String, u32)>, nodes: Seq<Node>) -> bool {
    forall|k: int| 0 <= k < dirs.len() ==> {
        &&& 0 < (#[trigger] dirs[k]).1 < nodes.len()
        &&& nodes[dirs[k].1 as int].is_dir
        &&& nodes[dirs[k].1 as int].path@ == dirs[k].0@
        &&& nodes[dirs[k].1 as int].depth <= dirs[k].0@.len()
    }
}

/// The nodes a change can add to the grouped tree: its directories and itself.
pub open spec fn change_cost(files: Seq<FileChange>) -> spec_fn(int, usize) -> int {
    |acc: int, i: usize| acc + files[i as int].path@.len() + 1
}

/// The most nodes the grouped tree of `files` can need beyond its root.
pub open spec fn tree_budget(files: Seq<FileChange>) -> int {
    Seq::new(files.len(), |i: int| i as usize).fold_left(0, change_cost(files))
}

/// The change tree stays inside `u32` ids, and no depth overflows.
pub open spec fn changes_fit(files: Seq<FileChange>) -> bool {
    &&& tree_budget(files) + 2 < u32::MAX
    &&& forall|i: int| 0 <= i < files.len() ==> (#[trigger] files[i]).path@.len() < 65535
}

/// Checks `changes_fit`.
pub fn fits_change_tree(files: &Vec<FileChange>) -> (b: bool)
    ensures
        b == changes_fit(files@),
{
    let n = files.len();
    let ghost order = all_indices(n as int);
    let ghost f = change_cost(files@);
    let mut total: u64 = 0;
    let mut i: usize = 0;
    proof {
        assert(order.take(0) =~= Seq::<usize>::empty());
    }
    while i < n
        invariant
            i <= n,
            n == files@.len(),
            order == all_indices(n as int),
            f == change_cost(files@),
            total == order.take(i as int).fold_left(0, f),
            total + 2 < u32::MAX,
            forall|j: int| 0 <= j < i ==> (#[trigger] files@[j]).path@.len() < 65535,
        decreases n - i,
    {
        let len = chars_of(files[i].path.as_str()).len();
        proof {
            lemma_fold_prefix(order, f, files@, i as int);
        }
        if len >= 65535 {
            return false;
        }
        total = total + len as u64 + 1;
        if total + 2 >= 0xffff_ffff {
            proof {
                lemma_fold_prefix(order, f, files@, i + 1);
            }
            return false;
        }
        i += 1;
    }
    assert(order.take(n as int) =~= order);
    true
}

/// What building the change tree anew does, from `a` to `b`: the tree
/// shows the changed files in the current order, flat or grouped under
/// expanded directories, and keeps the path selected before when it can.
/// Flat, the visible rows are the files in that order; grouped, every node
/// hangs under the directory of its path, and each list keeps the order in
/// which its entries were first met.
pub open spec fn change_tree_rebuilt(a: App, b: App) -> bool {
    &&& (b.wf())
    &&& (b == (App { change_tree: b.change_tree, ..a }))
    &&& (b.change_tree.filter_v() is None)
    &&& (exists|order: Seq<usize>| { &&& change_order(a.changes.files@, order, a.change_sort == ChangeSort::Kind) &&& files_shown(b.change_tree.nodes_v(), a.changes.files@, order, a.hierarchical_changes) })
    &&& (a.hierarchical_changes ==> dirs_expanded(b.change_tree.nodes_v()))
    &&& (!a.hierarchical_changes ==> b.change_tree.nodes_v().len() == a.changes.files@.len() + 1)
    &&& (b.change_tree.nodes_v()[0].path@.len() == 0)
    &&& (parents_are_dirs(b.change_tree.nodes_v()))
    &&& (kids_ascending(b.change_tree.nodes_v()))
    &&& (a.hierarchical_changes ==> under_parent_dirs(b.change_tree.nodes_v()))
    &&& (!a.hierarchical_changes ==> flat_list(b.change_tree.nodes_v())
        && b.change_tree.rows() == Seq::new(a.changes.files@.len(), |i: int| (i + 1) as u32))
    &&& (selected_path(a.change_tree) matches Some(p) ==> ((exists|k: int| 0 <= k < b.change_tree.nodes_v().len() && (#[trigger] b.change_tree.nodes_v()[k]).path@ == p) ==> selected_path(b.change_tree) == Some(p)))
}

/// What marking the file tree with the changes does, from `a` to `b`.
pub open spec fn fs_status_applied(a: App, b: App) -> bool {
    &&& (b.wf())
    &&& (b == (App { fs_tree: b.fs_tree, ..a }))
    &&& (b.fs_tree.nodes_v().len() == a.fs_tree.nodes_v().len())
    &&& (forall|k: int| 0 <= k < a.fs_tree.nodes_v().len() ==> #[trigger] b.fs_tree.nodes_v()[k] == with_status(a.fs_tree.nodes_v()[k], last_kind(a.changes.files@, a.fs_tree.nodes_v()[k].path@)))
    &&& (b.fs_tree.filter_v() == a.fs_tree.filter_v())
    &&& (b.fs_tree.sel() == a.fs_tree.sel())
    &&& (b.fs_tree.off() == a.fs_tree.off())
}

/// The kind of the last change whose path is `p`.
pub open spec fn last_kind(files: Seq<FileChange>, p: Seq<char>) -> Option<ChangeKind>
    decreases files.len(),
{
    if files.len() == 0 {
        None
    } else if files.last().path@ == p {
        Some(files.last().kind)
    } else {
        last_kind(files.drop_last(), p)
    }
}

fn last_change_kind(files: &Vec<FileChange>, path: &String) -> (k: Option<ChangeKind>)
    ensures
        k == last_kind(files@, path@),
{
    let mut i: usize = files.len();
    proof {
        assert(files@.take(files@.len() as int) =~= files@);
    }
    while i > 0
        invariant
            i <= files@.len(),
            last_kind(files@, path@) == last_kind(files@.take(i as int), path@),
        decreases i,
    {
        proof {
            assert(files@.take(i as int).drop_last() =~= files@.take(i - 1));
        }
        if files[i - 1].path == *path {
            return Some(files[i - 1].kind);
        }
        i -= 1;
    }
    None
}

/// The indices `0..n`.
pub open spec fn all_indices(n: int) -> Seq<usize> {
    Seq::new(n as nat, |i: int| i as usize)
}

/// `order` lists the files in the current sort order: as they are by path,
/// or stably grouped by kind.
pub open spec fn change_order(files: Seq<FileChange>, order: Seq<usize>, by_kind: bool) -> bool {
    &&& order.to_multiset() == all_indices(files.len() as int).to_multiset()
    &&& forall|t: int| 0 <= t < order.len() ==> #[trigger] order[t] < files.len()
    &&& !by_kind ==> order == all_indices(files.len() as int)
    &&& by_kind ==> forall|j: int, k: int| 0 <= j < k < order.len() ==>
        !change_lt(files[#[trigger] order[k] as int], files[#[trigger] order[j] as int], true)
}

/// The file nodes show the changes in `order`: path, status and name (the
/// last component when grouped, the whole path when flat).
pub open spec fn files_shown(nodes: Seq<Node>, files: Seq<FileChange>, order: Seq<usize>, grouped: bool) -> bool {
    &&& file_nodes(nodes).len() == order.len()
    &&& forall|k: int| 0 <= k < order.len() ==> {
        let n = #[trigger] file_nodes(nodes)[k];
        let c = files[order[k] as int];
        &&& n.path@ == c.path@
        &&& n.status == Some(c.kind)
        &&& n.name@ == if grouped { name_of(c.path@) } else { c.path@ }
    }
}

/// The path of the selected node of `t`, unless it is the root's.
pub open spec fn selected_path(t: TreeModel) -> Option<Seq<char>> {
    match selected_of(t) {
        Some(n) => if n.path@.len() > 0 { Some(n.path@) } else { None },
        None => None,
    }
}

/// Directories all the way up: every proper ancestor is a directory.
pub proof fn lemma_dirs_up(nodes: Seq<Node>, c: int)
    requires
        tree_shape(nodes),
        parents_are_dirs(nodes),
        0 <= c < nodes.len(),
    ensures
        crate::tree::dirs_up(nodes, c),
    decreases c,
{
    if c > 0 {
        let p = nodes[c].parent->0 as int;
        lemma_dirs_up(nodes, p);
    }
}

pub proof fn lemma_fold_prefix(order: Seq<usize>, f: spec_fn(int, usize) -> int, files: Seq<FileChange>, k: int)
    requires
        0 <= k <= order.len(),
        f == change_cost(files),
    ensures
        order.take(k).fold_left(0, f) <= order.fold_left(0, f),
        k < order.len() ==> order.take(k + 1).fold_left(0, f) == order.take(k).fold_left(0, f) + files[order[k] as int].path@.len() + 1,
    decreases order.len() - k,
{
    if k < order.len() {
        assert(order.take(k + 1).drop_last() =~= order.take(k));
        lemma_fold_prefix(order, f, files, k + 1);
    } else {
        assert(order.take(k) =~= order);
    }
}

/// The change tree of the files in `order`: flat, each file under the root
/// with its whole path as name, or grouped under expanded directories.
#[verifier::rlimit(100)]
fn build_change_tree(files_v: &Vec<FileChange>, order: &Vec<usize>, grouped: bool) -> (tree: TreeModel)
    requires
        changes_fit(files_v@),
        order@.to_multiset() == all_indices(files_v@.len() as int).to_multiset(),
        forall|t: int| 0 <= t < order@.len() ==> #[trigger] order@[t] < files_v@.len(),
    ensures
        tree.wf(),
        tree.filter_v() is None,
        tree.nodes_v()[0].path@.len() == 0,
        parents_are_dirs(tree.nodes_v()),
        files_shown(tree.nodes_v(), files_v@, order@, grouped),
        grouped ==> dirs_expanded(tree.nodes_v()),
        !grouped ==> tree.nodes_v().len() == order@.len() + 1,
        kids_ascending(tree.nodes_v()),
        grouped ==> under_parent_dirs(tree.nodes_v()),
        !grouped ==> flat_list(tree.nodes_v()),
{
        let ghost files = files_v@;
        let mut tree = TreeModel::new();
        proof {
            assert(order@.take(0) =~= Seq::<usize>::empty());
            assert(file_nodes(tree.nodes_v()) =~= Seq::<Node>::empty()) by {
                assert(tree.nodes_v().drop_last() =~= Seq::<Node>::empty());
                reveal_with_fuel(file_nodes, 2);
            }
            lemma_fold_prefix(order@, change_cost(files), files, 0);
            assert(kids(tree.nodes_v(), 0) =~= Seq::new((tree.nodes_v().len() - 1) as nat, |i: int| (i + 1) as u32));
            assert(vstd::seq_lib::commutative_foldl(change_cost(files)));
            vstd::seq_lib::lemma_fold_left_permutation(order@, all_indices(files.len() as int), change_cost(files), 0);
        }
        let mut dirs: Vec<(String, u32)> = Vec::new();
        let mut k: usize = 0;
        while k < order.len()
            invariant
                k <= order@.len(),
                files == files_v@,
                changes_fit(files),
                forall|t: int| 0 <= t < order@.len() ==> #[trigger] order@[t] < files.len(),
                order@.fold_left(0, change_cost(files)) == tree_budget(files),
                tree.wf(),
                tree.filter_v() is None,
                tree.nodes_v()[0].depth == 0,
                tree.nodes_v()[0].path@.len() == 0,
                parents_are_dirs(tree.nodes_v()),
                depth_fits(tree.nodes_v()),
                dirs_expanded(tree.nodes_v()),
                dirs_known(dirs@, tree.nodes_v()),
                tree.nodes_v().len() <= 1 + order@.take(k as int).fold_left(0, change_cost(files)),
                files_shown(tree.nodes_v(), files, order@.take(k as int), grouped),
                !grouped ==> tree.nodes_v().len() == k + 1,
                kids_ascending(tree.nodes_v()),
                grouped ==> under_parent_dirs(tree.nodes_v()),
                !grouped ==> flat_list(tree.nodes_v()),
            decreases order@.len() - k,
        {
            let i = order[k];
            proof {
                lemma_fold_prefix(order@, change_cost(files), files, k as int);
                lemma_fold_prefix(order@, change_cost(files), files, k + 1);
                assert(order@.take(k + 1).drop_last() =~= order@.take(k as int));
                assert(order@[k as int] == i);
            }
            let change = &files_v[i];
            let ghost before = tree.nodes_v();
            let parent = if grouped {
                let dir = parent_path(change.path.as_str());
                proof {
                    crate::paths::lemma_last_slash_bounds(change.path@);
                }
                ensure_dir(&mut tree, &mut dirs, &dir)
            } else {
                TreeModel::ROOT
            };
            let ghost mid = tree.nodes_v();
            proof {
                if grouped {
                    assert(mid[parent as int].depth <= crate::paths::parent_of(change.path@).len());
                    if parent != 0 {
                        assert(crate::paths::parent_of(change.path@).len() > 0);
                        assert(crate::paths::parent_of(change.path@).len() < change.path@.len());
                    }
                } else {
                    assert(mid[parent as int].depth == 0);
                }
            }
            let pd = tree.node(parent).depth;
            let depth = if parent != TreeModel::ROOT { pd + 1 } else { pd };
            let name = if grouped { file_name(change.path.as_str()) } else { change.path.clone() };
            let id = tree.push_child(parent, Node::file(name, change.path.clone(), depth, Some(parent)));
            let ghost pushed = tree.nodes_v();
            tree.set_status(id, Some(change.kind));
            proof {
                let after = tree.nodes_v();
                if grouped {
                    assert(mid[parent as int].path@ == parent_of(pushed[id as int].path@));
                }
                lemma_push_shape(mid, pushed, parent as int);
                assert(same_shape(pushed, after));
                lemma_shape_keeps(pushed, after);
                assert(after[id as int].depth <= after[id as int].path@.len());
                lemma_push_file(mid, after, parent as int, dirs@);
                lemma_shown_step(before, after, files, order@, k as int, grouped);
            }
            k += 1;
        }
        proof {
            assert(order@.take(k as int) =~= order@);
        }
        proof {
            assert(order@.take(k as int) =~= order@);
        }
        tree
}

/// Hanging a file under a directory keeps the grouped tree's properties
/// and adds the file at the end of the file nodes.
proof fn lemma_push_file(mid: Seq<Node>, after: Seq<Node>, parent: int, dirs: Seq<(String, u32)>)
    requires
        after.len() == mid.len() + 1,
        mid.len() < u32::MAX,
        0 <= parent < mid.len(),
        mid[parent].is_dir,
        !after[mid.len() as int].is_dir,
        after[mid.len() as int].parent == Some(parent as u32),
        after[mid.len() as int].depth <= after[mid.len() as int].path@.len(),
        same_but_children(mid[parent], after[parent]),
        forall|k: int| 0 <= k < mid.len() && k != parent ==> #[trigger] after[k] == mid[k],
        parents_are_dirs(mid),
        depth_fits(mid),
        dirs_expanded(mid),
        dirs_known(dirs, mid),
    ensures
        parents_are_dirs(after),
        depth_fits(after),
        dirs_expanded(after),
        dirs_known(dirs, after),
        file_nodes(after) == file_nodes(mid).push(after[mid.len() as int]),
{
    let fresh = after[mid.len() as int];
    assert(same_files(mid.push(fresh), after)) by {
        assert forall|q: int| 0 <= q < after.len() implies (#[trigger] mid.push(fresh)[q]).is_dir == after[q].is_dir by {
            if q < mid.len() && q != parent {
                assert(after[q] == mid[q]);
            }
        }
        assert forall|q: int| 0 <= q < after.len() && !mid.push(fresh)[q].is_dir implies #[trigger] after[q] == mid.push(fresh)[q] by {
            if q < mid.len() && q != parent {
                assert(after[q] == mid[q]);
            }
        }
    }
    lemma_same_files(mid.push(fresh), after);
    assert(mid.push(fresh).drop_last() =~= mid);
    assert forall|c: int| 0 < c < after.len() implies ((#[trigger] after[c]).parent matches Some(p) && p < after.len()
        && after[p as int].is_dir) by {
        if c < mid.len() {
            if c != parent {
                assert(after[c] == mid[c]);
            }
            assert(after[c].parent == mid[c].parent);
            assert(mid[c].parent is Some);
            let p = mid[c].parent->0;
            if p as int != parent {
                assert(after[p as int] == mid[p as int]);
            } else {
                assert(after[parent].is_dir);
            }
        } else {
            assert(after[parent].is_dir);
        }
    }
    assert forall|c: int| 0 <= c < after.len() implies (#[trigger] after[c]).depth <= after[c].path@.len() by {
        if c < mid.len() && c != parent {
            assert(after[c] == mid[c]);
        }
    }
    assert forall|c: int| 0 < c < after.len() && (#[trigger] after[c]).is_dir implies after[c].expanded by {
        if c < mid.len() && c != parent {
            assert(after[c] == mid[c]);
        }
    }
    assert forall|t: int| 0 <= t < dirs.len() implies {
        &&& 0 < (#[trigger] dirs[t]).1 < after.len()
        &&& after[dirs[t].1 as int].is_dir
        &&& after[dirs[t].1 as int].path@ == dirs[t].0@
        &&& after[dirs[t].1 as int].depth <= dirs[t].0@.len()
    } by {
        let d = dirs[t].1 as int;
        if d != parent {
            assert(after[d] == mid[d]);
        }
    }
}

/// One more file shown, as the next in the order.
proof fn lemma_shown_step(before: Seq<Node>, after: Seq<Node>, files: Seq<FileChange>, order: Seq<usize>, k: int, grouped: bool)
    requires
        0 <= k < order.len(),
        order[k] < files.len(),
        files_shown(before, files, order.take(k), grouped),
        file_nodes(after) == file_nodes(before).push(after.last()),
        after.len() > 0,
        after.last().path@ == files[order[k] as int].path@,
        after.last().status == Some(files[order[k] as int].kind),
        after.last().name@ == if grouped { name_of(files[order[k] as int].path@) } else { files[order[k] as int].path@ },
    ensures
        files_shown(after, files, order.take(k + 1), grouped),
{
    assert forall|t: int| 0 <= t < k + 1 implies {
        let n = #[trigger] file_nodes(after)[t];
        let c = files[order.take(k + 1)[t] as int];
        &&& n.path@ == c.path@
        &&& n.status == Some(c.kind)
        &&& n.name@ == if grouped { name_of(c.path@) } else { c.path@ }
    } by {
        if t < k {
            assert(order.take(k + 1)[t] == order.take(k)[t]);
            assert(file_nodes(after)[t] == file_nodes(before)[t]);
        }
    }
}

/// The node that `dirs` records for `path`.
fn find_dir(dirs: &Vec<(String, u32)>, path: &String) -> (r: Option<u32>)
    ensures
        match r {
            Some(id) => exists|k: int| 0 <= k < dirs@.len() && (#[trigger] dirs@[k]).0@ == path@ && dirs@[k].1 == id,
            None => forall|k: int| 0 <= k < dirs@.len() ==> (#[trigger] dirs@[k]).0@ != path@,
        },
{
    let mut k: usize = 0;
    while k < dirs.len()
        invariant
            k <= dirs@.len(),
            forall|t: int| 0 <= t < k ==> (#[trigger] dirs@[t]).0@ != path@,
        decreases dirs@.len() - k,
    {
        if dirs[k].0 == *path {
            assert(dirs@[k as int].0@ == path@);
            return Some(dirs[k].1);
        }
        k += 1;
    }
    None
}

/// The directory node for `path`, made with any missing directories above
/// it; the root for the empty path. New directories are expanded.
#[verifier::spinoff_prover]
#[verifier::rlimit(50)]
fn ensure_dir(tree: &mut TreeModel, dirs: &mut Vec<(String, u32)>, path: &String) -> (id: u32)
    requires
        old(tree).wf(),
        parents_are_dirs(old(tree).nodes_v()),
        depth_fits(old(tree).nodes_v()),
        dirs_expanded(old(tree).nodes_v()),
        dirs_known(old(dirs)@, old(tree).nodes_v()),
        path@.len() < 65535,
        old(tree).nodes_v().len() + path@.len() + 1 < u32::MAX,
        old(tree).nodes_v()[0].depth == 0,
        old(tree).nodes_v()[0].path@.len() == 0,
        kids_ascending(old(tree).nodes_v()),
        under_parent_dirs(old(tree).nodes_v()),
    ensures
        final(tree).wf(),
        kids_ascending(final(tree).nodes_v()),
        under_parent_dirs(final(tree).nodes_v()),
        final(tree).nodes_v()[0].depth == 0,
        final(tree).nodes_v()[0].path == old(tree).nodes_v()[0].path,
        parents_are_dirs(final(tree).nodes_v()),
        depth_fits(final(tree).nodes_v()),
        dirs_expanded(final(tree).nodes_v()),
        dirs_known(final(dirs)@, final(tree).nodes_v()),
        final(tree).filter_v() == old(tree).filter_v(),
        old(tree).nodes_v().len() <= final(tree).nodes_v().len() <= old(tree).nodes_v().len() + path@.len(),
        file_nodes(final(tree).nodes_v()) == file_nodes(old(tree).nodes_v()),
        id < final(tree).nodes_v().len(),
        final(tree).nodes_v()[id as int].is_dir,
        final(tree).nodes_v()[id as int].depth <= path@.len(),
        path@.len() == 0 ==> id == 0,
        path@.len() > 0 ==> id > 0 && final(tree).nodes_v()[id as int].path@ == path@,
    decreases path@.len(),
{
    if path.as_str().is_empty() {
        assert(tree.nodes_v()[0].depth <= tree.nodes_v()[0].path@.len());
        return TreeModel::ROOT;
    }
    match find_dir(dirs, path) {
        Some(id) => {
            return id;
        },
        None => {},
    }
    let parent_dir = parent_path(path.as_str());
    proof {
        crate::paths::lemma_last_slash_bounds(path@);
    }
    let parent = ensure_dir(tree, dirs, &parent_dir);
    let ghost before = tree.nodes_v();
    let pd = tree.node(parent).depth;
    let depth = if parent != TreeModel::ROOT { pd + 1 } else { pd };
    let name = file_name(path.as_str());
    let id = tree.push_child(parent, Node::dir(name, path.clone(), depth, Some(parent)));
    let ghost pushed = tree.nodes_v();
    tree.expand(id);
    dirs.push((path.clone(), id));
    proof {
        let after = tree.nodes_v();
        assert(before[parent as int].path@ == parent_of(pushed[id as int].path@));
        lemma_push_shape(before, pushed, parent as int);
        assert(same_shape(pushed, after));
        lemma_shape_keeps(pushed, after);
        assert(after == pushed.update(id as int, with_expanded(pushed[id as int], true)));
        assert(same_files(before.push(pushed[id as int]), after)) by {
            assert forall|q: int| 0 <= q < after.len() implies (#[trigger] before.push(pushed[id as int])[q]).is_dir == after[q].is_dir by {
                if q < before.len() && q != parent {
                    assert(pushed[q] == before[q]);
                }
            }
            assert forall|q: int| 0 <= q < after.len() && !before.push(pushed[id as int])[q].is_dir implies #[trigger] after[q] == before.push(pushed[id as int])[q] by {
                if q < before.len() && q != parent {
                    assert(pushed[q] == before[q]);
                }
            }
        }
        lemma_same_files(before.push(pushed[id as int]), after);
        assert(before.push(pushed[id as int]).drop_last() =~= before);
        assert forall|c: int| 0 < c < after.len() implies ((#[trigger] after[c]).parent matches Some(p) && p < after.len()
            && after[p as int].is_dir) by {
            if c < before.len() && c != parent && c != id {
                assert(after[c] == before[c]);
                let p = before[c].parent->0;
                if p as int != parent && p != id {
                    assert(after[p as int] == before[p as int]);
                }
            }
        }
        assert forall|c: int| 0 <= c < after.len() implies (#[trigger] after[c]).depth <= after[c].path@.len() by {
            if c < before.len() && c != parent {
                assert(after[c] == before[c]);
            }
            if c == id {
                assert(after[c].path@ == path@);
                assert(parent_dir@.len() < path@.len());
            }
        }
        assert forall|c: int| 0 < c < after.len() && (#[trigger] after[c]).is_dir implies after[c].expanded by {
            if c < before.len() && c != parent && c != id {
                assert(after[c] == before[c]);
            }
        }
        assert forall|t: int| 0 <= t < dirs@.len() implies {
            &&& 0 < (#[trigger] dirs@[t]).1 < after.len()
            &&& after[dirs@[t].1 as int].is_dir
            &&& after[dirs@[t].1 as int].path@ == dirs@[t].0@
            &&& after[dirs@[t].1 as int].depth <= dirs@[t].0@.len()
        } by {
            if t < dirs@.len() - 1 {
                let d = dirs@[t].1 as int;
                if d != parent && d != id {
                    assert(after[d] == before[d]);
                }
            }
        }
    }
    id
}

} // verus!
