//! Merging what `git status` observes into one change per path.
//!
//! Status reports two separate comparisons: HEAD against the index and the
//! index against the work tree. Each path collects what both observed; the
//! comparison target then decides which observations count and how they merge.
use vstd::prelude::*;
use crate::changes::{ChangeKind, ChangeSet, DiffSpec, FileChange, copy_opt_string};
use crate::paths::{path_lt, path_less, lemma_path_lt_asymmetric, lemma_path_lt_transitive, lemma_path_lt_total, lemma_path_lt_irreflexive};

verus! {

/// What HEAD against the index shows for a path.
#[derive(Copy, Clone, PartialEq, Eq, Debug, Structural)]
pub enum TreeObservation {
    Addition,
    Deletion,
    Modification,
    Rewrite,
}

/// What the index against the work tree shows for a path.
#[derive(Copy, Clone, PartialEq, Eq, Debug, Structural)]
pub enum WorktreeObservation {
    Removed,
    Modified,
    Untracked,
    Rewrite,
}

pub open spec fn tree_kind(t: TreeObservation) -> ChangeKind {
    match t {
        TreeObservation::Addition => ChangeKind::Added,
        TreeObservation::Deletion => ChangeKind::Deleted,
        TreeObservation::Modification => ChangeKind::Modified,
        TreeObservation::Rewrite => ChangeKind::Renamed,
    }
}

pub open spec fn worktree_kind(w: WorktreeObservation) -> ChangeKind {
    match w {
        WorktreeObservation::Removed => ChangeKind::Deleted,
        WorktreeObservation::Modified => ChangeKind::Modified,
        WorktreeObservation::Untracked => ChangeKind::Untracked,
        WorktreeObservation::Rewrite => ChangeKind::Renamed,
    }
}

fn tree_kind_of(t: TreeObservation) -> (k: ChangeKind)
    ensures
        k == tree_kind(t),
{
    match t {
        TreeObservation::Addition => ChangeKind::Added,
        TreeObservation::Deletion => ChangeKind::Deleted,
        TreeObservation::Modification => ChangeKind::Modified,
        TreeObservation::Rewrite => ChangeKind::Renamed,
    }
}

fn worktree_kind_of(w: WorktreeObservation) -> (k: ChangeKind)
    ensures
        k == worktree_kind(w),
{
    match w {
        WorktreeObservation::Removed => ChangeKind::Deleted,
        WorktreeObservation::Modified => ChangeKind::Modified,
        WorktreeObservation::Untracked => ChangeKind::Untracked,
        WorktreeObservation::Rewrite => ChangeKind::Renamed,
    }
}

/// The observations gathered for one path.
#[derive(Clone, Debug, Default, PartialEq, Eq)]
pub struct Acc {
    pub tree: Option<TreeObservation>,
    pub worktree: Option<WorktreeObservation>,
    pub tree_old_path: Option<String>,
    pub worktree_old_path: Option<String>,
}

/// The merge table for work tree against HEAD; `None` leaves the path out.
pub open spec fn spec_worktree_vs_head(
    tree: Option<TreeObservation>,
    worktree: Option<WorktreeObservation>,
) -> Option<ChangeKind> {
    match (tree, worktree) {
        (Some(TreeObservation::Addition), Some(WorktreeObservation::Removed)) => None,
        (Some(TreeObservation::Deletion), _) => Some(ChangeKind::Deleted),
        (None, Some(WorktreeObservation::Removed)) => Some(ChangeKind::Deleted),
        (Some(TreeObservation::Rewrite), _) => Some(ChangeKind::Renamed),
        (_, Some(WorktreeObservation::Rewrite)) => Some(ChangeKind::Renamed),
        (Some(TreeObservation::Addition), _) => Some(ChangeKind::Added),
        (None, Some(WorktreeObservation::Untracked)) => Some(ChangeKind::Untracked),
        (Some(TreeObservation::Modification), _) => Some(ChangeKind::Modified),
        (None, Some(WorktreeObservation::Modified)) => Some(ChangeKind::Modified),
        (None, None) => None,
    }
}

pub open spec fn spec_resolve(
    tree: Option<TreeObservation>,
    worktree: Option<WorktreeObservation>,
    spec: DiffSpec,
) -> Option<ChangeKind> {
    match spec {
        DiffSpec::WorktreeVsHead => spec_worktree_vs_head(tree, worktree),
        DiffSpec::StagedVsHead => match tree {
            Some(t) => Some(tree_kind(t)),
            None => None,
        },
        DiffSpec::WorktreeVsIndex => match worktree {
            Some(w) => Some(worktree_kind(w)),
            None => None,
        },
        DiffSpec::Range { .. } => None,
    }
}

pub open spec fn spec_old_path(acc: Acc, spec: DiffSpec) -> Option<String> {
    match spec {
        DiffSpec::WorktreeVsHead => if acc.tree_old_path is Some {
            acc.tree_old_path
        } else {
            acc.worktree_old_path
        },
        DiffSpec::StagedVsHead => acc.tree_old_path,
        DiffSpec::WorktreeVsIndex => acc.worktree_old_path,
        DiffSpec::Range { .. } => None,
    }
}

/// The staged and unstaged kinds that a comparison can tell apart.
pub open spec fn spec_sides(acc: Acc, spec: DiffSpec) -> (Option<ChangeKind>, Option<ChangeKind>) {
    let t = match acc.tree {
        Some(t) => Some(tree_kind(t)),
        None => None,
    };
    let w = match acc.worktree {
        Some(w) => Some(worktree_kind(w)),
        None => None,
    };
    match spec {
        DiffSpec::WorktreeVsHead => (t, w),
        DiffSpec::StagedVsHead => (t, None),
        DiffSpec::WorktreeVsIndex => (None, w),
        DiffSpec::Range { .. } => (None, None),
    }
}

impl Acc {
    /// The kind that the comparison `spec` gives this path; `None` leaves it out.
    pub fn resolve(&self, spec: &DiffSpec) -> (k: Option<ChangeKind>)
        ensures
            k == spec_resolve(self.tree, self.worktree, *spec),
    {
        match spec {
            DiffSpec::WorktreeVsHead => self.resolve_worktree_vs_head(),
            DiffSpec::StagedVsHead => match self.tree {
                Some(t) => Some(tree_kind_of(t)),
                None => None,
            },
            DiffSpec::Range { .. } => None,
            DiffSpec::WorktreeVsIndex => match self.worktree {
                Some(w) => Some(worktree_kind_of(w)),
                None => None,
            },
        }
    }

    /// The merge table: an addition that the work tree removed again is
    /// no change against HEAD; a deletion wins; a rewrite on either side is
    /// a rename; then addition, untracked and modification.
    pub fn resolve_worktree_vs_head(&self) -> (k: Option<ChangeKind>)
        ensures
            k == spec_worktree_vs_head(self.tree, self.worktree),
    {
        match (self.tree, self.worktree) {
            (Some(TreeObservation::Addition), Some(WorktreeObservation::Removed)) => None,
            (Some(TreeObservation::Deletion), _) => Some(ChangeKind::Deleted),
            (None, Some(WorktreeObservation::Removed)) => Some(ChangeKind::Deleted),
            (Some(TreeObservation::Rewrite), _) => Some(ChangeKind::Renamed),
            (_, Some(WorktreeObservation::Rewrite)) => Some(ChangeKind::Renamed),
            (Some(TreeObservation::Addition), _) => Some(ChangeKind::Added),
            (None, Some(WorktreeObservation::Untracked)) => Some(ChangeKind::Untracked),
            (Some(TreeObservation::Modification), _) => Some(ChangeKind::Modified),
            (None, Some(WorktreeObservation::Modified)) => Some(ChangeKind::Modified),
            (None, None) => None,
        }
    }

    /// The rename source that the comparison `spec` looks at.
    pub fn old_path(&self, spec: &DiffSpec) -> (p: Option<&String>)
        ensures
            match spec_old_path(*self, *spec) {
                Some(s) => p == Some(&s),
                None => p is None,
            },
    {
        match spec {
            DiffSpec::WorktreeVsHead => match &self.tree_old_path {
                Some(p) => Some(p),
                None => self.worktree_old_path.as_ref(),
            },
            DiffSpec::StagedVsHead => self.tree_old_path.as_ref(),
            DiffSpec::WorktreeVsIndex => self.worktree_old_path.as_ref(),
            DiffSpec::Range { .. } => None,
        }
    }
}

/// The change that one path's observations give under `spec`, if any.
pub open spec fn spec_change(path: String, acc: Acc, spec: DiffSpec) -> Option<FileChange> {
    match spec_resolve(acc.tree, acc.worktree, spec) {
        Some(kind) => Some(FileChange {
            path: path,
            old_path: spec_old_path(acc, spec),
            kind: kind,
            index_kind: spec_sides(acc, spec).0,
            worktree_kind: spec_sides(acc, spec).1,
        }),
        None => None,
    }
}

/// The changes of all observed paths, in the order observed.
pub open spec fn spec_collect(entries: Seq<(String, Acc)>, spec: DiffSpec) -> Seq<FileChange>
    decreases entries.len(),
{
    if entries.len() == 0 {
        Seq::empty()
    } else {
        let rest = spec_collect(entries.drop_last(), spec);
        match spec_change(entries.last().0, entries.last().1, spec) {
            Some(c) => rest.push(c),
            None => rest,
        }
    }
}

/// Whether `a` sorts strictly before `b`: by path, or by kind rank and then by path.
pub open spec fn change_lt(a: FileChange, b: FileChange, by_kind: bool) -> bool {
    if by_kind && a.kind.spec_order() != b.kind.spec_order() {
        a.kind.spec_order() < b.kind.spec_order()
    } else {
        path_lt(a.path@, b.path@)
    }
}

pub open spec fn changes_sorted(s: Seq<FileChange>, by_kind: bool) -> bool {
    forall|j: int, k: int| 0 <= j < k < s.len() ==> !change_lt(#[trigger] s[k], #[trigger] s[j], by_kind)
}

proof fn lemma_change_lt_asym(a: FileChange, b: FileChange, by_kind: bool)
    ensures
        change_lt(a, b, by_kind) ==> !change_lt(b, a, by_kind),
{
    lemma_path_lt_asymmetric(a.path@, b.path@);
}

proof fn lemma_change_le_trans(a: FileChange, b: FileChange, c: FileChange, by_kind: bool)
    requires
        !change_lt(a, b, by_kind),
        !change_lt(b, c, by_kind),
    ensures
        !change_lt(a, c, by_kind),
{
    lemma_path_lt_total(a.path@, b.path@);
    lemma_path_lt_total(b.path@, c.path@);
    lemma_path_lt_total(a.path@, c.path@);
    if path_lt(c.path@, b.path@) && path_lt(b.path@, a.path@) {
        lemma_path_lt_transitive(c.path@, b.path@, a.path@);
    }
    lemma_path_lt_asymmetric(a.path@, c.path@);
    lemma_path_lt_irreflexive(a.path@);
}

fn change_less(a: &FileChange, b: &FileChange, by_kind: bool) -> (r: bool)
    ensures
        r == change_lt(*a, *b, by_kind),
{
    if by_kind && a.kind.order() != b.kind.order() {
        a.kind.order() < b.kind.order()
    } else {
        path_less(a.path.as_str(), b.path.as_str())
    }
}

/// Sorts the files stably by path, or by kind rank and then path.
pub fn sort_changes(files: &mut Vec<FileChange>, by_kind: bool)
    ensures
        final(files)@.to_multiset() == old(files)@.to_multiset(),
        changes_sorted(final(files)@, by_kind),
{
    broadcast use vstd::seq_lib::group_to_multiset_ensures;
    let n = files.len();
    let mut i: usize = 1;
    if n == 0 {
        return;
    }
    while i < n
        invariant
            1 <= i <= n,
            n == files@.len(),
            files@.to_multiset() == old(files)@.to_multiset(),
            forall|j: int, k: int| 0 <= j < k < i ==> !change_lt(#[trigger] files@[k], #[trigger] files@[j], by_kind),
        decreases n - i,
    {
        let ghost before = files@;
        let x = files.remove(i);
        let mut j: usize = i;
        while j > 0 && change_less(&x, &files[j - 1], by_kind)
            invariant
                j <= i,
                i < n,
                before.len() == n,
                x == before[i as int],
                files@ == before.remove(i as int),
                forall|k: int| j <= k < i ==> change_lt(x, #[trigger] files@[k], by_kind),
            decreases j,
        {
            j -= 1;
        }
        proof {
            assert forall|k: int| 0 <= k < j implies !change_lt(x, #[trigger] files@[k], by_kind) by {
                assert(!change_lt(x, files@[j - 1], by_kind));
                if k < j - 1 {
                    assert(!change_lt(files@[j - 1], files@[k], by_kind));
                    lemma_change_le_trans(x, files@[j - 1], files@[k], by_kind);
                }
            }
            assert forall|k: int| j <= k < i implies !change_lt(#[trigger] files@[k], x, by_kind) by {
                lemma_change_lt_asym(x, files@[k], by_kind);
            }
        }
        files.insert(j, x);
        proof {
            broadcast use vstd::multiset::group_multiset_axioms;
            assert(before.contains(before[i as int]));
            vstd::seq_lib::to_multiset_contains(before, before[i as int]);
            assert(before.to_multiset().contains(before[i as int]));
            assert(before.to_multiset().remove(x).insert(x) =~= before.to_multiset());
            vstd::seq_lib::to_multiset_remove(before, i as int);
            vstd::seq_lib::to_multiset_insert(before.remove(i as int), j as int, x);
            assert(files@ == before.remove(i as int).insert(j as int, x));
            assert(files@.to_multiset() == old(files)@.to_multiset());
            assert forall|a: int, b: int| 0 <= a < b < i + 1 implies !change_lt(#[trigger] files@[b], #[trigger] files@[a], by_kind) by {
                if a < j && b < j {
                } else if a < j && b == j {
                } else if a < j {
                    assert(files@[b] == before[b - 1]);
                } else if a == j {
                    assert(files@[b] == before[b - 1]);
                } else {
                    assert(files@[b] == before[b - 1]);
                    assert(files@[a] == before[a - 1]);
                }
            }
        }
        i += 1;
    }
}

/// Sorts indices into `files` stably by the files' paths, or by kind rank
/// and then path.
pub fn sort_change_indices(files: &Vec<FileChange>, idx: &mut Vec<usize>, by_kind: bool)
    requires
        forall|t: int| 0 <= t < old(idx)@.len() ==> #[trigger] old(idx)@[t] < files@.len(),
    ensures
        final(idx)@.to_multiset() == old(idx)@.to_multiset(),
        forall|t: int| 0 <= t < final(idx)@.len() ==> #[trigger] final(idx)@[t] < files@.len(),
        forall|j: int, k: int| 0 <= j < k < final(idx)@.len() ==>
            !change_lt(files@[#[trigger] final(idx)@[k] as int], files@[#[trigger] final(idx)@[j] as int], by_kind),
{
    broadcast use vstd::seq_lib::group_to_multiset_ensures;
    let n = idx.len();
    let mut i: usize = 1;
    if n == 0 {
        return;
    }
    while i < n
        invariant
            1 <= i <= n,
            n == idx@.len(),
            idx@.to_multiset() == old(idx)@.to_multiset(),
            forall|t: int| 0 <= t < idx@.len() ==> #[trigger] idx@[t] < files@.len(),
            forall|j: int, k: int| 0 <= j < k < i ==>
                !change_lt(files@[#[trigger] idx@[k] as int], files@[#[trigger] idx@[j] as int], by_kind),
        decreases n - i,
    {
        let ghost before = idx@;
        let x = idx.remove(i);
        assert(x == before[i as int]);
        let mut j: usize = i;
        while j > 0 && change_less(&files[x], &files[idx[j - 1]], by_kind)
            invariant
                j <= i,
                i < n,
                before.len() == n,
                x == before[i as int],
                x < files@.len(),
                idx@ == before.remove(i as int),
                forall|t: int| 0 <= t < idx@.len() ==> #[trigger] idx@[t] < files@.len(),
                forall|k: int| j <= k < i ==> change_lt(files@[x as int], files@[#[trigger] idx@[k] as int], by_kind),
            decreases j,
        {
            j -= 1;
        }
        proof {
            assert forall|k: int| 0 <= k < j implies !change_lt(files@[x as int], files@[#[trigger] idx@[k] as int], by_kind) by {
                assert(!change_lt(files@[x as int], files@[idx@[j - 1] as int], by_kind));
                if k < j - 1 {
                    assert(idx@[j - 1] == before[j - 1] && idx@[k] == before[k]);
                    assert(!change_lt(files@[idx@[j - 1] as int], files@[idx@[k] as int], by_kind));
                    lemma_change_le_trans(files@[x as int], files@[idx@[j - 1] as int], files@[idx@[k] as int], by_kind);
                }
            }
            assert forall|k: int| j <= k < i implies !change_lt(files@[#[trigger] idx@[k] as int], files@[x as int], by_kind) by {
                lemma_change_lt_asym(files@[x as int], files@[idx@[k] as int], by_kind);
            }
        }
        idx.insert(j, x);
        proof {
            broadcast use vstd::multiset::group_multiset_axioms;
            assert(before.contains(before[i as int]));
            vstd::seq_lib::to_multiset_contains(before, before[i as int]);
            assert(before.to_multiset().contains(before[i as int]));
            assert(before.to_multiset().remove(x).insert(x) =~= before.to_multiset());
            vstd::seq_lib::to_multiset_remove(before, i as int);
            vstd::seq_lib::to_multiset_insert(before.remove(i as int), j as int, x);
            assert(idx@ == before.remove(i as int).insert(j as int, x));
            assert(idx@.to_multiset() == old(idx)@.to_multiset());
            assert forall|t: int| 0 <= t < idx@.len() implies #[trigger] idx@[t] < files@.len() by {
                if t < j {
                    assert(idx@[t] == before[t]);
                } else if t > j {
                    assert(idx@[t] == before[t - 1] || idx@[t] == before[t]);
                }
            }
            assert forall|a: int, b: int| 0 <= a < b < i + 1 implies
                !change_lt(files@[#[trigger] idx@[b] as int], files@[#[trigger] idx@[a] as int], by_kind) by {
                if a < j && b < j {
                    assert(idx@[a] == before[a] && idx@[b] == before[b]);
                } else if a < j && b == j {
                    assert(idx@[a] == before[a]);
                } else if a < j {
                    assert(idx@[b] == before[b - 1]);
                    assert(idx@[a] == before[a]);
                } else if a == j {
                    assert(idx@[b] == before[b - 1]);
                } else {
                    assert(idx@[b] == before[b - 1]);
                    assert(idx@[a] == before[a - 1]);
                }
            }
        }
        i += 1;
    }
}

/// The changes that the observed paths give under `spec`, in path order.
pub fn changes_from(entries: &Vec<(String, Acc)>, spec: &DiffSpec) -> (r: ChangeSet)
    ensures
        r.files@.to_multiset() == spec_collect(entries@, *spec).to_multiset(),
        changes_sorted(r.files@, false),
{
    let mut files: Vec<FileChange> = Vec::new();
    let mut i: usize = 0;
    while i < entries.len()
        invariant
            i <= entries@.len(),
            files@ == spec_collect(entries@.take(i as int), *spec),
        decreases entries@.len() - i,
    {
        let (path, acc) = &entries[i];
        let kind = acc.resolve(spec);
        proof {
            assert(entries@.take(i + 1).drop_last() =~= entries@.take(i as int));
        }
        if let Some(kind) = kind {
            let sides = match spec {
                DiffSpec::WorktreeVsHead => (
                    match acc.tree { Some(t) => Some(tree_kind_of(t)), None => None },
                    match acc.worktree { Some(w) => Some(worktree_kind_of(w)), None => None },
                ),
                DiffSpec::StagedVsHead => (
                    match acc.tree { Some(t) => Some(tree_kind_of(t)), None => None },
                    None,
                ),
                DiffSpec::WorktreeVsIndex => (
                    None,
                    match acc.worktree { Some(w) => Some(worktree_kind_of(w)), None => None },
                ),
                DiffSpec::Range { .. } => (None, None),
            };
            let old_path = match acc.old_path(spec) {
                Some(p) => Some(p.clone()),
                None => None,
            };
            files.push(FileChange {
                path: path.clone(),
                old_path,
                kind,
                index_kind: sides.0,
                worktree_kind: sides.1,
            });
        }
        i += 1;
    }
    assert(entries@.take(entries@.len() as int) =~= entries@);
    sort_changes(&mut files, false);
    ChangeSet { files }
}

/// One observation that a status scan makes of a path.
#[derive(Clone, Debug, PartialEq, Eq)]
pub enum Observation {
    /// HEAD against the index added, deleted or modified the path.
    Tree(TreeObservation),
    /// HEAD against the index moved the path here from `source`.
    TreeRewrite { source: String },
    /// The index against the work tree shows this for the path.
    Worktree(WorktreeObservation),
    /// The work tree has the path as a rewrite of `source`.
    WorktreeRewrite { source: Option<String> },
}

/// `a` with observation `o` taken in.
pub open spec fn observed(a: Acc, o: Observation) -> Acc {
    match o {
        Observation::Tree(t) => Acc { tree: Some(t), ..a },
        Observation::TreeRewrite { source } => Acc {
            tree: Some(TreeObservation::Rewrite),
            tree_old_path: Some(source),
            ..a
        },
        Observation::Worktree(w) => Acc { worktree: Some(w), ..a },
        Observation::WorktreeRewrite { source } => Acc {
            worktree: Some(WorktreeObservation::Rewrite),
            worktree_old_path: source,
            ..a
        },
    }
}

/// Nothing observed yet.
pub open spec fn blank_acc() -> Acc {
    Acc { tree: None, worktree: None, tree_old_path: None, worktree_old_path: None }
}

/// The index of the first entry for path `p`, if any.
pub open spec fn entry_index(entries: Seq<(String, Acc)>, p: Seq<char>) -> Option<int>
    decreases entries.len(),
{
    if entries.len() == 0 {
        None
    } else {
        match entry_index(entries.drop_last(), p) {
            Some(k) => Some(k),
            None => if entries.last().0@ == p { Some(entries.len() - 1) } else { None },
        }
    }
}

pub proof fn lemma_entry_index(entries: Seq<(String, Acc)>, p: Seq<char>)
    ensures
        match entry_index(entries, p) {
            Some(k) => 0 <= k < entries.len() && entries[k].0@ == p
                && forall|j: int| 0 <= j < k ==> (#[trigger] entries[j]).0@ != p,
            None => forall|j: int| 0 <= j < entries.len() ==> (#[trigger] entries[j]).0@ != p,
        },
    decreases entries.len(),
{
    if entries.len() > 0 {
        lemma_entry_index(entries.drop_last(), p);
        assert forall|j: int| 0 <= j < entries.len() - 1 implies entries.drop_last()[j] == entries[j] by {}
    }
}

/// Takes in one observation of `path`: the path's entry is updated, or a
/// new one is added at the end.
pub fn record(entries: &mut Vec<(String, Acc)>, path: String, o: Observation)
    ensures
        match entry_index(old(entries)@, path@) {
            Some(k) => final(entries)@ == old(entries)@.update(k, (old(entries)@[k].0, observed(old(entries)@[k].1, o))),
            None => final(entries)@ == old(entries)@.push((path, observed(blank_acc(), o))),
        },
{
    proof {
        lemma_entry_index(entries@, path@);
    }
    let mut i: usize = 0;
    while i < entries.len()
        invariant
            i <= entries@.len(),
            entries@ == old(entries)@,
            forall|j: int| 0 <= j < i ==> (#[trigger] entries@[j]).0@ != path@,
        decreases entries@.len() - i,
    {
        if entries[i].0 == path {
            proof {
                lemma_entry_index(old(entries)@, path@);
                assert(entry_index(old(entries)@, path@) == Some(i as int));
            }
            let acc = apply_observation(&entries[i].1, o);
            let name = entries[i].0.clone();
            entries.set(i, (name, acc));
            return;
        }
        i += 1;
    }
    let acc = apply_observation(&Acc { tree: None, worktree: None, tree_old_path: None, worktree_old_path: None }, o);
    entries.push((path, acc));
}

/// `a` with observation `o` taken in.
fn apply_observation(a: &Acc, o: Observation) -> (r: Acc)
    ensures
        r == observed(*a, o),
{
    let tree_old = copy_opt_string(&a.tree_old_path);
    let worktree_old = copy_opt_string(&a.worktree_old_path);
    match o {
        Observation::Tree(t) => Acc { tree: Some(t), worktree: a.worktree, tree_old_path: tree_old, worktree_old_path: worktree_old },
        Observation::TreeRewrite { source } => Acc {
            tree: Some(TreeObservation::Rewrite),
            worktree: a.worktree,
            tree_old_path: Some(source),
            worktree_old_path: worktree_old,
        },
        Observation::Worktree(w) => Acc { tree: a.tree, worktree: Some(w), tree_old_path: tree_old, worktree_old_path: worktree_old },
        Observation::WorktreeRewrite { source } => Acc {
            tree: a.tree,
            worktree: Some(WorktreeObservation::Rewrite),
            tree_old_path: tree_old,
            worktree_old_path: source,
        },
    }
}

} // verus!
