//! Files that differ between two sides of a comparison, the comparison
//! targets themselves, and how the two raw observations of `git status`
//! (HEAD against index, index against work tree) merge into one change.
use vstd::prelude::*;
use crate::strs::{push_char, trim, trimmed, chars_of, string_of};

verus! {

/// How a file differs between the two sides of a comparison.
#[derive(Copy, Clone, PartialEq, Eq, Debug, Structural)]
pub enum ChangeKind {
    Added,
    Modified,
    Deleted,
    Renamed,
    Untracked,
}

impl ChangeKind {
    pub open spec fn spec_marker(self) -> char {
        match self {
            ChangeKind::Added => 'A',
            ChangeKind::Modified => 'M',
            ChangeKind::Deleted => 'D',
            ChangeKind::Renamed => 'R',
            ChangeKind::Untracked => '?',
        }
    }

    /// The one-letter status marker shown beside a file name.
    pub fn marker(self) -> (c: char)
        ensures
            c == self.spec_marker(),
    {
        match self {
            ChangeKind::Added => 'A',
            ChangeKind::Modified => 'M',
            ChangeKind::Deleted => 'D',
            ChangeKind::Renamed => 'R',
            ChangeKind::Untracked => '?',
        }
    }

    pub open spec fn spec_order(self) -> u8 {
        match self {
            ChangeKind::Modified => 0,
            ChangeKind::Added => 1,
            ChangeKind::Renamed => 2,
            ChangeKind::Deleted => 3,
            ChangeKind::Untracked => 4,
        }
    }

    /// Rank of the kind when files are grouped by kind.
    pub fn order(self) -> (o: u8)
        ensures
            o == self.spec_order(),
    {
        match self {
            ChangeKind::Modified => 0,
            ChangeKind::Added => 1,
            ChangeKind::Renamed => 2,
            ChangeKind::Deleted => 3,
            ChangeKind::Untracked => 4,
        }
    }
}

/// The two-column status of a file, read as `git status --porcelain` reads it.
#[derive(Copy, Clone, PartialEq, Eq, Debug, Structural)]
pub struct FileStatus {
    /// The merged kind.
    pub kind: ChangeKind,
    /// Index against HEAD (staged).
    pub index: Option<ChangeKind>,
    /// Work tree against index (not staged).
    pub worktree: Option<ChangeKind>,
}

impl FileStatus {
    pub open spec fn spec_markers(self) -> (Option<ChangeKind>, Option<ChangeKind>) {
        if self.kind == ChangeKind::Untracked {
            (Some(ChangeKind::Untracked), Some(ChangeKind::Untracked))
        } else if self.index.is_some() || self.worktree.is_some() {
            (self.index, self.worktree)
        } else {
            (Some(self.kind), None)
        }
    }

    /// The (staged, unstaged) columns. Untracked files show `?` in both;
    /// a comparison that does not tell the sides apart shows the kind first.
    pub fn markers(self) -> (r: (Option<ChangeKind>, Option<ChangeKind>))
        ensures
            r == self.spec_markers(),
    {
        match self.kind {
            ChangeKind::Untracked => (Some(ChangeKind::Untracked), Some(ChangeKind::Untracked)),
            _ => {
                if self.index.is_some() || self.worktree.is_some() {
                    (self.index, self.worktree)
                } else {
                    (Some(self.kind), None)
                }
            },
        }
    }
}

/// One changed file. Paths are relative to the repository root, with `/` between components.
#[derive(Clone, Debug, PartialEq, Eq)]
pub struct FileChange {
    pub path: String,
    /// The source of a rename; `None` otherwise.
    pub old_path: Option<String>,
    pub kind: ChangeKind,
    /// What the staged side observed, where the comparison has one.
    pub index_kind: Option<ChangeKind>,
    /// What the unstaged side observed, where the comparison has one.
    pub worktree_kind: Option<ChangeKind>,
}

pub fn copy_opt_string(s: &Option<String>) -> (r: Option<String>)
    ensures
        r == *s,
{
    match s {
        Some(x) => Some(x.clone()),
        None => None,
    }
}

impl FileChange {
    /// A copy equal to `self`.
    pub fn duplicate(&self) -> (r: FileChange)
        ensures
            r == *self,
    {
        FileChange {
            path: self.path.clone(),
            old_path: copy_opt_string(&self.old_path),
            kind: self.kind,
            index_kind: self.index_kind,
            worktree_kind: self.worktree_kind,
        }
    }

    pub fn status(&self) -> (s: FileStatus)
        ensures
            s == (FileStatus { kind: self.kind, index: self.index_kind, worktree: self.worktree_kind }),
    {
        FileStatus { kind: self.kind, index: self.index_kind, worktree: self.worktree_kind }
    }

    pub open spec fn spec_old_lookup_path(&self) -> String {
        match self.old_path {
            Some(p) => p,
            None => self.path,
        }
    }

    /// The path under which the old side is found: the rename source if there is one.
    pub fn old_lookup_path(&self) -> (p: &String)
        ensures
            *p == self.spec_old_lookup_path(),
            self.old_path matches Some(source) ==> *p == source,
            self.old_path is None ==> *p == self.path,
    {
        match &self.old_path {
            Some(p) => p,
            None => &self.path,
        }
    }

    pub open spec fn spec_has_old_side(&self) -> bool {
        !(self.kind == ChangeKind::Added || self.kind == ChangeKind::Untracked)
    }

    pub fn has_old_side(&self) -> (b: bool)
        ensures
            b == self.spec_has_old_side(),
    {
        match self.kind {
            ChangeKind::Added | ChangeKind::Untracked => false,
            _ => true,
        }
    }

    pub open spec fn spec_has_new_side(&self) -> bool {
        self.kind != ChangeKind::Deleted
    }

    pub fn has_new_side(&self) -> (b: bool)
        ensures
            b == self.spec_has_new_side(),
    {
        match self.kind {
            ChangeKind::Deleted => false,
            _ => true,
        }
    }
}

#[derive(Clone, Debug, Default)]
pub struct ChangeSet {
    pub files: Vec<FileChange>,
}

/// The first change whose path is `p`.
pub open spec fn first_with_path(files: Seq<FileChange>, p: Seq<char>) -> Option<FileChange>
    decreases files.len(),
{
    if files.len() == 0 {
        None
    } else if files[0].path@ == p {
        Some(files[0])
    } else {
        first_with_path(files.drop_first(), p)
    }
}

proof fn lemma_first_with_path(files: Seq<FileChange>, p: Seq<char>, i: int)
    requires
        0 <= i <= files.len(),
        forall|j: int| 0 <= j < i ==> files[j].path@ != p,
    ensures
        i < files.len() && files[i].path@ == p ==> first_with_path(files, p) == Some(files[i]),
        i == files.len() ==> first_with_path(files, p) is None,
    decreases i,
{
    if i > 0 {
        assert forall|j: int| 0 <= j < i - 1 implies files.drop_first()[j].path@ != p by {
            assert(files.drop_first()[j] == files[j + 1]);
        }
        lemma_first_with_path(files.drop_first(), p, i - 1);
        assert(files[0].path@ != p);
        if i < files.len() {
            assert(files.drop_first()[i - 1] == files[i]);
        }
    }
}

impl ChangeSet {
    /// The first file whose path is `path`.
    pub fn find(&self, path: &String) -> (r: Option<&FileChange>)
        ensures
            match r {
                Some(c) => exists|i: int|
                    0 <= i < self.files@.len() && *c == self.files@[i] && self.files@[i].path@ == path@
                        && forall|j: int| 0 <= j < i ==> self.files@[j].path@ != path@,
                None => forall|j: int| 0 <= j < self.files@.len() ==> self.files@[j].path@ != path@,
            },
            match r {
                Some(c) => first_with_path(self.files@, path@) == Some(*c),
                None => first_with_path(self.files@, path@) is None,
            },
    {
        let mut i: usize = 0;
        while i < self.files.len()
            invariant
                i <= self.files@.len(),
                forall|j: int| 0 <= j < i ==> self.files@[j].path@ != path@,
            decreases self.files@.len() - i,
        {
            if self.files[i].path == *path {
                proof {
                    lemma_first_with_path(self.files@, path@, i as int);
                }
                return Some(&self.files[i]);
            }
            i += 1;
        }
        proof {
            lemma_first_with_path(self.files@, path@, i as int);
        }
        None
    }
}

/// Lines added and removed.
#[derive(Copy, Clone, Debug, Default, PartialEq, Eq, Structural)]
pub struct LineStat {
    pub added: u32,
    pub removed: u32,
}

#[derive(Copy, Clone, Debug, PartialEq, Eq, Structural)]
pub enum Side {
    Old,
    New,
}

/// Why a file is not shown as text. An expected outcome, not an error.
#[derive(Clone, Copy, Debug, PartialEq, Eq, Structural)]
pub enum UnsupportedReason {
    Binary { size: u64 },
    TooLarge { size: u64, limit: u64 },
}

/// The contents of one side, as read.
#[derive(Clone, Debug)]
pub enum Loaded {
    Text(Vec<u8>),
    Unsupported(UnsupportedReason),
}

pub open spec fn spec_looks_binary(bytes: Seq<u8>) -> bool {
    exists|i: int| 0 <= i < bytes.len() && i < 8000 && bytes[i] == 0
}

/// A NUL byte among the first 8000 bytes marks the contents as binary, as git decides it.
pub fn looks_binary(bytes: &[u8]) -> (b: bool)
    ensures
        b == spec_looks_binary(bytes@),
{
    let n = if bytes.len() < 8000 { bytes.len() } else { 8000 };
    let mut i: usize = 0;
    while i < n
        invariant
            i <= n,
            n <= bytes@.len(),
            n == bytes@.len() || n == 8000,
            n <= 8000,
            forall|j: int| 0 <= j < i ==> bytes@[j] != 0,
        decreases n - i,
    {
        if bytes[i] == 0 {
            assert(bytes@[i as int] == 0);
            return true;
        }
        i += 1;
    }
    false
}

/// Applies the size limit and the binary check to read contents.
pub fn classify(bytes: &[u8], max_bytes: u64) -> (r: Loaded)
    requires
        bytes@.len() <= u64::MAX,
    ensures
        bytes@.len() > max_bytes ==> r == Loaded::Unsupported(
            UnsupportedReason::TooLarge { size: bytes@.len() as u64, limit: max_bytes },
        ),
        bytes@.len() <= max_bytes && spec_looks_binary(bytes@) ==> r == Loaded::Unsupported(
            UnsupportedReason::Binary { size: bytes@.len() as u64 },
        ),
        bytes@.len() <= max_bytes && !spec_looks_binary(bytes@) ==> (r matches Loaded::Text(t)
            && t@ == bytes@),
{
    let size = bytes.len() as u64;
    if size > max_bytes {
        return Loaded::Unsupported(UnsupportedReason::TooLarge { size, limit: max_bytes });
    }
    if looks_binary(bytes) {
        return Loaded::Unsupported(UnsupportedReason::Binary { size });
    }
    let mut v: Vec<u8> = Vec::new();
    let mut i: usize = 0;
    while i < bytes.len()
        invariant
            i <= bytes@.len(),
            v@ == bytes@.subrange(0, i as int),
        decreases bytes@.len() - i,
    {
        v.push(bytes[i]);
        i += 1;
        assert(v@ =~= bytes@.subrange(0, i as int));
    }
    assert(bytes@.subrange(0, bytes@.len() as int) =~= bytes@);
    Loaded::Text(v)
}

#[derive(Clone, Debug)]
pub struct HeadInfo {
    /// The branch name, or the short hash of a detached HEAD.
    pub name: String,
}

/// One commit of the history, with what a list needs.
#[derive(Clone, Debug, PartialEq, Eq)]
pub struct CommitInfo {
    pub id: String,
    pub short: String,
    pub subject: String,
    pub author: String,
    /// Local time as `YYYY-MM-DD HH:MM`.
    pub time: String,
}

impl CommitInfo {
    /// The line shown in a list: the short hash, a space, the subject.
    pub fn label(&self) -> (s: String)
        ensures
            s@ == self.short@ + seq![' '] + self.subject@,
    {
        let mut s = self.short.clone();
        push_char(&mut s, ' ');
        s.append(self.subject.as_str());
        s
    }
}

/// What a comparison puts on its two sides.
#[derive(Clone, Debug, PartialEq, Eq)]
pub enum DiffSpec {
    /// Work tree against HEAD: staged and unstaged changes as one.
    WorktreeVsHead,
    /// Index against HEAD: staged changes only.
    StagedVsHead,
    /// Work tree against index: unstaged changes only.
    WorktreeVsIndex,
    /// Any two refs, kept as written; resolving them is left to the worker.
    Range { from: String, to: String },
}

pub open spec fn dd_at(t: Seq<char>, i: int) -> bool {
    0 <= i && i + 1 < t.len() && t[i] == '.' && t[i + 1] == '.'
}

pub open spec fn ddd_at(t: Seq<char>, i: int) -> bool {
    0 <= i && i + 2 < t.len() && t[i] == '.' && t[i + 1] == '.' && t[i + 2] == '.'
}

/// The first position from `k` on where `..` starts, or -1.
pub open spec fn first_dd_from(t: Seq<char>, k: int) -> int
    decreases t.len() - k,
{
    if k < 0 || k + 1 >= t.len() {
        -1
    } else if dd_at(t, k) {
        k
    } else {
        first_dd_from(t, k + 1)
    }
}

pub open spec fn or_head(s: Seq<char>) -> Seq<char> {
    if s.len() == 0 { "HEAD"@ } else { s }
}

/// The (from, to) refs that `A..B`, `A..`, `..B` or `A` name once trimmed,
/// an omitted side standing for HEAD.
pub open spec fn spec_range_sides(t: Seq<char>) -> (Seq<char>, Seq<char>) {
    let i = first_dd_from(t, 0);
    if i >= 0 {
        (or_head(trim(t.take(i))), or_head(trim(t.skip(i + 2))))
    } else {
        (or_head(t), "HEAD"@)
    }
}

/// Where `..` first occurs in `t`.
pub fn find_dd(t: &[char]) -> (r: Option<usize>)
    ensures
        match r {
            Some(i) => first_dd_from(t@, 0) == i && i + 1 < t@.len(),
            None => first_dd_from(t@, 0) == -1,
        },
{
    let mut i: usize = 0;
    while t.len() >= 2 && i < t.len() - 1
        invariant
            first_dd_from(t@, 0) == first_dd_from(t@, i as int),
        decreases t@.len() - i,
    {
        if t[i] == '.' && t[i + 1] == '.' {
            return Some(i);
        }
        i += 1;
    }
    None
}

impl DiffSpec {
    /// A copy equal to `self`.
    pub fn duplicate(&self) -> (r: DiffSpec)
        ensures
            r == *self,
    {
        match self {
            DiffSpec::WorktreeVsHead => DiffSpec::WorktreeVsHead,
            DiffSpec::StagedVsHead => DiffSpec::StagedVsHead,
            DiffSpec::WorktreeVsIndex => DiffSpec::WorktreeVsIndex,
            DiffSpec::Range { from, to } => DiffSpec::Range { from: from.clone(), to: to.clone() },
        }
    }

    pub open spec fn spec_next(&self) -> DiffSpec {
        match self {
            DiffSpec::WorktreeVsHead => DiffSpec::StagedVsHead,
            DiffSpec::StagedVsHead => DiffSpec::WorktreeVsIndex,
            _ => DiffSpec::WorktreeVsHead,
        }
    }

    /// The next of the three work-tree comparisons; a ref range goes back to the first.
    pub fn next(&self) -> (r: DiffSpec)
        ensures
            r == self.spec_next(),
    {
        match self {
            DiffSpec::WorktreeVsHead => DiffSpec::StagedVsHead,
            DiffSpec::StagedVsHead => DiffSpec::WorktreeVsIndex,
            _ => DiffSpec::WorktreeVsHead,
        }
    }

    /// The name shown for the comparison; a ref range shows as `from..to`.
    pub fn label(&self) -> (s: String)
        ensures
            match self {
                DiffSpec::WorktreeVsHead => s@ == "作業ツリー↔HEAD"@,
                DiffSpec::StagedVsHead => s@ == "staged↔HEAD"@,
                DiffSpec::WorktreeVsIndex => s@ == "作業ツリー↔index"@,
                DiffSpec::Range { from, to } => s@ == from@ + ".."@ + to@,
            },
    {
        match self {
            DiffSpec::WorktreeVsHead => String::from_str("作業ツリー↔HEAD"),
            DiffSpec::StagedVsHead => String::from_str("staged↔HEAD"),
            DiffSpec::WorktreeVsIndex => String::from_str("作業ツリー↔index"),
            DiffSpec::Range { from, to } => {
                let mut s = from.clone();
                s.append("..");
                s.append(to.as_str());
                s
            },
        }
    }

    /// Reads `A..B`, `A..`, `..B` or `A`; an omitted side is HEAD.
    /// Empty input and the three-dot form are refused.
    pub fn parse_range(input: &str) -> (r: Result<DiffSpec, String>)
        ensures
            trim(input@).len() == 0 <==> (r matches Err(e) && e@ == "ref を入力する (例: HEAD~3..HEAD)"@),
            trim(input@).len() != 0 && (exists|i: int| ddd_at(trim(input@), i)) <==> (r matches Err(e)
                && e@ == "三点比較 (A...B) は未対応"@),
            r matches Ok(d) ==> (d matches DiffSpec::Range { from, to } && (from@, to@)
                == spec_range_sides(trim(input@))),
            r is Ok <==> trim(input@).len() != 0 && !(exists|i: int| ddd_at(trim(input@), i)),
    {
        proof {
            reveal_strlit("ref を入力する (例: HEAD~3..HEAD)");
            reveal_strlit("三点比較 (A...B) は未対応");
            assert("ref を入力する (例: HEAD~3..HEAD)"@[0] != "三点比較 (A...B) は未対応"@[0]);
        }
        let cs = chars_of(input);
        let t = trimmed(cs.as_slice());
        if t.len() == 0 {
            return Err(String::from_str("ref を入力する (例: HEAD~3..HEAD)"));
        }
        let mut k: usize = 0;
        while t.len() >= 3 && k < t.len() - 2
            invariant
                forall|j: int| 0 <= j < k ==> !ddd_at(t@, j),
                t@ == trim(input@),
                t@.len() != 0,
                "ref を入力する (例: HEAD~3..HEAD)"@ != "三点比較 (A...B) は未対応"@,
            decreases t@.len() - k,
        {
            if t[k] == '.' && t[k + 1] == '.' && t[k + 2] == '.' {
                assert(ddd_at(t@, k as int));
                return Err(String::from_str("三点比較 (A...B) は未対応"));
            }
            k += 1;
        }
        assert(forall|j: int| !ddd_at(t@, j));
        let found_at = find_dd(t.as_slice());
        let head = String::from_str("HEAD");
        proof {
            reveal_strlit("HEAD");
        }
        if let Some(i) = found_at {
            let mut left: Vec<char> = Vec::new();
            let mut j: usize = 0;
            while j < i
                invariant
                    j <= i,
                    i + 1 < t@.len(),
                    left@ == t@.take(j as int),
                decreases i - j,
            {
                left.push(t[j]);
                j += 1;
                assert(left@ =~= t@.take(j as int));
            }
            let mut right: Vec<char> = Vec::new();
            let mut j: usize = i + 2;
            while j < t.len()
                invariant
                    i + 2 <= j <= t@.len(),
                    right@ == t@.subrange(i + 2, j as int),
                decreases t@.len() - j,
            {
                right.push(t[j]);
                j += 1;
                assert(right@ =~= t@.subrange(i + 2, j as int));
            }
            assert(right@ =~= t@.skip(i + 2));
            let lt = trimmed(left.as_slice());
            let rt = trimmed(right.as_slice());
            let from = if lt.len() == 0 { head.clone() } else { string_of(lt.as_slice()) };
            let to = if rt.len() == 0 { head } else { string_of(rt.as_slice()) };
            Ok(DiffSpec::Range { from, to })
        } else {
            assert(first_dd_from(t@, 0) == -1);
            Ok(DiffSpec::Range { from: string_of(t.as_slice()), to: head })
        }
    }

    /// The (old, new) refs of a ref range.
    pub fn range(&self) -> (r: Option<(&String, &String)>)
        ensures
            match self {
                DiffSpec::Range { from, to } => r == Some((from, to)),
                _ => r is None,
            },
    {
        match self {
            DiffSpec::Range { from, to } => Some((from, to)),
            _ => None,
        }
    }

    /// Whether the old side is read from the index.
    pub fn old_is_index(&self) -> (b: bool)
        ensures
            b == (*self is WorktreeVsIndex),
    {
        match self {
            DiffSpec::WorktreeVsIndex => true,
            _ => false,
        }
    }

    /// Whether the new side is read from the index.
    pub fn new_is_index(&self) -> (b: bool)
        ensures
            b == (*self is StagedVsHead),
    {
        match self {
            DiffSpec::StagedVsHead => true,
            _ => false,
        }
    }
}

} // verus!
