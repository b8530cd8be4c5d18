//! The directory tree: an arena of nodes linked by index, and the flat list
//! of rows that the expanded state (or a name filter) makes visible.
use vstd::prelude::*;
use crate::changes::ChangeKind;
use crate::strs::{chars_of, contains_sub, has_substring, lowercase, str_to_lowercase};

verus! {

#[derive(Clone, Debug)]
pub struct Node {
    pub name: String,
    /// Relative to the root, `/` between components; empty for the root.
    pub path: String,
    pub is_dir: bool,
    pub depth: u16,
    pub parent: Option<u32>,
    /// `None` until a directory's children are loaded.
    pub children: Option<Vec<u32>>,
    pub expanded: bool,
    pub status: Option<ChangeKind>,
}

impl Node {
    /// A collapsed directory whose children are not loaded yet.
    pub fn dir(name: String, path: String, depth: u16, parent: Option<u32>) -> (n: Node)
        ensures
            n.name == name,
            n.path == path,
            n.is_dir,
            n.depth == depth,
            n.parent == parent,
            n.children is None,
            !n.expanded,
            n.status is None,
    {
        Node { name, path, is_dir: true, depth, parent, children: None, expanded: false, status: None }
    }

    /// A file: it has no children to load.
    pub fn file(name: String, path: String, depth: u16, parent: Option<u32>) -> (n: Node)
        ensures
            n.name == name,
            n.path == path,
            !n.is_dir,
            n.depth == depth,
            n.parent == parent,
            n.children matches Some(c) && c@.len() == 0,
            !n.expanded,
            n.status is None,
    {
        Node { name, path, is_dir: false, depth, parent, children: Some(Vec::new()), expanded: false, status: None }
    }
}

/// The children of node `id`, as ids.
pub open spec fn kids(nodes: Seq<Node>, id: int) -> Seq<u32> {
    match nodes[id].children {
        Some(c) => c@,
        None => Seq::empty(),
    }
}

/// Whether the children of node `id` are shown: an expanded directory.
pub open spec fn opens(nodes: Seq<Node>, id: int) -> bool {
    nodes[id].is_dir && nodes[id].expanded
}

/// Node `id` and, below an open directory, the rows of its children.
pub open spec fn subtree_rows(nodes: Seq<Node>, id: int) -> Seq<u32>
    decreases nodes.len() - id, 1int, 0int,
{
    if 0 <= id < nodes.len() {
        seq![id as u32] + if opens(nodes, id) { list_rows(nodes, kids(nodes, id), id) } else { Seq::empty() }
    } else {
        Seq::empty()
    }
}

/// The rows of the listed children of `parent`, one subtree after another.
pub open spec fn list_rows(nodes: Seq<Node>, ids: Seq<u32>, parent: int) -> Seq<u32>
    decreases nodes.len() - parent, 0int, ids.len(),
{
    if ids.len() == 0 {
        Seq::empty()
    } else {
        list_rows(nodes, ids.drop_last(), parent) + if parent < ids.last() < nodes.len() {
            subtree_rows(nodes, ids.last() as int)
        } else {
            Seq::empty()
        }
    }
}

/// Whether node `id`'s name, lowercased, contains the (lowercase) filter.
pub open spec fn name_hit(nodes: Seq<Node>, id: int, needle: Seq<char>) -> bool {
    contains_sub(lowercase(nodes[id].name@), needle)
}

/// Under a filter: node `id` with its kept descendants, kept when its name
/// matches or any descendant is kept. Loaded children count whether or not
/// their directory is expanded.
pub open spec fn filtered_rows(nodes: Seq<Node>, id: int, needle: Seq<char>) -> Seq<u32>
    decreases nodes.len() - id, 1int, 0int,
{
    if 0 <= id < nodes.len() {
        let below = filtered_list(nodes, kids(nodes, id), id, needle);
        if name_hit(nodes, id, needle) || below.len() > 0 {
            seq![id as u32] + below
        } else {
            Seq::empty()
        }
    } else {
        Seq::empty()
    }
}

pub open spec fn filtered_list(nodes: Seq<Node>, ids: Seq<u32>, parent: int, needle: Seq<char>) -> Seq<u32>
    decreases nodes.len() - parent, 0int, ids.len(),
{
    if ids.len() == 0 {
        Seq::empty()
    } else {
        filtered_list(nodes, ids.drop_last(), parent, needle) + if parent < ids.last() < nodes.len() {
            filtered_rows(nodes, ids.last() as int, needle)
        } else {
            Seq::empty()
        }
    }
}

/// The visible rows: below the root, expanded directories show their
/// children; under a filter, the matching nodes and their ancestors.
pub open spec fn visible_rows(nodes: Seq<Node>, filter: Option<Seq<char>>) -> Seq<u32> {
    match filter {
        None => list_rows(nodes, kids(nodes, 0), 0),
        Some(needle) => filtered_list(nodes, kids(nodes, 0), 0, needle),
    }
}

/// The tree's shape: a directory at index 0 as the root, with the empty
/// path; every child listed after its parent and inside the arena, and
/// every other node linked to an earlier parent that lists it among its
/// children.
pub open spec fn tree_shape(nodes: Seq<Node>) -> bool {
    &&& 1 <= nodes.len() < u32::MAX
    &&& nodes[0].parent is None
    &&& nodes[0].is_dir
    &&& nodes[0].path@.len() == 0
    &&& forall|p: int, j: int|
        0 <= p < nodes.len() && 0 <= j < kids(nodes, p).len() ==> p < #[trigger] kids(nodes, p)[j] < nodes.len()
    &&& forall|c: int| 0 < c < nodes.len() ==> match (#[trigger] nodes[c]).parent {
        Some(p) => p < c && kids(nodes, p as int).contains(c as u32),
        None => false,
    }
}

} // verus!

verus! {

/// `b` is `a` with at most its `children` changed.
pub open spec fn same_but_children(a: Node, b: Node) -> bool {
    &&& b.name == a.name
    &&& b.path == a.path
    &&& b.is_dir == a.is_dir
    &&& b.depth == a.depth
    &&& b.parent == a.parent
    &&& b.expanded == a.expanded
    &&& b.status == a.status
}

/// `n` with its expanded flag set to `e`.
pub open spec fn with_expanded(n: Node, e: bool) -> Node {
    Node {
        name: n.name,
        path: n.path,
        is_dir: n.is_dir,
        depth: n.depth,
        parent: n.parent,
        children: n.children,
        expanded: e,
        status: n.status,
    }
}

/// `n` with its change status set to `st`.
pub open spec fn with_status(n: Node, st: Option<ChangeKind>) -> Node {
    Node {
        name: n.name,
        path: n.path,
        is_dir: n.is_dir,
        depth: n.depth,
        parent: n.parent,
        children: n.children,
        expanded: n.expanded,
        status: st,
    }
}

/// The nodes after every directory on the parent chain that starts at
/// `from` has been expanded, the root included.
pub open spec fn expand_up(nodes: Seq<Node>, from: Option<u32>) -> Seq<Node>
    decreases (match from { Some(p) => p as int + 1, None => 0 }),
{
    match from {
        None => nodes,
        Some(p) => if p < nodes.len() {
            let next = nodes.update(p as int, with_expanded(nodes[p as int], true));
            match nodes[p as int].parent {
                Some(q) => if q < p { expand_up(next, Some(q)) } else { next },
                None => next,
            }
        } else {
            nodes
        },
    }
}

/// Every proper ancestor of `c` is a directory.
pub open spec fn dirs_up(nodes: Seq<Node>, c: int) -> bool
    decreases c,
{
    if 0 <= c < nodes.len() {
        match nodes[c].parent {
            None => true,
            Some(p) => p < c && nodes[p as int].is_dir && dirs_up(nodes, p as int),
        }
    } else {
        true
    }
}

/// Every proper ancestor of `c` has its expanded flag set.
pub open spec fn expanded_up(nodes: Seq<Node>, c: int) -> bool
    decreases c,
{
    if 0 <= c < nodes.len() {
        match nodes[c].parent {
            None => true,
            Some(p) => p < c && nodes[p as int].expanded && expanded_up(nodes, p as int),
        }
    } else {
        true
    }
}

/// Every proper ancestor of `c` shows its children.
pub open spec fn opens_up(nodes: Seq<Node>, c: int) -> bool
    decreases c,
{
    if 0 <= c < nodes.len() {
        match nodes[c].parent {
            None => true,
            Some(p) => p < c && opens(nodes, p as int) && opens_up(nodes, p as int),
        }
    } else {
        true
    }
}

/// Two arenas that agree on everything the visible rows depend on.
pub open spec fn same_layout(a: Seq<Node>, b: Seq<Node>) -> bool {
    &&& a.len() == b.len()
    &&& forall|k: int| 0 <= k < a.len() ==> {
        &&& (#[trigger] a[k]).children == b[k].children
        &&& a[k].is_dir == b[k].is_dir
        &&& a[k].expanded == b[k].expanded
        &&& a[k].name == b[k].name
    }
}

/// The paths of the expanded directories below the root, in arena order.
pub open spec fn expanded_paths(nodes: Seq<Node>) -> Seq<Seq<char>>
    decreases nodes.len(),
{
    if nodes.len() == 0 {
        Seq::empty()
    } else {
        let n = nodes.last();
        expanded_paths(nodes.drop_last()) + if n.is_dir && n.expanded && n.parent is Some {
            seq![n.path@]
        } else {
            Seq::empty()
        }
    }
}

/// A selection index kept inside a list of `len` rows.
pub open spec fn clamp_sel(s: int, len: int) -> int {
    if s < len {
        s
    } else if len == 0 {
        0
    } else {
        len - 1
    }
}

/// The scroll offset that keeps row `s` inside a window of `h` rows over a
/// list of `len` rows, moving the previous offset `o` as little as needed.
pub open spec fn scroll_to(s: int, o: int, h: int, len: int) -> int {
    let o1 = if s < o { s } else if s >= o + h { s + 1 - h } else { o };
    let m = if len > h { len - h } else { 0 };
    if o1 > m { m } else { o1 }
}

pub proof fn lemma_layout_subtree(a: Seq<Node>, b: Seq<Node>, id: int)
    requires
        same_layout(a, b),
    ensures
        subtree_rows(a, id) == subtree_rows(b, id),
    decreases a.len() - id, 1int, 0int,
{
    if 0 <= id < a.len() {
        assert(a[id].children == b[id].children);
        if opens(a, id) {
            lemma_layout_list(a, b, kids(a, id), id);
        }
    }
}

pub proof fn lemma_layout_list(a: Seq<Node>, b: Seq<Node>, ids: Seq<u32>, parent: int)
    requires
        same_layout(a, b),
    ensures
        list_rows(a, ids, parent) == list_rows(b, ids, parent),
    decreases a.len() - parent, 0int, ids.len(),
{
    if ids.len() > 0 {
        lemma_layout_list(a, b, ids.drop_last(), parent);
        if parent < ids.last() < a.len() {
            lemma_layout_subtree(a, b, ids.last() as int);
        }
    }
}

pub proof fn lemma_layout_frows(a: Seq<Node>, b: Seq<Node>, id: int, needle: Seq<char>)
    requires
        same_layout(a, b),
    ensures
        filtered_rows(a, id, needle) == filtered_rows(b, id, needle),
    decreases a.len() - id, 1int, 0int,
{
    if 0 <= id < a.len() {
        assert(a[id].children == b[id].children);
        lemma_layout_flist(a, b, kids(a, id), id, needle);
    }
}

pub proof fn lemma_layout_flist(a: Seq<Node>, b: Seq<Node>, ids: Seq<u32>, parent: int, needle: Seq<char>)
    requires
        same_layout(a, b),
    ensures
        filtered_list(a, ids, parent, needle) == filtered_list(b, ids, parent, needle),
    decreases a.len() - parent, 0int, ids.len(),
{
    if ids.len() > 0 {
        lemma_layout_flist(a, b, ids.drop_last(), parent, needle);
        if parent < ids.last() < a.len() {
            lemma_layout_frows(a, b, ids.last() as int, needle);
        }
    }
}

/// The visible rows depend only on the layout of the arena.
pub proof fn lemma_layout_rows(a: Seq<Node>, b: Seq<Node>, filter: Option<Seq<char>>)
    requires
        same_layout(a, b),
        a.len() > 0,
    ensures
        visible_rows(a, filter) == visible_rows(b, filter),
{
    assert(a[0].children == b[0].children);
    match filter {
        None => lemma_layout_list(a, b, kids(a, 0), 0),
        Some(needle) => lemma_layout_flist(a, b, kids(a, 0), 0, needle),
    }
}

pub proof fn lemma_subtree_in_range(nodes: Seq<Node>, id: int)
    ensures
        forall|i: int| 0 <= i < subtree_rows(nodes, id).len() ==> #[trigger] subtree_rows(nodes, id)[i] < nodes.len(),
    decreases nodes.len() - id, 1int, 0int,
{
    if 0 <= id < nodes.len() && opens(nodes, id) {
        lemma_list_in_range(nodes, kids(nodes, id), id);
        let l = list_rows(nodes, kids(nodes, id), id);
        assert forall|i: int| 0 <= i < (seq![id as u32] + l).len() implies #[trigger] (seq![id as u32] + l)[i] < nodes.len() by {
            if i > 0 {
                assert((seq![id as u32] + l)[i] == l[i - 1]);
            }
        }
    }
}

pub proof fn lemma_list_in_range(nodes: Seq<Node>, ids: Seq<u32>, parent: int)
    ensures
        forall|i: int| 0 <= i < list_rows(nodes, ids, parent).len() ==> #[trigger] list_rows(nodes, ids, parent)[i] < nodes.len(),
    decreases nodes.len() - parent, 0int, ids.len(),
{
    if ids.len() > 0 {
        lemma_list_in_range(nodes, ids.drop_last(), parent);
        let pre = list_rows(nodes, ids.drop_last(), parent);
        let tail = if parent < ids.last() < nodes.len() {
            subtree_rows(nodes, ids.last() as int)
        } else {
            Seq::empty()
        };
        if parent < ids.last() < nodes.len() {
            lemma_subtree_in_range(nodes, ids.last() as int);
        }
        assert forall|i: int| 0 <= i < (pre + tail).len() implies #[trigger] (pre + tail)[i] < nodes.len() by {
            if i >= pre.len() {
                assert((pre + tail)[i] == tail[i - pre.len()]);
            }
        }
    }
}

pub proof fn lemma_frows_in_range(nodes: Seq<Node>, id: int, needle: Seq<char>)
    ensures
        forall|i: int| 0 <= i < filtered_rows(nodes, id, needle).len() ==> #[trigger] filtered_rows(nodes, id, needle)[i] < nodes.len(),
    decreases nodes.len() - id, 1int, 0int,
{
    if 0 <= id < nodes.len() {
        lemma_flist_in_range(nodes, kids(nodes, id), id, needle);
        let l = filtered_list(nodes, kids(nodes, id), id, needle);
        assert forall|i: int| 0 <= i < (seq![id as u32] + l).len() implies #[trigger] (seq![id as u32] + l)[i] < nodes.len() by {
            if i > 0 {
                assert((seq![id as u32] + l)[i] == l[i - 1]);
            }
        }
    }
}

pub proof fn lemma_flist_in_range(nodes: Seq<Node>, ids: Seq<u32>, parent: int, needle: Seq<char>)
    ensures
        forall|i: int| 0 <= i < filtered_list(nodes, ids, parent, needle).len() ==> #[trigger] filtered_list(nodes, ids, parent, needle)[i] < nodes.len(),
    decreases nodes.len() - parent, 0int, ids.len(),
{
    if ids.len() > 0 {
        lemma_flist_in_range(nodes, ids.drop_last(), parent, needle);
        let pre = filtered_list(nodes, ids.drop_last(), parent, needle);
        let tail = if parent < ids.last() < nodes.len() {
            filtered_rows(nodes, ids.last() as int, needle)
        } else {
            Seq::empty()
        };
        if parent < ids.last() < nodes.len() {
            lemma_frows_in_range(nodes, ids.last() as int, needle);
        }
        assert forall|i: int| 0 <= i < (pre + tail).len() implies #[trigger] (pre + tail)[i] < nodes.len() by {
            if i >= pre.len() {
                assert((pre + tail)[i] == tail[i - pre.len()]);
            }
        }
    }
}

/// Every visible row names a node of the arena.
pub proof fn lemma_rows_in_range(nodes: Seq<Node>, filter: Option<Seq<char>>)
    ensures
        forall|i: int| 0 <= i < visible_rows(nodes, filter).len() ==> #[trigger] visible_rows(nodes, filter)[i] < nodes.len(),
{
    match filter {
        None => lemma_list_in_range(nodes, kids(nodes, 0), 0),
        Some(needle) => lemma_flist_in_range(nodes, kids(nodes, 0), 0, needle),
    }
}

/// The rows of a listed child appear among the rows of the list.
pub proof fn lemma_list_has_child(nodes: Seq<Node>, ids: Seq<u32>, parent: int, j: int, x: u32)
    requires
        0 <= j < ids.len(),
        parent < ids[j] < nodes.len(),
        subtree_rows(nodes, ids[j] as int).contains(x),
    ensures
        list_rows(nodes, ids, parent).contains(x),
    decreases ids.len(),
{
    let sub = subtree_rows(nodes, ids[j] as int);
    let k = choose|k: int| 0 <= k < sub.len() && sub[k] == x;
    if j == ids.len() - 1 {
        let pre = list_rows(nodes, ids.drop_last(), parent);
        assert(list_rows(nodes, ids, parent)[pre.len() + k] == x);
    } else {
        assert(ids.drop_last()[j] == ids[j]);
        lemma_list_has_child(nodes, ids.drop_last(), parent, j, x);
        let pre = list_rows(nodes, ids.drop_last(), parent);
        let k2 = choose|k2: int| 0 <= k2 < pre.len() && pre[k2] == x;
        assert(list_rows(nodes, ids, parent)[k2] == x);
    }
}

/// Below a root whose every proper ancestor shows its children, the rows of
/// a node's subtree are all visible.
pub proof fn lemma_open_chain_visible(nodes: Seq<Node>, c: int, x: u32)
    requires
        tree_shape(nodes),
        0 < c < nodes.len(),
        opens_up(nodes, c),
        subtree_rows(nodes, c).contains(x),
    ensures
        list_rows(nodes, kids(nodes, 0), 0).contains(x),
    decreases c,
{
    let p = nodes[c].parent->0 as int;
    assert(kids(nodes, p).contains(c as u32));
    let j = choose|j: int| 0 <= j < kids(nodes, p).len() && kids(nodes, p)[j] == c as u32;
    assert(p < kids(nodes, p)[j] < nodes.len());
    if p == 0 {
        lemma_list_has_child(nodes, kids(nodes, 0), 0, j, x);
    } else {
        lemma_list_has_child(nodes, kids(nodes, p), p, j, x);
        let l = list_rows(nodes, kids(nodes, p), p);
        let k = choose|k: int| 0 <= k < l.len() && l[k] == x;
        assert(subtree_rows(nodes, p)[k + 1] == x);
        lemma_open_chain_visible(nodes, p, x);
    }
}

/// Expanding the parent chain changes only expanded flags, and only to `true`.
pub proof fn lemma_expand_up_frame(nodes: Seq<Node>, from: Option<u32>)
    ensures
        expand_up(nodes, from).len() == nodes.len(),
        forall|k: int| 0 <= k < nodes.len() ==> #[trigger] expand_up(nodes, from)[k] == with_expanded(nodes[k], expand_up(nodes, from)[k].expanded),
        forall|k: int| 0 <= k < nodes.len() && nodes[k].expanded ==> #[trigger] expand_up(nodes, from)[k].expanded,
        from matches Some(p) ==> (p < nodes.len() ==> expand_up(nodes, from)[p as int].expanded),
    decreases (match from { Some(p) => p as int + 1, None => 0 }),
{
    match from {
        None => {},
        Some(p) => if p < nodes.len() {
            let next = nodes.update(p as int, with_expanded(nodes[p as int], true));
            match nodes[p as int].parent {
                Some(q) => if q < p {
                    lemma_expand_up_frame(next, Some(q));
                    let r = expand_up(next, Some(q));
                    assert forall|k: int| 0 <= k < nodes.len() implies #[trigger] r[k] == with_expanded(nodes[k], r[k].expanded) by {
                        assert(r[k] == with_expanded(next[k], r[k].expanded));
                    }
                },
                None => {},
            }
        },
    }
}

/// After expanding the chain above `from`, that node and its ancestors are expanded.
pub proof fn lemma_expand_up_chain(nodes: Seq<Node>, c: int)
    requires
        tree_shape(nodes),
        0 <= c < nodes.len(),
    ensures
        expand_up(nodes, nodes[c].parent)[c] == with_expanded(nodes[c], expand_up(nodes, nodes[c].parent)[c].expanded),
        expanded_up(expand_up(nodes, nodes[c].parent), c),
    decreases c,
{
    lemma_expand_up_frame(nodes, nodes[c].parent);
    let r = expand_up(nodes, nodes[c].parent);
    if c > 0 {
        let p = nodes[c].parent->0 as int;
        let next = nodes.update(p, with_expanded(nodes[p], true));
        assert(tree_shape(next)) by {
            assert forall|q: int| 0 <= q < next.len() implies kids(next, q) == kids(nodes, q) by {}
            assert forall|cc: int| 0 < cc < next.len() implies (#[trigger] next[cc]).parent == nodes[cc].parent by {}
        }
        lemma_expand_up_chain(next, p);
        assert(next[p].parent == nodes[p].parent);
        lemma_expand_up_frame(next, next[p].parent);
        if p > 0 {
            assert(r == expand_up(next, next[p].parent));
        } else {
            assert(r == expand_up(next, next[p].parent));
        }
        assert(r[c].parent == nodes[c].parent);
    }
}


/// Changing only expanded flags keeps the shape and which nodes are directories.
pub proof fn lemma_flags_frame(a: Seq<Node>, b: Seq<Node>, c: int)
    requires
        a.len() == b.len(),
        forall|k: int| 0 <= k < a.len() ==> #[trigger] b[k] == with_expanded(a[k], b[k].expanded),
    ensures
        tree_shape(a) ==> tree_shape(b),
        dirs_up(a, c) ==> dirs_up(b, c),
    decreases c,
{
    assert forall|q: int| 0 <= q < a.len() implies kids(b, q) == kids(a, q) by {
        assert(b[q] == with_expanded(a[q], b[q].expanded));
    }
    if 0 <= c < a.len() {
        assert(b[c] == with_expanded(a[c], b[c].expanded));
        match a[c].parent {
            Some(p) => if p < c {
                assert(b[p as int] == with_expanded(a[p as int], b[p as int].expanded));
                lemma_flags_frame(a, b, p as int);
            },
            None => {},
        }
    }
    if tree_shape(a) {
        assert(b[0] == with_expanded(a[0], b[0].expanded));
        assert forall|cc: int| 0 < cc < b.len() implies match (#[trigger] b[cc]).parent {
            Some(p) => p < cc && kids(b, p as int).contains(cc as u32),
            None => false,
        } by {
            assert(b[cc] == with_expanded(a[cc], b[cc].expanded));
            assert(a[cc].parent is Some);
        }
    }
}

/// Directories above `c` that are all expanded all show their children.
pub proof fn lemma_opens_up(nodes: Seq<Node>, c: int)
    requires
        dirs_up(nodes, c),
        expanded_up(nodes, c),
    ensures
        opens_up(nodes, c),
    decreases c,
{
    if 0 <= c < nodes.len() {
        match nodes[c].parent {
            Some(p) => lemma_opens_up(nodes, p as int),
            None => {},
        }
    }
}

/// Revealing a node expands every directory above it; with no filter, when
/// all of its ancestors are directories, the node is then among the visible rows.
pub proof fn lemma_reveal_visible(nodes: Seq<Node>, id: int)
    requires
        tree_shape(nodes),
        0 < id < nodes.len(),
        dirs_up(nodes, id),
    ensures
        visible_rows(expand_up(nodes, nodes[id].parent), None).contains(id as u32),
{
    let r = expand_up(nodes, nodes[id].parent);
    lemma_expand_up_frame(nodes, nodes[id].parent);
    lemma_expand_up_chain(nodes, id);
    lemma_flags_frame(nodes, r, id);
    lemma_opens_up(r, id);
    assert(subtree_rows(r, id)[0] == id as u32);
    lemma_open_chain_visible(r, id, id as u32);
}

/// Appending a child under `parent` keeps the tree's shape.
proof fn lemma_push_shape(a: Seq<Node>, b: Seq<Node>, parent: int)
    requires
        tree_shape(a),
        0 <= parent < a.len(),
        a.len() + 1 < u32::MAX,
        b.len() == a.len() + 1,
        b[a.len() as int].parent == Some(parent as u32),
        kids(b, a.len() as int).len() == 0,
        kids(b, parent) == kids(a, parent).push(a.len() as u32),
        same_but_children(a[parent], b[parent]),
        forall|k: int| 0 <= k < a.len() && k != parent ==> #[trigger] b[k] == a[k],
    ensures
        tree_shape(b),
{
    let id = a.len() as int;
    assert forall|q: int| 0 <= q < a.len() && q != parent implies kids(b, q) == kids(a, q) by {
        assert(b[q] == a[q]);
    }
    assert forall|p: int, j: int| 0 <= p < b.len() && 0 <= j < kids(b, p).len() implies p < #[trigger] kids(b, p)[j] < b.len() by {
        if p == parent {
            if j < kids(a, p).len() {
                assert(kids(b, p)[j] == kids(a, p)[j]);
            }
        } else if p < a.len() {
            assert(kids(b, p) == kids(a, p));
        }
    }
    assert forall|c: int| 0 < c < b.len() implies match (#[trigger] b[c]).parent {
        Some(p) => p < c && kids(b, p as int).contains(c as u32),
        None => false,
    } by {
        if c == id {
            assert(kids(b, parent).last() == id as u32);
        } else {
            assert(a[c].parent is Some);
            assert(b[c].parent == a[c].parent);
            let p = a[c].parent->0 as int;
            assert(kids(a, p).contains(c as u32));
            let j = choose|j: int| 0 <= j < kids(a, p).len() && kids(a, p)[j] == c as u32;
            if p == parent {
                assert(kids(b, p)[j] == c as u32);
            } else {
                assert(kids(b, p) == kids(a, p));
            }
        }
    }
    assert(b[0].parent is None && b[0].is_dir) by {
        if parent != 0 {
            assert(b[0] == a[0]);
        }
    }
}

/// The node on the selected row of `t`, read at its stored selection.
pub open spec fn selected_of(t: TreeModel) -> Option<Node> {
    if t.sel() < t.rows().len() {
        Some(t.nodes_v()[t.rows()[t.sel()] as int])
    } else {
        None
    }
}

/// `b` is `a` with its visible rows brought up to date: same nodes, filter
/// and offset, the selection kept inside the rows.
pub open spec fn synced_from(a: TreeModel, b: TreeModel) -> bool {
    &&& b.wf()
    &&& b.nodes_v() == a.nodes_v()
    &&& b.filter_v() == a.filter_v()
    &&& b.off() == a.off()
    &&& b.sel() == clamp_sel(a.sel(), a.rows().len() as int)
}

/// A tree model over an arena of nodes: the flat list of visible rows is
/// rebuilt lazily, after any change that can alter it, and the selection
/// and scroll offset index into that list.
pub struct TreeModel {
    nodes: Vec<Node>,
    visible: Vec<u32>,
    selected: usize,
    offset: usize,
    dirty: bool,
    /// The name filter, lowercased; matched as a substring of lowercased names.
    filter: Option<String>,
}

/// A fresh root: an expanded directory with an empty name and path whose
/// children are not loaded yet.
pub open spec fn fresh_root(n: Node) -> bool {
    &&& n.name@ == Seq::<char>::empty()
    &&& n.path@ == Seq::<char>::empty()
    &&& n.is_dir
    &&& n.depth == 0
    &&& n.parent is None
    &&& n.children is None
    &&& n.expanded
    &&& n.status is None
}

impl TreeModel {
    pub const ROOT: u32 = 0;

    pub closed spec fn nodes_v(&self) -> Seq<Node> {
        self.nodes@
    }

    pub closed spec fn filter_v(&self) -> Option<Seq<char>> {
        match self.filter {
            Some(f) => Some(f@),
            None => None,
        }
    }

    /// The selection index as stored.
    pub closed spec fn sel(&self) -> int {
        self.selected as int
    }

    pub closed spec fn off(&self) -> int {
        self.offset as int
    }

    /// The stored selection and offset are indices.
    pub proof fn lemma_indices(&self)
        ensures
            self.sel() >= 0,
            self.off() >= 0,
    {
    }

    /// The rows that the current nodes and filter make visible.
    pub open spec fn rows(&self) -> Seq<u32> {
        visible_rows(self.nodes_v(), self.filter_v())
    }

    /// The cached list, when it is not marked stale, equals the rows, and
    /// the selection then lies inside it.
    pub closed spec fn cache_ok(&self) -> bool {
        !self.dirty ==> {
            &&& self.visible@ == self.rows()
            &&& self.selected as int == clamp_sel(self.selected as int, self.visible@.len() as int)
        }
    }

    pub open spec fn wf(&self) -> bool {
        tree_shape(self.nodes_v()) && self.cache_ok()
    }

    pub fn new() -> (t: TreeModel)
        ensures
            t.wf(),
            t.nodes_v().len() == 1,
            fresh_root(t.nodes_v()[0]),
            t.filter_v() is None,
            t.sel() == 0,
            t.off() == 0,
    {
        let root = Node {
            name: String::new(),
            path: String::new(),
            is_dir: true,
            depth: 0,
            parent: None,
            children: None,
            expanded: true,
            status: None,
        };
        let mut nodes: Vec<Node> = Vec::new();
        nodes.push(root);
        TreeModel { nodes, visible: Vec::new(), selected: 0, offset: 0, dirty: true, filter: None }
    }

    pub fn node(&self, id: u32) -> (n: &Node)
        requires
            self.wf(),
            id < self.nodes_v().len(),
        ensures
            *n == self.nodes_v()[id as int],
    {
        &self.nodes[id as usize]
    }

    /// Adds `node` as the last child of `parent` and returns its id; the
    /// node's link up is set to `parent`.
    pub fn push_child(&mut self, parent: u32, node: Node) -> (id: u32)
        requires
            old(self).wf(),
            parent < old(self).nodes_v().len(),
            old(self).nodes_v().len() + 1 < u32::MAX,
            node.children matches Some(c) ==> c@.len() == 0,
        ensures
            final(self).wf(),
            id == old(self).nodes_v().len(),
            final(self).nodes_v().len() == old(self).nodes_v().len() + 1,
            final(self).nodes_v()[id as int] == (Node { parent: Some(parent), ..node }),
            same_but_children(old(self).nodes_v()[parent as int], final(self).nodes_v()[parent as int]),
            final(self).nodes_v()[parent as int].children is Some,
            kids(final(self).nodes_v(), parent as int) == kids(old(self).nodes_v(), parent as int).push(id),
            forall|k: int| 0 <= k < old(self).nodes_v().len() && k != parent ==> #[trigger] final(self).nodes_v()[k] == old(self).nodes_v()[k],
            final(self).filter_v() == old(self).filter_v(),
            final(self).sel() == old(self).sel(),
            final(self).off() == old(self).off(),
    {
        let ghost old_nodes = self.nodes@;
        let id = self.nodes.len() as u32;
        let mut node = node;
        node.parent = Some(parent);
        self.nodes.push(node);
        let mut list: Vec<u32> = match self.nodes[parent as usize].children.take() {
            Some(c) => c,
            None => Vec::new(),
        };
        list.push(id);
        self.nodes[parent as usize].children = Some(list);
        self.dirty = true;
        proof {
            lemma_push_shape(old_nodes, self.nodes@, parent as int);
        }
        id
    }

    pub fn node_count(&self) -> (n: usize)
        ensures
            n == self.nodes_v().len(),
    {
        self.nodes.len()
    }

    pub fn children_count(&self, id: u32) -> (n: usize)
        requires
            self.wf(),
            id < self.nodes_v().len(),
        ensures
            n == kids(self.nodes_v(), id as int).len(),
    {
        match &self.nodes[id as usize].children {
            Some(c) => c.len(),
            None => 0,
        }
    }

    /// The paths of the expanded directories other than the root.
    pub fn expanded_dir_paths(&self) -> (v: Vec<String>)
        ensures
            v@.map_values(|s: String| s@) == expanded_paths(self.nodes_v()),
    {
        let mut v: Vec<String> = Vec::new();
        let mut i: usize = 0;
        while i < self.nodes.len()
            invariant
                i <= self.nodes@.len(),
                v@.map_values(|s: String| s@) == expanded_paths(self.nodes@.take(i as int)),
            decreases self.nodes@.len() - i,
        {
            let n = &self.nodes[i];
            proof {
                assert(self.nodes@.take(i + 1).drop_last() =~= self.nodes@.take(i as int));
                assert(self.nodes@.take(i + 1).last() == *n);
            }
            if n.is_dir && n.expanded && n.parent.is_some() {
                v.push(n.path.clone());
            }
            i += 1;
            assert(v@.map_values(|s: String| s@) =~= expanded_paths(self.nodes@.take(i as int)));
        }
        assert(self.nodes@.take(i as int) =~= self.nodes@);
        v
    }

    pub fn children_loaded(&self, id: u32) -> (b: bool)
        requires
            self.wf(),
            id < self.nodes_v().len(),
        ensures
            b == self.nodes_v()[id as int].children is Some,
    {
        self.nodes[id as usize].children.is_some()
    }

    /// Marks a directory's children as loaded, with none yet if it had none.
    pub fn mark_loaded(&mut self, id: u32)
        requires
            old(self).wf(),
            id < old(self).nodes_v().len(),
        ensures
            final(self).wf(),
            final(self).nodes_v().len() == old(self).nodes_v().len(),
            same_but_children(old(self).nodes_v()[id as int], final(self).nodes_v()[id as int]),
            final(self).nodes_v()[id as int].children is Some,
            old(self).nodes_v()[id as int].children is Some ==> final(self).nodes_v()[id as int] == old(self).nodes_v()[id as int],
            kids(final(self).nodes_v(), id as int) == kids(old(self).nodes_v(), id as int),
            forall|k: int| 0 <= k < old(self).nodes_v().len() && k != id ==> #[trigger] final(self).nodes_v()[k] == old(self).nodes_v()[k],
            final(self).filter_v() == old(self).filter_v(),
            final(self).sel() == old(self).sel(),
            final(self).off() == old(self).off(),
    {
        let ghost old_nodes = self.nodes@;
        if self.nodes[id as usize].children.is_none() {
            self.nodes[id as usize].children = Some(Vec::new());
        }
        self.dirty = true;
        proof {
            let nn = self.nodes@;
            assert forall|q: int| 0 <= q < nn.len() implies kids(nn, q) == kids(old_nodes, q) by {
                if q == id {
                    assert(kids(nn, q) =~= kids(old_nodes, q));
                }
            }
            assert forall|c: int| 0 < c < nn.len() implies match (#[trigger] nn[c]).parent {
                Some(p) => p < c && kids(nn, p as int).contains(c as u32),
                None => false,
            } by {
                assert(old_nodes[c].parent is Some);
                assert(kids(nn, old_nodes[c].parent->0 as int) == kids(old_nodes, old_nodes[c].parent->0 as int));
            }
        }
    }

    pub fn set_status(&mut self, id: u32, status: Option<ChangeKind>)
        requires
            old(self).wf(),
            id < old(self).nodes_v().len(),
        ensures
            final(self).wf(),
            final(self).nodes_v() == old(self).nodes_v().update(id as int, with_status(old(self).nodes_v()[id as int], status)),
            final(self).filter_v() == old(self).filter_v(),
            final(self).sel() == old(self).sel(),
            final(self).off() == old(self).off(),
    {
        let ghost old_nodes = self.nodes@;
        let ghost old_self = *self;
        self.nodes[id as usize].status = status;
        proof {
            let nn = self.nodes@;
            assert(nn =~= old_nodes.update(id as int, with_status(old_nodes[id as int], status)));
            assert forall|q: int| 0 <= q < nn.len() implies kids(nn, q) == kids(old_nodes, q) by {}
            assert forall|c: int| 0 < c < nn.len() implies match (#[trigger] nn[c]).parent {
                Some(p) => p < c && kids(nn, p as int).contains(c as u32),
                None => false,
            } by {
                assert(old_nodes[c].parent is Some);
            }
            assert(same_layout(old_nodes, nn));
            lemma_layout_rows(old_nodes, nn, old_self.filter_v());
        }
    }

    /// The name filter, if any.
    pub fn filter(&self) -> (f: Option<&str>)
        ensures
            match f {
                Some(s) => self.filter_v() == Some(s@),
                None => self.filter_v() is None,
            },
    {
        match &self.filter {
            Some(f) => Some(f.as_str()),
            None => None,
        }
    }

    /// Sets the name filter: an empty one clears it, any other is kept lowercased.
    pub fn set_filter(&mut self, filter: Option<String>)
        requires
            old(self).wf(),
        ensures
            final(self).wf(),
            final(self).filter_v() == match filter {
                Some(f) => if f@.len() > 0 { Some(lowercase(f@)) } else { None },
                None => None,
            },
            final(self).nodes_v() == old(self).nodes_v(),
            final(self).sel() == old(self).sel(),
            final(self).off() == old(self).off(),
    {
        self.filter = match filter {
            Some(f) => if !f.as_str().is_empty() {
                Some(str_to_lowercase(f.as_str()))
            } else {
                None
            },
            None => None,
        };
        self.dirty = true;
    }

    /// Appends node `id` and, below open directories, its descendants.
    fn collect_open(&self, id: u32, out: &mut Vec<u32>)
        requires
            tree_shape(self.nodes@),
            id < self.nodes@.len(),
        ensures
            final(out)@ == old(out)@ + subtree_rows(self.nodes@, id as int),
        decreases self.nodes@.len() - id,
    {
        let ghost start = out@;
        let ghost nodes = self.nodes@;
        out.push(id);
        let node = &self.nodes[id as usize];
        if node.is_dir && node.expanded {
            match &node.children {
                Some(children) => {
                    let mut j: usize = 0;
                    while j < children.len()
                        invariant
                            tree_shape(nodes),
                            nodes == self.nodes@,
                            id < nodes.len(),
                            children@ == kids(nodes, id as int),
                            j <= children@.len(),
                            out@ == start + seq![id] + list_rows(nodes, children@.take(j as int), id as int),
                        decreases children@.len() - j,
                    {
                        let c = children[j];
                        proof {
                            assert(children@.take(j + 1).drop_last() =~= children@.take(j as int));
                            assert(id < kids(nodes, id as int)[j as int] < nodes.len());
                        }
                        self.collect_open(c, out);
                        j += 1;
                    }
                    assert(children@.take(j as int) =~= children@);
                },
                None => {},
            }
        }
        assert(out@ =~= start + subtree_rows(nodes, id as int));
    }

    /// Appends node `id` with its kept descendants when it is kept; answers
    /// whether it was.
    fn collect_filtered(&self, id: u32, needle: &[char], out: &mut Vec<u32>) -> (hit: bool)
        requires
            tree_shape(self.nodes@),
            id < self.nodes@.len(),
        ensures
            final(out)@ == old(out)@ + filtered_rows(self.nodes@, id as int, needle@),
            hit == (filtered_rows(self.nodes@, id as int, needle@).len() > 0),
        decreases self.nodes@.len() - id,
    {
        let ghost start = out@;
        let ghost nodes = self.nodes@;
        let node = &self.nodes[id as usize];
        let lower = str_to_lowercase(node.name.as_str());
        let lower_chars = chars_of(lower.as_str());
        let hit = has_substring(lower_chars.as_slice(), needle);
        let mark = out.len();
        out.push(id);
        let mut child_hit = false;
        match &node.children {
            Some(children) => {
                let mut j: usize = 0;
                while j < children.len()
                    invariant
                        tree_shape(nodes),
                        nodes == self.nodes@,
                        id < nodes.len(),
                        children@ == kids(nodes, id as int),
                        j <= children@.len(),
                        mark == start.len(),
                        out@ == start + seq![id] + filtered_list(nodes, children@.take(j as int), id as int, needle@),
                        child_hit == (filtered_list(nodes, children@.take(j as int), id as int, needle@).len() > 0),
                    decreases children@.len() - j,
                {
                    let c = children[j];
                    proof {
                        assert(children@.take(j + 1).drop_last() =~= children@.take(j as int));
                        assert(id < kids(nodes, id as int)[j as int] < nodes.len());
                    }
                    let h = self.collect_filtered(c, needle, out);
                    child_hit = child_hit || h;
                    j += 1;
                }
                assert(children@.take(j as int) =~= children@);
            },
            None => {},
        }
        if hit || child_hit {
            assert(out@ =~= start + filtered_rows(nodes, id as int, needle@));
            true
        } else {
            out.truncate(mark);
            assert(out@ =~= start + filtered_rows(nodes, id as int, needle@));
            false
        }
    }

    fn rebuild(&mut self)
        requires
            tree_shape(old(self).nodes@),
        ensures
            final(self).nodes@ == old(self).nodes@,
            final(self).filter == old(self).filter,
            final(self).offset == old(self).offset,
            !final(self).dirty,
            final(self).visible@ == final(self).rows(),
            final(self).selected == clamp_sel(old(self).selected as int, final(self).rows().len() as int),
    {
        let ghost nodes = self.nodes@;
        let mut visible: Vec<u32> = Vec::new();
        match &self.filter {
            Some(f) => {
                let needle = chars_of(f.as_str());
                match &self.nodes[0].children {
                    Some(roots) => {
                        let mut j: usize = 0;
                        while j < roots.len()
                            invariant
                                tree_shape(nodes),
                                nodes == self.nodes@,
                                roots@ == kids(nodes, 0),
                                j <= roots@.len(),
                                visible@ == filtered_list(nodes, roots@.take(j as int), 0, needle@),
                            decreases roots@.len() - j,
                        {
                            let c = roots[j];
                            proof {
                                assert(roots@.take(j + 1).drop_last() =~= roots@.take(j as int));
                                assert(0 < kids(nodes, 0)[j as int] < nodes.len());
                            }
                            self.collect_filtered(c, needle.as_slice(), &mut visible);
                            j += 1;
                        }
                        assert(roots@.take(j as int) =~= roots@);
                    },
                    None => {},
                }
            },
            None => {
                match &self.nodes[0].children {
                    Some(roots) => {
                        let mut j: usize = 0;
                        while j < roots.len()
                            invariant
                                tree_shape(nodes),
                                nodes == self.nodes@,
                                roots@ == kids(nodes, 0),
                                j <= roots@.len(),
                                visible@ == list_rows(nodes, roots@.take(j as int), 0),
                            decreases roots@.len() - j,
                        {
                            let c = roots[j];
                            proof {
                                assert(roots@.take(j + 1).drop_last() =~= roots@.take(j as int));
                                assert(0 < kids(nodes, 0)[j as int] < nodes.len());
                            }
                            self.collect_open(c, &mut visible);
                            j += 1;
                        }
                        assert(roots@.take(j as int) =~= roots@);
                    },
                    None => {},
                }
            },
        }
        self.visible = visible;
        self.dirty = false;
        if self.selected >= self.visible.len() {
            self.selected = if self.visible.len() > 0 { self.visible.len() - 1 } else { 0 };
        }
    }

    /// Brings the cached list up to date.
    fn sync(&mut self)
        requires
            old(self).wf(),
        ensures
            final(self).wf(),
            !final(self).dirty,
            final(self).visible@ == final(self).rows(),
            final(self).nodes_v() == old(self).nodes_v(),
            final(self).filter_v() == old(self).filter_v(),
            final(self).sel() == clamp_sel(old(self).sel(), old(self).rows().len() as int),
            final(self).off() == old(self).off(),
    {
        if self.dirty {
            self.rebuild();
        }
    }

    /// The visible rows, in display order.
    pub fn visible(&mut self) -> (v: &[u32])
        requires
            old(self).wf(),
        ensures
            final(self).wf(),
            v@ == old(self).rows(),
            forall|i: int| 0 <= i < v@.len() ==> #[trigger] v@[i] < old(self).nodes_v().len(),
            final(self).nodes_v() == old(self).nodes_v(),
            final(self).filter_v() == old(self).filter_v(),
            final(self).sel() == clamp_sel(old(self).sel(), old(self).rows().len() as int),
            final(self).off() == old(self).off(),
    {
        self.sync();
        proof {
            lemma_rows_in_range(self.nodes@, self.filter_v());
        }
        self.visible.as_slice()
    }

    pub fn visible_len(&mut self) -> (n: usize)
        requires
            old(self).wf(),
        ensures
            final(self).wf(),
            n == old(self).rows().len(),
            final(self).nodes_v() == old(self).nodes_v(),
            final(self).filter_v() == old(self).filter_v(),
            final(self).sel() == clamp_sel(old(self).sel(), old(self).rows().len() as int),
            final(self).off() == old(self).off(),
    {
        self.sync();
        self.visible.len()
    }

    pub fn selected_index(&self) -> (i: usize)
        ensures
            i == self.sel(),
    {
        self.selected
    }

    pub fn offset(&self) -> (o: usize)
        ensures
            o == self.off(),
    {
        self.offset
    }

    /// The id on the selected row, read at the stored selection index.
    pub fn selected_id(&mut self) -> (r: Option<u32>)
        requires
            old(self).wf(),
        ensures
            final(self).wf(),
            r == if old(self).sel() < old(self).rows().len() {
                Some(old(self).rows()[old(self).sel()])
            } else {
                None::<u32>
            },
            r matches Some(id) ==> id < final(self).nodes_v().len(),
            final(self).nodes_v() == old(self).nodes_v(),
            final(self).filter_v() == old(self).filter_v(),
            final(self).sel() == clamp_sel(old(self).sel(), old(self).rows().len() as int),
            final(self).off() == old(self).off(),
    {
        let index = self.selected;
        self.sync();
        proof {
            lemma_rows_in_range(self.nodes@, self.filter_v());
        }
        if index < self.visible.len() {
            Some(self.visible[index])
        } else {
            None
        }
    }

    /// The node on the selected row.
    pub fn selected_node(&mut self) -> (r: Option<&Node>)
        requires
            old(self).wf(),
        ensures
            final(self).wf(),
            r is Some == (old(self).sel() < old(self).rows().len()),
            r matches Some(n) ==> *n == final(self).nodes_v()[old(self).rows()[old(self).sel()] as int],
            final(self).nodes_v() == old(self).nodes_v(),
            final(self).filter_v() == old(self).filter_v(),
            final(self).sel() == clamp_sel(old(self).sel(), old(self).rows().len() as int),
            final(self).off() == old(self).off(),
    {
        match self.selected_id() {
            Some(id) => Some(&self.nodes[id as usize]),
            None => None,
        }
    }

    /// Moves the selection by `delta` rows, kept inside the visible rows.
    pub fn move_selection(&mut self, delta: isize)
        requires
            old(self).wf(),
        ensures
            final(self).wf(),
            ({
                let len = old(self).rows().len() as int;
                let s = clamp_sel(old(self).sel(), len) + delta;
                final(self).sel() == if len == 0 { 0 } else if s < 0 { 0 } else if s > len - 1 { len - 1 } else { s }
            }),
            final(self).nodes_v() == old(self).nodes_v(),
            final(self).filter_v() == old(self).filter_v(),
            final(self).off() == old(self).off(),
    {
        let len = self.visible_len();
        if len == 0 {
            return;
        }
        let cur: i128 = self.selected as i128 + delta as i128;
        let hi: i128 = (len - 1) as i128;
        let next: i128 = if cur < 0 { 0 } else if cur > hi { hi } else { cur };
        self.selected = next as usize;
    }

    pub fn select_first(&mut self)
        requires
            old(self).wf(),
        ensures
            final(self).wf(),
            final(self).sel() == 0,
            final(self).nodes_v() == old(self).nodes_v(),
            final(self).filter_v() == old(self).filter_v(),
            final(self).off() == old(self).off(),
    {
        self.selected = 0;
    }

    pub fn select_last(&mut self)
        requires
            old(self).wf(),
        ensures
            final(self).wf(),
            final(self).sel() == if old(self).rows().len() > 0 { old(self).rows().len() - 1 } else { 0 },
            final(self).nodes_v() == old(self).nodes_v(),
            final(self).filter_v() == old(self).filter_v(),
            final(self).off() == old(self).off(),
    {
        let len = self.visible_len();
        self.selected = if len > 0 { len - 1 } else { 0 };
    }

    /// Moves the scroll offset as little as needed for the selected row to
    /// lie inside a window of `height` rows.
    pub fn scroll_into_view(&mut self, height: usize)
        requires
            old(self).wf(),
        ensures
            final(self).wf(),
            height == 0 ==> final(self).sel() == old(self).sel() && final(self).off() == old(self).off(),
            height > 0 ==> final(self).sel() == clamp_sel(old(self).sel(), old(self).rows().len() as int),
            height > 0 ==> final(self).off() == scroll_to(final(self).sel(), old(self).off(), height as int, old(self).rows().len() as int),
            height > 0 && old(self).rows().len() > 0 ==> final(self).off() <= final(self).sel() < final(self).off() + height,
            final(self).nodes_v() == old(self).nodes_v(),
            final(self).filter_v() == old(self).filter_v(),
    {
        if height == 0 {
            return;
        }
        let len = self.visible_len();
        if self.selected < self.offset {
            self.offset = self.selected;
        } else if self.selected - self.offset >= height {
            self.offset = self.selected + 1 - height;
        }
        let max_offset = if len > height { len - height } else { 0 };
        if self.offset > max_offset {
            self.offset = max_offset;
        }
    }

    pub fn expand(&mut self, id: u32)
        requires
            old(self).wf(),
            id < old(self).nodes_v().len(),
        ensures
            final(self).wf(),
            final(self).nodes_v() == if old(self).nodes_v()[id as int].is_dir {
                old(self).nodes_v().update(id as int, with_expanded(old(self).nodes_v()[id as int], true))
            } else {
                old(self).nodes_v()
            },
            final(self).filter_v() == old(self).filter_v(),
            final(self).sel() == old(self).sel(),
            final(self).off() == old(self).off(),
    {
        let ghost a = self.nodes@;
        if self.nodes[id as usize].is_dir && !self.nodes[id as usize].expanded {
            self.nodes[id as usize].expanded = true;
            self.dirty = true;
            proof {
                lemma_flags_frame(a, self.nodes@, 0);
            }
        }
        assert(self.nodes@ =~= if a[id as int].is_dir { a.update(id as int, with_expanded(a[id as int], true)) } else { a });
    }

    pub fn collapse(&mut self, id: u32)
        requires
            old(self).wf(),
            id < old(self).nodes_v().len(),
        ensures
            final(self).wf(),
            final(self).nodes_v() == if old(self).nodes_v()[id as int].is_dir {
                old(self).nodes_v().update(id as int, with_expanded(old(self).nodes_v()[id as int], false))
            } else {
                old(self).nodes_v()
            },
            final(self).filter_v() == old(self).filter_v(),
            final(self).sel() == old(self).sel(),
            final(self).off() == old(self).off(),
    {
        let ghost a = self.nodes@;
        if self.nodes[id as usize].is_dir && self.nodes[id as usize].expanded {
            self.nodes[id as usize].expanded = false;
            self.dirty = true;
            proof {
                lemma_flags_frame(a, self.nodes@, 0);
            }
        }
        assert(self.nodes@ =~= if a[id as int].is_dir { a.update(id as int, with_expanded(a[id as int], false)) } else { a });
    }

    pub fn toggle(&mut self, id: u32)
        requires
            old(self).wf(),
            id < old(self).nodes_v().len(),
        ensures
            final(self).wf(),
            final(self).nodes_v() == if old(self).nodes_v()[id as int].is_dir {
                old(self).nodes_v().update(id as int, with_expanded(old(self).nodes_v()[id as int], !old(self).nodes_v()[id as int].expanded))
            } else {
                old(self).nodes_v()
            },
            final(self).filter_v() == old(self).filter_v(),
            final(self).sel() == old(self).sel(),
            final(self).off() == old(self).off(),
    {
        let ghost a = self.nodes@;
        if self.nodes[id as usize].is_dir {
            let e = self.nodes[id as usize].expanded;
            self.nodes[id as usize].expanded = !e;
            self.dirty = true;
            proof {
                lemma_flags_frame(a, self.nodes@, 0);
            }
        }
    }

    /// The parent of `id`, unless that is the root.
    pub fn parent_of(&self, id: u32) -> (r: Option<u32>)
        requires
            self.wf(),
            id < self.nodes_v().len(),
        ensures
            r == match self.nodes_v()[id as int].parent {
                Some(p) => if p != Self::ROOT { Some(p) } else { None::<u32> },
                None => None::<u32>,
            },
    {
        match self.nodes[id as usize].parent {
            Some(p) => if p != Self::ROOT { Some(p) } else { None },
            None => None,
        }
    }

    /// Selects the first visible row that shows `id`, if any; otherwise the
    /// selection stays where it is.
    pub fn select_node(&mut self, id: u32)
        requires
            old(self).wf(),
        ensures
            final(self).wf(),
            old(self).rows().contains(id) ==> {
                &&& 0 <= final(self).sel() < old(self).rows().len()
                &&& old(self).rows()[final(self).sel()] == id
                &&& forall|j: int| 0 <= j < final(self).sel() ==> old(self).rows()[j] != id
            },
            !old(self).rows().contains(id) ==> final(self).sel() == clamp_sel(old(self).sel(), old(self).rows().len() as int),
            final(self).nodes_v() == old(self).nodes_v(),
            final(self).filter_v() == old(self).filter_v(),
            final(self).off() == old(self).off(),
    {
        self.sync();
        let ghost snap = *self;
        let mut i: usize = 0;
        while i < self.visible.len()
            invariant
                *self == snap,
                snap.wf(),
                snap.rows() == old(self).rows(),
                snap.nodes_v() == old(self).nodes_v(),
                snap.filter_v() == old(self).filter_v(),
                snap.off() == old(self).off(),
                snap.sel() == clamp_sel(old(self).sel(), old(self).rows().len() as int),
                !snap.dirty,
                snap.visible@ == snap.rows(),
                i <= self.visible@.len(),
                forall|j: int| 0 <= j < i ==> self.visible@[j] != id,
            decreases self.visible@.len() - i,
        {
            if self.visible[i] == id {
                self.selected = i;
                assert(snap.rows().contains(id));
                return;
            }
            i += 1;
        }
        assert(!snap.rows().contains(id)) by {
            if snap.rows().contains(id) {
                let k = choose|k: int| 0 <= k < snap.rows().len() && snap.rows()[k] == id;
                assert(self.visible@[k] != id);
            }
        }
    }

    /// The first node whose path is `path`.
    pub fn find_by_path(&self, path: &str) -> (r: Option<u32>)
        requires
            self.wf(),
        ensures
            match r {
                Some(id) => {
                    &&& id < self.nodes_v().len()
                    &&& self.nodes_v()[id as int].path@ == path@
                    &&& forall|k: int| 0 <= k < id ==> (#[trigger] self.nodes_v()[k]).path@ != path@
                },
                None => forall|k: int| 0 <= k < self.nodes_v().len() ==> (#[trigger] self.nodes_v()[k]).path@ != path@,
            },
            path@.len() == 0 ==> r == Some(0u32),
    {
        let target = path.to_owned();
        let mut i: usize = 0;
        while i < self.nodes.len()
            invariant
                self.wf(),
                target@ == path@,
                i <= self.nodes@.len(),
                forall|k: int| 0 <= k < i ==> (#[trigger] self.nodes@[k]).path@ != path@,
            decreases self.nodes@.len() - i,
        {
            proof {
                if path@.len() == 0 {
                    assert(self.nodes_v()[0].path@ =~= path@);
                    assert(self.nodes@[0] == self.nodes_v()[0]);
                }
            }
            if self.nodes[i].path == target {
                return Some(i as u32);
            }
            i += 1;
        }
        proof {
            if path@.len() == 0 {
                assert(self.nodes_v()[0].path@ =~= path@);
                assert(self.nodes@[0] == self.nodes_v()[0]);
            }
        }
        None
    }

    /// Expands every directory above `id` and selects the row that shows it.
    pub fn reveal_node(&mut self, id: u32)
        requires
            old(self).wf(),
            id < old(self).nodes_v().len(),
        ensures
            final(self).wf(),
            final(self).nodes_v() == expand_up(old(self).nodes_v(), old(self).nodes_v()[id as int].parent),
            final(self).filter_v() == old(self).filter_v(),
            final(self).off() == old(self).off(),
            final(self).rows().contains(id) ==> {
                &&& 0 <= final(self).sel() < final(self).rows().len()
                &&& final(self).rows()[final(self).sel()] == id
                &&& forall|j: int| 0 <= j < final(self).sel() ==> final(self).rows()[j] != id
            },
            old(self).filter_v() is None && 0 < id && dirs_up(old(self).nodes_v(), id as int)
                ==> final(self).rows().contains(id),
    {
        let ghost a = self.nodes@;
        let mut cur = self.nodes[id as usize].parent;
        proof {
            lemma_expand_up_frame(a, cur);
        }
        while cur.is_some()
            invariant
                tree_shape(a),
                tree_shape(self.nodes@),
                self.nodes@.len() == a.len(),
                id < a.len(),
                self.filter == old(self).filter,
                self.offset == old(self).offset,
                cur matches Some(p) ==> p < self.nodes@.len(),
                expand_up(self.nodes@, cur) == expand_up(a, a[id as int].parent),
            decreases (match cur { Some(p) => p as int + 1, None => 0 }),
        {
            let p = cur.unwrap();
            let ghost before = self.nodes@;
            self.nodes[p as usize].expanded = true;
            proof {
                lemma_flags_frame(before, self.nodes@, 0);
                assert(self.nodes@ == before.update(p as int, with_expanded(before[p as int], true)));
                if p > 0 {
                    assert(before[p as int].parent is Some);
                }
            }
            cur = self.nodes[p as usize].parent;
        }
        self.dirty = true;
        proof {
            if 0 < id && dirs_up(a, id as int) && self.filter_v() is None {
                lemma_reveal_visible(a, id as int);
            }
        }
        self.select_node(id);
    }

    /// Back to a fresh tree with only the root.
    pub fn clear(&mut self)
        ensures
            final(self).wf(),
            final(self).nodes_v().len() == 1,
            fresh_root(final(self).nodes_v()[0]),
            final(self).filter_v() is None,
            final(self).sel() == 0,
            final(self).off() == 0,
    {
        *self = Self::new();
    }
}

impl Default for TreeModel {
    fn default() -> (t: TreeModel)
        ensures
            t.wf(),
            t.nodes_v().len() == 1,
            fresh_root(t.nodes_v()[0]),
            t.filter_v() is None,
            t.sel() == 0,
            t.off() == 0,
    {
        TreeModel::new()
    }
}

} // verus!
