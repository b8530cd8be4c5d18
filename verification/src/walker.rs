//! The entries of one directory level, as the file tree lists them: the
//! repository's own `.git` left out, directories first, then by name
//! without regard to case, then by name.
use vstd::prelude::*;
use crate::strs::{lowercase, str_to_lowercase};

verus! {

/// One entry of a directory.
#[derive(Clone, Debug)]
pub struct DirEntry {
    pub name: String,
    pub is_dir: bool,
}

/// `a` before `b` in the order of their characters' code points.
pub open spec fn text_lt(a: Seq<char>, b: Seq<char>) -> bool
    decreases a.len(),
{
    if a.len() == 0 {
        b.len() > 0
    } else if b.len() == 0 {
        false
    } else if a[0] != b[0] {
        (a[0] as u32) < (b[0] as u32)
    } else {
        text_lt(a.drop_first(), b.drop_first())
    }
}

proof fn lemma_char_order(c: char, d: char)
    ensures
        c != d ==> (c as u32) != (d as u32),
{
    if c != d && (c as u32) == (d as u32) {
        vstd::utf8::char_u32_cast(c, c as u32);
        vstd::utf8::char_u32_cast(d, d as u32);
    }
}

pub proof fn lemma_text_lt_asym(a: Seq<char>, b: Seq<char>)
    ensures
        text_lt(a, b) ==> !text_lt(b, a),
    decreases a.len(),
{
    if a.len() > 0 && b.len() > 0 && a[0] == b[0] {
        lemma_text_lt_asym(a.drop_first(), b.drop_first());
    }
}

pub proof fn lemma_text_lt_trans(a: Seq<char>, b: Seq<char>, c: Seq<char>)
    requires
        text_lt(a, b),
        text_lt(b, c),
    ensures
        text_lt(a, c),
    decreases a.len(),
{
    if a.len() > 0 && b.len() > 0 && c.len() > 0 {
        lemma_char_order(a[0], b[0]);
        lemma_char_order(b[0], c[0]);
        lemma_char_order(a[0], c[0]);
        if a[0] == b[0] && b[0] == c[0] {
            lemma_text_lt_trans(a.drop_first(), b.drop_first(), c.drop_first());
        }
    }
}

pub proof fn lemma_text_lt_total(a: Seq<char>, b: Seq<char>)
    ensures
        a != b ==> text_lt(a, b) || text_lt(b, a),
    decreases a.len(),
{
    if a.len() > 0 && b.len() > 0 {
        lemma_char_order(a[0], b[0]);
        if a[0] == b[0] {
            lemma_text_lt_total(a.drop_first(), b.drop_first());
            if a.drop_first() == b.drop_first() {
                assert(a =~= seq![a[0]] + a.drop_first());
                assert(b =~= seq![b[0]] + b.drop_first());
            }
        }
    } else if a.len() == 0 && b.len() == 0 {
        assert(a =~= b);
    }
}

/// Whether `a` is listed before `b`: directories first, then by the
/// lowercased name, then by the name.
pub open spec fn entry_lt(a: DirEntry, b: DirEntry) -> bool {
    if a.is_dir != b.is_dir {
        a.is_dir
    } else if lowercase(a.name@) != lowercase(b.name@) {
        text_lt(lowercase(a.name@), lowercase(b.name@))
    } else {
        text_lt(a.name@, b.name@)
    }
}

proof fn lemma_entry_lt_asym(a: DirEntry, b: DirEntry)
    ensures
        entry_lt(a, b) ==> !entry_lt(b, a),
{
    lemma_text_lt_asym(lowercase(a.name@), lowercase(b.name@));
    lemma_text_lt_asym(a.name@, b.name@);
}

proof fn lemma_entry_lt_trans(a: DirEntry, b: DirEntry, c: DirEntry)
    requires
        entry_lt(a, b),
        entry_lt(b, c),
    ensures
        entry_lt(a, c),
{
    let (la, lb, lc) = (lowercase(a.name@), lowercase(b.name@), lowercase(c.name@));
    if a.is_dir == b.is_dir && b.is_dir == c.is_dir {
        if la != lb && lb != lc {
            lemma_text_lt_trans(la, lb, lc);
            lemma_text_lt_asym(la, lc);
            if la == lc {
                lemma_text_lt_asym(la, lb);
            }
        } else if la == lb && lb == lc {
            lemma_text_lt_trans(a.name@, b.name@, c.name@);
        }
    }
}

proof fn lemma_entry_total(a: DirEntry, b: DirEntry)
    ensures
        !entry_lt(a, b) && !entry_lt(b, a) ==> a.is_dir == b.is_dir && a.name@ == b.name@,
{
    lemma_text_lt_total(lowercase(a.name@), lowercase(b.name@));
    lemma_text_lt_total(a.name@, b.name@);
}

proof fn lemma_entry_le_trans(a: DirEntry, b: DirEntry, c: DirEntry)
    requires
        !entry_lt(a, b),
        !entry_lt(b, c),
    ensures
        !entry_lt(a, c),
{
    lemma_entry_total(a, b);
    lemma_entry_total(b, c);
    lemma_entry_lt_asym(a, c);
    if entry_lt(a, c) {
        if entry_lt(b, a) && entry_lt(c, b) {
            lemma_entry_lt_trans(c, b, a);
        } else if entry_lt(b, a) {
            assert(c.is_dir == b.is_dir && c.name@ == b.name@);
            lemma_entry_lt_asym(a, b);
        } else if entry_lt(c, b) {
            assert(a.is_dir == b.is_dir && a.name@ == b.name@);
            lemma_entry_lt_asym(b, c);
        } else {
            assert(a.is_dir == c.is_dir && a.name@ == c.name@);
        }
    }
}

/// Whether `a` is listed before `b`.
fn entry_less(a: &DirEntry, b: &DirEntry) -> (r: bool)
    ensures
        r == entry_lt(*a, *b),
{
    if a.is_dir != b.is_dir {
        return a.is_dir;
    }
    let la = str_to_lowercase(a.name.as_str());
    let lb = str_to_lowercase(b.name.as_str());
    if la != lb {
        text_less(la.as_str(), lb.as_str())
    } else {
        text_less(a.name.as_str(), b.name.as_str())
    }
}

/// Whether `a` comes before `b` by code points.
fn text_less(a: &str, b: &str) -> (r: bool)
    ensures
        r == text_lt(a@, b@),
{
    let x = crate::strs::chars_of(a);
    let y = crate::strs::chars_of(b);
    let mut i: usize = 0;
    assert(x@.skip(0) =~= x@ && y@.skip(0) =~= y@);
    while i < x.len() && i < y.len() && x[i] == y[i]
        invariant
            i <= x@.len(),
            i <= y@.len(),
            text_lt(x@, y@) == text_lt(x@.skip(i as int), y@.skip(i as int)),
        decreases x@.len() - i,
    {
        assert(x@.skip(i as int).drop_first() =~= x@.skip(i + 1));
        assert(y@.skip(i as int).drop_first() =~= y@.skip(i + 1));
        i += 1;
    }
    if i == x.len() {
        i < y.len()
    } else if i == y.len() {
        false
    } else {
        (x[i] as u32) < (y[i] as u32)
    }
}

/// The entries without those named `.git`, in list order.
pub open spec fn without_git(es: Seq<DirEntry>) -> Seq<DirEntry>
    decreases es.len(),
{
    if es.len() == 0 {
        es
    } else {
        let rest = without_git(es.drop_last());
        if es.last().name@ == ".git"@ { rest } else { rest.push(es.last()) }
    }
}

/// Orders the entries of a directory as the tree lists them, leaving out
/// the repository's `.git`.
pub fn tidy_entries(entries: Vec<DirEntry>) -> (r: Vec<DirEntry>)
    ensures
        r@.to_multiset() == without_git(entries@).to_multiset(),
        forall|j: int, k: int| 0 <= j < k < r@.len() ==> !entry_lt(#[trigger] r@[k], #[trigger] r@[j]),
{
    let mut kept: Vec<DirEntry> = Vec::new();
    let mut i: usize = 0;
    let git = String::from_str(".git");
    proof {
        reveal_strlit(".git");
        assert(without_git(entries@.take(0)) =~= Seq::<DirEntry>::empty());
    }
    while i < entries.len()
        invariant
            i <= entries@.len(),
            git@ == ".git"@,
            kept@ == without_git(entries@.take(i as int)),
        decreases entries@.len() - i,
    {
        let e = &entries[i];
        proof {
            assert(entries@.take(i + 1).drop_last() =~= entries@.take(i as int));
            assert(entries@.take(i + 1).last() == entries@[i as int]);
        }
        if e.name != git {
            kept.push(DirEntry { name: e.name.clone(), is_dir: e.is_dir });
        }
        i += 1;
    }
    assert(entries@.take(i as int) =~= entries@);
    sort_entries(&mut kept);
    kept
}

/// Sorts entries stably into list order.
fn sort_entries(v: &mut Vec<DirEntry>)
    ensures
        final(v)@.to_multiset() == old(v)@.to_multiset(),
        forall|j: int, k: int| 0 <= j < k < final(v)@.len() ==> !entry_lt(#[trigger] final(v)@[k], #[trigger] final(v)@[j]),
{
    broadcast use vstd::seq_lib::group_to_multiset_ensures;
    let n = v.len();
    if n == 0 {
        return;
    }
    let mut i: usize = 1;
    while i < n
        invariant
            1 <= i <= n,
            n == v@.len(),
            v@.to_multiset() == old(v)@.to_multiset(),
            forall|j: int, k: int| 0 <= j < k < i ==> !entry_lt(#[trigger] v@[k], #[trigger] v@[j]),
        decreases n - i,
    {
        let ghost before = v@;
        let x = v.remove(i);
        let mut j: usize = i;
        while j > 0 && entry_less(&x, &v[j - 1])
            invariant
                j <= i,
                i < n,
                before.len() == n,
                x == before[i as int],
                v@ == before.remove(i as int),
                forall|k: int| j <= k < i ==> entry_lt(x, #[trigger] v@[k]),
            decreases j,
        {
            j -= 1;
        }
        proof {
            assert forall|k: int| 0 <= k < j implies !entry_lt(x, #[trigger] v@[k]) by {
                assert(!entry_lt(x, v@[j - 1]));
                if k < j - 1 {
                    assert(v@[j - 1] == before[j - 1] && v@[k] == before[k]);
                    assert(!entry_lt(v@[j - 1], v@[k]));
                    lemma_entry_le_trans(x, v@[j - 1], v@[k]);
                }
            }
            assert forall|k: int| j <= k < i implies !entry_lt(#[trigger] v@[k], x) by {
                lemma_entry_lt_asym(x, v@[k]);
            }
        }
        v.insert(j, x);
        proof {
            broadcast use vstd::multiset::group_multiset_axioms;
            assert(before.contains(before[i as int]));
            vstd::seq_lib::to_multiset_contains(before, before[i as int]);
            assert(before.to_multiset().remove(x).insert(x) =~= before.to_multiset());
            vstd::seq_lib::to_multiset_remove(before, i as int);
            vstd::seq_lib::to_multiset_insert(before.remove(i as int), j as int, x);
            assert(v@ == before.remove(i as int).insert(j as int, x));
            assert forall|a: int, b: int| 0 <= a < b < i + 1 implies !entry_lt(#[trigger] v@[b], #[trigger] v@[a]) by {
                if a < j && b < j {
                    assert(v@[a] == before[a] && v@[b] == before[b]);
                } else if a < j && b == j {
                    assert(v@[a] == before[a]);
                } else if a < j {
                    assert(v@[a] == before[a] && v@[b] == before[b - 1]);
                    assert(!entry_lt(x, before[a]));
                    assert(!entry_lt(before[b - 1], x));
                    lemma_entry_le_trans(before[b - 1], x, before[a]);
                } else if a == j {
                    assert(v@[b] == before[b - 1]);
                } else {
                    assert(v@[a] == before[a - 1] && v@[b] == before[b - 1]);
                }
            }
        }
        i += 1;
    }
}

proof fn lemma_text_le_trans(a: Seq<char>, b: Seq<char>, c: Seq<char>)
    requires
        !text_lt(a, b),
        !text_lt(b, c),
    ensures
        !text_lt(a, c),
{
    lemma_text_lt_total(a, b);
    lemma_text_lt_total(b, c);
    lemma_text_lt_asym(a, c);
    if text_lt(a, c) {
        if a != b && b != c {
            lemma_text_lt_trans(c, b, a);
        }
    }
}

/// Sorts strings stably by code points.
pub fn sort_strings(v: &mut Vec<String>)
    ensures
        final(v)@.to_multiset() == old(v)@.to_multiset(),
        forall|j: int, k: int| 0 <= j < k < final(v)@.len() ==> !text_lt(#[trigger] final(v)@[k]@, #[trigger] final(v)@[j]@),
{
    broadcast use vstd::seq_lib::group_to_multiset_ensures;
    let n = v.len();
    if n == 0 {
        return;
    }
    let mut i: usize = 1;
    while i < n
        invariant
            1 <= i <= n,
            n == v@.len(),
            v@.to_multiset() == old(v)@.to_multiset(),
            forall|j: int, k: int| 0 <= j < k < i ==> !text_lt(#[trigger] v@[k]@, #[trigger] v@[j]@),
        decreases n - i,
    {
        let ghost before = v@;
        let x = v.remove(i);
        let mut j: usize = i;
        while j > 0 && text_less(x.as_str(), v[j - 1].as_str())
            invariant
                j <= i,
                i < n,
                before.len() == n,
                x == before[i as int],
                v@ == before.remove(i as int),
                forall|k: int| j <= k < i ==> text_lt(x@, #[trigger] v@[k]@),
            decreases j,
        {
            j -= 1;
        }
        proof {
            assert forall|k: int| 0 <= k < j implies !text_lt(x@, #[trigger] v@[k]@) by {
                assert(!text_lt(x@, v@[j - 1]@));
                if k < j - 1 {
                    assert(v@[j - 1] == before[j - 1] && v@[k] == before[k]);
                    assert(!text_lt(v@[j - 1]@, v@[k]@));
                    lemma_text_le_trans(x@, v@[j - 1]@, v@[k]@);
                }
            }
            assert forall|k: int| j <= k < i implies !text_lt(#[trigger] v@[k]@, x@) by {
                lemma_text_lt_asym(x@, v@[k]@);
            }
        }
        v.insert(j, x);
        proof {
            broadcast use vstd::multiset::group_multiset_axioms;
            assert(before.contains(before[i as int]));
            vstd::seq_lib::to_multiset_contains(before, before[i as int]);
            assert(before.to_multiset().remove(x).insert(x) =~= before.to_multiset());
            vstd::seq_lib::to_multiset_remove(before, i as int);
            vstd::seq_lib::to_multiset_insert(before.remove(i as int), j as int, x);
            assert(v@ == before.remove(i as int).insert(j as int, x));
            assert forall|a: int, b: int| 0 <= a < b < i + 1 implies !text_lt(#[trigger] v@[b]@, #[trigger] v@[a]@) by {
                if a < j && b < j {
                    assert(v@[a] == before[a] && v@[b] == before[b]);
                } else if a < j && b == j {
                    assert(v@[a] == before[a]);
                } else if a < j {
                    assert(v@[a] == before[a] && v@[b] == before[b - 1]);
                    assert(!text_lt(x@, before[a]@));
                    assert(!text_lt(before[b - 1]@, x@));
                    lemma_text_le_trans(before[b - 1]@, x@, before[a]@);
                } else if a == j {
                    assert(v@[b] == before[b - 1]);
                } else {
                    assert(v@[a] == before[a - 1] && v@[b] == before[b - 1]);
                }
            }
        }
        i += 1;
    }
}

} // verus!
