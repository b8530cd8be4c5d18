//! Relative paths as character sequences with `/` between components:
//! their order, and splitting into parent and file name.
use vstd::prelude::*;
use crate::strs::{chars_of, string_of};

verus! {

/// The weight of a character when paths are ordered: the separator sorts
/// below every other character, so that paths order component by component.
pub open spec fn path_key(c: char) -> int {
    if c == '/' { 0 } else { c as int + 1 }
}

/// Paths in the order of their components, each compared character by character.
pub open spec fn path_lt(a: Seq<char>, b: Seq<char>) -> bool
    decreases a.len(),
{
    if a.len() == 0 {
        b.len() > 0
    } else if b.len() == 0 {
        false
    } else if path_key(a[0]) != path_key(b[0]) {
        path_key(a[0]) < path_key(b[0])
    } else {
        path_lt(a.drop_first(), b.drop_first())
    }
}

pub proof fn lemma_key_injective(c: char, d: char)
    ensures
        path_key(c) == path_key(d) ==> c == d,
{
    if path_key(c) == path_key(d) && c != '/' && d != '/' {
        assert(c as int == d as int);
        vstd::utf8::char_u32_cast(c, c as u32);
    }
}

pub proof fn lemma_path_lt_irreflexive(a: Seq<char>)
    ensures
        !path_lt(a, a),
    decreases a.len(),
{
    if a.len() > 0 {
        lemma_path_lt_irreflexive(a.drop_first());
    }
}

pub proof fn lemma_path_lt_asymmetric(a: Seq<char>, b: Seq<char>)
    ensures
        path_lt(a, b) ==> !path_lt(b, a),
    decreases a.len(),
{
    if a.len() > 0 && b.len() > 0 && path_key(a[0]) == path_key(b[0]) {
        lemma_path_lt_asymmetric(a.drop_first(), b.drop_first());
    }
}

pub proof fn lemma_path_lt_transitive(a: Seq<char>, b: Seq<char>, c: Seq<char>)
    requires
        path_lt(a, b),
        path_lt(b, c),
    ensures
        path_lt(a, c),
    decreases a.len(),
{
    if a.len() > 0 && b.len() > 0 && c.len() > 0 {
        if path_key(a[0]) == path_key(b[0]) && path_key(b[0]) == path_key(c[0]) {
            lemma_path_lt_transitive(a.drop_first(), b.drop_first(), c.drop_first());
        }
    }
}

pub proof fn lemma_path_lt_total(a: Seq<char>, b: Seq<char>)
    ensures
        a != b ==> path_lt(a, b) || path_lt(b, a),
    decreases a.len(),
{
    if a.len() > 0 && b.len() > 0 {
        lemma_key_injective(a[0], b[0]);
        if path_key(a[0]) == path_key(b[0]) {
            lemma_path_lt_total(a.drop_first(), b.drop_first());
            if a.drop_first() == b.drop_first() {
                assert(a =~= seq![a[0]] + a.drop_first());
                assert(b =~= seq![b[0]] + b.drop_first());
            }
        }
    } else if a.len() == 0 && b.len() == 0 {
        assert(a =~= b);
    }
}

fn key_of(c: char) -> (k: u64)
    ensures
        k == path_key(c),
{
    if c == '/' { 0 } else { (c as u32) as u64 + 1 }
}

/// Whether `a` comes before `b` in path order.
pub fn path_less(a: &str, b: &str) -> (r: bool)
    ensures
        r == path_lt(a@, b@),
{
    let x = chars_of(a);
    let y = chars_of(b);
    let mut i: usize = 0;
    assert(x@.skip(0) =~= x@ && y@.skip(0) =~= y@);
    while i < x.len() && i < y.len() && key_of(x[i]) == key_of(y[i])
        invariant
            i <= x@.len(),
            i <= y@.len(),
            path_lt(x@, y@) == path_lt(x@.skip(i as int), y@.skip(i as int)),
        decreases x@.len() - i,
    {
        proof {
            assert(x@.skip(i as int).drop_first() =~= x@.skip(i + 1));
            assert(y@.skip(i as int).drop_first() =~= y@.skip(i + 1));
        }
        i += 1;
    }
    if i == x.len() {
        i < y.len()
    } else if i == y.len() {
        false
    } else {
        key_of(x[i]) < key_of(y[i])
    }
}

/// Index of the last `/` in `s`, or -1.
pub open spec fn last_slash(s: Seq<char>) -> int
    decreases s.len(),
{
    if s.len() == 0 {
        -1
    } else if s.last() == '/' {
        s.len() - 1
    } else {
        last_slash(s.drop_last())
    }
}

pub proof fn lemma_last_slash_bounds(s: Seq<char>)
    ensures
        -1 <= last_slash(s) < s.len(),
        last_slash(s) >= 0 ==> s[last_slash(s)] == '/',
        forall|j: int| last_slash(s) < j < s.len() ==> s[j] != '/',
    decreases s.len(),
{
    if s.len() > 0 && s.last() != '/' {
        lemma_last_slash_bounds(s.drop_last());
        assert forall|j: int| last_slash(s) < j < s.len() implies s[j] != '/' by {
            if j < s.len() - 1 {
                assert(s.drop_last()[j] == s[j]);
            }
        }
    }
}

/// The directory part of a path: everything before the last `/`, or empty.
pub open spec fn parent_of(s: Seq<char>) -> Seq<char> {
    if last_slash(s) >= 0 { s.take(last_slash(s)) } else { Seq::empty() }
}

/// The last component of a path.
pub open spec fn name_of(s: Seq<char>) -> Seq<char> {
    s.skip(last_slash(s) + 1)
}

/// `name` under `base`; under the empty base, `name` itself.
pub open spec fn join_of(base: Seq<char>, name: Seq<char>) -> Seq<char> {
    if base.len() == 0 { name } else { base + seq!['/'] + name }
}

fn find_last_slash(x: &Vec<char>) -> (r: Option<usize>)
    ensures
        match r {
            Some(i) => i == last_slash(x@) && i < x.len(),
            None => last_slash(x@) == -1,
        },
{
    proof { lemma_last_slash_bounds(x@); }
    let mut k: usize = x.len();
    proof {
        assert(x@.take(x@.len() as int) =~= x@);
    }
    while k > 0 && x[k - 1] != '/'
        invariant
            k <= x@.len(),
            last_slash(x@) == last_slash(x@.take(k as int)),
        decreases k,
    {
        proof {
            assert(x@.take(k as int).drop_last() =~= x@.take(k - 1));
        }
        k -= 1;
    }
    if k == 0 {
        None
    } else {
        Some(k - 1)
    }
}

/// The parent directory of a relative path (empty at the top level).
pub fn parent_path(path: &str) -> (r: String)
    ensures
        r@ == parent_of(path@),
{
    let mut x = chars_of(path);
    match find_last_slash(&x) {
        Some(i) => {
            proof { lemma_last_slash_bounds(x@); }
            x.truncate(i);
            string_of(x.as_slice())
        },
        None => String::new(),
    }
}

/// The last component of a relative path.
pub fn file_name(path: &str) -> (r: String)
    ensures
        r@ == name_of(path@),
{
    let x = chars_of(path);
    let start = match find_last_slash(&x) {
        Some(i) => i + 1,
        None => 0,
    };
    proof { lemma_last_slash_bounds(x@); }
    let mut v: Vec<char> = Vec::new();
    let mut j = start;
    while j < x.len()
        invariant
            start <= j <= x@.len(),
            start == last_slash(x@) + 1,
            v@ == x@.subrange(start as int, j as int),
        decreases x@.len() - j,
    {
        v.push(x[j]);
        j += 1;
        assert(v@ =~= x@.subrange(start as int, j as int));
    }
    string_of(v.as_slice())
}

/// `name` under the directory `base`.
pub fn join_path(base: &str, name: &str) -> (r: String)
    ensures
        r@ == join_of(base@, name@),
{
    if base.is_empty() {
        String::from_str(name)
    } else {
        let mut s = String::from_str(base);
        s.append("/");
        s.append(name);
        proof { reveal_strlit("/"); }
        s
    }
}

/// `root` without a final `/`.
pub open spec fn trimmed_root(root: Seq<char>) -> Seq<char> {
    if root.len() > 0 && root.last() == '/' { root.drop_last() } else { root }
}

/// `p` relative to `root`: empty for `root` itself, the rest after `root/`
/// for a path below it, nothing for any other path.
pub open spec fn below(root: Seq<char>, p: Seq<char>) -> Option<Seq<char>> {
    let r = trimmed_root(root);
    if p == r {
        Some(Seq::empty())
    } else if p.len() > r.len() && p.take(r.len() as int) == r && p[r.len() as int] == '/' {
        Some(p.skip(r.len() as int + 1))
    } else {
        None
    }
}

/// A component `.git` starts at character `i` of `rel`.
pub open spec fn git_at(rel: Seq<char>, i: int) -> bool {
    &&& 0 <= i && i + 4 <= rel.len()
    &&& rel.subrange(i, i + 4) == ".git"@
    &&& (i == 0 || rel[i - 1] == '/')
    &&& (i + 4 == rel.len() || rel[i + 4] == '/')
}

/// Some component of `rel` is `.git`.
pub open spec fn in_git(rel: Seq<char>) -> bool {
    exists|i: int| #[trigger] git_at(rel, i)
}

/// The path below `root` of `path`, when it lies below `root` and outside
/// any `.git` directory: the paths a work tree watch looks at.
pub fn watched_rel(root: &str, path: &str) -> (r: Option<String>)
    ensures
        match below(root@, path@) {
            Some(rel) => if in_git(rel) { r is None } else { r matches Some(s) && s@ == rel },
            None => r is None,
        },
{
    let rc = chars_of(root);
    let pc = chars_of(path);
    let rlen = if rc.len() > 0 && rc[rc.len() - 1] == '/' { rc.len() - 1 } else { rc.len() };
    proof {
        assert(rc@.take(rlen as int) =~= trimmed_root(root@));
    }
    if pc.len() < rlen {
        proof {
            assert(path@ != trimmed_root(root@));
        }
        return None;
    }
    let mut k: usize = 0;
    while k < rlen
        invariant
            k <= rlen <= rc@.len(),
            rlen <= pc@.len(),
            rc@ == root@,
            pc@ == path@,
            rc@.take(rlen as int) == trimmed_root(root@),
            forall|j: int| 0 <= j < k ==> pc@[j] == rc@[j],
        decreases rlen - k,
    {
        if pc[k] != rc[k] {
            proof {
                assert(pc@.take(rlen as int)[k as int] != trimmed_root(root@)[k as int]);
                assert(path@.take(rlen as int) != trimmed_root(root@));
                if path@ == trimmed_root(root@) {
                    assert(path@[k as int] == trimmed_root(root@)[k as int]);
                }
            }
            return None;
        }
        k += 1;
    }
    assert(pc@.take(rlen as int) =~= rc@.take(rlen as int));
    let start = if pc.len() == rlen {
        rlen
    } else if pc[rlen] == '/' {
        rlen + 1
    } else {
        return None;
    };
    let mut rel: Vec<char> = Vec::new();
    let mut j: usize = start;
    while j < pc.len()
        invariant
            start <= j <= pc@.len(),
            rel@ == pc@.subrange(start as int, j as int),
        decreases pc@.len() - j,
    {
        rel.push(pc[j]);
        j += 1;
        assert(rel@ =~= pc@.subrange(start as int, j as int));
    }
    proof {
        if pc.len() == rlen {
            assert(path@ =~= trimmed_root(root@));
            assert(rel@ =~= Seq::<char>::empty());
        } else {
            assert(path@ != trimmed_root(root@));
            assert(rel@ =~= path@.skip(rlen + 1));
        }
        reveal_strlit(".git");
    }
    let n = rel.len();
    let mut i: usize = 0;
    while n >= 4 && i <= n - 4
        invariant
            n == rel@.len(),
            below(root@, path@) == Some(rel@),
            forall|t: int| 0 <= t < i ==> !git_at(rel@, t),
        decreases n - i,
    {
        if rel[i] == '.' && rel[i + 1] == 'g' && rel[i + 2] == 'i' && rel[i + 3] == 't'
            && (i == 0 || rel[i - 1] == '/') && (i + 4 == n || rel[i + 4] == '/')
        {
            proof {
                reveal_strlit(".git");
                assert(rel@.subrange(i as int, i + 4) =~= ".git"@);
                assert(git_at(rel@, i as int));
                assert(in_git(rel@));
            }
            return None;
        }
        proof {
            reveal_strlit(".git");
            if git_at(rel@, i as int) {
                assert(rel@.subrange(i as int, i + 4)[0] == '.');
                assert(rel@.subrange(i as int, i + 4)[1] == 'g');
                assert(rel@.subrange(i as int, i + 4)[2] == 'i');
                assert(rel@.subrange(i as int, i + 4)[3] == 't');
            }
        }
        i += 1;
    }
    proof {
        assert(!in_git(rel@)) by {
            assert forall|t: int| !git_at(rel@, t) by {
                if 0 <= t && t + 4 <= n {
                    assert(t < i);
                }
            }
        }
    }
    Some(string_of(rel.as_slice()))
}

} // verus!
