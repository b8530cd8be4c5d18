//! How alike two lines are: the Dice coefficient of their byte bigrams,
//! kept in whole numbers. Used to decide whether a removed and an added line
//! at the same place in a block are one changed line.
use vstd::prelude::*;
use vstd::multiset::Multiset;

verus! {

/// At most this many leading bytes of a line take part.
pub const SIMILARITY_CAP: usize = 1024;

/// The line cut to the cap, with a zero byte before and after it, so that
/// a one-byte line still has bigrams.
pub open spec fn padded(s: Seq<u8>) -> Seq<u8> {
    let t = if s.len() <= 1024 { s } else { s.take(1024) };
    seq![0u8] + t + seq![0u8]
}

pub open spec fn bigram(x: u8, y: u8) -> u16 {
    (x as int * 256 + y as int) as u16
}

/// The bigrams of a line: each pair of neighbouring bytes of `padded(s)`.
pub open spec fn bigrams(s: Seq<u8>) -> Seq<u16> {
    let p = padded(s);
    Seq::new((p.len() - 1) as nat, |i: int| bigram(p[i], p[i + 1]))
}

/// How many bigrams the two lines share, counted with multiplicity.
pub open spec fn common_bigrams(a: Seq<u8>, b: Seq<u8>) -> nat {
    bigrams(a).to_multiset().intersection_with(bigrams(b).to_multiset()).len()
}

/// The pairing rule: equal lines are alike, an empty line is like no other
/// line, and otherwise the Dice coefficient `2 * common / total` must reach
/// 0.35, that is `40 * common >= 7 * total`.
pub open spec fn similar(a: Seq<u8>, b: Seq<u8>) -> bool {
    if a == b {
        true
    } else if a.len() == 0 || b.len() == 0 {
        false
    } else {
        40 * common_bigrams(a, b) >= 7 * (bigrams(a).len() + bigrams(b).len())
    }
}

/// Calls `slice::sort_unstable`, which sorts in ascending order.
#[verifier::external_body]
fn sort_unstable_u16(v: &mut Vec<u16>)
    ensures
        final(v)@.to_multiset() == old(v)@.to_multiset(),
        forall|i: int, j: int| 0 <= i < j < final(v)@.len() ==> final(v)@[i] <= final(v)@[j],
{
    v.sort_unstable()
}

fn bigram_vec(s: &[u8]) -> (v: Vec<u16>)
    ensures
        v@ == bigrams(s@),
        v@.len() <= 1025,
{
    let cap: usize = if s.len() <= SIMILARITY_CAP { s.len() } else { SIMILARITY_CAP };
    let ghost p = padded(s@);
    let mut v: Vec<u16> = Vec::new();
    let mut prev: u8 = 0;
    let mut i: usize = 0;
    while i < cap
        invariant
            cap <= s@.len(),
            cap <= 1024,
            cap == s@.len() || cap == 1024,
            p == padded(s@),
            p.len() == cap + 2,
            i <= cap,
            prev == p[i as int],
            v@.len() == i,
            forall|k: int| 0 <= k < i ==> v@[k] == bigram(p[k], p[k + 1]),
        decreases cap - i,
    {
        let cur = s[i];
        assert(p[i + 1] == s@[i as int]);
        v.push((prev as u16) * 256 + cur as u16);
        prev = cur;
        i += 1;
    }
    assert(p[cap + 1] == 0u8);
    v.push((prev as u16) * 256);
    assert(v@ =~= bigrams(s@));
    v
}

proof fn lemma_take_multiset(x: Seq<u16>, i: int)
    requires
        0 < i <= x.len(),
    ensures
        x.take(i).to_multiset() == x.take(i - 1).to_multiset().insert(x[i - 1]),
{
    vstd::seq_lib::to_multiset_build(x.take(i - 1), x[i - 1]);
    assert(x.take(i - 1).push(x[i - 1]) =~= x.take(i));
}

proof fn lemma_inter_both(a: Multiset<u16>, b: Multiset<u16>, v: u16)
    ensures
        a.insert(v).intersection_with(b.insert(v)).len() == a.intersection_with(b).len() + 1,
{
    broadcast use vstd::multiset::group_multiset_axioms;
    assert forall|w: u16| #[trigger] a.insert(v).intersection_with(b.insert(v)).count(w)
        == a.intersection_with(b).insert(v).count(w) by {
        vstd::multiset::lemma_intersection_count(a.insert(v), b.insert(v), w);
        vstd::multiset::lemma_intersection_count(a, b, w);
    }
    assert(a.insert(v).intersection_with(b.insert(v)) =~= a.intersection_with(b).insert(v));
}

proof fn lemma_inter_absent(a: Multiset<u16>, b: Multiset<u16>, v: u16)
    requires
        b.count(v) == 0,
    ensures
        a.insert(v).intersection_with(b) == a.intersection_with(b),
{
    broadcast use vstd::multiset::group_multiset_axioms;
    assert forall|w: u16| #[trigger] a.insert(v).intersection_with(b).count(w)
        == a.intersection_with(b).count(w) by {
        vstd::multiset::lemma_intersection_count(a.insert(v), b, w);
        vstd::multiset::lemma_intersection_count(a, b, w);
    }
    assert(a.insert(v).intersection_with(b) =~= a.intersection_with(b));
}

proof fn lemma_inter_comm(a: Multiset<u16>, b: Multiset<u16>)
    ensures
        a.intersection_with(b) == b.intersection_with(a),
{
    assert forall|w: u16| #[trigger] a.intersection_with(b).count(w) == b.intersection_with(a).count(w) by {
        vstd::multiset::lemma_intersection_count(a, b, w);
        vstd::multiset::lemma_intersection_count(b, a, w);
    }
    assert(a.intersection_with(b) =~= b.intersection_with(a));
}

proof fn lemma_above_absent(y: Seq<u16>, j: int, v: u16)
    requires
        0 <= j <= y.len(),
        forall|p: int, q: int| 0 <= p < q < y.len() ==> y[p] <= y[q],
        j > 0 ==> y[j - 1] < v,
    ensures
        y.take(j).to_multiset().count(v) == 0,
{
    vstd::seq_lib::to_multiset_contains(y.take(j), v);
    if y.take(j).contains(v) {
        let k = choose|k: int| 0 <= k < y.take(j).len() && y.take(j)[k] == v;
        assert(y[k] <= y[j - 1]);
    }
}

proof fn lemma_empty_inter(a: Multiset<u16>, b: Multiset<u16>)
    requires
        a.len() == 0 || b.len() == 0,
    ensures
        a.intersection_with(b).len() == 0,
{
    broadcast use vstd::multiset::group_multiset_axioms;
    if a.len() == 0 {
        assert(a =~= Multiset::empty());
        assert forall|w: u16| #[trigger] a.intersection_with(b).count(w) == 0 by {
            vstd::multiset::lemma_intersection_count(a, b, w);
        }
    } else {
        assert(b =~= Multiset::empty());
        assert forall|w: u16| #[trigger] a.intersection_with(b).count(w) == 0 by {
            vstd::multiset::lemma_intersection_count(a, b, w);
        }
    }
    assert(a.intersection_with(b) =~= Multiset::empty());
}

/// The shared bigrams and the total number of bigrams of two lines.
pub fn similarity_counts(a: &[u8], b: &[u8]) -> (r: (u32, u32))
    ensures
        r.0 == common_bigrams(a@, b@),
        r.1 == bigrams(a@).len() + bigrams(b@).len(),
{
    broadcast use vstd::seq_lib::group_to_multiset_ensures;
    let mut x = bigram_vec(a);
    let mut y = bigram_vec(b);
    let ghost x0 = x@;
    let ghost y0 = y@;
    sort_unstable_u16(&mut x);
    sort_unstable_u16(&mut y);
    proof {
        vstd::seq_lib::to_multiset_len(x0);
        vstd::seq_lib::to_multiset_len(x@);
        vstd::seq_lib::to_multiset_len(y0);
        vstd::seq_lib::to_multiset_len(y@);
        assert(x@.take(x@.len() as int) =~= x@);
        assert(y@.take(y@.len() as int) =~= y@);
    }
    let mut i = x.len();
    let mut j = y.len();
    let mut common: u32 = 0;
    while i > 0 && j > 0
        invariant
            i <= x@.len(),
            j <= y@.len(),
            x@.len() <= 1025,
            forall|p: int, q: int| 0 <= p < q < x@.len() ==> x@[p] <= x@[q],
            forall|p: int, q: int| 0 <= p < q < y@.len() ==> y@[p] <= y@[q],
            common <= x@.len() - i,
            common + x@.take(i as int).to_multiset().intersection_with(y@.take(j as int).to_multiset()).len()
                == x@.to_multiset().intersection_with(y@.to_multiset()).len(),
        decreases i + j,
    {
        proof {
            lemma_take_multiset(x@, i as int);
            lemma_take_multiset(y@, j as int);
        }
        if x[i - 1] == y[j - 1] {
            proof {
                lemma_inter_both(x@.take(i - 1).to_multiset(), y@.take(j - 1).to_multiset(), x@[i - 1]);
            }
            common += 1;
            i -= 1;
            j -= 1;
        } else if x[i - 1] > y[j - 1] {
            proof {
                lemma_above_absent(y@, j as int, x@[i - 1]);
                lemma_inter_absent(x@.take(i - 1).to_multiset(), y@.take(j as int).to_multiset(), x@[i - 1]);
            }
            i -= 1;
        } else {
            proof {
                lemma_above_absent(x@, i as int, y@[j - 1]);
                lemma_inter_absent(y@.take(j - 1).to_multiset(), x@.take(i as int).to_multiset(), y@[j - 1]);
                lemma_inter_comm(x@.take(i as int).to_multiset(), y@.take(j - 1).to_multiset());
                lemma_inter_comm(x@.take(i as int).to_multiset(), y@.take(j as int).to_multiset());
            }
            j -= 1;
        }
    }
    proof {
        vstd::seq_lib::to_multiset_len(x@.take(i as int));
        vstd::seq_lib::to_multiset_len(y@.take(j as int));
        lemma_empty_inter(x@.take(i as int).to_multiset(), y@.take(j as int).to_multiset());
    }
    (common, (x.len() + y.len()) as u32)
}

/// Whether two lines are alike enough to be shown as one changed line.
pub fn is_similar(a: &[u8], b: &[u8]) -> (r: bool)
    ensures
        r == similar(a@, b@),
{
    if a.len() == b.len() {
        let mut k: usize = 0;
        while k < a.len() && a[k] == b[k]
            invariant
                a@.len() == b@.len(),
                k <= a@.len(),
                forall|p: int| 0 <= p < k ==> a@[p] == b@[p],
            decreases a@.len() - k,
        {
            k += 1;
        }
        if k == a.len() {
            assert(a@ =~= b@);
            return true;
        }
        assert(a@[k as int] != b@[k as int]);
    }
    if a.len() == 0 || b.len() == 0 {
        return false;
    }
    let (common, total) = similarity_counts(a, b);
    40 * (common as u64) >= 7 * (total as u64)
}

} // verus!
