//! Reasoning about in-place reshuffles of a vector: what a swap does to the
//! multiset of a range, and how element properties survive permutations.

use vstd::prelude::*;
use vstd::seq_lib::lemma_multiset_commutative;
use vstd::seq_lib::to_multiset_insert;
use vstd::seq_lib::to_multiset_remove;

verus! {

/// Updating one position replaces one occurrence in the multiset view.
pub proof fn lemma_update_to_multiset<A>(s: Seq<A>, i: int, x: A)
    requires
        0 <= i < s.len(),
    ensures
        s.update(i, x).to_multiset() == s.to_multiset().remove(s[i]).insert(x),
{
    assert(s.update(i, x) =~= s.remove(i).insert(i, x));
    to_multiset_remove(s, i);
    to_multiset_insert(s.remove(i), i, x);
}

/// Swapping two positions inside `[lo, hi)` leaves the multiset of that
/// range unchanged.
pub proof fn lemma_swap_range_multiset<A>(s1: Seq<A>, s2: Seq<A>, lo: int, hi: int, i: int, j: int)
    requires
        0 <= lo <= i < hi <= s1.len(),
        lo <= j < hi,
        s2 == s1.update(i, s1[j]).update(j, s1[i]),
    ensures
        s2.len() == s1.len(),
        s1.subrange(lo, hi).to_multiset() == s2.subrange(lo, hi).to_multiset(),
{
    broadcast use vstd::multiset::group_multiset_axioms;

    let t1 = s1.subrange(lo, hi);
    let t2 = s2.subrange(lo, hi);
    if i == j {
        assert(t2 =~= t1);
    } else {
        assert(t2 =~= t1.update(i - lo, t1[j - lo]).update(j - lo, t1[i - lo]));
        let u = t1.update(i - lo, t1[j - lo]);
        lemma_update_to_multiset(t1, i - lo, t1[j - lo]);
        lemma_update_to_multiset(u, j - lo, t1[i - lo]);
        assert(u[j - lo] == t1[j - lo]);
        let a = t1[i - lo];
        let b = t1[j - lo];
        let m0 = t1.to_multiset();
        t1.to_multiset_ensures();
        assert(t1.contains(a));
        assert(m0.count(a) > 0);
        assert(t2.to_multiset() == m0.remove(a).insert(b).remove(b).insert(a));
        assert forall|x: A| t2.to_multiset().count(x) == m0.count(x) by {
            assert(m0.remove(a).count(x) as int == if x == a {
                m0.count(x) as int - 1
            } else {
                m0.count(x) as int
            });
        };
        assert(t2.to_multiset() =~= t1.to_multiset());
    }
}

/// If two sequences agree outside `[lo, hi)` and the multisets of `[lo, hi)`
/// agree, then the multisets of any enclosing range agree as well.
pub proof fn lemma_range_multiset_extend<A>(
    s1: Seq<A>,
    s2: Seq<A>,
    lo: int,
    hi: int,
    lo2: int,
    hi2: int,
)
    requires
        s1.len() == s2.len(),
        0 <= lo2 <= lo <= hi <= hi2 <= s1.len(),
        forall|k: int| lo2 <= k < lo || hi <= k < hi2 ==> s1[k] == s2[k],
        s1.subrange(lo, hi).to_multiset() == s2.subrange(lo, hi).to_multiset(),
    ensures
        s1.subrange(lo2, hi2).to_multiset() == s2.subrange(lo2, hi2).to_multiset(),
{
    broadcast use vstd::multiset::group_multiset_axioms;

    assert(s1.subrange(lo2, hi2) =~= s1.subrange(lo2, lo) + s1.subrange(lo, hi) + s1.subrange(
        hi,
        hi2,
    ));
    assert(s2.subrange(lo2, hi2) =~= s2.subrange(lo2, lo) + s2.subrange(lo, hi) + s2.subrange(
        hi,
        hi2,
    ));
    assert(s1.subrange(lo2, lo) =~= s2.subrange(lo2, lo));
    assert(s1.subrange(hi, hi2) =~= s2.subrange(hi, hi2));
    lemma_multiset_commutative(s1.subrange(lo2, lo) + s1.subrange(lo, hi), s1.subrange(hi, hi2));
    lemma_multiset_commutative(s1.subrange(lo2, lo), s1.subrange(lo, hi));
    lemma_multiset_commutative(s2.subrange(lo2, lo) + s2.subrange(lo, hi), s2.subrange(hi, hi2));
    lemma_multiset_commutative(s2.subrange(lo2, lo), s2.subrange(lo, hi));
}

/// A pointwise property of the elements of a range survives any reshuffle
/// that preserves the range's multiset.
pub proof fn lemma_range_multiset_property<A>(
    s1: Seq<A>,
    s2: Seq<A>,
    lo: int,
    hi: int,
    p: spec_fn(A) -> bool,
)
    requires
        0 <= lo <= hi <= s1.len(),
        hi <= s2.len(),
        s1.subrange(lo, hi).to_multiset() == s2.subrange(lo, hi).to_multiset(),
        forall|k: int| lo <= k < hi ==> #[trigger] p(s1[k]),
    ensures
        forall|k: int| lo <= k < hi ==> #[trigger] p(s2[k]),
{
    let t1 = s1.subrange(lo, hi);
    let t2 = s2.subrange(lo, hi);
    t1.to_multiset_ensures();
    t2.to_multiset_ensures();
    assert forall|k: int| lo <= k < hi implies #[trigger] p(s2[k]) by {
        assert(t2[k - lo] == s2[k]);
        assert(t2.contains(s2[k]));
        assert(t2.to_multiset().count(s2[k]) > 0);
        assert(t1.contains(s2[k]));
        let m = choose|m: int| 0 <= m < t1.len() && t1[m] == s2[k];
        assert(t1[m] == s1[lo + m]);
        assert(p(s1[lo + m]));
    };
}

} // verus!
