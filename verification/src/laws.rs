//! The library's laws: what every k-nearest result is forced to be, proved
//! from the query contract alone.

use vstd::prelude::*;

use vstd::seq_lib::seq_to_set_is_finite;
use vstd::set_lib::lemma_int_range;
use vstd::set_lib::set_int_range;
use vstd::set_lib::lemma_subset_equality;

use crate::point::VectorPoint;
use crate::query::Neighbor;
use crate::query::all_positions;
use crate::query::contains_pos;
use crate::query::is_knn;
use crate::query::knn_post;
use crate::query::lex_le;
use crate::query::lex_lt;
use crate::query::lex_sorted;
use crate::query::min_int;
use crate::query::pdist;
use crate::query::valid_candidates;
use crate::query::worse_than_kept;

verus! {

/// The first kept candidate is least in the candidate order among all of `s`.
proof fn lemma_knn_head_min(
    pts: Seq<VectorPoint>,
    q: Seq<i32>,
    s: Set<int>,
    k: int,
    r: Seq<Neighbor>,
)
    requires
        is_knn(pts, q, s, k, r),
        r.len() > 0,
    ensures
        s.contains(r[0].index as int),
        forall|p: int| #[trigger] s.contains(p) ==> lex_le(pts, q, r[0].index as int, p),
{
    assert forall|p: int| #[trigger] s.contains(p) implies lex_le(pts, q, r[0].index as int, p) by {
        if contains_pos(r, p) {
            let j = choose|j: int| 0 <= j < r.len() && (#[trigger] r[j]).index == p;
            if j > 0 {
                assert(lex_lt(pts, q, r[0].index as int, r[j].index as int));
            }
        } else {
            assert(r.len() == k && worse_than_kept(pts, q, r, p));
            assert(lex_lt(pts, q, r[r.len() - 1].index as int, p));
            if r.len() > 1 {
                assert(lex_lt(pts, q, r[0].index as int, r[r.len() - 1].index as int));
            }
        }
    };
}

/// The k-nearest selection out of a set of positions is unique: the
/// candidate order is a strict total order, so any two results of the
/// same selection are equal, entry for entry.
pub proof fn lemma_knn_unique(
    pts: Seq<VectorPoint>,
    q: Seq<i32>,
    s: Set<int>,
    k: int,
    r1: Seq<Neighbor>,
    r2: Seq<Neighbor>,
)
    requires
        s.finite(),
        valid_candidates(pts, q, r1),
        valid_candidates(pts, q, r2),
        is_knn(pts, q, s, k, r1),
        is_knn(pts, q, s, k, r2),
    ensures
        r1 == r2,
    decreases r1.len(),
{
    broadcast use vstd::set::group_set_axioms;

    if r1.len() == 0 {
        assert(r2.len() == 0);
        assert(r1 =~= r2);
    } else {
        assert(r2.len() == r1.len());
        lemma_knn_head_min(pts, q, s, k, r1);
        lemma_knn_head_min(pts, q, s, k, r2);
        let a = r1[0].index as int;
        let b = r2[0].index as int;
        assert(lex_le(pts, q, a, b) && lex_le(pts, q, b, a));
        assert(a == b);
        assert(r1[0] == r2[0]);
        let s1 = s.remove(a);
        assert(s1.len() == s.len() - 1);
        let t1 = r1.drop_first();
        let t2 = r2.drop_first();
        lemma_knn_tail(pts, q, s, k, r1);
        lemma_knn_tail(pts, q, s, k, r2);
        lemma_knn_unique(pts, q, s1, k - 1, t1, t2);
        assert forall|i: int| 0 <= i < r1.len() implies r1[i] == r2[i] by {
            if i > 0 {
                assert(r1[i] == t1[i - 1]);
                assert(r2[i] == t2[i - 1]);
            }
        };
        assert(r1 =~= r2);
    }
}

/// Dropping the first (least) entry of a k-nearest selection leaves the
/// (k-1)-nearest selection of the remaining positions.
proof fn lemma_knn_tail(pts: Seq<VectorPoint>, q: Seq<i32>, s: Set<int>, k: int, r: Seq<Neighbor>)
    requires
        s.finite(),
        valid_candidates(pts, q, r),
        is_knn(pts, q, s, k, r),
        r.len() > 0,
    ensures
        valid_candidates(pts, q, r.drop_first()),
        is_knn(pts, q, s.remove(r[0].index as int), k - 1, r.drop_first()),
{
    broadcast use vstd::set::group_set_axioms;

    let a = r[0].index as int;
    let s1 = s.remove(a);
    let t = r.drop_first();
    assert(s1.len() == s.len() - 1);
    assert forall|j: int| 0 <= j < t.len() implies s1.contains((#[trigger] t[j]).index as int) by {
        assert(t[j] == r[j + 1]);
        assert(lex_lt(pts, q, r[0].index as int, r[j + 1].index as int));
        assert(t[j].index as int != a);
    };
    assert forall|j1: int, j2: int| 0 <= j1 < j2 < t.len() implies lex_lt(
        pts,
        q,
        (#[trigger] t[j1]).index as int,
        (#[trigger] t[j2]).index as int,
    ) by {
        assert(t[j1] == r[j1 + 1] && t[j2] == r[j2 + 1]);
    };
    assert(t.len() == min_int(k - 1, s1.len() as int));
    assert forall|p: int|
        #[trigger] s1.contains(p) && !contains_pos(t, p) implies t.len() == k - 1
        && worse_than_kept(pts, q, t, p) by {
        if contains_pos(r, p) {
            let j = choose|j: int| 0 <= j < r.len() && (#[trigger] r[j]).index == p;
            if j == 0 {
                assert(p == a);
            } else {
                assert(t[j - 1] == r[j]);
                assert(contains_pos(t, p));
            }
            assert(false);
        } else {
            assert(r.len() == k && worse_than_kept(pts, q, r, p));
            if t.len() > 0 {
                assert(t[t.len() - 1] == r[r.len() - 1]);
            }
        }
    };
    assert forall|j: int| 0 <= j < t.len() implies {
        &&& (#[trigger] t[j]).index < pts.len()
        &&& t[j].distance == pdist(pts, q, t[j].index as int)
        &&& t[j].payload == pts[t[j].index as int].payload
    } by {
        assert(t[j] == r[j + 1]);
    };
}

/// Determinism: the query contract pins the result down completely, so any
/// two results of the same query against the same index are identical,
/// order included.
pub proof fn lemma_k_nearest_deterministic(
    pts: Seq<VectorPoint>,
    q: Seq<i32>,
    k: int,
    r1: Seq<Neighbor>,
    r2: Seq<Neighbor>,
)
    requires
        knn_post(pts, q, k, r1),
        knn_post(pts, q, k, r2),
    ensures
        r1 == r2,
{
    lemma_int_range(0, pts.len() as int);
    lemma_knn_unique(pts, q, all_positions(pts), k, r1, r2);
}

/// A query for at least as many neighbors as there are points returns
/// every position of the index, each exactly once.
pub proof fn lemma_full_query_covers(pts: Seq<VectorPoint>, q: Seq<i32>, k: int, r: Seq<Neighbor>)
    requires
        knn_post(pts, q, k, r),
        k >= pts.len(),
    ensures
        r.len() == pts.len(),
        forall|p: int| 0 <= p < pts.len() ==> contains_pos(r, p),
        forall|j1: int, j2: int|
            0 <= j1 < j2 < r.len() ==> (#[trigger] r[j1]).index != (#[trigger] r[j2]).index,
        forall|j1: int, j2: int|
            0 <= j1 < j2 < r.len() ==> (#[trigger] r[j1]).distance <= (#[trigger] r[j2]).distance,
{
    broadcast use vstd::set::group_set_axioms;
    broadcast use seq_to_set_is_finite;

    let s = all_positions(pts);
    lemma_int_range(0, pts.len() as int);
    assert(r.len() == pts.len());
    let ps = Seq::new(r.len(), |j: int| r[j].index as int);
    assert forall|j1: int, j2: int| 0 <= j1 < j2 < r.len() implies (#[trigger] r[j1]).index != (
    #[trigger] r[j2]).index by {
        assert(lex_lt(pts, q, r[j1].index as int, r[j2].index as int));
    };
    assert(ps.no_duplicates());
    ps.unique_seq_to_set();
    assert(ps.to_set().len() == pts.len());
    assert forall|x: int| #[trigger] ps.to_set().contains(x) implies s.contains(x) by {
        let j = choose|j: int| 0 <= j < ps.len() && ps[j] == x;
        assert(s.contains(r[j].index as int));
    };
    lemma_subset_equality(ps.to_set(), s);
    assert forall|p: int| 0 <= p < pts.len() implies contains_pos(r, p) by {
        assert(s.contains(p));
        assert(ps.to_set().contains(p));
        let j = choose|j: int| 0 <= j < ps.len() && ps[j] == p;
        assert(r[j].index == p);
    };
    assert forall|j1: int, j2: int| 0 <= j1 < j2 < r.len() implies (#[trigger] r[j1]).distance <= (
    #[trigger] r[j2]).distance by {
        assert(lex_lt(pts, q, r[j1].index as int, r[j2].index as int));
    };
}

/// Asking for more neighbors than there are points is the same as asking
/// for exactly all of them: the results are identical.
pub proof fn lemma_k_nearest_saturates(
    pts: Seq<VectorPoint>,
    q: Seq<i32>,
    k1: int,
    k2: int,
    r1: Seq<Neighbor>,
    r2: Seq<Neighbor>,
)
    requires
        k1 >= pts.len(),
        k2 >= pts.len(),
        knn_post(pts, q, k1, r1),
        knn_post(pts, q, k2, r2),
    ensures
        r1 == r2,
{
    let s = all_positions(pts);
    lemma_int_range(0, pts.len() as int);
    lemma_knn_full_is_knn_n(pts, q, k1, r1);
    lemma_knn_full_is_knn_n(pts, q, k2, r2);
    lemma_knn_unique(pts, q, s, pts.len() as int, r1, r2);
}

/// With `k` at least the number of points, a result also satisfies the
/// contract for `k` equal to the number of points.
proof fn lemma_knn_full_is_knn_n(pts: Seq<VectorPoint>, q: Seq<i32>, k: int, r: Seq<Neighbor>)
    requires
        knn_post(pts, q, k, r),
        k >= pts.len(),
    ensures
        is_knn(pts, q, all_positions(pts), pts.len() as int, r),
{
    lemma_int_range(0, pts.len() as int);
    lemma_full_query_covers(pts, q, k, r);
    assert forall|p: int|
        #[trigger] all_positions(pts).contains(p) && !contains_pos(r, p) implies r.len()
        == pts.len() && worse_than_kept(pts, q, r, p) by {
        assert(contains_pos(r, p));
    };
}

/// Every query result, whatever `k`, is sorted by non-decreasing squared
/// distance.
pub proof fn lemma_result_sorted(pts: Seq<VectorPoint>, q: Seq<i32>, k: int, r: Seq<Neighbor>)
    requires
        knn_post(pts, q, k, r),
    ensures
        forall|j1: int, j2: int|
            0 <= j1 < j2 < r.len() ==> (#[trigger] r[j1]).distance <= (#[trigger] r[j2]).distance,
{
    assert forall|j1: int, j2: int| 0 <= j1 < j2 < r.len() implies (#[trigger] r[j1]).distance <= (
    #[trigger] r[j2]).distance by {
        assert(lex_lt(pts, q, r[j1].index as int, r[j2].index as int));
    };
}

/// Mapping a sequence that enumerates `0 .. n` exactly once through `f`
/// yields, as a multiset, exactly the images of `0 .. n`.
proof fn lemma_cover_map_multiset<A>(ps: Seq<int>, n: int, f: spec_fn(int) -> A)
    requires
        0 <= n,
        ps.no_duplicates(),
        ps.len() == n,
        ps.to_set() == set_int_range(0, n),
    ensures
        ps.map_values(f).to_multiset() == Seq::new(n as nat, f).to_multiset(),
    decreases n,
{
    broadcast use vstd::seq_lib::group_to_multiset_ensures;
    broadcast use vstd::multiset::group_multiset_axioms;

    if n == 0 {
        assert(ps.map_values(f) =~= Seq::<A>::empty());
        assert(Seq::new(0nat, f) =~= Seq::<A>::empty());
    } else {
        assert(set_int_range(0, n).contains(n - 1));
        assert(ps.to_set().contains(n - 1));
        let j = choose|j: int| 0 <= j < ps.len() && ps[j] == n - 1;
        let ps1 = ps.remove(j);
        assert forall|i1: int, i2: int| 0 <= i1 < i2 < ps1.len() implies ps1[i1] != ps1[i2] by {
            let k1 = if i1 < j {
                i1
            } else {
                i1 + 1
            };
            let k2 = if i2 < j {
                i2
            } else {
                i2 + 1
            };
            assert(ps1[i1] == ps[k1] && ps1[i2] == ps[k2]);
        };
        assert(ps1.no_duplicates());
        assert(ps1.to_set() =~= set_int_range(0, n - 1)) by {
            assert forall|x: int| ps1.to_set().contains(x) implies set_int_range(0, n - 1).contains(
                x,
            ) by {
                let i = choose|i: int| 0 <= i < ps1.len() && ps1[i] == x;
                let m = if i < j {
                    i
                } else {
                    i + 1
                };
                assert(ps[m] == x);
                assert(ps.contains(x));
                assert(ps.to_set().contains(x));
                assert(m != j);
            };
            assert forall|x: int| set_int_range(0, n - 1).contains(x) implies ps1.to_set().contains(
                x,
            ) by {
                assert(ps.to_set().contains(x));
                let m = choose|m: int| 0 <= m < ps.len() && ps[m] == x;
                assert(m != j);
                let m1 = if m < j {
                    m
                } else {
                    m - 1
                };
                assert(ps1[m1] == x);
                assert(ps1.contains(x));
            };
        };
        lemma_cover_map_multiset(ps1, n - 1, f);
        let mp = ps.map_values(f);
        let mp1 = ps1.map_values(f);
        assert(mp1 =~= mp.remove(j));
        assert(mp.remove(j).to_multiset() == mp.to_multiset().remove(mp[j]));
        assert(mp[j] == f(n - 1));
        assert(mp.contains(f(n - 1))) by {
            assert(mp[j] == f(n - 1));
        };
        assert(mp.to_multiset().count(f(n - 1)) > 0);
        assert(mp.to_multiset() =~= mp1.to_multiset().insert(f(n - 1)));
        let full = Seq::new(n as nat, f);
        let shorter = Seq::new((n - 1) as nat, f);
        assert(full =~= shorter.push(f(n - 1)));
        assert(full.to_multiset() == shorter.to_multiset().insert(f(n - 1))) by {
            assert(shorter.push(f(n - 1)).to_multiset() =~= shorter.to_multiset().insert(f(n - 1)));
        };
        assert(mp.to_multiset() =~= full.to_multiset());
    }
}

/// A query for at least as many neighbors as there are points hands back
/// the payload of every indexed point exactly once: the result's payloads
/// are, as a multiset, exactly the index's payloads.
pub proof fn lemma_full_query_returns_all_payloads(
    pts: Seq<VectorPoint>,
    q: Seq<i32>,
    k: int,
    r: Seq<Neighbor>,
)
    requires
        knn_post(pts, q, k, r),
        k >= pts.len(),
    ensures
        r.map_values(|nb: Neighbor| nb.payload).to_multiset() == pts.map_values(
            |p: VectorPoint| p.payload,
        ).to_multiset(),
{
    lemma_full_query_covers(pts, q, k, r);
    lemma_int_range(0, pts.len() as int);
    let n = pts.len() as int;
    let ps = Seq::new(r.len(), |j: int| r[j].index as int);
    let f = (|p: int| pts[p].payload);
    assert forall|i1: int, i2: int| 0 <= i1 < i2 < ps.len() implies ps[i1] != ps[i2] by {
        assert(r[i1].index != r[i2].index);
    };
    assert(ps.no_duplicates());
    assert(ps.to_set() =~= set_int_range(0, n)) by {
        assert forall|x: int| ps.to_set().contains(x) implies set_int_range(0, n).contains(x) by {
            let i = choose|i: int| 0 <= i < ps.len() && ps[i] == x;
            assert(all_positions(pts).contains(r[i].index as int));
        };
        assert forall|x: int| set_int_range(0, n).contains(x) implies ps.to_set().contains(x) by {
            assert(contains_pos(r, x));
            let i = choose|i: int| 0 <= i < r.len() && (#[trigger] r[i]).index == x;
            assert(ps[i] == x);
            assert(ps.contains(x));
        };
    };
    lemma_cover_map_multiset(ps, n, f);
    assert(r.map_values(|nb: Neighbor| nb.payload) =~= ps.map_values(f)) by {
        assert forall|i: int| 0 <= i < r.len() implies r.map_values(|nb: Neighbor| nb.payload)[i]
            == ps.map_values(f)[i] by {
            assert(r[i].payload == pts[r[i].index as int].payload);
        };
    };
    assert(pts.map_values(|p: VectorPoint| p.payload) =~= Seq::new(n as nat, f));
}

/// A query for zero neighbors returns nothing, over any index.
pub proof fn lemma_zero_k_empty(pts: Seq<VectorPoint>, q: Seq<i32>, r: Seq<Neighbor>)
    requires
        knn_post(pts, q, 0, r),
    ensures
        r.len() == 0,
{
    lemma_int_range(0, pts.len() as int);
}

} // verus!

