//! The k-nearest-neighbor query: a bounded best-k candidate list, the
//! recursive tree descent with hyperplane pruning, and the exact top-k
//! contract the query satisfies.

use vstd::prelude::*;

use vstd::set_lib::lemma_int_range;
use vstd::set_lib::lemma_set_disjoint_lens;
use vstd::set_lib::set_int_range;

use crate::dist::dist_sq;
use crate::dist::lemma_dist_sq_prefix_term;
use crate::dist::lemma_sq_diff_bound;
use crate::dist::lemma_sq_mono;
use crate::dist::lemma_sq_neg;
use crate::dist::sq;
use crate::dist::squared_distance;
use crate::index::SpatialIndex;
use crate::index::range_has_dim;
use crate::index::mid_of;
use crate::index::wf_range;
use crate::point::VectorPoint;
use crate::point::coord;

verus! {

/// One query result: the position of the point in the built index, the
/// point's payload, and the exact squared distance to the query.
#[derive(Clone, Copy, Debug, PartialEq, Eq, Structural)]
pub struct Neighbor {
    pub index: usize,
    pub payload: u64,
    pub distance: u128,
}

/// The squared distance from query `q` to the point at position `p`.
pub open spec fn pdist(pts: Seq<VectorPoint>, q: Seq<i32>, p: int) -> int {
    dist_sq(q, pts[p].coords@)
}

/// Candidate order: by squared distance, ties broken by position. A strict
/// total order on positions, which makes the k-nearest result unique.
pub open spec fn lex_lt(pts: Seq<VectorPoint>, q: Seq<i32>, a: int, b: int) -> bool {
    pdist(pts, q, a) < pdist(pts, q, b) || (pdist(pts, q, a) == pdist(pts, q, b) && a < b)
}

pub open spec fn lex_le(pts: Seq<VectorPoint>, q: Seq<i32>, a: int, b: int) -> bool {
    lex_lt(pts, q, a, b) || a == b
}

/// Each kept candidate records a real position of the index, with its
/// exact distance and its point's payload.
pub open spec fn valid_candidates(pts: Seq<VectorPoint>, q: Seq<i32>, c: Seq<Neighbor>) -> bool {
    forall|j: int|
        0 <= j < c.len() ==> {
            &&& (#[trigger] c[j]).index < pts.len()
            &&& c[j].distance == pdist(pts, q, c[j].index as int)
            &&& c[j].payload == pts[c[j].index as int].payload
        }
}

/// Candidates are strictly sorted in the candidate order (so their
/// positions are distinct and their distances non-decreasing).
pub open spec fn lex_sorted(pts: Seq<VectorPoint>, q: Seq<i32>, c: Seq<Neighbor>) -> bool {
    forall|j1: int, j2: int|
        0 <= j1 < j2 < c.len() ==> lex_lt(
            pts,
            q,
            (#[trigger] c[j1]).index as int,
            (#[trigger] c[j2]).index as int,
        )
}

/// Some kept candidate records position `p`.
pub open spec fn contains_pos(c: Seq<Neighbor>, p: int) -> bool {
    exists|j: int| 0 <= j < c.len() && (#[trigger] c[j]).index == p
}

/// `p` is farther (in candidate order) than everything kept in `c`.
pub open spec fn worse_than_kept(pts: Seq<VectorPoint>, q: Seq<i32>, c: Seq<Neighbor>, p: int) -> bool {
    c.len() > 0 ==> lex_lt(pts, q, c[c.len() - 1].index as int, p)
}

pub open spec fn min_int(a: int, b: int) -> int {
    if a <= b {
        a
    } else {
        b
    }
}

/// What merging the positions `s` into the bounded candidate list does:
/// the list grows by `|s|` up to the bound `k`; every kept entry comes
/// from the old list or from `s`; everything dropped is farther than
/// everything kept (so only the farthest are ever dropped); and a full
/// list's worst entry never gets worse.
pub open spec fn merge_post(
    pts: Seq<VectorPoint>,
    q: Seq<i32>,
    k: int,
    c0: Seq<Neighbor>,
    s: Set<int>,
    c1: Seq<Neighbor>,
) -> bool {
    &&& c1.len() == min_int(k, c0.len() + s.len() as int)
    &&& (forall|j: int|
        0 <= j < c1.len() ==> contains_pos(c0, (#[trigger] c1[j]).index as int) || s.contains(
            c1[j].index as int,
        ))
    &&& (forall|p: int|
        #![trigger s.contains(p)]
        #![trigger contains_pos(c0, p)]
        (contains_pos(c0, p) || s.contains(p)) && !contains_pos(c1, p) ==> c1.len() == k
            && worse_than_kept(pts, q, c1, p))
    &&& (c0.len() == k ==> c1.len() == k && (c0.len() > 0 ==> lex_le(
        pts,
        q,
        c1[c1.len() - 1].index as int,
        c0[c0.len() - 1].index as int,
    )))
}

/// Merging nothing changes nothing.
proof fn lemma_merge_empty(pts: Seq<VectorPoint>, q: Seq<i32>, k: int, c: Seq<Neighbor>)
    requires
        c.len() <= k,
    ensures
        merge_post(pts, q, k, c, Set::empty(), c),
{
    assert(Set::<int>::empty().len() == 0);
    assert forall|j: int| 0 <= j < c.len() implies contains_pos(c, (#[trigger] c[j]).index as int) by {
        assert(0 <= j < c.len() && c[j].index == c[j].index as int);
    };
}

/// If the candidate list is full and every position of `s` is farther
/// than everything kept, merging `s` changes nothing.
proof fn lemma_merge_prune(
    pts: Seq<VectorPoint>,
    q: Seq<i32>,
    k: int,
    c: Seq<Neighbor>,
    s: Set<int>,
)
    requires
        k >= 1,
        c.len() == k,
        s.finite(),
        forall|p: int| #[trigger] s.contains(p) ==> worse_than_kept(pts, q, c, p),
    ensures
        merge_post(pts, q, k, c, s, c),
{
    assert forall|j: int| 0 <= j < c.len() implies contains_pos(c, (#[trigger] c[j]).index as int) by {
        assert(0 <= j < c.len() && c[j].index == c[j].index as int);
    };
}

/// Two successive merges amount to one merge of the union.
proof fn lemma_merge_compose(
    pts: Seq<VectorPoint>,
    q: Seq<i32>,
    k: int,
    c0: Seq<Neighbor>,
    s1: Set<int>,
    c1: Seq<Neighbor>,
    s2: Set<int>,
    c2: Seq<Neighbor>,
)
    requires
        k >= 1,
        s1.finite(),
        s2.finite(),
        s1.disjoint(s2),
        merge_post(pts, q, k, c0, s1, c1),
        merge_post(pts, q, k, c1, s2, c2),
    ensures
        merge_post(pts, q, k, c0, s1 + s2, c2),
{
    lemma_set_disjoint_lens(s1, s2);
    let su = s1 + s2;
    assert(su.len() == s1.len() + s2.len());
    assert(c2.len() == min_int(k, c0.len() + su.len() as int));
    assert forall|j: int|
        0 <= j < c2.len() implies contains_pos(c0, (#[trigger] c2[j]).index as int) || su.contains(
        c2[j].index as int,
    ) by {
        let p = c2[j].index as int;
        if contains_pos(c1, p) {
            let m = choose|m: int| 0 <= m < c1.len() && (#[trigger] c1[m]).index == p;
            assert(contains_pos(c0, p) || s1.contains(p));
        } else {
            assert(s2.contains(p));
        }
    };
    assert forall|p: int|
        #![trigger su.contains(p)]
        #![trigger contains_pos(c0, p)]
        (contains_pos(c0, p) || su.contains(p)) && !contains_pos(c2, p) implies c2.len() == k
        && worse_than_kept(pts, q, c2, p) by {
        if contains_pos(c1, p) {
            assert(c2.len() == k && worse_than_kept(pts, q, c2, p));
        } else {
            if contains_pos(c0, p) || s1.contains(p) {
                assert(c1.len() == k && worse_than_kept(pts, q, c1, p));
                assert(c2.len() == k);
                assert(worse_than_kept(pts, q, c2, p));
            } else {
                assert(s2.contains(p));
                assert(c2.len() == k && worse_than_kept(pts, q, c2, p));
            }
        }
    };
}

/// Inserts one candidate into the bounded best-k list: in order, evicting
/// the worst entry when the list would exceed `k`.
fn insert_candidate(
    pts: &Vec<VectorPoint>,
    q: &Vec<i32>,
    cand: &mut Vec<Neighbor>,
    n: Neighbor,
    k: usize,
)
    requires
        1 <= k,
        n.index < pts@.len(),
        n.distance == pdist(pts@, q@, n.index as int),
        n.payload == pts@[n.index as int].payload,
        valid_candidates(pts@, q@, old(cand)@),
        lex_sorted(pts@, q@, old(cand)@),
        old(cand)@.len() <= k,
        !contains_pos(old(cand)@, n.index as int),
    ensures
        valid_candidates(pts@, q@, final(cand)@),
        lex_sorted(pts@, q@, final(cand)@),
        final(cand)@.len() <= k,
        merge_post(
            pts@,
            q@,
            k as int,
            old(cand)@,
            set_int_range(n.index as int, n.index as int + 1),
            final(cand)@,
        ),
{
    proof {
        lemma_int_range(n.index as int, n.index as int + 1);
    }
    let ghost o = cand@;
    let mut i: usize = 0;
    while i < cand.len() && (cand[i].distance < n.distance || (cand[i].distance == n.distance
        && cand[i].index < n.index))
        invariant
            0 <= i <= cand@.len(),
            cand@ == o,
            valid_candidates(pts@, q@, o),
            lex_sorted(pts@, q@, o),
            n.distance == pdist(pts@, q@, n.index as int),
            forall|j: int| 0 <= j < i ==> lex_lt(pts@, q@, (#[trigger] o[j]).index as int, n.index as int),
        decreases cand@.len() - i,
    {
        proof {
            assert(o[i as int].distance == pdist(pts@, q@, o[i as int].index as int));
        }
        i = i + 1;
    }
    proof {
        if i < o.len() {
            assert(o[i as int].distance == pdist(pts@, q@, o[i as int].index as int));
            if o[i as int].index == n.index {
                assert(contains_pos(o, n.index as int));
            }
            assert(lex_lt(pts@, q@, n.index as int, o[i as int].index as int));
        }
    }
    if i < k {
        cand.insert(i, n);
        let ghost c1 = cand@;
        proof {
            assert forall|j: int| 0 <= j < c1.len() implies (#[trigger] c1[j]) == (if j < i {
                o[j]
            } else if j == i {
                n
            } else {
                o[j - 1]
            }) by {};
            assert(lex_sorted(pts@, q@, c1)) by {
                assert forall|j1: int, j2: int| 0 <= j1 < j2 < c1.len() implies lex_lt(
                    pts@,
                    q@,
                    (#[trigger] c1[j1]).index as int,
                    (#[trigger] c1[j2]).index as int,
                ) by {
                    if j1 == i {
                        assert(j2 > i);
                        if j2 - 1 > i - 1 && i < o.len() && j2 - 1 > i {
                            assert(lex_lt(pts@, q@, o[i as int].index as int, o[j2 - 1].index as int));
                        }
                    }
                };
            };
        }
        if cand.len() > k {
            let _evicted = cand.pop();
            proof {
                let c2 = cand@;
                assert(c2 =~= c1.subrange(0, c1.len() - 1));
                assert(o.len() == k);
                assert(c1[c1.len() - 1] == o[o.len() - 1]);
                assert(c2.len() == k as int);
                // the evicted last entry is farther than the new last entry
                assert(lex_lt(pts@, q@, c2[c2.len() - 1].index as int, o[o.len() - 1].index as int))
                    by {
                    if i == k - 1 {
                        assert(c2[c2.len() - 1] == n);
                    } else {
                        assert(c2[c2.len() - 1] == o[k - 2]);
                    }
                };
                assert forall|p: int|
                    #![trigger contains_pos(o, p)]
                    (contains_pos(o, p) || set_int_range(n.index as int, n.index as int + 1).contains(p))
                        && !contains_pos(c2, p) implies c2.len() == k && worse_than_kept(
                    pts@,
                    q@,
                    c2,
                    p,
                ) by {
                    if p == n.index as int {
                        assert(c2[i as int] == n);
                        assert(contains_pos(c2, p));
                    } else {
                        let m = choose|m: int| 0 <= m < o.len() && (#[trigger] o[m]).index == p;
                        if m < o.len() - 1 {
                            let mi = if m < i { m } else { m + 1 };
                            assert(c2[mi] == o[m]);
                            assert(contains_pos(c2, p));
                        } else {
                            assert(p == o[o.len() - 1].index as int);
                            assert(worse_than_kept(pts@, q@, c2, p));
                        }
                    }
                };
            }
        } else {
            proof {
                let c2 = cand@;
                assert(c2 == c1);
                assert forall|p: int|
                    #![trigger contains_pos(o, p)]
                    (contains_pos(o, p) || set_int_range(n.index as int, n.index as int + 1).contains(p))
                        && !contains_pos(c2, p) implies false by {
                    if p == n.index as int {
                        assert(c2[i as int] == n);
                        assert(contains_pos(c2, p));
                    } else {
                        let m = choose|m: int| 0 <= m < o.len() && (#[trigger] o[m]).index == p;
                        let mi = if m < i { m } else { m + 1 };
                        assert(c2[mi] == o[m]);
                        assert(contains_pos(c2, p));
                    }
                };
            }
        }
    } else {
        proof {
            assert(i == k && o.len() == k);
            assert(worse_than_kept(pts@, q@, o, n.index as int)) by {
                assert(lex_lt(pts@, q@, (o[o.len() - 1]).index as int, n.index as int));
            };
            assert forall|p: int|
                #![trigger contains_pos(o, p)]
                (contains_pos(o, p) || set_int_range(n.index as int, n.index as int + 1).contains(p))
                    && !contains_pos(cand@, p) implies cand@.len() == k && worse_than_kept(
                pts@,
                q@,
                cand@,
                p,
            ) by {
                if p != n.index as int {
                    assert(contains_pos(o, p));
                    assert(contains_pos(cand@, p));
                }
            };
        }
    }
}

/// The recursive descent over the sub-range `[lo, hi)`: consider the node
/// at the middle, search the half containing the query first, then the
/// other half — unless the candidate list is full and the splitting
/// hyperplane is farther than its worst entry, in which case no point of
/// that half can displace anything kept.
fn search_range(
    pts: &Vec<VectorPoint>,
    q: &Vec<i32>,
    lo: usize,
    hi: usize,
    axis: usize,
    dim: usize,
    k: usize,
    cand: &mut Vec<Neighbor>,
)
    requires
        lo <= hi <= pts@.len(),
        0 < dim,
        axis < dim,
        q@.len() == dim,
        range_has_dim(pts@, 0, pts@.len() as int, dim as int),
        wf_range(pts@, lo as int, hi as int, axis as int, dim as int),
        1 <= k,
        valid_candidates(pts@, q@, old(cand)@),
        lex_sorted(pts@, q@, old(cand)@),
        old(cand)@.len() <= k,
        forall|j: int|
            0 <= j < old(cand)@.len() ==> !(lo <= (#[trigger] old(cand)@[j]).index < hi),
    ensures
        valid_candidates(pts@, q@, final(cand)@),
        lex_sorted(pts@, q@, final(cand)@),
        final(cand)@.len() <= k,
        merge_post(
            pts@,
            q@,
            k as int,
            old(cand)@,
            set_int_range(lo as int, hi as int),
            final(cand)@,
        ),
    decreases hi - lo,
{
    if hi - lo == 0 {
        proof {
            lemma_int_range(lo as int, hi as int);
            assert(set_int_range(lo as int, hi as int) =~= Set::<int>::empty());
            lemma_merge_empty(pts@, q@, k as int, cand@);
        }
        return ;
    }
    let mid = lo + (hi - lo) / 2;
    proof {
        assert(pts@[mid as int].coords@.len() == dim);
    }
    let dmid = squared_distance(q, &pts[mid].coords);
    let n = Neighbor { index: mid, payload: pts[mid].payload, distance: dmid };
    let ghost c0 = cand@;
    proof {
        if contains_pos(c0, mid as int) {
            let m = choose|m: int| 0 <= m < c0.len() && (#[trigger] c0[m]).index == mid as int;
            assert(false);
        }
    }
    insert_candidate(pts, q, cand, n, k);
    let ghost c1 = cand@;
    let ghost s_node = set_int_range(mid as int, mid as int + 1);
    if hi - lo == 1 {
        proof {
            assert(mid == lo);
            assert(s_node =~= set_int_range(lo as int, hi as int));
        }
        return ;
    }
    let nax = if axis + 1 == dim {
        0
    } else {
        axis + 1
    };
    let qa: i32 = q[axis];
    let sa: i32 = pts[mid].coords[axis];
    let ghost s_left = set_int_range(lo as int, mid as int);
    let ghost s_right = set_int_range(mid as int + 1, hi as int);
    proof {
        lemma_int_range(lo as int, mid as int);
        lemma_int_range(mid as int + 1, hi as int);
        lemma_int_range(mid as int, mid as int + 1);
        assert(mid as int == mid_of(lo as int, hi as int));
        assert(wf_range(pts@, lo as int, mid as int, nax as int, dim as int));
        assert(wf_range(pts@, mid as int + 1, hi as int, nax as int, dim as int));
        assert(sa as int == coord(pts@[mid as int], axis as int));
        assert(qa as int == q@[axis as int]);
    }
    let dd: i64 = (sa as i64) - (qa as i64);
    proof {
        lemma_sq_diff_bound(dd as int);
    }
    let plane: u128 = ((dd as i128) * (dd as i128)) as u128;
    proof {
        assert((dd as i128) * (dd as i128) == sq(dd as int));
        assert(plane == sq(sa as int - qa as int));
    }
    if qa <= sa {
        proof {
            lemma_search_disjoint(pts@, q@, c0, c1, s_node, lo as int, hi as int, lo as int, mid as int);
        }
        search_range(pts, q, lo, mid, nax, dim, k, cand);
        let ghost c2 = cand@;
        let do_far: bool = if cand.len() == k {
            plane <= cand[cand.len() - 1].distance
        } else {
            true
        };
        if do_far {
            proof {
                lemma_merge_compose(pts@, q@, k as int, c0, s_node, c1, s_left, c2);
                lemma_search_disjoint(
                    pts@,
                    q@,
                    c0,
                    c2,
                    s_node + s_left,
                    lo as int,
                    hi as int,
                    mid as int + 1,
                    hi as int,
                );
            }
            search_range(pts, q, mid + 1, hi, nax, dim, k, cand);
            proof {
                lemma_merge_compose(pts@, q@, k as int, c0, s_node + s_left, c2, s_right, cand@);
                assert((s_node + s_left) + s_right =~= set_int_range(lo as int, hi as int));
            }
        } else {
            proof {
                assert(c2.len() == k);
                let last = c2[c2.len() - 1].index as int;
                let worst = pdist(pts@, q@, last);
                assert(c2[c2.len() - 1].distance == worst);
                assert(plane > worst);
                assert forall|p: int| #[trigger] s_right.contains(p) implies worse_than_kept(
                    pts@,
                    q@,
                    c2,
                    p,
                ) by {
                    assert(coord(pts@[p], axis as int) >= sa as int);
                    assert(pts@[p].coords@.len() == dim);
                    lemma_dist_sq_prefix_term(q@, pts@[p].coords@, dim as int, axis as int);
                    lemma_sq_mono(sa as int - qa as int, coord(pts@[p], axis as int) - qa as int);
                    lemma_sq_neg(qa as int - coord(pts@[p], axis as int));
                    assert(pdist(pts@, q@, p) >= sq(q@[axis as int] - pts@[p].coords@[axis as int]));
                    assert(pdist(pts@, q@, p) >= plane);
                };
                lemma_merge_prune(pts@, q@, k as int, c2, s_right);
                lemma_merge_compose(pts@, q@, k as int, c0, s_node, c1, s_left, c2);
                lemma_merge_compose(pts@, q@, k as int, c0, s_node + s_left, c2, s_right, c2);
                assert((s_node + s_left) + s_right =~= set_int_range(lo as int, hi as int));
            }
        }
    } else {
        proof {
            lemma_search_disjoint(
                pts@,
                q@,
                c0,
                c1,
                s_node,
                lo as int,
                hi as int,
                mid as int + 1,
                hi as int,
            );
        }
        search_range(pts, q, mid + 1, hi, nax, dim, k, cand);
        let ghost c2 = cand@;
        let do_far: bool = if cand.len() == k {
            plane <= cand[cand.len() - 1].distance
        } else {
            true
        };
        if do_far {
            proof {
                lemma_merge_compose(pts@, q@, k as int, c0, s_node, c1, s_right, c2);
                lemma_search_disjoint(
                    pts@,
                    q@,
                    c0,
                    c2,
                    s_node + s_right,
                    lo as int,
                    hi as int,
                    lo as int,
                    mid as int,
                );
            }
            search_range(pts, q, lo, mid, nax, dim, k, cand);
            proof {
                lemma_merge_compose(pts@, q@, k as int, c0, s_node + s_right, c2, s_left, cand@);
                assert((s_node + s_right) + s_left =~= set_int_range(lo as int, hi as int));
            }
        } else {
            proof {
                assert(c2.len() == k);
                let last = c2[c2.len() - 1].index as int;
                let worst = pdist(pts@, q@, last);
                assert(c2[c2.len() - 1].distance == worst);
                assert(plane > worst);
                lemma_sq_neg(sa as int - qa as int);
                assert forall|p: int| #[trigger] s_left.contains(p) implies worse_than_kept(
                    pts@,
                    q@,
                    c2,
                    p,
                ) by {
                    assert(coord(pts@[p], axis as int) <= sa as int);
                    assert(pts@[p].coords@.len() == dim);
                    lemma_dist_sq_prefix_term(q@, pts@[p].coords@, dim as int, axis as int);
                    lemma_sq_mono(qa as int - sa as int, qa as int - coord(pts@[p], axis as int));
                    lemma_sq_neg(qa as int - coord(pts@[p], axis as int));
                    assert(pdist(pts@, q@, p) >= sq(q@[axis as int] - pts@[p].coords@[axis as int]));
                    assert(pdist(pts@, q@, p) >= plane);
                };
                lemma_merge_prune(pts@, q@, k as int, c2, s_left);
                lemma_merge_compose(pts@, q@, k as int, c0, s_node, c1, s_right, c2);
                lemma_merge_compose(pts@, q@, k as int, c0, s_node + s_right, c2, s_left, c2);
                assert((s_node + s_right) + s_left =~= set_int_range(lo as int, hi as int));
            }
        }
    }
}

/// After merging only positions of `[lo, hi)` into candidates that held
/// none of `[lo, hi)`, the candidates still hold no position of any
/// sub-range of `[lo, hi)` disjoint from what was merged.
proof fn lemma_search_disjoint(
    pts: Seq<VectorPoint>,
    q: Seq<i32>,
    c0: Seq<Neighbor>,
    c1: Seq<Neighbor>,
    s: Set<int>,
    lo: int,
    hi: int,
    sub_lo: int,
    sub_hi: int,
)
    requires
        forall|j: int| 0 <= j < c0.len() ==> !(lo <= (#[trigger] c0[j]).index < hi),
        forall|j: int|
            0 <= j < c1.len() ==> contains_pos(c0, (#[trigger] c1[j]).index as int) || s.contains(
                c1[j].index as int,
            ),
        forall|p: int| #[trigger] s.contains(p) ==> !(sub_lo <= p < sub_hi),
        lo <= sub_lo,
        sub_hi <= hi,
    ensures
        forall|j: int| 0 <= j < c1.len() ==> !(sub_lo <= (#[trigger] c1[j]).index < sub_hi),
{
    assert forall|j: int| 0 <= j < c1.len() implies !(sub_lo <= (#[trigger] c1[j]).index
        < sub_hi) by {
        let p = c1[j].index as int;
        if contains_pos(c0, p) {
            let m = choose|m: int| 0 <= m < c0.len() && (#[trigger] c0[m]).index == p;
        } else {
            assert(s.contains(p));
        }
    };
}

/// The positions `[0, N)` of a built index.
pub open spec fn all_positions(pts: Seq<VectorPoint>) -> Set<int> {
    set_int_range(0, pts.len() as int)
}

/// `c` is the k-nearest selection out of the positions `s`: members of
/// `s`, strictly sorted in candidate order, as many as `k` and `s` allow,
/// and every position of `s` left out is farther than everything kept.
pub open spec fn is_knn(
    pts: Seq<VectorPoint>,
    q: Seq<i32>,
    s: Set<int>,
    k: int,
    c: Seq<Neighbor>,
) -> bool {
    &&& (forall|j: int| 0 <= j < c.len() ==> s.contains((#[trigger] c[j]).index as int))
    &&& lex_sorted(pts, q, c)
    &&& c.len() == min_int(k, s.len() as int)
    &&& (forall|p: int|
        #[trigger] s.contains(p) && !contains_pos(c, p) ==> c.len() == k && worse_than_kept(
            pts,
            q,
            c,
            p,
        ))
}

/// The full contract of a k-nearest query against a built index: valid
/// entries, and exactly the k-nearest selection out of all positions.
pub open spec fn knn_post(pts: Seq<VectorPoint>, q: Seq<i32>, k: int, r: Seq<Neighbor>) -> bool {
    &&& valid_candidates(pts, q, r)
    &&& is_knn(pts, q, all_positions(pts), k, r)
}

impl SpatialIndex {
    /// The k nearest points to `q` by squared Euclidean distance, sorted
    /// ascending (ties by position). Returns all points when `k` exceeds
    /// their number, and an empty result when `k` is zero.
    pub fn k_nearest(&self, q: &Vec<i32>, k: usize) -> (r: Vec<Neighbor>)
        requires
            self.wf(),
            q@.len() == self.dim,
        ensures
            knn_post(self.points@, q@, k as int, r@),
    {
        let mut cand: Vec<Neighbor> = Vec::new();
        if k == 0 || self.points.len() == 0 {
            proof {
                lemma_int_range(0, self.points@.len() as int);
            }
            return cand;
        }
        let n = self.points.len();
        search_range(&self.points, q, 0, n, 0, self.dim, k, &mut cand);
        proof {
            lemma_int_range(0, self.points@.len() as int);
            let s = all_positions(self.points@);
            assert forall|p: int| #[trigger] s.contains(p) && !contains_pos(cand@, p) implies cand@.len()
                == k && worse_than_kept(self.points@, q@, cand@, p) by {
                assert(!contains_pos(Seq::<Neighbor>::empty(), p));
            };
        }
        cand
    }
}

} // verus!
