//! The spatial index: a k-d tree kept as an in-place permutation of the
//! point array. Construction recursively moves the median along the
//! cycling split axis to the middle of each sub-range.

use vstd::prelude::*;

use crate::errors::RetrievalError;
use crate::permute::lemma_range_multiset_extend;
use crate::permute::lemma_range_multiset_property;
use crate::permute::lemma_swap_range_multiset;
use crate::point::VectorPoint;
use crate::point::coord;

verus! {

/// The split axis of the next tree level: axes cycle through `0 .. dim`,
/// so the axis at depth `d` is `d mod dim`.
pub open spec fn next_axis(axis: int, dim: int) -> int {
    if axis + 1 == dim {
        0
    } else {
        axis + 1
    }
}

/// The middle position of the sub-range `[lo, hi)`: the root of its subtree.
pub open spec fn mid_of(lo: int, hi: int) -> int {
    lo + (hi - lo) / 2
}

/// Every point of `[lo, hi)` has dimensionality `dim`.
pub open spec fn range_has_dim(pts: Seq<VectorPoint>, lo: int, hi: int, dim: int) -> bool {
    forall|i: int| lo <= i < hi ==> (#[trigger] pts[i]).coords@.len() == dim
}

/// The balanced tree layout invariant over the sub-range `[lo, hi)` split
/// on `axis`: everything left of the middle position is `<=` the middle
/// point's coordinate on that axis, everything right of it is `>=`, and
/// both halves are themselves arranged the same way on the next axis.
pub open spec fn wf_range(pts: Seq<VectorPoint>, lo: int, hi: int, axis: int, dim: int) -> bool
    decreases hi - lo,
{
    if hi - lo <= 1 {
        true
    } else {
        let mid = mid_of(lo, hi);
        let nax = next_axis(axis, dim);
        &&& (forall|i: int|
            lo <= i < mid ==> #[trigger] coord(pts[i], axis) <= coord(pts[mid], axis))
        &&& (forall|i: int|
            mid < i < hi ==> #[trigger] coord(pts[i], axis) >= coord(pts[mid], axis))
        &&& wf_range(pts, lo, mid, nax, dim)
        &&& wf_range(pts, mid + 1, hi, nax, dim)
    }
}

/// The layout invariant only reads the points of `[lo, hi)`.
pub proof fn lemma_wf_range_frame(
    s1: Seq<VectorPoint>,
    s2: Seq<VectorPoint>,
    lo: int,
    hi: int,
    axis: int,
    dim: int,
)
    requires
        forall|k: int| lo <= k < hi ==> s1[k] == s2[k],
        wf_range(s1, lo, hi, axis, dim),
    ensures
        wf_range(s2, lo, hi, axis, dim),
    decreases hi - lo,
{
    if hi - lo > 1 {
        let mid = mid_of(lo, hi);
        lemma_wf_range_frame(s1, s2, lo, mid, next_axis(axis, dim), dim);
        lemma_wf_range_frame(s1, s2, mid + 1, hi, next_axis(axis, dim), dim);
    }
}

/// Relies on `<[T]>::swap` from std: exchanges the elements at indices
/// `i` and `j`, leaving the rest of the vector unchanged.
#[verifier::external_body]
fn swap_points(v: &mut Vec<VectorPoint>, i: usize, j: usize)
    requires
        i < old(v)@.len(),
        j < old(v)@.len(),
    ensures
        final(v)@ == old(v)@.update(i as int, old(v)@[j as int]).update(j as int, old(v)@[i as int]),
{
    v.swap(i, j);
}

/// One partition step: rearranges `[lo, hi)` around the pivot (the last
/// element's coordinate on `axis`) and returns the pivot's final position.
fn partition_range(v: &mut Vec<VectorPoint>, lo: usize, hi: usize, axis: usize, dim: usize) -> (s:
    usize)
    requires
        lo < hi <= old(v)@.len(),
        axis < dim,
        range_has_dim(old(v)@, lo as int, hi as int, dim as int),
    ensures
        final(v)@.len() == old(v)@.len(),
        forall|k: int| 0 <= k < final(v)@.len() && !(lo <= k < hi) ==> final(v)@[k] == old(v)@[k],
        final(v)@.subrange(lo as int, hi as int).to_multiset() == old(v)@.subrange(
            lo as int,
            hi as int,
        ).to_multiset(),
        range_has_dim(final(v)@, lo as int, hi as int, dim as int),
        lo <= s < hi,
        forall|i: int|
            lo <= i < s ==> #[trigger] coord(final(v)@[i], axis as int) <= coord(
                final(v)@[s as int],
                axis as int,
            ),
        forall|i: int|
            s < i < hi ==> #[trigger] coord(final(v)@[i], axis as int) >= coord(
                final(v)@[s as int],
                axis as int,
            ),
{
    let ghost orig = v@;
    let pc: i32 = v[hi - 1].coords[axis];
    let mut i: usize = lo;
    let mut j: usize = lo;
    while j < hi - 1
        invariant
            lo <= i <= j <= hi - 1,
            lo < hi <= v@.len(),
            v@.len() == orig.len(),
            axis < dim,
            forall|k: int| 0 <= k < v@.len() && !(lo <= k < hi) ==> v@[k] == orig[k],
            v@.subrange(lo as int, hi as int).to_multiset() == orig.subrange(
                lo as int,
                hi as int,
            ).to_multiset(),
            range_has_dim(v@, lo as int, hi as int, dim as int),
            coord(v@[hi - 1], axis as int) == pc as int,
            forall|m: int| lo <= m < i ==> #[trigger] coord(v@[m], axis as int) < pc as int,
            forall|m: int| i <= m < j ==> #[trigger] coord(v@[m], axis as int) >= pc as int,
        decreases hi - 1 - j,
    {
        let cj: i32 = v[j].coords[axis];
        if cj < pc {
            let ghost pre = v@;
            swap_points(v, i, j);
            proof {
                lemma_swap_range_multiset(pre, v@, lo as int, hi as int, i as int, j as int);
            }
            i = i + 1;
        }
        j = j + 1;
    }
    let ghost pre = v@;
    swap_points(v, i, hi - 1);
    proof {
        lemma_swap_range_multiset(pre, v@, lo as int, hi as int, i as int, hi - 1);
        assert(coord(v@[i as int], axis as int) == pc as int);
        assert forall|m: int| i < m < hi implies #[trigger] coord(v@[m], axis as int) >= coord(
            v@[i as int],
            axis as int,
        ) by {
            if m < hi - 1 {
                assert(v@[m] == pre[m]);
            } else {
                assert(v@[m] == pre[i as int]);
            }
        };
    }
    i
}

/// Quickselect: rearranges `[lo, hi)` so that the element at `t` is a
/// median-style pivot — everything left of `t` is `<=` it on `axis`,
/// everything right of `t` is `>=` it.
fn select_range(v: &mut Vec<VectorPoint>, lo: usize, hi: usize, t: usize, axis: usize, dim: usize)
    requires
        lo <= t < hi <= old(v)@.len(),
        axis < dim,
        range_has_dim(old(v)@, lo as int, hi as int, dim as int),
    ensures
        final(v)@.len() == old(v)@.len(),
        forall|k: int| 0 <= k < final(v)@.len() && !(lo <= k < hi) ==> final(v)@[k] == old(v)@[k],
        final(v)@.subrange(lo as int, hi as int).to_multiset() == old(v)@.subrange(
            lo as int,
            hi as int,
        ).to_multiset(),
        range_has_dim(final(v)@, lo as int, hi as int, dim as int),
        forall|i: int|
            lo <= i < t ==> #[trigger] coord(final(v)@[i], axis as int) <= coord(
                final(v)@[t as int],
                axis as int,
            ),
        forall|i: int|
            t < i < hi ==> #[trigger] coord(final(v)@[i], axis as int) >= coord(
                final(v)@[t as int],
                axis as int,
            ),
    decreases hi - lo,
{
    let s = partition_range(v, lo, hi, axis, dim);
    let ghost after_part = v@;
    if s == t {
        return ;
    }
    if t < s {
        select_range(v, lo, s, t, axis, dim);
        proof {
            lemma_range_multiset_extend(
                after_part,
                v@,
                lo as int,
                s as int,
                lo as int,
                hi as int,
            );
            let ax = axis as int;
            let pv = coord(after_part[s as int], ax);
            let below = (|p: VectorPoint| coord(p, ax) <= pv);
            lemma_range_multiset_property(after_part, v@, lo as int, s as int, below);
            assert(v@[s as int] == after_part[s as int]);
            assert forall|i: int| t < i < hi implies #[trigger] coord(v@[i], ax) >= coord(
                v@[t as int],
                ax,
            ) by {
                assert(below(v@[t as int]));
                assert(coord(v@[t as int], ax) <= pv);
                if i < s {
                    assert(coord(v@[i], ax) >= coord(v@[t as int], ax));
                } else if i == s {
                    assert(coord(v@[i], ax) == pv);
                } else {
                    assert(v@[i] == after_part[i]);
                    assert(coord(after_part[i], ax) >= pv);
                }
            };
        }
    } else {
        select_range(v, s + 1, hi, t, axis, dim);
        proof {
            lemma_range_multiset_extend(
                after_part,
                v@,
                s as int + 1,
                hi as int,
                lo as int,
                hi as int,
            );
            let ax = axis as int;
            let pv = coord(after_part[s as int], ax);
            let above = (|p: VectorPoint| coord(p, ax) >= pv);
            lemma_range_multiset_property(after_part, v@, s as int + 1, hi as int, above);
            assert(v@[s as int] == after_part[s as int]);
            assert forall|i: int| lo <= i < t implies #[trigger] coord(v@[i], ax) <= coord(
                v@[t as int],
                ax,
            ) by {
                assert(above(v@[t as int]));
                assert(coord(v@[t as int], ax) >= pv);
                if i > s {
                    assert(coord(v@[i], ax) <= coord(v@[t as int], ax));
                } else if i == s {
                    assert(coord(v@[i], ax) == pv);
                } else {
                    assert(v@[i] == after_part[i]);
                    assert(coord(after_part[i], ax) <= pv);
                }
            };
        }
    }
}

/// Recursively arranges `[lo, hi)` into the balanced tree layout: move the
/// median on the current axis to the middle, then lay out both halves on
/// the next axis.
fn build_range(v: &mut Vec<VectorPoint>, lo: usize, hi: usize, axis: usize, dim: usize)
    requires
        lo <= hi <= old(v)@.len(),
        0 < dim,
        axis < dim,
        range_has_dim(old(v)@, lo as int, hi as int, dim as int),
    ensures
        final(v)@.len() == old(v)@.len(),
        forall|k: int| 0 <= k < final(v)@.len() && !(lo <= k < hi) ==> final(v)@[k] == old(v)@[k],
        final(v)@.subrange(lo as int, hi as int).to_multiset() == old(v)@.subrange(
            lo as int,
            hi as int,
        ).to_multiset(),
        range_has_dim(final(v)@, lo as int, hi as int, dim as int),
        wf_range(final(v)@, lo as int, hi as int, axis as int, dim as int),
    decreases hi - lo,
{
    if hi - lo <= 1 {
        assert(v@.subrange(lo as int, hi as int) =~= old(v)@.subrange(lo as int, hi as int));
        return ;
    }
    let mid = lo + (hi - lo) / 2;
    select_range(v, lo, hi, mid, axis, dim);
    let ghost s_sel = v@;
    let nax = if axis + 1 == dim {
        0
    } else {
        axis + 1
    };
    build_range(v, lo, mid, nax, dim);
    let ghost s_left = v@;
    build_range(v, mid + 1, hi, nax, dim);
    proof {
        let l = lo as int;
        let h = hi as int;
        let m = mid as int;
        let ax = axis as int;
        let d = dim as int;
        lemma_wf_range_frame(s_left, v@, l, m, nax as int, d);
        assert(v@[m] == s_sel[m]);
        let pv = coord(s_sel[m], ax);
        let below = (|p: VectorPoint| coord(p, ax) <= pv);
        let above = (|p: VectorPoint| coord(p, ax) >= pv);
        lemma_range_multiset_property(s_sel, s_left, l, m, below);
        assert forall|i: int| l <= i < m implies #[trigger] coord(v@[i], ax) <= coord(
            v@[m],
            ax,
        ) by {
            assert(v@[i] == s_left[i]);
            assert(below(s_left[i]));
        };
        assert forall|i: int| m + 1 <= i < h implies #[trigger] above(s_left[i]) by {
            assert(s_left[i] == s_sel[i]);
            assert(coord(s_sel[i], ax) >= pv);
        };
        lemma_range_multiset_property(s_left, v@, m + 1, h, above);
        assert forall|i: int| m < i < h implies #[trigger] coord(v@[i], ax) >= coord(v@[m], ax) by {
            assert(above(v@[i]));
        };
        lemma_range_multiset_extend(s_sel, s_left, l, m, l, h);
        lemma_range_multiset_extend(s_left, v@, m + 1, h, l, h);
        assert(m == mid_of(l, h));
        assert(nax as int == next_axis(ax, d));
        assert(wf_range(v@, l, h, ax, d));
    }
}

/// The spatial index: the point array permuted into the implicit balanced
/// k-d tree layout, and the shared dimensionality of its points. Read-only
/// after construction.
pub struct SpatialIndex {
    pub points: Vec<VectorPoint>,
    pub dim: usize,
}

/// The inputs over which an index can be built: at least one point, a
/// positive dimensionality, and every point sharing it.
pub open spec fn buildable(points: Seq<VectorPoint>) -> bool {
    &&& points.len() > 0
    &&& points[0].coords@.len() > 0
    &&& forall|i: int|
        0 <= i < points.len() ==> (#[trigger] points[i]).coords@.len() == points[0].coords@.len()
}

impl SpatialIndex {
    /// Well-formed: positive dimensionality shared by every point, and the
    /// point array arranged in the balanced tree layout.
    pub open spec fn wf(&self) -> bool {
        &&& 0 < self.dim
        &&& range_has_dim(self.points@, 0, self.points@.len() as int, self.dim as int)
        &&& wf_range(self.points@, 0, self.points@.len() as int, 0, self.dim as int)
    }

    /// Builds the index over the given points: the same points, permuted
    /// into the tree layout. Zero points is `EmptyIndex`; a zero
    /// dimensionality or points of differing dimensionality is
    /// `DimensionMismatch`.
    pub fn build(points: Vec<VectorPoint>) -> (r: Result<SpatialIndex, RetrievalError>)
        ensures
            r is Ok <==> buildable(points@),
            points@.len() == 0 ==> r == Result::<SpatialIndex, RetrievalError>::Err(
                RetrievalError::EmptyIndex,
            ),
            points@.len() > 0 && !buildable(points@) ==> r == Result::<
                SpatialIndex,
                RetrievalError,
            >::Err(RetrievalError::DimensionMismatch),
            r is Ok ==> {
                let idx = r->Ok_0;
                &&& idx.wf()
                &&& idx.dim == points@[0].coords@.len()
                &&& idx.points@.len() == points@.len()
                &&& idx.points@.to_multiset() == points@.to_multiset()
            },
    {
        if points.len() == 0 {
            return Err(RetrievalError::EmptyIndex);
        }
        let dim = points[0].coords.len();
        if dim == 0 {
            return Err(RetrievalError::DimensionMismatch);
        }
        let mut i: usize = 1;
        while i < points.len()
            invariant
                1 <= i <= points@.len(),
                points@.len() > 0,
                dim == points@[0].coords@.len(),
                forall|k: int| 0 <= k < i ==> (#[trigger] points@[k]).coords@.len() == dim,
            decreases points@.len() - i,
        {
            if points[i].coords.len() != dim {
                return Err(RetrievalError::DimensionMismatch);
            }
            i = i + 1;
        }
        let n = points.len();
        let mut pts = points;
        build_range(&mut pts, 0, n, 0, dim);
        proof {
            assert(pts@.subrange(0, n as int) =~= pts@);
            assert(points@.subrange(0, n as int) =~= points@);
        }
        Ok(SpatialIndex { points: pts, dim })
    }
}

} // verus!
