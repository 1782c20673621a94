//! Squared Euclidean distance between coordinate vectors, as a mathematical
//! definition and as verified executable code.

use vstd::prelude::*;

verus! {

/// The square of an integer, as a mathematical value.
pub open spec fn sq(x: int) -> int {
    x * x
}

/// Sum of squared coordinate differences over the first `n` dimensions.
pub open spec fn dist_sq_prefix(a: Seq<i32>, b: Seq<i32>, n: int) -> int
    decreases n,
{
    if n <= 0 {
        0
    } else {
        dist_sq_prefix(a, b, n - 1) + sq(a[n - 1] - b[n - 1])
    }
}

/// Squared Euclidean distance between two coordinate vectors of equal length:
/// the sum over all dimensions of the squared per-dimension difference.
pub open spec fn dist_sq(a: Seq<i32>, b: Seq<i32>) -> int {
    dist_sq_prefix(a, b, a.len() as int)
}

/// Largest possible squared difference of two `i32` values: `(2^32 - 1)^2`.
pub open spec fn max_sq_diff() -> int {
    0xFFFF_FFFE_0000_0001
}

pub proof fn lemma_sq_nonneg(x: int)
    ensures
        sq(x) >= 0,
{
    assert(x * x >= 0) by (nonlinear_arith);
}

/// Squaring does not see the sign.
pub proof fn lemma_sq_neg(x: int)
    ensures
        sq(x) == sq(-x),
{
    assert(x * x == (-x) * (-x)) by (nonlinear_arith);
}

/// Squaring is monotone on absolute values.
pub proof fn lemma_sq_mono(x: int, y: int)
    requires
        0 <= x <= y,
    ensures
        sq(x) <= sq(y),
{
    assert(x * x <= y * y) by (nonlinear_arith)
        requires
            0 <= x <= y,
    ;
}

/// The squared difference of two `i32` values is bounded by `max_sq_diff`.
pub proof fn lemma_sq_diff_bound(x: int)
    requires
        -0xFFFF_FFFF <= x <= 0xFFFF_FFFF,
    ensures
        0 <= sq(x) <= max_sq_diff(),
{
    lemma_sq_nonneg(x);
    if x >= 0 {
        lemma_sq_mono(x, 0xFFFF_FFFF);
    } else {
        assert(x * x == (-x) * (-x)) by (nonlinear_arith);
        lemma_sq_mono(-x, 0xFFFF_FFFF);
    }
}

/// Each single squared per-dimension difference is a lower bound for the
/// whole squared distance.
pub proof fn lemma_dist_sq_prefix_term(a: Seq<i32>, b: Seq<i32>, n: int, k: int)
    requires
        0 <= k < n,
    ensures
        dist_sq_prefix(a, b, n) >= sq(a[k] - b[k]),
    decreases n,
{
    if k == n - 1 {
        lemma_dist_sq_prefix_nonneg(a, b, n - 1);
    } else {
        lemma_dist_sq_prefix_term(a, b, n - 1, k);
        lemma_sq_nonneg(a[n - 1] - b[n - 1]);
    }
}

pub proof fn lemma_dist_sq_prefix_nonneg(a: Seq<i32>, b: Seq<i32>, n: int)
    ensures
        0 <= dist_sq_prefix(a, b, n),
    decreases n,
{
    if n > 0 {
        lemma_dist_sq_prefix_nonneg(a, b, n - 1);
        lemma_sq_nonneg(a[n - 1] - b[n - 1]);
    }
}

/// Squared Euclidean distance, computed exactly over `i32` coordinates in
/// a `u128` accumulator (which cannot overflow for any input lengths that
/// fit in memory).
pub fn squared_distance(a: &Vec<i32>, b: &Vec<i32>) -> (d: u128)
    requires
        a@.len() == b@.len(),
    ensures
        d == dist_sq(a@, b@),
{
    let mut acc: u128 = 0;
    let mut i: usize = 0;
    while i < a.len()
        invariant
            0 <= i <= a@.len(),
            a@.len() == b@.len(),
            acc == dist_sq_prefix(a@, b@, i as int),
            acc <= (i as int) * max_sq_diff(),
        decreases a@.len() - i,
    {
        let d64: i64 = (a[i] as i64) - (b[i] as i64);
        proof {
            lemma_sq_diff_bound(d64 as int);
        }
        let sq_term: u128 = ((d64 as i128) * (d64 as i128)) as u128;
        proof {
            assert((d64 as i128) * (d64 as i128) == sq(d64 as int));
            assert(acc + sq_term <= (i as int) * max_sq_diff() + max_sq_diff());
            assert((i as int) * max_sq_diff() + max_sq_diff() == (i as int + 1) * max_sq_diff())
                by (nonlinear_arith);
            assert((i as int + 1) * max_sq_diff() <= 0xFFFF_FFFF_FFFF_FFFF * max_sq_diff())
                by (nonlinear_arith)
                requires
                    i as int + 1 <= 0xFFFF_FFFF_FFFF_FFFF,
            ;
        }
        acc = acc + sq_term;
        i = i + 1;
    }
    acc
}

} // verus!
