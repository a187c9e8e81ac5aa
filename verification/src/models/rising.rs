//! Why a line that is fitted to ordered coordinates and their ranks rises.
use crate::geometry::helper::ranks;
use crate::models::Model;
use crate::models::linear::{least_squares, LinearModel};
use crate::models::stats::{co_spread, dot_upto, sum_upto};
use vstd::prelude::*;

verus! {

/// Whether the values never fall along the sequence.
pub open spec fn ascending(xs: Seq<i32>) -> bool {
    forall|i: int, j: int| 0 <= i <= j < xs.len() ==> xs[i] <= xs[j]
}

/// The numerator of the covariance of the first `k` values and their ranks.
pub open spec fn rank_spread(xs: Seq<i32>, k: int) -> int {
    k * dot_upto(xs, ranks(xs.len()), k) - sum_upto(xs, k) * sum_upto(ranks(xs.len()), k)
}

/// The sum over the first `j` values of how far each lies below the value at
/// `k`, weighted with how far its rank lies below `k`.
pub open spec fn weighted_rise(xs: Seq<i32>, k: int, j: int) -> int
    decreases j,
{
    if j <= 0 {
        0
    } else {
        weighted_rise(xs, k, j - 1) + (k - (j - 1)) * (xs[k] - xs[j - 1])
    }
}

/// The weighted rise towards a value is not negative where the values before
/// it are not larger.
pub proof fn lemma_weighted_rise_nonnegative(xs: Seq<i32>, k: int, j: int)
    requires
        ascending(xs),
        0 <= j <= k < xs.len(),
    ensures
        weighted_rise(xs, k, j) >= 0,
    decreases j,
{
    if j > 0 {
        lemma_weighted_rise_nonnegative(xs, k, j - 1);
        let w = k - (j - 1);
        let d = xs[k] - xs[j - 1];
        assert(w * d >= 0) by (nonlinear_arith)
            requires
                w >= 0,
                d >= 0,
        ;
    }
}

/// The weighted rise in terms of the sums of the values and of their
/// products with the ranks.
pub proof fn lemma_weighted_rise_sums(xs: Seq<i32>, k: int, j: int)
    requires
        0 <= j <= k < xs.len() <= i32::MAX,
    ensures
        weighted_rise(xs, k, j) == xs[k] * (k * j - sum_upto(ranks(xs.len()), j)) - (k * sum_upto(
            xs,
            j,
        ) - dot_upto(xs, ranks(xs.len()), j)),
    decreases j,
{
    if j > 0 {
        lemma_weighted_rise_sums(xs, k, j - 1);
        let r = ranks(xs.len());
        let xk = xs[k] as int;
        let xj = xs[j - 1] as int;
        let sy = sum_upto(r, j - 1);
        let sx = sum_upto(xs, j - 1);
        let sxy = dot_upto(xs, r, j - 1);
        let w = weighted_rise(xs, k, j - 1);
        assert(r[j - 1] == j - 1);
        let i = j - 1;
        assert((k - i) * (xk - xj) == k * xk - k * xj - i * xk + i * xj) by (nonlinear_arith);
        assert(xk * (k * i - sy) == xk * (k * i) - xk * sy) by (nonlinear_arith);
        assert(xk * (k * j - (sy + i)) == xk * (k * i) + k * xk - xk * sy - i * xk)
            by (nonlinear_arith)
            requires
                j == i + 1,
        ;
        assert(k * (sx + xj) == k * sx + k * xj) by (nonlinear_arith);
        assert(xj * i == i * xj) by (nonlinear_arith);
        assert(w + (k - i) * (xk - xj) == xk * (k * j - (sy + i)) - (k * (sx + xj) - (sxy + xj
            * i)));
    } else {
        assert(xs[k] * (k * 0 - 0) - (k * 0 - 0) == 0) by (nonlinear_arith);
    }
}

/// The covariance of ordered values and their ranks is not negative.
pub proof fn lemma_rank_spread_nonnegative(xs: Seq<i32>, k: int)
    requires
        ascending(xs),
        0 <= k <= xs.len() <= i32::MAX,
    ensures
        rank_spread(xs, k) >= 0,
    decreases k,
{
    if k > 0 {
        let j = k - 1;
        lemma_rank_spread_nonnegative(xs, j);
        lemma_weighted_rise_nonnegative(xs, j, j);
        lemma_weighted_rise_sums(xs, j, j);
        let r = ranks(xs.len());
        let xj = xs[j] as int;
        let sy = sum_upto(r, j);
        let sx = sum_upto(xs, j);
        let sxy = dot_upto(xs, r, j);
        let w = weighted_rise(xs, j, j);
        assert(r[j] == j);
        let a = xj * j;
        assert((j + 1) * (sxy + a) == j * sxy + j * a + sxy + a) by (nonlinear_arith);
        assert((sx + xj) * (sy + j) == sx * sy + sx * j + xj * sy + a) by (nonlinear_arith)
            requires
                a == xj * j,
        ;
        assert(xj * (j * j - sy) == j * a - xj * sy) by (nonlinear_arith)
            requires
                a == xj * j,
        ;
        assert(sx * j == j * sx) by (nonlinear_arith);
        assert((j + 1) * (sxy + xj * j) - (sx + xj) * (sy + j) == (j * sxy - sx * sy) + w);
    } else {
        assert(0 * dot_upto(xs, ranks(xs.len()), 0) - sum_upto(xs, 0) * sum_upto(
            ranks(xs.len()),
            0,
        ) == 0) by (nonlinear_arith);
    }
}

/// The least-squares line through ordered coordinates and their ranks does
/// not fall.
pub proof fn lemma_ordered_ranks_rise(xs: Seq<i32>)
    requires
        ascending(xs),
        xs.len() <= i32::MAX,
    ensures
        least_squares(xs, ranks(xs.len())).slope >= 0,
{
    lemma_rank_spread_nonnegative(xs, xs.len() as int);
    assert(co_spread(xs, ranks(xs.len())) == rank_spread(xs, xs.len() as int));
}

/// A model that was fitted to ordered coordinates and their ranks is a line
/// that does not fall.
pub proof fn lemma_fit_to_ordered_rises(unfit: LinearModel, xs: Seq<i32>)
    requires
        ascending(xs),
        unfit.spec_fit(xs, ranks(xs.len())).is_ok(),
    ensures
        unfit.spec_fit(xs, ranks(xs.len())).unwrap()@.slope >= 0,
        unfit.spec_fit(xs, ranks(xs.len())).unwrap()@.scale > 0,
{
    unfit.lemma_fitted_line(xs, ranks(xs.len()));
    lemma_ordered_ranks_rise(xs);
}

} // verus!
