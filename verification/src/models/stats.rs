//! Statistics of sequences of scalars: sums, mean, variance, covariance and
//! mean squared error, all exact.
use crate::error::Error;
use crate::models::ratio::{Ratio, Rational};
use vstd::prelude::*;

verus! {

/// The sum of the first `k` values.
pub open spec fn sum_upto(v: Seq<i32>, k: int) -> int
    decreases k,
{
    if k <= 0 {
        0
    } else {
        sum_upto(v, k - 1) + v[k - 1]
    }
}

/// The sum of all values.
pub open spec fn sum(v: Seq<i32>) -> int {
    sum_upto(v, v.len() as int)
}

/// The sum of the products of the first `k` pairs.
pub open spec fn dot_upto(a: Seq<i32>, b: Seq<i32>, k: int) -> int
    decreases k,
{
    if k <= 0 {
        0
    } else {
        dot_upto(a, b, k - 1) + a[k - 1] * b[k - 1]
    }
}

/// The sum of the products of the pairs of two sequences of one length.
pub open spec fn dot(a: Seq<i32>, b: Seq<i32>) -> int {
    dot_upto(a, b, a.len() as int)
}

/// The sum of the squared differences of the first `k` pairs.
pub open spec fn squared_gap_upto(a: Seq<i32>, b: Seq<i32>, k: int) -> int
    decreases k,
{
    if k <= 0 {
        0
    } else {
        squared_gap_upto(a, b, k - 1) + (a[k - 1] - b[k - 1]) * (a[k - 1] - b[k - 1])
    }
}

/// `n` times the sum of squared deviations from the mean: the numerator of
/// the variance over the denominator `n * n`.
pub open spec fn spread(v: Seq<i32>) -> int {
    v.len() * dot(v, v) - sum(v) * sum(v)
}

/// `n` times the sum of the products of the deviations from the two means:
/// the numerator of the covariance over the denominator `n * n`.
pub open spec fn co_spread(a: Seq<i32>, b: Seq<i32>) -> int {
    a.len() * dot(a, b) - sum(a) * sum(b)
}

/// The arithmetic mean; zero where there are no values.
pub open spec fn spec_mean(v: Seq<i32>) -> Rational {
    if v.len() == 0 {
        Rational { num: 0, den: 1 }
    } else {
        Rational { num: sum(v), den: v.len() as int }
    }
}

/// The population variance; zero where there are no values.
pub open spec fn spec_variance(v: Seq<i32>) -> Rational {
    if v.len() == 0 {
        Rational { num: 0, den: 1 }
    } else {
        Rational { num: spread(v), den: (v.len() * v.len()) as int }
    }
}

/// The population covariance; zero where there are no values.
pub open spec fn spec_covariance(a: Seq<i32>, b: Seq<i32>) -> Rational {
    if a.len() == 0 {
        Rational { num: 0, den: 1 }
    } else {
        Rational { num: co_spread(a, b), den: (a.len() * a.len()) as int }
    }
}

/// The mean of the squared differences; zero where there are no values.
pub open spec fn spec_mean_squared_error(a: Seq<i32>, b: Seq<i32>) -> Rational {
    if a.len() == 0 {
        Rational { num: 0, den: 1 }
    } else {
        Rational { num: squared_gap_upto(a, b, a.len() as int), den: a.len() as int }
    }
}

/// The most values that the functions with a squared count in their result
/// take: the count has to fit the scalar type.
pub const MAX_COUNT: usize = 0x7fff_ffff;

/// The product of two values of the scalar type lies within 2^62.
pub proof fn lemma_product_bounds(a: int, b: int)
    requires
        -0x8000_0000 <= a <= 0x7fff_ffff,
        -0x8000_0000 <= b <= 0x7fff_ffff,
    ensures
        -0x4000_0000_0000_0000 <= a * b <= 0x4000_0000_0000_0000,
{
    assert(-0x4000_0000_0000_0000 <= a * b <= 0x4000_0000_0000_0000) by (nonlinear_arith)
        requires
            -0x8000_0000 <= a <= 0x7fff_ffff,
            -0x8000_0000 <= b <= 0x7fff_ffff,
    ;
}

/// A sum of squares is not negative.
pub proof fn lemma_dot_self_nonnegative(a: Seq<i32>, k: int)
    requires
        0 <= k <= a.len(),
    ensures
        0 <= dot_upto(a, a, k),
    decreases k,
{
    if k > 0 {
        lemma_dot_self_nonnegative(a, k - 1);
        let x = a[k - 1] as int;
        assert(0 <= x * x) by (nonlinear_arith);
    }
}

/// The sum of the values.
pub fn total(values: &[i32]) -> (s: i128)
    ensures
        s == sum(values@),
        -values@.len() * 0x8000_0000 <= s <= values@.len() * 0x8000_0000,
{
    let n: usize = values.len();
    let mut s: i128 = 0;
    let mut i: usize = 0;
    while i < n
        invariant
            n == values@.len(),
            i <= n,
            s == sum_upto(values@, i as int),
            -i * 0x8000_0000 <= s <= i * 0x8000_0000,
        decreases n - i,
    {
        s = s + values[i] as i128;
        i += 1;
    }
    s
}

/// The sum of the products of the pairs.
pub fn total_product(a: &[i32], b: &[i32]) -> (s: i128)
    requires
        a@.len() == b@.len(),
    ensures
        s == dot(a@, b@),
        -a@.len() * 0x4000_0000_0000_0000 <= s <= a@.len() * 0x4000_0000_0000_0000,
{
    let n: usize = a.len();
    let mut s: i128 = 0;
    let mut i: usize = 0;
    while i < n
        invariant
            n == a@.len(),
            n == b@.len(),
            i <= n,
            s == dot_upto(a@, b@, i as int),
            -i * 0x4000_0000_0000_0000 <= s <= i * 0x4000_0000_0000_0000,
        decreases n - i,
    {
        proof {
            lemma_product_bounds(a@[i as int] as int, b@[i as int] as int);
        }
        s = s + (a[i] as i128) * (b[i] as i128);
        i += 1;
    }
    s
}

/// The arithmetic mean of the values, zero where there are none.
pub fn mean(values: &[i32]) -> (r: Ratio)
    ensures
        r@ == spec_mean(values@),
{
    if values.len() == 0 {
        return Ratio::from_int(0);
    }
    let s: i128 = total(values);
    match Ratio::new(s, values.len() as i128) {
        Some(r) => r,
        None => Ratio::from_int(0),
    }
}

/// The population variance of the values (the squared deviations are divided
/// by the count), zero where there are none.
pub fn variance(values: &[i32]) -> (r: Ratio)
    requires
        values@.len() <= MAX_COUNT,
    ensures
        r@ == spec_variance(values@),
{
    if values.len() == 0 {
        return Ratio::from_int(0);
    }
    let n: i128 = values.len() as i128;
    let s: i128 = total(values);
    let sq: i128 = total_product(values, values);
    proof {
        lemma_dot_self_nonnegative(values@, values@.len() as int);
        lemma_spread_fits(n as int, s as int, s as int, sq as int);
    }
    let num: i128 = n * sq - s * s;
    match Ratio::new(num, n * n) {
        Some(r) => r,
        None => Ratio::from_int(0),
    }
}

/// The population covariance of two sequences of one length, zero where they
/// are empty.
pub fn covariance(x_values: &[i32], y_values: &[i32]) -> (r: Result<Ratio, Error>)
    requires
        x_values@.len() <= MAX_COUNT,
    ensures
        x_values@.len() != y_values@.len() <==> r == Err::<Ratio, Error>(Error::DiffLen),
        x_values@.len() == y_values@.len() <==> r.is_ok(),
        r matches Ok(c) ==> c@ == spec_covariance(x_values@, y_values@),
{
    if x_values.len() != y_values.len() {
        return Err(Error::DiffLen);
    }
    if x_values.len() == 0 {
        return Ok(Ratio::from_int(0));
    }
    let n: i128 = x_values.len() as i128;
    let sx: i128 = total(x_values);
    let sy: i128 = total(y_values);
    let sxy: i128 = total_product(x_values, y_values);
    proof {
        lemma_spread_fits(n as int, sx as int, sy as int, sxy as int);
    }
    let num: i128 = n * sxy - sx * sy;
    match Ratio::new(num, n * n) {
        Some(r) => Ok(r),
        None => Ok(Ratio::from_int(0)),
    }
}

/// The mean of the squared differences between two sequences of one length,
/// zero where they are empty.
pub fn mean_squared_error(actual: &[i32], predict: &[i32]) -> (r: Result<Ratio, Error>)
    requires
        actual@.len() <= MAX_COUNT,
    ensures
        actual@.len() != predict@.len() <==> r == Err::<Ratio, Error>(Error::DiffLen),
        actual@.len() == predict@.len() <==> r.is_ok(),
        r matches Ok(e) ==> e@ == spec_mean_squared_error(actual@, predict@),
{
    if actual.len() != predict.len() {
        return Err(Error::DiffLen);
    }
    let n: usize = actual.len();
    if n == 0 {
        return Ok(Ratio::from_int(0));
    }
    let mut s: i128 = 0;
    let mut i: usize = 0;
    while i < n
        invariant
            n == actual@.len(),
            n == predict@.len(),
            n <= MAX_COUNT,
            i <= n,
            s == squared_gap_upto(actual@, predict@, i as int),
            0 <= s <= i * 0x1_0000_0000_0000_0000,
        decreases n - i,
    {
        let d: i128 = actual[i] as i128 - predict[i] as i128;
        assert(0 <= d * d <= 0x1_0000_0000_0000_0000) by (nonlinear_arith)
            requires
                -0xffff_ffff <= d <= 0xffff_ffff,
        ;
        s = s + d * d;
        i += 1;
    }
    match Ratio::new(s, n as i128) {
        Some(r) => Ok(r),
        None => Ok(Ratio::from_int(0)),
    }
}

/// With at most `MAX_COUNT` values of the scalar type, the products that go
/// into a variance or covariance numerator stay within 2^124 each.
pub proof fn lemma_spread_fits(n: int, sx: int, sy: int, sxy: int)
    requires
        0 <= n <= 0x7fff_ffff,
        -n * 0x8000_0000 <= sx <= n * 0x8000_0000,
        -n * 0x8000_0000 <= sy <= n * 0x8000_0000,
        -n * 0x4000_0000_0000_0000 <= sxy <= n * 0x4000_0000_0000_0000,
    ensures
        -0x1000_0000_0000_0000_0000_0000_0000_0000 <= n * sxy
            <= 0x1000_0000_0000_0000_0000_0000_0000_0000,
        -0x1000_0000_0000_0000_0000_0000_0000_0000 <= sx * sy
            <= 0x1000_0000_0000_0000_0000_0000_0000_0000,
        0 <= n * n <= 0x4000_0000_0000_0000,
        n > 0 ==> n * n > 0,
{
    assert(-0x1000_0000_0000_0000_0000_0000_0000_0000 <= n * sxy
        <= 0x1000_0000_0000_0000_0000_0000_0000_0000) by (nonlinear_arith)
        requires
            0 <= n <= 0x7fff_ffff,
            -n * 0x4000_0000_0000_0000 <= sxy <= n * 0x4000_0000_0000_0000,
    ;
    assert(-0x1000_0000_0000_0000_0000_0000_0000_0000 <= sx * sy
        <= 0x1000_0000_0000_0000_0000_0000_0000_0000) by (nonlinear_arith)
        requires
            0 <= n <= 0x7fff_ffff,
            -n * 0x8000_0000 <= sx <= n * 0x8000_0000,
            -n * 0x8000_0000 <= sy <= n * 0x8000_0000,
    ;
    assert(0 <= n * n <= 0x4000_0000_0000_0000 && (n > 0 ==> n * n > 0)) by (nonlinear_arith)
        requires
            0 <= n <= 0x7fff_ffff,
    ;
}

} // verus!
