//! Simple linear regression and the linear model.
use crate::error::Error;
use crate::models::{firsts, seconds, Model};
use crate::models::ratio::{Ratio, Rational};
use crate::models::stats::{
    co_spread, dot, lemma_dot_self_nonnegative, lemma_spread_fits, spread, sum, total,
    total_product,
};
use crate::scalar::scalar_from_usize;
use vstd::prelude::*;

verus! {

/// A line with rational slope and intercept over one denominator: at `x` it
/// passes through `(slope * x + offset) / scale`.
pub struct RationalLine {
    pub slope: int,
    pub offset: int,
    pub scale: int,
}

/// The largest size of a slope numerator that a model keeps: 2^94.
pub const SLOPE_LIMIT: i128 = 0x4000_0000_0000_0000_0000_0000;

/// The largest size of an intercept numerator that a model keeps: 2^125.
pub const OFFSET_LIMIT: i128 = 0x2000_0000_0000_0000_0000_0000_0000_0000;

impl RationalLine {
    /// The value of the line at `x`.
    pub open spec fn at(self, x: int) -> Rational {
        Rational { num: self.slope * x + self.offset, den: self.scale }
    }

    /// The coordinate at which the line has the value `y`: none for a level
    /// line, and none where the numerator leaves the 128-bit range.
    pub open spec fn inverse(self, y: int) -> Option<Rational> {
        let lifted = y * self.scale;
        let num = lifted - self.offset;
        if self.slope == 0 || lifted < i128::MIN || lifted > i128::MAX || num <= i128::MIN || num
            > i128::MAX {
            None
        } else if self.slope > 0 {
            Some(Rational { num: num, den: self.slope })
        } else {
            Some(Rational { num: -num, den: -self.slope })
        }
    }

    /// Whether a model can keep the line: the denominator is positive and the
    /// numerators are within their limits, so that the value at any `i32`
    /// fits in 128 bits.
    pub open spec fn fits(self) -> bool {
        &&& 0 < self.scale <= i128::MAX
        &&& -SLOPE_LIMIT <= self.slope <= SLOPE_LIMIT
        &&& -OFFSET_LIMIT <= self.offset <= OFFSET_LIMIT
    }
}

/// The least-squares line through the points `(xs[i], ys[i])`: its slope is
/// the covariance over the variance of `xs`, and it passes through the two
/// means. All three numbers are exact.
pub open spec fn least_squares(xs: Seq<i32>, ys: Seq<i32>) -> RationalLine {
    RationalLine {
        slope: co_spread(xs, ys),
        offset: sum(ys) * dot(xs, xs) - sum(xs) * dot(xs, ys),
        scale: spread(xs),
    }
}

/// Whether the least-squares line through the points can be computed and
/// kept: the two products that make its intercept fit in 128 bits, and the
/// line fits a model. It cannot where all `xs` are equal.
pub open spec fn regression_fits(xs: Seq<i32>, ys: Seq<i32>) -> bool {
    &&& i128::MIN <= sum(ys) * dot(xs, xs) <= i128::MAX
    &&& i128::MIN <= sum(xs) * dot(xs, ys) <= i128::MAX
    &&& least_squares(xs, ys).fits()
}

/// Simple linear regression from the sums of `n` points: the sum of the
/// `x`, of the `y`, of the squared `x` and of the products `x * y`.
///
/// Gives slope and intercept over one denominator, or `SteepSlope` where the
/// line cannot be kept.
pub fn slr(n: i32, sx: i128, sy: i128, sxx: i128, sxy: i128) -> (r: Result<(Ratio, Ratio), Error>)
    requires
        0 <= n,
        -n * 0x8000_0000 <= sx <= n * 0x8000_0000,
        -n * 0x8000_0000 <= sy <= n * 0x8000_0000,
        0 <= sxx <= n * 0x4000_0000_0000_0000,
        -n * 0x4000_0000_0000_0000 <= sxy <= n * 0x4000_0000_0000_0000,
    ensures
        r.is_ok() <==> {
            &&& i128::MIN <= sy * sxx <= i128::MAX
            &&& i128::MIN <= sx * sxy <= i128::MAX
            &&& (RationalLine {
                slope: n * sxy - sx * sy,
                offset: sy * sxx - sx * sxy,
                scale: n * sxx - sx * sx,
            }).fits()
        },
        r.is_err() ==> r == Err::<(Ratio, Ratio), Error>(Error::SteepSlope),
        r matches Ok(line) ==> {
            &&& line.0@ == (Rational { num: n * sxy - sx * sy, den: n * sxx - sx * sx })
            &&& line.1@ == (Rational { num: sy * sxx - sx * sxy, den: n * sxx - sx * sx })
        },
{
    proof {
        lemma_spread_fits(n as int, sx as int, sy as int, sxy as int);
        lemma_spread_fits(n as int, sx as int, sx as int, sxx as int);
    }
    let count: i128 = n as i128;
    let scale: i128 = count * sxx - sx * sx;
    let slope: i128 = count * sxy - sx * sy;
    if scale <= 0 || slope < -SLOPE_LIMIT || slope > SLOPE_LIMIT {
        return Err(Error::SteepSlope);
    }
    let offset: i128 = match (sy.checked_mul(sxx), sx.checked_mul(sxy)) {
        (Some(a), Some(b)) => match a.checked_sub(b) {
            Some(d) => d,
            None => {
                return Err(Error::SteepSlope);
            },
        },
        _ => {
            return Err(Error::SteepSlope);
        },
    };
    if offset < -OFFSET_LIMIT || offset > OFFSET_LIMIT {
        return Err(Error::SteepSlope);
    }
    match (Ratio::new(slope, scale), Ratio::new(offset, scale)) {
        (Some(coefficient), Some(intercept)) => Ok((coefficient, intercept)),
        _ => Err(Error::SteepSlope),
    }
}

/// Linear regression from two slices, one of the `x` and one of the `y`.
///
/// Gives slope and intercept of the least-squares line over one denominator.
pub fn linear_regression(xs: &[i32], ys: &[i32]) -> (r: Result<(Ratio, Ratio), Error>)
    ensures
        r == Err::<(Ratio, Ratio), Error>(Error::EmptyVal) <==> (xs@.len() == 0 || ys@.len() == 0
            || (xs@.len() == ys@.len() && xs@.len() > i32::MAX)),
        r == Err::<(Ratio, Ratio), Error>(Error::DiffLen) <==> (xs@.len() != 0 && ys@.len() != 0
            && xs@.len() != ys@.len()),
        r == Err::<(Ratio, Ratio), Error>(Error::SteepSlope) <==> (0 < xs@.len() <= i32::MAX
            && xs@.len() == ys@.len() && !regression_fits(xs@, ys@)),
        r matches Ok(line) ==> {
            &&& line.0@ == (Rational {
                num: least_squares(xs@, ys@).slope,
                den: least_squares(xs@, ys@).scale,
            })
            &&& line.1@ == (Rational {
                num: least_squares(xs@, ys@).offset,
                den: least_squares(xs@, ys@).scale,
            })
        },
{
    if xs.len() == 0 {
        return Err(Error::EmptyVal);
    }
    if ys.len() == 0 {
        return Err(Error::EmptyVal);
    }
    if xs.len() != ys.len() {
        return Err(Error::DiffLen);
    }
    let n: i32 = match scalar_from_usize(xs.len()) {
        Some(n) => n,
        None => {
            return Err(Error::EmptyVal);
        },
    };
    let sx: i128 = total(xs);
    let sy: i128 = total(ys);
    let sxx: i128 = total_product(xs, xs);
    let sxy: i128 = total_product(xs, ys);
    proof {
        lemma_dot_self_nonnegative(xs@, xs@.len() as int);
    }
    slr(n, sx, sy, sxx, sxy)
}

/// Linear regression from a slice of pairs `(x, y)`.
///
/// Gives slope and intercept of the least-squares line over one denominator.
pub fn linear_regression_tuple(xys: &[(i32, i32)]) -> (r: Result<(Ratio, Ratio), Error>)
    ensures
        r != Err::<(Ratio, Ratio), Error>(Error::DiffLen),
        r == Err::<(Ratio, Ratio), Error>(Error::EmptyVal) <==> (xys@.len() == 0 || xys@.len()
            > i32::MAX),
        r == Err::<(Ratio, Ratio), Error>(Error::SteepSlope) <==> (0 < xys@.len() <= i32::MAX
            && !regression_fits(firsts(xys@), seconds(xys@))),
        r matches Ok(line) ==> {
            &&& line.0@ == (Rational {
                num: least_squares(firsts(xys@), seconds(xys@)).slope,
                den: least_squares(firsts(xys@), seconds(xys@)).scale,
            })
            &&& line.1@ == (Rational {
                num: least_squares(firsts(xys@), seconds(xys@)).offset,
                den: least_squares(firsts(xys@), seconds(xys@)).scale,
            })
        },
{
    if xys.len() == 0 {
        return Err(Error::EmptyVal);
    }
    let len: usize = xys.len();
    let mut xs: Vec<i32> = Vec::with_capacity(len);
    let mut ys: Vec<i32> = Vec::with_capacity(len);
    let mut i: usize = 0;
    while i < len
        invariant
            len == xys@.len(),
            i <= len,
            xs@ == firsts(xys@).take(i as int),
            ys@ == seconds(xys@).take(i as int),
        decreases len - i,
    {
        xs.push(xys[i].0);
        ys.push(xys[i].1);
        i += 1;
        assert(xs@ =~= firsts(xys@).take(i as int));
        assert(ys@ =~= seconds(xys@).take(i as int));
    }
    assert(xs@ =~= firsts(xys@));
    assert(ys@ =~= seconds(xys@));
    linear_regression(xs.as_slice(), ys.as_slice())
}

/// The sum, over the first `k` points, of the squared difference between
/// `ys[i] * scale` and the numerator of the line at `xs[i]`: the numerator of
/// the mean squared error over the denominator `n * scale * scale`.
pub open spec fn squared_residuals_upto(line: RationalLine, xs: Seq<i32>, ys: Seq<i32>, k: int) -> int
    decreases k,
{
    if k <= 0 {
        0
    } else {
        let e = ys[k - 1] * line.scale - line.at(xs[k - 1] as int).num;
        squared_residuals_upto(line, xs, ys, k - 1) + e * e
    }
}

/// The mean squared difference between the targets `ys` and the values of the
/// line at `xs`; zero where there are no points.
pub open spec fn line_error(line: RationalLine, xs: Seq<i32>, ys: Seq<i32>) -> Rational {
    if xs.len() == 0 {
        Rational { num: 0, den: 1 }
    } else {
        Rational {
            num: squared_residuals_upto(line, xs, ys, xs.len() as int),
            den: xs.len() * line.scale * line.scale,
        }
    }
}

/// The sum of squared residuals does not shrink as points are added.
pub proof fn lemma_squared_residuals_grow(line: RationalLine, xs: Seq<i32>, ys: Seq<i32>, j: int, k: int)
    requires
        0 <= j <= k,
    ensures
        0 <= squared_residuals_upto(line, xs, ys, j) <= squared_residuals_upto(line, xs, ys, k),
    decreases k,
{
    if k > 0 {
        let e = ys[k - 1] * line.scale - line.at(xs[k - 1] as int).num;
        assert(0 <= e * e) by (nonlinear_arith);
        if j < k {
            lemma_squared_residuals_grow(line, xs, ys, j, k - 1);
        } else {
            lemma_squared_residuals_grow(line, xs, ys, j - 1, k - 1);
        }
    }
}

/// The value of a line that fits a model, at any `i32`, has a numerator
/// within 2^126.
pub proof fn lemma_value_fits(line: RationalLine, x: int)
    requires
        line.fits(),
        i32::MIN <= x <= i32::MAX,
    ensures
        -0x2000_0000_0000_0000_0000_0000_0000_0000 <= line.slope * x
            <= 0x2000_0000_0000_0000_0000_0000_0000_0000,
        -0x4000_0000_0000_0000_0000_0000_0000_0000 <= line.at(x).num
            <= 0x4000_0000_0000_0000_0000_0000_0000_0000,
{
    let a = line.slope;
    assert(-0x2000_0000_0000_0000_0000_0000_0000_0000 <= a * x
        <= 0x2000_0000_0000_0000_0000_0000_0000_0000) by (nonlinear_arith)
        requires
            -0x4000_0000_0000_0000_0000_0000 <= a <= 0x4000_0000_0000_0000_0000_0000,
            -0x8000_0000 <= x <= 0x7fff_ffff,
    ;
}

/// A line with a slope that is not negative does not fall: its floor at a
/// larger coordinate is not below its floor at a smaller one.
pub proof fn lemma_rising_line(line: RationalLine, x1: int, x2: int)
    requires
        line.scale > 0,
        line.slope >= 0,
        x1 <= x2,
    ensures
        line.at(x1).floor() <= line.at(x2).floor(),
{
    let a = line.slope;
    assert(a * x1 <= a * x2) by (nonlinear_arith)
        requires
            a >= 0,
            x1 <= x2,
    ;
    vstd::arithmetic::div_mod::lemma_div_is_ordered(
        line.at(x1).num,
        line.at(x2).num,
        line.scale,
    );
}

/// A line with a slope that is not positive does not rise: its floor at a
/// larger coordinate is not above its floor at a smaller one.
pub proof fn lemma_falling_line(line: RationalLine, x1: int, x2: int)
    requires
        line.scale > 0,
        line.slope <= 0,
        x1 <= x2,
    ensures
        line.at(x1).floor() >= line.at(x2).floor(),
{
    let a = line.slope;
    assert(a * x1 >= a * x2) by (nonlinear_arith)
        requires
            a <= 0,
            x1 <= x2,
    ;
    vstd::arithmetic::div_mod::lemma_div_is_ordered(
        line.at(x2).num,
        line.at(x1).num,
        line.scale,
    );
}

/// A linear regression model: a line with exact rational slope and intercept.
/// A new model is the zero line.
#[derive(Copy, Clone, Debug)]
pub struct LinearModel {
    slope: i128,
    offset: i128,
    scale: i128,
}

impl View for LinearModel {
    type V = RationalLine;

    closed spec fn view(&self) -> RationalLine {
        RationalLine { slope: self.slope as int, offset: self.offset as int, scale: self.scale as int }
    }
}

impl Default for LinearModel {
    fn default() -> (m: Self)
        ensures
            m@ == (RationalLine { slope: 0, offset: 0, scale: 1 }),
    {
        LinearModel { slope: 0, offset: 0, scale: 1 }
    }
}

impl LinearModel {
    #[verifier::type_invariant]
    spec fn line_fits(self) -> bool {
        self@.fits()
    }

    /// The model of a line.
    pub closed spec fn of_line(line: RationalLine) -> LinearModel {
        LinearModel {
            slope: line.slope as i128,
            offset: line.offset as i128,
            scale: line.scale as i128,
        }
    }

    /// The model of a line that fits a model is that line.
    pub proof fn lemma_of_line(line: RationalLine)
        requires
            line.fits(),
        ensures
            Self::of_line(line)@ == line,
    {
    }

    /// A fit that succeeds gives the least-squares line through the points,
    /// whatever the model was before.
    pub proof fn lemma_fitted_line(self, xs: Seq<i32>, ys: Seq<i32>)
        requires
            self.spec_fit(xs, ys).is_ok(),
        ensures
            self.spec_fit(xs, ys).unwrap()@ == least_squares(xs, ys),
            least_squares(xs, ys).fits(),
            0 < xs.len() == ys.len(),
    {
        Self::lemma_of_line(least_squares(xs, ys));
    }

    /// The zero line.
    pub fn new() -> (m: LinearModel)
        ensures
            m@ == (RationalLine { slope: 0, offset: 0, scale: 1 }),
    {
        LinearModel { slope: 0, offset: 0, scale: 1 }
    }

    /// The model of the line with the given slope and intercept, where the
    /// two are given over one denominator and the line fits a model.
    pub fn with_line(coefficient: Ratio, intercept: Ratio) -> (r: Option<LinearModel>)
        ensures
            r.is_some() <==> coefficient@.den == intercept@.den && (RationalLine {
                slope: coefficient@.num,
                offset: intercept@.num,
                scale: coefficient@.den,
            }).fits(),
            r matches Some(m) ==> m@ == (RationalLine {
                slope: coefficient@.num,
                offset: intercept@.num,
                scale: coefficient@.den,
            }),
    {
        let slope: i128 = coefficient.num();
        let offset: i128 = intercept.num();
        let scale: i128 = coefficient.den();
        if scale != intercept.den() || slope < -SLOPE_LIMIT || slope > SLOPE_LIMIT || offset
            < -OFFSET_LIMIT || offset > OFFSET_LIMIT {
            None
        } else {
            Some(LinearModel { slope, offset, scale })
        }
    }

    /// The slope of the line.
    pub fn coefficient(&self) -> (r: Ratio)
        ensures
            r@ == (Rational { num: self@.slope, den: self@.scale }),
            self@.fits(),
    {
        proof {
            use_type_invariant(self);
        }
        match Ratio::new(self.slope, self.scale) {
            Some(r) => r,
            None => Ratio::from_int(0),
        }
    }

    /// The value of the line at zero.
    pub fn intercept(&self) -> (r: Ratio)
        ensures
            r@ == (Rational { num: self@.offset, den: self@.scale }),
            self@.fits(),
    {
        proof {
            use_type_invariant(self);
        }
        match Ratio::new(self.offset, self.scale) {
            Some(r) => r,
            None => Ratio::from_int(0),
        }
    }
}

impl Model for LinearModel {
    open spec fn spec_predict(&self, x: i32) -> Rational {
        self@.at(x as int)
    }

    open spec fn spec_unpredict(&self, y: i32) -> Option<Rational> {
        self@.inverse(y as int)
    }

    open spec fn spec_fit(&self, xs: Seq<i32>, ys: Seq<i32>) -> Result<Self, Error> {
        if xs.len() == 0 || ys.len() == 0 {
            Err(Error::EmptyVal)
        } else if xs.len() != ys.len() {
            Err(Error::DiffLen)
        } else if xs.len() > i32::MAX {
            Err(Error::EmptyVal)
        } else if !regression_fits(xs, ys) {
            Err(Error::SteepSlope)
        } else {
            Ok(LinearModel::of_line(least_squares(xs, ys)))
        }
    }

    fn name(&self) -> (s: String)
        ensures
            s@ == "linear"@,
    {
        "linear".to_owned()
    }

    fn fit(&mut self, xs: &[i32], ys: &[i32]) -> (r: Result<(), Error>)
        ensures
            r == Err::<(), Error>(Error::EmptyVal) <==> (xs@.len() == 0 || ys@.len() == 0 || (
            xs@.len() == ys@.len() && xs@.len() > i32::MAX)),
            r == Err::<(), Error>(Error::DiffLen) <==> (xs@.len() != 0 && ys@.len() != 0
                && xs@.len() != ys@.len()),
            r == Err::<(), Error>(Error::SteepSlope) <==> (0 < xs@.len() <= i32::MAX && xs@.len()
                == ys@.len() && !regression_fits(xs@, ys@)),
            r.is_ok() ==> final(self)@ == least_squares(xs@, ys@),
    {
        match linear_regression(xs, ys) {
            Ok((coefficient, intercept)) => {
                *self = LinearModel {
                    slope: coefficient.num(),
                    offset: intercept.num(),
                    scale: coefficient.den(),
                };
                Ok(())
            },
            Err(e) => Err(e),
        }
    }

    fn fit_tuple(&mut self, xys: &[(i32, i32)]) -> (r: Result<(), Error>)
        ensures
            r == Err::<(), Error>(Error::EmptyVal) <==> (xys@.len() == 0 || xys@.len() > i32::MAX),
            r == Err::<(), Error>(Error::SteepSlope) <==> (0 < xys@.len() <= i32::MAX
                && !regression_fits(firsts(xys@), seconds(xys@))),
            r.is_ok() ==> final(self)@ == least_squares(firsts(xys@), seconds(xys@)),
    {
        match linear_regression_tuple(xys) {
            Ok((coefficient, intercept)) => {
                *self = LinearModel {
                    slope: coefficient.num(),
                    offset: intercept.num(),
                    scale: coefficient.den(),
                };
                Ok(())
            },
            Err(e) => Err(e),
        }
    }

    fn predict(&self, x: i32) -> (r: Ratio)
        ensures
            self@.fits(),
    {
        proof {
            use_type_invariant(self);
            lemma_value_fits(self@, x as int);
        }
        let num: i128 = self.slope * (x as i128) + self.offset;
        match Ratio::new(num, self.scale) {
            Some(r) => r,
            None => Ratio::from_int(0),
        }
    }

    fn batch_predict(&self, xs: &[i32]) -> (r: Vec<Ratio>) {
        let n: usize = xs.len();
        let mut out: Vec<Ratio> = Vec::with_capacity(n);
        let mut i: usize = 0;
        while i < n
            invariant
                n == xs@.len(),
                i <= n,
                out@.len() == i,
                forall|j: int| 0 <= j < i ==> (#[trigger] out@[j])@ == self.spec_predict(xs@[j]),
            decreases n - i,
        {
            out.push(self.predict(xs[i]));
            i += 1;
        }
        out
    }

    fn evaluate(&self, x_test: &[i32], y_test: &[i32]) -> (r: Result<Ratio, Error>)
        ensures
            r == Err::<Ratio, Error>(Error::DiffLen) <==> x_test@.len() != y_test@.len(),
            r == Err::<Ratio, Error>(Error::SteepSlope) <==> (x_test@.len() == y_test@.len() && {
                ||| line_error(self@, x_test@, y_test@).num > i128::MAX
                ||| line_error(self@, x_test@, y_test@).den > i128::MAX
            }),
            r.is_err() ==> r == Err::<Ratio, Error>(Error::DiffLen) || r == Err::<Ratio, Error>(
                Error::SteepSlope,
            ),
            r matches Ok(e) ==> e@ == line_error(self@, x_test@, y_test@),
    {
        if x_test.len() != y_test.len() {
            return Err(Error::DiffLen);
        }
        let n: usize = x_test.len();
        if n == 0 {
            return Ok(Ratio::from_int(0));
        }
        proof {
            use_type_invariant(self);
        }
        let ghost line = self@;
        let mut acc: i128 = 0;
        let mut i: usize = 0;
        while i < n
            invariant
                n == x_test@.len(),
                n == y_test@.len(),
                i <= n,
                line == self@,
                line.fits(),
                acc == squared_residuals_upto(line, x_test@, y_test@, i as int),
                0 <= acc,
            decreases n - i,
        {
            let x: i32 = x_test[i];
            let y: i32 = y_test[i];
            proof {
                lemma_value_fits(line, x as int);
                lemma_squared_residuals_grow(line, x_test@, y_test@, i as int + 1, n as int);
                lemma_squared_residuals_grow(line, x_test@, y_test@, i as int, i as int + 1);
            }
            let value: i128 = self.slope * (x as i128) + self.offset;
            let ghost e: int = y * line.scale - value;
            let lifted: i128 = match (y as i128).checked_mul(self.scale) {
                Some(l) => l,
                None => {
                    proof {
                        lemma_large_square(e);
                    }
                    return Err(Error::SteepSlope);
                },
            };
            let gap: i128 = match lifted.checked_sub(value) {
                Some(g) => g,
                None => {
                    proof {
                        lemma_large_square(e);
                    }
                    return Err(Error::SteepSlope);
                },
            };
            let square: i128 = match gap.checked_mul(gap) {
                Some(s) => s,
                None => {
                    return Err(Error::SteepSlope);
                },
            };
            acc = match acc.checked_add(square) {
                Some(a) => a,
                None => {
                    return Err(Error::SteepSlope);
                },
            };
            i += 1;
        }
        let ghost s: int = line.scale;
        let squared_scale: i128 = match self.scale.checked_mul(self.scale) {
            Some(q) => q,
            None => {
                proof {
                    assert(n * s * s >= s * s) by (nonlinear_arith)
                        requires
                            n >= 1,
                            s > 0,
                    ;
                }
                return Err(Error::SteepSlope);
            },
        };
        let den: i128 = match (n as i128).checked_mul(squared_scale) {
            Some(d) => d,
            None => {
                proof {
                    assert(n * s * s == n * (s * s)) by (nonlinear_arith);
                }
                return Err(Error::SteepSlope);
            },
        };
        proof {
            assert(n * s * s == n * (s * s)) by (nonlinear_arith);
            assert(n * (s * s) > 0) by (nonlinear_arith)
                requires
                    n >= 1,
                    s > 0,
            ;
        }
        match Ratio::new(acc, den) {
            Some(r) => Ok(r),
            None => Err(Error::SteepSlope),
        }
    }

    fn unpredict(&self, y: i32) -> (r: Option<Ratio>) {
        proof {
            use_type_invariant(self);
        }
        if self.slope == 0 {
            return None;
        }
        let lifted: i128 = match (y as i128).checked_mul(self.scale) {
            Some(l) => l,
            None => {
                return None;
            },
        };
        let num: i128 = match lifted.checked_sub(self.offset) {
            Some(n) => n,
            None => {
                return None;
            },
        };
        if num == i128::MIN {
            return None;
        }
        if self.slope > 0 {
            Ratio::new(num, self.slope)
        } else {
            Ratio::new(-num, -self.slope)
        }
    }
}

/// A number of size 2^126 or more has a square beyond the 128-bit range.
pub proof fn lemma_large_square(e: int)
    requires
        e >= 0x4000_0000_0000_0000_0000_0000_0000_0000 || e
            <= -0x4000_0000_0000_0000_0000_0000_0000_0000,
    ensures
        e * e > i128::MAX,
{
    assert(e * e > 0x7fff_ffff_ffff_ffff_ffff_ffff_ffff_ffff) by (nonlinear_arith)
        requires
            e >= 0x4000_0000_0000_0000_0000_0000_0000_0000 || e
                <= -0x4000_0000_0000_0000_0000_0000_0000_0000,
    ;
}

} // verus!
