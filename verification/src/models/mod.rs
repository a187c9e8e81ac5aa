//! Regression models and what they are fitted with: statistics, the linear
//! model, and the trainer that prepares the data.
pub mod linear;
pub mod ratio;
pub mod rising;
pub mod stats;
pub mod trainer;

pub use linear::{linear_regression, linear_regression_tuple, slr, RationalLine, LinearModel};
pub use ratio::{Ratio, Rational};
pub use stats::{covariance, mean, mean_squared_error, variance};
pub use trainer::Trainer;

use crate::error::Error;
use vstd::prelude::*;

verus! {

/// The first components of a sequence of pairs.
pub open spec fn firsts(xys: Seq<(i32, i32)>) -> Seq<i32> {
    Seq::new(xys.len(), |i: int| xys[i].0)
}

/// The second components of a sequence of pairs.
pub open spec fn seconds(xys: Seq<(i32, i32)>) -> Seq<i32> {
    Seq::new(xys.len(), |i: int| xys[i].1)
}

/// Whether a fit of `before` to the data ended as it has to: with the fitted
/// model and success, or with the model as it was and the reason of the
/// failure.
pub open spec fn fit_outcome<M: Model>(
    before: M,
    xs: Seq<i32>,
    ys: Seq<i32>,
    after: M,
    r: Result<(), Error>,
) -> bool {
    match before.spec_fit(xs, ys) {
        Ok(fitted) => r.is_ok() && after == fitted,
        Err(e) => r == Err::<(), Error>(e) && after == before,
    }
}

/// What a regression model offers: it is fitted to pairs of a coordinate and
/// a target, and then estimates the target of a coordinate, or the coordinate
/// of a target.
pub trait Model: Sized {
    /// The model's estimate of the target at coordinate `x`.
    spec fn spec_predict(&self, x: i32) -> Rational;

    /// The coordinate at which the estimate is `y`, where the model has
    /// exactly one and can represent it.
    spec fn spec_unpredict(&self, y: i32) -> Option<Rational>;

    /// What fitting the model to coordinates and their targets gives: the
    /// fitted model, or the reason why there is none.
    spec fn spec_fit(&self, xs: Seq<i32>, ys: Seq<i32>) -> Result<Self, Error>;

    /// The name of the kind of model.
    fn name(&self) -> String;

    /// Fits the model to coordinates and their targets. A failed fit leaves
    /// the model as it was.
    fn fit(&mut self, xs: &[i32], ys: &[i32]) -> (r: Result<(), Error>)
        ensures
            match old(self).spec_fit(xs@, ys@) {
                Ok(fitted) => r.is_ok() && *final(self) == fitted,
                Err(e) => r == Err::<(), Error>(e) && *final(self) == *old(self),
            },
            xs@.len() == 0 || ys@.len() == 0 ==> r == Err::<(), Error>(Error::EmptyVal),
            xs@.len() != 0 && ys@.len() != 0 && xs@.len() != ys@.len() ==> r == Err::<(), Error>(
                Error::DiffLen,
            ),
    ;

    /// Fits the model to pairs of a coordinate and its target. A failed fit
    /// leaves the model as it was.
    fn fit_tuple(&mut self, xys: &[(i32, i32)]) -> (r: Result<(), Error>)
        ensures
            match old(self).spec_fit(firsts(xys@), seconds(xys@)) {
                Ok(fitted) => r.is_ok() && *final(self) == fitted,
                Err(e) => r == Err::<(), Error>(e) && *final(self) == *old(self),
            },
            xys@.len() == 0 ==> r == Err::<(), Error>(Error::EmptyVal),
    ;

    /// The estimate of the target at coordinate `x`.
    fn predict(&self, x: i32) -> (r: Ratio)
        ensures
            r@ == self.spec_predict(x),
    ;

    /// The estimates at each of the coordinates, in their order.
    fn batch_predict(&self, xs: &[i32]) -> (r: Vec<Ratio>)
        ensures
            r@.len() == xs@.len(),
            forall|i: int| 0 <= i < xs@.len() ==> (#[trigger] r@[i])@ == self.spec_predict(xs@[i]),
    ;

    /// The mean squared difference between the targets and the estimates at
    /// the coordinates.
    fn evaluate(&self, x_test: &[i32], y_test: &[i32]) -> (r: Result<Ratio, Error>)
        ensures
            x_test@.len() != y_test@.len() ==> r == Err::<Ratio, Error>(Error::DiffLen),
    ;

    /// The coordinate at which the estimate is `y`.
    fn unpredict(&self, y: i32) -> (r: Option<Ratio>)
        ensures
            r.is_some() == self.spec_unpredict(y).is_some(),
            r matches Some(q) ==> self.spec_unpredict(y) == Some(q@),
    ;
}

} // verus!
