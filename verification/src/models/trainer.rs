//! The trainer: it chooses the axis, ranks the points and prepares the
//! training data.
use crate::error::Error;
use crate::geometry::helper::{
    extract_id, extract_x, extract_y, is_stable_sort_of, keys_of, ranks, renumbered, reset_id,
    sort_by_x, sort_by_y, xs_of, ys_of,
};
use crate::geometry::point::{Axis, Point};
use crate::models::{Model, Ratio};
use crate::models::stats::{spread, variance, MAX_COUNT};
use vstd::prelude::*;

verus! {

/// Whether the `x` coordinates of the points vary more than the `y`
/// coordinates: then the points are ordered and hashed by `x`.
pub open spec fn varies_more_in_x(ps: Seq<Point>) -> bool {
    spread(xs_of(ps)) > spread(ys_of(ps))
}

/// Whether `ranked` holds the points of `ps` ordered by their coordinate on
/// one axis, those of equal coordinate in the order that they have in `ps`,
/// each with its rank in that order as its identifier.
pub open spec fn is_ranking_of(ranked: Seq<Point>, ps: Seq<Point>, by_x: bool) -> bool {
    exists|sorted: Seq<Point>| #[trigger]
        is_stable_sort_of(sorted, ps, by_x) && ranked == renumbered(sorted)
}

/// The points at the places `(xs[i], ys[i])`, each with its index as its
/// identifier.
pub open spec fn points_at(xs: Seq<i32>, ys: Seq<i32>) -> Seq<Point> {
    Seq::new(xs.len(), |i: int| Point { id: i as usize, x: xs[i], y: ys[i] })
}

/// The axis that stands for a choice of `x` or `y`.
pub open spec fn axis_of(by_x: bool) -> Axis {
    if by_x {
        Axis::X
    } else {
        Axis::Y
    }
}

/// Prepares the data that a model is trained on: the coordinates of the
/// points on the axis on which they vary more, and their ranks.
#[derive(Debug, Clone)]
pub struct Trainer {
    /// The training inputs: coordinates.
    pub train_x: Vec<i32>,
    /// The training targets: ranks.
    pub train_y: Vec<i32>,
    /// The axis that the coordinates were taken from.
    pub axis: Axis,
}

impl Default for Trainer {
    fn default() -> (t: Self)
        ensures
            t.train_x@.len() == 0,
            t.train_y@.len() == 0,
            t.axis == Axis::X,
    {
        Trainer { train_x: Vec::new(), train_y: Vec::new(), axis: Axis::X }
    }
}

impl Trainer {
    /// A trainer without data, on the `x` axis.
    pub fn new() -> (t: Self)
        ensures
            t.train_x@.len() == 0,
            t.train_y@.len() == 0,
            t.axis == Axis::X,
    {
        Trainer { train_x: Vec::new(), train_y: Vec::new(), axis: Axis::X }
    }

    /// The training inputs.
    pub fn train_x(&self) -> (xs: &Vec<i32>)
        ensures
            *xs == self.train_x,
    {
        &self.train_x
    }

    /// The training targets.
    pub fn train_y(&self) -> (ys: &Vec<i32>)
        ensures
            *ys == self.train_y,
    {
        &self.train_y
    }

    /// The axis that the training inputs were taken from.
    pub fn axis(&self) -> (axis: Axis)
        ensures
            axis == self.axis,
    {
        self.axis
    }

    pub fn set_train_x(&mut self, xs: Vec<i32>)
        ensures
            *final(self) == (Trainer { train_x: xs, ..*old(self) }),
    {
        self.train_x = xs
    }

    pub fn set_train_y(&mut self, ys: Vec<i32>)
        ensures
            *final(self) == (Trainer { train_y: ys, ..*old(self) }),
    {
        self.train_y = ys
    }

    pub fn set_axis(&mut self, axis: Axis)
        ensures
            *final(self) == (Trainer { axis, ..*old(self) }),
    {
        self.axis = axis
    }

    /// Fits the given model to the training data.
    ///
    /// Gives the fitted model on success; a model that could not be fitted
    /// is left as it was.
    pub fn train<'a, M: Model>(&self, model: &'a mut M) -> (r: Result<&'a M, Error>)
        ensures
            match old(model).spec_fit(self.train_x@, self.train_y@) {
                Ok(fitted) => r == Ok::<&'a M, Error>(&fitted) && *final(model) == fitted,
                Err(e) => r == Err::<&'a M, Error>(e) && *final(model) == *old(model),
            },
    {
        match model.fit(self.train_x.as_slice(), self.train_y.as_slice()) {
            Ok(()) => Ok(model),
            Err(e) => Err(e),
        }
    }

    /// A trainer prepared from the coordinates of points, with the points
    /// themselves, ordered and ranked.
    pub fn with_data(xs: Vec<i32>, ys: Vec<i32>) -> (r: Result<(Self, Vec<Point>), Error>)
        ensures
            r.is_ok() <==> 0 < xs@.len() == ys@.len() && xs@.len() <= MAX_COUNT,
            r == Err::<(Self, Vec<Point>), Error>(Error::EmptyVal) <==> (xs@.len() == 0 || (xs@.len()
                == ys@.len() && xs@.len() > MAX_COUNT)),
            r == Err::<(Self, Vec<Point>), Error>(Error::DiffLen) <==> (xs@.len() != 0 && xs@.len()
                != ys@.len()),
            r matches Ok(out) ==> {
                let by_x = varies_more_in_x(points_at(xs@, ys@));
                &&& is_ranking_of(out.1@, points_at(xs@, ys@), by_x)
                &&& out.0.axis == axis_of(by_x)
                &&& out.0.train_x@ == keys_of(out.1@, by_x)
                &&& out.0.train_y@ == ranks(xs@.len())
            },
    {
        let mut trainer = Trainer::new();
        match trainer.preprocess(xs, ys) {
            Ok(data) => Ok((trainer, data)),
            Err(e) => Err(e),
        }
    }

    /// Takes the coordinates of points and prepares the trainer from them.
    ///
    /// Gives the points ordered along the axis on which they vary more, each
    /// with its rank as its identifier. The training inputs are the
    /// coordinates of the ordered points on that axis, the targets their
    /// ranks. It fails only for no coordinates, for coordinates of different
    /// counts and for more than the scalar type can count; a trainer that
    /// fails is left as it was.
    pub fn preprocess(&mut self, xs: Vec<i32>, ys: Vec<i32>) -> (r: Result<Vec<Point>, Error>)
        ensures
            r.is_ok() <==> 0 < xs@.len() == ys@.len() && xs@.len() <= MAX_COUNT,
            r == Err::<Vec<Point>, Error>(Error::EmptyVal) <==> (xs@.len() == 0 || (xs@.len()
                == ys@.len() && xs@.len() > MAX_COUNT)),
            r == Err::<Vec<Point>, Error>(Error::DiffLen) <==> (xs@.len() != 0 && xs@.len()
                != ys@.len()),
            r.is_err() ==> *final(self) == *old(self),
            r matches Ok(ps) ==> {
                let by_x = varies_more_in_x(points_at(xs@, ys@));
                &&& is_ranking_of(ps@, points_at(xs@, ys@), by_x)
                &&& final(self).axis == axis_of(by_x)
                &&& final(self).train_x@ == keys_of(ps@, by_x)
                &&& final(self).train_y@ == ranks(xs@.len())
            },
    {
        if xs.len() == 0 {
            return Err(Error::EmptyVal);
        }
        if xs.len() != ys.len() {
            return Err(Error::DiffLen);
        }
        let n: usize = xs.len();
        if n > MAX_COUNT {
            return Err(Error::EmptyVal);
        }
        let mut ps: Vec<Point> = Vec::with_capacity(n);
        let mut i: usize = 0;
        while i < n
            invariant
                n == xs@.len(),
                n == ys@.len(),
                i <= n,
                ps@ == points_at(xs@, ys@).take(i as int),
            decreases n - i,
        {
            ps.push(Point { id: i, x: xs[i], y: ys[i] });
            i += 1;
            assert(ps@ =~= points_at(xs@, ys@).take(i as int));
        }
        assert(ps@ =~= points_at(xs@, ys@));
        assert(xs@ =~= xs_of(ps@));
        assert(ys@ =~= ys_of(ps@));
        let ghost before = ps@;
        // train on the coordinates with the larger variance
        let x_variance: Ratio = variance(xs.as_slice());
        let y_variance: Ratio = variance(ys.as_slice());
        if x_variance.num() > y_variance.num() {
            sort_by_x(ps.as_mut_slice());
            let ghost sorted = ps@;
            reset_id(ps.as_mut_slice());
            assert(is_stable_sort_of(sorted, before, true) && ps@ == renumbered(sorted));
            self.set_axis(Axis::X);
            self.set_train_x(extract_x(ps.as_slice()));
        } else {
            sort_by_y(ps.as_mut_slice());
            let ghost sorted = ps@;
            reset_id(ps.as_mut_slice());
            assert(is_stable_sort_of(sorted, before, false) && ps@ == renumbered(sorted));
            self.set_axis(Axis::Y);
            self.set_train_x(extract_y(ps.as_slice()));
        }
        match extract_id(ps.as_slice()) {
            Some(ids) => {
                assert(ids@ =~= ranks(n as nat));
                self.set_train_y(ids);
            },
            None => {
                assert(false);
            },
        }
        Ok(ps)
    }

    /// A trainer prepared from points, which are ordered and ranked in place.
    ///
    /// The points are ordered along the axis on which they vary more, and
    /// each gets its rank as its identifier. The training inputs are the
    /// coordinates of the ordered points on that axis, the targets their
    /// ranks: the two run in parallel. Points that are more than the scalar
    /// type can count are left as they are.
    pub fn with_points(ps: &mut [Point]) -> (r: Result<Self, Error>)
        ensures
            r.is_err() <==> old(ps)@.len() > MAX_COUNT,
            r.is_err() ==> r == Err::<Self, Error>(Error::EmptyVal) && final(ps)@ == old(ps)@,
            r matches Ok(t) ==> {
                let by_x = varies_more_in_x(old(ps)@);
                &&& is_ranking_of(final(ps)@, old(ps)@, by_x)
                &&& t.axis == axis_of(by_x)
                &&& t.train_x@ == keys_of(final(ps)@, by_x)
                &&& t.train_y@ == ranks(old(ps)@.len())
            },
    {
        if ps.len() > MAX_COUNT {
            return Err(Error::EmptyVal);
        }
        let ghost before = ps@;
        let px: Vec<i32> = extract_x(ps);
        let py: Vec<i32> = extract_y(ps);
        let x_variance: Ratio = variance(px.as_slice());
        let y_variance: Ratio = variance(py.as_slice());
        // train on the coordinates with the larger variance
        let by_x: bool = x_variance.num() > y_variance.num();
        if by_x {
            sort_by_x(ps);
        } else {
            sort_by_y(ps);
        }
        let ghost sorted = ps@;
        reset_id(ps);
        assert(is_stable_sort_of(sorted, before, by_x) && ps@ == renumbered(sorted));
        let train_y: Vec<i32> = match extract_id(ps) {
            Some(ids) => ids,
            None => {
                assert(false);
                Vec::new()
            },
        };
        assert(train_y@ =~= ranks(before.len()));
        if by_x {
            Ok(Trainer { train_x: extract_x(ps), train_y, axis: Axis::X })
        } else {
            Ok(Trainer { train_x: extract_y(ps), train_y, axis: Axis::Y })
        }
    }
}

} // verus!
