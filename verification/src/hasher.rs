//! The learned hasher: bucket indices from the estimates of a model.
use crate::models::{Model, Ratio, Rational};
use crate::models::linear::{lemma_falling_line, lemma_rising_line, LinearModel};
use crate::scalar::scalar_from_u64;
use vstd::prelude::*;

verus! {

/// The largest bucket index that a hasher gives: the largest scalar.
pub const MAX_HASH: u64 = 0x7fff_ffff;

/// The bucket index of an estimate: its floor, held to `0..=MAX_HASH`.
pub open spec fn bucket_index(estimate: Rational) -> u64 {
    let f = estimate.floor();
    if f < 0 {
        0
    } else if f > MAX_HASH {
        MAX_HASH
    } else {
        f as u64
    }
}

/// The bucket index that a model gives a place, by the `x` coordinate of the
/// place or else by `y`.
pub open spec fn place_hash<M: Model>(model: M, by_x: bool, place: (i32, i32)) -> int {
    bucket_index(
        model.spec_predict(
            if by_x {
                place.0
            } else {
                place.1
            },
        ),
    ) as int
}

/// LearnedHasher takes a model and produces bucket indices from it: the
/// model's estimate of the rank of a coordinate is the index of its bucket.
#[derive(Debug)]
pub struct LearnedHasher<M> {
    /// The index computed last.
    pub state: u64,
    /// The model that estimates ranks.
    pub model: M,
    /// Whether points are hashed by their `x` coordinate, or else by `y`.
    pub sort_by_x: bool,
}

impl<M: Model + Clone> Clone for LearnedHasher<M> {
    fn clone(&self) -> (h: Self)
        ensures
            h.state == self.state,
            h.sort_by_x == self.sort_by_x,
            cloned(self.model, h.model),
    {
        LearnedHasher { state: self.state, model: self.model.clone(), sort_by_x: self.sort_by_x }
    }
}

impl<M: Model + Default> Default for LearnedHasher<M> {
    fn default() -> (h: Self)
        ensures
            h.state == 0,
            h.sort_by_x,
            call_ensures(M::default, (), h.model),
    {
        LearnedHasher { state: 0, model: M::default(), sort_by_x: true }
    }
}

impl<M: Model + Default> LearnedHasher<M> {
    /// A hasher over the default model, by the `x` coordinate.
    pub fn new() -> (h: Self)
        ensures
            h.state == 0,
            h.sort_by_x,
            call_ensures(M::default, (), h.model),
    {
        LearnedHasher { state: 0, model: M::default(), sort_by_x: true }
    }
}

impl<M: Model> LearnedHasher<M> {
    /// The bucket index of a coordinate.
    pub open spec fn spec_hash(&self, c: i32) -> u64 {
        bucket_index(self.model.spec_predict(c))
    }

    /// The coordinate by which the hasher takes a point at `(x, y)`.
    pub open spec fn key(&self, x: i32, y: i32) -> i32 {
        if self.sort_by_x {
            x
        } else {
            y
        }
    }

    /// Whether a larger coordinate never has a smaller bucket index.
    pub open spec fn is_monotonic(&self) -> bool {
        forall|a: i32, b: i32| a <= b ==> self.spec_hash(a) <= self.spec_hash(b)
    }

    /// The smallest coordinate of the bucket with index `hash`: the model's
    /// inverse at `hash`, rounded up, where the hasher confirms that the
    /// bucket begins there. Without that there is none.
    pub open spec fn boundary(&self, hash: u64) -> Option<int> {
        if hash > MAX_HASH {
            None
        } else {
            match self.model.spec_unpredict(hash as i32) {
                None => None,
                Some(q) => {
                    let c = q.ceil();
                    if i32::MIN < c <= i32::MAX && self.spec_hash((c - 1) as i32) < hash && hash
                        <= self.spec_hash(c as i32) {
                        Some(c)
                    } else {
                        None
                    }
                },
            }
        }
    }

    /// The square of how far the coordinate `at` is from the buckets on one
    /// side of where the bucket with index `hash` begins: leftwards those
    /// before it, else that bucket and those after it. Zero where the
    /// beginning is not known, or `at` lies on that side itself.
    pub open spec fn axis_bound(&self, at: i32, hash: u64, leftwards: bool) -> int {
        match self.boundary(hash) {
            None => 0,
            Some(c) => if leftwards {
                if at >= c {
                    (at - c + 1) * (at - c + 1)
                } else {
                    0
                }
            } else {
                if at < c {
                    (c - at) * (c - at)
                } else {
                    0
                }
            },
        }
    }

    /// Whether the bounds hold: no coordinate of the buckets on one side of
    /// where a bucket begins is nearer to a coordinate than the bound for
    /// that side.
    pub open spec fn bounds_hold(&self) -> bool {
        forall|at: i32, hash: u64, leftwards: bool, x: i32|
            #![trigger self.axis_bound(at, hash, leftwards), self.spec_hash(x)]
            (if leftwards {
                self.spec_hash(x) < hash
            } else {
                self.spec_hash(x) >= hash
            }) ==> (at - x) * (at - x) >= self.axis_bound(at, hash, leftwards)
    }

    /// With a monotonic hasher the bounds hold.
    pub proof fn lemma_monotonic_bounds_hold(&self)
        requires
            self.is_monotonic(),
        ensures
            self.bounds_hold(),
    {
        assert forall|at: i32, hash: u64, leftwards: bool, x: i32|
            #![trigger self.axis_bound(at, hash, leftwards), self.spec_hash(x)]
            (if leftwards {
                self.spec_hash(x) < hash
            } else {
                self.spec_hash(x) >= hash
            }) implies (at - x) * (at - x) >= self.axis_bound(at, hash, leftwards) by {
            self.lemma_axis_bound(at, hash, leftwards, x);
        }
    }

    /// With a monotonic hasher no coordinate of the buckets on one side is
    /// nearer to `at` than the bound for that side.
    pub proof fn lemma_axis_bound(&self, at: i32, hash: u64, leftwards: bool, x: i32)
        requires
            self.is_monotonic(),
            leftwards ==> self.spec_hash(x) < hash,
            !leftwards ==> self.spec_hash(x) >= hash,
        ensures
            (at - x) * (at - x) >= self.axis_bound(at, hash, leftwards),
    {
        let far = at - x;
        assert(far * far >= 0) by (nonlinear_arith);
        match self.boundary(hash) {
            None => {},
            Some(c) => {
                if leftwards {
                    // x lies before the boundary: at or after it the hash would be too large
                    if x >= c {
                        assert(self.spec_hash(c as i32) <= self.spec_hash(x));
                    }
                    if at >= c {
                        let near = at - c + 1;
                        assert(far * far >= near * near) by (nonlinear_arith)
                            requires
                                far >= near,
                                near >= 1,
                        ;
                    }
                } else {
                    if x < c {
                        assert(self.spec_hash(x) <= self.spec_hash((c - 1) as i32));
                    }
                    if at < c {
                        let near = c - at;
                        assert(far * far >= near * near) by (nonlinear_arith)
                            requires
                                -far >= near,
                                near >= 1,
                        ;
                    }
                }
            },
        }
    }

    /// Whether two hashers give every coordinate pair the same bucket index.
    pub open spec fn agrees_with(&self, other: &LearnedHasher<M>) -> bool {
        self.model == other.model && self.sort_by_x == other.sort_by_x
    }

    /// A hasher over the given model, by the `x` coordinate.
    pub fn with_model(model: M) -> (h: Self)
        ensures
            h == (LearnedHasher { state: 0, model, sort_by_x: true }),
    {
        LearnedHasher { state: 0, model, sort_by_x: true }
    }

    /// The index computed last.
    pub fn finish(&self) -> (h: u64)
        ensures
            h == self.state,
    {
        self.state
    }

    /// Whether points are hashed by their `x` coordinate.
    pub fn sort_by_x(&self) -> (b: bool)
        ensures
            b == self.sort_by_x,
    {
        self.sort_by_x
    }

    /// Sets whether points are hashed by their `x` coordinate.
    pub fn set_sort_by_x(&mut self, x: bool)
        ensures
            *final(self) == (LearnedHasher { sort_by_x: x, ..*old(self) }),
    {
        self.sort_by_x = x;
    }

    /// Computes the bucket index of a coordinate and keeps it as the state.
    pub fn write(&mut self, data: &i32)
        ensures
            *final(self) == (LearnedHasher { state: old(self).spec_hash(*data), ..*old(self) }),
            final(self).state <= MAX_HASH,
    {
        let estimate: Ratio = self.model.predict(*data);
        let f: i128 = estimate.floor();
        self.state = if f < 0 {
            0
        } else if f > MAX_HASH as i128 {
            MAX_HASH
        } else {
            f as u64
        };
    }

    /// The coordinate that the model gives for a bucket index, where it
    /// gives one.
    pub fn unwrite(&mut self, hash: u64) -> (r: Option<Ratio>)
        ensures
            *final(self) == *old(self),
            hash > MAX_HASH ==> r.is_none(),
            hash <= MAX_HASH ==> r.is_some() == old(self).model.spec_unpredict(hash as i32).is_some(),
            r matches Some(q) ==> old(self).model.spec_unpredict(hash as i32) == Some(q@),
    {
        match scalar_from_u64(hash) {
            Some(y) => self.model.unpredict(y),
            None => None,
        }
    }
}

/// The bucket index of a coordinate.
pub fn make_hash<M: Model>(hasher: &mut LearnedHasher<M>, p: &i32) -> (h: u64)
    ensures
        h == old(hasher).spec_hash(*p),
        h <= MAX_HASH,
        *final(hasher) == (LearnedHasher { state: h, ..*old(hasher) }),
{
    hasher.write(p);
    hasher.finish()
}

/// The bucket index of a coordinate pair: that of the coordinate by which
/// the hasher sorts.
pub fn make_hash_point<M: Model>(hasher: &mut LearnedHasher<M>, p: &[i32; 2]) -> (h: u64)
    ensures
        h == old(hasher).spec_hash(old(hasher).key(p@[0], p@[1])),
        h <= MAX_HASH,
        *final(hasher) == (LearnedHasher { state: h, ..*old(hasher) }),
{
    if hasher.sort_by_x {
        make_hash(hasher, &p[0])
    } else {
        make_hash(hasher, &p[1])
    }
}

/// The reverse of hashing: the coordinate that the model gives for a bucket
/// index, where it gives one.
pub fn unhash<M: Model>(hasher: &mut LearnedHasher<M>, hash: u64) -> (r: Option<Ratio>)
    ensures
        *final(hasher) == *old(hasher),
        hash > MAX_HASH ==> r.is_none(),
        hash <= MAX_HASH ==> r.is_some() == old(hasher).model.spec_unpredict(hash as i32).is_some(),
        r matches Some(q) ==> old(hasher).model.spec_unpredict(hash as i32) == Some(q@),
{
    hasher.unwrite(hash)
}

/// A hasher over a line that does not fall is monotonic.
pub proof fn lemma_rising_line_is_monotonic(hasher: LearnedHasher<LinearModel>)
    requires
        hasher.model@.scale > 0,
        hasher.model@.slope >= 0,
    ensures
        hasher.is_monotonic(),
{
    assert forall|a: i32, b: i32| a <= b implies hasher.spec_hash(a) <= hasher.spec_hash(b) by {
        lemma_rising_line(hasher.model@, a as int, b as int);
    }
}

/// The bounds of a hasher over a line hold, whatever the line: where it
/// rises the hasher is monotonic, and where it is level or falls no bucket
/// has a confirmed beginning, so that every bound is zero.
pub proof fn lemma_line_bounds_hold(hasher: LearnedHasher<LinearModel>)
    requires
        hasher.model@.scale > 0,
    ensures
        hasher.bounds_hold(),
{
    let line = hasher.model@;
    if line.slope > 0 {
        lemma_rising_line_is_monotonic(hasher);
        hasher.lemma_monotonic_bounds_hold();
    } else {
        assert forall|at: i32, hash: u64, leftwards: bool, x: i32|
            #![trigger hasher.axis_bound(at, hash, leftwards), hasher.spec_hash(x)]
            (if leftwards {
                hasher.spec_hash(x) < hash
            } else {
                hasher.spec_hash(x) >= hash
            }) implies (at - x) * (at - x) >= hasher.axis_bound(at, hash, leftwards) by {
            let far = at - x;
            assert(far * far >= 0) by (nonlinear_arith);
            if hasher.boundary(hash).is_some() {
                let c = hasher.boundary(hash).unwrap();
                lemma_falling_line(line, c - 1, c);
                assert(false);
            }
        }
    }
}

} // verus!
