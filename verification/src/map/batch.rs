//! Training the model on a batch of points and putting the batch into the
//! map.
use crate::error::Error;
use crate::geometry::{Axis, Point};
use crate::geometry::helper::{convert_to_points, keys_of, ranks};
use crate::map::LearnedHashMap;
use crate::map::contents::{
    cleared, count, distinct, flat, padded, insert_all, lemma_empty_buckets, lemma_flat_points, lemma_insert_all_flat,
    lemma_insert_all_places, lemma_padded_sorted, lies_in, points, stands_at,
};
use crate::map::insert::put_grown;
use crate::map::table::MAX_ITEMS;
use crate::models::{firsts, fit_outcome, seconds, Model};
use crate::models::stats::MAX_COUNT;
use crate::models::trainer::{is_ranking_of, varies_more_in_x, Trainer};
use vstd::prelude::*;

verus! {

/// The buckets after the first `k` points of a sequence were put into them
/// one after the other, with the bucket indices that a model gives their
/// places.
pub open spec fn put_all_upto<M: Model>(
    t: Seq<Seq<Point>>,
    model: M,
    by_x: bool,
    s: Seq<Point>,
    k: int,
) -> Seq<Seq<Point>>
    decreases k,
{
    if k <= 0 {
        t
    } else {
        put_grown(put_all_upto(t, model, by_x, s, k - 1), model, by_x, s[k - 1])
    }
}

/// The buckets after the points of a sequence were put into them one after
/// the other, with the bucket indices that a model gives their places.
pub open spec fn put_all<M: Model>(
    t: Seq<Seq<Point>>,
    model: M,
    by_x: bool,
    s: Seq<Point>,
) -> Seq<Seq<Point>> {
    put_all_upto(t, model, by_x, s, s.len() as int)
}

/// The buckets after all points were taken out of them and put in again
/// with the bucket indices that a model gives their places.
pub open spec fn replaced<M: Model>(t: Seq<Seq<Point>>, model: M, by_x: bool) -> Seq<Seq<Point>> {
    put_all(cleared(t), model, by_x, flat(t))
}

impl<M: Model> LearnedHashMap<M> {
    /// Puts every stored point into the bucket that the hasher gives it now.
    /// The table grows where a bucket lies beyond it.
    #[verifier::loop_isolation(false)]
    fn rehash(&mut self)
        requires
            distinct(old(self).buckets()),
            old(self).item_count() == count(old(self).buckets()),
            old(self).item_count() <= MAX_ITEMS,
        ensures
            final(self).wf(),
            final(self)@ == old(self)@,
            final(self).item_count() == old(self).item_count(),
            final(self).hasher_spec().agrees_with(&old(self).hasher_spec()),
            final(self).buckets().len() >= old(self).buckets().len(),
            final(self).sorted(),
            final(self).buckets() == replaced(
                old(self).buckets(),
                old(self).hasher_spec().model,
                old(self).hasher_spec().sort_by_x,
            ),
    {
        let ghost before = self.buckets();
        let ghost model = self.hasher_spec().model;
        let ghost by_x = self.hasher_spec().sort_by_x;
        let taken: Vec<Point> = self.table.take_all();
        self.items = 0;
        proof {
            assert(self.buckets() =~= cleared(before)) by {
                assert forall|b: int| 0 <= b < before.len() implies #[trigger] self.buckets()[b]
                    == cleared(before)[b] by {
                    assert(self.buckets()[b] =~= cleared(before)[b]);
                }
            }
            lemma_empty_buckets(self.buckets());
            lemma_flat_points(before);
            lemma_insert_all_flat(before);
            assert forall|b: int, j: int, p: Point| #[trigger]
                stands_at(self.buckets(), b, j, p) implies (self.index())(p.pos()) == b by {}
        }
        let n: usize = taken.len();
        let mut i: usize = 0;
        while i < n
            invariant
                n == taken@.len(),
                i <= n,
                self.wf(),
                self.sorted(),
                self.item_count() == i,
                self.buckets() == put_all_upto(cleared(before), model, by_x, taken@, i as int),
                self.buckets().len() >= before.len(),
                self.hasher_spec().agrees_with(&old(self).hasher_spec()),
                self@ == insert_all(Map::<(i32, i32), usize>::empty(), taken@.take(i as int)),
            decreases n - i,
        {
            let p: Point = taken[i];
            proof {
                lemma_insert_all_places(
                    Map::<(i32, i32), usize>::empty(),
                    taken@.take(i as int),
                    p.pos(),
                );
                if lies_in(taken@.take(i as int), p.pos()) {
                    let h = choose|h: int|
                        0 <= h < taken@.take(i as int).len() && (#[trigger] taken@.take(
                            i as int,
                        )[h]).pos() == p.pos();
                    assert(taken@[h].pos() == taken@[i as int].pos());
                    assert(false);
                }
                assert(taken@.take(i as int + 1).drop_last() =~= taken@.take(i as int));
            }
            self.insert_inner(p);
            i += 1;
        }
        proof {
            assert(taken@.take(n as int) =~= taken@);
        }
    }

    /// Fits the model of the hasher to coordinates and their targets, and
    /// puts the stored points into the buckets that the fitted model gives
    /// them. A failed fit leaves the map as it was.
    pub fn model_fit(&mut self, xs: &[i32], ys: &[i32]) -> (r: Result<(), Error>)
        requires
            old(self).wf(),
        ensures
            final(self).wf(),
            final(self)@ == old(self)@,
            final(self).item_count() == old(self).item_count(),
            final(self).hasher_spec().sort_by_x == old(self).hasher_spec().sort_by_x,
            fit_outcome(
                old(self).hasher_spec().model,
                xs@,
                ys@,
                final(self).hasher_spec().model,
                r,
            ),
            r.is_err() ==> final(self).same_as(old(self)),
            r.is_ok() ==> final(self).sorted() && final(self).buckets() == replaced(
                old(self).buckets(),
                final(self).hasher_spec().model,
                final(self).hasher_spec().sort_by_x,
            ),
    {
        match self.hasher.model.fit(xs, ys) {
            Ok(()) => {
                self.rehash();
                Ok(())
            },
            Err(e) => {
                proof {
                    self.lemma_same_as(old(self));
                }
                Err(e)
            },
        }
    }

    /// Fits the model of the hasher to pairs of a coordinate and its target,
    /// and puts the stored points into the buckets that the fitted model
    /// gives them. A failed fit leaves the map as it was.
    pub fn model_fit_tuple(&mut self, data: &[(i32, i32)]) -> (r: Result<(), Error>)
        requires
            old(self).wf(),
        ensures
            final(self).wf(),
            final(self)@ == old(self)@,
            final(self).item_count() == old(self).item_count(),
            final(self).hasher_spec().sort_by_x == old(self).hasher_spec().sort_by_x,
            fit_outcome(
                old(self).hasher_spec().model,
                firsts(data@),
                seconds(data@),
                final(self).hasher_spec().model,
                r,
            ),
            r.is_err() ==> final(self).same_as(old(self)),
            r.is_ok() ==> final(self).sorted() && final(self).buckets() == replaced(
                old(self).buckets(),
                final(self).hasher_spec().model,
                final(self).hasher_spec().sort_by_x,
            ),
    {
        match self.hasher.model.fit_tuple(data) {
            Ok(()) => {
                self.rehash();
                Ok(())
            },
            Err(e) => {
                proof {
                    self.lemma_same_as(old(self));
                }
                Err(e)
            },
        }
    }

    /// Puts the points of a batch into the map, one after the other. The
    /// table first gets as many buckets as the batch has points, where it
    /// has fewer.
    #[verifier::loop_isolation(false)]
    fn batch_insert_inner(&mut self, ps: &[Point])
        requires
            old(self).wf(),
            old(self).item_count() + ps@.len() < MAX_ITEMS,
        ensures
            final(self).wf(),
            final(self)@ == insert_all(old(self)@, ps@),
            final(self).hasher_spec().agrees_with(&old(self).hasher_spec()),
            final(self).item_count() <= old(self).item_count() + ps@.len(),
            old(self).sorted() ==> final(self).sorted(),
            final(self).buckets() == put_all(
                padded(old(self).buckets(), ps@.len() as int),
                old(self).hasher_spec().model,
                old(self).hasher_spec().sort_by_x,
                ps@,
            ),
    {
        // Allocate table capacity before insert
        let n: usize = ps.len();
        let ghost model = self.hasher_spec().model;
        let ghost by_x = self.hasher_spec().sort_by_x;
        if n > self.table.capacity() {
            self.resize_with_capacity(n);
            proof {
                lemma_padded_sorted(old(self).buckets(), n as int, n as int, by_x);
            }
        } else {
            proof {
                assert(padded(old(self).buckets(), n as int) =~= old(self).buckets());
            }
        }
        let ghost sized = self.buckets();
        let mut i: usize = 0;
        while i < n
            invariant
                n == ps@.len(),
                i <= n,
                self.wf(),
                self.buckets() == put_all_upto(sized, model, by_x, ps@, i as int),
                old(self).sorted() ==> self.sorted(),
                self.item_count() <= old(self).item_count() + i,
                self.hasher_spec().agrees_with(&old(self).hasher_spec()),
                self@ == insert_all(old(self)@, ps@.take(i as int)),
            decreases n - i,
        {
            proof {
                assert(ps@.take(i as int + 1).drop_last() =~= ps@.take(i as int));
            }
            self.insert_inner(ps[i]);
            i += 1;
        }
        proof {
            assert(ps@.take(n as int) =~= ps@);
        }
    }

    /// Trains the model on a batch of points and puts them into the map.
    ///
    /// The points are ordered along the axis on which they vary more and
    /// numbered by their rank, and the model is fitted to their coordinates
    /// on that axis and their ranks: given a coordinate, it estimates its
    /// rank among the points. The points already stored move to the buckets
    /// that the fitted model gives them. A batch that the model cannot be
    /// fitted to leaves the map as it was.
    pub fn batch_insert(&mut self, ps: &mut [Point]) -> (r: Result<(), Error>)
        requires
            old(self).wf(),
            old(self).item_count() + old(ps)@.len() < MAX_ITEMS,
        ensures
            final(self).wf(),
            batch_outcome(*old(self), old(ps)@, *final(self), final(ps)@, r),
    {
        // Select suitable axis for training
        let trainer: Trainer = match Trainer::with_points(ps) {
            Ok(trainer) => trainer,
            Err(e) => {
                return Err(e);
            },
        };
        // Fit the data into model
        match trainer.train(&mut self.hasher.model) {
            Ok(_) => {},
            Err(e) => {
                proof {
                    self.lemma_same_as(old(self));
                }
                return Err(e);
            },
        }
        match trainer.axis() {
            Axis::X => self.hasher.set_sort_by_x(true),
            _ => self.hasher.set_sort_by_x(false),
        }
        self.rehash();
        // Batch insert into the map
        self.batch_insert_inner(ps);
        Ok(())
    }
}

impl<M: Model + Default> LearnedHashMap<M> {
    /// A map over the default model, trained on the points at the given
    /// coordinate pairs and holding them, with the points as ordered and
    /// numbered by the training.
    pub fn with_data(data: &[[i32; 2]]) -> (r: Result<(Self, Vec<Point>), Error>)
        requires
            data@.len() < MAX_ITEMS,
        ensures
            exists|unfit: M|
                call_ensures(M::default, (), unfit) && #[trigger] trained_from(
                    unfit,
                    points_of(data@),
                    r,
                ),
    {
        let mut map: LearnedHashMap<M> = LearnedHashMap::with_capacity(data.len());
        let mut ps: Vec<Point> = match convert_to_points(data) {
            Some(ps) => ps,
            None => Vec::new(),
        };
        let ghost unfit = map.hasher_spec().model;
        let ghost none = map.buckets();
        proof {
            assert(none =~= Seq::<Seq<Point>>::empty());
            assert(cleared(none) =~= none);
            assert(flat(none) =~= Seq::<Point>::empty());
            assert(forall|model: M, by_x: bool| #[trigger]
                replaced(none, model, by_x) == Seq::<Seq<Point>>::empty());
        }
        let r = match map.batch_insert(ps.as_mut_slice()) {
            Ok(()) => Ok((map, ps)),
            Err(err) => Err(err),
        };
        proof {
            if data@.len() <= MAX_COUNT {
                assert(is_ranking_of(ps@, points_of(data@), varies_more_in_x(points_of(data@)))
                    && trained_on(unfit, ps@, varies_more_in_x(points_of(data@)), r));
            }
            assert(trained_from(unfit, points_of(data@), r));
        }
        r
    }
}

/// Whether the making of a map from the points `given`, over the model
/// `unfit`, ended as it has to.
///
/// More points than the scalar type can count fail as `EmptyVal`. Otherwise
/// the points are ranked along the axis on which they vary more, and the
/// model is fitted to the coordinates of the ranked points on that axis and
/// their ranks. Where the fit fails, so does the making. Where it succeeds
/// the map has the fitted model, hashes by that axis and holds the points,
/// which are given back ranked.
pub open spec fn trained_from<M: Model>(
    unfit: M,
    given: Seq<Point>,
    r: Result<(LearnedHashMap<M>, Vec<Point>), Error>,
) -> bool {
    let by_x = varies_more_in_x(given);
    if given.len() > MAX_COUNT {
        r matches Err(e) && e == Error::EmptyVal
    } else {
        exists|ranked: Seq<Point>| #[trigger]
            is_ranking_of(ranked, given, by_x) && trained_on(unfit, ranked, by_x, r)
    }
}

/// Whether the making of a map from ranked points, over the model `unfit`,
/// ended as it has to: with the outcome of the fit of the model to the
/// coordinates of the points and their ranks.
pub open spec fn trained_on<M: Model>(
    unfit: M,
    ranked: Seq<Point>,
    by_x: bool,
    r: Result<(LearnedHashMap<M>, Vec<Point>), Error>,
) -> bool {
    match unfit.spec_fit(keys_of(ranked, by_x), ranks(ranked.len())) {
        Ok(fitted) => {
            &&& r matches Ok(out)
            &&& out.0.wf()
            &&& out.0.hasher_spec().model == fitted
            &&& out.0.hasher_spec().sort_by_x == by_x
            &&& out.1@ == ranked
            &&& out.0@ == insert_all(Map::<(i32, i32), usize>::empty(), ranked)
            &&& out.0.sorted()
            &&& out.0.buckets() == put_all(
                padded(Seq::<Seq<Point>>::empty(), ranked.len() as int),
                fitted,
                by_x,
                ranked,
            )
        },
        Err(e) => r matches Err(f) && f == e,
    }
}

/// The points at the given coordinate pairs, each with its index as its
/// identifier.
pub open spec fn points_of(data: Seq<[i32; 2]>) -> Seq<Point> {
    Seq::new(data.len(), |i: int| Point { id: i as usize, x: data[i]@[0], y: data[i]@[1] })
}

/// Whether a batch insertion into `before` of the points `given` ended as it
/// has to, with the map `after`, the points as `ranked` and the result `r`.
///
/// More points than the scalar type can count fail as `EmptyVal` and change
/// nothing. Otherwise the points are ranked along the axis on which they vary
/// more, and the model is fitted to the coordinates of the ranked points on
/// that axis and their ranks. Where the fit fails, so does the
/// insertion, and the map is as before. Where it succeeds the map has the
/// fitted model, hashes by that axis, and holds what it held and the ranked
/// points, each bucket in the order of the coordinates on that axis: the
/// points that it held were put in again with the new bucket indices, the
/// table got at least as many buckets as the batch has points, and the
/// ranked points were put in one after the other.
pub open spec fn batch_outcome<M: Model>(
    before: LearnedHashMap<M>,
    given: Seq<Point>,
    after: LearnedHashMap<M>,
    ranked: Seq<Point>,
    r: Result<(), Error>,
) -> bool {
    let by_x = varies_more_in_x(given);
    if given.len() > MAX_COUNT {
        r == Err::<(), Error>(Error::EmptyVal) && ranked == given && after == before
    } else {
        &&& is_ranking_of(ranked, given, by_x)
        &&& match before.hasher_spec().model.spec_fit(keys_of(ranked, by_x), ranks(given.len())) {
            Ok(fitted) => {
                &&& r.is_ok()
                &&& after.hasher_spec().model == fitted
                &&& after.hasher_spec().sort_by_x == by_x
                &&& after@ == insert_all(before@, ranked)
                &&& after.sorted()
                &&& after.buckets() == put_all(
                    padded(replaced(before.buckets(), fitted, by_x), ranked.len() as int),
                    fitted,
                    by_x,
                    ranked,
                )
            },
            Err(e) => r == Err::<(), Error>(e) && after.same_as(&before),
        }
    }
}

} // verus!
