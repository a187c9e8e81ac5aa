//! Walks over the points of a map.
use crate::geometry::Point;
use crate::map::LearnedHashMap;
use crate::map::contents::{flat, flat_upto};
use crate::models::Model;
use vstd::prelude::*;

verus! {

/// The points from position `at` of bucket `bucket` on, bucket after bucket.
pub open spec fn rest_from(t: Seq<Seq<Point>>, bucket: int, at: int) -> Seq<Point>
    decreases t.len() - bucket,
{
    if bucket >= t.len() || bucket < 0 {
        Seq::<Point>::empty()
    } else {
        t[bucket].skip(at) + rest_from(t, bucket + 1, 0)
    }
}

/// The points of the buckets from `bucket` on, bucket after bucket, each
/// bucket from its last point to its first.
pub open spec fn reversed_from(t: Seq<Seq<Point>>, bucket: int) -> Seq<Point>
    decreases t.len() - bucket,
{
    if bucket >= t.len() || bucket < 0 {
        Seq::<Point>::empty()
    } else {
        t[bucket].reverse() + reversed_from(t, bucket + 1)
    }
}

/// The points of the first buckets and the points from the next bucket on
/// are the points of all buckets.
pub proof fn lemma_rest_completes(t: Seq<Seq<Point>>, bucket: int)
    requires
        0 <= bucket <= t.len(),
    ensures
        flat_upto(t, bucket) + rest_from(t, bucket, 0) == flat(t),
    decreases t.len() - bucket,
{
    if bucket < t.len() {
        lemma_rest_completes(t, bucket + 1);
        assert(t[bucket].skip(0) =~= t[bucket]);
        assert(flat_upto(t, bucket) + rest_from(t, bucket, 0) =~= flat_upto(t, bucket + 1)
            + rest_from(t, bucket + 1, 0));
    } else {
        assert(flat_upto(t, bucket) + rest_from(t, bucket, 0) =~= flat(t));
    }
}

/// A walk over the points of a map, bucket after bucket.
pub struct Iter<'a, M: Model> {
    map: &'a LearnedHashMap<M>,
    bucket: usize,
    at: usize,
}

impl<'a, M: Model> Iter<'a, M> {
    #[verifier::type_invariant]
    spec fn in_the_table(self) -> bool {
        &&& self.bucket <= self.map.buckets().len()
        &&& self.bucket < self.map.buckets().len() ==> self.at
            <= self.map.buckets()[self.bucket as int].len()
    }

    /// The points that the walk has yet to give, in their order.
    pub closed spec fn remaining(&self) -> Seq<Point> {
        rest_from(self.map.buckets(), self.bucket as int, self.at as int)
    }

    /// Gives the next point of the walk, if there is one.
    pub fn next(&mut self) -> (r: Option<&'a Point>)
        ensures
            match r {
                Some(p) => old(self).remaining().len() > 0 && *p == old(self).remaining()[0]
                    && final(self).remaining() == old(self).remaining().skip(1),
                None => old(self).remaining().len() == 0 && final(self).remaining().len() == 0,
            },
    {
        proof {
            use_type_invariant(&*self);
        }
        let ghost t = self.map.buckets();
        let n: usize = self.map.table.capacity();
        loop
            invariant
                t == self.map.buckets(),
                self.map == old(self).map,
                n == t.len(),
                self.bucket <= n,
                self.bucket < n ==> self.at <= t[self.bucket as int].len(),
                self.remaining() == old(self).remaining(),
            decreases n - self.bucket,
        {
            if self.bucket >= n {
                return None;
            }
            let bucket = self.map.table.bucket_ref(self.bucket);
            if self.at < bucket.len() {
                let p: &'a Point = bucket.get(self.at);
                proof {
                    let here = t[self.bucket as int];
                    let rest = rest_from(t, self.bucket as int + 1, 0);
                    assert(here.skip(self.at as int)[0] == here[self.at as int]);
                    assert((here.skip(self.at as int) + rest).skip(1) =~= here.skip(
                        self.at as int + 1,
                    ) + rest);
                }
                // move along self.at
                self.at += 1;
                return Some(p);
            }
            proof {
                assert(t[self.bucket as int].skip(self.at as int) =~= Seq::<Point>::empty());
                assert(rest_from(t, self.bucket as int, self.at as int) =~= rest_from(
                    t,
                    self.bucket as int + 1,
                    0,
                ));
            }
            self.at = 0;
            self.bucket += 1;
        }
    }
}

/// A walk over the points of a map that takes them out of it, bucket after
/// bucket, each bucket from its last point to its first.
pub struct IntoIter<M: Model> {
    map: LearnedHashMap<M>,
    bucket: usize,
}

impl<M: Model> IntoIter<M> {
    /// The points that the walk has yet to give, in their order.
    pub closed spec fn remaining(&self) -> Seq<Point> {
        reversed_from(self.map.buckets(), self.bucket as int)
    }

    /// Gives the next point of the walk, if there is one.
    pub fn next(&mut self) -> (r: Option<Point>)
        ensures
            match r {
                Some(p) => old(self).remaining().len() > 0 && p == old(self).remaining()[0]
                    && final(self).remaining() == old(self).remaining().skip(1),
                None => old(self).remaining().len() == 0 && final(self).remaining().len() == 0,
            },
    {
        let n: usize = self.map.table.capacity();
        loop
            invariant
                n == self.map.buckets().len(),
                self.remaining() == old(self).remaining(),
            decreases n - self.bucket,
        {
            if self.bucket >= n {
                return None;
            }
            let ghost t = self.map.buckets();
            let ghost here = t[self.bucket as int];
            match self.map.table.pop_at(self.bucket) {
                Some(x) => {
                    proof {
                        let after = self.map.buckets();
                        let rest = reversed_from(t, self.bucket as int + 1);
                        lemma_same_tail(t, after, self.bucket as int + 1);
                        assert(here.reverse()[0] == here.last());
                        assert((here.reverse() + rest).skip(1) =~= here.drop_last().reverse()
                            + rest);
                    }
                    return Some(x);
                },
                None => {
                    proof {
                        assert(here.reverse() =~= Seq::<Point>::empty());
                        assert(reversed_from(t, self.bucket as int) =~= reversed_from(
                            t,
                            self.bucket as int + 1,
                        ));
                    }
                    self.bucket += 1;
                },
            }
        }
    }
}

/// Tables that agree from a bucket on hold the same points from there on.
pub proof fn lemma_same_tail(t: Seq<Seq<Point>>, u: Seq<Seq<Point>>, bucket: int)
    requires
        t.len() == u.len(),
        0 <= bucket,
        forall|b: int| bucket <= b < t.len() ==> t[b] == u[b],
    ensures
        reversed_from(t, bucket) == reversed_from(u, bucket),
    decreases t.len() - bucket,
{
    if bucket < t.len() {
        lemma_same_tail(t, u, bucket + 1);
    }
}

impl<M: Model> LearnedHashMap<M> {
    /// A walk over the points of the map, bucket after bucket.
    pub fn iter(&self) -> (walk: Iter<'_, M>)
        ensures
            walk.remaining() == flat(self.buckets()),
    {
        proof {
            lemma_rest_completes(self.buckets(), 0);
            assert(flat_upto(self.buckets(), 0) + rest_from(self.buckets(), 0, 0) =~= rest_from(
                self.buckets(),
                0,
                0,
            ));
        }
        Iter { map: self, bucket: 0, at: 0 }
    }

    /// A walk over the points of the map that takes them out of it, bucket
    /// after bucket, each bucket from its last point to its first.
    pub fn into_iter(self) -> (walk: IntoIter<M>)
        ensures
            walk.remaining() == reversed_from(self.buckets(), 0),
    {
        IntoIter { map: self, bucket: 0 }
    }
}

} // verus!
