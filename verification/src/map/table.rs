//! Buckets and the table of buckets.
use crate::geometry::Point;
use crate::map::contents::{flat, flat_upto};
use smallvec::SmallVec;
use vstd::prelude::*;

verus! {

/// The most points that a bucket, and so a map, takes. A bucket grows to the
/// next power of two of its length; for fewer points than this a request for
/// that many points, of at most 16 bytes each, is below `isize::MAX` bytes,
/// beyond which the growth would panic.
pub const MAX_ITEMS: usize = usize::MAX / 64;

/// The lower unit of the table: a short list of points. It is a `SmallVec`
/// of the smallvec crate, which holds up to six points inline and more on
/// the heap. Proofs do not see into it: what it holds is named by `stored`,
/// and each of its methods states what the method of `SmallVec` that it
/// calls does to that.
#[verifier::external_body]
#[derive(Debug)]
pub struct Bucket {
    entry: SmallVec<[Point; 6]>,
}

/// The points that the `SmallVec` of a bucket holds, first to last.
pub uninterp spec fn stored(b: Bucket) -> Seq<Point>;

impl View for Bucket {
    type V = Seq<Point>;

    open spec fn view(&self) -> Seq<Point> {
        stored(*self)
    }
}

impl Clone for Bucket {
    /// A bucket with the same points. This is the `clone` of `SmallVec`,
    /// which copies the elements in their order.
    #[verifier::external_body]
    fn clone(&self) -> (b: Self)
        ensures
            stored(b) == stored(*self),
    {
        Bucket { entry: self.entry.clone() }
    }
}

/// A sequence without the element at `index`, whose place the last element
/// takes.
pub open spec fn swap_removed(s: Seq<Point>, index: int) -> Seq<Point> {
    s.update(index, s.last()).drop_last()
}

impl Bucket {
    /// An empty bucket. This is `SmallVec::new`, which holds nothing.
    #[verifier::external_body]
    pub fn new() -> (b: Self)
        ensures
            stored(b) == Seq::<Point>::empty(),
    {
        Bucket { entry: SmallVec::new() }
    }

    /// The number of points in the bucket. This is `SmallVec::len`.
    #[verifier::external_body]
    pub(crate) fn len(&self) -> (n: usize)
        ensures
            n == stored(*self).len(),
    {
        self.entry.len()
    }

    /// The point at `index`. This is the indexing of `SmallVec` through its
    /// slice, which panics beyond the length.
    #[verifier::external_body]
    pub(crate) fn get(&self, index: usize) -> (p: &Point)
        requires
            index < stored(*self).len(),
        ensures
            *p == stored(*self)[index as int],
    {
        &self.entry[index]
    }

    /// Appends a point. This is `SmallVec::push`, which panics only where the
    /// capacity that it grows to overflows: not below `MAX_ITEMS` points.
    #[verifier::external_body]
    pub(crate) fn push(&mut self, p: Point)
        requires
            stored(*old(self)).len() < MAX_ITEMS,
        ensures
            stored(*final(self)) == stored(*old(self)).push(p),
    {
        self.entry.push(p)
    }

    /// Puts a point at `index` and moves what follows by one. This is
    /// `SmallVec::insert`, which panics where the index is beyond the length
    /// or the capacity that it grows to overflows: not below `MAX_ITEMS`
    /// points.
    #[verifier::external_body]
    pub(crate) fn insert(&mut self, index: usize, p: Point)
        requires
            index <= stored(*old(self)).len(),
            stored(*old(self)).len() < MAX_ITEMS,
        ensures
            stored(*final(self)) == stored(*old(self)).insert(index as int, p),
    {
        self.entry.insert(index, p)
    }

    /// Removes the point at `index` and returns it. The removed point is
    /// replaced by the last point of the bucket. This is
    /// `SmallVec::swap_remove`, which panics where the index is beyond the
    /// length.
    #[verifier::external_body]
    pub fn swap_remove(&mut self, index: usize) -> (p: Point)
        requires
            index < stored(*old(self)).len(),
        ensures
            p == stored(*old(self))[index as int],
            stored(*final(self)) == swap_removed(stored(*old(self)), index as int),
    {
        self.entry.swap_remove(index)
    }

    /// Puts a point in the place of the one at `index`, which is returned.
    /// This is `core::mem::replace` on the indexed element of the `SmallVec`;
    /// the indexing panics beyond the length.
    #[verifier::external_body]
    pub(crate) fn replace(&mut self, index: usize, p: Point) -> (previous: Point)
        requires
            index < stored(*old(self)).len(),
        ensures
            previous == stored(*old(self))[index as int],
            stored(*final(self)) == stored(*old(self)).update(index as int, p),
    {
        core::mem::replace(&mut self.entry[index], p)
    }

    /// Removes the last point and returns it, if there is one. This is
    /// `SmallVec::pop`.
    #[verifier::external_body]
    pub(crate) fn pop(&mut self) -> (p: Option<Point>)
        ensures
            stored(*old(self)).len() == 0 ==> p.is_none() && stored(*final(self)) == stored(
                *old(self),
            ),
            stored(*old(self)).len() > 0 ==> p == Some(stored(*old(self)).last()) && stored(
                *final(self),
            ) == stored(*old(self)).drop_last(),
    {
        self.entry.pop()
    }

    /// Takes all points out of the bucket, first to last. This is
    /// `SmallVec::drain` over the full range, which leaves nothing behind.
    #[verifier::external_body]
    pub(crate) fn drain(&mut self) -> (all: Vec<Point>)
        ensures
            all@ == stored(*old(self)),
            stored(*final(self)) == Seq::<Point>::empty(),
    {
        self.entry.drain(..).collect()
    }
}

/// The first index at which a point of the sequence lies at a place, if any
/// does.
pub open spec fn is_first_at(s: Seq<Point>, place: (i32, i32), found: Option<int>) -> bool {
    match found {
        Some(j) => {
            &&& 0 <= j < s.len()
            &&& s[j].pos() == place
            &&& forall|i: int| 0 <= i < j ==> (#[trigger] s[i]).pos() != place
        },
        None => forall|i: int| 0 <= i < s.len() ==> (#[trigger] s[i]).pos() != place,
    }
}

/// The index of the first point of the bucket that lies at a place.
pub fn find_place(bucket: &Bucket, x: i32, y: i32) -> (found: Option<usize>)
    ensures
        is_first_at(
            bucket@,
            (x, y),
            match found {
                Some(j) => Some(j as int),
                None => None,
            },
        ),
{
    let n: usize = bucket.len();
    let mut i: usize = 0;
    while i < n
        invariant
            n == bucket@.len(),
            i <= n,
            forall|j: int| 0 <= j < i ==> (#[trigger] bucket@[j]).pos() != (x, y),
        decreases n - i,
    {
        let p: &Point = bucket.get(i);
        if p.x == x && p.y == y {
            return Some(i);
        }
        i += 1;
    }
    None
}

/// Table containing a vector of buckets that store the points.
#[derive(Debug)]
pub struct Table {
    buckets: Vec<Bucket>,
}

impl View for Table {
    type V = Seq<Seq<Point>>;

    closed spec fn view(&self) -> Seq<Seq<Point>> {
        Seq::new(self.buckets@.len(), |i: int| self.buckets@[i]@)
    }
}

impl Clone for Table {
    fn clone(&self) -> (t: Self)
        ensures
            t@ == self@,
    {
        let n: usize = self.buckets.len();
        let mut buckets: Vec<Bucket> = Vec::with_capacity(n);
        let mut b: usize = 0;
        while b < n
            invariant
                n == self.buckets@.len(),
                b <= n,
                buckets@.len() == b,
                forall|h: int| 0 <= h < b ==> (#[trigger] buckets@[h])@ == self.buckets@[h]@,
            decreases n - b,
        {
            buckets.push(self.buckets[b].clone());
            b += 1;
        }
        let t = Table { buckets };
        assert(t@ =~= self@);
        t
    }
}

impl Table {
    /// A table without buckets.
    pub fn new() -> (t: Self)
        ensures
            t@.len() == 0,
    {
        Table { buckets: Vec::new() }
    }

    /// A table without buckets, with room set aside for `capacity` of them.
    pub fn with_capacity(capacity: usize) -> (t: Self)
        ensures
            t@.len() == 0,
    {
        Table { buckets: Vec::with_capacity(capacity) }
    }

    /// The number of buckets of the table.
    pub fn capacity(&self) -> (c: usize)
        ensures
            c == self@.len(),
    {
        self.buckets.len()
    }

    /// The index of the bucket for a hash value: the hash modulo the number
    /// of buckets.
    pub fn bucket(&self, hash: u64) -> (index: usize)
        requires
            self@.len() > 0,
        ensures
            index == hash as int % self@.len() as int,
    {
        (hash % (self.buckets.len() as u64)) as usize
    }

    /// Removes from the bucket for a hash value the first point that lies
    /// where `entry` does, and returns it. The last point of the bucket takes
    /// its place.
    pub fn remove_entry(&mut self, hash: u64, entry: Point) -> (removed: Option<Point>)
        requires
            old(self)@.len() > 0,
        ensures
            final(self)@.len() == old(self)@.len(),
            ({
                let b = hash as int % old(self)@.len() as int;
                match removed {
                    Some(p) => exists|j: int| #[trigger]
                        is_first_at(old(self)@[b], entry.pos(), Some(j)) && p == old(self)@[b][j]
                            && final(self)@ == old(self)@.update(
                            b,
                            swap_removed(old(self)@[b], j),
                        ),
                    None => is_first_at(old(self)@[b], entry.pos(), None) && final(self)@ == old(
                        self,
                    )@,
                }
            }),
    {
        let index: usize = self.bucket(hash);
        let found: Option<usize> = find_place(&self.buckets[index], entry.x, entry.y);
        match found {
            Some(i) => {
                let ghost before = self@;
                let p: Point = self.buckets[index].swap_remove(i);
                proof {
                    assert(self@ =~= before.update(
                        index as int,
                        swap_removed(before[index as int], i as int),
                    ));
                    assert(is_first_at(before[index as int], entry.pos(), Some(i as int)));
                }
                Some(p)
            },
            None => None,
        }
    }

    /// A copy of the points of a bucket, first to last.
    pub fn bucket_points(&self, bucket: usize) -> (all: Vec<Point>)
        requires
            bucket < self@.len(),
        ensures
            all@ == self@[bucket as int],
    {
        let entry: &Bucket = &self.buckets[bucket];
        let n: usize = entry.len();
        let mut all: Vec<Point> = Vec::with_capacity(n);
        let mut i: usize = 0;
        while i < n
            invariant
                n == entry@.len(),
                entry@ == self@[bucket as int],
                i <= n,
                all@ == entry@.take(i as int),
            decreases n - i,
        {
            all.push(*entry.get(i));
            i += 1;
            assert(all@ =~= entry@.take(i as int));
        }
        assert(all@ =~= entry@);
        all
    }

    /// The bucket at `index`.
    pub fn bucket_ref(&self, index: usize) -> (b: &Bucket)
        requires
            index < self@.len(),
        ensures
            b@ == self@[index as int],
    {
        &self.buckets[index]
    }

    /// Adds an empty bucket at the end.
    pub fn push_bucket(&mut self)
        ensures
            final(self)@ == old(self)@.push(Seq::<Point>::empty()),
    {
        self.buckets.push(Bucket::new());
        assert(self@ =~= old(self)@.push(Seq::<Point>::empty()));
    }

    /// Puts a point into a bucket at a position.
    pub fn insert_at(&mut self, bucket: usize, position: usize, p: Point)
        requires
            bucket < old(self)@.len(),
            position <= old(self)@[bucket as int].len(),
            old(self)@[bucket as int].len() < MAX_ITEMS,
        ensures
            final(self)@ == old(self)@.update(
                bucket as int,
                old(self)@[bucket as int].insert(position as int, p),
            ),
    {
        self.buckets[bucket].insert(position, p);
        assert(self@ =~= old(self)@.update(
            bucket as int,
            old(self)@[bucket as int].insert(position as int, p),
        ));
    }

    /// Puts a point in the place of the one at a position of a bucket.
    pub fn replace_at(&mut self, bucket: usize, position: usize, p: Point) -> (previous:
        Point)
        requires
            bucket < old(self)@.len(),
            position < old(self)@[bucket as int].len(),
        ensures
            previous == old(self)@[bucket as int][position as int],
            final(self)@ == old(self)@.update(
                bucket as int,
                old(self)@[bucket as int].update(position as int, p),
            ),
    {
        let previous: Point = self.buckets[bucket].replace(position, p);
        assert(self@ =~= old(self)@.update(
            bucket as int,
            old(self)@[bucket as int].update(position as int, p),
        ));
        previous
    }

    /// Appends a point to a bucket.
    pub fn push_at(&mut self, bucket: usize, p: Point)
        requires
            bucket < old(self)@.len(),
            old(self)@[bucket as int].len() < MAX_ITEMS,
        ensures
            final(self)@ == old(self)@.update(bucket as int, old(self)@[bucket as int].push(p)),
    {
        self.buckets[bucket].push(p);
        assert(self@ =~= old(self)@.update(bucket as int, old(self)@[bucket as int].push(p)));
    }

    /// Takes the last point out of a bucket, if it has one.
    pub fn pop_at(&mut self, bucket: usize) -> (p: Option<Point>)
        requires
            bucket < old(self)@.len(),
        ensures
            old(self)@[bucket as int].len() == 0 ==> p.is_none() && final(self)@ == old(self)@,
            old(self)@[bucket as int].len() > 0 ==> p == Some(old(self)@[bucket as int].last())
                && final(self)@ == old(self)@.update(
                bucket as int,
                old(self)@[bucket as int].drop_last(),
            ),
    {
        let p: Option<Point> = self.buckets[bucket].pop();
        proof {
            if old(self)@[bucket as int].len() == 0 {
                assert(self@ =~= old(self)@);
            } else {
                assert(self@ =~= old(self)@.update(
                    bucket as int,
                    old(self)@[bucket as int].drop_last(),
                ));
            }
        }
        p
    }

    /// Takes all points out of the table, bucket after bucket. The buckets
    /// stay, empty.
    pub fn take_all(&mut self) -> (all: Vec<Point>)
        ensures
            all@ == flat(old(self)@),
            final(self)@.len() == old(self)@.len(),
            forall|b: int| 0 <= b < final(self)@.len() ==> (#[trigger] final(self)@[b]).len() == 0,
    {
        let mut all: Vec<Point> = Vec::new();
        let n: usize = self.buckets.len();
        let mut b: usize = 0;
        while b < n
            invariant
                n == self@.len(),
                n == old(self)@.len(),
                b <= n,
                all@ == flat_upto(old(self)@, b as int),
                forall|h: int| 0 <= h < b ==> (#[trigger] self@[h]).len() == 0,
                forall|h: int| b <= h < n ==> #[trigger] self@[h] == old(self)@[h],
            decreases n - b,
        {
            let ghost before = self@;
            assert(before[b as int] == old(self)@[b as int]);
            assert(before[b as int] == self.buckets@[b as int]@);
            let mut taken: Vec<Point> = self.buckets[b].drain();
            assert(self@ =~= before.update(b as int, Seq::<Point>::empty()));
            assert(taken@ == old(self)@[b as int]);
            all.append(&mut taken);
            b += 1;
        }
        all
    }
}

} // verus!
