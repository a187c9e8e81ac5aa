//! The learned hash map: its parts, its invariant and its lookups.
pub mod batch;
pub mod contents;
pub mod insert;
pub mod iter;
pub mod laws;
pub mod nearest;
pub mod nn;
pub mod range;
pub mod table;

pub use batch::{batch_outcome, points_of, trained_from};
pub use range::{near, within};

use crate::geometry::Point;
use crate::hasher::{make_hash_point, LearnedHasher};
use crate::map::contents::{
    all_sorted, grown, contents, count, distinct, lemma_count_of_places, lemma_empty_buckets, lemma_free,
    lemma_held, lemma_zero_count, placed_by, points, put, stands_at,
};
use crate::map::table::{find_place, is_first_at, Table, MAX_ITEMS};
use crate::models::Model;
use vstd::prelude::*;

verus! {

/// The number of buckets that an empty table gets when it first grows.
pub const INITIAL_NBUCKETS: usize = 1;

/// LearnedHashMap takes a model instead of a hash function to find the
/// bucket of a point in the table.
///
/// For range search and nearest-neighbour search to find every point, the
/// model has to be monotonic: a larger coordinate never has a smaller bucket
/// index.
#[derive(Debug)]
pub struct LearnedHashMap<M: Model> {
    pub(crate) hasher: LearnedHasher<M>,
    pub(crate) table: Table,
    pub(crate) items: usize,
}

impl<M: Model> View for LearnedHashMap<M> {
    type V = Map<(i32, i32), usize>;

    /// The map from the places of the stored points to their identifiers.
    open spec fn view(&self) -> Map<(i32, i32), usize> {
        contents(self.buckets())
    }
}

impl<M: Model + Clone> Clone for LearnedHashMap<M> {
    /// A map with the same buckets and count, over a copy of the hasher. It
    /// is well-formed where the copy of the model is equal to the model.
    fn clone(&self) -> (m: Self)
        ensures
            m.buckets() == self.buckets(),
            m.item_count() == self.item_count(),
            m.hasher_spec().sort_by_x == self.hasher_spec().sort_by_x,
            cloned(self.hasher_spec().model, m.hasher_spec().model),
            self.wf() && m.hasher_spec().model == self.hasher_spec().model ==> m.wf() && m@
                == self@,
    {
        let m = LearnedHashMap {
            hasher: self.hasher.clone(),
            table: self.table.clone(),
            items: self.items,
        };
        proof {
            if self.wf() && m.hasher_spec().model == self.hasher_spec().model {
                m.lemma_same_as(self);
            }
        }
        m
    }
}

impl<M: Model + Default> Default for LearnedHashMap<M> {
    fn default() -> (m: Self)
        ensures
            m.wf(),
            m@ == Map::<(i32, i32), usize>::empty(),
            m.buckets().len() == 0,
            m.item_count() == 0,
            m.hasher_spec().sort_by_x,
            call_ensures(M::default, (), m.hasher_spec().model),
    {
        let m = LearnedHashMap { hasher: LearnedHasher::<M>::new(), table: Table::new(), items: 0 };
        proof {
            lemma_empty_buckets(m.buckets());
        }
        m
    }
}

impl<M: Model + Default> LearnedHashMap<M> {
    /// An empty map over the default model.
    pub fn new() -> (m: Self)
        ensures
            m.wf(),
            m@ == Map::<(i32, i32), usize>::empty(),
            m.buckets().len() == 0,
            m.item_count() == 0,
            m.hasher_spec().sort_by_x,
            call_ensures(M::default, (), m.hasher_spec().model),
    {
        let m = LearnedHashMap { hasher: LearnedHasher::<M>::new(), table: Table::new(), items: 0 };
        proof {
            lemma_empty_buckets(m.buckets());
        }
        m
    }

    /// An empty map over the default model, with room set aside for
    /// `capacity` buckets.
    pub fn with_capacity(capacity: usize) -> (m: Self)
        ensures
            m.wf(),
            m@ == Map::<(i32, i32), usize>::empty(),
            m.buckets().len() == 0,
            m.item_count() == 0,
            m.hasher_spec().sort_by_x,
            call_ensures(M::default, (), m.hasher_spec().model),
    {
        let m = LearnedHashMap {
            hasher: LearnedHasher::<M>::new(),
            table: Table::with_capacity(capacity),
            items: 0,
        };
        proof {
            lemma_empty_buckets(m.buckets());
        }
        m
    }
}

impl<M: Model> LearnedHashMap<M> {
    /// The hasher of the map.
    pub open(crate) spec fn hasher_spec(&self) -> LearnedHasher<M> {
        self.hasher
    }

    /// The buckets of the table, each with its points in their order.
    pub open(crate) spec fn buckets(&self) -> Seq<Seq<Point>> {
        self.table@
    }

    /// The number of stored points that the map keeps account of.
    pub open(crate) spec fn item_count(&self) -> nat {
        self.items as nat
    }

    /// The index of the bucket in which a point at the place belongs.
    pub open spec fn bucket_for(&self, place: (i32, i32)) -> int {
        self.hasher_spec().spec_hash(self.hasher_spec().key(place.0, place.1)) as int
    }

    /// The function from a place to the index of its bucket.
    pub open spec fn index(&self) -> spec_fn((i32, i32)) -> int {
        |place: (i32, i32)| self.bucket_for(place)
    }

    /// The invariant of the map: no two stored points lie at one place, each
    /// stands in the bucket of its place, and the count is that of the
    /// stored points.
    pub open spec fn wf(&self) -> bool {
        &&& distinct(self.buckets())
        &&& placed_by(self.buckets(), self.index())
        &&& self.item_count() == count(self.buckets())
        &&& self.item_count() <= MAX_ITEMS
    }

    /// Whether the points of each bucket are in the order of their
    /// coordinates on the axis of the hasher.
    pub open spec fn sorted(&self) -> bool {
        all_sorted(self.buckets(), self.hasher_spec().sort_by_x)
    }

    /// The number of buckets that the table has when a point at the place
    /// has been put in: it grows where it is without buckets or more than
    /// three quarters full, and where the bucket of the place lies beyond
    /// it.
    pub open spec fn grown_len(&self, place: (i32, i32)) -> int {
        grown(self.buckets().len() as int, self.item_count() as int, self.bucket_for(place))
    }

    /// Whether two maps have the same buckets and count and give every place
    /// the same bucket.
    pub open spec fn same_as(&self, other: &LearnedHashMap<M>) -> bool {
        &&& self.buckets() == other.buckets()
        &&& self.item_count() == other.item_count()
        &&& self.hasher_spec().agrees_with(&other.hasher_spec())
    }

    /// An empty map over the given hasher.
    pub fn with_hasher(hasher: LearnedHasher<M>) -> (m: Self)
        ensures
            m.wf(),
            m@ == Map::<(i32, i32), usize>::empty(),
            m.buckets().len() == 0,
            m.item_count() == 0,
            m.hasher_spec() == hasher,
    {
        let m = LearnedHashMap { hasher, table: Table::new(), items: 0 };
        proof {
            lemma_empty_buckets(m.buckets());
        }
        m
    }

    /// The point stored at a place, if there is one.
    pub fn get(&mut self, p: &[i32; 2]) -> (r: Option<&Point>)
        requires
            old(self).wf(),
        ensures
            final(self).wf(),
            final(self).same_as(old(self)),
            r == (if old(self)@.contains_key((p@[0], p@[1])) {
                Some(&Point { id: old(self)@[(p@[0], p@[1])], x: p@[0], y: p@[1] })
            } else {
                None
            }),
    {
        let hash: u64 = make_hash_point(&mut self.hasher, p);
        proof {
            self.lemma_same_as(old(self));
            assert((self.index())((p@[0], p@[1])) == self.bucket_for((p@[0], p@[1])));
        }
        if hash >= self.table.capacity() as u64 {
            proof {
                lemma_free(self.buckets(), self.index(), (p@[0], p@[1]));
            }
            return None;
        }
        let r = self.find_by_hash(hash as usize, p);
        proof {
            match r {
                Some(q) => {
                    let j = choose|j: int| #[trigger]
                        is_first_at(self.buckets()[hash as int], (p@[0], p@[1]), Some(j)) && *q
                            == self.buckets()[hash as int][j];
                    lemma_held(self.buckets(), hash as int, j);
                },
                None => {
                    lemma_free(self.buckets(), self.index(), (p@[0], p@[1]));
                },
            }
        }
        r
    }

    /// The first point at a place in the bucket with the given index.
    pub fn find_by_hash(&self, hash: usize, p: &[i32; 2]) -> (r: Option<&Point>)
        requires
            hash < self.buckets().len(),
        ensures
            match r {
                Some(q) => exists|j: int| #[trigger]
                    is_first_at(self.buckets()[hash as int], (p@[0], p@[1]), Some(j)) && *q
                        == self.buckets()[hash as int][j],
                None => is_first_at(self.buckets()[hash as int], (p@[0], p@[1]), None),
            },
    {
        let bucket = self.table.bucket_ref(hash);
        match find_place(bucket, p[0], p[1]) {
            Some(j) => {
                assert(is_first_at(self.buckets()[hash as int], (p@[0], p@[1]), Some(j as int)));
                Some(bucket.get(j))
            },
            None => None,
        }
    }

    /// Whether a point is stored at a place.
    pub fn contains_points(&mut self, p: &[i32; 2]) -> (b: bool)
        requires
            old(self).wf(),
        ensures
            final(self).wf(),
            final(self).same_as(old(self)),
            b == old(self)@.contains_key((p@[0], p@[1])),
    {
        self.get(p).is_some()
    }

    /// The hasher of the map.
    pub fn hasher(&self) -> (h: &LearnedHasher<M>)
        ensures
            *h == self.hasher_spec(),
    {
        &self.hasher
    }

    /// The number of buckets of the table.
    pub fn len(&self) -> (n: usize)
        ensures
            n == self.buckets().len(),
    {
        self.table.capacity()
    }

    /// The number of stored points.
    pub fn items(&self) -> (n: usize)
        ensures
            n == self.item_count(),
            self.wf() ==> self@.dom().finite() && n == self@.dom().len(),
    {
        proof {
            if self.wf() {
                self.lemma_item_count();
            }
        }
        self.items
    }

    /// Whether no point is stored.
    pub fn is_empty(&self) -> (b: bool)
        ensures
            b == (self.item_count() == 0),
            self.wf() ==> b == (self@ == Map::<(i32, i32), usize>::empty()),
    {
        proof {
            if self.wf() {
                if self.items == 0 {
                    lemma_zero_count(self.buckets());
                } else {
                    self.lemma_some_point();
                }
            }
        }
        self.items == 0
    }

    /// A map with a count above zero holds a point.
    proof fn lemma_some_point(&self)
        requires
            self.wf(),
            self.item_count() > 0,
        ensures
            self@ != Map::<(i32, i32), usize>::empty(),
    {
        let t = self.buckets();
        if forall|b: int| 0 <= b < t.len() ==> (#[trigger] t[b]).len() == 0 {
            lemma_empty_buckets(t);
        } else {
            let b = choose|b: int| 0 <= b < t.len() && (#[trigger] t[b]).len() != 0;
            lemma_held(t, b, 0);
            assert(self@.contains_key(t[b][0].pos()));
        }
    }

    /// The count of a map is the number of places at which it holds a
    /// point.
    pub proof fn lemma_item_count(&self)
        requires
            self.wf(),
        ensures
            self@.dom().finite(),
            self@.dom().len() == self.item_count(),
    {
        lemma_count_of_places(self.buckets());
    }

    /// A map that is as another one is well-formed where the other is, and
    /// holds the same.
    pub proof fn lemma_same_as(&self, other: &LearnedHashMap<M>)
        requires
            self.same_as(other),
            other.wf(),
        ensures
            self.wf(),
            self@ == other@,
            forall|place: (i32, i32)| self.bucket_for(place) == other.bucket_for(place),
    {
        assert forall|b: int, j: int, p: Point| #[trigger]
            stands_at(self.buckets(), b, j, p) implies (self.index())(p.pos()) == b by {
            assert((other.index())(p.pos()) == b);
        }
    }
}

} // verus!
