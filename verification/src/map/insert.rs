//! Putting points into the map and taking them out, and the growth of the
//! table.
use crate::geometry::Point;
use crate::geometry::helper::key_of;
use crate::hasher::{make_hash_point, place_hash};
use crate::map::{LearnedHashMap, INITIAL_NBUCKETS};
use crate::map::contents::{
    contents, count, grown, lemma_bucket_insert, lemma_bucket_replace, lemma_bucket_swap_remove,
    lemma_count_bounds, lemma_distinct_is_functional, lemma_flat_points, lemma_found, lemma_free,
    lemma_held, lemma_moved_ends, lemma_moved_step, lemma_padded, lemma_padded_sorted,
    lemma_place_map_insert, lemma_place_map_remove, lemma_placed_insert, lemma_placed_replace,
    lemma_placed_swap_remove, lemma_put_keeps_sorted, moved, padded, points, put, smaller_upto,
    stands_at, taken_out,
};
use crate::map::table::{is_first_at, swap_removed, Table, MAX_ITEMS};
use crate::models::Model;
use vstd::prelude::*;

verus! {

/// The buckets after a point was put into them, with the bucket index that a
/// model gives its place: the table grows as it has to, and the point goes
/// into its bucket.
pub open spec fn put_grown<M: Model>(
    t: Seq<Seq<Point>>,
    model: M,
    by_x: bool,
    p: Point,
) -> Seq<Seq<Point>> {
    let hash = place_hash(model, by_x, p.pos());
    put(padded(t, grown(t.len() as int, count(t), hash)), hash, p, by_x)
}

impl<M: Model> LearnedHashMap<M> {
    /// Grows the table where it should: to the initial size where it has no
    /// bucket, to twice its size otherwise.
    fn resize(&mut self)
        requires
            old(self).wf(),
            2 * old(self).buckets().len() <= usize::MAX,
        ensures
            final(self).wf(),
            final(self)@ == old(self)@,
            final(self).item_count() == old(self).item_count(),
            final(self).hasher_spec().agrees_with(&old(self).hasher_spec()),
            final(self).buckets().len() == (if old(self).buckets().len() == 0 {
                INITIAL_NBUCKETS as int
            } else {
                (2 * old(self).buckets().len()) as int
            }),
            final(self).buckets() == padded(
                old(self).buckets(),
                final(self).buckets().len() as int,
            ),
    {
        let n: usize = self.table.capacity();
        let target_size: usize = if n == 0 {
            INITIAL_NBUCKETS
        } else {
            2 * n
        };
        self.resize_with_capacity(target_size);
    }

    /// Gives the table `target_size` buckets, which is no less than it has,
    /// and moves every stored point into the bucket that it has among them:
    /// the one with the index that it had.
    #[verifier::loop_isolation(false)]
    pub(super) fn resize_with_capacity(&mut self, target_size: usize)
        requires
            old(self).wf(),
            target_size >= old(self).buckets().len(),
        ensures
            final(self).wf(),
            final(self)@ == old(self)@,
            final(self).buckets() == padded(old(self).buckets(), target_size as int),
            final(self).item_count() == old(self).item_count(),
            final(self).hasher_spec().agrees_with(&old(self).hasher_spec()),
            final(self).buckets().len() == target_size,
    {
        let ghost before = self.buckets();
        let taken: Vec<Point> = self.table.take_all();
        let mut new_table: Table = Table::with_capacity(target_size);
        let mut k: usize = 0;
        while k < target_size
            invariant
                k <= target_size,
                new_table@.len() == k,
                forall|b: int| 0 <= b < k ==> (#[trigger] new_table@[b]).len() == 0,
            decreases target_size - k,
        {
            new_table.push_bucket();
            k += 1;
        }
        self.table = new_table;
        self.items = 0;
        proof {
            lemma_flat_points(before);
            lemma_moved_ends(before, target_size as int);
            assert forall|h: int| 0 <= h < target_size implies #[trigger] self.buckets()[h]
                == moved(before, target_size as int, 0)[h] by {
                assert(self.buckets()[h] =~= moved(before, target_size as int, 0)[h]);
            }
            assert(self.buckets() =~= moved(before, target_size as int, 0));
        }
        let n: usize = taken.len();
        let mut i: usize = 0;
        while i < n
            invariant
                n == taken@.len(),
                i <= n,
                self.buckets() == moved(before, target_size as int, i as int),
                self.item_count() == i,
                self.hasher_spec().agrees_with(&old(self).hasher_spec()),
            decreases n - i,
        {
            let p: Point = taken[i];
            let hash: u64 = make_hash_point(&mut self.hasher, &[p.x, p.y]);
            proof {
                // the point goes to the bucket with the index that it had
                let at = lemma_moved_step(before, target_size as int, i as int);
                assert(stands_at(before, at.0, at.1, p));
                assert((old(self).index())(p.pos()) == at.0);
                assert(hash as int == at.0);
                vstd::arithmetic::div_mod::lemma_small_mod(hash as nat, target_size as nat);
                lemma_count_bounds(before, at.0, before.len() as int);
            }
            let index: usize = self.table.bucket(hash);
            self.table.push_at(index, p);
            self.items += 1;
            i += 1;
        }
        proof {
            lemma_moved_ends(before, target_size as int);
            lemma_padded(before, target_size as int, old(self).index());
            assert forall|b: int, j: int, p: Point| #[trigger]
                stands_at(self.buckets(), b, j, p) implies (self.index())(p.pos()) == b by {
                assert((old(self).index())(p.pos()) == b);
            }
        }
    }

    /// Puts a point into the bucket with the given hash value, which is its
    /// own. A stored point at the same place is replaced and returned;
    /// otherwise the point goes behind the points of its bucket with a
    /// smaller coordinate `p_value`, and the count grows by one.
    #[verifier::loop_isolation(false)]
    fn insert_with_axis(&mut self, p_value: i32, p: Point, hash: u64) -> (r: Option<Point>)
        requires
            old(self).wf(),
            old(self).item_count() < MAX_ITEMS,
            hash == old(self).bucket_for(p.pos()),
            hash < old(self).buckets().len(),
            p_value == old(self).hasher_spec().key(p.x, p.y),
        ensures
            final(self).wf(),
            final(self)@ == old(self)@.insert(p.pos(), p.id),
            final(self).hasher_spec() == old(self).hasher_spec(),
            final(self).buckets().len() == old(self).buckets().len(),
            final(self).buckets() == put(
                old(self).buckets(),
                hash as int,
                p,
                old(self).hasher_spec().sort_by_x,
            ),
            r == (if old(self)@.contains_key(p.pos()) {
                Some(Point { id: old(self)@[p.pos()], x: p.x, y: p.y })
            } else {
                None
            }),
            final(self).item_count() == old(self).item_count() + (if old(self)@.contains_key(
                p.pos(),
            ) {
                0nat
            } else {
                1nat
            }),
    {
        let ghost before = self.buckets();
        let mut insert_index: usize = 0;
        let bucket_index: usize = self.table.bucket(hash);
        let by_x: bool = self.hasher.sort_by_x();
        let n: usize = self.table.bucket_ref(bucket_index).len();
        proof {
            vstd::arithmetic::div_mod::lemma_small_mod(hash as nat, before.len());
            assert((self.index())(p.pos()) == self.bucket_for(p.pos()));
            lemma_count_bounds(before, bucket_index as int, before.len() as int);
            lemma_distinct_is_functional(before);
        }
        let mut i: usize = 0;
        while i < n
            invariant
                self.buckets() == before,
                *self == *old(self),
                bucket_index < before.len(),
                n == before[bucket_index as int].len(),
                i <= n,
                insert_index == smaller_upto(before[bucket_index as int], by_x, p_value, i as int),
                insert_index <= i,
                forall|j: int| 0 <= j < i ==> (#[trigger] before[bucket_index as int][j]).pos()
                    != p.pos(),
            decreases n - i,
        {
            let ep: Point = *self.table.bucket_ref(bucket_index).get(i);
            if ep.same_place(&p) {
                proof {
                    assert(is_first_at(before[bucket_index as int], p.pos(), Some(i as int)));
                    lemma_found(before[bucket_index as int], p.pos(), Some(i as int));
                    lemma_held(before, bucket_index as int, i as int);
                    lemma_bucket_replace(before, bucket_index as int, i as int, p);
                    lemma_placed_replace(
                        before,
                        self.index(),
                        bucket_index as int,
                        i as int,
                        p,
                    );
                    lemma_place_map_remove(points(before), ep);
                    lemma_place_map_insert(points(before).remove(ep), p);
                    assert(contents(before).remove(p.pos()).insert(p.pos(), p.id) =~= contents(
                        before,
                    ).insert(p.pos(), p.id));
                }
                let previous: Point = self.table.replace_at(bucket_index, i, p);
                return Some(previous);
            }
            let below: bool = if by_x {
                ep.x < p.x
            } else {
                ep.y < p_value
            };
            if below {
                insert_index += 1;
            }
            i += 1;
        }
        proof {
            assert(is_first_at(before[bucket_index as int], p.pos(), None));
            lemma_found(before[bucket_index as int], p.pos(), None);
            assert(key_of(p, by_x) == p_value);
            lemma_free(before, self.index(), p.pos());
            lemma_bucket_insert(before, bucket_index as int, insert_index as int, p);
            lemma_placed_insert(before, self.index(), bucket_index as int, insert_index as int, p);
            lemma_place_map_insert(points(before), p);
        }
        self.table.insert_at(bucket_index, insert_index, p);
        self.items += 1;
        None
    }

    /// Puts a point into the map. The table grows first where it has no
    /// bucket or is more than three quarters full, and again where the
    /// point's bucket lies beyond it.
    pub(super) fn insert_inner(&mut self, p: Point) -> (r: Option<Point>)
        requires
            old(self).wf(),
            old(self).item_count() < MAX_ITEMS,
        ensures
            final(self).wf(),
            final(self)@ == old(self)@.insert(p.pos(), p.id),
            final(self).hasher_spec().agrees_with(&old(self).hasher_spec()),
            final(self).buckets().len() >= old(self).buckets().len(),
            final(self).buckets().len() > 0,
            final(self).buckets() == put(
                padded(old(self).buckets(), old(self).grown_len(p.pos())),
                old(self).bucket_for(p.pos()),
                p,
                old(self).hasher_spec().sort_by_x,
            ),
            final(self).buckets() == put_grown(
                old(self).buckets(),
                old(self).hasher_spec().model,
                old(self).hasher_spec().sort_by_x,
                p,
            ),
            old(self).sorted() ==> final(self).sorted(),
            r == (if old(self)@.contains_key(p.pos()) {
                Some(Point { id: old(self)@[p.pos()], x: p.x, y: p.y })
            } else {
                None
            }),
            final(self).item_count() == old(self).item_count() + (if old(self)@.contains_key(
                p.pos(),
            ) {
                0nat
            } else {
                1nat
            }),
    {
        // Resize if the table is empty or 3/4 size of the table is full
        let capacity: usize = self.table.capacity();
        if capacity == 0 || self.items as u128 > 3 * (capacity as u128) / 4 {
            self.resize();
        }
        let p_value: i32 = if self.hasher.sort_by_x() {
            p.x
        } else {
            p.y
        };
        let ghost resized = *self;
        let hash: u64 = make_hash_point(&mut self.hasher, &[p.x, p.y]);
        proof {
            self.lemma_same_as(&resized);
        }
        // resize if hash index is larger or equal to the table capacity
        if hash >= self.table.capacity() as u64 {
            self.resize_with_capacity((hash * 2) as usize);
        }
        let ghost grown = self.buckets();
        proof {
            assert(self.bucket_for(p.pos()) == hash);
            let by_x = old(self).hasher_spec().sort_by_x;
            lemma_padded_sorted(
                old(self).buckets(),
                resized.buckets().len() as int,
                grown.len() as int,
                by_x,
            );
            lemma_padded_sorted(
                old(self).buckets(),
                grown.len() as int,
                grown.len() as int,
                by_x,
            );
            assert(grown == padded(old(self).buckets(), old(self).grown_len(p.pos())));
            if old(self).sorted() {
                lemma_put_keeps_sorted(grown, hash as int, p, by_x);
            }
        }
        self.insert_with_axis(p_value, p, hash)
    }

    /// Puts a point into the map. A stored point at the same place is
    /// replaced and returned; otherwise the count grows by one.
    pub fn insert(&mut self, p: Point) -> (r: Option<Point>)
        requires
            old(self).wf(),
            old(self).item_count() < MAX_ITEMS,
        ensures
            final(self).wf(),
            final(self)@ == old(self)@.insert(p.pos(), p.id),
            final(self).hasher_spec().agrees_with(&old(self).hasher_spec()),
            final(self).buckets().len() >= old(self).buckets().len(),
            final(self).buckets().len() > 0,
            final(self).buckets() == put(
                padded(old(self).buckets(), old(self).grown_len(p.pos())),
                old(self).bucket_for(p.pos()),
                p,
                old(self).hasher_spec().sort_by_x,
            ),
            final(self).buckets() == put_grown(
                old(self).buckets(),
                old(self).hasher_spec().model,
                old(self).hasher_spec().sort_by_x,
                p,
            ),
            old(self).sorted() ==> final(self).sorted(),
            r == (if old(self)@.contains_key(p.pos()) {
                Some(Point { id: old(self)@[p.pos()], x: p.x, y: p.y })
            } else {
                None
            }),
            final(self).item_count() == old(self).item_count() + (if old(self)@.contains_key(
                p.pos(),
            ) {
                0nat
            } else {
                1nat
            }),
    {
        self.insert_inner(p)
    }

    /// Takes the point at the place of `p` out of the map and returns it, if
    /// there is one. The last point of its bucket takes its position.
    pub fn remove(&mut self, p: &Point) -> (r: Option<Point>)
        requires
            old(self).wf(),
        ensures
            final(self).wf(),
            final(self)@ == old(self)@.remove(p.pos()),
            final(self).hasher_spec().agrees_with(&old(self).hasher_spec()),
            final(self).buckets().len() == old(self).buckets().len(),
            final(self).buckets() == (if old(self).bucket_for(p.pos()) < old(self).buckets().len() {
                taken_out(old(self).buckets(), old(self).bucket_for(p.pos()), p.pos())
            } else {
                old(self).buckets()
            }),
            r == (if old(self)@.contains_key(p.pos()) {
                Some(Point { id: old(self)@[p.pos()], x: p.x, y: p.y })
            } else {
                None
            }),
            final(self).item_count() == old(self).item_count() - (if old(self)@.contains_key(
                p.pos(),
            ) {
                1nat
            } else {
                0nat
            }),
    {
        let hash: u64 = make_hash_point(&mut self.hasher, &[p.x, p.y]);
        proof {
            self.lemma_same_as(old(self));
        }
        let ghost before = self.buckets();
        proof {
            assert((self.index())(p.pos()) == self.bucket_for(p.pos()));
        }
        if hash >= self.table.capacity() as u64 {
            proof {
                lemma_free(before, self.index(), p.pos());
                assert(old(self)@.remove(p.pos()) =~= old(self)@);
            }
            return None;
        }
        proof {
            vstd::arithmetic::div_mod::lemma_small_mod(hash as nat, before.len());
        }
        let removed: Option<Point> = self.table.remove_entry(hash, *p);
        match removed {
            Some(q) => {
                proof {
                    let b = hash as int % before.len() as int;
                    assert(b == hash as int);
                    let j = choose|j: int| #[trigger]
                        is_first_at(before[b], p.pos(), Some(j)) && q == before[b][j]
                            && self.buckets() == before.update(b, swap_removed(before[b], j));
                    lemma_found(before[b], p.pos(), Some(j));
                    lemma_held(before, hash as int, j);
                    lemma_bucket_swap_remove(before, hash as int, j);
                    lemma_placed_swap_remove(before, self.index(), hash as int, j);
                    lemma_distinct_is_functional(before);
                    lemma_place_map_remove(points(before), q);
                    lemma_count_bounds(before, hash as int, before.len() as int);
                }
                self.items -= 1;
                Some(q)
            },
            None => {
                proof {
                    lemma_found(before[hash as int], p.pos(), None);
                    lemma_free(before, self.index(), p.pos());
                    assert(old(self)@.remove(p.pos()) =~= old(self)@);
                }
                None
            },
        }
    }
}

} // verus!
