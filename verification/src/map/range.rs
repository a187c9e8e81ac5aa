//! Range search and radius search.
use crate::geometry::Point;
use crate::geometry::helper::{is_sorted, key_of};
use crate::hasher::make_hash_point;
use crate::map::LearnedHashMap;
use crate::map::contents::{
    lemma_distinct_is_functional, lemma_held, lemma_place_map, points, stands_at,
};
use crate::models::Model;
use vstd::prelude::*;

verus! {

/// Whether a point lies in the box between two corners, its sides included.
pub open spec fn within(p: Point, bottom_left: [i32; 2], top_right: [i32; 2]) -> bool {
    &&& bottom_left@[0] <= p.x <= top_right@[0]
    &&& bottom_left@[1] <= p.y <= top_right@[1]
}

/// The points among the first `k` of a bucket that lie in the box, in their
/// order.
pub open spec fn kept_upto(s: Seq<Point>, k: int, bottom_left: [i32; 2], top_right: [i32; 2]) -> Seq<
    Point,
>
    decreases k,
{
    if k <= 0 {
        Seq::<Point>::empty()
    } else if within(s[k - 1], bottom_left, top_right) {
        kept_upto(s, k - 1, bottom_left, top_right).push(s[k - 1])
    } else {
        kept_upto(s, k - 1, bottom_left, top_right)
    }
}

/// The points of the buckets from `left` up to but without `end` that lie in
/// the box, bucket after bucket.
pub open spec fn swept(
    t: Seq<Seq<Point>>,
    left: int,
    end: int,
    bottom_left: [i32; 2],
    top_right: [i32; 2],
) -> Seq<Point>
    decreases end - left,
{
    if end <= left {
        Seq::<Point>::empty()
    } else {
        swept(t, left, end - 1, bottom_left, top_right) + kept_upto(
            t[end - 1],
            t[end - 1].len() as int,
            bottom_left,
            top_right,
        )
    }
}

/// Each kept point is a point of the bucket in the box, and each point of
/// the bucket in the box is kept.
pub proof fn lemma_kept(s: Seq<Point>, k: int, bottom_left: [i32; 2], top_right: [i32; 2])
    requires
        0 <= k <= s.len(),
    ensures
        forall|i: int|
            0 <= i < kept_upto(s, k, bottom_left, top_right).len() ==> within(
                #[trigger] kept_upto(s, k, bottom_left, top_right)[i],
                bottom_left,
                top_right,
            ) && exists|j: int|
                0 <= j < k && s[j] == kept_upto(s, k, bottom_left, top_right)[i],
        forall|j: int|
            0 <= j < k && within(#[trigger] s[j], bottom_left, top_right) ==> kept_upto(
                s,
                k,
                bottom_left,
                top_right,
            ).contains(s[j]),
    decreases k,
{
    if k > 0 {
        lemma_kept(s, k - 1, bottom_left, top_right);
        let front = kept_upto(s, k - 1, bottom_left, top_right);
        let all = kept_upto(s, k, bottom_left, top_right);
        assert forall|i: int| 0 <= i < all.len() implies within(
            #[trigger] all[i],
            bottom_left,
            top_right,
        ) && exists|j: int| 0 <= j < k && s[j] == all[i] by {
            if i < front.len() {
                assert(all[i] == front[i]);
                let j = choose|j: int| 0 <= j < k - 1 && s[j] == front[i];
                assert(s[j] == all[i]);
            } else {
                assert(all[i] == s[k - 1]);
            }
        }
        assert forall|j: int|
            0 <= j < k && within(#[trigger] s[j], bottom_left, top_right) implies all.contains(
            s[j],
        ) by {
            if j < k - 1 {
                assert(front.contains(s[j]));
                let i = choose|i: int| 0 <= i < front.len() && front[i] == s[j];
                assert(all[i] == s[j]);
            } else {
                assert(all[all.len() - 1] == s[j]);
            }
        }
    }
}

/// Each swept point stands in one of the buckets and lies in the box, and
/// each point of these buckets in the box is swept.
pub proof fn lemma_swept(
    t: Seq<Seq<Point>>,
    left: int,
    end: int,
    bottom_left: [i32; 2],
    top_right: [i32; 2],
)
    requires
        0 <= left,
        end <= t.len(),
    ensures
        forall|i: int|
            0 <= i < swept(t, left, end, bottom_left, top_right).len() ==> within(
                #[trigger] swept(t, left, end, bottom_left, top_right)[i],
                bottom_left,
                top_right,
            ) && exists|b: int, j: int|
                left <= b < end && stands_at(
                    t,
                    b,
                    j,
                    swept(t, left, end, bottom_left, top_right)[i],
                ),
        forall|b: int, j: int, p: Point|
            left <= b < end && #[trigger] stands_at(t, b, j, p) && within(p, bottom_left, top_right)
                ==> swept(t, left, end, bottom_left, top_right).contains(p),
    decreases end - left,
{
    if end > left {
        lemma_swept(t, left, end - 1, bottom_left, top_right);
        let last = t[end - 1];
        lemma_kept(last, last.len() as int, bottom_left, top_right);
        let front = swept(t, left, end - 1, bottom_left, top_right);
        let kept = kept_upto(last, last.len() as int, bottom_left, top_right);
        let all = swept(t, left, end, bottom_left, top_right);
        assert(all == front + kept);
        assert forall|i: int| 0 <= i < all.len() implies within(
            #[trigger] all[i],
            bottom_left,
            top_right,
        ) && exists|b: int, j: int| left <= b < end && stands_at(t, b, j, all[i]) by {
            if i < front.len() {
                assert(all[i] == front[i]);
                let (b, j) = choose|b: int, j: int|
                    left <= b < end - 1 && stands_at(t, b, j, front[i]);
                assert(stands_at(t, b, j, all[i]));
            } else {
                let h = i - front.len();
                assert(all[i] == kept[h]);
                let j = choose|j: int| 0 <= j < last.len() && last[j] == kept[h];
                assert(stands_at(t, end - 1, j, all[i]));
            }
        }
        assert forall|b: int, j: int, p: Point|
            left <= b < end && #[trigger] stands_at(t, b, j, p) && within(
                p,
                bottom_left,
                top_right,
            ) implies all.contains(p) by {
            if b < end - 1 {
                assert(front.contains(p));
                let i = choose|i: int| 0 <= i < front.len() && front[i] == p;
                assert(all[i] == p);
            } else {
                assert(within(last[j], bottom_left, top_right));
                assert(kept.contains(last[j]));
                let i = choose|i: int| 0 <= i < kept.len() && kept[i] == p;
                assert(all[front.len() + i] == p);
            }
        }
    }
}

/// Each kept point stands at a position of the bucket.
pub proof fn lemma_kept_one(
    s: Seq<Point>,
    k: int,
    bottom_left: [i32; 2],
    top_right: [i32; 2],
    i: int,
) -> (a: int)
    requires
        0 <= k <= s.len(),
        0 <= i < kept_upto(s, k, bottom_left, top_right).len(),
    ensures
        0 <= a < k,
        s[a] == kept_upto(s, k, bottom_left, top_right)[i],
    decreases k,
{
    let front = kept_upto(s, k - 1, bottom_left, top_right);
    if i < front.len() {
        lemma_kept_one(s, k - 1, bottom_left, top_right, i)
    } else {
        k - 1
    }
}

/// Of two kept points the earlier one stands earlier in the bucket.
pub proof fn lemma_kept_pair(
    s: Seq<Point>,
    k: int,
    bottom_left: [i32; 2],
    top_right: [i32; 2],
    i: int,
    j: int,
) -> (at: (int, int))
    requires
        0 <= k <= s.len(),
        0 <= i < j < kept_upto(s, k, bottom_left, top_right).len(),
    ensures
        0 <= at.0 < at.1 < k,
        s[at.0] == kept_upto(s, k, bottom_left, top_right)[i],
        s[at.1] == kept_upto(s, k, bottom_left, top_right)[j],
    decreases k,
{
    let front = kept_upto(s, k - 1, bottom_left, top_right);
    if j < front.len() {
        lemma_kept_pair(s, k - 1, bottom_left, top_right, i, j)
    } else {
        let a = lemma_kept_one(s, k - 1, bottom_left, top_right, i);
        (a, k - 1)
    }
}

/// Each swept point stands at a position of one of the buckets.
pub proof fn lemma_swept_one(
    t: Seq<Seq<Point>>,
    left: int,
    end: int,
    bottom_left: [i32; 2],
    top_right: [i32; 2],
    i: int,
) -> (at: (int, int))
    requires
        0 <= left,
        end <= t.len(),
        0 <= i < swept(t, left, end, bottom_left, top_right).len(),
    ensures
        left <= at.0 < end,
        stands_at(t, at.0, at.1, swept(t, left, end, bottom_left, top_right)[i]),
    decreases end - left,
{
    let front = swept(t, left, end - 1, bottom_left, top_right);
    let last = t[end - 1];
    if i < front.len() {
        lemma_swept_one(t, left, end - 1, bottom_left, top_right, i)
    } else {
        let a = lemma_kept_one(
            last,
            last.len() as int,
            bottom_left,
            top_right,
            i - front.len(),
        );
        (end - 1, a)
    }
}

/// Of two swept points the earlier one stands in an earlier bucket, or
/// earlier in the same bucket.
pub proof fn lemma_swept_pair(
    t: Seq<Seq<Point>>,
    left: int,
    end: int,
    bottom_left: [i32; 2],
    top_right: [i32; 2],
    i: int,
    j: int,
) -> (at: ((int, int), (int, int)))
    requires
        0 <= left,
        end <= t.len(),
        0 <= i < j < swept(t, left, end, bottom_left, top_right).len(),
    ensures
        left <= at.0.0 <= at.1.0 < end,
        at.0.0 == at.1.0 ==> at.0.1 < at.1.1,
        stands_at(t, at.0.0, at.0.1, swept(t, left, end, bottom_left, top_right)[i]),
        stands_at(t, at.1.0, at.1.1, swept(t, left, end, bottom_left, top_right)[j]),
    decreases end - left,
{
    let front = swept(t, left, end - 1, bottom_left, top_right);
    let last = t[end - 1];
    if j < front.len() {
        lemma_swept_pair(t, left, end - 1, bottom_left, top_right, i, j)
    } else if i < front.len() {
        let first = lemma_swept_one(t, left, end - 1, bottom_left, top_right, i);
        let a = lemma_kept_one(
            last,
            last.len() as int,
            bottom_left,
            top_right,
            j - front.len(),
        );
        (first, (end - 1, a))
    } else {
        let both = lemma_kept_pair(
            last,
            last.len() as int,
            bottom_left,
            top_right,
            i - front.len(),
            j - front.len(),
        );
        ((end - 1, both.0), (end - 1, both.1))
    }
}

impl<M: Model> LearnedHashMap<M> {
    /// What a range search gives: the stored points in the box that stand in
    /// the buckets from that of the bottom left corner to that of the top
    /// right corner, bucket after bucket. There are none where the first of
    /// these buckets lies beyond the table or behind the last.
    pub open spec fn range_result(&self, bottom_left: [i32; 2], top_right: [i32; 2]) -> Seq<Point> {
        let left = self.bucket_for((bottom_left@[0], bottom_left@[1]));
        let last = self.bucket_for((top_right@[0], top_right@[1]));
        let right = if last >= self.buckets().len() {
            self.buckets().len() - 1
        } else {
            last
        };
        if left >= self.buckets().len() || left > right {
            Seq::<Point>::empty()
        } else {
            swept(self.buckets(), left, right + 1, bottom_left, top_right)
        }
    }

    /// Range search finds the stored points in a box.
    ///
    /// ```text
    ///      |                    top right
    ///      |        .-----------*
    ///      |        | .   .     |
    ///      |        |  .  .  .  |
    ///      |        |       .   |
    ///   bottom left *-----------.
    ///      |
    ///      |        |           |
    ///      |________v___________v________
    ///              left       right
    ///              hash       hash
    /// ```
    ///
    /// Only the buckets from that of the bottom left corner to that of the
    /// top right corner are searched. With a monotonic hasher these hold
    /// every stored point of the box. Where no point is found there is no
    /// result.
    #[verifier::loop_isolation(false)]
    pub fn range_search(&mut self, bottom_left: &[i32; 2], top_right: &[i32; 2]) -> (r: Option<
        Vec<Point>,
    >)
        requires
            old(self).wf(),
        ensures
            final(self).wf(),
            final(self).same_as(old(self)),
            r.is_none() <==> old(self).range_result(*bottom_left, *top_right).len() == 0,
            r matches Some(found) ==> found@ == old(self).range_result(*bottom_left, *top_right),
            r matches Some(found) ==> forall|i: int|
                0 <= i < found@.len() ==> within(#[trigger] found@[i], *bottom_left, *top_right)
                    && old(self)@.contains_key(found@[i].pos()) && old(self)@[found@[i].pos()]
                    == found@[i].id,
            old(self).hasher_spec().is_monotonic() ==> forall|place: (i32, i32)|
                #![trigger old(self)@.contains_key(place)]
                old(self)@.contains_key(place) && within(
                    Point { id: old(self)@[place], x: place.0, y: place.1 },
                    *bottom_left,
                    *top_right,
                ) ==> r.is_some() && r.unwrap()@.contains(
                    Point { id: old(self)@[place], x: place.0, y: place.1 },
                ),
            r matches Some(found) ==> forall|i: int, j: int|
                0 <= i < j < found@.len() ==> (#[trigger] found@[i]).pos() != (
                #[trigger] found@[j]).pos(),
            r matches Some(found) ==> old(self).hasher_spec().is_monotonic() && old(self).sorted()
                ==> is_sorted(found@, old(self).hasher_spec().sort_by_x),
    {
        let capacity: usize = self.table.capacity();
        let right_hash: u64 = make_hash_point(&mut self.hasher, top_right);
        let left_hash: u64 = make_hash_point(&mut self.hasher, bottom_left);
        proof {
            self.lemma_same_as(old(self));
            old(self).lemma_range(*bottom_left, *top_right);
            old(self).lemma_range_order(*bottom_left, *top_right);
            assert(self.range_result(*bottom_left, *top_right) == old(self).range_result(
                *bottom_left,
                *top_right,
            ));
        }
        if left_hash >= capacity as u64 {
            return None;
        }
        let right: usize = if right_hash >= capacity as u64 {
            capacity - 1
        } else {
            right_hash as usize
        };
        let left: usize = left_hash as usize;
        if left > right {
            return None;
        }
        let ghost t = self.buckets();
        let mut result: Vec<Point> = Vec::new();
        let mut i: usize = left;
        while i <= right
            invariant
                left <= i <= right + 1,
                right < capacity,
                self.buckets() == t,
                result@ == swept(t, left as int, i as int, *bottom_left, *top_right),
            decreases right + 1 - i,
        {
            let bucket = self.table.bucket_ref(i);
            let n: usize = bucket.len();
            let ghost start = result@;
            let mut j: usize = 0;
            while j < n
                invariant
                    j <= n,
                    n == t[i as int].len(),
                    bucket@ == t[i as int],
                    result@ == start + kept_upto(t[i as int], j as int, *bottom_left, *top_right),
                decreases n - j,
            {
                let item: &Point = bucket.get(j);
                if item.x >= bottom_left[0] && item.x <= top_right[0] && item.y >= bottom_left[1]
                    && item.y <= top_right[1] {
                    result.push(*item);
                }
                j += 1;
                assert(result@ =~= start + kept_upto(
                    t[i as int],
                    j as int,
                    *bottom_left,
                    *top_right,
                ));
            }
            i += 1;
        }
        if result.len() == 0 {
            return None;
        }
        Some(result)
    }

    /// The order of the result of a range search: no two of its points lie
    /// at one place, so that each stored point is listed once. And where the
    /// hasher is monotonic and each bucket is in the order of the
    /// coordinates on the axis of the hasher, the result ascends on that
    /// axis.
    pub proof fn lemma_range_order(&self, bottom_left: [i32; 2], top_right: [i32; 2])
        requires
            self.wf(),
        ensures
            forall|i: int, j: int|
                0 <= i < j < self.range_result(bottom_left, top_right).len() ==> (
                #[trigger] self.range_result(bottom_left, top_right)[i]).pos() != (
                #[trigger] self.range_result(bottom_left, top_right)[j]).pos(),
            self.hasher_spec().is_monotonic() && self.sorted() ==> is_sorted(
                self.range_result(bottom_left, top_right),
                self.hasher_spec().sort_by_x,
            ),
    {
        let t = self.buckets();
        let found = self.range_result(bottom_left, top_right);
        let by_x = self.hasher_spec().sort_by_x;
        let left = self.bucket_for((bottom_left@[0], bottom_left@[1]));
        let last = self.bucket_for((top_right@[0], top_right@[1]));
        let right = if last >= t.len() {
            t.len() - 1
        } else {
            last
        };
        assert forall|i: int, j: int| 0 <= i < j < found.len() implies (#[trigger] found[i]).pos()
            != (#[trigger] found[j]).pos() by {
            let at = lemma_swept_pair(t, left, right + 1, bottom_left, top_right, i, j);
        }
        if self.hasher_spec().is_monotonic() && self.sorted() {
            assert forall|i: int, j: int| 0 <= i <= j < found.len() implies key_of(
                found[i],
                by_x,
            ) <= key_of(found[j], by_x) by {
                if i < j {
                    let at = lemma_swept_pair(t, left, right + 1, bottom_left, top_right, i, j);
                    let (b1, a1) = at.0;
                    let (b2, a2) = at.1;
                    if b1 == b2 {
                        assert(is_sorted(t[b1], by_x));
                        assert(key_of(t[b1][a1], by_x) <= key_of(t[b1][a2], by_x));
                    } else {
                        let h = self.hasher_spec();
                        assert((self.index())(found[i].pos()) == b1);
                        assert((self.index())(found[j].pos()) == b2);
                        assert(h.spec_hash(key_of(found[i], by_x)) == b1);
                        assert(h.spec_hash(key_of(found[j], by_x)) == b2);
                        if key_of(found[j], by_x) < key_of(found[i], by_x) {
                            assert(h.spec_hash(key_of(found[j], by_x)) <= h.spec_hash(
                                key_of(found[i], by_x),
                            ));
                        }
                    }
                }
            }
        }
    }

    /// What is true of the result of a range search: each of its points is
    /// stored and lies in the box, and with a monotonic hasher each stored
    /// point in the box is among them.
    pub proof fn lemma_range(&self, bottom_left: [i32; 2], top_right: [i32; 2])
        requires
            self.wf(),
        ensures
            forall|i: int|
                0 <= i < self.range_result(bottom_left, top_right).len() ==> within(
                    #[trigger] self.range_result(bottom_left, top_right)[i],
                    bottom_left,
                    top_right,
                ) && self@.contains_key(self.range_result(bottom_left, top_right)[i].pos())
                    && self@[self.range_result(bottom_left, top_right)[i].pos()]
                    == self.range_result(bottom_left, top_right)[i].id,
            self.hasher_spec().is_monotonic() ==> forall|place: (i32, i32)|
                #![trigger self@.contains_key(place)]
                self@.contains_key(place) && within(
                    Point { id: self@[place], x: place.0, y: place.1 },
                    bottom_left,
                    top_right,
                ) ==> self.range_result(bottom_left, top_right).contains(
                    Point { id: self@[place], x: place.0, y: place.1 },
                ),
    {
        let t = self.buckets();
        let found = self.range_result(bottom_left, top_right);
        let left = self.bucket_for((bottom_left@[0], bottom_left@[1]));
        let last = self.bucket_for((top_right@[0], top_right@[1]));
        let right = if last >= t.len() {
            t.len() - 1
        } else {
            last
        };
        lemma_distinct_is_functional(t);
        lemma_place_map(points(t));
        if !(left >= t.len() || left > right) {
            lemma_swept(t, left, right + 1, bottom_left, top_right);
        }
        assert forall|i: int| 0 <= i < found.len() implies within(
            #[trigger] found[i],
            bottom_left,
            top_right,
        ) && self@.contains_key(found[i].pos()) && self@[found[i].pos()] == found[i].id by {
            let (b, j) = choose|b: int, j: int| left <= b < right + 1 && stands_at(t, b, j, found[i]);
            lemma_held(t, b, j);
        }
        if self.hasher_spec().is_monotonic() {
            assert forall|place: (i32, i32)|
                #![trigger self@.contains_key(place)]
                self@.contains_key(place) && within(
                    Point { id: self@[place], x: place.0, y: place.1 },
                    bottom_left,
                    top_right,
                ) implies found.contains(Point { id: self@[place], x: place.0, y: place.1 }) by {
                let p = Point { id: self@[place], x: place.0, y: place.1 };
                assert(points(t).contains(p));
                let (b, j) = choose|b: int, j: int| stands_at(t, b, j, p);
                assert(stands_at(t, b, j, p));
                assert((self.index())(p.pos()) == b);
                let h = self.hasher_spec();
                assert(h.spec_hash(h.key(bottom_left@[0], bottom_left@[1])) <= h.spec_hash(
                    h.key(p.x, p.y),
                ));
                assert(h.spec_hash(h.key(p.x, p.y)) <= h.spec_hash(
                    h.key(top_right@[0], top_right@[1]),
                ));
            }
        }
    }

    /// Finds the stored points in the square around a point whose sides are
    /// `radius` away from it: the points within `radius` of it on both axes.
    pub fn radius_range(&mut self, query_point: &[i32; 2], radius: i32) -> (r: Option<Vec<Point>>)
        requires
            old(self).wf(),
        ensures
            final(self).wf(),
            final(self).same_as(old(self)),
            ({
                let bottom_left = [
                    held_to_scalar(query_point@[0] - radius),
                    held_to_scalar(query_point@[1] - radius),
                ];
                let top_right = [
                    held_to_scalar(query_point@[0] + radius),
                    held_to_scalar(query_point@[1] + radius),
                ];
                &&& r.is_none() <==> old(self).range_result(bottom_left, top_right).len() == 0
                &&& r matches Some(found) ==> found@ == old(self).range_result(
                    bottom_left,
                    top_right,
                )
            }),
            r matches Some(found) ==> forall|i: int|
                0 <= i < found@.len() ==> near(#[trigger] found@[i], *query_point, radius) && old(
                    self,
                )@.contains_key(found@[i].pos()) && old(self)@[found@[i].pos()] == found@[i].id,
            old(self).hasher_spec().is_monotonic() ==> forall|place: (i32, i32)|
                #![trigger old(self)@.contains_key(place)]
                old(self)@.contains_key(place) && near(
                    Point { id: old(self)@[place], x: place.0, y: place.1 },
                    *query_point,
                    radius,
                ) ==> r.is_some() && r.unwrap()@.contains(
                    Point { id: old(self)@[place], x: place.0, y: place.1 },
                ),
            r matches Some(found) ==> forall|i: int, j: int|
                0 <= i < j < found@.len() ==> (#[trigger] found@[i]).pos() != (
                #[trigger] found@[j]).pos(),
            r matches Some(found) ==> old(self).hasher_spec().is_monotonic() && old(self).sorted()
                ==> is_sorted(found@, old(self).hasher_spec().sort_by_x),
    {
        let bottom_left: [i32; 2] = [
            hold_to_scalar(query_point[0] as i64 - radius as i64),
            hold_to_scalar(query_point[1] as i64 - radius as i64),
        ];
        let top_right: [i32; 2] = [
            hold_to_scalar(query_point[0] as i64 + radius as i64),
            hold_to_scalar(query_point[1] as i64 + radius as i64),
        ];
        assert forall|p: Point|
            near(p, *query_point, radius) == within(p, bottom_left, top_right) by {}
        self.range_search(&bottom_left, &top_right)
    }
}

/// A number held to the range of the scalar type.
pub open spec fn held_to_scalar(v: int) -> i32 {
    if v < i32::MIN {
        i32::MIN
    } else if v > i32::MAX {
        i32::MAX
    } else {
        v as i32
    }
}

/// A number held to the range of the scalar type.
pub fn hold_to_scalar(v: i64) -> (r: i32)
    ensures
        r == held_to_scalar(v as int),
{
    if v < i32::MIN as i64 {
        i32::MIN
    } else if v > i32::MAX as i64 {
        i32::MAX
    } else {
        v as i32
    }
}

/// Whether a point is within `radius` of a place on both axes.
pub open spec fn near(p: Point, center: [i32; 2], radius: i32) -> bool {
    &&& center@[0] - radius <= p.x <= center@[0] + radius
    &&& center@[1] - radius <= p.y <= center@[1] + radius
}

} // verus!
