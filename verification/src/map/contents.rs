//! What a table of buckets holds, as a set of points and as a map from
//! places to identifiers, and how the changes to a bucket change it.
use crate::geometry::Point;
use crate::geometry::helper::{is_sorted, key_of};
use crate::map::table::{is_first_at, swap_removed};
use vstd::prelude::*;

verus! {

/// Whether `p` stands at position `j` of bucket `b`.
pub open spec fn stands_at(t: Seq<Seq<Point>>, b: int, j: int, p: Point) -> bool {
    0 <= b < t.len() && 0 <= j < t[b].len() && t[b][j] == p
}

/// The points that the buckets hold.
pub open spec fn points(t: Seq<Seq<Point>>) -> Set<Point> {
    Set::new(|p: Point| exists|b: int, j: int| stands_at(t, b, j, p))
}

/// Whether no two positions of the buckets hold points at the same place.
pub open spec fn distinct(t: Seq<Seq<Point>>) -> bool {
    forall|b1: int, j1: int, b2: int, j2: int, p: Point, q: Point|
        #![trigger stands_at(t, b1, j1, p), stands_at(t, b2, j2, q)]
        stands_at(t, b1, j1, p) && stands_at(t, b2, j2, q) && p.pos() == q.pos() ==> b1 == b2
            && j1 == j2
}

/// Whether no two points of the set lie at the same place.
pub open spec fn functional(s: Set<Point>) -> bool {
    forall|p: Point, q: Point|
        #![trigger s.contains(p), s.contains(q)]
        s.contains(p) && s.contains(q) && p.pos() == q.pos() ==> p == q
}

/// Whether a point of the set lies at the place.
pub open spec fn occupied(s: Set<Point>, place: (i32, i32)) -> bool {
    exists|p: Point| #[trigger] s.contains(p) && p.pos() == place
}

/// A point of the set that lies at the place.
pub open spec fn occupant(s: Set<Point>, place: (i32, i32)) -> Point {
    choose|p: Point| #[trigger] s.contains(p) && p.pos() == place
}

/// The map from the places of the points of a set to their identifiers.
pub open spec fn place_map(s: Set<Point>) -> Map<(i32, i32), usize> {
    Map::new(|place: (i32, i32)| occupied(s, place), |place: (i32, i32)| occupant(s, place).id)
}

/// The map from the places of the points in the buckets to their
/// identifiers.
pub open spec fn contents(t: Seq<Seq<Point>>) -> Map<(i32, i32), usize> {
    place_map(points(t))
}

/// The number of points in the first `n` buckets.
pub open spec fn count_upto(t: Seq<Seq<Point>>, n: int) -> int
    decreases n,
{
    if n <= 0 {
        0
    } else {
        count_upto(t, n - 1) + t[n - 1].len()
    }
}

/// The number of points in the buckets.
pub open spec fn count(t: Seq<Seq<Point>>) -> int {
    count_upto(t, t.len() as int)
}

/// The map that results from putting the points of a sequence into a map one
/// after the other, each at its place with its identifier: a later point
/// takes the place of an earlier one.
pub open spec fn insert_all(m: Map<(i32, i32), usize>, s: Seq<Point>) -> Map<(i32, i32), usize>
    decreases s.len(),
{
    if s.len() == 0 {
        m
    } else {
        insert_all(m, s.drop_last()).insert(s.last().pos(), s.last().id)
    }
}

/// In a set without two points at one place, the map gives each point's
/// identifier at its place, and has no other places.
pub proof fn lemma_place_map(s: Set<Point>)
    requires
        functional(s),
    ensures
        forall|p: Point| #[trigger]
            s.contains(p) ==> place_map(s).contains_key(p.pos()) && place_map(s)[p.pos()] == p.id,
        forall|place: (i32, i32)| #[trigger]
            place_map(s).contains_key(place) ==> s.contains(
                Point { id: place_map(s)[place], x: place.0, y: place.1 },
            ),
{
    assert forall|p: Point| #[trigger] s.contains(p) implies place_map(s).contains_key(p.pos())
        && place_map(s)[p.pos()] == p.id by {
        assert(occupied(s, p.pos()));
        let q = occupant(s, p.pos());
        assert(s.contains(q) && q.pos() == p.pos());
    }
    assert forall|place: (i32, i32)| #[trigger] place_map(s).contains_key(place) implies s.contains(
        Point { id: place_map(s)[place], x: place.0, y: place.1 },
    ) by {
        let q = occupant(s, place);
        assert(s.contains(q) && q.pos() == place);
        assert(q == Point { id: q.id, x: place.0, y: place.1 });
    }
}

/// Adding a point at a free place adds its place to the map.
pub proof fn lemma_place_map_insert(s: Set<Point>, p: Point)
    requires
        functional(s),
        !occupied(s, p.pos()),
    ensures
        functional(s.insert(p)),
        place_map(s.insert(p)) == place_map(s).insert(p.pos(), p.id),
{
    let s2 = s.insert(p);
    assert forall|a: Point, b: Point|
        #![trigger s2.contains(a), s2.contains(b)]
        s2.contains(a) && s2.contains(b) && a.pos() == b.pos() implies a == b by {
        if a != p {
            assert(s.contains(a));
        }
        if b != p {
            assert(s.contains(b));
        }
    }
    lemma_place_map(s);
    lemma_place_map(s2);
    assert(s2.contains(p));
    assert forall|place: (i32, i32)| #[trigger]
        place_map(s2).contains_key(place) == place_map(s).insert(p.pos(), p.id).contains_key(
            place,
        ) by {
        if place_map(s2).contains_key(place) {
            let q = Point { id: place_map(s2)[place], x: place.0, y: place.1 };
            assert(s2.contains(q));
            if q != p {
                assert(s.contains(q));
            }
        }
        if place_map(s).contains_key(place) {
            let q = Point { id: place_map(s)[place], x: place.0, y: place.1 };
            assert(s.contains(q));
            assert(s2.contains(q));
        }
    }
    assert forall|place: (i32, i32)| #[trigger]
        place_map(s2).contains_key(place) implies place_map(s2)[place] == place_map(s).insert(
        p.pos(),
        p.id,
    )[place] by {
        let q = Point { id: place_map(s2)[place], x: place.0, y: place.1 };
        assert(s2.contains(q));
        if q != p {
            assert(s.contains(q));
        }
    }
    assert(place_map(s2) =~= place_map(s).insert(p.pos(), p.id));
}

/// Taking a point out takes its place out of the map.
pub proof fn lemma_place_map_remove(s: Set<Point>, p: Point)
    requires
        functional(s),
        s.contains(p),
    ensures
        functional(s.remove(p)),
        !occupied(s.remove(p), p.pos()),
        place_map(s.remove(p)) == place_map(s).remove(p.pos()),
{
    let s2 = s.remove(p);
    assert forall|a: Point, b: Point|
        #![trigger s2.contains(a), s2.contains(b)]
        s2.contains(a) && s2.contains(b) && a.pos() == b.pos() implies a == b by {
        assert(s.contains(a) && s.contains(b));
    }
    if occupied(s2, p.pos()) {
        let q = occupant(s2, p.pos());
        assert(s.contains(q) && s.contains(p));
        assert(false);
    }
    lemma_place_map(s);
    lemma_place_map(s2);
    assert forall|place: (i32, i32)| #[trigger]
        place_map(s2).contains_key(place) == place_map(s).remove(p.pos()).contains_key(place) by {
        if place_map(s2).contains_key(place) {
            let q = Point { id: place_map(s2)[place], x: place.0, y: place.1 };
            assert(s2.contains(q));
            assert(s.contains(q));
        }
        if place_map(s).contains_key(place) && place != p.pos() {
            let q = Point { id: place_map(s)[place], x: place.0, y: place.1 };
            assert(s.contains(q));
            assert(s2.contains(q));
        }
    }
    assert forall|place: (i32, i32)| #[trigger]
        place_map(s2).contains_key(place) implies place_map(s2)[place] == place_map(s).remove(
        p.pos(),
    )[place] by {
        let q = Point { id: place_map(s2)[place], x: place.0, y: place.1 };
        assert(s2.contains(q));
        assert(s.contains(q));
    }
    assert(place_map(s2) =~= place_map(s).remove(p.pos()));
}

/// Replacing a bucket changes the count by the difference of the lengths.
pub proof fn lemma_count_update(t: Seq<Seq<Point>>, b: int, bucket: Seq<Point>)
    requires
        0 <= b < t.len(),
    ensures
        count(t.update(b, bucket)) == count(t) - t[b].len() + bucket.len(),
{
    lemma_count_update_upto(t, b, bucket, t.len() as int);
}

/// Replacing a bucket changes the count of the first `n` buckets by the
/// difference of the lengths, where the bucket is among them.
pub proof fn lemma_count_update_upto(t: Seq<Seq<Point>>, b: int, bucket: Seq<Point>, n: int)
    requires
        0 <= b < t.len(),
        0 <= n <= t.len(),
    ensures
        count_upto(t.update(b, bucket), n) == count_upto(t, n) + (if b < n {
            bucket.len() - t[b].len()
        } else {
            0
        }),
    decreases n,
{
    if n > 0 {
        lemma_count_update_upto(t, b, bucket, n - 1);
    }
}

/// No bucket holds more points than all buckets together.
pub proof fn lemma_count_bounds(t: Seq<Seq<Point>>, b: int, n: int)
    requires
        0 <= b < n <= t.len(),
    ensures
        0 <= t[b].len() <= count_upto(t, n),
        0 <= count_upto(t, b),
    decreases n,
{
    lemma_count_nonnegative(t, n - 1);
    lemma_count_nonnegative(t, b);
    if b < n - 1 {
        lemma_count_bounds(t, b, n - 1);
    }
}

/// A count is not negative.
pub proof fn lemma_count_nonnegative(t: Seq<Seq<Point>>, n: int)
    ensures
        0 <= count_upto(t, n),
    decreases n,
{
    if n > 0 {
        lemma_count_nonnegative(t, n - 1);
    }
}

/// Buckets that are all empty hold nothing.
pub proof fn lemma_empty_buckets(t: Seq<Seq<Point>>)
    requires
        forall|b: int| 0 <= b < t.len() ==> (#[trigger] t[b]).len() == 0,
    ensures
        distinct(t),
        points(t) == Set::<Point>::empty(),
        contents(t) == Map::<(i32, i32), usize>::empty(),
        count(t) == 0,
{
    lemma_empty_count(t, t.len() as int);
    assert(points(t) =~= Set::<Point>::empty());
    assert(contents(t) =~= Map::<(i32, i32), usize>::empty());
}

/// The first `n` buckets hold nothing where each of them is empty.
pub proof fn lemma_empty_count(t: Seq<Seq<Point>>, n: int)
    requires
        0 <= n <= t.len(),
        forall|b: int| 0 <= b < t.len() ==> (#[trigger] t[b]).len() == 0,
    ensures
        count_upto(t, n) == 0,
    decreases n,
{
    if n > 0 {
        lemma_empty_count(t, n - 1);
    }
}

/// Buckets with a count of zero hold no point.
pub proof fn lemma_zero_count(t: Seq<Seq<Point>>)
    requires
        count(t) == 0,
    ensures
        points(t) == Set::<Point>::empty(),
        contents(t) == Map::<(i32, i32), usize>::empty(),
{
    assert forall|p: Point| !points(t).contains(p) by {
        if points(t).contains(p) {
            let (b, j) = choose|b: int, j: int| stands_at(t, b, j, p);
            lemma_count_bounds(t, b, t.len() as int);
        }
    }
    assert(points(t) =~= Set::<Point>::empty());
    assert(contents(t) =~= Map::<(i32, i32), usize>::empty());
}

/// Tables that agree on their first `n` buckets agree on the count of these.
pub proof fn lemma_count_same_prefix(t: Seq<Seq<Point>>, u: Seq<Seq<Point>>, n: int)
    requires
        0 <= n <= t.len(),
        n <= u.len(),
        forall|b: int| 0 <= b < n ==> t[b] == u[b],
    ensures
        count_upto(t, n) == count_upto(u, n),
    decreases n,
{
    if n > 0 {
        lemma_count_same_prefix(t, u, n - 1);
    }
}

/// Putting a point at a free place into a bucket adds it to what is held.
pub proof fn lemma_bucket_insert(t: Seq<Seq<Point>>, b: int, position: int, p: Point)
    requires
        0 <= b < t.len(),
        0 <= position <= t[b].len(),
        distinct(t),
        !occupied(points(t), p.pos()),
    ensures
        distinct(t.update(b, t[b].insert(position, p))),
        points(t.update(b, t[b].insert(position, p))) == points(t).insert(p),
        count(t.update(b, t[b].insert(position, p))) == count(t) + 1,
{
    let t2 = t.update(b, t[b].insert(position, p));
    lemma_count_update(t, b, t[b].insert(position, p));
    // where each position of the new table comes from
    assert forall|b2: int, j2: int, q: Point| #[trigger] stands_at(t2, b2, j2, q) implies (q == p
        && b2 == b && j2 == position) || stands_at(
        t,
        b2,
        if b2 == b && j2 > position {
            j2 - 1
        } else {
            j2
        },
        q,
    ) by {}
    assert forall|q: Point| points(t2).contains(q) == points(t).insert(p).contains(q) by {
        if points(t2).contains(q) {
            let (b2, j2) = choose|b2: int, j2: int| stands_at(t2, b2, j2, q);
            assert(stands_at(t2, b2, j2, q));
        }
        if points(t).contains(q) {
            let (b1, j1) = choose|b1: int, j1: int| stands_at(t, b1, j1, q);
            let j2 = if b1 == b && j1 >= position {
                j1 + 1
            } else {
                j1
            };
            assert(stands_at(t2, b1, j2, q));
        }
        if q == p {
            assert(stands_at(t2, b, position, p));
        }
    }
    assert(points(t2) =~= points(t).insert(p));
    assert forall|b1: int, j1: int, b2: int, j2: int, q1: Point, q2: Point|
        #![trigger stands_at(t2, b1, j1, q1), stands_at(t2, b2, j2, q2)]
        stands_at(t2, b1, j1, q1) && stands_at(t2, b2, j2, q2) && q1.pos() == q2.pos() implies b1
        == b2 && j1 == j2 by {
        let fresh1 = q1 == p && b1 == b && j1 == position;
        let fresh2 = q2 == p && b2 == b && j2 == position;
        let i1 = if b1 == b && j1 > position {
            j1 - 1
        } else {
            j1
        };
        let i2 = if b2 == b && j2 > position {
            j2 - 1
        } else {
            j2
        };
        if !fresh1 {
            assert(stands_at(t, b1, i1, q1));
            assert(points(t).contains(q1));
        }
        if !fresh2 {
            assert(stands_at(t, b2, i2, q2));
            assert(points(t).contains(q2));
        }
        if !fresh1 && !fresh2 {
            assert(b1 == b2 && i1 == i2);
        }
    }
}

/// Putting a point in the place of one that lies where it does exchanges the
/// two in what is held.
pub proof fn lemma_bucket_replace(t: Seq<Seq<Point>>, b: int, position: int, p: Point)
    requires
        0 <= b < t.len(),
        0 <= position < t[b].len(),
        distinct(t),
        t[b][position].pos() == p.pos(),
    ensures
        distinct(t.update(b, t[b].update(position, p))),
        points(t.update(b, t[b].update(position, p))) == points(t).remove(t[b][position]).insert(
            p,
        ),
        count(t.update(b, t[b].update(position, p))) == count(t),
{
    let t2 = t.update(b, t[b].update(position, p));
    let previous = t[b][position];
    lemma_count_update(t, b, t[b].update(position, p));
    assert(stands_at(t, b, position, previous));
    assert forall|b2: int, j2: int, q: Point| #[trigger] stands_at(t2, b2, j2, q) implies (q == p
        && b2 == b && j2 == position) || (stands_at(t, b2, j2, q) && !(b2 == b && j2
        == position)) by {}
    assert forall|q: Point|
        points(t2).contains(q) == points(t).remove(previous).insert(p).contains(q) by {
        if points(t2).contains(q) {
            let (b2, j2) = choose|b2: int, j2: int| stands_at(t2, b2, j2, q);
            assert(stands_at(t2, b2, j2, q));
            if !(q == p && b2 == b && j2 == position) {
                assert(stands_at(t, b2, j2, q));
                if q == previous {
                    assert(b2 == b && j2 == position);
                }
            }
        }
        if points(t).contains(q) && q != previous {
            let (b1, j1) = choose|b1: int, j1: int| stands_at(t, b1, j1, q);
            assert(stands_at(t2, b1, j1, q));
        }
        if q == p {
            assert(stands_at(t2, b, position, p));
        }
    }
    assert(points(t2) =~= points(t).remove(previous).insert(p));
    assert forall|b1: int, j1: int, b2: int, j2: int, q1: Point, q2: Point|
        #![trigger stands_at(t2, b1, j1, q1), stands_at(t2, b2, j2, q2)]
        stands_at(t2, b1, j1, q1) && stands_at(t2, b2, j2, q2) && q1.pos() == q2.pos() implies b1
        == b2 && j1 == j2 by {
        let here1 = b1 == b && j1 == position;
        let here2 = b2 == b && j2 == position;
        let o1 = if here1 {
            previous
        } else {
            q1
        };
        let o2 = if here2 {
            previous
        } else {
            q2
        };
        assert(stands_at(t, b1, j1, o1));
        assert(stands_at(t, b2, j2, o2));
    }
}

/// Removing the point at a position of a bucket, with the last point of the
/// bucket taking its place, takes it out of what is held.
pub proof fn lemma_bucket_swap_remove(t: Seq<Seq<Point>>, b: int, position: int)
    requires
        0 <= b < t.len(),
        0 <= position < t[b].len(),
        distinct(t),
    ensures
        distinct(t.update(b, swap_removed(t[b], position))),
        points(t.update(b, swap_removed(t[b], position))) == points(t).remove(t[b][position]),
        count(t.update(b, swap_removed(t[b], position))) == count(t) - 1,
{
    let t2 = t.update(b, swap_removed(t[b], position));
    let removed = t[b][position];
    let last = t[b].len() - 1;
    lemma_count_update(t, b, swap_removed(t[b], position));
    assert(stands_at(t, b, position, removed));
    // where each position of the new table comes from
    assert forall|b2: int, j2: int, q: Point| #[trigger] stands_at(t2, b2, j2, q) implies stands_at(
        t,
        b2,
        if b2 == b && j2 == position {
            last
        } else {
            j2
        },
        q,
    ) && !(b2 == b && j2 == position && last == position) by {}
    assert forall|q: Point| points(t2).contains(q) == points(t).remove(removed).contains(q) by {
        if points(t2).contains(q) {
            let (b2, j2) = choose|b2: int, j2: int| stands_at(t2, b2, j2, q);
            assert(stands_at(t2, b2, j2, q));
            let i2 = if b2 == b && j2 == position {
                last
            } else {
                j2
            };
            assert(stands_at(t, b2, i2, q));
            if q == removed {
                assert(b2 == b && i2 == position);
            }
        }
        if points(t).contains(q) && q != removed {
            let (b1, j1) = choose|b1: int, j1: int| stands_at(t, b1, j1, q);
            let j2 = if b1 == b && j1 == last {
                position
            } else {
                j1
            };
            assert(stands_at(t2, b1, j2, q));
        }
    }
    assert(points(t2) =~= points(t).remove(removed));
    assert forall|b1: int, j1: int, b2: int, j2: int, q1: Point, q2: Point|
        #![trigger stands_at(t2, b1, j1, q1), stands_at(t2, b2, j2, q2)]
        stands_at(t2, b1, j1, q1) && stands_at(t2, b2, j2, q2) && q1.pos() == q2.pos() implies b1
        == b2 && j1 == j2 by {
        let i1 = if b1 == b && j1 == position {
            last
        } else {
            j1
        };
        let i2 = if b2 == b && j2 == position {
            last
        } else {
            j2
        };
        assert(stands_at(t, b1, i1, q1));
        assert(stands_at(t, b2, i2, q2));
    }
}

/// Where no two positions hold points at one place, no two held points lie
/// at one place.
pub proof fn lemma_distinct_is_functional(t: Seq<Seq<Point>>)
    requires
        distinct(t),
    ensures
        functional(points(t)),
{
    let s = points(t);
    assert forall|p: Point, q: Point|
        #![trigger s.contains(p), s.contains(q)]
        s.contains(p) && s.contains(q) && p.pos() == q.pos() implies p == q by {
        let (b1, j1) = choose|b1: int, j1: int| stands_at(t, b1, j1, p);
        let (b2, j2) = choose|b2: int, j2: int| stands_at(t, b2, j2, q);
        assert(stands_at(t, b1, j1, p) && stands_at(t, b2, j2, q));
    }
}

/// The points of the first `n` buckets, bucket after bucket.
pub open spec fn flat_upto(t: Seq<Seq<Point>>, n: int) -> Seq<Point>
    decreases n,
{
    if n <= 0 {
        Seq::<Point>::empty()
    } else {
        flat_upto(t, n - 1) + t[n - 1]
    }
}

/// The points of all buckets, bucket after bucket.
pub open spec fn flat(t: Seq<Seq<Point>>) -> Seq<Point> {
    flat_upto(t, t.len() as int)
}

/// Whether no two points of the sequence lie at one place.
pub open spec fn distinct_places(s: Seq<Point>) -> bool {
    forall|i: int, j: int| 0 <= i < j < s.len() ==> (#[trigger] s[i]).pos() != (#[trigger] s[j]).pos()
}

/// Whether a point of the sequence lies at the place.
pub open spec fn lies_in(s: Seq<Point>, place: (i32, i32)) -> bool {
    exists|i: int| 0 <= i < s.len() && (#[trigger] s[i]).pos() == place
}

/// The flattened buckets have as many points as the buckets count.
pub proof fn lemma_flat_len(t: Seq<Seq<Point>>, n: int)
    requires
        0 <= n <= t.len(),
    ensures
        flat_upto(t, n).len() == count_upto(t, n),
    decreases n,
{
    if n > 0 {
        lemma_flat_len(t, n - 1);
    }
}

/// The point at position `j` of bucket `b` stands in the flattened buckets
/// after the points of the buckets before `b`.
pub proof fn lemma_flat_index(t: Seq<Seq<Point>>, n: int, b: int, j: int)
    requires
        0 <= b < n <= t.len(),
        0 <= j < t[b].len(),
    ensures
        0 <= count_upto(t, b) + j < flat_upto(t, n).len(),
        flat_upto(t, n)[count_upto(t, b) + j] == t[b][j],
    decreases n,
{
    lemma_flat_len(t, n - 1);
    lemma_flat_len(t, n);
    lemma_count_nonnegative(t, b);
    if b < n - 1 {
        lemma_flat_index(t, n - 1, b, j);
    }
}

/// Each point of the flattened buckets stands at a position of a bucket.
pub proof fn lemma_flat_origin(t: Seq<Seq<Point>>, n: int, i: int) -> (at: (int, int))
    requires
        0 <= n <= t.len(),
        0 <= i < flat_upto(t, n).len(),
    ensures
        0 <= at.0 < n,
        0 <= at.1 < t[at.0].len(),
        i == count_upto(t, at.0) + at.1,
        flat_upto(t, n)[i] == t[at.0][at.1],
    decreases n,
{
    lemma_flat_len(t, n - 1);
    if i < flat_upto(t, n - 1).len() {
        lemma_flat_origin(t, n - 1, i)
    } else {
        (n - 1, i - flat_upto(t, n - 1).len())
    }
}

/// The flattened buckets hold the points of the buckets, and no two at one
/// place where no two positions of the buckets do.
pub proof fn lemma_flat_points(t: Seq<Seq<Point>>)
    ensures
        flat(t).len() == count(t),
        forall|i: int| 0 <= i < flat(t).len() ==> points(t).contains(#[trigger] flat(t)[i]),
        forall|p: Point| #[trigger] points(t).contains(p) ==> flat(t).contains(p),
        distinct(t) ==> distinct_places(flat(t)),
{
    let n = t.len() as int;
    lemma_flat_len(t, n);
    assert forall|i: int| 0 <= i < flat(t).len() implies points(t).contains(
        #[trigger] flat(t)[i],
    ) by {
        let at = lemma_flat_origin(t, n, i);
        assert(stands_at(t, at.0, at.1, flat(t)[i]));
    }
    assert forall|p: Point| #[trigger] points(t).contains(p) implies flat(t).contains(p) by {
        let (b, j) = choose|b: int, j: int| stands_at(t, b, j, p);
        lemma_flat_index(t, n, b, j);
    }
    if distinct(t) {
        assert forall|i: int, j: int| 0 <= i < j < flat(t).len() implies (#[trigger] flat(
            t,
        )[i]).pos() != (#[trigger] flat(t)[j]).pos() by {
            let a = lemma_flat_origin(t, n, i);
            let b = lemma_flat_origin(t, n, j);
            assert(stands_at(t, a.0, a.1, flat(t)[i]));
            assert(stands_at(t, b.0, b.1, flat(t)[j]));
        }
    }
}

/// Whether no later point of the sequence lies where the point at `i` does.
pub open spec fn is_last_at_its_place(s: Seq<Point>, i: int) -> bool {
    forall|j: int| i < j < s.len() ==> (#[trigger] s[j]).pos() != s[i].pos()
}

/// Putting a sequence of points into a map gives the places of the map and
/// of the points.
pub proof fn lemma_insert_all_places(m: Map<(i32, i32), usize>, s: Seq<Point>, place: (i32, i32))
    ensures
        insert_all(m, s).contains_key(place) <==> m.contains_key(place) || lies_in(s, place),
    decreases s.len(),
{
    if s.len() > 0 {
        let front = s.drop_last();
        lemma_insert_all_places(m, front, place);
        if lies_in(front, place) {
            let i = choose|i: int| 0 <= i < front.len() && (#[trigger] front[i]).pos() == place;
            assert(s[i].pos() == place);
        }
        if place == s.last().pos() {
            assert(s[s.len() - 1].pos() == place);
        }
        if lies_in(s, place) {
            let i = choose|i: int| 0 <= i < s.len() && (#[trigger] s[i]).pos() == place;
            if i < front.len() {
                assert(front[i].pos() == place);
            }
        }
    }
}

/// Putting a sequence of points into a map leaves the map as it is at the
/// places where none of the points lies.
pub proof fn lemma_insert_all_elsewhere(m: Map<(i32, i32), usize>, s: Seq<Point>, place: (i32, i32))
    requires
        !lies_in(s, place),
    ensures
        insert_all(m, s)[place] == m[place],
    decreases s.len(),
{
    if s.len() > 0 {
        let front = s.drop_last();
        assert(s[s.len() - 1].pos() != place);
        if lies_in(front, place) {
            let i = choose|i: int| 0 <= i < front.len() && (#[trigger] front[i]).pos() == place;
            assert(s[i].pos() == place);
        }
        lemma_insert_all_elsewhere(m, front, place);
    }
}

/// Putting a sequence of points into a map gives, at the place of a point of
/// the sequence after which no other lies there, the identifier of that
/// point.
pub proof fn lemma_insert_all_at(m: Map<(i32, i32), usize>, s: Seq<Point>, i: int)
    requires
        0 <= i < s.len(),
        is_last_at_its_place(s, i),
    ensures
        insert_all(m, s).contains_key(s[i].pos()),
        insert_all(m, s)[s[i].pos()] == s[i].id,
    decreases s.len(),
{
    let front = s.drop_last();
    if i < front.len() {
        assert(s[s.len() - 1].pos() != s[i].pos());
        assert forall|j: int| i < j < front.len() implies (#[trigger] front[j]).pos()
            != front[i].pos() by {
            assert(s[j].pos() != s[i].pos());
        }
        lemma_insert_all_at(m, front, i);
    }
}

/// Putting the points of the flattened buckets into an empty map gives what
/// the buckets hold, where no two positions hold points at one place.
pub proof fn lemma_insert_all_flat(t: Seq<Seq<Point>>)
    requires
        distinct(t),
    ensures
        insert_all(Map::<(i32, i32), usize>::empty(), flat(t)) == contents(t),
{
    let empty = Map::<(i32, i32), usize>::empty();
    let s = flat(t);
    let m = insert_all(empty, s);
    lemma_flat_points(t);
    lemma_distinct_is_functional(t);
    lemma_place_map(points(t));
    assert forall|place: (i32, i32)| m.contains_key(place) == contents(t).contains_key(
        place,
    ) by {
        lemma_insert_all_places(empty, s, place);
        if m.contains_key(place) {
            assert(lies_in(s, place));
            let i = choose|i: int| 0 <= i < s.len() && (#[trigger] s[i]).pos() == place;
            assert(points(t).contains(s[i]));
        }
        if contents(t).contains_key(place) {
            let q = Point { id: contents(t)[place], x: place.0, y: place.1 };
            assert(points(t).contains(q));
            assert(s.contains(q));
            let i = choose|i: int| 0 <= i < s.len() && s[i] == q;
            assert(s[i].pos() == place);
        }
    }
    assert forall|place: (i32, i32)| m.contains_key(place) implies m[place] == contents(
        t,
    )[place] by {
        lemma_insert_all_places(empty, s, place);
        assert(lies_in(s, place));
        let i = choose|i: int| 0 <= i < s.len() && (#[trigger] s[i]).pos() == place;
        assert(points(t).contains(s[i]));
        assert(is_last_at_its_place(s, i));
        lemma_insert_all_at(empty, s, i);
    }
    assert(m =~= contents(t));
}

/// Whether each point stands in the bucket that `index` gives for its place.
pub open spec fn placed_by(t: Seq<Seq<Point>>, index: spec_fn((i32, i32)) -> int) -> bool {
    forall|b: int, j: int, p: Point| #[trigger] stands_at(t, b, j, p) ==> index(p.pos()) == b
}

/// Putting a point into its bucket keeps the points in their buckets.
pub proof fn lemma_placed_insert(
    t: Seq<Seq<Point>>,
    index: spec_fn((i32, i32)) -> int,
    b: int,
    position: int,
    p: Point,
)
    requires
        0 <= b < t.len(),
        0 <= position <= t[b].len(),
        placed_by(t, index),
        index(p.pos()) == b,
    ensures
        placed_by(t.update(b, t[b].insert(position, p)), index),
{
    let t2 = t.update(b, t[b].insert(position, p));
    assert forall|b2: int, j2: int, q: Point| #[trigger] stands_at(t2, b2, j2, q) implies index(
        q.pos(),
    ) == b2 by {
        if !(q == p && b2 == b && j2 == position) {
            let i2 = if b2 == b && j2 > position {
                j2 - 1
            } else {
                j2
            };
            assert(stands_at(t, b2, i2, q));
        }
    }
}

/// Putting a point in the place of one that lies where it does keeps the
/// points in their buckets.
pub proof fn lemma_placed_replace(
    t: Seq<Seq<Point>>,
    index: spec_fn((i32, i32)) -> int,
    b: int,
    position: int,
    p: Point,
)
    requires
        0 <= b < t.len(),
        0 <= position < t[b].len(),
        placed_by(t, index),
        t[b][position].pos() == p.pos(),
    ensures
        placed_by(t.update(b, t[b].update(position, p)), index),
{
    let t2 = t.update(b, t[b].update(position, p));
    assert(stands_at(t, b, position, t[b][position]));
    assert forall|b2: int, j2: int, q: Point| #[trigger] stands_at(t2, b2, j2, q) implies index(
        q.pos(),
    ) == b2 by {
        if !(b2 == b && j2 == position) {
            assert(stands_at(t, b2, j2, q));
        }
    }
}

/// Removing a point keeps the other points in their buckets.
pub proof fn lemma_placed_swap_remove(
    t: Seq<Seq<Point>>,
    index: spec_fn((i32, i32)) -> int,
    b: int,
    position: int,
)
    requires
        0 <= b < t.len(),
        0 <= position < t[b].len(),
        placed_by(t, index),
    ensures
        placed_by(t.update(b, swap_removed(t[b], position)), index),
{
    let t2 = t.update(b, swap_removed(t[b], position));
    let last = t[b].len() - 1;
    assert forall|b2: int, j2: int, q: Point| #[trigger] stands_at(t2, b2, j2, q) implies index(
        q.pos(),
    ) == b2 by {
        let i2 = if b2 == b && j2 == position {
            last
        } else {
            j2
        };
        assert(stands_at(t, b2, i2, q));
    }
}

/// A point that stands at a position is held, at its place, with its
/// identifier.
pub proof fn lemma_held(t: Seq<Seq<Point>>, b: int, j: int)
    requires
        distinct(t),
        0 <= b < t.len(),
        0 <= j < t[b].len(),
    ensures
        points(t).contains(t[b][j]),
        occupied(points(t), t[b][j].pos()),
        contents(t).contains_key(t[b][j].pos()),
        contents(t)[t[b][j].pos()] == t[b][j].id,
{
    assert(stands_at(t, b, j, t[b][j]));
    lemma_distinct_is_functional(t);
    lemma_place_map(points(t));
}

/// A place is free where no point of its bucket lies there, or where it has
/// no bucket.
pub proof fn lemma_free(
    t: Seq<Seq<Point>>,
    index: spec_fn((i32, i32)) -> int,
    place: (i32, i32),
)
    requires
        placed_by(t, index),
        !(0 <= index(place) < t.len()) || (forall|j: int|
            0 <= j < t[index(place)].len() ==> (#[trigger] t[index(place)][j]).pos() != place),
    ensures
        !occupied(points(t), place),
        !contents(t).contains_key(place),
{
    if occupied(points(t), place) {
        let q = occupant(points(t), place);
        let (b, j) = choose|b: int, j: int| stands_at(t, b, j, q);
        assert(stands_at(t, b, j, q));
        assert(t[index(place)][j].pos() == place);
        assert(false);
    }
}

/// The buckets with empty buckets behind them, up to `n` buckets in all.
pub open spec fn padded(t: Seq<Seq<Point>>, n: int) -> Seq<Seq<Point>> {
    Seq::new(
        if n >= t.len() {
            n as nat
        } else {
            t.len()
        },
        |b: int|
            if b < t.len() {
                t[b]
            } else {
                Seq::<Point>::empty()
            },
    )
}

/// Empty buckets behind the others change nothing of what is held.
pub proof fn lemma_padded(t: Seq<Seq<Point>>, n: int, index: spec_fn((i32, i32)) -> int)
    ensures
        points(padded(t, n)) == points(t),
        contents(padded(t, n)) == contents(t),
        count(padded(t, n)) == count(t),
        distinct(t) ==> distinct(padded(t, n)),
        placed_by(t, index) ==> placed_by(padded(t, n), index),
{
    let u = padded(t, n);
    assert forall|b: int, j: int, p: Point| stands_at(u, b, j, p) == stands_at(t, b, j, p) by {}
    assert forall|p: Point| points(u).contains(p) == points(t).contains(p) by {
        if points(u).contains(p) {
            let (b, j) = choose|b: int, j: int| stands_at(u, b, j, p);
            assert(stands_at(t, b, j, p));
        }
        if points(t).contains(p) {
            let (b, j) = choose|b: int, j: int| stands_at(t, b, j, p);
            assert(stands_at(u, b, j, p));
        }
    }
    assert(points(u) =~= points(t));
    lemma_count_same_prefix(t, u, t.len() as int);
    lemma_count_padding(t, u, u.len() as int);
    if distinct(t) {
        assert forall|b1: int, j1: int, b2: int, j2: int, p: Point, q: Point|
            #![trigger stands_at(u, b1, j1, p), stands_at(u, b2, j2, q)]
            stands_at(u, b1, j1, p) && stands_at(u, b2, j2, q) && p.pos() == q.pos() implies b1
            == b2 && j1 == j2 by {
            assert(stands_at(t, b1, j1, p));
            assert(stands_at(t, b2, j2, q));
        }
    }
    if placed_by(t, index) {
        assert forall|b: int, j: int, p: Point| #[trigger] stands_at(u, b, j, p) implies index(
            p.pos(),
        ) == b by {
            assert(stands_at(t, b, j, p));
        }
    }
}

/// Empty buckets behind the first ones add nothing to the count.
pub proof fn lemma_count_padding(t: Seq<Seq<Point>>, u: Seq<Seq<Point>>, n: int)
    requires
        t.len() <= n <= u.len(),
        forall|b: int| t.len() <= b < u.len() ==> (#[trigger] u[b]).len() == 0,
    ensures
        count_upto(u, n) == count_upto(u, t.len() as int),
    decreases n,
{
    if n > t.len() {
        lemma_count_padding(t, u, n - 1);
    }
}

/// The points of a bucket and of those before it are among the points of the
/// first `n` buckets, where the bucket is one of them.
pub proof fn lemma_count_step(t: Seq<Seq<Point>>, h: int, n: int)
    requires
        0 <= h < n <= t.len(),
    ensures
        count_upto(t, h) + t[h].len() <= count_upto(t, n),
    decreases n,
{
    if h < n - 1 {
        lemma_count_step(t, h, n - 1);
    }
}

/// How far a bucket has been moved when the first `i` of all points have
/// been: the number of its points among them.
pub open spec fn moved_of(t: Seq<Seq<Point>>, h: int, i: int) -> int {
    let from = i - count_upto(t, h);
    if from <= 0 {
        0
    } else if from >= t[h].len() {
        t[h].len() as int
    } else {
        from
    }
}

/// The table of `n` buckets into which the first `i` of all points of the
/// buckets `t` have been moved, each into the bucket with the index that it
/// had.
pub open spec fn moved(t: Seq<Seq<Point>>, n: int, i: int) -> Seq<Seq<Point>> {
    Seq::new(
        n as nat,
        |h: int|
            if h < t.len() {
                t[h].take(moved_of(t, h, i))
            } else {
                Seq::<Point>::empty()
            },
    )
}

/// Moving the next point appends it to the bucket that it comes from.
pub proof fn lemma_moved_step(t: Seq<Seq<Point>>, n: int, i: int) -> (at: (int, int))
    requires
        t.len() <= n,
        0 <= i < count(t),
    ensures
        0 <= at.0 < t.len(),
        0 <= at.1 < t[at.0].len(),
        flat(t)[i] == t[at.0][at.1],
        moved(t, n, i)[at.0].len() == at.1,
        moved(t, n, i + 1) == moved(t, n, i).update(at.0, moved(t, n, i)[at.0].push(flat(t)[i])),
{
    lemma_flat_len(t, t.len() as int);
    let at = lemma_flat_origin(t, t.len() as int, i);
    let (b, j) = at;
    lemma_count_nonnegative(t, b);
    let before = moved(t, n, i);
    let after = moved(t, n, i + 1);
    let expected = before.update(b, before[b].push(flat(t)[i]));
    assert(moved_of(t, b, i) == j);
    assert(moved_of(t, b, i + 1) == j + 1);
    assert(t[b].take(j + 1) =~= t[b].take(j).push(t[b][j]));
    assert forall|h: int| 0 <= h < n implies #[trigger] after[h] == expected[h] by {
        if h < t.len() && h != b {
            lemma_count_nonnegative(t, h);
            if h < b {
                lemma_count_step(t, h, b);
            } else {
                lemma_count_step(t, b, h);
            }
            assert(moved_of(t, h, i) == moved_of(t, h, i + 1));
        }
    }
    assert(after =~= expected);
    at
}

/// Before any point has been moved the buckets are empty, and when all have
/// been moved the buckets are the former ones with empty buckets behind
/// them.
pub proof fn lemma_moved_ends(t: Seq<Seq<Point>>, n: int)
    requires
        t.len() <= n,
    ensures
        forall|h: int| 0 <= h < n ==> (#[trigger] moved(t, n, 0)[h]).len() == 0,
        moved(t, n, count(t)) == padded(t, n),
{
    assert forall|h: int| 0 <= h < n implies (#[trigger] moved(t, n, 0)[h]).len() == 0 by {
        if h < t.len() {
            lemma_count_nonnegative(t, h);
        }
    }
    assert forall|h: int| 0 <= h < n implies #[trigger] moved(t, n, count(t))[h] == padded(
        t,
        n,
    )[h] by {
        if h < t.len() {
            lemma_count_step(t, h, t.len() as int);
            assert(t[h].take(t[h].len() as int) =~= t[h]);
        }
    }
    assert(moved(t, n, count(t)) =~= padded(t, n));
}

/// The first index among the first `k` at which a point of the bucket lies
/// at the place, if there is one.
pub open spec fn found_upto(s: Seq<Point>, place: (i32, i32), k: int) -> Option<int>
    decreases k,
{
    if k <= 0 {
        None
    } else {
        match found_upto(s, place, k - 1) {
            Some(j) => Some(j),
            None => if s[k - 1].pos() == place {
                Some(k - 1)
            } else {
                None
            },
        }
    }
}

/// The first index at which a point of the bucket lies at the place, if
/// there is one.
pub open spec fn found(s: Seq<Point>, place: (i32, i32)) -> Option<int> {
    found_upto(s, place, s.len() as int)
}

/// The number of points among the first `k` of a bucket whose coordinate on
/// one axis is below `v`.
pub open spec fn smaller_upto(s: Seq<Point>, by_x: bool, v: i32, k: int) -> int
    decreases k,
{
    if k <= 0 {
        0
    } else if key_of(s[k - 1], by_x) < v {
        smaller_upto(s, by_x, v, k - 1) + 1
    } else {
        smaller_upto(s, by_x, v, k - 1)
    }
}

/// The number of points of a bucket whose coordinate on one axis is below
/// `v`.
pub open spec fn smaller(s: Seq<Point>, by_x: bool, v: i32) -> int {
    smaller_upto(s, by_x, v, s.len() as int)
}

/// The buckets after a point was put into bucket `b`: it takes the place of
/// the first point of the bucket that lies where it does, and without such a
/// point it stands behind the points with a smaller coordinate on the axis.
pub open spec fn put(t: Seq<Seq<Point>>, b: int, p: Point, by_x: bool) -> Seq<Seq<Point>> {
    match found(t[b], p.pos()) {
        Some(j) => t.update(b, t[b].update(j, p)),
        None => t.update(b, t[b].insert(smaller(t[b], by_x, key_of(p, by_x)), p)),
    }
}

/// The buckets after the point at a place was taken out of bucket `b`: the
/// last point of the bucket stands where the first point at that place
/// stood. Without such a point the buckets are as they were.
pub open spec fn taken_out(t: Seq<Seq<Point>>, b: int, place: (i32, i32)) -> Seq<Seq<Point>> {
    match found(t[b], place) {
        Some(j) => t.update(b, swap_removed(t[b], j)),
        None => t,
    }
}

/// Whether the points of each bucket are in the order of their coordinates on
/// one axis.
pub open spec fn all_sorted(t: Seq<Seq<Point>>, by_x: bool) -> bool {
    forall|b: int| 0 <= b < t.len() ==> is_sorted(#[trigger] t[b], by_x)
}

/// The first index that is found is the first index at which a point lies at
/// the place.
pub proof fn lemma_found_upto(s: Seq<Point>, place: (i32, i32), first: Option<int>, k: int)
    requires
        is_first_at(s, place, first),
        0 <= k <= s.len(),
    ensures
        found_upto(s, place, k) == (match first {
            Some(j) => if k > j {
                Some(j)
            } else {
                None
            },
            None => None,
        }),
    decreases k,
{
    if k > 0 {
        lemma_found_upto(s, place, first, k - 1);
    }
}

/// The first index that is found is the first index at which a point lies at
/// the place.
pub proof fn lemma_found(s: Seq<Point>, place: (i32, i32), first: Option<int>)
    requires
        is_first_at(s, place, first),
    ensures
        found(s, place) == first,
{
    lemma_found_upto(s, place, first, s.len() as int);
}

/// What is found among the first `k` points is the first index at which one
/// of them lies at the place.
pub proof fn lemma_found_is_first(s: Seq<Point>, place: (i32, i32), k: int)
    requires
        0 <= k <= s.len(),
    ensures
        is_first_at(s.take(k), place, found_upto(s, place, k)),
    decreases k,
{
    if k > 0 {
        lemma_found_is_first(s, place, k - 1);
        let shorter = s.take(k - 1);
        let longer = s.take(k);
        assert forall|i: int| 0 <= i < k - 1 implies #[trigger] longer[i] == shorter[i] by {}
        match found_upto(s, place, k - 1) {
            Some(j) => {
                assert(longer[j] == shorter[j]);
                assert forall|i: int| 0 <= i < j implies (#[trigger] longer[i]).pos() != place by {
                    assert(shorter[i].pos() != place);
                }
            },
            None => {
                assert forall|i: int| 0 <= i < k - 1 implies (#[trigger] longer[i]).pos()
                    != place by {
                    assert(shorter[i].pos() != place);
                }
            },
        }
    }
}

/// In a sorted bucket the points with a coordinate below `v` are the first
/// ones.
pub proof fn lemma_smaller_sorted(s: Seq<Point>, by_x: bool, v: i32, k: int)
    requires
        is_sorted(s, by_x),
        0 <= k <= s.len(),
    ensures
        0 <= smaller_upto(s, by_x, v, k) <= k,
        forall|i: int| 0 <= i < smaller_upto(s, by_x, v, k) ==> key_of(#[trigger] s[i], by_x) < v,
        forall|i: int| smaller_upto(s, by_x, v, k) <= i < k ==> key_of(#[trigger] s[i], by_x) >= v,
    decreases k,
{
    if k > 0 {
        lemma_smaller_sorted(s, by_x, v, k - 1);
        let c = smaller_upto(s, by_x, v, k - 1);
        if key_of(s[k - 1], by_x) < v {
            if c < k - 1 {
                assert(key_of(s[c], by_x) >= v);
                assert(key_of(s[c], by_x) <= key_of(s[k - 1], by_x));
            }
        }
    }
}

/// A point that is put into sorted buckets leaves them sorted.
pub proof fn lemma_put_keeps_sorted(t: Seq<Seq<Point>>, b: int, p: Point, by_x: bool)
    requires
        0 <= b < t.len(),
        all_sorted(t, by_x),
    ensures
        all_sorted(put(t, b, p, by_x), by_x),
{
    let s = t[b];
    let u = put(t, b, p, by_x);
    let v = key_of(p, by_x);
    assert(is_sorted(s, by_x));
    match found(s, p.pos()) {
        Some(j) => {
            lemma_found_is_first(s, p.pos(), s.len() as int);
            assert(s.take(s.len() as int) =~= s);
            let r = s.update(j, p);
            assert forall|i1: int, i2: int| 0 <= i1 <= i2 < r.len() implies key_of(r[i1], by_x)
                <= key_of(r[i2], by_x) by {
                assert(key_of(r[i1], by_x) == key_of(s[i1], by_x));
                assert(key_of(r[i2], by_x) == key_of(s[i2], by_x));
            }
        },
        None => {
            lemma_smaller_sorted(s, by_x, v, s.len() as int);
            let c = smaller(s, by_x, v);
            let r = s.insert(c, p);
            assert forall|i1: int, i2: int| 0 <= i1 <= i2 < r.len() implies key_of(r[i1], by_x)
                <= key_of(r[i2], by_x) by {
                let o1 = if i1 > c {
                    i1 - 1
                } else {
                    i1
                };
                let o2 = if i2 > c {
                    i2 - 1
                } else {
                    i2
                };
                if i1 != c {
                    assert(r[i1] == s[o1]);
                }
                if i2 != c {
                    assert(r[i2] == s[o2]);
                }
                if i1 != c && i2 != c {
                    assert(key_of(s[o1], by_x) <= key_of(s[o2], by_x));
                }
            }
        },
    }
    assert forall|h: int| 0 <= h < u.len() implies is_sorted(#[trigger] u[h], by_x) by {
        if h != b {
            assert(u[h] == t[h]);
        }
    }
}

/// Empty buckets behind sorted buckets leave them sorted, and padding twice
/// is padding once.
pub proof fn lemma_padded_sorted(t: Seq<Seq<Point>>, n: int, m: int, by_x: bool)
    requires
        t.len() <= n <= m,
    ensures
        all_sorted(t, by_x) ==> all_sorted(padded(t, n), by_x),
        padded(padded(t, n), m) == padded(t, m),
        padded(t, t.len() as int) == t,
{
    if all_sorted(t, by_x) {
        assert forall|h: int| 0 <= h < padded(t, n).len() implies is_sorted(
            #[trigger] padded(t, n)[h],
            by_x,
        ) by {
            if h < t.len() {
                assert(padded(t, n)[h] == t[h]);
            }
        }
    }
    assert(padded(padded(t, n), m) =~= padded(t, m));
    assert(padded(t, t.len() as int) =~= t);
}

/// Where no two positions hold points at one place, the buckets hold as
/// many places as they count points.
pub proof fn lemma_count_of_places(t: Seq<Seq<Point>>)
    requires
        distinct(t),
    ensures
        contents(t).dom().finite(),
        contents(t).dom().len() == count(t),
{
    let s = flat(t);
    let places = s.map_values(|p: Point| p.pos());
    lemma_flat_points(t);
    lemma_distinct_is_functional(t);
    lemma_place_map(points(t));
    assert forall|i: int, j: int| 0 <= i < places.len() && 0 <= j < places.len() && i
        != j implies places[i] != places[j] by {
        if i < j {
            assert(s[i].pos() != s[j].pos());
        } else {
            assert(s[j].pos() != s[i].pos());
        }
    }
    assert(places.no_duplicates());
    places.unique_seq_to_set();
    vstd::seq_lib::seq_to_set_is_finite(places);
    assert forall|place: (i32, i32)|
        places.to_set().contains(place) == contents(t).dom().contains(place) by {
        if places.to_set().contains(place) {
            let i = choose|i: int| 0 <= i < places.len() && places[i] == place;
            assert(points(t).contains(s[i]));
            assert(s[i].pos() == place);
        }
        if contents(t).dom().contains(place) {
            let q = Point { id: contents(t)[place], x: place.0, y: place.1 };
            assert(points(t).contains(q));
            assert(s.contains(q));
            let i = choose|i: int| 0 <= i < s.len() && s[i] == q;
            assert(places[i] == place);
        }
    }
    assert(places.to_set() =~= contents(t).dom());
}

/// As many buckets as the table has, all of them empty.
pub open spec fn cleared(t: Seq<Seq<Point>>) -> Seq<Seq<Point>> {
    Seq::new(t.len(), |b: int| Seq::<Point>::empty())
}

/// The number of buckets that a table of `len` buckets with `items` points
/// has when a point with the bucket index `hash` has been put in. A table
/// without buckets gets one, and a table that is more than three quarters
/// full twice its number. Where the bucket of the point still lies beyond the
/// table, the table gets twice as many buckets as the index of that bucket.
pub open spec fn grown(len: int, items: int, hash: int) -> int {
    let loaded = if len == 0 {
        1
    } else if items > 3 * len / 4 {
        2 * len
    } else {
        len
    };
    if hash >= loaded {
        2 * hash
    } else {
        loaded
    }
}

} // verus!
