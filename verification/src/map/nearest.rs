//! Nearest-neighbour search.
use crate::geometry::Point;
use crate::geometry::distance::{
    lemma_square_of_difference, place_of, squared_distance, Distance, Euclidean,
};
use crate::hasher::{make_hash, make_hash_point, unhash, LearnedHasher};
use crate::map::LearnedHashMap;
use crate::map::contents::{
    lemma_count_bounds, lemma_distinct_is_functional, lemma_empty_buckets, lemma_held,
    lemma_place_map, points, stands_at,
};
use crate::map::nn::NearestNeighborState;
use crate::models::{Model, Ratio};
use vstd::prelude::*;

verus! {

/// Whether a point stands in one of the buckets from `low` up to but without
/// `high`.
pub open spec fn seen_in(t: Seq<Seq<Point>>, low: int, high: int, p: Point) -> bool {
    exists|b: int, j: int| low <= b < high && stands_at(t, b, j, p)
}

/// Whether a candidate is the nearest to `query` of the points in the
/// buckets from `low` up to but without `high`: there is none where these
/// buckets are empty.
pub open spec fn is_nearest_in(
    best: Option<NearestNeighborState>,
    query: (int, int),
    t: Seq<Seq<Point>>,
    low: int,
    high: int,
) -> bool {
    match best {
        None => forall|p: Point| !#[trigger] seen_in(t, low, high, p),
        Some(s) => {
            &&& s.measures(query)
            &&& seen_in(t, low, high, s.point)
            &&& forall|p: Point| #[trigger]
                seen_in(t, low, high, p) ==> s.distance <= squared_distance(query, p.place())
        },
    }
}

/// Whether a candidate is no farther from `query` than any point in the
/// buckets from `low` up to but without `high`.
pub open spec fn is_no_farther_than(
    best: Option<NearestNeighborState>,
    query: (int, int),
    t: Seq<Seq<Point>>,
    low: int,
    high: int,
) -> bool {
    best matches Some(s) ==> forall|p: Point| #[trigger]
        seen_in(t, low, high, p) ==> s.distance <= squared_distance(query, p.place())
}

/// Whether `after` is what a scan of a bucket makes of the candidate
/// `before`: the nearest to `query` of the candidate and the points of the
/// bucket, and the candidate itself where no point of the bucket is nearer.
pub open spec fn is_nearest_after(
    before: Option<NearestNeighborState>,
    after: Option<NearestNeighborState>,
    query: (int, int),
    bucket: Seq<Point>,
) -> bool {
    match after {
        None => before.is_none() && bucket.len() == 0,
        Some(s) => {
            &&& s.measures(query)
            &&& before == Some(s) || exists|j: int| 0 <= j < bucket.len() && bucket[j] == s.point
            &&& forall|j: int|
                0 <= j < bucket.len() ==> s.distance <= squared_distance(
                    query,
                    (#[trigger] bucket[j]).place(),
                )
            &&& before matches Some(o) ==> s.distance <= o.distance
            &&& before matches Some(o) ==> (forall|j: int|
                0 <= j < bucket.len() ==> o.distance <= squared_distance(
                    query,
                    (#[trigger] bucket[j]).place(),
                )) ==> after == before
        },
    }
}

/// The candidate after a look at one more point: the point where it is
/// nearer to `query` than the candidate so far, or where there is none so
/// far; else the candidate so far.
pub open spec fn nearer_of(
    best: Option<NearestNeighborState>,
    query: (int, int),
    p: Point,
) -> Option<NearestNeighborState> {
    let d = squared_distance(query, p.place());
    match best {
        Some(s) => if d < s.distance {
            Some(NearestNeighborState { distance: d as u128, point: p })
        } else {
            best
        },
        None => Some(NearestNeighborState { distance: d as u128, point: p }),
    }
}

/// The candidate after a look at the first `k` points of a bucket, one after
/// the other.
pub open spec fn scan_upto(
    best: Option<NearestNeighborState>,
    query: (int, int),
    s: Seq<Point>,
    k: int,
) -> Option<NearestNeighborState>
    decreases k,
{
    if k <= 0 {
        best
    } else {
        nearer_of(scan_upto(best, query, s, k - 1), query, s[k - 1])
    }
}

/// The candidate after a scan of a bucket.
pub open spec fn scan(
    best: Option<NearestNeighborState>,
    query: (int, int),
    s: Seq<Point>,
) -> Option<NearestNeighborState> {
    scan_upto(best, query, s, s.len() as int)
}

/// The candidate after a scan of the buckets before `from`, from the nearest
/// of them to the first.
pub open spec fn scan_left(
    best: Option<NearestNeighborState>,
    query: (int, int),
    t: Seq<Seq<Point>>,
    from: int,
) -> Option<NearestNeighborState>
    decreases from,
{
    if from <= 0 {
        best
    } else {
        scan_left(scan(best, query, t[from - 1]), query, t, from - 1)
    }
}

/// The candidate after a scan of the buckets from `from` on, up to the last.
pub open spec fn scan_right(
    best: Option<NearestNeighborState>,
    query: (int, int),
    t: Seq<Seq<Point>>,
    from: int,
) -> Option<NearestNeighborState>
    decreases t.len() - from,
{
    if from >= t.len() || from < 0 {
        best
    } else {
        scan_right(scan(best, query, t[from]), query, t, from + 1)
    }
}

/// What a search through all buckets gives that begins in the bucket `home`,
/// goes on through the buckets before it, from the nearest to the first, and
/// then through the buckets after it: the first point on that way that no
/// other point is nearer to `query` than.
pub open spec fn search_result(t: Seq<Seq<Point>>, home: int, query: (int, int)) -> Option<
    NearestNeighborState,
> {
    scan_right(scan_left(scan(None, query, t[home]), query, t, home), query, t, home + 1)
}

/// A scan of points of which none is nearer than the candidate leaves the
/// candidate.
pub proof fn lemma_scan_keeps(
    best: Option<NearestNeighborState>,
    query: (int, int),
    s: Seq<Point>,
    k: int,
)
    requires
        best.is_some(),
        0 <= k <= s.len(),
        forall|j: int|
            0 <= j < k ==> best.unwrap().distance <= squared_distance(
                query,
                (#[trigger] s[j]).place(),
            ),
    ensures
        scan_upto(best, query, s, k) == best,
    decreases k,
{
    if k > 0 {
        lemma_scan_keeps(best, query, s, k - 1);
        assert(best.unwrap().distance <= squared_distance(query, s[k - 1].place()));
    }
}

/// A scan of the buckets before `from` leaves a candidate that is no farther
/// than any of their points.
pub proof fn lemma_scan_left_keeps(
    best: Option<NearestNeighborState>,
    query: (int, int),
    t: Seq<Seq<Point>>,
    from: int,
)
    requires
        best.is_some(),
        0 <= from <= t.len(),
        is_no_farther_than(best, query, t, 0, from),
    ensures
        scan_left(best, query, t, from) == best,
    decreases from,
{
    if from > 0 {
        let bucket = t[from - 1];
        assert forall|j: int| 0 <= j < bucket.len() implies best.unwrap().distance
            <= squared_distance(query, (#[trigger] bucket[j]).place()) by {
            assert(stands_at(t, from - 1, j, bucket[j]));
            assert(seen_in(t, 0, from, bucket[j]));
        }
        lemma_scan_keeps(best, query, bucket, bucket.len() as int);
        assert forall|p: Point| #[trigger] seen_in(t, 0, from - 1, p) implies best.unwrap().distance
            <= squared_distance(query, p.place()) by {
            let (b, j) = choose|b: int, j: int| 0 <= b < from - 1 && stands_at(t, b, j, p);
            assert(0 <= b < from && stands_at(t, b, j, p));
            assert(seen_in(t, 0, from, p));
        }
        lemma_scan_left_keeps(best, query, t, from - 1);
    }
}

/// A scan of the buckets from `from` on leaves a candidate that is no
/// farther than any of their points.
pub proof fn lemma_scan_right_keeps(
    best: Option<NearestNeighborState>,
    query: (int, int),
    t: Seq<Seq<Point>>,
    from: int,
)
    requires
        best.is_some(),
        0 <= from <= t.len(),
        is_no_farther_than(best, query, t, from, t.len() as int),
    ensures
        scan_right(best, query, t, from) == best,
    decreases t.len() - from,
{
    if from < t.len() {
        let bucket = t[from];
        assert forall|j: int| 0 <= j < bucket.len() implies best.unwrap().distance
            <= squared_distance(query, (#[trigger] bucket[j]).place()) by {
            assert(stands_at(t, from, j, bucket[j]));
            assert(seen_in(t, from, t.len() as int, bucket[j]));
        }
        lemma_scan_keeps(best, query, bucket, bucket.len() as int);
        assert forall|p: Point| #[trigger]
            seen_in(t, from + 1, t.len() as int, p) implies best.unwrap().distance
            <= squared_distance(query, p.place()) by {
            let (b, j) = choose|b: int, j: int| from + 1 <= b < t.len() && stands_at(t, b, j, p);
            assert(from <= b < t.len() && stands_at(t, b, j, p));
            assert(seen_in(t, from, t.len() as int, p));
        }
        lemma_scan_right_keeps(best, query, t, from + 1);
    }
}

/// Whether a search stops before the bucket with index `hash` on its way to
/// one side: it has a candidate, and the bound for that side says that no
/// point there is nearer.
pub open spec fn stops_at<M: Model>(
    hasher: LearnedHasher<M>,
    best: Option<NearestNeighborState>,
    query_point: [i32; 2],
    hash: int,
    leftwards: bool,
) -> bool {
    best matches Some(s) && hasher.axis_bound(
        hasher.key(query_point@[0], query_point@[1]),
        hash as u64,
        leftwards,
    ) >= s.distance
}

/// The candidate after the search has gone on through the buckets before
/// `from`, from the nearest of them towards the first, until it stops.
pub open spec fn search_left<M: Model>(
    hasher: LearnedHasher<M>,
    best: Option<NearestNeighborState>,
    query_point: [i32; 2],
    t: Seq<Seq<Point>>,
    from: int,
) -> Option<NearestNeighborState>
    decreases from,
{
    if from <= 0 || stops_at(hasher, best, query_point, from, true) {
        best
    } else {
        search_left(
            hasher,
            scan(best, place_of(query_point), t[from - 1]),
            query_point,
            t,
            from - 1,
        )
    }
}

/// The candidate after the search has gone on through the buckets from
/// `from` on, towards the last, until it stops.
pub open spec fn search_right<M: Model>(
    hasher: LearnedHasher<M>,
    best: Option<NearestNeighborState>,
    query_point: [i32; 2],
    t: Seq<Seq<Point>>,
    from: int,
) -> Option<NearestNeighborState>
    decreases t.len() - from,
{
    if from >= t.len() || from < 0 || stops_at(hasher, best, query_point, from, false) {
        best
    } else {
        search_right(
            hasher,
            scan(best, place_of(query_point), t[from]),
            query_point,
            t,
            from + 1,
        )
    }
}

/// What the search gives that begins in the bucket `home`, goes on through
/// the buckets before it and then through those after it, on each side
/// until the bound for that side says that no point there is nearer.
pub open spec fn bounded_search<M: Model>(
    hasher: LearnedHasher<M>,
    t: Seq<Seq<Point>>,
    home: int,
    query_point: [i32; 2],
) -> Option<NearestNeighborState> {
    search_right(
        hasher,
        search_left(hasher, scan(None, place_of(query_point), t[home]), query_point, t, home),
        query_point,
        t,
        home + 1,
    )
}

impl<M: Model> LearnedHashMap<M> {
    /// The index of the bucket in which a search for the neighbours of a
    /// place begins: the bucket of the place, or the last bucket where that
    /// lies beyond the table.
    pub open spec fn home_of(&self, query_point: [i32; 2]) -> int {
        let hash = self.bucket_for((query_point@[0], query_point@[1]));
        if hash >= self.buckets().len() {
            self.buckets().len() - 1
        } else {
            hash
        }
    }

    /// Scans the bucket with the given index for the point that is nearest
    /// to the query, and makes it the candidate where it is nearer than the
    /// one so far.
    #[verifier::loop_isolation(false)]
    fn local_min(
        &self,
        local_hash: u64,
        query_point: &[i32; 2],
        best: &mut Option<NearestNeighborState>,
    )
        requires
            local_hash < self.buckets().len(),
            old(best).is_some() ==> old(best).unwrap().measures(place_of(*query_point)),
        ensures
            is_nearest_after(
                *old(best),
                *final(best),
                place_of(*query_point),
                self.buckets()[local_hash as int],
            ),
            *final(best) == scan(
                *old(best),
                place_of(*query_point),
                self.buckets()[local_hash as int],
            ),
    {
        let capacity: usize = self.table.capacity();
        let bucket = self.table.bucket_ref(local_hash as usize);
        let ghost points = self.buckets()[local_hash as int];
        let ghost query = place_of(*query_point);
        let n: usize = bucket.len();
        let mut i: usize = 0;
        while i < n
            invariant
                i <= n,
                n == points.len(),
                bucket@ == points,
                is_nearest_after(*old(best), *best, query, points.take(i as int)),
                *best == scan_upto(*old(best), query, points, i as int),
            decreases n - i,
        {
            let p: &Point = bucket.get(i);
            let d: u128 = Euclidean::distance(query_point, &[p.x, p.y]);
            let ghost earlier = *best;
            let candidate = NearestNeighborState { distance: d, point: *p };
            let nearer: bool = match best {
                Some(s) => candidate.is_nearer_than(s),
                None => true,
            };
            if nearer {
                *best = Some(candidate);
            }
            proof {
                let shorter = points.take(i as int);
                let longer = points.take(i as int + 1);
                assert(longer[i as int] == *p);
                assert forall|j: int| 0 <= j < longer.len() implies best.unwrap().distance
                    <= squared_distance(query, (#[trigger] longer[j]).place()) by {
                    if j < i {
                        assert(shorter[j] == longer[j]);
                    }
                }
                if !nearer {
                    if exists|j: int| 0 <= j < shorter.len() && shorter[j] == best.unwrap().point {
                        let j = choose|j: int|
                            0 <= j < shorter.len() && shorter[j] == best.unwrap().point;
                        assert(longer[j] == best.unwrap().point);
                    }
                }
                if old(best).is_some() {
                    let o = old(best).unwrap();
                    if forall|j: int|
                        0 <= j < longer.len() ==> o.distance <= squared_distance(
                            query,
                            (#[trigger] longer[j]).place(),
                        ) {
                        assert forall|j: int| 0 <= j < shorter.len() implies o.distance
                            <= squared_distance(query, (#[trigger] shorter[j]).place()) by {
                            assert(shorter[j] == longer[j]);
                        }
                        assert(earlier == *old(best));
                        assert(o.distance <= squared_distance(query, longer[i as int].place()));
                    }
                }
            }
            i += 1;
        }
        proof {
            assert(points.take(n as int) =~= points);
        }
    }

    /// The square of how far the query is, on the axis of the hasher, from
    /// the buckets on one side of where the bucket with index `hash` begins:
    /// leftwards those before it, else that bucket and those after it. Where
    /// the bounds of the hasher hold, no point of those buckets is nearer to
    /// the query.
    fn horizontal_distance(&mut self, query_point: &[i32; 2], hash: u64, leftwards: bool) -> (d:
        u128)
        ensures
            final(self).same_as(old(self)),
            d == old(self).hasher_spec().axis_bound(
                old(self).hasher_spec().key(query_point@[0], query_point@[1]),
                hash,
                leftwards,
            ),
    {
        let at: i32 = if self.hasher.sort_by_x() {
            query_point[0]
        } else {
            query_point[1]
        };
        let estimate: Ratio = match unhash(&mut self.hasher, hash) {
            Some(estimate) => estimate,
            None => {
                return 0;
            },
        };
        let c: i128 = estimate.ceil();
        if c <= i32::MIN as i128 || c > i32::MAX as i128 {
            return 0;
        }
        let first: i32 = c as i32;
        let before: i32 = first - 1;
        let hash_before: u64 = make_hash(&mut self.hasher, &before);
        let hash_first: u64 = make_hash(&mut self.hasher, &first);
        if !(hash_before < hash && hash <= hash_first) {
            return 0;
        }
        proof {
            lemma_square_of_difference(at as int, first as int - 1);
            lemma_square_of_difference(first as int, at as int);
        }
        if leftwards {
            if at >= first {
                let far: i128 = at as i128 - c + 1;
                (far * far) as u128
            } else {
                0
            }
        } else {
            if at < first {
                let far: i128 = c - at as i128;
                (far * far) as u128
            } else {
                0
            }
        }
    }

    /// Where the bounds of the hasher hold, no point in the buckets on one
    /// side of where the bucket with index `hash` begins is nearer to the
    /// query than the bound of that side.
    proof fn lemma_side_is_far(&self, query_point: [i32; 2], hash: u64, leftwards: bool)
        requires
            self.wf(),
            self.hasher_spec().bounds_hold(),
            hash <= self.buckets().len(),
        ensures
            leftwards ==> forall|p: Point| #[trigger]
                seen_in(self.buckets(), 0, hash as int, p) ==> squared_distance(
                    place_of(query_point),
                    p.place(),
                ) >= self.hasher_spec().axis_bound(
                    self.hasher_spec().key(query_point@[0], query_point@[1]),
                    hash,
                    leftwards,
                ),
            !leftwards ==> forall|p: Point| #[trigger]
                seen_in(self.buckets(), hash as int, self.buckets().len() as int, p)
                    ==> squared_distance(place_of(query_point), p.place())
                    >= self.hasher_spec().axis_bound(
                    self.hasher_spec().key(query_point@[0], query_point@[1]),
                    hash,
                    leftwards,
                ),
    {
        let t = self.buckets();
        let h = self.hasher_spec();
        let low = if leftwards {
            0
        } else {
            hash as int
        };
        let high = if leftwards {
            hash as int
        } else {
            t.len() as int
        };
        let at = h.key(query_point@[0], query_point@[1]);
        assert forall|p: Point| #[trigger] seen_in(t, low, high, p) implies squared_distance(
            place_of(query_point),
            p.place(),
        ) >= h.axis_bound(at, hash, leftwards) by {
            let (b, j) = choose|b: int, j: int| low <= b < high && stands_at(t, b, j, p);
            assert(stands_at(t, b, j, p));
            assert((self.index())(p.pos()) == b);
            let x = h.key(p.x, p.y);
            assert(h.spec_hash(x) == b);
            assert((at - x) * (at - x) >= h.axis_bound(at, hash, leftwards));
            let dx = query_point@[0] - p.x;
            let dy = query_point@[1] - p.y;
            assert(dx * dx >= 0) by (nonlinear_arith);
            assert(dy * dy >= 0) by (nonlinear_arith);
        }
    }

    /// Nearest neighbour search: the stored point that is nearest to the
    /// query point.
    ///
    /// ```text
    ///      |
    ///      |            .
    ///      |         .  |
    ///      |         |. |  *  . <- nearest neighbor
    ///      |         || |  | .|
    ///      |  expand <--------> expand
    ///      |  left         |     right
    ///      |               |
    ///      |_______________v_____________
    ///                    query
    ///                    point
    /// ```
    ///
    /// The search begins in the bucket of the query point and goes on to the
    /// left and to the right of it, on each side as long as the buckets there
    /// can hold a nearer point: until the bound for that side is no smaller
    /// than the distance of the nearest point so far. The result is no
    /// farther from the query than any point of the bucket in which the
    /// search begins. Where the bounds
    /// of the hasher hold, as they do for a monotonic hasher and for every
    /// hasher over a line, it is what a search through all buckets gives:
    /// the first point on the way of the search that no stored point is
    /// nearer to the query than.
    #[verifier::loop_isolation(false)]
    pub fn nearest_neighbor(&mut self, query_point: &[i32; 2]) -> (r: Option<Point>)
        requires
            old(self).wf(),
        ensures
            final(self).wf(),
            final(self).same_as(old(self)),
            r.is_some() <==> old(self).item_count() > 0,
            r matches Some(p) ==> old(self)@.contains_key(p.pos()) && old(self)@[p.pos()] == p.id,
            r matches Some(p) ==> forall|j: int|
                0 <= j < old(self).buckets()[old(self).home_of(*query_point)].len()
                    ==> squared_distance(place_of(*query_point), p.place()) <= squared_distance(
                    place_of(*query_point),
                    (#[trigger] old(self).buckets()[old(self).home_of(*query_point)][j]).place(),
                ),
            old(self).buckets().len() > 0 ==> r == (match bounded_search(
                old(self).hasher_spec(),
                old(self).buckets(),
                old(self).home_of(*query_point),
                *query_point,
            ) {
                Some(s) => Some(s.point),
                None => None,
            }),
            old(self).hasher_spec().bounds_hold() && old(self).buckets().len() > 0 ==> r == (
            match search_result(
                old(self).buckets(),
                old(self).home_of(*query_point),
                place_of(*query_point),
            ) {
                Some(s) => Some(s.point),
                None => None,
            }),
            r matches Some(p) ==> old(self).hasher_spec().bounds_hold() ==> forall|
                place: (i32, i32),
            |
                #![trigger old(self)@.contains_key(place)]
                old(self)@.contains_key(place) ==> squared_distance(
                    place_of(*query_point),
                    p.place(),
                ) <= squared_distance(place_of(*query_point), (place.0 as int, place.1 as int)),
    {
        let capacity: usize = self.table.capacity();
        let ghost t = self.buckets();
        let ghost query = place_of(*query_point);
        let ghost sound = old(self).hasher_spec().bounds_hold();
        if capacity == 0 {
            return None;
        }
        let hash: u64 = make_hash_point(&mut self.hasher, query_point);
        proof {
            self.lemma_same_as(old(self));
        }
        // if hash out of max bound, still search right most bucket
        let home: usize = if hash >= capacity as u64 {
            capacity - 1
        } else {
            hash as usize
        };
        let mut best: Option<NearestNeighborState> = None;
        // Searching at current hash index
        self.local_min(home as u64, query_point, &mut best);
        proof {
            lemma_scanned(None, best, query, t, home as int, home as int, home as int + 1);
        }
        let ghost all_left = scan_left(best, query, t, home as int);
        let ghost hasher = old(self).hasher_spec();
        let ghost found_left = search_left(hasher, best, *query_point, t, home as int);
        // Iterate over left
        let mut left: usize = home;
        let mut go_on: bool = true;
        while left > 0 && go_on
            invariant
                left <= home,
                self.wf(),
                self.same_as(old(self)),
                self.buckets() == t,
                is_nearest_in(best, query, t, left as int, home as int + 1),
                scan_left(best, query, t, left as int) == all_left,
                search_left(hasher, best, *query_point, t, left as int) == found_left,
                !go_on ==> stops_at(hasher, best, *query_point, left as int, true),
                !go_on ==> best.is_some() && (sound ==> is_no_farther_than(
                    best,
                    query,
                    t,
                    0,
                    left as int,
                )),
            decreases left + (if go_on { 1int } else { 0int }),
        {
            let ghost remembered = *self;
            let bound: Option<u128> = match best {
                Some(s) => Some(s.distance),
                None => None,
            };
            let far: bool = match bound {
                Some(least) => self.horizontal_distance(query_point, left as u64, true) >= least,
                None => false,
            };
            proof {
                self.lemma_same_as(&remembered);
            }
            if far {
                proof {
                    if sound {
                        old(self).lemma_side_is_far(*query_point, left as u64, true);
                    }
                }
                go_on = false;
            } else {
                left -= 1;
                let ghost earlier = best;
                self.local_min(left as u64, query_point, &mut best);
                proof {
                    lemma_scanned(
                        earlier,
                        best,
                        query,
                        t,
                        left as int,
                        left as int + 1,
                        home as int + 1,
                    );
                }
            }
        }
        proof {
            if sound && left > 0 {
                lemma_scan_left_keeps(best, query, t, left as int);
            }
        }
        let ghost all_right = scan_right(best, query, t, home as int + 1);
        let ghost found_right = search_right(hasher, best, *query_point, t, home as int + 1);
        proof {
            assert(best == found_left);
            assert(found_right == bounded_search(hasher, t, home as int, *query_point));
        }
        // Iterate over right
        let mut right: usize = home + 1;
        let mut go_on_right: bool = true;
        while right < capacity && go_on_right
            invariant
                home < right <= capacity,
                self.wf(),
                self.same_as(old(self)),
                self.buckets() == t,
                is_nearest_in(best, query, t, left as int, right as int),
                scan_right(best, query, t, right as int) == all_right,
                search_right(hasher, best, *query_point, t, right as int) == found_right,
                !go_on_right ==> stops_at(hasher, best, *query_point, right as int, false),
                sound ==> all_right == search_result(t, home as int, query),
                left > 0 ==> best.is_some() && (sound ==> is_no_farther_than(
                    best,
                    query,
                    t,
                    0,
                    left as int,
                )),
                !go_on_right ==> best.is_some() && (sound ==> is_no_farther_than(
                    best,
                    query,
                    t,
                    right as int,
                    capacity as int,
                )),
            decreases capacity - right + (if go_on_right { 1int } else { 0int }),
        {
            let ghost remembered = *self;
            let bound: Option<u128> = match best {
                Some(s) => Some(s.distance),
                None => None,
            };
            let far: bool = match bound {
                Some(least) => self.horizontal_distance(query_point, right as u64, false) >= least,
                None => false,
            };
            proof {
                self.lemma_same_as(&remembered);
            }
            if far {
                proof {
                    if sound {
                        old(self).lemma_side_is_far(*query_point, right as u64, false);
                    }
                }
                go_on_right = false;
            } else {
                let ghost earlier = best;
                self.local_min(right as u64, query_point, &mut best);
                proof {
                    lemma_scanned(
                        earlier,
                        best,
                        query,
                        t,
                        left as int,
                        right as int,
                        right as int + 1,
                    );
                }
                right += 1;
            }
        }
        proof {
            assert(best == found_right);
            if sound && right < capacity {
                lemma_scan_right_keeps(best, query, t, right as int);
            }
            lemma_distinct_is_functional(t);
            lemma_place_map(points(t));
            match best {
                Some(s) => {
                    let (b, j) = choose|b: int, j: int|
                        left <= b < right && stands_at(t, b, j, s.point);
                    lemma_held(t, b, j);
                    lemma_count_bounds(t, b, t.len() as int);
                    assert(home == old(self).home_of(*query_point));
                    assert forall|j: int| 0 <= j < t[home as int].len() implies s.distance
                        <= squared_distance(query, (#[trigger] t[home as int][j]).place()) by {
                        assert(stands_at(t, home as int, j, t[home as int][j]));
                        assert(seen_in(t, left as int, right as int, t[home as int][j]));
                    }
                    if sound {
                        assert forall|place: (i32, i32)|
                            #![trigger old(self)@.contains_key(place)]
                            old(self)@.contains_key(place) implies squared_distance(
                            query,
                            s.point.place(),
                        ) <= squared_distance(query, (place.0 as int, place.1 as int)) by {
                            let p = Point { id: old(self)@[place], x: place.0, y: place.1 };
                            assert(points(t).contains(p));
                            let (b2, j2) = choose|b2: int, j2: int| stands_at(t, b2, j2, p);
                            assert(stands_at(t, b2, j2, p));
                            if b2 < left {
                                assert(seen_in(t, 0, left as int, p));
                            } else if b2 < right {
                                assert(seen_in(t, left as int, right as int, p));
                            } else {
                                assert(seen_in(t, right as int, capacity as int, p));
                            }
                        }
                    }
                },
                None => {
                    // every bucket was scanned, and none holds a point
                    assert(left == 0 && right == capacity);
                    assert forall|b: int| 0 <= b < t.len() implies (#[trigger] t[b]).len() == 0 by {
                        if t[b].len() > 0 {
                            assert(stands_at(t, b, 0, t[b][0]));
                            assert(seen_in(t, 0, capacity as int, t[b][0]));
                        }
                    }
                    lemma_empty_buckets(t);
                },
            }
        }
        match best {
            Some(s) => Some(s.point),
            None => None,
        }
    }
}

/// A scan of the bucket at one end of a run of buckets makes the nearest of
/// the run the nearest of the longer run.
pub proof fn lemma_scanned(
    before: Option<NearestNeighborState>,
    after: Option<NearestNeighborState>,
    query: (int, int),
    t: Seq<Seq<Point>>,
    low: int,
    middle: int,
    high: int,
)
    requires
        0 <= low <= middle <= high <= t.len(),
        (middle == low + 1 && is_nearest_in(before, query, t, middle, high) && is_nearest_after(
            before,
            after,
            query,
            t[low],
        )) || (high == middle + 1 && is_nearest_in(before, query, t, low, middle)
            && is_nearest_after(before, after, query, t[middle])),
    ensures
        is_nearest_in(after, query, t, low, high),
        before matches Some(o) ==> after matches Some(s) && s.distance <= o.distance,
{
    let at_low = middle == low + 1 && is_nearest_in(before, query, t, middle, high)
        && is_nearest_after(before, after, query, t[low]);
    let scanned = if at_low {
        low
    } else {
        middle
    };
    let (rest_low, rest_high) = if at_low {
        (middle, high)
    } else {
        (low, middle)
    };
    let bucket = t[scanned];
    match after {
        None => {
            assert forall|p: Point| !#[trigger] seen_in(t, low, high, p) by {
                if seen_in(t, low, high, p) {
                    let (b, j) = choose|b: int, j: int| low <= b < high && stands_at(t, b, j, p);
                    if b != scanned {
                        assert(rest_low <= b < rest_high && stands_at(t, b, j, p));
                        assert(seen_in(t, rest_low, rest_high, p));
                    }
                }
            }
        },
        Some(s) => {
            if before == Some(s) {
                let (b, j) = choose|b: int, j: int|
                    rest_low <= b < rest_high && stands_at(t, b, j, s.point);
                assert(low <= b < high && stands_at(t, b, j, s.point));
            } else {
                let j = choose|j: int| 0 <= j < bucket.len() && bucket[j] == s.point;
                assert(low <= scanned < high && stands_at(t, scanned, j, s.point));
            }
            assert forall|p: Point| #[trigger] seen_in(t, low, high, p) implies s.distance
                <= squared_distance(query, p.place()) by {
                let (b, j) = choose|b: int, j: int| low <= b < high && stands_at(t, b, j, p);
                if b != scanned {
                    assert(rest_low <= b < rest_high && stands_at(t, b, j, p));
                    assert(seen_in(t, rest_low, rest_high, p));
                } else {
                    assert(bucket[j] == p);
                }
            }
        },
    }
}

} // verus!
