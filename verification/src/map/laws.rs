//! What holds of the operations of the map taken together, stated over what
//! the map holds: the map from places to identifiers.
use crate::error::Error;
use crate::geometry::Point;
use crate::geometry::helper::{is_stable_sort_of, key_of, keys_of, renumbered};
use crate::hasher::{lemma_line_bounds_hold, lemma_rising_line_is_monotonic};
use crate::map::LearnedHashMap;
use crate::map::batch::batch_outcome;
use crate::map::contents::{
    distinct_places, insert_all, lemma_insert_all_elsewhere, lemma_insert_all_places, lies_in,
};
use crate::models::linear::LinearModel;
use crate::models::rising::lemma_fit_to_ordered_rises;
use crate::models::stats::MAX_COUNT;
use crate::models::trainer::{is_ranking_of, varies_more_in_x};
use vstd::prelude::*;

verus! {

/// A ranking of points has a point at the places of the points, and at no
/// other place.
pub proof fn lemma_ranking_keeps_places(
    ranked: Seq<Point>,
    given: Seq<Point>,
    by_x: bool,
    place: (i32, i32),
)
    requires
        is_ranking_of(ranked, given, by_x),
    ensures
        lies_in(ranked, place) <==> lies_in(given, place),
{
    let sorted = choose|sorted: Seq<Point>| #[trigger]
        is_stable_sort_of(sorted, given, by_x) && ranked == renumbered(sorted);
    if lies_in(ranked, place) {
        let i = choose|i: int| 0 <= i < ranked.len() && (#[trigger] ranked[i]).pos() == place;
        vstd::seq_lib::to_multiset_contains(sorted, sorted[i]);
        vstd::seq_lib::to_multiset_contains(given, sorted[i]);
        assert(sorted.contains(sorted[i]));
        let j = choose|j: int| 0 <= j < given.len() && given[j] == sorted[i];
        assert(given[j].pos() == place);
    }
    if lies_in(given, place) {
        let j = choose|j: int| 0 <= j < given.len() && (#[trigger] given[j]).pos() == place;
        vstd::seq_lib::to_multiset_contains(sorted, given[j]);
        vstd::seq_lib::to_multiset_contains(given, given[j]);
        assert(given.contains(given[j]));
        let i = choose|i: int| 0 <= i < sorted.len() && sorted[i] == given[j];
        assert(ranked[i].pos() == place);
    }
}

/// Round trip of a single insertion: after a point was put into a map, the
/// map has at its place a point that is equal to it, and at every other
/// place what it had. This is what `get` gives after `insert`, whether or
/// not the table has grown.
pub proof fn lemma_round_trip(held: Map<(i32, i32), usize>, p: Point)
    ensures
        held.insert(p.pos(), p.id).contains_key(p.pos()),
        (Point { id: held.insert(p.pos(), p.id)[p.pos()], x: p.x, y: p.y }) == p,
        forall|place: (i32, i32)|
            place != p.pos() ==> held.insert(p.pos(), p.id).contains_key(place)
                == #[trigger] held.contains_key(place) && held.insert(p.pos(), p.id)[place]
                == held[place],
{
}

/// Round trip of a batch insertion: after the ranking of a batch of points
/// was put into a map, the map has a point at the place of each point of the
/// batch, and still one at each place where it had one. This is what `get`
/// gives there after `batch_insert`: a point that is equal to the given one
/// but for its identifier, which is a rank now.
pub proof fn lemma_batch_round_trip(
    held: Map<(i32, i32), usize>,
    given: Seq<Point>,
    ranked: Seq<Point>,
    by_x: bool,
    i: int,
)
    requires
        is_ranking_of(ranked, given, by_x),
        0 <= i < given.len(),
    ensures
        insert_all(held, ranked).contains_key(given[i].pos()),
        (Point { id: insert_all(held, ranked)[given[i].pos()], x: given[i].x, y: given[i].y }).pos()
            == given[i].pos(),
        forall|place: (i32, i32)| #[trigger]
            held.contains_key(place) ==> insert_all(held, ranked).contains_key(place),
{
    assert(lies_in(given, given[i].pos()));
    lemma_ranking_keeps_places(ranked, given, by_x, given[i].pos());
    lemma_insert_all_places(held, ranked, given[i].pos());
    assert forall|place: (i32, i32)| #[trigger] held.contains_key(place) implies insert_all(
        held,
        ranked,
    ).contains_key(place) by {
        lemma_insert_all_places(held, ranked, place);
    }
}

/// Replacement: a second point that is put in at the place of a first one
/// takes its place. The map then has the second point there, the insertion
/// gives back the first, and the map has no more places than before it.
pub proof fn lemma_replace(held: Map<(i32, i32), usize>, first: Point, second: Point)
    requires
        first.pos() == second.pos(),
    ensures
        ({
            let once = held.insert(first.pos(), first.id);
            let twice = once.insert(second.pos(), second.id);
            &&& once.contains_key(second.pos())
            &&& (Point { id: once[second.pos()], x: second.x, y: second.y }) == first
            &&& twice.dom() == once.dom()
            &&& twice[second.pos()] == second.id
            &&& twice == held.insert(second.pos(), second.id)
        }),
{
    let once = held.insert(first.pos(), first.id);
    let twice = once.insert(second.pos(), second.id);
    assert(twice.dom() =~= once.dom());
    assert(twice =~= held.insert(second.pos(), second.id));
}

/// Resize stability: points that are put into a map one at a time, with the
/// table growing as they come, leave the map with the same places as the
/// same points put in as one batch, which ranks them first.
pub proof fn lemma_one_by_one_or_as_batch(
    held: Map<(i32, i32), usize>,
    given: Seq<Point>,
    ranked: Seq<Point>,
    by_x: bool,
)
    requires
        is_ranking_of(ranked, given, by_x),
    ensures
        insert_all(held, given).dom() == insert_all(held, ranked).dom(),
{
    assert forall|place: (i32, i32)|
        insert_all(held, given).dom().contains(place) == insert_all(held, ranked).dom().contains(
            place,
        ) by {
        lemma_ranking_keeps_places(ranked, given, by_x, place);
        lemma_insert_all_places(held, given, place);
        lemma_insert_all_places(held, ranked, place);
    }
    assert(insert_all(held, given).dom() =~= insert_all(held, ranked).dom());
}

/// A batch leaves the rest alone: at a place where no point of the batch
/// lies, the map has after the batch what it had before it.
pub proof fn lemma_batch_keeps_the_rest(
    held: Map<(i32, i32), usize>,
    given: Seq<Point>,
    ranked: Seq<Point>,
    by_x: bool,
    place: (i32, i32),
)
    requires
        is_ranking_of(ranked, given, by_x),
        !lies_in(given, place),
    ensures
        insert_all(held, ranked).contains_key(place) == held.contains_key(place),
        insert_all(held, ranked)[place] == held[place],
{
    lemma_ranking_keeps_places(ranked, given, by_x, place);
    lemma_insert_all_places(held, ranked, place);
    lemma_insert_all_elsewhere(held, ranked, place);
}

/// A batch leaves a map over a line with a monotonic hasher: the line is
/// fitted to ordered coordinates and their ranks, and so does not fall.
/// Range search then finds every stored point of a box.
pub proof fn lemma_batch_is_monotonic(
    before: LearnedHashMap<LinearModel>,
    given: Seq<Point>,
    after: LearnedHashMap<LinearModel>,
    ranked: Seq<Point>,
    r: Result<(), Error>,
)
    requires
        batch_outcome(before, given, after, ranked, r),
        r.is_ok(),
    ensures
        after.hasher_spec().is_monotonic(),
{
    let by_x = varies_more_in_x(given);
    let keys = keys_of(ranked, by_x);
    let sorted = choose|sorted: Seq<Point>| #[trigger]
        is_stable_sort_of(sorted, given, by_x) && ranked == renumbered(sorted);
    assert(given.len() <= MAX_COUNT);
    assert(keys.len() == given.len());
    assert forall|i: int, j: int| 0 <= i <= j < keys.len() implies keys[i] <= keys[j] by {
        assert(key_of(sorted[i], by_x) <= key_of(sorted[j], by_x));
    }
    lemma_fit_to_ordered_rises(before.hasher_spec().model, keys);
    lemma_rising_line_is_monotonic(after.hasher_spec());
}

/// Points at places of their own, put into an empty map one after the
/// other, leave a map with as many places as there are points.
pub proof fn lemma_count_of_distinct(s: Seq<Point>)
    requires
        distinct_places(s),
    ensures
        insert_all(Map::<(i32, i32), usize>::empty(), s).dom().finite(),
        insert_all(Map::<(i32, i32), usize>::empty(), s).dom().len() == s.len(),
    decreases s.len(),
{
    let empty = Map::<(i32, i32), usize>::empty();
    if s.len() > 0 {
        let front = s.drop_last();
        let last = s.last();
        assert forall|i: int, j: int| 0 <= i < j < front.len() implies (#[trigger] front[i]).pos()
            != (#[trigger] front[j]).pos() by {
            assert(s[i].pos() != s[j].pos());
        }
        lemma_count_of_distinct(front);
        lemma_insert_all_places(empty, front, last.pos());
        if lies_in(front, last.pos()) {
            let i = choose|i: int| 0 <= i < front.len() && (#[trigger] front[i]).pos() == last.pos();
            assert(s[i].pos() == s[s.len() - 1].pos());
            assert(false);
        }
        assert(insert_all(empty, s).dom() =~= insert_all(empty, front).dom().insert(last.pos()));
    } else {
        assert(insert_all(empty, s).dom() =~= Set::<(i32, i32)>::empty());
    }
}

/// Resize stability in numbers: of points at places of their own, the map
/// that took them one at a time and the map that took them as one batch
/// both have as many places as there are points. The count of a map is the
/// number of its places.
pub proof fn lemma_same_count(given: Seq<Point>, ranked: Seq<Point>, by_x: bool)
    requires
        is_ranking_of(ranked, given, by_x),
        distinct_places(given),
    ensures
        insert_all(Map::<(i32, i32), usize>::empty(), given).dom().len() == given.len(),
        insert_all(Map::<(i32, i32), usize>::empty(), ranked).dom().len() == given.len(),
{
    lemma_count_of_distinct(given);
    lemma_one_by_one_or_as_batch(Map::<(i32, i32), usize>::empty(), given, ranked, by_x);
}

/// Nearest-neighbour exactness over lines: the bounds of the hasher of a map
/// over a linear model hold, whatever the line, so that `nearest_neighbor`
/// gives a stored point that no stored point is nearer to the query than.
pub proof fn lemma_nearest_over_lines(map: LearnedHashMap<LinearModel>)
    requires
        map.hasher_spec().model@.fits(),
    ensures
        map.hasher_spec().bounds_hold(),
{
    lemma_line_bounds_hold(map.hasher_spec());
}

} // verus!
