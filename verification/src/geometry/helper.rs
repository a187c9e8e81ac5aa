//! Helpers for slices of points: their coordinates and identifiers, and
//! their order along an axis.
use crate::geometry::point::Point;
use crate::scalar::scalar_from_usize;
use vstd::prelude::*;

verus! {

/// The `x` coordinates of a sequence of points.
pub open spec fn xs_of(ps: Seq<Point>) -> Seq<i32> {
    Seq::new(ps.len(), |i: int| ps[i].x)
}

/// The `y` coordinates of a sequence of points.
pub open spec fn ys_of(ps: Seq<Point>) -> Seq<i32> {
    Seq::new(ps.len(), |i: int| ps[i].y)
}

/// The coordinates of a sequence of points on one axis.
pub open spec fn keys_of(ps: Seq<Point>, by_x: bool) -> Seq<i32> {
    if by_x {
        xs_of(ps)
    } else {
        ys_of(ps)
    }
}

/// The coordinate of a point on one axis.
pub open spec fn key_of(p: Point, by_x: bool) -> i32 {
    if by_x {
        p.x
    } else {
        p.y
    }
}

/// The numbers `0, 1, ..` up to `n`, as scalars.
pub open spec fn ranks(n: nat) -> Seq<i32> {
    Seq::new(n, |i: int| i as i32)
}

/// The same points, each with its index as its identifier.
pub open spec fn renumbered(ps: Seq<Point>) -> Seq<Point> {
    Seq::new(ps.len(), |i: int| Point { id: i as usize, x: ps[i].x, y: ps[i].y })
}

/// The points whose coordinate on one axis is `k`, in their order.
pub open spec fn with_key(ps: Seq<Point>, by_x: bool, k: i32) -> Seq<Point> {
    ps.filter(|p: Point| key_of(p, by_x) == k)
}

/// Whether the coordinates on one axis never fall along the sequence.
pub open spec fn is_sorted(ps: Seq<Point>, by_x: bool) -> bool {
    forall|i: int, j: int| 0 <= i <= j < ps.len() ==> key_of(ps[i], by_x) <= key_of(ps[j], by_x)
}

/// Whether `sorted` holds the points of `ps`, ordered by their coordinate on
/// one axis, those of equal coordinate in the order that they have in `ps`.
pub open spec fn is_stable_sort_of(sorted: Seq<Point>, ps: Seq<Point>, by_x: bool) -> bool {
    &&& sorted.len() == ps.len()
    &&& sorted.to_multiset() == ps.to_multiset()
    &&& is_sorted(sorted, by_x)
    &&& forall|k: i32| #[trigger] with_key(sorted, by_x, k) == with_key(ps, by_x, k)
}

/// Extracts all the `x` coordinates from a slice of points.
pub fn extract_x(ps: &[Point]) -> (xs: Vec<i32>)
    ensures
        xs@ == xs_of(ps@),
{
    let n: usize = ps.len();
    let mut xs: Vec<i32> = Vec::with_capacity(n);
    let mut i: usize = 0;
    while i < n
        invariant
            n == ps@.len(),
            i <= n,
            xs@ == xs_of(ps@).take(i as int),
        decreases n - i,
    {
        xs.push(ps[i].x);
        i += 1;
        assert(xs@ =~= xs_of(ps@).take(i as int));
    }
    assert(xs@ =~= xs_of(ps@));
    xs
}

/// Extracts all the `y` coordinates from a slice of points.
pub fn extract_y(ps: &[Point]) -> (ys: Vec<i32>)
    ensures
        ys@ == ys_of(ps@),
{
    let n: usize = ps.len();
    let mut ys: Vec<i32> = Vec::with_capacity(n);
    let mut i: usize = 0;
    while i < n
        invariant
            n == ps@.len(),
            i <= n,
            ys@ == ys_of(ps@).take(i as int),
        decreases n - i,
    {
        ys.push(ps[i].y);
        i += 1;
        assert(ys@ =~= ys_of(ps@).take(i as int));
    }
    assert(ys@ =~= ys_of(ps@));
    ys
}

/// Extracts the identifiers from a slice of points, as scalars. There is no
/// result where an identifier is beyond the scalar type.
pub fn extract_id(ps: &[Point]) -> (ids: Option<Vec<i32>>)
    ensures
        ids.is_some() <==> (forall|i: int| 0 <= i < ps@.len() ==> (#[trigger] ps@[i]).id
            <= i32::MAX),
        ids matches Some(v) ==> v@ == Seq::new(ps@.len(), |i: int| ps@[i].id as i32),
{
    let n: usize = ps.len();
    let mut ids: Vec<i32> = Vec::with_capacity(n);
    let mut i: usize = 0;
    while i < n
        invariant
            n == ps@.len(),
            i <= n,
            forall|j: int| 0 <= j < i ==> (#[trigger] ps@[j]).id <= i32::MAX,
            ids@ == Seq::new(ps@.len(), |j: int| ps@[j].id as i32).take(i as int),
        decreases n - i,
    {
        match scalar_from_usize(ps[i].id) {
            Some(id) => {
                ids.push(id);
            },
            None => {
                return None;
            },
        }
        i += 1;
        assert(ids@ =~= Seq::new(ps@.len(), |j: int| ps@[j].id as i32).take(i as int));
    }
    assert(ids@ =~= Seq::new(ps@.len(), |j: int| ps@[j].id as i32));
    Some(ids)
}

/// Gives each point its index as its identifier.
pub fn reset_id(ps: &mut [Point])
    ensures
        final(ps)@ == renumbered(old(ps)@),
{
    let n: usize = ps.len();
    let mut i: usize = 0;
    while i < n
        invariant
            n == ps@.len(),
            n == old(ps)@.len(),
            i <= n,
            forall|j: int| 0 <= j < i ==> #[trigger] ps@[j] == renumbered(old(ps)@)[j],
            forall|j: int| i <= j < n ==> #[trigger] ps@[j] == old(ps)@[j],
        decreases n - i,
    {
        ps[i].id = i;
        i += 1;
    }
    assert(ps@ =~= renumbered(old(ps)@));
}

/// Sorts a slice of points by their `x` coordinate. This is `sort_by_key` of
/// the standard library, which is stable: it orders by the key and keeps
/// points of equal key in the order that they had.
#[verifier::external_body]
pub fn sort_by_x(ps: &mut [Point])
    ensures
        is_stable_sort_of(final(ps)@, old(ps)@, true),
{
    ps.sort_by_key(|p| p.x);
}

/// Sorts a slice of points by their `y` coordinate. This is `sort_by_key` of
/// the standard library, which is stable: it orders by the key and keeps
/// points of equal key in the order that they had.
#[verifier::external_body]
pub fn sort_by_y(ps: &mut [Point])
    ensures
        is_stable_sort_of(final(ps)@, old(ps)@, false),
{
    ps.sort_by_key(|p| p.y);
}

/// Converts a slice of coordinate pairs to points, each with its index as its
/// identifier.
pub fn convert_to_points(ps: &[[i32; 2]]) -> (r: Option<Vec<Point>>)
    ensures
        r matches Some(v) && v@ == Seq::new(
            ps@.len(),
            |i: int| Point { id: i as usize, x: ps@[i]@[0], y: ps@[i]@[1] },
        ),
{
    let n: usize = ps.len();
    let mut v: Vec<Point> = Vec::with_capacity(n);
    let mut i: usize = 0;
    while i < n
        invariant
            n == ps@.len(),
            i <= n,
            v@ == Seq::new(
                ps@.len(),
                |j: int| Point { id: j as usize, x: ps@[j]@[0], y: ps@[j]@[1] },
            ).take(i as int),
        decreases n - i,
    {
        v.push(Point::new(i, ps[i][0], ps[i][1]));
        i += 1;
        assert(v@ =~= Seq::new(
            ps@.len(),
            |j: int| Point { id: j as usize, x: ps@[j]@[0], y: ps@[j]@[1] },
        ).take(i as int));
    }
    assert(v@ =~= Seq::new(
        ps@.len(),
        |j: int| Point { id: j as usize, x: ps@[j]@[0], y: ps@[j]@[1] },
    ));
    Some(v)
}

} // verus!
