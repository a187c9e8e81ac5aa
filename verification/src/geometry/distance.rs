//! Measures of the distance between two places.
use crate::geometry::point::Point;
use vstd::prelude::*;

verus! {

/// The squared Euclidean distance between two places.
pub open spec fn squared_distance(a: (int, int), b: (int, int)) -> int {
    (a.0 - b.0) * (a.0 - b.0) + (a.1 - b.1) * (a.1 - b.1)
}

/// The Manhattan distance between two places.
pub open spec fn manhattan_distance(a: (int, int), b: (int, int)) -> int {
    (if a.0 >= b.0 {
        a.0 - b.0
    } else {
        b.0 - a.0
    }) + (if a.1 >= b.1 {
        a.1 - b.1
    } else {
        b.1 - a.1
    })
}

/// The place that a coordinate pair names.
pub open spec fn place_of(p: [i32; 2]) -> (int, int) {
    (p@[0] as int, p@[1] as int)
}

/// A measure of how far two places are from each other.
pub trait Distance {
    /// The measure between two places.
    spec fn spec_distance(a: (int, int), b: (int, int)) -> int;

    /// The measure between two coordinate pairs.
    fn distance(a: &[i32; 2], b: &[i32; 2]) -> (d: u128)
        ensures
            d == Self::spec_distance(place_of(*a), place_of(*b)),
    ;

    /// The measure between two points.
    fn distance_point(a: &Point, b: &Point) -> (d: u128)
        ensures
            d == Self::spec_distance(a.place(), b.place()),
    ;
}

/// The Euclidean measure, given by its square: the square orders places as
/// the distance does and is a whole number.
pub struct Euclidean {}

/// The Manhattan measure.
pub struct Manhattan {}

/// The square of a difference of two scalars is at most 2^64.
pub proof fn lemma_square_of_difference(a: int, b: int)
    requires
        i32::MIN <= a <= i32::MAX,
        i32::MIN <= b <= i32::MAX,
    ensures
        0 <= (a - b) * (a - b) <= 0x1_0000_0000_0000_0000,
{
    let d = a - b;
    assert(0 <= d * d <= 0x1_0000_0000_0000_0000) by (nonlinear_arith)
        requires
            -0xffff_ffff <= d <= 0xffff_ffff,
    ;
}

impl Distance for Euclidean {
    open spec fn spec_distance(a: (int, int), b: (int, int)) -> int {
        squared_distance(a, b)
    }

    fn distance(a: &[i32; 2], b: &[i32; 2]) -> (d: u128) {
        let dx: i128 = a[0] as i128 - b[0] as i128;
        let dy: i128 = a[1] as i128 - b[1] as i128;
        proof {
            lemma_square_of_difference(a@[0] as int, b@[0] as int);
            lemma_square_of_difference(a@[1] as int, b@[1] as int);
        }
        (dx * dx + dy * dy) as u128
    }

    fn distance_point(a: &Point, b: &Point) -> (d: u128) {
        Self::distance(&[a.x, a.y], &[b.x, b.y])
    }
}

impl Distance for Manhattan {
    open spec fn spec_distance(a: (int, int), b: (int, int)) -> int {
        manhattan_distance(a, b)
    }

    fn distance(a: &[i32; 2], b: &[i32; 2]) -> (d: u128) {
        let dx: i128 = a[0] as i128 - b[0] as i128;
        let dy: i128 = a[1] as i128 - b[1] as i128;
        let ax: i128 = if dx >= 0 {
            dx
        } else {
            -dx
        };
        let ay: i128 = if dy >= 0 {
            dy
        } else {
            -dy
        };
        (ax + ay) as u128
    }

    fn distance_point(a: &Point, b: &Point) -> (d: u128) {
        Self::distance(&[a.x, a.y], &[b.x, b.y])
    }
}

} // verus!
