//! The state of a nearest-neighbour search.
use crate::geometry::Point;
use crate::geometry::distance::squared_distance;
use vstd::prelude::*;

verus! {

/// State of a nearest-neighbour search: a candidate point and its squared
/// distance from the query.
#[derive(Copy, Clone, Debug, PartialEq, Eq, Structural)]
pub struct NearestNeighborState {
    pub distance: u128,
    pub point: Point,
}

impl NearestNeighborState {
    /// Whether the distance of the state is that of its point from `query`.
    pub open spec fn measures(self, query: (int, int)) -> bool {
        self.distance == squared_distance(query, self.point.place())
    }

    /// Whether this candidate is nearer than the other one.
    pub fn is_nearer_than(&self, other: &NearestNeighborState) -> (b: bool)
        ensures
            b == (self.distance < other.distance),
    {
        self.distance < other.distance
    }
}

} // verus!
