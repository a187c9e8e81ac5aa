//! Points and axes.
use vstd::prelude::*;

verus! {

/// One of the two axes of the plane.
#[derive(Debug, Clone, Copy, PartialEq, Eq, Structural)]
pub enum Axis {
    X,
    Y,
}

/// A point of the grid: an identifier chosen by the caller and two coordinates.
#[derive(Debug, Clone, Copy, PartialEq, Eq, Structural)]
pub struct Point {
    pub id: usize,
    pub x: i32,
    pub y: i32,
}

impl Default for Point {
    fn default() -> (p: Self)
        ensures
            p == (Point { id: 0, x: 0, y: 0 }),
    {
        Point { id: 0, x: 0, y: 0 }
    }
}

impl Point {
    /// The coordinate pair of the point.
    pub open spec fn pos(self) -> (i32, i32) {
        (self.x, self.y)
    }

    /// The place of the point in the plane.
    pub open spec fn place(self) -> (int, int) {
        (self.x as int, self.y as int)
    }

    /// The coordinate of the point on the given axis.
    pub open spec fn along(self, by_x: bool) -> int {
        if by_x {
            self.x as int
        } else {
            self.y as int
        }
    }

    pub fn new(id: usize, x: i32, y: i32) -> (p: Self)
        ensures
            p == (Point { id, x, y }),
    {
        Point { id, x, y }
    }

    pub fn id(&self) -> (id: usize)
        ensures
            id == self.id,
    {
        self.id
    }

    pub fn x(&self) -> (x: i32)
        ensures
            x == self.x,
    {
        self.x
    }

    pub fn y(&self) -> (y: i32)
        ensures
            y == self.y,
    {
        self.y
    }

    /// Whether two points lie at the same place, whatever their identifiers.
    pub fn same_place(&self, other: &Point) -> (b: bool)
        ensures
            b == (self.pos() == other.pos()),
    {
        self.x == other.x && self.y == other.y
    }
}

} // verus!
