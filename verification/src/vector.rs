//! Points and displacements of the plane.
use vstd::prelude::*;

verus! {

/// A point or a displacement, each coordinate in millionths of a unit.
#[derive(Clone, Copy, Debug, PartialEq, Eq, Structural)]
pub struct Vec2 {
    pub x: i64,
    pub y: i64,
}

/// A point of the plane with unbounded coordinates: what a `Vec2` stands for
/// in contracts.
pub struct Point {
    pub x: int,
    pub y: int,
}

impl Point {
    /// The origin.
    pub open spec fn zero() -> Point {
        Point { x: 0, y: 0 }
    }

    /// The point that lies `d` away from this one.
    pub open spec fn plus(self, d: Point) -> Point {
        Point { x: self.x + d.x, y: self.y + d.y }
    }
}

impl View for Vec2 {
    type V = Point;

    open spec fn view(&self) -> Point {
        Point { x: self.x as int, y: self.y as int }
    }
}

impl Vec2 {

    /// The point with the given coordinates.
    pub fn new(x: i64, y: i64) -> (v: Vec2)
        ensures
            v == (Vec2 { x, y }),
    {
        Vec2 { x, y }
    }
}

} // verus!
