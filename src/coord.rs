use vstd::prelude::*;

verus! {

/// A point of the plane with integer coordinates.
#[derive(Clone, Copy, PartialEq, Eq, Structural, Hash, Debug)]
pub struct Coord2 {
    pub x: i32,
    pub y: i32,
}

impl Coord2 {
    pub fn new(x: i32, y: i32) -> (r: Coord2)
        ensures
            r.x == x,
            r.y == y,
    {
        Coord2 { x, y }
    }

    /// Vector addition; both sums must fit in an `i32`.
    pub fn add(&self, point: &Coord2) -> (r: Coord2)
        requires
            i32::MIN <= self.x + point.x <= i32::MAX,
            i32::MIN <= self.y + point.y <= i32::MAX,
        ensures
            r.x == self.x + point.x,
            r.y == self.y + point.y,
    {
        Coord2 { x: self.x + point.x, y: self.y + point.y }
    }
}

} // verus!
