//! The four quarters of a square or of the plane.
use vstd::prelude::*;
use crate::point::Point;

verus! {

/// One of the four parts of a square, or of the plane.
///
/// The slot of a quarter is a two bit code: the high bit is set for the
/// upper half along x, the low bit for the upper half along y.
#[derive(Clone, Copy, Debug, PartialEq, Eq, Structural)]
pub enum Quarter {
    NorthEast,
    NorthWest,
    SouthEast,
    SouthWest,
}

/// The quarter whose slot is `i`.
pub open spec fn quarter_of_slot(i: int) -> Quarter {
    if i == 3 {
        Quarter::NorthEast
    } else if i == 1 {
        Quarter::NorthWest
    } else if i == 2 {
        Quarter::SouthEast
    } else {
        Quarter::SouthWest
    }
}

/// The slot of the quarter that a point falls in, given whether it lies in
/// the upper half along x and along y.
pub open spec fn slot_of(upper_x: bool, upper_y: bool) -> int {
    (if upper_x { 2int } else { 0int }) + (if upper_y { 1int } else { 0int })
}

impl Quarter {
    pub open spec fn spec_slot(self) -> int {
        match self {
            Quarter::NorthEast => 3,
            Quarter::NorthWest => 1,
            Quarter::SouthEast => 2,
            Quarter::SouthWest => 0,
        }
    }

    /// Index of the quarter among the four children of a node.
    pub fn slot(self) -> (r: usize)
        ensures
            r == self.spec_slot(),
            r < 4,
            quarter_of_slot(r as int) == self,
    {
        match self {
            Quarter::NorthEast => 3,
            Quarter::NorthWest => 1,
            Quarter::SouthEast => 2,
            Quarter::SouthWest => 0,
        }
    }

    /// The quarter from the halves a point falls in.
    pub fn from_halves(upper_x: bool, upper_y: bool) -> (r: Quarter)
        ensures
            r.spec_slot() == slot_of(upper_x, upper_y),
    {
        match (upper_x, upper_y) {
            (true, true) => Quarter::NorthEast,
            (false, true) => Quarter::NorthWest,
            (true, false) => Quarter::SouthEast,
            (false, false) => Quarter::SouthWest,
        }
    }
}

/// Global quarter of a point: the part of the plane it lies in, by the signs
/// of its coordinates (zero counts as positive).
pub fn global_quarter(point: &Point) -> (r: Quarter)
    ensures
        r.spec_slot() == slot_of(point.x >= 0, point.y >= 0),
{
    Quarter::from_halves(point.x >= 0, point.y >= 0)
}

} // verus!
