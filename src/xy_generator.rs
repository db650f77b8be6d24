//! A walk over the cells of a rectangle, column by column.
use vstd::prelude::*;
use crate::point::Point;
use crate::region::{Bound, Rect};

verus! {

/// The lowest value that the lower end of `bounds` lets through, and the
/// lowest integer when it is absent.
pub fn first_in(bounds: &(Bound<i32>, Bound<i32>)) -> (r: i32)
    requires
        bounds.0 != Bound::Excluded(i32::MAX),
    ensures
        bounds.0 matches Bound::Included(l) ==> r == l,
        bounds.0 matches Bound::Excluded(l) ==> r == l + 1,
        bounds.0 is Unbounded ==> r == i32::MIN,
{
    match bounds.0 {
        Bound::Included(l) => l,
        Bound::Excluded(l) => l + 1,
        Bound::Unbounded => i32::MIN,
    }
}

/// The highest value that the upper end of `bounds` lets through, and the
/// lowest integer when it is absent.
pub fn last_in(bounds: &(Bound<i32>, Bound<i32>)) -> (r: i32)
    requires
        bounds.1 != Bound::Excluded(i32::MIN),
    ensures
        bounds.1 matches Bound::Included(l) ==> r == l,
        bounds.1 matches Bound::Excluded(l) ==> r == l - 1,
        bounds.1 is Unbounded ==> r == i32::MIN,
{
    match bounds.1 {
        Bound::Included(l) => l,
        Bound::Excluded(l) => l - 1,
        Bound::Unbounded => i32::MIN,
    }
}

/// The bound of one coordinate taken from a bound on points.
pub open spec fn spec_coord(b: Bound<Point>, on_x: bool) -> Bound<i32> {
    match b {
        Bound::Included(p) => Bound::Included(if on_x { p.x } else { p.y }),
        Bound::Excluded(p) => Bound::Excluded(if on_x { p.x } else { p.y }),
        Bound::Unbounded => Bound::Unbounded,
    }
}

fn coord(b: &Bound<Point>, on_x: bool) -> (r: Bound<i32>)
    ensures
        r == spec_coord(*b, on_x),
{
    match b {
        Bound::Included(p) => Bound::Included(if on_x { p.x } else { p.y }),
        Bound::Excluded(p) => Bound::Excluded(if on_x { p.x } else { p.y }),
        Bound::Unbounded => Bound::Unbounded,
    }
}

/// Walks the cells of a rectangle column by column: x first, then y.
pub struct XYGenerator {
    first: Point,
    last: Point,
}

impl XYGenerator {
    pub closed spec fn spec_first(&self) -> Point {
        self.first
    }

    pub closed spec fn spec_last(&self) -> Point {
        self.last
    }

    /// The walk over the cells of `area`: from its lowest corner to its
    /// highest one.
    pub fn within(area: &Rect) -> (r: XYGenerator)
        requires
            spec_coord(area.start, true) != Bound::Excluded(i32::MAX),
            spec_coord(area.start, false) != Bound::Excluded(i32::MAX),
            spec_coord(area.end, true) != Bound::Excluded(i32::MIN),
            spec_coord(area.end, false) != Bound::Excluded(i32::MIN),
        ensures
            r.spec_first().x == first_in_spec(spec_coord(area.start, true)),
            r.spec_first().y == first_in_spec(spec_coord(area.start, false)),
            r.spec_last().x == last_in_spec(spec_coord(area.end, true)),
            r.spec_last().y == last_in_spec(spec_coord(area.end, false)),
    {
        let x = (coord(&area.start, true), coord(&area.end, true));
        let y = (coord(&area.start, false), coord(&area.end, false));
        XYGenerator {
            first: Point { x: first_in(&x), y: first_in(&y) },
            last: Point { x: last_in(&x), y: last_in(&y) },
        }
    }

    /// The first cell of the walk.
    pub fn first(&self) -> (r: &Point)
        ensures
            *r == self.spec_first(),
    {
        &self.first
    }

    /// The last cell of the walk.
    pub fn last(&self) -> (r: &Point)
        ensures
            *r == self.spec_last(),
    {
        &self.last
    }

    /// The cell that follows `pt` in the walk: the next cell up the column,
    /// the bottom of the next column past the top, the first cell before the
    /// walk, and nothing once past the last cell.
    pub fn next(&self, pt: &Point) -> (r: Option<Point>)
        requires
            pt.x < i32::MAX || *pt == self.spec_last() || pt.x > self.spec_last().x || pt.x
                < self.spec_first().x || pt.y < self.spec_first().y || pt.y < self.spec_last().y,
        ensures
            (*pt == self.spec_last() || pt.x > self.spec_last().x) ==> r is None,
            !(*pt == self.spec_last() || pt.x > self.spec_last().x) ==> r == Some(
                if pt.x < self.spec_first().x {
                    self.spec_first()
                } else if pt.y < self.spec_first().y {
                    Point { x: pt.x, y: self.spec_first().y }
                } else if pt.y >= self.spec_last().y {
                    Point { x: (pt.x + 1) as i32, y: self.spec_first().y }
                } else {
                    Point { x: pt.x, y: (pt.y + 1) as i32 }
                },
            ),
    {
        if *pt == self.last || pt.x > self.last.x {
            None
        } else if pt.x < self.first.x {
            Some(self.first)
        } else if pt.y < self.first.y {
            Some(Point { x: pt.x, y: self.first.y })
        } else if pt.y >= self.last.y {
            Some(Point { x: pt.x + 1, y: self.first.y })
        } else {
            Some(Point { x: pt.x, y: pt.y + 1 })
        }
    }
}

pub open spec fn first_in_spec(b: Bound<i32>) -> int {
    match b {
        Bound::Included(l) => l as int,
        Bound::Excluded(l) => l + 1,
        Bound::Unbounded => i32::MIN as int,
    }
}

pub open spec fn last_in_spec(b: Bound<i32>) -> int {
    match b {
        Bound::Included(l) => l as int,
        Bound::Excluded(l) => l - 1,
        Bound::Unbounded => i32::MIN as int,
    }
}

} // verus!
