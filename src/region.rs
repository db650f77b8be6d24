//! Regions that a range query can be given, and axis-aligned rectangles.
use vstd::prelude::*;
use crate::binary_square::BinarySquare;
use crate::point::Point;

verus! {

/// Containment of an object in a region.
pub trait Holds<T> {
    /// The region holds `object`.
    spec fn spec_holds(&self, object: T) -> bool;

    fn holds(&self, object: &T) -> (r: bool)
        ensures
            r == self.spec_holds(*object),
    ;
}

/// Overlap test between a region of points and another one, used to prune a
/// search: when it answers `false`, no point lies in both.
pub trait Overlaps<Lhs: Holds<Point>>: Holds<Point> {
    fn overlaps(&self, lhs: &Lhs) -> (r: bool)
        ensures
            !r ==> forall|p: Point| lhs.spec_holds(p) ==> !self.spec_holds(p),
    ;
}

/// One end of a range.
#[derive(Clone, Copy, Debug, PartialEq, Eq)]
pub enum Bound<T> {
    Included(T),
    Excluded(T),
    Unbounded,
}

/// `p` is at or past the lower end `b` on both coordinates.
pub open spec fn above(b: Bound<Point>, p: Point) -> bool {
    match b {
        Bound::Included(s) => s.x <= p.x && s.y <= p.y,
        Bound::Excluded(s) => s.x < p.x && s.y < p.y,
        Bound::Unbounded => true,
    }
}

/// `p` is at or before the upper end `b` on both coordinates.
pub open spec fn below(b: Bound<Point>, p: Point) -> bool {
    match b {
        Bound::Included(e) => p.x <= e.x && p.y <= e.y,
        Bound::Excluded(e) => p.x < e.x && p.y < e.y,
        Bound::Unbounded => true,
    }
}

/// An axis-aligned rectangle of cells, given by its two ends; each end
/// bounds both coordinates, and may be inclusive, exclusive or absent.
#[derive(Clone, Copy, Debug, PartialEq, Eq)]
pub struct Rect {
    pub start: Bound<Point>,
    pub end: Bound<Point>,
}

/// The lowest coordinate that the lower end `b` lets through, on x or on y.
pub open spec fn low_of(b: Bound<Point>, on_x: bool) -> int {
    match b {
        Bound::Included(s) => if on_x { s.x as int } else { s.y as int },
        Bound::Excluded(s) => if on_x { s.x + 1 } else { s.y + 1 },
        Bound::Unbounded => i32::MIN as int,
    }
}

/// The highest coordinate that the upper end `b` lets through, on x or on y.
pub open spec fn high_of(b: Bound<Point>, on_x: bool) -> int {
    match b {
        Bound::Included(e) => if on_x { e.x as int } else { e.y as int },
        Bound::Excluded(e) => if on_x { e.x - 1 } else { e.y - 1 },
        Bound::Unbounded => i32::MAX as int,
    }
}

/// A rectangle holds exactly the cells between the lowest and highest
/// coordinates its ends let through.
pub proof fn lemma_rect_box(r: Rect, p: Point)
    ensures
        r.spec_holds(p) <==> (low_of(r.start, true) <= p.x <= high_of(r.end, true) && low_of(
            r.start,
            false,
        ) <= p.y <= high_of(r.end, false)),
{
}

/// Computes `low_of`.
pub(crate) fn lowest(b: &Bound<Point>, on_x: bool) -> (r: i64)
    ensures
        r == low_of(*b, on_x),
        forall|p: Point| #![trigger above(*b, p)]
            above(*b, p) ==> r <= (if on_x { p.x } else { p.y }),
{
    match b {
        Bound::Included(s) => if on_x { s.x as i64 } else { s.y as i64 },
        Bound::Excluded(s) => if on_x { s.x as i64 + 1 } else { s.y as i64 + 1 },
        Bound::Unbounded => i32::MIN as i64,
    }
}

/// Computes `high_of`.
pub(crate) fn highest(b: &Bound<Point>, on_x: bool) -> (r: i64)
    ensures
        r == high_of(*b, on_x),
        forall|p: Point| #![trigger below(*b, p)]
            below(*b, p) ==> (if on_x { p.x } else { p.y }) <= r,
{
    match b {
        Bound::Included(e) => if on_x { e.x as i64 } else { e.y as i64 },
        Bound::Excluded(e) => if on_x { e.x as i64 - 1 } else { e.y as i64 - 1 },
        Bound::Unbounded => i32::MAX as i64,
    }
}

impl Rect {
    /// The rectangle between two ends.
    pub fn new(start: Bound<Point>, end: Bound<Point>) -> (r: Rect)
        ensures
            r.start == start,
            r.end == end,
    {
        Rect { start, end }
    }

    /// The cells from `start` included to `end` excluded.
    pub fn range(start: Point, end: Point) -> (r: Rect)
        ensures
            r.start == Bound::Included(start),
            r.end == Bound::Excluded(end),
    {
        Rect { start: Bound::Included(start), end: Bound::Excluded(end) }
    }

    /// The cells from `start` to `end`, both included.
    pub fn range_inclusive(start: Point, end: Point) -> (r: Rect)
        ensures
            r.start == Bound::Included(start),
            r.end == Bound::Included(end),
    {
        Rect { start: Bound::Included(start), end: Bound::Included(end) }
    }

    pub open spec fn full_spec() -> Rect {
        Rect { start: Bound::Unbounded, end: Bound::Unbounded }
    }

    /// The whole plane.
    pub fn full() -> (r: Rect)
        ensures
            r == Rect::full_spec(),
    {
        Rect { start: Bound::Unbounded, end: Bound::Unbounded }
    }
}

impl Holds<Point> for Rect {
    open spec fn spec_holds(&self, object: Point) -> bool {
        above(self.start, object) && below(self.end, object)
    }

    fn holds(&self, object: &Point) -> (r: bool) {
        let low = match self.start {
            Bound::Included(s) => s.x <= object.x && s.y <= object.y,
            Bound::Excluded(s) => s.x < object.x && s.y < object.y,
            Bound::Unbounded => true,
        };
        let high = match self.end {
            Bound::Included(e) => object.x <= e.x && object.y <= e.y,
            Bound::Excluded(e) => object.x < e.x && object.y < e.y,
            Bound::Unbounded => true,
        };
        low && high
    }
}

impl Overlaps<BinarySquare> for Rect {
    /// Compares, on each axis, the cells the rectangle lets through with the
    /// cells of the square.
    fn overlaps(&self, lhs: &BinarySquare) -> (r: bool)
        ensures
            r == exists|p: Point| lhs.spec_holds(p) && self.spec_holds(p),
    {
        let size = lhs.size as i64;
        let x0 = lhs.anchor.x as i64;
        let y0 = lhs.anchor.y as i64;
        let low_x = lowest(&self.start, true);
        let low_y = lowest(&self.start, false);
        let high_x = highest(&self.end, true);
        let high_y = highest(&self.end, false);
        let from_x = if low_x > x0 { low_x } else { x0 };
        let to_x = if high_x < x0 + size - 1 { high_x } else { x0 + size - 1 };
        let from_y = if low_y > y0 { low_y } else { y0 };
        let to_y = if high_y < y0 + size - 1 { high_y } else { y0 + size - 1 };
        let r = from_x <= to_x && from_y <= to_y;
        proof {
            if r {
                let w = Point { x: from_x as i32, y: from_y as i32 };
                lemma_rect_box(*self, w);
                assert(lhs.spec_holds(w) && self.spec_holds(w));
            } else {
                assert forall|p: Point| !(lhs.spec_holds(p) && self.spec_holds(p)) by {
                    lemma_rect_box(*self, p);
                }
            }
        }
        r
    }
}

} // verus!
