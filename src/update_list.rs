//! The cells to look at during the next step of the automaton.
use vstd::prelude::*;
use crate::point::Point;
use crate::region::{Holds, Rect};
use crate::sorted::{sorted, sorted_insert};

verus! {

/// The cell `q` is `c` or one of its eight neighbours.
pub open spec fn near(c: Point, q: Point) -> bool {
    c.x - 1 <= q.x <= c.x + 1 && c.y - 1 <= q.y <= c.y + 1
}

/// Rank of a neighbour `q` of `c` in the walk over the block of nine.
pub open spec fn rank(c: Point, q: Point) -> int {
    (q.x - c.x + 1) * 3 + (q.y - c.y + 1)
}

/// The cells whose state may change at the next step: a sorted set of cells
/// and the area outside of which cells are not registered with neighbours.
#[derive(Clone)]
pub struct UpdateList {
    area: Rect,
    cells: Vec<Point>,
}

impl View for UpdateList {
    type V = Set<Point>;

    closed spec fn view(&self) -> Set<Point> {
        self.cells@.to_set()
    }
}

impl UpdateList {
    /// The cells are sorted, hence without repeats.
    pub closed spec fn wf(&self) -> bool {
        sorted(self.cells@)
    }

    pub closed spec fn spec_area(&self) -> Rect {
        self.area
    }

    /// An empty list over the whole plane.
    pub fn new() -> (r: UpdateList)
        ensures
            r.wf(),
            r@ == Set::<Point>::empty(),
            r.spec_area() == Rect::full_spec(),
    {
        UpdateList::inside(Rect::full())
    }

    /// An empty list over `area`.
    pub fn inside(area: Rect) -> (r: UpdateList)
        ensures
            r.wf(),
            r@ == Set::<Point>::empty(),
            r.spec_area() == area,
    {
        let r = UpdateList { area, cells: Vec::new() };
        assert(r@ =~= Set::<Point>::empty());
        r
    }

    /// The current area.
    pub fn area(&self) -> (r: &Rect)
        ensures
            *r == self.spec_area(),
    {
        &self.area
    }

    /// Sets the area and hands back the previous one.
    pub fn change_area(&mut self, area: Rect) -> (r: Rect)
        ensures
            r == old(self).spec_area(),
            final(self).spec_area() == area,
            final(self)@ == old(self)@,
            final(self).wf() == old(self).wf(),
    {
        let previous = self.area;
        self.area = area;
        previous
    }

    /// The registered cells, in x-then-y order.
    pub fn iter(&self) -> (r: &[Point])
        requires
            self.wf(),
        ensures
            r@.to_set() == self@,
            sorted(r@),
    {
        self.cells.as_slice()
    }

    /// Registers `cell`.
    pub fn register(&mut self, cell: Point)
        requires
            old(self).wf(),
        ensures
            final(self).wf(),
            final(self)@ == old(self)@.insert(cell),
            final(self).spec_area() == old(self).spec_area(),
    {
        sorted_insert(&mut self.cells, cell);
    }

    /// Registers `cell` and its eight neighbours when the area holds `cell`.
    pub fn register_with_neighbors(&mut self, cell: Point)
        requires
            old(self).wf(),
            old(self).spec_area().spec_holds(cell) ==> i32::MIN < cell.x < i32::MAX && i32::MIN
                < cell.y < i32::MAX,
        ensures
            final(self).wf(),
            final(self).spec_area() == old(self).spec_area(),
            old(self).spec_area().spec_holds(cell) ==> final(self)@ == old(self)@ + Set::new(
                |q: Point| near(cell, q),
            ),
            !old(self).spec_area().spec_holds(cell) ==> final(self)@ == old(self)@,
    {
        if self.area.holds(&cell) {
            self.register_block(cell);
        }
    }

    /// Registers `cell` and its eight neighbours, wherever it lies.
    pub fn register_block(&mut self, cell: Point)
        requires
            old(self).wf(),
            i32::MIN < cell.x < i32::MAX,
            i32::MIN < cell.y < i32::MAX,
        ensures
            final(self).wf(),
            final(self).spec_area() == old(self).spec_area(),
            final(self)@ == old(self)@ + Set::new(|q: Point| near(cell, q)),
    {
        let ghost before = self@;
        let mut k: i32 = 0;
        while k < 9
            invariant
                0 <= k <= 9,
                self.wf(),
                self.spec_area() == old(self).spec_area(),
                i32::MIN < cell.x < i32::MAX,
                i32::MIN < cell.y < i32::MAX,
                self@ == before + Set::new(|q: Point| near(cell, q) && rank(cell, q) < k),
            decreases 9 - k,
        {
            let q = Point { x: cell.x - 1 + k / 3, y: cell.y - 1 + k % 3 };
            self.register(q);
            proof {
                assert(rank(cell, q) == k);
                assert forall|p: Point| near(cell, p) && rank(cell, p) < k + 1 implies (near(cell, p)
                    && rank(cell, p) < k) || p == q by {
                    if rank(cell, p) == k {
                        assert(p.x == q.x && p.y == q.y);
                    }
                }
            }
            k = k + 1;
            assert(self@ =~= before + Set::new(|p: Point| near(cell, p) && rank(cell, p) < k));
        }
        assert(Set::new(|p: Point| near(cell, p) && rank(cell, p) < 9) =~= Set::new(
            |p: Point| near(cell, p),
        ));
    }
}

} // verus!
