//! The point set as a sorted vector, a reference model for the quadtree.
use vstd::prelude::*;
use crate::binary_query::binary_query;
use crate::point::Point;
use crate::quadtree::lemma_filter_to_set;
use crate::region::{Holds, Rect};
use crate::sorted::{find, sorted, sorted_insert, sorted_remove};
use crate::utils::xy_less;

verus! {

/// A set of points kept in a vector sorted in x-then-y order: the same
/// contract as the quadtree, with binary search in place of the tree.
pub struct BinaryTree {
    elements: Vec<Point>,
}

impl View for BinaryTree {
    type V = Set<Point>;

    closed spec fn view(&self) -> Set<Point> {
        self.elements@.to_set()
    }
}

impl BinaryTree {
    /// The elements are sorted, hence without repeats.
    pub closed spec fn wf(&self) -> bool {
        sorted(self.elements@)
    }

    /// An empty set.
    pub fn new() -> (r: BinaryTree)
        ensures
            r.wf(),
            r@ == Set::<Point>::empty(),
    {
        let r = BinaryTree { elements: Vec::new() };
        assert(r@ =~= Set::<Point>::empty());
        r
    }

    /// The points in x-then-y order, once each.
    pub fn iter(&self) -> (r: &[Point])
        requires
            self.wf(),
        ensures
            r@.to_set() == self@,
            sorted(r@),
    {
        self.elements.as_slice()
    }

    /// Whether `point` is stored.
    pub fn has(&self, point: &Point) -> (r: bool)
        requires
            self.wf(),
        ensures
            r == self@.contains(*point),
    {
        find(&self.elements, point).is_ok()
    }

    /// The stored points that `area` holds, once each, in x-then-y order.
    pub fn query(&self, area: &Rect) -> (r: Vec<Point>)
        requires
            self.wf(),
        ensures
            r@.to_set() == self@.filter(|p: Point| area.spec_holds(p)),
            r@.no_duplicates(),
    {
        proof {
            assert forall|i: int, j: int|
                0 <= i < self.elements@.len() && 0 <= j < self.elements@.len() && i != j implies self.elements@[i]
                != self.elements@[j] by {
                if i < j {
                    assert(xy_less(self.elements@[i], self.elements@[j]));
                } else {
                    assert(xy_less(self.elements@[j], self.elements@[i]));
                }
            }
            lemma_filter_to_set(self.elements@, |p: Point| area.spec_holds(p));
        }
        binary_query(area, self.elements.as_slice())
    }

    /// Stores `point`, if missing.
    pub fn insert(&mut self, point: Point)
        requires
            old(self).wf(),
        ensures
            final(self).wf(),
            final(self)@ == old(self)@.insert(point),
    {
        sorted_insert(&mut self.elements, point);
    }

    /// Drops `point`, if present.
    pub fn remove(&mut self, point: &Point)
        requires
            old(self).wf(),
        ensures
            final(self).wf(),
            final(self)@ == old(self)@.remove(*point),
    {
        sorted_remove(&mut self.elements, point);
    }

    /// Drops every point.
    pub fn clear(&mut self)
        ensures
            final(self).wf(),
            final(self)@ == Set::<Point>::empty(),
    {
        self.elements.clear();
        assert(self@ =~= Set::<Point>::empty());
    }
}

} // verus!
