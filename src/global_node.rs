//! The root of the quadtree, which dispatches on the signs of a point.
use vstd::prelude::*;
use crate::binary_square::{lemma_square_fits, BinarySquare};
use crate::point::Point;
use crate::pow2::{lemma_pow2_half_plane, HALF_PLANE};
use crate::quarter::{global_quarter, slot_of};
use crate::tree::{
    collect, found_points, insert_in, lemma_wf_in, remove_in, search_in, slot_has, take, Tree,
};

verus! {

/// The quarter of the plane in slot `i`, as a square: the cells whose
/// coordinates have the signs that the slot names.
pub open spec fn plane_quarter(i: int) -> BinarySquare {
    BinarySquare {
        anchor: Point {
            x: if i >= 2 { 0 } else { i32::MIN },
            y: if i % 2 == 1 { 0 } else { i32::MIN },
        },
        size: 0x8000_0000,
    }
}

/// The quarters of the plane are well formed, and each cell lies in the one
/// its signs name.
pub proof fn lemma_plane_quarter(i: int)
    requires
        0 <= i < 4,
    ensures
        plane_quarter(i).wf(),
        forall|p: Point| #[trigger]
            plane_quarter(i).contains(p) <==> slot_of(p.x >= 0, p.y >= 0) == i,
{
    lemma_pow2_half_plane();
    assert(HALF_PLANE == 0x8000_0000);
}

/// The root of the quadtree: one slot per quarter of the plane, each grown
/// on its own from the first point that falls in it.
#[derive(Debug, PartialEq, Eq)]
pub struct GlobalNode {
    pub children: [Tree; 4],
}

impl GlobalNode {
    /// Each slot is well formed in its quarter of the plane.
    pub open spec fn wf(self) -> bool {
        &&& self.children[0].wf_in(plane_quarter(0))
        &&& self.children[1].wf_in(plane_quarter(1))
        &&& self.children[2].wf_in(plane_quarter(2))
        &&& self.children[3].wf_in(plane_quarter(3))
    }

    /// The points stored under the root.
    pub open spec fn points(self) -> Set<Point> {
        self.children[0].points() + self.children[1].points() + self.children[2].points()
            + self.children[3].points()
    }

    /// The points in the order of a depth-first walk from the last slot to
    /// the first.
    pub open spec fn listing(self) -> Seq<Point> {
        self.children[3].listing() + self.children[2].listing() + self.children[1].listing()
            + self.children[0].listing()
    }

    /// A root with four empty slots.
    pub fn new() -> (r: GlobalNode)
        ensures
            r.wf(),
            r.points() == Set::<Point>::empty(),
            forall|i: int| 0 <= i < 4 ==> r.children[i] is Empty,
    {
        let r = GlobalNode { children: [Tree::Empty, Tree::Empty, Tree::Empty, Tree::Empty] };
        assert(r.points() =~= Set::<Point>::empty());
        r
    }

    /// Whether the root stores `point`.
    pub fn has(&self, point: &Point) -> (r: bool)
        requires
            self.wf(),
        ensures
            r == self.points().contains(*point),
    {
        let i = global_quarter(point).slot();
        proof {
            lemma_slots(*self);
        }
        slot_has(&self.children[i], point, Ghost(plane_quarter(i as int)))
    }

    /// Adds `point`; adding a stored point changes nothing.
    pub fn insert(&mut self, point: Point)
        requires
            old(self).wf(),
        ensures
            final(self).wf(),
            final(self).points() == old(self).points().insert(point),
            old(self).points().contains(point) ==> *final(self) == *old(self),
    {
        let ghost before = *self;
        let i = global_quarter(&point).slot();
        proof {
            lemma_slots(before);
        }
        let child = take(&mut self.children, i);
        let child = insert_in(child, point, Ghost(plane_quarter(i as int)));
        self.children[i] = child;
        proof {
            assert(self.children[i as int] == child);
            assert forall|j: int| 0 <= j < 4 && j != i implies self.children[j]
                == before.children[j] by {}
            assert(self.points() =~= before.points().insert(point));
            if before.points().contains(point) {
                assert(before.points().insert(point) =~= before.points());
                lemma_global_canonical(*self, before);
            }
        }
    }

    /// Takes `point` out; taking out a point that is not stored changes
    /// nothing.
    pub fn remove(&mut self, point: &Point)
        requires
            old(self).wf(),
        ensures
            final(self).wf(),
            final(self).points() == old(self).points().remove(*point),
            !old(self).points().contains(*point) ==> *final(self) == *old(self),
    {
        let ghost before = *self;
        let i = global_quarter(point).slot();
        proof {
            lemma_slots(before);
        }
        let child = take(&mut self.children, i);
        let child = remove_in(child, point, Ghost(plane_quarter(i as int)));
        self.children[i] = child;
        proof {
            assert(self.children[i as int] == child);
            assert forall|j: int| 0 <= j < 4 && j != i implies self.children[j]
                == before.children[j] by {}
            assert(self.points() =~= before.points().remove(*point));
            if !before.points().contains(*point) {
                assert(before.points().remove(*point) =~= before.points());
                lemma_global_canonical(*self, before);
            }
        }
    }

    /// The largest subtree that lies in `area`: its points are exactly the
    /// stored points in `area`.
    pub fn search(&self, area: &BinarySquare) -> (r: Option<&Tree>)
        requires
            self.wf(),
            area.wf(),
        ensures
            found_points(r) == self.points().filter(|p: Point| area.contains(p)),
            r matches Some(s) ==> s.is_live() && s.wf_in(*area),
    {
        let ghost inside = |p: Point| area.contains(p);
        let i = global_quarter(&area.anchor).slot();
        proof {
            lemma_slots(*self);
            lemma_square_fits(*area);
            assert(area.contains(area.anchor));
            assert forall|p: Point| #[trigger]
                self.points().contains(p) && area.contains(p) implies self.children[i as int].points().contains(
                p,
            ) by {
                if area.contains(p) {
                    assert(slot_of(p.x >= 0, p.y >= 0) == i);
                }
            }
            assert(self.points().filter(inside) =~= self.children[i as int].points().filter(
                inside,
            ));
        }
        search_in(&self.children[i], area, Ghost(plane_quarter(i as int)))
    }

    /// The stored points, in walk order.
    pub fn collect(&self) -> (r: Vec<Point>)
        requires
            self.wf(),
        ensures
            r@ == self.listing(),
    {
        proof {
            lemma_slots(*self);
        }
        let mut out: Vec<Point> = Vec::new();
        collect(&self.children[3], &mut out, Ghost(plane_quarter(3)));
        collect(&self.children[2], &mut out, Ghost(plane_quarter(2)));
        collect(&self.children[1], &mut out, Ghost(plane_quarter(1)));
        collect(&self.children[0], &mut out, Ghost(plane_quarter(0)));
        assert(out@ =~= self.listing());
        out
    }
}

impl Default for GlobalNode {
    fn default() -> (r: GlobalNode)
        ensures
            r.wf(),
            r.points() == Set::<Point>::empty(),
    {
        GlobalNode::new()
    }
}

impl Clone for GlobalNode {
    /// A deep copy; exact for every well formed root.
    fn clone(&self) -> (r: GlobalNode)
        ensures
            self.wf() ==> r == *self,
    {
        let children = [
            self.children[0].clone(),
            self.children[1].clone(),
            self.children[2].clone(),
            self.children[3].clone(),
        ];
        proof {
            if self.wf() {
                lemma_slots(*self);
                assert forall|i: int| 0 <= i < 4 implies exists|q: BinarySquare|
                    q.wf() && (#[trigger] self.children[i]).wf_in(q) by {
                    assert(plane_quarter(i).wf() && self.children[i].wf_in(plane_quarter(i)));
                }
                assert(children =~= self.children);
            }
        }
        GlobalNode { children }
    }
}

/// What a well formed root tells about its slots.
pub proof fn lemma_slots(g: GlobalNode)
    requires
        g.wf(),
    ensures
        forall|i: int, p: Point|
            0 <= i < 4 && #[trigger] g.children[i].points().contains(p) ==> slot_of(
                p.x >= 0,
                p.y >= 0,
            ) == i,
        forall|i: int| 0 <= i < 4 ==> (#[trigger] plane_quarter(i)).wf(),
        forall|i: int, p: Point|
            0 <= i < 4 ==> (#[trigger] plane_quarter(i).contains(p) <==> slot_of(
                p.x >= 0,
                p.y >= 0,
            ) == i),
{
    lemma_plane_quarter(0);
    lemma_plane_quarter(1);
    lemma_plane_quarter(2);
    lemma_plane_quarter(3);
    lemma_wf_in(g.children[0], plane_quarter(0));
    lemma_wf_in(g.children[1], plane_quarter(1));
    lemma_wf_in(g.children[2], plane_quarter(2));
    lemma_wf_in(g.children[3], plane_quarter(3));
}

/// The points of slot `i` of a well formed root are its points whose signs
/// name that slot.
proof fn lemma_slot_points(g: GlobalNode, i: int, p: Point)
    requires
        g.wf(),
        0 <= i < 4,
    ensures
        g.children[i].points().contains(p) <==> (g.points().contains(p) && slot_of(
            p.x >= 0,
            p.y >= 0,
        ) == i),
{
    lemma_slots(g);
    if g.points().contains(p) && slot_of(p.x >= 0, p.y >= 0) == i {
        let j = if g.children[0].points().contains(p) {
            0int
        } else if g.children[1].points().contains(p) {
            1int
        } else if g.children[2].points().contains(p) {
            2int
        } else {
            3int
        };
        assert(g.children[j].points().contains(p));
    }
}

/// Two well formed roots that hold the same points are the same root: the
/// shape of the tree depends on its points alone.
pub proof fn lemma_global_canonical(g1: GlobalNode, g2: GlobalNode)
    requires
        g1.wf(),
        g2.wf(),
        g1.points() == g2.points(),
    ensures
        g1 == g2,
{
    lemma_slots(g1);
    assert forall|i: int| 0 <= i < 4 implies g1.children[i] == g2.children[i] by {
        assert forall|p: Point| g1.children[i].points().contains(p)
            == g2.children[i].points().contains(p) by {
            lemma_slot_points(g1, i, p);
            lemma_slot_points(g2, i, p);
        }
        assert(g1.children[i].points() =~= g2.children[i].points());
        crate::canonical::lemma_canonical(g1.children[i], g2.children[i], plane_quarter(i));
    }
    assert(g1.children =~= g2.children);
}

} // verus!
