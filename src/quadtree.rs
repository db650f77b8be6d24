//! The quadtree as a set of points, and the laws that relate its operations.
use vstd::prelude::*;
use crate::binary_square::{in_square, BinarySquare};
use crate::depth::{exp2, height, lemma_slot_height};
use crate::canonical::lemma_small_slot;
use crate::global_node::{lemma_global_canonical, lemma_slots, plane_quarter, GlobalNode};
use crate::tree::Tree;
use crate::point::Point;
use crate::region::{Holds, Overlaps};
use crate::tree::{lemma_compacted, lemma_concat, lemma_wf_in, query_in};

verus! {

/// A sparse set of grid cells, stored as a region quadtree.
#[derive(Debug)]
pub struct Quadtree {
    root: GlobalNode,
}

/// The quadtree rooted at the four quarters of the plane.
pub type GlobalQuadtree = Quadtree;

impl View for Quadtree {
    type V = Set<Point>;

    /// The set of stored points.
    closed spec fn view(&self) -> Set<Point> {
        self.root.points()
    }
}

impl Quadtree {
    /// The tree below the root is well formed.
    pub closed spec fn wf(&self) -> bool {
        self.root.wf()
    }

    /// The stored points in the order in which `iter` lists them.
    pub closed spec fn listing(&self) -> Seq<Point> {
        self.root.listing()
    }

    pub closed spec fn spec_root(&self) -> GlobalNode {
        self.root
    }

    /// An empty quadtree.
    pub fn new() -> (r: Quadtree)
        ensures
            r.wf(),
            r@ == Set::<Point>::empty(),
            forall|i: int| 0 <= i < 4 ==> (#[trigger] r.spec_root().children[i]) is Empty,
    {
        Quadtree { root: GlobalNode::new() }
    }

    /// The root node, with one slot per quarter of the plane.
    pub fn root(&self) -> (r: &GlobalNode)
        ensures
            *r == self.spec_root(),
    {
        &self.root
    }

    /// Whether `point` is stored.
    pub fn has(&self, point: &Point) -> (r: bool)
        requires
            self.wf(),
        ensures
            r == self@.contains(*point),
    {
        self.root.has(point)
    }

    /// Stores `point`; storing it again changes nothing.
    pub fn insert(&mut self, point: Point)
        requires
            old(self).wf(),
        ensures
            final(self).wf(),
            final(self)@ == old(self)@.insert(point),
            old(self)@.contains(point) ==> *final(self) == *old(self),
    {
        let ghost before = *self;
        self.root.insert(point);
        proof {
            if before@.contains(point) {
                assert(self@ =~= before@);
                lemma_global_canonical(self.root, before.root);
            }
        }
    }

    /// Drops `point`; dropping a point that is not stored changes nothing.
    pub fn remove(&mut self, point: &Point)
        requires
            old(self).wf(),
        ensures
            final(self).wf(),
            final(self)@ == old(self)@.remove(*point),
            !old(self)@.contains(*point) ==> *final(self) == *old(self),
    {
        let ghost before = *self;
        self.root.remove(point);
        proof {
            if !before@.contains(*point) {
                assert(self@ =~= before@);
                lemma_global_canonical(self.root, before.root);
            }
        }
    }

    /// Every stored point, once each, in depth-first order.
    pub fn iter(&self) -> (r: Vec<Point>)
        requires
            self.wf(),
        ensures
            r@ == self.listing(),
            r@.to_set() == self@,
            r@.no_duplicates(),
    {
        proof {
            lemma_listing(*self);
        }
        self.root.collect()
    }

    /// The stored points that `bbox` holds, once each, in the order of
    /// `iter`; subtrees whose square does not overlap `bbox` are skipped.
    pub fn query<B: Overlaps<BinarySquare>>(&self, bbox: &B) -> (r: Vec<Point>)
        requires
            self.wf(),
        ensures
            r@ == self.listing().filter(|p: Point| bbox.spec_holds(p)),
            r@.to_set() == self@.filter(|p: Point| bbox.spec_holds(p)),
            r@.no_duplicates(),
    {
        let root = &self.root;
        proof {
            lemma_slots(*root);
            lemma_listing(*self);
            lemma_filter_to_set(self.listing(), |p: Point| bbox.spec_holds(p));
        }
        let mut out: Vec<Point> = Vec::new();
        query_in(&root.children[3], bbox, &mut out, Ghost(plane_quarter(3)));
        query_in(&root.children[2], bbox, &mut out, Ghost(plane_quarter(2)));
        query_in(&root.children[1], bbox, &mut out, Ghost(plane_quarter(1)));
        query_in(&root.children[0], bbox, &mut out, Ghost(plane_quarter(0)));
        proof {
            let f = |p: Point| bbox.spec_holds(p);
            let l3 = root.children[3].listing();
            let l2 = root.children[2].listing();
            let l1 = root.children[1].listing();
            let l0 = root.children[0].listing();
            Seq::filter_distributes_over_add(l3, l2, f);
            Seq::filter_distributes_over_add(l3 + l2, l1, f);
            Seq::filter_distributes_over_add(l3 + l2 + l1, l0, f);
            assert(out@ =~= self.listing().filter(f));
        }
        out
    }
}

impl Default for Quadtree {
    fn default() -> (r: Quadtree)
        ensures
            r.wf(),
            r@ == Set::<Point>::empty(),
    {
        Quadtree::new()
    }
}

impl Clone for Quadtree {
    /// A deep copy, to read while the tree it came from is changed.
    fn clone(&self) -> (r: Quadtree)
        ensures
            self.wf() ==> r == *self,
    {
        Quadtree { root: self.root.clone() }
    }
}

/// The root of a quadtree holds exactly its points, in the order of `iter`,
/// and the quadtree is well formed exactly when its root is.
pub proof fn law_root(t: Quadtree)
    ensures
        t.wf() == t.spec_root().wf(),
        t@ == t.spec_root().points(),
        t.listing() == t.spec_root().listing(),
{
}

/// Two well formed quadtrees that hold the same points are equal, down to
/// the shape of their trees: the shape does not depend on the order of the
/// insertions and removals that built it.
pub proof fn law_canonical(a: Quadtree, b: Quadtree)
    requires
        a.wf(),
        b.wf(),
        a@ == b@,
    ensures
        a == b,
        a.spec_root() == b.spec_root(),
{
    lemma_global_canonical(a.root, b.root);
}

/// In a well formed quadtree a slot of the root that holds no point is
/// empty, and one that holds a single point is a leaf of it.
pub proof fn law_root_slots(t: Quadtree, i: int, p: Point)
    requires
        t.wf(),
        0 <= i < 4,
    ensures
        t.spec_root().children[i].points() == Set::<Point>::empty() ==> t.spec_root().children[i] is Empty,
        t.spec_root().children[i].points() == set![p] ==> t.spec_root().children[i] == Tree::Leaf(p),
{
    lemma_slots(t.root);
    lemma_small_slot(t.root.children[i], plane_quarter(i), p);
}

/// Storing a point twice leaves the same set as storing it once, so `has`
/// and `iter` answer the same after either.
pub proof fn law_insert_idempotent(t: Quadtree, p: Point)
    requires
        t.wf(),
    ensures
        t@.insert(p).insert(p) == t@.insert(p),
{
    assert(t@.insert(p).insert(p) =~= t@.insert(p));
}

/// Storing a point that was absent and then dropping it gives back the set
/// from before, so `has` and `iter` answer as before.
pub proof fn law_insert_remove(t: Quadtree, p: Point)
    requires
        t.wf(),
        !t@.contains(p),
    ensures
        t@.insert(p).remove(p) == t@,
{
    assert(t@.insert(p).remove(p) =~= t@);
}

/// `has` answers `true` for exactly the points that `iter` lists.
pub proof fn law_membership(t: Quadtree, p: Point)
    requires
        t.wf(),
    ensures
        t@.contains(p) <==> t.listing().contains(p),
{
    lemma_listing(t);
    assert(t.listing().to_set().contains(p) <==> t.listing().contains(p));
}

/// `query` lists a stored point exactly when the region holds it, and, as a
/// set, its points are those of `iter` that the region holds.
pub proof fn law_query<B: Holds<Point>>(t: Quadtree, bbox: B, p: Point)
    requires
        t.wf(),
    ensures
        t.listing().filter(|q: Point| bbox.spec_holds(q)).contains(p) <==> (t@.contains(p)
            && bbox.spec_holds(p)),
        t.listing().filter(|q: Point| bbox.spec_holds(q)).to_set() == t.listing().to_set().filter(
            |q: Point| bbox.spec_holds(q),
        ),
{
    let f = |q: Point| bbox.spec_holds(q);
    lemma_listing(t);
    lemma_filter_to_set(t.listing(), f);
    assert(t.listing().filter(f).to_set().contains(p) <==> t.listing().filter(f).contains(p));
}

/// In a well formed quadtree, which `insert` and `remove` keep, no node is
/// left with fewer than two live children.
pub proof fn law_compaction(t: Quadtree)
    requires
        t.wf(),
    ensures
        forall|i: int| 0 <= i < 4 ==> (#[trigger] t.spec_root().children[i]).compacted(),
{
    let g = t.root;
    lemma_slots(g);
    lemma_compacted(g.children[0], plane_quarter(0));
    lemma_compacted(g.children[1], plane_quarter(1));
    lemma_compacted(g.children[2], plane_quarter(2));
    lemma_compacted(g.children[3], plane_quarter(3));
}

/// However many points a quadtree holds and however far from the origin they
/// sit, when they all lie in a square of side `side` each quarter of the
/// plane holds at most log2(side) + 3 levels of nodes.
pub proof fn law_depth(t: Quadtree, x0: int, y0: int, side: int)
    requires
        t.wf(),
        side >= 1,
        forall|p: Point| #[trigger] t@.contains(p) ==> in_square(p, x0, y0, side),
    ensures
        forall|i: int|
            0 <= i < 4 ==> exp2(height(#[trigger] t.spec_root().children[i])) <= 8 * side,
{
    let g = t.root;
    lemma_slots(g);
    assert forall|i: int| 0 <= i < 4 implies exp2(height(#[trigger] g.children[i])) <= 8
        * side by {
        assert forall|p: Point| #[trigger] g.children[i].points().contains(p) implies in_square(
            p,
            x0,
            y0,
            side,
        ) by {
            assert(t@.contains(p));
        }
        lemma_slot_height(g.children[i], plane_quarter(i), x0, y0, side);
    }
}

/// The listing of a well formed quadtree holds each stored point once.
proof fn lemma_listing(t: Quadtree)
    requires
        t.wf(),
    ensures
        t.listing().to_set() == t@,
        t.listing().no_duplicates(),
{
    let g = t.root;
    lemma_slots(g);
    lemma_wf_in(g.children[0], plane_quarter(0));
    lemma_wf_in(g.children[1], plane_quarter(1));
    lemma_wf_in(g.children[2], plane_quarter(2));
    lemma_wf_in(g.children[3], plane_quarter(3));
    let l3 = g.children[3].listing();
    let l2 = g.children[2].listing();
    let l1 = g.children[1].listing();
    let l0 = g.children[0].listing();
    lemma_concat(l3, l2);
    lemma_concat(l3 + l2, l1);
    lemma_concat(l3 + l2 + l1, l0);
    assert(t.listing().to_set() =~= t@);
}

/// Filtering a sequence without repeats keeps it without repeats, and keeps
/// exactly its elements that pass.
pub proof fn lemma_filter_to_set(s: Seq<Point>, f: spec_fn(Point) -> bool)
    requires
        s.no_duplicates(),
    ensures
        s.filter(f).no_duplicates(),
        s.filter(f).to_set() == s.to_set().filter(f),
    decreases s.len(),
{
    reveal(Seq::filter);
    if s.len() > 0 {
        let rest = s.drop_last();
        assert(rest.no_duplicates());
        lemma_filter_to_set(rest, f);
        if f(s.last()) {
            if rest.filter(f).contains(s.last()) {
                rest.lemma_filter_contains_rev(f, s.last());
                let k = choose|k: int| 0 <= k < rest.len() && rest[k] == s.last();
                assert(s[k] == s[s.len() - 1]);
            }
        }
        assert forall|p: Point| s.filter(f).to_set().contains(p) <==> s.to_set().filter(
            f,
        ).contains(p) by {
            if s.to_set().contains(p) && p != s.last() {
                let k = choose|k: int| 0 <= k < s.len() && s[k] == p;
                assert(rest[k] == p);
                assert(rest.to_set().contains(p));
            }
            if rest.to_set().contains(p) {
                let k = choose|k: int| 0 <= k < rest.len() && rest[k] == p;
                assert(s[k] == p);
            }
            if f(s.last()) {
                assert(s.filter(f) == rest.filter(f).push(s.last()));
                if s.filter(f).to_set().contains(p) && p != s.last() {
                    let k = choose|k: int| 0 <= k < s.filter(f).len() && s.filter(f)[k] == p;
                    assert(rest.filter(f)[k] == p);
                }
                if rest.filter(f).to_set().contains(p) {
                    let k = choose|k: int| 0 <= k < rest.filter(f).len() && rest.filter(f)[k] == p;
                    assert(s.filter(f)[k] == p);
                }
                assert(s.filter(f)[s.filter(f).len() - 1] == s.last());
            }
        }
        assert(s.filter(f).to_set() =~= s.to_set().filter(f));
    } else {
        assert(s.to_set() =~= Set::<Point>::empty());
        assert(s.filter(f).to_set() =~= s.to_set().filter(f));
    }
}

} // verus!
