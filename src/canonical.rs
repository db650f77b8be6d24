//! A well formed quadtree is determined by its points: its shape is a
//! function of the set it stores, whatever order built it.
use vstd::prelude::*;
use crate::binary_square::{
    lemma_nested, lemma_same_square, lemma_sub_square, BinarySquare,
};
use crate::depth::lemma_live_nonempty;
use crate::point::Point;
use crate::pow2::lemma_pow2_gap;
use crate::tree::{lemma_node, lemma_wf_in, SquareNode, Tree};

verus! {

/// A node of a well formed tree has points in two distinct quarters.
proof fn lemma_two_quarters(n: SquareNode) -> (r: (Point, Point))
    requires
        n.valid(),
        n.live_count() >= 2,
    ensures
        n.children_points().contains(r.0),
        n.children_points().contains(r.1),
        n.area.spec_quarter(r.0) != n.area.spec_quarter(r.1),
{
    lemma_node(n);
    let l0 = n.children[0].is_live();
    let l1 = n.children[1].is_live();
    let l2 = n.children[2].is_live();
    let i: int = if l0 { 0 } else if l1 { 1 } else { 2 };
    let j: int = if l0 && l1 { 1 } else if (l0 || l1) && l2 { 2 } else { 3 };
    assert(i < j && n.children[i].is_live() && n.children[j].is_live());
    lemma_sub_square(n.area, i);
    lemma_sub_square(n.area, j);
    lemma_live_nonempty(n.children[i], n.area.sub_square(i));
    lemma_live_nonempty(n.children[j], n.area.sub_square(j));
    let a = choose|p: Point| n.children[i].points().contains(p);
    let b = choose|p: Point| n.children[j].points().contains(p);
    assert(n.children_points().contains(a));
    assert(n.children_points().contains(b));
    (a, b)
}

/// The points of child `i` of a valid node are its points in quarter `i`.
pub proof fn lemma_child_points(n: SquareNode, i: int, p: Point)
    requires
        n.valid(),
        0 <= i < 4,
    ensures
        n.children[i].points().contains(p) <==> (n.children_points().contains(p)
            && n.area.spec_quarter(p) == i),
{
    lemma_node(n);
    if n.children_points().contains(p) && n.area.spec_quarter(p) == i {
        let j = if n.children[0].points().contains(p) {
            0int
        } else if n.children[1].points().contains(p) {
            1int
        } else if n.children[2].points().contains(p) {
            2int
        } else {
            3int
        };
        assert(n.children[j].points().contains(p));
    }
}

/// Of two nodes holding the same points, neither lies in a quarter of the
/// other: their squares are the same.
proof fn lemma_same_area(n1: SquareNode, n2: SquareNode)
    requires
        n1.valid(),
        n2.valid(),
        n1.live_count() >= 2,
        n2.live_count() >= 2,
        n1.children_points() == n2.children_points(),
    ensures
        n1.area == n2.area,
{
    lemma_node(n1);
    lemma_node(n2);
    let (a, b) = lemma_two_quarters(n1);
    lemma_smaller_area(n1, n2);
    lemma_smaller_area(n2, n1);
    lemma_same_square(n1.area, n2.area, a);
}

/// A node of a well formed tree holds no fewer cells than any node with the
/// same points.
proof fn lemma_smaller_area(small: SquareNode, large: SquareNode)
    requires
        small.valid(),
        large.valid(),
        small.live_count() >= 2,
        large.live_count() >= 2,
        small.children_points() == large.children_points(),
    ensures
        small.area.size >= large.area.size,
{
    if small.area.size < large.area.size {
        lemma_node(small);
        lemma_node(large);
        let (a, b) = lemma_two_quarters(large);
        lemma_nested(large.area, small.area, a);
        let k = large.area.spec_quarter(small.area.anchor);
        lemma_sub_square(large.area, k);
        let sub = large.area.sub_square(k);
        lemma_pow2_gap(small.area.size as int, large.area.size as int);
        assert(small.area.contains(small.area.anchor));
        lemma_nested(sub, small.area, small.area.anchor);
        assert(sub.contains(a) && sub.contains(b));
    }
}

/// Two slots well formed in one square and holding the same points are the
/// same slot.
pub proof fn lemma_canonical(t1: Tree, t2: Tree, q: BinarySquare)
    requires
        q.wf(),
        t1.wf_in(q),
        t2.wf_in(q),
        t1.points() == t2.points(),
    ensures
        t1 == t2,
    decreases q.size,
{
    lemma_wf_in(t1, q);
    lemma_wf_in(t2, q);
    if t1.is_live() {
        lemma_live_nonempty(t1, q);
    }
    if t2.is_live() {
        lemma_live_nonempty(t2, q);
    }
    if let Tree::Node(n1) = t1 {
        let (a, b) = lemma_two_quarters(*n1);
        lemma_node(*n1);
        if let Tree::Node(n2) = t2 {
            lemma_node(*n2);
            lemma_same_area(*n1, *n2);
            assert forall|i: int| 0 <= i < 4 implies n1.children[i] == n2.children[i] by {
                lemma_sub_square(n1.area, i);
                assert forall|p: Point| n1.children[i].points().contains(p)
                    == n2.children[i].points().contains(p) by {
                    lemma_child_points(*n1, i, p);
                    lemma_child_points(*n2, i, p);
                }
                assert(n1.children[i].points() =~= n2.children[i].points());
                lemma_canonical(n1.children[i], n2.children[i], n1.area.sub_square(i));
            }
            assert(n1.children =~= n2.children);
        } else {
            assert(t2.points().contains(a) && t2.points().contains(b));
        }
    } else if let Tree::Node(n2) = t2 {
        let (a, b) = lemma_two_quarters(*n2);
        lemma_node(*n2);
        assert(t1.points().contains(a) && t1.points().contains(b));
    } else if let Tree::Leaf(p1) = t1 {
        assert(t1.points().contains(p1));
        if let Tree::Leaf(p2) = t2 {
            assert(t2.points().contains(p2));
        }
    }
}

/// A well formed slot without points is empty, and one with a single point
/// is a leaf.
pub proof fn lemma_small_slot(t: Tree, q: BinarySquare, p: Point)
    requires
        q.wf(),
        t.wf_in(q),
    ensures
        t.points() == Set::<Point>::empty() ==> t is Empty,
        t.points() == set![p] ==> t == Tree::Leaf(p),
{
    lemma_wf_in(t, q);
    if t.points() == Set::<Point>::empty() {
        assert(Tree::Empty.points() =~= t.points());
        lemma_canonical(t, Tree::Empty, q);
    }
    if t.points() == set![p] {
        assert(t.points().contains(p));
        assert(Tree::Leaf(p).points() =~= t.points());
        lemma_canonical(t, Tree::Leaf(p), q);
    }
}

/// Two valid nodes over one square whose children hold the same points are
/// the same node.
pub proof fn lemma_same_children(n1: SquareNode, n2: SquareNode)
    requires
        n1.valid(),
        n2.valid(),
        n1.area == n2.area,
        forall|i: int| 0 <= i < 4 ==> (#[trigger] n1.children[i]).points() == n2.children[i].points(),
    ensures
        n1 == n2,
{
    assert forall|i: int| 0 <= i < 4 implies n1.children[i] == n2.children[i] by {
        lemma_sub_square(n1.area, i);
        assert(n1.children[i].points() == n2.children[i].points());
        lemma_canonical(n1.children[i], n2.children[i], n1.area.sub_square(i));
    }
    assert(n1.children =~= n2.children);
}

} // verus!
