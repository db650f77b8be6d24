//! Slots and inner nodes of the quadtree, and the recursive insert, remove,
//! lookup and traversal over them.
use vstd::prelude::*;
use crate::binary_square::{
    disjoint, lemma_holds_square, lemma_nested, lemma_same_square, lemma_square_fits, lemma_sub_square,
    BinarySquare,
};
use crate::point::Point;
use crate::pow2::{lemma_pow2_gap, lemma_pow2_halves};
use crate::region::{Holds, Overlaps};

verus! {

/// A slot of the quadtree: nothing, one point, or a node that covers a square.
#[derive(Debug, PartialEq, Eq)]
pub enum Tree {
    Leaf(Point),
    Node(Box<SquareNode>),
    Empty,
}

/// An inner node: a square and the four slots of its quarters, indexed by
/// `Quarter::slot`.
#[derive(Debug, PartialEq, Eq)]
pub struct SquareNode {
    pub area: BinarySquare,
    pub children: [Tree; 4],
}

impl Tree {
    pub open spec fn is_live(self) -> bool {
        !(self is Empty)
    }

    /// Bound on the depth below a slot, used to define the recursive views.
    pub open spec fn measure(self) -> nat {
        match self {
            Tree::Node(n) => n.area.size as nat + 1,
            _ => 0,
        }
    }

    /// The children of a node lie deeper than the node.
    pub open spec fn shallow(self) -> bool {
        match self {
            Tree::Node(n) => forall|i: int|
                0 <= i < 4 ==> (#[trigger] n.children[i]).measure() < self.measure(),
            _ => true,
        }
    }

    /// The points stored in the slot.
    pub open spec fn points(self) -> Set<Point>
        decreases self.measure(),
        when self.shallow()
    {
        match self {
            Tree::Leaf(p) => set![p],
            Tree::Node(n) => n.children[0].points() + n.children[1].points()
                + n.children[2].points() + n.children[3].points(),
            Tree::Empty => Set::empty(),
        }
    }

    /// The points of the slot in the order of a depth-first walk that visits
    /// the children of a node from the last slot to the first.
    pub open spec fn listing(self) -> Seq<Point>
        decreases self.measure(),
        when self.shallow()
    {
        match self {
            Tree::Leaf(p) => seq![p],
            Tree::Node(n) => n.children[3].listing() + n.children[2].listing()
                + n.children[1].listing() + n.children[0].listing(),
            Tree::Empty => Seq::empty(),
        }
    }

    /// Every node in the slot has at least two live children: no node is
    /// left wrapping a single child or nothing.
    pub open spec fn compacted(self) -> bool
        decreases self.measure(),
        when self.shallow()
    {
        match self {
            Tree::Node(n) => n.live_count() >= 2 && n.children[0].compacted()
                && n.children[1].compacted() && n.children[2].compacted()
                && n.children[3].compacted(),
            _ => true,
        }
    }

    /// The slot has at most `k` levels of nodes.
    pub open spec fn within_depth(self, k: nat) -> bool
        decreases k,
    {
        match self {
            Tree::Node(n) => k > 0 && n.children[0].within_depth((k - 1) as nat)
                && n.children[1].within_depth((k - 1) as nat) && n.children[2].within_depth(
                (k - 1) as nat,
            ) && n.children[3].within_depth((k - 1) as nat),
            _ => true,
        }
    }

    /// The slot is well formed as the content of the square `q`: its points
    /// lie in `q`, and every node below is well formed, lies in `q`, and has
    /// at least two live children.
    pub open spec fn wf_in(self, q: BinarySquare) -> bool
        decreases q.size, 1int,
    {
        match self {
            Tree::Empty => true,
            Tree::Leaf(p) => q.contains(p),
            Tree::Node(n) => n.area.size <= q.size && n.area.inside(q) && n.live_count() >= 2
                && n.valid(),
        }
    }
}

impl SquareNode {
    pub open spec fn live_count(self) -> int {
        (if self.children[0].is_live() { 1int } else { 0 }) + (if self.children[1].is_live() {
            1int
        } else {
            0
        }) + (if self.children[2].is_live() { 1int } else { 0 }) + (
        if self.children[3].is_live() {
            1int
        } else {
            0
        })
    }

    /// The area is a well formed square that can be split, and each child is
    /// well formed in its quarter.
    pub open spec fn valid(self) -> bool
        decreases self.area.size, 0int,
    {
        &&& self.area.wf()
        &&& self.area.size >= 2
        &&& self.children[0].wf_in(self.area.sub_square(0))
        &&& self.children[1].wf_in(self.area.sub_square(1))
        &&& self.children[2].wf_in(self.area.sub_square(2))
        &&& self.children[3].wf_in(self.area.sub_square(3))
    }

    pub open spec fn children_points(self) -> Set<Point> {
        self.children[0].points() + self.children[1].points() + self.children[2].points()
            + self.children[3].points()
    }

    pub open spec fn children_listing(self) -> Seq<Point> {
        self.children[3].listing() + self.children[2].listing() + self.children[1].listing()
            + self.children[0].listing()
    }

    /// A node covering `area` with four empty children.
    pub fn new(area: BinarySquare) -> (r: SquareNode)
        ensures
            r.area == area,
            forall|i: int| 0 <= i < 4 ==> r.children[i] is Empty,
    {
        SquareNode { area, children: [Tree::Empty, Tree::Empty, Tree::Empty, Tree::Empty] }
    }
}

/// Two sequences without repeats and with no common element make one.
pub proof fn lemma_concat(a: Seq<Point>, b: Seq<Point>)
    requires
        a.no_duplicates(),
        b.no_duplicates(),
        a.to_set().disjoint(b.to_set()),
    ensures
        (a + b).no_duplicates(),
        (a + b).to_set() == a.to_set() + b.to_set(),
{
    let c = a + b;
    assert forall|i: int, j: int| 0 <= i < c.len() && 0 <= j < c.len() && i != j implies c[i]
        != c[j] by {
        if i < a.len() && j >= a.len() {
            assert(a.to_set().contains(c[i]));
            assert(b.to_set().contains(b[j - a.len()]));
        } else if i >= a.len() && j < a.len() {
            assert(a.to_set().contains(c[j]));
            assert(b.to_set().contains(b[i - a.len()]));
        }
    }
    assert forall|p: Point| c.to_set().contains(p) <==> a.to_set().contains(p) || b.to_set().contains(
        p,
    ) by {
        if c.to_set().contains(p) {
            let k = choose|k: int| 0 <= k < c.len() && c[k] == p;
            if k >= a.len() {
                assert(b[k - a.len()] == p);
            }
        }
        if b.to_set().contains(p) {
            let k = choose|k: int| 0 <= k < b.len() && b[k] == p;
            assert(c[k + a.len()] == p);
        }
        if a.to_set().contains(p) {
            let k = choose|k: int| 0 <= k < a.len() && a[k] == p;
            assert(c[k] == p);
        }
    }
    assert(c.to_set() =~= a.to_set() + b.to_set());
}

/// What a well formed slot tells about its points.
pub proof fn lemma_wf_in(t: Tree, q: BinarySquare)
    requires
        q.wf(),
        t.wf_in(q),
    ensures
        t.shallow(),
        forall|p: Point| #[trigger] t.points().contains(p) ==> q.contains(p),
        t.listing().to_set() == t.points(),
        t.listing().no_duplicates(),
    decreases q.size,
{
    match t {
        Tree::Empty => {
            assert(t.listing().to_set() =~= t.points());
        },
        Tree::Leaf(p) => {
            assert(t.listing().to_set() =~= t.points()) by {
                assert(t.listing()[0] == p);
            }
        },
        Tree::Node(n) => {
            lemma_node(*n);
            lemma_holds_square(q, n.area);
        },
    }
}

/// What a valid node tells about one of its children.
proof fn lemma_child(n: SquareNode, i: int)
    requires
        n.valid(),
        0 <= i < 4,
    ensures
        n.children[i].shallow(),
        n.children[i].measure() < n.area.size + 1,
        forall|p: Point| #[trigger]
            n.children[i].points().contains(p) ==> n.area.sub_square(i).contains(p)
                && n.area.contains(p) && n.area.spec_quarter(p) == i,
        n.children[i].listing().to_set() == n.children[i].points(),
        n.children[i].listing().no_duplicates(),
    decreases n.area.size, 0int,
{
    lemma_sub_square(n.area, i);
    lemma_wf_in(n.children[i], n.area.sub_square(i));
}

/// What a valid node tells about the points of its children.
pub proof fn lemma_node(n: SquareNode)
    requires
        n.valid(),
    ensures
        Tree::Node(Box::new(n)).shallow(),
        Tree::Node(Box::new(n)).points() == n.children_points(),
        Tree::Node(Box::new(n)).listing() == n.children_listing(),
        Tree::Node(Box::new(n)).compacted() == (n.live_count() >= 2 && n.children[0].compacted()
            && n.children[1].compacted() && n.children[2].compacted()
            && n.children[3].compacted()),
        forall|p: Point| #[trigger] n.children_points().contains(p) ==> n.area.contains(p),
        forall|i: int, p: Point|
            0 <= i < 4 && #[trigger] n.children[i].points().contains(p) ==> n.area.sub_square(
                i,
            ).contains(p) && n.area.spec_quarter(p) == i,
        n.children_listing().to_set() == n.children_points(),
        n.children_listing().no_duplicates(),
        forall|i: int| 0 <= i < 4 ==> (#[trigger] n.children[i]).shallow(),
    decreases n.area.size, 1int,
{
    lemma_child(n, 0);
    lemma_child(n, 1);
    lemma_child(n, 2);
    lemma_child(n, 3);
    let l3 = n.children[3].listing();
    let l2 = n.children[2].listing();
    let l1 = n.children[1].listing();
    let l0 = n.children[0].listing();
    lemma_concat(l3, l2);
    lemma_concat(l3 + l2, l1);
    lemma_concat(l3 + l2 + l1, l0);
    assert(n.children_listing().to_set() =~= n.children_points());
}

/// A well formed slot is compacted.
pub proof fn lemma_compacted(t: Tree, q: BinarySquare)
    requires
        q.wf(),
        t.wf_in(q),
    ensures
        t.compacted(),
    decreases q.size,
{
    lemma_wf_in(t, q);
    if let Tree::Node(n) = t {
        lemma_node(*n);
        lemma_sub_square(n.area, 0);
        lemma_sub_square(n.area, 1);
        lemma_sub_square(n.area, 2);
        lemma_sub_square(n.area, 3);
        lemma_compacted(n.children[0], n.area.sub_square(0));
        lemma_compacted(n.children[1], n.area.sub_square(1));
        lemma_compacted(n.children[2], n.area.sub_square(2));
        lemma_compacted(n.children[3], n.area.sub_square(3));
    }
}

/// Takes the child in slot `i` out, leaving that slot empty.
pub(crate) fn take(children: &mut [Tree; 4], i: usize) -> (r: Tree)
    requires
        i < 4,
    ensures
        r == old(children)@[i as int],
        final(children)@ == old(children)@.update(i as int, Tree::Empty),
{
    let mut t = Tree::Empty;
    std::mem::swap(&mut t, &mut children[i]);
    t
}

/// Whether the slot, well formed in `q`, stores `point`.
pub(crate) fn slot_has(t: &Tree, point: &Point, Ghost(q): Ghost<BinarySquare>) -> (r: bool)
    requires
        q.wf(),
        t.wf_in(q),
        q.contains(*point),
    ensures
        r == t.points().contains(*point),
    decreases q.size,
{
    match t {
        Tree::Empty => false,
        Tree::Leaf(p) => *p == *point,
        Tree::Node(child) => {
            proof {
                lemma_node(**child);
            }
            if child.area.holds(point) {
                let i = child.area.quarter(point).slot();
                proof {
                    lemma_sub_square(child.area, i as int);
                }
                slot_has(&child.children[i], point, Ghost(child.area.sub_square(i as int)))
            } else {
                false
            }
        },
    }
}

/// A node of `area` holding `a` and `b` in two distinct quarters.
fn pair(area: BinarySquare, a: Tree, at_a: &Point, b: Tree, at_b: &Point) -> (r: SquareNode)
    requires
        area.wf(),
        area.size >= 2,
        area.spec_quarter(*at_a) != area.spec_quarter(*at_b),
        a.wf_in(area.sub_square(area.spec_quarter(*at_a))),
        b.wf_in(area.sub_square(area.spec_quarter(*at_b))),
        a.is_live(),
        b.is_live(),
    ensures
        r.area == area,
        r.valid(),
        r.live_count() == 2,
        r.children_points() == a.points() + b.points(),
{
    let mut node = SquareNode::new(area);
    let qa = area.quarter(at_a).slot();
    let qb = area.quarter(at_b).slot();
    node.children[qa] = a;
    node.children[qb] = b;
    proof {
        lemma_sub_square(area, qa as int);
        lemma_sub_square(area, qb as int);
        lemma_wf_in(a, area.sub_square(qa as int));
        lemma_wf_in(b, area.sub_square(qb as int));
        assert(node.children_points() =~= a.points() + b.points());
    }
    node
}

/// Adds `point` to a slot that is well formed in `q`.
pub(crate) fn insert_in(slot: Tree, point: Point, Ghost(q): Ghost<BinarySquare>) -> (r: Tree)
    requires
        q.wf(),
        slot.wf_in(q),
        q.contains(point),
    ensures
        r.wf_in(q),
        r.is_live(),
        r.points() == slot.points().insert(point),
    decreases q.size,
{
    proof {
        lemma_wf_in(slot, q);
        lemma_square_fits(q);
    }
    match slot {
        Tree::Empty => {
            let r = Tree::Leaf(point);
            proof {
                assert(r.points() =~= slot.points().insert(point));
            }
            r
        },
        Tree::Leaf(p) => {
            if p == point {
                proof {
                    assert(slot.points() =~= slot.points().insert(point));
                }
                return Tree::Leaf(p);
            }
            let a = BinarySquare::wrapping(p);
            let b = BinarySquare::wrapping(point);
            let c = BinarySquare::common(&a, &b).unwrap();
            proof {
                lemma_split(q, c, p, point);
            }
            let node = pair(c, Tree::Leaf(p), &p, Tree::Leaf(point), &point);
            let r = Tree::Node(Box::new(node));
            proof {
                lemma_node(node);
                lemma_nested(q, c, point);
                assert(r.points() =~= slot.points().insert(point));
            }
            r
        },
        Tree::Node(node) => {
            proof {
                lemma_node(*node);
            }
            if node.area.holds(&point) {
                let mut n = *node;
                let ghost n0 = n;
                let i = n.area.quarter(&point).slot();
                proof {
                    lemma_sub_square(n.area, i as int);
                }
                let child = take(&mut n.children, i);
                let child = insert_in(child, point, Ghost(n.area.sub_square(i as int)));
                n.children[i] = child;
                proof {
                    assert(n.children[i as int] == child);
                    assert forall|j: int| 0 <= j < 4 && j != i implies n.children[j]
                        == n0.children[j] by {}
                    lemma_node(n);
                    assert(n.children_points() =~= n0.children_points().insert(point));
                }
                Tree::Node(Box::new(n))
            } else {
                let area = node.area;
                let b = BinarySquare::wrapping(point);
                proof {
                    lemma_holds_square(q, area);
                    if area.size == q.size {
                        lemma_same_square(q, area, area.anchor);
                    }
                    lemma_pow2_gap(area.size as int, q.size as int);
                }
                let c = BinarySquare::common(&area, &b).unwrap();
                proof {
                    lemma_grow(q, c, area, point);
                }
                let upper = pair(c, Tree::Node(node), &area.anchor, Tree::Leaf(point), &point);
                let r = Tree::Node(Box::new(upper));
                proof {
                    lemma_node(upper);
                    lemma_nested(q, c, point);
                    assert(r.points() =~= slot.points().insert(point));
                }
                r
            }
        },
    }
}

/// The square found for two distinct points of `q` splits them into distinct
/// quarters and fits in `q`.
proof fn lemma_split(q: BinarySquare, c: BinarySquare, p: Point, point: Point)
    requires
        q.wf(),
        q.contains(p),
        q.contains(point),
        p != point,
        c.wf(),
        c.contains(p),
        c.contains(point),
        c.size >= 2,
        forall|d: BinarySquare|
            d.wf() && d.size >= 2 && d.contains(p) && d.contains(point) ==> c.size <= d.size,
    ensures
        c.size <= q.size,
        c.spec_quarter(p) != c.spec_quarter(point),
        c.sub_square(c.spec_quarter(p)).contains(p),
        c.sub_square(c.spec_quarter(point)).contains(point),
{
    lemma_sub_square(c, c.spec_quarter(p));
    lemma_sub_square(c, c.spec_quarter(point));
    if c.spec_quarter(p) == c.spec_quarter(point) {
        let sub = c.sub_square(c.spec_quarter(p));
        lemma_pow2_halves(c.size as int);
        if sub.size >= 2 {
            assert(c.size <= sub.size);
        }
    }
}

/// The square found for a node's area and a point of `q` outside it puts them
/// into distinct quarters and fits in `q`.
proof fn lemma_grow(q: BinarySquare, c: BinarySquare, area: BinarySquare, point: Point)
    requires
        q.wf(),
        area.wf(),
        area.inside(q),
        2 * area.size <= q.size,
        q.contains(point),
        !area.contains(point),
        c.wf(),
        area.inside(c),
        c.contains(point),
        c.size >= 2 * area.size,
        forall|d: BinarySquare|
            d.wf() && d.size >= 2 * area.size && d.size >= 2 && d.contains(area.anchor)
                && d.contains(point) ==> c.size <= d.size,
    ensures
        c.size <= q.size,
        c.spec_quarter(area.anchor) != c.spec_quarter(point),
        area.size <= c.sub_square(c.spec_quarter(area.anchor)).size,
        area.inside(c.sub_square(c.spec_quarter(area.anchor))),
        c.sub_square(c.spec_quarter(point)).contains(point),
{
    let i = c.spec_quarter(area.anchor);
    lemma_sub_square(c, i);
    lemma_sub_square(c, c.spec_quarter(point));
    let sub = c.sub_square(i);
    lemma_pow2_halves(c.size as int);
    assert(area.contains(area.anchor));
    lemma_nested(sub, area, area.anchor);
    if i == c.spec_quarter(point) {
        if sub.size >= 2 * area.size {
            assert(c.size <= sub.size);
        } else {
            if area.size < sub.size {
                lemma_pow2_gap(area.size as int, sub.size as int);
            }
            lemma_same_square(sub, area, area.anchor);
        }
    }
}

/// A slot well formed in a square stays well formed in any larger square
/// around it.
proof fn lemma_wf_in_larger(t: Tree, q: BinarySquare, outer: BinarySquare)
    requires
        t.wf_in(q),
        q.inside(outer),
        q.size <= outer.size,
    ensures
        t.wf_in(outer),
{
}

/// Replaces a node by what remains of it: nothing when all its children are
/// empty, its only live child when there is one, the node itself otherwise.
fn compact(n: SquareNode, Ghost(q): Ghost<BinarySquare>) -> (r: Tree)
    requires
        n.valid(),
        q.wf(),
        n.area.inside(q),
        n.area.size <= q.size,
    ensures
        r.wf_in(q),
        r.points() == n.children_points(),
        r.listing() == n.children_listing(),
{
    proof {
        lemma_node(n);
    }
    let live0 = !matches!(n.children[0], Tree::Empty);
    let live1 = !matches!(n.children[1], Tree::Empty);
    let live2 = !matches!(n.children[2], Tree::Empty);
    let live3 = !matches!(n.children[3], Tree::Empty);
    let count: usize = (if live0 { 1 } else { 0 }) + (if live1 { 1 } else { 0 }) + (if live2 {
        1
    } else {
        0
    }) + (if live3 { 1 } else { 0 });
    if count == 0 {
        proof {
            assert(n.children_points() =~= Set::<Point>::empty());
            assert(n.children_listing() =~= Seq::<Point>::empty());
        }
        Tree::Empty
    } else if count == 1 {
        let i: usize = if live0 {
            0
        } else if live1 {
            1
        } else if live2 {
            2
        } else {
            3
        };
        let mut n = n;
        let ghost n0 = n;
        let r = take(&mut n.children, i);
        proof {
            lemma_sub_square(n0.area, i as int);
            lemma_wf_in_larger(r, n0.area.sub_square(i as int), q);
            lemma_wf_in(r, q);
            assert(n0.children_points() =~= r.points());
            assert(n0.children_listing() =~= r.listing());
        }
        r
    } else {
        Tree::Node(Box::new(n))
    }
}

/// Takes `point` out of a slot that is well formed in `q`.
pub(crate) fn remove_in(slot: Tree, point: &Point, Ghost(q): Ghost<BinarySquare>) -> (r: Tree)
    requires
        q.wf(),
        slot.wf_in(q),
    ensures
        r.wf_in(q),
        r.points() == slot.points().remove(*point),
    decreases q.size,
{
    proof {
        lemma_wf_in(slot, q);
    }
    match slot {
        Tree::Empty => {
            proof {
                assert(slot.points() =~= slot.points().remove(*point));
            }
            Tree::Empty
        },
        Tree::Leaf(p) => {
            if p == *point {
                proof {
                    assert(Set::<Point>::empty() =~= slot.points().remove(*point));
                }
                Tree::Empty
            } else {
                proof {
                    assert(slot.points() =~= slot.points().remove(*point));
                }
                Tree::Leaf(p)
            }
        },
        Tree::Node(node) => {
            proof {
                lemma_node(*node);
            }
            if node.area.holds(point) {
                let mut n = *node;
                let ghost n0 = n;
                let i = n.area.quarter(point).slot();
                proof {
                    lemma_sub_square(n.area, i as int);
                }
                let child = take(&mut n.children, i);
                let child = remove_in(child, point, Ghost(n.area.sub_square(i as int)));
                n.children[i] = child;
                proof {
                    assert(n.children[i as int] == child);
                    assert forall|j: int| 0 <= j < 4 && j != i implies n.children[j]
                        == n0.children[j] by {}
                    lemma_node(n);
                    assert(n.children_points() =~= n0.children_points().remove(*point));
                }
                compact(n, Ghost(q))
            } else {
                proof {
                    assert(slot.points() =~= slot.points().remove(*point));
                }
                Tree::Node(node)
            }
        },
    }
}

/// Appends the points of a slot well formed in `q`, in walk order.
pub(crate) fn collect(t: &Tree, out: &mut Vec<Point>, Ghost(q): Ghost<BinarySquare>)
    requires
        q.wf(),
        t.wf_in(q),
    ensures
        final(out)@ == old(out)@ + t.listing(),
    decreases q.size,
{
    proof {
        lemma_wf_in(*t, q);
    }
    match t {
        Tree::Empty => {
            assert(out@ =~= out@ + t.listing());
        },
        Tree::Leaf(p) => {
            out.push(*p);
            assert(out@ =~= old(out)@ + t.listing());
        },
        Tree::Node(n) => {
            proof {
                lemma_node(**n);
                lemma_sub_square(n.area, 0);
                lemma_sub_square(n.area, 1);
                lemma_sub_square(n.area, 2);
                lemma_sub_square(n.area, 3);
            }
            collect(&n.children[3], out, Ghost(n.area.sub_square(3)));
            collect(&n.children[2], out, Ghost(n.area.sub_square(2)));
            collect(&n.children[1], out, Ghost(n.area.sub_square(1)));
            collect(&n.children[0], out, Ghost(n.area.sub_square(0)));
            assert(out@ =~= old(out)@ + t.listing());
        },
    }
}

/// A sequence of one point keeps it exactly when the predicate holds of it.
proof fn lemma_filter_one(p: Point, f: spec_fn(Point) -> bool)
    ensures
        seq![p].filter(f) == if f(p) {
            seq![p]
        } else {
            Seq::<Point>::empty()
        },
{
    reveal_with_fuel(Seq::filter, 2);
    assert(seq![p].drop_last() =~= Seq::<Point>::empty());
    if f(p) {
        assert(Seq::<Point>::empty().push(p) =~= seq![p]);
    }
}

/// A filter that rejects every element keeps nothing.
proof fn lemma_filter_none(s: Seq<Point>, f: spec_fn(Point) -> bool)
    requires
        forall|p: Point| s.contains(p) ==> !f(p),
    ensures
        s.filter(f) == Seq::<Point>::empty(),
{
    if s.filter(f).len() > 0 {
        s.lemma_filter_pred(f, 0);
        s.lemma_filter_contains_rev(f, s.filter(f)[0]);
    }
    assert(s.filter(f) =~= Seq::<Point>::empty());
}

/// Appends the points of a slot well formed in `q` that `bbox` holds, in walk
/// order, skipping the nodes whose square does not overlap `bbox`.
pub(crate) fn query_in<B: Overlaps<BinarySquare>>(
    t: &Tree,
    bbox: &B,
    out: &mut Vec<Point>,
    Ghost(q): Ghost<BinarySquare>,
)
    requires
        q.wf(),
        t.wf_in(q),
    ensures
        final(out)@ == old(out)@ + t.listing().filter(|p: Point| bbox.spec_holds(p)),
    decreases q.size,
{
    let ghost f = |p: Point| bbox.spec_holds(p);
    proof {
        lemma_wf_in(*t, q);
    }
    match t {
        Tree::Empty => {
            proof {
                reveal(Seq::filter);
            }
            assert(out@ =~= out@ + t.listing().filter(f));
        },
        Tree::Leaf(p) => {
            proof {
                lemma_filter_one(*p, f);
            }
            if bbox.holds(p) {
                out.push(*p);
            }
            assert(out@ =~= old(out)@ + t.listing().filter(f));
        },
        Tree::Node(n) => {
            proof {
                lemma_node(**n);
                lemma_sub_square(n.area, 0);
                lemma_sub_square(n.area, 1);
                lemma_sub_square(n.area, 2);
                lemma_sub_square(n.area, 3);
            }
            if bbox.overlaps(&n.area) {
                query_in(&n.children[3], bbox, out, Ghost(n.area.sub_square(3)));
                query_in(&n.children[2], bbox, out, Ghost(n.area.sub_square(2)));
                query_in(&n.children[1], bbox, out, Ghost(n.area.sub_square(1)));
                query_in(&n.children[0], bbox, out, Ghost(n.area.sub_square(0)));
                proof {
                    let l3 = n.children[3].listing();
                    let l2 = n.children[2].listing();
                    let l1 = n.children[1].listing();
                    let l0 = n.children[0].listing();
                    Seq::filter_distributes_over_add(l3, l2, f);
                    Seq::filter_distributes_over_add(l3 + l2, l1, f);
                    Seq::filter_distributes_over_add(l3 + l2 + l1, l0, f);
                }
                assert(out@ =~= old(out)@ + t.listing().filter(f));
            } else {
                proof {
                    assert forall|p: Point| t.listing().contains(p) implies !f(p) by {
                        assert(t.listing().to_set().contains(p));
                        assert(n.area.spec_holds(p));
                    }
                    lemma_filter_none(t.listing(), f);
                }
                assert(out@ =~= old(out)@ + t.listing().filter(f));
            }
        },
    }
}

/// The points of the slot that `r` finds, if any.
pub open spec fn found_points(r: Option<&Tree>) -> Set<Point> {
    match r {
        Some(t) => t.points(),
        None => Set::empty(),
    }
}

/// The largest subtree of a slot well formed in `q` that lies in `area`, when
/// `area` is nested in `q` or apart from it: its points are exactly the
/// points of the slot in `area`.
pub(crate) fn search_in<'a>(t: &'a Tree, area: &BinarySquare, Ghost(q): Ghost<BinarySquare>) -> (r:
    Option<&'a Tree>)
    requires
        q.wf(),
        area.wf(),
        t.wf_in(q),
        (area.inside(q) && area.size <= q.size) || disjoint(*area, q),
    ensures
        found_points(r) == t.points().filter(|p: Point| area.contains(p)),
        r matches Some(s) ==> s.is_live() && s.shallow() && s.wf_in(*area),
    decreases q.size,
{
    let ghost inside = |p: Point| area.contains(p);
    proof {
        lemma_wf_in(*t, q);
    }
    match t {
        Tree::Empty => {
            assert(found_points(None) =~= t.points().filter(inside));
            None
        },
        Tree::Leaf(pt) => {
            if area.holds(pt) {
                assert(found_points(Some(t)) =~= t.points().filter(inside));
                Some(t)
            } else {
                assert(found_points(None) =~= t.points().filter(inside));
                None
            }
        },
        Tree::Node(c) => {
            proof {
                lemma_node(**c);
                lemma_holds_square(*area, c.area);
            }
            if area.holds(&c.area) {
                assert(found_points(Some(t)) =~= t.points().filter(inside));
                Some(t)
            } else {
                let i = c.area.quarter(&area.anchor).slot();
                let ghost sub = c.area.sub_square(i as int);
                proof {
                    lemma_sub_square(c.area, i as int);
                    if !disjoint(*area, c.area) {
                        let p = choose|p: Point| area.contains(p) && c.area.contains(p);
                        if c.area.size <= area.size {
                            lemma_nested(*area, c.area, p);
                        }
                        lemma_nested(c.area, *area, p);
                        lemma_pow2_gap(area.size as int, c.area.size as int);
                        assert(area.contains(area.anchor));
                        lemma_nested(sub, *area, area.anchor);
                    } else {
                        assert forall|p: Point| !(#[trigger] area.contains(p) && sub.contains(p)) by {
                            if sub.contains(p) {
                                assert(c.area.contains(p));
                            }
                        }
                    }
                    assert forall|p: Point| #[trigger] t.points().contains(p) && area.contains(p)
                        implies c.children[i as int].points().contains(p) by {
                        let j = c.area.spec_quarter(p);
                        assert(c.children[j].points().contains(p));
                        if j != i {
                            lemma_sub_square(c.area, j);
                            assert(sub.contains(p) ==> c.area.spec_quarter(p) == i);
                        }
                    }
                    assert(t.points().filter(inside) =~= c.children[i as int].points().filter(
                        inside,
                    ));
                }
                search_in(&c.children[i], area, Ghost(sub))
            }
        },
    }
}

impl SquareNode {
    /// Whether one of the children stores `point`.
    pub fn has(&self, point: &Point) -> (r: bool)
        requires
            self.valid(),
        ensures
            r == self.children_points().contains(*point),
    {
        proof {
            lemma_node(*self);
        }
        if !self.area.holds(point) {
            return false;
        }
        let i = self.area.quarter(point).slot();
        proof {
            lemma_sub_square(self.area, i as int);
        }
        slot_has(&self.children[i], point, Ghost(self.area.sub_square(i as int)))
    }

    /// The largest subtree of the node that lies in `area`, which is a square
    /// nested in a quarter of the node or apart from it: its points are
    /// exactly the stored points in `area`.
    pub fn search(&self, area: &BinarySquare) -> (r: Option<&Tree>)
        requires
            self.valid(),
            area.wf(),
            (area.inside(self.area) && area.size < self.area.size) || disjoint(*area, self.area),
        ensures
            found_points(r) == self.children_points().filter(|p: Point| area.contains(p)),
            r matches Some(s) ==> s.is_live() && s.wf_in(*area),
    {
        let ghost inside = |p: Point| area.contains(p);
        proof {
            lemma_node(*self);
        }
        let i = self.area.quarter(&area.anchor).slot();
        let ghost sub = self.area.sub_square(i as int);
        proof {
            lemma_sub_square(self.area, i as int);
            if area.inside(self.area) && area.size < self.area.size {
                lemma_pow2_gap(area.size as int, self.area.size as int);
                assert(area.contains(area.anchor));
                lemma_nested(sub, *area, area.anchor);
            } else {
                assert forall|p: Point| !(#[trigger] area.contains(p) && sub.contains(p)) by {
                    if sub.contains(p) {
                        assert(self.area.contains(p));
                    }
                }
            }
            assert forall|p: Point| #[trigger]
                self.children_points().contains(p) && area.contains(p) implies self.children[i as int].points().contains(
                p,
            ) by {
                let j = self.area.spec_quarter(p);
                assert(self.children[j].points().contains(p));
                if j != i {
                    lemma_sub_square(self.area, j);
                    assert(sub.contains(p) ==> self.area.spec_quarter(p) == i);
                }
            }
            assert(self.children_points().filter(inside) =~= self.children[i as int].points().filter(
                inside,
            ));
        }
        search_in(&self.children[i], area, Ghost(sub))
    }

    /// Stores `point`, which the area holds, in the child of its quarter.
    pub fn insert(&mut self, point: Point)
        requires
            old(self).valid(),
            old(self).area.contains(point),
        ensures
            final(self).valid(),
            final(self).area == old(self).area,
            final(self).live_count() >= old(self).live_count(),
            final(self).children_points() == old(self).children_points().insert(point),
            old(self).children_points().contains(point) ==> *final(self) == *old(self),
    {
        let ghost before = *self;
        proof {
            lemma_node(before);
        }
        let i = self.area.quarter(&point).slot();
        proof {
            lemma_sub_square(self.area, i as int);
        }
        let child = take(&mut self.children, i);
        let child = insert_in(child, point, Ghost(self.area.sub_square(i as int)));
        self.children[i] = child;
        proof {
            assert(self.children[i as int] == child);
            assert forall|j: int| 0 <= j < 4 && j != i implies self.children[j]
                == before.children[j] by {}
            lemma_node(*self);
            assert(self.children_points() =~= before.children_points().insert(point));
            if before.children_points().contains(point) {
                assert forall|j: int| 0 <= j < 4 implies (#[trigger] self.children[j]).points()
                    == before.children[j].points() by {
                    if j == i {
                        crate::canonical::lemma_child_points(before, j, point);
                        assert(self.children[j].points() =~= before.children[j].points());
                    }
                }
                crate::canonical::lemma_same_children(*self, before);
            }
        }
    }

    /// Drops `point` from the child of its quarter, compacting that child.
    pub fn remove(&mut self, point: &Point)
        requires
            old(self).valid(),
        ensures
            final(self).valid(),
            final(self).area == old(self).area,
            final(self).children_points() == old(self).children_points().remove(*point),
            !old(self).children_points().contains(*point) ==> *final(self) == *old(self),
    {
        let ghost before = *self;
        proof {
            lemma_node(before);
        }
        let i = self.area.quarter(point).slot();
        proof {
            lemma_sub_square(self.area, i as int);
        }
        let child = take(&mut self.children, i);
        let child = remove_in(child, point, Ghost(self.area.sub_square(i as int)));
        self.children[i] = child;
        proof {
            assert(self.children[i as int] == child);
            assert forall|j: int| 0 <= j < 4 && j != i implies self.children[j]
                == before.children[j] by {}
            lemma_node(*self);
            assert(self.children_points() =~= before.children_points().remove(*point));
            if !before.children_points().contains(*point) {
                assert forall|j: int| 0 <= j < 4 implies (#[trigger] self.children[j]).points()
                    == before.children[j].points() by {
                    if j == i {
                        assert(!before.children[j].points().contains(*point));
                        assert(self.children[j].points() =~= before.children[j].points());
                    }
                }
                crate::canonical::lemma_same_children(*self, before);
            }
        }
    }
}

/// A slot with at most `k` levels of nodes has at most `m >= k` of them.
pub proof fn lemma_within_more(t: Tree, k: nat, m: nat)
    requires
        t.within_depth(k),
        k <= m,
    ensures
        t.within_depth(m),
    decreases k,
{
    if let Tree::Node(n) = t {
        lemma_within_more(n.children[0], (k - 1) as nat, (m - 1) as nat);
        lemma_within_more(n.children[1], (k - 1) as nat, (m - 1) as nat);
        lemma_within_more(n.children[2], (k - 1) as nat, (m - 1) as nat);
        lemma_within_more(n.children[3], (k - 1) as nat, (m - 1) as nat);
    }
}

/// A slot well formed in a square of fewer than `2^k` cells a side has at
/// most `k` levels of nodes.
pub proof fn lemma_wf_depth(t: Tree, q: BinarySquare, k: nat)
    requires
        q.wf(),
        t.wf_in(q),
        q.size < crate::depth::exp2(k),
    ensures
        t.within_depth(k),
    decreases k,
{
    if let Tree::Node(n) = t {
        lemma_node(*n);
        lemma_pow2_halves(n.area.size as int);
        assert(k > 0);
        assert forall|i: int| 0 <= i < 4 implies (#[trigger] n.children[i]).within_depth(
            (k - 1) as nat,
        ) by {
            lemma_sub_square(n.area, i);
            lemma_wf_depth(n.children[i], n.area.sub_square(i), (k - 1) as nat);
        }
    }
}

/// Every slot well formed in some square has at most 32 levels of nodes.
pub proof fn lemma_wf_depth_32(t: Tree, q: BinarySquare)
    requires
        q.wf(),
        t.wf_in(q),
    ensures
        t.within_depth(u32::MAX as nat),
{
    reveal_with_fuel(crate::depth::exp2, 33);
    assert(crate::depth::exp2(32) == 0x1_0000_0000);
    lemma_wf_depth(t, q, 32);
    lemma_within_more(t, 32, u32::MAX as nat);
}

/// A copy of the slot, level by level, down to `fuel` levels of nodes.
fn copy_slot(t: &Tree, fuel: u32) -> (r: Tree)
    ensures
        t.within_depth(fuel as nat) ==> r == *t,
    decreases fuel,
{
    match t {
        Tree::Empty => Tree::Empty,
        Tree::Leaf(p) => Tree::Leaf(*p),
        Tree::Node(n) => {
            if fuel == 0 {
                Tree::Empty
            } else {
                let children = [
                    copy_slot(&n.children[0], fuel - 1),
                    copy_slot(&n.children[1], fuel - 1),
                    copy_slot(&n.children[2], fuel - 1),
                    copy_slot(&n.children[3], fuel - 1),
                ];
                let copy = SquareNode { area: n.area, children };
                proof {
                    if t.within_depth(fuel as nat) {
                        assert(copy.children =~= n.children);
                    }
                }
                Tree::Node(Box::new(copy))
            }
        },
    }
}

impl Clone for Tree {
    /// A deep copy; exact for every slot of fewer than 2^32 levels, which
    /// includes every well formed slot.
    fn clone(&self) -> (r: Tree)
        ensures
            self.within_depth(u32::MAX as nat) ==> r == *self,
            (exists|q: BinarySquare| q.wf() && self.wf_in(q)) ==> r == *self,
    {
        proof {
            if exists|q: BinarySquare| q.wf() && self.wf_in(q) {
                let q = choose|q: BinarySquare| q.wf() && self.wf_in(q);
                lemma_wf_depth_32(*self, q);
            }
        }
        copy_slot(self, u32::MAX)
    }
}

impl Clone for SquareNode {
    /// A deep copy; exact for every valid node.
    fn clone(&self) -> (r: SquareNode)
        ensures
            self.valid() ==> r == *self,
    {
        let children = [
            self.children[0].clone(),
            self.children[1].clone(),
            self.children[2].clone(),
            self.children[3].clone(),
        ];
        proof {
            if self.valid() {
                assert forall|i: int| 0 <= i < 4 implies exists|q: BinarySquare|
                    q.wf() && (#[trigger] self.children[i]).wf_in(q) by {
                    lemma_sub_square(self.area, i);
                    assert(self.area.sub_square(i).wf() && self.children[i].wf_in(self.area.sub_square(i)));
                }
                assert(children =~= self.children);
            }
        }
        SquareNode { area: self.area, children }
    }
}

} // verus!
