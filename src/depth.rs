//! The depth of the tree follows the spread of the points, not their
//! number or their distance from the origin.
use vstd::prelude::*;
use crate::binary_square::{in_square, lemma_sub_square, BinarySquare};
use crate::point::Point;
use crate::pow2::lemma_pow2_halves;
use crate::tree::{lemma_node, lemma_wf_in, SquareNode, Tree};

verus! {

pub open spec fn max4(a: nat, b: nat, c: nat, d: nat) -> nat {
    let ab = if a >= b { a } else { b };
    let cd = if c >= d { c } else { d };
    if ab >= cd { ab } else { cd }
}

/// Number of nested nodes on the longest path down from the slot.
pub open spec fn height(t: Tree) -> nat
    decreases t.measure(),
    when t.shallow()
{
    match t {
        Tree::Node(n) => 1 + max4(
            height(n.children[0]),
            height(n.children[1]),
            height(n.children[2]),
            height(n.children[3]),
        ),
        _ => 0,
    }
}

/// Two to the power `k`.
pub open spec fn exp2(k: nat) -> nat
    decreases k,
{
    if k == 0 {
        1
    } else {
        2 * exp2((k - 1) as nat)
    }
}

pub open spec fn coord(p: Point, on_x: bool) -> int {
    if on_x {
        p.x as int
    } else {
        p.y as int
    }
}

/// The line that splits `sq` in halves across the axis.
pub open spec fn center(sq: BinarySquare, on_x: bool) -> int {
    coord(sq.anchor, on_x) + sq.half()
}

/// The node holds points on both sides of its center line along the axis.
pub open spec fn straddles(n: SquareNode, on_x: bool) -> bool {
    exists|a: Point, b: Point|
        #![trigger n.children_points().contains(a), n.children_points().contains(b)]
        n.children_points().contains(a) && n.children_points().contains(b) && coord(a, on_x)
            < center(n.area, on_x) <= coord(b, on_x)
}

/// The height of a valid node, one level at a time.
proof fn lemma_height_unfold(n: SquareNode)
    requires
        n.valid(),
    ensures
        height(Tree::Node(Box::new(n))) == 1 + max4(
            height(n.children[0]),
            height(n.children[1]),
            height(n.children[2]),
            height(n.children[3]),
        ),
{
    lemma_node(n);
}

proof fn lemma_exp2_monotone(a: nat, b: nat)
    requires
        a <= b,
    ensures
        exp2(a) <= exp2(b),
    decreases b,
{
    if a < b {
        lemma_exp2_monotone(a, (b - 1) as nat);
    }
}

/// A live slot stores some point.
pub proof fn lemma_live_nonempty(t: Tree, q: BinarySquare)
    requires
        q.wf(),
        t.wf_in(q),
        t.is_live(),
    ensures
        exists|p: Point| t.points().contains(p),
    decreases q.size,
{
    lemma_wf_in(t, q);
    match t {
        Tree::Leaf(p) => {
            assert(t.points().contains(p));
        },
        Tree::Node(n) => {
            lemma_node(*n);
            let i: int = if n.children[0].is_live() {
                0
            } else if n.children[1].is_live() {
                1
            } else if n.children[2].is_live() {
                2
            } else {
                3
            };
            lemma_sub_square(n.area, i);
            lemma_live_nonempty(n.children[i], n.area.sub_square(i));
            let p = choose|p: Point| n.children[i].points().contains(p);
            assert(n.children_points().contains(p));
        },
        Tree::Empty => {},
    }
}

/// A node of a well formed tree has points on both sides of one of its
/// center lines.
proof fn lemma_straddle(n: SquareNode)
    requires
        n.valid(),
        n.live_count() >= 2,
    ensures
        straddles(n, true) || straddles(n, false),
{
    lemma_node(n);
    let l0 = n.children[0].is_live();
    let l1 = n.children[1].is_live();
    let l2 = n.children[2].is_live();
    let i: int = if l0 { 0 } else if l1 { 1 } else { 2 };
    let j: int = if l0 && l1 { 1 } else if (l0 || l1) && l2 { 2 } else { 3 };
    assert(i < j && n.children[i].is_live() && n.children[j].is_live());
    lemma_sub_square(n.area, i);
    lemma_sub_square(n.area, j);
    lemma_live_nonempty(n.children[i], n.area.sub_square(i));
    lemma_live_nonempty(n.children[j], n.area.sub_square(j));
    let a = choose|p: Point| n.children[i].points().contains(p);
    let b = choose|p: Point| n.children[j].points().contains(p);
    assert(n.children_points().contains(a));
    assert(n.children_points().contains(b));
    assert(n.area.spec_quarter(a) == i && n.area.spec_quarter(b) == j);
    if (a.x >= center(n.area, true)) != (b.x >= center(n.area, true)) {
        if a.x < center(n.area, true) {
            assert(coord(a, true) < center(n.area, true) <= coord(b, true));
        } else {
            assert(coord(b, true) < center(n.area, true) <= coord(a, true));
        }
        assert(straddles(n, true));
    } else {
        if a.y < center(n.area, false) {
            assert(coord(a, false) < center(n.area, false) <= coord(b, false));
        } else {
            assert(coord(b, false) < center(n.area, false) <= coord(a, false));
        }
        assert(straddles(n, false));
    }
}

/// A square inside a quarter of another has its center lines at least half
/// its side away from those of the other.
proof fn lemma_center_apart(outer: BinarySquare, i: int, inner: BinarySquare, on_x: bool)
    requires
        outer.wf(),
        outer.size >= 2,
        0 <= i < 4,
        inner.wf(),
        inner.size >= 2,
        inner.inside(outer.sub_square(i)),
    ensures
        center(inner, on_x) <= center(outer, on_x) - inner.half() || center(outer, on_x)
            + inner.half() <= center(inner, on_x),
{
    lemma_sub_square(outer, i);
    lemma_pow2_halves(inner.size as int);
}

/// Points of the box of side `side` at `(x0, y0)` that straddle two center
/// lines of one axis at distance `h` or more apart show that `h + 2 <= side`.
proof fn lemma_two_lines(
    m: SquareNode,
    n: SquareNode,
    on_x: bool,
    h: int,
    x0: int,
    y0: int,
    side: int,
)
    requires
        straddles(m, on_x),
        straddles(n, on_x),
        center(n.area, on_x) <= center(m.area, on_x) - h || center(m.area, on_x) + h <= center(
            n.area,
            on_x,
        ),
        forall|p: Point| #[trigger]
            m.children_points().contains(p) ==> in_square(p, x0, y0, side),
        forall|p: Point| #[trigger]
            n.children_points().contains(p) ==> in_square(p, x0, y0, side),
    ensures
        h + 2 <= side,
{
    let (a1, b1) = choose|a: Point, b: Point|
        #![trigger m.children_points().contains(a), m.children_points().contains(b)]
        m.children_points().contains(a) && m.children_points().contains(b) && coord(a, on_x)
            < center(m.area, on_x) <= coord(b, on_x);
    let (a2, b2) = choose|a: Point, b: Point|
        #![trigger n.children_points().contains(a), n.children_points().contains(b)]
        n.children_points().contains(a) && n.children_points().contains(b) && coord(a, on_x)
            < center(n.area, on_x) <= coord(b, on_x);
    assert(in_square(a1, x0, y0, side) && in_square(b1, x0, y0, side));
    assert(in_square(a2, x0, y0, side) && in_square(b2, x0, y0, side));
}

/// A node two levels below another node is less than twice as wide as any
/// box that holds the points.
proof fn lemma_grandchild_size(
    g: SquareNode,
    i: int,
    j: int,
    x0: int,
    y0: int,
    side: int,
)
    requires
        g.valid(),
        g.live_count() >= 2,
        0 <= i < 4,
        0 <= j < 4,
        g.children[i] is Node,
        g.children[i]->Node_0.children[j] is Node,
        forall|p: Point| #[trigger]
            g.children_points().contains(p) ==> in_square(p, x0, y0, side),
    ensures
        g.children[i]->Node_0.children[j]->Node_0.area.size + 4 <= 2 * side,
{
    let m = *g.children[i]->Node_0;
    let n = *m.children[j]->Node_0;
    lemma_node(g);
    lemma_sub_square(g.area, i);
    assert(g.children[i].wf_in(g.area.sub_square(i)));
    lemma_node(m);
    lemma_sub_square(m.area, j);
    assert(m.children[j].wf_in(m.area.sub_square(j)));
    lemma_node(n);
    assert forall|p: Point| #[trigger] m.children_points().contains(p) implies g.children_points().contains(
        p,
    ) by {
        assert(g.children[i].points().contains(p));
    }
    assert forall|p: Point| #[trigger] n.children_points().contains(p) implies g.children_points().contains(
        p,
    ) by {
        assert(m.children[j].points().contains(p));
        assert(m.children_points().contains(p));
    }
    lemma_straddle(g);
    lemma_straddle(m);
    lemma_straddle(n);
    lemma_pow2_halves(m.area.size as int);
    lemma_pow2_halves(n.area.size as int);
    // n lies in a quarter of g too.
    let k = g.area.spec_quarter(m.area.anchor);
    assert(n.area.inside(g.area.sub_square(i)));
    assert forall|on_x: bool| straddles(g, on_x) && straddles(n, on_x) implies n.area.size + 4
        <= 2 * side by {
        lemma_center_apart(g.area, i, n.area, on_x);
        lemma_two_lines(g, n, on_x, n.area.half(), x0, y0, side);
    }
    assert forall|on_x: bool| straddles(m, on_x) && straddles(n, on_x) implies n.area.size + 4
        <= 2 * side by {
        lemma_center_apart(m.area, j, n.area, on_x);
        lemma_two_lines(m, n, on_x, n.area.half(), x0, y0, side);
    }
    assert forall|on_x: bool| straddles(g, on_x) && straddles(m, on_x) implies n.area.size + 4
        <= 2 * side by {
        lemma_center_apart(g.area, i, m.area, on_x);
        lemma_two_lines(g, m, on_x, m.area.half(), x0, y0, side);
    }
}

/// A node of side `s` has at most log2(s) levels of nodes.
proof fn lemma_height_size(t: Tree, q: BinarySquare)
    requires
        q.wf(),
        t.wf_in(q),
        t is Node,
    ensures
        exp2(height(t)) <= t->Node_0.area.size,
    decreases q.size,
{
    let n = *t->Node_0;
    lemma_node(n);
    lemma_wf_in(t, q);
    lemma_pow2_halves(n.area.size as int);
    assert forall|k: int| 0 <= k < 4 implies exp2(height(#[trigger] n.children[k])) <= n.area.half() by {
        lemma_sub_square(n.area, k);
        if n.children[k] is Node {
            lemma_height_size(n.children[k], n.area.sub_square(k));
        }
    }
    let h0 = height(n.children[0]);
    let h1 = height(n.children[1]);
    let h2 = height(n.children[2]);
    let h3 = height(n.children[3]);
    assert(exp2(h0) <= n.area.half());
    assert(exp2(h1) <= n.area.half());
    assert(exp2(h2) <= n.area.half());
    assert(exp2(h3) <= n.area.half());
    let top = max4(h0, h1, h2, h3);
    assert(top == h0 || top == h1 || top == h2 || top == h3);
    lemma_height_unfold(n);
    assert(exp2(height(t)) == 2 * exp2(top));
}

/// A slot whose points all lie in a box of side `side` has at most about
/// log2(side) + 3 levels of nodes.
pub proof fn lemma_slot_height(t: Tree, q: BinarySquare, x0: int, y0: int, side: int)
    requires
        q.wf(),
        t.wf_in(q),
        side >= 1,
        forall|p: Point| #[trigger] t.points().contains(p) ==> in_square(p, x0, y0, side),
    ensures
        exp2(height(t)) <= 8 * side,
{
    lemma_wf_in(t, q);
    if let Tree::Node(gb) = t {
        let g = *gb;
        lemma_node(g);
        assert forall|i: int| 0 <= i < 4 implies exp2(height(#[trigger] g.children[i])) <= 4
            * side by {
            lemma_sub_square(g.area, i);
            let c = g.children[i];
            if let Tree::Node(mb) = c {
                let m = *mb;
                assert(c.wf_in(g.area.sub_square(i)));
                lemma_node(m);
                assert forall|j: int| 0 <= j < 4 implies exp2(height(#[trigger] m.children[j]))
                    <= 2 * side by {
                    lemma_sub_square(m.area, j);
                    if m.children[j] is Node {
                        lemma_grandchild_size(g, i, j, x0, y0, side);
                        lemma_height_size(m.children[j], m.area.sub_square(j));
                    }
                }
                let h = max4(
                    height(m.children[0]),
                    height(m.children[1]),
                    height(m.children[2]),
                    height(m.children[3]),
                );
                assert(h == height(m.children[0]) || h == height(m.children[1]) || h == height(
                    m.children[2],
                ) || h == height(m.children[3]));
                assert(exp2(h) <= 2 * side);
                lemma_height_unfold(m);
            }
        }
        let h = max4(
            height(g.children[0]),
            height(g.children[1]),
            height(g.children[2]),
            height(g.children[3]),
        );
        assert(h == height(g.children[0]) || h == height(g.children[1]) || h == height(
            g.children[2],
        ) || h == height(g.children[3]));
        assert(exp2(h) <= 4 * side);
        lemma_height_unfold(g);
    }
}

} // verus!
