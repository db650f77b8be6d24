//! Squares of the grid whose side is a power of two and whose corner is
//! aligned to it, and the search for the smallest one around two others.
use vstd::prelude::*;
use crate::point::Point;
use crate::pow2::{
    aligned, lemma_aligned_close, lemma_aligned_inside, lemma_pow2_divides, lemma_pow2_double,
    lemma_pow2_gap, lemma_pow2_half_plane, lemma_pow2_halves, lemma_round_down, power_of_two,
    HALF_PLANE,
};
use crate::quarter::{global_quarter, slot_of, Quarter};
use crate::region::Holds;

verus! {

/// `p` lies in the square of side `s` whose lowest corner is `(x, y)`.
pub open spec fn in_square(p: Point, x: int, y: int, s: int) -> bool {
    x <= p.x < x + s && y <= p.y < y + s
}

/// Square of the grid whose side is a power of two and whose lowest corner is
/// a multiple of that side: it covers `[anchor.x, anchor.x + size)` by
/// `[anchor.y, anchor.y + size)`.
#[derive(Clone, Copy, Debug, PartialEq, Eq, Structural)]
pub struct BinarySquare {
    pub anchor: Point,
    pub size: u32,
}

impl BinarySquare {
    /// The size is a power of two and the anchor is aligned to it.
    pub open spec fn wf(self) -> bool {
        &&& power_of_two(self.size as int)
        &&& aligned(self.anchor.x as int, self.size as int)
        &&& aligned(self.anchor.y as int, self.size as int)
    }

    /// The square covers `p`.
    pub open spec fn contains(self, p: Point) -> bool {
        in_square(p, self.anchor.x as int, self.anchor.y as int, self.size as int)
    }

    /// Every cell of `self` is a cell of `outer`.
    pub open spec fn inside(self, outer: BinarySquare) -> bool {
        &&& outer.anchor.x <= self.anchor.x
        &&& self.anchor.x + self.size <= outer.anchor.x + outer.size
        &&& outer.anchor.y <= self.anchor.y
        &&& self.anchor.y + self.size <= outer.anchor.y + outer.size
    }

    pub open spec fn half(self) -> int {
        self.size as int / 2
    }

    /// The slot of the quarter of `self` that `p` falls in.
    pub open spec fn spec_quarter(self, p: Point) -> int {
        slot_of(p.x >= self.anchor.x + self.half(), p.y >= self.anchor.y + self.half())
    }

    /// The quarter of `self` in slot `i`, as a square.
    pub open spec fn sub_square(self, i: int) -> BinarySquare {
        BinarySquare {
            anchor: Point {
                x: (self.anchor.x + if i >= 2 { self.half() } else { 0 }) as i32,
                y: (self.anchor.y + if i % 2 == 1 { self.half() } else { 0 }) as i32,
            },
            size: self.half() as u32,
        }
    }

    /// The square of one cell at `point`.
    pub fn wrapping(point: Point) -> (r: BinarySquare)
        ensures
            r.anchor == point,
            r.size == 1,
            r.wf(),
    {
        BinarySquare { anchor: point, size: 1 }
    }

    /// The quarter of `self` that `point` falls in. Only meaningful where the
    /// square holds the point.
    pub fn quarter(&self, point: &Point) -> (r: Quarter)
        ensures
            r.spec_slot() == self.spec_quarter(*point),
    {
        let half = (self.size / 2) as i64;
        Quarter::from_halves(
            point.x as i64 >= self.anchor.x as i64 + half,
            point.y as i64 >= self.anchor.y as i64 + half,
        )
    }
}

impl Holds<Point> for BinarySquare {
    open spec fn spec_holds(&self, object: Point) -> bool {
        self.contains(object)
    }

    fn holds(&self, object: &Point) -> (r: bool) {
        let size = self.size as i64;
        let x = self.anchor.x as i64;
        let y = self.anchor.y as i64;
        x <= object.x as i64 && (object.x as i64) < x + size && y <= object.y as i64
            && (object.y as i64) < y + size
    }
}

impl Holds<BinarySquare> for BinarySquare {
    open spec fn spec_holds(&self, object: BinarySquare) -> bool {
        object.size <= self.size && self.contains(object.anchor)
    }

    fn holds(&self, object: &BinarySquare) -> (r: bool) {
        object.size <= self.size && self.holds(&object.anchor)
    }
}

/// For well formed squares, holding a square is covering all its cells.
pub proof fn lemma_holds_square(outer: BinarySquare, inner: BinarySquare)
    requires
        outer.wf(),
        inner.wf(),
    ensures
        (inner.size <= outer.size && outer.contains(inner.anchor)) <==> inner.inside(outer),
{
    if inner.size <= outer.size && outer.contains(inner.anchor) {
        lemma_aligned_inside(
            outer.anchor.x as int,
            outer.size as int,
            inner.anchor.x as int,
            inner.size as int,
        );
        lemma_aligned_inside(
            outer.anchor.y as int,
            outer.size as int,
            inner.anchor.y as int,
            inner.size as int,
        );
    }
}

/// Two well formed squares of one size that share a cell are the same square.
pub proof fn lemma_same_square(a: BinarySquare, b: BinarySquare, p: Point)
    requires
        a.wf(),
        b.wf(),
        a.size == b.size,
        a.contains(p),
        b.contains(p),
    ensures
        a == b,
{
    lemma_aligned_close(a.anchor.x as int, b.anchor.x as int, a.size as int);
    lemma_aligned_close(a.anchor.y as int, b.anchor.y as int, a.size as int);
}

/// No cell lies in both squares.
pub open spec fn disjoint(a: BinarySquare, b: BinarySquare) -> bool {
    forall|p: Point| !(#[trigger] a.contains(p) && b.contains(p))
}

/// A well formed square that shares a cell with a larger or equal one lies
/// inside it.
pub proof fn lemma_nested(outer: BinarySquare, inner: BinarySquare, p: Point)
    requires
        outer.wf(),
        inner.wf(),
        inner.size <= outer.size,
        outer.contains(p),
        inner.contains(p),
    ensures
        inner.inside(outer),
{
    let t = inner.size as int;
    crate::pow2::lemma_aligned_to_smaller(outer.anchor.x as int, outer.size as int, t);
    crate::pow2::lemma_aligned_to_smaller(outer.anchor.y as int, outer.size as int, t);
    if inner.anchor.x < outer.anchor.x {
        if outer.anchor.x < inner.anchor.x + t {
            lemma_aligned_close(inner.anchor.x as int, outer.anchor.x as int, t);
        }
    }
    if inner.anchor.y < outer.anchor.y {
        if outer.anchor.y < inner.anchor.y + t {
            lemma_aligned_close(inner.anchor.y as int, outer.anchor.y as int, t);
        }
    }
    lemma_holds_square(outer, inner);
}

/// A well formed square lies within the quarter of the plane of its anchor.
pub proof fn lemma_square_fits(sq: BinarySquare)
    requires
        sq.wf(),
    ensures
        sq.size <= HALF_PLANE,
        sq.anchor.x >= 0 ==> sq.anchor.x + sq.size <= HALF_PLANE,
        sq.anchor.x < 0 ==> sq.anchor.x + sq.size <= 0,
        sq.anchor.y >= 0 ==> sq.anchor.y + sq.size <= HALF_PLANE,
        sq.anchor.y < 0 ==> sq.anchor.y + sq.size <= 0,
{
    lemma_pow2_half_plane();
    if sq.size > HALF_PLANE {
        lemma_pow2_gap(HALF_PLANE as int, sq.size as int);
    }
    let h = HALF_PLANE as int;
    let s = sq.size as int;
    assert(aligned(0, h));
    assert(aligned(-h, h));
    if sq.anchor.x >= 0 {
        lemma_aligned_inside(0, h, sq.anchor.x as int, s);
    } else {
        lemma_aligned_inside(-h, h, sq.anchor.x as int, s);
    }
    if sq.anchor.y >= 0 {
        lemma_aligned_inside(0, h, sq.anchor.y as int, s);
    } else {
        lemma_aligned_inside(-h, h, sq.anchor.y as int, s);
    }
}

/// The quarters of a well formed square are well formed, lie inside it, and
/// the quarter that a point falls in holds it.
pub proof fn lemma_sub_square(sq: BinarySquare, i: int)
    requires
        sq.wf(),
        sq.size >= 2,
        0 <= i < 4,
    ensures
        sq.sub_square(i).wf(),
        sq.sub_square(i).inside(sq),
        sq.sub_square(i).size == sq.half(),
        sq.sub_square(i).anchor.x == sq.anchor.x + if i >= 2 { sq.half() } else { 0 },
        sq.sub_square(i).anchor.y == sq.anchor.y + if i % 2 == 1 { sq.half() } else { 0 },
        2 * sq.half() == sq.size,
        forall|p: Point|
            sq.contains(p) ==> (sq.sub_square(i).contains(p) <==> sq.spec_quarter(p) == i),
{
    lemma_square_fits(sq);
    lemma_pow2_halves(sq.size as int);
    let h = sq.half();
    lemma_pow2_divides(h, sq.size as int);
    crate::pow2::lemma_aligned_to_smaller(sq.anchor.x as int, sq.size as int, h);
    crate::pow2::lemma_aligned_to_smaller(sq.anchor.y as int, sq.size as int, h);
    let sub = sq.sub_square(i);
    assert(aligned(sub.anchor.x as int, h)) by {
        if i >= 2 {
            vstd::arithmetic::div_mod::lemma_mod_add_multiples_vanish(sq.anchor.x as int, h);
        }
    }
    assert(aligned(sub.anchor.y as int, h)) by {
        if i % 2 == 1 {
            vstd::arithmetic::div_mod::lemma_mod_add_multiples_vanish(sq.anchor.y as int, h);
        }
    }
}

/// The smallest well formed square of side at least `size` that covers
/// `start` and `end`.
fn search_area(start: &Point, end: &Point, min_size: u64) -> (r: BinarySquare)
    requires
        power_of_two(min_size as int),
        min_size <= HALF_PLANE,
        start.x <= end.x,
        start.y <= end.y,
        (start.x >= 0) == (end.x >= 0),
        (start.y >= 0) == (end.y >= 0),
    ensures
        r.wf(),
        r.size >= min_size,
        r.contains(*start),
        r.contains(*end),
        forall|d: BinarySquare|
            d.wf() && d.size >= min_size && d.contains(*start) && d.contains(*end) ==> r.size
                <= d.size,
{
    let ghost first = min_size;
    let mut size = min_size;
    loop
        invariant
            power_of_two(size as int),
            first == min_size,
            first <= size <= HALF_PLANE,
            power_of_two(first as int),
            start.x <= end.x,
            start.y <= end.y,
            (start.x >= 0) == (end.x >= 0),
            (start.y >= 0) == (end.y >= 0),
            forall|d: BinarySquare|
                d.wf() && d.size >= first && d.contains(*start) && d.contains(*end) ==> size
                    <= d.size,
        decreases HALF_PLANE - size,
    {
        let candidate = BinarySquare {
            anchor: Point { x: align_down(start.x, size), y: align_down(start.y, size) },
            size: size as u32,
        };
        assert(candidate.size == size);
        if candidate.holds(end) {
            return candidate;
        }
        proof {
            if size == HALF_PLANE {
                lemma_half_plane_holds(start, end, candidate);
            }
            assert forall|d: BinarySquare|
                d.wf() && d.size >= first && d.contains(*start) && d.contains(*end) implies 2
                * size <= d.size by {
                if d.size == size {
                    lemma_same_square(d, candidate, *start);
                }
                lemma_pow2_gap(size as int, d.size as int);
            }
            lemma_pow2_double(size as int);
            if size < HALF_PLANE {
                lemma_pow2_half_plane();
                lemma_pow2_gap(size as int, HALF_PLANE as int);
            }
        }
        size = size * 2;
    }
}

/// At the size of a quarter of the plane, the square found from `start`
/// covers every point with the same signs.
proof fn lemma_half_plane_holds(start: &Point, end: &Point, candidate: BinarySquare)
    requires
        candidate.wf(),
        candidate.size == HALF_PLANE,
        candidate.contains(*start),
        (start.x >= 0) == (end.x >= 0),
        (start.y >= 0) == (end.y >= 0),
    ensures
        candidate.contains(*end),
{
    let s = HALF_PLANE as int;
    if start.x >= 0 {
        lemma_aligned_close(candidate.anchor.x as int, 0, s);
    } else {
        lemma_aligned_close(candidate.anchor.x as int, -s, s);
    }
    if start.y >= 0 {
        lemma_aligned_close(candidate.anchor.y as int, 0, s);
    } else {
        lemma_aligned_close(candidate.anchor.y as int, -s, s);
    }
}

/// The multiple of `size` at or just below `v`.
fn align_down(v: i32, size: u64) -> (r: i32)
    requires
        power_of_two(size as int),
        size <= HALF_PLANE,
    ensures
        aligned(r as int, size as int),
        r <= v < r + size,
{
    let shifted: u64 = (v as i64 + HALF_PLANE as i64) as u64;
    let rem = shifted % size;
    proof {
        vstd::arithmetic::div_mod::lemma_fundamental_div_mod(shifted as int, size as int);
        vstd::arithmetic::div_mod::lemma_mod_bound(shifted as int, size as int);
    }
    let base = shifted - rem;
    proof {
        lemma_pow2_half_plane();
        lemma_pow2_divides(size as int, HALF_PLANE as int);
        vstd::arithmetic::div_mod::lemma_fundamental_div_mod(shifted as int, size as int);
        vstd::arithmetic::div_mod::lemma_fundamental_div_mod(HALF_PLANE as int, size as int);
        lemma_round_down(shifted as int, size as int, shifted as int / size as int, rem as int);
        let k = HALF_PLANE as int / size as int;
        vstd::arithmetic::div_mod::lemma_fundamental_div_mod(base as int, size as int);
        assert(base as int - HALF_PLANE as int == ((base as int / size as int) - k) * size + 0)
            by (nonlinear_arith)
            requires
                base as int == size * (base as int / size as int) + 0,
                HALF_PLANE as int == size * k + 0,
        ;
        lemma_round_down(
            base as int - HALF_PLANE as int,
            size as int,
            (base as int / size as int) - k,
            0,
        );
    }
    (base as i64 - HALF_PLANE as i64) as i32
}

impl BinarySquare {
    /// Smallest square holding both given squares, which must lie in the same
    /// global quarter; its size is at least twice the larger of theirs.
    pub fn common(rhs: &BinarySquare, lhs: &BinarySquare) -> (r: Result<BinarySquare, &'static str>)
        requires
            rhs.wf(),
            lhs.wf(),
            rhs.size < HALF_PLANE,
            lhs.size < HALF_PLANE,
        ensures
            r is Err <==> slot_of(rhs.anchor.x >= 0, rhs.anchor.y >= 0) != slot_of(
                lhs.anchor.x >= 0,
                lhs.anchor.y >= 0,
            ),
            r matches Err(m) ==> m@ == "given squares does not belong to the same global quarter"@,
            r matches Ok(c) ==> {
                &&& c.wf()
                &&& rhs.inside(c)
                &&& lhs.inside(c)
                &&& c.size >= 2 * rhs.size
                &&& c.size >= 2 * lhs.size
                &&& forall|d: BinarySquare|
                    d.wf() && d.size >= 2 * rhs.size && d.size >= 2 * lhs.size && d.contains(
                        rhs.anchor,
                    ) && d.contains(lhs.anchor) ==> c.size <= d.size
            },
    {
        if global_quarter(&rhs.anchor) != global_quarter(&lhs.anchor) {
            Err("given squares does not belong to the same global quarter")
        } else {
            let start = Point {
                x: if rhs.anchor.x < lhs.anchor.x { rhs.anchor.x } else { lhs.anchor.x },
                y: if rhs.anchor.y < lhs.anchor.y { rhs.anchor.y } else { lhs.anchor.y },
            };
            let end = Point {
                x: if rhs.anchor.x < lhs.anchor.x { lhs.anchor.x } else { rhs.anchor.x },
                y: if rhs.anchor.y < lhs.anchor.y { lhs.anchor.y } else { rhs.anchor.y },
            };
            let larger = if rhs.size < lhs.size { lhs.size } else { rhs.size };
            proof {
                lemma_pow2_double(larger as int);
                lemma_pow2_half_plane();
                lemma_pow2_gap(larger as int, HALF_PLANE as int);
            }
            let c = search_area(&start, &end, 2 * larger as u64);
            proof {
                lemma_holds_square(c, *rhs);
                lemma_holds_square(c, *lhs);
                assert forall|d: BinarySquare|
                    d.wf() && d.size >= 2 * rhs.size && d.size >= 2 * lhs.size && d.contains(
                        rhs.anchor,
                    ) && d.contains(lhs.anchor) implies c.size <= d.size by {
                    assert(d.contains(start) && d.contains(end));
                }
            }
            Ok(c)
        }
    }
}

} // verus!
