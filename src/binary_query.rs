//! Range query over points sorted in x-then-y order: walks the cells of the
//! rectangle in the same order and jumps over gaps by binary search.
use vstd::prelude::*;
use crate::point::Point;
use crate::region::{high_of, highest, lemma_rect_box, low_of, lowest, Holds, Rect};
use crate::sorted::sorted;
use crate::utils::{cmp_xy_order, xy_less};

verus! {

/// `p` lies in the box `[fx, lx]` by `[fy, ly]`, bounds included.
pub open spec fn in_box(p: Point, fx: int, fy: int, lx: int, ly: int) -> bool {
    fx <= p.x <= lx && fy <= p.y <= ly
}

/// The cell after `p` in the walk of the box: up the column, then to the
/// bottom of the next column.
pub open spec fn spec_step(p: Point, fx: int, fy: int, lx: int, ly: int) -> Option<Point> {
    if p.y < ly {
        Some(Point { x: p.x, y: (p.y + 1) as i32 })
    } else if p.x < lx {
        Some(Point { x: (p.x + 1) as i32, y: fy as i32 })
    } else {
        None
    }
}

/// Index of `p` among `v[lo..]`, or where it would be inserted there.
fn find_from(v: &[Point], lo: usize, p: &Point) -> (r: Result<usize, usize>)
    requires
        sorted(v@),
        lo <= v@.len(),
    ensures
        r matches Ok(i) ==> lo <= i < v@.len() && v@[i as int] == *p,
        r matches Err(i) ==> {
            &&& lo <= i <= v@.len()
            &&& forall|k: int| lo <= k < i ==> xy_less(#[trigger] v@[k], *p)
            &&& forall|k: int| i <= k < v@.len() ==> xy_less(*p, #[trigger] v@[k])
        },
{
    let mut a: usize = lo;
    let mut b: usize = v.len();
    while a < b
        invariant
            sorted(v@),
            lo <= a <= b <= v@.len(),
            forall|k: int| lo <= k < a ==> xy_less(#[trigger] v@[k], *p),
            forall|k: int| b <= k < v@.len() ==> xy_less(*p, #[trigger] v@[k]),
        decreases b - a,
    {
        let mid = a + (b - a) / 2;
        match cmp_xy_order(&v[mid], p) {
            std::cmp::Ordering::Less => {
                assert forall|k: int| lo <= k < mid + 1 implies xy_less(#[trigger] v@[k], *p) by {
                    if k < mid {
                        assert(xy_less(v@[k], v@[mid as int]));
                    }
                }
                a = mid + 1;
            },
            std::cmp::Ordering::Greater => {
                assert forall|k: int| mid <= k < v@.len() implies xy_less(*p, #[trigger] v@[k]) by {
                    if k > mid {
                        assert(xy_less(v@[mid as int], v@[k]));
                    }
                }
                b = mid;
            },
            std::cmp::Ordering::Equal => {
                return Ok(mid);
            },
        }
    }
    Err(a)
}

/// Elements that the filter rejects add nothing to it.
proof fn lemma_filter_skip(s: Seq<Point>, a: int, b: int, f: spec_fn(Point) -> bool)
    requires
        0 <= a <= b <= s.len(),
        forall|k: int| a <= k < b ==> !f(#[trigger] s[k]),
    ensures
        s.take(b).filter(f) == s.take(a).filter(f),
    decreases b - a,
{
    if a < b {
        lemma_filter_skip(s, a, b - 1, f);
        assert(s.take(b) =~= s.take(b - 1).push(s[b - 1]));
        s.take(b - 1).lemma_filter_push(s[b - 1], f);
    }
}

/// Adding one element to the prefix adds it to the filter when it passes.
proof fn lemma_filter_take_one(s: Seq<Point>, i: int, f: spec_fn(Point) -> bool)
    requires
        0 <= i < s.len(),
        f(s[i]),
    ensures
        s.take(i + 1).filter(f) == s.take(i).filter(f).push(s[i]),
{
    assert(s.take(i + 1) =~= s.take(i).push(s[i]));
    s.take(i).lemma_filter_push(s[i], f);
}

/// The next cell of the walk is the first cell of the box past `p`.
proof fn lemma_step(p: Point, c: Point, fx: int, fy: int, lx: int, ly: int)
    requires
        i32::MIN <= fx <= lx <= i32::MAX,
        i32::MIN <= fy <= ly <= i32::MAX,
        in_box(p, fx, fy, lx, ly),
        in_box(c, fx, fy, lx, ly),
        xy_less(p, c),
    ensures
        spec_step(p, fx, fy, lx, ly) matches Some(s) && in_box(s, fx, fy, lx, ly) && xy_less(p, s)
            && !xy_less(c, s),
{
}

/// The first cell of the box at or after `q` in the walk, if any.
fn ceil_in_box(q: &Point, fx: i64, fy: i64, lx: i64, ly: i64) -> (r: Option<Point>)
    requires
        i32::MIN <= fx <= lx <= i32::MAX,
        i32::MIN <= fy <= ly <= i32::MAX,
    ensures
        r matches Some(c) ==> in_box(c, fx as int, fy as int, lx as int, ly as int) && !xy_less(
            c,
            *q,
        ),
        forall|d: Point|
            in_box(d, fx as int, fy as int, lx as int, ly as int) && !xy_less(d, *q) ==> (r matches Some(
                c,
            ) && !xy_less(d, c)),
{
    if (q.x as i64) > lx {
        None
    } else if (q.x as i64) < fx {
        Some(Point { x: fx as i32, y: fy as i32 })
    } else if (q.y as i64) < fy {
        Some(Point { x: q.x, y: fy as i32 })
    } else if (q.y as i64) <= ly {
        Some(*q)
    } else if (q.x as i64) < lx {
        Some(Point { x: q.x + 1, y: fy as i32 })
    } else {
        None
    }
}

spec fn walk_x(next: Option<Point>, lx: int) -> int {
    match next {
        Some(p) => lx - p.x + 1,
        None => 0,
    }
}

spec fn walk_y(next: Option<Point>, ly: int) -> int {
    match next {
        Some(p) => ly - p.y + 1,
        None => 0,
    }
}

/// The points of `slice`, sorted in x-then-y order, that `area` holds, in
/// their order. The walk over the cells of `area` jumps ahead by binary
/// search wherever the slice has a gap.
pub fn binary_query(area: &Rect, slice: &[Point]) -> (r: Vec<Point>)
    requires
        sorted(slice@),
    ensures
        r@ == slice@.filter(|p: Point| area.spec_holds(p)),
{
    let ghost holds = |p: Point| area.spec_holds(p);
    let fx = lowest(&area.start, true);
    let fy = lowest(&area.start, false);
    let lx = highest(&area.end, true);
    let ly = highest(&area.end, false);
    let ghost s = slice@;
    proof {
        assert forall|p: Point| #[trigger] holds(p) == in_box(p, fx as int, fy as int, lx as int, ly as int) by {
            lemma_rect_box(*area, p);
        }
    }
    let mut out: Vec<Point> = Vec::new();
    if fx > lx || fy > ly {
        proof {
            lemma_filter_skip(s, 0, s.len() as int, holds);
            assert(s.take(0) =~= Seq::<Point>::empty());
            assert(s.take(s.len() as int) =~= s);
            reveal(Seq::filter);
        }
        return out;
    }
    let mut lo: usize = 0;
    let mut next: Option<Point> = Some(Point { x: fx as i32, y: fy as i32 });
    proof {
        assert(s.take(0) =~= Seq::<Point>::empty());
        reveal(Seq::filter);
    }
    while lo < slice.len() && next.is_some()
        invariant
            sorted(s),
            s == slice@,
            holds == (|p: Point| area.spec_holds(p)),
            forall|p: Point| #[trigger] holds(p) == in_box(p, fx as int, fy as int, lx as int, ly as int),
            i32::MIN <= fx <= lx <= i32::MAX,
            i32::MIN <= fy <= ly <= i32::MAX,
            lo <= s.len(),
            out@ == s.take(lo as int).filter(holds),
            next matches Some(nx) ==> in_box(nx, fx as int, fy as int, lx as int, ly as int) && forall|k: int|
                lo <= k < s.len() && holds(#[trigger] s[k]) ==> !xy_less(s[k], nx),
            next is None ==> forall|k: int| lo <= k < s.len() ==> !holds(#[trigger] s[k]),
        decreases s.len() - lo, walk_x(next, lx as int), walk_y(next, ly as int),
    {
        let nx = next.unwrap();
        let first = slice[lo];
        if area.holds(&first) {
            proof {
                assert(holds(first));
                lemma_filter_take_one(s, lo as int, holds);
                assert forall|k: int| lo + 1 <= k < s.len() && holds(#[trigger] s[k]) implies !xy_less(
                    s[k],
                    spec_step(first, fx as int, fy as int, lx as int, ly as int)->Some_0,
                ) && spec_step(first, fx as int, fy as int, lx as int, ly as int) is Some by {
                    assert(xy_less(s[lo as int], s[k]));
                    lemma_step(first, s[k], fx as int, fy as int, lx as int, ly as int);
                }
            }
            out.push(first);
            lo = lo + 1;
            next = step(&first, fx, fy, lx, ly);
        } else {
            match find_from(slice, lo, &nx) {
                Ok(i) => {
                    proof {
                        assert forall|k: int| lo <= k < i implies !holds(#[trigger] s[k]) by {
                            assert(xy_less(s[k], s[i as int]));
                        }
                        lemma_filter_skip(s, lo as int, i as int, holds);
                        lemma_filter_take_one(s, i as int, holds);
                        assert forall|k: int| i + 1 <= k < s.len() && holds(#[trigger] s[k]) implies !xy_less(
                            s[k],
                            spec_step(nx, fx as int, fy as int, lx as int, ly as int)->Some_0,
                        ) && spec_step(nx, fx as int, fy as int, lx as int, ly as int) is Some by {
                            assert(xy_less(s[i as int], s[k]));
                            lemma_step(nx, s[k], fx as int, fy as int, lx as int, ly as int);
                        }
                    }
                    out.push(slice[i]);
                    lo = i + 1;
                    next = step(&nx, fx, fy, lx, ly);
                },
                Err(i) => {
                    proof {
                        assert forall|k: int| lo <= k < i implies !holds(#[trigger] s[k]) by {
                            if holds(s[k]) {
                                assert(!xy_less(s[k], nx));
                            }
                        }
                        lemma_filter_skip(s, lo as int, i as int, holds);
                    }
                    lo = i;
                    next = if i < slice.len() {
                        let jump = ceil_in_box(&slice[i], fx, fy, lx, ly);
                        proof {
                            assert forall|k: int| i <= k < s.len() && holds(#[trigger] s[k]) implies (jump matches Some(c) && !xy_less(s[k], c)) by {
                                if k > i {
                                    assert(xy_less(s[i as int], s[k]));
                                }
                                assert(in_box(s[k], fx as int, fy as int, lx as int, ly as int));
                                assert(!xy_less(s[k], s[i as int]));
                            }
                        }
                        jump
                    } else {
                        None
                    };
                },
            }
        }
    }
    proof {
        if lo < s.len() {
            lemma_filter_skip(s, lo as int, s.len() as int, holds);
        }
        assert(s.take(s.len() as int) =~= s);
    }
    out
}

/// Computes `spec_step` for a cell of a box within the grid.
fn step(p: &Point, fx: i64, fy: i64, lx: i64, ly: i64) -> (r: Option<Point>)
    requires
        i32::MIN <= fx <= lx <= i32::MAX,
        i32::MIN <= fy <= ly <= i32::MAX,
        in_box(*p, fx as int, fy as int, lx as int, ly as int),
    ensures
        r == spec_step(*p, fx as int, fy as int, lx as int, ly as int),
{
    if (p.y as i64) < ly {
        Some(Point { x: p.x, y: p.y + 1 })
    } else if (p.x as i64) < lx {
        Some(Point { x: p.x + 1, y: fy as i32 })
    } else {
        None
    }
}

} // verus!
