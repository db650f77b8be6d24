//! Points kept in a vector sorted in x-then-y order, without repeats.
use vstd::prelude::*;
use crate::point::Point;
use crate::utils::{cmp_xy_order, xy_less};

verus! {

/// The points of `s` are in strictly increasing x-then-y order.
pub open spec fn sorted(s: Seq<Point>) -> bool {
    forall|i: int, j: int| 0 <= i < j < s.len() ==> xy_less(#[trigger] s[i], #[trigger] s[j])
}

/// Binary search of `p`: `Ok` with its index when present, else `Err` with
/// the index at which it would be inserted to keep the order.
pub fn find(v: &Vec<Point>, p: &Point) -> (r: Result<usize, usize>)
    requires
        sorted(v@),
    ensures
        r matches Ok(i) ==> i < v.len() && v@[i as int] == *p,
        r matches Err(i) ==> {
            &&& i <= v.len()
            &&& forall|k: int| 0 <= k < i ==> xy_less(#[trigger] v@[k], *p)
            &&& forall|k: int| i <= k < v.len() ==> xy_less(*p, #[trigger] v@[k])
        },
        r is Err <==> !v@.contains(*p),
{
    let mut lo: usize = 0;
    let mut hi: usize = v.len();
    while lo < hi
        invariant
            sorted(v@),
            lo <= hi <= v.len(),
            forall|k: int| 0 <= k < lo ==> xy_less(#[trigger] v@[k], *p),
            forall|k: int| hi <= k < v.len() ==> xy_less(*p, #[trigger] v@[k]),
        decreases hi - lo,
    {
        let mid = lo + (hi - lo) / 2;
        match cmp_xy_order(&v[mid], p) {
            std::cmp::Ordering::Less => {
                assert forall|k: int| 0 <= k < mid + 1 implies xy_less(#[trigger] v@[k], *p) by {
                    if k < mid {
                        assert(xy_less(v@[k], v@[mid as int]));
                    }
                }
                lo = mid + 1;
            },
            std::cmp::Ordering::Greater => {
                assert forall|k: int| mid <= k < v.len() implies xy_less(*p, #[trigger] v@[k]) by {
                    if k > mid {
                        assert(xy_less(v@[mid as int], v@[k]));
                    }
                }
                hi = mid;
            },
            std::cmp::Ordering::Equal => {
                assert(v@.contains(*p));
                return Ok(mid);
            },
        }
    }
    assert forall|k: int| 0 <= k < v.len() implies v@[k] != *p by {
        if k < lo {
            assert(xy_less(v@[k], *p));
        } else {
            assert(xy_less(*p, v@[k]));
        }
    }
    Err(lo)
}

/// Adds `p` at its place in the order, unless it is there already.
pub fn sorted_insert(v: &mut Vec<Point>, p: Point)
    requires
        sorted(old(v)@),
    ensures
        sorted(final(v)@),
        final(v)@.to_set() == old(v)@.to_set().insert(p),
{
    match find(v, &p) {
        Ok(_) => {
            assert(v@.to_set() =~= v@.to_set().insert(p));
        },
        Err(i) => {
            let ghost before = v@;
            v.insert(i, p);
            assert forall|a: int, b: int| 0 <= a < b < v@.len() implies xy_less(
                #[trigger] v@[a],
                #[trigger] v@[b],
            ) by {
                if b < i {
                } else if a > i {
                    assert(v@[a] == before[a - 1] && v@[b] == before[b - 1]);
                } else if a == i {
                    assert(v@[b] == before[b - 1]);
                } else if b == i {
                } else {
                    assert(v@[b] == before[b - 1]);
                }
            }
            assert forall|q: Point| v@.to_set().contains(q) <==> before.to_set().insert(
                p,
            ).contains(q) by {
                if v@.to_set().contains(q) {
                    let k = choose|k: int| 0 <= k < v@.len() && v@[k] == q;
                    if k > i {
                        assert(before[k - 1] == q);
                    } else if k < i {
                        assert(before[k] == q);
                    }
                }
                if before.to_set().contains(q) {
                    let k = choose|k: int| 0 <= k < before.len() && before[k] == q;
                    if k >= i {
                        assert(v@[k + 1] == q);
                    } else {
                        assert(v@[k] == q);
                    }
                }
                if q == p {
                    assert(v@[i as int] == p);
                }
            }
            assert(v@.to_set() =~= before.to_set().insert(p));
        },
    }
}

/// Drops `p`, if present.
pub fn sorted_remove(v: &mut Vec<Point>, p: &Point)
    requires
        sorted(old(v)@),
    ensures
        sorted(final(v)@),
        final(v)@.to_set() == old(v)@.to_set().remove(*p),
{
    match find(v, p) {
        Ok(i) => {
            let ghost before = v@;
            v.remove(i);
            assert forall|a: int, b: int| 0 <= a < b < v@.len() implies xy_less(
                #[trigger] v@[a],
                #[trigger] v@[b],
            ) by {
                let a0 = if a < i { a } else { a + 1 };
                let b0 = if b < i { b } else { b + 1 };
                assert(v@[a] == before[a0] && v@[b] == before[b0]);
            }
            assert forall|q: Point| v@.to_set().contains(q) <==> before.to_set().remove(
                *p,
            ).contains(q) by {
                if v@.to_set().contains(q) {
                    let k = choose|k: int| 0 <= k < v@.len() && v@[k] == q;
                    let k0 = if k < i { k } else { k + 1 };
                    assert(before[k0] == q);
                    if k0 < i {
                        assert(xy_less(before[k0], before[i as int]));
                    } else {
                        assert(xy_less(before[i as int], before[k0]));
                    }
                }
                if before.to_set().contains(q) && q != *p {
                    let k = choose|k: int| 0 <= k < before.len() && before[k] == q;
                    if k < i {
                        assert(v@[k] == q);
                    } else {
                        assert(k != i);
                        assert(v@[k - 1] == q);
                    }
                }
            }
            assert(v@.to_set() =~= before.to_set().remove(*p));
        },
        Err(_) => {
            assert(v@.to_set() =~= v@.to_set().remove(*p));
        },
    }
}

} // verus!
