//! Orders on points and powers of two.
use vstd::prelude::*;
use crate::point::Point;
use crate::pow2::{lemma_pow2_double, lemma_pow2_gap, power_of_two};

verus! {

/// `a` comes before `b` in x-then-y order.
pub open spec fn xy_less(a: Point, b: Point) -> bool {
    a.x < b.x || (a.x == b.x && a.y < b.y)
}

/// Compares two points by x, then by y.
pub fn cmp_xy_order(lhs: &Point, rhs: &Point) -> (r: std::cmp::Ordering)
    ensures
        r == std::cmp::Ordering::Less <==> xy_less(*lhs, *rhs),
        r == std::cmp::Ordering::Equal <==> *lhs == *rhs,
        r == std::cmp::Ordering::Greater <==> xy_less(*rhs, *lhs),
{
    if lhs.x < rhs.x {
        std::cmp::Ordering::Less
    } else if lhs.x > rhs.x {
        std::cmp::Ordering::Greater
    } else if lhs.y < rhs.y {
        std::cmp::Ordering::Less
    } else if lhs.y > rhs.y {
        std::cmp::Ordering::Greater
    } else {
        std::cmp::Ordering::Equal
    }
}

/// Number of binary digits of `v`; 0 for 0.
pub open spec fn bit_len(v: nat) -> nat
    decreases v,
{
    if v == 0 {
        0
    } else {
        1 + bit_len(v / 2)
    }
}

proof fn lemma_bit_len_bound(v: nat, k: nat)
    requires
        v < crate::depth::exp2(k),
    ensures
        bit_len(v) <= k,
    decreases k,
{
    if v > 0 {
        lemma_bit_len_bound(v / 2, (k - 1) as nat);
    }
}

/// Computes `bit_len`.
fn bits(v: u32) -> (r: u32)
    ensures
        r == bit_len(v as nat),
{
    proof {
        reveal_with_fuel(crate::depth::exp2, 33);
        lemma_bit_len_bound(v as nat, 32);
    }
    let mut w: u32 = v;
    let mut n: u32 = 0;
    while w > 0
        invariant
            n + bit_len(w as nat) == bit_len(v as nat),
            bit_len(v as nat) <= 32,
        decreases w,
    {
        w = w / 2;
        n = n + 1;
    }
    n
}

/// Points are ordered along the Z-order curve by the coordinate whose two
/// values differ in the highest bit: y when its differing bits reach higher
/// than those of x, else x.
pub open spec fn zorder_on_y(lhs: Point, rhs: Point) -> bool {
    bit_len(((lhs.x ^ rhs.x) as u32) as nat) < bit_len(((lhs.y ^ rhs.y) as u32) as nat)
}

/// Compares two points in Z-order: by the coordinate of the most
/// significant differing bit, each difference read as its bit pattern.
pub fn cmp_zorder(lhs: &Point, rhs: &Point) -> (r: std::cmp::Ordering)
    ensures
        ({
            let (a, b) = if zorder_on_y(*lhs, *rhs) {
                (lhs.y, rhs.y)
            } else {
                (lhs.x, rhs.x)
            };
            &&& r == std::cmp::Ordering::Less <==> a < b
            &&& r == std::cmp::Ordering::Equal <==> a == b
            &&& r == std::cmp::Ordering::Greater <==> a > b
        }),
{
    let on_y = bits((lhs.x ^ rhs.x) as u32) < bits((lhs.y ^ rhs.y) as u32);
    let (a, b) = if on_y {
        (lhs.y, rhs.y)
    } else {
        (lhs.x, rhs.x)
    };
    if a < b {
        std::cmp::Ordering::Less
    } else if a > b {
        std::cmp::Ordering::Greater
    } else {
        std::cmp::Ordering::Equal
    }
}

pub open spec fn abs(v: int) -> int {
    if v < 0 {
        -v
    } else {
        v
    }
}

proof fn lemma_pow2_2_30()
    ensures
        power_of_two(0x4000_0000),
{
    reveal_with_fuel(power_of_two, 32);
}

/// The smallest power of two at or above `|v|`, and 0 for 0.
pub fn next_power_of_2(v: i32) -> (r: i32)
    requires
        -0x4000_0000 <= v <= 0x4000_0000,
    ensures
        v == 0 ==> r == 0,
        v != 0 ==> power_of_two(r as int) && abs(v as int) <= r < 2 * abs(v as int),
{
    if v == 0 {
        return 0;
    }
    let a: i32 = if v < 0 { -v } else { v };
    let mut r: i32 = 1;
    proof {
        lemma_pow2_2_30();
    }
    while r < a
        invariant
            power_of_two(r as int),
            1 <= r <= 0x4000_0000,
            r < 2 * a,
            1 <= a <= 0x4000_0000,
            a == abs(v as int),
        decreases 0x4000_0000 - r,
    {
        proof {
            lemma_pow2_2_30();
            lemma_pow2_gap(r as int, 0x4000_0000);
            lemma_pow2_double(r as int);
        }
        r = r * 2;
    }
    r
}

} // verus!
