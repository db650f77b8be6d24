//! Powers of two and alignment on the integers.
use vstd::prelude::*;
use vstd::arithmetic::div_mod::{
    lemma_fundamental_div_mod, lemma_mod_multiples_basic,
};

verus! {

/// The number of cells on a side of the plane's quarters.
pub const HALF_PLANE: u64 = 0x8000_0000;

/// `n` is a power of two.
pub open spec fn power_of_two(n: int) -> bool
    decreases n,
{
    if n <= 0 {
        false
    } else if n == 1 {
        true
    } else {
        n % 2 == 0 && power_of_two(n / 2)
    }
}

/// `v` is a multiple of `s`.
pub open spec fn aligned(v: int, s: int) -> bool {
    v % s == 0
}

pub proof fn lemma_pow2_halves(n: int)
    requires
        power_of_two(n),
        n >= 2,
    ensures
        n % 2 == 0,
        n == 2 * (n / 2),
        power_of_two(n / 2),
{
}

pub proof fn lemma_pow2_double(n: int)
    requires
        power_of_two(n),
    ensures
        power_of_two(2 * n),
{
    assert((2 * n) / 2 == n);
}

pub proof fn lemma_pow2_half_plane()
    ensures
        power_of_two(HALF_PLANE as int),
{
    reveal_with_fuel(power_of_two, 33);
}

/// A smaller power of two divides a larger one.
pub proof fn lemma_pow2_divides(a: int, b: int)
    requires
        power_of_two(a),
        power_of_two(b),
        a <= b,
    ensures
        b % a == 0,
    decreases a,
{
    if a == 1 {
    } else {
        lemma_pow2_halves(a);
        lemma_pow2_halves(b);
        lemma_pow2_divides(a / 2, b / 2);
        let k = (b / 2) / (a / 2);
        lemma_fundamental_div_mod(b / 2, a / 2);
        assert(b == k * a) by (nonlinear_arith)
            requires
                b == 2 * (b / 2),
                a == 2 * (a / 2),
                b / 2 == (a / 2) * k + 0,
        ;
        lemma_mod_multiples_basic(k, a);
    }
}

/// Of two distinct powers of two, the larger is at least twice the smaller.
pub proof fn lemma_pow2_gap(a: int, b: int)
    requires
        power_of_two(a),
        power_of_two(b),
        a < b,
    ensures
        2 * a <= b,
{
    lemma_pow2_divides(a, b);
    lemma_fundamental_div_mod(b, a);
    let k = b / a;
    assert(2 * a <= b) by (nonlinear_arith)
        requires
            b == a * k + 0,
            a < b,
            a > 0,
    ;
}

/// A multiple of `s` is a multiple of any power of two below `s`.
pub proof fn lemma_aligned_to_smaller(v: int, s: int, t: int)
    requires
        power_of_two(s),
        power_of_two(t),
        t <= s,
        aligned(v, s),
    ensures
        aligned(v, t),
{
    lemma_pow2_divides(t, s);
    lemma_fundamental_div_mod(s, t);
    lemma_fundamental_div_mod(v, s);
    let m = s / t;
    let k = v / s;
    assert(v == (k * m) * t) by (nonlinear_arith)
        requires
            s == t * m + 0,
            v == s * k + 0,
    ;
    lemma_mod_multiples_basic(k * m, t);
}

/// Two multiples of `s` at a distance below `s` are equal.
pub proof fn lemma_aligned_close(a: int, b: int, s: int)
    requires
        s > 0,
        aligned(a, s),
        aligned(b, s),
        a - s < b < a + s,
    ensures
        a == b,
{
    lemma_fundamental_div_mod(a, s);
    lemma_fundamental_div_mod(b, s);
    let ka = a / s;
    let kb = b / s;
    assert(ka == kb) by (nonlinear_arith)
        requires
            a == s * ka + 0,
            b == s * kb + 0,
            a - s < b < a + s,
            s > 0,
    ;
}

/// An aligned run of `t` cells that starts inside an aligned run of `s >= t`
/// cells ends inside it too.
pub proof fn lemma_aligned_inside(a: int, s: int, b: int, t: int)
    requires
        power_of_two(s),
        power_of_two(t),
        t <= s,
        aligned(a, s),
        aligned(b, t),
        a <= b < a + s,
    ensures
        b + t <= a + s,
{
    lemma_aligned_to_smaller(a, s, t);
    lemma_pow2_divides(t, s);
    lemma_fundamental_div_mod(a, t);
    lemma_fundamental_div_mod(b, t);
    lemma_fundamental_div_mod(s, t);
    let ka = a / t;
    let kb = b / t;
    let m = s / t;
    assert(t * (kb - ka) < t * m) by (nonlinear_arith)
        requires
            a == t * ka + 0,
            b == t * kb + 0,
            s == t * m + 0,
            b < a + s,
    ;
    assert(kb - ka < m) by (nonlinear_arith)
        requires
            t * (kb - ka) < t * m,
            t > 0,
    ;
    assert(t * (kb - ka) <= t * (m - 1)) by (nonlinear_arith)
        requires
            kb - ka <= m - 1,
            t > 0,
    ;
    assert(b + t <= a + s) by (nonlinear_arith)
        requires
            a == t * ka + 0,
            b == t * kb + 0,
            s == t * m + 0,
            t * (kb - ka) <= t * (m - 1),
    ;
}

/// The multiple of `s` at or just below `v`.
pub proof fn lemma_round_down(v: int, s: int, q: int, r: int)
    requires
        s > 0,
        v == q * s + r,
        0 <= r < s,
    ensures
        aligned(v - r, s),
{
    lemma_mod_multiples_basic(q, s);
}

} // verus!
