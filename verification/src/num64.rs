//! Fixed-point arithmetic kernel.
//!
//! Every kinematic quantity in the simulation is a scaled 64-bit integer.
//! The kernel provides the one scaled multiply-divide that the integrator's
//! sub-steps use, a truncating (toward zero) division, a symmetric clamp,
//! an integer square root, and the lemmas about them that the reversibility
//! proof needs.  Truncation toward zero and the symmetric clamp are chosen
//! deliberately: both commute with negation, which is what makes a sub-step
//! taken with `-h` undo the same sub-step taken with `h` exactly.

use vstd::prelude::*;

verus! {

/// Magnitude bound applied to the product `coeff * step` before it is
/// multiplied by a derivative entry; keeps the full product inside `i128`.
pub const PRODUCT_CLAMP: i128 = 10_000_000_000_000_000_000;

/// Largest magnitude an increment may have; symmetric, so that every
/// increment has a representable negation.
pub const INC_CLAMP: i128 = 0x7fff_ffff_ffff_ffff;

/// Clamp `x` into the symmetric interval `[-b, b]`.
pub open spec fn clamp_sym(x: int, b: int) -> int {
    if x > b {
        b
    } else if x < -b {
        -b
    } else {
        x
    }
}

/// Division truncating toward zero (the behaviour of hardware signed
/// division), defined for a positive divisor.
pub open spec fn div_trunc(x: int, d: int) -> int
    recommends
        d > 0,
{
    if x >= 0 {
        x / d
    } else {
        -((-x) / d)
    }
}

/// The scaled increment that one integrator sub-step adds to one state
/// component: `d * (c * a) / k`, with the inner product clamped so the outer
/// product fits in `i128`, and the quotient clamped into `i64` symmetrically.
pub open spec fn scaled_inc(d: int, c: int, a: int, k: int) -> int
    recommends
        k > 0,
{
    clamp_sym(div_trunc(d * clamp_sym(c * a, PRODUCT_CLAMP as int), k), INC_CLAMP as int)
}

/// Truncating division of `x` by the positive divisor `k`.
pub fn div_trunc_i128(x: i128, k: i128) -> (r: i128)
    requires
        k > 0,
        x > i128::MIN,
    ensures
        r == div_trunc(x as int, k as int),
        -abs_int(x as int) <= r <= abs_int(x as int),
{
    if x >= 0 {
        let q: u128 = (x as u128) / (k as u128);
        proof {
            vstd::arithmetic::div_mod::lemma_div_is_ordered_by_denominator(x as int, 1, k as int);
            vstd::arithmetic::div_mod::lemma_div_basics(x as int);
            vstd::arithmetic::div_mod::lemma_div_pos_is_pos(x as int, k as int);
        }
        q as i128
    } else {
        let xa: u128 = (-x) as u128;
        let q: u128 = xa / (k as u128);
        proof {
            vstd::arithmetic::div_mod::lemma_div_is_ordered_by_denominator(xa as int, 1, k as int);
            vstd::arithmetic::div_mod::lemma_div_basics(xa as int);
            vstd::arithmetic::div_mod::lemma_div_pos_is_pos(xa as int, k as int);
        }
        -(q as i128)
    }
}

/// Absolute value of a mathematical integer.
pub open spec fn abs_int(x: int) -> int {
    if x >= 0 {
        x
    } else {
        -x
    }
}

/// One sub-step increment: `d * (c * a) / k`, computed exactly as
/// `scaled_inc` describes.  `d` is a derivative entry, `c` a composition
/// coefficient numerator, `a` the signed step, and `k` the combined
/// denominator of the coefficient scale and the unit conversions.
pub fn scale_mul_div(d: i64, c: i64, a: i64, k: i128) -> (r: i64)
    requires
        -2_000_000 <= c <= 2_000_000,
        0 < k <= 2_000_000_000_000_000_000_000,
    ensures
        r as int == scaled_inc(d as int, c as int, a as int, k as int),
        -INC_CLAMP <= r as int <= INC_CLAMP,
{
    proof {
        lemma_mul_bound_128(c as int, a as int, 2_000_000, i64::MAX as int + 1);
    }
    let p: i128 = (c as i128) * (a as i128);
    let m: i128 = if p > PRODUCT_CLAMP {
        PRODUCT_CLAMP
    } else if p < -PRODUCT_CLAMP {
        -PRODUCT_CLAMP
    } else {
        p
    };
    proof {
        lemma_mul_bound_128(d as int, m as int, i64::MAX as int + 1, PRODUCT_CLAMP as int);
    }
    let dm: i128 = (d as i128) * m;
    let q: i128 = div_trunc_i128(dm, k);
    if q > INC_CLAMP {
        INC_CLAMP as i64
    } else if q < -INC_CLAMP {
        (-INC_CLAMP) as i64
    } else {
        q as i64
    }
}

/// `|x| <= bx` and `|y| <= by` bound the product by `bx * by`.
pub proof fn lemma_mul_bound_128(x: int, y: int, bx: int, by: int)
    requires
        -bx <= x <= bx,
        -by <= y <= by,
        0 <= bx,
        0 <= by,
    ensures
        -(bx * by) <= x * y <= bx * by,
{
    assert(-(bx * by) <= x * y <= bx * by) by (nonlinear_arith)
        requires
            -bx <= x <= bx,
            -by <= y <= by,
            0 <= bx,
            0 <= by,
    ;
}

/// Truncating division commutes with negation of the dividend.
pub proof fn lemma_div_trunc_antisym(x: int, d: int)
    requires
        d > 0,
    ensures
        div_trunc(-x, d) == -div_trunc(x, d),
{
    if x == 0 {
        assert(div_trunc(0, d) == 0int / d);
        assert(0int / d == 0) by (nonlinear_arith)
            requires
                d > 0,
        ;
    }
}

/// The whole sub-step increment commutes with negation of the step.
pub proof fn lemma_scaled_inc_antisym(d: int, c: int, a: int, k: int)
    requires
        k > 0,
    ensures
        scaled_inc(d, c, -a, k) == -scaled_inc(d, c, a, k),
{
    assert(c * -a == -(c * a)) by (nonlinear_arith);
    assert(clamp_sym(-(c * a), PRODUCT_CLAMP as int) == -clamp_sym(c * a, PRODUCT_CLAMP as int));
    let m = clamp_sym(c * a, PRODUCT_CLAMP as int);
    assert(d * -m == -(d * m)) by (nonlinear_arith);
    lemma_div_trunc_antisym(d * m, k);
}

/// With `|c| <= den`, the truncated quotient `c * a / den` is bounded by
/// `|a|`.
pub proof fn lemma_coeff_quot_bound(c: int, a: int, den: int)
    requires
        den > 0,
        -den <= c <= den,
    ensures
        -abs_int(a) <= div_trunc(c * a, den) <= abs_int(a),
{
    let p = c * a;
    let ap = abs_int(p);
    assert(ap <= den * abs_int(a)) by (nonlinear_arith)
        requires
            -den <= c <= den,
            den > 0,
            p == c * a,
            ap == abs_int(p),
            abs_int(a) >= 0,
            (a >= 0 ==> abs_int(a) == a) && (a < 0 ==> abs_int(a) == -a),
            (p >= 0 ==> abs_int(p) == p) && (p < 0 ==> abs_int(p) == -p),
    ;
    vstd::arithmetic::div_mod::lemma_div_is_ordered(ap, den * abs_int(a), den);
    vstd::arithmetic::div_mod::lemma_div_multiples_vanish(abs_int(a), den);
    vstd::arithmetic::div_mod::lemma_div_pos_is_pos(ap, den);
    assert(ap / den <= abs_int(a));
    if p >= 0 {
        assert(div_trunc(p, den) == p / den);
        assert(ap == p);
    } else {
        assert(div_trunc(p, den) == -((-p) / den));
        assert(ap == -p);
    }
}

/// A truncating quotient of a `d * q`-bounded dividend is `q`-bounded.
pub proof fn lemma_div_trunc_range(x: int, d: int, q: int)
    requires
        0 < d,
        0 <= q,
        -(d * q) <= x <= d * q,
    ensures
        -q <= div_trunc(x, d) <= q,
{
    vstd::arithmetic::div_mod::lemma_div_multiples_vanish(q, d);
    if x >= 0 {
        vstd::arithmetic::div_mod::lemma_div_is_ordered(x, d * q, d);
        vstd::arithmetic::div_mod::lemma_div_pos_is_pos(x, d);
    } else {
        vstd::arithmetic::div_mod::lemma_div_is_ordered(-x, d * q, d);
        vstd::arithmetic::div_mod::lemma_div_pos_is_pos(-x, d);
    }
}

/// Adding an increment with `wrapping_add` and then adding its negation
/// restores the original value, for every increment above `i64::MIN`.
pub proof fn lemma_wrapping_add_inverse(p: i64, d: i64)
    requires
        d > i64::MIN,
    ensures
        p.wrapping_add(d).wrapping_add((-(d as int)) as i64) == p,
{
}

/// 64-bit wrapping addition over mathematical integers in `i64` range.
pub open spec fn wadd64(a: int, b: int) -> int
    recommends
        i64::MIN <= a <= i64::MAX,
        i64::MIN <= b <= i64::MAX,
{
    vstd::wrapping::i64_specs::wrapping_add(a as i64, b as i64) as int
}

/// 64-bit wrapping subtraction over mathematical integers in `i64` range.
pub open spec fn wsub64(a: int, b: int) -> int
    recommends
        i64::MIN <= a <= i64::MAX,
        i64::MIN <= b <= i64::MAX,
{
    vstd::wrapping::i64_specs::wrapping_sub(a as i64, b as i64) as int
}

/// The integer square root as a mathematical function.
pub open spec fn sqrt_floor(x: int) -> int {
    choose|r: int| 0 <= r && #[trigger] (r * r) <= x && (r + 1) * (r + 1) > x
}

/// Any `r` with `r * r <= x < (r + 1)^2` is `sqrt_floor(x)`.
pub proof fn lemma_sqrt_floor_is(x: int, r: int)
    requires
        0 <= r,
        r * r <= x,
        (r + 1) * (r + 1) > x,
    ensures
        sqrt_floor(x) == r,
{
    assert(exists|q: int| 0 <= q && #[trigger] (q * q) <= x && (q + 1) * (q + 1) > x) by {
        assert(0 <= r && r * r <= x && (r + 1) * (r + 1) > x);
    }
    let rc = sqrt_floor(x);
    assert(0 <= rc && rc * rc <= x && (rc + 1) * (rc + 1) > x);
    if rc < r {
        assert((rc + 1) * (rc + 1) <= r * r) by (nonlinear_arith)
            requires
                0 <= rc,
                rc < r,
        ;
    } else if rc > r {
        assert((r + 1) * (r + 1) <= rc * rc) by (nonlinear_arith)
            requires
                0 <= r,
                r < rc,
        ;
    }
}

/// Integer square root: the largest `r` with `r * r <= x`.
pub fn isqrt_u128(x: u128) -> (r: u128)
    ensures
        r * r <= x,
        (r + 1) * (r + 1) > x,
        r < 0x1_0000_0000_0000_0000,
{
    let mut lo: u128 = 0;
    let mut hi: u128 = 0x1_0000_0000_0000_0000;
    proof {
        assert((0x1_0000_0000_0000_0000 as int) * (0x1_0000_0000_0000_0000 as int) > x as int)
            by (nonlinear_arith)
            requires
                x <= u128::MAX,
        ;
    }
    while hi - lo > 1
        invariant
            0 <= lo < hi <= 0x1_0000_0000_0000_0000,
            lo * lo <= x,
            hi * hi > x,
        decreases hi - lo,
    {
        let mid: u128 = lo + (hi - lo) / 2;
        proof {
            assert(lo < mid < hi);
            assert(mid * mid <= u128::MAX) by (nonlinear_arith)
                requires
                    0 <= mid < 0x1_0000_0000_0000_0000,
            ;
        }
        if mid * mid <= x {
            lo = mid;
        } else {
            hi = mid;
        }
    }
    lo
}

} // verus!
