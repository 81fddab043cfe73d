//! Fixed-point arithmetic: truncating division, integer square root and
//! hypotenuse, with exact mathematical specifications.
use vstd::prelude::*;

use vstd::arithmetic::div_mod::{
    lemma_div_nonincreasing, lemma_div_pos_is_pos, lemma_fundamental_div_mod,
};

verus! {

/// Division rounding toward zero (the semantics of `/` on Rust's signed
/// integers), defined for a positive divisor.
pub open spec fn tdiv(a: int, b: int) -> int
    recommends
        b > 0,
{
    if a >= 0 {
        a / b
    } else {
        -((-a) / b)
    }
}

/// Truncating division never moves away from zero, and never past `a`.
pub proof fn lemma_tdiv_bounds(a: int, b: int)
    requires
        b > 0,
    ensures
        a >= 0 ==> 0 <= tdiv(a, b) <= a,
        a < 0 ==> a <= tdiv(a, b) <= 0,
{
    if a >= 0 {
        lemma_div_pos_is_pos(a, b);
        lemma_div_nonincreasing(a, b);
    } else {
        lemma_div_pos_is_pos(-a, b);
        lemma_div_nonincreasing(-a, b);
    }
}

/// The truncation error `a - b * tdiv(a, b)` is smaller than `b` in
/// magnitude and has the sign of `a`.
pub proof fn lemma_tdiv_error(a: int, b: int)
    requires
        b > 0,
    ensures
        -b < a - b * tdiv(a, b) < b,
        a >= 0 ==> 0 <= a - b * tdiv(a, b),
        a < 0 ==> a - b * tdiv(a, b) <= 0,
{
    if a >= 0 {
        lemma_fundamental_div_mod(a, b);
        assert(a == b * (a / b) + a % b);
    } else {
        lemma_fundamental_div_mod(-a, b);
        assert(-a == b * ((-a) / b) + (-a) % b);
        assert(b * -((-a) / b) == -(b * ((-a) / b))) by (nonlinear_arith);
    }
}

/// If `|a| <= k * b` then `|tdiv(a, b)| <= k`.
pub proof fn lemma_tdiv_magnitude(a: int, b: int, k: int)
    requires
        b > 0,
        k >= 0,
        -(k * b) <= a <= k * b,
    ensures
        -k <= tdiv(a, b) <= k,
{
    lemma_tdiv_error(a, b);
    let q = tdiv(a, b);
    if q > k {
        assert(b * q >= b * (k + 1)) by (nonlinear_arith)
            requires
                b > 0,
                q >= k + 1,
        ;
        assert(b * (k + 1) == k * b + b) by (nonlinear_arith);
        assert(false);
    }
    if q < -k {
        assert(b * q <= b * (-k - 1)) by (nonlinear_arith)
            requires
                b > 0,
                q <= -k - 1,
        ;
        assert(b * (-k - 1) == -(k * b) - b) by (nonlinear_arith);
        assert(false);
    }
}

/// A product is bounded by the product of the bounds.
pub proof fn lemma_mul_le(x: int, bx: int, y: int, by: int)
    requires
        -bx <= x <= bx,
        -by <= y <= by,
        0 <= bx,
        0 <= by,
    ensures
        -(bx * by) <= x * y <= bx * by,
{
    assert(-(bx * by) <= x * y <= bx * by) by (nonlinear_arith)
        requires
            -bx <= x <= bx,
            -by <= y <= by,
            0 <= bx,
            0 <= by,
    ;
}

/// Truncating division of `i64` values, with a positive divisor.
pub fn div_trunc(a: i64, b: i64) -> (r: i64)
    requires
        b > 0,
    ensures
        r as int == tdiv(a as int, b as int),
{
    proof {
        lemma_tdiv_bounds(a as int, b as int);
    }
    match a.checked_div(b) {
        Some(q) => q,
        None => {
            proof {
                assert(false);
            }
            0
        },
    }
}

/// `r` is the integer square root of `n`, rounded down.
pub open spec fn is_sqrt_floor(n: int, r: int) -> bool {
    0 <= r && r * r <= n && n < (r + 1) * (r + 1)
}

/// The integer square root, rounded down, as a mathematical function.
pub closed spec fn sqrt_floor(n: int) -> int {
    choose|r: int| is_sqrt_floor(n, r)
}

/// At most one integer is the rounded-down square root of `n`.
pub proof fn lemma_sqrt_floor_unique(n: int, a: int, b: int)
    requires
        is_sqrt_floor(n, a),
        is_sqrt_floor(n, b),
    ensures
        a == b,
{
    if a < b {
        assert((a + 1) * (a + 1) <= b * b) by (nonlinear_arith)
            requires
                0 <= a,
                a + 1 <= b,
        ;
    }
    if b < a {
        assert((b + 1) * (b + 1) <= a * a) by (nonlinear_arith)
            requires
                0 <= b,
                b + 1 <= a,
        ;
    }
}

/// A witness pins down the value of `sqrt_floor`.
pub proof fn lemma_sqrt_floor_is(n: int, r: int)
    requires
        is_sqrt_floor(n, r),
    ensures
        sqrt_floor(n) == r,
{
    assert(is_sqrt_floor(n, sqrt_floor(n))) by {
        assert(exists|x: int| is_sqrt_floor(n, x));
    }
    lemma_sqrt_floor_unique(n, sqrt_floor(n), r);
}

/// `sqrt_floor` is monotone against squares: anything whose square fits
/// under `n` is at most `sqrt_floor(n)`, and `n` stays under the square of
/// anything larger.
pub proof fn lemma_sqrt_floor_compare(n: int, k: int)
    requires
        is_sqrt_floor(n, sqrt_floor(n)),
        0 <= k,
    ensures
        k * k <= n ==> k <= sqrt_floor(n),
        n < k * k ==> sqrt_floor(n) < k,
{
    let r = sqrt_floor(n);
    if k * k <= n && k > r {
        assert((r + 1) * (r + 1) <= k * k) by (nonlinear_arith)
            requires
                0 <= r,
                r + 1 <= k,
        ;
    }
    if n < k * k && r >= k {
        assert(k * k <= r * r) by (nonlinear_arith)
            requires
                0 <= k,
                k <= r,
        ;
    }
}

/// The integer square root of `n`, rounded down.
pub fn isqrt(n: u64) -> (r: u64)
    requires
        n < 0x4000000000000000u64,
    ensures
        is_sqrt_floor(n as int, r as int),
        r as int == sqrt_floor(n as int),
        r < 0x80000000u64,
{
    let mut lo: u64 = 0;
    let mut hi: u64 = 0x80000000u64;
    assert((0x80000000u64 + 1) * (0x80000000u64 + 1) > 0x4000000000000000u64);
    while lo < hi
        invariant
            lo <= hi,
            hi <= 0x80000000u64,
            (lo as int) * (lo as int) <= n as int,
            (n as int) < (hi as int + 1) * (hi as int + 1),
        decreases hi - lo,
    {
        let mid = lo + (hi - lo + 1) / 2;
        assert(lo < mid <= hi);
        assert((mid as int) * (mid as int) <= 0x4000000000000000) by (nonlinear_arith)
            requires
                0 <= mid <= 0x80000000u64,
        ;
        if mid * mid <= n {
            lo = mid;
        } else {
            hi = mid - 1;
        }
    }
    proof {
        assert((lo as int + 1) * (lo as int + 1) > n as int);
        lemma_sqrt_floor_is(n as int, lo as int);
        if lo >= 0x80000000u64 {
            assert((lo as int) * (lo as int) >= 0x4000000000000000) by (nonlinear_arith)
                requires
                    lo as int >= 0x80000000,
            ;
        }
    }
    lo
}

/// The fixed-point planar distance: the rounded-down square root of
/// `a * a + b * b`. Also the fixed-point form of `sqrt(x^2 + y^2)`, since the
/// scale factor passes through the square root of the squared sum.
pub fn hypot_fx(a: i64, b: i64) -> (r: i64)
    requires
        (a as int) * (a as int) + (b as int) * (b as int) < 0x4000000000000000i64,
    ensures
        r as int == sqrt_floor((a as int) * (a as int) + (b as int) * (b as int)),
        is_sqrt_floor((a as int) * (a as int) + (b as int) * (b as int), r as int),
        0 <= r < 0x80000000i64,
        a >= 0 ==> a <= r,
        a < 0 ==> -a <= r,
        b >= 0 ==> b <= r,
        b < 0 ==> -b <= r,
{
    proof {
        assert((a as int) * (a as int) >= 0) by (nonlinear_arith);
        assert((b as int) * (b as int) >= 0) by (nonlinear_arith);
    }
    let aa = a * a;
    let bb = b * b;
    let s = (aa as u64) + (bb as u64);
    let r = isqrt(s);
    proof {
        lemma_sqrt_floor_compare(s as int, if a >= 0 { a as int } else { -a as int });
        assert((a as int) * (a as int) == (-a as int) * (-a as int)) by (nonlinear_arith);
        lemma_sqrt_floor_compare(s as int, if b >= 0 { b as int } else { -b as int });
        assert((b as int) * (b as int) == (-b as int) * (-b as int)) by (nonlinear_arith);
    }
    r as i64
}

} // verus!
