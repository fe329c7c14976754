//! Fixed-point scale and exact integer helpers: floor division and the
//! integer square root.
use vstd::prelude::*;

verus! {

/// One scene unit (and the value 1.0 of every dimensionless quantity)
/// in fixed-point steps.
pub const UNIT: i64 = 1048576;

/// The largest magnitude of a point coordinate, in fixed-point steps
/// (4096 scene units).
pub const COORD_LIMIT: i64 = 4294967296;

/// The largest magnitude of a direction component, in fixed-point steps.
pub const DIR_LIMIT: i64 = 2097152;

/// Every number whose square does not exceed `n`.
pub open spec fn is_isqrt(n: int, r: int) -> bool {
    0 <= r && r * r <= n && n < (r + 1) * (r + 1)
}

proof fn lemma_square_monotone(a: int, b: int)
    requires
        0 <= a <= b,
    ensures
        a * a <= b * b,
{
    assert(a * a <= b * b) by (nonlinear_arith)
        requires
            0 <= a <= b,
    ;
}

/// The integer square root is unique.
pub proof fn lemma_isqrt_unique(n: int, a: int, b: int)
    requires
        is_isqrt(n, a),
        is_isqrt(n, b),
    ensures
        a == b,
{
    if a < b {
        lemma_square_monotone(a + 1, b);
    } else if b < a {
        lemma_square_monotone(b + 1, a);
    }
}

/// The integer square root of `n`: the largest `r` with `r * r <= n`.
pub open spec fn spec_isqrt(n: int) -> int {
    choose|r: int| is_isqrt(n, r)
}

/// `spec_isqrt` is well defined for every number below the limit of `isqrt`.
pub proof fn lemma_spec_isqrt(n: int, r: int)
    requires
        is_isqrt(n, r),
    ensures
        spec_isqrt(n) == r,
{
    let s = spec_isqrt(n);
    assert(is_isqrt(n, s));
    lemma_isqrt_unique(n, r, s);
}

/// Every natural number has an integer square root.
pub proof fn lemma_isqrt_exists(n: int)
    requires
        n >= 0,
    ensures
        is_isqrt(n, spec_isqrt(n)),
    decreases n,
{
    if n == 0 {
        assert(is_isqrt(0, 0));
    } else {
        lemma_isqrt_exists(n - 1);
        let r = spec_isqrt(n - 1);
        if (r + 1) * (r + 1) <= n {
            assert(n < (r + 2) * (r + 2)) by (nonlinear_arith)
                requires
                    n - 1 < (r + 1) * (r + 1),
                    r >= 0,
            ;
            assert(is_isqrt(n, r + 1));
        } else {
            assert(is_isqrt(n, r));
        }
    }
}

/// Floor of the square root of `n`, by bisection.
pub fn isqrt(n: u128) -> (r: u128)
    requires
        n < 0x1000_0000_0000_0000_0000_0000_0000_0000,
    ensures
        is_isqrt(n as int, r as int),
        r as int == spec_isqrt(n as int),
{
    let mut lo: u128 = 0;
    let mut hi: u128 = 0x1_0000_0000_0000_0000;
    assert(hi * hi == 0x1_0000_0000_0000_0000_0000_0000_0000_0000);
    while hi - lo > 1
        invariant
            lo < hi <= 0x1_0000_0000_0000_0000,
            lo * lo <= n,
            n < hi * hi,
        decreases hi - lo,
    {
        let mid: u128 = lo + (hi - lo) / 2;
        assert(mid < hi);
        proof {
            lemma_square_monotone(mid as int, 0xffff_ffff_ffff_ffff);
        }
        if mid * mid <= n {
            lo = mid;
        } else {
            hi = mid;
        }
    }
    assert(hi == lo + 1);
    proof {
        lemma_spec_isqrt(n as int, lo as int);
    }
    lo
}

/// Floor division by a positive divisor (`a / b` rounds toward minus
/// infinity in specifications).
pub fn floor_div(a: i128, b: i128) -> (q: i128)
    requires
        b > 0,
        a > i128::MIN,
    ensures
        q == a / b,
{
    let ua: u128 = if a >= 0 { a as u128 } else { (-a) as u128 };
    let ub: u128 = b as u128;
    if a >= 0 {
        (ua / ub) as i128
    } else {
        let q0: u128 = ua / ub;
        let r0: u128 = ua % ub;
        proof {
            assert(ua == ub * q0 + r0) by (nonlinear_arith)
                requires
                    q0 == ua / ub,
                    r0 == ua % ub,
                    ub > 0,
            ;
            assert(q0 <= ua) by (nonlinear_arith)
                requires
                    q0 == ua / ub,
                    ub > 0,
            ;
        }
        if r0 == 0 {
            proof {
                assert(a == b * (-(q0 as int)) + 0) by (nonlinear_arith)
                    requires
                        a == -(ua as int),
                        ua == ub * q0 + r0,
                        r0 == 0,
                        ub == b,
                ;
                vstd::arithmetic::div_mod::lemma_fundamental_div_mod_converse(
                    a as int,
                    b as int,
                    -(q0 as int),
                    0,
                );
            }
            -(q0 as i128)
        } else {
            proof {
                assert(a == b * (-(q0 as int) - 1) + (b - r0)) by (nonlinear_arith)
                    requires
                        a == -(ua as int),
                        ua == ub * q0 + r0,
                        ub == b,
                ;
                vstd::arithmetic::div_mod::lemma_fundamental_div_mod_converse(
                    a as int,
                    b as int,
                    -(q0 as int) - 1,
                    b - r0,
                );
            }
            -(q0 as i128) - 1
        }
    }
}

} // verus!
