//! Integer helpers shared by the layout engine: an exact integer square
//! root and clamping, with their specification-level counterparts.

use vstd::prelude::*;

verus! {

/// `r` is the floor of the square root of `n`.
pub open spec fn is_isqrt(n: int, r: int) -> bool {
    0 <= r && r * r <= n && n < (r + 1) * (r + 1)
}

/// The floor of the square root of `n` (for `n >= 0`).
pub open spec fn isqrt_spec(n: int) -> int {
    choose|r: int| is_isqrt(n, r)
}

/// Every nonnegative integer has an integer square root.
pub proof fn lemma_isqrt_exists(n: int)
    requires
        n >= 0,
    ensures
        is_isqrt(n, isqrt_spec(n)),
    decreases n,
{
    if n == 0 {
        assert(is_isqrt(0, 0));
    } else {
        lemma_isqrt_exists(n - 1);
        let r = isqrt_spec(n - 1);
        if n < (r + 1) * (r + 1) {
            assert(is_isqrt(n, r));
        } else {
            assert(n == (r + 1) * (r + 1));
            assert((r + 1) * (r + 1) < (r + 2) * (r + 2)) by (nonlinear_arith)
                requires r >= 0;
            assert(is_isqrt(n, r + 1));
        }
        assert(exists|q: int| is_isqrt(n, q));
    }
}

/// The integer square root is unique.
pub proof fn lemma_isqrt_unique(n: int, r: int)
    requires
        is_isqrt(n, r),
    ensures
        r == isqrt_spec(n),
{
    assert(exists|q: int| is_isqrt(n, q));
    let s = isqrt_spec(n);
    assert(is_isqrt(n, s));
    if r < s {
        assert((r + 1) * (r + 1) <= s * s) by (nonlinear_arith)
            requires 0 <= r, r < s;
        assert(false);
    }
    if s < r {
        assert((s + 1) * (s + 1) <= r * r) by (nonlinear_arith)
            requires 0 <= s, s < r;
        assert(false);
    }
}

/// Floor of the square root, by binary search.
pub fn isqrt(n: u64) -> (r: u64)
    ensures
        is_isqrt(n as int, r as int),
        r as int == isqrt_spec(n as int),
{
    let mut lo: u64 = 0;
    let mut hi: u64 = 4294967296;
    assert((4294967296int) * (4294967296int) > u64::MAX);
    while lo + 1 < hi
        invariant
            lo < hi,
            hi <= 4294967296,
            (lo as int) * (lo as int) <= n as int,
            (n as int) < (hi as int) * (hi as int),
        decreases hi - lo,
    {
        let mid: u64 = lo + (hi - lo) / 2;
        assert(lo < mid && mid < hi);
        assert((mid as int) * (mid as int) < (4294967296int) * (4294967296int)) by (nonlinear_arith)
            requires mid < 4294967296;
        let sq: u128 = (mid as u128) * (mid as u128);
        if sq <= n as u128 {
            lo = mid;
        } else {
            hi = mid;
        }
    }
    assert(hi == lo + 1);
    proof {
        lemma_isqrt_unique(n as int, lo as int);
    }
    lo
}

/// Absolute value, at the specification level.
pub open spec fn abs_i(x: int) -> int {
    if x < 0 { -x } else { x }
}

/// Sign of an integer: -1, 0 or 1.
pub open spec fn sgn_i(x: int) -> int {
    if x > 0 { 1 } else if x < 0 { -1 } else { 0 }
}

/// Clamp `x` into the symmetric interval `[-m, m]`.
pub open spec fn clamp_i(x: int, m: int) -> int {
    if x > m { m } else if x < -m { -m } else { x }
}

} // verus!
