//! Fixed-point arithmetic.
//!
//! A quantity is stored as an `i64` equal to the real value times
//! [`SCALE`].  Intermediate products and sums are carried in `i128`.
//! Division truncates toward zero, as Rust's integer division does; the
//! spec function [`tdiv`] states that rounding exactly.

use vstd::prelude::*;

verus! {

/// Number of fixed-point units per whole unit.
pub const SCALE: i64 = 1_000_000;

/// Largest magnitude a stored value may have.
pub const VMAX: i64 = 0x2000_0000_0000;

/// Largest number of observations (matrix columns) the engine accepts.
pub const NMAX: usize = 0x10_0000;

/// Largest number of variables (matrix rows) the engine accepts.
pub const KMAX: usize = 0x400;

/// Truncated (round-toward-zero) integer division, the rounding used by
/// every fixed-point quotient in this crate.  In spec code `/` is
/// Euclidean division, so the negative cases are written out.
pub open spec fn tdiv(a: int, b: int) -> int
    recommends
        b != 0,
{
    if a == 0 {
        0
    } else if a > 0 && b > 0 {
        a / b
    } else if a < 0 && b < 0 {
        (a * -1) / (b * -1)
    } else if a < 0 {
        ((a * -1) / b) * -1
    } else {
        (a / (b * -1)) * -1
    }
}

/// Magnitude of an integer.
pub open spec fn iabs(a: int) -> int {
    if a >= 0 {
        a
    } else {
        -a
    }
}

/// `r` is the integer square root of `x`.
pub open spec fn is_sqrt(x: int, r: int) -> bool {
    &&& 0 <= r
    &&& r * r <= x
    &&& x < (r + 1) * (r + 1)
}

/// The integer square root of a non-negative `x`.
pub open spec fn sqrt_of(x: int) -> int {
    choose|r: int| is_sqrt(x, r)
}

/// An integer has at most one integer square root.
pub proof fn lemma_sqrt_unique(x: int, a: int, b: int)
    requires
        is_sqrt(x, a),
        is_sqrt(x, b),
    ensures
        a == b,
{
    if a < b {
        assert((a + 1) * (a + 1) <= b * b) by (nonlinear_arith)
            requires
                0 <= a,
                a + 1 <= b,
        ;
    }
    if b < a {
        assert((b + 1) * (b + 1) <= a * a) by (nonlinear_arith)
            requires
                0 <= b,
                b + 1 <= a,
        ;
    }
}

/// Truncated division of `i128` values, with the quotient proved to be
/// exactly [`tdiv`] of the operands.
pub fn div_i128(a: i128, b: i128) -> (r: i128)
    requires
        b != 0,
        a > i128::MIN,
    ensures
        r == tdiv(a as int, b as int),
{
    proof {
        lemma_tdiv_bound(a as int, b as int);
    }
    let q = a.checked_div(b);
    q.unwrap()
}

/// The magnitude of a truncated quotient never exceeds the magnitude of
/// the dividend.
pub proof fn lemma_tdiv_bound(a: int, b: int)
    requires
        b != 0,
    ensures
        iabs(tdiv(a, b)) <= iabs(a),
        1 <= iabs(b) ==> iabs(tdiv(a, b)) * iabs(b) <= iabs(a),
{
    let aa = iabs(a);
    let ab = iabs(b);
    if a == 0 {
        assert(iabs(tdiv(a, b)) * iabs(b) == 0) by (nonlinear_arith)
            requires
                iabs(tdiv(a, b)) == 0,
        ;
    }
    if a != 0 {
        vstd::arithmetic::div_mod::lemma_div_pos_is_pos(aa, ab);
        vstd::arithmetic::div_mod::lemma_div_is_ordered_by_denominator(aa, 1, ab);
        vstd::arithmetic::div_mod::lemma_div_basics(aa);
        vstd::arithmetic::div_mod::lemma_fundamental_div_mod(aa, ab);
        vstd::arithmetic::div_mod::lemma_mod_bound(aa, ab);
        assert(iabs(tdiv(a, b)) == aa / ab);
        assert((aa / ab) * ab <= aa) by (nonlinear_arith)
            requires
                aa == ab * (aa / ab) + aa % ab,
                aa % ab >= 0,
        ;
    }
}

/// Integer square root by binary search.
pub fn isqrt(x: i128) -> (r: i128)
    requires
        0 <= x,
    ensures
        is_sqrt(x as int, r as int),
        r as int == sqrt_of(x as int),
{
    let mut lo: i128 = 0;
    let mut hi: i128 = 0xB504_F333_F9DE_6485;
    proof {
        assert(0xB504_F333_F9DE_6485int * 0xB504_F333_F9DE_6485int > i128::MAX);
        assert(0xB504_F333_F9DE_6484int * 0xB504_F333_F9DE_6484int <= i128::MAX);
    }
    while lo + 1 < hi
        invariant
            0 <= lo < hi <= 0xB504_F333_F9DE_6485,
            lo * lo <= x,
            hi * hi > x,
        decreases hi - lo,
    {
        let mid = lo + (hi - lo) / 2;
        assert(lo < mid < hi);
        proof {
            assert(0xB504_F333_F9DE_6484int * 0xB504_F333_F9DE_6484int <= i128::MAX);
            assert(mid * mid <= 0xB504_F333_F9DE_6484int * 0xB504_F333_F9DE_6484int)
                by (nonlinear_arith)
                requires
                    0 <= mid <= 0xB504_F333_F9DE_6484int,
            ;
        }
        let sq = mid * mid;
        if sq <= x {
            lo = mid;
        } else {
            hi = mid;
        }
    }
    proof {
        assert(is_sqrt(x as int, lo as int));
        lemma_sqrt_exact(x as int, lo as int);
    }
    lo
}

/// Every non-negative integer has an integer square root.
pub proof fn lemma_sqrt_exists(x: int)
    requires
        0 <= x,
    ensures
        is_sqrt(x, sqrt_of(x)),
    decreases x,
{
    if x == 0 {
        assert(is_sqrt(0, 0));
    } else {
        lemma_sqrt_exists(x - 1);
        let r = sqrt_of(x - 1);
        if x < (r + 1) * (r + 1) {
            assert(is_sqrt(x, r));
        } else {
            assert(x == (r + 1) * (r + 1)) by (nonlinear_arith)
                requires
                    is_sqrt(x - 1, r),
                    x >= (r + 1) * (r + 1),
            ;
            assert(is_sqrt(x, r + 1)) by (nonlinear_arith)
                requires
                    x == (r + 1) * (r + 1),
                    r >= 0,
            ;
        }
    }
    assert(is_sqrt(x, sqrt_of(x)));
}

/// Truncated division leaves a remainder smaller than the divisor.
pub proof fn lemma_tdiv_remainder(a: int, b: int)
    requires
        b >= 1,
    ensures
        iabs(a - b * tdiv(a, b)) <= b - 1,
{
    let aa = iabs(a);
    vstd::arithmetic::div_mod::lemma_fundamental_div_mod(aa, b);
    vstd::arithmetic::div_mod::lemma_mod_bound(aa, b);
    if a >= 0 {
        assert(a - b * tdiv(a, b) == a % b);
    } else {
        assert(aa == a * -1);
        assert(tdiv(a, b) == ((a * -1) / b) * -1);
        assert(a - b * tdiv(a, b) == -(aa - b * (aa / b))) by (nonlinear_arith)
            requires
                aa == -a,
                tdiv(a, b) == (aa / b) * -1,
        ;
        assert(aa - b * (aa / b) == aa % b);
    }
}

/// Once a witness square root is known, `sqrt_of` equals it.
pub proof fn lemma_sqrt_exact(x: int, r: int)
    requires
        is_sqrt(x, r),
    ensures
        sqrt_of(x) == r,
{
    assert(is_sqrt(x, sqrt_of(x)));
    lemma_sqrt_unique(x, sqrt_of(x), r);
}

} // verus!
