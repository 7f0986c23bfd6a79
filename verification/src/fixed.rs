//! Decimal fixed-point scalars.
//!
//! Every numeric value the indicators work with is a `Fixed`: an `i128`
//! mantissa denoting `m / SCALE` units, so nine decimal places are carried
//! exactly.  Raw input values are `Scalar`s, which in addition to finite
//! numbers can hold the two ill-formed classes (`NaN`, `Infinite`) that
//! validation rejects.
//!
//! All divisions in this crate round toward zero; `tdiv` is the single
//! specification of that rounding and the lemmas here are the facts the
//! indicator proofs need about it.

use vstd::arithmetic::div_mod::{
    lemma_div_is_ordered, lemma_div_multiples_vanish, lemma_div_nonincreasing,
    lemma_div_pos_is_pos, lemma_fundamental_div_mod,
};
use vstd::prelude::*;

verus! {

/// Mantissa units per whole unit: values carry nine decimal places.
pub const SCALE: i128 = 1_000_000_000;

/// Magnitude of a mathematical integer.
pub open spec fn iabs(a: int) -> int {
    if a >= 0 {
        a
    } else {
        -a
    }
}

/// Quotient of `a` by `b`, rounded toward zero (meaningful for `b != 0`).
/// This is the rounding used by every fixed-point division in the crate.
pub open spec fn tdiv(a: int, b: int) -> int {
    if (a >= 0) == (b >= 0) {
        iabs(a) / iabs(b)
    } else {
        -(iabs(a) / iabs(b))
    }
}

/// A finite fixed-point number: `m / SCALE` units.
#[derive(Clone, Copy, Debug, PartialEq, Eq, Structural)]
pub struct Fixed {
    pub m: i128,
}

impl Fixed {
    /// The fixed-point number equal to the integer `v`.
    pub fn from_int(v: i64) -> (r: Fixed)
        ensures
            r.m == v * SCALE,
    {
        Fixed { m: (v as i128) * SCALE }
    }

    /// The fixed-point number with mantissa `m`, that is `m / SCALE` units.
    pub fn from_scaled(m: i64) -> (r: Fixed)
        ensures
            r.m == m,
    {
        Fixed { m: m as i128 }
    }
}

/// A raw input scalar: a finite number, or one of the two ill-formed
/// classes that validation rejects.
#[derive(Clone, Copy, Debug, PartialEq, Eq, Structural)]
pub enum Scalar {
    Num(Fixed),
    NaN,
    Infinite,
}

impl Scalar {
    /// Mantissa of a finite scalar (zero on the ill-formed classes, which
    /// never reach a computation).
    pub open spec fn m_spec(self) -> int {
        match self {
            Scalar::Num(f) => f.m as int,
            _ => 0,
        }
    }

    /// The finite scalar equal to the integer `v`.
    pub fn from_int(v: i64) -> (r: Scalar)
        ensures
            r is Num,
            r.m_spec() == v * SCALE,
    {
        Scalar::Num(Fixed::from_int(v))
    }

    /// The finite scalar with mantissa `m`.
    pub fn from_scaled(m: i64) -> (r: Scalar)
        ensures
            r is Num,
            r.m_spec() == m,
    {
        Scalar::Num(Fixed::from_scaled(m))
    }
}

/// Division facts for a nonnegative dividend and positive divisor.
proof fn lemma_div_pos_facts(a: int, b: int)
    requires
        a >= 0,
        b >= 1,
    ensures
        0 <= a / b <= a,
        b * (a / b) <= a < b * (a / b) + b,
{
    lemma_fundamental_div_mod(a, b);
    lemma_div_pos_is_pos(a, b);
    lemma_div_nonincreasing(a, b);
}

/// Truncating division is an odd function of its dividend.
pub proof fn lemma_tdiv_neg(a: int, b: int)
    requires
        b != 0,
    ensures
        tdiv(-a, b) == -tdiv(a, b),
{
}

/// Truncating division never grows the magnitude: `|a / b| <= |a|`.
pub proof fn lemma_tdiv_mag(a: int, b: int)
    requires
        b != 0,
    ensures
        iabs(tdiv(a, b)) <= iabs(a),
        a >= 0 && b > 0 ==> 0 <= tdiv(a, b),
        a <= 0 && b > 0 ==> tdiv(a, b) <= 0,
{
    lemma_div_pos_facts(iabs(a), iabs(b));
}

/// Truncating division by a positive divisor is monotone in the dividend.
pub proof fn lemma_tdiv_mono(a1: int, a2: int, b: int)
    requires
        a1 <= a2,
        b >= 1,
    ensures
        tdiv(a1, b) <= tdiv(a2, b),
{
    lemma_div_pos_facts(iabs(a1), b);
    lemma_div_pos_facts(iabs(a2), b);
    if a1 >= 0 {
        lemma_div_is_ordered(a1, a2, b);
    } else if a2 < 0 {
        lemma_div_is_ordered(-a2, -a1, b);
    }
}

/// Dividing an exact multiple recovers the factor: `(q * b) / b == q`.
pub proof fn lemma_tdiv_exact(q: int, b: int)
    requires
        b >= 1,
    ensures
        tdiv(q * b, b) == q,
{
    if q >= 0 {
        assert(q * b >= 0 && q * b == b * q) by (nonlinear_arith)
            requires
                q >= 0 && b >= 1,
        ;
        lemma_div_multiples_vanish(q, b);
    } else {
        assert(q * b < 0 && (-(q * b)) == b * (-q)) by (nonlinear_arith)
            requires
                q < 0 && b >= 1,
        ;
        lemma_div_multiples_vanish(-q, b);
    }
}

/// A dividend between `lo * b` and `hi * b` divides to between `lo` and `hi`.
pub proof fn lemma_tdiv_range(a: int, b: int, lo: int, hi: int)
    requires
        b >= 1,
        lo * b <= a <= hi * b,
    ensures
        lo <= tdiv(a, b) <= hi,
{
    lemma_tdiv_exact(lo, b);
    lemma_tdiv_exact(hi, b);
    lemma_tdiv_mono(lo * b, a, b);
    lemma_tdiv_mono(a, hi * b, b);
}

/// Scaling a truncated quotient back up never exceeds the dividend.
pub proof fn lemma_tdiv_mul_le(a: int, b: int)
    requires
        a >= 0,
        b >= 1,
    ensures
        0 <= b * tdiv(a, b) <= a,
{
    lemma_div_pos_facts(a, b);
}

/// One exponential-smoothing step with factor `alpha / SCALE` lands
/// between the previous value and the new observation, so recurrences
/// built on it never leave the range of their inputs.
pub proof fn lemma_step_toward(p: int, x: int, alpha: int)
    requires
        0 <= alpha <= SCALE as int,
    ensures
        p <= x ==> p <= p + tdiv(alpha * (x - p), SCALE as int) <= x,
        x <= p ==> x <= p + tdiv(alpha * (x - p), SCALE as int) <= p,
{
    let sc = SCALE as int;
    if p <= x {
        assert(0 * sc <= alpha * (x - p) <= (x - p) * sc) by (nonlinear_arith)
            requires
                0 <= alpha <= sc && x - p >= 0,
        ;
        lemma_tdiv_range(alpha * (x - p), sc, 0, x - p);
    } else {
        assert((x - p) * sc <= alpha * (x - p) <= 0 * sc) by (nonlinear_arith)
            requires
                0 <= alpha <= sc && x - p < 0,
        ;
        lemma_tdiv_range(alpha * (x - p), sc, x - p, 0);
    }
}

/// Integer square root: the largest `r` with `r * r <= n` (zero for a
/// nonpositive `n`).
pub open spec fn sqrt_floor(n: int) -> int
    decreases n,
{
    if n <= 0 {
        0
    } else {
        let r = sqrt_floor(n - 1);
        if (r + 1) * (r + 1) <= n {
            r + 1
        } else {
            r
        }
    }
}

/// `sqrt_floor(n)` squares to at most `n`, and is the largest such value.
pub proof fn lemma_sqrt_floor_props(n: int)
    requires
        n >= 0,
    ensures
        sqrt_floor(n) >= 0,
        sqrt_floor(n) * sqrt_floor(n) <= n,
        (sqrt_floor(n) + 1) * (sqrt_floor(n) + 1) > n,
    decreases n,
{
    if n > 0 {
        lemma_sqrt_floor_props(n - 1);
        let r = sqrt_floor(n - 1);
        if (r + 1) * (r + 1) <= n {
            assert((r + 2) * (r + 2) > n) by (nonlinear_arith)
                requires
                    r >= 0 && (r + 1) * (r + 1) > n - 1 && (r + 1) * (r + 1) <= n,
            ;
        }
    }
}

/// Any `r` whose square is at most `n` while `(r + 1)` squares above it is
/// the integer square root.
pub proof fn lemma_sqrt_floor_unique(n: int, r: int)
    requires
        n >= 0,
        r >= 0,
        r * r <= n,
        (r + 1) * (r + 1) > n,
    ensures
        r == sqrt_floor(n),
{
    lemma_sqrt_floor_props(n);
    let q = sqrt_floor(n);
    if r < q {
        assert(q * q > n) by (nonlinear_arith)
            requires
                0 <= r < q && (r + 1) * (r + 1) > n,
        ;
    } else if q < r {
        assert(r * r > n) by (nonlinear_arith)
            requires
                0 <= q < r && (q + 1) * (q + 1) > n,
        ;
    }
}

/// Integer square root of a mantissa-squared quantity, by bisection.
pub(crate) fn isqrt_u128(n: u128) -> (r: u128)
    ensures
        r as int == sqrt_floor(n as int),
{
    let mut lo: u128 = 0;
    let mut hi: u128 = 0xffff_ffff_ffff_ffff;
    proof {
        assert((hi as int + 1) * (hi as int + 1) > u128::MAX as int) by (nonlinear_arith)
            requires
                hi as int == 0xffff_ffff_ffff_ffff,
        ;
    }
    while lo < hi
        invariant
            lo <= hi <= 0xffff_ffff_ffff_ffff,
            (lo as int) * (lo as int) <= n as int,
            (hi as int + 1) * (hi as int + 1) > n as int,
        decreases hi - lo,
    {
        let mid = lo + (hi - lo + 1) / 2;
        proof {
            assert(lo < mid <= hi) by {
                assert(1 <= (hi - lo + 1) / 2 <= hi - lo) by (nonlinear_arith)
                    requires
                        1 <= hi - lo <= u128::MAX as int,
                ;
            }
            assert((mid as int) * (mid as int) <= u128::MAX as int) by (nonlinear_arith)
                requires
                    0 <= mid as int <= 0xffff_ffff_ffff_ffff,
            ;
        }
        if mid * mid <= n {
            lo = mid;
        } else {
            hi = mid - 1;
        }
    }
    proof {
        lemma_sqrt_floor_unique(n as int, lo as int);
    }
    lo
}

/// Truncating division of two mantissas.
pub(crate) fn div_i128(a: i128, b: i128) -> (r: i128)
    requires
        b != 0,
        a != i128::MIN,
        b != i128::MIN,
    ensures
        r == tdiv(a as int, b as int),
{
    let ua: u128 = if a >= 0 {
        a as u128
    } else {
        (-a) as u128
    };
    let ub: u128 = if b >= 0 {
        b as u128
    } else {
        (-b) as u128
    };
    proof {
        assert(ua == iabs(a as int));
        assert(ub == iabs(b as int));
        lemma_div_pos_facts(ua as int, ub as int);
    }
    let uq: u128 = ua / ub;
    if (a >= 0) == (b >= 0) {
        uq as i128
    } else {
        -(uq as i128)
    }
}

} // verus!
