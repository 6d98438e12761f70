//! Exact fractional bounds and the comparisons the search performs against
//! them.
//!
//! A window bound (a target plus or minus a tolerance) is a fraction
//! `num / den` with a positive denominator.  Comparing an integer quantity, or
//! a scaled second moment, against such a bound is done by cross-multiplying
//! in `i128`, so no comparison ever rounds.

use vstd::prelude::*;

verus! {

/// Largest magnitude allowed for a bound's numerator.
pub const FRAC_NUM_LIMIT: i64 = 100_000_000_000;

/// Largest value allowed for a bound's denominator.
pub const FRAC_DEN_LIMIT: i64 = 1_000_000_000;

/// A fraction `num / den`; the window bounds of a search are given this way.
#[derive(Clone, Copy, PartialEq, Eq, Structural, Debug)]
pub struct Frac {
    pub num: i64,
    pub den: i64,
}

/// A usable bound: positive denominator, both parts within the limits that
/// keep every cross-multiplication inside `i128`.
pub open spec fn frac_wf(f: Frac) -> bool {
    &&& 0 < f.den <= FRAC_DEN_LIMIT
    &&& -FRAC_NUM_LIMIT <= f.num <= FRAC_NUM_LIMIT
}

/// The integer `x` is at least `f` (as rationals).
pub open spec fn int_ge_frac(x: int, f: Frac) -> bool {
    x * f.den >= f.num
}

/// The integer `x` is at most `f` (as rationals).
pub open spec fn int_le_frac(x: int, f: Frac) -> bool {
    x * f.den <= f.num
}

impl Frac {
    /// Build a checked bound from a numerator and a denominator.
    pub fn new(num: i64, den: i64) -> (r: Frac)
        requires
            0 < den <= FRAC_DEN_LIMIT,
            -FRAC_NUM_LIMIT <= num <= FRAC_NUM_LIMIT,
        ensures
            r.num == num,
            r.den == den,
            frac_wf(r),
    {
        Frac { num, den }
    }
}

/// Decides `x > f`, exactly.
pub fn int_gt_frac_exec(x: i64, f: &Frac) -> (r: bool)
    requires
        frac_wf(*f),
        -2_000_000_000 <= x <= 2_000_000_000,
    ensures
        r == !int_le_frac(x as int, *f),
{
    proof {
        assert(-2_000_000_000 * FRAC_DEN_LIMIT <= x * f.den <= 2_000_000_000 * FRAC_DEN_LIMIT)
            by (nonlinear_arith)
            requires
                -2_000_000_000 <= x <= 2_000_000_000,
                0 < f.den <= FRAC_DEN_LIMIT,
        ;
    }
    (x as i128) * (f.den as i128) > (f.num as i128)
}

/// Decides `x < f`, exactly.
pub fn int_lt_frac_exec(x: i64, f: &Frac) -> (r: bool)
    requires
        frac_wf(*f),
        -2_000_000_000 <= x <= 2_000_000_000,
    ensures
        r == !int_ge_frac(x as int, *f),
{
    proof {
        assert(-2_000_000_000 * FRAC_DEN_LIMIT <= x * f.den <= 2_000_000_000 * FRAC_DEN_LIMIT)
            by (nonlinear_arith)
            requires
                -2_000_000_000 <= x <= 2_000_000_000,
                0 < f.den <= FRAC_DEN_LIMIT,
        ;
    }
    (x as i128) * (f.den as i128) < (f.num as i128)
}

/// The projected sample standard deviation of a length-`k` prefix with
/// scaled accumulator `m2v` (that is, `sqrt((m2v / k) / (n - 1))`) exceeds
/// the bound `f`.  Cross-multiplied: `m2v / (k * (n-1)) > f^2`, which for a
/// non-negative `f` is `m2v * den^2 > num^2 * k * (n-1)`.
pub open spec fn proj_sd_gt_frac(m2v: int, k: int, n: int, f: Frac) -> bool {
    f.num < 0 || m2v * f.den * f.den > f.num * f.num * k * (n - 1)
}

/// The sample standard deviation of a full length-`n` sequence with scaled
/// accumulator `m2v` (that is, `sqrt((m2v / n) / (n - 1))`) is at least `f`.
pub open spec fn sd_ge_frac(m2v: int, n: int, f: Frac) -> bool {
    f.num <= 0 || m2v * f.den * f.den >= f.num * f.num * n * (n - 1)
}

/// The sample standard deviation of a full length-`n` sequence with scaled
/// accumulator `m2v` is at most `f`.
pub open spec fn sd_le_frac(m2v: int, n: int, f: Frac) -> bool {
    f.num >= 0 && m2v * f.den * f.den <= f.num * f.num * n * (n - 1)
}

/// Decides `proj_sd_gt_frac`, exactly, by comparison in `i128`.
pub fn proj_sd_gt_exec(m2v: i64, k: usize, n: usize, f: &Frac) -> (r: bool)
    requires
        frac_wf(*f),
        0 <= m2v <= 100_000_000_000_000_000,
        1 <= k <= n,
        2 <= n <= 10_000,
    ensures
        r == proj_sd_gt_frac(m2v as int, k as int, n as int, *f),
{
    if f.num < 0 {
        true
    } else {
        proof {
            assert(0 <= m2v * f.den <= 100_000_000_000_000_000 * FRAC_DEN_LIMIT)
                by (nonlinear_arith)
                requires
                    0 <= m2v <= 100_000_000_000_000_000,
                    0 < f.den <= FRAC_DEN_LIMIT,
            ;
            assert(0 <= (m2v * f.den) * f.den <= (100_000_000_000_000_000 * FRAC_DEN_LIMIT)
                * FRAC_DEN_LIMIT) by (nonlinear_arith)
                requires
                    0 <= m2v * f.den <= 100_000_000_000_000_000 * FRAC_DEN_LIMIT,
                    0 < f.den <= FRAC_DEN_LIMIT,
            ;
            assert(0 <= f.num * f.num <= FRAC_NUM_LIMIT * FRAC_NUM_LIMIT) by (nonlinear_arith)
                requires
                    0 <= f.num <= FRAC_NUM_LIMIT,
            ;
            assert(0 <= (f.num * f.num) * k <= (FRAC_NUM_LIMIT * FRAC_NUM_LIMIT) * 10_000)
                by (nonlinear_arith)
                requires
                    0 <= f.num * f.num <= FRAC_NUM_LIMIT * FRAC_NUM_LIMIT,
                    1 <= k <= 10_000,
            ;
            assert(0 <= ((f.num * f.num) * k) * (n - 1) <= ((FRAC_NUM_LIMIT * FRAC_NUM_LIMIT)
                * 10_000) * 10_000) by (nonlinear_arith)
                requires
                    0 <= (f.num * f.num) * k <= (FRAC_NUM_LIMIT * FRAC_NUM_LIMIT) * 10_000,
                    1 <= n - 1 <= 10_000,
            ;
        }
        let lhs: i128 = (m2v as i128) * (f.den as i128) * (f.den as i128);
        let rhs: i128 = (f.num as i128) * (f.num as i128) * (k as i128) * ((n - 1) as i128);
        lhs > rhs
    }
}

/// Decides `sd_ge_frac`, exactly, by comparison in `i128`.
pub fn sd_ge_exec(m2v: i64, n: usize, f: &Frac) -> (r: bool)
    requires
        frac_wf(*f),
        0 <= m2v <= 100_000_000_000_000_000,
        2 <= n <= 10_000,
    ensures
        r == sd_ge_frac(m2v as int, n as int, *f),
{
    if f.num <= 0 {
        true
    } else {
        proof {
            assert(0 <= m2v * f.den <= 100_000_000_000_000_000 * FRAC_DEN_LIMIT)
                by (nonlinear_arith)
                requires
                    0 <= m2v <= 100_000_000_000_000_000,
                    0 < f.den <= FRAC_DEN_LIMIT,
            ;
            assert(0 <= (m2v * f.den) * f.den <= (100_000_000_000_000_000 * FRAC_DEN_LIMIT)
                * FRAC_DEN_LIMIT) by (nonlinear_arith)
                requires
                    0 <= m2v * f.den <= 100_000_000_000_000_000 * FRAC_DEN_LIMIT,
                    0 < f.den <= FRAC_DEN_LIMIT,
            ;
            assert(0 <= f.num * f.num <= FRAC_NUM_LIMIT * FRAC_NUM_LIMIT) by (nonlinear_arith)
                requires
                    0 <= f.num <= FRAC_NUM_LIMIT,
            ;
            assert(0 <= (f.num * f.num) * n <= (FRAC_NUM_LIMIT * FRAC_NUM_LIMIT) * 10_000)
                by (nonlinear_arith)
                requires
                    0 <= f.num * f.num <= FRAC_NUM_LIMIT * FRAC_NUM_LIMIT,
                    1 <= n <= 10_000,
            ;
            assert(0 <= ((f.num * f.num) * n) * (n - 1) <= ((FRAC_NUM_LIMIT * FRAC_NUM_LIMIT)
                * 10_000) * 10_000) by (nonlinear_arith)
                requires
                    0 <= (f.num * f.num) * n <= (FRAC_NUM_LIMIT * FRAC_NUM_LIMIT) * 10_000,
                    1 <= n - 1 <= 10_000,
            ;
        }
        let lhs: i128 = (m2v as i128) * (f.den as i128) * (f.den as i128);
        let rhs: i128 = (f.num as i128) * (f.num as i128) * (n as i128) * ((n - 1) as i128);
        lhs >= rhs
    }
}

/// Ordering against a bound is monotone: if `x <= y` and `y` is at most the
/// bound, so is `x`, and likewise from below.
pub proof fn lemma_int_frac_mono(x: int, y: int, f: Frac)
    requires
        frac_wf(f),
        x <= y,
    ensures
        int_le_frac(y, f) ==> int_le_frac(x, f),
        int_ge_frac(x, f) ==> int_ge_frac(y, f),
{
    assert(x * f.den <= y * f.den) by (nonlinear_arith)
        requires
            x <= y,
            f.den > 0,
    ;
}

} // verus!
