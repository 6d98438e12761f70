//! Run parameters: the scale range, the sequence length, and the four window
//! bounds the accepted sequences must meet.

use vstd::prelude::*;
use crate::frac::Frac;
use crate::frac::frac_wf;

verus! {

/// Parameters of one search run.  The sum window is `[sum_lower, sum_upper]`
/// (the target sum plus or minus its tolerance) and the sample
/// standard-deviation window is `[sd_lower, sd_upper]`.
#[derive(Clone, Copy, Debug)]
pub struct Params {
    pub min_scale: i32,
    pub max_scale: i32,
    pub n: usize,
    pub sum_lower: Frac,
    pub sum_upper: Frac,
    pub sd_lower: Frac,
    pub sd_upper: Frac,
}

/// Valid parameters: a non-empty scale range within the supported magnitude,
/// a length of at least two, and usable window bounds.
pub open spec fn params_wf(p: Params) -> bool {
    &&& 2 <= p.n <= 10_000
    &&& -10_000 <= p.min_scale as int
    &&& p.min_scale <= p.max_scale
    &&& p.max_scale as int <= 10_000
    &&& frac_wf(p.sum_lower)
    &&& frac_wf(p.sum_upper)
    &&& frac_wf(p.sd_lower)
    &&& frac_wf(p.sd_upper)
}

impl Params {
    /// Derive the windows from targets and tolerances, each tolerance sharing
    /// its target's denominator: the sum window is
    /// `target_sum ± rounding_sum`, the standard-deviation window
    /// `target_sd ± rounding_sd`.
    pub fn new(
        min_scale: i32,
        max_scale: i32,
        n: usize,
        target_sum: Frac,
        rounding_sum: Frac,
        target_sd: Frac,
        rounding_sd: Frac,
    ) -> (p: Params)
        requires
            -10_000 <= min_scale as int,
            min_scale <= max_scale,
            max_scale as int <= 10_000,
            2 <= n <= 10_000,
            frac_wf(target_sum),
            frac_wf(rounding_sum),
            frac_wf(target_sd),
            frac_wf(rounding_sd),
            rounding_sum.den == target_sum.den,
            rounding_sd.den == target_sd.den,
            0 <= rounding_sum.num <= 50_000_000_000,
            0 <= rounding_sd.num <= 50_000_000_000,
            -50_000_000_000 <= target_sum.num <= 50_000_000_000,
            -50_000_000_000 <= target_sd.num <= 50_000_000_000,
        ensures
            params_wf(p),
            p.min_scale == min_scale,
            p.max_scale == max_scale,
            p.n == n,
            p.sum_lower == (Frac { num: (target_sum.num - rounding_sum.num) as i64, den: target_sum.den }),
            p.sum_upper == (Frac { num: (target_sum.num + rounding_sum.num) as i64, den: target_sum.den }),
            p.sd_lower == (Frac { num: (target_sd.num - rounding_sd.num) as i64, den: target_sd.den }),
            p.sd_upper == (Frac { num: (target_sd.num + rounding_sd.num) as i64, den: target_sd.den }),
    {
        Params {
            min_scale,
            max_scale,
            n,
            sum_lower: Frac { num: (target_sum.num - rounding_sum.num) as i64, den: target_sum.den },
            sum_upper: Frac { num: (target_sum.num + rounding_sum.num) as i64, den: target_sum.den },
            sd_lower: Frac { num: (target_sd.num - rounding_sd.num) as i64, den: target_sd.den },
            sd_upper: Frac { num: (target_sd.num + rounding_sd.num) as i64, den: target_sd.den },
        }
    }
}

} // verus!
