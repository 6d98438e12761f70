//! Bound tables: for each count `r` of positions still to fill, the least and
//! greatest sum those positions can contribute.  Built once, read by every
//! branch, and the basis of the O(1) sum pruning.

use vstd::prelude::*;
use crate::params::Params;
use crate::params::params_wf;

verus! {

/// `min_sums[r] == min_scale * r` and `max_sums[r] == max_scale * r` for
/// every `r` below the sequence length.
pub struct BoundTables {
    pub min_sums: Vec<i64>,
    pub max_sums: Vec<i64>,
}

pub open spec fn tables_wf(t: BoundTables, p: Params) -> bool {
    &&& t.min_sums@.len() == p.n
    &&& t.max_sums@.len() == p.n
    &&& forall|r: int|
        0 <= r < p.n ==> #[trigger] t.min_sums@[r] == (p.min_scale as int) * r
    &&& forall|r: int|
        0 <= r < p.n ==> #[trigger] t.max_sums@[r] == (p.max_scale as int) * r
}

impl BoundTables {
    /// Precompute both tables by accumulation.
    pub fn new(p: &Params) -> (t: BoundTables)
        requires
            params_wf(*p),
        ensures
            tables_wf(t, *p),
    {
        let mut min_sums: Vec<i64> = Vec::new();
        let mut max_sums: Vec<i64> = Vec::new();
        let mut acc_min: i64 = 0;
        let mut acc_max: i64 = 0;
        let mut x: usize = 0;
        while x < p.n
            invariant
                x <= p.n,
                p.n <= 10_000,
                -10_000 <= p.min_scale as int,
                p.min_scale <= p.max_scale,
                p.max_scale as int <= 10_000,
                min_sums@.len() == x,
                max_sums@.len() == x,
                acc_min == (p.min_scale as int) * (x as int),
                acc_max == (p.max_scale as int) * (x as int),
                forall|r: int|
                    0 <= r < x ==> #[trigger] min_sums@[r] == (p.min_scale as int) * r,
                forall|r: int|
                    0 <= r < x ==> #[trigger] max_sums@[r] == (p.max_scale as int) * r,
            decreases p.n - x,
        {
            min_sums.push(acc_min);
            max_sums.push(acc_max);
            proof {
                assert(-100_000_000 <= (p.min_scale as int) * (x as int) <= 100_000_000)
                    by (nonlinear_arith)
                    requires
                        -10_000 <= p.min_scale as int <= 10_000,
                        0 <= x as int <= 10_000,
                ;
                assert(-100_000_000 <= (p.max_scale as int) * (x as int) <= 100_000_000)
                    by (nonlinear_arith)
                    requires
                        -10_000 <= p.max_scale as int <= 10_000,
                        0 <= x as int <= 10_000,
                ;
                assert((p.min_scale as int) * (x as int + 1) == (p.min_scale as int) * (x as int)
                    + p.min_scale) by (nonlinear_arith);
                assert((p.max_scale as int) * (x as int + 1) == (p.max_scale as int) * (x as int)
                    + p.max_scale) by (nonlinear_arith);
            }
            acc_min = acc_min + p.min_scale as i64;
            acc_max = acc_max + p.max_scale as i64;
            x = x + 1;
        }
        BoundTables { min_sums, max_sums }
    }
}

} // verus!
