//! The run as a whole: fan the branch search out over every starting
//! prefix and collect the accepted rows.
//!
//! `run_search` is the sequential core of the coordinator; it is proved to
//! return exactly the accepted set, so any order of running the branches —
//! including a parallel one that merges batches under a lock — yields the
//! same set of rows.

use vstd::prelude::*;
use crate::frac::int_ge_frac;
use crate::frac::int_le_frac;
use crate::frac::sd_ge_frac;
use crate::frac::sd_le_frac;
use crate::params::Params;
use crate::params::params_wf;
use crate::partition::enumerate_partitions;
use crate::partition::seed_in;
use crate::search::branch_accepts;
use crate::search::copy_values;
use crate::search::dfs_branch;
use crate::search::emitted;
use crate::search::in_scale;
use crate::search::lemma_emitted_push;
use crate::search::nondecreasing;
use crate::search::qualifies;
use crate::search::rows_distinct;
use crate::stats::as_ints;
use crate::stats::m2k;
use crate::stats::seq_sum;
use crate::tables::BoundTables;
use crate::tables::tables_wf;

verus! {

/// The first two elements of a row: the seed of the branch that emitted it.
spec fn row_pair(rows: Seq<Vec<i32>>, rx: int) -> (i32, i32) {
    (rows[rx]@[0], rows[rx]@[1])
}

/// The pair occurs among the first `bound` partitions.
spec fn pair_before(parts: Seq<(i32, i32)>, bound: int, pair: (i32, i32)) -> bool {
    exists|pidx: int| 0 <= pidx < bound && parts[pidx] == pair
}

/// An accepted sequence determines its own seed, which is a valid partition.
proof fn lemma_accepts_seed(p: Params, s: Seq<int>)
    requires
        params_wf(p),
        qualifies(p, s),
    ensures
        s.len() >= 2,
        p.min_scale <= s[0] <= s[1] <= p.max_scale,
        branch_accepts(p, s[0], s[1], s),
{
    assert(s[0] <= s[1]);
}

/// The full search: every starting prefix in turn, each branch's batch
/// appended to the result list.  Returns exactly the accepted set.
pub fn run_search(p: &Params) -> (results: Vec<Vec<i32>>)
    requires
        params_wf(*p),
    ensures
        forall|idx: int|
            0 <= idx < results@.len() ==> qualifies(*p, as_ints(#[trigger] results@[idx]@)),
        forall|t: Seq<int>| #[trigger] qualifies(*p, t) ==> emitted(results@, t),
        rows_distinct(results@),
{
    let tables = BoundTables::new(p);
    let parts = enumerate_partitions(p.min_scale, p.max_scale);
    let mut results: Vec<Vec<i32>> = Vec::new();
    let mut idx: usize = 0;
    while idx < parts.len()
        invariant
            params_wf(*p),
            tables_wf(tables, *p),
            idx <= parts@.len(),
            forall|x: int|
                0 <= x < parts@.len() ==> p.min_scale <= (#[trigger] parts@[x]).0
                    && parts@[x].0 <= parts@[x].1 && parts@[x].1 <= p.max_scale,
            forall|a: i32, b: i32|
                p.min_scale <= a <= b <= p.max_scale ==> #[trigger] seed_in(parts@, a, b),
            forall|x: int|
                0 <= x < results@.len() ==> qualifies(
                    *p,
                    as_ints(#[trigger] results@[x]@),
                ),
            forall|t: Seq<int>, pidx: int|
                #[trigger] qualifies(*p, t) && 0 <= pidx < idx && #[trigger] parts@[pidx]
                    == ((t[0] as i32, t[1] as i32)) ==> emitted(results@, t),
            forall|x: int, y: int| 0 <= x < y < parts@.len() ==> parts@[x] != parts@[y],
            rows_distinct(results@),
            forall|rx: int|
                0 <= rx < results@.len() ==> pair_before(
                    parts@,
                    idx as int,
                    #[trigger] row_pair(results@, rx),
                ),
        decreases parts@.len() - idx,
    {
        let pr = parts[idx];
        let lo = pr.0;
        let hi = pr.1;
        proof {
            assert(parts@[idx as int] == ((lo, hi)));
        }
        let batch = dfs_branch(p, &tables, lo, hi);
        let ghost results0 = results@;
        proof {
            assert forall|rx: int| 0 <= rx < results0.len() implies pair_before(
                parts@,
                idx as int,
                #[trigger] row_pair(results0, rx),
            ) by {
                assert(row_pair(results@, rx) == row_pair(results0, rx));
                assert(pair_before(parts@, idx as int, row_pair(results@, rx)));
            }
        }
        let mut bidx: usize = 0;
        while bidx < batch.len()
            invariant
                params_wf(*p),
                p.min_scale <= lo <= hi <= p.max_scale,
                bidx <= batch@.len(),
                forall|x: int|
                    0 <= x < batch@.len() ==> branch_accepts(
                        *p,
                        lo as int,
                        hi as int,
                        as_ints(#[trigger] batch@[x]@),
                    ),
                forall|x: int|
                    0 <= x < results@.len() ==> qualifies(
                        *p,
                        as_ints(#[trigger] results@[x]@),
                    ),
                forall|t: Seq<int>| emitted(results0, t) ==> #[trigger] emitted(results@, t),
                forall|x: int| 0 <= x < bidx ==> emitted(results@, as_ints(#[trigger] batch@[x]@)),
                rows_distinct(results@),
                rows_distinct(batch@),
                forall|x: int, y: int| 0 <= x < y < parts@.len() ==> parts@[x] != parts@[y],
                idx < parts@.len(),
                parts@[idx as int] == ((lo, hi)),
                results@.len() == results0.len() + bidx,
                forall|x: int| 0 <= x < results0.len() ==> #[trigger] results@[x] == results0[x],
                forall|x: int|
                    results0.len() <= x < results@.len() ==> as_ints(#[trigger] results@[x]@)
                        == as_ints(batch@[x - results0.len()]@),
                forall|rx: int|
                    0 <= rx < results0.len() ==> pair_before(
                        parts@,
                        idx as int,
                        #[trigger] row_pair(results0, rx),
                    ),
            decreases batch@.len() - bidx,
        {
            let row = copy_values(&batch[bidx]);
            let ghost before = results@;
            results.push(row);
            proof {
                assert(as_ints(results@[before.len() as int]@) == as_ints(
                    batch@[bidx as int]@,
                ));
                assert(emitted(results@, as_ints(batch@[bidx as int]@)));
                assert forall|t: Seq<int>| emitted(before, t) implies #[trigger] emitted(
                    results@,
                    t,
                ) by {
                    lemma_emitted_push(before, row, t);
                }
                let t = as_ints(batch@[bidx as int]@);
                assert(branch_accepts(*p, lo as int, hi as int, t));
                assert forall|x: int, y: int|
                    0 <= x < y < results@.len() implies as_ints(#[trigger] results@[x]@)
                    != as_ints(#[trigger] results@[y]@) by {
                    if y < before.len() {
                        assert(results@[x] == before[x]);
                        assert(results@[y] == before[y]);
                    } else {
                        assert(results@[y] == row);
                        assert(results@[x] == before[x]);
                        if as_ints(results@[x]@) == t {
                            if x < results0.len() {
                                // an older row carries the seed pair of an
                                // earlier partition, which differs from this one
                                assert(results@[x] == results0[x]);
                                assert(pair_before(parts@, idx as int, row_pair(results0, x)));
                                let pidx = choose|pidx: int|
                                    0 <= pidx < idx && parts@[pidx] == row_pair(results0, x);
                                assert(t[0] == lo as int && t[1] == hi as int);
                                assert(as_ints(results0[x]@)[0] == results0[x]@[0] as int);
                                assert(as_ints(results0[x]@)[1] == results0[x]@[1] as int);
                                assert(results0[x]@[0] == lo && results0[x]@[1] == hi);
                                assert(row_pair(results0, x) == ((lo, hi)));
                                assert(parts@[pidx] == parts@[idx as int]);
                                assert(false);
                            } else {
                                // a row of this very batch, pushed earlier
                                assert(as_ints(results@[x]@) == as_ints(
                                    batch@[x - results0.len()]@,
                                ));
                                assert(false);
                            }
                        }
                    }
                }
                assert(rows_distinct(results@));
            }
            bidx = bidx + 1;
        }
        proof {
            assert forall|t: Seq<int>, pidx: int|
                #[trigger] qualifies(*p, t) && 0 <= pidx < idx + 1
                    && #[trigger] parts@[pidx] == ((t[0] as i32, t[1] as i32)) implies emitted(
                results@,
                t,
            ) by {
                if pidx < idx {
                    assert(emitted(results0, t));
                } else {
                    lemma_accepts_seed(*p, t);
                    assert(t[0] as i32 == lo && t[1] as i32 == hi);
                    assert(t[0] == lo as int && t[1] == hi as int);
                    assert(branch_accepts(*p, lo as int, hi as int, t));
                    assert(emitted(batch@, t));
                    let bx = choose|bx: int|
                        0 <= bx < batch@.len() && as_ints(batch@[bx]@) == t;
                    assert(emitted(results@, as_ints(batch@[bx]@)));
                }
            }
            assert forall|rx: int| 0 <= rx < results@.len() implies pair_before(
                parts@,
                idx + 1,
                #[trigger] row_pair(results@, rx),
            ) by {
                if rx < results0.len() {
                    assert(pair_before(parts@, idx as int, row_pair(results0, rx)));
                    let pidx = choose|pidx: int|
                        0 <= pidx < idx && parts@[pidx] == row_pair(results0, rx);
                    assert(results@[rx] == results0[rx]);
                    assert(parts@[pidx] == row_pair(results@, rx));
                } else {
                    let t = as_ints(batch@[rx - results0.len()]@);
                    assert(as_ints(results@[rx]@) == t);
                    assert(branch_accepts(*p, lo as int, hi as int, t));
                    assert(t[0] == lo as int && t[1] == hi as int);
                    assert(as_ints(results@[rx]@)[0] == results@[rx]@[0] as int);
                    assert(as_ints(results@[rx]@)[1] == results@[rx]@[1] as int);
                    assert(results@[rx]@[0] == lo && results@[rx]@[1] == hi);
                    assert(parts@[idx as int] == row_pair(results@, rx));
                    assert(pair_before(parts@, idx + 1, row_pair(results@, rx)));
                }
            }
        }
        idx = idx + 1;
    }
    proof {
        assert forall|t: Seq<int>| #[trigger] qualifies(*p, t) implies emitted(
            results@,
            t,
        ) by {
            lemma_accepts_seed(*p, t);
            assert(seed_in(parts@, t[0] as i32, t[1] as i32));
            let pidx = choose|pidx: int|
                0 <= pidx < parts@.len() && parts@[pidx] == ((t[0] as i32, t[1] as i32));
            assert(qualifies(*p, t) && 0 <= pidx < parts@.len() && parts@[pidx] == ((
            t[0] as i32,
            t[1] as i32,
            )));
        }
    }
    results
}

/// Every accepted sequence has the full length, is non-decreasing, and stays
/// within the scale range.
pub proof fn lemma_accepted_shape(p: Params, s: Seq<int>)
    requires
        params_wf(p),
        qualifies(p, s),
    ensures
        s.len() == p.n,
        nondecreasing(s),
        in_scale(p, s),
{
}

/// Every accepted sequence keeps its sum inside the sum window and its
/// sample standard deviation inside the standard-deviation window.
pub proof fn lemma_accepted_within_window(p: Params, s: Seq<int>)
    requires
        params_wf(p),
        qualifies(p, s),
    ensures
        int_ge_frac(seq_sum(s), p.sum_lower),
        int_le_frac(seq_sum(s), p.sum_upper),
        sd_ge_frac(m2k(s), p.n as int, p.sd_lower),
        sd_le_frac(m2k(s), p.n as int, p.sd_upper),
{
}

/// Two runs with the same parameters accept the same set of rows, whatever
/// order each produced them in: the result set is a function of the
/// parameters alone.
pub proof fn lemma_search_set_deterministic(p: Params, r1: Seq<Vec<i32>>, r2: Seq<Vec<i32>>)
    requires
        forall|idx: int|
            0 <= idx < r1.len() ==> qualifies(p, as_ints(#[trigger] r1[idx]@)),
        forall|t: Seq<int>| #[trigger] qualifies(p, t) ==> emitted(r1, t),
        forall|idx: int|
            0 <= idx < r2.len() ==> qualifies(p, as_ints(#[trigger] r2[idx]@)),
        forall|t: Seq<int>| #[trigger] qualifies(p, t) ==> emitted(r2, t),
    ensures
        forall|t: Seq<int>| emitted(r1, t) <==> emitted(r2, t),
{
    assert forall|t: Seq<int>| emitted(r1, t) implies emitted(r2, t) by {
        let idx = choose|idx: int| 0 <= idx < r1.len() && as_ints(r1[idx]@) == t;
        assert(qualifies(p, as_ints(r1[idx]@)));
    }
    assert forall|t: Seq<int>| emitted(r2, t) implies emitted(r1, t) by {
        let idx = choose|idx: int| 0 <= idx < r2.len() && as_ints(r2[idx]@) == t;
        assert(qualifies(p, as_ints(r2[idx]@)));
    }
}

} // verus!
