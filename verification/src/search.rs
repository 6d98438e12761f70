//! The branch search engine: a depth-first, explicit-stack enumeration of
//! the non-decreasing completions of a two-element seed, pruned by the sum
//! bounds and the projected standard deviation.
//!
//! `dfs_branch` is proved sound (everything it emits is accepted) and
//! complete (everything accepted whose first two elements are the seed is
//! emitted).

use vstd::prelude::*;
use crate::frac::int_ge_frac;
use crate::frac::int_le_frac;
use crate::frac::int_gt_frac_exec;
use crate::frac::int_lt_frac_exec;
use crate::frac::lemma_int_frac_mono;
use crate::frac::proj_sd_gt_frac;
use crate::frac::proj_sd_gt_exec;
use crate::frac::sd_ge_frac;
use crate::frac::sd_ge_exec;
use crate::frac::sd_le_frac;
use crate::params::Params;
use crate::params::params_wf;
use crate::stats::RunningStats;
use crate::stats::as_ints;
use crate::stats::lemma_m2k_nonneg;
use crate::stats::lemma_m2k_prefix_mono;
use crate::stats::lemma_seq_sum_bounds;
use crate::stats::lemma_seq_sum_concat;
use crate::stats::lemma_seq_sum_push;
use crate::stats::lemma_seq_sumsq_bounds;
use crate::stats::m2k;
use crate::stats::seq_sum;
use crate::stats::seq_sumsq;
use crate::stats::stats_for;
use crate::tables::BoundTables;
use crate::tables::tables_wf;

verus! {

/// Each element is at most the next.
pub open spec fn nondecreasing(s: Seq<int>) -> bool {
    forall|x: int, y: int| 0 <= x <= y < s.len() ==> s[x] <= s[y]
}

/// Every element lies in the scale range.
pub open spec fn in_scale(p: Params, s: Seq<int>) -> bool {
    forall|x: int| 0 <= x < s.len() ==> p.min_scale <= #[trigger] s[x] <= p.max_scale
}

/// The sum of the sequence lies in the sum window.
pub open spec fn sum_within(p: Params, s: Seq<int>) -> bool {
    int_ge_frac(seq_sum(s), p.sum_lower) && int_le_frac(seq_sum(s), p.sum_upper)
}

/// A sequence the run as a whole accepts: full length, non-decreasing,
/// within the scale range, sum in the sum window, and sample standard
/// deviation in the standard-deviation window.
pub open spec fn qualifies(p: Params, s: Seq<int>) -> bool {
    &&& s.len() == p.n
    &&& nondecreasing(s)
    &&& in_scale(p, s)
    &&& sum_within(p, s)
    &&& sd_ge_frac(m2k(s), p.n as int, p.sd_lower)
    &&& sd_le_frac(m2k(s), p.n as int, p.sd_upper)
}

/// What one branch emits for the seed `(a, b)`: exactly the accepted
/// sequences whose first two elements are the seed.
pub open spec fn branch_accepts(p: Params, a: int, b: int, s: Seq<int>) -> bool {
    qualifies(p, s) && s[0] == a && s[1] == b
}

/// `t` occurs among the emitted rows.
pub open spec fn emitted(results: Seq<Vec<i32>>, t: Seq<int>) -> bool {
    exists|idx: int| 0 <= idx < results.len() && as_ints(#[trigger] results[idx]@) == t
}

/// `pre` is an initial segment of `t`.
pub open spec fn is_prefix(pre: Seq<int>, t: Seq<int>) -> bool {
    pre.len() <= t.len() && pre == t.subrange(0, pre.len() as int)
}

/// No row occurs twice.
pub open spec fn rows_distinct(rows: Seq<Vec<i32>>) -> bool {
    forall|x: int, y: int|
        0 <= x < y < rows.len() ==> as_ints(#[trigger] rows[x]@) != as_ints(#[trigger] rows[y]@)
}

proof fn lemma_prefix_self(x: Seq<int>)
    ensures
        is_prefix(x, x),
{
    assert(x =~= x.subrange(0, x.len() as int));
}

proof fn lemma_prefix_trans(x: Seq<int>, y: Seq<int>, z: Seq<int>)
    requires
        is_prefix(x, y),
        is_prefix(y, z),
    ensures
        is_prefix(x, z),
{
    assert forall|i: int| 0 <= i < x.len() implies x[i] == z[i] by {
        assert(x[i] == y.subrange(0, x.len() as int)[i]);
        assert(y[i] == z.subrange(0, y.len() as int)[i]);
    }
    assert(x =~= z.subrange(0, x.len() as int));
}

/// Two prefixes of one sequence are ordered by length.
proof fn lemma_prefix_chain(x: Seq<int>, y: Seq<int>, z: Seq<int>)
    requires
        is_prefix(x, z),
        is_prefix(y, z),
        x.len() <= y.len(),
    ensures
        is_prefix(x, y),
{
    assert forall|i: int| 0 <= i < x.len() implies x[i] == y[i] by {
        assert(x[i] == z.subrange(0, x.len() as int)[i]);
        assert(y[i] == z.subrange(0, y.len() as int)[i]);
    }
    assert(x =~= y.subrange(0, x.len() as int));
}

/// One partial sequence awaiting extension, with its running statistics.
pub struct BranchState {
    pub values: Vec<i32>,
    pub stats: RunningStats,
}

/// Some state on the work stack is a prefix of `t`.
spec fn on_stack(stack: Seq<BranchState>, t: Seq<int>) -> bool {
    exists|idx: int|
        0 <= idx < stack.len() && is_prefix(as_ints(#[trigger] stack[idx].values@), t)
}

/// No state on the work stack leads to a row already emitted.
spec fn no_stack_prefix_of_result(stack: Seq<BranchState>, rows: Seq<Vec<i32>>) -> bool {
    forall|i: int, x: int|
        0 <= i < stack.len() && 0 <= x < rows.len() ==> !is_prefix(
            as_ints(#[trigger] stack[i].values@),
            as_ints(#[trigger] rows[x]@),
        )
}

/// No state on the work stack leads to another: their subtrees are disjoint.
spec fn stack_antichain(stack: Seq<BranchState>) -> bool {
    forall|i: int, j: int|
        0 <= i < stack.len() && 0 <= j < stack.len() && i != j ==> !is_prefix(
            as_ints(#[trigger] stack[i].values@),
            as_ints(#[trigger] stack[j].values@),
        )
}

/// Well-formedness of a stack entry for the seed `(a, b)`: it extends the
/// seed, is non-decreasing and in range, and its statistics are exact.
spec fn state_wf(p: Params, a: int, b: int, st: BranchState) -> bool {
    let s = as_ints(st.values@);
    &&& 2 <= s.len() <= p.n
    &&& s[0] == a
    &&& s[1] == b
    &&& nondecreasing(s)
    &&& in_scale(p, s)
    &&& stats_for(st.stats, s)
}

/// `b^e` over naturals; the termination potential of a stack entry.
spec fn pow_nat(b: nat, e: nat) -> nat
    decreases e,
{
    if e == 0 {
        1
    } else {
        b * pow_nat(b, (e - 1) as nat)
    }
}

proof fn lemma_pow_nat_pos(b: nat, e: nat)
    requires
        b >= 1,
    ensures
        pow_nat(b, e) >= 1,
    decreases e,
{
    if e > 0 {
        lemma_pow_nat_pos(b, (e - 1) as nat);
        assert(b * pow_nat(b, (e - 1) as nat) >= pow_nat(b, (e - 1) as nat)) by (nonlinear_arith)
            requires
                b >= 1,
                pow_nat(b, (e - 1) as nat) >= 0,
        ;
    }
}

/// Termination potential of one stack entry: an upper bound, exponential in
/// the positions still to fill, on the work its subtree can take.
spec fn state_pot(p: Params, st: BranchState) -> nat {
    if st.values@.len() <= p.n {
        pow_nat((p.max_scale - p.min_scale + 2) as nat, (p.n - st.values@.len()) as nat)
    } else {
        0
    }
}

/// Termination potential of the whole stack.
spec fn stack_pot(p: Params, stack: Seq<BranchState>) -> nat
    decreases stack.len(),
{
    if stack.len() == 0 {
        0
    } else {
        stack_pot(p, stack.drop_last()) + state_pot(p, stack.last())
    }
}

proof fn lemma_stack_pot_push(p: Params, stack: Seq<BranchState>, st: BranchState)
    ensures
        stack_pot(p, stack.push(st)) == stack_pot(p, stack) + state_pot(p, st),
{
    assert(stack.push(st).drop_last() =~= stack);
}

/// Bounds on the exact statistics of an in-range partial sequence.
proof fn lemma_state_bounds(p: Params, s: Seq<int>)
    requires
        params_wf(p),
        in_scale(p, s),
        s.len() <= p.n,
    ensures
        -100_000_000 <= seq_sum(s) <= 100_000_000,
        0 <= seq_sumsq(s) <= 1_000_000_000_000,
        s.len() >= 1 ==> 0 <= m2k(s) <= 100_000_000_000_000_000,
{
    lemma_seq_sum_bounds(s, p.min_scale as int, p.max_scale as int);
    assert(-100_000_000 <= (p.min_scale as int) * s.len()) by (nonlinear_arith)
        requires
            -10_000 <= p.min_scale as int,
            0 <= s.len() <= 10_000,
    ;
    assert((p.max_scale as int) * s.len() <= 100_000_000) by (nonlinear_arith)
        requires
            p.max_scale as int <= 10_000,
            0 <= s.len() <= 10_000,
    ;
    lemma_seq_sumsq_bounds(s, 10_000);
    if s.len() >= 1 {
        lemma_m2k_nonneg(s);
        assert(s.len() * seq_sumsq(s) <= 10_000_000_000_000_000) by (nonlinear_arith)
            requires
                0 <= s.len() <= 10_000,
                0 <= seq_sumsq(s) <= 1_000_000_000_000,
        ;
        assert(seq_sum(s) * seq_sum(s) >= 0) by (nonlinear_arith);
    }
}

/// `seq_sum` splits at any cut point.
proof fn lemma_sum_split(t: Seq<int>, m: int)
    requires
        0 <= m <= t.len(),
    ensures
        seq_sum(t) == seq_sum(t.subrange(0, m)) + seq_sum(t.subrange(m, t.len() as int)),
{
    lemma_seq_sum_concat(t.subrange(0, m), t.subrange(m, t.len() as int));
    assert(t.subrange(0, m) + t.subrange(m, t.len() as int) =~= t);
}

/// If even filling the rest with the smallest value overshoots the sum
/// window from a candidate no smaller than `c`, no completion through such a
/// candidate can stay inside it.
proof fn lemma_prune_min_reach(p: Params, cur: Seq<int>, t: Seq<int>, c: int)
    requires
        params_wf(p),
        2 <= cur.len() < p.n,
        t.len() == p.n,
        nondecreasing(t),
        in_scale(p, t),
        is_prefix(cur, t),
        c <= t[cur.len() as int],
        !int_le_frac(
            seq_sum(cur) + c + (p.min_scale as int) * (p.n - 1 - cur.len()),
            p.sum_upper,
        ),
    ensures
        !int_le_frac(seq_sum(t), p.sum_upper),
{
    let k = cur.len() as int;
    let n = p.n as int;
    lemma_sum_split(t, k + 1);
    let tail = t.subrange(k + 1, n);
    assert(t.subrange(0, k + 1) =~= t.subrange(0, k).push(t[k]));
    assert(t.subrange(0, k) == cur);
    lemma_seq_sum_push(t.subrange(0, k), t[k]);
    assert forall|x: int| 0 <= x < tail.len() implies p.min_scale <= #[trigger] tail[x]
        <= p.max_scale by {
        assert(tail[x] == t[k + 1 + x]);
    }
    lemma_seq_sum_bounds(tail, p.min_scale as int, p.max_scale as int);
    assert(seq_sum(t) >= seq_sum(cur) + c + (p.min_scale as int) * (n - 1 - k));
    lemma_int_frac_mono(
        seq_sum(cur) + c + (p.min_scale as int) * (n - 1 - k),
        seq_sum(t),
        p.sum_upper,
    );
}

/// If even filling the rest with the largest value undershoots the sum
/// window from the candidate `c`, no completion through `c` can reach it.
proof fn lemma_prune_max_reach(p: Params, cur: Seq<int>, t: Seq<int>, c: int)
    requires
        params_wf(p),
        2 <= cur.len() < p.n,
        t.len() == p.n,
        nondecreasing(t),
        in_scale(p, t),
        is_prefix(cur, t),
        c == t[cur.len() as int],
        !int_ge_frac(
            seq_sum(cur) + c + (p.max_scale as int) * (p.n - 1 - cur.len()),
            p.sum_lower,
        ),
    ensures
        !int_ge_frac(seq_sum(t), p.sum_lower),
{
    let k = cur.len() as int;
    let n = p.n as int;
    lemma_sum_split(t, k + 1);
    let tail = t.subrange(k + 1, n);
    assert(t.subrange(0, k + 1) =~= t.subrange(0, k).push(t[k]));
    assert(t.subrange(0, k) == cur);
    lemma_seq_sum_push(t.subrange(0, k), t[k]);
    assert forall|x: int| 0 <= x < tail.len() implies p.min_scale <= #[trigger] tail[x]
        <= p.max_scale by {
        assert(tail[x] == t[k + 1 + x]);
    }
    lemma_seq_sum_bounds(tail, p.min_scale as int, p.max_scale as int);
    assert(seq_sum(t) <= seq_sum(cur) + c + (p.max_scale as int) * (n - 1 - k));
    lemma_int_frac_mono(
        seq_sum(t),
        seq_sum(cur) + c + (p.max_scale as int) * (n - 1 - k),
        p.sum_lower,
    );
}

/// Pure arithmetic of the standard-deviation prune: a prefix whose projected
/// deviation exceeds the bound forces every completion over it too.
proof fn lemma_scaled_sd_mono(mc: int, mt: int, k: int, n: int, d: int, u: int)
    requires
        1 <= k <= n,
        d > 0,
        mt >= 0,
        mc * n <= mt * k,
        mc * d * d > u * u * k * (n - 1),
    ensures
        mt * d * d > u * u * n * (n - 1),
{
    assert(mc * d * d * n > u * u * k * (n - 1) * n) by (nonlinear_arith)
        requires
            n >= 1,
            mc * d * d > u * u * k * (n - 1),
    ;
    assert(mt * k * (d * d) >= mc * n * (d * d)) by (nonlinear_arith)
        requires
            mc * n <= mt * k,
            d > 0,
    ;
    assert(mc * n * (d * d) == mc * d * d * n) by (nonlinear_arith);
    assert(mt * k * (d * d) == mt * d * d * k) by (nonlinear_arith);
    assert(u * u * k * (n - 1) * n == u * u * n * (n - 1) * k) by (nonlinear_arith);
    assert(mt * d * d > u * u * n * (n - 1)) by (nonlinear_arith)
        requires
            mt * d * d * k > u * u * n * (n - 1) * k,
            k >= 1,
    ;
}

/// The standard-deviation prune is sound: the accumulator only grows along a
/// branch, so a prefix that already exceeds the upper bound can never
/// complete to a sequence inside it.
proof fn lemma_prune_sd(p: Params, child: Seq<int>, t: Seq<int>)
    requires
        params_wf(p),
        1 <= child.len() <= t.len(),
        t.len() == p.n,
        is_prefix(child, t),
        proj_sd_gt_frac(m2k(child), child.len() as int, p.n as int, p.sd_upper),
    ensures
        !sd_le_frac(m2k(t), p.n as int, p.sd_upper),
{
    if p.sd_upper.num >= 0 {
        lemma_m2k_prefix_mono(child, t);
        lemma_m2k_nonneg(t);
        lemma_scaled_sd_mono(
            m2k(child),
            m2k(t),
            child.len() as int,
            p.n as int,
            p.sd_upper.den as int,
            p.sd_upper.num as int,
        );
    }
}

proof fn lemma_prefix_extend(pre: Seq<int>, t: Seq<int>, c: int)
    requires
        is_prefix(pre, t),
        pre.len() < t.len(),
        t[pre.len() as int] == c,
    ensures
        is_prefix(pre.push(c), t),
{
    assert(pre.push(c) =~= t.subrange(0, pre.len() as int + 1));
}

pub proof fn lemma_emitted_push(results: Seq<Vec<i32>>, v: Vec<i32>, t: Seq<int>)
    requires
        emitted(results, t),
    ensures
        emitted(results.push(v), t),
{
    let idx = choose|idx: int| 0 <= idx < results.len() && as_ints(results[idx]@) == t;
    assert(results.push(v)[idx] == results[idx]);
}

proof fn lemma_on_stack_push(stack: Seq<BranchState>, st: BranchState, t: Seq<int>)
    requires
        on_stack(stack, t),
    ensures
        on_stack(stack.push(st), t),
{
    let idx = choose|idx: int|
        0 <= idx < stack.len() && is_prefix(as_ints(stack[idx].values@), t);
    assert(stack.push(st)[idx] == stack[idx]);
}

/// Element-for-element copy of a row.
pub fn copy_values(v: &Vec<i32>) -> (r: Vec<i32>)
    ensures
        r@ == v@,
{
    let mut r: Vec<i32> = Vec::new();
    let mut x: usize = 0;
    while x < v.len()
        invariant
            x <= v@.len(),
            r@ == v@.subrange(0, x as int),
        decreases v@.len() - x,
    {
        r.push(v[x]);
        proof {
            assert(r@ =~= v@.subrange(0, x + 1));
        }
        x = x + 1;
    }
    proof {
        assert(r@ =~= v@);
    }
    r
}

/// Depth-first search over all completions of the seed `(seed_lo, seed_hi)`.
///
/// Sound and complete: the rows returned are exactly the sequences that
/// `branch_accepts` describes for this seed.
pub fn dfs_branch(p: &Params, tables: &BoundTables, seed_lo: i32, seed_hi: i32) -> (results: Vec<
    Vec<i32>,
>)
    requires
        params_wf(*p),
        tables_wf(*tables, *p),
        p.min_scale <= seed_lo <= seed_hi <= p.max_scale,
    ensures
        forall|idx: int|
            0 <= idx < results@.len() ==> branch_accepts(
                *p,
                seed_lo as int,
                seed_hi as int,
                as_ints(#[trigger] results@[idx]@),
            ),
        forall|t: Seq<int>|
            #[trigger] branch_accepts(*p, seed_lo as int, seed_hi as int, t) ==> emitted(
                results@,
                t,
            ),
        rows_distinct(results@),
{
    let ghost a = seed_lo as int;
    let ghost b = seed_hi as int;
    let mut seed_values: Vec<i32> = Vec::new();
    seed_values.push(seed_lo);
    seed_values.push(seed_hi);
    let st0 = RunningStats::new();
    let st1 = st0.pushed(seed_lo);
    proof {
        assert(0 <= (seed_lo as int) * (seed_lo as int) <= 100_000_000) by (nonlinear_arith)
            requires
                -10_000 <= seed_lo as int <= 10_000,
        ;
    }
    let st2 = st1.pushed(seed_hi);
    proof {
        assert(as_ints(seed_values@) =~= Seq::<int>::empty().push(a).push(b));
        assert(stats_for(st2, as_ints(seed_values@)));
        assert(as_ints(seed_values@) == seq![a, b]) by {
            assert(as_ints(seed_values@) =~= seq![a, b]);
        }
    }
    let seed = BranchState { values: seed_values, stats: st2 };
    let mut stack: Vec<BranchState> = Vec::new();
    let mut results: Vec<Vec<i32>> = Vec::new();
    proof {
        let s = as_ints(seed.values@);
        assert(nondecreasing(s)) by {
            assert(forall|x: int, y: int| 0 <= x <= y < 2 ==> #[trigger] s[x] <= #[trigger] s[y]);
        }
        assert(state_wf(*p, a, b, seed));
    }
    stack.push(seed);
    proof {
        // every accepted sequence has the two-element seed as a prefix
        assert forall|t: Seq<int>| #[trigger] branch_accepts(*p, a, b, t) implies on_stack(
            stack@,
            t,
        ) by {
            let s0 = as_ints(stack@[0].values@);
            assert(t[0] == a && t[1] == b);
            assert(s0 =~= t.subrange(0, 2));
            assert(is_prefix(as_ints(stack@[0].values@), t));
        }
    }
    while stack.len() > 0
        invariant
            params_wf(*p),
            tables_wf(*tables, *p),
            p.min_scale <= seed_lo <= seed_hi <= p.max_scale,
            a == seed_lo as int,
            b == seed_hi as int,
            forall|idx: int| 0 <= idx < stack@.len() ==> state_wf(*p, a, b, #[trigger] stack@[idx]),
            forall|idx: int|
                0 <= idx < results@.len() ==> branch_accepts(
                    *p,
                    a,
                    b,
                    as_ints(#[trigger] results@[idx]@),
                ),
            forall|t: Seq<int>|
                #[trigger] branch_accepts(*p, a, b, t) ==> emitted(results@, t) || on_stack(
                    stack@,
                    t,
                ),
            rows_distinct(results@),
            no_stack_prefix_of_result(stack@, results@),
            stack_antichain(stack@),
        decreases stack_pot(*p, stack@),
    {
        let ghost old_stack = stack@;
        let ghost old_results = results@;
        let cur = stack.pop().unwrap();
        let ghost cur_s = as_ints(cur.values@);
        proof {
            assert(old_stack.drop_last() =~= stack@);
            assert(state_wf(*p, a, b, cur));
            // transfer coverage: anything covered by the old stack is covered
            // by the remaining stack or by the popped state itself
            assert forall|t: Seq<int>| #[trigger] branch_accepts(*p, a, b, t) implies emitted(
                results@,
                t,
            ) || on_stack(stack@, t) || is_prefix(cur_s, t) by {
                if !emitted(results@, t) {
                    let idx = choose|idx: int|
                        0 <= idx < old_stack.len() && is_prefix(
                            as_ints(old_stack[idx].values@),
                            t,
                        );
                    if idx < old_stack.len() - 1 {
                        assert(stack@[idx] == old_stack[idx]);
                        assert(on_stack(stack@, t));
                    } else {
                        assert(old_stack[idx] == cur);
                    }
                }
            }
            // the popped state leads to no emitted row, and to no other state
            assert(old_stack[old_stack.len() - 1] == cur);
            assert forall|x: int| 0 <= x < results@.len() implies !is_prefix(
                cur_s,
                as_ints(#[trigger] results@[x]@),
            ) by {
                assert(!is_prefix(
                    as_ints(old_stack[old_stack.len() - 1].values@),
                    as_ints(results@[x]@),
                ));
            }
            assert forall|i: int| 0 <= i < stack@.len() implies !is_prefix(
                as_ints(#[trigger] stack@[i].values@),
                cur_s,
            ) && !is_prefix(cur_s, as_ints(stack@[i].values@)) by {
                assert(stack@[i] == old_stack[i]);
                assert(!is_prefix(
                    as_ints(old_stack[i].values@),
                    as_ints(old_stack[old_stack.len() - 1].values@),
                ));
                assert(!is_prefix(
                    as_ints(old_stack[old_stack.len() - 1].values@),
                    as_ints(old_stack[i].values@),
                ));
            }
            assert(no_stack_prefix_of_result(stack@, results@)) by {
                assert forall|i: int, x: int|
                    0 <= i < stack@.len() && 0 <= x < results@.len() implies !is_prefix(
                    as_ints(#[trigger] stack@[i].values@),
                    as_ints(#[trigger] results@[x]@),
                ) by {
                    assert(stack@[i] == old_stack[i]);
                }
            }
            assert(stack_antichain(stack@)) by {
                assert forall|i: int, j: int|
                    0 <= i < stack@.len() && 0 <= j < stack@.len() && i != j implies !is_prefix(
                    as_ints(#[trigger] stack@[i].values@),
                    as_ints(#[trigger] stack@[j].values@),
                ) by {
                    assert(stack@[i] == old_stack[i]);
                    assert(stack@[j] == old_stack[j]);
                }
            }
            assert(stack_pot(*p, old_stack) == stack_pot(*p, stack@) + state_pot(*p, cur)) by {
                assert(old_stack.last() == cur);
            }
            lemma_pow_nat_pos(
                (p.max_scale - p.min_scale + 2) as nat,
                (p.n - cur.values@.len()) as nat,
            );
        }
        let len = cur.values.len();
        if len == p.n {
            // terminal: the full window is decided here, so a seed that is
            // already complete is held to the same bounds as any other state
            proof {
                lemma_state_bounds(*p, cur_s);
            }
            let m2kv = cur.stats.m2k_value();
            proof {
                assert(m2kv == m2k(cur_s));
                assert(cur.stats.sum == seq_sum(cur_s));
            }
            let sum_le_upper = !int_gt_frac_exec(cur.stats.sum, &p.sum_upper);
            let sum_ge_lower = !int_lt_frac_exec(cur.stats.sum, &p.sum_lower);
            let sd_le_upper = !proj_sd_gt_exec(m2kv, p.n, p.n, &p.sd_upper);
            let sd_ge_lower = sd_ge_exec(m2kv, p.n, &p.sd_lower);
            if sum_le_upper && sum_ge_lower && sd_le_upper && sd_ge_lower {
                proof {
                    assert(sum_within(*p, cur_s));
                    assert(sd_le_frac(m2k(cur_s), p.n as int, p.sd_upper));
                    assert(branch_accepts(*p, a, b, cur_s));
                    assert forall|t: Seq<int>| #[trigger] branch_accepts(*p, a, b, t) implies
                    emitted(results@.push(cur.values), t) || on_stack(stack@, t) by {
                        if emitted(results@, t) {
                            lemma_emitted_push(results@, cur.values, t);
                        } else if !on_stack(stack@, t) {
                            assert(is_prefix(cur_s, t));
                            assert(t.len() == p.n);
                            assert(cur_s =~= t);
                            assert(as_ints(results@.push(cur.values)[results@.len() as int]@)
                                == t);
                        }
                    }
                    assert forall|x: int, y: int|
                        0 <= x < y < results@.push(cur.values).len() implies as_ints(
                        #[trigger] results@.push(cur.values)[x]@,
                    ) != as_ints(#[trigger] results@.push(cur.values)[y]@) by {
                        if y < results@.len() {
                            assert(results@.push(cur.values)[x] == results@[x]);
                            assert(results@.push(cur.values)[y] == results@[y]);
                        } else {
                            assert(results@.push(cur.values)[y] == cur.values);
                            assert(results@.push(cur.values)[x] == results@[x]);
                            if as_ints(results@[x]@) == cur_s {
                                lemma_prefix_self(cur_s);
                                assert(false);
                            }
                        }
                    }
                    assert(rows_distinct(results@.push(cur.values)));
                    assert forall|i: int, x: int|
                        0 <= i < stack@.len() && 0 <= x < results@.push(cur.values).len()
                        implies !is_prefix(
                        as_ints(#[trigger] stack@[i].values@),
                        as_ints(#[trigger] results@.push(cur.values)[x]@),
                    ) by {
                        if x < results@.len() {
                            assert(results@.push(cur.values)[x] == results@[x]);
                        } else {
                            assert(results@.push(cur.values)[x] == cur.values);
                        }
                    }
                    assert(no_stack_prefix_of_result(stack@, results@.push(cur.values)));
                }
                results.push(cur.values);
            } else {
                proof {
                    assert forall|t: Seq<int>| #[trigger] branch_accepts(*p, a, b, t) implies
                    emitted(results@, t) || on_stack(stack@, t) by {
                        if !emitted(results@, t) && !on_stack(stack@, t) {
                            assert(is_prefix(cur_s, t));
                            assert(cur_s =~= t);
                            assert(sum_within(*p, cur_s));
                            assert(sd_ge_frac(m2k(cur_s), p.n as int, p.sd_lower));
                            assert(sd_le_frac(m2k(cur_s), p.n as int, p.sd_upper));
                            assert(false);
                        }
                    }
                }
            }
        } else {
            // extension: try each candidate in increasing order
            let r = p.n - 1 - len;
            let last = cur.values[len - 1];
            let mut c = last;
            let ghost pot0 = stack_pot(*p, stack@);
            let ghost stack0_len = stack@.len();
            let ghost base = (p.max_scale - p.min_scale + 2) as nat;
            let ghost child_pot = pow_nat(base, (p.n - len - 1) as nat);
            proof {
                lemma_state_bounds(*p, cur_s);
                lemma_pow_nat_pos(base, (p.n - len - 1) as nat);
            }
            while c <= p.max_scale
                invariant
                    params_wf(*p),
                    tables_wf(*tables, *p),
                    p.min_scale <= seed_lo <= seed_hi <= p.max_scale,
                    a == seed_lo as int,
                    b == seed_hi as int,
                    state_wf(*p, a, b, cur),
                    cur_s == as_ints(cur.values@),
                    len == cur.values@.len(),
                    2 <= len < p.n,
                    p.n >= 3,
                    r == p.n - 1 - len,
                    last == cur.values@[len - 1],
                    last as int <= c as int <= p.max_scale + 1,
                    base == (p.max_scale - p.min_scale + 2) as nat,
                    child_pot == pow_nat(base, (p.n - len - 1) as nat),
                    child_pot >= 1,
                    -100_000_000 <= cur.stats.sum <= 100_000_000,
                    0 <= cur.stats.sumsq <= 1_000_000_000_000,
                    forall|idx: int|
                        0 <= idx < stack@.len() ==> state_wf(*p, a, b, #[trigger] stack@[idx]),
                    forall|idx: int|
                        0 <= idx < results@.len() ==> branch_accepts(
                            *p,
                            a,
                            b,
                            as_ints(#[trigger] results@[idx]@),
                        ),
                    forall|t: Seq<int>|
                        #[trigger] branch_accepts(*p, a, b, t) ==> emitted(results@, t)
                            || on_stack(stack@, t) || (is_prefix(cur_s, t) && t[len as int]
                            >= c as int),
                    stack_pot(*p, stack@) <= pot0 + ((c - last) as nat) * child_pot,
                    rows_distinct(results@),
                    no_stack_prefix_of_result(stack@, results@),
                    stack_antichain(stack@),
                    forall|x: int|
                        0 <= x < results@.len() ==> !is_prefix(
                            cur_s,
                            as_ints(#[trigger] results@[x]@),
                        ),
                    stack0_len <= stack@.len(),
                    forall|i: int|
                        0 <= i < stack0_len ==> !is_prefix(
                            as_ints(#[trigger] stack@[i].values@),
                            cur_s,
                        ) && !is_prefix(cur_s, as_ints(stack@[i].values@)),
                    forall|i: int|
                        stack0_len <= i < stack@.len() ==> as_ints(
                            #[trigger] stack@[i].values@,
                        ).len() == len + 1 && is_prefix(cur_s, as_ints(stack@[i].values@))
                            && as_ints(stack@[i].values@)[len as int] < c as int,
                decreases p.max_scale + 1 - c,
            {
                proof {
                    assert(tables.min_sums@[r as int] == (p.min_scale as int) * (r as int));
                    assert(-100_000_000 <= (p.min_scale as int) * (r as int) <= 100_000_000)
                        by (nonlinear_arith)
                        requires
                            -10_000 <= p.min_scale as int <= 10_000,
                            0 <= r as int <= 10_000,
                    ;
                    assert(-100_000_000 <= (p.max_scale as int) * (r as int) <= 100_000_000)
                        by (nonlinear_arith)
                        requires
                            -10_000 <= p.max_scale as int <= 10_000,
                            0 <= r as int <= 10_000,
                    ;
                }
                let next_sum = cur.stats.sum + c as i64;
                let min_reach = next_sum + tables.min_sums[r];
                if int_gt_frac_exec(min_reach, &p.sum_upper) {
                    // all larger candidates overshoot as well: stop the loop
                    proof {
                        assert forall|t: Seq<int>| #[trigger] branch_accepts(*p, a, b, t) implies
                        emitted(results@, t) || on_stack(stack@, t) by {
                            if !emitted(results@, t) && !on_stack(stack@, t) {
                                lemma_prune_min_reach(*p, cur_s, t, c as int);
                                assert(false);
                            }
                        }
                        assert(stack_pot(*p, stack@) <= pot0 + (((p.max_scale + 1 - last)
                            as nat)) * child_pot) by (nonlinear_arith)
                            requires
                                stack_pot(*p, stack@) <= pot0 + ((c - last) as nat) * child_pot,
                                c as int <= p.max_scale + 1,
                                last as int <= c as int,
                                child_pot >= 0,
                        ;
                    }
                    c = p.max_scale + 1;
                } else {
                    let max_reach = next_sum + tables.max_sums[r];
                    if int_lt_frac_exec(max_reach, &p.sum_lower) {
                        // this candidate undershoots; larger ones may not
                        proof {
                            assert forall|t: Seq<int>|
                                #[trigger] branch_accepts(*p, a, b, t) implies emitted(
                                results@,
                                t,
                            ) || on_stack(stack@, t) || (is_prefix(cur_s, t) && t[len as int]
                                >= c as int + 1) by {
                                if !emitted(results@, t) && !on_stack(stack@, t) {
                                    if t[len as int] == c as int {
                                        lemma_prune_max_reach(*p, cur_s, t, c as int);
                                        assert(false);
                                    }
                                }
                            }
                            assert(((c + 1 - last) as nat) * child_pot == ((c - last) as nat)
                                * child_pot + child_pot) by (nonlinear_arith)
                                requires
                                    last as int <= c as int,
                                    child_pot >= 0,
                            ;
                        }
                        c = c + 1;
                    } else {
                        let child_stats = cur.stats.pushed(c);
                        let ghost child_s = cur_s.push(c as int);
                        proof {
                            assert(stats_for(child_stats, child_s));
                            assert forall|x: int| 0 <= x < child_s.len() implies p.min_scale
                                <= #[trigger] child_s[x] <= p.max_scale by {
                                if x < cur_s.len() {
                                    assert(child_s[x] == cur_s[x]);
                                }
                            }
                            assert(in_scale(*p, child_s));
                            lemma_state_bounds(*p, child_s);
                        }
                        let m2kv = child_stats.m2k_value();
                        proof {
                            assert(m2kv == m2k(child_s));
                        }
                        if proj_sd_gt_exec(m2kv, len + 1, p.n, &p.sd_upper) {
                            // deviation already exceeds the upper bound
                            proof {
                                assert forall|t: Seq<int>|
                                    #[trigger] branch_accepts(*p, a, b, t) implies emitted(
                                    results@,
                                    t,
                                ) || on_stack(stack@, t) || (is_prefix(cur_s, t) && t[len as int]
                                    >= c as int + 1) by {
                                    if !emitted(results@, t) && !on_stack(stack@, t) {
                                        if t[len as int] == c as int {
                                            lemma_prefix_extend(cur_s, t, c as int);
                                            lemma_prune_sd(*p, child_s, t);
                                            assert(false);
                                        }
                                    }
                                }
                                assert(((c + 1 - last) as nat) * child_pot == ((c - last) as nat)
                                    * child_pot + child_pot) by (nonlinear_arith)
                                    requires
                                        last as int <= c as int,
                                        child_pot >= 0,
                                ;
                            }
                            c = c + 1;
                        } else {
                            let mut child_values = copy_values(&cur.values);
                            child_values.push(c);
                            let child = BranchState { values: child_values, stats: child_stats };
                            proof {
                                assert(as_ints(child.values@) =~= child_s);
                                assert(nondecreasing(child_s)) by {
                                    assert forall|x: int, y: int|
                                        0 <= x <= y < child_s.len() implies child_s[x]
                                        <= child_s[y] by {
                                        if y < cur_s.len() {
                                            assert(cur_s[x] <= cur_s[y]);
                                        } else if x < cur_s.len() {
                                            assert(cur_s[x] <= cur_s[cur_s.len() - 1]);
                                            assert(cur_s[cur_s.len() - 1] == last as int);
                                        }
                                    }
                                }
                                assert(state_wf(*p, a, b, child));
                                let ghost old_inner = stack@;
                                lemma_stack_pot_push(*p, old_inner, child);
                            }
                            let ghost old_inner = stack@;
                            stack.push(child);
                            proof {
                                assert forall|t: Seq<int>|
                                    #[trigger] branch_accepts(*p, a, b, t) implies emitted(
                                    results@,
                                    t,
                                ) || on_stack(stack@, t) || (is_prefix(cur_s, t) && t[len as int]
                                    >= c as int + 1) by {
                                    if !emitted(results@, t) {
                                        if on_stack(old_inner, t) {
                                            lemma_on_stack_push(old_inner, child, t);
                                        } else if is_prefix(cur_s, t) && t[len as int]
                                            == c as int {
                                            lemma_prefix_extend(cur_s, t, c as int);
                                            assert(stack@[old_inner.len() as int] == child);
                                            assert(is_prefix(as_ints(child.values@), t));
                                            assert(on_stack(stack@, t));
                                        }
                                    }
                                }
                                // the new child leads elsewhere than every
                                // emitted row and every pending state
                                assert(is_prefix(cur_s, child_s)) by {
                                    assert(cur_s =~= child_s.subrange(0, len as int));
                                }
                                assert(child_s[len as int] == c as int);
                                assert(child_s.subrange(0, child_s.len() as int) =~= child_s);
                                assert forall|i: int, x: int|
                                    0 <= i < stack@.len() && 0 <= x < results@.len()
                                    implies !is_prefix(
                                    as_ints(#[trigger] stack@[i].values@),
                                    as_ints(#[trigger] results@[x]@),
                                ) by {
                                    if i < old_inner.len() {
                                        assert(stack@[i] == old_inner[i]);
                                    } else {
                                        assert(stack@[i] == child);
                                        if is_prefix(child_s, as_ints(results@[x]@)) {
                                            lemma_prefix_trans(
                                                cur_s,
                                                child_s,
                                                as_ints(results@[x]@),
                                            );
                                            assert(false);
                                        }
                                    }
                                }
                                assert(no_stack_prefix_of_result(stack@, results@));
                                assert forall|i: int, j: int|
                                    0 <= i < stack@.len() && 0 <= j < stack@.len() && i != j
                                    implies !is_prefix(
                                    as_ints(#[trigger] stack@[i].values@),
                                    as_ints(#[trigger] stack@[j].values@),
                                ) by {
                                    if i < old_inner.len() && j < old_inner.len() {
                                        assert(stack@[i] == old_inner[i]);
                                        assert(stack@[j] == old_inner[j]);
                                    } else if j == old_inner.len() {
                                        assert(stack@[j] == child);
                                        assert(stack@[i] == old_inner[i]);
                                        let si = as_ints(old_inner[i].values@);
                                        if is_prefix(si, child_s) {
                                            if i < stack0_len {
                                                if si.len() <= cur_s.len() {
                                                    lemma_prefix_chain(si, cur_s, child_s);
                                                    assert(false);
                                                } else {
                                                    assert(si =~= child_s);
                                                    assert(is_prefix(cur_s, si));
                                                    assert(false);
                                                }
                                            } else {
                                                assert(si.len() == len + 1);
                                                assert(si =~= child_s);
                                                assert(si[len as int] == c as int);
                                                assert(false);
                                            }
                                        }
                                    } else {
                                        assert(i == old_inner.len());
                                        assert(stack@[i] == child);
                                        assert(stack@[j] == old_inner[j]);
                                        let sj = as_ints(old_inner[j].values@);
                                        if is_prefix(child_s, sj) {
                                            if j < stack0_len {
                                                lemma_prefix_trans(cur_s, child_s, sj);
                                                assert(false);
                                            } else {
                                                assert(sj.len() == len + 1);
                                                assert(sj.subrange(0, sj.len() as int) =~= sj);
                                                assert(child_s =~= sj);
                                                assert(sj[len as int] == c as int);
                                                assert(false);
                                            }
                                        }
                                    }
                                }
                                assert(stack_antichain(stack@));
                                assert forall|i: int|
                                    stack0_len <= i < stack@.len() implies as_ints(
                                    #[trigger] stack@[i].values@,
                                ).len() == len + 1 && is_prefix(
                                    cur_s,
                                    as_ints(stack@[i].values@),
                                ) && as_ints(stack@[i].values@)[len as int] < c as int + 1 by {
                                    if i < old_inner.len() {
                                        assert(stack@[i] == old_inner[i]);
                                    } else {
                                        assert(stack@[i] == child);
                                    }
                                }
                                assert forall|i: int| 0 <= i < stack0_len implies !is_prefix(
                                    as_ints(#[trigger] stack@[i].values@),
                                    cur_s,
                                ) && !is_prefix(cur_s, as_ints(stack@[i].values@)) by {
                                    assert(stack@[i] == old_inner[i]);
                                }
                                assert(state_pot(*p, child) == child_pot);
                                assert(((c + 1 - last) as nat) * child_pot == ((c - last) as nat)
                                    * child_pot + child_pot) by (nonlinear_arith)
                                    requires
                                        last as int <= c as int,
                                        child_pot >= 0,
                                ;
                            }
                            c = c + 1;
                        }
                    }
                }
            }
            proof {
                // after the loop no candidate is pending: anything not yet
                // covered would need an element past the scale maximum
                assert forall|t: Seq<int>| #[trigger] branch_accepts(*p, a, b, t) implies emitted(
                    results@,
                    t,
                ) || on_stack(stack@, t) by {
                    if !emitted(results@, t) && !on_stack(stack@, t) {
                        assert(is_prefix(cur_s, t) && t[len as int] >= c as int);
                        assert(t[len as int] <= p.max_scale);
                        assert(false);
                    }
                }
                // the potential dropped: at most base - 1 children replaced a
                // state worth base times a child
                assert(state_pot(*p, cur) == pow_nat(base, (p.n - len) as nat));
                assert(pow_nat(base, (p.n - len) as nat) == base * child_pot);
                assert(((c - last) as nat) * child_pot <= ((p.max_scale + 1 - last) as nat)
                    * child_pot) by (nonlinear_arith)
                    requires
                        c as int <= p.max_scale + 1,
                        last as int <= c as int,
                        child_pot >= 0,
                ;
                assert(((p.max_scale + 1 - last) as nat) * child_pot + child_pot <= base
                    * child_pot) by (nonlinear_arith)
                    requires
                        base >= (p.max_scale + 2 - last) as nat,
                        (p.max_scale + 1 - last) as nat >= 0,
                        child_pot >= 1,
                        base == (p.max_scale - p.min_scale + 2) as nat,
                        last as int >= p.min_scale as int,
                        p.max_scale as int + 1 >= last as int,
                ;
                assert(stack_pot(*p, stack@) < stack_pot(*p, old_stack));
            }
        }
    }
    proof {
        assert forall|t: Seq<int>| #[trigger] branch_accepts(*p, a, b, t) implies emitted(
            results@,
            t,
        ) by {
            assert(stack@.len() == 0);
        }
    }
    results
}

} // verus!
