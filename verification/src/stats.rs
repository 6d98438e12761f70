//! Running statistics of a partial sequence, kept exactly.
//!
//! A partial sequence of integers is summarised by its length, its sum, and
//! its sum of squares.  The accumulated sum of squared deviations from the
//! running mean (the Welford accumulator `m2`) is the rational
//! `m2k(s) / len(s)`, where `m2k(s) = len(s) * sumsq(s) - sum(s)^2` is an
//! integer; tracking `(sum, sumsq)` therefore tracks `m2` exactly, in O(1)
//! per appended element and without re-scanning the sequence.

use vstd::prelude::*;

verus! {

/// Mathematical view of a `Vec<i32>` as a sequence of unbounded integers.
pub open spec fn as_ints(s: Seq<i32>) -> Seq<int> {
    Seq::new(s.len(), |i: int| s[i] as int)
}

/// Sum of a sequence of integers.
pub open spec fn seq_sum(s: Seq<int>) -> int
    decreases s.len(),
{
    if s.len() == 0 {
        0
    } else {
        seq_sum(s.drop_last()) + s.last()
    }
}

/// Sum of the squares of a sequence of integers.
pub open spec fn seq_sumsq(s: Seq<int>) -> int
    decreases s.len(),
{
    if s.len() == 0 {
        0
    } else {
        seq_sumsq(s.drop_last()) + s.last() * s.last()
    }
}

/// The sum of squared deviations from the mean, scaled by the length:
/// for a sequence of length `k`, the Welford accumulator `m2` equals
/// `m2k(s) / k`.
pub open spec fn m2k(s: Seq<int>) -> int {
    s.len() * seq_sumsq(s) - seq_sum(s) * seq_sum(s)
}

pub proof fn lemma_seq_sum_push(s: Seq<int>, v: int)
    ensures
        seq_sum(s.push(v)) == seq_sum(s) + v,
        seq_sumsq(s.push(v)) == seq_sumsq(s) + v * v,
{
    assert(s.push(v).drop_last() =~= s);
    assert(s.push(v).last() == v);
}

/// Sums are additive over concatenation.
pub proof fn lemma_seq_sum_concat(a: Seq<int>, b: Seq<int>)
    ensures
        seq_sum(a + b) == seq_sum(a) + seq_sum(b),
        seq_sumsq(a + b) == seq_sumsq(a) + seq_sumsq(b),
    decreases b.len(),
{
    if b.len() == 0 {
        assert(a + b =~= a);
    } else {
        lemma_seq_sum_concat(a, b.drop_last());
        assert((a + b).drop_last() =~= a + b.drop_last());
        assert((a + b).last() == b.last());
    }
}

/// Element bounds give sum bounds.
pub proof fn lemma_seq_sum_bounds(s: Seq<int>, lo: int, hi: int)
    requires
        forall|i: int| 0 <= i < s.len() ==> lo <= #[trigger] s[i] <= hi,
    ensures
        lo * s.len() <= seq_sum(s) <= hi * s.len(),
    decreases s.len(),
{
    if s.len() == 0 {
    } else {
        lemma_seq_sum_bounds(s.drop_last(), lo, hi);
        assert(lo * s.len() == lo * (s.len() - 1) + lo) by (nonlinear_arith);
        assert(hi * s.len() == hi * (s.len() - 1) + hi) by (nonlinear_arith);
    }
}

/// Element magnitude bounds give sum-of-squares bounds.
pub proof fn lemma_seq_sumsq_bounds(s: Seq<int>, m: int)
    requires
        m >= 0,
        forall|i: int| 0 <= i < s.len() ==> -m <= #[trigger] s[i] <= m,
    ensures
        0 <= seq_sumsq(s) <= m * m * s.len(),
    decreases s.len(),
{
    if s.len() == 0 {
    } else {
        lemma_seq_sumsq_bounds(s.drop_last(), m);
        let v = s.last();
        assert(0 <= v * v <= m * m) by (nonlinear_arith)
            requires
                -m <= v <= m,
        ;
        assert(m * m * s.len() == m * m * (s.len() - 1) + m * m) by (nonlinear_arith);
    }
}

/// The exact form of one Welford update: appending `v` to a sequence of
/// length `k` with sum `a` raises the accumulator by
/// `(k*v - a)^2 / (k*(k+1))`, that is, by `delta * delta2` where
/// `delta = v - a/k` and `delta2 = v - (a+v)/(k+1)`.  Scaled free of
/// denominators it reads as below.
proof fn lemma_welford_algebra(k: int, a: int, q: int, v: int)
    ensures
        ((k + 1) * (q + v * v) - (a + v) * (a + v)) * k == (k * q - a * a) * (k + 1) + (k * v - a)
            * (k * v - a),
{
    assert((a + v) * (a + v) == a * a + 2 * (a * v) + v * v) by (nonlinear_arith);
    assert((k + 1) * (q + v * v) == k * q + q + k * (v * v) + v * v) by (nonlinear_arith);
    assert((k * q + q + k * (v * v) - a * a - 2 * (a * v)) * k == k * (k * q) + k * q + k * (k * (v
        * v)) - k * (a * a) - 2 * (k * (a * v))) by (nonlinear_arith);
    assert((k * q - a * a) * (k + 1) == k * (k * q) + k * q - k * (a * a) - a * a)
        by (nonlinear_arith);
    assert((k * v - a) * (k * v - a) == k * (k * (v * v)) - 2 * (k * (a * v)) + a * a)
        by (nonlinear_arith);
}

pub proof fn lemma_welford_step(s: Seq<int>, v: int)
    requires
        s.len() >= 1,
    ensures
        m2k(s.push(v)) * s.len() == m2k(s) * (s.len() + 1) + (s.len() * v - seq_sum(s)) * (
        s.len() * v - seq_sum(s)),
{
    lemma_seq_sum_push(s, v);
    let k = s.len() as int;
    let a = seq_sum(s);
    let q = seq_sumsq(s);
    lemma_welford_algebra(k, a, q, v);
}

/// The accumulator is never negative.
pub proof fn lemma_m2k_nonneg(s: Seq<int>)
    requires
        s.len() >= 1,
    ensures
        m2k(s) >= 0,
    decreases s.len(),
{
    if s.len() == 1 {
        let v = s.last();
        assert(s.drop_last().len() == 0);
        assert(seq_sum(s.drop_last()) == 0);
        assert(seq_sumsq(s.drop_last()) == 0);
        assert(seq_sum(s) == v);
        assert(seq_sumsq(s) == v * v);
    } else {
        let t = s.drop_last();
        let v = s.last();
        lemma_m2k_nonneg(t);
        assert(t.push(v) =~= s);
        lemma_welford_step(t, v);
        let d = t.len() * v - seq_sum(t);
        assert(d * d >= 0) by (nonlinear_arith);
        assert(m2k(t) * (t.len() + 1) >= 0) by (nonlinear_arith)
            requires
                m2k(t) >= 0,
                t.len() >= 1,
        ;
        assert(m2k(s) >= 0) by (nonlinear_arith)
            requires
                m2k(s) * t.len() >= 0,
                t.len() >= 1,
        ;
    }
}

/// Extending a sequence can only raise the accumulator: for a prefix `p` of
/// `s`, `m2k(p)/|p| <= m2k(s)/|s|`, stated here free of denominators.  This
/// is what lets the search prune on the projected standard deviation.
pub proof fn lemma_m2k_prefix_mono(p: Seq<int>, s: Seq<int>)
    requires
        1 <= p.len() <= s.len(),
        p == s.subrange(0, p.len() as int),
    ensures
        m2k(p) * s.len() <= m2k(s) * p.len(),
    decreases s.len(),
{
    if p.len() == s.len() {
        assert(p =~= s);
    } else {
        let t = s.drop_last();
        let v = s.last();
        assert(t =~= s.subrange(0, s.len() - 1));
        assert(p =~= t.subrange(0, p.len() as int));
        lemma_m2k_prefix_mono(p, t);
        assert(t.push(v) =~= s);
        lemma_welford_step(t, v);
        let d = t.len() * v - seq_sum(t);
        assert(d * d >= 0) by (nonlinear_arith);
        lemma_m2k_nonneg(p);
        // m2k(s) * t.len() >= m2k(t) * s.len()  and  m2k(p) * t.len() <= m2k(t) * p.len()
        assert(m2k(p) * s.len() <= m2k(s) * p.len()) by (nonlinear_arith)
            requires
                m2k(s) * (s.len() - 1) >= m2k(t) * s.len(),
                m2k(p) * (s.len() - 1) <= m2k(t) * p.len(),
                m2k(p) >= 0,
                1 <= p.len() < s.len(),
                t.len() == s.len() - 1,
        ;
    }
}

/// Running statistics of a partial sequence: length, sum, and sum of squares,
/// each exact.
#[derive(Clone, Copy, PartialEq, Eq, Structural, Debug)]
pub struct RunningStats {
    pub count: usize,
    pub sum: i64,
    pub sumsq: i64,
}

/// `st` summarises the sequence `s`.
pub open spec fn stats_for(st: RunningStats, s: Seq<int>) -> bool {
    &&& st.count == s.len()
    &&& st.sum == seq_sum(s)
    &&& st.sumsq == seq_sumsq(s)
}

impl RunningStats {
    /// Statistics of the empty sequence.
    pub fn new() -> (st: RunningStats)
        ensures
            stats_for(st, Seq::<int>::empty()),
    {
        RunningStats { count: 0, sum: 0, sumsq: 0 }
    }

    /// Statistics after appending one element, in O(1).
    pub fn pushed(&self, v: i32) -> (st: RunningStats)
        requires
            self.count < 1_000_000_000,
            -1_000_000_000_000_000 <= self.sum <= 1_000_000_000_000_000,
            0 <= self.sumsq <= 1_000_000_000_000_000,
            -1_000_000 <= v <= 1_000_000,
        ensures
            st.count == self.count + 1,
            st.sum == self.sum + v,
            st.sumsq == self.sumsq + v * v,
            forall|s: Seq<int>| stats_for(*self, s) ==> stats_for(st, #[trigger] s.push(v as int)),
    {
        proof {
            assert(0 <= (v as i64) * (v as i64) <= 1_000_000_000_000) by (nonlinear_arith)
                requires
                    -1_000_000 <= v <= 1_000_000,
            ;
        }
        let st = RunningStats {
            count: self.count + 1,
            sum: self.sum + v as i64,
            sumsq: self.sumsq + (v as i64) * (v as i64),
        };
        proof {
            assert forall|s: Seq<int>| stats_for(*self, s) implies stats_for(
                st,
                #[trigger] s.push(v as int),
            ) by {
                lemma_seq_sum_push(s, v as int);
            }
        }
        st
    }

    /// The scaled accumulator `count * sumsq - sum^2`; when the statistics
    /// summarise `s` this is exactly `m2k(s)`.
    pub fn m2k_value(&self) -> (r: i64)
        requires
            0 <= self.count <= 10_000,
            -100_000_000 <= self.sum <= 100_000_000,
            0 <= self.sumsq <= 1_000_000_000_000,
        ensures
            r == self.count * self.sumsq - self.sum * self.sum,
    {
        proof {
            assert(0 <= self.count * self.sumsq <= 10_000_000_000_000_000) by (nonlinear_arith)
                requires
                    0 <= self.count <= 10_000,
                    0 <= self.sumsq <= 1_000_000_000_000,
            ;
            assert(0 <= self.sum * self.sum <= 10_000_000_000_000_000) by (nonlinear_arith)
                requires
                    -100_000_000 <= self.sum <= 100_000_000,
            ;
        }
        (self.count as i64) * self.sumsq - self.sum * self.sum
    }
}

} // verus!
