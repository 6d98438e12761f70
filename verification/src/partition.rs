//! The branch partitioner: every valid two-element starting prefix `(i, j)`
//! with `min_scale <= i <= j <= max_scale`, and the closed-form count of
//! those prefixes.

use vstd::prelude::*;

verus! {

/// The `w`-th triangle number: the number of pairs `(i, j)` with
/// `i <= j` drawn from a range of `w` values.
pub open spec fn tri(w: int) -> int
    decreases w,
{
    if w <= 0 {
        0
    } else {
        w + tri(w - 1)
    }
}

/// Closed form of the triangle number, stated free of division.
pub proof fn lemma_tri_closed(w: int)
    requires
        w >= 0,
    ensures
        2 * tri(w) == w * (w + 1),
    decreases w,
{
    if w == 0 {
    } else {
        lemma_tri_closed(w - 1);
        assert((w - 1) * w + 2 * w == w * (w + 1)) by (nonlinear_arith);
    }
}

/// Number of starting prefixes that the search fans out over: the pairs
/// `(i, j)` with `min_scale <= i <= j <= max_scale`, counted by the formula
/// `w * (w + 1) / 2` for a range of `w` values.
pub fn count_initial_combinations(min_scale: i32, max_scale: i32) -> (r: i64)
    requires
        -10_000 <= min_scale as int,
        min_scale <= max_scale,
        max_scale as int <= 10_000,
    ensures
        r == tri(max_scale - min_scale + 1),
        2 * r == (max_scale - min_scale + 1) * (max_scale - min_scale + 2),
{
    let w: i64 = max_scale as i64 - min_scale as i64 + 1;
    proof {
        lemma_tri_closed(w as int);
        assert(0 <= (w as int) * (w as int + 1) <= 800_000_000) by (nonlinear_arith)
            requires
                1 <= w as int <= 20_001,
        ;
        assert((2 * tri(w as int)) / 2 == tri(w as int)) by (nonlinear_arith);
    }
    w * (w + 1) / 2
}

/// The pair `(a, b)` occurs in the partition list.
pub open spec fn seed_in(parts: Seq<(i32, i32)>, a: i32, b: i32) -> bool {
    exists|idx: int| 0 <= idx < parts.len() && parts[idx] == (a, b)
}

/// Enumerate every starting prefix exactly once, in lexicographic order.
pub fn enumerate_partitions(min_scale: i32, max_scale: i32) -> (parts: Vec<(i32, i32)>)
    requires
        -10_000 <= min_scale as int,
        min_scale <= max_scale,
        max_scale as int <= 10_000,
    ensures
        forall|idx: int|
            0 <= idx < parts@.len() ==> min_scale <= (#[trigger] parts@[idx]).0
                && parts@[idx].0 <= parts@[idx].1 && parts@[idx].1 <= max_scale,
        forall|a: i32, b: i32|
            min_scale <= a <= b <= max_scale ==> #[trigger] seed_in(parts@, a, b),
        parts@.len() == tri(max_scale - min_scale + 1),
        forall|x: int, y: int| 0 <= x < y < parts@.len() ==> parts@[x] != parts@[y],
{
    let ghost w: int = max_scale - min_scale + 1;
    let mut parts: Vec<(i32, i32)> = Vec::new();
    let mut i: i32 = min_scale;
    while i <= max_scale
        invariant
            -10_000 <= min_scale as int,
            min_scale <= max_scale,
            max_scale as int <= 10_000,
            min_scale <= i as int <= max_scale + 1,
            w == max_scale - min_scale + 1,
            parts@.len() == tri(w) - tri(max_scale - i + 1),
            forall|idx: int|
                0 <= idx < parts@.len() ==> min_scale <= (#[trigger] parts@[idx]).0
                    && parts@[idx].0 <= parts@[idx].1 && parts@[idx].1 <= max_scale,
            forall|idx: int| 0 <= idx < parts@.len() ==> (#[trigger] parts@[idx]).0 < i,
            forall|a: i32, b: i32|
                min_scale <= a <= b <= max_scale && a < i ==> #[trigger] seed_in(parts@, a, b),
            forall|x: int, y: int| 0 <= x < y < parts@.len() ==> parts@[x] != parts@[y],
        decreases max_scale + 1 - i,
    {
        let mut j: i32 = i;
        while j <= max_scale
            invariant
                -10_000 <= min_scale as int,
                min_scale <= max_scale,
                max_scale as int <= 10_000,
                min_scale <= i as int <= max_scale,
                i as int <= j as int <= max_scale + 1,
                w == max_scale - min_scale + 1,
                parts@.len() == tri(w) - tri(max_scale - i + 1) + (j - i),
                forall|idx: int|
                    0 <= idx < parts@.len() ==> min_scale <= (#[trigger] parts@[idx]).0
                        && parts@[idx].0 <= parts@[idx].1 && parts@[idx].1 <= max_scale,
                forall|idx: int|
                    0 <= idx < parts@.len() ==> (#[trigger] parts@[idx]).0 < i || (parts@[idx].0
                        == i && parts@[idx].1 < j),
                forall|a: i32, b: i32|
                    min_scale <= a <= b <= max_scale && (a < i || (a == i && b < j))
                        ==> #[trigger] seed_in(parts@, a, b),
                forall|x: int, y: int| 0 <= x < y < parts@.len() ==> parts@[x] != parts@[y],
            decreases max_scale + 1 - j,
        {
            let ghost old_parts = parts@;
            parts.push((i, j));
            proof {
                assert(parts@[old_parts.len() as int] == (i, j));
                assert(seed_in(parts@, i, j));
                assert forall|a: i32, b: i32|
                    min_scale <= a <= b <= max_scale && (a < i || (a == i && b <= j)) implies seed_in(
                    parts@,
                    a,
                    b,
                ) by {
                    if a == i && b == j {
                        assert(seed_in(parts@, i, j));
                    } else {
                        assert(seed_in(old_parts, a, b));
                        let idx = choose|idx: int|
                            0 <= idx < old_parts.len() && old_parts[idx] == (a, b);
                        assert(parts@[idx] == (a, b));
                    }
                }
            }
            j = j + 1;
        }
        proof {
            // tri(m) unfolds once for the step of the outer length invariant
            assert(tri(max_scale - i + 1) == (max_scale - i + 1) + tri(max_scale - i));
        }
        i = i + 1;
    }
    parts
}

} // verus!
