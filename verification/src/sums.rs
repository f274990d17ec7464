//! The mathematical model of aggregation: sums over a sequence of
//! per-epoch values, with the decomposition lemmas the index proofs need.

use vstd::prelude::*;

verus! {

/// Sum of the values `s[a..b)` as an unbounded integer.
/// An empty (or inverted) range sums to zero.
pub open spec fn sum_vals(s: Seq<u64>, a: int, b: int) -> int
    decreases b - a,
{
    if a >= b {
        0
    } else {
        s[a] + sum_vals(s, a + 1, b)
    }
}

/// A sum splits at any point between its bounds.
pub proof fn lemma_sum_split(s: Seq<u64>, a: int, m: int, b: int)
    requires
        a <= m <= b,
    ensures
        sum_vals(s, a, b) == sum_vals(s, a, m) + sum_vals(s, m, b),
    decreases m - a,
{
    if a < m {
        lemma_sum_split(s, a + 1, m, b);
    }
}

/// A sum over one value is that value.
pub proof fn lemma_sum_single(s: Seq<u64>, a: int)
    ensures
        sum_vals(s, a, a + 1) == s[a],
{
    assert(sum_vals(s, a + 1, a + 1) == 0);
}

/// The sum only reads the values inside the range: two sequences that
/// agree there have the same sum.
pub proof fn lemma_sum_agree(s1: Seq<u64>, s2: Seq<u64>, a: int, b: int)
    requires
        forall|i: int| a <= i < b ==> #[trigger] s1[i] == s2[i],
    ensures
        sum_vals(s1, a, b) == sum_vals(s2, a, b),
    decreases b - a,
{
    if a < b {
        assert(s1[a] == s2[a]);
        lemma_sum_agree(s1, s2, a + 1, b);
    }
}

/// A sum over an in-bounds range is non-negative.
pub proof fn lemma_sum_nonneg(s: Seq<u64>, a: int, b: int)
    requires
        0 <= a,
        b <= s.len(),
    ensures
        sum_vals(s, a, b) >= 0,
    decreases b - a,
{
    if a < b {
        lemma_sum_nonneg(s, a + 1, b);
    }
}

/// A sum over a sub-range never exceeds the sum over the whole
/// in-bounds range.
pub proof fn lemma_sum_sub_range(s: Seq<u64>, a: int, a2: int, b2: int, b: int)
    requires
        0 <= a <= a2,
        a2 <= b2,
        b2 <= b <= s.len(),
    ensures
        sum_vals(s, a2, b2) <= sum_vals(s, a, b),
{
    lemma_sum_split(s, a, a2, b);
    lemma_sum_split(s, a2, b2, b);
    lemma_sum_nonneg(s, a, a2);
    lemma_sum_nonneg(s, b2, b);
}

} // verus!
