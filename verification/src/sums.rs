//! Sums over the first elements of a sequence.

use vstd::prelude::*;

verus! {

/// The sum of the first `k` elements of `s`.
pub open spec fn sum_to(s: Seq<u32>, k: int) -> int
    decreases k,
{
    if k <= 0 {
        0
    } else {
        sum_to(s, k - 1) + s[k - 1]
    }
}

/// The sum of all elements of `s`.
pub open spec fn sum(s: Seq<u32>) -> int {
    sum_to(s, s.len() as int)
}

/// Longer prefixes have larger sums.
pub proof fn lemma_sum_to_monotone(s: Seq<u32>, j: int, k: int)
    requires
        j <= k,
    ensures
        0 <= sum_to(s, j) <= sum_to(s, k),
    decreases k,
{
    if k > 0 {
        if j < k {
            lemma_sum_to_monotone(s, j, k - 1);
        } else {
            lemma_sum_to_monotone(s, j - 1, k - 1);
        }
    }
}

/// A sum of `k` numbers of 32 bits each is at most `k` times the largest of them.
pub proof fn lemma_sum_to_bound(s: Seq<u32>, k: int)
    requires
        0 <= k,
    ensures
        0 <= sum_to(s, k) <= k * u32::MAX,
    decreases k,
{
    if k > 0 {
        lemma_sum_to_bound(s, k - 1);
        assert((k - 1) * u32::MAX + u32::MAX == k * u32::MAX) by (nonlinear_arith);
    }
}

/// Only the first `k` elements matter to the sum of the first `k` elements.
pub proof fn lemma_sum_to_agree(a: Seq<u32>, b: Seq<u32>, k: int)
    requires
        forall|i: int| 0 <= i < k ==> #[trigger] a[i] == b[i],
    ensures
        sum_to(a, k) == sum_to(b, k),
    decreases k,
{
    if k > 0 {
        lemma_sum_to_agree(a, b, k - 1);
    }
}

/// The sum over equal elements is a product.
pub proof fn lemma_sum_to_constant(s: Seq<u32>, v: u32, k: int)
    requires
        0 <= k,
        forall|i: int| 0 <= i < k ==> #[trigger] s[i] == v,
    ensures
        sum_to(s, k) == k * v,
    decreases k,
{
    if k > 0 {
        lemma_sum_to_constant(s, v, k - 1);
        assert((k - 1) * v + v == k * v) by (nonlinear_arith);
    } else {
        assert(k * v == 0) by (nonlinear_arith)
            requires
                k == 0,
        ;
    }
}

} // verus!
