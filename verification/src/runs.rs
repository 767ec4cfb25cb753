//! Run-length coded sequences.

use crate::sums;
use vstd::prelude::*;

verus! {

/// The sequence that `runs` stands for: each value as many times as its run is long.
pub open spec fn expand<T>(runs: Seq<(u32, T)>) -> Seq<T>
    decreases runs.len(),
{
    if runs.len() == 0 {
        Seq::empty()
    } else {
        expand(runs.drop_last()) + Seq::new(runs.last().0 as nat, |i: int| runs.last().1)
    }
}

/// The lengths of the runs.
pub open spec fn counts<T>(runs: Seq<(u32, T)>) -> Seq<u32> {
    runs.map_values(|r: (u32, T)| r.0)
}

/// No run is empty, and neighbouring runs have different values.
pub open spec fn is_compact<T>(runs: Seq<(u32, T)>) -> bool {
    &&& forall|i: int| 0 <= i < runs.len() ==> (#[trigger] runs[i]).0 > 0
    &&& forall|i: int, j: int|
        0 <= i < runs.len() && j == i + 1 && j < runs.len() ==> (#[trigger] runs[i]).1 != (
        #[trigger] runs[j]).1
}

/// One more run adds its values at the end.
pub proof fn lemma_expand_push<T>(runs: Seq<(u32, T)>, run: (u32, T))
    ensures
        expand(runs.push(run)) == expand(runs) + Seq::new(run.0 as nat, |i: int| run.1),
{
    assert(runs.push(run).drop_last() =~= runs);
}

/// The expansion is as long as all runs together.
pub proof fn lemma_expand_len<T>(runs: Seq<(u32, T)>)
    ensures
        expand(runs).len() == sums::sum(counts(runs)),
    decreases runs.len(),
{
    if runs.len() > 0 {
        let rest = runs.drop_last();
        lemma_expand_len(rest);
        sums::lemma_sum_to_agree(counts(rest), counts(runs), rest.len() as int);
    }
}

/// The expansion of the first `k` runs starts the expansion of all.
pub proof fn lemma_expand_prefix<T>(runs: Seq<(u32, T)>, k: int)
    requires
        0 <= k <= runs.len(),
    ensures
        expand(runs.take(k)).len() == sums::sum_to(counts(runs), k),
        expand(runs.take(k)).len() <= expand(runs).len(),
        expand(runs).take(expand(runs.take(k)).len() as int) == expand(runs.take(k)),
    decreases runs.len() - k,
{
    lemma_expand_len(runs.take(k));
    sums::lemma_sum_to_agree(counts(runs.take(k)), counts(runs), k);
    if k < runs.len() {
        lemma_expand_prefix(runs, k + 1);
        assert(runs.take(k + 1) =~= runs.take(k).push(runs[k]));
        lemma_expand_push(runs.take(k), runs[k]);
        let shorter = expand(runs.take(k));
        assert(expand(runs).take(shorter.len() as int) =~= expand(runs.take(k + 1)).take(
            shorter.len() as int,
        ));
        assert(expand(runs.take(k + 1)).take(shorter.len() as int) =~= shorter);
    } else {
        assert(runs.take(k) =~= runs);
        assert(expand(runs).take(expand(runs).len() as int) =~= expand(runs));
    }
}

} // verus!
