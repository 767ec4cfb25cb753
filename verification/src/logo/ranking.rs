//! Ranking: what ranks before comes first, and what ranks equal stays in order.

use vstd::prelude::*;

verus! {

/// What can be ranked.
pub trait Ranked: Copy {
    /// One ranks before another.
    spec fn before(self, other: Self) -> bool;

    /// One ranks before another.
    fn ranks_before(&self, other: &Self) -> (r: bool)
        ensures
            r == (*self).before(*other),
    ;

    /// Ranking before is a matter of one order.
    proof fn is_weak_order(a: Self, b: Self, c: Self)
        ensures
            a.before(b) ==> !b.before(a),
            !b.before(a) && !c.before(b) ==> !c.before(a),
    ;
}

/// The place among ranked values, from place `k` on, that `e` belongs to: before the first one
/// that it ranks before.
pub open spec fn place_for<T: Ranked>(ranked: Seq<T>, e: T, k: int) -> int
    decreases ranked.len() - k,
{
    if k >= ranked.len() || e.before(ranked[k]) {
        k
    } else {
        place_for(ranked, e, k + 1)
    }
}

/// The first `n` values by rank; values of the same rank stay in order.
pub open spec fn ranking<T: Ranked>(values: Seq<T>, n: int) -> Seq<T>
    decreases n,
{
    if n <= 0 {
        Seq::empty()
    } else {
        let ranked = ranking(values, n - 1);
        ranked.insert(place_for(ranked, values[n - 1], 0), values[n - 1])
    }
}

/// All values by rank.
pub open spec fn ranked<T: Ranked>(values: Seq<T>) -> Seq<T> {
    ranking(values, values.len() as int)
}

pub proof fn lemma_place_for<T: Ranked>(ranked: Seq<T>, e: T, k: int)
    requires
        0 <= k <= ranked.len(),
    ensures
        k <= place_for(ranked, e, k) <= ranked.len(),
        forall|i: int| k <= i < place_for(ranked, e, k) ==> !e.before(#[trigger] ranked[i]),
        place_for(ranked, e, k) < ranked.len() ==> e.before(ranked[place_for(ranked, e, k)]),
    decreases ranked.len() - k,
{
    if k < ranked.len() && !e.before(ranked[k]) {
        lemma_place_for(ranked, e, k + 1);
    }
}

/// Nothing in a ranking ranks before something that stands earlier, and the ranking has the
/// values that were ranked.
pub proof fn ranking_is_in_order<T: Ranked>(values: Seq<T>, n: int)
    requires
        0 <= n <= values.len(),
    ensures
        ranking(values, n).len() == n,
        forall|i: int, j: int|
            0 <= i < j < n ==> !(#[trigger] ranking(values, n)[j]).before(
                #[trigger] ranking(values, n)[i],
            ),
        ranking(values, n).to_multiset() == values.take(n).to_multiset(),
    decreases n,
{
    if n > 0 {
        ranking_is_in_order(values, n - 1);
        let earlier = ranking(values, n - 1);
        let e = values[n - 1];
        let at = place_for(earlier, e, 0);
        lemma_place_for(earlier, e, 0);
        let all = ranking(values, n);
        assert forall|i: int, j: int| 0 <= i < j < n implies !(#[trigger] all[j]).before(
            #[trigger] all[i],
        ) by {
            if j < at {
                assert(!earlier[j].before(earlier[i]));
            } else if j == at {
                assert(!e.before(earlier[i]));
            } else if i < at {
                assert(!earlier[j - 1].before(earlier[i]));
            } else if i == at {
                T::is_weak_order(e, earlier[at], earlier[j - 1]);
                if j - 1 > at {
                    assert(!earlier[j - 1].before(earlier[at]));
                }
            } else {
                assert(!earlier[j - 1].before(earlier[i - 1]));
            }
        }
        broadcast use vstd::seq_lib::group_to_multiset_ensures;

        assert(values.take(n) =~= values.take(n - 1).push(e));
        vstd::seq_lib::to_multiset_insert(earlier, at, e);
    } else {
        assert(values.take(0) =~= ranking(values, 0));
    }
}

/// Every value of a ranking is one that was ranked.
pub proof fn lemma_ranking_members<T: Ranked>(values: Seq<T>, n: int, k: int)
    requires
        0 <= n <= values.len(),
        0 <= k < ranking(values, n).len(),
    ensures
        exists|m: int| 0 <= m < n && #[trigger] values[m] == ranking(values, n)[k],
    decreases n,
{
    if n > 0 {
        let earlier = ranking(values, n - 1);
        let e = values[n - 1];
        let at = place_for(earlier, e, 0);
        lemma_place_for(earlier, e, 0);
        if k == at {
            assert(values[n - 1] == ranking(values, n)[k]);
        } else {
            let j = if k < at {
                k
            } else {
                k - 1
            };
            lemma_ranking_members(values, n - 1, j);
            let m = choose|m: int| 0 <= m < n - 1 && #[trigger] values[m] == earlier[j];
            assert(values[m] == ranking(values, n)[k]);
        }
    }
}

/// All values by rank.
pub fn rank<T: Ranked>(values: &Vec<T>) -> (r: Vec<T>)
    ensures
        r@ == ranked(values@),
{
    let mut r: Vec<T> = Vec::new();
    let mut i: usize = 0;
    while i < values.len()
        invariant
            i <= values@.len(),
            r@ == ranking(values@, i as int),
        decreases values@.len() - i,
    {
        let e: T = values[i];
        let mut k: usize = 0;
        while k < r.len() && !e.ranks_before(&r[k])
            invariant
                k <= r@.len(),
                place_for(r@, e, 0) == place_for(r@, e, k as int),
            decreases r@.len() - k,
        {
            k += 1;
        }
        r.insert(k, e);
        i += 1;
    }
    r
}

} // verus!
