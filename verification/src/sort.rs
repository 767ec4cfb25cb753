//! A stable sort that answers with positions instead of moving values.

use vstd::prelude::*;

verus! {

/// `a` comes before `b` in the stable order of `keys`: by key, and by position
/// where the keys are equal.
pub open spec fn stably_before(keys: Seq<i128>, a: int, b: int) -> bool {
    keys[a] < keys[b] || (keys[a] == keys[b] && a < b)
}

/// `order` lists the positions `lo..hi` of `keys`, each exactly once, in stable order.
pub open spec fn orders_range(keys: Seq<i128>, order: Seq<usize>, lo: int, hi: int) -> bool {
    &&& order.len() == hi - lo
    &&& forall|i: int| 0 <= i < order.len() ==> lo <= #[trigger] order[i] < hi
    &&& forall|i: int, j: int|
        0 <= i < j < order.len() ==> stably_before(
            keys,
            #[trigger] order[i] as int,
            #[trigger] order[j] as int,
        )
}

/// `order` is the stable order of all of `keys`.
pub open spec fn is_stable_order(keys: Seq<i128>, order: Seq<usize>) -> bool {
    orders_range(keys, order, 0, keys.len() as int)
}

fn merge_ordered(
    keys: &Vec<i128>,
    a: Vec<usize>,
    b: Vec<usize>,
    Ghost(lo): Ghost<int>,
    Ghost(mid): Ghost<int>,
    Ghost(hi): Ghost<int>,
) -> (out: Vec<usize>)
    requires
        0 <= lo <= mid <= hi <= keys@.len(),
        orders_range(keys@, a@, lo, mid),
        orders_range(keys@, b@, mid, hi),
    ensures
        orders_range(keys@, out@, lo, hi),
{
    let mut out: Vec<usize> = Vec::new();
    let mut i: usize = 0;
    let mut j: usize = 0;
    while i < a.len() || j < b.len()
        invariant
            0 <= lo <= mid <= hi <= keys@.len(),
            orders_range(keys@, a@, lo, mid),
            orders_range(keys@, b@, mid, hi),
            i <= a@.len(),
            j <= b@.len(),
            out@.len() == i + j,
            forall|p: int| 0 <= p < out@.len() ==> lo <= #[trigger] out@[p] < hi,
            forall|p: int, q: int|
                0 <= p < q < out@.len() ==> stably_before(
                    keys@,
                    #[trigger] out@[p] as int,
                    #[trigger] out@[q] as int,
                ),
            forall|p: int, q: int|
                0 <= p < out@.len() && i <= q < a@.len() ==> stably_before(
                    keys@,
                    #[trigger] out@[p] as int,
                    #[trigger] a@[q] as int,
                ),
            forall|p: int, q: int|
                0 <= p < out@.len() && j <= q < b@.len() ==> stably_before(
                    keys@,
                    #[trigger] out@[p] as int,
                    #[trigger] b@[q] as int,
                ),
        decreases a@.len() - i + b@.len() - j,
    {
        let take_left: bool = if i == a.len() {
            false
        } else if j == b.len() {
            true
        } else {
            keys[a[i]] <= keys[b[j]]
        };
        if take_left {
            proof {
                assert forall|q: int| j <= q < b@.len() implies stably_before(
                    keys@,
                    a@[i as int] as int,
                    #[trigger] b@[q] as int,
                ) by {
                    if q > j {
                        assert(stably_before(keys@, b@[j as int] as int, b@[q] as int));
                    }
                }
            }
            out.push(a[i]);
            i += 1;
        } else {
            proof {
                assert forall|q: int| i <= q < a@.len() implies stably_before(
                    keys@,
                    b@[j as int] as int,
                    #[trigger] a@[q] as int,
                ) by {
                    if q > i {
                        assert(stably_before(keys@, a@[i as int] as int, a@[q] as int));
                    }
                }
            }
            out.push(b[j]);
            j += 1;
        }
    }
    out
}

fn order_between(keys: &Vec<i128>, lo: usize, hi: usize) -> (order: Vec<usize>)
    requires
        lo <= hi <= keys@.len(),
    ensures
        orders_range(keys@, order@, lo as int, hi as int),
    decreases hi - lo,
{
    if hi - lo == 0 {
        return Vec::new();
    }
    if hi - lo == 1 {
        let mut one: Vec<usize> = Vec::new();
        one.push(lo);
        return one;
    }
    let mid: usize = lo + (hi - lo) / 2;
    let left: Vec<usize> = order_between(keys, lo, mid);
    let right: Vec<usize> = order_between(keys, mid, hi);
    merge_ordered(keys, left, right, Ghost(lo as int), Ghost(mid as int), Ghost(hi as int))
}

/// The positions of `keys` in stable ascending order of their keys.
pub fn stable_order(keys: &Vec<i128>) -> (order: Vec<usize>)
    ensures
        is_stable_order(keys@, order@),
{
    order_between(keys, 0, keys.len())
}

/// A stable order leaves no position out.
pub proof fn stable_order_is_complete(keys: Seq<i128>, order: Seq<usize>, v: int)
    requires
        is_stable_order(keys, order),
        0 <= v < keys.len(),
    ensures
        exists|i: int| 0 <= i < order.len() && #[trigger] order[i] == v,
{
    let positions = order.map_values(|p: usize| p as int);
    assert(positions.no_duplicates()) by {
        assert forall|i: int, j: int|
            0 <= i < positions.len() && 0 <= j < positions.len() && i != j implies positions[i]
            != positions[j] by {
            if i < j {
                assert(stably_before(keys, order[i] as int, order[j] as int));
            } else {
                assert(stably_before(keys, order[j] as int, order[i] as int));
            }
        }
    }
    positions.unique_seq_to_set();
    let all = vstd::set_lib::set_int_range(0, keys.len() as int);
    vstd::set_lib::lemma_int_range(0, keys.len() as int);
    assert(positions.to_set().subset_of(all)) by {
        assert forall|x: int| positions.to_set().contains(x) implies all.contains(x) by {
            let i = choose|i: int| 0 <= i < positions.len() && positions[i] == x;
            assert(0 <= order[i] < keys.len());
        }
    }
    vstd::set_lib::lemma_subset_equality(positions.to_set(), all);
    assert(positions.to_set().contains(v));
    let i = choose|i: int| 0 <= i < positions.len() && positions[i] == v;
    assert(order[i] == v);
}

/// There is only one stable order.
pub proof fn stable_order_is_unique(keys: Seq<i128>, a: Seq<usize>, b: Seq<usize>)
    requires
        is_stable_order(keys, a),
        is_stable_order(keys, b),
    ensures
        a == b,
{
    assert forall|n: int| 0 <= n <= a.len() implies a.subrange(0, n) == #[trigger] b.subrange(
        0,
        n,
    ) by {
        lemma_orders_agree_up_to(keys, a, b, n);
    }
    assert(a == a.subrange(0, a.len() as int));
    assert(b == b.subrange(0, a.len() as int));
}

proof fn lemma_orders_agree_up_to(keys: Seq<i128>, a: Seq<usize>, b: Seq<usize>, n: int)
    requires
        is_stable_order(keys, a),
        is_stable_order(keys, b),
        0 <= n <= a.len(),
    ensures
        a.subrange(0, n) == b.subrange(0, n),
    decreases n,
{
    if n > 0 {
        let m = n - 1;
        lemma_orders_agree_up_to(keys, a, b, m);
        assert forall|p: int| 0 <= p < m implies #[trigger] a[p] == b[p] by {
            assert(a.subrange(0, m)[p] == b.subrange(0, m)[p]);
        }
        if a[m] != b[m] {
            stable_order_is_complete(keys, b, a[m] as int);
            let j = choose|j: int| 0 <= j < b.len() && #[trigger] b[j] == a[m];
            stable_order_is_complete(keys, a, b[m] as int);
            let i = choose|i: int| 0 <= i < a.len() && #[trigger] a[i] == b[m];
            if j < m {
                assert(a[j] == b[j]);
                assert(stably_before(keys, a[j] as int, a[m] as int));
            }
            if i < m {
                assert(a[i] == b[i]);
                assert(stably_before(keys, b[i] as int, b[m] as int));
            }
            assert(stably_before(keys, b[m] as int, b[j] as int));
            assert(stably_before(keys, a[m] as int, a[i] as int));
        }
        assert(a.subrange(0, n) =~= b.subrange(0, n));
    }
}

/// Values listed in a stable order are the same values, in another order.
pub proof fn lemma_sorted_is_permutation<T>(
    keys: Seq<i128>,
    order: Seq<usize>,
    values: Seq<T>,
    sorted: Seq<T>,
)
    requires
        is_stable_order(keys, order),
        values.len() == keys.len(),
        sorted.len() == keys.len(),
        forall|i: int| 0 <= i < sorted.len() ==> #[trigger] sorted[i] == values[order[i] as int],
    ensures
        sorted.to_multiset() == values.to_multiset(),
{
    let positions = order.map_values(|p: usize| p as int);
    assert(positions.no_duplicates()) by {
        assert forall|i: int, j: int|
            0 <= i < positions.len() && 0 <= j < positions.len() && i != j implies positions[i]
            != positions[j] by {
            if i < j {
                assert(stably_before(keys, order[i] as int, order[j] as int));
            } else {
                assert(stably_before(keys, order[j] as int, order[i] as int));
            }
        }
    }
    lemma_reindexed_multiset(values, positions, sorted);
}

/// Picking each position of `values` once gives the same values in another order.
proof fn lemma_reindexed_multiset<T>(values: Seq<T>, positions: Seq<int>, picked: Seq<T>)
    requires
        positions.no_duplicates(),
        positions.len() == values.len(),
        picked.len() == values.len(),
        forall|i: int| 0 <= i < positions.len() ==> 0 <= #[trigger] positions[i] < values.len(),
        forall|i: int| 0 <= i < picked.len() ==> #[trigger] picked[i] == values[positions[i]],
    ensures
        picked.to_multiset() == values.to_multiset(),
    decreases values.len(),
{
    broadcast use vstd::seq_lib::group_to_multiset_ensures;

    if values.len() == 0 {
        assert(picked =~= values);
    } else {
        let n = values.len() - 1;
        let at = positions[n];
        let rest = values.remove(at);
        let moved = Seq::new(
            n as nat,
            |i: int|
                if positions[i] > at {
                    positions[i] - 1
                } else {
                    positions[i]
                },
        );
        let fewer = picked.drop_last();
        assert forall|i: int| 0 <= i < n implies {
            &&& 0 <= #[trigger] moved[i] < rest.len()
            &&& fewer[i] == rest[moved[i]]
        } by {
            assert(positions[i] != positions[n]);
            assert(picked[i] == values[positions[i]]);
        }
        assert forall|i: int, j: int|
            0 <= i < moved.len() && 0 <= j < moved.len() && i != j implies moved[i] != moved[j] by {
            assert(positions[i] != positions[j]);
            assert(positions[i] != positions[n]);
            assert(positions[j] != positions[n]);
        }
        lemma_reindexed_multiset(rest, moved, fewer);
        assert(picked =~= fewer.push(values[at]));
        vstd::seq_lib::to_multiset_remove(values, at);
        vstd::seq_lib::to_multiset_contains(values, values[at]);
        assert(values.contains(values[at]));
        assert(picked.to_multiset() =~= values.to_multiset());
    }
}

/// `values` in ascending order.
pub open spec fn ascending(values: Seq<i32>) -> Seq<i32> {
    values.sort_by(|a: i32, b: i32| a <= b)
}

/// `values` in ascending order.
pub fn sort_ascending(values: &Vec<i32>) -> (sorted: Vec<i32>)
    ensures
        sorted@ == ascending(values@),
        sorted@.len() == values@.len(),
{
    let n: usize = values.len();
    let mut keys: Vec<i128> = Vec::new();
    let mut i: usize = 0;
    while i < n
        invariant
            n == values@.len(),
            i <= n,
            keys@.len() == i,
            forall|k: int| 0 <= k < i ==> #[trigger] keys@[k] == values@[k],
        decreases n - i,
    {
        keys.push(values[i] as i128);
        i += 1;
    }
    let order: Vec<usize> = stable_order(&keys);
    let mut sorted: Vec<i32> = Vec::new();
    let mut i: usize = 0;
    while i < n
        invariant
            n == values@.len() == keys@.len(),
            is_stable_order(keys@, order@),
            i <= n,
            sorted@.len() == i,
            forall|k: int| 0 <= k < i ==> #[trigger] sorted@[k] == values@[order@[k] as int],
        decreases n - i,
    {
        sorted.push(values[order[i]]);
        i += 1;
    }
    proof {
        let leq = |a: i32, b: i32| a <= b;
        lemma_sorted_is_permutation(keys@, order@, values@, sorted@);
        values@.lemma_sort_by_ensures(leq);
        assert(vstd::relations::sorted_by(sorted@, leq)) by {
            assert forall|i: int, j: int| 0 <= i < j < sorted@.len() implies leq(
                #[trigger] sorted@[i],
                #[trigger] sorted@[j],
            ) by {
                assert(stably_before(keys@, order@[i] as int, order@[j] as int));
            }
        }
        vstd::seq_lib::lemma_sorted_unique(sorted@, ascending(values@), leq);
    }
    sorted
}

} // verus!
