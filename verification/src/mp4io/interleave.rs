//! The order in which the chunks of all tracks are stored: by their start times, so that a
//! player finds the sound of a scene next to its pictures.

use crate::mp4io::read::SampleInfo;
use crate::mp4io;
use crate::mp4io::write::Chunk;
use crate::sort;
use crate::sums;
use vstd::prelude::*;

verus! {

/// The samples of several tracks.
pub open spec fn sample_lists(kept: Seq<Vec<SampleInfo>>) -> Seq<Seq<SampleInfo>> {
    kept.map_values(|v: Vec<SampleInfo>| v@)
}

/// `start_key` answers for every start time, and answers with larger numbers for later
/// times of the same track.
pub open spec fn orders_starts<F: Fn(u64, u64) -> u64>(start_key: F) -> bool {
    &&& forall|units: u64, per_second: u64|
        per_second > 0 ==> #[trigger] start_key.requires((units, per_second))
    &&& forall|u: u64, v: u64, per_second: u64, a: u64, b: u64|
        u <= v && #[trigger] start_key.ensures((u, per_second), a) && #[trigger] start_key.ensures(
            (v, per_second),
            b,
        ) ==> a <= b
}

/// The first `n` lists, one after the other.
pub open spec fn concat_to(lists: Seq<Seq<Chunk>>, n: int) -> Seq<Chunk>
    decreases n,
{
    if n <= 0 {
        Seq::empty()
    } else {
        concat_to(lists, n - 1) + lists[n - 1]
    }
}

/// Those of the first `n` chunks that belong to a track.
pub open spec fn of_track(chunks: Seq<Chunk>, track_index: int, n: int) -> Seq<Chunk>
    decreases n,
{
    if n <= 0 {
        Seq::empty()
    } else if chunks[n - 1].track_index == track_index {
        of_track(chunks, track_index, n - 1).push(chunks[n - 1])
    } else {
        of_track(chunks, track_index, n - 1)
    }
}

/// The keys in the form in which they are sorted.
pub open spec fn sort_keys(keys: Seq<u64>) -> Seq<i128> {
    keys.map_values(|k: u64| k as i128)
}

/// `lists` holds the chunks of each track.
pub open spec fn are_chunkings(
    kept: Seq<Seq<SampleInfo>>,
    timescales: Seq<u32>,
    lists: Seq<Seq<Chunk>>,
) -> bool {
    &&& lists.len() == kept.len()
    &&& timescales.len() == kept.len()
    &&& forall|t: int|
        0 <= t < kept.len() ==> mp4io::write::is_chunking(
            mp4io::write::durations_of(kept[t]),
            timescales[t],
            t as usize,
            #[trigger] lists[t],
        )
}

/// `chunks` is made of `lists` by sorting all chunks stably by `keys`, the keys of their
/// start times.
pub open spec fn interleaves<F: Fn(u64, u64) -> u64>(
    lists: Seq<Seq<Chunk>>,
    start_key: F,
    keys: Seq<u64>,
    order: Seq<usize>,
    chunks: Seq<Chunk>,
) -> bool {
    let all = concat_to(lists, lists.len() as int);
    &&& keys.len() == all.len()
    &&& forall|i: int|
        0 <= i < all.len() ==> start_key.ensures(
            (all[i].start_units, all[i].units_per_second),
            #[trigger] keys[i],
        )
    &&& sort::is_stable_order(sort_keys(keys), order)
    &&& chunks.len() == all.len()
    &&& forall|i: int| 0 <= i < chunks.len() ==> #[trigger] chunks[i] == all[order[i] as int]
}

/// `chunks` holds the chunks of all tracks in the order of their start times. Chunks with
/// the same start time stay in the order of their tracks.
pub open spec fn is_interleaving<F: Fn(u64, u64) -> u64>(
    kept: Seq<Seq<SampleInfo>>,
    timescales: Seq<u32>,
    start_key: F,
    chunks: Seq<Chunk>,
) -> bool {
    exists|lists: Seq<Seq<Chunk>>, keys: Seq<u64>, order: Seq<usize>|
        {
            &&& are_chunkings(kept, timescales, lists)
            &&& #[trigger] interleaves(lists, start_key, keys, order, chunks)
        }
}

/// The chunks of each track are among `chunks`, in the order of the track.
pub open spec fn keeps_tracks(
    kept: Seq<Seq<SampleInfo>>,
    timescales: Seq<u32>,
    chunks: Seq<Chunk>,
) -> bool {
    &&& timescales.len() == kept.len()
    &&& forall|i: int| 0 <= i < chunks.len() ==> (#[trigger] chunks[i]).track_index < kept.len()
    &&& forall|t: int|
        0 <= t < kept.len() ==> mp4io::write::is_chunking(
            mp4io::write::durations_of(kept[t]),
            timescales[t],
            t as usize,
            #[trigger] of_track(chunks, t, chunks.len() as int),
        )
}

proof fn lemma_concat_len(lists: Seq<Seq<Chunk>>, t: int, n: int)
    requires
        0 <= t <= n,
    ensures
        concat_to(lists, t).len() <= concat_to(lists, n).len(),
        t < n ==> concat_to(lists, t).len() + lists[t].len() <= concat_to(lists, n).len(),
    decreases n,
{
    if t < n {
        lemma_concat_len(lists, t, n - 1);
    }
}

proof fn lemma_concat_index(lists: Seq<Seq<Chunk>>, n: int, t: int, c: int)
    requires
        0 <= t < n <= lists.len(),
        0 <= c < lists[t].len(),
    ensures
        concat_to(lists, t).len() + c < concat_to(lists, n).len(),
        concat_to(lists, n)[concat_to(lists, t).len() + c] == lists[t][c],
    decreases n,
{
    if t < n - 1 {
        lemma_concat_index(lists, n - 1, t, c);
    }
}

proof fn lemma_concat_track(lists: Seq<Seq<Chunk>>, n: int, i: int)
    requires
        0 <= n <= lists.len(),
        forall|t: int, c: int|
            0 <= t < lists.len() && 0 <= c < lists[t].len() ==> (
            #[trigger] lists[t][c]).track_index == t,
        0 <= i < concat_to(lists, n).len(),
    ensures
        ({
            let t = concat_to(lists, n)[i].track_index as int;
            &&& t < n
            &&& concat_to(lists, t).len() <= i < concat_to(lists, t).len() + lists[t].len()
        }),
    decreases n,
{
    let before = concat_to(lists, n - 1);
    if i < before.len() {
        lemma_concat_track(lists, n - 1, i);
        assert(concat_to(lists, n)[i] == before[i]);
    } else {
        assert(concat_to(lists, n)[i] == lists[n - 1][i - before.len()]);
    }
}

/// The chunks of a track start one after the other.
pub proof fn lemma_chunks_ascend(
    durations: Seq<u32>,
    timescale: u32,
    track_index: usize,
    chunks: Seq<Chunk>,
    c: int,
    d: int,
)
    requires
        mp4io::write::is_chunking(durations, timescale, track_index, chunks),
        0 <= c < d < chunks.len(),
    ensures
        chunks[c].end() <= chunks[d].start_sample,
    decreases d - c,
{
    if c + 1 == d {
        assert(chunks[d].start_sample == chunks[c].end());
    } else {
        lemma_chunks_ascend(durations, timescale, track_index, chunks, c, d - 1);
        let e = d - 1;
        assert(chunks[e].sample_count > 0);
        assert(chunks[d].start_sample == chunks[e].end());
    }
}

proof fn lemma_track_index_of_lists(
    kept: Seq<Seq<SampleInfo>>,
    timescales: Seq<u32>,
    lists: Seq<Seq<Chunk>>,
)
    requires
        are_chunkings(kept, timescales, lists),
        kept.len() <= usize::MAX,
    ensures
        forall|t: int, c: int|
            0 <= t < lists.len() && 0 <= c < lists[t].len() ==> (
            #[trigger] lists[t][c]).track_index == t,
{
    assert forall|t: int, c: int| 0 <= t < lists.len() && 0 <= c < lists[t].len() implies (
    #[trigger] lists[t][c]).track_index == t by {
        assert(mp4io::write::is_chunking(
            mp4io::write::durations_of(kept[t]),
            timescales[t],
            t as usize,
            lists[t],
        ));
    }
}

/// Position `base + x` is among the first `m` of `order`.
spec fn is_listed_before(order: Seq<usize>, base: int, x: int, m: int) -> bool {
    exists|i: int| 0 <= i < m && #[trigger] order[i] == base + x
}

/// Sorting keeps the chunks of a track in their order, as their start times ascend.
proof fn lemma_track_prefix<F: Fn(u64, u64) -> u64>(
    kept: Seq<Seq<SampleInfo>>,
    timescales: Seq<u32>,
    lists: Seq<Seq<Chunk>>,
    start_key: F,
    keys: Seq<u64>,
    order: Seq<usize>,
    chunks: Seq<Chunk>,
    t: int,
    m: int,
)
    requires
        are_chunkings(kept, timescales, lists),
        kept.len() <= usize::MAX,
        interleaves(lists, start_key, keys, order, chunks),
        orders_starts(start_key),
        0 <= t < kept.len(),
        0 <= m <= chunks.len(),
    ensures
        ({
            let base = concat_to(lists, t).len();
            let found = of_track(chunks, t, m);
            &&& found.len() <= lists[t].len()
            &&& found == lists[t].take(found.len() as int)
            &&& forall|i: int|
                0 <= i < m && base <= #[trigger] order[i] < base + lists[t].len() ==> order[i]
                    - base < found.len()
            &&& forall|x: int|
                0 <= x < found.len() ==> #[trigger] is_listed_before(order, base as int, x, m)
        }),
    decreases m,
{
    let n = lists.len() as int;
    let all = concat_to(lists, n);
    let base = concat_to(lists, t).len() as int;
    let list = lists[t];
    lemma_track_index_of_lists(kept, timescales, lists);
    lemma_concat_len(lists, t, n);
    if m == 0 {
        assert(of_track(chunks, t, 0) =~= list.take(0));
    } else {
        let p = m - 1;
        lemma_track_prefix(kept, timescales, lists, start_key, keys, order, chunks, t, p);
        let before = of_track(chunks, t, p);
        let c = before.len() as int;
        let v = order[p] as int;
        assert(chunks[p] == all[v]);
        lemma_concat_track(lists, n, v);
        if chunks[p].track_index == t {
            let x = v - base;
            lemma_concat_index(lists, n, t, x);
            assert(all[v] == list[x]);
            if x < c {
                assert(is_listed_before(order, base, x, p));
                let i = choose|i: int| 0 <= i < p && #[trigger] order[i] == base + x;
                assert(sort::stably_before(sort_keys(keys), order[i] as int, order[p] as int));
            }
            if x > c {
                let w = base + c;
                lemma_concat_index(lists, n, t, c);
                sort::stable_order_is_complete(sort_keys(keys), order, w);
                let i = choose|i: int| 0 <= i < order.len() && #[trigger] order[i] == w;
                assert(i > p);
                assert(sort::stably_before(sort_keys(keys), order[p] as int, order[i] as int));
                let durations = mp4io::write::durations_of(kept[t]);
                assert(mp4io::write::is_chunking(durations, timescales[t], t as usize, list));
                lemma_chunks_ascend(durations, timescales[t], t as usize, list, c, x);
                sums::lemma_sum_to_monotone(
                    durations,
                    list[c].start_sample as int,
                    list[x].start_sample as int,
                );
                assert(all[w] == list[c]);
                assert(start_key.ensures(
                    (all[w].start_units, all[w].units_per_second),
                    keys[w],
                ));
                assert(start_key.ensures(
                    (all[v].start_units, all[v].units_per_second),
                    keys[v],
                ));
                assert(keys[w] <= keys[v]);
            }
            assert(x == c);
            assert(of_track(chunks, t, m) =~= list.take(c + 1));
            assert forall|y: int| 0 <= y < c + 1 implies #[trigger] is_listed_before(
                order,
                base,
                y,
                m,
            ) by {
                if y < c {
                    assert(is_listed_before(order, base, y, p));
                } else {
                    assert(order[p] == base + y);
                }
            }
        } else {
            assert(of_track(chunks, t, m) == before);
            if base <= v < base + list.len() {
                lemma_concat_index(lists, n, t, v - base);
            }
            assert forall|y: int| 0 <= y < c implies #[trigger] is_listed_before(
                order,
                base,
                y,
                m,
            ) by {
                assert(is_listed_before(order, base, y, p));
            }
        }
    }
}

/// Interleaving keeps the chunks of each track, in their order.
pub proof fn interleaving_keeps_tracks<F: Fn(u64, u64) -> u64>(
    kept: Seq<Seq<SampleInfo>>,
    timescales: Seq<u32>,
    start_key: F,
    chunks: Seq<Chunk>,
)
    requires
        is_interleaving(kept, timescales, start_key, chunks),
        orders_starts(start_key),
        kept.len() <= usize::MAX,
    ensures
        keeps_tracks(kept, timescales, chunks),
{
    let (lists, keys, order): (Seq<Seq<Chunk>>, Seq<u64>, Seq<usize>) = choose|
        lists: Seq<Seq<Chunk>>,
        keys: Seq<u64>,
        order: Seq<usize>,
    |
        {
            &&& are_chunkings(kept, timescales, lists)
            &&& #[trigger] interleaves(lists, start_key, keys, order, chunks)
        };
    let n = lists.len() as int;
    let all = concat_to(lists, n);
    lemma_track_index_of_lists(kept, timescales, lists);
    assert forall|i: int| 0 <= i < chunks.len() implies (#[trigger] chunks[i]).track_index
        < kept.len() by {
        lemma_concat_track(lists, n, order[i] as int);
    }
    assert forall|t: int| 0 <= t < kept.len() implies mp4io::write::is_chunking(
        mp4io::write::durations_of(kept[t]),
        timescales[t],
        t as usize,
        #[trigger] of_track(chunks, t, chunks.len() as int),
    ) by {
        let m = chunks.len() as int;
        lemma_track_prefix(kept, timescales, lists, start_key, keys, order, chunks, t, m);
        let found = of_track(chunks, t, m);
        let base = concat_to(lists, t).len() as int;
        if found.len() < lists[t].len() {
            lemma_concat_index(lists, n, t, found.len() as int);
            sort::stable_order_is_complete(sort_keys(keys), order, base + found.len());
            let i = choose|i: int|
                0 <= i < order.len() && #[trigger] order[i] == base + found.len();
            assert(order[i] - base < found.len());
        }
        assert(found =~= lists[t]);
    }
}

/// Divides the samples of each track into chunks, and puts the chunks of all tracks in the
/// order of their start times. `start_key` gives the time `units / per_second` as a number
/// to sort by.
pub fn interleave<F: Fn(u64, u64) -> u64>(
    kept: &Vec<Vec<SampleInfo>>,
    timescales: &Vec<u32>,
    start_key: F,
) -> (chunks: Vec<Chunk>)
    requires
        kept@.len() == timescales@.len(),
        forall|t: int| 0 <= t < kept@.len() ==> (#[trigger] kept@[t])@.len() <= u32::MAX,
        orders_starts(start_key),
    ensures
        is_interleaving(sample_lists(kept@), timescales@, start_key, chunks@),
        keeps_tracks(sample_lists(kept@), timescales@, chunks@),
{
    let ghost mut lists: Seq<Seq<Chunk>> = Seq::empty();
    let mut all: Vec<Chunk> = Vec::new();
    let mut t: usize = 0;
    while t < kept.len()
        invariant
            kept@.len() == timescales@.len(),
            forall|u: int| 0 <= u < kept@.len() ==> (#[trigger] kept@[u])@.len() <= u32::MAX,
            t <= kept@.len(),
            lists.len() == t,
            all@ == concat_to(lists, t as int),
            forall|u: int|
                0 <= u < t ==> mp4io::write::is_chunking(
                    mp4io::write::durations_of(kept@[u]@),
                    timescales@[u],
                    u as usize,
                    #[trigger] lists[u],
                ),
        decreases kept@.len() - t,
    {
        let list: Vec<Chunk> = mp4io::write::chunk_track(&kept[t], timescales[t], t);
        let ghost before = all@;
        let ghost earlier = lists;
        let mut c: usize = 0;
        while c < list.len()
            invariant
                c <= list@.len(),
                all@ == before + list@.take(c as int),
            decreases list@.len() - c,
        {
            all.push(list[c]);
            c += 1;
            assert(all@ =~= before + list@.take(c as int));
        }
        proof {
            lists = earlier.push(list@);
            assert(list@.take(c as int) =~= list@);
            lemma_concat_agrees(earlier, lists, t as int);
        }
        t += 1;
    }
    proof {
        assert forall|u: int| 0 <= u < kept@.len() implies mp4io::write::is_chunking(
            mp4io::write::durations_of(sample_lists(kept@)[u]),
            timescales@[u],
            u as usize,
            #[trigger] lists[u],
        ) by {}
        lemma_track_index_of_lists(sample_lists(kept@), timescales@, lists);
    }
    let mut keys: Vec<u64> = Vec::new();
    let mut wide: Vec<i128> = Vec::new();
    let mut i: usize = 0;
    while i < all.len()
        invariant
            orders_starts(start_key),
            all@ == concat_to(lists, lists.len() as int),
            are_chunkings(sample_lists(kept@), timescales@, lists),
            forall|u: int, c: int|
                0 <= u < lists.len() && 0 <= c < lists[u].len() ==> (
                #[trigger] lists[u][c]).track_index == u,
            i <= all@.len(),
            keys@.len() == i,
            wide@.len() == i,
            forall|j: int| 0 <= j < i ==> #[trigger] wide@[j] == keys@[j] as i128,
            forall|j: int|
                0 <= j < i ==> start_key.ensures(
                    (all@[j].start_units, all@[j].units_per_second),
                    #[trigger] keys@[j],
                ),
        decreases all@.len() - i,
    {
        let chunk: Chunk = all[i];
        proof {
            lemma_concat_track(lists, lists.len() as int, i as int);
            let u = chunk.track_index as int;
            let c = i - concat_to(lists, u).len();
            lemma_concat_index(lists, lists.len() as int, u, c);
            assert(mp4io::write::is_chunking(
                mp4io::write::durations_of(sample_lists(kept@)[u]),
                timescales@[u],
                u as usize,
                lists[u],
            ));
            assert(lists[u][c] == chunk);
        }
        let key: u64 = start_key(chunk.start_units, chunk.units_per_second);
        keys.push(key);
        wide.push(key as i128);
        i += 1;
    }
    assert(wide@ =~= sort_keys(keys@));
    let order: Vec<usize> = sort::stable_order(&wide);
    let mut chunks: Vec<Chunk> = Vec::new();
    let mut i: usize = 0;
    while i < order.len()
        invariant
            sort::is_stable_order(wide@, order@),
            wide@.len() == all@.len(),
            i <= order@.len(),
            chunks@.len() == i,
            forall|j: int| 0 <= j < i ==> #[trigger] chunks@[j] == all@[order@[j] as int],
        decreases order@.len() - i,
    {
        chunks.push(all[order[i]]);
        i += 1;
    }
    proof {
        assert(interleaves(lists, start_key, keys@, order@, chunks@));
        interleaving_keeps_tracks(sample_lists(kept@), timescales@, start_key, chunks@);
    }
    chunks
}

proof fn lemma_concat_agrees(a: Seq<Seq<Chunk>>, b: Seq<Seq<Chunk>>, n: int)
    requires
        0 <= n <= a.len(),
        n <= b.len(),
        forall|i: int| 0 <= i < n ==> #[trigger] a[i] == b[i],
    ensures
        concat_to(a, n) == concat_to(b, n),
    decreases n,
{
    if n > 0 {
        lemma_concat_agrees(a, b, n - 1);
        assert(a[n - 1] == b[n - 1]);
    }
}

} // verus!
