//! What a planned rewrite preserves: the new tables describe the kept samples, and the
//! bytes of every kept sample are the same in the output as in the input.

use crate::mp4io;
use crate::mp4io::boxes::{Moov, Stbl};
use crate::mp4io::interleave;
use crate::mp4io::placement;
use crate::mp4io::placement::CopySpan;
use crate::mp4io::read;
use crate::mp4io::read::{SampleInfo, SampleTableError};
use crate::mp4io::write::{Chunk, OutputPlan};
use crate::runs;
use crate::sums;
use vstd::prelude::*;

verus! {

/// Chunk `c` of `list` holds sample `k`.
pub open spec fn holds_sample(list: Seq<Chunk>, c: int, k: int) -> bool {
    &&& 0 <= c < list.len()
    &&& list[c].start_sample <= k < list[c].end()
}

/// Where sample `k` of track `t` starts in the output.
pub open spec fn output_offset(
    kept: Seq<Seq<SampleInfo>>,
    chunks: Seq<Chunk>,
    body_start: int,
    t: int,
    k: int,
) -> int {
    let n = chunks.len() as int;
    let list = interleave::of_track(chunks, t, n);
    let sizes = mp4io::write::sizes_of(kept[t]);
    let c = choose|c: int| holds_sample(list, c, k);
    placement::offsets_of_track(kept, chunks, body_start, t, n)[c] + sums::sum_to(sizes, k)
        - sums::sum_to(sizes, list[c].start_sample as int)
}

/// The kept samples of track `t`, at their places in the output.
pub open spec fn relocated(kept: Seq<Seq<SampleInfo>>, plan: OutputPlan, t: int) -> Seq<
    SampleInfo,
> {
    Seq::new(
        kept[t].len(),
        |k: int|
            SampleInfo {
                file_offset: output_offset(
                    kept,
                    plan.chunks@,
                    plan.layout.body_start as int,
                    t,
                    k,
                ) as u64,
                ..kept[t][k]
            },
    )
}

/// `kept` has no offsets and no samples without sync where the tables `stbl` have none.
pub open spec fn matches_tables(stbl: Stbl, kept: Seq<SampleInfo>) -> bool {
    &&& stbl.ctts is None ==> forall|k: int|
        0 <= k < kept.len() ==> (#[trigger] kept[k]).cts_offset == 0
    &&& stbl.stss is None ==> forall|k: int| 0 <= k < kept.len() ==> (#[trigger] kept[k]).is_sync
}

/// Samples that were read from tables match these tables.
pub proof fn resolved_samples_match_tables(
    stbl: Stbl,
    file_len: u64,
    track_index: usize,
    keep: Seq<crate::order::DecodeIdx>,
    kept: Seq<SampleInfo>,
)
    requires
        mp4io::write::track_resolved(stbl, file_len, track_index, keep, Ok(kept)),
    ensures
        matches_tables(stbl, kept),
{
    let all = choose|all: Seq<SampleInfo>|
        {
            &&& #[trigger] read::samples_restored(stbl, file_len, Ok(all))
            &&& mp4io::write::kept_resolved(track_index, keep, all, Ok(kept))
        };
    assert forall|k: int| 0 <= k < kept.len() implies {
        &&& stbl.ctts is None ==> (#[trigger] kept[k]).cts_offset == 0
        &&& stbl.stss is None ==> kept[k].is_sync
    } by {
        let j = keep[k].0 as int;
        assert(kept[k] == all[j]);
        assert(read::is_sample(stbl, j, all[j]));
    }
}

proof fn lemma_some_chunk_holds(
    durations: Seq<u32>,
    timescale: u32,
    track_index: usize,
    list: Seq<Chunk>,
    k: int,
    c: int,
)
    requires
        mp4io::write::is_chunking(durations, timescale, track_index, list),
        0 <= c < list.len(),
        0 <= k < list[c].end(),
    ensures
        exists|d: int| holds_sample(list, d, k),
    decreases c,
{
    if k >= list[c].start_sample {
        assert(holds_sample(list, c, k));
    } else {
        let b = c - 1;
        assert(list[c].start_sample == list[b].end());
        lemma_some_chunk_holds(durations, timescale, track_index, list, k, b);
    }
}

/// Every kept sample lies in one chunk of its track, and in no other.
pub proof fn sample_has_one_chunk(
    durations: Seq<u32>,
    timescale: u32,
    track_index: usize,
    list: Seq<Chunk>,
    k: int,
)
    requires
        mp4io::write::is_chunking(durations, timescale, track_index, list),
        0 <= k < durations.len(),
    ensures
        exists|c: int| holds_sample(list, c, k),
        forall|c: int, d: int| holds_sample(list, c, k) && holds_sample(list, d, k) ==> c == d,
{
    lemma_some_chunk_holds(durations, timescale, track_index, list, k, list.len() - 1);
    assert forall|c: int, d: int|
        holds_sample(list, c, k) && holds_sample(list, d, k) implies c == d by {
        if c < d {
            interleave::lemma_chunks_ascend(durations, timescale, track_index, list, c, d);
        } else if d < c {
            interleave::lemma_chunks_ascend(durations, timescale, track_index, list, d, c);
        }
    }
}

proof fn lemma_counted_samples_before(
    durations: Seq<u32>,
    timescale: u32,
    track_index: usize,
    list: Seq<Chunk>,
    c: int,
)
    requires
        mp4io::write::is_chunking(durations, timescale, track_index, list),
        0 <= c <= list.len(),
    ensures
        read::samples_before(
            mp4io::write::counted_visits(mp4io::write::sample_counts(list)),
            c,
        ) == (if c < list.len() {
            list[c].start_sample as int
        } else {
            durations.len() as int
        }),
    decreases c,
{
    if c > 0 {
        lemma_counted_samples_before(durations, timescale, track_index, list, c - 1);
        let b = c - 1;
        if c < list.len() {
            assert(list[c].start_sample == list[b].end());
        } else {
            assert(list[b].end() == durations.len());
        }
    }
}

proof fn lemma_sync_numbers(kept: Seq<SampleInfo>, n: int, k: int)
    requires
        0 <= n <= kept.len() <= u32::MAX,
        0 <= k < kept.len(),
    ensures
        (exists|i: int|
            0 <= i < mp4io::write::sync_numbers(kept, n).len() && #[trigger]
            mp4io::write::sync_numbers(kept, n)[i] == k + 1) <==> k < n && kept[k].is_sync,
    decreases n,
{
    if n > 0 {
        lemma_sync_numbers(kept, n - 1, k);
        let before = mp4io::write::sync_numbers(kept, n - 1);
        let now = mp4io::write::sync_numbers(kept, n);
        if k < n - 1 && kept[k].is_sync {
            let i = choose|i: int| 0 <= i < before.len() && #[trigger] before[i] == k + 1;
            assert(now[i] == k + 1);
        }
        if k == n - 1 && kept[k].is_sync {
            assert(now[now.len() - 1] == k + 1);
        }
        if exists|i: int| 0 <= i < now.len() && #[trigger] now[i] == k + 1 {
            let i = choose|i: int| 0 <= i < now.len() && #[trigger] now[i] == k + 1;
            if i < before.len() {
                assert(before[i] == k + 1);
            }
        }
    }
}

/// What the tables of track `t` of the output say, apart from where samples lie.
proof fn lemma_new_tables(
    original: Stbl,
    kept: Seq<Seq<SampleInfo>>,
    timescales: Seq<u32>,
    chunks: Seq<Chunk>,
    layout: mp4io::write::MdatLayout,
    t: int,
    stbl: Stbl,
)
    requires
        mp4io::write::is_new_stbl(original, kept, chunks, layout, t, stbl),
        interleave::keeps_tracks(kept, timescales, chunks),
        matches_tables(original, kept[t]),
        0 <= t < kept.len(),
        kept[t].len() <= u32::MAX,
    ensures
        ({
            let n = chunks.len() as int;
            let list = interleave::of_track(chunks, t, n);
            let offsets = placement::offsets_of_track(
                kept,
                chunks,
                layout.body_start as int,
                t,
                n,
            );
            &&& stbl.stsz.sizes() == mp4io::write::sizes_of(kept[t])
            &&& stbl.durations() == Ok::<Seq<u32>, SampleTableError>(
                mp4io::write::durations_of(kept[t]),
            )
            &&& stbl.cts_offsets() == Ok::<Seq<i64>, SampleTableError>(
                mp4io::write::cts_offsets_of(kept[t]),
            )
            &&& forall|k: int|
                0 <= k < kept[t].len() ==> #[trigger] stbl.is_sync(k) == kept[t][k].is_sync
            &&& stbl.chunk_offsets().len() == list.len()
            &&& offsets.len() == list.len()
            &&& forall|c: int|
                0 <= c < list.len() ==> #[trigger] stbl.chunk_offsets()[c] == offsets[c]
            &&& stbl.visits() == mp4io::write::counted_visits(mp4io::write::sample_counts(list))
        }),
{
    let n = chunks.len() as int;
    let list = interleave::of_track(chunks, t, n);
    let body_start = layout.body_start as int;
    let offsets = placement::offsets_of_track(kept, chunks, body_start, t, n);
    placement::lemma_offset_count(kept, chunks, body_start, t, n);
    runs::lemma_expand_len(read::stts_runs(stbl.stts@));
    match stbl.ctts {
        Some(entries) => {
            runs::lemma_expand_len(read::ctts_runs(entries@));
        },
        None => {
            assert(stbl.cts_offsets()->Ok_0 =~= mp4io::write::cts_offsets_of(kept[t]));
        },
    }
    assert forall|k: int| 0 <= k < kept[t].len() implies #[trigger] stbl.is_sync(k)
        == kept[t][k].is_sync by {
        lemma_sync_numbers(kept[t], kept[t].len() as int, k);
    }
    if layout.use_co64 {
        let entries = stbl.co64->0@;
        assert(entries.map_values(|o: u64| o as int).len() == offsets.len());
        assert forall|c: int| 0 <= c < list.len() implies #[trigger] stbl.chunk_offsets()[c]
            == offsets[c] by {
            assert(entries.map_values(|o: u64| o as int)[c] == entries[c]);
        }
    } else {
        let entries = stbl.stco->0@;
        assert(entries.map_values(|o: u32| o as int).len() == offsets.len());
        assert forall|c: int| 0 <= c < list.len() implies #[trigger] stbl.chunk_offsets()[c]
            == offsets[c] by {
            assert(entries.map_values(|o: u32| o as int)[c] == entries[c]);
        }
    }
}

/// The new tables describe the kept samples: reading the tables of track `t` of the output
/// gives the samples that were kept of it, in their order, with their sizes, durations,
/// offsets and sync flags, at their places in the output.
pub proof fn rewritten_tables_read_back(
    moov: Moov,
    kept: Seq<Seq<SampleInfo>>,
    plan: OutputPlan,
    i: int,
    file_len: u64,
)
    requires
        mp4io::write::is_output_plan(moov, kept, plan),
        interleave::keeps_tracks(kept, mp4io::write::timescales_of(moov.trak@), plan.chunks@),
        mp4io::write::sums_fit(moov, kept),
        kept.len() == moov.trak@.len(),
        0 <= i < plan.tracks@.len(),
        matches_tables(
            moov.trak@[plan.tracks@[i].track_index as int].stbl,
            kept[plan.tracks@[i].track_index as int],
        ),
        plan.layout.body_start + placement::total_bytes(kept, kept.len() as int) <= file_len,
        kept[plan.tracks@[i].track_index as int].len() <= file_len,
    ensures
        plan.tracks@[i].stbl.is_addressable(),
        read::samples_restored(
            plan.tracks@[i].stbl,
            file_len,
            Ok(relocated(kept, plan, plan.tracks@[i].track_index as int)),
        ),
{
    let included = mp4io::write::included_tracks(kept, kept.len() as int);
    let track = plan.tracks@[i];
    assert(moov.trak.len() == kept.len());
    assert(mp4io::write::is_track_plan(
        moov,
        kept,
        plan.chunks@,
        plan.layout,
        included[i],
        track,
    ));
    let t = track.track_index as int;
    lemma_included_in_range(kept, kept.len() as int, i);
    assert(t == included[i]);
    let stbl = track.stbl;
    let timescales = mp4io::write::timescales_of(moov.trak@);
    let chunks = plan.chunks@;
    let n = chunks.len() as int;
    let list = interleave::of_track(chunks, t, n);
    let durations = mp4io::write::durations_of(kept[t]);
    let sizes = mp4io::write::sizes_of(kept[t]);
    let body_start = plan.layout.body_start as int;
    assert(kept[t].len() <= u32::MAX);
    lemma_new_tables(moov.trak@[t].stbl, kept, timescales, chunks, plan.layout, t, stbl);
    assert(mp4io::write::is_chunking(durations, timescales[t], t as usize, list));
    mp4io::write::lemma_chunk_count(durations, timescales[t], t as usize, list);
    let visits = stbl.visits();
    let infos = relocated(kept, plan, t);
    lemma_counted_samples_before(
        durations,
        timescales[t],
        t as usize,
        list,
        list.len() as int,
    );
    assert forall|k: int| 0 <= k < kept[t].len() implies {
        &&& read::is_sample(stbl, k, #[trigger] infos[k])
        &&& infos[k].file_offset + infos[k].size <= u64::MAX
        &&& forall|p: int|
            #[trigger] read::lies_in(visits, k, p) ==> read::offset_in_chunk(
                visits,
                stbl.chunk_offsets(),
                sizes,
                k,
                p,
            ) == infos[k].file_offset
    } by {
        sample_has_one_chunk(durations, timescales[t], t as usize, list, k);
        let c = choose|c: int| holds_sample(list, c, k);
        lemma_counted_samples_before(durations, timescales[t], t as usize, list, c);
        lemma_counted_samples_before(durations, timescales[t], t as usize, list, c + 1);
        if c + 1 < list.len() {
            let d = c + 1;
            assert(list[d].start_sample == list[c].end());
        }
        assert(read::lies_in(visits, k, c));
        placement::lemma_offset_position(kept, chunks, body_start, t, n, c);
        let m = choose|m: int|
            {
                &&& 0 <= m < n
                &&& #[trigger] chunks[m] == list[c]
                &&& placement::offsets_of_track(kept, chunks, body_start, t, n)[c] == body_start
                    + placement::bytes_before(kept, chunks, m)
            };
        placement::lemma_bytes_before_monotone(kept, chunks, m + 1, n);
        placement::lemma_bytes_before_monotone(kept, chunks, 0, m);
        placement::chunks_hold_all_bytes(kept, timescales, chunks);
        sums::lemma_sum_to_monotone(sizes, list[c].start_sample as int, k);
        sums::lemma_sum_to_monotone(sizes, k + 1, list[c].end());
        assert(list[c].track_index == t);
        assert(placement::chunk_bytes(kept, chunks[m]) == sums::sum_to(sizes, list[c].end())
            - sums::sum_to(sizes, list[c].start_sample as int));
        assert(sizes[k] == kept[t][k].size);
        let offset = output_offset(kept, chunks, body_start, t, k);
        assert(0 <= offset && offset + sizes[k] <= file_len);
        assert(stbl.chunk_offsets()[c] == placement::offsets_of_track(
            kept,
            chunks,
            body_start,
            t,
            n,
        )[c]);
        assert(read::is_sample_at(stbl, k, c, infos[k]));
        assert forall|p: int| #[trigger] read::lies_in(visits, k, p) implies read::offset_in_chunk(
            visits,
            stbl.chunk_offsets(),
            sizes,
            k,
            p,
        ) == infos[k].file_offset by {
            read::sample_lies_in_one_chunk(stbl, k, p, c);
        }
    }
    assert forall|k: int, p: int|
        0 <= k < sizes.len() && #[trigger] read::lies_in(visits, k, p) implies read::offset_in_chunk(
        visits,
        stbl.chunk_offsets(),
        sizes,
        k,
        p,
    ) + sizes[k] <= u64::MAX by {
        assert(infos[k].size == sizes[k]);
    }
    assert(stbl.is_addressable());
    assert(read::lists_samples(stbl, infos));
    lemma_sizes_accepted(stbl, kept, t, file_len);
}

proof fn lemma_sizes_accepted(stbl: Stbl, kept: Seq<Seq<SampleInfo>>, t: int, file_len: u64)
    requires
        0 <= t < kept.len(),
        stbl.stsz.sizes() == mp4io::write::sizes_of(kept[t]),
        placement::total_bytes(kept, kept.len() as int) <= file_len,
        kept[t].len() <= file_len,
    ensures
        read::sizes_checked(stbl.stsz, file_len, Ok(stbl.stsz.sizes())),
{
    let sizes = stbl.stsz.sizes();
    mp4io::write::lemma_total_bytes_monotone(kept, t + 1, kept.len() as int);
    mp4io::write::lemma_total_bytes_monotone(kept, 0, t);
    assert forall|k: int| 0 <= k < sizes.len() implies #[trigger] sizes[k] <= file_len by {
        sums::lemma_sum_to_monotone(sizes, 0, k);
        sums::lemma_sum_to_monotone(sizes, k + 1, sizes.len() as int);
    }
}

proof fn lemma_included_in_range(kept: Seq<Seq<SampleInfo>>, n: int, i: int)
    requires
        0 <= n <= kept.len(),
        0 <= i < mp4io::write::included_tracks(kept, n).len(),
    ensures
        0 <= mp4io::write::included_tracks(kept, n)[i] < n,
        kept[mp4io::write::included_tracks(kept, n)[i]].len() > 0,
    decreases n,
{
    if n > 0 && i < mp4io::write::included_tracks(kept, n - 1).len() {
        lemma_included_in_range(kept, n - 1, i);
    }
}

/// The `size` bytes from `start` on.
pub open spec fn piece_of(bytes: Seq<u8>, start: int, size: int) -> Seq<u8> {
    Seq::new(size as nat, |i: int| bytes[start + i])
}

/// The bytes of the first `n` copied pieces.
pub open spec fn copied_bytes(input: Seq<u8>, copies: Seq<CopySpan>, n: int) -> Seq<u8>
    decreases n,
{
    if n <= 0 {
        Seq::empty()
    } else {
        let span = copies[n - 1];
        copied_bytes(input, copies, n - 1) + piece_of(
            input,
            span.file_offset as int,
            span.size as int,
        )
    }
}

/// The output up to the `moov` atom.
pub open spec fn output_front(input: Seq<u8>, plan: OutputPlan) -> Seq<u8> {
    plan.head@ + copied_bytes(input, plan.copies@, plan.copies@.len() as int)
}

/// The bytes of every kept sample lie within the input.
pub open spec fn lies_within(input: Seq<u8>, kept: Seq<Seq<SampleInfo>>) -> bool {
    forall|t: int, k: int|
        0 <= t < kept.len() && 0 <= k < kept[t].len() && (#[trigger] kept[t][k]).size > 0
            ==> kept[t][k].file_offset + kept[t][k].size <= input.len()
}

proof fn lemma_copied_len(input: Seq<u8>, copies: Seq<CopySpan>, n: int)
    requires
        0 <= n <= copies.len(),
    ensures
        copied_bytes(input, copies, n).len() == sums::sum_to(placement::span_sizes(copies), n),
    decreases n,
{
    if n > 0 {
        lemma_copied_len(input, copies, n - 1);
        assert(placement::span_sizes(copies)[n - 1] == copies[n - 1].size);
    }
}

proof fn lemma_copied_piece(input: Seq<u8>, copies: Seq<CopySpan>, j: int, n: int)
    requires
        0 <= j < n <= copies.len(),
    ensures
        ({
            let start = sums::sum_to(placement::span_sizes(copies), j);
            let piece = copies[j];
            &&& start + piece.size <= copied_bytes(input, copies, n).len()
            &&& copied_bytes(input, copies, n).subrange(start, start + piece.size) == piece_of(
                input,
                piece.file_offset as int,
                piece.size as int,
            )
        }),
    decreases n,
{
    let start = sums::sum_to(placement::span_sizes(copies), j);
    let piece = copies[j];
    lemma_copied_len(input, copies, n);
    lemma_copied_len(input, copies, n - 1);
    lemma_copied_len(input, copies, j);
    sums::lemma_sum_to_monotone(placement::span_sizes(copies), 0, j);
    let before = copied_bytes(input, copies, n - 1);
    let now = copied_bytes(input, copies, n);
    if j < n - 1 {
        lemma_copied_piece(input, copies, j, n - 1);
        assert(now.subrange(start, start + piece.size) =~= before.subrange(
            start,
            start + piece.size,
        ));
    } else {
        assert(now.subrange(start, start + piece.size) =~= piece_of(
            input,
            piece.file_offset as int,
            piece.size as int,
        ));
    }
}

/// The pieces copied for the first `m` chunks, and how many bytes they have.
proof fn lemma_copies_prefix(kept: Seq<Seq<SampleInfo>>, chunks: Seq<Chunk>, m: int, n: int)
    requires
        placement::chunks_in_range(kept, chunks),
        0 <= m <= n <= chunks.len(),
    ensures
        placement::copies_of(kept, chunks, m).len() <= placement::copies_of(kept, chunks, n).len(),
        forall|j: int|
            0 <= j < placement::copies_of(kept, chunks, m).len() ==> placement::copies_of(
                kept,
                chunks,
                m,
            )[j] == #[trigger] placement::copies_of(kept, chunks, n)[j],
    decreases n,
{
    if m < n {
        lemma_copies_prefix(kept, chunks, m, n - 1);
    }
}

proof fn lemma_span_sum(
    kept: Seq<SampleInfo>,
    before: Seq<CopySpan>,
    from: int,
    to: int,
)
    requires
        0 <= from <= to <= kept.len(),
    ensures
        ({
            let sizes = mp4io::write::sizes_of(kept);
            let spans = before + placement::spans_of(kept, from, to);
            sums::sum_to(placement::span_sizes(spans), before.len() + to - from) == sums::sum_to(
                placement::span_sizes(before),
                before.len() as int,
            ) + sums::sum_to(sizes, to) - sums::sum_to(sizes, from)
        }),
    decreases to - from,
{
    let sizes = mp4io::write::sizes_of(kept);
    let spans = before + placement::spans_of(kept, from, to);
    if from < to {
        let shorter = before + placement::spans_of(kept, from, to - 1);
        lemma_span_sum(kept, before, from, to - 1);
        let len = before.len() + to - 1 - from;
        assert forall|j: int| 0 <= j < len implies #[trigger] placement::span_sizes(spans)[j]
            == placement::span_sizes(shorter)[j] by {
            assert(spans[j] == shorter[j]);
        }
        sums::lemma_sum_to_agree(placement::span_sizes(spans), placement::span_sizes(shorter), len);
        assert(spans[len] == placement::span_of(kept[to - 1]));
        assert(placement::span_sizes(spans)[len] == kept[to - 1].size);
        assert(sizes[to - 1] == kept[to - 1].size);
    } else {
        assert(spans =~= before);
    }
}

proof fn lemma_copies_sum(kept: Seq<Seq<SampleInfo>>, chunks: Seq<Chunk>, m: int)
    requires
        placement::chunks_in_range(kept, chunks),
        0 <= m <= chunks.len(),
    ensures
        ({
            let copies = placement::copies_of(kept, chunks, m);
            sums::sum_to(placement::span_sizes(copies), copies.len() as int)
                == placement::bytes_before(kept, chunks, m)
        }),
    decreases m,
{
    if m > 0 {
        lemma_copies_sum(kept, chunks, m - 1);
        let chunk = chunks[m - 1];
        lemma_span_sum(
            kept[chunk.track_index as int],
            placement::copies_of(kept, chunks, m - 1),
            chunk.start_sample as int,
            chunk.end(),
        );
    }
}

/// How long the output is up to the `moov` atom: its contents end where the layout says.
pub proof fn lemma_front_len(
    moov: Moov,
    kept: Seq<Seq<SampleInfo>>,
    plan: OutputPlan,
    input: Seq<u8>,
)
    requires
        mp4io::write::is_output_plan(moov, kept, plan),
        interleave::keeps_tracks(kept, mp4io::write::timescales_of(moov.trak@), plan.chunks@),
        mp4io::write::sums_fit(moov, kept),
        kept.len() == moov.trak@.len(),
    ensures
        plan.head@.len() == plan.layout.body_start,
        output_front(input, plan).len() == plan.layout.body_start + placement::total_bytes(
            kept,
            kept.len() as int,
        ),
{
    assert(moov.trak.len() == kept.len());
    let timescales = mp4io::write::timescales_of(moov.trak@);
    let chunks = plan.chunks@;
    let n = chunks.len() as int;
    let copies = placement::copies_of(kept, chunks, n);
    mp4io::write::lemma_total_bytes_monotone(kept, 0, kept.len() as int);
    mp4io::write::planned_header_fits(
        mp4io::write::output_ftyp().len() as u64,
        placement::total_bytes(kept, kept.len() as int) as u64,
        plan.layout,
    );
    placement::lemma_kept_tracks_in_range(kept, timescales, chunks);
    placement::chunks_hold_all_bytes(kept, timescales, chunks);
    lemma_copies_sum(kept, chunks, n);
    lemma_copied_len(input, copies, copies.len() as int);
}

/// Nothing is lost in a rewrite: the bytes of sample `k` of track `t`, which lie within the
/// input, are the same in the output, at the place that the new tables give, as in the input.
pub proof fn kept_samples_are_bit_identical(
    moov: Moov,
    kept: Seq<Seq<SampleInfo>>,
    plan: OutputPlan,
    input: Seq<u8>,
    t: int,
    k: int,
)
    requires
        mp4io::write::is_output_plan(moov, kept, plan),
        interleave::keeps_tracks(kept, mp4io::write::timescales_of(moov.trak@), plan.chunks@),
        mp4io::write::sums_fit(moov, kept),
        kept.len() == moov.trak@.len(),
        lies_within(input, kept),
        0 <= t < kept.len(),
        0 <= k < kept[t].len(),
    ensures
        ({
            let start = output_offset(
                kept,
                plan.chunks@,
                plan.layout.body_start as int,
                t,
                k,
            );
            let sample = kept[t][k];
            &&& 0 <= start && start + sample.size <= output_front(input, plan).len()
            &&& piece_of(output_front(input, plan), start, sample.size as int) == piece_of(
                input,
                sample.file_offset as int,
                sample.size as int,
            )
            &&& sample.size > 0 ==> piece_of(
                input,
                sample.file_offset as int,
                sample.size as int,
            ) == input.subrange(
                sample.file_offset as int,
                sample.file_offset + sample.size,
            )
        }),
{
    assert(moov.trak.len() == kept.len());
    let timescales = mp4io::write::timescales_of(moov.trak@);
    let chunks = plan.chunks@;
    let n = chunks.len() as int;
    let list = interleave::of_track(chunks, t, n);
    let durations = mp4io::write::durations_of(kept[t]);
    let sizes = mp4io::write::sizes_of(kept[t]);
    let body_start = plan.layout.body_start as int;
    let body_len = placement::total_bytes(kept, kept.len() as int) as u64;
    mp4io::write::lemma_total_bytes_monotone(kept, 0, kept.len() as int);
    mp4io::write::planned_header_fits(
        mp4io::write::output_ftyp().len() as u64,
        body_len,
        plan.layout,
    );
    assert(plan.head@.len() == body_start);
    placement::lemma_kept_tracks_in_range(kept, timescales, chunks);
    assert(mp4io::write::is_chunking(durations, timescales[t], t as usize, list));
    sample_has_one_chunk(durations, timescales[t], t as usize, list, k);
    let c = choose|c: int| holds_sample(list, c, k);
    placement::lemma_offset_position(kept, chunks, body_start, t, n, c);
    let m = choose|m: int|
        {
            &&& 0 <= m < n
            &&& #[trigger] chunks[m] == list[c]
            &&& placement::offsets_of_track(kept, chunks, body_start, t, n)[c] == body_start
                + placement::bytes_before(kept, chunks, m)
        };
    assert(list[c].track_index == t);
    let copies = placement::copies_of(kept, chunks, n);
    let before = placement::copies_of(kept, chunks, m);
    let from = list[c].start_sample as int;
    let j = before.len() + k - from;
    lemma_copies_prefix(kept, chunks, m + 1, n);
    let through = placement::copies_of(kept, chunks, m + 1);
    assert(through == before + placement::spans_of(kept[t], from, list[c].end()));
    assert(through[j] == placement::span_of(kept[t][k]));
    assert(copies[j] == through[j]);
    lemma_copies_sum(kept, chunks, m);
    let part = before + placement::spans_of(kept[t], from, k);
    lemma_span_sum(kept[t], before, from, k);
    assert forall|q: int| 0 <= q < j implies #[trigger] placement::span_sizes(copies)[q]
        == placement::span_sizes(part)[q] by {
        assert(copies[q] == through[q]);
        assert(through[q] == part[q]);
    }
    sums::lemma_sum_to_agree(placement::span_sizes(copies), placement::span_sizes(part), j);
    lemma_copied_piece(input, copies, j, copies.len() as int);
    let start = output_offset(kept, chunks, body_start, t, k);
    let at = sums::sum_to(placement::span_sizes(copies), j);
    sums::lemma_sum_to_monotone(placement::span_sizes(copies), 0, j);
    assert(start == body_start + at);
    let body = copied_bytes(input, copies, copies.len() as int);
    let size = kept[t][k].size;
    assert(piece_of(output_front(input, plan), start, size as int) =~= body.subrange(
        at,
        at + size,
    ));
    if size > 0 {
        let from = kept[t][k].file_offset as int;
        assert(piece_of(input, from, size as int) =~= input.subrange(from, from + size));
    }
}

} // verus!
