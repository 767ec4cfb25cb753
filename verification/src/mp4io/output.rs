//! What a planned output is like: its chunks, its durations and its layout.

use crate::mp4io;
use crate::mp4io::boxes::Moov;
use crate::mp4io::interleave;
use crate::mp4io::read::SampleInfo;
use crate::mp4io::write::{Chunk, MdatLayout, OutputPlan, TrackPlan, WriteError};
use crate::order::DecodeIdx;
use crate::sort;
use crate::sums;
use vstd::prelude::*;

verus! {

/// How long the samples of `kept` last together, from sample `from` up to sample `to`.
pub open spec fn lasting(kept: Seq<SampleInfo>, from: int, to: int) -> int
    decreases to - from,
{
    if to <= from {
        0
    } else {
        lasting(kept, from, to - 1) + kept[to - 1].duration
    }
}

proof fn lemma_lasting(kept: Seq<SampleInfo>, from: int, to: int)
    requires
        0 <= from <= to <= kept.len(),
    ensures
        lasting(kept, from, to) == sums::sum_to(mp4io::write::durations_of(kept), to)
            - sums::sum_to(mp4io::write::durations_of(kept), from),
    decreases to - from,
{
    if from < to {
        lemma_lasting(kept, from, to - 1);
        assert(mp4io::write::durations_of(kept)[to - 1] == kept[to - 1].duration);
    }
}

/// A chunk starts where the samples before it end, and is cut as soon as it lasts a second: without
/// its last sample it is shorter than that, and every chunk but the last of a track is not.
pub proof fn chunks_last_a_second(
    kept: Seq<SampleInfo>,
    timescale: u32,
    track_index: usize,
    chunks: Seq<Chunk>,
    c: int,
)
    requires
        mp4io::write::is_chunking(mp4io::write::durations_of(kept), timescale, track_index, chunks),
        timescale > 0,
        0 <= c < chunks.len(),
    ensures
        chunks[c].track_index == track_index,
        chunks[c].units_per_second == timescale,
        chunks[c].start_units == lasting(kept, 0, chunks[c].start_sample as int),
        chunks[c].sample_count > 0,
        lasting(
            kept,
            chunks[c].start_sample as int,
            chunks[c].start_sample + chunks[c].sample_count - 1,
        ) < timescale,
        c + 1 < chunks.len() ==> {
            &&& lasting(
                kept,
                chunks[c].start_sample as int,
                chunks[c].start_sample + chunks[c].sample_count,
            ) >= timescale
            &&& chunks[c + 1].start_sample == chunks[c].start_sample + chunks[c].sample_count
        },
        c == 0 ==> chunks[c].start_sample == 0,
        c + 1 == chunks.len() ==> chunks[c].start_sample + chunks[c].sample_count == kept.len(),
{
    let chunk = chunks[c];
    let start = chunk.start_sample as int;
    let durations = mp4io::write::durations_of(kept);
    assert(mp4io::write::is_closed_in_time(durations, timescale as u64, chunk));
    lemma_lasting(kept, 0, start);
    lemma_lasting(kept, start, chunk.end());
    lemma_lasting(kept, start, chunk.end() - 1);
    if chunk.end() - 1 > start {
        assert(sums::sum_to(durations, chunk.end() - 1) - sums::sum_to(durations, start)
            < timescale);
    }
    if c + 1 < chunks.len() {
        let next = chunks[c + 1];
        assert(next.start_sample == chunk.end());
        assert(next.sample_count > 0 && next.end() <= durations.len());
    }
}

/// A track without a timescale that lasts less than its time can count has at most one chunk.
pub proof fn track_without_timescale_has_one_chunk(
    kept: Seq<SampleInfo>,
    track_index: usize,
    chunks: Seq<Chunk>,
)
    requires
        mp4io::write::is_chunking(mp4io::write::durations_of(kept), 0, track_index, chunks),
        lasting(kept, 0, kept.len() as int) < u64::MAX,
    ensures
        chunks.len() == (if kept.len() > 0 {
            1int
        } else {
            0
        }),
        kept.len() > 0 ==> chunks[0].start_sample == 0 && chunks[0].sample_count == kept.len(),
{
    let durations = mp4io::write::durations_of(kept);
    if chunks.len() > 0 {
        let chunk = chunks[0];
        lemma_lasting(kept, 0, kept.len() as int);
        sums::lemma_sum_to_monotone(durations, chunk.end(), durations.len() as int);
        assert(mp4io::write::is_closed_in_time(durations, u64::MAX, chunk));
        assert(chunk.end() == durations.len());
        if chunks.len() > 1 {
            assert(chunks[1].start_sample == chunk.end());
            assert(chunks[1].sample_count > 0);
        }
    }
}

/// Chunks are stored in the order of their starts: of two, the one that is stored first does not
/// start later.
pub proof fn chunks_are_stored_by_their_starts<F: Fn(u64, u64) -> u64>(
    kept: Seq<Seq<SampleInfo>>,
    timescales: Seq<u32>,
    start_key: F,
    chunks: Seq<Chunk>,
    i: int,
    j: int,
) -> (keys: (u64, u64))
    requires
        interleave::is_interleaving(kept, timescales, start_key, chunks),
        0 <= i < j < chunks.len(),
    ensures
        start_key.ensures((chunks[i].start_units, chunks[i].units_per_second), keys.0),
        start_key.ensures((chunks[j].start_units, chunks[j].units_per_second), keys.1),
        keys.0 <= keys.1,
{
    let (lists, keys, order) = choose|
        lists: Seq<Seq<Chunk>>,
        keys: Seq<u64>,
        order: Seq<usize>,
    |
        {
            &&& interleave::are_chunkings(kept, timescales, lists)
            &&& #[trigger] interleave::interleaves(lists, start_key, keys, order, chunks)
        };
    let all = interleave::concat_to(lists, lists.len() as int);
    let sorted = interleave::sort_keys(keys);
    assert(sort::is_stable_order(sorted, order));
    let a = order[i] as int;
    let b = order[j] as int;
    assert(chunks[i] == all[a] && chunks[j] == all[b]);
    assert(sorted[a] == keys[a] && sorted[b] == keys[b]);
    (keys[a], keys[b])
}

/// The contents of the `mdat` atom follow its header, which follows the `ftyp` atom. The header has
/// a 64-bit size where the atom with an ordinary header would not fit in 32 bits, and chunk offsets
/// have 64 bits where the end of the file would not. A layout is planned wherever the end of the
/// file fits in 64 bits.
pub proof fn layouts_use_64_bits_where_needed(ftyp_len: u64, body_len: u64)
    ensures
        body_len + 8 <= u32::MAX && ftyp_len + 8 + body_len <= u64::MAX ==> {
            &&& mp4io::write::mdat_layout(ftyp_len, body_len) matches Ok(layout)
            &&& !layout.use_largesize
            &&& layout.header_len == 8
            &&& layout.body_start == ftyp_len + 8
            &&& layout.use_co64 == (ftyp_len + 8 + body_len > u32::MAX)
        },
        body_len + 8 > u32::MAX && ftyp_len + 16 + body_len <= u64::MAX ==> {
            &&& mp4io::write::mdat_layout(ftyp_len, body_len) matches Ok(layout)
            &&& layout.use_largesize
            &&& layout.header_len == 16
            &&& layout.body_start == ftyp_len + 16
            &&& layout.use_co64
        },
        mp4io::write::mdat_layout(ftyp_len, body_len) matches Ok(layout) ==> layout.body_start
            + body_len <= u64::MAX,
{
}

/// Where no layout is planned, the size of the `mdat` atom does not fit in 64 bits, or else the
/// offset at which its contents start does not, or else that at which they end.
pub proof fn layouts_fail_where_offsets_overflow(ftyp_len: u64, body_len: u64)
    ensures
        body_len + 8 > u64::MAX ==> mp4io::write::mdat_layout(ftyp_len, body_len) == Err::<
            MdatLayout,
            WriteError,
        >(WriteError::MdatSizeOverflow),
        body_len + 8 <= u64::MAX && ftyp_len + (if body_len + 8 > u32::MAX {
            16int
        } else {
            8
        }) > u64::MAX ==> mp4io::write::mdat_layout(ftyp_len, body_len) == Err::<
            MdatLayout,
            WriteError,
        >(WriteError::FtypSizeOverflow),
        body_len + 8 <= u64::MAX && ftyp_len + (if body_len + 8 > u32::MAX {
            16int
        } else {
            8
        }) <= u64::MAX && ftyp_len + (if body_len + 8 > u32::MAX {
            16int
        } else {
            8
        }) + body_len > u64::MAX ==> mp4io::write::mdat_layout(ftyp_len, body_len) == Err::<
            MdatLayout,
            WriteError,
        >(WriteError::MdatSizeOverflow),
{
}

/// The duration of a track in units of the movie is what its samples last, rounded down. Where the
/// track has no timescale it is 0.
pub proof fn durations_are_those_of_the_samples(
    moov: Moov,
    kept: Seq<Seq<SampleInfo>>,
    chunks: Seq<Chunk>,
    layout: MdatLayout,
    t: int,
    plan: TrackPlan,
)
    requires
        mp4io::write::is_track_plan(moov, kept, chunks, layout, t, plan),
        0 <= t < kept.len(),
    ensures
        plan.track_index == t,
        plan.media_duration == lasting(kept[t], 0, kept[t].len() as int),
        moov.trak@[t].timescale == 0 ==> plan.track_duration == 0,
        moov.trak@[t].timescale > 0 ==> plan.track_duration * moov.trak@[t].timescale
            <= plan.media_duration * moov.timescale < (plan.track_duration + 1)
            * moov.trak@[t].timescale,
{
    lemma_lasting(kept[t], 0, kept[t].len() as int);
    let product = plan.media_duration * moov.timescale;
    let scale = moov.trak@[t].timescale as int;
    let quotient = plan.track_duration as int;
    if scale > 0 {
        assert(quotient == product / scale);
        assert(quotient * scale <= product < (quotient + 1) * scale) by (nonlinear_arith)
            requires
                scale > 0,
                quotient == product / scale,
        ;
    }
}

/// A movie lasts as long as its longest track.
pub proof fn movie_lasts_as_its_longest_track(
    moov: Moov,
    kept: Seq<Seq<SampleInfo>>,
    plan: OutputPlan,
)
    requires
        mp4io::write::is_output_plan(moov, kept, plan),
    ensures
        forall|i: int|
            0 <= i < plan.tracks@.len() ==> (#[trigger] plan.tracks@[i]).track_duration
                <= plan.movie_duration,
        plan.movie_duration == 0 || exists|i: int|
            0 <= i < plan.tracks@.len() && (#[trigger] plan.tracks@[i]).track_duration
                == plan.movie_duration,
{
    lemma_longest(plan.tracks@, plan.tracks@.len() as int);
}

proof fn lemma_longest(tracks: Seq<TrackPlan>, n: int)
    requires
        0 <= n <= tracks.len(),
    ensures
        forall|i: int|
            0 <= i < n ==> (#[trigger] tracks[i]).track_duration
                <= mp4io::write::longest_duration(tracks, n),
        mp4io::write::longest_duration(tracks, n) == 0 || exists|i: int|
            0 <= i < n && (#[trigger] tracks[i]).track_duration == mp4io::write::longest_duration(
                tracks,
                n,
            ),
    decreases n,
{
    if n > 0 {
        lemma_longest(tracks, n - 1);
    }
}

/// The output has a track for every track of which a sample is kept, and for no other, in the order
/// of the input.
pub proof fn tracks_with_samples_are_written(
    moov: Moov,
    kept: Seq<Seq<SampleInfo>>,
    plan: OutputPlan,
)
    requires
        mp4io::write::is_output_plan(moov, kept, plan),
    ensures
        forall|i: int|
            0 <= i < plan.tracks@.len() ==> {
                &&& (#[trigger] plan.tracks@[i]).track_index < kept.len()
                &&& kept[plan.tracks@[i].track_index as int].len() > 0
            },
        forall|i: int, j: int|
            0 <= i < j < plan.tracks@.len() ==> (#[trigger] plan.tracks@[i]).track_index < (
            #[trigger] plan.tracks@[j]).track_index,
        forall|t: int|
            0 <= t < kept.len() && (#[trigger] kept[t]).len() > 0 ==> is_written(plan.tracks@, t),
{
    let n = kept.len() as int;
    let included = mp4io::write::included_tracks(kept, n);
    lemma_included(kept, n);
    assert forall|i: int| 0 <= i < plan.tracks@.len() implies (
    #[trigger] plan.tracks@[i]).track_index == included[i] by {
        assert(mp4io::write::is_track_plan(
            moov,
            kept,
            plan.chunks@,
            plan.layout,
            included[i],
            plan.tracks@[i],
        ));
    }
    assert forall|t: int| 0 <= t < kept.len() && (#[trigger] kept[t]).len() > 0 implies is_written(
        plan.tracks@,
        t,
    ) by {
        let k = choose|k: int| 0 <= k < included.len() && included[k] == t;
        assert(plan.tracks@[k].track_index == t);
    }
}

/// Track `t` of the input is among the tracks.
pub open spec fn is_written(tracks: Seq<TrackPlan>, t: int) -> bool {
    exists|i: int| 0 <= i < tracks.len() && (#[trigger] tracks[i]).track_index == t
}

proof fn lemma_included(kept: Seq<Seq<SampleInfo>>, n: int)
    requires
        0 <= n <= kept.len(),
    ensures
        ({
            let included = mp4io::write::included_tracks(kept, n);
            &&& forall|i: int|
                0 <= i < included.len() ==> 0 <= #[trigger] included[i] < n
                    && kept[included[i]].len() > 0
            &&& forall|i: int, j: int|
                0 <= i < j < included.len() ==> #[trigger] included[i] < #[trigger] included[j]
            &&& forall|t: int|
                0 <= t < n && (#[trigger] kept[t]).len() > 0 ==> included.contains(t)
        }),
    decreases n,
{
    if n > 0 {
        lemma_included(kept, n - 1);
        let before = mp4io::write::included_tracks(kept, n - 1);
        let included = mp4io::write::included_tracks(kept, n);
        assert forall|t: int|
            0 <= t < n && (#[trigger] kept[t]).len() > 0 implies included.contains(t) by {
            if t < n - 1 {
                let k = choose|k: int| 0 <= k < before.len() && before[k] == t;
                assert(included[k] == t);
            } else {
                assert(included[before.len() as int] == t);
            }
        }
    }
}

/// Sample tables of an output are no longer than they need to be: entries that follow each other
/// say something different, and none of them speaks of no sample.
pub proof fn tables_are_as_short_as_can_be(
    moov: Moov,
    kept: Seq<Seq<SampleInfo>>,
    chunks: Seq<Chunk>,
    layout: MdatLayout,
    t: int,
    plan: TrackPlan,
    i: int,
)
    requires
        mp4io::write::is_track_plan(moov, kept, chunks, layout, t, plan),
        0 <= i,
    ensures
        i < plan.stbl.stts@.len() ==> plan.stbl.stts@[i].sample_count > 0,
        i + 1 < plan.stbl.stts@.len() ==> plan.stbl.stts@[i].sample_delta
            != plan.stbl.stts@[i + 1].sample_delta,
        plan.stbl.ctts matches Some(entries) ==> {
            &&& i < entries@.len() ==> entries@[i].sample_count > 0
            &&& i + 1 < entries@.len() ==> entries@[i].sample_offset != entries@[i
                + 1].sample_offset
        },
        i + 1 < plan.stbl.stsc@.len() ==> plan.stbl.stsc@[i].samples_per_chunk
            != plan.stbl.stsc@[i + 1].samples_per_chunk,
        i < plan.stbl.stsc@.len() ==> plan.stbl.stsc@[i].sample_description_index == 1,
{
    let deltas = mp4io::read::stts_runs(plan.stbl.stts@);
    if i < deltas.len() {
        assert(deltas[i].0 > 0);
    }
    if i + 1 < deltas.len() {
        assert(deltas[i].1 != deltas[i + 1].1);
    }
    if let Some(entries) = plan.stbl.ctts {
        let offsets = mp4io::read::ctts_runs(entries@);
        if i < offsets.len() {
            assert(offsets[i].0 > 0);
        }
        if i + 1 < offsets.len() {
            assert(offsets[i].1 != offsets[i + 1].1);
        }
    }
    if i + 1 < plan.stbl.stsc@.len() {
        assert(plan.stbl.stsc@[i].samples_per_chunk != plan.stbl.stsc@[i + 1].samples_per_chunk);
    }
}

/// The samples that are kept are those that the list names, in its order. A list that names a sample
/// that is not there is refused, and the first such sample is told.
pub proof fn listed_samples_are_kept(
    track_index: usize,
    keep: Seq<DecodeIdx>,
    all: Seq<SampleInfo>,
    r: Result<Seq<SampleInfo>, WriteError>,
)
    requires
        mp4io::write::kept_resolved(track_index, keep, all, r),
        all.len() <= usize::MAX,
    ensures
        r is Ok <==> forall|i: int| 0 <= i < keep.len() ==> (#[trigger] keep[i]).0 < all.len(),
        r matches Ok(kept) ==> kept == keep.map_values(|k: DecodeIdx| all[k.0 as int]),
        r matches Err(e) ==> {
            &&& e matches WriteError::KeepOutOfRange { track_index: t, index, sample_count }
            &&& t == track_index
            &&& sample_count == all.len()
            &&& index >= all.len()
            &&& exists|i: int|
                0 <= i < keep.len() && (#[trigger] keep[i]).0 == index && forall|j: int|
                    0 <= j < i ==> (#[trigger] keep[j]).0 < all.len()
        },
{
    if let Ok(kept) = r {
        assert(kept =~= keep.map_values(|k: DecodeIdx| all[k.0 as int]));
    }
}

/// Something is kept wherever tracks are resolved, as many samples of each track as its list names.
/// Where nothing is to be kept that is told, and where lists are missing that is.
pub proof fn resolved_tracks_keep_what_is_listed(
    moov: Moov,
    file_len: u64,
    keep: Seq<Vec<DecodeIdx>>,
    r: Result<Vec<Vec<SampleInfo>>, WriteError>,
)
    requires
        mp4io::write::tracks_resolved(moov, file_len, keep, r),
    ensures
        keep.len() != moov.trak@.len() ==> (r matches Err(WriteError::KeepListCount { .. })),
        r matches Ok(kept) ==> {
            &&& keep.len() == moov.trak@.len()
            &&& kept@.len() == keep.len()
            &&& forall|t: int|
                0 <= t < keep.len() ==> (#[trigger] kept@[t])@.len() == keep[t]@.len()
            &&& exists|t: int| 0 <= t < keep.len() && (#[trigger] keep[t])@.len() > 0
        },
        r matches Err(WriteError::NothingKept) ==> forall|t: int|
            0 <= t < keep.len() ==> (#[trigger] keep[t])@.len() == 0,
{
    if keep.len() == moov.trak@.len() {
        match r {
            Ok(kept) => {
                assert forall|t: int| 0 <= t < keep.len() implies (#[trigger] kept@[t])@.len()
                    == keep[t]@.len() by {
                    assert(mp4io::write::track_resolved(
                        moov.trak@[t].stbl,
                        file_len,
                        t as usize,
                        keep[t]@,
                        Ok(kept@[t]@),
                    ));
                }
                let t = choose|t: int| 0 <= t < kept@.len() && (#[trigger] kept@[t])@.len() > 0;
                assert(keep[t]@.len() > 0);
            },
            Err(WriteError::NothingKept) => {
                let kept = choose|kept: Seq<Vec<SampleInfo>>|
                    {
                        &&& kept.len() == keep.len()
                        &&& #[trigger] mp4io::write::tracks_resolved_to(
                            moov.trak@,
                            file_len,
                            keep,
                            kept,
                            keep.len() as int,
                        )
                        &&& forall|t: int| 0 <= t < kept.len() ==> (#[trigger] kept[t])@.len() == 0
                    };
                assert forall|t: int| 0 <= t < keep.len() implies (#[trigger] keep[t])@.len()
                    == 0 by {
                    assert(mp4io::write::track_resolved(
                        moov.trak@[t].stbl,
                        file_len,
                        t as usize,
                        keep[t]@,
                        Ok(kept[t]@),
                    ));
                }
            },
            _ => {},
        }
    }
}

/// Chunks of several tracks that start at the same time are stored in the order of their tracks.
pub proof fn equal_starts_are_stored_by_track<F: Fn(u64, u64) -> u64>(
    kept: Seq<Seq<SampleInfo>>,
    timescales: Seq<u32>,
    start_key: F,
    chunks: Seq<Chunk>,
    i: int,
    j: int,
) -> (keys: (u64, u64))
    requires
        interleave::is_interleaving(kept, timescales, start_key, chunks),
        kept.len() <= usize::MAX,
        0 <= i < j < chunks.len(),
    ensures
        start_key.ensures((chunks[i].start_units, chunks[i].units_per_second), keys.0),
        start_key.ensures((chunks[j].start_units, chunks[j].units_per_second), keys.1),
        keys.0 < keys.1 || keys.0 == keys.1 && chunks[i].track_index <= chunks[j].track_index,
{
    let (lists, keys, order) = choose|
        lists: Seq<Seq<Chunk>>,
        keys: Seq<u64>,
        order: Seq<usize>,
    |
        {
            &&& interleave::are_chunkings(kept, timescales, lists)
            &&& #[trigger] interleave::interleaves(lists, start_key, keys, order, chunks)
        };
    let all = interleave::concat_to(lists, lists.len() as int);
    let sorted = interleave::sort_keys(keys);
    assert(sort::is_stable_order(sorted, order));
    let a = order[i] as int;
    let b = order[j] as int;
    assert(chunks[i] == all[a] && chunks[j] == all[b]);
    assert(sorted[a] == keys[a] && sorted[b] == keys[b]);
    lemma_tracks_ascend(kept, timescales, lists, lists.len() as int);
    if keys[a] == keys[b] {
        assert(a < b);
        assert(all[a].track_index <= all[b].track_index);
    }
    (keys[a], keys[b])
}

proof fn lemma_tracks_ascend(
    kept: Seq<Seq<SampleInfo>>,
    timescales: Seq<u32>,
    lists: Seq<Seq<Chunk>>,
    n: int,
)
    requires
        interleave::are_chunkings(kept, timescales, lists),
        kept.len() <= usize::MAX,
        0 <= n <= lists.len(),
    ensures
        forall|a: int|
            0 <= a < interleave::concat_to(lists, n).len() ==> (#[trigger] interleave::concat_to(
                lists,
                n,
            )[a]).track_index < n,
        forall|a: int, b: int|
            0 <= a < b < interleave::concat_to(lists, n).len() ==> (#[trigger] interleave::concat_to(
                lists,
                n,
            )[a]).track_index <= (#[trigger] interleave::concat_to(lists, n)[b]).track_index,
    decreases n,
{
    if n > 0 {
        lemma_tracks_ascend(kept, timescales, lists, n - 1);
        let before = interleave::concat_to(lists, n - 1);
        let here = lists[n - 1];
        let all = interleave::concat_to(lists, n);
        assert(mp4io::write::is_chunking(
            mp4io::write::durations_of(kept[n - 1]),
            timescales[n - 1],
            (n - 1) as usize,
            here,
        ));
        assert forall|a: int| 0 <= a < all.len() implies (#[trigger] all[a]).track_index < n && (a
            >= before.len() ==> all[a].track_index == n - 1) by {
            if a < before.len() {
                assert(all[a] == before[a]);
            } else {
                assert(all[a] == here[a - before.len()]);
            }
        }
        assert forall|a: int, b: int| 0 <= a < b < all.len() implies (
        #[trigger] all[a]).track_index <= (#[trigger] all[b]).track_index by {
            if b < before.len() {
                assert(all[a] == before[a] && all[b] == before[b]);
            }
        }
    }
}

} // verus!
