//! Planning a lossless rewrite of an mp4 file in the order `ftyp`, `mdat`, `moov`.
//!
//! Sample data is copied as it stands. Only the sample tables of each track are made
//! anew, for the samples that are kept. With `moov` at the end, all offsets are known
//! before the tables are written.

use crate::bytes;
use crate::mp4io::boxes::{Codec, CttsEntry, Moov, Stbl, StscEntry, StszSamples, SttsEntry, Trak};
use crate::mp4io::interleave;
use crate::mp4io::placement;
use crate::mp4io::placement::CopySpan;
use crate::mp4io::read;
use crate::mp4io::read::{SampleInfo, SampleTableError};
use crate::order::DecodeIdx;
use crate::runs;
use crate::sort;
use crate::sums;
use crate::text;
use mp4_atom::Encode;
use vstd::prelude::*;

verus! {

/// The length of an ordinary `mdat` header: four bytes of size, four bytes of kind.
pub const MDAT_HEADER_LEN: u64 = 8;

/// The length of a `mdat` header with a 64-bit size: four bytes that hold 1, four bytes
/// of kind, eight bytes of size.
pub const MDAT_LARGESIZE_HEADER_LEN: u64 = 16;

/// How the `mdat` atom is laid out.
#[derive(Debug, Clone, Copy, PartialEq, Eq, Structural)]
pub struct MdatLayout {
    /// The length of the header, 8 or 16.
    pub header_len: u64,
    /// Whether the header has a 64-bit size.
    pub use_largesize: bool,
    /// Where the contents start, in bytes from the start of the file.
    pub body_start: u64,
    /// Whether chunk offsets need 64 bits (`co64`) instead of 32 (`stco`).
    pub use_co64: bool,
}

/// Why a rewrite cannot be planned.
#[derive(Debug, Clone, Copy, PartialEq, Eq, Structural)]
pub enum WriteError {
    /// There are not as many keep lists as tracks.
    KeepListCount { keep_lists: usize, tracks: usize },
    /// The sample tables of the input are unsound.
    SampleTable { error: SampleTableError },
    /// A keep list names a sample that the track does not have.
    KeepOutOfRange { track_index: usize, index: u32, sample_count: usize },
    /// All keep lists are empty.
    NothingKept,
    /// The `ftyp` atom cannot be encoded.
    FtypEncoding,
    /// The offset at which `mdat` contents start does not fit in 64 bits.
    FtypSizeOverflow,
    /// The size of the `mdat` atom, or the offset of its end, does not fit in 64 bits.
    MdatSizeOverflow,
    /// The 64-bit size of the `mdat` atom overflows.
    MdatLargesizeOverflow,
    /// The size of the `mdat` atom does not fit in an ordinary header.
    MdatTooLargeForHeader,
}

/// The layout of a `mdat` atom with `mdat_body_len` bytes of contents after a `ftyp` atom
/// of `ftyp_len` bytes.
///
/// The choice of `co64` goes by the end of the whole atom, not by single chunks, so that
/// it is the same for every track.
pub open spec fn mdat_layout(ftyp_len: u64, mdat_body_len: u64) -> Result<MdatLayout, WriteError> {
    let use_largesize = mdat_body_len + MDAT_HEADER_LEN > u32::MAX;
    let header_len = if use_largesize {
        MDAT_LARGESIZE_HEADER_LEN
    } else {
        MDAT_HEADER_LEN
    };
    let body_start = ftyp_len + header_len;
    if mdat_body_len + MDAT_HEADER_LEN > u64::MAX {
        Err(WriteError::MdatSizeOverflow)
    } else if body_start > u64::MAX {
        Err(WriteError::FtypSizeOverflow)
    } else if body_start + mdat_body_len > u64::MAX {
        Err(WriteError::MdatSizeOverflow)
    } else {
        Ok(
            MdatLayout {
                header_len,
                use_largesize,
                body_start: body_start as u64,
                use_co64: body_start + mdat_body_len > u32::MAX,
            },
        )
    }
}

/// Decides the layout of the `mdat` atom.
pub fn plan_mdat_layout(ftyp_len: u64, mdat_body_len: u64) -> (r: Result<MdatLayout, WriteError>)
    ensures
        r == mdat_layout(ftyp_len, mdat_body_len),
{
    let normal_total: u64 = match mdat_body_len.checked_add(MDAT_HEADER_LEN) {
        Some(n) => n,
        None => return Err(WriteError::MdatSizeOverflow),
    };
    let use_largesize: bool = normal_total > u32::MAX as u64;
    let header_len: u64 = if use_largesize {
        MDAT_LARGESIZE_HEADER_LEN
    } else {
        MDAT_HEADER_LEN
    };
    let body_start: u64 = match ftyp_len.checked_add(header_len) {
        Some(n) => n,
        None => return Err(WriteError::FtypSizeOverflow),
    };
    let mdat_end: u64 = match body_start.checked_add(mdat_body_len) {
        Some(n) => n,
        None => return Err(WriteError::MdatSizeOverflow),
    };
    let use_co64: bool = mdat_end > u32::MAX as u64;
    Ok(MdatLayout { header_len, use_largesize, body_start, use_co64 })
}

/// The four bytes `mdat`.
pub open spec fn mdat_kind() -> Seq<u8> {
    seq![0x6du8, 0x64, 0x61, 0x74]
}

/// What writing the header of a `mdat` atom appends, and whether it succeeds.
pub open spec fn mdat_header(layout: MdatLayout, mdat_body_len: u64) -> (
    Seq<u8>,
    Result<(), WriteError>,
) {
    let total = mdat_body_len + layout.header_len;
    if layout.use_largesize {
        if total > u64::MAX {
            (bytes::be32(1) + mdat_kind(), Err(WriteError::MdatLargesizeOverflow))
        } else {
            (bytes::be32(1) + mdat_kind() + bytes::be64(total as u64), Ok(()))
        }
    } else if total > u64::MAX {
        (Seq::empty(), Err(WriteError::MdatSizeOverflow))
    } else if total > u32::MAX {
        (Seq::empty(), Err(WriteError::MdatTooLargeForHeader))
    } else {
        (bytes::be32(total as u32) + mdat_kind(), Ok(()))
    }
}

fn push_mdat_kind(out: &mut Vec<u8>)
    ensures
        final(out)@ == old(out)@ + mdat_kind(),
{
    out.push(0x6d);
    out.push(0x64);
    out.push(0x61);
    out.push(0x74);
    assert(out@ =~= old(out)@ + mdat_kind());
}

/// Appends the header of the `mdat` atom.
pub fn write_mdat_header(out: &mut Vec<u8>, layout: &MdatLayout, mdat_body_len: u64) -> (r: Result<
    (),
    WriteError,
>)
    ensures
        final(out)@ == old(out)@ + mdat_header(*layout, mdat_body_len).0,
        r == mdat_header(*layout, mdat_body_len).1,
{
    if layout.use_largesize {
        bytes::push_be32(out, 1);
        push_mdat_kind(out);
        let largesize: u64 = match mdat_body_len.checked_add(layout.header_len) {
            Some(n) => n,
            None => {
                assert(out@ =~= old(out)@ + mdat_header(*layout, mdat_body_len).0);
                return Err(WriteError::MdatLargesizeOverflow);
            },
        };
        bytes::push_be64(out, largesize);
    } else {
        let total: u64 = match mdat_body_len.checked_add(layout.header_len) {
            Some(n) => n,
            None => {
                assert(out@ =~= old(out)@ + mdat_header(*layout, mdat_body_len).0);
                return Err(WriteError::MdatSizeOverflow);
            },
        };
        if total > u32::MAX as u64 {
            assert(out@ =~= old(out)@ + mdat_header(*layout, mdat_body_len).0);
            return Err(WriteError::MdatTooLargeForHeader);
        }
        bytes::push_be32(out, total as u32);
        push_mdat_kind(out);
    }
    assert(out@ =~= old(out)@ + mdat_header(*layout, mdat_body_len).0);
    Ok(())
}

/// A layout that was planned for some contents has room for their header: writing it
/// succeeds, and takes as many bytes as the layout says.
pub proof fn planned_header_fits(ftyp_len: u64, mdat_body_len: u64, layout: MdatLayout)
    requires
        mdat_layout(ftyp_len, mdat_body_len) == Ok::<MdatLayout, WriteError>(layout),
    ensures
        mdat_header(layout, mdat_body_len).1 is Ok,
        mdat_header(layout, mdat_body_len).0.len() == layout.header_len,
        ftyp_len + layout.header_len == layout.body_start,
{
}

/// The durations of samples.
pub open spec fn durations_of(kept: Seq<SampleInfo>) -> Seq<u32> {
    kept.map_values(|s: SampleInfo| s.duration)
}

/// The sizes of samples.
pub open spec fn sizes_of(kept: Seq<SampleInfo>) -> Seq<u32> {
    kept.map_values(|s: SampleInfo| s.size)
}

/// The offsets from decoding to showing of samples.
pub open spec fn cts_offsets_of(kept: Seq<SampleInfo>) -> Seq<i64> {
    kept.map_values(|s: SampleInfo| s.cts_offset)
}

/// The `stts` table for `kept`: runs of equal durations are one entry each.
pub fn run_length_encode_stts(kept: &Vec<SampleInfo>) -> (entries: Vec<SttsEntry>)
    requires
        kept@.len() <= u32::MAX,
    ensures
        runs::expand(read::stts_runs(entries@)) == durations_of(kept@),
        runs::is_compact(read::stts_runs(entries@)),
{
    let mut entries: Vec<SttsEntry> = Vec::new();
    let mut i: usize = 0;
    assert(durations_of(kept@).take(0) =~= runs::expand(read::stts_runs(entries@)));
    while i < kept.len()
        invariant
            kept@.len() <= u32::MAX,
            i <= kept@.len(),
            runs::expand(read::stts_runs(entries@)) == durations_of(kept@).take(i as int),
            runs::is_compact(read::stts_runs(entries@)),
            sums::sum(runs::counts(read::stts_runs(entries@))) == i,
        decreases kept@.len() - i,
    {
        let duration: u32 = kept[i].duration;
        let ghost before = read::stts_runs(entries@);
        let last: Option<SttsEntry> = if entries.len() > 0 {
            Some(entries[entries.len() - 1])
        } else {
            None
        };
        let extend: bool = match last {
            Some(entry) => entry.sample_delta == duration,
            None => false,
        };
        if extend {
            let n: usize = entries.len() - 1;
            let entry = entries[n];
            proof {
                sums::lemma_sum_to_monotone(runs::counts(before), 0, n as int);
            }
            entries.set(
                n,
                SttsEntry { sample_count: entry.sample_count + 1, sample_delta: duration },
            );
            proof {
                let after = read::stts_runs(entries@);
                assert(after =~= before.drop_last().push((
                    (entry.sample_count + 1) as u32,
                    duration,
                )));
                lemma_run_grows(before, duration);
            }
        } else {
            entries.push(SttsEntry { sample_count: 1, sample_delta: duration });
            proof {
                let after = read::stts_runs(entries@);
                assert(after =~= before.push((1u32, duration)));
                lemma_run_starts(before, duration);
            }
        }
        proof {
            assert(durations_of(kept@).take(i + 1) =~= durations_of(kept@).take(i as int).push(
                duration,
            ));
        }
        i += 1;
    }
    assert(durations_of(kept@).take(i as int) =~= durations_of(kept@));
    entries
}

proof fn lemma_run_grows<T>(before: Seq<(u32, T)>, value: T)
    requires
        before.len() > 0,
        before.last().0 < u32::MAX,
        before.last().1 == value,
        runs::is_compact(before),
    ensures
        ({
            let after = before.drop_last().push(((before.last().0 + 1) as u32, value));
            &&& runs::expand(after) == runs::expand(before).push(value)
            &&& runs::is_compact(after)
            &&& sums::sum(runs::counts(after)) == sums::sum(runs::counts(before)) + 1
        }),
{
    let rest = before.drop_last();
    let grown = ((before.last().0 + 1) as u32, value);
    let after = rest.push(grown);
    runs::lemma_expand_push(rest, grown);
    assert(before =~= rest.push(before.last()));
    runs::lemma_expand_push(rest, before.last());
    assert(runs::expand(after) =~= runs::expand(before).push(value));
    runs::lemma_expand_len(before);
    runs::lemma_expand_len(after);
    assert forall|i: int, j: int|
        0 <= i < after.len() && j == i + 1 && j < after.len() implies (#[trigger] after[i]).1 != (
    #[trigger] after[j]).1 by {
        assert(before[i].1 != before[j].1);
    }
}

proof fn lemma_run_starts<T>(before: Seq<(u32, T)>, value: T)
    requires
        runs::is_compact(before),
        before.len() > 0 ==> before.last().1 != value,
    ensures
        runs::expand(before.push((1u32, value))) == runs::expand(before).push(value),
        runs::is_compact(before.push((1u32, value))),
        sums::sum(runs::counts(before.push((1u32, value)))) == sums::sum(runs::counts(before)) + 1,
{
    runs::lemma_expand_push(before, (1u32, value));
    assert(runs::expand(before.push((1u32, value))) =~= runs::expand(before).push(value));
    runs::lemma_expand_len(before);
    runs::lemma_expand_len(before.push((1u32, value)));
}

/// The `ctts` table for `kept`: runs of equal offsets are one entry each.
pub fn run_length_encode_ctts(kept: &Vec<SampleInfo>) -> (entries: Vec<CttsEntry>)
    requires
        kept@.len() <= u32::MAX,
    ensures
        runs::expand(read::ctts_runs(entries@)) == cts_offsets_of(kept@),
        runs::is_compact(read::ctts_runs(entries@)),
{
    let mut entries: Vec<CttsEntry> = Vec::new();
    let mut i: usize = 0;
    assert(cts_offsets_of(kept@).take(0) =~= runs::expand(read::ctts_runs(entries@)));
    while i < kept.len()
        invariant
            kept@.len() <= u32::MAX,
            i <= kept@.len(),
            runs::expand(read::ctts_runs(entries@)) == cts_offsets_of(kept@).take(i as int),
            runs::is_compact(read::ctts_runs(entries@)),
            sums::sum(runs::counts(read::ctts_runs(entries@))) == i,
        decreases kept@.len() - i,
    {
        let cts_offset: i64 = kept[i].cts_offset;
        let ghost before = read::ctts_runs(entries@);
        let last: Option<CttsEntry> = if entries.len() > 0 {
            Some(entries[entries.len() - 1])
        } else {
            None
        };
        let extend: bool = match last {
            Some(entry) => entry.sample_offset == cts_offset,
            None => false,
        };
        if extend {
            let n: usize = entries.len() - 1;
            let entry = entries[n];
            proof {
                sums::lemma_sum_to_monotone(runs::counts(before), 0, n as int);
            }
            entries.set(
                n,
                CttsEntry { sample_count: entry.sample_count + 1, sample_offset: cts_offset },
            );
            proof {
                let after = read::ctts_runs(entries@);
                assert(after =~= before.drop_last().push((
                    (entry.sample_count + 1) as u32,
                    cts_offset,
                )));
                lemma_run_grows(before, cts_offset);
            }
        } else {
            entries.push(CttsEntry { sample_count: 1, sample_offset: cts_offset });
            proof {
                let after = read::ctts_runs(entries@);
                assert(after =~= before.push((1u32, cts_offset)));
                lemma_run_starts(before, cts_offset);
            }
        }
        proof {
            assert(cts_offsets_of(kept@).take(i + 1) =~= cts_offsets_of(kept@).take(i as int).push(
                cts_offset,
            ));
        }
        i += 1;
    }
    assert(cts_offsets_of(kept@).take(i as int) =~= cts_offsets_of(kept@));
    entries
}

/// A run of samples of one track that are stored next to each other, about a second of
/// it.
#[derive(Debug, Clone, Copy, PartialEq, Eq, Structural)]
pub struct Chunk {
    /// The position of the track in the movie.
    pub track_index: usize,
    /// The first sample, counted among the kept samples of the track.
    pub start_sample: usize,
    /// The number of samples.
    pub sample_count: u32,
    /// The start of the chunk: `start_units / units_per_second` seconds.
    pub start_units: u64,
    /// See `start_units`.
    pub units_per_second: u64,
}

impl Chunk {
    /// The first sample after the chunk.
    pub open spec fn end(self) -> int {
        self.start_sample + self.sample_count
    }
}

/// How long a chunk has to be before it is closed. A track without a timescale is one
/// single chunk.
pub open spec fn chunk_threshold(timescale: u32) -> u64 {
    if timescale == 0 {
        u64::MAX
    } else {
        timescale as u64
    }
}

/// `chunk` is closed as soon as it is `threshold` long, or at the last sample.
pub open spec fn is_closed_in_time(durations: Seq<u32>, threshold: u64, chunk: Chunk) -> bool {
    let start = chunk.start_sample as int;
    &&& forall|m: int|
        start < m < chunk.end() ==> #[trigger] sums::sum_to(durations, m) - sums::sum_to(
            durations,
            start,
        ) < threshold
    &&& chunk.end() == durations.len() || sums::sum_to(durations, chunk.end()) - sums::sum_to(
        durations,
        start,
    ) >= threshold
}

/// `chunks` is the division of a track's samples, which last `durations`, into chunks.
pub open spec fn is_chunking(
    durations: Seq<u32>,
    timescale: u32,
    track_index: usize,
    chunks: Seq<Chunk>,
) -> bool {
    &&& forall|c: int|
        0 <= c < chunks.len() ==> {
            let chunk = #[trigger] chunks[c];
            &&& chunk.track_index == track_index
            &&& chunk.sample_count > 0
            &&& chunk.end() <= durations.len()
            &&& chunk.start_units == sums::sum_to(durations, chunk.start_sample as int)
            &&& chunk.units_per_second == chunk_threshold(timescale)
            &&& is_closed_in_time(durations, chunk_threshold(timescale), chunk)
        }
    &&& forall|c: int, d: int|
        0 <= c < chunks.len() && d == c + 1 && d < chunks.len() ==> (
        #[trigger] chunks[d]).start_sample == (#[trigger] chunks[c]).end()
    &&& chunks.len() == 0 ==> durations.len() == 0
    &&& chunks.len() > 0 ==> {
        &&& chunks[0].start_sample == 0
        &&& chunks.last().end() == durations.len()
    }
}

/// Divides the kept samples of a track into chunks of about a second each. What is left at
/// the end is a shorter chunk.
pub fn chunk_track(kept: &Vec<SampleInfo>, timescale: u32, track_index: usize) -> (chunks: Vec<
    Chunk,
>)
    requires
        kept@.len() <= u32::MAX,
    ensures
        is_chunking(durations_of(kept@), timescale, track_index, chunks@),
{
    let threshold: u64 = if timescale == 0 {
        u64::MAX
    } else {
        timescale as u64
    };
    let ghost durations = durations_of(kept@);
    let mut chunks: Vec<Chunk> = Vec::new();
    let mut start_sample: usize = 0;
    let mut before_chunk: u64 = 0;
    let mut in_chunk: u64 = 0;
    let mut i: usize = 0;
    while i < kept.len()
        invariant
            kept@.len() <= u32::MAX,
            threshold == chunk_threshold(timescale),
            durations == durations_of(kept@),
            start_sample <= i <= kept@.len(),
            i == kept@.len() ==> start_sample == i,
            before_chunk == sums::sum_to(durations, start_sample as int),
            in_chunk == sums::sum_to(durations, i as int) - sums::sum_to(
                durations,
                start_sample as int,
            ),
            in_chunk < threshold,
            forall|m: int|
                start_sample < m <= i ==> #[trigger] sums::sum_to(durations, m) - sums::sum_to(
                    durations,
                    start_sample as int,
                ) < threshold,
            forall|c: int|
                0 <= c < chunks@.len() ==> {
                    let chunk = #[trigger] chunks@[c];
                    &&& chunk.track_index == track_index
                    &&& chunk.sample_count > 0
                    &&& chunk.end() <= start_sample
                    &&& chunk.start_units == sums::sum_to(durations, chunk.start_sample as int)
                    &&& chunk.units_per_second == threshold
                    &&& is_closed_in_time(durations, threshold, chunk)
                },
            forall|c: int, d: int|
                0 <= c < chunks@.len() && d == c + 1 && d < chunks@.len() ==> (
                #[trigger] chunks@[d]).start_sample == (#[trigger] chunks@[c]).end(),
            chunks@.len() == 0 ==> start_sample == 0,
            chunks@.len() > 0 ==> {
                &&& chunks@[0].start_sample == 0
                &&& chunks@.last().end() == start_sample
            },
        decreases kept@.len() - i,
    {
        proof {
            sums::lemma_sum_to_bound(durations, i + 1);
            sums::lemma_sum_to_monotone(durations, start_sample as int, i as int);
            assert((i + 1) * u32::MAX <= u32::MAX * u32::MAX) by (nonlinear_arith)
                requires
                    i + 1 <= u32::MAX,
            ;
            assert(durations[i as int] == kept@[i as int].duration);
        }
        in_chunk = in_chunk + kept[i].duration as u64;
        let is_last: bool = i + 1 == kept.len();
        if in_chunk >= threshold || is_last {
            let chunk = Chunk {
                track_index,
                start_sample,
                sample_count: (i - start_sample + 1) as u32,
                start_units: before_chunk,
                units_per_second: threshold,
            };
            assert(is_closed_in_time(durations, threshold, chunk));
            chunks.push(chunk);
            before_chunk = before_chunk + in_chunk;
            in_chunk = 0;
            start_sample = i + 1;
        }
        i += 1;
    }
    chunks
}

/// The walk through chunks that hold `counts` samples.
pub open spec fn counted_visits(counts: Seq<u32>) -> Seq<read::ChunkVisit> {
    Seq::new(
        counts.len(),
        |c: int| read::ChunkVisit { chunk: c + 1, samples: counts[c] as int },
    )
}

/// `entries` is the shortest `stsc` table for chunks that hold `counts` samples.
pub open spec fn is_stsc_of(counts: Seq<u32>, entries: Seq<StscEntry>) -> bool {
    &&& read::chunk_visits(entries, counts.len() as int, entries.len() as int) == counted_visits(
        counts,
    )
    &&& forall|i: int|
        0 <= i < entries.len() ==> {
            let entry = #[trigger] entries[i];
            &&& entry.sample_description_index == 1
            &&& 1 <= entry.first_chunk <= counts.len()
        }
    &&& forall|i: int, j: int|
        0 <= i < entries.len() && j == i + 1 && j < entries.len() ==> {
            &&& (#[trigger] entries[i]).first_chunk < (#[trigger] entries[j]).first_chunk
            &&& entries[i].samples_per_chunk != entries[j].samples_per_chunk
        }
}

/// The walk through the first `n` entries does not depend on where the last of all entries
/// ends, as long as it is not one of them.
proof fn lemma_visits_agree(
    a: Seq<StscEntry>,
    b: Seq<StscEntry>,
    count_a: int,
    count_b: int,
    n: int,
)
    requires
        0 <= n <= a.len(),
        n <= b.len(),
        forall|i: int| 0 <= i < n ==> #[trigger] a[i] == b[i],
        forall|i: int|
            #![trigger a[i]]
            0 <= i < n ==> read::last_chunk_of(a, count_a, i) == read::last_chunk_of(b, count_b, i),
    ensures
        read::chunk_visits(a, count_a, n) == read::chunk_visits(b, count_b, n),
    decreases n,
{
    if n > 0 {
        lemma_visits_agree(a, b, count_a, count_b, n - 1);
        assert(a[n - 1] == b[n - 1]);
        assert(read::entry_visits(a, count_a, n - 1) =~= read::entry_visits(b, count_b, n - 1));
    }
}

/// The `stsc` table for chunks that hold `chunk_sample_counts` samples: one entry wherever
/// the number of samples changes.
pub fn build_stsc_entries(chunk_sample_counts: &Vec<u32>) -> (entries: Vec<StscEntry>)
    requires
        chunk_sample_counts@.len() <= u32::MAX,
    ensures
        is_stsc_of(chunk_sample_counts@, entries@),
{
    let ghost counts = chunk_sample_counts@;
    let mut entries: Vec<StscEntry> = Vec::new();
    let mut i: usize = 0;
    assert(read::chunk_visits(entries@, 0, 0) =~= counted_visits(counts.take(0)));
    while i < chunk_sample_counts.len()
        invariant
            counts == chunk_sample_counts@,
            counts.len() <= u32::MAX,
            i <= counts.len(),
            is_stsc_of(counts.take(i as int), entries@),
            i > 0 ==> entries@.len() > 0 && entries@.last().samples_per_chunk == counts[i - 1],
        decreases counts.len() - i,
    {
        let count: u32 = chunk_sample_counts[i];
        let ghost before = entries@;
        let ghost n = before.len() as int;
        let same: bool = if entries.len() > 0 {
            entries[entries.len() - 1].samples_per_chunk == count
        } else {
            false
        };
        if !same {
            entries.push(
                StscEntry {
                    first_chunk: (i + 1) as u32,
                    samples_per_chunk: count,
                    sample_description_index: 1,
                },
            );
        }
        proof {
            let now = counts.take(i + 1);
            assert(counts.take(i as int).len() == i);
            if same {
                let m = n - 1;
                lemma_visits_agree(before, before, i as int, i + 1, m);
                let old_last = read::entry_visits(before, i as int, m);
                let new_last = read::entry_visits(before, i + 1, m);
                let visit = read::ChunkVisit { chunk: i + 1, samples: count as int };
                assert(new_last =~= old_last.push(visit));
                assert(read::chunk_visits(before, i + 1, n) =~= read::chunk_visits(
                    before,
                    i as int,
                    n,
                ).push(visit));
                assert(counted_visits(now) =~= counted_visits(counts.take(i as int)).push(visit));
            } else {
                let after = entries@;
                lemma_visits_agree(after, before, i + 1, i as int, n);
                let visit = read::ChunkVisit { chunk: i + 1, samples: count as int };
                assert(read::entry_visits(after, i + 1, n) =~= seq![visit]);
                assert(read::chunk_visits(after, i + 1, n + 1) =~= read::chunk_visits(
                    before,
                    i as int,
                    n,
                ).push(visit));
                assert(counted_visits(now) =~= counted_visits(counts.take(i as int)).push(visit));
            }
        }
        i += 1;
    }
    assert(counts.take(i as int) =~= counts);
    entries
}

/// `r` is what looking up the samples that a keep list names gives.
pub open spec fn kept_resolved(
    track_index: usize,
    keep: Seq<DecodeIdx>,
    all: Seq<SampleInfo>,
    r: Result<Seq<SampleInfo>, WriteError>,
) -> bool {
    match r {
        Ok(kept) => {
            &&& kept.len() == keep.len()
            &&& forall|i: int|
                0 <= i < keep.len() ==> (#[trigger] keep[i]).0 < all.len() && kept[i]
                    == all[keep[i].0 as int]
        },
        Err(e) => exists|i: int|
            {
                &&& 0 <= i < keep.len()
                &&& (#[trigger] keep[i]).0 >= all.len()
                &&& forall|j: int| 0 <= j < i ==> (#[trigger] keep[j]).0 < all.len()
                &&& e == WriteError::KeepOutOfRange {
                    track_index,
                    index: keep[i].0,
                    sample_count: all.len() as usize,
                }
            },
    }
}

/// The contents of a successful result.
pub open spec fn kept_view(r: Result<Vec<SampleInfo>, WriteError>) -> Result<
    Seq<SampleInfo>,
    WriteError,
> {
    match r {
        Ok(v) => Ok(v@),
        Err(e) => Err(e),
    }
}

/// Looks up the samples that a keep list names, in the order of the list.
pub fn resolve_kept_samples(
    track_index: usize,
    keep: &Vec<DecodeIdx>,
    all_samples: &Vec<SampleInfo>,
) -> (r: Result<Vec<SampleInfo>, WriteError>)
    ensures
        kept_resolved(track_index, keep@, all_samples@, kept_view(r)),
{
    let mut kept: Vec<SampleInfo> = Vec::new();
    let mut i: usize = 0;
    while i < keep.len()
        invariant
            i <= keep@.len(),
            kept@.len() == i,
            forall|j: int|
                0 <= j < i ==> (#[trigger] keep@[j]).0 < all_samples@.len() && kept@[j]
                    == all_samples@[keep@[j].0 as int],
        decreases keep@.len() - i,
    {
        let index: u32 = keep[i].0;
        if (index as usize) < all_samples.len() {
            kept.push(all_samples[index as usize]);
        } else {
            assert(keep@[i as int].0 >= all_samples@.len());
            return Err(
                WriteError::KeepOutOfRange {
                    track_index,
                    index,
                    sample_count: all_samples.len(),
                },
            );
        }
        i += 1;
    }
    Ok(kept)
}

#[verifier::external_type_specification]
#[verifier::external_body]
pub struct ExMp4AtomError(mp4_atom::Error);

/// The bytes of four-character codes, one after the other.
pub open spec fn brand_bytes(brands: Seq<[u8; 4]>) -> Seq<u8>
    decreases brands.len(),
{
    if brands.len() == 0 {
        Seq::empty()
    } else {
        brand_bytes(brands.drop_last()) + brands.last()@
    }
}

/// The bytes of a `ftyp` atom: its size, its kind, the major brand, the minor version and
/// the compatible brands.
pub open spec fn ftyp_atom(major: [u8; 4], minor: u32, compatible: Seq<[u8; 4]>) -> Seq<u8> {
    bytes::be32((16 + 4 * compatible.len()) as u32) + seq![0x66u8, 0x74, 0x79, 0x70] + major@
        + bytes::be32(minor) + brand_bytes(compatible)
}

/// Calls `mp4_atom::Ftyp::encode` on an empty buffer. It appends the size of the atom as a
/// 32-bit number, the kind `ftyp`, the major brand, the minor version and the compatible
/// brands, all numbers with the most significant byte first, and fails only where the size
/// does not fit in 32 bits.
#[verifier::external_body]
fn encode_ftyp(major: [u8; 4], minor: u32, compatible: &Vec<[u8; 4]>) -> (r: Result<
    Vec<u8>,
    mp4_atom::Error,
>)
    ensures
        r is Ok <==> 16 + 4 * compatible@.len() <= u32::MAX,
        r matches Ok(atom) ==> atom@ == ftyp_atom(major, minor, compatible@),
{
    let ftyp = mp4_atom::Ftyp {
        major_brand: major.into(),
        minor_version: minor,
        compatible_brands: compatible.iter().map(|brand| (*brand).into()).collect(),
    };
    let mut atom: Vec<u8> = Vec::new();
    ftyp.encode(&mut atom)?;
    Ok(atom)
}

/// The `ftyp` atom of every output: major brand `isom`, minor version 512, compatible
/// brands `isom`, `iso2`, `avc1` and `mp41`.
pub open spec fn output_ftyp() -> Seq<u8> {
    bytes::be32(32) + seq![0x66u8, 0x74, 0x79, 0x70] + seq![0x69u8, 0x73, 0x6f, 0x6d]
        + bytes::be32(512) + seq![0x69u8, 0x73, 0x6f, 0x6d] + seq![0x69u8, 0x73, 0x6f, 0x32]
        + seq![0x61u8, 0x76, 0x63, 0x31] + seq![0x6du8, 0x70, 0x34, 0x31]
}

/// Encodes the `ftyp` atom of the output.
pub fn build_ftyp() -> (r: Result<Vec<u8>, WriteError>)
    ensures
        r matches Ok(atom) && atom@ == output_ftyp(),
{
    let mut compatible: Vec<[u8; 4]> = Vec::new();
    compatible.push([0x69, 0x73, 0x6f, 0x6d]);
    compatible.push([0x69, 0x73, 0x6f, 0x32]);
    compatible.push([0x61, 0x76, 0x63, 0x31]);
    compatible.push([0x6d, 0x70, 0x34, 0x31]);
    let major: [u8; 4] = [0x69, 0x73, 0x6f, 0x6d];
    match encode_ftyp(major, 512, &compatible) {
        Ok(atom) => {
            proof {
                let brands = compatible@;
                let b0 = brands.take(0);
                let b1 = brands.take(1);
                let b2 = brands.take(2);
                let b3 = brands.take(3);
                assert(b1.drop_last() =~= b0);
                assert(b2.drop_last() =~= b1);
                assert(b3.drop_last() =~= b2);
                assert(brands.drop_last() =~= b3);
                reveal_with_fuel(brand_bytes, 2);
                assert(brand_bytes(b0) =~= Seq::empty());
                assert(brand_bytes(b1) =~= seq![0x69u8, 0x73, 0x6f, 0x6d]);
                assert(brand_bytes(b2) =~= seq![0x69u8, 0x73, 0x6f, 0x6d] + seq![
                    0x69u8,
                    0x73,
                    0x6f,
                    0x32,
                ]);
                assert(atom@ =~= output_ftyp());
            }
            Ok(atom)
        },
        Err(_) => Err(WriteError::FtypEncoding),
    }
}

/// `r` is what looking up the kept samples of the track with the tables `stbl` gives.
pub open spec fn track_resolved(
    stbl: Stbl,
    file_len: u64,
    track_index: usize,
    keep: Seq<DecodeIdx>,
    r: Result<Seq<SampleInfo>, WriteError>,
) -> bool {
    ||| exists|e: SampleTableError|
        {
            &&& #[trigger] read::samples_restored(stbl, file_len, Err(e))
            &&& r == Err::<Seq<SampleInfo>, WriteError>(WriteError::SampleTable { error: e })
        }
    ||| exists|all: Seq<SampleInfo>|
        {
            &&& #[trigger] read::samples_restored(stbl, file_len, Ok(all))
            &&& kept_resolved(track_index, keep, all, r)
        }
}

/// `kept` holds the kept samples of the first `n` tracks.
pub open spec fn tracks_resolved_to(
    trak: Seq<Trak>,
    file_len: u64,
    keep: Seq<Vec<DecodeIdx>>,
    kept: Seq<Vec<SampleInfo>>,
    n: int,
) -> bool {
    forall|t: int|
        0 <= t < n ==> track_resolved(
            (#[trigger] trak[t]).stbl,
            file_len,
            t as usize,
            keep[t]@,
            Ok(kept[t]@),
        )
}

/// `r` is what looking up the kept samples of all tracks gives. There has to be one keep
/// list per track, every track has to resolve, and something has to be kept.
pub open spec fn tracks_resolved(
    moov: Moov,
    file_len: u64,
    keep: Seq<Vec<DecodeIdx>>,
    r: Result<Vec<Vec<SampleInfo>>, WriteError>,
) -> bool {
    if keep.len() != moov.trak@.len() {
        r == Err::<Vec<Vec<SampleInfo>>, WriteError>(
            WriteError::KeepListCount {
                keep_lists: keep.len() as usize,
                tracks: moov.trak@.len() as usize,
            },
        )
    } else {
        match r {
            Ok(kept) => {
                &&& kept@.len() == keep.len()
                &&& tracks_resolved_to(moov.trak@, file_len, keep, kept@, keep.len() as int)
                &&& exists|t: int| 0 <= t < kept@.len() && (#[trigger] kept@[t])@.len() > 0
            },
            Err(e) => {
                ||| exists|kept: Seq<Vec<SampleInfo>>, t: int|
                    {
                        &&& 0 <= t < keep.len()
                        &&& #[trigger] tracks_resolved_to(moov.trak@, file_len, keep, kept, t)
                        &&& track_resolved(
                            moov.trak@[t].stbl,
                            file_len,
                            t as usize,
                            keep[t]@,
                            Err(e),
                        )
                    }
                ||| {
                    &&& e == WriteError::NothingKept
                    &&& exists|kept: Seq<Vec<SampleInfo>>|
                        {
                            &&& kept.len() == keep.len()
                            &&& #[trigger] tracks_resolved_to(
                                moov.trak@,
                                file_len,
                                keep,
                                kept,
                                keep.len() as int,
                            )
                            &&& forall|t: int|
                                0 <= t < kept.len() ==> (#[trigger] kept[t])@.len() == 0
                        }
                }
            },
        }
    }
}

/// The tables of each track that is reached can be read: a track is reached where there is a
/// keep list per track and the tracks before it have been resolved.
pub open spec fn tracks_are_readable(
    moov: Moov,
    file_len: u64,
    keep: Seq<Vec<DecodeIdx>>,
) -> bool {
    forall|kept: Seq<Vec<SampleInfo>>, t: int|
        keep.len() == moov.trak@.len() && 0 <= t < moov.trak@.len() && kept.len() == t
            && #[trigger] tracks_resolved_to(moov.trak@, file_len, keep, kept, t)
            ==> moov.trak@[t].stbl.is_readable(file_len)
}

/// Checks that there is one keep list per track.
pub fn check_keep_lists(moov: &Moov, keep_per_track: &Vec<Vec<DecodeIdx>>) -> (r: Result<
    (),
    WriteError,
>)
    ensures
        r == (if keep_per_track@.len() != moov.trak@.len() {
            Err::<(), WriteError>(
                WriteError::KeepListCount {
                    keep_lists: keep_per_track@.len() as usize,
                    tracks: moov.trak@.len() as usize,
                },
            )
        } else {
            Ok(())
        }),
{
    if keep_per_track.len() != moov.trak.len() {
        return Err(
            WriteError::KeepListCount {
                keep_lists: keep_per_track.len(),
                tracks: moov.trak.len(),
            },
        );
    }
    Ok(())
}

/// Looking up the kept samples of a track either succeeds or fails.
proof fn lemma_track_resolved_once(
    stbl: Stbl,
    file_len: u64,
    track_index: usize,
    keep: Seq<DecodeIdx>,
    kept: Seq<SampleInfo>,
    e: WriteError,
)
    requires
        track_resolved(stbl, file_len, track_index, keep, Ok(kept)),
    ensures
        !track_resolved(stbl, file_len, track_index, keep, Err(e)),
{
    let all = choose|all: Seq<SampleInfo>|
        {
            &&& #[trigger] read::samples_restored(stbl, file_len, Ok(all))
            &&& kept_resolved(track_index, keep, all, Ok(kept))
        };
    assert forall|other: Seq<SampleInfo>| #[trigger]
        read::samples_restored(stbl, file_len, Ok(other)) implies other == all by {
        read::samples_are_determined(stbl, all, other);
    }
    if track_resolved(stbl, file_len, track_index, keep, Err(e)) {
        assert(kept_resolved(track_index, keep, all, Err(e)));
        let i = choose|i: int|
            {
                &&& 0 <= i < keep.len()
                &&& (#[trigger] keep[i]).0 >= all.len()
                &&& forall|j: int| 0 <= j < i ==> (#[trigger] keep[j]).0 < all.len()
                &&& e == WriteError::KeepOutOfRange {
                    track_index,
                    index: keep[i].0,
                    sample_count: all.len() as usize,
                }
            };
        assert(keep[i].0 < all.len());
    }
}

/// No track behind the first one that fails is reached.
proof fn lemma_readable_to_failure(
    moov: Moov,
    file_len: u64,
    keep: Seq<Vec<DecodeIdx>>,
    t: int,
    e: WriteError,
)
    requires
        keep.len() == moov.trak@.len(),
        0 <= t < moov.trak@.len(),
        forall|u: int|
            0 <= u <= t ==> (#[trigger] moov.trak@[u]).stbl.is_readable(file_len),
        track_resolved(moov.trak@[t].stbl, file_len, t as usize, keep[t]@, Err(e)),
    ensures
        tracks_are_readable(moov, file_len, keep),
{
    assert forall|kept: Seq<Vec<SampleInfo>>, u: int|
        keep.len() == moov.trak@.len() && 0 <= u < moov.trak@.len() && kept.len() == u
            && #[trigger] tracks_resolved_to(
            moov.trak@,
            file_len,
            keep,
            kept,
            u,
        ) implies moov.trak@[u].stbl.is_readable(file_len) by {
        if u > t {
            assert(track_resolved(
                moov.trak@[t].stbl,
                file_len,
                t as usize,
                keep[t]@,
                Ok(kept[t]@),
            ));
            lemma_track_resolved_once(
                moov.trak@[t].stbl,
                file_len,
                t as usize,
                keep[t]@,
                kept[t]@,
                e,
            );
        }
    }
}

/// Looks up the samples that the keep lists name, track by track. `keep_per_track` has one
/// list per track; an empty list leaves the track out of the output.
pub fn resolve_tracks(moov: &Moov, file_len: u64, keep_per_track: &Vec<Vec<DecodeIdx>>) -> (r:
    Result<Vec<Vec<SampleInfo>>, WriteError>)
    requires
        tracks_are_readable(*moov, file_len, keep_per_track@),
    ensures
        tracks_resolved(*moov, file_len, keep_per_track@, r),
{
    try_resolve_tracks(moov, file_len, keep_per_track).unwrap()
}

/// As [`resolve_tracks`], for tables of which nothing is known: `None` where a track that is
/// reached cannot be read.
pub fn try_resolve_tracks(
    moov: &Moov,
    file_len: u64,
    keep_per_track: &Vec<Vec<DecodeIdx>>,
) -> (r: Option<Result<Vec<Vec<SampleInfo>>, WriteError>>)
    ensures
        r is None <==> !tracks_are_readable(*moov, file_len, keep_per_track@),
        r is Some ==> tracks_resolved(*moov, file_len, keep_per_track@, r->0),
{
    if let Err(e) = check_keep_lists(moov, keep_per_track) {
        return Some(Err(e));
    }
    let mut kept: Vec<Vec<SampleInfo>> = Vec::new();
    let mut something: bool = false;
    let mut t: usize = 0;
    while t < moov.trak.len()
        invariant
            keep_per_track@.len() == moov.trak@.len(),
            t <= moov.trak@.len(),
            kept@.len() == t,
            forall|u: int|
                0 <= u < t ==> (#[trigger] moov.trak@[u]).stbl.is_readable(file_len),
            tracks_resolved_to(moov.trak@, file_len, keep_per_track@, kept@, t as int),
            something <==> exists|u: int| 0 <= u < t && (#[trigger] kept@[u])@.len() > 0,
        decreases moov.trak@.len() - t,
    {
        let ghost before = kept@;
        let trak = &moov.trak[t];
        let read_back: Option<Result<Vec<SampleInfo>, SampleTableError>> = read::try_samples(
            &trak.stbl,
            file_len,
        );
        if read_back.is_none() {
            assert(tracks_resolved_to(moov.trak@, file_len, keep_per_track@, kept@, t as int));
            return None;
        }
        let all: Vec<SampleInfo> = match read_back.unwrap() {
            Ok(all) => all,
            Err(error) => {
                assert(read::samples_restored(trak.stbl, file_len, Err(error)));
                assert(track_resolved(
                    moov.trak@[t as int].stbl,
                    file_len,
                    t,
                    keep_per_track@[t as int]@,
                    Err(WriteError::SampleTable { error }),
                ));
                proof {
                    lemma_readable_to_failure(
                        *moov,
                        file_len,
                        keep_per_track@,
                        t as int,
                        WriteError::SampleTable { error },
                    );
                }
                return Some(Err(WriteError::SampleTable { error }));
            },
        };
        assert(read::samples_restored(trak.stbl, file_len, Ok(all@)));
        let list: Vec<SampleInfo> = match resolve_kept_samples(t, &keep_per_track[t], &all) {
            Ok(list) => list,
            Err(e) => {
                assert(track_resolved(
                    moov.trak@[t as int].stbl,
                    file_len,
                    t,
                    keep_per_track@[t as int]@,
                    Err(e),
                ));
                proof {
                    lemma_readable_to_failure(*moov, file_len, keep_per_track@, t as int, e);
                }
                return Some(Err(e));
            },
        };
        assert(track_resolved(
            moov.trak@[t as int].stbl,
            file_len,
            t,
            keep_per_track@[t as int]@,
            Ok(list@),
        ));
        if list.len() > 0 {
            something = true;
        }
        kept.push(list);
        proof {
            assert forall|u: int| 0 <= u < t + 1 implies track_resolved(
                (#[trigger] moov.trak@[u]).stbl,
                file_len,
                u as usize,
                keep_per_track@[u]@,
                Ok(kept@[u]@),
            ) by {
                if u < t {
                    assert(kept@[u] == before[u]);
                }
            }
            if something {
                if kept@[t as int]@.len() == 0 {
                    let u = choose|u: int| 0 <= u < t && (#[trigger] before[u])@.len() > 0;
                    assert(kept@[u]@.len() > 0);
                }
            }
        }
        t += 1;
    }
    if !something {
        assert forall|u: int| 0 <= u < kept@.len() implies (#[trigger] kept@[u])@.len() == 0 by {}
        return Some(Err(WriteError::NothingKept));
    }
    Some(Ok(kept))
}

/// The tables of one track of the output.
pub struct TrackPlan {
    /// The position of the track in the input.
    pub track_index: usize,
    /// The new sample tables.
    pub stbl: Stbl,
    /// The duration in units of the track's timescale (`mdhd`).
    pub media_duration: u64,
    /// The duration in units of the movie's timescale (`tkhd`).
    pub track_duration: u64,
}

/// Everything that is needed to write the output: first `head`, then the copies, then the
/// `moov` atom with the new tables.
pub struct OutputPlan {
    /// The `ftyp` atom and the header of the `mdat` atom.
    pub head: Vec<u8>,
    /// The layout of the `mdat` atom.
    pub layout: MdatLayout,
    /// The chunks in the order in which they are stored.
    pub chunks: Vec<Chunk>,
    /// The pieces of the input that make up the contents of the `mdat` atom.
    pub copies: Vec<CopySpan>,
    /// The tracks of the output.
    pub tracks: Vec<TrackPlan>,
    /// The duration of the movie (`mvhd`).
    pub movie_duration: u64,
}

/// The numbers, counted from 1, of the sync samples among the first `n` of `kept`.
pub open spec fn sync_numbers(kept: Seq<SampleInfo>, n: int) -> Seq<u32>
    decreases n,
{
    if n <= 0 {
        Seq::empty()
    } else if kept[n - 1].is_sync {
        sync_numbers(kept, n - 1).push(n as u32)
    } else {
        sync_numbers(kept, n - 1)
    }
}

/// The timescales of tracks.
pub open spec fn timescales_of(trak: Seq<Trak>) -> Seq<u32> {
    trak.map_values(|t: Trak| t.timescale)
}

/// A duration in units of a track's timescale, in units of the movie's timescale.
pub open spec fn in_movie_units(duration: int, track_timescale: u32, movie_timescale: u32) -> int {
    if track_timescale == 0 {
        0
    } else {
        duration * movie_timescale / track_timescale as int
    }
}

/// The numbers that describe the kept samples fit in the fields that hold them.
pub open spec fn sums_fit(moov: Moov, kept: Seq<Seq<SampleInfo>>) -> bool {
    &&& placement::total_bytes(kept, kept.len() as int) <= u64::MAX
    &&& forall|t: int|
        0 <= t < kept.len() ==> {
            &&& (#[trigger] kept[t]).len() <= u32::MAX
            &&& moov.trak@[t].timescale != 0 ==> sums::sum(durations_of(kept[t])) * moov.timescale
                <= u64::MAX
        }
}

/// The sample counts of chunks.
pub open spec fn sample_counts(chunks: Seq<Chunk>) -> Seq<u32> {
    chunks.map_values(|c: Chunk| c.sample_count)
}

/// `stbl` holds the tables for the kept samples of track `t`, stored in `chunks` from
/// `layout.body_start` on. Tables that the input does not have are left out.
pub open spec fn is_new_stbl(
    original: Stbl,
    kept: Seq<Seq<SampleInfo>>,
    chunks: Seq<Chunk>,
    layout: MdatLayout,
    t: int,
    stbl: Stbl,
) -> bool {
    let n = chunks.len() as int;
    let offsets = placement::offsets_of_track(kept, chunks, layout.body_start as int, t, n);
    &&& stbl.codecs@ == original.codecs@
    &&& stbl.stsz matches StszSamples::Different { sizes } && sizes@ == sizes_of(kept[t])
    &&& runs::expand(read::stts_runs(stbl.stts@)) == durations_of(kept[t])
    &&& runs::is_compact(read::stts_runs(stbl.stts@))
    &&& match stbl.ctts {
        Some(entries) => {
            &&& original.ctts is Some
            &&& runs::expand(read::ctts_runs(entries@)) == cts_offsets_of(kept[t])
            &&& runs::is_compact(read::ctts_runs(entries@))
        },
        None => original.ctts is None,
    }
    &&& match stbl.stss {
        Some(numbers) => {
            &&& original.stss is Some
            &&& numbers@ == sync_numbers(kept[t], kept[t].len() as int)
        },
        None => original.stss is None,
    }
    &&& is_stsc_of(sample_counts(interleave::of_track(chunks, t, n)), stbl.stsc@)
    &&& if layout.use_co64 {
        &&& stbl.stco is None
        &&& stbl.co64 matches Some(entries) && entries@.map_values(|o: u64| o as int) == offsets
    } else {
        &&& stbl.co64 is None
        &&& stbl.stco matches Some(entries) && entries@.map_values(|o: u32| o as int) == offsets
    }
}

/// `plan` describes track `t` of the output.
pub open spec fn is_track_plan(
    moov: Moov,
    kept: Seq<Seq<SampleInfo>>,
    chunks: Seq<Chunk>,
    layout: MdatLayout,
    t: int,
    plan: TrackPlan,
) -> bool {
    let duration = sums::sum(durations_of(kept[t]));
    &&& plan.track_index == t
    &&& is_new_stbl(moov.trak@[t].stbl, kept, chunks, layout, t, plan.stbl)
    &&& plan.media_duration == duration
    &&& plan.track_duration == in_movie_units(
        duration,
        moov.trak@[t].timescale,
        moov.timescale,
    )
}

/// The tracks, among the first `n`, that something is kept of.
pub open spec fn included_tracks(kept: Seq<Seq<SampleInfo>>, n: int) -> Seq<int>
    decreases n,
{
    if n <= 0 {
        Seq::empty()
    } else if kept[n - 1].len() > 0 {
        included_tracks(kept, n - 1).push(n - 1)
    } else {
        included_tracks(kept, n - 1)
    }
}

/// The longest of the first `n` track durations.
pub open spec fn longest_duration(tracks: Seq<TrackPlan>, n: int) -> u64
    decreases n,
{
    if n <= 0 {
        0
    } else if tracks[n - 1].track_duration > longest_duration(tracks, n - 1) {
        tracks[n - 1].track_duration
    } else {
        longest_duration(tracks, n - 1)
    }
}

/// `plan` describes the output that holds the samples `kept` of the tracks of `moov`.
pub open spec fn is_output_plan(moov: Moov, kept: Seq<Seq<SampleInfo>>, plan: OutputPlan) -> bool {
    let body_len = placement::total_bytes(kept, kept.len() as int) as u64;
    let included = included_tracks(kept, kept.len() as int);
    &&& mdat_layout(output_ftyp().len() as u64, body_len) == Ok::<MdatLayout, WriteError>(
        plan.layout,
    )
    &&& plan.head@ == output_ftyp() + mdat_header(plan.layout, body_len).0
    &&& plan.copies@ == placement::copies_of(kept, plan.chunks@, plan.chunks@.len() as int)
    &&& plan.tracks@.len() == included.len()
    &&& forall|i: int|
        0 <= i < plan.tracks@.len() ==> is_track_plan(
            moov,
            kept,
            plan.chunks@,
            plan.layout,
            included[i],
            #[trigger] plan.tracks@[i],
        )
    &&& plan.movie_duration == longest_duration(plan.tracks@, plan.tracks@.len() as int)
}

fn copy_codecs(codecs: &Vec<Codec>) -> (copy: Vec<Codec>)
    ensures
        copy@ == codecs@,
{
    let mut copy: Vec<Codec> = Vec::new();
    let mut i: usize = 0;
    while i < codecs.len()
        invariant
            i <= codecs@.len(),
            copy@ == codecs@.take(i as int),
        decreases codecs@.len() - i,
    {
        copy.push(codecs[i]);
        i += 1;
        assert(copy@ =~= codecs@.take(i as int));
    }
    assert(copy@ =~= codecs@);
    copy
}

fn collect_sync_numbers(kept: &Vec<SampleInfo>) -> (numbers: Vec<u32>)
    requires
        kept@.len() <= u32::MAX,
    ensures
        numbers@ == sync_numbers(kept@, kept@.len() as int),
{
    let mut numbers: Vec<u32> = Vec::new();
    let mut i: usize = 0;
    while i < kept.len()
        invariant
            kept@.len() <= u32::MAX,
            i <= kept@.len(),
            numbers@ == sync_numbers(kept@, i as int),
        decreases kept@.len() - i,
    {
        if kept[i].is_sync {
            numbers.push(i as u32 + 1);
        }
        i += 1;
    }
    numbers
}

fn collect_sizes(kept: &Vec<SampleInfo>) -> (sizes: Vec<u32>)
    ensures
        sizes@ == sizes_of(kept@),
{
    let mut sizes: Vec<u32> = Vec::new();
    let mut i: usize = 0;
    while i < kept.len()
        invariant
            i <= kept@.len(),
            sizes@.len() == i,
            forall|j: int| 0 <= j < i ==> #[trigger] sizes@[j] == kept@[j].size,
        decreases kept@.len() - i,
    {
        sizes.push(kept[i].size);
        i += 1;
    }
    assert(sizes@ =~= sizes_of(kept@));
    sizes
}

/// The sum of the durations of samples, where it fits in 64 bits.
fn checked_duration(kept: &Vec<SampleInfo>) -> (r: Option<u64>)
    ensures
        match r {
            Some(n) => n == sums::sum(durations_of(kept@)),
            None => sums::sum(durations_of(kept@)) > u64::MAX,
        },
{
    let ghost durations = durations_of(kept@);
    let mut sum: u64 = 0;
    let mut i: usize = 0;
    while i < kept.len()
        invariant
            durations == durations_of(kept@),
            i <= kept@.len(),
            sum == sums::sum_to(durations, i as int),
        decreases kept@.len() - i,
    {
        assert(durations[i as int] == kept@[i as int].duration);
        match sum.checked_add(kept[i].duration as u64) {
            Some(n) => {
                sum = n;
            },
            None => {
                proof {
                    sums::lemma_sum_to_monotone(durations, i + 1, durations.len() as int);
                }
                return None;
            },
        }
        i += 1;
    }
    Some(sum)
}

/// The sum of the sizes of all samples, where it fits in 64 bits.
fn checked_total_bytes(kept: &Vec<Vec<SampleInfo>>) -> (r: Option<u64>)
    ensures
        match r {
            Some(n) => n == placement::total_bytes(
                interleave::sample_lists(kept@),
                kept@.len() as int,
            ),
            None => placement::total_bytes(interleave::sample_lists(kept@), kept@.len() as int)
                > u64::MAX,
        },
{
    let ghost lists = interleave::sample_lists(kept@);
    let mut sum: u64 = 0;
    let mut t: usize = 0;
    while t < kept.len()
        invariant
            lists == interleave::sample_lists(kept@),
            t <= kept@.len(),
            sum == placement::total_bytes(lists, t as int),
        decreases kept@.len() - t,
    {
        let list = &kept[t];
        let ghost sizes = sizes_of(list@);
        let ghost before = sum;
        assert(lists[t as int] == list@);
        let mut i: usize = 0;
        while i < list.len()
            invariant
                lists == interleave::sample_lists(kept@),
                t < kept@.len(),
                list@ == lists[t as int],
                sizes == sizes_of(list@),
                before == placement::total_bytes(lists, t as int),
                i <= list@.len(),
                sum == before + sums::sum_to(sizes, i as int),
            decreases list@.len() - i,
        {
            assert(sizes[i as int] == list@[i as int].size);
            match sum.checked_add(list[i].size as u64) {
                Some(n) => {
                    sum = n;
                },
                None => {
                    proof {
                        sums::lemma_sum_to_monotone(sizes, i + 1, sizes.len() as int);
                        lemma_total_bytes_monotone(lists, t + 1, lists.len() as int);
                    }
                    return None;
                },
            }
            i += 1;
        }
        t += 1;
    }
    Some(sum)
}

/// More tracks have more bytes.
pub proof fn lemma_total_bytes_monotone(kept: Seq<Seq<SampleInfo>>, t: int, n: int)
    requires
        t <= n,
    ensures
        placement::total_bytes(kept, t) <= placement::total_bytes(kept, n),
    decreases n - t,
{
    if t < n {
        lemma_total_bytes_monotone(kept, t, n - 1);
        if n > 0 {
            let sizes = sizes_of(kept[n - 1]);
            sums::lemma_sum_to_monotone(sizes, 0, sizes.len() as int);
        }
    }
}

/// Whether the numbers that describe the kept samples fit in the fields that hold them.
pub fn check_sums_fit(moov: &Moov, kept: &Vec<Vec<SampleInfo>>) -> (b: bool)
    requires
        kept@.len() == moov.trak@.len(),
    ensures
        b == sums_fit(*moov, interleave::sample_lists(kept@)),
{
    let ghost lists = interleave::sample_lists(kept@);
    if checked_total_bytes(kept).is_none() {
        return false;
    }
    let mut t: usize = 0;
    while t < kept.len()
        invariant
            lists == interleave::sample_lists(kept@),
            kept@.len() == moov.trak@.len(),
            placement::total_bytes(lists, lists.len() as int) <= u64::MAX,
            t <= kept@.len(),
            forall|u: int|
                0 <= u < t ==> {
                    &&& (#[trigger] lists[u]).len() <= u32::MAX
                    &&& moov.trak@[u].timescale != 0 ==> sums::sum(durations_of(lists[u]))
                        * moov.timescale <= u64::MAX
                },
        decreases kept@.len() - t,
    {
        assert(lists[t as int] == kept@[t as int]@);
        if kept[t].len() as u64 > u32::MAX as u64 {
            return false;
        }
        if moov.trak[t].timescale != 0 {
            let duration: u64 = match checked_duration(&kept[t]) {
                Some(n) => n,
                None => {
                    proof {
                        let durations = durations_of(lists[t as int]);
                        sums::lemma_sum_to_bound(durations, durations.len() as int);
                        assert(durations.len() * u32::MAX <= u32::MAX * u32::MAX)
                            by (nonlinear_arith)
                            requires
                                durations.len() <= u32::MAX,
                        ;
                    }
                    return false;
                },
            };
            if duration.checked_mul(moov.timescale as u64).is_none() {
                return false;
            }
        }
        t += 1;
    }
    true
}

/// Lists what is copied for each sample of each chunk, and where each chunk starts in the
/// output.
fn place_chunks(kept: &Vec<Vec<SampleInfo>>, chunks: &Vec<Chunk>, body_start: u64) -> (r: (
    Vec<CopySpan>,
    Vec<u64>,
))
    requires
        placement::chunks_in_range(interleave::sample_lists(kept@), chunks@),
        body_start + placement::bytes_before(
            interleave::sample_lists(kept@),
            chunks@,
            chunks@.len() as int,
        ) <= u64::MAX,
    ensures
        r.0@ == placement::copies_of(
            interleave::sample_lists(kept@),
            chunks@,
            chunks@.len() as int,
        ),
        r.1@.len() == chunks@.len(),
        forall|m: int|
            0 <= m < chunks@.len() ==> #[trigger] r.1@[m] == body_start + placement::bytes_before(
                interleave::sample_lists(kept@),
                chunks@,
                m,
            ),
{
    let ghost lists = interleave::sample_lists(kept@);
    let mut copies: Vec<CopySpan> = Vec::new();
    let mut starts: Vec<u64> = Vec::new();
    let mut cursor: u64 = body_start;
    let mut m: usize = 0;
    while m < chunks.len()
        invariant
            lists == interleave::sample_lists(kept@),
            placement::chunks_in_range(lists, chunks@),
            body_start + placement::bytes_before(lists, chunks@, chunks@.len() as int) <= u64::MAX,
            m <= chunks@.len(),
            cursor == body_start + placement::bytes_before(lists, chunks@, m as int),
            copies@ == placement::copies_of(lists, chunks@, m as int),
            starts@.len() == m,
            forall|j: int|
                0 <= j < m ==> #[trigger] starts@[j] == body_start + placement::bytes_before(
                    lists,
                    chunks@,
                    j,
                ),
        decreases chunks@.len() - m,
    {
        let chunk: Chunk = chunks[m];
        starts.push(cursor);
        let list = &kept[chunk.track_index];
        let ghost sizes = sizes_of(list@);
        let ghost before = copies@;
        let ghost base = cursor;
        let start: usize = chunk.start_sample;
        proof {
            assert(lists[chunk.track_index as int] == list@);
            placement::lemma_bytes_before_monotone(lists, chunks@, m + 1, chunks@.len() as int);
        }
        let available: usize = list.len();
        assert(chunks@[m as int].end() <= available);
        let end: usize = start + chunk.sample_count as usize;
        let mut k: usize = start;
        assert(copies@ =~= before + placement::spans_of(list@, start as int, k as int));
        while k < end
            invariant
                sizes == sizes_of(list@),
                start <= k <= end <= list@.len(),
                base + sums::sum_to(sizes, end as int) - sums::sum_to(sizes, start as int)
                    <= u64::MAX,
                cursor == base + sums::sum_to(sizes, k as int) - sums::sum_to(sizes, start as int),
                copies@ == before + placement::spans_of(list@, start as int, k as int),
            decreases end - k,
        {
            let info: SampleInfo = list[k];
            proof {
                assert(sizes[k as int] == info.size);
                sums::lemma_sum_to_monotone(sizes, k + 1, end as int);
            }
            copies.push(CopySpan { file_offset: info.file_offset, size: info.size });
            cursor = cursor + info.size as u64;
            k += 1;
            assert(copies@ =~= before + placement::spans_of(list@, start as int, k as int));
        }
        m += 1;
    }
    (copies, starts)
}

/// Picks out the sample counts and the offsets of the chunks of one track.
fn collect_track_chunks(
    Ghost(lists): Ghost<Seq<Seq<SampleInfo>>>,
    chunks: &Vec<Chunk>,
    starts: &Vec<u64>,
    body_start: u64,
    track_index: usize,
) -> (r: (Vec<u32>, Vec<u64>))
    requires
        starts@.len() == chunks@.len(),
        forall|m: int|
            0 <= m < chunks@.len() ==> #[trigger] starts@[m] == body_start
                + placement::bytes_before(lists, chunks@, m),
    ensures
        r.0@ == sample_counts(
            interleave::of_track(chunks@, track_index as int, chunks@.len() as int),
        ),
        r.1@.map_values(|o: u64| o as int) == placement::offsets_of_track(
            lists,
            chunks@,
            body_start as int,
            track_index as int,
            chunks@.len() as int,
        ),
{
    let mut counts: Vec<u32> = Vec::new();
    let mut offsets: Vec<u64> = Vec::new();
    let mut m: usize = 0;
    let ghost t = track_index as int;
    assert(counts@ =~= sample_counts(interleave::of_track(chunks@, t, 0)));
    assert(offsets@.map_values(|o: u64| o as int) =~= placement::offsets_of_track(
        lists,
        chunks@,
        body_start as int,
        t,
        0,
    ));
    while m < chunks.len()
        invariant
            t == track_index,
            starts@.len() == chunks@.len(),
            forall|j: int|
                0 <= j < chunks@.len() ==> #[trigger] starts@[j] == body_start
                    + placement::bytes_before(lists, chunks@, j),
            m <= chunks@.len(),
            counts@ == sample_counts(interleave::of_track(chunks@, t, m as int)),
            offsets@.map_values(|o: u64| o as int) == placement::offsets_of_track(
                lists,
                chunks@,
                body_start as int,
                t,
                m as int,
            ),
        decreases chunks@.len() - m,
    {
        if chunks[m].track_index == track_index {
            counts.push(chunks[m].sample_count);
            offsets.push(starts[m]);
        }
        m += 1;
        assert(counts@ =~= sample_counts(interleave::of_track(chunks@, t, m as int)));
        assert(offsets@.map_values(|o: u64| o as int) =~= placement::offsets_of_track(
            lists,
            chunks@,
            body_start as int,
            t,
            m as int,
        ));
    }
    (counts, offsets)
}

fn narrow_offsets(offsets: &Vec<u64>) -> (narrow: Vec<u32>)
    requires
        forall|i: int| 0 <= i < offsets@.len() ==> #[trigger] offsets@[i] <= u32::MAX,
    ensures
        narrow@.map_values(|o: u32| o as int) == offsets@.map_values(|o: u64| o as int),
{
    let mut narrow: Vec<u32> = Vec::new();
    let mut i: usize = 0;
    while i < offsets.len()
        invariant
            forall|j: int| 0 <= j < offsets@.len() ==> #[trigger] offsets@[j] <= u32::MAX,
            i <= offsets@.len(),
            narrow@.len() == i,
            forall|j: int| 0 <= j < i ==> #[trigger] narrow@[j] == offsets@[j],
        decreases offsets@.len() - i,
    {
        narrow.push(offsets[i] as u32);
        i += 1;
    }
    assert(narrow@.map_values(|o: u32| o as int) =~= offsets@.map_values(|o: u64| o as int));
    narrow
}

/// Makes the tables of one track of the output.
fn plan_track(
    moov: &Moov,
    kept: &Vec<Vec<SampleInfo>>,
    chunks: &Vec<Chunk>,
    starts: &Vec<u64>,
    layout: &MdatLayout,
    track_index: usize,
) -> (plan: TrackPlan)
    requires
        kept@.len() == moov.trak@.len(),
        track_index < kept@.len(),
        sums_fit(*moov, interleave::sample_lists(kept@)),
        interleave::keeps_tracks(
            interleave::sample_lists(kept@),
            timescales_of(moov.trak@),
            chunks@,
        ),
        starts@.len() == chunks@.len(),
        forall|m: int|
            0 <= m < chunks@.len() ==> #[trigger] starts@[m] == layout.body_start
                + placement::bytes_before(interleave::sample_lists(kept@), chunks@, m),
        layout.body_start + placement::bytes_before(
            interleave::sample_lists(kept@),
            chunks@,
            chunks@.len() as int,
        ) <= (if layout.use_co64 {
            u64::MAX as int
        } else {
            u32::MAX as int
        }),
    ensures
        is_track_plan(
            *moov,
            interleave::sample_lists(kept@),
            chunks@,
            *layout,
            track_index as int,
            plan,
        ),
{
    let ghost lists = interleave::sample_lists(kept@);
    let ghost t = track_index as int;
    let trak = &moov.trak[track_index];
    let list = &kept[track_index];
    assert(lists[t] == list@);
    let (counts, offsets) = collect_track_chunks(
        Ghost(lists),
        chunks,
        starts,
        layout.body_start,
        track_index,
    );
    proof {
        let found = interleave::of_track(chunks@, t, chunks@.len() as int);
        assert(is_chunking(
            durations_of(lists[t]),
            timescales_of(moov.trak@)[t],
            t as usize,
            found,
        ));
        lemma_chunk_count(durations_of(lists[t]), timescales_of(moov.trak@)[t], t as usize, found);
    }
    let (stco, co64): (Option<Vec<u32>>, Option<Vec<u64>>) = if layout.use_co64 {
        (None, Some(offsets))
    } else {
        proof {
            let n = chunks@.len() as int;
            let noted = placement::offsets_of_track(
                lists,
                chunks@,
                layout.body_start as int,
                t,
                n,
            );
            placement::lemma_offset_count(lists, chunks@, layout.body_start as int, t, n);
            assert forall|i: int| 0 <= i < offsets@.len() implies #[trigger] offsets@[i]
                <= u32::MAX by {
                assert(offsets@.map_values(|o: u64| o as int)[i] == offsets@[i]);
                placement::lemma_offset_position(
                    lists,
                    chunks@,
                    layout.body_start as int,
                    t,
                    n,
                    i,
                );
                let m = choose|m: int|
                    {
                        &&& 0 <= m < n
                        &&& #[trigger] chunks@[m] == interleave::of_track(chunks@, t, n)[i]
                        &&& noted[i] == layout.body_start as int + placement::bytes_before(
                            lists,
                            chunks@,
                            m,
                        )
                    };
                placement::lemma_bytes_before_monotone(lists, chunks@, m, n);
            }
        }
        (Some(narrow_offsets(&offsets)), None)
    };
    let ctts: Option<Vec<CttsEntry>> = if trak.stbl.ctts.is_some() {
        Some(run_length_encode_ctts(list))
    } else {
        None
    };
    let stss: Option<Vec<u32>> = if trak.stbl.stss.is_some() {
        Some(collect_sync_numbers(list))
    } else {
        None
    };
    let stbl = Stbl {
        codecs: copy_codecs(&trak.stbl.codecs),
        stsz: StszSamples::Different { sizes: collect_sizes(list) },
        stts: run_length_encode_stts(list),
        ctts,
        stss,
        stsc: build_stsc_entries(&counts),
        stco,
        co64,
    };
    proof {
        let durations = durations_of(list@);
        sums::lemma_sum_to_bound(durations, durations.len() as int);
        assert(durations.len() * u32::MAX <= u32::MAX * u32::MAX) by (nonlinear_arith)
            requires
                durations.len() <= u32::MAX,
        ;
    }
    let media_duration: u64 = match checked_duration(list) {
        Some(n) => n,
        None => 0,
    };
    let track_duration: u64 = if trak.timescale == 0 {
        0
    } else {
        proof {
            assert(media_duration * moov.timescale <= u64::MAX);
        }
        media_duration * moov.timescale as u64 / trak.timescale as u64
    };
    TrackPlan { track_index, stbl, media_duration, track_duration }
}

/// A track has no more chunks than samples.
pub proof fn lemma_chunk_count(
    durations: Seq<u32>,
    timescale: u32,
    track_index: usize,
    chunks: Seq<Chunk>,
)
    requires
        is_chunking(durations, timescale, track_index, chunks),
    ensures
        chunks.len() <= durations.len(),
{
    if chunks.len() > 0 {
        lemma_chunk_position(durations, timescale, track_index, chunks, chunks.len() - 1);
    }
}

proof fn lemma_chunk_position(
    durations: Seq<u32>,
    timescale: u32,
    track_index: usize,
    chunks: Seq<Chunk>,
    c: int,
)
    requires
        is_chunking(durations, timescale, track_index, chunks),
        0 <= c < chunks.len(),
    ensures
        chunks[c].end() >= c + 1,
    decreases c,
{
    if c > 0 {
        lemma_chunk_position(durations, timescale, track_index, chunks, c - 1);
        let b = c - 1;
        assert(chunks[c].start_sample == chunks[b].end());
    }
    assert(chunks[c].sample_count > 0);
}

/// Plans the output that holds the samples `kept` of the tracks of `moov`: the layout of
/// the file, the pieces of the input to copy, and the tables of each track. `start_key`
/// gives the time `units / per_second` as a number to sort by.
pub fn plan_output<F: Fn(u64, u64) -> u64>(
    moov: &Moov,
    kept: &Vec<Vec<SampleInfo>>,
    start_key: F,
) -> (r: Result<OutputPlan, WriteError>)
    requires
        kept@.len() == moov.trak@.len(),
        sums_fit(*moov, interleave::sample_lists(kept@)),
        interleave::orders_starts(start_key),
    ensures
        match r {
            Ok(plan) => {
                &&& is_output_plan(*moov, interleave::sample_lists(kept@), plan)
                &&& interleave::is_interleaving(
                    interleave::sample_lists(kept@),
                    timescales_of(moov.trak@),
                    start_key,
                    plan.chunks@,
                )
                &&& interleave::keeps_tracks(
                    interleave::sample_lists(kept@),
                    timescales_of(moov.trak@),
                    plan.chunks@,
                )
            },
            Err(e) => {
                let body_len = placement::total_bytes(
                    interleave::sample_lists(kept@),
                    kept@.len() as int,
                ) as u64;
                mdat_layout(output_ftyp().len() as u64, body_len) == Err::<MdatLayout, WriteError>(
                    e,
                )
            },
        },
{
    let ghost lists = interleave::sample_lists(kept@);
    let mut head: Vec<u8> = match build_ftyp() {
        Ok(atom) => atom,
        Err(e) => return Err(e),
    };
    let body_len: u64 = match checked_total_bytes(kept) {
        Some(n) => n,
        None => 0,
    };
    let layout: MdatLayout = match plan_mdat_layout(head.len() as u64, body_len) {
        Ok(layout) => layout,
        Err(e) => return Err(e),
    };
    proof {
        planned_header_fits(output_ftyp().len() as u64, body_len, layout);
    }
    match write_mdat_header(&mut head, &layout, body_len) {
        Ok(()) => {},
        Err(e) => return Err(e),
    }

    let mut timescales: Vec<u32> = Vec::new();
    let mut t: usize = 0;
    while t < moov.trak.len()
        invariant
            t <= moov.trak@.len(),
            timescales@.len() == t,
            forall|u: int| 0 <= u < t ==> #[trigger] timescales@[u] == moov.trak@[u].timescale,
        decreases moov.trak@.len() - t,
    {
        timescales.push(moov.trak[t].timescale);
        t += 1;
    }
    proof {
        assert(timescales@ =~= timescales_of(moov.trak@));
        assert forall|u: int| 0 <= u < kept@.len() implies (#[trigger] kept@[u])@.len()
            <= u32::MAX by {
            assert(lists[u].len() <= u32::MAX);
        }
    }
    let chunks: Vec<Chunk> = interleave::interleave(kept, &timescales, start_key);
    proof {
        placement::lemma_kept_tracks_in_range(lists, timescales@, chunks@);
        placement::chunks_hold_all_bytes(lists, timescales@, chunks@);
    }
    let (copies, starts) = place_chunks(kept, &chunks, layout.body_start);

    let mut tracks: Vec<TrackPlan> = Vec::new();
    let mut movie_duration: u64 = 0;
    let mut t: usize = 0;
    while t < kept.len()
        invariant
            lists == interleave::sample_lists(kept@),
            kept@.len() == moov.trak@.len(),
            sums_fit(*moov, lists),
            interleave::keeps_tracks(lists, timescales_of(moov.trak@), chunks@),
            starts@.len() == chunks@.len(),
            forall|m: int|
                0 <= m < chunks@.len() ==> #[trigger] starts@[m] == layout.body_start
                    + placement::bytes_before(lists, chunks@, m),
            layout.body_start + placement::bytes_before(lists, chunks@, chunks@.len() as int)
                <= (if layout.use_co64 {
                u64::MAX as int
            } else {
                u32::MAX as int
            }),
            t <= kept@.len(),
            tracks@.len() == included_tracks(lists, t as int).len(),
            forall|i: int|
                0 <= i < tracks@.len() ==> is_track_plan(
                    *moov,
                    lists,
                    chunks@,
                    layout,
                    included_tracks(lists, t as int)[i],
                    #[trigger] tracks@[i],
                ),
            movie_duration == longest_duration(tracks@, tracks@.len() as int),
        decreases kept@.len() - t,
    {
        assert(lists[t as int] == kept@[t as int]@);
        if kept[t].len() > 0 {
            let track: TrackPlan = plan_track(moov, kept, &chunks, &starts, &layout, t);
            let ghost before = tracks@;
            if track.track_duration > movie_duration {
                movie_duration = track.track_duration;
            }
            tracks.push(track);
            proof {
                lemma_longest_agrees(before, tracks@, before.len() as int);
                assert forall|i: int| 0 <= i < tracks@.len() implies is_track_plan(
                    *moov,
                    lists,
                    chunks@,
                    layout,
                    included_tracks(lists, t + 1)[i],
                    #[trigger] tracks@[i],
                ) by {
                    if i < before.len() {
                        assert(tracks@[i] == before[i]);
                    }
                }
            }
        }
        t += 1;
    }
    Ok(OutputPlan { head, layout, chunks, copies, tracks, movie_duration })
}

proof fn lemma_longest_agrees(a: Seq<TrackPlan>, b: Seq<TrackPlan>, n: int)
    requires
        forall|i: int| 0 <= i < n ==> #[trigger] a[i] == b[i],
    ensures
        longest_duration(a, n) == longest_duration(b, n),
    decreases n,
{
    if n > 0 {
        lemma_longest_agrees(a, b, n - 1);
        assert(a[n - 1] == b[n - 1]);
    }
}

impl WriteError {
    /// The message for the user.
    pub open spec fn spec_message(self) -> Seq<char> {
        match self {
            WriteError::KeepListCount { keep_lists, tracks } => {
                "keep_per_track の長さ("@ + text::decimal(keep_lists as nat)
                    + ")が moov.trak の本数("@ + text::decimal(tracks as nat)
                    + ")と一致しません"@
            },
            WriteError::SampleTable { error } => error.spec_message(),
            WriteError::KeepOutOfRange { track_index, index, sample_count } => {
                "track "@ + text::decimal(track_index as nat) + ": DecodeIdx("@ + text::decimal(
                    index as nat,
                ) + ") がサンプル数("@ + text::decimal(sample_count as nat)
                    + ")の範囲外です"@
            },
            WriteError::NothingKept => {
                "出力に含まれるトラックが1本もありません(すべての keep リストが空です)"@
            },
            WriteError::FtypEncoding => "ftyp のエンコードに失敗した"@,
            WriteError::FtypSizeOverflow => "ftyp のサイズ計算がオーバーフローした"@,
            WriteError::MdatSizeOverflow => "mdat のサイズ計算がオーバーフローした"@,
            WriteError::MdatLargesizeOverflow => {
                "mdat の largesize 計算がオーバーフローした"@
            },
            WriteError::MdatTooLargeForHeader => {
                "mdat の総サイズが u32::MAX を超えています"@
            },
        }
    }

    /// The message for the user.
    pub fn message(&self) -> (m: String)
        ensures
            m@ == self.spec_message(),
    {
        let mut m = String::new();
        match self {
            WriteError::KeepListCount { keep_lists, tracks } => {
                m.append("keep_per_track の長さ(");
                text::push_u64(&mut m, *keep_lists as u64);
                m.append(")が moov.trak の本数(");
                text::push_u64(&mut m, *tracks as u64);
                m.append(")と一致しません");
            },
            WriteError::SampleTable { error } => {
                return error.message();
            },
            WriteError::KeepOutOfRange { track_index, index, sample_count } => {
                m.append("track ");
                text::push_u64(&mut m, *track_index as u64);
                m.append(": DecodeIdx(");
                text::push_u64(&mut m, *index as u64);
                m.append(") がサンプル数(");
                text::push_u64(&mut m, *sample_count as u64);
                m.append(")の範囲外です");
            },
            WriteError::NothingKept => {
                m.append("出力に含まれるトラックが1本もありません(すべての keep リストが空です)");
            },
            WriteError::FtypEncoding => {
                m.append("ftyp のエンコードに失敗した");
            },
            WriteError::FtypSizeOverflow => {
                m.append("ftyp のサイズ計算がオーバーフローした");
            },
            WriteError::MdatSizeOverflow => {
                m.append("mdat のサイズ計算がオーバーフローした");
            },
            WriteError::MdatLargesizeOverflow => {
                m.append("mdat の largesize 計算がオーバーフローした");
            },
            WriteError::MdatTooLargeForHeader => {
                m.append("mdat の総サイズが u32::MAX を超えています");
            },
        }
        assert(m@ =~= self.spec_message());
        m
    }
}

} // verus!
