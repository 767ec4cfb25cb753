//! Telling the tracks of a movie apart, and restoring the list of a track's samples
//! from its sample tables.

use crate::mp4io::boxes::{
    Codec, CttsEntry, Moov, Stbl, StscEntry, StszSamples, SttsEntry, Trak,
};
use crate::runs;
use crate::sums;
use crate::text;
use vstd::prelude::*;

verus! {

/// The unit of time of a track. Video and audio tracks each have their own.
#[derive(Debug, Clone, Copy, PartialEq, Eq, Structural)]
pub struct TrackInfo {
    pub timescale: u32,
}

/// One sample of a track, as its sample tables describe it.
#[derive(Debug, Clone, Copy, PartialEq, Eq, Structural)]
pub struct SampleInfo {
    /// Where the sample starts, in bytes from the start of the file.
    pub file_offset: u64,
    /// The number of bytes.
    pub size: u32,
    /// How long the sample lasts, in units of the track's timescale (`stts`).
    pub duration: u32,
    /// From decoding to showing, in units of the track's timescale (`ctts`).
    pub cts_offset: i64,
    /// Whether decoding can start here. True of every sample of a track without `stss`.
    pub is_sync: bool,
}

/// The two tables whose counts have to add up to the number of samples.
#[derive(Debug, Clone, Copy, PartialEq, Eq, Structural)]
pub enum CountTable {
    Stts,
    Ctts,
}

/// Why a set of sample tables is rejected.
#[derive(Debug, Clone, Copy, PartialEq, Eq, Structural)]
pub enum SampleTableError {
    /// There are more samples than the file has bytes.
    SampleCountExceedsFile { count: u64, file_len: u64 },
    /// The common size of all samples is larger than the file.
    SampleSizeExceedsFile { size: u32, file_len: u64 },
    /// The size of sample `index` is larger than the file.
    SampleSizeAtExceedsFile { index: u64, size: u32, file_len: u64 },
    /// All samples together are larger than the file.
    TotalSizeExceedsFile { total: u64, file_len: u64 },
    /// The sizes up to sample `index` add up to more than 64 bits hold.
    TotalSizeOverflow { index: u64 },
    /// The counts of a table add up to more than 64 bits hold.
    CountOverflow { table: CountTable },
    /// The counts of a table add up to another number than that of the samples.
    CountMismatch { table: CountTable, sum: u64, total: u64 },
}

/// Whether `codec` is a kind of audio. This alone tells audio tracks from others.
pub open spec fn spec_is_audio_codec(codec: Codec) -> bool {
    match codec {
        Codec::Avc1 | Codec::Tx3g | Codec::Wvtt | Codec::Other => false,
        _ => true,
    }
}

/// Whether `codec` is a kind of audio. This alone tells audio tracks from others.
pub fn is_audio_codec(codec: &Codec) -> (b: bool)
    ensures
        b == spec_is_audio_codec(*codec),
{
    match codec {
        Codec::Opus
        | Codec::Mp4a
        | Codec::Flac
        | Codec::Ac3
        | Codec::Eac3
        | Codec::Samr
        | Codec::Ipcm
        | Codec::Fpcm
        | Codec::Sowt
        | Codec::Twos
        | Codec::Lpcm
        | Codec::In24
        | Codec::In32
        | Codec::Fl32
        | Codec::Fl64
        | Codec::S16l => true,
        _ => false,
    }
}

/// Whether the first sample entry of `trak` is H.264 video.
pub open spec fn is_video_trak(trak: Trak) -> bool {
    trak.spec_codec() == Some(Codec::Avc1)
}

/// Whether the first sample entry of `trak` is a kind of audio.
pub open spec fn is_audio_trak(trak: Trak) -> bool {
    trak.spec_codec() is Some && spec_is_audio_codec(trak.spec_codec()->0)
}

/// `found` is the first track that `wanted` holds of, with its timescale.
pub open spec fn first_trak(
    trak: Seq<Trak>,
    wanted: spec_fn(Trak) -> bool,
    found: Option<(&Trak, TrackInfo)>,
) -> bool {
    match found {
        Some((t, info)) => exists|i: int|
            {
                &&& 0 <= i < trak.len()
                &&& #[trigger] trak[i] == *t
                &&& wanted(trak[i])
                &&& info.timescale == trak[i].timescale
                &&& forall|j: int| 0 <= j < i ==> !wanted(#[trigger] trak[j])
            },
        None => forall|i: int| 0 <= i < trak.len() ==> !wanted(#[trigger] trak[i]),
    }
}

/// The first video track.
pub fn find_video_track(moov: &Moov) -> (found: Option<(&Trak, TrackInfo)>)
    ensures
        first_trak(moov.trak@, |t: Trak| is_video_trak(t), found),
{
    let mut i: usize = 0;
    while i < moov.trak.len()
        invariant
            i <= moov.trak@.len(),
            forall|j: int| 0 <= j < i ==> !is_video_trak(#[trigger] moov.trak@[j]),
        decreases moov.trak@.len() - i,
    {
        let trak = &moov.trak[i];
        if let Some(codec) = trak.codec() {
            if codec == Codec::Avc1 {
                let found = Some((trak, TrackInfo { timescale: trak.timescale }));
                assert(moov.trak@[i as int] == *trak);
                return found;
            }
        }
        i += 1;
    }
    None
}

/// The first audio track.
pub fn find_audio_track(moov: &Moov) -> (found: Option<(&Trak, TrackInfo)>)
    ensures
        first_trak(moov.trak@, |t: Trak| is_audio_trak(t), found),
{
    let mut i: usize = 0;
    while i < moov.trak.len()
        invariant
            i <= moov.trak@.len(),
            forall|j: int| 0 <= j < i ==> !is_audio_trak(#[trigger] moov.trak@[j]),
        decreases moov.trak@.len() - i,
    {
        let trak = &moov.trak[i];
        if let Some(codec) = trak.codec() {
            if is_audio_codec(&codec) {
                let found = Some((trak, TrackInfo { timescale: trak.timescale }));
                assert(moov.trak@[i as int] == *trak);
                return found;
            }
        }
        i += 1;
    }
    None
}

/// Sample `i` is the first of `sizes` that is larger than the file.
pub open spec fn first_oversized(sizes: Seq<u32>, file_len: u64, i: int) -> bool {
    &&& 0 <= i < sizes.len()
    &&& sizes[i] > file_len
    &&& forall|j: int| 0 <= j < i ==> #[trigger] sizes[j] <= file_len
}

/// The sizes up to sample `i` add up to more than 64 bits hold, and those before it do not.
pub open spec fn first_overflowing(sizes: Seq<u32>, i: int) -> bool {
    &&& 0 <= i < sizes.len()
    &&& sums::sum_to(sizes, i) <= u64::MAX
    &&& sums::sum_to(sizes, i + 1) > u64::MAX
}

/// `r` is what checking the sizes `stsz` against the length of the file gives: the
/// sizes themselves, or the first reason found to reject them.
pub open spec fn sizes_checked(
    stsz: StszSamples,
    file_len: u64,
    r: Result<Seq<u32>, SampleTableError>,
) -> bool {
    let sizes = stsz.sizes();
    if sizes.len() > file_len {
        r == Err::<Seq<u32>, SampleTableError>(
            SampleTableError::SampleCountExceedsFile { count: sizes.len() as u64, file_len },
        )
    } else if exists|i: int| #[trigger] first_oversized(sizes, file_len, i) {
        match stsz {
            StszSamples::Identical { count, size } => r == Err::<Seq<u32>, SampleTableError>(
                SampleTableError::SampleSizeExceedsFile { size, file_len },
            ),
            StszSamples::Different { .. } => exists|i: int|
                {
                    &&& #[trigger] first_oversized(sizes, file_len, i)
                    &&& r == Err::<Seq<u32>, SampleTableError>(
                        SampleTableError::SampleSizeAtExceedsFile {
                            index: i as u64,
                            size: sizes[i],
                            file_len,
                        },
                    )
                },
        }
    } else if sums::sum(sizes) > u64::MAX {
        exists|i: int|
            {
                &&& #[trigger] first_overflowing(sizes, i)
                &&& r == Err::<Seq<u32>, SampleTableError>(
                    SampleTableError::TotalSizeOverflow { index: i as u64 },
                )
            }
    } else if sums::sum(sizes) > file_len {
        r == Err::<Seq<u32>, SampleTableError>(
            SampleTableError::TotalSizeExceedsFile { total: sums::sum(sizes) as u64, file_len },
        )
    } else {
        r == Ok::<Seq<u32>, SampleTableError>(sizes)
    }
}

/// The contents of a successful result.
pub open spec fn ok_view<T>(r: Result<Vec<T>, SampleTableError>) -> Result<
    Seq<T>,
    SampleTableError,
> {
    match r {
        Ok(v) => Ok(v@),
        Err(e) => Err(e),
    }
}

/// Where sizes add up to more than 64 bits hold, there are so many that a file with as many bytes
/// is larger than any of them.
proof fn lemma_overflow_excludes_oversized(sizes: Seq<u32>, file_len: u64, i: int)
    requires
        0 <= i < sizes.len() <= file_len,
        sums::sum_to(sizes, i + 1) > u64::MAX,
    ensures
        forall|j: int| !#[trigger] first_oversized(sizes, file_len, j),
{
    sums::lemma_sum_to_bound(sizes, i + 1);
    assert(i + 1 > u32::MAX) by (nonlinear_arith)
        requires
            (i + 1) * u32::MAX > u64::MAX,
            0 <= i,
    ;
}

/// The sizes of the samples, once they are known to fit in a file of `file_len` bytes.
/// The check comes before any memory is set aside for them.
pub fn validate_and_collect_sizes(stsz: &StszSamples, file_len: u64) -> (r: Result<
    Vec<u32>,
    SampleTableError,
>)
    ensures
        sizes_checked(*stsz, file_len, ok_view(r)),
{
    let ghost all = stsz.sizes();
    match stsz {
        StszSamples::Identical { count, size } => {
            if *count as u64 > file_len {
                return Err(
                    SampleTableError::SampleCountExceedsFile { count: *count as u64, file_len },
                );
            }
            if *count > 0 {
                if *size as u64 > file_len {
                    assert(first_oversized(all, file_len, 0));
                    return Err(SampleTableError::SampleSizeExceedsFile { size: *size, file_len });
                }
                proof {
                    sums::lemma_sum_to_constant(all, *size, *count as int);
                    sums::lemma_sum_to_bound(all, *count as int);
                    assert(*count * u32::MAX <= u32::MAX * u32::MAX) by (nonlinear_arith)
                        requires
                            *count <= u32::MAX,
                    ;
                }
                let total: u64 = *count as u64 * *size as u64;
                if total > file_len {
                    return Err(SampleTableError::TotalSizeExceedsFile { total, file_len });
                }
            }
            let n: usize = *count as usize;
            let mut sizes: Vec<u32> = Vec::new();
            while sizes.len() < n
                invariant
                    sizes@.len() <= n,
                    forall|i: int| 0 <= i < sizes@.len() ==> #[trigger] sizes@[i] == *size,
                decreases n - sizes@.len(),
            {
                sizes.push(*size);
            }
            assert(sizes@ =~= all);
            Ok(sizes)
        },
        StszSamples::Different { sizes } => {
            let count: u64 = sizes.len() as u64;
            if count > file_len {
                return Err(SampleTableError::SampleCountExceedsFile { count, file_len });
            }
            let mut total: u64 = 0;
            let mut copy: Vec<u32> = Vec::new();
            let mut i: usize = 0;
            while i < sizes.len()
                invariant
                    sizes@ == all,
                    all == stsz.sizes(),
                    *stsz is Different,
                    all.len() <= file_len,
                    i <= all.len(),
                    copy@ == all.subrange(0, i as int),
                    total == sums::sum_to(all, i as int),
                    forall|j: int| 0 <= j < i ==> #[trigger] all[j] <= file_len,
                decreases all.len() - i,
            {
                let size: u32 = sizes[i];
                if size as u64 > file_len {
                    assert(first_oversized(all, file_len, i as int));
                    return Err(
                        SampleTableError::SampleSizeAtExceedsFile {
                            index: i as u64,
                            size,
                            file_len,
                        },
                    );
                }
                total = match total.checked_add(size as u64) {
                    Some(next) => next,
                    None => {
                        proof {
                            lemma_overflow_excludes_oversized(all, file_len, i as int);
                            sums::lemma_sum_to_monotone(all, i + 1, all.len() as int);
                            assert(first_overflowing(all, i as int));
                        }
                        return Err(SampleTableError::TotalSizeOverflow { index: i as u64 });
                    },
                };
                copy.push(size);
                i += 1;
                assert(copy@ =~= all.subrange(0, i as int));
            }
            if total > file_len {
                return Err(SampleTableError::TotalSizeExceedsFile { total, file_len });
            }
            assert(copy@ =~= all);
            Ok(copy)
        },
    }
}

/// The entries of an `stts` table as runs of durations.
pub open spec fn stts_runs(entries: Seq<SttsEntry>) -> Seq<(u32, u32)> {
    entries.map_values(|e: SttsEntry| (e.sample_count, e.sample_delta))
}

/// The entries of a `ctts` table as runs of offsets.
pub open spec fn ctts_runs(entries: Seq<CttsEntry>) -> Seq<(u32, i64)> {
    entries.map_values(|e: CttsEntry| (e.sample_count, e.sample_offset))
}

/// What expanding the runs of `table` for `total` samples gives: the expansion where the
/// counts add up to `total`, else the reason to reject the table.
pub open spec fn runs_checked<T>(
    runs: Seq<(u32, T)>,
    total: nat,
    table: CountTable,
) -> Result<Seq<T>, SampleTableError> {
    let sum = sums::sum(runs::counts(runs));
    if sum > u64::MAX {
        Err(SampleTableError::CountOverflow { table })
    } else if sum != total {
        Err(SampleTableError::CountMismatch { table, sum: sum as u64, total: total as u64 })
    } else {
        Ok(runs::expand(runs))
    }
}

/// The sum of the counts of a table.
pub fn sum_sample_counts(counts: &Vec<u32>, table: CountTable) -> (r: Result<
    u64,
    SampleTableError,
>)
    ensures
        match r {
            Ok(sum) => sum == sums::sum(counts@),
            Err(e) => {
                &&& sums::sum(counts@) > u64::MAX
                &&& e == SampleTableError::CountOverflow { table }
            },
        },
{
    let mut sum: u64 = 0;
    let mut i: usize = 0;
    while i < counts.len()
        invariant
            i <= counts@.len(),
            sum == sums::sum_to(counts@, i as int),
        decreases counts@.len() - i,
    {
        match sum.checked_add(counts[i] as u64) {
            Some(next) => {
                sum = next;
            },
            None => {
                proof {
                    sums::lemma_sum_to_monotone(counts@, i + 1, counts@.len() as int);
                }
                return Err(SampleTableError::CountOverflow { table });
            },
        }
        i += 1;
    }
    Ok(sum)
}

/// The duration of each of `total` samples. The counts are checked before anything is
/// expanded.
pub fn expand_stts(entries: &Vec<SttsEntry>, total: usize) -> (r: Result<
    Vec<u32>,
    SampleTableError,
>)
    ensures
        ok_view(r) == runs_checked(stts_runs(entries@), total as nat, CountTable::Stts),
{
    let ghost all = stts_runs(entries@);
    let mut counts: Vec<u32> = Vec::new();
    let mut i: usize = 0;
    while i < entries.len()
        invariant
            i <= entries@.len(),
            counts@.len() == i,
            forall|j: int| 0 <= j < i ==> #[trigger] counts@[j] == entries@[j].sample_count,
        decreases entries@.len() - i,
    {
        counts.push(entries[i].sample_count);
        i += 1;
    }
    assert(counts@ =~= runs::counts(all));
    let sum: u64 = match sum_sample_counts(&counts, CountTable::Stts) {
        Ok(sum) => sum,
        Err(e) => return Err(e),
    };
    if sum != total as u64 {
        return Err(
            SampleTableError::CountMismatch { table: CountTable::Stts, sum, total: total as u64 },
        );
    }
    let mut durations: Vec<u32> = Vec::new();
    let mut i: usize = 0;
    assert(all.take(0) =~= Seq::empty());
    while i < entries.len()
        invariant
            all == stts_runs(entries@),
            i <= entries@.len(),
            durations@ == runs::expand(all.take(i as int)),
        decreases entries@.len() - i,
    {
        let entry = entries[i];
        let ghost before = durations@;
        let mut n: u32 = 0;
        while n < entry.sample_count
            invariant
                n <= entry.sample_count,
                durations@ == before + Seq::new(n as nat, |j: int| entry.sample_delta),
            decreases entry.sample_count - n,
        {
            durations.push(entry.sample_delta);
            n += 1;
            assert(durations@ =~= before + Seq::new(n as nat, |j: int| entry.sample_delta));
        }
        proof {
            assert(all.take(i + 1) =~= all.take(i as int).push(all[i as int]));
            runs::lemma_expand_push(all.take(i as int), all[i as int]);
            assert(durations@ =~= runs::expand(all.take(i + 1)));
        }
        i += 1;
    }
    assert(all.take(i as int) =~= all);
    Ok(durations)
}

/// The offset from decoding to showing of each of `total` samples: 0 without a `ctts`
/// table. The counts are checked before anything is expanded.
pub fn expand_ctts(ctts: &Option<Vec<CttsEntry>>, total: usize) -> (r: Result<
    Vec<i64>,
    SampleTableError,
>)
    ensures
        ok_view(r) == (match *ctts {
            Some(entries) => runs_checked(ctts_runs(entries@), total as nat, CountTable::Ctts),
            None => Ok(Seq::new(total as nat, |i: int| 0i64)),
        }),
{
    let entries = match ctts {
        Some(entries) => entries,
        None => {
            let mut zeros: Vec<i64> = Vec::new();
            while zeros.len() < total
                invariant
                    zeros@.len() <= total,
                    forall|i: int| 0 <= i < zeros@.len() ==> #[trigger] zeros@[i] == 0i64,
                decreases total - zeros@.len(),
            {
                zeros.push(0i64);
            }
            assert(zeros@ =~= Seq::new(total as nat, |i: int| 0i64));
            return Ok(zeros);
        },
    };
    let ghost all = ctts_runs(entries@);
    let mut counts: Vec<u32> = Vec::new();
    let mut i: usize = 0;
    while i < entries.len()
        invariant
            i <= entries@.len(),
            counts@.len() == i,
            forall|j: int| 0 <= j < i ==> #[trigger] counts@[j] == entries@[j].sample_count,
        decreases entries@.len() - i,
    {
        counts.push(entries[i].sample_count);
        i += 1;
    }
    assert(counts@ =~= runs::counts(all));
    let sum: u64 = match sum_sample_counts(&counts, CountTable::Ctts) {
        Ok(sum) => sum,
        Err(e) => return Err(e),
    };
    if sum != total as u64 {
        return Err(
            SampleTableError::CountMismatch { table: CountTable::Ctts, sum, total: total as u64 },
        );
    }
    let mut offsets: Vec<i64> = Vec::new();
    let mut i: usize = 0;
    assert(all.take(0) =~= Seq::empty());
    while i < entries.len()
        invariant
            all == ctts_runs(entries@),
            i <= entries@.len(),
            offsets@ == runs::expand(all.take(i as int)),
        decreases entries@.len() - i,
    {
        let entry = entries[i];
        let ghost before = offsets@;
        let mut n: u32 = 0;
        while n < entry.sample_count
            invariant
                n <= entry.sample_count,
                offsets@ == before + Seq::new(n as nat, |j: int| entry.sample_offset),
            decreases entry.sample_count - n,
        {
            offsets.push(entry.sample_offset);
            n += 1;
            assert(offsets@ =~= before + Seq::new(n as nat, |j: int| entry.sample_offset));
        }
        proof {
            assert(all.take(i + 1) =~= all.take(i as int).push(all[i as int]));
            runs::lemma_expand_push(all.take(i as int), all[i as int]);
            assert(offsets@ =~= runs::expand(all.take(i + 1)));
        }
        i += 1;
    }
    assert(all.take(i as int) =~= all);
    Ok(offsets)
}

/// One chunk on the walk through the chunks of a track: its number, counted from 1, and
/// how many samples it holds.
pub struct ChunkVisit {
    pub chunk: int,
    pub samples: int,
}

/// The last chunk that entry `i` of an `stsc` table speaks of, where the track has
/// `chunk_count` chunks.
pub open spec fn last_chunk_of(entries: Seq<StscEntry>, chunk_count: int, i: int) -> int {
    if i + 1 < entries.len() {
        entries[i + 1].first_chunk - 1
    } else {
        chunk_count
    }
}

/// The chunks that entry `i` of an `stsc` table speaks of.
pub open spec fn entry_visits(entries: Seq<StscEntry>, chunk_count: int, i: int) -> Seq<
    ChunkVisit,
> {
    let first = entries[i].first_chunk as int;
    let last = last_chunk_of(entries, chunk_count, i);
    Seq::new(
        if first <= last {
            (last - first + 1) as nat
        } else {
            0
        },
        |c: int|
            ChunkVisit { chunk: first + c, samples: entries[i].samples_per_chunk as int },
    )
}

/// The walk through the chunks that the first `n` entries of an `stsc` table speak of.
pub open spec fn chunk_visits(entries: Seq<StscEntry>, chunk_count: int, n: int) -> Seq<
    ChunkVisit,
>
    decreases n,
{
    if n <= 0 {
        Seq::empty()
    } else {
        chunk_visits(entries, chunk_count, n - 1) + entry_visits(entries, chunk_count, n - 1)
    }
}

/// How many samples the first `p` chunks of a walk hold.
pub open spec fn samples_before(visits: Seq<ChunkVisit>, p: int) -> int
    decreases p,
{
    if p <= 0 {
        0
    } else {
        samples_before(visits, p - 1) + visits[p - 1].samples
    }
}

/// Sample `k` lies in the chunk at position `p` of the walk.
pub open spec fn lies_in(visits: Seq<ChunkVisit>, k: int, p: int) -> bool {
    &&& 0 <= p < visits.len()
    &&& samples_before(visits, p) <= k < samples_before(visits, p + 1)
}

/// The file offset of a chunk: 0 where the table of offsets does not reach that far.
pub open spec fn offset_of_chunk(offsets: Seq<u64>, chunk: int) -> int {
    if 1 <= chunk <= offsets.len() {
        offsets[chunk - 1] as int
    } else {
        0
    }
}

/// The file offset of sample `k` in the chunk at position `p` of the walk: the samples of
/// a chunk follow each other without gaps.
pub open spec fn offset_in_chunk(
    visits: Seq<ChunkVisit>,
    offsets: Seq<u64>,
    sizes: Seq<u32>,
    k: int,
    p: int,
) -> int {
    offset_of_chunk(offsets, visits[p].chunk) + sums::sum_to(sizes, k) - sums::sum_to(
        sizes,
        samples_before(visits, p),
    )
}

impl Stbl {
    /// The walk through all chunks of the track.
    pub open spec fn visits(&self) -> Seq<ChunkVisit> {
        chunk_visits(self.stsc@, self.chunk_offsets().len() as int, self.stsc@.len() as int)
    }

    /// The duration of each sample, or why the `stts` table is rejected.
    pub open spec fn durations(&self) -> Result<Seq<u32>, SampleTableError> {
        runs_checked(stts_runs(self.stts@), self.stsz.sizes().len(), CountTable::Stts)
    }

    /// The offset from decoding to showing of each sample, or why the `ctts` table is
    /// rejected.
    pub open spec fn cts_offsets(&self) -> Result<Seq<i64>, SampleTableError> {
        match self.ctts {
            Some(entries) => runs_checked(
                ctts_runs(entries@),
                self.stsz.sizes().len(),
                CountTable::Ctts,
            ),
            None => Ok(Seq::new(self.stsz.sizes().len(), |i: int| 0i64)),
        }
    }

    /// What holds of the tables of every file: no table has more entries than 32 bits
    /// count, chunks are numbered from 1, and no sample ends beyond the last offset
    /// that 64 bits hold.
    pub open spec fn is_addressable(&self) -> bool {
        &&& self.stsz.sizes().len() <= u32::MAX
        &&& self.chunk_offsets().len() <= u32::MAX
        &&& forall|i: int| 0 <= i < self.stsc@.len() ==> (#[trigger] self.stsc@[i]).first_chunk >= 1
        &&& forall|k: int, p: int|
            0 <= k < self.stsz.sizes().len() && #[trigger] lies_in(self.visits(), k, p)
                ==> self.end_fits(k, p)
    }

    /// Sample `k`, in the chunk at position `p` of the walk, ends at an offset that 64 bits
    /// hold.
    pub open spec fn end_fits(&self, k: int, p: int) -> bool {
        offset_in_chunk(self.visits(), self.chunk_offsets(), self.stsz.sizes(), k, p)
            + self.stsz.sizes()[k] <= u64::MAX
    }

    /// The tables pass the checks that are made before the walk through the chunks.
    pub open spec fn is_accepted(&self, file_len: u64) -> bool {
        &&& sizes_checked(self.stsz, file_len, Ok(self.stsz.sizes()))
        &&& self.durations() is Ok
        &&& self.cts_offsets() is Ok
    }

    /// The samples can be restored or the tables are rejected: where the checks are passed,
    /// the walk through the chunks stays within what the numbers hold.
    pub open spec fn is_readable(&self, file_len: u64) -> bool {
        self.is_accepted(file_len) ==> self.is_addressable()
    }
}

/// `info` is sample `k` of a track with the tables `stbl`, found in the chunk at position
/// `p` of the walk.
pub open spec fn is_sample_at(stbl: Stbl, k: int, p: int, info: SampleInfo) -> bool {
    &&& lies_in(stbl.visits(), k, p)
    &&& info.file_offset == offset_in_chunk(
        stbl.visits(),
        stbl.chunk_offsets(),
        stbl.stsz.sizes(),
        k,
        p,
    )
    &&& info.size == stbl.stsz.sizes()[k]
    &&& info.duration == stbl.durations()->Ok_0[k]
    &&& info.cts_offset == stbl.cts_offsets()->Ok_0[k]
    &&& info.is_sync == stbl.is_sync(k)
}

/// `info` is sample `k` of a track with the tables `stbl`.
pub open spec fn is_sample(stbl: Stbl, k: int, info: SampleInfo) -> bool {
    exists|p: int| is_sample_at(stbl, k, p, info)
}

/// `infos` lists the samples of a track with the tables `stbl`: as many as there are
/// sizes, or as the chunks hold where that is fewer.
pub open spec fn lists_samples(stbl: Stbl, infos: Seq<SampleInfo>) -> bool {
    let held = samples_before(stbl.visits(), stbl.visits().len() as int);
    &&& infos.len() == if held < stbl.stsz.sizes().len() {
        held
    } else {
        stbl.stsz.sizes().len() as int
    }
    &&& forall|k: int|
        0 <= k < infos.len() ==> is_sample(stbl, k, #[trigger] infos[k])
}

/// `r` is what restoring the samples of a track with the tables `stbl`, in a file of
/// `file_len` bytes, gives. Sizes are checked first, then `stts`, then `ctts`.
pub open spec fn samples_restored(
    stbl: Stbl,
    file_len: u64,
    r: Result<Seq<SampleInfo>, SampleTableError>,
) -> bool {
    if !sizes_checked(stbl.stsz, file_len, Ok(stbl.stsz.sizes())) {
        &&& r is Err
        &&& sizes_checked(stbl.stsz, file_len, Err(r->Err_0))
    } else if stbl.durations() is Err {
        r is Err && r->Err_0 == stbl.durations()->Err_0
    } else if stbl.cts_offsets() is Err {
        r is Err && r->Err_0 == stbl.cts_offsets()->Err_0
    } else {
        r is Ok && lists_samples(stbl, r->Ok_0)
    }
}

proof fn lemma_visits_prefix(entries: Seq<StscEntry>, chunk_count: int, m: int, n: int)
    requires
        0 <= m <= n,
    ensures
        chunk_visits(entries, chunk_count, m).len() <= chunk_visits(entries, chunk_count, n).len(),
        forall|p: int|
            0 <= p < chunk_visits(entries, chunk_count, m).len() ==> (#[trigger] chunk_visits(
                entries,
                chunk_count,
                n,
            )[p]) == chunk_visits(entries, chunk_count, m)[p],
    decreases n,
{
    if m < n {
        lemma_visits_prefix(entries, chunk_count, m, n - 1);
    }
}

proof fn lemma_visits_hold_samples(entries: Seq<StscEntry>, chunk_count: int, n: int)
    ensures
        forall|p: int|
            0 <= p < chunk_visits(entries, chunk_count, n).len() ==> (#[trigger] chunk_visits(
                entries,
                chunk_count,
                n,
            )[p]).samples >= 0,
    decreases n,
{
    if n > 0 {
        lemma_visits_hold_samples(entries, chunk_count, n - 1);
        let before = chunk_visits(entries, chunk_count, n - 1);
        let here = entry_visits(entries, chunk_count, n - 1);
        assert forall|p: int|
            0 <= p < chunk_visits(entries, chunk_count, n).len() implies (#[trigger] chunk_visits(
            entries,
            chunk_count,
            n,
        )[p]).samples >= 0 by {
            if p < before.len() {
                assert((before + here)[p] == before[p]);
            } else {
                assert((before + here)[p] == here[p - before.len()]);
            }
        }
    }
}

/// Later positions of a walk have at least as many samples before them.
pub proof fn lemma_samples_before_monotone(visits: Seq<ChunkVisit>, p: int, q: int)
    requires
        0 <= p <= q <= visits.len(),
        forall|i: int| 0 <= i < visits.len() ==> (#[trigger] visits[i]).samples >= 0,
    ensures
        0 <= samples_before(visits, p) <= samples_before(visits, q),
    decreases q,
{
    if q > 0 {
        if p < q {
            lemma_samples_before_monotone(visits, p, q - 1);
        } else {
            lemma_samples_before_monotone(visits, p - 1, q - 1);
        }
    }
}

fn collect_chunk_offsets(stbl: &Stbl) -> (offsets: Vec<u64>)
    ensures
        offsets@ == stbl.chunk_offsets(),
{
    let mut offsets: Vec<u64> = Vec::new();
    match (&stbl.stco, &stbl.co64) {
        (Some(stco), _) => {
            let mut i: usize = 0;
            while i < stco.len()
                invariant
                    i <= stco@.len(),
                    offsets@.len() == i,
                    forall|j: int| 0 <= j < i ==> #[trigger] offsets@[j] == stco@[j] as u64,
                decreases stco@.len() - i,
            {
                offsets.push(stco[i] as u64);
                i += 1;
            }
            assert(offsets@ =~= stbl.chunk_offsets());
        },
        (None, Some(co64)) => {
            let mut i: usize = 0;
            while i < co64.len()
                invariant
                    i <= co64@.len(),
                    offsets@ == co64@.subrange(0, i as int),
                decreases co64@.len() - i,
            {
                offsets.push(co64[i]);
                i += 1;
                assert(offsets@ =~= co64@.subrange(0, i as int));
            }
            assert(offsets@ =~= stbl.chunk_offsets());
        },
        (None, None) => {},
    }
    offsets
}

/// For each of `total` samples, whether it is a sync sample.
fn collect_sync_flags(stbl: &Stbl, total: usize) -> (flags: Vec<bool>)
    ensures
        flags@.len() == total,
        forall|k: int| 0 <= k < total ==> #[trigger] flags@[k] == stbl.is_sync(k),
{
    let everything: bool = stbl.stss.is_none();
    let mut flags: Vec<bool> = Vec::new();
    while flags.len() < total
        invariant
            flags@.len() <= total,
            forall|k: int| 0 <= k < flags@.len() ==> #[trigger] flags@[k] == everything,
        decreases total - flags@.len(),
    {
        flags.push(everything);
    }
    if let Some(numbers) = &stbl.stss {
        let mut i: usize = 0;
        while i < numbers.len()
            invariant
                i <= numbers@.len(),
                flags@.len() == total,
                forall|k: int|
                    0 <= k < total ==> (#[trigger] flags@[k] <==> exists|j: int|
                        0 <= j < i && #[trigger] numbers@[j] == k + 1),
            decreases numbers@.len() - i,
        {
            let number: u32 = numbers[i];
            let ghost before = flags@;
            if number >= 1 && (number as usize) <= total {
                flags.set(number as usize - 1, true);
            }
            proof {
                assert forall|k: int| 0 <= k < total implies (#[trigger] flags@[k] <==> exists|
                    j: int,
                |
                    0 <= j < i + 1 && #[trigger] numbers@[j] == k + 1) by {
                    if k + 1 == number {
                        assert(numbers@[i as int] == k + 1);
                    } else {
                        assert(flags@[k] == before[k]);
                    }
                }
            }
            i += 1;
        }
    }
    flags
}

/// Restores the samples of a track, in decode order, from its sample tables.
///
/// The numbers in the tables are not trusted: sizes have to fit in the file, and the
/// counts of `stts` and `ctts` have to add up, before memory is set aside for samples.
pub fn samples(stbl: &Stbl, file_len: u64) -> (r: Result<Vec<SampleInfo>, SampleTableError>)
    requires
        stbl.is_readable(file_len),
    ensures
        samples_restored(*stbl, file_len, ok_view(r)),
{
    try_samples(stbl, file_len).unwrap()
}

/// As [`samples`], for tables of which nothing is known: `None` where the walk through the
/// chunks would leave what the numbers hold.
pub fn try_samples(stbl: &Stbl, file_len: u64) -> (r: Option<
    Result<Vec<SampleInfo>, SampleTableError>,
>)
    ensures
        r is None <==> !stbl.is_readable(file_len),
        r is Some ==> samples_restored(*stbl, file_len, ok_view(r->0)),
{
    let sizes: Vec<u32> = match validate_and_collect_sizes(&stbl.stsz, file_len) {
        Ok(sizes) => sizes,
        Err(e) => return Some(Err(e)),
    };
    let total: usize = sizes.len();
    let offsets: Vec<u64> = collect_chunk_offsets(stbl);
    let durations: Vec<u32> = match expand_stts(&stbl.stts, total) {
        Ok(durations) => durations,
        Err(e) => return Some(Err(e)),
    };
    let cts_offsets: Vec<i64> = match expand_ctts(&stbl.ctts, total) {
        Ok(offsets) => offsets,
        Err(e) => return Some(Err(e)),
    };
    let sync_flags: Vec<bool> = collect_sync_flags(stbl, total);
    assert(stbl.is_accepted(file_len));

    if total as u64 > u32::MAX as u64 || offsets.len() as u64 > u32::MAX as u64 {
        return None;
    }
    let mut entry_index: usize = 0;
    while entry_index < stbl.stsc.len()
        invariant
            stbl.is_accepted(file_len),
            entry_index <= stbl.stsc@.len(),
            forall|j: int|
                0 <= j < entry_index ==> (#[trigger] stbl.stsc@[j]).first_chunk >= 1,
        decreases stbl.stsc@.len() - entry_index,
    {
        if stbl.stsc[entry_index].first_chunk == 0 {
            assert(!stbl.is_addressable());
            return None;
        }
        entry_index += 1;
    }

    let ghost visits = stbl.visits();
    let ghost count = stbl.chunk_offsets().len() as int;
    proof {
        runs::lemma_expand_len(stts_runs(stbl.stts@));
        if let Some(entries) = &stbl.ctts {
            runs::lemma_expand_len(ctts_runs(entries@));
        }
        lemma_visits_hold_samples(stbl.stsc@, count, stbl.stsc@.len() as int);
    }
    let mut out: Vec<SampleInfo> = Vec::new();
    let mut i: usize = 0;
    let ghost mut p: int = 0;
    while i < stbl.stsc.len()
        invariant
            stbl.is_accepted(file_len),
            stbl.stsz.sizes().len() <= u32::MAX,
            stbl.chunk_offsets().len() <= u32::MAX,
            forall|j: int|
                0 <= j < stbl.stsc@.len() ==> (#[trigger] stbl.stsc@[j]).first_chunk >= 1,
            forall|k: int, q: int|
                0 <= k < out@.len() && #[trigger] lies_in(visits, k, q) ==> stbl.end_fits(k, q),
            visits == stbl.visits(),
            count == stbl.chunk_offsets().len(),
            sizes@ == stbl.stsz.sizes(),
            total == sizes@.len(),
            offsets@ == stbl.chunk_offsets(),
            durations@.len() == total,
            stbl.durations() == Ok::<Seq<u32>, SampleTableError>(durations@),
            cts_offsets@.len() == total,
            stbl.cts_offsets() == Ok::<Seq<i64>, SampleTableError>(cts_offsets@),
            sync_flags@.len() == total,
            forall|k: int| 0 <= k < total ==> #[trigger] sync_flags@[k] == stbl.is_sync(k),
            forall|q: int| 0 <= q < visits.len() ==> (#[trigger] visits[q]).samples >= 0,
            i <= stbl.stsc@.len(),
            p == chunk_visits(stbl.stsc@, count, i as int).len(),
            p <= visits.len(),
            out@.len() <= total,
            out@.len() == (if samples_before(visits, p) < total {
                samples_before(visits, p)
            } else {
                total as int
            }),
            forall|k: int|
                0 <= k < out@.len() ==> is_sample(*stbl, k, #[trigger] out@[k]),
        decreases stbl.stsc@.len() - i,
    {
        let entry = stbl.stsc[i];
        let last: u32 = if i + 1 < stbl.stsc.len() {
            stbl.stsc[i + 1].first_chunk - 1
        } else {
            offsets.len() as u32
        };
        let ghost base = p;
        let ghost here = entry_visits(stbl.stsc@, count, i as int);
        proof {
            lemma_visits_prefix(stbl.stsc@, count, i + 1, stbl.stsc@.len() as int);
            assert forall|c: int| 0 <= c < here.len() implies #[trigger] visits[base + c]
                == here[c] by {
                assert(chunk_visits(stbl.stsc@, count, i + 1)[base + c] == here[c]);
            }
        }
        let mut chunk: u64 = entry.first_chunk as u64;
        while chunk <= last as u64
            invariant
                stbl.is_accepted(file_len),
                stbl.stsz.sizes().len() <= u32::MAX,
                stbl.chunk_offsets().len() <= u32::MAX,
                forall|j: int|
                    0 <= j < stbl.stsc@.len() ==> (#[trigger] stbl.stsc@[j]).first_chunk >= 1,
                forall|k: int, q: int|
                    0 <= k < out@.len() && #[trigger] lies_in(visits, k, q) ==> stbl.end_fits(k, q),
                visits == stbl.visits(),
                count == stbl.chunk_offsets().len(),
                sizes@ == stbl.stsz.sizes(),
                total == sizes@.len(),
                offsets@ == stbl.chunk_offsets(),
                durations@.len() == total,
                stbl.durations() == Ok::<Seq<u32>, SampleTableError>(durations@),
                cts_offsets@.len() == total,
                stbl.cts_offsets() == Ok::<Seq<i64>, SampleTableError>(cts_offsets@),
                sync_flags@.len() == total,
                forall|k: int| 0 <= k < total ==> #[trigger] sync_flags@[k] == stbl.is_sync(k),
                forall|q: int| 0 <= q < visits.len() ==> (#[trigger] visits[q]).samples >= 0,
                i < stbl.stsc@.len(),
                entry == stbl.stsc@[i as int],
                last == last_chunk_of(stbl.stsc@, count, i as int),
                here == entry_visits(stbl.stsc@, count, i as int),
                entry.first_chunk >= 1,
                base + here.len() <= visits.len(),
                forall|c: int| 0 <= c < here.len() ==> #[trigger] visits[base + c] == here[c],
                entry.first_chunk <= chunk,
                chunk <= last + 1 || chunk == entry.first_chunk,
                0 <= base,
                p == base + chunk - entry.first_chunk,
                p <= visits.len(),
                out@.len() <= total,
                out@.len() == (if samples_before(visits, p) < total {
                    samples_before(visits, p)
                } else {
                    total as int
                }),
                forall|k: int|
                    0 <= k < out@.len() ==> is_sample(*stbl, k, #[trigger] out@[k]),
            decreases last + 1 - chunk,
        {
            proof {
                assert(visits[base + (p - base)] == here[p - base]);
                lemma_samples_before_monotone(visits, 0, p);
            }
            let index: usize = chunk as usize - 1;
            let mut offset: u64 = if index < offsets.len() {
                offsets[index]
            } else {
                0
            };
            let ghost start = samples_before(visits, p);
            let mut n: u32 = 0;
            while n < entry.samples_per_chunk && out.len() < total
                invariant
                    stbl.is_accepted(file_len),
                    stbl.stsz.sizes().len() <= u32::MAX,
                    stbl.chunk_offsets().len() <= u32::MAX,
                    forall|j: int|
                        0 <= j < stbl.stsc@.len() ==> (#[trigger] stbl.stsc@[j]).first_chunk >= 1,
                    forall|k: int, q: int|
                        0 <= k < out@.len() && #[trigger] lies_in(visits, k, q) ==> stbl.end_fits(k, q),
                    visits == stbl.visits(),
                    sizes@ == stbl.stsz.sizes(),
                    total == sizes@.len(),
                    offsets@ == stbl.chunk_offsets(),
                    durations@.len() == total,
                    stbl.durations() == Ok::<Seq<u32>, SampleTableError>(durations@),
                    cts_offsets@.len() == total,
                    stbl.cts_offsets() == Ok::<Seq<i64>, SampleTableError>(cts_offsets@),
                    sync_flags@.len() == total,
                    forall|k: int|
                        0 <= k < total ==> #[trigger] sync_flags@[k] == stbl.is_sync(k),
                    0 <= p < visits.len(),
                    visits[p].chunk == chunk,
                    visits[p].samples == entry.samples_per_chunk,
                    start == samples_before(visits, p),
                    n <= entry.samples_per_chunk,
                    out@.len() <= total,
                    out@.len() < total ==> out@.len() == start + n,
                    start + n >= out@.len(),
                    start < total ==> out@.len() == start + n && offset
                        == offset_of_chunk(offsets@, chunk as int) + sums::sum_to(
                        sizes@,
                        out@.len() as int,
                    ) - sums::sum_to(sizes@, start),
                    forall|k: int|
                        0 <= k < out@.len() ==> is_sample(*stbl, k, #[trigger] out@[k]),
                decreases entry.samples_per_chunk - n,
            {
                let k: usize = out.len();
                let ghost shown = out@;
                assert(lies_in(visits, k as int, p));
                let info = SampleInfo {
                    file_offset: offset,
                    size: sizes[k],
                    duration: durations[k],
                    cts_offset: cts_offsets[k],
                    is_sync: sync_flags[k],
                };
                assert(is_sample_at(*stbl, k as int, p, info));
                out.push(info);
                proof {
                    assert forall|j: int| 0 <= j < out@.len() implies is_sample(
                        *stbl,
                        j,
                        #[trigger] out@[j],
                    ) by {
                        if j < k {
                            assert(out@[j] == shown[j]);
                        }
                    }
                }
                if sizes[k] as u64 > u64::MAX - offset {
                    assert(!stbl.end_fits(k as int, p));
                    return None;
                }
                proof {
                    assert forall|j: int, q: int|
                        0 <= j < out@.len() && #[trigger] lies_in(visits, j, q) implies stbl.end_fits(
                        j,
                        q,
                    ) by {
                        if j == k {
                            sample_lies_in_one_chunk(*stbl, j, p, q);
                        }
                    }
                }
                offset = offset + sizes[k] as u64;
                n += 1;
            }
            proof {
                assert(samples_before(visits, p + 1) == start + entry.samples_per_chunk);
                p = p + 1;
            }
            chunk += 1;
        }
        i += 1;
    }
    proof {
        assert forall|k: int, q: int|
            0 <= k < total && #[trigger] lies_in(visits, k, q) implies stbl.end_fits(k, q) by {
            lemma_samples_before_monotone(visits, q + 1, p);
        }
        assert(stbl.is_addressable());
    }
    Some(Ok(out))
}

/// The walk through the chunks of a track never counts backwards.
pub proof fn lemma_visits_are_counts(stbl: Stbl)
    ensures
        forall|p: int|
            0 <= p < stbl.visits().len() ==> (#[trigger] stbl.visits()[p]).samples >= 0,
{
    lemma_visits_hold_samples(
        stbl.stsc@,
        stbl.chunk_offsets().len() as int,
        stbl.stsc@.len() as int,
    );
}

/// A sample lies in one chunk only.
pub proof fn sample_lies_in_one_chunk(stbl: Stbl, k: int, p: int, q: int)
    requires
        lies_in(stbl.visits(), k, p),
        lies_in(stbl.visits(), k, q),
    ensures
        p == q,
{
    lemma_visits_are_counts(stbl);
    if p < q {
        lemma_samples_before_monotone(stbl.visits(), p + 1, q);
    } else if q < p {
        lemma_samples_before_monotone(stbl.visits(), q + 1, p);
    }
}

/// Sample tables describe one list of samples only.
pub proof fn samples_are_determined(stbl: Stbl, a: Seq<SampleInfo>, b: Seq<SampleInfo>)
    requires
        lists_samples(stbl, a),
        lists_samples(stbl, b),
    ensures
        a == b,
{
    assert forall|k: int| 0 <= k < a.len() implies a[k] == b[k] by {
        assert(is_sample(stbl, k, a[k]));
        assert(is_sample(stbl, k, b[k]));
        let p = choose|p: int| is_sample_at(stbl, k, p, a[k]);
        let q = choose|q: int| is_sample_at(stbl, k, q, b[k]);
        sample_lies_in_one_chunk(stbl, k, p, q);
    }
    assert(a =~= b);
}

/// The samples of a chunk follow each other without gaps: where two neighbouring samples
/// lie in the same chunk, the second starts where the first ends.
pub proof fn samples_of_a_chunk_are_contiguous(
    stbl: Stbl,
    infos: Seq<SampleInfo>,
    k: int,
    p: int,
)
    requires
        lists_samples(stbl, infos),
        0 <= k < k + 1 < infos.len(),
        lies_in(stbl.visits(), k, p),
        lies_in(stbl.visits(), k + 1, p),
    ensures
        infos[k + 1].file_offset == infos[k].file_offset + infos[k].size,
{
    assert(is_sample(stbl, k, infos[k]));
    assert(is_sample(stbl, k + 1, infos[k + 1]));
    let a = choose|a: int| is_sample_at(stbl, k, a, infos[k]);
    let next = k + 1;
    let b = choose|b: int| is_sample_at(stbl, next, b, infos[next]);
    sample_lies_in_one_chunk(stbl, k, a, p);
    sample_lies_in_one_chunk(stbl, next, b, p);
}

impl CountTable {
    /// The name of the table.
    pub open spec fn spec_name(self) -> Seq<char> {
        match self {
            CountTable::Stts => "stts"@,
            CountTable::Ctts => "ctts"@,
        }
    }

    /// The name of the table.
    pub fn name(self) -> (name: &'static str)
        ensures
            name@ == self.spec_name(),
    {
        match self {
            CountTable::Stts => "stts",
            CountTable::Ctts => "ctts",
        }
    }
}

impl SampleTableError {
    /// The message for the user.
    pub open spec fn spec_message(self) -> Seq<char> {
        match self {
            SampleTableError::SampleCountExceedsFile { count, file_len } => {
                "stsz sample count ("@ + text::decimal(count as nat) + ") が入力ファイル長 ("@
                    + text::decimal(file_len as nat) + ") を超えています"@
            },
            SampleTableError::SampleSizeExceedsFile { size, file_len } => {
                "stsz sample size ("@ + text::decimal(size as nat) + ") が入力ファイル長 ("@
                    + text::decimal(file_len as nat) + ") を超えています"@
            },
            SampleTableError::SampleSizeAtExceedsFile { index, size, file_len } => {
                "stsz sample["@ + text::decimal(index as nat) + "] size ("@ + text::decimal(
                    size as nat,
                ) + ") が入力ファイル長 ("@ + text::decimal(file_len as nat)
                    + ") を超えています"@
            },
            SampleTableError::TotalSizeExceedsFile { total, file_len } => {
                "stsz の合計サイズ ("@ + text::decimal(total as nat)
                    + ") が入力ファイル長 ("@ + text::decimal(file_len as nat)
                    + ") を超えています"@
            },
            SampleTableError::TotalSizeOverflow { index } => {
                "stsz のサイズ総和が u64 を overflow します（sample "@ + text::decimal(
                    index as nat,
                ) + "）"@
            },
            SampleTableError::CountOverflow { table } => {
                table.spec_name() + " の sample_count 合計が u64 を overflow します"@
            },
            SampleTableError::CountMismatch { table, sum, total } => {
                table.spec_name() + " の sample_count 合計 ("@ + text::decimal(sum as nat)
                    + ") が stsz のサンプル数 ("@ + text::decimal(total as nat)
                    + ") と一致しません"@
            },
        }
    }

    /// The message for the user.
    pub fn message(&self) -> (m: String)
        ensures
            m@ == self.spec_message(),
    {
        let mut m = String::new();
        match self {
            SampleTableError::SampleCountExceedsFile { count, file_len } => {
                m.append("stsz sample count (");
                text::push_u64(&mut m, *count);
                m.append(") が入力ファイル長 (");
                text::push_u64(&mut m, *file_len);
                m.append(") を超えています");
            },
            SampleTableError::SampleSizeExceedsFile { size, file_len } => {
                m.append("stsz sample size (");
                text::push_u64(&mut m, *size as u64);
                m.append(") が入力ファイル長 (");
                text::push_u64(&mut m, *file_len);
                m.append(") を超えています");
            },
            SampleTableError::SampleSizeAtExceedsFile { index, size, file_len } => {
                m.append("stsz sample[");
                text::push_u64(&mut m, *index);
                m.append("] size (");
                text::push_u64(&mut m, *size as u64);
                m.append(") が入力ファイル長 (");
                text::push_u64(&mut m, *file_len);
                m.append(") を超えています");
            },
            SampleTableError::TotalSizeExceedsFile { total, file_len } => {
                m.append("stsz の合計サイズ (");
                text::push_u64(&mut m, *total);
                m.append(") が入力ファイル長 (");
                text::push_u64(&mut m, *file_len);
                m.append(") を超えています");
            },
            SampleTableError::TotalSizeOverflow { index } => {
                m.append("stsz のサイズ総和が u64 を overflow します（sample ");
                text::push_u64(&mut m, *index);
                m.append("）");
            },
            SampleTableError::CountOverflow { table } => {
                m.append(table.name());
                m.append(" の sample_count 合計が u64 を overflow します");
            },
            SampleTableError::CountMismatch { table, sum, total } => {
                m.append(table.name());
                m.append(" の sample_count 合計 (");
                text::push_u64(&mut m, *sum);
                m.append(") が stsz のサンプル数 (");
                text::push_u64(&mut m, *total);
                m.append(") と一致しません");
            },
        }
        assert(m@ =~= self.spec_message());
        m
    }
}

/// What to do with the next top-level atom while looking for the `moov` atom.
#[derive(Debug, Clone, Copy, PartialEq, Eq, Structural)]
pub enum MoovSearch {
    /// It is the `moov` atom: decode it.
    Decode,
    /// Skip this many bytes and look at the next atom.
    Skip(u64),
    /// It extends to the end of the file, so there is no `moov` atom.
    Missing,
}

/// Decides what to do with a top-level atom of the given kind and size. The size does not
/// count the atom's header; it is `None` for an atom that extends to the end of the file.
pub fn search_moov(kind: [u8; 4], size: Option<u64>) -> (step: MoovSearch)
    ensures
        step == (if kind@ == seq![0x6du8, 0x6f, 0x6f, 0x76] {
            MoovSearch::Decode
        } else {
            match size {
                Some(n) => MoovSearch::Skip(n),
                None => MoovSearch::Missing,
            }
        }),
{
    if kind[0] == 0x6d && kind[1] == 0x6f && kind[2] == 0x6f && kind[3] == 0x76 {
        assert(kind@ =~= seq![0x6du8, 0x6f, 0x6f, 0x76]);
        return MoovSearch::Decode;
    }
    match size {
        Some(n) => MoovSearch::Skip(n),
        None => MoovSearch::Missing,
    }
}

} // verus!
