//! Where the chunks of all tracks come to lie in the output, and what is copied there.

use crate::mp4io;
use crate::mp4io::interleave;
use crate::mp4io::read::SampleInfo;
use crate::mp4io::write::Chunk;
use crate::sums;
use vstd::prelude::*;

verus! {

/// A piece of the input that is copied to the output.
#[derive(Debug, Clone, Copy, PartialEq, Eq, Structural)]
pub struct CopySpan {
    /// Where the piece starts in the input.
    pub file_offset: u64,
    /// The number of bytes.
    pub size: u32,
}

/// The number of bytes of a chunk.
pub open spec fn chunk_bytes(kept: Seq<Seq<SampleInfo>>, chunk: Chunk) -> int {
    let sizes = mp4io::write::sizes_of(kept[chunk.track_index as int]);
    sums::sum_to(sizes, chunk.end()) - sums::sum_to(sizes, chunk.start_sample as int)
}

/// The number of bytes of the first `m` chunks.
pub open spec fn bytes_before(kept: Seq<Seq<SampleInfo>>, chunks: Seq<Chunk>, m: int) -> int
    decreases m,
{
    if m <= 0 {
        0
    } else {
        bytes_before(kept, chunks, m - 1) + chunk_bytes(kept, chunks[m - 1])
    }
}

/// The number of bytes of all samples of the first `t` tracks.
pub open spec fn total_bytes(kept: Seq<Seq<SampleInfo>>, t: int) -> int
    decreases t,
{
    if t <= 0 {
        0
    } else {
        total_bytes(kept, t - 1) + sums::sum(mp4io::write::sizes_of(kept[t - 1]))
    }
}

/// What is copied for one sample.
pub open spec fn span_of(info: SampleInfo) -> CopySpan {
    CopySpan { file_offset: info.file_offset, size: info.size }
}

/// What is copied for samples `from` to `to` of a track.
pub open spec fn spans_of(kept: Seq<SampleInfo>, from: int, to: int) -> Seq<CopySpan> {
    Seq::new((to - from) as nat, |i: int| span_of(kept[from + i]))
}

/// What is copied for the first `m` chunks.
pub open spec fn copies_of(kept: Seq<Seq<SampleInfo>>, chunks: Seq<Chunk>, m: int) -> Seq<CopySpan>
    decreases m,
{
    if m <= 0 {
        Seq::empty()
    } else {
        let chunk = chunks[m - 1];
        copies_of(kept, chunks, m - 1) + spans_of(
            kept[chunk.track_index as int],
            chunk.start_sample as int,
            chunk.end(),
        )
    }
}

/// The sizes of copied pieces.
pub open spec fn span_sizes(copies: Seq<CopySpan>) -> Seq<u32> {
    copies.map_values(|c: CopySpan| c.size)
}

/// Where the chunks of a track, among the first `n` of all chunks, start in the output.
pub open spec fn offsets_of_track(
    kept: Seq<Seq<SampleInfo>>,
    chunks: Seq<Chunk>,
    body_start: int,
    track_index: int,
    n: int,
) -> Seq<int>
    decreases n,
{
    if n <= 0 {
        Seq::empty()
    } else if chunks[n - 1].track_index == track_index {
        offsets_of_track(kept, chunks, body_start, track_index, n - 1).push(
            body_start + bytes_before(kept, chunks, n - 1),
        )
    } else {
        offsets_of_track(kept, chunks, body_start, track_index, n - 1)
    }
}

/// Every chunk lies within the samples of its track.
pub open spec fn chunks_in_range(kept: Seq<Seq<SampleInfo>>, chunks: Seq<Chunk>) -> bool {
    forall|i: int|
        0 <= i < chunks.len() ==> {
            &&& (#[trigger] chunks[i]).track_index < kept.len()
            &&& chunks[i].end() <= kept[chunks[i].track_index as int].len()
        }
}

proof fn lemma_of_track_contains(chunks: Seq<Chunk>, t: int, n: int, i: int)
    requires
        0 <= i < n <= chunks.len(),
        chunks[i].track_index == t,
    ensures
        exists|c: int|
            0 <= c < interleave::of_track(chunks, t, n).len() && #[trigger] interleave::of_track(
                chunks,
                t,
                n,
            )[c] == chunks[i],
    decreases n,
{
    let found = interleave::of_track(chunks, t, n);
    if i == n - 1 {
        assert(found[found.len() - 1] == chunks[i]);
    } else {
        lemma_of_track_contains(chunks, t, n - 1, i);
        let before = interleave::of_track(chunks, t, n - 1);
        let c = choose|c: int| 0 <= c < before.len() && #[trigger] before[c] == chunks[i];
        assert(found[c] == chunks[i]);
    }
}

/// Chunks that keep the tracks lie within the samples of their tracks.
pub proof fn lemma_kept_tracks_in_range(
    kept: Seq<Seq<SampleInfo>>,
    timescales: Seq<u32>,
    chunks: Seq<Chunk>,
)
    requires
        interleave::keeps_tracks(kept, timescales, chunks),
    ensures
        chunks_in_range(kept, chunks),
{
    assert forall|i: int| 0 <= i < chunks.len() implies {
        &&& (#[trigger] chunks[i]).track_index < kept.len()
        &&& chunks[i].end() <= kept[chunks[i].track_index as int].len()
    } by {
        let t = chunks[i].track_index as int;
        let n = chunks.len() as int;
        lemma_of_track_contains(chunks, t, n, i);
        let found = interleave::of_track(chunks, t, n);
        assert(mp4io::write::is_chunking(
            mp4io::write::durations_of(kept[t]),
            timescales[t],
            t as usize,
            found,
        ));
        let c = choose|c: int| 0 <= c < found.len() && #[trigger] found[c] == chunks[i];
        assert(found[c].end() <= mp4io::write::durations_of(kept[t]).len());
    }
}

/// A chunk has no negative number of bytes.
pub proof fn lemma_chunk_bytes_nonneg(kept: Seq<Seq<SampleInfo>>, chunk: Chunk)
    ensures
        chunk_bytes(kept, chunk) >= 0,
{
    let sizes = mp4io::write::sizes_of(kept[chunk.track_index as int]);
    sums::lemma_sum_to_monotone(sizes, chunk.start_sample as int, chunk.end());
}

/// More chunks have more bytes.
pub proof fn lemma_bytes_before_monotone(
    kept: Seq<Seq<SampleInfo>>,
    chunks: Seq<Chunk>,
    m: int,
    n: int,
)
    requires
        m <= n,
    ensures
        0 <= bytes_before(kept, chunks, m) <= bytes_before(kept, chunks, n),
    decreases n,
{
    if n > 0 {
        lemma_chunk_bytes_nonneg(kept, chunks[n - 1]);
        if m < n {
            lemma_bytes_before_monotone(kept, chunks, m, n - 1);
        } else {
            lemma_bytes_before_monotone(kept, chunks, m - 1, n - 1);
        }
    }
}

/// The bytes of the first `m` chunks, track by track, for the first `t` tracks.
spec fn bytes_by_track(kept: Seq<Seq<SampleInfo>>, chunks: Seq<Chunk>, m: int, t: int) -> int
    decreases t,
{
    if t <= 0 {
        0
    } else {
        let list = interleave::of_track(chunks, t - 1, m);
        bytes_by_track(kept, chunks, m, t - 1) + bytes_before(kept, list, list.len() as int)
    }
}

proof fn lemma_bytes_before_agree(
    kept: Seq<Seq<SampleInfo>>,
    a: Seq<Chunk>,
    b: Seq<Chunk>,
    m: int,
)
    requires
        forall|i: int| 0 <= i < m ==> #[trigger] a[i] == b[i],
    ensures
        bytes_before(kept, a, m) == bytes_before(kept, b, m),
    decreases m,
{
    if m > 0 {
        lemma_bytes_before_agree(kept, a, b, m - 1);
        assert(a[m - 1] == b[m - 1]);
    }
}

proof fn lemma_bytes_by_track_step(
    kept: Seq<Seq<SampleInfo>>,
    chunks: Seq<Chunk>,
    m: int,
    t: int,
)
    requires
        0 < m <= chunks.len(),
        0 <= t,
    ensures
        bytes_by_track(kept, chunks, m, t) == bytes_by_track(kept, chunks, m - 1, t) + (if chunks[m
            - 1].track_index < t {
            chunk_bytes(kept, chunks[m - 1])
        } else {
            0
        }),
    decreases t,
{
    if t > 0 {
        lemma_bytes_by_track_step(kept, chunks, m, t - 1);
        let before = interleave::of_track(chunks, t - 1, m - 1);
        let after = interleave::of_track(chunks, t - 1, m);
        if chunks[m - 1].track_index == t - 1 {
            assert(after == before.push(chunks[m - 1]));
            lemma_bytes_before_agree(kept, before, after, before.len() as int);
        }
    }
}

proof fn lemma_bytes_by_track_empty(kept: Seq<Seq<SampleInfo>>, chunks: Seq<Chunk>, t: int)
    ensures
        bytes_by_track(kept, chunks, 0, t) == 0,
    decreases t,
{
    if t > 0 {
        lemma_bytes_by_track_empty(kept, chunks, t - 1);
    }
}

proof fn lemma_bytes_before_is_by_track(
    kept: Seq<Seq<SampleInfo>>,
    chunks: Seq<Chunk>,
    m: int,
)
    requires
        0 <= m <= chunks.len(),
        forall|i: int| 0 <= i < chunks.len() ==> (#[trigger] chunks[i]).track_index < kept.len(),
    ensures
        bytes_before(kept, chunks, m) == bytes_by_track(kept, chunks, m, kept.len() as int),
    decreases m,
{
    if m == 0 {
        lemma_bytes_by_track_empty(kept, chunks, kept.len() as int);
    } else {
        lemma_bytes_before_is_by_track(kept, chunks, m - 1);
        lemma_bytes_by_track_step(kept, chunks, m, kept.len() as int);
    }
}

/// The chunks of a track, up to its chunk `c`, hold all samples before that chunk.
proof fn lemma_chunking_bytes(
    kept: Seq<Seq<SampleInfo>>,
    timescale: u32,
    t: int,
    list: Seq<Chunk>,
    c: int,
)
    requires
        0 <= t < kept.len(),
        t <= usize::MAX,
        mp4io::write::is_chunking(
            mp4io::write::durations_of(kept[t]),
            timescale,
            t as usize,
            list,
        ),
        0 <= c <= list.len(),
    ensures
        bytes_before(kept, list, c) == sums::sum_to(
            mp4io::write::sizes_of(kept[t]),
            if c < list.len() {
                list[c].start_sample as int
            } else {
                kept[t].len() as int
            },
        ),
    decreases c,
{
    if c == 0 {
        if list.len() == 0 {
            assert(mp4io::write::durations_of(kept[t]).len() == 0);
        }
    } else {
        lemma_chunking_bytes(kept, timescale, t, list, c - 1);
        let b = c - 1;
        assert(list[b].track_index == t);
        if c < list.len() {
            assert(list[c].start_sample == list[b].end());
        } else {
            assert(list[b].end() == kept[t].len());
        }
    }
}

proof fn lemma_bytes_by_track_total(
    kept: Seq<Seq<SampleInfo>>,
    timescales: Seq<u32>,
    chunks: Seq<Chunk>,
    t: int,
)
    requires
        interleave::keeps_tracks(kept, timescales, chunks),
        0 <= t <= kept.len(),
        kept.len() <= usize::MAX,
    ensures
        bytes_by_track(kept, chunks, chunks.len() as int, t) == total_bytes(kept, t),
    decreases t,
{
    if t > 0 {
        lemma_bytes_by_track_total(kept, timescales, chunks, t - 1);
        let list = interleave::of_track(chunks, t - 1, chunks.len() as int);
        lemma_chunking_bytes(kept, timescales[t - 1], t - 1, list, list.len() as int);
    }
}

/// All chunks together hold all samples of all tracks.
pub proof fn chunks_hold_all_bytes(
    kept: Seq<Seq<SampleInfo>>,
    timescales: Seq<u32>,
    chunks: Seq<Chunk>,
)
    requires
        interleave::keeps_tracks(kept, timescales, chunks),
        kept.len() <= usize::MAX,
    ensures
        bytes_before(kept, chunks, chunks.len() as int) == total_bytes(kept, kept.len() as int),
{
    lemma_bytes_before_is_by_track(kept, chunks, chunks.len() as int);
    lemma_bytes_by_track_total(kept, timescales, chunks, kept.len() as int);
}

/// Chunk `c` of a track lies at the position among all chunks at which its offset is
/// noted.
pub proof fn lemma_offset_position(
    kept: Seq<Seq<SampleInfo>>,
    chunks: Seq<Chunk>,
    body_start: int,
    t: int,
    n: int,
    c: int,
)
    requires
        0 <= n <= chunks.len(),
        0 <= c < interleave::of_track(chunks, t, n).len(),
    ensures
        offsets_of_track(kept, chunks, body_start, t, n).len() == interleave::of_track(
            chunks,
            t,
            n,
        ).len(),
        exists|m: int|
            {
                &&& 0 <= m < n
                &&& #[trigger] chunks[m] == interleave::of_track(chunks, t, n)[c]
                &&& offsets_of_track(kept, chunks, body_start, t, n)[c] == body_start
                    + bytes_before(kept, chunks, m)
            },
    decreases n,
{
    lemma_offset_count(kept, chunks, body_start, t, n);
    if n > 0 {
        lemma_offset_count(kept, chunks, body_start, t, n - 1);
        let before = interleave::of_track(chunks, t, n - 1);
        let offsets = offsets_of_track(kept, chunks, body_start, t, n - 1);
        if c < before.len() {
            lemma_offset_position(kept, chunks, body_start, t, n - 1, c);
            let m = choose|m: int|
                {
                    &&& 0 <= m < n - 1
                    &&& #[trigger] chunks[m] == before[c]
                    &&& offsets[c] == body_start + bytes_before(kept, chunks, m)
                };
            assert(chunks[m] == interleave::of_track(chunks, t, n)[c]);
        } else {
            assert(chunks[n - 1] == interleave::of_track(chunks, t, n)[c]);
        }
    }
}

/// A track has as many offsets as chunks.
pub proof fn lemma_offset_count(
    kept: Seq<Seq<SampleInfo>>,
    chunks: Seq<Chunk>,
    body_start: int,
    t: int,
    n: int,
)
    ensures
        offsets_of_track(kept, chunks, body_start, t, n).len() == interleave::of_track(
            chunks,
            t,
            n,
        ).len(),
    decreases n,
{
    if n > 0 {
        lemma_offset_count(kept, chunks, body_start, t, n - 1);
    }
}

} // verus!
