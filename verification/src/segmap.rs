//! The map from kept ranges of the input to the timeline of the output.
//!
//! Subtitles and chapters that were made for the input need it to follow a cut. Only the
//! ranges after snapping are right: recomputing them from the `Trim` list would be off by
//! seconds.

use crate::plan::SnappedRange;
use vstd::prelude::*;

verus! {

/// One kept range.
#[derive(Debug, Clone, Copy, PartialEq, Eq, Structural)]
pub struct Segment {
    /// The first frame in display order, after snapping.
    pub source_start_frame: u32,
    /// The first frame after the range.
    pub source_end_frame: u32,
    /// The decoding time of the first sample in the input, in units of the video timescale.
    /// This is no presentation time: that would be early by the reordering delay.
    pub source_start_dts: u64,
    /// The number of frames.
    pub frame_count: u32,
    /// Where the range starts in the output, in units of the video timescale.
    pub output_start: u64,
    /// How long the range is in the output, in units of the video timescale.
    pub duration: u64,
}

/// The map of all kept ranges.
#[derive(Debug, Clone)]
pub struct SegmentMap {
    /// The unit of all times.
    pub video_timescale: u32,
    pub frame_rate_num: u32,
    pub frame_rate_den: u32,
    /// The path of the input.
    pub input: String,
    /// The number of frames of the input.
    pub total_frames: u32,
    /// The kept ranges in their order.
    pub segments: Vec<Segment>,
}

/// The sum of the first `n` durations.
pub open spec fn duration_before(durations: Seq<u64>, n: int) -> int
    decreases n,
{
    if n <= 0 {
        0
    } else {
        duration_before(durations, n - 1) + durations[n - 1]
    }
}

/// The segment of a range that comes after `before` units of output.
pub open spec fn segment_of(
    range: SnappedRange,
    source_start_dts: u64,
    duration: u64,
    before: int,
) -> Segment {
    Segment {
        source_start_frame: range.start.snapped.0,
        source_end_frame: range.end.snapped.0,
        source_start_dts,
        frame_count: (range.end.snapped.0 - range.start.snapped.0) as u32,
        output_start: before as u64,
        duration,
    }
}

/// The frames of the first `n` segments.
pub open spec fn frames_before(segments: Seq<Segment>, n: int) -> int
    decreases n,
{
    if n <= 0 {
        0
    } else {
        frames_before(segments, n - 1) + segments[n - 1].frame_count
    }
}

/// The frames of the first `n` ranges.
pub open spec fn range_frames_before(ranges: Seq<SnappedRange>, n: int) -> int
    decreases n,
{
    if n <= 0 {
        0
    } else {
        range_frames_before(ranges, n - 1) + ranges[n - 1].end.snapped.0 - ranges[n
            - 1].start.snapped.0
    }
}

proof fn lemma_duration_monotone(durations: Seq<u64>, m: int, n: int)
    requires
        m <= n,
    ensures
        0 <= duration_before(durations, m) <= duration_before(durations, n),
    decreases n,
{
    if n > 0 {
        if m < n {
            lemma_duration_monotone(durations, m, n - 1);
        } else {
            lemma_duration_monotone(durations, m - 1, n - 1);
        }
    }
}

impl SegmentMap {
    /// Puts the map together from what was computed for each range. The three lists belong
    /// together, entry by entry.
    pub fn build(
        snapped: &[SnappedRange],
        source_starts: &[u64],
        durations: &[u64],
        video_timescale: u32,
        frame_rate_num: u32,
        frame_rate_den: u32,
        input: String,
        total_frames: u32,
    ) -> (map: SegmentMap)
        requires
            snapped@.len() == source_starts@.len(),
            snapped@.len() == durations@.len(),
            forall|i: int|
                0 <= i < snapped@.len() ==> (#[trigger] snapped@[i]).start.snapped.0
                    <= snapped@[i].end.snapped.0,
            duration_before(durations@, durations@.len() as int) <= u64::MAX,
        ensures
            map.video_timescale == video_timescale,
            map.frame_rate_num == frame_rate_num,
            map.frame_rate_den == frame_rate_den,
            map.input == input,
            map.total_frames == total_frames,
            map.segments@.len() == snapped@.len(),
            forall|i: int|
                0 <= i < snapped@.len() ==> #[trigger] map.segments@[i] == segment_of(
                    snapped@[i],
                    source_starts@[i],
                    durations@[i],
                    duration_before(durations@, i),
                ),
            forall|i: int|
                0 <= i < snapped@.len() ==> {
                    let range = snapped@[i];
                    &&& (#[trigger] map.segments@[i]).source_start_frame == range.start.snapped.0
                    &&& map.segments@[i].source_end_frame == range.end.snapped.0
                    &&& map.segments@[i].frame_count == range.end.snapped.0 - range.start.snapped.0
                    &&& map.segments@[i].source_start_dts == source_starts@[i]
                    &&& map.segments@[i].duration == durations@[i]
                },
            forall|i: int, j: int|
                0 <= i && j == i + 1 && j < map.segments@.len() ==> (
                #[trigger] map.segments@[j]).output_start == (
                #[trigger] map.segments@[i]).output_start + map.segments@[i].duration,
            map.segments@.len() > 0 ==> map.segments@[0].output_start == 0,
    {
        let mut segments: Vec<Segment> = Vec::new();
        let mut cursor: u64 = 0;
        let mut i: usize = 0;
        while i < snapped.len()
            invariant
                snapped@.len() == source_starts@.len(),
                snapped@.len() == durations@.len(),
                forall|j: int|
                    0 <= j < snapped@.len() ==> (#[trigger] snapped@[j]).start.snapped.0
                        <= snapped@[j].end.snapped.0,
                duration_before(durations@, durations@.len() as int) <= u64::MAX,
                i <= snapped@.len(),
                cursor == duration_before(durations@, i as int),
                segments@.len() == i,
                forall|j: int|
                    0 <= j < i ==> #[trigger] segments@[j] == segment_of(
                        snapped@[j],
                        source_starts@[j],
                        durations@[j],
                        duration_before(durations@, j),
                    ),
            decreases snapped@.len() - i,
        {
            let range: SnappedRange = snapped[i];
            let duration: u64 = durations[i];
            segments.push(
                Segment {
                    source_start_frame: range.start.snapped.0,
                    source_end_frame: range.end.snapped.0,
                    source_start_dts: source_starts[i],
                    frame_count: range.end.snapped.0 - range.start.snapped.0,
                    output_start: cursor,
                    duration,
                },
            );
            proof {
                lemma_duration_monotone(durations@, i + 1, durations@.len() as int);
            }
            cursor = cursor + duration;
            i += 1;
        }
        proof {
            assert forall|i: int, j: int|
                0 <= i && j == i + 1 && j < segments@.len() implies (
            #[trigger] segments@[j]).output_start == (#[trigger] segments@[i]).output_start
                + segments@[i].duration by {
                segments_follow_each_other(snapped@, source_starts@, durations@, segments@, i);
            }
            if segments@.len() > 0 {
                segments_follow_each_other(snapped@, source_starts@, durations@, segments@, 0);
            }
        }
        SegmentMap {
            video_timescale,
            frame_rate_num,
            frame_rate_den,
            input,
            total_frames,
            segments,
        }
    }
}

/// A segment speaks of its range after snapping, entry by entry: it starts and ends at the frames
/// that the ends of the range were moved to, has the frames between them, and has the decoding
/// time and the length that were given for the range. Where the ends were before does not matter:
/// ranges that were moved to the same frames give the same segments.
pub proof fn segments_speak_of_snapped_ranges(
    ranges: Seq<SnappedRange>,
    source_starts: Seq<u64>,
    durations: Seq<u64>,
    segments: Seq<Segment>,
    others: Seq<SnappedRange>,
    other_segments: Seq<Segment>,
)
    requires
        segments.len() == ranges.len(),
        other_segments.len() == others.len(),
        others.len() == ranges.len(),
        source_starts.len() == ranges.len(),
        durations.len() == ranges.len(),
        forall|j: int|
            0 <= j < ranges.len() ==> (#[trigger] ranges[j]).start.snapped.0
                <= ranges[j].end.snapped.0,
        forall|j: int|
            0 <= j < segments.len() ==> #[trigger] segments[j] == segment_of(
                ranges[j],
                source_starts[j],
                durations[j],
                duration_before(durations, j),
            ),
        forall|j: int|
            0 <= j < other_segments.len() ==> #[trigger] other_segments[j] == segment_of(
                others[j],
                source_starts[j],
                durations[j],
                duration_before(durations, j),
            ),
        forall|j: int|
            0 <= j < ranges.len() ==> {
                &&& (#[trigger] others[j]).start.snapped == ranges[j].start.snapped
                &&& others[j].end.snapped == ranges[j].end.snapped
            },
    ensures
        forall|i: int|
            0 <= i < segments.len() ==> {
                &&& (#[trigger] segments[i]).source_start_frame == ranges[i].start.snapped.0
                &&& segments[i].source_end_frame == ranges[i].end.snapped.0
                &&& segments[i].source_end_frame - segments[i].source_start_frame
                    == segments[i].frame_count
                &&& segments[i].source_start_dts == source_starts[i]
                &&& segments[i].duration == durations[i]
            },
        segments == other_segments,
{
    assert forall|i: int| 0 <= i < segments.len() implies segments[i] == other_segments[i] by {
        assert(others[i].start.snapped == ranges[i].start.snapped);
    }
    assert(segments =~= other_segments);
}

/// The output has no gaps: the first segment starts at 0, and every other one where the one
/// before it ends.
pub proof fn segments_follow_each_other(
    ranges: Seq<SnappedRange>,
    source_starts: Seq<u64>,
    durations: Seq<u64>,
    segments: Seq<Segment>,
    i: int,
)
    requires
        segments.len() == durations.len(),
        duration_before(durations, durations.len() as int) <= u64::MAX,
        forall|j: int|
            0 <= j < segments.len() ==> #[trigger] segments[j] == segment_of(
                ranges[j],
                source_starts[j],
                durations[j],
                duration_before(durations, j),
            ),
        0 <= i < segments.len(),
    ensures
        segments[0].output_start == 0,
        i + 1 < segments.len() ==> segments[i + 1].output_start == segments[i].output_start
            + segments[i].duration,
{
    lemma_duration_monotone(durations, i, i + 1);
    lemma_duration_monotone(durations, i + 1, durations.len() as int);
    assert(segments[0].output_start == duration_before(durations, 0));
}

/// The segments have as many frames as the kept ranges.
pub proof fn segments_keep_all_frames(
    ranges: Seq<SnappedRange>,
    source_starts: Seq<u64>,
    durations: Seq<u64>,
    segments: Seq<Segment>,
    n: int,
)
    requires
        forall|j: int|
            0 <= j < ranges.len() ==> (#[trigger] ranges[j]).start.snapped.0
                <= ranges[j].end.snapped.0,
        segments.len() == ranges.len(),
        forall|j: int|
            0 <= j < segments.len() ==> #[trigger] segments[j] == segment_of(
                ranges[j],
                source_starts[j],
                durations[j],
                duration_before(durations, j),
            ),
        0 <= n <= ranges.len(),
    ensures
        frames_before(segments, n) == range_frames_before(ranges, n),
    decreases n,
{
    if n > 0 {
        segments_keep_all_frames(ranges, source_starts, durations, segments, n - 1);
        assert(segments[n - 1].frame_count == ranges[n - 1].end.snapped.0 - ranges[n
            - 1].start.snapped.0);
    }
}

} // verus!
