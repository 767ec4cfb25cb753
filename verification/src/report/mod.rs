//! Reporting how far cut boundaries are from key frames.
//!
//! The report is made from a frame index and a `Trim` list alone, before anything is cut. It
//! tells how much more is kept, or lost, because boundaries have to move to key frames.
//! Times are sums of frame durations: frames need not be equally long.

pub mod fits;
pub mod lines;
pub mod missed;
pub mod sections;
pub mod totals;

use crate::cli::Snap;
use crate::dtvi;
use crate::dtvi::{Dtvi, DtviFrame};
use crate::jls::JlsEntry;
use crate::order::DisplayIdx;
use crate::text;
use crate::trim::{TrimList, TrimRange};
use vstd::prelude::*;

verus! {

/// Which end of a kept range a boundary is.
#[derive(Debug, Clone, Copy, PartialEq, Eq, Structural)]
pub enum BoundaryKind {
    /// The first frame of the range.
    Start,
    /// The first frame after the range.
    End,
}

/// A boundary and its distance from the key frames around it. Distances are in units of
/// the time base.
#[derive(Debug, Clone, Copy, PartialEq, Eq, Structural)]
pub struct BoundaryDistance {
    pub boundary: DisplayIdx,
    pub kind: BoundaryKind,
    /// The last key frame at or before the boundary.
    pub prev_keyframe: Option<DisplayIdx>,
    /// The time from that key frame to the boundary.
    pub prev_keyframe_units: Option<i64>,
    /// The first key frame at or after the boundary.
    pub next_keyframe: Option<DisplayIdx>,
    /// The time from the boundary to that key frame.
    pub next_keyframe_units: Option<i64>,
}

/// The totals of a report. Times are in units of the time base.
#[derive(Debug, Clone, Copy, PartialEq, Eq, Structural)]
pub struct ReportSummary {
    /// The number of kept ranges.
    pub kept_ranges: usize,
    /// The number of boundaries, two for each range.
    pub cut_boundaries: usize,
    /// By how many frames boundaries move, all together.
    pub extra_retained_frames_total: u32,
    /// How long these frames are.
    pub extra_retained_units: i64,
    /// How long the output is.
    pub output_units: i64,
}

/// The sum of the durations of frames `from` to `to`, the last not included.
pub open spec fn units_sum(frames: Seq<DtviFrame>, from: int, to: int) -> int
    decreases to - from,
{
    if to <= from {
        0
    } else {
        units_sum(frames, from, to - 1) + frames[to - 1].duration
    }
}

/// `i`, or the number of frames where `i` is larger.
pub open spec fn clamped(frames: Seq<DtviFrame>, i: u32) -> int {
    if i < frames.len() {
        i as int
    } else {
        frames.len() as int
    }
}

/// How long frames `from` to `to` are, as far as they exist.
pub open spec fn units_between(frames: Seq<DtviFrame>, from: u32, to: u32) -> int {
    units_sum(frames, clamped(frames, from), clamped(frames, to))
}

proof fn lemma_units_bound(frames: Seq<DtviFrame>, from: int, to: int)
    requires
        from <= to,
    ensures
        (to - from) * i64::MIN <= units_sum(frames, from, to) <= (to - from) * i64::MAX,
    decreases to - from,
{
    if from < to {
        lemma_units_bound(frames, from, to - 1);
        assert((to - from) * i64::MIN == (to - 1 - from) * i64::MIN + i64::MIN)
            by (nonlinear_arith);
        assert((to - from) * i64::MAX == (to - 1 - from) * i64::MAX + i64::MAX)
            by (nonlinear_arith);
    }
}

/// How long frames `from` to `to` are, as far as they exist, in 128 bits.
pub(crate) fn wide_units_between(dtvi: &Dtvi, from: u32, to: u32) -> (units: i128)
    requires
        dtvi.frames@.len() <= u32::MAX,
    ensures
        units == units_between(dtvi.frames@, from, to),
        -0x1_0000_0000_0000_0000_0000_0000 <= units <= 0x1_0000_0000_0000_0000_0000_0000,
{
    let len: usize = dtvi.frames.len();
    let from: usize = if (from as usize) < len {
        from as usize
    } else {
        len
    };
    let to: usize = if (to as usize) < len {
        to as usize
    } else {
        len
    };
    if from >= to {
        return 0;
    }
    let mut units: i128 = 0;
    let mut i: usize = from;
    while i < to
        invariant
            from <= i <= to <= dtvi.frames@.len() <= u32::MAX,
            units == units_sum(dtvi.frames@, from as int, i as int),
            -0x1_0000_0000_0000_0000_0000_0000 <= units <= 0x1_0000_0000_0000_0000_0000_0000,
        decreases to - i,
    {
        proof {
            lemma_units_bound(dtvi.frames@, from as int, i + 1);
            assert(-0x1_0000_0000_0000_0000_0000_0000 <= (i + 1 - from) * i64::MIN)
                by (nonlinear_arith)
                requires
                    0 <= i + 1 - from <= u32::MAX,
            ;
            assert((i + 1 - from) * i64::MAX <= 0x1_0000_0000_0000_0000_0000_0000)
                by (nonlinear_arith)
                requires
                    0 <= i + 1 - from <= u32::MAX,
            ;
        }
        units = units + dtvi.frames[i].duration as i128;
        i += 1;
    }
    units
}

/// How long frames `from` to `to` are, as far as they exist.
pub fn duration_units_between(dtvi: &Dtvi, from: u32, to: u32) -> (units: i64)
    requires
        dtvi.frames@.len() <= u32::MAX,
        i64::MIN <= units_between(dtvi.frames@, from, to) <= i64::MAX,
    ensures
        units == units_between(dtvi.frames@, from, to),
{
    wide_units_between(dtvi, from, to) as i64
}

/// Frame numbers that do not descend.
pub open spec fn ascending(keyframes: Seq<u32>) -> bool {
    forall|a: int, b: int|
        0 <= a < b < keyframes.len() ==> #[trigger] keyframes[a] <= #[trigger] keyframes[b]
}

/// The last of the first `n` key frames that is at most `boundary`.
pub open spec fn keyframe_before(keyframes: Seq<u32>, boundary: u32, n: int) -> Option<u32>
    decreases n,
{
    if n <= 0 {
        None
    } else if keyframes[n - 1] <= boundary {
        Some(keyframes[n - 1])
    } else {
        keyframe_before(keyframes, boundary, n - 1)
    }
}

/// The first key frame, from position `i` on, that is at least `boundary`.
pub open spec fn keyframe_after(keyframes: Seq<u32>, boundary: u32, i: int) -> Option<u32>
    decreases keyframes.len() - i,
{
    if i < 0 || i >= keyframes.len() {
        None
    } else if keyframes[i] >= boundary {
        Some(keyframes[i])
    } else {
        keyframe_after(keyframes, boundary, i + 1)
    }
}

/// The key frames around `boundary`.
pub open spec fn keyframes_around(keyframes: Seq<u32>, boundary: u32) -> (
    Option<u32>,
    Option<u32>,
) {
    (
        keyframe_before(keyframes, boundary, keyframes.len() as int),
        keyframe_after(keyframes, boundary, 0),
    )
}

proof fn lemma_before_skips(keyframes: Seq<u32>, boundary: u32, m: int, n: int)
    requires
        0 <= m <= n <= keyframes.len(),
        forall|k: int| m <= k < n ==> #[trigger] keyframes[k] > boundary,
        m > 0 ==> keyframes[m - 1] <= boundary,
    ensures
        keyframe_before(keyframes, boundary, n) == (if m > 0 {
            Some(keyframes[m - 1])
        } else {
            None
        }),
    decreases n,
{
    if m < n {
        lemma_before_skips(keyframes, boundary, m, n - 1);
    }
}

proof fn lemma_after_skips(keyframes: Seq<u32>, boundary: u32, i: int, m: int)
    requires
        0 <= i <= m <= keyframes.len(),
        forall|k: int| i <= k < m ==> #[trigger] keyframes[k] < boundary,
        m < keyframes.len() ==> keyframes[m] >= boundary,
    ensures
        keyframe_after(keyframes, boundary, i) == (if m < keyframes.len() {
            Some(keyframes[m])
        } else {
            None
        }),
    decreases m - i,
{
    if i < m {
        lemma_after_skips(keyframes, boundary, i + 1, m);
    }
}

/// The number of key frames below `bound`, where these come first.
fn count_below(keyframes: &[u32], bound: u64) -> (n: usize)
    requires
        ascending(keyframes@),
    ensures
        n <= keyframes@.len(),
        forall|k: int| 0 <= k < n ==> #[trigger] keyframes@[k] < bound,
        forall|k: int| n <= k < keyframes@.len() ==> #[trigger] keyframes@[k] >= bound,
{
    let mut lo: usize = 0;
    let mut hi: usize = keyframes.len();
    while lo < hi
        invariant
            ascending(keyframes@),
            lo <= hi <= keyframes@.len(),
            forall|k: int| 0 <= k < lo ==> #[trigger] keyframes@[k] < bound,
            forall|k: int| hi <= k < keyframes@.len() ==> #[trigger] keyframes@[k] >= bound,
        decreases hi - lo,
    {
        let mid: usize = lo + (hi - lo) / 2;
        if (keyframes[mid] as u64) < bound {
            proof {
                assert forall|k: int| 0 <= k < mid + 1 implies #[trigger] keyframes@[k] < bound by {
                    if k < mid {
                        assert(keyframes@[k] <= keyframes@[mid as int]);
                    }
                }
            }
            lo = mid + 1;
        } else {
            proof {
                assert forall|k: int| mid <= k < keyframes@.len() implies #[trigger] keyframes@[k]
                    >= bound by {
                    if k > mid {
                        assert(keyframes@[mid as int] <= keyframes@[k]);
                    }
                }
            }
            hi = mid;
        }
    }
    lo
}

/// The last key frame at or before `boundary`, and the first one at or after it. Key frames
/// need not be evenly spaced.
pub fn nearest_keyframes(keyframes: &[u32], boundary: u32) -> (r: (Option<u32>, Option<u32>))
    requires
        ascending(keyframes@),
    ensures
        r == keyframes_around(keyframes@, boundary),
{
    let at_or_before: usize = count_below(keyframes, boundary as u64 + 1);
    let before: usize = count_below(keyframes, boundary as u64);
    proof {
        lemma_before_skips(keyframes@, boundary, at_or_before as int, keyframes@.len() as int);
        lemma_after_skips(keyframes@, boundary, 0, before as int);
    }
    let prev: Option<u32> = if at_or_before > 0 {
        Some(keyframes[at_or_before - 1])
    } else {
        None
    };
    let next: Option<u32> = if before < keyframes.len() {
        Some(keyframes[before])
    } else {
        None
    };
    (prev, next)
}

/// The numbers of the key frames among the first `n` frames.
pub open spec fn keyframes_to(frames: Seq<DtviFrame>, n: int) -> Seq<u32>
    decreases n,
{
    if n <= 0 {
        Seq::empty()
    } else if frames[n - 1].has_flag(dtvi::FLAG_KEY_PACKET) {
        keyframes_to(frames, n - 1).push(frames[n - 1].frame_number.0)
    } else {
        keyframes_to(frames, n - 1)
    }
}

/// The numbers of all key frames.
pub open spec fn keyframes_of(frames: Seq<DtviFrame>) -> Seq<u32> {
    keyframes_to(frames, frames.len() as int)
}

/// The numbers of the key frames.
pub fn keyframe_numbers(dtvi: &Dtvi) -> (numbers: Vec<u32>)
    ensures
        numbers@ == keyframes_of(dtvi.frames@),
{
    let mut numbers: Vec<u32> = Vec::new();
    let mut i: usize = 0;
    while i < dtvi.frames.len()
        invariant
            i <= dtvi.frames@.len(),
            numbers@ == keyframes_to(dtvi.frames@, i as int),
        decreases dtvi.frames@.len() - i,
    {
        if dtvi.frames[i].is_key_packet() {
            numbers.push(dtvi.frames[i].frame_number.0);
        }
        i += 1;
    }
    numbers
}

/// The distance of a boundary from the key frames around it.
pub open spec fn distance_of(
    frames: Seq<DtviFrame>,
    boundary: DisplayIdx,
    kind: BoundaryKind,
) -> BoundaryDistance {
    let (prev, next) = keyframes_around(keyframes_of(frames), boundary.0);
    BoundaryDistance {
        boundary,
        kind,
        prev_keyframe: match prev {
            Some(k) => Some(DisplayIdx(k)),
            None => None,
        },
        prev_keyframe_units: match prev {
            Some(k) => Some(units_between(frames, k, boundary.0) as i64),
            None => None,
        },
        next_keyframe: match next {
            Some(k) => Some(DisplayIdx(k)),
            None => None,
        },
        next_keyframe_units: match next {
            Some(k) => Some(units_between(frames, boundary.0, k) as i64),
            None => None,
        },
    }
}

/// The distances of a boundary fit in 64 bits.
pub open spec fn distance_fits(frames: Seq<DtviFrame>, boundary: DisplayIdx) -> bool {
    let (prev, next) = keyframes_around(keyframes_of(frames), boundary.0);
    &&& prev matches Some(k) ==> i64::MIN <= units_between(frames, k, boundary.0) <= i64::MAX
    &&& next matches Some(k) ==> i64::MIN <= units_between(frames, boundary.0, k) <= i64::MAX
}

/// Distances can be computed: frames are numbered with 32 bits, key frames ascend, and the
/// distances of all boundaries fit in 64 bits.
pub open spec fn distances_fit(ranges: Seq<TrimRange>, frames: Seq<DtviFrame>) -> bool {
    &&& frames.len() <= u32::MAX
    &&& ascending(keyframes_of(frames))
    &&& forall|i: int|
        0 <= i < ranges.len() ==> distance_fits(frames, (#[trigger] ranges[i]).start)
            && distance_fits(frames, ranges[i].end)
}

/// The distances of both boundaries of the first `n` ranges.
pub open spec fn distances_to(ranges: Seq<TrimRange>, frames: Seq<DtviFrame>, n: int) -> Seq<
    BoundaryDistance,
>
    decreases n,
{
    if n <= 0 {
        Seq::empty()
    } else {
        distances_to(ranges, frames, n - 1).push(
            distance_of(frames, ranges[n - 1].start, BoundaryKind::Start),
        ).push(distance_of(frames, ranges[n - 1].end, BoundaryKind::End))
    }
}

fn distance_for_boundary(
    dtvi: &Dtvi,
    keyframes: &Vec<u32>,
    boundary: DisplayIdx,
    kind: BoundaryKind,
) -> (d: BoundaryDistance)
    requires
        dtvi.frames@.len() <= u32::MAX,
        keyframes@ == keyframes_of(dtvi.frames@),
        ascending(keyframes@),
        distance_fits(dtvi.frames@, boundary),
    ensures
        d == distance_of(dtvi.frames@, boundary, kind),
{
    let (prev, next) = nearest_keyframes(keyframes.as_slice(), boundary.0);
    BoundaryDistance {
        boundary,
        kind,
        prev_keyframe: match prev {
            Some(k) => Some(DisplayIdx(k)),
            None => None,
        },
        prev_keyframe_units: match prev {
            Some(k) => Some(duration_units_between(dtvi, k, boundary.0)),
            None => None,
        },
        next_keyframe: match next {
            Some(k) => Some(DisplayIdx(k)),
            None => None,
        },
        next_keyframe_units: match next {
            Some(k) => Some(duration_units_between(dtvi, boundary.0, k)),
            None => None,
        },
    }
}

/// The distances of all boundaries, the start and the end of each range in turn.
pub fn boundary_distances(trim: &TrimList, dtvi: &Dtvi) -> (distances: Vec<BoundaryDistance>)
    requires
        distances_fit(trim@, dtvi.frames@),
    ensures
        distances@ == distances_to(trim@, dtvi.frames@, trim@.len() as int),
        distances@.len() == 2 * trim@.len(),
{
    let keyframes: Vec<u32> = keyframe_numbers(dtvi);
    let ranges = trim.ranges();
    let mut distances: Vec<BoundaryDistance> = Vec::new();
    let mut i: usize = 0;
    while i < ranges.len()
        invariant
            distances_fit(trim@, dtvi.frames@),
            keyframes@ == keyframes_of(dtvi.frames@),
            ranges@ == trim@,
            i <= ranges@.len(),
            distances@ == distances_to(trim@, dtvi.frames@, i as int),
            distances@.len() == 2 * i,
        decreases ranges@.len() - i,
    {
        let range: TrimRange = ranges[i];
        assert(distance_fits(dtvi.frames@, trim@[i as int].start));
        distances.push(
            distance_for_boundary(dtvi, &keyframes, range.start, BoundaryKind::Start),
        );
        distances.push(distance_for_boundary(dtvi, &keyframes, range.end, BoundaryKind::End));
        i += 1;
    }
    distances
}

/// Where the start of a range moves to.
pub open spec fn report_start(keyframes: Seq<u32>, snap: Snap, start: u32) -> u32 {
    let (prev, next) = keyframes_around(keyframes, start);
    match (match snap {
        Snap::Outward => prev,
        Snap::Inward => next,
    }) {
        Some(k) => k,
        None => start,
    }
}

/// Where the end of a range moves to.
pub open spec fn report_end(keyframes: Seq<u32>, snap: Snap, end: u32) -> u32 {
    let (prev, next) = keyframes_around(keyframes, end);
    match (match snap {
        Snap::Outward => next,
        Snap::Inward => prev,
    }) {
        Some(k) => k,
        None => end,
    }
}

/// The distance of two frame numbers.
pub open spec fn frames_apart(a: u32, b: u32) -> int {
    if a <= b {
        b - a
    } else {
        a - b
    }
}

/// How long the frames between two frame numbers are.
pub open spec fn units_apart(frames: Seq<DtviFrame>, a: u32, b: u32) -> int {
    if a <= b {
        units_between(frames, a, b)
    } else {
        units_between(frames, b, a)
    }
}

/// By how many frames the boundaries of the first `n` ranges move.
pub open spec fn moved_frames(
    ranges: Seq<TrimRange>,
    keyframes: Seq<u32>,
    snap: Snap,
    n: int,
) -> int
    decreases n,
{
    if n <= 0 {
        0
    } else {
        let start = ranges[n - 1].start.0;
        let end = ranges[n - 1].end.0;
        moved_frames(ranges, keyframes, snap, n - 1) + frames_apart(
            start,
            report_start(keyframes, snap, start),
        ) + frames_apart(end, report_end(keyframes, snap, end))
    }
}

/// How long the frames are by which the boundaries of the first `n` ranges move.
pub open spec fn moved_units(
    ranges: Seq<TrimRange>,
    frames: Seq<DtviFrame>,
    snap: Snap,
    n: int,
) -> int
    decreases n,
{
    if n <= 0 {
        0
    } else {
        let keyframes = keyframes_of(frames);
        let start = ranges[n - 1].start.0;
        let end = ranges[n - 1].end.0;
        moved_units(ranges, frames, snap, n - 1) + units_apart(
            frames,
            start,
            report_start(keyframes, snap, start),
        ) + units_apart(frames, end, report_end(keyframes, snap, end))
    }
}

/// How long the first `n` ranges are after their boundaries have moved.
pub open spec fn kept_units(
    ranges: Seq<TrimRange>,
    frames: Seq<DtviFrame>,
    snap: Snap,
    n: int,
) -> int
    decreases n,
{
    if n <= 0 {
        0
    } else {
        let keyframes = keyframes_of(frames);
        kept_units(ranges, frames, snap, n - 1) + units_apart(
            frames,
            report_start(keyframes, snap, ranges[n - 1].start.0),
            report_end(keyframes, snap, ranges[n - 1].end.0),
        )
    }
}

/// The totals can be computed: frames are numbered with 32 bits, key frames ascend, and the
/// totals, range by range, fit in their fields.
pub open spec fn totals_fit(ranges: Seq<TrimRange>, frames: Seq<DtviFrame>, snap: Snap) -> bool {
    let n = ranges.len() as int;
    &&& frames.len() <= u32::MAX
    &&& ascending(keyframes_of(frames))
    &&& moved_frames(ranges, keyframes_of(frames), snap, n) <= u32::MAX
    &&& forall|m: int|
        0 <= m <= n ==> i64::MIN <= #[trigger] moved_units(ranges, frames, snap, m) <= i64::MAX
    &&& forall|m: int|
        0 <= m <= n ==> i64::MIN <= #[trigger] kept_units(ranges, frames, snap, m) <= i64::MAX
}

/// More ranges move by at least as many frames.
pub proof fn lemma_moved_frames_monotone(
    ranges: Seq<TrimRange>,
    keyframes: Seq<u32>,
    snap: Snap,
    m: int,
    n: int,
)
    requires
        m <= n,
    ensures
        0 <= moved_frames(ranges, keyframes, snap, m) <= moved_frames(ranges, keyframes, snap, n),
    decreases n,
{
    if n > 0 {
        if m < n {
            lemma_moved_frames_monotone(ranges, keyframes, snap, m, n - 1);
        } else {
            lemma_moved_frames_monotone(ranges, keyframes, snap, m - 1, n - 1);
        }
    }
}

pub(crate) fn wide_units_apart(dtvi: &Dtvi, a: u32, b: u32) -> (units: i128)
    requires
        dtvi.frames@.len() <= u32::MAX,
    ensures
        units == units_apart(dtvi.frames@, a, b),
        -0x1_0000_0000_0000_0000_0000_0000 <= units <= 0x1_0000_0000_0000_0000_0000_0000,
{
    if a <= b {
        wide_units_between(dtvi, a, b)
    } else {
        wide_units_between(dtvi, b, a)
    }
}

/// Where the boundaries of a range move to.
pub(crate) fn snapped_range(keyframes: &Vec<u32>, snap: Snap, start: u32, end: u32) -> (r: (
    u32,
    u32,
))
    requires
        ascending(keyframes@),
    ensures
        r == (report_start(keyframes@, snap, start), report_end(keyframes@, snap, end)),
{
    let (start_prev, start_next) = nearest_keyframes(keyframes.as_slice(), start);
    let (end_prev, end_next) = nearest_keyframes(keyframes.as_slice(), end);
    let (start_found, end_found): (Option<u32>, Option<u32>) = match snap {
        Snap::Outward => (start_prev, end_next),
        Snap::Inward => (start_next, end_prev),
    };
    let snapped_start: u32 = match start_found {
        Some(k) => k,
        None => start,
    };
    let snapped_end: u32 = match end_found {
        Some(k) => k,
        None => end,
    };
    (snapped_start, snapped_end)
}

/// The totals for boundaries that move to key frames in the direction `snap`.
pub fn summarize(trim: &TrimList, dtvi: &Dtvi, snap: Snap) -> (summary: ReportSummary)
    requires
        totals_fit(trim@, dtvi.frames@, snap),
        2 * trim@.len() <= usize::MAX,
    ensures
        is_summary(trim@, dtvi.frames@, snap, summary),
{
    let keyframes: Vec<u32> = keyframe_numbers(dtvi);
    let ranges = trim.ranges();
    let ghost key = keyframes_of(dtvi.frames@);
    let mut frames_total: u32 = 0;
    let mut moved: i128 = 0;
    let mut kept: i128 = 0;
    let mut i: usize = 0;
    while i < ranges.len()
        invariant
            totals_fit(trim@, dtvi.frames@, snap),
            key == keyframes_of(dtvi.frames@),
            keyframes@ == key,
            ranges@ == trim@,
            i <= ranges@.len(),
            frames_total == moved_frames(trim@, key, snap, i as int),
            moved == moved_units(trim@, dtvi.frames@, snap, i as int),
            kept == kept_units(trim@, dtvi.frames@, snap, i as int),
            i64::MIN <= moved <= i64::MAX,
            i64::MIN <= kept <= i64::MAX,
        decreases ranges@.len() - i,
    {
        let start: u32 = ranges[i].start.0;
        let end: u32 = ranges[i].end.0;
        let (snapped_start, snapped_end) = snapped_range(&keyframes, snap, start, end);
        proof {
            lemma_moved_frames_monotone(trim@, key, snap, i + 1, trim@.len() as int);
        }
        let start_frames: u32 = if start <= snapped_start {
            snapped_start - start
        } else {
            start - snapped_start
        };
        let end_frames: u32 = if end <= snapped_end {
            snapped_end - end
        } else {
            end - snapped_end
        };
        frames_total = frames_total + start_frames + end_frames;
        moved = moved + wide_units_apart(dtvi, start, snapped_start) + wide_units_apart(
            dtvi,
            end,
            snapped_end,
        );
        kept = kept + wide_units_apart(dtvi, snapped_start, snapped_end);
        i += 1;
        assert(moved == moved_units(trim@, dtvi.frames@, snap, i as int));
        assert(kept == kept_units(trim@, dtvi.frames@, snap, i as int));
    }
    ReportSummary {
        kept_ranges: ranges.len(),
        cut_boundaries: ranges.len() * 2,
        extra_retained_frames_total: frames_total,
        extra_retained_units: moved as i64,
        output_units: kept as i64,
    }
}

/// The times in a report as text.
pub struct ReportTexts {
    /// How much more is kept, in seconds with one decimal.
    pub extra_total: String,
    /// The same for one boundary on average, in seconds with two decimals.
    pub extra_average: String,
    /// The length of the output, in minutes and seconds.
    pub output_length: String,
    /// For each boundary, the distances from the key frames before and after it, in seconds
    /// with a sign and two decimals. The text of a key frame that does not exist is not used.
    pub boundaries: Vec<(String, String)>,
}

/// `text` with spaces behind it, up to a total of `width` characters.
pub open spec fn left_aligned(text: Seq<char>, width: nat) -> Seq<char> {
    if text.len() < width {
        text + Seq::new((width - text.len()) as nat, |i: int| ' ')
    } else {
        text
    }
}

/// `n` with a sign.
pub open spec fn with_sign(n: int) -> Seq<char> {
    if n >= 0 {
        "+"@ + text::decimal(n as nat)
    } else {
        text::signed_decimal(n)
    }
}

/// A key frame and its distance, or a dash where there is none.
pub open spec fn keyframe_column(keyframe: Option<DisplayIdx>, seconds: Seq<char>) -> Seq<char> {
    match keyframe {
        Some(k) => text::right_aligned(text::decimal(k.0 as nat), 6) + " ("@ + seconds + "s)"@,
        None => "     -"@,
    }
}

/// The line of a report about one boundary.
pub open spec fn boundary_line(
    d: BoundaryDistance,
    prev_seconds: Seq<char>,
    next_seconds: Seq<char>,
) -> Seq<char> {
    "境界("@ + (match d.kind {
        BoundaryKind::Start => "開始"@,
        BoundaryKind::End => "終了"@,
    }) + ") "@ + text::right_aligned(text::decimal(d.boundary.0 as nat), 6) + " : 直前KF="@
        + keyframe_column(d.prev_keyframe, prev_seconds) + "  直後KF="@ + keyframe_column(
        d.next_keyframe,
        next_seconds,
    ) + "\n"@
}

/// The lines of a report about the first `n` boundaries.
pub open spec fn boundary_lines(
    distances: Seq<BoundaryDistance>,
    texts: Seq<(String, String)>,
    n: int,
) -> Seq<char>
    decreases n,
{
    if n <= 0 {
        Seq::empty()
    } else {
        boundary_lines(distances, texts, n - 1) + boundary_line(
            distances[n - 1],
            texts[n - 1].0@,
            texts[n - 1].1@,
        )
    }
}

/// The line of a report about one commercial.
pub open spec fn cm_line(entry: JlsEntry) -> Seq<char> {
    "  "@ + text::right_aligned(text::decimal(entry.start as nat), 6) + "-"@ + left_aligned(
        text::decimal(entry.end as nat),
        6,
    ) + " 誤差 "@ + with_sign(entry.error_frames as int) + " フレーム\n"@
}

/// The lines of a report about the commercials among the first `n` sections, under a
/// heading where there are any.
pub open spec fn cm_lines(entries: Seq<JlsEntry>, n: int) -> Seq<char>
    decreases n,
{
    if n <= 0 {
        Seq::empty()
    } else if entries[n - 1].spec_is_cm() {
        (if cm_lines(entries, n - 1).len() == 0 {
            "\nCM ブロックの15秒格子誤差:\n"@
        } else {
            cm_lines(entries, n - 1)
        }) + cm_line(entries[n - 1])
    } else {
        cm_lines(entries, n - 1)
    }
}

/// The text of a report.
pub open spec fn report_text(
    kept_ranges: nat,
    distances: Seq<BoundaryDistance>,
    entries: Seq<JlsEntry>,
    texts: ReportTexts,
) -> Seq<char> {
    "保持区間数 "@ + text::decimal(kept_ranges) + " / カット境界数 "@ + text::decimal(
        2 * kept_ranges,
    ) + "\n余分に残る量 "@ + texts.extra_total@ + "s（境界あたり平均 "@ + texts.extra_average@
        + "s）\n出力の長さ "@ + texts.output_length@ + "\n\n"@ + boundary_lines(
        distances,
        texts.boundaries@,
        distances.len() as int,
    ) + cm_lines(entries, entries.len() as int)
}

fn push_keyframe_column(out: &mut String, keyframe: Option<DisplayIdx>, seconds: &String)
    ensures
        final(out)@ == old(out)@ + keyframe_column(keyframe, seconds@),
{
    match keyframe {
        Some(k) => {
            text::push_u64_right_aligned(out, k.0 as u64, 6);
            out.append(" (");
            out.append(seconds.as_str());
            out.append("s)");
        },
        None => {
            out.append("     -");
        },
    }
    assert(out@ =~= old(out)@ + keyframe_column(keyframe, seconds@));
}

fn push_boundary_line(
    out: &mut String,
    d: &BoundaryDistance,
    prev_seconds: &String,
    next_seconds: &String,
)
    ensures
        final(out)@ == old(out)@ + boundary_line(*d, prev_seconds@, next_seconds@),
{
    out.append("境界(");
    match d.kind {
        BoundaryKind::Start => {
            out.append("開始");
        },
        BoundaryKind::End => {
            out.append("終了");
        },
    }
    out.append(") ");
    text::push_u64_right_aligned(out, d.boundary.0 as u64, 6);
    out.append(" : 直前KF=");
    push_keyframe_column(out, d.prev_keyframe, prev_seconds);
    out.append("  直後KF=");
    push_keyframe_column(out, d.next_keyframe, next_seconds);
    out.append("\n");
    assert(out@ =~= old(out)@ + boundary_line(*d, prev_seconds@, next_seconds@));
}

fn push_u64_left_aligned(out: &mut String, n: u64, width: usize)
    ensures
        final(out)@ == old(out)@ + left_aligned(text::decimal(n as nat), width as nat),
{
    let digits: String = text::u64_text(n);
    let len: usize = digits.as_str().unicode_len();
    out.append(digits.as_str());
    let ghost before = out@;
    let mut column: usize = len;
    assert(out@ =~= before + Seq::new(0, |i: int| ' '));
    while column < width
        invariant
            len == digits@.len(),
            len <= column,
            len <= width ==> column <= width,
            len > width ==> column == len,
            out@ == before + Seq::new((column - len) as nat, |i: int| ' '),
        decreases width - column,
    {
        proof {
            reveal_strlit(" ");
        }
        out.append(" ");
        column += 1;
        assert(out@ =~= before + Seq::new((column - len) as nat, |i: int| ' '));
    }
    assert(out@ =~= old(out)@ + left_aligned(text::decimal(n as nat), width as nat));
}

fn push_cm_line(out: &mut String, entry: &JlsEntry)
    ensures
        final(out)@ == old(out)@ + cm_line(*entry),
{
    out.append("  ");
    text::push_u64_right_aligned(out, entry.start as u64, 6);
    out.append("-");
    push_u64_left_aligned(out, entry.end as u64, 6);
    out.append(" 誤差 ");
    if entry.error_frames >= 0 {
        out.append("+");
    }
    text::push_i64(out, entry.error_frames);
    out.append(" フレーム\n");
    assert(out@ =~= old(out)@ + cm_line(*entry));
}

/// Puts the text of a report together.
pub fn assemble_report(
    kept_ranges: usize,
    distances: &Vec<BoundaryDistance>,
    jls_entries: &[JlsEntry],
    texts: &ReportTexts,
) -> (out: String)
    requires
        2 * kept_ranges <= usize::MAX,
        texts.boundaries@.len() == distances@.len(),
    ensures
        out@ == report_text(kept_ranges as nat, distances@, jls_entries@, *texts),
{
    let mut out = String::new();
    out.append("保持区間数 ");
    text::push_u64(&mut out, kept_ranges as u64);
    out.append(" / カット境界数 ");
    text::push_u64(&mut out, (kept_ranges * 2) as u64);
    out.append("\n余分に残る量 ");
    out.append(texts.extra_total.as_str());
    out.append("s（境界あたり平均 ");
    out.append(texts.extra_average.as_str());
    out.append("s）\n出力の長さ ");
    out.append(texts.output_length.as_str());
    out.append("\n\n");
    let ghost head = out@;
    let mut i: usize = 0;
    assert(out@ =~= head + boundary_lines(distances@, texts.boundaries@, 0));
    while i < distances.len()
        invariant
            texts.boundaries@.len() == distances@.len(),
            i <= distances@.len(),
            out@ == head + boundary_lines(distances@, texts.boundaries@, i as int),
        decreases distances@.len() - i,
    {
        push_boundary_line(
            &mut out,
            &distances[i],
            &texts.boundaries[i].0,
            &texts.boundaries[i].1,
        );
        i += 1;
        assert(out@ =~= head + boundary_lines(distances@, texts.boundaries@, i as int));
    }
    let ghost middle = out@;
    let mut any: bool = false;
    let mut i: usize = 0;
    assert(out@ =~= middle + cm_lines(jls_entries@, 0));
    while i < jls_entries.len()
        invariant
            i <= jls_entries@.len(),
            out@ == middle + cm_lines(jls_entries@, i as int),
            any == (cm_lines(jls_entries@, i as int).len() > 0),
        decreases jls_entries@.len() - i,
    {
        let entry = &jls_entries[i];
        if entry.is_cm() {
            if !any {
                out.append("\nCM ブロックの15秒格子誤差:\n");
            }
            any = true;
            push_cm_line(&mut out, entry);
            proof {
                reveal_strlit("  ");
            }
        }
        i += 1;
        assert(out@ =~= middle + cm_lines(jls_entries@, i as int));
    }
    assert(out@ =~= report_text(kept_ranges as nat, distances@, jls_entries@, *texts));
    out
}

/// A time in a report that is to be shown, in units of the time base.
#[derive(Debug, Clone, Copy, PartialEq, Eq, Structural)]
pub enum ReportTime {
    /// How much more is kept.
    ExtraTotal { units: i64 },
    /// How much more is kept, to be divided by the number of boundaries.
    ExtraAverage { units: i64, boundaries: usize },
    /// The length of the output.
    OutputLength { units: i64 },
    /// From the key frame before a boundary to the boundary.
    SincePrevKeyframe { units: i64 },
    /// From a boundary to the key frame after it.
    UntilNextKeyframe { units: i64 },
}

/// `texts` holds what `render` makes of the times of a report.
pub open spec fn are_rendered<F: Fn(ReportTime) -> String>(
    render: F,
    summary: ReportSummary,
    distances: Seq<BoundaryDistance>,
    texts: ReportTexts,
) -> bool {
    &&& render.ensures(
        (ReportTime::ExtraTotal { units: summary.extra_retained_units },),
        texts.extra_total,
    )
    &&& render.ensures(
        (
            ReportTime::ExtraAverage {
                units: summary.extra_retained_units,
                boundaries: summary.cut_boundaries,
            },
        ),
        texts.extra_average,
    )
    &&& render.ensures(
        (ReportTime::OutputLength { units: summary.output_units },),
        texts.output_length,
    )
    &&& texts.boundaries@.len() == distances.len()
    &&& forall|i: int|
        0 <= i < distances.len() ==> {
            &&& (#[trigger] distances[i]).prev_keyframe_units matches Some(units)
                ==> render.ensures(
                (ReportTime::SincePrevKeyframe { units },),
                texts.boundaries@[i].0,
            )
            &&& distances[i].next_keyframe_units matches Some(units) ==> render.ensures(
                (ReportTime::UntilNextKeyframe { units },),
                texts.boundaries@[i].1,
            )
        }
}

/// `summary` holds the totals for boundaries that move in the direction `snap`.
pub open spec fn is_summary(
    ranges: Seq<TrimRange>,
    frames: Seq<DtviFrame>,
    snap: Snap,
    summary: ReportSummary,
) -> bool {
    let n = ranges.len() as int;
    &&& summary.kept_ranges == n
    &&& summary.cut_boundaries == 2 * n
    &&& summary.extra_retained_frames_total == moved_frames(ranges, keyframes_of(frames), snap, n)
    &&& summary.extra_retained_units == moved_units(ranges, frames, snap, n)
    &&& summary.output_units == kept_units(ranges, frames, snap, n)
}

/// The direction that a report is made for.
pub open spec fn report_direction(snap_outward: bool) -> Snap {
    if snap_outward {
        Snap::Outward
    } else {
        Snap::Inward
    }
}

/// The text of the report on a `Trim` list: the totals, each boundary with the key frames
/// around it, and the commercials. `render` turns times into text.
pub fn format_report<F: Fn(ReportTime) -> String>(
    trim: &TrimList,
    dtvi: &Dtvi,
    jls_entries: &[JlsEntry],
    snap_outward: bool,
    render: F,
) -> (out: String)
    requires
        distances_fit(trim@, dtvi.frames@),
        totals_fit(trim@, dtvi.frames@, report_direction(snap_outward)),
        2 * trim@.len() <= usize::MAX,
        forall|t: ReportTime| #[trigger] render.requires((t,)),
    ensures
        exists|summary: ReportSummary, texts: ReportTexts|
            {
                &&& is_summary(
                    trim@,
                    dtvi.frames@,
                    report_direction(snap_outward),
                    summary,
                )
                &&& #[trigger] are_rendered(
                    render,
                    summary,
                    distances_to(trim@, dtvi.frames@, trim@.len() as int),
                    texts,
                )
                &&& out@ == report_text(
                    trim@.len(),
                    distances_to(trim@, dtvi.frames@, trim@.len() as int),
                    jls_entries@,
                    texts,
                )
            },
{
    let snap: Snap = if snap_outward {
        Snap::Outward
    } else {
        Snap::Inward
    };
    let summary: ReportSummary = summarize(trim, dtvi, snap);
    let distances: Vec<BoundaryDistance> = boundary_distances(trim, dtvi);
    let mut boundaries: Vec<(String, String)> = Vec::new();
    let mut i: usize = 0;
    while i < distances.len()
        invariant
            forall|t: ReportTime| #[trigger] render.requires((t,)),
            i <= distances@.len(),
            boundaries@.len() == i,
            forall|j: int|
                0 <= j < i ==> {
                    &&& (#[trigger] distances@[j]).prev_keyframe_units matches Some(units)
                        ==> render.ensures(
                        (ReportTime::SincePrevKeyframe { units },),
                        boundaries@[j].0,
                    )
                    &&& distances@[j].next_keyframe_units matches Some(units) ==> render.ensures(
                        (ReportTime::UntilNextKeyframe { units },),
                        boundaries@[j].1,
                    )
                },
        decreases distances@.len() - i,
    {
        let prev: String = match distances[i].prev_keyframe_units {
            Some(units) => render(ReportTime::SincePrevKeyframe { units }),
            None => String::new(),
        };
        let next: String = match distances[i].next_keyframe_units {
            Some(units) => render(ReportTime::UntilNextKeyframe { units }),
            None => String::new(),
        };
        boundaries.push((prev, next));
        i += 1;
    }
    let texts = ReportTexts {
        extra_total: render(ReportTime::ExtraTotal { units: summary.extra_retained_units }),
        extra_average: render(
            ReportTime::ExtraAverage {
                units: summary.extra_retained_units,
                boundaries: summary.cut_boundaries,
            },
        ),
        output_length: render(ReportTime::OutputLength { units: summary.output_units }),
        boundaries,
    };
    assert(are_rendered(render, summary, distances@, texts));
    assemble_report(summary.kept_ranges, &distances, jls_entries, &texts)
}

/// The key frames around a boundary are key frames, with the boundary between them and no
/// key frame closer to it.
pub proof fn keyframes_around_enclose(keyframes: Seq<u32>, boundary: u32)
    requires
        ascending(keyframes),
    ensures
        match keyframes_around(keyframes, boundary).0 {
            Some(k) => keyframes.contains(k) && k <= boundary && forall|i: int|
                0 <= i < keyframes.len() && #[trigger] keyframes[i] <= boundary ==> keyframes[i]
                    <= k,
            None => forall|i: int| 0 <= i < keyframes.len() ==> #[trigger] keyframes[i] > boundary,
        },
        match keyframes_around(keyframes, boundary).1 {
            Some(k) => keyframes.contains(k) && k >= boundary && forall|i: int|
                0 <= i < keyframes.len() && #[trigger] keyframes[i] >= boundary ==> keyframes[i]
                    >= k,
            None => forall|i: int| 0 <= i < keyframes.len() ==> #[trigger] keyframes[i] < boundary,
        },
{
    lemma_before(keyframes, boundary, keyframes.len() as int);
    lemma_after(keyframes, boundary, 0);
}

/// How many frames lie between the key frames around a boundary, where there are both.
pub open spec fn keyframe_gap(keyframes: Seq<u32>, boundary: u32) -> int {
    let (prev, next) = keyframes_around(keyframes, boundary);
    next->0 - prev->0
}

/// How many frames lie between the key frames around the boundaries of the first `n` ranges.
pub open spec fn keyframe_gaps(ranges: Seq<TrimRange>, keyframes: Seq<u32>, n: int) -> int
    decreases n,
{
    if n <= 0 {
        0
    } else {
        keyframe_gaps(ranges, keyframes, n - 1) + keyframe_gap(keyframes, ranges[n - 1].start.0)
            + keyframe_gap(keyframes, ranges[n - 1].end.0)
    }
}

/// There is a key frame at or before a boundary, and one at or after it.
pub open spec fn is_enclosed(keyframes: Seq<u32>, boundary: u32) -> bool {
    &&& keyframes_around(keyframes, boundary).0 is Some
    &&& keyframes_around(keyframes, boundary).1 is Some
}

proof fn lemma_directions_add_up(ranges: Seq<TrimRange>, keyframes: Seq<u32>, n: int)
    requires
        ascending(keyframes),
        0 <= n <= ranges.len(),
        forall|i: int|
            0 <= i < ranges.len() ==> is_enclosed(keyframes, (#[trigger] ranges[i]).start.0)
                && is_enclosed(keyframes, ranges[i].end.0),
    ensures
        moved_frames(ranges, keyframes, Snap::Outward, n) + moved_frames(
            ranges,
            keyframes,
            Snap::Inward,
            n,
        ) == keyframe_gaps(ranges, keyframes, n),
    decreases n,
{
    if n > 0 {
        lemma_directions_add_up(ranges, keyframes, n - 1);
        assert(is_enclosed(keyframes, ranges[n - 1].start.0));
        keyframes_around_enclose(keyframes, ranges[n - 1].start.0);
        keyframes_around_enclose(keyframes, ranges[n - 1].end.0);
    }
}

/// Moving outward and moving inward, each boundary goes to either of the key frames around it. So
/// where each boundary has both, the frames by which boundaries move in one direction and in the
/// other add up to the frames between these key frames. The numbers of ranges and of boundaries
/// are the same for both directions.
pub proof fn both_directions_add_up(
    ranges: Seq<TrimRange>,
    frames: Seq<DtviFrame>,
    outward: ReportSummary,
    inward: ReportSummary,
)
    requires
        ascending(keyframes_of(frames)),
        is_summary(ranges, frames, Snap::Outward, outward),
        is_summary(ranges, frames, Snap::Inward, inward),
        forall|i: int|
            0 <= i < ranges.len() ==> is_enclosed(
                keyframes_of(frames),
                (#[trigger] ranges[i]).start.0,
            ) && is_enclosed(keyframes_of(frames), ranges[i].end.0),
    ensures
        outward.extra_retained_frames_total + inward.extra_retained_frames_total == keyframe_gaps(
            ranges,
            keyframes_of(frames),
            ranges.len() as int,
        ),
        outward.kept_ranges == ranges.len(),
        inward.kept_ranges == ranges.len(),
        outward.cut_boundaries == 2 * ranges.len(),
        inward.cut_boundaries == 2 * ranges.len(),
{
    lemma_directions_add_up(ranges, keyframes_of(frames), ranges.len() as int);
}

proof fn lemma_before(keyframes: Seq<u32>, boundary: u32, n: int)
    requires
        ascending(keyframes),
        0 <= n <= keyframes.len(),
        forall|i: int| n <= i < keyframes.len() ==> #[trigger] keyframes[i] > boundary,
    ensures
        match keyframe_before(keyframes, boundary, n) {
            Some(k) => keyframes.contains(k) && k <= boundary && forall|i: int|
                0 <= i < keyframes.len() && #[trigger] keyframes[i] <= boundary ==> keyframes[i]
                    <= k,
            None => forall|i: int| 0 <= i < keyframes.len() ==> #[trigger] keyframes[i] > boundary,
        },
    decreases n,
{
    if n > 0 {
        if keyframes[n - 1] <= boundary {
            assert(keyframes.contains(keyframes[n - 1]));
        } else {
            lemma_before(keyframes, boundary, n - 1);
        }
    }
}

proof fn lemma_after(keyframes: Seq<u32>, boundary: u32, i: int)
    requires
        ascending(keyframes),
        0 <= i <= keyframes.len(),
        forall|k: int| 0 <= k < i ==> #[trigger] keyframes[k] < boundary,
    ensures
        match keyframe_after(keyframes, boundary, i) {
            Some(k) => keyframes.contains(k) && k >= boundary && forall|j: int|
                0 <= j < keyframes.len() && #[trigger] keyframes[j] >= boundary ==> keyframes[j]
                    >= k,
            None => forall|j: int| 0 <= j < keyframes.len() ==> #[trigger] keyframes[j] < boundary,
        },
    decreases keyframes.len() - i,
{
    if i < keyframes.len() {
        if keyframes[i] >= boundary {
            assert(keyframes.contains(keyframes[i]));
        } else {
            lemma_after(keyframes, boundary, i + 1);
        }
    }
}

} // verus!
