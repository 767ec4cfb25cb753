//! Moving the ends of kept ranges to sync samples.
//!
//! Without re-encoding, a file can only be cut at sync samples. These need not be evenly
//! spaced, so the actual list of sync samples is searched.

use crate::cli::Snap;
use crate::order::DisplayIdx;
use crate::text;
use crate::trim;
use crate::trim::{TrimList, TrimRange};
use vstd::prelude::*;

verus! {

/// One end of a range, before and after it was moved.
#[derive(Debug, Clone, Copy, PartialEq, Eq, Structural)]
pub struct SnappedBoundary {
    /// Where the boundary was.
    pub original: DisplayIdx,
    /// Where the boundary is now: at a sync sample, or at the start or the end of the file.
    pub snapped: DisplayIdx,
    /// By how many frames it was moved.
    pub delta_frames: u32,
}

/// A kept range after its ends were moved: from `start.snapped` up to, but without,
/// `end.snapped`.
#[derive(Debug, Clone, Copy, PartialEq, Eq, Structural)]
pub struct SnappedRange {
    pub start: SnappedBoundary,
    pub end: SnappedBoundary,
}

/// Two kept ranges overlap after their ends were moved.
#[derive(Debug, Clone, Copy, PartialEq, Eq, Structural)]
pub struct OverlapError {
    /// The end of the first range.
    pub prev_end: DisplayIdx,
    /// The start of the second range.
    pub next_start: DisplayIdx,
}

/// The boundary that was at `original` and is now at `snapped`.
pub open spec fn boundary(original: DisplayIdx, snapped: DisplayIdx) -> SnappedBoundary {
    SnappedBoundary {
        original,
        snapped,
        delta_frames: if snapped.0 >= original.0 {
            (snapped.0 - original.0) as u32
        } else {
            (original.0 - snapped.0) as u32
        },
    }
}

impl SnappedBoundary {
    /// The boundary that was at `original` and is now at `snapped`.
    pub fn new(original: DisplayIdx, snapped: DisplayIdx) -> (b: Self)
        ensures
            b == boundary(original, snapped),
    {
        let delta_frames: u32 = if snapped.0 >= original.0 {
            snapped.0 - original.0
        } else {
            original.0 - snapped.0
        };
        SnappedBoundary { original, snapped, delta_frames }
    }
}

/// Frame numbers that do not descend.
pub open spec fn sorted(sync: Seq<DisplayIdx>) -> bool {
    forall|a: int, b: int|
        0 <= a < b < sync.len() ==> (#[trigger] sync[a]).0 <= (#[trigger] sync[b]).0
}

/// The last of the first `n` elements that is at most `value`.
pub open spec fn floor_to(sync: Seq<DisplayIdx>, value: DisplayIdx, n: int) -> Option<DisplayIdx>
    decreases n,
{
    if n <= 0 {
        None
    } else if sync[n - 1].0 <= value.0 {
        Some(sync[n - 1])
    } else {
        floor_to(sync, value, n - 1)
    }
}

/// The first element, from element `i` on, that is at least `value`.
pub open spec fn ceil_from(sync: Seq<DisplayIdx>, value: DisplayIdx, i: int) -> Option<DisplayIdx>
    decreases sync.len() - i,
{
    if i < 0 || i >= sync.len() {
        None
    } else if sync[i].0 >= value.0 {
        Some(sync[i])
    } else {
        ceil_from(sync, value, i + 1)
    }
}

/// The largest element of `sync`, which is sorted, that is at most `value`.
pub open spec fn floor_of(sync: Seq<DisplayIdx>, value: DisplayIdx) -> Option<DisplayIdx> {
    floor_to(sync, value, sync.len() as int)
}

/// The smallest element of `sync`, which is sorted, that is at least `value`.
pub open spec fn ceil_of(sync: Seq<DisplayIdx>, value: DisplayIdx) -> Option<DisplayIdx> {
    ceil_from(sync, value, 0)
}

/// `found`, or `other` where nothing was found.
pub open spec fn found_or(found: Option<DisplayIdx>, other: DisplayIdx) -> DisplayIdx {
    match found {
        Some(i) => i,
        None => other,
    }
}

/// Where the start of a range moves to.
pub open spec fn snapped_start(
    sync: Seq<DisplayIdx>,
    total: u32,
    direction: Snap,
    start: DisplayIdx,
) -> DisplayIdx {
    match direction {
        Snap::Outward => found_or(floor_of(sync, start), DisplayIdx(0)),
        Snap::Inward => found_or(ceil_of(sync, start), DisplayIdx(total)),
    }
}

/// Where the end of a range moves to.
pub open spec fn snapped_end(
    sync: Seq<DisplayIdx>,
    total: u32,
    direction: Snap,
    end: DisplayIdx,
) -> DisplayIdx {
    match direction {
        Snap::Outward => found_or(ceil_of(sync, end), DisplayIdx(total)),
        Snap::Inward => found_or(floor_of(sync, end), DisplayIdx(0)),
    }
}

/// A range after its ends were moved.
pub open spec fn snapped_range(
    sync: Seq<DisplayIdx>,
    total: u32,
    direction: Snap,
    range: TrimRange,
) -> SnappedRange {
    SnappedRange {
        start: boundary(range.start, snapped_start(sync, total, direction, range.start)),
        end: boundary(range.end, snapped_end(sync, total, direction, range.end)),
    }
}

/// All ranges after their ends were moved.
pub open spec fn snapped_ranges(
    sync: Seq<DisplayIdx>,
    total: u32,
    direction: Snap,
    ranges: Seq<TrimRange>,
) -> Seq<SnappedRange> {
    ranges.map_values(|r: TrimRange| snapped_range(sync, total, direction, r))
}

/// Range `i + 1` starts before range `i` ends.
pub open spec fn overlaps_next(ranges: Seq<SnappedRange>, i: int) -> bool {
    ranges[i + 1].start.snapped.0 < ranges[i].end.snapped.0
}

/// The largest element of `sync` that is at most `value`.
pub fn floor_or_equal(sync: &[DisplayIdx], value: DisplayIdx) -> (r: Option<DisplayIdx>)
    requires
        sorted(sync@),
    ensures
        r == floor_of(sync@, value),
{
    let mut lo: usize = 0;
    let mut hi: usize = sync.len();
    while lo < hi
        invariant
            sorted(sync@),
            lo <= hi <= sync@.len(),
            forall|k: int| 0 <= k < lo ==> (#[trigger] sync@[k]).0 <= value.0,
            forall|k: int| hi <= k < sync@.len() ==> (#[trigger] sync@[k]).0 > value.0,
        decreases hi - lo,
    {
        let mid: usize = lo + (hi - lo) / 2;
        if sync[mid].0 <= value.0 {
            proof {
                assert forall|k: int| 0 <= k < mid + 1 implies (#[trigger] sync@[k]).0
                    <= value.0 by {
                    if k < mid {
                        assert(sync@[k].0 <= sync@[mid as int].0);
                    }
                }
            }
            lo = mid + 1;
        } else {
            proof {
                assert forall|k: int| mid <= k < sync@.len() implies (#[trigger] sync@[k]).0
                    > value.0 by {
                    if k > mid {
                        assert(sync@[mid as int].0 <= sync@[k].0);
                    }
                }
            }
            hi = mid;
        }
    }
    proof {
        lemma_floor_skips(sync@, value, lo as int, sync@.len() as int);
    }
    if lo == 0 {
        None
    } else {
        Some(sync[lo - 1])
    }
}

proof fn lemma_floor_skips(sync: Seq<DisplayIdx>, value: DisplayIdx, m: int, n: int)
    requires
        0 <= m <= n <= sync.len(),
        forall|k: int| m <= k < n ==> (#[trigger] sync[k]).0 > value.0,
        m > 0 ==> sync[m - 1].0 <= value.0,
    ensures
        floor_to(sync, value, n) == (if m > 0 {
            Some(sync[m - 1])
        } else {
            None
        }),
    decreases n,
{
    if m < n {
        lemma_floor_skips(sync, value, m, n - 1);
    }
}

/// The smallest element of `sync` that is at least `value`.
pub fn ceil_or_equal(sync: &[DisplayIdx], value: DisplayIdx) -> (r: Option<DisplayIdx>)
    requires
        sorted(sync@),
    ensures
        r == ceil_of(sync@, value),
{
    let mut lo: usize = 0;
    let mut hi: usize = sync.len();
    while lo < hi
        invariant
            sorted(sync@),
            lo <= hi <= sync@.len(),
            forall|k: int| 0 <= k < lo ==> (#[trigger] sync@[k]).0 < value.0,
            forall|k: int| hi <= k < sync@.len() ==> (#[trigger] sync@[k]).0 >= value.0,
        decreases hi - lo,
    {
        let mid: usize = lo + (hi - lo) / 2;
        if sync[mid].0 < value.0 {
            proof {
                assert forall|k: int| 0 <= k < mid + 1 implies (#[trigger] sync@[k]).0
                    < value.0 by {
                    if k < mid {
                        assert(sync@[k].0 <= sync@[mid as int].0);
                    }
                }
            }
            lo = mid + 1;
        } else {
            proof {
                assert forall|k: int| mid <= k < sync@.len() implies (#[trigger] sync@[k]).0
                    >= value.0 by {
                    if k > mid {
                        assert(sync@[mid as int].0 <= sync@[k].0);
                    }
                }
            }
            hi = mid;
        }
    }
    proof {
        lemma_ceil_skips(sync@, value, 0, lo as int);
    }
    if lo < sync.len() {
        Some(sync[lo])
    } else {
        None
    }
}

proof fn lemma_ceil_skips(sync: Seq<DisplayIdx>, value: DisplayIdx, i: int, m: int)
    requires
        0 <= i <= m <= sync.len(),
        forall|k: int| i <= k < m ==> (#[trigger] sync[k]).0 < value.0,
        m < sync.len() ==> sync[m].0 >= value.0,
    ensures
        ceil_from(sync, value, i) == (if m < sync.len() {
            Some(sync[m])
        } else {
            None
        }),
    decreases m - i,
{
    if i < m {
        lemma_ceil_skips(sync, value, i + 1, m);
    }
}

/// Moves the ends of the ranges of `trim` to sync samples. `sync_display` lists the sync
/// samples in display order; `total_frames` is where the file ends. Fails where ranges
/// overlap afterwards: they are not merged.
pub fn snap(
    trim: &TrimList,
    sync_display: &[DisplayIdx],
    total_frames: u32,
    direction: Snap,
) -> (r: Result<Vec<SnappedRange>, OverlapError>)
    requires
        sorted(sync_display@),
    ensures
        ({
            let ranges = snapped_ranges(sync_display@, total_frames, direction, trim@);
            match r {
                Ok(v) => {
                    &&& v@ == ranges
                    &&& forall|i: int| 0 <= i < ranges.len() - 1 ==> !overlaps_next(ranges, i)
                    &&& forall|i: int, j: int|
                        0 <= i && j == i + 1 && j < v@.len() ==> (#[trigger] v@[i]).end.snapped.0
                            <= (#[trigger] v@[j]).start.snapped.0
                },
                Err(e) => exists|i: int|
                    {
                        &&& 0 <= i < ranges.len() - 1
                        &&& #[trigger] overlaps_next(ranges, i)
                        &&& forall|j: int| 0 <= j < i ==> !overlaps_next(ranges, j)
                        &&& e.prev_end == ranges[i].end.snapped
                        &&& e.next_start == ranges[i + 1].start.snapped
                        &&& e.next_start.0 < e.prev_end.0
                    },
            }
        }),
        r matches Ok(v) ==> v@.len() == trim@.len() && forall|i: int|
            0 <= i < v@.len() ==> {
                &&& is_moved((#[trigger] v@[i]).start, trim@[i].start)
                &&& is_moved(v@[i].end, trim@[i].end)
                &&& direction == Snap::Outward ==> is_last_up_to(
                    sync_display@,
                    trim@[i].start.0,
                    v@[i].start.snapped.0,
                ) && is_first_from(
                    sync_display@,
                    trim@[i].end.0,
                    total_frames,
                    v@[i].end.snapped.0,
                )
                &&& direction == Snap::Inward ==> is_first_from(
                    sync_display@,
                    trim@[i].start.0,
                    total_frames,
                    v@[i].start.snapped.0,
                ) && is_last_up_to(sync_display@, trim@[i].end.0, v@[i].end.snapped.0)
            },
{
    let ranges = trim.ranges();
    let ghost all = snapped_ranges(sync_display@, total_frames, direction, trim@);
    let total = DisplayIdx(total_frames);
    let mut snapped: Vec<SnappedRange> = Vec::new();
    let mut i: usize = 0;
    while i < ranges.len()
        invariant
            sorted(sync_display@),
            total == DisplayIdx(total_frames),
            ranges@ == trim@,
            all == snapped_ranges(sync_display@, total_frames, direction, trim@),
            i <= ranges@.len(),
            snapped@ == all.take(i as int),
        decreases ranges@.len() - i,
    {
        let range: TrimRange = ranges[i];
        let (start, end): (DisplayIdx, DisplayIdx) = match direction {
            Snap::Outward => (
                match floor_or_equal(sync_display, range.start) {
                    Some(s) => s,
                    None => DisplayIdx(0),
                },
                match ceil_or_equal(sync_display, range.end) {
                    Some(s) => s,
                    None => total,
                },
            ),
            Snap::Inward => (
                match ceil_or_equal(sync_display, range.start) {
                    Some(s) => s,
                    None => total,
                },
                match floor_or_equal(sync_display, range.end) {
                    Some(s) => s,
                    None => DisplayIdx(0),
                },
            ),
        };
        snapped.push(
            SnappedRange {
                start: SnappedBoundary::new(range.start, start),
                end: SnappedBoundary::new(range.end, end),
            },
        );
        i += 1;
        assert(snapped@ =~= all.take(i as int));
    }
    assert(snapped@ =~= all);
    let mut i: usize = 1;
    while i < snapped.len()
        invariant
            sorted(sync_display@),
            all == snapped_ranges(sync_display@, total_frames, direction, trim@),
            snapped@ == all,
            1 <= i,
            forall|j: int| 0 <= j < i - 1 && j < all.len() - 1 ==> !overlaps_next(all, j),
            i <= all.len() || all.len() == 0,
        decreases all.len() - i,
    {
        let prev_end: DisplayIdx = snapped[i - 1].end.snapped;
        let next_start: DisplayIdx = snapped[i].start.snapped;
        if next_start.0 < prev_end.0 {
            assert(overlaps_next(all, i - 1));
            return Err(OverlapError { prev_end, next_start });
        }
        assert(!overlaps_next(all, i - 1));
        i += 1;
    }
    proof {
        ends_move_to_nearest_sync_samples(
            sync_display@,
            total_frames,
            direction,
            trim@,
            snapped@,
        );
        assert forall|i: int, j: int|
            0 <= i && j == i + 1 && j < snapped@.len() implies (#[trigger]
        snapped@[i]).end.snapped.0 <= (#[trigger] snapped@[j]).start.snapped.0 by {
            assert(!overlaps_next(all, i));
        }
    }
    Ok(snapped)
}

/// The largest element at most `value` is an element, is at most `value`, and no element
/// lies between them. There is one wherever some element is at most `value`.
pub proof fn floor_is_largest_below(sync: Seq<DisplayIdx>, value: DisplayIdx)
    requires
        sorted(sync),
    ensures
        match floor_of(sync, value) {
            Some(s) => {
                &&& sync.contains(s)
                &&& s.0 <= value.0
                &&& forall|k: int|
                    0 <= k < sync.len() && (#[trigger] sync[k]).0 <= value.0 ==> sync[k].0 <= s.0
            },
            None => forall|k: int| 0 <= k < sync.len() ==> (#[trigger] sync[k]).0 > value.0,
        },
{
    lemma_floor(sync, value, sync.len() as int);
}

proof fn lemma_floor(sync: Seq<DisplayIdx>, value: DisplayIdx, n: int)
    requires
        sorted(sync),
        0 <= n <= sync.len(),
        forall|k: int| n <= k < sync.len() ==> (#[trigger] sync[k]).0 > value.0,
    ensures
        match floor_to(sync, value, n) {
            Some(s) => {
                &&& sync.contains(s)
                &&& s.0 <= value.0
                &&& forall|k: int|
                    0 <= k < sync.len() && (#[trigger] sync[k]).0 <= value.0 ==> sync[k].0 <= s.0
            },
            None => forall|k: int| 0 <= k < sync.len() ==> (#[trigger] sync[k]).0 > value.0,
        },
    decreases n,
{
    if n > 0 {
        if sync[n - 1].0 <= value.0 {
            assert(sync.contains(sync[n - 1]));
        } else {
            lemma_floor(sync, value, n - 1);
        }
    }
}

/// The smallest element at least `value` is an element, is at least `value`, and no element
/// lies between them. There is one wherever some element is at least `value`.
pub proof fn ceil_is_smallest_above(sync: Seq<DisplayIdx>, value: DisplayIdx)
    requires
        sorted(sync),
    ensures
        match ceil_of(sync, value) {
            Some(s) => {
                &&& sync.contains(s)
                &&& s.0 >= value.0
                &&& forall|k: int|
                    0 <= k < sync.len() && (#[trigger] sync[k]).0 >= value.0 ==> sync[k].0 >= s.0
            },
            None => forall|k: int| 0 <= k < sync.len() ==> (#[trigger] sync[k]).0 < value.0,
        },
{
    lemma_ceil(sync, value, 0);
}

proof fn lemma_ceil(sync: Seq<DisplayIdx>, value: DisplayIdx, i: int)
    requires
        sorted(sync),
        0 <= i <= sync.len(),
        forall|k: int| 0 <= k < i ==> (#[trigger] sync[k]).0 < value.0,
    ensures
        match ceil_from(sync, value, i) {
            Some(s) => {
                &&& sync.contains(s)
                &&& s.0 >= value.0
                &&& forall|k: int|
                    0 <= k < sync.len() && (#[trigger] sync[k]).0 >= value.0 ==> sync[k].0 >= s.0
            },
            None => forall|k: int| 0 <= k < sync.len() ==> (#[trigger] sync[k]).0 < value.0,
        },
    decreases sync.len() - i,
{
    if i < sync.len() {
        if sync[i].0 >= value.0 {
            assert(sync.contains(sync[i]));
        } else {
            lemma_ceil(sync, value, i + 1);
        }
    }
}

/// `s` is the last sync sample at or before `value`: none lies between them. Without one, it is
/// the start of the file.
pub open spec fn is_last_up_to(sync: Seq<DisplayIdx>, value: u32, s: u32) -> bool {
    if exists|k: int| 0 <= k < sync.len() && (#[trigger] sync[k]).0 <= value {
        &&& s <= value
        &&& exists|k: int| 0 <= k < sync.len() && (#[trigger] sync[k]).0 == s
        &&& forall|k: int|
            0 <= k < sync.len() ==> (#[trigger] sync[k]).0 <= s || sync[k].0 > value
    } else {
        s == 0
    }
}

/// `s` is the first sync sample at or after `value`: none lies between them. Without one, it is
/// the end of the file.
pub open spec fn is_first_from(sync: Seq<DisplayIdx>, value: u32, total: u32, s: u32) -> bool {
    if exists|k: int| 0 <= k < sync.len() && (#[trigger] sync[k]).0 >= value {
        &&& s >= value
        &&& exists|k: int| 0 <= k < sync.len() && (#[trigger] sync[k]).0 == s
        &&& forall|k: int|
            0 <= k < sync.len() ==> (#[trigger] sync[k]).0 >= s || sync[k].0 < value
    } else {
        s == total
    }
}

/// A boundary was moved from `from` to its place, by as many frames as lie between both.
pub open spec fn is_moved(b: SnappedBoundary, from: DisplayIdx) -> bool {
    &&& b.original == from
    &&& b.snapped.0 == from.0 + b.delta_frames || b.snapped.0 == from.0 - b.delta_frames
}

/// Each end of a kept range moves to the nearest sync sample in its direction, and no sync sample
/// lies in between: outward the start moves back and the end moves ahead, inward the start moves
/// ahead and the end moves back. Where there is no sync sample in that direction, an end moves to
/// the start or to the end of the file. The ranges stay in their order, and each knows where its
/// ends were and how far they moved.
pub proof fn ends_move_to_nearest_sync_samples(
    sync: Seq<DisplayIdx>,
    total: u32,
    direction: Snap,
    ranges: Seq<TrimRange>,
    moved: Seq<SnappedRange>,
)
    requires
        forall|a: int, b: int|
            0 <= a < b < sync.len() ==> (#[trigger] sync[a]).0 <= (#[trigger] sync[b]).0,
        moved == snapped_ranges(sync, total, direction, ranges),
    ensures
        moved.len() == ranges.len(),
        forall|i: int|
            0 <= i < ranges.len() ==> {
                &&& is_moved((#[trigger] moved[i]).start, ranges[i].start)
                &&& is_moved(moved[i].end, ranges[i].end)
            },
        direction == Snap::Outward ==> forall|i: int|
            0 <= i < ranges.len() ==> {
                &&& is_last_up_to(sync, ranges[i].start.0, (#[trigger] moved[i]).start.snapped.0)
                &&& is_first_from(sync, ranges[i].end.0, total, moved[i].end.snapped.0)
            },
        direction == Snap::Inward ==> forall|i: int|
            0 <= i < ranges.len() ==> {
                &&& is_first_from(
                    sync,
                    ranges[i].start.0,
                    total,
                    (#[trigger] moved[i]).start.snapped.0,
                )
                &&& is_last_up_to(sync, ranges[i].end.0, moved[i].end.snapped.0)
            },
{
    assert forall|i: int| 0 <= i < ranges.len() implies {
        &&& is_moved((#[trigger] moved[i]).start, ranges[i].start)
        &&& is_moved(moved[i].end, ranges[i].end)
        &&& direction == Snap::Outward ==> is_last_up_to(
            sync,
            ranges[i].start.0,
            moved[i].start.snapped.0,
        ) && is_first_from(sync, ranges[i].end.0, total, moved[i].end.snapped.0)
        &&& direction == Snap::Inward ==> is_first_from(
            sync,
            ranges[i].start.0,
            total,
            moved[i].start.snapped.0,
        ) && is_last_up_to(sync, ranges[i].end.0, moved[i].end.snapped.0)
    } by {
        lemma_nearest(sync, total, ranges[i].start);
        lemma_nearest(sync, total, ranges[i].end);
    }
}

proof fn lemma_nearest(sync: Seq<DisplayIdx>, total: u32, value: DisplayIdx)
    requires
        sorted(sync),
    ensures
        is_last_up_to(sync, value.0, found_or(floor_of(sync, value), DisplayIdx(0)).0),
        is_first_from(sync, value.0, total, found_or(ceil_of(sync, value), DisplayIdx(total)).0),
{
    floor_is_largest_below(sync, value);
    ceil_is_smallest_above(sync, value);
    if let Some(s) = floor_of(sync, value) {
        let k = choose|k: int| 0 <= k < sync.len() && sync[k] == s;
        assert(sync[k].0 == s.0);
    }
    if let Some(s) = ceil_of(sync, value) {
        let k = choose|k: int| 0 <= k < sync.len() && sync[k] == s;
        assert(sync[k].0 == s.0);
    }
}

/// Moving ends that were moved before changes nothing, where the start and the end of the file
/// count as sync samples: what moved outward, or inward, stays.
pub proof fn moving_twice_is_moving_once(
    sync: Seq<DisplayIdx>,
    total: u32,
    direction: Snap,
    range: TrimRange,
)
    requires
        sorted(sync),
        sync.contains(DisplayIdx(0)),
        sync.contains(DisplayIdx(total)),
    ensures
        ({
            let once = snapped_range(sync, total, direction, range);
            let again = snapped_range(
                sync,
                total,
                direction,
                TrimRange { start: once.start.snapped, end: once.end.snapped },
            );
            &&& again.start.snapped == once.start.snapped
            &&& again.end.snapped == once.end.snapped
            &&& again.start.delta_frames == 0
            &&& again.end.delta_frames == 0
        }),
{
    boundaries_end_at_sync_samples(sync, total, direction, range.start);
    boundaries_end_at_sync_samples(sync, total, direction, range.end);
    let once = snapped_range(sync, total, direction, range);
    boundary_at_sync_sample_stays(sync, total, direction, once.start.snapped);
    boundary_at_sync_sample_stays(sync, total, direction, once.end.snapped);
}

/// Moving outward loses nothing: a range that ends within the file lies within the range
/// that it becomes.
pub proof fn outward_keeps_the_range(sync: Seq<DisplayIdx>, total: u32, range: TrimRange)
    requires
        sorted(sync),
        range.end.0 <= total,
    ensures
        snapped_range(sync, total, Snap::Outward, range).start.snapped.0 <= range.start.0,
        snapped_range(sync, total, Snap::Outward, range).end.snapped.0 >= range.end.0,
{
    floor_is_largest_below(sync, range.start);
    ceil_is_smallest_above(sync, range.end);
}

/// Moving inward adds nothing: a range that starts within the file contains what it
/// becomes.
pub proof fn inward_adds_nothing(sync: Seq<DisplayIdx>, total: u32, range: TrimRange)
    requires
        sorted(sync),
        range.start.0 <= total,
    ensures
        snapped_range(sync, total, Snap::Inward, range).start.snapped.0 >= range.start.0,
        snapped_range(sync, total, Snap::Inward, range).end.snapped.0 <= range.end.0,
{
    ceil_is_smallest_above(sync, range.start);
    floor_is_largest_below(sync, range.end);
}

/// A boundary ends up at a sync sample, at the start of the file or at its end.
pub proof fn boundaries_end_at_sync_samples(
    sync: Seq<DisplayIdx>,
    total: u32,
    direction: Snap,
    i: DisplayIdx,
)
    requires
        sorted(sync),
    ensures
        ({
            let s = snapped_start(sync, total, direction, i);
            sync.contains(s) || s == DisplayIdx(0) || s == DisplayIdx(total)
        }),
        ({
            let e = snapped_end(sync, total, direction, i);
            sync.contains(e) || e == DisplayIdx(0) || e == DisplayIdx(total)
        }),
{
    floor_is_largest_below(sync, i);
    ceil_is_smallest_above(sync, i);
}

/// A boundary at a sync sample stays where it is.
pub proof fn boundary_at_sync_sample_stays(
    sync: Seq<DisplayIdx>,
    total: u32,
    direction: Snap,
    i: DisplayIdx,
)
    requires
        sorted(sync),
        sync.contains(i),
    ensures
        snapped_start(sync, total, direction, i) == i,
        snapped_end(sync, total, direction, i) == i,
        boundary(i, i).delta_frames == 0,
{
    floor_is_largest_below(sync, i);
    ceil_is_smallest_above(sync, i);
    let k = choose|k: int| 0 <= k < sync.len() && sync[k] == i;
    assert(sync[k].0 <= i.0);
}

/// Ranges that were moved outward without an error do not overlap, however far apart they
/// are in the list.
pub proof fn outward_ranges_are_disjoint(
    sync: Seq<DisplayIdx>,
    total: u32,
    ranges: Seq<TrimRange>,
    i: int,
    j: int,
)
    requires
        sorted(sync),
        trim::ranges_ascend(ranges),
        forall|k: int| 0 <= k < ranges.len() ==> (#[trigger] ranges[k]).end.0 <= total,
        forall|k: int|
            0 <= k < ranges.len() - 1 ==> !overlaps_next(
                snapped_ranges(sync, total, Snap::Outward, ranges),
                k,
            ),
        0 <= i < j < ranges.len(),
    ensures
        snapped_ranges(sync, total, Snap::Outward, ranges)[i].end.snapped.0 <= snapped_ranges(
            sync,
            total,
            Snap::Outward,
            ranges,
        )[j].start.snapped.0,
    decreases j - i,
{
    let all = snapped_ranges(sync, total, Snap::Outward, ranges);
    assert(!overlaps_next(all, j - 1));
    if i < j - 1 {
        outward_ranges_are_disjoint(sync, total, ranges, i, j - 1);
        outward_keeps_the_range(sync, total, ranges[j - 1]);
        assert(ranges[j - 1].start.0 < ranges[j - 1].end.0);
    }
}

impl OverlapError {
    /// The message for the user.
    pub fn message(&self) -> (m: String)
        ensures
            m@ == "スナップ後に保持区間が重なっています: 前区間の終端(半開)="@ + text::decimal(
                self.prev_end.0 as nat,
            ) + ", 次区間の開始="@ + text::decimal(self.next_start.0 as nat),
    {
        let mut m = String::new();
        m.append("スナップ後に保持区間が重なっています: 前区間の終端(半開)=");
        text::push_u64(&mut m, self.prev_end.0 as u64);
        m.append(", 次区間の開始=");
        text::push_u64(&mut m, self.next_start.0 as u64);
        assert(m@ =~= "スナップ後に保持区間が重なっています: 前区間の終端(半開)="@
            + text::decimal(self.prev_end.0 as nat) + ", 次区間の開始="@ + text::decimal(
            self.next_start.0 as nat,
        ));
        m
    }
}

} // verus!
