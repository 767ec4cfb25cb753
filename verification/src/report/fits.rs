//! Whether the numbers of a report fit in their fields.

use crate::cli::Snap;
use crate::dtvi::Dtvi;
use crate::order::DisplayIdx;
use crate::report;
use crate::report::{keyframe_numbers, nearest_keyframes};
use crate::trim::TrimList;
use vstd::prelude::*;

verus! {

fn check_ascending(keyframes: &Vec<u32>) -> (b: bool)
    ensures
        b == report::ascending(keyframes@),
{
    let n: usize = keyframes.len();
    let mut i: usize = 1;
    while i < n
        invariant
            1 <= i,
            n == keyframes@.len(),
            n >= 1 ==> i <= n,
            forall|x: int, y: int|
                0 <= x < y < i && y < n ==> #[trigger] keyframes@[x] <= #[trigger] keyframes@[y],
        decreases n - i,
    {
        if keyframes[i] < keyframes[i - 1] {
            assert(keyframes@[i - 1] > keyframes@[i as int]);
            return false;
        }
        proof {
            assert forall|x: int, y: int| 0 <= x < y < i + 1 && y < n implies #[trigger]
            keyframes@[x] <= #[trigger] keyframes@[y] by {
                if y == i && x < i - 1 {
                    assert(keyframes@[x] <= keyframes@[i - 1]);
                }
            }
        }
        i += 1;
    }
    true
}

fn check_distance_fits(dtvi: &Dtvi, keyframes: &Vec<u32>, boundary: DisplayIdx) -> (b: bool)
    requires
        dtvi.frames@.len() <= u32::MAX,
        keyframes@ == report::keyframes_of(dtvi.frames@),
        report::ascending(keyframes@),
    ensures
        b == report::distance_fits(dtvi.frames@, boundary),
{
    let (prev, next) = nearest_keyframes(keyframes.as_slice(), boundary.0);
    let prev_fits: bool = match prev {
        Some(k) => is_i64(report::wide_units_between(dtvi, k, boundary.0)),
        None => true,
    };
    let next_fits: bool = match next {
        Some(k) => is_i64(report::wide_units_between(dtvi, boundary.0, k)),
        None => true,
    };
    prev_fits && next_fits
}

fn is_i64(n: i128) -> (b: bool)
    ensures
        b == (i64::MIN <= n <= i64::MAX),
{
    i64::MIN as i128 <= n && n <= i64::MAX as i128
}

/// Whether the distances of all boundaries can be computed.
pub fn check_distances_fit(trim: &TrimList, dtvi: &Dtvi) -> (b: bool)
    ensures
        b == report::distances_fit(trim@, dtvi.frames@),
{
    if dtvi.frames.len() as u64 > u32::MAX as u64 {
        return false;
    }
    let keyframes: Vec<u32> = keyframe_numbers(dtvi);
    if !check_ascending(&keyframes) {
        return false;
    }
    let ranges = trim.ranges();
    let mut i: usize = 0;
    while i < ranges.len()
        invariant
            dtvi.frames@.len() <= u32::MAX,
            keyframes@ == report::keyframes_of(dtvi.frames@),
            report::ascending(keyframes@),
            ranges@ == trim@,
            i <= ranges@.len(),
            forall|j: int|
                0 <= j < i ==> report::distance_fits(dtvi.frames@, (#[trigger] trim@[j]).start)
                    && report::distance_fits(dtvi.frames@, trim@[j].end),
        decreases ranges@.len() - i,
    {
        if !check_distance_fits(dtvi, &keyframes, ranges[i].start) || !check_distance_fits(
            dtvi,
            &keyframes,
            ranges[i].end,
        ) {
            assert(!(report::distance_fits(dtvi.frames@, trim@[i as int].start)
                && report::distance_fits(dtvi.frames@, trim@[i as int].end)));
            return false;
        }
        i += 1;
    }
    true
}

/// Whether the totals for boundaries that move in the direction `snap` can be computed.
pub fn check_totals_fit(trim: &TrimList, dtvi: &Dtvi, snap: Snap) -> (b: bool)
    ensures
        b == report::totals_fit(trim@, dtvi.frames@, snap),
{
    if dtvi.frames.len() as u64 > u32::MAX as u64 {
        return false;
    }
    let keyframes: Vec<u32> = keyframe_numbers(dtvi);
    if !check_ascending(&keyframes) {
        return false;
    }
    let ranges = trim.ranges();
    let ghost key = report::keyframes_of(dtvi.frames@);
    let mut frames_total: u64 = 0;
    let mut moved: i128 = 0;
    let mut kept: i128 = 0;
    let mut i: usize = 0;
    while i < ranges.len()
        invariant
            dtvi.frames@.len() <= u32::MAX,
            key == report::keyframes_of(dtvi.frames@),
            keyframes@ == key,
            report::ascending(key),
            ranges@ == trim@,
            i <= ranges@.len(),
            frames_total == report::moved_frames(trim@, key, snap, i as int),
            frames_total <= u32::MAX,
            moved == report::moved_units(trim@, dtvi.frames@, snap, i as int),
            kept == report::kept_units(trim@, dtvi.frames@, snap, i as int),
            i64::MIN <= moved <= i64::MAX,
            i64::MIN <= kept <= i64::MAX,
            forall|m: int|
                0 <= m <= i ==> i64::MIN <= #[trigger] report::moved_units(
                    trim@,
                    dtvi.frames@,
                    snap,
                    m,
                ) <= i64::MAX,
            forall|m: int|
                0 <= m <= i ==> i64::MIN <= #[trigger] report::kept_units(
                    trim@,
                    dtvi.frames@,
                    snap,
                    m,
                ) <= i64::MAX,
        decreases ranges@.len() - i,
    {
        let start: u32 = ranges[i].start.0;
        let end: u32 = ranges[i].end.0;
        let (snapped_start, snapped_end) = report::snapped_range(&keyframes, snap, start, end);
        let start_frames: u64 = if start <= snapped_start {
            (snapped_start - start) as u64
        } else {
            (start - snapped_start) as u64
        };
        let end_frames: u64 = if end <= snapped_end {
            (snapped_end - end) as u64
        } else {
            (end - snapped_end) as u64
        };
        frames_total = frames_total + start_frames + end_frames;
        moved = moved + report::wide_units_apart(dtvi, start, snapped_start)
            + report::wide_units_apart(dtvi, end, snapped_end);
        kept = kept + report::wide_units_apart(dtvi, snapped_start, snapped_end);
        i += 1;
        assert(frames_total == report::moved_frames(trim@, key, snap, i as int));
        assert(moved == report::moved_units(trim@, dtvi.frames@, snap, i as int));
        assert(kept == report::kept_units(trim@, dtvi.frames@, snap, i as int));
        if frames_total > u32::MAX as u64 || !is_i64(moved) || !is_i64(kept) {
            proof {
                report::lemma_moved_frames_monotone(trim@, key, snap, i as int, trim@.len() as int);
            }
            return false;
        }
    }
    true
}

} // verus!
