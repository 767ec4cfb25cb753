//! What the numbers of a report stand for.

use crate::cli::Snap;
use crate::dtvi::DtviFrame;
use crate::report;
use crate::report::{BoundaryDistance, BoundaryKind, ReportSummary};
use crate::trim::TrimRange;
use vstd::prelude::*;

verus! {

/// Frame number `x` is that of a key frame.
pub open spec fn is_keyframe(frames: Seq<DtviFrame>, x: u32) -> bool {
    exists|k: int|
        {
            &&& 0 <= k < frames.len()
            &&& (#[trigger] frames[k]).frame_number.0 == x
            &&& frames[k].flags & 1 != 0
        }
}

/// `p` is the last key frame at or before `boundary`, where there is one.
pub open spec fn is_last_keyframe_to(
    frames: Seq<DtviFrame>,
    boundary: u32,
    p: Option<u32>,
) -> bool {
    match p {
        Some(x) => {
            &&& is_keyframe(frames, x)
            &&& x <= boundary
            &&& forall|y: u32| #[trigger] is_keyframe(frames, y) ==> y <= x || y > boundary
        },
        None => forall|y: u32| #[trigger] is_keyframe(frames, y) ==> y > boundary,
    }
}

/// `p` is the first key frame at or after `boundary`, where there is one.
pub open spec fn is_first_keyframe_from(
    frames: Seq<DtviFrame>,
    boundary: u32,
    p: Option<u32>,
) -> bool {
    match p {
        Some(x) => {
            &&& is_keyframe(frames, x)
            &&& x >= boundary
            &&& forall|y: u32| #[trigger] is_keyframe(frames, y) ==> y >= x || y < boundary
        },
        None => forall|y: u32| #[trigger] is_keyframe(frames, y) ==> y < boundary,
    }
}

proof fn lemma_keyframes(frames: Seq<DtviFrame>, n: int)
    requires
        0 <= n <= frames.len(),
    ensures
        forall|x: u32| #[trigger]
            report::keyframes_to(frames, n).contains(x) <==> exists|k: int|
                {
                    &&& 0 <= k < n
                    &&& (#[trigger] frames[k]).frame_number.0 == x
                    &&& frames[k].flags & 1 != 0
                },
    decreases n,
{
    if n > 0 {
        lemma_keyframes(frames, n - 1);
        let before = report::keyframes_to(frames, n - 1);
        let now = report::keyframes_to(frames, n);
        let f = frames[n - 1];
        assert forall|x: u32| #[trigger] now.contains(x) <==> exists|k: int|
            {
                &&& 0 <= k < n
                &&& (#[trigger] frames[k]).frame_number.0 == x
                &&& frames[k].flags & 1 != 0
            } by {
            if now.contains(x) {
                let i = choose|i: int| 0 <= i < now.len() && now[i] == x;
                if i < before.len() {
                    assert(before[i] == x);
                    assert(before.contains(x));
                } else {
                    assert(f.frame_number.0 == x && f.flags & 1 != 0);
                }
            }
            if exists|k: int|
                {
                    &&& 0 <= k < n
                    &&& (#[trigger] frames[k]).frame_number.0 == x
                    &&& frames[k].flags & 1 != 0
                } {
                let k = choose|k: int|
                    {
                        &&& 0 <= k < n
                        &&& (#[trigger] frames[k]).frame_number.0 == x
                        &&& frames[k].flags & 1 != 0
                    };
                if k < n - 1 {
                    assert(before.contains(x));
                    let i = choose|i: int| 0 <= i < before.len() && before[i] == x;
                    assert(now[i] == x);
                } else {
                    assert(now[now.len() - 1] == x);
                }
            }
        }
    }
}

/// A frame number is listed as that of a key frame where, and only where, a frame with this number
/// has the flag of a key frame.
pub proof fn keyframes_are_the_flagged_frames(frames: Seq<DtviFrame>, x: u32)
    ensures
        report::keyframes_of(frames).contains(x) <==> is_keyframe(frames, x),
{
    lemma_keyframes(frames, frames.len() as int);
}

proof fn lemma_around(frames: Seq<DtviFrame>, boundary: u32)
    requires
        report::ascending(report::keyframes_of(frames)),
    ensures
        is_last_keyframe_to(
            frames,
            boundary,
            report::keyframes_around(report::keyframes_of(frames), boundary).0,
        ),
        is_first_keyframe_from(
            frames,
            boundary,
            report::keyframes_around(report::keyframes_of(frames), boundary).1,
        ),
{
    let keys = report::keyframes_of(frames);
    report::keyframes_around_enclose(keys, boundary);
    lemma_keyframes(frames, frames.len() as int);
    assert forall|x: u32| #[trigger] is_keyframe(frames, x) <==> keys.contains(x) by {
        keyframes_are_the_flagged_frames(frames, x);
    }
    assert forall|y: u32| #[trigger] is_keyframe(frames, y) implies exists|i: int|
        0 <= i < keys.len() && #[trigger] keys[i] == y by {
        assert(keys.contains(y));
    }
}

/// What is told of a boundary: where it is, the last key frame at or before it and the first one
/// at or after it, and how long it is to these.
pub open spec fn tells_of(
    frames: Seq<DtviFrame>,
    boundary: u32,
    kind: BoundaryKind,
    d: BoundaryDistance,
) -> bool {
    &&& d.boundary.0 == boundary
    &&& d.kind == kind
    &&& d.prev_keyframe is Some <==> d.prev_keyframe_units is Some
    &&& d.next_keyframe is Some <==> d.next_keyframe_units is Some
    &&& is_last_keyframe_to(
        frames,
        boundary,
        match d.prev_keyframe {
            Some(k) => Some(k.0),
            None => None,
        },
    )
    &&& is_first_keyframe_from(
        frames,
        boundary,
        match d.next_keyframe {
            Some(k) => Some(k.0),
            None => None,
        },
    )
    &&& d.prev_keyframe matches Some(k) ==> d.prev_keyframe_units->0 == report::units_between(
        frames,
        k.0,
        boundary,
    )
    &&& d.next_keyframe matches Some(k) ==> d.next_keyframe_units->0 == report::units_between(
        frames,
        boundary,
        k.0,
    )
}

proof fn lemma_distances(ranges: Seq<TrimRange>, frames: Seq<DtviFrame>, n: int)
    requires
        report::distances_fit(ranges, frames),
        0 <= n <= ranges.len(),
    ensures
        report::distances_to(ranges, frames, n).len() == 2 * n,
        forall|i: int|
            0 <= i < n ==> {
                &&& tells_of(
                    frames,
                    (#[trigger] ranges[i]).start.0,
                    BoundaryKind::Start,
                    report::distances_to(ranges, frames, n)[2 * i],
                )
                &&& tells_of(
                    frames,
                    ranges[i].end.0,
                    BoundaryKind::End,
                    report::distances_to(ranges, frames, n)[2 * i + 1],
                )
            },
    decreases n,
{
    if n > 0 {
        lemma_distances(ranges, frames, n - 1);
        let before = report::distances_to(ranges, frames, n - 1);
        let now = report::distances_to(ranges, frames, n);
        assert(report::distance_fits(frames, ranges[n - 1].start));
        lemma_around(frames, ranges[n - 1].start.0);
        lemma_around(frames, ranges[n - 1].end.0);
        assert forall|i: int| 0 <= i < n implies {
            &&& tells_of(
                frames,
                (#[trigger] ranges[i]).start.0,
                BoundaryKind::Start,
                now[2 * i],
            )
            &&& tells_of(frames, ranges[i].end.0, BoundaryKind::End, now[2 * i + 1])
        } by {
            if i < n - 1 {
                assert(now[2 * i] == before[2 * i]);
                assert(now[2 * i + 1] == before[2 * i + 1]);
            }
        }
    }
}

/// A report tells of both ends of every kept range, in their order, each with the key frames
/// around it and how long it is to these.
pub proof fn distances_tell_of_every_boundary(
    ranges: Seq<TrimRange>,
    frames: Seq<DtviFrame>,
    distances: Seq<BoundaryDistance>,
)
    requires
        report::distances_fit(ranges, frames),
        distances == report::distances_to(ranges, frames, ranges.len() as int),
    ensures
        distances.len() == 2 * ranges.len(),
        forall|i: int|
            0 <= i < ranges.len() ==> {
                &&& tells_of(
                    frames,
                    (#[trigger] ranges[i]).start.0,
                    BoundaryKind::Start,
                    distances[2 * i],
                )
                &&& tells_of(frames, ranges[i].end.0, BoundaryKind::End, distances[2 * i + 1])
            },
{
    lemma_distances(ranges, frames, ranges.len() as int);
}

proof fn lemma_units_add(frames: Seq<DtviFrame>, a: int, b: int, c: int)
    requires
        a <= b <= c,
    ensures
        report::units_sum(frames, a, c) == report::units_sum(frames, a, b) + report::units_sum(
            frames,
            b,
            c,
        ),
    decreases c - b,
{
    if b < c {
        lemma_units_add(frames, a, b, c - 1);
    }
}

/// Lengths of frames add up: those of neighbouring stretches give that of both together, a single
/// frame is as long as its duration, and frames that do not exist have no length.
pub proof fn lengths_add_up(frames: Seq<DtviFrame>, a: u32, b: u32, c: u32)
    requires
        a <= b <= c,
    ensures
        report::units_between(frames, a, c) == report::units_between(frames, a, b)
            + report::units_between(frames, b, c),
        report::units_between(frames, b, a) == 0,
        b == a + 1 && a < frames.len() ==> report::units_between(frames, a, b)
            == frames[a as int].duration,
        a >= frames.len() ==> report::units_between(frames, a, b) == 0,
{
    lemma_units_add(
        frames,
        report::clamped(frames, a),
        report::clamped(frames, b),
        report::clamped(frames, c),
    );
    if b == a + 1 && a < frames.len() {
        assert(report::units_sum(frames, a as int, a as int) == 0);
        assert(report::units_sum(frames, a as int, a + 1) == report::units_sum(
            frames,
            a as int,
            a as int,
        ) + frames[a as int].duration);
    }
}

/// `k`, or `boundary` where there is no `k`.
pub open spec fn or_stay(k: Option<u32>, boundary: u32) -> u32 {
    match k {
        Some(x) => x,
        None => boundary,
    }
}

/// The distance of two numbers.
pub open spec fn apart(a: u32, b: u32) -> int {
    if a >= b {
        a - b
    } else {
        b - a
    }
}

/// How long the frames between two frame numbers are, whichever comes first.
pub open spec fn length_of(frames: Seq<DtviFrame>, a: u32, b: u32) -> int {
    report::units_between(frames, a, b) + report::units_between(frames, b, a)
}

/// The summary of a single range that is kept from `s` to `e` where `start` to `end` was asked for.
pub open spec fn sums_up_range(
    frames: Seq<DtviFrame>,
    start: u32,
    end: u32,
    s: u32,
    e: u32,
    summary: ReportSummary,
) -> bool {
    &&& summary.kept_ranges == 1
    &&& summary.cut_boundaries == 2
    &&& summary.extra_retained_frames_total == apart(start, s) + apart(end, e)
    &&& summary.extra_retained_units == length_of(frames, start, s) + length_of(frames, end, e)
    &&& summary.output_units == length_of(frames, s, e)
}

proof fn lemma_length_of(frames: Seq<DtviFrame>, a: u32, b: u32)
    ensures
        length_of(frames, a, b) == report::units_apart(frames, a, b),
{
    if a <= b {
        lengths_add_up(frames, a, b, b);
    } else {
        lengths_add_up(frames, b, a, a);
    }
}

/// The summary of one range: outward its start moves to the last key frame at or before it and its
/// end to the first one at or after it, inward the other way round, and an end without such a key
/// frame stays. What is kept is what lies between these, and the frames in between are extra.
pub proof fn summary_of_one_range(
    range: TrimRange,
    frames: Seq<DtviFrame>,
    snap: Snap,
    summary: ReportSummary,
    start_prev: Option<u32>,
    start_next: Option<u32>,
    end_prev: Option<u32>,
    end_next: Option<u32>,
)
    requires
        report::ascending(report::keyframes_of(frames)),
        report::is_summary(seq![range], frames, snap, summary),
        is_last_keyframe_to(frames, range.start.0, start_prev),
        is_first_keyframe_from(frames, range.start.0, start_next),
        is_last_keyframe_to(frames, range.end.0, end_prev),
        is_first_keyframe_from(frames, range.end.0, end_next),
    ensures
        snap == Snap::Outward ==> sums_up_range(
            frames,
            range.start.0,
            range.end.0,
            or_stay(start_prev, range.start.0),
            or_stay(end_next, range.end.0),
            summary,
        ),
        snap == Snap::Inward ==> sums_up_range(
            frames,
            range.start.0,
            range.end.0,
            or_stay(start_next, range.start.0),
            or_stay(end_prev, range.end.0),
            summary,
        ),
{
    let keys = report::keyframes_of(frames);
    let start = range.start.0;
    let end = range.end.0;
    lemma_around(frames, start);
    lemma_around(frames, end);
    assert(start_prev == report::keyframes_around(keys, start).0);
    assert(start_next == report::keyframes_around(keys, start).1);
    assert(end_prev == report::keyframes_around(keys, end).0);
    assert(end_next == report::keyframes_around(keys, end).1);
    let s = report::report_start(keys, snap, start);
    let e = report::report_end(keys, snap, end);
    lemma_length_of(frames, start, s);
    lemma_length_of(frames, end, e);
    lemma_length_of(frames, s, e);
    let one = seq![range];
    assert(one[0] == range);
    reveal_with_fuel(report::moved_frames, 2);
    reveal_with_fuel(report::moved_units, 2);
    reveal_with_fuel(report::kept_units, 2);
}

proof fn lemma_concat(
    a: Seq<TrimRange>,
    b: Seq<TrimRange>,
    frames: Seq<DtviFrame>,
    snap: Snap,
    n: int,
)
    requires
        0 <= n <= b.len(),
    ensures
        ({
            let m = a.len() as int;
            let keys = report::keyframes_of(frames);
            &&& report::moved_frames(a + b, keys, snap, m + n) == report::moved_frames(
                a,
                keys,
                snap,
                m,
            ) + report::moved_frames(b, keys, snap, n)
            &&& report::moved_units(a + b, frames, snap, m + n) == report::moved_units(
                a,
                frames,
                snap,
                m,
            ) + report::moved_units(b, frames, snap, n)
            &&& report::kept_units(a + b, frames, snap, m + n) == report::kept_units(
                a,
                frames,
                snap,
                m,
            ) + report::kept_units(b, frames, snap, n)
        }),
    decreases n,
{
    let m = a.len() as int;
    if n > 0 {
        lemma_concat(a, b, frames, snap, n - 1);
        assert((a + b)[m + n - 1] == b[n - 1]);
    } else {
        lemma_prefix(a, b, frames, snap, m);
    }
}

proof fn lemma_prefix(
    a: Seq<TrimRange>,
    b: Seq<TrimRange>,
    frames: Seq<DtviFrame>,
    snap: Snap,
    n: int,
)
    requires
        n <= a.len(),
    ensures
        ({
            let keys = report::keyframes_of(frames);
            &&& report::moved_frames(a + b, keys, snap, n) == report::moved_frames(
                a,
                keys,
                snap,
                n,
            )
            &&& report::moved_units(a + b, frames, snap, n) == report::moved_units(
                a,
                frames,
                snap,
                n,
            )
            &&& report::kept_units(a + b, frames, snap, n) == report::kept_units(
                a,
                frames,
                snap,
                n,
            )
        }),
    decreases n,
{
    if n > 0 {
        lemma_prefix(a, b, frames, snap, n - 1);
        assert((a + b)[n - 1] == a[n - 1]);
    }
}

/// Summaries add up: a list of ranges has, in each of its totals, the sum of what its two parts
/// have.
pub proof fn summaries_add_up(
    a: Seq<TrimRange>,
    b: Seq<TrimRange>,
    frames: Seq<DtviFrame>,
    snap: Snap,
    of_a: ReportSummary,
    of_b: ReportSummary,
    of_both: ReportSummary,
)
    requires
        report::is_summary(a, frames, snap, of_a),
        report::is_summary(b, frames, snap, of_b),
        report::is_summary(a + b, frames, snap, of_both),
    ensures
        of_both.kept_ranges == of_a.kept_ranges + of_b.kept_ranges,
        of_both.cut_boundaries == of_a.cut_boundaries + of_b.cut_boundaries,
        of_both.extra_retained_frames_total == of_a.extra_retained_frames_total
            + of_b.extra_retained_frames_total,
        of_both.extra_retained_units == of_a.extra_retained_units + of_b.extra_retained_units,
        of_both.output_units == of_a.output_units + of_b.output_units,
{
    lemma_concat(a, b, frames, snap, b.len() as int);
}

/// How long the first `n` ranges are as they were asked for.
pub open spec fn asked_units(ranges: Seq<TrimRange>, frames: Seq<DtviFrame>, n: int) -> int
    decreases n,
{
    if n <= 0 {
        0
    } else {
        asked_units(ranges, frames, n - 1) + report::units_between(
            frames,
            ranges[n - 1].start.0,
            ranges[n - 1].end.0,
        )
    }
}

proof fn lemma_outward(ranges: Seq<TrimRange>, frames: Seq<DtviFrame>, n: int)
    requires
        report::ascending(report::keyframes_of(frames)),
        0 <= n <= ranges.len(),
        forall|i: int|
            0 <= i < ranges.len() ==> (#[trigger] ranges[i]).start.0 <= ranges[i].end.0,
    ensures
        report::kept_units(ranges, frames, Snap::Outward, n) == asked_units(ranges, frames, n)
            + report::moved_units(ranges, frames, Snap::Outward, n),
    decreases n,
{
    if n > 0 {
        lemma_outward(ranges, frames, n - 1);
        let keys = report::keyframes_of(frames);
        let start = ranges[n - 1].start.0;
        let end = ranges[n - 1].end.0;
        assert(start <= end);
        report::keyframes_around_enclose(keys, start);
        report::keyframes_around_enclose(keys, end);
        let s = report::report_start(keys, Snap::Outward, start);
        let e = report::report_end(keys, Snap::Outward, end);
        assert(s <= start && end <= e);
        lengths_add_up(frames, s, start, end);
        lengths_add_up(frames, s, end, e);
        lengths_add_up(frames, s, s, start);
        lengths_add_up(frames, end, end, e);
    }
}

/// Moving outward, the output is as long as what was asked for and the extra frames together.
pub proof fn outward_output_is_what_was_asked_and_the_extra(
    ranges: Seq<TrimRange>,
    frames: Seq<DtviFrame>,
    summary: ReportSummary,
)
    requires
        report::ascending(report::keyframes_of(frames)),
        report::is_summary(ranges, frames, Snap::Outward, summary),
        forall|i: int|
            0 <= i < ranges.len() ==> (#[trigger] ranges[i]).start.0 <= ranges[i].end.0,
    ensures
        summary.output_units == asked_units(ranges, frames, ranges.len() as int)
            + summary.extra_retained_units,
{
    lemma_outward(ranges, frames, ranges.len() as int);
}

proof fn lemma_inward(ranges: Seq<TrimRange>, frames: Seq<DtviFrame>, n: int)
    requires
        report::ascending(report::keyframes_of(frames)),
        0 <= n <= ranges.len(),
        forall|i: int|
            0 <= i < ranges.len() ==> holds_keyframe(frames, #[trigger] ranges[i]),
    ensures
        asked_units(ranges, frames, n) == report::kept_units(ranges, frames, Snap::Inward, n)
            + report::moved_units(ranges, frames, Snap::Inward, n),
    decreases n,
{
    if n > 0 {
        lemma_inward(ranges, frames, n - 1);
        let keys = report::keyframes_of(frames);
        let start = ranges[n - 1].start.0;
        let end = ranges[n - 1].end.0;
        assert(holds_keyframe(frames, ranges[n - 1]));
        let x = choose|x: u32| #[trigger] is_keyframe(frames, x) && start <= x <= end;
        lemma_around(frames, start);
        lemma_around(frames, end);
        let s = report::report_start(keys, Snap::Inward, start);
        let e = report::report_end(keys, Snap::Inward, end);
        assert(start <= s <= x && x <= e <= end);
        lengths_add_up(frames, start, s, e);
        lengths_add_up(frames, start, e, end);
        lengths_add_up(frames, s, s, e);
    }
}

/// A range has a key frame, its ends included.
pub open spec fn holds_keyframe(frames: Seq<DtviFrame>, range: TrimRange) -> bool {
    exists|x: u32| #[trigger] is_keyframe(frames, x) && range.start.0 <= x <= range.end.0
}

/// Moving inward, the output and the frames by which the ends moved are together as long as what
/// was asked for, where every range has a key frame.
pub proof fn inward_output_is_what_was_asked_without_the_rest(
    ranges: Seq<TrimRange>,
    frames: Seq<DtviFrame>,
    summary: ReportSummary,
)
    requires
        report::ascending(report::keyframes_of(frames)),
        report::is_summary(ranges, frames, Snap::Inward, summary),
        forall|i: int|
            0 <= i < ranges.len() ==> holds_keyframe(frames, #[trigger] ranges[i]),
    ensures
        summary.output_units + summary.extra_retained_units == asked_units(
            ranges,
            frames,
            ranges.len() as int,
        ),
{
    lemma_inward(ranges, frames, ranges.len() as int);
}

} // verus!
