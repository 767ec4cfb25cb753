//! What refining between key frames comes to, frame by frame.

use crate::logo::hier;
use crate::logo::hier::{AssembleError, Gop, RefinedRange};
use crate::words;
use vstd::prelude::*;

verus! {

/// A group of pictures starts at its key frame and ends where the next one starts, the last one at
/// the end of the video.
pub proof fn gops_follow_each_other(kf_frame_numbers: Seq<u64>, total_frames: u64, i: int)
    requires
        0 <= i < kf_frame_numbers.len() <= usize::MAX,
    ensures
        hier::gops_of(kf_frame_numbers, total_frames).len() == kf_frame_numbers.len(),
        hier::gops_of(kf_frame_numbers, total_frames)[i].kf_index == i,
        hier::gops_of(kf_frame_numbers, total_frames)[i].start == kf_frame_numbers[i],
        i + 1 < kf_frame_numbers.len() ==> hier::gops_of(kf_frame_numbers, total_frames)[i].end
            == hier::gops_of(kf_frame_numbers, total_frames)[i + 1].start,
        i + 1 == kf_frame_numbers.len() ==> hier::gops_of(kf_frame_numbers, total_frames)[i].end
            == total_frames,
{
}

/// Both labels are known and say the same.
pub open spec fn agree(a: Option<bool>, b: Option<bool>) -> bool {
    ||| a == Some(true) && b == Some(true)
    ||| a == Some(false) && b == Some(false)
}

/// Group `g` and the one behind it do not agree.
pub open spec fn parts(labels: Seq<Option<bool>>, g: int) -> bool {
    0 <= g && g + 1 < labels.len() && !agree(labels[g], labels[g + 1])
}

/// The groups that are refined are the first, the last, both sides of every place at which labels
/// do not agree, and the next group on its left, in ascending order and each once.
pub proof fn groups_around_changes_are_refined(labels: Seq<Option<bool>>)
    requires
        labels.len() <= usize::MAX,
    ensures
        forall|i: usize|
            i < labels.len() ==> (#[trigger] hier::targets(labels, labels.len() as int).contains(i)
                <==> {
                ||| i == 0
                ||| i + 1 == labels.len()
                ||| parts(labels, i - 1)
                ||| parts(labels, i as int)
                ||| parts(labels, i + 1)
            }),
        forall|i: usize| #[trigger]
            hier::targets(labels, labels.len() as int).contains(i) ==> i < labels.len(),
        forall|a: int, b: int|
            0 <= a < b < hier::targets(labels, labels.len() as int).len()
                ==> #[trigger] hier::targets(labels, labels.len() as int)[a]
                < #[trigger] hier::targets(labels, labels.len() as int)[b],
{
    lemma_targets(labels, labels.len() as int);
    assert forall|a: Option<bool>, b: Option<bool>| #[trigger]
        hier::conflict(a, b) == !agree(a, b) by {
        if a is Some && b is Some {
            let (x, y) = (a->0, b->0);
            assert(a == Some(x) && b == Some(y));
            assert(x == y <==> (x && y) || (!x && !y));
        }
    }
}

proof fn lemma_targets(labels: Seq<Option<bool>>, n: int)
    requires
        0 <= n <= labels.len() <= usize::MAX,
    ensures
        forall|i: usize| #[trigger]
            hier::targets(labels, n).contains(i) <==> i < n && hier::is_target(labels, i as int),
        forall|a: int, b: int|
            0 <= a < b < hier::targets(labels, n).len() ==> #[trigger] hier::targets(labels, n)[a]
                < #[trigger] hier::targets(labels, n)[b],
    decreases n,
{
    if n > 0 {
        lemma_targets(labels, n - 1);
        let before = hier::targets(labels, n - 1);
        let all = hier::targets(labels, n);
        assert forall|a: int| 0 <= a < before.len() implies #[trigger] before[a] < n - 1 by {
            assert(before.contains(before[a]));
        }
        assert forall|i: usize| #[trigger] all.contains(i) <==> i < n && hier::is_target(
            labels,
            i as int,
        ) by {
            if all.contains(i) {
                let k = choose|k: int| 0 <= k < all.len() && all[k] == i;
                if k < before.len() {
                    assert(before[k] == i && before.contains(i));
                }
            }
            if i < n && hier::is_target(labels, i as int) {
                if i < n - 1 {
                    assert(before.contains(i));
                    let k = choose|k: int| 0 <= k < before.len() && before[k] == i;
                    assert(all[k] == i);
                } else {
                    assert(all[before.len() as int] == i);
                }
            }
        }
    }
}

/// A frame takes its value from the last range that has it.
pub proof fn refined_frames_take_the_refined_value<T>(
    kf_frame_numbers: Seq<u64>,
    kf_scores: Seq<T>,
    refined: Seq<RefinedRange<T>>,
    frame: int,
    r: int,
)
    requires
        0 <= r < refined.len(),
        refined[r].start_frame <= frame < refined[r].start_frame + refined[r].scores@.len(),
        forall|k: int|
            r < k < refined.len() ==> frame < (#[trigger] refined[k]).start_frame
                || refined[k].start_frame + refined[k].scores@.len() <= frame,
    ensures
        hier::score_at(kf_frame_numbers, kf_scores, refined, refined.len() as int, frame)
            == refined[r].scores@[frame - refined[r].start_frame],
{
    lemma_refined(kf_frame_numbers, kf_scores, refined, frame, r, refined.len() as int);
}

proof fn lemma_refined<T>(
    kf: Seq<u64>,
    kf_scores: Seq<T>,
    refined: Seq<RefinedRange<T>>,
    frame: int,
    r: int,
    n: int,
)
    requires
        0 <= r < n <= refined.len(),
        refined[r].start_frame <= frame < refined[r].start_frame + refined[r].scores@.len(),
        forall|k: int|
            r < k < n ==> frame < (#[trigger] refined[k]).start_frame || refined[k].start_frame
                + refined[k].scores@.len() <= frame,
    ensures
        hier::score_at(kf, kf_scores, refined, n, frame) == refined[r].scores@[frame
            - refined[r].start_frame],
    decreases n,
{
    if n - 1 > r {
        assert(!hier::has_frame(refined[n - 1], frame));
        lemma_refined(kf, kf_scores, refined, frame, r, n - 1);
    }
}

/// A frame that no range has takes the value of the last key frame that is not behind it.
pub proof fn other_frames_take_the_value_of_their_key_frame<T>(
    kf_frame_numbers: Seq<u64>,
    kf_scores: Seq<T>,
    refined: Seq<RefinedRange<T>>,
    frame: u64,
    k: int,
)
    requires
        forall|r: int|
            0 <= r < refined.len() ==> frame < (#[trigger] refined[r]).start_frame
                || refined[r].start_frame + refined[r].scores@.len() <= frame,
        0 <= k < kf_frame_numbers.len(),
        kf_frame_numbers[k] <= frame,
        forall|j: int|
            k < j < kf_frame_numbers.len() ==> frame < #[trigger] kf_frame_numbers[j],
    ensures
        hier::score_at(kf_frame_numbers, kf_scores, refined, refined.len() as int, frame as int)
            == kf_scores[k],
{
    lemma_holder(kf_frame_numbers, frame, k, kf_frame_numbers.len() as int);
    lemma_unrefined(kf_frame_numbers, kf_scores, refined, frame, refined.len() as int);
}

proof fn lemma_holder(kf: Seq<u64>, frame: u64, k: int, n: int)
    requires
        0 <= k < n <= kf.len(),
        kf[k] <= frame,
        forall|j: int| k < j < n ==> frame < #[trigger] kf[j],
    ensures
        hier::holder(kf, frame, n) == k,
    decreases n,
{
    if n - 1 > k {
        assert(frame < kf[n - 1]);
        lemma_holder(kf, frame, k, n - 1);
    }
}

proof fn lemma_unrefined<T>(
    kf: Seq<u64>,
    kf_scores: Seq<T>,
    refined: Seq<RefinedRange<T>>,
    frame: u64,
    n: int,
)
    requires
        0 <= n <= refined.len(),
        forall|r: int|
            0 <= r < refined.len() ==> frame < (#[trigger] refined[r]).start_frame
                || refined[r].start_frame + refined[r].scores@.len() <= frame,
    ensures
        hier::score_at(kf, kf_scores, refined, n, frame as int) == kf_scores[hier::holder(
            kf,
            frame,
            kf.len() as int,
        )],
    decreases n,
{
    if n > 0 {
        assert(!hier::has_frame(refined[n - 1], frame as int));
        lemma_unrefined(kf, kf_scores, refined, frame, n - 1);
    }
}

/// All ranges among the first `n` end within the video.
pub open spec fn end_within<T>(refined: Seq<RefinedRange<T>>, total_frames: u64, n: int) -> bool {
    forall|r: int|
        0 <= r < n ==> (#[trigger] refined[r]).scores@.len() == 0 || refined[r].start_frame
            + refined[r].scores@.len() <= total_frames
}

/// Values can be put together where, and only where, there is a key frame, one value for each, the
/// first frame is one, and all ranges end within the video.
pub proof fn values_can_be_put_together<T>(
    kf_frame_numbers: Seq<u64>,
    kf_scores: Seq<T>,
    total_frames: u64,
    refined: Seq<RefinedRange<T>>,
)
    ensures
        hier::assembly_error(kf_frame_numbers, kf_scores, total_frames, refined) is None <==> {
            &&& kf_frame_numbers.len() == kf_scores.len()
            &&& kf_frame_numbers.len() > 0
            &&& kf_frame_numbers[0] == 0
            &&& end_within(refined, total_frames, refined.len() as int)
        },
        kf_frame_numbers.len() != kf_scores.len() ==> hier::assembly_error(
            kf_frame_numbers,
            kf_scores,
            total_frames,
            refined,
        ) == Some(
            AssembleError::LengthMismatch {
                key_frames: kf_frame_numbers.len() as usize,
                scores: kf_scores.len() as usize,
            },
        ),
        kf_frame_numbers.len() == 0 && kf_scores.len() == 0 ==> hier::assembly_error(
            kf_frame_numbers,
            kf_scores,
            total_frames,
            refined,
        ) == Some(AssembleError::NoKeyframe),
        kf_frame_numbers.len() == kf_scores.len() && kf_frame_numbers.len() > 0
            && kf_frame_numbers[0] != 0 ==> hier::assembly_error(
            kf_frame_numbers,
            kf_scores,
            total_frames,
            refined,
        ) == Some(AssembleError::FirstIsNoKeyframe { first: kf_frame_numbers[0] }),
        hier::assembly_error(kf_frame_numbers, kf_scores, total_frames, refined) matches Some(
            AssembleError::BeyondEnd { idx, total },
        ) ==> total == total_frames && idx >= total_frames && is_first_beyond(
            refined,
            total_frames,
            idx,
        ),
{
    lemma_overrun(refined, total_frames, refined.len() as int);
}

/// `idx` is the first frame of a range that is not in the video, and the ranges before that range
/// end within the video.
pub open spec fn is_first_beyond<T>(
    refined: Seq<RefinedRange<T>>,
    total_frames: u64,
    idx: u64,
) -> bool {
    exists|r: int|
        {
            &&& 0 <= r < refined.len()
            &&& #[trigger] end_within(refined, total_frames, r)
            &&& refined[r].start_frame <= idx < refined[r].start_frame + refined[r].scores@.len()
            &&& idx == refined[r].start_frame || idx == total_frames
        }
}

proof fn lemma_overrun<T>(refined: Seq<RefinedRange<T>>, total_frames: u64, n: int)
    requires
        0 <= n <= refined.len(),
    ensures
        hier::overrun(refined, total_frames, n) is None <==> end_within(refined, total_frames, n),
        hier::overrun(refined, total_frames, n) matches Some(at) ==> {
            &&& total_frames <= at <= u64::MAX
            &&& is_first_beyond(refined, total_frames, at as u64)
        },
    decreases n,
{
    if n > 0 {
        lemma_overrun(refined, total_frames, n - 1);
        if hier::overrun(refined, total_frames, n - 1) is None {
            assert(end_within(refined, total_frames, n - 1));
        }
    }
}

/// A frame is in the group and in the range; the range has its last frame.
pub open spec fn share(gop: Gop, range: (u64, u64), frame: u64) -> bool {
    gop.start <= frame < gop.end && range.0 <= frame <= range.1
}

/// The groups that overlap ranges are those, and only those, that share a frame with one of them,
/// in ascending order and each once.
pub proof fn groups_that_share_a_frame_overlap(gops: Seq<Gop>, ranges: Seq<(u64, u64)>)
    requires
        gops.len() <= usize::MAX,
        forall|g: int| 0 <= g < gops.len() ==> (#[trigger] gops[g]).start < gops[g].end,
        forall|k: int| 0 <= k < ranges.len() ==> (#[trigger] ranges[k]).0 <= ranges[k].1,
    ensures
        forall|g: usize|
            g < gops.len() ==> (#[trigger] hier::overlapping(
                gops,
                ranges,
                gops.len() as int,
            ).contains(g) <==> exists|k: int, frame: u64|
                0 <= k < ranges.len() && #[trigger] share(gops[g as int], ranges[k], frame)),
        forall|a: int, b: int|
            0 <= a < b < hier::overlapping(gops, ranges, gops.len() as int).len()
                ==> #[trigger] hier::overlapping(gops, ranges, gops.len() as int)[a]
                < #[trigger] hier::overlapping(gops, ranges, gops.len() as int)[b],
{
    lemma_overlapping(gops, ranges, gops.len() as int);
    assert forall|g: int| 0 <= g < gops.len() implies #[trigger] hier::overlaps(gops[g], ranges) == (
    exists|k: int, frame: u64|
        0 <= k < ranges.len() && #[trigger] share(gops[g], ranges[k], frame)) by {
        let gop = gops[g];
        if hier::overlaps(gop, ranges) {
            let k = choose|k: int|
                0 <= k < ranges.len() && gop.start <= (#[trigger] ranges[k]).1 && ranges[k].0
                    < gop.end;
            let frame = if gop.start > ranges[k].0 {
                gop.start
            } else {
                ranges[k].0
            };
            assert(share(gops[g], ranges[k], frame));
        }
        if exists|k: int, frame: u64|
            0 <= k < ranges.len() && #[trigger] share(gops[g], ranges[k], frame) {
            let (k, frame) = choose|k: int, frame: u64|
                0 <= k < ranges.len() && #[trigger] share(gops[g], ranges[k], frame);
            assert(gop.start <= ranges[k].1 && ranges[k].0 < gop.end);
        }
    }
}

proof fn lemma_overlapping(gops: Seq<Gop>, ranges: Seq<(u64, u64)>, n: int)
    requires
        0 <= n <= gops.len() <= usize::MAX,
    ensures
        forall|g: usize| #[trigger]
            hier::overlapping(gops, ranges, n).contains(g) <==> g < n && hier::overlaps(
                gops[g as int],
                ranges,
            ),
        forall|a: int, b: int|
            0 <= a < b < hier::overlapping(gops, ranges, n).len()
                ==> #[trigger] hier::overlapping(gops, ranges, n)[a]
                < #[trigger] hier::overlapping(gops, ranges, n)[b],
    decreases n,
{
    if n > 0 {
        lemma_overlapping(gops, ranges, n - 1);
        let before = hier::overlapping(gops, ranges, n - 1);
        let all = hier::overlapping(gops, ranges, n);
        assert forall|a: int| 0 <= a < before.len() implies #[trigger] before[a] < n - 1 by {
            assert(before.contains(before[a]));
        }
        assert forall|g: usize| #[trigger] all.contains(g) <==> g < n && hier::overlaps(
            gops[g as int],
            ranges,
        ) by {
            if all.contains(g) {
                let k = choose|k: int| 0 <= k < all.len() && all[k] == g;
                if k < before.len() {
                    assert(before[k] == g && before.contains(g));
                }
            }
            if g < n && hier::overlaps(gops[g as int], ranges) {
                if g < n - 1 {
                    assert(before.contains(g));
                    let k = choose|k: int| 0 <= k < before.len() && before[k] == g;
                    assert(all[k] == g);
                } else {
                    assert(all[before.len() as int] == g);
                }
            }
        }
    }
}

/// The ranges of lines are those of each line, one after another.
pub proof fn ranges_of_lines_add_up(a: Seq<Seq<char>>, b: Seq<Seq<char>>)
    ensures
        hier::touched_ranges(a + b, (a + b).len() as int) == hier::touched_ranges(
            a,
            a.len() as int,
        ) + hier::touched_ranges(b, b.len() as int),
{
    lemma_ranges(a, b, b.len() as int);
}

proof fn lemma_ranges(a: Seq<Seq<char>>, b: Seq<Seq<char>>, n: int)
    requires
        0 <= n <= b.len(),
    ensures
        hier::touched_ranges(a + b, a.len() + n) == hier::touched_ranges(a, a.len() as int)
            + hier::touched_ranges(b, n),
    decreases n,
{
    if n > 0 {
        lemma_ranges(a, b, n - 1);
        assert((a + b)[a.len() + n - 1] == b[n - 1]);
        assert(hier::touched_ranges(a + b, a.len() + n) =~= hier::touched_ranges(
            a,
            a.len() as int,
        ) + hier::touched_ranges(b, n));
    } else {
        lemma_ranges_agree(a, b, a.len() as int);
        assert(hier::touched_ranges(b, 0) =~= Seq::empty());
        assert(hier::touched_ranges(a + b, a.len() as int) =~= hier::touched_ranges(
            a,
            a.len() as int,
        ) + hier::touched_ranges(b, 0));
    }
}

proof fn lemma_ranges_agree(a: Seq<Seq<char>>, b: Seq<Seq<char>>, n: int)
    requires
        0 <= n <= a.len(),
    ensures
        hier::touched_ranges(a + b, n) == hier::touched_ranges(a, n),
    decreases n,
{
    if n > 0 {
        lemma_ranges_agree(a, b, n - 1);
        assert((a + b)[n - 1] == a[n - 1]);
    }
}

/// A line has a range where it has six words of which the last two are numbers that are not
/// negative and in order: the range from the one to the other.
pub proof fn lines_of_six_words_have_ranges(line: Seq<char>)
    ensures
        ({
            let columns = words::words(line, line.len() as int);
            &&& columns.len() != 6 ==> hier::touched_range(line) is None
            &&& columns.len() == 6 && (words::number(columns[4]) is None || words::number(
                columns[5],
            ) is None) ==> hier::touched_range(line) is None
            &&& columns.len() == 6 && words::number(columns[4]) is Some && words::number(columns[5])
                is Some ==> {
                let start = words::number(columns[4])->0;
                let end = words::number(columns[5])->0;
                &&& 0 <= start <= end ==> hier::touched_range(line) is Some
                &&& !(0 <= start <= end) ==> hier::touched_range(line) is None
                &&& hier::touched_range(line) matches Some(range) ==> range.0 == start && range.1
                    == end
            }
        }),
{
}

} // verus!
