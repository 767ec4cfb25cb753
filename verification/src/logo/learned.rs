//! What is learned of a logo, and how a learned logo is found again.

use crate::logo::dict;
use crate::logo::dict::CandidateScore;
use crate::logo::dilate;
use crate::logo::frames::LogoRect;
use crate::logo::scan;
use crate::logo::scan::MakeLogoConfig;
use crate::sums;
use crate::text;
use vstd::prelude::*;

verus! {

/// Rounding takes away no more than it must: what is even stays, and what is odd loses one.
pub proof fn rounding_takes_at_most_one(rect: LogoRect)
    ensures
        rect.x % 2 == 0 ==> scan::even_rect(rect).x == rect.x,
        rect.x % 2 == 1 ==> scan::even_rect(rect).x + 1 == rect.x,
        rect.y % 2 == 0 ==> scan::even_rect(rect).y == rect.y,
        rect.y % 2 == 1 ==> scan::even_rect(rect).y + 1 == rect.y,
        rect.w % 2 == 0 ==> scan::even_rect(rect).w == rect.w,
        rect.w % 2 == 1 ==> scan::even_rect(rect).w + 1 == rect.w,
        rect.h % 2 == 0 ==> scan::even_rect(rect).h == rect.h,
        rect.h % 2 == 1 ==> scan::even_rect(rect).h + 1 == rect.h,
{
}

/// A frame has a background where, and only where, it has border pixels and no two of them differ
/// by more than the threshold.
pub proof fn backgrounds_are_even(frame: Seq<u8>, at: Seq<usize>, threshold: u8)
    ensures
        scan::background_of(frame, at, threshold) is Some <==> {
            &&& at.len() > 0
            &&& forall|i: int, j: int|
                0 <= i < at.len() && 0 <= j < at.len() ==> frame[#[trigger] at[i] as int]
                    - frame[#[trigger] at[j] as int] <= threshold
        },
{
    let values = scan::values_at(frame, at);
    if scan::within(values, threshold) {
        assert forall|i: int, j: int| 0 <= i < at.len() && 0 <= j < at.len() implies frame[
        #[trigger] at[i] as int] - frame[#[trigger] at[j] as int] <= threshold by {
            assert(values[i] <= values[j] + threshold);
        }
    }
    if forall|i: int, j: int|
        0 <= i < at.len() && 0 <= j < at.len() ==> frame[#[trigger] at[i] as int] - frame[
        #[trigger] at[j] as int] <= threshold {
        assert forall|i: int, j: int|
            0 <= i < values.len() && 0 <= j < values.len() implies #[trigger] values[i]
            <= #[trigger] values[j] + threshold by {
            assert(frame[at[i] as int] - frame[at[j] as int] <= threshold);
        }
    }
}

/// The background is the sum of the border pixels without the darkest and the brightest quarter of
/// them, rounded down, and their number.
pub proof fn backgrounds_leave_out_the_extremes(
    frame: Seq<u8>,
    at: Seq<usize>,
    threshold: u8,
    sorted: Seq<u32>,
)
    requires
        scan::background_of(frame, at, threshold) is Some,
        255 * at.len() <= u64::MAX,
        at.len() <= usize::MAX,
        sorted.len() == at.len(),
        sorted.to_multiset() == Seq::new(
            at.len(),
            |i: int| frame[at[i] as int] as u32,
        ).to_multiset(),
        forall|i: int, j: int|
            0 <= i < j < sorted.len() ==> #[trigger] sorted[i] <= #[trigger] sorted[j],
    ensures
        ({
            let background = scan::background_of(frame, at, threshold)->0;
            let quarter = (at.len() / 4) as int;
            &&& background.count == at.len() - 2 * quarter
            &&& background.sum == sums::sum_to(sorted, at.len() - quarter) - sums::sum_to(
                sorted,
                quarter,
            )
        }),
{
    let values = scan::values_at(frame, at);
    let leq = |a: u32, b: u32| a <= b;
    values.lemma_sort_by_ensures(leq);
    assert(vstd::relations::sorted_by(sorted, leq));
    assert(values =~= Seq::new(at.len(), |i: int| frame[at[i] as int] as u32));
    vstd::seq_lib::lemma_sorted_unique(sorted, scan::ascending(values), leq);
    let n = at.len() as int;
    let quarter = (at.len() / 4) as int;
    let middle = scan::middle_half(values);
    assert(middle =~= sorted.subrange(quarter, n - quarter));
    lemma_part(sorted, quarter, middle.len() as int);
    assert forall|i: int| 0 <= i < n implies #[trigger] sorted[i] <= 255 by {
        broadcast use vstd::seq_lib::group_to_multiset_ensures;

        assert(sorted.contains(sorted[i]));
        assert(sorted.to_multiset().contains(sorted[i]));
        assert(values.contains(sorted[i]));
    }
    lemma_small_sum(sorted, n);
    sums::lemma_sum_to_monotone(sorted, quarter, n - quarter);
    sums::lemma_sum_to_monotone(sorted, n - quarter, n);
    sums::lemma_sum_to_monotone(sorted, 0, quarter);
}

proof fn lemma_part(s: Seq<u32>, lo: int, n: int)
    requires
        0 <= lo,
        0 <= n,
        lo + n <= s.len(),
    ensures
        sums::sum_to(s.subrange(lo, lo + n), n) == sums::sum_to(s, lo + n) - sums::sum_to(s, lo),
    decreases n,
{
    if n > 0 {
        lemma_part(s, lo, n - 1);
        let part = s.subrange(lo, lo + n);
        sums::lemma_sum_to_agree(part, s.subrange(lo, lo + n - 1), n - 1);
        assert(part[n - 1] == s[lo + n - 1]);
    }
}

proof fn lemma_small_sum(s: Seq<u32>, n: int)
    requires
        0 <= n <= s.len(),
        forall|i: int| 0 <= i < n ==> #[trigger] s[i] <= 255,
    ensures
        0 <= sums::sum_to(s, n) <= 255 * n,
    decreases n,
{
    if n > 0 {
        lemma_small_sum(s, n - 1);
    }
}

/// A coefficient can be used where its exponent is not all ones, and where it is a factor, it is
/// not zero of either sign.
pub proof fn usable_coefficients_are_numbers(a: u64, b: u64)
    ensures
        scan::is_usable_coefficient(a, b) <==> {
            &&& (a / 0x10_0000_0000_0000) % 0x800 != 0x7ff
            &&& (b / 0x10_0000_0000_0000) % 0x800 != 0x7ff
            &&& a != 0
            &&& a != 0x8000_0000_0000_0000
        },
{
    assert(scan::is_finite_bits(a) <==> (a / 0x10_0000_0000_0000) % 0x800 != 0x7ff);
    assert(scan::is_finite_bits(b) <==> (b / 0x10_0000_0000_0000) % 0x800 != 0x7ff);
}

/// A learned logo lies where it was looked for. It says nothing of colours: their planes, of half
/// the width and half the height, change nothing.
pub proof fn learned_logos_say_nothing_of_colours(
    config: &MakeLogoConfig,
    a_y: Seq<u32>,
    b_y: Seq<u32>,
    i: int,
)
    requires
        config.rect.x <= i32::MAX,
        config.rect.y <= i32::MAX,
        config.rect.w <= i32::MAX,
        config.rect.h <= i32::MAX,
        config.video_size.width <= i32::MAX,
        config.video_size.height <= i32::MAX,
        0 <= i < (config.rect.w / 2) * (config.rect.h / 2),
    ensures
        ({
            let logo = config.spec_logo(a_y, b_y);
            let n = (config.rect.w / 2) * (config.rect.h / 2);
            &&& logo.imgx == config.rect.x
            &&& logo.imgy == config.rect.y
            &&& logo.w == config.rect.w
            &&& logo.h == config.rect.h
            &&& logo.imgw == config.video_size.width
            &&& logo.imgh == config.video_size.height
            &&& logo.log_uv_x == 1
            &&& logo.log_uv_y == 1
            &&& logo.name == config.name@
            &&& logo.service_id == config.service_id
            &&& logo.a_y == a_y
            &&& logo.b_y == b_y
            &&& logo.a_u.len() == n && logo.a_u[i] == 0x3f80_0000
            &&& logo.b_u.len() == n && logo.b_u[i] == 0
            &&& logo.a_v.len() == n && logo.a_v[i] == 0x3f80_0000
            &&& logo.b_v.len() == n && logo.b_v[i] == 0
        }),
{
}

/// A pixel of a cropped frame is the pixel of the frame that lies as far from the corner of the
/// rectangle.
pub proof fn cropped_pixels_are_those_of_the_frame(
    frame: Seq<u8>,
    frame_width: int,
    x: int,
    y: int,
    w: int,
    h: int,
    column: int,
    row: int,
)
    requires
        0 <= column < w,
        0 <= row < h,
    ensures
        dict::cropped(frame, frame_width, x, y, w, h).len() == w * h,
        0 <= row * w + column < w * h,
        dict::cropped(frame, frame_width, x, y, w, h)[row * w + column] == frame[(y + row)
            * frame_width + x + column],
{
    let i = row * w + column;
    assert(0 <= i < w * h && i % w == column && i / w == row) by (nonlinear_arith)
        requires
            i == row * w + column,
            0 <= column < w,
            0 <= row < h,
    ;
    assert(dilate::at(x + column, y + row, frame_width) == (y + row) * frame_width + x + column);
}

/// The number of frames in which a logo is found is the number of these frames: with the logo the
/// measure is above 0.2, and without it less than 0.2 is left of it, both as the bits of numbers.
pub proof fn found_frames_are_counted(frames: Seq<(i32, u32)>, n: int)
    requires
        0 <= n <= frames.len(),
    ensures
        Set::new(
            |i: int|
                0 <= i < n && frames[i].0 > 0x3e4c_cccd && frames[i].1 < 0x3e4c_cccd,
        ).finite(),
        dict::found_count(frames, n) == Set::new(
            |i: int|
                0 <= i < n && frames[i].0 > 0x3e4c_cccd && frames[i].1 < 0x3e4c_cccd,
        ).len(),
    decreases n,
{
    let now = Set::new(
        |i: int| 0 <= i < n && frames[i].0 > 0x3e4c_cccd && frames[i].1 < 0x3e4c_cccd,
    );
    if n > 0 {
        found_frames_are_counted(frames, n - 1);
        let before = Set::new(
            |i: int|
                0 <= i < n - 1 && frames[i].0 > 0x3e4c_cccd && frames[i].1 < 0x3e4c_cccd,
        );
        if frames[n - 1].0 > 0x3e4c_cccd && frames[n - 1].1 < 0x3e4c_cccd {
            assert(now =~= before.insert(n - 1));
        } else {
            assert(now =~= before);
        }
    } else {
        assert(now =~= Set::empty());
    }
}

/// The best candidate has the lowest score, and is the first one that has it. There is only one.
pub proof fn best_candidate_is_the_first_of_the_lowest(
    scores: Seq<CandidateScore>,
    i: int,
    k: int,
)
    requires
        dict::is_best(scores, i),
        0 <= k < scores.len(),
    ensures
        scores[i].score <= scores[k].score,
        scores[k].score == scores[i].score ==> i <= k,
        dict::is_best(scores, k) ==> k == i,
{
}

/// A logo is detected where the frames that show it are a large enough part of all frames, and not
/// where there is no frame, unless no part is asked for.
pub proof fn logos_are_detected_by_their_part_of_the_frames(s: CandidateScore, threshold: (u32, u32))
    ensures
        s.total > 0 ==> (dict::is_detected(s, threshold) <==> s.detected * threshold.1 >= s.total
            * threshold.0),
        s.total == 0 ==> (dict::is_detected(s, threshold) <==> threshold.0 == 0),
{
    assert(s.total * threshold.0 == threshold.0 * s.total) by (nonlinear_arith);
}

/// A logo is saved under its name, and where that is taken under the name with a number, from 2 on.
pub proof fn taken_names_get_a_number(stem: Seq<char>, attempt: nat)
    ensures
        attempt < 2 ==> dict::file_name(stem, attempt) == stem + ".lgd"@,
        attempt >= 2 ==> dict::file_name(stem, attempt) == stem + ("-"@ + text::decimal(attempt)
            + ".lgd"@),
{
    assert(stem + "-"@ + text::decimal(attempt) + ".lgd"@ =~= stem + ("-"@ + text::decimal(attempt)
        + ".lgd"@));
}

} // verus!
