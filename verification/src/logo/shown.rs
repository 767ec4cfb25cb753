//! What the intervals in which a logo is shown stand for, by the measures of the frames.
//!
//! Numbers that stand for measures are written out here: `0x3e4c_cccd` stands for 0.2 and
//! `-0x3e4c_ccce` for -0.2, `0x3f00_0000` stands for 0.5 and `-0x3f00_0001` for -0.5.

use crate::logo::interval;
use crate::logo::interval::{Judgement, Windows};
use crate::sort;
use vstd::prelude::*;

verus! {

/// `s` is where an interval starts that is found at frame `found`: the medians are high from there
/// to `found`, or from `found` on they are not high before it.
pub open spec fn is_start_by_median(
    score: Seq<i32>,
    from: int,
    found: int,
    s: int,
) -> bool {
    if score[found] >= 0x3e4c_cccd {
        &&& from <= s <= found
        &&& forall|k: int| s <= k <= found ==> #[trigger] score[k] >= 0x3e4c_cccd
        &&& s == from || score[s - 1] < 0x3e4c_cccd
    } else {
        &&& found < s <= score.len()
        &&& forall|k: int| found <= k < s ==> #[trigger] score[k] < 0x3e4c_cccd
        &&& s == score.len() || score[s] >= 0x3e4c_cccd
    }
}

/// `e` is where an interval from `s` on ends that is lost at frame `lost`: the medians are low from
/// there to `lost`, or from `lost` on they are not low before it. An interval that is not lost goes
/// on to the end.
pub open spec fn is_end_by_median(score: Seq<i32>, s: int, lost: int, e: int) -> bool {
    if lost == score.len() {
        e == score.len()
    } else if score[lost] <= -0x3e4c_ccce {
        &&& s <= e
        &&& s < e ==> e <= lost
        &&& forall|k: int| e <= k <= lost ==> #[trigger] score[k] <= -0x3e4c_ccce
        &&& e == s || score[e - 1] > -0x3e4c_ccce
    } else {
        &&& lost < e <= score.len()
        &&& forall|k: int| lost <= k < e ==> #[trigger] score[k] > -0x3e4c_ccce
        &&& e == score.len() || score[e] <= -0x3e4c_ccce
    }
}

/// Frame `found` is the first one from `from` on that is taken to show the logo.
pub open spec fn is_found_at(result: Seq<Judgement>, from: int, found: int) -> bool {
    &&& from <= found < result.len()
    &&& result[found] == Judgement::HasLogo
    &&& forall|k: int| from <= k < found ==> #[trigger] result[k] != Judgement::HasLogo
}

/// Frame `lost` is the first one from `found` on that is taken to show no logo, or there is none.
pub open spec fn is_lost_at(result: Seq<Judgement>, found: int, lost: int) -> bool {
    &&& found < lost <= result.len()
    &&& lost < result.len() ==> result[lost] == Judgement::NoLogo
    &&& forall|k: int| found <= k < lost ==> #[trigger] result[k] != Judgement::NoLogo
}

proof fn lemma_forward(flags: Seq<bool>, lo: int, hi: int)
    requires
        lo <= hi,
    ensures
        lo <= interval::forward(flags, lo, hi) <= hi,
        forall|k: int| lo <= k < interval::forward(flags, lo, hi) ==> !#[trigger] flags[k],
        interval::forward(flags, lo, hi) < hi ==> flags[interval::forward(flags, lo, hi)],
    decreases hi - lo,
{
    if lo < hi && !flags[lo] {
        lemma_forward(flags, lo + 1, hi);
    }
}

proof fn lemma_backward(flags: Seq<bool>, hi: int, lo: int)
    ensures
        lo <= interval::backward_base(flags, hi, lo),
        lo <= hi ==> interval::backward_base(flags, hi, lo) <= hi,
        lo >= hi ==> interval::backward_base(flags, hi, lo) == lo,
        forall|k: int| interval::backward_base(flags, hi, lo) <= k < hi ==> !#[trigger] flags[k],
        interval::backward_base(flags, hi, lo) > lo ==> flags[interval::backward_base(
            flags,
            hi,
            lo,
        ) - 1],
    decreases hi - lo,
{
    if lo < hi && !flags[hi - 1] {
        lemma_backward(flags, hi - 1, lo);
    }
}

/// Where an interval is looked for from a frame on, it is found at the first frame that is taken
/// to show the logo, and the next one is looked for from where it is lost. It starts and ends where
/// the medians cross the thresholds next to these frames. Without such a frame there is none.
pub proof fn intervals_are_found_by_judgements_and_medians(
    result: Seq<Judgement>,
    score: Seq<i32>,
    from: int,
)
    requires
        result.len() == score.len(),
        result.len() <= usize::MAX,
        0 <= from < result.len(),
    ensures
        ({
            let i = interval::interval_from(result, score, from);
            &&& (forall|k: int|
                from <= k < result.len() ==> #[trigger] result[k] != Judgement::HasLogo) ==> {
                &&& i.s_end == result.len()
                &&& i.e_end == result.len()
                &&& i.next == result.len()
            }
            &&& forall|found: int| #[trigger]
                is_found_at(result, from, found) ==> {
                    &&& is_lost_at(result, found, i.next as int)
                    &&& is_start_by_median(score, from, found, i.s_end as int)
                    &&& is_end_by_median(score, i.s_end as int, i.next as int, i.e_end as int)
                }
        }),
{
    let n = result.len() as int;
    let shows = interval::is_judged(result, Judgement::HasLogo);
    let hides = interval::is_judged(result, Judgement::NoLogo);
    let raw = interval::raw_start(result, from);
    lemma_forward(shows, from, n);
    assert forall|k: int| from <= k < raw implies #[trigger] result[k] != Judgement::HasLogo by {
        assert(!shows[k]);
    }
    lemma_forward(hides, raw, n);
    let next = interval::raw_end(result, from);
    assert forall|k: int| raw <= k < next implies #[trigger] result[k] != Judgement::NoLogo by {
        assert(!hides[k]);
    }
    if raw < n {
        assert(shows[raw]);
        assert(result[raw] == Judgement::HasLogo);
        if next < n {
            assert(hides[next]);
        }
        assert(is_found_at(result, from, raw));
        assert(is_lost_at(result, raw, next));
        lemma_backward(interval::is_not_high(score), raw, from);
        lemma_forward(interval::is_high(score), raw, n);
        let s = interval::refined_start(result, score, from);
        if score[raw] >= 0x3e4c_cccd {
            assert forall|k: int| s <= k <= raw implies #[trigger] score[k] >= 0x3e4c_cccd by {
                if k < raw {
                    assert(!interval::is_not_high(score)[k]);
                }
            }
            if s > from {
                assert(interval::is_not_high(score)[s - 1]);
            }
        } else {
            assert forall|k: int| raw <= k < s implies #[trigger] score[k] < 0x3e4c_cccd by {
                assert(!interval::is_high(score)[k]);
            }
            assert(s > raw) by {
                if s == raw {
                    assert(interval::is_high(score)[raw]);
                }
            }
        }
        assert(is_start_by_median(score, from, raw, s));
        lemma_backward(interval::is_not_low(score), next, s);
        lemma_forward(interval::is_low(score), next, n);
        let e = interval::refined_end(result, score, from);
        if next < n {
            if score[next] <= -0x3e4c_ccce {
                assert forall|k: int| e <= k <= next implies #[trigger] score[k]
                    <= -0x3e4c_ccce by {
                    if k < next {
                        assert(!interval::is_not_low(score)[k]);
                    }
                }
                if e > s {
                    assert(interval::is_not_low(score)[e - 1]);
                }
            } else {
                assert forall|k: int| next <= k < e implies #[trigger] score[k] > -0x3e4c_ccce by {
                    assert(!interval::is_low(score)[k]);
                }
                assert(e > next) by {
                    if e == next {
                        assert(interval::is_low(score)[next]);
                    }
                }
            }
        }
        assert(is_end_by_median(score, s, next, e));
        assert forall|found: int| #[trigger] is_found_at(result, from, found) implies found
            == raw by {
            if found < raw {
                assert(result[found] != Judgement::HasLogo);
            }
            if raw < found {
                assert(result[raw] != Judgement::HasLogo);
            }
        }
    } else {
        assert forall|found: int| !#[trigger] is_found_at(result, from, found) by {}
    }
}

/// The start of a written interval may be anywhere behind the last frame with a low median before
/// it, and its end anywhere behind the last frame with a high median. The best start is the first
/// of these frames whose median is greater than 0, or the last possible one where there is none.
/// The best end is behind the last of these frames whose median is greater than 0, or the first
/// possible one where there is none.
pub proof fn best_ends_are_where_the_median_is_positive(
    result: Seq<Judgement>,
    score: Seq<i32>,
    from: int,
)
    requires
        result.len() == score.len(),
        result.len() <= usize::MAX,
        0 <= from < result.len(),
        interval::interval_from(result, score, from).s_end < interval::interval_from(
            result,
            score,
            from,
        ).e_end,
    ensures
        ({
            let i = interval::interval_from(result, score, from);
            &&& from <= i.s_start <= i.s_best <= i.s_end <= i.e_start <= i.e_best <= i.e_end
                <= result.len()
            &&& i.s_start == from || score[i.s_start - 1] <= -0x3e4c_ccce
            &&& forall|k: int| i.s_start <= k < i.s_end ==> #[trigger] score[k] > -0x3e4c_ccce
            &&& forall|k: int| i.s_start <= k < i.s_best ==> #[trigger] score[k] <= 0
            &&& i.s_best == i.s_end || score[i.s_best as int] > 0
            &&& i.e_start == i.s_end || score[i.e_start - 1] >= 0x3e4c_cccd
            &&& forall|k: int| i.e_start <= k < i.e_end ==> #[trigger] score[k] < 0x3e4c_cccd
            &&& forall|k: int| i.e_best <= k < i.e_end ==> #[trigger] score[k] <= 0
            &&& i.e_best == i.e_start || score[i.e_best - 1] > 0
        }),
{
    let i = interval::interval_from(result, score, from);
    interval::written_intervals_are_in_order(result, score, from);
    let low = interval::is_low(score);
    let high = interval::is_high(score);
    let positive = interval::is_positive(score);
    let s_end = interval::refined_start(result, score, from);
    let e_end = interval::refined_end(result, score, from);
    interval::lemma_refined_ends(result, score, from);
    lemma_backward(low, s_end, from);
    lemma_backward(high, e_end, s_end);
    let s_start = interval::backward_base(low, s_end, from);
    let e_start = interval::backward_base(high, e_end, s_end);
    lemma_forward(positive, s_start, s_end);
    lemma_backward(positive, e_end, e_start);
    if i.s_start > from {
        assert(low[i.s_start - 1]);
    }
    assert forall|k: int| i.s_start <= k < i.s_end implies #[trigger] score[k] > -0x3e4c_ccce by {
        assert(!low[k]);
    }
    assert forall|k: int| i.s_start <= k < i.s_best implies #[trigger] score[k] <= 0 by {
        assert(!positive[k]);
    }
    if i.s_best < i.s_end {
        assert(positive[i.s_best as int]);
    }
    if i.e_start > i.s_end {
        assert(high[i.e_start - 1]);
    }
    assert forall|k: int| i.e_start <= k < i.e_end implies #[trigger] score[k] < 0x3e4c_cccd by {
        assert(!high[k]);
    }
    assert forall|k: int| i.e_best <= k < i.e_end implies #[trigger] score[k] <= 0 by {
        assert(!positive[k]);
    }
    if i.e_best > i.e_start {
        assert(positive[i.e_best - 1]);
    }
}

/// The measure of frame `j`, where the first and the last frame go on before and behind.
pub open spec fn measure_at(raw: Seq<i32>, j: int) -> i32 {
    if j < 0 {
        raw[0]
    } else if j < raw.len() {
        raw[j]
    } else {
        raw[raw.len() - 1]
    }
}

/// A frame of `lo..hi` has a measure of at least 0.5.
pub open spec fn some_clear(raw: Seq<i32>, lo: int, hi: int) -> bool {
    exists|j: int| lo <= j < hi && #[trigger] measure_at(raw, j) >= 0x3f00_0000
}

/// All frames of `lo..hi` have a measure of at most -0.5.
pub open spec fn all_missing(raw: Seq<i32>, lo: int, hi: int) -> bool {
    forall|j: int| lo <= j < hi ==> #[trigger] measure_at(raw, j) <= -0x3f00_0001
}

proof fn lemma_largest(s: Seq<i32>, lo: int, hi: int)
    ensures
        forall|k: int| lo <= k < hi ==> #[trigger] s[k] <= interval::largest(s, lo, hi),
        interval::largest(s, lo, hi) == interval::LOWEST || exists|k: int|
            lo <= k < hi && #[trigger] s[k] == interval::largest(s, lo, hi),
        interval::largest(s, lo, hi) >= interval::LOWEST,
    decreases hi - lo,
{
    if lo < hi {
        lemma_largest(s, lo, hi - 1);
        let before = interval::largest(s, lo, hi - 1);
        if s[hi - 1] > before {
            assert(s[hi - 1] == interval::largest(s, lo, hi));
        } else if before != interval::LOWEST {
            let k = choose|k: int| lo <= k < hi - 1 && #[trigger] s[k] == before;
            assert(s[k] == interval::largest(s, lo, hi));
        }
    }
}

proof fn lemma_window(raw: Seq<i32>, w: Windows, lo: int, hi: int)
    requires
        raw.len() > 0,
        -w.front_pad <= lo,
        hi <= raw.len() + w.back_pad,
    ensures
        ({
            let s = interval::padded(raw, w.front_pad as int, w.back_pad as int);
            let m = interval::largest(s, w.front_pad + lo, w.front_pad + hi);
            &&& m >= 0x3f00_0000 <==> some_clear(raw, lo, hi)
            &&& m <= -0x3f00_0001 <==> all_missing(raw, lo, hi)
        }),
{
    let s = interval::padded(raw, w.front_pad as int, w.back_pad as int);
    let f = w.front_pad as int;
    let m = interval::largest(s, f + lo, f + hi);
    lemma_largest(s, f + lo, f + hi);
    assert forall|j: int| lo <= j < hi implies #[trigger] measure_at(raw, j) <= m by {
        assert(s[f + j] == measure_at(raw, j));
    }
    if m != interval::LOWEST {
        let k = choose|k: int| f + lo <= k < f + hi && #[trigger] s[k] == m;
        assert(measure_at(raw, k - f) == m);
    }
}

/// What a frame is taken for by itself, with so many frames a second: it shows the logo where the
/// average around it is at least 0.2 and there is a measure of at least 0.5 both in the half second
/// before it and in the half second behind it. It shows none where the average is at most -0.2 and
/// all measures in one of these half seconds are at most -0.5. Half a second is rounded up. Before
/// the first and behind the last frame, these go on.
pub proof fn frames_are_judged_by_half_seconds(
    raw: Seq<i32>,
    avg: Seq<i32>,
    frames_per_sec: u32,
    i: int,
)
    requires
        raw.len() == avg.len(),
        0 <= i < raw.len(),
    ensures
        ({
            let half = (frames_per_sec as int + 1) / 2;
            let j = interval::judged(raw, avg, interval::spec_windows(frames_per_sec), i);
            &&& j == Judgement::HasLogo <==> {
                &&& avg[i] >= 0x3e4c_cccd
                &&& some_clear(raw, i - half, i)
                &&& some_clear(raw, i + 1, i + 1 + half)
            }
            &&& j == Judgement::NoLogo <==> {
                &&& avg[i] <= -0x3e4c_ccce
                &&& all_missing(raw, i - half, i) || all_missing(raw, i + 1, i + 1 + half)
            }
        }),
{
    let w = interval::spec_windows(frames_per_sec);
    let half = (frames_per_sec as int + 1) / 2;
    assert(w.half_avg == half);
    lemma_window(raw, w, i - half, i);
    lemma_window(raw, w, i + 1, i + 1 + half);
}

/// `m` is in the middle of the measures of the frames `lo..hi`, sorted.
pub open spec fn is_middle(raw: Seq<i32>, lo: int, hi: int, m: i32) -> bool {
    exists|sorted: Seq<i32>|
        {
            &&& #[trigger] sorted.to_multiset() == Seq::new(
                (hi - lo) as nat,
                |d: int| measure_at(raw, lo + d),
            ).to_multiset()
            &&& forall|a: int, b: int|
                0 <= a < b < sorted.len() ==> #[trigger] sorted[a] <= #[trigger] sorted[b]
            &&& m == sorted[(hi - lo) / 2]
        }
}

/// The median around a frame is in the middle of its measure and those of the frames on both sides
/// of it, a quarter of a second each, rounded to the nearest number of frames.
pub proof fn medians_are_in_the_middle(raw: Seq<i32>, frames_per_sec: u32, i: int)
    requires
        0 <= i < raw.len(),
    ensures
        ({
            let half = (frames_per_sec as int + 2) / 4;
            is_middle(
                raw,
                i - half,
                i + half + 1,
                interval::medians(raw, frames_per_sec)[i],
            )
        }),
{
    let w = interval::spec_windows(frames_per_sec);
    let half = (frames_per_sec as int + 2) / 4;
    assert(w.half_median == half);
    let s = interval::padded(raw, w.front_pad as int, w.back_pad as int);
    let idx = w.front_pad + i;
    let window = s.subrange(idx - half, idx + half + 1);
    let values = Seq::new((2 * half + 1) as nat, |d: int| measure_at(raw, i - half + d));
    assert(window =~= values);
    let leq = |a: i32, b: i32| a <= b;
    let sorted = sort::ascending(window);
    window.lemma_sort_by_ensures(leq);
    assert(sorted.to_multiset() == values.to_multiset());
    assert forall|a: int, b: int| 0 <= a < b < sorted.len() implies #[trigger] sorted[a]
        <= #[trigger] sorted[b] by {
        assert(leq(sorted[a], sorted[b]));
    }
    assert((i + half + 1) - (i - half) == 2 * half + 1);
    assert((2 * half + 1) / 2 == half);
}

/// The frames `lo..hi` are all the neighbouring frames of which nothing is known.
pub open spec fn is_unknown_run(result: Seq<Judgement>, lo: int, hi: int) -> bool {
    &&& 0 <= lo < hi <= result.len()
    &&& forall|k: int| lo <= k < hi ==> #[trigger] result[k] == Judgement::Unknown
    &&& lo == 0 || result[lo - 1] != Judgement::Unknown
    &&& hi == result.len() || result[hi] != Judgement::Unknown
}

/// The judgement next to a run on its left; without one, no logo.
pub open spec fn left_of(result: Seq<Judgement>, lo: int) -> Judgement {
    if lo == 0 {
        Judgement::NoLogo
    } else {
        result[lo - 1]
    }
}

/// The judgement next to a run on its right; without one, no logo.
pub open spec fn right_of(result: Seq<Judgement>, hi: int) -> Judgement {
    if hi == result.len() {
        Judgement::NoLogo
    } else {
        result[hi]
    }
}

proof fn lemma_known_around(result: Seq<Judgement>, lo: int, hi: int, i: int)
    requires
        is_unknown_run(result, lo, hi),
        lo <= i < hi,
    ensures
        interval::known_before(result, i) == left_of(result, lo),
        interval::known_from(result, i) == right_of(result, hi),
{
    interval::lemma_known_run(result, lo, hi, i);
}

/// Of a run of frames of which nothing is known, each takes after the frames next to the run where
/// these agree, and stays unknown where they do not. Other frames keep what they are taken for.
pub proof fn runs_take_after_their_neighbours(
    result: Seq<Judgement>,
    i: int,
    lo: int,
    hi: int,
)
    requires
        0 <= i < result.len(),
    ensures
        result[i] != Judgement::Unknown ==> interval::filled_at(result, i) == result[i],
        is_unknown_run(result, lo, hi) && lo <= i < hi ==> interval::filled_at(result, i) == (
        if left_of(result, lo) == right_of(result, hi) {
            left_of(result, lo)
        } else {
            Judgement::Unknown
        }),
{
    if is_unknown_run(result, lo, hi) && lo <= i < hi {
        lemma_known_around(result, lo, hi, i);
        assert(result[i] == Judgement::Unknown);
    }
}

/// What frames are taken for in the end is what each is taken for by itself, with runs of unknown
/// frames filled.
pub proof fn final_judgements_fill_the_first(
    raw: Seq<i32>,
    avg: Seq<i32>,
    frames_per_sec: u32,
    first: Seq<Judgement>,
    lo: int,
    hi: int,
    i: int,
)
    requires
        raw.len() == avg.len(),
        0 <= i < raw.len(),
        first == Seq::new(
            raw.len(),
            |k: int| interval::judged(raw, avg, interval::spec_windows(frames_per_sec), k),
        ),
    ensures
        ({
            let last = interval::final_judgements(raw, avg, frames_per_sec);
            &&& last.len() == raw.len()
            &&& first[i] != Judgement::Unknown ==> last[i] == first[i]
            &&& is_unknown_run(first, lo, hi) && lo <= i < hi ==> last[i] == (if left_of(first, lo)
                == right_of(first, hi) {
                left_of(first, lo)
            } else {
                Judgement::Unknown
            })
        }),
{
    runs_take_after_their_neighbours(first, i, lo, hi);
}

/// The number of frames that are taken to show the logo is the number of these frames.
pub proof fn logo_frames_are_counted(result: Seq<Judgement>, n: int)
    requires
        0 <= n <= result.len(),
    ensures
        Set::new(|i: int| 0 <= i < n && result[i] == Judgement::HasLogo).finite(),
        interval::logo_count(result, n) == Set::new(
            |i: int| 0 <= i < n && result[i] == Judgement::HasLogo,
        ).len(),
    decreases n,
{
    let now = Set::new(|i: int| 0 <= i < n && result[i] == Judgement::HasLogo);
    if n > 0 {
        logo_frames_are_counted(result, n - 1);
        let before = Set::new(|i: int| 0 <= i < n - 1 && result[i] == Judgement::HasLogo);
        if result[n - 1] == Judgement::HasLogo {
            assert(now =~= before.insert(n - 1));
        } else {
            assert(now =~= before);
        }
    } else {
        assert(now =~= Set::empty());
    }
}

} // verus!
