//! The intervals in which a logo is shown, from a measure of each frame.
//!
//! Measures go up and down where there is motion. A frame is judged by the largest measures of
//! the half second before it and after it, and by the average of a second around it; where the
//! two disagree nothing is known. What is not known takes after its surroundings where these
//! agree. The ends of an interval are moved to where the median of half a second crosses the
//! threshold.
//!
//! Measures are given as whole numbers that are ordered as the floating-point numbers are that
//! they stand for: for `v` from 0 on the bits of `v`, and for `-v` the complement of that. The
//! averages are computed elsewhere and given in the same form.

use crate::sort;
use crate::text;
use vstd::prelude::*;

verus! {

/// Averages below this are not clear; it stands for 0.2.
pub const THRESH: i32 = 0x3e4c_cccd;

/// Maxima below this are not clear; it stands for 0.5.
pub const THRESH_L: i32 = 0x3f00_0000;

/// What stands for a number below all others.
pub const LOWEST: i32 = -0x7f80_0001;

/// What a frame is taken for.
#[derive(Debug, Clone, Copy, PartialEq, Eq, Structural)]
pub enum Judgement {
    NoLogo,
    Unknown,
    HasLogo,
}

/// What stands for `-v`, where `key` stands for `v`.
pub open spec fn negated(key: i32) -> int {
    -key - 1
}

impl Judgement {
    /// What a measure says: nothing where it is closer to 0 than the threshold, otherwise its
    /// sign counts.
    pub open spec fn spec_from_threshold(key: i32, thresh: i32) -> Judgement {
        if negated(thresh) < key < thresh {
            Judgement::Unknown
        } else if key < negated(0) {
            Judgement::NoLogo
        } else {
            Judgement::HasLogo
        }
    }

    /// What a measure says: nothing where it is closer to 0 than the threshold, otherwise its
    /// sign counts.
    pub fn from_threshold(key: i32, thresh: i32) -> (j: Judgement)
        requires
            thresh >= 0,
        ensures
            j == Self::spec_from_threshold(key, thresh),
            thresh > 0 ==> {
                &&& j == Judgement::HasLogo <==> key >= thresh
                &&& j == Judgement::NoLogo <==> key <= -thresh - 1
            },
            thresh == 0 ==> j != Judgement::Unknown && (j == Judgement::NoLogo <==> key < -1),
    {
        if -thresh - 1 < key && key < thresh {
            Judgement::Unknown
        } else if key < -1 {
            Judgement::NoLogo
        } else {
            Judgement::HasLogo
        }
    }

    /// Two judgements that must agree.
    pub open spec fn spec_agreed(self, other: Judgement) -> Judgement {
        if self == other {
            self
        } else {
            Judgement::Unknown
        }
    }

    /// Two judgements that must agree.
    pub fn agreed(self, other: Judgement) -> (j: Judgement)
        ensures
            j == self.spec_agreed(other),
    {
        if self == other {
            self
        } else {
            Judgement::Unknown
        }
    }
}

/// What a single measure says, without its surroundings.
pub fn instant_label(key: i32) -> (r: Option<bool>)
    ensures
        r == (match Judgement::spec_from_threshold(key, THRESH) {
            Judgement::HasLogo => Some(true),
            Judgement::NoLogo => Some(false),
            Judgement::Unknown => None,
        }),
        r == Some(true) <==> key >= 0x3e4c_cccd,
        r == Some(false) <==> key < -0x3e4c_cccd,
{
    match Judgement::from_threshold(key, THRESH) {
        Judgement::HasLogo => Some(true),
        Judgement::NoLogo => Some(false),
        Judgement::Unknown => None,
    }
}

/// How many frames are looked at around each frame.
#[derive(Debug, Clone, Copy, PartialEq, Eq, Structural)]
pub struct Windows {
    /// The frames on each side for averages and maxima.
    pub half_avg: usize,
    /// The frames on each side for medians.
    pub half_median: usize,
    /// The frames that are added before the first frame, with its measure.
    pub front_pad: usize,
    /// The frames that are added behind the last frame, with its measure.
    pub back_pad: usize,
}

/// The windows for so many frames a second: half a second on each side for averages, a quarter
/// for medians, both rounded.
pub open spec fn spec_windows(frames_per_sec: u32) -> Windows {
    let half_avg = ((frames_per_sec + 1) / 2) as usize;
    let half_median = ((frames_per_sec + 2) / 4) as usize;
    let half = if half_avg >= half_median {
        half_avg
    } else {
        half_median
    };
    Windows { half_avg, half_median, front_pad: half, back_pad: (half + 1) as usize }
}

/// The windows for so many frames a second.
pub fn windows(frames_per_sec: u32) -> (w: Windows)
    ensures
        w == spec_windows(frames_per_sec),
{
    let fps: u64 = frames_per_sec as u64;
    let half_avg: usize = ((fps + 1) / 2) as usize;
    let half_median: usize = ((fps + 2) / 4) as usize;
    let half: usize = if half_avg >= half_median {
        half_avg
    } else {
        half_median
    };
    Windows { half_avg, half_median, front_pad: half, back_pad: half + 1 }
}

/// Values with the first and the last one repeated in front and behind.
pub open spec fn padded<T>(values: Seq<T>, front: int, back: int) -> Seq<T> {
    Seq::new(
        (front + values.len() + back) as nat,
        |i: int|
            if i < front {
                values[0]
            } else if i < front + values.len() {
                values[i - front]
            } else {
                values[values.len() - 1]
            },
    )
}

/// Values with the first and the last one repeated in front and behind.
pub fn pad<T: Copy>(values: &[T], front: usize, back: usize) -> (r: Vec<T>)
    requires
        values@.len() > 0,
    ensures
        r@ == padded(values@, front as int, back as int),
{
    let n: usize = values.len();
    let mut r: Vec<T> = Vec::new();
    let mut i: usize = 0;
    while i < front
        invariant
            0 < n == values@.len(),
            i <= front,
            r@.len() == i,
            forall|k: int| 0 <= k < i ==> #[trigger] r@[k] == values@[0],
        decreases front - i,
    {
        r.push(values[0]);
        i += 1;
    }
    let mut i: usize = 0;
    while i < n
        invariant
            0 < n == values@.len(),
            i <= n,
            r@.len() == front + i,
            forall|k: int| 0 <= k < front ==> #[trigger] r@[k] == values@[0],
            forall|k: int| front <= k < front + i ==> #[trigger] r@[k] == values@[k - front],
        decreases n - i,
    {
        r.push(values[i]);
        i += 1;
    }
    let mut i: usize = 0;
    while i < back
        invariant
            0 < n == values@.len(),
            i <= back,
            r@.len() == front + n + i,
            forall|k: int| 0 <= k < front ==> #[trigger] r@[k] == values@[0],
            forall|k: int| front <= k < front + n ==> #[trigger] r@[k] == values@[k - front],
            forall|k: int| front + n <= k < front + n + i ==> #[trigger] r@[k] == values@[n - 1],
        decreases back - i,
    {
        r.push(values[n - 1]);
        i += 1;
    }
    assert(r@ =~= padded(values@, front as int, back as int));
    r
}

/// The largest of the values `lo..hi`.
pub open spec fn largest(s: Seq<i32>, lo: int, hi: int) -> i32
    decreases hi - lo,
{
    if lo >= hi {
        LOWEST
    } else {
        let before = largest(s, lo, hi - 1);
        if s[hi - 1] > before {
            s[hi - 1]
        } else {
            before
        }
    }
}

/// The smaller one of the largest value among the `half` values before `i` and the largest value
/// among the `half` values behind it.
pub open spec fn minmax(s: Seq<i32>, i: int, half: int) -> i32 {
    let before = largest(s, i - half, i);
    let after = largest(s, i + 1, i + 1 + half);
    if before <= after {
        before
    } else {
        after
    }
}

/// The value in the middle of `i` and the `half` values on each side of it, sorted.
pub open spec fn median(s: Seq<i32>, i: int, half: int) -> i32 {
    sort::ascending(s.subrange(i - half, i + half + 1))[half]
}

fn find_largest(s: &Vec<i32>, lo: usize, hi: usize) -> (m: i32)
    requires
        lo <= hi <= s@.len(),
    ensures
        m == largest(s@, lo as int, hi as int),
{
    let mut m: i32 = LOWEST;
    let mut i: usize = lo;
    while i < hi
        invariant
            lo <= i <= hi <= s@.len(),
            m == largest(s@, lo as int, i as int),
        decreases hi - i,
    {
        if s[i] > m {
            m = s[i];
        }
        i += 1;
    }
    m
}

fn find_median(s: &Vec<i32>, i: usize, half: usize) -> (m: i32)
    requires
        half <= i,
        i + half + 1 <= s@.len(),
    ensures
        m == median(s@, i as int, half as int),
{
    let available: usize = s.len();
    let mut window: Vec<i32> = Vec::new();
    let mut k: usize = i - half;
    while k < i + half + 1
        invariant
            half <= i,
            i + half + 1 <= s@.len() == available,
            i - half <= k <= i + half + 1,
            window@ == s@.subrange(i - half, k as int),
        decreases i + half + 1 - k,
    {
        window.push(s[k]);
        k += 1;
        assert(window@ =~= s@.subrange(i - half, k as int));
    }
    let sorted: Vec<i32> = sort::sort_ascending(&window);
    sorted[half]
}

/// What frame `i` is taken for.
pub open spec fn judged(raw: Seq<i32>, avg: Seq<i32>, w: Windows, i: int) -> Judgement {
    let s = padded(raw, w.front_pad as int, w.back_pad as int);
    Judgement::spec_from_threshold(
        minmax(s, w.front_pad + i, w.half_avg as int),
        THRESH_L,
    ).spec_agreed(Judgement::spec_from_threshold(avg[i], THRESH))
}

/// The median around frame `i`.
pub open spec fn median_at(raw: Seq<i32>, w: Windows, i: int) -> i32 {
    median(
        padded(raw, w.front_pad as int, w.back_pad as int),
        w.front_pad + i,
        w.half_median as int,
    )
}

/// What each frame is taken for, and the median around it.
pub fn judge_frames(raw: &[i32], avg: &[i32], w: Windows) -> (r: (Vec<Judgement>, Vec<i32>))
    requires
        raw@.len() == avg@.len(),
        raw@.len() > 0,
        w.half_avg <= w.front_pad < w.back_pad,
        w.half_median <= w.front_pad,
    ensures
        r.0@ == Seq::new(raw@.len(), |i: int| judged(raw@, avg@, w, i)),
        r.1@ == Seq::new(raw@.len(), |i: int| median_at(raw@, w, i)),
{
    let n: usize = raw.len();
    let s: Vec<i32> = pad(raw, w.front_pad, w.back_pad);
    let available: usize = s.len();
    let mut result: Vec<Judgement> = Vec::new();
    let mut score: Vec<i32> = Vec::new();
    let mut i: usize = 0;
    while i < n
        invariant
            n == raw@.len() == avg@.len(),
            w.half_avg <= w.front_pad < w.back_pad,
            w.half_median <= w.front_pad,
            s@ == padded(raw@, w.front_pad as int, w.back_pad as int),
            available == s@.len(),
            i <= n,
            result@.len() == i,
            score@.len() == i,
            forall|k: int| 0 <= k < i ==> #[trigger] result@[k] == judged(raw@, avg@, w, k),
            forall|k: int| 0 <= k < i ==> #[trigger] score@[k] == median_at(raw@, w, k),
        decreases n - i,
    {
        assert(available == w.front_pad + n + w.back_pad);
        let idx: usize = w.front_pad + i;
        let before: i32 = find_largest(&s, idx - w.half_avg, idx);
        let after: i32 = find_largest(&s, idx + 1, idx + 1 + w.half_avg);
        let least: i32 = if before <= after {
            before
        } else {
            after
        };
        let by_maxima: Judgement = Judgement::from_threshold(least, THRESH_L);
        result.push(by_maxima.agreed(Judgement::from_threshold(avg[i], THRESH)));
        score.push(find_median(&s, idx, w.half_median));
        i += 1;
    }
    assert(result@ =~= Seq::new(raw@.len(), |i: int| judged(raw@, avg@, w, i)));
    assert(score@ =~= Seq::new(raw@.len(), |i: int| median_at(raw@, w, i)));
    (result, score)
}

/// The last judgement before `i` that is not unknown; without one, no logo.
pub open spec fn known_before(result: Seq<Judgement>, i: int) -> Judgement
    decreases i,
{
    if i <= 0 {
        Judgement::NoLogo
    } else if result[i - 1] != Judgement::Unknown {
        result[i - 1]
    } else {
        known_before(result, i - 1)
    }
}

/// The first judgement from `i` on that is not unknown; without one, no logo.
pub open spec fn known_from(result: Seq<Judgement>, i: int) -> Judgement
    decreases result.len() - i,
{
    if i >= result.len() {
        Judgement::NoLogo
    } else if result[i] != Judgement::Unknown {
        result[i]
    } else {
        known_from(result, i + 1)
    }
}

/// What frame `i` is taken for after what is not known took after its surroundings.
pub open spec fn filled_at(result: Seq<Judgement>, i: int) -> Judgement {
    if result[i] != Judgement::Unknown {
        result[i]
    } else if known_before(result, i) == known_from(result, i) {
        known_before(result, i)
    } else {
        Judgement::Unknown
    }
}

/// Within a run of frames of which nothing is known, the surroundings are those of the run.
pub proof fn lemma_known_run(result: Seq<Judgement>, start: int, end: int, i: int)
    requires
        0 <= start <= i < end <= result.len(),
        forall|k: int| start <= k < end ==> #[trigger] result[k] == Judgement::Unknown,
    ensures
        known_before(result, i) == known_before(result, start),
        known_from(result, i) == known_from(result, end),
    decreases end - start,
{
    if i > start {
        assert(result[i - 1] == Judgement::Unknown);
        lemma_known_run(result, start, i, i - 1);
    }
    assert(result[i] == Judgement::Unknown);
    if i + 1 < end {
        lemma_known_run(result, i + 1, end, i + 1);
    }
}

/// Lets what is not known take after its surroundings, where these agree.
pub fn fill_unknown_runs(result: &mut Vec<Judgement>)
    ensures
        final(result)@.len() == old(result)@.len(),
        forall|i: int|
            0 <= i < old(result)@.len() ==> #[trigger] final(result)@[i] == filled_at(
                old(result)@,
                i,
            ),
{
    let ghost given = result@;
    let n: usize = result.len();
    let mut i: usize = 0;
    while i < n
        invariant
            n == result@.len() == given.len(),
            i <= n,
            forall|k: int| 0 <= k < i ==> #[trigger] result@[k] == filled_at(given, k),
            forall|k: int| i <= k < n ==> #[trigger] result@[k] == given[k],
            i > 0 ==> (i == n || given[i - 1] != Judgement::Unknown || given[i as int]
                != Judgement::Unknown),
        decreases n - i,
    {
        if result[i] != Judgement::Unknown {
            i += 1;
        } else {
            let start: usize = i;
            let mut end: usize = i;
            while end < n && result[end] == Judgement::Unknown
                invariant
                    n == result@.len() == given.len(),
                    start <= end <= n,
                    forall|k: int| start <= k < n ==> #[trigger] result@[k] == given[k],
                    forall|k: int| start <= k < end ==> #[trigger] given[k] == Judgement::Unknown,
                decreases n - end,
            {
                end += 1;
            }
            let prev: Judgement = if start == 0 {
                Judgement::NoLogo
            } else {
                result[start - 1]
            };
            let next: Judgement = if end == n {
                Judgement::NoLogo
            } else {
                result[end]
            };
            proof {
                assert(prev == known_before(given, start as int));
                assert(next == known_from(given, end as int));
                assert forall|k: int| start <= k < end implies filled_at(given, k) == (if prev
                    == next {
                    prev
                } else {
                    Judgement::Unknown
                }) by {
                    lemma_known_run(given, start as int, end as int, k);
                }
            }
            if prev == next {
                let mut k: usize = start;
                while k < end
                    invariant
                        n == result@.len() == given.len(),
                        start <= k <= end <= n,
                        forall|j: int| 0 <= j < start ==> #[trigger] result@[j] == filled_at(
                            given,
                            j,
                        ),
                        forall|j: int| start <= j < k ==> #[trigger] result@[j] == prev,
                        forall|j: int| k <= j < n ==> #[trigger] result@[j] == given[j],
                    decreases end - k,
                {
                    result.set(k, prev);
                    k += 1;
                }
            }
            i = end;
        }
    }
}

/// The first position of `lo..hi` that is set, else `hi`.
pub open spec fn forward(flags: Seq<bool>, lo: int, hi: int) -> int
    decreases hi - lo,
{
    if lo >= hi {
        hi
    } else if flags[lo] {
        lo
    } else {
        forward(flags, lo + 1, hi)
    }
}

/// The position behind the last one of `lo..hi` that is set, else `lo`.
pub open spec fn backward_base(flags: Seq<bool>, hi: int, lo: int) -> int
    decreases hi - lo,
{
    if lo >= hi {
        lo
    } else if flags[hi - 1] {
        hi
    } else {
        backward_base(flags, hi - 1, lo)
    }
}

/// A question about frames.
pub trait FrameTest {
    /// The question can be asked of frame `k`.
    spec fn covers(&self, k: int) -> bool;

    /// The answer for frame `k`.
    spec fn holds(&self, k: int) -> bool;

    /// Asks the question of frame `k`.
    fn test(&self, k: usize) -> (r: bool)
        requires
            self.covers(k as int),
        ensures
            r == self.holds(k as int),
    ;
}

/// The first frame of `lo..hi` for which the answer is yes, else `hi`.
pub fn find_forward<T: FrameTest>(lo: usize, hi: usize, pred: &T) -> (r: usize)
    requires
        forall|k: int| lo <= k < hi ==> #[trigger] pred.covers(k),
    ensures
        lo <= hi ==> lo <= r <= hi,
        lo > hi ==> r == hi,
        lo <= r < hi ==> pred.holds(r as int),
        forall|k: int| lo <= k < r ==> !#[trigger] pred.holds(k),
{
    let mut k: usize = lo;
    while k < hi
        invariant
            lo <= k,
            lo <= hi ==> k <= hi,
            lo > hi ==> k == lo,
            forall|j: int| lo <= j < hi ==> #[trigger] pred.covers(j),
            forall|j: int| lo <= j < k ==> !#[trigger] pred.holds(j),
        decreases hi - k,
    {
        assert(pred.covers(k as int));
        if pred.test(k) {
            return k;
        }
        k += 1;
    }
    hi
}

/// The frame behind the last one of `lo..hi` for which the answer is yes, else `lo`.
pub fn find_backward_base<T: FrameTest>(hi: usize, lo: usize, pred: &T) -> (r: usize)
    requires
        forall|k: int| lo <= k < hi ==> #[trigger] pred.covers(k),
    ensures
        lo <= r,
        lo <= hi ==> r <= hi,
        lo >= hi ==> r == lo,
        lo < r ==> pred.holds(r - 1),
        forall|k: int| r <= k < hi ==> !#[trigger] pred.holds(k),
{
    let mut k: usize = hi;
    while k > lo
        invariant
            k <= hi,
            lo <= hi ==> lo <= k,
            lo > hi ==> k == hi,
            forall|j: int| lo <= j < hi ==> #[trigger] pred.covers(j),
            forall|j: int| k <= j < hi ==> !#[trigger] pred.holds(j),
        decreases k,
    {
        assert(pred.covers(k - 1));
        if pred.test(k - 1) {
            return k;
        }
        k -= 1;
    }
    lo
}

proof fn lemma_forward(flags: Seq<bool>, lo: int, hi: int, r: int)
    requires
        lo <= r <= hi,
        forall|k: int| lo <= k < r ==> !#[trigger] flags[k],
        r < hi ==> flags[r],
    ensures
        forward(flags, lo, hi) == r,
    decreases r - lo,
{
    if lo < r {
        lemma_forward(flags, lo + 1, hi, r);
    }
}

proof fn lemma_backward_base(flags: Seq<bool>, hi: int, lo: int, r: int)
    requires
        lo <= r <= hi,
        forall|k: int| r <= k < hi ==> !#[trigger] flags[k],
        r > lo ==> flags[r - 1],
    ensures
        backward_base(flags, hi, lo) == r,
    decreases hi - r,
{
    if r < hi {
        lemma_backward_base(flags, hi - 1, lo, r);
    }
}

/// Where a judgement is given.
pub open spec fn is_judged(result: Seq<Judgement>, j: Judgement) -> Seq<bool> {
    result.map_values(|r: Judgement| r == j)
}

/// Where the measure is at least the threshold.
pub open spec fn is_high(score: Seq<i32>) -> Seq<bool> {
    score.map_values(|v: i32| v >= THRESH)
}

/// Where the measure is less than the threshold.
pub open spec fn is_not_high(score: Seq<i32>) -> Seq<bool> {
    score.map_values(|v: i32| v < THRESH)
}

/// Where the measure is at most the threshold with a minus sign.
pub open spec fn is_low(score: Seq<i32>) -> Seq<bool> {
    score.map_values(|v: i32| v <= negated(THRESH))
}

/// Where the measure is greater than the threshold with a minus sign.
pub open spec fn is_not_low(score: Seq<i32>) -> Seq<bool> {
    score.map_values(|v: i32| v > negated(THRESH))
}

/// Where the measure is greater than 0.
pub open spec fn is_positive(score: Seq<i32>) -> Seq<bool> {
    score.map_values(|v: i32| v > 0)
}

/// The ends of an interval: for its start and its end the range of frames that are possible and
/// the best of them. The numbers of the end are those of the frame behind it.
#[derive(Debug, Clone, Copy, PartialEq, Eq, Structural)]
pub struct Interval {
    pub s_start: usize,
    pub s_best: usize,
    pub s_end: usize,
    pub e_start: usize,
    pub e_best: usize,
    pub e_end: usize,
    /// Where the next interval is looked for.
    pub next: usize,
}

/// Where the start of an interval is by the judgements, from `it` on.
pub open spec fn raw_start(result: Seq<Judgement>, it: int) -> int {
    forward(is_judged(result, Judgement::HasLogo), it, result.len() as int)
}

/// Where the end of an interval is by the judgements, from `it` on.
pub open spec fn raw_end(result: Seq<Judgement>, it: int) -> int {
    forward(is_judged(result, Judgement::NoLogo), raw_start(result, it), result.len() as int)
}

/// Where an interval starts: where the measure gets high, back or ahead of the start by the
/// judgements.
pub open spec fn refined_start(result: Seq<Judgement>, score: Seq<i32>, it: int) -> int {
    let n = result.len() as int;
    let raw = raw_start(result, it);
    if raw == n {
        n
    } else if score[raw] >= THRESH {
        backward_base(is_not_high(score), raw, it)
    } else {
        forward(is_high(score), raw, n)
    }
}

/// Where an interval ends: where the measure gets low, back or ahead of the end by the
/// judgements.
pub open spec fn refined_end(result: Seq<Judgement>, score: Seq<i32>, it: int) -> int {
    let n = result.len() as int;
    let raw = raw_end(result, it);
    if raw == n {
        n
    } else if score[raw] <= negated(THRESH) {
        backward_base(is_not_low(score), raw, refined_start(result, score, it))
    } else {
        forward(is_low(score), raw, n)
    }
}

/// The first interval from `it` on.
pub open spec fn interval_from(result: Seq<Judgement>, score: Seq<i32>, it: int) -> Interval {
    let s_end = refined_start(result, score, it);
    let e_end = refined_end(result, score, it);
    let s_start = backward_base(is_low(score), s_end, it);
    let e_start = backward_base(is_high(score), e_end, s_end);
    Interval {
        s_start: s_start as usize,
        s_best: forward(is_positive(score), s_start, s_end) as usize,
        s_end: s_end as usize,
        e_start: e_start as usize,
        e_best: backward_base(is_positive(score), e_end, e_start) as usize,
        e_end: e_end as usize,
        next: raw_end(result, it) as usize,
    }
}

/// A line of the text.
pub open spec fn line(best: int, kind: Seq<char>, left: int, right: int) -> Seq<char> {
    text::right_aligned(text::signed_decimal(best), 6) + " "@ + kind + " 0 ALL "@
        + text::right_aligned(text::signed_decimal(left), 6) + " "@ + text::right_aligned(
        text::signed_decimal(right),
        6,
    ) + "\n"@
}

/// The lines of an interval: one for its start and one for its end.
pub open spec fn interval_lines(i: Interval) -> Seq<char> {
    line(i.s_best as int, "S"@, i.s_start as int, i.s_end as int) + line(
        i.e_best - 1,
        "E"@,
        i.e_start - 1,
        i.e_end - 1,
    )
}

/// The lines of all intervals from `it` on. An interval that ends before it starts has none.
pub open spec fn text_from(result: Seq<Judgement>, score: Seq<i32>, it: int) -> Seq<char>
    decreases result.len() - it,
{
    if it >= result.len() {
        Seq::empty()
    } else {
        let i = interval_from(result, score, it);
        let lines = if i.s_end < i.e_end {
            interval_lines(i)
        } else {
            Seq::empty()
        };
        if it < i.next <= result.len() {
            lines + text_from(result, score, i.next as int)
        } else {
            lines
        }
    }
}

proof fn lemma_forward_bound(flags: Seq<bool>, lo: int, hi: int)
    ensures
        lo <= hi ==> lo <= forward(flags, lo, hi) <= hi,
        lo >= hi ==> forward(flags, lo, hi) == hi,
        lo <= forward(flags, lo, hi) < hi ==> flags[forward(flags, lo, hi)],
    decreases hi - lo,
{
    if lo < hi && !flags[lo] {
        lemma_forward_bound(flags, lo + 1, hi);
    }
}

proof fn lemma_backward_bound(flags: Seq<bool>, hi: int, lo: int)
    ensures
        lo <= backward_base(flags, hi, lo),
        lo <= hi ==> backward_base(flags, hi, lo) <= hi,
        lo >= hi ==> backward_base(flags, hi, lo) == lo,
    decreases hi - lo,
{
    if lo < hi && !flags[hi - 1] {
        lemma_backward_bound(flags, hi - 1, lo);
    }
}

/// The ends by the judgements and the refined ends lie within the video, and what is looked at
/// next lies ahead.
proof fn lemma_ends(result: Seq<Judgement>, score: Seq<i32>, it: int)
    requires
        result.len() == score.len(),
        0 <= it < result.len(),
    ensures
        it <= raw_start(result, it) <= raw_end(result, it) <= result.len(),
        it < raw_end(result, it),
        it <= refined_start(result, score, it) <= result.len(),
        0 <= refined_end(result, score, it) <= result.len(),
{
    let n = result.len() as int;
    let raw_s = raw_start(result, it);
    let raw_e = raw_end(result, it);
    lemma_forward_bound(is_judged(result, Judgement::HasLogo), it, n);
    lemma_forward_bound(is_judged(result, Judgement::NoLogo), raw_s, n);
    lemma_backward_bound(is_not_high(score), raw_s, it);
    lemma_forward_bound(is_high(score), raw_s, n);
    lemma_backward_bound(is_not_low(score), raw_e, refined_start(result, score, it));
    lemma_forward_bound(is_low(score), raw_e, n);
    if raw_s < n {
        assert(is_judged(result, Judgement::HasLogo)[raw_s]);
        if raw_e < n {
            assert(is_judged(result, Judgement::NoLogo)[raw_e]);
        }
    }
}

/// What is looked at next lies ahead, and within the video.
pub proof fn lemma_next_is_ahead(result: Seq<Judgement>, score: Seq<i32>, it: int)
    requires
        result.len() == score.len(),
        result.len() <= usize::MAX,
        0 <= it < result.len(),
    ensures
        it < interval_from(result, score, it).next <= result.len(),
{
    lemma_ends(result, score, it);
}

/// The refined ends lie within the video.
pub proof fn lemma_refined_ends(result: Seq<Judgement>, score: Seq<i32>, it: int)
    requires
        result.len() == score.len(),
        0 <= it < result.len(),
    ensures
        it <= refined_start(result, score, it) <= result.len(),
        0 <= refined_end(result, score, it) <= result.len(),
{
    lemma_ends(result, score, it);
}

/// An interval that is written has its numbers in order: what is possible for its start, what is
/// possible for its end, and the start before the end.
pub proof fn written_intervals_are_in_order(result: Seq<Judgement>, score: Seq<i32>, it: int)
    requires
        result.len() == score.len(),
        result.len() <= usize::MAX,
        0 <= it < result.len(),
        interval_from(result, score, it).s_end < interval_from(result, score, it).e_end,
    ensures
        ({
            let i = interval_from(result, score, it);
            &&& it <= i.s_start <= i.s_best <= i.s_end
            &&& i.s_end <= i.e_start <= i.e_best <= i.e_end
            &&& i.s_end <= i.e_end - 1
            &&& i.e_end <= result.len()
            &&& it < i.next <= result.len()
        }),
{
    lemma_ends(result, score, it);
    let s_end = refined_start(result, score, it);
    let e_end = refined_end(result, score, it);
    lemma_backward_bound(is_low(score), s_end, it);
    lemma_backward_bound(is_high(score), e_end, s_end);
    let s_start = backward_base(is_low(score), s_end, it);
    let e_start = backward_base(is_high(score), e_end, s_end);
    lemma_forward_bound(is_positive(score), s_start, s_end);
    lemma_backward_bound(is_positive(score), e_end, e_start);
}

fn push_line(out: &mut String, best: i64, kind: &str, left: i64, right: i64)
    ensures
        final(out)@ == old(out)@ + line(best as int, kind@, left as int, right as int),
{
    let ghost before = out@;
    text::push_i64_right_aligned(out, best, 6);
    out.append(" ");
    out.append(kind);
    out.append(" 0 ALL ");
    text::push_i64_right_aligned(out, left, 6);
    out.append(" ");
    text::push_i64_right_aligned(out, right, 6);
    out.append("\n");
    assert(out@ =~= before + line(best as int, kind@, left as int, right as int));
}

/// Whether a frame is taken for something.
pub struct JudgedAs<'a> {
    pub result: &'a Vec<Judgement>,
    pub judgement: Judgement,
}

impl<'a> FrameTest for JudgedAs<'a> {
    open spec fn covers(&self, k: int) -> bool {
        0 <= k < self.result@.len()
    }

    open spec fn holds(&self, k: int) -> bool {
        self.result@[k] == self.judgement
    }

    fn test(&self, k: usize) -> (r: bool) {
        self.result[k] == self.judgement
    }
}

/// How a measure compares with the thresholds.
#[derive(Debug, Clone, Copy, PartialEq, Eq, Structural)]
pub enum Crossing {
    High,
    NotHigh,
    Low,
    NotLow,
    Positive,
}

impl Crossing {
    /// A measure compares so.
    pub open spec fn spec_holds(self, v: i32) -> bool {
        match self {
            Crossing::High => v >= THRESH,
            Crossing::NotHigh => v < THRESH,
            Crossing::Low => v <= negated(THRESH),
            Crossing::NotLow => v > negated(THRESH),
            Crossing::Positive => v > 0,
        }
    }

    /// Where measures compare so.
    pub open spec fn flags(self, score: Seq<i32>) -> Seq<bool> {
        match self {
            Crossing::High => is_high(score),
            Crossing::NotHigh => is_not_high(score),
            Crossing::Low => is_low(score),
            Crossing::NotLow => is_not_low(score),
            Crossing::Positive => is_positive(score),
        }
    }

    /// A measure compares so.
    pub fn holds(self, v: i32) -> (r: bool)
        ensures
            r == self.spec_holds(v),
    {
        match self {
            Crossing::High => v >= THRESH,
            Crossing::NotHigh => v < THRESH,
            Crossing::Low => v <= -THRESH - 1,
            Crossing::NotLow => v > -THRESH - 1,
            Crossing::Positive => v > 0,
        }
    }
}

/// Whether the measure of a frame compares so.
pub struct ScoreIs<'a> {
    pub score: &'a Vec<i32>,
    pub crossing: Crossing,
}

impl<'a> FrameTest for ScoreIs<'a> {
    open spec fn covers(&self, k: int) -> bool {
        0 <= k < self.score@.len()
    }

    open spec fn holds(&self, k: int) -> bool {
        self.crossing.spec_holds(self.score@[k])
    }

    fn test(&self, k: usize) -> (r: bool) {
        self.crossing.holds(self.score[k])
    }
}

fn find_judged(result: &Vec<Judgement>, judgement: Judgement, lo: usize) -> (r: usize)
    requires
        lo <= result@.len(),
    ensures
        r == forward(is_judged(result@, judgement), lo as int, result@.len() as int),
{
    let n: usize = result.len();
    let pred = JudgedAs { result, judgement };
    let r: usize = find_forward(lo, n, &pred);
    proof {
        assert forall|k: int| lo <= k < r implies !#[trigger] is_judged(result@, judgement)[k] by {
            assert(!pred.holds(k));
        }
        lemma_forward(is_judged(result@, judgement), lo as int, n as int, r as int);
    }
    r
}

fn look_forward(score: &Vec<i32>, crossing: Crossing, lo: usize, hi: usize) -> (r: usize)
    requires
        lo <= hi <= score@.len(),
    ensures
        r == forward(crossing.flags(score@), lo as int, hi as int),
{
    let pred = ScoreIs { score, crossing };
    let r: usize = find_forward(lo, hi, &pred);
    proof {
        assert forall|k: int| lo <= k < r implies !#[trigger] crossing.flags(score@)[k] by {
            assert(!pred.holds(k));
        }
        lemma_forward(crossing.flags(score@), lo as int, hi as int, r as int);
    }
    r
}

fn look_back(score: &Vec<i32>, crossing: Crossing, hi: usize, lo: usize) -> (r: usize)
    requires
        hi <= score@.len(),
    ensures
        r == backward_base(crossing.flags(score@), hi as int, lo as int),
{
    let pred = ScoreIs { score, crossing };
    let r: usize = find_backward_base(hi, lo, &pred);
    proof {
        if lo < hi {
            assert forall|k: int| r <= k < hi implies !#[trigger] crossing.flags(score@)[k] by {
                assert(!pred.holds(k));
            }
            lemma_backward_base(crossing.flags(score@), hi as int, lo as int, r as int);
        }
    }
    r
}

fn find_interval(result: &Vec<Judgement>, score: &Vec<i32>, it: usize) -> (i: Interval)
    requires
        result@.len() == score@.len(),
        it < result@.len(),
    ensures
        i == interval_from(result@, score@, it as int),
{
    let n: usize = result.len();
    proof {
        lemma_ends(result@, score@, it as int);
    }
    let raw_s: usize = find_judged(result, Judgement::HasLogo, it);
    let raw_e: usize = find_judged(result, Judgement::NoLogo, raw_s);
    let s_end: usize = if raw_s == n {
        n
    } else if Crossing::High.holds(score[raw_s]) {
        look_back(score, Crossing::NotHigh, raw_s, it)
    } else {
        look_forward(score, Crossing::High, raw_s, n)
    };
    let e_end: usize = if raw_e == n {
        n
    } else if Crossing::Low.holds(score[raw_e]) {
        look_back(score, Crossing::NotLow, raw_e, s_end)
    } else {
        look_forward(score, Crossing::Low, raw_e, n)
    };
    let s_start: usize = look_back(score, Crossing::Low, s_end, it);
    let e_start: usize = look_back(score, Crossing::High, e_end, s_end);
    proof {
        lemma_backward_bound(is_low(score@), s_end as int, it as int);
        lemma_backward_bound(is_high(score@), e_end as int, s_end as int);
    }
    let s_best: usize = look_forward(score, Crossing::Positive, s_start, s_end);
    let e_best: usize = look_back(score, Crossing::Positive, e_end, e_start);
    Interval { s_start, s_best, s_end, e_start, e_best, e_end, next: raw_e }
}

/// The text of all intervals, by what frames are taken for and the medians around them.
pub fn build_text(result: &Vec<Judgement>, score: &Vec<i32>) -> (out: String)
    requires
        result@.len() == score@.len(),
        result@.len() <= i64::MAX,
    ensures
        out@ == text_from(result@, score@, 0),
{
    let n: usize = result.len();
    let mut out = String::new();
    let mut it: usize = 0;
    assert(out@ + text_from(result@, score@, 0) =~= text_from(result@, score@, 0));
    while it < n
        invariant
            n == result@.len() == score@.len(),
            n <= i64::MAX,
            it <= n,
            out@ + text_from(result@, score@, it as int) == text_from(result@, score@, 0),
        decreases n - it,
    {
        let ghost before = out@;
        let i: Interval = find_interval(result, score, it);
        proof {
            lemma_ends(result@, score@, it as int);
        }
        if i.s_end < i.e_end {
            proof {
                written_intervals_are_in_order(result@, score@, it as int);
            }
            push_line(&mut out, i.s_best as i64, "S", i.s_start as i64, i.s_end as i64);
            push_line(
                &mut out,
                i.e_best as i64 - 1,
                "E",
                i.e_start as i64 - 1,
                i.e_end as i64 - 1,
            );
            assert(out@ =~= before + interval_lines(i));
        }
        proof {
            let lines = if i.s_end < i.e_end {
                interval_lines(i)
            } else {
                Seq::empty()
            };
            assert(text_from(result@, score@, it as int) == lines + text_from(
                result@,
                score@,
                i.next as int,
            ));
            assert(out@ + text_from(result@, score@, i.next as int) =~= before + (lines
                + text_from(result@, score@, i.next as int)));
        }
        it = i.next;
    }
    assert(out@ =~= text_from(result@, score@, 0));
    out
}

/// The intervals in which a logo is shown.
#[derive(Debug, Clone, PartialEq, Eq)]
pub struct LogoIntervals {
    /// Two lines for each interval.
    pub text: String,
    /// The number of frames that are taken to show the logo.
    pub logo_frames: usize,
    pub total_frames: usize,
}

/// How many of the first `n` judgements find a logo.
pub open spec fn logo_count(result: Seq<Judgement>, n: int) -> int
    decreases n,
{
    if n <= 0 {
        0
    } else {
        logo_count(result, n - 1) + (if result[n - 1] == Judgement::HasLogo {
            1int
        } else {
            0
        })
    }
}

/// What frames are taken for in the end.
pub open spec fn final_judgements(raw: Seq<i32>, avg: Seq<i32>, frames_per_sec: u32) -> Seq<
    Judgement,
> {
    let first = Seq::new(raw.len(), |i: int| judged(raw, avg, spec_windows(frames_per_sec), i));
    Seq::new(raw.len(), |i: int| filled_at(first, i))
}

/// The medians around frames.
pub open spec fn medians(raw: Seq<i32>, frames_per_sec: u32) -> Seq<i32> {
    Seq::new(raw.len(), |i: int| median_at(raw, spec_windows(frames_per_sec), i))
}

/// The intervals in which a logo is shown, by the measures of all frames and the averages around
/// them.
pub fn write_result(raw: &[i32], avg: &[i32], frames_per_sec: u32) -> (r: LogoIntervals)
    requires
        raw@.len() == avg@.len(),
        raw@.len() <= i64::MAX,
    ensures
        r.text@ == text_from(
            final_judgements(raw@, avg@, frames_per_sec),
            medians(raw@, frames_per_sec),
            0,
        ),
        r.logo_frames == logo_count(
            final_judgements(raw@, avg@, frames_per_sec),
            raw@.len() as int,
        ),
        r.total_frames == raw@.len(),
{
    let n: usize = raw.len();
    if n == 0 {
        return LogoIntervals { text: String::new(), logo_frames: 0, total_frames: 0 };
    }
    let (first, score) = judge_frames(raw, avg, windows(frames_per_sec));
    let mut result: Vec<Judgement> = first;
    fill_unknown_runs(&mut result);
    assert(result@ =~= final_judgements(raw@, avg@, frames_per_sec));
    assert(score@ =~= medians(raw@, frames_per_sec));
    let mut logo_frames: usize = 0;
    let mut i: usize = 0;
    while i < n
        invariant
            n == result@.len(),
            i <= n,
            logo_frames == logo_count(result@, i as int),
            logo_frames <= i,
        decreases n - i,
    {
        if result[i] == Judgement::HasLogo {
            logo_frames += 1;
        }
        i += 1;
    }
    LogoIntervals { text: build_text(&result, &score), logo_frames, total_frames: n }
}

} // verus!
