//! Looking closely only where the presence of a logo may change.
//!
//! Key frames divide a video into groups of pictures. All key frames are looked at first; the
//! frames between them are looked at where that may matter.

use crate::sort;
use crate::text;
use crate::words;
use vstd::prelude::*;

verus! {

/// A group of pictures: the frames from a key frame up to the next one.
#[derive(Debug, Clone, Copy, PartialEq, Eq, Structural)]
pub struct Gop {
    /// The number of the key frame among key frames.
    pub kf_index: usize,
    /// The first frame.
    pub start: u64,
    /// The frame behind the last one.
    pub end: u64,
}

/// Group `i` of a video.
pub open spec fn gop_at(kf_frame_numbers: Seq<u64>, total_frames: u64, i: int) -> Gop {
    Gop {
        kf_index: i as usize,
        start: kf_frame_numbers[i],
        end: if i + 1 < kf_frame_numbers.len() {
            kf_frame_numbers[i + 1]
        } else {
            total_frames
        },
    }
}

/// The groups of a video.
pub open spec fn gops_of(kf_frame_numbers: Seq<u64>, total_frames: u64) -> Seq<Gop> {
    Seq::new(kf_frame_numbers.len(), |i: int| gop_at(kf_frame_numbers, total_frames, i))
}

/// The groups of a video.
pub fn build_gops(kf_frame_numbers: &[u64], total_frames: u64) -> (gops: Vec<Gop>)
    ensures
        gops@ == gops_of(kf_frame_numbers@, total_frames),
{
    let k: usize = kf_frame_numbers.len();
    let mut gops: Vec<Gop> = Vec::new();
    let mut i: usize = 0;
    while i < k
        invariant
            k == kf_frame_numbers@.len(),
            i <= k,
            gops@.len() == i,
            forall|j: int|
                0 <= j < i ==> #[trigger] gops@[j] == gop_at(kf_frame_numbers@, total_frames, j),
        decreases k - i,
    {
        let end: u64 = if i + 1 < k {
            kf_frame_numbers[i + 1]
        } else {
            total_frames
        };
        gops.push(Gop { kf_index: i, start: kf_frame_numbers[i], end });
        i += 1;
    }
    assert(gops@ =~= gops_of(kf_frame_numbers@, total_frames));
    gops
}

/// Each frame of a video that starts with a key frame is in exactly one group, where key frames
/// ascend.
pub proof fn every_frame_has_one_gop(kf_frame_numbers: Seq<u64>, total_frames: u64, frame: u64)
    requires
        kf_frame_numbers.len() > 0,
        kf_frame_numbers[0] == 0,
        forall|i: int, j: int|
            0 <= i < j < kf_frame_numbers.len() ==> #[trigger] kf_frame_numbers[i]
                < #[trigger] kf_frame_numbers[j],
        frame < total_frames,
    ensures
        exists|i: int| #[trigger] is_in_gop(gops_of(kf_frame_numbers, total_frames), i, frame),
        forall|i: int, j: int|
            #[trigger] is_in_gop(gops_of(kf_frame_numbers, total_frames), i, frame)
                && #[trigger] is_in_gop(gops_of(kf_frame_numbers, total_frames), j, frame) ==> i
                == j,
{
    let gops = gops_of(kf_frame_numbers, total_frames);
    let i = holder(kf_frame_numbers, frame, kf_frame_numbers.len() as int);
    lemma_holder(kf_frame_numbers, frame, kf_frame_numbers.len() as int);
    assert(is_in_gop(gops, i, frame));
    assert forall|a: int, b: int| #[trigger] is_in_gop(gops, a, frame) && #[trigger] is_in_gop(
        gops,
        b,
        frame,
    ) implies a == b by {
        if a < b {
            lemma_gop_ends_before(kf_frame_numbers, total_frames, a, b);
        } else if b < a {
            lemma_gop_ends_before(kf_frame_numbers, total_frames, b, a);
        }
    }
}

proof fn lemma_gop_ends_before(kf: Seq<u64>, total_frames: u64, a: int, b: int)
    requires
        0 <= a < b < kf.len(),
        forall|i: int, j: int| 0 <= i < j < kf.len() ==> #[trigger] kf[i] < #[trigger] kf[j],
    ensures
        gop_at(kf, total_frames, a).end <= gop_at(kf, total_frames, b).start,
{
    let next = a + 1;
    if next < b {
        assert(kf[next] < kf[b]);
    }
}

/// A frame is in group `i`.
pub open spec fn is_in_gop(gops: Seq<Gop>, i: int, frame: u64) -> bool {
    0 <= i < gops.len() && gops[i].start <= frame < gops[i].end
}

/// Two neighbouring key frames do not show the same: what is not known may be different.
pub open spec fn conflict(a: Option<bool>, b: Option<bool>) -> bool {
    a is None || b is None || a != b
}

/// Two neighbouring key frames do not show the same: what is not known may be different.
pub fn labels_conflict(a: Option<bool>, b: Option<bool>) -> (r: bool)
    ensures
        r == conflict(a, b),
{
    match (a, b) {
        (Some(x), Some(y)) => x != y,
        _ => true,
    }
}

/// Something changes between key frames `g` and `g + 1`.
pub open spec fn changes_at(labels: Seq<Option<bool>>, g: int) -> bool {
    0 <= g < labels.len() - 1 && conflict(labels[g], labels[g + 1])
}

/// Group `i` is to be looked at closely: it is the first or the last one, or something changes in
/// it or in one of its neighbours.
pub open spec fn is_target(labels: Seq<Option<bool>>, i: int) -> bool {
    ||| i == 0
    ||| i == labels.len() - 1
    ||| changes_at(labels, i - 1)
    ||| changes_at(labels, i)
    ||| changes_at(labels, i + 1)
}

/// The groups below `n` that are to be looked at closely.
pub open spec fn targets(labels: Seq<Option<bool>>, n: int) -> Seq<usize>
    decreases n,
{
    if n <= 0 {
        Seq::empty()
    } else if is_target(labels, n - 1) {
        targets(labels, n - 1).push((n - 1) as usize)
    } else {
        targets(labels, n - 1)
    }
}

/// The groups that are to be looked at closely, by what their key frames show.
pub fn select_refine_targets(labels: &[Option<bool>]) -> (r: Vec<usize>)
    ensures
        r@ == targets(labels@, labels@.len() as int),
{
    let k: usize = labels.len();
    let mut r: Vec<usize> = Vec::new();
    let mut i: usize = 0;
    while i < k
        invariant
            k == labels@.len(),
            i <= k,
            r@ == targets(labels@, i as int),
        decreases k - i,
    {
        let is_end: bool = i == 0 || i == k - 1;
        if is_end || labels_conflict(labels[i - 1], labels[i]) || labels_conflict(
            labels[i],
            labels[i + 1],
        ) || (k - i > 2 && labels_conflict(labels[i + 1], labels[i + 2])) {
            r.push(i);
        }
        i += 1;
    }
    r
}

/// The last of the first `n` key frames that is not behind `frame`, or -1.
pub open spec fn holder(kf_frame_numbers: Seq<u64>, frame: u64, n: int) -> int
    decreases n,
{
    if n <= 0 {
        -1
    } else if kf_frame_numbers[n - 1] <= frame {
        n - 1
    } else {
        holder(kf_frame_numbers, frame, n - 1)
    }
}

proof fn lemma_holder(kf_frame_numbers: Seq<u64>, frame: u64, n: int)
    requires
        0 < n <= kf_frame_numbers.len(),
        kf_frame_numbers[0] == 0,
    ensures
        0 <= holder(kf_frame_numbers, frame, n) < n,
        kf_frame_numbers[holder(kf_frame_numbers, frame, n)] <= frame,
        forall|i: int|
            holder(kf_frame_numbers, frame, n) < i < n ==> #[trigger] kf_frame_numbers[i] > frame,
    decreases n,
{
    if kf_frame_numbers[n - 1] > frame {
        lemma_holder(kf_frame_numbers, frame, n - 1);
    }
}

/// Some range has `x`; ranges have both ends.
pub open spec fn in_ranges(ranges: Seq<(usize, usize)>, x: usize) -> bool {
    exists|k: int| 0 <= k < ranges.len() && (#[trigger] ranges[k]).0 <= x <= ranges[k].1
}

/// Ranges ascend, and between two of them something is left out.
pub open spec fn are_separate(ranges: Seq<(usize, usize)>) -> bool {
    &&& forall|k: int| 0 <= k < ranges.len() ==> (#[trigger] ranges[k]).0 <= ranges[k].1
    &&& forall|j: int, k: int|
        0 <= j < k < ranges.len() ==> (#[trigger] ranges[j]).1 + 1 < (#[trigger] ranges[k]).0
}

/// `ranges` are the longest ranges of consecutive numbers among `indices`.
pub open spec fn is_grouping(indices: Seq<usize>, ranges: Seq<(usize, usize)>) -> bool {
    &&& are_separate(ranges)
    &&& forall|x: usize| #[trigger] in_ranges(ranges, x) <==> indices.contains(x)
}

proof fn lemma_grouping_step(
    indices: Seq<usize>,
    a: Seq<(usize, usize)>,
    b: Seq<(usize, usize)>,
    k: int,
)
    requires
        is_grouping(indices, a),
        is_grouping(indices, b),
        0 <= k < a.len(),
        k <= b.len(),
        forall|i: int| 0 <= i < k ==> #[trigger] a[i] == b[i],
    ensures
        k < b.len(),
        b[k].0 <= a[k].0,
{
    let x = a[k].0;
    assert(in_ranges(a, x));
    assert(indices.contains(x));
    assert(in_ranges(b, x));
    let j = choose|j: int| 0 <= j < b.len() && (#[trigger] b[j]).0 <= x <= b[j].1;
    if j < k {
        assert(a[j] == b[j]);
    }
}

proof fn lemma_grouping_end(
    indices: Seq<usize>,
    a: Seq<(usize, usize)>,
    b: Seq<(usize, usize)>,
    k: int,
)
    requires
        is_grouping(indices, a),
        is_grouping(indices, b),
        0 <= k < a.len(),
        k < b.len(),
        a[k].0 == b[k].0,
    ensures
        b[k].1 <= a[k].1,
{
    if a[k].1 < b[k].1 {
        let x = (a[k].1 + 1) as usize;
        assert(in_ranges(b, x));
        assert(indices.contains(x));
        assert(in_ranges(a, x));
        let j = choose|j: int| 0 <= j < a.len() && (#[trigger] a[j]).0 <= x <= a[j].1;
        assert(a[j] != a[k]);
    }
}

/// There is one way to group indices into ranges that are apart from each other.
pub proof fn grouping_is_unique(
    indices: Seq<usize>,
    a: Seq<(usize, usize)>,
    b: Seq<(usize, usize)>,
)
    requires
        is_grouping(indices, a),
        is_grouping(indices, b),
    ensures
        a == b,
{
    lemma_grouping_agrees(indices, a, b, if a.len() <= b.len() {
        a.len() as int
    } else {
        b.len() as int
    });
    if a.len() < b.len() {
        lemma_grouping_step(indices, b, a, a.len() as int);
    } else if b.len() < a.len() {
        lemma_grouping_step(indices, a, b, b.len() as int);
    }
    assert(a =~= b);
}

proof fn lemma_grouping_agrees(
    indices: Seq<usize>,
    a: Seq<(usize, usize)>,
    b: Seq<(usize, usize)>,
    k: int,
)
    requires
        is_grouping(indices, a),
        is_grouping(indices, b),
        0 <= k <= a.len(),
        k <= b.len(),
    ensures
        forall|i: int| 0 <= i < k ==> #[trigger] a[i] == b[i],
    decreases k,
{
    if k > 0 {
        lemma_grouping_agrees(indices, a, b, k - 1);
        lemma_grouping_step(indices, a, b, k - 1);
        lemma_grouping_step(indices, b, a, k - 1);
        lemma_grouping_end(indices, a, b, k - 1);
        lemma_grouping_end(indices, b, a, k - 1);
    }
}

/// One of the first `n` positions of an order leads to `x`.
spec fn listed(indices: Seq<usize>, order: Seq<usize>, n: int, x: usize) -> bool {
    exists|j: int| 0 <= j < n && indices[#[trigger] order[j] as int] == x
}

/// The longest ranges of consecutive numbers among `indices`.
pub fn group_consecutive(indices: Vec<usize>) -> (ranges: Vec<(usize, usize)>)
    ensures
        is_grouping(indices@, ranges@),
{
    let n: usize = indices.len();
    let mut keys: Vec<i128> = Vec::new();
    let mut i: usize = 0;
    while i < n
        invariant
            n == indices@.len(),
            i <= n,
            keys@.len() == i,
            forall|j: int| 0 <= j < i ==> #[trigger] keys@[j] == indices@[j],
        decreases n - i,
    {
        keys.push(indices[i] as i128);
        i += 1;
    }
    let order: Vec<usize> = sort::stable_order(&keys);
    let mut ranges: Vec<(usize, usize)> = Vec::new();
    let mut k: usize = 0;
    while k < n
        invariant
            n == indices@.len() == keys@.len(),
            forall|j: int| 0 <= j < n ==> #[trigger] keys@[j] == indices@[j],
            sort::is_stable_order(keys@, order@),
            k <= n,
            k > 0 <==> ranges@.len() > 0,
            k > 0 ==> ranges@[ranges@.len() - 1].1 == indices@[order@[k - 1] as int],
            are_separate(ranges@),
            forall|x: usize| #[trigger]
                in_ranges(ranges@, x) <==> listed(indices@, order@, k as int, x),
        decreases n - k,
    {
        let ghost before = ranges@;
        let v: usize = indices[order[k]];
        proof {
            if k > 0 {
                assert(sort::stably_before(
                    keys@,
                    order@[k - 1] as int,
                    order@[k as int] as int,
                ));
                assert(keys@[order@[k - 1] as int] == indices@[order@[k - 1] as int]);
                assert(keys@[order@[k as int] as int] == v);
            }
        }
        let count: usize = ranges.len();
        if count == 0 {
            ranges.push((v, v));
        } else {
            let last: (usize, usize) = ranges[count - 1];
            if v == last.1 {
            } else if v - last.1 == 1 {
                ranges.set(count - 1, (last.0, v));
            } else {
                ranges.push((v, v));
            }
        }
        proof {
            let next = k + 1;
            assert forall|x: usize| #[trigger] in_ranges(ranges@, x) <==> listed(
                indices@,
                order@,
                next as int,
                x,
            ) by {
                assert(in_ranges(before, x) <==> listed(indices@, order@, k as int, x));
                if listed(indices@, order@, next as int, x) {
                    let j = choose|j: int|
                        0 <= j < next && indices@[#[trigger] order@[j] as int] == x;
                    if j < k {
                        assert(indices@[order@[j] as int] == x);
                        assert(listed(indices@, order@, k as int, x));
                        let m = choose|m: int|
                            0 <= m < before.len() && (#[trigger] before[m]).0 <= x <= before[m].1;
                        assert(ranges@[m].0 <= x <= ranges@[m].1);
                    } else {
                        let last = ranges@.len() - 1;
                        assert(ranges@[last].0 <= x <= ranges@[last].1);
                    }
                }
                if in_ranges(ranges@, x) {
                    let m = choose|m: int|
                        0 <= m < ranges@.len() && (#[trigger] ranges@[m]).0 <= x <= ranges@[m].1;
                    if x == v {
                        assert(indices@[order@[k as int] as int] == x);
                    } else {
                        assert(before[m].0 <= x <= before[m].1);
                        assert(in_ranges(before, x));
                        let j = choose|j: int|
                            0 <= j < k && indices@[#[trigger] order@[j] as int] == x;
                        assert(indices@[order@[j] as int] == x && 0 <= j < next);
                    }
                }
            }
        }
        k += 1;
    }
    proof {
        assert forall|x: usize| #[trigger] in_ranges(ranges@, x) <==> indices@.contains(x) by {
            if listed(indices@, order@, n as int, x) {
                let j = choose|j: int| 0 <= j < n && indices@[#[trigger] order@[j] as int] == x;
                assert(indices@[order@[j] as int] == x);
            }
            if indices@.contains(x) {
                let a = choose|a: int| 0 <= a < n && indices@[a] == x;
                sort::stable_order_is_complete(keys@, order@, a);
                let j = choose|j: int| 0 <= j < order@.len() && #[trigger] order@[j] == a;
                assert(indices@[order@[j] as int] == x);
            }
        }
    }
    ranges
}

/// The values of consecutive frames.
pub struct RefinedRange<T> {
    pub start_frame: u64,
    pub scores: Vec<T>,
}

/// A range has the value of a frame.
pub open spec fn has_frame<T>(range: RefinedRange<T>, frame: int) -> bool {
    range.start_frame <= frame < range.start_frame + range.scores@.len()
}

/// The value of a frame: that of the last of the first `n` ranges that have it, else that of the
/// key frame before it.
pub open spec fn score_at<T>(
    kf_frame_numbers: Seq<u64>,
    kf_scores: Seq<T>,
    refined: Seq<RefinedRange<T>>,
    n: int,
    frame: int,
) -> T
    decreases n,
{
    if n <= 0 {
        kf_scores[holder(kf_frame_numbers, frame as u64, kf_frame_numbers.len() as int)]
    } else if has_frame(refined[n - 1], frame) {
        refined[n - 1].scores@[frame - refined[n - 1].start_frame]
    } else {
        score_at(kf_frame_numbers, kf_scores, refined, n - 1, frame)
    }
}

/// Why values cannot be put together.
#[derive(Debug, Clone, Copy, PartialEq, Eq, Structural)]
pub enum AssembleError {
    /// There is not one value for each key frame.
    LengthMismatch { key_frames: usize, scores: usize },
    /// There is no key frame.
    NoKeyframe,
    /// The first frame is no key frame.
    FirstIsNoKeyframe { first: u64 },
    /// A range goes beyond the last frame.
    BeyondEnd { idx: u64, total: u64 },
}

impl AssembleError {
    /// The message for the user.
    pub open spec fn spec_message(self) -> Seq<char> {
        match self {
            AssembleError::LengthMismatch { .. } => {
                "キーフレーム番号列とキーフレームcorr列の長さが食い違っています"@
            },
            AssembleError::NoKeyframe => "キーフレームが1つも無い入力は想定しない"@,
            AssembleError::FirstIsNoKeyframe { first } => {
                "先頭フレームは常にキーフレームである前提が崩れている: "@ + text::decimal(first as nat)
            },
            AssembleError::BeyondEnd { idx, total } => {
                "精緻化範囲が全フレーム数を超えています: idx="@ + text::decimal(idx as nat)
                    + ", total="@ + text::decimal(total as nat)
            },
        }
    }

    /// The message for the user.
    pub fn message(&self) -> (m: String)
        ensures
            m@ == self.spec_message(),
    {
        let mut m = String::new();
        match self {
            AssembleError::LengthMismatch { .. } => {
                m.append("キーフレーム番号列とキーフレームcorr列の長さが食い違っています");
            },
            AssembleError::NoKeyframe => {
                m.append("キーフレームが1つも無い入力は想定しない");
            },
            AssembleError::FirstIsNoKeyframe { first } => {
                m.append("先頭フレームは常にキーフレームである前提が崩れている: ");
                text::push_u64(&mut m, *first);
            },
            AssembleError::BeyondEnd { idx, total } => {
                m.append("精緻化範囲が全フレーム数を超えています: idx=");
                text::push_u64(&mut m, *idx);
                m.append(", total=");
                text::push_u64(&mut m, *total);
            },
        }
        assert(m@ =~= self.spec_message());
        m
    }
}

/// The frame where the first range that goes beyond the end does so, among the first `n` ranges.
pub open spec fn overrun<T>(refined: Seq<RefinedRange<T>>, total_frames: u64, n: int) -> Option<
    int,
>
    decreases n,
{
    if n <= 0 {
        None
    } else {
        match overrun(refined, total_frames, n - 1) {
            Some(at) => Some(at),
            None => {
                let r = refined[n - 1];
                if r.scores@.len() > 0 && r.start_frame + r.scores@.len() > total_frames {
                    Some(
                        if r.start_frame > total_frames {
                            r.start_frame as int
                        } else {
                            total_frames as int
                        },
                    )
                } else {
                    None
                }
            },
        }
    }
}

/// Why values cannot be put together, if so.
pub open spec fn assembly_error<T>(
    kf_frame_numbers: Seq<u64>,
    kf_scores: Seq<T>,
    total_frames: u64,
    refined: Seq<RefinedRange<T>>,
) -> Option<AssembleError> {
    if kf_frame_numbers.len() != kf_scores.len() {
        Some(
            AssembleError::LengthMismatch {
                key_frames: kf_frame_numbers.len() as usize,
                scores: kf_scores.len() as usize,
            },
        )
    } else if kf_frame_numbers.len() == 0 {
        Some(AssembleError::NoKeyframe)
    } else if kf_frame_numbers[0] != 0 {
        Some(AssembleError::FirstIsNoKeyframe { first: kf_frame_numbers[0] })
    } else {
        match overrun(refined, total_frames, refined.len() as int) {
            Some(at) => Some(AssembleError::BeyondEnd { idx: at as u64, total: total_frames }),
            None => None,
        }
    }
}

/// Checks that values can be put together.
pub fn check_assembly<T>(
    kf_frame_numbers: &[u64],
    kf_scores: &[T],
    total_frames: u64,
    refined: &[RefinedRange<T>],
) -> (r: Result<(), AssembleError>)
    ensures
        match assembly_error(kf_frame_numbers@, kf_scores@, total_frames, refined@) {
            Some(e) => r == Err::<(), AssembleError>(e),
            None => r is Ok,
        },
{
    let key_frames: usize = kf_frame_numbers.len();
    let scores: usize = kf_scores.len();
    if key_frames != scores {
        return Err(AssembleError::LengthMismatch { key_frames, scores });
    }
    if key_frames == 0 {
        return Err(AssembleError::NoKeyframe);
    }
    if kf_frame_numbers[0] != 0 {
        return Err(AssembleError::FirstIsNoKeyframe { first: kf_frame_numbers[0] });
    }
    let n: usize = refined.len();
    let mut i: usize = 0;
    while i < n
        invariant
            n == refined@.len(),
            i <= n,
            overrun(refined@, total_frames, i as int) is None,
            kf_frame_numbers@.len() == kf_scores@.len(),
            kf_frame_numbers@.len() > 0,
            kf_frame_numbers@[0] == 0,
        decreases n - i,
    {
        let start: u64 = refined[i].start_frame;
        let len: u64 = refined[i].scores.len() as u64;
        if len > 0 && (start > total_frames || len > total_frames - start) {
            let idx: u64 = if start > total_frames {
                start
            } else {
                total_frames
            };
            proof {
                lemma_overrun_stays(refined@, total_frames, i + 1, n as int);
            }
            return Err(AssembleError::BeyondEnd { idx, total: total_frames });
        }
        i += 1;
    }
    Ok(())
}

proof fn lemma_overrun_stays<T>(
    refined: Seq<RefinedRange<T>>,
    total_frames: u64,
    m: int,
    n: int,
)
    requires
        m <= n,
        overrun(refined, total_frames, m) is Some,
    ensures
        overrun(refined, total_frames, n) == overrun(refined, total_frames, m),
    decreases n - m,
{
    if m < n {
        lemma_overrun_stays(refined, total_frames, m, n - 1);
    }
}

proof fn lemma_no_overrun<T>(refined: Seq<RefinedRange<T>>, total_frames: u64, n: int, i: int)
    requires
        overrun(refined, total_frames, n) is None,
        0 <= i < n,
    ensures
        refined[i].scores@.len() > 0 ==> refined[i].start_frame + refined[i].scores@.len()
            <= total_frames,
    decreases n,
{
    if i < n - 1 {
        lemma_no_overrun(refined, total_frames, n - 1, i);
    }
}

/// The last of the first `n` key frames whose group has `frame`, else 0.
spec fn filler(kf: Seq<u64>, total_frames: u64, frame: int, n: int) -> int
    decreases n,
{
    if n <= 0 {
        0
    } else if kf[n - 1] <= frame < gop_at(kf, total_frames, n - 1).end {
        n - 1
    } else {
        filler(kf, total_frames, frame, n - 1)
    }
}

proof fn lemma_filler(kf: Seq<u64>, total_frames: u64, frame: int, n: int)
    requires
        0 < n <= kf.len(),
        kf[0] == 0,
        0 <= frame < total_frames,
        forall|i: int| n <= i < kf.len() ==> #[trigger] kf[i] > frame,
    ensures
        filler(kf, total_frames, frame, n) == holder(kf, frame as u64, n),
    decreases n,
{
    if kf[n - 1] <= frame {
        if n < kf.len() {
            assert(kf[n] > frame);
        }
    } else {
        assert forall|i: int| n - 1 <= i < kf.len() implies #[trigger] kf[i] > frame by {}
        lemma_filler(kf, total_frames, frame, n - 1);
    }
}

/// Puts the values of all frames together: those of key frames stand for all frames up to the
/// next key frame, and those of ranges replace them.
pub fn assemble_full_scores<T: Copy>(
    kf_frame_numbers: &[u64],
    kf_scores: &[T],
    total_frames: u64,
    refined: &[RefinedRange<T>],
) -> (out: Vec<T>)
    requires
        assembly_error(kf_frame_numbers@, kf_scores@, total_frames, refined@) is None,
        total_frames <= usize::MAX,
    ensures
        out@.len() == total_frames,
        forall|x: int|
            0 <= x < total_frames ==> #[trigger] out@[x] == score_at(
                kf_frame_numbers@,
                kf_scores@,
                refined@,
                refined@.len() as int,
                x,
            ),
{
    let total: usize = total_frames as usize;
    let ghost kf = kf_frame_numbers@;
    let k: usize = kf_frame_numbers.len();
    let mut out: Vec<T> = Vec::new();
    let mut x: usize = 0;
    while x < total
        invariant
            k == kf_frame_numbers@.len() == kf_scores@.len(),
            k > 0,
            x <= total,
            out@.len() == x,
            forall|j: int| 0 <= j < x ==> #[trigger] out@[j] == kf_scores@[0],
        decreases total - x,
    {
        out.push(kf_scores[0]);
        x += 1;
    }
    let mut i: usize = 0;
    while i < k
        invariant
            kf == kf_frame_numbers@,
            k == kf_frame_numbers@.len() == kf_scores@.len(),
            total == total_frames,
            i <= k,
            out@.len() == total,
            forall|j: int|
                0 <= j < total ==> #[trigger] out@[j] == kf_scores@[filler(
                    kf,
                    total_frames,
                    j,
                    i as int,
                )],
        decreases k - i,
    {
        let start: u64 = kf_frame_numbers[i];
        let end: u64 = if i + 1 < k {
            kf_frame_numbers[i + 1]
        } else {
            total_frames
        };
        let stop: u64 = if end < total_frames {
            end
        } else {
            total_frames
        };
        let ghost before = out@;
        let mut x: u64 = start;
        while x < stop
            invariant
                start <= x,
                x <= stop || x == start,
                stop <= total == total_frames,
                i < k == kf_scores@.len(),
                out@.len() == total == before.len(),
                forall|j: int|
                    0 <= j < total ==> #[trigger] out@[j] == (if start <= j < x && j < stop {
                        kf_scores@[i as int]
                    } else {
                        before[j]
                    }),
            decreases stop - x,
        {
            out.set(x as usize, kf_scores[i]);
            x += 1;
        }
        proof {
            assert forall|j: int| 0 <= j < total implies #[trigger] out@[j] == kf_scores@[filler(
                kf,
                total_frames,
                j,
                i + 1,
            )] by {
                assert(before[j] == kf_scores@[filler(kf, total_frames, j, i as int)]);
            }
        }
        i += 1;
    }
    proof {
        assert forall|j: int| 0 <= j < total implies #[trigger] out@[j] == score_at(
            kf,
            kf_scores@,
            refined@,
            0,
            j,
        ) by {
            lemma_filler(kf, total_frames, j, k as int);
        }
    }
    let count: usize = refined.len();
    let mut r: usize = 0;
    while r < count
        invariant
            kf == kf_frame_numbers@,
            count == refined@.len(),
            overrun(refined@, total_frames, count as int) is None,
            total == total_frames,
            r <= count,
            out@.len() == total,
            forall|j: int|
                0 <= j < total ==> #[trigger] out@[j] == score_at(
                    kf,
                    kf_scores@,
                    refined@,
                    r as int,
                    j,
                ),
        decreases count - r,
    {
        let len: usize = refined[r].scores.len();
        let start: u64 = refined[r].start_frame;
        let ghost before = out@;
        proof {
            lemma_no_overrun(refined@, total_frames, count as int, r as int);
        }
        let mut offset: usize = 0;
        while offset < len
            invariant
                r < count == refined@.len(),
                len == refined@[r as int].scores@.len(),
                start == refined@[r as int].start_frame,
                len > 0 ==> start + len <= total == total_frames,
                offset <= len,
                out@.len() == total == before.len(),
                forall|j: int|
                    0 <= j < total ==> #[trigger] out@[j] == (if start <= j < start + offset {
                        refined@[r as int].scores@[j - start]
                    } else {
                        before[j]
                    }),
            decreases len - offset,
        {
            out.set(start as usize + offset, refined[r].scores[offset]);
            offset += 1;
        }
        proof {
            assert forall|j: int| 0 <= j < total implies #[trigger] out@[j] == score_at(
                kf,
                kf_scores@,
                refined@,
                r + 1,
                j,
            ) by {
                assert(before[j] == score_at(kf, kf_scores@, refined@, r as int, j));
            }
        }
        r += 1;
    }
    out
}

/// The frames that a line of detected boundaries speaks of: its last two columns of six, where
/// they are numbers from 0 on and in order.
pub open spec fn touched_range(line: Seq<char>) -> Option<(u64, u64)> {
    let columns = words::words(line, line.len() as int);
    if columns.len() != 6 {
        None
    } else {
        match (words::number(columns[4]), words::number(columns[5])) {
            (Some(start), Some(end)) if 0 <= start <= end => Some((start as u64, end as u64)),
            _ => None,
        }
    }
}

/// The frames that the first `n` lines speak of.
pub open spec fn touched_ranges(all: Seq<Seq<char>>, n: int) -> Seq<(u64, u64)>
    decreases n,
{
    if n <= 0 {
        Seq::empty()
    } else {
        let before = touched_ranges(all, n - 1);
        match touched_range(all[n - 1]) {
            Some(range) => before.push(range),
            None => before,
        }
    }
}

/// The frames that the lines of a text of detected boundaries speak of.
pub fn touched_frame_ranges_from_logoframe_text(text: &str) -> (ranges: Vec<(u64, u64)>)
    ensures
        ranges@ == touched_ranges(
            words::lines(text@, text@.len() as int),
            words::lines(text@, text@.len() as int).len() as int,
        ),
{
    let chars: Vec<char> = words::to_chars(text);
    let all: Vec<Vec<char>> = words::split_lines(&chars);
    let ghost lines = words::lines(text@, text@.len() as int);
    let mut ranges: Vec<(u64, u64)> = Vec::new();
    let mut i: usize = 0;
    while i < all.len()
        invariant
            words::word_views(all@) == lines,
            i <= all@.len(),
            ranges@ == touched_ranges(lines, i as int),
        decreases all@.len() - i,
    {
        let columns: Vec<Vec<char>> = words::split_words(&all[i]);
        assert(lines[i as int] == all@[i as int]@);
        if columns.len() == 6 {
            let ghost views = words::word_views(columns@);
            assert(views[4] == columns@[4]@ && views[5] == columns@[5]@);
            let start: Option<i64> = words::parse_i64(&columns[4]);
            let end: Option<i64> = words::parse_i64(&columns[5]);
            if let (Some(start), Some(end)) = (start, end) {
                if start >= 0 && end >= 0 && start <= end {
                    ranges.push((start as u64, end as u64));
                }
            }
        }
        i += 1;
    }
    ranges
}

/// A group has a frame of one of the ranges, which have both ends.
pub open spec fn overlaps(gop: Gop, ranges: Seq<(u64, u64)>) -> bool {
    exists|k: int|
        0 <= k < ranges.len() && gop.start <= (#[trigger] ranges[k]).1 && ranges[k].0 < gop.end
}

/// The groups below `n` that have a frame of one of the ranges.
pub open spec fn overlapping(gops: Seq<Gop>, ranges: Seq<(u64, u64)>, n: int) -> Seq<usize>
    decreases n,
{
    if n <= 0 {
        Seq::empty()
    } else if overlaps(gops[n - 1], ranges) {
        overlapping(gops, ranges, n - 1).push((n - 1) as usize)
    } else {
        overlapping(gops, ranges, n - 1)
    }
}

/// The groups that have a frame of one of the ranges.
pub fn gops_overlapping_ranges(gops: &[Gop], ranges: &[(u64, u64)]) -> (r: Vec<usize>)
    ensures
        r@ == overlapping(gops@, ranges@, gops@.len() as int),
{
    let n: usize = gops.len();
    let m: usize = ranges.len();
    let mut r: Vec<usize> = Vec::new();
    let mut i: usize = 0;
    while i < n
        invariant
            n == gops@.len(),
            m == ranges@.len(),
            i <= n,
            r@ == overlapping(gops@, ranges@, i as int),
        decreases n - i,
    {
        let mut hit: bool = false;
        let mut k: usize = 0;
        while k < m
            invariant
                i < n == gops@.len(),
                m == ranges@.len(),
                k <= m,
                hit <==> exists|j: int|
                    0 <= j < k && gops@[i as int].start <= (#[trigger] ranges@[j]).1
                        && ranges@[j].0 < gops@[i as int].end,
            decreases m - k,
        {
            let range: (u64, u64) = ranges[k];
            if gops[i].start <= range.1 && range.0 < gops[i].end {
                assert(gops@[i as int].start <= ranges@[k as int].1 && ranges@[k as int].0
                    < gops@[i as int].end);
                hit = true;
            }
            k += 1;
        }
        if hit {
            r.push(i);
        }
        i += 1;
    }
    r
}

/// So many groups are to be looked at closely that all frames may as well be: at least the given
/// share of them.
pub fn should_fall_back_to_full_decode(
    refine_target_count: usize,
    total_gops: usize,
    numerator: u32,
    denominator: u32,
) -> (r: bool)
    ensures
        r == (total_gops > 0 && refine_target_count * denominator >= numerator * total_gops),
{
    if total_gops == 0 {
        return false;
    }
    proof {
        assert(0 <= refine_target_count * denominator <= usize::MAX * u32::MAX) by (nonlinear_arith)
            requires
                0 <= refine_target_count <= usize::MAX,
                0 <= denominator <= u32::MAX,
        ;
        assert(0 <= numerator * total_gops <= u32::MAX * usize::MAX) by (nonlinear_arith)
            requires
                0 <= total_gops <= usize::MAX,
                0 <= numerator <= u32::MAX,
        ;
    }
    refine_target_count as u128 * denominator as u128 >= numerator as u128 * total_gops as u128
}

} // verus!
