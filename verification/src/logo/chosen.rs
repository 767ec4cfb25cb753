//! How a logo is told from what only looks like one: the steps between pixels, the measures of
//! candidates, and which of them are chosen.

use crate::logo::bbox::Bbox;
use crate::logo::blocks;
use crate::logo::blocks::{BlockAccumulator, ClosedBlock};
use crate::logo::effects;
use crate::logo::effects::PixelEffect;
use crate::logo::estimate::{Candidate, EffectMaps};
use crate::logo::frames;
use crate::logo::frames::{FrameRequest, FrameStreamError, LogoRect};
use crate::logo::ranking;
use crate::logo::ranking::Ranked;
use crate::logo::score;
use crate::logo::select;
use crate::logo::select::{Auc, SampleLabel, ScoredCandidate};
use crate::sort;
use crate::text;
use vstd::prelude::*;

verus! {

/// The number of frames of commercials is the number of these frames.
pub proof fn commercials_are_counted(labels: Seq<SampleLabel>, n: int)
    requires
        0 <= n <= labels.len(),
    ensures
        Set::new(|i: int| 0 <= i < n && labels[i] is Cm).finite(),
        select::cm_count(labels, n) == Set::new(|i: int| 0 <= i < n && labels[i] is Cm).len(),
    decreases n,
{
    let now = Set::new(|i: int| 0 <= i < n && labels[i] is Cm);
    if n > 0 {
        commercials_are_counted(labels, n - 1);
        let before = Set::new(|i: int| 0 <= i < n - 1 && labels[i] is Cm);
        if labels[n - 1] is Cm {
            assert(now =~= before.insert(n - 1));
        } else {
            assert(now =~= before);
        }
    } else {
        assert(now =~= Set::empty());
    }
}

proof fn lemma_signs_are_counted(signs: Seq<i8>, sign: i8, n: int)
    requires
        0 <= n <= signs.len(),
    ensures
        Set::new(|i: int| 0 <= i < n && signs[i] == sign).finite(),
        select::sign_count(signs, sign, n) == Set::new(
            |i: int| 0 <= i < n && signs[i] == sign,
        ).len(),
    decreases n,
{
    let now = Set::new(|i: int| 0 <= i < n && signs[i] == sign);
    if n > 0 {
        lemma_signs_are_counted(signs, sign, n - 1);
        let before = Set::new(|i: int| 0 <= i < n - 1 && signs[i] == sign);
        if signs[n - 1] == sign {
            assert(now =~= before.insert(n - 1));
        } else {
            assert(now =~= before);
        }
    } else {
        assert(now =~= Set::empty());
    }
}

/// Signs agree where at least four of five blocks have the sign of the median, and it has one.
pub proof fn signs_agree_where_four_of_five_do(signs: Seq<i8>, median_sign: i8)
    ensures
        select::is_sign_agreed(signs, median_sign) <==> {
            &&& median_sign != 0
            &&& signs.len() > 0
            &&& Set::new(|i: int| 0 <= i < signs.len() && signs[i] == median_sign).len() * 5
                >= signs.len() * 4
        },
{
    lemma_signs_are_counted(signs, median_sign, signs.len() as int);
}

/// The effect at a pixel is the larger one of its two steps, that to the right where they are
/// equal, and its signs are those of that step.
pub proof fn stronger_step_decides(maps: EffectMaps, i: int, p: PixelEffect)
    requires
        effects::is_mapped(maps, i, Some(p)),
    ensures
        maps.effect@[i] >= p.across.magnitude,
        maps.effect@[i] >= p.down.magnitude,
        p.across.magnitude >= p.down.magnitude ==> {
            &&& maps.effect@[i] == p.across.magnitude
            &&& maps.sign_agrees@[i] == select::is_sign_agreed(
                p.across.signs@,
                p.across.median_sign,
            )
        },
        p.across.magnitude < p.down.magnitude ==> {
            &&& maps.effect@[i] == p.down.magnitude
            &&& maps.sign_agrees@[i] == select::is_sign_agreed(p.down.signs@, p.down.median_sign)
        },
        maps.valid@[i],
{
}

/// A pixel is not looked at within four pixels of an edge of the picture. There nothing is mapped.
pub proof fn pixels_near_the_edge_are_not_mapped<F: Fn(usize) -> Option<PixelEffect>>(
    measure: F,
    w: int,
    h: int,
    maps: EffectMaps,
    i: int,
)
    requires
        effects::is_measured(measure, w, h, maps, i),
        i % w < 4 || i % w >= w - 4 || i / w < 4 || i / w >= h - 4,
    ensures
        maps.effect@[i] == 0,
        !maps.sign_agrees@[i],
        !maps.valid@[i],
{
}

/// Elsewhere a pixel is mapped as it was measured, and as nothing where nothing was measured.
pub proof fn other_pixels_are_mapped_as_measured<F: Fn(usize) -> Option<PixelEffect>>(
    measure: F,
    w: int,
    h: int,
    maps: EffectMaps,
    i: int,
) -> (measured: Option<PixelEffect>)
    requires
        effects::is_measured(measure, w, h, maps, i),
        4 <= i % w < w - 4,
        4 <= i / w < h - 4,
    ensures
        measure.ensures((i as usize,), measured),
        measured is None ==> {
            &&& maps.effect@[i] == 0
            &&& !maps.sign_agrees@[i]
            &&& !maps.valid@[i]
        },
        measured matches Some(p) ==> {
            &&& maps.valid@[i]
            &&& maps.effect@[i] == p.across.magnitude || maps.effect@[i] == p.down.magnitude
            &&& maps.effect@[i] >= p.across.magnitude
            &&& maps.effect@[i] >= p.down.magnitude
        },
{
    let measured = choose|measured: Option<PixelEffect>| #[trigger]
        measure.ensures((i as usize,), measured) && effects::is_mapped(maps, i, measured);
    measured
}

/// A frame belongs to the one of sixteen blocks of equal length in which it lies.
pub proof fn frames_belong_to_sixteenths(i: int, total: int)
    requires
        0 <= i < total,
    ensures
        blocks::spec_block_of(i, total) * total <= 16 * i < (blocks::spec_block_of(i, total) + 1)
            * total,
        0 <= blocks::spec_block_of(i, total) < 16,
{
    let b = i * 16 / total;
    assert(b * total <= i * 16 < (b + 1) * total && 0 <= b < 16) by (nonlinear_arith)
        requires
            0 <= i < total,
            b == i * 16 / total,
    ;
}

/// The blocks that can be used are those, and only those, of at least five frames, in ascending
/// order.
pub proof fn blocks_of_five_frames_are_used(counts: Seq<u64>, n: int)
    requires
        0 <= n <= counts.len() <= usize::MAX,
    ensures
        forall|b: usize| #[trigger]
            blocks::usable_blocks(counts, n).contains(b) <==> b < n && counts[b as int] >= 5,
        forall|j: int, k: int|
            0 <= j < k < blocks::usable_blocks(counts, n).len()
                ==> #[trigger] blocks::usable_blocks(counts, n)[j]
                < #[trigger] blocks::usable_blocks(counts, n)[k],
    decreases n,
{
    if n > 0 {
        blocks_of_five_frames_are_used(counts, n - 1);
        let before = blocks::usable_blocks(counts, n - 1);
        let all = blocks::usable_blocks(counts, n);
        assert forall|k: int| 0 <= k < before.len() implies #[trigger] before[k] < n - 1 by {
            assert(before.contains(before[k]));
        }
        assert forall|b: usize| #[trigger] all.contains(b) <==> b < n && counts[b as int] >= 5 by {
            if all.contains(b) {
                let k = choose|k: int| 0 <= k < all.len() && all[k] == b;
                if k < before.len() {
                    assert(before[k] == b && before.contains(b));
                }
            }
            if b < n && counts[b as int] >= 5 {
                if b < n - 1 {
                    assert(before.contains(b));
                    let k = choose|k: int| 0 <= k < before.len() && before[k] == b;
                    assert(all[k] == b);
                } else {
                    assert(all[before.len() as int] == b);
                }
            }
        }
    }
}

/// The sum of steps over frames is the sum of how much brighter the one pixel is than the other:
/// the difference of their sums.
pub proof fn steps_are_differences_of_brightness(
    list: Seq<Seq<u8>>,
    i: int,
    step: int,
    lo: int,
    hi: int,
)
    requires
        0 <= lo <= hi <= list.len(),
    ensures
        blocks::step_sum(list, i, step, lo, hi) == (blocks::luma_total(list, i + step, hi)
            - blocks::luma_total(list, i + step, lo)) - (blocks::luma_total(list, i, hi)
            - blocks::luma_total(list, i, lo)),
    decreases hi - lo,
{
    if lo < hi {
        steps_are_differences_of_brightness(list, i, step, lo, hi - 1);
    }
}

/// Sums over frames add up: those of all frames are those of the first frames and of the others.
pub proof fn sums_over_frames_add_up(a: Seq<Seq<u8>>, b: Seq<Seq<u8>>, i: int, n: int)
    requires
        0 <= n <= b.len(),
    ensures
        blocks::luma_total(a + b, i, a.len() + n) == blocks::luma_total(a, i, a.len() as int)
            + blocks::luma_total(b, i, n),
        blocks::luma_square_total(a + b, i, a.len() + n) == blocks::luma_square_total(
            a,
            i,
            a.len() as int,
        ) + blocks::luma_square_total(b, i, n),
    decreases n,
{
    if n > 0 {
        sums_over_frames_add_up(a, b, i, n - 1);
        assert((a + b)[a.len() + n - 1] == b[n - 1]);
    } else {
        lemma_first_frames(a, b, i, a.len() as int);
    }
}

proof fn lemma_first_frames(a: Seq<Seq<u8>>, b: Seq<Seq<u8>>, i: int, n: int)
    requires
        0 <= n <= a.len(),
    ensures
        blocks::luma_total(a + b, i, n) == blocks::luma_total(a, i, n),
        blocks::luma_square_total(a + b, i, n) == blocks::luma_square_total(a, i, n),
    decreases n,
{
    if n > 0 {
        lemma_first_frames(a, b, i, n - 1);
        assert((a + b)[n - 1] == a[n - 1]);
    }
}

/// The sums of one frame are its brightness and the square of it.
pub proof fn sums_of_one_frame(frame: Seq<u8>, i: int)
    ensures
        blocks::luma_total(seq![frame], i, 1) == frame[i],
        blocks::luma_square_total(seq![frame], i, 1) == frame[i] * frame[i],
{
    reveal_with_fuel(blocks::luma_total, 2);
    reveal_with_fuel(blocks::luma_square_total, 2);
}

/// A pixel counts for the measure of a candidate where it is at most eight pixels away from its
/// box and at least four from every edge of the picture.
pub proof fn pixels_near_the_box_are_measured(b: Bbox, w: int, h: int, x: int, y: int)
    ensures
        select::widened(b.x_min as int, b.x_max as int, w).0 <= x <= select::widened(
            b.x_min as int,
            b.x_max as int,
            w,
        ).1 <==> b.x_min - 8 <= x <= b.x_max + 8 && 4 <= x < w - 4,
        select::widened(b.y_min as int, b.y_max as int, h).0 <= y <= select::widened(
            b.y_min as int,
            b.y_max as int,
            h,
        ).1 <==> b.y_min - 8 <= y <= b.y_max + 8 && 4 <= y < h - 4,
{
}

/// A candidate is selected where at least nine tenths of its comparisons are won, a draw being half
/// a win.
pub proof fn selected_candidates_win_nine_tenths(auc: Auc)
    ensures
        auc.is_selected() <==> auc.twice_u * 10 >= (2 * auc.pairs) * 9,
{
}

/// The values of frames with a label, in the order of the frames, are those at `at`.
pub open spec fn are_those_labelled(
    labels: Seq<SampleLabel>,
    label: SampleLabel,
    n: int,
    at: Seq<int>,
) -> bool {
    &&& forall|k: int| 0 <= k < at.len() ==> 0 <= #[trigger] at[k] < n && labels[at[k]] == label
    &&& forall|j: int, k: int| 0 <= j < k < at.len() ==> #[trigger] at[j] < #[trigger] at[k]
    &&& forall|i: int| 0 <= i < n && #[trigger] labels[i] == label ==> at.contains(i)
}

/// The values of the frames with a label are split off: those of all frames that have it, in their
/// order, and of no other.
pub proof fn values_are_split_by_label(
    labels: Seq<SampleLabel>,
    scores: Seq<i64>,
    label: SampleLabel,
    n: int,
) -> (at: Seq<int>)
    requires
        0 <= n <= labels.len(),
    ensures
        are_those_labelled(labels, label, n, at),
        select::labelled(labels, scores, label, n) == at.map_values(|i: int| scores[i]),
    decreases n,
{
    if n > 0 {
        let before = values_are_split_by_label(labels, scores, label, n - 1);
        let all = select::labelled(labels, scores, label, n);
        if labels[n - 1] == label {
            let at = before.push(n - 1);
            assert forall|i: int|
                0 <= i < n && #[trigger] labels[i] == label implies at.contains(i) by {
                if i < n - 1 {
                    let k = choose|k: int| 0 <= k < before.len() && before[k] == i;
                    assert(at[k] == i);
                } else {
                    assert(at[before.len() as int] == i);
                }
            }
            assert(all =~= at.map_values(|i: int| scores[i]));
            at
        } else {
            before
        }
    } else {
        let at = Seq::<int>::empty();
        assert(select::labelled(labels, scores, label, n) =~= at.map_values(|i: int| scores[i]));
        at
    }
}

/// Candidate `i` wins at least nine tenths of its comparisons.
pub open spec fn is_good(aucs: Seq<Option<Auc>>, i: int) -> bool {
    aucs[i] matches Some(auc) && auc.twice_u * 10 >= (2 * auc.pairs) * 9
}

/// `s` is candidate `i` with its measure.
pub open spec fn is_scored(
    candidates: Seq<Candidate>,
    aucs: Seq<Option<Auc>>,
    s: ScoredCandidate,
    i: int,
) -> bool {
    &&& s.candidate == candidates[i]
    &&& is_good(aucs, i)
    &&& s.twice_u == aucs[i]->0.twice_u
}

/// `s` is some good candidate with its measure.
pub open spec fn is_some_good(
    candidates: Seq<Candidate>,
    aucs: Seq<Option<Auc>>,
    s: ScoredCandidate,
) -> bool {
    exists|i: int| 0 <= i < candidates.len() && #[trigger] is_scored(candidates, aucs, s, i)
}

/// `i` is among those listed.
pub open spec fn is_listed(
    candidates: Seq<Candidate>,
    aucs: Seq<Option<Auc>>,
    scored: Seq<ScoredCandidate>,
    i: int,
) -> bool {
    exists|k: int| 0 <= k < scored.len() && is_scored(candidates, aucs, #[trigger] scored[k], i)
}

/// `a` has its place before `b`: the better measure comes first, then the stronger effect, then the
/// box further to the left, further up, narrower and lower.
pub open spec fn comes_first(a: ScoredCandidate, b: ScoredCandidate) -> bool {
    let (p, q) = (a.candidate, b.candidate);
    ||| a.twice_u > b.twice_u
    ||| a.twice_u == b.twice_u && p.max_effect > q.max_effect
    ||| a.twice_u == b.twice_u && p.max_effect == q.max_effect && p.raw_bbox.x < q.raw_bbox.x
    ||| a.twice_u == b.twice_u && p.max_effect == q.max_effect && p.raw_bbox.x == q.raw_bbox.x
        && p.raw_bbox.y < q.raw_bbox.y
    ||| a.twice_u == b.twice_u && p.max_effect == q.max_effect && p.raw_bbox.x == q.raw_bbox.x
        && p.raw_bbox.y == q.raw_bbox.y && p.raw_bbox.w < q.raw_bbox.w
    ||| a.twice_u == b.twice_u && p.max_effect == q.max_effect && p.raw_bbox.x == q.raw_bbox.x
        && p.raw_bbox.y == q.raw_bbox.y && p.raw_bbox.w == q.raw_bbox.w && p.raw_bbox.h
        <= q.raw_bbox.h
}

proof fn lemma_selected(candidates: Seq<Candidate>, aucs: Seq<Option<Auc>>, n: int)
    requires
        0 <= n <= candidates.len(),
        aucs.len() == candidates.len(),
    ensures
        forall|k: int|
            0 <= k < select::selected(candidates, aucs, n).len() ==> is_some_good(
                candidates,
                aucs,
                #[trigger] select::selected(candidates, aucs, n)[k],
            ),
        forall|i: int|
            0 <= i < n && is_good(aucs, i) ==> #[trigger] is_listed(
                candidates,
                aucs,
                select::selected(candidates, aucs, n),
                i,
            ),
    decreases n,
{
    if n > 0 {
        lemma_selected(candidates, aucs, n - 1);
        let before = select::selected(candidates, aucs, n - 1);
        let all = select::selected(candidates, aucs, n);
        assert(is_good(aucs, n - 1) <==> (aucs[n - 1] matches Some(auc) && auc.is_selected()));
        if is_good(aucs, n - 1) {
            let here = ScoredCandidate {
                candidate: candidates[n - 1],
                twice_u: aucs[n - 1]->0.twice_u,
            };
            assert(all == before.push(here));
            assert(is_scored(candidates, aucs, here, n - 1));
            assert(all[before.len() as int] == here);
            assert forall|k: int| 0 <= k < all.len() implies is_some_good(
                candidates,
                aucs,
                #[trigger] all[k],
            ) by {
                if k < before.len() {
                    assert(all[k] == before[k]);
                }
            }
        }
        assert forall|i: int| 0 <= i < n && is_good(aucs, i) implies #[trigger] is_listed(
            candidates,
            aucs,
            all,
            i,
        ) by {
            if i < n - 1 {
                assert(is_listed(candidates, aucs, before, i));
                let k = choose|k: int|
                    0 <= k < before.len() && is_scored(candidates, aucs, #[trigger] before[k], i);
                assert(all[k] == before[k]);
            }
        }
    }
}

/// With twenty frames of commercials or more, the candidates that are adopted are the good ones,
/// all of them and no other, the best first. With fewer frames it is the first candidate alone.
pub proof fn good_candidates_are_adopted(
    candidates: Seq<Candidate>,
    cm_samples: u64,
    aucs: Seq<Option<Auc>>,
) -> (scored: Seq<ScoredCandidate>)
    requires
        candidates.len() > 0,
        cm_samples >= 20 ==> aucs.len() == candidates.len(),
    ensures
        cm_samples < 20 ==> {
            &&& select::adopted(candidates, cm_samples, aucs).len() == 1
            &&& select::adopted(candidates, cm_samples, aucs)[0] == candidates[0]
        },
        cm_samples >= 20 ==> {
            &&& select::adopted(candidates, cm_samples, aucs) == scored.map_values(
                |s: ScoredCandidate| s.candidate,
            )
            &&& forall|k: int|
                0 <= k < scored.len() ==> is_some_good(candidates, aucs, #[trigger] scored[k])
            &&& forall|i: int|
                0 <= i < candidates.len() && is_good(aucs, i) ==> #[trigger] is_listed(
                    candidates,
                    aucs,
                    scored,
                    i,
                )
            &&& forall|j: int, k: int|
                0 <= j < k < scored.len() ==> comes_first(
                    #[trigger] scored[j],
                    #[trigger] scored[k],
                )
        },
{
    let n = candidates.len() as int;
    let chosen = select::selected(candidates, aucs, n);
    let m = chosen.len() as int;
    let scored = ranking::ranked(chosen);
    if cm_samples >= 20 {
        lemma_selected(candidates, aucs, n);
        ranking::ranking_is_in_order(chosen, m);
        assert(chosen.take(m) =~= chosen);
        broadcast use vstd::seq_lib::group_to_multiset_ensures;

        assert forall|k: int| 0 <= k < scored.len() implies is_some_good(
            candidates,
            aucs,
            #[trigger] scored[k],
        ) by {
            ranking::lemma_ranking_members(chosen, m, k);
        }
        assert forall|i: int| 0 <= i < n && is_good(aucs, i) implies #[trigger] is_listed(
            candidates,
            aucs,
            scored,
            i,
        ) by {
            assert(is_listed(candidates, aucs, chosen, i));
            let k = choose|k: int|
                0 <= k < chosen.len() && is_scored(candidates, aucs, #[trigger] chosen[k], i);
            assert(chosen.contains(chosen[k]));
            assert(chosen.to_multiset().contains(chosen[k]));
            assert(scored.to_multiset() == chosen.to_multiset());
            assert(scored.to_multiset().contains(chosen[k]));
            assert(scored.contains(chosen[k]));
            let l = choose|l: int| 0 <= l < scored.len() && scored[l] == chosen[k];
            assert(is_scored(candidates, aucs, scored[l], i));
        }
        assert forall|j: int, k: int| 0 <= j < k < scored.len() implies comes_first(
            #[trigger] scored[j],
            #[trigger] scored[k],
        ) by {
            assert(!scored[k].before(scored[j]));
        }
    }
    scored
}

/// The windows have their centres at least two pixels from every edge, one at each such pixel, row
/// by row.
pub proof fn windows_are_everywhere(w: int, h: int, x: int, y: int)
    requires
        w >= 5,
        h >= 5,
        w <= usize::MAX,
        h <= usize::MAX,
        2 <= x < w - 2,
        2 <= y < h - 2,
    ensures
        0 <= (y - 2) * (w - 4) + x - 2 < score::centres(w, h).len(),
        score::centres(w, h)[(y - 2) * (w - 4) + x - 2] == (x as usize, y as usize),
        score::centres(w, h).len() == (w - 4) * (h - 4),
{
    let (cols, rows) = (w - 4, h - 4);
    let (c, r) = (x - 2, y - 2);
    let i = r * cols + c;
    assert(0 <= i < cols * rows && i % cols == c && i / cols == r) by (nonlinear_arith)
        requires
            i == r * cols + c,
            0 <= c < cols,
            0 <= r < rows,
    ;
}

/// A window is the five pixels from two to the left of its centre to two to the right of it, in
/// five rows from two above it to two below it, row by row.
pub proof fn windows_are_five_by_five(w: int, h: int, cx: int, cy: int, column: int, row: int)
    requires
        w * h <= usize::MAX,
        2 <= cx < w - 2,
        2 <= cy < h - 2,
        0 <= column < 5,
        0 <= row < 5,
    ensures
        score::window(w, cx, cy).len() == 25,
        score::window(w, cx, cy)[row * 5 + column] == (cy - 2 + row) * w + cx - 2 + column,
{
    let i = row * 5 + column;
    assert(i % 5 == column && i / 5 == row);
    let at = (cy - 2 + row) * w + cx - 2 + column;
    assert(0 <= at < w * h) by (nonlinear_arith)
        requires
            at == (cy - 2 + row) * w + cx - 2 + column,
            2 <= cx < w - 2,
            2 <= cy < h - 2,
            0 <= column < 5,
            0 <= row < 5,
    ;
}

/// No point that is left out varies more than one that is picked, and of points that vary as much
/// the earlier ones are picked.
pub proof fn picked_points_vary_most(
    variances: Seq<i32>,
    order: Seq<usize>,
    all: Seq<(usize, usize)>,
    n: int,
    i: int,
    j: int,
)
    requires
        all.len() == variances.len(),
        sort::is_stable_order(score::descending_keys(variances), order),
        0 <= i < n <= j < order.len(),
    ensures
        order.len() == all.len(),
        order[i] < all.len(),
        order[j] < all.len(),
        score::picked(all, order, n)[i] == all[order[i] as int],
        variances[order[i] as int] >= variances[order[j] as int],
        variances[order[i] as int] == variances[order[j] as int] ==> order[i] < order[j],
{
    let keys = score::descending_keys(variances);
    assert(keys[order[i] as int] == -variances[order[i] as int]);
    assert(keys[order[j] as int] == -variances[order[j] as int]);
}

/// A stream that was read has as many whole frames as its bytes make up. It is refused where bytes
/// are left over.
pub proof fn streams_are_whole_frames(stream: Seq<u8>, frame_bytes: usize)
    requires
        frame_bytes > 0,
        stream.len() <= u64::MAX,
    ensures
        match frames::frames_in(stream, frame_bytes) {
            Ok(n) => n * frame_bytes == stream.len(),
            Err(FrameStreamError::PartialFrame { frame_bytes: size, frame_count, partial }) => {
                &&& size == frame_bytes
                &&& 0 < partial < frame_bytes
                &&& frame_count * frame_bytes + partial == stream.len()
            },
            Err(_) => false,
        },
{
    let (len, size) = (stream.len() as int, frame_bytes as int);
    let (q, r) = (len / size, len % size);
    assert(q * size + r == len && 0 <= r < size && 0 <= q <= len) by (nonlinear_arith)
        requires
            size > 0,
            len >= 0,
            q == len / size,
            r == len % size,
    ;
}

/// Another number of frames than expected is refused, and no key frame at all.
pub proof fn frames_are_counted(stream: Seq<u8>, frame_bytes: usize, expected: u64)
    ensures
        frames::frames_in(stream, frame_bytes) is Err ==> {
            &&& frames::expected_frames_in(stream, frame_bytes, expected) == frames::frames_in(
                stream,
                frame_bytes,
            )
            &&& frames::keyframes_in(stream, frame_bytes) == frames::frames_in(stream, frame_bytes)
        },
        frames::frames_in(stream, frame_bytes) matches Ok(n) ==> {
            &&& n == expected ==> frames::expected_frames_in(stream, frame_bytes, expected) == Ok::<
                u64,
                FrameStreamError,
            >(n)
            &&& n != expected ==> frames::expected_frames_in(stream, frame_bytes, expected)
                == Err::<u64, FrameStreamError>(
                FrameStreamError::FrameCount { frame_count: n, expected },
            )
            &&& n > 0 ==> frames::keyframes_in(stream, frame_bytes) == Ok::<u64, FrameStreamError>(n)
            &&& n == 0 ==> frames::keyframes_in(stream, frame_bytes) == Err::<
                u64,
                FrameStreamError,
            >(FrameStreamError::NoKeyframe)
        },
{
}

/// The measure of a candidate compares the frames of the program with those of commercials. Where
/// every frame of the program scores higher, all comparisons are won, and where every frame of
/// commercials does, none is. Without frames of both nothing is measured.
pub proof fn measures_compare_program_with_commercials(
    labels: Seq<SampleLabel>,
    scores: Option<Vec<i64>>,
) -> (at: (Seq<int>, Seq<int>))
    requires
        scores matches Some(list) ==> list@.len() == labels.len(),
        2 * (labels.len() * labels.len()) <= u128::MAX,
    ensures
        scores is None ==> select::measure_of(labels, scores) is None,
        scores matches Some(list) ==> {
            let (program, commercials) = at;
            &&& are_those_labelled(labels, SampleLabel::Program, labels.len() as int, program)
            &&& are_those_labelled(labels, SampleLabel::Cm, labels.len() as int, commercials)
            &&& select::measure_of(labels, scores) is None <==> program.len() == 0
                || commercials.len() == 0
            &&& select::measure_of(labels, scores) matches Some(auc) ==> {
                &&& auc.pairs == program.len() * commercials.len()
                &&& (forall|i: int, j: int|
                    0 <= i < labels.len() && 0 <= j < labels.len() && #[trigger] labels[i]
                        == SampleLabel::Program && #[trigger] labels[j] == SampleLabel::Cm
                        ==> list@[i] > list@[j]) ==> auc.twice_u == 2 * auc.pairs
                &&& (forall|i: int, j: int|
                    0 <= i < labels.len() && 0 <= j < labels.len() && #[trigger] labels[i]
                        == SampleLabel::Program && #[trigger] labels[j] == SampleLabel::Cm
                        ==> list@[i] < list@[j]) ==> auc.twice_u == 0
            }
        },
{
    match scores {
        None => (Seq::empty(), Seq::empty()),
        Some(list) => {
            let n = labels.len() as int;
            let p = values_are_split_by_label(labels, list@, SampleLabel::Program, n);
            let c = values_are_split_by_label(labels, list@, SampleLabel::Cm, n);
            let program = select::labelled(labels, list@, SampleLabel::Program, n);
            let cm = select::labelled(labels, list@, SampleLabel::Cm, n);
            lemma_ascending_len(p, n);
            lemma_ascending_len(c, n);
            select::uniform_comparisons(program, cm);
            select::swapped_groups_give_the_complement(program, cm);
            assert(program.len() * cm.len() <= n * n) by (nonlinear_arith)
                requires
                    program.len() <= n,
                    cm.len() <= n,
            ;
            if forall|i: int, j: int|
                0 <= i < labels.len() && 0 <= j < labels.len() && #[trigger] labels[i]
                    == SampleLabel::Program && #[trigger] labels[j] == SampleLabel::Cm ==> list@[i]
                    > list@[j] {
                assert forall|i: int, j: int|
                    0 <= i < program.len() && 0 <= j < cm.len() implies #[trigger] program[i]
                    > #[trigger] cm[j] by {
                    assert(labels[p[i]] == SampleLabel::Program && labels[c[j]] == SampleLabel::Cm);
                }
            }
            if forall|i: int, j: int|
                0 <= i < labels.len() && 0 <= j < labels.len() && #[trigger] labels[i]
                    == SampleLabel::Program && #[trigger] labels[j] == SampleLabel::Cm ==> list@[i]
                    < list@[j] {
                assert forall|i: int, j: int|
                    0 <= i < program.len() && 0 <= j < cm.len() implies #[trigger] program[i]
                    < #[trigger] cm[j] by {
                    assert(labels[p[i]] == SampleLabel::Program && labels[c[j]] == SampleLabel::Cm);
                }
            }
            (p, c)
        },
    }
}

proof fn lemma_ascending_len(at: Seq<int>, n: int)
    requires
        0 <= n,
        forall|k: int| 0 <= k < at.len() ==> 0 <= #[trigger] at[k] < n,
        forall|j: int, k: int| 0 <= j < k < at.len() ==> #[trigger] at[j] < #[trigger] at[k],
    ensures
        at.len() <= n,
{
    if at.len() > 0 {
        lemma_ascending_at(at, at.len() - 1);
    }
}

proof fn lemma_ascending_at(at: Seq<int>, k: int)
    requires
        0 <= k < at.len(),
        0 <= at[0],
        forall|j: int, l: int| 0 <= j < l < at.len() ==> #[trigger] at[j] < #[trigger] at[l],
    ensures
        at[k] >= k,
    decreases k,
{
    if k > 0 {
        lemma_ascending_at(at, k - 1);
        assert(at[k - 1] < at[k]);
    }
}

/// A closed block has for each pixel the sum of the steps to the next pixel to the right, and of
/// those to the next pixel below, over its frames. Within four pixels of an edge it has nothing.
pub proof fn closed_blocks_have_steps_right_and_down(
    sums: &BlockAccumulator,
    closed: ClosedBlock,
    i: int,
)
    requires
        sums.is_closed_as(closed),
        0 <= i < sums.width() * sums.height(),
        0 <= sums.block_start() <= sums.spec_frames().len(),
    ensures
        ({
            let (w, h) = (sums.width(), sums.height());
            let list = sums.spec_frames();
            let (lo, hi) = (sums.block_start(), list.len() as int);
            let here = blocks::luma_total(list, i, hi) - blocks::luma_total(list, i, lo);
            let right = blocks::luma_total(list, i + 1, hi) - blocks::luma_total(list, i + 1, lo);
            let below = blocks::luma_total(list, i + w, hi) - blocks::luma_total(list, i + w, lo);
            &&& closed.count == hi - lo
            &&& 4 <= i % w < w - 4 && 4 <= i / w < h - 4 ==> closed.sum_h@[i] == right - here
                && closed.sum_v@[i] == below - here
            &&& !(4 <= i % w < w - 4 && 4 <= i / w < h - 4) ==> closed.sum_h@[i] == 0
                && closed.sum_v@[i] == 0
        }),
{
    let list = sums.spec_frames();
    let (lo, hi) = (sums.block_start(), list.len() as int);
    steps_are_differences_of_brightness(list, i, 1, lo, hi);
    steps_are_differences_of_brightness(list, i, sums.width(), lo, hi);
}

/// The sums of brightness and of its square are those of all frames, but nothing within four pixels
/// of an edge.
pub proof fn sums_leave_out_the_edges(
    luma: Seq<u64>,
    squares: Seq<u64>,
    list: Seq<Seq<u8>>,
    w: int,
    h: int,
    i: int,
)
    requires
        blocks::holds_luma(luma, list, w, h),
        blocks::holds_luma_squares(squares, list, w, h),
        0 <= i < w * h,
    ensures
        4 <= i % w < w - 4 && 4 <= i / w < h - 4 ==> luma[i] == blocks::luma_total(
            list,
            i,
            list.len() as int,
        ) && squares[i] == blocks::luma_square_total(list, i, list.len() as int),
        !(4 <= i % w < w - 4 && 4 <= i / w < h - 4) ==> luma[i] == 0 && squares[i] == 0,
{
}

/// Requests differ in what they ask for alone: key frames are asked for in the same way whether they
/// are cropped or not, frames from a time on whether they are counted or not, and all requests for
/// a rectangle crop to it in the same way.
pub proof fn requests_differ_in_what_they_ask_for(
    rect: LogoRect,
    seek: String,
    count: u64,
)
    ensures
        ({
            let all = FrameRequest::All { rect };
            let keys = FrameRequest::Keyframes;
            let cropped = FrameRequest::KeyframesCropped { rect };
            let from = FrameRequest::FromSeek { rect, seek };
            let range = FrameRequest::Range { rect, seek, count };
            &&& keys.args_before() == cropped.args_before()
            &&& from.args_before() == range.args_before()
            &&& all.args_after() == cropped.args_after()
            &&& all.args_after() == from.args_after()
            &&& all.args_after().len() == keys.args_after().len() + 2
            &&& range.args_after().len() == all.args_after().len() + 2
            &&& keys.args_before().len() == all.args_before().len() + 2
            &&& from.args_before().len() == all.args_before().len() + 2
            &&& all.args_after()[5] == "crop="@ + text::decimal(rect.w as nat) + ":"@
                + text::decimal(rect.h as nat) + ":"@ + text::decimal(rect.x as nat) + ":"@
                + text::decimal(rect.y as nat)
            &&& range.args_after()[11] == text::decimal(count as nat)
            &&& from.args_before()[4] == seek@
            &&& keys.args_before()[4] == "nokey"@
        }),
{
}

} // verus!
