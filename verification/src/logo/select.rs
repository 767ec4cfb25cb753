//! Choosing among the places where a logo may be, by how well the presence of what is there
//! tells the program from commercials.
//!
//! How much a frame looks like a logo is measured elsewhere; the measures are given here as
//! whole numbers that are ordered as they are.

use crate::logo::bbox::Bbox;
use crate::logo::blocks::{BORDER_MARGIN, MAX_FRAMES};
use crate::logo::estimate;
use crate::logo::estimate::{Candidate, RECT_MARGIN};
use crate::logo::ranking;
use crate::logo::ranking::Ranked;
use vstd::prelude::*;

verus! {

/// With fewer frames of commercials nothing is measured.
pub const MIN_CM_SAMPLES_FOR_AUC: u64 = 20;

/// What a frame belongs to.
#[derive(Debug, Clone, Copy, PartialEq, Eq, Structural)]
pub enum SampleLabel {
    Program,
    Cm,
}

/// How many of `labels` are commercials.
pub open spec fn cm_count(labels: Seq<SampleLabel>, n: int) -> int
    decreases n,
{
    if n <= 0 {
        0
    } else {
        cm_count(labels, n - 1) + (if labels[n - 1] == SampleLabel::Cm {
            1int
        } else {
            0
        })
    }
}

/// How many of `labels` are commercials.
pub fn count_cm(labels: &Vec<SampleLabel>) -> (n: u64)
    requires
        labels@.len() <= u64::MAX,
    ensures
        n == cm_count(labels@, labels@.len() as int),
{
    let mut n: u64 = 0;
    let mut i: usize = 0;
    while i < labels.len()
        invariant
            labels@.len() <= u64::MAX,
            i <= labels@.len(),
            n == cm_count(labels@, i as int),
            n <= i,
        decreases labels@.len() - i,
    {
        match labels[i] {
            SampleLabel::Cm => {
                n += 1;
            },
            SampleLabel::Program => {},
        }
        i += 1;
    }
    n
}

/// At least four fifths of the values have the sign of their median, which is not 0.
pub open spec fn is_sign_agreed(signs: Seq<i8>, median_sign: i8) -> bool {
    &&& median_sign != 0
    &&& signs.len() > 0
    &&& 5 * sign_count(signs, median_sign, signs.len() as int) >= 4 * signs.len()
}

/// How many of the first `n` signs are `sign`.
pub open spec fn sign_count(signs: Seq<i8>, sign: i8, n: int) -> int
    decreases n,
{
    if n <= 0 {
        0
    } else {
        sign_count(signs, sign, n - 1) + (if signs[n - 1] == sign {
            1int
        } else {
            0
        })
    }
}

/// At least four fifths of the values have the sign of their median. `signs` has 1, 0 or -1 for
/// each value.
pub fn sign_agreement(signs: &Vec<i8>, median_sign: i8) -> (r: bool)
    ensures
        r == is_sign_agreed(signs@, median_sign),
{
    let n: usize = signs.len();
    let mut count: usize = 0;
    let mut i: usize = 0;
    while i < n
        invariant
            n == signs@.len(),
            i <= n,
            count == sign_count(signs@, median_sign, i as int),
            count <= i,
        decreases n - i,
    {
        if signs[i] == median_sign {
            count += 1;
        }
        i += 1;
    }
    median_sign != 0 && n > 0 && 5 * count as u128 >= 4 * n as u128
}

/// The pixels by which a candidate is measured, with both ends.
#[derive(Debug, Clone, Copy, PartialEq, Eq, Structural)]
pub struct ScoreRegion {
    pub x_min: usize,
    pub y_min: usize,
    pub x_max: usize,
    pub y_max: usize,
}

/// The larger of two numbers.
pub open spec fn larger(a: int, b: int) -> int {
    if a > b {
        a
    } else {
        b
    }
}

/// The ends of a range with the margin around it, as far as a picture of `size` pixels goes
/// without its edge.
pub open spec fn widened(min: int, max: int, size: int) -> (int, int) {
    (
        larger(min - RECT_MARGIN, BORDER_MARGIN as int),
        estimate::smaller(max + RECT_MARGIN, size - 1 - BORDER_MARGIN),
    )
}

fn widen(min: u32, max: u32, size: usize) -> (r: (usize, usize))
    requires
        size >= 5,
        max + 8 <= usize::MAX,
    ensures
        r.0 == widened(min as int, max as int, size as int).0,
        r.1 == widened(min as int, max as int, size as int).1,
{
    let lo: usize = if min > 12 {
        min as usize - 8
    } else {
        4
    };
    let end: usize = max as usize + 8;
    let hi: usize = if end < size - 5 {
        end
    } else {
        size - 5
    };
    (lo, hi)
}

/// The pixels by which a candidate is measured: its rectangle with the margin, as far as the
/// picture goes without its edge. `None` where nothing is left.
pub fn candidate_score_region(b: Bbox, w: usize, h: usize) -> (r: Option<ScoreRegion>)
    requires
        b.x_max + 8 <= usize::MAX,
        b.y_max + 8 <= usize::MAX,
    ensures
        ({
            let x = widened(b.x_min as int, b.x_max as int, w as int);
            let y = widened(b.y_min as int, b.y_max as int, h as int);
            match r {
                Some(region) => {
                    &&& w > 2 * BORDER_MARGIN + 1
                    &&& h > 2 * BORDER_MARGIN + 1
                    &&& region.x_min == x.0
                    &&& region.x_max == x.1
                    &&& region.y_min == y.0
                    &&& region.y_max == y.1
                    &&& x.0 <= x.1
                    &&& y.0 <= y.1
                },
                None => {
                    ||| w <= 2 * BORDER_MARGIN + 1
                    ||| h <= 2 * BORDER_MARGIN + 1
                    ||| x.0 > x.1
                    ||| y.0 > y.1
                },
            }
        }),
{
    if w <= 9 || h <= 9 {
        return None;
    }
    let x: (usize, usize) = widen(b.x_min, b.x_max, w);
    let y: (usize, usize) = widen(b.y_min, b.y_max, h);
    if x.0 > x.1 || y.0 > y.1 {
        return None;
    }
    Some(ScoreRegion { x_min: x.0, y_min: y.0, x_max: x.1, y_max: y.1 })
}

/// A measured region lies within the picture, and so does the next pixel to the right of and
/// below each of its pixels.
pub proof fn score_region_has_neighbours(b: Bbox, w: int, h: int, x: int, y: int)
    requires
        widened(b.x_min as int, b.x_max as int, w).0 <= x <= widened(
            b.x_min as int,
            b.x_max as int,
            w,
        ).1,
        widened(b.y_min as int, b.y_max as int, h).0 <= y <= widened(
            b.y_min as int,
            b.y_max as int,
            h,
        ).1,
    ensures
        BORDER_MARGIN <= x && x + 1 < w,
        BORDER_MARGIN <= y && y + 1 < h,
{
}

/// 2 where the first number is greater, 1 where both are equal, else 0.
pub open spec fn comparison(a: i64, b: i64) -> int {
    if a > b {
        2
    } else if a == b {
        1
    } else {
        0
    }
}

/// The sum of the comparisons of `a` with the first `n` of `others`.
pub open spec fn wins(a: i64, others: Seq<i64>, n: int) -> int
    decreases n,
{
    if n <= 0 {
        0
    } else {
        wins(a, others, n - 1) + comparison(a, others[n - 1])
    }
}

/// The sum of the comparisons of the first `n` of `values` with all of `others`.
pub open spec fn all_wins(values: Seq<i64>, others: Seq<i64>, n: int) -> int
    decreases n,
{
    if n <= 0 {
        0
    } else {
        all_wins(values, others, n - 1) + wins(values[n - 1], others, others.len() as int)
    }
}

/// How likely it is that a frame of the program has a greater measure than a frame of a
/// commercial, where equal measures count half: `twice_u / (2 * pairs)`.
#[derive(Debug, Clone, Copy, PartialEq, Eq, Structural)]
pub struct Auc {
    pub twice_u: u128,
    /// The number of pairs of a frame of the program and a frame of a commercial.
    pub pairs: u128,
}

proof fn lemma_wins_bound(a: i64, others: Seq<i64>, n: int)
    requires
        0 <= n,
    ensures
        0 <= wins(a, others, n) <= 2 * n,
    decreases n,
{
    if n > 0 {
        lemma_wins_bound(a, others, n - 1);
    }
}

proof fn lemma_all_wins_bound(values: Seq<i64>, others: Seq<i64>, n: int)
    requires
        0 <= n <= values.len(),
    ensures
        0 <= all_wins(values, others, n) <= 2 * (n * others.len()),
    decreases n,
{
    if n > 0 {
        lemma_all_wins_bound(values, others, n - 1);
        lemma_wins_bound(values[n - 1], others, others.len() as int);
        assert((n - 1) * others.len() + others.len() == n * others.len()) by (nonlinear_arith);
    } else {
        assert(n * others.len() == 0) by (nonlinear_arith)
            requires
                n == 0,
        ;
    }
}

/// Compares the measures of the program with those of commercials. `None` where there is nothing
/// to compare.
pub fn auc_from_scores(program_scores: &Vec<i64>, cm_scores: &Vec<i64>) -> (r: Option<Auc>)
    requires
        2 * (program_scores@.len() * cm_scores@.len()) <= u128::MAX,
    ensures
        match r {
            Some(auc) => {
                &&& program_scores@.len() > 0
                &&& cm_scores@.len() > 0
                &&& auc.twice_u == all_wins(
                    program_scores@,
                    cm_scores@,
                    program_scores@.len() as int,
                )
                &&& auc.pairs == program_scores@.len() * cm_scores@.len()
                &&& auc.twice_u <= 2 * auc.pairs
            },
            None => program_scores@.len() == 0 || cm_scores@.len() == 0,
        },
{
    let n1: usize = program_scores.len();
    let n2: usize = cm_scores.len();
    if n1 == 0 || n2 == 0 {
        return None;
    }
    let mut twice_u: u128 = 0;
    let mut i: usize = 0;
    while i < n1
        invariant
            n1 == program_scores@.len(),
            n2 == cm_scores@.len(),
            2 * (n1 * n2) <= u128::MAX,
            i <= n1,
            twice_u == all_wins(program_scores@, cm_scores@, i as int),
        decreases n1 - i,
    {
        let a: i64 = program_scores[i];
        let mut sum: u128 = 0;
        let mut j: usize = 0;
        while j < n2
            invariant
                n2 == cm_scores@.len(),
                j <= n2,
                sum == wins(a, cm_scores@, j as int),
                sum <= 2 * j,
            decreases n2 - j,
        {
            let b: i64 = cm_scores[j];
            if a > b {
                sum += 2;
            } else if a == b {
                sum += 1;
            }
            j += 1;
        }
        proof {
            lemma_all_wins_bound(program_scores@, cm_scores@, i + 1);
            assert((i + 1) * n2 <= n1 * n2) by (nonlinear_arith)
                requires
                    i + 1 <= n1,
                    0 <= n2,
            ;
        }
        twice_u += sum;
        i += 1;
    }
    proof {
        lemma_all_wins_bound(program_scores@, cm_scores@, n1 as int);
    }
    Some(Auc { twice_u, pairs: n1 as u128 * n2 as u128 })
}

proof fn lemma_constant_wins(a: i64, others: Seq<i64>, c: int, n: int)
    requires
        0 <= n <= others.len(),
        forall|j: int| 0 <= j < others.len() ==> comparison(a, #[trigger] others[j]) == c,
    ensures
        wins(a, others, n) == c * n,
    decreases n,
{
    if n > 0 {
        lemma_constant_wins(a, others, c, n - 1);
        assert(c * (n - 1) + c == c * n) by (nonlinear_arith);
    } else {
        assert(c * n == 0) by (nonlinear_arith)
            requires
                n == 0,
        ;
    }
}

proof fn lemma_constant_all_wins(values: Seq<i64>, others: Seq<i64>, c: int, n: int)
    requires
        0 <= n <= values.len(),
        forall|i: int, j: int|
            0 <= i < values.len() && 0 <= j < others.len() ==> comparison(
                #[trigger] values[i],
                #[trigger] others[j],
            ) == c,
    ensures
        all_wins(values, others, n) == c * (n * others.len()),
    decreases n,
{
    let m = others.len() as int;
    if n > 0 {
        lemma_constant_all_wins(values, others, c, n - 1);
        let a = values[n - 1];
        assert forall|j: int| 0 <= j < others.len() implies comparison(a, #[trigger] others[j]) == c by {
            assert(comparison(values[n - 1], others[j]) == c);
        }
        lemma_constant_wins(a, others, c, m);
        assert(c * ((n - 1) * m) + c * m == c * (n * m)) by (nonlinear_arith);
    } else {
        assert(c * (n * m) == 0) by (nonlinear_arith)
            requires
                n == 0,
        ;
    }
}

/// The comparison is certain where all measures of the program are greater, even where all
/// measures are equal, and the reverse of certain where all measures of the program are less.
pub proof fn uniform_comparisons(program: Seq<i64>, cm: Seq<i64>)
    ensures
        (forall|i: int, j: int|
            0 <= i < program.len() && 0 <= j < cm.len() ==> #[trigger] program[i]
                > #[trigger] cm[j]) ==> all_wins(program, cm, program.len() as int) == 2 * (
        program.len() * cm.len()),
        (forall|i: int, j: int|
            0 <= i < program.len() && 0 <= j < cm.len() ==> #[trigger] program[i]
                == #[trigger] cm[j]) ==> all_wins(program, cm, program.len() as int)
            == program.len() * cm.len(),
        (forall|i: int, j: int|
            0 <= i < program.len() && 0 <= j < cm.len() ==> #[trigger] program[i]
                < #[trigger] cm[j]) ==> all_wins(program, cm, program.len() as int) == 0,
{
    let n = program.len() as int;
    if forall|i: int, j: int|
        0 <= i < program.len() && 0 <= j < cm.len() ==> #[trigger] program[i] > #[trigger] cm[j] {
        lemma_constant_all_wins(program, cm, 2, n);
    }
    if forall|i: int, j: int|
        0 <= i < program.len() && 0 <= j < cm.len() ==> #[trigger] program[i] == #[trigger] cm[j] {
        lemma_constant_all_wins(program, cm, 1, n);
    }
    if forall|i: int, j: int|
        0 <= i < program.len() && 0 <= j < cm.len() ==> #[trigger] program[i] < #[trigger] cm[j] {
        lemma_constant_all_wins(program, cm, 0, n);
    }
}

impl Auc {
    /// The likelihood is at least nine tenths.
    pub open spec fn is_selected(&self) -> bool {
        10 * self.twice_u >= 18 * self.pairs
    }
}

/// All measures are by the same number of pairs of frames, so that the greater likelihood is the
/// greater sum of comparisons.
pub open spec fn are_comparable(aucs: Seq<Option<Auc>>) -> bool {
    forall|i: int, j: int|
        0 <= i < aucs.len() && 0 <= j < aucs.len() && (#[trigger] aucs[i]) is Some && (
        #[trigger] aucs[j]) is Some ==> aucs[i]->0.pairs == aucs[j]->0.pairs
}

/// A candidate with its measure.
#[derive(Debug, Clone, Copy, PartialEq, Eq, Structural)]
pub struct ScoredCandidate {
    pub candidate: Candidate,
    pub twice_u: u128,
}

impl Ranked for ScoredCandidate {
    /// The greater measure ranks first, then the stronger step, then what is further to the
    /// left, further up, less wide, less high.
    open spec fn before(self, other: Self) -> bool {
        let a = self.candidate;
        let b = other.candidate;
        if self.twice_u != other.twice_u {
            self.twice_u > other.twice_u
        } else if a.max_effect != b.max_effect {
            a.max_effect > b.max_effect
        } else if a.raw_bbox.x != b.raw_bbox.x {
            a.raw_bbox.x < b.raw_bbox.x
        } else if a.raw_bbox.y != b.raw_bbox.y {
            a.raw_bbox.y < b.raw_bbox.y
        } else if a.raw_bbox.w != b.raw_bbox.w {
            a.raw_bbox.w < b.raw_bbox.w
        } else {
            a.raw_bbox.h < b.raw_bbox.h
        }
    }

    fn ranks_before(&self, other: &Self) -> (r: bool) {
        let a: Candidate = self.candidate;
        let b: Candidate = other.candidate;
        if self.twice_u != other.twice_u {
            self.twice_u > other.twice_u
        } else if a.max_effect != b.max_effect {
            a.max_effect > b.max_effect
        } else if a.raw_bbox.x != b.raw_bbox.x {
            a.raw_bbox.x < b.raw_bbox.x
        } else if a.raw_bbox.y != b.raw_bbox.y {
            a.raw_bbox.y < b.raw_bbox.y
        } else if a.raw_bbox.w != b.raw_bbox.w {
            a.raw_bbox.w < b.raw_bbox.w
        } else {
            a.raw_bbox.h < b.raw_bbox.h
        }
    }

    proof fn is_weak_order(a: Self, b: Self, c: Self) {
    }
}

/// The first `n` candidates that have a measure that is high enough.
pub open spec fn selected(candidates: Seq<Candidate>, aucs: Seq<Option<Auc>>, n: int) -> Seq<
    ScoredCandidate,
>
    decreases n,
{
    if n <= 0 {
        Seq::empty()
    } else {
        let before = selected(candidates, aucs, n - 1);
        match aucs[n - 1] {
            Some(auc) if auc.is_selected() => before.push(
                ScoredCandidate { candidate: candidates[n - 1], twice_u: auc.twice_u },
            ),
            _ => before,
        }
    }
}

/// The candidates to be tried, in this order.
pub open spec fn adopted(
    candidates: Seq<Candidate>,
    cm_samples: u64,
    aucs: Seq<Option<Auc>>,
) -> Seq<Candidate> {
    if cm_samples < MIN_CM_SAMPLES_FOR_AUC {
        seq![candidates[0]]
    } else {
        ranking::ranked(selected(candidates, aucs, candidates.len() as int)).map_values(
            |s: ScoredCandidate| s.candidate,
        )
    }
}

/// There are enough frames of commercials to measure candidates.
pub fn can_measure(cm_samples: u64) -> (r: bool)
    ensures
        r == (cm_samples >= MIN_CM_SAMPLES_FOR_AUC),
{
    cm_samples >= MIN_CM_SAMPLES_FOR_AUC
}

/// The candidates to be tried: the first one alone where there are too few frames of commercials
/// to measure anything, otherwise those whose measure is high enough, the best first. All
/// measures are by the same frames, so they are comparable.
pub fn select_by_auc(
    candidates: &Vec<Candidate>,
    cm_samples: u64,
    aucs: &Vec<Option<Auc>>,
) -> (r: Vec<Candidate>)
    requires
        candidates@.len() > 0,
        cm_samples >= MIN_CM_SAMPLES_FOR_AUC ==> aucs@.len() == candidates@.len(),
        are_comparable(aucs@),
        forall|i: int|
            0 <= i < aucs@.len() && (#[trigger] aucs@[i]) is Some ==> aucs@[i]->0.pairs
                <= u128::MAX / 20 && aucs@[i]->0.twice_u <= 2 * aucs@[i]->0.pairs,
    ensures
        r@ == adopted(candidates@, cm_samples, aucs@),
{
    let mut r: Vec<Candidate> = Vec::new();
    if cm_samples < MIN_CM_SAMPLES_FOR_AUC {
        r.push(candidates[0]);
        assert(r@ =~= adopted(candidates@, cm_samples, aucs@));
        return r;
    }
    let mut scored: Vec<ScoredCandidate> = Vec::new();
    let mut i: usize = 0;
    while i < candidates.len()
        invariant
            aucs@.len() == candidates@.len(),
            forall|i: int|
                0 <= i < aucs@.len() && (#[trigger] aucs@[i]) is Some ==> aucs@[i]->0.pairs
                    <= u128::MAX / 20 && aucs@[i]->0.twice_u <= 2 * aucs@[i]->0.pairs,
            i <= candidates@.len(),
            scored@ == selected(candidates@, aucs@, i as int),
        decreases candidates@.len() - i,
    {
        assert(aucs@[i as int] is Some ==> aucs@[i as int]->0.pairs <= u128::MAX / 20);
        if let Some(auc) = aucs[i] {
            if 10 * auc.twice_u >= 18 * auc.pairs {
                scored.push(ScoredCandidate { candidate: candidates[i], twice_u: auc.twice_u });
            }
        }
        i += 1;
    }
    let ranked: Vec<ScoredCandidate> = ranking::rank(&scored);
    let mut k: usize = 0;
    while k < ranked.len()
        invariant
            k <= ranked@.len(),
            r@.len() == k,
            forall|j: int| 0 <= j < k ==> #[trigger] r@[j] == ranked@[j].candidate,
        decreases ranked@.len() - k,
    {
        r.push(ranked[k].candidate);
        k += 1;
    }
    assert(r@ =~= adopted(candidates@, cm_samples, aucs@));
    r
}

/// The scores of those of the first `n` frames that have the given label.
pub open spec fn labelled(
    labels: Seq<SampleLabel>,
    scores: Seq<i64>,
    label: SampleLabel,
    n: int,
) -> Seq<i64>
    decreases n,
{
    if n <= 0 {
        Seq::empty()
    } else {
        let before = labelled(labels, scores, label, n - 1);
        if labels[n - 1] == label {
            before.push(scores[n - 1])
        } else {
            before
        }
    }
}

/// How many of the first `n` frames have the given label.
spec fn label_count(labels: Seq<SampleLabel>, label: SampleLabel, n: int) -> int
    decreases n,
{
    if n <= 0 {
        0
    } else {
        label_count(labels, label, n - 1) + (if labels[n - 1] == label {
            1int
        } else {
            0
        })
    }
}

proof fn lemma_labelled_len(
    labels: Seq<SampleLabel>,
    scores: Seq<i64>,
    label: SampleLabel,
    n: int,
)
    ensures
        labelled(labels, scores, label, n).len() == label_count(labels, label, n),
    decreases n,
{
    if n > 0 {
        lemma_labelled_len(labels, scores, label, n - 1);
    }
}

/// Divides the scores of frames into those of the program and those of commercials.
pub fn split_by_label(labels: &Vec<SampleLabel>, scores: &Vec<i64>) -> (r: (Vec<i64>, Vec<i64>))
    requires
        labels@.len() == scores@.len(),
    ensures
        r.0@ == labelled(labels@, scores@, SampleLabel::Program, labels@.len() as int),
        r.1@ == labelled(labels@, scores@, SampleLabel::Cm, labels@.len() as int),
        r.0@.len() + r.1@.len() == labels@.len(),
{
    let mut program: Vec<i64> = Vec::new();
    let mut cm: Vec<i64> = Vec::new();
    let mut i: usize = 0;
    while i < labels.len()
        invariant
            labels@.len() == scores@.len(),
            i <= labels@.len(),
            program@ == labelled(labels@, scores@, SampleLabel::Program, i as int),
            cm@ == labelled(labels@, scores@, SampleLabel::Cm, i as int),
            program@.len() + cm@.len() == i,
        decreases labels@.len() - i,
    {
        match labels[i] {
            SampleLabel::Program => {
                program.push(scores[i]);
            },
            SampleLabel::Cm => {
                cm.push(scores[i]);
            },
        }
        i += 1;
    }
    (program, cm)
}

/// What comparing the measures of the program with those of commercials gives.
pub open spec fn auc_of(program: Seq<i64>, cm: Seq<i64>) -> Option<Auc> {
    if program.len() == 0 || cm.len() == 0 {
        None
    } else {
        Some(
            Auc {
                twice_u: all_wins(program, cm, program.len() as int) as u128,
                pairs: (program.len() * cm.len()) as u128,
            },
        )
    }
}

/// The positions of a value and another that compare as `c`: all others for the first `n` values,
/// and the first `m` others for the value after these.
pub open spec fn pairs_that_compare(
    values: Seq<i64>,
    others: Seq<i64>,
    c: int,
    n: int,
    m: int,
) -> Set<(int, int)> {
    Set::new(
        |p: (int, int)|
            {
                &&& 0 <= p.0 <= n
                &&& 0 <= p.1 < (if p.0 < n {
                    others.len() as int
                } else {
                    m
                })
                &&& comparison(values[p.0], others[p.1]) == c
            },
    )
}

proof fn lemma_pairs_of_a_value(values: Seq<i64>, others: Seq<i64>, c: int, n: int, m: int)
    requires
        0 <= n < values.len(),
        0 <= m <= others.len(),
    ensures
        pairs_that_compare(values, others, c, n, m).finite(),
        pairs_that_compare(values, others, c, n, m).len() == pairs_that_compare(
            values,
            others,
            c,
            n,
            0,
        ).len() + value_pairs(values[n], others, c, m),
    decreases n, m,
{
    let here = pairs_that_compare(values, others, c, n, m);
    if m > 0 {
        lemma_pairs_of_a_value(values, others, c, n, m - 1);
        let before = pairs_that_compare(values, others, c, n, m - 1);
        if comparison(values[n], others[m - 1]) == c {
            assert(here =~= before.insert((n, m - 1)));
        } else {
            assert(here =~= before);
        }
    } else if n > 0 {
        lemma_pairs_of_a_value(values, others, c, n - 1, others.len() as int);
        assert(here =~= pairs_that_compare(values, others, c, n - 1, others.len() as int));
    } else {
        assert(here =~= Set::empty());
    }
}

/// How many of the first `m` others `a` compares with as `c`.
spec fn value_pairs(a: i64, others: Seq<i64>, c: int, m: int) -> int
    decreases m,
{
    if m <= 0 {
        0
    } else {
        value_pairs(a, others, c, m - 1) + (if comparison(a, others[m - 1]) == c {
            1int
        } else {
            0
        })
    }
}

proof fn lemma_wins_are_pairs(a: i64, others: Seq<i64>, m: int)
    ensures
        wins(a, others, m) == 2 * value_pairs(a, others, 2, m) + value_pairs(a, others, 1, m),
    decreases m,
{
    if m > 0 {
        lemma_wins_are_pairs(a, others, m - 1);
    }
}

/// The sum of all comparisons of the first `n` values is twice the number of the pairs in which
/// the value is greater, and once the number of those in which both are equal.
pub proof fn comparisons_count_pairs(values: Seq<i64>, others: Seq<i64>, n: int)
    requires
        0 <= n <= values.len(),
    ensures
        all_wins(values, others, n) == 2 * pairs_that_compare(values, others, 2, n, 0).len()
            + pairs_that_compare(values, others, 1, n, 0).len(),
    decreases n,
{
    let m = others.len() as int;
    if n > 0 {
        comparisons_count_pairs(values, others, n - 1);
        lemma_wins_are_pairs(values[n - 1], others, m);
        lemma_pairs_of_a_value(values, others, 2, n - 1, m);
        lemma_pairs_of_a_value(values, others, 1, n - 1, m);
        assert(pairs_that_compare(values, others, 2, n, 0) =~= pairs_that_compare(
            values,
            others,
            2,
            n - 1,
            m,
        ));
        assert(pairs_that_compare(values, others, 1, n, 0) =~= pairs_that_compare(
            values,
            others,
            1,
            n - 1,
            m,
        ));
    } else {
        assert(pairs_that_compare(values, others, 2, n, 0) =~= Set::empty());
        assert(pairs_that_compare(values, others, 1, n, 0) =~= Set::empty());
    }
}

proof fn lemma_column(values: Seq<i64>, others: Seq<i64>, m: int, n: int)
    requires
        0 <= n <= values.len(),
        0 <= m < others.len(),
    ensures
        wins(others[m], values, n) + column_wins(values, others[m], n) == 2 * n,
    decreases n,
{
    if n > 0 {
        lemma_column(values, others, m, n - 1);
    }
}

/// The sum of the comparisons of the first `n` of `values` with `b`.
spec fn column_wins(values: Seq<i64>, b: i64, n: int) -> int
    decreases n,
{
    if n <= 0 {
        0
    } else {
        column_wins(values, b, n - 1) + comparison(values[n - 1], b)
    }
}

/// The sum of the comparisons of the first `n` of `values` with the first `m` of `others`.
spec fn part_wins(values: Seq<i64>, others: Seq<i64>, n: int, m: int) -> int
    decreases n,
{
    if n <= 0 {
        0
    } else {
        part_wins(values, others, n - 1, m) + wins(values[n - 1], others, m)
    }
}

proof fn lemma_part_wins_column(values: Seq<i64>, others: Seq<i64>, n: int, m: int)
    requires
        0 <= n <= values.len(),
        0 < m <= others.len(),
    ensures
        part_wins(values, others, n, m) == part_wins(values, others, n, m - 1) + column_wins(
            values,
            others[m - 1],
            n,
        ),
    decreases n,
{
    if n > 0 {
        lemma_part_wins_column(values, others, n - 1, m);
    }
}

proof fn lemma_part_wins_row(values: Seq<i64>, others: Seq<i64>, n: int)
    ensures
        part_wins(values, others, n, 0) == 0,
        part_wins(values, others, n, others.len() as int) == all_wins(values, others, n),
    decreases n,
{
    if n > 0 {
        lemma_part_wins_row(values, others, n - 1);
    }
}

proof fn lemma_swapped_wins(values: Seq<i64>, others: Seq<i64>, m: int)
    requires
        0 <= m <= others.len(),
    ensures
        part_wins(values, others, values.len() as int, m) + all_wins(others, values, m) == 2 * (
        values.len() * m),
    decreases m,
{
    let n = values.len() as int;
    if m > 0 {
        lemma_swapped_wins(values, others, m - 1);
        lemma_part_wins_column(values, others, n, m);
        lemma_column(values, others, m - 1, n);
        assert(n * m == n * (m - 1) + n) by (nonlinear_arith);
    } else {
        lemma_part_wins_row(values, others, n);
        assert(n * m == 0) by (nonlinear_arith)
            requires
                m == 0,
        ;
    }
}

/// The likelihood lies between 0 and 1, and comparing commercials with the program instead gives
/// its complement: what is missing to 1.
pub proof fn swapped_groups_give_the_complement(program: Seq<i64>, cm: Seq<i64>)
    ensures
        0 <= all_wins(program, cm, program.len() as int) <= 2 * (program.len() * cm.len()),
        all_wins(program, cm, program.len() as int) + all_wins(cm, program, cm.len() as int) == 2
            * (program.len() * cm.len()),
        program.len() > 0 && cm.len() > 0 && 2 * (program.len() * cm.len()) <= u128::MAX ==> {
            &&& auc_of(program, cm) is Some
            &&& auc_of(cm, program) is Some
            &&& auc_of(program, cm)->0.pairs == program.len() * cm.len()
            &&& auc_of(cm, program)->0.pairs == auc_of(program, cm)->0.pairs
            &&& auc_of(program, cm)->0.twice_u + auc_of(cm, program)->0.twice_u == 2 * auc_of(
                program,
                cm,
            )->0.pairs
        },
{
    lemma_all_wins_bound(program, cm, program.len() as int);
    lemma_all_wins_bound(cm, program, cm.len() as int);
    lemma_part_wins_row(program, cm, program.len() as int);
    lemma_swapped_wins(program, cm, cm.len() as int);
    assert(cm.len() * program.len() == program.len() * cm.len()) by (nonlinear_arith);
}

/// The measure of a candidate from the scores of the frames. A candidate without scores has none.
pub open spec fn measure_of(labels: Seq<SampleLabel>, scores: Option<Vec<i64>>) -> Option<Auc> {
    match scores {
        Some(list) => auc_of(
            labelled(labels, list@, SampleLabel::Program, labels.len() as int),
            labelled(labels, list@, SampleLabel::Cm, labels.len() as int),
        ),
        None => None,
    }
}

/// Measures all candidates by the scores of the frames.
pub fn measure_candidates(labels: &Vec<SampleLabel>, scores: &Vec<Option<Vec<i64>>>) -> (aucs: Vec<
    Option<Auc>,
>)
    requires
        labels@.len() <= MAX_FRAMES,
        forall|i: int|
            0 <= i < scores@.len() && (#[trigger] scores@[i]) is Some ==> scores@[i]->0@.len()
                == labels@.len(),
    ensures
        aucs@.len() == scores@.len(),
        forall|i: int|
            0 <= i < aucs@.len() ==> #[trigger] aucs@[i] == measure_of(labels@, scores@[i]),
        are_comparable(aucs@),
        forall|i: int|
            0 <= i < aucs@.len() && (#[trigger] aucs@[i]) is Some ==> aucs@[i]->0.pairs
                <= u128::MAX / 20 && aucs@[i]->0.twice_u <= 2 * aucs@[i]->0.pairs,
{
    let ghost pairs = (label_count(labels@, SampleLabel::Program, labels@.len() as int)
        * label_count(labels@, SampleLabel::Cm, labels@.len() as int)) as u128;
    let mut aucs: Vec<Option<Auc>> = Vec::new();
    let mut i: usize = 0;
    while i < scores.len()
        invariant
            pairs == (label_count(labels@, SampleLabel::Program, labels@.len() as int)
                * label_count(labels@, SampleLabel::Cm, labels@.len() as int)) as u128,
            labels@.len() <= MAX_FRAMES,
            forall|k: int|
                0 <= k < scores@.len() && (#[trigger] scores@[k]) is Some ==> scores@[k]->0@.len()
                    == labels@.len(),
            i <= scores@.len(),
            aucs@.len() == i,
            forall|k: int|
                0 <= k < i ==> #[trigger] aucs@[k] == measure_of(labels@, scores@[k]),
            forall|k: int|
                0 <= k < i && (#[trigger] aucs@[k]) is Some ==> aucs@[k]->0.pairs == pairs,
            forall|k: int|
                0 <= k < i && (#[trigger] aucs@[k]) is Some ==> aucs@[k]->0.pairs <= u128::MAX / 20
                    && aucs@[k]->0.twice_u <= 2 * aucs@[k]->0.pairs,
        decreases scores@.len() - i,
    {
        assert(scores@[i as int] is Some ==> scores@[i as int]->0@.len() == labels@.len());
        let auc: Option<Auc> = match &scores[i] {
            Some(list) => {
                let (program, cm) = split_by_label(labels, list);
                proof {
                    lemma_labelled_len(labels@, list@, SampleLabel::Program, labels@.len() as int);
                    lemma_labelled_len(labels@, list@, SampleLabel::Cm, labels@.len() as int);
                }
                assert(program@.len() * cm@.len() <= MAX_FRAMES * MAX_FRAMES) by (nonlinear_arith)
                    requires
                        0 <= program@.len() <= MAX_FRAMES,
                        0 <= cm@.len() <= MAX_FRAMES,
                ;
                auc_from_scores(&program, &cm)
            },
            None => None,
        };
        assert(auc == measure_of(labels@, scores@[i as int]));
        aucs.push(auc);
        i += 1;
    }
    aucs
}

/// The candidates to be tried, by the labels of the frames and the scores that the frames give to
/// each candidate. Where there are too few frames of commercials the scores are not looked at.
pub fn select_by_scores(
    candidates: &Vec<Candidate>,
    labels: &Vec<SampleLabel>,
    scores: &Vec<Option<Vec<i64>>>,
) -> (r: Vec<Candidate>)
    requires
        candidates@.len() > 0,
        labels@.len() <= MAX_FRAMES,
        cm_count(labels@, labels@.len() as int) >= MIN_CM_SAMPLES_FOR_AUC ==> {
            &&& scores@.len() == candidates@.len()
            &&& forall|i: int|
                0 <= i < scores@.len() && (#[trigger] scores@[i]) is Some ==> scores@[i]->0@.len()
                    == labels@.len()
        },
    ensures
        r@ == adopted(
            candidates@,
            cm_count(labels@, labels@.len() as int) as u64,
            Seq::new(scores@.len(), |i: int| measure_of(labels@, scores@[i])),
        ),
{
    let cm_samples: u64 = count_cm(labels);
    let ghost measures = Seq::new(scores@.len(), |i: int| measure_of(labels@, scores@[i]));
    if !can_measure(cm_samples) {
        let none: Vec<Option<Auc>> = Vec::new();
        return select_by_auc(candidates, cm_samples, &none);
    }
    let aucs: Vec<Option<Auc>> = measure_candidates(labels, scores);
    assert(aucs@ =~= measures);
    select_by_auc(candidates, cm_samples, &aucs)
}

proof fn lemma_nothing_selected(candidates: Seq<Candidate>, aucs: Seq<Option<Auc>>, n: int)
    requires
        0 <= n <= aucs.len(),
        forall|i: int|
            0 <= i < aucs.len() && (#[trigger] aucs[i]) is Some ==> !aucs[i]->0.is_selected(),
    ensures
        selected(candidates, aucs, n).len() == 0,
    decreases n,
{
    if n > 0 {
        lemma_nothing_selected(candidates, aucs, n - 1);
        if aucs[n - 1] is Some {
            assert(!aucs[n - 1]->0.is_selected());
        }
    }
}

/// Where candidates can be measured and none of the measures is high enough, none is tried: not
/// even the strongest.
pub proof fn no_good_measure_no_candidate(
    candidates: Seq<Candidate>,
    cm_samples: u64,
    aucs: Seq<Option<Auc>>,
)
    requires
        cm_samples >= MIN_CM_SAMPLES_FOR_AUC,
        aucs.len() == candidates.len(),
        forall|i: int|
            0 <= i < aucs.len() && (#[trigger] aucs[i]) is Some ==> !aucs[i]->0.is_selected(),
    ensures
        adopted(candidates, cm_samples, aucs).len() == 0,
{
    lemma_nothing_selected(candidates, aucs, candidates.len() as int);
    let none = selected(candidates, aucs, candidates.len() as int);
    ranking::ranking_is_in_order(none, 0);
}

} // verus!
