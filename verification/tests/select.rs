use tachikaze::logo::bbox::Bbox;
use tachikaze::logo::blocks::{block_of, valid_blocks, BlockAccumulator};
use tachikaze::logo::estimate::{
    build_candidates, check_measured, check_summed, Candidate, EffectMaps, FrameSupplyError,
};
use tachikaze::logo::frames::{LogoRect, VideoSize};
use tachikaze::logo::ranking::rank;
use tachikaze::logo::select::{
    auc_from_scores, can_measure, candidate_score_region, count_cm, measure_candidates,
    select_by_auc, select_by_scores, sign_agreement, split_by_label, Auc, SampleLabel,
    ScoreRegion, ScoredCandidate,
};

/// A number in the order of the floating-point numbers, the same for both zeros.
fn score_key(v: f32) -> i64 {
    if v >= 0.0 {
        v.abs().to_bits() as i64
    } else {
        -(v.abs().to_bits() as i64)
    }
}

fn auc(program: &[f32], cm: &[f32]) -> f64 {
    let program: Vec<i64> = program.iter().map(|&v| score_key(v)).collect();
    let cm: Vec<i64> = cm.iter().map(|&v| score_key(v)).collect();
    match auc_from_scores(&program, &cm) {
        Some(auc) => auc.twice_u as f64 / 2.0 / auc.pairs as f64,
        None => f64::NAN,
    }
}

#[test]
fn auc_from_scores_is_one_for_perfect_separation() {
    let program = vec![1.0, 0.9, 0.8];
    let cm = vec![0.1, 0.2, 0.3];
    assert_eq!(auc(&program, &cm), 1.0);
}

#[test]
fn auc_from_scores_is_zero_for_perfect_reversal() {
    let program = vec![0.1, 0.2, 0.3];
    let cm = vec![1.0, 0.9, 0.8];
    assert_eq!(auc(&program, &cm), 0.0);
}

#[test]
fn auc_from_scores_is_half_for_identical_tied_scores() {
    let program = vec![0.5; 4];
    let cm = vec![0.5; 6];
    assert_eq!(auc(&program, &cm), 0.5);
}

#[test]
fn auc_from_scores_is_nan_when_a_group_is_empty() {
    assert!(auc(&[], &[1.0]).is_nan());
    assert!(auc(&[1.0], &[]).is_nan());
}

#[test]
fn frames_spread_evenly_over_the_blocks() {
    assert_eq!(block_of(0, 160), 0);
    assert_eq!(block_of(9, 160), 0);
    assert_eq!(block_of(10, 160), 1);
    assert_eq!(block_of(159, 160), 15);
    assert_eq!(block_of(500, 160), 15);
    assert_eq!(block_of(3, 0), 0);
}

#[test]
fn too_few_filled_blocks_are_not_enough() {
    let mut counts = vec![4u64; 16];
    for count in counts.iter_mut().take(7) {
        *count = 5;
    }
    assert_eq!(valid_blocks(&counts), None);
    counts[15] = 6;
    assert_eq!(valid_blocks(&counts), Some(vec![0, 1, 2, 3, 4, 5, 6, 15]));
}

#[test]
fn block_sums_hold_the_differences_to_the_right_and_below() {
    let (w, h) = (10usize, 10usize);
    let mut acc = BlockAccumulator::new(w, h, 16);
    let mut frame = vec![50u8; w * h];
    frame[4 * w + 5] = 70;
    frame[5 * w + 4] = 20;
    assert!(acc.add_frame(&frame).is_none());
    let closed = acc.add_frame(&frame).expect("the second frame begins the second block");
    assert_eq!((closed.block, closed.count), (0, 1));
    assert_eq!(closed.sum_h[4 * w + 4], 20);
    assert_eq!(closed.sum_v[4 * w + 4], -30);
    assert_eq!(closed.sum_h[3 * w + 4], 0);
    let last = acc.finish().expect("the last block ends");
    assert_eq!((last.block, last.count), (1, 1));
    assert!(acc.finish().is_none());
    assert!(acc.finish().is_none());
    assert_eq!(acc.frames_seen(), 2);
    assert_eq!(acc.luma_sum()[4 * w + 4], 100);
    assert_eq!(acc.luma_sum2()[4 * w + 4], 5000);
    assert_eq!(acc.luma_sum()[0], 0);
}

#[test]
fn four_fifths_of_the_signs_have_to_agree() {
    assert!(sign_agreement(&vec![1, 1, 1, 1, -1], 1));
    assert!(!sign_agreement(&vec![1, 1, 1, 0, -1], 1));
    assert!(sign_agreement(&vec![-1; 3], -1));
    assert!(!sign_agreement(&vec![0; 3], 0));
    assert!(!sign_agreement(&vec![], 1));
}

#[test]
fn score_region_keeps_a_border() {
    let b = Bbox { x_min: 5, y_min: 40, x_max: 30, y_max: 60 };
    assert_eq!(
        candidate_score_region(b, 100, 64),
        Some(ScoreRegion { x_min: 4, y_min: 32, x_max: 38, y_max: 59 })
    );
    assert_eq!(candidate_score_region(b, 9, 64), None);
}

fn candidate(x: u32, max_effect: f32) -> Candidate {
    let rect = LogoRect { x, y: 10, w: 20, h: 10 };
    Candidate {
        estimated_rect: rect,
        raw_bbox: rect,
        max_effect: max_effect.to_bits(),
        significant_pixels: 30,
        rung_threshold: 1.5f32.to_bits(),
    }
}

#[test]
fn candidates_are_adopted_from_nine_tenths_on_and_best_first() {
    let candidates = vec![candidate(1, 9.0), candidate(2, 8.0), candidate(3, 7.0)];
    let aucs = vec![
        Some(Auc { twice_u: 180, pairs: 100 }),
        Some(Auc { twice_u: 179, pairs: 100 }),
        Some(Auc { twice_u: 190, pairs: 100 }),
    ];
    assert!(can_measure(20));
    assert!(!can_measure(19));
    assert_eq!(
        select_by_auc(&candidates, 20, &aucs),
        vec![candidate(3, 7.0), candidate(1, 9.0)]
    );
    assert_eq!(select_by_auc(&candidates, 19, &Vec::new()), vec![candidate(1, 9.0)]);
    assert_eq!(select_by_auc(&candidates, 20, &vec![None, None, None]), Vec::new());
}

#[test]
fn equal_measures_are_ranked_by_effect_and_place() {
    let scored = |x, effect| ScoredCandidate { candidate: candidate(x, effect), twice_u: 190 };
    let ranked = rank(&vec![scored(5, 1.0), scored(3, 1.0), scored(9, 2.0)]);
    assert_eq!(ranked, vec![scored(9, 2.0), scored(3, 1.0), scored(5, 1.0)]);
}

#[test]
fn commercials_are_counted() {
    let labels = vec![SampleLabel::Program, SampleLabel::Cm, SampleLabel::Cm];
    assert_eq!(count_cm(&labels), 2);
}

#[test]
fn frame_supply_has_to_stay_the_same() {
    assert_eq!(check_summed(160, 160), Ok(()));
    assert_eq!(
        check_summed(160, 100),
        Err(FrameSupplyError::Summing { total: 160, actual: 100 })
    );
    assert_eq!(check_measured(160, 160), Ok(()));
    let error = check_measured(160, 7).expect_err("7 frames are not 160");
    assert_eq!(error, FrameSupplyError::Measuring { total: 160, actual: 7 });
    assert!(error.message().contains("3回目"));
}

#[test]
fn near_duplicates_from_two_rungs_count_once() {
    let (w, h) = (100usize, 100usize);
    let mut maps = EffectMaps {
        effect: vec![0u32; w * h],
        sign_agrees: vec![true; w * h],
        valid: vec![true; w * h],
    };
    for y in 30..42 {
        for x in 20..38 {
            maps.effect[y * w + x] = 10.0f32.to_bits();
        }
    }
    let ladder = vec![1.5f32.to_bits(), 3.0f32.to_bits(), 12.0f32.to_bits()];
    let video = VideoSize { width: 100, height: 100 };
    let candidates = build_candidates(w, h, video, &maps, &ladder);
    assert_eq!(candidates.len(), 1);
    assert_eq!(candidates[0].raw_bbox, LogoRect { x: 20, y: 30, w: 18, h: 12 });
    assert_eq!(candidates[0].estimated_rect, LogoRect { x: 12, y: 22, w: 34, h: 28 });
    assert_eq!(candidates[0].max_effect, 10.0f32.to_bits());
    assert_eq!(candidates[0].rung_threshold, 1.5f32.to_bits());
    assert_eq!(candidates[0].significant_pixels, 18 * 12);
}

#[test]
fn scores_are_divided_by_label_before_they_are_compared() {
    let (p, c) = (SampleLabel::Program, SampleLabel::Cm);
    let labels = vec![p, c, p, c];
    assert_eq!(
        split_by_label(&labels, &vec![1, 2, 3, 4]),
        (vec![1, 3], vec![2, 4])
    );
    let aucs = measure_candidates(&labels, &vec![Some(vec![5, 1, 6, 2]), None]);
    assert_eq!(aucs, vec![Some(Auc { twice_u: 8, pairs: 4 }), None]);
}

#[test]
fn candidate_that_tells_the_program_apart_is_adopted() {
    let candidates = vec![candidate(1, 9.0), candidate(2, 8.0)];
    let mut labels = vec![SampleLabel::Program; 30];
    labels.extend(vec![SampleLabel::Cm; 20]);
    let telling: Vec<i64> = (0..50).map(|i| if i < 30 { 7 } else { 3 }).collect();
    let scores = vec![Some(vec![5; 50]), Some(telling)];
    assert_eq!(select_by_scores(&candidates, &labels, &scores), vec![candidate(2, 8.0)]);
    labels.truncate(49);
    assert_eq!(
        select_by_scores(&candidates, &labels, &Vec::new()),
        vec![candidate(1, 9.0)]
    );
}

#[test]
fn swapping_the_groups_gives_the_complement() {
    let program = vec![3, 1, 4, 1, 5];
    let cm = vec![2, 1, 4];
    let there = auc_from_scores(&program, &cm).expect("both groups have scores");
    let back = auc_from_scores(&cm, &program).expect("both groups have scores");
    assert_eq!((there.twice_u, there.pairs), (17, 15));
    assert_eq!((back.twice_u, back.pairs), (13, 15));
}

#[test]
fn all_measures_are_by_the_same_pairs() {
    let labels =
        vec![SampleLabel::Program, SampleLabel::Cm, SampleLabel::Program, SampleLabel::Program];
    let aucs = measure_candidates(
        &labels,
        &vec![Some(vec![9, 1, 9, 9]), None, Some(vec![0, 1, 1, 2])],
    );
    assert_eq!(
        aucs,
        vec![
            Some(Auc { twice_u: 6, pairs: 3 }),
            None,
            Some(Auc { twice_u: 3, pairs: 3 })
        ]
    );
}
