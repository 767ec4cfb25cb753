use std::collections::HashSet;

use tachikaze::logo::bbox::{bbox_from_rect, Bbox};
use tachikaze::logo::blocks::{
    block_of, valid_blocks, BlockAccumulator, ClosedBlock, NUM_BLOCKS,
};
use tachikaze::logo::effects::{build_effect_maps, DirectionEffect, PixelEffect};
use tachikaze::logo::estimate::{
    build_candidates, check_measured, check_summed, threshold_ladder, Candidate, RECT_MARGIN,
};
use tachikaze::logo::frames::{LogoRect, VideoSize};
use tachikaze::logo::scan::round_rect_to_even;
use tachikaze::logo::select::{
    can_measure, candidate_score_region, count_cm, select_by_scores, SampleLabel, ScoreRegion,
};

const FROZEN_STD_THRESHOLD: f64 = 1.0;
const FROZEN_MEAN_THRESHOLD: f64 = 24.0;

type FrameCallback<'a> = dyn FnMut(&[u8]) -> Result<(), String> + 'a;

/// The mean differences of the frames of each block.
struct BlockMeans {
    mean_h: Vec<Vec<f32>>,
    mean_v: Vec<Vec<f32>>,
    count: Vec<u64>,
}

impl BlockMeans {
    fn new(wh: usize) -> Self {
        BlockMeans {
            mean_h: vec![vec![0.0; wh]; NUM_BLOCKS],
            mean_v: vec![vec![0.0; wh]; NUM_BLOCKS],
            count: vec![0; NUM_BLOCKS],
        }
    }

    fn store(&mut self, closed: &ClosedBlock) {
        self.count[closed.block] = closed.count;
        if closed.count > 0 {
            let n = closed.count as f64;
            let mean = |sums: &[i64]| sums.iter().map(|&s| (s as f64 / n) as f32).collect();
            self.mean_h[closed.block] = mean(&closed.sum_h);
            self.mean_v[closed.block] = mean(&closed.sum_v);
        }
    }
}

struct RawEstimate {
    w: usize,
    h: usize,
    total: u64,
    means: BlockMeans,
    candidates: Vec<Candidate>,
}

fn median(values: &mut [f32]) -> f32 {
    values.sort_by(|a, b| a.total_cmp(b));
    let n = values.len();
    if n % 2 == 1 {
        values[n / 2]
    } else {
        (values[n / 2 - 1] + values[n / 2]) / 2.0
    }
}

fn sign_of(v: f32) -> i8 {
    if v > 0.0 {
        1
    } else if v < 0.0 {
        -1
    } else {
        0
    }
}

fn direction(values: &mut [f32]) -> DirectionEffect {
    let med = median(values);
    DirectionEffect {
        magnitude: med.abs().to_bits(),
        median_sign: sign_of(med),
        signs: values.iter().map(|&v| sign_of(v)).collect(),
    }
}

fn measure(
    idx: usize,
    blocks: &[usize],
    acc: &BlockAccumulator,
    means: &BlockMeans,
) -> Option<PixelEffect> {
    let n = acc.frames_seen() as f64;
    let mean = acc.luma_sum()[idx] as f64 / n;
    let var = (acc.luma_sum2()[idx] as f64 / n - mean * mean).max(0.0);
    if var.sqrt() < FROZEN_STD_THRESHOLD && mean < FROZEN_MEAN_THRESHOLD {
        return None;
    }
    let mut across: Vec<f32> = blocks.iter().map(|&b| means.mean_h[b][idx]).collect();
    let mut down: Vec<f32> = blocks.iter().map(|&b| means.mean_v[b][idx]).collect();
    Some(PixelEffect { across: direction(&mut across), down: direction(&mut down) })
}

fn estimate_raw(
    size: VideoSize,
    stream_frames: &mut impl FnMut(&mut FrameCallback<'_>) -> Result<u64, String>,
) -> Result<RawEstimate, String> {
    let (w, h) = (size.width as usize, size.height as usize);
    let total = stream_frames(&mut |_frame: &[u8]| Ok(()))?;
    let mut means = BlockMeans::new(w * h);
    let mut acc = BlockAccumulator::new(w, h, total);
    let actual = stream_frames(&mut |frame: &[u8]| {
        if let Some(closed) = acc.add_frame(frame) {
            means.store(&closed);
        }
        Ok(())
    })?;
    check_summed(total, actual).map_err(|e| e.message())?;
    if let Some(closed) = acc.finish() {
        means.store(&closed);
    }
    let candidates = match valid_blocks(&means.count) {
        Some(blocks) => {
            let maps = build_effect_maps(w, h, |idx| measure(idx, &blocks, &acc, &means));
            build_candidates(w, h, size, &maps, &threshold_ladder())
        }
        None => Vec::new(),
    };
    Ok(RawEstimate { w, h, total, means, candidates })
}

fn estimate_raw_candidates(
    size: VideoSize,
    mut stream_frames: impl FnMut(&mut FrameCallback<'_>) -> Result<u64, String>,
) -> Result<Vec<Candidate>, String> {
    Ok(estimate_raw(size, &mut stream_frames)?.candidates)
}

struct Template {
    region: ScoreRegion,
    template_h: Vec<f32>,
    template_v: Vec<f32>,
    norm: f64,
}

fn build_template(raw: &RawEstimate, bbox: Bbox) -> Option<Template> {
    let region = candidate_score_region(bbox, raw.w, raw.h)?;
    let total: u64 = raw.means.count.iter().sum();
    let mut template_h = Vec::new();
    let mut template_v = Vec::new();
    for y in region.y_min..=region.y_max {
        for x in region.x_min..=region.x_max {
            let idx = y * raw.w + x;
            let mut sum_h = 0.0f64;
            let mut sum_v = 0.0f64;
            for b in 0..NUM_BLOCKS {
                let count = raw.means.count[b] as f64;
                sum_h += raw.means.mean_h[b][idx] as f64 * count;
                sum_v += raw.means.mean_v[b][idx] as f64 * count;
            }
            template_h.push((sum_h / total as f64) as f32);
            template_v.push((sum_v / total as f64) as f32);
        }
    }
    let norm_sq: f64 = template_h
        .iter()
        .zip(template_v.iter())
        .map(|(&th, &tv)| (th as f64).powi(2) + (tv as f64).powi(2))
        .sum();
    Some(Template { region, template_h, template_v, norm: norm_sq.sqrt() })
}

fn compute_score(w: usize, template: &Template, frame: &[u8]) -> f32 {
    let region = &template.region;
    let mut dot = 0.0f64;
    let mut sample_norm_sq = 0.0f64;
    let mut ti = 0;
    for y in region.y_min..=region.y_max {
        for x in region.x_min..=region.x_max {
            let idx = y * w + x;
            let v = frame[idx] as f64;
            let dh = frame[idx + 1] as f64 - v;
            let dv = frame[idx + w] as f64 - v;
            dot += template.template_h[ti] as f64 * dh + template.template_v[ti] as f64 * dv;
            sample_norm_sq += dh * dh + dv * dv;
            ti += 1;
        }
    }
    if template.norm > 0.0 && sample_norm_sq > 0.0 {
        (dot / (template.norm * sample_norm_sq.sqrt())) as f32
    } else {
        0.0
    }
}

/// A number in the order of the floating-point numbers, the same for both zeros.
fn score_key(v: f32) -> i64 {
    if v >= 0.0 {
        v.abs().to_bits() as i64
    } else {
        -(v.abs().to_bits() as i64)
    }
}

fn estimate_candidates(
    size: VideoSize,
    mut stream_frames: impl FnMut(&mut FrameCallback<'_>) -> Result<u64, String>,
    classify_sample: impl Fn(u64) -> SampleLabel,
) -> Result<Vec<Candidate>, String> {
    let raw = estimate_raw(size, &mut stream_frames)?;
    if raw.candidates.is_empty() {
        return Ok(raw.candidates);
    }
    let labels: Vec<SampleLabel> = (0..raw.total).map(&classify_sample).collect();
    let mut scores: Vec<Option<Vec<i64>>> = Vec::new();
    if can_measure(count_cm(&labels)) {
        let templates: Vec<Option<Template>> = raw
            .candidates
            .iter()
            .map(|c| build_template(&raw, bbox_from_rect(c.raw_bbox)))
            .collect();
        scores = templates.iter().map(|t| t.as_ref().map(|_| Vec::new())).collect();
        let actual = stream_frames(&mut |frame: &[u8]| {
            for (template, list) in templates.iter().zip(scores.iter_mut()) {
                if let (Some(template), Some(list)) = (template, list) {
                    list.push(score_key(compute_score(raw.w, template, frame)));
                }
            }
            Ok(())
        })?;
        check_measured(raw.total, actual).map_err(|e| e.message())?;
    }
    Ok(select_by_scores(&raw.candidates, &labels, &scores))
}

fn max_effect(candidate: &Candidate) -> f32 {
    f32::from_bits(candidate.max_effect)
}

fn all_program(_serial: u64) -> SampleLabel {
    SampleLabel::Program
}

fn every_fifth_is_cm(i: u64) -> SampleLabel {
    if i % 5 == 4 {
        SampleLabel::Cm
    } else {
        SampleLabel::Program
    }
}

fn pixel_noise(x: usize, y: usize, i: usize) -> f64 {
    let mut h = (x as u64).wrapping_mul(0x9E37_79B9_7F4A_7C15);
    h ^= (y as u64).wrapping_mul(0xBF58_476D_1CE4_E5B9);
    h ^= (i as u64).wrapping_mul(0x94D0_49BB_1331_11EB);
    h ^= h >> 33;
    h = h.wrapping_mul(0xFF51_AFD7_ED55_8CCD);
    h ^= h >> 33;
    ((h % 41) as i64 - 20) as f64
}

fn clamp_u8(v: f64) -> u8 {
    v.round().clamp(0.0, 255.0) as u8
}

type Region<'a> = (usize, usize, usize, usize, &'a dyn Fn(usize) -> f64);

fn make_frames(
    video_w: usize,
    video_h: usize,
    total: usize,
    bg_at: impl Fn(usize) -> f64,
    regions: &[Region<'_>],
) -> Vec<Vec<u8>> {
    (0..total)
        .map(|i| {
            let bg = bg_at(i);
            let mut frame = vec![clamp_u8(bg); video_w * video_h];
            for &(rx, ry, rw, rh, offset_at) in regions {
                let off = offset_at(i);
                for y in ry..ry + rh {
                    for x in rx..rx + rw {
                        frame[y * video_w + x] = clamp_u8(bg + off);
                    }
                }
            }
            frame
        })
        .collect()
}

fn varying_bg(i: usize) -> f64 {
    [50.0, 100.0, 150.0, 200.0][i % 4]
}

fn frames_source(
    frames: &[Vec<u8>],
) -> impl FnMut(&mut FrameCallback<'_>) -> Result<u64, String> + '_ {
    move |on_frame| {
        for f in frames {
            on_frame(f)?;
        }
        Ok(frames.len() as u64)
    }
}

fn expected_raw_bbox_for_inside_rect(x: u32, y: u32, w: u32, h: u32) -> LogoRect {
    LogoRect {
        x: x - 1,
        y: y - 1,
        w: w + 1,
        h: h + 1,
    }
}

fn expand_and_round(bbox: LogoRect, video_size: VideoSize) -> LogoRect {
    let expanded_x = bbox.x.saturating_sub(RECT_MARGIN);
    let expanded_y = bbox.y.saturating_sub(RECT_MARGIN);
    let expanded_right = (bbox.x + bbox.w + RECT_MARGIN).min(video_size.width);
    let expanded_bottom = (bbox.y + bbox.h + RECT_MARGIN).min(video_size.height);
    let expanded = LogoRect {
        x: expanded_x,
        y: expanded_y,
        w: expanded_right.saturating_sub(expanded_x),
        h: expanded_bottom.saturating_sub(expanded_y),
    };
    round_rect_to_even(expanded).0
}

const VIDEO_W: usize = 300;

const VIDEO_H: usize = 200;

const TOTAL: usize = 160;

fn video_size() -> VideoSize {
    VideoSize {
        width: VIDEO_W as u32,
        height: VIDEO_H as u32,
    }
}

#[test]
fn recovers_known_rect_as_top_candidate() {
    let (x, y, w, h) = (40usize, 40usize, 20usize, 16usize);
    let offset = |_i: usize| 20.0;
    let frames = make_frames(
        VIDEO_W,
        VIDEO_H,
        TOTAL,
        varying_bg,
        &[(x, y, w, h, &offset)],
    );

    let candidates = estimate_raw_candidates(video_size(), frames_source(&frames))
        .expect("supply関数はエラーを返さない");

    assert!(!candidates.is_empty(), "矩形が復元されるはず");
    let top = &candidates[0];

    let expected_raw =
        expected_raw_bbox_for_inside_rect(x as u32, y as u32, w as u32, h as u32);
    assert_eq!(top.raw_bbox, expected_raw, "raw_bbox={:?}", top.raw_bbox);

    let expected_rect = expand_and_round(expected_raw, video_size());
    assert_eq!(top.estimated_rect, expected_rect);

    for c in &candidates {
        assert!(top.max_effect >= c.max_effect);
    }
}

fn moving_stripe_frame(video_w: usize, video_h: usize, frame_index: usize) -> Vec<u8> {
    (0..video_h)
        .flat_map(|y| {
            (0..video_w).map(move |x| {
                let phase = (x + 3 * y + 7 * frame_index) % 64;
                if phase < 32 {
                    40u8
                } else {
                    200u8
                }
            })
        })
        .collect()
}

#[test]
fn no_step_yields_empty_candidates() {
    let frames: Vec<Vec<u8>> = (0..TOTAL)
        .map(|i| moving_stripe_frame(VIDEO_W, VIDEO_H, i))
        .collect();
    let candidates = estimate_raw_candidates(video_size(), frames_source(&frames))
        .expect("エラーにならない");
    assert!(candidates.is_empty(), "candidates={candidates:?}");
}

#[test]
fn oversized_step_yields_empty_candidates() {
    let (x, y, w, h) = (20usize, 20usize, 100usize, 15usize);
    let offset = |_i: usize| 50.0;
    let frames = make_frames(
        VIDEO_W,
        VIDEO_H,
        TOTAL,
        varying_bg,
        &[(x, y, w, h, &offset)],
    );

    let candidates = estimate_raw_candidates(video_size(), frames_source(&frames))
        .expect("エラーにならない");
    assert!(candidates.is_empty(), "candidates={candidates:?}");
}

#[test]
fn sparse_dotted_component_below_significant_pixel_minimum_is_rejected() {
    let dots: [(usize, usize); 4] = [(40, 40), (49, 40), (40, 49), (49, 49)];
    let offset = |_i: usize| 30.0;
    let regions: Vec<Region<'_>> = dots
        .iter()
        .map(|&(x, y)| (x, y, 1usize, 1usize, &offset as &dyn Fn(usize) -> f64))
        .collect();
    let frames = make_frames(VIDEO_W, VIDEO_H, TOTAL, varying_bg, &regions);

    let candidates = estimate_raw_candidates(video_size(), frames_source(&frames))
        .expect("エラーにならない");
    assert!(
        candidates.is_empty(),
        "有意画素数が下限未満の点状成分が候補に出ている: {candidates:?}"
    );
}

#[test]
fn nearby_blocks_within_merge_gap_are_merged() {
    let (x1, y1, w1, h1) = (40usize, 40usize, 10usize, 10usize);
    let (x2, y2, w2, h2) = (x1 + w1 + 10, 40usize, 10usize, 10usize);
    let offset = |_i: usize| 20.0;
    let frames = make_frames(
        VIDEO_W,
        VIDEO_H,
        TOTAL,
        varying_bg,
        &[(x1, y1, w1, h1, &offset), (x2, y2, w2, h2, &offset)],
    );

    let candidates = estimate_raw_candidates(video_size(), frames_source(&frames))
        .expect("エラーにならない");

    assert_eq!(
        candidates.len(),
        1,
        "1つの矩形に併合されるはず: {candidates:?}"
    );
    let merged = &candidates[0];
    let bbox1 = expected_raw_bbox_for_inside_rect(x1 as u32, y1 as u32, w1 as u32, h1 as u32);
    let bbox2 = expected_raw_bbox_for_inside_rect(x2 as u32, y2 as u32, w2 as u32, h2 as u32);
    let b1 = Bbox {
        x_min: bbox1.x,
        y_min: bbox1.y,
        x_max: bbox1.x + bbox1.w - 1,
        y_max: bbox1.y + bbox1.h - 1,
    };
    let b2 = Bbox {
        x_min: bbox2.x,
        y_min: bbox2.y,
        x_max: bbox2.x + bbox2.w - 1,
        y_max: bbox2.y + bbox2.h - 1,
    };
    let union = b1.union(&b2);
    assert_eq!(merged.raw_bbox.x, union.x_min);
    assert_eq!(merged.raw_bbox.y, union.y_min);
    assert_eq!(merged.raw_bbox.w, union.width());
    assert_eq!(merged.raw_bbox.h, union.height());
}

#[test]
fn far_apart_blocks_are_not_merged() {
    let (x1, y1, w1, h1) = (40usize, 40usize, 10usize, 10usize);
    let gap = 40usize;
    let (x2, y2, w2, h2) = (x1 + w1 + gap, 40usize, 10usize, 10usize);
    let offset = |_i: usize| 20.0;
    let frames = make_frames(
        VIDEO_W,
        VIDEO_H,
        TOTAL,
        varying_bg,
        &[(x1, y1, w1, h1, &offset), (x2, y2, w2, h2, &offset)],
    );

    let expected1 =
        expected_raw_bbox_for_inside_rect(x1 as u32, y1 as u32, w1 as u32, h1 as u32);
    let expected2 =
        expected_raw_bbox_for_inside_rect(x2 as u32, y2 as u32, w2 as u32, h2 as u32);
    let union_width = (expected2.x + expected2.w).max(expected1.x + expected1.w)
        - expected1.x.min(expected2.x);
    let upper_bound_width = (VIDEO_W as f64 * 0.20) as u32;
    assert!(
        union_width > upper_bound_width,
        "この試験の前提(unionが上限超え)が崩れている: union_width={union_width}, \
         upper_bound_width={upper_bound_width}"
    );

    let candidates = estimate_raw_candidates(video_size(), frames_source(&frames))
        .expect("エラーにならない");

    assert_eq!(candidates.len(), 2, "併合されず2つ残るはず: {candidates:?}");
    let bboxes: Vec<LogoRect> = candidates.iter().map(|c| c.raw_bbox).collect();
    assert!(bboxes.contains(&expected1), "bboxes={bboxes:?}");
    assert!(bboxes.contains(&expected2), "bboxes={bboxes:?}");
}

#[test]
fn weak_step_entangled_with_oversized_strong_step_separates_at_higher_rung() {
    let (bx, by, bw, bh) = (20usize, 20usize, 100usize, 15usize);
    let (sx, sy, sw, sh) = (bx + bw, 20usize, 10usize, 10usize);

    let weak_offset = |_i: usize| 4.0;
    let strong_offset = |_i: usize| 60.0;
    let frames = make_frames(
        VIDEO_W,
        VIDEO_H,
        TOTAL,
        varying_bg,
        &[
            (bx, by, bw, bh, &weak_offset),
            (sx, sy, sw, sh, &strong_offset),
        ],
    );

    let candidates = estimate_raw_candidates(video_size(), frames_source(&frames))
        .expect("エラーにならない");

    assert!(!candidates.is_empty(), "強い成分は候補に残るはず");
    let expected_strong =
        expected_raw_bbox_for_inside_rect(sx as u32, sy as u32, sw as u32, sh as u32);
    assert!(
        candidates.iter().any(|c| c.raw_bbox == expected_strong),
        "candidates={candidates:?}, expected_strong={expected_strong:?}"
    );

    for c in &candidates {
        assert!(
            c.raw_bbox.w < 60 || c.raw_bbox.h < 30,
            "上限超えの成分が残っている: {:?}",
            c.raw_bbox
        );
    }
}

#[test]
fn sign_disagreement_across_blocks_is_rejected() {
    let (x, y, w, h) = (40usize, 40usize, 20usize, 16usize);
    let positive_blocks: HashSet<usize> = (0..9).collect();
    let offset = move |i: usize| {
        let b = block_of(i as u64, TOTAL as u64);
        if positive_blocks.contains(&b) {
            20.0
        } else {
            -20.0
        }
    };
    let frames = make_frames(
        VIDEO_W,
        VIDEO_H,
        TOTAL,
        varying_bg,
        &[(x, y, w, h, &offset)],
    );

    let candidates = estimate_raw_candidates(video_size(), frames_source(&frames))
        .expect("エラーにならない");
    assert!(
        candidates.is_empty(),
        "符号一致率不足で落ちるはず: {candidates:?}"
    );
}

#[test]
fn threshold_is_invariant_to_sample_count() {
    let (x, y, w, h) = (40usize, 40usize, 20usize, 16usize);
    let offset = |_i: usize| 20.0;

    let frames_200 = make_frames(VIDEO_W, VIDEO_H, 200, varying_bg, &[(x, y, w, h, &offset)]);
    let frames_2000 = make_frames(VIDEO_W, VIDEO_H, 2000, varying_bg, &[(x, y, w, h, &offset)]);

    let candidates_200 = estimate_raw_candidates(video_size(), frames_source(&frames_200))
        .expect("エラーにならない");
    let candidates_2000 = estimate_raw_candidates(video_size(), frames_source(&frames_2000))
        .expect("エラーにならない");

    assert!(!candidates_200.is_empty());
    assert_eq!(candidates_200.len(), candidates_2000.len());
    assert_eq!(candidates_200[0].raw_bbox, candidates_2000[0].raw_bbox);
    assert_eq!(
        candidates_200[0].estimated_rect,
        candidates_2000[0].estimated_rect
    );
    assert!((max_effect(&candidates_200[0]) - max_effect(&candidates_2000[0])).abs() < 1e-4);
}

#[test]
fn too_few_valid_blocks_returns_empty() {
    let (x, y, w, h) = (40usize, 40usize, 20usize, 16usize);
    let offset = |_i: usize| 20.0;
    let frames = make_frames(VIDEO_W, VIDEO_H, 10, varying_bg, &[(x, y, w, h, &offset)]);
    let candidates = estimate_raw_candidates(video_size(), frames_source(&frames))
        .expect("エラーにならない");
    assert!(
        candidates.is_empty(),
        "有効ブロックが不足するので空のはず: {candidates:?}"
    );
}

#[test]
fn inconsistent_frame_count_between_two_calls_is_an_error() {
    let mut call_count = 0;
    let err = estimate_raw_candidates(video_size(), |on_frame| {
        call_count += 1;
        let n = if call_count == 1 { 160 } else { 100 };
        for i in 0..n {
            on_frame(&vec![128u8; VIDEO_W * VIDEO_H])?;
            let _ = i;
        }
        Ok(n as u64)
    })
    .expect_err("1回目と2回目の枚数が食い違うのでエラーになるはず");
    assert!(err.contains("160"), "err={err}");
    assert!(err.contains("100"), "err={err}");
}

#[test]
fn step_present_only_in_program_group_has_high_auc_and_is_adopted() {
    let (x, y, w, h) = (40usize, 40usize, 20usize, 16usize);
    let frames: Vec<Vec<u8>> = (0..TOTAL)
        .map(|i| {
            let bg = varying_bg(i);
            let mut frame = vec![clamp_u8(bg); VIDEO_W * VIDEO_H];
            if every_fifth_is_cm(i as u64) != SampleLabel::Cm {
                for yy in y..y + h {
                    for xx in x..x + w {
                        frame[yy * VIDEO_W + xx] = clamp_u8(bg + 20.0);
                    }
                }
            }
            frame
        })
        .collect();

    let candidates =
        estimate_candidates(video_size(), frames_source(&frames), every_fifth_is_cm)
            .expect("エラーにならない");

    let expected = expected_raw_bbox_for_inside_rect(x as u32, y as u32, w as u32, h as u32);
    assert_eq!(candidates.len(), 1, "candidates={candidates:?}");
    assert_eq!(candidates[0].raw_bbox, expected);
}

#[test]
fn step_present_in_both_groups_has_auc_near_half_and_is_not_adopted() {
    let (x, y, w, h) = (40usize, 40usize, 20usize, 16usize);
    let offset = |_i: usize| 20.0;
    let frames = make_frames(
        VIDEO_W,
        VIDEO_H,
        TOTAL,
        varying_bg,
        &[(x, y, w, h, &offset)],
    );

    let candidates =
        estimate_candidates(video_size(), frames_source(&frames), every_fifth_is_cm)
            .expect("エラーにならない");

    assert!(
        candidates.is_empty(),
        "本編/CMのどちらでも同じ強さで出るオーバーレイはAUC~0.5になり\
         採用されないはず: {candidates:?}"
    );
}

#[test]
fn always_present_overlay_weaker_in_cm_is_adopted() {
    let (x, y, w, h) = (40usize, 40usize, 20usize, 16usize);
    let frames: Vec<Vec<u8>> = (0..TOTAL)
        .map(|i| {
            let bg = varying_bg(i);
            let mut frame = vec![clamp_u8(bg); VIDEO_W * VIDEO_H];
            let is_cm = every_fifth_is_cm(i as u64) == SampleLabel::Cm;
            for yy in y..y + h {
                for xx in x..x + w {
                    let off = if is_cm { pixel_noise(xx, yy, i) } else { 20.0 };
                    frame[yy * VIDEO_W + xx] = clamp_u8(bg + off);
                }
            }
            frame
        })
        .collect();

    let candidates =
        estimate_candidates(video_size(), frames_source(&frames), every_fifth_is_cm)
            .expect("エラーにならない");

    let expected = expected_raw_bbox_for_inside_rect(x as u32, y as u32, w as u32, h as u32);
    assert!(
        candidates.iter().any(|c| c.raw_bbox == expected),
        "candidates={candidates:?}"
    );
}

#[test]
fn zero_cm_samples_skips_auc_and_returns_top_candidate() {
    let (x, y, w, h) = (40usize, 40usize, 20usize, 16usize);
    let offset = |_i: usize| 20.0;
    let frames = make_frames(
        VIDEO_W,
        VIDEO_H,
        TOTAL,
        varying_bg,
        &[(x, y, w, h, &offset)],
    );

    let candidates = estimate_candidates(video_size(), frames_source(&frames), all_program)
        .expect("エラーにならない");

    let expected = expected_raw_bbox_for_inside_rect(x as u32, y as u32, w as u32, h as u32);
    assert_eq!(candidates.len(), 1, "candidates={candidates:?}");
    assert_eq!(candidates[0].raw_bbox, expected);
}

#[test]
fn few_cm_samples_below_minimum_skips_auc_and_returns_top_candidate() {
    let (x, y, w, h) = (40usize, 40usize, 20usize, 16usize);
    let offset = |_i: usize| 20.0;
    let frames = make_frames(
        VIDEO_W,
        VIDEO_H,
        TOTAL,
        varying_bg,
        &[(x, y, w, h, &offset)],
    );

    let classify = |i: u64| {
        if i < 10 {
            SampleLabel::Cm
        } else {
            SampleLabel::Program
        }
    };
    let candidates = estimate_candidates(video_size(), frames_source(&frames), classify)
        .expect("エラーにならない");

    let expected = expected_raw_bbox_for_inside_rect(x as u32, y as u32, w as u32, h as u32);
    assert_eq!(candidates.len(), 1, "candidates={candidates:?}");
    assert_eq!(candidates[0].raw_bbox, expected);
}

#[test]
fn no_candidate_clears_auc_threshold_yields_empty_not_unconditional_adoption() {
    let (x1, y1, w1, h1) = (40usize, 40usize, 10usize, 10usize);
    let gap = 40usize;
    let (x2, y2, w2, h2) = (x1 + w1 + gap, 40usize, 10usize, 10usize);
    let offset = |_i: usize| 20.0;
    let frames = make_frames(
        VIDEO_W,
        VIDEO_H,
        TOTAL,
        varying_bg,
        &[(x1, y1, w1, h1, &offset), (x2, y2, w2, h2, &offset)],
    );

    let candidates =
        estimate_candidates(video_size(), frames_source(&frames), every_fifth_is_cm)
            .expect("エラーにならない");

    assert!(
        candidates.is_empty(),
        "AUCで全滅した場合は無条件採用へ落ちず空になるはず: {candidates:?}"
    );
}


#[test]
fn thresholds_double_from_one_and_a_half() {
    let ladder: Vec<f32> = threshold_ladder().into_iter().map(f32::from_bits).collect();
    assert_eq!(ladder, vec![1.5, 3.0, 6.0, 12.0, 24.0, 48.0, 96.0]);
}
