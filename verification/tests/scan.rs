use std::collections::HashSet;

use tachikaze::logo::frames::{LogoRect, VideoSize};
use tachikaze::logo::lgd::{parse, LogoData, NAME_LEN};
use tachikaze::logo::lgd_write::{build_base_part, build_lgd_bytes, truncate_name_for_lgd, LgdWriteError};
use tachikaze::logo::scan::{
    border_pixel_indices, estimate_frame_background, round_rect_to_even, Background, FrameLearner,
    InvalidCoefficient, MakeLogoConfig, OddRect, ScanError, DEFAULT_THRESHOLD, MIN_USABLE_FRAMES,
    UNSPECIFIED_SERVICE_ID,
};

fn bits(values: &[f32]) -> Vec<u32> {
    values.iter().map(|v| v.to_bits()).collect()
}

#[test]
fn even_rect_is_unchanged_and_not_reported() {
    let rect = LogoRect {
        x: 10,
        y: 20,
        w: 100,
        h: 40,
    };
    let (rounded, message) = round_rect_to_even(rect);
    assert_eq!(rounded, rect);
    assert_eq!(message, None);
}

#[test]
fn odd_rect_is_rounded_down_and_reported() {
    let rect = LogoRect {
        x: 11,
        y: 21,
        w: 101,
        h: 41,
    };
    let (rounded, message) = round_rect_to_even(rect);
    assert_eq!(
        rounded,
        LogoRect {
            x: 10,
            y: 20,
            w: 100,
            h: 40
        }
    );
    let message = message.expect("丸めが発生したので通知があるはず");
    assert!(message.contains("11"), "message={message}");
    assert!(message.contains("10"), "message={message}");
}

fn synth_frame(w: usize, h: usize, bg: f64, a: f64, b: f64) -> Vec<u8> {
    let observed_inside = ((bg - b * 255.0) / a).round().clamp(0.0, 255.0) as u8;
    let bg_u8 = bg.round().clamp(0.0, 255.0) as u8;
    let border: HashSet<usize> =
        border_pixel_indices(w, h).into_iter().collect();
    (0..w * h)
        .map(|i| {
            if border.contains(&i) {
                bg_u8
            } else {
                observed_inside
            }
        })
        .collect()
}

#[test]
fn zero_usable_frames_is_an_error() {
    let (w, h) = (6, 4);
    let mut learner = FrameLearner::new(w as u32, h as u32, DEFAULT_THRESHOLD);

    for _ in 0..5 {
        let mut frame = vec![128u8; w * h];
        frame[0] = 0;
        frame[1] = 255;
        learner.add_frame(&frame);
    }

    assert_eq!(learner.used_frames(), 0);
    let err = learner
        .finish()
        .expect_err("有効フレームが0件なのでエラーになるはず");
    assert_eq!(err, ScanError::NoUsableFrames { total_frames: 5 });
}

#[test]
fn too_few_usable_frames_is_an_error_even_with_finite_coefficients() {
    let (w, h) = (6, 4);
    let backgrounds = [60.0, 120.0, 180.0];
    assert!((backgrounds.len() as u64) < MIN_USABLE_FRAMES);

    let mut learner = FrameLearner::new(w as u32, h as u32, DEFAULT_THRESHOLD);
    for &bg in &backgrounds {
        let frame = synth_frame(w, h, bg, 1.5, 0.02);
        learner.add_frame(&frame);
    }

    assert_eq!(learner.used_frames(), backgrounds.len() as u64);
    let err = learner
        .finish()
        .expect_err("有効フレームが下限未満なのでエラーになるはず");
    assert_eq!(
        err,
        ScanError::TooFewUsableFrames {
            used_frames: backgrounds.len() as u64,
            total_frames: backgrounds.len() as u64,
        }
    );
}

fn sample_logo() -> LogoData {
    LogoData {
        w: 4,
        h: 2,
        log_uv_x: 1,
        log_uv_y: 1,
        imgw: 640,
        imgh: 360,
        imgx: 620,
        imgy: 4,
        name: "テストロゴ".to_string(),
        service_id: UNSPECIFIED_SERVICE_ID,
        a_y: bits(&[1.1, 1.2, 1.3, 1.4, 1.5, 1.6, 1.7, 1.8]),
        b_y: bits(&[0.01, 0.02, 0.03, 0.04, 0.05, 0.06, 0.07, 0.08]),
        a_u: bits(&[1.0, 1.0]),
        b_u: bits(&[0.0, 0.0]),
        a_v: bits(&[1.0, 1.0]),
        b_v: bits(&[0.0, 0.0]),
    }
}

#[test]
fn round_trips_through_lgd_parse() {
    let logo = sample_logo();
    let bytes = build_lgd_bytes(&logo).expect("組み立てに失敗しないはず");

    let parsed = parse(&bytes).expect(".lgd としてパースできるはず");
    assert_eq!(parsed, logo);
}

#[test]
fn long_name_is_truncated_at_utf8_boundary_not_mid_character() {
    let mut logo = sample_logo();
    logo.name = "あ".repeat(88);
    assert!(logo.name.len() > NAME_LEN);

    let bytes = build_lgd_bytes(&logo).expect("組み立てに失敗しないはず");
    let parsed = parse(&bytes).expect(".lgd としてパースできるはず（パニックしない）");
    assert!(parsed.name.len() <= NAME_LEN);
    assert!(logo.name.starts_with(&parsed.name));
}

#[test]
fn oversized_w_is_a_clean_error_not_a_panic() {
    let mut logo = sample_logo();
    logo.w = i32::MAX;
    let err = build_lgd_bytes(&logo).expect_err("i16 の範囲を超えるのでエラーになるはず");
    assert!(err.message().contains("w"), "err={}", err.message());
}

#[test]
fn border_is_walked_without_counting_a_pixel_twice() {
    let mut border = border_pixel_indices(3, 3);
    border.sort();
    assert_eq!(border, vec![0, 1, 2, 3, 5, 6, 7, 8]);
    assert_eq!(border_pixel_indices(1, 1), vec![0]);
}

#[test]
fn background_is_the_middle_half_of_a_border_of_one_colour() {
    let eight: Vec<usize> = (0..8).collect();
    assert_eq!(
        estimate_frame_background(&[1, 9, 3, 4, 5, 6, 8, 2], &eight, 8),
        Some(Background { sum: 18, count: 4 })
    );
    let border: Vec<usize> = vec![0, 1, 2];
    assert_eq!(
        estimate_frame_background(&[10, 20, 22, 255], &border, 12),
        Some(Background { sum: 52, count: 3 })
    );
    assert_eq!(estimate_frame_background(&[10, 20, 23, 255], &border, 12), None);
}

#[test]
fn only_frames_with_a_background_are_used() {
    let mut learner = FrameLearner::new(3, 3, DEFAULT_THRESHOLD);
    assert_eq!(
        learner.add_frame(&[7, 7, 7, 7, 200, 7, 7, 7, 7]),
        Some(Background { sum: 28, count: 4 })
    );
    assert_eq!(learner.add_frame(&[0, 255, 7, 7, 7, 7, 7, 7, 7]), None);
    assert_eq!((learner.used_frames(), learner.total_frames()), (1, 2));
    assert_eq!(
        learner.finish(),
        Err(ScanError::TooFewUsableFrames { used_frames: 1, total_frames: 2 })
    );
    for _ in 0..3 {
        learner.add_frame(&[7; 9]);
    }
    assert_eq!(learner.finish(), Ok(()));
}

fn make_logo_config() -> MakeLogoConfig {
    MakeLogoConfig {
        rect: LogoRect { x: 620, y: 4, w: 4, h: 2 },
        video_size: VideoSize { width: 640, height: 360 },
        frame_count: 100,
        threshold: DEFAULT_THRESHOLD,
        name: "テストロゴ".to_string(),
        service_id: UNSPECIFIED_SERVICE_ID,
    }
}

#[test]
fn learned_logo_is_the_one_that_is_written() {
    let config = make_logo_config();
    assert_eq!(config.check_even(), Ok(()));
    let expected = sample_logo();
    let logo = config.build_logo(expected.a_y.clone(), expected.b_y.clone());
    assert_eq!(logo, expected);
    let bytes = build_lgd_bytes(&logo).expect("the size fits");
    assert_eq!(parse(&bytes), Ok(expected));
}

#[test]
fn odd_size_is_refused_before_learning() {
    let mut config = make_logo_config();
    config.rect.w = 5;
    assert_eq!(config.check_even(), Err(OddRect { w: 5, h: 2 }));
}

#[test]
fn name_is_cut_to_the_field() {
    assert_eq!(truncate_name_for_lgd("short"), "short");
    assert_eq!(truncate_name_for_lgd(&"あ".repeat(88)), "あ".repeat(85));
    let fitting = "n".repeat(NAME_LEN);
    assert_eq!(truncate_name_for_lgd(&fitting), fitting);
}

#[test]
fn sizes_beyond_sixteen_bits_are_told_apart() {
    assert_eq!(build_base_part(40_000, 2), Err(LgdWriteError::WidthOutOfRange));
    assert_eq!(build_base_part(2, 40_000), Err(LgdWriteError::HeightOutOfRange));
    assert_eq!(build_base_part(2, 3).map(|part| part.len()), Ok(80 + 2 * 3 * 12));
}

/// The bits of the coefficients of each pixel: the mean of both regression lines.
fn regress(frames: &[Vec<u8>], backgrounds: &[Background]) -> Vec<(u64, u64)> {
    let n = frames.len() as f64;
    let ys: Vec<f64> = backgrounds.iter().map(|b| b.sum as f64 / b.count as f64).collect();
    let mean_y = ys.iter().sum::<f64>() / n;
    let var_y = ys.iter().map(|y| y * y).sum::<f64>() / n - mean_y * mean_y;
    (0..frames[0].len())
        .map(|i| {
            let xs: Vec<f64> = frames.iter().map(|f| f[i] as f64).collect();
            let mean_x = xs.iter().sum::<f64>() / n;
            let var_x = xs.iter().map(|x| x * x).sum::<f64>() / n - mean_x * mean_x;
            let mean_xy = xs.iter().zip(&ys).map(|(x, y)| x * y).sum::<f64>() / n;
            let cov = mean_xy - mean_x * mean_y;
            let (a1, a2) = (cov / var_x, cov / var_y);
            let (b1, b2) = (mean_y - a1 * mean_x, mean_x - a2 * mean_y);
            let a = (a1 + 1.0 / a2) / 2.0;
            let b = (b1 - b2 / a2) / 2.0 / 255.0;
            (a.to_bits(), b.to_bits())
        })
        .collect()
}

#[test]
fn recovers_known_coefficients_from_synthetic_frames() {
    let (w, h) = (6, 4);
    let a_true = 1.5;
    let b_true = 0.02;
    let backgrounds = [60.0, 90.0, 120.0, 150.0, 180.0, 210.0];

    let mut learner = FrameLearner::new(w as u32, h as u32, DEFAULT_THRESHOLD);
    let mut frames: Vec<Vec<u8>> = Vec::new();
    let mut found: Vec<Background> = Vec::new();
    for &bg in &backgrounds {
        let frame = synth_frame(w, h, bg, a_true, b_true);
        found.push(learner.add_frame(&frame).expect("外周は単色"));
        frames.push(frame);
    }

    assert_eq!(learner.total_frames(), backgrounds.len() as u64);
    assert_eq!(learner.used_frames(), backgrounds.len() as u64);

    learner.finish().expect("十分なフレームがあるので成功するはず");
    let coefficients = regress(&frames, &found);
    learner
        .check_coefficients(&coefficients)
        .expect("十分なフレームがあるので成功するはず");

    let border: HashSet<usize> = border_pixel_indices(w, h).into_iter().collect();
    for i in 0..w * h {
        if border.contains(&i) {
            continue;
        }
        let a = f64::from_bits(coefficients[i].0) as f32;
        let b = f64::from_bits(coefficients[i].1) as f32;
        assert!((a as f64 - a_true).abs() < 0.02, "pixel {i}: a={a} (true={a_true})");
        assert!((b as f64 - b_true).abs() < 0.01, "pixel {i}: b={b} (true={b_true})");
    }
}

#[test]
fn constant_background_yields_non_finite_coefficient_error() {
    let (w, h) = (6, 4);
    let mut learner = FrameLearner::new(w as u32, h as u32, DEFAULT_THRESHOLD);
    let mut frames: Vec<Vec<u8>> = Vec::new();
    let mut found: Vec<Background> = Vec::new();

    for _ in 0..5 {
        let frame = synth_frame(w, h, 128.0, 1.5, 0.02);
        found.push(learner.add_frame(&frame).expect("外周は単色"));
        frames.push(frame);
    }

    assert_eq!(learner.used_frames(), 5);
    assert_eq!(learner.finish(), Ok(()));
    let err = learner
        .check_coefficients(&regress(&frames, &found))
        .expect_err("背景が変化しないので係数が不正になり失敗するはず");
    let (a, b) = (f64::from_bits(err.a), f64::from_bits(err.b));
    assert!(!a.is_finite() || !b.is_finite() || a == 0.0, "a={a}, b={b}");
}

#[test]
fn first_pixel_without_finite_coefficients_is_named() {
    let learner = FrameLearner::new(2, 2, DEFAULT_THRESHOLD);
    let pair = |a: f64, b: f64| (a.to_bits(), b.to_bits());
    let fine = [pair(1.5, 0.0), pair(-f64::MAX, -0.0), pair(5e-324, f64::MIN)];
    assert_eq!(learner.check_coefficients(&fine.to_vec()), Ok(()));
    assert_eq!(learner.check_coefficients(&Vec::new()), Ok(()));
    for bad in [
        pair(0.0, 1.0),
        pair(-0.0, 1.0),
        pair(f64::NAN, 0.0),
        pair(f64::NEG_INFINITY, 0.0),
        pair(1.0, f64::NAN),
        pair(1.0, f64::INFINITY),
    ] {
        assert_eq!(
            learner.check_coefficients(&vec![fine[0], bad, pair(0.0, 0.0)]),
            Err(InvalidCoefficient { pixel_index: 1, used_frames: 0, a: bad.0, b: bad.1 })
        );
    }
}

#[test]
fn pixel_without_finite_coefficients_is_told_to_the_user() {
    let error = InvalidCoefficient { pixel_index: 7, used_frames: 12, a: 0, b: 0 };
    assert_eq!(
        error.message("NaN", "inf"),
        "画素7個目の回帰係数が不正です（a=NaN, b=inf）。有効フレーム12件では学習できません\
         （フレームが足りない、または画素の観測値が全フレームで同一で分散が0になっている\
         （完全不透明な画素・一様な背景など）可能性があります）。\
         壊れたロゴデータを書き出さずに失敗させています。"
    );
}
