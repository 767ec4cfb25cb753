use std::path::{Path, PathBuf};

use tachikaze::logo::dict::{
    build_file_name, candidate_crop_rect, check_frame_length, choose_best, count_found,
    crop_frame, default_dict_dir, detection_threshold, found_in_frame, matches_resolution,
    resolve_dict_dir, CandidateScore, DictDir, FrameLengthMismatch, NoHomeDirectory,
};
use tachikaze::logo::frames::VideoSize;
use tachikaze::logo::lgd::LogoData;
use tachikaze::logo::scan::UNSPECIFIED_SERVICE_ID;

const THRESHOLD: (u32, u32) = (1, 10);
const DETECTION_THRESHOLD: f64 = 0.1;
const DETECTION_THRESHOLD_SHORT: f64 = 0.03;
const SHORT_VIDEO_SECONDS: f64 = 7.0 * 60.0;

fn joined(dir: DictDir<&Path>) -> PathBuf {
    let mut path = dir.base.to_path_buf();
    for name in &dir.below {
        path.push(name);
    }
    path
}

fn threshold_for(duration_seconds: f64) -> f64 {
    let (numerator, denominator) = detection_threshold(duration_seconds.to_bits() as i64);
    numerator as f64 / denominator as f64
}

fn bits(values: &[f32]) -> Vec<u32> {
    values.iter().map(|v| v.to_bits()).collect()
}

fn sample_logo(imgw: i32, imgh: i32) -> LogoData {
    LogoData {
        w: 4,
        h: 2,
        log_uv_x: 1,
        log_uv_y: 1,
        imgw,
        imgh,
        imgx: 2,
        imgy: 2,
        name: "テストロゴ".to_string(),
        service_id: UNSPECIFIED_SERVICE_ID,
        a_y: bits(&[1.1, 1.2, 1.3, 1.4, 1.5, 1.6, 1.7, 1.8]),
        b_y: bits(&[0.01, 0.02, 0.03, 0.04, 0.05, 0.06, 0.07, 0.08]),
        a_u: bits(&[1.0, 1.0]),
        b_u: bits(&[0.0, 0.0]),
        a_v: bits(&[1.0, 1.0]),
        b_v: bits(&[0.0, 0.0]),
    }
}

#[test]
fn default_dict_dir_uses_xdg_data_home_when_set() {
    let xdg = Path::new("/custom/xdg-data-home");
    let home = Path::new("/home/example-user");
    let dir = default_dict_dir(Some(xdg), Some(home)).map(joined)
        .expect("成功するはず");
    assert_eq!(dir, xdg.join("tachikaze").join("logos"));
}

#[test]
fn default_dict_dir_falls_back_to_home_local_share_when_xdg_unset() {
    let home = Path::new("/home/example-user");
    let dir = default_dict_dir(None, Some(home)).map(joined)
        .expect("成功するはず");
    assert_eq!(
        dir,
        home.join(".local")
            .join("share")
            .join("tachikaze")
            .join("logos")
    );
}

#[test]
fn default_dict_dir_errors_when_home_is_unknown_and_xdg_unset() {
    let err = default_dict_dir::<&Path>(None, None).map(joined).expect_err("ホームが無ければエラーのはず");
    let message = err.message();
    assert!(
        message.contains("上書き引数"),
        "上書き引数を促すメッセージのはず: {message}"
    );
}

#[test]
fn resolve_dict_dir_uses_explicit_override_without_touching_env() {
    let explicit = Path::new("/explicit/override/dir");
    let dir = resolve_dict_dir(Some(explicit), None, false, None).map(joined)
        .expect("成功するはず");
    assert_eq!(dir, explicit);
}

#[test]
fn choose_best_picks_minimum_score_and_excludes_zero_detection_candidate() {
    let scores = [
        CandidateScore {
            score: f64::INFINITY.to_bits(),
            detected: 0,
            total: 10,
        },
        CandidateScore {
            score: 0.15f64.to_bits(),
            detected: 5,
            total: 10,
        },
        CandidateScore {
            score: 0.4f64.to_bits(),
            detected: 8,
            total: 10,
        },
    ];

    let idx = choose_best(&scores, THRESHOLD).expect("閾値以上の候補があるはず");
    let fraction = scores[idx].detected as f64 / scores[idx].total as f64;
    assert_eq!(
        idx, 1,
        "検出0件の候補ではなく、スコア最小の候補1が選ばれるはず"
    );
    assert!((fraction - 0.5).abs() < 1e-9);
}

#[test]
fn choose_best_returns_none_when_best_detected_fraction_is_below_threshold() {
    let scores = [CandidateScore {
        score: 0.15f64.to_bits(),
        detected: 1,
        total: 20,
    }];

    let result = choose_best(&scores, THRESHOLD);
    assert!(
        result.is_none(),
        "検出割合(0.05)が閾値(0.1)未満なので該当なしになるはず"
    );
}

#[test]
fn choose_best_returns_none_for_empty_scores() {
    assert!(choose_best(&[], THRESHOLD).is_none());
}

#[test]
fn detection_threshold_is_lenient_for_short_videos() {
    assert_eq!(threshold_for(60.0), DETECTION_THRESHOLD_SHORT);
    assert_eq!(
        threshold_for(SHORT_VIDEO_SECONDS),
        DETECTION_THRESHOLD_SHORT
    );
}

#[test]
fn detection_threshold_is_default_for_long_videos() {
    assert_eq!(
        threshold_for(SHORT_VIDEO_SECONDS + 1.0),
        DETECTION_THRESHOLD
    );
    assert_eq!(threshold_for(3600.0), DETECTION_THRESHOLD);
}

#[test]
fn candidate_crop_rect_rejects_rect_extending_past_image_bounds() {
    let mut logo = sample_logo(1920, 1080);
    logo.imgx = 1918;
    assert!(candidate_crop_rect(&logo).is_none());
}

#[test]
fn candidate_crop_rect_accepts_rect_within_bounds() {
    let logo = sample_logo(1920, 1080);
    let rect = candidate_crop_rect(&logo).expect("範囲内なので成功するはず");
    assert_eq!(rect, (2, 2, 4, 2));
}

#[test]
fn crop_frame_extracts_expected_rectangle() {
    let frame: Vec<u8> = vec![
        0, 1, 2, 3,
        4, 5, 6, 7,
        8, 9, 10, 11,
    ];
    let cropped = crop_frame(&frame, 4, 1, 1, 2, 2);
    assert_eq!(cropped, vec![5, 6, 9, 10]);
}

#[test]
fn empty_xdg_data_home_counts_as_unset() {
    let xdg = Path::new("");
    let home = Path::new("/home/example-user");
    let dir = resolve_dict_dir(None, Some(xdg), true, Some(home)).map(joined);
    assert_eq!(dir, Ok(PathBuf::from("/home/example-user/.local/share/tachikaze/logos")));
    let dir = resolve_dict_dir(None, Some(Path::new("/x")), false, Some(home)).map(joined);
    assert_eq!(dir, Ok(PathBuf::from("/x/tachikaze/logos")));
    let none = resolve_dict_dir(None, Some(xdg), true, None).map(joined);
    assert_eq!(none, Err(NoHomeDirectory));
}

#[test]
fn attempts_are_numbered_from_the_second() {
    assert_eq!(build_file_name("BS日テレ", 1), "BS日テレ.lgd");
    assert_eq!(build_file_name("BS日テレ", 2), "BS日テレ-2.lgd");
    assert_eq!(build_file_name("BS日テレ", 13), "BS日テレ-13.lgd");
}

#[test]
fn only_logos_of_the_same_resolution_match() {
    let size = VideoSize { width: 1920, height: 1080 };
    assert!(matches_resolution(&sample_logo(1920, 1080), size));
    assert!(!matches_resolution(&sample_logo(1280, 720), size));
    assert!(!matches_resolution(&sample_logo(-1, 1080), size));
}

#[test]
fn frame_of_another_length_is_an_error_that_names_the_video_size() {
    let video_size = VideoSize { width: 40, height: 20 };
    assert_eq!(check_frame_length(800, video_size), Ok(()));
    let error = check_frame_length(10, video_size).expect_err("10 bytes are no frame");
    assert_eq!(error, FrameLengthMismatch { actual: 10, video_size });
    assert!(error.message().contains("video_size"));
    assert!(error.message().contains("(40x20=800バイト)"));
}

#[test]
fn first_of_equal_scores_is_chosen() {
    let tie = CandidateScore { score: 0.2f64.to_bits(), detected: 1, total: 2 };
    assert_eq!(choose_best(&[tie, tie], THRESHOLD), Some(0));
}

/// A number in the order of the floating-point numbers.
fn key(v: f32) -> i32 {
    let bits = v.to_bits() as i32;
    if bits < 0 {
        !(bits & 0x7fff_ffff)
    } else {
        bits
    }
}

/// The score of a logo: the mean of what is left in the frames that show it, the larger the
/// fewer they are.
fn score_from_corrs(corrs: &[(f32, f32)]) -> (f64, f64) {
    let keys: Vec<(i32, u32)> =
        corrs.iter().map(|&(c0, c1)| (key(c0), c1.abs().to_bits())).collect();
    let detected = count_found(&keys);
    let sum: f64 = corrs
        .iter()
        .zip(&keys)
        .filter(|(_, &(shown, left))| found_in_frame(shown, left))
        .map(|(&(_, c1), _)| c1.abs() as f64)
        .sum();
    let score = if detected == 0 {
        f64::INFINITY
    } else {
        (sum / detected as f64) * (corrs.len() as f64 / detected as f64)
    };
    (score, detected as f64 / corrs.len() as f64)
}

#[test]
fn score_from_corrs_computes_expected_score_and_detected_fraction() {
    let corrs = [(0.9, 0.1), (0.05, 0.5), (0.8, 0.05), (0.1, 0.9)];
    let (score, detected_fraction) = score_from_corrs(&corrs);
    assert!((score - 0.15).abs() < 1e-6, "score={score}");
    assert!(
        (detected_fraction - 0.5).abs() < 1e-9,
        "detected_fraction={detected_fraction}"
    );
}

#[test]
fn score_from_corrs_is_infinite_when_no_frame_is_detected() {
    let corrs = [(0.05, 0.5), (0.1, -0.9), (0.0, 0.3)];
    let (score, detected_fraction) = score_from_corrs(&corrs);
    assert!(score.is_infinite());
    assert!((detected_fraction - 0.0).abs() < 1e-9);
}

#[test]
fn logo_shows_strictly_above_and_below_a_fifth() {
    assert!(found_in_frame(key(0.21), 0.19f32.to_bits()));
    assert!(!found_in_frame(key(0.2), 0.0f32.to_bits()));
    assert!(!found_in_frame(key(0.9), 0.2f32.to_bits()));
    assert!(!found_in_frame(key(-0.9), 0.0f32.to_bits()));
}

#[test]
fn matching_logo_is_cut_out_of_a_frame() {
    let mut logo = sample_logo(8, 4);
    logo.imgx = 3;
    logo.imgy = 2;
    let size = VideoSize { width: 8, height: 4 };
    assert!(matches_resolution(&logo, size));
    let (x, y, w, h) = candidate_crop_rect(&logo).expect("the logo lies in the picture");
    let frame: Vec<u8> = (0..32).collect();
    assert_eq!(check_frame_length(frame.len(), size), Ok(()));
    let cropped = crop_frame(&frame, 8, x, y, w, h);
    assert_eq!(cropped, vec![19, 20, 21, 22, 27, 28, 29, 30]);
}
