use tachikaze::cli::Snap;
use tachikaze::dtvi::{Dtvi, DtviFrame, FLAG_KEY_PACKET, FLAG_VALID_DTS, FLAG_VALID_PTS};
use tachikaze::jls::JlsEntry;
use tachikaze::order::{DecodeIdx, DisplayIdx};
use tachikaze::report::fits::{check_distances_fit, check_totals_fit};
use tachikaze::report::{
    boundary_distances, format_report, nearest_keyframes, summarize, BoundaryDistance,
    BoundaryKind, ReportTime,
};
use tachikaze::trim::{TrimList, TrimRange};

/// Reads `Trim(first,last) ++ Trim(first,last) ...`, whose last frames are inclusive.
fn trim_list(text: &str) -> Option<TrimList> {
    let mut ranges = Vec::new();
    for part in text.split("++") {
        let inner = part.trim().strip_prefix("Trim(")?.strip_suffix(")")?;
        let (first, last) = inner.split_once(',')?;
        let first: u32 = first.trim().parse().ok()?;
        let last: u32 = last.trim().parse().ok()?;
        ranges.push(TrimRange { start: DisplayIdx(first), end: DisplayIdx(last + 1) });
    }
    TrimList::new(ranges)
}

fn time_base(dtvi: &Dtvi) -> (f64, f64) {
    let value = |key: &str| dtvi.header_value(key).and_then(|v| v.trim().parse::<f64>().ok());
    (value("time_base_num").unwrap_or(1.0), value("time_base_den").unwrap_or(1.0))
}

fn seconds(dtvi: &Dtvi, units: i64) -> f64 {
    let (num, den) = time_base(dtvi);
    units as f64 * num / den
}

fn prev_delta_sec(dtvi: &Dtvi, d: &BoundaryDistance) -> Option<f64> {
    d.prev_keyframe_units.map(|units| -seconds(dtvi, units))
}

fn next_delta_sec(dtvi: &Dtvi, d: &BoundaryDistance) -> Option<f64> {
    d.next_keyframe_units.map(|units| seconds(dtvi, units))
}

fn render(dtvi: &Dtvi, time: ReportTime) -> String {
    match time {
        ReportTime::ExtraTotal { units } => format!("{:.1}", seconds(dtvi, units)),
        ReportTime::ExtraAverage { units, boundaries } => {
            format!("{:.2}", seconds(dtvi, units) / boundaries as f64)
        }
        ReportTime::OutputLength { units } => {
            let total = seconds(dtvi, units).round().max(0.0) as u64;
            format!("{}:{:02}", total / 60, total % 60)
        }
        ReportTime::SincePrevKeyframe { units } => format!("{:+.2}", -seconds(dtvi, units)),
        ReportTime::UntilNextKeyframe { units } => format!("{:+.2}", seconds(dtvi, units)),
    }
}

fn approx_eq(a: f64, b: f64, eps: f64) -> bool {
    (a - b).abs() <= eps
}

fn make_gop120_dtvi(frame_count: u32) -> Dtvi {
    let mut header = Vec::new();
    header.push(("time_base_num".to_string(), "1".to_string()));
    header.push(("time_base_den".to_string(), "30000".to_string()));

    let frames = (0..frame_count)
        .map(|n| {
            let flags = if n % 120 == 0 {
                FLAG_KEY_PACKET | FLAG_VALID_PTS | FLAG_VALID_DTS
            } else {
                FLAG_VALID_PTS | FLAG_VALID_DTS
            };
            DtviFrame {
                frame_number: DisplayIdx(n),
                sample_number: DecodeIdx(n),
                random_access_sample: DecodeIdx((n / 120) * 120),
                file_offset: 0,
                pts: n as i64 * 1001,
                dts: n as i64 * 1001,
                duration: 1001,
                flags,
            }
        })
        .collect();

    Dtvi {
        format_version: 1,
        header,
        frames,
    }
}

#[test]
fn boundary_distances_match_measured_example() {
    let dtvi = make_gop120_dtvi(5041);
    let trim = trim_list("Trim(63,5007)").expect("should parse");

    let distances = boundary_distances(&trim, &dtvi);
    assert_eq!(distances.len(), 2);

    let start = &distances[0];
    assert_eq!(start.kind, BoundaryKind::Start);
    assert_eq!(start.boundary, DisplayIdx(63));
    assert_eq!(start.prev_keyframe, Some(DisplayIdx(0)));
    assert_eq!(start.next_keyframe, Some(DisplayIdx(120)));
    assert!(approx_eq(
        prev_delta_sec(&dtvi, start).unwrap(),
        -2.10,
        0.01
    ));
    assert!(approx_eq(
        next_delta_sec(&dtvi, start).unwrap(),
        1.90,
        0.01
    ));

    let end = &distances[1];
    assert_eq!(end.kind, BoundaryKind::End);
    assert_eq!(end.boundary, DisplayIdx(5008));
    assert_eq!(end.prev_keyframe, Some(DisplayIdx(4920)));
    assert_eq!(end.next_keyframe, Some(DisplayIdx(5040)));
    assert!(approx_eq(prev_delta_sec(&dtvi, end).unwrap(), -2.94, 0.01));
    assert!(approx_eq(next_delta_sec(&dtvi, end).unwrap(), 1.07, 0.01));
}

#[test]
fn summarize_computes_extra_retained_outward() {
    let dtvi = make_gop120_dtvi(5041);
    let trim = trim_list("Trim(63,5007)").expect("should parse");

    let summary = summarize(&trim, &dtvi, Snap::Outward);

    assert_eq!(summary.kept_ranges, 1);
    assert_eq!(summary.cut_boundaries, 2);
    assert_eq!(summary.extra_retained_frames_total, 63 + 32);

    let expected_seconds = (63 + 32) as f64 * 1001.0 / 30000.0;
    assert!(approx_eq(
        seconds(&dtvi, summary.extra_retained_units),
        expected_seconds,
        1e-9
    ));
    assert!(approx_eq(
        seconds(&dtvi, summary.extra_retained_units) / summary.cut_boundaries as f64,
        expected_seconds / 2.0,
        1e-9
    ));

    let expected_output = 5040.0 * 1001.0 / 30000.0;
    assert!(approx_eq(
        seconds(&dtvi, summary.output_units),
        expected_output,
        1e-6
    ));
}

#[test]
fn summarize_inward_shrinks_kept_range_instead() {
    let dtvi = make_gop120_dtvi(5041);
    let trim = trim_list("Trim(63,5007)").expect("should parse");

    let summary = summarize(&trim, &dtvi, Snap::Inward);

    assert_eq!(summary.extra_retained_frames_total, 57 + 88);

    let expected_output = (4920.0 - 120.0) * 1001.0 / 30000.0;
    assert!(approx_eq(
        seconds(&dtvi, summary.output_units),
        expected_output,
        1e-6
    ));
}

#[test]
fn nearest_keyframes_handles_uneven_spacing() {
    let keyframes = [0u32, 100, 250, 400];

    assert_eq!(nearest_keyframes(&keyframes, 0), (Some(0), Some(0)));
    assert_eq!(nearest_keyframes(&keyframes, 63), (Some(0), Some(100)));
    assert_eq!(nearest_keyframes(&keyframes, 100), (Some(100), Some(100)));
    assert_eq!(nearest_keyframes(&keyframes, 230), (Some(100), Some(250)));
    assert_eq!(nearest_keyframes(&keyframes, 400), (Some(400), Some(400)));
    assert_eq!(nearest_keyframes(&keyframes, 999), (Some(400), None));
}

#[test]
fn nearest_keyframes_returns_none_before_first_keyframe() {
    let keyframes = [100u32, 250, 400];
    assert_eq!(nearest_keyframes(&keyframes, 50), (None, Some(100)));
}

#[test]
fn boundary_distances_on_uneven_keyframes_computes_correct_seconds() {
    let mut header = Vec::new();
    header.push(("time_base_num".to_string(), "1".to_string()));
    header.push(("time_base_den".to_string(), "1".to_string()));

    let keyframe_positions = [0u32, 100, 250, 400];
    let frame_count = 450;
    let frames = (0..frame_count)
        .map(|n| {
            let flags = if keyframe_positions.contains(&n) {
                FLAG_KEY_PACKET
            } else {
                0
            };
            DtviFrame {
                frame_number: DisplayIdx(n),
                sample_number: DecodeIdx(n),
                random_access_sample: DecodeIdx(0),
                file_offset: 0,
                pts: n as i64,
                dts: n as i64,
                duration: 1,
                flags,
            }
        })
        .collect();
    let dtvi = Dtvi {
        format_version: 1,
        header,
        frames,
    };

    let trim = trim_list("Trim(230,399)").expect("should parse");
    let distances = boundary_distances(&trim, &dtvi);

    let start = &distances[0];
    assert_eq!(start.boundary, DisplayIdx(230));
    assert_eq!(start.prev_keyframe, Some(DisplayIdx(100)));
    assert_eq!(prev_delta_sec(&dtvi, start), Some(-130.0));
    assert_eq!(start.next_keyframe, Some(DisplayIdx(250)));
    assert_eq!(next_delta_sec(&dtvi, start), Some(20.0));

    let end = &distances[1];
    assert_eq!(end.boundary, DisplayIdx(400));
    assert_eq!(end.prev_keyframe, Some(DisplayIdx(400)));
    assert_eq!(prev_delta_sec(&dtvi, end), Some(0.0));
    assert_eq!(end.next_keyframe, Some(DisplayIdx(400)));
    assert_eq!(next_delta_sec(&dtvi, end), Some(0.0));
}

#[test]
fn format_report_returns_plain_string_and_includes_summary_and_cm_errors() {
    let dtvi = make_gop120_dtvi(5041);
    let trim = trim_list("Trim(63,5007)").expect("should parse");
    let jls = vec![
        JlsEntry {
            start: 0,
            end: 62,
            duration_sec: 2,
            error_frames: 0,
            logo_sec: 2,
            label: ":L".to_string(),
        },
        JlsEntry {
            start: 6128,
            end: 6577,
            duration_sec: 15,
            error_frames: -1,
            logo_sec: 0,
            label: ":CM".to_string(),
        },
    ];

    let report = format_report(&trim, &dtvi, &jls, true, |t| render(&dtvi, t));

    assert!(report.contains("保持区間数 1"));
    assert!(report.contains("カット境界数 2"));
    assert!(report.contains("CM ブロックの15秒格子誤差"));
    assert!(report.contains("6128"));
    assert!(!report.contains(":L"));
}

#[test]
fn format_report_omits_cm_section_when_no_cm_entries() {
    let dtvi = make_gop120_dtvi(5041);
    let trim = trim_list("Trim(63,5007)").expect("should parse");

    let report = format_report(&trim, &dtvi, &[], true, |t| render(&dtvi, t));

    assert!(!report.contains("CM ブロック"));
}

#[test]
fn report_text_is_laid_out_line_by_line() {
    let dtvi = make_gop120_dtvi(5041);
    let trim = trim_list("Trim(63,5007)").expect("should parse");
    let jls = vec![JlsEntry {
        start: 6128,
        end: 6577,
        duration_sec: 15,
        error_frames: -1,
        logo_sec: 0,
        label: ":CM".to_string(),
    }];

    let report = format_report(&trim, &dtvi, &jls, true, |t| render(&dtvi, t));

    let expected = [
        "保持区間数 1 / カット境界数 2",
        "余分に残る量 3.2s（境界あたり平均 1.58s）",
        "出力の長さ 2:48",
        "",
        "境界(開始)     63 : 直前KF=     0 (-2.10s)  直後KF=   120 (+1.90s)",
        "境界(終了)   5008 : 直前KF=  4920 (-2.94s)  直後KF=  5040 (+1.07s)",
        "",
        "CM ブロックの15秒格子誤差:",
        "    6128-6577   誤差 -1 フレーム",
        "",
    ];
    assert_eq!(report, expected.join("\n"));
}

#[test]
fn boundary_without_a_keyframe_before_it_shows_a_dash() {
    let mut dtvi = make_gop120_dtvi(130);
    dtvi.frames[0].flags = 0;
    let trim = trim_list("Trim(63,119)").expect("should parse");

    let distances = boundary_distances(&trim, &dtvi);
    assert_eq!(distances[0].prev_keyframe, None);
    assert_eq!(distances[0].prev_keyframe_units, None);
    assert_eq!(distances[0].next_keyframe, Some(DisplayIdx(120)));
    assert_eq!(distances[0].next_keyframe_units, Some(57 * 1001));

    let report = format_report(&trim, &dtvi, &[], true, |t| render(&dtvi, t));
    assert!(report.contains("境界(開始)     63 : 直前KF=     -  直後KF=   120 (+1.90s)\n"));
}

#[test]
fn durations_that_overflow_are_found_before_they_are_added() {
    let trim = trim_list("Trim(63,119)").expect("should parse");
    let mut dtvi = make_gop120_dtvi(130);
    assert!(check_distances_fit(&trim, &dtvi));
    assert!(check_totals_fit(&trim, &dtvi, Snap::Outward));
    dtvi.frames[10].duration = i64::MAX;
    assert!(!check_distances_fit(&trim, &dtvi));
    assert!(!check_totals_fit(&trim, &dtvi, Snap::Outward));
    let mut unordered = make_gop120_dtvi(130);
    unordered.frames[0].frame_number = DisplayIdx(500);
    assert!(!check_distances_fit(&trim, &unordered));
}

#[test]
fn both_directions_move_over_the_gaps_between_keyframes() {
    let dtvi = make_gop120_dtvi(1200);
    let trim = trim_list("Trim(130,250) ++ Trim(480,700)").expect("valid ranges");
    let outward = summarize(&trim, &dtvi, Snap::Outward);
    let inward = summarize(&trim, &dtvi, Snap::Inward);
    assert_eq!((outward.kept_ranges, inward.kept_ranges), (2, 2));
    assert_eq!((outward.cut_boundaries, inward.cut_boundaries), (4, 4));
    let gaps: u32 = boundary_distances(&trim, &dtvi)
        .iter()
        .map(|d| d.next_keyframe.unwrap().0 - d.prev_keyframe.unwrap().0)
        .sum();
    assert_eq!(gaps, 360);
    assert_eq!(outward.extra_retained_frames_total + inward.extra_retained_frames_total, gaps);
}
