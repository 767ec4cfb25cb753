use tachikaze::cli::Snap;
use tachikaze::order::DisplayIdx;
use tachikaze::plan::{ceil_or_equal, floor_or_equal, snap, SnappedRange};
use tachikaze::trim::{TrimList, TrimRange};

/// Reads `Trim(first,last) ++ Trim(first,last) ...`, whose last frames are inclusive.
fn trim_list(text: &str) -> Option<TrimList> {
    let mut ranges = Vec::new();
    for part in text.split("++") {
        let inner = part.trim().strip_prefix("Trim(")?.strip_suffix(")")?;
        let (first, last) = inner.split_once(',')?;
        let first: u32 = first.trim().parse().ok()?;
        let last: u32 = last.trim().parse().ok()?;
        ranges.push(TrimRange { start: DisplayIdx(first), end: DisplayIdx(last + 1) });
    }
    TrimList::new(ranges)
}

fn irregular_sync() -> Vec<DisplayIdx> {
    vec![
        DisplayIdx(0),
        DisplayIdx(100),
        DisplayIdx(250),
        DisplayIdx(400),
    ]
}

fn as_pairs(ranges: &[SnappedRange]) -> Vec<(u32, u32)> {
    ranges
        .iter()
        .map(|r| (r.start.snapped.0, r.end.snapped.0))
        .collect()
}

#[test]
fn floor_or_equal_finds_largest_at_or_below() {
    let sync = irregular_sync();
    assert_eq!(floor_or_equal(&sync, DisplayIdx(0)), Some(DisplayIdx(0)));
    assert_eq!(floor_or_equal(&sync, DisplayIdx(99)), Some(DisplayIdx(0)));
    assert_eq!(
        floor_or_equal(&sync, DisplayIdx(100)),
        Some(DisplayIdx(100))
    );
    assert_eq!(
        floor_or_equal(&sync, DisplayIdx(399)),
        Some(DisplayIdx(250))
    );
    assert_eq!(
        floor_or_equal(&sync, DisplayIdx(500)),
        Some(DisplayIdx(400))
    );
}

#[test]
fn ceil_or_equal_finds_smallest_at_or_above() {
    let sync = irregular_sync();
    assert_eq!(ceil_or_equal(&sync, DisplayIdx(0)), Some(DisplayIdx(0)));
    assert_eq!(ceil_or_equal(&sync, DisplayIdx(1)), Some(DisplayIdx(100)));
    assert_eq!(ceil_or_equal(&sync, DisplayIdx(250)), Some(DisplayIdx(250)));
    assert_eq!(ceil_or_equal(&sync, DisplayIdx(401)), None);
}

#[test]
fn outward_snaps_start_back_and_end_forward_on_irregular_spacing() {
    let sync = irregular_sync();
    let trim = trim_list("Trim(120,299)").expect("should parse");
    let result = snap(&trim, &sync, 500, Snap::Outward).expect("should not overlap");

    assert_eq!(as_pairs(&result), vec![(100, 400)]);
    assert_eq!(result[0].start.original, DisplayIdx(120));
    assert_eq!(result[0].start.delta_frames, 20);
    assert_eq!(result[0].end.original, DisplayIdx(300));
    assert_eq!(result[0].end.delta_frames, 100);
}

#[test]
fn outward_does_not_extend_end_already_on_sync_sample() {
    let sync = irregular_sync();
    let trim = trim_list("Trim(120,249)").expect("should parse");
    let result = snap(&trim, &sync, 500, Snap::Outward).expect("should not overlap");

    assert_eq!(result[0].end.snapped, DisplayIdx(250));
    assert_eq!(result[0].end.delta_frames, 0);
}

#[test]
fn outward_does_not_move_start_already_on_sync_sample() {
    let sync = irregular_sync();
    let trim = trim_list("Trim(100,249)").expect("should parse");
    let result = snap(&trim, &sync, 500, Snap::Outward).expect("should not overlap");

    assert_eq!(result[0].start.snapped, DisplayIdx(100));
    assert_eq!(result[0].start.delta_frames, 0);
}

#[test]
fn inward_snaps_start_forward_and_end_back_on_irregular_spacing() {
    let sync = irregular_sync();
    let trim = trim_list("Trim(120,299)").expect("should parse");
    let result = snap(&trim, &sync, 500, Snap::Inward).expect("should not overlap");

    assert_eq!(as_pairs(&result), vec![(250, 250)]);
    assert_eq!(result[0].start.delta_frames, 130);
    assert_eq!(result[0].end.delta_frames, 50);
}

#[test]
fn inward_does_not_move_boundaries_already_on_sync_samples() {
    let sync = irregular_sync();
    let trim = trim_list("Trim(100,249)").expect("should parse");
    let result = snap(&trim, &sync, 500, Snap::Inward).expect("should not overlap");

    assert_eq!(as_pairs(&result), vec![(100, 250)]);
    assert_eq!(result[0].start.delta_frames, 0);
    assert_eq!(result[0].end.delta_frames, 0);
}

#[test]
fn start_at_zero_stays_at_zero() {
    let sync = irregular_sync();
    let trim = trim_list("Trim(0,99)").expect("should parse");
    let outward = snap(&trim, &sync, 500, Snap::Outward).expect("should not overlap");
    assert_eq!(outward[0].start.snapped, DisplayIdx(0));
    assert_eq!(outward[0].start.delta_frames, 0);

    let inward = snap(&trim, &sync, 500, Snap::Inward).expect("should not overlap");
    assert_eq!(inward[0].start.snapped, DisplayIdx(0));
    assert_eq!(inward[0].start.delta_frames, 0);
}

#[test]
fn end_beyond_last_sync_stops_at_total_frames() {
    let sync = irregular_sync();
    let trim = trim_list("Trim(300,498)").expect("should parse");
    let result = snap(&trim, &sync, 500, Snap::Outward).expect("should not overlap");

    assert_eq!(result[0].end.original, DisplayIdx(499));
    assert_eq!(result[0].end.snapped, DisplayIdx(500));
    assert_eq!(result[0].end.delta_frames, 1);
}

#[test]
fn end_equal_to_total_frames_is_edge_case() {
    let sync = irregular_sync();
    let trim = trim_list("Trim(250,499)").expect("should parse");
    let result = snap(&trim, &sync, 500, Snap::Outward).expect("should not overlap");

    assert_eq!(result[0].start.snapped, DisplayIdx(250));
    assert_eq!(result[0].end.snapped, DisplayIdx(500));
}

#[test]
fn overlapping_after_outward_snap_is_error() {
    let sync = vec![
        DisplayIdx(0),
        DisplayIdx(100),
        DisplayIdx(200),
        DisplayIdx(300),
    ];
    let trim = trim_list("Trim(50,119) ++ Trim(130,179)").expect("should parse");

    let err = snap(&trim, &sync, 300, Snap::Outward).unwrap_err();
    assert!(err.message().contains("重なっています"));
}

#[test]
fn non_overlapping_after_outward_snap_is_ok() {
    let sync = vec![
        DisplayIdx(0),
        DisplayIdx(100),
        DisplayIdx(200),
        DisplayIdx(300),
    ];
    let trim = trim_list("Trim(10,90) ++ Trim(210,290)").expect("should parse");

    let result = snap(&trim, &sync, 300, Snap::Outward).expect("should not overlap");
    assert_eq!(as_pairs(&result), vec![(0, 100), (200, 300)]);
}

#[test]
fn outward_ranges_hold_what_was_asked_for_and_inward_ranges_lie_in_it() {
    let sync = irregular_sync();
    for (first, last) in [(0, 99), (1, 101), (120, 299), (255, 499)] {
        let text = format!("Trim({first},{last})");
        let trim = trim_list(&text).expect("should parse");
        let outward = snap(&trim, &sync, 500, Snap::Outward).expect("one range");
        assert!(outward[0].start.snapped.0 <= first && last < outward[0].end.snapped.0);
        let inward = snap(&trim, &sync, 500, Snap::Inward).expect("one range");
        assert!(first <= inward[0].start.snapped.0 && inward[0].end.snapped.0 <= last + 1);
    }
}
