use tachikaze::order::DisplayIdx;
use tachikaze::plan::{SnappedBoundary, SnappedRange};
use tachikaze::segmap::SegmentMap;

fn range(start: u32, end: u32) -> SnappedRange {
    SnappedRange {
        start: SnappedBoundary {
            original: DisplayIdx(start),
            snapped: DisplayIdx(start),
            delta_frames: 0,
        },
        end: SnappedBoundary {
            original: DisplayIdx(end),
            snapped: DisplayIdx(end),
            delta_frames: 0,
        },
    }
}

#[test]
fn build_computes_output_start_as_cumulative_duration() {
    let snapped = vec![range(0, 120), range(360, 480)];
    let source_starts = vec![0u64, 360_360u64];
    let durations = vec![120_120u64, 120_120u64];

    let map = SegmentMap::build(
        &snapped,
        &source_starts,
        &durations,
        90_000,
        30000,
        1001,
        "/tmp/IN.mp4".to_string(),
        599,
    );

    assert_eq!(map.segments.len(), 2);

    assert_eq!(map.segments[0].source_start_frame, 0);
    assert_eq!(map.segments[0].source_end_frame, 120);
    assert_eq!(map.segments[0].frame_count, 120);
    assert_eq!(map.segments[0].source_start_dts, 0);
    assert_eq!(map.segments[0].output_start, 0);
    assert_eq!(map.segments[0].duration, 120_120);

    assert_eq!(map.segments[1].source_start_frame, 360);
    assert_eq!(map.segments[1].source_end_frame, 480);
    assert_eq!(map.segments[1].frame_count, 120);
    assert_eq!(map.segments[1].source_start_dts, 360_360);
    assert_eq!(map.segments[1].output_start, 120_120);
    assert_eq!(map.segments[1].duration, 120_120);
}

#[test]
fn build_frame_count_sum_matches_total_kept_frames() {
    let snapped = vec![range(0, 120), range(360, 480), range(480, 599)];
    let source_starts = vec![0u64, 360_360u64, 480_480u64];
    let durations = vec![120_120u64, 120_120u64, 119_119u64];

    let map = SegmentMap::build(
        &snapped,
        &source_starts,
        &durations,
        90_000,
        30000,
        1001,
        "/tmp/IN.mp4".to_string(),
        599,
    );

    let frame_count_sum: u32 = map.segments.iter().map(|s| s.frame_count).sum();
    assert_eq!(frame_count_sum, 120 + 120 + 119);
    assert_eq!(map.segments.len(), snapped.len());
}

#[test]
fn segments_follow_each_other_in_the_output() {
    let map = SegmentMap::build(
        &[range(10, 20), range(50, 51), range(60, 60)],
        &[7, 8, 9],
        &[100, 10, 0],
        90_000,
        30_000,
        1001,
        "in.mp4".to_string(),
        100,
    );
    for pair in map.segments.windows(2) {
        assert_eq!(pair[1].output_start, pair[0].output_start + pair[0].duration);
    }
    assert_eq!(map.segments[2].frame_count, 0);
    assert_eq!(map.segments[2].source_start_dts, 9);
    assert_eq!((map.input.as_str(), map.total_frames), ("in.mp4", 100));
}
