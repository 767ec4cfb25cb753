use tachikaze::logo::hier::{
    assemble_full_scores, build_gops, check_assembly, gops_overlapping_ranges, group_consecutive,
    labels_conflict, select_refine_targets, should_fall_back_to_full_decode,
    touched_frame_ranges_from_logoframe_text, AssembleError, Gop, RefinedRange,
};

fn assemble_or_panic(
    kf_frame_numbers: &[u64],
    kf_scores: &[(f32, f32)],
    total_frames: u64,
    refined: &[RefinedRange<(f32, f32)>],
) -> Vec<(f32, f32)> {
    match check_assembly(kf_frame_numbers, kf_scores, total_frames, refined) {
        Ok(()) => assemble_full_scores(kf_frame_numbers, kf_scores, total_frames, refined),
        Err(error) => panic!("{}", error.message()),
    }
}

#[test]
fn build_gops_last_gop_ends_at_total_frames() {
    let gops = build_gops(&[0, 120, 240], 300);
    assert_eq!(
        gops,
        vec![
            Gop {
                kf_index: 0,
                start: 0,
                end: 120
            },
            Gop {
                kf_index: 1,
                start: 120,
                end: 240
            },
            Gop {
                kf_index: 2,
                start: 240,
                end: 300
            },
        ]
    );
}

#[test]
fn build_gops_single_keyframe_covers_whole_video() {
    let gops = build_gops(&[0], 50);
    assert_eq!(
        gops,
        vec![Gop {
            kf_index: 0,
            start: 0,
            end: 50
        }]
    );
}

#[test]
fn select_refine_targets_always_includes_first_and_last_gop() {
    let labels = vec![Some(true); 6];
    assert_eq!(select_refine_targets(&labels), vec![0, 5]);
}

#[test]
fn select_refine_targets_single_gop_is_just_that_gop() {
    assert_eq!(select_refine_targets(&[Some(true)]), vec![0]);
}

#[test]
fn select_refine_targets_empty_input_is_empty() {
    assert_eq!(select_refine_targets(&[]), Vec::<usize>::new());
}

#[test]
fn select_refine_targets_marks_transition_and_its_neighbors() {
    let a = Some(true);
    let b = Some(false);
    let labels = vec![a, a, a, a, b, b, b, b, b, b, b, a, a];
    let targets = select_refine_targets(&labels);
    assert_eq!(targets, vec![0, 2, 3, 4, 9, 10, 11, 12]);
}

#[test]
fn select_refine_targets_unknown_label_forces_refinement() {
    let labels = vec![Some(true), Some(true), None, Some(true), Some(true)];
    let targets = select_refine_targets(&labels);
    assert_eq!(targets, vec![0, 1, 2, 3, 4]);
}

#[test]
fn group_consecutive_merges_adjacent_indices() {
    let ranges = group_consecutive(vec![0, 2, 3, 4, 9, 10, 11, 12]);
    assert_eq!(ranges, vec![(0, 0), (2, 4), (9, 12)]);
}

#[test]
fn group_consecutive_of_empty_is_empty() {
    assert_eq!(group_consecutive(vec![]), Vec::<(usize, usize)>::new());
}

#[test]
fn group_consecutive_deduplicates_and_sorts() {
    let ranges = group_consecutive(vec![5, 3, 4, 3]);
    assert_eq!(ranges, vec![(3, 5)]);
}

#[test]
fn assemble_with_zero_refined_ranges_is_pure_hold_fill() {
    let kf_frame_numbers = vec![0, 3, 7];
    let kf_scores = vec![(1.0, 0.0), (0.5, -0.1), (-1.0, -1.0)];
    let out = assemble_or_panic(&kf_frame_numbers, &kf_scores, 10, &[]);
    assert_eq!(
        out,
        vec![
            (1.0, 0.0),
            (1.0, 0.0),
            (1.0, 0.0),
            (0.5, -0.1),
            (0.5, -0.1),
            (0.5, -0.1),
            (0.5, -0.1),
            (-1.0, -1.0),
            (-1.0, -1.0),
            (-1.0, -1.0),
        ]
    );
}

#[test]
fn assemble_refines_leading_gop_from_frame_zero() {
    let kf_frame_numbers = vec![0, 4, 8];
    let kf_scores = vec![(9.0, 9.0), (0.0, 0.0), (0.0, 0.0)];
    let refined = vec![RefinedRange {
        start_frame: 0,
        scores: vec![(1.0, 0.0), (2.0, 0.0), (3.0, 0.0), (4.0, 0.0)],
    }];
    let out = assemble_or_panic(&kf_frame_numbers, &kf_scores, 12, &refined);
    assert_eq!(
        &out[0..4],
        &[(1.0, 0.0), (2.0, 0.0), (3.0, 0.0), (4.0, 0.0)]
    );
    assert_eq!(&out[4..8], &[(0.0, 0.0); 4]);
    assert_eq!(&out[8..12], &[(0.0, 0.0); 4]);
}

#[test]
fn assemble_refines_trailing_gop_up_to_total_frames() {
    let kf_frame_numbers = vec![0, 4, 8];
    let kf_scores = vec![(0.0, 0.0), (0.0, 0.0), (9.0, 9.0)];
    let refined = vec![RefinedRange {
        start_frame: 8,
        scores: vec![(-1.0, 0.0), (-2.0, 0.0)],
    }];
    let out = assemble_or_panic(&kf_frame_numbers, &kf_scores, 10, &refined);
    assert_eq!(&out[0..8], &[(0.0, 0.0); 8]);
    assert_eq!(&out[8..10], &[(-1.0, 0.0), (-2.0, 0.0)]);
}

#[test]
fn assemble_handles_two_consecutive_refined_ranges_spanning_multiple_gops() {
    let kf_frame_numbers = vec![0, 3, 6, 9, 12];
    let kf_scores = vec![
        (10.0, 0.0),
        (20.0, 0.0),
        (30.0, 0.0),
        (40.0, 0.0),
        (50.0, 0.0),
    ];
    let refined = vec![
        RefinedRange {
            start_frame: 0,
            scores: vec![
                (1.0, 0.0),
                (1.0, 0.0),
                (1.0, 0.0),
                (2.0, 0.0),
                (2.0, 0.0),
                (2.0, 0.0),
            ],
        },
        RefinedRange {
            start_frame: 9,
            scores: vec![
                (4.0, 0.0),
                (4.0, 0.0),
                (4.0, 0.0),
                (5.0, 0.0),
                (5.0, 0.0),
                (5.0, 0.0),
            ],
        },
    ];
    let out = assemble_or_panic(&kf_frame_numbers, &kf_scores, 15, &refined);
    assert_eq!(
        &out[0..6],
        &[
            (1.0, 0.0),
            (1.0, 0.0),
            (1.0, 0.0),
            (2.0, 0.0),
            (2.0, 0.0),
            (2.0, 0.0)
        ]
    );
    assert_eq!(&out[6..9], &[(30.0, 0.0); 3]);
    assert_eq!(
        &out[9..15],
        &[
            (4.0, 0.0),
            (4.0, 0.0),
            (4.0, 0.0),
            (5.0, 0.0),
            (5.0, 0.0),
            (5.0, 0.0)
        ]
    );
}

#[test]
#[should_panic(expected = "先頭フレームは常にキーフレームである前提")]
fn assemble_panics_if_first_keyframe_is_not_frame_zero() {
    assemble_or_panic(&[1, 5], &[(0.0, 0.0), (0.0, 0.0)], 10, &[]);
}

#[test]
#[should_panic(expected = "全フレーム数を超えています")]
fn assemble_panics_if_refined_range_overruns_total_frames() {
    let refined = vec![RefinedRange {
        start_frame: 8,
        scores: vec![(0.0, 0.0), (0.0, 0.0), (0.0, 0.0)],
    }];
    assemble_or_panic(&[0], &[(0.0, 0.0)], 10, &refined);
}

#[test]
fn touched_frame_ranges_parses_s_and_e_lines() {
    let text = "   100 S 0 ALL    90   110\n   250 E 0 ALL   240   260\n";
    let ranges = touched_frame_ranges_from_logoframe_text(text);
    assert_eq!(ranges, vec![(90, 110), (240, 260)]);
}

#[test]
fn touched_frame_ranges_is_empty_for_empty_text() {
    assert_eq!(touched_frame_ranges_from_logoframe_text(""), Vec::new());
}

#[test]
fn touched_frame_ranges_ignores_malformed_lines() {
    let text = "not enough columns\n\
                 100 S 0 ALL abc 110\n\
                 100 S 0 ALL 110 90\n\
                 100 S 0 ALL 90 110\n";
    assert_eq!(
        touched_frame_ranges_from_logoframe_text(text),
        vec![(90, 110)]
    );
}

#[test]
fn touched_frame_ranges_ignores_negative_columns() {
    let text = "5 E 0 ALL -1 -1\n";
    assert_eq!(touched_frame_ranges_from_logoframe_text(text), Vec::new());
}

#[test]
fn gops_overlapping_ranges_finds_single_overlapping_gop() {
    let gops = build_gops(&[0, 120, 240], 300);
    assert_eq!(gops_overlapping_ranges(&gops, &[(150, 150)]), vec![1]);
}

#[test]
fn gops_overlapping_ranges_finds_multiple_gops_spanned_by_one_range() {
    let gops = build_gops(&[0, 120, 240], 300);
    assert_eq!(gops_overlapping_ranges(&gops, &[(100, 250)]), vec![0, 1, 2]);
}

#[test]
fn gops_overlapping_ranges_unions_multiple_input_ranges() {
    let gops = build_gops(&[0, 120, 240], 300);
    assert_eq!(
        gops_overlapping_ranges(&gops, &[(10, 10), (250, 250)]),
        vec![0, 2]
    );
}

#[test]
fn gops_overlapping_ranges_is_empty_for_no_ranges() {
    let gops = build_gops(&[0, 120, 240], 300);
    assert_eq!(gops_overlapping_ranges(&gops, &[]), Vec::<usize>::new());
}

#[test]
fn gops_overlapping_ranges_boundary_frame_belongs_to_next_gop() {
    let gops = build_gops(&[0, 120, 240], 300);
    assert_eq!(gops_overlapping_ranges(&gops, &[(120, 120)]), vec![1]);
}

#[test]
fn should_fall_back_to_full_decode_below_threshold_stays_hier() {
    assert!(!should_fall_back_to_full_decode(10, 100, 2, 5));
}

#[test]
fn should_fall_back_to_full_decode_exactly_at_threshold_falls_back() {
    assert!(should_fall_back_to_full_decode(40, 100, 2, 5));
}

#[test]
fn should_fall_back_to_full_decode_above_threshold_falls_back() {
    assert!(should_fall_back_to_full_decode(90, 100, 2, 5));
}

#[test]
fn should_fall_back_to_full_decode_zero_total_gops_is_false() {
    assert!(!should_fall_back_to_full_decode(0, 0, 2, 5));
}

#[test]
fn should_fall_back_to_full_decode_zero_targets_stays_hier() {
    assert!(!should_fall_back_to_full_decode(0, 100, 2, 5));
}

#[test]
fn every_frame_lies_in_exactly_one_gop() {
    let gops = build_gops(&[0, 120, 240], 300);
    for frame in 0..300u64 {
        let holding = gops.iter().filter(|g| g.start <= frame && frame < g.end).count();
        assert_eq!(holding, 1, "frame {frame}");
    }
}

#[test]
fn labels_conflict_unless_both_are_known_and_equal() {
    assert!(!labels_conflict(Some(true), Some(true)));
    assert!(!labels_conflict(Some(false), Some(false)));
    assert!(labels_conflict(Some(true), Some(false)));
    assert!(labels_conflict(None, Some(true)));
    assert!(labels_conflict(None, None));
}

#[test]
fn assembly_errors_are_told_apart() {
    let none: [RefinedRange<u8>; 0] = [];
    assert_eq!(
        check_assembly(&[0, 3], &[1u8], 10, &none),
        Err(AssembleError::LengthMismatch { key_frames: 2, scores: 1 })
    );
    assert_eq!(check_assembly::<u8>(&[], &[], 10, &none), Err(AssembleError::NoKeyframe));
    assert_eq!(
        check_assembly(&[1], &[1u8], 10, &none),
        Err(AssembleError::FirstIsNoKeyframe { first: 1 })
    );
    let late = [RefinedRange { start_frame: 9, scores: vec![1u8, 2] }];
    assert_eq!(
        check_assembly(&[0], &[1u8], 10, &late),
        Err(AssembleError::BeyondEnd { idx: 10, total: 10 })
    );
    assert_eq!(check_assembly(&[0], &[1u8], 11, &late), Ok(()));
}
