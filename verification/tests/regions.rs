use tachikaze::logo::bbox::{
    bbox_from_rect, bbox_of, close_enough, gap_1d, passes_lower_bound, passes_size_bounds,
    passes_upper_bound, round_to, Bbox,
};
use tachikaze::logo::connected::label_components;
use tachikaze::logo::dilate::{dilate, dilate_1d};
use tachikaze::logo::frames::LogoRect;
use tachikaze::logo::regions::{greedy_merge, label_to_components, remove_large, Component};

#[test]
fn dilate_1d_grows_true_runs_by_radius() {
    let input = vec![false, false, true, false, false, false, false];
    let out = dilate_1d(&input, 1);
    assert_eq!(out, vec![false, true, true, true, false, false, false]);
}

#[test]
fn dilate_1d_with_radius_zero_is_identity() {
    let input = vec![false, true, false, true, false];
    let out = dilate_1d(&input, 0);
    assert_eq!(out, input);
}

#[test]
fn dilate_1d_with_radius_covering_whole_input_is_all_true_if_any_true() {
    let input = vec![false, false, false, true, false, false, false];
    let out = dilate_1d(&input, input.len());
    assert_eq!(out, vec![true; input.len()]);
}

#[test]
fn dilate_1d_all_false_stays_all_false_regardless_of_radius() {
    let input = vec![false; 10];
    assert_eq!(dilate_1d(&input, 0), input);
    assert_eq!(dilate_1d(&input, 3), input);
    assert_eq!(dilate_1d(&input, 100), input);
}

fn mask_of(rows: &[&str]) -> Vec<bool> {
    rows.iter().flat_map(|row| row.chars().map(|c| c == '#')).collect()
}

#[test]
fn dilate_grows_a_pixel_into_a_square() {
    let mask = mask_of(&[".....", ".....", "..#..", ".....", "....."]);
    let grown = mask_of(&[".....", ".###.", ".###.", ".###.", "....."]);
    assert_eq!(dilate(5, 5, &mask, 1), grown);
}

#[test]
fn pixels_that_touch_at_a_corner_share_a_label() {
    let mask = mask_of(&["#..#", ".#.#", "#..."]);
    let labels = label_components(4, 3, &mask);
    assert_eq!(labels[0], Some(0));
    assert_eq!(labels[5], Some(0));
    assert_eq!(labels[8], Some(0));
    assert_eq!(labels[3], Some(1));
    assert_eq!(labels[7], Some(1));
    assert_eq!(labels[1], None);
}

#[test]
fn bounding_box_is_tight() {
    let b = bbox_of(10, &vec![23, 41, 38]);
    assert_eq!(b, Bbox { x_min: 1, y_min: 2, x_max: 8, y_max: 4 });
    assert_eq!((b.width(), b.height()), (8, 3));
    assert_eq!(bbox_from_rect(LogoRect { x: 1, y: 2, w: 8, h: 3 }), b);
}

#[test]
fn gaps_count_the_pixels_between() {
    assert_eq!(gap_1d(0, 4, 10, 12), 5);
    assert_eq!(gap_1d(10, 12, 0, 4), 5);
    assert_eq!(gap_1d(0, 4, 4, 12), 0);
    let a = Bbox { x_min: 0, y_min: 0, x_max: 4, y_max: 4 };
    let b = Bbox { x_min: 10, y_min: 2, x_max: 12, y_max: 3 };
    assert!(close_enough(a, b, 5));
    assert!(!close_enough(a, b, 4));
    assert_eq!(a.union(&b), Bbox { x_min: 0, y_min: 0, x_max: 12, y_max: 4 });
}

#[test]
fn size_bounds_follow_the_video() {
    let b = Bbox { x_min: 0, y_min: 0, x_max: 59, y_max: 29 };
    assert!(passes_upper_bound(b, 300, 200));
    assert!(!passes_upper_bound(b, 299, 200));
    assert!(!passes_upper_bound(b, 300, 199));
    assert!(passes_lower_bound(b, 20));
    assert!(!passes_lower_bound(b, 19));
    assert!(!passes_lower_bound(Bbox { x_min: 0, y_min: 0, x_max: 6, y_max: 29 }, 20));
    assert!(passes_size_bounds(b, 20, 300, 200));
    assert!(!passes_size_bounds(b, 20, 200, 200));
}

#[test]
fn halves_round_up_to_the_next_multiple() {
    assert_eq!(round_to(3, 8), 0);
    assert_eq!(round_to(4, 8), 8);
    assert_eq!(round_to(11, 8), 8);
    assert_eq!(round_to(12, 8), 16);
}

#[test]
fn components_come_in_the_order_of_their_first_pixels() {
    let mask = mask_of(&["..#.", "#...", "#..#"]);
    let components = label_to_components(4, 3, &mask);
    let pixels: Vec<Vec<usize>> = components.iter().map(|c| c.pixels.clone()).collect();
    assert_eq!(pixels, vec![vec![2], vec![4, 8], vec![11]]);
}

fn component(x_min: u32, x_max: u32, pixels: Vec<usize>) -> Component {
    Component { bbox: Bbox { x_min, y_min: 0, x_max, y_max: 9 }, pixels }
}

#[test]
fn close_components_are_merged_and_keep_their_pixels() {
    let parts = vec![
        component(0, 9, vec![0, 1]),
        component(26, 30, vec![26]),
        component(100, 110, vec![100]),
    ];
    let merged = greedy_merge(parts, 300, 200);
    assert_eq!(merged.len(), 2);
    assert_eq!(merged[0].bbox, Bbox { x_min: 0, y_min: 0, x_max: 30, y_max: 9 });
    assert_eq!(merged[0].pixels, vec![0, 1, 26]);
    assert_eq!(merged[1].pixels, vec![100]);
}

#[test]
fn components_that_would_grow_too_wide_stay_apart() {
    let parts = vec![component(0, 39, vec![0]), component(45, 64, vec![45])];
    assert_eq!(greedy_merge(parts, 300, 200).len(), 2);
}

#[test]
fn large_regions_are_taken_out_of_the_mask() {
    let w = 100;
    let h = 40;
    let mut mask = vec![false; w * h];
    for x in 0..30 {
        mask[x] = true;
    }
    for x in 80..85 {
        mask[30 * w + x] = true;
    }
    let left = remove_large(w, h, &mask, 100, 40);
    assert!(!left[0..30].iter().any(|&m| m));
    assert!(left[30 * w + 80..30 * w + 85].iter().all(|&m| m));
}
