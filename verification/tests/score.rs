use tachikaze::logo::score::{
    attention_points, check_mask_size, window_centres, window_indices, LogoMaskError,
};

#[test]
fn too_small_logo_is_an_error_not_a_panic() {
    let err = check_mask_size(4, 4).expect_err("4x4 は5x5窓を置けないのでエラーになるはず");
    assert_eq!(err, LogoMaskError::TooSmall { w: 4, h: 4 });
    assert_eq!(check_mask_size(5, 5), Ok(()));
}

#[test]
fn logo_of_negative_size_is_too_small() {
    for (w, h) in [(-1, 5), (5, -1), (i32::MIN, i32::MIN), (0, 5), (5, 4)] {
        assert_eq!(check_mask_size(w, h), Err(LogoMaskError::TooSmall { w, h }));
    }
    assert_eq!(check_mask_size(i32::MAX, 5), Ok(()));
    assert_eq!(
        LogoMaskError::TooSmall { w: -1, h: 5 }.message(),
        "LogoMask::new: w=-1, h=5 は 5x5 窓を置くには小さすぎる（5 以上が必要）"
    );
}

#[test]
fn window_is_read_row_by_row() {
    let idx = window_indices(10, 4, 3);
    assert_eq!(idx.len(), 25);
    assert_eq!(&idx[..6], &[12, 13, 14, 15, 16, 22]);
    assert_eq!(idx[12], 34);
    assert_eq!(idx[24], 56);
}

#[test]
fn centres_leave_room_for_the_window() {
    assert_eq!(window_centres(6, 5), vec![(2, 2), (3, 2)]);
    assert_eq!(window_centres(5, 6), vec![(2, 2), (2, 3)]);
}

#[test]
fn points_of_the_largest_variance_are_picked() {
    let all = vec![(2, 2), (3, 2), (2, 3), (3, 3)];
    assert_eq!(attention_points(&all, &vec![5, 9, 5, 1], 2), vec![(3, 2), (2, 2)]);
    assert_eq!(attention_points(&all, &vec![5, 9, 5, 1], 9).len(), 4);
}
