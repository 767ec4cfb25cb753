use tachikaze::order::{DecodeIdx, DisplayIdx, OrderMap};

#[test]
fn display_idx_sub_returns_u32_frame_count() {
    let a = DisplayIdx(10);
    let b = DisplayIdx(3);
    let diff: u32 = a - b;
    assert_eq!(diff, 7);
}

#[test]
fn decode_idx_sub_returns_u32_frame_count() {
    let a = DecodeIdx(10);
    let b = DecodeIdx(3);
    let diff: u32 = a - b;
    assert_eq!(diff, 7);
}

#[test]
fn display_idx_add_u32() {
    assert_eq!(DisplayIdx(5) + 2, DisplayIdx(7));
}

#[test]
fn decode_idx_add_u32() {
    assert_eq!(DecodeIdx(5) + 2, DecodeIdx(7));
}

#[test]
fn checked_add_overflow_returns_none() {
    assert_eq!(DisplayIdx(u32::MAX).checked_add(1), None);
    assert_eq!(DecodeIdx(u32::MAX).checked_add(1), None);
}

#[test]
fn checked_add_no_overflow_returns_some() {
    assert_eq!(DisplayIdx(1).checked_add(1), Some(DisplayIdx(2)));
    assert_eq!(DecodeIdx(1).checked_add(1), Some(DecodeIdx(2)));
}

#[test]
fn order_map_round_trip_display_to_decode_to_display() {
    let pairs = vec![
        (DisplayIdx(0), DecodeIdx(0)),
        (DisplayIdx(1), DecodeIdx(2)),
        (DisplayIdx(2), DecodeIdx(1)),
        (DisplayIdx(3), DecodeIdx(3)),
    ];
    let map = OrderMap::new(pairs);

    for display in [DisplayIdx(0), DisplayIdx(1), DisplayIdx(2), DisplayIdx(3)] {
        let decode = map.to_decode(display).expect("decode index should exist");
        let round_tripped = map.to_display(decode).expect("display index should exist");
        assert_eq!(round_tripped, display);
    }
}

#[test]
fn order_map_round_trip_decode_to_display_to_decode() {
    let pairs = vec![
        (DisplayIdx(0), DecodeIdx(0)),
        (DisplayIdx(1), DecodeIdx(2)),
        (DisplayIdx(2), DecodeIdx(1)),
        (DisplayIdx(3), DecodeIdx(3)),
    ];
    let map = OrderMap::new(pairs);

    for decode in [DecodeIdx(0), DecodeIdx(1), DecodeIdx(2), DecodeIdx(3)] {
        let display = map.to_display(decode).expect("display index should exist");
        let round_tripped = map.to_decode(display).expect("decode index should exist");
        assert_eq!(round_tripped, decode);
    }
}

#[test]
fn order_map_missing_mapping_returns_none() {
    let map = OrderMap::new(vec![(DisplayIdx(0), DecodeIdx(0))]);
    assert_eq!(map.to_decode(DisplayIdx(99)), None);
    assert_eq!(map.to_display(DecodeIdx(99)), None);
}

#[test]
fn order_map_len_and_is_empty() {
    let empty = OrderMap::new(vec![]);
    assert_eq!(empty.len(), 0);
    assert!(empty.is_empty());

    let non_empty = OrderMap::new(vec![(DisplayIdx(0), DecodeIdx(0))]);
    assert_eq!(non_empty.len(), 1);
    assert!(!non_empty.is_empty());
}
