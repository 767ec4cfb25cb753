use tachikaze::dtvi::{Dtvi, DtviFrame};
use tachikaze::mp4io::order_map::{
    check_times_fit, decode_timestamp, verify_against_dtvi, DisplayDecodeMap, DtviMismatch,
};
use tachikaze::mp4io::read::SampleInfo;
use tachikaze::order::{DecodeIdx, DisplayIdx};

fn reordered_samples() -> Vec<SampleInfo> {
    vec![
        SampleInfo {
            file_offset: 0,
            size: 10,
            duration: 1000,
            cts_offset: 0,
            is_sync: true,
        },
        SampleInfo {
            file_offset: 10,
            size: 10,
            duration: 1000,
            cts_offset: 3000,
            is_sync: false,
        },
        SampleInfo {
            file_offset: 20,
            size: 10,
            duration: 1000,
            cts_offset: -1000,
            is_sync: false,
        },
        SampleInfo {
            file_offset: 30,
            size: 10,
            duration: 1000,
            cts_offset: -1000,
            is_sync: false,
        },
    ]
}

#[test]
fn build_derives_expected_display_order_from_composition_time() {
    let samples = reordered_samples();
    let map = DisplayDecodeMap::build(&samples).expect("同値は無いはず");

    assert_eq!(map.order.to_display(DecodeIdx(0)), Some(DisplayIdx(0)));
    assert_eq!(map.order.to_display(DecodeIdx(1)), Some(DisplayIdx(3)));
    assert_eq!(map.order.to_display(DecodeIdx(2)), Some(DisplayIdx(1)));
    assert_eq!(map.order.to_display(DecodeIdx(3)), Some(DisplayIdx(2)));

    assert_eq!(map.order.to_decode(DisplayIdx(0)), Some(DecodeIdx(0)));
    assert_eq!(map.order.to_decode(DisplayIdx(1)), Some(DecodeIdx(2)));
    assert_eq!(map.order.to_decode(DisplayIdx(2)), Some(DecodeIdx(3)));
    assert_eq!(map.order.to_decode(DisplayIdx(3)), Some(DecodeIdx(1)));

    for i in 0..5 {
        assert_eq!(map.to_display(DecodeIdx(i)), map.order.to_display(DecodeIdx(i)));
        assert_eq!(map.to_decode(DisplayIdx(i)), map.order.to_decode(DisplayIdx(i)));
    }
    assert_eq!(map.to_decode(DisplayIdx(1)), Some(DecodeIdx(2)));
    assert_eq!(map.to_decode(DisplayIdx(4)), None);
}

#[test]
fn decode_timestamp_matches_build_derivation() {
    let samples = reordered_samples();

    assert_eq!(decode_timestamp(&samples, DecodeIdx(0)), Some(0));
    assert_eq!(decode_timestamp(&samples, DecodeIdx(1)), Some(1000));
    assert_eq!(decode_timestamp(&samples, DecodeIdx(2)), Some(2000));
    assert_eq!(decode_timestamp(&samples, DecodeIdx(3)), Some(3000));
}

#[test]
fn decode_timestamp_out_of_range_returns_none() {
    let samples = reordered_samples();
    assert_eq!(decode_timestamp(&samples, DecodeIdx(99)), None);
}

#[test]
fn build_fails_with_tied_composition_time() {
    let mut samples = reordered_samples();
    samples[3].cts_offset = -2000;

    let message = match DisplayDecodeMap::build(&samples) {
        Ok(_) => panic!("合成時刻の同値はエラーになるはず"),
        Err(err) => err.message(),
    };
    assert!(
        message.contains('2'),
        "同値だったデコード順インデックス2を含むこと: {message}"
    );
    assert!(
        message.contains('3'),
        "同値だったデコード順インデックス3を含むこと: {message}"
    );
}

fn gop(base_offset: u64) -> Vec<SampleInfo> {
    vec![
        SampleInfo {
            file_offset: base_offset,
            size: 10,
            duration: 1000,
            cts_offset: 0,
            is_sync: true,
        },
        SampleInfo {
            file_offset: base_offset + 10,
            size: 10,
            duration: 1000,
            cts_offset: 2500,
            is_sync: false,
        },
        SampleInfo {
            file_offset: base_offset + 20,
            size: 10,
            duration: 1000,
            cts_offset: -1000,
            is_sync: false,
        },
        SampleInfo {
            file_offset: base_offset + 30,
            size: 10,
            duration: 1000,
            cts_offset: -1000,
            is_sync: false,
        },
    ]
}

#[test]
fn sync_display_indices_are_sorted_ascending_across_gops() {
    let mut samples = gop(0);
    samples.extend(gop(40));

    let map = DisplayDecodeMap::build(&samples).expect("同値は無いはず");
    assert_eq!(
        map.sync_display_indices(),
        vec![DisplayIdx(0), DisplayIdx(4)],
        "GOPをまたいでも同期サンプルの表示順は昇順のはず"
    );
}

#[test]
fn nearest_preceding_sync_finds_last_sync_at_or_before() {
    let samples = vec![
        SampleInfo {
            file_offset: 0,
            size: 10,
            duration: 1000,
            cts_offset: 0,
            is_sync: true,
        },
        SampleInfo {
            file_offset: 10,
            size: 10,
            duration: 1000,
            cts_offset: 0,
            is_sync: false,
        },
        SampleInfo {
            file_offset: 20,
            size: 10,
            duration: 1000,
            cts_offset: 0,
            is_sync: true,
        },
        SampleInfo {
            file_offset: 30,
            size: 10,
            duration: 1000,
            cts_offset: 0,
            is_sync: false,
        },
    ];
    let map = DisplayDecodeMap::build(&samples).expect("同値は無いはず");

    assert_eq!(map.nearest_preceding_sync(DecodeIdx(0)), Some(DecodeIdx(0)));
    assert_eq!(map.nearest_preceding_sync(DecodeIdx(1)), Some(DecodeIdx(0)));
    assert_eq!(map.nearest_preceding_sync(DecodeIdx(2)), Some(DecodeIdx(2)));
    assert_eq!(map.nearest_preceding_sync(DecodeIdx(3)), Some(DecodeIdx(2)));
}

#[test]
fn nearest_preceding_sync_returns_none_when_no_sync_before() {
    let samples = vec![
        SampleInfo {
            file_offset: 0,
            size: 10,
            duration: 1000,
            cts_offset: 0,
            is_sync: false,
        },
        SampleInfo {
            file_offset: 10,
            size: 10,
            duration: 1000,
            cts_offset: 0,
            is_sync: true,
        },
    ];
    let map = DisplayDecodeMap::build(&samples).expect("同値は無いはず");

    assert_eq!(map.nearest_preceding_sync(DecodeIdx(0)), None);
    assert_eq!(map.nearest_preceding_sync(DecodeIdx(1)), Some(DecodeIdx(1)));
}

fn frame(frame_number: u32, sample_number: u32, random_access_sample: u32) -> DtviFrame {
    DtviFrame {
        frame_number: DisplayIdx(frame_number),
        sample_number: DecodeIdx(sample_number),
        random_access_sample: DecodeIdx(random_access_sample),
        file_offset: 0,
        pts: 0,
        dts: 0,
        duration: 1001,
        flags: 0,
    }
}

#[test]
fn verify_against_dtvi_succeeds_on_matching_synthetic_data() {
    let samples = reordered_samples();
    let map = DisplayDecodeMap::build(&samples).expect("同値は無いはず");

    let dtvi = Dtvi {
        format_version: 1,
        header: Default::default(),
        frames: vec![
            frame(0, 0, 0),
            frame(1, 2, 0),
            frame(2, 3, 0),
            frame(3, 1, 0),
        ],
    };

    verify_against_dtvi(&map, &dtvi).expect("一致するはず");
}

#[test]
fn verify_against_dtvi_reports_row_and_both_values_on_mismatch() {
    let samples = reordered_samples();
    let map = DisplayDecodeMap::build(&samples).expect("同値は無いはず");

    let dtvi = Dtvi {
        format_version: 1,
        header: Default::default(),
        frames: vec![
            frame(0, 0, 0),
            frame(1, 42, 0),
            frame(2, 3, 0),
            frame(3, 1, 0),
        ],
    };

    let err = verify_against_dtvi(&map, &dtvi).expect_err("不一致なので失敗するはず");
    let message = err.message();
    assert!(
        message.contains('1'),
        "行番号 (frame_number=1) を含むこと: {message}"
    );
    assert!(
        message.contains("42"),
        ".dtvi 側の値 (42) を含むこと: {message}"
    );
    assert!(
        message.contains('2'),
        "自前導出の値 (2) を含むこと: {message}"
    );
}

#[test]
fn times_beyond_64_bits_are_found() {
    let mut samples = reordered_samples();
    assert!(check_times_fit(&samples));
    samples[1].cts_offset = i64::MAX;
    assert!(!check_times_fit(&samples));
    samples[1].cts_offset = i64::MAX - 1000;
    assert!(check_times_fit(&samples));
}

#[test]
fn mismatches_are_told_apart() {
    let samples = reordered_samples();
    let map = DisplayDecodeMap::build(&samples).expect("no two samples share a time");
    let dtvi = |frames| Dtvi { format_version: 1, header: Vec::new(), frames };
    assert_eq!(
        verify_against_dtvi(&map, &dtvi(vec![frame(9, 0, 0)])),
        Err(DtviMismatch::MissingFrame {
            frame_number: DisplayIdx(9),
            sample_number: DecodeIdx(0)
        })
    );
    assert_eq!(
        verify_against_dtvi(&map, &dtvi(vec![frame(1, 3, 0)])),
        Err(DtviMismatch::SampleNumber {
            frame_number: DisplayIdx(1),
            indexed: DecodeIdx(3),
            derived: DecodeIdx(2)
        })
    );
    assert_eq!(
        verify_against_dtvi(&map, &dtvi(vec![frame(1, 2, 1)])),
        Err(DtviMismatch::RandomAccess {
            frame_number: DisplayIdx(1),
            indexed: DecodeIdx(1),
            derived: DecodeIdx(0)
        })
    );
}
