use std::time::Instant;

use tachikaze::mp4io::boxes::{
    Codec, CttsEntry, Moov, Stbl, StscEntry, StszSamples, SttsEntry, Trak,
};
use tachikaze::mp4io::read::{find_audio_track, find_video_track, is_audio_codec, samples};

fn empty_moov() -> Moov {
    Moov { timescale: 0, trak: Vec::new() }
}

fn empty_stbl() -> Stbl {
    Stbl {
        codecs: Vec::new(),
        stsz: StszSamples::Different { sizes: Vec::new() },
        stts: Vec::new(),
        ctts: None,
        stss: None,
        stsc: Vec::new(),
        stco: None,
        co64: None,
    }
}

fn trak_with_codec(codec: Codec) -> Trak {
    let mut stbl = empty_stbl();
    stbl.codecs.push(codec);
    Trak { timescale: 0, has_edit_list: false, stbl }
}

fn all_audio_codecs() -> Vec<Codec> {
    vec![
        Codec::Opus,
        Codec::Mp4a,
        Codec::Flac,
        Codec::Ac3,
        Codec::Eac3,
        Codec::Samr,
        Codec::Ipcm,
        Codec::Fpcm,
        Codec::Sowt,
        Codec::Twos,
        Codec::Lpcm,
        Codec::In24,
        Codec::In32,
        Codec::Fl32,
        Codec::Fl64,
        Codec::S16l,
    ]
}

#[test]
fn find_video_track_returns_none_on_empty_moov() {
    let moov = empty_moov();
    assert!(find_video_track(&moov).is_none());
    assert!(find_audio_track(&moov).is_none());
}

#[test]
fn all_audio_codecs_are_recognized_as_audio() {
    let codecs = all_audio_codecs();
    assert_eq!(codecs.len(), 16);
    for codec in &codecs {
        assert!(is_audio_codec(codec), "{codec:?} は音声と判定されるべき");
    }
}

#[test]
fn video_subtitle_and_unknown_are_not_audio() {
    assert!(!is_audio_codec(&Codec::Avc1));
    assert!(!is_audio_codec(&Codec::Tx3g));
    assert!(!is_audio_codec(&Codec::Other));
}

#[test]
fn find_audio_track_matches_aac_track() {
    let aac = all_audio_codecs()
        .into_iter()
        .find(|c| matches!(c, Codec::Mp4a))
        .unwrap();
    let moov = Moov {
        timescale: 0,
        trak: vec![
            trak_with_codec(Codec::Avc1),
            trak_with_codec(aac),
        ],
    };

    assert!(find_video_track(&moov).is_some());
    assert!(find_audio_track(&moov).is_some());
}

const SYNTH_FILE_LEN: u64 = 1_000_000;

#[test]
fn samples_with_identical_stsz_sizes() {
    let mut stbl = empty_stbl();
    stbl.stsz = StszSamples::Identical {
        count: 5,
        size: 100,
    };
    stbl.stco = Some(vec![1000, 2000]);
    stbl.stsc = vec![
        StscEntry {
            first_chunk: 1,
            samples_per_chunk: 3,
            sample_description_index: 1,
        },
        StscEntry {
            first_chunk: 2,
            samples_per_chunk: 2,
            sample_description_index: 1,
        },
    ];
    stbl.stts = vec![SttsEntry {
        sample_count: 5,
        sample_delta: 1000,
    }];

    let got = samples(&stbl, SYNTH_FILE_LEN).expect("正常な表は成功すること");

    let expected_offsets = [1000u64, 1100, 1200, 2000, 2100];
    assert_eq!(got.len(), 5);
    for (i, (info, &offset)) in got.iter().zip(expected_offsets.iter()).enumerate() {
        assert_eq!(info.file_offset, offset, "sample {i} の file_offset");
        assert_eq!(info.size, 100, "sample {i} の size");
        assert_eq!(info.duration, 1000, "sample {i} の duration");
        assert_eq!(info.cts_offset, 0, "sample {i} の cts_offset");
        assert!(
            info.is_sync,
            "stss が無いので全サンプルが同期扱いであること"
        );
    }
}

#[test]
fn samples_apply_ctts_and_stss_correctly() {
    let mut stbl = empty_stbl();
    stbl.stsz = StszSamples::Different {
        sizes: vec![10, 20, 30, 40],
    };
    stbl.stco = Some(vec![0]);
    stbl.stsc = vec![StscEntry {
        first_chunk: 1,
        samples_per_chunk: 4,
        sample_description_index: 1,
    }];
    stbl.stts = vec![SttsEntry {
        sample_count: 4,
        sample_delta: 512,
    }];
    stbl.ctts = Some(vec![
            CttsEntry {
                sample_count: 2,
                sample_offset: 1024,
            },
            CttsEntry {
                sample_count: 2,
                sample_offset: -256,
            },
        ]);
    stbl.stss = Some(vec![1, 3]);

    let got = samples(&stbl, SYNTH_FILE_LEN).expect("正常な表は成功すること");

    assert_eq!(got.len(), 4);
    let expected_offsets = [0u64, 10, 30, 60];
    let expected_cts = [1024i64, 1024, -256, -256];
    let expected_sync = [true, false, true, false];
    for i in 0..4 {
        assert_eq!(got[i].file_offset, expected_offsets[i], "sample {i}");
        assert_eq!(got[i].duration, 512, "sample {i} の duration");
        assert_eq!(
            got[i].cts_offset, expected_cts[i],
            "sample {i} の cts_offset"
        );
        assert_eq!(
            got[i].is_sync, expected_sync[i],
            "sample {i} の is_sync (stss は1始まり)"
        );
    }
}

#[test]
fn samples_scale_linearly_for_one_hundred_thousand_samples() {
    const N: usize = 100_000;
    const BUDGET_MS: u128 = 500;

    let mut stbl = empty_stbl();
    stbl.stsz = StszSamples::Identical {
        count: N as u32,
        size: 100,
    };
    stbl.stco = Some((0..N as u32).map(|i| i * 100).collect());
    stbl.stsc = vec![StscEntry {
        first_chunk: 1,
        samples_per_chunk: 1,
        sample_description_index: 1,
    }];
    stbl.stts = vec![SttsEntry {
        sample_count: N as u32,
        sample_delta: 1,
    }];

    let file_len = (N as u64) * 100;
    let start = Instant::now();
    let got = samples(&stbl, file_len).expect("正常な表は成功すること");
    let elapsed = start.elapsed();

    assert_eq!(got.len(), N);
    assert!(
        elapsed.as_millis() < BUDGET_MS,
        "O(n) 実装なら 10 万サンプルは高速なはず(実測 {elapsed:?})。O(n^2) に戻っていないか確認すること。"
    );
}

fn minimal_valid_stbl() -> Stbl {
    let mut stbl = empty_stbl();
    stbl.stsz = StszSamples::Identical { count: 1, size: 10 };
    stbl.stco = Some(vec![0]);
    stbl.stsc = vec![StscEntry {
        first_chunk: 1,
        samples_per_chunk: 1,
        sample_description_index: 1,
    }];
    stbl.stts = vec![SttsEntry {
        sample_count: 1,
        sample_delta: 1,
    }];
    stbl
}

#[test]
fn samples_rejects_huge_identical_stsz_count_before_alloc() {
    let mut stbl = minimal_valid_stbl();
    stbl.stsz = StszSamples::Identical {
        count: u32::MAX,
        size: 0,
    };
    stbl.stts[0].sample_count = u32::MAX;
    let err = samples(&stbl, 100).expect_err("巨大 count はエラー");
    let msg = err.message();
    assert!(
        msg.contains("stsz sample count"),
        "確保前の件数エラーであること: {msg}"
    );
}

#[test]
fn samples_rejects_huge_identical_stsz_size() {
    let mut stbl = minimal_valid_stbl();
    stbl.stsz = StszSamples::Identical {
        count: 1,
        size: u32::MAX,
    };
    let err = samples(&stbl, 100).expect_err("巨大 size はエラー");
    let msg = err.message();
    assert!(
        msg.contains("stsz sample size"),
        "サイズ検証エラーであること: {msg}"
    );
}

#[test]
fn samples_rejects_identical_stsz_count_times_size_overflow() {
    let mut stbl = minimal_valid_stbl();
    stbl.stsz = StszSamples::Identical {
        count: u32::MAX,
        size: u32::MAX,
    };
    let err = samples(&stbl, u64::from(u32::MAX)).expect_err("count*size overflow");
    let msg = err.message();
    assert!(
        msg.contains("overflow") || msg.contains("超えて"),
        "乗算 overflow または合計超過であること: {msg}"
    );
}

#[test]
fn samples_rejects_identical_stsz_total_exceeding_file_len() {
    let mut stbl = minimal_valid_stbl();
    stbl.stsz = StszSamples::Identical {
        count: 10,
        size: 20,
    };
    stbl.stts[0].sample_count = 10;
    stbl.stsc[0].samples_per_chunk = 10;
    let err = samples(&stbl, 100).expect_err("合計サイズ超過");
    let msg = err.message();
    assert!(
        msg.contains("合計サイズ") || msg.contains("stsz"),
        "合計サイズ検証であること: {msg}"
    );
}

#[test]
fn samples_rejects_different_stsz_size_sum_overflow_and_mismatch() {
    let mut stbl = minimal_valid_stbl();
    stbl.stsz = StszSamples::Different {
        sizes: vec![50, 60],
    };
    stbl.stts[0].sample_count = 2;
    stbl.stsc[0].samples_per_chunk = 2;
    let err = samples(&stbl, 55).expect_err("個別 size 超過");
    assert!(
        err.message().contains("size"),
        "size 超過であること: {}",
        err.message()
    );

    stbl.stsz = StszSamples::Different {
        sizes: vec![40, 40],
    };
    let err = samples(&stbl, 70).expect_err("総和超過");
    assert!(
        err.message().contains("合計サイズ"),
        "総和超過であること: {}",
        err.message()
    );
}

#[test]
fn samples_rejects_stts_sample_count_mismatch_and_huge_before_expand() {
    let mut stbl = minimal_valid_stbl();
    stbl.stts[0].sample_count = u32::MAX;
    let err = samples(&stbl, SYNTH_FILE_LEN).expect_err("stts 不一致");
    assert!(
        err.message().contains("stts"),
        "stts 検証であること: {}",
        err.message()
    );

    stbl.stts = vec![
        SttsEntry {
            sample_count: u32::MAX,
            sample_delta: 1,
        },
        SttsEntry {
            sample_count: u32::MAX,
            sample_delta: 1,
        },
    ];
    let err = samples(&stbl, SYNTH_FILE_LEN).expect_err("stts sum overflow or mismatch");
    let msg = err.message();
    assert!(
        msg.contains("stts") || msg.contains("overflow"),
        "stts 合計の検証であること: {msg}"
    );
}

#[test]
fn samples_rejects_ctts_sample_count_mismatch() {
    let mut stbl = minimal_valid_stbl();
    stbl.ctts = Some(vec![CttsEntry {
            sample_count: u32::MAX,
            sample_offset: 0,
        }]);
    let err = samples(&stbl, SYNTH_FILE_LEN).expect_err("ctts 不一致");
    assert!(
        err.message().contains("ctts"),
        "ctts 検証であること: {}",
        err.message()
    );
}
