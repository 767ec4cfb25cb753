use mp4_atom::{Co64, Decode, Encode};
use tachikaze::mp4io::boxes::{CttsEntry, SttsEntry};
use tachikaze::mp4io::read::SampleInfo;
use tachikaze::mp4io::write::{
    plan_mdat_layout, run_length_encode_ctts, run_length_encode_stts, write_mdat_header,
    MDAT_HEADER_LEN, MDAT_LARGESIZE_HEADER_LEN,
};

fn sample_info(duration: u32, cts_offset: i64) -> SampleInfo {
    SampleInfo {
        file_offset: 0,
        size: 0,
        duration,
        cts_offset,
        is_sync: false,
    }
}

fn expand_stts(entries: &[SttsEntry]) -> Vec<u32> {
    entries
        .iter()
        .flat_map(|e| std::iter::repeat_n(e.sample_delta, e.sample_count as usize))
        .collect()
}

fn expand_ctts(entries: &[CttsEntry]) -> Vec<i64> {
    entries
        .iter()
        .flat_map(|e| std::iter::repeat_n(e.sample_offset, e.sample_count as usize))
        .collect()
}

#[test]
fn plan_mdat_layout_computes_normal_case() {
    let layout = plan_mdat_layout(32, 1000).expect("通常サイズは成功すること");
    assert_eq!(layout.header_len, MDAT_HEADER_LEN);
    assert!(!layout.use_largesize);
    assert_eq!(layout.body_start, 40);
    assert!(!layout.use_co64);
}

#[test]
fn plan_mdat_layout_errors_on_overflow() {
    let err = plan_mdat_layout(u64::MAX, 1).unwrap_err();
    assert!(err.message().contains("オーバーフロー"));
}

#[test]
fn plan_mdat_layout_accepts_boundary_just_under_u32_max() {
    let body_len = u32::MAX as u64 - 40;
    let layout = plan_mdat_layout(32, body_len).expect("境界ちょうどは成功すること");
    assert!(!layout.use_largesize);
    assert!(!layout.use_co64);
    assert_eq!(layout.body_start + body_len, u32::MAX as u64);
}

#[test]
fn plan_mdat_layout_uses_largesize_and_co64_when_mdat_body_exceeds_4gb() {
    let body_len = u32::MAX as u64 + 1_000_000;
    let layout = plan_mdat_layout(32, body_len).expect("largesize で成功すること");
    assert_eq!(layout.header_len, MDAT_LARGESIZE_HEADER_LEN);
    assert!(layout.use_largesize);
    assert_eq!(layout.body_start, 32 + MDAT_LARGESIZE_HEADER_LEN);
    assert!(layout.use_co64);
}

#[test]
fn plan_mdat_layout_uses_co64_without_largesize_when_only_end_offset_exceeds_u32_max() {
    let body_len = 1000u64;
    let huge_ftyp_len = u32::MAX as u64;
    let layout =
        plan_mdat_layout(huge_ftyp_len, body_len).expect("成功すること(co64 で救える)");
    assert!(
        !layout.use_largesize,
        "mdat 本体自体は小さいので largesize は不要"
    );
    assert!(
        layout.use_co64,
        "mdat の終端オフセットが u32::MAX を超えるので co64 が必要"
    );
}

#[test]
fn write_mdat_header_writes_normal_8_byte_header() {
    let layout = plan_mdat_layout(32, 1000).unwrap();
    let mut buf: Vec<u8> = Vec::new();
    write_mdat_header(&mut buf, &layout, 1000).expect("書き込みが成功すること");

    assert_eq!(buf.len(), 8);
    let size = u32::from_be_bytes(buf[0..4].try_into().unwrap());
    assert_ne!(size, 1, "largesize のプレースホルダではないこと");
    assert_eq!(size, 1008, "size フィールドは本体+ヘッダの合計であること");
    assert_eq!(&buf[4..8], b"mdat");
}

#[test]
fn write_mdat_header_writes_largesize_16_byte_header_when_body_exceeds_4gb() {
    let body_len = u32::MAX as u64 + 1_000_000;
    let layout = plan_mdat_layout(32, body_len).unwrap();
    let mut buf: Vec<u8> = Vec::new();
    write_mdat_header(&mut buf, &layout, body_len).expect("書き込みが成功すること");

    assert_eq!(buf.len(), 16);
    let placeholder = u32::from_be_bytes(buf[0..4].try_into().unwrap());
    assert_eq!(placeholder, 1, "largesize のプレースホルダであること");
    assert_eq!(&buf[4..8], b"mdat");
    let largesize = u64::from_be_bytes(buf[8..16].try_into().unwrap());
    assert_eq!(
        largesize,
        body_len + MDAT_LARGESIZE_HEADER_LEN,
        "largesize フィールドは本体+16バイトヘッダの合計であること"
    );
}

#[test]
fn co64_roundtrips_via_encode_decode() {
    let co64 = Co64 {
        entries: vec![0, 1_000, u32::MAX as u64 + 12_345, 5_000_000_000],
    };
    let mut buf = Vec::new();
    co64.encode(&mut buf).expect("encode が成功すること");

    let mut slice = buf.as_slice();
    let decoded = Co64::decode(&mut slice).expect("decode が成功すること");
    assert_eq!(decoded, co64, "co64 のエントリが完全に保持されること");
}

#[test]
fn run_length_encode_stts_expands_back_to_original_durations() {
    let durations = [3001, 3001, 3001, 3001, 3001, 3002, 3001, 3001, 3001, 3001];
    let kept: Vec<SampleInfo> = durations.iter().map(|&d| sample_info(d, 0)).collect();

    let encoded = run_length_encode_stts(&kept);

    assert_eq!(encoded.len(), 3);

    let expanded = expand_stts(&encoded);
    assert_eq!(expanded, durations.to_vec());
}

#[test]
fn run_length_encode_stts_handles_all_same_duration() {
    let kept: Vec<SampleInfo> = (0..50).map(|_| sample_info(3003, 0)).collect();
    let encoded = run_length_encode_stts(&kept);

    assert_eq!(encoded.len(), 1);
    assert_eq!(encoded[0].sample_count, 50);
    assert_eq!(encoded[0].sample_delta, 3003);

    let expanded = expand_stts(&encoded);
    assert_eq!(expanded, vec![3003; 50]);
}

#[test]
fn run_length_encode_stts_handles_empty_input() {
    let kept: Vec<SampleInfo> = Vec::new();
    let encoded = run_length_encode_stts(&kept);
    assert!(encoded.is_empty());
}

#[test]
fn run_length_encode_ctts_expands_back_to_original_offsets_including_negative() {
    let offsets: Vec<i64> = vec![0, 0, 0, -1024, -1024, 512, 512, 512, -3, 0, 0];
    let kept: Vec<SampleInfo> = offsets.iter().map(|&o| sample_info(3001, o)).collect();

    let encoded = run_length_encode_ctts(&kept);

    assert_eq!(encoded.len(), 5);

    let expanded = expand_ctts(&encoded);
    assert_eq!(expanded, offsets);
}

#[test]
fn run_length_encode_ctts_handles_all_same_offset() {
    let kept: Vec<SampleInfo> = (0..50).map(|_| sample_info(3003, -7)).collect();
    let encoded = run_length_encode_ctts(&kept);

    assert_eq!(encoded.len(), 1);
    assert_eq!(encoded[0].sample_count, 50);
    assert_eq!(encoded[0].sample_offset, -7);

    let expanded = expand_ctts(&encoded);
    assert_eq!(expanded, vec![-7; 50]);
}

#[test]
fn run_length_encode_stts_compresses_hundred_thousand_constant_fps_samples() {
    const N: usize = 100_000;
    let kept: Vec<SampleInfo> = (0..N).map(|_| sample_info(3001, 0)).collect();

    let encoded = run_length_encode_stts(&kept);

    assert!(
        encoded.len() <= 50,
        "固定フレームレートの10万サンプルなら数十エントリ以下になるはず(実際: {})",
        encoded.len()
    );
    assert_eq!(
        encoded.len(),
        1,
        "全サンプル同じ duration なら1エントリになるはず"
    );

    let expanded = expand_stts(&encoded);
    assert_eq!(expanded.len(), N);
    assert!(expanded.iter().all(|&d| d == 3001));
}

#[test]
fn run_length_encode_ctts_compresses_hundred_thousand_samples_with_few_distinct_offsets() {
    const N: usize = 100_000;
    let pattern: [i64; 4] = [0, 3001, -3001, 0];
    let mut kept: Vec<SampleInfo> = Vec::with_capacity(N);
    let mut i = 0;
    while kept.len() < N {
        let offset = pattern[i % pattern.len()];
        for _ in 0..1000 {
            if kept.len() >= N {
                break;
            }
            kept.push(sample_info(3001, offset));
        }
        i += 1;
    }

    let encoded = run_length_encode_ctts(&kept);

    assert!(
        encoded.len() <= 200,
        "1000サンプルごとにしか値が変わらないなら数百エントリ以下になるはず(実際: {})",
        encoded.len()
    );

    let expanded = expand_ctts(&encoded);
    let original: Vec<i64> = kept.iter().map(|s| s.cts_offset).collect();
    assert_eq!(expanded, original);
}
