use tachikaze::mp4io::boxes::{
    Codec, CttsEntry, Moov, Stbl, StscEntry, StszSamples, SttsEntry, Trak,
};
use tachikaze::mp4io::interleave::interleave;
use tachikaze::mp4io::read::{
    samples, search_moov, try_samples, CountTable, MoovSearch, SampleInfo, SampleTableError,
};
use tachikaze::mp4io::write::{
    build_ftyp, build_stsc_entries, check_keep_lists, check_sums_fit, chunk_track, plan_output,
    resolve_tracks, try_resolve_tracks, WriteError,
};
use tachikaze::order::DecodeIdx;

/// Starts of chunks in the order of their seconds.
fn start_key(units: u64, units_per_second: u64) -> u64 {
    (units as f64 / units_per_second as f64).to_bits()
}

fn stsc(first_chunk: u32, samples_per_chunk: u32) -> StscEntry {
    StscEntry { first_chunk, samples_per_chunk, sample_description_index: 1 }
}

fn video() -> Trak {
    Trak {
        timescale: 1000,
        has_edit_list: false,
        stbl: Stbl {
            codecs: vec![Codec::Avc1],
            stsz: StszSamples::Different { sizes: vec![10, 20, 30, 40] },
            stts: vec![SttsEntry { sample_count: 4, sample_delta: 500 }],
            ctts: Some(vec![
                CttsEntry { sample_count: 1, sample_offset: 0 },
                CttsEntry { sample_count: 3, sample_offset: -250 },
            ]),
            stss: Some(vec![1, 3]),
            stsc: vec![stsc(1, 2)],
            stco: Some(vec![100, 200]),
            co64: None,
        },
    }
}

fn audio() -> Trak {
    Trak {
        timescale: 2000,
        has_edit_list: false,
        stbl: Stbl {
            codecs: vec![Codec::Opus],
            stsz: StszSamples::Identical { count: 6, size: 5 },
            stts: vec![SttsEntry { sample_count: 6, sample_delta: 700 }],
            ctts: None,
            stss: None,
            stsc: vec![stsc(1, 3)],
            stco: None,
            co64: Some(vec![150, 280]),
        },
    }
}

fn moov() -> Moov {
    Moov { timescale: 1000, trak: vec![video(), audio()] }
}

fn keep(indices: &[u32]) -> Vec<DecodeIdx> {
    indices.iter().map(|&i| DecodeIdx(i)).collect()
}

fn input() -> Vec<u8> {
    (0..400u32).map(|i| (i * 7 % 251) as u8).collect()
}

fn bytes_of(file: &[u8], sample: &SampleInfo) -> Vec<u8> {
    let start = sample.file_offset as usize;
    file[start..start + sample.size as usize].to_vec()
}

#[test]
fn output_holds_the_kept_samples_bit_for_bit() {
    let moov = moov();
    let input = input();
    let keep = vec![keep(&[2, 3, 0, 1]), keep(&[0, 1, 2, 4])];
    let kept = resolve_tracks(&moov, input.len() as u64, &keep).expect("the lists are in range");
    assert!(check_sums_fit(&moov, &kept));
    let plan = plan_output(&moov, &kept, start_key).expect("the output is small");

    let mut output = plan.head.clone();
    assert_eq!(output.len() as u64, plan.layout.body_start);
    for span in &plan.copies {
        let start = span.file_offset as usize;
        output.extend_from_slice(&input[start..start + span.size as usize]);
    }
    assert_eq!(output.len() as u64, plan.layout.body_start + 100 + 20);

    assert_eq!(plan.tracks.len(), 2);
    for track in &plan.tracks {
        let restored = samples(&track.stbl, output.len() as u64).expect("the tables are sound");
        let wanted = &kept[track.track_index];
        assert_eq!(restored.len(), wanted.len());
        for (got, want) in restored.iter().zip(wanted) {
            assert_eq!(bytes_of(&output, got), bytes_of(&input, want));
            assert_eq!(got.duration, want.duration);
            assert_eq!(got.cts_offset, want.cts_offset);
            assert_eq!(got.is_sync, want.is_sync);
        }
    }
    assert_eq!(plan.tracks[0].media_duration, 2000);
    assert_eq!(plan.tracks[0].track_duration, 2000);
    assert_eq!(plan.tracks[1].media_duration, 2800);
    assert_eq!(plan.tracks[1].track_duration, 1400);
    assert_eq!(plan.movie_duration, 2000);
}

#[test]
fn track_without_kept_samples_is_left_out() {
    let moov = moov();
    let keep = vec![keep(&[0]), keep(&[])];
    let kept = resolve_tracks(&moov, 400, &keep).expect("the lists are in range");
    let plan = plan_output(&moov, &kept, start_key).expect("the output is small");
    let indices: Vec<usize> = plan.tracks.iter().map(|t| t.track_index).collect();
    assert_eq!(indices, vec![0]);
}

#[test]
fn keep_lists_that_do_not_fit_are_told_apart() {
    let moov = moov();
    assert_eq!(
        resolve_tracks(&moov, 400, &vec![keep(&[0])]),
        Err(WriteError::KeepListCount { keep_lists: 1, tracks: 2 })
    );
    assert_eq!(
        resolve_tracks(&moov, 400, &vec![keep(&[0]), keep(&[6])]),
        Err(WriteError::KeepOutOfRange { track_index: 1, index: 6, sample_count: 6 })
    );
    assert_eq!(
        resolve_tracks(&moov, 400, &vec![keep(&[]), keep(&[])]),
        Err(WriteError::NothingKept)
    );
    assert_eq!(
        resolve_tracks(&moov, 99, &vec![keep(&[0]), keep(&[0])]),
        Err(WriteError::SampleTable {
            error: SampleTableError::TotalSizeExceedsFile { total: 100, file_len: 99 }
        })
    );
    let error = resolve_tracks(&moov, 400, &vec![keep(&[0]), keep(&[6])]).unwrap_err();
    assert!(error.message().contains('6'));
}

#[test]
fn file_type_names_the_brands() {
    assert_eq!(
        build_ftyp(),
        Ok(b"\x00\x00\x00\x20ftypisom\x00\x00\x02\x00isomiso2avc1mp41".to_vec())
    );
}

#[test]
fn chunks_hold_a_second_each_and_follow_each_other() {
    let kept = samples(&audio().stbl, 400).expect("the tables are sound");
    let chunks = chunk_track(&kept, 2000, 1);
    let counts: Vec<u32> = chunks.iter().map(|c| c.sample_count).collect();
    assert_eq!(counts.iter().sum::<u32>(), 6);
    let mut next = 0;
    for chunk in &chunks {
        assert_eq!(chunk.track_index, 1);
        assert_eq!(chunk.start_sample, next);
        assert_eq!(chunk.start_units, 700 * next as u64);
        next += chunk.sample_count as usize;
    }
}

#[test]
fn interleaving_orders_by_time_and_keeps_the_order_of_each_track() {
    let kept = vec![
        samples(&video().stbl, 400).expect("the tables are sound"),
        samples(&audio().stbl, 400).expect("the tables are sound"),
    ];
    let chunks = interleave(&kept, &vec![1000, 2000], start_key);
    let starts: Vec<u64> = chunks
        .iter()
        .map(|c| start_key(c.start_units, c.units_per_second))
        .collect();
    assert!(starts.windows(2).all(|w| w[0] <= w[1]));
    for track in 0..2 {
        let first_samples: Vec<usize> = chunks
            .iter()
            .filter(|c| c.track_index == track)
            .map(|c| c.start_sample)
            .collect();
        assert!(first_samples.windows(2).all(|w| w[0] < w[1]));
    }
    assert_eq!(chunks[0].track_index, 0);
}

#[test]
fn equal_chunk_sizes_share_an_entry() {
    let entries = build_stsc_entries(&vec![3, 3, 2, 2, 3]);
    let rows: Vec<(u32, u32)> =
        entries.iter().map(|e| (e.first_chunk, e.samples_per_chunk)).collect();
    assert_eq!(rows, vec![(1, 3), (3, 2), (5, 3)]);
    assert!(build_stsc_entries(&Vec::new()).is_empty());
}

#[test]
fn tables_beyond_the_numbers_are_no_samples() {
    let mut stbl = audio().stbl;
    stbl.co64 = Some(vec![u64::MAX - 9, 0]);
    assert!(try_samples(&stbl, 400).is_none());
    stbl.co64 = Some(vec![u64::MAX - 15, 0]);
    assert_eq!(try_samples(&stbl, 400).map(|r| r.map(|s| s.len())), Some(Ok(6)));
    stbl.stsc[0].first_chunk = 0;
    assert!(try_samples(&stbl, 400).is_none());
    assert_eq!(
        try_samples(&stbl, 3).map(|r| r.is_err()),
        Some(true),
        "rejected sizes are reported before the chunks are walked"
    );
}

#[test]
fn unreadable_track_counts_only_where_it_is_reached() {
    let mut broken = audio();
    broken.stbl.stsc[0].first_chunk = 0;
    let moov = Moov { timescale: 1000, trak: vec![video(), broken] };
    assert!(try_resolve_tracks(&moov, 400, &vec![keep(&[0]), keep(&[0])]).is_none());
    assert!(matches!(
        try_resolve_tracks(&moov, 400, &vec![keep(&[9999]), keep(&[0])]),
        Some(Err(WriteError::KeepOutOfRange { track_index: 0, index: 9999, .. }))
    ));
    let counted = WriteError::KeepListCount { keep_lists: 1, tracks: 2 };
    assert_eq!(
        try_resolve_tracks(&moov, 400, &vec![keep(&[0])]),
        Some(Err(counted))
    );
    assert_eq!(check_keep_lists(&moov, &vec![keep(&[0])]), Err(counted));
    assert_eq!(check_keep_lists(&moov, &vec![keep(&[]), keep(&[])]), Ok(()));
}

#[test]
fn sizes_beyond_the_numbers_are_told_to_the_user() {
    assert_eq!(
        SampleTableError::TotalSizeOverflow { index: 12 }.message(),
        "stsz のサイズ総和が u64 を overflow します（sample 12）"
    );
}

#[test]
fn count_errors_name_the_table() {
    let mut stbl = audio().stbl;
    stbl.stts[0].sample_count = 7;
    assert_eq!(
        samples(&stbl, 400),
        Err(SampleTableError::CountMismatch { table: CountTable::Stts, sum: 7, total: 6 })
    );
    stbl.stsz = StszSamples::Different { sizes: vec![5, 401] };
    assert_eq!(
        samples(&stbl, 400),
        Err(SampleTableError::SampleSizeAtExceedsFile { index: 1, size: 401, file_len: 400 })
    );
    stbl.stsz = StszSamples::Identical { count: 1, size: 401 };
    assert_eq!(
        samples(&stbl, 400),
        Err(SampleTableError::SampleSizeExceedsFile { size: 401, file_len: 400 })
    );
    stbl.stsz = StszSamples::Identical { count: 401, size: 0 };
    assert_eq!(
        samples(&stbl, 400),
        Err(SampleTableError::SampleCountExceedsFile { count: 401, file_len: 400 })
    );
}

#[test]
fn boxes_before_the_movie_box_are_skipped() {
    assert_eq!(search_moov(*b"moov", Some(8)), MoovSearch::Decode);
    assert_eq!(search_moov(*b"free", Some(24)), MoovSearch::Skip(24));
    assert_eq!(search_moov(*b"mdat", None), MoovSearch::Missing);
}
