use mp4_atom::{Decode, DecodeAtom, Encode, Header};
use tachikaze::mp4io::boxes::{
    CttsEntry, Moov, Stbl, StscEntry, StszSamples, SttsEntry, Trak,
};
use tachikaze::mp4io::read::{samples, search_moov, MoovSearch, SampleInfo};
use tachikaze::mp4io::write::{
    check_keep_lists, check_sums_fit, plan_output, try_resolve_tracks, OutputPlan,
};
use tachikaze::order::DecodeIdx;

fn start_key(units: u64, units_per_second: u64) -> u64 {
    (units as f64 / units_per_second as f64).to_bits()
}

fn movie() -> Moov {
    let video = Stbl {
        codecs: Vec::new(),
        stsz: StszSamples::Different { sizes: vec![10, 0, 30, 40, 25] },
        stts: vec![
            SttsEntry { sample_count: 4, sample_delta: 500 },
            SttsEntry { sample_count: 1, sample_delta: 250 },
        ],
        ctts: Some(vec![
            CttsEntry { sample_count: 1, sample_offset: 0 },
            CttsEntry { sample_count: 4, sample_offset: 500 },
        ]),
        stss: Some(vec![1, 4]),
        stsc: vec![StscEntry {
            first_chunk: 1,
            samples_per_chunk: 3,
            sample_description_index: 1,
        }],
        stco: Some(vec![100, 200]),
        co64: None,
    };
    let audio = Stbl {
        codecs: Vec::new(),
        stsz: StszSamples::Identical { count: 6, size: 5 },
        stts: vec![SttsEntry { sample_count: 6, sample_delta: 700 }],
        ctts: None,
        stss: None,
        stsc: vec![StscEntry {
            first_chunk: 1,
            samples_per_chunk: 6,
            sample_description_index: 1,
        }],
        stco: None,
        co64: Some(vec![300]),
    };
    Moov {
        timescale: 1000,
        trak: vec![
            Trak { timescale: 1000, has_edit_list: false, stbl: video },
            Trak { timescale: 2000, has_edit_list: false, stbl: audio },
        ],
    }
}

fn encoded_tables(stbl: &Stbl) -> mp4_atom::Stbl {
    mp4_atom::Stbl {
        stsz: mp4_atom::Stsz {
            samples: match &stbl.stsz {
                StszSamples::Identical { count, size } => {
                    mp4_atom::StszSamples::Identical { count: *count, size: *size }
                }
                StszSamples::Different { sizes } => {
                    mp4_atom::StszSamples::Different { sizes: sizes.clone() }
                }
            },
        },
        stts: mp4_atom::Stts {
            entries: stbl
                .stts
                .iter()
                .map(|e| mp4_atom::SttsEntry {
                    sample_count: e.sample_count,
                    sample_delta: e.sample_delta,
                })
                .collect(),
        },
        ctts: stbl.ctts.as_ref().map(|entries| mp4_atom::Ctts {
            entries: entries
                .iter()
                .map(|e| mp4_atom::CttsEntry {
                    sample_count: e.sample_count,
                    sample_offset: e.sample_offset,
                })
                .collect(),
        }),
        stss: stbl.stss.as_ref().map(|entries| mp4_atom::Stss { entries: entries.clone() }),
        stsc: mp4_atom::Stsc {
            entries: stbl
                .stsc
                .iter()
                .map(|e| mp4_atom::StscEntry {
                    first_chunk: e.first_chunk,
                    samples_per_chunk: e.samples_per_chunk,
                    sample_description_index: e.sample_description_index,
                })
                .collect(),
        },
        stco: stbl.stco.as_ref().map(|entries| mp4_atom::Stco { entries: entries.clone() }),
        co64: stbl.co64.as_ref().map(|entries| mp4_atom::Co64 { entries: entries.clone() }),
        ..Default::default()
    }
}

fn decoded_tables(stbl: &mp4_atom::Stbl) -> Stbl {
    Stbl {
        codecs: Vec::new(),
        stsz: match &stbl.stsz.samples {
            mp4_atom::StszSamples::Identical { count, size } => {
                StszSamples::Identical { count: *count, size: *size }
            }
            mp4_atom::StszSamples::Different { sizes } => {
                StszSamples::Different { sizes: sizes.clone() }
            }
        },
        stts: stbl
            .stts
            .entries
            .iter()
            .map(|e| SttsEntry { sample_count: e.sample_count, sample_delta: e.sample_delta })
            .collect(),
        ctts: stbl.ctts.as_ref().map(|ctts| {
            ctts.entries
                .iter()
                .map(|e| CttsEntry { sample_count: e.sample_count, sample_offset: e.sample_offset })
                .collect()
        }),
        stss: stbl.stss.as_ref().map(|stss| stss.entries.clone()),
        stsc: stbl
            .stsc
            .entries
            .iter()
            .map(|e| StscEntry {
                first_chunk: e.first_chunk,
                samples_per_chunk: e.samples_per_chunk,
                sample_description_index: e.sample_description_index,
            })
            .collect(),
        stco: stbl.stco.as_ref().map(|stco| stco.entries.clone()),
        co64: stbl.co64.as_ref().map(|co64| co64.entries.clone()),
    }
}

fn written_movie(moov: &Moov, plan: &OutputPlan) -> Vec<u8> {
    let mut out = mp4_atom::Moov::default();
    out.mvhd.timescale = moov.timescale;
    out.mvhd.duration = plan.movie_duration;
    for track in &plan.tracks {
        let mut trak = mp4_atom::Trak::default();
        trak.tkhd.duration = track.track_duration;
        trak.mdia.mdhd.timescale = moov.trak[track.track_index].timescale;
        trak.mdia.mdhd.duration = track.media_duration;
        trak.mdia.mdhd.language = "und".to_string();
        trak.mdia.minf.stbl = encoded_tables(&track.stbl);
        out.trak.push(trak);
    }
    let mut bytes = Vec::new();
    out.encode(&mut bytes).expect("the movie is small");
    bytes
}

fn find_movie(file: &[u8]) -> mp4_atom::Moov {
    let mut rest = file;
    loop {
        let header = Header::decode(&mut rest).expect("an atom starts here");
        match search_moov(header.kind.into(), header.size.map(|size| size as u64)) {
            MoovSearch::Decode => {
                return mp4_atom::Moov::decode_atom(&header, &mut rest).expect("a sound movie")
            }
            MoovSearch::Skip(size) => rest = &rest[size as usize..],
            MoovSearch::Missing => panic!("no movie"),
        }
    }
}

fn keep(indices: &[u32]) -> Vec<DecodeIdx> {
    indices.iter().map(|&i| DecodeIdx(i)).collect()
}

fn input() -> Vec<u8> {
    (0..330u32).map(|i| (i * 7 % 251) as u8).collect()
}

fn write(moov: &Moov, input: &[u8], keep: &Vec<Vec<DecodeIdx>>) -> Vec<u8> {
    check_keep_lists(moov, keep).expect("one list per track");
    let kept = try_resolve_tracks(moov, input.len() as u64, keep)
        .expect("the tables can be read")
        .expect("the lists are in range");
    assert!(check_sums_fit(moov, &kept));
    let plan = plan_output(moov, &kept, start_key).expect("the output is small");
    let mut file = plan.head.clone();
    for span in &plan.copies {
        let start = span.file_offset as usize;
        file.extend_from_slice(&input[start..start + span.size as usize]);
    }
    file.extend(written_movie(moov, &plan));
    file
}

fn bytes_of(file: &[u8], sample: &SampleInfo) -> Vec<u8> {
    let start = sample.file_offset as usize;
    file[start..start + sample.size as usize].to_vec()
}

fn assert_reads_back(moov: &Moov, input: &[u8], keep: &Vec<Vec<DecodeIdx>>) {
    let file = write(moov, input, keep);
    let read_back = find_movie(&file);
    let included: Vec<usize> = (0..keep.len()).filter(|&t| !keep[t].is_empty()).collect();
    assert_eq!(read_back.trak.len(), included.len());
    for (trak, &t) in read_back.trak.iter().zip(&included) {
        let all = samples(&moov.trak[t].stbl, input.len() as u64).expect("sound tables");
        let got = samples(&decoded_tables(&trak.mdia.minf.stbl), file.len() as u64)
            .expect("sound tables");
        assert_eq!(got.len(), keep[t].len());
        for (info, index) in got.iter().zip(&keep[t]) {
            let sample = &all[index.0 as usize];
            assert_eq!(*info, SampleInfo { file_offset: info.file_offset, ..*sample });
            assert_eq!(bytes_of(&file, info), bytes_of(input, sample));
        }
        let total: u64 = got.iter().map(|s| s.duration as u64).sum();
        assert_eq!(trak.mdia.mdhd.duration, total);
        assert_eq!(trak.mdia.mdhd.timescale, moov.trak[t].timescale);
    }
}

#[test]
fn written_file_reads_back_as_the_kept_samples() {
    let (moov, input) = (movie(), input());
    assert_reads_back(&moov, &input, &vec![keep(&[3, 4, 0, 1]), keep(&[0, 1, 2, 4])]);
    assert_reads_back(&moov, &input, &vec![keep(&[0, 1, 2, 3, 4]), keep(&[0, 1, 2, 3, 4, 5])]);
}

#[test]
fn written_file_has_no_track_without_kept_samples() {
    let (moov, input) = (movie(), input());
    assert_reads_back(&moov, &input, &vec![keep(&[]), keep(&[5, 5])]);
    assert_reads_back(&moov, &input, &vec![keep(&[1]), keep(&[])]);
}

#[test]
fn atoms_of_a_written_file_follow_each_other() {
    let (moov, input) = (movie(), input());
    let file = write(&moov, &input, &vec![keep(&[0, 2]), keep(&[])]);
    assert_eq!(&file[..8], b"\x00\x00\x00\x20ftyp");
    assert_eq!(&file[32..40], b"\x00\x00\x00\x30mdat");
    assert_eq!(&file[32 + 48 + 4..32 + 48 + 8], b"moov");
    let moov_len = u32::from_be_bytes([file[80], file[81], file[82], file[83]]) as usize;
    assert_eq!(80 + moov_len, file.len());
}
