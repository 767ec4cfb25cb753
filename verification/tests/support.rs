use tachikaze::dtvi::{Dtvi, DtviFrame, FLAG_LEADING_SAMPLE, FLAG_REQUIRES_EARLIER_RAP};
use tachikaze::mp4io::boxes::{Codec, Moov, Stbl, StszSamples, Trak};
use tachikaze::mp4io::support::{check_supported, UnsupportedInput};
use tachikaze::order::{DecodeIdx, DisplayIdx};

fn trak_with_codecs(codecs: Vec<Codec>) -> Trak {
    Trak {
        timescale: 0,
        has_edit_list: false,
        stbl: Stbl {
            codecs,
            stsz: StszSamples::Different { sizes: Vec::new() },
            stts: Vec::new(),
            ctts: None,
            stss: None,
            stsc: Vec::new(),
            stco: None,
            co64: None,
        },
    }
}

fn video_trak() -> Trak {
    trak_with_codecs(vec![Codec::Avc1])
}

fn audio_trak() -> Trak {
    trak_with_codecs(vec![Codec::Opus])
}

fn aac_trak() -> Trak {
    trak_with_codecs(vec![Codec::Mp4a])
}

fn valid_moov() -> Moov {
    Moov { timescale: 0, trak: vec![video_trak(), audio_trak()] }
}

fn closed_gop_dtvi() -> Dtvi {
    Dtvi {
        format_version: 1,
        header: Vec::new(),
        frames: vec![DtviFrame {
            frame_number: DisplayIdx(0),
            sample_number: DecodeIdx(0),
            random_access_sample: DecodeIdx(0),
            file_offset: 0,
            pts: 0,
            dts: 0,
            duration: 1001,
            flags: 0,
        }],
    }
}

#[test]
fn accepts_normal_input() {
    let moov = valid_moov();
    let dtvi = closed_gop_dtvi();
    assert!(check_supported(&moov, Some(&dtvi)).is_ok());
}

#[test]
fn accepts_aac_as_single_audio_track() {
    let moov = Moov {
        timescale: 0,
        trak: vec![video_trak(), aac_trak()],
    };
    let dtvi = closed_gop_dtvi();
    assert!(check_supported(&moov, Some(&dtvi)).is_ok());
}

#[test]
fn rejects_edit_list() {
    let mut moov = valid_moov();
    moov.trak[0].has_edit_list = true;

    let err = check_supported(&moov, Some(&closed_gop_dtvi())).unwrap_err();
    assert!(err.reason.contains("edit list"));
    assert!(err.suggestion.is_some());
}

#[test]
fn rejects_multiple_stsd_entries() {
    let mut moov = valid_moov();
    moov.trak[0].stbl.codecs.push(Codec::Avc1);

    let err = check_supported(&moov, Some(&closed_gop_dtvi())).unwrap_err();
    assert!(err.reason.contains("stsd"));
}

#[test]
fn rejects_open_gop_via_leading_sample_flag() {
    let moov = valid_moov();
    let mut dtvi = closed_gop_dtvi();
    dtvi.frames[0].flags |= FLAG_LEADING_SAMPLE;

    let err = check_supported(&moov, Some(&dtvi)).unwrap_err();
    assert!(err.reason.contains("オープン GOP"));
}

#[test]
fn rejects_open_gop_via_requires_earlier_rap_flag() {
    let moov = valid_moov();
    let mut dtvi = closed_gop_dtvi();
    dtvi.frames[0].flags |= FLAG_REQUIRES_EARLIER_RAP;

    let err = check_supported(&moov, Some(&dtvi)).unwrap_err();
    assert!(err.reason.contains("オープン GOP"));
}

#[test]
fn rejects_missing_dtvi() {
    let moov = valid_moov();
    let err = check_supported(&moov, None).unwrap_err();
    assert!(err.reason.contains(".dtvi"));
}

#[test]
fn rejects_multiple_audio_tracks() {
    let mut moov = valid_moov();
    moov.trak.push(audio_trak());

    let err = check_supported(&moov, Some(&closed_gop_dtvi())).unwrap_err();
    assert!(err.reason.contains("音声トラック"));
}

#[test]
fn rejects_subtitle_like_track() {
    let mut moov = valid_moov();
    moov.trak.push(trak_with_codecs(Vec::new()));

    let err = check_supported(&moov, Some(&closed_gop_dtvi())).unwrap_err();
    assert!(err.reason.contains("音声トラック"));
}

#[test]
fn rejects_zero_video_tracks() {
    let mut moov = valid_moov();
    moov.trak.remove(0);

    let err = check_supported(&moov, Some(&closed_gop_dtvi())).unwrap_err();
    assert!(err.reason.contains("映像トラック"));
}

#[test]
fn rejects_multiple_video_tracks() {
    let mut moov = valid_moov();
    moov.trak.push(video_trak());

    let err = check_supported(&moov, Some(&closed_gop_dtvi())).unwrap_err();
    assert!(err.reason.contains("映像トラック"));
}

#[test]
fn display_formats_reason_and_suggestion() {
    let err = UnsupportedInput::with_suggestion("reason line".to_string(), "suggestion line".to_string());
    let text = err.message();
    assert_eq!(text, "error: reason line\n       suggestion line");
}

#[test]
fn display_formats_reason_only() {
    let err = UnsupportedInput::new("reason line".to_string());
    assert_eq!(err.message(), "error: reason line");
}
