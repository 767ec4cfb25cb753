use tachikaze::mp4io::boxes::{Codec, Moov, Stbl, StszSamples, Trak};
use tachikaze::prepare::{
    build_strip_args, inspect_moov, prepared_outcome, unprepared_outcome, MoovInspection,
    SubtitleFormat,
};

fn trak_with_codec(codec: Codec) -> Trak {
    Trak {
        timescale: 0,
        has_edit_list: false,
        stbl: Stbl {
            codecs: vec![codec],
            stsz: StszSamples::Different { sizes: Vec::new() },
            stts: Vec::new(),
            ctts: None,
            stss: None,
            stsc: Vec::new(),
            stco: None,
            co64: None,
        },
    }
}

fn video_trak() -> Trak {
    trak_with_codec(Codec::Avc1)
}

fn audio_trak() -> Trak {
    trak_with_codec(Codec::Opus)
}

#[test]
fn inspect_moov_reports_no_edit_list_and_no_subtitle_for_plain_input() {
    let moov = Moov {
        timescale: 0,
        trak: vec![video_trak(), audio_trak()],
    };
    let inspection = inspect_moov(&moov);
    assert!(!inspection.has_edit_list);
    assert_eq!(inspection.subtitle, None);
}

#[test]
fn inspect_moov_detects_edit_list() {
    let mut moov = Moov {
        timescale: 0,
        trak: vec![video_trak(), audio_trak()],
    };
    moov.trak[0].has_edit_list = true;

    let inspection = inspect_moov(&moov);
    assert!(inspection.has_edit_list);
}

#[test]
fn inspect_moov_detects_tx3g_subtitle() {
    let moov = Moov {
        timescale: 0,
        trak: vec![
            video_trak(),
            audio_trak(),
            trak_with_codec(Codec::Tx3g),
        ],
    };
    let inspection = inspect_moov(&moov);
    assert_eq!(inspection.subtitle, Some(SubtitleFormat::Tx3g));
}

#[test]
fn inspect_moov_detects_wvtt_subtitle() {
    let moov = Moov {
        timescale: 0,
        trak: vec![
            video_trak(),
            audio_trak(),
            trak_with_codec(Codec::Wvtt),
        ],
    };
    let inspection = inspect_moov(&moov);
    assert_eq!(inspection.subtitle, Some(SubtitleFormat::Wvtt));
}

#[test]
fn inspect_moov_treats_other_non_av_track_as_unknown_subtitle() {
    let moov = Moov {
        timescale: 0,
        trak: vec![
            video_trak(),
            audio_trak(),
            trak_with_codec(Codec::Other),
        ],
    };
    let inspection = inspect_moov(&moov);
    assert_eq!(inspection.subtitle, Some(SubtitleFormat::Unknown));
}

#[test]
fn subtitle_format_extension_and_encoder_match() {
    assert_eq!(SubtitleFormat::Tx3g.extension(), "srt");
    assert_eq!(SubtitleFormat::Wvtt.extension(), "srt");
    assert_eq!(SubtitleFormat::Unknown.extension(), "ass");
    assert_eq!(SubtitleFormat::Tx3g.ffmpeg_encoder(), "srt");
    assert_eq!(SubtitleFormat::Unknown.ffmpeg_encoder(), "ass");
}

#[test]
fn subtitles_are_extracted_unless_a_file_is_given() {
    let inspection =
        MoovInspection { has_edit_list: false, subtitle: Some(SubtitleFormat::Unknown) };
    assert!(inspection.needs_strip());
    assert_eq!(inspection.extracted(false), Some(SubtitleFormat::Unknown));
    assert_eq!(inspection.extracted(true), None);

    let args = build_strip_args(&inspection, "in.mp4", "out.mp4", false, "subs.ass");
    assert_eq!(
        args.join(" "),
        "-hide_banner -loglevel error -y -i in.mp4 -map 0:v:0 -map 0:a:0 -c copy \
         -use_editlist 0 -movflags +faststart out.mp4 -map 0:s:0 -c:s ass subs.ass"
    );
    let args = build_strip_args(&inspection, "in.mp4", "out.mp4", true, "");
    assert_eq!(args.last().map(String::as_str), Some("out.mp4"));

    let outcome = prepared_outcome(&inspection, "out.mp4".to_string(), None, "s.ass".to_string());
    assert_eq!(outcome.media_path, "out.mp4");
    assert_eq!(outcome.subtitle_path.as_deref(), Some("s.ass"));
    assert!(outcome.ran_ffmpeg);
    assert!(!outcome.had_edit_list);
}

#[test]
fn plain_input_is_used_as_it_is() {
    let inspection = MoovInspection { has_edit_list: false, subtitle: None };
    assert!(!inspection.needs_strip());
    let outcome = unprepared_outcome("in.mp4".to_string(), Some("given.srt".to_string()));
    assert_eq!(outcome.media_path, "in.mp4");
    assert_eq!(outcome.subtitle_path.as_deref(), Some("given.srt"));
    assert!(!outcome.ran_ffmpeg);
}

#[test]
fn paths_need_not_be_text() {
    let outcome = unprepared_outcome(7u8, Some(9u8));
    assert_eq!((outcome.media_path, outcome.subtitle_path), (7, Some(9)));
    let inspection = MoovInspection { has_edit_list: true, subtitle: None };
    let outcome = prepared_outcome(&inspection, 1u8, None, 2u8);
    assert_eq!((outcome.media_path, outcome.subtitle_path), (1, None));
    assert!(outcome.ran_ffmpeg && outcome.had_edit_list);
}
