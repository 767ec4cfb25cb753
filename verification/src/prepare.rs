//! Deciding how an input has to be prepared before it can be cut.
//!
//! Inputs with an edit list or with a subtitle track cannot be cut. Both are removed in one
//! run of ffmpeg, which also extracts the subtitles: so the subtitles follow whatever shift
//! of the timeline the removal of the edit list brings.

use crate::mp4io::boxes::{Codec, Moov, Trak};
use crate::mp4io::read;
use crate::mp4io::read::is_audio_codec;
use crate::text;
use vstd::prelude::*;

verus! {

/// The format of a subtitle track.
#[derive(Debug, Clone, Copy, PartialEq, Eq, Structural)]
pub enum SubtitleFormat {
    /// Timed text (`mov_text`).
    Tx3g,
    /// WebVTT.
    Wvtt,
    /// Anything else.
    Unknown,
}

impl SubtitleFormat {
    /// The extension of the extracted file: plain text becomes SRT, anything else becomes
    /// ASS, which keeps styles.
    pub open spec fn spec_extension(self) -> Seq<char> {
        match self {
            SubtitleFormat::Tx3g | SubtitleFormat::Wvtt => "srt"@,
            SubtitleFormat::Unknown => "ass"@,
        }
    }

    /// The extension of the extracted file.
    pub fn extension(self) -> (text: &'static str)
        ensures
            text@ == self.spec_extension(),
    {
        match self {
            SubtitleFormat::Tx3g | SubtitleFormat::Wvtt => "srt",
            SubtitleFormat::Unknown => "ass",
        }
    }

    /// The encoder that ffmpeg is told to use, which has the name of the extension.
    pub fn ffmpeg_encoder(self) -> (text: &'static str)
        ensures
            text@ == self.spec_extension(),
    {
        match self {
            SubtitleFormat::Tx3g | SubtitleFormat::Wvtt => "srt",
            SubtitleFormat::Unknown => "ass",
        }
    }

    /// The name of the format for messages.
    pub fn label(self) -> (text: &'static str)
        ensures
            text@ == (match self {
                SubtitleFormat::Tx3g => "Tx3g(mov_text)"@,
                SubtitleFormat::Wvtt => "Wvtt(WebVTT)"@,
                SubtitleFormat::Unknown => "Unknown(未知の字幕コーデック)"@,
            }),
    {
        match self {
            SubtitleFormat::Tx3g => "Tx3g(mov_text)",
            SubtitleFormat::Wvtt => "Wvtt(WebVTT)",
            SubtitleFormat::Unknown => "Unknown(未知の字幕コーデック)",
        }
    }
}

/// What a movie holds that has to be removed.
#[derive(Debug, Clone, Copy, PartialEq, Eq, Structural)]
pub struct MoovInspection {
    /// Whether a track has an edit list.
    pub has_edit_list: bool,
    /// The format of the subtitle track, where there is one.
    pub subtitle: Option<SubtitleFormat>,
}

/// The format of a track as a subtitle track: none for video and audio tracks, and for
/// tracks without a sample entry.
pub open spec fn format_of_trak(trak: Trak) -> Option<SubtitleFormat> {
    match trak.spec_codec() {
        None => None,
        Some(codec) => if codec == Codec::Avc1 || read::spec_is_audio_codec(codec) {
            None
        } else if codec == Codec::Tx3g {
            Some(SubtitleFormat::Tx3g)
        } else if codec == Codec::Wvtt {
            Some(SubtitleFormat::Wvtt)
        } else {
            Some(SubtitleFormat::Unknown)
        },
    }
}

/// The format of the first subtitle track, from track `i` on.
pub open spec fn subtitle_from(trak: Seq<Trak>, i: int) -> Option<SubtitleFormat>
    decreases trak.len() - i,
{
    if i < 0 || i >= trak.len() {
        None
    } else if format_of_trak(trak[i]) is Some {
        format_of_trak(trak[i])
    } else {
        subtitle_from(trak, i + 1)
    }
}

/// Whether a track has an edit list.
pub fn has_edit_list(moov: &Moov) -> (b: bool)
    ensures
        b == exists|i: int| 0 <= i < moov.trak@.len() && (#[trigger] moov.trak@[i]).has_edit_list,
{
    let mut i: usize = 0;
    while i < moov.trak.len()
        invariant
            i <= moov.trak@.len(),
            forall|j: int| 0 <= j < i ==> !(#[trigger] moov.trak@[j]).has_edit_list,
        decreases moov.trak@.len() - i,
    {
        if moov.trak[i].has_edit_list {
            return true;
        }
        i += 1;
    }
    false
}

/// The format of the first track that is neither video nor audio.
pub fn subtitle_format_in(moov: &Moov) -> (r: Option<SubtitleFormat>)
    ensures
        r == subtitle_from(moov.trak@, 0),
{
    let mut i: usize = 0;
    while i < moov.trak.len()
        invariant
            i <= moov.trak@.len(),
            subtitle_from(moov.trak@, 0) == subtitle_from(moov.trak@, i as int),
        decreases moov.trak@.len() - i,
    {
        if let Some(codec) = moov.trak[i].codec() {
            if codec == Codec::Avc1 || is_audio_codec(&codec) {
            } else if codec == Codec::Tx3g {
                return Some(SubtitleFormat::Tx3g);
            } else if codec == Codec::Wvtt {
                return Some(SubtitleFormat::Wvtt);
            } else {
                return Some(SubtitleFormat::Unknown);
            }
        }
        i += 1;
    }
    None
}

/// Looks for an edit list and for a subtitle track.
pub fn inspect_moov(moov: &Moov) -> (inspection: MoovInspection)
    ensures
        inspection.has_edit_list == exists|i: int|
            0 <= i < moov.trak@.len() && (#[trigger] moov.trak@[i]).has_edit_list,
        inspection.subtitle == subtitle_from(moov.trak@, 0),
{
    MoovInspection { has_edit_list: has_edit_list(moov), subtitle: subtitle_format_in(moov) }
}

/// What preparing an input gave. `P` is what stands for a path: paths are only handed on.
#[derive(Debug, Clone)]
pub struct PrepareOutcome<P> {
    /// The path of the file to cut: the input itself, or the prepared copy.
    pub media_path: P,
    /// The path of the subtitles, where there are any.
    pub subtitle_path: Option<P>,
    /// Whether ffmpeg was run.
    pub ran_ffmpeg: bool,
    /// Whether the input had an edit list.
    pub had_edit_list: bool,
}

impl MoovInspection {
    /// Whether anything has to be removed.
    pub open spec fn spec_needs_strip(self) -> bool {
        self.has_edit_list || self.subtitle is Some
    }

    /// Whether anything has to be removed.
    pub fn needs_strip(&self) -> (b: bool)
        ensures
            b == self.spec_needs_strip(),
    {
        self.has_edit_list || self.subtitle.is_some()
    }

    /// The format in which the subtitle track is extracted. A subtitle file that the user
    /// gave takes precedence over the track.
    pub open spec fn spec_extracted(self, external_given: bool) -> Option<SubtitleFormat> {
        if external_given {
            None
        } else {
            self.subtitle
        }
    }

    /// The format in which the subtitle track is extracted.
    pub fn extracted(&self, external_given: bool) -> (r: Option<SubtitleFormat>)
        ensures
            r == self.spec_extracted(external_given),
    {
        if external_given {
            None
        } else {
            self.subtitle
        }
    }
}

/// The arguments of the run of ffmpeg that removes everything but the first video and the
/// first audio track, and the edit lists.
pub open spec fn strip_args(input: Seq<char>, prepared: Seq<char>) -> Seq<Seq<char>> {
    seq![
        "-hide_banner"@,
        "-loglevel"@,
        "error"@,
        "-y"@,
        "-i"@,
        input,
        "-map"@,
        "0:v:0"@,
        "-map"@,
        "0:a:0"@,
        "-c"@,
        "copy"@,
        "-use_editlist"@,
        "0"@,
        "-movflags"@,
        "+faststart"@,
        prepared,
    ]
}

/// The further arguments that extract the first subtitle track.
pub open spec fn subtitle_args(format: SubtitleFormat, subs_out: Seq<char>) -> Seq<Seq<char>> {
    seq!["-map"@, "0:s:0"@, "-c:s"@, format.spec_extension(), subs_out]
}

/// The outcome for an input that needs no preparation: it can be cut as it is.
pub fn unprepared_outcome<P>(input: P, external_subs: Option<P>) -> (outcome: PrepareOutcome<P>)
    ensures
        outcome == (PrepareOutcome {
            media_path: input,
            subtitle_path: external_subs,
            ran_ffmpeg: false,
            had_edit_list: false,
        }),
{
    PrepareOutcome {
        media_path: input,
        subtitle_path: external_subs,
        ran_ffmpeg: false,
        had_edit_list: false,
    }
}

/// The arguments for ffmpeg. `subs_out` is where an extracted subtitle track goes.
pub fn build_strip_args(
    inspection: &MoovInspection,
    input: &str,
    prepared: &str,
    external_given: bool,
    subs_out: &str,
) -> (args: Vec<String>)
    ensures
        text::text_views(args@) == strip_args(input@, prepared@) + (match inspection.spec_extracted(
            external_given,
        ) {
            Some(format) => subtitle_args(format, subs_out@),
            None => Seq::empty(),
        }),
{
    let mut args: Vec<String> = Vec::new();
    assert(text::text_views(args@) =~= Seq::empty());
    text::push_text(&mut args, "-hide_banner");
    text::push_text(&mut args, "-loglevel");
    text::push_text(&mut args, "error");
    text::push_text(&mut args, "-y");
    text::push_text(&mut args, "-i");
    text::push_text(&mut args, input);
    text::push_text(&mut args, "-map");
    text::push_text(&mut args, "0:v:0");
    text::push_text(&mut args, "-map");
    text::push_text(&mut args, "0:a:0");
    text::push_text(&mut args, "-c");
    text::push_text(&mut args, "copy");
    text::push_text(&mut args, "-use_editlist");
    text::push_text(&mut args, "0");
    text::push_text(&mut args, "-movflags");
    text::push_text(&mut args, "+faststart");
    text::push_text(&mut args, prepared);
    let ghost base = text::text_views(args@);
    assert(base =~= strip_args(input@, prepared@));
    if let Some(format) = inspection.extracted(external_given) {
        text::push_text(&mut args, "-map");
        text::push_text(&mut args, "0:s:0");
        text::push_text(&mut args, "-c:s");
        text::push_text(&mut args, format.ffmpeg_encoder());
        text::push_text(&mut args, subs_out);
        assert(text::text_views(args@) =~= base + subtitle_args(format, subs_out@));
    } else {
        assert(text::text_views(args@) =~= base + Seq::empty());
    }
    args
}

/// The outcome after ffmpeg has run. Subtitles that the user gave take precedence; else it
/// is the extracted track, where there was one.
pub fn prepared_outcome<P>(
    inspection: &MoovInspection,
    prepared: P,
    external_subs: Option<P>,
    subs_out: P,
) -> (outcome: PrepareOutcome<P>)
    ensures
        outcome == (PrepareOutcome {
            media_path: prepared,
            subtitle_path: match external_subs {
                Some(path) => Some(path),
                None => if inspection.subtitle is Some {
                    Some(subs_out)
                } else {
                    None
                },
            },
            ran_ffmpeg: true,
            had_edit_list: inspection.has_edit_list,
        }),
{
    let subtitle_path: Option<P> = match external_subs {
        Some(path) => Some(path),
        None => if inspection.subtitle.is_some() {
            Some(subs_out)
        } else {
            None
        },
    };
    PrepareOutcome {
        media_path: prepared,
        subtitle_path,
        ran_ffmpeg: true,
        had_edit_list: inspection.has_edit_list,
    }
}

/// An input with one video track and one audio track that needs no preparation is not
/// rejected for its tracks or its edit lists when it is cut.
pub proof fn unprepared_input_passes_checks(trak: Seq<Trak>)
    requires
        subtitle_from(trak, 0) is None,
        forall|i: int| 0 <= i < trak.len() ==> !(#[trigger] trak[i]).has_edit_list,
        forall|i: int| 0 <= i < trak.len() ==> (#[trigger] trak[i]).spec_codec() is Some,
        crate::mp4io::support::video_count(trak, trak.len() as int) == 1,
        crate::mp4io::support::audio_count(trak, trak.len() as int) <= 1,
    ensures
        crate::mp4io::support::track_count_error(trak) is None,
        crate::mp4io::support::edit_list_error(trak) is None,
{
    lemma_all_counted(trak, trak.len() as int);
}

proof fn lemma_all_counted(trak: Seq<Trak>, n: int)
    requires
        0 <= n <= trak.len(),
        subtitle_from(trak, 0) is None,
        forall|i: int| 0 <= i < trak.len() ==> (#[trigger] trak[i]).spec_codec() is Some,
    ensures
        crate::mp4io::support::video_count(trak, n) + crate::mp4io::support::audio_count(trak, n)
            == n,
    decreases n,
{
    if n > 0 {
        lemma_all_counted(trak, n - 1);
        lemma_no_subtitle_at(trak, 0, n - 1);
        assert(trak[n - 1].spec_codec() is Some);
    }
}

proof fn lemma_no_subtitle_at(trak: Seq<Trak>, from: int, i: int)
    requires
        0 <= from <= i < trak.len(),
        subtitle_from(trak, from) is None,
    ensures
        format_of_trak(trak[i]) is None,
    decreases i - from,
{
    if from < i {
        lemma_no_subtitle_at(trak, from + 1, i);
    }
}

} // verus!
