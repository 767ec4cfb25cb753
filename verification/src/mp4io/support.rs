//! Rejecting inputs that cannot be cut correctly, before anything is written.

use crate::dtvi;
use crate::dtvi::{Dtvi, DtviFrame};
use crate::mp4io::boxes::{Codec, Moov, Trak};
use crate::mp4io::read;
use crate::text;
use vstd::prelude::*;

verus! {

/// Why an input is not supported.
#[derive(Debug, Clone)]
pub struct UnsupportedInput {
    /// Why processing stops.
    pub reason: String,
    /// What to do about it, where that is known.
    pub suggestion: Option<String>,
}

impl View for UnsupportedInput {
    type V = (Seq<char>, Option<Seq<char>>);

    open spec fn view(&self) -> (Seq<char>, Option<Seq<char>>) {
        (
            self.reason@,
            match self.suggestion {
                Some(s) => Some(s@),
                None => None,
            },
        )
    }
}

impl UnsupportedInput {
    /// An error without a suggestion.
    pub fn new(reason: String) -> (e: Self)
        ensures
            e@ == (reason@, None::<Seq<char>>),
    {
        Self { reason, suggestion: None }
    }

    /// An error with a suggestion.
    pub fn with_suggestion(reason: String, suggestion: String) -> (e: Self)
        ensures
            e@ == (reason@, Some(suggestion@)),
    {
        Self { reason, suggestion: Some(suggestion) }
    }

    /// The error as it is shown to the user.
    pub fn message(&self) -> (m: String)
        ensures
            m@ == "error: "@ + self@.0 + (match self@.1 {
                Some(suggestion) => "\n       "@ + suggestion,
                None => Seq::empty(),
            }),
    {
        let mut m = String::new();
        m.append("error: ");
        m.append(self.reason.as_str());
        if let Some(suggestion) = &self.suggestion {
            m.append("\n       ");
            m.append(suggestion.as_str());
        }
        assert(m@ =~= "error: "@ + self@.0 + (match self@.1 {
            Some(suggestion) => "\n       "@ + suggestion,
            None => Seq::empty(),
        }));
        m
    }
}

/// The contents of an error, where there is one.
pub open spec fn error_view(r: Result<(), UnsupportedInput>) -> Option<
    (Seq<char>, Option<Seq<char>>),
> {
    match r {
        Ok(()) => None,
        Err(e) => Some(e@),
    }
}

/// How many of the first `n` tracks are video tracks.
pub open spec fn video_count(trak: Seq<Trak>, n: int) -> nat
    decreases n,
{
    if n <= 0 {
        0
    } else {
        video_count(trak, n - 1) + if read::is_video_trak(trak[n - 1]) {
            1nat
        } else {
            0nat
        }
    }
}

/// How many of the first `n` tracks are audio tracks.
pub open spec fn audio_count(trak: Seq<Trak>, n: int) -> nat
    decreases n,
{
    if n <= 0 {
        0
    } else {
        audio_count(trak, n - 1) + if read::is_audio_trak(trak[n - 1]) {
            1nat
        } else {
            0nat
        }
    }
}

/// What is wrong with the numbers of tracks: there has to be one video track, at most one
/// audio track, and nothing else.
pub open spec fn track_count_error(trak: Seq<Trak>) -> Option<(Seq<char>, Option<Seq<char>>)> {
    let video = video_count(trak, trak.len() as int);
    let audio = audio_count(trak, trak.len() as int);
    let other = (trak.len() - video - audio) as nat;
    if video != 1 {
        Some(
            (
                "映像トラックが "@ + text::decimal(video)
                    + " 本あります。この構成は未検証のため処理を中止しました(対応するのは映像トラック1本のみです)。"@,
                None,
            ),
        )
    } else if audio >= 2 || other > 0 {
        Some(
            (
                "音声トラックが "@ + text::decimal(audio)
                    + " 本、映像/音声以外のトラック(字幕など)が "@ + text::decimal(other)
                    + " 本あります。この構成は未検証のため処理を中止しました(対応するのは映像1本+音声1本のみです)。"@,
                None,
            ),
        )
    } else {
        None
    }
}

/// What is wrong where a track has an edit list.
pub open spec fn edit_list_error(trak: Seq<Trak>) -> Option<(Seq<char>, Option<Seq<char>>)> {
    if exists|i: int| 0 <= i < trak.len() && (#[trigger] trak[i]).has_edit_list {
        Some(
            (
                "入力に edit list (elst) があります。この構成は対応していないため処理を中止しました(#41: サンプル削除後に edit list のタイムラインが不整合になることを確認済み)。"@,
                Some(
                    "ffmpeg で edit list を除去してから再試行してください(動作確認済み):\n         ffmpeg -i IN.mp4 -c copy -use_editlist 0 -movflags +faststart OUT.mp4"@,
                ),
            ),
        )
    } else {
        None
    }
}

/// What is wrong where a track has several sample entries.
pub open spec fn sample_entry_error(trak: Seq<Trak>) -> Option<(Seq<char>, Option<Seq<char>>)> {
    if exists|i: int| 0 <= i < trak.len() && (#[trigger] trak[i]).stbl.codecs@.len() > 1 {
        Some(
            (
                "stsd に複数のサンプルエントリを持つトラックがあります。この構成は対応していないため処理を中止しました(#41: sample_description_index を1固定にしているため。対応にはサンプルごとの index 保持が必要で、write.rs の変更を要するため見送り)。"@,
                None,
            ),
        )
    } else {
        None
    }
}

/// Decoding of `frame` needs samples from before the sync sample that starts its group of
/// pictures.
pub open spec fn is_open_gop_frame(frame: DtviFrame) -> bool {
    frame.has_flag(dtvi::FLAG_LEADING_SAMPLE) || frame.has_flag(dtvi::FLAG_REQUIRES_EARLIER_RAP)
}

/// Decoding of some frame needs samples from before its group of pictures.
pub open spec fn has_open_gop_frame(frames: Seq<DtviFrame>) -> bool {
    exists|i: int| 0 <= i < frames.len() && is_open_gop_frame(#[trigger] frames[i])
}

/// What is wrong where groups of pictures are open, or where nothing tells whether they
/// are.
pub open spec fn gop_error(dtvi: Option<&Dtvi>) -> Option<(Seq<char>, Option<Seq<char>>)> {
    match dtvi {
        None => Some(
            (
                "オープン GOP かどうかを判定するための .dtvi がありません。この構成は未検証のため処理を中止しました。"@,
                Some(
                    "analyze で `.dtvi`(dtvindex build の出力)を生成してから再試行してください。"@,
                ),
            ),
        ),
        Some(index) => if has_open_gop_frame(index.frames@) {
            Some(
                (
                    "入力はオープン GOP です。「S の同期サンプルからデコード順に E - S パケット取る」規則が成立しないため処理を中止しました。"@,
                    None,
                ),
            )
        } else {
            None
        },
    }
}

/// What is wrong with an input: the first of the four checks that fails.
pub open spec fn support_error(moov: Moov, dtvi: Option<&Dtvi>) -> Option<
    (Seq<char>, Option<Seq<char>>),
> {
    if track_count_error(moov.trak@) is Some {
        track_count_error(moov.trak@)
    } else if edit_list_error(moov.trak@) is Some {
        edit_list_error(moov.trak@)
    } else if sample_entry_error(moov.trak@) is Some {
        sample_entry_error(moov.trak@)
    } else {
        gop_error(dtvi)
    }
}

/// Checks the numbers of tracks.
pub fn check_track_counts(moov: &Moov) -> (r: Result<(), UnsupportedInput>)
    ensures
        error_view(r) == track_count_error(moov.trak@),
{
    let mut video: usize = 0;
    let mut audio: usize = 0;
    let mut other: usize = 0;
    let mut i: usize = 0;
    while i < moov.trak.len()
        invariant
            i <= moov.trak@.len(),
            video == video_count(moov.trak@, i as int),
            audio == audio_count(moov.trak@, i as int),
            video + audio + other == i,
        decreases moov.trak@.len() - i,
    {
        match moov.trak[i].codec() {
            Some(codec) => {
                if codec == Codec::Avc1 {
                    video += 1;
                } else if read::is_audio_codec(&codec) {
                    audio += 1;
                } else {
                    other += 1;
                }
            },
            None => {
                other += 1;
            },
        }
        i += 1;
    }
    if video != 1 {
        let mut reason = String::new();
        reason.append("映像トラックが ");
        text::push_u64(&mut reason, video as u64);
        reason.append(
            " 本あります。この構成は未検証のため処理を中止しました(対応するのは映像トラック1本のみです)。",
        );
        assert(reason@ =~= (track_count_error(moov.trak@)->0).0);
        return Err(UnsupportedInput::new(reason));
    }
    if audio >= 2 || other > 0 {
        let mut reason = String::new();
        reason.append("音声トラックが ");
        text::push_u64(&mut reason, audio as u64);
        reason.append(" 本、映像/音声以外のトラック(字幕など)が ");
        text::push_u64(&mut reason, other as u64);
        reason.append(
            " 本あります。この構成は未検証のため処理を中止しました(対応するのは映像1本+音声1本のみです)。",
        );
        assert(reason@ =~= (track_count_error(moov.trak@)->0).0);
        return Err(UnsupportedInput::new(reason));
    }
    Ok(())
}

/// Checks that no track has an edit list.
pub fn check_no_edit_list(moov: &Moov) -> (r: Result<(), UnsupportedInput>)
    ensures
        error_view(r) == edit_list_error(moov.trak@),
{
    let mut i: usize = 0;
    while i < moov.trak.len()
        invariant
            i <= moov.trak@.len(),
            forall|j: int| 0 <= j < i ==> !(#[trigger] moov.trak@[j]).has_edit_list,
        decreases moov.trak@.len() - i,
    {
        if moov.trak[i].has_edit_list {
            return Err(
                UnsupportedInput::with_suggestion(
                    "入力に edit list (elst) があります。この構成は対応していないため処理を中止しました(#41: サンプル削除後に edit list のタイムラインが不整合になることを確認済み)。".to_owned(),
                    "ffmpeg で edit list を除去してから再試行してください(動作確認済み):\n         ffmpeg -i IN.mp4 -c copy -use_editlist 0 -movflags +faststart OUT.mp4".to_owned(),
                ),
            );
        }
        i += 1;
    }
    Ok(())
}

/// Checks that no track has several sample entries.
pub fn check_single_stsd_entry(moov: &Moov) -> (r: Result<(), UnsupportedInput>)
    ensures
        error_view(r) == sample_entry_error(moov.trak@),
{
    let mut i: usize = 0;
    while i < moov.trak.len()
        invariant
            i <= moov.trak@.len(),
            forall|j: int| 0 <= j < i ==> (#[trigger] moov.trak@[j]).stbl.codecs@.len() <= 1,
        decreases moov.trak@.len() - i,
    {
        if moov.trak[i].stbl.codecs.len() > 1 {
            return Err(
                UnsupportedInput::new(
                    "stsd に複数のサンプルエントリを持つトラックがあります。この構成は対応していないため処理を中止しました(#41: sample_description_index を1固定にしているため。対応にはサンプルごとの index 保持が必要で、write.rs の変更を要するため見送り)。".to_owned(),
                ),
            );
        }
        i += 1;
    }
    Ok(())
}

/// Checks that groups of pictures are closed. Only a frame index can tell, so it has to be
/// there.
pub fn check_closed_gop(dtvi: Option<&Dtvi>) -> (r: Result<(), UnsupportedInput>)
    ensures
        error_view(r) == gop_error(dtvi),
{
    let index = match dtvi {
        Some(index) => index,
        None => {
            return Err(
                UnsupportedInput::with_suggestion(
                    "オープン GOP かどうかを判定するための .dtvi がありません。この構成は未検証のため処理を中止しました。".to_owned(),
                    "analyze で `.dtvi`(dtvindex build の出力)を生成してから再試行してください。".to_owned(),
                ),
            );
        },
    };
    let mut i: usize = 0;
    while i < index.frames.len()
        invariant
            dtvi == Some(index),
            i <= index.frames@.len(),
            forall|j: int| 0 <= j < i ==> !is_open_gop_frame(#[trigger] index.frames@[j]),
        decreases index.frames@.len() - i,
    {
        if index.frames[i].is_leading() || index.frames[i].requires_earlier_rap() {
            assert(is_open_gop_frame(index.frames@[i as int]));
            assert(has_open_gop_frame(index.frames@));
            return Err(
                UnsupportedInput::new(
                    "入力はオープン GOP です。「S の同期サンプルからデコード順に E - S パケット取る」規則が成立しないため処理を中止しました。".to_owned(),
                ),
            );
        }
        i += 1;
    }
    Ok(())
}

/// Checks that an input can be cut: one video track and at most one audio track, no edit
/// list, one sample entry per track, and closed groups of pictures.
pub fn check_supported(moov: &Moov, dtvi: Option<&Dtvi>) -> (r: Result<(), UnsupportedInput>)
    ensures
        error_view(r) == support_error(*moov, dtvi),
{
    match check_track_counts(moov) {
        Ok(()) => {},
        Err(e) => return Err(e),
    }
    match check_no_edit_list(moov) {
        Ok(()) => {},
        Err(e) => return Err(e),
    }
    match check_single_stsd_entry(moov) {
        Ok(()) => {},
        Err(e) => return Err(e),
    }
    check_closed_gop(dtvi)
}

} // verus!
