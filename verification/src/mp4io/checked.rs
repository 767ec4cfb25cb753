//! What it means for an input to pass the checks.

use crate::dtvi::{Dtvi, DtviFrame};
use crate::mp4io;
use crate::mp4io::boxes::{Codec, Moov, Trak};
use crate::mp4io::order_map;
use crate::mp4io::order_map::{DtviMismatch, TiedCompositionTime};
use crate::mp4io::read;
use crate::mp4io::read::{SampleInfo, TrackInfo};
use crate::mp4io::support;
use crate::order;
use crate::order::{DecodeIdx, DisplayIdx};
use crate::prepare;
use crate::prepare::{MoovInspection, SubtitleFormat};
use crate::sums;
use crate::text;
use vstd::prelude::*;

verus! {

/// Whether the first sample entry is H.264.
pub open spec fn has_video(trak: Trak) -> bool {
    trak.stbl.codecs@.len() > 0 && trak.stbl.codecs@[0] is Avc1
}

/// Whether the first sample entry is neither H.264, nor text, nor of a kind that is not known.
pub open spec fn has_audio(trak: Trak) -> bool {
    &&& trak.stbl.codecs@.len() > 0
    &&& !(trak.stbl.codecs@[0] is Avc1)
    &&& !(trak.stbl.codecs@[0] is Tx3g)
    &&& !(trak.stbl.codecs@[0] is Wvtt)
    &&& !(trak.stbl.codecs@[0] is Other)
}

/// The tracks are one of video and at most one of audio.
pub open spec fn are_one_video_and_at_most_one_audio(trak: Seq<Trak>) -> bool {
    &&& exists|v: int| 0 <= v < trak.len() && has_video(#[trigger] trak[v])
    &&& forall|i: int, j: int|
        0 <= i < j < trak.len() ==> !(has_video(#[trigger] trak[i]) && has_video(
            #[trigger] trak[j],
        ))
    &&& forall|i: int, j: int|
        0 <= i < j < trak.len() ==> !(has_audio(#[trigger] trak[i]) && has_audio(
            #[trigger] trak[j],
        ))
    &&& forall|i: int|
        0 <= i < trak.len() ==> has_video(#[trigger] trak[i]) || has_audio(trak[i])
}

/// How often a property holds among the first `n` tracks says whether it holds of none, of one, of
/// several and of all of them.
proof fn lemma_counts(trak: Seq<Trak>, n: int)
    requires
        0 <= n <= trak.len(),
    ensures
        support::video_count(trak, n) + support::audio_count(trak, n) <= n,
        support::video_count(trak, n) + support::audio_count(trak, n) == n <==> (forall|i: int|
            0 <= i < n ==> has_video(#[trigger] trak[i]) || has_audio(trak[i])),
        support::video_count(trak, n) == 0 <==> (forall|i: int|
            0 <= i < n ==> !has_video(#[trigger] trak[i])),
        support::audio_count(trak, n) == 0 <==> (forall|i: int|
            0 <= i < n ==> !has_audio(#[trigger] trak[i])),
        support::video_count(trak, n) <= 1 <==> (forall|i: int, j: int|
            0 <= i < j < n ==> !(has_video(#[trigger] trak[i]) && has_video(#[trigger] trak[j]))),
        support::audio_count(trak, n) <= 1 <==> (forall|i: int, j: int|
            0 <= i < j < n ==> !(has_audio(#[trigger] trak[i]) && has_audio(#[trigger] trak[j]))),
    decreases n,
{
    if n > 0 {
        lemma_counts(trak, n - 1);
        let last = trak[n - 1];
        assert(read::is_video_trak(last) == has_video(last));
        assert(read::is_audio_trak(last) == has_audio(last));
        if has_video(last) && support::video_count(trak, n - 1) > 0 {
            let i = choose|i: int| 0 <= i < n - 1 && has_video(#[trigger] trak[i]);
            assert(has_video(trak[i]) && has_video(trak[n - 1]));
        }
        if has_audio(last) && support::audio_count(trak, n - 1) > 0 {
            let i = choose|i: int| 0 <= i < n - 1 && has_audio(#[trigger] trak[i]);
            assert(has_audio(trak[i]) && has_audio(trak[n - 1]));
        }
    }
}

/// An input is supported where, and only where, it has one video track and at most one audio track
/// and nothing else, no track has an edit list or several sample entries, and there is an index in
/// which no frame is a leading sample or needs an earlier random access point.
pub proof fn inputs_are_supported(moov: Moov, dtvi: Option<&Dtvi>)
    ensures
        support::support_error(moov, dtvi) is None <==> {
            &&& are_one_video_and_at_most_one_audio(moov.trak@)
            &&& forall|i: int| 0 <= i < moov.trak@.len() ==> !(#[trigger] moov.trak@[i]).has_edit_list
            &&& forall|i: int|
                0 <= i < moov.trak@.len() ==> (#[trigger] moov.trak@[i]).stbl.codecs@.len() <= 1
            &&& dtvi is Some
            &&& forall|i: int|
                0 <= i < dtvi->0.frames@.len() ==> (#[trigger] dtvi->0.frames@[i]).flags & 8 == 0
                    && dtvi->0.frames@[i].flags & 16 == 0
        },
        support::track_count_error(moov.trak@) is None <==> are_one_video_and_at_most_one_audio(
            moov.trak@,
        ),
        support::edit_list_error(moov.trak@) is None <==> forall|i: int|
            0 <= i < moov.trak@.len() ==> !(#[trigger] moov.trak@[i]).has_edit_list,
        support::sample_entry_error(moov.trak@) is None <==> forall|i: int|
            0 <= i < moov.trak@.len() ==> (#[trigger] moov.trak@[i]).stbl.codecs@.len() <= 1,
        support::gop_error(dtvi) is None <==> {
            &&& dtvi is Some
            &&& forall|i: int|
                0 <= i < dtvi->0.frames@.len() ==> (#[trigger] dtvi->0.frames@[i]).flags & 8 == 0
                    && dtvi->0.frames@[i].flags & 16 == 0
        },
{
    lemma_counts(moov.trak@, moov.trak@.len() as int);
}

/// The first error decides: the number of tracks, then edit lists, then sample entries, then the
/// index.
pub proof fn first_error_is_told(moov: Moov, dtvi: Option<&Dtvi>)
    ensures
        !are_one_video_and_at_most_one_audio(moov.trak@) ==> support::support_error(moov, dtvi)
            == support::track_count_error(moov.trak@),
        are_one_video_and_at_most_one_audio(moov.trak@) && (exists|i: int|
            0 <= i < moov.trak@.len() && (#[trigger] moov.trak@[i]).has_edit_list)
            ==> support::support_error(moov, dtvi) == support::edit_list_error(moov.trak@),
        are_one_video_and_at_most_one_audio(moov.trak@) && (forall|i: int|
            0 <= i < moov.trak@.len() ==> !(#[trigger] moov.trak@[i]).has_edit_list) && (exists|
            i: int,
        | 0 <= i < moov.trak@.len() && (#[trigger] moov.trak@[i]).stbl.codecs@.len() > 1)
            ==> support::support_error(moov, dtvi) == support::sample_entry_error(moov.trak@),
        are_one_video_and_at_most_one_audio(moov.trak@) && (forall|i: int|
            0 <= i < moov.trak@.len() ==> !(#[trigger] moov.trak@[i]).has_edit_list) && (forall|
            i: int,
        | 0 <= i < moov.trak@.len() ==> (#[trigger] moov.trak@[i]).stbl.codecs@.len() <= 1)
            ==> support::support_error(moov, dtvi) == support::gop_error(dtvi),
{
    inputs_are_supported(moov, dtvi);
}

/// The video track that is found is the first one, and so is the audio track. A track is found where
/// there is one.
pub proof fn first_tracks_are_found(
    trak: Seq<Trak>,
    video: Option<(&Trak, TrackInfo)>,
    audio: Option<(&Trak, TrackInfo)>,
)
    requires
        read::first_trak(trak, |t: Trak| read::is_video_trak(t), video),
        read::first_trak(trak, |t: Trak| read::is_audio_trak(t), audio),
    ensures
        match video {
            Some((t, info)) => exists|i: int|
                {
                    &&& 0 <= i < trak.len()
                    &&& #[trigger] trak[i] == *t
                    &&& has_video(trak[i])
                    &&& info.timescale == t.timescale
                    &&& forall|j: int| 0 <= j < i ==> !has_video(#[trigger] trak[j])
                },
            None => forall|i: int| 0 <= i < trak.len() ==> !has_video(#[trigger] trak[i]),
        },
        match audio {
            Some((t, info)) => exists|i: int|
                {
                    &&& 0 <= i < trak.len()
                    &&& #[trigger] trak[i] == *t
                    &&& has_audio(trak[i])
                    &&& info.timescale == t.timescale
                    &&& forall|j: int| 0 <= j < i ==> !has_audio(#[trigger] trak[j])
                },
            None => forall|i: int| 0 <= i < trak.len() ==> !has_audio(#[trigger] trak[i]),
        },
{
    assert forall|i: int| 0 <= i < trak.len() implies has_video(#[trigger] trak[i])
        == read::is_video_trak(trak[i]) && has_audio(trak[i]) == read::is_audio_trak(trak[i]) by {}
}

proof fn lemma_count_sets(trak: Seq<Trak>, n: int)
    requires
        0 <= n <= trak.len(),
    ensures
        Set::new(|i: int| 0 <= i < n && has_video(trak[i])).finite(),
        Set::new(|i: int| 0 <= i < n && has_audio(trak[i])).finite(),
        support::video_count(trak, n) == Set::new(|i: int| 0 <= i < n && has_video(trak[i])).len(),
        support::audio_count(trak, n) == Set::new(|i: int| 0 <= i < n && has_audio(trak[i])).len(),
    decreases n,
{
    let video = Set::new(|i: int| 0 <= i < n && has_video(trak[i]));
    let audio = Set::new(|i: int| 0 <= i < n && has_audio(trak[i]));
    if n > 0 {
        lemma_count_sets(trak, n - 1);
        let video_before = Set::new(|i: int| 0 <= i < n - 1 && has_video(trak[i]));
        let audio_before = Set::new(|i: int| 0 <= i < n - 1 && has_audio(trak[i]));
        assert(read::is_video_trak(trak[n - 1]) == has_video(trak[n - 1]));
        assert(read::is_audio_trak(trak[n - 1]) == has_audio(trak[n - 1]));
        if has_video(trak[n - 1]) {
            assert(video =~= video_before.insert(n - 1));
        } else {
            assert(video =~= video_before);
        }
        if has_audio(trak[n - 1]) {
            assert(audio =~= audio_before.insert(n - 1));
        } else {
            assert(audio =~= audio_before);
        }
    } else {
        assert(video =~= Set::empty());
        assert(audio =~= Set::empty());
    }
}

/// The error on the number of tracks names the number of video tracks, or that of audio tracks and
/// that of all others.
pub proof fn track_numbers_are_named(trak: Seq<Trak>)
    ensures
        ({
            let video = Set::new(|i: int| 0 <= i < trak.len() && has_video(trak[i])).len();
            let audio = Set::new(|i: int| 0 <= i < trak.len() && has_audio(trak[i])).len();
            let other = trak.len() - video - audio;
            &&& other >= 0
            &&& support::track_count_error(trak) is None <==> video == 1 && audio <= 1 && other == 0
            &&& video != 1 ==> support::track_count_error(trak) == Some(
                (
                    "映像トラックが "@
                        + text::decimal(video)
                        + " 本あります。この構成は未検証のため処理を中止しました(対応するのは映像トラック1本のみです)。"@,
                    None::<Seq<char>>,
                ),
            )
            &&& video == 1 && (audio > 1 || other > 0) ==> support::track_count_error(trak) == Some(
                (
                    "音声トラックが "@ + text::decimal(audio)
                        + " 本、映像/音声以外のトラック(字幕など)が "@ + text::decimal(other as nat)
                        + " 本あります。この構成は未検証のため処理を中止しました(対応するのは映像1本+音声1本のみです)。"@,
                    None::<Seq<char>>,
                ),
            )
        }),
{
    lemma_counts(trak, trak.len() as int);
    lemma_count_sets(trak, trak.len() as int);
}

/// The subtitles of an input are those of the first track that is neither video nor audio. Where
/// there is no such track, there are none.
pub proof fn subtitles_are_those_of_the_first_other_track(trak: Seq<Trak>, k: int)
    requires
        0 <= k <= trak.len(),
        forall|i: int|
            0 <= i < k ==> (#[trigger] trak[i]).stbl.codecs@.len() == 0 || has_video(trak[i])
                || has_audio(trak[i]),
        k < trak.len() ==> {
            &&& trak[k].stbl.codecs@.len() > 0
            &&& !has_video(trak[k])
            &&& !has_audio(trak[k])
        },
    ensures
        k == trak.len() ==> prepare::subtitle_from(trak, 0) is None,
        k < trak.len() ==> prepare::subtitle_from(trak, 0) == (match trak[k].stbl.codecs@[0] {
            Codec::Tx3g => Some(SubtitleFormat::Tx3g),
            Codec::Wvtt => Some(SubtitleFormat::Wvtt),
            _ => Some(SubtitleFormat::Unknown),
        }),
{
    lemma_subtitle_from(trak, 0, k);
}

proof fn lemma_subtitle_from(trak: Seq<Trak>, i: int, k: int)
    requires
        0 <= i <= k <= trak.len(),
        forall|j: int|
            i <= j < k ==> (#[trigger] trak[j]).stbl.codecs@.len() == 0 || has_video(trak[j])
                || has_audio(trak[j]),
    ensures
        prepare::subtitle_from(trak, i) == prepare::subtitle_from(trak, k),
    decreases k - i,
{
    if i < k {
        assert(trak[i].stbl.codecs@.len() == 0 || has_video(trak[i]) || has_audio(trak[i]));
        lemma_subtitle_from(trak, i + 1, k);
    }
}

/// A sample is decoded when the one before it has been: the first at 0, and each as much later as
/// the one before it lasts. It is shown its offset after it is decoded.
pub proof fn samples_are_decoded_one_after_another(samples: Seq<SampleInfo>, i: int)
    requires
        0 <= i < samples.len(),
    ensures
        order_map::dts_of(samples, 0) == 0,
        order_map::dts_of(samples, i + 1) == order_map::dts_of(samples, i) + samples[i].duration,
        order_map::cts_of(samples, i) - order_map::dts_of(samples, i) == samples[i].cts_offset,
{
    assert(mp4io::write::durations_of(samples)[i] == samples[i].duration);
}

/// Of two samples, that which is shown earlier comes first in display order.
pub proof fn earlier_samples_are_displayed_first(
    samples: Seq<SampleInfo>,
    pairs: Seq<(DisplayIdx, DecodeIdx)>,
    a: int,
    b: int,
)
    requires
        order_map::is_display_order(samples, pairs),
        0 <= a < pairs.len(),
        0 <= b < pairs.len(),
        order_map::dts_of(samples, pairs[a].1.0 as int) + samples[pairs[a].1.0 as int].cts_offset
            < order_map::dts_of(samples, pairs[b].1.0 as int)
            + samples[pairs[b].1.0 as int].cts_offset,
    ensures
        pairs[a].0.0 < pairs[b].0.0,
        pairs[a].0.0 == a,
        pairs[b].0.0 == b,
{
}

/// The sync samples are listed: those, and only those, whose flag is set, in ascending order.
pub proof fn sync_samples_are_listed(samples: Seq<SampleInfo>, n: int)
    requires
        0 <= n <= samples.len() <= u32::MAX,
    ensures
        order_map::ascending(order_map::sync_indices(samples, n)),
        forall|a: int|
            0 <= a < order_map::sync_indices(samples, n).len() ==> {
                &&& (#[trigger] order_map::sync_indices(samples, n)[a]).0 < n
                &&& samples[order_map::sync_indices(samples, n)[a].0 as int].is_sync
            },
        forall|i: int|
            0 <= i < n && (#[trigger] samples[i]).is_sync ==> order_map::sync_indices(
                samples,
                n,
            ).contains(DecodeIdx(i as u32)),
    decreases n,
{
    if n > 0 {
        sync_samples_are_listed(samples, n - 1);
        let before = order_map::sync_indices(samples, n - 1);
        let all = order_map::sync_indices(samples, n);
        assert forall|i: int| 0 <= i < n && (#[trigger] samples[i]).is_sync implies all.contains(
            DecodeIdx(i as u32),
        ) by {
            if i < n - 1 {
                let a = choose|a: int| 0 <= a < before.len() && before[a] == DecodeIdx(i as u32);
                assert(all[a] == before[a]);
            } else {
                assert(all[before.len() as int] == DecodeIdx(i as u32));
            }
        }
    }
}

/// Sample `s` is where decoding starts for sample `i`: the last sync sample that is not after it.
pub open spec fn decodes_from(samples: Seq<SampleInfo>, i: int, s: int) -> bool {
    &&& 0 <= s <= i
    &&& samples[s].is_sync
    &&& forall|j: int| s < j <= i ==> !(#[trigger] samples[j]).is_sync
}

proof fn lemma_last_at_or_before(samples: Seq<SampleInfo>, i: DecodeIdx)
    requires
        samples.len() <= u32::MAX,
        i.0 < samples.len(),
    ensures
        ({
            let syncs = order_map::sync_indices(samples, samples.len() as int);
            match order_map::last_at_or_before(syncs, i, syncs.len() as int) {
                Some(s) => decodes_from(samples, i.0 as int, s.0 as int),
                None => forall|j: int| 0 <= j <= i.0 ==> !(#[trigger] samples[j]).is_sync,
            }
        }),
{
    let n = samples.len() as int;
    let syncs = order_map::sync_indices(samples, n);
    sync_samples_are_listed(samples, n);
    let found = order_map::last_at_or_before(syncs, i, syncs.len() as int);
    lemma_found_is_listed(syncs, i, syncs.len() as int);
    assert forall|j: int| 0 <= j <= i.0 && (#[trigger] samples[j]).is_sync implies found is Some
        && j <= (found->0).0 by {
        let k = choose|k: int| 0 <= k < syncs.len() && syncs[k] == DecodeIdx(j as u32);
        order_map::nearest_sync_is_the_last_before(syncs, i, k);
    }
    if found is Some {
        let k = choose|k: int| 0 <= k < syncs.len() && syncs[k] == found->0;
        assert(samples[syncs[k].0 as int].is_sync);
    }
}

proof fn lemma_found_is_listed(syncs: Seq<DecodeIdx>, i: DecodeIdx, n: int)
    requires
        0 <= n <= syncs.len(),
    ensures
        order_map::last_at_or_before(syncs, i, n) matches Some(s) ==> s.0 <= i.0 && syncs.contains(
            s,
        ),
    decreases n,
{
    if n > 0 {
        lemma_found_is_listed(syncs, i, n - 1);
        if syncs[n - 1].0 <= i.0 {
            assert(syncs.contains(syncs[n - 1]));
        }
    }
}

/// The nearest sync sample before a sample is that from which it is decoded. Where there is none,
/// no sample up to it is a sync sample.
pub proof fn samples_decode_from_the_nearest_sync(samples: Seq<SampleInfo>, i: DecodeIdx)
    requires
        samples.len() <= u32::MAX,
        i.0 < samples.len(),
    ensures
        ({
            let syncs = order_map::sync_indices(samples, samples.len() as int);
            match order_map::last_at_or_before(syncs, i, syncs.len() as int) {
                Some(s) => decodes_from(samples, i.0 as int, s.0 as int),
                None => forall|j: int| 0 <= j <= i.0 ==> !(#[trigger] samples[j]).is_sync,
            }
        }),
{
    lemma_last_at_or_before(samples, i);
}

/// A frame of the index agrees with the samples: it is the sample that is shown at its place, and
/// the sample from which it is decoded is the one that the index names.
pub open spec fn frame_agrees(
    samples: Seq<SampleInfo>,
    pairs: Seq<(DisplayIdx, DecodeIdx)>,
    frame: DtviFrame,
) -> bool {
    &&& frame.frame_number.0 < pairs.len()
    &&& pairs[frame.frame_number.0 as int].1.0 == frame.sample_number.0
    &&& decodes_from(
        samples,
        frame.sample_number.0 as int,
        frame.random_access_sample.0 as int,
    )
}

proof fn lemma_row(
    samples: Seq<SampleInfo>,
    pairs: Seq<(DisplayIdx, DecodeIdx)>,
    frame: DtviFrame,
)
    requires
        order_map::is_display_order(samples, pairs),
        samples.len() <= u32::MAX,
    ensures
        order_map::row_mismatch(
            pairs,
            order_map::sync_indices(samples, samples.len() as int),
            frame,
        ) is None <==> frame_agrees(samples, pairs, frame),
{
    let d = frame.frame_number;
    if d.0 < pairs.len() {
        assert(pairs[d.0 as int].0.0 == d.0);
        assert(order::first_with_display(pairs, d, d.0 as int));
        order::lemma_decode_of(pairs, d, d.0 as int);
        let decode = pairs[d.0 as int].1;
        lemma_last_at_or_before(samples, decode);
        if frame_agrees(samples, pairs, frame) {
            let s = frame.random_access_sample.0 as int;
            assert(samples[s].is_sync);
        }
    } else {
        assert forall|k: int| !#[trigger] order::first_with_display(pairs, d, k) by {
            if 0 <= k < pairs.len() {
                assert(pairs[k].0.0 == k);
            }
        }
    }
}

/// The index of a file passes the comparison with its samples where, and only where, all its
/// frames agree with them.
pub proof fn indexes_pass_where_all_frames_agree(
    samples: Seq<SampleInfo>,
    pairs: Seq<(DisplayIdx, DecodeIdx)>,
    frames: Seq<DtviFrame>,
    r: Result<(), DtviMismatch>,
)
    requires
        order_map::is_display_order(samples, pairs),
        samples.len() <= u32::MAX,
        order_map::frames_checked(
            pairs,
            order_map::sync_indices(samples, samples.len() as int),
            frames,
            r,
        ),
    ensures
        r is Ok <==> forall|i: int|
            0 <= i < frames.len() ==> frame_agrees(samples, pairs, #[trigger] frames[i]),
{
    let syncs = order_map::sync_indices(samples, samples.len() as int);
    assert forall|i: int| 0 <= i < frames.len() implies frame_agrees(
        samples,
        pairs,
        #[trigger] frames[i],
    ) == (order_map::row_mismatch(pairs, syncs, frames[i]) is None) by {
        lemma_row(samples, pairs, frames[i]);
    }
}

/// The mismatch that is told is that of the first frame that does not agree, and says in what: there
/// is no such frame, it is another sample, nothing it could be decoded from comes before it, or
/// decoding starts elsewhere.
pub proof fn first_mismatch_is_told(
    samples: Seq<SampleInfo>,
    pairs: Seq<(DisplayIdx, DecodeIdx)>,
    frames: Seq<DtviFrame>,
    e: DtviMismatch,
) -> (i: int)
    requires
        order_map::is_display_order(samples, pairs),
        samples.len() <= u32::MAX,
        order_map::frames_checked(
            pairs,
            order_map::sync_indices(samples, samples.len() as int),
            frames,
            Err(e),
        ),
    ensures
        0 <= i < frames.len(),
        !frame_agrees(samples, pairs, frames[i]),
        forall|j: int| 0 <= j < i ==> frame_agrees(samples, pairs, #[trigger] frames[j]),
        ({
            let frame = frames[i];
            let d = frame.frame_number.0 as int;
            match e {
                DtviMismatch::MissingFrame { frame_number, sample_number } => {
                    &&& frame_number == frame.frame_number
                    &&& sample_number == frame.sample_number
                    &&& d >= samples.len()
                },
                DtviMismatch::SampleNumber { frame_number, indexed, derived } => {
                    &&& frame_number == frame.frame_number
                    &&& indexed == frame.sample_number
                    &&& d < samples.len()
                    &&& derived == pairs[d].1
                    &&& derived != indexed
                },
                DtviMismatch::MissingSync { frame_number, sample_number } => {
                    &&& frame_number == frame.frame_number
                    &&& d < samples.len()
                    &&& sample_number == pairs[d].1
                    &&& sample_number == frame.sample_number
                    &&& forall|j: int|
                        0 <= j <= sample_number.0 ==> !(#[trigger] samples[j]).is_sync
                },
                DtviMismatch::RandomAccess { frame_number, indexed, derived } => {
                    &&& frame_number == frame.frame_number
                    &&& indexed == frame.random_access_sample
                    &&& d < samples.len()
                    &&& frame.sample_number == pairs[d].1
                    &&& decodes_from(samples, frame.sample_number.0 as int, derived.0 as int)
                    &&& derived != indexed
                },
            }
        }),
{
    let syncs = order_map::sync_indices(samples, samples.len() as int);
    let i = choose|i: int|
        {
            &&& 0 <= i < frames.len()
            &&& order_map::row_mismatch(pairs, syncs, #[trigger] frames[i]) == Some(e)
            &&& forall|j: int|
                0 <= j < i ==> order_map::row_mismatch(pairs, syncs, #[trigger] frames[j]) is None
        };
    assert forall|j: int| 0 <= j < i implies frame_agrees(
        samples,
        pairs,
        #[trigger] frames[j],
    ) by {
        lemma_row(samples, pairs, frames[j]);
    }
    let frame = frames[i];
    lemma_row(samples, pairs, frame);
    let d = frame.frame_number;
    if d.0 < pairs.len() {
        assert(pairs[d.0 as int].0.0 == d.0);
        assert(order::first_with_display(pairs, d, d.0 as int));
        order::lemma_decode_of(pairs, d, d.0 as int);
        lemma_last_at_or_before(samples, pairs[d.0 as int].1);
    }
    i
}

/// When samples are shown at the same time, the earliest such time is told, and all samples that
/// are shown then, in the order in which they are decoded.
pub proof fn earliest_tie_is_told(samples: Seq<SampleInfo>, tie: TiedCompositionTime, i: int, j: int)
    requires
        order_map::is_first_tie(samples, tie),
        0 <= i < samples.len(),
        0 <= j < samples.len(),
    ensures
        tie.decode_indices@.len() >= 2,
        (exists|a: int| 0 <= a < tie.decode_indices@.len() && #[trigger] tie.decode_indices@[a] == i)
            <==> order_map::dts_of(samples, i) + samples[i].cts_offset == tie.time,
        forall|a: int, b: int|
            0 <= a < b < tie.decode_indices@.len() ==> #[trigger] tie.decode_indices@[a]
                < #[trigger] tie.decode_indices@[b],
        i != j && order_map::dts_of(samples, i) + samples[i].cts_offset == order_map::dts_of(
            samples,
            j,
        ) + samples[j].cts_offset ==> tie.time <= order_map::dts_of(samples, i)
            + samples[i].cts_offset,
{
    assert(order_map::cts_of(samples, i) == order_map::dts_of(samples, i) + samples[i].cts_offset);
    assert(order_map::cts_of(samples, j) == order_map::dts_of(samples, j) + samples[j].cts_offset);
}

/// The display indices of the sync samples are those, and only those, at which a sync sample is
/// shown.
pub proof fn sync_samples_are_found_by_display(
    samples: Seq<SampleInfo>,
    pairs: Seq<(DisplayIdx, DecodeIdx)>,
    d: u32,
)
    requires
        order_map::is_display_order(samples, pairs),
        samples.len() <= u32::MAX,
        d < pairs.len(),
    ensures
        ({
            let syncs = order_map::sync_indices(samples, samples.len() as int);
            order_map::displays_of(pairs, syncs, syncs.len() as int).contains(DisplayIdx(d))
                <==> samples[pairs[d as int].1.0 as int].is_sync
        }),
{
    let n = samples.len() as int;
    let syncs = order_map::sync_indices(samples, n);
    let shown = order_map::displays_of(pairs, syncs, syncs.len() as int);
    sync_samples_are_listed(samples, n);
    order_map::display_order_is_one_to_one(samples, pairs);
    lemma_displays(pairs, syncs, syncs.len() as int, DisplayIdx(d));
    let decode = pairs[d as int].1;
    assert(pairs[d as int].0.0 == d);
    assert(order::decode_of(pairs, DisplayIdx(d)) == Some(decode));
    order::display_round_trip(pairs, DisplayIdx(d));
    if samples[decode.0 as int].is_sync {
        assert(syncs.contains(DecodeIdx(decode.0)));
    }
    if shown.contains(DisplayIdx(d)) {
        let k = choose|k: int|
            0 <= k < syncs.len() && order::display_of(pairs, #[trigger] syncs[k]) == Some(
                DisplayIdx(d),
            );
        order::decode_round_trip(pairs, syncs[k]);
        assert(syncs[k] == decode);
    }
}

proof fn lemma_displays(
    pairs: Seq<(DisplayIdx, DecodeIdx)>,
    syncs: Seq<DecodeIdx>,
    n: int,
    d: DisplayIdx,
)
    requires
        0 <= n <= syncs.len(),
    ensures
        order_map::displays_of(pairs, syncs, n).contains(d) <==> exists|k: int|
            0 <= k < n && order::display_of(pairs, #[trigger] syncs[k]) == Some(d),
    decreases n,
{
    if n > 0 {
        lemma_displays(pairs, syncs, n - 1, d);
        let before = order_map::displays_of(pairs, syncs, n - 1);
        let all = order_map::displays_of(pairs, syncs, n);
        if let Some(e) = order::display_of(pairs, syncs[n - 1]) {
            assert(all == before.push(e));
            if before.contains(d) {
                let k = choose|k: int| 0 <= k < before.len() && before[k] == d;
                assert(all[k] == d);
            }
            if e == d {
                assert(all[before.len() as int] == d);
            }
            if all.contains(d) && e != d {
                let k = choose|k: int| 0 <= k < all.len() && all[k] == d;
                assert(before[k] == d);
            }
        }
    }
}

/// The decode time of a sample is the sum of the durations before it, and all decode times are in
/// order.
pub proof fn decode_times_ascend(samples: Seq<SampleInfo>, i: int, j: int)
    requires
        0 <= i <= j <= samples.len(),
    ensures
        0 <= order_map::dts_of(samples, i) <= order_map::dts_of(samples, j),
{
    sums::lemma_sum_to_monotone(mp4io::write::durations_of(samples), i, j);
}

/// A file is prepared where it has an edit list or subtitles. Subtitles are taken out of it where
/// none are given, in the format that their kind asks for.
pub proof fn files_are_prepared_where_needed(inspection: MoovInspection, external_given: bool)
    ensures
        !inspection.spec_needs_strip() <==> !inspection.has_edit_list && inspection.subtitle is None,
        inspection.spec_extracted(external_given) is Some <==> !external_given
            && inspection.subtitle is Some,
        inspection.spec_extracted(external_given) is Some ==> inspection.spec_extracted(
            external_given,
        ) == inspection.subtitle,
        SubtitleFormat::Tx3g.spec_extension() == SubtitleFormat::Wvtt.spec_extension(),
        SubtitleFormat::Tx3g.spec_extension() == "srt"@,
        SubtitleFormat::Unknown.spec_extension() == "ass"@,
{
}

/// The input is read as it is, and what is prepared is written as the last file. The files are named
/// nowhere else.
pub proof fn prepared_file_is_made_of_the_input(
    a: Seq<char>,
    b: Seq<char>,
    p: Seq<char>,
    q: Seq<char>,
    i: int,
)
    requires
        0 <= i < prepare::strip_args(a, p).len(),
    ensures
        prepare::strip_args(a, p).len() == prepare::strip_args(b, q).len(),
        i != 5 && i + 1 != prepare::strip_args(a, p).len() ==> prepare::strip_args(a, p)[i]
            == prepare::strip_args(b, q)[i],
        i == 5 ==> prepare::strip_args(a, p)[i - 1] == "-i"@ && prepare::strip_args(a, p)[i] == a,
        i + 1 == prepare::strip_args(a, p).len() ==> prepare::strip_args(a, p)[i] == p,
{
}

/// Times fit where there are no more samples than 32 bits count, and every sample is decoded and
/// shown at a time of 64 bits.
pub proof fn times_fit_in_64_bits(samples: Seq<SampleInfo>)
    ensures
        order_map::times_fit(samples) <==> {
            &&& samples.len() <= u32::MAX
            &&& forall|i: int|
                0 <= i < samples.len() ==> {
                    &&& #[trigger] order_map::dts_of(samples, i) <= i64::MAX
                    &&& i64::MIN <= order_map::dts_of(samples, i) + samples[i].cts_offset
                        <= i64::MAX
                }
        },
{
    if order_map::times_fit(samples) {
        assert forall|i: int| 0 <= i < samples.len() implies #[trigger] order_map::dts_of(samples, i)
            <= i64::MAX && i64::MIN <= order_map::dts_of(samples, i) + samples[i].cts_offset
            <= i64::MAX by {
            assert(order_map::time_fits(samples, i));
        }
    }
    if forall|i: int|
        0 <= i < samples.len() ==> {
            &&& #[trigger] order_map::dts_of(samples, i) <= i64::MAX
            &&& i64::MIN <= order_map::dts_of(samples, i) + samples[i].cts_offset <= i64::MAX
        } {
        assert forall|i: int| 0 <= i < samples.len() implies #[trigger] order_map::time_fits(
            samples,
            i,
        ) by {
            assert(order_map::dts_of(samples, i) <= i64::MAX);
        }
    }
}

} // verus!
