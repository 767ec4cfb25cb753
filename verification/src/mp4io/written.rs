//! What is read back from a written file.
//!
//! A written file is what the plan says, with the bytes of the `moov` atom behind it. These
//! bytes are made elsewhere: here they are any bytes, and the movie that they stand for is any
//! movie with the tables of the plan.

use crate::bytes;
use crate::mp4io;
use crate::mp4io::boxes::{Moov, Stbl, StszSamples, Trak};
use crate::mp4io::interleave;
use crate::mp4io::lossless;
use crate::mp4io::placement;
use crate::mp4io::read;
use crate::mp4io::read::{SampleInfo, SampleTableError};
use crate::mp4io::write::OutputPlan;
use crate::order::DecodeIdx;
use crate::sums;
use vstd::prelude::*;

verus! {

/// The whole output, where `moov_atom` is what is written of the movie.
pub open spec fn written_file(input: Seq<u8>, plan: OutputPlan, moov_atom: Seq<u8>) -> Seq<u8> {
    lossless::output_front(input, plan) + moov_atom
}

/// The contents of two optional tables are the same.
pub open spec fn same_entries<T>(a: Option<Vec<T>>, b: Option<Vec<T>>) -> bool {
    match (a, b) {
        (Some(x), Some(y)) => x@ == y@,
        (None, None) => true,
        _ => false,
    }
}

/// The contents of two sets of sample tables are the same.
pub open spec fn same_tables(a: Stbl, b: Stbl) -> bool {
    &&& a.codecs@ == b.codecs@
    &&& match (a.stsz, b.stsz) {
        (
            StszSamples::Identical { count: m, size: x },
            StszSamples::Identical { count: n, size: y },
        ) => m == n && x == y,
        (StszSamples::Different { sizes: x }, StszSamples::Different { sizes: y }) => x@ == y@,
        _ => false,
    }
    &&& a.stts@ == b.stts@
    &&& same_entries(a.ctts, b.ctts)
    &&& same_entries(a.stss, b.stss)
    &&& a.stsc@ == b.stsc@
    &&& same_entries(a.stco, b.stco)
    &&& same_entries(a.co64, b.co64)
}

/// `written` is a movie with the tracks of the plan: each has the tables of the plan, and is
/// otherwise as in the input.
pub open spec fn is_written_movie(moov: Moov, plan: OutputPlan, written: Moov) -> bool {
    &&& written.timescale == moov.timescale
    &&& written.trak@.len() == plan.tracks@.len()
    &&& forall|i: int|
        0 <= i < written.trak@.len() ==> {
            let from = moov.trak@[plan.tracks@[i].track_index as int];
            &&& same_tables((#[trigger] written.trak@[i]).stbl, plan.tracks@[i].stbl)
            &&& written.trak@[i].timescale == from.timescale
            &&& written.trak@[i].has_edit_list == from.has_edit_list
        }
}

/// The tracks, among the first `n`, whose keep list is not empty.
pub open spec fn kept_tracks(keep: Seq<Vec<DecodeIdx>>, n: int) -> Seq<int>
    decreases n,
{
    if n <= 0 {
        Seq::empty()
    } else if keep[n - 1]@.len() > 0 {
        kept_tracks(keep, n - 1).push(n - 1)
    } else {
        kept_tracks(keep, n - 1)
    }
}

/// `info`, in the file `file`, is the sample `sample` of `input`: everything but its place is the
/// same, and so are its bytes.
pub open spec fn is_copy_of(
    input: Seq<u8>,
    sample: SampleInfo,
    file: Seq<u8>,
    info: SampleInfo,
) -> bool {
    &&& info == (SampleInfo { file_offset: info.file_offset, ..sample })
    &&& sample.size > 0 ==> sample.file_offset + sample.size <= input.len()
    &&& info.file_offset + info.size <= file.len()
    &&& lossless::piece_of(file, info.file_offset as int, info.size as int) == lossless::piece_of(
        input,
        sample.file_offset as int,
        sample.size as int,
    )
}

/// `infos`, in the file `file`, are the samples of `input` that `keep` names among `all`.
pub open spec fn are_kept_samples(
    input: Seq<u8>,
    all: Seq<SampleInfo>,
    keep: Seq<DecodeIdx>,
    file: Seq<u8>,
    infos: Seq<SampleInfo>,
) -> bool {
    &&& infos.len() == keep.len()
    &&& forall|j: int|
        0 <= j < keep.len() ==> {
            &&& (#[trigger] keep[j]).0 < all.len()
            &&& is_copy_of(input, all[keep[j].0 as int], file, infos[j])
        }
}

/// Reading the track `to` of the file `file` gives the samples that `keep` names of the track
/// `from` of `input`. The sample entries and the timescale are the same, and `media_duration` is
/// how long the samples are together.
pub open spec fn track_reads_back(
    input: Seq<u8>,
    from: Trak,
    keep: Seq<DecodeIdx>,
    file: Seq<u8>,
    to: Trak,
    media_duration: u64,
) -> bool {
    &&& to.stbl.codecs@ == from.stbl.codecs@
    &&& to.timescale == from.timescale
    &&& to.stbl.is_readable(file.len() as u64)
    &&& exists|all: Seq<SampleInfo>| #[trigger]
        read::samples_restored(from.stbl, input.len() as u64, Ok(all))
    &&& exists|infos: Seq<SampleInfo>| #[trigger]
        read::samples_restored(to.stbl, file.len() as u64, Ok(infos))
    &&& forall|all: Seq<SampleInfo>, r: Result<Seq<SampleInfo>, SampleTableError>|
        #[trigger] read::samples_restored(from.stbl, input.len() as u64, Ok(all))
            && #[trigger] read::samples_restored(to.stbl, file.len() as u64, r) ==> {
            &&& r is Ok
            &&& are_kept_samples(input, all, keep, file, r->Ok_0)
            &&& media_duration == sums::sum(mp4io::write::durations_of(r->Ok_0))
        }
}

proof fn lemma_same_tables_read_alike(
    a: Stbl,
    b: Stbl,
    file_len: u64,
    infos: Seq<SampleInfo>,
)
    requires
        same_tables(a, b),
        b.is_addressable(),
        read::samples_restored(b, file_len, Ok(infos)),
    ensures
        a.is_addressable(),
        read::samples_restored(a, file_len, Ok(infos)),
{
    assert(a.stsz.sizes() =~= b.stsz.sizes());
    assert(a.chunk_offsets() =~= b.chunk_offsets());
    assert(a.visits() == b.visits());
    assert(a.durations() == b.durations());
    assert(a.cts_offsets() == b.cts_offsets());
    assert forall|k: int| a.is_sync(k) == b.is_sync(k) by {}
    assert forall|k: int| 0 <= k < infos.len() implies read::is_sample(a, k, #[trigger] infos[k]) by {
        assert(read::is_sample(b, k, infos[k]));
        let p = choose|p: int| read::is_sample_at(b, k, p, infos[k]);
        assert(read::is_sample_at(a, k, p, infos[k]));
    }
    assert forall|k: int, p: int|
        0 <= k < a.stsz.sizes().len() && #[trigger] read::lies_in(
            a.visits(),
            k,
            p,
        ) implies a.end_fits(k, p) by {
        assert(b.end_fits(k, p));
    }
}

proof fn lemma_kept_tracks(
    keep: Seq<Vec<DecodeIdx>>,
    kept: Seq<Seq<SampleInfo>>,
    n: int,
)
    requires
        0 <= n <= keep.len() == kept.len(),
        forall|t: int| 0 <= t < keep.len() ==> (#[trigger] keep[t])@.len() == kept[t].len(),
    ensures
        kept_tracks(keep, n) == mp4io::write::included_tracks(kept, n),
        forall|i: int|
            0 <= i < kept_tracks(keep, n).len() ==> 0 <= #[trigger] kept_tracks(keep, n)[i] < n,
    decreases n,
{
    if n > 0 {
        lemma_kept_tracks(keep, kept, n - 1);
        assert(keep[n - 1]@.len() == kept[n - 1].len());
    }
}

/// One track of the file, once all tracks are known to have been resolved.
proof fn lemma_track_reads_back(
    moov: Moov,
    keep: Seq<Vec<DecodeIdx>>,
    kept: Seq<Seq<SampleInfo>>,
    plan: OutputPlan,
    written: Moov,
    input: Seq<u8>,
    moov_atom: Seq<u8>,
    i: int,
)
    requires
        input.len() <= u64::MAX,
        keep.len() == kept.len() == moov.trak@.len(),
        forall|t: int|
            0 <= t < keep.len() ==> mp4io::write::track_resolved(
                (#[trigger] moov.trak@[t]).stbl,
                input.len() as u64,
                t as usize,
                keep[t]@,
                Ok(kept[t]),
            ),
        mp4io::write::sums_fit(moov, kept),
        mp4io::write::is_output_plan(moov, kept, plan),
        interleave::keeps_tracks(kept, mp4io::write::timescales_of(moov.trak@), plan.chunks@),
        lossless::lies_within(input, kept),
        is_written_movie(moov, plan, written),
        written_file(input, plan, moov_atom).len() <= u64::MAX,
        0 <= i < plan.tracks@.len(),
        plan.tracks@[i].track_index < keep.len(),
        plan.tracks@[i].track_index == mp4io::write::included_tracks(
            kept,
            kept.len() as int,
        )[i],
        keep[plan.tracks@[i].track_index as int]@.len() <= moov_atom.len(),
    ensures
        ({
            let t = plan.tracks@[i].track_index as int;
            track_reads_back(
                input,
                moov.trak@[t],
                keep[t]@,
                written_file(input, plan, moov_atom),
                written.trak@[i],
                plan.tracks@[i].media_duration,
            )
        }),
{
    let file = written_file(input, plan, moov_atom);
    let file_len = file.len() as u64;
    let front = lossless::output_front(input, plan);
    let track = plan.tracks@[i];
    let t = track.track_index as int;
    let from = moov.trak@[t];
    let to = written.trak@[i];
    assert(same_tables(to.stbl, track.stbl));
    assert(mp4io::write::is_track_plan(moov, kept, plan.chunks@, plan.layout, t, track));
    lossless::lemma_front_len(moov, kept, plan, input);
    assert(mp4io::write::track_resolved(
        from.stbl,
        input.len() as u64,
        t as usize,
        keep[t]@,
        Ok(kept[t]),
    ));
    lossless::resolved_samples_match_tables(
        from.stbl,
        input.len() as u64,
        t as usize,
        keep[t]@,
        kept[t],
    );
    let here = choose|all: Seq<SampleInfo>|
        {
            &&& #[trigger] read::samples_restored(from.stbl, input.len() as u64, Ok(all))
            &&& mp4io::write::kept_resolved(t as usize, keep[t]@, all, Ok(kept[t]))
        };
    lossless::rewritten_tables_read_back(moov, kept, plan, i, file_len);
    let infos = lossless::relocated(kept, plan, t);
    lemma_same_tables_read_alike(to.stbl, track.stbl, file_len, infos);
    assert forall|j: int| 0 <= j < keep[t]@.len() implies {
        &&& (#[trigger] keep[t]@[j]).0 < here.len()
        &&& is_copy_of(input, here[keep[t]@[j].0 as int], file, infos[j])
    } by {
        let sample = kept[t][j];
        assert(sample == here[keep[t]@[j].0 as int]);
        lossless::kept_samples_are_bit_identical(moov, kept, plan, input, t, j);
        let start = lossless::output_offset(
            kept,
            plan.chunks@,
            plan.layout.body_start as int,
            t,
            j,
        );
        assert(infos[j].file_offset == start);
        assert(lossless::piece_of(file, start, sample.size as int) =~= lossless::piece_of(
            front,
            start,
            sample.size as int,
        ));
    }
    assert(mp4io::write::durations_of(infos) =~= mp4io::write::durations_of(kept[t]));
    assert forall|all: Seq<SampleInfo>, r: Result<Seq<SampleInfo>, SampleTableError>|
        #[trigger] read::samples_restored(from.stbl, input.len() as u64, Ok(all))
            && #[trigger] read::samples_restored(to.stbl, file_len, r) implies {
        &&& r is Ok
        &&& are_kept_samples(input, all, keep[t]@, file, r->Ok_0)
        &&& track.media_duration == sums::sum(mp4io::write::durations_of(r->Ok_0))
    } by {
        read::samples_are_determined(from.stbl, here, all);
        read::samples_are_determined(to.stbl, infos, r->Ok_0);
    }
}

/// A written file reads back as what was kept of the input. Where the keep lists were resolved
/// and the output was planned and written, the movie of the output has one track for each keep
/// list that is not empty, in the order of the tracks of the input, with the same sample entries.
/// Reading the samples of that track, from the file with the `moov` atom at its end, gives the
/// samples that the list names, in its order: with the size, the duration, the offset and the sync
/// flag that they have in the input, and with the same bytes. The duration of the track is that of
/// its samples together.
///
/// The bytes of the kept samples have to lie within the input, or else they cannot be copied. The
/// `moov` atom has at least as many bytes as a list has entries: its `stsz` table has four bytes
/// for each.
pub proof fn written_file_reads_back(
    moov: Moov,
    keep: Seq<Vec<DecodeIdx>>,
    kept: Vec<Vec<SampleInfo>>,
    plan: OutputPlan,
    written: Moov,
    input: Seq<u8>,
    moov_atom: Seq<u8>,
)
    requires
        input.len() <= u64::MAX,
        mp4io::write::tracks_resolved(moov, input.len() as u64, keep, Ok(kept)),
        mp4io::write::sums_fit(moov, interleave::sample_lists(kept@)),
        mp4io::write::is_output_plan(moov, interleave::sample_lists(kept@), plan),
        interleave::keeps_tracks(
            interleave::sample_lists(kept@),
            mp4io::write::timescales_of(moov.trak@),
            plan.chunks@,
        ),
        lossless::lies_within(input, interleave::sample_lists(kept@)),
        is_written_movie(moov, plan, written),
        written_file(input, plan, moov_atom).len() <= u64::MAX,
        forall|t: int| 0 <= t < keep.len() ==> (#[trigger] keep[t])@.len() <= moov_atom.len(),
    ensures
        keep.len() == moov.trak@.len(),
        written.trak@.len() == kept_tracks(keep, keep.len() as int).len(),
        written.trak@.len() > 0,
        forall|i: int|
            0 <= i < written.trak@.len() ==> {
                let t = kept_tracks(keep, keep.len() as int)[i];
                &&& 0 <= t < keep.len()
                &&& plan.tracks@[i].track_index == t
                &&& track_reads_back(
                    input,
                    moov.trak@[t],
                    keep[t]@,
                    written_file(input, plan, moov_atom),
                    #[trigger] written.trak@[i],
                    plan.tracks@[i].media_duration,
                )
            },
{
    let lists = interleave::sample_lists(kept@);
    let n = keep.len() as int;
    assert forall|t: int| 0 <= t < keep.len() implies mp4io::write::track_resolved(
        (#[trigger] moov.trak@[t]).stbl,
        input.len() as u64,
        t as usize,
        keep[t]@,
        Ok(lists[t]),
    ) by {
        assert(lists[t] == kept@[t]@);
    }
    assert forall|t: int| 0 <= t < keep.len() implies (#[trigger] keep[t])@.len()
        == lists[t].len() by {
        assert(mp4io::write::track_resolved(
            moov.trak@[t].stbl,
            input.len() as u64,
            t as usize,
            keep[t]@,
            Ok(lists[t]),
        ));
    }
    lemma_kept_tracks(keep, lists, n);
    let some = choose|t: int| 0 <= t < kept@.len() && (#[trigger] kept@[t])@.len() > 0;
    lemma_kept_track_is_listed(keep, some, n);
    assert forall|i: int| 0 <= i < written.trak@.len() implies {
        let t = kept_tracks(keep, n)[i];
        &&& 0 <= t < keep.len()
        &&& plan.tracks@[i].track_index == t
        &&& track_reads_back(
            input,
            moov.trak@[t],
            keep[t]@,
            written_file(input, plan, moov_atom),
            #[trigger] written.trak@[i],
            plan.tracks@[i].media_duration,
        )
    } by {
        let t = kept_tracks(keep, n)[i];
        assert(mp4io::write::is_track_plan(
            moov,
            lists,
            plan.chunks@,
            plan.layout,
            t,
            plan.tracks@[i],
        ));
        lemma_track_reads_back(moov, keep, lists, plan, written, input, moov_atom, i);
    }
}

proof fn lemma_kept_track_is_listed(keep: Seq<Vec<DecodeIdx>>, t: int, n: int)
    requires
        0 <= t < n <= keep.len(),
        keep[t]@.len() > 0,
    ensures
        kept_tracks(keep, n).len() > 0,
    decreases n,
{
    if t < n - 1 {
        lemma_kept_track_is_listed(keep, t, n - 1);
    }
}

/// An atom of `size` bytes and of the given kind starts at `at`: its size stands before its kind,
/// or behind it where 32 bits do not hold it.
pub open spec fn starts_atom(file: Seq<u8>, at: int, kind: Seq<u8>, size: int) -> bool {
    ||| {
        &&& 8 <= size <= u32::MAX
        &&& lossless::piece_of(file, at, 8) == bytes::be32(size as u32) + kind
    }
    ||| {
        &&& 16 <= size <= u64::MAX
        &&& lossless::piece_of(file, at, 16) == bytes::be32(1) + kind + bytes::be64(size as u64)
    }
}

/// The four bytes `ftyp`.
pub open spec fn ftyp_kind() -> Seq<u8> {
    seq![0x66u8, 0x74, 0x79, 0x70]
}

/// The atoms of a written file follow each other: first the `ftyp` atom, then the `mdat` atom with
/// the bytes of the kept samples, and what is written of the movie right behind it.
pub proof fn atoms_follow_each_other(
    moov: Moov,
    kept: Seq<Seq<SampleInfo>>,
    plan: OutputPlan,
    input: Seq<u8>,
    moov_atom: Seq<u8>,
)
    requires
        mp4io::write::is_output_plan(moov, kept, plan),
        interleave::keeps_tracks(kept, mp4io::write::timescales_of(moov.trak@), plan.chunks@),
        mp4io::write::sums_fit(moov, kept),
        kept.len() == moov.trak@.len(),
    ensures
        ({
            let file = written_file(input, plan, moov_atom);
            let ftyp_len = mp4io::write::output_ftyp().len() as int;
            let mdat_len = plan.layout.header_len + placement::total_bytes(
                kept,
                kept.len() as int,
            );
            &&& starts_atom(file, 0, ftyp_kind(), ftyp_len)
            &&& starts_atom(file, ftyp_len, mp4io::write::mdat_kind(), mdat_len)
            &&& file.len() == ftyp_len + mdat_len + moov_atom.len()
            &&& file.subrange(ftyp_len + mdat_len, file.len() as int) == moov_atom
        }),
{
    let file = written_file(input, plan, moov_atom);
    let ftyp = mp4io::write::output_ftyp();
    let body_len = placement::total_bytes(kept, kept.len() as int) as u64;
    let header = mp4io::write::mdat_header(plan.layout, body_len).0;
    lossless::lemma_front_len(moov, kept, plan, input);
    mp4io::write::lemma_total_bytes_monotone(kept, 0, kept.len() as int);
    mp4io::write::planned_header_fits(ftyp.len() as u64, body_len, plan.layout);
    let total = plan.layout.header_len + body_len;
    assert(ftyp.len() == 32);
    assert(lossless::piece_of(file, 0, 8) =~= bytes::be32(32) + ftyp_kind());
    assert forall|i: int| 0 <= i < header.len() implies file[32 + i] == #[trigger] header[i] by {
        assert(plan.head@[32 + i] == header[i]);
    }
    if plan.layout.use_largesize {
        assert(lossless::piece_of(file, 32, 16) =~= header);
    } else {
        assert(lossless::piece_of(file, 32, 8) =~= header);
    }
    assert(file.subrange(32 + total, file.len() as int) =~= moov_atom);
}

} // verus!
