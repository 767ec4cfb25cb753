//! What sample tables stand for, sample by sample.

use crate::mp4io::boxes::{CttsEntry, Stbl, StscEntry, StszSamples, SttsEntry};
use crate::mp4io::read;
use crate::mp4io::read::{CountTable, SampleInfo, SampleTableError};
use crate::runs;
use crate::sums;
use vstd::prelude::*;

verus! {

/// How many samples the first `e` entries of an `stts` table speak of.
pub open spec fn stts_before(entries: Seq<SttsEntry>, e: int) -> int
    decreases e,
{
    if e <= 0 {
        0
    } else {
        stts_before(entries, e - 1) + entries[e - 1].sample_count
    }
}

/// How many samples the first `e` entries of a `ctts` table speak of.
pub open spec fn ctts_before(entries: Seq<CttsEntry>, e: int) -> int
    decreases e,
{
    if e <= 0 {
        0
    } else {
        ctts_before(entries, e - 1) + entries[e - 1].sample_count
    }
}

/// How many bytes the first `n` samples have.
pub open spec fn bytes_of(stsz: StszSamples, n: int) -> int
    decreases n,
{
    if n <= 0 {
        0
    } else {
        bytes_of(stsz, n - 1) + size_at(stsz, n - 1)
    }
}

/// The size of sample `k`.
pub open spec fn size_at(stsz: StszSamples, k: int) -> u32 {
    match stsz {
        StszSamples::Identical { count, size } => size,
        StszSamples::Different { sizes } => sizes@[k],
    }
}

/// How many samples there are sizes for.
pub open spec fn size_count(stsz: StszSamples) -> int {
    match stsz {
        StszSamples::Identical { count, size } => count as int,
        StszSamples::Different { sizes } => sizes@.len() as int,
    }
}

proof fn lemma_stts_before(entries: Seq<SttsEntry>, e: int)
    requires
        0 <= e <= entries.len(),
    ensures
        stts_before(entries, e) == sums::sum_to(runs::counts(read::stts_runs(entries)), e),
    decreases e,
{
    if e > 0 {
        lemma_stts_before(entries, e - 1);
        assert(runs::counts(read::stts_runs(entries))[e - 1] == entries[e - 1].sample_count);
    }
}

proof fn lemma_ctts_before(entries: Seq<CttsEntry>, e: int)
    requires
        0 <= e <= entries.len(),
    ensures
        ctts_before(entries, e) == sums::sum_to(runs::counts(read::ctts_runs(entries)), e),
    decreases e,
{
    if e > 0 {
        lemma_ctts_before(entries, e - 1);
        assert(runs::counts(read::ctts_runs(entries))[e - 1] == entries[e - 1].sample_count);
    }
}

proof fn lemma_bytes_of(stsz: StszSamples, n: int)
    requires
        0 <= n <= size_count(stsz),
    ensures
        bytes_of(stsz, n) == sums::sum_to(stsz.sizes(), n),
        stsz.sizes().len() == size_count(stsz),
    decreases n,
{
    if n > 0 {
        lemma_bytes_of(stsz, n - 1);
        assert(stsz.sizes()[n - 1] == size_at(stsz, n - 1));
    }
}

/// A value of a run-length coded sequence is that of the run which it lies in.
proof fn lemma_value_of_run<T>(list: Seq<(u32, T)>, e: int, k: int)
    requires
        0 <= e < list.len(),
        sums::sum_to(runs::counts(list), e) <= k < sums::sum_to(runs::counts(list), e + 1),
    ensures
        k < runs::expand(list).len(),
        runs::expand(list)[k] == list[e].1,
{
    runs::lemma_expand_prefix(list, e);
    runs::lemma_expand_prefix(list, e + 1);
    assert(list.take(e + 1) =~= list.take(e).push(list[e]));
    runs::lemma_expand_push(list.take(e), list[e]);
    let part = runs::expand(list.take(e + 1));
    assert(runs::counts(list)[e] == list[e].0);
    assert(part[k] == list[e].1);
    assert(runs::expand(list).take(part.len() as int)[k] == part[k]);
}

/// Tables are accepted where, and only where, they agree with the file and with each other: there
/// are no more samples than the file has bytes, no sample is larger than the file and all together
/// are not, and the entries of `stts` and of `ctts`, where there is one, speak of as many samples
/// as there are sizes.
pub proof fn tables_are_accepted_where_they_agree(stbl: Stbl, file_len: u64)
    ensures
        (exists|infos: Seq<SampleInfo>| #[trigger]
            read::samples_restored(stbl, file_len, Ok(infos))) ==> {
            &&& size_count(stbl.stsz) <= file_len
            &&& forall|k: int|
                0 <= k < size_count(stbl.stsz) ==> #[trigger] size_at(stbl.stsz, k) <= file_len
            &&& bytes_of(stbl.stsz, size_count(stbl.stsz)) <= file_len
            &&& stts_before(stbl.stts@, stbl.stts@.len() as int) == size_count(stbl.stsz)
            &&& stbl.ctts matches Some(entries) ==> ctts_before(entries@, entries@.len() as int)
                == size_count(stbl.stsz)
        },
        ({
            &&& size_count(stbl.stsz) <= file_len
            &&& forall|k: int|
                0 <= k < size_count(stbl.stsz) ==> #[trigger] size_at(stbl.stsz, k) <= file_len
            &&& bytes_of(stbl.stsz, size_count(stbl.stsz)) <= file_len
            &&& stts_before(stbl.stts@, stbl.stts@.len() as int) == size_count(stbl.stsz)
            &&& stbl.ctts matches Some(entries) ==> ctts_before(entries@, entries@.len() as int)
                == size_count(stbl.stsz)
        }) ==> forall|e: SampleTableError| !#[trigger]
            read::samples_restored(stbl, file_len, Err(e)),
{
    let n = size_count(stbl.stsz);
    let sizes = stbl.stsz.sizes();
    lemma_bytes_of(stbl.stsz, n);
    lemma_stts_before(stbl.stts@, stbl.stts@.len() as int);
    if let Some(entries) = stbl.ctts {
        lemma_ctts_before(entries@, entries@.len() as int);
    }
    assert forall|k: int| 0 <= k < n implies #[trigger] size_at(stbl.stsz, k) == sizes[k] by {}
    if sizes.len() <= file_len && read::sizes_checked(stbl.stsz, file_len, Ok(sizes)) {
        assert forall|k: int| 0 <= k < n implies #[trigger] size_at(stbl.stsz, k) <= file_len by {
            lemma_no_oversized(sizes, file_len, k);
        }
    }
    if forall|k: int| 0 <= k < n ==> #[trigger] size_at(stbl.stsz, k) <= file_len {
        assert forall|i: int| !#[trigger] read::first_oversized(sizes, file_len, i) by {
            if 0 <= i < sizes.len() {
                assert(size_at(stbl.stsz, i) <= file_len);
            }
        }
    }
}

proof fn lemma_no_oversized(sizes: Seq<u32>, file_len: u64, k: int)
    requires
        forall|i: int| !#[trigger] read::first_oversized(sizes, file_len, i),
        0 <= k < sizes.len(),
    ensures
        sizes[k] <= file_len,
        forall|j: int| 0 <= j < k ==> #[trigger] sizes[j] <= file_len,
    decreases k,
{
    if k > 0 {
        lemma_no_oversized(sizes, file_len, k - 1);
    }
    assert(!read::first_oversized(sizes, file_len, k));
}

/// An error tells what is wrong, and that what is looked at before it is in order.
pub proof fn errors_tell_what_is_wrong(stbl: Stbl, file_len: u64, e: SampleTableError)
    requires
        read::samples_restored(stbl, file_len, Err(e)),
        size_count(stbl.stsz) <= u64::MAX,
    ensures
        ({
            let n = size_count(stbl.stsz);
            match e {
                SampleTableError::SampleCountExceedsFile { count, file_len: l } => {
                    &&& l == file_len
                    &&& count == n > file_len
                },
                SampleTableError::SampleSizeExceedsFile { size, file_len: l } => {
                    &&& l == file_len
                    &&& 0 < n <= file_len < size
                    &&& stbl.stsz matches StszSamples::Identical { count, size: s } && s == size
                },
                SampleTableError::SampleSizeAtExceedsFile { index, size, file_len: l } => {
                    &&& l == file_len
                    &&& index < n <= file_len
                    &&& size_at(stbl.stsz, index as int) == size > file_len
                    &&& stbl.stsz is Different
                    &&& forall|j: int|
                        0 <= j < index ==> #[trigger] size_at(stbl.stsz, j) <= file_len
                },
                SampleTableError::TotalSizeOverflow { index } => {
                    &&& index < n <= file_len
                    &&& bytes_of(stbl.stsz, index as int) <= u64::MAX < bytes_of(
                        stbl.stsz,
                        index + 1,
                    )
                },
                SampleTableError::TotalSizeExceedsFile { total, file_len: l } => {
                    &&& l == file_len
                    &&& n <= file_len
                    &&& total == bytes_of(stbl.stsz, n) > file_len
                },
                SampleTableError::CountOverflow { table } => match table {
                    CountTable::Stts => stts_before(stbl.stts@, stbl.stts@.len() as int) > u64::MAX,
                    CountTable::Ctts => stbl.ctts matches Some(entries) && ctts_before(
                        entries@,
                        entries@.len() as int,
                    ) > u64::MAX,
                },
                SampleTableError::CountMismatch { table, sum, total } => {
                    &&& total == n && sum != n
                    &&& match table {
                        CountTable::Stts => sum == stts_before(
                            stbl.stts@,
                            stbl.stts@.len() as int,
                        ),
                        CountTable::Ctts => stbl.ctts matches Some(entries) && sum == ctts_before(
                            entries@,
                            entries@.len() as int,
                        ),
                    }
                },
            }
        }),
{
    let n = size_count(stbl.stsz);
    let sizes = stbl.stsz.sizes();
    lemma_bytes_of(stbl.stsz, n);
    lemma_stts_before(stbl.stts@, stbl.stts@.len() as int);
    lemma_counts_are_not_negative(stbl.stts@, stbl.stts@.len() as int);
    if let Some(entries) = stbl.ctts {
        lemma_ctts_before(entries@, entries@.len() as int);
        sums::lemma_sum_to_monotone(
            runs::counts(read::ctts_runs(entries@)),
            0,
            entries@.len() as int,
        );
    }
    assert forall|k: int| 0 <= k < n implies #[trigger] size_at(stbl.stsz, k) == sizes[k] by {}
    if let SampleTableError::TotalSizeOverflow { index } = e {
        if !read::sizes_checked(stbl.stsz, file_len, Ok(sizes)) {
            let i = choose|i: int|
                {
                    &&& #[trigger] read::first_overflowing(sizes, i)
                    &&& e == SampleTableError::TotalSizeOverflow { index: i as u64 }
                };
            lemma_bytes_of(stbl.stsz, i);
            lemma_bytes_of(stbl.stsz, i + 1);
        }
    }
    if let SampleTableError::TotalSizeExceedsFile { total, file_len: l } = e {
        sums::lemma_sum_to_monotone(sizes, 0, n);
    }
}

proof fn lemma_counts_are_not_negative(entries: Seq<SttsEntry>, n: int)
    requires
        0 <= n <= entries.len(),
    ensures
        0 <= stts_before(entries, n),
    decreases n,
{
    if n > 0 {
        lemma_counts_are_not_negative(entries, n - 1);
    }
}

/// A sample has what the tables say of it: its size, the duration and the offset of the entries
/// that speak of it, and it is a sync sample where its number, counted from 1, is listed, or where
/// nothing is listed. Without a `ctts` table samples are shown when they are decoded.
pub proof fn samples_have_what_the_tables_say(
    stbl: Stbl,
    file_len: u64,
    infos: Seq<SampleInfo>,
    k: int,
    d: int,
    o: int,
)
    requires
        read::samples_restored(stbl, file_len, Ok(infos)),
        0 <= k < infos.len(),
        0 <= d < stbl.stts@.len(),
        stts_before(stbl.stts@, d) <= k < stts_before(stbl.stts@, d + 1),
        stbl.ctts matches Some(entries) ==> {
            &&& 0 <= o < entries@.len()
            &&& ctts_before(entries@, o) <= k < ctts_before(entries@, o + 1)
        },
    ensures
        k < size_count(stbl.stsz),
        infos[k].size == size_at(stbl.stsz, k),
        infos[k].duration == stbl.stts@[d].sample_delta,
        infos[k].cts_offset == (match stbl.ctts {
            Some(entries) => entries@[o].sample_offset,
            None => 0,
        }),
        infos[k].is_sync <==> (match stbl.stss {
            Some(numbers) => exists|i: int|
                0 <= i < numbers@.len() && #[trigger] numbers@[i] == k + 1,
            None => true,
        }),
{
    assert(read::is_sample(stbl, k, infos[k]));
    lemma_bytes_of(stbl.stsz, 0);
    assert(stbl.stsz.sizes()[k] == size_at(stbl.stsz, k));
    lemma_stts_before(stbl.stts@, d);
    lemma_stts_before(stbl.stts@, d + 1);
    lemma_value_of_run(read::stts_runs(stbl.stts@), d, k);
    if let Some(entries) = stbl.ctts {
        lemma_ctts_before(entries@, o);
        lemma_ctts_before(entries@, o + 1);
        lemma_value_of_run(read::ctts_runs(entries@), o, k);
    }
}

/// The chunks of a track are those of `stco`, or without one those of `co64`, and the entries of
/// `stsc` speak of all of them in turn, from the first one on.
pub open spec fn speaks_of_all_chunks(entries: Seq<StscEntry>, chunk_count: int) -> bool {
    &&& entries.len() > 0
    &&& entries[0].first_chunk == 1
    &&& forall|i: int, j: int|
        0 <= i < j < entries.len() ==> (#[trigger] entries[i]).first_chunk < (
        #[trigger] entries[j]).first_chunk
    &&& entries.last().first_chunk <= chunk_count
}

proof fn lemma_visits(entries: Seq<StscEntry>, chunk_count: int, n: int)
    requires
        speaks_of_all_chunks(entries, chunk_count),
        0 <= n <= entries.len(),
    ensures
        ({
            let visits = read::chunk_visits(entries, chunk_count, n);
            &&& visits.len() == (if n == 0 {
                0
            } else {
                read::last_chunk_of(entries, chunk_count, n - 1)
            })
            &&& forall|p: int|
                0 <= p < visits.len() ==> (#[trigger] visits[p]).chunk == p + 1 && is_entry_of(
                    entries,
                    p + 1,
                    visits[p].samples,
                )
        }),
    decreases n,
{
    if n > 0 {
        lemma_visits(entries, chunk_count, n - 1);
        let before = read::chunk_visits(entries, chunk_count, n - 1);
        let here = read::entry_visits(entries, chunk_count, n - 1);
        let visits = read::chunk_visits(entries, chunk_count, n);
        let last = n - 1;
        if n < entries.len() {
            assert(entries[last].first_chunk < entries[n].first_chunk);
        }
        assert(before.len() == entries[last].first_chunk - 1);
        assert forall|p: int| 0 <= p < visits.len() implies (#[trigger] visits[p]).chunk == p + 1
            && is_entry_of(entries, p + 1, visits[p].samples) by {
            if p < before.len() {
                assert(visits[p] == before[p]);
            } else {
                assert(visits[p] == here[p - before.len()]);
                assert(entries[last].first_chunk <= p + 1);
                assert forall|f: int| last < f < entries.len() implies (
                #[trigger] entries[f]).first_chunk > p + 1 by {
                    if f > n {
                        assert(entries[n].first_chunk < entries[f].first_chunk);
                    }
                }
            }
        }
    }
}

/// `samples` is what the last entry says that begins at the chunk or before it.
pub open spec fn is_entry_of(entries: Seq<StscEntry>, chunk: int, samples: int) -> bool {
    exists|e: int|
        {
            &&& 0 <= e < entries.len()
            &&& (#[trigger] entries[e]).first_chunk <= chunk
            &&& entries[e].samples_per_chunk == samples
            &&& forall|f: int|
                e < f < entries.len() ==> (#[trigger] entries[f]).first_chunk > chunk
        }
}

/// Where the entries of `stsc` speak of all chunks, the walk goes through all of them in their
/// order, and each holds as many samples as the last entry says that begins at it or before it.
pub proof fn chunks_are_walked_in_order(stbl: Stbl, p: int)
    requires
        speaks_of_all_chunks(stbl.stsc@, stbl.chunk_offsets().len() as int),
        0 <= p < stbl.chunk_offsets().len(),
    ensures
        stbl.visits().len() == stbl.chunk_offsets().len(),
        stbl.visits()[p].chunk == p + 1,
        is_entry_of(stbl.stsc@, p + 1, stbl.visits()[p].samples),
{
    lemma_visits(stbl.stsc@, stbl.chunk_offsets().len() as int, stbl.stsc@.len() as int);
}

/// The first sample of a chunk lies at the offset of the chunk, as `stco` gives it, or `co64` where
/// there is no `stco`.
pub proof fn first_sample_lies_at_the_chunk(
    stbl: Stbl,
    file_len: u64,
    infos: Seq<SampleInfo>,
    k: int,
    p: int,
)
    requires
        read::samples_restored(stbl, file_len, Ok(infos)),
        0 <= k < infos.len(),
        read::lies_in(stbl.visits(), k, p),
        k == read::samples_before(stbl.visits(), p),
        1 <= stbl.visits()[p].chunk,
    ensures
        stbl.stco matches Some(offsets) ==> stbl.visits()[p].chunk <= offsets@.len()
            ==> infos[k].file_offset == offsets@[stbl.visits()[p].chunk - 1],
        stbl.stco is None ==> (stbl.co64 matches Some(offsets) ==> stbl.visits()[p].chunk
            <= offsets@.len() ==> infos[k].file_offset == offsets@[stbl.visits()[p].chunk - 1]),
{
    assert(read::is_sample(stbl, k, infos[k]));
    let q = choose|q: int| read::is_sample_at(stbl, k, q, infos[k]);
    read::sample_lies_in_one_chunk(stbl, k, p, q);
}

/// Tables can be read where samples and chunks have numbers of 32 bits, counted from 1, and no chunk
/// is so far behind in the file that all samples behind its start would end beyond 64 bits.
pub proof fn ordinary_tables_are_readable(stbl: Stbl, file_len: u64)
    requires
        size_count(stbl.stsz) <= u32::MAX,
        stbl.chunk_offsets().len() <= u32::MAX,
        forall|i: int| 0 <= i < stbl.stsc@.len() ==> (#[trigger] stbl.stsc@[i]).first_chunk >= 1,
        forall|c: int|
            0 <= c < stbl.chunk_offsets().len() ==> #[trigger] stbl.chunk_offsets()[c] + bytes_of(
                stbl.stsz,
                size_count(stbl.stsz),
            ) <= u64::MAX,
        bytes_of(stbl.stsz, size_count(stbl.stsz)) <= u64::MAX,
    ensures
        stbl.is_addressable(),
        stbl.is_readable(file_len),
{
    let n = size_count(stbl.stsz);
    let sizes = stbl.stsz.sizes();
    lemma_bytes_of(stbl.stsz, n);
    read::lemma_visits_are_counts(stbl);
    assert forall|k: int, p: int|
        0 <= k < sizes.len() && #[trigger] read::lies_in(stbl.visits(), k, p) implies stbl.end_fits(
        k,
        p,
    ) by {
        let visits = stbl.visits();
        let first = read::samples_before(visits, p);
        read::lemma_samples_before_monotone(visits, 0, p);
        sums::lemma_sum_to_monotone(sizes, k + 1, n);
        sums::lemma_sum_to_monotone(sizes, 0, first);
    }
}

} // verus!
