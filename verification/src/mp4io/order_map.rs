//! Deriving the correspondence of display order and decode order from a track's samples,
//! and checking a frame index against it.
//!
//! Sample `i`, in decode order, is shown at the composition time `dts(i) + cts_offset(i)`,
//! where `dts(i)` is the sum of the durations before it. Sorting by composition time gives
//! the display order. A frame index made by another program is not needed for cutting, but
//! checking it is the one effective defence against a wrong idea of frame numbers, which
//! would cut in the wrong place without any error.

use crate::dtvi::{Dtvi, DtviFrame};
use crate::mp4io;
use crate::mp4io::read::SampleInfo;
use crate::order;
use crate::order::{DecodeIdx, DisplayIdx, OrderMap};
use crate::sort;
use crate::sums;
use crate::text;
use vstd::prelude::*;

verus! {

/// The decoding time of sample `i`: the sum of the durations before it.
pub open spec fn dts_of(samples: Seq<SampleInfo>, i: int) -> int {
    sums::sum_to(mp4io::write::durations_of(samples), i)
}

/// The composition time of sample `i`.
pub open spec fn cts_of(samples: Seq<SampleInfo>, i: int) -> int {
    dts_of(samples, i) + samples[i].cts_offset
}

/// Samples can be numbered with 32 bits, and their times fit in signed 64 bits.
pub open spec fn times_fit(samples: Seq<SampleInfo>) -> bool {
    &&& samples.len() <= u32::MAX
    &&& times_fit_to(samples, samples.len() as int)
}

/// The times of the first `n` samples fit in signed 64 bits.
pub open spec fn times_fit_to(samples: Seq<SampleInfo>, n: int) -> bool {
    forall|i: int| 0 <= i < n ==> #[trigger] time_fits(samples, i)
}

/// The times of sample `i` fit in signed 64 bits.
pub open spec fn time_fits(samples: Seq<SampleInfo>, i: int) -> bool {
    &&& dts_of(samples, i) <= i64::MAX
    &&& i64::MIN <= cts_of(samples, i) <= i64::MAX
}

/// Whether samples can be numbered and their times fit.
pub fn check_times_fit(samples: &[SampleInfo]) -> (b: bool)
    ensures
        b == times_fit(samples@),
{
    if samples.len() as u64 > u32::MAX as u64 {
        return false;
    }
    let ghost durations = mp4io::write::durations_of(samples@);
    let mut dts: i128 = 0;
    let mut i: usize = 0;
    while i < samples.len()
        invariant
            samples@.len() <= u32::MAX,
            durations == mp4io::write::durations_of(samples@),
            i <= samples@.len(),
            dts == dts_of(samples@, i as int),
            0 <= dts <= i * u32::MAX,
            times_fit_to(samples@, i as int),
        decreases samples@.len() - i,
    {
        let sample: SampleInfo = samples[i];
        proof {
            assert(i * u32::MAX <= u32::MAX * u32::MAX) by (nonlinear_arith)
                requires
                    i <= u32::MAX,
            ;
            assert((i + 1) * u32::MAX == i * u32::MAX + u32::MAX) by (nonlinear_arith);
            assert(durations[i as int] == sample.duration);
        }
        let cts: i128 = dts + sample.cts_offset as i128;
        assert(cts == cts_of(samples@, i as int));
        if dts > i64::MAX as i128 || cts < i64::MIN as i128 || cts > i64::MAX as i128 {
            assert(!time_fits(samples@, i as int));
            return false;
        }
        assert(time_fits(samples@, i as int));
        dts = dts + sample.duration as i128;
        i += 1;
    }
    true
}

/// The decoding time of sample `decode`: the sum of the durations before it, without the
/// offset to its composition time. `None` where there is no such sample.
pub fn decode_timestamp(samples: &[SampleInfo], decode: DecodeIdx) -> (r: Option<u64>)
    ensures
        r == (if decode.0 < samples@.len() {
            Some(dts_of(samples@, decode.0 as int) as u64)
        } else {
            None
        }),
        decode.0 < samples@.len() ==> 0 <= dts_of(samples@, decode.0 as int) <= u64::MAX,
{
    let index: usize = decode.0 as usize;
    if index >= samples.len() {
        return None;
    }
    let ghost durations = mp4io::write::durations_of(samples@);
    let mut dts: u64 = 0;
    let mut i: usize = 0;
    while i < index
        invariant
            durations == mp4io::write::durations_of(samples@),
            i <= index < samples@.len(),
            index <= u32::MAX,
            dts == sums::sum_to(durations, i as int),
        decreases index - i,
    {
        proof {
            assert(durations[i as int] == samples@[i as int].duration);
            sums::lemma_sum_to_bound(durations, i + 1);
            assert((i + 1) * u32::MAX <= u32::MAX * u32::MAX) by (nonlinear_arith)
                requires
                    i + 1 <= u32::MAX,
            ;
        }
        dts = dts + samples[i].duration as u64;
        i += 1;
    }
    Some(dts)
}

/// Several samples are shown at the same time, so there is no display order.
#[derive(Debug, Clone)]
pub struct TiedCompositionTime {
    /// The earliest composition time that samples share.
    pub time: i64,
    /// The decode indices of the samples that share it.
    pub decode_indices: Vec<u32>,
}

/// `tie` is the earliest composition time that samples share, with all samples that share
/// it in decode order.
pub open spec fn is_first_tie(samples: Seq<SampleInfo>, tie: TiedCompositionTime) -> bool {
    let indices = tie.decode_indices@;
    &&& indices.len() >= 2
    &&& forall|a: int, b: int|
        0 <= a < b < indices.len() ==> #[trigger] indices[a] < #[trigger] indices[b]
    &&& forall|a: int|
        0 <= a < indices.len() ==> {
            &&& #[trigger] indices[a] < samples.len()
            &&& cts_of(samples, indices[a] as int) == tie.time
        }
    &&& forall|i: int|
        #![trigger samples[i]]
        0 <= i < samples.len() && cts_of(samples, i) == tie.time ==> exists|a: int|
            0 <= a < indices.len() && #[trigger] indices[a] == i
    &&& forall|i: int, j: int|
        0 <= i < j < samples.len() && #[trigger] cts_of(samples, i) == #[trigger] cts_of(
            samples,
            j,
        ) ==> cts_of(samples, i) >= tie.time
}

/// `pairs` numbers the samples in the order of their composition times, which are all
/// different.
pub open spec fn is_display_order(
    samples: Seq<SampleInfo>,
    pairs: Seq<(DisplayIdx, DecodeIdx)>,
) -> bool {
    &&& pairs.len() == samples.len()
    &&& forall|d: int|
        0 <= d < pairs.len() ==> {
            &&& (#[trigger] pairs[d]).0.0 == d
            &&& pairs[d].1.0 < samples.len()
        }
    &&& forall|d: int, e: int|
        0 <= d < e < pairs.len() ==> cts_of(samples, (#[trigger] pairs[d]).1.0 as int) < cts_of(
            samples,
            (#[trigger] pairs[e]).1.0 as int,
        )
}

/// The decode indices of the sync samples among the first `n` samples.
pub open spec fn sync_indices(samples: Seq<SampleInfo>, n: int) -> Seq<DecodeIdx>
    decreases n,
{
    if n <= 0 {
        Seq::empty()
    } else if samples[n - 1].is_sync {
        sync_indices(samples, n - 1).push(DecodeIdx((n - 1) as u32))
    } else {
        sync_indices(samples, n - 1)
    }
}

/// Decode indices in ascending order.
pub open spec fn ascending(indices: Seq<DecodeIdx>) -> bool {
    forall|a: int, b: int|
        0 <= a < b < indices.len() ==> (#[trigger] indices[a]).0 < (#[trigger] indices[b]).0
}

/// The last of the first `n` indices, which ascend, that is at most `i`.
pub open spec fn last_at_or_before(indices: Seq<DecodeIdx>, i: DecodeIdx, n: int) -> Option<
    DecodeIdx,
>
    decreases n,
{
    if n <= 0 {
        None
    } else if indices[n - 1].0 <= i.0 {
        Some(indices[n - 1])
    } else {
        last_at_or_before(indices, i, n - 1)
    }
}

/// The display indices of the first `n` of `indices`, as far as they have one.
pub open spec fn displays_of(
    pairs: Seq<(DisplayIdx, DecodeIdx)>,
    indices: Seq<DecodeIdx>,
    n: int,
) -> Seq<DisplayIdx>
    decreases n,
{
    if n <= 0 {
        Seq::empty()
    } else {
        match order::display_of(pairs, indices[n - 1]) {
            Some(d) => displays_of(pairs, indices, n - 1).push(d),
            None => displays_of(pairs, indices, n - 1),
        }
    }
}

/// The correspondence of display order and decode order, and the sync samples.
pub struct DisplayDecodeMap {
    /// The correspondence of display order and decode order.
    pub order: OrderMap,
    sync_decode_indices: Vec<DecodeIdx>,
}

impl DisplayDecodeMap {
    /// The pairs of display index and decode index.
    pub closed spec fn pairs(&self) -> Seq<(DisplayIdx, DecodeIdx)> {
        self.order@
    }

    /// The decode indices of the sync samples.
    pub closed spec fn syncs(&self) -> Seq<DecodeIdx> {
        self.sync_decode_indices@
    }

    /// The sync samples are in ascending order.
    pub open spec fn well_formed(&self) -> bool {
        ascending(self.syncs())
    }

    /// Derives the correspondence from the samples of a track in decode order. Fails where
    /// two samples have the same composition time.
    pub fn build(samples: &[SampleInfo]) -> (r: Result<Self, TiedCompositionTime>)
        requires
            times_fit(samples@),
        ensures
            match r {
                Ok(map) => {
                    &&& is_display_order(samples@, map.pairs())
                    &&& map.syncs() == sync_indices(samples@, samples@.len() as int)
                    &&& map.well_formed()
                },
                Err(tie) => is_first_tie(samples@, tie),
            },
    {
        let keys: Vec<i128> = composition_times(samples);
        let order: Vec<usize> = sort::stable_order(&keys);
        let n: usize = order.len();
        let mut pairs: Vec<(DisplayIdx, DecodeIdx)> = Vec::new();
        let mut i: usize = 0;
        while i < n
            invariant
                times_fit(samples@),
                keys@.len() == samples@.len(),
                forall|j: int| 0 <= j < keys@.len() ==> #[trigger] keys@[j] == cts_of(samples@, j),
                sort::is_stable_order(keys@, order@),
                n == order@.len(),
                i <= n,
                pairs@.len() == i,
                forall|d: int|
                    0 <= d < i ==> #[trigger] pairs@[d] == (
                        DisplayIdx(d as u32),
                        DecodeIdx(order@[d] as u32),
                    ),
                forall|d: int, e: int|
                    0 <= d < e < n && d < i ==> keys@[#[trigger] order@[d] as int]
                        < keys@[#[trigger] order@[e] as int],
            decreases n - i,
        {
            if i + 1 < n && keys[order[i]] == keys[order[i + 1]] {
                return Err(collect_tie(samples, &keys, &order, i));
            }
            proof {
                assert forall|e: int| i < e < n implies keys@[order@[i as int] as int]
                    < keys@[#[trigger] order@[e] as int] by {
                    assert(sort::stably_before(
                        keys@,
                        order@[i as int] as int,
                        order@[i + 1] as int,
                    ));
                    if e > i + 1 {
                        assert(sort::stably_before(
                            keys@,
                            order@[i + 1] as int,
                            order@[e] as int,
                        ));
                    }
                }
            }
            pairs.push((DisplayIdx(i as u32), DecodeIdx(order[i] as u32)));
            i += 1;
        }
        let sync_decode_indices: Vec<DecodeIdx> = collect_sync_indices(samples);
        proof {
            assert forall|d: int, e: int| 0 <= d < e < pairs@.len() implies cts_of(
                samples@,
                (#[trigger] pairs@[d]).1.0 as int,
            ) < cts_of(samples@, (#[trigger] pairs@[e]).1.0 as int) by {
                assert(keys@[order@[d] as int] < keys@[order@[e] as int]);
            }
        }
        Ok(Self { order: OrderMap::new(pairs), sync_decode_indices })
    }

    /// The decode index of the frame with display index `i`. `None` where there is no such frame.
    pub fn to_decode(&self, i: DisplayIdx) -> (r: Option<DecodeIdx>)
        ensures
            r == order::decode_of(self.pairs(), i),
    {
        self.order.to_decode(i)
    }

    /// The display index of the sample with decode index `i`. `None` where there is no such
    /// sample.
    pub fn to_display(&self, i: DecodeIdx) -> (r: Option<DisplayIdx>)
        ensures
            r == order::display_of(self.pairs(), i),
    {
        self.order.to_display(i)
    }

    /// The last sync sample at or before sample `i` in decode order.
    pub fn nearest_preceding_sync(&self, i: DecodeIdx) -> (r: Option<DecodeIdx>)
        requires
            self.well_formed(),
        ensures
            r == last_at_or_before(self.syncs(), i, self.syncs().len() as int),
    {
        let syncs = &self.sync_decode_indices;
        let mut lo: usize = 0;
        let mut hi: usize = syncs.len();
        while lo < hi
            invariant
                ascending(syncs@),
                lo <= hi <= syncs@.len(),
                forall|k: int| 0 <= k < lo ==> (#[trigger] syncs@[k]).0 <= i.0,
                forall|k: int| hi <= k < syncs@.len() ==> (#[trigger] syncs@[k]).0 > i.0,
            decreases hi - lo,
        {
            let mid: usize = lo + (hi - lo) / 2;
            if syncs[mid].0 <= i.0 {
                lo = mid + 1;
            } else {
                hi = mid;
            }
        }
        proof {
            lemma_last_skips(syncs@, i, lo as int, syncs@.len() as int);
        }
        if lo == 0 {
            None
        } else {
            Some(syncs[lo - 1])
        }
    }

    /// The display indices of the sync samples in ascending order.
    pub fn sync_display_indices(&self) -> (r: Vec<DisplayIdx>)
        ensures
            r@.to_multiset() == displays_of(
                self.pairs(),
                self.syncs(),
                self.syncs().len() as int,
            ).to_multiset(),
            forall|a: int, b: int|
                0 <= a < b < r@.len() ==> (#[trigger] r@[a]).0 <= (#[trigger] r@[b]).0,
    {
        let mut displays: Vec<DisplayIdx> = Vec::new();
        let mut keys: Vec<i128> = Vec::new();
        let mut i: usize = 0;
        while i < self.sync_decode_indices.len()
            invariant
                i <= self.syncs().len(),
                displays@ == displays_of(self.pairs(), self.syncs(), i as int),
                keys@.len() == displays@.len(),
                forall|k: int| 0 <= k < keys@.len() ==> #[trigger] keys@[k] == displays@[k].0,
            decreases self.syncs().len() - i,
        {
            if let Some(d) = self.order.to_display(self.sync_decode_indices[i]) {
                displays.push(d);
                keys.push(d.0 as i128);
            }
            i += 1;
        }
        let order: Vec<usize> = sort::stable_order(&keys);
        let mut sorted: Vec<DisplayIdx> = Vec::new();
        let mut k: usize = 0;
        while k < order.len()
            invariant
                keys@.len() == displays@.len(),
                sort::is_stable_order(keys@, order@),
                k <= order@.len(),
                sorted@.len() == k,
                forall|j: int| 0 <= j < k ==> #[trigger] sorted@[j] == displays@[order@[j] as int],
            decreases order@.len() - k,
        {
            sorted.push(displays[order[k]]);
            k += 1;
        }
        proof {
            sort::lemma_sorted_is_permutation(keys@, order@, displays@, sorted@);
            assert forall|a: int, b: int| 0 <= a < b < sorted@.len() implies (
            #[trigger] sorted@[a]).0 <= (#[trigger] sorted@[b]).0 by {
                assert(sort::stably_before(keys@, order@[a] as int, order@[b] as int));
            }
        }
        sorted
    }
}

/// Among ascending indices, those after the first `m` do not matter where all of them are
/// larger than `i`.
proof fn lemma_last_skips(indices: Seq<DecodeIdx>, i: DecodeIdx, m: int, n: int)
    requires
        0 <= m <= n <= indices.len(),
        forall|k: int| m <= k < n ==> (#[trigger] indices[k]).0 > i.0,
        m > 0 ==> indices[m - 1].0 <= i.0,
    ensures
        last_at_or_before(indices, i, n) == (if m > 0 {
            Some(indices[m - 1])
        } else {
            None
        }),
    decreases n,
{
    if m < n {
        lemma_last_skips(indices, i, m, n - 1);
    }
}

fn composition_times(samples: &[SampleInfo]) -> (keys: Vec<i128>)
    requires
        times_fit(samples@),
    ensures
        keys@.len() == samples@.len(),
        forall|i: int| 0 <= i < keys@.len() ==> #[trigger] keys@[i] == cts_of(samples@, i),
{
    let ghost durations = mp4io::write::durations_of(samples@);
    let mut keys: Vec<i128> = Vec::new();
    let mut dts: u64 = 0;
    let mut i: usize = 0;
    while i < samples.len()
        invariant
            times_fit(samples@),
            durations == mp4io::write::durations_of(samples@),
            i <= samples@.len(),
            dts == dts_of(samples@, i as int),
            keys@.len() == i,
            forall|j: int| 0 <= j < i ==> #[trigger] keys@[j] == cts_of(samples@, j),
        decreases samples@.len() - i,
    {
        let sample: SampleInfo = samples[i];
        assert(time_fits(samples@, i as int));
        let cts: i64 = (dts as i64) + sample.cts_offset;
        keys.push(cts as i128);
        proof {
            assert(durations[i as int] == sample.duration);
        }
        dts = dts + sample.duration as u64;
        i += 1;
    }
    keys
}

fn collect_sync_indices(samples: &[SampleInfo]) -> (syncs: Vec<DecodeIdx>)
    requires
        samples@.len() <= u32::MAX,
    ensures
        syncs@ == sync_indices(samples@, samples@.len() as int),
        ascending(syncs@),
{
    let mut syncs: Vec<DecodeIdx> = Vec::new();
    let mut i: usize = 0;
    while i < samples.len()
        invariant
            samples@.len() <= u32::MAX,
            i <= samples@.len(),
            syncs@ == sync_indices(samples@, i as int),
            ascending(syncs@),
            forall|k: int| 0 <= k < syncs@.len() ==> (#[trigger] syncs@[k]).0 < i,
        decreases samples@.len() - i,
    {
        if samples[i].is_sync {
            syncs.push(DecodeIdx(i as u32));
        }
        i += 1;
    }
    syncs
}

/// Collects the samples that share the composition time of the sample at position `from`
/// of the sorted order.
fn collect_tie(samples: &[SampleInfo], keys: &Vec<i128>, order: &Vec<usize>, from: usize) -> (tie:
    TiedCompositionTime)
    requires
        times_fit(samples@),
        keys@.len() == samples@.len(),
        forall|j: int| 0 <= j < keys@.len() ==> #[trigger] keys@[j] == cts_of(samples@, j),
        sort::is_stable_order(keys@, order@),
        from + 1 < order@.len(),
        keys@[order@[from as int] as int] == keys@[order@[from + 1] as int],
        forall|d: int, e: int|
            0 <= d < e < order@.len() && d < from ==> keys@[#[trigger] order@[d] as int]
                < keys@[#[trigger] order@[e] as int],
    ensures
        is_first_tie(samples@, tie),
{
    let time: i128 = keys[order[from]];
    let mut decode_indices: Vec<u32> = Vec::new();
    let mut j: usize = from;
    proof {
        assert(time == cts_of(samples@, order@[from as int] as int));
        assert(time_fits(samples@, order@[from as int] as int));
    }
    while j < order.len() && keys[order[j]] == time
        invariant
            keys@.len() == samples@.len(),
            samples@.len() <= u32::MAX,
            sort::is_stable_order(keys@, order@),
            from <= j <= order@.len(),
            decode_indices@.len() == j - from,
            forall|a: int|
                0 <= a < decode_indices@.len() ==> #[trigger] decode_indices@[a] == order@[from
                    + a],
            forall|q: int| from <= q < j ==> keys@[#[trigger] order@[q] as int] == time,
        decreases order@.len() - j,
    {
        decode_indices.push(order[j] as u32);
        j += 1;
    }
    let tie = TiedCompositionTime { time: time as i64, decode_indices };
    proof {
        let indices = tie.decode_indices@;
        if j <= from + 1 {
            assert(keys@[order@[from + 1] as int] == time);
            assert(false);
        }
        assert forall|a: int, b: int| 0 <= a < b < indices.len() implies #[trigger] indices[a]
            < #[trigger] indices[b] by {
            assert(sort::stably_before(
                keys@,
                order@[from + a] as int,
                order@[from + b] as int,
            ));
        }
        assert forall|a: int| 0 <= a < indices.len() implies {
            &&& #[trigger] indices[a] < samples@.len()
            &&& cts_of(samples@, indices[a] as int) == tie.time
        } by {
            assert(keys@[order@[from + a] as int] == time);
        }
        assert forall|i: int|
            #![trigger samples@[i]]
            0 <= i < samples@.len() && cts_of(samples@, i) == tie.time implies exists|a: int|
            0 <= a < indices.len() && #[trigger] indices[a] == i by {
            assert(keys@[i] == time);
            sort::stable_order_is_complete(keys@, order@, i);
            let q = choose|q: int| 0 <= q < order@.len() && #[trigger] order@[q] == i;
            if q < from {
                assert(keys@[order@[q] as int] < keys@[order@[from as int] as int]);
            }
            if q >= j {
                assert(sort::stably_before(keys@, order@[j as int] as int, order@[q] as int)
                    || q == j);
                assert(sort::stably_before(
                    keys@,
                    order@[from as int] as int,
                    order@[j as int] as int,
                ));
            }
            assert(indices[q - from] == i);
        }
        assert forall|i: int, k: int|
            0 <= i < k < samples@.len() && #[trigger] cts_of(samples@, i) == #[trigger] cts_of(
                samples@,
                k,
            ) implies cts_of(samples@, i) >= tie.time by {
            assert(keys@[i] == keys@[k]);
            sort::stable_order_is_complete(keys@, order@, i);
            sort::stable_order_is_complete(keys@, order@, k);
            let p = choose|p: int| 0 <= p < order@.len() && #[trigger] order@[p] == i;
            let q = choose|q: int| 0 <= q < order@.len() && #[trigger] order@[q] == k;
            if p < from {
                if p < q {
                    assert(keys@[order@[p] as int] < keys@[order@[q] as int]);
                } else {
                    assert(keys@[order@[q] as int] < keys@[order@[p] as int]);
                }
            } else if p > from {
                assert(sort::stably_before(
                    keys@,
                    order@[from as int] as int,
                    order@[p] as int,
                ));
            }
        }
    }
    tie
}

/// How a row of a frame index differs from the derived correspondence.
#[derive(Debug, Clone, Copy, PartialEq, Eq, Structural)]
pub enum DtviMismatch {
    /// There is no such frame.
    MissingFrame { frame_number: DisplayIdx, sample_number: DecodeIdx },
    /// The frame is another sample.
    SampleNumber { frame_number: DisplayIdx, indexed: DecodeIdx, derived: DecodeIdx },
    /// No sync sample comes before the frame.
    MissingSync { frame_number: DisplayIdx, sample_number: DecodeIdx },
    /// Decoding starts at another sample.
    RandomAccess { frame_number: DisplayIdx, indexed: DecodeIdx, derived: DecodeIdx },
}

/// How `frame` differs from the correspondence `pairs` with the sync samples `syncs`:
/// the first of the four differences that applies.
pub open spec fn row_mismatch(
    pairs: Seq<(DisplayIdx, DecodeIdx)>,
    syncs: Seq<DecodeIdx>,
    frame: DtviFrame,
) -> Option<DtviMismatch> {
    match order::decode_of(pairs, frame.frame_number) {
        None => Some(
            DtviMismatch::MissingFrame {
                frame_number: frame.frame_number,
                sample_number: frame.sample_number,
            },
        ),
        Some(decode) => if decode != frame.sample_number {
            Some(
                DtviMismatch::SampleNumber {
                    frame_number: frame.frame_number,
                    indexed: frame.sample_number,
                    derived: decode,
                },
            )
        } else {
            match last_at_or_before(syncs, decode, syncs.len() as int) {
                None => Some(
                    DtviMismatch::MissingSync {
                        frame_number: frame.frame_number,
                        sample_number: decode,
                    },
                ),
                Some(sync) => if sync != frame.random_access_sample {
                    Some(
                        DtviMismatch::RandomAccess {
                            frame_number: frame.frame_number,
                            indexed: frame.random_access_sample,
                            derived: sync,
                        },
                    )
                } else {
                    None
                },
            }
        },
    }
}

/// `r` is what checking `frames` gives: success where no row differs, else the difference
/// of the first row that does.
pub open spec fn frames_checked(
    pairs: Seq<(DisplayIdx, DecodeIdx)>,
    syncs: Seq<DecodeIdx>,
    frames: Seq<DtviFrame>,
    r: Result<(), DtviMismatch>,
) -> bool {
    match r {
        Ok(()) => forall|i: int|
            0 <= i < frames.len() ==> row_mismatch(pairs, syncs, #[trigger] frames[i]) is None,
        Err(e) => exists|i: int|
            {
                &&& 0 <= i < frames.len()
                &&& row_mismatch(pairs, syncs, #[trigger] frames[i]) == Some(e)
                &&& forall|j: int|
                    0 <= j < i ==> row_mismatch(pairs, syncs, #[trigger] frames[j]) is None
            },
    }
}

/// Checks every row of a frame index against the derived correspondence.
pub fn verify_against_dtvi(map: &DisplayDecodeMap, dtvi: &Dtvi) -> (r: Result<(), DtviMismatch>)
    requires
        map.well_formed(),
    ensures
        frames_checked(map.pairs(), map.syncs(), dtvi.frames@, r),
{
    let mut i: usize = 0;
    while i < dtvi.frames.len()
        invariant
            map.well_formed(),
            i <= dtvi.frames@.len(),
            forall|j: int|
                0 <= j < i ==> row_mismatch(
                    map.pairs(),
                    map.syncs(),
                    #[trigger] dtvi.frames@[j],
                ) is None,
        decreases dtvi.frames@.len() - i,
    {
        let frame: DtviFrame = dtvi.frames[i];
        let mismatch: Option<DtviMismatch> = match map.order.to_decode(frame.frame_number) {
            None => Some(
                DtviMismatch::MissingFrame {
                    frame_number: frame.frame_number,
                    sample_number: frame.sample_number,
                },
            ),
            Some(decode) => if decode != frame.sample_number {
                Some(
                    DtviMismatch::SampleNumber {
                        frame_number: frame.frame_number,
                        indexed: frame.sample_number,
                        derived: decode,
                    },
                )
            } else {
                match map.nearest_preceding_sync(decode) {
                    None => Some(
                        DtviMismatch::MissingSync {
                            frame_number: frame.frame_number,
                            sample_number: decode,
                        },
                    ),
                    Some(sync) => if sync != frame.random_access_sample {
                        Some(
                            DtviMismatch::RandomAccess {
                                frame_number: frame.frame_number,
                                indexed: frame.random_access_sample,
                                derived: sync,
                            },
                        )
                    } else {
                        None
                    },
                }
            },
        };
        assert(mismatch == row_mismatch(map.pairs(), map.syncs(), dtvi.frames@[i as int]));
        if let Some(e) = mismatch {
            return Err(e);
        }
        i += 1;
    }
    Ok(())
}

/// The derived correspondence is one to one: no display index and no decode index occurs
/// twice, frame `d` is what display index `d` leads to, and every sample is shown.
pub proof fn display_order_is_one_to_one(
    samples: Seq<SampleInfo>,
    pairs: Seq<(DisplayIdx, DecodeIdx)>,
)
    requires
        is_display_order(samples, pairs),
    ensures
        order::one_to_one(pairs),
        forall|d: int|
            0 <= d < pairs.len() ==> order::decode_of(pairs, DisplayIdx(d as u32)) == Some(
                (#[trigger] pairs[d]).1,
            ),
        forall|i: u32|
            i < samples.len() ==> #[trigger] order::display_of(pairs, DecodeIdx(i)) is Some,
{
    assert forall|a: int, b: int| 0 <= a < b < pairs.len() implies (#[trigger] pairs[a]).1 != (
    #[trigger] pairs[b]).1 by {
        assert(cts_of(samples, pairs[a].1.0 as int) < cts_of(samples, pairs[b].1.0 as int));
    }
    assert forall|d: int| 0 <= d < pairs.len() implies order::decode_of(
        pairs,
        DisplayIdx(d as u32),
    ) == Some((#[trigger] pairs[d]).1) by {
        assert(order::first_with_display(pairs, DisplayIdx(d as u32), d));
        order::lemma_decode_of(pairs, DisplayIdx(d as u32), d);
    }
    let decodes = pairs.map_values(|p: (DisplayIdx, DecodeIdx)| p.1.0 as int);
    assert(decodes.no_duplicates()) by {
        assert forall|i: int, j: int|
            0 <= i < decodes.len() && 0 <= j < decodes.len() && i != j implies decodes[i]
            != decodes[j] by {
            assert(pairs[i].1 != pairs[j].1);
        }
    }
    decodes.unique_seq_to_set();
    let all = vstd::set_lib::set_int_range(0, samples.len() as int);
    vstd::set_lib::lemma_int_range(0, samples.len() as int);
    assert(decodes.to_set().subset_of(all)) by {
        assert forall|x: int| decodes.to_set().contains(x) implies all.contains(x) by {
            let i = choose|i: int| 0 <= i < decodes.len() && decodes[i] == x;
            assert(pairs[i].1.0 < samples.len());
        }
    }
    vstd::set_lib::lemma_subset_equality(decodes.to_set(), all);
    assert forall|i: u32| i < samples.len() implies #[trigger] order::display_of(
        pairs,
        DecodeIdx(i),
    ) is Some by {
        assert(decodes.to_set().contains(i as int));
        let k = choose|k: int| 0 <= k < decodes.len() && decodes[k] == i;
        assert(pairs[k].1 == DecodeIdx(i));
        assert(order::first_with_decode(pairs, DecodeIdx(i), k));
    }
}

/// The sync sample from which decoding of sample `i` starts is the last one at or before
/// it: none lies between them.
pub proof fn nearest_sync_is_the_last_before(
    syncs: Seq<DecodeIdx>,
    i: DecodeIdx,
    k: int,
)
    requires
        ascending(syncs),
        0 <= k < syncs.len(),
        syncs[k].0 <= i.0,
    ensures
        last_at_or_before(syncs, i, syncs.len() as int) is Some,
        syncs[k].0 <= (last_at_or_before(syncs, i, syncs.len() as int)->0).0 <= i.0,
        syncs.contains(last_at_or_before(syncs, i, syncs.len() as int)->0),
{
    lemma_last_covers(syncs, i, k, syncs.len() as int);
}

proof fn lemma_last_covers(syncs: Seq<DecodeIdx>, i: DecodeIdx, k: int, n: int)
    requires
        ascending(syncs),
        0 <= k < n <= syncs.len(),
        syncs[k].0 <= i.0,
    ensures
        last_at_or_before(syncs, i, n) is Some,
        syncs[k].0 <= (last_at_or_before(syncs, i, n)->0).0 <= i.0,
        syncs.contains(last_at_or_before(syncs, i, n)->0),
    decreases n,
{
    if syncs[n - 1].0 <= i.0 {
        assert(syncs.contains(syncs[n - 1]));
        if k < n - 1 {
            assert(syncs[k].0 < syncs[n - 1].0);
        }
    } else {
        lemma_last_covers(syncs, i, k, n - 1);
    }
}

/// Numbers in brackets, separated by commas.
pub open spec fn bracketed(numbers: Seq<u32>, n: int) -> Seq<char>
    decreases n,
{
    if n <= 0 {
        "["@
    } else if n == 1 {
        bracketed(numbers, 0) + text::decimal(numbers[0] as nat)
    } else {
        bracketed(numbers, n - 1) + ", "@ + text::decimal(numbers[n - 1] as nat)
    }
}

impl TiedCompositionTime {
    /// The message for the user.
    pub open spec fn spec_message(&self) -> Seq<char> {
        "合成時刻 "@ + text::signed_decimal(self.time as int)
            + " が複数のデコード順サンプルで同値です（デコード順インデックス: "@
            + bracketed(self.decode_indices@, self.decode_indices@.len() as int) + "]）"@
    }

    /// The message for the user.
    pub fn message(&self) -> (m: String)
        ensures
            m@ == self.spec_message(),
    {
        let mut m = String::new();
        m.append("合成時刻 ");
        text::push_i64(&mut m, self.time);
        m.append(" が複数のデコード順サンプルで同値です（デコード順インデックス: ");
        let ghost before = m@;
        m.append("[");
        let mut i: usize = 0;
        assert(m@ =~= before + bracketed(self.decode_indices@, 0));
        while i < self.decode_indices.len()
            invariant
                i <= self.decode_indices@.len(),
                m@ == before + bracketed(self.decode_indices@, i as int),
            decreases self.decode_indices@.len() - i,
        {
            if i > 0 {
                m.append(", ");
            }
            text::push_u64(&mut m, self.decode_indices[i] as u64);
            i += 1;
            assert(m@ =~= before + bracketed(self.decode_indices@, i as int));
        }
        m.append("]）");
        assert(m@ =~= self.spec_message());
        m
    }
}

impl DtviMismatch {
    /// The message for the user.
    pub open spec fn spec_message(self) -> Seq<char> {
        match self {
            DtviMismatch::MissingFrame { frame_number, sample_number } => {
                "frame_number="@ + text::decimal(frame_number.0 as nat)
                    + " に対応するデコード順インデックスが自前導出に存在しません（.dtvi の sample_number="@
                    + text::decimal(sample_number.0 as nat) + "）"@
            },
            DtviMismatch::SampleNumber { frame_number, indexed, derived } => {
                "frame_number="@ + text::decimal(frame_number.0 as nat)
                    + " の sample_number が不一致です（.dtvi="@ + text::decimal(indexed.0 as nat)
                    + ", 自前導出="@ + text::decimal(derived.0 as nat) + "）"@
            },
            DtviMismatch::MissingSync { frame_number, sample_number } => {
                "frame_number="@ + text::decimal(frame_number.0 as nat) + " (sample_number="@
                    + text::decimal(sample_number.0 as nat)
                    + ") の直前の同期サンプルが自前導出に存在しません"@
            },
            DtviMismatch::RandomAccess { frame_number, indexed, derived } => {
                "frame_number="@ + text::decimal(frame_number.0 as nat)
                    + " の random_access_sample が不一致です（.dtvi="@ + text::decimal(
                    indexed.0 as nat,
                ) + ", 自前導出="@ + text::decimal(derived.0 as nat) + "）"@
            },
        }
    }

    /// The message for the user.
    pub fn message(&self) -> (m: String)
        ensures
            m@ == self.spec_message(),
    {
        let mut m = String::new();
        m.append("frame_number=");
        match self {
            DtviMismatch::MissingFrame { frame_number, sample_number } => {
                text::push_u64(&mut m, frame_number.0 as u64);
                m.append(
                    " に対応するデコード順インデックスが自前導出に存在しません（.dtvi の sample_number=",
                );
                text::push_u64(&mut m, sample_number.0 as u64);
                m.append("）");
            },
            DtviMismatch::SampleNumber { frame_number, indexed, derived } => {
                text::push_u64(&mut m, frame_number.0 as u64);
                m.append(" の sample_number が不一致です（.dtvi=");
                text::push_u64(&mut m, indexed.0 as u64);
                m.append(", 自前導出=");
                text::push_u64(&mut m, derived.0 as u64);
                m.append("）");
            },
            DtviMismatch::MissingSync { frame_number, sample_number } => {
                text::push_u64(&mut m, frame_number.0 as u64);
                m.append(" (sample_number=");
                text::push_u64(&mut m, sample_number.0 as u64);
                m.append(") の直前の同期サンプルが自前導出に存在しません");
            },
            DtviMismatch::RandomAccess { frame_number, indexed, derived } => {
                text::push_u64(&mut m, frame_number.0 as u64);
                m.append(" の random_access_sample が不一致です（.dtvi=");
                text::push_u64(&mut m, indexed.0 as u64);
                m.append(", 自前導出=");
                text::push_u64(&mut m, derived.0 as u64);
                m.append("）");
            },
        }
        assert(m@ =~= self.spec_message());
        m
    }
}

} // verus!
