//! Finding sections that may be commercials which the analysis has missed.
//!
//! Where several gaps between kept ranges have the same length, that is a known length of
//! commercial blocks. A section of that length within a kept range is suspicious.

use crate::jls::JlsEntry;
use crate::sort;
use crate::text;
use crate::trim::{TrimList, TrimRange};
use vstd::prelude::*;

verus! {

/// By how many frames lengths may differ and still count as the same.
pub const TOLERANCE_FRAMES: u32 = 3;

/// How many gaps of a length it takes to make the length a known one.
pub const MIN_OCCURRENCES: usize = 2;

/// A section that may be a missed commercial.
#[derive(Debug, Clone, Copy, PartialEq, Eq, Structural)]
pub struct MissedCandidate {
    /// The first frame.
    pub start: u32,
    /// The last frame.
    pub end: u32,
    /// The number of frames.
    pub length_frames: u32,
    /// The known length that it matches.
    pub matched_gap_length: u32,
}

/// The lengths of the gaps between neighbouring ranges.
pub open spec fn gap_lengths(ranges: Seq<TrimRange>) -> Seq<u32> {
    Seq::new(
        if ranges.len() > 0 {
            (ranges.len() - 1) as nat
        } else {
            0
        },
        |i: int| (ranges[i + 1].start.0 - ranges[i].end.0) as u32,
    )
}

/// The lengths of the gaps between the kept ranges.
pub fn detected_gap_lengths(trim: &TrimList) -> (gaps: Vec<u32>)
    ensures
        gaps@ == gap_lengths(trim@),
{
    let ranges = trim.ranges();
    let mut gaps: Vec<u32> = Vec::new();
    let mut i: usize = 1;
    while i < ranges.len()
        invariant
            ranges@ == trim@,
            crate::trim::ranges_ascend(ranges@),
            1 <= i,
            i <= ranges@.len() || i == 1,
            gaps@.len() == i - 1,
            forall|k: int| 0 <= k < gaps@.len() ==> #[trigger] gaps@[k] == gap_lengths(trim@)[k],
        decreases ranges@.len() - i,
    {
        assert(ranges@[i - 1].end.0 <= ranges@[i as int].start.0);
        gaps.push(ranges[i].start.0 - ranges[i - 1].end.0);
        i += 1;
    }
    assert(gaps@ =~= gap_lengths(trim@));
    gaps
}

/// The first position after `i` whose length is no longer close to the length at `i`,
/// looking from position `j` on.
pub open spec fn group_end(sorted: Seq<u32>, i: int, j: int) -> int
    decreases sorted.len() - j,
{
    if j < sorted.len() && sorted[j] - sorted[i] <= TOLERANCE_FRAMES {
        group_end(sorted, i, j + 1)
    } else {
        j
    }
}

/// The known lengths among sorted lengths, from position `i` on: the first length of every
/// group of close lengths that is large enough.
pub open spec fn known_from(sorted: Seq<u32>, i: int) -> Seq<u32>
    decreases sorted.len() - i,
{
    if i < 0 || i >= sorted.len() {
        Seq::empty()
    } else {
        let j = group_end(sorted, i, i + 1);
        if j <= i || j > sorted.len() {
            Seq::empty()
        } else if j - i >= MIN_OCCURRENCES {
            seq![sorted[i]] + known_from(sorted, j)
        } else {
            known_from(sorted, j)
        }
    }
}

/// `sorted` holds the same lengths as `lengths`, in ascending order.
pub open spec fn is_sorting(lengths: Seq<u32>, sorted: Seq<u32>) -> bool {
    &&& sorted.to_multiset() == lengths.to_multiset()
    &&& forall|a: int, b: int| 0 <= a < b < sorted.len() ==> #[trigger] sorted[a] <= #[trigger] sorted[b]
}

/// `known` are the known lengths among `lengths`.
pub open spec fn are_known_lengths(lengths: Seq<u32>, known: Seq<u32>) -> bool {
    exists|sorted: Seq<u32>|
        #[trigger] is_sorting(lengths, sorted) && known == known_from(sorted, 0)
}

proof fn lemma_group_end(sorted: Seq<u32>, i: int, j: int)
    requires
        0 <= i < j <= sorted.len(),
    ensures
        j <= group_end(sorted, i, j) <= sorted.len(),
    decreases sorted.len() - j,
{
    if j < sorted.len() && sorted[j] - sorted[i] <= TOLERANCE_FRAMES {
        lemma_group_end(sorted, i, j + 1);
    }
}

/// The lengths that occur often enough: one for each group of close lengths.
pub fn known_cm_lengths(gap_lengths: &[u32]) -> (known: Vec<u32>)
    ensures
        are_known_lengths(gap_lengths@, known@),
{
    let mut keys: Vec<i128> = Vec::new();
    let mut i: usize = 0;
    while i < gap_lengths.len()
        invariant
            i <= gap_lengths@.len(),
            keys@.len() == i,
            forall|k: int| 0 <= k < i ==> #[trigger] keys@[k] == gap_lengths@[k],
        decreases gap_lengths@.len() - i,
    {
        keys.push(gap_lengths[i] as i128);
        i += 1;
    }
    let order: Vec<usize> = sort::stable_order(&keys);
    let mut sorted: Vec<u32> = Vec::new();
    let mut i: usize = 0;
    while i < order.len()
        invariant
            keys@.len() == gap_lengths@.len(),
            sort::is_stable_order(keys@, order@),
            i <= order@.len(),
            sorted@.len() == i,
            forall|k: int| 0 <= k < i ==> #[trigger] sorted@[k] == gap_lengths@[order@[k] as int],
        decreases order@.len() - i,
    {
        sorted.push(gap_lengths[order[i]]);
        i += 1;
    }
    proof {
        sort::lemma_sorted_is_permutation(keys@, order@, gap_lengths@, sorted@);
        assert forall|a: int, b: int| 0 <= a < b < sorted@.len() implies #[trigger] sorted@[a]
            <= #[trigger] sorted@[b] by {
            assert(sort::stably_before(keys@, order@[a] as int, order@[b] as int));
        }
        assert(is_sorting(gap_lengths@, sorted@));
    }
    let mut known: Vec<u32> = Vec::new();
    let mut i: usize = 0;
    assert(known@ + known_from(sorted@, 0) =~= known_from(sorted@, 0));
    while i < sorted.len()
        invariant
            forall|a: int, b: int|
                0 <= a < b < sorted@.len() ==> #[trigger] sorted@[a] <= #[trigger] sorted@[b],
            i <= sorted@.len(),
            known@ + known_from(sorted@, i as int) == known_from(sorted@, 0),
        decreases sorted@.len() - i,
    {
        let mut j: usize = i + 1;
        while j < sorted.len() && sorted[j] - sorted[i] <= TOLERANCE_FRAMES
            invariant
                forall|a: int, b: int|
                    0 <= a < b < sorted@.len() ==> #[trigger] sorted@[a] <= #[trigger] sorted@[b],
                i < j <= sorted@.len(),
                group_end(sorted@, i as int, i + 1) == group_end(sorted@, i as int, j as int),
            decreases sorted@.len() - j,
        {
            j += 1;
        }
        let ghost before = known@;
        if j - i >= MIN_OCCURRENCES {
            known.push(sorted[i]);
        }
        assert(known@ + known_from(sorted@, j as int) =~= before + known_from(sorted@, i as int));
        i = j;
    }
    assert(known@ =~= known@ + known_from(sorted@, i as int));
    known
}

/// Whether two lengths are close enough to count as the same.
pub open spec fn is_close(a: u32, b: u32) -> bool {
    -(TOLERANCE_FRAMES as int) <= a - b <= TOLERANCE_FRAMES
}

/// The first known length, from position `i` on, that `length` is close to.
pub open spec fn match_from(length: u32, known: Seq<u32>, i: int) -> Option<u32>
    decreases known.len() - i,
{
    if i < 0 || i >= known.len() {
        None
    } else if is_close(length, known[i]) {
        Some(known[i])
    } else {
        match_from(length, known, i + 1)
    }
}

/// The first known length that `length` is close to.
pub fn matching_known_length(length: u32, known: &[u32]) -> (r: Option<u32>)
    ensures
        r == match_from(length, known@, 0),
{
    let mut i: usize = 0;
    while i < known.len()
        invariant
            i <= known@.len(),
            match_from(length, known@, 0) == match_from(length, known@, i as int),
        decreases known@.len() - i,
    {
        let k: u32 = known[i];
        let distance: u32 = if length >= k {
            length - k
        } else {
            k - length
        };
        if distance <= TOLERANCE_FRAMES {
            return Some(k);
        }
        i += 1;
    }
    None
}

/// Whether a section lies within a kept range.
pub open spec fn lies_in_range(entry: JlsEntry, range: TrimRange) -> bool {
    entry.start >= range.start.0 && entry.end < range.end.0
}

/// Whether no section within a kept range ends before it starts.
pub fn check_sections_ordered(trim: &TrimList, jls_entries: &[JlsEntry]) -> (b: bool)
    ensures
        b == sections_are_ordered(trim@, jls_entries@),
{
    let ranges = trim.ranges();
    let mut i: usize = 0;
    while i < ranges.len()
        invariant
            ranges@ == trim@,
            i <= ranges@.len(),
            forall|r: int, e: int|
                0 <= r < i && 0 <= e < jls_entries@.len() && lies_in_range(
                    #[trigger] jls_entries@[e],
                    #[trigger] trim@[r],
                ) ==> jls_entries@[e].start <= jls_entries@[e].end,
        decreases ranges@.len() - i,
    {
        let range: TrimRange = ranges[i];
        let mut j: usize = 0;
        while j < jls_entries.len()
            invariant
                ranges@ == trim@,
                i < ranges@.len(),
                range == trim@[i as int],
                j <= jls_entries@.len(),
                forall|e: int|
                    0 <= e < j && lies_in_range(#[trigger] jls_entries@[e], range)
                        ==> jls_entries@[e].start <= jls_entries@[e].end,
            decreases jls_entries@.len() - j,
        {
            let start: u32 = jls_entries[j].start;
            let end: u32 = jls_entries[j].end;
            if start >= range.start.0 && end < range.end.0 && start > end {
                assert(lies_in_range(jls_entries@[j as int], trim@[i as int]));
                return false;
            }
            j += 1;
        }
        i += 1;
    }
    true
}

/// What is reported of a section for a kept range.
pub open spec fn candidate_of(range: TrimRange, entry: JlsEntry, known: Seq<u32>) -> Option<
    MissedCandidate,
> {
    let length = (entry.end - entry.start + 1) as u32;
    if lies_in_range(entry, range) {
        match match_from(length, known, 0) {
            Some(matched) => Some(
                MissedCandidate {
                    start: entry.start,
                    end: entry.end,
                    length_frames: length,
                    matched_gap_length: matched,
                },
            ),
            None => None,
        }
    } else {
        None
    }
}

/// What is reported of the first `n` sections for a kept range.
pub open spec fn candidates_in_range(
    range: TrimRange,
    entries: Seq<JlsEntry>,
    known: Seq<u32>,
    n: int,
) -> Seq<MissedCandidate>
    decreases n,
{
    if n <= 0 {
        Seq::empty()
    } else {
        match candidate_of(range, entries[n - 1], known) {
            Some(c) => candidates_in_range(range, entries, known, n - 1).push(c),
            None => candidates_in_range(range, entries, known, n - 1),
        }
    }
}

/// What is reported for the first `m` kept ranges.
pub open spec fn candidates_to(
    ranges: Seq<TrimRange>,
    entries: Seq<JlsEntry>,
    known: Seq<u32>,
    m: int,
) -> Seq<MissedCandidate>
    decreases m,
{
    if m <= 0 {
        Seq::empty()
    } else {
        candidates_to(ranges, entries, known, m - 1) + candidates_in_range(
            ranges[m - 1],
            entries,
            known,
            entries.len() as int,
        )
    }
}

/// No section that lies within a kept range ends before it starts.
pub open spec fn sections_are_ordered(ranges: Seq<TrimRange>, entries: Seq<JlsEntry>) -> bool {
    forall|i: int, j: int|
        0 <= i < ranges.len() && 0 <= j < entries.len() && lies_in_range(
            #[trigger] entries[j],
            #[trigger] ranges[i],
        ) ==> entries[j].start <= entries[j].end
}

/// Some length is a known one.
pub open spec fn has_known_length(ranges: Seq<TrimRange>) -> bool {
    exists|known: Seq<u32>|
        #[trigger] are_known_lengths(gap_lengths(ranges), known) && known.len() > 0
}

/// Finds the sections within kept ranges that have a known length of commercial blocks.
pub fn find_missed_candidates(trim: &TrimList, jls_entries: &[JlsEntry]) -> (found: Vec<
    MissedCandidate,
>)
    requires
        has_known_length(trim@) ==> sections_are_ordered(trim@, jls_entries@),
    ensures
        exists|known: Seq<u32>|
            {
                &&& #[trigger] are_known_lengths(gap_lengths(trim@), known)
                &&& found@ == candidates_to(trim@, jls_entries@, known, trim@.len() as int)
            },
{
    let gaps: Vec<u32> = detected_gap_lengths(trim);
    let known: Vec<u32> = known_cm_lengths(gaps.as_slice());
    if known.len() == 0 {
        proof {
            assert(known@ =~= Seq::empty());
            nothing_known_nothing_reported(trim@, jls_entries@, trim@.len() as int);
        }
        return Vec::new();
    }
    let ranges = trim.ranges();
    let mut found: Vec<MissedCandidate> = Vec::new();
    let mut i: usize = 0;
    while i < ranges.len()
        invariant
            sections_are_ordered(trim@, jls_entries@),
            ranges@ == trim@,
            i <= ranges@.len(),
            found@ == candidates_to(trim@, jls_entries@, known@, i as int),
        decreases ranges@.len() - i,
    {
        let range: TrimRange = ranges[i];
        let ghost before = found@;
        let mut j: usize = 0;
        assert(found@ =~= before + candidates_in_range(range, jls_entries@, known@, 0));
        while j < jls_entries.len()
            invariant
                sections_are_ordered(trim@, jls_entries@),
                i < trim@.len(),
                range == trim@[i as int],
                j <= jls_entries@.len(),
                found@ == before + candidates_in_range(range, jls_entries@, known@, j as int),
            decreases jls_entries@.len() - j,
        {
            let entry = &jls_entries[j];
            if entry.start >= range.start.0 && entry.end < range.end.0 {
                assert(lies_in_range(jls_entries@[j as int], trim@[i as int]));
                let length_frames: u32 = entry.end - entry.start + 1;
                if let Some(matched_gap_length) = matching_known_length(
                    length_frames,
                    known.as_slice(),
                ) {
                    found.push(
                        MissedCandidate {
                            start: entry.start,
                            end: entry.end,
                            length_frames,
                            matched_gap_length,
                        },
                    );
                }
            }
            j += 1;
            assert(found@ =~= before + candidates_in_range(
                range,
                jls_entries@,
                known@,
                j as int,
            ));
        }
        i += 1;
    }
    found
}

/// Where no length is known, nothing is reported.
pub proof fn nothing_known_nothing_reported(
    ranges: Seq<TrimRange>,
    entries: Seq<JlsEntry>,
    m: int,
)
    ensures
        candidates_to(ranges, entries, Seq::empty(), m) == Seq::<MissedCandidate>::empty(),
    decreases m,
{
    if m > 0 {
        nothing_known_nothing_reported(ranges, entries, m - 1);
        lemma_nothing_in_range(ranges[m - 1], entries, entries.len() as int);
        assert(candidates_to(ranges, entries, Seq::empty(), m) =~= Seq::empty());
    }
}

proof fn lemma_nothing_in_range(range: TrimRange, entries: Seq<JlsEntry>, n: int)
    ensures
        candidates_in_range(range, entries, Seq::empty(), n) == Seq::<MissedCandidate>::empty(),
    decreases n,
{
    if n > 0 {
        lemma_nothing_in_range(range, entries, n - 1);
    }
}

/// A single gap makes no known length, so with at most two kept ranges nothing is reported.
pub proof fn one_gap_is_not_enough(ranges: Seq<TrimRange>, known: Seq<u32>)
    requires
        ranges.len() <= 2,
        are_known_lengths(gap_lengths(ranges), known),
    ensures
        known == Seq::<u32>::empty(),
{
    let sorted = choose|sorted: Seq<u32>|
        #[trigger] is_sorting(gap_lengths(ranges), sorted) && known == known_from(sorted, 0);
    vstd::seq_lib::to_multiset_len(sorted);
    vstd::seq_lib::to_multiset_len(gap_lengths(ranges));
    reveal_with_fuel(known_from, 3);
    reveal_with_fuel(group_end, 2);
    assert(known =~= Seq::empty());
}

/// A time in seconds as minutes and seconds, the seconds in two digits.
pub open spec fn minutes_seconds(total_seconds: u64) -> Seq<char> {
    text::decimal((total_seconds / 60) as nat) + ":"@ + (if total_seconds % 60 < 10 {
        "0"@
    } else {
        Seq::empty()
    }) + text::decimal((total_seconds % 60) as nat)
}

/// A time in seconds as minutes and seconds, the seconds in two digits.
pub fn format_minutes_seconds(total_seconds: u64) -> (out: String)
    ensures
        out@ == minutes_seconds(total_seconds),
{
    let mut out = String::new();
    text::push_u64(&mut out, total_seconds / 60);
    out.append(":");
    if total_seconds % 60 < 10 {
        out.append("0");
    }
    text::push_u64(&mut out, total_seconds % 60);
    assert(out@ =~= minutes_seconds(total_seconds));
    out
}

/// The warning about a candidate that starts and ends at the given second.
pub open spec fn warning(candidate: MissedCandidate, start_second: u64, end_second: u64) -> Seq<
    char,
> {
    let before: nat = if candidate.start > 0 {
        (candidate.start - 1) as nat
    } else {
        0
    };
    "CM 検出の見逃し候補: "@ + minutes_seconds(start_second) + "〜"@ + minutes_seconds(end_second)
        + " ("@ + text::decimal(candidate.start as nat) + "〜"@ + text::decimal(
        candidate.end as nat,
    ) + ", "@ + text::decimal(candidate.length_frames as nat)
        + " フレーム, 検出済み CM ブロック長 "@ + text::decimal(
        candidate.matched_gap_length as nat,
    )
        + " フレームと一致)。trim.avs でこの区間を保持区間から除外する場合、該当する Trim(a,"@
        + text::decimal(before) + ") ++ Trim("@ + text::decimal((candidate.end + 1) as nat)
        + ",b) のように 分割することを検討してください。"@
}

/// The warning about a candidate that starts and ends at the given second, with a hint how
/// to change the `Trim` list.
pub fn format_warning(candidate: &MissedCandidate, start_second: u64, end_second: u64) -> (out:
    String)
    requires
        candidate.end < u32::MAX,
    ensures
        out@ == warning(*candidate, start_second, end_second),
{
    let before: u32 = if candidate.start > 0 {
        candidate.start - 1
    } else {
        0
    };
    let mut out = String::new();
    out.append("CM 検出の見逃し候補: ");
    out.append(format_minutes_seconds(start_second).as_str());
    out.append("〜");
    out.append(format_minutes_seconds(end_second).as_str());
    out.append(" (");
    text::push_u64(&mut out, candidate.start as u64);
    out.append("〜");
    text::push_u64(&mut out, candidate.end as u64);
    out.append(", ");
    text::push_u64(&mut out, candidate.length_frames as u64);
    out.append(" フレーム, 検出済み CM ブロック長 ");
    text::push_u64(&mut out, candidate.matched_gap_length as u64);
    out.append(
        " フレームと一致)。trim.avs でこの区間を保持区間から除外する場合、該当する Trim(a,",
    );
    text::push_u64(&mut out, before as u64);
    out.append(") ++ Trim(");
    text::push_u64(&mut out, candidate.end as u64 + 1);
    out.append(",b) のように 分割することを検討してください。");
    assert(out@ =~= warning(*candidate, start_second, end_second));
    out
}

} // verus!
