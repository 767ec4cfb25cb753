//! Which sections are reported as missed commercials: all of those, and only those, whose length
//! is that of several gaps.

use crate::jls::JlsEntry;
use crate::report::missed;
use crate::report::missed::MissedCandidate;
use crate::trim;
use crate::trim::TrimRange;
use vstd::prelude::*;

verus! {

/// How many frames lie between range `i` and the next one.
pub open spec fn gap(ranges: Seq<TrimRange>, i: int) -> int {
    ranges[i + 1].start.0 - ranges[i].end.0
}

proof fn lemma_two_places(s: Seq<u32>, v: u32)
    requires
        s.to_multiset().count(v) >= 2,
    ensures
        exists|i: int, j: int|
            0 <= i < j < s.len() && #[trigger] s[i] == v && #[trigger] s[j] == v,
    decreases s.len(),
{
    broadcast use vstd::seq_lib::group_to_multiset_ensures;

    if s.len() == 0 {
        assert(s =~= Seq::empty());
    } else {
        let front = s.drop_last();
        assert(s =~= front.push(s.last()));
        if s.last() == v {
            assert(front.to_multiset().count(v) >= 1);
            vstd::seq_lib::to_multiset_contains(front, v);
            let i = choose|i: int| 0 <= i < front.len() && front[i] == v;
            assert(s[i] == v && s[s.len() - 1] == v);
        } else {
            lemma_two_places(front, v);
            let (i, j) = choose|i: int, j: int|
                0 <= i < j < front.len() && #[trigger] front[i] == v && #[trigger] front[j] == v;
            assert(s[i] == v && s[j] == v);
        }
    }
}

proof fn lemma_counted_twice(s: Seq<u32>, i: int, j: int)
    requires
        0 <= i < s.len(),
        0 <= j < s.len(),
        i != j,
        s[i] == s[j],
    ensures
        s.to_multiset().count(s[i]) >= 2,
{
    broadcast use vstd::seq_lib::group_to_multiset_ensures;

    let rest = s.remove(i);
    vstd::seq_lib::to_multiset_remove(s, i);
    let k = if j < i {
        j
    } else {
        j - 1
    };
    assert(rest[k] == s[j]);
    assert(rest.contains(s[i]));
    vstd::seq_lib::to_multiset_contains(rest, s[i]);
}

/// Two places of a list that holds the same values have values at two places of this list.
proof fn lemma_two_places_of_other(a: Seq<u32>, b: Seq<u32>, p: int, q: int)
    requires
        a.to_multiset() == b.to_multiset(),
        0 <= p < a.len(),
        0 <= q < a.len(),
        p != q,
    ensures
        exists|i: int, j: int|
            {
                &&& 0 <= i < b.len()
                &&& 0 <= j < b.len()
                &&& i != j
                &&& #[trigger] b[i] == a[p]
                &&& #[trigger] b[j] == a[q]
            },
{
    broadcast use vstd::seq_lib::group_to_multiset_ensures;

    if a[p] == a[q] {
        lemma_counted_twice(a, p, q);
        lemma_two_places(b, a[p]);
    } else {
        assert(a.contains(a[p]) && a.contains(a[q]));
        vstd::seq_lib::to_multiset_contains(a, a[p]);
        vstd::seq_lib::to_multiset_contains(a, a[q]);
        vstd::seq_lib::to_multiset_contains(b, a[p]);
        vstd::seq_lib::to_multiset_contains(b, a[q]);
        let i = choose|i: int| 0 <= i < b.len() && b[i] == a[p];
        let j = choose|j: int| 0 <= j < b.len() && b[j] == a[q];
        assert(b[i] == a[p] && b[j] == a[q] && i != j);
    }
}

proof fn lemma_group(sorted: Seq<u32>, i: int, j: int)
    requires
        0 <= i < j <= sorted.len(),
        forall|a: int, b: int|
            0 <= a < b < sorted.len() ==> #[trigger] sorted[a] <= #[trigger] sorted[b],
        forall|k: int| i <= k < j ==> (#[trigger] sorted[k]) - sorted[i] <= 3,
    ensures
        ({
            let e = missed::group_end(sorted, i, j);
            &&& j <= e <= sorted.len()
            &&& forall|k: int| i <= k < e ==> (#[trigger] sorted[k]) - sorted[i] <= 3
            &&& e < sorted.len() ==> sorted[e] - sorted[i] > 3
        }),
    decreases sorted.len() - j,
{
    if j < sorted.len() && sorted[j] - sorted[i] <= 3 {
        lemma_group(sorted, i, j + 1);
    }
}

/// Length `k` stands at a place from `i` on, and a length close to it behind it.
spec fn starts_group(sorted: Seq<u32>, i: int, k: u32) -> bool {
    exists|p: int, q: int|
        i <= p < q < sorted.len() && #[trigger] sorted[p] == k && (#[trigger] sorted[q]) - k <= 3
}

/// `length` is a known length, or longer than one by at most three frames.
pub open spec fn is_near_known(known: Seq<u32>, length: int) -> bool {
    exists|a: int| 0 <= a < known.len() && #[trigger] known[a] <= length <= known[a] + 3
}

proof fn lemma_known(sorted: Seq<u32>, i: int)
    requires
        0 <= i <= sorted.len(),
        forall|a: int, b: int|
            0 <= a < b < sorted.len() ==> #[trigger] sorted[a] <= #[trigger] sorted[b],
    ensures
        ({
            let known = missed::known_from(sorted, i);
            &&& forall|a: int| 0 <= a < known.len() ==> starts_group(sorted, i, #[trigger] known[a])
            &&& forall|a: int, b: int|
                0 <= a < b < known.len() ==> (#[trigger] known[a]) + 3 < #[trigger] known[b]
            &&& forall|p: int, q: int|
                i <= p < q < sorted.len() && (#[trigger] sorted[q]) - (#[trigger] sorted[p]) <= 3
                    ==> is_near_known(known, sorted[p] as int)
        }),
    decreases sorted.len() - i,
{
    let known = missed::known_from(sorted, i);
    if i < sorted.len() {
        lemma_group(sorted, i, i + 1);
        let e = missed::group_end(sorted, i, i + 1);
        lemma_known(sorted, e);
        let rest = missed::known_from(sorted, e);
        if e - i >= 2 {
            assert(known == seq![sorted[i]] + rest);
            assert(known[0] == sorted[i]);
            assert forall|a: int| 1 <= a < known.len() implies #[trigger] known[a] == rest[a
                - 1] by {}
            assert(starts_group(sorted, i, sorted[i])) by {
                let q = e - 1;
                assert(sorted[q] - sorted[i] <= 3);
            }
            assert forall|a: int| 0 <= a < known.len() implies starts_group(
                sorted,
                i,
                #[trigger] known[a],
            ) by {
                if a > 0 {
                    let r = a - 1;
                    assert(starts_group(sorted, e, rest[r]));
                    lemma_group_from_earlier(sorted, e, i, rest[r]);
                }
            }
            assert forall|a: int, b: int| 0 <= a < b < known.len() implies (#[trigger] known[a])
                + 3 < #[trigger] known[b] by {
                let l = b - 1;
                if a == 0 {
                    assert(starts_group(sorted, e, rest[l]));
                    let (p, q) = choose|p: int, q: int|
                        {
                            &&& e <= p < q < sorted.len()
                            &&& #[trigger] sorted[p] == rest[l]
                            &&& (#[trigger] sorted[q]) - rest[l] <= 3
                        };
                    if e < p {
                        assert(sorted[e] <= sorted[p]);
                    }
                } else {
                    let k = a - 1;
                    assert(rest[k] + 3 < rest[l]);
                }
            }
            assert forall|p: int, q: int|
                i <= p < q < sorted.len() && (#[trigger] sorted[q]) - (#[trigger] sorted[p])
                    <= 3 implies is_near_known(known, sorted[p] as int) by {
                if p >= e {
                    assert(is_near_known(rest, sorted[p] as int));
                    let a = choose|a: int|
                        0 <= a < rest.len() && #[trigger] rest[a] <= sorted[p] <= rest[a] + 3;
                    let c = a + 1;
                    assert(known[c] == rest[a]);
                } else {
                    if p > i {
                        assert(sorted[i] <= sorted[p]);
                    }
                    assert(known[0] <= sorted[p] <= known[0] + 3);
                }
            }
        } else {
            assert(known == rest);
            assert forall|a: int| 0 <= a < known.len() implies starts_group(
                sorted,
                i,
                #[trigger] known[a],
            ) by {
                assert(starts_group(sorted, e, rest[a]));
                lemma_group_from_earlier(sorted, e, i, rest[a]);
            }
            assert forall|p: int, q: int|
                i <= p < q < sorted.len() && (#[trigger] sorted[q]) - (#[trigger] sorted[p])
                    <= 3 implies is_near_known(known, sorted[p] as int) by {
                if p < e {
                    assert(p == i);
                    if e < q {
                        assert(sorted[e] <= sorted[q]);
                    }
                }
            }
        }
    }
}

proof fn lemma_group_from_earlier(sorted: Seq<u32>, e: int, i: int, k: u32)
    requires
        i <= e,
        starts_group(sorted, e, k),
    ensures
        starts_group(sorted, i, k),
{
    let (p, q) = choose|p: int, q: int|
        e <= p < q < sorted.len() && #[trigger] sorted[p] == k && (#[trigger] sorted[q]) - k <= 3;
    assert(sorted[p] == k && sorted[q] - k <= 3);
}

/// Two gaps have a length: one is as long, and another is as long or longer by at most three
/// frames.
pub open spec fn has_gaps(ranges: Seq<TrimRange>, length: u32) -> bool {
    exists|i: int, j: int|
        {
            &&& 0 <= i < ranges.len() - 1
            &&& 0 <= j < ranges.len() - 1
            &&& i != j
            &&& #[trigger] gap(ranges, i) == length
            &&& length <= #[trigger] gap(ranges, j) <= length + 3
        }
}

/// A length is known where, and only where, gaps have it: it is the length of a gap, and another
/// gap is as long or longer by at most three frames. Where two gaps differ by at most three
/// frames, the shorter one has a known length, or one that is longer than a known one by at most
/// three frames. Known lengths ascend, and are further apart than that.
pub proof fn known_lengths_are_those_of_several_gaps(ranges: Seq<TrimRange>, known: Seq<u32>)
    requires
        trim::ranges_ascend(ranges),
        missed::are_known_lengths(missed::gap_lengths(ranges), known),
    ensures
        forall|a: int|
            0 <= a < known.len() ==> has_gaps(ranges, #[trigger] known[a]),
        forall|i: int, j: int|
            {
                &&& 0 <= i < ranges.len() - 1
                &&& 0 <= j < ranges.len() - 1
                &&& i != j
                &&& (#[trigger] gap(ranges, i)) <= (#[trigger] gap(ranges, j))
                &&& gap(ranges, j) <= gap(ranges, i) + 3
            } ==> is_near_known(known, gap(ranges, i)),
        forall|a: int, b: int|
            0 <= a < b < known.len() ==> (#[trigger] known[a]) + 3 < #[trigger] known[b],
{
    let lengths = missed::gap_lengths(ranges);
    let sorted = choose|sorted: Seq<u32>| #[trigger]
        missed::is_sorting(lengths, sorted) && known == missed::known_from(sorted, 0);
    lemma_known(sorted, 0);
    assert forall|i: int| 0 <= i < ranges.len() - 1 implies #[trigger] gap(ranges, i)
        == lengths[i] by {
        let next = i + 1;
        assert(ranges[i].end.0 <= ranges[next].start.0);
    }
    assert forall|a: int| 0 <= a < known.len() implies has_gaps(
        ranges,
        #[trigger] known[a],
    ) by {
        assert(starts_group(sorted, 0, known[a]));
        let (p, q) = choose|p: int, q: int|
            {
                &&& 0 <= p < q < sorted.len()
                &&& #[trigger] sorted[p] == known[a]
                &&& (#[trigger] sorted[q]) - known[a] <= 3
            };
        assert(sorted[p] <= sorted[q]);
        lemma_two_places_of_other(sorted, lengths, p, q);
        let (i, j) = choose|i: int, j: int|
            {
                &&& 0 <= i < lengths.len()
                &&& 0 <= j < lengths.len()
                &&& i != j
                &&& #[trigger] lengths[i] == sorted[p]
                &&& #[trigger] lengths[j] == sorted[q]
            };
        assert(gap(ranges, i) == lengths[i]);
        assert(gap(ranges, j) == lengths[j]);
    }
    assert forall|i: int, j: int|
        {
            &&& 0 <= i < ranges.len() - 1
            &&& 0 <= j < ranges.len() - 1
            &&& i != j
            &&& (#[trigger] gap(ranges, i)) <= (#[trigger] gap(ranges, j))
            &&& gap(ranges, j) <= gap(ranges, i) + 3
        } implies is_near_known(known, gap(ranges, i)) by {
        lemma_two_places_of_other(lengths, sorted, i, j);
        let (p, q) = choose|p: int, q: int|
            {
                &&& 0 <= p < sorted.len()
                &&& 0 <= q < sorted.len()
                &&& p != q
                &&& #[trigger] sorted[p] == lengths[i]
                &&& #[trigger] sorted[q] == lengths[j]
            };
        if p < q {
            assert(sorted[q] - sorted[p] <= 3);
        } else {
            assert(sorted[q] <= sorted[p]);
            assert(sorted[p] - sorted[q] <= 3);
        }
    }
}

/// A section lies within a range, and its length differs from a known one by at most three frames.
pub open spec fn is_suspicious(range: TrimRange, entry: JlsEntry, known: Seq<u32>) -> bool {
    &&& range.start.0 <= entry.start
    &&& entry.end < range.end.0
    &&& exists|a: int|
        0 <= a < known.len() && -3 <= entry.end - entry.start + 1 - (#[trigger] known[a]) <= 3
}

/// A candidate tells of a section: where it is, how long it is, and the first known length that it
/// differs from by at most three frames.
pub open spec fn tells_of_section(
    entry: JlsEntry,
    known: Seq<u32>,
    c: MissedCandidate,
) -> bool {
    &&& c.start == entry.start
    &&& c.end == entry.end
    &&& c.length_frames == entry.end - entry.start + 1
    &&& -3 <= c.length_frames - c.matched_gap_length <= 3
    &&& exists|a: int|
        {
            &&& 0 <= a < known.len()
            &&& #[trigger] known[a] == c.matched_gap_length
            &&& forall|b: int|
                0 <= b < a ==> !(-3 <= c.length_frames - (#[trigger] known[b]) <= 3)
        }
}

/// Pairs of a range and a section, by range and then by section.
pub open spec fn pairs_ascend(at: Seq<(int, int)>) -> bool {
    forall|k: int, l: int|
        0 <= k < l < at.len() ==> (#[trigger] at[k]).0 < (#[trigger] at[l]).0 || (at[k].0
            == at[l].0 && at[k].1 < at[l].1)
}

proof fn lemma_match(length: u32, known: Seq<u32>, i: int)
    requires
        0 <= i <= known.len(),
        forall|b: int| 0 <= b < i ==> !(-3 <= length - (#[trigger] known[b]) <= 3),
    ensures
        match missed::match_from(length, known, i) {
            Some(m) => {
                &&& -3 <= length - m <= 3
                &&& exists|a: int|
                    {
                        &&& 0 <= a < known.len()
                        &&& #[trigger] known[a] == m
                        &&& forall|b: int| 0 <= b < a ==> !(-3 <= length - (#[trigger] known[b]) <= 3)
                    }
            },
            None => forall|b: int|
                0 <= b < known.len() ==> !(-3 <= length - (#[trigger] known[b]) <= 3),
        },
    decreases known.len() - i,
{
    if i < known.len() {
        if missed::is_close(length, known[i]) {
            assert(known[i] == missed::match_from(length, known, i)->0);
        } else {
            lemma_match(length, known, i + 1);
        }
    }
}

proof fn lemma_in_range(
    ranges: Seq<TrimRange>,
    r: int,
    entries: Seq<JlsEntry>,
    known: Seq<u32>,
    n: int,
) -> (at: Seq<(int, int)>)
    requires
        0 <= r < ranges.len(),
        0 <= n <= entries.len(),
        missed::sections_are_ordered(ranges, entries),
    ensures
        ({
            let found = missed::candidates_in_range(ranges[r], entries, known, n);
            &&& at.len() == found.len()
            &&& forall|k: int|
                0 <= k < at.len() ==> {
                    &&& (#[trigger] at[k]).0 == r
                    &&& 0 <= at[k].1 < n
                    &&& is_suspicious(ranges[r], entries[at[k].1], known)
                    &&& tells_of_section(entries[at[k].1], known, found[k])
                }
            &&& pairs_ascend(at)
            &&& forall|e: int|
                0 <= e < n && is_suspicious(ranges[r], #[trigger] entries[e], known) ==> exists|
                    k: int,
                |
                    0 <= k < at.len() && #[trigger] at[k] == (r, e)
        }),
    decreases n,
{
    if n <= 0 {
        Seq::empty()
    } else {
        let before = lemma_in_range(ranges, r, entries, known, n - 1);
        let earlier = missed::candidates_in_range(ranges[r], entries, known, n - 1);
        let entry = entries[n - 1];
        let length = (entry.end - entry.start + 1) as u32;
        assert(missed::lies_in_range(entry, ranges[r]) ==> entry.start <= entry.end);
        lemma_match(length, known, 0);
        let found = missed::candidates_in_range(ranges[r], entries, known, n);
        match missed::candidate_of(ranges[r], entry, known) {
            Some(c) => {
                let a = choose|a: int|
                    {
                        &&& 0 <= a < known.len()
                        &&& #[trigger] known[a] == c.matched_gap_length
                        &&& forall|b: int|
                            0 <= b < a ==> !(-3 <= length - (#[trigger] known[b]) <= 3)
                    };
                assert(is_suspicious(ranges[r], entry, known));
                assert(tells_of_section(entry, known, c));
                let at = before.push((r, n - 1));
                assert forall|e: int|
                    0 <= e < n && is_suspicious(
                        ranges[r],
                        #[trigger] entries[e],
                        known,
                    ) implies exists|k: int| 0 <= k < at.len() && #[trigger] at[k] == (r, e) by {
                    if e == n - 1 {
                        assert(at[before.len() as int] == (r, e));
                    } else {
                        let k = choose|k: int|
                            0 <= k < before.len() && #[trigger] before[k] == (r, e);
                        assert(at[k] == (r, e));
                    }
                }
                assert forall|k: int| 0 <= k < at.len() implies {
                    &&& (#[trigger] at[k]).0 == r
                    &&& 0 <= at[k].1 < n
                    &&& is_suspicious(ranges[r], entries[at[k].1], known)
                    &&& tells_of_section(entries[at[k].1], known, found[k])
                } by {
                    if k < before.len() {
                        assert(at[k] == before[k]);
                        assert(found[k] == earlier[k]);
                    }
                }
                assert(pairs_ascend(at)) by {
                    assert forall|k: int, l: int| 0 <= k < l < at.len() implies (
                    #[trigger] at[k]).0 < (#[trigger] at[l]).0 || (at[k].0 == at[l].0 && at[k].1
                        < at[l].1) by {
                        assert(at[k] == before[k]);
                        if l < before.len() {
                            assert(at[l] == before[l]);
                        }
                    }
                }
                at
            },
            None => {
                assert(!is_suspicious(ranges[r], entry, known));
                before
            },
        }
    }
}

proof fn lemma_to(
    ranges: Seq<TrimRange>,
    entries: Seq<JlsEntry>,
    known: Seq<u32>,
    m: int,
) -> (at: Seq<(int, int)>)
    requires
        0 <= m <= ranges.len(),
        missed::sections_are_ordered(ranges, entries),
    ensures
        lists_suspicious(
            ranges,
            entries,
            known,
            m,
            missed::candidates_to(ranges, entries, known, m),
            at,
        ),
    decreases m,
{
    if m <= 0 {
        Seq::empty()
    } else {
        let before = lemma_to(ranges, entries, known, m - 1);
        let here = lemma_in_range(ranges, m - 1, entries, known, entries.len() as int);
        let earlier = missed::candidates_to(ranges, entries, known, m - 1);
        let added = missed::candidates_in_range(
            ranges[m - 1],
            entries,
            known,
            entries.len() as int,
        );
        let found = missed::candidates_to(ranges, entries, known, m);
        let at = before + here;
        assert forall|k: int| 0 <= k < at.len() implies {
            &&& 0 <= (#[trigger] at[k]).0 < m
            &&& 0 <= at[k].1 < entries.len()
            &&& is_suspicious(ranges[at[k].0], entries[at[k].1], known)
            &&& tells_of_section(entries[at[k].1], known, found[k])
        } by {
            if k < before.len() {
                assert(at[k] == before[k]);
                assert(found[k] == earlier[k]);
            } else {
                assert(at[k] == here[k - before.len()]);
                assert(found[k] == added[k - before.len()]);
            }
        }
        assert(pairs_ascend(at)) by {
            assert forall|k: int, l: int| 0 <= k < l < at.len() implies (#[trigger] at[k]).0 < (
            #[trigger] at[l]).0 || (at[k].0 == at[l].0 && at[k].1 < at[l].1) by {
                if l < before.len() {
                    assert(at[k] == before[k] && at[l] == before[l]);
                } else {
                    assert(at[l] == here[l - before.len()]);
                    if k < before.len() {
                        assert(at[k] == before[k]);
                    } else {
                        assert(at[k] == here[k - before.len()]);
                    }
                }
            }
        }
        assert forall|r: int, e: int|
            0 <= r < m && 0 <= e < entries.len() && is_suspicious(
                #[trigger] ranges[r],
                #[trigger] entries[e],
                known,
            ) implies exists|k: int| 0 <= k < at.len() && #[trigger] at[k] == (r, e) by {
            if r < m - 1 {
                let k = choose|k: int| 0 <= k < before.len() && #[trigger] before[k] == (r, e);
                assert(at[k] == (r, e));
            } else {
                let k = choose|k: int| 0 <= k < here.len() && #[trigger] here[k] == (r, e);
                assert(at[before.len() + k] == (r, e));
            }
        }
        at
    }
}

/// The candidates tell of the sections at the pairs `at` of a range and a section, which are all
/// the pairs, among the first `m` ranges, whose section is suspicious within the range.
pub open spec fn lists_suspicious(
    ranges: Seq<TrimRange>,
    entries: Seq<JlsEntry>,
    known: Seq<u32>,
    m: int,
    found: Seq<MissedCandidate>,
    at: Seq<(int, int)>,
) -> bool {
    &&& at.len() == found.len()
    &&& pairs_ascend(at)
    &&& forall|k: int|
        0 <= k < at.len() ==> {
            &&& 0 <= (#[trigger] at[k]).0 < m
            &&& 0 <= at[k].1 < entries.len()
            &&& is_suspicious(ranges[at[k].0], entries[at[k].1], known)
            &&& tells_of_section(entries[at[k].1], known, found[k])
        }
    &&& forall|r: int, e: int|
        0 <= r < m && 0 <= e < entries.len() && is_suspicious(
            #[trigger] ranges[r],
            #[trigger] entries[e],
            known,
        ) ==> exists|k: int| 0 <= k < at.len() && #[trigger] at[k] == (r, e)
}

/// A candidate has the frames of a section.
pub open spec fn is_listed(found: Seq<MissedCandidate>, entry: JlsEntry) -> bool {
    exists|k: int|
        {
            &&& 0 <= k < found.len()
            &&& (#[trigger] found[k]).start == entry.start
            &&& found[k].end == entry.end
        }
}

/// A candidate tells of a section that is suspicious within a range.
pub open spec fn tells_of_suspicious(
    ranges: Seq<TrimRange>,
    entries: Seq<JlsEntry>,
    known: Seq<u32>,
    c: MissedCandidate,
) -> bool {
    exists|r: int, e: int|
        {
            &&& 0 <= r < ranges.len()
            &&& 0 <= e < entries.len()
            &&& is_suspicious(#[trigger] ranges[r], #[trigger] entries[e], known)
            &&& tells_of_section(entries[e], known, c)
        }
}

/// Every section that lies within a kept range and is about as long as a known length is reported,
/// whichever range it lies in, and nothing else is: range by range, and in the order of the
/// sections, each once for its range.
pub proof fn suspicious_sections_are_reported(
    ranges: Seq<TrimRange>,
    entries: Seq<JlsEntry>,
    known: Seq<u32>,
    found: Seq<MissedCandidate>,
) -> (at: Seq<(int, int)>)
    requires
        missed::sections_are_ordered(ranges, entries),
        found == missed::candidates_to(ranges, entries, known, ranges.len() as int),
    ensures
        lists_suspicious(ranges, entries, known, ranges.len() as int, found, at),
        forall|r: int, e: int|
            {
                &&& 0 <= r < ranges.len()
                &&& 0 <= e < entries.len()
                &&& is_suspicious(#[trigger] ranges[r], #[trigger] entries[e], known)
            } ==> is_listed(found, entries[e]),
        forall|k: int|
            0 <= k < found.len() ==> tells_of_suspicious(ranges, entries, known, #[trigger] found[k]),
{
    let at = lemma_to(ranges, entries, known, ranges.len() as int);
    assert forall|r: int, e: int|
        {
            &&& 0 <= r < ranges.len()
            &&& 0 <= e < entries.len()
            &&& is_suspicious(#[trigger] ranges[r], #[trigger] entries[e], known)
        } implies is_listed(found, entries[e]) by {
        let k = choose|k: int| 0 <= k < at.len() && #[trigger] at[k] == (r, e);
        assert(tells_of_section(entries[at[k].1], known, found[k]));
    }
    assert forall|k: int| 0 <= k < found.len() implies tells_of_suspicious(
        ranges,
        entries,
        known,
        #[trigger] found[k],
    ) by {
        let r = at[k].0;
        let e = at[k].1;
        assert(is_suspicious(ranges[r], entries[e], known));
    }
    at
}

/// A candidate has the frames of a section within a range.
pub open spec fn lies_in_some_range(
    ranges: Seq<TrimRange>,
    entries: Seq<JlsEntry>,
    c: MissedCandidate,
) -> bool {
    exists|r: int, e: int|
        {
            &&& 0 <= r < ranges.len()
            &&& 0 <= e < entries.len()
            &&& (#[trigger] ranges[r]).start.0 <= (#[trigger] entries[e]).start
            &&& entries[e].end < ranges[r].end.0
            &&& c.start == entries[e].start
            &&& c.end == entries[e].end
        }
}

/// A section within a kept range that is as long as two gaps is reported.
pub proof fn section_as_long_as_gaps_is_reported(
    ranges: Seq<TrimRange>,
    entries: Seq<JlsEntry>,
    known: Seq<u32>,
    found: Seq<MissedCandidate>,
    r: int,
    e: int,
    i: int,
    j: int,
)
    requires
        trim::ranges_ascend(ranges),
        missed::sections_are_ordered(ranges, entries),
        missed::are_known_lengths(missed::gap_lengths(ranges), known),
        found == missed::candidates_to(ranges, entries, known, ranges.len() as int),
        0 <= r < ranges.len(),
        0 <= e < entries.len(),
        0 <= i < ranges.len() - 1,
        0 <= j < ranges.len() - 1,
        i != j,
        ranges[r].start.0 <= entries[e].start,
        entries[e].end < ranges[r].end.0,
        gap(ranges, i) == entries[e].end - entries[e].start + 1,
        gap(ranges, j) == entries[e].end - entries[e].start + 1,
    ensures
        is_listed(found, entries[e]),
{
    known_lengths_are_those_of_several_gaps(ranges, known);
    let at = suspicious_sections_are_reported(ranges, entries, known, found);
    assert(is_near_known(known, gap(ranges, i)));
    let a = choose|a: int|
        0 <= a < known.len() && #[trigger] known[a] <= gap(ranges, i) <= known[a] + 3;
    assert(-3 <= entries[e].end - entries[e].start + 1 - known[a] <= 3);
    assert(is_suspicious(ranges[r], entries[e], known));
}

/// What is reported is a section within a kept range, with its length, and gaps of about this
/// length made it suspicious.
pub proof fn reported_sections_are_as_long_as_gaps(
    ranges: Seq<TrimRange>,
    entries: Seq<JlsEntry>,
    known: Seq<u32>,
    found: Seq<MissedCandidate>,
)
    requires
        trim::ranges_ascend(ranges),
        missed::sections_are_ordered(ranges, entries),
        missed::are_known_lengths(missed::gap_lengths(ranges), known),
        found == missed::candidates_to(ranges, entries, known, ranges.len() as int),
    ensures
        forall|k: int|
            0 <= k < found.len() ==> {
                &&& lies_in_some_range(ranges, entries, #[trigger] found[k])
                &&& found[k].length_frames == found[k].end - found[k].start + 1
                &&& has_gaps(ranges, found[k].matched_gap_length)
                &&& -3 <= found[k].length_frames - found[k].matched_gap_length <= 3
            },
{
    known_lengths_are_those_of_several_gaps(ranges, known);
    let at = suspicious_sections_are_reported(ranges, entries, known, found);
    assert forall|k: int| 0 <= k < found.len() implies {
        &&& lies_in_some_range(ranges, entries, #[trigger] found[k])
        &&& found[k].length_frames == found[k].end - found[k].start + 1
        &&& has_gaps(ranges, found[k].matched_gap_length)
        &&& -3 <= found[k].length_frames - found[k].matched_gap_length <= 3
    } by {
        let r = at[k].0;
        let e = at[k].1;
        assert(is_suspicious(ranges[r], entries[e], known));
        assert(tells_of_section(entries[e], known, found[k]));
        let a = choose|a: int|
            {
                &&& 0 <= a < known.len()
                &&& #[trigger] known[a] == found[k].matched_gap_length
                &&& forall|b: int|
                    0 <= b < a ==> !(-3 <= found[k].length_frames - (#[trigger] known[b]) <= 3)
            };
        assert(has_gaps(ranges, known[a]));
        assert(ranges[r].start.0 <= entries[e].start);
    }
}

} // verus!
