//! Which lines a report has.

use crate::cli::Snap;
use crate::dtvi::DtviFrame;
use crate::jls::JlsEntry;
use crate::order::DisplayIdx;
use crate::report;
use crate::report::missed;
use crate::report::missed::MissedCandidate;
use crate::report::{BoundaryDistance, ReportSummary, ReportTexts, ReportTime};
use crate::text;
use crate::trim::TrimRange;
use crate::words;
use vstd::prelude::*;

verus! {

/// The lines of boundaries add up: those of several are those of the first ones and those of the
/// others.
pub proof fn lines_of_boundaries_add_up(
    a: Seq<BoundaryDistance>,
    b: Seq<BoundaryDistance>,
    s: Seq<(String, String)>,
    t: Seq<(String, String)>,
    n: int,
)
    requires
        a.len() == s.len(),
        b.len() == t.len(),
        0 <= n <= b.len(),
    ensures
        report::boundary_lines(a + b, s + t, a.len() + n) == report::boundary_lines(
            a,
            s,
            a.len() as int,
        ) + report::boundary_lines(b, t, n),
    decreases n,
{
    if n > 0 {
        lines_of_boundaries_add_up(a, b, s, t, n - 1);
        assert((a + b)[a.len() + n - 1] == b[n - 1]);
        assert((s + t)[a.len() + n - 1] == t[n - 1]);
        assert(report::boundary_lines(a + b, s + t, a.len() + n) =~= report::boundary_lines(
            a,
            s,
            a.len() as int,
        ) + report::boundary_lines(b, t, n));
    } else {
        lemma_first_boundaries(a, b, s, t, a.len() as int);
        assert(report::boundary_lines(b, t, 0) =~= Seq::empty());
        assert(report::boundary_lines(a, s, a.len() as int) + report::boundary_lines(b, t, 0)
            =~= report::boundary_lines(a, s, a.len() as int));
    }
}

proof fn lemma_first_boundaries(
    a: Seq<BoundaryDistance>,
    b: Seq<BoundaryDistance>,
    s: Seq<(String, String)>,
    t: Seq<(String, String)>,
    n: int,
)
    requires
        a.len() == s.len(),
        0 <= n <= a.len(),
    ensures
        report::boundary_lines(a + b, s + t, n) == report::boundary_lines(a, s, n),
    decreases n,
{
    if n > 0 {
        lemma_first_boundaries(a, b, s, t, n - 1);
        assert((a + b)[n - 1] == a[n - 1]);
        assert((s + t)[n - 1] == s[n - 1]);
    }
}

/// The line of a single boundary.
pub proof fn line_of_one_boundary(d: BoundaryDistance, t: (String, String))
    ensures
        report::boundary_lines(seq![d], seq![t], 1) == report::boundary_line(d, t.0@, t.1@),
{
    reveal_with_fuel(report::boundary_lines, 2);
    assert(report::boundary_lines(seq![d], seq![t], 0) =~= Seq::empty());
    assert(report::boundary_lines(seq![d], seq![t], 1) =~= report::boundary_line(d, t.0@, t.1@));
}

/// The lines of the entries at `at`, one after another.
pub open spec fn lines_at(entries: Seq<JlsEntry>, at: Seq<int>, n: int) -> Seq<char>
    decreases n,
{
    if n <= 0 {
        Seq::empty()
    } else {
        lines_at(entries, at, n - 1) + report::cm_line(entries[at[n - 1]])
    }
}

/// `at` has the commercials among the first `n` entries, in their order.
pub open spec fn are_commercials(entries: Seq<JlsEntry>, n: int, at: Seq<int>) -> bool {
    &&& forall|k: int|
        0 <= k < at.len() ==> 0 <= #[trigger] at[k] < n && entries[at[k]].label@ == ":CM"@
    &&& forall|j: int, k: int| 0 <= j < k < at.len() ==> #[trigger] at[j] < #[trigger] at[k]
    &&& forall|i: int|
        0 <= i < n && (#[trigger] entries[i]).label@ == ":CM"@ ==> at.contains(i)
}

proof fn lemma_lines_at(entries: Seq<JlsEntry>, at: Seq<int>, longer: Seq<int>, n: int)
    requires
        0 <= n <= at.len() <= longer.len(),
        forall|k: int| 0 <= k < at.len() ==> #[trigger] longer[k] == at[k],
    ensures
        lines_at(entries, longer, n) == lines_at(entries, at, n),
    decreases n,
{
    if n > 0 {
        lemma_lines_at(entries, at, longer, n - 1);
        assert(longer[n - 1] == at[n - 1]);
    }
}

/// A report has a line for every commercial, in their order, and for nothing else, below a heading.
/// Without commercials it has no heading.
pub proof fn every_commercial_has_a_line(entries: Seq<JlsEntry>, n: int) -> (at: Seq<int>)
    requires
        0 <= n <= entries.len(),
    ensures
        are_commercials(entries, n, at),
        at.len() == 0 ==> report::cm_lines(entries, n) == Seq::<char>::empty(),
        at.len() > 0 ==> report::cm_lines(entries, n) == "\nCM ブロックの15秒格子誤差:\n"@ + lines_at(
            entries,
            at,
            at.len() as int,
        ),
    decreases n,
{
    let heading = "\nCM ブロックの15秒格子誤差:\n"@;
    reveal_strlit("\nCM ブロックの15秒格子誤差:\n");
    if n > 0 {
        let before = every_commercial_has_a_line(entries, n - 1);
        let entry = entries[n - 1];
        if entry.label@ == ":CM"@ {
            let at = before.push(n - 1);
            lemma_lines_at(entries, before, at, before.len() as int);
            assert(heading.len() > 0);
            let lines = lines_at(entries, before, before.len() as int);
            assert(lines_at(entries, at, at.len() as int) == lines + report::cm_line(entry));
            if before.len() == 0 {
                assert(lines =~= Seq::empty());
                assert(heading + (lines + report::cm_line(entry)) =~= heading + report::cm_line(
                    entry,
                ));
            } else {
                assert((heading + lines).len() > 0);
                assert(heading + (lines + report::cm_line(entry)) =~= (heading + lines)
                    + report::cm_line(entry));
            }
            assert forall|i: int|
                0 <= i < n && (#[trigger] entries[i]).label@ == ":CM"@ implies at.contains(i) by {
                if i < n - 1 {
                    let k = choose|k: int| 0 <= k < before.len() && before[k] == i;
                    assert(at[k] == i);
                } else {
                    assert(at[before.len() as int] == i);
                }
            }
            at
        } else {
            before
        }
    } else {
        Seq::empty()
    }
}

/// A number with a sign reads back as itself, and always has one.
pub proof fn signed_numbers_read_back(n: int)
    requires
        i64::MIN <= n <= i64::MAX,
    ensures
        n >= 0 ==> report::with_sign(n) == seq!['+'] + text::decimal(n as nat),
        n < 0 ==> report::with_sign(n) == seq!['-'] + text::decimal((-n) as nat),
        words::number(report::with_sign(n)) == Some(n),
{
    reveal_strlit("+");
    assert("+"@ =~= seq!['+']);
    if n >= 0 {
        let t = text::decimal(n as nat);
        words::decimal_reads_back(n as nat);
        assert forall|i: int| 0 <= i < t.len() implies '0' <= #[trigger] t[i] <= '9' by {
            assert(words::is_digit(t[i]));
        }
        crate::notation::signs_are_read(t);
    } else {
        words::written_number_reads_back(n);
    }
}

/// A text that is aligned to the left is followed by spaces, and is as wide as asked for.
pub proof fn left_aligned_texts_are_followed_by_spaces(t: Seq<char>, width: nat)
    ensures
        report::left_aligned(t, width).len() == (if t.len() < width {
            width
        } else {
            t.len()
        }),
        report::left_aligned(t, width).take(t.len() as int) == t,
        forall|i: int|
            t.len() <= i < report::left_aligned(t, width).len() ==> #[trigger] report::left_aligned(
                t,
                width,
            )[i] == ' ',
{
    assert(report::left_aligned(t, width).take(t.len() as int) =~= t);
}

/// A time is written as minutes and seconds: the seconds have two digits, and both together are the
/// time.
pub proof fn minutes_and_seconds_are_the_time(total: u64) -> (r: (u64, u64))
    ensures
        r.0 * 60 + r.1 == total,
        r.1 < 60,
        r.1 < 10 ==> missed::minutes_seconds(total) == text::decimal(r.0 as nat) + ":"@ + "0"@
            + text::decimal(r.1 as nat),
        r.1 >= 10 ==> missed::minutes_seconds(total) == text::decimal(r.0 as nat) + ":"@
            + text::decimal(r.1 as nat),
{
    let r = (total / 60, total % 60);
    assert(missed::minutes_seconds(total) =~= text::decimal(r.0 as nat) + ":"@ + (if r.1 < 10 {
        "0"@
    } else {
        Seq::empty()
    }) + text::decimal(r.1 as nat));
    r
}

/// A warning names the section, its length and the length of the gaps that it is as long as, and
/// advises to end one range with the frame before the section and to begin another with the frame
/// behind it.
pub proof fn warnings_advise_to_leave_the_section_out(
    candidate: MissedCandidate,
    start_second: u64,
    end_second: u64,
)
    requires
        candidate.start > 0,
        candidate.end < u32::MAX,
    ensures
        missed::warning(candidate, start_second, end_second) == "CM 検出の見逃し候補: "@
            + missed::minutes_seconds(start_second) + "〜"@ + missed::minutes_seconds(end_second)
            + " ("@ + text::decimal(candidate.start as nat) + "〜"@ + text::decimal(
            candidate.end as nat,
        ) + ", "@ + text::decimal(candidate.length_frames as nat)
            + " フレーム, 検出済み CM ブロック長 "@ + text::decimal(
            candidate.matched_gap_length as nat,
        )
            + " フレームと一致)。trim.avs でこの区間を保持区間から除外する場合、該当する Trim(a,"@
            + text::decimal((candidate.start - 1) as nat) + ") ++ Trim("@ + text::decimal(
            (candidate.end + 1) as nat,
        ) + ",b) のように 分割することを検討してください。"@,
{
}

/// The times in a report are those of its summary and its boundaries: how much more is kept, the
/// same divided by two boundaries for each range, and how long the output is.
pub proof fn reports_have_the_times_of_the_summary<F: Fn(ReportTime) -> String>(
    render: F,
    ranges: Seq<TrimRange>,
    frames: Seq<DtviFrame>,
    snap: Snap,
    summary: ReportSummary,
    texts: ReportTexts,
    i: int,
)
    requires
        report::is_summary(ranges, frames, snap, summary),
        report::are_rendered(
            render,
            summary,
            report::distances_to(ranges, frames, ranges.len() as int),
            texts,
        ),
        2 * ranges.len() <= usize::MAX,
        0 <= i < report::distances_to(ranges, frames, ranges.len() as int).len(),
    ensures
        render.ensures(
            (ReportTime::ExtraTotal { units: summary.extra_retained_units },),
            texts.extra_total,
        ),
        render.ensures(
            (
                ReportTime::ExtraAverage {
                    units: summary.extra_retained_units,
                    boundaries: (2 * ranges.len()) as usize,
                },
            ),
            texts.extra_average,
        ),
        render.ensures(
            (ReportTime::OutputLength { units: summary.output_units },),
            texts.output_length,
        ),
        ({
            let d = report::distances_to(ranges, frames, ranges.len() as int)[i];
            &&& d.prev_keyframe_units matches Some(units) ==> render.ensures(
                (ReportTime::SincePrevKeyframe { units },),
                texts.boundaries@[i].0,
            )
            &&& d.next_keyframe_units matches Some(units) ==> render.ensures(
                (ReportTime::UntilNextKeyframe { units },),
                texts.boundaries@[i].1,
            )
        }),
        report::report_direction(true) is Outward,
        report::report_direction(false) is Inward,
{
}

/// The columns of key frames are aligned: a number of up to six digits takes six places, spaces
/// first, and so does the dash that stands for no key frame. Behind the number is the distance in
/// brackets.
pub proof fn keyframe_columns_are_aligned(k: DisplayIdx, seconds: Seq<char>)
    requires
        text::decimal(k.0 as nat).len() <= 6,
    ensures
        ({
            let digits = text::decimal(k.0 as nat);
            let column = report::keyframe_column(Some(k), seconds);
            let none = report::keyframe_column(None, seconds);
            &&& column.len() == 6 + 2 + seconds.len() + 2
            &&& column.subrange(6 - digits.len(), 6) == digits
            &&& forall|i: int| 0 <= i < 6 - digits.len() ==> #[trigger] column[i] == ' '
            &&& column[6] == ' ' && column[7] == '('
            &&& column.subrange(8, seconds.len() as int + 8) == seconds
            &&& column[column.len() - 2] == 's' && column[column.len() - 1] == ')'
            &&& none.len() == 6
            &&& none[5] == '-'
            &&& forall|i: int| 0 <= i < 5 ==> #[trigger] none[i] == ' '
        }),
{
    reveal_strlit(" (");
    reveal_strlit("s)");
    reveal_strlit("     -");
    let digits = text::decimal(k.0 as nat);
    let column = report::keyframe_column(Some(k), seconds);
    crate::notation::aligned_texts_are_filled_with_spaces(digits, 6);
    let aligned = text::right_aligned(digits, 6);
    assert(column == aligned + " ("@ + seconds + "s)"@);
    assert(column.subrange(6 - digits.len(), 6) =~= digits) by {
        assert(aligned.skip(6 - digits.len()) == digits);
        assert forall|i: int| 0 <= i < digits.len() implies #[trigger] column[6 - digits.len() + i]
            == digits[i] by {
            assert(aligned.skip(6 - digits.len())[i] == digits[i]);
        }
    }
    assert(column.subrange(8, seconds.len() as int + 8) =~= seconds);
    assert forall|i: int| 0 <= i < 6 - digits.len() implies #[trigger] column[i] == ' ' by {
        assert(aligned[i] == ' ');
    }
}

} // verus!
