//! The text of detected intervals read back: the frames that its lines speak of.

use crate::logo::hier;
use crate::logo::interval;
use crate::logo::interval::{Interval, Judgement};
use crate::text;
use crate::words;
use vstd::prelude::*;

verus! {

/// The frames that the lines of an interval speak of. The line of an end that would begin before
/// the first frame speaks of none.
pub open spec fn interval_ranges(i: Interval) -> Seq<(u64, u64)> {
    let start = seq![(i.s_start as u64, i.s_end as u64)];
    if i.e_start >= 1 {
        start.push(((i.e_start - 1) as u64, (i.e_end - 1) as u64))
    } else {
        start
    }
}

/// The frames that the lines of all intervals from `it` on speak of.
pub open spec fn ranges_from(result: Seq<Judgement>, score: Seq<i32>, it: int) -> Seq<(u64, u64)>
    decreases result.len() - it,
{
    if it >= result.len() {
        Seq::empty()
    } else {
        let i = interval::interval_from(result, score, it);
        let ranges = if i.s_end < i.e_end {
            interval_ranges(i)
        } else {
            Seq::empty()
        };
        if it < i.next <= result.len() {
            ranges + ranges_from(result, score, i.next as int)
        } else {
            ranges
        }
    }
}

/// A line without its end.
spec fn line_content(best: int, kind: Seq<char>, left: int, right: int) -> Seq<char> {
    text::right_aligned(text::signed_decimal(best), 6) + " "@ + kind + " 0 ALL "@
        + text::right_aligned(text::signed_decimal(left), 6) + " "@ + text::right_aligned(
        text::signed_decimal(right),
        6,
    )
}

proof fn lemma_aligned_number(s: Seq<char>, n: int)
    requires
        s.len() == 0 || words::is_white(s.last()),
    ensures
        ({
            let t = s + text::right_aligned(text::signed_decimal(n), 6);
            words::words(t, t.len() as int) == words::words(s, s.len() as int).push(
                text::signed_decimal(n),
            )
        }),
{
    let w = text::signed_decimal(n);
    words::lemma_number_is_a_word(n);
    if w.len() < 6 {
        let spaces = Seq::new((6 - w.len()) as nat, |i: int| ' ');
        words::lemma_words_then_space(s, spaces);
        words::lemma_words_then_word(s + spaces, w);
        assert(s + text::right_aligned(w, 6) =~= (s + spaces) + w);
    } else {
        words::lemma_words_then_word(s, w);
    }
}

proof fn lemma_aligned_has_no_line_end(n: int)
    ensures
        forall|i: int|
            0 <= i < text::right_aligned(text::signed_decimal(n), 6).len() ==> #[trigger]
            text::right_aligned(text::signed_decimal(n), 6)[i] != '\n',
{
    let w = text::signed_decimal(n);
    words::lemma_number_is_a_word(n);
    assert forall|i: int| 0 <= i < text::right_aligned(w, 6).len() implies #[trigger]
    text::right_aligned(w, 6)[i] != '\n' by {
        if w.len() < 6 {
            let spaces = Seq::new((6 - w.len()) as nat, |j: int| ' ');
            if i >= spaces.len() {
                assert(text::right_aligned(w, 6)[i] == w[i - spaces.len()]);
            }
        }
    }
}

/// The columns of a line.
#[verifier::rlimit(60)]
proof fn lemma_columns(best: int, kind: Seq<char>, left: int, right: int)
    requires
        kind == "S"@ || kind == "E"@,
    ensures
        ({
            let l = line_content(best, kind, left, right);
            &&& words::words(l, l.len() as int) == seq![
                text::signed_decimal(best),
                kind,
                "0"@,
                "ALL"@,
                text::signed_decimal(left),
                text::signed_decimal(right),
            ]
            &&& forall|i: int| 0 <= i < l.len() ==> #[trigger] l[i] != '\n'
            &&& interval::line(best, kind, left, right) == l + seq!['\n']
        }),
{
    reveal_strlit("S");
    reveal_strlit("E");
    reveal_strlit("0");
    reveal_strlit("ALL");
    reveal_strlit(" ");
    reveal_strlit(" 0 ALL ");
    reveal_strlit("\n");
    let space = " "@;
    let empty = Seq::<char>::empty();
    let a = text::right_aligned(text::signed_decimal(best), 6);
    let b = text::right_aligned(text::signed_decimal(left), 6);
    let c = text::right_aligned(text::signed_decimal(right), 6);

    lemma_aligned_number(empty, best);
    assert(empty + a =~= a);
    let s1 = a + space;
    words::lemma_words_then_space(a, space);
    let s2 = s1 + kind;
    words::lemma_words_then_word(s1, kind);
    let s3 = s2 + space;
    words::lemma_words_then_space(s2, space);
    let s4 = s3 + "0"@;
    words::lemma_words_then_word(s3, "0"@);
    let s5 = s4 + space;
    words::lemma_words_then_space(s4, space);
    let s6 = s5 + "ALL"@;
    words::lemma_words_then_word(s5, "ALL"@);
    let s7 = s6 + space;
    words::lemma_words_then_space(s6, space);
    assert(s7 =~= a + space + kind + " 0 ALL "@);
    lemma_aligned_number(s7, left);
    let s8 = s7 + b;
    let s9 = s8 + space;
    words::lemma_words_then_space(s8, space);
    lemma_aligned_number(s9, right);
    let l = line_content(best, kind, left, right);
    assert(l =~= s9 + c);
    assert(words::words(l, l.len() as int) =~= seq![
        text::signed_decimal(best),
        kind,
        "0"@,
        "ALL"@,
        text::signed_decimal(left),
        text::signed_decimal(right),
    ]);
    lemma_aligned_has_no_line_end(best);
    lemma_aligned_has_no_line_end(left);
    lemma_aligned_has_no_line_end(right);
    assert forall|i: int| 0 <= i < l.len() implies #[trigger] l[i] != '\n' by {
        let n1 = a.len() as int;
        let n7 = s7.len() as int;
        let n9 = s9.len() as int;
        if i < n1 {
            assert(l[i] == a[i]);
        } else if i < n7 {
            assert(l[i] == s7[i]);
            assert(s7[i] == (space + kind + " 0 ALL "@)[i - n1]);
        } else if i < n7 + b.len() {
            assert(l[i] == b[i - n7]);
        } else if i < n9 {
            assert(l[i] == ' ');
        } else {
            assert(l[i] == c[i - n9]);
        }
    }
    assert(interval::line(best, kind, left, right) =~= l + seq!['\n']);
}

proof fn lemma_touched_prefix(complete: Seq<Seq<char>>, more: Seq<Seq<char>>, n: int)
    requires
        n <= complete.len(),
    ensures
        hier::touched_ranges(complete + more, n) == hier::touched_ranges(complete, n),
    decreases n,
{
    if n > 0 {
        lemma_touched_prefix(complete, more, n - 1);
        assert((complete + more)[n - 1] == complete[n - 1]);
    }
}

/// The frames that complete lines speak of.
spec fn touched(complete: Seq<Seq<char>>) -> Seq<(u64, u64)> {
    hier::touched_ranges(complete, complete.len() as int)
}

proof fn lemma_touched_push(complete: Seq<Seq<char>>, line: Seq<char>)
    ensures
        touched(complete.push(line)) == match hier::touched_range(line) {
            Some(range) => touched(complete).push(range),
            None => touched(complete),
        },
{
    assert(complete.push(line) =~= complete + seq![line]);
    lemma_touched_prefix(complete, seq![line], complete.len() as int);
}

/// What a line behind complete lines adds.
proof fn lemma_then_line(
    s: Seq<char>,
    complete: Seq<Seq<char>>,
    best: int,
    kind: Seq<char>,
    left: int,
    right: int,
) -> (longer: Seq<Seq<char>>)
    requires
        words::lines(s, s.len() as int) == complete.push(Seq::empty()),
        kind == "S"@ || kind == "E"@,
        -1 <= left <= right <= i64::MAX,
    ensures
        ({
            let t = s + interval::line(best, kind, left, right);
            words::lines(t, t.len() as int) == longer.push(Seq::empty())
        }),
        touched(longer) == if left >= 0 {
            touched(complete).push((left as u64, right as u64))
        } else {
            touched(complete)
        },
{
    let l = line_content(best, kind, left, right);
    lemma_columns(best, kind, left, right);
    words::lemma_lines_then_line(s, complete, l);
    lemma_touched_push(complete, l);
    words::written_number_reads_back(left);
    words::written_number_reads_back(right);
    complete.push(l)
}

proof fn lemma_read_from(
    s: Seq<char>,
    complete: Seq<Seq<char>>,
    result: Seq<Judgement>,
    score: Seq<i32>,
    it: int,
) -> (longer: Seq<Seq<char>>)
    requires
        result.len() == score.len(),
        result.len() <= usize::MAX,
        result.len() <= i64::MAX,
        0 <= it,
        words::lines(s, s.len() as int) == complete.push(Seq::empty()),
    ensures
        ({
            let t = s + interval::text_from(result, score, it);
            words::lines(t, t.len() as int) == longer.push(Seq::empty())
        }),
        touched(longer) == touched(complete) + ranges_from(result, score, it),
    decreases result.len() - it,
{
    if it >= result.len() {
        assert(s + interval::text_from(result, score, it) =~= s);
        assert(touched(complete) + ranges_from(result, score, it) =~= touched(complete));
        complete
    } else {
        let i = interval::interval_from(result, score, it);
        let whole = interval::text_from(result, score, it);
        let (here, added, lines): (Seq<char>, Seq<(u64, u64)>, Seq<Seq<char>>) = if i.s_end
            < i.e_end {
            interval::written_intervals_are_in_order(result, score, it);
            let first = interval::line(i.s_best as int, "S"@, i.s_start as int, i.s_end as int);
            let with_start = lemma_then_line(
                s,
                complete,
                i.s_best as int,
                "S"@,
                i.s_start as int,
                i.s_end as int,
            );
            let with_end = lemma_then_line(
                s + first,
                with_start,
                i.e_best - 1,
                "E"@,
                i.e_start - 1,
                i.e_end - 1,
            );
            assert((s + first) + interval::line(
                i.e_best - 1,
                "E"@,
                i.e_start - 1,
                i.e_end - 1,
            ) =~= s + interval::interval_lines(i));
            assert(touched(with_end) =~= touched(complete) + interval_ranges(i));
            (interval::interval_lines(i), interval_ranges(i), with_end)
        } else {
            assert(s + Seq::<char>::empty() =~= s);
            assert(touched(complete) + Seq::<(u64, u64)>::empty() =~= touched(complete));
            (Seq::empty(), Seq::empty(), complete)
        };
        if it < i.next <= result.len() {
            let longer = lemma_read_from(s + here, lines, result, score, i.next as int);
            assert((s + here) + interval::text_from(result, score, i.next as int) =~= s + whole);
            assert(touched(longer) =~= touched(complete) + ranges_from(result, score, it));
            longer
        } else {
            lines
        }
    }
}

/// The text of detected intervals reads back as the frames around their starts and ends: the two
/// columns that [`interval::build_text`] writes are those that
/// [`hier::touched_frame_ranges_from_logoframe_text`] finds, interval by interval.
pub proof fn written_intervals_read_back(result: Seq<Judgement>, score: Seq<i32>)
    requires
        result.len() == score.len(),
        result.len() <= usize::MAX,
        result.len() <= i64::MAX,
    ensures
        ({
            let lines = words::lines(
                interval::text_from(result, score, 0),
                interval::text_from(result, score, 0).len() as int,
            );
            hier::touched_ranges(lines, lines.len() as int) == ranges_from(result, score, 0)
        }),
{
    let empty = Seq::<char>::empty();
    let none = Seq::<Seq<char>>::empty();
    let all = interval::text_from(result, score, 0);
    assert(words::lines(empty, 0) =~= none.push(empty));
    let longer = lemma_read_from(empty, none, result, score, 0);
    assert(empty + all =~= all);
    lemma_touched_push(longer, empty);
    assert(words::words(empty, 0) =~= none);
    assert(touched(none) + ranges_from(result, score, 0) =~= ranges_from(result, score, 0));
}

/// The columns of the line of a start.
pub open spec fn start_columns(i: Interval) -> Seq<Seq<char>> {
    seq![
        text::signed_decimal(i.s_best as int),
        "S"@,
        "0"@,
        "ALL"@,
        text::signed_decimal(i.s_start as int),
        text::signed_decimal(i.s_end as int),
    ]
}

/// The columns of the line of an end: the last frame of the interval, not the one behind it.
pub open spec fn end_columns(i: Interval) -> Seq<Seq<char>> {
    seq![
        text::signed_decimal(i.e_best - 1),
        "E"@,
        "0"@,
        "ALL"@,
        text::signed_decimal(i.e_start - 1),
        text::signed_decimal(i.e_end - 1),
    ]
}

/// Intervals are looked for from `it` on, and then each time from where the one before is lost, up
/// to the end.
pub open spec fn are_looked_for(
    result: Seq<Judgement>,
    score: Seq<i32>,
    it: int,
    its: Seq<int>,
) -> bool {
    if it >= result.len() {
        its.len() == 0
    } else {
        &&& its.len() > 0
        &&& its[0] == it
        &&& forall|a: int, b: int|
            0 <= a && b == a + 1 && b < its.len() ==> (#[trigger] its[b])
                == interval::interval_from(result, score, #[trigger] its[a]).next
        &&& forall|a: int| 0 <= a < its.len() ==> it <= #[trigger] its[a] < result.len()
        &&& interval::interval_from(result, score, its.last()).next == result.len()
    }
}

/// `shown` lists, in their order, those of the places `its` where an interval is found that starts
/// before it ends.
pub open spec fn are_shown(
    result: Seq<Judgement>,
    score: Seq<i32>,
    its: Seq<int>,
    shown: Seq<int>,
) -> bool {
    &&& forall|a: int, b: int| 0 <= a < b < shown.len() ==> #[trigger] shown[a] < #[trigger] shown[b]
    &&& forall|x: int| #[trigger]
        shown.contains(x) <==> {
            &&& its.contains(x)
            &&& interval::interval_from(result, score, x).s_end < interval::interval_from(
                result,
                score,
                x,
            ).e_end
        }
}

/// `lines` has two lines for each of the intervals `shown`: one for its start and one for its end.
pub open spec fn are_lines_of(
    result: Seq<Judgement>,
    score: Seq<i32>,
    shown: Seq<int>,
    lines: Seq<Seq<char>>,
) -> bool {
    &&& lines.len() == 2 * shown.len()
    &&& forall|k: int|
        0 <= k < shown.len() ==> {
            let i = interval::interval_from(result, score, #[trigger] shown[k]);
            let s = lines[2 * k];
            let e = lines[2 * k + 1];
            &&& words::words(s, s.len() as int) == start_columns(i)
            &&& words::words(e, e.len() as int) == end_columns(i)
        }
}

/// What the text from `it` on adds behind complete lines.
proof fn lemma_lines_from(
    s: Seq<char>,
    complete: Seq<Seq<char>>,
    result: Seq<Judgement>,
    score: Seq<i32>,
    it: int,
) -> (r: (Seq<Seq<char>>, Seq<int>, Seq<int>))
    requires
        result.len() == score.len(),
        result.len() <= usize::MAX,
        result.len() <= i64::MAX,
        0 <= it,
        words::lines(s, s.len() as int) == complete.push(Seq::empty()),
    ensures
        ({
            let t = s + interval::text_from(result, score, it);
            words::lines(t, t.len() as int) == (complete + r.0).push(Seq::empty())
        }),
        are_looked_for(result, score, it, r.1),
        are_shown(result, score, r.1, r.2),
        are_lines_of(result, score, r.2, r.0),
        forall|a: int| 0 <= a < r.2.len() ==> it <= #[trigger] r.2[a],
    decreases result.len() - it,
{
    let none = Seq::<Seq<char>>::empty();
    if it >= result.len() {
        assert(s + interval::text_from(result, score, it) =~= s);
        assert(complete + none =~= complete);
        (none, Seq::empty(), Seq::empty())
    } else {
        let i = interval::interval_from(result, score, it);
        let whole = interval::text_from(result, score, it);
        interval::lemma_next_is_ahead(result, score, it);
        let written = i.s_end < i.e_end;
        let first = interval::line(i.s_best as int, "S"@, i.s_start as int, i.s_end as int);
        let second = interval::line(i.e_best - 1, "E"@, i.e_start - 1, i.e_end - 1);
        let here_text = if written {
            first + second
        } else {
            Seq::empty()
        };
        let c1 = line_content(i.s_best as int, "S"@, i.s_start as int, i.s_end as int);
        let c2 = line_content(i.e_best - 1, "E"@, i.e_start - 1, i.e_end - 1);
        let here = if written {
            seq![c1, c2]
        } else {
            none
        };
        if written {
            lemma_columns(i.s_best as int, "S"@, i.s_start as int, i.s_end as int);
            lemma_columns(i.e_best - 1, "E"@, i.e_start - 1, i.e_end - 1);
            words::lemma_lines_then_line(s, complete, c1);
            words::lemma_lines_then_line(s + first, complete.push(c1), c2);
            assert((s + first) + second =~= s + here_text);
            assert(complete.push(c1).push(c2) =~= complete + here);
        } else {
            assert(s + here_text =~= s);
            assert(complete + here =~= complete);
        }
        let (lines, its, shown) = lemma_lines_from(
            s + here_text,
            complete + here,
            result,
            score,
            i.next as int,
        );
        assert((s + here_text) + interval::text_from(result, score, i.next as int) =~= s + whole);
        assert((complete + here) + lines =~= complete + (here + lines));
        let all_its = seq![it] + its;
        let all_shown = if written {
            seq![it] + shown
        } else {
            shown
        };
        assert(are_looked_for(result, score, it, all_its)) by {
            assert forall|a: int, b: int| 0 <= a && b == a + 1 && b < all_its.len() implies (
            #[trigger] all_its[b]) == interval::interval_from(
                result,
                score,
                #[trigger] all_its[a],
            ).next by {
                if a > 0 {
                    let p = a - 1;
                    assert(all_its[a] == its[p]);
                    assert(all_its[b] == its[a]);
                } else {
                    assert(all_its[b] == its[0]);
                }
            }
            assert forall|a: int| 0 <= a < all_its.len() implies it <= #[trigger] all_its[a]
                < result.len() by {
                if a > 0 {
                    assert(all_its[a] == its[a - 1]);
                }
            }
            if its.len() > 0 {
                assert(all_its.last() == its.last());
            }
        }
        assert(are_shown(result, score, all_its, all_shown)) by {
            assert forall|a: int, b: int| 0 <= a < b < all_shown.len() implies #[trigger]
            all_shown[a] < #[trigger] all_shown[b] by {
                if written {
                    assert(all_shown[b] == shown[b - 1]);
                    if a > 0 {
                        assert(all_shown[a] == shown[a - 1]);
                    }
                }
            }
            assert forall|x: int| #[trigger] all_shown.contains(x) <==> {
                &&& all_its.contains(x)
                &&& interval::interval_from(result, score, x).s_end < interval::interval_from(
                    result,
                    score,
                    x,
                ).e_end
            } by {
                if all_its.contains(x) {
                    let a = choose|a: int| 0 <= a < all_its.len() && all_its[a] == x;
                    if a > 0 {
                        assert(its[a - 1] == x);
                        assert(its.contains(x));
                    }
                }
                if its.contains(x) {
                    let a = choose|a: int| 0 <= a < its.len() && its[a] == x;
                    assert(all_its[a + 1] == x);
                }
                assert(all_its[0] == it);
                if all_shown.contains(x) {
                    let a = choose|a: int| 0 <= a < all_shown.len() && all_shown[a] == x;
                    if written && a > 0 {
                        assert(shown[a - 1] == x);
                    } else if !written {
                        assert(shown[a] == x);
                    }
                    if !(written && a == 0) {
                        assert(shown.contains(x));
                    }
                }
                if shown.contains(x) {
                    let a = choose|a: int| 0 <= a < shown.len() && shown[a] == x;
                    if written {
                        assert(all_shown[a + 1] == x);
                    } else {
                        assert(all_shown[a] == x);
                    }
                }
                if written {
                    assert(all_shown[0] == it);
                }
            }
        }
        let all_lines = here + lines;
        assert(are_lines_of(result, score, all_shown, all_lines)) by {
            assert forall|k: int| 0 <= k < all_shown.len() implies ({
                let j = interval::interval_from(result, score, #[trigger] all_shown[k]);
                let a = all_lines[2 * k];
                let b = all_lines[2 * k + 1];
                &&& words::words(a, a.len() as int) == start_columns(j)
                &&& words::words(b, b.len() as int) == end_columns(j)
            }) by {
                if written {
                    if k > 0 {
                        let p = k - 1;
                        assert(all_shown[k] == shown[p]);
                        assert(all_lines[2 * k] == lines[2 * p]);
                        assert(all_lines[2 * k + 1] == lines[2 * p + 1]);
                    } else {
                        assert(all_lines[0] == c1);
                        assert(all_lines[1] == c2);
                    }
                } else {
                    assert(all_lines[2 * k] == lines[2 * k]);
                    assert(all_lines[2 * k + 1] == lines[2 * k + 1]);
                }
            }
        }
        (all_lines, all_its, all_shown)
    }
}

/// The text of detected intervals has all of them and nothing else: intervals are looked for from
/// the first frame on, each time from where the one before is lost, up to the last frame. Each one
/// that starts before it ends has two lines, one for its start and one for its end, with the best
/// frame and the range of possible frames of each.
pub proof fn text_has_the_lines_of_all_intervals(result: Seq<Judgement>, score: Seq<i32>) -> (r: (
    Seq<Seq<char>>,
    Seq<int>,
    Seq<int>,
))
    requires
        result.len() == score.len(),
        result.len() <= usize::MAX,
        result.len() <= i64::MAX,
    ensures
        words::lines(
            interval::text_from(result, score, 0),
            interval::text_from(result, score, 0).len() as int,
        ) == r.0.push(Seq::empty()),
        are_looked_for(result, score, 0, r.1),
        are_shown(result, score, r.1, r.2),
        are_lines_of(result, score, r.2, r.0),
{
    let empty = Seq::<char>::empty();
    let none = Seq::<Seq<char>>::empty();
    let all = interval::text_from(result, score, 0);
    assert(words::lines(empty, 0) =~= none.push(empty));
    let r = lemma_lines_from(empty, none, result, score, 0);
    assert(empty + all =~= all);
    assert(none + r.0 =~= r.0);
    r
}

} // verus!
