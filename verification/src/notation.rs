//! How numbers, words and lines are written and read.

use crate::bytes;
use crate::dtvi;
use crate::order;
use crate::order::{DecodeIdx, DisplayIdx};
use crate::text;
use crate::trim;
use crate::trim::TrimRange;
use crate::words;
use vstd::prelude::*;

verus! {

/// Words are separated by white space: those of two texts with white space between them are those
/// of the first and those of the second.
pub proof fn white_space_separates_words(a: Seq<char>, c: char, b: Seq<char>)
    requires
        words::is_white(c),
    ensures
        words::words(a + seq![c] + b, (a + seq![c] + b).len() as int) == words::words(
            a,
            a.len() as int,
        ) + words::words(b, b.len() as int),
{
    lemma_words(a + seq![c], b, b.len() as int);
    words::lemma_words_then_space(a, seq![c]);
}

proof fn lemma_words(s: Seq<char>, b: Seq<char>, n: int)
    requires
        s.len() > 0,
        words::is_white(s.last()),
        0 <= n <= b.len(),
    ensures
        words::words(s + b, s.len() + n) == words::words(s, s.len() as int) + words::words(b, n),
        n > 0 && !words::is_white(b[n - 1]) ==> words::words(b, n).len() > 0,
    decreases n,
{
    let first = words::words(s, s.len() as int);
    if n > 0 {
        lemma_words(s, b, n - 1);
        let c = b[n - 1];
        assert((s + b)[s.len() + n - 1] == c);
        let before = words::words(b, n - 1);
        let joined = words::words(s + b, s.len() + n - 1);
        assert(joined == first + before);
        if !words::is_white(c) {
            if n == 1 {
                assert((s + b)[s.len() + n - 2] == s.last());
                assert(words::words(s + b, s.len() + n) =~= first + words::words(b, n));
            } else {
                assert((s + b)[s.len() + n - 2] == b[n - 2]);
                if words::is_white(b[n - 2]) {
                    assert(words::words(s + b, s.len() + n) =~= first + words::words(b, n));
                } else {
                    assert(before.len() > 0);
                    assert(joined.last() == before.last());
                    assert(words::words(s + b, s.len() + n) =~= first + words::words(b, n));
                }
            }
        }
    } else {
        lemma_words_prefix(s, b, s.len() as int);
        assert(words::words(b, 0) =~= Seq::empty());
        assert(first + words::words(b, 0) =~= first);
    }
}

proof fn lemma_words_prefix(s: Seq<char>, b: Seq<char>, n: int)
    requires
        0 <= n <= s.len(),
    ensures
        words::words(s + b, n) == words::words(s, n),
    decreases n,
{
    if n > 0 {
        lemma_words_prefix(s, b, n - 1);
        assert((s + b)[n - 1] == s[n - 1]);
        if n > 1 {
            assert((s + b)[n - 2] == s[n - 2]);
        }
    }
}

/// A text without white space is one word, and one of white space alone is none.
pub proof fn text_without_white_space_is_one_word(s: Seq<char>)
    ensures
        s.len() > 0 && (forall|i: int| 0 <= i < s.len() ==> !words::is_white(#[trigger] s[i]))
            ==> words::words(s, s.len() as int) == seq![s],
        (forall|i: int| 0 <= i < s.len() ==> words::is_white(#[trigger] s[i])) ==> words::words(
            s,
            s.len() as int,
        ).len() == 0,
{
    let none = Seq::<char>::empty();
    assert(none + s =~= s);
    assert(words::words(none, 0) =~= Seq::empty());
    if s.len() > 0 && (forall|i: int| 0 <= i < s.len() ==> !words::is_white(#[trigger] s[i])) {
        words::lemma_words_then_word(none, s);
        assert(words::words(none, 0).push(s) =~= seq![s]);
    }
    if forall|i: int| 0 <= i < s.len() ==> words::is_white(#[trigger] s[i]) {
        words::lemma_words_then_space(none, s);
    }
}

/// Lines are separated by line feeds: those of two texts with one between them are those of the
/// first and those of the second.
pub proof fn line_feeds_separate_lines(a: Seq<char>, b: Seq<char>)
    ensures
        words::lines(a + seq!['\n'] + b, (a + seq!['\n'] + b).len() as int) == words::lines(
            a,
            a.len() as int,
        ) + words::lines(b, b.len() as int),
{
    lemma_lines(a + seq!['\n'], a, b, b.len() as int);
}

proof fn lemma_lines(s: Seq<char>, a: Seq<char>, b: Seq<char>, n: int)
    requires
        s == a + seq!['\n'],
        0 <= n <= b.len(),
    ensures
        words::lines(s + b, s.len() + n) == words::lines(a, a.len() as int) + words::lines(b, n),
        words::lines(b, n).len() > 0,
    decreases n,
{
    let first = words::lines(a, a.len() as int);
    if n > 0 {
        lemma_lines(s, a, b, n - 1);
        assert((s + b)[s.len() + n - 1] == b[n - 1]);
        let before = words::lines(b, n - 1);
        let joined = words::lines(s + b, s.len() + n - 1);
        assert(joined.last() == before.last());
        assert(words::lines(s + b, s.len() + n) =~= first + words::lines(b, n));
    } else {
        let all = s + b;
        lemma_lines_prefix(a, all, a.len() as int);
        assert(all[a.len() as int] == '\n');
        assert(words::lines(all, a.len() as int + 1) =~= first + words::lines(b, 0));
    }
}

proof fn lemma_lines_prefix(a: Seq<char>, all: Seq<char>, n: int)
    requires
        0 <= n <= a.len() <= all.len(),
        forall|i: int| 0 <= i < a.len() ==> #[trigger] all[i] == a[i],
    ensures
        words::lines(all, n) == words::lines(a, n),
    decreases n,
{
    if n > 0 {
        lemma_lines_prefix(a, all, n - 1);
        assert(all[n - 1] == a[n - 1]);
    }
}

proof fn lemma_line(s: Seq<char>, n: int)
    requires
        0 <= n <= s.len(),
        forall|i: int| 0 <= i < s.len() ==> #[trigger] s[i] != '\n',
    ensures
        words::lines(s, n) == seq![s.take(n)],
    decreases n,
{
    if n > 0 {
        lemma_line(s, n - 1);
        assert(s.take(n) =~= s.take(n - 1).push(s[n - 1]));
        assert(words::lines(s, n) =~= seq![s.take(n)]);
    } else {
        assert(s.take(0) =~= Seq::empty());
    }
}

/// A text without a line feed is one line.
pub proof fn text_without_line_feed_is_one_line(s: Seq<char>)
    requires
        forall|i: int| 0 <= i < s.len() ==> #[trigger] s[i] != '\n',
    ensures
        words::lines(s, s.len() as int) == seq![s],
{
    lemma_line(s, s.len() as int);
    assert(s.take(s.len() as int) =~= s);
}

proof fn lemma_digits_behind_a_sign(t: Seq<char>, sign: char, n: int)
    requires
        0 <= n <= t.len(),
    ensures
        words::digits_value(seq![sign] + t, 1, n + 1) == words::digits_value(t, 0, n),
    decreases n,
{
    if n > 0 {
        lemma_digits_behind_a_sign(t, sign, n - 1);
        assert((seq![sign] + t)[n] == t[n - 1]);
    }
}

/// A sign before digits says whether the number is negative: a plus changes nothing, and a minus
/// makes the number its negative. A number is read where it is one of 64 bits.
pub proof fn signs_are_read(t: Seq<char>)
    requires
        t.len() > 0,
        forall|i: int| 0 <= i < t.len() ==> '0' <= #[trigger] t[i] <= '9',
    ensures
        ({
            let value = words::digits_value(t, 0, t.len() as int);
            &&& value <= i64::MAX ==> words::number(t) == Some(value) && words::number(
                seq!['+'] + t,
            ) == Some(value)
            &&& value > i64::MAX ==> words::number(t) is None && words::number(seq!['+'] + t)
                is None
            &&& value <= i64::MAX + 1 ==> words::number(seq!['-'] + t) == Some(-value)
            &&& value > i64::MAX + 1 ==> words::number(seq!['-'] + t) is None
        }),
{
    let n = t.len() as int;
    let plus = seq!['+'] + t;
    let minus = seq!['-'] + t;
    lemma_digits_behind_a_sign(t, '+', n);
    lemma_digits_behind_a_sign(t, '-', n);
    lemma_not_negative(t, n);
    assert('0' <= t[0] <= '9');
    assert forall|i: int| 1 <= i < plus.len() implies words::is_digit(#[trigger] plus[i]) by {
        assert(plus[i] == t[i - 1]);
    }
    assert forall|i: int| 1 <= i < minus.len() implies words::is_digit(#[trigger] minus[i]) by {
        assert(minus[i] == t[i - 1]);
    }
}

proof fn lemma_not_negative(t: Seq<char>, n: int)
    requires
        0 <= n <= t.len(),
        forall|i: int| 0 <= i < t.len() ==> '0' <= #[trigger] t[i] <= '9',
    ensures
        0 <= words::digits_value(t, 0, n),
    decreases n,
{
    if n > 0 {
        lemma_not_negative(t, n - 1);
        assert('0' <= t[n - 1] <= '9');
    }
}

/// A text with another character than digits behind its sign is no number, nor is one without
/// digits.
pub proof fn other_texts_are_no_numbers(s: Seq<char>, k: int)
    ensures
        s.len() == 0 ==> words::number(s) is None,
        s.len() == 1 && !('0' <= s[0] <= '9') ==> words::number(s) is None,
        1 <= k < s.len() && !('0' <= s[k] <= '9') ==> words::number(s) is None,
        s.len() > 0 && !('0' <= s[0] <= '9') && s[0] != '-' && s[0] != '+' ==> words::number(s)
            is None,
{
    if 1 <= k < s.len() && !('0' <= s[k] <= '9') {
        assert(!words::is_digit(s[k]));
    }
    if s.len() > 0 {
        assert(words::is_digit(s[0]) == ('0' <= s[0] <= '9'));
    }
}

/// A decimal number has no needless zeros in front.
pub proof fn decimals_do_not_start_with_zero(n: nat)
    requires
        n > 0,
    ensures
        text::decimal(n).len() > 0,
        text::decimal(n)[0] != '0',
    decreases n,
{
    if n >= 10 {
        decimals_do_not_start_with_zero(n / 10);
    }
}

/// The value of a hexadecimal digit.
pub open spec fn hex_digit_value(c: char) -> int {
    if '0' <= c <= '9' {
        c as int - '0' as int
    } else {
        c as int - 'a' as int + 10
    }
}

/// The value of the first `n` hexadecimal digits.
pub open spec fn hex_value(s: Seq<char>, n: int) -> int
    decreases n,
{
    if n <= 0 {
        0
    } else {
        16 * hex_value(s, n - 1) + hex_digit_value(s[n - 1])
    }
}

proof fn lemma_hex_agree(a: Seq<char>, b: Seq<char>, n: int)
    requires
        0 <= n <= a.len(),
        n <= b.len(),
        forall|i: int| 0 <= i < n ==> #[trigger] a[i] == b[i],
    ensures
        hex_value(a, n) == hex_value(b, n),
    decreases n,
{
    if n > 0 {
        lemma_hex_agree(a, b, n - 1);
        assert(a[n - 1] == b[n - 1]);
    }
}

/// The hexadecimal digits of a number have its value, and are small letters and digits.
pub proof fn hexadecimals_read_back(n: nat)
    ensures
        hex_value(text::hexadecimal(n), text::hexadecimal(n).len() as int) == n,
        text::hexadecimal(n).len() > 0,
        forall|i: int|
            0 <= i < text::hexadecimal(n).len() ==> '0' <= #[trigger] text::hexadecimal(n)[i] <= '9'
                || 'a' <= text::hexadecimal(n)[i] <= 'f',
    decreases n,
{
    reveal_with_fuel(hex_value, 2);
    let s = text::hexadecimal(n);
    if n >= 16 {
        hexadecimals_read_back(n / 16);
        let t = text::hexadecimal(n / 16);
        lemma_hex_agree(s, t, t.len() as int);
        assert(s == t.push(text::hex_char((n % 16) as int)));
        assert(hex_digit_value(s.last()) == n % 16);
        assert forall|i: int| 0 <= i < s.len() implies '0' <= #[trigger] s[i] <= '9' || 'a' <= s[i]
            <= 'f' by {
            if i < t.len() {
                assert(s[i] == t[i]);
            }
        }
    } else {
        assert(hex_digit_value(s[0]) == n);
    }
}

/// An aligned text is as wide as asked for, or as wide as the text is. To the left of it are spaces.
pub proof fn aligned_texts_are_filled_with_spaces(t: Seq<char>, width: nat)
    ensures
        text::right_aligned(t, width).len() == (if t.len() < width {
            width
        } else {
            t.len()
        }),
        text::right_aligned(t, width).skip(text::right_aligned(t, width).len() - t.len()) == t,
        forall|i: int|
            0 <= i < text::right_aligned(t, width).len() - t.len() ==> #[trigger]
                text::right_aligned(t, width)[i] == ' ',
{
    assert(text::right_aligned(t, width).skip(text::right_aligned(t, width).len() - t.len()) =~= t);
}

/// The bytes of a number from the highest to the lowest have its value.
pub proof fn big_endian_bytes_have_the_value(n: u32, m: u64)
    ensures
        bytes::be32(n).len() == 4,
        ((bytes::be32(n)[0] * 256 + bytes::be32(n)[1]) * 256 + bytes::be32(n)[2]) * 256
            + bytes::be32(n)[3] == n,
        bytes::be64(m).len() == 8,
        ({
            let b = bytes::be64(m);
            (((((((b[0] * 256 + b[1]) * 256 + b[2]) * 256 + b[3]) * 256 + b[4]) * 256 + b[5]) * 256
                + b[6]) * 256 + b[7]) == m
        }),
{
    lemma_be32(n);
    let high = (m / 0x1_0000_0000) as u32;
    let low = (m % 0x1_0000_0000) as u32;
    lemma_be32(high);
    lemma_be32(low);
    assert(m == high * 0x1_0000_0000 + low);
}

proof fn lemma_be32(n: u32)
    ensures
        bytes::be32(n).len() == 4,
        ((bytes::be32(n)[0] * 256 + bytes::be32(n)[1]) * 256 + bytes::be32(n)[2]) * 256
            + bytes::be32(n)[3] == n,
{
}

/// The value of a key is that of the first entry that has it. Without one there is none.
pub proof fn first_entry_with_the_key_counts(header: Seq<(String, String)>, key: Seq<char>, k: int)
    requires
        0 <= k <= header.len(),
        forall|i: int| 0 <= i < k ==> (#[trigger] header[i]).0@ != key,
        k < header.len() ==> header[k].0@ == key,
    ensures
        k == header.len() ==> dtvi::header_value_from(header, key, 0) is None,
        k < header.len() ==> dtvi::header_value_from(header, key, 0) == Some(header[k].1@),
{
    lemma_header(header, key, 0, k);
}

proof fn lemma_header(header: Seq<(String, String)>, key: Seq<char>, i: int, k: int)
    requires
        0 <= i <= k <= header.len(),
        forall|j: int| i <= j < k ==> (#[trigger] header[j]).0@ != key,
    ensures
        dtvi::header_value_from(header, key, i) == dtvi::header_value_from(header, key, k),
    decreases k - i,
{
    if i < k {
        assert(header[i].0@ != key);
        lemma_header(header, key, i + 1, k);
    }
}

/// Ranges are in order where none of them is empty and each ends before the next one starts or where
/// it starts.
pub proof fn ranges_are_in_order(ranges: Seq<TrimRange>)
    ensures
        trim::ranges_ascend(ranges) <==> {
            &&& forall|i: int|
                0 <= i < ranges.len() ==> (#[trigger] ranges[i]).start.0 < ranges[i].end.0
            &&& forall|i: int, j: int|
                0 <= i && j == i + 1 && j < ranges.len() ==> (#[trigger] ranges[i]).end.0 <= (
                #[trigger] ranges[j]).start.0
        },
{
    if {
        &&& forall|i: int|
            0 <= i < ranges.len() ==> (#[trigger] ranges[i]).start.0 < ranges[i].end.0
        &&& forall|i: int, j: int|
            0 <= i && j == i + 1 && j < ranges.len() ==> (#[trigger] ranges[i]).end.0 <= (
            #[trigger] ranges[j]).start.0
    } {
        assert forall|i: int, j: int| 0 <= i < j < ranges.len() implies (
        #[trigger] ranges[i]).end.0 <= (#[trigger] ranges[j]).start.0 by {
            lemma_in_order(ranges, i, j);
        }
    }
}

proof fn lemma_in_order(ranges: Seq<TrimRange>, i: int, j: int)
    requires
        0 <= i < j < ranges.len(),
        forall|k: int| 0 <= k < ranges.len() ==> (#[trigger] ranges[k]).start.0 < ranges[k].end.0,
        forall|k: int, l: int|
            0 <= k && l == k + 1 && l < ranges.len() ==> (#[trigger] ranges[k]).end.0 <= (
            #[trigger] ranges[l]).start.0,
    ensures
        ranges[i].end.0 <= ranges[j].start.0,
    decreases j - i,
{
    if i + 1 < j {
        lemma_in_order(ranges, i, j - 1);
        assert(ranges[j - 1].end.0 <= ranges[j].start.0);
    }
}

/// White space is what Unicode counts as such.
pub proof fn white_space_is_that_of_unicode(c: char)
    ensures
        words::is_white(c) <==> set![
            0x9u32,
            0xau32,
            0xbu32,
            0xcu32,
            0xdu32,
            0x20u32,
            0x85u32,
            0xa0u32,
            0x1680u32,
            0x2000u32,
            0x2001u32,
            0x2002u32,
            0x2003u32,
            0x2004u32,
            0x2005u32,
            0x2006u32,
            0x2007u32,
            0x2008u32,
            0x2009u32,
            0x200au32,
            0x2028u32,
            0x2029u32,
            0x202fu32,
            0x205fu32,
            0x3000u32,
        ].contains(c as u32),
{
}

/// What an index stands for is told by the first pair that has it, and by none where no pair has it.
pub proof fn first_pair_counts(
    pairs: Seq<(DisplayIdx, DecodeIdx)>,
    d: DisplayIdx,
    s: DecodeIdx,
    k: int,
)
    requires
        0 <= k <= pairs.len(),
    ensures
        (forall|j: int| 0 <= j < k ==> (#[trigger] pairs[j]).0 != d) ==> {
            &&& k == pairs.len() ==> order::decode_of(pairs, d) is None
            &&& k < pairs.len() && pairs[k].0 == d ==> order::decode_of(pairs, d) == Some(
                pairs[k].1,
            )
        },
        (forall|j: int| 0 <= j < k ==> (#[trigger] pairs[j]).1 != s) ==> {
            &&& k == pairs.len() ==> order::display_of(pairs, s) is None
            &&& k < pairs.len() && pairs[k].1 == s ==> order::display_of(pairs, s) == Some(
                pairs[k].0,
            )
        },
{
    if (forall|j: int| 0 <= j < k ==> (#[trigger] pairs[j]).0 != d) && k < pairs.len() && pairs[k].0
        == d {
        assert(order::first_with_display(pairs, d, k));
        order::lemma_decode_of(pairs, d, k);
    }
    if (forall|j: int| 0 <= j < k ==> (#[trigger] pairs[j]).1 != s) && k < pairs.len() && pairs[k].1
        == s {
        assert(order::first_with_decode(pairs, s, k));
        order::lemma_display_of(pairs, s, k);
    }
}

} // verus!
