//! Dividing text into lines and words, and reading numbers.

use crate::text;
use vstd::prelude::*;

verus! {

/// The characters of a text.
pub fn to_chars(text: &str) -> (chars: Vec<char>)
    ensures
        chars@ == text@,
{
    let mut chars: Vec<char> = Vec::new();
    for c in it: text.chars()
        invariant
            it.seq() == text@,
            chars@ == text@.take(it.index() as int),
    {
        chars.push(c);
        assert(chars@ =~= text@.take(it.index() + 1));
    }
    assert(chars@ =~= text@);
    chars
}

/// White space: the characters that have this property in Unicode.
pub open spec fn is_white(c: char) -> bool {
    let n = c as u32;
    ||| 9 <= n <= 13
    ||| n == 0x20
    ||| n == 0x85
    ||| n == 0xa0
    ||| n == 0x1680
    ||| 0x2000 <= n <= 0x200a
    ||| n == 0x2028
    ||| n == 0x2029
    ||| n == 0x202f
    ||| n == 0x205f
    ||| n == 0x3000
}

fn is_white_space(c: char) -> (r: bool)
    ensures
        r == is_white(c),
{
    let n: u32 = c as u32;
    (9 <= n && n <= 13) || n == 0x20 || n == 0x85 || n == 0xa0 || n == 0x1680 || (0x2000 <= n && n
        <= 0x200a) || n == 0x2028 || n == 0x2029 || n == 0x202f || n == 0x205f || n == 0x3000
}

/// The words among the first `n` characters of a line: the longest pieces without white space.
pub open spec fn words(s: Seq<char>, n: int) -> Seq<Seq<char>>
    decreases n,
{
    if n <= 0 {
        Seq::empty()
    } else {
        let before = words(s, n - 1);
        if is_white(s[n - 1]) {
            before
        } else if n == 1 || is_white(s[n - 2]) {
            before.push(seq![s[n - 1]])
        } else {
            before.update(before.len() - 1, before.last().push(s[n - 1]))
        }
    }
}

/// Words as sequences of characters.
pub open spec fn word_views(list: Seq<Vec<char>>) -> Seq<Seq<char>> {
    list.map_values(|v: Vec<char>| v@)
}

proof fn lemma_words_nonempty(s: Seq<char>, n: int)
    requires
        0 < n <= s.len(),
        !is_white(s[n - 1]),
    ensures
        words(s, n).len() > 0,
    decreases n,
{
    if n > 1 && !is_white(s[n - 2]) {
        lemma_words_nonempty(s, n - 1);
    }
}

/// The words of a line.
pub fn split_words(line: &Vec<char>) -> (list: Vec<Vec<char>>)
    ensures
        word_views(list@) == words(line@, line@.len() as int),
{
    let mut list: Vec<Vec<char>> = Vec::new();
    let mut within: bool = false;
    let mut i: usize = 0;
    assert(word_views(list@) =~= words(line@, 0));
    while i < line.len()
        invariant
            i <= line@.len(),
            word_views(list@) == words(line@, i as int),
            within == (i > 0 && !is_white(line@[i - 1])),
        decreases line@.len() - i,
    {
        let c: char = line[i];
        let ghost before = word_views(list@);
        if is_white_space(c) {
            within = false;
        } else {
            if !within {
                let mut word: Vec<char> = Vec::new();
                word.push(c);
                list.push(word);
                assert(word_views(list@) =~= before.push(seq![c]));
            } else {
                proof {
                    lemma_words_nonempty(line@, i as int);
                }
                let last: usize = list.len() - 1;
                list[last].push(c);
                assert(word_views(list@) =~= before.update(
                    before.len() - 1,
                    before.last().push(c),
                ));
            }
            within = true;
        }
        i += 1;
    }
    list
}

/// The lines among the first `n` characters of a text, the last of which may have no characters.
pub open spec fn lines(s: Seq<char>, n: int) -> Seq<Seq<char>>
    decreases n,
{
    if n <= 0 {
        seq![Seq::empty()]
    } else {
        let before = lines(s, n - 1);
        if s[n - 1] == '\n' {
            before.push(Seq::empty())
        } else {
            before.update(before.len() - 1, before.last().push(s[n - 1]))
        }
    }
}

proof fn lemma_lines_nonempty(s: Seq<char>, n: int)
    ensures
        lines(s, n).len() > 0,
    decreases n,
{
    if n > 0 {
        lemma_lines_nonempty(s, n - 1);
    }
}

/// The lines of a text.
pub fn split_lines(text: &Vec<char>) -> (list: Vec<Vec<char>>)
    ensures
        word_views(list@) == lines(text@, text@.len() as int),
{
    let mut list: Vec<Vec<char>> = Vec::new();
    list.push(Vec::new());
    let mut i: usize = 0;
    assert(word_views(list@) =~= lines(text@, 0));
    while i < text.len()
        invariant
            i <= text@.len(),
            word_views(list@) == lines(text@, i as int),
        decreases text@.len() - i,
    {
        let c: char = text[i];
        let ghost before = word_views(list@);
        proof {
            lemma_lines_nonempty(text@, i as int);
        }
        if c == '\n' {
            list.push(Vec::new());
            assert(word_views(list@) =~= before.push(Seq::empty()));
        } else {
            let last: usize = list.len() - 1;
            list[last].push(c);
            assert(word_views(list@) =~= before.update(before.len() - 1, before.last().push(c)));
        }
        i += 1;
    }
    list
}

/// A decimal digit.
pub open spec fn is_digit(c: char) -> bool {
    '0' <= c <= '9'
}

/// All characters from `k` on are digits, and there is one.
pub open spec fn are_digits(s: Seq<char>, k: int) -> bool {
    &&& k < s.len()
    &&& forall|i: int| k <= i < s.len() ==> is_digit(#[trigger] s[i])
}

/// The number that the digits `k..n` stand for.
pub open spec fn digits_value(s: Seq<char>, k: int, n: int) -> int
    decreases n - k,
{
    if n <= k {
        0
    } else {
        10 * digits_value(s, k, n - 1) + (s[n - 1] as u32 - '0' as u32)
    }
}

/// The number that a word stands for: digits, behind a sign where there is one, for a number of
/// 64 bits with a sign.
pub open spec fn number(s: Seq<char>) -> Option<int> {
    let signed = s.len() > 0 && (s[0] == '-' || s[0] == '+');
    let k = if signed {
        1int
    } else {
        0
    };
    let value = if s.len() > 0 && s[0] == '-' {
        -digits_value(s, k, s.len() as int)
    } else {
        digits_value(s, k, s.len() as int)
    };
    if are_digits(s, k) && i64::MIN <= value <= i64::MAX {
        Some(value)
    } else {
        None
    }
}

proof fn lemma_digits_grow(s: Seq<char>, k: int, m: int, n: int)
    requires
        are_digits(s, k),
        0 <= k <= m <= n <= s.len(),
    ensures
        0 <= digits_value(s, k, m) <= digits_value(s, k, n),
    decreases n - k,
{
    if n > k {
        assert(is_digit(s[n - 1]));
        if m < n {
            lemma_digits_grow(s, k, m, n - 1);
        } else {
            lemma_digits_grow(s, k, m - 1, n - 1);
        }
    }
}

/// The number that a word stands for.
pub fn parse_i64(s: &Vec<char>) -> (r: Option<i64>)
    ensures
        match r {
            Some(v) => number(s@) == Some(v as int),
            None => number(s@) is None,
        },
{
    let n: usize = s.len();
    if n == 0 {
        return None;
    }
    let negative: bool = s[0] == '-';
    let k: usize = if s[0] == '-' || s[0] == '+' {
        1
    } else {
        0
    };
    if k == n {
        return None;
    }
    let mut i: usize = k;
    while i < n
        invariant
            k <= i <= n == s@.len(),
            k == (if s@[0] == '-' || s@[0] == '+' {
                1int
            } else {
                0
            }),
            forall|j: int| k <= j < i ==> is_digit(#[trigger] s@[j]),
        decreases n - i,
    {
        let c: char = s[i];
        if c < '0' || c > '9' {
            assert(!is_digit(s@[i as int]));
            return None;
        }
        i += 1;
    }
    assert(are_digits(s@, k as int));
    let mut value: i128 = 0;
    let mut i: usize = k;
    while i < n
        invariant
            are_digits(s@, k as int),
            n == s@.len(),
            k <= i <= n,
            negative == (s@[0] == '-'),
            k == (if s@[0] == '-' || s@[0] == '+' {
                1int
            } else {
                0
            }),
            value == digits_value(s@, k as int, i as int),
            0 <= value <= 0x8000_0000_0000_0000,
        decreases n - i,
    {
        assert(is_digit(s@[i as int]));
        let d: u32 = s[i] as u32 - '0' as u32;
        value = 10 * value + d as i128;
        i += 1;
        if value > 0x8000_0000_0000_0000 {
            proof {
                lemma_digits_grow(s@, k as int, i as int, n as int);
            }
            return None;
        }
    }
    if negative {
        Some((-value) as i64)
    } else if value > 0x7fff_ffff_ffff_ffff {
        None
    } else {
        Some(value as i64)
    }
}

/// Only the digits themselves matter to their value.
proof fn lemma_digits_agree(a: Seq<char>, b: Seq<char>, j: int, k: int, n: int)
    requires
        0 <= n,
        forall|i: int| 0 <= i < n ==> #[trigger] a[j + i] == b[k + i],
    ensures
        digits_value(a, j, j + n) == digits_value(b, k, k + n),
    decreases n,
{
    if n > 0 {
        lemma_digits_agree(a, b, j, k, n - 1);
        let last = n - 1;
        assert(a[j + last] == b[k + last]);
    }
}

/// A number in decimal reads back.
pub proof fn decimal_reads_back(n: nat)
    ensures
        are_digits(text::decimal(n), 0),
        digits_value(text::decimal(n), 0, text::decimal(n).len() as int) == n,
    decreases n,
{
    let s = text::decimal(n);
    if n < 10 {
        assert(digits_value(s, 0, 0) == 0);
        assert(s[0] == text::digit_char(n as int));
        assert(digits_value(s, 0, 1) == n);
    } else {
        let before = text::decimal(n / 10);
        decimal_reads_back(n / 10);
        let m = before.len() as int;
        lemma_digits_agree(s, before, 0, 0, m);
        assert(s[m] == text::digit_char((n % 10) as int));
        assert forall|i: int| 0 <= i < s.len() implies is_digit(#[trigger] s[i]) by {
            if i < m {
                assert(s[i] == before[i]);
            }
        }
    }
}

/// The words of the start of a text do not depend on what follows.
proof fn lemma_words_prefix(s: Seq<char>, t: Seq<char>, n: int)
    requires
        n <= s.len(),
    ensures
        words(s + t, n) == words(s, n),
    decreases n,
{
    if n > 0 {
        lemma_words_prefix(s, t, n - 1);
        assert((s + t)[n - 1] == s[n - 1]);
        if n > 1 {
            assert((s + t)[n - 2] == s[n - 2]);
        }
    }
}

/// White space adds no word.
pub proof fn lemma_words_then_space(s: Seq<char>, t: Seq<char>)
    requires
        forall|i: int| 0 <= i < t.len() ==> is_white(#[trigger] t[i]),
    ensures
        words(s + t, (s + t).len() as int) == words(s, s.len() as int),
    decreases t.len(),
{
    if t.len() == 0 {
        assert(s + t =~= s);
    } else {
        let front = t.drop_last();
        assert forall|i: int| 0 <= i < front.len() implies is_white(#[trigger] front[i]) by {
            assert(front[i] == t[i]);
        }
        lemma_words_then_space(s, front);
        assert(s + t =~= (s + front) + seq![t.last()]);
        lemma_words_prefix(s + front, seq![t.last()], (s + front).len() as int);
        assert((s + t)[s.len() + t.len() - 1] == t.last());
    }
}

/// Characters without white space, behind nothing or behind white space, are one more word.
pub proof fn lemma_words_then_word(s: Seq<char>, w: Seq<char>)
    requires
        w.len() > 0,
        s.len() == 0 || is_white(s.last()),
        forall|i: int| 0 <= i < w.len() ==> !is_white(#[trigger] w[i]),
    ensures
        words(s + w, (s + w).len() as int) == words(s, s.len() as int).push(w),
    decreases w.len(),
{
    let whole = s + w;
    let front = w.drop_last();
    assert(whole =~= (s + front) + seq![w.last()]);
    lemma_words_prefix(s + front, seq![w.last()], (s + front).len() as int);
    assert(whole[whole.len() - 1] == w.last());
    if front.len() == 0 {
        assert(s + front =~= s);
        assert(w =~= seq![w.last()]);
        if s.len() > 0 {
            assert(whole[whole.len() - 2] == s.last());
        }
    } else {
        assert forall|i: int| 0 <= i < front.len() implies !is_white(#[trigger] front[i]) by {
            assert(front[i] == w[i]);
        }
        lemma_words_then_word(s, front);
        assert(whole[whole.len() - 2] == w[w.len() - 2]);
        let before = words(s, s.len() as int);
        assert(before.push(front).update(before.len() as int, front.push(w.last()))
            =~= before.push(front.push(w.last())));
        assert(front.push(w.last()) =~= w);
    }
}

/// The lines of the start of a text do not depend on what follows.
proof fn lemma_lines_prefix(s: Seq<char>, t: Seq<char>, n: int)
    requires
        n <= s.len(),
    ensures
        lines(s + t, n) == lines(s, n),
    decreases n,
{
    if n > 0 {
        lemma_lines_prefix(s, t, n - 1);
        assert((s + t)[n - 1] == s[n - 1]);
    }
}

/// Characters without a line end belong to the last line.
proof fn lemma_lines_then_piece(s: Seq<char>, t: Seq<char>)
    requires
        forall|i: int| 0 <= i < t.len() ==> #[trigger] t[i] != '\n',
    ensures
        ({
            let before = lines(s, s.len() as int);
            lines(s + t, (s + t).len() as int) == before.update(
                before.len() - 1,
                before.last() + t,
            )
        }),
    decreases t.len(),
{
    let before = lines(s, s.len() as int);
    lemma_lines_nonempty(s, s.len() as int);
    if t.len() == 0 {
        assert(s + t =~= s);
        assert(before.last() + t =~= before.last());
        assert(before.update(before.len() - 1, before.last()) =~= before);
    } else {
        let front = t.drop_last();
        assert forall|i: int| 0 <= i < front.len() implies #[trigger] front[i] != '\n' by {
            assert(front[i] == t[i]);
        }
        lemma_lines_then_piece(s, front);
        assert(s + t =~= (s + front) + seq![t.last()]);
        lemma_lines_prefix(s + front, seq![t.last()], (s + front).len() as int);
        assert((s + t)[s.len() + t.len() - 1] == t.last());
        assert((before.last() + front).push(t.last()) =~= before.last() + t);
        assert(before.update(before.len() - 1, before.last() + front).update(
            before.len() - 1,
            before.last() + t,
        ) =~= before.update(before.len() - 1, before.last() + t));
    }
}

/// A line behind complete lines is one more line.
pub proof fn lemma_lines_then_line(s: Seq<char>, complete: Seq<Seq<char>>, line: Seq<char>)
    requires
        lines(s, s.len() as int) == complete.push(Seq::empty()),
        forall|i: int| 0 <= i < line.len() ==> #[trigger] line[i] != '\n',
    ensures
        ({
            let longer = s + (line + seq!['\n']);
            lines(longer, longer.len() as int) == complete.push(line).push(Seq::empty())
        }),
{
    let longer = s + (line + seq!['\n']);
    lemma_lines_then_piece(s, line);
    assert(longer =~= (s + line) + seq!['\n']);
    lemma_lines_prefix(s + line, seq!['\n'], (s + line).len() as int);
    assert(longer[longer.len() - 1] == '\n');
    let empty = Seq::<char>::empty();
    assert(complete.push(empty).last() + line =~= line);
    assert(complete.push(empty).update(complete.len() as int, line) =~= complete.push(line));
}

/// A number that is written in decimal reads back as the same number.
pub proof fn written_number_reads_back(n: int)
    requires
        i64::MIN <= n <= i64::MAX,
    ensures
        number(text::signed_decimal(n)) == Some(n),
{
    let s = text::signed_decimal(n);
    if n < 0 {
        let digits = text::decimal((-n) as nat);
        decimal_reads_back((-n) as nat);
        assert(s[0] == '-');
        assert forall|i: int| 1 <= i < s.len() implies is_digit(#[trigger] s[i]) by {
            assert(s[i] == digits[i - 1]);
        }
        lemma_digits_shift(digits, s, digits.len() as int);
    } else {
        decimal_reads_back(n as nat);
        assert(is_digit(s[0]));
    }
}

proof fn lemma_digits_shift(s: Seq<char>, t: Seq<char>, n: int)
    requires
        0 <= n <= s.len(),
        t == seq!['-'] + s,
    ensures
        digits_value(t, 1, n + 1) == digits_value(s, 0, n),
    decreases n,
{
    if n > 0 {
        lemma_digits_shift(s, t, n - 1);
        assert(t[n] == s[n - 1]);
    }
}

/// The characters of a written number are no white space, and there is one.
pub proof fn lemma_number_is_a_word(n: int)
    ensures
        text::signed_decimal(n).len() > 0,
        forall|i: int|
            0 <= i < text::signed_decimal(n).len() ==> !is_white(
                #[trigger] text::signed_decimal(n)[i],
            ),
{
    let s = text::signed_decimal(n);
    let digits = text::decimal(
        if n < 0 {
            (-n) as nat
        } else {
            n as nat
        },
    );
    decimal_reads_back(
        if n < 0 {
            (-n) as nat
        } else {
            n as nat
        },
    );
    assert forall|i: int| 0 <= i < s.len() implies !is_white(#[trigger] s[i]) by {
        if n < 0 {
            if i > 0 {
                assert(s[i] == digits[i - 1]);
            }
        } else {
            assert(s[i] == digits[i]);
        }
    }
}

} // verus!
