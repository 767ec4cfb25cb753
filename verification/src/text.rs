//! Numbers as text.

use vstd::prelude::*;

verus! {

/// The character that stands for the digit `d`, for `d` from 0 to 9.
pub open spec fn digit_char(d: int) -> char {
    if d == 0 {
        '0'
    } else if d == 1 {
        '1'
    } else if d == 2 {
        '2'
    } else if d == 3 {
        '3'
    } else if d == 4 {
        '4'
    } else if d == 5 {
        '5'
    } else if d == 6 {
        '6'
    } else if d == 7 {
        '7'
    } else if d == 8 {
        '8'
    } else {
        '9'
    }
}

/// The decimal digits of `n`, without leading zeros.
pub open spec fn decimal(n: nat) -> Seq<char>
    decreases n,
{
    if n < 10 {
        seq![digit_char(n as int)]
    } else {
        decimal(n / 10).push(digit_char((n % 10) as int))
    }
}

/// The decimal digits of `n`, after a minus sign where `n` is negative.
pub open spec fn signed_decimal(n: int) -> Seq<char> {
    if n < 0 {
        seq!['-'] + decimal((-n) as nat)
    } else {
        decimal(n as nat)
    }
}

/// `text` with spaces in front, up to a total of `width` characters.
pub open spec fn right_aligned(text: Seq<char>, width: nat) -> Seq<char> {
    if text.len() < width {
        Seq::new((width - text.len()) as nat, |i: int| ' ') + text
    } else {
        text
    }
}

fn push_digit(out: &mut String, d: u64)
    requires
        d < 10,
    ensures
        final(out)@ == old(out)@.push(digit_char(d as int)),
{
    proof {
        reveal_strlit("0");
        reveal_strlit("1");
        reveal_strlit("2");
        reveal_strlit("3");
        reveal_strlit("4");
        reveal_strlit("5");
        reveal_strlit("6");
        reveal_strlit("7");
        reveal_strlit("8");
        reveal_strlit("9");
    }
    let text = if d == 0 {
        "0"
    } else if d == 1 {
        "1"
    } else if d == 2 {
        "2"
    } else if d == 3 {
        "3"
    } else if d == 4 {
        "4"
    } else if d == 5 {
        "5"
    } else if d == 6 {
        "6"
    } else if d == 7 {
        "7"
    } else if d == 8 {
        "8"
    } else {
        "9"
    };
    assert(text@ =~= seq![digit_char(d as int)]);
    out.append(text);
    assert(out@ =~= old(out)@.push(digit_char(d as int)));
}

/// Appends `n` in decimal.
pub fn push_u64(out: &mut String, n: u64)
    ensures
        final(out)@ == old(out)@ + decimal(n as nat),
    decreases n,
{
    if n >= 10 {
        push_u64(out, n / 10);
    }
    push_digit(out, n % 10);
    assert(out@ =~= old(out)@ + decimal(n as nat));
}

/// Appends `n` in decimal, with a minus sign where it is negative.
pub fn push_i64(out: &mut String, n: i64)
    ensures
        final(out)@ == old(out)@ + signed_decimal(n as int),
{
    if n < 0 {
        proof {
            reveal_strlit("-");
        }
        out.append("-");
        let magnitude: u64 = if n == i64::MIN {
            9_223_372_036_854_775_808
        } else {
            (-n) as u64
        };
        push_u64(out, magnitude);
        assert(out@ =~= old(out)@ + signed_decimal(n as int));
    } else {
        push_u64(out, n as u64);
    }
}

/// Appends `text`, right-aligned in `width` columns.
fn push_right_aligned(out: &mut String, text: &str, width: usize)
    ensures
        final(out)@ == old(out)@ + right_aligned(text@, width as nat),
{
    let len: usize = text.unicode_len();
    let ghost before = out@;
    let mut column: usize = len;
    while column < width
        invariant
            len == text@.len(),
            len <= column,
            len <= width ==> column <= width,
            len > width ==> column == len,
            out@ == before + Seq::new((column - len) as nat, |i: int| ' '),
        decreases width - column,
    {
        proof {
            reveal_strlit(" ");
        }
        out.append(" ");
        column += 1;
        assert(out@ =~= before + Seq::new((column - len) as nat, |i: int| ' '));
    }
    out.append(text);
    assert(out@ =~= before + right_aligned(text@, width as nat));
}

/// Appends `n` in decimal, right-aligned in `width` columns.
pub fn push_u64_right_aligned(out: &mut String, n: u64, width: usize)
    ensures
        final(out)@ == old(out)@ + right_aligned(decimal(n as nat), width as nat),
{
    push_right_aligned(out, u64_text(n).as_str(), width);
}

/// Appends `n` in decimal, with a minus sign where it is negative, right-aligned in `width`
/// columns.
pub fn push_i64_right_aligned(out: &mut String, n: i64, width: usize)
    ensures
        final(out)@ == old(out)@ + right_aligned(signed_decimal(n as int), width as nat),
{
    let mut digits = String::new();
    push_i64(&mut digits, n);
    assert(digits@ =~= signed_decimal(n as int));
    push_right_aligned(out, digits.as_str(), width);
}

/// `n` in decimal.
pub fn u64_text(n: u64) -> (text: String)
    ensures
        text@ == decimal(n as nat),
{
    let mut text = String::new();
    push_u64(&mut text, n);
    assert(text@ =~= decimal(n as nat));
    text
}

/// The character that stands for the hexadecimal digit `d`, for `d` from 0 to 15.
pub open spec fn hex_char(d: int) -> char {
    if d == 10 {
        'a'
    } else if d == 11 {
        'b'
    } else if d == 12 {
        'c'
    } else if d == 13 {
        'd'
    } else if d == 14 {
        'e'
    } else if d == 15 {
        'f'
    } else {
        digit_char(d)
    }
}

/// The hexadecimal digits of `n`, without leading zeros.
pub open spec fn hexadecimal(n: nat) -> Seq<char>
    decreases n,
{
    if n < 16 {
        seq![hex_char(n as int)]
    } else {
        hexadecimal(n / 16).push(hex_char((n % 16) as int))
    }
}

/// Appends `n` in hexadecimal.
pub fn push_hex(out: &mut String, n: u64)
    ensures
        final(out)@ == old(out)@ + hexadecimal(n as nat),
    decreases n,
{
    if n >= 16 {
        push_hex(out, n / 16);
    }
    let ghost before = out@;
    let d: u64 = n % 16;
    if d < 10 {
        push_digit(out, d);
    } else {
        proof {
            reveal_strlit("a");
            reveal_strlit("b");
            reveal_strlit("c");
            reveal_strlit("d");
            reveal_strlit("e");
            reveal_strlit("f");
        }
        let text = if d == 10 {
            "a"
        } else if d == 11 {
            "b"
        } else if d == 12 {
            "c"
        } else if d == 13 {
            "d"
        } else if d == 14 {
            "e"
        } else {
            "f"
        };
        assert(text@ =~= seq![hex_char(d as int)]);
        out.append(text);
    }
    assert(out@ =~= before.push(hex_char(d as int)));
    assert(out@ =~= old(out)@ + hexadecimal(n as nat));
}

/// Texts as sequences of characters.
pub open spec fn text_views(texts: Seq<String>) -> Seq<Seq<char>> {
    texts.map_values(|s: String| s@)
}

/// Appends a copy of `text` to `texts`.
pub fn push_text(texts: &mut Vec<String>, text: &str)
    ensures
        text_views(final(texts)@) == text_views(old(texts)@).push(text@),
{
    texts.push(text.to_owned());
    assert(text_views(texts@) =~= text_views(old(texts)@).push(text@));
}

} // verus!
