use tachikaze::sort::{sort_ascending, stable_order};
use tachikaze::text::{
    push_hex, push_i64, push_i64_right_aligned, push_text, push_u64, push_u64_right_aligned,
    u64_text,
};
use tachikaze::words::{parse_i64, split_lines, split_words, to_chars};

fn chars(text: &str) -> Vec<char> {
    text.chars().collect()
}

#[test]
fn numbers_are_written_in_decimal_and_aligned() {
    let mut out = String::new();
    push_u64(&mut out, 0);
    out.push(' ');
    push_i64(&mut out, i64::MIN);
    out.push(' ');
    push_u64_right_aligned(&mut out, 42, 5);
    push_i64_right_aligned(&mut out, -1, 4);
    push_u64_right_aligned(&mut out, 1_234_567, 3);
    out.push(' ');
    push_hex(&mut out, 0xdead_beef);
    assert_eq!(out, "0 -9223372036854775808    42  -11234567 deadbeef");
    assert_eq!(u64_text(u64::MAX), "18446744073709551615");
    let mut texts = vec!["a".to_string()];
    push_text(&mut texts, "b");
    assert_eq!(texts, vec!["a".to_string(), "b".to_string()]);
}

#[test]
fn written_numbers_read_back() {
    for n in [0, 7, -7, 10, 1_000_000_007, i64::MAX, i64::MIN] {
        let mut out = String::new();
        push_i64(&mut out, n);
        assert_eq!(parse_i64(&to_chars(&out)), Some(n));
    }
    assert_eq!(parse_i64(&chars("+5")), Some(5));
    assert_eq!(parse_i64(&chars("9223372036854775808")), None);
    assert_eq!(parse_i64(&chars("-9223372036854775809")), None);
    assert_eq!(parse_i64(&chars("")), None);
    assert_eq!(parse_i64(&chars("-")), None);
    assert_eq!(parse_i64(&chars("1a")), None);
}

#[test]
fn lines_and_words_are_cut_at_white_space() {
    assert_eq!(split_lines(&chars("a b\r\nc\n\nd")), vec![
        chars("a b\r"),
        chars("c"),
        chars(""),
        chars("d"),
    ]);
    assert_eq!(split_lines(&chars("a\n")), vec![chars("a"), chars("")]);
    assert_eq!(split_lines(&chars("")), vec![chars("")]);
    assert_eq!(split_words(&chars("  a\t bc\u{3000}d ")), vec![
        chars("a"),
        chars("bc"),
        chars("d"),
    ]);
}

#[test]
fn equal_keys_keep_their_order() {
    assert_eq!(stable_order(&vec![3, 1, 3, 2, 1]), vec![1, 4, 3, 0, 2]);
    assert_eq!(sort_ascending(&vec![3, -1, 2, -1]), vec![-1, -1, 2, 3]);
}
