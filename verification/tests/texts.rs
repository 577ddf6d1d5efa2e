use circuit_compiler::text::{
    chars_of, decimal_digit, matches_word, parse_i32, push_decimal, push_signed_decimal, push_str,
    string_of,
};

fn parsed(text: &str) -> Option<i32> {
    let chars = chars_of(text);
    parse_i32(&chars, 0, chars.len())
}

#[test]
fn integers_with_optional_sign() {
    assert_eq!(parsed("0"), Some(0));
    assert_eq!(parsed("42"), Some(42));
    assert_eq!(parsed("+42"), Some(42));
    assert_eq!(parsed("-42"), Some(-42));
    assert_eq!(parsed("007"), Some(7));
    assert_eq!(parsed("-0"), Some(0));
    assert_eq!(parsed("2147483647"), Some(i32::MAX));
    assert_eq!(parsed("-2147483648"), Some(i32::MIN));
}

#[test]
fn what_is_no_integer() {
    assert_eq!(parsed(""), None);
    assert_eq!(parsed("+"), None);
    assert_eq!(parsed("-"), None);
    assert_eq!(parsed("1 "), None);
    assert_eq!(parsed(" 1"), None);
    assert_eq!(parsed("1_000"), None);
    assert_eq!(parsed("--1"), None);
    assert_eq!(parsed("12a"), None);
    assert_eq!(parsed("2147483648"), None);
    assert_eq!(parsed("-2147483649"), None);
    assert_eq!(parsed("99999999999999999999999999"), None);
}

#[test]
fn a_part_of_the_characters_is_read() {
    let chars = chars_of("signal_4x");
    assert_eq!(parse_i32(&chars, 7, 8), Some(4));
    assert_eq!(parse_i32(&chars, 7, 9), None);
    assert_eq!(parse_i32(&chars, 7, 7), None);
    assert!(matches_word(&chars, 0, 7, "signal_"));
    assert!(!matches_word(&chars, 0, 6, "signal_"));
    assert!(!matches_word(&chars, 1, 8, "signal_"));
    assert_eq!(string_of(&chars, 2, 6), "gnal");
    assert_eq!(string_of(&chars, 3, 3), "");
}

#[test]
fn decimal_notation() {
    let mut text = String::from("n=");
    push_decimal(&mut text, 0);
    push_str(&mut text, ",");
    push_decimal(&mut text, 9);
    push_str(&mut text, ",");
    push_decimal(&mut text, 10);
    push_str(&mut text, ",");
    push_decimal(&mut text, 18446744073709551615);
    assert_eq!(text, "n=0,9,10,18446744073709551615");

    let mut text = String::new();
    push_signed_decimal(&mut text, -1);
    push_signed_decimal(&mut text, 0);
    push_signed_decimal(&mut text, i32::MIN);
    push_signed_decimal(&mut text, i32::MAX);
    assert_eq!(text, "-10-21474836482147483647");
}

#[test]
fn digits() {
    assert_eq!(decimal_digit('0'), Some(0));
    assert_eq!(decimal_digit('9'), Some(9));
    assert_eq!(decimal_digit('a'), None);
    assert_eq!(decimal_digit('/'), None);
    assert_eq!(decimal_digit(':'), None);
    assert_eq!(decimal_digit('\u{663}'), None);
}

#[test]
fn characters_of_a_string() {
    assert_eq!(chars_of("a\u{e9}\u{1f600}"), vec!['a', '\u{e9}', '\u{1f600}']);
    assert_eq!(chars_of(""), Vec::<char>::new());
}
