use fd_api::text::{decimal_chars, parse_i64, push_i64, push_padded, str_eq, to_lower, to_upper, trimmed};

#[test]
fn numbers_are_read_as_str_parse_reads_them() {
    assert_eq!(parse_i64("1794954344814"), Some(1_794_954_344_814));
    assert_eq!(parse_i64("-5"), Some(-5));
    assert_eq!(parse_i64("+7"), Some(7));
    assert_eq!(parse_i64("9223372036854775807"), Some(i64::MAX));
    assert_eq!(parse_i64("-9223372036854775808"), Some(i64::MIN));
    assert_eq!(parse_i64("9223372036854775808"), None);
    assert_eq!(parse_i64(""), None);
    assert_eq!(parse_i64("-"), None);
    assert_eq!(parse_i64("12a"), None);
    assert_eq!(parse_i64(" 1"), None);
}

#[test]
fn numbers_are_written_in_decimal() {
    assert_eq!(decimal_chars(0).iter().collect::<String>(), "0");
    assert_eq!(decimal_chars(u64::MAX).iter().collect::<String>(), "18446744073709551615");
    let mut s = String::new();
    push_padded(&mut s, 7, 3);
    push_i64(&mut s, i64::MIN);
    assert_eq!(s, "007-9223372036854775808");
}

#[test]
fn text_helpers_do_what_std_does() {
    assert_eq!(trimmed("  a b \t\n").iter().collect::<String>(), "a b");
    assert!(str_eq("x", "x") && !str_eq("x", "X"));
    assert_eq!(to_upper('a'), 'A');
    assert_eq!(to_lower('Q'), 'q');
    assert_eq!(to_upper('\u{e9}'), '\u{e9}');
}

use fd_api::text::{chars_of, split_chars};

#[test]
fn splitting_gives_what_str_split_gives() {
    let got: Vec<String> = split_chars(&chars_of("2024--01-"), '-').iter().map(|p| p.iter().collect()).collect();
    assert_eq!(got, vec!["2024", "", "01", ""]);
    let one: Vec<String> = split_chars(&chars_of(""), '-').iter().map(|p| p.iter().collect()).collect();
    assert_eq!(one, vec![""]);
}
