use procview::strutil::{dec_string_of, parse_dec_bounded, split_spaces, trim_ws};

#[test]
fn decimal_rendering_has_exact_digits() {
    assert_eq!(dec_string_of(0), "0");
    assert_eq!(dec_string_of(7), "7");
    assert_eq!(dec_string_of(12345), "12345");
    assert_eq!(dec_string_of(u64::MAX), "18446744073709551615");
}

#[test]
fn decimal_parse_reads_digit_strings() {
    assert_eq!(parse_dec_bounded("123", u64::MAX), Some(123));
    assert_eq!(parse_dec_bounded("0", u64::MAX), Some(0));
}

#[test]
fn decimal_parse_rejects_empty_and_non_digits() {
    assert_eq!(parse_dec_bounded("", u64::MAX), None);
    assert_eq!(parse_dec_bounded("12a", u64::MAX), None);
    assert_eq!(parse_dec_bounded("-5", u64::MAX), None);
}

#[test]
fn decimal_parse_holds_the_bound() {
    assert_eq!(parse_dec_bounded("255", 255), Some(255));
    assert_eq!(parse_dec_bounded("256", 255), None);
    assert_eq!(parse_dec_bounded("99999999999999999999", u64::MAX), None);
}

#[test]
fn trimming_strips_edges_only() {
    assert_eq!(trim_ws("  a b  "), "a b");
    assert_eq!(trim_ws("abc"), "abc");
    assert_eq!(trim_ws(""), "");
    assert_eq!(trim_ws(" \t\r\n"), "");
}

#[test]
fn splitting_keeps_empty_tokens() {
    assert_eq!(split_spaces("a b"), vec!["a", "b"]);
    assert_eq!(split_spaces("a  b"), vec!["a", "", "b"]);
    assert_eq!(split_spaces(""), vec![""]);
    assert_eq!(split_spaces("lm 17"), vec!["lm", "17"]);
}
