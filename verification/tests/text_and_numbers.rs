use lib::number::{decimal_string, parse_i32, parse_u128};
use lib::text::{chars_of, split_ranges, str_equal, to_ascii_lowercase};

#[test]
fn parse_u128_reads_plain_and_plus_prefixed_numbers() {
    assert_eq!(parse_u128("123"), Some(123));
    assert_eq!(parse_u128("+7"), Some(7));
    assert_eq!(parse_u128("007"), Some(7));
    assert_eq!(parse_u128("340282366920938463463374607431768211455"), Some(u128::MAX));
}

#[test]
fn parse_u128_refuses_what_str_parse_refuses() {
    assert_eq!(parse_u128(""), None);
    assert_eq!(parse_u128("+"), None);
    assert_eq!(parse_u128("-1"), None);
    assert_eq!(parse_u128("12a"), None);
    assert_eq!(parse_u128("340282366920938463463374607431768211456"), None);
    for s in ["", "+", "-1", "12a", "1 2", "99999999999999999999999999999999999999999"] {
        assert_eq!(parse_u128(s), s.parse::<u128>().ok());
    }
}

#[test]
fn parse_i32_follows_str_parse() {
    assert_eq!(parse_i32("-2147483648"), Some(i32::MIN));
    assert_eq!(parse_i32("2147483647"), Some(i32::MAX));
    assert_eq!(parse_i32("2147483648"), None);
    assert_eq!(parse_i32("-2147483649"), None);
    assert_eq!(parse_i32("-0"), Some(0));
    assert_eq!(parse_i32("+5"), Some(5));
    assert_eq!(parse_i32("-"), None);
    for s in ["6380", "-12", "+0", "", "--1", "1e3", "4294967296"] {
        assert_eq!(parse_i32(s), s.parse::<i32>().ok());
    }
}

#[test]
fn decimal_string_writes_shortest_form() {
    assert_eq!(decimal_string(0), "0");
    assert_eq!(decimal_string(1234), "1234");
    assert_eq!(decimal_string(u128::MAX), u128::MAX.to_string());
}

#[test]
fn decimal_then_parse_gives_back_the_number() {
    for n in [0u128, 9, 10, 65535, 1 << 100, u128::MAX] {
        assert_eq!(parse_u128(&decimal_string(n)), Some(n));
    }
}

#[test]
fn chars_of_keeps_all_characters() {
    assert_eq!(chars_of("héllo"), vec!['h', 'é', 'l', 'l', 'o']);
    assert_eq!(chars_of(""), Vec::<char>::new());
}

#[test]
fn split_ranges_matches_str_split() {
    let text = chars_of("a\r\nbc\r\n\r\nd\r\n");
    let sep = vec!['\r', '\n'];
    let ranges = split_ranges(&text, &sep);
    let pieces: Vec<String> =
        ranges.iter().map(|&(f, t)| text[f..t].iter().collect()).collect();
    let expected: Vec<String> =
        "a\r\nbc\r\n\r\nd\r\n".split("\r\n").map(|s| s.to_string()).collect();
    assert_eq!(pieces, expected);
    let dash = vec!['-'];
    let id = chars_of("1-2-3");
    assert_eq!(split_ranges(&id, &dash), vec![(0, 1), (2, 3), (4, 5)]);
}

#[test]
fn lowercase_and_equality() {
    assert_eq!(to_ascii_lowercase("PiNg É"), "ping É");
    assert!(str_equal("abc", "abc"));
    assert!(!str_equal("abc", "abd"));
    assert!(!str_equal("abc", "ab"));
}
