use asset_client::helpers::{convert_str_u32_to_char, vec_starts_with};
use asset_client::text::{find_slash, parse_uint, str_eq, str_starts_with};

#[test]
fn parse_uint_reads_decimal_numbers() {
    assert_eq!(parse_uint("0", 65535), Some(0));
    assert_eq!(parse_uint("123", 65535), Some(123));
    assert_eq!(parse_uint("+7", 65535), Some(7));
    assert_eq!(parse_uint("65535", 65535), Some(65535));
}

#[test]
fn parse_uint_refuses_what_is_no_number() {
    assert_eq!(parse_uint("", 65535), None);
    assert_eq!(parse_uint("+", 65535), None);
    assert_eq!(parse_uint("-1", 65535), None);
    assert_eq!(parse_uint("12a", 65535), None);
    assert_eq!(parse_uint("65536", 65535), None);
    assert_eq!(parse_uint("99999999999999999999", u32::MAX), None);
}

#[test]
fn convert_str_u32_to_char_matches_code_points() {
    assert_eq!(convert_str_u32_to_char("65"), Some('A'));
    assert_eq!(convert_str_u32_to_char("97"), Some('a'));
    assert_eq!(convert_str_u32_to_char("128512"), Some('\u{1F600}'));
    // A surrogate value is no character.
    assert_eq!(convert_str_u32_to_char("55296"), None);
    // Beyond the last code point.
    assert_eq!(convert_str_u32_to_char("1114112"), None);
    assert_eq!(convert_str_u32_to_char("not a number"), None);
}

#[test]
fn vec_starts_with_any_prefix() {
    let list = vec!["char".to_string(), "kerning".to_string()];
    assert!(vec_starts_with("char id=65", &list));
    assert!(vec_starts_with("kerning first=1", &list));
    assert!(!vec_starts_with("info face=Arial", &list));
    assert!(!vec_starts_with("", &list));
    assert!(!vec_starts_with("anything", &Vec::new()));
}

#[test]
fn string_helpers_behave() {
    assert!(str_eq("abc", "abc"));
    assert!(!str_eq("abc", "abd"));
    assert!(str_starts_with("ERROR: x", "ERROR"));
    assert!(!str_starts_with("ERR", "ERROR"));
    assert_eq!(find_slash("a/b"), 1);
    assert_eq!(find_slash("/x"), 0);
    assert_eq!(find_slash("none"), 4);
}
