use laya::text::{bytes_less, chars_of, decimal_string, has_char, is_empty_text, replace_all, str_eq, string_of_chars, trim};

#[test]
fn str_eq_compares_characters() {
    assert!(str_eq("abc", "abc"));
    assert!(!str_eq("abc", "abd"));
    assert!(!str_eq("abc", "ab"));
    assert!(str_eq("", ""));
}

#[test]
fn replace_all_replaces_every_occurrence() {
    assert_eq!(replace_all("a<|ts_b<|ts_", "<|ts_", "X"), "aXbX");
    assert_eq!(replace_all("aaaa", "aa", "b"), "bb");
    assert_eq!(replace_all("abc", "z", "y"), "abc");
}

#[test]
fn replace_all_with_empty_pattern_interleaves() {
    assert_eq!(replace_all("ab", "", "-"), "-a-b-");
    assert_eq!(replace_all("", "", "-"), "-");
}

#[test]
fn trim_removes_surrounding_whitespace() {
    assert_eq!(trim("  hi there \n"), "hi there");
    assert_eq!(trim("\u{3000}x\u{a0}"), "x");
    assert_eq!(trim("   "), "");
}

#[test]
fn decimal_string_writes_digits() {
    assert_eq!(decimal_string(0), "0");
    assert_eq!(decimal_string(1234567890), "1234567890");
    assert_eq!(decimal_string(u64::MAX), "18446744073709551615");
}

#[test]
fn bytes_less_orders_lexicographically() {
    assert!(bytes_less(b"abc", b"abd"));
    assert!(bytes_less(b"ab", b"abc"));
    assert!(!bytes_less(b"abc", b"abc"));
    assert!(!bytes_less(b"b", b"abc"));
}

#[test]
fn blank_and_char_search() {
    assert!(is_empty_text(""));
    assert!(!is_empty_text(" "));
    assert!(has_char("a b", ' '));
    assert!(!has_char("ab", ' '));
}

#[test]
fn chars_round_trip() {
    let cs = chars_of("héllo");
    assert_eq!(cs.len(), 5);
    assert_eq!(string_of_chars(&cs), "héllo");
}
