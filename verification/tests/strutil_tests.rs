use wallpaper_carousel::strutil::{
    ascii_lower_char, i64_to_string, str_eq, str_le, trimmed, u64_to_string,
};

#[test]
fn decimal_formatting() {
    assert_eq!(u64_to_string(0), "0");
    assert_eq!(u64_to_string(7), "7");
    assert_eq!(u64_to_string(10), "10");
    assert_eq!(u64_to_string(90210), "90210");
    assert_eq!(u64_to_string(u64::MAX), "18446744073709551615");
}

#[test]
fn signed_decimal_formatting() {
    assert_eq!(i64_to_string(0), "0");
    assert_eq!(i64_to_string(-1), "-1");
    assert_eq!(i64_to_string(-9876), "-9876");
    assert_eq!(i64_to_string(i64::MAX), "9223372036854775807");
    assert_eq!(i64_to_string(i64::MIN + 1), "-9223372036854775807");
}

#[test]
fn trimming() {
    assert_eq!(trimmed("  abc  "), "abc");
    assert_eq!(trimmed("\n\t x y \r\n"), "x y");
    assert_eq!(trimmed("abc"), "abc");
    assert_eq!(trimmed("   "), "");
    assert_eq!(trimmed(""), "");
}

#[test]
fn string_comparison() {
    assert!(str_le("a", "b"));
    assert!(!str_le("b", "a"));
    assert!(str_le("a", "a"));
    assert!(str_le("a", "ab"));
    assert!(!str_le("ab", "a"));
    assert!(str_le("A", "a"));
    assert!(str_le("/p/a.jpg", "/p/b.jpg"));
}

#[test]
fn string_equality() {
    assert!(str_eq("", ""));
    assert!(str_eq("abc", "abc"));
    assert!(!str_eq("abc", "abd"));
    assert!(!str_eq("abc", "ab"));
}

#[test]
fn ascii_case_folding() {
    assert_eq!(ascii_lower_char('A'), 'a');
    assert_eq!(ascii_lower_char('Z'), 'z');
    assert_eq!(ascii_lower_char('a'), 'a');
    assert_eq!(ascii_lower_char('0'), '0');
    assert_eq!(ascii_lower_char('['), '[');
}
