use radia::text::{
    concat_str, contains_exec, decimal_string, float_literal_exec, is_whitespace_exec, parse_i32_exec, replace,
};

#[test]
fn replace_is_left_to_right() {
    assert_eq!(replace("aaa", "aa", "b"), "ba");
    assert_eq!(replace("a..b...c", "..", "."), "a.b..c");
    assert_eq!(replace("xyz", "q", "r"), "xyz");
    assert_eq!(replace("", "q", "r"), "");
    assert_eq!(replace("$1$10", "$1", "X"), "XX0");
}

#[test]
fn contains_finds_substrings() {
    assert!(contains_exec("1.5", "."));
    assert!(!contains_exec("15", "."));
    assert!(contains_exec("go $label", "$label"));
    assert!(contains_exec("abc", ""));
}

#[test]
fn decimals() {
    assert_eq!(decimal_string(0), "0");
    assert_eq!(decimal_string(1234567890), "1234567890");
    assert_eq!(decimal_string(u64::MAX), u64::MAX.to_string());
    assert_eq!(concat_str("ab", "cd"), "abcd");
}

#[test]
fn integers_as_std_parses_them() {
    for s in ["0", "42", "+7", "-7", "2147483647", "-2147483648", "0007", "", "+", "-", "2147483648", "-2147483649", "1x", "99999999999999999999", "1.0"] {
        assert_eq!(parse_i32_exec(s), s.parse::<i32>().ok(), "{s}");
    }
}

#[test]
fn floats_as_std_parses_them() {
    for s in ["1.5", "1.", ".5", "+1.5", "-0.25", "1.5e3", "1.5E-3", "2.e3", "1.2.3", "1.5x", ".", "1.e", "1.5e+", "e.1", "12.34e56", "1e5.5"] {
        assert_eq!(float_literal_exec(s), s.parse::<f32>().is_ok(), "{s}");
    }
}

#[test]
fn whitespace_as_std_tests_it() {
    for c in ['\t', '\n', '\u{b}', '\u{c}', '\r', ' ', '\u{85}', '\u{a0}', '\u{1680}', '\u{2000}', '\u{200a}', '\u{2028}', '\u{2029}', '\u{202f}', '\u{205f}', '\u{3000}', 'a', '\u{200b}', '\u{180e}', '_'] {
        assert_eq!(is_whitespace_exec(c), c.is_whitespace(), "{c:?}");
    }
}

#[test]
fn integers_read_back() {
    for v in [0, 7, -7, 10, -100, i32::MIN, i32::MAX] {
        let mut s = String::new();
        radia::text::push_signed_decimal(&mut s, v);
        assert_eq!(s, v.to_string());
        assert_eq!(parse_i32_exec(&s), Some(v));
    }
}
