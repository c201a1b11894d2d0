//! Characters, bytes and numbers, against the standard library.

use ymelorix::bytes::{extend, extend_be, same_bytes};
use ymelorix::text::{
    char_width, chars_of, decimal, is_control, is_digit, is_whitespace, parse_number, same, split,
    trim, trim_end,
};

#[test]
fn characters_are_those_of_the_standard_library() {
    for code in 0..=0x10_FFFF_u32 {
        if let Some(c) = char::from_u32(code) {
            assert_eq!(is_whitespace(c), c.is_whitespace(), "{code:x}");
            assert_eq!(is_control(c), c.is_control(), "{code:x}");
            assert_eq!(is_digit(c), c.is_ascii_digit(), "{code:x}");
            assert_eq!(char_width(c), c.len_utf8(), "{code:x}");
        }
    }
}

#[test]
fn trimming_is_that_of_the_standard_library() {
    for s in ["", " ", " a ", "\u{2003}a b\u{85}\n", "a", "\t\ta", "a\u{a0}", "\u{200b}a\u{200b}"] {
        assert_eq!(trim(s), s.trim());
        assert_eq!(trim_end(s), s.trim_end());
    }
}

#[test]
fn splitting_is_that_of_the_standard_library() {
    for s in ["", "/", "a", "a/b", "/a//b/", "т/р"] {
        let expected: Vec<String> = s.split('/').map(str::to_owned).collect();
        assert_eq!(split(s, '/'), expected);
        assert_eq!(chars_of(s), s.chars().collect::<Vec<char>>());
    }
}

#[test]
fn numbers_are_those_of_the_standard_library() {
    for s in [
        "", "+", "-", "-0", "0", "+7", "007", "42", "4294967295", "4294967296",
        "18446744073709551615", "18446744073709551616", "99999999999999999999", "1a", " 1", "++1",
        "٣",
    ] {
        assert_eq!(
            parse_number(s, u64::from(u32::MAX)),
            s.parse::<u32>().ok().map(u64::from),
            "{s}"
        );
        assert_eq!(parse_number(s, u64::MAX), s.parse::<u64>().ok(), "{s}");
    }
    for n in [0, 9, 10, 12_345, u64::MAX] {
        assert_eq!(decimal(n), n.to_string());
        assert_eq!(parse_number(&decimal(n), u64::MAX), Some(n));
    }
}

#[test]
fn texts_and_bytes_are_compared_whole() {
    assert!(same("a", "a"));
    assert!(!same("a", "A"));
    assert!(!same("a", "ab"));
    assert!(same_bytes(&[], &[]));
    assert!(!same_bytes(&[1], &[2]));
    assert!(!same_bytes(&[1], &[1, 2]));
}

#[test]
fn numbers_are_appended_most_significant_byte_first() {
    let mut out = vec![9];
    extend_be(&mut out, 0x0102_0304_0506_0708, 3);
    extend(&mut out, &[1]);
    assert_eq!(out, vec![9, 6, 7, 8, 1]);
    extend_be(&mut out, 5, 0);
    assert_eq!(out.len(), 5);
}
