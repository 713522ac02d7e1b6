use frontier_sim::text::{
    contains_text, decimal_text, decimal_text_signed, decode, ends_with, join, lowercase,
    lowercase_ascii, second_word_text, parse_number, same_text, split_once, starts_with,
    text_after_last, trimmed, trimmed_end_char,
};

#[test]
fn trimming_removes_unicode_space() {
    for s in ["", " ", " a b ", "\r\nx\t", "\u{3000}x\u{a0}\u{2028}", "\u{85}\u{b}"] {
        assert_eq!(trimmed(s), s.trim());
    }
    assert_eq!(trimmed_end_char("a//", '/'), "a");
    assert_eq!(trimmed_end_char("//", '/'), "");
}

#[test]
fn splitting_takes_the_first_and_the_last() {
    assert_eq!(split_once("a:b:c", ':'), Some(("a".to_string(), "b:c".to_string())));
    assert_eq!(split_once("abc", ':'), None);
    assert_eq!(text_after_last("a/b/c", '/'), "c");
    assert_eq!(text_after_last("abc", '/'), "abc");
    assert_eq!(second_word_text(" HTTP/1.1  206 Partial"), Some("206".to_string()));
    assert_eq!(second_word_text("HTTP/1.1 "), None);
}

#[test]
fn searching_agrees_with_the_standard_library() {
    for (s, p) in [("abcabd", "abd"), ("", ""), ("a", ""), ("a", "ab"), ("aab", "ab"), ("xyz", "q")]
    {
        assert_eq!(contains_text(s, p), s.contains(p));
        assert_eq!(starts_with(s, p), s.starts_with(p));
        assert_eq!(ends_with(s, p), s.ends_with(p));
    }
    assert!(same_text("ab", "ab"));
    assert!(!same_text("ab", "aB"));
    assert_eq!(join("ab", "cd"), "abcd");
}

#[test]
fn lower_case_is_the_unicode_one() {
    assert_eq!(lowercase("ABC-xyz1"), "abc-xyz1");
    assert_eq!(lowercase("\u{c4}\u{d6}"), "\u{e4}\u{f6}");
    assert_eq!(lowercase_ascii("A\u{c4}Z"), "a\u{c4}z");
}

#[test]
fn bytes_are_decoded_as_utf8() {
    assert_eq!(decode("h\u{e9}".as_bytes()), Some("h\u{e9}"));
    assert_eq!(decode(&[0xff, 0xfe]), None);
}

#[test]
fn numbers_are_written_and_read() {
    for n in [0, 7, 10, 99, 100, 1_234_567, u64::MAX] {
        assert_eq!(decimal_text(n), n.to_string());
        assert_eq!(parse_number(&decimal_text(n), u64::MAX), Some(n));
    }
    for n in [0, -1, 42, i64::MIN, i64::MAX] {
        assert_eq!(decimal_text_signed(n), n.to_string());
    }
    assert_eq!(parse_number("+5", 9), Some(5));
    assert_eq!(parse_number("+", 9), None);
    assert_eq!(parse_number("", 9), None);
    assert_eq!(parse_number("-5", 9), None);
    assert_eq!(parse_number("5x", 9), None);
    assert_eq!(parse_number("256", 255), None);
    assert_eq!(parse_number("0000255", 255), Some(255));
    assert_eq!(parse_number("18446744073709551616", u64::MAX), None);
}
