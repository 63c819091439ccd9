use toy_lang::text::{chars_of, doc_text, is_whitespace, parse_unsigned, process_escapes, remove_underscores};

fn s(v: &[char]) -> String {
    v.iter().collect()
}

#[test]
fn parse_decimal_hex_binary() {
    assert_eq!(parse_unsigned(&chars_of("42"), 10, u64::MAX), Some(42));
    assert_eq!(parse_unsigned(&chars_of("ff"), 16, u64::MAX), Some(255));
    assert_eq!(parse_unsigned(&chars_of("FF"), 16, u64::MAX), Some(255));
    assert_eq!(parse_unsigned(&chars_of("1010"), 2, u64::MAX), Some(10));
    assert_eq!(parse_unsigned(&chars_of("17"), 8, u64::MAX), Some(15));
    assert_eq!(parse_unsigned(&chars_of("+7"), 10, u64::MAX), Some(7));
}

#[test]
fn parse_rejects_bad_input() {
    assert_eq!(parse_unsigned(&chars_of(""), 10, u64::MAX), None);
    assert_eq!(parse_unsigned(&chars_of("+"), 10, u64::MAX), None);
    assert_eq!(parse_unsigned(&chars_of("-1"), 10, u64::MAX), None);
    assert_eq!(parse_unsigned(&chars_of("12a"), 10, u64::MAX), None);
    assert_eq!(parse_unsigned(&chars_of("2"), 2, u64::MAX), None);
    assert_eq!(parse_unsigned(&chars_of("256"), 10, 255), None);
    assert_eq!(parse_unsigned(&chars_of("255"), 10, 255), Some(255));
    assert_eq!(parse_unsigned(&chars_of("18446744073709551616"), 10, u64::MAX), None);
    assert_eq!(parse_unsigned(&chars_of("18446744073709551615"), 10, u64::MAX), Some(u64::MAX));
}

#[test]
fn underscores_are_removed() {
    assert_eq!(s(&remove_underscores(&chars_of("1_000_000"))), "1000000");
    assert_eq!(s(&remove_underscores(&chars_of("___"))), "");
}

#[test]
fn escapes_are_processed() {
    assert_eq!(s(&process_escapes(&chars_of("hello\\nworld"))), "hello\nworld");
    assert_eq!(s(&process_escapes(&chars_of("a\\tb\\r\\\\\\\""))), "a\tb\r\\\"");
    assert_eq!(s(&process_escapes(&chars_of("\\f"))), "\x0C");
    assert_eq!(s(&process_escapes(&chars_of("\\q"))), "\\q");
    assert_eq!(s(&process_escapes(&chars_of("end\\"))), "end\\");
}

#[test]
fn unicode_escapes() {
    assert_eq!(s(&process_escapes(&chars_of("\\u{41}"))), "A");
    assert_eq!(s(&process_escapes(&chars_of("\\u{1F600}!"))), "\u{1F600}!");
    assert_eq!(s(&process_escapes(&chars_of("\\u{D800}x"))), "x");
    assert_eq!(s(&process_escapes(&chars_of("\\u{zz}x"))), "x");
    assert_eq!(s(&process_escapes(&chars_of("\\uAB"))), "B");
    assert_eq!(s(&process_escapes(&chars_of("\\u"))), "");
}

#[test]
fn doc_text_strips_hashes_and_spaces() {
    assert_eq!(s(&doc_text(&chars_of("## This is a doc comment"))), "This is a doc comment");
    assert_eq!(s(&doc_text(&chars_of("###  padded  "))), "padded");
    assert_eq!(s(&doc_text(&chars_of("##"))), "");
}

#[test]
fn whitespace_classification() {
    assert!(is_whitespace(' '));
    assert!(is_whitespace('\n'));
    assert!(is_whitespace('\u{3000}'));
    assert!(!is_whitespace('a'));
}

#[test]
fn chars_of_lists_characters() {
    let v = chars_of("héllo");
    assert_eq!(v, vec!['h', 'é', 'l', 'l', 'o']);
}
