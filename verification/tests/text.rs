use logos::graph::range::is_printable;
use logos::graph::Range;
use logos::parser::subpattern::Subpattern;
use logos::parser::{Literal, Mode};
use logos::pattern::Pattern;
use logos::text::push_decimal;
use logos::util::bytes_to_regex_string;

#[test]
fn decimal_numbers() {
    let mut s = String::new();
    push_decimal(&mut s, 0);
    s.push(' ');
    push_decimal(&mut s, 1234567890);
    assert_eq!(s, "0 1234567890");
}

#[test]
fn regex_strings_from_bytes() {
    assert_eq!(bytes_to_regex_string(b"foo".to_vec()), "foo");
    assert_eq!(bytes_to_regex_string(vec![b'a', 0xFF, 0x80, b'z']), "a\\xff\\x80z");
    assert_eq!(Literal::Bytes(vec![0xAB]).to_regex_string(), "\\xab");
    assert_eq!(Literal::Utf8("é".to_string()).to_bytes(), vec![0xC3, 0xA9]);
    assert!(Literal::Utf8(String::new()).is_utf8());
    assert!(!Literal::Bytes(vec![]).is_utf8());
    assert_eq!(Mode::default(), Mode::Utf8);
}

#[test]
fn printable_bytes() {
    assert!(is_printable(b'a'));
    assert!(is_printable(b'~'));
    assert!(is_printable(b' '));
    assert!(is_printable(b'\n'));
    assert!(!is_printable(0x7F));
    assert!(!is_printable(0x00));
    assert_eq!(Range(b'a', b'z').describe(), "a-z");
    assert_eq!(Range(0x00, 0x1F).describe(), "00-1F");
    assert_eq!(Range(b'!', b'!').describe(), "!");
}

#[test]
fn pattern_descriptions() {
    assert_eq!(Pattern::Byte(b'a').describe(), "a");
    assert_eq!(Pattern::Range(b'0', b'9').describe(), "0-9");
    assert_eq!(Pattern::Byte(0x0A).describe(), "0A");
    let class = Pattern::Class(vec![Pattern::Byte(b'$'), Pattern::Range(b'A', b'Z')]);
    assert_eq!(class.describe(), "[$A-Z]");
}

#[test]
fn subpatterns_replace_invocations() {
    let digits = Subpattern::utf8("digit", "[0-9]").unwrap();
    assert_eq!(digits.fix("(?&digit)+\\.(?&digit)*".to_string()), "(?:[0-9])+\\.(?:[0-9])*");
    assert_eq!(digits.fix("none here".to_string()), "none here");
    assert!(Subpattern::utf8("bad", "(").is_err());
    assert!(Subpattern::binary("bytes", "\\xFF").is_ok());
}
