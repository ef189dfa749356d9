use logos::pattern::Pattern;
use logos::regex::Regex;
use logos::syntax::{CharClass, Symbol, Syntax};

#[test]
fn regex_unshift() {
    let mut r = Regex::sequence(b"abc");

    assert_eq!(r.patterns(), &[
        Pattern::Byte(b'a'),
        Pattern::Byte(b'b'),
        Pattern::Byte(b'c'),
    ]);

    assert_eq!(r.unshift(), Pattern::Byte(b'a'));
    assert_eq!(r.patterns(), &[
        Pattern::Byte(b'b'),
        Pattern::Byte(b'c'),
    ]);

    assert_eq!(r.unshift(), Pattern::Byte(b'b'));
    assert_eq!(r.patterns(), &[
        Pattern::Byte(b'c'),
    ]);

    assert_eq!(r.unshift(), Pattern::Byte(b'c'));
    assert_eq!(r.patterns(), &[]);
}

#[test]
fn match_split_takes_the_shared_prefix() {
    let mut a = Regex::sequence(b"foobar");
    let mut b = Regex::sequence(b"foozle");

    let prefix = a.match_split(&mut b).unwrap();

    assert_eq!(prefix, Regex::sequence(b"foo"));
    assert_eq!(a, Regex::sequence(b"bar"));
    assert_eq!(b, Regex::sequence(b"zle"));

    let mut c = Regex::sequence(b"xyz");
    assert_eq!(a.match_split(&mut c), None);
    assert_eq!(a, Regex::sequence(b"bar"));
}

#[test]
fn common_prefix_and_extend() {
    let mut a = Regex::sequence(b"a");
    let mut b = Regex::default();
    b.extend(&[Pattern::Range(b'a', b'z'), Pattern::Byte(b'!')]);

    assert_eq!(b.len(), 2);
    assert_eq!(a.common_prefix(&b), Some(Pattern::Byte(b'a')));

    a.first_mut().combine(&Pattern::Byte(b'b'));
    assert_eq!(a.first(), &Pattern::Range(b'a', b'b'));
}

#[test]
fn single_bytes_from_syntax() {
    let mut r = Regex::default();
    assert!(Regex::from_hir_internal(&Syntax::Empty, &mut r));
    assert_eq!(r.len(), 0);

    assert!(Regex::from_hir_internal(&Syntax::Literal(Symbol::Unicode('\u{e9}')), &mut r));
    assert!(Regex::from_hir_internal(&Syntax::Literal(Symbol::Byte(0x7f)), &mut r));
    assert_eq!(r.patterns(), &[Pattern::Byte(0xC3), Pattern::Byte(0xA9), Pattern::Byte(0x7f)]);
}

#[test]
fn ascii_classes_from_syntax() {
    let mut r = Regex::default();
    let ident = CharClass::Unicode(vec![('$', '$'), ('A', 'Z'), ('_', '_'), ('a', 'z')]);
    assert!(Regex::from_hir_internal(&Syntax::Class(ident), &mut r));
    let one = CharClass::Unicode(vec![('0', '9')]);
    assert!(Regex::from_hir_internal(&Syntax::Class(one), &mut r));
    let not_newline = CharClass::Unicode(vec![('\u{0}', '\t'), ('\u{b}', '\u{10FFFF}')]);
    assert!(Regex::from_hir_internal(&Syntax::Class(not_newline), &mut r));
    let bytes = CharClass::Bytes(vec![(0x80, 0xFF)]);
    assert!(Regex::from_hir_internal(&Syntax::Class(bytes), &mut r));
    assert_eq!(
        r.patterns(),
        &[
            Pattern::Class(vec![
                Pattern::Byte(b'$'),
                Pattern::Range(b'A', b'Z'),
                Pattern::Byte(b'_'),
                Pattern::Range(b'a', b'z'),
            ]),
            Pattern::Range(b'0', b'9'),
            Pattern::Class(vec![Pattern::Range(0, b'\t'), Pattern::Range(0x0b, 0xFF)]),
            Pattern::Range(0x80, 0xFF),
        ]
    );
}

#[test]
fn other_syntax_adds_nothing() {
    let mut r = Regex::sequence(b"x");
    let greek = CharClass::Unicode(vec![('\u{3b1}', '\u{3c9}')]);
    assert!(!Regex::from_hir_internal(&Syntax::Class(greek), &mut r));
    let group = Syntax::Group(Box::new(Syntax::Literal(Symbol::Byte(b'a'))));
    assert!(!Regex::from_hir_internal(&group, &mut r));
    assert!(!Regex::from_hir_internal(&Syntax::Concat(vec![]), &mut r));
    assert_eq!(r.patterns(), &[Pattern::Byte(b'x')]);
}

#[test]
fn split_prefix_rejoins() {
    let mut a = Regex::sequence(b"foobar");
    let mut b = Regex::sequence(b"food");
    let prefix = a.match_split(&mut b).unwrap();
    assert_eq!(prefix.patterns(), Regex::sequence(b"foo").patterns());
    let mut rejoined = prefix.clone();
    rejoined.extend(b.patterns());
    assert_eq!(rejoined.patterns(), Regex::sequence(b"food").patterns());
    let mut whole = prefix.clone();
    whole.extend(a.patterns());
    assert_eq!(whole.patterns(), Regex::sequence(b"foobar").patterns());
}
