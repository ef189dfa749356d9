use logos::pattern::{Bytes, Pattern};

fn collect(mut bytes: Bytes) -> Vec<u8> {
    let mut out = Vec::new();
    while let Some(b) = bytes.next() {
        out.push(b);
    }
    out
}

#[test]
fn bytes_iter_byte() {
    let pattern = Pattern::Byte(b'a');

    assert_eq!(collect(pattern.bytes()), "a".as_bytes());
}

#[test]
fn bytes_iter_range() {
    let pattern = Pattern::Range(b'a', b'f');

    assert_eq!(collect(pattern.bytes()), "abcdef".as_bytes());
}

#[test]
fn bytes_iter_alternative() {
    let pattern = Pattern::Class(vec![
        Pattern::Byte(b'!'),
        Pattern::Byte(b'$'),
        Pattern::Byte(b'_'),
    ]);

    assert_eq!(collect(pattern.bytes()), "!$_".as_bytes());
}

#[test]
fn bytes_iter_complex() {
    let pattern = Pattern::Class(vec![
        Pattern::Byte(b'!'),
        Pattern::Byte(b'$'),
        Pattern::Range(b'0', b'9'),
        Pattern::Byte(b'_'),
        Pattern::Range(b'a', b'f'),
    ]);

    assert_eq!(collect(pattern.bytes()), "!$0123456789_abcdef".as_bytes());
}

#[test]
fn from_iterator() {
    let pattern = Pattern::new("!$0123456789_abcdef".as_bytes());

    let expected = Pattern::Class(vec![
        Pattern::Byte(b'!'),
        Pattern::Byte(b'$'),
        Pattern::Range(b'0', b'9'),
        Pattern::Byte(b'_'),
        Pattern::Range(b'a', b'f'),
    ]);

    assert_eq!(pattern, expected);
}

#[test]
fn combine() {
    let mut pattern = Pattern::Byte(0);

    pattern.combine(&Pattern::Range(b'A', b'Z'));
    pattern.combine(&Pattern::Range(b'0', b'9'));

    let expected = Pattern::Class(vec![
        Pattern::Byte(0),
        Pattern::Range(b'0', b'9'),
        Pattern::Range(b'A', b'Z'),
    ]);

    assert_eq!(pattern, expected);
}

#[test]
fn subtract() {
    let mut pattern = Pattern::Range(b'0', b'9');

    pattern.subtract(&Pattern::Range(b'1', b'3'));
    pattern.subtract(&Pattern::Byte(b'7'));

    let expected = Pattern::Class(vec![
        Pattern::Byte(b'0'),
        Pattern::Range(b'4', b'6'),
        Pattern::Range(b'8', b'9'),
    ]);

    assert_eq!(pattern, expected);
}

#[test]
fn overlapping() {
    let mut pattern = Pattern::Class(vec![
        Pattern::Range(b'0', b'9'),
        Pattern::Range(b'A', b'Z'),
    ]);

    pattern.subtract(&Pattern::Range(b'8', b'E'));

    let expected = Pattern::Class(vec![
        Pattern::Range(b'0', b'7'),
        Pattern::Range(b'F', b'Z'),
    ]);

    assert_eq!(pattern, expected);
}

#[test]
fn new_single_run_is_a_range() {
    assert_eq!(Pattern::new(b"abc"), Pattern::Range(b'a', b'c'));
    assert_eq!(Pattern::new(b"x"), Pattern::Byte(b'x'));
}

#[test]
fn new_keeps_the_given_order() {
    assert_eq!(
        Pattern::new(b"ba"),
        Pattern::Class(vec![Pattern::Byte(b'b'), Pattern::Byte(b'a')]),
    );
}

#[test]
fn len_and_weight() {
    let pattern = Pattern::Class(vec![
        Pattern::Byte(b'!'),
        Pattern::Range(b'0', b'9'),
    ]);

    assert_eq!(pattern.len(), 11);
    assert_eq!(pattern.weight(), 3);
    assert_eq!(Pattern::Range(b'9', b'0').len(), 1);
    assert!(Pattern::Byte(1).is_byte());
    assert!(!pattern.is_byte());
}

#[test]
fn contains_and_intersect() {
    let digits = Pattern::Range(b'0', b'9');
    let seven = Pattern::Byte(b'7');
    let letters = Pattern::Range(b'a', b'z');

    assert!(digits.contains(&seven));
    assert!(!seven.contains(&digits));
    assert!(!digits.contains(&letters));

    assert_eq!(digits.intersect(&seven), Some(seven.clone()));
    assert_eq!(seven.intersect(&digits), Some(seven.clone()));
    assert_eq!(digits.intersect(&digits), None);
    assert_eq!(digits.intersect(&letters), None);
}

#[test]
fn negate_complements() {
    let pattern = Pattern::Range(1, 255);

    assert_eq!(pattern.negate(), Pattern::Byte(0));

    let middle = Pattern::Range(b'b', b'y');
    let outside = middle.negate();

    assert_eq!(
        outside,
        Pattern::Class(vec![Pattern::Range(0, b'a'), Pattern::Range(b'z', 255)]),
    );
}

#[test]
fn full_pattern_yields_every_byte() {
    let full = Pattern::Range(0, 255);

    assert_eq!(collect(full.bytes()), (0..=255u8).collect::<Vec<u8>>());
    assert!(full.contains(&Pattern::Range(0, 255)));
}

#[test]
fn same_is_structural() {
    let a = Pattern::Class(vec![Pattern::Byte(1), Pattern::Byte(3)]);
    let b = Pattern::Class(vec![Pattern::Byte(1), Pattern::Byte(3)]);
    let c = Pattern::Class(vec![Pattern::Byte(1), Pattern::Byte(4)]);

    assert!(a.same(&b));
    assert!(!a.same(&c));
    assert!(!a.same(&Pattern::Byte(1)));
}

#[test]
fn negating_twice_gives_back_the_bytes() {
    let p = Pattern::Class(vec![Pattern::Range(b'0', b'9'), Pattern::Byte(b'_')]);
    let twice = p.negate().negate();
    assert_eq!(collect(twice.bytes()), collect(p.bytes()));
}

#[test]
fn intersection_is_within_both() {
    let a = Pattern::Range(b'a', b'z');
    let b = Pattern::Range(b'c', b'f');
    let c = a.intersect(&b).unwrap();
    assert!(a.contains(&c));
    assert!(b.contains(&c));
    assert_eq!(c, b);
    assert!(a.intersect(&a).is_none());
}

#[test]
fn subtracting_what_was_combined() {
    let a = Pattern::Range(b'a', b'f');
    let b = Pattern::Range(b'd', b'k');
    let mut c = Pattern::Range(b'a', b'f');
    c.combine(&b);
    assert_eq!(collect(c.bytes()), b"abcdefghijk".to_vec());
    c.subtract(&b);
    assert_eq!(collect(c.bytes()), b"abc".to_vec());
    assert_eq!(collect(a.bytes()), b"abcdef".to_vec());
}

#[test]
fn negating_twice_gives_back_the_canonical_pattern() {
    let p = Pattern::Class(vec![Pattern::Range(b'0', b'9'), Pattern::Byte(b'_')]);
    assert_eq!(p.negate().negate(), p);
}
