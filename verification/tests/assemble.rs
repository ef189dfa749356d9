use logos::assemble::{build, Attribute, DeriveError, Variant, VariantFields};
use logos::graph::{Fork, Node, Range};
use logos::parser::{Definition, Literal, Mode};

fn variant(ident: &str, attrs: Vec<Attribute>) -> Variant {
    Variant { ident: ident.to_string(), discriminant: None, fields: VariantFields::Unit, attrs }
}

fn token(text: &str) -> Attribute {
    Attribute::Token(Definition::new(Literal::Utf8(text.to_string())))
}

fn regex(text: &str) -> Attribute {
    Attribute::Regex(Definition::new(Literal::Utf8(text.to_string())))
}

#[test]
fn build_tokens_and_regexes() {
    let variants = vec![
        variant("Error", vec![Attribute::Error]),
        variant("Fn", vec![token("fn")]),
        variant("Ident", vec![regex("[a-z]+")]),
    ];
    let built = build(variants).unwrap();
    assert_eq!(built.mode, Mode::Utf8);
    assert_eq!(built.error, 0);
    match built.graph.get(built.root) {
        Some(Node::Fork(fork)) => {
            // Every lowercase letter starts a token.
            for b in b'a'..=b'z' {
                assert!(fork.get(b).is_some());
            }
            assert!(fork.get(b'0').is_none());
        },
        other => panic!("unexpected root {:?}", other),
    }
    assert!(built.graph.is_closed());
}

#[test]
fn build_bytes_switch_to_binary() {
    let variants = vec![
        variant("Error", vec![Attribute::Error]),
        variant("Magic", vec![Attribute::Token(Definition::new(Literal::Bytes(vec![0xFF, 0x00])))]),
    ];
    let built = build(variants).unwrap();
    assert_eq!(built.mode, Mode::Binary);
    match built.graph.get(built.root) {
        Some(Node::Fork(fork)) => assert!(fork.get(0xFF).is_some()),
        other => panic!("unexpected root {:?}", other),
    }
}

#[test]
fn build_refuses_missing_error() {
    let variants = vec![variant("Fn", vec![token("fn")])];
    match build(variants) {
        Err(errors) => assert!(matches!(errors.last(), Some(DeriveError::MissingError))),
        Ok(_) => panic!("accepted an enum without #[error]"),
    }
}

#[test]
fn build_refuses_two_errors() {
    let variants = vec![variant("A", vec![Attribute::Error]), variant("B", vec![Attribute::Error])];
    match build(variants) {
        Err(errors) => assert!(matches!(errors[0], DeriveError::DuplicateError { variant: 1, previous: 0 })),
        Ok(_) => panic!("accepted two #[error] variants"),
    }
}

#[test]
fn build_refuses_end_and_bad_fields() {
    let mut named = variant("Named", vec![]);
    named.fields = VariantFields::Named;
    let mut two = variant("Two", vec![]);
    two.fields = VariantFields::Unnamed(vec!["u8".to_string(), "u8".to_string()]);
    let mut discriminant = variant("D", vec![]);
    discriminant.discriminant = Some(10);
    let variants = vec![variant("Error", vec![Attribute::Error, Attribute::End]), named, two, discriminant];
    let errors = build(variants).err().unwrap();
    assert!(matches!(errors[0], DeriveError::End { variant: 0, attr: 1 }));
    assert!(matches!(errors[1], DeriveError::NamedFields { variant: 1 }));
    assert!(matches!(errors[2], DeriveError::FieldCount { variant: 2, found: 2 }));
    assert!(matches!(errors[3], DeriveError::Discriminant { variant: 3, size: 4 }));
}

#[test]
fn build_reports_bad_regex() {
    let variants = vec![variant("Error", vec![Attribute::Error]), variant("Bad", vec![regex("a{2}")])];
    let errors = build(variants).err().unwrap();
    assert!(matches!(errors[0], DeriveError::Regex { variant: 1, attr: 0, .. }));
}

#[test]
fn build_refuses_empty_token() {
    let variants = vec![variant("Error", vec![Attribute::Error]), variant("Empty", vec![token("")])];
    let errors = build(variants).err().unwrap();
    assert!(matches!(errors[0], DeriveError::EmptyToken { variant: 1, attr: 0 }));
}

#[test]
fn build_root_misses_are_dropped() {
    // A regex matching the empty string leaves no miss on the root.
    let variants = vec![variant("Error", vec![Attribute::Error]), variant("As", vec![regex("a*")])];
    let built = build(variants).unwrap();
    match built.graph.get(built.root) {
        Some(Node::Fork(fork)) => {
            assert!(fork.get(b'a').is_some());
            assert_eq!(fork.miss, None);
        },
        other => panic!("unexpected root {:?}", other),
    }
    let _ = Fork::new().branch(Range(b'a', b'a'), built.root);
}

#[test]
fn build_without_definitions_is_an_empty_fork() {
    let variants = vec![variant("Error", vec![Attribute::Error]), variant("Plain", vec![])];
    let built = build(variants).unwrap();
    assert_eq!(built.error, 0);
    assert_eq!(built.graph.get(built.root), Some(&Node::Fork(Fork::new())));
}

#[test]
fn build_single_byte_tokens_branch_on_exactly_their_bytes() {
    let variants = vec![
        variant("Error", vec![Attribute::Error]),
        variant("Plus", vec![token("+")]),
        variant("Minus", vec![token("-")]),
    ];
    let built = build(variants).unwrap();
    match built.graph.get(built.root) {
        Some(Node::Fork(fork)) => {
            for b in 0..=255u8 {
                assert_eq!(fork.get(b).is_some(), b == b'+' || b == b'-');
            }
            match built.graph.get(fork.get(b'+').unwrap()) {
                Some(Node::Leaf(leaf)) => assert_eq!(leaf.ident, "Plus"),
                other => panic!("unexpected node {:?}", other),
            }
            match built.graph.get(fork.get(b'-').unwrap()) {
                Some(Node::Leaf(leaf)) => assert_eq!(leaf.ident, "Minus"),
                other => panic!("unexpected node {:?}", other),
            }
        },
        other => panic!("unexpected root {:?}", other),
    }
}

#[test]
fn build_single_regex_branches_on_its_first_byte() {
    let variants = vec![variant("Error", vec![Attribute::Error]), variant("Foo", vec![regex("foo")])];
    let built = build(variants).unwrap();
    match built.graph.get(built.root) {
        Some(Node::Fork(fork)) => {
            for b in 0..=255u8 {
                assert_eq!(fork.get(b).is_some(), b == b'f');
            }
        },
        other => panic!("unexpected root {:?}", other),
    }
}

#[test]
fn build_single_class_regex_leads_to_its_leaf() {
    let variants = vec![variant("Error", vec![Attribute::Error]), variant("Digit", vec![regex("[0-9]")])];
    let built = build(variants).unwrap();
    match built.graph.get(built.root) {
        Some(Node::Fork(fork)) => {
            for b in 0..=255u8 {
                match fork.get(b) {
                    Some(id) => {
                        assert!(b.is_ascii_digit());
                        match built.graph.get(id) {
                            Some(Node::Leaf(leaf)) => {
                                assert_eq!(leaf.ident, "Digit");
                                assert_eq!(leaf.priority, 1);
                            },
                            other => panic!("unexpected node {:?}", other),
                        }
                    },
                    None => assert!(!b.is_ascii_digit()),
                }
            }
        },
        other => panic!("unexpected root {:?}", other),
    }
}

#[test]
fn build_tokens_with_distinct_first_bytes_lead_to_their_leaves() {
    let variants = vec![
        variant("Error", vec![Attribute::Error]),
        variant("Foo", vec![token("foo")]),
        variant("Plus", vec![token("+")]),
    ];
    let built = build(variants).unwrap();
    let fork = match built.graph.get(built.root) {
        Some(Node::Fork(fork)) => fork,
        other => panic!("unexpected root {:?}", other),
    };
    for b in 0..=255u8 {
        assert_eq!(fork.get(b).is_some(), b == b'f' || b == b'+');
    }
    match built.graph.get(fork.get(b'+').unwrap()) {
        Some(Node::Leaf(leaf)) => {
            assert_eq!(leaf.ident, "Plus");
            assert_eq!(leaf.priority, 1);
        },
        other => panic!("unexpected node {:?}", other),
    }
    match built.graph.get(fork.get(b'f').unwrap()) {
        Some(Node::Rope(rope)) => {
            assert_eq!(rope.pattern.0, vec![Range(b'o', b'o'), Range(b'o', b'o')]);
            match built.graph.get(rope.target) {
                Some(Node::Leaf(leaf)) => {
                    assert_eq!(leaf.ident, "Foo");
                    assert_eq!(leaf.priority, 3);
                },
                other => panic!("unexpected node {:?}", other),
            }
        },
        other => panic!("unexpected node {:?}", other),
    }
}

#[test]
fn build_single_literal_regex_leads_through_its_rope() {
    let variants = vec![variant("Error", vec![Attribute::Error]), variant("Foo", vec![regex("foo")])];
    let built = build(variants).unwrap();
    let fork = match built.graph.get(built.root) {
        Some(Node::Fork(fork)) => fork,
        other => panic!("unexpected root {:?}", other),
    };
    match built.graph.get(fork.get(b'f').unwrap()) {
        Some(Node::Rope(rope)) => {
            assert_eq!(rope.pattern.0, vec![Range(b'o', b'o'), Range(b'o', b'o')]);
            match built.graph.get(rope.target) {
                Some(Node::Leaf(leaf)) => {
                    assert_eq!(leaf.ident, "Foo");
                    assert_eq!(leaf.priority, 6);
                },
                other => panic!("unexpected node {:?}", other),
            }
        },
        other => panic!("unexpected node {:?}", other),
    }
}
