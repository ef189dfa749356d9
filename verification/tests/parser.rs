use logos::leaf::Callback;
use logos::parser::{
    parse_callback, parse_priority, read_literal, AttrError, LitValue, LiteralRead, Definition, GenericParam, Literal, Mode, ParseError,
    Parser, TypeParams,
};
use logos::parsers::{AttributeParser, Nested, NestedValue, TokenTree};

fn ident(text: &str, at: usize) -> TokenTree {
    TokenTree::Ident(text.to_string(), at)
}

fn punct(c: char, at: usize) -> TokenTree {
    TokenTree::Punct(c, true, at)
}

fn lit(text: &str, at: usize) -> TokenTree {
    TokenTree::Literal(text.to_string(), at)
}

fn error(error: AttrError, span: usize) -> ParseError {
    ParseError { error, span }
}

#[test]
fn attribute_items_are_split_at_commas() {
    // extras = Foo, type T = u8, trivia, "x" y
    let tokens = vec![
        ident("extras", 1),
        punct('=', 2),
        ident("Foo", 3),
        punct(',', 4),
        ident("type", 5),
        ident("T", 6),
        punct('=', 7),
        ident("u8", 8),
        punct(',', 9),
        ident("trivia", 10),
        punct(',', 11),
        lit("\"x\"", 12),
        ident("y", 13),
    ];
    let items = AttributeParser::new(tokens).collect_items();
    assert_eq!(
        items,
        vec![
            Nested::Named(ident("extras", 1), NestedValue::Assign(vec![ident("Foo", 3)])),
            Nested::Named(ident("type", 5), NestedValue::KeywordAssign(ident("T", 6), vec![ident("u8", 8)])),
            Nested::Named(ident("trivia", 10), NestedValue::Nothing),
            Nested::Unnamed(vec![lit("\"x\"", 12), ident("y", 13)]),
        ]
    );
}

#[test]
fn attribute_group_item() {
    let tokens = vec![ident("name", 1), TokenTree::Group(vec![lit("1", 3)], 2)];
    let items = AttributeParser::new(tokens).collect_items();
    assert_eq!(items, vec![Nested::Named(ident("name", 1), NestedValue::Group(vec![lit("1", 3)]))]);
}

#[test]
fn collect_tail_stops_at_a_comma() {
    let mut parser = AttributeParser::new(vec![lit("\"a\"", 1), punct(',', 2), ident("b", 3)]);
    assert_eq!(parser.collect_tail(), vec![lit("\"a\"", 1)]);
    assert_eq!(parser.collect_items(), vec![Nested::Named(ident("b", 3), NestedValue::Nothing)]);
}

#[test]
fn priorities_are_decimal_literals() {
    assert_eq!(parse_priority(&vec![lit("10", 1)]), Some(10));
    assert_eq!(parse_priority(&vec![lit("0", 1)]), Some(0));
    assert_eq!(parse_priority(&vec![lit("1x", 1)]), None);
    assert_eq!(parse_priority(&vec![lit("", 1)]), None);
    assert_eq!(parse_priority(&vec![ident("ten", 1)]), None);
    assert_eq!(parse_priority(&vec![lit("1", 1), lit("0", 2)]), None);
    assert_eq!(parse_priority(&vec![lit("99999999999999999999999999", 1)]), None);
}

#[test]
fn callbacks_label_and_closures() {
    let mut errors = Vec::new();

    let label = parse_callback(vec![ident("my_callback", 1)], &mut errors);
    assert_eq!(label, Some(Callback::Label(vec![ident("my_callback", 1)])));

    // |lex| lex.slice()
    let tokens = vec![
        punct('|', 1),
        ident("lex", 2),
        punct('|', 3),
        ident("lex", 4),
        punct('.', 5),
        ident("slice", 6),
        TokenTree::Group(vec![], 7),
    ];
    let inline = parse_callback(tokens, &mut errors);
    assert_eq!(
        inline,
        Some(Callback::Inline(
            ident("lex", 2),
            vec![ident("lex", 4), punct('.', 5), ident("slice", 6), TokenTree::Group(vec![], 7)]
        ))
    );

    // |lex| { 1 }
    let tokens = vec![punct('|', 1), ident("lex", 2), punct('|', 3), TokenTree::Group(vec![lit("1", 5)], 4)];
    let grouped = parse_callback(tokens, &mut errors);
    assert_eq!(grouped, Some(Callback::Inline(ident("lex", 2), vec![lit("1", 5)])));
    assert!(errors.is_empty());

    // |a, b| ...
    let tokens = vec![punct('|', 1), ident("a", 2), punct(',', 3), ident("b", 4), punct('|', 5)];
    assert_eq!(parse_callback(tokens, &mut errors), None);
    assert_eq!(errors, vec![error(AttrError::ClosureSyntax, 1)]);

    // |lex|
    let tokens = vec![punct('|', 8), ident("lex", 9), punct('|', 10)];
    assert_eq!(parse_callback(tokens, &mut errors), None);
    assert_eq!(errors[1], error(AttrError::MissingBody, 8));
}

#[test]
fn callback_places() {
    assert_eq!(Callback::Nothing.span(), None);
    assert_eq!(Callback::Label(vec![ident("f", 4)]).span(), Some(4));
    assert_eq!(Callback::Inline(ident("lex", 6), vec![]).span(), Some(6));
}

#[test]
fn logos_attribute_extras_and_types() {
    let mut parser = Parser::new();
    parser.parse_generic(GenericParam::Type(ident("T", 1)));
    parser.parse_generic(GenericParam::Lifetime(2));
    parser.parse_generic(GenericParam::Lifetime(3));
    parser.parse_generic(GenericParam::Const(4));
    assert_eq!(
        parser.errors,
        vec![error(AttrError::OneLifetime, 3), error(AttrError::ConstGeneric, 4)]
    );

    let tokens = vec![
        ident("extras", 10),
        punct('=', 11),
        ident("Foo", 12),
        punct(',', 13),
        ident("type", 14),
        ident("T", 15),
        punct('=', 16),
        ident("u8", 17),
        punct(',', 18),
        ident("type", 19),
        ident("U", 20),
        punct('=', 21),
        ident("u16", 22),
        punct(',', 23),
        ident("extras", 24),
        punct('=', 25),
        ident("Bar", 26),
        punct(',', 27),
        ident("trivia", 28),
        punct(',', 29),
        ident("nope", 30),
        punct(',', 31),
        lit("1", 32),
    ];
    parser.try_parse_logos(Some(tokens), 9);
    assert_eq!(
        &parser.errors[2..],
        &[
            error(AttrError::NotTypeParam(ident("U", 20)), 20),
            error(AttrError::ExtrasTwice { previous: 12 }, 26),
            error(AttrError::Trivia, 28),
            error(AttrError::UnknownLogos(ident("nope", 30)), 30),
            error(AttrError::InvalidNested, 32),
        ]
    );
    assert_eq!(parser.types.find("T"), Some(&vec![ident("u8", 17)]));
    assert_eq!(parser.types.find("U"), None);
    assert_eq!(parser.extras(), Some(vec![ident("Bar", 26)]));
    assert_eq!(parser.extras(), None);

    let generics = parser.generics().unwrap();
    assert!(generics.lifetime);
    assert_eq!(generics.types, vec![vec![ident("u8", 17)]]);
}

#[test]
fn logos_attribute_without_parentheses() {
    let mut parser = Parser::new();
    parser.try_parse_logos(None, 7);
    assert_eq!(parser.errors, vec![error(AttrError::ExpectedLogos, 7)]);
}

#[test]
fn a_second_type_points_at_the_first() {
    let mut params = TypeParams::new();
    let mut errors = Vec::new();
    params.add(ident("T", 1));
    params.set(ident("T", 2), vec![ident("u8", 3)], &mut errors);
    params.set(ident("T", 4), vec![ident("u16", 5)], &mut errors);
    assert_eq!(errors, vec![error(AttrError::TypeTwice(ident("T", 4), 3), 4)]);
    assert_eq!(params.find("T"), Some(&vec![ident("u16", 5)]));
}

#[test]
fn generics_report_parameters_without_types() {
    let mut params = TypeParams::new();
    let mut errors = Vec::new();
    params.add(ident("T", 1));
    params.add(ident("U", 2));
    params.set(ident("U", 3), vec![ident("u8", 4)], &mut errors);
    let generics = params.generics(&mut errors).unwrap();
    assert!(!generics.lifetime);
    assert_eq!(generics.types, vec![vec![ident("u8", 4)]]);
    assert_eq!(errors, vec![error(AttrError::MissingType(ident("T", 1)), 1)]);

    let mut errors = Vec::new();
    assert!(TypeParams::new().generics(&mut errors).is_none());
    assert!(errors.is_empty());

    let mut params = TypeParams::new();
    params.add(ident("T", 1));
    assert!(params.generics(&mut errors).is_none());
    assert_eq!(errors, vec![error(AttrError::MissingType(ident("T", 1)), 1)]);
}

#[test]
fn token_definition_with_callback_and_priority() {
    let mut parser = Parser::new();
    // "fast", callback = on_fast, priority = 3
    let tokens = vec![
        lit("\"fast\"", 1),
        punct(',', 2),
        ident("callback", 3),
        punct('=', 4),
        ident("on_fast", 5),
        punct(',', 6),
        ident("priority", 7),
        punct('=', 8),
        lit("3", 9),
    ];
    let def = parser.parse_definition(Some(tokens)).unwrap();
    assert_eq!(
        def,
        Definition {
            literal: Literal::Utf8("fast".to_string()),
            priority: Some(3),
            callback: Some(Callback::Label(vec![ident("on_fast", 5)])),
        }
    );
    assert!(parser.errors.is_empty());
    assert_eq!(parser.mode, Mode::Utf8);
}

#[test]
fn byte_string_definition_switches_to_bytes() {
    let mut parser = Parser::new();
    // b"\xFF", cb::run
    let path = vec![ident("cb", 3), TokenTree::Punct(':', false, 4), punct(':', 5), ident("run", 6)];
    let mut tokens = vec![lit("b\"\\xFF\"", 1), punct(',', 2)];
    tokens.extend(path);
    let def = parser.parse_definition(Some(tokens)).unwrap();
    assert_eq!(def.literal, Literal::Bytes(vec![0xFF]));
    assert_eq!(
        def.callback,
        Some(Callback::Label(vec![ident("cb", 3), TokenTree::Punct(':', false, 4), punct(':', 5), ident("run", 6)]))
    );
    assert_eq!(parser.mode, Mode::Binary);
}

#[test]
fn definition_errors() {
    let mut parser = Parser::new();
    assert!(parser.parse_definition(None).is_none());
    assert!(parser.parse_definition(Some(vec![])).is_none());
    assert!(parser.errors.is_empty());

    assert!(parser.parse_definition(Some(vec![lit("42", 1)])).is_none());
    assert_eq!(parser.errors, vec![error(AttrError::ExpectedLiteralKind, 1)]);

    assert!(parser.parse_definition(Some(vec![ident("x", 2)])).is_none());
    assert_eq!(parser.errors[1], error(AttrError::InvalidLiteral(vec![ident("x", 2)]), 2));

    // "a", |x| x, c +, priority = x, priority = 1, priority = 2, priority, callback, color = 1, lone
    let tokens = vec![
        lit("\"a\"", 10),
        punct(',', 11),
        punct('|', 12),
        ident("x", 13),
        punct('|', 14),
        ident("x", 15),
        punct(',', 16),
        ident("c", 17),
        punct('+', 18),
        punct(',', 19),
        ident("priority", 20),
        punct('=', 21),
        ident("x", 22),
        punct(',', 23),
        ident("priority", 24),
        punct('=', 25),
        lit("1", 26),
        punct(',', 27),
        ident("priority", 28),
        punct('=', 29),
        lit("2", 30),
        punct(',', 31),
        ident("priority", 32),
        punct(',', 33),
        ident("callback", 34),
        punct(',', 35),
        ident("color", 36),
        punct('=', 37),
        lit("1", 38),
        punct(',', 39),
        ident("lone", 40),
    ];
    let def = parser.parse_definition(Some(tokens)).unwrap();
    assert_eq!(def.priority, Some(2));
    assert_eq!(def.callback, Some(Callback::Inline(ident("x", 13), vec![ident("x", 15)])));
    assert_eq!(
        &parser.errors[2..],
        &[
            error(AttrError::ExpectedNamedArgument, 17),
            error(AttrError::ExpectedInteger, 22),
            error(AttrError::PriorityTwice, 30),
            error(AttrError::ExpectedPriority, 32),
            error(AttrError::ExpectedCallback, 34),
            error(AttrError::UnknownDefinition(ident("color", 36)), 36),
            error(AttrError::UnknownDefinition(ident("lone", 40)), 40),
        ]
    );
}

#[test]
fn a_second_callback_points_at_the_first() {
    let mut parser = Parser::new();
    let mut def = Definition::new(Literal::Utf8("a".to_string()));
    def.named_attr(ident("callback", 1), NestedValue::Assign(vec![ident("f", 2)]), &mut parser);
    def.named_attr(ident("callback", 3), NestedValue::Assign(vec![ident("g", 4)]), &mut parser);
    assert_eq!(parser.errors, vec![error(AttrError::CallbackTwice { previous: 2 }, 3)]);
    assert_eq!(def.callback, Some(Callback::Label(vec![ident("g", 4)])));

    def.named_attr(ident("callback", 5), NestedValue::Assign(vec![punct('|', 6), ident("x", 7)]), &mut parser);
    assert_eq!(
        &parser.errors[1..],
        &[error(AttrError::MissingBody, 6), error(AttrError::NotCallback, 6)]
    );
}

#[test]
fn read_literal_keeps_strings_and_byte_strings() {
    assert!(matches!(read_literal(Some(LitValue::Str("ab".to_string()))), LiteralRead::Found(Literal::Utf8(s)) if s == "ab"));
    assert!(matches!(read_literal(Some(LitValue::ByteStr(vec![1, 2]))), LiteralRead::Found(Literal::Bytes(b)) if b == vec![1, 2]));
    assert!(matches!(read_literal(Some(LitValue::Other)), LiteralRead::WrongKind));
    assert!(matches!(read_literal(Some(LitValue::Invalid("bad".to_string()))), LiteralRead::Invalid));
    assert!(matches!(read_literal(None), LiteralRead::Invalid));
}
