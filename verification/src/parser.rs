//! What the derive's attributes are read into: the literals and
//! definitions of tokens, as plain values.

use vstd::prelude::*;

use crate::leaf::Callback;
use crate::parsers::{after_item, expect_punct, is_punct, item_end, nested_views, spec_is_punct, spec_items, AttributeParser, Nested, NestedValue, NestedValueView, NestedView, TokenTree};
use crate::util::{into_stack, pop_next};
use crate::util::{bytes_to_regex_string, regex_escaped};

pub mod subpattern;

verus! {

/// Whether the lexer reads UTF-8 text or arbitrary bytes.
#[derive(Clone, Copy, PartialEq, Eq, Debug, Structural)]
pub enum Mode {
    Utf8,
    Binary,
}

impl Default for Mode {
    fn default() -> (r: Mode)
        ensures
            r == Mode::Utf8,
    {
        Mode::Utf8
    }
}

/// The literal of a `#[token]` or `#[regex]`: a string, or a byte string.
#[derive(Clone, PartialEq, Eq, Debug)]
pub enum Literal {
    Utf8(String),
    Bytes(Vec<u8>),
}

/// Model of a literal.
pub enum LiteralView {
    Utf8(Seq<char>),
    Bytes(Seq<u8>),
}

impl View for Literal {
    type V = LiteralView;

    open spec fn view(&self) -> LiteralView {
        match self {
            Literal::Utf8(s) => LiteralView::Utf8(s@),
            Literal::Bytes(b) => LiteralView::Bytes(b@),
        }
    }
}

/// Copy of a byte slice.
fn copy_bytes(s: &[u8]) -> (r: Vec<u8>)
    ensures
        r@ == s@,
{
    let mut out: Vec<u8> = Vec::new();
    let mut i: usize = 0;
    while i < s.len()
        invariant
            i <= s@.len(),
            out@ == s@.take(i as int),
        decreases s@.len() - i,
    {
        proof {
            assert(s@.take(i + 1) == s@.take(i as int).push(s@[i as int]));
        }
        out.push(s[i]);
        i = i + 1;
    }
    proof {
        assert(s@.take(s@.len() as int) == s@);
    }
    out
}

impl Literal {
    /// Whether the literal is a string.
    pub fn is_utf8(&self) -> (r: bool)
        ensures
            r == self is Utf8,
    {
        match self {
            Literal::Utf8(_) => true,
            Literal::Bytes(_) => false,
        }
    }

    /// The bytes the literal stands for: the UTF-8 encoding of a string.
    pub fn to_bytes(&self) -> (r: Vec<u8>)
        ensures
            match self {
                Literal::Utf8(s) => r@ == vstd::utf8::encode_utf8(s@),
                Literal::Bytes(b) => r@ == b@,
            },
    {
        match self {
            Literal::Utf8(s) => copy_bytes(s.as_str().as_bytes()),
            Literal::Bytes(b) => copy_bytes(b.as_slice()),
        }
    }

    /// The literal as regex text: a string as it is, bytes escaped.
    pub fn to_regex_string(&self) -> (r: String)
        ensures
            match self {
                Literal::Utf8(s) => r@ == s@,
                Literal::Bytes(b) => r@ == regex_escaped(b@),
            },
    {
        match self {
            Literal::Utf8(s) => s.clone(),
            Literal::Bytes(b) => bytes_to_regex_string(copy_bytes(b.as_slice())),
        }
    }
}

/// A `#[token]` or `#[regex]`: its literal, and the priority and callback
/// given with it, if any.
#[derive(PartialEq, Eq, Debug)]
pub struct Definition {
    pub literal: Literal,
    pub priority: Option<usize>,
    pub callback: Option<Callback>,
}

impl Definition {
    /// A definition of the literal, with no priority or callback given.
    pub fn new(literal: Literal) -> (r: Definition)
        ensures
            r == (Definition { literal, priority: None, callback: None }),
    {
        Definition { literal, priority: None, callback: None }
    }
}

/// Model of a definition.
pub struct DefinitionView {
    pub literal: LiteralView,
    pub priority: Option<usize>,
    pub callback: Option<CallbackView>,
}

impl View for Definition {
    type V = DefinitionView;

    open spec fn view(&self) -> DefinitionView {
        DefinitionView {
            literal: self.literal@,
            priority: self.priority,
            callback: match self.callback {
                Some(c) => Some(c@),
                None => None,
            },
        }
    }
}

/// What is wrong in an attribute.
#[derive(PartialEq, Eq, Debug)]
pub enum AttrError {
    /// `#[logos]` without its parenthesized items.
    ExpectedLogos,
    /// An item of `#[logos(...)]` that is not named.
    InvalidNested,
    /// A second `extras`; the place of the first.
    ExtrasTwice { previous: usize },
    /// `extras` not followed by `= Type`.
    ExpectedExtras,
    /// `type` not followed by `T = Type`.
    ExpectedType,
    /// `trivia`, no longer supported.
    Trivia,
    /// An unknown item of `#[logos(...)]`: its name.
    UnknownLogos(TokenTree),
    /// A second type for the type parameter; where the first was given.
    TypeTwice(TokenTree, usize),
    /// A type given for a name that is not a type parameter.
    NotTypeParam(TokenTree),
    /// A second lifetime parameter.
    OneLifetime,
    /// Unexpected tokens in a definition.
    UnexpectedToken,
    /// An unnamed item after the first one of a definition.
    ExpectedNamedArgument,
    /// A literal that is neither a string nor a byte string.
    ExpectedLiteralKind,
    /// What does not parse as a literal: its tokens.
    InvalidLiteral(Vec<TokenTree>),
    /// A priority that is not an unsigned integer.
    ExpectedInteger,
    /// A second priority.
    PriorityTwice,
    /// `priority` not followed by `= <integer>`.
    ExpectedPriority,
    /// A callback that is not one.
    NotCallback,
    /// A second callback; where the first was set.
    CallbackTwice { previous: usize },
    /// `callback` not followed by `= ...`.
    ExpectedCallback,
    /// An unknown named item of a definition: its name.
    UnknownDefinition(TokenTree),
    /// A closure without exactly one parameter.
    ClosureSyntax,
    /// A closure without a body.
    MissingBody,
    /// A const generic parameter.
    ConstGeneric,
    /// A type parameter given no type: its name.
    MissingType(TokenTree),
}

/// An error, and the id of the place it points at (0 for the whole
/// input).
#[derive(PartialEq, Eq, Debug)]
pub struct ParseError {
    pub error: AttrError,
    pub span: usize,
}

/// Where a run of tokens is: at its first token, or nowhere in particular
/// when it is empty.
pub open spec fn spec_stream_span(tokens: Seq<TokenTree>) -> usize {
    if tokens.len() > 0 {
        tokens[0].spec_span()
    } else {
        0
    }
}

/// Where a run of tokens is.
pub fn stream_span(tokens: &Vec<TokenTree>) -> (r: usize)
    ensures
        r == spec_stream_span(tokens@),
{
    if tokens.len() > 0 {
        tokens[0].span()
    } else {
        0
    }
}

fn err(errors: &mut Vec<ParseError>, error: AttrError, span: usize)
    ensures
        final(errors)@ == old(errors)@.push(ParseError { error, span }),
{
    errors.push(ParseError { error, span });
}

/// What `syn` makes of the text of a literal.
#[derive(PartialEq, Eq, Debug)]
pub enum LitValue {
    /// A string, its value.
    Str(String),
    /// A byte string, its value.
    ByteStr(Vec<u8>),
    /// Another literal.
    Other,
    /// Not a literal; the parser's message.
    Invalid(String),
}

/// Model of what `syn` makes of a literal.
pub enum LitValueView {
    Str(Seq<char>),
    ByteStr(Seq<u8>),
    Other,
    Invalid(Seq<char>),
}

impl View for LitValue {
    type V = LitValueView;

    open spec fn view(&self) -> LitValueView {
        match self {
            LitValue::Str(s) => LitValueView::Str(s@),
            LitValue::ByteStr(b) => LitValueView::ByteStr(b@),
            LitValue::Other => LitValueView::Other,
            LitValue::Invalid(m) => LitValueView::Invalid(m@),
        }
    }
}

/// What `syn` parses the text of a literal token into.
pub uninterp spec fn syn_literal(text: Seq<char>) -> LitValueView;

/// Parses `text` with `syn::parse_str::<syn::Lit>` and keeps the value of
/// a string or byte string, or the error's text. The result is what
/// `syn_literal` names for the text; nothing more is claimed of it.
#[verifier::external_body]
fn parse_literal(text: &str) -> (r: LitValue)
    ensures
        r@ == syn_literal(text@),
{
    match syn::parse_str::<syn::Lit>(text) {
        Ok(syn::Lit::Str(s)) => LitValue::Str(s.value()),
        Ok(syn::Lit::ByteStr(b)) => LitValue::ByteStr(b.value()),
        Ok(_) => LitValue::Other,
        Err(e) => LitValue::Invalid(e.to_string()),
    }
}

/// The value of a non-empty run of decimal digits.
pub open spec fn decimal_value(digits: Seq<char>) -> int
    decreases digits.len(),
{
    if digits.len() == 0 {
        0
    } else {
        decimal_value(digits.drop_last()) * 10 + (digits.last() as int - '0' as int)
    }
}

/// Whether every character is a decimal digit.
pub open spec fn all_digits(s: Seq<char>) -> bool {
    forall|i: int| 0 <= i < s.len() ==> '0' <= #[trigger] s[i] <= '9'
}

/// The unsigned integer a priority's tokens stand for: a single literal
/// of decimal digits whose value fits in `usize`.
pub open spec fn spec_priority(tokens: Seq<TokenTree>) -> Option<usize> {
    if tokens.len() == 1 && tokens[0] is Literal {
        let text = tokens[0]->Literal_0@;
        if text.len() > 0 && all_digits(text) && decimal_value(text) <= usize::MAX {
            Some(decimal_value(text) as usize)
        } else {
            None
        }
    } else {
        None
    }
}

/// The unsigned integer a priority's tokens stand for, if any.
pub fn parse_priority(tokens: &Vec<TokenTree>) -> (r: Option<usize>)
    ensures
        r == spec_priority(tokens@),
{
    if tokens.len() != 1 {
        return None;
    }
    let text = match &tokens[0] {
        TokenTree::Literal(text, _) => text.as_str(),
        _ => {
            return None;
        },
    };
    proof {
        assert(tokens@[0]->Literal_0@ == text@);
    }
    let n = text.unicode_len();
    if n == 0 {
        return None;
    }
    let mut value: usize = 0;
    let mut i: usize = 0;
    while i < n
        invariant
            n == text@.len(),
            i <= n,
            all_digits(text@.take(i as int)),
            value == decimal_value(text@.take(i as int)),
            tokens@.len() == 1,
            tokens@[0] is Literal,
            tokens@[0]->Literal_0@ == text@,
        decreases n - i,
    {
        let c = text.get_char(i);
        proof {
            assert(text@.take(i + 1).drop_last() == text@.take(i as int));
            assert(text@.take(i + 1).last() == c);
        }
        if !('0' <= c && c <= '9') {
            proof {
                assert(!all_digits(text@)) by {
                    assert(text@[i as int] == c);
                }
            }
            return None;
        }
        let d = (c as u32 - '0' as u32) as usize;
        if value > (usize::MAX - d) / 10 {
            proof {
                assert(decimal_value(text@.take(i + 1)) > usize::MAX) by (nonlinear_arith)
                    requires
                        decimal_value(text@.take(i + 1)) == value * 10 + d,
                        value > (usize::MAX - d) / 10,
                        d <= 9,
                ;
                if all_digits(text@) {
                    lemma_decimal_prefix_le(text@, i as int + 1);
                }
            }
            return None;
        }
        proof {
            assert(value * 10 + d <= usize::MAX) by (nonlinear_arith)
                requires
                    value <= (usize::MAX - d) / 10,
                    d <= 9,
            ;
            assert(all_digits(text@.take(i + 1))) by {
                assert forall|k: int| 0 <= k < i + 1 implies '0' <= #[trigger] text@.take(i + 1)[k] <= '9' by {
                    if k < i {
                        assert(text@.take(i + 1)[k] == text@.take(i as int)[k]);
                    }
                }
            }
        }
        value = value * 10 + d;
        i = i + 1;
    }
    proof {
        assert(text@.take(n as int) == text@);
    }
    Some(value)
}

/// A longer run of digits has no smaller value.
proof fn lemma_decimal_prefix_le(s: Seq<char>, i: int)
    requires
        0 <= i <= s.len(),
        all_digits(s),
    ensures
        decimal_value(s.take(i)) <= decimal_value(s),
    decreases s.len() - i,
{
    if i < s.len() {
        lemma_decimal_prefix_le(s, i + 1);
        assert(s.take(i + 1).drop_last() == s.take(i));
        assert('0' <= s[i] <= '9');
        assert(decimal_value(s.take(i)) >= 0) by {
            lemma_decimal_nonneg(s.take(i));
        }
        assert(decimal_value(s.take(i + 1)) >= decimal_value(s.take(i))) by (nonlinear_arith)
            requires
                decimal_value(s.take(i + 1)) == decimal_value(s.take(i)) * 10 + (s[i] as int - '0' as int),
                decimal_value(s.take(i)) >= 0,
                '0' <= s[i] <= '9',
        ;
    } else {
        assert(s.take(i) == s);
    }
}

proof fn lemma_decimal_nonneg(s: Seq<char>)
    requires
        all_digits(s),
    ensures
        decimal_value(s) >= 0,
    decreases s.len(),
{
    if s.len() > 0 {
        assert(all_digits(s.drop_last())) by {
            assert forall|k: int| 0 <= k < s.drop_last().len() implies '0' <= #[trigger] s.drop_last()[k] <= '9' by {
                assert(s.drop_last()[k] == s[k]);
            }
        }
        lemma_decimal_nonneg(s.drop_last());
        assert('0' <= s[s.len() - 1] <= '9');
    }
}

/// Whether the string reads `lit`.
pub fn text_eq(s: &String, lit: &str) -> (r: bool)
    ensures
        r == (s@ == lit@),
{
    let a = s.as_str();
    let n = a.unicode_len();
    if n != lit.unicode_len() {
        return false;
    }
    let mut i: usize = 0;
    while i < n
        invariant
            n == a@.len(),
            n == lit@.len(),
            a@ == s@,
            i <= n,
            forall|k: int| 0 <= k < i ==> a@[k] == lit@[k],
        decreases n - i,
    {
        if a.get_char(i) != lit.get_char(i) {
            return false;
        }
        i = i + 1;
    }
    proof {
        assert(a@ =~= lit@);
    }
    true
}

/// The text of an identifier token, empty for any other.
pub open spec fn ident_text(t: TokenTree) -> Seq<char> {
    match t {
        TokenTree::Ident(text, _) => text@,
        _ => Seq::empty(),
    }
}

/// Whether the token is the identifier `lit`.
fn is_ident(t: &TokenTree, lit: &str) -> (r: bool)
    ensures
        r == (t is Ident && ident_text(*t) == lit@),
{
    match t {
        TokenTree::Ident(text, _) => text_eq(text, lit),
        _ => false,
    }
}

/// Model of a callback.
pub enum CallbackView {
    Nothing,
    Label(Seq<TokenTree>),
    Inline(TokenTree, Seq<TokenTree>),
}

impl View for Callback {
    type V = CallbackView;

    open spec fn view(&self) -> CallbackView {
        match self {
            Callback::Nothing => CallbackView::Nothing,
            Callback::Label(v) => CallbackView::Label(v@),
            Callback::Inline(a, v) => CallbackView::Inline(*a, v@),
        }
    }
}

/// What a callback's tokens make: anything not starting with `|` is a
/// path to a function; `|arg| body` is a closure, whose body is the
/// inside of a group or the tokens after the parameter; a closure
/// without exactly one parameter, or without a body, is an error.
pub open spec fn spec_parse_callback(t: Seq<TokenTree>) -> Result<CallbackView, AttrError> {
    let u = if t.len() > 0 { t.drop_first() } else { t };
    let v = if u.len() > 2 { u.skip(2) } else { Seq::empty() };
    if t.len() > 0 && !spec_is_punct(t[0], '|') {
        Ok(CallbackView::Label(t))
    } else if !(u.len() >= 1 && u[0] is Ident && (u.len() < 2 || spec_is_punct(u[1], '|'))) {
        Err(AttrError::ClosureSyntax)
    } else if v.len() == 0 {
        Err(AttrError::MissingBody)
    } else if v[0] is Group {
        Ok(CallbackView::Inline(u[0], v[0]->Group_0@))
    } else {
        Ok(CallbackView::Inline(u[0], v))
    }
}

/// Parse a callback's tokens; an error is added to `errors`, at the
/// place of the tokens.
pub fn parse_callback(tokens: Vec<TokenTree>, errors: &mut Vec<ParseError>) -> (r: Option<Callback>)
    ensures
        match spec_parse_callback(tokens@) {
            Ok(cb) => (r matches Some(c) && c@ == cb) && final(errors)@ == old(errors)@,
            Err(e) => r is None && final(errors)@ == old(errors)@.push(ParseError { error: e, span: spec_stream_span(tokens@) }),
        },
{
    let span = stream_span(&tokens);
    if tokens.len() > 0 && !is_punct(&tokens[0], '|') {
        return Some(Callback::Label(tokens));
    }
    let ghost t = tokens@;
    let ghost u = if t.len() > 0 { t.drop_first() } else { t };
    let mut stack = into_stack(tokens);
    if stack.len() > 0 {
        let _ = pop_next(&mut stack);
    }
    proof {
        assert(stack@.reverse() =~= u);
    }
    let first = if stack.len() > 0 { Some(pop_next(&mut stack)) } else { None };
    let third = if stack.len() > 0 { Some(pop_next(&mut stack)) } else { None };
    let error = expect_punct(third, '|');
    let arg = match (error, first) {
        (None, Some(arg)) => {
            if let TokenTree::Ident(..) = arg {
                arg
            } else {
                err(errors, AttrError::ClosureSyntax, span);
                return None;
            }
        },
        _ => {
            err(errors, AttrError::ClosureSyntax, span);
            return None;
        },
    };
    proof {
        if u.len() > 2 {
            assert(stack@.reverse() =~= u.skip(2));
        } else {
            assert(stack@.reverse() =~= Seq::<TokenTree>::empty());
        }
    }
    if stack.len() == 0 {
        err(errors, AttrError::MissingBody, span);
        return None;
    }
    let ghost v = stack@.reverse();
    let next = pop_next(&mut stack);
    match next {
        TokenTree::Group(inner, _) => Some(Callback::Inline(arg, inner)),
        other => {
            let mut body: Vec<TokenTree> = Vec::new();
            body.push(other);
            let ghost rest = stack@.reverse();
            while stack.len() > 0
                invariant
                    body@ + stack@.reverse() == v,
                decreases stack@.len(),
            {
                let ghost b0 = body@;
                let ghost s0 = stack@.reverse();
                let t = pop_next(&mut stack);
                body.push(t);
                proof {
                    assert(body@ + stack@.reverse() =~= b0 + s0);
                }
            }
            proof {
                assert(body@ =~= body@ + stack@.reverse());
            }
            Some(Callback::Inline(arg, body))
        },
    }
}

/// The type parameters of the enum: whether it has a lifetime, the names
/// of its type parameters and, beside each, the type given for it.
pub struct TypeParams {
    pub lifetime: bool,
    pub names: Vec<TokenTree>,
    pub types: Vec<Option<Vec<TokenTree>>>,
}

/// Model of the type parameters.
pub struct TypeParamsView {
    pub lifetime: bool,
    pub names: Seq<TokenTree>,
    pub types: Seq<Option<Seq<TokenTree>>>,
}

/// The tokens of an optional run of tokens.
pub open spec fn opt_tokens(o: Option<Vec<TokenTree>>) -> Option<Seq<TokenTree>> {
    match o {
        Some(v) => Some(v@),
        None => None,
    }
}

impl View for TypeParams {
    type V = TypeParamsView;

    open spec fn view(&self) -> TypeParamsView {
        TypeParamsView {
            lifetime: self.lifetime,
            names: self.names@,
            types: self.types@.map_values(|o: Option<Vec<TokenTree>>| opt_tokens(o)),
        }
    }
}

/// The generic arguments of the lexer type: the source lifetime, if the
/// enum has one, then the types given for its type parameters.
pub struct Generics {
    pub lifetime: bool,
    pub types: Vec<Vec<TokenTree>>,
}

/// A generic parameter of the enum.
pub enum GenericParam {
    /// A lifetime, at its place.
    Lifetime(usize),
    /// A type parameter, by its name.
    Type(TokenTree),
    /// A const parameter, at its place.
    Const(usize),
}

/// The first type parameter named `text`, or -1.
pub open spec fn find_param(names: Seq<TokenTree>, text: Seq<char>) -> int
    decreases names.len(),
{
    if names.len() == 0 {
        -1
    } else {
        let i = find_param(names.drop_last(), text);
        if i >= 0 {
            i
        } else if names.last() is Ident && ident_text(names.last()) == text {
            names.len() - 1
        } else {
            -1
        }
    }
}

proof fn lemma_find_param(names: Seq<TokenTree>, text: Seq<char>)
    ensures
        -1 <= find_param(names, text) < names.len(),
        find_param(names, text) >= 0 ==> names[find_param(names, text)] is Ident && ident_text(names[find_param(names, text)]) == text,
        find_param(names, text) >= 0 ==> forall|k: int| 0 <= k < find_param(names, text) ==> !(names[k] is Ident && ident_text(#[trigger] names[k]) == text),
        find_param(names, text) == -1 ==> forall|k: int| 0 <= k < names.len() ==> !(names[k] is Ident && ident_text(#[trigger] names[k]) == text),
    decreases names.len(),
{
    if names.len() > 0 {
        lemma_find_param(names.drop_last(), text);
        assert forall|k: int| 0 <= k < names.len() - 1 implies names[k] == names.drop_last()[k] by {}
    }
}

/// Giving the type `ty` to the parameter named by `param`: a second type
/// for a parameter is an error (pointing at both), and so is a name that
/// is not a type parameter. The new parameters and errors.
pub open spec fn set_type(params: TypeParamsView, errors: Seq<ParseError>, param: TokenTree, ty: Seq<TokenTree>) -> (TypeParamsView, Seq<ParseError>) {
    let i = find_param(params.names, ident_text(param));
    if i >= 0 {
        let errors = match params.types[i] {
            Some(prev) => errors.push(ParseError { error: AttrError::TypeTwice(param, spec_stream_span(prev)), span: param.spec_span() }),
            None => errors,
        };
        (TypeParamsView { types: params.types.update(i, Some(ty)), ..params }, errors)
    } else {
        (params, errors.push(ParseError { error: AttrError::NotTypeParam(param), span: param.spec_span() }))
    }
}

/// Giving a type to a declared type parameter makes it the type that
/// finding that parameter gives back; the names stay as they were.
pub proof fn law_set_then_find(params: TypeParamsView, errors: Seq<ParseError>, param: TokenTree, ty: Seq<TokenTree>)
    requires
        params.names.len() == params.types.len(),
        find_param(params.names, ident_text(param)) >= 0,
    ensures
        ({
            let after = set_type(params, errors, param, ty).0;
            &&& after.names == params.names
            &&& after.types.len() == params.types.len()
            &&& after.types[find_param(after.names, ident_text(param))] == Some(ty)
        }),
{
    lemma_find_param(params.names, ident_text(param));
}

/// An error for each type parameter without a type, in order.
pub open spec fn missing_types(names: Seq<TokenTree>, types: Seq<Option<Seq<TokenTree>>>) -> Seq<ParseError>
    decreases names.len(),
{
    if names.len() == 0 {
        Seq::empty()
    } else {
        let before = missing_types(names.drop_last(), types.drop_last());
        if types.last() is None {
            before.push(ParseError { error: AttrError::MissingType(names.last()), span: names.last().spec_span() })
        } else {
            before
        }
    }
}

/// The types given, in the order of their parameters.
pub open spec fn given_types(types: Seq<Option<Seq<TokenTree>>>) -> Seq<Seq<TokenTree>>
    decreases types.len(),
{
    if types.len() == 0 {
        Seq::empty()
    } else {
        let before = given_types(types.drop_last());
        match types.last() {
            Some(t) => before.push(t),
            None => before,
        }
    }
}

impl TypeParams {
    /// Each type parameter has its slot for a type.
    pub open spec fn wf(&self) -> bool {
        self.names@.len() == self.types@.len()
    }

    /// No lifetime and no type parameters.
    pub fn new() -> (r: TypeParams)
        ensures
            r.wf(),
            !r@.lifetime,
            r@.names.len() == 0,
            r@.types.len() == 0,
    {
        let r = TypeParams { lifetime: false, names: Vec::new(), types: Vec::new() };
        proof {
            assert(r@.types =~= Seq::<Option<Seq<TokenTree>>>::empty());
        }
        r
    }

    /// Record a lifetime parameter, at `span`; a second one is an error.
    pub fn explicit_lifetime(&mut self, span: usize, errors: &mut Vec<ParseError>)
        ensures
            final(self)@ == (TypeParamsView { lifetime: true, ..old(self)@ }),
            final(self).wf() == old(self).wf(),
            final(errors)@ == if old(self)@.lifetime {
                old(errors)@.push(ParseError { error: AttrError::OneLifetime, span })
            } else {
                old(errors)@
            },
    {
        if self.lifetime {
            err(errors, AttrError::OneLifetime, span);
        }
        self.lifetime = true;
        proof {
            assert(self@.types =~= old(self)@.types);
        }
    }

    /// Record a type parameter, with no type given for it yet.
    pub fn add(&mut self, param: TokenTree)
        requires
            old(self).wf(),
        ensures
            final(self).wf(),
            final(self)@ == (TypeParamsView {
                names: old(self)@.names.push(param),
                types: old(self)@.types.push(None),
                ..old(self)@
            }),
    {
        self.names.push(param);
        self.types.push(None);
        proof {
            assert(self@.types =~= old(self)@.types.push(None));
        }
    }

    /// Give the type `ty` to the parameter named by `param`.
    pub fn set(&mut self, param: TokenTree, ty: Vec<TokenTree>, errors: &mut Vec<ParseError>)
        requires
            old(self).wf(),
        ensures
            final(self).wf(),
            (final(self)@, final(errors)@) == set_type(old(self)@, old(errors)@, param, ty@),
    {
        let ghost st = self@;
        proof {
            lemma_find_param(st.names, ident_text(param));
        }
        let wanted: &str = match &param {
            TokenTree::Ident(b, _) => b.as_str(),
            _ => "",
        };
        proof {
            reveal_strlit("");
        }
        let n = self.names.len();
        let mut i: usize = 0;
        while i < n
            invariant
                n == st.names.len(),
                st.names == self.names@,
                wanted@ == ident_text(param),
                i <= n,
                forall|k: int| 0 <= k < i ==> !(st.names[k] is Ident && ident_text(#[trigger] st.names[k]) == ident_text(param)),
            ensures
                i <= n,
                forall|k: int| 0 <= k < i ==> !(st.names[k] is Ident && ident_text(#[trigger] st.names[k]) == ident_text(param)),
                i < n ==> st.names[i as int] is Ident && ident_text(st.names[i as int]) == ident_text(param),
            decreases n - i,
        {
            let found = match &self.names[i] {
                TokenTree::Ident(a, _) => text_eq(a, wanted),
                _ => false,
            };
            if found {
                break;
            }
            i = i + 1;
        }
        if i == n {
            proof {
                assert(find_param(st.names, ident_text(param)) == -1);
            }
            let here = param.span();
            err(errors, AttrError::NotTypeParam(param), here);
            return;
        }
        proof {
            assert(find_param(st.names, ident_text(param)) == i);
        }
        let mut slot = Some(ty);
        self.types.set_and_swap(i, &mut slot);
        if let Some(previous) = slot {
            let here = param.span();
            let before = stream_span(&previous);
            err(errors, AttrError::TypeTwice(param, before), here);
        }
        proof {
            assert(self@.types =~= st.types.update(i as int, Some(ty@)));
        }
    }

    /// The type given for the type parameter named `name`, if it is one
    /// and has one.
    pub fn find(&self, name: &str) -> (r: Option<&Vec<TokenTree>>)
        requires
            self.wf(),
        ensures
            ({
                let i = find_param(self@.names, name@);
                if i >= 0 {
                    match self@.types[i] {
                        Some(t) => r matches Some(v) && v@ == t,
                        None => r is None,
                    }
                } else {
                    r is None
                }
            }),
    {
        proof {
            lemma_find_param(self@.names, name@);
        }
        let n = self.names.len();
        let mut i: usize = 0;
        while i < n
            invariant
                n == self.names@.len(),
                self.wf(),
                i <= n,
                forall|k: int| 0 <= k < i ==> !(self@.names[k] is Ident && ident_text(#[trigger] self@.names[k]) == name@),
            decreases n - i,
        {
            let found = match &self.names[i] {
                TokenTree::Ident(a, _) => text_eq(a, name),
                _ => false,
            };
            if found {
                proof {
                    lemma_find_param(self@.names, name@);
                    assert(self@.names[i as int] is Ident && ident_text(self@.names[i as int]) == name@);
                    assert(find_param(self@.names, name@) == i);
                    assert(self@.types[i as int] == opt_tokens(self.types@[i as int]));
                }
                return match &self.types[i] {
                    Some(t) => Some(t),
                    None => None,
                };
            }
            i = i + 1;
        }
        proof {
            assert(find_param(self@.names, name@) == -1);
        }
        None
    }

    /// The generic arguments of the lexer type, or `None` when there are
    /// none; each type parameter without a type is an error.
    pub fn generics(self, errors: &mut Vec<ParseError>) -> (r: Option<Generics>)
        requires
            self.wf(),
        ensures
            !self@.lifetime && self@.names.len() == 0 ==> r is None && final(errors)@ == old(errors)@,
            self@.lifetime || self@.names.len() > 0 ==> {
                &&& final(errors)@ == old(errors)@ + missing_types(self@.names, self@.types)
                &&& if !self@.lifetime && given_types(self@.types).len() == 0 {
                    r is None
                } else {
                    r matches Some(g) && g.lifetime == self@.lifetime && g.types@.map_values(|t: Vec<TokenTree>| t@) == given_types(self@.types)
                }
            },
    {
        if !self.lifetime && self.names.len() == 0 {
            return None;
        }
        let ghost all = self@;
        let ghost e0 = errors@;
        let lifetime = self.lifetime;
        let names = self.names;
        let types = self.types;
        let ghost names_seq = names@;
        let ghost types_seq = types@;
        let total = names.len();
        let mut name_stack = into_stack(names);
        let mut type_stack = into_stack(types);
        let mut out: Vec<Vec<TokenTree>> = Vec::new();
        let mut k: usize = 0;
        proof {
            assert(names_seq.skip(0) =~= names_seq);
            assert(types_seq.skip(0) =~= types_seq);
            assert(names_seq.take(0) =~= Seq::<TokenTree>::empty());
            assert(all.types.take(0) =~= Seq::<Option<Seq<TokenTree>>>::empty());
            assert(out@.map_values(|t: Vec<TokenTree>| t@) =~= Seq::<Seq<TokenTree>>::empty());
        }
        while name_stack.len() > 0
            invariant
                total == names_seq.len(),
                names_seq.len() == types_seq.len(),
                all.names == names_seq,
                all.types == types_seq.map_values(|o: Option<Vec<TokenTree>>| opt_tokens(o)),
                k <= total,
                name_stack@.reverse() == names_seq.skip(k as int),
                type_stack@.reverse() == types_seq.skip(k as int),
                errors@ == e0 + missing_types(names_seq.take(k as int), all.types.take(k as int)),
                out@.map_values(|t: Vec<TokenTree>| t@) == given_types(all.types.take(k as int)),
            decreases total - k,
        {
            proof {
                assert(name_stack@.reverse().len() == name_stack@.len());
                assert(type_stack@.reverse().len() == type_stack@.len());
                assert(k < total);
            }
            let name = pop_next(&mut name_stack);
            let ty = pop_next(&mut type_stack);
            proof {
                assert(name == names_seq[k as int]);
                assert(ty == types_seq[k as int]);
                assert(names_seq.take(k + 1).drop_last() =~= names_seq.take(k as int));
                assert(all.types.take(k + 1).drop_last() =~= all.types.take(k as int));
                assert(names_seq.skip(k + 1) =~= names_seq.skip(k as int).drop_first());
                assert(types_seq.skip(k + 1) =~= types_seq.skip(k as int).drop_first());
                assert(all.types.take(k + 1).last() == opt_tokens(ty));
            }
            match ty {
                Some(t) => {
                    let ghost before = out@;
                    out.push(t);
                    proof {
                        assert(out@.map_values(|t: Vec<TokenTree>| t@) =~= before.map_values(|t: Vec<TokenTree>| t@).push(t@));
                    }
                },
                None => {
                    let here = name.span();
                    err(errors, AttrError::MissingType(name), here);
                },
            }
            k = k + 1;
        }
        proof {
            assert(name_stack@.reverse().len() == 0);
            assert(names_seq.take(k as int) =~= names_seq);
            assert(all.types.take(k as int) =~= all.types);
        }
        if !lifetime && out.len() == 0 {
            None
        } else {
            Some(Generics { lifetime, types: out })
        }
    }
}

/// Where the attribute parser stands: its errors, the extras type and the
/// type parameters.
pub struct ParserView {
    pub errors: Seq<ParseError>,
    pub extras: Option<Seq<TokenTree>>,
    pub params: TypeParamsView,
}

/// What an item of `#[logos(...)]` does: `extras = Type` sets the extras
/// (a second one is an error, pointing at both), `type T = Type` gives a
/// type to a type parameter, `trivia` is no longer supported, and
/// anything else is an error.
pub open spec fn logos_step(st: ParserView, item: NestedView) -> ParserView {
    match item {
        NestedView::Named(name, value) => {
            let here = name.spec_span();
            if name is Ident && ident_text(name) == "extras"@ {
                match value {
                    NestedValueView::Assign(v) => {
                        let errors = match st.extras {
                            Some(prev) => st.errors.push(ParseError {
                                error: AttrError::ExtrasTwice { previous: spec_stream_span(prev) },
                                span: spec_stream_span(v),
                            }),
                            None => st.errors,
                        };
                        ParserView { errors, extras: Some(v), ..st }
                    },
                    _ => ParserView { errors: st.errors.push(ParseError { error: AttrError::ExpectedExtras, span: here }), ..st },
                }
            } else if name is Ident && ident_text(name) == "type"@ {
                match value {
                    NestedValueView::KeywordAssign(param, ty) => {
                        let (params, errors) = set_type(st.params, st.errors, param, ty);
                        ParserView { errors, params, ..st }
                    },
                    _ => ParserView { errors: st.errors.push(ParseError { error: AttrError::ExpectedType, span: here }), ..st },
                }
            } else if name is Ident && ident_text(name) == "trivia"@ {
                ParserView { errors: st.errors.push(ParseError { error: AttrError::Trivia, span: here }), ..st }
            } else {
                ParserView { errors: st.errors.push(ParseError { error: AttrError::UnknownLogos(name), span: here }), ..st }
            }
        },
        NestedView::Unnamed(t) => ParserView {
            errors: st.errors.push(ParseError { error: AttrError::InvalidNested, span: spec_stream_span(t) }),
            ..st
        },
        NestedView::Unexpected(t) => ParserView {
            errors: st.errors.push(ParseError { error: AttrError::InvalidNested, span: spec_stream_span(t) }),
            ..st
        },
    }
}

/// The items of `#[logos(...)]` applied in order.
pub open spec fn logos_items(st: ParserView, items: Seq<NestedView>) -> ParserView
    decreases items.len(),
{
    if items.len() == 0 {
        st
    } else {
        logos_step(logos_items(st, items.drop_last()), items.last())
    }
}

/// Reads the attributes of the enum and the definitions of its variants.
pub struct Parser {
    pub errors: Vec<ParseError>,
    pub mode: Mode,
    pub extras: Option<Vec<TokenTree>>,
    pub types: TypeParams,
}

impl View for Parser {
    type V = ParserView;

    open spec fn view(&self) -> ParserView {
        ParserView { errors: self.errors@, extras: opt_tokens(self.extras), params: self.types@ }
    }
}

impl Parser {
    /// A parser with no errors, no extras and no type parameters, reading
    /// text.
    pub fn new() -> (r: Parser)
        ensures
            r@.errors.len() == 0,
            r@.extras is None,
            !r@.params.lifetime,
            r@.params.names.len() == 0,
            r@.params.types.len() == 0,
            r.types.wf(),
            r.mode == Mode::Utf8,
    {
        Parser { errors: Vec::new(), mode: Mode::Utf8, extras: None, types: TypeParams::new() }
    }

    /// Record an error.
    pub fn err(&mut self, error: AttrError, span: usize)
        ensures
            final(self)@ == (ParserView { errors: old(self)@.errors.push(ParseError { error, span }), ..old(self)@ }),
            final(self).mode == old(self).mode,
            final(self).types == old(self).types,
    {
        err(&mut self.errors, error, span);
    }

    /// Read a generic parameter of the enum: a lifetime (only one), a type
    /// parameter, or a const parameter, which is an error.
    pub fn parse_generic(&mut self, param: GenericParam)
        requires
            old(self).types.wf(),
        ensures
            final(self).types.wf(),
            final(self).mode == old(self).mode,
            final(self).extras == old(self).extras,
            match param {
                GenericParam::Lifetime(span) => final(self)@ == (ParserView {
                    errors: if old(self)@.params.lifetime {
                        old(self)@.errors.push(ParseError { error: AttrError::OneLifetime, span })
                    } else {
                        old(self)@.errors
                    },
                    params: TypeParamsView { lifetime: true, ..old(self)@.params },
                    ..old(self)@
                }),
                GenericParam::Type(name) => final(self)@ == (ParserView {
                    params: TypeParamsView {
                        names: old(self)@.params.names.push(name),
                        types: old(self)@.params.types.push(None),
                        ..old(self)@.params
                    },
                    ..old(self)@
                }),
                GenericParam::Const(span) => final(self)@ == (ParserView {
                    errors: old(self)@.errors.push(ParseError { error: AttrError::ConstGeneric, span }),
                    ..old(self)@
                }),
            },
    {
        match param {
            GenericParam::Lifetime(span) => self.types.explicit_lifetime(span, &mut self.errors),
            GenericParam::Type(name) => self.types.add(name),
            GenericParam::Const(span) => err(&mut self.errors, AttrError::ConstGeneric, span),
        }
    }

    /// The extras type, taken out of the parser; `None` stands for `()`.
    pub fn extras(&mut self) -> (r: Option<Vec<TokenTree>>)
        ensures
            opt_tokens(r) == old(self)@.extras,
            final(self)@ == (ParserView { extras: None, ..old(self)@ }),
            final(self).mode == old(self).mode,
            final(self).types == old(self).types,
    {
        let mut slot = None;
        std::mem::swap(&mut slot, &mut self.extras);
        slot
    }

    /// The generic arguments of the lexer type, taking the type parameters
    /// out of the parser; see `TypeParams::generics`.
    pub fn generics(&mut self) -> (r: Option<Generics>)
        requires
            old(self).types.wf(),
        ensures
            final(self).types.wf(),
            final(self).mode == old(self).mode,
            final(self).extras == old(self).extras,
            !old(self)@.params.lifetime && old(self)@.params.names.len() == 0 ==> r is None && final(self)@.errors == old(self)@.errors,
            old(self)@.params.lifetime || old(self)@.params.names.len() > 0 ==> {
                &&& final(self)@.errors == old(self)@.errors + missing_types(old(self)@.params.names, old(self)@.params.types)
                &&& if !old(self)@.params.lifetime && given_types(old(self)@.params.types).len() == 0 {
                    r is None
                } else {
                    r matches Some(g) && g.lifetime == old(self)@.params.lifetime && g.types@.map_values(|t: Vec<TokenTree>| t@) == given_types(old(self)@.params.types)
                }
            },
    {
        let mut params = TypeParams::new();
        std::mem::swap(&mut params, &mut self.types);
        params.generics(&mut self.errors)
    }

    /// Apply an item of `#[logos(...)]`.
    fn logos_item(&mut self, item: Nested)
        requires
            old(self).types.wf(),
        ensures
            final(self)@ == logos_step(old(self)@, item@),
            final(self).mode == old(self).mode,
            final(self).types.wf(),
    {
        match item {
            Nested::Named(name, value) => {
                let here = name.span();
                if is_ident(&name, "extras") {
                    match value {
                        NestedValue::Assign(v) => {
                            let span = stream_span(&v);
                            let mut slot = Some(v);
                            std::mem::swap(&mut slot, &mut self.extras);
                            if let Some(previous) = slot {
                                let before = stream_span(&previous);
                                err(&mut self.errors, AttrError::ExtrasTwice { previous: before }, span);
                            }
                        },
                        _ => err(&mut self.errors, AttrError::ExpectedExtras, here),
                    }
                } else if is_ident(&name, "type") {
                    match value {
                        NestedValue::KeywordAssign(param, ty) => self.types.set(param, ty, &mut self.errors),
                        _ => err(&mut self.errors, AttrError::ExpectedType, here),
                    }
                } else if is_ident(&name, "trivia") {
                    err(&mut self.errors, AttrError::Trivia, here);
                } else {
                    err(&mut self.errors, AttrError::UnknownLogos(name), here);
                }
            },
            Nested::Unnamed(t) => {
                let span = stream_span(&t);
                err(&mut self.errors, AttrError::InvalidNested, span);
            },
            Nested::Unexpected(t) => {
                let span = stream_span(&t);
                err(&mut self.errors, AttrError::InvalidNested, span);
            },
        }
    }

    /// Read `#[logos(...)]`, given the tokens inside its parentheses, or
    /// `None` when it has none: each item is applied in order.
    pub fn try_parse_logos(&mut self, tokens: Option<Vec<TokenTree>>, span: usize)
        requires
            old(self).types.wf(),
        ensures
            final(self).mode == old(self).mode,
            final(self).types.wf(),
            match tokens {
                Some(t) => final(self)@ == logos_items(old(self)@, spec_items(t@)),
                None => final(self)@ == (ParserView {
                    errors: old(self)@.errors.push(ParseError { error: AttrError::ExpectedLogos, span }),
                    ..old(self)@
                }),
            },
    {
        let tokens = match tokens {
            Some(t) => t,
            None => {
                err(&mut self.errors, AttrError::ExpectedLogos, span);
                return;
            },
        };
        let items = AttributeParser::new(tokens).collect_items();
        let ghost seq_items = items@;
        let ghost all = nested_views(items@);
        let ghost st0 = self@;
        let total = items.len();
        let mut stack = into_stack(items);
        let mut k: usize = 0;
        proof {
            assert(all.take(0) =~= Seq::<NestedView>::empty());
            assert(seq_items.skip(0) =~= seq_items);
        }
        while stack.len() > 0
            invariant
                k <= seq_items.len(),
                seq_items.len() == total,
                all == nested_views(seq_items),
                stack@.reverse() == seq_items.skip(k as int),
                self.types.wf(),
                self.mode == old(self).mode,
                self@ == logos_items(st0, all.take(k as int)),
            decreases seq_items.len() - k,
        {
            proof {
                assert(stack@.reverse().len() == stack@.len());
                assert(k < seq_items.len());
            }
            let item = pop_next(&mut stack);
            proof {
                assert(item == seq_items[k as int]);
                assert(item@ == all[k as int]);
                assert(all.take(k + 1).drop_last() =~= all.take(k as int));
                assert(seq_items.skip(k + 1) =~= seq_items.skip(k as int).drop_first());
            }
            self.logos_item(item);
            k = k + 1;
        }
        proof {
            assert(stack@.reverse().len() == 0);
            assert(all.take(k as int) =~= all);
        }
    }
}

/// Where a callback was given: its path, or its closure.
pub open spec fn callback_span(c: CallbackView) -> usize {
    match c {
        CallbackView::Nothing => 0,
        CallbackView::Label(t) => spec_stream_span(t),
        CallbackView::Inline(arg, _) => arg.spec_span(),
    }
}

/// What a named item of a definition does to it and to the errors:
/// `priority = <integer>` sets the priority (a second one is an error,
/// and is kept), `callback = ...` sets the callback (a second one is an
/// error pointing at the first, and is kept), anything else is an error.
pub open spec fn named_step(def: DefinitionView, errors: Seq<ParseError>, name: TokenTree, value: NestedValueView) -> (DefinitionView, Seq<ParseError>) {
    let here = name.spec_span();
    if name is Ident && ident_text(name) == "priority"@ {
        match value {
            NestedValueView::Assign(t) => match spec_priority(t) {
                Some(p) => (
                    DefinitionView { priority: Some(p), ..def },
                    if def.priority is Some {
                        errors.push(ParseError { error: AttrError::PriorityTwice, span: spec_stream_span(t) })
                    } else {
                        errors
                    },
                ),
                None => (def, errors.push(ParseError { error: AttrError::ExpectedInteger, span: spec_stream_span(t) })),
            },
            _ => (def, errors.push(ParseError { error: AttrError::ExpectedPriority, span: here })),
        }
    } else if name is Ident && ident_text(name) == "callback"@ {
        match value {
            NestedValueView::Assign(t) => match spec_parse_callback(t) {
                Ok(cb) => (
                    DefinitionView { callback: Some(cb), ..def },
                    match def.callback {
                        Some(prev) => errors.push(ParseError { error: AttrError::CallbackTwice { previous: callback_span(prev) }, span: here }),
                        None => errors,
                    },
                ),
                Err(e) => (
                    def,
                    errors.push(ParseError { error: e, span: spec_stream_span(t) }).push(ParseError { error: AttrError::NotCallback, span: spec_stream_span(t) }),
                ),
            },
            _ => (def, errors.push(ParseError { error: AttrError::ExpectedCallback, span: here })),
        }
    } else {
        (def, errors.push(ParseError { error: AttrError::UnknownDefinition(name), span: here }))
    }
}

/// What the item at `position` after the literal does: tokens that make
/// no item are an error, an unnamed item is the callback right after the
/// literal and an error anywhere else, and a named item is read by
/// `named_step`.
pub open spec fn definition_step(def: DefinitionView, errors: Seq<ParseError>, position: int, item: NestedView) -> (DefinitionView, Seq<ParseError>) {
    match item {
        NestedView::Unexpected(t) => (def, errors.push(ParseError { error: AttrError::UnexpectedToken, span: spec_stream_span(t) })),
        NestedView::Unnamed(t) => if position == 0 {
            match spec_parse_callback(t) {
                Ok(cb) => (DefinitionView { callback: Some(cb), ..def }, errors),
                Err(e) => (DefinitionView { callback: None, ..def }, errors.push(ParseError { error: e, span: spec_stream_span(t) })),
            }
        } else {
            (def, errors.push(ParseError { error: AttrError::ExpectedNamedArgument, span: spec_stream_span(t) }))
        },
        NestedView::Named(name, value) => named_step(def, errors, name, value),
    }
}

/// The items after the literal applied in order.
pub open spec fn definition_items(def: DefinitionView, errors: Seq<ParseError>, items: Seq<NestedView>) -> (DefinitionView, Seq<ParseError>)
    decreases items.len(),
{
    if items.len() == 0 {
        (def, errors)
    } else {
        let (d, e) = definition_items(def, errors, items.drop_last());
        definition_step(d, e, items.len() - 1, items.last())
    }
}

/// What the tokens of the first item of a definition make: a single
/// literal token whose value is a string or a byte string.
pub enum LiteralOutcome {
    Found(LiteralView),
    WrongKind,
    Invalid,
}

pub open spec fn spec_literal(first: Seq<TokenTree>) -> LiteralOutcome {
    value_outcome(
        if first.len() == 1 && first[0] is Literal {
            Some(syn_literal(first[0]->Literal_0@))
        } else {
            None
        },
    )
}

/// What the value `syn` gave for the first item of a definition makes of
/// it: a string or a byte string is its literal, another literal is of
/// the wrong kind, and no value (no single literal token, or text `syn`
/// refuses) is invalid.
pub open spec fn value_outcome(value: Option<LitValueView>) -> LiteralOutcome {
    match value {
        Some(LitValueView::Str(s)) => LiteralOutcome::Found(LiteralView::Utf8(s)),
        Some(LitValueView::ByteStr(b)) => LiteralOutcome::Found(LiteralView::Bytes(b)),
        Some(LitValueView::Other) => LiteralOutcome::WrongKind,
        _ => LiteralOutcome::Invalid,
    }
}

/// The literal read from the first item of a definition, or why there is
/// none.
pub enum LiteralRead {
    Found(Literal),
    WrongKind,
    Invalid,
}

impl View for LiteralRead {
    type V = LiteralOutcome;

    open spec fn view(&self) -> LiteralOutcome {
        match self {
            LiteralRead::Found(l) => LiteralOutcome::Found(l@),
            LiteralRead::WrongKind => LiteralOutcome::WrongKind,
            LiteralRead::Invalid => LiteralOutcome::Invalid,
        }
    }
}

/// Read the literal of a definition from what `syn` made of the text of
/// its first item, `None` when that item is not a single literal token.
pub fn read_literal(value: Option<LitValue>) -> (r: LiteralRead)
    ensures
        r@ == value_outcome(
            match value {
                Some(v) => Some(v@),
                None => None,
            },
        ),
{
    match value {
        Some(LitValue::Str(s)) => LiteralRead::Found(Literal::Utf8(s)),
        Some(LitValue::ByteStr(b)) => LiteralRead::Found(Literal::Bytes(b)),
        Some(LitValue::Other) => LiteralRead::WrongKind,
        _ => LiteralRead::Invalid,
    }
}

impl Definition {
    /// Read a named item of the definition; errors go to the parser.
    pub fn named_attr(&mut self, name: TokenTree, value: NestedValue, parser: &mut Parser)
        ensures
            (final(self)@, final(parser)@.errors) == named_step(old(self)@, old(parser)@.errors, name, value@),
            final(self).literal == old(self).literal,
            final(parser).mode == old(parser).mode,
            final(parser).extras == old(parser).extras,
            final(parser).types == old(parser).types,
    {
        let here = name.span();
        if is_ident(&name, "priority") {
            match value {
                NestedValue::Assign(tokens) => {
                    let span = stream_span(&tokens);
                    match parse_priority(&tokens) {
                        Some(p) => {
                            let had = self.priority.is_some();
                            self.priority = Some(p);
                            if had {
                                err(&mut parser.errors, AttrError::PriorityTwice, span);
                            }
                        },
                        None => err(&mut parser.errors, AttrError::ExpectedInteger, span),
                    }
                },
                _ => err(&mut parser.errors, AttrError::ExpectedPriority, here),
            }
        } else if is_ident(&name, "callback") {
            match value {
                NestedValue::Assign(tokens) => {
                    let span = stream_span(&tokens);
                    match parse_callback(tokens, &mut parser.errors) {
                        Some(callback) => {
                            let mut slot = Some(callback);
                            std::mem::swap(&mut slot, &mut self.callback);
                            if let Some(previous) = slot {
                                let before = match previous.span() {
                                    Some(at) => at,
                                    None => 0,
                                };
                                err(&mut parser.errors, AttrError::CallbackTwice { previous: before }, here);
                            }
                        },
                        None => err(&mut parser.errors, AttrError::NotCallback, span),
                    }
                },
                _ => err(&mut parser.errors, AttrError::ExpectedCallback, here),
            }
        } else {
            err(&mut parser.errors, AttrError::UnknownDefinition(name), here);
        }
    }
}

impl Parser {
    /// Read `#[token(...)]` or `#[regex(...)]`, given the tokens inside its
    /// parentheses, or `None` when it has none: the literal first, then
    /// the callback and the named items. A byte string makes the lexer
    /// read bytes. `None` when there are no parentheses, no literal, or a
    /// literal that is not a string or a byte string.
    pub fn parse_definition(&mut self, tokens: Option<Vec<TokenTree>>) -> (r: Option<Definition>)
        ensures
            final(self).extras == old(self).extras,
            final(self).types == old(self).types,
            match tokens {
                None => r is None && final(self)@ == old(self)@ && final(self).mode == old(self).mode,
                Some(t) => {
                    let first = t@.take(item_end(t@));
                    let rest = spec_items(after_item(t@));
                    if first.len() == 0 {
                        r is None && final(self)@ == old(self)@ && final(self).mode == old(self).mode
                    } else {
                        match spec_literal(first) {
                            LiteralOutcome::Found(lit) => {
                                let (d, e) = definition_items(
                                    DefinitionView { literal: lit, priority: None, callback: None },
                                    old(self)@.errors,
                                    rest,
                                );
                                &&& r matches Some(def) && def@ == d
                                &&& final(self)@.errors == e
                                &&& final(self).mode == if lit is Bytes { Mode::Binary } else { old(self).mode }
                            },
                            LiteralOutcome::WrongKind => {
                                &&& r is None
                                &&& final(self)@.errors == old(self)@.errors.push(ParseError { error: AttrError::ExpectedLiteralKind, span: spec_stream_span(first) })
                                &&& final(self).mode == old(self).mode
                            },
                            LiteralOutcome::Invalid => {
                                &&& r is None
                                &&& final(self)@.errors.len() == old(self)@.errors.len() + 1
                                &&& final(self)@.errors.drop_last() == old(self)@.errors
                                &&& final(self)@.errors.last() matches ParseError { error: AttrError::InvalidLiteral(v), span }
                                    && v@ == first && span == spec_stream_span(first)
                                &&& final(self).mode == old(self).mode
                            },
                        }
                    }
                },
            },
    {
        let tokens = match tokens {
            Some(t) => t,
            None => {
                return None;
            },
        };
        let mut nested = AttributeParser::new(tokens);
        let first = nested.collect_tail();
        if first.len() == 0 {
            return None;
        }
        let span = stream_span(&first);
        let value = if first.len() == 1 {
            match &first[0] {
                TokenTree::Literal(text, _) => Some(parse_literal(text.as_str())),
                _ => None,
            }
        } else {
            None
        };
        let literal = match read_literal(value) {
            LiteralRead::Found(literal) => {
                if let Literal::Bytes(_) = literal {
                    self.mode = Mode::Binary;
                }
                literal
            },
            LiteralRead::WrongKind => {
                err(&mut self.errors, AttrError::ExpectedLiteralKind, span);
                return None;
            },
            LiteralRead::Invalid => {
                let ghost before = self@.errors;
                err(&mut self.errors, AttrError::InvalidLiteral(first), span);
                proof {
                    assert(self@.errors.drop_last() == before);
                }
                return None;
            },
        };
        let mut def = Definition::new(literal);
        let items = nested.collect_items();
        let ghost seq_items = items@;
        let ghost all = nested_views(items@);
        let ghost d0 = def@;
        let ghost e0 = self@.errors;
        let ghost old_mode = self.mode;
        let total = items.len();
        let mut stack = into_stack(items);
        let mut k: usize = 0;
        proof {
            assert(all.take(0) =~= Seq::<NestedView>::empty());
            assert(seq_items.skip(0) =~= seq_items);
        }
        while stack.len() > 0
            invariant
                k <= seq_items.len(),
                seq_items.len() == total,
                all == nested_views(seq_items),
                stack@.reverse() == seq_items.skip(k as int),
                self.types == old(self).types,
                self.extras == old(self).extras,
                self.mode == old_mode,
                (def@, self@.errors) == definition_items(d0, e0, all.take(k as int)),
            decreases seq_items.len() - k,
        {
            proof {
                assert(stack@.reverse().len() == stack@.len());
                assert(k < seq_items.len());
            }
            let item = pop_next(&mut stack);
            proof {
                assert(item == seq_items[k as int]);
                assert(item@ == all[k as int]);
                assert(all.take(k + 1).drop_last() =~= all.take(k as int));
                assert(seq_items.skip(k + 1) =~= seq_items.skip(k as int).drop_first());
            }
            match item {
                Nested::Unexpected(t) => {
                    let at = stream_span(&t);
                    err(&mut self.errors, AttrError::UnexpectedToken, at);
                },
                Nested::Unnamed(t) => {
                    if k == 0 {
                        def.callback = parse_callback(t, &mut self.errors);
                    } else {
                        let at = stream_span(&t);
                        err(&mut self.errors, AttrError::ExpectedNamedArgument, at);
                    }
                },
                Nested::Named(name, value) => {
                    def.named_attr(name, value, self);
                },
            }
            k = k + 1;
        }
        proof {
            assert(stack@.reverse().len() == 0);
            assert(all.take(k as int) =~= all);
        }
        Some(def)
    }
}

} // verus!
