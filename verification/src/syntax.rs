//! The syntax tree of a `#[regex]` pattern, as the regex parser gives it,
//! held as plain values.

use vstd::prelude::*;

use regex_syntax::hir::{Class as HirClass, HirKind, Literal as HirLiteral, RepetitionKind};
use regex_syntax::ParserBuilder;

verus! {

broadcast use vstd::std_specs::vec::group_vec_axioms;

/// A single character of a pattern.
#[derive(Clone, Copy, PartialEq, Eq, Debug, Structural)]
pub enum Symbol {
    /// A Unicode scalar value, matched as its UTF-8 encoding.
    Unicode(char),
    /// A single byte.
    Byte(u8),
}

/// A character class: inclusive ranges of scalar values or of bytes.
#[derive(Debug)]
pub enum CharClass {
    Unicode(Vec<(char, char)>),
    Bytes(Vec<(u8, u8)>),
}

/// Model of a class.
pub enum CharClassView {
    Unicode(Seq<(char, char)>),
    Bytes(Seq<(u8, u8)>),
}

impl View for CharClass {
    type V = CharClassView;

    open spec fn view(&self) -> CharClassView {
        match self {
            CharClass::Unicode(v) => CharClassView::Unicode(v@),
            CharClass::Bytes(v) => CharClassView::Bytes(v@),
        }
    }
}

/// A copy of a list of ranges.
fn copy_pairs<T: Copy>(v: &Vec<(T, T)>) -> (r: Vec<(T, T)>)
    ensures
        r@ == v@,
{
    let mut out: Vec<(T, T)> = Vec::new();
    let mut i: usize = 0;
    while i < v.len()
        invariant
            i <= v@.len(),
            out@ == v@.take(i as int),
        decreases v@.len() - i,
    {
        proof {
            assert(v@.take(i + 1) == v@.take(i as int).push(v@[i as int]));
        }
        out.push(v[i]);
        i = i + 1;
    }
    proof {
        assert(v@.take(v@.len() as int) == v@);
    }
    out
}

impl CharClass {
    /// A copy of the class.
    pub fn copy(&self) -> (r: CharClass)
        ensures
            r@ == self@,
    {
        match self {
            CharClass::Unicode(v) => CharClass::Unicode(copy_pairs(v)),
            CharClass::Bytes(v) => CharClass::Bytes(copy_pairs(v)),
        }
    }
}

/// How often a repeated expression may occur.
#[derive(Clone, Copy, PartialEq, Eq, Debug, Structural)]
pub enum Repeat {
    /// `?`
    ZeroOrOne,
    /// `*`
    ZeroOrMore,
    /// `+`
    OneOrMore,
    /// `{n}`, `{n,}` or `{n,m}`
    Range,
}

/// A parsed pattern.
#[derive(Debug)]
pub enum Syntax {
    /// Matches the empty string.
    Empty,
    Literal(Symbol),
    Class(CharClass),
    /// `^`, `$` and the like.
    Anchor,
    /// `\b` and the like.
    WordBoundary,
    /// A repeated expression: whether it is greedy, how often it repeats,
    /// and the expression.
    Repetition(bool, Repeat, Box<Syntax>),
    /// A group, capturing or not.
    Group(Box<Syntax>),
    Concat(Vec<Syntax>),
    Alternation(Vec<Syntax>),
}

/// Model of a parsed pattern.
pub enum SyntaxView {
    Empty,
    Literal(Symbol),
    Class(CharClassView),
    Anchor,
    WordBoundary,
    Repetition(bool, Repeat, Box<SyntaxView>),
    Group(Box<SyntaxView>),
    Concat(Seq<SyntaxView>),
    Alternation(Seq<SyntaxView>),
}

impl View for Syntax {
    type V = SyntaxView;

    open spec fn view(&self) -> SyntaxView
        decreases self,
    {
        match self {
            Syntax::Empty => SyntaxView::Empty,
            Syntax::Literal(l) => SyntaxView::Literal(*l),
            Syntax::Class(c) => SyntaxView::Class(c@),
            Syntax::Anchor => SyntaxView::Anchor,
            Syntax::WordBoundary => SyntaxView::WordBoundary,
            Syntax::Repetition(greedy, kind, sub) => SyntaxView::Repetition(*greedy, *kind, Box::new((**sub)@)),
            Syntax::Group(sub) => SyntaxView::Group(Box::new((**sub)@)),
            Syntax::Concat(v) => SyntaxView::Concat(syntax_views(v@)),
            Syntax::Alternation(v) => SyntaxView::Alternation(syntax_views(v@)),
        }
    }
}

/// Models of a sequence of parsed patterns, in order.
pub open spec fn syntax_views(s: Seq<Syntax>) -> Seq<SyntaxView>
    decreases s,
{
    if s.len() == 0 {
        Seq::empty()
    } else {
        syntax_views(s.drop_last()).push(s.last()@)
    }
}

/// The models of a sequence of parsed patterns line up with its members.
pub proof fn lemma_syntax_views(s: Seq<Syntax>)
    ensures
        syntax_views(s).len() == s.len(),
        forall|i: int| 0 <= i < s.len() ==> #[trigger] syntax_views(s)[i] == s[i]@,
    decreases s.len(),
{
    if s.len() > 0 {
        lemma_syntax_views(s.drop_last());
        assert(syntax_views(s) == syntax_views(s.drop_last()).push(s.last()@));
        assert forall|i: int| 0 <= i < s.len() implies #[trigger] syntax_views(s)[i] == s[i]@ by {
            if i < s.len() - 1 {
                assert(s.drop_last()[i] == s[i]);
            }
        }
    }
}

/// What `regex_syntax` makes of `source`, parsed as UTF-8 text when
/// `utf8` holds and as bytes otherwise: the tree, or the text of its error.
pub uninterp spec fn regex_syntax_parse(utf8: bool, source: Seq<char>) -> Result<SyntaxView, Seq<char>>;

#[verifier::external_type_specification]
#[verifier::external_body]
pub struct ExHir(regex_syntax::hir::Hir);

#[verifier::external_type_specification]
#[verifier::external_body]
pub struct ExHirClass(regex_syntax::hir::Class);

#[verifier::external_type_specification]
#[verifier::external_body]
pub struct ExRepetitionKind(regex_syntax::hir::RepetitionKind);

/// Parses `source` with `regex_syntax::ParserBuilder` (invalid UTF-8
/// allowed and Unicode off unless `utf8` holds) and turns the resulting
/// `Hir` into a `Syntax`, or its error into the error's display text. The
/// result is what `regex_syntax_parse` names for the same arguments;
/// nothing more is claimed of it.
#[verifier::external_body]
pub(crate) fn parse_regex(utf8: bool, source: &str) -> (r: Result<Syntax, String>)
    ensures
        match r {
            Ok(s) => regex_syntax_parse(utf8, source@) == Ok::<SyntaxView, Seq<char>>(s@),
            Err(m) => regex_syntax_parse(utf8, source@) == Err::<SyntaxView, Seq<char>>(m@),
        },
{
    let parsed = ParserBuilder::new().allow_invalid_utf8(!utf8).unicode(utf8).build().parse(source);
    match parsed {
        Ok(hir) => Ok(lower_hir(hir)),
        Err(e) => Err(e.to_string()),
    }
}

/// Turns a `regex_syntax` `Hir` into a `Syntax`, node for node; it serves
/// `parse_regex` and claims nothing of its own.
#[verifier::external_body]
fn lower_hir(hir: regex_syntax::hir::Hir) -> Syntax {
    match hir.into_kind() {
        HirKind::Empty => Syntax::Empty,
        HirKind::Literal(HirLiteral::Unicode(c)) => Syntax::Literal(Symbol::Unicode(c)),
        HirKind::Literal(HirLiteral::Byte(b)) => Syntax::Literal(Symbol::Byte(b)),
        HirKind::Class(c) => Syntax::Class(lower_class(c)),
        HirKind::Anchor(_) => Syntax::Anchor,
        HirKind::WordBoundary(_) => Syntax::WordBoundary,
        HirKind::Repetition(r) => Syntax::Repetition(r.greedy, lower_repeat(r.kind), lower_box(r.hir)),
        HirKind::Group(g) => Syntax::Group(lower_box(g.hir)),
        HirKind::Concat(v) => Syntax::Concat(lower_all(v)),
        HirKind::Alternation(v) => Syntax::Alternation(lower_all(v)),
    }
}

/// A boxed `Hir` as a boxed `Syntax`; serves `lower_hir`.
#[verifier::external_body]
fn lower_box(hir: Box<regex_syntax::hir::Hir>) -> Box<Syntax> {
    Box::new(lower_hir(*hir))
}

/// A list of `Hir`s as a list of `Syntax`es, in order; serves `lower_hir`.
#[verifier::external_body]
fn lower_all(hirs: Vec<regex_syntax::hir::Hir>) -> Vec<Syntax> {
    hirs.into_iter().map(lower_hir).collect()
}

/// A `regex_syntax` class as the list of its ranges; serves `lower_hir`.
#[verifier::external_body]
fn lower_class(class: regex_syntax::hir::Class) -> CharClass {
    match class {
        HirClass::Unicode(c) => CharClass::Unicode(c.iter().map(|r| (r.start(), r.end())).collect()),
        HirClass::Bytes(c) => CharClass::Bytes(c.iter().map(|r| (r.start(), r.end())).collect()),
    }
}

/// A `regex_syntax` repetition kind as a `Repeat`; serves `lower_hir`.
#[verifier::external_body]
fn lower_repeat(kind: regex_syntax::hir::RepetitionKind) -> Repeat {
    match kind {
        RepetitionKind::ZeroOrOne => Repeat::ZeroOrOne,
        RepetitionKind::ZeroOrMore => Repeat::ZeroOrMore,
        RepetitionKind::OneOrMore => Repeat::OneOrMore,
        RepetitionKind::Range(_) => Repeat::Range,
    }
}

} // verus!
