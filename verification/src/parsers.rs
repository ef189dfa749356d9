//! Splitting the tokens of an attribute like `#[logos(a = b, c(d), e)]`
//! into its comma-separated items, held as plain values.

use vstd::prelude::*;

verus! {

broadcast use vstd::std_specs::vec::group_vec_axioms;

/// A token of an attribute. Every token carries the id of its place in
/// the source, by which errors point at it.
#[derive(PartialEq, Eq, Debug)]
pub enum TokenTree {
    /// An identifier or keyword.
    Ident(String, usize),
    /// A punctuation character, and whether it stands alone (is not joined
    /// to the next one, as `=` in `==` is).
    Punct(char, bool, usize),
    /// A literal, as written.
    Literal(String, usize),
    /// A delimited group: its tokens.
    Group(Vec<TokenTree>, usize),
}

impl TokenTree {
    /// The id of the token's place in the source.
    pub open spec fn spec_span(&self) -> usize {
        match self {
            TokenTree::Ident(_, s) => *s,
            TokenTree::Punct(_, _, s) => *s,
            TokenTree::Literal(_, s) => *s,
            TokenTree::Group(_, s) => *s,
        }
    }

    /// The id of the token's place in the source.
    pub fn span(&self) -> (r: usize)
        ensures
            r == self.spec_span(),
    {
        match self {
            TokenTree::Ident(_, s) => *s,
            TokenTree::Punct(_, _, s) => *s,
            TokenTree::Literal(_, s) => *s,
            TokenTree::Group(_, s) => *s,
        }
    }
}

/// Whether the token is the punctuation `c`, standing alone.
pub open spec fn spec_is_punct(tt: TokenTree, c: char) -> bool {
    tt matches TokenTree::Punct(p, alone, _) && p == c && alone
}

/// Whether the token is the punctuation `expect`, standing alone.
pub fn is_punct(tt: &TokenTree, expect: char) -> (r: bool)
    ensures
        r == spec_is_punct(*tt, expect),
{
    match tt {
        TokenTree::Punct(c, alone, _) => *c == expect && *alone,
        _ => false,
    }
}

/// The token, unless it is the punctuation `expect`.
pub fn expect_punct(tt: Option<TokenTree>, expect: char) -> (r: Option<TokenTree>)
    ensures
        r == (match tt {
            Some(t) => if spec_is_punct(t, expect) { None } else { Some(t) },
            None => None,
        }),
{
    match tt {
        Some(t) => if is_punct(&t, expect) {
            None
        } else {
            Some(t)
        },
        None => None,
    }
}

/// What a named item holds after its name.
#[derive(PartialEq, Eq, Debug)]
pub enum NestedValue {
    /// `name`
    Nothing,
    /// `name = ...`
    Assign(Vec<TokenTree>),
    /// `name(...)`
    Group(Vec<TokenTree>),
    /// `name ident = ...`
    KeywordAssign(TokenTree, Vec<TokenTree>),
}

/// An item of an attribute.
#[derive(PartialEq, Eq, Debug)]
pub enum Nested {
    /// An item without a name: a string, a closure, a lone path.
    Unnamed(Vec<TokenTree>),
    /// A named item: its name (an identifier) and what follows.
    Named(TokenTree, NestedValue),
    /// Tokens that make no item.
    Unexpected(Vec<TokenTree>),
}

/// Model of what a named item holds after its name.
pub enum NestedValueView {
    Nothing,
    Assign(Seq<TokenTree>),
    Group(Seq<TokenTree>),
    KeywordAssign(TokenTree, Seq<TokenTree>),
}

/// Model of an item.
pub enum NestedView {
    Unnamed(Seq<TokenTree>),
    Named(TokenTree, NestedValueView),
    Unexpected(Seq<TokenTree>),
}

impl View for NestedValue {
    type V = NestedValueView;

    open spec fn view(&self) -> NestedValueView {
        match self {
            NestedValue::Nothing => NestedValueView::Nothing,
            NestedValue::Assign(v) => NestedValueView::Assign(v@),
            NestedValue::Group(v) => NestedValueView::Group(v@),
            NestedValue::KeywordAssign(k, v) => NestedValueView::KeywordAssign(*k, v@),
        }
    }
}

impl View for Nested {
    type V = NestedView;

    open spec fn view(&self) -> NestedView {
        match self {
            Nested::Unnamed(v) => NestedView::Unnamed(v@),
            Nested::Named(n, v) => NestedView::Named(*n, v@),
            Nested::Unexpected(v) => NestedView::Unexpected(v@),
        }
    }
}

/// The first lone comma in the tokens, or their length.
pub open spec fn item_end(toks: Seq<TokenTree>) -> int
    decreases toks.len(),
{
    if toks.len() == 0 || spec_is_punct(toks[0], ',') {
        0
    } else {
        1 + item_end(toks.drop_first())
    }
}

/// The tokens after the first item: past the lone comma ending it.
pub open spec fn after_item(toks: Seq<TokenTree>) -> Seq<TokenTree> {
    let e = item_end(toks);
    if e < toks.len() {
        toks.skip(e + 1)
    } else {
        toks.skip(e)
    }
}

/// The tokens up to the first lone comma, and those past it.
pub open spec fn tail(toks: Seq<TokenTree>) -> (Seq<TokenTree>, Seq<TokenTree>) {
    (toks.take(item_end(toks)), after_item(toks))
}

/// The first item of the tokens, and the tokens after it. An item runs up
/// to the next lone comma. One not starting with an identifier is
/// unnamed; an identifier alone is a bare name; `name = ...` is an
/// assignment; `name(...)` a group, unexpected tokens when more follow
/// it; `name ident = ...` a keyword assignment, unexpected tokens when
/// anything but `=` follows the second identifier (a second identifier
/// ending its run takes the next run as its value); an identifier
/// followed by anything else is unnamed.
pub open spec fn spec_next(toks: Seq<TokenTree>) -> (Option<NestedView>, Seq<TokenTree>) {
    let r1 = toks.drop_first();
    let r2 = r1.drop_first();
    let r3 = r2.drop_first();
    if toks.len() == 0 {
        (None, toks)
    } else if !(toks[0] is Ident) {
        (Some(NestedView::Unnamed(seq![toks[0]] + tail(r1).0)), tail(r1).1)
    } else if r1.len() == 0 {
        (Some(NestedView::Named(toks[0], NestedValueView::Nothing)), r1)
    } else if spec_is_punct(r1[0], ',') {
        (Some(NestedView::Named(toks[0], NestedValueView::Nothing)), r2)
    } else if spec_is_punct(r1[0], '=') {
        (Some(NestedView::Named(toks[0], NestedValueView::Assign(tail(r2).0))), tail(r2).1)
    } else if r1[0] is Group {
        if tail(r2).0.len() == 0 {
            (Some(NestedView::Named(toks[0], NestedValueView::Group(r1[0]->Group_0@))), tail(r2).1)
        } else {
            (Some(NestedView::Unexpected(tail(r2).0)), tail(r2).1)
        }
    } else if r1[0] is Ident {
        if r2.len() == 0 {
            (Some(NestedView::Named(toks[0], NestedValueView::KeywordAssign(r1[0], Seq::empty()))), r2)
        } else if spec_is_punct(r2[0], ',') || spec_is_punct(r2[0], '=') {
            (Some(NestedView::Named(toks[0], NestedValueView::KeywordAssign(r1[0], tail(r3).0))), tail(r3).1)
        } else {
            (Some(NestedView::Unexpected(seq![r2[0]] + tail(r3).0)), tail(r3).1)
        }
    } else {
        (Some(NestedView::Unnamed(seq![toks[0], r1[0]] + tail(r2).0)), tail(r2).1)
    }
}

proof fn lemma_item_end_bounds(toks: Seq<TokenTree>)
    ensures
        0 <= item_end(toks) <= toks.len(),
        item_end(toks) < toks.len() ==> spec_is_punct(toks[item_end(toks)], ','),
        forall|i: int| 0 <= i < item_end(toks) ==> !spec_is_punct(#[trigger] toks[i], ','),
    decreases toks.len(),
{
    if toks.len() > 0 && !spec_is_punct(toks[0], ',') {
        lemma_item_end_bounds(toks.drop_first());
        assert forall|i: int| 0 <= i < item_end(toks) implies !spec_is_punct(#[trigger] toks[i], ',') by {
            if i > 0 {
                assert(toks[i] == toks.drop_first()[i - 1]);
            }
        }
    }
}

/// Fewer tokens are left after an item than before it.
pub proof fn lemma_next_shorter(toks: Seq<TokenTree>)
    requires
        toks.len() > 0,
    ensures
        spec_next(toks).1.len() < toks.len(),
{
    let r1 = toks.drop_first();
    let r2 = r1.drop_first();
    let r3 = r2.drop_first();
    lemma_item_end_bounds(r1);
    lemma_item_end_bounds(r2);
    lemma_item_end_bounds(r3);
    if r3.len() > 0 || r2.len() > 0 {
        lemma_item_end_bounds(after_item(r3));
    }
}

/// All the items of the tokens, in order.
pub open spec fn spec_items(toks: Seq<TokenTree>) -> Seq<NestedView>
    decreases toks.len(),
{
    if toks.len() == 0 {
        Seq::empty()
    } else {
        proof {
            lemma_next_shorter(toks);
        }
        seq![spec_next(toks).0->Some_0] + spec_items(spec_next(toks).1)
    }
}

/// Models of a sequence of items, in order.
pub open spec fn nested_views(s: Seq<Nested>) -> Seq<NestedView> {
    Seq::new(s.len(), |i: int| s[i]@)
}

/// Reads the items of an attribute one by one.
pub struct AttributeParser {
    /// The tokens not read yet, the next one last.
    rest: Vec<TokenTree>,
}

impl AttributeParser {
    /// The tokens not read yet, in order.
    pub closed spec fn remaining(&self) -> Seq<TokenTree> {
        self.rest@.reverse()
    }

    /// A reader of the items of `stream`, from its start.
    pub fn new(stream: Vec<TokenTree>) -> (r: AttributeParser)
        ensures
            r.remaining() == stream@,
    {
        let ghost all = stream@;
        let mut stream = stream;
        let mut rest: Vec<TokenTree> = Vec::new();
        while stream.len() > 0
            invariant
                all == stream@ + rest@.reverse(),
            decreases stream@.len(),
        {
            let ghost before = stream@;
            let t = stream.pop().unwrap();
            rest.push(t);
            proof {
                assert(before == stream@.push(t));
                assert(rest@.reverse() =~= seq![t] + rest@.drop_last().reverse());
                assert(all =~= stream@ + rest@.reverse());
            }
        }
        proof {
            assert(stream@ + rest@.reverse() =~= rest@.reverse());
        }
        AttributeParser { rest }
    }

    /// The next token, unless it is a lone comma, which is passed over.
    fn next_tt(&mut self) -> (r: Option<TokenTree>)
        ensures
            old(self).remaining().len() == 0 ==> r is None && final(self).remaining() == old(self).remaining(),
            old(self).remaining().len() > 0 && spec_is_punct(old(self).remaining()[0], ',') ==> r is None
                && final(self).remaining() == old(self).remaining().drop_first(),
            old(self).remaining().len() > 0 && !spec_is_punct(old(self).remaining()[0], ',') ==> r == Some(old(self).remaining()[0])
                && final(self).remaining() == old(self).remaining().drop_first(),
    {
        let ghost before = self.rest@;
        match self.rest.pop() {
            Some(t) => {
                proof {
                    assert(before == self.rest@.push(t));
                    assert(before.reverse() =~= seq![t] + self.rest@.reverse());
                    assert(self.rest@.reverse() =~= before.reverse().drop_first());
                }
                if is_punct(&t, ',') {
                    None
                } else {
                    Some(t)
                }
            },
            None => None,
        }
    }

    /// Whether the token `n` places ahead is the punctuation `c`.
    fn peek_punct(&self, n: usize, c: char) -> (r: bool)
        ensures
            r == (n < self.remaining().len() && spec_is_punct(self.remaining()[n as int], c)),
    {
        if n < self.rest.len() {
            is_punct(&self.rest[self.rest.len() - 1 - n], c)
        } else {
            false
        }
    }

    /// The tokens up to the next lone comma, which is passed over.
    pub fn collect_tail(&mut self) -> (r: Vec<TokenTree>)
        ensures
            r@ == old(self).remaining().take(item_end(old(self).remaining())),
            final(self).remaining() == after_item(old(self).remaining()),
    {
        let ghost toks = self.remaining();
        proof {
            lemma_item_end_bounds(toks);
        }
        let mut out: Vec<TokenTree> = Vec::new();
        loop
            invariant_except_break
                toks.len() == out@.len() + self.remaining().len(),
                self.remaining() == toks.skip(out@.len() as int),
            invariant
                out@ == toks.take(out@.len() as int),
                out@.len() <= item_end(toks),
                0 <= item_end(toks) <= toks.len(),
                item_end(toks) < toks.len() ==> spec_is_punct(toks[item_end(toks)], ','),
                forall|i: int| 0 <= i < item_end(toks) ==> !spec_is_punct(#[trigger] toks[i], ','),
            ensures
                out@ == toks.take(item_end(toks)),
                self.remaining() == after_item(toks),
            decreases self.remaining().len(),
        {
            let ghost k = out@.len() as int;
            match self.next_tt() {
                Some(t) => {
                    proof {
                        assert(toks[k] == t);
                        assert(out@.push(t) =~= toks.take(k + 1));
                        assert(toks.skip(k).drop_first() =~= toks.skip(k + 1));
                    }
                    out.push(t);
                },
                None => {
                    proof {
                        assert(k == item_end(toks));
                        if k < toks.len() {
                            assert(toks.skip(k).drop_first() =~= toks.skip(k + 1));
                        }
                    }
                    break;
                },
            }
        }
        out
    }

    /// All the items left, in order.
    pub fn collect_items(self) -> (r: Vec<Nested>)
        ensures
            nested_views(r@) == spec_items(self.remaining()),
    {
        let ghost all = self.remaining();
        let mut this = self;
        let mut out: Vec<Nested> = Vec::new();
        proof {
            assert(nested_views(out@) + spec_items(this.remaining()) =~= spec_items(all));
        }
        while this.rest.len() > 0
            invariant
                nested_views(out@) + spec_items(this.remaining()) == spec_items(all),
            decreases this.rest@.len(),
        {
            let ghost before = this.remaining();
            proof {
                lemma_next_shorter(before);
            }
            match this.next() {
                Some(item) => {
                    let ghost prev = out@;
                    out.push(item);
                    proof {
                        assert(nested_views(out@) =~= nested_views(prev).push(item@));
                        assert(spec_items(before) == seq![item@] + spec_items(this.remaining()));
                        assert(nested_views(out@) + spec_items(this.remaining()) =~= nested_views(prev) + spec_items(before));
                    }
                },
                None => {
                    proof {
                        assert(false);
                    }
                },
            }
        }
        proof {
            assert(this.remaining().len() == 0);
            assert(nested_views(out@) + spec_items(this.remaining()) =~= nested_views(out@));
        }
        out
    }

    /// The next item, or `None` at the end.
    pub fn next(&mut self) -> (r: Option<Nested>)
        ensures
            (match r {
                Some(n) => Some(n@),
                None => None,
            }, final(self).remaining()) == spec_next(old(self).remaining()),
    {
        let ghost toks = self.remaining();
        let ghost r1 = toks.drop_first();
        let ghost r2 = r1.drop_first();
        let ghost r3 = r2.drop_first();
        let ghost before = self.rest@;
        let first = match self.rest.pop() {
            Some(t) => t,
            None => {
                return None;
            },
        };
        proof {
            assert(before == self.rest@.push(first));
            assert(before.reverse() =~= seq![first] + self.rest@.reverse());
            assert(self.remaining() =~= r1);
        }
        let name = match first {
            TokenTree::Ident(..) => first,
            _ => {
                let tail = self.collect_tail();
                let mut stream: Vec<TokenTree> = Vec::new();
                stream.push(first);
                let mut tail = tail;
                stream.append(&mut tail);
                return Some(Nested::Unnamed(stream));
            },
        };
        let second = match self.next_tt() {
            Some(t) => t,
            None => {
                return Some(Nested::Named(name, NestedValue::Nothing));
            },
        };
        if is_punct(&second, '=') {
            let value = self.collect_tail();
            return Some(Nested::Named(name, NestedValue::Assign(value)));
        }
        proof {
            assert(second == r1[0]);
            assert(self.remaining() == r2);
        }
        match second {
            TokenTree::Group(group, _) => {
                let rest = self.collect_tail();
                if rest.len() == 0 {
                    let r = Nested::Named(name, NestedValue::Group(group));
                    proof {
                        assert(r1[0]->Group_0@ == group@);
                        assert((Some(r@), self.remaining()) == spec_next(toks));
                    }
                    Some(r)
                } else {
                    let r = Nested::Unexpected(rest);
                    proof {
                        assert((Some(r@), self.remaining()) == spec_next(toks));
                    }
                    Some(r)
                }
            },
            TokenTree::Ident(..) => {
                let after_eq = self.peek_punct(0, '=');
                match self.next_tt() {
                    None => {
                        let value = self.collect_tail();
                        proof {
                            if r2.len() == 0 {
                                assert(value@ =~= Seq::<TokenTree>::empty());
                                assert(self.remaining() =~= r2);
                            } else {
                                assert(spec_is_punct(r2[0], ','));
                            }
                        }
                        let r = Nested::Named(name, NestedValue::KeywordAssign(second, value));
                        proof {
                            assert((Some(r@), self.remaining()) == spec_next(toks));
                        }
                        Some(r)
                    },
                    Some(third) => {
                        if after_eq {
                            let value = self.collect_tail();
                            let r = Nested::Named(name, NestedValue::KeywordAssign(second, value));
                            proof {
                                assert((Some(r@), self.remaining()) == spec_next(toks));
                            }
                            Some(r)
                        } else {
                            let tail = self.collect_tail();
                            let mut stream: Vec<TokenTree> = Vec::new();
                            stream.push(third);
                            let mut tail = tail;
                            stream.append(&mut tail);
                            let r = Nested::Unexpected(stream);
                            proof {
                                assert((Some(r@), self.remaining()) == spec_next(toks));
                            }
                            Some(r)
                        }
                    },
                }
            },
            _ => {
                let rest_tokens = self.collect_tail();
                let ghost rest_view = rest_tokens@;
                let mut stream: Vec<TokenTree> = Vec::new();
                stream.push(name);
                stream.push(second);
                let mut rest_tokens = rest_tokens;
                stream.append(&mut rest_tokens);
                let r = Nested::Unnamed(stream);
                proof {
                    assert(stream@ =~= seq![toks[0], r1[0]] + rest_view);
                    assert((Some(r@), self.remaining()) == spec_next(toks));
                }
                Some(r)
            },
        }
    }
}

} // verus!
