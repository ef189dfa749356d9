//! The lexer a derived token type runs on: where the current token starts
//! and ends in the source, and the operations the generated code uses to
//! read ahead and to move on.

use vstd::prelude::*;

use core::ops::Range;

use crate::source::{Chunk, Source};

verus! {

/// Byte range in the source.
pub type Span = Range<usize>;

/// A token type with a lexer: its error variant, the extras its lexer
/// carries, and the code that reads one token.
pub trait Logos<'source>: Sized {
    /// What the lexer carries besides its position.
    type Extras: Default;

    /// What the lexer reads.
    type Source: Source + ?Sized + 'source;

    /// The variant marked as the error: one value, the same on every
    /// call.
    open spec fn spec_error() -> Self {
        vstd::pervasive::arbitrary()
    }

    /// The variant marked as the error.
    fn error() -> (r: Self)
        ensures
            r == Self::spec_error(),
    ;

    /// Read the token at the lexer's position: it ends the token and sets
    /// a token or the end. Nothing is claimed of what it does.
    fn lex(lexer: &mut Lexer<'source, Self>);
}

/// Reads through a source and produces tokens.
pub struct Lexer<'source, Token: Logos<'source>> {
    source: &'source Token::Source,
    token: Option<Token>,
    token_start: usize,
    token_end: usize,
    /// How many tokens `next` has returned so far.
    read: Ghost<nat>,
    /// How many times `next` has found the end so far.
    ends: Ghost<nat>,
    /// Extras associated with the token type.
    pub extras: Token::Extras,
}

impl<'source, Token: Logos<'source>> Lexer<'source, Token> {
    /// The current token lies within the source, start before end.
    pub closed spec fn wf(&self) -> bool {
        self.token_start <= self.token_end <= self.spec_source().source_bytes().len()
    }

    /// The source read.
    pub closed spec fn spec_source(&self) -> &'source Token::Source {
        self.source
    }

    /// Where the current token starts.
    pub closed spec fn token_begin(&self) -> usize {
        self.token_start
    }

    /// Where the current token ends.
    pub closed spec fn token_finish(&self) -> usize {
        self.token_end
    }

    /// The extras carried.
    pub closed spec fn spec_extras(&self) -> Token::Extras {
        self.extras
    }

    /// The token set for the current position, if any.
    pub closed spec fn current(&self) -> Option<Token> {
        self.token
    }

    /// How many tokens `next` has returned so far.
    pub closed spec fn tokens_read(&self) -> nat {
        self.read@
    }

    /// How many times `next` has found the end so far.
    pub closed spec fn ends_met(&self) -> nat {
        self.ends@
    }

    /// A lexer at the start of `source`.
    pub fn new(source: &'source Token::Source) -> (r: Self)
        ensures
            r.wf(),
            r.spec_source() == source,
            r.token_begin() == 0,
            r.token_finish() == 0,
            r.current() is None,
            r.tokens_read() == 0,
            r.ends_met() == 0,
    {
        Lexer { source, token: None, token_start: 0, token_end: 0, read: Ghost(0), ends: Ghost(0), extras: Token::Extras::default() }
    }

    /// A lexer at the start of `source`, carrying `extras`.
    pub fn with_extras(source: &'source Token::Source, extras: Token::Extras) -> (r: Self)
        ensures
            r.wf(),
            r.spec_source() == source,
            r.token_begin() == 0,
            r.token_finish() == 0,
            r.current() is None,
            r.spec_extras() == extras,
            r.tokens_read() == 0,
            r.ends_met() == 0,
    {
        Lexer { source, token: None, token_start: 0, token_end: 0, read: Ghost(0), ends: Ghost(0), extras }
    }

    /// The source read.
    pub fn source(&self) -> (r: &'source Token::Source)
        ensures
            r == self.spec_source(),
    {
        self.source
    }

    /// The lexer, wrapped to produce each token with its span.
    pub fn spanned(self) -> (r: SpannedIter<'source, Token>)
        ensures
            r.lexer == self,
    {
        SpannedIter { lexer: self }
    }

    /// The lexer, wrapped to let the next token be looked at before it is
    /// taken.
    pub fn peekable(self) -> (r: PeekableIter<'source, Token>)
        ensures
            r.lexer == self,
            r.peeked is None,
    {
        PeekableIter { lexer: self, peeked: None }
    }

    /// The range of the current token in the source.
    pub fn span(&self) -> (r: Span)
        ensures
            r.start == self.token_begin(),
            r.end == self.token_finish(),
    {
        self.token_start..self.token_end
    }

    /// The range of the current token in the source (the older name of
    /// `span`).
    pub fn range(&self) -> (r: Span)
        ensures
            r.start == self.token_begin(),
            r.end == self.token_finish(),
    {
        self.span()
    }

    /// The current token's part of the source.
    pub fn slice(&self) -> (r: &'source Token::Source)
        requires
            self.wf(),
            self.spec_source().boundary(self.token_begin() as int),
            self.spec_source().boundary(self.token_finish() as int),
        ensures
            r.source_bytes() == self.spec_source().source_bytes().subrange(self.token_begin() as int, self.token_finish() as int),
    {
        match self.source.slice(self.token_start, self.token_end) {
            Some(s) => s,
            None => self.source,
        }
    }

    /// The rest of the source, after the current token.
    pub fn remainder(&self) -> (r: &'source Token::Source)
        requires
            self.wf(),
            self.spec_source().boundary(self.token_finish() as int),
            self.spec_source().boundary(self.spec_source().source_bytes().len() as int),
        ensures
            r.source_bytes() == self.spec_source().source_bytes().subrange(self.token_finish() as int, self.spec_source().source_bytes().len() as int),
    {
        let len = self.source.len();
        match self.source.slice(self.token_end, len) {
            Some(s) => s,
            None => self.source,
        }
    }

    /// The lexer turned into one for another token type of the same
    /// source, at the same span, with no token set and its extras
    /// converted.
    pub fn morph<Token2>(self) -> (r: Lexer<'source, Token2>)
        where
            Token2: Logos<'source, Source = Token::Source>,
            Token::Extras: Into<Token2::Extras>,
        ensures
            r.spec_source() == self.spec_source(),
            r.token_begin() == self.token_begin(),
            r.token_finish() == self.token_finish(),
            r.current() is None,
    {
        Lexer {
            source: self.source,
            token: None,
            extras: self.extras.into(),
            token_start: self.token_start,
            token_end: self.token_end,
            read: Ghost(0),
            ends: Ghost(0),
        }
    }

    /// Move the end of the current token `n` bytes on, to a place the
    /// source may be cut.
    pub fn bump(&mut self, n: usize)
        requires
            old(self).token_finish() + n <= old(self).spec_source().source_bytes().len(),
            old(self).token_finish() + n <= usize::MAX,
            old(self).spec_source().boundary(old(self).token_finish() + n),
        ensures
            final(self).token_finish() == old(self).token_finish() + n,
            final(self).spec_source() == old(self).spec_source(),
            final(self).token_begin() == old(self).token_begin(),
            final(self).current() == old(self).current(),
            final(self).spec_extras() == old(self).spec_extras(),
    {
        self.token_end = self.token_end + n;
    }

    /// Read and return the next token, or `None` at the end: the next
    /// token starts where the current one ends, and the token type's
    /// `lex` reads it.
    pub fn next(&mut self) -> (r: Option<Token>)
        ensures
            final(self).current() is None,
            r is Some ==> final(self).tokens_read() == old(self).tokens_read() + 1 && final(self).ends_met() == old(self).ends_met(),
            r is None ==> final(self).tokens_read() == old(self).tokens_read() && final(self).ends_met() == old(self).ends_met() + 1,
    {
        let ghost count = self.read@;
        let ghost ends = self.ends@;
        self.token_start = self.token_end;
        Token::lex(self);
        let r = self.token.take();
        if r.is_some() {
            self.read = Ghost(count + 1);
            self.ends = Ghost(ends);
        } else {
            self.read = Ghost(count);
            self.ends = Ghost(ends + 1);
        }
        r
    }

    /// Read a chunk at the end of the current token.
    pub fn read<C: Chunk<'source>>(&self) -> (r: Option<C>)
        requires
            C::spec_size() >= 1,
        ensures
            match r {
                Some(c) => self.token_finish() + C::spec_size() <= self.spec_source().source_bytes().len() && c.chunk_bytes()
                    == self.spec_source().source_bytes().subrange(self.token_finish() as int, self.token_finish() + C::spec_size()),
                None => self.token_finish() + C::spec_size() > self.spec_source().source_bytes().len(),
            },
    {
        self.source.read(self.token_end)
    }

    /// Read a chunk `n` bytes after the end of the current token.
    pub fn read_at<C: Chunk<'source>>(&self, n: usize) -> (r: Option<C>)
        requires
            C::spec_size() >= 1,
            self.token_finish() + n <= usize::MAX,
        ensures
            match r {
                Some(c) => self.token_finish() + n + C::spec_size() <= self.spec_source().source_bytes().len() && c.chunk_bytes()
                    == self.spec_source().source_bytes().subrange(self.token_finish() + n, self.token_finish() + n + C::spec_size()),
                None => self.token_finish() + n + C::spec_size() > self.spec_source().source_bytes().len(),
            },
    {
        self.source.read(self.token_end + n)
    }

    /// Test the chunk at the end of the current token; false when the
    /// source ends before it.
    pub fn test<C: Chunk<'source>, F: FnOnce(C) -> bool>(&self, test: F) -> (r: bool)
        requires
            C::spec_size() >= 1,
            forall|c: C| test.requires((c,)),
        ensures
            self.token_finish() + C::spec_size() > self.spec_source().source_bytes().len() ==> !r,
            self.token_finish() + C::spec_size() <= self.spec_source().source_bytes().len() ==> exists|c: C|
                c.chunk_bytes() == self.spec_source().source_bytes().subrange(self.token_finish() as int, self.token_finish() + C::spec_size())
                    && test.ensures((c,), r),
    {
        match self.source.read::<C>(self.token_end) {
            Some(chunk) => test(chunk),
            None => false,
        }
    }

    /// Test the chunk `n` bytes after the end of the current token; false
    /// when the source ends before it.
    pub fn test_at<C: Chunk<'source>, F: FnOnce(C) -> bool>(&self, n: usize, test: F) -> (r: bool)
        requires
            C::spec_size() >= 1,
            self.token_finish() + n <= usize::MAX,
            forall|c: C| test.requires((c,)),
        ensures
            self.token_finish() + n + C::spec_size() > self.spec_source().source_bytes().len() ==> !r,
            self.token_finish() + n + C::spec_size() <= self.spec_source().source_bytes().len() ==> exists|c: C|
                c.chunk_bytes() == self.spec_source().source_bytes().subrange(self.token_finish() + n, self.token_finish() + n + C::spec_size())
                    && test.ensures((c,), r),
    {
        match self.source.read::<C>(self.token_end + n) {
            Some(chunk) => test(chunk),
            None => false,
        }
    }

    /// Move the end of the current token `size` bytes on, within the
    /// source.
    pub fn bump_unchecked(&mut self, size: usize)
        requires
            old(self).token_finish() + size <= old(self).spec_source().source_bytes().len(),
            old(self).token_finish() + size <= usize::MAX,
        ensures
            final(self).token_finish() == old(self).token_finish() + size,
            final(self).spec_source() == old(self).spec_source(),
            final(self).token_begin() == old(self).token_begin(),
            final(self).current() == old(self).current(),
            final(self).spec_extras() == old(self).spec_extras(),
    {
        self.token_end = self.token_end + size;
    }

    /// Drop what was read so far: the next token starts where the current
    /// one ends.
    pub fn trivia(&mut self)
        ensures
            final(self).token_begin() == old(self).token_finish(),
            final(self).spec_source() == old(self).spec_source(),
            final(self).token_finish() == old(self).token_finish(),
            final(self).current() == old(self).current(),
            final(self).spec_extras() == old(self).spec_extras(),
    {
        self.token_start = self.token_end;
    }

    /// Make the current token the error, ending at the first place at or
    /// after its end where the source may be cut.
    pub fn error(&mut self)
        requires
            old(self).wf(),
        ensures
            final(self).wf(),
            old(self).token_finish() <= final(self).token_finish(),
            final(self).spec_source().boundary(final(self).token_finish() as int),
            forall|i: int| old(self).token_finish() <= i < final(self).token_finish() ==> !final(self).spec_source().boundary(i),
            final(self).current() == Some(Token::spec_error()),
            final(self).token_begin() == old(self).token_begin(),
            final(self).spec_source() == old(self).spec_source(),
    {
        self.token_end = self.source.find_boundary(self.token_end);
        self.token = Some(Token::error());
    }

    /// Mark the end of the source: no token.
    pub fn end(&mut self)
        ensures
            final(self).current() is None,
            final(self).spec_source() == old(self).spec_source(),
            final(self).token_begin() == old(self).token_begin(),
            final(self).token_finish() == old(self).token_finish(),
            final(self).spec_extras() == old(self).spec_extras(),
    {
        self.token = None;
    }

    /// Set the current token.
    pub fn set(&mut self, token: Token)
        ensures
            final(self).current() == Some(token),
            final(self).spec_source() == old(self).spec_source(),
            final(self).token_begin() == old(self).token_begin(),
            final(self).token_finish() == old(self).token_finish(),
            final(self).spec_extras() == old(self).spec_extras(),
    {
        self.token = Some(token);
    }
}

/// The token `n` places on, reading and dropping those before it;
/// `None` once the end is met.
fn nth_token<'source, Token: Logos<'source>>(lexer: &mut Lexer<'source, Token>, n: usize) -> (r: Option<Token>)
    ensures
        final(lexer).current() is None,
        r is Some ==> final(lexer).tokens_read() == old(lexer).tokens_read() + n + 1 && final(lexer).ends_met() == old(lexer).ends_met(),
        r is None ==> final(lexer).tokens_read() <= old(lexer).tokens_read() + n && final(lexer).ends_met() == old(lexer).ends_met() + 1,
{
    let mut i: usize = 0;
    while i < n
        invariant
            i <= n,
            lexer.tokens_read() == old(lexer).tokens_read() + i,
            lexer.ends_met() == old(lexer).ends_met(),
        decreases n - i,
    {
        match lexer.next() {
            Some(_) => {},
            None => {
                return None;
            },
        }
        i = i + 1;
    }
    lexer.next()
}

/// A lexer that produces each token with its span.
pub struct SpannedIter<'source, Token: Logos<'source>> {
    pub lexer: Lexer<'source, Token>,
}

impl<'source, Token: Logos<'source>> SpannedIter<'source, Token> {
    /// The next token and its span, or `None` at the end.
    pub fn next(&mut self) -> (r: Option<(Token, Span)>)
        ensures
            r matches Some(p) ==> p.1.start == final(self).lexer.token_begin() && p.1.end == final(self).lexer.token_finish(),
    {
        match self.lexer.next() {
            Some(token) => Some((token, self.lexer.span())),
            None => None,
        }
    }
}

/// With a token read ahead, the token `nth(n)` returns is the one the
/// lexer reads after `n - 1` further tokens: the peeked token counts as
/// the first, so the lexer reads `n` tokens past it. `p0` is the iterator
/// before the call, `p1` and `r` what the contract of `nth` allows after.
pub proof fn law_nth_after_peek<'source, Token: Logos<'source>>(
    p0: PeekableIter<'source, Token>,
    p1: PeekableIter<'source, Token>,
    n: usize,
    r: Option<Token>,
)
    requires
        p0.peeked matches Some(Some(_)),
        p1.peeked is None,
        r is Some ==> p1.taken() == p0.taken() + n + 1,
    ensures
        r is Some ==> p1.lexer.tokens_read() == p0.lexer.tokens_read() + n,
{
}

/// A lexer whose next token can be looked at before it is taken.
pub struct PeekableIter<'source, Token: Logos<'source>> {
    pub lexer: Lexer<'source, Token>,
    /// The token read ahead, if any: `Some(None)` for the end.
    pub peeked: Option<Option<Token>>,
}

impl<'source, Token: Logos<'source>> PeekableIter<'source, Token> {
    /// How many tokens the iterator has handed out: those the lexer read,
    /// less the one read ahead and not yet taken.
    pub open spec fn taken(&self) -> int {
        self.lexer.tokens_read() - (if self.peeked matches Some(Some(_)) {
            1int
        } else {
            0int
        })
    }

    /// The next token, read ahead once and kept until it is taken.
    pub fn peek(&mut self) -> (r: Option<&Token>)
        ensures
            final(self).taken() == old(self).taken(),
            final(self).peeked == Some(None::<Token>) ==> old(self).peeked == Some(None::<Token>) || final(self).lexer.ends_met()
                == old(self).lexer.ends_met() + 1,
            final(self).peeked matches Some(p) && match p {
                Some(t) => r == Some(&t),
                None => r is None,
            },
            old(self).peeked is Some ==> final(self).peeked == old(self).peeked && final(self).lexer == old(self).lexer,
    {
        if self.peeked.is_none() {
            let next = self.lexer.next();
            self.peeked = Some(next);
        }
        match &self.peeked {
            Some(Some(t)) => Some(t),
            _ => None,
        }
    }

    /// The next token: the one read ahead, if any.
    pub fn next(&mut self) -> (r: Option<Token>)
        ensures
            final(self).peeked is None,
            r is Some ==> final(self).taken() == old(self).taken() + 1,
            r is None ==> final(self).taken() == old(self).taken(),
            r is None ==> old(self).peeked == Some(None::<Token>) || final(self).lexer.ends_met() == old(self).lexer.ends_met() + 1,
            old(self).peeked matches Some(p) ==> r == p && final(self).lexer == old(self).lexer,
    {
        let mut slot = None;
        std::mem::swap(&mut slot, &mut self.peeked);
        match slot {
            Some(token) => token,
            None => self.lexer.next(),
        }
    }

    /// The token `n` places on: the one read ahead counts first. Every
    /// token before it is read and dropped; `None` once the end is met.
    pub fn nth(&mut self, n: usize) -> (r: Option<Token>)
        ensures
            final(self).peeked is None,
            r is Some ==> final(self).taken() == old(self).taken() + n + 1,
            r is None ==> final(self).taken() <= old(self).taken() + n,
            r is None ==> old(self).peeked == Some(None::<Token>) || final(self).lexer.ends_met() == old(self).lexer.ends_met() + 1,
            old(self).peeked == Some(None::<Token>) ==> r is None && final(self).lexer == old(self).lexer,
            old(self).peeked matches Some(Some(t)) ==> (n == 0 ==> r == Some(t) && final(self).lexer == old(self).lexer),
    {
        let mut slot = None;
        std::mem::swap(&mut slot, &mut self.peeked);
        match slot {
            Some(None) => None,
            Some(Some(token)) => {
                if n == 0 {
                    Some(token)
                } else {
                    nth_token(&mut self.lexer, n - 1)
                }
            },
            None => nth_token(&mut self.lexer, n),
        }
    }

    /// Bounds on the number of tokens left: the token read ahead, if any,
    /// and nothing known beyond it.
    pub fn size_hint(&self) -> (r: (usize, Option<usize>))
        ensures
            self.peeked == Some(None::<Token>) ==> r == (0usize, Some(0usize)),
            self.peeked matches Some(Some(_)) ==> r == (1usize, None::<usize>),
            self.peeked is None ==> r == (0usize, None::<usize>),
    {
        match &self.peeked {
            Some(None) => (0, Some(0)),
            Some(Some(_)) => (1, None),
            None => (0, None),
        }
    }

    /// The extras of the lexer.
    pub fn extras(&mut self) -> (r: &mut Token::Extras)
        ensures
            *r == old(self).lexer.spec_extras(),
            final(self).lexer.spec_extras() == *final(r),
            final(self).lexer.spec_source() == old(self).lexer.spec_source(),
            final(self).lexer.token_begin() == old(self).lexer.token_begin(),
            final(self).lexer.token_finish() == old(self).lexer.token_finish(),
            final(self).lexer.current() == old(self).lexer.current(),
            final(self).peeked == old(self).peeked,
    {
        &mut self.lexer.extras
    }

    /// The range of the current token in the source.
    pub fn span(&self) -> (r: Span)
        ensures
            r.start == self.lexer.token_begin(),
            r.end == self.lexer.token_finish(),
    {
        self.lexer.span()
    }

    /// The current token's part of the source.
    pub fn slice(&self) -> (r: &'source Token::Source)
        requires
            self.lexer.wf(),
            self.lexer.spec_source().boundary(self.lexer.token_begin() as int),
            self.lexer.spec_source().boundary(self.lexer.token_finish() as int),
        ensures
            r.source_bytes() == self.lexer.spec_source().source_bytes().subrange(self.lexer.token_begin() as int, self.lexer.token_finish() as int),
    {
        self.lexer.slice()
    }
}

} // verus!
