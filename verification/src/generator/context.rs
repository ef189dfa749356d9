//! The state a piece of generated code runs in: bytes read ahead, and
//! where to go back to when a match fails.

use vstd::prelude::*;

use crate::graph::NodeId;
use crate::text::{decimal, push_decimal, push_str};

verus! {

/// Bytes read ahead but not bumped yet, whether the lexer has been bumped
/// at all, and the node to backtrack to when a match fails.
#[derive(Clone, Copy, PartialEq, Eq, Hash, Debug, Structural)]
pub struct Context {
    /// Number of bytes read that have not been bumped yet.
    pub at: usize,
    /// Number of bytes available without bounds checks.
    pub available: usize,
    /// Whether the lexer has been bumped by at least one byte.
    pub bumped: bool,
    /// Node to backtrack to when an explicit match fails; without one an
    /// error token is produced.
    pub fallback: Option<NodeId>,
}

/// How the generated code reads its next input.
#[derive(Clone, Copy, PartialEq, Eq, Debug, Structural)]
pub enum Read {
    /// One byte at the current position.
    Byte,
    /// One byte, this many bytes ahead.
    ByteAt(usize),
    /// An array of this many bytes at the current position.
    Array(usize),
    /// An array of `.1` bytes, `.0` bytes ahead.
    ArrayAt(usize, usize),
}

/// Where the generated code goes when a match fails.
#[derive(Clone, Copy, PartialEq, Eq, Debug, Structural)]
pub enum MissTo {
    /// To the node, in the context.
    Goto(NodeId, Context),
    /// An error, the lexer having been bumped already.
    Error,
    /// An error token, bumping one byte.
    ErrorToken,
}

impl Default for Context {
    fn default() -> (r: Context)
        ensures
            r == (Context { at: 0, available: 0, bumped: false, fallback: None }),
    {
        Context { at: 0, available: 0, bumped: false, fallback: None }
    }
}

/// The name suffix of a context: `_at` and the bytes read ahead when
/// there are any, `_ctx` and the fallback's id when there is one, and
/// `_x` when the lexer has been bumped.
pub open spec fn suffix(ctx: Context) -> Seq<char> {
    (if ctx.at > 0 { "_at"@ + decimal(ctx.at as nat) } else { Seq::empty() }) + (match ctx.fallback {
        Some(id) => "_ctx"@ + decimal(id.index()),
        None => Seq::empty(),
    }) + (if ctx.bumped { "_x"@ } else { Seq::empty() })
}

impl Context {
    /// The context to backtrack in: nothing read ahead or available, no
    /// fallback, bumped as before.
    pub fn backtrack(self) -> (r: Context)
        ensures
            r == (Context { at: 0, available: 0, bumped: self.bumped, fallback: None }),
    {
        Context { at: 0, available: 0, bumped: self.bumped, fallback: None }
    }

    /// Whether there is a node to backtrack to.
    pub fn has_fallback(&self) -> (r: bool)
        ensures
            r == self.fallback is Some,
    {
        self.fallback.is_some()
    }

    /// Make `miss`, if any, the node to backtrack to, and bump what was
    /// read ahead.
    pub fn switch(&mut self, miss: Option<NodeId>) -> (r: Option<usize>)
        ensures
            final(self).fallback == (match miss {
                Some(id) => Some(id),
                None => old(self).fallback,
            }),
            final(self).available == old(self).available,
            final(self).at == 0,
            final(self).bumped == (old(self).bumped || old(self).at > 0),
            r == (if old(self).at == 0 { None } else { Some(old(self).at) }),
    {
        if let Some(miss) = miss {
            self.fallback = Some(miss);
        }
        self.bump()
    }

    /// `n` more bytes read ahead.
    pub fn advance(self, n: usize) -> (r: Context)
        requires
            self.at + n <= usize::MAX,
        ensures
            r == (Context { at: (self.at + n) as usize, ..self }),
    {
        Context { at: self.at + n, ..self }
    }

    /// Bump what was read ahead: returns how many bytes, none when nothing
    /// was read ahead.
    pub fn bump(&mut self) -> (r: Option<usize>)
        ensures
            old(self).at == 0 ==> r is None && *final(self) == *old(self),
            old(self).at > 0 ==> r == Some(old(self).at) && *final(self) == (Context {
                at: 0,
                bumped: true,
                ..*old(self)
            }),
    {
        if self.at == 0 {
            None
        } else {
            let n = self.at;
            self.at = 0;
            self.bumped = true;
            Some(n)
        }
    }

    /// How to read `len` bytes (one byte when `len` is 0) past what was
    /// read ahead.
    pub fn read(&self, len: usize) -> (r: Read)
        ensures
            r == (if self.at == 0 {
                if len == 0 { Read::Byte } else { Read::Array(len) }
            } else {
                if len == 0 { Read::ByteAt(self.at) } else { Read::ArrayAt(self.at, len) }
            }),
    {
        if self.at == 0 {
            if len == 0 {
                Read::Byte
            } else {
                Read::Array(len)
            }
        } else {
            if len == 0 {
                Read::ByteAt(self.at)
            } else {
                Read::ArrayAt(self.at, len)
            }
        }
    }

    /// Where a failed match goes: to `miss` in this context when there is
    /// one, else to the fallback in the backtracking context, else to an
    /// error (an error token when the lexer has not been bumped).
    pub fn miss(self, miss: Option<NodeId>) -> (r: MissTo)
        ensures
            r == (match (miss, self.fallback) {
                (Some(id), _) => MissTo::Goto(id, self),
                (None, Some(id)) => MissTo::Goto(id, Context { at: 0, available: 0, bumped: self.bumped, fallback: None }),
                (None, None) => if self.bumped { MissTo::Error } else { MissTo::ErrorToken },
            }),
    {
        match (miss, self.fallback) {
            (Some(id), _) => MissTo::Goto(id, self),
            (None, Some(id)) => MissTo::Goto(id, self.backtrack()),
            (None, None) => if self.bumped {
                MissTo::Error
            } else {
                MissTo::ErrorToken
            },
        }
    }

    /// Append the context's name suffix to `buf`.
    pub fn write_suffix(&self, buf: &mut String)
        ensures
            final(buf)@ == old(buf)@ + suffix(*self),
    {
        let ghost start = buf@;
        if self.at > 0 {
            push_str(buf, "_at");
            push_decimal(buf, self.at as u64);
        }
        let ghost after_at = buf@;
        if let Some(id) = self.fallback {
            push_str(buf, "_ctx");
            push_decimal(buf, id.get() as u64);
        }
        let ghost after_ctx = buf@;
        if self.bumped {
            push_str(buf, "_x");
        }
        proof {
            let a: Seq<char> = if self.at > 0 { "_at"@ + decimal(self.at as nat) } else { Seq::empty() };
            let b: Seq<char> = match self.fallback {
                Some(id) => "_ctx"@ + decimal(id.index()),
                None => Seq::empty(),
            };
            let c: Seq<char> = if self.bumped { "_x"@ } else { Seq::empty() };
            assert(after_at =~= start + a);
            assert(after_ctx =~= start + a + b);
            assert(buf@ =~= start + a + b + c);
        }
    }
}

} // verus!
