//! The leaves of the graph: the tokens a matched input produces.

use vstd::prelude::*;

use std::cmp::Ordering;

use crate::graph::Disambiguate;
use crate::parser::{spec_stream_span, stream_span};
use crate::parsers::TokenTree;

verus! {

/// What runs when a leaf matches.
#[derive(PartialEq, Eq, Debug)]
pub enum Callback {
    /// No callback.
    Nothing,
    /// A function, by its path.
    Label(Vec<TokenTree>),
    /// A closure: its argument and its body.
    Inline(TokenTree, Vec<TokenTree>),
}

impl Callback {
    /// Where the callback was given: at its path, or at the parameter of
    /// its closure.
    pub fn span(&self) -> (r: Option<usize>)
        ensures
            match self {
                Callback::Nothing => r is None,
                Callback::Label(t) => r == Some(spec_stream_span(t@)),
                Callback::Inline(arg, _) => r == Some(arg.spec_span()),
            },
    {
        match self {
            Callback::Nothing => None,
            Callback::Label(t) => Some(stream_span(t)),
            Callback::Inline(arg, _) => Some(arg.span()),
        }
    }

    /// The callback naming `label`, if any.
    pub fn from_label(label: Option<Vec<TokenTree>>) -> (r: Callback)
        ensures
            match label {
                Some(l) => r == Callback::Label(l),
                None => r == Callback::Nothing,
            },
    {
        match label {
            Some(l) => Callback::Label(l),
            None => Callback::Nothing,
        }
    }
}

/// A token variant produced on a match: its name, its priority against
/// other leaves matching the same input, the type of the value it
/// carries, if any, and its callback.
#[derive(PartialEq, Eq, Debug)]
pub struct Leaf {
    pub ident: String,
    pub priority: usize,
    pub field: Option<String>,
    pub callback: Callback,
}

impl Leaf {
    /// The leaf of the variant `ident`: priority 0, no field, no callback.
    pub fn token(ident: String) -> (r: Leaf)
        ensures
            r == (Leaf { ident, priority: 0, field: None, callback: Callback::Nothing }),
    {
        Leaf { ident, priority: 0, field: None, callback: Callback::Nothing }
    }

    /// The same leaf with another callback.
    pub fn callback(self, callback: Callback) -> (r: Leaf)
        ensures
            r == (Leaf { callback, ..self }),
    {
        Leaf { callback, ..self }
    }

    /// The same leaf with another field type.
    pub fn field(self, field: Option<String>) -> (r: Leaf)
        ensures
            r == (Leaf { field, ..self }),
    {
        Leaf { field, ..self }
    }

    /// The same leaf with another priority.
    pub fn priority(self, priority: usize) -> (r: Leaf)
        ensures
            r == (Leaf { priority, ..self }),
    {
        Leaf { priority, ..self }
    }
}

impl Disambiguate for Leaf {
    /// Leaves rank by priority.
    open spec fn rank(&self) -> int {
        self.priority as int
    }

    fn cmp(left: &Leaf, right: &Leaf) -> (r: Ordering) {
        if left.priority < right.priority {
            Ordering::Less
        } else if left.priority == right.priority {
            Ordering::Equal
        } else {
            Ordering::Greater
        }
    }
}

/// A token variant as a leaf: its name, priority and callback.
#[derive(PartialEq, Eq, Debug)]
pub struct Token {
    pub ident: String,
    pub priority: usize,
    pub callback: Option<TokenTree>,
}

impl Token {
    /// The token of the variant `ident`: priority 0, no callback.
    pub fn new(ident: String) -> (r: Token)
        ensures
            r == (Token { ident, priority: 0, callback: None }),
    {
        Token { ident, priority: 0, callback: None }
    }

    /// The same token with another callback.
    pub fn callback(self, callback: Option<TokenTree>) -> (r: Token)
        ensures
            r == (Token { callback, ..self }),
    {
        Token { callback, ..self }
    }

    /// The same token with another priority.
    pub fn priority(self, priority: usize) -> (r: Token)
        ensures
            r == (Token { priority, ..self }),
    {
        Token { priority, ..self }
    }
}

impl Disambiguate for Token {
    /// Tokens rank by priority.
    open spec fn rank(&self) -> int {
        self.priority as int
    }

    fn cmp(left: &Token, right: &Token) -> (r: Ordering) {
        if left.priority < right.priority {
            Ordering::Less
        } else if left.priority == right.priority {
            Ordering::Equal
        } else {
            Ordering::Greater
        }
    }
}

} // verus!
