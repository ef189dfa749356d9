//! Errors reported while turning token definitions into a graph.

use vstd::prelude::*;

use crate::graph::GraphError;

verus! {

/// A regex feature that the state graph cannot express.
#[derive(Clone, Copy, PartialEq, Eq, Debug, Structural)]
pub enum Unsupported {
    /// `*?`, `+?` and the like.
    NonGreedy,
    /// `{n}`, `{n,}` and `{n,m}`.
    RepetitionRange,
    /// `\b` and the like.
    WordBoundary,
    /// `^`, `$` and the like.
    Anchor,
}

impl Unsupported {
    /// The message reported for the feature.
    pub fn message(&self) -> (r: &'static str)
        ensures
            *self == Unsupported::NonGreedy ==> r@ == "#[regex]: non-greedy parsing is currently unsupported."@,
            *self == Unsupported::RepetitionRange ==> r@ == "#[regex]: {n,m} repetition range is currently unsupported."@,
            *self == Unsupported::WordBoundary ==> r@ == "#[regex]: word boundaries are currently unsupported."@,
            *self == Unsupported::Anchor ==> r@ == "#[regex]: anchors in #[regex] are currently unsupported."@,
    {
        match self {
            Unsupported::NonGreedy => "#[regex]: non-greedy parsing is currently unsupported.",
            Unsupported::RepetitionRange => "#[regex]: {n,m} repetition range is currently unsupported.",
            Unsupported::WordBoundary => "#[regex]: word boundaries are currently unsupported.",
            Unsupported::Anchor => "#[regex]: anchors in #[regex] are currently unsupported.",
        }
    }
}

/// Why a `#[regex]` could not be added to the graph.
#[derive(Debug)]
pub enum Error {
    /// The pattern does not parse; the parser's message.
    Syntax(String),
    /// The pattern uses a feature the graph cannot express.
    Unsupported(Unsupported),
    /// Building the graph failed.
    Graph(GraphError),
}

} // verus!
