//! What the callbacks of token definitions may return, and what the lexer
//! makes of it.

use vstd::prelude::*;

verus! {

/// Returned by a callback to skip the current match.
#[derive(Clone, Copy, PartialEq, Eq, Debug, Structural)]
pub struct Skip;

/// Returned by a callback: a value for the token, or skip the match.
#[derive(Clone, Copy, PartialEq, Eq, Debug)]
pub enum Filter<T> {
    /// Emit a token with this value.
    Emit(T),
    /// Skip the current match.
    Skip,
}

/// Returned by a callback: a value for the token, skip the match, or an
/// error.
#[derive(Clone, Copy, PartialEq, Eq, Debug)]
pub enum FilterResult<T, E> {
    /// Emit a token with this value.
    Emit(T),
    /// Skip the current match.
    Skip,
    /// Emit this error.
    Error(E),
}

/// What the lexer does after a callback: emit a token, emit an error,
/// emit the default error, or skip the match.
#[derive(Clone, Copy, PartialEq, Eq, Debug)]
pub enum CallbackResult<L, E> {
    Emit(L),
    Error(E),
    DefaultError,
    Skip,
}

/// What the lexer does after a callback of a skipped definition.
#[derive(Clone, Copy, PartialEq, Eq, Debug)]
pub enum SkipResult<E> {
    Skip,
    Error(E),
}

impl<E> SkipResult<E> {
    /// The same outcome as a callback result.
    pub fn into_callback<L>(self) -> (r: CallbackResult<L, E>)
        ensures
            match self {
                SkipResult::Skip => r == CallbackResult::<L, E>::Skip,
                SkipResult::Error(e) => r == CallbackResult::<L, E>::Error(e),
            },
    {
        match self {
            SkipResult::Skip => CallbackResult::Skip,
            SkipResult::Error(e) => CallbackResult::Error(e),
        }
    }
}

impl<T> Filter<T> {
    /// Emit the token `con` makes of the value, or skip.
    pub fn construct<L, E, C: Fn(T) -> L>(self, con: C) -> (r: CallbackResult<L, E>)
        requires
            self matches Filter::Emit(v) ==> con.requires((v,)),
        ensures
            match self {
                Filter::Emit(v) => r matches CallbackResult::Emit(l) && con.ensures((v,), l),
                Filter::Skip => r is Skip,
            },
    {
        match self {
            Filter::Emit(v) => CallbackResult::Emit(con(v)),
            Filter::Skip => CallbackResult::Skip,
        }
    }
}

impl<T, E> FilterResult<T, E> {
    /// Emit the token `con` makes of the value, skip, or emit the error.
    pub fn construct<L, C: Fn(T) -> L>(self, con: C) -> (r: CallbackResult<L, E>)
        requires
            self matches FilterResult::Emit(v) ==> con.requires((v,)),
        ensures
            match self {
                FilterResult::Emit(v) => r matches CallbackResult::Emit(l) && con.ensures((v,), l),
                FilterResult::Skip => r is Skip,
                FilterResult::Error(e) => r == CallbackResult::<L, E>::Error(e),
            },
    {
        match self {
            FilterResult::Emit(v) => CallbackResult::Emit(con(v)),
            FilterResult::Skip => CallbackResult::Skip,
            FilterResult::Error(e) => CallbackResult::Error(e),
        }
    }
}

/// A callback's `Option`: a value makes a token, nothing is the default
/// error.
pub fn from_option<T, L, E, C: Fn(T) -> L>(value: Option<T>, con: C) -> (r: CallbackResult<L, E>)
    requires
        value matches Some(v) ==> con.requires((v,)),
    ensures
        match value {
            Some(v) => r matches CallbackResult::Emit(l) && con.ensures((v,), l),
            None => r is DefaultError,
        },
{
    match value {
        Some(v) => CallbackResult::Emit(con(v)),
        None => CallbackResult::DefaultError,
    }
}

/// A callback's `Result`: a value makes a token, an error is emitted.
pub fn from_result<T, L, E, C: Fn(T) -> L>(value: Result<T, E>, con: C) -> (r: CallbackResult<L, E>)
    requires
        value matches Ok(v) ==> con.requires((v,)),
    ensures
        match value {
            Ok(v) => r matches CallbackResult::Emit(l) && con.ensures((v,), l),
            Err(e) => r == CallbackResult::<L, E>::Error(e),
        },
{
    match value {
        Ok(v) => CallbackResult::Emit(con(v)),
        Err(e) => CallbackResult::Error(e),
    }
}

/// A callback's `bool` for a unit token: `true` makes the token, `false`
/// is the default error.
pub fn from_bool<L, E>(value: bool, token: L) -> (r: CallbackResult<L, E>)
    ensures
        r == (if value { CallbackResult::<L, E>::Emit(token) } else { CallbackResult::<L, E>::DefaultError }),
{
    if value {
        CallbackResult::Emit(token)
    } else {
        CallbackResult::DefaultError
    }
}

/// A callback's `Result<Skip, _>`: skip, or emit the error.
pub fn from_skip_result<L, E>(value: Result<Skip, E>) -> (r: CallbackResult<L, E>)
    ensures
        match value {
            Ok(_) => r == CallbackResult::<L, E>::Skip,
            Err(e) => r == CallbackResult::<L, E>::Error(e),
        },
{
    match value {
        Ok(_) => CallbackResult::Skip,
        Err(e) => CallbackResult::Error(e),
    }
}

/// A skip callback's `Result<(), _>`: skip, or emit the error.
pub fn skip_from_result<E>(value: Result<(), E>) -> (r: SkipResult<E>)
    ensures
        match value {
            Ok(_) => r == SkipResult::<E>::Skip,
            Err(e) => r == SkipResult::<E>::Error(e),
        },
{
    match value {
        Ok(_) => SkipResult::Skip,
        Err(e) => SkipResult::Error(e),
    }
}

/// The predefined callback that skips a definition.
pub fn skip() -> (r: Skip)
    ensures
        r == Skip,
{
    Skip
}

} // verus!
