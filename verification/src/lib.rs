//! Verified core of the Logos lexer generator: byte patterns, pattern
//! sequences, the state graph that token definitions are compiled into,
//! and the runtime helpers the generated lexers rely on.

pub mod assemble;
pub mod error;
pub mod generator;
pub mod graph;
pub mod internal;
pub mod hash;
pub mod leaf;
pub mod lexer;
pub mod parser;
pub mod parsers;
pub mod pattern;
pub mod regex;
pub mod source;
pub mod syntax;
pub mod text;
pub mod util;
