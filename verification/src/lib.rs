//! A verified interpreter for a minimal eight-instruction tape language.
//!
//! The pipeline has three stages, each consuming the previous one's output:
//! lexical filtering of source text into tokens ([`lexer`]), structural
//! parsing of tokens into a nested instruction tree ([`parser`]), and
//! tree-walking execution against a fixed-size byte tape ([`interp`]).

pub mod lexer;
pub mod parser;
pub mod interp;
