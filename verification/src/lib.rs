//! Line-oriented parser for a small assembly-style language.
//!
//! A source text is split into lines, each line into tokens, and the tokens
//! of a line are parsed into an optional label, an optional mnemonic and a
//! list of typed operands. Malformed text is reported line by line.

pub mod compiler;
pub mod error;
pub mod interpreter;
pub mod lang;
pub mod parser;
pub mod text;
