//! From source text to parsed lines.

pub mod command_parser;
pub mod line_tokenizer;
pub mod source_parser;
