//! The compiler's front end: it holds a source text and parses it.

pub mod syntax_analyzer;

use crate::parser::source_parser::{parse_source, parse_text, LangParsingArtifact};
use vstd::prelude::*;

verus! {

/// Limits that a compilation is held to.
#[derive(Debug, Clone, Copy, PartialEq, Eq, Structural)]
pub struct RiscCompilerConfig {
    pub max_instruction_count: usize,
}

impl Default for RiscCompilerConfig {
    /// At most 256 instructions.
    fn default() -> (config: Self)
        ensures
            config.max_instruction_count == 256,
    {
        Self { max_instruction_count: 256 }
    }
}

/// A source text, and what parsing it has yielded, once it has been parsed.
pub struct RiscCompiler {
    pub code: String,
    pub parsed: Option<LangParsingArtifact>,
    pub config: RiscCompilerConfig,
}

impl RiscCompiler {
    /// A compiler for `code` that has not parsed it yet.
    pub fn new(code: String, config: RiscCompilerConfig) -> (compiler: Self)
        ensures
            compiler.code == code,
            compiler.parsed is None,
            compiler.config == config,
    {
        Self { code, parsed: None, config }
    }

    /// Parses the source text and keeps the artifact.
    pub fn parse(&mut self)
        ensures
            final(self).code == old(self).code,
            final(self).config == old(self).config,
            final(self).parsed is Some,
            final(self).parsed->Some_0@ == parse_text(old(self).code@),
    {
        let artifact = parse_source(self.code.as_str());
        self.parsed = Some(artifact);
    }

    /// Compiles the source text, which so far is to parse it.
    pub fn compile(&mut self)
        ensures
            final(self).code == old(self).code,
            final(self).config == old(self).config,
            final(self).parsed is Some,
            final(self).parsed->Some_0@ == parse_text(old(self).code@),
    {
        self.parse();
    }
}

} // verus!
