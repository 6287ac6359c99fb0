//! The interpreter: so far it only takes a program apart.

use crate::text::{split_on, split_text};
use vstd::prelude::*;

verus! {

/// A program, held as the pieces between its spaces.
pub struct RiscInterpreter {
    pub source_lines: Vec<String>,
}

impl RiscInterpreter {
    /// Takes `code` apart at every space. Two spaces in a row, or a space
    /// at either end, leave an empty piece.
    pub fn new(code: String) -> (interpreter: Self)
        ensures
            interpreter.source_lines.deep_view() == split_on(code@, ' '),
    {
        Self { source_lines: split_text(code.as_str(), ' ') }
    }
}

} // verus!
