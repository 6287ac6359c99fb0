//! Rules on the arguments that a parsed line may have.

use crate::error::LangSyntaxError;
use crate::lang::LangCommand;
use crate::parser::command_parser::{SourceLine, SourceLineView};
use vstd::prelude::*;

verus! {

/// What is wrong with a line that must have no arguments, if anything.
pub open spec fn no_arguments_error(line: SourceLineView) -> Option<LangSyntaxError> {
    if line.arguments.len() != 0 {
        Some(LangSyntaxError::InstructionTakesZeroArguments)
    } else {
        None
    }
}

/// What is wrong with a line, if anything. `CODE` takes no arguments, no
/// other mnemonic has a rule yet, and a line without a mnemonic has no
/// arguments.
pub open spec fn line_error(line: SourceLineView) -> Option<LangSyntaxError> {
    match line.mnemonic {
        Some(LangCommand::CODE) => no_arguments_error(line),
        Some(_) => Some(LangSyntaxError::Other),
        None => if line.arguments.len() > 0 {
            Some(LangSyntaxError::UnexpectedArguments)
        } else {
            None
        },
    }
}

/// The errors of all lines, in the order of the lines.
pub open spec fn syntax_errors(lines: Seq<SourceLineView>) -> Seq<LangSyntaxError>
    decreases lines.len(),
{
    if lines.len() == 0 {
        Seq::empty()
    } else {
        let before = syntax_errors(lines.drop_last());
        match line_error(lines.last()) {
            Some(error) => before.push(error),
            None => before,
        }
    }
}

/// The views of a list of lines.
pub open spec fn line_views(lines: Seq<SourceLine>) -> Seq<SourceLineView> {
    lines.map_values(|line: SourceLine| line@)
}

/// There are at most as many errors as lines, and none exactly when no
/// line has one.
pub proof fn lemma_syntax_errors_count(lines: Seq<SourceLineView>)
    ensures
        syntax_errors(lines).len() <= lines.len(),
        syntax_errors(lines).len() == 0 <==> forall|i: int|
            0 <= i < lines.len() ==> line_error(#[trigger] lines[i]) is None,
    decreases lines.len(),
{
    if lines.len() > 0 {
        let shorter = lines.drop_last();
        lemma_syntax_errors_count(shorter);
        if syntax_errors(lines).len() == 0 {
            assert forall|i: int| 0 <= i < lines.len() implies line_error(
                #[trigger] lines[i],
            ) is None by {
                if i < shorter.len() {
                    assert(shorter[i] == lines[i]);
                }
            }
        } else if line_error(lines.last()) is None {
            let i = choose|i: int| 0 <= i < shorter.len() && !(line_error(shorter[i]) is None);
            assert(shorter[i] == lines[i]);
        }
    }
}

impl SourceLine {
    /// The error of a line that must have no arguments.
    pub fn no_args(&self) -> (error: Option<LangSyntaxError>)
        ensures
            error == no_arguments_error(self@),
    {
        if self.arguments.len() != 0 {
            Some(LangSyntaxError::InstructionTakesZeroArguments)
        } else {
            None
        }
    }
}

/// Checks one line against the rule of its mnemonic.
pub fn validate_source_line(line: &SourceLine) -> (error: Option<LangSyntaxError>)
    ensures
        error == line_error(line@),
{
    match line.mnemonic {
        Some(LangCommand::CODE) => line.no_args(),
        Some(_) => Some(LangSyntaxError::Other),
        None => {
            if line.arguments.len() > 0 {
                Some(LangSyntaxError::UnexpectedArguments)
            } else {
                None
            }
        },
    }
}

/// Checks every line and reports every error, in the order of the lines.
pub fn analyze_syntax(lines: &Vec<SourceLine>) -> (errors: Vec<LangSyntaxError>)
    ensures
        errors@ == syntax_errors(line_views(lines@)),
        errors@.len() <= lines@.len(),
{
    let mut errors: Vec<LangSyntaxError> = Vec::new();
    let ghost views = line_views(lines@);
    let mut i: usize = 0;
    assert(views.take(0) =~= Seq::<SourceLineView>::empty());
    while i < lines.len()
        invariant
            i <= lines@.len(),
            views == line_views(lines@),
            errors@ == syntax_errors(views.take(i as int)),
        decreases lines@.len() - i,
    {
        assert(views.take(i + 1).drop_last() =~= views.take(i as int));
        assert(views.take(i + 1).last() == lines@[i as int]@);
        if let Some(err) = validate_source_line(&lines[i]) {
            errors.push(err);
        }
        i += 1;
    }
    assert(views.take(i as int) =~= views);
    proof {
        lemma_syntax_errors_count(views);
    }
    errors
}

} // verus!
