//! Error kinds reported by the parser and by the syntax analyzer.

use vstd::prelude::*;

verus! {

/// Why a single source line could not be parsed.
#[derive(Debug, Clone, Copy, PartialEq, Eq, Structural)]
pub enum LangParseError {
    DuplicateLabel,
    InvalidSymbolName,
    LabelNameExpected,
    PossibleForgottenColon,
    InvalidMnemonic,
    InvalidRegisterArgument,
    RegisterIndexOutOfBounds,
    InvalidConstantArgument,
    ConstantOutOfBounds,
    InvalidAddressArgument,
    AddressOutOfBounds,
    InvalidCharArgument,
    CharOutOfBounds,
    ExpectedComma,
    UnexpectedToken,
    Other,
}

/// Why a parsed line breaks the rules of its mnemonic.
#[derive(Debug, Clone, Copy, PartialEq, Eq, Structural)]
pub enum LangSyntaxError {
    InstructionTakesZeroArguments,
    UnexpectedArguments,
    Other,
}

} // verus!
