//! Parsing the tokens of one line into a label, a mnemonic and arguments.
//!
//! The parser reads the tokens from left to right. What it has built so far
//! is a [`ParserState`]; [`parse_token`] says what one token does to it, with
//! one token of lookahead to tell a label from a mnemonic, and [`parse_line`]
//! is the outcome for a whole line.

use crate::error::LangParseError;
use crate::lang::{
    decode_literal, is_symbol_char, is_symbol_name, lemma_decoded_is_well_formed,
    symbol_name_error, LangCommand, LangLiteral, LiteralValue,
};
use crate::parser::line_tokenizer::{line_tokens, tokenize_source_line};
use crate::text::{result_view, str_equal};
use vstd::prelude::*;

verus! {

/// One parsed line.
pub struct SourceLine {
    pub label: Option<String>,
    pub mnemonic: Option<LangCommand>,
    pub arguments: Vec<LangLiteral>,
}

/// What a parsed line holds.
pub struct SourceLineView {
    pub label: Option<Seq<char>>,
    pub mnemonic: Option<LangCommand>,
    pub arguments: Seq<LiteralValue>,
}

/// The values of a list of operands.
pub open spec fn literal_values(arguments: Seq<LangLiteral>) -> Seq<LiteralValue> {
    arguments.map_values(|argument: LangLiteral| argument@)
}

impl View for SourceLine {
    type V = SourceLineView;

    open spec fn view(&self) -> SourceLineView {
        SourceLineView {
            label: match self.label {
                Some(label) => Some(label@),
                None => None,
            },
            mnemonic: self.mnemonic,
            arguments: literal_values(self.arguments@),
        }
    }
}

impl SourceLineView {
    /// A label is a symbol name, every argument is well formed, and only a
    /// line with a mnemonic has arguments.
    pub open spec fn well_formed(self) -> bool {
        &&& self.label is Some ==> is_symbol_name(self.label->Some_0)
        &&& self.mnemonic is None ==> self.arguments.len() == 0
        &&& forall|i: int|
            0 <= i < self.arguments.len() ==> (#[trigger] self.arguments[i]).well_formed()
    }
}

/// What the parser has built after some tokens of a line.
pub struct ParserState {
    pub line: SourceLineView,
    /// The previous token was an argument: a comma must follow.
    pub last_token_was_argument: bool,
    /// The previous token was a label: its colon must follow.
    pub last_token_was_label: bool,
}

/// The parser's working state.
pub struct LangCommandParserContext {
    pub line: SourceLine,
    pub last_token_was_argument: bool,
    pub last_token_was_label: bool,
}

impl View for LangCommandParserContext {
    type V = ParserState;

    open spec fn view(&self) -> ParserState {
        ParserState {
            line: self.line@,
            last_token_was_argument: self.last_token_was_argument,
            last_token_was_label: self.last_token_was_label,
        }
    }
}

/// One token of a line, together with the line's tokens and its place
/// among them.
pub struct LangCommandParserTokenContext<'src> {
    pub at_index: usize,
    pub at_token: &'src str,
    pub tokens: &'src Vec<String>,
}

/// The token before position `index`, if there is one.
pub open spec fn token_before(tokens: Seq<Seq<char>>, index: int) -> Option<Seq<char>> {
    if 1 <= index <= tokens.len() {
        Some(tokens[index - 1])
    } else {
        None
    }
}

/// The token after position `index`, if there is one.
pub open spec fn token_after(tokens: Seq<Seq<char>>, index: int) -> Option<Seq<char>> {
    if 0 <= index && index + 1 < tokens.len() {
        Some(tokens[index + 1])
    } else {
        None
    }
}

/// The characters of an optional string.
pub open spec fn optional_text(text: Option<&str>) -> Option<Seq<char>> {
    match text {
        Some(text) => Some(text@),
        None => None,
    }
}

impl<'src> LangCommandParserTokenContext<'src> {
    /// The token before this one, if there is one.
    pub fn previous_token(&self) -> (token: Option<&'src str>)
        ensures
            optional_text(token) == token_before(self.tokens.deep_view(), self.at_index as int),
    {
        if self.at_index != 0 && self.at_index - 1 < self.tokens.len() {
            Some(self.tokens[self.at_index - 1].as_str())
        } else {
            None
        }
    }

    /// The token after this one, if there is one.
    pub fn next_token(&self) -> (token: Option<&'src str>)
        ensures
            optional_text(token) == token_after(self.tokens.deep_view(), self.at_index as int),
    {
        if self.tokens.len() > 0 && self.at_index < self.tokens.len() - 1 {
            Some(self.tokens[self.at_index + 1].as_str())
        } else {
            None
        }
    }
}

/// The state before the first token of a line.
pub open spec fn initial_state() -> ParserState {
    ParserState {
        line: SourceLineView { label: None, mnemonic: None, arguments: Seq::empty() },
        last_token_was_argument: false,
        last_token_was_label: false,
    }
}

/// The state with `token` as the line's label, if it is a symbol name.
pub open spec fn expect_label(state: ParserState, token: Seq<char>) -> Result<
    ParserState,
    LangParseError,
> {
    match symbol_name_error(token) {
        Some(error) => Err(error),
        None => Ok(
            ParserState {
                line: SourceLineView { label: Some(token), ..state.line },
                last_token_was_label: true,
                ..state
            },
        ),
    }
}

/// The state with `token` as the line's mnemonic, if it is a keyword. A
/// token that is no keyword is passed over when `next` is a colon, and is
/// an invalid mnemonic otherwise.
pub open spec fn expect_mnemonic(
    state: ParserState,
    token: Seq<char>,
    next: Option<Seq<char>>,
) -> Result<ParserState, LangParseError> {
    match LangCommand::from_keyword(token) {
        Some(mnemonic) => Ok(
            ParserState {
                line: SourceLineView { mnemonic: Some(mnemonic), ..state.line },
                ..state
            },
        ),
        None => if next == Some(":"@) {
            Ok(state)
        } else {
            Err(LangParseError::InvalidMnemonic)
        },
    }
}

/// What a token in argument position does: a comma must follow an
/// argument, and an argument must not.
pub open spec fn expect_argument(state: ParserState, token: Seq<char>) -> Result<
    ParserState,
    LangParseError,
> {
    if token == ","@ {
        if state.last_token_was_argument {
            Ok(ParserState { last_token_was_argument: false, last_token_was_label: false, ..state })
        } else {
            Err(LangParseError::UnexpectedToken)
        }
    } else if state.last_token_was_argument {
        Err(LangParseError::ExpectedComma)
    } else {
        match decode_literal(token) {
            Ok(argument) => Ok(
                ParserState {
                    line: SourceLineView {
                        arguments: state.line.arguments.push(argument),
                        ..state.line
                    },
                    last_token_was_argument: true,
                    last_token_was_label: false,
                },
            ),
            Err(error) => Err(error),
        }
    }
}

/// The state after the token at `index`, or why that token is refused.
pub open spec fn parse_token(state: ParserState, tokens: Seq<Seq<char>>, index: int) -> Result<
    ParserState,
    LangParseError,
>
    recommends
        0 <= index < tokens.len(),
{
    let token = tokens[index];
    let next = token_after(tokens, index);
    if token == ":"@ {
        if state.last_token_was_label {
            Ok(ParserState { last_token_was_argument: false, last_token_was_label: false, ..state })
        } else {
            Err(LangParseError::UnexpectedToken)
        }
    } else if state.line.label is None && state.line.mnemonic is None && next == Some(":"@) {
        match expect_label(state, token) {
            Ok(labelled) => Ok(ParserState { last_token_was_argument: false, ..labelled }),
            Err(error) => Err(error),
        }
    } else if state.line.mnemonic is None {
        match expect_mnemonic(state, token, next) {
            Ok(named) => Ok(
                ParserState { last_token_was_argument: false, last_token_was_label: false, ..named },
            ),
            Err(error) => Err(error),
        }
    } else {
        expect_argument(state, token)
    }
}

/// The state after the tokens from `index` on, or the first refusal.
pub open spec fn parse_from(state: ParserState, tokens: Seq<Seq<char>>, index: int) -> Result<
    ParserState,
    LangParseError,
>
    decreases tokens.len() - index,
{
    if 0 <= index < tokens.len() {
        match parse_token(state, tokens, index) {
            Ok(next) => parse_from(next, tokens, index + 1),
            Err(error) => Err(error),
        }
    } else {
        Ok(state)
    }
}

/// The line that `tokens` write, or the first refusal.
pub open spec fn parse_tokens(tokens: Seq<Seq<char>>) -> Result<SourceLineView, LangParseError> {
    match parse_from(initial_state(), tokens, 0) {
        Ok(state) => Ok(state.line),
        Err(error) => Err(error),
    }
}

/// The line that `line` writes, or why it is malformed.
pub open spec fn parse_line(line: Seq<char>) -> Result<SourceLineView, LangParseError> {
    parse_tokens(line_tokens(line))
}

/// One token keeps the line under construction well formed.
pub proof fn lemma_parse_token_well_formed(state: ParserState, tokens: Seq<Seq<char>>, index: int)
    requires
        state.line.well_formed(),
        0 <= index < tokens.len(),
        parse_token(state, tokens, index) is Ok,
    ensures
        parse_token(state, tokens, index)->Ok_0.line.well_formed(),
{
    lemma_decoded_is_well_formed(tokens[index]);
}

/// The remaining tokens keep the line under construction well formed.
pub proof fn lemma_parse_from_well_formed(state: ParserState, tokens: Seq<Seq<char>>, index: int)
    requires
        state.line.well_formed(),
        parse_from(state, tokens, index) is Ok,
    ensures
        parse_from(state, tokens, index)->Ok_0.line.well_formed(),
    decreases tokens.len() - index,
{
    if 0 <= index < tokens.len() {
        lemma_parse_token_well_formed(state, tokens, index);
        lemma_parse_from_well_formed(parse_token(state, tokens, index)->Ok_0, tokens, index + 1);
    }
}

/// Every line that parses is well formed.
pub proof fn lemma_parsed_line_well_formed(line: Seq<char>)
    requires
        parse_line(line) is Ok,
    ensures
        parse_line(line)->Ok_0.well_formed(),
{
    lemma_parse_from_well_formed(initial_state(), line_tokens(line), 0);
}

/// The error kinds that parsing a line can yield: those of a label or
/// symbol name, of a mnemonic, of a register, constant or address, and of a
/// misplaced token. The remaining kinds are kept for later stages: no line
/// is refused with one of them.
pub open spec fn is_line_error(error: LangParseError) -> bool {
    error == LangParseError::InvalidSymbolName || error == LangParseError::LabelNameExpected
        || error == LangParseError::InvalidMnemonic || error
        == LangParseError::InvalidRegisterArgument || error
        == LangParseError::RegisterIndexOutOfBounds || error
        == LangParseError::InvalidConstantArgument || error == LangParseError::ConstantOutOfBounds
        || error == LangParseError::InvalidAddressArgument || error
        == LangParseError::AddressOutOfBounds || error == LangParseError::ExpectedComma || error
        == LangParseError::UnexpectedToken
}

/// The remaining tokens are refused with one of the line error kinds only.
pub proof fn lemma_parse_from_errors(state: ParserState, tokens: Seq<Seq<char>>, index: int)
    requires
        parse_from(state, tokens, index) is Err,
    ensures
        is_line_error(parse_from(state, tokens, index)->Err_0),
    decreases tokens.len() - index,
{
    if 0 <= index < tokens.len() {
        if parse_token(state, tokens, index) is Ok {
            lemma_parse_from_errors(parse_token(state, tokens, index)->Ok_0, tokens, index + 1);
        }
    }
}

/// A line is refused with one of the line error kinds only.
pub proof fn lemma_line_errors(line: Seq<char>)
    requires
        parse_line(line) is Err,
    ensures
        is_line_error(parse_line(line)->Err_0),
{
    lemma_parse_from_errors(initial_state(), line_tokens(line), 0);
}

/// The tokens of an operand list: the operands, with a comma between each
/// two of them.
pub open spec fn comma_separated(operands: Seq<Seq<char>>) -> Seq<Seq<char>>
    decreases operands.len(),
{
    if operands.len() == 0 {
        Seq::empty()
    } else if operands.len() == 1 {
        seq![operands[0]]
    } else {
        comma_separated(operands.drop_last()).push(","@).push(operands.last())
    }
}

/// The values that a list of operand tokens decodes to.
pub open spec fn decoded_values(operands: Seq<Seq<char>>) -> Seq<LiteralValue> {
    operands.map_values(|operand: Seq<char>| decode_literal(operand)->Ok_0)
}

/// In an operand list the operands stand at the even places and the commas
/// at the odd ones.
pub proof fn lemma_comma_separated(operands: Seq<Seq<char>>)
    ensures
        operands.len() == 0 ==> comma_separated(operands).len() == 0,
        operands.len() > 0 ==> comma_separated(operands).len() == 2 * operands.len() - 1,
        forall|k: int|
            0 <= k < operands.len() ==> comma_separated(operands)[2 * k] == #[trigger] operands[k],
        forall|k: int|
            0 <= k < operands.len() - 1 ==> #[trigger] comma_separated(operands)[2 * k + 1] == ","@,
    decreases operands.len(),
{
    if operands.len() > 1 {
        let shorter = operands.drop_last();
        lemma_comma_separated(shorter);
        let tokens = comma_separated(operands);
        assert forall|k: int| 0 <= k < operands.len() implies tokens[2 * k]
            == #[trigger] operands[k] by {
            if k < shorter.len() {
                assert(shorter[k] == operands[k]);
            }
        }
        assert forall|k: int| 0 <= k < operands.len() - 1 implies #[trigger] tokens[2 * k + 1]
            == ","@ by {
            if k < shorter.len() - 1 {
                assert(comma_separated(shorter)[2 * k + 1] == ","@);
            }
        }
    }
}

/// A comma and a colon decode to no operand.
pub proof fn lemma_punctuation_is_no_operand()
    ensures
        decode_literal(","@) is Err,
        decode_literal(":"@) is Err,
        ","@ != ":"@,
{
    reveal_strlit(",");
    reveal_strlit(":");
    assert(!is_symbol_char(","@[0]));
    assert(!is_symbol_char(":"@[0]));
}

/// The state of an instruction line after `count` of its operands, with a
/// comma read after the last of them unless it is the last of all.
pub open spec fn after_operands(
    mnemonic: LangCommand,
    operands: Seq<Seq<char>>,
    count: int,
) -> ParserState {
    ParserState {
        line: SourceLineView {
            label: None,
            mnemonic: Some(mnemonic),
            arguments: decoded_values(operands).take(count),
        },
        last_token_was_argument: count > 0 && count == operands.len(),
        last_token_was_label: false,
    }
}

/// From the operand at place `count` on, an instruction line parses to the
/// end, and all its operands are then its arguments.
proof fn lemma_operands_parse(mnemonic: LangCommand, operands: Seq<Seq<char>>, count: int)
    requires
        0 <= count < operands.len(),
        forall|i: int| 0 <= i < operands.len() ==> decode_literal(#[trigger] operands[i]) is Ok,
    ensures
        parse_from(
            after_operands(mnemonic, operands, count),
            seq![mnemonic.keyword()] + comma_separated(operands),
            1 + 2 * count,
        ) == Ok::<ParserState, LangParseError>(
            after_operands(mnemonic, operands, operands.len() as int),
        ),
    decreases operands.len() - count,
{
    let separated = comma_separated(operands);
    let tokens = seq![mnemonic.keyword()] + separated;
    let values = decoded_values(operands);
    let state = after_operands(mnemonic, operands, count);
    lemma_comma_separated(operands);
    lemma_punctuation_is_no_operand();
    let at = 1 + 2 * count;
    assert(tokens[at] == separated[2 * count]);
    assert(tokens[at] == operands[count]);
    assert(decode_literal(operands[count]) is Ok);
    assert(!state.last_token_was_argument);
    let read = ParserState {
        line: SourceLineView {
            label: None,
            mnemonic: Some(mnemonic),
            arguments: values.take(count + 1),
        },
        last_token_was_argument: true,
        last_token_was_label: false,
    };
    assert(values.take(count).push(values[count]) =~= values.take(count + 1));
    assert(parse_token(state, tokens, at) == Ok::<ParserState, LangParseError>(read));
    if count + 1 == operands.len() {
        assert(at + 1 == tokens.len());
        assert(read == after_operands(mnemonic, operands, operands.len() as int));
        assert(parse_from(read, tokens, at + 1) == Ok::<ParserState, LangParseError>(read));
    } else {
        assert(tokens[at + 1] == separated[2 * count + 1]);
        assert(tokens[at + 1] == ","@);
        let next = after_operands(mnemonic, operands, count + 1);
        assert(parse_token(read, tokens, at + 1) == Ok::<ParserState, LangParseError>(next));
        lemma_operands_parse(mnemonic, operands, count + 1);
        assert(parse_from(read, tokens, at + 1) == parse_from(next, tokens, at + 2));
    }
}

/// A line made of a keyword and operands separated by commas parses to
/// that mnemonic with those operands, decoded, in their order, and to no
/// label.
pub proof fn lemma_instruction_line(mnemonic: LangCommand, operands: Seq<Seq<char>>)
    requires
        forall|i: int| 0 <= i < operands.len() ==> decode_literal(#[trigger] operands[i]) is Ok,
    ensures
        parse_tokens(seq![mnemonic.keyword()] + comma_separated(operands)) == Ok::<
            SourceLineView,
            LangParseError,
        >(
            SourceLineView {
                label: None,
                mnemonic: Some(mnemonic),
                arguments: decoded_values(operands),
            },
        ),
{
    let separated = comma_separated(operands);
    let tokens = seq![mnemonic.keyword()] + separated;
    let values = decoded_values(operands);
    lemma_comma_separated(operands);
    lemma_punctuation_is_no_operand();
    LangCommand::lemma_keywords();
    LangCommand::lemma_keyword_round_trip(mnemonic, mnemonic.keyword());
    reveal_strlit(":");
    assert(tokens[0] == mnemonic.keyword());
    assert(tokens[0] != ":"@);
    let start = after_operands(mnemonic, operands, 0);
    assert(values.take(0) =~= Seq::<LiteralValue>::empty());
    if operands.len() > 0 {
        assert(tokens[1] == separated[0]);
        assert(tokens[1] == operands[0]);
        assert(decode_literal(operands[0]) is Ok);
    }
    assert(token_after(tokens, 0) != Some(":"@));
    assert(parse_token(initial_state(), tokens, 0) == Ok::<ParserState, LangParseError>(start));
    if operands.len() > 0 {
        lemma_operands_parse(mnemonic, operands, 0);
        assert(values.take(operands.len() as int) =~= values);
    } else {
        assert(parse_from(start, tokens, 1) == Ok::<ParserState, LangParseError>(start));
        assert(values =~= Seq::<LiteralValue>::empty());
    }
}

/// Takes the current token as the line's label.
pub fn handle_expected_label(
    ctx: LangCommandParserContext,
    token_ctx: &LangCommandParserTokenContext,
) -> (result: Result<LangCommandParserContext, LangParseError>)
    ensures
        result_view(result) == expect_label(ctx@, token_ctx.at_token@),
{
    let mut ctx = ctx;
    match LangLiteral::validate_symbol_name(token_ctx.at_token) {
        Ok(name) => {
            ctx.line.label = Some(name.to_owned());
            ctx.last_token_was_label = true;
            Ok(ctx)
        },
        Err(error) => Err(error),
    }
}

/// Takes the current token as the line's mnemonic, or passes over it where
/// a colon follows.
pub fn handle_expected_mnemonic(
    ctx: LangCommandParserContext,
    token_ctx: &LangCommandParserTokenContext,
) -> (result: Result<LangCommandParserContext, LangParseError>)
    ensures
        result_view(result) == expect_mnemonic(
            ctx@,
            token_ctx.at_token@,
            token_after(token_ctx.tokens.deep_view(), token_ctx.at_index as int),
        ),
{
    let mut ctx = ctx;
    if let Some(at_mnemonic) = LangCommand::from_string(token_ctx.at_token) {
        ctx.line.mnemonic = Some(at_mnemonic);
    } else if let Some(next_token) = token_ctx.next_token() {
        if !str_equal(next_token, ":") {
            return Err(LangParseError::InvalidMnemonic);
        }
    } else {
        return Err(LangParseError::InvalidMnemonic);
    }
    Ok(ctx)
}

/// Parses one source line.
///
/// The result is the line that the tokens of `line` write, or the refusal
/// of the first token that cannot follow the ones before it.
pub fn parse_command_line(line: &str) -> (result: Result<SourceLine, LangParseError>)
    ensures
        result_view(result) == parse_line(line@),
        result is Ok ==> result->Ok_0@.well_formed(),
{
    let tokens = match tokenize_source_line(line) {
        Ok(tokens) => tokens,
        Err(error) => {
            return Err(error);
        },
    };
    let mut ctx = LangCommandParserContext {
        line: SourceLine { label: None, mnemonic: None, arguments: Vec::new() },
        last_token_was_argument: false,
        last_token_was_label: false,
    };
    let ghost all = tokens.deep_view();
    assert(ctx@ == initial_state()) by {
        assert(literal_values(ctx.line.arguments@) =~= Seq::<LiteralValue>::empty());
    }

    let mut ii: usize = 0;
    while ii < tokens.len()
        invariant
            ii <= tokens@.len(),
            all == tokens.deep_view(),
            all == line_tokens(line@),
            parse_from(ctx@, all, ii as int) == parse_from(initial_state(), all, 0),
        decreases tokens@.len() - ii,
    {
        let token = tokens[ii].as_str();
        assert(token@ == all[ii as int]);
        let token_ctx = LangCommandParserTokenContext {
            at_index: ii,
            at_token: token,
            tokens: &tokens,
        };
        let ghost before = ctx@;
        let mut to_set_was_arg = false;
        let mut to_set_was_label = false;

        let colon_follows = match token_ctx.next_token() {
            Some(next) => str_equal(next, ":"),
            None => false,
        };
        if str_equal(token, ":") {
            if !ctx.last_token_was_label {
                return Err(LangParseError::UnexpectedToken);
            }
        } else if ctx.line.label.is_none() && ctx.line.mnemonic.is_none() && colon_follows {
            ctx = match handle_expected_label(ctx, &token_ctx) {
                Ok(ctx) => ctx,
                Err(error) => {
                    return Err(error);
                },
            };
            to_set_was_label = true;
        } else if ctx.line.mnemonic.is_none() {
            ctx = match handle_expected_mnemonic(ctx, &token_ctx) {
                Ok(ctx) => ctx,
                Err(error) => {
                    return Err(error);
                },
            };
        } else if str_equal(token, ",") {
            if !ctx.last_token_was_argument {
                return Err(LangParseError::UnexpectedToken);
            }
        } else if ctx.last_token_was_argument {
            return Err(LangParseError::ExpectedComma);
        } else {
            let arg = match LangLiteral::from_string(token) {
                Ok(arg) => arg,
                Err(error) => {
                    return Err(error);
                },
            };
            let ghost arguments = ctx.line.arguments@;
            ctx.line.arguments.push(arg);
            assert(literal_values(ctx.line.arguments@) =~= literal_values(arguments).push(arg@));
            to_set_was_arg = true;
        }

        ctx.last_token_was_argument = to_set_was_arg;
        ctx.last_token_was_label = to_set_was_label;
        assert(parse_token(before, all, ii as int) == Ok::<ParserState, LangParseError>(ctx@));
        ii += 1;
    }

    proof {
        lemma_parsed_line_well_formed(line@);
    }
    Ok(ctx.line)
}

} // verus!
