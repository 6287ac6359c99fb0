//! The language's vocabulary: mnemonics and literal operands.
//!
//! A token is decoded by its first character: `r` starts a register, `#` a
//! constant, `"` a string, a digit an address, and anything else is a symbol.
//!
//! A number is an optional sign and digits. Constants and addresses may
//! announce base sixteen with `0x` or base two with `0b`; registers are
//! decimal. A token that writes no number is invalid; one that writes a
//! number outside the operand's range, however large, is out of bounds.
//! Registers, constants and addresses each report both with error kinds of
//! their own.
//!
//! A quoted character is not among the operands that [`decode_literal`]
//! yields, as `#` always starts a constant; [`char_literal`] decodes one.

use crate::error::LangParseError;
use crate::text::{chars_of, chars_spell, result_view};
use vstd::prelude::*;

verus! {

/// The reserved instruction and directive keywords.
#[derive(Debug, Clone, Copy, PartialEq, Eq, Structural)]
pub enum LangCommand {
    DEF,
    CODE,
    DATA,
    DB,
    ORG,
    ADD,
    JMP,
    MOV,
}

impl LangCommand {
    /// The keyword that stands for this mnemonic in source text.
    pub open spec fn keyword(self) -> Seq<char> {
        match self {
            LangCommand::DEF => "DEF"@,
            LangCommand::CODE => "CODE"@,
            LangCommand::DATA => "DATA"@,
            LangCommand::DB => "DB"@,
            LangCommand::ORG => "ORG"@,
            LangCommand::ADD => "ADD"@,
            LangCommand::JMP => "JMP"@,
            LangCommand::MOV => "MOV"@,
        }
    }

    /// The mnemonic that `text` spells, if it spells one.
    pub open spec fn from_keyword(text: Seq<char>) -> Option<LangCommand> {
        if text == "DEF"@ {
            Some(LangCommand::DEF)
        } else if text == "CODE"@ {
            Some(LangCommand::CODE)
        } else if text == "DATA"@ {
            Some(LangCommand::DATA)
        } else if text == "DB"@ {
            Some(LangCommand::DB)
        } else if text == "ORG"@ {
            Some(LangCommand::ORG)
        } else if text == "ADD"@ {
            Some(LangCommand::ADD)
        } else if text == "JMP"@ {
            Some(LangCommand::JMP)
        } else if text == "MOV"@ {
            Some(LangCommand::MOV)
        } else {
            None
        }
    }

    /// What the keywords are made of, character by character.
    pub proof fn lemma_keywords()
        ensures
            "DEF"@ =~= seq!['D', 'E', 'F'],
            "CODE"@ =~= seq!['C', 'O', 'D', 'E'],
            "DATA"@ =~= seq!['D', 'A', 'T', 'A'],
            "DB"@ =~= seq!['D', 'B'],
            "ORG"@ =~= seq!['O', 'R', 'G'],
            "ADD"@ =~= seq!['A', 'D', 'D'],
            "JMP"@ =~= seq!['J', 'M', 'P'],
            "MOV"@ =~= seq!['M', 'O', 'V'],
    {
        reveal_strlit("DEF");
        reveal_strlit("CODE");
        reveal_strlit("DATA");
        reveal_strlit("DB");
        reveal_strlit("ORG");
        reveal_strlit("ADD");
        reveal_strlit("JMP");
        reveal_strlit("MOV");
    }

    /// Every mnemonic is found again from its keyword, and only a keyword
    /// spells a mnemonic.
    pub proof fn lemma_keyword_round_trip(command: LangCommand, text: Seq<char>)
        ensures
            Self::from_keyword(command.keyword()) == Some(command),
            Self::from_keyword(text) == Some(command) <==> text == command.keyword(),
    {
        Self::lemma_keywords();
    }

    /// Recognizes a mnemonic keyword; any other text is no mnemonic.
    pub fn from_string(ss: &str) -> (command: Option<LangCommand>)
        ensures
            command == Self::from_keyword(ss@),
    {
        let chars = chars_of(ss);
        if chars_spell(&chars, "DEF") {
            Some(LangCommand::DEF)
        } else if chars_spell(&chars, "CODE") {
            Some(LangCommand::CODE)
        } else if chars_spell(&chars, "DATA") {
            Some(LangCommand::DATA)
        } else if chars_spell(&chars, "DB") {
            Some(LangCommand::DB)
        } else if chars_spell(&chars, "ORG") {
            Some(LangCommand::ORG)
        } else if chars_spell(&chars, "ADD") {
            Some(LangCommand::ADD)
        } else if chars_spell(&chars, "JMP") {
            Some(LangCommand::JMP)
        } else if chars_spell(&chars, "MOV") {
            Some(LangCommand::MOV)
        } else {
            None
        }
    }
}

/// A typed operand.
#[derive(Debug, PartialEq, Eq)]
pub enum LangLiteral {
    Register(u8),
    Constant(u8),
    Address(u8),
    Char(char),
    String(String),
    Symbol(String),
}

/// What a literal holds, with its text as a sequence of characters.
pub enum LiteralValue {
    Register(u8),
    Constant(u8),
    Address(u8),
    Char(char),
    Text(Seq<char>),
    Symbol(Seq<char>),
}

impl View for LangLiteral {
    type V = LiteralValue;

    open spec fn view(&self) -> LiteralValue {
        match self {
            LangLiteral::Register(index) => LiteralValue::Register(*index),
            LangLiteral::Constant(value) => LiteralValue::Constant(*value),
            LangLiteral::Address(address) => LiteralValue::Address(*address),
            LangLiteral::Char(c) => LiteralValue::Char(*c),
            LangLiteral::String(text) => LiteralValue::Text(text@),
            LangLiteral::Symbol(name) => LiteralValue::Symbol(name@),
        }
    }
}

impl LiteralValue {
    /// A register index is at most 15, and a symbol is a valid symbol name.
    pub open spec fn well_formed(self) -> bool {
        match self {
            LiteralValue::Register(index) => index <= 15,
            LiteralValue::Symbol(name) => is_symbol_name(name),
            _ => true,
        }
    }
}

/// Letters, digits and the underscore make up symbol names.
pub open spec fn is_symbol_char(c: char) -> bool {
    ('A' <= c <= 'Z') || ('a' <= c <= 'z') || c == '_' || ('0' <= c <= '9')
}

/// Why `name` is not a symbol name, if it is none: it is empty, holds a
/// character that no symbol name has, or is a reserved keyword.
pub open spec fn symbol_name_error(name: Seq<char>) -> Option<LangParseError> {
    if name.len() == 0 {
        Some(LangParseError::LabelNameExpected)
    } else if !(forall|i: int| 0 <= i < name.len() ==> is_symbol_char(#[trigger] name[i])) {
        Some(LangParseError::InvalidSymbolName)
    } else if LangCommand::from_keyword(name) is Some {
        Some(LangParseError::InvalidSymbolName)
    } else {
        None
    }
}

/// A symbol name is not empty, is made of letters, digits and underscores,
/// and is no reserved keyword.
pub open spec fn is_symbol_name(name: Seq<char>) -> bool {
    symbol_name_error(name) is None
}

/// The value of `c` as a digit; the letters `a` to `f` count from ten, in
/// either case.
pub open spec fn digit_value(c: char) -> Option<nat> {
    if '0' <= c <= '9' {
        Some((c as int - '0' as int) as nat)
    } else if 'a' <= c <= 'f' {
        Some((c as int - 'a' as int + 10) as nat)
    } else if 'A' <= c <= 'F' {
        Some((c as int - 'A' as int + 10) as nat)
    } else {
        None
    }
}

/// Whether `c` is a digit of base `radix`.
pub open spec fn is_digit(c: char, radix: nat) -> bool {
    digit_value(c) is Some && digit_value(c)->Some_0 < radix
}

/// Whether `text` holds digits of base `radix` only.
pub open spec fn all_digits(text: Seq<char>, radix: nat) -> bool {
    forall|i: int| 0 <= i < text.len() ==> is_digit(#[trigger] text[i], radix)
}

/// The number that the digits of `text` write in base `radix`.
pub open spec fn digits_value(text: Seq<char>, radix: nat) -> nat
    decreases text.len(),
{
    if text.len() == 0 {
        0
    } else {
        digits_value(text.drop_last(), radix) * radix + digit_value(text.last()).unwrap_or(0)
    }
}

/// The number that `text` writes in base `radix`: an optional sign, then
/// at least one digit. Text of any other shape writes no number.
pub open spec fn signed_number(text: Seq<char>, radix: nat) -> Option<int> {
    let signed = text.len() > 0 && (text[0] == '-' || text[0] == '+');
    let digits = if signed {
        text.drop_first()
    } else {
        text
    };
    if digits.len() > 0 && all_digits(digits, radix) {
        if signed && text[0] == '-' {
            Some(-(digits_value(digits, radix) as int))
        } else {
            Some(digits_value(digits, radix) as int)
        }
    } else {
        None
    }
}

/// The base that the start of `text` announces: `0x` sixteen, `0b` two,
/// anything else ten.
pub open spec fn radix_of(text: Seq<char>) -> nat {
    if text.len() >= 2 && text[0] == '0' && text[1] == 'x' {
        16
    } else if text.len() >= 2 && text[0] == '0' && text[1] == 'b' {
        2
    } else {
        10
    }
}

/// The number written by `source` after its first `prefix_count`
/// characters. A base prefix is honoured where `allow_non_decimals` holds,
/// and makes the text malformed where it does not. A source shorter than
/// `prefix_count` writes no number.
pub open spec fn prefixed_number(
    source: Seq<char>,
    prefix_count: int,
    allow_non_decimals: bool,
) -> Option<int> {
    if 0 <= prefix_count <= source.len() {
        let number_part = source.skip(prefix_count);
        let radix = radix_of(number_part);
        if radix == 10 {
            signed_number(number_part, 10)
        } else if allow_non_decimals {
            signed_number(number_part.skip(2), radix)
        } else {
            None
        }
    } else {
        None
    }
}

/// The byte written by `source`: `parse_err` where it writes no number,
/// `oob_error` where the number lies outside `low..=high`.
pub open spec fn prefixed_u8(
    source: Seq<char>,
    low: int,
    high: int,
    prefix_count: int,
    allow_non_decimals: bool,
    parse_err: LangParseError,
    oob_error: LangParseError,
) -> Result<u8, LangParseError> {
    match prefixed_number(source, prefix_count, allow_non_decimals) {
        None => Err(parse_err),
        Some(number) => if low <= number <= high {
            Ok(number as u8)
        } else {
            Err(oob_error)
        },
    }
}

/// The register that `token` names: `r` and a decimal index up to 15.
pub open spec fn register_literal(token: Seq<char>) -> Result<LiteralValue, LangParseError> {
    match prefixed_u8(
        token,
        0,
        15,
        1,
        false,
        LangParseError::InvalidRegisterArgument,
        LangParseError::RegisterIndexOutOfBounds,
    ) {
        Ok(index) => Ok(LiteralValue::Register(index)),
        Err(error) => Err(error),
    }
}

/// The constant that `token` writes: `#` and a number up to 255.
pub open spec fn constant_literal(token: Seq<char>) -> Result<LiteralValue, LangParseError> {
    match prefixed_u8(
        token,
        0,
        255,
        1,
        true,
        LangParseError::InvalidConstantArgument,
        LangParseError::ConstantOutOfBounds,
    ) {
        Ok(value) => Ok(LiteralValue::Constant(value)),
        Err(error) => Err(error),
    }
}

/// The address that `token` writes: a number up to 255.
pub open spec fn address_literal(token: Seq<char>) -> Result<LiteralValue, LangParseError> {
    match prefixed_u8(
        token,
        0,
        255,
        0,
        true,
        LangParseError::InvalidAddressArgument,
        LangParseError::AddressOutOfBounds,
    ) {
        Ok(address) => Ok(LiteralValue::Address(address)),
        Err(error) => Err(error),
    }
}

/// The character that `token` quotes: three characters, the last a `'`,
/// the middle one a character of one byte.
pub open spec fn char_literal(token: Seq<char>) -> Result<LiteralValue, LangParseError> {
    if token.len() == 3 && token[2] == '\'' {
        if token[1] as u32 >= 0x80 {
            Err(LangParseError::CharOutOfBounds)
        } else {
            Ok(LiteralValue::Char(token[1]))
        }
    } else {
        Err(LangParseError::InvalidCharArgument)
    }
}

/// The symbol that `token` names.
pub open spec fn symbol_literal(token: Seq<char>) -> Result<LiteralValue, LangParseError> {
    match symbol_name_error(token) {
        Some(error) => Err(error),
        None => Ok(LiteralValue::Symbol(token)),
    }
}

/// Whether `text` begins with a decimal digit.
pub open spec fn starts_with_digit(text: Seq<char>) -> bool {
    text.len() > 0 && '0' <= text[0] <= '9'
}

/// The operand that `token` writes, chosen by how the token begins.
pub open spec fn decode_literal(token: Seq<char>) -> Result<LiteralValue, LangParseError> {
    if token.len() > 0 && token[0] == 'r' {
        register_literal(token)
    } else if token.len() > 0 && token[0] == '#' {
        constant_literal(token)
    } else if token.len() > 0 && token[0] == '"' {
        Ok(LiteralValue::Text(token))
    } else if starts_with_digit(token) {
        address_literal(token)
    } else {
        symbol_literal(token)
    }
}

/// Each kind of number reports its failures with error kinds of its own: a
/// token that writes no number is invalid for that kind, and a number
/// outside the kind's range is out of its bounds.
pub proof fn lemma_number_error_kinds(token: Seq<char>)
    ensures
        register_literal(token) is Err ==> register_literal(token)->Err_0
            == LangParseError::InvalidRegisterArgument || register_literal(token)->Err_0
            == LangParseError::RegisterIndexOutOfBounds,
        constant_literal(token) is Err ==> constant_literal(token)->Err_0
            == LangParseError::InvalidConstantArgument || constant_literal(token)->Err_0
            == LangParseError::ConstantOutOfBounds,
        address_literal(token) is Err ==> address_literal(token)->Err_0
            == LangParseError::InvalidAddressArgument || address_literal(token)->Err_0
            == LangParseError::AddressOutOfBounds,
        register_literal(token) == Err::<LiteralValue, LangParseError>(
            LangParseError::RegisterIndexOutOfBounds,
        ) <==> prefixed_number(token, 1, false) is Some && !(0 <= prefixed_number(
            token,
            1,
            false,
        )->Some_0 <= 15),
        constant_literal(token) == Err::<LiteralValue, LangParseError>(
            LangParseError::ConstantOutOfBounds,
        ) <==> prefixed_number(token, 1, true) is Some && !(0 <= prefixed_number(
            token,
            1,
            true,
        )->Some_0 <= 255),
        address_literal(token) == Err::<LiteralValue, LangParseError>(
            LangParseError::AddressOutOfBounds,
        ) <==> prefixed_number(token, 0, true) is Some && !(0 <= prefixed_number(
            token,
            0,
            true,
        )->Some_0 <= 255),
{
}

/// Digits without a sign write the number that is their value.
pub proof fn lemma_digits_write_their_value(digits: Seq<char>, radix: nat)
    requires
        digits.len() > 0,
        all_digits(digits, radix),
    ensures
        signed_number(digits, radix) == Some(digits_value(digits, radix) as int),
{
    assert(is_digit(digits[0], radix));
}

/// Decimal digits write their value, alone and after a prefix of one
/// character.
pub proof fn lemma_decimal_spelling(prefix: char, decimal: Seq<char>)
    requires
        decimal.len() > 0,
        all_digits(decimal, 10),
    ensures
        prefixed_number(decimal, 0, true) == Some(digits_value(decimal, 10) as int),
        prefixed_number(seq![prefix] + decimal, 1, true) == Some(
            digits_value(decimal, 10) as int,
        ),
        prefixed_number(seq![prefix] + decimal, 1, false) == Some(
            digits_value(decimal, 10) as int,
        ),
{
    assert(decimal.skip(0) =~= decimal);
    assert((seq![prefix] + decimal).skip(1) =~= decimal);
    if decimal.len() > 1 {
        assert(is_digit(decimal[1], 10));
    }
    assert(radix_of(decimal) == 10);
    lemma_digits_write_their_value(decimal, 10);
}

/// Hexadecimal digits after `0x` write their value, alone and after a
/// prefix of one character.
pub proof fn lemma_hex_spelling(prefix: char, hex: Seq<char>)
    requires
        hex.len() > 0,
        all_digits(hex, 16),
    ensures
        prefixed_number(seq!['0', 'x'] + hex, 0, true) == Some(digits_value(hex, 16) as int),
        prefixed_number(seq![prefix, '0', 'x'] + hex, 1, true) == Some(
            digits_value(hex, 16) as int,
        ),
{
    let number_part = seq!['0', 'x'] + hex;
    assert(number_part.skip(0) =~= number_part);
    assert((seq![prefix, '0', 'x'] + hex).skip(1) =~= number_part);
    assert(number_part[0] == '0' && number_part[1] == 'x');
    assert(radix_of(number_part) == 16);
    assert(number_part.skip(2) =~= hex);
    lemma_digits_write_their_value(hex, 16);
}

/// Binary digits after `0b` write their value, alone and after a prefix of
/// one character.
pub proof fn lemma_binary_spelling(prefix: char, binary: Seq<char>)
    requires
        binary.len() > 0,
        all_digits(binary, 2),
    ensures
        prefixed_number(seq!['0', 'b'] + binary, 0, true) == Some(
            digits_value(binary, 2) as int,
        ),
        prefixed_number(seq![prefix, '0', 'b'] + binary, 1, true) == Some(
            digits_value(binary, 2) as int,
        ),
{
    let number_part = seq!['0', 'b'] + binary;
    assert(number_part.skip(0) =~= number_part);
    assert((seq![prefix, '0', 'b'] + binary).skip(1) =~= number_part);
    assert(number_part[0] == '0' && number_part[1] == 'b');
    assert(radix_of(number_part) == 2);
    assert(number_part.skip(2) =~= binary);
    lemma_digits_write_their_value(binary, 2);
}

/// A number decodes alike in its three spellings: in decimal digits, in
/// hexadecimal digits after `0x`, and in binary digits after `0b`. This
/// holds of an address, and of a constant after its `#`.
pub proof fn lemma_spellings_decode_alike(decimal: Seq<char>, hex: Seq<char>, binary: Seq<char>)
    requires
        decimal.len() > 0 && all_digits(decimal, 10),
        hex.len() > 0 && all_digits(hex, 16),
        binary.len() > 0 && all_digits(binary, 2),
        digits_value(decimal, 10) == digits_value(hex, 16),
        digits_value(decimal, 10) == digits_value(binary, 2),
    ensures
        address_literal(seq!['0', 'x'] + hex) == address_literal(decimal),
        address_literal(seq!['0', 'b'] + binary) == address_literal(decimal),
        constant_literal(seq!['#', '0', 'x'] + hex) == constant_literal(seq!['#'] + decimal),
        constant_literal(seq!['#', '0', 'b'] + binary) == constant_literal(seq!['#'] + decimal),
{
    lemma_decimal_spelling('#', decimal);
    lemma_hex_spelling('#', hex);
    lemma_binary_spelling('#', binary);
}

/// Every operand that decoding yields is well formed.
pub proof fn lemma_decoded_is_well_formed(token: Seq<char>)
    ensures
        decode_literal(token) is Ok ==> decode_literal(token)->Ok_0.well_formed(),
{
}

/// No reserved keyword is a symbol name, and none decodes to an operand.
pub proof fn lemma_keyword_is_no_symbol(command: LangCommand)
    ensures
        symbol_name_error(command.keyword()) == Some(LangParseError::InvalidSymbolName),
        !is_symbol_name(command.keyword()),
        decode_literal(command.keyword()) == Err::<LiteralValue, LangParseError>(
            LangParseError::InvalidSymbolName,
        ),
{
    LangCommand::lemma_keywords();
    LangCommand::lemma_keyword_round_trip(command, command.keyword());
    let word = command.keyword();
    assert(word.len() > 0);
    assert forall|i: int| 0 <= i < word.len() implies is_symbol_char(#[trigger] word[i]) by {}
}

/// Numbers are read exactly up to this magnitude; a larger one is reported
/// as this magnitude, which is beyond every bound that a byte can meet.
const NUMBER_CAP: u32 = 256;

/// `number` held within `-NUMBER_CAP..=NUMBER_CAP`.
spec fn capped(number: int) -> int {
    if number > NUMBER_CAP {
        NUMBER_CAP as int
    } else if number < -NUMBER_CAP {
        -(NUMBER_CAP as int)
    } else {
        number
    }
}

/// One more digit at the end multiplies by the base and adds the digit.
proof fn lemma_digits_value_step(text: Seq<char>, radix: nat, end: int)
    requires
        0 <= end < text.len(),
    ensures
        digits_value(text.take(end + 1), radix) == digits_value(text.take(end), radix) * radix
            + digit_value(text[end]).unwrap_or(0),
{
    assert(text.take(end + 1).drop_last() =~= text.take(end));
}

/// A magnitude at the cap stays at the cap when a digit is added.
proof fn lemma_capped_step(value: nat, radix: nat, digit: nat)
    requires
        value >= NUMBER_CAP,
        radix >= 1,
    ensures
        value * radix + digit >= NUMBER_CAP,
{
    assert(value * radix >= value) by (nonlinear_arith)
        requires
            radix >= 1,
    ;
}

/// The value of `c` as a digit, if it is one.
pub fn digit_of(c: char) -> (digit: Option<u32>)
    ensures
        match digit_value(c) {
            Some(value) => digit == Some(value as u32) && value < 16,
            None => digit is None,
        },
{
    if '0' <= c && c <= '9' {
        Some(c as u32 - '0' as u32)
    } else if 'a' <= c && c <= 'f' {
        Some(c as u32 - 'a' as u32 + 10)
    } else if 'A' <= c && c <= 'F' {
        Some(c as u32 - 'A' as u32 + 10)
    } else {
        None
    }
}

/// Reads `chars[from..]` as digits of base `radix`.
fn read_digits(chars: &Vec<char>, from: usize, radix: u32) -> (value: Option<u32>)
    requires
        from <= chars@.len(),
        1 <= radix <= 16,
    ensures
        match value {
            Some(number) => {
                let digits = chars@.skip(from as int);
                &&& digits.len() > 0
                &&& all_digits(digits, radix as nat)
                &&& number == capped(digits_value(digits, radix as nat) as int)
            },
            None => {
                let digits = chars@.skip(from as int);
                !(digits.len() > 0 && all_digits(digits, radix as nat))
            },
        },
{
    let ghost digits = chars@.skip(from as int);
    if from == chars.len() {
        return None;
    }
    let mut value: u32 = 0;
    let mut i: usize = from;
    assert(digits.take(0) =~= Seq::<char>::empty());
    while i < chars.len()
        invariant
            from <= i <= chars@.len(),
            1 <= radix <= 16,
            digits == chars@.skip(from as int),
            all_digits(digits.take(i - from), radix as nat),
            value == capped(digits_value(digits.take(i - from), radix as nat) as int),
        decreases chars@.len() - i,
    {
        let c = chars[i];
        assert(digits[i - from] == c);
        let digit = match digit_of(c) {
            Some(digit) => digit,
            None => {
                return None;
            },
        };
        if digit >= radix {
            return None;
        }
        proof {
            lemma_digits_value_step(digits, radix as nat, i - from);
            let before = digits_value(digits.take(i - from), radix as nat);
            if before >= NUMBER_CAP {
                lemma_capped_step(before, radix as nat, digit as nat);
            }
            assert forall|k: int| 0 <= k < i + 1 - from implies is_digit(
                #[trigger] digits.take(i + 1 - from)[k],
                radix as nat,
            ) by {
                if k < i - from {
                    assert(digits.take(i - from)[k] == digits.take(i + 1 - from)[k]);
                }
            }
        }
        if value < NUMBER_CAP {
            assert(value * radix <= 255 * 16) by (nonlinear_arith)
                requires
                    value <= 255,
                    radix <= 16,
            ;
            value = value * radix + digit;
            if value > NUMBER_CAP {
                value = NUMBER_CAP;
            }
        }
        i += 1;
    }
    assert(digits.take(i - from) =~= digits);
    Some(value)
}

/// Reads `chars[from..]` as a number of base `radix` with an optional
/// sign. Magnitudes above `NUMBER_CAP` are reported as `NUMBER_CAP`.
fn read_number(chars: &Vec<char>, from: usize, radix: u32) -> (number: Option<i32>)
    requires
        from <= chars@.len(),
        1 <= radix <= 16,
    ensures
        match signed_number(chars@.skip(from as int), radix as nat) {
            Some(value) => number == Some(capped(value) as i32),
            None => number is None,
        },
{
    let ghost text = chars@.skip(from as int);
    let signed = from < chars.len() && (chars[from] == '-' || chars[from] == '+');
    let start = if signed {
        from + 1
    } else {
        from
    };
    assert(chars@.skip(start as int) =~= if signed {
        text.drop_first()
    } else {
        text
    });
    match read_digits(chars, start, radix) {
        Some(magnitude) => {
            if signed && chars[from] == '-' {
                Some(-(magnitude as i32))
            } else {
                Some(magnitude as i32)
            }
        },
        None => None,
    }
}

/// The base that `chars[from..]` announces.
fn radix_at(chars: &Vec<char>, from: usize) -> (radix: u32)
    requires
        from <= chars@.len(),
    ensures
        radix == radix_of(chars@.skip(from as int)),
{
    if chars.len() - from >= 2 && chars[from] == '0' && chars[from + 1] == 'x' {
        16
    } else if chars.len() - from >= 2 && chars[from] == '0' && chars[from + 1] == 'b' {
        2
    } else {
        10
    }
}

/// Whether `c` may stand in a symbol name.
pub fn symbol_char(c: char) -> (valid: bool)
    ensures
        valid == is_symbol_char(c),
{
    ('A' <= c && c <= 'Z') || ('a' <= c && c <= 'z') || c == '_' || ('0' <= c && c <= '9')
}

impl LangLiteral {
    /// Accepts `string` as a label or symbol name, or says why it is none.
    pub fn validate_symbol_name(string: &str) -> (result: Result<&str, LangParseError>)
        ensures
            match result {
                Ok(name) => name@ == string@ && is_symbol_name(string@),
                Err(error) => symbol_name_error(string@) == Some(error),
            },
    {
        let chars = chars_of(string);
        if chars.len() == 0 {
            return Err(LangParseError::LabelNameExpected);
        }
        let mut i: usize = 0;
        while i < chars.len()
            invariant
                i <= chars@.len(),
                chars@ == string@,
                forall|k: int| 0 <= k < i ==> is_symbol_char(#[trigger] chars@[k]),
            decreases chars@.len() - i,
        {
            if !symbol_char(chars[i]) {
                return Err(LangParseError::InvalidSymbolName);
            }
            i += 1;
        }
        if LangCommand::from_string(string).is_some() {
            Err(LangParseError::InvalidSymbolName)
        } else {
            Ok(string)
        }
    }

    /// The base that the start of `ss` announces.
    pub fn parse_radix_to_try_from_str(ss: &str) -> (radix: u32)
        ensures
            radix == radix_of(ss@),
    {
        let chars = chars_of(ss);
        radix_at(&chars, 0)
    }

    /// Reads the byte that `source` writes after its first `prefix_count`
    /// characters, and holds it to `bounds`.
    pub fn parse_prefixed_u8(
        source: &str,
        bounds: (i32, i32),
        prefix_count: usize,
        allow_non_decimals: bool,
        parse_err: LangParseError,
        oob_error: LangParseError,
    ) -> (result: Result<u8, LangParseError>)
        requires
            0 <= bounds.0,
            bounds.1 <= 255,
        ensures
            result == prefixed_u8(
                source@,
                bounds.0 as int,
                bounds.1 as int,
                prefix_count as int,
                allow_non_decimals,
                parse_err,
                oob_error,
            ),
    {
        let chars = chars_of(source);
        if prefix_count > chars.len() {
            return Err(parse_err);
        }
        let radix = radix_at(&chars, prefix_count);
        if radix != 10 && !allow_non_decimals {
            return Err(parse_err);
        }
        let start = if radix != 10 {
            prefix_count + 2
        } else {
            prefix_count
        };
        assert(chars@.skip(start as int) =~= if radix != 10 {
            chars@.skip(prefix_count as int).skip(2)
        } else {
            chars@.skip(prefix_count as int)
        });
        match read_number(&chars, start, radix) {
            None => Err(parse_err),
            Some(number) => {
                if number >= bounds.0 && number <= bounds.1 {
                    Ok(number as u8)
                } else {
                    Err(oob_error)
                }
            },
        }
    }

    /// Decodes a register: `r` and a decimal index from 0 to 15.
    pub fn parse_potential_register(ss: &str) -> (result: Result<LangLiteral, LangParseError>)
        ensures
            result_view(result) == register_literal(ss@),
    {
        match Self::parse_prefixed_u8(
            ss,
            (0, 15),
            1,
            false,
            LangParseError::InvalidRegisterArgument,
            LangParseError::RegisterIndexOutOfBounds,
        ) {
            Ok(byte) => Ok(LangLiteral::Register(byte)),
            Err(error) => Err(error),
        }
    }

    /// Decodes a constant: `#` and a number from 0 to 255.
    pub fn parse_potential_constant(ss: &str) -> (result: Result<LangLiteral, LangParseError>)
        ensures
            result_view(result) == constant_literal(ss@),
    {
        match Self::parse_prefixed_u8(
            ss,
            (0, 255),
            1,
            true,
            LangParseError::InvalidConstantArgument,
            LangParseError::ConstantOutOfBounds,
        ) {
            Ok(byte) => Ok(LangLiteral::Constant(byte)),
            Err(error) => Err(error),
        }
    }

    /// Decodes an address: a number from 0 to 255.
    pub fn parse_potential_address(ss: &str) -> (result: Result<LangLiteral, LangParseError>)
        ensures
            result_view(result) == address_literal(ss@),
    {
        match Self::parse_prefixed_u8(
            ss,
            (0, 255),
            0,
            true,
            LangParseError::InvalidAddressArgument,
            LangParseError::AddressOutOfBounds,
        ) {
            Ok(byte) => Ok(LangLiteral::Address(byte)),
            Err(error) => Err(error),
        }
    }

    /// Decodes a quoted character: three characters, the last a `'`.
    pub fn parse_potential_char(ss: &str) -> (result: Result<LangLiteral, LangParseError>)
        ensures
            result_view(result) == char_literal(ss@),
    {
        let chars = chars_of(ss);
        if chars.len() == 3 && chars[2] == '\'' {
            let c = chars[1];
            if c as u32 >= 0x80 {
                Err(LangParseError::CharOutOfBounds)
            } else {
                Ok(LangLiteral::Char(c))
            }
        } else {
            Err(LangParseError::InvalidCharArgument)
        }
    }

    /// Whether `ss` begins with a decimal digit.
    pub fn string_starts_with_number(ss: &str) -> (starts: bool)
        ensures
            starts == starts_with_digit(ss@),
    {
        let chars = chars_of(ss);
        chars.len() > 0 && '0' <= chars[0] && chars[0] <= '9'
    }

    /// Decodes a symbol: a valid symbol name.
    pub fn parse_potential_symbol(ss: &str) -> (result: Result<LangLiteral, LangParseError>)
        ensures
            result_view(result) == symbol_literal(ss@),
    {
        match Self::validate_symbol_name(ss) {
            Ok(name) => Ok(LangLiteral::Symbol(name.to_owned())),
            Err(error) => Err(error),
        }
    }

    /// Decodes a token into the operand that it writes.
    pub fn from_string(ss: &str) -> (result: Result<LangLiteral, LangParseError>)
        ensures
            result_view(result) == decode_literal(ss@),
            result is Ok ==> result->Ok_0@.well_formed(),
    {
        let chars = chars_of(ss);
        if chars.len() > 0 && chars[0] == 'r' {
            Self::parse_potential_register(ss)
        } else if chars.len() > 0 && chars[0] == '#' {
            Self::parse_potential_constant(ss)
        } else if chars.len() > 0 && chars[0] == '"' {
            Ok(LangLiteral::String(ss.to_owned()))
        } else if Self::string_starts_with_number(ss) {
            Self::parse_potential_address(ss)
        } else {
            Self::parse_potential_symbol(ss)
        }
    }
}

} // verus!
