use neorisc_lib::error::LangParseError;
use neorisc_lib::lang::{LangCommand, LangLiteral};
use neorisc_lib::parser::command_parser::{
    handle_expected_label, handle_expected_mnemonic, parse_command_line, LangCommandParserContext,
    LangCommandParserTokenContext, SourceLine,
};
use std::borrow::Borrow;

#[test]
fn label_parsed() {
    let source_line = parse_command_line("asd :").expect("Line parsing failed");
    assert_eq!(source_line.label.expect("Label is empty"), "asd");
}

#[test]
fn mnemonic_parsed() {
    let source_line = parse_command_line("ADD").expect("Line parsing failed");
    assert_eq!(
        source_line.mnemonic.expect("Mnemonic is empty"),
        LangCommand::ADD
    );
}

#[test]
fn comibned_parsed() {
    let source_line = parse_command_line("asd : ADD").expect("Line parsing failed");
    assert_eq!(source_line.label.expect("Label is empty"), "asd");
    assert_eq!(
        source_line.mnemonic.expect("Mnemonic is empty"),
        LangCommand::ADD
    );
}

#[test]
fn args_parsed() {
    let source_line =
        parse_command_line("ADD r0, 100, LD, 0xff, #0b101").expect("Line parsing failed");
    assert_eq!(source_line.arguments.len(), 5);
    if let LangLiteral::Register(reg) = source_line.arguments[0] {
        assert_eq!(reg, 0);
    } else {
        assert!(false);
    }

    if let LangLiteral::Address(addr) = source_line.arguments[1] {
        assert_eq!(addr, 100);
    } else {
        assert!(false);
    }

    if let LangLiteral::Symbol(symb) = source_line.arguments[2].borrow() {
        assert_eq!(symb, "LD");
    } else {
        assert!(false);
    }

    if let LangLiteral::Address(addr) = source_line.arguments[3] {
        assert_eq!(addr, 255);
    } else {
        assert!(false);
    }

    if let LangLiteral::Constant(addr) = source_line.arguments[4] {
        assert_eq!(addr, 5);
    } else {
        assert!(false);
    }
}

fn parsed(line: &str) -> (Option<String>, Option<LangCommand>, Vec<LangLiteral>) {
    let source_line = parse_command_line(line).expect("Line parsing failed");
    (source_line.label, source_line.mnemonic, source_line.arguments)
}

fn refused(line: &str) -> LangParseError {
    match parse_command_line(line) {
        Ok(_) => panic!("{:?} parsed", line),
        Err(error) => error,
    }
}

#[test]
fn label_alone_has_no_mnemonic() {
    assert_eq!(parsed("asd :"), (Some("asd".to_string()), None, vec![]));
    assert_eq!(parsed("asd:"), (Some("asd".to_string()), None, vec![]));
}

#[test]
fn mnemonic_alone_has_no_label_and_no_arguments() {
    assert_eq!(parsed("ADD"), (None, Some(LangCommand::ADD), vec![]));
}

#[test]
fn label_and_mnemonic() {
    assert_eq!(
        parsed("asd : ADD"),
        (Some("asd".to_string()), Some(LangCommand::ADD), vec![])
    );
}

#[test]
fn arguments_keep_their_order() {
    assert_eq!(
        parsed("ADD r0, 100, LD, 0xff, #0b101"),
        (
            None,
            Some(LangCommand::ADD),
            vec![
                LangLiteral::Register(0),
                LangLiteral::Address(100),
                LangLiteral::Symbol("LD".to_string()),
                LangLiteral::Address(255),
                LangLiteral::Constant(5),
            ]
        )
    );
}

#[test]
fn full_line_with_string_and_comment() {
    assert_eq!(
        parsed("start: MOV r1, \"a b\" ; copy"),
        (
            Some("start".to_string()),
            Some(LangCommand::MOV),
            vec![
                LangLiteral::Register(1),
                LangLiteral::String("\"a b\"".to_string()),
            ]
        )
    );
}

#[test]
fn blank_and_comment_lines_are_empty_lines() {
    assert_eq!(parsed(""), (None, None, vec![]));
    assert_eq!(parsed("   "), (None, None, vec![]));
    assert_eq!(parsed("; nothing here"), (None, None, vec![]));
}

#[test]
fn trailing_comma_is_accepted() {
    assert_eq!(
        parsed("ADD r0,"),
        (None, Some(LangCommand::ADD), vec![LangLiteral::Register(0)])
    );
}

#[test]
fn colon_needs_a_label_before_it() {
    assert_eq!(refused(":"), LangParseError::UnexpectedToken);
    assert_eq!(refused(": ADD"), LangParseError::UnexpectedToken);
    assert_eq!(refused("a : :"), LangParseError::UnexpectedToken);
    assert_eq!(refused("ADD r0 :"), LangParseError::UnexpectedToken);
    assert_eq!(refused("a : b : ADD"), LangParseError::UnexpectedToken);
}

#[test]
fn label_must_be_a_symbol_name() {
    assert_eq!(refused("a-b :"), LangParseError::InvalidSymbolName);
    assert_eq!(refused("MOV :"), LangParseError::InvalidSymbolName);
    assert_eq!(refused("\"a\" :"), LangParseError::InvalidSymbolName);
}

#[test]
fn unknown_mnemonic_is_invalid() {
    assert_eq!(refused("asd"), LangParseError::InvalidMnemonic);
    assert_eq!(refused("add r0"), LangParseError::InvalidMnemonic);
    assert_eq!(refused("a : b"), LangParseError::InvalidMnemonic);
    assert_eq!(refused("r0"), LangParseError::InvalidMnemonic);
    assert_eq!(refused(","), LangParseError::InvalidMnemonic);
}

#[test]
fn arguments_need_commas_between_them() {
    assert_eq!(refused("ADD r0 r1"), LangParseError::ExpectedComma);
    assert_eq!(refused("ADD r0, r1 r2"), LangParseError::ExpectedComma);
    assert_eq!(refused("ADD r0 ADD"), LangParseError::ExpectedComma);
}

#[test]
fn comma_needs_an_argument_before_it() {
    assert_eq!(refused("ADD ,"), LangParseError::UnexpectedToken);
    assert_eq!(refused("ADD , r0"), LangParseError::UnexpectedToken);
    assert_eq!(refused("ADD r0,, r1"), LangParseError::UnexpectedToken);
    assert_eq!(refused("ADD r0, , r1"), LangParseError::UnexpectedToken);
}

#[test]
fn argument_errors_are_passed_on() {
    assert_eq!(refused("ADD r16"), LangParseError::RegisterIndexOutOfBounds);
    assert_eq!(refused("ADD r"), LangParseError::InvalidRegisterArgument);
    assert_eq!(refused("ADD #256"), LangParseError::ConstantOutOfBounds);
    assert_eq!(refused("ADD #x"), LangParseError::InvalidConstantArgument);
    assert_eq!(refused("ADD 256"), LangParseError::AddressOutOfBounds);
    assert_eq!(refused("ADD 1x"), LangParseError::InvalidAddressArgument);
    assert_eq!(refused("ADD a-b"), LangParseError::InvalidSymbolName);
    assert_eq!(refused("ADD MOV"), LangParseError::InvalidSymbolName);
}

#[test]
fn first_error_of_a_line_is_reported() {
    assert_eq!(refused("ADD r16 r17"), LangParseError::RegisterIndexOutOfBounds);
    assert_eq!(refused("ADD r0 r16"), LangParseError::ExpectedComma);
    assert_eq!(refused("x ADD r16"), LangParseError::InvalidMnemonic);
}

#[test]
fn parsing_a_line_is_repeatable() {
    let line = "here: MOV r3, #0x10, there";
    assert_eq!(parsed(line), parsed(line));
}

fn empty_context() -> LangCommandParserContext {
    LangCommandParserContext {
        line: SourceLine {
            label: None,
            mnemonic: None,
            arguments: vec![],
        },
        last_token_was_argument: false,
        last_token_was_label: false,
    }
}

fn words(text: &str) -> Vec<String> {
    text.split(' ').map(|word| word.to_string()).collect()
}

#[test]
fn neighbours_of_a_token() {
    let tokens = words("a b c");
    let first = LangCommandParserTokenContext {
        at_index: 0,
        at_token: "a",
        tokens: &tokens,
    };
    assert_eq!(first.previous_token(), None);
    assert_eq!(first.next_token(), Some("b"));
    let middle = LangCommandParserTokenContext {
        at_index: 1,
        at_token: "b",
        tokens: &tokens,
    };
    assert_eq!(middle.previous_token(), Some("a"));
    assert_eq!(middle.next_token(), Some("c"));
    let last = LangCommandParserTokenContext {
        at_index: 2,
        at_token: "c",
        tokens: &tokens,
    };
    assert_eq!(last.previous_token(), Some("b"));
    assert_eq!(last.next_token(), None);
}

#[test]
fn neighbours_outside_the_tokens() {
    let none: Vec<String> = vec![];
    let nowhere = LangCommandParserTokenContext {
        at_index: 0,
        at_token: "",
        tokens: &none,
    };
    assert_eq!(nowhere.previous_token(), None);
    assert_eq!(nowhere.next_token(), None);
    let tokens = words("a b");
    let behind = LangCommandParserTokenContext {
        at_index: 2,
        at_token: "",
        tokens: &tokens,
    };
    assert_eq!(behind.previous_token(), Some("b"));
    assert_eq!(behind.next_token(), None);
    let far = LangCommandParserTokenContext {
        at_index: usize::MAX,
        at_token: "",
        tokens: &tokens,
    };
    assert_eq!(far.previous_token(), None);
    assert_eq!(far.next_token(), None);
}

#[test]
fn expected_mnemonic_is_taken() {
    let tokens = words("MOV r0");
    let token_ctx = LangCommandParserTokenContext {
        at_index: 0,
        at_token: "MOV",
        tokens: &tokens,
    };
    let ctx = match handle_expected_mnemonic(empty_context(), &token_ctx) {
        Ok(ctx) => ctx,
        Err(error) => panic!("{:?}", error),
    };
    assert_eq!(ctx.line.mnemonic, Some(LangCommand::MOV));
    assert_eq!(ctx.line.label, None);
    assert!(ctx.line.arguments.is_empty());
    assert!(!ctx.last_token_was_argument);
    assert!(!ctx.last_token_was_label);
}

#[test]
fn expected_mnemonic_before_a_colon_is_passed_over() {
    let tokens = words("name : MOV");
    let token_ctx = LangCommandParserTokenContext {
        at_index: 0,
        at_token: "name",
        tokens: &tokens,
    };
    let ctx = match handle_expected_mnemonic(empty_context(), &token_ctx) {
        Ok(ctx) => ctx,
        Err(error) => panic!("{:?}", error),
    };
    assert_eq!(ctx.line.mnemonic, None);
    assert_eq!(ctx.line.label, None);
}

#[test]
fn expected_mnemonic_that_is_none_is_invalid() {
    let tokens = words("name MOV");
    let followed = LangCommandParserTokenContext {
        at_index: 0,
        at_token: "name",
        tokens: &tokens,
    };
    assert_eq!(
        handle_expected_mnemonic(empty_context(), &followed).err(),
        Some(LangParseError::InvalidMnemonic)
    );
    let alone = LangCommandParserTokenContext {
        at_index: 1,
        at_token: "name",
        tokens: &tokens,
    };
    assert_eq!(
        handle_expected_mnemonic(empty_context(), &alone).err(),
        Some(LangParseError::InvalidMnemonic)
    );
}

#[test]
fn expected_label_is_taken() {
    let tokens = words("name :");
    let token_ctx = LangCommandParserTokenContext {
        at_index: 0,
        at_token: "name",
        tokens: &tokens,
    };
    let ctx = match handle_expected_label(empty_context(), &token_ctx) {
        Ok(ctx) => ctx,
        Err(error) => panic!("{:?}", error),
    };
    assert_eq!(ctx.line.label, Some("name".to_string()));
    assert!(ctx.last_token_was_label);
    let keyword = LangCommandParserTokenContext {
        at_index: 0,
        at_token: "JMP",
        tokens: &tokens,
    };
    assert_eq!(
        handle_expected_label(empty_context(), &keyword).err(),
        Some(LangParseError::InvalidSymbolName)
    );
}

#[test]
fn keyword_and_operands_parse_to_an_instruction() {
    let operands = ["r1", "#2", "3", "\"four\"", "five", "0b110"];
    let keywords = [
        ("DEF", LangCommand::DEF),
        ("CODE", LangCommand::CODE),
        ("DATA", LangCommand::DATA),
        ("DB", LangCommand::DB),
        ("ORG", LangCommand::ORG),
        ("ADD", LangCommand::ADD),
        ("JMP", LangCommand::JMP),
        ("MOV", LangCommand::MOV),
    ];
    for (keyword, mnemonic) in keywords {
        for count in 0..=operands.len() {
            let line = format!("{} {}", keyword, operands[..count].join(" , "));
            let expected: Vec<LangLiteral> = operands[..count]
                .iter()
                .map(|operand| LangLiteral::from_string(operand).expect("operand"))
                .collect();
            assert_eq!(parsed(&line), (None, Some(mnemonic), expected), "{:?}", line);
        }
    }
}
