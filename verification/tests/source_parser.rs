use neorisc_lib::compiler::syntax_analyzer::{analyze_syntax, validate_source_line};
use neorisc_lib::compiler::{RiscCompiler, RiscCompilerConfig};
use neorisc_lib::error::{LangParseError, LangSyntaxError};
use neorisc_lib::interpreter::RiscInterpreter;
use neorisc_lib::lang::{LangCommand, LangLiteral};
use neorisc_lib::parser::command_parser::{parse_command_line, SourceLine};
use neorisc_lib::parser::source_parser::{
    gather_results, parse_source, split_lines, without_empty_lines, ParsingError,
};
use neorisc_lib::text::{chars_equal, chars_of, chars_spell, split_text, str_equal, string_of};

#[test]
fn mod_it_works() {
    let mut interpreter = RiscCompiler::new(
        "MOV r0, #100\nADD r0, #0xA".to_string(),
        RiscCompilerConfig::default(),
    );
    interpreter.compile();
    let art = &interpreter.parsed.expect("Didn't parse");
    assert_eq!(art.errors.is_none(), true);
}

fn summary(line: &SourceLine) -> (Option<&str>, Option<LangCommand>, &[LangLiteral]) {
    (line.label.as_deref(), line.mnemonic, &line.arguments[..])
}

#[test]
fn well_formed_source_yields_every_line_in_order() {
    let artifact = parse_source("start: MOV r0, #100\n\nADD r0, #0xA\r\n; note\nJMP start");
    assert!(artifact.errors.is_none());
    let lines = artifact.lines.expect("no lines");
    assert_eq!(lines.len(), 4);
    assert_eq!(
        summary(&lines[0]),
        (
            Some("start"),
            Some(LangCommand::MOV),
            &[LangLiteral::Register(0), LangLiteral::Constant(100)][..]
        )
    );
    assert_eq!(
        summary(&lines[1]),
        (
            None,
            Some(LangCommand::ADD),
            &[LangLiteral::Register(0), LangLiteral::Constant(10)][..]
        )
    );
    assert_eq!(summary(&lines[2]), (None, None, &[][..]));
    assert_eq!(
        summary(&lines[3]),
        (
            None,
            Some(LangCommand::JMP),
            &[LangLiteral::Symbol("start".to_string())][..]
        )
    );
}

#[test]
fn parsed_line_count_is_the_nonempty_line_count() {
    let source = "ADD r0\n\n\nMOV r1, r2\n   \nJMP there\n";
    let artifact = parse_source(source);
    let expected = source.lines().filter(|line| !line.is_empty()).count();
    assert_eq!(expected, 4);
    assert_eq!(artifact.lines.expect("no lines").len(), expected);
}

#[test]
fn malformed_line_leaves_only_errors() {
    let artifact = parse_source("ADD r0\nbogus\nMOV r1, r2\n\nADD r16\nJMP x y");
    assert!(artifact.lines.is_none());
    assert_eq!(
        artifact.errors.expect("no errors"),
        vec![
            ParsingError {
                line: 1,
                error: LangParseError::InvalidMnemonic
            },
            ParsingError {
                line: 3,
                error: LangParseError::RegisterIndexOutOfBounds
            },
            ParsingError {
                line: 4,
                error: LangParseError::ExpectedComma
            },
        ]
    );
}

#[test]
fn address_errors_reach_the_artifact() {
    let artifact = parse_source("ADD 255\nADD 256\nADD 0x\nADD #256");
    assert!(artifact.lines.is_none());
    assert_eq!(
        artifact.errors.expect("no errors"),
        vec![
            ParsingError {
                line: 1,
                error: LangParseError::AddressOutOfBounds
            },
            ParsingError {
                line: 2,
                error: LangParseError::InvalidAddressArgument
            },
            ParsingError {
                line: 3,
                error: LangParseError::ConstantOutOfBounds
            },
        ]
    );
}

#[test]
fn single_malformed_line() {
    let artifact = parse_source("oops");
    assert!(artifact.lines.is_none());
    assert_eq!(
        artifact.errors.expect("no errors"),
        vec![ParsingError {
            line: 0,
            error: LangParseError::InvalidMnemonic
        }]
    );
}

#[test]
fn empty_source_has_no_lines_and_no_errors() {
    for source in ["", "\n", "\n\n\r\n"] {
        let artifact = parse_source(source);
        assert!(artifact.errors.is_none());
        assert_eq!(artifact.lines.expect("no lines").len(), 0);
    }
}

#[test]
fn parsing_a_source_is_repeatable() {
    let good = "a: ADD r0, 1\nMOV r1, \"x\"";
    let first = parse_source(good).lines.expect("no lines");
    let second = parse_source(good).lines.expect("no lines");
    assert_eq!(first.len(), second.len());
    for (one, other) in first.iter().zip(second.iter()) {
        assert_eq!(summary(one), summary(other));
    }
    let bad = "ADD r0\nx\n\ny :\n: z";
    assert_eq!(parse_source(bad).errors, parse_source(bad).errors);
    assert!(parse_source(bad).errors.is_some());
}

#[test]
fn many_lines_keep_their_order() {
    let mut source = String::new();
    for index in 0..2000 {
        source.push_str(&format!("ADD #{}\n", index % 256));
    }
    let lines = parse_source(&source).lines.expect("no lines");
    assert_eq!(lines.len(), 2000);
    for (index, line) in lines.iter().enumerate() {
        assert_eq!(line.arguments, vec![LangLiteral::Constant((index % 256) as u8)]);
    }
}

#[test]
fn many_errors_keep_their_order() {
    let mut source = String::new();
    for index in 0..1000 {
        if index % 3 == 0 {
            source.push_str("ADD r16\n");
        } else {
            source.push_str("ADD r1\n");
        }
    }
    let errors = parse_source(&source).errors.expect("no errors");
    assert_eq!(errors.len(), 334);
    for (position, error) in errors.iter().enumerate() {
        assert_eq!(error.line, position * 3);
        assert_eq!(error.error, LangParseError::RegisterIndexOutOfBounds);
    }
}

#[test]
fn physical_lines() {
    assert_eq!(split_lines("a\nb"), vec!["a", "b"]);
    assert_eq!(split_lines("a\nb\n"), vec!["a", "b"]);
    assert_eq!(split_lines("a\r\nb\r\n"), vec!["a", "b"]);
    assert_eq!(split_lines("a\n\nb"), vec!["a", "", "b"]);
    assert_eq!(split_lines("a\r\n\r\n"), vec!["a", ""]);
    assert_eq!(split_lines("a\rb\nc\r"), vec!["a\rb", "c\r"]);
    assert_eq!(split_lines("a\r\r\n"), vec!["a\r"]);
    assert_eq!(split_lines(""), Vec::<String>::new());
    assert_eq!(split_lines("\n"), vec![""]);
    assert_eq!(split_lines("\r"), vec!["\r"]);
}

#[test]
fn physical_lines_agree_with_std() {
    for source in [
        "", "a", "a\n", "\n", "\n\n", "a\nb", "a\r\nb", "a\rb", "a\r", "\r\n", "\r\r\n", "a\n\r",
        "foo\nbar\n\r\nbaz\r", "x\r\n\ny\n",
    ] {
        let expected: Vec<String> = source.lines().map(|line| line.to_string()).collect();
        assert_eq!(split_lines(source), expected, "{:?}", source);
    }
}

#[test]
fn empty_lines_are_dropped() {
    let lines = vec![
        "".to_string(),
        "a".to_string(),
        "".to_string(),
        " ".to_string(),
        "b".to_string(),
        "".to_string(),
    ];
    assert_eq!(without_empty_lines(&lines), vec!["a", " ", "b"]);
    assert_eq!(without_empty_lines(&vec![]), Vec::<String>::new());
}

#[test]
fn gathering_keeps_all_or_nothing() {
    let all = gather_results(vec![parse_command_line("ADD"), parse_command_line("x :")]);
    assert!(all.errors.is_none());
    assert_eq!(all.lines.expect("no lines").len(), 2);
    let some = gather_results(vec![
        parse_command_line("ADD"),
        Err(LangParseError::Other),
        parse_command_line("MOV"),
        Err(LangParseError::DuplicateLabel),
    ]);
    assert!(some.lines.is_none());
    assert_eq!(
        some.errors.expect("no errors"),
        vec![
            ParsingError {
                line: 1,
                error: LangParseError::Other
            },
            ParsingError {
                line: 3,
                error: LangParseError::DuplicateLabel
            },
        ]
    );
    let none = gather_results(vec![]);
    assert!(none.errors.is_none());
    assert_eq!(none.lines.expect("no lines").len(), 0);
}

#[test]
fn compiler_starts_unparsed() {
    let config = RiscCompilerConfig::default();
    assert_eq!(config.max_instruction_count, 256);
    let compiler = RiscCompiler::new("ADD".to_string(), config);
    assert_eq!(compiler.code, "ADD");
    assert!(compiler.parsed.is_none());
    assert_eq!(compiler.config, config);
}

#[test]
fn compiler_keeps_the_artifact() {
    let mut compiler = RiscCompiler::new("ADD r0\nbad".to_string(), RiscCompilerConfig::default());
    compiler.parse();
    assert_eq!(compiler.code, "ADD r0\nbad");
    let artifact = compiler.parsed.expect("Didn't parse");
    assert!(artifact.lines.is_none());
    assert_eq!(
        artifact.errors,
        Some(vec![ParsingError {
            line: 1,
            error: LangParseError::InvalidMnemonic
        }])
    );
}

fn line(mnemonic: Option<LangCommand>, arguments: Vec<LangLiteral>) -> SourceLine {
    SourceLine {
        label: None,
        mnemonic,
        arguments,
    }
}

#[test]
fn syntax_rules_of_a_line() {
    assert_eq!(
        validate_source_line(&line(Some(LangCommand::CODE), vec![])),
        None
    );
    assert_eq!(
        validate_source_line(&line(Some(LangCommand::CODE), vec![LangLiteral::Register(1)])),
        Some(LangSyntaxError::InstructionTakesZeroArguments)
    );
    assert_eq!(
        line(Some(LangCommand::ADD), vec![LangLiteral::Register(1)]).no_args(),
        Some(LangSyntaxError::InstructionTakesZeroArguments)
    );
    assert_eq!(line(Some(LangCommand::ADD), vec![]).no_args(), None);
    assert_eq!(
        validate_source_line(&line(None, vec![LangLiteral::Address(1)])),
        Some(LangSyntaxError::UnexpectedArguments)
    );
    assert_eq!(validate_source_line(&line(None, vec![])), None);
    assert_eq!(
        validate_source_line(&line(Some(LangCommand::ADD), vec![])),
        Some(LangSyntaxError::Other)
    );
}

#[test]
fn syntax_analysis_collects_every_error() {
    let lines = vec![
        line(Some(LangCommand::CODE), vec![]),
        line(Some(LangCommand::CODE), vec![LangLiteral::Constant(1)]),
        line(None, vec![]),
        line(None, vec![LangLiteral::Constant(1)]),
        line(Some(LangCommand::MOV), vec![]),
        SourceLine {
            label: Some("only".to_string()),
            mnemonic: None,
            arguments: vec![],
        },
    ];
    assert_eq!(
        analyze_syntax(&lines),
        vec![
            LangSyntaxError::InstructionTakesZeroArguments,
            LangSyntaxError::UnexpectedArguments,
            LangSyntaxError::Other,
        ]
    );
    assert_eq!(analyze_syntax(&vec![]), vec![]);
}

#[test]
fn syntax_analysis_of_parsed_source() {
    let lines = parse_source("CODE\nhere:\nCODE r1\n").lines.expect("no lines");
    assert_eq!(
        analyze_syntax(&lines),
        vec![LangSyntaxError::InstructionTakesZeroArguments]
    );
}

#[test]
fn interpreter_splits_at_spaces() {
    assert_eq!(
        RiscInterpreter::new("MOV r0, 1".to_string()).source_lines,
        vec!["MOV", "r0,", "1"]
    );
    assert_eq!(
        RiscInterpreter::new(" a  b ".to_string()).source_lines,
        vec!["", "a", "", "b", ""]
    );
    assert_eq!(RiscInterpreter::new("".to_string()).source_lines, vec![""]);
    assert_eq!(
        RiscInterpreter::new("a\nb".to_string()).source_lines,
        vec!["a\nb"]
    );
}

#[test]
fn text_is_split_at_the_separator() {
    assert_eq!(split_text("a,b,,c", ','), vec!["a", "b", "", "c"]);
    assert_eq!(split_text(",", ','), vec!["", ""]);
    assert_eq!(split_text("abc", ','), vec!["abc"]);
    for text in ["", " ", "a b", "  a", "b  ", "a  b c"] {
        let expected: Vec<String> = text.split(' ').map(|piece| piece.to_string()).collect();
        assert_eq!(split_text(text, ' '), expected);
    }
}

#[test]
fn characters_and_strings() {
    assert_eq!(chars_of("aé\n"), vec!['a', 'é', '\n']);
    assert_eq!(chars_of(""), Vec::<char>::new());
    let chars = vec!['h', 'e', 'l', 'l', 'o'];
    assert_eq!(string_of(&chars, 1, 4), "ell");
    assert_eq!(string_of(&chars, 2, 2), "");
    assert_eq!(string_of(&chars, 0, 5), "hello");
    assert!(chars_equal(&chars, &chars_of("hello")));
    assert!(!chars_equal(&chars, &chars_of("hellO")));
    assert!(!chars_equal(&chars, &chars_of("hell")));
    assert!(chars_spell(&chars, "hello"));
    assert!(!chars_spell(&chars, "help"));
    assert!(str_equal("", ""));
    assert!(str_equal(":", ":"));
    assert!(!str_equal(":", ","));
    assert!(!str_equal(":", "::"));
}
