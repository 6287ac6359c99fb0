use neorisc_lib::parser::line_tokenizer::{
    flush_buffer, get_escaped_character, get_next_escaped_char, tokenize_source_line,
    LangTokenizerContext,
};

fn tokens_of(line: &str) -> Vec<String> {
    tokenize_source_line(line).expect("Tokenizer failed")
}

#[test]
fn line_tokenizer_it_works() {
    let tokens = tokenize_source_line("hello  : world").expect("Tokenizer failed");

    println!("tokens: {:?}", tokens);
    assert_eq!(tokens.len(), 3);
}

#[test]
fn char_parse() {
    let tokens = tokenize_source_line("hello ' '").expect("Tokenizer failed");

    println!("tokens: {:?}", tokens);
    println!("second: {}", tokens[1]);
    assert_eq!(tokens.len(), 2);
}

#[test]
fn str_parse() {
    let tokens =
        tokenize_source_line("MOV r0, \"Hello World!\\n\\r\"").expect("Tokenizer failed");

    println!("tokens: {:?}", tokens);
    println!("last: {}", tokens[3]);
    assert_eq!(tokens.len(), 4);
}

#[test]
fn colon_is_its_own_token() {
    assert_eq!(tokens_of("hello  : world"), vec!["hello", ":", "world"]);
    assert_eq!(tokens_of("a:b"), vec!["a", ":", "b"]);
    assert_eq!(tokens_of("::"), vec![":", ":"]);
}

#[test]
fn comma_is_its_own_token() {
    assert_eq!(tokens_of("ADD r0,r1"), vec!["ADD", "r0", ",", "r1"]);
    assert_eq!(tokens_of("a , b"), vec!["a", ",", "b"]);
    assert_eq!(tokens_of(",,"), vec![",", ","]);
}

#[test]
fn quoted_char_keeps_its_delimiters() {
    assert_eq!(tokens_of("hello ' '"), vec!["hello", "' '"]);
}

#[test]
fn escapes_are_decoded_inside_strings() {
    let tokens = tokens_of("MOV r0, \"Hello World!\\n\\r\"");
    assert_eq!(tokens, vec!["MOV", "r0", ",", "\"Hello World!\n\r\""]);
    assert!(!tokens[3].contains('\\'));
}

#[test]
fn escape_holds_for_one_character() {
    assert_eq!(tokens_of("a\\tb\\\\n"), vec!["a\tb\\n"]);
    assert_eq!(tokens_of("\\nn"), vec!["\nn"]);
    assert_eq!(tokens_of("x\\qy"), vec!["xqy"]);
}

#[test]
fn escaped_quote_does_not_open_a_span() {
    assert_eq!(tokens_of("a\\\" b"), vec!["a\"", "b"]);
    assert_eq!(tokens_of("\"a\\\" b\" c"), vec!["\"a\" b\"", "c"]);
}

#[test]
fn whitespace_separates_tokens() {
    assert_eq!(tokens_of("  a\tb\r\nc  "), vec!["a", "b", "c"]);
    assert_eq!(tokens_of(""), Vec::<String>::new());
    assert_eq!(tokens_of(" \t "), Vec::<String>::new());
}

#[test]
fn semicolon_starts_a_comment() {
    assert_eq!(tokens_of("ADD r0 ; the rest, ignored: all"), vec!["ADD", "r0"]);
    assert_eq!(tokens_of("; only a comment"), Vec::<String>::new());
    assert_eq!(tokens_of("ADD;x"), vec!["ADD"]);
}

#[test]
fn semicolon_is_content_when_quoted_or_escaped() {
    assert_eq!(tokens_of("\"a;b\" c"), vec!["\"a;b\"", "c"]);
    assert_eq!(tokens_of("';' c"), vec!["';'", "c"]);
    assert_eq!(tokens_of("a\\;b c"), vec!["a;b", "c"]);
}

#[test]
fn trailing_backslash_is_dropped() {
    assert_eq!(tokens_of("abc\\"), vec!["abc"]);
    assert_eq!(tokens_of("\\"), Vec::<String>::new());
}

#[test]
fn no_token_is_empty() {
    for line in ["", " ", ",", "a,,b", "\"\"", " : ", "a ; b", "\\ ", "x\\"] {
        for token in tokens_of(line) {
            assert!(!token.is_empty());
        }
    }
}

#[test]
fn tokenizing_is_repeatable() {
    let line = "loop: MOV r0, \"a b\" ; done";
    assert_eq!(tokens_of(line), tokens_of(line));
}

#[test]
fn escaped_characters() {
    assert_eq!(get_escaped_character('\\'), '\\');
    assert_eq!(get_escaped_character('t'), '\t');
    assert_eq!(get_escaped_character('n'), '\n');
    assert_eq!(get_escaped_character('r'), '\r');
    assert_eq!(get_escaped_character('x'), 'x');
}

fn context(buffer: &str, last_backslash: bool) -> LangTokenizerContext {
    LangTokenizerContext {
        buffer: buffer.to_string(),
        in_char: false,
        in_string: false,
        tokens: vec!["first".to_string()],
        last_backslash,
        in_comment: false,
    }
}

#[test]
fn next_escaped_char_follows_the_backslash() {
    assert_eq!(get_next_escaped_char(&context("", false), 'n'), 'n');
    assert_eq!(get_next_escaped_char(&context("", true), 'n'), '\n');
}

#[test]
fn flush_moves_the_buffer_to_the_tokens() {
    let flushed = flush_buffer(context("second", false));
    assert_eq!(flushed.tokens, vec!["first", "second"]);
    assert_eq!(flushed.buffer, "");
    let unchanged = flush_buffer(context("", true));
    assert_eq!(unchanged.tokens, vec!["first"]);
    assert!(unchanged.last_backslash);
}

#[test]
fn tokens_joined_by_spaces_tokenize_to_themselves() {
    for line in ["", "a", "  a ,b:c  d,", "loop: ADD r0,r1", ",,::", "x\ty\r\nz", " : "] {
        let tokens = tokens_of(line);
        assert_eq!(tokens_of(&tokens.join(" ")), tokens, "{:?}", line);
    }
}

#[test]
fn plain_line_is_one_token() {
    for line in ["a", "abc_DEF-123", "r0", "#0xff", "é!?"] {
        assert_eq!(tokens_of(line), vec![line]);
    }
}
