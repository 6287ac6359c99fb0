//! Splitting one source line into tokens.
//!
//! The scanner reads a line character by character. What it has seen so far
//! is a [`ScanState`]; [`scan_char`] says how one character changes it, and
//! [`line_tokens`] is the sequence of tokens of a whole line.
//!
//! Blanks separate tokens, except inside a span quoted by `"` or `'`, whose
//! delimiters stay in the token. A comma or a colon is always a token of
//! its own. A backslash escapes the one character that follows it: `\t`,
//! `\n` and `\r` stand for tab, line feed and carriage return, an escaped
//! quote opens or closes no span, and an escaped semicolon starts no
//! comment. An escaped blank still separates tokens, and an escaped comma or
//! colon is still a token of its own. A semicolon outside a span starts a
//! comment, which runs to the end of the line. A backslash at the end of a
//! line escapes nothing and is dropped.

use crate::error::LangParseError;
use crate::text::chars_of;
use vstd::prelude::*;

verus! {

/// What the scanner knows after reading a prefix of a line.
pub struct ScanState {
    /// The tokens completed so far, in source order.
    pub tokens: Seq<Seq<char>>,
    /// The characters of the token under construction.
    pub buffer: Seq<char>,
    /// Inside a span delimited by `'`.
    pub in_char: bool,
    /// Inside a span delimited by `"`.
    pub in_string: bool,
    /// The previous character was a backslash that starts an escape.
    pub last_backslash: bool,
    /// A `;` has started a comment: the rest of the line is ignored.
    pub in_comment: bool,
}

/// The state before the first character of a line.
pub open spec fn initial_state() -> ScanState {
    ScanState {
        tokens: Seq::empty(),
        buffer: Seq::empty(),
        in_char: false,
        in_string: false,
        last_backslash: false,
        in_comment: false,
    }
}

/// Space, tab, carriage return and line feed separate tokens.
pub open spec fn is_blank(c: char) -> bool {
    c == ' ' || c == '\r' || c == '\n' || c == '\t'
}

/// The character that `c` stands for when it follows a backslash.
pub open spec fn escaped_character(c: char) -> char {
    if c == 't' {
        '\t'
    } else if c == 'n' {
        '\n'
    } else if c == 'r' {
        '\r'
    } else {
        c
    }
}

/// Ends the token under construction, if there is one.
pub open spec fn flushed(s: ScanState) -> ScanState {
    if s.buffer.len() > 0 {
        ScanState { tokens: s.tokens.push(s.buffer), buffer: Seq::empty(), ..s }
    } else {
        s
    }
}

/// Adds `c` to the token under construction.
pub open spec fn appended(s: ScanState, c: char) -> ScanState {
    ScanState { buffer: s.buffer.push(c), ..s }
}

/// What a character other than an escape-starting backslash does to the
/// state; `s.last_backslash` says whether the character is escaped.
pub open spec fn consumed(s: ScanState, c: char) -> ScanState {
    if c == '\\' {
        appended(s, '\\')
    } else if is_blank(c) {
        if s.in_char || s.in_string {
            appended(s, c)
        } else {
            flushed(s)
        }
    } else if c == '"' {
        appended(
            ScanState { in_string: if s.last_backslash { s.in_string } else { !s.in_string }, ..s },
            c,
        )
    } else if c == '\'' {
        appended(
            ScanState { in_char: if s.last_backslash { s.in_char } else { !s.in_char }, ..s },
            c,
        )
    } else if c == ',' || c == ':' {
        flushed(appended(flushed(s), c))
    } else if c == ';' {
        if s.last_backslash || s.in_string || s.in_char {
            appended(s, c)
        } else {
            ScanState { in_comment: true, ..s }
        }
    } else {
        appended(s, if s.last_backslash { escaped_character(c) } else { c })
    }
}

/// The state after reading `c` in state `s`.
///
/// A backslash that is not itself escaped starts an escape, which holds for
/// the one character that follows. Inside a comment nothing changes.
pub open spec fn scan_char(s: ScanState, c: char) -> ScanState {
    if s.in_comment {
        s
    } else if c == '\\' && !s.last_backslash {
        ScanState { last_backslash: true, ..s }
    } else {
        ScanState { last_backslash: false, ..consumed(s, c) }
    }
}

/// The state after reading all of `text`, starting in state `s`.
pub open spec fn scan(s: ScanState, text: Seq<char>) -> ScanState
    decreases text.len(),
{
    if text.len() == 0 {
        s
    } else {
        scan_char(scan(s, text.drop_last()), text.last())
    }
}

/// The tokens of a line: what the scanner has completed at the end of the
/// line, and the token then under construction, if any.
pub open spec fn line_tokens(line: Seq<char>) -> Seq<Seq<char>> {
    flushed(scan(initial_state(), line)).tokens
}

/// No completed token is empty.
pub open spec fn tokens_nonempty(tokens: Seq<Seq<char>>) -> bool {
    forall|i: int| 0 <= i < tokens.len() ==> (#[trigger] tokens[i]).len() > 0
}

/// Reading one more character keeps every completed token non-empty.
pub proof fn lemma_scan_char_tokens_nonempty(s: ScanState, c: char)
    requires
        tokens_nonempty(s.tokens),
    ensures
        tokens_nonempty(scan_char(s, c).tokens),
        tokens_nonempty(flushed(s).tokens),
{
    let f = flushed(s);
    assert(tokens_nonempty(f.tokens));
    let a = appended(f, c);
    assert(tokens_nonempty(flushed(a).tokens));
}

/// Reading any text keeps every completed token non-empty.
pub proof fn lemma_scan_tokens_nonempty(s: ScanState, text: Seq<char>)
    requires
        tokens_nonempty(s.tokens),
    ensures
        tokens_nonempty(scan(s, text).tokens),
    decreases text.len(),
{
    if text.len() > 0 {
        lemma_scan_tokens_nonempty(s, text.drop_last());
        lemma_scan_char_tokens_nonempty(scan(s, text.drop_last()), text.last());
    }
}

/// No token of a line is empty.
pub proof fn lemma_line_tokens_nonempty(line: Seq<char>)
    ensures
        tokens_nonempty(line_tokens(line)),
{
    lemma_scan_tokens_nonempty(initial_state(), line);
    lemma_scan_char_tokens_nonempty(scan(initial_state(), line), ' ');
}

/// Commas and colons are never part of a longer token.
pub open spec fn is_punctuation(c: char) -> bool {
    c == ',' || c == ':'
}

/// A token that holds a comma or a colon holds nothing else.
pub open spec fn punctuation_alone(tokens: Seq<Seq<char>>) -> bool {
    forall|i: int, k: int|
        0 <= i < tokens.len() && 0 <= k < tokens[i].len() && is_punctuation(#[trigger] tokens[i][k])
            ==> tokens[i].len() == 1
}

/// The token under construction holds neither a comma nor a colon.
pub open spec fn buffer_without_punctuation(s: ScanState) -> bool {
    forall|k: int| 0 <= k < s.buffer.len() ==> !is_punctuation(#[trigger] s.buffer[k])
}

/// Reading one more character keeps commas and colons on their own.
pub proof fn lemma_scan_char_punctuation(s: ScanState, c: char)
    requires
        punctuation_alone(s.tokens),
        buffer_without_punctuation(s),
    ensures
        punctuation_alone(scan_char(s, c).tokens),
        buffer_without_punctuation(scan_char(s, c)),
        punctuation_alone(flushed(s).tokens),
        buffer_without_punctuation(flushed(s)),
{
    let f = flushed(s);
    assert(punctuation_alone(f.tokens));
    let a = appended(f, c);
    assert(a.buffer.len() == 1);
    assert(punctuation_alone(flushed(a).tokens));
}

/// Reading any text keeps commas and colons on their own.
pub proof fn lemma_scan_punctuation(s: ScanState, text: Seq<char>)
    requires
        punctuation_alone(s.tokens),
        buffer_without_punctuation(s),
    ensures
        punctuation_alone(scan(s, text).tokens),
        buffer_without_punctuation(scan(s, text)),
    decreases text.len(),
{
    if text.len() > 0 {
        lemma_scan_punctuation(s, text.drop_last());
        lemma_scan_char_punctuation(scan(s, text.drop_last()), text.last());
    }
}

/// In the tokens of a line, a comma or a colon is always a token of its
/// own.
pub proof fn lemma_line_tokens_punctuation(line: Seq<char>)
    ensures
        punctuation_alone(line_tokens(line)),
{
    lemma_scan_punctuation(initial_state(), line);
    lemma_scan_char_punctuation(scan(initial_state(), line), ' ');
}

/// A character with no meaning of its own to the scanner.
pub open spec fn is_plain(c: char) -> bool {
    !is_blank(c) && !is_punctuation(c) && c != '\\' && c != '"' && c != '\'' && c != ';'
}

/// Plain characters gather in the token under construction.
pub proof fn lemma_scan_plain_text(s: ScanState, text: Seq<char>)
    requires
        !s.in_comment,
        !s.last_backslash,
        forall|k: int| 0 <= k < text.len() ==> is_plain(#[trigger] text[k]),
    ensures
        scan(s, text) == (ScanState { buffer: s.buffer + text, ..s }),
    decreases text.len(),
{
    if text.len() == 0 {
        assert(s.buffer + text =~= s.buffer);
    } else {
        let shorter = text.drop_last();
        assert forall|k: int| 0 <= k < shorter.len() implies is_plain(#[trigger] shorter[k]) by {
            assert(shorter[k] == text[k]);
        }
        lemma_scan_plain_text(s, shorter);
        assert(is_plain(text[text.len() - 1]));
        assert((s.buffer + shorter).push(text.last()) =~= s.buffer + text);
    }
}

/// A line of plain characters is one token: the line itself.
pub proof fn lemma_plain_line_is_one_token(line: Seq<char>)
    requires
        line.len() > 0,
        forall|k: int| 0 <= k < line.len() ==> is_plain(#[trigger] line[k]),
    ensures
        line_tokens(line) == seq![line],
{
    lemma_scan_plain_text(initial_state(), line);
    assert(Seq::<char>::empty() + line =~= line);
    assert(line_tokens(line) =~= seq![line]);
}

/// A word is made of plain characters and is not empty.
pub open spec fn is_word(token: Seq<char>) -> bool {
    token.len() > 0 && forall|k: int| 0 <= k < token.len() ==> is_plain(#[trigger] token[k])
}

/// A simple token is a word, or a single comma or colon.
pub open spec fn is_simple_token(token: Seq<char>) -> bool {
    is_word(token) || (token.len() == 1 && is_punctuation(token[0]))
}

/// Every token is simple.
pub open spec fn simple_tokens(tokens: Seq<Seq<char>>) -> bool {
    forall|i: int| 0 <= i < tokens.len() ==> is_simple_token(#[trigger] tokens[i])
}

/// The tokens written one after the other, with one space between each
/// two of them.
pub open spec fn joined(tokens: Seq<Seq<char>>) -> Seq<char>
    decreases tokens.len(),
{
    if tokens.len() == 0 {
        Seq::empty()
    } else if tokens.len() == 1 {
        tokens[0]
    } else {
        joined(tokens.drop_last()).push(' ') + tokens.last()
    }
}

/// A line without backslash, quote and semicolon: it has neither escapes
/// nor spans nor a comment.
pub open spec fn is_bare(line: Seq<char>) -> bool {
    forall|k: int|
        0 <= k < line.len() ==> (#[trigger] line[k]) != '\\' && line[k] != '"' && line[k] != '\''
            && line[k] != ';'
}

/// The scanner is outside every span, escape and comment, has completed
/// simple tokens only, and holds plain characters only.
pub open spec fn is_bare_state(s: ScanState) -> bool {
    &&& !s.in_char && !s.in_string && !s.last_backslash && !s.in_comment
    &&& simple_tokens(s.tokens)
    &&& forall|k: int| 0 <= k < s.buffer.len() ==> is_plain(#[trigger] s.buffer[k])
}

/// Reading a bare line leaves the scanner in a bare state.
pub proof fn lemma_scan_bare(s: ScanState, line: Seq<char>)
    requires
        is_bare_state(s),
        is_bare(line),
    ensures
        is_bare_state(scan(s, line)),
        is_bare_state(flushed(scan(s, line))),
    decreases line.len(),
{
    if line.len() > 0 {
        let shorter = line.drop_last();
        assert forall|k: int| 0 <= k < shorter.len() implies (#[trigger] shorter[k]) != '\\'
            && shorter[k] != '"' && shorter[k] != '\'' && shorter[k] != ';' by {
            assert(shorter[k] == line[k]);
        }
        lemma_scan_bare(s, shorter);
        let before = scan(s, shorter);
        let c = line.last();
        assert(c == line[line.len() - 1]);
        let f = flushed(before);
        assert(is_bare_state(f)) by {
            if before.buffer.len() > 0 {
                assert(is_word(before.buffer));
            }
        }
        if is_punctuation(c) {
            let a = appended(f, c);
            assert(a.buffer.len() == 1 && a.buffer[0] == c);
            assert(is_simple_token(a.buffer));
            assert(is_bare_state(flushed(a)));
        } else if is_blank(c) {
        } else {
            assert(is_plain(c));
            assert(is_bare_state(scan_char(before, c)));
        }
    }
    let after = scan(s, line);
    if after.buffer.len() > 0 {
        assert(is_word(after.buffer));
    }
}

/// The tokens of a bare line are words, commas and colons.
pub proof fn lemma_bare_line_tokens(line: Seq<char>)
    requires
        is_bare(line),
    ensures
        simple_tokens(line_tokens(line)),
{
    lemma_scan_bare(initial_state(), line);
}

/// Reading simple tokens that are joined by spaces yields those tokens:
/// all of them are completed, but for a word at the end, which is still
/// under construction.
pub proof fn lemma_scan_joined(tokens: Seq<Seq<char>>)
    requires
        simple_tokens(tokens),
    ensures
        is_bare_state(scan(initial_state(), joined(tokens))),
        flushed(scan(initial_state(), joined(tokens))).tokens == tokens,
        tokens.len() > 0 && !is_word(tokens.last()) ==> scan(
            initial_state(),
            joined(tokens),
        ).buffer.len() == 0,
    decreases tokens.len(),
{
    let start = initial_state();
    if tokens.len() == 0 {
        assert(flushed(scan(start, joined(tokens))).tokens =~= tokens);
    } else {
        let last = tokens.last();
        assert(is_simple_token(last));
        let earlier = tokens.drop_last();
        assert forall|i: int| 0 <= i < earlier.len() implies is_simple_token(
            #[trigger] earlier[i],
        ) by {
            assert(earlier[i] == tokens[i]);
        }
        // The state in which the last token is read: the earlier tokens are
        // completed and nothing is under construction.
        let ready = ScanState { tokens: earlier, ..start };
        let head = if tokens.len() == 1 {
            Seq::<char>::empty()
        } else {
            joined(earlier).push(' ')
        };
        assert(joined(tokens) =~= head + last);
        assert(scan(start, head) == ready) by {
            if tokens.len() == 1 {
                assert(earlier =~= Seq::<Seq<char>>::empty());
            } else {
                lemma_scan_joined(earlier);
                assert(head.drop_last() =~= joined(earlier));
                assert(head.last() == ' ');
                let read = scan(start, joined(earlier));
                assert(scan(start, head) == scan_char(read, ' '));
                assert(scan_char(read, ' ') == flushed(read));
            }
        }
        lemma_scan_split(start, joined(tokens), head.len() as int);
        assert(joined(tokens).take(head.len() as int) =~= head);
        assert(joined(tokens).skip(head.len() as int) =~= last);
        assert(scan(start, joined(tokens)) == scan(ready, last));
        if is_word(last) {
            lemma_scan_plain_text(ready, last);
            assert(ready.buffer + last =~= last);
            assert(flushed(scan(ready, last)).tokens =~= tokens);
        } else {
            let c = last[0];
            assert(last.drop_last() =~= Seq::<char>::empty());
            assert(last.last() == c);
            assert(scan(ready, last) == scan_char(ready, c));
            let a = appended(flushed(ready), c);
            assert(a.buffer =~= last);
            assert(scan_char(ready, c).tokens =~= tokens);
            assert(scan_char(ready, c).buffer.len() == 0);
        }
    }
}

/// The tokens of a bare line, joined by spaces, are tokenized into the
/// same tokens again.
pub proof fn lemma_bare_line_rejoined(line: Seq<char>)
    requires
        is_bare(line),
    ensures
        line_tokens(joined(line_tokens(line))) == line_tokens(line),
{
    lemma_bare_line_tokens(line);
    lemma_scan_joined(line_tokens(line));
}

/// Once a comment has started, the rest of the line changes nothing.
pub proof fn lemma_comment_absorbs(s: ScanState, text: Seq<char>)
    requires
        s.in_comment,
    ensures
        scan(s, text) == s,
    decreases text.len(),
{
    if text.len() > 0 {
        lemma_comment_absorbs(s, text.drop_last());
    }
}

/// Reading `text` is reading a prefix of it and then the rest.
pub proof fn lemma_scan_split(s: ScanState, text: Seq<char>, at: int)
    requires
        0 <= at <= text.len(),
    ensures
        scan(s, text) == scan(scan(s, text.take(at)), text.skip(at)),
    decreases text.len(),
{
    if at == text.len() {
        assert(text.take(at) =~= text);
        assert(text.skip(at) =~= Seq::<char>::empty());
    } else {
        let shorter = text.drop_last();
        lemma_scan_split(s, shorter, at);
        assert(shorter.take(at) =~= text.take(at));
        assert(shorter.skip(at) =~= text.skip(at).drop_last());
        assert(text.skip(at).last() == text.last());
    }
}

/// The scanner's working state.
pub struct LangTokenizerContext {
    pub buffer: String,
    pub in_char: bool,
    pub in_string: bool,
    pub tokens: Vec<String>,
    pub last_backslash: bool,
    pub in_comment: bool,
}

impl View for LangTokenizerContext {
    type V = ScanState;

    open spec fn view(&self) -> ScanState {
        ScanState {
            tokens: self.tokens.deep_view(),
            buffer: self.buffer@,
            in_char: self.in_char,
            in_string: self.in_string,
            last_backslash: self.last_backslash,
            in_comment: self.in_comment,
        }
    }
}

/// Ends the token under construction, if there is one.
pub fn flush_buffer(ctx: LangTokenizerContext) -> (flushed_ctx: LangTokenizerContext)
    ensures
        flushed_ctx@ == flushed(ctx@),
{
    let LangTokenizerContext { buffer, in_char, in_string, mut tokens, last_backslash, in_comment } =
        ctx;
    if buffer.as_str().is_empty() {
        LangTokenizerContext { buffer, in_char, in_string, tokens, last_backslash, in_comment }
    } else {
        let ghost before = tokens.deep_view();
        tokens.push(buffer);
        assert(tokens.deep_view() =~= before.push(buffer@));
        LangTokenizerContext {
            buffer: String::new(),
            in_char,
            in_string,
            tokens,
            last_backslash,
            in_comment,
        }
    }
}

/// The character that `next_char` stands for when it follows a backslash.
pub fn get_escaped_character(next_char: char) -> (c: char)
    ensures
        c == escaped_character(next_char),
{
    match next_char {
        't' => '\t',
        'n' => '\n',
        'r' => '\r',
        _ => next_char,
    }
}

/// The character to store for `next_char`: itself, or what it stands for
/// when the scanner has just read a backslash.
pub fn get_next_escaped_char(ctx: &LangTokenizerContext, next_char: char) -> (c: char)
    ensures
        c == if ctx.last_backslash {
            escaped_character(next_char)
        } else {
            next_char
        },
{
    if !ctx.last_backslash {
        next_char
    } else {
        get_escaped_character(next_char)
    }
}

/// Splits a source line into its tokens.
///
/// Never fails: every line has a sequence of tokens, possibly empty, and
/// none of the tokens is empty.
pub fn tokenize_source_line(line: &str) -> (result: Result<Vec<String>, LangParseError>)
    ensures
        result is Ok,
        result->Ok_0.deep_view() == line_tokens(line@),
        tokens_nonempty(line_tokens(line@)),
{
    let chars = chars_of(line);
    let mut ctx = LangTokenizerContext {
        buffer: String::new(),
        in_char: false,
        in_string: false,
        tokens: Vec::new(),
        last_backslash: false,
        in_comment: false,
    };
    assert(ctx@ == initial_state()) by {
        assert(ctx.tokens.deep_view() =~= Seq::<Seq<char>>::empty());
    }
    assert(chars@.take(0) =~= Seq::<char>::empty());

    let mut i: usize = 0;
    while i < chars.len() && !ctx.in_comment
        invariant
            i <= chars@.len(),
            ctx@ == scan(initial_state(), chars@.take(i as int)),
        decreases chars@.len() - i,
    {
        let c = chars[i];
        let ghost before = ctx@;
        if c == '\\' && !ctx.last_backslash {
            ctx.last_backslash = true;
        } else {
            if c == '\\' {
                ctx.buffer.push('\\');
            } else if c == ' ' || c == '\r' || c == '\n' || c == '\t' {
                if ctx.in_char || ctx.in_string {
                    ctx.buffer.push(c);
                } else {
                    ctx = flush_buffer(ctx);
                }
            } else if c == '"' || c == '\'' {
                if !ctx.last_backslash {
                    if c == '"' {
                        ctx.in_string = !ctx.in_string;
                    } else {
                        ctx.in_char = !ctx.in_char;
                    }
                }
                ctx.buffer.push(c);
            } else if c == ',' || c == ':' {
                ctx = flush_buffer(ctx);
                ctx.buffer.push(c);
                ctx = flush_buffer(ctx);
            } else if c == ';' {
                if ctx.last_backslash || ctx.in_string || ctx.in_char {
                    ctx.buffer.push(c);
                } else {
                    ctx.in_comment = true;
                }
            } else {
                let stored = get_next_escaped_char(&ctx, c);
                ctx.buffer.push(stored);
            }
            ctx.last_backslash = false;
        }
        assert(ctx@ == scan_char(before, c));
        i += 1;
        proof {
            let read = chars@.take(i as int);
            assert(read.drop_last() =~= chars@.take(i - 1));
            assert(read.last() == c);
        }
    }
    proof {
        lemma_scan_split(initial_state(), chars@, i as int);
        if ctx.in_comment {
            lemma_comment_absorbs(ctx@, chars@.skip(i as int));
        } else {
            assert(chars@.skip(i as int) =~= Seq::<char>::empty());
        }
        lemma_line_tokens_nonempty(line@);
    }
    ctx = flush_buffer(ctx);
    Ok(ctx.tokens)
}

} // verus!
