//! Parsing a whole source text, line by line.
//!
//! The text is split into physical lines, empty lines are dropped, and each
//! remaining line is parsed on its own. The outcome is all or nothing: the
//! parsed lines if every line parsed, the errors of all malformed lines if
//! one did not.

use crate::error::LangParseError;
use crate::parser::command_parser::{parse_command_line, parse_line, SourceLine, SourceLineView};
use crate::text::{chars_of, result_view, split_on, split_text, string_of};
use rayon::iter::{IntoParallelRefIterator, ParallelIterator};
use vstd::prelude::*;

verus! {

/// A malformed line: its position among the non-empty lines, from 0, and
/// why it did not parse.
#[derive(Debug, Clone, Copy, PartialEq, Eq, Structural)]
pub struct ParsingError {
    pub line: usize,
    pub error: LangParseError,
}

/// The outcome of parsing a source text: the parsed lines, or the errors.
pub struct LangParsingArtifact {
    pub lines: Option<Vec<SourceLine>>,
    pub errors: Option<Vec<ParsingError>>,
}

/// What an artifact holds.
pub struct ArtifactView {
    pub lines: Option<Seq<SourceLineView>>,
    pub errors: Option<Seq<ParsingError>>,
}

impl View for LangParsingArtifact {
    type V = ArtifactView;

    open spec fn view(&self) -> ArtifactView {
        ArtifactView {
            lines: match self.lines {
                Some(lines) => Some(lines@.map_values(|line: SourceLine| line@)),
                None => None,
            },
            errors: match self.errors {
                Some(errors) => Some(errors@),
                None => None,
            },
        }
    }
}

/// `line` without the carriage return at its end, if it has one.
pub open spec fn without_carriage_return(line: Seq<char>) -> Seq<char> {
    if line.len() > 0 && line.last() == '\r' {
        line.drop_last()
    } else {
        line
    }
}

/// The physical lines of `text`. A line ends at a line feed, and a carriage
/// return just before that line feed belongs to the line ending. What
/// follows the last line feed is a line too, unless it is empty.
pub open spec fn source_lines(text: Seq<char>) -> Seq<Seq<char>> {
    let pieces = split_on(text, '\n');
    let ended = pieces.drop_last().map_values(|piece: Seq<char>| without_carriage_return(piece));
    if pieces.last().len() > 0 {
        ended.push(pieces.last())
    } else {
        ended
    }
}

/// The lines that are not empty, in their order.
pub open spec fn nonempty_lines(lines: Seq<Seq<char>>) -> Seq<Seq<char>> {
    lines.filter(|line: Seq<char>| line.len() > 0)
}

/// The outcome of parsing each line.
pub open spec fn line_outcomes(lines: Seq<Seq<char>>) -> Seq<Result<SourceLineView, LangParseError>> {
    lines.map_values(|line: Seq<char>| parse_line(line))
}

/// The lines that parsed, in their order.
pub open spec fn parsed_lines(outcomes: Seq<Result<SourceLineView, LangParseError>>) -> Seq<
    SourceLineView,
>
    decreases outcomes.len(),
{
    if outcomes.len() == 0 {
        Seq::empty()
    } else {
        let before = parsed_lines(outcomes.drop_last());
        match outcomes.last() {
            Ok(line) => before.push(line),
            Err(_) => before,
        }
    }
}

/// The errors of the lines that did not parse, in their order, each with
/// the position of its line.
pub open spec fn parsing_errors(outcomes: Seq<Result<SourceLineView, LangParseError>>) -> Seq<
    ParsingError,
>
    decreases outcomes.len(),
{
    if outcomes.len() == 0 {
        Seq::empty()
    } else {
        let before = parsing_errors(outcomes.drop_last());
        match outcomes.last() {
            Ok(_) => before,
            Err(error) => before.push(
                ParsingError { line: (outcomes.len() - 1) as usize, error },
            ),
        }
    }
}

/// The artifact for the outcomes of all lines: the errors if there is one,
/// the parsed lines if there is none.
pub open spec fn gathered(outcomes: Seq<Result<SourceLineView, LangParseError>>) -> ArtifactView {
    if parsing_errors(outcomes).len() > 0 {
        ArtifactView { lines: None, errors: Some(parsing_errors(outcomes)) }
    } else {
        ArtifactView { lines: Some(parsed_lines(outcomes)), errors: None }
    }
}

/// The artifact of a source text.
pub open spec fn parse_text(source: Seq<char>) -> ArtifactView {
    gathered(line_outcomes(nonempty_lines(source_lines(source))))
}

/// The outcomes of a list of results, each success by its view.
pub open spec fn outcome_views(results: Seq<Result<SourceLine, LangParseError>>) -> Seq<
    Result<SourceLineView, LangParseError>,
> {
    results.map_values(|result: Result<SourceLine, LangParseError>| result_view(result))
}

/// An artifact holds either lines or errors, never both and never neither,
/// and where it holds errors it holds at least one.
pub proof fn lemma_gathered_is_exclusive(outcomes: Seq<Result<SourceLineView, LangParseError>>)
    ensures
        gathered(outcomes).lines is Some <==> gathered(outcomes).errors is None,
        gathered(outcomes).errors is Some ==> gathered(outcomes).errors->Some_0.len() >= 1,
{
}

/// Every outcome is either a parsed line or an error, each error names a
/// line that did not parse, the errors come in the order of their lines,
/// and every line that did not parse has its error.
pub proof fn lemma_parsing_errors(outcomes: Seq<Result<SourceLineView, LangParseError>>)
    requires
        outcomes.len() <= usize::MAX,
    ensures
        parsed_lines(outcomes).len() + parsing_errors(outcomes).len() == outcomes.len(),
        forall|k: int|
            0 <= k < parsing_errors(outcomes).len() ==> {
                let found = #[trigger] parsing_errors(outcomes)[k];
                found.line < outcomes.len() && outcomes[found.line as int] == Err::<
                    SourceLineView,
                    LangParseError,
                >(found.error)
            },
        forall|j: int, k: int|
            0 <= j < k < parsing_errors(outcomes).len() ==> (#[trigger] parsing_errors(
                outcomes,
            )[j]).line < (#[trigger] parsing_errors(outcomes)[k]).line,
        forall|i: int|
            0 <= i < outcomes.len() && (#[trigger] outcomes[i]) is Err ==> exists|k: int|
                0 <= k < parsing_errors(outcomes).len() && (#[trigger] parsing_errors(
                    outcomes,
                )[k]).line == i,
    decreases outcomes.len(),
{
    if outcomes.len() > 0 {
        let shorter = outcomes.drop_last();
        lemma_parsing_errors(shorter);
        let errors = parsing_errors(outcomes);
        let before = parsing_errors(shorter);
        assert forall|i: int| 0 <= i < outcomes.len() && (#[trigger] outcomes[i]) is Err implies exists|
            k: int,
        |
            0 <= k < errors.len() && (#[trigger] errors[k]).line == i by {
            if i < shorter.len() {
                assert(shorter[i] is Err);
                let k = choose|k: int| 0 <= k < before.len() && (#[trigger] before[k]).line == i;
                assert(errors[k].line == i);
            } else {
                assert(errors[errors.len() - 1].line == i);
            }
        }
    }
}

/// Where every line parsed, the artifact holds all of them, in the order of
/// the lines, and no errors.
pub proof fn lemma_gathered_all_parsed(outcomes: Seq<Result<SourceLineView, LangParseError>>)
    requires
        forall|i: int| 0 <= i < outcomes.len() ==> (#[trigger] outcomes[i]) is Ok,
    ensures
        gathered(outcomes).errors is None,
        gathered(outcomes).lines == Some(parsed_lines(outcomes)),
        parsed_lines(outcomes).len() == outcomes.len(),
        forall|i: int|
            0 <= i < outcomes.len() ==> #[trigger] parsed_lines(outcomes)[i] == outcomes[i]->Ok_0,
    decreases outcomes.len(),
{
    if outcomes.len() > 0 {
        let shorter = outcomes.drop_last();
        assert forall|i: int| 0 <= i < shorter.len() implies (#[trigger] shorter[i]) is Ok by {
            assert(shorter[i] == outcomes[i]);
        }
        lemma_gathered_all_parsed(shorter);
    }
}

/// Where a line did not parse, the artifact holds no lines and at least one
/// error.
pub proof fn lemma_gathered_some_failed(
    outcomes: Seq<Result<SourceLineView, LangParseError>>,
    failed: int,
)
    requires
        0 <= failed < outcomes.len(),
        outcomes[failed] is Err,
    ensures
        gathered(outcomes).lines is None,
        gathered(outcomes).errors == Some(parsing_errors(outcomes)),
        parsing_errors(outcomes).len() >= 1,
    decreases outcomes.len(),
{
    if failed < outcomes.len() - 1 {
        lemma_gathered_some_failed(outcomes.drop_last(), failed);
    }
}

/// A source whose non-empty lines all parse yields exactly those lines,
/// parsed, in the order of the source, and no errors.
pub proof fn lemma_well_formed_source(source: Seq<char>)
    requires
        forall|i: int|
            0 <= i < nonempty_lines(source_lines(source)).len() ==> parse_line(
                #[trigger] nonempty_lines(source_lines(source))[i],
            ) is Ok,
    ensures
        parse_text(source).errors is None,
        parse_text(source).lines is Some,
        parse_text(source).lines->Some_0.len() == nonempty_lines(source_lines(source)).len(),
        forall|i: int|
            0 <= i < nonempty_lines(source_lines(source)).len() ==> Ok::<
                SourceLineView,
                LangParseError,
            >(#[trigger] parse_text(source).lines->Some_0[i]) == parse_line(
                nonempty_lines(source_lines(source))[i],
            ),
{
    let lines = nonempty_lines(source_lines(source));
    let outcomes = line_outcomes(lines);
    assert forall|i: int| 0 <= i < outcomes.len() implies (#[trigger] outcomes[i]) is Ok by {
        assert(outcomes[i] == parse_line(lines[i]));
    }
    lemma_gathered_all_parsed(outcomes);
}

/// A source with a malformed line yields no parsed lines and at least one
/// error. Each error names a non-empty line by its position and says why
/// that line did not parse; the errors come in the order of their lines, and
/// every malformed line has one.
pub proof fn lemma_malformed_source(source: Seq<char>)
    requires
        exists|i: int|
            0 <= i < nonempty_lines(source_lines(source)).len() && parse_line(
                #[trigger] nonempty_lines(source_lines(source))[i],
            ) is Err,
    ensures
        parse_text(source).lines is None,
        parse_text(source).errors is Some,
        parse_text(source).errors->Some_0.len() >= 1,
        nonempty_lines(source_lines(source)).len() <= usize::MAX ==> {
            let lines = nonempty_lines(source_lines(source));
            let errors = parse_text(source).errors->Some_0;
            &&& forall|k: int|
                0 <= k < errors.len() ==> (#[trigger] errors[k]).line < lines.len() && parse_line(
                    lines[errors[k].line as int],
                ) == Err::<SourceLineView, LangParseError>(errors[k].error)
            &&& forall|j: int, k: int|
                0 <= j < k < errors.len() ==> (#[trigger] errors[j]).line < (
                #[trigger] errors[k]).line
            &&& forall|i: int|
                0 <= i < lines.len() && parse_line(#[trigger] lines[i]) is Err ==> exists|k: int|
                    0 <= k < errors.len() && (#[trigger] errors[k]).line == i
        },
{
    let lines = nonempty_lines(source_lines(source));
    let outcomes = line_outcomes(lines);
    let failed = choose|i: int| 0 <= i < lines.len() && parse_line(#[trigger] lines[i]) is Err;
    assert(outcomes[failed] == parse_line(lines[failed]));
    lemma_gathered_some_failed(outcomes, failed);
    if lines.len() <= usize::MAX {
        lemma_parsing_errors(outcomes);
        let errors = parsing_errors(outcomes);
        assert forall|k: int| 0 <= k < errors.len() implies (#[trigger] errors[k]).line
            < lines.len() && parse_line(lines[errors[k].line as int]) == Err::<
            SourceLineView,
            LangParseError,
        >(errors[k].error) by {
            assert(outcomes[errors[k].line as int] == parse_line(lines[errors[k].line as int]));
        }
        assert forall|i: int| 0 <= i < lines.len() && parse_line(#[trigger] lines[i]) is Err implies exists|
            k: int,
        |
            0 <= k < errors.len() && (#[trigger] errors[k]).line == i by {
            assert(outcomes[i] == parse_line(lines[i]));
            assert(outcomes[i] is Err);
        }
    }
}

/// Parsing the same text again yields an artifact that holds the same.
pub proof fn lemma_parse_is_repeatable(
    first: LangParsingArtifact,
    second: LangParsingArtifact,
    source: Seq<char>,
)
    requires
        first@ == parse_text(source),
        second@ == parse_text(source),
    ensures
        first@ == second@,
{
}

/// Splits a source text into its physical lines.
pub fn split_lines(source: &str) -> (lines: Vec<String>)
    ensures
        lines.deep_view() == source_lines(source@),
{
    let pieces = split_text(source, '\n');
    let ghost all = pieces.deep_view();
    let ghost strip = |piece: Seq<char>| without_carriage_return(piece);
    let last = pieces.len() - 1;
    let mut lines: Vec<String> = Vec::new();
    let mut i: usize = 0;
    assert(lines.deep_view() =~= all.take(0).map_values(strip));
    while i < last
        invariant
            i <= last == pieces@.len() - 1,
            all == pieces.deep_view(),
            strip == |piece: Seq<char>| without_carriage_return(piece),
            lines.deep_view() == all.take(i as int).map_values(strip),
        decreases last - i,
    {
        let chars = chars_of(pieces[i].as_str());
        let length = chars.len();
        let end = if length > 0 && chars[length - 1] == '\r' {
            length - 1
        } else {
            length
        };
        let line = string_of(&chars, 0, end);
        assert(line@ =~= without_carriage_return(all[i as int]));
        let ghost before = lines.deep_view();
        lines.push(line);
        assert(lines.deep_view() =~= before.push(line@));
        assert(all.take(i + 1).map_values(strip) =~= all.take(i as int).map_values(strip).push(
            strip(all[i as int]),
        ));
        i += 1;
    }
    assert(all.take(last as int) =~= all.drop_last());
    assert(all.last() == pieces@[last as int]@);
    if !pieces[last].as_str().is_empty() {
        let ghost before = lines.deep_view();
        let line = pieces[last].clone();
        lines.push(line);
        assert(lines.deep_view() =~= before.push(all.last()));
    }
    lines
}

/// The lines that are not empty, in their order.
pub fn without_empty_lines(lines: &Vec<String>) -> (kept: Vec<String>)
    ensures
        kept.deep_view() == nonempty_lines(lines.deep_view()),
{
    let ghost all = lines.deep_view();
    let ghost nonempty = |line: Seq<char>| line.len() > 0;
    let mut kept: Vec<String> = Vec::new();
    let mut i: usize = 0;
    proof {
        reveal(Seq::filter);
        assert(kept.deep_view() =~= all.take(0).filter(nonempty));
    }
    while i < lines.len()
        invariant
            i <= lines@.len(),
            all == lines.deep_view(),
            nonempty == |line: Seq<char>| line.len() > 0,
            kept.deep_view() == all.take(i as int).filter(nonempty),
        decreases lines@.len() - i,
    {
        proof {
            reveal(Seq::filter);
            assert(all.take(i + 1).drop_last() =~= all.take(i as int));
            assert(all.take(i + 1).last() == lines@[i as int]@);
        }
        if !lines[i].as_str().is_empty() {
            let ghost before = kept.deep_view();
            let line = lines[i].clone();
            kept.push(line);
            assert(kept.deep_view() =~= before.push(lines@[i as int]@));
        }
        i += 1;
    }
    assert(all.take(i as int) =~= all);
    kept
}

/// Parses every line on rayon's thread pool: `par_iter` over the lines,
/// `map` with the line parser, and `collect` into a vector. rayon hands
/// each line to the closure once and collects the results in the order of
/// the lines, so the result holds, for each line, what parsing that line
/// yields.
#[verifier::external_body]
fn parse_lines(lines: &Vec<String>) -> (results: Vec<Result<SourceLine, LangParseError>>)
    ensures
        outcome_views(results@) == line_outcomes(lines.deep_view()),
{
    lines.par_iter().map(|line| parse_command_line(line)).collect()
}

/// Gathers the results of all lines into an artifact: the parsed lines if
/// every line parsed, the errors of the malformed lines if one did not.
pub fn gather_results(results: Vec<Result<SourceLine, LangParseError>>) -> (artifact:
    LangParsingArtifact)
    ensures
        artifact@ == gathered(outcome_views(results@)),
{
    let ghost outcomes = outcome_views(results@);
    let ghost view_of = |line: SourceLine| line@;
    let mut parsed_so_far: Vec<SourceLine> = Vec::new();
    let mut errors: Vec<ParsingError> = Vec::new();
    assert(outcomes.take(0) =~= Seq::<Result<SourceLineView, LangParseError>>::empty());
    assert(parsed_so_far@.map_values(view_of) =~= parsed_lines(outcomes.take(0)));
    let count = results.len();
    let mut ii: usize = 0;
    for result in it: results
        invariant
            ii == it.index(),
            count == results@.len(),
            it.seq() == results@,
            outcomes == outcome_views(results@),
            view_of == |line: SourceLine| line@,
            parsed_so_far@.map_values(view_of) == parsed_lines(outcomes.take(ii as int)),
            errors@ == parsing_errors(outcomes.take(ii as int)),
    {
        assert(outcomes.take(ii + 1).drop_last() =~= outcomes.take(ii as int));
        assert(outcomes.take(ii + 1).last() == result_view(result));
        match result {
            Ok(source_line) => {
                let ghost before = parsed_so_far@;
                parsed_so_far.push(source_line);
                assert(parsed_so_far@.map_values(view_of) =~= before.map_values(view_of).push(
                    source_line@,
                ));
            },
            Err(err) => {
                errors.push(ParsingError { line: ii, error: err });
            },
        }
        ii += 1;
    }
    assert(outcomes.take(ii as int) =~= outcomes);
    let had_errors = errors.len() > 0;
    if had_errors {
        LangParsingArtifact { lines: None, errors: Some(errors) }
    } else {
        LangParsingArtifact { lines: Some(parsed_so_far), errors: None }
    }
}

/// Parses a source text.
///
/// Every non-empty line is parsed. The artifact holds the parsed lines, in
/// the order of the source, if all of them parsed; else it holds, for every
/// malformed line, its position among the non-empty lines and its error.
pub fn parse_source(source: &str) -> (artifact: LangParsingArtifact)
    ensures
        artifact@ == parse_text(source@),
{
    let lines = split_lines(source);
    let kept = without_empty_lines(&lines);
    let results = parse_lines(&kept);
    gather_results(results)
}

} // verus!
