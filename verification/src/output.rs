//! The output classifier: tells a failed build from a successful run by what
//! the toolchain wrote, and cuts the output of the cell that was run out of
//! the program's output.

use crate::assemble::{end_tag, start_tag};
use crate::text::{
    append, contains, find, first_match, is_space, last_match, lemma_first_match, lemma_last_match,
    lemma_trimmed_fixed, occurs_at, occurs_in, rfind, subrange, to_chars, to_string, trim, trimmed,
};
use vstd::prelude::*;

verus! {

/// How a request ended.
#[derive(Debug)]
pub enum Outcome {
    /// The program ran: the output of the cell that was run.
    Success(String),
    /// The toolchain reported a diagnostic: what it wrote, as it wrote it.
    BuildFailure(String),
    /// The program ran, but its output does not hold the two tags.
    ExtractionFailure,
}

/// An outcome as plain values.
pub enum OutcomeView {
    Success(Seq<char>),
    BuildFailure(Seq<char>),
    ExtractionFailure,
}

impl View for Outcome {
    type V = OutcomeView;

    open spec fn view(&self) -> OutcomeView {
        match self {
            Outcome::Success(payload) => OutcomeView::Success(payload@),
            Outcome::BuildFailure(diagnostics) => OutcomeView::BuildFailure(diagnostics@),
            Outcome::ExtractionFailure => OutcomeView::ExtractionFailure,
        }
    }
}

/// How the toolchain marks a compile error.
pub open spec fn compile_error_marker() -> Seq<char> {
    "error: "@
}

/// How the toolchain marks a failure at run time.
pub open spec fn panic_marker() -> Seq<char> {
    "panicked at"@
}

/// Whether the toolchain reported a diagnostic in `stderr`.
pub open spec fn has_diagnostic(stderr: Seq<char>) -> bool {
    occurs_in(stderr, compile_error_marker()) || occurs_in(stderr, panic_marker())
}

/// What stands in `stdout` between the first start tag and the last end tag
/// after it, trimmed; nothing where either tag is missing.
pub open spec fn extracted(stdout: Seq<char>) -> Option<Seq<char>> {
    match first_match(stdout, start_tag(), 0) {
        None => None,
        Some(start) => {
            let rest = stdout.skip(start + start_tag().len());
            match last_match(rest, end_tag(), rest.len() as int) {
                None => None,
                Some(end) => Some(trimmed(rest.take(end))),
            }
        },
    }
}

/// The outcome for what the toolchain wrote. `marked` says whether the
/// program was built with the two marker statements.
pub open spec fn outcome_of(stdout: Seq<char>, stderr: Seq<char>, marked: bool) -> OutcomeView {
    if has_diagnostic(stderr) {
        OutcomeView::BuildFailure(stderr)
    } else if !marked {
        OutcomeView::Success(stdout)
    } else {
        match extracted(stdout) {
            Some(payload) => OutcomeView::Success(payload),
            None => OutcomeView::ExtractionFailure,
        }
    }
}

/// The reply to the editor: a status, a NUL and the payload.
pub open spec fn response_text(outcome: OutcomeView) -> Seq<char> {
    match outcome {
        OutcomeView::Success(payload) => "0\0"@ + payload,
        OutcomeView::BuildFailure(diagnostics) => "1\0"@ + diagnostics,
        OutcomeView::ExtractionFailure => "2\0"@,
    }
}

/// Cuts the output of the cell that was run out of `stdout`.
pub fn extract(stdout: &Vec<char>) -> (payload: Option<Vec<char>>)
    ensures
        match payload {
            Some(p) => extracted(stdout@) == Some(p@),
            None => extracted(stdout@) is None,
        },
{
    let start_tag = to_chars("rustkernel-start");
    let end_tag = to_chars("rustkernel-end");
    match find(stdout, &start_tag) {
        None => None,
        Some(start) => {
            let rest = subrange(stdout, start + start_tag.len(), stdout.len());
            proof {
                assert(rest@ =~= stdout@.skip(start + start_tag@.len()));
            }
            match rfind(&rest, &end_tag) {
                None => None,
                Some(end) => {
                    let between = subrange(&rest, 0, end);
                    proof {
                        assert(between@ =~= rest@.take(end as int));
                    }
                    Some(trim(&between))
                },
            }
        },
    }
}

/// Decides how a request ended from what the toolchain wrote. A diagnostic
/// in `stderr` makes it a failed build, whatever `stdout` holds. Without
/// one, the payload is what stands between the tags in `stdout`, or all of
/// `stdout` where the program was built without markers.
pub fn classify(stdout: &str, stderr: &str, marked: bool) -> (outcome: Outcome)
    ensures
        outcome@ == outcome_of(stdout@, stderr@, marked),
{
    let err = to_chars(stderr);
    if contains(&err, &to_chars("error: ")) || contains(&err, &to_chars("panicked at")) {
        return Outcome::BuildFailure(to_string(&err));
    }
    let out = to_chars(stdout);
    if !marked {
        return Outcome::Success(to_string(&out));
    }
    match extract(&out) {
        Some(payload) => Outcome::Success(to_string(&payload)),
        None => Outcome::ExtractionFailure,
    }
}

impl Outcome {
    /// The reply to the editor.
    pub fn response(&self) -> (text: String)
        ensures
            text@ == response_text(self@),
    {
        match self {
            Outcome::Success(payload) => {
                let mut text = to_chars("0\0");
                append(&mut text, &to_chars(payload.as_str()));
                to_string(&text)
            },
            Outcome::BuildFailure(diagnostics) => {
                let mut text = to_chars("1\0");
                append(&mut text, &to_chars(diagnostics.as_str()));
                to_string(&text)
            },
            Outcome::ExtractionFailure => to_string(&to_chars("2\0")),
        }
    }
}

/// Extraction undoes marking. Where the start tag stands in the output
/// first behind `before`, and no end tag begins behind the one that
/// follows `payload`, the payload that is cut out is `payload`, trimmed.
pub proof fn lemma_extract_between(before: Seq<char>, payload: Seq<char>, after: Seq<char>)
    requires
        forall|i: int|
            0 <= i < before.len() ==> !occurs_at(
                before + start_tag() + payload + end_tag() + after,
                start_tag(),
                i,
            ),
        forall|i: int|
            payload.len() < i ==> !occurs_at(payload + end_tag() + after, end_tag(), i),
    ensures
        extracted(before + start_tag() + payload + end_tag() + after) == Some(trimmed(payload)),
{
    let stdout = before + start_tag() + payload + end_tag() + after;
    let start = before.len() as int;
    assert(occurs_at(stdout, start_tag(), start)) by {
        assert(stdout.subrange(start, start + start_tag().len()) =~= start_tag());
    }
    lemma_first_match(stdout, start_tag(), 0);
    assert(first_match(stdout, start_tag(), 0) == Some(start));
    let rest = stdout.skip(start + start_tag().len());
    assert(rest =~= payload + end_tag() + after);
    let end = payload.len() as int;
    assert(occurs_at(rest, end_tag(), end)) by {
        assert(rest.subrange(end, end + end_tag().len()) =~= end_tag());
    }
    lemma_last_match(rest, end_tag(), rest.len() as int);
    assert(last_match(rest, end_tag(), rest.len() as int) == Some(end));
    assert(rest.take(end) =~= payload);
}

/// Extraction is a left inverse of marking: from output that is the start
/// tag, any text and the end tag, the payload that is cut out is that text,
/// trimmed; it is that text unchanged where no whitespace surrounds it.
pub proof fn lemma_extract_marked(payload: Seq<char>)
    ensures
        extracted(start_tag() + payload + end_tag()) == Some(trimmed(payload)),
        forall|stderr: Seq<char>|
            !has_diagnostic(stderr) ==> #[trigger] outcome_of(
                start_tag() + payload + end_tag(),
                stderr,
                true,
            ) == OutcomeView::Success(trimmed(payload)),
        (payload.len() > 0 ==> !is_space(payload[0]) && !is_space(payload.last())) ==> extracted(
            start_tag() + payload + end_tag(),
        ) == Some(payload),
{
    if payload.len() > 0 ==> !is_space(payload[0]) && !is_space(payload.last()) {
        lemma_trimmed_fixed(payload);
    }
    let empty = Seq::<char>::empty();
    assert(empty + start_tag() + payload + end_tag() + empty =~= start_tag() + payload + end_tag());
    assert(payload + end_tag() + empty =~= payload + end_tag());
    lemma_extract_between(empty, payload, empty);
}

/// Output that lacks one of the two tags gives no payload: where the
/// toolchain reported no diagnostic and the program was built with markers,
/// the outcome is an extraction failure, neither a success nor a failed
/// build.
pub proof fn lemma_missing_tag_fails(stdout: Seq<char>, stderr: Seq<char>)
    requires
        !has_diagnostic(stderr),
        !occurs_in(stdout, start_tag()) || !occurs_in(stdout, end_tag()),
    ensures
        extracted(stdout) is None,
        outcome_of(stdout, stderr, true) == OutcomeView::ExtractionFailure,
{
    lemma_first_match(stdout, start_tag(), 0);
    match first_match(stdout, start_tag(), 0) {
        None => {},
        Some(start) => {
            assert(occurs_at(stdout, start_tag(), start));
            let skipped = start + start_tag().len();
            let rest = stdout.skip(skipped);
            lemma_last_match(rest, end_tag(), rest.len() as int);
            match last_match(rest, end_tag(), rest.len() as int) {
                None => {},
                Some(end) => {
                    assert(occurs_at(stdout, end_tag(), skipped + end)) by {
                        assert(stdout.subrange(skipped + end, skipped + end + end_tag().len())
                            =~= rest.subrange(end, end + end_tag().len()));
                    }
                },
            }
        },
    }
}

/// A diagnostic in `stderr` makes the outcome a failed build that carries
/// `stderr` as it is, whatever `stdout` holds.
pub proof fn lemma_diagnostic_wins(stdout: Seq<char>, stderr: Seq<char>, marked: bool)
    requires
        has_diagnostic(stderr),
    ensures
        outcome_of(stdout, stderr, marked) == OutcomeView::BuildFailure(stderr),
{
}

} // verus!
