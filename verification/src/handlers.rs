//! Requests from the editor: what one holds, how it is read from the text
//! that arrived, and what it does to the session.

use crate::program::{artifact_of, Artifact, Program, ProgramView};
use crate::store::{lemma_upserted, upserted, CellView};
use crate::text::{split, split_on, to_chars, to_string};
use vstd::prelude::*;

verus! {

/// One request from the editor.
///
/// - `index`: the current vertical position of the cell that was run
/// - `fragment`: the cell's identity, which stays when cells change places
/// - `filename`: the file the cell was run from
/// - `workspace`: the directory in which the program is built
/// - `contents`: the cell's source text
#[derive(Debug)]
pub struct CodeRequest {
    pub index: u32,
    pub fragment: u32,
    pub filename: String,
    pub workspace: String,
    pub contents: String,
}

/// A request as plain values.
pub struct CodeRequestView {
    pub index: u32,
    pub fragment: u32,
    pub filename: Seq<char>,
    pub workspace: Seq<char>,
    pub contents: Seq<char>,
}

impl View for CodeRequest {
    type V = CodeRequestView;

    open spec fn view(&self) -> CodeRequestView {
        CodeRequestView {
            index: self.index,
            fragment: self.fragment,
            filename: self.filename@,
            workspace: self.workspace@,
            contents: self.contents@,
        }
    }
}

impl CodeRequestView {
    /// The cell that the request asks for.
    pub open spec fn cell(self) -> CellView {
        CellView { fragment: self.fragment, index: self.index, contents: self.contents }
    }
}

/// Why the text that arrived is no request.
#[derive(Clone, Copy, Debug, PartialEq, Eq, Structural)]
pub enum RequestFramingError {
    /// The text holds fewer than five fields.
    MissingField,
    /// The first field is no number that a cell's position can be.
    BadIndex,
    /// The second field is no number that a cell's identity can be.
    BadFragment,
}

/// Whether `c` is one of the ten decimal digits.
pub open spec fn is_digit(c: char) -> bool {
    0x30 <= c as u32 <= 0x39
}

/// The number that the digit `c` stands for.
pub open spec fn digit_value(c: char) -> nat {
    if is_digit(c) {
        (c as u32 - 0x30) as nat
    } else {
        0
    }
}

/// Whether `text` holds decimal digits only.
pub open spec fn all_digits(text: Seq<char>) -> bool {
    forall|i: int| 0 <= i < text.len() ==> is_digit(#[trigger] text[i])
}

/// The number that the decimal digits of `digits` write.
pub open spec fn decimal_value(digits: Seq<char>) -> nat
    decreases digits.len(),
{
    if digits.len() == 0 {
        0
    } else {
        decimal_value(digits.drop_last()) * 10 + digit_value(digits.last())
    }
}

/// The number that `text` writes: decimal digits, one at least, after an
/// optional plus sign, with a value that fits into 32 bits.
pub open spec fn parsed_u32(text: Seq<char>) -> Option<u32> {
    let digits = if text.len() > 0 && text[0] == '+' {
        text.drop_first()
    } else {
        text
    };
    if digits.len() > 0 && all_digits(digits) && decimal_value(digits) <= u32::MAX {
        Some(decimal_value(digits) as u32)
    } else {
        None
    }
}

/// More digits never write a smaller number.
proof fn lemma_decimal_value_grows(digits: Seq<char>, k: int)
    requires
        0 <= k <= digits.len(),
    ensures
        decimal_value(digits.take(k)) <= decimal_value(digits),
    decreases digits.len() - k,
{
    if k == digits.len() {
        assert(digits.take(k) =~= digits);
    } else {
        lemma_decimal_value_grows(digits, k + 1);
        assert(digits.take(k + 1).drop_last() =~= digits.take(k));
    }
}

/// Reads a number as `parsed_u32` defines it.
pub fn parse_u32(text: &Vec<char>) -> (number: Option<u32>)
    ensures
        number == parsed_u32(text@),
{
    let n = text.len();
    let start: usize = if n > 0 && text[0] == '+' {
        1
    } else {
        0
    };
    let ghost digits = text@.skip(start as int);
    proof {
        assert(text@.skip(0) =~= text@);
        if n > 0 {
            assert(text@.skip(1) =~= text@.drop_first());
        }
    }
    if start == n {
        return None;
    }
    let mut value: u32 = 0;
    let mut i: usize = start;
    while i < n
        invariant
            start <= i <= n == text.len(),
            start < n,
            digits == text@.skip(start as int),
            digits == if text@.len() > 0 && text@[0] == '+' {
                text@.drop_first()
            } else {
                text@
            },
            all_digits(digits.take(i - start)),
            value == decimal_value(digits.take(i - start)),
        decreases n - i,
    {
        let c = text[i];
        let code: u32 = c as u32;
        proof {
            assert(digits[i - start] == c);
            assert(digits.take(i - start + 1).drop_last() =~= digits.take(i - start));
            lemma_decimal_value_grows(digits, i - start + 1);
        }
        if code < 0x30 || code > 0x39 {
            proof {
                assert(!is_digit(digits[i - start]));
            }
            return None;
        }
        let digit: u32 = code - 0x30;
        if value > (u32::MAX - digit) / 10 {
            proof {
                assert(value * 10 + digit > u32::MAX);
                assert(decimal_value(digits.take(i - start + 1)) == value * 10 + digit);
            }
            return None;
        }
        value = value * 10 + digit;
        i += 1;
    }
    proof {
        assert(digits.take(n - start) =~= digits);
    }
    Some(value)
}

/// The request that `text` holds: five fields with a NUL between
/// neighbours, which are the position and the identity as numbers, the
/// file, the workspace and the contents. What follows a fifth NUL is not
/// read.
pub open spec fn request_of(text: Seq<char>) -> Result<CodeRequestView, RequestFramingError> {
    let fields = split_on(text, '\0');
    if fields.len() < 5 {
        Err(RequestFramingError::MissingField)
    } else {
        match parsed_u32(fields[0]) {
            None => Err(RequestFramingError::BadIndex),
            Some(index) => match parsed_u32(fields[1]) {
                None => Err(RequestFramingError::BadFragment),
                Some(fragment) => Ok(
                    CodeRequestView {
                        index,
                        fragment,
                        filename: fields[2],
                        workspace: fields[3],
                        contents: fields[4],
                    },
                ),
            },
        }
    }
}

/// Reads the request that `text` holds.
pub fn parse_request(text: &str) -> (request: Result<CodeRequest, RequestFramingError>)
    ensures
        match request {
            Ok(cr) => request_of(text@) == Ok::<CodeRequestView, RequestFramingError>(cr@),
            Err(e) => request_of(text@) == Err::<CodeRequestView, RequestFramingError>(e),
        },
{
    let fields = split(&to_chars(text), '\0');
    if fields.len() < 5 {
        return Err(RequestFramingError::MissingField);
    }
    proof {
        let model = fields.deep_view();
        assert(model[0] == fields[0]@);
        assert(model[1] == fields[1]@);
        assert(model[2] == fields[2]@);
        assert(model[3] == fields[3]@);
        assert(model[4] == fields[4]@);
    }
    let index = match parse_u32(&fields[0]) {
        Some(index) => index,
        None => {
            return Err(RequestFramingError::BadIndex);
        },
    };
    let fragment = match parse_u32(&fields[1]) {
        Some(fragment) => fragment,
        None => {
            return Err(RequestFramingError::BadFragment);
        },
    };
    Ok(
        CodeRequest {
            index,
            fragment,
            filename: to_string(&fields[2]),
            workspace: to_string(&fields[3]),
            contents: to_string(&fields[4]),
        },
    )
}

/// The session after the request `cr`: it holds the request's file and
/// workspace, has lost its cells where either was new, and holds the
/// request's cell.
pub open spec fn handled(before: ProgramView, cr: CodeRequestView) -> ProgramView {
    let kept = if before.filename != cr.filename || before.workspace != cr.workspace {
        Seq::<CellView>::empty()
    } else {
        before.cells
    };
    ProgramView { filename: cr.filename, workspace: cr.workspace, cells: upserted(kept, cr.cell()) }
}

/// Handles one request. Text that holds no request leaves the session as
/// it is. A request first drops every cell where it comes from another file
/// or workspace, then creates or updates its cell; what is handed back is
/// the program to build for it.
pub fn code_request(request: &str, program: &mut Program) -> (built: Result<
    Artifact,
    RequestFramingError,
>)
    ensures
        match request_of(request@) {
            Ok(cr) => {
                &&& final(program)@ == handled(old(program)@, cr)
                &&& built matches Ok(artifact)
                &&& artifact@ == artifact_of(final(program)@, cr.fragment)
                &&& artifact.marked
            },
            Err(e) => {
                &&& final(program)@ == old(program)@
                &&& built == Err::<Artifact, RequestFramingError>(e)
            },
        },
{
    let cr = match parse_request(request) {
        Ok(cr) => cr,
        Err(e) => {
            return Err(e);
        },
    };
    program.observe(cr.filename.as_str(), cr.workspace.as_str());
    match program.get(cr.fragment) {
        Some(_) => program.update_cell(&cr),
        None => program.create_cell(&cr),
    }
    let artifact = program.write_to_file(cr.fragment);
    proof {
        lemma_upserted(
            if old(program)@.filename != cr@.filename || old(program)@.workspace != cr@.workspace {
                Seq::<CellView>::empty()
            } else {
                old(program)@.cells
            },
            cr@.cell(),
        );
    }
    Ok(artifact)
}

} // verus!
