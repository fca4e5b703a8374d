//! Diagnostics: what the parser reports of a source text that it does not
//! accept.

use crate::ast::{SpanView, span_view};
use crate::text::{decimal, push_decimal};
use vstd::prelude::*;
use vstd::string::*;

verus! {

/// A place in a source text, as a diagnostic carries it. Lines and columns
/// count from 1.
#[derive(Debug, Clone, Copy, PartialEq, Eq)]
pub struct Position {
    pub line: usize,
    pub col: usize,
}

/// A range of a source text, as a diagnostic carries it.
#[derive(Debug, Clone, Copy, PartialEq, Eq)]
pub struct Span {
    pub start: Position,
    pub end: Position,
}

/// One finding: a code that names the rule, a message for a reader, and
/// the place. The code alone tells findings apart.
#[derive(Debug, Clone, PartialEq, Eq)]
pub struct Diagnostic {
    pub code: String,
    pub message: String,
    pub span: Option<crate::ast::Span>,
}

/// The view of a [`Diagnostic`].
pub ghost struct DiagnosticView {
    pub code: Seq<char>,
    pub message: Seq<char>,
    pub span: Option<SpanView>,
}

impl View for Diagnostic {
    type V = DiagnosticView;

    open spec fn view(&self) -> DiagnosticView {
        DiagnosticView { code: self.code@, message: self.message@, span: span_view(self.span) }
    }
}

impl DeepView for Diagnostic {
    type V = DiagnosticView;

    open spec fn deep_view(&self) -> DiagnosticView {
        self@
    }
}

/// Whether one of `diags` carries `code`.
pub open spec fn has_code(diags: Seq<DiagnosticView>, code: Seq<char>) -> bool {
    exists|k: int| 0 <= k < diags.len() && (#[trigger] diags[k]).code == code
}

/// The line that shows a finding to a reader: the line and the column
/// where it begins, its code, its message and a caret; or, where the
/// finding has no place, its code and its message.
pub open spec fn pretty_of(d: DiagnosticView) -> Seq<char> {
    match d.span {
        Some(span) => decimal(span.start.line) + ":"@ + decimal(span.start.col) + ":"@ + d.code
            + " "@ + d.message + " ^"@,
        None => d.code + " "@ + d.message,
    }
}

/// The line that shows `d` to a reader.
pub fn pretty_line(d: &Diagnostic) -> (out: String)
    ensures
        out@ == pretty_of(d@),
{
    let mut out = String::new();
    match d.span {
        Some(span) => {
            push_decimal(&mut out, span.start.line);
            out.append(":");
            push_decimal(&mut out, span.start.col);
            out.append(":");
            out.append(d.code.as_str());
            out.append(" ");
            out.append(d.message.as_str());
            out.append(" ^");
        },
        None => {
            out.append(d.code.as_str());
            out.append(" ");
            out.append(d.message.as_str());
        },
    }
    assert(out@ =~= pretty_of(d@));
    out
}

/// An error of this library as a whole: a message.
#[derive(Debug)]
pub enum GraphriteError {
    Message(String),
}

impl View for GraphriteError {
    type V = Seq<char>;

    open spec fn view(&self) -> Seq<char> {
        match self {
            GraphriteError::Message(m) => m@,
        }
    }
}

impl GraphriteError {
    /// The text of the error, as it is shown to a reader.
    pub fn message(&self) -> (text: String)
        ensures
            text@ == self@,
    {
        match self {
            GraphriteError::Message(m) => m.clone(),
        }
    }
}

} // verus!
