//! Error types for the GUARD compiler.

use crate::text;
use vstd::prelude::*;

verus! {

/// A source span for error reporting.
#[derive(Debug, PartialEq, Eq, Hash)]
pub struct Span {
    pub file: String,
    pub start_line: u32,
    pub start_col: u32,
    pub end_line: u32,
    pub end_col: u32,
}

/// A span with the text of its file name.
#[verifier::ext_equal]
pub struct SpanView {
    pub file: Seq<char>,
    pub start_line: u32,
    pub start_col: u32,
    pub end_line: u32,
    pub end_col: u32,
}

impl View for Span {
    type V = SpanView;

    open spec fn view(&self) -> SpanView {
        SpanView {
            file: self.file@,
            start_line: self.start_line,
            start_col: self.start_col,
            end_line: self.end_line,
            end_col: self.end_col,
        }
    }
}

/// The span of a single position.
pub open spec fn point_span(file: Seq<char>, line: u32, col: u32) -> SpanView {
    SpanView { file, start_line: line, start_col: col, end_line: line, end_col: col }
}

impl SpanView {
    /// The span as `file:line:column-line:column`.
    pub open spec fn text(self) -> Seq<char> {
        self.file + ":"@ + text::decimal(self.start_line as nat) + ":"@ + text::decimal(self.start_col as nat)
            + "-"@ + text::decimal(self.end_line as nat) + ":"@ + text::decimal(self.end_col as nat)
    }

    /// The span in the file of `self` from the smaller start line and column to
    /// the larger end line and column.
    pub open spec fn merge(self, other: SpanView) -> SpanView {
        SpanView {
            file: self.file,
            start_line: if self.start_line <= other.start_line {
                self.start_line
            } else {
                other.start_line
            },
            start_col: if self.start_col <= other.start_col {
                self.start_col
            } else {
                other.start_col
            },
            end_line: if self.end_line >= other.end_line {
                self.end_line
            } else {
                other.end_line
            },
            end_col: if self.end_col >= other.end_col {
                self.end_col
            } else {
                other.end_col
            },
        }
    }

    /// Line for line and column for column, `self` lies within `outer`.
    pub open spec fn within(self, outer: SpanView) -> bool {
        &&& outer.start_line <= self.start_line
        &&& outer.start_col <= self.start_col
        &&& self.end_line <= outer.end_line
        &&& self.end_col <= outer.end_col
    }
}

impl Clone for Span {
    fn clone(&self) -> (span: Self)
        ensures
            span == *self,
    {
        Span {
            file: self.file.clone(),
            start_line: self.start_line,
            start_col: self.start_col,
            end_line: self.end_line,
            end_col: self.end_col,
        }
    }
}

impl Span {
    /// The span of a single position in `file`.
    pub fn new(file: &str, line: u32, col: u32) -> (span: Self)
        ensures
            span@ == point_span(file@, line, col),
    {
        Span { file: file.to_owned(), start_line: line, start_col: col, end_line: line, end_col: col }
    }

    /// The span that reaches over both spans, in the file of the first.
    pub fn merge(&self, other: &Span) -> (span: Span)
        ensures
            span@ == self@.merge(other@),
    {
        Span {
            file: self.file.clone(),
            start_line: if self.start_line <= other.start_line {
                self.start_line
            } else {
                other.start_line
            },
            start_col: if self.start_col <= other.start_col {
                self.start_col
            } else {
                other.start_col
            },
            end_line: if self.end_line >= other.end_line {
                self.end_line
            } else {
                other.end_line
            },
            end_col: if self.end_col >= other.end_col {
                self.end_col
            } else {
                other.end_col
            },
        }
    }

    /// The span as `file:line:column-line:column`.
    pub fn text(&self) -> (out: String)
        ensures
            out@ == self@.text(),
    {
        let mut out = self.file.clone();
        out.push_str(":");
        text::push_decimal(&mut out, self.start_line as u64);
        out.push_str(":");
        text::push_decimal(&mut out, self.start_col as u64);
        out.push_str("-");
        text::push_decimal(&mut out, self.end_line as u64);
        out.push_str(":");
        text::push_decimal(&mut out, self.end_col as u64);
        out
    }
}

/// The main error type for `guardc`.
#[derive(Debug, Clone)]
pub enum GuardError {
    Parse { span: Span, message: String },
    Type { span: Span, message: String },
    UnitMismatch { span: Span, expected: String, got: String },
    Lowering(String),
    Codegen(String),
    ProofFailed { obligation: String, reason: String },
    Validation(String),
}

/// An error with its texts as character sequences.
#[verifier::ext_equal]
pub enum GuardErrorView {
    Parse { span: SpanView, message: Seq<char> },
    Type { span: SpanView, message: Seq<char> },
    UnitMismatch { span: SpanView, expected: Seq<char>, got: Seq<char> },
    Lowering(Seq<char>),
    Codegen(Seq<char>),
    ProofFailed { obligation: Seq<char>, reason: Seq<char> },
    Validation(Seq<char>),
}

impl View for GuardError {
    type V = GuardErrorView;

    open spec fn view(&self) -> GuardErrorView {
        match *self {
            GuardError::Parse { span, message } => GuardErrorView::Parse {
                span: span@,
                message: message@,
            },
            GuardError::Type { span, message } => GuardErrorView::Type {
                span: span@,
                message: message@,
            },
            GuardError::UnitMismatch { span, expected, got } => GuardErrorView::UnitMismatch {
                span: span@,
                expected: expected@,
                got: got@,
            },
            GuardError::Lowering(message) => GuardErrorView::Lowering(message@),
            GuardError::Codegen(message) => GuardErrorView::Codegen(message@),
            GuardError::ProofFailed { obligation, reason } => GuardErrorView::ProofFailed {
                obligation: obligation@,
                reason: reason@,
            },
            GuardError::Validation(message) => GuardErrorView::Validation(message@),
        }
    }
}

impl GuardErrorView {
    /// The message that is shown to the user.
    pub open spec fn text(self) -> Seq<char> {
        match self {
            GuardErrorView::Parse { span, message } => "parse error at "@ + span.text() + ": "@
                + message,
            GuardErrorView::Type { span, message } => "type error at "@ + span.text() + ": "@
                + message,
            GuardErrorView::UnitMismatch { span, expected, got } => "unit mismatch at "@
                + span.text() + ": expected "@ + expected + ", got "@ + got,
            GuardErrorView::Lowering(message) => "lowering error: "@ + message,
            GuardErrorView::Codegen(message) => "codegen error: "@ + message,
            GuardErrorView::ProofFailed { obligation, reason } => "proof generation failed for '"@
                + obligation + "': "@ + reason,
            GuardErrorView::Validation(message) => "validation error: "@ + message,
        }
    }
}

impl GuardError {
    /// The message that is shown to the user.
    pub fn text(&self) -> (out: String)
        ensures
            out@ == self@.text(),
    {
        let mut out = String::new();
        match self {
            GuardError::Parse { span, message } => {
                out.push_str("parse error at ");
                out.push_str(span.text().as_str());
                out.push_str(": ");
                out.push_str(message.as_str());
            },
            GuardError::Type { span, message } => {
                out.push_str("type error at ");
                out.push_str(span.text().as_str());
                out.push_str(": ");
                out.push_str(message.as_str());
            },
            GuardError::UnitMismatch { span, expected, got } => {
                out.push_str("unit mismatch at ");
                out.push_str(span.text().as_str());
                out.push_str(": expected ");
                out.push_str(expected.as_str());
                out.push_str(", got ");
                out.push_str(got.as_str());
            },
            GuardError::Lowering(message) => {
                out.push_str("lowering error: ");
                out.push_str(message.as_str());
            },
            GuardError::Codegen(message) => {
                out.push_str("codegen error: ");
                out.push_str(message.as_str());
            },
            GuardError::ProofFailed { obligation, reason } => {
                out.push_str("proof generation failed for '");
                out.push_str(obligation.as_str());
                out.push_str("': ");
                out.push_str(reason.as_str());
            },
            GuardError::Validation(message) => {
                out.push_str("validation error: ");
                out.push_str(message.as_str());
            },
        }
        assert(out@ =~= self@.text());
        out
    }
}

/// Result alias used throughout the compiler.
pub type Result<T> = std::result::Result<T, GuardError>;

/// A merged span reaches over both of the spans that went into it, and no
/// span that reaches over both is smaller.
pub proof fn law_merge_is_least_cover(a: SpanView, b: SpanView, outer: SpanView)
    ensures
        a.within(a.merge(b)),
        b.within(a.merge(b)),
        a.within(outer) && b.within(outer) ==> a.merge(b).within(outer),
{
}

/// Merging a span with itself changes nothing, the order of merging three
/// spans does not matter, and within one file neither does the order of two.
pub proof fn law_merge_is_a_join(a: SpanView, b: SpanView, c: SpanView)
    ensures
        a.merge(a) == a,
        a.merge(b).merge(c) == a.merge(b.merge(c)),
        a.file == b.file ==> a.merge(b) == b.merge(a),
{
}

/// The place of a span in words: its file, and after it the line and the column of
/// the start and of the end, as numerals that are read back as such.
pub proof fn law_places_are_written_in_full(a: SpanView)
    ensures
        ({
            let (l, c, m, d) = (
                text::decimal(a.start_line as nat),
                text::decimal(a.start_col as nat),
                text::decimal(a.end_line as nat),
                text::decimal(a.end_col as nat),
            );
            &&& a.text() == a.file + ":"@ + l + ":"@ + c + "-"@ + m + ":"@ + d
            &&& text::read_decimal(l) == a.start_line
            &&& text::read_decimal(c) == a.start_col
            &&& text::read_decimal(m) == a.end_line
            &&& text::read_decimal(d) == a.end_col
        }),
{
    text::law_numerals_are_read_back(a.start_line as nat);
    text::law_numerals_are_read_back(a.start_col as nat);
    text::law_numerals_are_read_back(a.end_line as nat);
    text::law_numerals_are_read_back(a.end_col as nat);
}

/// A point begins and ends in the same place.
pub proof fn law_points_have_no_extent(file: Seq<char>, line: u32, col: u32)
    ensures
        ({
            let p = point_span(file, line, col);
            &&& p.file == file
            &&& p.start_line == line && p.end_line == line
            &&& p.start_col == col && p.end_col == col
        }),
{
}

/// A merged span begins with the smaller and ends with the larger of the lines, and
/// of the columns, of two spans. It is in the file of the first.
pub proof fn law_merge_takes_the_extremes(a: SpanView, b: SpanView)
    ensures
        ({
            let both = a.merge(b);
            &&& both.file == a.file
            &&& both.start_line == a.start_line || both.start_line == b.start_line
            &&& both.start_line <= a.start_line && both.start_line <= b.start_line
            &&& both.start_col == a.start_col || both.start_col == b.start_col
            &&& both.start_col <= a.start_col && both.start_col <= b.start_col
            &&& both.end_line == a.end_line || both.end_line == b.end_line
            &&& both.end_line >= a.end_line && both.end_line >= b.end_line
            &&& both.end_col == a.end_col || both.end_col == b.end_col
            &&& both.end_col >= a.end_col && both.end_col >= b.end_col
        }),
{
}

/// The first text begins with the second.
pub open spec fn starts_with(s: Seq<char>, head: Seq<char>) -> bool {
    s.len() >= head.len() && s.take(head.len() as int) == head
}

/// The first text ends in the second.
pub open spec fn ends_with(s: Seq<char>, tail: Seq<char>) -> bool {
    s.len() >= tail.len() && s.skip(s.len() - tail.len()) == tail
}

/// A message is what comes first and what comes last, and nothing between them.
proof fn lemma_message(head: Seq<char>, tail: Seq<char>)
    ensures
        starts_with(head + tail, head),
        ends_with(head + tail, tail),
        (head + tail).len() == head.len() + tail.len(),
{
    assert((head + tail).take(head.len() as int) =~= head);
    assert((head + tail).skip(head.len() as int) =~= tail);
}

/// What is shown to the user says what kind of error it is, where it is if it has a
/// place, and ends in the message; nothing is left out or added.
pub proof fn law_errors_tell_what_happened(
    span: SpanView,
    message: Seq<char>,
    expected: Seq<char>,
    got: Seq<char>,
)
    ensures
        ({
            let place = span.text();
            let parse = GuardErrorView::Parse { span, message }.text();
            let typing = GuardErrorView::Type { span, message }.text();
            let units = GuardErrorView::UnitMismatch { span, expected, got }.text();
            let failed = GuardErrorView::ProofFailed {
                obligation: expected,
                reason: got,
            }.text();
            &&& starts_with(parse, "parse error at "@ + place)
            &&& ends_with(parse, ": "@ + message)
            &&& parse.len() == ("parse error at "@ + place).len() + (": "@ + message).len()
            &&& starts_with(typing, "type error at "@ + place)
            &&& ends_with(typing, ": "@ + message)
            &&& typing.len() == ("type error at "@ + place).len() + (": "@ + message).len()
            &&& starts_with(units, "unit mismatch at "@ + place + ": expected "@ + expected)
            &&& ends_with(units, ", got "@ + got)
            &&& units.len() == ("unit mismatch at "@ + place + ": expected "@ + expected).len() + (
            ", got "@ + got).len()
            &&& starts_with(failed, "proof generation failed for '"@ + expected)
            &&& ends_with(failed, "': "@ + got)
            &&& failed.len() == ("proof generation failed for '"@ + expected).len() + ("': "@
                + got).len()
            &&& GuardErrorView::Lowering(message).text() == "lowering error: "@ + message
            &&& GuardErrorView::Codegen(message).text() == "codegen error: "@ + message
            &&& GuardErrorView::Validation(message).text() == "validation error: "@ + message
        }),
{
    let place = span.text();
    lemma_message("parse error at "@ + place, ": "@ + message);
    lemma_message("type error at "@ + place, ": "@ + message);
    lemma_message("unit mismatch at "@ + place + ": expected "@ + expected, ", got "@ + got);
    lemma_message("proof generation failed for '"@ + expected, "': "@ + got);
    assert(GuardErrorView::Parse { span, message }.text() =~= ("parse error at "@ + place) + (
    ": "@ + message));
    assert(GuardErrorView::Type { span, message }.text() =~= ("type error at "@ + place) + (": "@
        + message));
    assert(GuardErrorView::UnitMismatch { span, expected, got }.text() =~= ("unit mismatch at "@
        + place + ": expected "@ + expected) + (", got "@ + got));
    assert(GuardErrorView::ProofFailed { obligation: expected, reason: got }.text() =~= (
    "proof generation failed for '"@ + expected) + ("': "@ + got));
}

/// Views show spans and errors as they are.
pub proof fn law_views_of_errors(span: Span, a: String, b: String)
    ensures
        span@ == (SpanView {
            file: span.file@,
            start_line: span.start_line,
            start_col: span.start_col,
            end_line: span.end_line,
            end_col: span.end_col,
        }),
        (GuardError::Parse { span, message: a })@ == (GuardErrorView::Parse {
            span: span@,
            message: a@,
        }),
        (GuardError::Type { span, message: a })@ == (GuardErrorView::Type {
            span: span@,
            message: a@,
        }),
        (GuardError::UnitMismatch { span, expected: a, got: b })@ == (
        GuardErrorView::UnitMismatch { span: span@, expected: a@, got: b@ }),
        GuardError::Lowering(a)@ == GuardErrorView::Lowering(a@),
        GuardError::Codegen(a)@ == GuardErrorView::Codegen(a@),
        (GuardError::ProofFailed { obligation: a, reason: b })@ == (GuardErrorView::ProofFailed {
            obligation: a@,
            reason: b@,
        }),
        GuardError::Validation(a)@ == GuardErrorView::Validation(a@),
{
}

} // verus!
