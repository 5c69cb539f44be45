//! The library's error type and the report that shows an error with the
//! source lines around it.

use vstd::prelude::*;
use vstd::std_specs::convert::FromSpecImpl;
use crate::builder::ParseError;
use crate::lexer::LexError;
use crate::parser::ParseStageError;
use crate::span::Span;
use crate::text::{
    chars_of, decimal_digits, lines_of, lines_vec, pad_left, push_decimal, push_decimal_padded,
    push_repeated, repeat_seq,
};

verus! {

broadcast use vstd::string::group_string_axioms;

/// A failed validation rule, with the location it applies to.
#[derive(Debug, Clone)]
pub struct ValidationError {
    pub message: String,
    pub span: Span,
}

/// Every error the library reports.
#[derive(Debug)]
pub enum VerseconfError {
    Lex(LexError),
    Parse(ParseError),
    Semantic { message: String, span: Span },
    Validation(ValidationError),
    Template(String),
    /// Resolving or merging an `@include` failed.
    Include(String),
    /// Reading a file failed; the operating system's message.
    Io(String),
}

/// The location of an error; template, include and I/O errors have none.
pub open spec fn error_span(e: VerseconfError) -> Span {
    match e {
        VerseconfError::Lex(x) => x.span,
        VerseconfError::Parse(x) => x.span,
        VerseconfError::Semantic { span, .. } => span,
        VerseconfError::Validation(x) => x.span,
        _ => Span { start: 0, end: 0, line: 0, column: 0 },
    }
}

/// The message of an error, without location or kind.
pub open spec fn error_message(e: VerseconfError) -> Seq<char> {
    match e {
        VerseconfError::Lex(x) => x.message@,
        VerseconfError::Parse(x) => x.message@,
        VerseconfError::Semantic { message, .. } => message@,
        VerseconfError::Validation(x) => x.message@,
        VerseconfError::Template(m) => m@,
        VerseconfError::Include(m) => m@,
        VerseconfError::Io(m) => m@,
    }
}

/// The short label of each kind of error.
pub open spec fn error_kind(e: VerseconfError) -> Seq<char> {
    match e {
        VerseconfError::Lex(_) => "lexical error"@,
        VerseconfError::Parse(_) => "parse error"@,
        VerseconfError::Semantic { .. } => "semantic error"@,
        VerseconfError::Validation(_) => "validation error"@,
        VerseconfError::Template(_) => "template error"@,
        VerseconfError::Include(_) => "include error"@,
        VerseconfError::Io(_) => "io error"@,
    }
}

impl VerseconfError {
    /// Where the error is; [`Span::unknown`] for errors without a place.
    pub fn span(&self) -> (s: Span)
        ensures
            s == error_span(*self),
    {
        match self {
            VerseconfError::Lex(e) => e.span,
            VerseconfError::Parse(e) => e.span,
            VerseconfError::Semantic { span, .. } => *span,
            VerseconfError::Validation(e) => e.span,
            _ => Span::unknown(),
        }
    }

    /// The bare message.
    pub fn message(&self) -> (s: String)
        ensures
            s@ == error_message(*self),
    {
        match self {
            VerseconfError::Lex(e) => e.message.clone(),
            VerseconfError::Parse(e) => e.message.clone(),
            VerseconfError::Semantic { message, .. } => message.clone(),
            VerseconfError::Validation(e) => e.message.clone(),
            VerseconfError::Template(m) => m.clone(),
            VerseconfError::Include(m) => m.clone(),
            VerseconfError::Io(m) => m.clone(),
        }
    }

    /// The short label of the error's kind.
    pub fn kind(&self) -> (s: &'static str)
        ensures
            s@ == error_kind(*self),
    {
        match self {
            VerseconfError::Lex(_) => "lexical error",
            VerseconfError::Parse(_) => "parse error",
            VerseconfError::Semantic { .. } => "semantic error",
            VerseconfError::Validation(_) => "validation error",
            VerseconfError::Template(_) => "template error",
            VerseconfError::Include(_) => "include error",
            VerseconfError::Io(_) => "io error",
        }
    }
}

impl From<ParseStageError> for VerseconfError {
    fn from(e: ParseStageError) -> (r: VerseconfError) {
        match e {
            ParseStageError::Lex(x) => VerseconfError::Lex(x),
            ParseStageError::Parse(x) => VerseconfError::Parse(x),
        }
    }
}

impl FromSpecImpl<ParseStageError> for VerseconfError {
    open spec fn obeys_from_spec() -> bool {
        true
    }

    open spec fn from_spec(e: ParseStageError) -> VerseconfError {
        match e {
            ParseStageError::Lex(x) => VerseconfError::Lex(x),
            ParseStageError::Parse(x) => VerseconfError::Parse(x),
        }
    }
}

impl From<LexError> for VerseconfError {
    fn from(e: LexError) -> (r: VerseconfError) {
        VerseconfError::Lex(e)
    }
}

impl FromSpecImpl<LexError> for VerseconfError {
    open spec fn obeys_from_spec() -> bool {
        true
    }

    open spec fn from_spec(e: LexError) -> VerseconfError {
        VerseconfError::Lex(e)
    }
}

impl From<ParseError> for VerseconfError {
    fn from(e: ParseError) -> (r: VerseconfError) {
        VerseconfError::Parse(e)
    }
}

impl FromSpecImpl<ParseError> for VerseconfError {
    open spec fn obeys_from_spec() -> bool {
        true
    }

    open spec fn from_spec(e: ParseError) -> VerseconfError {
        VerseconfError::Parse(e)
    }
}

impl From<ValidationError> for VerseconfError {
    fn from(e: ValidationError) -> (r: VerseconfError) {
        VerseconfError::Validation(e)
    }
}

impl FromSpecImpl<ValidationError> for VerseconfError {
    open spec fn obeys_from_spec() -> bool {
        true
    }

    open spec fn from_spec(e: ValidationError) -> VerseconfError {
        VerseconfError::Validation(e)
    }
}

/// An error together with the source it was found in.
pub struct ErrorReport {
    pub error: VerseconfError,
    pub source: String,
    /// The file the source came from, shown as `file:line:column`.
    pub path: Option<String>,
    /// How many lines to show before and after the error line.
    pub context_lines: usize,
}

/// The name shown for the source: its path, or `<source>`.
pub open spec fn source_name(path: Option<String>) -> Seq<char> {
    match path {
        Some(p) => p@,
        None => "<source>"@,
    }
}

/// `name:line:column`, or just the name when the position is unknown.
pub open spec fn location_text(path: Option<String>, span: Span) -> Seq<char> {
    if span.line == 0 && span.column == 0 {
        source_name(path)
    } else {
        source_name(path) + seq![':'] + decimal_digits(span.line as nat) + seq![':'] + decimal_digits(
            span.column as nat,
        )
    }
}

/// One numbered source line of the context, with the caret line under
/// the error line.
pub open spec fn context_line(lines: Seq<Seq<char>>, i: int, error_line: int, column: u32) -> Seq<char> {
    numbered_line(lines[i], i, i == error_line, column)
}

/// Line `i` (0-based) shown as `   n | text`, and the caret line when it
/// is the error line.
pub open spec fn numbered_line(text: Seq<char>, i: int, is_error: bool, column: u32) -> Seq<char> {
    pad_left(decimal_digits((i + 1) as nat), 4) + " | "@ + text + seq!['\n'] + if is_error {
        "     | "@ + repeat_seq(seq![' '], if column >= 1 { (column - 1) as nat } else { 0 }) + "^\n"@
    } else {
        Seq::empty()
    }
}

fn push_numbered_line(out: &mut String, text: &String, i: usize, is_error: bool, column: u32)
    requires
        i < usize::MAX,
    ensures
        final(out)@ == old(out)@ + numbered_line(text@, i as int, is_error, column),
{
    proof {
        reveal_strlit(" | ");
        reveal_strlit("     | ");
        reveal_strlit(" ");
        reveal_strlit("^\n");
        assert(" "@ == seq![' ']);
    }
    push_decimal_padded(out, (i + 1) as u64, 4);
    out.push_str(" | ");
    out.push_str(text.as_str());
    out.push('\n');
    if is_error {
        out.push_str("     | ");
        let caret_pos: usize = if column >= 1 { (column - 1) as usize } else { 0 };
        push_repeated(out, " ", caret_pos);
        out.push_str("^\n");
    }
}

/// The context lines `start..end`.
pub open spec fn context_body(lines: Seq<Seq<char>>, start: int, end: int, error_line: int, column: u32) -> Seq<
    char,
>
    decreases end - start,
{
    if end <= start {
        Seq::empty()
    } else {
        context_body(lines, start, end - 1, error_line, column) + context_line(lines, end - 1, error_line, column)
    }
}

/// The source excerpt around `span`: empty when the line is not in the source.
pub open spec fn context_text(source: Seq<char>, path: Option<String>, span: Span, context: nat) -> Seq<char> {
    let lines = lines_of(source);
    if span.line == 0 || span.line > lines.len() {
        Seq::empty()
    } else {
        let li = span.line - 1;
        let start = if li >= context { li - context } else { 0 };
        let end = if li + context + 1 <= lines.len() { li + context + 1 } else { lines.len() as int };
        "  --> "@ + source_name(path) + seq![':'] + decimal_digits(span.line as nat) + seq![':']
            + decimal_digits(span.column as nat) + seq!['\n'] + context_body(lines, start, end, li, span.column)
    }
}

/// The whole report: `location: kind: message`, then the context when the
/// position is known and the source is not empty.
pub open spec fn report_text(r: ErrorReport) -> Seq<char> {
    let span = error_span(r.error);
    location_text(r.path, span) + ": "@ + error_kind(r.error) + ": "@ + error_message(r.error) + seq!['\n']
        + if !(span.line == 0 && span.column == 0) && r.source@.len() > 0 {
        context_text(r.source@, r.path, span, r.context_lines as nat)
    } else {
        Seq::empty()
    }
}

impl ErrorReport {
    /// A report without a path, showing three lines of context.
    pub fn new(error: VerseconfError, source: String) -> (r: ErrorReport)
        ensures
            r.error == error,
            r.source == source,
            r.path is None,
            r.context_lines == 3,
    {
        ErrorReport { error, source, path: None, context_lines: 3 }
    }

    /// A report for the file at `path`.
    pub fn with_path(error: VerseconfError, source: String, path: String) -> (r: ErrorReport)
        ensures
            r.error == error,
            r.source == source,
            r.path == Some(path),
            r.context_lines == 3,
    {
        ErrorReport { error, source, path: Some(path), context_lines: 3 }
    }

    fn push_name(&self, out: &mut String)
        ensures
            final(out)@ == old(out)@ + source_name(self.path),
    {
        match &self.path {
            Some(p) => out.push_str(p.as_str()),
            None => out.push_str("<source>"),
        }
    }

    /// `name:line:column`, or the name alone when the position is unknown.
    pub fn location(&self) -> (s: String)
        ensures
            s@ == location_text(self.path, error_span(self.error)),
    {
        let span = self.error.span();
        let mut s = String::new();
        self.push_name(&mut s);
        if !span.is_unknown() {
            s.push(':');
            push_decimal(&mut s, span.line as u64);
            s.push(':');
            push_decimal(&mut s, span.column as u64);
        }
        s
    }

    /// The full report text.
    pub fn format(&self) -> (s: String)
        ensures
            s@ == report_text(*self),
    {
        proof {
            reveal_strlit(": ");
        }
        let span = self.error.span();
        let mut output = self.location();
        output.push_str(": ");
        output.push_str(self.error.kind());
        output.push_str(": ");
        let message = self.error.message();
        output.push_str(message.as_str());
        output.push('\n');
        let source_chars = chars_of(self.source.as_str());
        if !span.is_unknown() && source_chars.len() > 0 {
            let context = self.format_context(&span);
            output.push_str(context.as_str());
        }
        output
    }

    /// The source lines around `span`, numbered, with a caret under the column.
    fn format_context(&self, span: &Span) -> (s: String)
        ensures
            s@ == context_text(self.source@, self.path, *span, self.context_lines as nat),
    {
        let source_chars = chars_of(self.source.as_str());
        let lines = lines_vec(&source_chars);
        let ghost ls = lines_of(self.source@);
        if span.line == 0 || span.line as usize > lines.len() {
            return String::new();
        }
        let li: usize = (span.line - 1) as usize;
        let ctx = self.context_lines;
        let start: usize = if li >= ctx { li - ctx } else { 0 };
        let end: usize = if ctx < lines.len() - li { li + ctx + 1 } else { lines.len() };
        let mut output = String::new();
        output.push_str("  --> ");
        self.push_name(&mut output);
        output.push(':');
        push_decimal(&mut output, span.line as u64);
        output.push(':');
        push_decimal(&mut output, span.column as u64);
        output.push('\n');
        let ghost header = output@;
        proof {
            reveal_strlit("  --> ");
            assert(header == "  --> "@ + source_name(self.path) + seq![':'] + decimal_digits(span.line as nat) + seq![':']
                + decimal_digits(span.column as nat) + seq!['\n']);
        }
        let mut i: usize = start;
        while i < end
            invariant
                start <= i <= end <= lines@.len(),
                lines@.len() == ls.len(),
                forall|k: int| 0 <= k < lines@.len() ==> (#[trigger] lines@[k])@ == ls[k],
                li < lines@.len(),
                output@ == header + context_body(ls, start as int, i as int, li as int, span.column),
            decreases end - i,
        {
            push_numbered_line(&mut output, &lines[i], i, i == li, span.column);
            proof {
                assert(lines@[i as int]@ == ls[i as int]);
                assert(context_body(ls, start as int, i + 1, li as int, span.column) == context_body(
                    ls,
                    start as int,
                    i as int,
                    li as int,
                    span.column,
                ) + context_line(ls, i as int, li as int, span.column));
            }
            i = i + 1;
        }
        output
    }
}


/// How an error reads: the stage's own message and place for lexical,
/// parse and validation errors, and a prefix naming the kind for the rest.
pub open spec fn error_text(e: VerseconfError) -> Seq<char> {
    match e {
        VerseconfError::Lex(x) => x.message@ + " at "@ + crate::span::span_text(x.span),
        VerseconfError::Parse(x) => x.message@ + " at "@ + crate::span::span_text(x.span),
        VerseconfError::Semantic { message, span } => "Semantic error at "@ + crate::span::span_text(span) + ": "@ + message@,
        VerseconfError::Validation(x) => x.message@ + " at "@ + crate::span::span_text(x.span),
        VerseconfError::Template(m) => "Template error: "@ + m@,
        VerseconfError::Include(m) => "Include error: "@ + m@,
        VerseconfError::Io(m) => "IO error: "@ + m@,
    }
}

impl VerseconfError {
    /// The error as one line of text.
    pub fn describe(&self) -> (s: String)
        ensures
            s@ == error_text(*self),
    {
        let mut s = String::new();
        match self {
            VerseconfError::Lex(x) => {
                s.push_str(x.message.as_str());
                s.push_str(" at ");
                crate::span::push_span_text(&mut s, &x.span);
            },
            VerseconfError::Parse(x) => {
                s.push_str(x.message.as_str());
                s.push_str(" at ");
                crate::span::push_span_text(&mut s, &x.span);
            },
            VerseconfError::Semantic { message, span } => {
                s.push_str("Semantic error at ");
                crate::span::push_span_text(&mut s, span);
                s.push_str(": ");
                s.push_str(message.as_str());
            },
            VerseconfError::Validation(x) => {
                s.push_str(x.message.as_str());
                s.push_str(" at ");
                crate::span::push_span_text(&mut s, &x.span);
            },
            VerseconfError::Template(m) => {
                s.push_str("Template error: ");
                s.push_str(m.as_str());
            },
            VerseconfError::Include(m) => {
                s.push_str("Include error: ");
                s.push_str(m.as_str());
            },
            VerseconfError::Io(m) => {
                s.push_str("IO error: ");
                s.push_str(m.as_str());
            },
        }
        s
    }
}


/// The text printed for an error report.
pub fn format_error(report: &ErrorReport) -> (s: String)
    ensures
        s@ == report_text(*report),
{
    report.format()
}

} // verus!
