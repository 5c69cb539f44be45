//! Diagnostics and their colored, human-readable rendering.

use vstd::prelude::*;
use crate::text::{decimal_digits, push_decimal, to_owned_string};

verus! {

broadcast use vstd::string::group_string_axioms;

/// ANSI escape sequences, or empty strings when colors are off.
#[derive(Debug, Clone, Copy)]
pub struct Colors {
    pub red: &'static str,
    pub green: &'static str,
    pub yellow: &'static str,
    pub blue: &'static str,
    pub magenta: &'static str,
    pub cyan: &'static str,
    pub white: &'static str,
    pub bold: &'static str,
    pub reset: &'static str,
}

/// The terminal colors.
pub open spec fn colors_on(c: Colors) -> bool {
    &&& c.red@ == "\x1b[31m"@
    &&& c.green@ == "\x1b[32m"@
    &&& c.yellow@ == "\x1b[33m"@
    &&& c.blue@ == "\x1b[34m"@
    &&& c.magenta@ == "\x1b[35m"@
    &&& c.cyan@ == "\x1b[36m"@
    &&& c.white@ == "\x1b[37m"@
    &&& c.bold@ == "\x1b[1m"@
    &&& c.reset@ == "\x1b[0m"@
}

/// No colors at all.
pub open spec fn colors_off(c: Colors) -> bool {
    &&& c.red@ == Seq::<char>::empty()
    &&& c.green@ == Seq::<char>::empty()
    &&& c.yellow@ == Seq::<char>::empty()
    &&& c.blue@ == Seq::<char>::empty()
    &&& c.magenta@ == Seq::<char>::empty()
    &&& c.cyan@ == Seq::<char>::empty()
    &&& c.white@ == Seq::<char>::empty()
    &&& c.bold@ == Seq::<char>::empty()
    &&& c.reset@ == Seq::<char>::empty()
}

/// Whether standard error is a terminal. The answer depends on how the
/// process was started, so nothing is stated about it.
#[verifier::external_body]
fn stderr_is_terminal() -> (b: bool) {
    atty::is(atty::Stream::Stderr)
}

impl Colors {
    /// The ANSI colors.
    pub fn enabled() -> (c: Colors)
        ensures
            colors_on(c),
    {
        proof {
            reveal_strlit("\x1b[31m");
            reveal_strlit("\x1b[32m");
            reveal_strlit("\x1b[33m");
            reveal_strlit("\x1b[34m");
            reveal_strlit("\x1b[35m");
            reveal_strlit("\x1b[36m");
            reveal_strlit("\x1b[37m");
            reveal_strlit("\x1b[1m");
            reveal_strlit("\x1b[0m");
        }
        Colors {
            red: "\x1b[31m",
            green: "\x1b[32m",
            yellow: "\x1b[33m",
            blue: "\x1b[34m",
            magenta: "\x1b[35m",
            cyan: "\x1b[36m",
            white: "\x1b[37m",
            bold: "\x1b[1m",
            reset: "\x1b[0m",
        }
    }

    /// Colors turned off: every sequence is empty.
    pub fn disabled() -> (c: Colors)
        ensures
            colors_off(c),
    {
        proof {
            reveal_strlit("");
            assert(""@ =~= Seq::<char>::empty());
        }
        Colors {
            red: "",
            green: "",
            yellow: "",
            blue: "",
            magenta: "",
            cyan: "",
            white: "",
            bold: "",
            reset: "",
        }
    }

    /// Colors when standard error is a terminal, none otherwise.
    pub fn auto() -> (c: Colors)
        ensures
            colors_on(c) || colors_off(c),
    {
        if stderr_is_terminal() {
            Self::enabled()
        } else {
            Self::disabled()
        }
    }
}

/// How serious a diagnostic is.
#[derive(Debug, Clone, Copy, PartialEq, Eq, Structural)]
pub enum Severity {
    Error,
    Warning,
    Info,
}

/// The name of each severity.
pub open spec fn severity_name(s: Severity) -> Seq<char> {
    match s {
        Severity::Error => "error"@,
        Severity::Warning => "warning"@,
        Severity::Info => "info"@,
    }
}

impl Severity {
    /// `error`, `warning` or `info`.
    pub fn name(&self) -> (s: &'static str)
        ensures
            s@ == severity_name(*self),
    {
        match self {
            Severity::Error => "error",
            Severity::Warning => "warning",
            Severity::Info => "info",
        }
    }
}

/// One message for the user, with optional code, location, source line
/// and suggestions.
#[derive(Debug, Clone)]
pub struct Diagnostic {
    pub severity: Severity,
    pub code: Option<String>,
    pub message: String,
    pub file: Option<String>,
    pub line: Option<usize>,
    pub column: Option<usize>,
    pub source_line: Option<String>,
    pub suggestions: Vec<String>,
}

/// A bare diagnostic of the given severity.
pub open spec fn bare_diagnostic(d: Diagnostic, severity: Severity, message: Seq<char>) -> bool {
    &&& d.severity == severity
    &&& d.message@ == message
    &&& d.code is None
    &&& d.file is None
    &&& d.line is None
    &&& d.column is None
    &&& d.source_line is None
    &&& d.suggestions@.len() == 0
}

impl Diagnostic {
    /// An error with `message` and nothing else.
    pub fn error(message: &str) -> (d: Diagnostic)
        ensures
            bare_diagnostic(d, Severity::Error, message@),
    {
        Diagnostic {
            severity: Severity::Error,
            code: None,
            message: to_owned_string(message),
            file: None,
            line: None,
            column: None,
            source_line: None,
            suggestions: Vec::new(),
        }
    }

    /// A warning with `message` and nothing else.
    pub fn warning(message: &str) -> (d: Diagnostic)
        ensures
            bare_diagnostic(d, Severity::Warning, message@),
    {
        Diagnostic {
            severity: Severity::Warning,
            code: None,
            message: to_owned_string(message),
            file: None,
            line: None,
            column: None,
            source_line: None,
            suggestions: Vec::new(),
        }
    }

    /// The same diagnostic with an error code.
    pub fn with_code(self, code: &str) -> (d: Diagnostic)
        ensures
            d.code matches Some(c) && c@ == code@,
            d == (Diagnostic { code: d.code, ..self }),
    {
        let mut this = self;
        this.code = Some(to_owned_string(code));
        this
    }

    /// The same diagnostic at `file:line:column`.
    pub fn with_location(self, file: &str, line: usize, column: usize) -> (d: Diagnostic)
        ensures
            d.file matches Some(f) && f@ == file@,
            d.line == Some(line),
            d.column == Some(column),
            d == (Diagnostic { file: d.file, line: d.line, column: d.column, ..self }),
    {
        let mut this = self;
        this.file = Some(to_owned_string(file));
        this.line = Some(line);
        this.column = Some(column);
        this
    }

    /// The same diagnostic showing the offending source line.
    pub fn with_source_line(self, line: &str) -> (d: Diagnostic)
        ensures
            d.source_line matches Some(s) && s@ == line@,
            d == (Diagnostic { source_line: d.source_line, ..self }),
    {
        let mut this = self;
        this.source_line = Some(to_owned_string(line));
        this
    }

    /// The same diagnostic with one more suggestion at the end.
    pub fn with_suggestion(self, suggestion: &str) -> (d: Diagnostic)
        ensures
            d.suggestions@.len() == self.suggestions@.len() + 1,
            d.suggestions@.take(self.suggestions@.len() as int) == self.suggestions@,
            d.suggestions@.last()@ == suggestion@,
            d == (Diagnostic { suggestions: d.suggestions, ..self }),
    {
        let mut this = self;
        this.suggestions.push(to_owned_string(suggestion));
        proof {
            assert(this.suggestions@.take(self.suggestions@.len() as int) == self.suggestions@);
        }
        this
    }
}

/// Renders diagnostics with the given colors.
pub struct Reporter {
    colors: Colors,
}

/// The first line: icon, severity, code and message.
pub open spec fn headline(c: Colors, d: Diagnostic) -> Seq<char> {
    let (color, icon) = match d.severity {
        Severity::Error => (c.red@, "✖"@),
        Severity::Warning => (c.yellow@, "⚠"@),
        Severity::Info => (c.blue@, "ℹ"@),
    };
    c.bold@ + color + icon + c.reset@ + c.bold@ + " "@ + severity_name(d.severity) + c.reset@ + ":"@
        + match d.code {
        Some(code) => " ["@ + code@ + "]"@,
        None => Seq::empty(),
    } + " "@ + d.message@ + "\n"@
}

/// The `--> file:line:column` line, when all three are known.
pub open spec fn location_line(c: Colors, d: Diagnostic) -> Seq<char> {
    match (d.file, d.line, d.column) {
        (Some(f), Some(l), Some(col)) => "  "@ + c.cyan@ + "-->"@ + c.reset@ + " "@ + f@ + ":"@ + decimal_digits(
            l as nat,
        ) + ":"@ + decimal_digits(col as nat) + "\n"@,
        _ => Seq::empty(),
    }
}

/// The source line between two gutter lines, when there is one.
pub open spec fn source_block(c: Colors, d: Diagnostic) -> Seq<char> {
    match d.source_line {
        Some(src) => {
            let gutter = "   "@ + c.cyan@ + "|"@ + c.reset@ + "\n"@;
            let number = match d.line {
                Some(l) => decimal_digits(l as nat),
                None => Seq::empty(),
            };
            gutter + " "@ + c.cyan@ + number + c.reset@ + " "@ + src@ + "\n"@ + gutter
        },
        None => Seq::empty(),
    }
}

/// One `help:` line per suggestion.
pub open spec fn help_lines(c: Colors, ss: Seq<String>) -> Seq<char>
    decreases ss.len(),
{
    if ss.len() == 0 {
        Seq::empty()
    } else {
        help_lines(c, ss.drop_last()) + "  "@ + c.green@ + "help:"@ + c.reset@ + " "@ + ss.last()@ + "\n"@
    }
}

/// A whole diagnostic.
pub open spec fn diagnostic_text(c: Colors, d: Diagnostic) -> Seq<char> {
    headline(c, d) + location_line(c, d) + source_block(c, d) + help_lines(c, d.suggestions@)
}

/// Several diagnostics, each followed by an empty line.
pub open spec fn diagnostics_text(c: Colors, ds: Seq<Diagnostic>) -> Seq<char>
    decreases ds.len(),
{
    if ds.len() == 0 {
        Seq::empty()
    } else {
        diagnostics_text(c, ds.drop_last()) + diagnostic_text(c, ds.last()) + "\n"@
    }
}

impl Reporter {
    /// A reporter using `colors`.
    pub fn new(colors: Colors) -> (r: Reporter)
        ensures
            r.colors() == colors,
    {
        Reporter { colors }
    }

    /// A reporter with colors when standard error is a terminal.
    pub fn auto() -> (r: Reporter)
        ensures
            colors_on(r.colors()) || colors_off(r.colors()),
    {
        Self::new(Colors::auto())
    }

    /// The colors in use.
    pub closed spec fn colors(&self) -> Colors {
        self.colors
    }

    /// Renders one diagnostic.
    pub fn format_diagnostic(&self, diag: &Diagnostic) -> (s: String)
        ensures
            s@ == diagnostic_text(self.colors(), *diag),
    {
        proof {
            reveal_strlit("✖");
            reveal_strlit("⚠");
            reveal_strlit("ℹ");
        }
        let c = self.colors;
        let mut output = String::new();
        let (color, icon) = match diag.severity {
            Severity::Error => (c.red, "✖"),
            Severity::Warning => (c.yellow, "⚠"),
            Severity::Info => (c.blue, "ℹ"),
        };
        output.push_str(c.bold);
        output.push_str(color);
        output.push_str(icon);
        output.push_str(c.reset);
        output.push_str(c.bold);
        output.push_str(" ");
        output.push_str(diag.severity.name());
        output.push_str(c.reset);
        output.push_str(":");
        match &diag.code {
            Some(code) => {
                output.push_str(" [");
                output.push_str(code.as_str());
                output.push_str("]");
            },
            None => {},
        }
        output.push_str(" ");
        output.push_str(diag.message.as_str());
        output.push_str("\n");
        let ghost after_head = output@;
        proof {
            assert(after_head == headline(c, *diag));
        }
        self.push_location(&mut output, diag);
        self.push_source(&mut output, diag);
        let ghost before_help = output@;
        let mut i: usize = 0;
        while i < diag.suggestions.len()
            invariant
                i <= diag.suggestions@.len(),
                output@ == before_help + help_lines(c, diag.suggestions@.take(i as int)),
            decreases diag.suggestions@.len() - i,
        {
            proof {
                assert(diag.suggestions@.take(i + 1).drop_last() == diag.suggestions@.take(i as int));
            }
            output.push_str("  ");
            output.push_str(c.green);
            output.push_str("help:");
            output.push_str(c.reset);
            output.push_str(" ");
            output.push_str(diag.suggestions[i].as_str());
            output.push_str("\n");
            i = i + 1;
        }
        proof {
            assert(diag.suggestions@.take(diag.suggestions@.len() as int) == diag.suggestions@);
        }
        output
    }

    fn push_location(&self, out: &mut String, diag: &Diagnostic)
        ensures
            final(out)@ == old(out)@ + location_line(self.colors(), *diag),
    {
        let c = self.colors;
        match (&diag.file, diag.line, diag.column) {
            (Some(file), Some(line), Some(col)) => {
                out.push_str("  ");
                out.push_str(c.cyan);
                out.push_str("-->");
                out.push_str(c.reset);
                out.push_str(" ");
                out.push_str(file.as_str());
                out.push_str(":");
                push_decimal(out, line as u64);
                out.push_str(":");
                push_decimal(out, col as u64);
                out.push_str("\n");
            },
            _ => {},
        }
    }

    fn push_source(&self, out: &mut String, diag: &Diagnostic)
        ensures
            final(out)@ == old(out)@ + source_block(self.colors(), *diag),
    {
        let c = self.colors;
        match &diag.source_line {
            Some(source) => {
                out.push_str("   ");
                out.push_str(c.cyan);
                out.push_str("|");
                out.push_str(c.reset);
                out.push_str("\n");
                out.push_str(" ");
                out.push_str(c.cyan);
                match diag.line {
                    Some(l) => push_decimal(out, l as u64),
                    None => {},
                }
                out.push_str(c.reset);
                out.push_str(" ");
                out.push_str(source.as_str());
                out.push_str("\n");
                out.push_str("   ");
                out.push_str(c.cyan);
                out.push_str("|");
                out.push_str(c.reset);
                out.push_str("\n");
            },
            None => {},
        }
    }

    /// Renders each diagnostic followed by an empty line.
    pub fn format_diagnostics(&self, diagnostics: &Vec<Diagnostic>) -> (s: String)
        ensures
            s@ == diagnostics_text(self.colors(), diagnostics@),
    {
        let mut output = String::new();
        let mut i: usize = 0;
        while i < diagnostics.len()
            invariant
                i <= diagnostics@.len(),
                output@ == diagnostics_text(self.colors(), diagnostics@.take(i as int)),
            decreases diagnostics@.len() - i,
        {
            proof {
                assert(diagnostics@.take(i + 1).drop_last() == diagnostics@.take(i as int));
            }
            let one = self.format_diagnostic(&diagnostics[i]);
            output.push_str(one.as_str());
            output.push_str("\n");
            i = i + 1;
        }
        proof {
            assert(diagnostics@.take(diagnostics@.len() as int) == diagnostics@);
        }
        output
    }
}

/// An error diagnostic for a parse failure, located in `file` at `line`
/// (1 when unknown), column 1, when a file is given.
pub fn diagnostic_from_parse(message: &str, file: Option<&str>, line: Option<usize>) -> (d: Diagnostic)
    ensures
        d.severity == Severity::Error,
        d.message@ == message@,
        d.code is None,
        d.source_line is None,
        d.suggestions@.len() == 0,
        match file {
            Some(f) => d.file matches Some(g) && g@ == f@ && d.line == Some(
                match line { Some(l) => l, None => 1usize },
            ) && d.column == Some(1usize),
            None => d.file is None && d.line is None && d.column is None,
        },
{
    let diag = Diagnostic::error(message);
    match file {
        Some(f) => {
            let l = match line {
                Some(l) => l,
                None => 1,
            };
            diag.with_location(f, l, 1)
        },
        None => diag,
    }
}

} // verus!
