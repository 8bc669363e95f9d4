//! Diagnostics in the shape of cargo's JSON messages.

use vstd::prelude::*;

verus! {

/// Severity level for diagnostics.
#[derive(Debug, Clone, Copy, PartialEq, Eq, Structural)]
pub enum DiagnosticLevel {
    Error,
    Warning,
    Note,
}

/// Source span for a diagnostic.
#[derive(Debug, Clone, PartialEq, Eq)]
pub struct Span {
    pub file: String,
    pub line_start: usize,
    pub line_end: usize,
    pub column_start: usize,
    pub column_end: usize,
}

/// Source location for a diagnostic.
#[derive(Debug, Clone, PartialEq, Eq)]
pub struct Location {
    pub file: String,
    pub line: usize,
    pub column: usize,
}

/// A single diagnostic finding, compatible with cargo's JSON message format.
#[derive(Debug, Clone, PartialEq)]
pub struct Diagnostic {
    pub level: DiagnosticLevel,
    pub message: String,
    pub code: Option<String>,
    pub location: Option<Location>,
    pub rendered: Option<String>,
}

/// Mathematical model of a [`Location`].
pub struct LocationView {
    pub file: Seq<char>,
    pub line: nat,
    pub column: nat,
}

/// Mathematical model of a [`Diagnostic`].
pub struct DiagnosticView {
    pub level: DiagnosticLevel,
    pub message: Seq<char>,
    pub code: Option<Seq<char>>,
    pub location: Option<LocationView>,
    pub rendered: Option<Seq<char>>,
}

pub open spec fn opt_string_view(o: Option<String>) -> Option<Seq<char>> {
    match o {
        Some(s) => Some(s@),
        None => None,
    }
}

impl View for Location {
    type V = LocationView;

    open spec fn view(&self) -> LocationView {
        LocationView { file: self.file@, line: self.line as nat, column: self.column as nat }
    }
}

impl View for Diagnostic {
    type V = DiagnosticView;

    open spec fn view(&self) -> DiagnosticView {
        DiagnosticView {
            level: self.level,
            message: self.message@,
            code: opt_string_view(self.code),
            location: match self.location {
                Some(l) => Some(l@),
                None => None,
            },
            rendered: opt_string_view(self.rendered),
        }
    }
}

impl DiagnosticView {
    /// A fresh diagnostic: the given level and message, nothing else set.
    pub open spec fn fresh(level: DiagnosticLevel, message: Seq<char>) -> DiagnosticView {
        DiagnosticView { level, message, code: None, location: None, rendered: None }
    }

    pub open spec fn set_code(self, code: Seq<char>) -> DiagnosticView {
        DiagnosticView { code: Some(code), ..self }
    }

    pub open spec fn set_location(self, file: Seq<char>, line: nat, column: nat) -> DiagnosticView {
        DiagnosticView { location: Some(LocationView { file, line, column }), ..self }
    }

    pub open spec fn set_rendered(self, rendered: Seq<char>) -> DiagnosticView {
        DiagnosticView { rendered: Some(rendered), ..self }
    }
}

pub fn str_to_string(s: &str) -> (r: String)
    ensures
        r@ == s@,
{
    String::from_str(s)
}

impl Diagnostic {
    pub fn error(msg: &str) -> (d: Diagnostic)
        ensures
            d@ == DiagnosticView::fresh(DiagnosticLevel::Error, msg@),
    {
        Diagnostic {
            level: DiagnosticLevel::Error,
            message: str_to_string(msg),
            code: None,
            location: None,
            rendered: None,
        }
    }

    pub fn warning(msg: &str) -> (d: Diagnostic)
        ensures
            d@ == DiagnosticView::fresh(DiagnosticLevel::Warning, msg@),
    {
        Diagnostic {
            level: DiagnosticLevel::Warning,
            message: str_to_string(msg),
            code: None,
            location: None,
            rendered: None,
        }
    }

    pub fn note(msg: &str) -> (d: Diagnostic)
        ensures
            d@ == DiagnosticView::fresh(DiagnosticLevel::Note, msg@),
    {
        Diagnostic {
            level: DiagnosticLevel::Note,
            message: str_to_string(msg),
            code: None,
            location: None,
            rendered: None,
        }
    }

    pub fn with_code(self, code: &str) -> (d: Diagnostic)
        ensures
            d@ == self@.set_code(code@),
    {
        let mut d = self;
        d.code = Some(str_to_string(code));
        d
    }

    pub fn at(self, file: &str, line: usize, column: usize) -> (d: Diagnostic)
        ensures
            d@ == self@.set_location(file@, line as nat, column as nat),
    {
        let mut d = self;
        d.location = Some(Location { file: str_to_string(file), line, column });
        d
    }

    pub fn with_rendered(self, rendered: &str) -> (d: Diagnostic)
        ensures
            d@ == self@.set_rendered(rendered@),
    {
        let mut d = self;
        d.rendered = Some(str_to_string(rendered));
        d
    }
}


/// Setting a field of a diagnostic twice keeps the second value: each builder
/// overwrites what an earlier call of the same builder set.
pub proof fn law_builder_last_call_wins(
    d: DiagnosticView,
    c1: Seq<char>,
    c2: Seq<char>,
    f1: Seq<char>,
    f2: Seq<char>,
    l1: nat,
    l2: nat,
    k1: nat,
    k2: nat,
    r1: Seq<char>,
    r2: Seq<char>,
)
    ensures
        d.set_code(c1).set_code(c2) == d.set_code(c2),
        d.set_location(f1, l1, k1).set_location(f2, l2, k2) == d.set_location(f2, l2, k2),
        d.set_rendered(r1).set_rendered(r2) == d.set_rendered(r2),
{
}

/// The builders touch distinct fields, so the order in which they are applied
/// does not matter, and none of them changes the level or the message.
pub proof fn law_builder_order_irrelevant(
    d: DiagnosticView,
    code: Seq<char>,
    file: Seq<char>,
    line: nat,
    column: nat,
    rendered: Seq<char>,
)
    ensures
        d.set_code(code).set_location(file, line, column) == d.set_location(file, line, column).set_code(
            code,
        ),
        d.set_code(code).set_rendered(rendered) == d.set_rendered(rendered).set_code(code),
        d.set_location(file, line, column).set_rendered(rendered) == d.set_rendered(
            rendered,
        ).set_location(file, line, column),
        d.set_code(code).level == d.level && d.set_code(code).message == d.message,
        d.set_location(file, line, column).level == d.level && d.set_location(
            file,
            line,
            column,
        ).message == d.message,
        d.set_rendered(rendered).level == d.level && d.set_rendered(rendered).message == d.message,
{
}

} // verus!
