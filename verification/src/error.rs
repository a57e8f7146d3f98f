//! Errors and diagnostics of the compiler.

use vstd::prelude::*;

verus! {

/// A region of source text.
#[derive(Debug, Clone, Copy, PartialEq, Eq, Hash, Structural)]
pub struct Span {
    pub start: usize,
    pub end: usize,
    pub line: usize,
    pub column: usize,
}

impl Span {
    /// The empty span at the start of the source.
    pub fn empty() -> (r: Span)
        ensures
            r == (Span { start: 0, end: 0, line: 0, column: 0 }),
    {
        Span { start: 0, end: 0, line: 0, column: 0 }
    }
}

impl Default for Span {
    fn default() -> (r: Span)
        ensures
            r == (Span { start: 0, end: 0, line: 0, column: 0 }),
    {
        Span { start: 0, end: 0, line: 0, column: 0 }
    }
}

/// A fatal compilation error.
#[derive(Debug, Clone, PartialEq, Eq)]
pub enum OnuError {
    GrammarViolation { message: String, span: Span },
    ResourceViolation { message: String, span: Span },
    AgencyViolation { message: String, span: Span },
    OwnershipViolation { message: String, span: Span },
    BehaviorConflict { message: String, span: Span },
    MonomorphizationError { message: String },
    CodeGenError { message: String },
}

/// How serious a diagnostic is.
#[derive(Debug, Clone, Copy, PartialEq, Eq, Hash, Structural)]
pub enum Severity {
    Error,
    Warning,
    Info,
    Hint,
}

/// A non-fatal finding about the program.
#[derive(Debug, Clone, PartialEq, Eq)]
pub struct Diagnostic {
    pub severity: Severity,
    pub span: Span,
    pub message: String,
    pub actionable_hint: Option<String>,
}

impl Diagnostic {
    /// A warning with the given message and no hint.
    pub fn warning(span: Span, message: String) -> (r: Diagnostic)
        ensures
            r == (Diagnostic { severity: Severity::Warning, span, message, actionable_hint: None }),
    {
        Diagnostic { severity: Severity::Warning, span, message, actionable_hint: None }
    }

    /// A hint with the given message and no further hint.
    pub fn hint(span: Span, message: String) -> (r: Diagnostic)
        ensures
            r == (Diagnostic { severity: Severity::Hint, span, message, actionable_hint: None }),
    {
        Diagnostic { severity: Severity::Hint, span, message, actionable_hint: None }
    }

    /// An error with the given message and no hint.
    pub fn error(span: Span, message: String) -> (r: Diagnostic)
        ensures
            r == (Diagnostic { severity: Severity::Error, span, message, actionable_hint: None }),
    {
        Diagnostic { severity: Severity::Error, span, message, actionable_hint: None }
    }

    /// The same diagnostic with an actionable hint attached.
    pub fn with_hint(self, hint: String) -> (r: Diagnostic)
        ensures
            r == (Diagnostic { actionable_hint: Some(hint), ..self }),
    {
        Diagnostic { actionable_hint: Some(hint), ..self }
    }
}

/// A grammar violation at the empty span with the given message.
pub fn grammar_error(message: String) -> (r: OnuError)
    ensures
        r == (OnuError::GrammarViolation { message, span: Span { start: 0, end: 0, line: 0, column: 0 } }),
{
    OnuError::GrammarViolation { message, span: Span::empty() }
}

} // verus!
