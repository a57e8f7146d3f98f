//! Fault-tolerant parsing: finding the next safe restart point after an
//! error, and turning errors into diagnostics.

use vstd::prelude::*;
use crate::error::{Diagnostic, OnuError, Severity, Span};
use crate::tokens::Token;

verus! {

/// Tokens that begin a new top-level discourse unit.
pub open spec fn spec_is_discourse_starter(t: Token) -> bool {
    t is TheModuleCalled || t is TheShapeCalled || t is TheBehaviorCalled || t is TheEffectBehaviorCalled
}

/// Whether `token` can begin a new top-level discourse unit.
pub fn is_discourse_starter(token: &Token) -> (r: bool)
    ensures
        r == spec_is_discourse_starter(*token),
{
    matches!(token, Token::TheModuleCalled | Token::TheShapeCalled | Token::TheBehaviorCalled | Token::TheEffectBehaviorCalled)
}

/// The first position at or after `pos` holding a discourse starter, or the
/// end of the tokens if there is none.
pub fn synchronize(tokens: &[Token], pos: usize) -> (r: usize)
    ensures
        pos <= tokens@.len() ==> pos <= r <= tokens@.len(),
        pos > tokens@.len() ==> r == pos,
        r < tokens@.len() ==> spec_is_discourse_starter(tokens@[r as int]),
        forall|i: int| pos <= i < r ==> !spec_is_discourse_starter(#[trigger] tokens@[i]),
{
    let mut p = pos;
    while p < tokens.len()
        invariant
            pos <= p,
            pos <= tokens@.len() ==> p <= tokens@.len(),
            pos > tokens@.len() ==> p == pos,
            forall|i: int| pos <= i < p ==> !spec_is_discourse_starter(#[trigger] tokens@[i]),
        decreases tokens.len() - p,
    {
        if is_discourse_starter(&tokens[p]) {
            return p;
        }
        p = p + 1;
    }
    p
}

/// The message and span an error carries (errors without a span use the
/// empty span).
pub open spec fn error_parts(e: OnuError) -> (String, Span) {
    match e {
        OnuError::GrammarViolation { message, span } => (message, span),
        OnuError::ResourceViolation { message, span } => (message, span),
        OnuError::AgencyViolation { message, span } => (message, span),
        OnuError::OwnershipViolation { message, span } => (message, span),
        OnuError::BehaviorConflict { message, span } => (message, span),
        OnuError::MonomorphizationError { message } => (message, Span { start: 0, end: 0, line: 0, column: 0 }),
        OnuError::CodeGenError { message } => (message, Span { start: 0, end: 0, line: 0, column: 0 }),
    }
}

/// Converts a fatal error into an error diagnostic with the same message
/// and span, so that it can be collected without aborting the parse.
pub fn error_to_diagnostic(err: &OnuError) -> (r: Diagnostic)
    ensures
        r.severity == Severity::Error,
        r.message@ == error_parts(*err).0@,
        r.span == error_parts(*err).1,
        r.actionable_hint is None,
{
    let (message, span) = match err {
        OnuError::GrammarViolation { message, span } => (message.clone(), *span),
        OnuError::ResourceViolation { message, span } => (message.clone(), *span),
        OnuError::AgencyViolation { message, span } => (message.clone(), *span),
        OnuError::OwnershipViolation { message, span } => (message.clone(), *span),
        OnuError::BehaviorConflict { message, span } => (message.clone(), *span),
        OnuError::MonomorphizationError { message } => (message.clone(), Span::empty()),
        OnuError::CodeGenError { message } => (message.clone(), Span::empty()),
    };
    Diagnostic { severity: Severity::Error, span, message, actionable_hint: None }
}

} // verus!
