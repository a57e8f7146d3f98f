//! Subject-verb-object I/O statements: `write <expr> to <dest>` and
//! `read <name> from <src>`.

use vstd::prelude::*;
use crate::ast::Expression;
use crate::error::{OnuError, Span};
use crate::tokens::{Literal, Token};

verus! {

/// The expression a simple subject token stands for: an identifier or a
/// literal (an integer that fits in 64 bits becomes `I64`, a larger one
/// `I128`), or `nothing`.
pub open spec fn simple_expr(t: Token) -> Option<Expression> {
    match t {
        Token::Identifier(name) => Some(Expression::Identifier(name)),
        Token::Literal(Literal::Integer(n)) => Some(if i64::MIN <= n <= i64::MAX {
            Expression::I64(n as i64)
        } else {
            Expression::I128(n)
        }),
        Token::Literal(Literal::FloatBits(b)) => Some(Expression::F64(b)),
        Token::Literal(Literal::String(s)) => Some(Expression::Text(s)),
        Token::Literal(Literal::Boolean(b)) => Some(Expression::Boolean(b)),
        Token::Nothing => Some(Expression::Nothing),
        _ => None,
    }
}

fn svo_error(msg: &str) -> (r: OnuError)
    ensures
        r matches OnuError::GrammarViolation { message, span } && message@ == msg@
            && span == (Span { start: 0, end: 0, line: 0, column: 0 }),
{
    OnuError::GrammarViolation { message: crate::text::owned(msg), span: Span::empty() }
}

/// Parses a simple subject: an identifier or a literal.
fn parse_simple_expr(tokens: &[Token]) -> (r: Result<(Expression, usize), OnuError>)
    ensures
        tokens@.len() > 0 && simple_expr(tokens@[0]) is Some <==> r is Ok,
        r matches Ok((e, n)) ==> n == 1 && simple_expr(tokens@[0]) == Some(e),
        r matches Err(e) ==> e is GrammarViolation,
{
    if tokens.len() == 0 {
        return Err(svo_error("SVO: expected a simple expression (identifier or literal), found end of input"));
    }
    match &tokens[0] {
        Token::Identifier(name) => Ok((Expression::Identifier(name.clone()), 1)),
        Token::Literal(Literal::Integer(n)) => {
            let n = *n;
            let e = if n >= -9223372036854775808i128 && n <= 9223372036854775807i128 {
                Expression::I64(n as i64)
            } else {
                Expression::I128(n)
            };
            Ok((e, 1))
        },
        Token::Literal(Literal::FloatBits(bits)) => Ok((Expression::F64(*bits), 1)),
        Token::Literal(Literal::String(s)) => Ok((Expression::Text(s.clone()), 1)),
        Token::Literal(Literal::Boolean(b)) => Ok((Expression::Boolean(*b), 1)),
        Token::Nothing => Ok((Expression::Nothing, 1)),
        _ => Err(svo_error("SVO: expected a simple expression (identifier or literal)")),
    }
}

/// Parses `<expr> to <dest>`, the part of a `write` statement after the
/// keyword. The statement becomes an emission of the expression; the
/// destination is read but not kept.
pub fn parse_write(tokens: &[Token]) -> (r: Result<(Expression, usize), OnuError>)
    ensures
        r is Ok <==> (tokens@.len() >= 3 && simple_expr(tokens@[0]) is Some && tokens@[1] is To
            && tokens@[2] is Identifier),
        r matches Ok((e, n)) ==> n == 3 && e == Expression::Emit(Box::new(simple_expr(tokens@[0]).unwrap())),
        r matches Err(e) ==> e is GrammarViolation,
{
    let (subject, consumed) = parse_simple_expr(tokens)?;
    let pos = consumed;
    if pos >= tokens.len() || !matches!(tokens[pos], Token::To) {
        return Err(svo_error("SVO 'write': expected 'to' after expression"));
    }
    let pos = pos + 1;
    if pos >= tokens.len() || !matches!(tokens[pos], Token::Identifier(_)) {
        return Err(svo_error("SVO 'write': expected destination identifier after 'to'"));
    }
    Ok((Expression::Emit(Box::new(subject)), pos + 1))
}

/// Parses `<name> from <src>`, the part of a `read` statement after the
/// keyword. The statement becomes a call of the built-in `receives-line`;
/// the name and the source are read but not kept.
pub fn parse_read(tokens: &[Token]) -> (r: Result<(Expression, usize), OnuError>)
    ensures
        r is Ok <==> (tokens@.len() >= 3 && tokens@[0] is Identifier && tokens@[1] is From
            && tokens@[2] is Identifier),
        r matches Ok((e, n)) ==> n == 3 && (e matches Expression::BehaviorCall { name, args } && name@
            == "receives-line"@ && args@.len() == 0),
        r matches Err(e) ==> e is GrammarViolation,
{
    if tokens.len() < 1 || !matches!(tokens[0], Token::Identifier(_)) {
        return Err(svo_error("SVO 'read': expected variable name"));
    }
    if tokens.len() < 2 || !matches!(tokens[1], Token::From) {
        return Err(svo_error("SVO 'read': expected 'from' after variable name"));
    }
    if tokens.len() < 3 || !matches!(tokens[2], Token::Identifier(_)) {
        return Err(svo_error("SVO 'read': expected source identifier after 'from'"));
    }
    let name = crate::text::owned("receives-line");
    proof {
        reveal_strlit("receives-line");
    }
    Ok((Expression::BehaviorCall { name, args: Vec::new() }, 3))
}

} // verus!
