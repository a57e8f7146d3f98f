//! The parser of the surface language: discourse units (modules, shapes,
//! behaviors), behavior headers, types, arguments and expressions, read from
//! the token stream by recursive descent.

use vstd::prelude::*;
use crate::ast::{Argument, BehaviorHeader, BinOp, Discourse, Expression, ReturnType, TypeInfo};
use crate::error::{OnuError, Span};
use crate::options::LogLevel;
use crate::registry::BehaviorSignature;
use crate::registry_service::RegistryService;
use crate::text::{concat2, concat3, owned, str_eq};
use crate::tokens::{Literal, ParserPort, Token, token_eq, token_same};
use crate::lexer::phrase_token;
use crate::types::{OnuType, dup_types, ty_equiv};

verus! {

/// What the derived `Debug` of a token prints.
pub uninterp spec fn token_debug(t: Token) -> Seq<char>;

/// `format!("{:?}", t)` on a token: the text the derived `Debug`
/// implementation of `Token` prints.
#[verifier::external_body]
pub(crate) fn debug_token(t: &Token) -> (s: String)
    ensures
        s@ == token_debug(*t),
{
    format!("{:?}", t)
}

/// What the derived `Debug` of a type prints.
pub uninterp spec fn type_debug(t: OnuType) -> Seq<char>;

/// `format!("{:?}", t)` on a type: the text the derived `Debug`
/// implementation of `OnuType` prints.
#[verifier::external_body]
fn debug_type(t: &OnuType) -> (s: String)
    ensures
        s@ == type_debug(*t),
{
    format!("{:?}", t)
}

fn violation(message: String) -> (e: OnuError)
    ensures
        e == (OnuError::GrammarViolation { message, span: Span { start: 0, end: 0, line: 0, column: 0 } }),
{
    OnuError::GrammarViolation { message, span: Span::empty() }
}

/// `t` is the type named `name` when it is not a tuple: the primitive of
/// that name, or else the shape of that name.
pub open spec fn names_type(name: Seq<char>, t: OnuType) -> bool {
    match crate::types::spec_primitive_named(name) {
        Some(p) => t == p,
        None => t matches OnuType::Shape(s) && s@ == name,
    }
}

/// Whether the tokens at `p` begin a tuple type, `tuple of (...)`.
pub open spec fn tuple_head(toks: Seq<Token>, p: int) -> bool {
    &&& 0 <= p && p + 1 < toks.len()
    &&& behavior_name_of(toks[p]) == Some("tuple"@)
    &&& toks[p + 1] matches Token::Identifier(s) && s@ == "of"@
}

/// The tokens from `p` up to `e` spell the type `t`: `tuple of (` a list of
/// article-introduced types `)`, or else a primitive or a shape by name.
pub open spec fn type_reads(ts: Seq<Token>, p: int, t: OnuType, e: int) -> bool
    decreases ts.len() - p, 1int,
{
    &&& 0 <= p < ts.len()
    &&& behavior_name_of(ts[p]) is Some
    &&& if tuple_head(ts, p) {
        &&& p + 2 < ts.len() && ts[p + 2] == Token::Delimiter('(')
        &&& p + 3 < e <= ts.len()
        &&& ts[e - 1] == Token::Delimiter(')')
        &&& t matches OnuType::Tuple(xs) && type_list_reads(ts, p + 3, true, xs@, e - 1)
    } else {
        names_type(behavior_name_of(ts[p])->0, t) && e == p + 1
    }
}

/// A position where a read ends (a name for quantifying over it).
pub open spec fn read_end(q: int) -> bool {
    q >= 0
}

/// Whether no element has been read yet.
pub open spec fn none_yet(xs: Seq<OnuType>) -> bool {
    xs.len() == 0
}

/// The tokens from `q` up to `e` spell the element types `xs` of a tuple
/// type: each an article and a type, after the first each after an
/// optional `:`; the list ends at `)`, at the end, or before a token that
/// is not an article.
pub open spec fn type_list_reads(ts: Seq<Token>, q: int, first: bool, xs: Seq<OnuType>, e: int) -> bool
    decreases ts.len() - q, 0int,
{
    if q < 0 || q >= ts.len() || ts[q] == Token::Delimiter(')') {
        xs.len() == 0 && e == q
    } else {
        let q1 = if !first && is_colon(ts[q]) { q + 1 } else { q };
        if q1 < ts.len() && is_article(ts[q1]) {
            &&& xs.len() > 0
            &&& exists|q2: int| #[trigger] read_end(q2) && q1 + 1 < q2 <= ts.len() && type_reads(ts, q1 + 1, xs[0], q2)
                && type_list_reads(ts, q2, false, xs.drop_first(), e)
        } else {
            xs.len() == 0 && e == q1
        }
    }
}

/// An argument as the signature sees it: its name, its type, and whether
/// it is only observed.
pub open spec fn arg_view(a: Argument) -> (Seq<char>, OnuType, bool) {
    (a.name@, a.type_info.onu_type, a.type_info.is_observation)
}

/// The views of a list of arguments.
pub open spec fn args_view(s: Seq<Argument>) -> Seq<(Seq<char>, OnuType, bool)> {
    s.map_values(|a: Argument| arg_view(a))
}

/// Whether a token ends a list of arguments.
pub open spec fn stops_arguments(t: Token) -> bool {
    opens_discourse(t) || t is Delivers || t is As
}

/// The tokens from `q` up to `e` declare the arguments `out`: each an
/// article and a type, an optional `called`, a name (none when the next
/// token is no identifier), and an optional `via observation`; other tokens
/// are passed over; the list ends at the end or before a unit, `delivers`
/// or `as`.
pub open spec fn args_reads(ts: Seq<Token>, q: int, out: Seq<(Seq<char>, OnuType, bool)>, e: int) -> bool
    decreases ts.len() - q,
{
    if q < 0 || q >= ts.len() || stops_arguments(ts[q]) {
        out.len() == 0 && e == q
    } else if is_article(ts[q]) {
        &&& out.len() > 0
        &&& exists|q2: int| #[trigger] read_end(q2) && q + 1 < q2 <= ts.len() && type_reads(ts, q + 1, out[0].1, q2) && {
            let q3 = if q2 < ts.len() && ts[q2] is Called { q2 + 1 } else { q2 };
            let nm = if q3 < ts.len() && ts[q3] is Identifier { ts[q3]->Identifier_0@ } else { Seq::empty() };
            let q4 = if q3 < ts.len() { q3 + 1 } else { q3 };
            let via = q4 < ts.len() && is_identifier_named(ts[q4], "via"@);
            let obs = via && q4 + 1 < ts.len() && is_identifier_named(ts[q4 + 1], "observation"@);
            let q6 = if obs { q4 + 2 } else if via { q4 + 1 } else { q4 };
            &&& out[0].0 == nm
            &&& out[0].2 == obs
            &&& args_reads(ts, q6, out.drop_first(), e)
        }
    } else {
        args_reads(ts, q + 1, out, e)
    }
}

/// The tokens from `q` up to `e` spell the return type `t`: `nothing`, or
/// an article and a type.
pub open spec fn ret_reads(ts: Seq<Token>, q: int, t: OnuType, e: int) -> bool {
    &&& 0 <= q < ts.len()
    &&& if ts[q] is Nothing {
        t == OnuType::Nothing && e == q + 1
    } else {
        is_article(ts[q]) && type_reads(ts, q + 1, t, e)
    }
}

/// Whether a token ends the words of an intent.
pub open spec fn stops_intent(t: Token) -> bool {
    t is Takes || t is Delivers || t is WithDiminishing || t is NoGuaranteedTermination || t is As
}

/// Where the words of an intent that start at `i` end: identifiers are
/// taken, up to a clause keyword, the end, or just past another token.
pub open spec fn intent_end(ts: Seq<Token>, i: int) -> int
    decreases ts.len() - i,
{
    if i < 0 || i >= ts.len() || stops_intent(ts[i]) {
        i
    } else if ts[i] is Identifier {
        intent_end(ts, i + 1)
    } else {
        i + 1
    }
}

/// Past a clause keyword at `q` and an optional `:`.
pub open spec fn after_keyword(ts: Seq<Token>, q: int) -> int {
    if q + 1 < ts.len() && is_colon(ts[q + 1]) { q + 2 } else { q + 1 }
}

/// The clauses of a behavior header from `q` up to `e` (the `as`, or the
/// end): with the arguments `tk` and return type `dl` declared so far, the
/// header ends up declaring `ft` and `fd`; a later `takes` or `delivers`
/// clause replaces an earlier one; intents, `with diminishing` and other
/// tokens are passed over.
pub open spec fn clauses_read(
    ts: Seq<Token>,
    q: int,
    tk: Seq<(Seq<char>, OnuType, bool)>,
    dl: OnuType,
    ft: Seq<(Seq<char>, OnuType, bool)>,
    fd: OnuType,
    e: int,
) -> bool
    decreases ts.len() - q,
{
    if q < 0 || q >= ts.len() || ts[q] is As {
        ft == tk && fd == dl && e == q
    } else {
        let c = after_keyword(ts, q);
        if ts[q] is WithIntent {
            let i = intent_end(ts, c);
            q < i <= ts.len() && clauses_read(ts, i, tk, dl, ft, fd, e)
        } else if ts[q] is Takes {
            exists|a: Seq<(Seq<char>, OnuType, bool)>, q2: int| #[trigger] args_reads(ts, c, a, q2) && q < q2 <= ts.len()
                && clauses_read(ts, q2, a, dl, ft, fd, e)
        } else if ts[q] is Delivers {
            exists|rt: OnuType, q2: int| #[trigger] ret_reads(ts, c, rt, q2) && q < q2 <= ts.len()
                && clauses_read(ts, q2, tk, rt, ft, fd, e)
        } else if ts[q] is WithDiminishing {
            clauses_read(ts, if c < ts.len() { c + 1 } else { c }, tk, dl, ft, fd, e)
        } else {
            clauses_read(ts, q + 1, tk, dl, ft, fd, e)
        }
    }
}

/// The tokens from `p` up to `e` are a behavior header named `name` (an
/// effect or not) that declares the arguments `ft` and the return type
/// `fd` (`nothing` when no `delivers` clause says otherwise).
pub open spec fn header_reads(
    ts: Seq<Token>,
    p: int,
    name: Seq<char>,
    is_effect: bool,
    ft: Seq<(Seq<char>, OnuType, bool)>,
    fd: OnuType,
    e: int,
) -> bool {
    &&& 0 <= p && p + 1 < ts.len()
    &&& (ts[p] is TheBehaviorCalled || ts[p] is TheEffectBehaviorCalled)
    &&& ts[p + 1] matches Token::Identifier(n) && n@ == name
    &&& is_effect == ts[p] is TheEffectBehaviorCalled
    &&& clauses_read(ts, p + 2, Seq::empty(), OnuType::Nothing, ft, fd, e)
}

/// The body of a shape from `q` up to `e` (the next unit, or the end): with
/// the fields `acc` declared so far it ends up declaring `fin`; a later
/// `takes` clause replaces an earlier one, other tokens are passed over.
pub open spec fn shape_body_reads(
    ts: Seq<Token>,
    q: int,
    acc: Seq<(Seq<char>, OnuType, bool)>,
    fin: Seq<(Seq<char>, OnuType, bool)>,
    e: int,
) -> bool
    decreases ts.len() - q,
{
    if q < 0 || q >= ts.len() || opens_discourse(ts[q]) {
        fin == acc && e == q
    } else if ts[q] is Takes {
        exists|a: Seq<(Seq<char>, OnuType, bool)>, q2: int| #[trigger] args_reads(ts, after_keyword(ts, q), a, q2)
            && q < q2 <= ts.len() && shape_body_reads(ts, q2, a, fin, e)
    } else {
        shape_body_reads(ts, q + 1, acc, fin, e)
    }
}

/// The tokens from `w` up to `e` are a shape named `name` with the fields
/// `fields`.
pub open spec fn shape_reads(ts: Seq<Token>, w: int, name: Seq<char>, fields: Seq<(Seq<char>, OnuType, bool)>, e: int) -> bool {
    &&& 0 <= w && w + 1 < ts.len()
    &&& ts[w] is TheShapeCalled
    &&& ts[w + 1] matches Token::Identifier(n) && n@ == name
    &&& shape_body_reads(ts, w + 2, Seq::empty(), fields, e)
}

/// An expression (a name for quantifying over one).
pub open spec fn expr_node(x: Expression) -> bool {
    true
}

/// The tokens from `p` up to `e` are the expression `x`: an `if`, a
/// derivation, or an operator expression.
pub open spec fn expr_reads(ts: Seq<Token>, reg: RegistryService, p: int, x: Expression, e: int) -> bool
    decreases ts.len() - p, 5int,
{
    &&& 0 <= p < ts.len()
    &&& if ts[p] is If {
        if_reads(ts, reg, p, x, e)
    } else if ts[p] is Derivation {
        deriv_reads(ts, reg, p, x, e)
    } else {
        infix_reads(ts, reg, p, 0, x, e)
    }
}

/// `if` condition `then` expression `else` expression, from `p` up to `e`.
pub open spec fn if_reads(ts: Seq<Token>, reg: RegistryService, p: int, x: Expression, e: int) -> bool
    decreases ts.len() - p, 4int,
{
    &&& 0 <= p < ts.len() && ts[p] is If
    &&& x matches Expression::If { condition, then_branch, else_branch }
    &&& exists|q1: int, q2: int| #![trigger read_end(q1), read_end(q2)]
        p + 1 < q1 && q1 < q2 && q2 + 1 < e && e <= ts.len()
        && expr_reads(ts, reg, p + 1, *condition, q1) && ts[q1] is Then
        && expr_reads(ts, reg, q1 + 1, *then_branch, q2) && ts[q2] is Else
        && expr_reads(ts, reg, q2 + 1, *else_branch, e)
}

/// The body of a derivation: `nothing` for no expressions, the expression
/// for one, a block for more.
pub open spec fn body_of(b: Expression, bl: Seq<Expression>) -> bool {
    if bl.len() == 0 {
        b == Expression::Nothing
    } else if bl.len() == 1 {
        b == bl[0]
    } else {
        b matches Expression::Block(v) && v@ == bl
    }
}

/// `derivation: name derives-from [type] value` and the body after it,
/// from `p` up to `e`.
pub open spec fn deriv_reads(ts: Seq<Token>, reg: RegistryService, p: int, x: Expression, e: int) -> bool
    decreases ts.len() - p, 4int,
{
    &&& 0 <= p < ts.len() && ts[p] is Derivation
    &&& {
        let c = if p + 1 < ts.len() && is_colon(ts[p + 1]) { p + 2 } else { p + 1 };
        let t0 = c + 2;
        &&& t0 <= ts.len()
        &&& ts[c] matches Token::Identifier(n) && ts[c + 1] is DerivesFrom
        &&& x matches Expression::Derivation { name, type_info, value, body }
        &&& name@ == ts[c]->Identifier_0@
        &&& exists|v0: int, m: int, bl: Seq<Expression>| #![trigger read_end(v0), read_end(m), expr_list_node(bl)]
            t0 <= v0 < m <= e && e <= ts.len()
            && (if t0 < ts.len() && is_article(ts[t0]) {
                type_info matches Some(ti) && type_reads(ts, t0 + 1, ti.onu_type, v0)
            } else {
                type_info is None && v0 == t0
            })
            && expr_reads(ts, reg, v0, *value, m)
            && deriv_body_reads(ts, reg, m, bl, e)
            && body_of(*body, bl)
    }
}

/// A list of expressions (a name for quantifying over one).
pub open spec fn expr_list_node(bl: Seq<Expression>) -> bool {
    true
}

/// The expressions `fin` of a derivation's body from `q` up to `e`: they
/// end at a terminator, a unit, `as` or the end, and a nested derivation
/// takes the rest.
pub open spec fn deriv_body_reads(ts: Seq<Token>, reg: RegistryService, q: int, fin: Seq<Expression>, e: int) -> bool
    decreases ts.len() - q, 6int,
{
    if q < 0 || q >= ts.len() || ends_expression(ts[q]) || opens_discourse(ts[q]) {
        fin.len() == 0 && e == q
    } else if ts[q] is Derivation {
        fin.len() == 1 && q < e <= ts.len() && deriv_reads(ts, reg, q, fin[0], e)
    } else {
        &&& fin.len() > 0
        &&& exists|q2: int| #[trigger] read_end(q2) && q < q2 <= ts.len()
            && expr_reads(ts, reg, q, fin[0], q2)
            && deriv_body_reads(ts, reg, q2, fin.drop_first(), e)
    }
}

/// The expressions `fin` of a behavior's body from `q` up to `e`: they end
/// at a unit, `as` or the end.
pub open spec fn block_list_reads(ts: Seq<Token>, reg: RegistryService, q: int, fin: Seq<Expression>, e: int) -> bool
    decreases ts.len() - q,
{
    if q < 0 || q >= ts.len() || opens_discourse(ts[q]) || ts[q] is As {
        fin.len() == 0 && e == q
    } else {
        &&& fin.len() > 0
        &&& exists|q2: int| #[trigger] read_end(q2) && q < q2 <= ts.len()
            && expr_reads(ts, reg, q, fin[0], q2)
            && block_list_reads(ts, reg, q2, fin.drop_first(), e)
    }
}

/// A behavior's body from `q` up to `e`: `nothing`, one expression, or a
/// block of them.
pub open spec fn block_reads(ts: Seq<Token>, reg: RegistryService, q: int, x: Expression, e: int) -> bool {
    exists|bl: Seq<Expression>| #[trigger] block_list_reads(ts, reg, q, bl, e) && body_of(x, bl)
}

/// The word of the operator a token stands for.
pub open spec fn infix_word(t: Token) -> Seq<char> {
    match infix_of(t) {
        Some(w) => w.0,
        None => Seq::empty(),
    }
}

/// The precedence of the operator a token stands for.
pub open spec fn infix_prec(t: Token) -> int {
    match infix_of(t) {
        Some(w) => w.1 as int,
        None => 0,
    }
}

/// The operator words that call a behavior of that name on one operand.
pub open spec fn unary_word(op: Seq<char>) -> bool {
    op == "duplicated-as"@ || op == "init-of"@ || op == "tail-of"@
}

/// The operator words that call a behavior of that name on two operands.
pub open spec fn binary_word(op: Seq<char>) -> bool {
    op == "matches"@ || op == "exceeds"@ || op == "falls-short-of"@ || op == "added-to"@ || op == "decreased-by"@
        || op == "scales-by"@ || op == "partitions-by"@ || op == "joined-with"@ || op == "char-at"@
}

/// An operator expression whose operators bind at least as tightly as
/// `minp`, from `p` up to `e`: a primary, then the operators.
pub open spec fn infix_reads(ts: Seq<Token>, reg: RegistryService, p: int, minp: int, x: Expression, e: int) -> bool
    decreases ts.len() - p, 3int,
{
    exists|q1: int, l: Expression| #![trigger read_end(q1), expr_node(l)]
        p < q1 <= ts.len() && primary_reads(ts, reg, p, l, q1) && infix_loop(ts, reg, q1, minp, l, x, e)
}

/// The operators after the left operand `lhs` from `q`, up to `e`, giving
/// `x` (left to right).
pub open spec fn infix_loop(ts: Seq<Token>, reg: RegistryService, q: int, minp: int, lhs: Expression, x: Expression, e: int) -> bool
    decreases ts.len() - q, 2int,
{
    if q < 0 || q >= ts.len() || ends_expression(ts[q]) || infix_of(ts[q]) is None || infix_prec(ts[q]) < minp {
        x == lhs && e == q
    } else {
        let op = infix_word(ts[q]);
        let prec = infix_prec(ts[q]);
        if op == "utilizes"@ {
            &&& q + 1 < ts.len() && behavior_name_of(ts[q + 1]) is Some
            &&& exists|nl: Expression, q3: int| #![trigger expr_node(nl), read_end(q3)]
                q + 1 < q3 <= ts.len()
                && infix_loop(ts, reg, q3, minp, nl, x, e)
                && (nl matches Expression::BehaviorCall { name, args }
                    && name@ == behavior_name_of(ts[q + 1])->0
                    && args@.len() >= 1 && args@[0] == lhs
                    && util_args(ts, reg, q + 2, behavior_name_of(ts[q + 1])->0, args@.drop_first(), q3))
        } else if unary_word(op) {
            exists|nl: Expression| #[trigger] expr_node(nl)
                && infix_loop(ts, reg, q + 1, minp, nl, x, e)
                && (nl matches Expression::BehaviorCall { name, args } && name@ == op && args@ == seq![lhs])
        } else {
            exists|nl: Expression, r: Expression, q2: int| #![trigger expr_node(nl), expr_node(r), read_end(q2)]
                q + 1 < q2 <= ts.len()
                && infix_reads(ts, reg, q + 1, prec + 1, r, q2)
                && (if binary_word(op) {
                    nl matches Expression::BehaviorCall { name, args } && name@ == op && args@ == seq![lhs, r]
                } else {
                    nl matches Expression::BinaryOp { left, op: BinOp::Add, right } && *left == lhs && *right == r
                })
                && infix_loop(ts, reg, q2, minp, nl, x, e)
        }
    }
}

/// The further arguments of `utilizes target` from `q` up to `e`: as many
/// expressions as the target's signature takes beyond the first, or, for a
/// target not in the registry, one expression unless a terminator follows.
pub open spec fn util_args(ts: Seq<Token>, reg: RegistryService, q: int, target: Seq<char>, args: Seq<Expression>, e: int) -> bool
    decreases ts.len() - q, 7int,
{
    match reg.symbols().spec_lookup(target) {
        Some(sig) => count_args(ts, reg, q, if sig.input_types@.len() > 0 { (sig.input_types@.len() - 1) as nat } else { 0 }, args, e),
        None => if q < ts.len() && !ends_expression(ts[q]) {
            args.len() == 1 && expr_reads(ts, reg, q, args[0], e)
        } else {
            args.len() == 0 && e == q
        },
    }
}

/// `n` expressions one after another from `q` up to `e`.
pub open spec fn count_args(ts: Seq<Token>, reg: RegistryService, q: int, n: nat, args: Seq<Expression>, e: int) -> bool
    decreases ts.len() - q, 6int, n,
{
    if n == 0 {
        args.len() == 0 && e == q
    } else {
        &&& args.len() > 0
        &&& exists|q2: int| #[trigger] read_end(q2) && q < q2 <= ts.len()
            && expr_reads(ts, reg, q, args[0], q2)
            && count_args(ts, reg, q2, (n - 1) as nat, args.drop_first(), e)
    }
}

/// A primary expression from `p` up to `e`: a literal, an identifier (a
/// call when the registry knows it as a behavior of no arguments),
/// `nothing`, a parenthesized expression, or `broadcasts` and an
/// expression.
pub open spec fn primary_reads(ts: Seq<Token>, reg: RegistryService, p: int, x: Expression, e: int) -> bool
    decreases ts.len() - p, 1int,
{
    &&& 0 <= p < ts.len()
    &&& match ts[p] {
        Token::Literal(Literal::Integer(n)) => x == integer_expr(n) && e == p + 1,
        Token::Literal(Literal::FloatBits(b)) => x == Expression::F32(b as u32) && e == p + 1,
        Token::Literal(Literal::Boolean(b)) => x == Expression::Boolean(b) && e == p + 1,
        Token::Literal(Literal::String(t)) => (x matches Expression::Text(y) && y@ == t@) && e == p + 1,
        Token::Identifier(t) => e == p + 1 && if reg.symbols().spec_lookup(t@) matches Some(sig) && sig.input_types@.len() == 0 {
            x matches Expression::BehaviorCall { name, args } && name@ == t@ && args@.len() == 0
        } else {
            x matches Expression::Identifier(y) && y@ == t@
        },
        Token::Nothing => x == Expression::Nothing && e == p + 1,
        Token::Delimiter(c) => c == '(' && p + 1 < e && e <= ts.len() && ts[e - 1] == Token::Delimiter(')')
            && expr_reads(ts, reg, p + 1, x, e - 1),
        Token::Broadcasts => x matches Expression::Emit(inner) && expr_reads(ts, reg, p + 1, *inner, e),
        _ => false,
    }
}

/// Where the scan of a module's body stops, and the concern it found: the
/// identifier after the last `with concern` (and an optional `:`).
pub open spec fn scan_module(toks: Seq<Token>, p: int, c: Seq<char>) -> (Seq<char>, int)
    decreases toks.len() - p,
{
    if p < 0 || p >= toks.len() || opens_discourse(toks[p]) {
        (c, p)
    } else if toks[p] is WithConcern {
        let q = if p + 1 < toks.len() && is_colon(toks[p + 1]) { p + 2 } else { p + 1 };
        if q < toks.len() {
            let c2 = match toks[q] {
                Token::Identifier(s) => s@,
                _ => c,
            };
            scan_module(toks, q + 1, c2)
        } else {
            (c, q)
        }
    } else {
        scan_module(toks, p + 1, c)
    }
}

/// The expression an integer literal becomes: the integer when it fits in
/// 64 bits, 0 otherwise.
pub open spec fn integer_expr(n: i128) -> Expression {
    if i64::MIN <= n <= i64::MAX { Expression::I64(n as i64) } else { Expression::I64(0) }
}

/// Whether a token is the identifier `n`.
pub open spec fn is_identifier_named(t: Token, n: Seq<char>) -> bool {
    t matches Token::Identifier(s) && s@ == n
}

/// Whether `n` is empty or the text of an identifier among the tokens.
pub open spec fn mentioned(toks: Seq<Token>, n: Seq<char>) -> bool {
    n.len() == 0 || exists|j: int| 0 <= j < toks.len() && is_identifier_named(#[trigger] toks[j], n)
}

/// Whether a token is the operator `:`.
pub open spec fn is_colon(t: Token) -> bool {
    t matches Token::Operator(s) && s@ == ":"@
}

/// Whether a token opens a discourse unit.
pub open spec fn opens_discourse(t: Token) -> bool {
    t is TheModuleCalled || t is TheShapeCalled || t is TheBehaviorCalled || t is TheEffectBehaviorCalled
}

/// Whether a token ends an expression.
pub open spec fn ends_expression(t: Token) -> bool {
    ||| t is Then || t is Else || t is Takes || t is Delivers || t is As || t is WithConcern || t is WithIntent
    ||| t is TheModuleCalled || t is TheBehaviorCalled || t is TheEffectBehaviorCalled
    ||| (t matches Token::Operator(s) && s@ == ":"@)
    ||| t == Token::Delimiter(')')
}

/// The behavior name a token stands for, if any.
pub open spec fn behavior_name_of(t: Token) -> Option<Seq<char>> {
    match t {
        Token::Identifier(s) => Some(s@),
        Token::InitOf => Some("init-of"@),
        Token::TailOf => Some("tail-of"@),
        Token::DuplicatedAs => Some("duplicated-as"@),
        Token::Broadcasts => Some("broadcasts"@),
        _ => None,
    }
}

/// Whether a token is one of the articles `a`, `an`, `the` that introduce a
/// type.
pub open spec fn is_article(t: Token) -> bool {
    t matches Token::Identifier(s) && (s@ == "a"@ || s@ == "an"@ || s@ == "the"@)
}

/// The precedence of an operator word written as an identifier, if it is one.
pub open spec fn word_precedence(w: Seq<char>) -> Option<u8> {
    if w == "matches"@ || w == "exceeds"@ || w == "falls-short-of"@ {
        Some(2u8)
    } else if w == "added-to"@ || w == "decreased-by"@ {
        Some(3u8)
    } else if w == "scales-by"@ || w == "partitions-by"@ || w == "joined-with"@ || w == "joins-with"@ || w == "unites-with"@ || w == "opposes"@ || w == "init-of"@ || w == "tail-of"@ || w == "duplicated-as"@ || w == "char-at"@ || w == "charat"@ {
        Some(4u8)
    } else if w == "utilizes"@ {
        Some(5u8)
    } else {
        None
    }
}

/// The operator a token stands for between two operands, and its precedence.
pub open spec fn infix_of(t: Token) -> Option<(Seq<char>, u8)> {
    match t {
        Token::Operator(s) => Some((s@, if s@ == "matches"@ { 2u8 } else { 1u8 })),
        Token::Matches => Some(("matches"@, 2u8)),
        Token::Exceeds => Some(("exceeds"@, 2u8)),
        Token::FallsShortOf => Some(("falls-short-of"@, 2u8)),
        Token::AddedTo => Some(("added-to"@, 3u8)),
        Token::DecreasedBy => Some(("decreased-by"@, 3u8)),
        Token::ScalesBy => Some(("scales-by"@, 4u8)),
        Token::PartitionsBy => Some(("partitions-by"@, 4u8)),
        Token::JoinsWith => Some(("joins-with"@, 4u8)),
        Token::UnitesWith => Some(("unites-with"@, 4u8)),
        Token::Opposes => Some(("opposes"@, 4u8)),
        Token::InitOf => Some(("init-of"@, 4u8)),
        Token::TailOf => Some(("tail-of"@, 4u8)),
        Token::DuplicatedAs => Some(("duplicated-as"@, 4u8)),
        Token::Utilizes => Some(("utilizes"@, 5u8)),
        Token::Identifier(s) => match word_precedence(s@) {
            Some(p) => Some((s@, p)),
            None => None,
        },
        _ => None,
    }
}

/// The position of the first token at or after `p` that opens a discourse
/// unit, or the length of the tokens when there is none.
pub open spec fn first_opener(toks: Seq<Token>, p: int) -> int
    decreases toks.len() - p,
{
    if p < 0 || p >= toks.len() {
        toks.len() as int
    } else if opens_discourse(toks[p]) {
        p
    } else {
        first_opener(toks, p + 1)
    }
}

/// `d` is the discourse unit that the token at `q` opens, read up to `end`:
/// a module with its name and concern, a shape with its name, or a
/// behavior with its name and kind; a shape ends at the next unit, a
/// behavior's body at the next unit or `as`.
pub open spec fn unit_at(toks: Seq<Token>, reg: RegistryService, q: int, d: Discourse, end: int) -> bool {
    &&& 0 <= q && q + 1 < toks.len() && q < end <= toks.len()
    &&& toks[q + 1] is Identifier
    &&& match toks[q] {
        Token::TheModuleCalled => d matches Discourse::Module { name, concern }
            && name@ == toks[q + 1]->Identifier_0@
            && scan_module(toks, q + 2, Seq::empty()) == (concern@, end),
        Token::TheShapeCalled => d matches Discourse::Shape { name, fields, behaviors }
            && name@ == toks[q + 1]->Identifier_0@ && behaviors@.len() == 0
            && shape_reads(toks, q, name@, args_view(fields@), end)
            && (end == toks.len() || opens_discourse(toks[end])),
        _ => d matches Discourse::Behavior { header, .. }
            && header.name@ == toks[q + 1]->Identifier_0@
            && header.is_effect == toks[q] is TheEffectBehaviorCalled
            && (exists|he: int| #[trigger] header_reads(toks, q, header.name@, header.is_effect, args_view(header.takes@), header.delivers.0, he))
            && (end == toks.len() || opens_discourse(toks[end]) || toks[end] is As)
            && (d matches Discourse::Behavior { body, .. } && exists|b0: int| #[trigger] read_end(b0) && block_reads(toks, reg, b0, body, end)),
    }
}

/// The units `ds` are read in order from the tokens: the first opens at the
/// first opening token, each next one at the first opening token after the
/// end of the one before, and none follows the last.
pub open spec fn segmented(toks: Seq<Token>, reg: RegistryService, ds: Seq<Discourse>, ps: Seq<int>, es: Seq<int>) -> bool {
    &&& ps.len() == ds.len() && es.len() == ds.len()
    &&& ds.len() == 0 ==> first_opener(toks, 0) == toks.len()
    &&& ds.len() > 0 ==> ps[0] == first_opener(toks, 0) && first_opener(toks, es.last()) == toks.len()
    &&& forall|i: int| 0 <= i < ds.len() ==> #[trigger] unit_at(toks, reg, ps[i], ds[i], es[i])
    &&& forall|i: int| 0 <= i < ds.len() - 1 ==> #[trigger] ps[i + 1] == first_opener(toks, es[i])
}

/// The units `ds` are read in order from the tokens (see `segmented`).
pub open spec fn parsed_as(toks: Seq<Token>, reg: RegistryService, ds: Seq<Discourse>) -> bool {
    exists|ps: Seq<int>, es: Seq<int>| #[trigger] segmented(toks, reg, ds, ps, es)
}

/// After the registry `reg`, the unit opened at `v` is known: a behavior by
/// its signature, a shape by its definition and its constructor.
pub open spec fn unit_registered(toks: Seq<Token>, reg: RegistryService, v: int) -> bool {
    0 <= v && v + 1 < toks.len() && toks[v + 1] is Identifier ==> ({
        let x = toks[v + 1]->Identifier_0@;
        match toks[v] {
            Token::TheBehaviorCalled => reg.symbols().spec_lookup(x) is Some,
            Token::TheEffectBehaviorCalled => reg.symbols().spec_lookup(x) is Some,
            Token::TheShapeCalled => reg.spec_shape(x) is Some && reg.symbols().spec_lookup(x) is Some,
            _ => true,
        }
    })
}

/// `vs` are the opening tokens the header scan visits, `es` where it goes on
/// after each: the first opening token, then the first after each end, and
/// after the last none; each unit visited is known to `reg`.
pub open spec fn scan_chain(toks: Seq<Token>, reg: RegistryService, vs: Seq<int>, es: Seq<int>) -> bool {
    &&& vs.len() == es.len()
    &&& vs.len() == 0 ==> first_opener(toks, 0) == toks.len()
    &&& vs.len() > 0 ==> vs[0] == first_opener(toks, 0) && first_opener(toks, es.last()) == toks.len()
    &&& forall|i: int| 0 <= i < vs.len() ==> 0 <= #[trigger] vs[i] < es[i] <= toks.len() && opens_discourse(toks[vs[i]])
    &&& forall|i: int| 0 <= i < vs.len() ==> #[trigger] unit_registered(toks, reg, vs[i])
    &&& forall|i: int| 0 <= i < vs.len() - 1 ==> #[trigger] vs[i + 1] == first_opener(toks, es[i])
}

/// The signature `s` is what the arguments `ft` and the return type `fd`
/// declare.
pub open spec fn declares_view(ft: Seq<(Seq<char>, OnuType, bool)>, fd: OnuType, s: BehaviorSignature) -> bool {
    &&& s.input_types@.len() == ft.len()
    &&& s.arg_is_observation@.len() == ft.len()
    &&& forall|i: int| 0 <= i < ft.len() ==> ty_equiv(#[trigger] s.input_types@[i], ft[i].1)
    &&& forall|i: int| 0 <= i < ft.len() ==> #[trigger] s.arg_is_observation@[i] == ft[i].2
    &&& ty_equiv(s.return_type, fd)
}

/// Some behavior header of the tokens, named `x`, declares the signature
/// `s`.
pub open spec fn declared_by_header(ts: Seq<Token>, x: Seq<char>, s: BehaviorSignature) -> bool {
    exists|w: int, eff: bool, ft: Seq<(Seq<char>, OnuType, bool)>, fd: OnuType, e: int|
        #[trigger] header_reads(ts, w, x, eff, ft, fd, e) && declares_view(ft, fd, s)
}

/// `s` is the signature of the accessor of a field of type `t` of the
/// shape `shape`: it observes one value of the shape and delivers `t`.
pub open spec fn accessor_sig(shape: Seq<char>, t: OnuType, s: BehaviorSignature) -> bool {
    &&& s.input_types@.len() == 1
    &&& s.input_types@[0] matches OnuType::Shape(n) && n@ == shape
    &&& s.arg_is_observation@ == seq![true]
    &&& ty_equiv(s.return_type, t)
}

/// `s` is the signature of the constructor of the shape `shape` with the
/// fields `fields`: it takes the fields' values and delivers the shape.
pub open spec fn ctor_sig(shape: Seq<char>, fields: Seq<(Seq<char>, OnuType, bool)>, s: BehaviorSignature) -> bool {
    &&& s.input_types@.len() == fields.len()
    &&& s.arg_is_observation@.len() == fields.len()
    &&& forall|i: int| 0 <= i < fields.len() ==> ty_equiv(#[trigger] s.input_types@[i], fields[i].1)
    &&& forall|i: int| 0 <= i < fields.len() ==> !#[trigger] s.arg_is_observation@[i]
    &&& s.return_type matches OnuType::Shape(n) && n@ == shape
}

/// Some shape of the tokens provides the signature `s` under the name `x`:
/// its constructor (the shape is named `x`) or the accessor of one of its
/// fields named `x`.
pub open spec fn provided_by_shape(ts: Seq<Token>, x: Seq<char>, s: BehaviorSignature) -> bool {
    exists|w: int, name: Seq<char>, fields: Seq<(Seq<char>, OnuType, bool)>, e: int|
        #[trigger] shape_reads(ts, w, name, fields, e) && {
            ||| name == x && ctor_sig(name, fields, s)
            ||| exists|i: int| 0 <= i < fields.len() && #[trigger] fields[i].0 == x && accessor_sig(name, fields[i].1, s)
        }
}

/// A behavior header opened at `v` is registered under its name with a
/// signature that a header of that name declares, or that a shape provides
/// under that name.
pub open spec fn header_declared_at(ts: Seq<Token>, reg: RegistryService, v: int) -> bool {
    0 <= v && v + 1 < ts.len() && (ts[v] is TheBehaviorCalled || ts[v] is TheEffectBehaviorCalled) && ts[v + 1] is Identifier
        ==> (reg.symbols().spec_lookup(ts[v + 1]->Identifier_0@) matches Some(s)
            && (declared_by_header(ts, ts[v + 1]->Identifier_0@, s) || provided_by_shape(ts, ts[v + 1]->Identifier_0@, s)))
}

/// Every behavior header the scan visits is registered with the signature
/// a header of its name declares, or a shape provides under it (what was
/// registered last under the name wins).
pub open spec fn headers_declared(ts: Seq<Token>, reg: RegistryService) -> bool {
    exists|vs: Seq<int>, es: Seq<int>| #[trigger] scan_chain(ts, reg, vs, es)
        && forall|i: int| 0 <= i < vs.len() ==> #[trigger] header_declared_at(ts, reg, vs[i])
}

/// Every unit the header scan visits is known to `reg`.
pub open spec fn headers_registered(toks: Seq<Token>, reg: RegistryService) -> bool {
    exists|vs: Seq<int>, es: Seq<int>| #[trigger] scan_chain(toks, reg, vs, es)
}

/// No token at or after `p` is an article (`a`, `an`, `the`).
pub open spec fn no_articles(toks: Seq<Token>, p: int) -> bool {
    forall|i: int| p <= i < toks.len() ==> !is_article(#[trigger] toks[i])
}

/// Each `delivers` is followed, after an optional `:`, by `nothing`.
pub open spec fn delivers_nothing(toks: Seq<Token>) -> bool {
    forall|i: int| 0 <= i < toks.len() && (#[trigger] toks[i]) is Delivers ==> ({
        let q = if i + 1 < toks.len() && is_colon(toks[i + 1]) { i + 2 } else { i + 1 };
        q < toks.len() && toks[q] is Nothing
    })
}

/// Every token that opens a unit opens a module and is followed by the
/// module's name.
pub open spec fn modules_only(toks: Seq<Token>) -> bool {
    forall|q: int| 0 <= q < toks.len() && opens_discourse(#[trigger] toks[q])
        ==> toks[q] is TheModuleCalled && q + 1 < toks.len() && toks[q + 1] is Identifier
}

/// Headers whose reading cannot fail: every unit is a module or a named
/// behavior, no article introduces a type, and every behavior delivers
/// `nothing`.
pub open spec fn plain_headers(toks: Seq<Token>) -> bool {
    &&& forall|q: int| 0 <= q < toks.len() && opens_discourse(#[trigger] toks[q])
        ==> toks[q] is TheModuleCalled || (q + 1 < toks.len() && toks[q + 1] is Identifier)
            && (toks[q] is TheBehaviorCalled || toks[q] is TheEffectBehaviorCalled)
    &&& no_articles(toks, 0)
    &&& delivers_nothing(toks)
}

/// The first opener at or after `p` lies at or after `p` and opens a unit.
proof fn lemma_first_opener(toks: Seq<Token>, p: int)
    requires
        0 <= p <= toks.len(),
    ensures
        first_opener(toks, p) >= p,
        first_opener(toks, p) <= toks.len(),
        first_opener(toks, p) < toks.len() ==> opens_discourse(toks[first_opener(toks, p)]),
    decreases toks.len() - p,
{
    if p < toks.len() && !opens_discourse(toks[p]) {
        lemma_first_opener(toks, p + 1);
    }
}

/// A signature of no arguments that delivers `nothing`.
pub open spec fn plain_signature(s: BehaviorSignature) -> bool {
    &&& s.input_types@.len() == 0
    &&& s.arg_is_observation@.len() == 0
    &&& s.return_type == OnuType::Nothing
}

/// Every behavior opened at one of `vs` is known to `reg` by a plain
/// signature.
pub open spec fn plain_registered(toks: Seq<Token>, reg: RegistryService, vs: Seq<int>) -> bool {
    forall|i: int| 0 <= i < vs.len() && 0 <= #[trigger] vs[i] && vs[i] + 1 < toks.len()
        && (toks[vs[i]] is TheBehaviorCalled || toks[vs[i]] is TheEffectBehaviorCalled) && toks[vs[i] + 1] is Identifier
        ==> (reg.symbols().spec_lookup(toks[vs[i] + 1]->Identifier_0@) matches Some(s) && plain_signature(s))
}

/// Every unit the header scan visits is known to `reg`, every behavior by a
/// plain signature.
pub open spec fn headers_registered_plain(toks: Seq<Token>, reg: RegistryService) -> bool {
    exists|vs: Seq<int>, es: Seq<int>| #[trigger] scan_chain(toks, reg, vs, es) && plain_registered(toks, reg, vs)
}

/// Every name known to `a`, as a behavior or as a shape, is known to `b`.
pub open spec fn keeps(a: RegistryService, b: RegistryService) -> bool {
    &&& forall|n: Seq<char>| a.symbols().spec_lookup(n) is Some ==> #[trigger] b.symbols().spec_lookup(n) is Some
    &&& forall|n: Seq<char>| a.spec_shape(n) is Some ==> #[trigger] b.spec_shape(n) is Some
}

proof fn lemma_keeps_trans(a: RegistryService, b: RegistryService, c: RegistryService)
    requires
        keeps(a, b),
        keeps(b, c),
    ensures
        keeps(a, c),
{
    assert forall|n: Seq<char>| a.symbols().spec_lookup(n) is Some implies #[trigger] c.symbols().spec_lookup(n) is Some by {
        assert(b.symbols().spec_lookup(n) is Some);
    }
    assert forall|n: Seq<char>| a.spec_shape(n) is Some implies #[trigger] c.spec_shape(n) is Some by {
        assert(b.spec_shape(n) is Some);
    }
}

proof fn lemma_keeps_registered(toks: Seq<Token>, a: RegistryService, b: RegistryService, vs: Seq<int>)
    requires
        keeps(a, b),
        forall|i: int| 0 <= i < vs.len() ==> #[trigger] unit_registered(toks, a, vs[i]),
    ensures
        forall|i: int| 0 <= i < vs.len() ==> #[trigger] unit_registered(toks, b, vs[i]),
{
    assert forall|i: int| 0 <= i < vs.len() implies #[trigger] unit_registered(toks, b, vs[i]) by {
        assert(unit_registered(toks, a, vs[i]));
        let v = vs[i];
        if 0 <= v && v + 1 < toks.len() && toks[v + 1] is Identifier {
            let x = toks[v + 1]->Identifier_0@;
            if a.symbols().spec_lookup(x) is Some {
                assert(b.symbols().spec_lookup(x) is Some);
            }
            if a.spec_shape(x) is Some {
                assert(b.spec_shape(x) is Some);
            }
        }
    }
}

fn is_discourse_start(t: &Token) -> (r: bool)
    ensures
        r == opens_discourse(*t),
{
    match t {
        Token::TheModuleCalled | Token::TheShapeCalled | Token::TheBehaviorCalled | Token::TheEffectBehaviorCalled => true,
        _ => false,
    }
}

fn is_expression_terminator(t: &Token) -> (r: bool)
    ensures
        r == ends_expression(*t),
{
    proof {
        reveal_strlit(":");
    }
    match t {
        Token::Then | Token::Else | Token::Takes | Token::Delivers | Token::As | Token::WithConcern | Token::WithIntent
        | Token::TheModuleCalled | Token::TheBehaviorCalled | Token::TheEffectBehaviorCalled => true,
        Token::Operator(s) => str_eq(s.as_str(), ":"),
        Token::Delimiter(c) => *c == ')',
        _ => false,
    }
}

fn is_article_token(t: &Token) -> (r: bool)
    ensures
        r == is_article(*t),
{
    match t {
        Token::Identifier(s) => str_eq(s.as_str(), "a") || str_eq(s.as_str(), "an") || str_eq(s.as_str(), "the"),
        _ => false,
    }
}

/// The state of a parse: the tokens and the position of the next one.
pub struct ParserInternal<'a> {
    tokens: &'a Vec<Token>,
    pos: usize,
}

impl<'a> ParserInternal<'a> {
    /// The tokens being parsed.
    pub closed spec fn toks(&self) -> Seq<Token> {
        self.tokens@
    }

    /// The position of the next token.
    pub closed spec fn at(&self) -> int {
        self.pos as int
    }

    /// The position lies within the tokens, or just after the last one.
    pub closed spec fn wf(&self) -> bool {
        self.pos <= self.tokens@.len()
    }

    /// `after` is `before` having moved forward over the same tokens.
    pub open spec fn moved_on(before: Self, after: Self) -> bool {
        &&& after.wf()
        &&& after.toks() == before.toks()
        &&& before.at() <= after.at()
    }

    pub fn new(tokens: &'a Vec<Token>) -> (r: Self)
        ensures
            r.wf(),
            r.toks() == tokens@,
            r.at() == 0,
    {
        ParserInternal { tokens, pos: 0 }
    }

    fn is_at_end(&self) -> (r: bool)
        requires
            self.wf(),
        ensures
            r == (self.at() >= self.toks().len()),
    {
        self.pos >= self.tokens.len()
    }

    fn peek(&self) -> (r: Option<&'a Token>)
        requires
            self.wf(),
        ensures
            self.at() < self.toks().len() ==> r == Some(&self.toks()[self.at()]),
            self.at() >= self.toks().len() ==> r is None,
    {
        if self.pos < self.tokens.len() {
            Some(&self.tokens[self.pos])
        } else {
            None
        }
    }

    fn advance(&mut self) -> (r: Option<&'a Token>)
        requires
            old(self).wf(),
        ensures
            Self::moved_on(*old(self), *final(self)),
            old(self).at() < old(self).toks().len() ==> final(self).at() == old(self).at() + 1
                && r == Some(&old(self).toks()[old(self).at()]),
            old(self).at() >= old(self).toks().len() ==> final(self).at() == old(self).at() && r is None,
    {
        if self.pos < self.tokens.len() {
            self.pos = self.pos + 1;
            Some(&self.tokens[self.pos - 1])
        } else {
            None
        }
    }

    /// Moves over the next token when it is `token`.
    fn match_token(&mut self, token: &Token) -> (r: bool)
        requires
            old(self).wf(),
        ensures
            Self::moved_on(*old(self), *final(self)),
            r == (old(self).at() < old(self).toks().len() && token_same(old(self).toks()[old(self).at()], *token)),
            final(self).at() == old(self).at() + if r { 1int } else { 0int },
    {
        if self.pos < self.tokens.len() && token_eq(&self.tokens[self.pos], token) {
            self.pos = self.pos + 1;
            true
        } else {
            false
        }
    }

    /// Moves over the next token, which must be `expected`.
    fn consume(&mut self, expected: &Token) -> (r: Result<(), OnuError>)
        requires
            old(self).wf(),
        ensures
            Self::moved_on(*old(self), *final(self)),
            r is Ok == (old(self).at() < old(self).toks().len() && token_same(old(self).toks()[old(self).at()], *expected)),
            final(self).at() == old(self).at() + if r is Ok { 1int } else { 0int },
            r matches Err(e) ==> e is GrammarViolation,
    {
        if self.pos < self.tokens.len() {
            if token_eq(&self.tokens[self.pos], expected) {
                self.pos = self.pos + 1;
                return Ok(());
            }
            let m = concat3("Expected ", debug_token(expected).as_str(), ", found ");
            return Err(violation(concat2(m.as_str(), debug_token(&self.tokens[self.pos]).as_str())));
        }
        Err(violation(concat3("Expected ", debug_token(expected).as_str(), ", found EOF")))
    }

    /// Moves over a `:` when there is one.
    fn skip_colon(&mut self)
        requires
            old(self).wf(),
        ensures
            Self::moved_on(*old(self), *final(self)),
            final(self).at() == old(self).at() + if old(self).at() < old(self).toks().len()
                && is_colon(old(self).toks()[old(self).at()]) { 1int } else { 0int },
    {
        let colon = Token::Operator(owned(":"));
        proof {
            reveal_strlit(":");
        }
        self.match_token(&colon);
    }

    /// A behavior name: an identifier, or one of the operator words that
    /// name behaviors.
    fn parse_behavior_name(&mut self) -> (r: Result<String, OnuError>)
        requires
            old(self).wf(),
        ensures
            Self::moved_on(*old(self), *final(self)),
            r is Ok == (old(self).at() < old(self).toks().len() && behavior_name_of(old(self).toks()[old(self).at()]) is Some),
            r matches Ok(n) ==> final(self).at() == old(self).at() + 1
                && behavior_name_of(old(self).toks()[old(self).at()]) == Some(n@),
            r is Err ==> final(self).at() == old(self).at(),
            r matches Err(e) ==> e is GrammarViolation,
    {
        match self.peek() {
            None => Err(violation(owned("Expected behavior name"))),
            Some(t) => {
                let name = match t {
                    Token::Identifier(s) => s.clone(),
                    Token::InitOf => owned("init-of"),
                    Token::TailOf => owned("tail-of"),
                    Token::DuplicatedAs => owned("duplicated-as"),
                    Token::Broadcasts => owned("broadcasts"),
                    _ => {
                        return Err(violation(concat2("Expected behavior name, found ", debug_token(t).as_str())));
                    },
                };
                self.advance();
                Ok(name)
            },
        }
    }

    /// A type name: `tuple of (` a list of article-introduced types `)`, a
    /// primitive, or else a shape.
    fn parse_type_name(&mut self) -> (r: Result<OnuType, OnuError>)
        requires
            old(self).wf(),
        ensures
            Self::moved_on(*old(self), *final(self)),
            r is Ok ==> final(self).at() > old(self).at(),
            !(old(self).at() < old(self).toks().len() && behavior_name_of(old(self).toks()[old(self).at()]) is Some) ==> r is Err,
            r matches Ok(t) ==> !tuple_head(old(self).toks(), old(self).at()) ==> final(self).at() == old(self).at() + 1
                && names_type(behavior_name_of(old(self).toks()[old(self).at()])->0, t),
            r matches Ok(t) ==> tuple_head(old(self).toks(), old(self).at()) ==> t is Tuple,
            old(self).at() < old(self).toks().len() && behavior_name_of(old(self).toks()[old(self).at()]) is Some
                && !tuple_head(old(self).toks(), old(self).at()) ==> r is Ok,
            r matches Ok(t) ==> type_reads(old(self).toks(), old(self).at(), t, final(self).at()),
            r matches Err(e) ==> e is GrammarViolation,
        decreases old(self).toks().len() - old(self).at(), 0int,
    {
        let name = self.parse_behavior_name()?;
        proof {
            reveal_strlit("tuple");
            reveal_strlit("of");
        }
        if str_eq(name.as_str(), "tuple") {
            let of_next = match self.peek() {
                Some(Token::Identifier(of)) => str_eq(of.as_str(), "of"),
                _ => false,
            };
            if of_next {
                proof {
                    assert(tuple_head(old(self).toks(), old(self).at()));
                }
                self.advance();
                self.consume(&Token::Delimiter('('))?;
                let ghost ts = old(self).toks();
                let ghost p = old(self).at();
                let mut elements: Vec<OnuType> = Vec::new();
                proof {
                    assert forall|rest: Seq<OnuType>, e: int| #[trigger] type_list_reads(ts, p + 3, true, rest, e)
                        implies type_list_reads(ts, p + 3, true, elements@ + rest, e) by {
                        assert(elements@ + rest =~= rest);
                    }
                }
                loop
                    invariant_except_break
                        forall|rest: Seq<OnuType>, e: int| #[trigger] type_list_reads(ts, self.at(), none_yet(elements@), rest, e)
                            ==> type_list_reads(ts, p + 3, true, elements@ + rest, e),
                    invariant
                        self.wf(),
                        self.toks() == ts,
                        ts == old(self).toks(),
                        p == old(self).at(),
                        self.at() >= p + 3,
                        tuple_head(ts, p),
                    ensures
                        self.wf(),
                        self.toks() == ts,
                        self.at() >= p + 3,
                        type_list_reads(ts, p + 3, true, elements@, self.at()),
                    decreases self.toks().len() - self.at(),
                {
                    let ghost q = self.at();
                    let ghost done = elements@;
                    match self.peek() {
                        None => {
                            proof {
                                assert(type_list_reads(ts, q, none_yet(done), Seq::empty(), q));
                                assert(done + Seq::<OnuType>::empty() =~= done);
                            }
                            break;
                        },
                        Some(Token::Delimiter(')')) => {
                            proof {
                                assert(type_list_reads(ts, q, none_yet(done), Seq::empty(), q));
                                assert(done + Seq::<OnuType>::empty() =~= done);
                            }
                            break;
                        },
                        Some(_) => {},
                    }
                    if elements.len() > 0 {
                        self.skip_colon();
                    }
                    let ghost q1 = self.at();
                    match self.parse_type_info()? {
                        Some(ti) => {
                            let ghost t = ti.onu_type;
                            let ghost q2 = self.at();
                            elements.push(ti.onu_type);
                            proof {
                                assert(elements@ == done.push(t));
                                assert forall|rest: Seq<OnuType>, e: int| #[trigger] type_list_reads(ts, q2, false, rest, e)
                                    implies type_list_reads(ts, p + 3, true, elements@ + rest, e) by {
                                    let full = seq![t] + rest;
                                    assert(full[0] == t);
                                    assert(full.drop_first() =~= rest);
                                    assert(type_reads(ts, q1 + 1, full[0], q2));
                                    assert(q < ts.len());
                                    assert(ts[q] != Token::Delimiter(')'));
                                    assert(q1 == if !none_yet(done) && is_colon(ts[q]) { q + 1 } else { q });
                                    assert(q1 < ts.len() && is_article(ts[q1]));
                                    assert(q1 + 1 < q2 <= ts.len());
                                    assert(type_list_reads(ts, q2, false, full.drop_first(), e));
                                    assert(read_end(q2));
                                    assert(type_list_reads(ts, q, none_yet(done), full, e));
                                    assert(done + full =~= elements@ + rest);
                                }
                            }
                        },
                        None => {
                            proof {
                                assert(type_list_reads(ts, q, none_yet(done), Seq::empty(), q1));
                                assert(done + Seq::<OnuType>::empty() =~= done);
                            }
                            break;
                        },
                    }
                }
                let ghost e = self.at();
                self.consume(&Token::Delimiter(')'))?;
                let r = OnuType::Tuple(elements);
                proof {
                    assert(ts[e] == Token::Delimiter(')'));
                    assert(type_reads(ts, p, r, e + 1));
                }
                return Ok(r);
            }
        }
        match OnuType::from_name(name.as_str()) {
            Some(t) => Ok(t),
            None => Ok(OnuType::Shape(name)),
        }
    }

    /// An article (`a`, `an`, `the`) and the type it introduces, or nothing
    /// when the next token is not an article.
    fn parse_type_info(&mut self) -> (r: Result<Option<TypeInfo>, OnuError>)
        requires
            old(self).wf(),
        ensures
            Self::moved_on(*old(self), *final(self)),
            !(old(self).at() < old(self).toks().len() && is_article(old(self).toks()[old(self).at()]))
                ==> r == Ok::<Option<TypeInfo>, OnuError>(None) && final(self).at() == old(self).at(),
            r matches Ok(Some(ti)) ==> {
                &&& final(self).at() > old(self).at() + 1
                &&& ti.display_name@ == type_debug(ti.onu_type)
                &&& ti.via_role is None
                &&& !ti.is_observation
                &&& !tuple_head(old(self).toks(), old(self).at() + 1) ==> final(self).at() == old(self).at() + 2
                    && names_type(behavior_name_of(old(self).toks()[old(self).at() + 1])->0, ti.onu_type)
                &&& is_article(old(self).toks()[old(self).at()])
                &&& type_reads(old(self).toks(), old(self).at() + 1, ti.onu_type, final(self).at())
            },
            r matches Ok(None) ==> final(self).at() == old(self).at(),
            old(self).at() < old(self).toks().len() && is_article(old(self).toks()[old(self).at()]) ==> ({
                let p = old(self).at() + 1;
                let ts = old(self).toks();
                &&& !(r matches Ok(None))
                &&& !(p < ts.len() && behavior_name_of(ts[p]) is Some) ==> r is Err
                &&& p < ts.len() && behavior_name_of(ts[p]) is Some && !tuple_head(ts, p) ==> r is Ok
            }),
            r matches Err(e) ==> e is GrammarViolation,
        decreases old(self).toks().len() - old(self).at(), 1int,
    {
        let is_art = match self.peek() {
            Some(t) => is_article_token(t),
            None => false,
        };
        if !is_art {
            return Ok(None);
        }
        self.advance();
        let onu_type = self.parse_type_name()?;
        let display_name = debug_type(&onu_type);
        Ok(Some(TypeInfo { onu_type, display_name, via_role: None, is_observation: false }))
    }

    /// The declared return type: `nothing`, or an article and a type.
    fn parse_return_type(&mut self) -> (r: Result<ReturnType, OnuError>)
        requires
            old(self).wf(),
        ensures
            Self::moved_on(*old(self), *final(self)),
            old(self).at() < old(self).toks().len() && old(self).toks()[old(self).at()] is Nothing
                ==> r == Ok::<ReturnType, OnuError>(ReturnType(OnuType::Nothing)) && final(self).at() == old(self).at() + 1,
            !(old(self).at() < old(self).toks().len() && (old(self).toks()[old(self).at()] is Nothing
                || is_article(old(self).toks()[old(self).at()]))) ==> r is Err,
            r matches Ok(rt) ==> !(old(self).toks()[old(self).at()] is Nothing) ==> !tuple_head(old(self).toks(), old(self).at() + 1)
                ==> final(self).at() == old(self).at() + 2 && names_type(behavior_name_of(old(self).toks()[old(self).at() + 1])->0, rt.0),
            r matches Ok(rt) ==> ret_reads(old(self).toks(), old(self).at(), rt.0, final(self).at()),
            r matches Err(e) ==> e is GrammarViolation,
    {
        if self.match_token(&Token::Nothing) {
            return Ok(ReturnType(OnuType::Nothing));
        }
        match self.parse_type_info()? {
            Some(ti) => Ok(ReturnType(ti.onu_type)),
            None => Err(violation(owned("Strict typing enforced: Missing explicit return type"))),
        }
    }

    /// The arguments of a behavior or the fields of a shape: each an
    /// article-introduced type, an optional `called`, a name, and an optional
    /// `via observation`; other tokens are passed over, up to the next
    /// discourse unit, `delivers` or `as`.
    fn parse_arguments(&mut self) -> (r: Result<Vec<Argument>, OnuError>)
        requires
            old(self).wf(),
        ensures
            Self::moved_on(*old(self), *final(self)),
            r is Ok ==> final(self).at() == final(self).toks().len() || ({
                let t = final(self).toks()[final(self).at()];
                opens_discourse(t) || t is Delivers || t is As
            }),
            no_articles(old(self).toks(), old(self).at()) ==> (r matches Ok(args) && args@.len() == 0),
            r matches Ok(args) ==> forall|i: int| 0 <= i < args@.len()
                ==> (#[trigger] args@[i]).type_info.display_name@ == type_debug(args@[i].type_info.onu_type)
                    && args@[i].type_info.via_role is None,
            r matches Ok(args) ==> forall|i: int| 0 <= i < args@.len() ==> mentioned(old(self).toks(), (#[trigger] args@[i]).name@),
            r matches Ok(args) ==> args_reads(old(self).toks(), old(self).at(), args_view(args@), final(self).at()),
            r matches Err(e) ==> e is GrammarViolation,
    {
        let mut args: Vec<Argument> = Vec::new();
        let ghost ts = old(self).toks();
        let ghost p0 = old(self).at();
        proof {
            assert forall|rest: Seq<(Seq<char>, OnuType, bool)>, e: int| #[trigger] args_reads(ts, p0, rest, e)
                implies args_reads(ts, p0, args_view(args@) + rest, e) by {
                assert(args_view(args@) + rest =~= rest);
            }
        }
        proof {
            reveal_strlit("via");
            reveal_strlit("observation");
        }
        loop
            invariant
                self.wf(),
                self.toks() == old(self).toks(),
                self.at() >= old(self).at(),
                forall|i: int| 0 <= i < args@.len()
                    ==> (#[trigger] args@[i]).type_info.display_name@ == type_debug(args@[i].type_info.onu_type)
                        && args@[i].type_info.via_role is None,
                forall|i: int| 0 <= i < args@.len() ==> mentioned(old(self).toks(), (#[trigger] args@[i]).name@),
                no_articles(old(self).toks(), old(self).at()) ==> args@.len() == 0,
                ts == old(self).toks(),
                p0 == old(self).at(),
                forall|rest: Seq<(Seq<char>, OnuType, bool)>, e: int| #[trigger] args_reads(ts, self.at(), rest, e)
                    ==> args_reads(ts, p0, args_view(args@) + rest, e),
            ensures
                args_reads(ts, p0, args_view(args@), self.at()),
                no_articles(old(self).toks(), old(self).at()) ==> args@.len() == 0,
                self.wf(),
                self.toks() == old(self).toks(),
                self.at() >= old(self).at(),
                self.at() == self.toks().len() || ({
                    let t = self.toks()[self.at()];
                    opens_discourse(t) || t is Delivers || t is As
                }),
                forall|i: int| 0 <= i < args@.len()
                    ==> (#[trigger] args@[i]).type_info.display_name@ == type_debug(args@[i].type_info.onu_type)
                        && args@[i].type_info.via_role is None,
                forall|i: int| 0 <= i < args@.len() ==> mentioned(old(self).toks(), (#[trigger] args@[i]).name@),
            decreases self.toks().len() - self.at(),
        {
            let ghost q = self.at();
            let ghost done = args@;
            proof {
                assert(args_view(done) + Seq::<(Seq<char>, OnuType, bool)>::empty() =~= args_view(done));
            }
            let t = match self.peek() {
                None => {
                    proof {
                        assert(args_reads(ts, q, Seq::empty(), q));
                    }
                    break;
                },
                Some(t) => t,
            };
            match t {
                Token::TheModuleCalled | Token::TheShapeCalled | Token::TheBehaviorCalled | Token::TheEffectBehaviorCalled
                | Token::Delivers | Token::As => {
                    proof {
                        assert(args_reads(ts, q, Seq::empty(), q));
                    }
                    break;
                },
                _ => {},
            }
            if is_article_token(t) {
                assert(!no_articles(old(self).toks(), old(self).at())) by {
                    assert(is_article(self.toks()[self.at()]));
                }
                let mut type_info = match self.parse_type_info()? {
                    Some(ti) => ti,
                    None => {
                        return Err(violation(owned(
                            "Strict typing enforced: Missing explicit type indicator (e.g. 'a', 'an', 'the') for argument",
                        )));
                    },
                };
                let ghost q2 = self.at();
                self.match_token(&Token::Called);
                let ghost before_name = self.at();
                let name = match self.advance() {
                    Some(Token::Identifier(n)) => n.clone(),
                    _ => String::new(),
                };
                proof {
                    if name@.len() > 0 {
                        assert(is_identifier_named(old(self).toks()[before_name], name@));
                    }
                }
                let via = match self.peek() {
                    Some(Token::Identifier(v)) => str_eq(v.as_str(), "via"),
                    _ => false,
                };
                if via {
                    self.advance();
                    let obs = match self.peek() {
                        Some(Token::Identifier(o)) => str_eq(o.as_str(), "observation"),
                        _ => false,
                    };
                    if obs {
                        self.advance();
                        type_info.is_observation = true;
                    }
                }
                let a = Argument { name, type_info };
                let ghost av = arg_view(a);
                args.push(a);
                proof {
                    assert(args_view(args@) =~= args_view(done).push(av));
                    let q6 = self.at();
                    assert forall|rest: Seq<(Seq<char>, OnuType, bool)>, e: int| #[trigger] args_reads(ts, q6, rest, e)
                        implies args_reads(ts, p0, args_view(args@) + rest, e) by {
                        let full = seq![av] + rest;
                        assert(full[0] == av);
                        assert(full.drop_first() =~= rest);
                        assert(read_end(q2));
                        assert(args_reads(ts, q, full, e));
                        assert(args_view(done) + full =~= args_view(args@) + rest);
                    }
                }
            } else {
                self.advance();
                proof {
                    assert forall|rest: Seq<(Seq<char>, OnuType, bool)>, e: int| #[trigger] args_reads(ts, q + 1, rest, e)
                        implies args_reads(ts, p0, args_view(args@) + rest, e) by {
                        assert(args_reads(ts, q, rest, e));
                    }
                }
            }
        }
        Ok(args)
    }

    /// A module: its name and its concern.
    fn parse_module(&mut self) -> (r: Result<Discourse, OnuError>)
        requires
            old(self).wf(),
        ensures
            Self::moved_on(*old(self), *final(self)),
            ({
                let p = old(self).at();
                let ts = old(self).toks();
                r is Ok <==> (p + 1 < ts.len() && ts[p] is TheModuleCalled && ts[p + 1] is Identifier)
            }),
            r is Ok ==> final(self).at() >= old(self).at() + 2,
            r matches Ok(d) ==> ({
                let p = old(self).at();
                let ts = old(self).toks();
                let (c, end) = scan_module(ts, p + 2, Seq::empty());
                &&& d matches Discourse::Module { name, concern } && name@ == ts[p + 1]->Identifier_0@ && concern@ == c
                &&& final(self).at() == end
            }),
            r matches Err(e) ==> e is GrammarViolation,
    {
        self.consume(&Token::TheModuleCalled)?;
        let name = match self.advance() {
            Some(Token::Identifier(n)) => n.clone(),
            _ => {
                return Err(violation(owned("Expected module name")));
            },
        };
        let ghost ts = self.toks();
        let ghost start = self.at();
        let mut concern = String::new();
        loop
            invariant
                self.wf(),
                self.toks() == ts,
                self.at() >= start,
                start == old(self).at() + 2,
                scan_module(ts, self.at(), concern@) == scan_module(ts, start, Seq::empty()),
            ensures
                self.wf(),
                self.toks() == ts,
                scan_module(ts, start, Seq::empty()) == (concern@, self.at()),
            decreases ts.len() - self.at(),
        {
            let t = match self.peek() {
                None => break,
                Some(t) => t,
            };
            if is_discourse_start(t) {
                break;
            }
            if let Token::WithConcern = t {
                self.advance();
                self.skip_colon();
                if let Some(Token::Identifier(c)) = self.advance() {
                    concern = c.clone();
                }
            } else {
                self.advance();
            }
        }
        Ok(Discourse::Module { name, concern })
    }

    /// A shape: its name and the fields after `takes`; the fields of the
    /// last `takes` count.
    fn parse_shape(&mut self) -> (r: Result<Discourse, OnuError>)
        requires
            old(self).wf(),
        ensures
            Self::moved_on(*old(self), *final(self)),
            !({
                let p = old(self).at();
                let ts = old(self).toks();
                p + 1 < ts.len() && ts[p] is TheShapeCalled && ts[p + 1] is Identifier
            }) ==> r is Err,
            r matches Ok(d) ==> d matches Discourse::Shape { name, behaviors, .. } && behaviors@.len() == 0
                && name@ == old(self).toks()[old(self).at() + 1]->Identifier_0@,
            r matches Ok(d) ==> d matches Discourse::Shape { fields, .. }
                && forall|i: int| 0 <= i < fields@.len() ==> mentioned(old(self).toks(), (#[trigger] fields@[i]).name@),
            r is Ok ==> final(self).at() == final(self).toks().len() || opens_discourse(final(self).toks()[final(self).at()]),
            r is Ok ==> final(self).at() >= old(self).at() + 2,
            r matches Ok(d) ==> d matches Discourse::Shape { name, fields, .. }
                && shape_reads(old(self).toks(), old(self).at(), name@, args_view(fields@), final(self).at()),
            r matches Err(e) ==> e is GrammarViolation,
    {
        self.consume(&Token::TheShapeCalled)?;
        let name = match self.advance() {
            Some(Token::Identifier(n)) => n.clone(),
            _ => {
                return Err(violation(owned("Expected shape name")));
            },
        };
        let ghost p2 = self.at();
        let ghost ts = old(self).toks();
        let mut fields: Vec<Argument> = Vec::new();
        proof {
            assert(args_view(fields@) =~= Seq::<(Seq<char>, OnuType, bool)>::empty());
        }
        loop
            invariant
                ts == old(self).toks(),
                forall|fin: Seq<(Seq<char>, OnuType, bool)>, e: int| #[trigger] shape_body_reads(ts, self.at(), args_view(fields@), fin, e)
                    ==> shape_body_reads(ts, p2, Seq::empty(), fin, e),
                self.wf(),
                self.toks() == old(self).toks(),
                self.at() >= p2,
                p2 == old(self).at() + 2,
                forall|i: int| 0 <= i < fields@.len() ==> mentioned(old(self).toks(), (#[trigger] fields@[i]).name@),
            ensures
                self.wf(),
                self.toks() == old(self).toks(),
                self.at() >= p2,
                p2 == old(self).at() + 2,
                forall|i: int| 0 <= i < fields@.len() ==> mentioned(old(self).toks(), (#[trigger] fields@[i]).name@),
                self.at() == self.toks().len() || opens_discourse(self.toks()[self.at()]),
                shape_body_reads(ts, p2, Seq::empty(), args_view(fields@), self.at()),
            decreases self.toks().len() - self.at(),
        {
            let ghost q = self.at();
            let ghost acc = args_view(fields@);
            proof {
                assert(shape_body_reads(ts, q, acc, acc, q) <== (q >= ts.len() || opens_discourse(ts[q])));
            }
            let t = match self.peek() {
                None => break,
                Some(t) => t,
            };
            if is_discourse_start(t) {
                break;
            }
            if let Token::Takes = t {
                self.advance();
                self.skip_colon();
                let ghost c = self.at();
                fields = self.parse_arguments()?;
                proof {
                    let q2 = self.at();
                    let a = args_view(fields@);
                    assert(args_reads(ts, c, a, q2));
                    assert(c == after_keyword(ts, q));
                    assert(q < q2 <= ts.len());
                    assert(ts[q] is Takes);
                    assert(!opens_discourse(ts[q]));
                    assert forall|fin: Seq<(Seq<char>, OnuType, bool)>, e: int| #[trigger] shape_body_reads(ts, q2, a, fin, e)
                        implies shape_body_reads(ts, p2, Seq::empty(), fin, e) by {
                        assert(shape_body_reads(ts, q, acc, fin, e));
                    }
                }
            } else {
                self.advance();
                proof {
                    assert forall|fin: Seq<(Seq<char>, OnuType, bool)>, e: int| #[trigger] shape_body_reads(ts, q + 1, acc, fin, e)
                        implies shape_body_reads(ts, p2, Seq::empty(), fin, e) by {
                        assert(shape_body_reads(ts, q, acc, fin, e));
                    }
                }
            }
        }
        Ok(Discourse::Shape { name, fields, behaviors: Vec::new() })
    }

    /// A behavior header: the keyword, the name, and then `with intent`,
    /// `takes`, `delivers`, `with diminishing` and `no guaranteed
    /// termination` clauses in any order, up to `as`; later clauses of one
    /// kind replace earlier ones.
    fn parse_behavior_header(&mut self) -> (r: Result<BehaviorHeader, OnuError>)
        requires
            old(self).wf(),
        ensures
            Self::moved_on(*old(self), *final(self)),
            !({
                let p = old(self).at();
                let ts = old(self).toks();
                p + 1 < ts.len() && (ts[p] is TheBehaviorCalled || ts[p] is TheEffectBehaviorCalled) && ts[p + 1] is Identifier
            }) ==> r is Err,
            r matches Ok(h) ==> ({
                let p = old(self).at();
                let ts = old(self).toks();
                &&& h.name@ == ts[p + 1]->Identifier_0@
                &&& h.is_effect == ts[p] is TheEffectBehaviorCalled
                &&& final(self).at() == ts.len() || ts[final(self).at()] is As
                &&& header_reads(ts, p, h.name@, h.is_effect, args_view(h.takes@), h.delivers.0, final(self).at())
            }),
            ({
                let p = old(self).at();
                let ts = old(self).toks();
                p + 1 < ts.len() && (ts[p] is TheBehaviorCalled || ts[p] is TheEffectBehaviorCalled)
                    && ts[p + 1] is Identifier && no_articles(ts, 0) && delivers_nothing(ts)
            }) ==> (r matches Ok(h) && h.takes@.len() == 0 && h.delivers.0 == OnuType::Nothing),
            r matches Err(e) ==> e is GrammarViolation,
    {
        let is_effect = match self.peek() {
            Some(Token::TheEffectBehaviorCalled) => true,
            _ => false,
        };
        if is_effect {
            self.consume(&Token::TheEffectBehaviorCalled)?;
        } else {
            self.consume(&Token::TheBehaviorCalled)?;
        }
        let name = match self.advance() {
            Some(Token::Identifier(n)) => n.clone(),
            _ => {
                return Err(violation(owned("Expected behavior name")));
            },
        };
        let ghost p1 = self.at();
        let ghost ts = old(self).toks();
        let mut intent = String::new();
        let mut takes: Vec<Argument> = Vec::new();
        let mut delivers = ReturnType(OnuType::Nothing);
        let mut diminishing: Option<String> = None;
        let mut skip_termination_check = false;
        proof {
            assert(args_view(takes@) =~= Seq::<(Seq<char>, OnuType, bool)>::empty());
        }
        loop
            invariant
                ts == old(self).toks(),
                forall|ft: Seq<(Seq<char>, OnuType, bool)>, fd: OnuType, e: int|
                    #[trigger] clauses_read(ts, self.at(), args_view(takes@), delivers.0, ft, fd, e)
                    ==> clauses_read(ts, p1, Seq::empty(), OnuType::Nothing, ft, fd, e),
                self.wf(),
                self.toks() == old(self).toks(),
                self.at() >= p1,
                p1 == old(self).at() + 2,
                no_articles(old(self).toks(), 0) && delivers_nothing(old(self).toks())
                    ==> takes@.len() == 0 && delivers.0 == OnuType::Nothing,
            ensures
                clauses_read(ts, p1, Seq::empty(), OnuType::Nothing, args_view(takes@), delivers.0, self.at()),
                self.wf(),
                self.toks() == old(self).toks(),
                self.at() >= p1,
                self.at() == self.toks().len() || self.toks()[self.at()] is As,
                no_articles(old(self).toks(), 0) && delivers_nothing(old(self).toks())
                    ==> takes@.len() == 0 && delivers.0 == OnuType::Nothing,
            decreases self.toks().len() - self.at(),
        {
            let ghost iter_start = self.at();
            let ghost q = self.at();
            let ghost tk = args_view(takes@);
            let ghost dl = delivers.0;
            proof {
                assert(clauses_read(ts, q, tk, dl, tk, dl, q) <== (q >= ts.len() || ts[q] is As));
            }
            let t = match self.peek() {
                None => break,
                Some(t) => t,
            };
            match t {
                Token::WithIntent => {
                    self.advance();
                    self.skip_colon();
                    let ghost c0 = self.at();
                    let mut text = String::new();
                    let mut first = true;
                    loop
                        invariant_except_break
                            intent_end(ts, self.at()) == intent_end(ts, c0),
                        invariant
                            self.wf(),
                            self.toks() == old(self).toks(),
                            ts == old(self).toks(),
                            self.at() >= p1,
                            self.at() > iter_start,
                        ensures
                            self.wf(),
                            self.toks() == old(self).toks(),
                            self.at() > iter_start,
                            self.at() == intent_end(ts, c0),
                        decreases self.toks().len() - self.at(),
                    {
                        let u = match self.peek() {
                            None => break,
                            Some(u) => u,
                        };
                        match u {
                            Token::Takes | Token::Delivers | Token::WithDiminishing | Token::NoGuaranteedTermination | Token::As => break,
                            _ => {},
                        }
                        match self.advance() {
                            Some(Token::Identifier(w)) => {
                                if !first {
                                    text.append(" ");
                                }
                                text.append(w.as_str());
                                first = false;
                            },
                            _ => break,
                        }
                    }
                    intent = text;
                    proof {
                        let i = self.at();
                        assert forall|ft: Seq<(Seq<char>, OnuType, bool)>, fd: OnuType, e: int|
                            #[trigger] clauses_read(ts, i, tk, dl, ft, fd, e) implies clauses_read(ts, p1, Seq::empty(), OnuType::Nothing, ft, fd, e) by {
                            assert(clauses_read(ts, q, tk, dl, ft, fd, e));
                        }
                    }
                },
                Token::Takes => {
                    self.advance();
                    self.skip_colon();
                    let ghost c = self.at();
                    takes = self.parse_arguments()?;
                    proof {
                        let q2 = self.at();
                        let a = args_view(takes@);
                        assert(args_reads(ts, c, a, q2));
                        assert forall|ft: Seq<(Seq<char>, OnuType, bool)>, fd: OnuType, e: int|
                            #[trigger] clauses_read(ts, q2, a, dl, ft, fd, e) implies clauses_read(ts, p1, Seq::empty(), OnuType::Nothing, ft, fd, e) by {
                            assert(clauses_read(ts, q, tk, dl, ft, fd, e));
                        }
                    }
                },
                Token::Delivers => {
                    self.advance();
                    self.skip_colon();
                    let ghost c = self.at();
                    delivers = self.parse_return_type()?;
                    proof {
                        let q2 = self.at();
                        let rt = delivers.0;
                        assert(ret_reads(ts, c, rt, q2));
                        assert forall|ft: Seq<(Seq<char>, OnuType, bool)>, fd: OnuType, e: int|
                            #[trigger] clauses_read(ts, q2, tk, rt, ft, fd, e) implies clauses_read(ts, p1, Seq::empty(), OnuType::Nothing, ft, fd, e) by {
                            assert(clauses_read(ts, q, tk, dl, ft, fd, e));
                        }
                    }
                },
                Token::WithDiminishing => {
                    self.advance();
                    self.skip_colon();
                    if let Some(Token::Identifier(d)) = self.advance() {
                        diminishing = Some(d.clone());
                    }
                    proof {
                        let q2 = self.at();
                        assert forall|ft: Seq<(Seq<char>, OnuType, bool)>, fd: OnuType, e: int|
                            #[trigger] clauses_read(ts, q2, tk, dl, ft, fd, e) implies clauses_read(ts, p1, Seq::empty(), OnuType::Nothing, ft, fd, e) by {
                            assert(clauses_read(ts, q, tk, dl, ft, fd, e));
                        }
                    }
                },
                Token::NoGuaranteedTermination => {
                    self.advance();
                    skip_termination_check = true;
                    proof {
                        assert forall|ft: Seq<(Seq<char>, OnuType, bool)>, fd: OnuType, e: int|
                            #[trigger] clauses_read(ts, q + 1, tk, dl, ft, fd, e) implies clauses_read(ts, p1, Seq::empty(), OnuType::Nothing, ft, fd, e) by {
                            assert(clauses_read(ts, q, tk, dl, ft, fd, e));
                        }
                    }
                },
                Token::As => break,
                _ => {
                    self.advance();
                    proof {
                        assert forall|ft: Seq<(Seq<char>, OnuType, bool)>, fd: OnuType, e: int|
                            #[trigger] clauses_read(ts, q + 1, tk, dl, ft, fd, e) implies clauses_read(ts, p1, Seq::empty(), OnuType::Nothing, ft, fd, e) by {
                            assert(clauses_read(ts, q, tk, dl, ft, fd, e));
                        }
                    }
                },
            }
        }
        Ok(BehaviorHeader { name, is_effect, intent, takes, delivers, diminishing, skip_termination_check })
    }

    /// A primary expression: a literal, an identifier (a call when it names
    /// a behavior of no arguments), `nothing`, a parenthesized expression, or
    /// `broadcasts` and an expression.
    fn parse_primary(&mut self, registry: &RegistryService) -> (r: Result<Expression, OnuError>)
        requires
            old(self).wf(),
        ensures
            Self::moved_on(*old(self), *final(self)),
            r is Ok ==> final(self).at() > old(self).at(),
            old(self).at() >= old(self).toks().len() ==> r is Err,
            old(self).at() < old(self).toks().len() ==> ({
                let t = old(self).toks()[old(self).at()];
                &&& t matches Token::Literal(Literal::Integer(n)) ==> r == Ok::<Expression, OnuError>(integer_expr(n))
                &&& t matches Token::Literal(Literal::FloatBits(b)) ==> r == Ok::<Expression, OnuError>(Expression::F32(b as u32))
                &&& t matches Token::Literal(Literal::Boolean(b)) ==> r == Ok::<Expression, OnuError>(Expression::Boolean(b))
                &&& t matches Token::Literal(Literal::String(x)) ==> (r matches Ok(Expression::Text(y)) && y@ == x@)
                &&& t is Nothing ==> r == Ok::<Expression, OnuError>(Expression::Nothing)
                &&& t matches Token::Identifier(x) ==> ({
                    let zero_arity = registry.symbols().spec_lookup(x@) matches Some(sig) && sig.input_types@.len() == 0;
                    &&& zero_arity ==> (r matches Ok(Expression::BehaviorCall { name, args }) && name@ == x@ && args@.len() == 0)
                    &&& !zero_arity ==> (r matches Ok(Expression::Identifier(y)) && y@ == x@)
                })
                &&& r is Ok ==> t is Literal || t is Identifier || t is Nothing || t == Token::Delimiter('(') || t is Broadcasts
            }),
            r matches Ok(x) ==> primary_reads(old(self).toks(), *registry, old(self).at(), x, final(self).at()),
            r matches Err(e) ==> e is GrammarViolation,
        decreases old(self).toks().len() - old(self).at(), 2int,
    {
        let t = match self.peek() {
            None => {
                return Err(violation(owned("Unexpected end of input")));
            },
            Some(t) => t,
        };
        match t {
            Token::Literal(l) => {
                let e = match l {
                    Literal::Integer(n) => {
                        let n = *n;
                        if n >= -9223372036854775808i128 && n <= 9223372036854775807i128 {
                            Expression::I64(n as i64)
                        } else {
                            Expression::I64(0)
                        }
                    },
                    Literal::FloatBits(b) => Expression::F32(#[verifier::truncate] (*b as u32)),
                    Literal::Boolean(b) => Expression::Boolean(*b),
                    Literal::String(x) => Expression::Text(x.clone()),
                    Literal::Decimal(_) => {
                        return Err(violation(concat2("Unexpected token in primary: ", debug_token(t).as_str())));
                    },
                };
                self.advance();
                Ok(e)
            },
            Token::Identifier(x) => {
                let name = x.clone();
                self.advance();
                match registry.get_signature(name.as_str()) {
                    Some(sig) => {
                        if sig.input_types.len() == 0 {
                            return Ok(Expression::BehaviorCall { name, args: Vec::new() });
                        }
                    },
                    None => {},
                }
                Ok(Expression::Identifier(name))
            },
            Token::Nothing => {
                self.advance();
                Ok(Expression::Nothing)
            },
            Token::Delimiter('(') => {
                self.advance();
                let inner = self.parse_expression(registry)?;
                let ghost q = self.at();
                self.consume(&Token::Delimiter(')'))?;
                proof {
                    assert(old(self).toks()[q] == Token::Delimiter(')'));
                }
                Ok(inner)
            },
            Token::Broadcasts => {
                self.advance();
                let inner = self.parse_expression(registry)?;
                Ok(Expression::Emit(Box::new(inner)))
            },
            _ => Err(violation(concat2("Unexpected token in primary: ", debug_token(t).as_str()))),
        }
    }

    /// An expression: `if`, a derivation, or an operator expression.
    fn parse_expression(&mut self, registry: &RegistryService) -> (r: Result<Expression, OnuError>)
        requires
            old(self).wf(),
        ensures
            Self::moved_on(*old(self), *final(self)),
            r is Ok ==> final(self).at() > old(self).at(),
            r matches Ok(x) ==> expr_reads(old(self).toks(), *registry, old(self).at(), x, final(self).at()),
            r matches Err(e) ==> e is GrammarViolation,
        decreases old(self).toks().len() - old(self).at(), 5int,
    {
        match self.peek() {
            Some(Token::If) => self.parse_if(registry),
            Some(Token::Derivation) => self.parse_derivation(registry),
            _ => self.parse_infix(0, registry),
        }
    }

    /// `if` condition `then` expression `else` expression.
    fn parse_if(&mut self, registry: &RegistryService) -> (r: Result<Expression, OnuError>)
        requires
            old(self).wf(),
        ensures
            Self::moved_on(*old(self), *final(self)),
            r is Ok ==> final(self).at() > old(self).at(),
            r matches Ok(e) ==> e is If,
            r matches Ok(x) ==> if_reads(old(self).toks(), *registry, old(self).at(), x, final(self).at()),
            r matches Err(e) ==> e is GrammarViolation,
        decreases old(self).toks().len() - old(self).at(), 4int,
    {
        self.consume(&Token::If)?;
        let condition = self.parse_expression(registry)?;
        let ghost q1 = self.at();
        self.consume(&Token::Then)?;
        let then_branch = self.parse_expression(registry)?;
        let ghost q2 = self.at();
        self.consume(&Token::Else)?;
        let else_branch = self.parse_expression(registry)?;
        let r = Expression::If { condition: Box::new(condition), then_branch: Box::new(then_branch), else_branch: Box::new(else_branch) };
        proof {
            assert(read_end(q1) && read_end(q2));
        }
        Ok(r)
    }

    /// `derivation: name derives-from [type] value`, and the rest of the
    /// scope as its body: the expressions up to a terminator, a nested
    /// derivation taking the rest.
    fn parse_derivation(&mut self, registry: &RegistryService) -> (r: Result<Expression, OnuError>)
        requires
            old(self).wf(),
        ensures
            Self::moved_on(*old(self), *final(self)),
            r is Ok ==> final(self).at() > old(self).at(),
            r matches Ok(e) ==> e is Derivation,
            r matches Ok(x) ==> deriv_reads(old(self).toks(), *registry, old(self).at(), x, final(self).at()),
            r matches Err(e) ==> e is GrammarViolation,
        decreases old(self).toks().len() - old(self).at(), 4int,
    {
        let ghost ts = old(self).toks();
        self.consume(&Token::Derivation)?;
        self.skip_colon();
        let name = match self.advance() {
            Some(Token::Identifier(n)) => n.clone(),
            _ => {
                return Err(violation(owned("Expected derivation name")));
            },
        };
        self.consume(&Token::DerivesFrom)?;
        let ghost t0 = self.at();
        let type_info = self.parse_type_info()?;
        let ghost v0 = self.at();
        let value = self.parse_expression(registry)?;
        let ghost mid = self.at();
        let mut body_exprs: Vec<Expression> = Vec::new();
        proof {
            assert forall|rest: Seq<Expression>, e: int| #[trigger] deriv_body_reads(ts, *registry, mid, rest, e)
                implies deriv_body_reads(ts, *registry, mid, body_exprs@ + rest, e) by {
                assert(body_exprs@ + rest =~= rest);
            }
        }
        loop
            invariant_except_break
                forall|rest: Seq<Expression>, e: int| #[trigger] deriv_body_reads(ts, *registry, self.at(), rest, e)
                    ==> deriv_body_reads(ts, *registry, mid, body_exprs@ + rest, e),
            invariant
                self.wf(),
                self.toks() == old(self).toks(),
                ts == old(self).toks(),
                self.at() >= mid,
                mid > old(self).at(),
            ensures
                self.wf(),
                self.toks() == old(self).toks(),
                self.at() >= mid,
                deriv_body_reads(ts, *registry, mid, body_exprs@, self.at()),
            decreases self.toks().len() - self.at(),
        {
            let ghost q = self.at();
            let ghost done = body_exprs@;
            proof {
                assert(deriv_body_reads(ts, *registry, q, Seq::empty(), q) <== (q >= ts.len() || ends_expression(ts[q]) || opens_discourse(ts[q])));
                assert(done + Seq::<Expression>::empty() =~= done);
            }
            let t = match self.peek() {
                None => break,
                Some(t) => t,
            };
            if is_expression_terminator(t) || is_discourse_start(t) {
                break;
            }
            if let Token::As = t {
                break;
            }
            if let Token::Derivation = t {
                let d = self.parse_derivation(registry)?;
                let ghost dv = d;
                body_exprs.push(d);
                proof {
                    assert(deriv_body_reads(ts, *registry, q, seq![dv], self.at()));
                    assert(done + seq![dv] =~= body_exprs@);
                }
                break;
            }
            let x = self.parse_expression(registry)?;
            let ghost xv = x;
            let ghost q2 = self.at();
            body_exprs.push(x);
            proof {
                assert forall|rest: Seq<Expression>, e: int| #[trigger] deriv_body_reads(ts, *registry, q2, rest, e)
                    implies deriv_body_reads(ts, *registry, mid, body_exprs@ + rest, e) by {
                    let full = seq![xv] + rest;
                    assert(full[0] == xv);
                    assert(full.drop_first() =~= rest);
                    assert(read_end(q2));
                    assert(deriv_body_reads(ts, *registry, q, full, e));
                    assert(done + full =~= body_exprs@ + rest);
                }
            }
        }
        let ghost bl = body_exprs@;
        let body = if body_exprs.len() == 0 {
            Expression::Nothing
        } else if body_exprs.len() == 1 {
            body_exprs.pop().unwrap()
        } else {
            Expression::Block(body_exprs)
        };
        let r = Expression::Derivation { name, type_info, value: Box::new(value), body: Box::new(body) };
        proof {
            assert(body_of(body, bl));
            assert(read_end(v0) && read_end(mid) && expr_list_node(bl));
        }
        Ok(r)
    }

    /// The operator a token stands for between two operands, and its
    /// precedence, if any.
    fn infix_operator(t: &Token) -> (r: Option<(String, u8)>)
        ensures
            r matches Some((_, p)) ==> 1 <= p <= 5,
            match r {
                Some((s, p)) => infix_of(*t) == Some((s@, p)),
                None => infix_of(*t) is None,
            },
    {
        proof {
            reveal_strlit("added-to");
            reveal_strlit("char-at");
            reveal_strlit("charat");
            reveal_strlit("decreased-by");
            reveal_strlit("duplicated-as");
            reveal_strlit("exceeds");
            reveal_strlit("falls-short-of");
            reveal_strlit("init-of");
            reveal_strlit("joined-with");
            reveal_strlit("joins-with");
            reveal_strlit("matches");
            reveal_strlit("opposes");
            reveal_strlit("partitions-by");
            reveal_strlit("scales-by");
            reveal_strlit("tail-of");
            reveal_strlit("unites-with");
            reveal_strlit("utilizes");
        }
        match t {
            Token::Operator(s) => {
                let p: u8 = if str_eq(s.as_str(), "matches") { 2 } else { 1 };
                Some((s.clone(), p))
            },
            Token::Matches => Some((owned("matches"), 2)),
            Token::Exceeds => Some((owned("exceeds"), 2)),
            Token::FallsShortOf => Some((owned("falls-short-of"), 2)),
            Token::AddedTo => Some((owned("added-to"), 3)),
            Token::DecreasedBy => Some((owned("decreased-by"), 3)),
            Token::ScalesBy => Some((owned("scales-by"), 4)),
            Token::PartitionsBy => Some((owned("partitions-by"), 4)),
            Token::JoinsWith => Some((owned("joins-with"), 4)),
            Token::UnitesWith => Some((owned("unites-with"), 4)),
            Token::Opposes => Some((owned("opposes"), 4)),
            Token::InitOf => Some((owned("init-of"), 4)),
            Token::TailOf => Some((owned("tail-of"), 4)),
            Token::DuplicatedAs => Some((owned("duplicated-as"), 4)),
            Token::Utilizes => Some((owned("utilizes"), 5)),
            Token::Identifier(s) => {
                let w = s.as_str();
                let p: u8 = if str_eq(w, "matches") || str_eq(w, "exceeds") || str_eq(w, "falls-short-of") {
                    2
                } else if str_eq(w, "added-to") || str_eq(w, "decreased-by") {
                    3
                } else if str_eq(w, "scales-by") || str_eq(w, "partitions-by") || str_eq(w, "joined-with")
                    || str_eq(w, "joins-with") || str_eq(w, "unites-with") || str_eq(w, "opposes") || str_eq(w, "init-of")
                    || str_eq(w, "tail-of") || str_eq(w, "duplicated-as") || str_eq(w, "char-at") || str_eq(w, "charat") {
                    4
                } else if str_eq(w, "utilizes") {
                    5
                } else {
                    return None;
                };
                Some((s.clone(), p))
            },
            _ => None,
        }
    }

    /// An operator expression by precedence climbing: operators of at least
    /// `min_precedence` bind. `utilizes` calls the behavior named after it
    /// with as many more arguments as its signature takes; the unary
    /// operators `duplicated-as`, `init-of`, `tail-of` call themselves on
    /// the left operand; the named binary operators call themselves on both;
    /// any other operator builds a binary operation.
    fn parse_infix(&mut self, min_precedence: u8, registry: &RegistryService) -> (r: Result<Expression, OnuError>)
        requires
            old(self).wf(),
        ensures
            Self::moved_on(*old(self), *final(self)),
            r is Ok ==> final(self).at() > old(self).at(),
            r matches Ok(x) ==> infix_reads(old(self).toks(), *registry, old(self).at(), min_precedence as int, x, final(self).at()),
            r matches Err(e) ==> e is GrammarViolation,
        decreases old(self).toks().len() - old(self).at(), 3int,
    {
        let ghost ts = old(self).toks();
        let ghost p = old(self).at();
        let ghost minp = min_precedence as int;
        let mut lhs = self.parse_primary(registry)?;
        let ghost mid = self.at();
        proof {
            let l0 = lhs;
            assert forall|x: Expression, e: int| #[trigger] infix_loop(ts, *registry, mid, minp, l0, x, e)
                implies infix_reads(ts, *registry, p, minp, x, e) by {
                assert(read_end(mid) && expr_node(l0));
            }
        }
        loop
            invariant
                self.wf(),
                self.toks() == old(self).toks(),
                ts == old(self).toks(),
                p == old(self).at(),
                minp == min_precedence as int,
                self.at() >= mid,
                mid > old(self).at(),
                forall|x: Expression, e: int| #[trigger] infix_loop(ts, *registry, self.at(), minp, lhs, x, e)
                    ==> infix_reads(ts, *registry, p, minp, x, e),
            ensures
                self.wf(),
                self.toks() == old(self).toks(),
                self.at() >= mid,
                infix_reads(ts, *registry, p, minp, lhs, self.at()),
            decreases self.toks().len() - self.at(),
        {
            let ghost iter_start = self.at();
            let ghost q = self.at();
            let ghost l0 = lhs;
            proof {
                assert(infix_loop(ts, *registry, q, minp, l0, l0, q) <== (q >= ts.len() || ends_expression(ts[q])
                    || infix_of(ts[q]) is None || infix_prec(ts[q]) < minp));
            }
            let t = match self.peek() {
                None => break,
                Some(t) => t,
            };
            if is_expression_terminator(t) {
                break;
            }
            let (op, precedence) = match Self::infix_operator(t) {
                None => break,
                Some(pair) => pair,
            };
            if precedence < min_precedence {
                break;
            }
            proof {
                assert(op@ == infix_word(ts[q]));
                assert(precedence as int == infix_prec(ts[q]));
            }
            self.advance();
            let o = op.as_str();
            proof {
                reveal_strlit("utilizes");
                reveal_strlit("duplicated-as");
                reveal_strlit("init-of");
                reveal_strlit("tail-of");
                reveal_strlit("matches");
                reveal_strlit("exceeds");
                reveal_strlit("falls-short-of");
                reveal_strlit("added-to");
                reveal_strlit("decreased-by");
                reveal_strlit("scales-by");
                reveal_strlit("partitions-by");
                reveal_strlit("joined-with");
                reveal_strlit("char-at");
            }
            if str_eq(o, "utilizes") {
                let target = self.parse_behavior_name()?;
                let ghost tg = target@;
                let mut args: Vec<Expression> = Vec::new();
                args.push(lhs);
                let ghost a0 = args@;
                match registry.get_signature(target.as_str()) {
                    Some(sig) => {
                        let n = sig.input_types.len();
                        let more = if n > 0 { n - 1 } else { 0 };
                        let mut k: usize = 0;
                        proof {
                            assert forall|rest: Seq<Expression>, e3: int| #[trigger] count_args(ts, *registry, q + 2, (more - k) as nat, rest, e3)
                                implies count_args(ts, *registry, q + 2, more as nat, args@.drop_first() + rest, e3) by {
                                assert(args@.drop_first() + rest =~= rest);
                            }
                        }
                        while k < more
                            invariant
                                self.wf(),
                                self.toks() == old(self).toks(),
                                ts == old(self).toks(),
                                self.at() >= mid,
                                mid > old(self).at(),
                                self.at() > iter_start,
                                self.at() >= q + 2,
                                k <= more,
                                args@.len() >= 1,
                                args@[0] == l0,
                                forall|rest: Seq<Expression>, e3: int| #[trigger] count_args(ts, *registry, self.at(), (more - k) as nat, rest, e3)
                                    ==> count_args(ts, *registry, q + 2, more as nat, args@.drop_first() + rest, e3),
                            decreases more - k,
                        {
                            let ghost qa = self.at();
                            let ghost before = args@;
                            let a = self.parse_expression(registry)?;
                            let ghost qb = self.at();
                            let ghost av = a;
                            args.push(a);
                            proof {
                                assert forall|rest: Seq<Expression>, e3: int| #[trigger] count_args(ts, *registry, qb, (more - (k + 1)) as nat, rest, e3)
                                    implies count_args(ts, *registry, q + 2, more as nat, args@.drop_first() + rest, e3) by {
                                    let full = seq![av] + rest;
                                    assert(full[0] == av);
                                    assert(full.drop_first() =~= rest);
                                    assert(read_end(qb));
                                    assert(count_args(ts, *registry, qa, (more - k) as nat, full, e3));
                                    assert(before.drop_first() + full =~= args@.drop_first() + rest);
                                }
                            }
                            k = k + 1;
                        }
                        proof {
                            assert(count_args(ts, *registry, self.at(), (more - k) as nat, Seq::empty(), self.at()));
                            assert(args@.drop_first() + Seq::<Expression>::empty() =~= args@.drop_first());
                            assert(count_args(ts, *registry, q + 2, more as nat, args@.drop_first(), self.at()));
                            assert(registry.symbols().spec_lookup(tg) == Some(*sig));
                            assert(util_args(ts, *registry, q + 2, tg, args@.drop_first(), self.at()));
                        }
                    },
                    None => {
                        let go_on = match self.peek() {
                            Some(next) => !is_expression_terminator(next),
                            None => false,
                        };
                        if go_on {
                            let a = self.parse_expression(registry)?;
                            args.push(a);
                            proof {
                                assert(args@.drop_first() =~= seq![a]);
                            }
                        } else {
                            proof {
                                assert(args@.drop_first() =~= Seq::<Expression>::empty());
                            }
                        }
                        proof {
                            assert(util_args(ts, *registry, q + 2, tg, args@.drop_first(), self.at()));
                        }
                    },
                }
                let ghost q3 = self.at();
                lhs = Expression::BehaviorCall { name: target, args };
                proof {
                    let nl = lhs;
                    assert forall|x: Expression, e: int| #[trigger] infix_loop(ts, *registry, q3, minp, nl, x, e)
                        implies infix_reads(ts, *registry, p, minp, x, e) by {
                        assert(expr_node(nl) && read_end(q3));
                        assert(infix_loop(ts, *registry, q, minp, l0, x, e));
                    }
                }
            } else if str_eq(o, "duplicated-as") || str_eq(o, "init-of") || str_eq(o, "tail-of") {
                let mut args: Vec<Expression> = Vec::new();
                args.push(lhs);
                lhs = Expression::BehaviorCall { name: op, args };
                proof {
                    let nl = lhs;
                    assert(unary_word(infix_word(ts[q])));
                    assert forall|x: Expression, e: int| #[trigger] infix_loop(ts, *registry, q + 1, minp, nl, x, e)
                        implies infix_reads(ts, *registry, p, minp, x, e) by {
                        assert(expr_node(nl));
                        assert(infix_loop(ts, *registry, q, minp, l0, x, e));
                    }
                }
            } else if str_eq(o, "matches") || str_eq(o, "exceeds") || str_eq(o, "falls-short-of") || str_eq(o, "added-to")
                || str_eq(o, "decreased-by") || str_eq(o, "scales-by") || str_eq(o, "partitions-by")
                || str_eq(o, "joined-with") || str_eq(o, "char-at") {
                let rhs = self.parse_infix(precedence + 1, registry)?;
                let ghost rv = rhs;
                let ghost q2 = self.at();
                let mut args: Vec<Expression> = Vec::new();
                args.push(lhs);
                args.push(rhs);
                lhs = Expression::BehaviorCall { name: op, args };
                proof {
                    let nl = lhs;
                    assert(!unary_word(infix_word(ts[q])));
                    assert(binary_word(infix_word(ts[q])));
                    assert(args@ =~= seq![l0, rv]);
                    assert forall|x: Expression, e: int| #[trigger] infix_loop(ts, *registry, q2, minp, nl, x, e)
                        implies infix_reads(ts, *registry, p, minp, x, e) by {
                        assert(expr_node(nl) && expr_node(rv) && read_end(q2));
                        assert(infix_loop(ts, *registry, q, minp, l0, x, e));
                    }
                }
            } else {
                let rhs = self.parse_infix(precedence + 1, registry)?;
                let ghost rv = rhs;
                let ghost q2 = self.at();
                lhs = Expression::BinaryOp { left: Box::new(lhs), op: BinOp::Add, right: Box::new(rhs) };
                proof {
                    let nl = lhs;
                    assert(!unary_word(infix_word(ts[q])));
                    assert(!binary_word(infix_word(ts[q])));
                    assert forall|x: Expression, e: int| #[trigger] infix_loop(ts, *registry, q2, minp, nl, x, e)
                        implies infix_reads(ts, *registry, p, minp, x, e) by {
                        assert(expr_node(nl) && expr_node(rv) && read_end(q2));
                        assert(infix_loop(ts, *registry, q, minp, l0, x, e));
                    }
                }
            }
        }
        Ok(lhs)
    }

    /// The expressions of a body, up to the next discourse unit or `as`:
    /// `nothing` when there are none, the expression itself when there is
    /// one, and a block otherwise.
    fn parse_block(&mut self, registry: &RegistryService) -> (r: Result<Expression, OnuError>)
        requires
            old(self).wf(),
        ensures
            Self::moved_on(*old(self), *final(self)),
            r is Ok ==> final(self).at() == final(self).toks().len() || opens_discourse(final(self).toks()[final(self).at()])
                || final(self).toks()[final(self).at()] is As,
            r matches Ok(x) ==> block_reads(old(self).toks(), *registry, old(self).at(), x, final(self).at()),
            r matches Err(e) ==> e is GrammarViolation,
    {
        let ghost ts = old(self).toks();
        let ghost p = old(self).at();
        let mut exprs: Vec<Expression> = Vec::new();
        proof {
            assert forall|rest: Seq<Expression>, e: int| #[trigger] block_list_reads(ts, *registry, p, rest, e)
                implies block_list_reads(ts, *registry, p, exprs@ + rest, e) by {
                assert(exprs@ + rest =~= rest);
            }
        }
        loop
            invariant
                self.wf(),
                self.toks() == old(self).toks(),
                self.at() >= old(self).at(),
                ts == old(self).toks(),
                p == old(self).at(),
                forall|rest: Seq<Expression>, e: int| #[trigger] block_list_reads(ts, *registry, self.at(), rest, e)
                    ==> block_list_reads(ts, *registry, p, exprs@ + rest, e),
            ensures
                self.wf(),
                self.toks() == old(self).toks(),
                self.at() >= old(self).at(),
                self.at() == self.toks().len() || opens_discourse(self.toks()[self.at()]) || self.toks()[self.at()] is As,
                block_list_reads(ts, *registry, p, exprs@, self.at()),
            decreases self.toks().len() - self.at(),
        {
            let ghost q = self.at();
            let ghost done = exprs@;
            proof {
                assert(block_list_reads(ts, *registry, q, Seq::empty(), q) <== (q >= ts.len() || opens_discourse(ts[q]) || ts[q] is As));
                assert(done + Seq::<Expression>::empty() =~= done);
            }
            let t = match self.peek() {
                None => break,
                Some(t) => t,
            };
            if is_discourse_start(t) {
                break;
            }
            if let Token::As = t {
                break;
            }
            let x = self.parse_expression(registry)?;
            let ghost xv = x;
            let ghost q2 = self.at();
            exprs.push(x);
            proof {
                assert forall|rest: Seq<Expression>, e: int| #[trigger] block_list_reads(ts, *registry, q2, rest, e)
                    implies block_list_reads(ts, *registry, p, exprs@ + rest, e) by {
                    let full = seq![xv] + rest;
                    assert(full[0] == xv);
                    assert(full.drop_first() =~= rest);
                    assert(read_end(q2));
                    assert(block_list_reads(ts, *registry, q, full, e));
                    assert(done + full =~= exprs@ + rest);
                }
            }
        }
        let ghost bl = exprs@;
        let r = if exprs.len() == 0 {
            Expression::Nothing
        } else if exprs.len() == 1 {
            exprs.pop().unwrap()
        } else {
            Expression::Block(exprs)
        };
        proof {
            assert(body_of(r, bl));
        }
        Ok(r)
    }

    /// A behavior: its header, `as`, an optional `:`, and its body.
    fn parse_behavior(&mut self, registry: &RegistryService) -> (r: Result<Discourse, OnuError>)
        requires
            old(self).wf(),
        ensures
            Self::moved_on(*old(self), *final(self)),
            r is Ok ==> final(self).at() > old(self).at(),
            r matches Ok(d) ==> ({
                let p = old(self).at();
                let ts = old(self).toks();
                &&& d matches Discourse::Behavior { header, .. } && header.name@ == ts[p + 1]->Identifier_0@
                    && header.is_effect == ts[p] is TheEffectBehaviorCalled
                    && (exists|he: int| #[trigger] header_reads(ts, p, header.name@, header.is_effect, args_view(header.takes@), header.delivers.0, he))
                &&& d matches Discourse::Behavior { body, .. } && (exists|b0: int| #[trigger] read_end(b0)
                    && block_reads(ts, *registry, b0, body, final(self).at()))
                &&& p + 1 < ts.len() && ts[p + 1] is Identifier
                &&& final(self).at() == ts.len() || opens_discourse(ts[final(self).at()]) || ts[final(self).at()] is As
            }),
            r matches Err(e) ==> e is GrammarViolation,
    {
        let header = self.parse_behavior_header()?;
        let ghost he = self.at();
        self.consume(&Token::As)?;
        self.skip_colon();
        let ghost b0 = self.at();
        let body = self.parse_block(registry)?;
        proof {
            assert(read_end(b0));
            assert(header_reads(old(self).toks(), old(self).at(), header.name@, header.is_effect, args_view(header.takes@), header.delivers.0, he));
        }
        Ok(Discourse::Behavior { header, body })
    }

    /// The next discourse unit, passing over tokens that open none; `None`
    /// at the end of the tokens.
    fn parse_discourse(&mut self, registry: &RegistryService) -> (r: Result<Option<Discourse>, OnuError>)
        requires
            old(self).wf(),
        ensures
            Self::moved_on(*old(self), *final(self)),
            r matches Ok(Some(_)) ==> final(self).at() > old(self).at(),
            r matches Ok(None) ==> final(self).at() == final(self).toks().len(),
            ({
                let ts = old(self).toks();
                let q = first_opener(ts, old(self).at());
                &&& (q == ts.len()) == (r matches Ok(None))
                &&& r matches Ok(Some(d)) ==> unit_at(ts, *registry, q, d, final(self).at())
                &&& q < ts.len() && ts[q] is TheModuleCalled ==> (r is Ok <==> q + 1 < ts.len() && ts[q + 1] is Identifier)
            }),
            r matches Err(e) ==> e is GrammarViolation,
    {
        loop
            invariant
                self.wf(),
                self.toks() == old(self).toks(),
                self.at() >= old(self).at(),
                first_opener(self.toks(), self.at()) == first_opener(old(self).toks(), old(self).at()),
            decreases self.toks().len() - self.at(),
        {
            let t = match self.peek() {
                None => {
                    return Ok(None);
                },
                Some(t) => t,
            };
            match t {
                Token::TheModuleCalled => {
                    let d = self.parse_module()?;
                    return Ok(Some(d));
                },
                Token::TheShapeCalled => {
                    let d = self.parse_shape()?;
                    return Ok(Some(d));
                },
                Token::TheBehaviorCalled | Token::TheEffectBehaviorCalled => {
                    let d = self.parse_behavior(registry)?;
                    return Ok(Some(d));
                },
                _ => {
                    self.advance();
                },
            }
        }
    }
}

/// The parser of discourse units.
pub struct OnuParser {
    pub log_level: LogLevel,
}

/// The signature a behavior header declares: the types of its arguments,
/// its return type, and which arguments it only observes.
pub open spec fn declares(h: BehaviorHeader, sig: BehaviorSignature) -> bool {
    &&& sig.input_types@.len() == h.takes@.len()
    &&& sig.arg_is_observation@.len() == h.takes@.len()
    &&& forall|i: int| 0 <= i < h.takes@.len() ==> ty_equiv(#[trigger] sig.input_types@[i], h.takes@[i].type_info.onu_type)
    &&& forall|i: int| 0 <= i < h.takes@.len() ==> #[trigger] sig.arg_is_observation@[i] == h.takes@[i].type_info.is_observation
    &&& ty_equiv(sig.return_type, h.delivers.0)
}

fn header_signature(h: &BehaviorHeader) -> (sig: BehaviorSignature)
    ensures
        declares(*h, sig),
{
    let mut input_types: Vec<OnuType> = Vec::new();
    let mut arg_is_observation: Vec<bool> = Vec::new();
    let mut i: usize = 0;
    while i < h.takes.len()
        invariant
            i <= h.takes@.len(),
            input_types@.len() == i,
            arg_is_observation@.len() == i,
            forall|j: int| 0 <= j < i ==> ty_equiv(#[trigger] input_types@[j], h.takes@[j].type_info.onu_type),
            forall|j: int| 0 <= j < i ==> #[trigger] arg_is_observation@[j] == h.takes@[j].type_info.is_observation,
        decreases h.takes.len() - i,
    {
        input_types.push(h.takes[i].type_info.onu_type.dup());
        arg_is_observation.push(h.takes[i].type_info.is_observation);
        i = i + 1;
    }
    BehaviorSignature { input_types, return_type: h.delivers.0.dup(), arg_is_observation }
}

/// Whether the registries `a` and `b` agree on every name that `toks` does
/// not mention.
pub open spec fn same_unless_mentioned(toks: Seq<Token>, a: RegistryService, b: RegistryService) -> bool {
    forall|n: Seq<char>| !mentioned(toks, n) ==> b.symbols().spec_lookup(n) == a.symbols().spec_lookup(n)
        && b.spec_shape(n) == a.spec_shape(n)
}

impl OnuParser {
    pub fn new(log_level: LogLevel) -> (r: OnuParser)
        ensures
            r.log_level == log_level,
    {
        OnuParser { log_level }
    }

    /// Registers the signatures of the behaviors and shapes the tokens
    /// declare, before their bodies are parsed: each behavior header's
    /// signature; for each shape, an accessor for each field, a constructor
    /// taking the fields, and the shape's definition. Only names the tokens
    /// mention (or the empty name of an unnamed field) are touched.
    pub fn scan_headers(&self, tokens: &Vec<Token>, registry: &mut RegistryService) -> (r: Result<(), OnuError>)
        ensures
            same_unless_mentioned(tokens@, *old(registry), *final(registry)),
            keeps(*old(registry), *final(registry)),
            r is Ok ==> headers_registered(tokens@, *final(registry)),
            first_opener(tokens@, 0) == tokens@.len() ==> r is Ok && *final(registry) == *old(registry),
            plain_headers(tokens@) ==> r is Ok && headers_registered_plain(tokens@, *final(registry)),
            r is Ok ==> headers_declared(tokens@, *final(registry)),
            r matches Err(e) ==> e is GrammarViolation,
    {
        let mut parser = ParserInternal::new(tokens);
        let ghost ts = tokens@;
        let ghost mut vs: Seq<int> = Seq::empty();
        let ghost mut es: Seq<int> = Seq::empty();
        loop
            invariant
                parser.wf(),
                parser.toks() == tokens@,
                ts == tokens@,
                same_unless_mentioned(tokens@, *old(registry), *registry),
                keeps(*old(registry), *registry),
                vs.len() == es.len(),
                vs.len() == 0 ==> first_opener(ts, parser.at()) == first_opener(ts, 0),
                vs.len() == 0 ==> *registry == *old(registry),
                vs.len() > 0 ==> vs[0] == first_opener(ts, 0) && first_opener(ts, parser.at()) == first_opener(ts, es.last()),
                forall|i: int| 0 <= i < vs.len() ==> 0 <= #[trigger] vs[i] < es[i] <= ts.len() && opens_discourse(ts[vs[i]]),
                forall|i: int| 0 <= i < vs.len() ==> #[trigger] unit_registered(ts, *registry, vs[i]),
                forall|i: int| 0 <= i < vs.len() - 1 ==> #[trigger] vs[i + 1] == first_opener(ts, es[i]),
                plain_headers(ts) ==> plain_registered(ts, *registry, vs),
                forall|i: int| 0 <= i < vs.len() ==> #[trigger] header_declared_at(ts, *registry, vs[i]),
            ensures
                plain_headers(ts) ==> plain_registered(ts, *registry, vs),
                forall|i: int| 0 <= i < vs.len() ==> #[trigger] header_declared_at(ts, *registry, vs[i]),
                vs.len() == es.len(),
                vs.len() == 0 ==> *registry == *old(registry),
                same_unless_mentioned(tokens@, *old(registry), *registry),
                keeps(*old(registry), *registry),
                vs.len() == 0 ==> first_opener(ts, 0) == ts.len(),
                vs.len() > 0 ==> vs[0] == first_opener(ts, 0) && first_opener(ts, es.last()) == ts.len(),
                forall|i: int| 0 <= i < vs.len() ==> 0 <= #[trigger] vs[i] < es[i] <= ts.len() && opens_discourse(ts[vs[i]]),
                forall|i: int| 0 <= i < vs.len() ==> #[trigger] unit_registered(ts, *registry, vs[i]),
                forall|i: int| 0 <= i < vs.len() - 1 ==> #[trigger] vs[i + 1] == first_opener(ts, es[i]),
            decreases parser.toks().len() - parser.at(),
        {
            let ghost p = parser.at();
            let ghost r0 = *registry;
            proof {
                if vs.len() > 0 {
                    assert(0 <= vs[0] < es[0] <= ts.len());
                }
                if p < ts.len() && opens_discourse(ts[p]) {
                    assert(first_opener(ts, p) == p);
                }
            }
            let t = match parser.peek() {
                None => {
                    proof {
                        assert(first_opener(ts, p) == ts.len());
                    }
                    break;
                },
                Some(t) => t,
            };
            match t {
                Token::TheBehaviorCalled | Token::TheEffectBehaviorCalled => {
                    proof {
                        if plain_headers(tokens@) {
                            assert(opens_discourse(ts[p]));
                        }
                    }
                    let header = parser.parse_behavior_header()?;
                    let sig = header_signature(&header);
                    let ghost sig_g = sig;
                    let ghost vs0 = vs;
                    registry.symbols_mut().add_signature(header.name.as_str(), sig);
                    proof {
                        {
                            let x = header.name@;
                            let ft = args_view(header.takes@);
                            assert(declares_view(ft, header.delivers.0, sig_g)) by {
                                assert forall|i: int| 0 <= i < ft.len() implies ty_equiv(#[trigger] sig_g.input_types@[i], ft[i].1) by {
                                    assert(ty_equiv(sig_g.input_types@[i], header.takes@[i].type_info.onu_type));
                                }
                                assert forall|i: int| 0 <= i < ft.len() implies #[trigger] sig_g.arg_is_observation@[i] == ft[i].2 by {
                                    assert(sig_g.arg_is_observation@[i] == header.takes@[i].type_info.is_observation);
                                }
                            }
                            assert(header_reads(ts, p, x, header.is_effect, ft, header.delivers.0, parser.at()));
                            assert(declared_by_header(ts, x, sig_g));
                            assert forall|i: int| 0 <= i < vs0.len() implies #[trigger] header_declared_at(ts, *registry, vs0[i]) by {
                                assert(header_declared_at(ts, r0, vs0[i]));
                            }
                            assert(header_declared_at(ts, *registry, p));
                        }
                        if plain_headers(ts) {
                            assert(plain_signature(sig_g));
                            assert forall|i: int| 0 <= i < vs0.len() && 0 <= #[trigger] vs0[i] && vs0[i] + 1 < ts.len()
                                && (ts[vs0[i]] is TheBehaviorCalled || ts[vs0[i]] is TheEffectBehaviorCalled) && ts[vs0[i] + 1] is Identifier
                                implies (registry.symbols().spec_lookup(ts[vs0[i] + 1]->Identifier_0@) matches Some(s) && plain_signature(s)) by {
                                let x = ts[vs0[i] + 1]->Identifier_0@;
                                if x != header.name@ {
                                    assert(r0.symbols().spec_lookup(x) matches Some(s) && plain_signature(s));
                                }
                            }
                        }
                        assert(is_identifier_named(tokens@[p + 1], header.name@));
                        assert(mentioned(tokens@, header.name@));
                        assert(keeps(r0, *registry));
                        lemma_keeps_trans(*old(registry), r0, *registry);
                        lemma_keeps_registered(ts, r0, *registry, vs);
                        assert(unit_registered(ts, *registry, p));
                    }
                    loop
                        invariant
                            parser.wf(),
                            parser.toks() == tokens@,
                            ts == tokens@,
                            parser.at() > p,
                        ensures
                            parser.wf(),
                            parser.toks() == tokens@,
                            parser.at() > p,
                            first_opener(ts, parser.at()) == parser.at(),
                        decreases parser.toks().len() - parser.at(),
                    {
                        let u = match parser.peek() {
                            None => break,
                            Some(u) => u,
                        };
                        if is_discourse_start(u) {
                            break;
                        }
                        parser.advance();
                    }
                    proof {
                        let ovs = vs;
                        let oes = es;
                        vs = vs.push(p);
                        es = es.push(parser.at());
                        assert forall|i: int| 0 <= i < vs.len() implies 0 <= #[trigger] vs[i] < es[i] <= ts.len() && opens_discourse(ts[vs[i]]) by {
                            if i < ovs.len() {
                                assert(vs[i] == ovs[i]);
                                assert(es[i] == oes[i]);
                            }
                        }
                        assert forall|i: int| 0 <= i < vs.len() implies #[trigger] unit_registered(ts, *registry, vs[i]) by {
                            if i < ovs.len() {
                                assert(unit_registered(ts, *registry, ovs[i]));
                            }
                        }
                        assert forall|i: int| 0 <= i < vs.len() - 1 implies #[trigger] vs[i + 1] == first_opener(ts, es[i]) by {
                            if i < ovs.len() - 1 {
                                assert(vs[i + 1] == ovs[i + 1]);
                            }
                        }
                        {
                            assert forall|i: int| 0 <= i < vs.len() implies #[trigger] header_declared_at(ts, *registry, vs[i]) by {
                                if i < ovs.len() {
                                    assert(header_declared_at(ts, *registry, ovs[i]));
                                }
                            }
                        }
                    }
                },
                Token::TheShapeCalled => {
                    assert(!plain_headers(tokens@)) by {
                        assert(opens_discourse(ts[p]));
                    }
                    let d = parser.parse_shape()?;
                    let ghost pe = parser.at();
                    if let Discourse::Shape { name, fields, behaviors } = d {
                        proof {
                            assert(is_identifier_named(tokens@[p + 1], name@));
                        }
                        let ghost fv = args_view(fields@);
                        let mut field_defs: Vec<(String, OnuType)> = Vec::new();
                        let mut field_types: Vec<OnuType> = Vec::new();
                        let mut ctor_obs: Vec<bool> = Vec::new();
                        let mut k: usize = 0;
                        while k < fields.len()
                            invariant
                                ts == tokens@,
                                fv == args_view(fields@),
                                shape_reads(ts, p, name@, fv, pe),
                                field_types@.len() == k,
                                ctor_obs@.len() == k,
                                forall|j: int| 0 <= j < k ==> ty_equiv(#[trigger] field_types@[j], fv[j].1),
                                forall|j: int| 0 <= j < k ==> !#[trigger] ctor_obs@[j],
                                forall|i: int| 0 <= i < vs.len() ==> #[trigger] header_declared_at(ts, *registry, vs[i]),
                                k <= fields@.len(),
                                forall|i: int| 0 <= i < fields@.len() ==> mentioned(tokens@, (#[trigger] fields@[i]).name@),
                                mentioned(tokens@, name@),
                                same_unless_mentioned(tokens@, *old(registry), *registry),
                                keeps(r0, *registry),
                            decreases fields.len() - k,
                        {
                            let f = &fields[k];
                            let mut obs: Vec<bool> = Vec::new();
                            obs.push(true);
                            let mut inputs: Vec<OnuType> = Vec::new();
                            inputs.push(OnuType::Shape(name.clone()));
                            let sig = BehaviorSignature { input_types: inputs, return_type: f.type_info.onu_type.dup(), arg_is_observation: obs };
                            proof {
                                assert(mentioned(tokens@, fields@[k as int].name@));
                            }
                            let ghost r1 = *registry;
                            let ghost sg = sig;
                            registry.symbols_mut().add_signature(f.name.as_str(), sig);
                            proof {
                                assert(keeps(r1, *registry));
                                lemma_keeps_trans(r0, r1, *registry);
                                assert(sg.arg_is_observation@ =~= seq![true]);
                                assert(accessor_sig(name@, fv[k as int].1, sg));
                                assert(fv[k as int].0 == f.name@);
                                assert(provided_by_shape(ts, f.name@, sg));
                                assert forall|i: int| 0 <= i < vs.len() implies #[trigger] header_declared_at(ts, *registry, vs[i]) by {
                                    assert(header_declared_at(ts, r1, vs[i]));
                                }
                            }
                            field_defs.push((f.name.clone(), f.type_info.onu_type.dup()));
                            field_types.push(f.type_info.onu_type.dup());
                            ctor_obs.push(false);
                            k = k + 1;
                        }
                        let ctor = BehaviorSignature {
                            input_types: field_types,
                            return_type: OnuType::Shape(name.clone()),
                            arg_is_observation: ctor_obs,
                        };
                        let ghost r2 = *registry;
                        let ghost cg = ctor;
                        proof {
                            assert(ctor_sig(name@, fv, cg));
                            assert(provided_by_shape(ts, name@, cg));
                        }
                        registry.symbols_mut().add_signature(name.as_str(), ctor);
                        proof {
                            assert forall|i: int| 0 <= i < vs.len() implies #[trigger] header_declared_at(ts, *registry, vs[i]) by {
                                assert(header_declared_at(ts, r2, vs[i]));
                            }
                        }
                        let mut behavior_sigs: Vec<(String, BehaviorSignature)> = Vec::new();
                        let mut b: usize = 0;
                        while b < behaviors.len()
                            invariant
                                b <= behaviors@.len(),
                            decreases behaviors.len() - b,
                        {
                            behavior_sigs.push((behaviors[b].name.clone(), header_signature(&behaviors[b])));
                            b = b + 1;
                        }
                        let ghost r3 = *registry;
                        registry.add_shape(name.as_str(), field_defs, behavior_sigs);
                        proof {
                            assert(keeps(r2, r3));
                            assert(keeps(r3, *registry));
                            lemma_keeps_trans(r0, r2, r3);
                            lemma_keeps_trans(r0, r3, *registry);
                            lemma_keeps_trans(*old(registry), r0, *registry);
                            lemma_keeps_registered(ts, r0, *registry, vs);
                            assert(registry.symbols().spec_lookup(name@) is Some);
                            assert(unit_registered(ts, *registry, p));
                            assert(registry.symbols() == r3.symbols());
                            assert forall|i: int| 0 <= i < vs.len() implies #[trigger] header_declared_at(ts, *registry, vs[i]) by {
                                assert(header_declared_at(ts, r3, vs[i]));
                            }
                            let ovs = vs;
                            let oes = es;
                            vs = vs.push(p);
                            es = es.push(parser.at());
                            assert(first_opener(ts, parser.at()) == parser.at());
                            assert forall|i: int| 0 <= i < vs.len() implies #[trigger] header_declared_at(ts, *registry, vs[i]) by {
                                if i < ovs.len() {
                                    assert(header_declared_at(ts, *registry, ovs[i]));
                                }
                            }
                            assert forall|i: int| 0 <= i < vs.len() implies 0 <= #[trigger] vs[i] < es[i] <= ts.len() && opens_discourse(ts[vs[i]]) by {
                                if i < ovs.len() {
                                    assert(vs[i] == ovs[i]);
                                    assert(es[i] == oes[i]);
                                }
                            }
                        assert forall|i: int| 0 <= i < vs.len() implies #[trigger] unit_registered(ts, *registry, vs[i]) by {
                                if i < ovs.len() {
                                    assert(unit_registered(ts, *registry, ovs[i]));
                                }
                            }
                            assert forall|i: int| 0 <= i < vs.len() - 1 implies #[trigger] vs[i + 1] == first_opener(ts, es[i]) by {
                                if i < ovs.len() - 1 {
                                    assert(vs[i + 1] == ovs[i + 1]);
                                }
                            }
                        }
                    }
                },
                _ => {
                    parser.advance();
                    proof {
                        if opens_discourse(ts[p]) {
                            let ovs = vs;
                            let oes = es;
                            vs = vs.push(p);
                            es = es.push(p + 1);
                            assert(unit_registered(ts, *registry, p));
                            {
                                assert forall|i: int| 0 <= i < vs.len() implies #[trigger] header_declared_at(ts, *registry, vs[i]) by {
                                    if i < ovs.len() {
                                        assert(header_declared_at(ts, *registry, ovs[i]));
                                    }
                                }
                            }
                            assert forall|i: int| 0 <= i < vs.len() implies 0 <= #[trigger] vs[i] < es[i] <= ts.len() && opens_discourse(ts[vs[i]]) by {
                                if i < ovs.len() {
                                    assert(vs[i] == ovs[i]);
                                    assert(es[i] == oes[i]);
                                }
                            }
                        assert forall|i: int| 0 <= i < vs.len() implies #[trigger] unit_registered(ts, *registry, vs[i]) by {
                                if i < ovs.len() {
                                    assert(unit_registered(ts, *registry, ovs[i]));
                                }
                            }
                            assert forall|i: int| 0 <= i < vs.len() - 1 implies #[trigger] vs[i + 1] == first_opener(ts, es[i]) by {
                                if i < ovs.len() - 1 {
                                    assert(vs[i + 1] == ovs[i + 1]);
                                }
                            }
                        } else {
                            assert(first_opener(ts, p) == first_opener(ts, p + 1));
                        }
                    }
                },
            }
        }
        assert(scan_chain(ts, *registry, vs, es));
        assert(headers_registered(tokens@, *registry));
        proof {
            {
                assert(headers_declared(tokens@, *registry));
            }
        }
        Ok(())
    }

    /// Parses the discourse units of the tokens, with the registry's
    /// signatures deciding which identifiers are calls; the registry is
    /// left as it is.
    pub fn parse_with_registry(&self, tokens: Vec<Token>, registry: &mut RegistryService) -> (r: Result<Vec<Discourse>, OnuError>)
        ensures
            *final(registry) == *old(registry),
            r matches Ok(ds) ==> parsed_as(tokens@, *old(registry), ds@),
            first_opener(tokens@, 0) == tokens@.len() ==> (r matches Ok(ds) && ds@.len() == 0),
            modules_only(tokens@) ==> r is Ok,
            r matches Err(e) ==> e is GrammarViolation,
    {
        let mut parser = ParserInternal::new(&tokens);
        let mut discourses: Vec<Discourse> = Vec::new();
        let ghost mut ps: Seq<int> = Seq::empty();
        let ghost mut es: Seq<int> = Seq::empty();
        let ghost ts = tokens@;
        loop
            invariant_except_break
                discourses@.len() == 0 ==> parser.at() == 0,
                discourses@.len() > 0 ==> ps[0] == first_opener(ts, 0) && es.last() == parser.at(),
            invariant
                parser.wf(),
                parser.toks() == ts,
                ts == tokens@,
                *registry == *old(registry),
                ps.len() == discourses@.len() && es.len() == discourses@.len(),
                forall|i: int| 0 <= i < discourses@.len() ==> #[trigger] unit_at(ts, *registry, ps[i], discourses@[i], es[i]),
                forall|i: int| 0 <= i < discourses@.len() - 1 ==> #[trigger] ps[i + 1] == first_opener(ts, es[i]),
            ensures
                segmented(ts, *registry, discourses@, ps, es),
            decreases parser.toks().len() - parser.at(),
        {
            if parser.is_at_end() {
                proof {
                    assert(first_opener(ts, parser.at()) == ts.len());
                }
                break;
            }
            let ghost at0 = parser.at();
            proof {
                if discourses@.len() > 0 {
                    assert(unit_at(ts, *registry, ps[0], discourses@[0], es[0]));
                }
                lemma_first_opener(ts, at0);
                let q = first_opener(ts, at0);
                if q < ts.len() && modules_only(ts) {
                    assert(opens_discourse(ts[q]));
                }
            }
            match parser.parse_discourse(registry)? {
                Some(d) => {
                    proof {
                        let q = first_opener(ts, at0);
                        if discourses@.len() == 0 {
                            assert(at0 == 0);
                        }
                        ps = ps.push(q);
                        es = es.push(parser.at());
                    }
                    let ghost old_ds = discourses@;
                    discourses.push(d);
                    proof {
                        assert forall|i: int| 0 <= i < discourses@.len() implies #[trigger] unit_at(ts, *registry, ps[i], discourses@[i], es[i]) by {
                            if i < old_ds.len() {
                                assert(discourses@[i] == old_ds[i]);
                            }
                        }
                    }
                },
                None => {
                    proof {
                        assert(first_opener(ts, at0) == ts.len());
                    }
                    break;
                },
            }
        }
        assert(segmented(ts, *registry, discourses@, ps, es));
        proof {
            if discourses@.len() > 0 {
                assert(unit_at(ts, *registry, ps[0], discourses@[0], es[0]));
            }
        }
        assert(segmented(tokens@, *registry, discourses@, ps, es));
        assert(parsed_as(tokens@, *registry, discourses@));
        Ok(discourses)
    }
}

impl ParserPort for OnuParser {
    /// Parses with a fresh registry.
    fn parse(&self, tokens: Vec<Token>) -> (r: Result<Vec<Discourse>, OnuError>)
        ensures
            r matches Ok(ds) ==> exists|reg: RegistryService| #[trigger] parsed_as(tokens@, reg, ds@)
                && forall|n: Seq<char>| reg.symbols().spec_lookup(n) is None,
            first_opener(tokens@, 0) == tokens@.len() ==> (r matches Ok(ds) && ds@.len() == 0),
            modules_only(tokens@) ==> r is Ok,
            r matches Err(e) ==> e is GrammarViolation,
    {
        let mut registry = RegistryService::new();
        let ghost reg = registry;
        let r = self.parse_with_registry(tokens, &mut registry);
        proof {
            if r is Ok {
                assert(parsed_as(tokens@, reg, r->Ok_0@));
            }
        }
        r
    }
}

/// An operator keyword read by the lexer is parsed as the operator it
/// spells: the phrase `w` lexes to a token that the parser reads between
/// two operands as the operator `w` itself.
pub proof fn law_operator_keywords_keep_their_word(w: Seq<char>)
    ensures
        phrase_token(w) matches Some(t) ==> (infix_of(t) matches Some(p) ==> p.0 == w),
{
}

} // verus!
