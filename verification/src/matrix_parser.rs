//! Matrix literals: `[1, 2; 3, 4]`.

use vstd::prelude::*;
use crate::ast::Expression;
use crate::error::{OnuError, Span};
use crate::parser::{debug_token, token_debug};
use crate::text::{concat2, concat3, count_text, nat_digits, owned};
use crate::tokens::{Literal, Token};

verus! {

/// A token that can be an element of a matrix literal.
pub open spec fn is_matrix_value(t: Token) -> bool {
    t matches Token::Literal(Literal::Integer(_)) || t matches Token::Literal(Literal::FloatBits(_))
}

/// A token that separates elements (`,`) or rows (`;`) of a matrix literal.
pub open spec fn is_matrix_sep(t: Token) -> bool {
    t == Token::Delimiter(',') || t == Token::Delimiter(';')
}

/// The expression an element token stands for: an integer that fits in 64
/// bits becomes `I64`, a larger one `I128`, a float keeps its bits.
pub open spec fn element_expr(t: Token) -> Expression {
    match t {
        Token::Literal(Literal::Integer(n)) => if i64::MIN <= n <= i64::MAX {
            Expression::I64(n as i64)
        } else {
            Expression::I128(n)
        },
        Token::Literal(Literal::FloatBits(b)) => Expression::F64(b),
        _ => Expression::Nothing,
    }
}

/// The body of a matrix literal: empty, or values separated by single
/// separators (no leading, trailing or doubled separator).
pub open spec fn alternates(b: Seq<Token>) -> bool {
    &&& (b.len() == 0 || b.len() % 2 == 1)
    &&& forall|i: int| 0 <= i < b.len() ==> (if i % 2 == 0 {
        is_matrix_value(#[trigger] b[i])
    } else {
        is_matrix_sep(b[i])
    })
}

/// The lengths of the rows closed so far, and of the row being read, after
/// reading the tokens of `b`.
pub open spec fn row_lengths(b: Seq<Token>) -> (Seq<nat>, nat)
    decreases b.len(),
{
    if b.len() == 0 {
        (Seq::empty(), 0)
    } else {
        let (rows, cur) = row_lengths(b.drop_last());
        if is_matrix_value(b.last()) {
            (rows, cur + 1)
        } else if b.last() == Token::Delimiter(';') {
            (rows.push(cur), 0)
        } else {
            (rows, cur)
        }
    }
}

/// The lengths of all rows of a matrix body (the last row only if it is not
/// empty).
pub open spec fn final_rows(b: Seq<Token>) -> Seq<nat> {
    let (rows, cur) = row_lengths(b);
    if cur > 0 { rows.push(cur) } else { rows }
}

/// The elements of a matrix body, in order.
pub open spec fn matrix_elements(b: Seq<Token>) -> Seq<Expression>
    decreases b.len(),
{
    if b.len() == 0 {
        Seq::empty()
    } else if is_matrix_value(b.last()) {
        matrix_elements(b.drop_last()).push(element_expr(b.last()))
    } else {
        matrix_elements(b.drop_last())
    }
}

/// All rows have the same length.
pub open spec fn rectangular(rows: Seq<nat>) -> bool {
    forall|i: int| 0 <= i < rows.len() ==> #[trigger] rows[i] == rows[0]
}

/// `tokens[0..=k]` is a well-formed, rectangular matrix literal closed at `k`.
pub open spec fn matrix_at(tokens: Seq<Token>, k: int) -> bool {
    &&& 1 <= k < tokens.len()
    &&& tokens[0] == Token::Delimiter('[')
    &&& tokens[k] == Token::Delimiter(']')
    &&& alternates(tokens.subrange(1, k))
    &&& rectangular(final_rows(tokens.subrange(1, k)))
}

/// Reading may go on past position `p`: the token there is a value where a
/// value is due, or a separator where one is due.
pub open spec fn continues(tokens: Seq<Token>, p: int) -> bool {
    p < tokens.len() && (if (p - 1) % 2 == 0 {
        is_matrix_value(tokens[p])
    } else {
        is_matrix_sep(tokens[p])
    })
}

/// Reading stops at position `p`: the tokens between `[` and `p` alternate
/// correctly and the one at `p` (if any) does not go on.
pub open spec fn stops_at(tokens: Seq<Token>, p: int) -> bool {
    &&& 1 <= p <= tokens.len()
    &&& forall|i: int| 0 <= i < p - 1 ==> (if i % 2 == 0 {
        is_matrix_value(#[trigger] tokens.subrange(1, p)[i])
    } else {
        is_matrix_sep(tokens.subrange(1, p)[i])
    })
    &&& !continues(tokens, p)
}

/// The first row whose length differs from that of row 0.
pub open spec fn first_ragged_row(fr: Seq<nat>) -> int {
    choose|i: int| 0 < i < fr.len() && (#[trigger] fr[i]) != fr[0] && forall|j: int| 0 <= j < i ==> #[trigger] fr[j] == fr[0]
}

/// The report on a matrix whose rows differ in length.
pub open spec fn ragged_message(fr: Seq<nat>) -> Seq<char> {
    let i = first_ragged_row(fr);
    "Matrix is not rectangular: row 0 has "@ + nat_digits(fr[0]) + " columns but row "@
        + nat_digits(i as nat) + " has "@ + nat_digits(fr[i])
}

/// The report on a literal whose reading stops at `p`.
pub open spec fn stop_message(tokens: Seq<Token>, p: int) -> Seq<char> {
    let b = tokens.subrange(1, p);
    if p >= tokens.len() {
        "Unterminated matrix literal: expected ']'"@
    } else {
        let t = tokens[p];
        if t == Token::Delimiter(']') {
            if b.len() % 2 == 0 && b.len() > 0 {
                "Trailing separator in matrix literal: each separator must be followed by a value"@
            } else {
                ragged_message(final_rows(b))
            }
        } else if t == Token::Delimiter(';') {
            "Unexpected ';' in matrix literal: expected a value before ';'"@
        } else if t == Token::Delimiter(',') {
            "Unexpected ',' in matrix literal: expected a value before ','"@
        } else if t matches Token::Literal(Literal::Integer(_)) {
            "Unexpected integer in matrix literal: expected ',' or ';' or ']' after value"@
        } else if t matches Token::Literal(Literal::FloatBits(_)) {
            "Unexpected float in matrix literal: expected ',' or ';' or ']' after value"@
        } else {
            "Unexpected token in matrix literal: "@ + token_debug(t)
        }
    }
}

/// The report on a literal that does not parse: what was found in place of
/// `[`, or why reading stopped.
pub open spec fn matrix_failure(tokens: Seq<Token>) -> Seq<char> {
    if tokens.len() == 0 {
        "Matrix literal must begin with '[', found None"@
    } else if tokens[0] != Token::Delimiter('[') {
        "Matrix literal must begin with '[', found Some("@ + token_debug(tokens[0]) + ")"@
    } else {
        stop_message(tokens, choose|p: int| stops_at(tokens, p))
    }
}

/// Reading stops at one position only.
proof fn lemma_stop_unique(tokens: Seq<Token>, p: int, q: int)
    requires
        stops_at(tokens, p),
        stops_at(tokens, q),
    ensures
        p == q,
{
    if p < q {
        assert(tokens.subrange(1, q)[p - 1] == tokens[p]);
    } else if q < p {
        assert(tokens.subrange(1, p)[q - 1] == tokens[q]);
    }
}

/// Where reading stops at `p`, the failure report is the one for `p`.
proof fn lemma_failure_at(tokens: Seq<Token>, p: int)
    requires
        tokens.len() > 0,
        tokens[0] == Token::Delimiter('['),
        stops_at(tokens, p),
    ensures
        matrix_failure(tokens) == stop_message(tokens, p),
{
    let q = choose|q: int| stops_at(tokens, q);
    lemma_stop_unique(tokens, p, q);
}

/// The first ragged row is the one a scan from the top finds.
proof fn lemma_first_ragged(fr: Seq<nat>, i: int)
    requires
        0 < i < fr.len(),
        fr[i] != fr[0],
        forall|j: int| 0 <= j < i ==> #[trigger] fr[j] == fr[0],
    ensures
        first_ragged_row(fr) == i,
{
    let k = first_ragged_row(fr);
    assert(0 < k < fr.len() && fr[k] != fr[0] && forall|j: int| 0 <= j < k ==> #[trigger] fr[j] == fr[0]);
    if k < i {
        assert(fr[k] == fr[0]);
    } else if i < k {
        assert(fr[i] == fr[0]);
    }
}

/// Whether a token is the delimiter `c`.
fn is_delim(t: &Token, c: char) -> (r: bool)
    ensures
        r == (*t == Token::Delimiter(c)),
{
    match t {
        Token::Delimiter(d) => *d == c,
        _ => false,
    }
}

fn matrix_error(msg: &str) -> (r: OnuError)
    ensures
        r matches OnuError::GrammarViolation { message, span } && message@ == msg@
            && span == (Span { start: 0, end: 0, line: 0, column: 0 }),
{
    OnuError::GrammarViolation { message: crate::text::owned(msg), span: Span::empty() }
}

/// Reading one more token of the body extends the element list.
proof fn lemma_elements_push(b: Seq<Token>, t: Token)
    ensures
        matrix_elements(b.push(t)) == if is_matrix_value(t) {
            matrix_elements(b).push(element_expr(t))
        } else {
            matrix_elements(b)
        },
        row_lengths(b.push(t)) == if is_matrix_value(t) {
            (row_lengths(b).0, row_lengths(b).1 + 1)
        } else if t == Token::Delimiter(';') {
            (row_lengths(b).0.push(row_lengths(b).1), 0nat)
        } else {
            row_lengths(b)
        },
{
    assert(b.push(t).drop_last() =~= b);
}

/// Parses a matrix literal at the start of `tokens`.
///
/// Grammar: `'[' (value ((',' | ';') value)*)? ']'` where a value is an
/// integer or float literal; `,` separates elements of a row and `;` rows.
/// Returns the matrix expression and the number of tokens consumed.
pub fn parse_matrix(tokens: &[Token]) -> (r: Result<(Expression, usize), OnuError>)
    ensures
        r is Ok <==> exists|k: int| matrix_at(tokens@, k),
        r matches Ok((e, n)) ==> {
            let b = tokens@.subrange(1, n - 1);
            &&& matrix_at(tokens@, n - 1)
            &&& e matches Expression::Matrix { rows, cols, data } && {
                &&& rows == final_rows(b).len()
                &&& cols == if final_rows(b).len() == 0 { 0 } else { final_rows(b)[0] }
                &&& data@ == matrix_elements(b)
            }
        },
        r matches Err(e) ==> e matches OnuError::GrammarViolation { message, span }
            && message@ == matrix_failure(tokens@)
            && span == (Span { start: 0, end: 0, line: 0, column: 0 }),
{
    if tokens.len() == 0 {
        return Err(matrix_error("Matrix literal must begin with '[', found None"));
    }
    if !is_delim(&tokens[0], '[') {
        let found = debug_token(&tokens[0]);
        let m = concat3("Matrix literal must begin with '[', found Some(", found.as_str(), ")");
        return Err(matrix_error(m.as_str()));
    }
    let mut pos: usize = 1;
    let mut data: Vec<Expression> = Vec::new();
    let mut rows: Vec<usize> = Vec::new();
    let mut cur: usize = 0;
    let mut expect_value = true;

    loop
        invariant
            1 <= pos <= tokens@.len(),
            tokens@[0] == Token::Delimiter('['),
            ({
                let b = tokens@.subrange(1, pos as int);
                &&& forall|i: int| 0 <= i < b.len() ==> (if i % 2 == 0 {
                    is_matrix_value(#[trigger] b[i])
                } else {
                    is_matrix_sep(b[i])
                })
                &&& expect_value == (b.len() % 2 == 0)
                &&& data@ == matrix_elements(b)
                &&& rows@.map_values(|x: usize| x as nat) == row_lengths(b).0
                &&& cur as nat == row_lengths(b).1
                &&& cur <= b.len() && rows@.len() <= b.len()
            }),
        decreases tokens.len() - pos,
    {
        let ghost b = tokens@.subrange(1, pos as int);
        let ghost p0 = pos as int;
        if pos >= tokens.len() {
            proof {
                lemma_failure_at(tokens@, pos as int);
                assert forall|k: int| !matrix_at(tokens@, k) by {
                    if matrix_at(tokens@, k) {
                        assert(k < tokens@.len());
                        assert(b[k - 1] == tokens@[k]);
                    }
                }
            }
            return Err(matrix_error("Unterminated matrix literal: expected ']'"));
        }
        let t = &tokens[pos];
        assert(tokens@.subrange(1, pos + 1) =~= b.push(*t));
        proof {
            lemma_elements_push(b, *t);
        }
        if is_delim(t, ']') {
            proof {
                if b.len() > 0 {
                    lemma_rows_nonempty(b);
                }
                assert(!continues(tokens@, pos as int));
                assert(stops_at(tokens@, pos as int));
                lemma_failure_at(tokens@, pos as int);
            }
            if expect_value && (cur > 0 || rows.len() > 0) {
                proof {
                    assert forall|k: int| !matrix_at(tokens@, k) by {
                        if matrix_at(tokens@, k) {
                            if k < pos {
                                assert(b[k - 1] == tokens@[k]);
                            } else if k > pos {
                                assert(tokens@.subrange(1, k)[pos - 1] == tokens@[pos as int]);
                            } else {
                                assert(tokens@.subrange(1, k) =~= b);
                                assert(b.len() > 0) by {
                                    if b.len() == 0 {
                                        assert(b =~= Seq::<Token>::empty());
                                    }
                                }
                            }
                        }
                    }
                }
                return Err(matrix_error("Trailing separator in matrix literal: each separator must be followed by a value"));
            }
            if cur > 0 {
                rows.push(cur);
            }
            pos = pos + 1;
            // Rectangularity: every row as long as the first.
            let cols: usize = if rows.len() == 0 { 0 } else { rows[0] };
            let ghost fr = final_rows(b);
            assert(rows@.map_values(|x: usize| x as nat) == fr) by {
                assert(rows@.map_values(|x: usize| x as nat) =~= fr);
            }
            let mut i: usize = 0;
            #[verifier::loop_isolation(false)]
            while i < rows.len()
                invariant
                    i <= rows@.len(),
                    rows@.map_values(|x: usize| x as nat) == fr,
                    cols == if rows@.len() == 0 { 0 } else { rows@[0] },
                    forall|j: int| 0 <= j < i ==> #[trigger] fr[j] == fr[0],
                decreases rows.len() - i,
            {
                assert(fr[i as int] == rows@[i as int] as nat);
                if rows[i] != cols {
                    let m1 = count_text(cols);
                    let m2 = count_text(i);
                    let m3 = count_text(rows[i]);
                    let ma = concat3("Matrix is not rectangular: row 0 has ", m1.as_str(), " columns but row ");
                    let mb = concat3(ma.as_str(), m2.as_str(), " has ");
                    let m = concat2(mb.as_str(), m3.as_str());
                    proof {
                        assert(fr[0] == rows@[0] as nat);
                        assert(i > 0);
                        lemma_first_ragged(fr, i as int);
                        assert(fr[i as int] == rows@[i as int] as nat);
                        assert forall|k: int| !matrix_at(tokens@, k) by {
                            if matrix_at(tokens@, k) {
                                if k < pos - 1 {
                                    assert(b[k - 1] == tokens@[k]);
                                } else if k > pos - 1 {
                                    assert(tokens@.subrange(1, k)[pos - 2] == tokens@[pos - 1]);
                                } else {
                                    assert(tokens@.subrange(1, k) =~= b);
                                    assert(fr[i as int] == fr[0]);
                                }
                            }
                        }
                    }
                    return Err(matrix_error(m.as_str()));
                }
                i = i + 1;
            }
            proof {
                assert(tokens@.subrange(1, pos - 1) =~= b);
                if b.len() > 0 && b.len() % 2 == 0 {
                    lemma_rows_nonempty(b);
                }
                assert(rectangular(fr));
                assert(matrix_at(tokens@, pos - 1));
            }
            let nrows = rows.len();
            return Ok((Expression::Matrix { rows: nrows, cols, data }, pos));
        } else if is_delim(t, ';') {
            if expect_value {
                proof { lemma_no_matrix_at_bad(tokens@, pos as int); lemma_failure_at(tokens@, pos as int); }
                return Err(matrix_error("Unexpected ';' in matrix literal: expected a value before ';'"));
            }
            rows.push(cur);
            cur = 0;
            pos = pos + 1;
            expect_value = true;
            assert(rows@.map_values(|x: usize| x as nat) =~= row_lengths(tokens@.subrange(1, pos as int)).0);
        } else if is_delim(t, ',') {
            if expect_value {
                proof { lemma_no_matrix_at_bad(tokens@, pos as int); lemma_failure_at(tokens@, pos as int); }
                return Err(matrix_error("Unexpected ',' in matrix literal: expected a value before ','"));
            }
            pos = pos + 1;
            expect_value = true;
        } else {
            match t {
                Token::Literal(Literal::Integer(n)) => {
                    if !expect_value {
                        proof { lemma_no_matrix_at_bad(tokens@, pos as int); lemma_failure_at(tokens@, pos as int); }
                        return Err(matrix_error("Unexpected integer in matrix literal: expected ',' or ';' or ']' after value"));
                    }
                    let n = *n;
                    let e = if n >= -9223372036854775808i128 && n <= 9223372036854775807i128 {
                        Expression::I64(n as i64)
                    } else {
                        Expression::I128(n)
                    };
                    data.push(e);
                    cur = cur + 1;
                    pos = pos + 1;
                    expect_value = false;
                },
                Token::Literal(Literal::FloatBits(bits)) => {
                    if !expect_value {
                        proof { lemma_no_matrix_at_bad(tokens@, pos as int); lemma_failure_at(tokens@, pos as int); }
                        return Err(matrix_error("Unexpected float in matrix literal: expected ',' or ';' or ']' after value"));
                    }
                    data.push(Expression::F64(*bits));
                    cur = cur + 1;
                    pos = pos + 1;
                    expect_value = false;
                },
                _ => {
                    proof { lemma_no_matrix_at_bad(tokens@, pos as int); lemma_failure_at(tokens@, pos as int); }
                    let found = debug_token(t);
                    let m = concat2("Unexpected token in matrix literal: ", found.as_str());
                    return Err(matrix_error(m.as_str()));
                },
            }
        }
    }
}

/// A body that starts with a value has a row, closed or open.
proof fn lemma_rows_nonempty(b: Seq<Token>)
    requires
        b.len() > 0,
        is_matrix_value(b[0]),
    ensures
        row_lengths(b).0.len() > 0 || row_lengths(b).1 > 0,
    decreases b.len(),
{
    if b.len() > 1 {
        lemma_rows_nonempty(b.drop_last());
    }
}

/// Once the body read so far alternates properly, a token at `pos` that
/// breaks the alternation (and is not `]`) rules out every matrix literal.
proof fn lemma_no_matrix_at_bad(tokens: Seq<Token>, pos: int)
    requires
        1 <= pos < tokens.len(),
        tokens[pos] != Token::Delimiter(']'),
        forall|i: int| 0 <= i < pos - 1 ==> (if i % 2 == 0 {
            is_matrix_value(#[trigger] tokens.subrange(1, pos)[i])
        } else {
            is_matrix_sep(tokens.subrange(1, pos)[i])
        }),
        !(if (pos - 1) % 2 == 0 {
            is_matrix_value(tokens[pos])
        } else {
            is_matrix_sep(tokens[pos])
        }),
    ensures
        forall|k: int| !matrix_at(tokens, k),
{
    assert forall|k: int| !matrix_at(tokens, k) by {
        if matrix_at(tokens, k) {
            if k > pos {
                let b = tokens.subrange(1, k);
                assert(b[pos - 1] == tokens[pos]);
            }
            if k < pos {
                let p = tokens.subrange(1, pos);
                assert(p[k - 1] == tokens[k]);
            }
        }
    }
}

} // verus!
