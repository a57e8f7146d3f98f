use onu_refactor::ast::Expression;
use onu_refactor::error::OnuError;
use onu_refactor::error_recovery::{is_discourse_starter, synchronize};
use onu_refactor::matrix_parser::parse_matrix;
use onu_refactor::svo_parser::{parse_read, parse_write};
use onu_refactor::tokens::{Literal, Token};

fn int_token(n: i64) -> Token {
    Token::Literal(Literal::Integer(n as i128))
}

#[test]
fn test_synchronize_skips_to_next_discourse_starter() {
    let tokens = vec![
        Token::Identifier("bad".to_string()),
        Token::Identifier("tokens".to_string()),
        Token::TheBehaviorCalled,
        Token::Identifier("foo".to_string()),
    ];
    let new_pos = synchronize(&tokens, 0);
    assert_eq!(new_pos, 2, "Should skip to TheBehaviorCalled at index 2");
}

#[test]
fn test_synchronize_reaches_eof_when_no_starter() {
    let tokens = vec![Token::Identifier("x".to_string()), Token::Identifier("y".to_string())];
    let new_pos = synchronize(&tokens, 0);
    assert_eq!(new_pos, tokens.len(), "Should advance to EOF");
}

#[test]
fn test_is_discourse_starter() {
    assert!(is_discourse_starter(&Token::TheModuleCalled));
    assert!(is_discourse_starter(&Token::TheBehaviorCalled));
    assert!(is_discourse_starter(&Token::TheEffectBehaviorCalled));
    assert!(is_discourse_starter(&Token::TheShapeCalled));
    assert!(!is_discourse_starter(&Token::Identifier("x".to_string())));
}

#[test]
fn test_synchronize_from_a_starter_stays() {
    let tokens = vec![Token::TheModuleCalled, Token::Identifier("m".to_string())];
    assert_eq!(synchronize(&tokens, 0), 0);
}

#[test]
fn test_parse_2x2_matrix() {
    let tokens = vec![
        Token::Delimiter('['),
        int_token(1), Token::Delimiter(','), int_token(2),
        Token::Delimiter(';'),
        int_token(3), Token::Delimiter(','), int_token(4),
        Token::Delimiter(']'),
    ];
    let (expr, consumed) = parse_matrix(&tokens).unwrap();
    assert_eq!(consumed, tokens.len());
    if let Expression::Matrix { rows, cols, data } = expr {
        assert_eq!(rows, 2);
        assert_eq!(cols, 2);
        assert_eq!(data, vec![Expression::I64(1), Expression::I64(2), Expression::I64(3), Expression::I64(4)]);
    } else {
        panic!("Expected Matrix expression");
    }
}

#[test]
fn test_parse_1x3_row_vector() {
    let tokens = vec![
        Token::Delimiter('['),
        int_token(10), Token::Delimiter(','), int_token(20), Token::Delimiter(','), int_token(30),
        Token::Delimiter(']'),
    ];
    let (expr, consumed) = parse_matrix(&tokens).unwrap();
    assert_eq!(consumed, tokens.len());
    if let Expression::Matrix { rows, cols, .. } = expr {
        assert_eq!(rows, 1);
        assert_eq!(cols, 3);
    } else {
        panic!("Expected Matrix expression");
    }
}

#[test]
fn test_non_rectangular_matrix_fails() {
    let tokens = vec![
        Token::Delimiter('['),
        int_token(1), Token::Delimiter(','), int_token(2),
        Token::Delimiter(';'),
        int_token(3),
        Token::Delimiter(']'),
    ];
    assert!(parse_matrix(&tokens).is_err());
}

#[test]
fn test_double_comma_rejected() {
    let tokens = vec![
        Token::Delimiter('['),
        int_token(1), Token::Delimiter(','), Token::Delimiter(','), int_token(2),
        Token::Delimiter(']'),
    ];
    match parse_matrix(&tokens) {
        Err(OnuError::GrammarViolation { message, .. }) => {
            assert!(message.contains("','"), "error message should mention ',': {}", message);
        }
        other => panic!("Expected GrammarViolation, got {:?}", other),
    }
}

#[test]
fn test_comma_then_semicolon_rejected() {
    let tokens = vec![
        Token::Delimiter('['),
        int_token(1), Token::Delimiter(','), Token::Delimiter(';'), int_token(2),
        Token::Delimiter(']'),
    ];
    assert!(parse_matrix(&tokens).is_err());
}

#[test]
fn test_leading_semicolon_rejected() {
    let tokens = vec![Token::Delimiter('['), Token::Delimiter(';'), Token::Delimiter(']')];
    assert!(parse_matrix(&tokens).is_err());
}

#[test]
fn test_trailing_comma_rejected() {
    let tokens = vec![
        Token::Delimiter('['),
        int_token(1), Token::Delimiter(','), int_token(2), Token::Delimiter(','),
        Token::Delimiter(']'),
    ];
    assert!(parse_matrix(&tokens).is_err());
}

#[test]
fn test_trailing_semicolon_rejected() {
    let tokens = vec![
        Token::Delimiter('['),
        int_token(1), Token::Delimiter(','), int_token(2), Token::Delimiter(';'),
        Token::Delimiter(']'),
    ];
    assert!(parse_matrix(&tokens).is_err());
}

#[test]
fn test_empty_matrix_accepted() {
    let tokens = vec![Token::Delimiter('['), Token::Delimiter(']')];
    let (expr, consumed) = parse_matrix(&tokens).unwrap();
    assert_eq!(consumed, 2);
    if let Expression::Matrix { rows, cols, data } = expr {
        assert_eq!(rows, 0);
        assert_eq!(cols, 0);
        assert!(data.is_empty());
    } else {
        panic!("Expected Matrix expression");
    }
}

#[test]
fn test_matrix_without_closing_bracket_fails() {
    let tokens = vec![Token::Delimiter('['), int_token(1)];
    assert!(parse_matrix(&tokens).is_err());
}

#[test]
fn test_write_identifier_to_console() {
    let tokens = vec![
        Token::Identifier("result".to_string()),
        Token::To,
        Token::Identifier("console".to_string()),
    ];
    let (expr, consumed) = parse_write(&tokens).unwrap();
    assert_eq!(consumed, 3);
    assert!(matches!(expr, Expression::Emit(_)));
}

#[test]
fn test_write_literal_to_console() {
    let tokens = vec![
        Token::Literal(Literal::Integer(42)),
        Token::To,
        Token::Identifier("console".to_string()),
    ];
    let (expr, consumed) = parse_write(&tokens).unwrap();
    assert_eq!(consumed, 3);
    if let Expression::Emit(inner) = expr {
        assert_eq!(*inner, Expression::I64(42));
    } else {
        panic!("Expected Emit expression");
    }
}

#[test]
fn test_write_missing_to_fails() {
    let tokens = vec![Token::Identifier("x".to_string()), Token::Identifier("console".to_string())];
    assert!(parse_write(&tokens).is_err());
}

#[test]
fn test_read_from_console() {
    let tokens = vec![
        Token::Identifier("line".to_string()),
        Token::From,
        Token::Identifier("console".to_string()),
    ];
    let (expr, consumed) = parse_read(&tokens).unwrap();
    assert_eq!(consumed, 3);
    if let Expression::BehaviorCall { name, args } = expr {
        assert_eq!(name, "receives-line");
        assert!(args.is_empty());
    } else {
        panic!("Expected BehaviorCall");
    }
}

#[test]
fn test_write_large_integer_becomes_i128() {
    let big: i128 = (i64::MAX as i128) + 1;
    let tokens = vec![
        Token::Literal(Literal::Integer(big)),
        Token::To,
        Token::Identifier("console".to_string()),
    ];
    let (expr, _) = parse_write(&tokens).unwrap();
    if let Expression::Emit(inner) = expr {
        assert_eq!(*inner, Expression::I128(big));
    } else {
        panic!("Expected Emit expression");
    }
}

fn matrix_message(tokens: &[Token]) -> String {
    match parse_matrix(tokens) {
        Err(OnuError::GrammarViolation { message, .. }) => message,
        other => panic!("expected a grammar violation, got {:?}", other),
    }
}

#[test]
fn matrix_ragged_rows_report_the_counts() {
    let tokens = vec![
        Token::Delimiter('['),
        Token::Literal(Literal::Integer(1)), Token::Delimiter(','), Token::Literal(Literal::Integer(2)),
        Token::Delimiter(';'),
        Token::Literal(Literal::Integer(3)),
        Token::Delimiter(']'),
    ];
    assert_eq!(
        matrix_message(&tokens),
        "Matrix is not rectangular: row 0 has 2 columns but row 1 has 1"
    );
}

#[test]
fn matrix_missing_bracket_reports_what_was_found() {
    assert_eq!(
        matrix_message(&[]),
        "Matrix literal must begin with '[', found None"
    );
    let tokens = vec![Token::Delimiter('(')];
    assert_eq!(
        matrix_message(&tokens),
        "Matrix literal must begin with '[', found Some(Delimiter('('))"
    );
}

#[test]
fn matrix_doubled_comma_names_the_comma() {
    let tokens = vec![
        Token::Delimiter('['),
        Token::Literal(Literal::Integer(1)),
        Token::Delimiter(','),
        Token::Delimiter(','),
        Token::Literal(Literal::Integer(2)),
        Token::Delimiter(']'),
    ];
    assert!(matrix_message(&tokens).contains("','"));
    let unterminated = vec![Token::Delimiter('['), Token::Literal(Literal::Integer(1))];
    assert_eq!(matrix_message(&unterminated), "Unterminated matrix literal: expected ']'");
}
