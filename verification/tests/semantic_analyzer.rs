use onu_refactor::analyzer::SemanticAnalyzer;
use onu_refactor::error::Severity;
use onu_refactor::hir::{HirArgument, HirBehaviorHeader, HirDiscourse, HirExpression, HirLiteral};
use onu_refactor::types::OnuType;

fn make_behavior(name: &str, args: Vec<HirArgument>, body: HirExpression) -> HirDiscourse {
    HirDiscourse::Behavior {
        header: HirBehaviorHeader {
            name: name.to_string(),
            is_effect: false,
            args,
            return_type: OnuType::I64,
            diminishing: vec![],
            memo_cache_size: None,
        },
        body,
    }
}

#[test]
fn test_no_warning_when_variable_is_used() {
    let body = HirExpression::Derivation {
        name: "x".to_string(),
        typ: OnuType::I64,
        value: Box::new(HirExpression::Literal(HirLiteral::I64(5))),
        body: Box::new(HirExpression::Variable("x".to_string(), true)),
    };
    let discourse = make_behavior("test", vec![], body);
    let diags = SemanticAnalyzer::analyze(&[discourse]);
    assert!(diags.is_empty(), "Expected no warnings but got: {:?}", diags);
}

#[test]
fn test_warning_when_variable_is_unused() {
    let body = HirExpression::Derivation {
        name: "x".to_string(),
        typ: OnuType::I64,
        value: Box::new(HirExpression::Literal(HirLiteral::I64(5))),
        body: Box::new(HirExpression::Literal(HirLiteral::Nothing)),
    };
    let discourse = make_behavior("test", vec![], body);
    let diags = SemanticAnalyzer::analyze(&[discourse]);
    assert_eq!(diags.len(), 1);
    assert_eq!(diags[0].severity, Severity::Warning);
    assert!(diags[0].message.contains("'x'"));
    assert!(diags[0].actionable_hint.is_some());
}

#[test]
fn test_unused_argument_emits_warning() {
    let args = vec![HirArgument { name: "n".to_string(), typ: OnuType::I64, is_observation: false }];
    let body = HirExpression::Literal(HirLiteral::I64(42));
    let discourse = make_behavior("test", args, body);
    let diags = SemanticAnalyzer::analyze(&[discourse]);
    assert_eq!(diags.len(), 1);
    assert_eq!(diags[0].severity, Severity::Warning);
    assert!(diags[0].message.contains("'n'"));
}

#[test]
fn test_used_argument_no_warning() {
    let args = vec![HirArgument { name: "n".to_string(), typ: OnuType::I64, is_observation: false }];
    let body = HirExpression::Variable("n".to_string(), true);
    let discourse = make_behavior("test", args, body);
    let diags = SemanticAnalyzer::analyze(&[discourse]);
    assert!(diags.is_empty(), "Expected no warnings");
}

#[test]
fn test_module_discourse_produces_no_warning() {
    let discourse = HirDiscourse::Module { name: "Foo".to_string(), concern: "testing".to_string() };
    let diags = SemanticAnalyzer::analyze(&[discourse]);
    assert!(diags.is_empty());
}

#[test]
fn synthetic_arguments_are_not_reported_and_messages_are_exact() {
    let args = vec![
        HirArgument { name: "__arena".to_string(), typ: OnuType::Ptr, is_observation: false },
        HirArgument { name: "k".to_string(), typ: OnuType::I64, is_observation: false },
    ];
    let body = HirExpression::Derivation {
        name: "k".to_string(),
        typ: OnuType::I64,
        value: Box::new(HirExpression::Literal(HirLiteral::I64(1))),
        body: Box::new(HirExpression::Literal(HirLiteral::Nothing)),
    };
    let diags = SemanticAnalyzer::analyze(&[make_behavior("b", args, body)]);
    assert_eq!(diags.len(), 1);
    assert_eq!(diags[0].message, "Variable 'k' is defined but never used");
    assert_eq!(
        diags[0].actionable_hint.as_deref(),
        Some("Remove the binding 'k' or prefix it with '_' to silence this warning")
    );
}
