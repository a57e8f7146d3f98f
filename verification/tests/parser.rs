use onu_refactor::ast::{Discourse, Expression};
use onu_refactor::options::LogLevel;
use onu_refactor::parser::OnuParser;
use onu_refactor::registry_service::RegistryService;
use onu_refactor::tokens::{Literal, ParserPort, Token};
use onu_refactor::types::OnuType;

fn ident(s: &str) -> Token {
    Token::Identifier(s.to_string())
}

fn colon() -> Token {
    Token::Operator(":".to_string())
}

fn double_behavior() -> Vec<Token> {
    vec![
        Token::TheBehaviorCalled,
        ident("double"),
        Token::Takes,
        colon(),
        ident("an"),
        ident("integer"),
        Token::Called,
        ident("n"),
        Token::Delivers,
        colon(),
        ident("an"),
        ident("integer"),
        Token::As,
        colon(),
        ident("n"),
        Token::AddedTo,
        ident("n"),
    ]
}

#[test]
fn parses_a_module_and_its_concern() {
    let parser = OnuParser::new(LogLevel::Off);
    let tokens = vec![Token::TheModuleCalled, ident("m"), Token::WithConcern, colon(), ident("arithmetic")];
    let ds = parser.parse(tokens).unwrap();
    assert_eq!(ds, vec![Discourse::Module { name: "m".to_string(), concern: "arithmetic".to_string() }]);
}

#[test]
fn parses_a_behavior_header_and_body() {
    let parser = OnuParser::new(LogLevel::Off);
    let ds = parser.parse(double_behavior()).unwrap();
    assert_eq!(ds.len(), 1);
    match &ds[0] {
        Discourse::Behavior { header, body } => {
            assert_eq!(header.name, "double");
            assert!(!header.is_effect);
            assert_eq!(header.takes.len(), 1);
            assert_eq!(header.takes[0].name, "n");
            assert_eq!(header.takes[0].type_info.onu_type, OnuType::I64);
            assert_eq!(header.delivers.0, OnuType::I64);
            assert_eq!(
                *body,
                Expression::BehaviorCall {
                    name: "added-to".to_string(),
                    args: vec![Expression::Identifier("n".to_string()), Expression::Identifier("n".to_string())],
                }
            );
        }
        other => panic!("expected a behavior, got {:?}", other),
    }
}

#[test]
fn scan_headers_registers_behavior_signatures() {
    let parser = OnuParser::new(LogLevel::Off);
    let mut registry = RegistryService::new();
    parser.scan_headers(&double_behavior(), &mut registry).unwrap();
    let sig = registry.get_signature("double").expect("double is registered");
    assert_eq!(sig.input_types, vec![OnuType::I64]);
    assert_eq!(sig.return_type, OnuType::I64);
    assert_eq!(sig.arg_is_observation, vec![false]);
}

#[test]
fn scan_headers_registers_shapes_with_accessors_and_constructor() {
    let parser = OnuParser::new(LogLevel::Off);
    let mut registry = RegistryService::new();
    let tokens = vec![Token::TheShapeCalled, ident("point"), Token::Takes, colon(), ident("an"), ident("integer"), Token::Called, ident("x")];
    parser.scan_headers(&tokens, &mut registry).unwrap();
    assert!(registry.is_shape("point"));
    let ctor = registry.get_signature("point").unwrap();
    assert_eq!(ctor.input_types, vec![OnuType::I64]);
    assert_eq!(ctor.return_type, OnuType::Shape("point".to_string()));
    let accessor = registry.get_signature("x").unwrap();
    assert_eq!(accessor.input_types, vec![OnuType::Shape("point".to_string())]);
    assert_eq!(accessor.arg_is_observation, vec![true]);
}

#[test]
fn zero_arity_behaviors_are_called() {
    let parser = OnuParser::new(LogLevel::Off);
    let mut registry = RegistryService::new();
    let mut tokens = vec![Token::TheBehaviorCalled, ident("zero"), Token::Delivers, Token::Nothing, Token::As, Token::Literal(Literal::Integer(0))];
    tokens.extend(vec![Token::TheBehaviorCalled, ident("run"), Token::As, ident("zero")]);
    parser.scan_headers(&tokens, &mut registry).unwrap();
    let ds = parser.parse_with_registry(tokens, &mut registry).unwrap();
    assert_eq!(ds.len(), 2);
    match &ds[1] {
        Discourse::Behavior { body, .. } => {
            assert_eq!(*body, Expression::BehaviorCall { name: "zero".to_string(), args: vec![] });
        }
        other => panic!("expected a behavior, got {:?}", other),
    }
}

#[test]
fn missing_return_type_is_an_error() {
    let parser = OnuParser::new(LogLevel::Off);
    let tokens = vec![Token::TheBehaviorCalled, ident("f"), Token::Delivers, ident("integer"), Token::As, Token::Nothing];
    assert!(parser.parse(tokens).is_err());
}

#[test]
fn large_integer_literals_become_zero() {
    let parser = OnuParser::new(LogLevel::Off);
    let tokens = vec![Token::TheBehaviorCalled, ident("f"), Token::As, Token::Literal(Literal::Integer(1i128 << 70))];
    let ds = parser.parse(tokens).unwrap();
    match &ds[0] {
        Discourse::Behavior { body, .. } => assert_eq!(*body, Expression::I64(0)),
        other => panic!("expected a behavior, got {:?}", other),
    }
}

#[test]
fn module_with_concern_parses() {
    let tokens = vec![
        Token::TheModuleCalled,
        ident("M"),
        Token::WithConcern,
        colon(),
        ident("c"),
    ];
    let mut registry = RegistryService::new();
    let parsed = OnuParser::new(LogLevel::Off).parse_with_registry(tokens, &mut registry);
    match parsed {
        Ok(ds) => {
            assert_eq!(ds.len(), 1);
            match &ds[0] {
                Discourse::Module { name, concern } => {
                    assert_eq!(name, "M");
                    assert_eq!(concern, "c");
                }
                other => panic!("expected a module, got {:?}", other),
            }
        }
        Err(e) => panic!("expected a parse, got {:?}", e),
    }
}

#[test]
fn plain_header_scan_registers_the_behavior() {
    let tokens = vec![
        Token::TheBehaviorCalled,
        ident("f"),
        Token::Takes,
        colon(),
        Token::Nothing,
        Token::Delivers,
        colon(),
        Token::Nothing,
        Token::As,
        colon(),
        Token::Nothing,
    ];
    let mut registry = RegistryService::new();
    assert!(OnuParser::new(LogLevel::Off).scan_headers(&tokens, &mut registry).is_ok());
    let sig = registry.get_signature("f").expect("f is registered");
    assert!(sig.input_types.is_empty());
    assert!(sig.arg_is_observation.is_empty());
    assert!(matches!(sig.return_type, OnuType::Nothing));
}

#[test]
fn header_clauses_read_tuples_observation_and_last_delivers() {
    let parser = OnuParser::new(LogLevel::Off);
    let mut registry = RegistryService::new();
    let tokens = vec![
        Token::TheBehaviorCalled,
        ident("pick"),
        Token::Takes,
        colon(),
        ident("a"),
        ident("boolean"),
        ident("flag"),
        Token::Takes,
        colon(),
        ident("a"),
        ident("tuple"),
        ident("of"),
        Token::Delimiter('('),
        ident("an"),
        ident("integer"),
        colon(),
        ident("a"),
        ident("boolean"),
        Token::Delimiter(')'),
        Token::Called,
        ident("pair"),
        ident("via"),
        ident("observation"),
        ident("a"),
        ident("strings"),
        ident("label"),
        Token::Delivers,
        Token::Nothing,
        Token::Delivers,
        colon(),
        ident("an"),
        ident("integer"),
        Token::As,
        ident("pair"),
    ];
    parser.scan_headers(&tokens, &mut registry).unwrap();
    let sig = registry.get_signature("pick").expect("pick is registered");
    assert_eq!(
        sig.input_types,
        vec![OnuType::Boolean, OnuType::Tuple(vec![OnuType::I64, OnuType::Boolean]), OnuType::Strings]
    );
    // The arguments run on past the second `takes` (only a unit, `delivers`
    // or `as` ends them); the second `delivers` replaces the first.
    assert_eq!(sig.arg_is_observation, vec![false, true, false]);
    assert_eq!(sig.return_type, OnuType::I64);
}
