use onu_refactor::error::OnuError;
use onu_refactor::hir::{HirBehaviorHeader, HirDiscourse, HirExpression, HirLiteral};
use onu_refactor::idiom::IdiomRecognizerPass;
use onu_refactor::lexer::OnuLexer;
use onu_refactor::lifetime::LifetimePass;
use onu_refactor::mir::{BasicBlock, MirArgument, MirBinOp, MirFunction, MirInstruction, MirLiteral, MirOperand, MirProgram, MirTerminator};
use onu_refactor::safety;
use onu_refactor::tokens::{Literal, Token};
use onu_refactor::types::OnuType;

fn ident(s: &str) -> Token {
    Token::Identifier(s.to_string())
}

#[test]
fn lexer_reads_a_module_header() {
    let toks = OnuLexer::tokenize("the module called MyModule\n    with concern: greeting");
    assert_eq!(
        toks,
        vec![
            Token::TheModuleCalled,
            ident("MyModule"),
            Token::WithConcern,
            Token::Operator(":".to_string()),
            ident("greeting"),
        ]
    );
}

#[test]
fn lexer_reads_literals_and_delimiters() {
    let toks = OnuLexer::tokenize("(x) 42 \"hi there\" true");
    assert_eq!(
        toks,
        vec![
            Token::Delimiter('('),
            ident("x"),
            Token::Delimiter(')'),
            Token::Literal(Literal::Integer(42)),
            Token::Literal(Literal::String("hi there".to_string())),
            Token::Literal(Literal::Boolean(true)),
        ]
    );
}

#[test]
fn lexer_skips_comments_and_joins_phrases() {
    let toks = OnuLexer::tokenize("-- a note\nn falls short of 3");
    assert_eq!(toks, vec![ident("n"), Token::FallsShortOf, Token::Literal(Literal::Integer(3))]);
}

#[test]
fn lexer_keeps_decimals_as_written() {
    let toks = OnuLexer::tokenize("2.5");
    assert_eq!(toks, vec![Token::Literal(Literal::Decimal("2.5".to_string()))]);
}

fn header(name: &str) -> HirBehaviorHeader {
    HirBehaviorHeader {
        name: name.to_string(),
        is_effect: false,
        args: vec![],
        return_type: OnuType::Nothing,
        diminishing: vec![],
        memo_cache_size: None,
    }
}

fn text(s: &str) -> HirExpression {
    HirExpression::Literal(HirLiteral::Text(s.to_string()))
}

fn message_of(r: Result<Vec<onu_refactor::error::Diagnostic>, OnuError>) -> String {
    match r {
        Err(OnuError::GrammarViolation { message, .. }) => message,
        other => panic!("expected a grammar violation, got {:?}", other),
    }
}

#[test]
fn safety_accepts_a_clean_program() {
    let program = vec![HirDiscourse::Behavior { header: header("f"), body: HirExpression::Literal(HirLiteral::Nothing) }];
    assert_eq!(safety::run(&program), Ok(vec![]));
}

#[test]
fn safety_rejects_untyped_text() {
    let body = HirExpression::Derivation {
        name: "s".to_string(),
        typ: OnuType::I64,
        value: Box::new(text("hi")),
        body: Box::new(HirExpression::Literal(HirLiteral::Nothing)),
    };
    let program = vec![HirDiscourse::Behavior { header: header("f"), body }];
    let message = message_of(safety::run(&program));
    assert!(message.contains("S-3"));
    assert!(message.contains("'f'"));
}

#[test]
fn safety_rejects_changing_a_literal_in_place() {
    let body = HirExpression::Derivation {
        name: "s".to_string(),
        typ: OnuType::Strings,
        value: Box::new(text("hi")),
        body: Box::new(HirExpression::Call {
            name: "set-char".to_string(),
            args: vec![
                HirExpression::Variable("s".to_string(), false),
                HirExpression::Literal(HirLiteral::I64(0)),
                HirExpression::Literal(HirLiteral::I64(65)),
            ],
        }),
    };
    let program = vec![HirDiscourse::Behavior { header: header("g"), body }];
    let message = message_of(safety::run(&program));
    assert!(message.contains("S-1"));
    assert!(message.contains("set-char"));
}

fn binop(dest: usize, op: MirBinOp, lhs: MirOperand, rhs: MirOperand) -> MirInstruction {
    MirInstruction::BinaryOperation { dest, op, lhs, rhs, dest_type: OnuType::I64 }
}

fn var(v: usize) -> MirOperand {
    MirOperand::Variable(v, false)
}

fn lit(n: i64) -> MirOperand {
    MirOperand::Constant(MirLiteral::I64(n))
}

fn one_block(name: &str, args: Vec<usize>, instructions: Vec<MirInstruction>) -> MirFunction {
    MirFunction {
        name: name.to_string(),
        args: args.into_iter().map(|v| MirArgument { name: format!("a{}", v), typ: OnuType::I64, ssa_var: v }).collect(),
        return_type: OnuType::I64,
        blocks: vec![BasicBlock { id: 0, instructions, terminator: MirTerminator::Return(var(0)) }],
        is_pure_data_leaf: true,
        diminishing: vec![],
        memo_cache_size: None,
    }
}

#[test]
fn idiom_rotation_becomes_a_funnel_shift() {
    let f = one_block(
        "rotr",
        vec![0],
        vec![binop(1, MirBinOp::Shr, var(0), lit(7)), binop(2, MirBinOp::Shl, var(0), lit(25)), binop(3, MirBinOp::Or, var(1), var(2))],
    );
    let out = IdiomRecognizerPass::run(MirProgram { functions: vec![f] });
    let insts = &out.functions[0].blocks[0].instructions;
    assert_eq!(insts.len(), 3);
    assert_eq!(insts[0], binop(1, MirBinOp::Shr, var(0), lit(7)));
    assert_eq!(insts[2], MirInstruction::FunnelShiftRight { dest: 3, hi: var(0), lo: var(0), amount: lit(7), width: 32 });
}

#[test]
fn idiom_leaves_other_sums_alone() {
    let f = one_block(
        "mix",
        vec![0],
        vec![binop(1, MirBinOp::Shr, var(0), lit(7)), binop(2, MirBinOp::Shl, var(0), lit(20)), binop(3, MirBinOp::Or, var(1), var(2))],
    );
    let out = IdiomRecognizerPass::run(MirProgram { functions: vec![f] });
    assert_eq!(out.functions[0].blocks[0].instructions[2], binop(3, MirBinOp::Or, var(1), var(2)));
}

#[test]
fn lifetime_moves_small_allocations_to_the_stack_and_scopes_the_arena() {
    let f = one_block(
        "helper",
        vec![0],
        vec![
            MirInstruction::Alloc { dest: 1, size_bytes: lit(64) },
            MirInstruction::Alloc { dest: 2, size_bytes: var(0) },
        ],
    );
    let out = LifetimePass::run(MirProgram { functions: vec![f] });
    assert_eq!(
        out.functions[0].blocks[0].instructions,
        vec![
            MirInstruction::SaveArena { dest: 3 },
            MirInstruction::StackAlloc { dest: 1, size_bytes: 64 },
            MirInstruction::Alloc { dest: 2, size_bytes: var(0) },
            MirInstruction::RestoreArena { saved: var(3) },
        ]
    );
}

#[test]
fn lifetime_leaves_the_entry_point_unscoped() {
    let f = one_block("run", vec![0], vec![MirInstruction::Alloc { dest: 1, size_bytes: var(0) }]);
    let out = LifetimePass::run(MirProgram { functions: vec![f] });
    assert_eq!(out.functions[0].blocks[0].instructions, vec![MirInstruction::Alloc { dest: 1, size_bytes: var(0) }]);
}

#[test]
fn lifetime_keeps_an_escaping_buffer_in_the_arena() {
    let mut f = one_block("g", vec![0], vec![MirInstruction::Alloc { dest: 1, size_bytes: lit(64) }]);
    f.blocks[0].terminator = MirTerminator::Return(var(1));
    let out = LifetimePass::run(MirProgram { functions: vec![f] });
    assert_eq!(
        out.functions[0].blocks[0].instructions,
        vec![
            MirInstruction::SaveArena { dest: 2 },
            MirInstruction::Alloc { dest: 1, size_bytes: lit(64) },
            MirInstruction::RestoreArena { saved: var(2) },
        ]
    );
}

#[test]
fn layout_rounds_to_a_multiple_of_the_alignment() {
    let r = onu_refactor::registry_service::RegistryService::new();
    let t = OnuType::Tuple(vec![OnuType::WideInt(24)]);
    let size = r.size_of(&t);
    let align = r.align_of(&t);
    assert_eq!(size % align, 0);
    assert_eq!(size, 3);
    let t2 = OnuType::Tuple(vec![OnuType::I8, OnuType::WideInt(24)]);
    assert_eq!(r.size_of(&t2) % r.align_of(&t2), 0);
}
