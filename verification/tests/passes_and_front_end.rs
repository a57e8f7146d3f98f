use onu_refactor::ast::{Argument, BehaviorHeader, Discourse, Expression, ReturnType, TypeInfo};
use onu_refactor::hir::{HirDiscourse, HirExpression, HirLiteral};
use onu_refactor::intrinsics::{HardwareIntrinsicPort, IntrinsicFactory, KnownBehavior};
use onu_refactor::layout::LayoutService;
use onu_refactor::lowering::LoweringService;
use onu_refactor::mir::{BasicBlock, MirBinOp, MirFunction, MirInstruction, MirLiteral, MirOperand, MirProgram, MirTerminator};
use onu_refactor::options::LogLevel;
use onu_refactor::promotion::PromotionPass;
use onu_refactor::tokens::Token;
use onu_refactor::types::OnuType;

fn func(name: &str, ret: OnuType, instructions: Vec<MirInstruction>, term: MirTerminator) -> MirFunction {
    MirFunction {
        name: name.to_string(),
        args: vec![],
        return_type: ret,
        blocks: vec![BasicBlock { id: 0, instructions, terminator: term }],
        is_pure_data_leaf: true,
        diminishing: vec![],
        memo_cache_size: None,
    }
}

fn call(dest: usize, name: &str) -> MirInstruction {
    MirInstruction::Call { dest, name: name.to_string(), args: vec![], return_type: OnuType::I64, arg_types: vec![], is_tail_call: false }
}

#[test]
fn promotion_widens_values_derived_from_wide_calls() {
    let f = func(
        "f",
        OnuType::WideInt(128),
        vec![
            call(1, "g"),
            MirInstruction::BinaryOperation {
                dest: 2,
                op: MirBinOp::Add,
                lhs: MirOperand::Variable(1, false),
                rhs: MirOperand::Constant(MirLiteral::I64(1)),
                dest_type: OnuType::I64,
            },
        ],
        MirTerminator::Return(MirOperand::Variable(2, false)),
    );
    let g = func("g", OnuType::WideInt(128), vec![], MirTerminator::Return(MirOperand::Constant(MirLiteral::I64(5))));
    let out = PromotionPass::run(MirProgram { functions: vec![f, g] });
    let f = &out.functions[0];
    let insts = &f.blocks[0].instructions;
    assert_eq!(insts.len(), 3);
    assert_eq!(
        insts[0],
        MirInstruction::Call { dest: 1, name: "g".to_string(), args: vec![], return_type: OnuType::WideInt(128), arg_types: vec![], is_tail_call: false }
    );
    assert_eq!(
        insts[1],
        MirInstruction::Promote { dest: 3, src: MirOperand::Constant(MirLiteral::I64(1)), to_type: OnuType::WideInt(128) }
    );
    assert_eq!(
        insts[2],
        MirInstruction::BinaryOperation {
            dest: 2,
            op: MirBinOp::Add,
            lhs: MirOperand::Variable(1, false),
            rhs: MirOperand::Variable(3, false),
            dest_type: OnuType::I64,
        }
    );
    assert_eq!(f.blocks[0].terminator, MirTerminator::Return(MirOperand::Variable(2, false)));
    let g = &out.functions[1];
    assert!(g.blocks[0].instructions.is_empty());
    assert_eq!(g.blocks[0].terminator, MirTerminator::Return(MirOperand::Constant(MirLiteral::I64(5))));
}

#[test]
fn promotion_promotes_a_narrow_return() {
    let f = func(
        "f",
        OnuType::WideInt(256),
        vec![call(4, "f")],
        MirTerminator::Return(MirOperand::Constant(MirLiteral::I64(0))),
    );
    let out = PromotionPass::run(MirProgram { functions: vec![f] });
    let b = &out.functions[0].blocks[0];
    assert_eq!(b.instructions.len(), 2);
    assert_eq!(
        b.instructions[1],
        MirInstruction::Promote { dest: 5, src: MirOperand::Constant(MirLiteral::I64(0)), to_type: OnuType::WideInt(256) }
    );
    assert_eq!(b.terminator, MirTerminator::Return(MirOperand::Variable(5, false)));
}

#[test]
fn promotion_leaves_narrow_programs_alone() {
    let f = func("f", OnuType::I64, vec![call(1, "g")], MirTerminator::Return(MirOperand::Variable(1, false)));
    let out = PromotionPass::run(MirProgram { functions: vec![f] });
    assert_eq!(out.functions[0].blocks[0].instructions[0], call(1, "g"));
}

#[test]
fn intrinsic_factory_picks_by_target() {
    let x86 = IntrinsicFactory::create("x86_64-unknown-linux-gnu");
    assert_eq!(x86.name(), "x86_64-sha-ni");
    assert!(x86.supports(&KnownBehavior::AesEncryptRound));
    assert!(!x86.supports(&KnownBehavior::RotateRight));
    let arm = IntrinsicFactory::create("arm64-apple-darwin");
    assert_eq!(arm.target_triple(), "aarch64-unknown-linux-gnu");
    assert!(arm.supports(&KnownBehavior::Sha256Compress));
    assert!(!arm.supports(&KnownBehavior::AesEncryptRound));
    let soft = IntrinsicFactory::create("riscv64gc-unknown-linux-gnu");
    assert_eq!(soft.name(), "software-fallback");
    assert!(!soft.supports(&KnownBehavior::Sha256Compress));
    assert_eq!(IntrinsicFactory::create("x86-64").name(), "x86_64-sha-ni");
}

#[test]
fn layout_makes_indentation_explicit() {
    let mut layout = LayoutService::new(LogLevel::Off);
    let tokens = vec![
        Token::LineStart(0),
        Token::Identifier("a".to_string()),
        Token::LineStart(2),
        Token::Identifier("b".to_string()),
        Token::LineStart(0),
        Token::Identifier("c".to_string()),
    ];
    let out = layout.process("a\n  b\nc\n", tokens);
    assert_eq!(
        out,
        vec![
            Token::LineStart(0),
            Token::Identifier("a".to_string()),
            Token::Indent,
            Token::LineStart(2),
            Token::Identifier("b".to_string()),
            Token::Dedent,
            Token::LineStart(0),
            Token::Identifier("c".to_string()),
        ]
    );
}

#[test]
fn layout_passes_over_comment_lines_and_closes_levels() {
    let mut layout = LayoutService::new(LogLevel::Off);
    let tokens = vec![
        Token::LineStart(0),
        Token::Identifier("a".to_string()),
        Token::LineStart(2),
        Token::Identifier("b".to_string()),
    ];
    let out = layout.process("a\n   -- note\n  b", tokens);
    assert_eq!(
        out,
        vec![
            Token::LineStart(0),
            Token::Identifier("a".to_string()),
            Token::Indent,
            Token::LineStart(2),
            Token::Identifier("b".to_string()),
            Token::Dedent,
        ]
    );
}

#[test]
fn layout_drops_line_starts_past_the_last_line() {
    let mut layout = LayoutService::new(LogLevel::Off);
    let out = layout.process("x\n\n", vec![Token::LineStart(0), Token::LineStart(4)]);
    assert_eq!(out, vec![Token::LineStart(0)]);
}

fn header(name: &str) -> BehaviorHeader {
    BehaviorHeader {
        name: name.to_string(),
        is_effect: false,
        intent: String::new(),
        takes: vec![Argument {
            name: "n".to_string(),
            type_info: TypeInfo { onu_type: OnuType::I64, display_name: "integer".to_string(), via_role: None, is_observation: true },
        }],
        delivers: ReturnType(OnuType::I64),
        diminishing: Some("n".to_string()),
        skip_termination_check: false,
    }
}

#[test]
fn lowering_adds_command_line_arguments_to_entry_points() {
    let d = Discourse::Behavior { header: header("run"), body: Expression::I128(5) };
    match LoweringService::lower_discourse(&d) {
        HirDiscourse::Behavior { header, body } => {
            assert_eq!(header.args.len(), 3);
            assert_eq!(header.args[0].name, "__argc");
            assert_eq!(header.args[0].typ, OnuType::I32);
            assert_eq!(header.args[1].name, "__argv");
            assert_eq!(header.args[1].typ, OnuType::U64);
            assert_eq!(header.args[2].name, "n");
            assert!(header.args[2].is_observation);
            assert_eq!(header.diminishing, vec!["n".to_string()]);
            assert_eq!(body, HirExpression::Literal(HirLiteral::I64(5)));
        }
        other => panic!("expected a behavior, got {:?}", other),
    }
}

#[test]
fn lowering_keeps_the_shape_of_expressions() {
    let body = Expression::BehaviorCall {
        name: "add".to_string(),
        args: vec![Expression::Identifier("n".to_string()), Expression::Broadcasts(Box::new(Expression::U8(7)))],
    };
    let d = Discourse::Behavior { header: header("helper"), body };
    match LoweringService::lower_discourse(&d) {
        HirDiscourse::Behavior { header, body } => {
            assert_eq!(header.args.len(), 1);
            assert_eq!(
                body,
                HirExpression::Call {
                    name: "add".to_string(),
                    args: vec![
                        HirExpression::Variable("n".to_string(), false),
                        HirExpression::Emit(Box::new(HirExpression::Literal(HirLiteral::I64(7)))),
                    ],
                }
            );
        }
        other => panic!("expected a behavior, got {:?}", other),
    }
}

#[test]
fn lowering_copies_modules() {
    let d = Discourse::Module { name: "m".to_string(), concern: "c".to_string() };
    assert_eq!(
        LoweringService::lower_discourse(&d),
        HirDiscourse::Module { name: "m".to_string(), concern: "c".to_string() }
    );
}

#[test]
fn layout_prefixes_never_close_more_than_they_open() {
    let mut layout = LayoutService::new(LogLevel::Off);
    let tokens = vec![
        Token::LineStart(0),
        Token::Identifier("a".to_string()),
        Token::LineStart(2),
        Token::Identifier("b".to_string()),
        Token::LineStart(4),
        Token::Identifier("c".to_string()),
        Token::LineStart(0),
        Token::Identifier("d".to_string()),
    ];
    let out = layout.process("a\n  b\n    c\nd\n", tokens.clone());
    let mut open: i64 = 0;
    for t in &out {
        match t {
            Token::Indent => open += 1,
            Token::Dedent => open -= 1,
            _ => {}
        }
        assert!(open >= 0);
    }
    assert_eq!(open, 0);
    let content = |s: &[Token]| -> Vec<Token> {
        s.iter()
            .filter(|t| !matches!(t, Token::Indent | Token::Dedent | Token::LineStart(_)))
            .cloned()
            .collect()
    };
    assert_eq!(content(&out), content(&tokens));
    let again = layout.process("a\n  b\n    c\nd\n", tokens);
    assert_eq!(again, out);
}
