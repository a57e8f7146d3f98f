use onu_refactor::error::OnuError;
use onu_refactor::hir::{HirArgument, HirBehaviorHeader, HirBinOp, HirDiscourse, HirExpression, HirLiteral};
use onu_refactor::mir::{MirInstruction, MirLiteral, MirOperand, MirTerminator};
use onu_refactor::mir_builder::MirBuilder;
use onu_refactor::mir_lowering::{hir_size_within, lowering_fits, MirLoweringService};
use onu_refactor::registry_service::RegistryService;
use onu_refactor::types::OnuType;

fn text(s: &str) -> HirExpression {
    HirExpression::Literal(HirLiteral::Text(s.to_string()))
}

fn drops_of(instructions: &[MirInstruction], id: usize) -> usize {
    instructions
        .iter()
        .filter(|inst| matches!(inst, MirInstruction::Drop { ssa_var, .. } if *ssa_var == id))
        .count()
}

fn release_pending(builder: &mut MirBuilder) {
    let pending = builder.take_pending_drops();
    for (var, typ, name, is_dyn) in pending {
        if is_dyn && !builder.is_consumed(var) {
            builder.emit(MirInstruction::Drop { ssa_var: var, typ, name, is_dynamic: is_dyn });
        }
    }
}

#[test]
fn test_double_free_regression() {
    let registry = RegistryService::new();
    let service = MirLoweringService::new(&registry);
    let mut builder = MirBuilder::new("test".to_string(), OnuType::Boolean);

    let ssa_id = 100;
    builder.define_variable("my_resource", ssa_id, OnuType::Strings, false);
    builder.set_ssa_type(ssa_id, OnuType::Strings);
    builder.set_ssa_is_dynamic(ssa_id, true);

    let expr = HirExpression::BinaryOp {
        op: HirBinOp::Equal,
        left: Box::new(HirExpression::Variable("my_resource".to_string(), true)),
        right: Box::new(text("other")),
    };

    let res = service.lower_expression(&expr, &mut builder, false).unwrap();
    service.collect_resource_drop(&res, &mut builder);
    release_pending(&mut builder);

    let func = builder.build();
    let instructions = &func.blocks[0].instructions;
    let drop_count = drops_of(instructions, ssa_id);
    assert_eq!(drop_count, 1, "Resource SSA {} was dropped {} times, expected exactly once. Instructions: {:?}", ssa_id, drop_count, instructions);
}

#[test]
fn test_nested_joined_with_leak() {
    let registry = RegistryService::new();
    let service = MirLoweringService::new(&registry);
    let mut builder = MirBuilder::new("test".to_string(), OnuType::Strings);

    let expr = HirExpression::Call {
        name: "joined-with".to_string(),
        args: vec![
            HirExpression::Call { name: "joined-with".to_string(), args: vec![text("a"), text("b")] },
            text("c"),
        ],
    };

    let res = service.lower_expression(&expr, &mut builder, false).unwrap();
    service.collect_resource_drop(&res, &mut builder);
    release_pending(&mut builder);

    let func = builder.build();
    let instructions = &func.blocks[0].instructions;

    let dynamic_ssas: Vec<usize> = instructions
        .iter()
        .filter_map(|inst| {
            if let MirInstruction::Tuple { dest, elements } = inst {
                if let MirOperand::Constant(MirLiteral::Boolean(true)) = elements[2] {
                    return Some(*dest);
                }
            }
            None
        })
        .collect();

    assert_eq!(dynamic_ssas.len(), 2, "Should have created 2 dynamic strings");

    for ssa_id in dynamic_ssas {
        assert_eq!(drops_of(instructions, ssa_id), 1, "Resource SSA {} should be dropped exactly once", ssa_id);
    }
}

#[test]
fn test_mark_consumed_pending_drops() {
    let mut builder = MirBuilder::new("test".to_string(), OnuType::Nothing);
    let ssa_id = 77;
    builder.set_ssa_type(ssa_id, OnuType::Strings);
    builder.set_ssa_is_dynamic(ssa_id, true);

    builder.schedule_drop(ssa_id, OnuType::Strings);
    assert_eq!(builder.take_pending_drops().len(), 1);

    builder.schedule_drop(ssa_id, OnuType::Strings);
    builder.mark_consumed(ssa_id);

    let remaining = builder.take_pending_drops();
    assert_eq!(remaining.len(), 0, "Pending drops should be cleared when marked consumed!");
}

fn header(name: &str, args: Vec<(&str, OnuType)>, ret: OnuType) -> HirBehaviorHeader {
    HirBehaviorHeader {
        name: name.to_string(),
        is_effect: false,
        args: args
            .into_iter()
            .map(|(n, t)| HirArgument { name: n.to_string(), typ: t, is_observation: false })
            .collect(),
        return_type: ret,
        diminishing: Vec::new(),
        memo_cache_size: None,
    }
}

#[test]
fn program_has_one_function_per_behavior() {
    let registry = RegistryService::new();
    let service = MirLoweringService::new(&registry);
    let ds = vec![
        HirDiscourse::Module { name: "m".to_string(), concern: "c".to_string() },
        HirDiscourse::Behavior {
            header: header("add", vec![("a", OnuType::I64), ("b", OnuType::I64)], OnuType::I64),
            body: HirExpression::BinaryOp {
                op: HirBinOp::Add,
                left: Box::new(HirExpression::Variable("a".to_string(), false)),
                right: Box::new(HirExpression::Variable("b".to_string(), false)),
            },
        },
        HirDiscourse::Behavior {
            header: header("answer", vec![], OnuType::I64),
            body: HirExpression::Literal(HirLiteral::I64(42)),
        },
    ];
    let program = service.lower_program(&ds).unwrap();
    assert_eq!(program.functions.len(), 2);
    let add = &program.functions[0];
    assert_eq!(add.name, "add");
    assert_eq!(add.args.len(), 2);
    assert_eq!(add.args[0].name, "a");
    assert_eq!(add.args[0].ssa_var, 0);
    assert_eq!(add.args[1].ssa_var, 1);
    assert_eq!(add.return_type, OnuType::I64);
    let entry = &add.blocks[0];
    assert!(matches!(
        &entry.instructions[0],
        MirInstruction::BinaryOperation { dest: 2, lhs: MirOperand::Variable(0, false), rhs: MirOperand::Variable(1, false), .. }
    ));
    assert_eq!(entry.terminator, MirTerminator::Return(MirOperand::Variable(2, true)));
    let answer = &program.functions[1];
    assert_eq!(answer.name, "answer");
    assert_eq!(answer.blocks[0].terminator, MirTerminator::Return(MirOperand::Constant(MirLiteral::I64(42))));
}

#[test]
fn unsupported_and_unbound_fail() {
    let registry = RegistryService::new();
    let service = MirLoweringService::new(&registry);
    let tuple = vec![HirDiscourse::Behavior {
        header: header("t", vec![], OnuType::Nothing),
        body: HirExpression::Tuple(vec![]),
    }];
    assert!(service.lower_program(&tuple).is_err());
    let unbound = vec![HirDiscourse::Behavior {
        header: header("u", vec![], OnuType::Nothing),
        body: HirExpression::Variable("x".to_string(), true),
    }];
    assert!(service.lower_program(&unbound).is_err());
}

#[test]
fn tail_conditional_returns_from_each_arm() {
    let registry = RegistryService::new();
    let service = MirLoweringService::new(&registry);
    let ds = vec![HirDiscourse::Behavior {
        header: header("pick", vec![("c", OnuType::Boolean)], OnuType::I64),
        body: HirExpression::If {
            condition: Box::new(HirExpression::Variable("c".to_string(), false)),
            then_branch: Box::new(HirExpression::Literal(HirLiteral::I64(1))),
            else_branch: Box::new(HirExpression::Literal(HirLiteral::I64(2))),
        },
    }];
    let program = service.lower_program(&ds).unwrap();
    let f = &program.functions[0];
    assert_eq!(f.blocks.len(), 3);
    assert_eq!(
        f.blocks[0].terminator,
        MirTerminator::CondBranch { condition: MirOperand::Variable(0, false), then_block: 1, else_block: 2 }
    );
    assert_eq!(f.blocks[1].terminator, MirTerminator::Return(MirOperand::Constant(MirLiteral::I64(1))));
    assert_eq!(f.blocks[2].terminator, MirTerminator::Return(MirOperand::Constant(MirLiteral::I64(2))));
}

#[test]
fn derivation_binds_a_new_variable() {
    let registry = RegistryService::new();
    let service = MirLoweringService::new(&registry);
    let ds = vec![HirDiscourse::Behavior {
        header: header("d", vec![], OnuType::I64),
        body: HirExpression::Derivation {
            name: "x".to_string(),
            typ: OnuType::I64,
            value: Box::new(HirExpression::Literal(HirLiteral::I64(5))),
            body: Box::new(HirExpression::Variable("x".to_string(), false)),
        },
    }];
    let program = service.lower_program(&ds).unwrap();
    let f = &program.functions[0];
    assert_eq!(f.blocks[0].instructions[0], MirInstruction::Assign { dest: 0, src: MirOperand::Constant(MirLiteral::I64(5)) });
    assert_eq!(f.blocks[0].terminator, MirTerminator::Return(MirOperand::Variable(0, false)));
}

#[test]
fn conditional_value_joins_in_a_merge_block() {
    let registry = RegistryService::new();
    let service = MirLoweringService::new(&registry);
    let mut builder = MirBuilder::new("pick".to_string(), OnuType::I64);
    builder.define_variable("c", 7, OnuType::Boolean, false);
    let expr = HirExpression::If {
        condition: Box::new(HirExpression::Variable("c".to_string(), false)),
        then_branch: Box::new(HirExpression::Literal(HirLiteral::I64(1))),
        else_branch: Box::new(HirExpression::Literal(HirLiteral::I64(2))),
    };
    let r = service.lower_if(&expr, &mut builder, false).unwrap();
    assert_eq!(r, MirOperand::Variable(0, false));
    assert_eq!(builder.get_current_block_id(), Some(3));
    let f = builder.build();
    assert_eq!(f.blocks.len(), 4);
    assert_eq!(
        f.blocks[0].terminator,
        MirTerminator::CondBranch { condition: MirOperand::Variable(7, false), then_block: 1, else_block: 2 }
    );
    assert_eq!(f.blocks[1].instructions, vec![MirInstruction::Assign { dest: 0, src: MirOperand::Constant(MirLiteral::I64(1)) }]);
    assert_eq!(f.blocks[1].terminator, MirTerminator::Branch(3));
    assert_eq!(f.blocks[2].instructions, vec![MirInstruction::Assign { dest: 0, src: MirOperand::Constant(MirLiteral::I64(2)) }]);
    assert_eq!(f.blocks[2].terminator, MirTerminator::Branch(3));
    assert_eq!(f.blocks[3].terminator, MirTerminator::Unreachable);
}

#[test]
fn unresolved_variable_names_it() {
    let registry = RegistryService::new();
    let service = MirLoweringService::new(&registry);
    let mut builder = MirBuilder::new("u".to_string(), OnuType::Nothing);
    match service.lower_variable("ghost", true, &mut builder) {
        Err(OnuError::GrammarViolation { message, .. }) => assert_eq!(message, "Unresolved variable: ghost"),
        other => panic!("unexpected {:?}", other),
    }
}

#[test]
fn block_stops_once_no_block_is_current() {
    let registry = RegistryService::new();
    let service = MirLoweringService::new(&registry);
    let mut builder = MirBuilder::new("b".to_string(), OnuType::I64);
    let empty = HirExpression::Block(vec![]);
    assert_eq!(service.lower_block(&empty, &mut builder, false).unwrap(), MirOperand::Constant(MirLiteral::Nothing));
    let tail_if = HirExpression::If {
        condition: Box::new(HirExpression::Literal(HirLiteral::Boolean(true))),
        then_branch: Box::new(HirExpression::Literal(HirLiteral::I64(1))),
        else_branch: Box::new(HirExpression::Literal(HirLiteral::I64(2))),
    };
    service.lower_if(&tail_if, &mut builder, true).unwrap();
    assert_eq!(builder.get_current_block_id(), None);
    let expr = HirExpression::Block(vec![HirExpression::Literal(HirLiteral::I64(5)), text("never lowered")]);
    let r = service.lower_block(&expr, &mut builder, false).unwrap();
    assert_eq!(r, MirOperand::Constant(MirLiteral::I64(5)));
    let f = builder.build();
    assert_eq!(f.blocks.len(), 3);
    assert!(f.blocks.iter().all(|b| b.instructions.is_empty()));
}

#[test]
fn program_fails_with_the_first_failing_behavior() {
    let registry = RegistryService::new();
    let service = MirLoweringService::new(&registry);
    let ds = vec![
        HirDiscourse::Behavior { header: header("ok", vec![], OnuType::I64), body: HirExpression::Literal(HirLiteral::I64(1)) },
        HirDiscourse::Behavior {
            header: header("first", vec![], OnuType::Nothing),
            body: HirExpression::Variable("missing".to_string(), true),
        },
        HirDiscourse::Behavior { header: header("second", vec![], OnuType::Nothing), body: HirExpression::Tuple(vec![]) },
    ];
    match service.lower_program(&ds) {
        Err(OnuError::GrammarViolation { message, .. }) => assert_eq!(message, "Unresolved variable: missing"),
        other => panic!("unexpected {:?}", other),
    }
}

#[test]
fn sizes_are_counted_up_to_a_limit() {
    let sum = HirExpression::BinaryOp {
        op: HirBinOp::Add,
        left: Box::new(HirExpression::Literal(HirLiteral::I64(1))),
        right: Box::new(HirExpression::Literal(HirLiteral::I64(2))),
    };
    assert_eq!(hir_size_within(&sum, 10), Some(3));
    assert_eq!(hir_size_within(&sum, 3), Some(3));
    assert_eq!(hir_size_within(&sum, 2), None);
    let call = HirExpression::Call { name: "f".to_string(), args: vec![sum] };
    assert_eq!(hir_size_within(&call, 100), Some(11));
    assert_eq!(hir_size_within(&call, 10), None);
    let ds = vec![HirDiscourse::Behavior { header: header("f", vec![("a", OnuType::I64)], OnuType::I64), body: call }];
    assert!(lowering_fits(&ds));
}
