use onu_refactor::mir::{MirBinOp, MirInstruction, MirLiteral, MirOperand, MirTerminator};
use onu_refactor::mir_builder::MirBuilder;
use onu_refactor::types::OnuType;

#[test]
fn test_resolve_variable_consumed() {
    let mut builder = MirBuilder::new("test".to_string(), OnuType::Nothing);
    builder.enter_scope();
    builder.define_variable("x", 10, OnuType::I64, false);

    assert_eq!(builder.resolve_variable("x"), Some(10));

    builder.mark_consumed(10);

    assert_eq!(builder.resolve_variable("x"), None, "resolve_variable should return None for consumed variables");
}

#[test]
fn inner_scope_shadows_and_exit_restores() {
    let mut b = MirBuilder::new("f".to_string(), OnuType::I64);
    b.define_variable("x", 1, OnuType::I64, false);
    b.enter_scope();
    b.define_variable("x", 2, OnuType::Boolean, true);
    assert_eq!(b.resolve_variable("x"), Some(2));
    assert_eq!(b.resolve_variable_type("x"), Some(OnuType::Boolean));
    assert!(b.resolve_variable_is_observation("x"));
    b.exit_scope();
    assert_eq!(b.resolve_variable("x"), Some(1));
    assert!(!b.resolve_variable_is_observation("x"));
    assert_eq!(b.resolve_variable("y"), None);
}

#[test]
fn fresh_ssa_counts_up() {
    let mut b = MirBuilder::new("f".to_string(), OnuType::I64);
    assert_eq!(b.new_ssa(), 0);
    assert_eq!(b.new_ssa(), 1);
    assert_eq!(b.new_ssa(), 2);
}

#[test]
fn emit_goes_to_current_block_only() {
    let mut b = MirBuilder::new("f".to_string(), OnuType::I64);
    let next = b.create_block();
    assert_eq!(next, 1);
    b.build_assign(0, MirOperand::Constant(MirLiteral::I64(5)));
    b.switch_to_block(next);
    assert_eq!(b.get_current_block_id(), Some(1));
    b.build_binop(1, MirBinOp::Add, MirOperand::Variable(0, false), MirOperand::Constant(MirLiteral::I64(1)), OnuType::I64);
    b.terminate(MirTerminator::Return(MirOperand::Variable(1, false)));
    b.clear_current_block();
    assert_eq!(b.get_current_block_id(), None);
    b.build_assign(9, MirOperand::Constant(MirLiteral::I64(9)));
    let f = b.build();
    assert_eq!(f.blocks.len(), 2);
    assert_eq!(f.blocks[0].instructions, vec![MirInstruction::Assign { dest: 0, src: MirOperand::Constant(MirLiteral::I64(5)) }]);
    assert_eq!(f.blocks[1].instructions.len(), 1);
    assert_eq!(f.blocks[1].terminator, MirTerminator::Return(MirOperand::Variable(1, false)));
    assert_eq!(f.blocks[0].terminator, MirTerminator::Unreachable);
}

#[test]
fn switch_to_missing_block_is_ignored() {
    let mut b = MirBuilder::new("f".to_string(), OnuType::I64);
    b.switch_to_block(7);
    assert_eq!(b.get_current_block_id(), Some(0));
}

#[test]
fn string_tuple_marks_dynamic() {
    let mut b = MirBuilder::new("f".to_string(), OnuType::Strings);
    assert!(!b.resolve_ssa_is_dynamic(3));
    b.build_string_tuple(3, MirOperand::Constant(MirLiteral::I64(2)), MirOperand::Variable(2, false), true);
    assert!(b.resolve_ssa_is_dynamic(3));
    let f = b.build();
    assert_eq!(
        f.blocks[0].instructions[0],
        MirInstruction::Tuple {
            dest: 3,
            elements: vec![
                MirOperand::Constant(MirLiteral::I64(2)),
                MirOperand::Variable(2, false),
                MirOperand::Constant(MirLiteral::Boolean(true)),
            ],
        }
    );
}

#[test]
fn consumed_set_round_trip_and_scope_listing() {
    let mut b = MirBuilder::new("f".to_string(), OnuType::I64);
    b.add_arg("n".to_string(), OnuType::I64, 0);
    assert_eq!(b.resolve_ssa_type(0), Some(OnuType::I64));
    b.define_variable("a", 4, OnuType::I64, false);
    b.define_variable("s", 5, OnuType::Strings, false);
    b.mark_consumed(5);
    assert!(b.is_consumed(5));
    assert_eq!(b.get_current_scope_variables(), vec![(4, OnuType::I64)]);
    let saved = b.get_consumed_vars();
    b.mark_consumed(4);
    assert!(b.is_consumed(4));
    b.set_consumed_vars(saved);
    assert!(!b.is_consumed(4));
    assert!(b.is_consumed(5));
}

#[test]
fn scope_exit_restores_shadowed_names() {
    let mut b = MirBuilder::new("f".to_string(), OnuType::I64);
    b.define_variable("x", 1, OnuType::I64, false);
    b.enter_scope();
    b.define_variable("x", 2, OnuType::Boolean, true);
    b.define_variable("y", 3, OnuType::I64, false);
    assert_eq!(b.resolve_variable("x"), Some(2));
    b.exit_scope();
    assert_eq!(b.resolve_variable("x"), Some(1));
    assert_eq!(b.resolve_variable("y"), None);
    assert!(!b.resolve_variable_is_observation("x"));
}

#[test]
fn build_returns_blocks_in_creation_order_with_their_instructions() {
    let mut b = MirBuilder::new("f".to_string(), OnuType::I64);
    b.add_arg("x".to_string(), OnuType::I64, 0);
    b.add_arg("y".to_string(), OnuType::I64, 1);
    let second = b.create_block();
    b.emit(MirInstruction::Assign { dest: 2, src: MirOperand::Variable(0, false) });
    b.terminate(MirTerminator::Branch(second));
    b.switch_to_block(second);
    b.emit(MirInstruction::Assign { dest: 3, src: MirOperand::Variable(1, false) });
    b.emit(MirInstruction::Assign { dest: 4, src: MirOperand::Variable(3, false) });
    let third = b.create_block();
    let f = b.build();
    assert_eq!(f.name, "f");
    assert_eq!(f.args.len(), 2);
    assert_eq!(f.args[0].name, "x");
    assert_eq!(f.args[1].ssa_var, 1);
    assert_eq!(f.blocks.len(), 3);
    for (i, blk) in f.blocks.iter().enumerate() {
        assert_eq!(blk.id, i);
    }
    assert_eq!(f.blocks[0].instructions.len(), 1);
    assert_eq!(f.blocks[0].terminator, MirTerminator::Branch(1));
    assert_eq!(f.blocks[1].instructions.len(), 2);
    assert_eq!(f.blocks[1].instructions[1], MirInstruction::Assign { dest: 4, src: MirOperand::Variable(3, false) });
    assert_eq!(f.blocks[1].terminator, MirTerminator::Unreachable);
    assert_eq!(third, 2);
    assert!(f.blocks[2].instructions.is_empty());
}

#[test]
fn last_recorded_type_wins() {
    let mut b = MirBuilder::new("f".to_string(), OnuType::Nothing);
    assert_eq!(b.resolve_ssa_type(3), None);
    b.set_ssa_type(3, OnuType::I64);
    b.set_ssa_type(4, OnuType::Boolean);
    b.add_arg("a".to_string(), OnuType::Strings, 3);
    assert_eq!(b.resolve_ssa_type(3), Some(OnuType::Strings));
    assert_eq!(b.resolve_ssa_type(4), Some(OnuType::Boolean));
    assert_eq!(b.resolve_ssa_type(5), None);
}
