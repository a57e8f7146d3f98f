use onu_refactor::integer_upgrade::IntegerUpgradePass;
use onu_refactor::mir::{BasicBlock, MirArgument, MirBinOp, MirFunction, MirInstruction, MirLiteral, MirOperand, MirProgram, MirTerminator};
use onu_refactor::types::OnuType;

fn fib_naive_mir() -> MirFunction {
    MirFunction {
        name: "fib-naive".to_string(),
        args: vec![MirArgument { name: "n".to_string(), typ: OnuType::I64, ssa_var: 0 }],
        return_type: OnuType::I64,
        is_pure_data_leaf: true,
        diminishing: vec!["n".to_string()],
        memo_cache_size: None,
        blocks: vec![
            BasicBlock {
                id: 0,
                instructions: vec![MirInstruction::BinaryOperation {
                    dest: 10,
                    op: MirBinOp::Eq,
                    lhs: MirOperand::Variable(0, false),
                    rhs: MirOperand::Constant(MirLiteral::I64(0)),
                    dest_type: OnuType::Boolean,
                }],
                terminator: MirTerminator::CondBranch {
                    condition: MirOperand::Variable(10, false),
                    then_block: 1,
                    else_block: 2,
                },
            },
            BasicBlock {
                id: 1,
                instructions: vec![MirInstruction::Assign { dest: 11, src: MirOperand::Constant(MirLiteral::I64(0)) }],
                terminator: MirTerminator::Return(MirOperand::Variable(11, false)),
            },
            BasicBlock {
                id: 2,
                instructions: vec![
                    MirInstruction::Call {
                        dest: 12,
                        name: "fib-naive".to_string(),
                        args: vec![MirOperand::Variable(0, false)],
                        return_type: OnuType::I64,
                        arg_types: vec![OnuType::I64],
                        is_tail_call: false,
                    },
                    MirInstruction::Call {
                        dest: 13,
                        name: "fib-naive".to_string(),
                        args: vec![MirOperand::Variable(0, false)],
                        return_type: OnuType::I64,
                        arg_types: vec![OnuType::I64],
                        is_tail_call: false,
                    },
                    MirInstruction::BinaryOperation {
                        dest: 14,
                        op: MirBinOp::Add,
                        lhs: MirOperand::Variable(12, false),
                        rhs: MirOperand::Variable(13, false),
                        dest_type: OnuType::I64,
                    },
                ],
                terminator: MirTerminator::Return(MirOperand::Variable(14, false)),
            },
        ],
    }
}

fn run_func_with_call(n: i64) -> MirFunction {
    MirFunction {
        name: "run".to_string(),
        args: vec![],
        return_type: OnuType::I64,
        is_pure_data_leaf: false,
        diminishing: vec![],
        memo_cache_size: None,
        blocks: vec![BasicBlock {
            id: 0,
            instructions: vec![MirInstruction::Call {
                dest: 20,
                name: "fib-naive".to_string(),
                args: vec![MirOperand::Constant(MirLiteral::I64(n))],
                return_type: OnuType::I64,
                arg_types: vec![OnuType::I64],
                is_tail_call: false,
            }],
            terminator: MirTerminator::Return(MirOperand::Variable(20, false)),
        }],
    }
}

#[test]
fn test_no_upgrade_for_small_n() {
    let prog = MirProgram { functions: vec![fib_naive_mir(), run_func_with_call(92)] };
    let after = IntegerUpgradePass::run(prog);
    assert_eq!(after.functions[0].return_type, OnuType::I64, "Should not upgrade when n<=92");
}

#[test]
fn test_upgrade_for_large_n() {
    let prog = MirProgram { functions: vec![fib_naive_mir(), run_func_with_call(1000)] };
    let after = IntegerUpgradePass::run(prog);
    let fib_fn = after.functions.iter().find(|f| f.name == "fib-naive").unwrap();
    assert!(
        matches!(fib_fn.return_type, OnuType::WideInt(_)),
        "Should upgrade to WideInt for n=1000, got {:?}",
        fib_fn.return_type
    );
}

#[test]
fn test_caller_call_site_upgraded() {
    let prog = MirProgram { functions: vec![fib_naive_mir(), run_func_with_call(1000)] };
    let after = IntegerUpgradePass::run(prog);
    let run_fn = after.functions.iter().find(|f| f.name == "run").unwrap();
    let call_inst = run_fn.blocks[0]
        .instructions
        .iter()
        .find(|i| matches!(i, MirInstruction::Call { name, .. } if name == "fib-naive"));
    assert!(call_inst.is_some(), "Call to fib-naive should still exist");
    if let Some(MirInstruction::Call { return_type, .. }) = call_inst {
        assert!(
            matches!(return_type, OnuType::WideInt(_)),
            "Call site return_type should be WideInt, got {:?}",
            return_type
        );
    }
}

#[test]
fn test_memo_cache_size_set() {
    let prog = MirProgram { functions: vec![fib_naive_mir(), run_func_with_call(500)] };
    let after = IntegerUpgradePass::run(prog);
    let fib_fn = after.functions.iter().find(|f| f.name == "fib-naive").unwrap();
    assert_eq!(fib_fn.memo_cache_size, Some(502), "cache_size = max_n + 2 = 502");
}

#[test]
fn test_required_bits_1000() {
    let bits = IntegerUpgradePass::required_bits(1000);
    assert_eq!(bits, 704, "fib(1000) should need 704 bits");
}

#[test]
fn test_required_bits_no_overflow_large_input() {
    let bits = IntegerUpgradePass::required_bits(i64::MAX);
    assert_eq!(bits % 64, 0);
    assert!(bits as u64 <= (u32::MAX as u64 / 64) * 64);
}

#[test]
fn test_required_bits_near_u32_max_raw() {
    let max_n = (u32::MAX as f64 / 0.69424) as i64 + 1;
    let bits = IntegerUpgradePass::required_bits(max_n);
    assert_eq!(bits % 64, 0);
    assert!(bits as u64 <= (u32::MAX as u64 / 64) * 64);
}

#[test]
fn upgraded_body_gets_wide_constants_and_arithmetic() {
    let prog = MirProgram { functions: vec![fib_naive_mir(), run_func_with_call(1000)] };
    let after = IntegerUpgradePass::run(prog);
    let fib_fn = &after.functions[0];
    assert_eq!(fib_fn.return_type, OnuType::WideInt(704));
    assert_eq!(
        fib_fn.blocks[1].instructions[0],
        MirInstruction::Assign { dest: 11, src: MirOperand::Constant(MirLiteral::WideInt("0".to_string(), 704)) }
    );
    assert!(matches!(
        fib_fn.blocks[2].instructions[2],
        MirInstruction::BinaryOperation { dest: 14, dest_type: OnuType::WideInt(704), .. }
    ));
    // The comparison in block 0 is not on the result chain.
    assert!(matches!(
        fib_fn.blocks[0].instructions[0],
        MirInstruction::BinaryOperation { dest_type: OnuType::Boolean, .. }
    ));
}

#[test]
fn caller_as_text_buffer_is_widened() {
    let mut caller = run_func_with_call(1000);
    caller.blocks[0].instructions.push(MirInstruction::Alloc {
        dest: 30,
        size_bytes: MirOperand::Constant(MirLiteral::I64(32)),
    });
    caller.blocks[0].instructions.push(MirInstruction::Assign { dest: 31, src: MirOperand::Variable(20, false) });
    caller.blocks[0].instructions.push(MirInstruction::Assign { dest: 32, src: MirOperand::Constant(MirLiteral::I64(30)) });
    let prog = MirProgram { functions: vec![fib_naive_mir(), caller] };
    let after = IntegerUpgradePass::run(prog);
    let insts = &after.functions[1].blocks[0].instructions;
    // 704 bits: ceil(704 * 0.30103) + 1 = 213 digits, plus 8.
    assert_eq!(insts[1], MirInstruction::Alloc { dest: 30, size_bytes: MirOperand::Constant(MirLiteral::I64(221)) });
    assert_eq!(insts[3], MirInstruction::Assign { dest: 32, src: MirOperand::Constant(MirLiteral::I64(219)) });
}

#[test]
fn decimal_text_of_negative_constant() {
    let mut f = fib_naive_mir();
    f.blocks[1].terminator = MirTerminator::Return(MirOperand::Constant(MirLiteral::I64(-17)));
    let prog = MirProgram { functions: vec![f, run_func_with_call(100)] };
    let after = IntegerUpgradePass::run(prog);
    assert_eq!(
        after.functions[0].blocks[1].terminator,
        MirTerminator::Return(MirOperand::Constant(MirLiteral::WideInt("-17".to_string(), 128)))
    );
}
