use onu_refactor::memo::{safe_dim_size, MemoPass};
use onu_refactor::mir::{BasicBlock, MirArgument, MirFunction, MirInstruction, MirLiteral, MirOperand, MirProgram, MirTerminator};
use onu_refactor::registry_service::RegistryService;
use onu_refactor::types::OnuType;

#[test]
fn test_compound_memo_strategy_panics_for_tuple_return() {
    let func = MirFunction {
        name: "test_compound".to_string(),
        args: vec![MirArgument { name: "x".to_string(), typ: OnuType::I64, ssa_var: 0 }],
        return_type: OnuType::Tuple(vec![OnuType::I64, OnuType::I64]),
        blocks: vec![BasicBlock {
            id: 0,
            instructions: vec![],
            terminator: MirTerminator::Return(MirOperand::Variable(0, false)),
        }],
        is_pure_data_leaf: true,
        diminishing: vec!["x".to_string()],
        memo_cache_size: None,
    };
    let program = MirProgram { functions: vec![func] };
    let registry = RegistryService::new();
    let program = MemoPass::run(program, &registry);
    assert_eq!(program.functions.len(), 2);
}

#[test]
fn test_nothing_return_type_is_not_memoized() {
    let func = MirFunction {
        name: "void_fn".to_string(),
        args: vec![MirArgument { name: "x".to_string(), typ: OnuType::I64, ssa_var: 0 }],
        return_type: OnuType::Nothing,
        blocks: vec![BasicBlock {
            id: 0,
            instructions: vec![],
            terminator: MirTerminator::Return(MirOperand::Variable(0, false)),
        }],
        is_pure_data_leaf: true,
        diminishing: vec!["x".to_string()],
        memo_cache_size: None,
    };
    let program = MirProgram { functions: vec![func] };
    let registry = RegistryService::new();
    let program = MemoPass::run(program, &registry);
    assert_eq!(program.functions.len(), 1);
    assert_eq!(program.functions[0].name, "void_fn");
}

fn fib(cache: Option<usize>) -> MirFunction {
    MirFunction {
        name: "fib".to_string(),
        args: vec![MirArgument { name: "n".to_string(), typ: OnuType::I64, ssa_var: 0 }],
        return_type: OnuType::I64,
        blocks: vec![BasicBlock {
            id: 0,
            instructions: vec![MirInstruction::Call {
                dest: 1,
                name: "fib".to_string(),
                args: vec![MirOperand::Variable(0, false)],
                return_type: OnuType::I64,
                arg_types: vec![OnuType::I64],
                is_tail_call: false,
            }],
            terminator: MirTerminator::Return(MirOperand::Variable(1, false)),
        }],
        is_pure_data_leaf: true,
        diminishing: vec!["n".to_string()],
        memo_cache_size: cache,
    }
}

#[test]
fn primitive_wrapper_and_inner_shapes() {
    let registry = RegistryService::new();
    let out = MemoPass::run(MirProgram { functions: vec![fib(Some(100))] }, &registry);
    assert_eq!(out.functions.len(), 2);
    let wrapper = &out.functions[0];
    let inner = &out.functions[1];
    assert_eq!(wrapper.name, "fib");
    assert!(!wrapper.is_pure_data_leaf);
    assert_eq!(wrapper.blocks.len(), 2);
    match &wrapper.blocks[0].instructions[0] {
        MirInstruction::GlobalAlloc { size_bytes, name, .. } => {
            assert_eq!(*size_bytes, 800);
            assert_eq!(name, "fib_cache_val");
        }
        other => panic!("unexpected {:?}", other),
    }
    match &wrapper.blocks[0].instructions[1] {
        MirInstruction::GlobalAlloc { size_bytes, name, .. } => {
            assert_eq!(*size_bytes, 100);
            assert_eq!(name, "fib_cache_occ");
        }
        other => panic!("unexpected {:?}", other),
    }
    assert_eq!(inner.name, "fib.inner");
    assert_eq!(inner.args.len(), 3);
    assert_eq!(inner.args[1].name, "cache_ptr");
    assert_eq!(inner.args[2].name, "occ_ptr");
    // One recursive call site: the block is split and seven blocks added.
    assert_eq!(inner.blocks.len(), 8);
    for b in &inner.blocks {
        for i in &b.instructions {
            if let MirInstruction::Call { name, .. } = i {
                assert_eq!(name, "fib.inner");
            }
        }
    }
    // The last block carries the original terminator.
    assert_eq!(inner.blocks[7].terminator, MirTerminator::Return(MirOperand::Variable(1, false)));
}

#[test]
fn compound_entry_allocates_within_limit() {
    let mut f = fib(None);
    f.args.push(MirArgument { name: "m".to_string(), typ: OnuType::I64, ssa_var: 5 });
    f.diminishing.push("m".to_string());
    if let MirInstruction::Call { args, .. } = &mut f.blocks[0].instructions[0] {
        args.push(MirOperand::Constant(MirLiteral::I64(1)));
    }
    let registry = RegistryService::new();
    let out = MemoPass::run(MirProgram { functions: vec![f] }, &registry);
    let wrapper = &out.functions[0];
    // 362^2 entries of 8 bytes fit in 1 MiB.
    assert_eq!(wrapper.blocks[0].instructions[0], MirInstruction::Assign { dest: 8, src: MirOperand::Constant(MirLiteral::I64(362 * 362 * 8)) });
    assert_eq!(out.functions[1].blocks.len(), 1 + 9);
}

#[test]
fn dim_size_is_the_integer_root() {
    assert_eq!(safe_dim_size(1, 8, 10000), 10000);
    assert_eq!(safe_dim_size(2, 8, 10000), 362);
    assert_eq!(safe_dim_size(3, 8, 10000), 50);
    assert_eq!(safe_dim_size(2, 0, 5), 5);
    assert_eq!(safe_dim_size(1, 4_000_000, 10), 1);
}

#[test]
fn memo_readiness_is_decided_before_the_pass() {
    let registry = RegistryService::new();
    assert!(registry.layout_known(&OnuType::I64));
    assert!(registry.layout_known(&OnuType::Tuple(vec![OnuType::I8, OnuType::I64])));
    let program = MirProgram { functions: vec![fib(None)] };
    assert!(onu_refactor::memo::program_memo_ready(&program, &registry));
    let huge = MirProgram { functions: vec![fib(Some(usize::MAX))] };
    assert!(!onu_refactor::memo::program_memo_ready(&huge, &registry));
    let program = MemoPass::run(program, &registry);
    assert_eq!(program.functions.len(), 2);
    let wrapper = &program.functions[0];
    assert_eq!(wrapper.blocks.len(), 2);
    match &wrapper.blocks[1].instructions[0] {
        MirInstruction::Call { name, .. } => assert_eq!(name, "fib.inner"),
        other => panic!("expected the call of the inner function, got {:?}", other),
    }
}

#[test]
fn memo_cache_hit_reads_the_cache_and_miss_calls_the_inner_function() {
    let registry = RegistryService::new();
    let program = MemoPass::run(MirProgram { functions: vec![fib(Some(16))] }, &registry);
    let inner = &program.functions[1];
    assert_eq!(inner.name, "fib.inner");
    assert_eq!(inner.blocks.len(), 1 + 7);
    let by_id = |id: usize| inner.blocks.iter().find(|b| b.id == id).expect("block exists");
    // The block that tests the occupancy flag.
    let fetch = &inner.blocks[2];
    match &fetch.terminator {
        MirTerminator::CondBranch { then_block, else_block, .. } => {
            let hit = by_id(*then_block);
            assert!(matches!(hit.instructions[1], MirInstruction::Load { .. }));
            assert!(matches!(hit.instructions[2], MirInstruction::Assign { dest: 1, .. }));
            let miss = by_id(*else_block);
            match &miss.instructions[0] {
                MirInstruction::Call { name, dest, .. } => {
                    assert_eq!(name, "fib.inner");
                    assert_eq!(*dest, 1);
                }
                other => panic!("expected the inner call, got {:?}", other),
            }
        }
        other => panic!("expected a branch on the flag, got {:?}", other),
    }
}
