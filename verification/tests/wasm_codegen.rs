use onu_refactor::mir::{BasicBlock, MirBinOp, MirFunction, MirInstruction, MirLiteral, MirOperand, MirProgram, MirTerminator};
use onu_refactor::types::OnuType;
use onu_refactor::wasm::{module_ready, ValTy, WasmCodegenStrategy, WasmExportKind, WasmOp};

fn func(name: &str, ret: OnuType, instructions: Vec<MirInstruction>, term: MirTerminator) -> MirFunction {
    MirFunction {
        name: name.to_string(),
        args: vec![],
        return_type: ret,
        blocks: vec![BasicBlock { id: 0, instructions, terminator: term }],
        is_pure_data_leaf: false,
        diminishing: vec![],
        memo_cache_size: None,
    }
}

#[test]
fn wasm_module_of_a_constant_function() {
    let f = func("run", OnuType::I64, vec![], MirTerminator::Return(MirOperand::Constant(MirLiteral::I64(7))));
    let m = WasmCodegenStrategy::emit_program(&MirProgram { functions: vec![f] }).unwrap();
    assert_eq!(m.types.len(), 3);
    assert_eq!(m.types[0].params, vec![ValTy::I32, ValTy::I32]);
    assert_eq!(m.types[2].params, Vec::<ValTy>::new());
    assert_eq!(m.types[2].results, vec![ValTy::I64]);
    assert_eq!(m.function_types, vec![2]);
    assert_eq!(m.arena_start, 0);
    assert!(m.data.is_empty());
    assert_eq!(m.min_pages, 32);
    assert_eq!(m.max_pages, 256);
    assert_eq!(m.exports[0], ("memory".to_string(), WasmExportKind::Memory(0)));
    assert_eq!(m.exports[1], ("run".to_string(), WasmExportKind::Func(2)));
    assert_eq!(m.bodies[0].locals, vec![ValTy::I32]);
    assert_eq!(
        m.bodies[0].code,
        vec![
            WasmOp::I32Const(0),
            WasmOp::LocalSet(0),
            WasmOp::Loop,
            WasmOp::Block,
            WasmOp::LocalGet(0),
            WasmOp::BrTable { count: 1, default: 0 },
            WasmOp::Unreachable,
            WasmOp::End,
            WasmOp::I64Const(7),
            WasmOp::Return,
            WasmOp::End,
            WasmOp::Unreachable,
            WasmOp::End,
        ]
    );
}

#[test]
fn wasm_interns_texts_and_pads_the_data() {
    let f = func(
        "run",
        OnuType::Nothing,
        vec![
            MirInstruction::Emit(MirOperand::Constant(MirLiteral::Text("hi".to_string()))),
            MirInstruction::Emit(MirOperand::Constant(MirLiteral::Text("hi".to_string()))),
        ],
        MirTerminator::Return(MirOperand::Constant(MirLiteral::Nothing)),
    );
    let m = WasmCodegenStrategy::emit_program(&MirProgram { functions: vec![f] }).unwrap();
    assert_eq!(m.arena_start, 8);
    assert_eq!(m.data, vec![b'h', b'i', 0, 0, 0, 0, 0, 0]);
    assert_eq!(m.types.len(), 3);
    assert!(m.types[2].results.is_empty());
    let code = &m.bodies[0].code;
    assert_eq!(&code[8..11], &[WasmOp::I32Const(0), WasmOp::I32Const(2), WasmOp::Call(0)]);
    assert_eq!(&code[11..14], &[WasmOp::I32Const(0), WasmOp::I32Const(2), WasmOp::Call(0)]);
    assert_eq!(code[14], WasmOp::Return);
}

#[test]
fn wasm_binary_operations_widen_to_64_bits() {
    let f = func(
        "add",
        OnuType::I64,
        vec![MirInstruction::BinaryOperation {
            dest: 1,
            op: MirBinOp::Add,
            lhs: MirOperand::Constant(MirLiteral::Boolean(true)),
            rhs: MirOperand::Constant(MirLiteral::I64(2)),
            dest_type: OnuType::I64,
        }],
        MirTerminator::Return(MirOperand::Variable(1, false)),
    );
    let m = WasmCodegenStrategy::emit_program(&MirProgram { functions: vec![f] }).unwrap();
    assert_eq!(m.bodies[0].locals, vec![ValTy::I32, ValTy::I64]);
    let code = &m.bodies[0].code;
    assert_eq!(
        &code[8..14],
        &[
            WasmOp::I32Const(1),
            WasmOp::I64ExtendI32S,
            WasmOp::I64Const(2),
            WasmOp::I64Bin(MirBinOp::Add),
            WasmOp::LocalSet(1),
            WasmOp::LocalGet(1),
        ]
    );
}

#[test]
fn wasm_wide_integer_constants_read_their_digits() {
    let code_of = |digits: &str| {
        let f = func(
            "run",
            OnuType::I64,
            vec![],
            MirTerminator::Return(MirOperand::Constant(MirLiteral::WideInt(digits.to_string(), 128))),
        );
        let m = WasmCodegenStrategy::emit_program(&MirProgram { functions: vec![f] }).unwrap();
        m.bodies[0].code[8].clone()
    };
    assert_eq!(code_of("123"), WasmOp::I64Const(123));
    assert_eq!(code_of("-9223372036854775808"), WasmOp::I64Const(i64::MIN));
    assert_eq!(code_of("+5"), WasmOp::I64Const(5));
    assert_eq!(code_of("9223372036854775808"), WasmOp::I64Const(0));
    assert_eq!(code_of("12a"), WasmOp::I64Const(0));
    assert_eq!(code_of("-"), WasmOp::I64Const(0));
}

#[test]
fn wasm_module_readiness_checks_the_static_data() {
    let small = func(
        "run",
        OnuType::Nothing,
        vec![MirInstruction::Emit(MirOperand::Constant(MirLiteral::Text("hi".to_string())))],
        MirTerminator::Return(MirOperand::Constant(MirLiteral::Nothing)),
    );
    assert!(module_ready(&MirProgram { functions: vec![small] }));
    let huge = func(
        "run",
        OnuType::Nothing,
        vec![
            MirInstruction::Emit(MirOperand::Constant(MirLiteral::Text("hi".to_string()))),
            MirInstruction::GlobalAlloc { dest: 0, size_bytes: usize::MAX, name: "g".to_string() },
        ],
        MirTerminator::Return(MirOperand::Constant(MirLiteral::Nothing)),
    );
    assert!(!module_ready(&MirProgram { functions: vec![huge] }));
}
