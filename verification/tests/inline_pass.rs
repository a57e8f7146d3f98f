use onu_refactor::inline::{inline_ready, inlineable_names, InlinePass};
use onu_refactor::mir::{BasicBlock, MirArgument, MirBinOp, MirFunction, MirInstruction, MirLiteral, MirOperand, MirProgram, MirTerminator};
use onu_refactor::types::OnuType;

fn function(name: &str, pure: bool, args: Vec<usize>, blocks: Vec<BasicBlock>) -> MirFunction {
    MirFunction {
        name: name.to_string(),
        args: args
            .into_iter()
            .map(|v| MirArgument { name: format!("a{}", v), typ: OnuType::I64, ssa_var: v })
            .collect(),
        return_type: OnuType::I64,
        blocks,
        is_pure_data_leaf: pure,
        diminishing: vec![],
        memo_cache_size: None,
    }
}

fn block(id: usize, instructions: Vec<MirInstruction>, terminator: MirTerminator) -> BasicBlock {
    BasicBlock { id, instructions, terminator }
}

fn call(dest: usize, name: &str, args: Vec<MirOperand>) -> MirInstruction {
    MirInstruction::Call {
        dest,
        name: name.to_string(),
        args,
        return_type: OnuType::I64,
        arg_types: vec![OnuType::I64],
        is_tail_call: false,
    }
}

fn square() -> MirFunction {
    function(
        "square",
        true,
        vec![0],
        vec![block(
            0,
            vec![MirInstruction::BinaryOperation {
                dest: 1,
                op: MirBinOp::Mul,
                lhs: MirOperand::Variable(0, false),
                rhs: MirOperand::Variable(0, false),
                dest_type: OnuType::I64,
            }],
            MirTerminator::Return(MirOperand::Variable(1, false)),
        )],
    )
}

fn calls_to(f: &MirFunction, name: &str) -> usize {
    f.blocks
        .iter()
        .flat_map(|b| b.instructions.iter())
        .filter(|i| matches!(i, MirInstruction::Call { name: n, .. } if n == name))
        .count()
}

#[test]
fn inline_pure_leaf_call_is_expanded() {
    let main = function(
        "run",
        false,
        vec![],
        vec![block(
            0,
            vec![call(2, "square", vec![MirOperand::Constant(MirLiteral::I64(3))])],
            MirTerminator::Return(MirOperand::Variable(2, false)),
        )],
    );
    let out = InlinePass::run(MirProgram { functions: vec![square(), main] });
    assert_eq!(out.functions.len(), 2);
    let run = &out.functions[1];
    assert_eq!(run.name, "run");
    assert_eq!(calls_to(run, "square"), 0);
    // The caller's block, the callee's block, the continuation.
    assert_eq!(run.blocks.len(), 3);
    assert_eq!(run.blocks[0].id, 0);
    assert!(run.blocks[0].instructions.is_empty());
    assert_eq!(run.blocks[0].terminator, MirTerminator::Branch(1));
    let inlined = &run.blocks[1];
    assert_eq!(inlined.id, 1);
    assert_eq!(
        inlined.instructions[0],
        MirInstruction::Assign { dest: 1, src: MirOperand::Constant(MirLiteral::I64(3)) }
    );
    assert_eq!(
        inlined.instructions[1],
        MirInstruction::BinaryOperation {
            dest: 2,
            op: MirBinOp::Mul,
            lhs: MirOperand::Variable(1, false),
            rhs: MirOperand::Variable(1, false),
            dest_type: OnuType::I64,
        }
    );
    assert_eq!(inlined.instructions[2], MirInstruction::Assign { dest: 2, src: MirOperand::Variable(2, false) });
    assert_eq!(inlined.terminator, MirTerminator::Branch(2));
    assert_eq!(run.blocks[2].id, 2);
    assert_eq!(run.blocks[2].terminator, MirTerminator::Return(MirOperand::Variable(2, false)));
    // The callee itself is left as it was.
    assert_eq!(out.functions[0], square());
}

#[test]
fn inline_effectful_callee_stays_a_call() {
    let noisy = function(
        "noisy",
        false,
        vec![],
        vec![block(
            0,
            vec![MirInstruction::Emit(MirOperand::Constant(MirLiteral::I64(1)))],
            MirTerminator::Return(MirOperand::Constant(MirLiteral::Nothing)),
        )],
    );
    let main = function(
        "run",
        false,
        vec![],
        vec![block(0, vec![call(0, "noisy", vec![])], MirTerminator::Return(MirOperand::Variable(0, false)))],
    );
    let program = MirProgram { functions: vec![noisy, main] };
    let names = inlineable_names(&program.functions);
    assert!(names.is_empty());
    let out = InlinePass::run(program);
    assert_eq!(calls_to(&out.functions[1], "noisy"), 1);
    assert_eq!(out.functions[1].blocks.len(), 1);
}

#[test]
fn inline_set_grows_through_callers_of_pure_functions() {
    // `twice` is not marked pure, but has no effect and only calls `square`.
    let twice = function(
        "twice",
        false,
        vec![0],
        vec![block(
            0,
            vec![call(1, "square", vec![MirOperand::Variable(0, false)]), call(2, "extern_helper", vec![])],
            MirTerminator::Return(MirOperand::Variable(1, false)),
        )],
    );
    let names = inlineable_names(&vec![twice, square()]);
    let mut sorted: Vec<String> = names.clone();
    sorted.sort();
    assert_eq!(sorted, vec!["square".to_string(), "twice".to_string()]);
}

#[test]
fn inline_self_recursive_function_is_not_inlineable() {
    let rec = function(
        "rec",
        true,
        vec![0],
        vec![block(0, vec![call(1, "rec", vec![MirOperand::Variable(0, false)])], MirTerminator::Return(MirOperand::Variable(1, false)))],
    );
    let names = inlineable_names(&vec![rec]);
    assert!(names.is_empty());
}

trait CloneShape {
    fn clone_shape(&self) -> MirFunction;
}

impl CloneShape for MirFunction {
    fn clone_shape(&self) -> MirFunction {
        function(
            &self.name,
            self.is_pure_data_leaf,
            self.args.iter().map(|a| a.ssa_var).collect(),
            self.blocks
                .iter()
                .map(|b| block(b.id, b.instructions.iter().map(copy_inst).collect(), b.terminator.clone()))
                .collect(),
        )
    }
}

fn copy_inst(i: &MirInstruction) -> MirInstruction {
    match i {
        MirInstruction::Call { dest, name, args, .. } => call(*dest, name, args.clone()),
        MirInstruction::Emit(op) => MirInstruction::Emit(op.clone()),
        _ => panic!("not used in these tests"),
    }
}

#[test]
fn inline_nested_calls_are_expanded_transitively() {
    let twice = function(
        "twice",
        false,
        vec![0],
        vec![block(
            0,
            vec![call(1, "square", vec![MirOperand::Variable(0, false)])],
            MirTerminator::Return(MirOperand::Variable(1, false)),
        )],
    );
    let main = function(
        "run",
        false,
        vec![],
        vec![block(
            0,
            vec![call(5, "twice", vec![MirOperand::Constant(MirLiteral::I64(2))])],
            MirTerminator::Return(MirOperand::Variable(5, false)),
        )],
    );
    let out = InlinePass::run(MirProgram { functions: vec![square(), twice, main] });
    let run = &out.functions[2];
    assert_eq!(calls_to(run, "twice"), 0);
    assert_eq!(calls_to(run, "square"), 0);
    assert!(run.blocks.len() >= 5);
    // `twice` itself had its call to `square` expanded too.
    assert_eq!(calls_to(&out.functions[1], "square"), 0);
}

#[test]
fn inline_program_without_pure_functions_is_unchanged() {
    let main = function(
        "run",
        false,
        vec![],
        vec![block(0, vec![call(0, "elsewhere", vec![])], MirTerminator::Return(MirOperand::Variable(0, false)))],
    );
    let out = InlinePass::run(MirProgram { functions: vec![main.clone_shape()] });
    assert_eq!(out.functions[0], main);
}

#[test]
fn inline_keeps_operand_order_of_the_callee() {
    let dec = function(
        "dec",
        true,
        vec![0],
        vec![block(
            0,
            vec![MirInstruction::BinaryOperation {
                dest: 1,
                op: MirBinOp::Sub,
                lhs: MirOperand::Variable(0, false),
                rhs: MirOperand::Constant(MirLiteral::I64(1)),
                dest_type: OnuType::I64,
            }],
            MirTerminator::Return(MirOperand::Variable(1, false)),
        )],
    );
    let main = function(
        "run",
        false,
        vec![5],
        vec![block(
            0,
            vec![call(6, "dec", vec![MirOperand::Variable(5, false)])],
            MirTerminator::Return(MirOperand::Variable(6, false)),
        )],
    );
    let out = InlinePass::run(MirProgram { functions: vec![dec, main] });
    let run = &out.functions[1];
    assert_eq!(run.blocks.len(), 3);
    let inlined = &run.blocks[1];
    // Variables of the callee move up past the largest variable the caller
    // binds once the call is taken out (its parameter, 5).
    assert_eq!(inlined.instructions[0], MirInstruction::Assign { dest: 6, src: MirOperand::Variable(5, false) });
    assert_eq!(
        inlined.instructions[1],
        MirInstruction::BinaryOperation {
            dest: 7,
            op: MirBinOp::Sub,
            lhs: MirOperand::Variable(6, false),
            rhs: MirOperand::Constant(MirLiteral::I64(1)),
            dest_type: OnuType::I64,
        }
    );
    assert_eq!(inlined.instructions[2], MirInstruction::Assign { dest: 6, src: MirOperand::Variable(7, false) });
}

#[test]
fn inline_readiness_of_shallow_programs() {
    let main = || {
        function(
            "run",
            false,
            vec![],
            vec![block(
                0,
                vec![call(2, "square", vec![MirOperand::Constant(MirLiteral::I64(3))])],
                MirTerminator::Return(MirOperand::Variable(2, false)),
            )],
        )
    };
    assert!(inline_ready(&MirProgram { functions: vec![square(), main()] }));
    // A call that passes too few arguments to an inlineable body.
    let short = function(
        "run",
        false,
        vec![],
        vec![block(0, vec![call(2, "square", vec![])], MirTerminator::Return(MirOperand::Variable(2, false)))],
    );
    assert!(!inline_ready(&MirProgram { functions: vec![square(), short] }));
    // An inlineable body that calls another, called in turn: two levels.
    let twice = function(
        "twice",
        false,
        vec![0],
        vec![block(
            0,
            vec![call(1, "square", vec![MirOperand::Variable(0, false)])],
            MirTerminator::Return(MirOperand::Variable(1, false)),
        )],
    );
    let program = MirProgram { functions: vec![square(), twice, main()] };
    assert!(inline_ready(&program));
    let out = InlinePass::run(program);
    assert_eq!(calls_to(&out.functions[1], "square"), 0);
}
