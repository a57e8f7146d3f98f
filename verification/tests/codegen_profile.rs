use onu_refactor::codegen_profile::{derive_profile, CallingConvention, FunctionLinkage, OptimizerHint};
use onu_refactor::mir::{BasicBlock, MirFunction, MirInstruction, MirLiteral, MirOperand, MirTerminator};
use onu_refactor::registry_service::RegistryService;
use onu_refactor::types::OnuType;

fn make_fn(name: &str, is_pure_data_leaf: bool, instructions: Vec<MirInstruction>) -> MirFunction {
    MirFunction {
        name: name.to_string(),
        args: vec![],
        return_type: OnuType::I64,
        blocks: vec![BasicBlock {
            id: 0,
            instructions,
            terminator: MirTerminator::Return(MirOperand::Constant(MirLiteral::I64(0))),
        }],
        is_pure_data_leaf,
        diminishing: vec![],
        memo_cache_size: None,
    }
}

fn self_call(callee: &str) -> MirInstruction {
    MirInstruction::Call {
        dest: 99,
        name: callee.to_string(),
        args: vec![],
        return_type: OnuType::I64,
        arg_types: vec![],
        is_tail_call: true,
    }
}

#[test]
fn entry_point_run_is_public() {
    let profile = derive_profile(&make_fn("run", false, vec![]));
    assert_eq!(profile.linkage, FunctionLinkage::Public);
}

#[test]
fn entry_point_main_is_public() {
    let profile = derive_profile(&make_fn("main", false, vec![]));
    assert_eq!(profile.linkage, FunctionLinkage::Public);
}

#[test]
fn non_entry_function_is_internal() {
    let profile = derive_profile(&make_fn("calculate-growth", false, vec![]));
    assert_eq!(profile.linkage, FunctionLinkage::Internal, "Non-entry functions must use Internal linkage to avoid PLT stubs");
}

#[test]
fn entry_point_uses_c_default_calling_convention() {
    let profile = derive_profile(&make_fn("run", false, vec![]));
    assert_eq!(profile.calling_convention, CallingConvention::CDefault);
}

#[test]
fn internal_function_uses_fast_calling_convention() {
    let profile = derive_profile(&make_fn("helper", true, vec![]));
    assert_eq!(profile.calling_convention, CallingConvention::Fast);
}

#[test]
fn entry_point_has_no_optimizer_hints() {
    let profile = derive_profile(&make_fn("run", false, vec![]));
    assert!(profile.optimizer_hints.is_empty(), "Entry points receive no optimizer hints");
}

#[test]
fn pure_leaf_gets_all_four_purity_hints() {
    let profile = derive_profile(&make_fn("leaf", true, vec![]));
    assert!(profile.optimizer_hints.contains(&OptimizerHint::ReadNone));
    assert!(profile.optimizer_hints.contains(&OptimizerHint::NoUnwind));
    assert!(profile.optimizer_hints.contains(&OptimizerHint::NoFree));
    assert!(profile.optimizer_hints.contains(&OptimizerHint::NoSync));
}

#[test]
fn non_recursive_pure_leaf_gets_always_inline() {
    let profile = derive_profile(&make_fn("leaf", true, vec![]));
    assert!(profile.optimizer_hints.contains(&OptimizerHint::AlwaysInline));
}

#[test]
fn recursive_function_does_not_get_always_inline() {
    let recursion = self_call("fib");
    let profile = derive_profile(&make_fn("fib", true, vec![recursion]));
    assert!(!profile.optimizer_hints.contains(&OptimizerHint::AlwaysInline));
}

#[test]
fn recursive_function_has_no_cold_hint() {
    let recursion = self_call("collatz-steps");
    let _profile = derive_profile(&make_fn("collatz-steps", true, vec![recursion]));
}

#[test]
fn impure_function_gets_no_optimizer_hints() {
    let profile = derive_profile(&make_fn("do-something!", false, vec![]));
    assert!(profile.optimizer_hints.is_empty());
}

#[test]
fn recursive_pure_leaf_keeps_purity_hints() {
    let profile = derive_profile(&make_fn("fib", true, vec![self_call("fib")]));
    assert_eq!(profile.optimizer_hints.len(), 4);
    assert_eq!(profile.calling_convention, CallingConvention::Fast);
}

#[test]
fn test_string_size_and_alignment() {
    let registry = RegistryService::new();
    let string_type = OnuType::Strings;
    assert_eq!(registry.align_of(&string_type), 8);
    assert_eq!(registry.size_of(&string_type), 24);
}

#[test]
fn test_tuple_alignment() {
    let registry = RegistryService::new();
    let tuple = OnuType::Tuple(vec![OnuType::I8, OnuType::I64, OnuType::I8]);
    assert_eq!(registry.align_of(&tuple), 8);
    assert_eq!(registry.size_of(&tuple), 24);
}

#[test]
fn test_wide_int_size() {
    let registry = RegistryService::new();
    assert_eq!(registry.size_of(&OnuType::WideInt(200)), 25);
    assert_eq!(registry.size_of(&OnuType::I64), 8);
}
