//! The optimization policy for a function: linkage, calling convention and
//! optimizer hints, chosen from the shape of its MIR.

use vstd::prelude::*;
use crate::mir::MirFunction;
use crate::mir_util::{calls_fn, spec_calls_fn};

verus! {

/// Whether a function symbol is visible outside the module it is compiled into.
#[derive(Debug, Clone, Copy, PartialEq, Eq, Hash, Structural)]
pub enum FunctionLinkage {
    /// Exported symbol: the OS entry point.
    Public,
    /// Private to the translation unit: direct calls, no PLT stub.
    Internal,
}

/// The calling convention used at call sites.
#[derive(Debug, Clone, Copy, PartialEq, Eq, Hash, Structural)]
pub enum CallingConvention {
    /// The C ABI, required for the entry point.
    CDefault,
    /// The backend's fast convention, for internal functions.
    Fast,
}

/// A hint for the optimizer attached to a function.
#[derive(Debug, Clone, Copy, PartialEq, Eq, Hash, Structural)]
pub enum OptimizerHint {
    /// Reads and writes no memory visible to the caller.
    ReadNone,
    /// Cannot unwind.
    NoUnwind,
    /// Cannot free memory.
    NoFree,
    /// Contains no synchronisation.
    NoSync,
    /// Inline at every call site.
    AlwaysInline,
}

/// The optimization profile of one function.
#[derive(Debug, Clone, PartialEq, Eq)]
pub struct FunctionCodegenProfile {
    pub linkage: FunctionLinkage,
    pub calling_convention: CallingConvention,
    pub optimizer_hints: Vec<OptimizerHint>,
}

/// Whether a function name is an entry point (`run` or `main`).
pub open spec fn is_entry_name(name: Seq<char>) -> bool {
    name == "run"@ || name == "main"@
}

/// Whether a function name is an entry point (`run` or `main`).
pub fn is_entry(name: &str) -> (r: bool)
    ensures
        r == is_entry_name(name@),
{
    proof {
        reveal_strlit("run");
        reveal_strlit("main");
    }
    crate::text::str_eq(name, "run") || crate::text::str_eq(name, "main")
}

/// The hints a function receives under the policy.
pub open spec fn spec_hints(func: MirFunction) -> Seq<OptimizerHint> {
    if is_entry_name(func.name@) || !func.is_pure_data_leaf {
        Seq::empty()
    } else if spec_calls_fn(func.blocks@, func.name@) {
        seq![OptimizerHint::ReadNone, OptimizerHint::NoUnwind, OptimizerHint::NoFree, OptimizerHint::NoSync]
    } else {
        seq![OptimizerHint::ReadNone, OptimizerHint::NoUnwind, OptimizerHint::NoFree, OptimizerHint::NoSync,
            OptimizerHint::AlwaysInline]
    }
}

/// Derives the codegen profile of a function.
///
/// Entry points (`run`, `main`) are public, use the C convention and get no
/// hints. Every other function is internal and uses the fast convention;
/// pure data leaves get `ReadNone`, `NoUnwind`, `NoFree` and `NoSync`, and
/// those that do not call themselves also `AlwaysInline`.
pub fn derive_profile(func: &MirFunction) -> (r: FunctionCodegenProfile)
    ensures
        r.linkage == if is_entry_name(func.name@) { FunctionLinkage::Public } else { FunctionLinkage::Internal },
        r.calling_convention == if is_entry_name(func.name@) {
            CallingConvention::CDefault
        } else {
            CallingConvention::Fast
        },
        r.optimizer_hints@ == spec_hints(*func),
{
    if is_entry(func.name.as_str()) {
        return FunctionCodegenProfile {
            linkage: FunctionLinkage::Public,
            calling_convention: CallingConvention::CDefault,
            optimizer_hints: Vec::new(),
        };
    }
    let is_self_recursive = calls_fn(&func.blocks, &func.name);
    let mut hints: Vec<OptimizerHint> = Vec::new();
    if func.is_pure_data_leaf {
        hints.push(OptimizerHint::ReadNone);
        hints.push(OptimizerHint::NoUnwind);
        hints.push(OptimizerHint::NoFree);
        hints.push(OptimizerHint::NoSync);
        if !is_self_recursive {
            hints.push(OptimizerHint::AlwaysInline);
        }
    }
    proof {
        if func.is_pure_data_leaf {
            if is_self_recursive {
                assert(hints@ =~= spec_hints(*func));
            } else {
                assert(hints@ =~= spec_hints(*func));
            }
        } else {
            assert(hints@ =~= spec_hints(*func));
        }
    }
    FunctionCodegenProfile {
        linkage: FunctionLinkage::Internal,
        calling_convention: CallingConvention::Fast,
        optimizer_hints: hints,
    }
}

} // verus!
