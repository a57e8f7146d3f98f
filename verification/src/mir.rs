//! The mid-level intermediate representation: functions of basic blocks in
//! SSA form.

use vstd::prelude::*;
use crate::types::OnuType;

verus! {

/// A constant of the MIR.
#[derive(Debug, Clone, PartialEq, Eq, Hash)]
pub enum MirLiteral {
    I64(i64),
    /// The bits of a double-precision value.
    F64(u64),
    Boolean(bool),
    Text(String),
    Nothing,
    /// A wide integer: its decimal digits and its width in bits.
    WideInt(String, u32),
}

/// An operand: a constant, or an SSA variable and whether the use consumes it.
#[derive(Debug, Clone, PartialEq, Eq, Hash)]
pub enum MirOperand {
    Constant(MirLiteral),
    Variable(usize, bool),
}

/// A binary operator of the MIR.
#[derive(Debug, Clone, Copy, PartialEq, Eq, Hash, Structural)]
pub enum MirBinOp {
    Add,
    Sub,
    Mul,
    Div,
    Eq,
    Ne,
    Gt,
    Lt,
    And,
    Or,
    Xor,
    Shr,
    Shl,
}

/// An instruction of a basic block.
#[derive(Debug, PartialEq, Eq, Hash)]
pub enum MirInstruction {
    Assign { dest: usize, src: MirOperand },
    BinaryOperation { dest: usize, op: MirBinOp, lhs: MirOperand, rhs: MirOperand, dest_type: OnuType },
    Call {
        dest: usize,
        name: String,
        args: Vec<MirOperand>,
        return_type: OnuType,
        arg_types: Vec<OnuType>,
        is_tail_call: bool,
    },
    Tuple { dest: usize, elements: Vec<MirOperand> },
    Index { dest: usize, subject: MirOperand, index: usize },
    Alloc { dest: usize, size_bytes: MirOperand },
    StackAlloc { dest: usize, size_bytes: usize },
    GlobalAlloc { dest: usize, size_bytes: usize, name: String },
    SaveArena { dest: usize },
    RestoreArena { saved: MirOperand },
    PointerOffset { dest: usize, ptr: MirOperand, offset: MirOperand },
    Load { dest: usize, ptr: MirOperand, typ: OnuType },
    Store { ptr: MirOperand, value: MirOperand },
    TypedStore { ptr: MirOperand, value: MirOperand, typ: OnuType },
    MemCopy { dest: MirOperand, src: MirOperand, size: MirOperand },
    MemSet { ptr: MirOperand, value: MirOperand, size: MirOperand },
    Emit(MirOperand),
    Drop { ssa_var: usize, typ: OnuType, name: String, is_dynamic: bool },
    Promote { dest: usize, src: MirOperand, to_type: OnuType },
    BitCast { dest: usize, src: MirOperand, to_type: OnuType },
    ConstantTableLoad { dest: usize, name: String, values: Vec<i64>, index: MirOperand },
    FunnelShiftRight { dest: usize, hi: MirOperand, lo: MirOperand, amount: MirOperand, width: u32 },
    BufferedWrite { ptr: MirOperand, len: MirOperand },
    FlushStdout,
}

/// How a basic block ends.
#[derive(Debug, Clone, PartialEq, Eq, Hash)]
pub enum MirTerminator {
    Return(MirOperand),
    Branch(usize),
    CondBranch { condition: MirOperand, then_block: usize, else_block: usize },
    Unreachable,
}

/// A straight-line run of instructions ending in a terminator.
#[derive(Debug, PartialEq, Eq, Hash)]
pub struct BasicBlock {
    pub id: usize,
    pub instructions: Vec<MirInstruction>,
    pub terminator: MirTerminator,
}

/// A parameter of a MIR function, bound to an SSA variable.
#[derive(Debug, PartialEq, Eq, Hash)]
pub struct MirArgument {
    pub name: String,
    pub typ: OnuType,
    pub ssa_var: usize,
}

/// A function of the MIR.
#[derive(Debug, PartialEq, Eq, Hash)]
pub struct MirFunction {
    pub name: String,
    pub args: Vec<MirArgument>,
    pub return_type: OnuType,
    pub blocks: Vec<BasicBlock>,
    /// No I/O and no mutation of memory visible to callers.
    pub is_pure_data_leaf: bool,
    /// The arguments that shrink on every recursive call.
    pub diminishing: Vec<String>,
    /// Number of memo-cache entries chosen for this function, if any.
    pub memo_cache_size: Option<usize>,
}

/// A whole program in MIR form.
#[derive(Debug, PartialEq, Eq, Hash)]
pub struct MirProgram {
    pub functions: Vec<MirFunction>,
}

/// The SSA variable an instruction defines, if any.
pub open spec fn spec_inst_dest(inst: MirInstruction) -> Option<usize> {
    match inst {
        MirInstruction::Assign { dest, .. } => Some(dest),
        MirInstruction::BinaryOperation { dest, .. } => Some(dest),
        MirInstruction::Call { dest, .. } => Some(dest),
        MirInstruction::Tuple { dest, .. } => Some(dest),
        MirInstruction::Index { dest, .. } => Some(dest),
        MirInstruction::Alloc { dest, .. } => Some(dest),
        MirInstruction::StackAlloc { dest, .. } => Some(dest),
        MirInstruction::GlobalAlloc { dest, .. } => Some(dest),
        MirInstruction::SaveArena { dest } => Some(dest),
        MirInstruction::PointerOffset { dest, .. } => Some(dest),
        MirInstruction::Load { dest, .. } => Some(dest),
        MirInstruction::Promote { dest, .. } => Some(dest),
        MirInstruction::BitCast { dest, .. } => Some(dest),
        MirInstruction::ConstantTableLoad { dest, .. } => Some(dest),
        MirInstruction::FunnelShiftRight { dest, .. } => Some(dest),
        _ => None,
    }
}

/// The SSA variable an instruction defines, if any.
pub fn inst_dest(inst: &MirInstruction) -> (r: Option<usize>)
    ensures
        r == spec_inst_dest(*inst),
{
    match inst {
        MirInstruction::Assign { dest, .. } => Some(*dest),
        MirInstruction::BinaryOperation { dest, .. } => Some(*dest),
        MirInstruction::Call { dest, .. } => Some(*dest),
        MirInstruction::Tuple { dest, .. } => Some(*dest),
        MirInstruction::Index { dest, .. } => Some(*dest),
        MirInstruction::Alloc { dest, .. } => Some(*dest),
        MirInstruction::StackAlloc { dest, .. } => Some(*dest),
        MirInstruction::GlobalAlloc { dest, .. } => Some(*dest),
        MirInstruction::SaveArena { dest } => Some(*dest),
        MirInstruction::PointerOffset { dest, .. } => Some(*dest),
        MirInstruction::Load { dest, .. } => Some(*dest),
        MirInstruction::Promote { dest, .. } => Some(*dest),
        MirInstruction::BitCast { dest, .. } => Some(*dest),
        MirInstruction::ConstantTableLoad { dest, .. } => Some(*dest),
        MirInstruction::FunnelShiftRight { dest, .. } => Some(*dest),
        _ => None,
    }
}

/// Whether an instruction is a call to the function of the given name.
pub open spec fn spec_calls(inst: MirInstruction, name: Seq<char>) -> bool {
    match inst {
        MirInstruction::Call { name: n, .. } => n@ == name,
        _ => false,
    }
}

/// Whether an instruction is a call to the function of the given name.
pub fn is_call_to(inst: &MirInstruction, name: &String) -> (r: bool)
    ensures
        r == spec_calls(*inst, name@),
{
    match inst {
        MirInstruction::Call { name: n, .. } => *n == *name,
        _ => false,
    }
}

impl MirLiteral {
    /// A copy of this literal, equal to it.
    pub fn dup(&self) -> (r: MirLiteral)
        ensures
            r == *self,
    {
        match self {
            MirLiteral::I64(v) => MirLiteral::I64(*v),
            MirLiteral::F64(v) => MirLiteral::F64(*v),
            MirLiteral::Boolean(b) => MirLiteral::Boolean(*b),
            MirLiteral::Text(s) => MirLiteral::Text(s.clone()),
            MirLiteral::Nothing => MirLiteral::Nothing,
            MirLiteral::WideInt(s, b) => MirLiteral::WideInt(s.clone(), *b),
        }
    }
}

impl MirOperand {
    /// A copy of this operand, equal to it.
    pub fn dup(&self) -> (r: MirOperand)
        ensures
            r == *self,
    {
        match self {
            MirOperand::Constant(l) => MirOperand::Constant(l.dup()),
            MirOperand::Variable(v, c) => MirOperand::Variable(*v, *c),
        }
    }
}

impl MirTerminator {
    /// A copy of this terminator, equal to it.
    pub fn dup(&self) -> (r: MirTerminator)
        ensures
            r == *self,
    {
        match self {
            MirTerminator::Return(op) => MirTerminator::Return(op.dup()),
            MirTerminator::Branch(t) => MirTerminator::Branch(*t),
            MirTerminator::CondBranch { condition, then_block, else_block } => MirTerminator::CondBranch {
                condition: condition.dup(),
                then_block: *then_block,
                else_block: *else_block,
            },
            MirTerminator::Unreachable => MirTerminator::Unreachable,
        }
    }
}

/// A copy of a list of operands, with the same elements.
pub fn dup_operands(v: &Vec<MirOperand>) -> (r: Vec<MirOperand>)
    ensures
        r@ == v@,
{
    let mut out: Vec<MirOperand> = Vec::new();
    let mut i: usize = 0;
    while i < v.len()
        invariant
            i <= v.len(),
            out@ == v@.subrange(0, i as int),
        decreases v.len() - i,
    {
        out.push(v[i].dup());
        i = i + 1;
        assert(out@ =~= v@.subrange(0, i as int));
    }
    assert(out@ =~= v@);
    out
}

} // verus!
