//! Idiom recognition: `(x >> n) | (x << m)` with constant shifts adding up
//! to 32 or 64 is a rotation, replaced by one funnel shift.

use vstd::prelude::*;
use crate::mir::{BasicBlock, MirBinOp, MirFunction, MirInstruction, MirLiteral, MirOperand, MirProgram, MirTerminator};
use crate::text::str_eq;

verus! {

/// The variable an instruction produces, for the instructions a rotation
/// can be built from.
pub open spec fn produced(inst: MirInstruction) -> Option<usize> {
    match inst {
        MirInstruction::BinaryOperation { dest, .. } => Some(dest),
        MirInstruction::Assign { dest, .. } => Some(dest),
        MirInstruction::Call { dest, .. } => Some(dest),
        MirInstruction::Alloc { dest, .. } => Some(dest),
        MirInstruction::StackAlloc { dest, .. } => Some(dest),
        MirInstruction::SaveArena { dest } => Some(dest),
        MirInstruction::Promote { dest, .. } => Some(dest),
        MirInstruction::BitCast { dest, .. } => Some(dest),
        MirInstruction::Load { dest, .. } => Some(dest),
        MirInstruction::PointerOffset { dest, .. } => Some(dest),
        MirInstruction::Index { dest, .. } => Some(dest),
        MirInstruction::Tuple { dest, .. } => Some(dest),
        MirInstruction::GlobalAlloc { dest, .. } => Some(dest),
        MirInstruction::ConstantTableLoad { dest, .. } => Some(dest),
        MirInstruction::FunnelShiftRight { dest, .. } => Some(dest),
        _ => None,
    }
}

/// The nearest instruction before `pos` that produces `id`.
pub open spec fn producer(insts: Seq<MirInstruction>, pos: int, id: usize) -> Option<MirInstruction>
    decreases pos,
{
    if pos <= 0 {
        None
    } else if produced(insts[pos - 1]) == Some(id) {
        Some(insts[pos - 1])
    } else {
        producer(insts, pos - 1, id)
    }
}

/// Two literals are the same value.
pub open spec fn same_literal(a: MirLiteral, b: MirLiteral) -> bool {
    match (a, b) {
        (MirLiteral::I64(x), MirLiteral::I64(y)) => x == y,
        (MirLiteral::F64(x), MirLiteral::F64(y)) => x == y,
        (MirLiteral::Boolean(x), MirLiteral::Boolean(y)) => x == y,
        (MirLiteral::Text(x), MirLiteral::Text(y)) => x@ == y@,
        (MirLiteral::Nothing, MirLiteral::Nothing) => true,
        (MirLiteral::WideInt(x, w), MirLiteral::WideInt(y, v)) => x@ == y@ && w == v,
        _ => false,
    }
}

/// Two operands denote the same value: the same variable or equal
/// constants.
pub open spec fn same_operand(a: MirOperand, b: MirOperand) -> bool {
    match (a, b) {
        (MirOperand::Variable(x, _), MirOperand::Variable(y, _)) => x == y,
        (MirOperand::Constant(x), MirOperand::Constant(y)) => same_literal(x, y),
        _ => false,
    }
}

/// The rotation width of two constant shift amounts adding up to 32 or 64.
pub open spec fn rotation_width(n: MirOperand, m: MirOperand) -> Option<u32> {
    match (n, m) {
        (MirOperand::Constant(MirLiteral::I64(a)), MirOperand::Constant(MirLiteral::I64(b))) =>
            if a + b == 32 { Some(32u32) } else if a + b == 64 { Some(64u32) } else { None },
        _ => None,
    }
}

/// The funnel shift replacing `dest = shr | shl`, when `shr` is `x >> n`
/// and `shl` is `x << m` with `n + m` a width.
pub open spec fn rotation_of(dest: usize, shr: MirInstruction, shl: MirInstruction) -> Option<MirInstruction> {
    match (shr, shl) {
        (MirInstruction::BinaryOperation { op: MirBinOp::Shr, lhs: x, rhs: n, .. },
         MirInstruction::BinaryOperation { op: MirBinOp::Shl, lhs: y, rhs: m, .. }) =>
            if same_operand(x, y) {
                match rotation_width(n, m) {
                    Some(w) => Some(MirInstruction::FunnelShiftRight { dest, hi: x, lo: x, amount: n, width: w }),
                    None => None,
                }
            } else {
                None
            },
        _ => None,
    }
}

/// The funnel shift that instruction `i` of a block becomes, if it is the
/// `|` of a rotation.
pub open spec fn rotation_at(insts: Seq<MirInstruction>, i: int) -> Option<MirInstruction> {
    match insts[i] {
        MirInstruction::BinaryOperation { dest, op: MirBinOp::Or, lhs: MirOperand::Variable(l, _), rhs: MirOperand::Variable(r, _), .. } =>
            match (producer(insts, i, l), producer(insts, i, r)) {
                (Some(pl), Some(pr)) => match rotation_of(dest, pl, pr) {
                    Some(f) => Some(f),
                    None => rotation_of(dest, pr, pl),
                },
                _ => None,
            },
        _ => None,
    }
}

/// A block after idiom recognition: each rotation's `|` replaced by its
/// funnel shift, everything else as it was.
pub open spec fn idioms_replaced(b: BasicBlock, g: BasicBlock) -> bool {
    &&& g.id == b.id
    &&& g.terminator == b.terminator
    &&& g.instructions@.len() == b.instructions@.len()
    &&& forall|i: int| 0 <= i < b.instructions@.len() ==> #[trigger] g.instructions@[i] == match rotation_at(b.instructions@, i) {
        Some(f) => f,
        None => b.instructions@[i],
    }
}

fn produced_of(inst: &MirInstruction) -> (r: Option<usize>)
    ensures
        r == produced(*inst),
{
    match inst {
        MirInstruction::BinaryOperation { dest, .. } => Some(*dest),
        MirInstruction::Assign { dest, .. } => Some(*dest),
        MirInstruction::Call { dest, .. } => Some(*dest),
        MirInstruction::Alloc { dest, .. } => Some(*dest),
        MirInstruction::StackAlloc { dest, .. } => Some(*dest),
        MirInstruction::SaveArena { dest } => Some(*dest),
        MirInstruction::Promote { dest, .. } => Some(*dest),
        MirInstruction::BitCast { dest, .. } => Some(*dest),
        MirInstruction::Load { dest, .. } => Some(*dest),
        MirInstruction::PointerOffset { dest, .. } => Some(*dest),
        MirInstruction::Index { dest, .. } => Some(*dest),
        MirInstruction::Tuple { dest, .. } => Some(*dest),
        MirInstruction::GlobalAlloc { dest, .. } => Some(*dest),
        MirInstruction::ConstantTableLoad { dest, .. } => Some(*dest),
        MirInstruction::FunnelShiftRight { dest, .. } => Some(*dest),
        _ => None,
    }
}

fn find_producer(insts: &Vec<MirInstruction>, pos: usize, id: usize) -> (r: Option<usize>)
    requires
        pos <= insts@.len(),
    ensures
        match r {
            Some(j) => j < pos && producer(insts@, pos as int, id) == Some(insts@[j as int]),
            None => producer(insts@, pos as int, id) is None,
        },
{
    let mut k = pos;
    while k > 0
        invariant
            k <= pos,
            pos <= insts@.len(),
            producer(insts@, pos as int, id) == producer(insts@, k as int, id),
        decreases k,
    {
        if produced_of(&insts[k - 1]) == Some(id) {
            return Some(k - 1);
        }
        k = k - 1;
    }
    None
}

fn same_literal_exec(a: &MirLiteral, b: &MirLiteral) -> (r: bool)
    ensures
        r == same_literal(*a, *b),
{
    match (a, b) {
        (MirLiteral::I64(x), MirLiteral::I64(y)) => *x == *y,
        (MirLiteral::F64(x), MirLiteral::F64(y)) => *x == *y,
        (MirLiteral::Boolean(x), MirLiteral::Boolean(y)) => *x == *y,
        (MirLiteral::Text(x), MirLiteral::Text(y)) => str_eq(x.as_str(), y.as_str()),
        (MirLiteral::Nothing, MirLiteral::Nothing) => true,
        (MirLiteral::WideInt(x, w), MirLiteral::WideInt(y, v)) => str_eq(x.as_str(), y.as_str()) && *w == *v,
        _ => false,
    }
}

fn same_operand_exec(a: &MirOperand, b: &MirOperand) -> (r: bool)
    ensures
        r == same_operand(*a, *b),
{
    match (a, b) {
        (MirOperand::Variable(x, _), MirOperand::Variable(y, _)) => *x == *y,
        (MirOperand::Constant(x), MirOperand::Constant(y)) => same_literal_exec(x, y),
        _ => false,
    }
}

fn rotation_width_exec(n: &MirOperand, m: &MirOperand) -> (r: Option<u32>)
    ensures
        r == rotation_width(*n, *m),
{
    match (n, m) {
        (MirOperand::Constant(MirLiteral::I64(a)), MirOperand::Constant(MirLiteral::I64(b))) => {
            let sum = *a as i128 + *b as i128;
            if sum == 32 { Some(32) } else if sum == 64 { Some(64) } else { None }
        }
        _ => None,
    }
}

fn rotation_of_exec(dest: usize, shr: &MirInstruction, shl: &MirInstruction) -> (r: Option<MirInstruction>)
    ensures
        r == rotation_of(dest, *shr, *shl),
{
    match (shr, shl) {
        (MirInstruction::BinaryOperation { op: MirBinOp::Shr, lhs: x, rhs: n, .. },
         MirInstruction::BinaryOperation { op: MirBinOp::Shl, lhs: y, rhs: m, .. }) => {
            if same_operand_exec(x, y) {
                match rotation_width_exec(n, m) {
                    Some(w) => Some(MirInstruction::FunnelShiftRight { dest, hi: x.dup(), lo: x.dup(), amount: n.dup(), width: w }),
                    None => None,
                }
            } else {
                None
            }
        }
        _ => None,
    }
}

fn rotation_at_exec(insts: &Vec<MirInstruction>, i: usize) -> (r: Option<MirInstruction>)
    requires
        i < insts@.len(),
    ensures
        r == rotation_at(insts@, i as int),
{
    match &insts[i] {
        MirInstruction::BinaryOperation { dest, op: MirBinOp::Or, lhs: MirOperand::Variable(l, _), rhs: MirOperand::Variable(r, _), .. } => {
            match (find_producer(insts, i, *l), find_producer(insts, i, *r)) {
                (Some(pl), Some(pr)) => match rotation_of_exec(*dest, &insts[pl], &insts[pr]) {
                    Some(f) => Some(f),
                    None => rotation_of_exec(*dest, &insts[pr], &insts[pl]),
                },
                _ => None,
            }
        }
        _ => None,
    }
}

/// Replaces the rotations of a block.
pub fn transform_block(block: BasicBlock) -> (g: BasicBlock)
    ensures
        idioms_replaced(block, g),
{
    let BasicBlock { id, instructions, terminator } = block;
    let ghost is = instructions@;
    let mut found: Vec<Option<MirInstruction>> = Vec::new();
    let mut i: usize = 0;
    while i < instructions.len()
        invariant
            instructions@ == is,
            i <= is.len(),
            found@.len() == i,
            forall|j: int| 0 <= j < i ==> #[trigger] found@[j] == rotation_at(is, j),
        decreases is.len() - i,
    {
        found.push(rotation_at_exec(&instructions, i));
        i = i + 1;
    }
    let mut insts = instructions;
    let mut k: usize = 0;
    while k < insts.len()
        invariant
            insts@.len() == is.len(),
            found@.len() == is.len(),
            k <= is.len(),
            forall|j: int| k <= j < is.len() ==> #[trigger] found@[j] == rotation_at(is, j),
            forall|j: int| k <= j < is.len() ==> insts@[j] == is[j],
            forall|j: int| 0 <= j < k ==> #[trigger] insts@[j] == match rotation_at(is, j) {
                Some(f) => f,
                None => is[j],
            },
        decreases is.len() - k,
    {
        let mut slot: Option<MirInstruction> = None;
        std::mem::swap(&mut slot, &mut found[k]);
        if let Some(f) = slot {
            insts.set(k, f);
        }
        k = k + 1;
    }
    BasicBlock { id, instructions: insts, terminator }
}

/// Idiom recognition on each block of a function; the rest of it is kept.
pub open spec fn function_idioms(f: MirFunction, g: MirFunction) -> bool {
    &&& g.name == f.name
    &&& g.args == f.args
    &&& g.return_type == f.return_type
    &&& g.is_pure_data_leaf == f.is_pure_data_leaf
    &&& g.diminishing == f.diminishing
    &&& g.memo_cache_size == f.memo_cache_size
    &&& g.blocks@.len() == f.blocks@.len()
    &&& forall|b: int| 0 <= b < f.blocks@.len() ==> #[trigger] idioms_replaced(f.blocks@[b], g.blocks@[b])
}

pub fn transform_function(func: MirFunction) -> (g: MirFunction)
    ensures
        function_idioms(func, g),
{
    let MirFunction { name, args, return_type, blocks, is_pure_data_leaf, diminishing, memo_cache_size } = func;
    let ghost bs = blocks@;
    let mut blocks = blocks;
    let mut b: usize = 0;
    while b < blocks.len()
        invariant
            blocks@.len() == bs.len(),
            b <= bs.len(),
            forall|j: int| b <= j < bs.len() ==> blocks@[j] == bs[j],
            forall|j: int| 0 <= j < b ==> #[trigger] idioms_replaced(bs[j], blocks@[j]),
        decreases bs.len() - b,
    {
        let mut blk = BasicBlock { id: 0, instructions: Vec::new(), terminator: MirTerminator::Unreachable };
        std::mem::swap(&mut blk, &mut blocks[b]);
        blocks.set(b, transform_block(blk));
        b = b + 1;
    }
    MirFunction { name, args, return_type, blocks, is_pure_data_leaf, diminishing, memo_cache_size }
}

/// The idiom recognizer pass.
pub struct IdiomRecognizerPass;

impl IdiomRecognizerPass {
    /// Recognizes the rotations of every function, keeping their order.
    pub fn run(program: MirProgram) -> (r: MirProgram)
        ensures
            r.functions@.len() == program.functions@.len(),
            forall|k: int| 0 <= k < program.functions@.len() ==> function_idioms(#[trigger] program.functions@[k], r.functions@[k]),
    {
        let ghost fs = program.functions@;
        let MirProgram { functions } = program;
        let mut functions = functions;
        let mut k: usize = 0;
        while k < functions.len()
            invariant
                functions@.len() == fs.len(),
                k <= fs.len(),
                forall|j: int| k <= j < fs.len() ==> functions@[j] == fs[j],
                forall|j: int| 0 <= j < k ==> function_idioms(#[trigger] fs[j], functions@[j]),
            decreases fs.len() - k,
        {
            let mut f = MirFunction {
                name: String::new(),
                args: Vec::new(),
                return_type: crate::types::OnuType::Nothing,
                blocks: Vec::new(),
                is_pure_data_leaf: false,
                diminishing: Vec::new(),
                memo_cache_size: None,
            };
            std::mem::swap(&mut f, &mut functions[k]);
            functions.set(k, transform_function(f));
            k = k + 1;
        }
        MirProgram { functions }
    }
}

} // verus!
