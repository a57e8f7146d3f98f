//! Facts about MIR functions used by several passes.

use vstd::prelude::*;
use crate::mir::{BasicBlock, MirArgument, MirFunction, MirInstruction, is_call_to, spec_calls};

verus! {

/// Whether some instruction of some block calls the function `name`.
pub open spec fn spec_calls_fn(blocks: Seq<BasicBlock>, name: Seq<char>) -> bool {
    exists|b: int, i: int|
        0 <= b < blocks.len() && 0 <= i < blocks[b].instructions@.len()
        && spec_calls(#[trigger] blocks[b].instructions@[i], name)
}

/// Whether some instruction of some block calls the function `name`.
pub fn calls_fn(blocks: &Vec<BasicBlock>, name: &String) -> (r: bool)
    ensures
        r == spec_calls_fn(blocks@, name@),
{
    let mut b: usize = 0;
    while b < blocks.len()
        invariant
            b <= blocks@.len(),
            forall|bb: int, i: int|
                0 <= bb < b && 0 <= i < blocks@[bb].instructions@.len()
                ==> !spec_calls(#[trigger] blocks@[bb].instructions@[i], name@),
        decreases blocks.len() - b,
    {
        let insts = &blocks[b].instructions;
        let mut i: usize = 0;
        while i < insts.len()
            invariant
                b < blocks@.len(),
                *insts == blocks@[b as int].instructions,
                i <= insts@.len(),
                forall|ii: int| 0 <= ii < i ==> !spec_calls(#[trigger] insts@[ii], name@),
            decreases insts.len() - i,
        {
            if is_call_to(&insts[i], name) {
                return true;
            }
            i = i + 1;
        }
        b = b + 1;
    }
    false
}

/// The number of instructions calling `name` in a list of instructions.
pub open spec fn count_calls_in(insts: Seq<MirInstruction>, name: Seq<char>) -> nat
    decreases insts.len(),
{
    if insts.len() == 0 {
        0
    } else {
        count_calls_in(insts.drop_last(), name) + if spec_calls(insts.last(), name) { 1nat } else { 0nat }
    }
}

/// The number of instructions calling `name` in a list of blocks.
pub open spec fn count_calls_blocks(blocks: Seq<BasicBlock>, name: Seq<char>) -> nat
    decreases blocks.len(),
{
    if blocks.len() == 0 {
        0
    } else {
        count_calls_blocks(blocks.drop_last(), name) + count_calls_in(blocks.last().instructions@, name)
    }
}

/// The largest SSA variable a function's arguments bind or its instructions
/// define (0 when there is none).
pub open spec fn max_defined_ssa(func: MirFunction) -> nat {
    max_nat(max_arg_ssa(func.args@), max_dest_blocks(func.blocks@))
}

pub open spec fn max_nat(a: nat, b: nat) -> nat {
    if a >= b { a } else { b }
}

/// The largest SSA variable bound by a list of arguments (0 when empty).
pub open spec fn max_arg_ssa(args: Seq<MirArgument>) -> nat
    decreases args.len(),
{
    if args.len() == 0 {
        0
    } else {
        max_nat(max_arg_ssa(args.drop_last()), args.last().ssa_var as nat)
    }
}

/// The variable an instruction defines, for the kinds of instruction that
/// produce values a memoized function computes with: copies, arithmetic,
/// calls, tuples, indexing, allocation, pointer offsets and loads.
pub open spec fn spec_value_dest(inst: MirInstruction) -> Option<usize> {
    match inst {
        MirInstruction::Assign { dest, .. } => Some(dest),
        MirInstruction::BinaryOperation { dest, .. } => Some(dest),
        MirInstruction::Call { dest, .. } => Some(dest),
        MirInstruction::Tuple { dest, .. } => Some(dest),
        MirInstruction::Index { dest, .. } => Some(dest),
        MirInstruction::Alloc { dest, .. } => Some(dest),
        MirInstruction::PointerOffset { dest, .. } => Some(dest),
        MirInstruction::Load { dest, .. } => Some(dest),
        _ => None,
    }
}

fn value_dest(inst: &MirInstruction) -> (r: Option<usize>)
    ensures
        r == spec_value_dest(*inst),
{
    match inst {
        MirInstruction::Assign { dest, .. } => Some(*dest),
        MirInstruction::BinaryOperation { dest, .. } => Some(*dest),
        MirInstruction::Call { dest, .. } => Some(*dest),
        MirInstruction::Tuple { dest, .. } => Some(*dest),
        MirInstruction::Index { dest, .. } => Some(*dest),
        MirInstruction::Alloc { dest, .. } => Some(*dest),
        MirInstruction::PointerOffset { dest, .. } => Some(*dest),
        MirInstruction::Load { dest, .. } => Some(*dest),
        _ => None,
    }
}

/// The largest SSA variable defined by a list of instructions (0 when none).
pub open spec fn max_dest_insts(insts: Seq<MirInstruction>) -> nat
    decreases insts.len(),
{
    if insts.len() == 0 {
        0
    } else {
        max_nat(max_dest_insts(insts.drop_last()), match spec_value_dest(insts.last()) {
            Some(d) => d as nat,
            None => 0,
        })
    }
}

/// The largest SSA variable defined in a list of blocks (0 when none).
pub open spec fn max_dest_blocks(blocks: Seq<BasicBlock>) -> nat
    decreases blocks.len(),
{
    if blocks.len() == 0 {
        0
    } else {
        max_nat(max_dest_blocks(blocks.drop_last()), max_dest_insts(blocks.last().instructions@))
    }
}

/// The largest SSA variable a function's arguments bind or its value
/// instructions define (0 when there is none).
pub fn max_ssa_in_function(func: &MirFunction) -> (r: usize)
    ensures
        r as nat == max_defined_ssa(*func),
{
    let mut m: usize = 0;
    let mut a: usize = 0;
    while a < func.args.len()
        invariant
            a <= func.args@.len(),
            m as nat == max_arg_ssa(func.args@.subrange(0, a as int)),
        decreases func.args.len() - a,
    {
        assert(func.args@.subrange(0, a + 1).drop_last() =~= func.args@.subrange(0, a as int));
        if func.args[a].ssa_var > m {
            m = func.args[a].ssa_var;
        }
        a = a + 1;
    }
    assert(func.args@.subrange(0, func.args@.len() as int) =~= func.args@);
    let mut d: usize = 0;
    let mut b: usize = 0;
    while b < func.blocks.len()
        invariant
            b <= func.blocks@.len(),
            d as nat == max_dest_blocks(func.blocks@.subrange(0, b as int)),
        decreases func.blocks.len() - b,
    {
        let insts = &func.blocks[b].instructions;
        let mut di: usize = 0;
        let mut i: usize = 0;
        while i < insts.len()
            invariant
                i <= insts@.len(),
                di as nat == max_dest_insts(insts@.subrange(0, i as int)),
            decreases insts.len() - i,
        {
            assert(insts@.subrange(0, i + 1).drop_last() =~= insts@.subrange(0, i as int));
            match value_dest(&insts[i]) {
                Some(x) => {
                    if x > di {
                        di = x;
                    }
                },
                None => {},
            }
            i = i + 1;
        }
        assert(insts@.subrange(0, insts@.len() as int) =~= insts@);
        assert(func.blocks@.subrange(0, b + 1).drop_last() =~= func.blocks@.subrange(0, b as int));
        if di > d {
            d = di;
        }
        b = b + 1;
    }
    assert(func.blocks@.subrange(0, func.blocks@.len() as int) =~= func.blocks@);
    if d > m { d } else { m }
}

} // verus!
