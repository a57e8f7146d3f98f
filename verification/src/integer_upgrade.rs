//! Integer upgrade: doubly-recursive pure functions whose call sites pass
//! literals large enough to overflow 64 bits (as `fib(93)` does) are promoted
//! from `I64` to a `WideInt` wide enough for the result.

use vstd::prelude::*;
use crate::mir::{BasicBlock, MirBinOp, MirFunction, MirInstruction, MirLiteral, MirOperand, MirProgram, MirTerminator, is_call_to};
use crate::mir_util::{calls_fn, count_calls_blocks, count_calls_in, spec_calls_fn};
use crate::text::{decimal, owned, spec_decimal};
use crate::ssa_set::{ConstMap, set_insert, vec_contains};
use crate::types::OnuType;

verus! {

/// The integer upgrade pass.
pub struct IntegerUpgradePass;

/// The buffer size and highest index that the decimal printing of an `I64`
/// uses; callers of an upgraded function have them widened.
pub const AS_TEXT_OLD_BUF_SIZE: i64 = 32;
pub const AS_TEXT_OLD_IDX_MAX: i64 = 30;

/// The largest multiple of 64 that fits in a `u32`.
pub const MAX_WIDE_BITS: u32 = 4294967232;

/// The bits needed to hold `fib(max_n)`: `ceil(n * 0.69424 + 4)` (with
/// `0.69424 ≈ log2 φ`), rounded up to a multiple of 64 and capped at the
/// largest multiple of 64 that fits in a `u32`. Negative `n` count as 0.
pub open spec fn spec_required_bits(max_n: i64) -> u32 {
    let n: int = if max_n < 0 { 0 } else { max_n as int };
    let raw: int = (n * 69424 + 400000 + 99999) / 100000;
    let rounded: int = ((raw + 63) / 64) * 64;
    if rounded > MAX_WIDE_BITS { MAX_WIDE_BITS } else { rounded as u32 }
}

/// Whether a binary operator is a comparison.
pub open spec fn spec_is_comparison(op: MirBinOp) -> bool {
    op == MirBinOp::Eq || op == MirBinOp::Ne || op == MirBinOp::Gt || op == MirBinOp::Lt
}

/// Whether a binary operator is a comparison.
pub fn is_comparison(op: &MirBinOp) -> (r: bool)
    ensures
        r == spec_is_comparison(*op),
{
    matches!(op, MirBinOp::Eq | MirBinOp::Ne | MirBinOp::Gt | MirBinOp::Lt)
}

/// A pure, diminishing, single-`I64`-argument function returning `I64`
/// that calls itself at least twice.
pub open spec fn spec_is_upgrade_candidate(f: MirFunction) -> bool {
    &&& f.is_pure_data_leaf
    &&& f.diminishing@.len() > 0
    &&& f.args@.len() == 1
    &&& f.args@[0].typ is I64
    &&& f.return_type is I64
    &&& count_calls_blocks(f.blocks@, f.name@) >= 2
}

/// The constants assigned to SSA variables by `dest = I64(v)` instructions;
/// a later assignment of the same variable wins.
pub open spec fn const_map_insts(m: Map<usize, i64>, insts: Seq<MirInstruction>) -> Map<usize, i64>
    decreases insts.len(),
{
    if insts.len() == 0 {
        m
    } else {
        let m2 = const_map_insts(m, insts.drop_last());
        match insts.last() {
            MirInstruction::Assign { dest, src: MirOperand::Constant(MirLiteral::I64(v)) } => m2.insert(dest, v),
            _ => m2,
        }
    }
}

pub open spec fn const_map_blocks(m: Map<usize, i64>, blocks: Seq<BasicBlock>) -> Map<usize, i64>
    decreases blocks.len(),
{
    if blocks.len() == 0 {
        m
    } else {
        const_map_insts(const_map_blocks(m, blocks.drop_last()), blocks.last().instructions@)
    }
}

pub open spec fn const_map_fns(m: Map<usize, i64>, fns: Seq<MirFunction>) -> Map<usize, i64>
    decreases fns.len(),
{
    if fns.len() == 0 {
        m
    } else {
        const_map_blocks(const_map_fns(m, fns.drop_last()), fns.last().blocks@)
    }
}

/// The constant value of an operand: a literal, or a variable assigned a
/// literal.
pub open spec fn operand_value(m: Map<usize, i64>, op: MirOperand) -> Option<i64> {
    match op {
        MirOperand::Constant(MirLiteral::I64(n)) => Some(n),
        MirOperand::Variable(x, _) => if m.contains_key(x) { Some(m[x]) } else { None },
        _ => None,
    }
}

pub open spec fn max_i64(a: i64, b: i64) -> i64 {
    if b > a { b } else { a }
}

/// The largest constant among operands, starting from `acc`.
pub open spec fn max_operands(m: Map<usize, i64>, ops: Seq<MirOperand>, acc: i64) -> i64
    decreases ops.len(),
{
    if ops.len() == 0 {
        acc
    } else {
        let a = max_operands(m, ops.drop_last(), acc);
        match operand_value(m, ops.last()) {
            Some(v) => max_i64(a, v),
            None => a,
        }
    }
}

/// The largest constant argument of calls to `name` in instructions.
pub open spec fn max_call_insts(m: Map<usize, i64>, insts: Seq<MirInstruction>, name: Seq<char>, acc: i64) -> i64
    decreases insts.len(),
{
    if insts.len() == 0 {
        acc
    } else {
        let a = max_call_insts(m, insts.drop_last(), name, acc);
        match insts.last() {
            MirInstruction::Call { name: n, args, .. } => if n@ == name {
                max_operands(m, args@, a)
            } else {
                a
            },
            _ => a,
        }
    }
}

pub open spec fn max_call_blocks(m: Map<usize, i64>, blocks: Seq<BasicBlock>, name: Seq<char>, acc: i64) -> i64
    decreases blocks.len(),
{
    if blocks.len() == 0 {
        acc
    } else {
        max_call_insts(m, blocks.last().instructions@, name, max_call_blocks(m, blocks.drop_last(), name, acc))
    }
}

pub open spec fn max_call_fns(m: Map<usize, i64>, fns: Seq<MirFunction>, name: Seq<char>, acc: i64) -> i64
    decreases fns.len(),
{
    if fns.len() == 0 {
        acc
    } else {
        max_call_blocks(m, fns.last().blocks@, name, max_call_fns(m, fns.drop_last(), name, acc))
    }
}

/// The largest constant argument (never below 0) passed anywhere in the
/// program to a function of the given name.
pub open spec fn spec_max_literal_call_arg(p: MirProgram, name: Seq<char>) -> i64 {
    max_call_fns(const_map_fns(Map::empty(), p.functions@), p.functions@, name, 0)
}

/// How an instruction of the upgraded function itself is rewritten, given
/// the SSA variables that flow into its returns: literal base cases become
/// wide constants, arithmetic and recursive calls become wide.
pub open spec fn body_rewritten(inst: MirInstruction, out: MirInstruction, name: Seq<char>, blocks: Seq<BasicBlock>, bits: u32) -> bool {
    match inst {
        MirInstruction::Assign { dest, src: MirOperand::Constant(MirLiteral::I64(v)) } => if in_result_chain(blocks, dest) {
            out matches MirInstruction::Assign { dest: d, src: MirOperand::Constant(MirLiteral::WideInt(s, b)) }
                && d == dest && s@ == spec_decimal(v) && b == bits
        } else {
            out == inst
        },
        MirInstruction::BinaryOperation { dest, op, lhs, rhs, dest_type: OnuType::I64 } =>
            if in_result_chain(blocks, dest) && !spec_is_comparison(op) {
                out == MirInstruction::BinaryOperation { dest, op, lhs, rhs, dest_type: OnuType::WideInt(bits) }
            } else {
                out == inst
            },
        MirInstruction::Call { dest, name: n, args, return_type: OnuType::I64, arg_types, is_tail_call } =>
            if n@ == name && in_result_chain(blocks, dest) {
                out == MirInstruction::Call { dest, name: n, args, return_type: OnuType::WideInt(bits), arg_types, is_tail_call }
            } else {
                out == inst
            },
        _ => out == inst,
    }
}

/// How a `Return` of the upgraded function is rewritten: a returned `I64`
/// literal becomes a wide constant.
pub open spec fn term_rewritten(t: MirTerminator, out: MirTerminator, bits: u32) -> bool {
    match t {
        MirTerminator::Return(MirOperand::Constant(MirLiteral::I64(v))) =>
            out matches MirTerminator::Return(MirOperand::Constant(MirLiteral::WideInt(s, b))) && s@ == spec_decimal(v) && b == bits,
        _ => out == t,
    }
}

/// The number of instructions in a function that call it, saturating at
/// `usize::MAX`.
pub fn count_recursive_calls(func: &MirFunction) -> (r: usize)
    ensures
        r as nat == (if count_calls_blocks(func.blocks@, func.name@) <= usize::MAX {
            count_calls_blocks(func.blocks@, func.name@)
        } else {
            usize::MAX as nat
        }),
{
    let mut total: usize = 0;
    let mut b: usize = 0;
    while b < func.blocks.len()
        invariant
            b <= func.blocks@.len(),
            total as nat == (if count_calls_blocks(func.blocks@.subrange(0, b as int), func.name@) <= usize::MAX {
                count_calls_blocks(func.blocks@.subrange(0, b as int), func.name@)
            } else {
                usize::MAX as nat
            }),
        decreases func.blocks.len() - b,
    {
        let insts = &func.blocks[b].instructions;
        let ghost before = count_calls_blocks(func.blocks@.subrange(0, b as int), func.name@);
        let mut i: usize = 0;
        while i < insts.len()
            invariant
                b < func.blocks@.len(),
                *insts == func.blocks@[b as int].instructions,
                i <= insts@.len(),
                total as nat == (if before + count_calls_in(insts@.subrange(0, i as int), func.name@) <= usize::MAX {
                    before + count_calls_in(insts@.subrange(0, i as int), func.name@)
                } else {
                    usize::MAX as nat
                }),
            decreases insts.len() - i,
        {
            assert(insts@.subrange(0, i as int + 1).drop_last() =~= insts@.subrange(0, i as int));
            if is_call_to(&insts[i], &func.name) {
                if total < usize::MAX {
                    total = total + 1;
                }
            }
            i = i + 1;
        }
        assert(insts@.subrange(0, i as int) =~= insts@);
        assert(func.blocks@.subrange(0, b as int + 1).drop_last() =~= func.blocks@.subrange(0, b as int));
        b = b + 1;
    }
    assert(func.blocks@.subrange(0, b as int) =~= func.blocks@);
    total
}

/// Whether a function is a candidate for the upgrade.
pub fn is_upgrade_candidate(func: &MirFunction) -> (r: bool)
    ensures
        r == spec_is_upgrade_candidate(*func),
{
    func.is_pure_data_leaf && func.diminishing.len() > 0 && func.args.len() == 1 && func.args[0].typ.is_i64()
        && func.return_type.is_i64() && count_recursive_calls(func) >= 2
}

/// Records the constants assigned by a list of instructions.
fn collect_consts_insts(m: &mut ConstMap, insts: &Vec<MirInstruction>)
    requires
        old(m).wf(),
    ensures
        final(m).wf(),
        final(m)@ == const_map_insts(old(m)@, insts@),
{
    let mut i: usize = 0;
    while i < insts.len()
        invariant
            m.wf(),
            i <= insts@.len(),
            m@ == const_map_insts(old(m)@, insts@.subrange(0, i as int)),
        decreases insts.len() - i,
    {
        assert(insts@.subrange(0, i as int + 1).drop_last() =~= insts@.subrange(0, i as int));
        if let MirInstruction::Assign { dest, src: MirOperand::Constant(MirLiteral::I64(v)) } = &insts[i] {
            m.insert(*dest, *v);
        }
        i = i + 1;
    }
    assert(insts@.subrange(0, i as int) =~= insts@);
}

fn collect_consts_blocks(m: &mut ConstMap, blocks: &Vec<BasicBlock>)
    requires
        old(m).wf(),
    ensures
        final(m).wf(),
        final(m)@ == const_map_blocks(old(m)@, blocks@),
{
    let mut i: usize = 0;
    while i < blocks.len()
        invariant
            m.wf(),
            i <= blocks@.len(),
            m@ == const_map_blocks(old(m)@, blocks@.subrange(0, i as int)),
        decreases blocks.len() - i,
    {
        assert(blocks@.subrange(0, i as int + 1).drop_last() =~= blocks@.subrange(0, i as int));
        collect_consts_insts(m, &blocks[i].instructions);
        i = i + 1;
    }
    assert(blocks@.subrange(0, i as int) =~= blocks@);
}

fn collect_consts_fns(m: &mut ConstMap, fns: &Vec<MirFunction>)
    requires
        old(m).wf(),
    ensures
        final(m).wf(),
        final(m)@ == const_map_fns(old(m)@, fns@),
{
    let mut i: usize = 0;
    while i < fns.len()
        invariant
            m.wf(),
            i <= fns@.len(),
            m@ == const_map_fns(old(m)@, fns@.subrange(0, i as int)),
        decreases fns.len() - i,
    {
        assert(fns@.subrange(0, i as int + 1).drop_last() =~= fns@.subrange(0, i as int));
        collect_consts_blocks(m, &fns[i].blocks);
        i = i + 1;
    }
    assert(fns@.subrange(0, i as int) =~= fns@);
}

fn max_of_operands(m: &ConstMap, ops: &Vec<MirOperand>, acc: i64) -> (r: i64)
    requires
        m.wf(),
    ensures
        r == max_operands(m@, ops@, acc),
{
    let mut a = acc;
    let mut i: usize = 0;
    while i < ops.len()
        invariant
            m.wf(),
            i <= ops@.len(),
            a == max_operands(m@, ops@.subrange(0, i as int), acc),
        decreases ops.len() - i,
    {
        assert(ops@.subrange(0, i as int + 1).drop_last() =~= ops@.subrange(0, i as int));
        let v: Option<i64> = match &ops[i] {
            MirOperand::Constant(MirLiteral::I64(n)) => Some(*n),
            MirOperand::Variable(x, _) => match m.get(*x) {
                Some(c) => Some(*c),
                None => None,
            },
            _ => None,
        };
        if let Some(n) = v {
            if n > a {
                a = n;
            }
        }
        i = i + 1;
    }
    assert(ops@.subrange(0, i as int) =~= ops@);
    a
}

fn max_call_in_insts(m: &ConstMap, insts: &Vec<MirInstruction>, name: &String, acc: i64) -> (r: i64)
    requires
        m.wf(),
    ensures
        r == max_call_insts(m@, insts@, name@, acc),
{
    let mut a = acc;
    let mut i: usize = 0;
    while i < insts.len()
        invariant
            m.wf(),
            i <= insts@.len(),
            a == max_call_insts(m@, insts@.subrange(0, i as int), name@, acc),
        decreases insts.len() - i,
    {
        assert(insts@.subrange(0, i as int + 1).drop_last() =~= insts@.subrange(0, i as int));
        if let MirInstruction::Call { name: n, args, .. } = &insts[i] {
            if *n == *name {
                a = max_of_operands(m, args, a);
            }
        }
        i = i + 1;
    }
    assert(insts@.subrange(0, i as int) =~= insts@);
    a
}

/// The largest constant argument passed anywhere in the program to the
/// function `name` (0 when there is none or all are below 0).
pub fn find_max_literal_call_arg(program: &MirProgram, name: &String) -> (r: i64)
    ensures
        r == spec_max_literal_call_arg(*program, name@),
{
    let mut m = ConstMap::new();
    collect_consts_fns(&mut m, &program.functions);
    let fns = &program.functions;
    let mut a: i64 = 0;
    let mut f: usize = 0;
    while f < fns.len()
        invariant
            m.wf(),
            m@ == const_map_fns(Map::empty(), fns@),
            f <= fns@.len(),
            a == max_call_fns(m@, fns@.subrange(0, f as int), name@, 0),
        decreases fns.len() - f,
    {
        assert(fns@.subrange(0, f as int + 1).drop_last() =~= fns@.subrange(0, f as int));
        let blocks = &fns[f].blocks;
        let ghost a0 = a;
        let mut b: usize = 0;
        while b < blocks.len()
            invariant
                m.wf(),
                f < fns@.len(),
                *blocks == fns@[f as int].blocks,
                b <= blocks@.len(),
                a == max_call_blocks(m@, blocks@.subrange(0, b as int), name@, a0),
            decreases blocks.len() - b,
        {
            assert(blocks@.subrange(0, b as int + 1).drop_last() =~= blocks@.subrange(0, b as int));
            a = max_call_in_insts(&m, &blocks[b].instructions, name, a);
            b = b + 1;
        }
        assert(blocks@.subrange(0, b as int) =~= blocks@);
        f = f + 1;
    }
    assert(fns@.subrange(0, f as int) =~= fns@);
    a
}

/// Whether an instruction defines `x` as an assignment, an arithmetic
/// result or a call result.
pub open spec fn is_def_of(inst: MirInstruction, x: usize) -> bool {
    match inst {
        MirInstruction::Assign { dest, .. } => dest == x,
        MirInstruction::BinaryOperation { dest, .. } => dest == x,
        MirInstruction::Call { dest, .. } => dest == x,
        _ => false,
    }
}

/// The last instruction of a list that defines `x`.
pub open spec fn last_def_insts(insts: Seq<MirInstruction>, x: usize) -> Option<MirInstruction>
    decreases insts.len(),
{
    if insts.len() == 0 {
        None
    } else if is_def_of(insts.last(), x) {
        Some(insts.last())
    } else {
        last_def_insts(insts.drop_last(), x)
    }
}

/// The last instruction of a function's blocks that defines `x`.
pub open spec fn last_def(blocks: Seq<BasicBlock>, x: usize) -> Option<MirInstruction>
    decreases blocks.len(),
{
    if blocks.len() == 0 {
        None
    } else {
        match last_def_insts(blocks.last().instructions@, x) {
            Some(d) => Some(d),
            None => last_def(blocks.drop_last(), x),
        }
    }
}

/// Whether the value of `y` flows into the result of `inst`: `inst` copies
/// `y`, or is arithmetic (not a comparison) with `y` as an operand.
pub open spec fn chain_step(inst: MirInstruction, y: usize) -> bool {
    match inst {
        MirInstruction::Assign { src: MirOperand::Variable(v, _), .. } => v == y,
        MirInstruction::BinaryOperation { op, lhs, rhs, .. } => !spec_is_comparison(op) && (
            (lhs matches MirOperand::Variable(v, _) && v == y)
            || (rhs matches MirOperand::Variable(v, _) && v == y)),
        _ => false,
    }
}

/// Whether some block returns the variable `x`.
pub open spec fn returns_var(blocks: Seq<BasicBlock>, x: usize) -> bool {
    exists|b: int| 0 <= b < blocks.len() && #[trigger] returns_of(blocks[b].terminator, x)
}

/// Whether a terminator returns the variable `x`.
pub open spec fn returns_of(t: MirTerminator, x: usize) -> bool {
    t matches MirTerminator::Return(MirOperand::Variable(v, _)) && v == x
}

/// Whether `path` leads from a returned variable back, one defining
/// instruction at a time, to its last element.
pub open spec fn is_chain_path(blocks: Seq<BasicBlock>, path: Seq<usize>) -> bool {
    &&& path.len() > 0
    &&& returns_var(blocks, path[0])
    &&& forall|i: int| 0 <= i < path.len() - 1 ==> #[trigger] reach_step(blocks, path[i], path[i + 1])
}

proof fn lemma_chain_path_next(blocks: Seq<BasicBlock>, path: Seq<usize>, x: usize)
    requires
        is_chain_path(blocks, path),
        reach_step(blocks, path.last(), x),
    ensures
        is_chain_path(blocks, path.push(x)),
        path.push(x).last() == x,
{
    let p2 = path.push(x);
    assert forall|i: int| 0 <= i < p2.len() - 1 implies #[trigger] reach_step(blocks, p2[i], p2[i + 1]) by {
        if i < path.len() - 1 {
            assert(reach_step(blocks, path[i], path[i + 1]));
        }
    }
}

/// Whether the last definition of `y` passes the value of `x` on to it.
pub open spec fn reach_step(blocks: Seq<BasicBlock>, y: usize, x: usize) -> bool {
    last_def(blocks, y) matches Some(d) && chain_step(d, x)
}

/// Whether the value of `x` flows into what the function returns.
pub open spec fn in_result_chain(blocks: Seq<BasicBlock>, x: usize) -> bool {
    exists|path: Seq<usize>| #[trigger] is_chain_path(blocks, path) && path.last() == x
}

/// The variables an instruction can pass on to its result.
pub open spec fn inst_mentions(inst: MirInstruction) -> Seq<usize> {
    match inst {
        MirInstruction::Assign { src: MirOperand::Variable(v, _), .. } => seq![v],
        MirInstruction::BinaryOperation { lhs, rhs, .. } => operand_var(lhs) + operand_var(rhs),
        _ => Seq::empty(),
    }
}

pub open spec fn operand_var(op: MirOperand) -> Seq<usize> {
    match op {
        MirOperand::Variable(v, _) => seq![v],
        _ => Seq::empty(),
    }
}

pub open spec fn insts_mentions(insts: Seq<MirInstruction>) -> Seq<usize>
    decreases insts.len(),
{
    if insts.len() == 0 {
        Seq::empty()
    } else {
        insts_mentions(insts.drop_last()) + inst_mentions(insts.last())
    }
}

pub open spec fn term_mentions(t: MirTerminator) -> Seq<usize> {
    match t {
        MirTerminator::Return(op) => operand_var(op),
        _ => Seq::empty(),
    }
}

/// Every variable that a result chain of these blocks can hold.
pub open spec fn blocks_mentions(blocks: Seq<BasicBlock>) -> Seq<usize>
    decreases blocks.len(),
{
    if blocks.len() == 0 {
        Seq::empty()
    } else {
        blocks_mentions(blocks.drop_last()) + term_mentions(blocks.last().terminator) + insts_mentions(blocks.last().instructions@)
    }
}

proof fn lemma_last_def_insts_mentions(insts: Seq<MirInstruction>, y: usize, x: usize)
    requires
        last_def_insts(insts, y) matches Some(d) && chain_step(d, x),
    ensures
        insts_mentions(insts).contains(x),
    decreases insts.len(),
{
    let all = insts_mentions(insts);
    if is_def_of(insts.last(), y) {
        let d = insts.last();
        let pre = insts_mentions(insts.drop_last());
        let own = inst_mentions(d);
        assert(own.contains(x)) by {
            match d {
                MirInstruction::Assign { .. } => { assert(own[0] == x); }
                MirInstruction::BinaryOperation { lhs, rhs, .. } => {
                    if lhs matches MirOperand::Variable(v, _) && v == x {
                        assert(own[0] == x);
                    } else {
                        assert(own[operand_var(lhs).len() as int] == x);
                    }
                }
                _ => {}
            }
        }
        let j = choose|j: int| 0 <= j < own.len() && own[j] == x;
        assert(all[pre.len() + j] == x);
    } else {
        lemma_last_def_insts_mentions(insts.drop_last(), y, x);
        let pre = insts_mentions(insts.drop_last());
        let j = choose|j: int| 0 <= j < pre.len() && pre[j] == x;
        assert(all[j] == x);
    }
}

proof fn lemma_last_def_mentions(blocks: Seq<BasicBlock>, y: usize, x: usize)
    requires
        last_def(blocks, y) matches Some(d) && chain_step(d, x),
    ensures
        blocks_mentions(blocks).contains(x),
    decreases blocks.len(),
{
    let all = blocks_mentions(blocks);
    let pre = blocks_mentions(blocks.drop_last());
    let tm = term_mentions(blocks.last().terminator);
    let im = insts_mentions(blocks.last().instructions@);
    assert(all =~= pre + tm + im);
    if last_def_insts(blocks.last().instructions@, y) is Some {
        lemma_last_def_insts_mentions(blocks.last().instructions@, y, x);
        let j = choose|j: int| 0 <= j < im.len() && im[j] == x;
        assert(all[pre.len() + tm.len() + j] == x);
    } else {
        lemma_last_def_mentions(blocks.drop_last(), y, x);
        let j = choose|j: int| 0 <= j < pre.len() && pre[j] == x;
        assert(all[j] == x);
    }
}

proof fn lemma_returns_mentions(blocks: Seq<BasicBlock>, x: usize)
    requires
        returns_var(blocks, x),
    ensures
        blocks_mentions(blocks).contains(x),
    decreases blocks.len(),
{
    let all = blocks_mentions(blocks);
    let pre = blocks_mentions(blocks.drop_last());
    let tm = term_mentions(blocks.last().terminator);
    let im = insts_mentions(blocks.last().instructions@);
    assert(all =~= pre + tm + im);
    let b = choose|b: int| 0 <= b < blocks.len() && #[trigger] returns_of(blocks[b].terminator, x);
    if b == blocks.len() - 1 {
        assert(tm[0] == x);
        assert(all[pre.len() as int] == x);
    } else {
        assert(blocks.drop_last()[b] == blocks[b]);
        lemma_returns_mentions(blocks.drop_last(), x);
        let j = choose|j: int| 0 <= j < pre.len() && pre[j] == x;
        assert(all[j] == x);
    }
}

/// A list without repeats, drawn from `t`, is no longer than `t`.
pub(crate) proof fn lemma_unique_within(s: Seq<usize>, t: Seq<usize>)
    requires
        s.no_duplicates(),
        forall|x: usize| s.contains(x) ==> t.contains(x),
    ensures
        s.len() <= t.len(),
{
    s.unique_seq_to_set();
    t.lemma_cardinality_of_set();
    assert(s.to_set().subset_of(t.to_set()));
    vstd::set_lib::lemma_len_subset(s.to_set(), t.to_set());
}

/// Where in an instruction list the last definition of `x` stands.
fn last_def_in_insts(insts: &Vec<MirInstruction>, x: usize) -> (r: Option<usize>)
    ensures
        match r {
            Some(i) => i < insts@.len() && last_def_insts(insts@, x) == Some(insts@[i as int]),
            None => last_def_insts(insts@, x) is None,
        },
{
    let mut found: Option<usize> = None;
    let mut i: usize = 0;
    while i < insts.len()
        invariant
            i <= insts@.len(),
            match found {
                Some(j) => j < i && last_def_insts(insts@.subrange(0, i as int), x) == Some(insts@[j as int]),
                None => last_def_insts(insts@.subrange(0, i as int), x) is None,
            },
        decreases insts.len() - i,
    {
        assert(insts@.subrange(0, i as int + 1).drop_last() =~= insts@.subrange(0, i as int));
        let defines = match &insts[i] {
            MirInstruction::Assign { dest, .. } => *dest == x,
            MirInstruction::BinaryOperation { dest, .. } => *dest == x,
            MirInstruction::Call { dest, .. } => *dest == x,
            _ => false,
        };
        if defines {
            found = Some(i);
        }
        i = i + 1;
    }
    assert(insts@.subrange(0, i as int) =~= insts@);
    found
}

/// Where in a function's blocks the last definition of `x` stands.
fn last_def_in_blocks(blocks: &Vec<BasicBlock>, x: usize) -> (r: Option<(usize, usize)>)
    ensures
        match r {
            Some((b, i)) => b < blocks@.len() && i < blocks@[b as int].instructions@.len()
                && last_def(blocks@, x) == Some(blocks@[b as int].instructions@[i as int]),
            None => last_def(blocks@, x) is None,
        },
{
    let mut found: Option<(usize, usize)> = None;
    let mut b: usize = 0;
    while b < blocks.len()
        invariant
            b <= blocks@.len(),
            match found {
                Some((bb, i)) => bb < b && i < blocks@[bb as int].instructions@.len()
                    && last_def(blocks@.subrange(0, b as int), x) == Some(blocks@[bb as int].instructions@[i as int]),
                None => last_def(blocks@.subrange(0, b as int), x) is None,
            },
        decreases blocks.len() - b,
    {
        assert(blocks@.subrange(0, b as int + 1).drop_last() =~= blocks@.subrange(0, b as int));
        match last_def_in_insts(&blocks[b].instructions, x) {
            Some(i) => { found = Some((b, i)); }
            None => {}
        }
        b = b + 1;
    }
    assert(blocks@.subrange(0, b as int) =~= blocks@);
    found
}

/// Whether everything that the last definition of `x` passes on to it is
/// in `c`.
pub open spec fn chain_closed_at(blocks: Seq<BasicBlock>, c: Seq<usize>, x: usize) -> bool {
    match last_def(blocks, x) {
        Some(d) => forall|y: usize| #[trigger] chain_step(d, y) ==> c.contains(y),
        None => true,
    }
}

proof fn lemma_chain_closed_mono(blocks: Seq<BasicBlock>, c1: Seq<usize>, c2: Seq<usize>, x: usize)
    requires
        chain_closed_at(blocks, c1, x),
        forall|y: usize| c1.contains(y) ==> c2.contains(y),
    ensures
        chain_closed_at(blocks, c2, x),
{
}

proof fn lemma_path_in_closed(blocks: Seq<BasicBlock>, c: Seq<usize>, path: Seq<usize>)
    requires
        forall|z: usize| returns_var(blocks, z) ==> c.contains(z),
        forall|z: usize| c.contains(z) ==> chain_closed_at(blocks, c, z),
        is_chain_path(blocks, path),
    ensures
        c.contains(path.last()),
    decreases path.len(),
{
    if path.len() > 1 {
        let pre = path.drop_last();
        assert forall|i: int| 0 <= i < pre.len() - 1 implies #[trigger] reach_step(blocks, pre[i], pre[i + 1]) by {
            assert(reach_step(blocks, path[i], path[i + 1]));
        }
        lemma_path_in_closed(blocks, c, pre);
        let y = pre.last();
        let i = path.len() - 2;
        assert(reach_step(blocks, path[i], path[i + 1]));
        assert(chain_closed_at(blocks, c, y));
        let d = last_def(blocks, y)->Some_0;
        assert(chain_step(d, path.last()));
    }
}

/// Adds `y` to the chain (and to the work list when it is new), keeping
/// the loop's facts.
fn chain_add(chain: &mut Vec<usize>, work: &mut Vec<usize>, y: usize)
    requires
        old(chain)@.no_duplicates(),
    ensures
        final(chain)@.no_duplicates(),
        forall|z: usize| final(chain)@.contains(z) <==> (old(chain)@.contains(z) || z == y),
        old(chain)@.contains(y) ==> final(chain)@ == old(chain)@ && final(work)@ == old(work)@,
        !old(chain)@.contains(y) ==> final(chain)@ == old(chain)@.push(y) && final(work)@ == old(work)@.push(y),
        forall|z: usize| final(work)@.contains(z) <==> (old(work)@.contains(z) || (z == y && !old(chain)@.contains(y))),
{
    if set_insert(chain, y) {
        work.push(y);
        proof {
            assert forall|z: usize| work@.contains(z) <==> (old(work)@.contains(z) || z == y) by {
                if work@.contains(z) && z != y {
                    let j = choose|j: int| 0 <= j < work@.len() && work@[j] == z;
                    assert(old(work)@[j] == z);
                }
                if old(work)@.contains(z) {
                    let j = choose|j: int| 0 <= j < old(work)@.len() && old(work)@[j] == z;
                    assert(work@[j] == z);
                }
                if z == y {
                    assert(work@[old(work)@.len() as int] == y);
                }
            }
        }
    }
}

/// The variables whose values flow into what the function returns: the
/// returned variables and, back through the last definition of each, the
/// variables it copies or computes from (comparisons and call arguments
/// are not followed).
pub fn find_result_chain(func: &MirFunction) -> (chain: Vec<usize>)
    ensures
        chain@.no_duplicates(),
        forall|x: usize| chain@.contains(x) <==> in_result_chain(func.blocks@, x),
{
    let blocks = &func.blocks;
    let ghost bs = blocks@;
    let ghost ms = blocks_mentions(bs);
    let mut chain: Vec<usize> = Vec::new();
    let mut work: Vec<usize> = Vec::new();
    let mut b: usize = 0;
    while b < blocks.len()
        invariant
            bs == blocks@,
            ms == blocks_mentions(bs),
            b <= bs.len(),
            chain@.no_duplicates(),
            work@ == chain@,
            forall|x: usize| chain@.contains(x) ==> returns_var(bs, x),
            forall|x: usize| chain@.contains(x) ==> ms.contains(x),
            forall|bb: int, x: usize| 0 <= bb < b && #[trigger] returns_of(bs[bb].terminator, x) ==> chain@.contains(x),
        decreases blocks.len() - b,
    {
        if let MirTerminator::Return(MirOperand::Variable(ssa, _)) = &blocks[b].terminator {
            proof {
                assert(returns_of(bs[b as int].terminator, *ssa));
                lemma_returns_mentions(bs, *ssa);
            }
            chain_add(&mut chain, &mut work, *ssa);
        }
        b = b + 1;
    }
    proof {
        assert forall|x: usize| chain@.contains(x) implies in_result_chain(bs, x) by {
            let p = seq![x];
            assert(is_chain_path(bs, p) && p.last() == x);
        }
        lemma_unique_within(chain@, ms);
    }
    while work.len() > 0
        invariant
            bs == blocks@,
            ms == blocks_mentions(bs),
            chain@.no_duplicates(),
            chain@.len() <= ms.len(),
            forall|x: usize| work@.contains(x) ==> chain@.contains(x),
            forall|x: usize| returns_var(bs, x) ==> chain@.contains(x),
            forall|x: usize| chain@.contains(x) ==> in_result_chain(bs, x),
            forall|x: usize| chain@.contains(x) ==> ms.contains(x),
            forall|x: usize| chain@.contains(x) && !work@.contains(x) ==> chain_closed_at(bs, chain@, x),
        decreases ms.len() - chain@.len(), work@.len(),
    {
        let ghost c0 = chain@;
        let ghost w0 = work@;
        let x = work.pop().unwrap();
        proof {
            assert(w0.contains(x));
            assert(work@ =~= w0.drop_last());
        }
        proof {
            assert(chain@.contains(x));
            assert(in_result_chain(bs, x));
        }
        let ghost px = choose|path: Seq<usize>| #[trigger] is_chain_path(bs, path) && path.last() == x;
        match last_def_in_blocks(blocks, x) {
            Some((bb, ii)) => {
                let d = &blocks[bb].instructions[ii];
                match d {
                    MirInstruction::Assign { src: MirOperand::Variable(y, _), .. } => {
                        proof {
                            assert(chain_step(*d, *y));
                            assert(reach_step(bs, x, *y));
                            lemma_chain_path_next(bs, px, *y);
                            lemma_last_def_mentions(bs, x, *y);
                        }
                        chain_add(&mut chain, &mut work, *y);
                        proof {
                            assert forall|yy: usize| #[trigger] chain_step(*d, yy) implies chain@.contains(yy) by {}
                            assert(chain_closed_at(bs, chain@, x));
                        }
                    }
                    MirInstruction::BinaryOperation { op, lhs, rhs, .. } => {
                        let ghost c1 = chain@;
                        if !is_comparison(op) {
                            if let MirOperand::Variable(y, _) = lhs {
                                proof {
                                    assert(chain_step(*d, *y));
                                    assert(reach_step(bs, x, *y));
                                    lemma_chain_path_next(bs, px, *y);
                                    lemma_last_def_mentions(bs, x, *y);
                                }
                                chain_add(&mut chain, &mut work, *y);
                            }
                            if let MirOperand::Variable(y, _) = rhs {
                                proof {
                                    assert(chain_step(*d, *y));
                                    assert(reach_step(bs, x, *y));
                                    lemma_chain_path_next(bs, px, *y);
                                    lemma_last_def_mentions(bs, x, *y);
                                }
                                chain_add(&mut chain, &mut work, *y);
                            }
                        }
                        proof {
                            assert forall|yy: usize| #[trigger] chain_step(*d, yy) implies chain@.contains(yy) by {
                                if lhs matches MirOperand::Variable(v, _) && v == yy {
                                    assert(c1.contains(yy) || chain@.contains(yy));
                                }
                            }
                            assert(chain_closed_at(bs, chain@, x));
                        }
                    }
                    _ => {
                        proof {
                            assert forall|yy: usize| #[trigger] chain_step(*d, yy) implies chain@.contains(yy) by {}
                            assert(chain_closed_at(bs, chain@, x));
                        }
                    }
                }
            }
            None => {}
        }
        proof {
            assert forall|z: usize| c0.contains(z) implies chain@.contains(z) by {}
            assert(chain_closed_at(bs, chain@, x));
            assert forall|z: usize| chain@.contains(z) && !work@.contains(z) implies chain_closed_at(bs, chain@, z) by {
                if z != x && !c0.contains(z) {
                    assert(work@.contains(z));
                }
                if z != x {
                    if c0.contains(z) {
                        if w0.contains(z) {
                            let j = choose|j: int| 0 <= j < w0.len() && w0[j] == z;
                            if j < w0.len() - 1 {
                                assert(work@.contains(z)) by { assert(work@[j] == z); }
                            }
                        }
                        lemma_chain_closed_mono(bs, c0, chain@, z);
                    }
                }
            }
            assert forall|z: usize| chain@.contains(z) implies in_result_chain(bs, z) by {
                if !c0.contains(z) {
                    assert(is_chain_path(bs, px.push(z)) && px.push(z).last() == z);
                }
            }
            lemma_unique_within(chain@, ms);
        }
    }
    proof {
        assert forall|x: usize| in_result_chain(bs, x) implies chain@.contains(x) by {
            let path = choose|path: Seq<usize>| #[trigger] is_chain_path(bs, path) && path.last() == x;
            lemma_path_in_closed(bs, chain@, path);
        }
    }
    chain
}

/// The number of memo-cache entries for an upgraded function: one for each
/// index up to `max_n` and one more, saturating at `usize::MAX`.
pub open spec fn cache_slots(max_n: i64) -> usize {
    if max_n < 0 {
        2
    } else if max_n + 2 <= usize::MAX {
        (max_n + 2) as usize
    } else {
        usize::MAX
    }
}

fn cache_slots_of(max_n: i64) -> (r: usize)
    ensures
        r == cache_slots(max_n),
{
    if max_n < 0 {
        2
    } else if max_n as u64 <= (usize::MAX - 2) as u64 {
        max_n as usize + 2
    } else {
        usize::MAX
    }
}

/// A block of the upgraded function, rewritten instruction by instruction.
pub open spec fn block_body_upgraded(b: BasicBlock, g: BasicBlock, name: Seq<char>, blocks: Seq<BasicBlock>, bits: u32) -> bool {
    &&& g.id == b.id
    &&& term_rewritten(b.terminator, g.terminator, bits)
    &&& g.instructions@.len() == b.instructions@.len()
    &&& forall|i: int| 0 <= i < b.instructions@.len()
        ==> #[trigger] body_rewritten(b.instructions@[i], g.instructions@[i], name, blocks, bits)
}

/// The upgraded function: same name, arguments and flags, a wide return
/// type, a memo cache of `max_n + 2` entries, and each block rewritten.
pub open spec fn body_upgraded(f: MirFunction, g: MirFunction, bits: u32, max_n: i64) -> bool {
    &&& g.name == f.name
    &&& g.args == f.args
    &&& g.is_pure_data_leaf == f.is_pure_data_leaf
    &&& g.diminishing == f.diminishing
    &&& g.return_type == OnuType::WideInt(bits)
    &&& g.memo_cache_size == Some(cache_slots(max_n))
    &&& g.blocks@.len() == f.blocks@.len()
    &&& forall|b: int| 0 <= b < f.blocks@.len()
        ==> #[trigger] block_body_upgraded(f.blocks@[b], g.blocks@[b], f.name@, f.blocks@, bits)
}

fn rewrite_body_inst(inst: MirInstruction, name: &String, chain: &Vec<usize>, bits: u32, Ghost(bs): Ghost<Seq<BasicBlock>>) -> (out: MirInstruction)
    requires
        forall|x: usize| chain@.contains(x) <==> in_result_chain(bs, x),
    ensures
        body_rewritten(inst, out, name@, bs, bits),
{
    match inst {
        MirInstruction::Assign { dest, src: MirOperand::Constant(MirLiteral::I64(v)) } => {
            if vec_contains(chain, dest) {
                MirInstruction::Assign { dest, src: MirOperand::Constant(MirLiteral::WideInt(decimal(v), bits)) }
            } else {
                MirInstruction::Assign { dest, src: MirOperand::Constant(MirLiteral::I64(v)) }
            }
        }
        MirInstruction::BinaryOperation { dest, op, lhs, rhs, dest_type } => {
            if dest_type.is_i64() && vec_contains(chain, dest) && !is_comparison(&op) {
                MirInstruction::BinaryOperation { dest, op, lhs, rhs, dest_type: OnuType::WideInt(bits) }
            } else {
                MirInstruction::BinaryOperation { dest, op, lhs, rhs, dest_type }
            }
        }
        MirInstruction::Call { dest, name: n, args, return_type, arg_types, is_tail_call } => {
            if return_type.is_i64() && n == *name && vec_contains(chain, dest) {
                MirInstruction::Call { dest, name: n, args, return_type: OnuType::WideInt(bits), arg_types, is_tail_call }
            } else {
                MirInstruction::Call { dest, name: n, args, return_type, arg_types, is_tail_call }
            }
        }
        other => other,
    }
}

fn rewrite_body_term(t: MirTerminator, bits: u32) -> (out: MirTerminator)
    ensures
        term_rewritten(t, out, bits),
{
    match t {
        MirTerminator::Return(MirOperand::Constant(MirLiteral::I64(v))) =>
            MirTerminator::Return(MirOperand::Constant(MirLiteral::WideInt(decimal(v), bits))),
        other => other,
    }
}

fn rewrite_body_block(block: BasicBlock, name: &String, chain: &Vec<usize>, bits: u32, Ghost(bs): Ghost<Seq<BasicBlock>>) -> (g: BasicBlock)
    requires
        forall|x: usize| chain@.contains(x) <==> in_result_chain(bs, x),
    ensures
        block_body_upgraded(block, g, name@, bs, bits),
{
    let BasicBlock { id, instructions, terminator } = block;
    let ghost orig = instructions@;
    let mut insts = instructions;
    let mut i: usize = 0;
    while i < insts.len()
        invariant
            forall|x: usize| chain@.contains(x) <==> in_result_chain(bs, x),
            insts@.len() == orig.len(),
            i <= orig.len(),
            forall|j: int| 0 <= j < i ==> #[trigger] body_rewritten(orig[j], insts@[j], name@, bs, bits),
            forall|j: int| i <= j < orig.len() ==> insts@[j] == orig[j],
        decreases orig.len() - i,
    {
        let mut tmp = MirInstruction::FlushStdout;
        std::mem::swap(&mut tmp, &mut insts[i]);
        let out = rewrite_body_inst(tmp, name, chain, bits, Ghost(bs));
        insts.set(i, out);
        i = i + 1;
    }
    BasicBlock { id, instructions: insts, terminator: rewrite_body_term(terminator, bits) }
}

/// Upgrades the doubly-recursive function itself: a wide return type, a
/// memo cache of `max_n + 2` entries, and its result chain made wide.
pub fn upgrade_function_body(func: MirFunction, bits: u32, max_n: i64) -> (g: MirFunction)
    ensures
        body_upgraded(func, g, bits, max_n),
{
    let chain = find_result_chain(&func);
    let ghost bs = func.blocks@;
    let MirFunction { name, args, return_type: _, blocks, is_pure_data_leaf, diminishing, memo_cache_size: _ } = func;
    let mut blocks = blocks;
    let mut b: usize = 0;
    while b < blocks.len()
        invariant
            forall|x: usize| chain@.contains(x) <==> in_result_chain(bs, x),
            blocks@.len() == bs.len(),
            b <= bs.len(),
            forall|j: int| 0 <= j < b ==> #[trigger] block_body_upgraded(bs[j], blocks@[j], name@, bs, bits),
            forall|j: int| b <= j < bs.len() ==> blocks@[j] == bs[j],
        decreases bs.len() - b,
    {
        let mut tmp = BasicBlock { id: 0, instructions: Vec::new(), terminator: MirTerminator::Unreachable };
        std::mem::swap(&mut tmp, &mut blocks[b]);
        let out = rewrite_body_block(tmp, &name, &chain, bits, Ghost(bs));
        blocks.set(b, out);
        b = b + 1;
    }
    MirFunction {
        name,
        args,
        return_type: OnuType::WideInt(bits),
        blocks,
        is_pure_data_leaf,
        diminishing,
        memo_cache_size: Some(cache_slots_of(max_n)),
    }
}

/// Whether `inst` passes the value of `x` on to `y`: a copy, or arithmetic
/// (not a comparison) with `x` as an operand.
pub open spec fn fwd_step(inst: MirInstruction, x: usize, y: usize) -> bool {
    match inst {
        MirInstruction::Assign { dest, src: MirOperand::Variable(v, _) } => v == x && dest == y,
        MirInstruction::BinaryOperation { dest, op, lhs, rhs, .. } => !spec_is_comparison(op) && dest == y && (
            (lhs matches MirOperand::Variable(v, _) && v == x)
            || (rhs matches MirOperand::Variable(v, _) && v == x)),
        _ => false,
    }
}

/// Whether some instruction of the blocks passes `x` on to `y`.
pub open spec fn fwd_edge(blocks: Seq<BasicBlock>, x: usize, y: usize) -> bool {
    exists|b: int, i: int| 0 <= b < blocks.len() && 0 <= i < blocks[b].instructions@.len()
        && #[trigger] fwd_step(blocks[b].instructions@[i], x, y)
}

/// Whether `inst` is a call to `name` returning `I64` into `x`.
pub open spec fn is_seed_inst(inst: MirInstruction, name: Seq<char>, x: usize) -> bool {
    inst matches MirInstruction::Call { dest, name: n, return_type: OnuType::I64, .. } && dest == x && n@ == name
}

/// Whether some instruction of the blocks calls `name` returning `I64` into `x`.
pub open spec fn is_seed(blocks: Seq<BasicBlock>, name: Seq<char>, x: usize) -> bool {
    exists|b: int, i: int| 0 <= b < blocks.len() && 0 <= i < blocks[b].instructions@.len()
        && #[trigger] is_seed_inst(blocks[b].instructions@[i], name, x)
}

/// Whether `path` leads from the result of a call to `name`, one copy or
/// arithmetic instruction at a time, to its last element.
pub open spec fn is_fwd_path(blocks: Seq<BasicBlock>, name: Seq<char>, path: Seq<usize>) -> bool {
    &&& path.len() > 0
    &&& is_seed(blocks, name, path[0])
    &&& forall|i: int| 0 <= i < path.len() - 1 ==> #[trigger] fwd_edge(blocks, path[i], path[i + 1])
}

/// Whether the value of `x` derives from the result of a call to `name`, so
/// that it becomes wide when `name` is upgraded.
pub open spec fn in_upgraded(blocks: Seq<BasicBlock>, name: Seq<char>, x: usize) -> bool {
    exists|path: Seq<usize>| #[trigger] is_fwd_path(blocks, name, path) && path.last() == x
}

/// Whether everything `x` is passed on to is in `c`.
pub open spec fn fwd_closed_at(blocks: Seq<BasicBlock>, c: Seq<usize>, x: usize) -> bool {
    forall|b: int, i: int, y: usize| 0 <= b < blocks.len() && 0 <= i < blocks[b].instructions@.len()
        && #[trigger] fwd_step(blocks[b].instructions@[i], x, y) ==> c.contains(y)
}

/// The variables instructions of the blocks define.
pub open spec fn inst_dest_seq(inst: MirInstruction) -> Seq<usize> {
    match inst {
        MirInstruction::Assign { dest, .. } => seq![dest],
        MirInstruction::BinaryOperation { dest, .. } => seq![dest],
        MirInstruction::Call { dest, .. } => seq![dest],
        _ => Seq::empty(),
    }
}

pub open spec fn insts_dests(insts: Seq<MirInstruction>) -> Seq<usize>
    decreases insts.len(),
{
    if insts.len() == 0 {
        Seq::empty()
    } else {
        insts_dests(insts.drop_last()) + inst_dest_seq(insts.last())
    }
}

pub open spec fn blocks_dests(blocks: Seq<BasicBlock>) -> Seq<usize>
    decreases blocks.len(),
{
    if blocks.len() == 0 {
        Seq::empty()
    } else {
        blocks_dests(blocks.drop_last()) + insts_dests(blocks.last().instructions@)
    }
}

proof fn lemma_insts_dests_contains(insts: Seq<MirInstruction>, i: int, x: usize)
    requires
        0 <= i < insts.len(),
        inst_dest_seq(insts[i]).contains(x),
    ensures
        insts_dests(insts).contains(x),
    decreases insts.len(),
{
    let pre = insts_dests(insts.drop_last());
    let own = inst_dest_seq(insts.last());
    let all = insts_dests(insts);
    if i == insts.len() - 1 {
        let j = choose|j: int| 0 <= j < own.len() && own[j] == x;
        assert(all[pre.len() + j] == x);
    } else {
        assert(insts.drop_last()[i] == insts[i]);
        lemma_insts_dests_contains(insts.drop_last(), i, x);
        let j = choose|j: int| 0 <= j < pre.len() && pre[j] == x;
        assert(all[j] == x);
    }
}

pub(crate) proof fn lemma_blocks_dests_contains(blocks: Seq<BasicBlock>, b: int, i: int, x: usize)
    requires
        0 <= b < blocks.len(),
        0 <= i < blocks[b].instructions@.len(),
        inst_dest_seq(blocks[b].instructions@[i]).contains(x),
    ensures
        blocks_dests(blocks).contains(x),
    decreases blocks.len(),
{
    let pre = blocks_dests(blocks.drop_last());
    let own = insts_dests(blocks.last().instructions@);
    let all = blocks_dests(blocks);
    if b == blocks.len() - 1 {
        lemma_insts_dests_contains(blocks[b].instructions@, i, x);
        let j = choose|j: int| 0 <= j < own.len() && own[j] == x;
        assert(all[pre.len() + j] == x);
    } else {
        assert(blocks.drop_last()[b] == blocks[b]);
        lemma_blocks_dests_contains(blocks.drop_last(), b, i, x);
        let j = choose|j: int| 0 <= j < pre.len() && pre[j] == x;
        assert(all[j] == x);
    }
}

proof fn lemma_fwd_path_next(blocks: Seq<BasicBlock>, name: Seq<char>, path: Seq<usize>, x: usize)
    requires
        is_fwd_path(blocks, name, path),
        fwd_edge(blocks, path.last(), x),
    ensures
        is_fwd_path(blocks, name, path.push(x)),
        path.push(x).last() == x,
{
    let p2 = path.push(x);
    assert forall|i: int| 0 <= i < p2.len() - 1 implies #[trigger] fwd_edge(blocks, p2[i], p2[i + 1]) by {
        if i < path.len() - 1 {
            assert(fwd_edge(blocks, path[i], path[i + 1]));
        }
    }
}

proof fn lemma_fwd_path_in_closed(blocks: Seq<BasicBlock>, name: Seq<char>, c: Seq<usize>, path: Seq<usize>)
    requires
        forall|z: usize| is_seed(blocks, name, z) ==> c.contains(z),
        forall|z: usize| c.contains(z) ==> fwd_closed_at(blocks, c, z),
        is_fwd_path(blocks, name, path),
    ensures
        c.contains(path.last()),
    decreases path.len(),
{
    if path.len() > 1 {
        let pre = path.drop_last();
        assert forall|i: int| 0 <= i < pre.len() - 1 implies #[trigger] fwd_edge(blocks, pre[i], pre[i + 1]) by {
            assert(fwd_edge(blocks, path[i], path[i + 1]));
        }
        lemma_fwd_path_in_closed(blocks, name, c, pre);
        let i = path.len() - 2;
        assert(fwd_edge(blocks, path[i], path[i + 1]));
        let y = pre.last();
        assert(fwd_closed_at(blocks, c, y));
        let (b, j) = choose|b: int, j: int| 0 <= b < blocks.len() && 0 <= j < blocks[b].instructions@.len()
            && #[trigger] fwd_step(blocks[b].instructions@[j], y, path.last());
        assert(fwd_step(blocks[b].instructions@[j], y, path.last()));
    }
}

/// The results of calls to `name` returning `I64`.
fn collect_seeds(blocks: &Vec<BasicBlock>, name: &String) -> (up: Vec<usize>)
    ensures
        up@.no_duplicates(),
        forall|x: usize| up@.contains(x) <==> is_seed(blocks@, name@, x),
{
    let mut up: Vec<usize> = Vec::new();
    let mut b: usize = 0;
    while b < blocks.len()
        invariant
            b <= blocks@.len(),
            up@.no_duplicates(),
            forall|x: usize| up@.contains(x) <==> exists|bb: int, i: int| 0 <= bb < b && 0 <= i < blocks@[bb].instructions@.len()
                && #[trigger] is_seed_inst(blocks@[bb].instructions@[i], name@, x),
        decreases blocks.len() - b,
    {
        let insts = &blocks[b].instructions;
        let mut i: usize = 0;
        while i < insts.len()
            invariant
                b < blocks@.len(),
                *insts == blocks@[b as int].instructions,
                i <= insts@.len(),
                up@.no_duplicates(),
                forall|x: usize| up@.contains(x) <==> (
                    (exists|bb: int, ii: int| 0 <= bb < b && 0 <= ii < blocks@[bb].instructions@.len()
                        && #[trigger] is_seed_inst(blocks@[bb].instructions@[ii], name@, x))
                    || (exists|ii: int| 0 <= ii < i && #[trigger] is_seed_inst(insts@[ii], name@, x))),
            decreases insts.len() - i,
        {
            if let MirInstruction::Call { dest, name: n, return_type, .. } = &insts[i] {
                if return_type.is_i64() && *n == *name {
                    proof { assert(is_seed_inst(insts@[i as int], name@, *dest)); }
                    set_insert(&mut up, *dest);
                }
            }
            proof {
                assert forall|x: usize| up@.contains(x) <==> (
                    (exists|bb: int, ii: int| 0 <= bb < b && 0 <= ii < blocks@[bb].instructions@.len()
                        && #[trigger] is_seed_inst(blocks@[bb].instructions@[ii], name@, x))
                    || (exists|ii: int| 0 <= ii < i + 1 && #[trigger] is_seed_inst(insts@[ii], name@, x))) by {
                    if is_seed_inst(insts@[i as int], name@, x) {
                        assert(exists|ii: int| 0 <= ii < i + 1 && #[trigger] is_seed_inst(insts@[ii], name@, x));
                    }
                }
            }
            i = i + 1;
        }
        proof {
            assert forall|x: usize| up@.contains(x) <==> exists|bb: int, ii: int| 0 <= bb < b + 1 && 0 <= ii < blocks@[bb].instructions@.len()
                && #[trigger] is_seed_inst(blocks@[bb].instructions@[ii], name@, x) by {
                if exists|ii: int| 0 <= ii < i && #[trigger] is_seed_inst(insts@[ii], name@, x) {
                    let ii = choose|ii: int| 0 <= ii < i && #[trigger] is_seed_inst(insts@[ii], name@, x);
                    assert(is_seed_inst(blocks@[b as int].instructions@[ii], name@, x));
                }
                if exists|bb: int, ii: int| 0 <= bb < b + 1 && 0 <= ii < blocks@[bb].instructions@.len()
                    && #[trigger] is_seed_inst(blocks@[bb].instructions@[ii], name@, x) {
                    let (bb, ii) = choose|bb: int, ii: int| 0 <= bb < b + 1 && 0 <= ii < blocks@[bb].instructions@.len()
                        && #[trigger] is_seed_inst(blocks@[bb].instructions@[ii], name@, x);
                    if bb == b {
                        assert(is_seed_inst(insts@[ii], name@, x));
                    }
                }
            }
        }
        b = b + 1;
    }
    up
}

/// Adds to `up` (and to `work` when new) every variable an instruction of
/// the blocks passes `x` on to.
fn add_successors(blocks: &Vec<BasicBlock>, x: usize, up: &mut Vec<usize>, work: &mut Vec<usize>)
    requires
        old(up)@.no_duplicates(),
    ensures
        final(up)@.no_duplicates(),
        fwd_closed_at(blocks@, final(up)@, x),
        forall|z: usize| final(up)@.contains(z) <==> (old(up)@.contains(z) || fwd_edge(blocks@, x, z)),
        forall|z: usize| final(work)@.contains(z) <==> (old(work)@.contains(z) || (fwd_edge(blocks@, x, z) && !old(up)@.contains(z))),
        final(up)@.len() >= old(up)@.len(),
        final(up)@.len() - old(up)@.len() == final(work)@.len() - old(work)@.len(),
{
    let ghost up0 = up@;
    let ghost work0 = work@;
    let mut b: usize = 0;
    while b < blocks.len()
        invariant
            b <= blocks@.len(),
            up@.no_duplicates(),
            forall|bb: int, i: int, y: usize| 0 <= bb < b && 0 <= i < blocks@[bb].instructions@.len()
                && #[trigger] fwd_step(blocks@[bb].instructions@[i], x, y) ==> up@.contains(y),
            forall|z: usize| up@.contains(z) ==> (up0.contains(z) || fwd_edge(blocks@, x, z)),
            forall|z: usize| up0.contains(z) ==> up@.contains(z),
            forall|z: usize| work@.contains(z) <==> (work0.contains(z) || (up@.contains(z) && !up0.contains(z))),
            up@.len() >= up0.len(),
            up@.len() - up0.len() == work@.len() - work0.len(),
        decreases blocks.len() - b,
    {
        let insts = &blocks[b].instructions;
        let mut i: usize = 0;
        while i < insts.len()
            invariant
                b < blocks@.len(),
                *insts == blocks@[b as int].instructions,
                i <= insts@.len(),
                up@.no_duplicates(),
                forall|bb: int, ii: int, y: usize| 0 <= bb < b && 0 <= ii < blocks@[bb].instructions@.len()
                    && #[trigger] fwd_step(blocks@[bb].instructions@[ii], x, y) ==> up@.contains(y),
                forall|ii: int, y: usize| 0 <= ii < i && #[trigger] fwd_step(insts@[ii], x, y) ==> up@.contains(y),
                forall|z: usize| up@.contains(z) ==> (up0.contains(z) || fwd_edge(blocks@, x, z)),
                forall|z: usize| up0.contains(z) ==> up@.contains(z),
                forall|z: usize| work@.contains(z) <==> (work0.contains(z) || (up@.contains(z) && !up0.contains(z))),
                up@.len() >= up0.len(),
                up@.len() - up0.len() == work@.len() - work0.len(),
            decreases insts.len() - i,
        {
            let target: Option<usize> = match &insts[i] {
                MirInstruction::Assign { dest, src: MirOperand::Variable(v, _) } => if *v == x { Some(*dest) } else { None },
                MirInstruction::BinaryOperation { dest, op, lhs, rhs, .. } => {
                    let l = match lhs { MirOperand::Variable(v, _) => *v == x, _ => false };
                    let r = match rhs { MirOperand::Variable(v, _) => *v == x, _ => false };
                    if !is_comparison(op) && (l || r) { Some(*dest) } else { None }
                }
                _ => None,
            };
            proof {
                assert forall|y: usize| #[trigger] fwd_step(insts@[i as int], x, y) implies target == Some(y) by {}
            }
            if let Some(y) = target {
                proof {
                    assert(fwd_step(blocks@[b as int].instructions@[i as int], x, y));
                    assert(fwd_edge(blocks@, x, y));
                }
                let ghost u1 = up@;
                let ghost w1 = work@;
                chain_add(up, work, y);
                proof {
                    assert forall|z: usize| work@.contains(z) <==> (work0.contains(z) || (up@.contains(z) && !up0.contains(z))) by {
                        if z == y && !u1.contains(y) {
                            assert(!up0.contains(y));
                        }
                    }
                }
            }
            i = i + 1;
        }
        b = b + 1;
    }
    proof {
        assert forall|z: usize| up@.contains(z) <==> (up0.contains(z) || fwd_edge(blocks@, x, z)) by {
            if fwd_edge(blocks@, x, z) {
                let (bb, ii) = choose|bb: int, ii: int| 0 <= bb < blocks@.len() && 0 <= ii < blocks@[bb].instructions@.len()
                    && #[trigger] fwd_step(blocks@[bb].instructions@[ii], x, z);
                assert(fwd_step(blocks@[bb].instructions@[ii], x, z));
            }
        }
    }
}

/// The variables whose values derive from the results of calls to `name`
/// returning `I64`, through copies and arithmetic (comparisons excluded).
pub fn find_upgraded(blocks: &Vec<BasicBlock>, name: &String) -> (up: Vec<usize>)
    ensures
        up@.no_duplicates(),
        forall|x: usize| up@.contains(x) <==> in_upgraded(blocks@, name@, x),
{
    let ghost bs = blocks@;
    let ghost ds = blocks_dests(bs);
    let mut up = collect_seeds(blocks, name);
    let mut work: Vec<usize> = Vec::new();
    let mut k: usize = 0;
    while k < up.len()
        invariant
            k <= up@.len(),
            work@ == up@.subrange(0, k as int),
            up@.no_duplicates(),
            bs == blocks@,
            ds == blocks_dests(bs),
            forall|x: usize| up@.contains(x) <==> is_seed(blocks@, name@, x),
        decreases up.len() - k,
    {
        work.push(up[k]);
        proof { assert(work@ =~= up@.subrange(0, k as int + 1)); }
        k = k + 1;
    }
    proof {
        assert(work@ =~= up@);
        assert forall|x: usize| #[trigger] up@.contains(x) implies ds.contains(x) && in_upgraded(bs, name@, x) by {
            let (b, i) = choose|b: int, i: int| 0 <= b < bs.len() && 0 <= i < bs[b].instructions@.len()
                && #[trigger] is_seed_inst(bs[b].instructions@[i], name@, x);
            assert(inst_dest_seq(bs[b].instructions@[i])[0] == x);
            lemma_blocks_dests_contains(bs, b, i, x);
            let p = seq![x];
            assert(p[0] == x);
            assert(is_seed(bs, name@, p[0]));
            assert(p.len() == 1);
            assert(is_fwd_path(bs, name@, p));
            assert(p.last() == x);
            assert(in_upgraded(bs, name@, x));
        }
        lemma_unique_within(up@, ds);
        assert forall|x: usize| is_seed(bs, name@, x) implies up@.contains(x) by {
            assert(is_seed(blocks@, name@, x));
        }
    }
    while work.len() > 0
        invariant
            bs == blocks@,
            ds == blocks_dests(bs),
            up@.no_duplicates(),
            up@.len() <= ds.len(),
            forall|x: usize| work@.contains(x) ==> up@.contains(x),
            forall|x: usize| is_seed(bs, name@, x) ==> up@.contains(x),
            forall|x: usize| up@.contains(x) ==> in_upgraded(bs, name@, x),
            forall|x: usize| up@.contains(x) ==> ds.contains(x),
            forall|x: usize| up@.contains(x) && !work@.contains(x) ==> fwd_closed_at(bs, up@, x),
        decreases ds.len() - up@.len(), work@.len(),
    {
        let ghost u0 = up@;
        let ghost w0 = work@;
        let x = work.pop().unwrap();
        proof {
            assert(w0.contains(x));
            assert(work@ =~= w0.drop_last());
            assert(in_upgraded(bs, name@, x));
        }
        let ghost px = choose|path: Seq<usize>| #[trigger] is_fwd_path(bs, name@, path) && path.last() == x;
        let ghost w1 = work@;
        add_successors(blocks, x, &mut up, &mut work);
        proof {
            assert forall|z: usize| u0.contains(z) implies up@.contains(z) by {}
            assert forall|z: usize| #[trigger] up@.contains(z) implies in_upgraded(bs, name@, z) && ds.contains(z) by {
                if !u0.contains(z) {
                    lemma_fwd_path_next(bs, name@, px, z);
                    assert(is_fwd_path(bs, name@, px.push(z)) && px.push(z).last() == z);
                    let (b, i) = choose|b: int, i: int| 0 <= b < bs.len() && 0 <= i < bs[b].instructions@.len()
                        && #[trigger] fwd_step(bs[b].instructions@[i], x, z);
                    assert(inst_dest_seq(bs[b].instructions@[i])[0] == z);
                    lemma_blocks_dests_contains(bs, b, i, z);
                }
            }
            assert forall|z: usize| up@.contains(z) && !work@.contains(z) implies fwd_closed_at(bs, up@, z) by {
                if z != x {
                    if w0.contains(z) {
                        let j = choose|j: int| 0 <= j < w0.len() && w0[j] == z;
                        if j < w0.len() - 1 {
                            assert(w1[j] == z);
                        }
                    }
                    assert(u0.contains(z));
                    assert(fwd_closed_at(bs, u0, z));
                }
            }
            assert forall|z: usize| work@.contains(z) implies up@.contains(z) by {}
            assert forall|z: usize| is_seed(bs, name@, z) implies up@.contains(z) by {
                assert(u0.contains(z));
            }
            lemma_unique_within(up@, ds);
        }
    }
    proof {
        assert forall|x: usize| in_upgraded(bs, name@, x) implies up@.contains(x) by {
            let path = choose|path: Seq<usize>| #[trigger] is_fwd_path(bs, name@, path) && path.last() == x;
            lemma_fwd_path_in_closed(bs, name@, up@, path);
        }
    }
    up
}

/// The set of variables known to be wide after one forward scan of the
/// first `n` instructions, starting from `p`: a copy of a known variable is
/// known.
pub open spec fn scan_step(p: Set<usize>, inst: MirInstruction) -> Set<usize> {
    match inst {
        MirInstruction::Assign { dest, src: MirOperand::Variable(y, _) } => if p.contains(y) { p.insert(dest) } else { p },
        _ => p,
    }
}

pub open spec fn scan_insts(p: Set<usize>, insts: Seq<MirInstruction>, n: int) -> Set<usize>
    decreases n,
{
    if n <= 0 {
        p
    } else {
        scan_step(scan_insts(p, insts, n - 1), insts[n - 1])
    }
}

pub open spec fn scan_blocks(p: Set<usize>, blocks: Seq<BasicBlock>, n: int) -> Set<usize>
    decreases n,
{
    if n <= 0 {
        p
    } else {
        let q = scan_blocks(p, blocks, n - 1);
        scan_insts(q, blocks[n - 1].instructions@, blocks[n - 1].instructions@.len() as int)
    }
}

/// The results of calls to `name` returning `I64`, as a set.
pub open spec fn seed_set(blocks: Seq<BasicBlock>, name: Seq<char>) -> Set<usize> {
    Set::new(|x: usize| is_seed(blocks, name, x))
}

/// What the forward scan knows to be wide just before instruction `i` of
/// block `b`.
pub open spec fn scan_state(blocks: Seq<BasicBlock>, name: Seq<char>, b: int, i: int) -> Set<usize> {
    scan_insts(scan_blocks(seed_set(blocks, name), blocks, b), blocks[b].instructions@, i)
}

/// Instruction `i` of block `b` copies a value known to be wide.
pub open spec fn copies_wide_at(blocks: Seq<BasicBlock>, name: Seq<char>, b: int, i: int) -> bool {
    blocks[b].instructions@[i] matches MirInstruction::Assign { src: MirOperand::Variable(y, _), .. }
        && scan_state(blocks, name, b, i).contains(y)
}

/// `x` is the decimal-text buffer allocated just before a copy of a wide
/// value at instruction `i` of block `b`.
pub open spec fn buf_at(blocks: Seq<BasicBlock>, name: Seq<char>, b: int, i: int, x: usize) -> bool {
    &&& 0 < i
    &&& copies_wide_at(blocks, name, b, i)
    &&& blocks[b].instructions@[i - 1] matches MirInstruction::Alloc { dest, size_bytes: MirOperand::Constant(MirLiteral::I64(s)) }
    &&& s == AS_TEXT_OLD_BUF_SIZE && dest == x
}

/// `x` is the decimal-text index set just after a copy of a wide value at
/// instruction `i` of block `b`.
pub open spec fn idx_at(blocks: Seq<BasicBlock>, name: Seq<char>, b: int, i: int, x: usize) -> bool {
    &&& i + 1 < blocks[b].instructions@.len()
    &&& copies_wide_at(blocks, name, b, i)
    &&& blocks[b].instructions@[i + 1] matches MirInstruction::Assign { dest, src: MirOperand::Constant(MirLiteral::I64(v)) }
    &&& v == AS_TEXT_OLD_IDX_MAX && dest == x
}

pub open spec fn is_buf(blocks: Seq<BasicBlock>, name: Seq<char>, x: usize) -> bool {
    exists|b: int, i: int| 0 <= b < blocks.len() && 0 <= i < blocks[b].instructions@.len() && #[trigger] buf_at(blocks, name, b, i, x)
}

pub open spec fn is_idx(blocks: Seq<BasicBlock>, name: Seq<char>, x: usize) -> bool {
    exists|b: int, i: int| 0 <= b < blocks.len() && 0 <= i < blocks[b].instructions@.len() && #[trigger] idx_at(blocks, name, b, i, x)
}

/// The buffer size for the decimal text of a `WideInt(bits)`:
/// `ceil(bits * 0.30103) + 1` digits and a margin of 8.
pub open spec fn spec_new_buf_size(bits: u32) -> i64 {
    ((bits * 30103 + 99999) / 100000 + 1 + 8) as i64
}

/// The highest index of that buffer that the digit loop starts from.
pub open spec fn spec_new_idx_max(bits: u32) -> i64 {
    (spec_new_buf_size(bits) - 2) as i64
}

/// How an instruction of a caller of an upgraded function is rewritten.
pub open spec fn caller_rewritten(inst: MirInstruction, out: MirInstruction, name: Seq<char>, blocks: Seq<BasicBlock>, bits: u32) -> bool {
    let nb = spec_new_buf_size(bits);
    let ni = spec_new_idx_max(bits);
    match inst {
        MirInstruction::Call { dest, name: n, args, return_type, arg_types, is_tail_call } =>
            if return_type is I64 && n@ == name {
                out == MirInstruction::Call { dest, name: n, args, return_type: OnuType::WideInt(bits), arg_types, is_tail_call }
            } else {
                out == inst
            },
        MirInstruction::BinaryOperation { dest, op, lhs, rhs, dest_type } =>
            if dest_type is I64 && in_upgraded(blocks, name, dest) && !spec_is_comparison(op) {
                out == MirInstruction::BinaryOperation { dest, op, lhs, rhs, dest_type: OnuType::WideInt(bits) }
            } else if op == MirBinOp::Sub && lhs == MirOperand::Constant(MirLiteral::I64(AS_TEXT_OLD_IDX_MAX))
                && (rhs matches MirOperand::Variable(x, _) && is_idx(blocks, name, x)) {
                out == MirInstruction::BinaryOperation { dest, op, lhs: MirOperand::Constant(MirLiteral::I64(ni)), rhs, dest_type }
            } else {
                out == inst
            },
        MirInstruction::Alloc { dest, size_bytes: MirOperand::Constant(MirLiteral::I64(s)) } =>
            if is_buf(blocks, name, dest) && s == AS_TEXT_OLD_BUF_SIZE {
                out == MirInstruction::Alloc { dest, size_bytes: MirOperand::Constant(MirLiteral::I64(nb)) }
            } else {
                out == inst
            },
        MirInstruction::Assign { dest, src: MirOperand::Constant(MirLiteral::I64(v)) } =>
            if is_idx(blocks, name, dest) && v == AS_TEXT_OLD_IDX_MAX {
                out == MirInstruction::Assign { dest, src: MirOperand::Constant(MirLiteral::I64(ni)) }
            } else if is_idx(blocks, name, dest) && v == AS_TEXT_OLD_IDX_MAX - 1 {
                out == MirInstruction::Assign { dest, src: MirOperand::Constant(MirLiteral::I64((ni - 1) as i64)) }
            } else {
                out == inst
            },
        MirInstruction::PointerOffset { dest, ptr, offset: MirOperand::Constant(MirLiteral::I64(v)) } =>
            if v == AS_TEXT_OLD_IDX_MAX && (ptr matches MirOperand::Variable(x, _) && is_buf(blocks, name, x)) {
                out == MirInstruction::PointerOffset { dest, ptr, offset: MirOperand::Constant(MirLiteral::I64(ni)) }
            } else {
                out == inst
            },
        _ => out == inst,
    }
}

/// A caller of `name` after the upgrade: everything but its instructions
/// kept, each instruction rewritten.
pub open spec fn caller_upgraded(f: MirFunction, g: MirFunction, name: Seq<char>, bits: u32) -> bool {
    &&& g.name == f.name
    &&& g.args == f.args
    &&& g.return_type == f.return_type
    &&& g.is_pure_data_leaf == f.is_pure_data_leaf
    &&& g.diminishing == f.diminishing
    &&& g.memo_cache_size == f.memo_cache_size
    &&& g.blocks@.len() == f.blocks@.len()
    &&& forall|b: int| 0 <= b < f.blocks@.len() ==> {
        &&& (#[trigger] g.blocks@[b]).id == f.blocks@[b].id
        &&& g.blocks@[b].terminator == f.blocks@[b].terminator
        &&& g.blocks@[b].instructions@.len() == f.blocks@[b].instructions@.len()
        &&& forall|i: int| 0 <= i < f.blocks@[b].instructions@.len()
            ==> #[trigger] caller_rewritten(f.blocks@[b].instructions@[i], g.blocks@[b].instructions@[i], name, f.blocks@, bits)
    }
}

/// The buffer size and highest index for the decimal text of a
/// `WideInt(bits)`.
pub fn as_text_limits(bits: u32) -> (r: (i64, i64))
    ensures
        r.0 == spec_new_buf_size(bits),
        r.1 == spec_new_idx_max(bits),
{
    let b: i64 = bits as i64;
    assert(b * 30103 <= 0x1_0000_0000i64 * 30103) by (nonlinear_arith)
        requires b <= 0x1_0000_0000i64, b >= 0;
    let digits: i64 = (b * 30103 + 99999) / 100000 + 1;
    let size = digits + 8;
    (size, size - 2)
}

/// Whether the buffer `x` was found at a position before instruction `i`
/// of block `b`.
pub open spec fn buf_before(blocks: Seq<BasicBlock>, name: Seq<char>, b: int, i: int, x: usize) -> bool {
    exists|bb: int, ii: int| 0 <= bb <= b && bb < blocks.len() && 0 <= ii < blocks[bb].instructions@.len() && (bb < b || ii < i)
        && #[trigger] buf_at(blocks, name, bb, ii, x)
}

pub open spec fn idx_before(blocks: Seq<BasicBlock>, name: Seq<char>, b: int, i: int, x: usize) -> bool {
    exists|bb: int, ii: int| 0 <= bb <= b && bb < blocks.len() && 0 <= ii < blocks[bb].instructions@.len() && (bb < b || ii < i)
        && #[trigger] idx_at(blocks, name, bb, ii, x)
}

/// The decimal-text buffers and indices that sit around copies of wide
/// values, as one forward scan finds them.
fn find_as_text_vars(blocks: &Vec<BasicBlock>, name: &String) -> (r: (Vec<usize>, Vec<usize>))
    ensures
        forall|x: usize| r.0@.contains(x) <==> is_buf(blocks@, name@, x),
        forall|x: usize| r.1@.contains(x) <==> is_idx(blocks@, name@, x),
{
    let ghost bs = blocks@;
    let mut known = collect_seeds(blocks, name);
    let mut bufs: Vec<usize> = Vec::new();
    let mut idxs: Vec<usize> = Vec::new();
    proof {
        assert forall|x: usize| known@.contains(x) <==> scan_blocks(seed_set(bs, name@), bs, 0).contains(x) by {}
    }
    let mut b: usize = 0;
    while b < blocks.len()
        invariant
            bs == blocks@,
            b <= bs.len(),
            known@.no_duplicates(),
            bufs@.no_duplicates(),
            idxs@.no_duplicates(),
            forall|x: usize| known@.contains(x) <==> scan_blocks(seed_set(bs, name@), bs, b as int).contains(x),
            forall|x: usize| bufs@.contains(x) <==> buf_before(bs, name@, b as int, 0, x),
            forall|x: usize| idxs@.contains(x) <==> idx_before(bs, name@, b as int, 0, x),
        decreases bs.len() - b,
    {
        let insts = &blocks[b].instructions;
        let ghost is = insts@;
        let mut i: usize = 0;
        proof {
            assert forall|x: usize| bufs@.contains(x) <==> buf_before(bs, name@, b as int, i as int, x) by {
                if buf_before(bs, name@, b as int, 0, x) {
                    let (bb, ii) = choose|bb: int, ii: int| 0 <= bb <= b && bb < bs.len() && 0 <= ii < bs[bb].instructions@.len()
                        && (bb < b || ii < 0) && #[trigger] buf_at(bs, name@, bb, ii, x);
                }
                if buf_before(bs, name@, b as int, i as int, x) {
                    let (bb, ii) = choose|bb: int, ii: int| 0 <= bb <= b && bb < bs.len() && 0 <= ii < bs[bb].instructions@.len()
                        && (bb < b || ii < i) && #[trigger] buf_at(bs, name@, bb, ii, x);
                    assert(buf_at(bs, name@, bb, ii, x));
                }
            }
            assert forall|x: usize| idxs@.contains(x) <==> idx_before(bs, name@, b as int, i as int, x) by {
                if idx_before(bs, name@, b as int, 0, x) {
                    let (bb, ii) = choose|bb: int, ii: int| 0 <= bb <= b && bb < bs.len() && 0 <= ii < bs[bb].instructions@.len()
                        && (bb < b || ii < 0) && #[trigger] idx_at(bs, name@, bb, ii, x);
                }
                if idx_before(bs, name@, b as int, i as int, x) {
                    let (bb, ii) = choose|bb: int, ii: int| 0 <= bb <= b && bb < bs.len() && 0 <= ii < bs[bb].instructions@.len()
                        && (bb < b || ii < i) && #[trigger] idx_at(bs, name@, bb, ii, x);
                    assert(idx_at(bs, name@, bb, ii, x));
                }
            }
        }
        while i < insts.len()
            invariant
                bs == blocks@,
                b < bs.len(),
                *insts == bs[b as int].instructions,
                is == insts@,
                i <= is.len(),
                known@.no_duplicates(),
                bufs@.no_duplicates(),
                idxs@.no_duplicates(),
                forall|x: usize| known@.contains(x) <==> scan_state(bs, name@, b as int, i as int).contains(x),
                forall|x: usize| bufs@.contains(x) <==> buf_before(bs, name@, b as int, i as int, x),
                forall|x: usize| idxs@.contains(x) <==> idx_before(bs, name@, b as int, i as int, x),
            decreases is.len() - i,
        {
            let ghost st = scan_state(bs, name@, b as int, i as int);
            let ghost b0 = bufs@;
            let ghost i0 = idxs@;
            proof {
                let q = scan_blocks(seed_set(bs, name@), bs, b as int);
                assert(scan_insts(q, is, i as int + 1) == scan_step(scan_insts(q, is, i as int), is[i as int]));
            }
            if let MirInstruction::Assign { dest: val, src: MirOperand::Variable(y, _) } = &insts[i] {
                if vec_contains(&known, *y) {
                    proof { assert(copies_wide_at(bs, name@, b as int, i as int)); }
                    if i > 0 {
                        if let MirInstruction::Alloc { dest: buf, size_bytes: MirOperand::Constant(MirLiteral::I64(s)) } = &insts[i - 1] {
                            if *s == AS_TEXT_OLD_BUF_SIZE {
                                proof { assert(buf_at(bs, name@, b as int, i as int, *buf)); }
                                set_insert(&mut bufs, *buf);
                            }
                        }
                    }
                    if i + 1 < insts.len() {
                        if let MirInstruction::Assign { dest: idx, src: MirOperand::Constant(MirLiteral::I64(v)) } = &insts[i + 1] {
                            if *v == AS_TEXT_OLD_IDX_MAX {
                                proof { assert(idx_at(bs, name@, b as int, i as int, *idx)); }
                                set_insert(&mut idxs, *idx);
                            }
                        }
                    }
                    set_insert(&mut known, *val);
                } else {
                    proof { assert(!copies_wide_at(bs, name@, b as int, i as int)); }
                }
            } else {
                proof { assert(!copies_wide_at(bs, name@, b as int, i as int)); }
            }
            proof {
                assert forall|x: usize| bufs@.contains(x) <==> buf_before(bs, name@, b as int, i as int + 1, x) by {
                    if buf_before(bs, name@, b as int, i as int + 1, x) {
                        let (bb, ii) = choose|bb: int, ii: int| 0 <= bb <= b && bb < bs.len() && 0 <= ii < bs[bb].instructions@.len()
                            && (bb < b || ii < i + 1) && #[trigger] buf_at(bs, name@, bb, ii, x);
                        if bb < b || ii < i {
                            assert(buf_before(bs, name@, b as int, i as int, x));
                        }
                    }
                    if b0.contains(x) {
                        let (bb, ii) = choose|bb: int, ii: int| 0 <= bb <= b && bb < bs.len() && 0 <= ii < bs[bb].instructions@.len()
                            && (bb < b || ii < i) && #[trigger] buf_at(bs, name@, bb, ii, x);
                        assert(buf_at(bs, name@, bb, ii, x));
                    }
                    if buf_at(bs, name@, b as int, i as int, x) {
                        assert(buf_before(bs, name@, b as int, i as int + 1, x));
                    }
                }
                assert forall|x: usize| idxs@.contains(x) <==> idx_before(bs, name@, b as int, i as int + 1, x) by {
                    if idx_before(bs, name@, b as int, i as int + 1, x) {
                        let (bb, ii) = choose|bb: int, ii: int| 0 <= bb <= b && bb < bs.len() && 0 <= ii < bs[bb].instructions@.len()
                            && (bb < b || ii < i + 1) && #[trigger] idx_at(bs, name@, bb, ii, x);
                        if bb < b || ii < i {
                            assert(idx_before(bs, name@, b as int, i as int, x));
                        }
                    }
                    if i0.contains(x) {
                        let (bb, ii) = choose|bb: int, ii: int| 0 <= bb <= b && bb < bs.len() && 0 <= ii < bs[bb].instructions@.len()
                            && (bb < b || ii < i) && #[trigger] idx_at(bs, name@, bb, ii, x);
                        assert(idx_at(bs, name@, bb, ii, x));
                    }
                    if idx_at(bs, name@, b as int, i as int, x) {
                        assert(idx_before(bs, name@, b as int, i as int + 1, x));
                    }
                }
            }
            i = i + 1;
        }
        proof {
            assert(scan_blocks(seed_set(bs, name@), bs, b as int + 1) == scan_state(bs, name@, b as int, is.len() as int));
            assert forall|x: usize| bufs@.contains(x) <==> buf_before(bs, name@, b as int + 1, 0, x) by {
                if buf_before(bs, name@, b as int + 1, 0, x) {
                    let (bb, ii) = choose|bb: int, ii: int| 0 <= bb <= b + 1 && bb < bs.len() && 0 <= ii < bs[bb].instructions@.len()
                        && (bb < b + 1 || ii < 0) && #[trigger] buf_at(bs, name@, bb, ii, x);
                    assert(buf_before(bs, name@, b as int, i as int, x));
                }
                if buf_before(bs, name@, b as int, i as int, x) {
                    let (bb, ii) = choose|bb: int, ii: int| 0 <= bb <= b && bb < bs.len() && 0 <= ii < bs[bb].instructions@.len()
                        && (bb < b || ii < i) && #[trigger] buf_at(bs, name@, bb, ii, x);
                    assert(buf_at(bs, name@, bb, ii, x));
                }
            }
            assert forall|x: usize| idxs@.contains(x) <==> idx_before(bs, name@, b as int + 1, 0, x) by {
                if idx_before(bs, name@, b as int + 1, 0, x) {
                    let (bb, ii) = choose|bb: int, ii: int| 0 <= bb <= b + 1 && bb < bs.len() && 0 <= ii < bs[bb].instructions@.len()
                        && (bb < b + 1 || ii < 0) && #[trigger] idx_at(bs, name@, bb, ii, x);
                    assert(idx_before(bs, name@, b as int, i as int, x));
                }
                if idx_before(bs, name@, b as int, i as int, x) {
                    let (bb, ii) = choose|bb: int, ii: int| 0 <= bb <= b && bb < bs.len() && 0 <= ii < bs[bb].instructions@.len()
                        && (bb < b || ii < i) && #[trigger] idx_at(bs, name@, bb, ii, x);
                    assert(idx_at(bs, name@, bb, ii, x));
                }
            }
        }
        b = b + 1;
    }
    proof {
        assert forall|x: usize| bufs@.contains(x) <==> is_buf(bs, name@, x) by {
            if is_buf(bs, name@, x) {
                let (bb, ii) = choose|bb: int, ii: int| 0 <= bb < bs.len() && 0 <= ii < bs[bb].instructions@.len() && #[trigger] buf_at(bs, name@, bb, ii, x);
                assert(buf_before(bs, name@, b as int, 0, x));
            }
            if bufs@.contains(x) {
                let (bb, ii) = choose|bb: int, ii: int| 0 <= bb <= b && bb < bs.len() && 0 <= ii < bs[bb].instructions@.len()
                    && (bb < b || ii < 0) && #[trigger] buf_at(bs, name@, bb, ii, x);
                assert(buf_at(bs, name@, bb, ii, x));
            }
        }
        assert forall|x: usize| idxs@.contains(x) <==> is_idx(bs, name@, x) by {
            if is_idx(bs, name@, x) {
                let (bb, ii) = choose|bb: int, ii: int| 0 <= bb < bs.len() && 0 <= ii < bs[bb].instructions@.len() && #[trigger] idx_at(bs, name@, bb, ii, x);
                assert(idx_before(bs, name@, b as int, 0, x));
            }
            if idxs@.contains(x) {
                let (bb, ii) = choose|bb: int, ii: int| 0 <= bb <= b && bb < bs.len() && 0 <= ii < bs[bb].instructions@.len()
                    && (bb < b || ii < 0) && #[trigger] idx_at(bs, name@, bb, ii, x);
                assert(idx_at(bs, name@, bb, ii, x));
            }
        }
    }
    (bufs, idxs)
}

fn rewrite_caller_inst(
    inst: MirInstruction,
    name: &String,
    up: &Vec<usize>,
    bufs: &Vec<usize>,
    idxs: &Vec<usize>,
    bits: u32,
    nb: i64,
    ni: i64,
    Ghost(bs): Ghost<Seq<BasicBlock>>,
) -> (out: MirInstruction)
    requires
        forall|x: usize| up@.contains(x) <==> in_upgraded(bs, name@, x),
        forall|x: usize| bufs@.contains(x) <==> is_buf(bs, name@, x),
        forall|x: usize| idxs@.contains(x) <==> is_idx(bs, name@, x),
        nb == spec_new_buf_size(bits),
        ni == spec_new_idx_max(bits),
    ensures
        caller_rewritten(inst, out, name@, bs, bits),
{
    match inst {
        MirInstruction::Call { dest, name: n, args, return_type, arg_types, is_tail_call } => {
            if return_type.is_i64() && n == *name {
                MirInstruction::Call { dest, name: n, args, return_type: OnuType::WideInt(bits), arg_types, is_tail_call }
            } else {
                MirInstruction::Call { dest, name: n, args, return_type, arg_types, is_tail_call }
            }
        }
        MirInstruction::BinaryOperation { dest, op, lhs, rhs, dest_type } => {
            if dest_type.is_i64() && vec_contains(up, dest) && !is_comparison(&op) {
                MirInstruction::BinaryOperation { dest, op, lhs, rhs, dest_type: OnuType::WideInt(bits) }
            } else {
                let is_sub = matches!(op, MirBinOp::Sub);
                let lhs_old = match &lhs {
                    MirOperand::Constant(MirLiteral::I64(v)) => *v == AS_TEXT_OLD_IDX_MAX,
                    _ => false,
                };
                let rhs_idx = match &rhs {
                    MirOperand::Variable(x, _) => vec_contains(idxs, *x),
                    _ => false,
                };
                if is_sub && lhs_old && rhs_idx {
                    MirInstruction::BinaryOperation { dest, op, lhs: MirOperand::Constant(MirLiteral::I64(ni)), rhs, dest_type }
                } else {
                    MirInstruction::BinaryOperation { dest, op, lhs, rhs, dest_type }
                }
            }
        }
        MirInstruction::Alloc { dest, size_bytes: MirOperand::Constant(MirLiteral::I64(s)) } => {
            if vec_contains(bufs, dest) && s == AS_TEXT_OLD_BUF_SIZE {
                MirInstruction::Alloc { dest, size_bytes: MirOperand::Constant(MirLiteral::I64(nb)) }
            } else {
                MirInstruction::Alloc { dest, size_bytes: MirOperand::Constant(MirLiteral::I64(s)) }
            }
        }
        MirInstruction::Assign { dest, src: MirOperand::Constant(MirLiteral::I64(v)) } => {
            let is_idx_var = vec_contains(idxs, dest);
            if is_idx_var && v == AS_TEXT_OLD_IDX_MAX {
                MirInstruction::Assign { dest, src: MirOperand::Constant(MirLiteral::I64(ni)) }
            } else if is_idx_var && v == AS_TEXT_OLD_IDX_MAX - 1 {
                MirInstruction::Assign { dest, src: MirOperand::Constant(MirLiteral::I64(ni - 1)) }
            } else {
                MirInstruction::Assign { dest, src: MirOperand::Constant(MirLiteral::I64(v)) }
            }
        }
        MirInstruction::PointerOffset { dest, ptr, offset: MirOperand::Constant(MirLiteral::I64(v)) } => {
            let is_buf_ptr = match &ptr {
                MirOperand::Variable(x, _) => vec_contains(bufs, *x),
                _ => false,
            };
            if v == AS_TEXT_OLD_IDX_MAX && is_buf_ptr {
                MirInstruction::PointerOffset { dest, ptr, offset: MirOperand::Constant(MirLiteral::I64(ni)) }
            } else {
                MirInstruction::PointerOffset { dest, ptr, offset: MirOperand::Constant(MirLiteral::I64(v)) }
            }
        }
        other => other,
    }
}

/// Rewrites a caller of the upgraded function `name`: the calls return the
/// wide type, arithmetic on values derived from them becomes wide, and the
/// buffer and indices of decimal printing around copies of such values are
/// widened to hold the longer text.
pub fn upgrade_caller(func: MirFunction, name: &String, bits: u32) -> (g: MirFunction)
    ensures
        caller_upgraded(func, g, name@, bits),
{
    let up = find_upgraded(&func.blocks, name);
    let (bufs, idxs) = find_as_text_vars(&func.blocks, name);
    let (nb, ni) = as_text_limits(bits);
    let ghost bs = func.blocks@;
    let MirFunction { name: fname, args, return_type, blocks, is_pure_data_leaf, diminishing, memo_cache_size } = func;
    let mut blocks = blocks;
    let mut b: usize = 0;
    while b < blocks.len()
        invariant
            forall|x: usize| up@.contains(x) <==> in_upgraded(bs, name@, x),
            forall|x: usize| bufs@.contains(x) <==> is_buf(bs, name@, x),
            forall|x: usize| idxs@.contains(x) <==> is_idx(bs, name@, x),
            nb == spec_new_buf_size(bits),
            ni == spec_new_idx_max(bits),
            blocks@.len() == bs.len(),
            b <= bs.len(),
            forall|j: int| 0 <= j < b ==> {
                &&& (#[trigger] blocks@[j]).id == bs[j].id
                &&& blocks@[j].terminator == bs[j].terminator
                &&& blocks@[j].instructions@.len() == bs[j].instructions@.len()
                &&& forall|i: int| 0 <= i < bs[j].instructions@.len()
                    ==> #[trigger] caller_rewritten(bs[j].instructions@[i], blocks@[j].instructions@[i], name@, bs, bits)
            },
            forall|j: int| b <= j < bs.len() ==> blocks@[j] == bs[j],
        decreases bs.len() - b,
    {
        let mut tmp = BasicBlock { id: 0, instructions: Vec::new(), terminator: MirTerminator::Unreachable };
        std::mem::swap(&mut tmp, &mut blocks[b]);
        let BasicBlock { id, instructions, terminator } = tmp;
        let ghost orig = instructions@;
        let mut insts = instructions;
        let mut i: usize = 0;
        while i < insts.len()
            invariant
                forall|x: usize| up@.contains(x) <==> in_upgraded(bs, name@, x),
                forall|x: usize| bufs@.contains(x) <==> is_buf(bs, name@, x),
                forall|x: usize| idxs@.contains(x) <==> is_idx(bs, name@, x),
                nb == spec_new_buf_size(bits),
                ni == spec_new_idx_max(bits),
                insts@.len() == orig.len(),
                i <= orig.len(),
                forall|j: int| 0 <= j < i ==> #[trigger] caller_rewritten(orig[j], insts@[j], name@, bs, bits),
                forall|j: int| i <= j < orig.len() ==> insts@[j] == orig[j],
            decreases orig.len() - i,
        {
            let mut t = MirInstruction::FlushStdout;
            std::mem::swap(&mut t, &mut insts[i]);
            let out = rewrite_caller_inst(t, name, &up, &bufs, &idxs, bits, nb, ni, Ghost(bs));
            insts.set(i, out);
            i = i + 1;
        }
        blocks.set(b, BasicBlock { id, instructions: insts, terminator });
        b = b + 1;
    }
    MirFunction { name: fname, args, return_type, blocks, is_pure_data_leaf, diminishing, memo_cache_size }
}

/// The upgrades the pass makes, in the order of the functions: the name of
/// each upgraded function, its width in bits and its largest literal
/// argument.
pub open spec fn upgrade_list(p: MirProgram, fns: Seq<MirFunction>) -> Seq<(Seq<char>, u32, i64)>
    decreases fns.len(),
{
    if fns.len() == 0 {
        Seq::empty()
    } else {
        let rest = upgrade_list(p, fns.drop_last());
        let f = fns.last();
        let m = spec_max_literal_call_arg(p, f.name@);
        if spec_is_upgrade_candidate(f) && m > 92 {
            rest.push((f.name@, spec_required_bits(m), m))
        } else {
            rest
        }
    }
}

/// One upgrade applied to every function: the function itself is upgraded,
/// the other functions that call it are rewritten as callers, and the rest
/// stay as they are.
pub open spec fn upgrade_step(before: Seq<MirFunction>, after: Seq<MirFunction>, u: (Seq<char>, u32, i64)) -> bool {
    &&& after.len() == before.len()
    &&& forall|i: int| 0 <= i < before.len() ==> #[trigger] step_at(before[i], after[i], u)
}

pub open spec fn step_at(f: MirFunction, g: MirFunction, u: (Seq<char>, u32, i64)) -> bool {
    if f.name@ == u.0 {
        body_upgraded(f, g, u.1, u.2)
    } else if spec_calls_fn(f.blocks@, u.0) {
        caller_upgraded(f, g, u.0, u.1)
    } else {
        g == f
    }
}

/// The functions after applying a list of upgrades in order: a run of
/// states, each obtained from the one before by the next upgrade.
pub open spec fn upgraded_by(before: Seq<MirFunction>, after: Seq<MirFunction>, ups: Seq<(Seq<char>, u32, i64)>) -> bool {
    exists|states: Seq<Seq<MirFunction>>| #[trigger] upgrade_states(states, before, after, ups)
}

pub open spec fn upgrade_states(
    states: Seq<Seq<MirFunction>>,
    before: Seq<MirFunction>,
    after: Seq<MirFunction>,
    ups: Seq<(Seq<char>, u32, i64)>,
) -> bool {
    &&& states.len() == ups.len() + 1
    &&& states[0] == before
    &&& states.last() == after
    &&& forall|i: int| 0 <= i < ups.len() ==> #[trigger] upgrade_step(states[i], states[i + 1], ups[i])
}

fn apply_upgrade(fns: Vec<MirFunction>, name: &String, bits: u32, max_n: i64) -> (out: Vec<MirFunction>)
    ensures
        upgrade_step(fns@, out@, (name@, bits, max_n)),
{
    let ghost orig = fns@;
    let mut fns = fns;
    let mut i: usize = 0;
    while i < fns.len()
        invariant
            fns@.len() == orig.len(),
            i <= orig.len(),
            forall|j: int| 0 <= j < i ==> #[trigger] step_at(orig[j], fns@[j], (name@, bits, max_n)),
            forall|j: int| i <= j < orig.len() ==> fns@[j] == orig[j],
        decreases orig.len() - i,
    {
        let mut f = MirFunction {
            name: String::new(),
            args: Vec::new(),
            return_type: OnuType::Nothing,
            blocks: Vec::new(),
            is_pure_data_leaf: false,
            diminishing: Vec::new(),
            memo_cache_size: None,
        };
        std::mem::swap(&mut f, &mut fns[i]);
        let g = if f.name == *name {
            upgrade_function_body(f, bits, max_n)
        } else if calls_fn(&f.blocks, name) {
            upgrade_caller(f, name, bits)
        } else {
            f
        };
        fns.set(i, g);
        i = i + 1;
    }
    fns
}

impl IntegerUpgradePass {
    /// The bits needed to hold `fib(max_n)`, as `spec_required_bits` states.
    pub fn required_bits(max_n: i64) -> (r: u32)
        ensures
            r == spec_required_bits(max_n),
    {
        let n: u128 = if max_n < 0 { 0 } else { max_n as u128 };
        assert(n * 69424 <= 0x8000_0000_0000_0000u128 * 69424) by (nonlinear_arith)
            requires n <= 0x8000_0000_0000_0000u128;
        let raw: u128 = (n * 69424 + 499999) / 100000;
        let rounded: u128 = ((raw + 63) / 64) * 64;
        if rounded > MAX_WIDE_BITS as u128 {
            MAX_WIDE_BITS
        } else {
            rounded as u32
        }
    }

    /// Upgrades every candidate whose largest literal call argument is above
    /// 92 (the largest `n` with `fib(n)` in an `i64`), then rewrites the
    /// callers of each; a program with no such function is returned as it is.
    pub fn run(program: MirProgram) -> (r: MirProgram)
        ensures
            upgraded_by(program.functions@, r.functions@, upgrade_list(program, program.functions@)),
            r.functions@.len() == program.functions@.len(),
    {
        let ghost p = program;
        let mut ups: Vec<(String, u32, i64)> = Vec::new();
        let mut k: usize = 0;
        while k < program.functions.len()
            invariant
                p == program,
                k <= program.functions@.len(),
                ups@.len() == upgrade_list(p, p.functions@.subrange(0, k as int)).len(),
                forall|j: int| 0 <= j < ups@.len() ==> {
                    let u = #[trigger] ups@[j];
                    (u.0@, u.1, u.2) == upgrade_list(p, p.functions@.subrange(0, k as int))[j]
                },
            decreases program.functions.len() - k,
        {
            let f = &program.functions[k];
            proof {
                assert(p.functions@.subrange(0, k as int + 1).drop_last() =~= p.functions@.subrange(0, k as int));
            }
            if is_upgrade_candidate(f) {
                let m = find_max_literal_call_arg(&program, &f.name);
                if m > 92 {
                    let bits = Self::required_bits(m);
                    ups.push((owned(f.name.as_str()), bits, m));
                }
            }
            k = k + 1;
        }
        proof {
            assert(p.functions@.subrange(0, k as int) =~= p.functions@);
        }
        let ghost list = upgrade_list(p, p.functions@);
        if ups.len() == 0 {
            proof {
                let st = seq![p.functions@];
                assert(upgrade_states(st, p.functions@, p.functions@, list));
            }
            return program;
        }
        let MirProgram { functions } = program;
        let mut functions = functions;
        let ghost mut states: Seq<Seq<MirFunction>> = seq![functions@];
        let mut j: usize = 0;
        while j < ups.len()
            invariant
                ups@.len() == list.len(),
                forall|jj: int| 0 <= jj < ups@.len() ==> {
                    let u = #[trigger] ups@[jj];
                    (u.0@, u.1, u.2) == list[jj]
                },
                j <= ups@.len(),
                upgrade_states(states, p.functions@, functions@, list.subrange(0, j as int)),
                functions@.len() == p.functions@.len(),
            decreases ups.len() - j,
        {
            let ghost before = functions@;
            let u = &ups[j];
            functions = apply_upgrade(functions, &u.0, u.1, u.2);
            proof {
                let sub = list.subrange(0, j as int + 1);
                let s2 = states.push(functions@);
                assert forall|i: int| 0 <= i < sub.len() implies #[trigger] upgrade_step(s2[i], s2[i + 1], sub[i]) by {
                    if i < j {
                        assert(upgrade_step(states[i], states[i + 1], list.subrange(0, j as int)[i]));
                    } else {
                        assert(list[j as int] == (u.0@, u.1, u.2));
                    }
                }
                states = s2;
            }
            j = j + 1;
        }
        proof {
            assert(list.subrange(0, j as int) =~= list);
            assert(upgrade_states(states, p.functions@, functions@, list));
        }
        MirProgram { functions }
    }
}

/// The `j`-th argument of an instruction when it is a call to `name`.
pub open spec fn call_arg(inst: MirInstruction, name: Seq<char>, j: int) -> Option<MirOperand> {
    match inst {
        MirInstruction::Call { name: n, args, .. } => if n@ == name && 0 <= j < args@.len() { Some(args@[j]) } else { None },
        _ => None,
    }
}

/// The constant value of the `j`-th argument of a call to `name`, if the
/// instruction is one and the argument has a constant value.
pub open spec fn call_arg_value(m: Map<usize, i64>, inst: MirInstruction, name: Seq<char>, j: int) -> Option<i64> {
    match call_arg(inst, name, j) {
        Some(op) => operand_value(m, op),
        None => None,
    }
}

proof fn lemma_max_operands_bounds(m: Map<usize, i64>, ops: Seq<MirOperand>, acc: i64)
    ensures
        acc <= max_operands(m, ops, acc),
        forall|j: int| 0 <= j < ops.len() && (#[trigger] operand_value(m, ops[j])) is Some
            ==> operand_value(m, ops[j])->0 <= max_operands(m, ops, acc),
        max_operands(m, ops, acc) == acc
            || exists|j: int| 0 <= j < ops.len() && #[trigger] operand_value(m, ops[j]) == Some(max_operands(m, ops, acc)),
    decreases ops.len(),
{
    if ops.len() > 0 {
        let d = ops.drop_last();
        lemma_max_operands_bounds(m, d, acc);
        let a = max_operands(m, d, acc);
        assert forall|j: int| 0 <= j < d.len() implies d[j] == ops[j] by {}
        if a != acc {
            let j = choose|j: int| 0 <= j < d.len() && #[trigger] operand_value(m, d[j]) == Some(a);
            assert(operand_value(m, ops[j]) == Some(a));
        }
        let last = ops.len() - 1;
        assert(ops.last() == ops[last]);
        assert forall|j: int| 0 <= j < ops.len() && (#[trigger] operand_value(m, ops[j])) is Some
            implies operand_value(m, ops[j])->0 <= max_operands(m, ops, acc) by {
            if j < last {
                assert(operand_value(m, d[j]) == operand_value(m, ops[j]));
            }
        }
    }
}

proof fn lemma_max_call_insts_bounds(m: Map<usize, i64>, insts: Seq<MirInstruction>, name: Seq<char>, acc: i64)
    ensures
        acc <= max_call_insts(m, insts, name, acc),
        forall|i: int, j: int| 0 <= i < insts.len() && (#[trigger] call_arg_value(m, insts[i], name, j)) is Some
            ==> call_arg_value(m, insts[i], name, j)->0 <= max_call_insts(m, insts, name, acc),
        max_call_insts(m, insts, name, acc) == acc
            || exists|i: int, j: int| 0 <= i < insts.len()
                && #[trigger] call_arg_value(m, insts[i], name, j) == Some(max_call_insts(m, insts, name, acc)),
    decreases insts.len(),
{
    if insts.len() > 0 {
        let d = insts.drop_last();
        lemma_max_call_insts_bounds(m, d, name, acc);
        let a = max_call_insts(m, d, name, acc);
        let last = insts.len() - 1;
        assert(insts.last() == insts[last]);
        let r = max_call_insts(m, insts, name, acc);
        if a != acc {
            let (i, j) = choose|i: int, j: int| 0 <= i < d.len() && #[trigger] call_arg_value(m, d[i], name, j) == Some(a);
            assert(d[i] == insts[i]);
        }
        match insts.last() {
            MirInstruction::Call { name: n, args, .. } => {
                if n@ == name {
                    lemma_max_operands_bounds(m, args@, a);
                    if r != a {
                        let j = choose|j: int| 0 <= j < args@.len() && #[trigger] operand_value(m, args@[j]) == Some(r);
                        assert(call_arg_value(m, insts[last], name, j) == Some(r));
                    }
                    assert forall|j: int| (#[trigger] call_arg_value(m, insts[last], name, j)) is Some
                        implies call_arg_value(m, insts[last], name, j)->0 <= r by {
                        assert(operand_value(m, args@[j]) is Some);
                    }
                } else {
                    assert forall|j: int| !((#[trigger] call_arg_value(m, insts[last], name, j)) is Some) by {}
                }
            },
            _ => {
                assert forall|j: int| !((#[trigger] call_arg_value(m, insts[last], name, j)) is Some) by {}
            },
        }
        assert forall|i: int, j: int| 0 <= i < insts.len() && (#[trigger] call_arg_value(m, insts[i], name, j)) is Some
            implies call_arg_value(m, insts[i], name, j)->0 <= r by {
            if i < last {
                assert(d[i] == insts[i]);
                assert(call_arg_value(m, d[i], name, j) is Some);
            }
        }
    }
}

proof fn lemma_max_call_blocks_bounds(m: Map<usize, i64>, bs: Seq<BasicBlock>, name: Seq<char>, acc: i64)
    ensures
        acc <= max_call_blocks(m, bs, name, acc),
        forall|b: int, i: int, j: int| 0 <= b < bs.len() && 0 <= i < bs[b].instructions@.len()
            && (#[trigger] call_arg_value(m, bs[b].instructions@[i], name, j)) is Some
            ==> call_arg_value(m, bs[b].instructions@[i], name, j)->0 <= max_call_blocks(m, bs, name, acc),
        max_call_blocks(m, bs, name, acc) == acc
            || exists|b: int, i: int, j: int| 0 <= b < bs.len() && 0 <= i < bs[b].instructions@.len()
                && #[trigger] call_arg_value(m, bs[b].instructions@[i], name, j) == Some(max_call_blocks(m, bs, name, acc)),
    decreases bs.len(),
{
    if bs.len() > 0 {
        let d = bs.drop_last();
        lemma_max_call_blocks_bounds(m, d, name, acc);
        let a = max_call_blocks(m, d, name, acc);
        let last = bs.len() - 1;
        assert(bs.last() == bs[last]);
        let insts = bs[last].instructions@;
        lemma_max_call_insts_bounds(m, insts, name, a);
        let r = max_call_blocks(m, bs, name, acc);
        if r != a {
            let (i, j) = choose|i: int, j: int| 0 <= i < insts.len() && #[trigger] call_arg_value(m, insts[i], name, j) == Some(r);
            assert(call_arg_value(m, bs[last].instructions@[i], name, j) == Some(r));
        } else if a != acc {
            let (b, i, j) = choose|b: int, i: int, j: int| 0 <= b < d.len() && 0 <= i < d[b].instructions@.len()
                && #[trigger] call_arg_value(m, d[b].instructions@[i], name, j) == Some(a);
            assert(d[b] == bs[b]);
        }
        assert forall|b: int, i: int, j: int| 0 <= b < bs.len() && 0 <= i < bs[b].instructions@.len()
            && (#[trigger] call_arg_value(m, bs[b].instructions@[i], name, j)) is Some
            implies call_arg_value(m, bs[b].instructions@[i], name, j)->0 <= r by {
            if b < last {
                assert(d[b] == bs[b]);
                assert(call_arg_value(m, d[b].instructions@[i], name, j) is Some);
            } else {
                assert(call_arg_value(m, insts[i], name, j) is Some);
            }
        }
    }
}

proof fn lemma_max_call_fns_bounds(m: Map<usize, i64>, fs: Seq<MirFunction>, name: Seq<char>, acc: i64)
    ensures
        acc <= max_call_fns(m, fs, name, acc),
        forall|f: int, b: int, i: int, j: int| 0 <= f < fs.len() && 0 <= b < fs[f].blocks@.len()
            && 0 <= i < fs[f].blocks@[b].instructions@.len()
            && (#[trigger] call_arg_value(m, fs[f].blocks@[b].instructions@[i], name, j)) is Some
            ==> call_arg_value(m, fs[f].blocks@[b].instructions@[i], name, j)->0 <= max_call_fns(m, fs, name, acc),
        max_call_fns(m, fs, name, acc) == acc
            || exists|f: int, b: int, i: int, j: int| 0 <= f < fs.len() && 0 <= b < fs[f].blocks@.len()
                && 0 <= i < fs[f].blocks@[b].instructions@.len()
                && #[trigger] call_arg_value(m, fs[f].blocks@[b].instructions@[i], name, j) == Some(max_call_fns(m, fs, name, acc)),
    decreases fs.len(),
{
    if fs.len() > 0 {
        let d = fs.drop_last();
        lemma_max_call_fns_bounds(m, d, name, acc);
        let a = max_call_fns(m, d, name, acc);
        let last = fs.len() - 1;
        assert(fs.last() == fs[last]);
        let bs = fs[last].blocks@;
        lemma_max_call_blocks_bounds(m, bs, name, a);
        let r = max_call_fns(m, fs, name, acc);
        if r != a {
            let (b, i, j) = choose|b: int, i: int, j: int| 0 <= b < bs.len() && 0 <= i < bs[b].instructions@.len()
                && #[trigger] call_arg_value(m, bs[b].instructions@[i], name, j) == Some(r);
            assert(call_arg_value(m, fs[last].blocks@[b].instructions@[i], name, j) == Some(r));
        } else if a != acc {
            let (f, b, i, j) = choose|f: int, b: int, i: int, j: int| 0 <= f < d.len() && 0 <= b < d[f].blocks@.len()
                && 0 <= i < d[f].blocks@[b].instructions@.len()
                && #[trigger] call_arg_value(m, d[f].blocks@[b].instructions@[i], name, j) == Some(a);
            assert(d[f] == fs[f]);
        }
        assert forall|f: int, b: int, i: int, j: int| 0 <= f < fs.len() && 0 <= b < fs[f].blocks@.len()
            && 0 <= i < fs[f].blocks@[b].instructions@.len()
            && (#[trigger] call_arg_value(m, fs[f].blocks@[b].instructions@[i], name, j)) is Some
            implies call_arg_value(m, fs[f].blocks@[b].instructions@[i], name, j)->0 <= r by {
            if f < last {
                assert(d[f] == fs[f]);
                assert(call_arg_value(m, d[f].blocks@[b].instructions@[i], name, j) is Some);
            } else {
                assert(call_arg_value(m, bs[b].instructions@[i], name, j) is Some);
            }
        }
    }
}

/// The largest literal call argument is the largest: it is at least 0 and
/// at least every constant passed to a call of the function (a literal, or
/// a variable assigned one), and it is 0 or one of those constants.
pub proof fn law_max_literal_call_arg(p: MirProgram, name: Seq<char>)
    ensures
        ({
            let fs = p.functions@;
            let m = const_map_fns(Map::empty(), fs);
            let r = spec_max_literal_call_arg(p, name);
            &&& 0 <= r
            &&& forall|f: int, b: int, i: int, j: int| 0 <= f < fs.len() && 0 <= b < fs[f].blocks@.len()
                && 0 <= i < fs[f].blocks@[b].instructions@.len()
                ==> (#[trigger] call_arg(fs[f].blocks@[b].instructions@[i], name, j) matches Some(MirOperand::Constant(MirLiteral::I64(v)))
                    ==> v <= r)
            &&& forall|f: int, b: int, i: int, j: int| 0 <= f < fs.len() && 0 <= b < fs[f].blocks@.len()
                && 0 <= i < fs[f].blocks@[b].instructions@.len()
                && (#[trigger] call_arg_value(m, fs[f].blocks@[b].instructions@[i], name, j)) is Some
                ==> call_arg_value(m, fs[f].blocks@[b].instructions@[i], name, j)->0 <= r
            &&& r == 0 || exists|f: int, b: int, i: int, j: int| 0 <= f < fs.len() && 0 <= b < fs[f].blocks@.len()
                && 0 <= i < fs[f].blocks@[b].instructions@.len()
                && #[trigger] call_arg_value(m, fs[f].blocks@[b].instructions@[i], name, j) == Some(r)
        }),
{
    let fs = p.functions@;
    let m = const_map_fns(Map::empty(), fs);
    lemma_max_call_fns_bounds(m, fs, name, 0);
    let r = spec_max_literal_call_arg(p, name);
    assert forall|f: int, b: int, i: int, j: int| 0 <= f < fs.len() && 0 <= b < fs[f].blocks@.len()
        && 0 <= i < fs[f].blocks@[b].instructions@.len()
        implies (#[trigger] call_arg(fs[f].blocks@[b].instructions@[i], name, j) matches Some(MirOperand::Constant(MirLiteral::I64(v)))
            ==> v <= r) by {
        if let Some(MirOperand::Constant(MirLiteral::I64(v))) = call_arg(fs[f].blocks@[b].instructions@[i], name, j) {
            assert(call_arg_value(m, fs[f].blocks@[b].instructions@[i], name, j) == Some(v));
        }
    }
}

} // verus!
