//! Scoped arenas: a function that allocates from the arena saves the arena
//! pointer on entry and restores it before each return, so what it
//! allocated is reclaimed when it returns; small allocations of constant size
//! that do not escape the function move to the stack.

use vstd::prelude::*;
use crate::mir::{BasicBlock, MirFunction, MirInstruction, MirLiteral, MirOperand, MirProgram, MirTerminator};
use crate::codegen_profile::{is_entry, is_entry_name};
use crate::mir_util::{max_nat, max_arg_ssa};

verus! {

/// The largest allocation moved to the stack, in bytes.
pub const MAX_STACK_PROMOTE_BYTES: i64 = 4096;

/// Whether an operand reads the variable `v`.
pub open spec fn reads_var(op: MirOperand, v: usize) -> bool {
    op matches MirOperand::Variable(x, _) && x == v
}

pub open spec fn ops_read(ops: Seq<MirOperand>, v: usize) -> bool {
    exists|i: int| 0 <= i < ops.len() && reads_var(#[trigger] ops[i], v)
}

/// Whether an instruction uses the variable `v` other than as the address
/// of a memory access (a load, a store, a copy, a fill or a buffered write):
/// such a use lets a pointer held in `v` escape.
pub open spec fn lets_escape(inst: MirInstruction, v: usize) -> bool {
    match inst {
        MirInstruction::Assign { src, .. } => reads_var(src, v),
        MirInstruction::BinaryOperation { lhs, rhs, .. } => reads_var(lhs, v) || reads_var(rhs, v),
        MirInstruction::Call { args, .. } => ops_read(args@, v),
        MirInstruction::Tuple { elements, .. } => ops_read(elements@, v),
        MirInstruction::Index { subject, .. } => reads_var(subject, v),
        MirInstruction::Alloc { size_bytes, .. } => reads_var(size_bytes, v),
        MirInstruction::RestoreArena { saved } => reads_var(saved, v),
        MirInstruction::PointerOffset { ptr, offset, .. } => reads_var(ptr, v) || reads_var(offset, v),
        MirInstruction::Store { value, .. } => reads_var(value, v),
        MirInstruction::TypedStore { value, .. } => reads_var(value, v),
        MirInstruction::MemCopy { size, .. } => reads_var(size, v),
        MirInstruction::MemSet { value, size, .. } => reads_var(value, v) || reads_var(size, v),
        MirInstruction::Emit(op) => reads_var(op, v),
        MirInstruction::Promote { src, .. } => reads_var(src, v),
        MirInstruction::BitCast { src, .. } => reads_var(src, v),
        MirInstruction::ConstantTableLoad { index, .. } => reads_var(index, v),
        MirInstruction::FunnelShiftRight { hi, lo, amount, .. } => reads_var(hi, v) || reads_var(lo, v) || reads_var(amount, v),
        MirInstruction::BufferedWrite { len, .. } => reads_var(len, v),
        _ => false,
    }
}

/// Whether a terminator returns or branches on `v`.
pub open spec fn term_lets_escape(t: MirTerminator, v: usize) -> bool {
    match t {
        MirTerminator::Return(op) => reads_var(op, v),
        MirTerminator::CondBranch { condition, .. } => reads_var(condition, v),
        _ => false,
    }
}

/// Whether the buffer whose address `v` holds may escape the function: some
/// instruction or terminator uses `v` other than as an address.
pub open spec fn escapes(blocks: Seq<BasicBlock>, v: usize) -> bool {
    ||| exists|b: int, i: int| 0 <= b < blocks.len() && 0 <= i < blocks[b].instructions@.len()
        && lets_escape(#[trigger] blocks[b].instructions@[i], v)
    ||| exists|b: int| 0 <= b < blocks.len() && term_lets_escape((#[trigger] blocks[b]).terminator, v)
}

/// An allocation of a constant size between 1 and 4096 bytes that does not
/// escape the function (the blocks `ctx`) becomes a stack allocation; any
/// other instruction stays.
pub open spec fn promote(inst: MirInstruction, ctx: Seq<BasicBlock>) -> MirInstruction {
    match inst {
        MirInstruction::Alloc { dest, size_bytes: MirOperand::Constant(MirLiteral::I64(n)) } =>
            if 0 < n <= MAX_STACK_PROMOTE_BYTES && !escapes(ctx, dest) {
                MirInstruction::StackAlloc { dest, size_bytes: n as usize }
            } else {
                inst
            },
        _ => inst,
    }
}

/// The blocks of `g` are those of `f` with each instruction promoted, the
/// escapes judged over the blocks `ctx`.
pub open spec fn blocks_promoted_in(ctx: Seq<BasicBlock>, f: Seq<BasicBlock>, g: Seq<BasicBlock>) -> bool {
    &&& g.len() == f.len()
    &&& forall|b: int| 0 <= b < f.len() ==> {
        &&& (#[trigger] g[b]).id == f[b].id
        &&& g[b].terminator == f[b].terminator
        &&& g[b].instructions@.len() == f[b].instructions@.len()
        &&& forall|i: int| 0 <= i < f[b].instructions@.len() ==> #[trigger] g[b].instructions@[i] == promote(f[b].instructions@[i], ctx)
    }
}

/// The blocks of `g` are those of `f` with each non-escaping small constant
/// allocation moved to the stack.
pub open spec fn blocks_promoted(f: Seq<BasicBlock>, g: Seq<BasicBlock>) -> bool {
    blocks_promoted_in(f, f, g)
}

/// Whether some block allocates from the arena.
pub open spec fn has_arena_alloc(blocks: Seq<BasicBlock>) -> bool {
    exists|b: int, i: int| 0 <= b < blocks.len() && 0 <= i < blocks[b].instructions@.len()
        && (#[trigger] blocks[b].instructions@[i]) is Alloc
}

/// The variables an operand names.
pub open spec fn op_ids(op: MirOperand) -> Seq<usize> {
    match op {
        MirOperand::Variable(v, _) => seq![v],
        _ => Seq::empty(),
    }
}

/// The variables an instruction defines or reads.
pub open spec fn inst_ids(inst: MirInstruction) -> Seq<usize> {
    match inst {
        MirInstruction::Assign { dest, src } => seq![dest] + op_ids(src),
        MirInstruction::BinaryOperation { dest, lhs, rhs, .. } => seq![dest] + op_ids(lhs) + op_ids(rhs),
        MirInstruction::Call { dest, args, .. } => seq![dest] + ops_ids(args@),
        MirInstruction::Alloc { dest, size_bytes } => seq![dest] + op_ids(size_bytes),
        MirInstruction::StackAlloc { dest, .. } => seq![dest],
        MirInstruction::SaveArena { dest } => seq![dest],
        MirInstruction::RestoreArena { saved } => op_ids(saved),
        MirInstruction::FunnelShiftRight { dest, hi, lo, amount, .. } => seq![dest] + op_ids(hi) + op_ids(lo) + op_ids(amount),
        MirInstruction::Emit(op) => op_ids(op),
        MirInstruction::Drop { ssa_var, .. } => seq![ssa_var],
        MirInstruction::Tuple { dest, elements } => seq![dest] + ops_ids(elements@),
        MirInstruction::Index { dest, subject, .. } => seq![dest] + op_ids(subject),
        MirInstruction::GlobalAlloc { dest, .. } => seq![dest],
        MirInstruction::MemCopy { dest, src, size } => op_ids(dest) + op_ids(src) + op_ids(size),
        MirInstruction::PointerOffset { dest, ptr, offset } => seq![dest] + op_ids(ptr) + op_ids(offset),
        MirInstruction::Load { dest, ptr, .. } => seq![dest] + op_ids(ptr),
        MirInstruction::Store { ptr, value } => op_ids(ptr) + op_ids(value),
        MirInstruction::TypedStore { ptr, value, .. } => op_ids(ptr) + op_ids(value),
        MirInstruction::MemSet { ptr, value, size } => op_ids(ptr) + op_ids(value) + op_ids(size),
        MirInstruction::Promote { dest, src, .. } => seq![dest] + op_ids(src),
        MirInstruction::BitCast { dest, src, .. } => seq![dest] + op_ids(src),
        MirInstruction::ConstantTableLoad { dest, index, .. } => seq![dest] + op_ids(index),
        MirInstruction::BufferedWrite { ptr, len } => op_ids(ptr) + op_ids(len),
        MirInstruction::FlushStdout => Seq::empty(),
    }
}

pub open spec fn ops_ids(ops: Seq<MirOperand>) -> Seq<usize>
    decreases ops.len(),
{
    if ops.len() == 0 { Seq::empty() } else { ops_ids(ops.drop_last()) + op_ids(ops.last()) }
}

/// The variables a terminator reads: a returned or branched-on variable.
pub open spec fn term_ids(t: MirTerminator) -> Seq<usize> {
    match t {
        MirTerminator::Return(op) => op_ids(op),
        MirTerminator::CondBranch { condition, .. } => op_ids(condition),
        _ => Seq::empty(),
    }
}

/// The largest of a list of variables (0 when empty).
pub open spec fn max_of(s: Seq<usize>) -> nat
    decreases s.len(),
{
    if s.len() == 0 { 0 } else { max_nat(max_of(s.drop_last()), s.last() as nat) }
}

pub open spec fn max_ids_insts(insts: Seq<MirInstruction>) -> nat
    decreases insts.len(),
{
    if insts.len() == 0 { 0 } else { max_nat(max_ids_insts(insts.drop_last()), max_of(inst_ids(insts.last()))) }
}

pub open spec fn max_ids_blocks(blocks: Seq<BasicBlock>) -> nat
    decreases blocks.len(),
{
    if blocks.len() == 0 {
        0
    } else {
        let b = blocks.last();
        max_nat(max_ids_blocks(blocks.drop_last()), max_nat(max_ids_insts(b.instructions@), max_of(term_ids(b.terminator))))
    }
}

/// The largest SSA variable a function names anywhere (0 when none).
pub open spec fn max_ssa_used(f: MirFunction) -> nat {
    max_nat(max_arg_ssa(f.args@), max_ids_blocks(f.blocks@))
}

/// The blocks of `g` are those of `f` with `SaveArena` into `save` first in
/// the first block and `RestoreArena` of `save` last in every returning
/// block.
pub open spec fn arena_scoped(f: Seq<BasicBlock>, g: Seq<BasicBlock>, save: usize) -> bool {
    &&& g.len() == f.len()
    &&& forall|b: int| 0 <= b < f.len() ==> {
        let pre: Seq<MirInstruction> = if b == 0 { seq![MirInstruction::SaveArena { dest: save }] } else { Seq::empty() };
        let post: Seq<MirInstruction> = if f[b].terminator is Return {
            seq![MirInstruction::RestoreArena { saved: MirOperand::Variable(save, false) }]
        } else {
            Seq::empty()
        };
        &&& (#[trigger] g[b]).id == f[b].id
        &&& g[b].terminator == f[b].terminator
        &&& g[b].instructions@ == pre + f[b].instructions@ + post
    }
}

/// The lifetime pass: for each function, constant-size allocations of at
/// most 4096 bytes that do not escape it (see `escapes`) move to the stack; a function other than the entry point
/// (`run` or `main`) that still allocates from the arena afterwards saves
/// the arena pointer on entry, in a fresh variable, and restores it before
/// each return.
pub open spec fn lifetime_ok(f: MirFunction, g: MirFunction) -> bool {
    &&& g.name == f.name
    &&& g.args == f.args
    &&& g.return_type == f.return_type
    &&& g.is_pure_data_leaf == f.is_pure_data_leaf
    &&& g.diminishing == f.diminishing
    &&& g.memo_cache_size == f.memo_cache_size
    &&& exists|p: Seq<BasicBlock>| #[trigger] blocks_promoted(f.blocks@, p) && {
        if !is_entry_name(f.name@) && has_arena_alloc(f.blocks@) && has_arena_alloc(p) {
            arena_scoped(p, g.blocks@, (max_nat(max_arg_ssa(f.args@), max_ids_blocks(p)) + 1) as usize)
        } else {
            g.blocks@ == p
        }
    }
}

/// Whether a function needs a fresh variable for the saved arena pointer,
/// and so one above every variable it names.
pub open spec fn needs_fresh(f: MirFunction) -> bool {
    !is_entry_name(f.name@) && has_arena_alloc(f.blocks@)
}

proof fn lemma_promote_ids(ctx: Seq<BasicBlock>, blocks: Seq<BasicBlock>, p: Seq<BasicBlock>)
    requires
        blocks_promoted_in(ctx, blocks, p),
    ensures
        max_ids_blocks(p) == max_ids_blocks(blocks),
    decreases blocks.len(),
{
    if blocks.len() > 0 {
        let bl = blocks.drop_last();
        let pl = p.drop_last();
        assert(blocks_promoted_in(ctx, bl, pl)) by {
            assert forall|b: int| 0 <= b < bl.len() implies {
                &&& (#[trigger] pl[b]).id == bl[b].id
                &&& pl[b].terminator == bl[b].terminator
                &&& pl[b].instructions@.len() == bl[b].instructions@.len()
                &&& forall|i: int| 0 <= i < bl[b].instructions@.len() ==> #[trigger] pl[b].instructions@[i] == promote(bl[b].instructions@[i], ctx)
            } by {
                assert(pl[b] == p[b]);
                assert(bl[b] == blocks[b]);
            }
        }
        lemma_promote_ids(ctx, bl, pl);
        let k = blocks.len() - 1;
        assert(p[k] == p.last());
        lemma_promote_ids_insts(ctx, blocks.last().instructions@, p.last().instructions@);
    }
}

proof fn lemma_promote_ids_insts(ctx: Seq<BasicBlock>, a: Seq<MirInstruction>, b: Seq<MirInstruction>)
    requires
        a.len() == b.len(),
        forall|i: int| 0 <= i < a.len() ==> #[trigger] b[i] == promote(a[i], ctx),
    ensures
        max_ids_insts(b) == max_ids_insts(a),
    decreases a.len(),
{
    if a.len() > 0 {
        assert forall|i: int| 0 <= i < a.len() - 1 implies #[trigger] b.drop_last()[i] == promote(a.drop_last()[i], ctx) by {
            assert(b[i] == promote(a[i], ctx));
        }
        lemma_promote_ids_insts(ctx, a.drop_last(), b.drop_last());
        let k = a.len() - 1;
        assert(b[k] == promote(a[k], ctx));
        assert(inst_ids(b.last()) =~= inst_ids(a.last()));
    }
}

fn reads_var_exec(op: &MirOperand, v: usize) -> (r: bool)
    ensures
        r == reads_var(*op, v),
{
    match op {
        MirOperand::Variable(x, _) => *x == v,
        _ => false,
    }
}

fn ops_read_exec(ops: &Vec<MirOperand>, v: usize) -> (r: bool)
    ensures
        r == ops_read(ops@, v),
{
    let mut i: usize = 0;
    while i < ops.len()
        invariant
            i <= ops@.len(),
            forall|j: int| 0 <= j < i ==> !reads_var(#[trigger] ops@[j], v),
        decreases ops.len() - i,
    {
        if reads_var_exec(&ops[i], v) {
            return true;
        }
        i = i + 1;
    }
    false
}

fn lets_escape_exec(inst: &MirInstruction, v: usize) -> (r: bool)
    ensures
        r == lets_escape(*inst, v),
{
    match inst {
        MirInstruction::Assign { src, .. } => reads_var_exec(src, v),
        MirInstruction::BinaryOperation { lhs, rhs, .. } => reads_var_exec(lhs, v) || reads_var_exec(rhs, v),
        MirInstruction::Call { args, .. } => ops_read_exec(args, v),
        MirInstruction::Tuple { elements, .. } => ops_read_exec(elements, v),
        MirInstruction::Index { subject, .. } => reads_var_exec(subject, v),
        MirInstruction::Alloc { size_bytes, .. } => reads_var_exec(size_bytes, v),
        MirInstruction::RestoreArena { saved } => reads_var_exec(saved, v),
        MirInstruction::PointerOffset { ptr, offset, .. } => reads_var_exec(ptr, v) || reads_var_exec(offset, v),
        MirInstruction::Store { value, .. } => reads_var_exec(value, v),
        MirInstruction::TypedStore { value, .. } => reads_var_exec(value, v),
        MirInstruction::MemCopy { size, .. } => reads_var_exec(size, v),
        MirInstruction::MemSet { value, size, .. } => reads_var_exec(value, v) || reads_var_exec(size, v),
        MirInstruction::Emit(op) => reads_var_exec(op, v),
        MirInstruction::Promote { src, .. } => reads_var_exec(src, v),
        MirInstruction::BitCast { src, .. } => reads_var_exec(src, v),
        MirInstruction::ConstantTableLoad { index, .. } => reads_var_exec(index, v),
        MirInstruction::FunnelShiftRight { hi, lo, amount, .. } =>
            reads_var_exec(hi, v) || reads_var_exec(lo, v) || reads_var_exec(amount, v),
        MirInstruction::BufferedWrite { len, .. } => reads_var_exec(len, v),
        _ => false,
    }
}

/// Whether the buffer held in `v` may escape the blocks.
fn escapes_exec(blocks: &Vec<BasicBlock>, v: usize) -> (r: bool)
    ensures
        r == escapes(blocks@, v),
{
    let mut b: usize = 0;
    while b < blocks.len()
        invariant
            b <= blocks@.len(),
            forall|bb: int, i: int| 0 <= bb < b && 0 <= i < blocks@[bb].instructions@.len()
                ==> !lets_escape(#[trigger] blocks@[bb].instructions@[i], v),
            forall|bb: int| 0 <= bb < b ==> !term_lets_escape((#[trigger] blocks@[bb]).terminator, v),
        decreases blocks.len() - b,
    {
        let insts = &blocks[b].instructions;
        let mut i: usize = 0;
        while i < insts.len()
            invariant
                b < blocks@.len(),
                *insts == blocks@[b as int].instructions,
                i <= insts@.len(),
                forall|j: int| 0 <= j < i ==> !lets_escape(#[trigger] insts@[j], v),
            decreases insts.len() - i,
        {
            if lets_escape_exec(&insts[i], v) {
                return true;
            }
            i = i + 1;
        }
        let t = match &blocks[b].terminator {
            MirTerminator::Return(op) => reads_var_exec(op, v),
            MirTerminator::CondBranch { condition, .. } => reads_var_exec(condition, v),
            _ => false,
        };
        if t {
            return true;
        }
        b = b + 1;
    }
    false
}

/// Whether an instruction allocates a buffer that escapes the blocks `ctx`.
pub open spec fn alloc_escapes(inst: MirInstruction, ctx: Seq<BasicBlock>) -> bool {
    match inst {
        MirInstruction::Alloc { dest, .. } => escapes(ctx, dest),
        _ => false,
    }
}

fn alloc_escapes_exec(inst: &MirInstruction, ctx: &Vec<BasicBlock>) -> (r: bool)
    ensures
        r == alloc_escapes(*inst, ctx@),
{
    match inst {
        MirInstruction::Alloc { dest, .. } => escapes_exec(ctx, *dest),
        _ => false,
    }
}

fn promote_inst(inst: MirInstruction, esc: bool, Ghost(ctx): Ghost<Seq<BasicBlock>>) -> (r: MirInstruction)
    requires
        esc == alloc_escapes(inst, ctx),
    ensures
        r == promote(inst, ctx),
{
    match inst {
        MirInstruction::Alloc { dest, size_bytes: MirOperand::Constant(MirLiteral::I64(n)) } => {
            if 0 < n && n <= MAX_STACK_PROMOTE_BYTES && !esc {
                MirInstruction::StackAlloc { dest, size_bytes: n as usize }
            } else {
                MirInstruction::Alloc { dest, size_bytes: MirOperand::Constant(MirLiteral::I64(n)) }
            }
        }
        other => other,
    }
}

fn promote_blocks(blocks: Vec<BasicBlock>) -> (r: Vec<BasicBlock>)
    ensures
        blocks_promoted(blocks@, r@),
{
    let ghost bs = blocks@;
    let mut flags: Vec<Vec<bool>> = Vec::new();
    let mut b: usize = 0;
    while b < blocks.len()
        invariant
            b <= bs.len(),
            bs == blocks@,
            flags@.len() == b,
            forall|j: int| 0 <= j < b ==> (#[trigger] flags@[j])@.len() == bs[j].instructions@.len()
                && forall|i: int| 0 <= i < bs[j].instructions@.len() ==> #[trigger] flags@[j]@[i] == alloc_escapes(bs[j].instructions@[i], bs),
        decreases bs.len() - b,
    {
        let is = &blocks[b].instructions;
        let mut fl: Vec<bool> = Vec::new();
        let mut i: usize = 0;
        while i < is.len()
            invariant
                b < bs.len(),
                bs == blocks@,
                *is == bs[b as int].instructions,
                i <= is@.len(),
                fl@.len() == i,
                forall|j: int| 0 <= j < i ==> #[trigger] fl@[j] == alloc_escapes(is@[j], bs),
            decreases is.len() - i,
        {
            fl.push(alloc_escapes_exec(&is[i], &blocks));
            i = i + 1;
        }
        flags.push(fl);
        b = b + 1;
    }
    let mut blocks = blocks;
    let mut b: usize = 0;
    while b < blocks.len()
        invariant
            blocks@.len() == bs.len(),
            b <= bs.len(),
            flags@.len() == bs.len(),
            forall|j: int| 0 <= j < bs.len() ==> (#[trigger] flags@[j])@.len() == bs[j].instructions@.len()
                && forall|i: int| 0 <= i < bs[j].instructions@.len() ==> #[trigger] flags@[j]@[i] == alloc_escapes(bs[j].instructions@[i], bs),
            forall|j: int| b <= j < bs.len() ==> blocks@[j] == bs[j],
            forall|j: int| 0 <= j < b ==> {
                &&& (#[trigger] blocks@[j]).id == bs[j].id
                &&& blocks@[j].terminator == bs[j].terminator
                &&& blocks@[j].instructions@.len() == bs[j].instructions@.len()
                &&& forall|i: int| 0 <= i < bs[j].instructions@.len() ==> #[trigger] blocks@[j].instructions@[i] == promote(bs[j].instructions@[i], bs)
            },
        decreases bs.len() - b,
    {
        let mut blk = BasicBlock { id: 0, instructions: Vec::new(), terminator: MirTerminator::Unreachable };
        std::mem::swap(&mut blk, &mut blocks[b]);
        let BasicBlock { id, instructions, terminator } = blk;
        let ghost is = instructions@;
        let fl = &flags[b];
        assert(fl@.len() == is.len());
        let mut insts = instructions;
        let mut i: usize = 0;
        while i < insts.len()
            invariant
                insts@.len() == is.len(),
                fl@.len() == is.len(),
                is == bs[b as int].instructions@,
                b < bs.len(),
                forall|k: int| 0 <= k < is.len() ==> #[trigger] fl@[k] == alloc_escapes(is[k], bs),
                i <= is.len(),
                forall|j: int| i <= j < is.len() ==> insts@[j] == is[j],
                forall|j: int| 0 <= j < i ==> #[trigger] insts@[j] == promote(is[j], bs),
            decreases is.len() - i,
        {
            let mut t = MirInstruction::FlushStdout;
            std::mem::swap(&mut t, &mut insts[i]);
            assert(fl@[i as int] == alloc_escapes(is[i as int], bs));
            insts.set(i, promote_inst(t, fl[i], Ghost(bs)));
            i = i + 1;
        }
        blocks.set(b, BasicBlock { id, instructions: insts, terminator });
        b = b + 1;
    }
    blocks
}

fn has_alloc(blocks: &Vec<BasicBlock>) -> (r: bool)
    ensures
        r == has_arena_alloc(blocks@),
{
    let mut b: usize = 0;
    while b < blocks.len()
        invariant
            b <= blocks@.len(),
            forall|bb: int, i: int| 0 <= bb < b && 0 <= i < blocks@[bb].instructions@.len()
                ==> !((#[trigger] blocks@[bb].instructions@[i]) is Alloc),
        decreases blocks.len() - b,
    {
        let insts = &blocks[b].instructions;
        let mut i: usize = 0;
        while i < insts.len()
            invariant
                b < blocks@.len(),
                *insts == blocks@[b as int].instructions,
                i <= insts@.len(),
                forall|j: int| 0 <= j < i ==> !((#[trigger] insts@[j]) is Alloc),
            decreases insts.len() - i,
        {
            if matches!(insts[i], MirInstruction::Alloc { .. }) {
                return true;
            }
            i = i + 1;
        }
        b = b + 1;
    }
    false
}

fn op_max(op: &MirOperand, m: usize) -> (r: usize)
    ensures
        r as nat == max_nat(m as nat, max_of(op_ids(*op))),
{
    match op {
        MirOperand::Variable(v, _) => {
            assert(max_of(seq![*v]) == max_nat(max_of(seq![*v].drop_last()), *v as nat));
            assert(seq![*v].drop_last() =~= Seq::<usize>::empty());
            if *v > m { *v } else { m }
        }
        _ => m,
    }
}

proof fn lemma_max_of_concat(a: Seq<usize>, b: Seq<usize>)
    ensures
        max_of(a + b) == max_nat(max_of(a), max_of(b)),
    decreases b.len(),
{
    if b.len() == 0 {
        assert(a + b =~= a);
    } else {
        assert((a + b).drop_last() =~= a + b.drop_last());
        lemma_max_of_concat(a, b.drop_last());
    }
}

fn ops_max(ops: &Vec<MirOperand>, m: usize) -> (r: usize)
    ensures
        r as nat == max_nat(m as nat, max_of(ops_ids(ops@))),
{
    let mut acc = m;
    let mut i: usize = 0;
    while i < ops.len()
        invariant
            i <= ops@.len(),
            acc as nat == max_nat(m as nat, max_of(ops_ids(ops@.subrange(0, i as int)))),
        decreases ops.len() - i,
    {
        assert(ops@.subrange(0, i as int + 1).drop_last() =~= ops@.subrange(0, i as int));
        proof { lemma_max_of_concat(ops_ids(ops@.subrange(0, i as int)), op_ids(ops@[i as int])); }
        acc = op_max(&ops[i], acc);
        i = i + 1;
    }
    assert(ops@.subrange(0, i as int) =~= ops@);
    acc
}

/// The largest variable an instruction names, or `m` if larger.
fn inst_max(inst: &MirInstruction, m: usize) -> (r: usize)
    ensures
        r as nat == max_nat(m as nat, max_of(inst_ids(*inst))),
{
    let ghost ids = inst_ids(*inst);
    let r = match inst {
        MirInstruction::Assign { dest, src } => op_max(src, op_max(&MirOperand::Variable(*dest, false), m)),
        MirInstruction::BinaryOperation { dest, lhs, rhs, .. } =>
            op_max(rhs, op_max(lhs, op_max(&MirOperand::Variable(*dest, false), m))),
        MirInstruction::Call { dest, args, .. } => ops_max(args, op_max(&MirOperand::Variable(*dest, false), m)),
        MirInstruction::Alloc { dest, size_bytes } => op_max(size_bytes, op_max(&MirOperand::Variable(*dest, false), m)),
        MirInstruction::StackAlloc { dest, .. } => op_max(&MirOperand::Variable(*dest, false), m),
        MirInstruction::SaveArena { dest } => op_max(&MirOperand::Variable(*dest, false), m),
        MirInstruction::RestoreArena { saved } => op_max(saved, m),
        MirInstruction::FunnelShiftRight { dest, hi, lo, amount, .. } =>
            op_max(amount, op_max(lo, op_max(hi, op_max(&MirOperand::Variable(*dest, false), m)))),
        MirInstruction::Emit(op) => op_max(op, m),
        MirInstruction::Drop { ssa_var, .. } => op_max(&MirOperand::Variable(*ssa_var, false), m),
        MirInstruction::Tuple { dest, elements } => ops_max(elements, op_max(&MirOperand::Variable(*dest, false), m)),
        MirInstruction::Index { dest, subject, .. } => op_max(subject, op_max(&MirOperand::Variable(*dest, false), m)),
        MirInstruction::GlobalAlloc { dest, .. } => op_max(&MirOperand::Variable(*dest, false), m),
        MirInstruction::MemCopy { dest, src, size } => op_max(size, op_max(src, op_max(dest, m))),
        MirInstruction::PointerOffset { dest, ptr, offset } =>
            op_max(offset, op_max(ptr, op_max(&MirOperand::Variable(*dest, false), m))),
        MirInstruction::Load { dest, ptr, .. } => op_max(ptr, op_max(&MirOperand::Variable(*dest, false), m)),
        MirInstruction::Store { ptr, value } => op_max(value, op_max(ptr, m)),
        MirInstruction::TypedStore { ptr, value, .. } => op_max(value, op_max(ptr, m)),
        MirInstruction::MemSet { ptr, value, size } => op_max(size, op_max(value, op_max(ptr, m))),
        MirInstruction::Promote { dest, src, .. } => op_max(src, op_max(&MirOperand::Variable(*dest, false), m)),
        MirInstruction::BitCast { dest, src, .. } => op_max(src, op_max(&MirOperand::Variable(*dest, false), m)),
        MirInstruction::ConstantTableLoad { dest, index, .. } => op_max(index, op_max(&MirOperand::Variable(*dest, false), m)),
        MirInstruction::BufferedWrite { ptr, len } => op_max(len, op_max(ptr, m)),
        MirInstruction::FlushStdout => m,
    };
    proof {
        let g = *inst;
        match g {
            MirInstruction::Assign { dest, src } => {
                lemma_max_of_concat(seq![dest], op_ids(src));
            }
            MirInstruction::BinaryOperation { dest, lhs, rhs, .. } => {
                lemma_max_of_concat(seq![dest], op_ids(lhs));
                lemma_max_of_concat(seq![dest] + op_ids(lhs), op_ids(rhs));
            }
            MirInstruction::Call { dest, args, .. } => {
                lemma_max_of_concat(seq![dest], ops_ids(args@));
            }
            MirInstruction::Alloc { dest, size_bytes } => {
                lemma_max_of_concat(seq![dest], op_ids(size_bytes));
            }
            MirInstruction::FunnelShiftRight { dest, hi, lo, amount, .. } => {
                lemma_max_of_concat(seq![dest], op_ids(hi));
                lemma_max_of_concat(seq![dest] + op_ids(hi), op_ids(lo));
                lemma_max_of_concat(seq![dest] + op_ids(hi) + op_ids(lo), op_ids(amount));
            }
            MirInstruction::Tuple { dest, elements } => {
                lemma_max_of_concat(seq![dest], ops_ids(elements@));
            }
            MirInstruction::Index { dest, subject, .. } => {
                lemma_max_of_concat(seq![dest], op_ids(subject));
            }
            MirInstruction::MemCopy { dest, src, size } => {
                lemma_max_of_concat(op_ids(dest), op_ids(src));
                lemma_max_of_concat(op_ids(dest) + op_ids(src), op_ids(size));
            }
            MirInstruction::PointerOffset { dest, ptr, offset } => {
                lemma_max_of_concat(seq![dest], op_ids(ptr));
                lemma_max_of_concat(seq![dest] + op_ids(ptr), op_ids(offset));
            }
            MirInstruction::Load { dest, ptr, .. } => {
                lemma_max_of_concat(seq![dest], op_ids(ptr));
            }
            MirInstruction::Store { ptr, value } => {
                lemma_max_of_concat(op_ids(ptr), op_ids(value));
            }
            MirInstruction::TypedStore { ptr, value, .. } => {
                lemma_max_of_concat(op_ids(ptr), op_ids(value));
            }
            MirInstruction::MemSet { ptr, value, size } => {
                lemma_max_of_concat(op_ids(ptr), op_ids(value));
                lemma_max_of_concat(op_ids(ptr) + op_ids(value), op_ids(size));
            }
            MirInstruction::Promote { dest, src, .. } => {
                lemma_max_of_concat(seq![dest], op_ids(src));
            }
            MirInstruction::BitCast { dest, src, .. } => {
                lemma_max_of_concat(seq![dest], op_ids(src));
            }
            MirInstruction::ConstantTableLoad { dest, index, .. } => {
                lemma_max_of_concat(seq![dest], op_ids(index));
            }
            MirInstruction::BufferedWrite { ptr, len } => {
                lemma_max_of_concat(op_ids(ptr), op_ids(len));
            }
            _ => {}
        }
    }
    r
}

/// The largest SSA variable the arguments and blocks name.
fn max_ssa_var(args: &Vec<crate::mir::MirArgument>, blocks: &Vec<BasicBlock>) -> (r: usize)
    ensures
        r as nat == max_nat(max_arg_ssa(args@), max_ids_blocks(blocks@)),
{
    let mut m: usize = 0;
    let mut a: usize = 0;
    while a < args.len()
        invariant
            a <= args@.len(),
            m as nat == max_arg_ssa(args@.subrange(0, a as int)),
        decreases args.len() - a,
    {
        assert(args@.subrange(0, a as int + 1).drop_last() =~= args@.subrange(0, a as int));
        if args[a].ssa_var > m {
            m = args[a].ssa_var;
        }
        a = a + 1;
    }
    assert(args@.subrange(0, a as int) =~= args@);
    let ghost ma = m;
    let mut d: usize = 0;
    let mut b: usize = 0;
    while b < blocks.len()
        invariant
            b <= blocks@.len(),
            d as nat == max_ids_blocks(blocks@.subrange(0, b as int)),
        decreases blocks.len() - b,
    {
        assert(blocks@.subrange(0, b as int + 1).drop_last() =~= blocks@.subrange(0, b as int));
        let insts = &blocks[b].instructions;
        let mut di: usize = 0;
        let mut i: usize = 0;
        while i < insts.len()
            invariant
                i <= insts@.len(),
                di as nat == max_ids_insts(insts@.subrange(0, i as int)),
            decreases insts.len() - i,
        {
            assert(insts@.subrange(0, i as int + 1).drop_last() =~= insts@.subrange(0, i as int));
            di = inst_max(&insts[i], di);
            i = i + 1;
        }
        assert(insts@.subrange(0, i as int) =~= insts@);
        let dt = match &blocks[b].terminator {
            MirTerminator::Return(op) => op_max(op, 0),
            MirTerminator::CondBranch { condition, .. } => op_max(condition, 0),
            _ => 0,
        };
        let here = if di > dt { di } else { dt };
        if here > d {
            d = here;
        }
        b = b + 1;
    }
    assert(blocks@.subrange(0, b as int) =~= blocks@);
    if d > m { d } else { m }
}

fn scope_arena(blocks: Vec<BasicBlock>, save: usize) -> (r: Vec<BasicBlock>)
    ensures
        arena_scoped(blocks@, r@, save),
{
    let ghost bs = blocks@;
    let mut blocks = blocks;
    let mut b: usize = 0;
    while b < blocks.len()
        invariant
            blocks@.len() == bs.len(),
            b <= bs.len(),
            forall|j: int| b <= j < bs.len() ==> blocks@[j] == bs[j],
            forall|j: int| 0 <= j < b ==> {
                let pre: Seq<MirInstruction> = if j == 0 { seq![MirInstruction::SaveArena { dest: save }] } else { Seq::empty() };
                let post: Seq<MirInstruction> = if bs[j].terminator is Return {
                    seq![MirInstruction::RestoreArena { saved: MirOperand::Variable(save, false) }]
                } else {
                    Seq::empty()
                };
                &&& (#[trigger] blocks@[j]).id == bs[j].id
                &&& blocks@[j].terminator == bs[j].terminator
                &&& blocks@[j].instructions@ == pre + bs[j].instructions@ + post
            },
        decreases bs.len() - b,
    {
        let mut blk = BasicBlock { id: 0, instructions: Vec::new(), terminator: MirTerminator::Unreachable };
        std::mem::swap(&mut blk, &mut blocks[b]);
        let BasicBlock { id, instructions, terminator } = blk;
        let ghost is = instructions@;
        let mut insts = instructions;
        if b == 0 {
            insts.insert(0, MirInstruction::SaveArena { dest: save });
        }
        if matches!(terminator, MirTerminator::Return(_)) {
            insts.push(MirInstruction::RestoreArena { saved: MirOperand::Variable(save, false) });
        }
        proof {
            let pre: Seq<MirInstruction> = if b == 0 { seq![MirInstruction::SaveArena { dest: save }] } else { Seq::empty() };
            let post: Seq<MirInstruction> = if terminator is Return {
                seq![MirInstruction::RestoreArena { saved: MirOperand::Variable(save, false) }]
            } else {
                Seq::empty()
            };
            assert(insts@ =~= pre + is + post);
        }
        blocks.set(b, BasicBlock { id, instructions: insts, terminator });
        b = b + 1;
    }
    blocks
}

/// Whether a function needs no fresh variable or has one to spare.
pub open spec fn fresh_available(f: MirFunction) -> bool {
    needs_fresh(f) ==> max_ssa_used(f) < usize::MAX
}

/// The lifetime pass on one function.
pub fn transform_function(func: MirFunction) -> (g: MirFunction)
    requires
        fresh_available(func),
    ensures
        lifetime_ok(func, g),
{
    let entry = is_entry(func.name.as_str());
    let had_alloc = has_alloc(&func.blocks);
    let ghost f0 = func;
    let MirFunction { name, args, return_type, blocks, is_pure_data_leaf, diminishing, memo_cache_size } = func;
    let promoted = promote_blocks(blocks);
    let ghost p = promoted@;
    let blocks = if entry || !had_alloc || !has_alloc(&promoted) {
        promoted
    } else {
        let m = max_ssa_var(&args, &promoted);
        proof { lemma_promote_ids(f0.blocks@, f0.blocks@, p); }
        scope_arena(promoted, m + 1)
    };
    let g = MirFunction { name, args, return_type, blocks, is_pure_data_leaf, diminishing, memo_cache_size };
    assert(blocks_promoted(f0.blocks@, p));
    g
}

/// The lifetime pass.
pub struct LifetimePass;

impl LifetimePass {
    /// Applies the pass to every function, keeping their order.
    pub fn run(program: MirProgram) -> (r: MirProgram)
        requires
            forall|k: int| 0 <= k < program.functions@.len() ==> fresh_available(#[trigger] program.functions@[k]),
        ensures
            r.functions@.len() == program.functions@.len(),
            forall|k: int| 0 <= k < program.functions@.len() ==> lifetime_ok(#[trigger] program.functions@[k], r.functions@[k]),
    {
        let ghost fs = program.functions@;
        let MirProgram { functions } = program;
        let mut functions = functions;
        let mut k: usize = 0;
        while k < functions.len()
            invariant
                functions@.len() == fs.len(),
                k <= fs.len(),
                forall|j: int| 0 <= j < fs.len() ==> fresh_available(#[trigger] fs[j]),
                forall|j: int| k <= j < fs.len() ==> functions@[j] == fs[j],
                forall|j: int| 0 <= j < k ==> lifetime_ok(#[trigger] fs[j], functions@[j]),
            decreases fs.len() - k,
        {
            let mut f = MirFunction {
                name: String::new(),
                args: Vec::new(),
                return_type: crate::types::OnuType::Nothing,
                blocks: Vec::new(),
                is_pure_data_leaf: false,
                diminishing: Vec::new(),
                memo_cache_size: None,
            };
            std::mem::swap(&mut f, &mut functions[k]);
            assert(fresh_available(fs[k as int]));
            functions.set(k, transform_function(f));
            k = k + 1;
        }
        MirProgram { functions }
    }
}

} // verus!
