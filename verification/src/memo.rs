//! Memoization of pure recursive functions: each such function becomes a
//! wrapper that owns a cache and an inner function whose recursive calls go
//! through the cache.

use vstd::prelude::*;
use crate::mir::{BasicBlock, MirArgument, MirBinOp, MirFunction, MirInstruction, MirLiteral, MirOperand, MirProgram, MirTerminator};
use crate::mir_util::{max_ssa_in_function, max_defined_ssa};
use crate::registry_service::RegistryService;
use crate::text::{concat2, owned, str_eq};
use crate::registry::find_name;
use crate::types::{OnuType, dup_types, ty_equiv};

verus! {

/// Whether `inst` is a call to `name` with `n` arguments: a call the rewrite
/// sends through the cache.
pub open spec fn is_target(inst: MirInstruction, name: Seq<char>, n: nat) -> bool {
    inst matches MirInstruction::Call { name: m, args, .. } && m@ == name && args@.len() == n
}

/// The number of such calls in a list of instructions.
pub open spec fn targets_in(insts: Seq<MirInstruction>, name: Seq<char>, n: nat) -> nat
    decreases insts.len(),
{
    if insts.len() == 0 {
        0
    } else {
        targets_in(insts.drop_last(), name, n) + if is_target(insts.last(), name, n) { 1nat } else { 0nat }
    }
}

/// The number of such calls in a list of blocks.
pub open spec fn targets_in_blocks(blocks: Seq<BasicBlock>, name: Seq<char>, n: nat) -> nat
    decreases blocks.len(),
{
    if blocks.len() == 0 {
        0
    } else {
        targets_in_blocks(blocks.drop_last(), name, n) + targets_in(blocks.last().instructions@, name, n)
    }
}

/// No block holds such a call.
pub open spec fn no_target(blocks: Seq<BasicBlock>, name: Seq<char>, n: nat) -> bool {
    forall|b: int, i: int| 0 <= b < blocks.len() && 0 <= i < blocks[b].instructions@.len()
        ==> !is_target(#[trigger] blocks[b].instructions@[i], name, n)
}

/// Fresh SSA variables and block ids, counting up from above those a
/// function already uses (stopping at `usize::MAX`).
pub struct Fresh {
    pub next_ssa: usize,
    pub next_block: usize,
}

impl Fresh {
    /// Counters starting just above the largest SSA variable and block id of
    /// the function.
    pub fn for_function(func: &MirFunction) -> (r: Fresh)
        ensures
            r.next_ssa as nat == if max_defined_ssa(*func) < usize::MAX { max_defined_ssa(*func) + 1 } else { usize::MAX as nat },
    {
        let m = max_ssa_in_function(func);
        let mut b: usize = 0;
        let mut k: usize = 0;
        while k < func.blocks.len()
            decreases func.blocks.len() - k,
        {
            if func.blocks[k].id > b {
                b = func.blocks[k].id;
            }
            k = k + 1;
        }
        Fresh {
            next_ssa: if m < usize::MAX { m + 1 } else { m },
            next_block: if b < usize::MAX { b + 1 } else { b },
        }
    }

    /// The next SSA variable.
    pub fn ssa(&mut self) -> (r: usize)
        ensures
            r == old(self).next_ssa,
            final(self).next_block == old(self).next_block,
            final(self).next_ssa >= old(self).next_ssa,
    {
        let r = self.next_ssa;
        if self.next_ssa < usize::MAX {
            self.next_ssa = self.next_ssa + 1;
        }
        r
    }

    /// The next block id.
    pub fn block(&mut self) -> (r: usize)
        ensures
            r == old(self).next_block,
            final(self).next_ssa == old(self).next_ssa,
            final(self).next_block >= old(self).next_block,
    {
        let r = self.next_block;
        if self.next_block < usize::MAX {
            self.next_block = self.next_block + 1;
        }
        r
    }
}

/// The name of the inner function: `name.inner`.
pub open spec fn inner_name(name: Seq<char>) -> Seq<char> {
    name + ".inner"@
}

/// The operands passing each argument's SSA variable, without consuming it.
pub open spec fn arg_operands(args: Seq<MirArgument>) -> Seq<MirOperand> {
    args.map_values(|a: MirArgument| MirOperand::Variable(a.ssa_var, false))
}

fn arg_operands_of(args: &Vec<MirArgument>) -> (r: Vec<MirOperand>)
    ensures
        r@ == arg_operands(args@),
{
    let mut out: Vec<MirOperand> = Vec::new();
    let mut i: usize = 0;
    while i < args.len()
        invariant
            i <= args@.len(),
            out@ == arg_operands(args@.subrange(0, i as int)),
        decreases args.len() - i,
    {
        out.push(MirOperand::Variable(args[i].ssa_var, false));
        assert(out@ =~= arg_operands(args@.subrange(0, i as int + 1)));
        i = i + 1;
    }
    assert(args@.subrange(0, i as int) =~= args@);
    out
}

/// A copy of the arguments: same names and SSA variables, the same types.
pub open spec fn args_copied(a: Seq<MirArgument>, b: Seq<MirArgument>) -> bool {
    &&& a.len() == b.len()
    &&& forall|i: int| 0 <= i < a.len() ==> (#[trigger] b[i]).name@ == a[i].name@ && b[i].ssa_var == a[i].ssa_var && ty_equiv(b[i].typ, a[i].typ)
}

fn copy_args(args: &Vec<MirArgument>) -> (r: Vec<MirArgument>)
    ensures
        args_copied(args@, r@),
{
    let mut out: Vec<MirArgument> = Vec::new();
    let mut i: usize = 0;
    while i < args.len()
        invariant
            i <= args@.len(),
            args_copied(args@.subrange(0, i as int), out@),
        decreases args.len() - i,
    {
        out.push(MirArgument { name: args[i].name.clone(), typ: args[i].typ.dup(), ssa_var: args[i].ssa_var });
        i = i + 1;
    }
    assert(args@.subrange(0, i as int) =~= args@);
    out
}

/// The types of the arguments followed by two pointers.
pub open spec fn inner_arg_types(args: Seq<MirArgument>, tys: Seq<OnuType>) -> bool {
    &&& tys.len() == args.len() + 2
    &&& forall|i: int| 0 <= i < args.len() ==> ty_equiv(#[trigger] tys[i], args[i].typ)
    &&& tys[args.len() as int] == OnuType::Ptr
    &&& tys[args.len() as int + 1] == OnuType::Ptr
}

fn inner_arg_types_of(args: &Vec<MirArgument>) -> (r: Vec<OnuType>)
    ensures
        inner_arg_types(args@, r@),
{
    let mut out: Vec<OnuType> = Vec::new();
    let mut i: usize = 0;
    while i < args.len()
        invariant
            i <= args@.len(),
            out@.len() == i,
            forall|j: int| 0 <= j < i ==> ty_equiv(#[trigger] out@[j], args@[j].typ),
        decreases args.len() - i,
    {
        out.push(args[i].typ.dup());
        i = i + 1;
    }
    out.push(OnuType::Ptr);
    out.push(OnuType::Ptr);
    out
}

/// The call block of a wrapper: it calls the inner function with the
/// wrapper's arguments and the two cache pointers, and returns the result.
pub open spec fn is_wrapper_call_block(blk: BasicBlock, f: MirFunction, cache: usize, occ: usize) -> bool {
    &&& blk.instructions@.len() == 1
    &&& blk.instructions@[0] matches MirInstruction::Call { dest, name, args, return_type, arg_types, is_tail_call }
        && name@ == inner_name(f.name@)
        && args@ == arg_operands(f.args@) + seq![MirOperand::Variable(cache, false), MirOperand::Variable(occ, false)]
        && ty_equiv(return_type, f.return_type)
        && inner_arg_types(f.args@, arg_types@)
        && !is_tail_call
        && blk.terminator == MirTerminator::Return(MirOperand::Variable(dest, false))
}

/// The wrapper keeps the function's name, arguments, return type and
/// annotations, is not pure (it owns the cache), and has two blocks: an
/// entry block (id 0) that sets up the cache and branches to the call block.
pub open spec fn is_wrapper_of(w: MirFunction, f: MirFunction) -> bool {
    &&& w.name@ == f.name@
    &&& args_copied(f.args@, w.args@)
    &&& ty_equiv(w.return_type, f.return_type)
    &&& !w.is_pure_data_leaf
    &&& w.diminishing@ == f.diminishing@
    &&& w.memo_cache_size == f.memo_cache_size
    &&& w.blocks@.len() == 2
    &&& w.blocks@[0].id == 0
    &&& w.blocks@[0].terminator == MirTerminator::Branch(w.blocks@[1].id)
}

/// The inner function: named `name.inner`, the function's arguments followed
/// by the cache and occupancy pointers, the same return type and
/// annotations.
pub open spec fn is_inner_of(g: MirFunction, f: MirFunction, cache: usize, occ: usize) -> bool {
    &&& g.name@ == inner_name(f.name@)
    &&& g.args@.len() == f.args@.len() + 2
    &&& g.args@.subrange(0, f.args@.len() as int) == f.args@
    &&& g.args@[f.args@.len() as int].name@ == "cache_ptr"@
    &&& g.args@[f.args@.len() as int].typ == OnuType::Ptr
    &&& g.args@[f.args@.len() as int].ssa_var == cache
    &&& g.args@[f.args@.len() as int + 1].name@ == "occ_ptr"@
    &&& g.args@[f.args@.len() as int + 1].typ == OnuType::Ptr
    &&& g.args@[f.args@.len() as int + 1].ssa_var == occ
    &&& g.return_type == f.return_type
    &&& g.is_pure_data_leaf == f.is_pure_data_leaf
    &&& g.diminishing == f.diminishing
    &&& g.memo_cache_size == f.memo_cache_size
}

/// Builds the call block of a wrapper.
fn wrapper_call_block(func: &MirFunction, fresh: &mut Fresh, call_id: usize, cache: usize, occ: usize) -> (r: BasicBlock)
    ensures
        r.id == call_id,
        is_wrapper_call_block(r, *func, cache, occ),
        final(fresh).next_block == old(fresh).next_block,
{
    let res = fresh.ssa();
    let mut call_args = arg_operands_of(&func.args);
    let ghost a0 = call_args@;
    call_args.push(MirOperand::Variable(cache, false));
    call_args.push(MirOperand::Variable(occ, false));
    assert(call_args@ =~= a0 + seq![MirOperand::Variable(cache, false), MirOperand::Variable(occ, false)]);
    let inner = concat2(func.name.as_str(), ".inner");
    BasicBlock {
        id: call_id,
        instructions: vec![MirInstruction::Call {
            name: inner,
            dest: res,
            args: call_args,
            return_type: func.return_type.dup(),
            arg_types: inner_arg_types_of(&func.args),
            is_tail_call: false,
        }],
        terminator: MirTerminator::Return(MirOperand::Variable(res, false)),
    }
}

/// Gives the function the two cache parameters, renamed to `name.inner`.
fn make_inner_header(func: MirFunction, cache: usize, occ: usize) -> (g: MirFunction)
    ensures
        is_inner_of(g, func, cache, occ),
        g.blocks == func.blocks,
{
    let MirFunction { name, args, return_type, blocks, is_pure_data_leaf, diminishing, memo_cache_size } = func;
    let mut args = args;
    let ghost a0 = args@;
    args.push(MirArgument { name: owned("cache_ptr"), typ: OnuType::Ptr, ssa_var: cache });
    args.push(MirArgument { name: owned("occ_ptr"), typ: OnuType::Ptr, ssa_var: occ });
    assert(args@.subrange(0, a0.len() as int) =~= a0);
    MirFunction {
        name: concat2(name.as_str(), ".inner"),
        args,
        return_type,
        blocks,
        is_pure_data_leaf,
        diminishing,
        memo_cache_size,
    }
}

/// A call of the inner function with the original arguments followed by the
/// two cache pointers.
fn inner_call(orig: &String, dest: usize, args: &Vec<MirOperand>, cache: usize, occ: usize, return_type: &OnuType, arg_types: &Vec<OnuType>) -> (r: MirInstruction)
    ensures
        is_inner_call(r, orig@, dest, args@, *return_type, arg_types@, cache, occ),
{
    let mut new_args = crate::mir::dup_operands(args);
    let ghost a0 = new_args@;
    new_args.push(MirOperand::Variable(cache, false));
    new_args.push(MirOperand::Variable(occ, false));
    assert(new_args@ =~= a0 + seq![MirOperand::Variable(cache, false), MirOperand::Variable(occ, false)]);
    let mut new_types = dup_types(arg_types);
    new_types.push(OnuType::Ptr);
    new_types.push(OnuType::Ptr);
    MirInstruction::Call {
        name: concat2(orig.as_str(), ".inner"),
        dest,
        args: new_args,
        is_tail_call: false,
        return_type: return_type.dup(),
        arg_types: new_types,
    }
}

/// A block holds no call that the rewrite sends through the cache.
pub open spec fn block_clean(b: BasicBlock, name: Seq<char>, n: nat) -> bool {
    forall|i: int| 0 <= i < b.instructions@.len() ==> !is_target(#[trigger] b.instructions@[i], name, n)
}

proof fn lemma_inner_not_target(name: Seq<char>, n: nat, inst: MirInstruction)
    requires
        inst matches MirInstruction::Call { name: m, .. } && m@ == inner_name(name),
    ensures
        !is_target(inst, name, n),
{
    reveal_strlit(".inner");
    if let MirInstruction::Call { name: m, .. } = inst {
        assert(m@.len() == name.len() + 6);
    }
}

proof fn lemma_push_clean(out: Seq<BasicBlock>, b: BasicBlock, name: Seq<char>, n: nat)
    requires
        no_target(out, name, n),
        block_clean(b, name, n),
    ensures
        no_target(out.push(b), name, n),
{
    let o2 = out.push(b);
    assert forall|k: int, i: int| 0 <= k < o2.len() && 0 <= i < o2[k].instructions@.len()
        implies !is_target(#[trigger] o2[k].instructions@[i], name, n) by {
        if k < out.len() {
            assert(o2[k] == out[k]);
        }
    }
}

/// `c` calls the inner function of `orig` in place of the call
/// `(dest, args, rt, ats)`: the same destination and arguments followed by
/// the two cache pointers, the same result type and argument types followed
/// by two pointer types, and no tail call.
pub open spec fn is_inner_call(
    c: MirInstruction,
    orig: Seq<char>,
    dest: usize,
    args: Seq<MirOperand>,
    rt: OnuType,
    ats: Seq<OnuType>,
    cache: usize,
    occ: usize,
) -> bool {
    c matches MirInstruction::Call { name, dest: d, args: a, return_type, arg_types, is_tail_call }
        && name@ == inner_name(orig) && d == dest
        && a@ == args + seq![MirOperand::Variable(cache, false), MirOperand::Variable(occ, false)]
        && ty_equiv(return_type, rt) && !is_tail_call
        && arg_types@.len() == ats.len() + 2
        && (forall|i: int| 0 <= i < ats.len() ==> ty_equiv(#[trigger] arg_types@[i], ats[i]))
        && arg_types@[ats.len() as int] == OnuType::Ptr && arg_types@[ats.len() as int + 1] == OnuType::Ptr
}

/// What a call site is rewritten with: the function, the inner function's
/// two cache pointers, the number of cache entries (of each dimension, for
/// the several-argument strategy), the bytes per entry, the result type,
/// which strategy, and the number of arguments of the calls rewritten.
pub struct SiteCtx {
    pub orig: Seq<char>,
    pub cache: usize,
    pub occ: usize,
    pub size: usize,
    pub stride: i64,
    pub ret: OnuType,
    pub compound: bool,
    pub arity: nat,
}

/// The SSA variables and block ids one single-argument call site uses, and
/// the block that continues after it.
pub struct SiteIds {
    pub occ_offset: usize,
    pub val_offset: usize,
    pub l_check: usize,
    pub u_check: usize,
    pub fetch_occ_ptr: usize,
    pub occ_flag: usize,
    pub hit_cond: usize,
    pub ptr: usize,
    pub val: usize,
    pub store_ptr: usize,
    pub store_occ_ptr: usize,
    pub upper: usize,
    pub fetch: usize,
    pub miss: usize,
    pub raw: usize,
    pub hit: usize,
    pub store: usize,
    pub cont: usize,
}

/// `dest = lhs op rhs` of type `ty`.
pub open spec fn bin(dest: usize, op: MirBinOp, lhs: MirOperand, rhs: MirOperand, ty: OnuType) -> MirInstruction {
    MirInstruction::BinaryOperation { dest, op, lhs, rhs, dest_type: ty }
}

/// A variable read without consuming it.
pub open spec fn var(v: usize) -> MirOperand {
    MirOperand::Variable(v, false)
}

/// An `I64` constant.
pub open spec fn int_const(v: i64) -> MirOperand {
    MirOperand::Constant(MirLiteral::I64(v))
}

/// The seven blocks of a single-argument call site `dest = orig(args)`,
/// after the instructions `pending` of the block `cur` it splits:
/// - `cur`: the pending instructions, the two offsets of the key in the
///   arrays, and a branch to the raw call when the key is negative;
/// - `upper`: a branch to the raw call when the key is not below `size`;
/// - `fetch`: reads the occupancy flag and branches to `hit` when it is set,
///   to `miss` when not;
/// - `hit`: loads the cached value into `dest`, then continues;
/// - `raw`: calls the inner function, then continues;
/// - `miss`: calls the inner function, then stores;
/// - `store`: stores `dest` in the cache and sets the flag, then continues.
pub open spec fn prim_site_with(
    s7: Seq<BasicBlock>,
    pending: Seq<MirInstruction>,
    cur: usize,
    dest: usize,
    args: Seq<MirOperand>,
    rt: OnuType,
    ats: Seq<OnuType>,
    c: SiteCtx,
    k: SiteIds,
) -> bool {
    let arg0 = args[0];
    &&& s7.len() == 7
    &&& s7[0].id == cur
    &&& s7[0].instructions@ == pending + seq![
        bin(k.occ_offset, MirBinOp::Mul, arg0, int_const(1), OnuType::I64),
        bin(k.val_offset, MirBinOp::Mul, arg0, int_const(c.stride), OnuType::I64),
        bin(k.l_check, MirBinOp::Lt, arg0, int_const(0), OnuType::Boolean),
    ]
    &&& s7[0].terminator == (MirTerminator::CondBranch { condition: var(k.l_check), then_block: k.raw, else_block: k.upper })
    &&& s7[1].id == k.upper
    &&& s7[1].instructions@ == seq![bin(k.u_check, MirBinOp::Lt, arg0, int_const(c.size as i64), OnuType::Boolean)]
    &&& s7[1].terminator == (MirTerminator::CondBranch { condition: var(k.u_check), then_block: k.fetch, else_block: k.raw })
    &&& s7[2].id == k.fetch
    &&& s7[2].instructions@ == seq![
        MirInstruction::PointerOffset { dest: k.fetch_occ_ptr, ptr: var(c.occ), offset: var(k.occ_offset) },
        MirInstruction::Load { dest: k.occ_flag, ptr: var(k.fetch_occ_ptr), typ: OnuType::I8 },
        bin(k.hit_cond, MirBinOp::Ne, var(k.occ_flag), int_const(0), OnuType::Boolean),
    ]
    &&& s7[2].terminator == (MirTerminator::CondBranch { condition: var(k.hit_cond), then_block: k.hit, else_block: k.miss })
    &&& s7[3].id == k.hit
    &&& s7[3].instructions@.len() == 3
    &&& s7[3].instructions@[0] == (MirInstruction::PointerOffset { dest: k.ptr, ptr: var(c.cache), offset: var(k.val_offset) })
    &&& s7[3].instructions@[1] matches MirInstruction::Load { dest: d, ptr: p, typ: t }
        && d == k.val && p == var(k.ptr) && ty_equiv(t, c.ret)
    &&& s7[3].instructions@[2] == (MirInstruction::Assign { dest, src: var(k.val) })
    &&& s7[3].terminator == MirTerminator::Branch(k.cont)
    &&& s7[4].id == k.raw
    &&& s7[4].instructions@.len() == 1
    &&& is_inner_call(s7[4].instructions@[0], c.orig, dest, args, rt, ats, c.cache, c.occ)
    &&& s7[4].terminator == MirTerminator::Branch(k.cont)
    &&& s7[5].id == k.miss
    &&& s7[5].instructions@.len() == 1
    &&& is_inner_call(s7[5].instructions@[0], c.orig, dest, args, rt, ats, c.cache, c.occ)
    &&& s7[5].terminator == MirTerminator::Branch(k.store)
    &&& s7[6].id == k.store
    &&& s7[6].instructions@.len() == 4
    &&& s7[6].instructions@[0] == (MirInstruction::PointerOffset { dest: k.store_ptr, ptr: var(c.cache), offset: var(k.val_offset) })
    &&& s7[6].instructions@[1] matches MirInstruction::TypedStore { ptr: p, value: v, typ: t }
        && p == var(k.store_ptr) && v == var(dest) && ty_equiv(t, c.ret)
    &&& s7[6].instructions@[2] == (MirInstruction::PointerOffset { dest: k.store_occ_ptr, ptr: var(c.occ), offset: var(k.occ_offset) })
    &&& s7[6].instructions@[3] == (MirInstruction::TypedStore { ptr: var(k.store_occ_ptr), value: int_const(1), typ: OnuType::I8 })
    &&& s7[6].terminator == MirTerminator::Branch(k.cont)
}

/// The SSA variables and block ids one call site of the several-argument
/// strategy uses: the Horner chain (`accs[k]` the index of the first `k + 1`
/// arguments, `scaled[k]` the one before times the dimension), the range
/// checks of each argument (`lows[k]`, `ups[k]` their blocks; `lows[0]` is
/// unused, the check of the first argument being in the split block), the
/// lookup, and the block that continues after the site.
pub struct CompIds {
    pub accs: Seq<usize>,
    pub scaled: Seq<usize>,
    pub l_checks: Seq<usize>,
    pub u_checks: Seq<usize>,
    pub lows: Seq<usize>,
    pub ups: Seq<usize>,
    pub occ_slot: usize,
    pub occ_flag: usize,
    pub hit_cond: usize,
    pub byte_offset: usize,
    pub ptr: usize,
    pub val: usize,
    pub store_offset: usize,
    pub store_ptr: usize,
    pub occ_store_ptr: usize,
    pub fetch: usize,
    pub hit: usize,
    pub miss_in: usize,
    pub miss_out: usize,
    pub store: usize,
    pub cont: usize,
}

/// The flat index of the arguments, by Horner's rule over the dimension
/// `dim`: `accs[0] = args[0]`, then `accs[k] = accs[k-1] * dim + args[k]`.
pub open spec fn horner_ok(h: Seq<MirInstruction>, args: Seq<MirOperand>, dim: MirOperand, k: CompIds) -> bool {
    &&& h.len() == 2 * args.len() - 1
    &&& h[0] == (MirInstruction::Assign { dest: k.accs[0], src: args[0] })
    &&& forall|j: int| 1 <= j < args.len() ==> #[trigger] h[2 * j - 1] == bin(k.scaled[j], MirBinOp::Mul, var(k.accs[j - 1]), dim, OnuType::I64)
        && h[2 * j] == bin(k.accs[j], MirBinOp::Add, var(k.scaled[j]), args[j], OnuType::I64)
}

/// Where the range check of argument `j` passes to: the check of the next
/// argument, or the lookup after the last one.
pub open spec fn next_check(k: CompIds, j: int, n: int) -> usize {
    if j + 1 < n { k.lows[j + 1] } else { k.fetch }
}

/// The `2 n + 5` blocks of a call site `dest = orig(args)` of `n` arguments
/// under the several-argument strategy, after the instructions `pending` of
/// block `cur`:
/// - `cur`: the pending instructions, the flat index (`horner_ok`), and a
///   branch to the raw call when the first argument is negative;
/// - for each argument, a block that branches to the raw call when it is
///   not below the dimension (and, after the first, one that branches there
///   when it is negative);
/// - `fetch`: reads the occupancy flag and the cached value, and branches to
///   `hit` when the flag is set, to `miss_in` when not;
/// - `hit`: the cached value into `dest`; `miss_in`: the inner call, then
///   `store`; `miss_out` (keys outside the cache): the inner call;
/// - `store`: stores `dest` and sets the flag; all end at `cont`.
pub open spec fn comp_site_with(
    sb: Seq<BasicBlock>,
    pending: Seq<MirInstruction>,
    cur: usize,
    dest: usize,
    args: Seq<MirOperand>,
    rt: OnuType,
    ats: Seq<OnuType>,
    c: SiteCtx,
    k: CompIds,
) -> bool {
    let n = args.len() as int;
    let dim = int_const(c.size as i64);
    let flat = k.accs[n - 1];
    let i0 = sb[0].instructions@;
    &&& n >= 1
    &&& sb.len() == 2 * n + 5
    &&& k.accs.len() == n && k.scaled.len() == n && k.l_checks.len() == n && k.u_checks.len() == n
    &&& k.lows.len() == n && k.ups.len() == n
    &&& sb[0].id == cur
    &&& i0.len() == pending.len() + 2 * n
    &&& i0.subrange(0, pending.len() as int) == pending
    &&& horner_ok(i0.subrange(pending.len() as int, i0.len() - 1), args, dim, k)
    &&& i0[i0.len() - 1] == bin(k.l_checks[0], MirBinOp::Lt, args[0], int_const(0), OnuType::Boolean)
    &&& sb[0].terminator == (MirTerminator::CondBranch { condition: var(k.l_checks[0]), then_block: k.miss_out, else_block: k.ups[0] })
    &&& sb[1].id == k.ups[0]
    &&& sb[1].instructions@ == seq![bin(k.u_checks[0], MirBinOp::Lt, args[0], dim, OnuType::Boolean)]
    &&& sb[1].terminator == (MirTerminator::CondBranch { condition: var(k.u_checks[0]), then_block: next_check(k, 0, n), else_block: k.miss_out })
    &&& forall|j: int| 1 <= j < n ==> {
        &&& (#[trigger] sb[2 * j]).id == k.lows[j]
        &&& sb[2 * j].instructions@ == seq![bin(k.l_checks[j], MirBinOp::Lt, args[j], int_const(0), OnuType::Boolean)]
        &&& sb[2 * j].terminator == (MirTerminator::CondBranch { condition: var(k.l_checks[j]), then_block: k.miss_out, else_block: k.ups[j] })
        &&& sb[2 * j + 1].id == k.ups[j]
        &&& sb[2 * j + 1].instructions@ == seq![bin(k.u_checks[j], MirBinOp::Lt, args[j], dim, OnuType::Boolean)]
        &&& sb[2 * j + 1].terminator == (MirTerminator::CondBranch { condition: var(k.u_checks[j]), then_block: next_check(k, j, n), else_block: k.miss_out })
    }
    &&& sb[2 * n].id == k.fetch
    &&& sb[2 * n].instructions@.len() == 6
    &&& sb[2 * n].instructions@[0] == (MirInstruction::PointerOffset { dest: k.occ_slot, ptr: var(c.occ), offset: var(flat) })
    &&& sb[2 * n].instructions@[1] == (MirInstruction::Load { dest: k.occ_flag, ptr: var(k.occ_slot), typ: OnuType::I8 })
    &&& sb[2 * n].instructions@[2] == bin(k.hit_cond, MirBinOp::Ne, var(k.occ_flag), int_const(0), OnuType::Boolean)
    &&& sb[2 * n].instructions@[3] == bin(k.byte_offset, MirBinOp::Mul, var(flat), int_const(c.stride), OnuType::I64)
    &&& sb[2 * n].instructions@[4] == (MirInstruction::PointerOffset { dest: k.ptr, ptr: var(c.cache), offset: var(k.byte_offset) })
    &&& sb[2 * n].instructions@[5] matches MirInstruction::Load { dest: d, ptr: p, typ: t }
        && d == k.val && p == var(k.ptr) && ty_equiv(t, c.ret)
    &&& sb[2 * n].terminator == (MirTerminator::CondBranch { condition: var(k.hit_cond), then_block: k.hit, else_block: k.miss_in })
    &&& sb[2 * n + 1].id == k.hit
    &&& sb[2 * n + 1].instructions@ == seq![MirInstruction::Assign { dest, src: var(k.val) }]
    &&& sb[2 * n + 1].terminator == MirTerminator::Branch(k.cont)
    &&& sb[2 * n + 2].id == k.miss_in
    &&& sb[2 * n + 2].instructions@.len() == 1
    &&& is_inner_call(sb[2 * n + 2].instructions@[0], c.orig, dest, args, rt, ats, c.cache, c.occ)
    &&& sb[2 * n + 2].terminator == MirTerminator::Branch(k.store)
    &&& sb[2 * n + 3].id == k.miss_out
    &&& sb[2 * n + 3].instructions@.len() == 1
    &&& is_inner_call(sb[2 * n + 3].instructions@[0], c.orig, dest, args, rt, ats, c.cache, c.occ)
    &&& sb[2 * n + 3].terminator == MirTerminator::Branch(k.cont)
    &&& sb[2 * n + 4].id == k.store
    &&& sb[2 * n + 4].instructions@.len() == 5
    &&& sb[2 * n + 4].instructions@[0] == bin(k.store_offset, MirBinOp::Mul, var(flat), int_const(c.stride), OnuType::I64)
    &&& sb[2 * n + 4].instructions@[1] == (MirInstruction::PointerOffset { dest: k.store_ptr, ptr: var(c.cache), offset: var(k.store_offset) })
    &&& sb[2 * n + 4].instructions@[2] matches MirInstruction::TypedStore { ptr: p, value: v, typ: t }
        && p == var(k.store_ptr) && v == var(dest) && ty_equiv(t, c.ret)
    &&& sb[2 * n + 4].instructions@[3] == (MirInstruction::PointerOffset { dest: k.occ_store_ptr, ptr: var(c.occ), offset: var(flat) })
    &&& sb[2 * n + 4].instructions@[4] == (MirInstruction::TypedStore { ptr: var(k.occ_store_ptr), value: int_const(1), typ: OnuType::I8 })
    &&& sb[2 * n + 4].terminator == MirTerminator::Branch(k.cont)
}

/// `sb` are the blocks of the several-argument call site `dest =
/// orig(args)` after the instructions `pending` of block `cur`, continuing
/// at block `cont`.
pub open spec fn compound_site_of(
    sb: Seq<BasicBlock>,
    pending: Seq<MirInstruction>,
    cur: usize,
    dest: usize,
    args: Seq<MirOperand>,
    rt: OnuType,
    ats: Seq<OnuType>,
    c: SiteCtx,
    cont: usize,
) -> bool {
    exists|k: CompIds| #[trigger] comp_site_with(sb, pending, cur, dest, args, rt, ats, c, k) && k.cont == cont
}

/// `s7` are the blocks of the call site `dest = orig(args)` after the
/// instructions `pending` of block `cur`, continuing at block `cont`.
pub open spec fn site_of(
    s7: Seq<BasicBlock>,
    pending: Seq<MirInstruction>,
    cur: usize,
    dest: usize,
    args: Seq<MirOperand>,
    rt: OnuType,
    ats: Seq<OnuType>,
    c: SiteCtx,
    cont: usize,
) -> bool {
    exists|k: SiteIds| #[trigger] prim_site_with(s7, pending, cur, dest, args, rt, ats, c, k) && k.cont == cont
}

/// Reading the instructions `is` of a block `id0` from the start produced
/// the blocks `produced` (seven for each call site) and left the
/// instructions `pending` for block `cur`.
pub open spec fn sites_done(
    produced: Seq<BasicBlock>,
    is: Seq<MirInstruction>,
    id0: usize,
    pending: Seq<MirInstruction>,
    cur: usize,
    c: SiteCtx,
) -> bool
    decreases is.len(),
{
    let per = site_blocks(c.compound, c.arity) as int;
    let head = if c.compound { 2 * c.arity } else { 3 };
    if is.len() == 0 {
        produced.len() == 0 && pending.len() == 0 && cur == id0
    } else if is_target(is.last(), c.orig, c.arity) {
        let sb = produced.subrange(produced.len() - per, produced.len() as int);
        let p0 = sb[0].instructions@;
        &&& produced.len() >= per
        &&& pending.len() == 0
        &&& p0.len() >= head
        &&& is.last() matches MirInstruction::Call { dest, args, return_type, arg_types, .. }
            && (if c.compound {
                compound_site_of(sb, p0.subrange(0, p0.len() - head), sb[0].id, dest, args@, return_type, arg_types@, c, cur)
            } else {
                site_of(sb, p0.subrange(0, p0.len() - head), sb[0].id, dest, args@, return_type, arg_types@, c, cur)
            })
        &&& sites_done(produced.subrange(0, produced.len() - per), is.drop_last(), id0, p0.subrange(0, p0.len() - head), sb[0].id, c)
    } else {
        &&& pending.len() > 0
        &&& pending.last() == is.last()
        &&& sites_done(produced, is.drop_last(), id0, pending.drop_last(), cur, c)
    }
}

/// `seg` is what the rewrite makes of block `b`: the blocks of its call
/// sites in order, then a block with the instructions after the last site
/// and `b`'s terminator.
pub open spec fn block_rewritten(seg: Seq<BasicBlock>, b: BasicBlock, c: SiteCtx) -> bool {
    &&& seg.len() >= 1
    &&& seg.last().terminator == b.terminator
    &&& sites_done(seg.drop_last(), b.instructions@, b.id, seg.last().instructions@, seg.last().id, c)
}

/// `out` is what the rewrite makes of the blocks `bs`, block by block.
pub open spec fn blocks_rewritten(out: Seq<BasicBlock>, bs: Seq<BasicBlock>, c: SiteCtx) -> bool
    decreases bs.len(),
{
    if bs.len() == 0 {
        out.len() == 0
    } else {
        let n = 1 + site_blocks(c.compound, c.arity) * targets_in(bs.last().instructions@, c.orig, c.arity);
        &&& out.len() >= n
        &&& block_rewritten(out.subrange(out.len() - n, out.len() as int), bs.last(), c)
        &&& blocks_rewritten(out.subrange(0, out.len() - n), bs.drop_last(), c)
    }
}

/// The inner function `g` of `f` has `f`'s blocks with every recursive
/// call of `arity` arguments rewritten into the blocks of its cache lookup
/// (`prim_site_with` for the single-argument strategy, `comp_site_with` for
/// the several-argument one), over `g`'s two cache pointers.
pub open spec fn sites_rewritten(f: MirFunction, g: MirFunction, size: usize, stride: i64, compound: bool, arity: nat) -> bool {
    exists|rt: OnuType| ty_equiv(rt, f.return_type) && #[trigger] blocks_rewritten(g.blocks@, f.blocks@, SiteCtx {
        orig: f.name@,
        cache: g.args@[f.args@.len() as int].ssa_var,
        occ: g.args@[f.args@.len() as int + 1].ssa_var,
        size,
        stride,
        ret: rt,
        compound,
        arity,
    })
}

/// The instructions of one call site's cache lookup, the five blocks after
/// the site, and the blocks of the raw and missing calls, as the
/// single-argument strategy emits them.
fn primitive_site(
    fresh: &mut Fresh,
    out: &mut Vec<BasicBlock>,
    current_insts: &mut Vec<MirInstruction>,
    current_id: usize,
    dest: usize,
    args: &Vec<MirOperand>,
    return_type: &OnuType,
    arg_types: &Vec<OnuType>,
    orig: &String,
    cache: usize,
    occ: usize,
    cache_size: usize,
    stride: i64,
    ret_type: &OnuType,
) -> (cont: usize)
    requires
        args@.len() == 1,
        cache_size <= i64::MAX,
        no_target(old(out)@, orig@, 1),
        forall|j: int| 0 <= j < old(current_insts)@.len() ==> !is_target(#[trigger] old(current_insts)@[j], orig@, 1),
    ensures
        no_target(final(out)@, orig@, 1),
        final(out)@.len() == old(out)@.len() + 7,
        final(current_insts)@.len() == 0,
        final(out)@.subrange(0, old(out)@.len() as int) == old(out)@,
        site_of(final(out)@.subrange(old(out)@.len() as int, final(out)@.len() as int), old(current_insts)@, current_id,
            dest, args@, *return_type, arg_types@,
            SiteCtx { orig: orig@, cache, occ, size: cache_size, stride, ret: *ret_type, compound: false, arity: 1 }, cont),
{
    let ghost out0 = out@;
    let ghost pend0 = current_insts@;
    let upper_check_id = fresh.block();
    let fetch_id = fresh.block();
    let miss_id = fresh.block();
    let raw_call_id = fresh.block();
    let hit_id = fresh.block();
    let store_id = fresh.block();
    let cont_id = fresh.block();
    let arg0 = args[0].dup();

    let occ_offset = fresh.ssa();
    current_insts.push(MirInstruction::BinaryOperation {
        dest: occ_offset,
        op: MirBinOp::Mul,
        lhs: arg0.dup(),
        rhs: MirOperand::Constant(MirLiteral::I64(1)),
        dest_type: OnuType::I64,
    });
    let val_offset = fresh.ssa();
    current_insts.push(MirInstruction::BinaryOperation {
        dest: val_offset,
        op: MirBinOp::Mul,
        lhs: arg0.dup(),
        rhs: MirOperand::Constant(MirLiteral::I64(stride)),
        dest_type: OnuType::I64,
    });
    let l_check = fresh.ssa();
    current_insts.push(MirInstruction::BinaryOperation {
        dest: l_check,
        op: MirBinOp::Lt,
        lhs: arg0.dup(),
        rhs: MirOperand::Constant(MirLiteral::I64(0)),
        dest_type: OnuType::Boolean,
    });
    let mut taken: Vec<MirInstruction> = Vec::new();
    std::mem::swap(&mut taken, current_insts);
    let b0 = BasicBlock {
        id: current_id,
        instructions: taken,
        terminator: MirTerminator::CondBranch {
            condition: MirOperand::Variable(l_check, false),
            then_block: raw_call_id,
            else_block: upper_check_id,
        },
    };
    proof { lemma_push_clean(out@, b0, orig@, 1); }
    let ghost g0 = b0;
    out.push(b0);

    let u_check = fresh.ssa();
    let b1 = BasicBlock {
        id: upper_check_id,
        instructions: vec![MirInstruction::BinaryOperation {
            dest: u_check,
            op: MirBinOp::Lt,
            lhs: arg0.dup(),
            rhs: MirOperand::Constant(MirLiteral::I64(cache_size as i64)),
            dest_type: OnuType::Boolean,
        }],
        terminator: MirTerminator::CondBranch {
            condition: MirOperand::Variable(u_check, false),
            then_block: fetch_id,
            else_block: raw_call_id,
        },
    };
    proof { lemma_push_clean(out@, b1, orig@, 1); }
    let ghost g1 = b1;
    out.push(b1);

    let fetch_occ_ptr = fresh.ssa();
    let occ_flag = fresh.ssa();
    let hit_cond = fresh.ssa();
    let b2 = BasicBlock {
        id: fetch_id,
        instructions: vec![
            MirInstruction::PointerOffset {
                dest: fetch_occ_ptr,
                ptr: MirOperand::Variable(occ, false),
                offset: MirOperand::Variable(occ_offset, false),
            },
            MirInstruction::Load { dest: occ_flag, ptr: MirOperand::Variable(fetch_occ_ptr, false), typ: OnuType::I8 },
            MirInstruction::BinaryOperation {
                dest: hit_cond,
                op: MirBinOp::Ne,
                lhs: MirOperand::Variable(occ_flag, false),
                rhs: MirOperand::Constant(MirLiteral::I64(0)),
                dest_type: OnuType::Boolean,
            },
        ],
        terminator: MirTerminator::CondBranch {
            condition: MirOperand::Variable(hit_cond, false),
            then_block: hit_id,
            else_block: miss_id,
        },
    };
    proof { lemma_push_clean(out@, b2, orig@, 1); }
    let ghost g2 = b2;
    out.push(b2);

    let ptr_ssa = fresh.ssa();
    let val_ssa = fresh.ssa();
    let b3 = BasicBlock {
        id: hit_id,
        instructions: vec![
            MirInstruction::PointerOffset {
                dest: ptr_ssa,
                ptr: MirOperand::Variable(cache, false),
                offset: MirOperand::Variable(val_offset, false),
            },
            MirInstruction::Load { dest: val_ssa, ptr: MirOperand::Variable(ptr_ssa, false), typ: ret_type.dup() },
            MirInstruction::Assign { dest, src: MirOperand::Variable(val_ssa, false) },
        ],
        terminator: MirTerminator::Branch(cont_id),
    };
    proof { lemma_push_clean(out@, b3, orig@, 1); }
    let ghost g3 = b3;
    out.push(b3);

    let raw = inner_call(orig, dest, args, cache, occ, return_type, arg_types);
    proof { lemma_inner_not_target(orig@, 1, raw); }
    let b4 = BasicBlock { id: raw_call_id, instructions: vec![raw], terminator: MirTerminator::Branch(cont_id) };
    proof { lemma_push_clean(out@, b4, orig@, 1); }
    let ghost g4 = b4;
    out.push(b4);

    let miss = inner_call(orig, dest, args, cache, occ, return_type, arg_types);
    proof { lemma_inner_not_target(orig@, 1, miss); }
    let b5 = BasicBlock { id: miss_id, instructions: vec![miss], terminator: MirTerminator::Branch(store_id) };
    proof { lemma_push_clean(out@, b5, orig@, 1); }
    let ghost g5 = b5;
    out.push(b5);

    let store_ptr = fresh.ssa();
    let store_occ_ptr = fresh.ssa();
    let b6 = BasicBlock {
        id: store_id,
        instructions: vec![
            MirInstruction::PointerOffset {
                dest: store_ptr,
                ptr: MirOperand::Variable(cache, false),
                offset: MirOperand::Variable(val_offset, false),
            },
            MirInstruction::TypedStore {
                ptr: MirOperand::Variable(store_ptr, false),
                value: MirOperand::Variable(dest, false),
                typ: ret_type.dup(),
            },
            MirInstruction::PointerOffset {
                dest: store_occ_ptr,
                ptr: MirOperand::Variable(occ, false),
                offset: MirOperand::Variable(occ_offset, false),
            },
            MirInstruction::TypedStore {
                ptr: MirOperand::Variable(store_occ_ptr, false),
                value: MirOperand::Constant(MirLiteral::I64(1)),
                typ: OnuType::I8,
            },
        ],
        terminator: MirTerminator::Branch(cont_id),
    };
    proof { lemma_push_clean(out@, b6, orig@, 1); }
    let ghost g6 = b6;
    out.push(b6);
    proof {
        let k = SiteIds {
            occ_offset, val_offset, l_check, u_check, fetch_occ_ptr, occ_flag, hit_cond,
            ptr: ptr_ssa, val: val_ssa, store_ptr, store_occ_ptr,
            upper: upper_check_id, fetch: fetch_id, miss: miss_id, raw: raw_call_id, hit: hit_id, store: store_id,
            cont: cont_id,
        };
        let c = SiteCtx { orig: orig@, cache, occ, size: cache_size, stride, ret: *ret_type, compound: false, arity: 1 };
        let s7 = out@.subrange(out0.len() as int, out@.len() as int);
        assert(s7 =~= seq![g0, g1, g2, g3, g4, g5, g6]);
        assert(out@.subrange(0, out0.len() as int) =~= out0);
        assert(g0.instructions@ =~= pend0 + seq![
            bin(k.occ_offset, MirBinOp::Mul, args@[0], int_const(1), OnuType::I64),
            bin(k.val_offset, MirBinOp::Mul, args@[0], int_const(stride), OnuType::I64),
            bin(k.l_check, MirBinOp::Lt, args@[0], int_const(0), OnuType::Boolean),
        ]);
        assert(g1.instructions@ =~= seq![bin(k.u_check, MirBinOp::Lt, args@[0], int_const(cache_size as i64), OnuType::Boolean)]);
        assert(prim_site_with(s7, pend0, current_id, dest, args@, *return_type, arg_types@, c, k));
    }
    cont_id
}

/// The blocks one call site adds: seven for the single-argument strategy,
/// `2 * n + 5` for the strategy over `n` arguments.
pub open spec fn site_blocks(compound: bool, n: nat) -> nat {
    if compound { 2 * n + 5 } else { 7 }
}

/// Sends every call to `orig` with `n` arguments in the blocks through the
/// cache: each such call splits its block and adds the blocks of its cache
/// lookup; other instructions and the terminators stay in order.
fn rewrite_sites(
    blocks: Vec<BasicBlock>,
    fresh: &mut Fresh,
    cache: usize,
    occ: usize,
    orig: &String,
    n: usize,
    compound: bool,
    size: usize,
    stride: i64,
    ret_type: &OnuType,
) -> (out: Vec<BasicBlock>)
    requires
        size <= i64::MAX,
        n >= 1,
        !compound ==> n == 1,
    ensures
        no_target(out@, orig@, n as nat),
        out@.len() == blocks@.len() + site_blocks(compound, n as nat) * targets_in_blocks(blocks@, orig@, n as nat),
        blocks_rewritten(out@, blocks@, SiteCtx { orig: orig@, cache, occ, size, stride, ret: *ret_type, compound, arity: n as nat }),
{
    let ghost bs = blocks@;
    let ghost c = SiteCtx { orig: orig@, cache, occ, size, stride, ret: *ret_type, compound, arity: n as nat };
    let ghost per = site_blocks(compound, n as nat);
    let mut blocks = blocks;
    let mut out: Vec<BasicBlock> = Vec::new();
    let mut b: usize = 0;
    assert(targets_in_blocks(bs.subrange(0, 0), orig@, n as nat) == 0);
    assert(per * 0 == 0) by (nonlinear_arith);
    while b < blocks.len()
        invariant
            size <= i64::MAX,
            n >= 1,
            !compound ==> n == 1,
            per == site_blocks(compound, n as nat),
            blocks@.len() == bs.len(),
            b <= bs.len(),
            forall|j: int| b <= j < bs.len() ==> blocks@[j] == bs[j],
            no_target(out@, orig@, n as nat),
            out@.len() == b + per * targets_in_blocks(bs.subrange(0, b as int), orig@, n as nat),
            c == (SiteCtx { orig: orig@, cache, occ, size, stride, ret: *ret_type, compound, arity: n as nat }),
            blocks_rewritten(out@, bs.subrange(0, b as int), c),
        decreases bs.len() - b,
    {
        let mut block = BasicBlock { id: 0, instructions: Vec::new(), terminator: MirTerminator::Unreachable };
        std::mem::swap(&mut block, &mut blocks[b]);
        let BasicBlock { id, instructions, terminator } = block;
        let ghost is = instructions@;
        let mut insts = instructions;
        let mut current: Vec<MirInstruction> = Vec::new();
        let mut current_id = id;
        let ghost out0 = out@.len();
        let ghost outb = out@;
        let mut i: usize = 0;
        proof {
            assert(out@.subrange(out0 as int, out@.len() as int) =~= Seq::<BasicBlock>::empty());
            assert(is.subrange(0, 0) =~= Seq::<MirInstruction>::empty());
        }
        assert(targets_in(is.subrange(0, 0), orig@, n as nat) == 0);
        assert(per * 0 == 0) by (nonlinear_arith);
        while i < insts.len()
            invariant
                size <= i64::MAX,
                n >= 1,
                !compound ==> n == 1,
                per == site_blocks(compound, n as nat),
                insts@.len() == is.len(),
                i <= is.len(),
                forall|j: int| i <= j < is.len() ==> insts@[j] == is[j],
                no_target(out@, orig@, n as nat),
                forall|j: int| 0 <= j < current@.len() ==> !is_target(#[trigger] current@[j], orig@, n as nat),
                out@.len() == out0 + per * targets_in(is.subrange(0, i as int), orig@, n as nat),
                out0 == outb.len(),
                out@.subrange(0, out0 as int) == outb,
                c == (SiteCtx { orig: orig@, cache, occ, size, stride, ret: *ret_type, compound, arity: n as nat }),
                sites_done(out@.subrange(out0 as int, out@.len() as int), is.subrange(0, i as int), id, current@, current_id, c),
            decreases is.len() - i,
        {
            assert(is.subrange(0, i as int + 1).drop_last() =~= is.subrange(0, i as int));
            let mut inst = MirInstruction::FlushStdout;
            std::mem::swap(&mut inst, &mut insts[i]);
            let is_site = match &inst {
                MirInstruction::Call { name, args, .. } => *name == *orig && args.len() == n,
                _ => false,
            };
            if is_site {
                if let MirInstruction::Call { dest, args, return_type, arg_types, .. } = &inst {
                    let ghost o1 = out@.len();
                    let ghost outp = out@;
                    let ghost cur0 = current@;
                    let ghost cid0 = current_id;
                    if compound {
                        current_id = compound_site(fresh, &mut out, &mut current, current_id, *dest, args, return_type, arg_types,
                            orig, cache, occ, size, stride, ret_type);
                    } else {
                        current_id = primitive_site(fresh, &mut out, &mut current, current_id, *dest, args, return_type, arg_types,
                            orig, cache, occ, size, stride, ret_type);
                    }
                    assert(out@.len() == o1 + per);
                    proof {
                        let sb = out@.subrange(o1 as int, out@.len() as int);
                        let pnew = out@.subrange(out0 as int, out@.len() as int);
                        let pold = outp.subrange(out0 as int, o1 as int);
                        assert(out@.subrange(0, o1 as int) == outp);
                        assert(pnew.subrange(pnew.len() - per, pnew.len() as int) =~= sb);
                        assert(pnew.subrange(0, pnew.len() - per) =~= pold);
                        let p0 = sb[0].instructions@;
                        if compound {
                            let k = choose|k: CompIds| #[trigger] comp_site_with(sb, cur0, cid0, *dest, args@, *return_type, arg_types@, c, k)
                                && k.cont == current_id;
                            assert(p0.subrange(0, p0.len() - 2 * n) =~= cur0);
                        } else {
                            let k = choose|k: SiteIds| #[trigger] prim_site_with(sb, cur0, cid0, *dest, args@, *return_type, arg_types@, c, k)
                                && k.cont == current_id;
                            assert(p0.subrange(0, p0.len() - 3) =~= cur0);
                        }
                        assert(is.subrange(0, i as int + 1).last() == inst);
                        assert(out@.subrange(0, out0 as int) =~= outb) by {
                            assert(outp.subrange(0, out0 as int) == outb);
                        }
                        assert(sites_done(pnew, is.subrange(0, i as int + 1), id, current@, current_id, c));
                    }
                    assert(per * targets_in(is.subrange(0, i as int + 1), orig@, n as nat)
                        == per * targets_in(is.subrange(0, i as int), orig@, n as nat) + per) by (nonlinear_arith)
                        requires targets_in(is.subrange(0, i as int + 1), orig@, n as nat) == targets_in(is.subrange(0, i as int), orig@, n as nat) + 1;
                }
            } else {
                let ghost cur0 = current@;
                current.push(inst);
                proof {
                    assert(is.subrange(0, i as int + 1).last() == inst);
                    assert(current@.drop_last() =~= cur0);
                }
            }
            i = i + 1;
        }
        assert(is.subrange(0, i as int) =~= is);
        let last = BasicBlock { id: current_id, instructions: current, terminator };
        proof {
            lemma_push_clean(out@, last, orig@, n as nat);
            assert(bs.subrange(0, b as int + 1).drop_last() =~= bs.subrange(0, b as int));
            let t0 = targets_in_blocks(bs.subrange(0, b as int), orig@, n as nat);
            let t1 = targets_in(is, orig@, n as nat);
            assert(per * (t0 + t1) == per * t0 + per * t1) by (nonlinear_arith);
        }
        let ghost lastg = last;
        let ghost prod = out@.subrange(out0 as int, out@.len() as int);
        out.push(last);
        proof {
            let seg = out@.subrange(out0 as int, out@.len() as int);
            assert(seg.drop_last() =~= prod);
            assert(seg.last() == lastg);
            assert(block_rewritten(seg, bs[b as int], c));
            let bs1 = bs.subrange(0, b as int + 1);
            assert(bs1.last() == bs[b as int]);
            let nn = 1 + per * targets_in(bs[b as int].instructions@, orig@, n as nat);
            assert(out@.subrange(out@.len() - nn, out@.len() as int) =~= seg);
            assert(out@.subrange(0, out@.len() - nn) =~= outb);
            assert(blocks_rewritten(out@, bs1, c));
        }
        b = b + 1;
    }
    assert(bs.subrange(0, b as int) =~= bs);
    out
}

/// The entry block of the single-argument wrapper: two zeroed module-level
/// arrays, `cache_size` values of `stride` bytes and `cache_size` occupancy
/// flags, named after the function.
pub open spec fn is_primitive_entry(blk: BasicBlock, f: MirFunction, cache_size: usize, stride: usize, cache: usize, occ: usize) -> bool {
    &&& blk.instructions@.len() == 2
    &&& blk.instructions@[0] matches MirInstruction::GlobalAlloc { dest, size_bytes, name }
        && dest == cache && size_bytes == cache_size * stride && name@ == f.name@ + "_cache_val"@
    &&& blk.instructions@[1] matches MirInstruction::GlobalAlloc { dest, size_bytes, name }
        && dest == occ && size_bytes == cache_size && name@ == f.name@ + "_cache_occ"@
}

/// The memoization strategy for functions of one argument returning a
/// primitive value: a direct-mapped cache indexed by the argument.
pub struct PrimitiveMemoStrategy;

/// A way to split a memoizable function into a caching wrapper and an inner
/// function.
pub trait MemoStrategy {
    fn create_wrapper_and_inner(&self, func: MirFunction, cache_size: usize, registry: &RegistryService) -> (r: (MirFunction, MirFunction))
        requires
            registry.has_layout(func.return_type),
            cache_size <= i64::MAX,
            registry.spec_size_of(func.return_type) <= i64::MAX,
            cache_size * registry.spec_size_of(func.return_type) <= i64::MAX,
            cache_size * registry.spec_size_of(func.return_type) <= usize::MAX,
            func.args@.len() >= 1,
    ;
}

impl PrimitiveMemoStrategy {
    /// The wrapper owns two module-level arrays (values and occupancy flags)
    /// and calls the inner function with pointers to them; every
    /// single-argument recursive call of the inner function goes through the
    /// cache, keys outside `0..cache_size` calling the inner function
    /// directly.
    pub fn split(func: MirFunction, cache_size: usize, registry: &RegistryService) -> (r: (MirFunction, MirFunction))
        requires
            registry.has_layout(func.return_type),
            cache_size <= i64::MAX,
            registry.spec_size_of(func.return_type) <= i64::MAX,
            cache_size * registry.spec_size_of(func.return_type) <= i64::MAX,
            cache_size * registry.spec_size_of(func.return_type) <= usize::MAX,
        ensures
            is_wrapper_of(r.0, func),
            ({
                let e = r.0.blocks@[0];
                let c = e.instructions@[0]->GlobalAlloc_dest;
                let o = e.instructions@[1]->GlobalAlloc_dest;
                &&& is_primitive_entry(e, func, cache_size, registry.spec_size_of(func.return_type), c, o)
                &&& is_wrapper_call_block(r.0.blocks@[1], func, c, o)
            }),
            is_inner_of(r.1, func, r.1.args@[func.args@.len() as int].ssa_var, r.1.args@[func.args@.len() as int + 1].ssa_var),
            no_target(r.1.blocks@, func.name@, 1),
            r.1.blocks@.len() == func.blocks@.len() + 7 * targets_in_blocks(func.blocks@, func.name@, 1),
            sites_rewritten(func, r.1, cache_size, registry.spec_size_of(func.return_type) as i64, false, 1),
    {
        let mut fresh = Fresh::for_function(&func);
        let stride = registry.size_of(&func.return_type);
        let total_bytes = cache_size * stride;
        let cache_ptr = fresh.ssa();
        let occ_ptr = fresh.ssa();
        let call_id = fresh.block();
        let entry = BasicBlock {
            id: 0,
            instructions: vec![
                MirInstruction::GlobalAlloc { dest: cache_ptr, size_bytes: total_bytes, name: concat2(func.name.as_str(), "_cache_val") },
                MirInstruction::GlobalAlloc { dest: occ_ptr, size_bytes: cache_size, name: concat2(func.name.as_str(), "_cache_occ") },
            ],
            terminator: MirTerminator::Branch(call_id),
        };
        let call_block = wrapper_call_block(&func, &mut fresh, call_id, cache_ptr, occ_ptr);
        let wrapper = MirFunction {
            name: func.name.clone(),
            args: copy_args(&func.args),
            return_type: func.return_type.dup(),
            blocks: vec![entry, call_block],
            is_pure_data_leaf: false,
            diminishing: func.diminishing.clone(),
            memo_cache_size: func.memo_cache_size,
        };
        let inner_cache = fresh.ssa();
        let inner_occ = fresh.ssa();
        let ret_type = func.return_type.dup();
        let orig_name = func.name.clone();
        let ghost f0 = func;
        let mut inner = make_inner_header(func, inner_cache, inner_occ);
        let mut blocks: Vec<BasicBlock> = Vec::new();
        std::mem::swap(&mut blocks, &mut inner.blocks);
        inner.blocks = rewrite_sites(blocks, &mut fresh, inner_cache, inner_occ, &orig_name, 1, false, cache_size, stride as i64, &ret_type);
        proof {
            let c = SiteCtx { orig: orig_name@, cache: inner_cache, occ: inner_occ, size: cache_size, stride: stride as i64, ret: ret_type, compound: false, arity: 1 };
            assert(blocks_rewritten(inner.blocks@, f0.blocks@, c));
        }
        (wrapper, inner)
    }
}

impl MemoStrategy for PrimitiveMemoStrategy {
    /// The split of `PrimitiveMemoStrategy::split`.
    fn create_wrapper_and_inner(&self, func: MirFunction, cache_size: usize, registry: &RegistryService) -> (r: (MirFunction, MirFunction))
        ensures
            is_wrapper_of(r.0, func),
            ({
                let e = r.0.blocks@[0];
                let c = e.instructions@[0]->GlobalAlloc_dest;
                let o = e.instructions@[1]->GlobalAlloc_dest;
                &&& is_primitive_entry(e, func, cache_size, registry.spec_size_of(func.return_type), c, o)
                &&& is_wrapper_call_block(r.0.blocks@[1], func, c, o)
            }),
            is_inner_of(r.1, func, r.1.args@[func.args@.len() as int].ssa_var, r.1.args@[func.args@.len() as int + 1].ssa_var),
            no_target(r.1.blocks@, func.name@, 1),
            r.1.blocks@.len() == func.blocks@.len() + 7 * targets_in_blocks(func.blocks@, func.name@, 1),
            sites_rewritten(func, r.1, cache_size, registry.spec_size_of(func.return_type) as i64, false, 1),
    {
        Self::split(func, cache_size, registry)
    }
}

/// The cache memory one memoized function of several arguments may use.
pub const CACHE_MEMORY_LIMIT: usize = 1048576;

/// `b` to the power `e`.
pub open spec fn ipow(b: nat, e: nat) -> nat
    decreases e,
{
    if e == 0 { 1 } else { b * ipow(b, (e - 1) as nat) }
}

proof fn lemma_ipow_mono(a: nat, b: nat, e: nat)
    requires
        a <= b,
    ensures
        ipow(a, e) <= ipow(b, e),
    decreases e,
{
    if e > 0 {
        lemma_ipow_mono(a, b, (e - 1) as nat);
        let x = ipow(a, (e - 1) as nat);
        let y = ipow(b, (e - 1) as nat);
        assert(a * x <= b * y) by (nonlinear_arith) requires a <= b, x <= y;
    }
}

proof fn lemma_ipow_ge_base(d: nat, e: nat)
    requires
        d >= 1,
        e >= 1,
    ensures
        ipow(d, e) >= d,
    decreases e,
{
    if e > 1 {
        lemma_ipow_ge_base(d, (e - 1) as nat);
        let x = ipow(d, (e - 1) as nat);
        assert(ipow(d, e) == d * x);
        assert(d * x >= d) by (nonlinear_arith) requires x >= d, d >= 1;
    } else {
        assert(ipow(d, 0) == 1);
        assert(ipow(d, 1) == d * ipow(d, 0));
        assert(d * 1 == d);
    }
}

/// `d` is the largest per-dimension size whose `n`-th power fits in
/// `limit` entries, or 1 when not even that fits.
pub open spec fn is_dim_root(d: nat, n: nat, limit: nat) -> bool {
    &&& d >= 1
    &&& d > 1 ==> ipow(d, n) <= limit
    &&& ipow(d + 1, n) > limit
}

/// The per-dimension size that keeps `size^n * stride` within the cache
/// memory limit, at most `nominal`, and at least 1.
pub open spec fn spec_safe_dim_size(n: nat, stride: nat, nominal: nat) -> nat {
    let s = if stride == 0 { 1 } else { stride };
    let limit = CACHE_MEMORY_LIMIT as nat / s;
    let root = choose|d: nat| is_dim_root(d, n, limit);
    let m = if root < nominal { root } else { nominal };
    if m < 1 { 1 } else { m }
}

proof fn lemma_dim_root_unique(d1: nat, d2: nat, n: nat, limit: nat)
    requires
        is_dim_root(d1, n, limit),
        is_dim_root(d2, n, limit),
    ensures
        d1 == d2,
{
    if d1 < d2 {
        lemma_ipow_mono(d1 + 1, d2, n);
    } else if d2 < d1 {
        lemma_ipow_mono(d2 + 1, d1, n);
    }
}

/// `d^n`, or `cap + 1` when that is larger.
fn pow_capped(d: u64, n: usize, cap: u64) -> (r: u64)
    requires
        d >= 1,
        cap < u64::MAX,
    ensures
        r as nat == if ipow(d as nat, n as nat) > cap { cap as nat + 1 } else { ipow(d as nat, n as nat) },
{
    let mut acc: u64 = 1;
    let mut k: usize = 0;
    while k < n
        invariant
            d >= 1,
            cap < u64::MAX,
            k <= n,
            acc as nat == if ipow(d as nat, k as nat) > cap { cap as nat + 1 } else { ipow(d as nat, k as nat) },
        decreases n - k,
    {
        let ghost p = ipow(d as nat, k as nat);
        assert(ipow(d as nat, (k + 1) as nat) == d * p);
        if acc > cap {
            assert(d * p >= p) by (nonlinear_arith) requires d >= 1;
        } else {
            assert((acc as u128) * (d as u128) <= 0xffff_ffff_ffff_ffffu128 * 0xffff_ffff_ffff_ffffu128) by (nonlinear_arith)
                requires acc <= 0xffff_ffff_ffff_ffffu128, d <= 0xffff_ffff_ffff_ffffu128;
            let prod: u128 = (acc as u128) * (d as u128);
            assert(prod == d * p) by (nonlinear_arith) requires prod == (acc as u128) * (d as u128), acc == p;
            if prod > cap as u128 {
                acc = cap + 1;
            } else {
                acc = prod as u64;
            }
        }
        k = k + 1;
    }
    acc
}

/// The largest per-dimension cache size such that `size^n_dims * stride`
/// stays within `CACHE_MEMORY_LIMIT` bytes, capped at `nominal` and at least
/// 1.
pub fn safe_dim_size(n_dims: usize, stride: usize, nominal: usize) -> (r: usize)
    requires
        n_dims >= 1,
    ensures
        r as nat == spec_safe_dim_size(n_dims as nat, stride as nat, nominal as nat),
        1 <= r <= CACHE_MEMORY_LIMIT,
        ipow(r as nat, n_dims as nat) <= CACHE_MEMORY_LIMIT,
        stride <= CACHE_MEMORY_LIMIT ==> ipow(r as nat, n_dims as nat) * stride <= CACHE_MEMORY_LIMIT,
{
    let s: usize = if stride == 0 { 1 } else { stride };
    let limit: usize = CACHE_MEMORY_LIMIT / s;
    let mut d: u64 = 1;
    while pow_capped(d + 1, n_dims, limit as u64) <= limit as u64
        invariant
            n_dims >= 1,
            limit <= CACHE_MEMORY_LIMIT,
            1 <= d <= limit + 1,
            d > 1 ==> ipow(d as nat, n_dims as nat) <= limit,
        decreases limit + 1 - d,
    {
        proof { lemma_ipow_ge_base((d + 1) as nat, n_dims as nat); }
        d = d + 1;
    }
    proof {
        assert(is_dim_root(d as nat, n_dims as nat, limit as nat));
        let root = choose|x: nat| is_dim_root(x, n_dims as nat, limit as nat);
        lemma_dim_root_unique(root, d as nat, n_dims as nat, limit as nat);
    }
    let m: usize = if (d as usize) < nominal { d as usize } else { nominal };
    let r = if m < 1 { 1 } else { m };
    proof {
        if d > 1 {
            lemma_ipow_ge_base(d as nat, n_dims as nat);
            lemma_ipow_mono(r as nat, d as nat, n_dims as nat);
        } else {
            lemma_ipow_mono(r as nat, 1, n_dims as nat);
            lemma_ipow_one(n_dims as nat);
        }
        if stride <= CACHE_MEMORY_LIMIT {
            let p = ipow(r as nat, n_dims as nat);
            assert(limit >= 1) by (nonlinear_arith)
                requires
                    1 <= s <= CACHE_MEMORY_LIMIT,
                    limit == CACHE_MEMORY_LIMIT / s,
            ;
            assert(p <= limit);
            assert(p * s <= CACHE_MEMORY_LIMIT) by (nonlinear_arith)
                requires
                    p <= limit,
                    1 <= s,
                    limit == CACHE_MEMORY_LIMIT / s,
            ;
            assert(p * stride <= p * s) by (nonlinear_arith)
                requires
                    stride <= s,
            ;
        }
    }
    r
}

proof fn lemma_ipow_one(e: nat)
    ensures
        ipow(1, e) == 1,
    decreases e,
{
    if e > 0 {
        lemma_ipow_one((e - 1) as nat);
    }
}

/// `dest = lhs op rhs` of type `I64` or `Boolean`.
fn binop(dest: usize, op: MirBinOp, lhs: MirOperand, rhs: MirOperand, dest_type: OnuType) -> (r: MirInstruction)
    ensures
        r == (MirInstruction::BinaryOperation { dest, op, lhs, rhs, dest_type }),
{
    MirInstruction::BinaryOperation { dest, op, lhs, rhs, dest_type }
}

/// One call site of the several-argument strategy: the flat index of the
/// arguments (Horner's rule over the dimension size), a chain of bound checks
/// per dimension, the cache lookup, a hit, misses in and out of bounds, and
/// the store; it adds `2 * n + 5` blocks.
fn compound_site(
    fresh: &mut Fresh,
    out: &mut Vec<BasicBlock>,
    current_insts: &mut Vec<MirInstruction>,
    current_id: usize,
    dest: usize,
    args: &Vec<MirOperand>,
    return_type: &OnuType,
    arg_types: &Vec<OnuType>,
    orig: &String,
    cache: usize,
    occ: usize,
    dim_size: usize,
    stride: i64,
    ret_type: &OnuType,
) -> (cont: usize)
    requires
        args@.len() >= 1,
        dim_size <= i64::MAX,
        no_target(old(out)@, orig@, args@.len() as nat),
        forall|j: int| 0 <= j < old(current_insts)@.len() ==> !is_target(#[trigger] old(current_insts)@[j], orig@, args@.len() as nat),
    ensures
        no_target(final(out)@, orig@, args@.len() as nat),
        final(out)@.len() == old(out)@.len() + 2 * args@.len() + 5,
        final(current_insts)@.len() == 0,
        final(out)@.subrange(0, old(out)@.len() as int) == old(out)@,
        compound_site_of(final(out)@.subrange(old(out)@.len() as int, final(out)@.len() as int), old(current_insts)@, current_id,
            dest, args@, *return_type, arg_types@,
            SiteCtx { orig: orig@, cache, occ, size: dim_size, stride, ret: *ret_type, compound: true, arity: args@.len() as nat }, cont),
{
    let ghost n = args@.len() as nat;
    let ghost out0 = out@;
    let ghost pend0 = current_insts@;
    let ghost p = pend0.len() as int;
    let fetch_id = fresh.block();
    let miss_in_id = fresh.block();
    let miss_out_id = fresh.block();
    let hit_id = fresh.block();
    let store_id = fresh.block();
    let cont_id = fresh.block();
    let dim_lit = MirOperand::Constant(MirLiteral::I64(dim_size as i64));
    let ghost dim = int_const(dim_size as i64);

    // The flat index, by Horner's rule.
    let first = fresh.ssa();
    current_insts.push(MirInstruction::Assign { dest: first, src: args[0].dup() });
    let ghost mut accs: Seq<usize> = seq![first];
    let ghost mut scaleds: Seq<usize> = seq![0usize];
    let mut acc = first;
    let mut k: usize = 1;
    while k < args.len()
        invariant
            1 <= k <= args@.len(),
            forall|j: int| 0 <= j < current_insts@.len() ==> !is_target(#[trigger] current_insts@[j], orig@, n),
            n == args@.len(),
            dim_lit == dim,
            p == pend0.len(),
            accs.len() == k && scaleds.len() == k,
            acc == accs[k - 1],
            current_insts@.len() == p + 2 * k - 1,
            current_insts@.subrange(0, p) == pend0,
            current_insts@[p] == (MirInstruction::Assign { dest: accs[0], src: args@[0] }),
            forall|j: int| 1 <= j < k ==> #[trigger] current_insts@[p + 2 * j - 1] == bin(scaleds[j], MirBinOp::Mul, var(accs[j - 1]), dim, OnuType::I64)
                && current_insts@[p + 2 * j] == bin(accs[j], MirBinOp::Add, var(scaleds[j]), args@[j], OnuType::I64),
        decreases args.len() - k,
    {
        let ghost before = current_insts@;
        let scaled = fresh.ssa();
        current_insts.push(binop(scaled, MirBinOp::Mul, MirOperand::Variable(acc, false), dim_lit.dup(), OnuType::I64));
        let summed = fresh.ssa();
        current_insts.push(binop(summed, MirBinOp::Add, MirOperand::Variable(scaled, false), args[k].dup(), OnuType::I64));
        proof {
            accs = accs.push(summed);
            scaleds = scaleds.push(scaled);
            assert(current_insts@.subrange(0, p) =~= before.subrange(0, p));
            assert forall|j: int| 1 <= j < k + 1 implies #[trigger] current_insts@[p + 2 * j - 1] == bin(scaleds[j], MirBinOp::Mul, var(accs[j - 1]), dim, OnuType::I64)
                && current_insts@[p + 2 * j] == bin(accs[j], MirBinOp::Add, var(scaleds[j]), args@[j], OnuType::I64) by {
                if j < k {
                    assert(current_insts@[p + 2 * j - 1] == before[p + 2 * j - 1]);
                    assert(current_insts@[p + 2 * j] == before[p + 2 * j]);
                }
            }
        }
        acc = summed;
        k = k + 1;
    }
    let flat = acc;

    let upper_0 = fresh.block();
    let ghost mut lows: Seq<usize> = seq![0usize];
    let ghost mut ups: Seq<usize> = seq![upper_0];
    let mut extra: Vec<(usize, usize)> = Vec::new();
    let mut k: usize = 1;
    while k < args.len()
        invariant
            1 <= k <= args@.len(),
            extra@.len() == k - 1,
            lows.len() == k && ups.len() == k,
            ups[0] == upper_0,
            forall|e: int| 0 <= e < k - 1 ==> #[trigger] extra@[e] == (lows[e + 1], ups[e + 1]),
        decreases args.len() - k,
    {
        let lower = fresh.block();
        let upper = fresh.block();
        extra.push((lower, upper));
        proof {
            lows = lows.push(lower);
            ups = ups.push(upper);
        }
        k = k + 1;
    }

    let l_check_0 = fresh.ssa();
    let ghost pre_l = current_insts@;
    current_insts.push(binop(l_check_0, MirBinOp::Lt, args[0].dup(), MirOperand::Constant(MirLiteral::I64(0)), OnuType::Boolean));
    let mut taken: Vec<MirInstruction> = Vec::new();
    std::mem::swap(&mut taken, current_insts);
    let b0 = BasicBlock {
        id: current_id,
        instructions: taken,
        terminator: MirTerminator::CondBranch {
            condition: MirOperand::Variable(l_check_0, false),
            then_block: miss_out_id,
            else_block: upper_0,
        },
    };
    proof { lemma_push_clean(out@, b0, orig@, n); }
    let ghost g0 = b0;
    out.push(b0);

    let next_after_0 = if extra.len() == 0 { fetch_id } else { extra[0].0 };
    let u_check_0 = fresh.ssa();
    let b1 = BasicBlock {
        id: upper_0,
        instructions: vec![binop(u_check_0, MirBinOp::Lt, args[0].dup(), dim_lit.dup(), OnuType::Boolean)],
        terminator: MirTerminator::CondBranch {
            condition: MirOperand::Variable(u_check_0, false),
            then_block: next_after_0,
            else_block: miss_out_id,
        },
    };
    proof { lemma_push_clean(out@, b1, orig@, n); }
    let ghost g1 = b1;
    out.push(b1);

    let ghost base = out@.len() as int;
    let ghost outb = out@;
    let ghost mut l_checks: Seq<usize> = seq![l_check_0];
    let ghost mut u_checks: Seq<usize> = seq![u_check_0];
    let mut e: usize = 0;
    while e < extra.len()
        invariant
            extra@.len() == args@.len() - 1,
            e <= extra@.len(),
            n == args@.len(),
            no_target(out@, orig@, n),
            base == out0.len() + 2,
            outb == out0.push(g0).push(g1),
            out@.len() == base + 2 * e,
            out@.subrange(0, base) == outb,
            dim_lit == dim,
            lows.len() == n && ups.len() == n,
            forall|e2: int| 0 <= e2 < n - 1 ==> #[trigger] extra@[e2] == (lows[e2 + 1], ups[e2 + 1]),
            l_checks.len() == e + 1 && u_checks.len() == e + 1,
            l_checks[0] == l_check_0 && u_checks[0] == u_check_0,
            forall|j: int| 1 <= j <= e ==> {
                &&& (#[trigger] out@[base + 2 * j - 2]).id == lows[j]
                &&& out@[base + 2 * j - 2].instructions@ == seq![bin(l_checks[j], MirBinOp::Lt, args@[j], int_const(0), OnuType::Boolean)]
                &&& out@[base + 2 * j - 2].terminator == (MirTerminator::CondBranch { condition: var(l_checks[j]), then_block: miss_out_id, else_block: ups[j] })
                &&& out@[base + 2 * j - 1].id == ups[j]
                &&& out@[base + 2 * j - 1].instructions@ == seq![bin(u_checks[j], MirBinOp::Lt, args@[j], dim, OnuType::Boolean)]
                &&& out@[base + 2 * j - 1].terminator == (MirTerminator::CondBranch {
                    condition: var(u_checks[j]),
                    then_block: if j + 1 < n { lows[j + 1] } else { fetch_id },
                    else_block: miss_out_id,
                })
            },
        decreases extra.len() - e,
    {
        let ghost before = out@;
        let (lower, upper) = extra[e];
        let next_pass = if e + 1 < extra.len() { extra[e + 1].0 } else { fetch_id };
        let l_check = fresh.ssa();
        let bl = BasicBlock {
            id: lower,
            instructions: vec![binop(l_check, MirBinOp::Lt, args[e + 1].dup(), MirOperand::Constant(MirLiteral::I64(0)), OnuType::Boolean)],
            terminator: MirTerminator::CondBranch {
                condition: MirOperand::Variable(l_check, false),
                then_block: miss_out_id,
                else_block: upper,
            },
        };
        proof { lemma_push_clean(out@, bl, orig@, n); }
        let ghost gl = bl;
        out.push(bl);
        let u_check = fresh.ssa();
        let bu = BasicBlock {
            id: upper,
            instructions: vec![binop(u_check, MirBinOp::Lt, args[e + 1].dup(), dim_lit.dup(), OnuType::Boolean)],
            terminator: MirTerminator::CondBranch {
                condition: MirOperand::Variable(u_check, false),
                then_block: next_pass,
                else_block: miss_out_id,
            },
        };
        proof { lemma_push_clean(out@, bu, orig@, n); }
        let ghost gu = bu;
        out.push(bu);
        proof {
            l_checks = l_checks.push(l_check);
            u_checks = u_checks.push(u_check);
            assert(out@ =~= before.push(gl).push(gu));
            assert(out@.subrange(0, base) =~= before.subrange(0, base));
            let j1 = e as int + 1;
            assert(extra@[e as int] == (lows[j1], ups[j1]));
            if e + 1 < extra@.len() {
                assert(extra@[e as int + 1] == (lows[j1 + 1], ups[j1 + 1]));
            }
            assert(gl.instructions@ =~= seq![bin(l_checks[j1], MirBinOp::Lt, args@[j1], int_const(0), OnuType::Boolean)]);
            assert(gu.instructions@ =~= seq![bin(u_checks[j1], MirBinOp::Lt, args@[j1], dim, OnuType::Boolean)]);
            assert forall|j: int| 1 <= j <= e + 1 implies {
                &&& (#[trigger] out@[base + 2 * j - 2]).id == lows[j]
                &&& out@[base + 2 * j - 2].instructions@ == seq![bin(l_checks[j], MirBinOp::Lt, args@[j], int_const(0), OnuType::Boolean)]
                &&& out@[base + 2 * j - 2].terminator == (MirTerminator::CondBranch { condition: var(l_checks[j]), then_block: miss_out_id, else_block: ups[j] })
                &&& out@[base + 2 * j - 1].id == ups[j]
                &&& out@[base + 2 * j - 1].instructions@ == seq![bin(u_checks[j], MirBinOp::Lt, args@[j], dim, OnuType::Boolean)]
                &&& out@[base + 2 * j - 1].terminator == (MirTerminator::CondBranch {
                    condition: var(u_checks[j]),
                    then_block: if j + 1 < n { lows[j + 1] } else { fetch_id },
                    else_block: miss_out_id,
                })
            } by {
                if j <= e {
                    assert(out@[base + 2 * j - 2] == before[base + 2 * j - 2]);
                    assert(out@[base + 2 * j - 1] == before[base + 2 * j - 1]);
                }
            }
        }
        e = e + 1;
    }
    let ghost after_loop = out@;

    let occ_slot = fresh.ssa();
    let occ_flag = fresh.ssa();
    let hit_cond = fresh.ssa();
    let byte_offset = fresh.ssa();
    let ptr_ssa = fresh.ssa();
    let val_ssa = fresh.ssa();
    let bf = BasicBlock {
        id: fetch_id,
        instructions: vec![
            MirInstruction::PointerOffset { dest: occ_slot, ptr: MirOperand::Variable(occ, false), offset: MirOperand::Variable(flat, false) },
            MirInstruction::Load { dest: occ_flag, ptr: MirOperand::Variable(occ_slot, false), typ: OnuType::I8 },
            binop(hit_cond, MirBinOp::Ne, MirOperand::Variable(occ_flag, false), MirOperand::Constant(MirLiteral::I64(0)), OnuType::Boolean),
            binop(byte_offset, MirBinOp::Mul, MirOperand::Variable(flat, false), MirOperand::Constant(MirLiteral::I64(stride)), OnuType::I64),
            MirInstruction::PointerOffset { dest: ptr_ssa, ptr: MirOperand::Variable(cache, false), offset: MirOperand::Variable(byte_offset, false) },
            MirInstruction::Load { dest: val_ssa, ptr: MirOperand::Variable(ptr_ssa, false), typ: ret_type.dup() },
        ],
        terminator: MirTerminator::CondBranch {
            condition: MirOperand::Variable(hit_cond, false),
            then_block: hit_id,
            else_block: miss_in_id,
        },
    };
    proof { lemma_push_clean(out@, bf, orig@, n); }
    let ghost gf = bf;
    out.push(bf);

    let bh = BasicBlock {
        id: hit_id,
        instructions: vec![MirInstruction::Assign { dest, src: MirOperand::Variable(val_ssa, false) }],
        terminator: MirTerminator::Branch(cont_id),
    };
    proof { lemma_push_clean(out@, bh, orig@, n); }
    let ghost gh = bh;
    out.push(bh);

    let call_in = inner_call(orig, dest, args, cache, occ, return_type, arg_types);
    proof { lemma_inner_not_target(orig@, n, call_in); }
    let bmi = BasicBlock { id: miss_in_id, instructions: vec![call_in], terminator: MirTerminator::Branch(store_id) };
    proof { lemma_push_clean(out@, bmi, orig@, n); }
    let ghost gmi = bmi;
    out.push(bmi);

    let call_out = inner_call(orig, dest, args, cache, occ, return_type, arg_types);
    proof { lemma_inner_not_target(orig@, n, call_out); }
    let bmo = BasicBlock { id: miss_out_id, instructions: vec![call_out], terminator: MirTerminator::Branch(cont_id) };
    proof { lemma_push_clean(out@, bmo, orig@, n); }
    let ghost gmo = bmo;
    out.push(bmo);

    let store_offset = fresh.ssa();
    let store_ptr = fresh.ssa();
    let occ_store_ptr = fresh.ssa();
    let bs = BasicBlock {
        id: store_id,
        instructions: vec![
            binop(store_offset, MirBinOp::Mul, MirOperand::Variable(flat, false), MirOperand::Constant(MirLiteral::I64(stride)), OnuType::I64),
            MirInstruction::PointerOffset { dest: store_ptr, ptr: MirOperand::Variable(cache, false), offset: MirOperand::Variable(store_offset, false) },
            MirInstruction::TypedStore { ptr: MirOperand::Variable(store_ptr, false), value: MirOperand::Variable(dest, false), typ: ret_type.dup() },
            MirInstruction::PointerOffset { dest: occ_store_ptr, ptr: MirOperand::Variable(occ, false), offset: MirOperand::Variable(flat, false) },
            MirInstruction::TypedStore {
                ptr: MirOperand::Variable(occ_store_ptr, false),
                value: MirOperand::Constant(MirLiteral::I64(1)),
                typ: OnuType::I8,
            },
        ],
        terminator: MirTerminator::Branch(cont_id),
    };
    proof { lemma_push_clean(out@, bs, orig@, n); }
    let ghost gs = bs;
    let ghost before_last = out@;
    out.push(bs);
    proof {
        let nn = n as int;
        let c = SiteCtx { orig: orig@, cache, occ, size: dim_size, stride, ret: *ret_type, compound: true, arity: n };
        let kk = CompIds {
            accs, scaled: scaleds, l_checks, u_checks, lows, ups,
            occ_slot, occ_flag, hit_cond, byte_offset, ptr: ptr_ssa, val: val_ssa,
            store_offset, store_ptr, occ_store_ptr,
            fetch: fetch_id, hit: hit_id, miss_in: miss_in_id, miss_out: miss_out_id, store: store_id, cont: cont_id,
        };
        let o0 = out0.len() as int;
        let sb = out@.subrange(o0, out@.len() as int);
        assert(out@ =~= after_loop.push(gf).push(gh).push(gmi).push(gmo).push(gs));
        assert(forall|i: int| 0 <= i < base ==> #[trigger] out@[i] == after_loop.subrange(0, base)[i]);
        assert(forall|i: int| 0 <= i < base ==> #[trigger] out@[i] == outb[i]);
        assert(out@.subrange(0, o0) =~= out0);
        assert(sb.len() == 2 * nn + 5);
        assert(base == o0 + 2);
        assert(sb[0] == out@[o0]);
        assert(outb[o0] == g0);
        assert(sb[0] == g0);
        assert(sb[1] == out@[o0 + 1]);
        assert(outb[o0 + 1] == g1);
        assert(sb[1] == g1);
        assert(sb[2 * nn] == gf);
        assert(sb[2 * nn + 1] == gh);
        assert(sb[2 * nn + 2] == gmi);
        assert(sb[2 * nn + 3] == gmo);
        assert(sb[2 * nn + 4] == gs);
        let i0 = g0.instructions@;
        assert(i0 == pre_l.push(bin(l_check_0, MirBinOp::Lt, args@[0], int_const(0), OnuType::Boolean)));
        assert(i0.subrange(0, p) =~= pend0) by {
            assert(pre_l.subrange(0, p) == pend0);
        }
        let h = i0.subrange(p, i0.len() - 1);
        assert(horner_ok(h, args@, dim, kk)) by {
            assert(h[0] == i0[p]);
            assert forall|j: int| 1 <= j < nn implies #[trigger] h[2 * j - 1] == bin(kk.scaled[j], MirBinOp::Mul, var(kk.accs[j - 1]), dim, OnuType::I64)
                && h[2 * j] == bin(kk.accs[j], MirBinOp::Add, var(kk.scaled[j]), args@[j], OnuType::I64) by {
                assert(h[2 * j - 1] == pre_l[p + 2 * j - 1]);
                assert(h[2 * j] == pre_l[p + 2 * j]);
            }
        }
        assert(g1.instructions@ =~= seq![bin(u_checks[0], MirBinOp::Lt, args@[0], dim, OnuType::Boolean)]);
        if nn > 1 {
            assert(extra@[0] == (lows[1], ups[1]));
        }
        assert(g1.terminator == (MirTerminator::CondBranch { condition: var(u_checks[0]), then_block: next_check(kk, 0, nn), else_block: kk.miss_out }));
        assert forall|j: int| 1 <= j < nn implies {
            &&& (#[trigger] sb[2 * j]).id == kk.lows[j]
            &&& sb[2 * j].instructions@ == seq![bin(kk.l_checks[j], MirBinOp::Lt, args@[j], int_const(0), OnuType::Boolean)]
            &&& sb[2 * j].terminator == (MirTerminator::CondBranch { condition: var(kk.l_checks[j]), then_block: kk.miss_out, else_block: kk.ups[j] })
            &&& sb[2 * j + 1].id == kk.ups[j]
            &&& sb[2 * j + 1].instructions@ == seq![bin(kk.u_checks[j], MirBinOp::Lt, args@[j], dim, OnuType::Boolean)]
            &&& sb[2 * j + 1].terminator == (MirTerminator::CondBranch { condition: var(kk.u_checks[j]), then_block: next_check(kk, j, nn), else_block: kk.miss_out })
        } by {
            assert(sb[2 * j] == out@[base + 2 * j - 2]);
            assert(sb[2 * j + 1] == out@[base + 2 * j - 1]);
            assert(out@[base + 2 * j - 2] == before_last[base + 2 * j - 2]);
        }
        assert(gf.instructions@.len() == 6);
        assert(gh.instructions@ =~= seq![MirInstruction::Assign { dest, src: var(kk.val) }]);
        assert(comp_site_with(sb, pend0, current_id, dest, args@, *return_type, arg_types@, c, kk));
    }
    cont_id
}

/// The entry block of the several-argument wrapper: it allocates the value
/// array (`total_bytes`) and the occupancy flags (`entries`, zeroed).
pub open spec fn is_compound_entry(blk: BasicBlock, total_bytes: i64, entries: i64, cache: usize, occ: usize) -> bool {
    &&& blk.instructions@.len() == 5
    &&& blk.instructions@[0] matches MirInstruction::Assign { dest: cs, src: MirOperand::Constant(MirLiteral::I64(tb)) }
        && tb == total_bytes
        && blk.instructions@[1] == (MirInstruction::Alloc { dest: cache, size_bytes: MirOperand::Variable(cs, false) })
    &&& blk.instructions@[2] matches MirInstruction::Assign { dest: os, src: MirOperand::Constant(MirLiteral::I64(ob)) }
        && ob == entries
        && blk.instructions@[3] == (MirInstruction::Alloc { dest: occ, size_bytes: MirOperand::Variable(os, false) })
        && blk.instructions@[4] == (MirInstruction::MemSet {
            ptr: MirOperand::Variable(occ, false),
            value: MirOperand::Constant(MirLiteral::I64(0)),
            size: MirOperand::Variable(os, false),
        })
}

/// The size of each dimension of the several-argument cache of `f`.
pub open spec fn compound_dim(f: MirFunction, stride: usize, cache_size: usize) -> usize {
    spec_safe_dim_size(f.args@.len() as nat, stride as nat, cache_size as nat) as usize
}

/// The cache entries of the several-argument strategy: the dimension size
/// to the power of the number of arguments.
pub open spec fn spec_entries(f: MirFunction, stride: usize, cache_size: usize) -> nat {
    ipow(spec_safe_dim_size(f.args@.len() as nat, stride as nat, cache_size as nat), f.args@.len() as nat)
}

/// Their size in bytes, saturating at `i64::MAX`.
pub open spec fn spec_total_bytes(f: MirFunction, stride: usize, cache_size: usize) -> int {
    let b = spec_entries(f, stride, cache_size) * stride;
    if b > i64::MAX { i64::MAX as int } else { b as int }
}

/// The memoization strategy for functions of several arguments (or a
/// compound result): a dense cache over all argument combinations, flattened
/// by Horner's rule, with each dimension sized so the cache stays within
/// `CACHE_MEMORY_LIMIT` bytes.
pub struct CompoundMemoStrategy;

impl CompoundMemoStrategy {
    /// The wrapper allocates the value and occupancy arrays and calls the
    /// inner function with pointers to them; every recursive call of the
    /// inner function with all its arguments goes through the cache, keys
    /// outside the cache calling the inner function directly.
    pub fn split(func: MirFunction, cache_size: usize, registry: &RegistryService) -> (r: (MirFunction, MirFunction))
        requires
            registry.has_layout(func.return_type),
            registry.spec_size_of(func.return_type) <= i64::MAX,
            func.args@.len() >= 1,
        ensures
            is_wrapper_of(r.0, func),
            ({
                let e = r.0.blocks@[0];
                let c = e.instructions@[1]->Alloc_dest;
                let o = e.instructions@[3]->Alloc_dest;
                let stride = registry.spec_size_of(func.return_type);
                &&& is_compound_entry(e, spec_total_bytes(func, stride, cache_size) as i64,
                    spec_entries(func, stride, cache_size) as i64, c, o)
                &&& is_wrapper_call_block(r.0.blocks@[1], func, c, o)
            }),
            is_inner_of(r.1, func, r.1.args@[func.args@.len() as int].ssa_var, r.1.args@[func.args@.len() as int + 1].ssa_var),
            no_target(r.1.blocks@, func.name@, func.args@.len() as nat),
            r.1.blocks@.len() == func.blocks@.len()
                + site_blocks(true, func.args@.len() as nat) * targets_in_blocks(func.blocks@, func.name@, func.args@.len() as nat),
            sites_rewritten(func, r.1, compound_dim(func, registry.spec_size_of(func.return_type), cache_size),
                registry.spec_size_of(func.return_type) as i64, true, func.args@.len() as nat),
    {
        let mut fresh = Fresh::for_function(&func);
        let n_dims = func.args.len();
        let stride = registry.size_of(&func.return_type);
        let dim_size = safe_dim_size(n_dims, stride, cache_size);
        let entries = pow_capped(dim_size as u64, n_dims, CACHE_MEMORY_LIMIT as u64);
        assert((entries as u128) * (stride as u128) <= 0x10_0001u128 * 0xffff_ffff_ffff_ffffu128) by (nonlinear_arith)
            requires entries <= 0x10_0001u128, stride <= 0xffff_ffff_ffff_ffffu128;
        let wide: u128 = (entries as u128) * (stride as u128);
        let total_bytes: i64 = if wide > i64::MAX as u128 { i64::MAX } else { wide as i64 };

        let cache_ptr = fresh.ssa();
        let occ_ptr = fresh.ssa();
        let cache_size_ssa = fresh.ssa();
        let occ_size_ssa = fresh.ssa();
        let call_id = fresh.block();
        let entry = BasicBlock {
            id: 0,
            instructions: vec![
                MirInstruction::Assign { dest: cache_size_ssa, src: MirOperand::Constant(MirLiteral::I64(total_bytes)) },
                MirInstruction::Alloc { dest: cache_ptr, size_bytes: MirOperand::Variable(cache_size_ssa, false) },
                MirInstruction::Assign { dest: occ_size_ssa, src: MirOperand::Constant(MirLiteral::I64(entries as i64)) },
                MirInstruction::Alloc { dest: occ_ptr, size_bytes: MirOperand::Variable(occ_size_ssa, false) },
                MirInstruction::MemSet {
                    ptr: MirOperand::Variable(occ_ptr, false),
                    value: MirOperand::Constant(MirLiteral::I64(0)),
                    size: MirOperand::Variable(occ_size_ssa, false),
                },
            ],
            terminator: MirTerminator::Branch(call_id),
        };
        let call_block = wrapper_call_block(&func, &mut fresh, call_id, cache_ptr, occ_ptr);
        let wrapper = MirFunction {
            name: func.name.clone(),
            args: copy_args(&func.args),
            return_type: func.return_type.dup(),
            blocks: vec![entry, call_block],
            is_pure_data_leaf: false,
            diminishing: func.diminishing.clone(),
            memo_cache_size: func.memo_cache_size,
        };
        let inner_cache = fresh.ssa();
        let inner_occ = fresh.ssa();
        let ret_type = func.return_type.dup();
        let orig_name = func.name.clone();
        let ghost f0 = func;
        let mut inner = make_inner_header(func, inner_cache, inner_occ);
        let mut blocks: Vec<BasicBlock> = Vec::new();
        std::mem::swap(&mut blocks, &mut inner.blocks);
        inner.blocks = rewrite_sites(blocks, &mut fresh, inner_cache, inner_occ, &orig_name, n_dims, true, dim_size, stride as i64, &ret_type);
        proof {
            let c = SiteCtx {
                orig: orig_name@, cache: inner_cache, occ: inner_occ, size: dim_size, stride: stride as i64, ret: ret_type,
                compound: true, arity: n_dims as nat,
            };
            assert(blocks_rewritten(inner.blocks@, f0.blocks@, c));
        }
        (wrapper, inner)
    }
}

impl MemoStrategy for CompoundMemoStrategy {
    /// The split of `CompoundMemoStrategy::split`.
    fn create_wrapper_and_inner(&self, func: MirFunction, cache_size: usize, registry: &RegistryService) -> (r: (MirFunction, MirFunction))
        ensures
            is_wrapper_of(r.0, func),
            ({
                let e = r.0.blocks@[0];
                let c = e.instructions@[1]->Alloc_dest;
                let o = e.instructions@[3]->Alloc_dest;
                let stride = registry.spec_size_of(func.return_type);
                &&& is_compound_entry(e, spec_total_bytes(func, stride, cache_size) as i64,
                    spec_entries(func, stride, cache_size) as i64, c, o)
                &&& is_wrapper_call_block(r.0.blocks@[1], func, c, o)
            }),
            is_inner_of(r.1, func, r.1.args@[func.args@.len() as int].ssa_var, r.1.args@[func.args@.len() as int + 1].ssa_var),
            no_target(r.1.blocks@, func.name@, func.args@.len() as nat),
            r.1.blocks@.len() == func.blocks@.len()
                + site_blocks(true, func.args@.len() as nat) * targets_in_blocks(func.blocks@, func.name@, func.args@.len() as nat),
            sites_rewritten(func, r.1, compound_dim(func, registry.spec_size_of(func.return_type), cache_size),
                registry.spec_size_of(func.return_type) as i64, true, func.args@.len() as nat),
    {
        Self::split(func, cache_size, registry)
    }
}

/// The number of cache entries when a function names none.
pub const DEFAULT_MEMO_CACHE_SIZE: usize = 10000;

/// Whether a function can be memoized: it returns a value, is pure, and each
/// of its arguments is an `I64` that diminishes on every recursive call.
pub open spec fn spec_memoizable(f: MirFunction) -> bool {
    &&& !(f.return_type is Nothing)
    &&& f.is_pure_data_leaf
    &&& f.diminishing@.len() > 0
    &&& f.args@.len() > 0
    &&& f.args@.len() == f.diminishing@.len()
    &&& forall|i: int| 0 <= i < f.args@.len() ==> (#[trigger] f.args@[i]).typ is I64
    &&& forall|i: int| 0 <= i < f.args@.len() ==> #[trigger] arg_diminishes(f, i)
}

/// The argument at `i` is named among the diminishing arguments.
pub open spec fn arg_diminishes(f: MirFunction, i: int) -> bool {
    exists|j: int| 0 <= j < f.diminishing@.len() && f.diminishing@[j]@ == f.args@[i].name@
}

/// Where the output of the pass holds what became of function `j`.
#[verifier::opaque]
pub open spec fn placed(fs: Seq<MirFunction>, out: Seq<MirFunction>, j: int, registry: RegistryService) -> bool {
    let f = fs[j];
    let p = j + count_memoizable(fs.subrange(0, j));
    if spec_memoizable(f) {
        memo_split_ok(f, out[p], out[p + 1], registry)
    } else {
        out[p] == f
    }
}

/// Whether a memoizable function takes the several-argument strategy:
/// several diminishing arguments, or a result that is not a primitive value.
pub open spec fn uses_compound(f: MirFunction) -> bool {
    f.diminishing@.len() > 1 || !(f.return_type is I64 || f.return_type is Boolean || f.return_type is Ptr || f.return_type is WideInt)
}

/// The number of cache entries a function asks for.
pub open spec fn cache_size_of(f: MirFunction) -> usize {
    match f.memo_cache_size {
        Some(n) => n,
        None => DEFAULT_MEMO_CACHE_SIZE,
    }
}

/// What the cache of a memoizable function needs of the registry: the
/// size of its result, small enough for the cache arithmetic.
pub open spec fn memo_ready(f: MirFunction, registry: RegistryService) -> bool {
    &&& registry.has_layout(f.return_type)
    &&& registry.spec_size_of(f.return_type) <= i64::MAX
    &&& !uses_compound(f) ==> {
        &&& cache_size_of(f) <= i64::MAX
        &&& cache_size_of(f) * registry.spec_size_of(f.return_type) <= i64::MAX
        &&& cache_size_of(f) * registry.spec_size_of(f.return_type) <= usize::MAX
    }
}

/// The number of memoizable functions in a list.
pub open spec fn count_memoizable(fns: Seq<MirFunction>) -> nat
    decreases fns.len(),
{
    if fns.len() == 0 {
        0
    } else {
        count_memoizable(fns.drop_last()) + if spec_memoizable(fns.last()) { 1nat } else { 0nat }
    }
}

/// The two blocks of the wrapper of `f`: the entry block that allocates
/// the cache of the strategy `f` takes, and the call block that passes the
/// cache to the inner function.
pub open spec fn wrapper_body_ok(f: MirFunction, w: MirFunction, registry: RegistryService) -> bool {
    let e = w.blocks@[0];
    let stride = registry.spec_size_of(f.return_type);
    let cs = cache_size_of(f);
    if uses_compound(f) {
        let c = e.instructions@[1]->Alloc_dest;
        let o = e.instructions@[3]->Alloc_dest;
        &&& is_compound_entry(e, spec_total_bytes(f, stride, cs) as i64, spec_entries(f, stride, cs) as i64, c, o)
        &&& is_wrapper_call_block(w.blocks@[1], f, c, o)
    } else {
        let c = e.instructions@[0]->GlobalAlloc_dest;
        let o = e.instructions@[1]->GlobalAlloc_dest;
        &&& is_primitive_entry(e, f, cs, stride, c, o)
        &&& is_wrapper_call_block(w.blocks@[1], f, c, o)
    }
}

/// `w` and `g` are the wrapper and inner function the strategy of `f` makes.
pub open spec fn memo_split_ok(f: MirFunction, w: MirFunction, g: MirFunction, registry: RegistryService) -> bool {
    &&& is_wrapper_of(w, f)
    &&& wrapper_body_ok(f, w, registry)
    &&& if uses_compound(f) {
        sites_rewritten(f, g, compound_dim(f, registry.spec_size_of(f.return_type), cache_size_of(f)),
            registry.spec_size_of(f.return_type) as i64, true, f.args@.len() as nat)
    } else {
        sites_rewritten(f, g, cache_size_of(f), registry.spec_size_of(f.return_type) as i64, false, 1)
    }
    &&& is_inner_of(g, f, g.args@[f.args@.len() as int].ssa_var, g.args@[f.args@.len() as int + 1].ssa_var)
    &&& no_target(g.blocks@, f.name@, f.args@.len() as nat)
    &&& g.blocks@.len() == f.blocks@.len()
        + site_blocks(uses_compound(f), f.args@.len() as nat) * targets_in_blocks(f.blocks@, f.name@, f.args@.len() as nat)
}

fn is_memoizable(func: &MirFunction) -> (r: bool)
    ensures
        r == spec_memoizable(*func),
{
    if func.return_type.is_nothing() || !func.is_pure_data_leaf || func.diminishing.len() == 0 || func.args.len() == 0
        || func.args.len() != func.diminishing.len() {
        return false;
    }
    let mut i: usize = 0;
    while i < func.args.len()
        invariant
            i <= func.args@.len(),
            func.args@.len() == func.diminishing@.len(),
            forall|k: int| 0 <= k < i ==> (#[trigger] func.args@[k]).typ is I64,
            forall|k: int| 0 <= k < i ==> #[trigger] arg_diminishes(*func, k),
        decreases func.args.len() - i,
    {
        if !func.args[i].typ.is_i64() {
            assert(!(func.args@[i as int].typ is I64));
            return false;
        }
        match find_name(&func.diminishing, func.args[i].name.as_str()) {
            Some(j) => {
                assert(func.diminishing@[j as int]@ == func.args@[i as int].name@);
                assert(arg_diminishes(*func, i as int));
            }
            None => {
                assert(!arg_diminishes(*func, i as int));
                return false;
            }
        }
        i = i + 1;
    }
    true
}

/// Whether the cache of a memoizable function can be laid out
/// (see `memo_ready`).
pub fn is_memo_ready(f: &MirFunction, registry: &RegistryService) -> (r: bool)
    ensures
        r == memo_ready(*f, *registry),
{
    if !registry.layout_known(&f.return_type) {
        return false;
    }
    let size = registry.size_of(&f.return_type);
    if size as u128 > i64::MAX as u128 {
        return false;
    }
    let compound = if f.diminishing.len() > 1 {
        true
    } else {
        match f.return_type {
            OnuType::I64 | OnuType::Boolean | OnuType::Ptr | OnuType::WideInt(_) => false,
            _ => true,
        }
    };
    if compound {
        return true;
    }
    let cs = match f.memo_cache_size {
        Some(n) => n,
        None => DEFAULT_MEMO_CACHE_SIZE,
    };
    let wide_cs = cs as u128;
    let wide_size = size as u128;
    assert(wide_cs * wide_size <= u128::MAX) by (nonlinear_arith)
        requires
            wide_cs <= usize::MAX,
            wide_size <= usize::MAX,
            usize::MAX < 0x1_0000_0000_0000_0000,
    ;
    let bytes = wide_cs * wide_size;
    wide_cs <= i64::MAX as u128 && bytes <= i64::MAX as u128 && bytes <= usize::MAX as u128
}

/// Whether every memoizable function of a program meets `memo_ready`, so
/// that `MemoPass::run` may be called on it.
pub fn program_memo_ready(program: &MirProgram, registry: &RegistryService) -> (r: bool)
    ensures
        r == forall|k: int| 0 <= k < program.functions@.len() && spec_memoizable(#[trigger] program.functions@[k])
            ==> memo_ready(program.functions@[k], *registry),
{
    let mut k: usize = 0;
    while k < program.functions.len()
        invariant
            k <= program.functions@.len(),
            forall|j: int| 0 <= j < k && spec_memoizable(#[trigger] program.functions@[j])
                ==> memo_ready(program.functions@[j], *registry),
        decreases program.functions.len() - k,
    {
        if is_memoizable(&program.functions[k]) && !is_memo_ready(&program.functions[k], registry) {
            return false;
        }
        k = k + 1;
    }
    true
}

/// The memoization pass.
pub struct MemoPass;

impl MemoPass {
    /// Replaces every memoizable function by its wrapper (under the
    /// function's name) followed by its inner function (`name.inner`), in
    /// place; other functions are kept as they are.
    pub fn run(program: MirProgram, registry: &RegistryService) -> (r: MirProgram)
        requires
            forall|k: int| 0 <= k < program.functions@.len() && spec_memoizable(#[trigger] program.functions@[k])
                ==> memo_ready(program.functions@[k], *registry),
        ensures
            r.functions@.len() == program.functions@.len() + count_memoizable(program.functions@),
            forall|k: int| 0 <= k < program.functions@.len() ==> {
                let f = #[trigger] program.functions@[k];
                let p = k + count_memoizable(program.functions@.subrange(0, k));
                if spec_memoizable(f) {
                    memo_split_ok(f, r.functions@[p], r.functions@[p + 1], *registry)
                } else {
                    r.functions@[p] == f
                }
            },
            memo_pass_result(program.functions@, r.functions@, *registry),
    {
        let ghost fs = program.functions@;
        let MirProgram { functions } = program;
        let mut functions = functions;
        let mut out: Vec<MirFunction> = Vec::new();
        let mut k: usize = 0;
        while k < functions.len()
            invariant
                functions@.len() == fs.len(),
                k <= fs.len(),
                forall|j: int| k <= j < fs.len() ==> functions@[j] == fs[j],
                forall|j: int| 0 <= j < fs.len() && spec_memoizable(#[trigger] fs[j]) ==> memo_ready(fs[j], *registry),
                out@.len() == k + count_memoizable(fs.subrange(0, k as int)),
                forall|j: int| 0 <= j < k ==> #[trigger] placed(fs, out@, j, *registry),
            decreases fs.len() - k,
        {
            let mut func = MirFunction {
                name: String::new(),
                args: Vec::new(),
                return_type: OnuType::Nothing,
                blocks: Vec::new(),
                is_pure_data_leaf: false,
                diminishing: Vec::new(),
                memo_cache_size: None,
            };
            std::mem::swap(&mut func, &mut functions[k]);
            let ghost o0 = out@;
            proof {
                assert(fs.subrange(0, k as int + 1).drop_last() =~= fs.subrange(0, k as int));
            }
            if is_memoizable(&func) {
                assert(func == fs[k as int]);
                assert(memo_ready(fs[k as int], *registry));
                let cache_size = match func.memo_cache_size {
                    Some(n) => n,
                    None => DEFAULT_MEMO_CACHE_SIZE,
                };
                let compound = if func.diminishing.len() > 1 {
                    true
                } else {
                    match func.return_type {
                        OnuType::I64 | OnuType::Boolean | OnuType::Ptr | OnuType::WideInt(_) => false,
                        _ => true,
                    }
                };
                let (w, g) = if compound {
                    CompoundMemoStrategy::split(func, cache_size, registry)
                } else {
                    PrimitiveMemoStrategy::split(func, cache_size, registry)
                };
                out.push(w);
                out.push(g);
            } else {
                out.push(func);
            }
            proof {
                assert forall|j: int| 0 <= j < k + 1 implies #[trigger] placed(fs, out@, j, *registry) by {
                    reveal(placed);
                    if j < k {
                        assert(placed(fs, o0, j, *registry));
                        lemma_count_memoizable_prefix(fs, j, k as int);
                        let p = j + count_memoizable(fs.subrange(0, j));
                        assert(out@[p] == o0[p]);
                        if spec_memoizable(fs[j]) {
                            assert(out@[p + 1] == o0[p + 1]);
                        }
                    }
                }
            }
            k = k + 1;
        }
        assert(fs.subrange(0, k as int) =~= fs);
        proof {
            assert forall|j: int| 0 <= j < fs.len() implies {
                let f = #[trigger] fs[j];
                let p = j + count_memoizable(fs.subrange(0, j));
                if spec_memoizable(f) {
                    memo_split_ok(f, out@[p], out@[p + 1], *registry)
                } else {
                    out@[p] == f
                }
            } by {
                assert(placed(fs, out@, j, *registry));
                reveal(placed);
            }
        }
        let r = MirProgram { functions: out };
        assert(memo_pass_result(fs, r.functions@, *registry));
        r
    }
}

/// The memoizable functions before `j` are no more than those before `k`,
/// by at least one when the function at `j` is memoizable.
proof fn lemma_count_memoizable_prefix(fs: Seq<MirFunction>, j: int, k: int)
    requires
        0 <= j < k <= fs.len(),
    ensures
        j + count_memoizable(fs.subrange(0, j)) + (if spec_memoizable(fs[j]) { 2int } else { 1int })
            <= k + count_memoizable(fs.subrange(0, k)),
    decreases k - j,
{
    assert(fs.subrange(0, k).drop_last() =~= fs.subrange(0, k - 1));
    if j < k - 1 {
        lemma_count_memoizable_prefix(fs, j, k - 1);
    } else {
        assert(fs.subrange(0, k).last() == fs[j]);
    }
}

/// What the memoisation pass gives for the functions `fs`: each memoizable
/// function replaced in place by its wrapper and inner function, every
/// other function kept as it is.
pub open spec fn memo_pass_result(fs: Seq<MirFunction>, out: Seq<MirFunction>, registry: RegistryService) -> bool {
    &&& out.len() == fs.len() + count_memoizable(fs)
    &&& forall|k: int| 0 <= k < fs.len() ==> {
        let f = #[trigger] fs[k];
        let p = k + count_memoizable(fs.subrange(0, k));
        if spec_memoizable(f) {
            memo_split_ok(f, out[p], out[p + 1], registry)
        } else {
            out[p] == f
        }
    }
}

proof fn lemma_count_impure(fs: Seq<MirFunction>)
    requires
        forall|k: int| 0 <= k < fs.len() ==> !(#[trigger] fs[k]).is_pure_data_leaf,
    ensures
        count_memoizable(fs) == 0,
    decreases fs.len(),
{
    if fs.len() > 0 {
        assert forall|k: int| 0 <= k < fs.drop_last().len() implies !(#[trigger] fs.drop_last()[k]).is_pure_data_leaf by {
            assert(fs.drop_last()[k] == fs[k]);
        }
        lemma_count_impure(fs.drop_last());
        assert(!fs[fs.len() - 1].is_pure_data_leaf);
    }
}

/// Only pure functions are memoized: a function not marked as a pure data
/// leaf comes out of the pass unchanged (a cache would skip its effects),
/// and a program without pure functions comes out as it went in.
pub proof fn law_impure_functions_are_kept(fs: Seq<MirFunction>, out: Seq<MirFunction>, registry: RegistryService)
    requires
        memo_pass_result(fs, out, registry),
    ensures
        forall|k: int| 0 <= k < fs.len() && !(#[trigger] fs[k]).is_pure_data_leaf
            ==> out[k + count_memoizable(fs.subrange(0, k))] == fs[k],
        (forall|k: int| 0 <= k < fs.len() ==> !(#[trigger] fs[k]).is_pure_data_leaf) ==> out == fs,
{
    if forall|k: int| 0 <= k < fs.len() ==> !(#[trigger] fs[k]).is_pure_data_leaf {
        lemma_count_impure(fs);
        assert forall|k: int| 0 <= k < fs.len() implies out[k] == fs[k] by {
            assert forall|j: int| 0 <= j < fs.subrange(0, k).len() implies !(#[trigger] fs.subrange(0, k)[j]).is_pure_data_leaf by {
                assert(fs.subrange(0, k)[j] == fs[j]);
            }
            lemma_count_impure(fs.subrange(0, k));
            assert(!spec_memoizable(fs[k]));
        }
        assert(out =~= fs);
    }
}

} // verus!
