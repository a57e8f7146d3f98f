//! WebAssembly code generation: MIR functions become WebAssembly function
//! bodies that run their blocks through a dispatch loop (a `br_table` keyed
//! on a program-counter local), over an arena in linear memory. The result
//! is a description of the module, instruction by instruction; its binary
//! encoding is a direct transcription.

use vstd::prelude::*;
use crate::error::OnuError;
use crate::mir::{BasicBlock, MirArgument, MirBinOp, MirFunction, MirInstruction, MirLiteral, MirOperand, MirProgram, MirTerminator};
use crate::registry::{entry_names, find_entry, first_index_of};
use crate::ssa_set::SsaMap;
use crate::types::OnuType;

verus! {

/// The value types of WebAssembly that the generated code uses.
#[derive(Debug, Clone, Copy, PartialEq, Eq, Hash, Structural)]
pub enum ValTy {
    I32,
    I64,
    F64,
}

/// What the code generator needs to know of a type: strings (pointers to a
/// string record), other 32-bit words (booleans, pointers, nothing),
/// integers (64-bit), and floating-point numbers.
#[derive(Debug, Clone, Copy, PartialEq, Eq, Hash, Structural)]
pub enum TyKind {
    Strings,
    Word,
    Int,
    Float,
}

/// One WebAssembly instruction. Binary operations name the MIR operator
/// they implement (`Shr` is the unsigned shift); a `br_table` jumps to the
/// `n`-th enclosing block for index `n` below its count, and to `default`
/// otherwise; memory accesses name their static offset and alignment
/// exponent in memory 0.
#[derive(Debug, Clone, Copy, PartialEq, Eq, Hash, Structural)]
pub enum WasmOp {
    I32Const(i32),
    I64Const(i64),
    /// A double-precision constant, by its bits.
    F64Const(u64),
    LocalGet(u32),
    LocalSet(u32),
    GlobalGet(u32),
    GlobalSet(u32),
    Call(u32),
    Br(u32),
    BrTable { count: u32, default: u32 },
    Block,
    Loop,
    If,
    Else,
    End,
    Return,
    Unreachable,
    I32Bin(MirBinOp),
    I64Bin(MirBinOp),
    I32Rotr,
    I64Rotr,
    I32WrapI64,
    I64ExtendI32S,
    I64ExtendI32U,
    I32Load { offset: u64, align: u32 },
    I64Load { offset: u64, align: u32 },
    I32Store { offset: u64, align: u32 },
    I64Store { offset: u64, align: u32 },
    MemoryCopy,
    MemoryFill,
}

/// The imported function that writes bytes: `onu_write(ptr, len)`.
pub const IMPORT_ONU_WRITE: u32 = 0;
/// The imported function that prints an integer: `onu_print_i64(value)`.
pub const IMPORT_ONU_PRINT_I64: u32 = 1;
/// The number of imported functions, which come before the program's own.
pub const NUM_IMPORTS: u32 = 2;
/// The global holding the arena's bump pointer.
pub const GLOBAL_ARENA_PTR: u32 = 0;
/// The size of a string record: length (i64) at 0, pointer (i32) at 8, and
/// the dynamic flag (i32) at 12.
pub const TUPLE_SIZE: u32 = 16;

/// The kind of a MIR type.
pub open spec fn kind_of(t: OnuType) -> TyKind {
    match t {
        OnuType::Strings => TyKind::Strings,
        OnuType::Boolean | OnuType::Ptr | OnuType::Nothing | OnuType::Matrix => TyKind::Word,
        OnuType::F64 | OnuType::F32 => TyKind::Float,
        _ => TyKind::Int,
    }
}

/// The WebAssembly value type of a kind.
pub open spec fn val_of(k: TyKind) -> ValTy {
    match k {
        TyKind::Strings | TyKind::Word => ValTy::I32,
        TyKind::Int => ValTy::I64,
        TyKind::Float => ValTy::F64,
    }
}

/// The WebAssembly value type of a MIR type.
pub open spec fn wasm_type(t: OnuType) -> ValTy {
    val_of(kind_of(t))
}

pub fn type_kind(t: &OnuType) -> (r: TyKind)
    ensures
        r == kind_of(*t),
{
    match t {
        OnuType::Strings => TyKind::Strings,
        OnuType::Boolean | OnuType::Ptr | OnuType::Nothing | OnuType::Matrix => TyKind::Word,
        OnuType::F64 | OnuType::F32 => TyKind::Float,
        _ => TyKind::Int,
    }
}

pub fn kind_val(k: TyKind) -> (r: ValTy)
    ensures
        r == val_of(k),
{
    match k {
        TyKind::Strings | TyKind::Word => ValTy::I32,
        TyKind::Int => ValTy::I64,
        TyKind::Float => ValTy::F64,
    }
}

/// The WebAssembly value type of a MIR type: 32-bit words for booleans,
/// pointers, strings, nothing and matrices, doubles for floating-point
/// types, and 64-bit integers for the rest.
pub fn mir_to_wasm_type(t: &OnuType) -> (r: ValTy)
    ensures
        r == wasm_type(*t),
{
    kind_val(type_kind(t))
}

/// The kind of a literal's value.
pub open spec fn lit_kind(l: MirLiteral) -> TyKind {
    match l {
        MirLiteral::I64(_) | MirLiteral::WideInt(_, _) => TyKind::Int,
        MirLiteral::F64(_) => TyKind::Float,
        MirLiteral::Boolean(_) | MirLiteral::Nothing => TyKind::Word,
        MirLiteral::Text(_) => TyKind::Strings,
    }
}

fn literal_kind(l: &MirLiteral) -> (r: TyKind)
    ensures
        r == lit_kind(*l),
{
    match l {
        MirLiteral::I64(_) | MirLiteral::WideInt(_, _) => TyKind::Int,
        MirLiteral::F64(_) => TyKind::Float,
        MirLiteral::Boolean(_) | MirLiteral::Nothing => TyKind::Word,
        MirLiteral::Text(_) => TyKind::Strings,
    }
}

/// The kinds of the variables after one instruction: the instruction's
/// destination gets the kind of the value it defines (a copy takes its
/// source's kind, 64-bit integer for an unknown variable).
pub open spec fn infer_step(m: Map<usize, TyKind>, inst: MirInstruction) -> Map<usize, TyKind> {
    match inst {
        MirInstruction::BinaryOperation { dest, dest_type, .. } => m.insert(dest, kind_of(dest_type)),
        MirInstruction::Call { dest, return_type, .. } => m.insert(dest, kind_of(return_type)),
        MirInstruction::Assign { dest, src } => m.insert(dest, match src {
            MirOperand::Variable(x, _) => if m.contains_key(x) { m[x] } else { TyKind::Int },
            MirOperand::Constant(l) => lit_kind(l),
        }),
        MirInstruction::Alloc { dest, .. } | MirInstruction::StackAlloc { dest, .. }
        | MirInstruction::GlobalAlloc { dest, .. } | MirInstruction::SaveArena { dest }
        | MirInstruction::PointerOffset { dest, .. } => m.insert(dest, TyKind::Word),
        MirInstruction::Load { dest, typ, .. } => m.insert(dest, kind_of(typ)),
        MirInstruction::Promote { dest, to_type, .. } | MirInstruction::BitCast { dest, to_type, .. } =>
            m.insert(dest, kind_of(to_type)),
        MirInstruction::FunnelShiftRight { dest, .. } => m.insert(dest, TyKind::Int),
        MirInstruction::ConstantTableLoad { dest, .. } => m.insert(dest, TyKind::Int),
        MirInstruction::Tuple { dest, .. } => m.insert(dest, TyKind::Strings),
        MirInstruction::Index { dest, index, .. } => m.insert(dest, if index == 0 { TyKind::Int } else { TyKind::Word }),
        _ => m,
    }
}

pub open spec fn infer_insts(m: Map<usize, TyKind>, insts: Seq<MirInstruction>) -> Map<usize, TyKind>
    decreases insts.len(),
{
    if insts.len() == 0 { m } else { infer_step(infer_insts(m, insts.drop_last()), insts.last()) }
}

pub open spec fn infer_blocks(m: Map<usize, TyKind>, blocks: Seq<BasicBlock>) -> Map<usize, TyKind>
    decreases blocks.len(),
{
    if blocks.len() == 0 { m } else { infer_insts(infer_blocks(m, blocks.drop_last()), blocks.last().instructions@) }
}

pub open spec fn arg_kinds(args: Seq<MirArgument>) -> Map<usize, TyKind>
    decreases args.len(),
{
    if args.len() == 0 {
        Map::empty()
    } else {
        arg_kinds(args.drop_last()).insert(args.last().ssa_var, kind_of(args.last().typ))
    }
}

/// The kinds of the variables of a function: its arguments' declared types,
/// then what each instruction defines, in order, later definitions winning.
pub open spec fn ssa_kinds(f: MirFunction) -> Map<usize, TyKind> {
    infer_blocks(arg_kinds(f.args@), f.blocks@)
}

fn infer_into(m: &mut SsaMap<TyKind>, inst: &MirInstruction)
    requires
        old(m).wf(),
    ensures
        final(m).wf(),
        final(m).view() == infer_step(old(m).view(), *inst),
{
    match inst {
        MirInstruction::BinaryOperation { dest, dest_type, .. } => m.insert(*dest, type_kind(dest_type)),
        MirInstruction::Call { dest, return_type, .. } => m.insert(*dest, type_kind(return_type)),
        MirInstruction::Assign { dest, src } => {
            let k = match src {
                MirOperand::Variable(x, _) => match m.get(*x) {
                    Some(k) => *k,
                    None => TyKind::Int,
                },
                MirOperand::Constant(l) => literal_kind(l),
            };
            m.insert(*dest, k);
        },
        MirInstruction::Alloc { dest, .. } | MirInstruction::StackAlloc { dest, .. }
        | MirInstruction::GlobalAlloc { dest, .. } | MirInstruction::SaveArena { dest }
        | MirInstruction::PointerOffset { dest, .. } => m.insert(*dest, TyKind::Word),
        MirInstruction::Load { dest, typ, .. } => m.insert(*dest, type_kind(typ)),
        MirInstruction::Promote { dest, to_type, .. } | MirInstruction::BitCast { dest, to_type, .. } =>
            m.insert(*dest, type_kind(to_type)),
        MirInstruction::FunnelShiftRight { dest, .. } => m.insert(*dest, TyKind::Int),
        MirInstruction::ConstantTableLoad { dest, .. } => m.insert(*dest, TyKind::Int),
        MirInstruction::Tuple { dest, .. } => m.insert(*dest, TyKind::Strings),
        MirInstruction::Index { dest, index, .. } => m.insert(*dest, if *index == 0 { TyKind::Int } else { TyKind::Word }),
        _ => {},
    }
}

/// The kinds of the variables of a function.
pub fn collect_ssa_kinds(func: &MirFunction) -> (m: SsaMap<TyKind>)
    ensures
        m.wf(),
        m.view() == ssa_kinds(*func),
{
    let mut m: SsaMap<TyKind> = SsaMap::new();
    let mut a: usize = 0;
    while a < func.args.len()
        invariant
            a <= func.args@.len(),
            m.wf(),
            m.view() == arg_kinds(func.args@.subrange(0, a as int)),
        decreases func.args.len() - a,
    {
        assert(func.args@.subrange(0, a + 1).drop_last() =~= func.args@.subrange(0, a as int));
        m.insert(func.args[a].ssa_var, type_kind(&func.args[a].typ));
        a = a + 1;
    }
    assert(func.args@.subrange(0, func.args@.len() as int) =~= func.args@);
    let ghost base = m.view();
    let mut b: usize = 0;
    while b < func.blocks.len()
        invariant
            b <= func.blocks@.len(),
            m.wf(),
            m.view() == infer_blocks(base, func.blocks@.subrange(0, b as int)),
        decreases func.blocks.len() - b,
    {
        let insts = &func.blocks[b].instructions;
        let ghost start = m.view();
        let mut i: usize = 0;
        while i < insts.len()
            invariant
                i <= insts@.len(),
                m.wf(),
                m.view() == infer_insts(start, insts@.subrange(0, i as int)),
            decreases insts.len() - i,
        {
            assert(insts@.subrange(0, i + 1).drop_last() =~= insts@.subrange(0, i as int));
            infer_into(&mut m, &insts[i]);
            i = i + 1;
        }
        assert(insts@.subrange(0, insts@.len() as int) =~= insts@);
        assert(func.blocks@.subrange(0, b + 1).drop_last() =~= func.blocks@.subrange(0, b as int));
        b = b + 1;
    }
    assert(func.blocks@.subrange(0, func.blocks@.len() as int) =~= func.blocks@);
    m
}

/// The locals of the parameters: parameter `i` is local `i`, a variable
/// bound twice keeping its last position.
pub open spec fn arg_locals(args: Seq<MirArgument>) -> Map<usize, u32>
    decreases args.len(),
{
    if args.len() == 0 {
        Map::empty()
    } else {
        arg_locals(args.drop_last()).insert(args.last().ssa_var, (args.len() - 1) as u32)
    }
}

/// The variables of a function that are not parameters.
pub open spec fn body_vars(f: MirFunction) -> Set<usize> {
    ssa_kinds(f).dom().difference(arg_locals(f.args@).dom())
}

/// How many body variables of `f` are smaller than `x`.
pub open spec fn var_rank(f: MirFunction, x: usize) -> nat {
    body_vars(f).filter(|k: usize| k < x).len()
}

/// The local of a variable: its parameter position, or, after the
/// parameters and the program-counter local, its place among the body
/// variables in increasing order; 0 for a variable the function never
/// defines.
pub open spec fn local_of(f: MirFunction, x: usize) -> u32 {
    if arg_locals(f.args@).contains_key(x) {
        arg_locals(f.args@)[x]
    } else if body_vars(f).contains(x) {
        (f.args@.len() + 1 + var_rank(f, x)) as u32
    } else {
        0
    }
}

/// The number of elements of `s` smaller than `x`.
pub open spec fn count_less(s: Seq<usize>, x: usize) -> nat
    decreases s.len(),
{
    if s.len() == 0 { 0 } else { count_less(s.drop_last(), x) + if s.last() < x { 1nat } else { 0nat } }
}

proof fn lemma_count_less_set(s: Seq<usize>, x: usize)
    requires
        s.no_duplicates(),
    ensures
        count_less(s, x) == s.to_set().filter(|k: usize| k < x).len(),
        s.to_set().finite(),
    decreases s.len(),
{
    if s.len() == 0 {
        assert(s.to_set().filter(|k: usize| k < x) =~= Set::empty());
    } else {
        let init = s.drop_last();
        assert(init.no_duplicates()) by {
            assert forall|i: int, j: int| 0 <= i < init.len() && 0 <= j < init.len() && i != j implies init[i] != init[j] by {
                assert(s[i] != s[j]);
            }
        }
        lemma_count_less_set(init, x);
        let l = s.last();
        assert(!init.contains(l)) by {
            if init.contains(l) {
                let j = choose|j: int| 0 <= j < init.len() && init[j] == l;
                assert(s[j] == s[s.len() - 1]);
            }
        }
        assert(s.to_set() =~= init.to_set().insert(l)) by {
            assert forall|k: usize| s.to_set().contains(k) <==> init.to_set().insert(l).contains(k) by {
                if s.contains(k) {
                    let j = choose|j: int| 0 <= j < s.len() && s[j] == k;
                    if j < s.len() - 1 {
                        assert(init[j] == k);
                    }
                }
                if init.contains(k) {
                    let j = choose|j: int| 0 <= j < init.len() && init[j] == k;
                    assert(s[j] == k);
                }
                if k == l {
                    assert(s[s.len() - 1] == k);
                }
            }
        }
        init.lemma_cardinality_of_set();
        let fi = init.to_set().filter(|k: usize| k < x);
        if l < x {
            assert(s.to_set().filter(|k: usize| k < x) =~= fi.insert(l));
            assert(!fi.contains(l));
        } else {
            assert(s.to_set().filter(|k: usize| k < x) =~= fi);
        }
    }
}

proof fn lemma_count_less_bounds(s: Seq<usize>, x: usize, y: usize)
    requires
        s.contains(x),
    ensures
        count_less(s, x) < s.len(),
        x < y ==> count_less(s, x) < count_less(s, y),
    decreases s.len(),
{
    let init = s.drop_last();
    lemma_count_less_le(init, x);
    if s.last() == x {
        if x < y {
            lemma_count_less_mono(init, x, y);
        }
    } else {
        let j = choose|j: int| 0 <= j < s.len() && s[j] == x;
        assert(j != s.len() - 1);
        assert(init[j] == x);
        lemma_count_less_bounds(init, x, y);
    }
}

proof fn lemma_count_less_le(s: Seq<usize>, x: usize)
    ensures
        count_less(s, x) <= s.len(),
    decreases s.len(),
{
    if s.len() > 0 {
        lemma_count_less_le(s.drop_last(), x);
    }
}

proof fn lemma_count_less_mono(s: Seq<usize>, x: usize, y: usize)
    requires
        x <= y,
    ensures
        count_less(s, x) <= count_less(s, y),
    decreases s.len(),
{
    if s.len() > 0 {
        lemma_count_less_mono(s.drop_last(), x, y);
    }
}

/// How many elements of `v` are smaller than `x`.
fn count_smaller(v: &Vec<usize>, x: usize) -> (r: usize)
    ensures
        r == count_less(v@, x),
{
    let mut rank: usize = 0;
    let mut j: usize = 0;
    while j < v.len()
        invariant
            j <= v@.len(),
            rank == count_less(v@.subrange(0, j as int), x),
            rank <= j,
        decreases v.len() - j,
    {
        assert(v@.subrange(0, j + 1).drop_last() =~= v@.subrange(0, j as int));
        if v[j] < x {
            rank = rank + 1;
        }
        j = j + 1;
    }
    assert(v@.subrange(0, v@.len() as int) =~= v@);
    rank
}

/// Where each variable of a function lives among its locals.
pub struct LocalMap {
    pub locals: SsaMap<u32>,
    /// The local holding the dispatch program counter.
    pub pc_local: u32,
    /// The types of the locals after the parameters, the program counter first.
    pub extra_types: Vec<ValTy>,
}

impl LocalMap {
    pub closed spec fn spec_locals(&self) -> Map<usize, u32> {
        self.locals.view()
    }

    pub closed spec fn wf(&self) -> bool {
        self.locals.wf()
    }

    /// The local of a variable, 0 for one the map does not hold.
    pub open spec fn spec_local_idx(&self, x: usize) -> u32 {
        if self.spec_locals().contains_key(x) { self.spec_locals()[x] } else { 0 }
    }

    /// `self` is the local map of `f`: parameters first, then the program
    /// counter, then the body variables in increasing order, each with the
    /// value type of its kind.
    pub open spec fn describes(&self, f: MirFunction) -> bool {
        &&& self.wf()
        &&& forall|x: usize| #[trigger] self.spec_local_idx(x) == local_of(f, x)
        &&& self.pc_local == f.args@.len() as u32
        &&& self.extra_types@.len() == 1 + body_vars(f).len()
        &&& self.extra_types@[0] == ValTy::I32
        &&& forall|x: usize| body_vars(f).contains(x)
            ==> #[trigger] self.extra_types@[1 + var_rank(f, x) as int] == val_of(ssa_kinds(f)[x])
    }

    /// The local map of a function whose variables have the kinds `kinds`.
    pub fn new(func: &MirFunction, kinds: &SsaMap<TyKind>) -> (r: LocalMap)
        requires
            kinds.wf(),
            kinds.view() == ssa_kinds(*func),
            func.args@.len() + 1 + kinds.view().dom().len() <= u32::MAX,
        ensures
            r.describes(*func),
    {
        let mut locals: SsaMap<u32> = SsaMap::new();
        let mut a: usize = 0;
        while a < func.args.len()
            invariant
                a <= func.args@.len(),
                locals.wf(),
                locals.view() == arg_locals(func.args@.subrange(0, a as int)),
                func.args@.len() <= u32::MAX,
            decreases func.args.len() - a,
        {
            assert(func.args@.subrange(0, a + 1).drop_last() =~= func.args@.subrange(0, a as int));
            locals.insert(func.args[a].ssa_var, a as u32);
            a = a + 1;
        }
        assert(func.args@.subrange(0, func.args@.len() as int) =~= func.args@);
        let ghost am = arg_locals(func.args@);
        let pc_local = func.args.len() as u32;
        let keys = kinds.key_list();
        let mut body: Vec<usize> = Vec::new();
        let mut i: usize = 0;
        while i < keys.len()
            invariant
                i <= keys@.len(),
                keys@.no_duplicates(),
                locals.wf(),
                locals.view() == am,
                body@.no_duplicates(),
                forall|k: usize| body@.contains(k) <==> (exists|j: int| 0 <= j < i && keys@[j] == k && !am.contains_key(k)),
            decreases keys.len() - i,
        {
            let k = keys[i];
            let ghost b_old = body@;
            if locals.get(k).is_none() {
                proof {
                    assert(!body@.contains(k)) by {
                        if body@.contains(k) {
                            let j = choose|j: int| 0 <= j < i && keys@[j] == k && !am.contains_key(k);
                            assert(keys@[j] == keys@[i as int]);
                        }
                    }
                }
                let ghost b0 = body@;
                body.push(k);
                proof {
                    assert forall|a: int, b: int| 0 <= a < body@.len() && 0 <= b < body@.len() && a != b implies body@[a] != body@[b] by {
                        if a < b0.len() && b < b0.len() {
                            assert(body@[a] == b0[a] && body@[b] == b0[b]);
                        } else if a == b0.len() {
                            assert(body@[b] == b0[b]);
                            assert(b0.contains(body@[b]));
                        } else {
                            assert(body@[a] == b0[a]);
                            assert(b0.contains(body@[a]));
                        }
                    }
                }
            }
            proof {
                assert forall|kk: usize| body@.contains(kk) <==> (exists|j: int| 0 <= j < i + 1 && keys@[j] == kk && !am.contains_key(kk)) by {
                    if body@.contains(kk) {
                        let jb = choose|jb: int| 0 <= jb < body@.len() && body@[jb] == kk;
                        if jb < b_old.len() {
                            assert(b_old[jb] == kk);
                            assert(b_old.contains(kk));
                            let j = choose|j: int| 0 <= j < i && keys@[j] == kk && !am.contains_key(kk);
                            assert(0 <= j < i + 1 && keys@[j] == kk && !am.contains_key(kk));
                        } else {
                            assert(kk == k && !am.contains_key(k));
                            assert(keys@[i as int] == kk);
                        }
                    }
                    if exists|j: int| 0 <= j < i + 1 && keys@[j] == kk && !am.contains_key(kk) {
                        let j = choose|j: int| 0 <= j < i + 1 && keys@[j] == kk && !am.contains_key(kk);
                        if j == i {
                            assert(body@[body@.len() - 1] == kk);
                        } else {
                            assert(exists|j2: int| 0 <= j2 < i && keys@[j2] == kk && !am.contains_key(kk));
                            assert(b_old.contains(kk));
                            let jb = choose|jb: int| 0 <= jb < b_old.len() && b_old[jb] == kk;
                            assert(body@[jb] == kk);
                        }
                    }
                }
            }
            i = i + 1;
        }
        proof {
            assert(body@.to_set() =~= body_vars(*func)) by {
                assert forall|k: usize| body@.to_set().contains(k) <==> body_vars(*func).contains(k) by {
                    if body_vars(*func).contains(k) {
                        assert(ssa_kinds(*func).dom().contains(k));
                        assert(kinds.view().contains_key(k));
                        assert(keys@.contains(k));
                        let j = choose|j: int| 0 <= j < keys@.len() && keys@[j] == k;
                        assert(!am.contains_key(k));
                        assert(exists|j: int| 0 <= j < keys@.len() && keys@[j] == k && !am.contains_key(k));
                        assert(body@.contains(k));
                    }
                    if body@.contains(k) {
                        let j = choose|j: int| 0 <= j < keys@.len() && keys@[j] == k && !am.contains_key(k);
                        assert(keys@.contains(k));
                        assert(kinds.view().contains_key(k));
                        assert(ssa_kinds(*func).dom().contains(k));
                    }
                }
            }
            body@.unique_seq_to_set();
            keys@.unique_seq_to_set();
            assert(kinds.view().dom() =~= keys@.to_set());
            vstd::set_lib::lemma_len_subset(body_vars(*func), kinds.view().dom());
        }
        let mut extra_types: Vec<ValTy> = Vec::new();
        extra_types.push(ValTy::I32);
        let mut e: usize = 0;
        while e < body.len()
            invariant
                e <= body@.len(),
                extra_types@.len() == 1 + e,
                extra_types@[0] == ValTy::I32,
            decreases body.len() - e,
        {
            extra_types.push(ValTy::I32);
            e = e + 1;
        }
        let mut k: usize = 0;
        while k < body.len()
            invariant
                k <= body@.len(),
                body@.no_duplicates(),
                body@.to_set() == body_vars(*func),
                kinds.wf(),
                kinds.view() == ssa_kinds(*func),
                extra_types@.len() == 1 + body@.len(),
                extra_types@[0] == ValTy::I32,
                locals.wf(),
                am == arg_locals(func.args@),
                pc_local == func.args@.len() as u32,
                func.args@.len() + 1 + body@.len() <= u32::MAX,
                forall|x: usize| #[trigger] am.contains_key(x) ==> locals.view().contains_key(x) && locals.view()[x] == am[x],
                forall|x: usize| #[trigger] locals.view().contains_key(x) ==> am.contains_key(x) || (exists|j: int| 0 <= j < k && body@[j] == x),
                forall|j: int| 0 <= j < k ==> locals.view().contains_key(body@[j])
                    && locals.view()[body@[j]] == (func.args@.len() + 1 + count_less(body@, body@[j])) as u32,
                forall|j: int| 0 <= j < k ==> #[trigger] extra_types@[1 + count_less(body@, body@[j]) as int] == val_of(ssa_kinds(*func)[body@[j]]),
            decreases body.len() - k,
        {
            let x = body[k];
            let rank = count_smaller(&body, x);
            proof {
                assert(body@.contains(x));
                lemma_count_less_bounds(body@, x, x);
            }
            let kind = match kinds.get(x) {
                Some(kd) => *kd,
                None => TyKind::Int,
            };
            proof {
                assert(body_vars(*func).contains(x));
            }
            let ghost before = extra_types@;
            let ghost lv0 = locals.view();
            assert(rank == count_less(body@, x));
            extra_types.set(1 + rank, kind_val(kind));
            locals.insert(x, (func.args.len() + 1 + rank) as u32);
            assert(locals.view() == lv0.insert(x, (func.args@.len() + 1 + rank) as u32));
            proof {
                assert(body@[k as int] == x);
                assert(body@.contains(x));
                assert forall|jj: int| 0 <= jj < k + 1 implies #[trigger] extra_types@[1 + count_less(body@, body@[jj]) as int] == val_of(ssa_kinds(*func)[body@[jj]]) by {
                    if jj < k {
                        assert(body@[jj] != x);
                        assert(body@.contains(body@[jj]));
                        if body@[jj] < x {
                            lemma_count_less_bounds(body@, body@[jj], x);
                        } else {
                            lemma_count_less_bounds(body@, x, body@[jj]);
                        }
                        lemma_count_less_bounds(body@, body@[jj], body@[jj]);
                        assert(count_less(body@, body@[jj]) != count_less(body@, x));
                        assert(extra_types@[1 + count_less(body@, body@[jj]) as int] == before[1 + count_less(body@, body@[jj]) as int]);
                    }
                }
                assert(body@[k as int] == x);
                assert(body@.contains(x));
                assert(body@.to_set().contains(x));
                assert(body_vars(*func).contains(x));
                assert(!am.contains_key(x));
                assert forall|x2: usize| am.contains_key(x2) implies locals.view().contains_key(x2) && locals.view()[x2] == am[x2] by {
                    assert(x2 != x);
                    assert(lv0.contains_key(x2) && lv0[x2] == am[x2]);
                }
            }
            k = k + 1;
        }
        let r = LocalMap { locals, pc_local, extra_types };
        proof {
            assert forall|x: usize| #[trigger] r.spec_local_idx(x) == local_of(*func, x) by {
                lemma_count_less_set(body@, x);
                if am.contains_key(x) {
                } else if body_vars(*func).contains(x) {
                    assert(body@.contains(x));
                    let j = choose|j: int| 0 <= j < body@.len() && body@[j] == x;
                    assert(locals.view()[body@[j]] == (func.args@.len() + 1 + count_less(body@, body@[j])) as u32);
                } else {
                    if locals.view().contains_key(x) {
                        let j = choose|j: int| 0 <= j < body@.len() && body@[j] == x;
                        assert(body@.to_set().contains(x));
                    }
                }
            }
            assert forall|x: usize| body_vars(*func).contains(x)
                implies #[trigger] r.extra_types@[1 + var_rank(*func, x) as int] == val_of(ssa_kinds(*func)[x]) by {
                lemma_count_less_set(body@, x);
                assert(body@.to_set().contains(x));
                let j = choose|j: int| 0 <= j < body@.len() && body@[j] == x;
                assert(extra_types@[1 + count_less(body@, body@[j]) as int] == val_of(ssa_kinds(*func)[body@[j]]));
            }
        }
        r
    }

    /// The local of a variable, 0 for one the map does not hold.
    pub fn local_idx(&self, x: usize) -> (r: u32)
        requires
            self.wf(),
        ensures
            r == self.spec_local_idx(x),
    {
        match self.locals.get(x) {
            Some(l) => *l,
            None => 0,
        }
    }
}

/// Whether every character of `d` is a decimal digit.
pub open spec fn all_digits(d: Seq<char>) -> bool {
    forall|i: int| 0 <= i < d.len() ==> '0' <= #[trigger] d[i] <= '9'
}

/// The value of a string of decimal digits.
pub open spec fn decimal_value(d: Seq<char>) -> int
    decreases d.len(),
{
    if d.len() == 0 { 0 } else { decimal_value(d.drop_last()) * 10 + (d.last() as int - '0' as int) }
}

/// What `str::parse::<i64>` gives: an optional sign followed by at least
/// one decimal digit and nothing else, whose value fits in 64 bits.
pub open spec fn parse_i64_text(s: Seq<char>) -> Option<i64> {
    let neg = s.len() > 0 && s[0] == '-';
    let signed = s.len() > 0 && (s[0] == '-' || s[0] == '+');
    let d = if signed { s.drop_first() } else { s };
    let v = if neg { -decimal_value(d) } else { decimal_value(d) };
    if d.len() > 0 && all_digits(d) && i64::MIN <= v <= i64::MAX { Some(v as i64) } else { None }
}

/// The value of digits is at least that of any prefix of them.
proof fn lemma_decimal_prefix(d: Seq<char>, i: int)
    requires
        all_digits(d),
        0 <= i <= d.len(),
    ensures
        0 <= decimal_value(d.take(i)) <= decimal_value(d),
    decreases d.len(),
{
    if i < d.len() {
        let e = d.drop_last();
        assert(all_digits(e)) by {
            assert forall|k: int| 0 <= k < e.len() implies '0' <= #[trigger] e[k] <= '9' by {
                assert(e[k] == d[k]);
            }
        }
        lemma_decimal_prefix(e, i);
        assert(e.take(i) =~= d.take(i));
        assert('0' <= d.last() <= '9');
    } else {
        assert(d.take(i) =~= d);
        if d.len() > 0 {
            let e = d.drop_last();
            assert(all_digits(e)) by {
                assert forall|k: int| 0 <= k < e.len() implies '0' <= #[trigger] e[k] <= '9' by {
                    assert(e[k] == d[k]);
                }
            }
            lemma_decimal_prefix(e, e.len() as int);
            assert(e.take(e.len() as int) =~= e);
            assert('0' <= d.last() <= '9');
        }
    }
}

/// Reads an `i64` as `str::parse::<i64>` does: an optional `+` or `-`
/// followed by decimal digits only, in range; anything else (white space
/// included) gives none.
fn parse_i64(s: &str) -> (r: Option<i64>)
    ensures
        r == parse_i64_text(s@),
{
    let cs = crate::text::chars_of(s);
    let n = cs.len();
    let ghost sv = s@;
    let mut start: usize = 0;
    let mut neg = false;
    if n > 0 && (cs[0] == '-' || cs[0] == '+') {
        start = 1;
        neg = cs[0] == '-';
    }
    let ghost d = if start == 1 { sv.drop_first() } else { sv };
    proof {
        assert(d =~= cs@.subrange(start as int, n as int));
        assert(d == (if sv.len() > 0 && (sv[0] == '-' || sv[0] == '+') { sv.drop_first() } else { sv }));
        assert(neg == (sv.len() > 0 && sv[0] == '-'));
    }
    if start >= n {
        return None;
    }
    let mut acc: i128 = 0;
    let mut i: usize = start;
    let limit: i128 = 9223372036854775808;
    while i < n
        invariant
            cs@ == sv,
            sv == s@,
            d == (if sv.len() > 0 && (sv[0] == '-' || sv[0] == '+') { sv.drop_first() } else { sv }),
            neg == (sv.len() > 0 && sv[0] == '-'),
            n == cs@.len(),
            start <= i <= n,
            start < n,
            d == cs@.subrange(start as int, n as int),
            all_digits(d.take(i - start)),
            acc == decimal_value(d.take(i - start)),
            0 <= acc <= limit,
            limit == 9223372036854775808,
        decreases n - i,
    {
        let c = cs[i];
        let k = i - start;
        proof {
            assert(d[k as int] == c);
            assert(d.take(k as int + 1).drop_last() =~= d.take(k as int));
            assert(d.take(k as int + 1).last() == c);
        }
        if c < '0' || c > '9' {
            proof {
                assert(!('0' <= d[k as int] <= '9'));
                assert(!all_digits(d));
                assert(parse_i64_text(sv) is None);
            }
            return None;
        }
        let digit: i128 = (c as u32 - '0' as u32) as i128;
        acc = acc * 10 + digit;
        proof {
            assert(all_digits(d.take(k as int + 1))) by {
                assert forall|j: int| 0 <= j < k + 1 implies '0' <= #[trigger] d.take(k as int + 1)[j] <= '9' by {
                    if j < k {
                        assert(d.take(k as int + 1)[j] == d.take(k as int)[j]);
                    }
                }
            }
        }
        proof {
            assert(acc == decimal_value(d.take(k as int + 1)));
        }
        if acc > limit {
            proof {
                if all_digits(d) {
                    lemma_decimal_prefix(d, k as int + 1);
                    assert(decimal_value(d) > limit);
                }
                assert(parse_i64_text(sv) is None);
            }
            return None;
        }
        i = i + 1;
    }
    proof {
        assert(d.take(i - start) =~= d);
    }
    if neg {
        Some((0 - acc) as i64)
    } else if acc > 9223372036854775807 {
        None
    } else {
        Some(acc as i64)
    }
}

/// The entry of a name in a list of named entries, if any.
pub open spec fn lookup_entry<T>(v: Seq<(String, T)>, n: Seq<char>) -> Option<T> {
    match first_index_of(entry_names(v), n) {
        Some(i) => Some(v[i].1),
        None => None,
    }
}

/// What code generation knows of the program and of the function at hand:
/// the interned strings (offset, length), constant tables and global
/// allocations (offsets), where the arena starts, the functions' indices,
/// and the kinds and locals of the function's variables.
pub struct CodeEnv {
    pub strings: Seq<(String, (u32, u32))>,
    pub tables: Seq<(String, u32)>,
    pub globals: Seq<(String, u32)>,
    pub arena_start: u32,
    pub fns: Seq<MirFunction>,
    pub kinds: Map<usize, TyKind>,
    pub locals: spec_fn(usize) -> u32,
}

/// The index of the function named `n`: after the imports, the position of
/// the last function of that name.
pub open spec fn fn_index_of(fs: Seq<MirFunction>, n: Seq<char>) -> Option<u32>
    decreases fs.len(),
{
    if fs.len() == 0 {
        None
    } else if fs.last().name@ == n {
        Some((NUM_IMPORTS + (fs.len() - 1)) as u32)
    } else {
        fn_index_of(fs.drop_last(), n)
    }
}

/// The instruction of a binary operator at the chosen width.
pub open spec fn bin_op(op: MirBinOp, use64: bool) -> WasmOp {
    if use64 { WasmOp::I64Bin(op) } else { WasmOp::I32Bin(op) }
}

/// The conversion of a binary operation's result to its destination type:
/// comparisons give a 32-bit word, other operations the width they ran at.
pub open spec fn result_fix(op: MirBinOp, use64: bool, dest_type: OnuType) -> Seq<WasmOp> {
    let cmp = op is Eq || op is Ne || op is Gt || op is Lt;
    let result = if cmp { ValTy::I32 } else if use64 { ValTy::I64 } else { ValTy::I32 };
    let dest_wt = wasm_type(dest_type);
    if dest_wt == ValTy::I64 && result == ValTy::I32 {
        seq![WasmOp::I64ExtendI32S]
    } else if dest_wt == ValTy::I32 && result == ValTy::I64 {
        seq![WasmOp::I32WrapI64]
    } else {
        Seq::empty()
    }
}

fn emit_result_fix(out: &mut Vec<WasmOp>, op: MirBinOp, use64: bool, dest_type: &OnuType)
    ensures
        final(out)@ == old(out)@ + result_fix(op, use64, *dest_type),
{
    let cmp = match op {
        MirBinOp::Eq | MirBinOp::Ne | MirBinOp::Gt | MirBinOp::Lt => true,
        _ => false,
    };
    let result = if cmp { ValTy::I32 } else if use64 { ValTy::I64 } else { ValTy::I32 };
    let dest_wt = mir_to_wasm_type(dest_type);
    if dest_wt == ValTy::I64 && result == ValTy::I32 {
        out.push(WasmOp::I64ExtendI32S);
    } else if dest_wt == ValTy::I32 && result == ValTy::I64 {
        out.push(WasmOp::I32WrapI64);
    }
    assert(out@ =~= old(out)@ + result_fix(op, use64, *dest_type));
}

impl CodeEnv {
    /// The local of a variable.
    pub open spec fn local(self, x: usize) -> u32 {
        (self.locals)(x)
    }

    /// The value type of an operand: of its literal, or of its variable's
    /// kind (64-bit integer for an unknown variable).
    pub open spec fn op_val(self, op: MirOperand) -> ValTy {
        match op {
            MirOperand::Constant(l) => val_of(lit_kind(l)),
            MirOperand::Variable(x, _) => if self.kinds.contains_key(x) { val_of(self.kinds[x]) } else { ValTy::I64 },
        }
    }

    /// The value type of a variable (64-bit integer for an unknown one).
    pub open spec fn var_val(self, x: usize) -> ValTy {
        if self.kinds.contains_key(x) { val_of(self.kinds[x]) } else { ValTy::I64 }
    }

    /// The code pushing a literal: integers and doubles as constants,
    /// booleans as 0 or 1, texts as their data offset, nothing as 0, and
    /// wide integers as their value when it fits in 64 bits (0 otherwise).
    #[verifier::opaque]
    pub open spec fn lit_code(self, l: MirLiteral) -> Seq<WasmOp> {
        match l {
            MirLiteral::I64(v) => seq![WasmOp::I64Const(v)],
            MirLiteral::F64(b) => seq![WasmOp::F64Const(b)],
            MirLiteral::Boolean(b) => seq![WasmOp::I32Const(if b { 1i32 } else { 0i32 })],
            MirLiteral::Text(t) => seq![WasmOp::I32Const(match lookup_entry(self.strings, t@) {
                Some((off, _)) => off as i32,
                None => 0i32,
            })],
            MirLiteral::Nothing => seq![WasmOp::I32Const(0)],
            MirLiteral::WideInt(t, _) => seq![WasmOp::I64Const(match parse_i64_text(t@) {
                Some(v) => v,
                None => 0i64,
            })],
        }
    }

    /// The code pushing an operand.
    #[verifier::opaque]
    pub open spec fn operand_code(self, op: MirOperand) -> Seq<WasmOp> {
        match op {
            MirOperand::Constant(l) => self.lit_code(l),
            MirOperand::Variable(x, _) => seq![WasmOp::LocalGet(self.local(x))],
        }
    }

    /// The code pushing an operand as a 32-bit word, wrapping a 64-bit one.
    #[verifier::opaque]
    pub open spec fn operand_i32_code(self, op: MirOperand) -> Seq<WasmOp> {
        self.operand_code(op) + if self.op_val(op) == ValTy::I64 { seq![WasmOp::I32WrapI64] } else { Seq::empty() }
    }

    /// The code pushing an operand and converting it to `ty`: sign-extended
    /// from 32 to 64 bits, or wrapped from 64 to 32 bits.
    #[verifier::opaque]
    pub open spec fn operand_to(self, op: MirOperand, to64: bool) -> Seq<WasmOp> {
        let is64 = self.op_val(op) == ValTy::I64;
        self.operand_code(op) + if to64 && !is64 {
            seq![WasmOp::I64ExtendI32S]
        } else if !to64 && is64 {
            seq![WasmOp::I32WrapI64]
        } else {
            Seq::empty()
        }
    }

    /// The code of a binary operation: in 64 bits when either operand is
    /// 64-bit, in 32 bits otherwise; comparisons give a 32-bit result; the
    /// result is converted to the destination's type and stored.
    /// Whether a binary operation runs in 64 bits: when either operand is
    /// 64-bit.
    pub open spec fn wide(self, lhs: MirOperand, rhs: MirOperand) -> bool {
        self.op_val(lhs) == ValTy::I64 || self.op_val(rhs) == ValTy::I64
    }

    pub open spec fn binop_code_at(self, dest: usize, op: MirBinOp, lhs: MirOperand, rhs: MirOperand, dest_type: OnuType, use64: bool) -> Seq<WasmOp> {
        self.operand_to(lhs, use64) + self.operand_to(rhs, use64) + seq![bin_op(op, use64)] + result_fix(op, use64, dest_type)
            + seq![WasmOp::LocalSet(self.local(dest))]
    }

    #[verifier::opaque]
    pub open spec fn binop_code(self, dest: usize, op: MirBinOp, lhs: MirOperand, rhs: MirOperand, dest_type: OnuType) -> Seq<WasmOp> {
        self.binop_code_at(dest, op, lhs, rhs, dest_type, self.wide(lhs, rhs))
    }
    /// The code pushing each operand of a list, in order.
    pub open spec fn args_code(self, args: Seq<MirOperand>) -> Seq<WasmOp>
        decreases args.len(),
    {
        if args.len() == 0 { Seq::empty() } else { self.args_code(args.drop_last()) + self.operand_code(args.last()) }
    }

    /// The code pushing an operand as a 64-bit integer, zero-extending a
    /// 32-bit one.
    pub open spec fn operand_u64(self, op: MirOperand) -> Seq<WasmOp> {
        self.operand_code(op) + if self.op_val(op) == ValTy::I32 { seq![WasmOp::I64ExtendI32U] } else { Seq::empty() }
    }

    /// A call: the arguments, then the call of a known function or, for an
    /// unknown one, a zero of its return type; the result, unless nothing,
    /// is stored.
    #[verifier::opaque]
    pub open spec fn call_code(self, dest: usize, name: Seq<char>, args: Seq<MirOperand>, rt: OnuType) -> Seq<WasmOp> {
        self.args_code(args) + match fn_index_of(self.fns, name) {
            Some(i) => seq![WasmOp::Call(i)],
            None => match rt {
                OnuType::Nothing => Seq::empty(),
                OnuType::Boolean => seq![WasmOp::I32Const(0)],
                OnuType::F64 => seq![WasmOp::F64Const(0)],
                _ => seq![WasmOp::I64Const(0)],
            },
        } + if rt is Nothing { Seq::empty() } else { seq![WasmOp::LocalSet(self.local(dest))] }
    }

    /// Output: a text constant is written from its data; a string variable
    /// through its record's pointer and length; any other variable is
    /// printed as an integer; other constants print nothing.
    #[verifier::opaque]
    pub open spec fn emit_code(self, op: MirOperand) -> Seq<WasmOp> {
        match op {
            MirOperand::Constant(MirLiteral::Text(t)) => {
                let (off, len) = match lookup_entry(self.strings, t@) {
                    Some(p) => p,
                    None => (0u32, 0u32),
                };
                seq![WasmOp::I32Const(off as i32), WasmOp::I32Const(len as i32), WasmOp::Call(IMPORT_ONU_WRITE)]
            },
            MirOperand::Variable(x, _) => {
                let k = if self.kinds.contains_key(x) { self.kinds[x] } else { TyKind::Int };
                let l = self.local(x);
                if k == TyKind::Strings {
                    seq![
                        WasmOp::LocalGet(l), WasmOp::I32Const(8), WasmOp::I32Bin(MirBinOp::Add),
                        WasmOp::I32Load { offset: 0, align: 2 }, WasmOp::LocalGet(l),
                        WasmOp::I64Load { offset: 0, align: 3 }, WasmOp::I32WrapI64, WasmOp::Call(IMPORT_ONU_WRITE)
                    ]
                } else {
                    seq![WasmOp::LocalGet(l)] + (if val_of(k) == ValTy::I32 { seq![WasmOp::I64ExtendI32S] } else { Seq::empty() })
                        + seq![WasmOp::Call(IMPORT_ONU_PRINT_I64)]
                }
            },
            _ => Seq::empty(),
        }
    }

    /// Storing element `i` (0, 1 or 2) of a string record, when there is
    /// one: the length as a 64-bit integer at offset 0, the pointer and the
    /// dynamic flag as 32-bit words at offsets 8 and 12.
    #[verifier::opaque]
    pub open spec fn tuple_elem(self, l: u32, elements: Seq<MirOperand>, i: int) -> Seq<WasmOp> {
        if elements.len() > i {
            let e = elements[i];
            seq![WasmOp::LocalGet(l)] + self.operand_code(e) + if i == 0 {
                (if self.op_val(e) == ValTy::I32 { seq![WasmOp::I64ExtendI32S] } else { Seq::empty() })
                    + seq![WasmOp::I64Store { offset: 0, align: 3 }]
            } else {
                (if self.op_val(e) == ValTy::I64 { seq![WasmOp::I32WrapI64] } else { Seq::empty() })
                    + seq![WasmOp::I32Store { offset: if i == 1 { 8u64 } else { 12u64 }, align: 2 }]
            }
        } else {
            Seq::empty()
        }
    }

    /// A string record: allocated at the arena pointer, its first three
    /// elements stored, and the arena pointer bumped past it.
    pub open spec fn tuple_code(self, dest: usize, elements: Seq<MirOperand>) -> Seq<WasmOp> {
        let l = self.local(dest);
        seq![WasmOp::GlobalGet(GLOBAL_ARENA_PTR), WasmOp::LocalSet(l)] + self.tuple_elem(l, elements, 0)
            + self.tuple_elem(l, elements, 1) + self.tuple_elem(l, elements, 2)
            + seq![WasmOp::GlobalGet(GLOBAL_ARENA_PTR), WasmOp::I32Const(TUPLE_SIZE as i32), WasmOp::I32Bin(MirBinOp::Add), WasmOp::GlobalSet(GLOBAL_ARENA_PTR)]
    }

    /// Reading field `index` of a string record: the length (64-bit), the
    /// pointer, or the dynamic flag, converted to the destination's type.
    #[verifier::opaque]
    pub open spec fn index_code(self, dest: usize, subject: MirOperand, index: usize) -> Seq<WasmOp> {
        let dv = self.var_val(dest);
        self.operand_i32_code(subject) + if index == 0 {
            seq![WasmOp::I64Load { offset: 0, align: 3 }] + if dv == ValTy::I32 { seq![WasmOp::I32WrapI64] } else { Seq::empty() }
        } else if index == 1 {
            seq![WasmOp::I32Load { offset: 8, align: 2 }] + if dv == ValTy::I64 { seq![WasmOp::I64ExtendI32S] } else { Seq::empty() }
        } else {
            seq![WasmOp::I32Load { offset: 12, align: 2 }] + if dv == ValTy::I64 { seq![WasmOp::I64ExtendI32S] } else { Seq::empty() }
        } + seq![WasmOp::LocalSet(self.local(dest))]
    }

    /// A funnel shift right: a 32-bit rotation, a 64-bit rotation, or the
    /// shifts and `or` of the general case.
    #[verifier::opaque]
    pub open spec fn funnel_code(self, dest: usize, hi: MirOperand, lo: MirOperand, amount: MirOperand, width: u32) -> Seq<WasmOp> {
        if width == 32 {
            self.operand_i32_code(hi) + self.operand_i32_code(amount) + seq![WasmOp::I32Rotr, WasmOp::I64ExtendI32U]
                + seq![WasmOp::LocalSet(self.local(dest))]
        } else if width == 64 {
            self.operand_u64(hi) + self.operand_u64(lo) + self.operand_u64(amount) + seq![WasmOp::I64Rotr]
                + seq![WasmOp::LocalSet(self.local(dest))]
        } else {
            self.operand_u64(hi) + self.operand_u64(amount) + seq![WasmOp::I64Bin(MirBinOp::Shr)]
                + self.operand_u64(lo) + seq![WasmOp::I64Const(width as i64)] + self.operand_u64(amount)
                + seq![WasmOp::I64Bin(MirBinOp::Sub), WasmOp::I64Bin(MirBinOp::Shl), WasmOp::I64Bin(MirBinOp::Or)]
                + seq![WasmOp::LocalSet(self.local(dest))]
        }
    }

    /// The code of one instruction.
    pub open spec fn inst_code(self, inst: MirInstruction) -> Seq<WasmOp> {
        match inst {
            MirInstruction::Assign { dest, src } => self.operand_code(src) + seq![WasmOp::LocalSet(self.local(dest))],
            MirInstruction::BinaryOperation { dest, op, lhs, rhs, dest_type } => self.binop_code(dest, op, lhs, rhs, dest_type),
            MirInstruction::Call { dest, name, args, return_type, .. } => self.call_code(dest, name@, args@, return_type),
            MirInstruction::Emit(op) => self.emit_code(op),
            MirInstruction::Drop { .. } => Seq::empty(),
            MirInstruction::Alloc { dest, size_bytes } =>
                seq![WasmOp::GlobalGet(GLOBAL_ARENA_PTR), WasmOp::LocalSet(self.local(dest)), WasmOp::GlobalGet(GLOBAL_ARENA_PTR)]
                    + self.operand_i32_code(size_bytes) + seq![WasmOp::I32Bin(MirBinOp::Add), WasmOp::GlobalSet(GLOBAL_ARENA_PTR)],
            MirInstruction::StackAlloc { dest, size_bytes } =>
                seq![WasmOp::GlobalGet(GLOBAL_ARENA_PTR), WasmOp::LocalSet(self.local(dest)), WasmOp::GlobalGet(GLOBAL_ARENA_PTR),
                    WasmOp::I32Const(size_bytes as i32), WasmOp::I32Bin(MirBinOp::Add), WasmOp::GlobalSet(GLOBAL_ARENA_PTR)],
            MirInstruction::GlobalAlloc { dest, name, .. } => seq![
                WasmOp::I32Const(match lookup_entry(self.globals, name@) {
                    Some(off) => off as i32,
                    None => self.arena_start as i32,
                }),
                WasmOp::LocalSet(self.local(dest))
            ],
            MirInstruction::SaveArena { dest } => seq![WasmOp::GlobalGet(GLOBAL_ARENA_PTR), WasmOp::LocalSet(self.local(dest))],
            MirInstruction::RestoreArena { saved } => self.operand_i32_code(saved) + seq![WasmOp::GlobalSet(GLOBAL_ARENA_PTR)],
            MirInstruction::PointerOffset { dest, ptr, offset } =>
                self.operand_i32_code(ptr) + self.operand_i32_code(offset) + seq![WasmOp::I32Bin(MirBinOp::Add), WasmOp::LocalSet(self.local(dest))],
            MirInstruction::Load { dest, ptr, typ } => self.operand_i32_code(ptr) + seq![
                match typ {
                    OnuType::Boolean | OnuType::Ptr => WasmOp::I32Load { offset: 0, align: 2 },
                    _ => WasmOp::I64Load { offset: 0, align: 3 },
                },
                WasmOp::LocalSet(self.local(dest))
            ],
            MirInstruction::Store { ptr, value } => self.operand_i32_code(ptr) + self.operand_code(value) + seq![
                if self.op_val(value) == ValTy::I64 { WasmOp::I64Store { offset: 0, align: 3 } } else { WasmOp::I32Store { offset: 0, align: 2 } }
            ],
            MirInstruction::TypedStore { ptr, value, typ } => self.operand_i32_code(ptr) + self.operand_code(value) + match typ {
                OnuType::Boolean | OnuType::Ptr | OnuType::Strings | OnuType::Nothing =>
                    (if self.op_val(value) == ValTy::I64 { seq![WasmOp::I32WrapI64] } else { Seq::empty() })
                        + seq![WasmOp::I32Store { offset: 0, align: 2 }],
                _ => seq![WasmOp::I64Store { offset: 0, align: 3 }],
            },
            MirInstruction::MemCopy { dest, src, size } =>
                self.operand_i32_code(dest) + self.operand_i32_code(src) + self.operand_i32_code(size) + seq![WasmOp::MemoryCopy],
            MirInstruction::MemSet { ptr, value, size } =>
                self.operand_i32_code(ptr) + self.operand_i32_code(value) + self.operand_i32_code(size) + seq![WasmOp::MemoryFill],
            MirInstruction::Promote { dest, src, to_type } => {
                let from = self.op_val(src);
                let to = wasm_type(to_type);
                self.operand_code(src) + (if from == ValTy::I32 && to == ValTy::I64 {
                    seq![WasmOp::I64ExtendI32S]
                } else if from == ValTy::I64 && to == ValTy::I32 {
                    seq![WasmOp::I32WrapI64]
                } else {
                    Seq::empty()
                }) + seq![WasmOp::LocalSet(self.local(dest))]
            },
            MirInstruction::BitCast { dest, src, .. } => self.operand_code(src) + seq![WasmOp::LocalSet(self.local(dest))],
            MirInstruction::Tuple { dest, elements } => self.tuple_code(dest, elements@),
            MirInstruction::Index { dest, subject, index } => self.index_code(dest, subject, index),
            MirInstruction::ConstantTableLoad { dest, name, index, .. } => seq![
                WasmOp::I32Const(match lookup_entry(self.tables, name@) {
                    Some(off) => off as i32,
                    None => 0i32,
                })
            ] + self.operand_i32_code(index) + seq![
                WasmOp::I32Const(8), WasmOp::I32Bin(MirBinOp::Mul), WasmOp::I32Bin(MirBinOp::Add),
                WasmOp::I64Load { offset: 0, align: 3 }, WasmOp::LocalSet(self.local(dest))
            ],
            MirInstruction::FunnelShiftRight { dest, hi, lo, amount, width } => self.funnel_code(dest, hi, lo, amount, width),
            MirInstruction::BufferedWrite { ptr, len } =>
                self.operand_i32_code(ptr) + self.operand_i32_code(len) + seq![WasmOp::Call(IMPORT_ONU_WRITE)],
            MirInstruction::FlushStdout => Seq::empty(),
        }
    }

    /// The code of a terminator at dispatch depth `depth`: a return (of the
    /// operand, unless it is the constant nothing or the function returns
    /// nothing), or setting the program counter and branching back to the
    /// dispatch loop.
    #[verifier::opaque]
    pub open spec fn term_code(self, t: MirTerminator, returns_nothing: bool, pc: u32, depth: u32) -> Seq<WasmOp> {
        match t {
            MirTerminator::Return(op) =>
                (if !(op matches MirOperand::Constant(MirLiteral::Nothing)) && !returns_nothing { self.operand_code(op) } else { Seq::empty() })
                    + seq![WasmOp::Return],
            MirTerminator::Branch(target) => seq![WasmOp::I32Const(target as i32), WasmOp::LocalSet(pc), WasmOp::Br(depth)],
            MirTerminator::CondBranch { condition, then_block, else_block } => self.operand_i32_code(condition) + seq![
                WasmOp::If, WasmOp::I32Const(then_block as i32), WasmOp::LocalSet(pc), WasmOp::Else,
                WasmOp::I32Const(else_block as i32), WasmOp::LocalSet(pc), WasmOp::End, WasmOp::Br(depth)
            ],
            MirTerminator::Unreachable => seq![WasmOp::Unreachable],
        }
    }

    /// The code of a list of instructions, in order.
    pub open spec fn insts_code(self, insts: Seq<MirInstruction>) -> Seq<WasmOp>
        decreases insts.len(),
    {
        if insts.len() == 0 { Seq::empty() } else { self.insts_code(insts.drop_last()) + self.inst_code(insts.last()) }
    }

    /// The code of block `k` of `n`: the end of its dispatch block, its
    /// instructions and its terminator.
    pub open spec fn block_code(self, b: BasicBlock, returns_nothing: bool, pc: u32, n: nat, k: nat) -> Seq<WasmOp> {
        seq![WasmOp::End] + self.insts_code(b.instructions@) + self.term_code(b.terminator, returns_nothing, pc, (n - 1 - k) as u32)
    }

    /// The code of the first `m` of the `n` blocks.
    pub open spec fn blocks_code(self, bs: Seq<BasicBlock>, returns_nothing: bool, pc: u32, n: nat, m: nat) -> Seq<WasmOp>
        decreases m,
    {
        if m == 0 {
            Seq::empty()
        } else {
            self.blocks_code(bs, returns_nothing, pc, n, (m - 1) as nat) + self.block_code(bs[m - 1], returns_nothing, pc, n, (m - 1) as nat)
        }
    }

}

/// Pushes `op` onto `out`.
fn push_op(out: &mut Vec<WasmOp>, op: WasmOp)
    ensures
        final(out)@ == old(out)@.push(op),
{
    out.push(op);
}

/// The code generator's knowledge, held in executable form.
pub struct CodeCtx<'a> {
    pub strings: &'a Vec<(String, (u32, u32))>,
    pub tables: &'a Vec<(String, u32)>,
    pub globals: &'a Vec<(String, u32)>,
    pub arena_start: u32,
    pub fns: &'a Vec<MirFunction>,
    pub kinds: &'a SsaMap<TyKind>,
    pub locals: &'a LocalMap,
}

impl<'a> CodeCtx<'a> {
    /// The knowledge this context holds.
    pub open spec fn env(&self) -> CodeEnv {
        CodeEnv {
            strings: self.strings@,
            tables: self.tables@,
            globals: self.globals@,
            arena_start: self.arena_start,
            fns: self.fns@,
            kinds: self.kinds.view(),
            locals: |x: usize| self.locals.spec_local_idx(x),
        }
    }

    pub open spec fn wf(&self) -> bool {
        &&& self.kinds.wf()
        &&& self.locals.wf()
        &&& self.fns@.len() + NUM_IMPORTS <= u32::MAX
    }

    fn local(&self, x: usize) -> (r: u32)
        requires
            self.wf(),
        ensures
            r == self.env().local(x),
    {
        self.locals.local_idx(x)
    }

    fn op_val(&self, op: &MirOperand) -> (r: ValTy)
        requires
            self.wf(),
        ensures
            r == self.env().op_val(*op),
    {
        match op {
            MirOperand::Constant(l) => kind_val(literal_kind(l)),
            MirOperand::Variable(x, _) => match self.kinds.get(*x) {
                Some(k) => kind_val(*k),
                None => ValTy::I64,
            },
        }
    }

    fn var_val(&self, x: usize) -> (r: ValTy)
        requires
            self.wf(),
        ensures
            r == self.env().var_val(x),
    {
        match self.kinds.get(x) {
            Some(k) => kind_val(*k),
            None => ValTy::I64,
        }
    }

    fn emit_literal(&self, out: &mut Vec<WasmOp>, l: &MirLiteral)
        requires
            self.wf(),
        ensures
            final(out)@ == old(out)@ + self.env().lit_code(*l),
    {
        let op = match l {
            MirLiteral::I64(v) => WasmOp::I64Const(*v),
            MirLiteral::F64(b) => WasmOp::F64Const(*b),
            MirLiteral::Boolean(b) => WasmOp::I32Const(if *b { 1 } else { 0 }),
            MirLiteral::Text(t) => {
                let off: i32 = match find_entry(self.strings, t.as_str()) {
                    Some(i) => #[verifier::truncate] ((self.strings[i].1).0 as i32),
                    None => 0,
                };
                WasmOp::I32Const(off)
            },
            MirLiteral::Nothing => WasmOp::I32Const(0),
            MirLiteral::WideInt(t, _) => WasmOp::I64Const(match parse_i64(t.as_str()) {
                Some(v) => v,
                None => 0,
            }),
        };
        out.push(op);
        proof {
            reveal(CodeEnv::lit_code);
        }
        assert(out@ =~= old(out)@ + self.env().lit_code(*l));
    }

    fn emit_operand(&self, out: &mut Vec<WasmOp>, op: &MirOperand)
        requires
            self.wf(),
        ensures
            final(out)@ == old(out)@ + self.env().operand_code(*op),
    {
        proof {
            reveal(CodeEnv::operand_code);
        }
        match op {
            MirOperand::Constant(l) => self.emit_literal(out, l),
            MirOperand::Variable(x, _) => {
                out.push(WasmOp::LocalGet(self.local(*x)));
                assert(out@ =~= old(out)@ + self.env().operand_code(*op));
            },
        }
    }

    fn emit_operand_as_i32(&self, out: &mut Vec<WasmOp>, op: &MirOperand)
        requires
            self.wf(),
        ensures
            final(out)@ == old(out)@ + self.env().operand_i32_code(*op),
    {
        proof {
            reveal(CodeEnv::operand_i32_code);
        }
        self.emit_operand(out, op);
        if self.op_val(op) == ValTy::I64 {
            out.push(WasmOp::I32WrapI64);
        }
        assert(out@ =~= old(out)@ + self.env().operand_i32_code(*op));
    }

    fn emit_operand_to(&self, out: &mut Vec<WasmOp>, op: &MirOperand, to64: bool)
        requires
            self.wf(),
        ensures
            final(out)@ == old(out)@ + self.env().operand_to(*op, to64),
    {
        proof {
            reveal(CodeEnv::operand_to);
        }
        self.emit_operand(out, op);
        let is64 = self.op_val(op) == ValTy::I64;
        if to64 && !is64 {
            out.push(WasmOp::I64ExtendI32S);
        } else if !to64 && is64 {
            out.push(WasmOp::I32WrapI64);
        }
        assert(out@ =~= old(out)@ + self.env().operand_to(*op, to64));
    }

    fn emit_args(&self, out: &mut Vec<WasmOp>, args: &Vec<MirOperand>)
        requires
            self.wf(),
        ensures
            final(out)@ == old(out)@ + self.env().args_code(args@),
    {
        let ghost env = self.env();
        let mut i: usize = 0;
        while i < args.len()
            invariant
                self.wf(),
                env == self.env(),
                i <= args@.len(),
                out@ == old(out)@ + env.args_code(args@.subrange(0, i as int)),
            decreases args.len() - i,
        {
            let ghost before = out@;
            self.emit_operand(out, &args[i]);
            proof {
                let pre = args@.subrange(0, i as int);
                let next = args@.subrange(0, i + 1);
                assert(next.drop_last() =~= pre);
                assert(next.last() == args@[i as int]);
                assert(out@ =~= old(out)@ + env.args_code(next));
            }
            i = i + 1;
        }
        assert(args@.subrange(0, args@.len() as int) =~= args@);
    }

    fn emit_operand_u64(&self, out: &mut Vec<WasmOp>, op: &MirOperand)
        requires
            self.wf(),
        ensures
            final(out)@ == old(out)@ + self.env().operand_u64(*op),
    {
        self.emit_operand(out, op);
        if self.op_val(op) == ValTy::I32 {
            out.push(WasmOp::I64ExtendI32U);
        }
        assert(out@ =~= old(out)@ + self.env().operand_u64(*op));
    }

    /// The index of the function of a name: the last one of that name.
    fn fn_index(&self, name: &String) -> (r: Option<u32>)
        requires
            self.wf(),
        ensures
            r == fn_index_of(self.fns@, name@),
    {
        let mut k: usize = self.fns.len();
        assert(self.fns@.subrange(0, k as int) =~= self.fns@);
        while k > 0
            invariant
                k <= self.fns@.len(),
                self.fns@.len() + NUM_IMPORTS <= u32::MAX,
                fn_index_of(self.fns@, name@) == fn_index_of(self.fns@.subrange(0, k as int), name@),
            decreases k,
        {
            let ghost pre = self.fns@.subrange(0, k as int);
            assert(pre.drop_last() =~= self.fns@.subrange(0, k - 1));
            assert(pre.last() == self.fns@[k - 1]);
            if self.fns[k - 1].name == *name {
                return Some((k - 1) as u32 + NUM_IMPORTS);
            }
            k = k - 1;
        }
        None
    }

    fn emit_call(&self, out: &mut Vec<WasmOp>, dest: usize, name: &String, args: &Vec<MirOperand>, rt: &OnuType)
        requires
            self.wf(),
        ensures
            final(out)@ == old(out)@ + self.env().call_code(dest, name@, args@, *rt),
    {
        let ghost env = self.env();
        self.emit_args(out, args);
        let ghost o1 = out@;
        match self.fn_index(name) {
            Some(i) => out.push(WasmOp::Call(i)),
            None => match rt {
                OnuType::Nothing => {},
                OnuType::Boolean => out.push(WasmOp::I32Const(0)),
                OnuType::F64 => out.push(WasmOp::F64Const(0)),
                _ => out.push(WasmOp::I64Const(0)),
            },
        }
        let ghost o2 = out@;
        let is_nothing = match rt {
            OnuType::Nothing => true,
            _ => false,
        };
        if !is_nothing {
            out.push(WasmOp::LocalSet(self.local(dest)));
        }
        proof {
            reveal(CodeEnv::call_code);
            assert(out@ =~= old(out)@ + env.call_code(dest, name@, args@, *rt));
        }
    }

    fn emit_output(&self, out: &mut Vec<WasmOp>, op: &MirOperand)
        requires
            self.wf(),
        ensures
            final(out)@ == old(out)@ + self.env().emit_code(*op),
    {
        let ghost env = self.env();
        proof {
            reveal(CodeEnv::emit_code);
        }
        match op {
            MirOperand::Constant(MirLiteral::Text(t)) => {
                let (off, len) = match find_entry(self.strings, t.as_str()) {
                    Some(i) => self.strings[i].1,
                    None => (0u32, 0u32),
                };
                out.push(WasmOp::I32Const(#[verifier::truncate] (off as i32)));
                out.push(WasmOp::I32Const(#[verifier::truncate] (len as i32)));
                out.push(WasmOp::Call(IMPORT_ONU_WRITE));
                assert(out@ =~= old(out)@ + env.emit_code(*op));
            },
            MirOperand::Variable(x, _) => {
                let k = match self.kinds.get(*x) {
                    Some(k) => *k,
                    None => TyKind::Int,
                };
                let l = self.local(*x);
                if k == TyKind::Strings {
                    out.push(WasmOp::LocalGet(l));
                    out.push(WasmOp::I32Const(8));
                    out.push(WasmOp::I32Bin(MirBinOp::Add));
                    out.push(WasmOp::I32Load { offset: 0, align: 2 });
                    out.push(WasmOp::LocalGet(l));
                    out.push(WasmOp::I64Load { offset: 0, align: 3 });
                    out.push(WasmOp::I32WrapI64);
                    out.push(WasmOp::Call(IMPORT_ONU_WRITE));
                } else {
                    out.push(WasmOp::LocalGet(l));
                    if kind_val(k) == ValTy::I32 {
                        out.push(WasmOp::I64ExtendI32S);
                    }
                    out.push(WasmOp::Call(IMPORT_ONU_PRINT_I64));
                }
                assert(out@ =~= old(out)@ + env.emit_code(*op));
            },
            _ => {
                assert(out@ =~= old(out)@ + env.emit_code(*op));
            },
        }
    }

    fn emit_tuple_elem(&self, out: &mut Vec<WasmOp>, l: u32, elements: &Vec<MirOperand>, i: usize)
        requires
            self.wf(),
            i <= 2,
        ensures
            final(out)@ == old(out)@ + self.env().tuple_elem(l, elements@, i as int),
    {
        let ghost env = self.env();
        proof {
            reveal(CodeEnv::tuple_elem);
        }
        if elements.len() > i {
            out.push(WasmOp::LocalGet(l));
            self.emit_operand(out, &elements[i]);
            let v = self.op_val(&elements[i]);
            if i == 0 {
                if v == ValTy::I32 {
                    out.push(WasmOp::I64ExtendI32S);
                }
                out.push(WasmOp::I64Store { offset: 0, align: 3 });
            } else {
                if v == ValTy::I64 {
                    out.push(WasmOp::I32WrapI64);
                }
                out.push(WasmOp::I32Store { offset: if i == 1 { 8 } else { 12 }, align: 2 });
            }
        }
        assert(out@ =~= old(out)@ + env.tuple_elem(l, elements@, i as int));
    }

    fn emit_tuple(&self, out: &mut Vec<WasmOp>, dest: usize, elements: &Vec<MirOperand>)
        requires
            self.wf(),
        ensures
            final(out)@ == old(out)@ + self.env().tuple_code(dest, elements@),
    {
        let ghost env = self.env();
        let l = self.local(dest);
        out.push(WasmOp::GlobalGet(GLOBAL_ARENA_PTR));
        out.push(WasmOp::LocalSet(l));
        self.emit_tuple_elem(out, l, elements, 0);
        self.emit_tuple_elem(out, l, elements, 1);
        self.emit_tuple_elem(out, l, elements, 2);
        out.push(WasmOp::GlobalGet(GLOBAL_ARENA_PTR));
        out.push(WasmOp::I32Const(16));
        out.push(WasmOp::I32Bin(MirBinOp::Add));
        out.push(WasmOp::GlobalSet(GLOBAL_ARENA_PTR));
        assert(out@ =~= old(out)@ + env.tuple_code(dest, elements@));
    }

    fn emit_index(&self, out: &mut Vec<WasmOp>, dest: usize, subject: &MirOperand, index: usize)
        requires
            self.wf(),
        ensures
            final(out)@ == old(out)@ + self.env().index_code(dest, *subject, index),
    {
        let ghost env = self.env();
        self.emit_operand_as_i32(out, subject);
        let ghost o1 = out@;
        let dv = self.var_val(dest);
        if index == 0 {
            out.push(WasmOp::I64Load { offset: 0, align: 3 });
            if dv == ValTy::I32 {
                out.push(WasmOp::I32WrapI64);
            }
        } else if index == 1 {
            out.push(WasmOp::I32Load { offset: 8, align: 2 });
            if dv == ValTy::I64 {
                out.push(WasmOp::I64ExtendI32S);
            }
        } else {
            out.push(WasmOp::I32Load { offset: 12, align: 2 });
            if dv == ValTy::I64 {
                out.push(WasmOp::I64ExtendI32S);
            }
        }
        out.push(WasmOp::LocalSet(self.local(dest)));
        proof {
            reveal(CodeEnv::index_code);
            assert(out@ =~= old(out)@ + env.index_code(dest, *subject, index));
        }
    }

    fn emit_funnel(&self, out: &mut Vec<WasmOp>, dest: usize, hi: &MirOperand, lo: &MirOperand, amount: &MirOperand, width: u32)
        requires
            self.wf(),
        ensures
            final(out)@ == old(out)@ + self.env().funnel_code(dest, *hi, *lo, *amount, width),
    {
        let ghost env = self.env();
        let ghost o0 = out@;
        if width == 32 {
            self.emit_operand_as_i32(out, hi);
            self.emit_operand_as_i32(out, amount);
            out.push(WasmOp::I32Rotr);
            out.push(WasmOp::I64ExtendI32U);
        } else if width == 64 {
            self.emit_operand_u64(out, hi);
            self.emit_operand_u64(out, lo);
            self.emit_operand_u64(out, amount);
            out.push(WasmOp::I64Rotr);
        } else {
            self.emit_operand_u64(out, hi);
            self.emit_operand_u64(out, amount);
            out.push(WasmOp::I64Bin(MirBinOp::Shr));
            self.emit_operand_u64(out, lo);
            out.push(WasmOp::I64Const(width as i64));
            self.emit_operand_u64(out, amount);
            out.push(WasmOp::I64Bin(MirBinOp::Sub));
            out.push(WasmOp::I64Bin(MirBinOp::Shl));
            out.push(WasmOp::I64Bin(MirBinOp::Or));
        }
        out.push(WasmOp::LocalSet(self.local(dest)));
        proof {
            reveal(CodeEnv::funnel_code);
            assert(out@ =~= old(out)@ + env.funnel_code(dest, *hi, *lo, *amount, width));
        }
    }

    /// The code of one instruction.
    #[verifier::rlimit(60)]
    pub fn emit_instruction(&self, out: &mut Vec<WasmOp>, inst: &MirInstruction)
        requires
            self.wf(),
        ensures
            final(out)@ == old(out)@ + self.env().inst_code(*inst),
    {
        let ghost env = self.env();
        match inst {
            MirInstruction::Assign { dest, src } => {
                self.emit_operand(out, src);
                out.push(WasmOp::LocalSet(self.local(*dest)));
            },
            MirInstruction::BinaryOperation { dest, op, lhs, rhs, dest_type } => {
                self.emit_binop(out, *dest, *op, lhs, rhs, dest_type);
            },
            MirInstruction::Call { dest, name, args, return_type, .. } => {
                self.emit_call(out, *dest, name, args, return_type);
            },
            MirInstruction::Emit(op) => {
                self.emit_output(out, op);
            },
            MirInstruction::Drop { .. } => {},
            MirInstruction::Alloc { dest, size_bytes } => {
                out.push(WasmOp::GlobalGet(GLOBAL_ARENA_PTR));
                out.push(WasmOp::LocalSet(self.local(*dest)));
                out.push(WasmOp::GlobalGet(GLOBAL_ARENA_PTR));
                self.emit_operand_as_i32(out, size_bytes);
                out.push(WasmOp::I32Bin(MirBinOp::Add));
                out.push(WasmOp::GlobalSet(GLOBAL_ARENA_PTR));
            },
            MirInstruction::StackAlloc { dest, size_bytes } => {
                out.push(WasmOp::GlobalGet(GLOBAL_ARENA_PTR));
                out.push(WasmOp::LocalSet(self.local(*dest)));
                out.push(WasmOp::GlobalGet(GLOBAL_ARENA_PTR));
                out.push(WasmOp::I32Const(#[verifier::truncate] (*size_bytes as i32)));
                out.push(WasmOp::I32Bin(MirBinOp::Add));
                out.push(WasmOp::GlobalSet(GLOBAL_ARENA_PTR));
            },
            MirInstruction::GlobalAlloc { dest, name, .. } => {
                let off: i32 = match find_entry(self.globals, name.as_str()) {
                    Some(i) => #[verifier::truncate] (self.globals[i].1 as i32),
                    None => #[verifier::truncate] (self.arena_start as i32),
                };
                out.push(WasmOp::I32Const(off));
                out.push(WasmOp::LocalSet(self.local(*dest)));
            },
            MirInstruction::SaveArena { dest } => {
                out.push(WasmOp::GlobalGet(GLOBAL_ARENA_PTR));
                out.push(WasmOp::LocalSet(self.local(*dest)));
            },
            MirInstruction::RestoreArena { saved } => {
                self.emit_operand_as_i32(out, saved);
                out.push(WasmOp::GlobalSet(GLOBAL_ARENA_PTR));
            },
            MirInstruction::PointerOffset { dest, ptr, offset } => {
                self.emit_operand_as_i32(out, ptr);
                self.emit_operand_as_i32(out, offset);
                out.push(WasmOp::I32Bin(MirBinOp::Add));
                out.push(WasmOp::LocalSet(self.local(*dest)));
            },
            MirInstruction::Load { dest, ptr, typ } => {
                self.emit_operand_as_i32(out, ptr);
                let load = match typ {
                    OnuType::Boolean | OnuType::Ptr => WasmOp::I32Load { offset: 0, align: 2 },
                    _ => WasmOp::I64Load { offset: 0, align: 3 },
                };
                out.push(load);
                out.push(WasmOp::LocalSet(self.local(*dest)));
            },
            MirInstruction::Store { ptr, value } => {
                self.emit_operand_as_i32(out, ptr);
                self.emit_operand(out, value);
                if self.op_val(value) == ValTy::I64 {
                    out.push(WasmOp::I64Store { offset: 0, align: 3 });
                } else {
                    out.push(WasmOp::I32Store { offset: 0, align: 2 });
                }
            },
            MirInstruction::TypedStore { ptr, value, typ } => {
                self.emit_operand_as_i32(out, ptr);
                self.emit_operand(out, value);
                match typ {
                    OnuType::Boolean | OnuType::Ptr | OnuType::Strings | OnuType::Nothing => {
                        if self.op_val(value) == ValTy::I64 {
                            out.push(WasmOp::I32WrapI64);
                        }
                        out.push(WasmOp::I32Store { offset: 0, align: 2 });
                    },
                    _ => out.push(WasmOp::I64Store { offset: 0, align: 3 }),
                }
            },
            MirInstruction::MemCopy { dest, src, size } => {
                self.emit_operand_as_i32(out, dest);
                self.emit_operand_as_i32(out, src);
                self.emit_operand_as_i32(out, size);
                out.push(WasmOp::MemoryCopy);
            },
            MirInstruction::MemSet { ptr, value, size } => {
                self.emit_operand_as_i32(out, ptr);
                self.emit_operand_as_i32(out, value);
                self.emit_operand_as_i32(out, size);
                out.push(WasmOp::MemoryFill);
            },
            MirInstruction::Promote { dest, src, to_type } => {
                self.emit_operand(out, src);
                let from = self.op_val(src);
                let to = mir_to_wasm_type(to_type);
                if from == ValTy::I32 && to == ValTy::I64 {
                    out.push(WasmOp::I64ExtendI32S);
                } else if from == ValTy::I64 && to == ValTy::I32 {
                    out.push(WasmOp::I32WrapI64);
                }
                out.push(WasmOp::LocalSet(self.local(*dest)));
            },
            MirInstruction::BitCast { dest, src, .. } => {
                self.emit_operand(out, src);
                out.push(WasmOp::LocalSet(self.local(*dest)));
            },
            MirInstruction::Tuple { dest, elements } => {
                self.emit_tuple(out, *dest, elements);
            },
            MirInstruction::Index { dest, subject, index } => {
                self.emit_index(out, *dest, subject, *index);
            },
            MirInstruction::ConstantTableLoad { dest, name, index, .. } => {
                let base: i32 = match find_entry(self.tables, name.as_str()) {
                    Some(i) => #[verifier::truncate] (self.tables[i].1 as i32),
                    None => 0,
                };
                out.push(WasmOp::I32Const(base));
                self.emit_operand_as_i32(out, index);
                out.push(WasmOp::I32Const(8));
                out.push(WasmOp::I32Bin(MirBinOp::Mul));
                out.push(WasmOp::I32Bin(MirBinOp::Add));
                out.push(WasmOp::I64Load { offset: 0, align: 3 });
                out.push(WasmOp::LocalSet(self.local(*dest)));
            },
            MirInstruction::FunnelShiftRight { dest, hi, lo, amount, width } => {
                self.emit_funnel(out, *dest, hi, lo, amount, *width);
            },
            MirInstruction::BufferedWrite { ptr, len } => {
                self.emit_operand_as_i32(out, ptr);
                self.emit_operand_as_i32(out, len);
                out.push(WasmOp::Call(IMPORT_ONU_WRITE));
            },
            MirInstruction::FlushStdout => {},
        }
        assert(out@ =~= old(out)@ + env.inst_code(*inst));
    }

    fn wide(&self, lhs: &MirOperand, rhs: &MirOperand) -> (r: bool)
        requires
            self.wf(),
        ensures
            r == self.env().wide(*lhs, *rhs),
    {
        self.op_val(lhs) == ValTy::I64 || self.op_val(rhs) == ValTy::I64
    }

    fn emit_binop(&self, out: &mut Vec<WasmOp>, dest: usize, op: MirBinOp, lhs: &MirOperand, rhs: &MirOperand, dest_type: &OnuType)
        requires
            self.wf(),
        ensures
            final(out)@ == old(out)@ + self.env().binop_code(dest, op, *lhs, *rhs, *dest_type),
    {
        let ghost env = self.env();
        let use64 = self.wide(lhs, rhs);
        let ghost o0 = out@;
        self.emit_operand_to(out, lhs, use64);
        let ghost o1 = out@;
        self.emit_operand_to(out, rhs, use64);
        let ghost o2 = out@;
        out.push(if use64 { WasmOp::I64Bin(op) } else { WasmOp::I32Bin(op) });
        let ghost o3 = out@;
        emit_result_fix(out, op, use64, dest_type);
        let ghost o4 = out@;
        let set = WasmOp::LocalSet(self.local(dest));
        out.push(set);
        proof {
            let a = env.operand_to(*lhs, use64);
            let b = env.operand_to(*rhs, use64);
            let f = result_fix(op, use64, *dest_type);
            assert(o1 == o0 + a);
            assert(o2 == o1 + b);
            assert(o3 == o2.push(bin_op(op, use64)));
            assert(o4 == o3 + f);
            assert(out@ == o4.push(set));
            assert(out@ =~= o0 + (a + b + seq![bin_op(op, use64)] + f + seq![set]));
            reveal(CodeEnv::binop_code);
            assert(env.binop_code(dest, op, *lhs, *rhs, *dest_type) == a + b + seq![bin_op(op, use64)] + f + seq![set]);
        }
    }
}

/// The body of a WebAssembly function: its extra locals, in order, and its
/// code.
pub struct WasmFunctionBody {
    pub locals: Vec<ValTy>,
    pub code: Vec<WasmOp>,
}

/// The code of a whole function: the program counter set to 0, a loop
/// around `n` nested blocks and a `br_table` on the program counter, the
/// blocks' code, and the closing of the loop and of the function.
pub open spec fn function_code(env: CodeEnv, f: MirFunction, pc: u32) -> Seq<WasmOp> {
    let n = f.blocks@.len();
    seq![WasmOp::I32Const(0), WasmOp::LocalSet(pc), WasmOp::Loop] + Seq::new(n, |i: int| WasmOp::Block)
        + seq![WasmOp::LocalGet(pc), WasmOp::BrTable { count: n as u32, default: if (n as u32) == 0 { 0u32 } else { ((n as u32) - 1) as u32 } },
            WasmOp::Unreachable]
        + env.blocks_code(f.blocks@, f.return_type is Nothing, pc, n, n)
        + seq![WasmOp::End, WasmOp::Unreachable, WasmOp::End]
}

impl<'a> CodeCtx<'a> {
    fn emit_terminator(&self, out: &mut Vec<WasmOp>, t: &MirTerminator, returns_nothing: bool, pc: u32, depth: u32)
        requires
            self.wf(),
        ensures
            final(out)@ == old(out)@ + self.env().term_code(*t, returns_nothing, pc, depth),
    {
        let ghost env = self.env();
        proof {
            reveal(CodeEnv::term_code);
        }
        match t {
            MirTerminator::Return(op) => {
                let is_nothing = match op {
                    MirOperand::Constant(MirLiteral::Nothing) => true,
                    _ => false,
                };
                if !is_nothing && !returns_nothing {
                    self.emit_operand(out, op);
                }
                out.push(WasmOp::Return);
            },
            MirTerminator::Branch(target) => {
                out.push(WasmOp::I32Const(#[verifier::truncate] (*target as i32)));
                out.push(WasmOp::LocalSet(pc));
                out.push(WasmOp::Br(depth));
            },
            MirTerminator::CondBranch { condition, then_block, else_block } => {
                self.emit_operand_as_i32(out, condition);
                out.push(WasmOp::If);
                out.push(WasmOp::I32Const(#[verifier::truncate] (*then_block as i32)));
                out.push(WasmOp::LocalSet(pc));
                out.push(WasmOp::Else);
                out.push(WasmOp::I32Const(#[verifier::truncate] (*else_block as i32)));
                out.push(WasmOp::LocalSet(pc));
                out.push(WasmOp::End);
                out.push(WasmOp::Br(depth));
            },
            MirTerminator::Unreachable => {
                out.push(WasmOp::Unreachable);
            },
        }
        assert(out@ =~= old(out)@ + env.term_code(*t, returns_nothing, pc, depth));
    }

    fn emit_instructions(&self, out: &mut Vec<WasmOp>, insts: &Vec<MirInstruction>)
        requires
            self.wf(),
        ensures
            final(out)@ == old(out)@ + self.env().insts_code(insts@),
    {
        let ghost env = self.env();
        let mut i: usize = 0;
        while i < insts.len()
            invariant
                self.wf(),
                env == self.env(),
                i <= insts@.len(),
                out@ == old(out)@ + env.insts_code(insts@.subrange(0, i as int)),
            decreases insts.len() - i,
        {
            self.emit_instruction(out, &insts[i]);
            proof {
                let next = insts@.subrange(0, i + 1);
                assert(next.drop_last() =~= insts@.subrange(0, i as int));
                assert(next.last() == insts@[i as int]);
                assert(out@ =~= old(out)@ + env.insts_code(next));
            }
            i = i + 1;
        }
        assert(insts@.subrange(0, insts@.len() as int) =~= insts@);
    }

    /// The code of a function whose local map is `self.locals`.
    pub fn emit_function_code(&self, func: &MirFunction) -> (code: Vec<WasmOp>)
        requires
            self.wf(),
            func.blocks@.len() <= u32::MAX,
        ensures
            code@ == function_code(self.env(), *func, self.locals.pc_local),
    {
        let ghost env = self.env();
        let pc = self.locals.pc_local;
        let n = func.blocks.len();
        let mut out: Vec<WasmOp> = Vec::new();
        out.push(WasmOp::I32Const(0));
        out.push(WasmOp::LocalSet(pc));
        out.push(WasmOp::Loop);
        let ghost o0 = out@;
        let mut j: usize = 0;
        while j < n
            invariant
                j <= n,
                out@ == o0 + Seq::new(j as nat, |i: int| WasmOp::Block),
            decreases n - j,
        {
            out.push(WasmOp::Block);
            j = j + 1;
            assert(out@ =~= o0 + Seq::new(j as nat, |i: int| WasmOp::Block));
        }
        let count = n as u32;
        out.push(WasmOp::LocalGet(pc));
        out.push(WasmOp::BrTable { count, default: if count == 0 { 0 } else { count - 1 } });
        out.push(WasmOp::Unreachable);
        let ghost o1 = out@;
        let returns_nothing = match &func.return_type {
            OnuType::Nothing => true,
            _ => false,
        };
        let mut k: usize = 0;
        while k < n
            invariant
                self.wf(),
                env == self.env(),
                n == func.blocks@.len(),
                n <= u32::MAX,
                k <= n,
                pc == self.locals.pc_local,
                returns_nothing == func.return_type is Nothing,
                out@ == o1 + env.blocks_code(func.blocks@, returns_nothing, pc, n as nat, k as nat),
            decreases n - k,
        {
            let ghost before = out@;
            out.push(WasmOp::End);
            self.emit_instructions(&mut out, &func.blocks[k].instructions);
            let depth = (n - 1 - k) as u32;
            self.emit_terminator(&mut out, &func.blocks[k].terminator, returns_nothing, pc, depth);
            proof {
                assert(out@ =~= before + env.block_code(func.blocks@[k as int], returns_nothing, pc, n as nat, k as nat));
            }
            k = k + 1;
        }
        out.push(WasmOp::End);
        out.push(WasmOp::Unreachable);
        out.push(WasmOp::End);
        assert(out@ =~= function_code(env, *func, pc));
        out
    }
}

/// The static data of a program: the bytes of the data segment, and where
/// each interned text (offset, length), constant table and global
/// allocation lies in it.
pub struct Statics {
    pub data: Seq<u8>,
    pub strings: Seq<(String, (u32, u32))>,
    pub tables: Seq<(String, u32)>,
    pub globals: Seq<(String, u32)>,
}

/// `n` zero bytes.
pub open spec fn zeros(n: nat) -> Seq<u8> {
    Seq::new(n, |i: int| 0u8)
}

/// The little-endian bytes of a list of 64-bit integers.
pub open spec fn table_bytes(values: Seq<i64>) -> Seq<u8>
    decreases values.len(),
{
    if values.len() == 0 {
        Seq::empty()
    } else {
        table_bytes(values.drop_last()) + vstd::bytes::spec_u64_to_le_bytes(values.last() as u64)
    }
}

/// The static data after one more instruction: a text output interns its
/// text's UTF-8 bytes, a constant table its values, a global allocation its
/// zeroed bytes, each the first time its text or name is seen, at the end
/// of the data.
pub open spec fn statics_step(st: Statics, inst: MirInstruction) -> Statics {
    let off = st.data.len() as u32;
    match inst {
        MirInstruction::Emit(MirOperand::Constant(MirLiteral::Text(t))) =>
            if lookup_entry(st.strings, t@) is Some {
                st
            } else {
                let bytes = vstd::utf8::encode_utf8(t@);
                Statics {
                    data: st.data + bytes,
                    strings: st.strings.push((t, (off, bytes.len() as u32))),
                    tables: st.tables,
                    globals: st.globals,
                }
            },
        MirInstruction::ConstantTableLoad { name, values, .. } =>
            if lookup_entry(st.tables, name@) is Some {
                st
            } else {
                Statics { data: st.data + table_bytes(values@), strings: st.strings, tables: st.tables.push((name, off)), globals: st.globals }
            },
        MirInstruction::GlobalAlloc { name, size_bytes, .. } =>
            if lookup_entry(st.globals, name@) is Some {
                st
            } else {
                Statics { data: st.data + zeros(size_bytes as nat), strings: st.strings, tables: st.tables, globals: st.globals.push((name, off)) }
            },
        _ => st,
    }
}

pub open spec fn statics_insts(st: Statics, insts: Seq<MirInstruction>) -> Statics
    decreases insts.len(),
{
    if insts.len() == 0 { st } else { statics_step(statics_insts(st, insts.drop_last()), insts.last()) }
}

pub open spec fn statics_blocks(st: Statics, bs: Seq<BasicBlock>) -> Statics
    decreases bs.len(),
{
    if bs.len() == 0 { st } else { statics_insts(statics_blocks(st, bs.drop_last()), bs.last().instructions@) }
}

pub open spec fn statics_fns(st: Statics, fs: Seq<MirFunction>) -> Statics
    decreases fs.len(),
{
    if fs.len() == 0 { st } else { statics_blocks(statics_fns(st, fs.drop_last()), fs.last().blocks@) }
}

/// The static data of a program, before the padding to the arena.
pub open spec fn program_statics(fs: Seq<MirFunction>) -> Statics {
    statics_fns(Statics { data: Seq::empty(), strings: Seq::empty(), tables: Seq::empty(), globals: Seq::empty() }, fs)
}

/// The static data of the program fits in memory.
pub open spec fn statics_fit(fs: Seq<MirFunction>) -> bool {
    program_statics(fs).data.len() <= usize::MAX
}

proof fn lemma_step_grows(st: Statics, inst: MirInstruction)
    ensures
        statics_step(st, inst).data.len() >= st.data.len(),
{
}

proof fn lemma_insts_prefix(st: Statics, xs: Seq<MirInstruction>, m: int)
    requires
        0 <= m <= xs.len(),
    ensures
        statics_insts(st, xs).data.len() >= statics_insts(st, xs.take(m)).data.len(),
        statics_insts(st, xs).data.len() >= st.data.len(),
    decreases xs.len(),
{
    if xs.len() > 0 {
        lemma_step_grows(statics_insts(st, xs.drop_last()), xs.last());
        if m < xs.len() {
            assert(xs.drop_last().take(m) =~= xs.take(m));
            lemma_insts_prefix(st, xs.drop_last(), m);
        } else {
            assert(xs.take(m) =~= xs);
            lemma_insts_prefix(st, xs.drop_last(), 0);
        }
    }
}

proof fn lemma_blocks_prefix(st: Statics, xs: Seq<BasicBlock>, m: int)
    requires
        0 <= m <= xs.len(),
    ensures
        statics_blocks(st, xs).data.len() >= statics_blocks(st, xs.take(m)).data.len(),
        statics_blocks(st, xs).data.len() >= st.data.len(),
    decreases xs.len(),
{
    if xs.len() > 0 {
        let last = xs.last().instructions@;
        lemma_insts_prefix(statics_blocks(st, xs.drop_last()), last, 0);
        if m < xs.len() {
            assert(xs.drop_last().take(m) =~= xs.take(m));
            lemma_blocks_prefix(st, xs.drop_last(), m);
        } else {
            assert(xs.take(m) =~= xs);
            lemma_blocks_prefix(st, xs.drop_last(), 0);
        }
    }
}

proof fn lemma_fns_prefix(st: Statics, xs: Seq<MirFunction>, m: int)
    requires
        0 <= m <= xs.len(),
    ensures
        statics_fns(st, xs).data.len() >= statics_fns(st, xs.take(m)).data.len(),
        statics_fns(st, xs).data.len() >= st.data.len(),
    decreases xs.len(),
{
    if xs.len() > 0 {
        lemma_blocks_prefix(statics_fns(st, xs.drop_last()), xs.last().blocks@, 0);
        if m < xs.len() {
            assert(xs.drop_last().take(m) =~= xs.take(m));
            lemma_fns_prefix(st, xs.drop_last(), m);
        } else {
            assert(xs.take(m) =~= xs);
            lemma_fns_prefix(st, xs.drop_last(), 0);
        }
    }
}

/// Static data being collected.
pub struct StaticsBuilder {
    pub data: Vec<u8>,
    pub strings: Vec<(String, (u32, u32))>,
    pub tables: Vec<(String, u32)>,
    pub globals: Vec<(String, u32)>,
}

proof fn lemma_table_bytes_len(values: Seq<i64>)
    ensures
        table_bytes(values).len() == 8 * values.len(),
    decreases values.len(),
{
    if values.len() > 0 {
        vstd::bytes::lemma_auto_spec_u64_to_from_le_bytes();
        lemma_table_bytes_len(values.drop_last());
    }
}

impl StaticsBuilder {
    pub open spec fn model(&self) -> Statics {
        Statics { data: self.data@, strings: self.strings@, tables: self.tables@, globals: self.globals@ }
    }

    /// How much one more instruction adds to the static data, when the
    /// data then still has a length within `usize`.
    fn growth(&self, inst: &MirInstruction) -> (r: Option<usize>)
        ensures
            match r {
                Some(n) => statics_step(self.model(), *inst).data.len() == self.model().data.len() + n
                    && self.model().data.len() + n <= usize::MAX,
                None => statics_step(self.model(), *inst).data.len() > usize::MAX,
            },
    {
        let len = self.data.len();
        match inst {
            MirInstruction::Emit(MirOperand::Constant(MirLiteral::Text(t))) => {
                if find_entry(&self.strings, t.as_str()).is_none() {
                    let n = t.as_str().as_bytes().len();
                    if n <= usize::MAX - len {
                        Some(n)
                    } else {
                        None
                    }
                } else {
                    Some(0)
                }
            },
            MirInstruction::ConstantTableLoad { name, values, .. } => {
                if find_entry(&self.tables, name.as_str()).is_none() {
                    proof {
                        lemma_table_bytes_len(values@);
                    }
                    let room = (usize::MAX - len) / 8;
                    if values.len() <= room {
                        assert(8 * values.len() <= usize::MAX - len) by (nonlinear_arith)
                            requires
                                values.len() <= room,
                                room == (usize::MAX - len) / 8,
                                len <= usize::MAX;
                        Some(8 * values.len())
                    } else {
                        assert(8 * values.len() > usize::MAX - len) by (nonlinear_arith)
                            requires
                                values.len() > room,
                                room == (usize::MAX - len) / 8,
                                len <= usize::MAX;
                        None
                    }
                } else {
                    Some(0)
                }
            },
            MirInstruction::GlobalAlloc { name, size_bytes, .. } => {
                if find_entry(&self.globals, name.as_str()).is_none() {
                    if *size_bytes <= usize::MAX - len {
                        Some(*size_bytes)
                    } else {
                        None
                    }
                } else {
                    Some(0)
                }
            },
            _ => Some(0),
        }
    }

    fn collect_from_inst(&mut self, inst: &MirInstruction)
        requires
            statics_step(old(self).model(), *inst).data.len() <= usize::MAX,
        ensures
            final(self).model() == statics_step(old(self).model(), *inst),
    {
        let off: u32 = #[verifier::truncate] (self.data.len() as u32);
        match inst {
            MirInstruction::Emit(MirOperand::Constant(MirLiteral::Text(t))) => {
                if find_entry(&self.strings, t.as_str()).is_none() {
                    let bytes = t.as_str().as_bytes();
                    let ghost d0 = self.data@;
                    let mut i: usize = 0;
                    while i < bytes.len()
                        invariant
                            i <= bytes@.len(),
                            bytes@ == vstd::utf8::encode_utf8(t@),
                            self.strings@ == old(self).strings@,
                            self.tables@ == old(self).tables@,
                            self.globals@ == old(self).globals@,
                            self.data@ == d0 + bytes@.subrange(0, i as int),
                        decreases bytes.len() - i,
                    {
                        self.data.push(bytes[i]);
                        i = i + 1;
                        assert(self.data@ =~= d0 + bytes@.subrange(0, i as int));
                    }
                    assert(bytes@.subrange(0, bytes@.len() as int) =~= bytes@);
                    let len: u32 = #[verifier::truncate] (bytes.len() as u32);
                    self.strings.push((t.clone(), (off, len)));
                }
            },
            MirInstruction::ConstantTableLoad { name, values, .. } => {
                if find_entry(&self.tables, name.as_str()).is_none() {
                    let ghost d0 = self.data@;
                    let mut i: usize = 0;
                    while i < values.len()
                        invariant
                            i <= values@.len(),
                            self.data@ == d0 + table_bytes(values@.subrange(0, i as int)),
                            self.strings@ == old(self).strings@,
                            self.tables@ == old(self).tables@,
                            self.globals@ == old(self).globals@,
                        decreases values.len() - i,
                    {
                        let bs = vstd::bytes::u64_to_le_bytes(#[verifier::truncate] (values[i] as u64));
                        let ghost d1 = self.data@;
                        let mut j: usize = 0;
                        while j < bs.len()
                            invariant
                                j <= bs@.len(),
                                self.data@ == d1 + bs@.subrange(0, j as int),
                                self.strings@ == old(self).strings@,
                                self.tables@ == old(self).tables@,
                                self.globals@ == old(self).globals@,
                            decreases bs.len() - j,
                        {
                            self.data.push(bs[j]);
                            j = j + 1;
                            assert(self.data@ =~= d1 + bs@.subrange(0, j as int));
                        }
                        proof {
                            assert(bs@.subrange(0, bs@.len() as int) =~= bs@);
                            let next = values@.subrange(0, i + 1);
                            assert(next.drop_last() =~= values@.subrange(0, i as int));
                            assert(self.data@ =~= d0 + table_bytes(next));
                        }
                        i = i + 1;
                    }
                    assert(values@.subrange(0, values@.len() as int) =~= values@);
                    self.tables.push((name.clone(), off));
                }
            },
            MirInstruction::GlobalAlloc { name, size_bytes, .. } => {
                if find_entry(&self.globals, name.as_str()).is_none() {
                    let _new_len = self.data.len() + *size_bytes;
                    let ghost d0 = self.data@;
                    let mut i: usize = 0;
                    while i < *size_bytes
                        invariant
                            i <= *size_bytes,
                            self.data@ == d0 + zeros(i as nat),
                            self.strings@ == old(self).strings@,
                            self.tables@ == old(self).tables@,
                            self.globals@ == old(self).globals@,
                        decreases *size_bytes - i,
                    {
                        self.data.push(0u8);
                        i = i + 1;
                        assert(self.data@ =~= d0 + zeros(i as nat));
                    }
                    self.globals.push((name.clone(), off));
                }
            },
            _ => {},
        }
    }
}

/// Where the arena starts: after the static data, rounded up to 8 bytes.
pub open spec fn arena_start_of(data_len: nat) -> u32 {
    (((data_len as u32) + 7) as u32) & !7u32
}

/// The static data brought to length `a`: cut, or padded with zeros.
pub open spec fn padded(data: Seq<u8>, a: nat) -> Seq<u8> {
    if a <= data.len() { data.take(a as int) } else { data + zeros((a - data.len()) as nat) }
}

/// The memory pages a module asks for: enough for its static data and a
/// 2 MiB arena, at least 2.
pub open spec fn min_pages_of(static_bytes: nat) -> u64 {
    let p = (static_bytes + 2 * 1024 * 1024 + 65536 - 1) / 65536;
    if p < 2 { 2 } else { p as u64 }
}

/// The signature of a function: its parameters' value types, and its
/// return type's unless it returns nothing.
pub open spec fn fn_sig(f: MirFunction) -> (Seq<ValTy>, Seq<ValTy>) {
    (
        f.args@.map_values(|a: MirArgument| wasm_type(a.typ)),
        if f.return_type is Nothing { Seq::empty() } else { seq![wasm_type(f.return_type)] },
    )
}

/// The distinct signatures of the functions, in order of first use.
pub open spec fn unique_sigs(fs: Seq<MirFunction>) -> Seq<(Seq<ValTy>, Seq<ValTy>)>
    decreases fs.len(),
{
    if fs.len() == 0 {
        Seq::empty()
    } else {
        let u = unique_sigs(fs.drop_last());
        if u.contains(fn_sig(fs.last())) { u } else { u.push(fn_sig(fs.last())) }
    }
}

/// A function signature.
pub struct WasmSignature {
    pub params: Vec<ValTy>,
    pub results: Vec<ValTy>,
}

impl WasmSignature {
    pub open spec fn sig(&self) -> (Seq<ValTy>, Seq<ValTy>) {
        (self.params@, self.results@)
    }
}

/// What an export names.
#[derive(Debug, Clone, Copy, PartialEq, Eq, Hash, Structural)]
pub enum WasmExportKind {
    Func(u32),
    Memory(u32),
}

/// A WebAssembly module, section by section.
pub struct WasmModule {
    /// The function types: the two imports' first, then the program's.
    pub types: Vec<WasmSignature>,
    /// The imported functions: module, name and type index.
    pub imports: Vec<(String, String, u32)>,
    /// The type index of each of the program's functions.
    pub function_types: Vec<u32>,
    pub min_pages: u64,
    pub max_pages: u64,
    /// The initial value of the arena pointer global.
    pub arena_start: u32,
    pub exports: Vec<(String, WasmExportKind)>,
    /// The data segment, placed at address 0.
    pub data: Vec<u8>,
    pub bodies: Vec<WasmFunctionBody>,
}

/// The code-generation knowledge for function `f` of the program `fs`.
pub open spec fn env_for(fs: Seq<MirFunction>, st: Statics, arena_start: u32, f: MirFunction) -> CodeEnv {
    CodeEnv {
        strings: st.strings,
        tables: st.tables,
        globals: st.globals,
        arena_start,
        fns: fs,
        kinds: ssa_kinds(f),
        locals: |x: usize| local_of(f, x),
    }
}

/// `b` is the body of `f`: the extra locals of its local map and its code.
pub open spec fn body_of(fs: Seq<MirFunction>, st: Statics, arena_start: u32, f: MirFunction, b: WasmFunctionBody) -> bool {
    &&& b.locals@.len() == 1 + body_vars(f).len()
    &&& b.locals@[0] == ValTy::I32
    &&& forall|x: usize| body_vars(f).contains(x) ==> #[trigger] b.locals@[1 + var_rank(f, x) as int] == val_of(ssa_kinds(f)[x])
    &&& b.code@ == function_code(env_for(fs, st, arena_start, f), f, f.args@.len() as u32)
}

/// `m` is the module of the program `fs`.
pub open spec fn module_of(fs: Seq<MirFunction>, m: WasmModule) -> bool {
    let st = program_statics(fs);
    let a = arena_start_of(st.data.len());
    let u = unique_sigs(fs);
    &&& m.types@.len() == 2 + u.len()
    &&& m.types@[0].sig() == (seq![ValTy::I32, ValTy::I32], Seq::<ValTy>::empty())
    &&& m.types@[1].sig() == (seq![ValTy::I64], Seq::<ValTy>::empty())
    &&& forall|i: int| 0 <= i < u.len() ==> (#[trigger] m.types@[2 + i]).sig() == u[i]
    &&& m.imports@.len() == 2
    &&& m.imports@[0].0@ == "env"@ && m.imports@[0].1@ == "onu_write"@ && m.imports@[0].2 == 0
    &&& m.imports@[1].0@ == "env"@ && m.imports@[1].1@ == "onu_print_i64"@ && m.imports@[1].2 == 1
    &&& m.function_types@.len() == fs.len()
    &&& forall|k: int| 0 <= k < fs.len() ==> #[trigger] m.function_types@[k] == 2 + u.index_of(fn_sig(fs[k]))
    &&& m.arena_start == a
    &&& m.data@ == padded(st.data, a as nat)
    &&& m.min_pages == min_pages_of(a as nat)
    &&& m.max_pages == 256
    &&& m.exports@.len() == 1 + fs.len()
    &&& m.exports@[0].0@ == "memory"@ && m.exports@[0].1 == WasmExportKind::Memory(0)
    &&& forall|k: int| 0 <= k < fs.len() ==> (#[trigger] m.exports@[1 + k]).0@ == fs[k].name@
        && m.exports@[1 + k].1 == WasmExportKind::Func(fn_index_of(fs, fs[k].name@)->0)
    &&& m.bodies@.len() == fs.len()
    &&& forall|k: int| 0 <= k < fs.len() ==> body_of(fs, st, a, fs[k], #[trigger] m.bodies@[k])
}

/// What the module of a program needs to fit the integer widths of the
/// format: the static data within `usize`, its length plus 7 within `u32`,
/// and the function indices and locals within `u32`.
pub open spec fn module_fits(fs: Seq<MirFunction>) -> bool {
    &&& statics_fit(fs)
    &&& (program_statics(fs).data.len() as u32) + 7 <= u32::MAX
    &&& fs.len() + NUM_IMPORTS <= u32::MAX
    &&& forall|k: int| 0 <= k < fs.len() ==> (#[trigger] fs[k]).args@.len() + 1 + ssa_kinds(fs[k]).dom().len() <= u32::MAX
        && fs[k].blocks@.len() <= u32::MAX
}

/// Whether the module of a program fits the integer widths of the format
/// (what `emit_program` needs of it).
pub fn module_ready(program: &MirProgram) -> (r: bool)
    ensures
        r == module_fits(program.functions@),
{
    let fs = &program.functions;
    let sb = match StaticsBuilder::collect_checked(fs) {
        Some(sb) => sb,
        None => {
            return false;
        },
    };
    let data_len: u32 = #[verifier::truncate] (sb.data.len() as u32);
    if data_len > u32::MAX - 7 {
        return false;
    }
    if fs.len() as u128 + NUM_IMPORTS as u128 > u32::MAX as u128 {
        return false;
    }
    let mut k: usize = 0;
    while k < fs.len()
        invariant
            fs@ == program.functions@,
            k <= fs@.len(),
            forall|j: int| 0 <= j < k ==> (#[trigger] fs@[j]).args@.len() + 1 + ssa_kinds(fs@[j]).dom().len() <= u32::MAX
                && fs@[j].blocks@.len() <= u32::MAX,
        decreases fs.len() - k,
    {
        let kinds = collect_ssa_kinds(&fs[k]);
        let keys = kinds.key_list();
        proof {
            keys@.unique_seq_to_set();
            assert(kinds.view().dom() =~= keys@.to_set());
        }
        if fs[k].args.len() as u128 + 1 + keys.len() as u128 > u32::MAX as u128 || fs[k].blocks.len() as u128 > u32::MAX as u128 {
            proof {
                let f = fs@[k as int];
                assert(!(f.args@.len() + 1 + ssa_kinds(f).dom().len() <= u32::MAX && f.blocks@.len() <= u32::MAX));
            }
            return false;
        }
        k = k + 1;
    }
    true
}

impl StaticsBuilder {
    /// Collects the static data of a program, instruction by instruction;
    /// nothing when its length would leave `usize`.
    pub fn collect_checked(fs: &Vec<MirFunction>) -> (r: Option<StaticsBuilder>)
        ensures
            r is Some <==> statics_fit(fs@),
            r matches Some(sb) ==> sb.model() == program_statics(fs@),
    {
        let ghost init = Statics { data: Seq::empty(), strings: Seq::empty(), tables: Seq::empty(), globals: Seq::empty() };
        let mut sb = StaticsBuilder { data: Vec::new(), strings: Vec::new(), tables: Vec::new(), globals: Vec::new() };
        assert(sb.model() =~= init);
        let mut k: usize = 0;
        while k < fs.len()
            invariant
                k <= fs@.len(),
                statics_fns(init, fs@) == program_statics(fs@),
                sb.model() == statics_fns(init, fs@.take(k as int)),
            decreases fs.len() - k,
        {
            let blocks = &fs[k].blocks;
            let ghost sk = sb.model();
            let mut b: usize = 0;
            while b < blocks.len()
                invariant
                    k < fs@.len(),
                    *blocks == fs@[k as int].blocks,
                    b <= blocks@.len(),
                        statics_fns(init, fs@) == program_statics(fs@),
                    sk == statics_fns(init, fs@.take(k as int)),
                    sb.model() == statics_blocks(sk, blocks@.take(b as int)),
                decreases blocks.len() - b,
            {
                let insts = &blocks[b].instructions;
                let ghost sb0 = sb.model();
                let mut i: usize = 0;
                while i < insts.len()
                    invariant
                        k < fs@.len(),
                        *blocks == fs@[k as int].blocks,
                        b < blocks@.len(),
                        *insts == blocks@[b as int].instructions,
                        i <= insts@.len(),
                                statics_fns(init, fs@) == program_statics(fs@),
                        sk == statics_fns(init, fs@.take(k as int)),
                        sb0 == statics_blocks(sk, blocks@.take(b as int)),
                        sb.model() == statics_insts(sb0, insts@.take(i as int)),
                    decreases insts.len() - i,
                {
                    proof {
                        let xs = insts@;
                        assert(xs.take(i + 1).drop_last() =~= xs.take(i as int));
                        assert(xs.take(i + 1).last() == xs[i as int]);
                        lemma_insts_prefix(sb0, xs, i + 1);
                        let bs = blocks@;
                        assert(bs.take(b + 1).drop_last() =~= bs.take(b as int));
                        assert(bs.take(b + 1).last() == bs[b as int]);
                        lemma_blocks_prefix(sk, bs, b + 1);
                        let f = fs@;
                        assert(f.take(k + 1).drop_last() =~= f.take(k as int));
                        assert(f.take(k + 1).last() == f[k as int]);
                        lemma_fns_prefix(init, f, k + 1);
                        assert(statics_insts(sb0, xs.take(i + 1)) == statics_step(sb.model(), xs[i as int]));
                        assert(statics_blocks(sk, bs.take(b + 1)) == statics_insts(sb0, xs));
                        assert(statics_fns(init, f.take(k + 1)) == statics_blocks(sk, bs));
                    }
                    if sb.growth(&insts[i]).is_none() {
                        return None;
                    }
                    sb.collect_from_inst(&insts[i]);
                    proof {
                        let xs = insts@;
                        assert(xs.take(i + 1).drop_last() =~= xs.take(i as int));
                    }
                    i = i + 1;
                }
                proof {
                    assert(insts@.take(insts@.len() as int) =~= insts@);
                    let bs = blocks@;
                    assert(bs.take(b + 1).drop_last() =~= bs.take(b as int));
                    assert(bs.take(b + 1).last() == bs[b as int]);
                }
                b = b + 1;
            }
            proof {
                assert(blocks@.take(blocks@.len() as int) =~= blocks@);
                let f = fs@;
                assert(f.take(k + 1).drop_last() =~= f.take(k as int));
                assert(f.take(k + 1).last() == f[k as int]);
            }
            k = k + 1;
        }
        assert(fs@.take(fs@.len() as int) =~= fs@);
        assert(sb.data@.len() == sb.data.len());
        Some(sb)
    }

    /// Collects the static data of a program, instruction by instruction.
    pub fn collect(fs: &Vec<MirFunction>) -> (r: StaticsBuilder)
        requires
            statics_fit(fs@),
        ensures
            r.model() == program_statics(fs@),
    {
        match Self::collect_checked(fs) {
            Some(sb) => sb,
            None => StaticsBuilder { data: Vec::new(), strings: Vec::new(), tables: Vec::new(), globals: Vec::new() },
        }
    }
}

fn vals_eq(a: &Vec<ValTy>, b: &Vec<ValTy>) -> (r: bool)
    ensures
        r == (a@ == b@),
{
    if a.len() != b.len() {
        return false;
    }
    let mut i: usize = 0;
    while i < a.len()
        invariant
            a@.len() == b@.len(),
            i <= a@.len(),
            forall|j: int| 0 <= j < i ==> a@[j] == b@[j],
        decreases a.len() - i,
    {
        if a[i] != b[i] {
            return false;
        }
        i = i + 1;
    }
    assert(a@ =~= b@);
    true
}

/// The signature of a function.
fn function_sig(f: &MirFunction) -> (r: WasmSignature)
    ensures
        r.sig() == fn_sig(*f),
{
    let mut params: Vec<ValTy> = Vec::new();
    let mut i: usize = 0;
    while i < f.args.len()
        invariant
            i <= f.args@.len(),
            params@ == f.args@.take(i as int).map_values(|a: MirArgument| wasm_type(a.typ)),
        decreases f.args.len() - i,
    {
        params.push(mir_to_wasm_type(&f.args[i].typ));
        i = i + 1;
        assert(params@ =~= f.args@.take(i as int).map_values(|a: MirArgument| wasm_type(a.typ)));
    }
    assert(f.args@.take(f.args@.len() as int) =~= f.args@);
    let mut results: Vec<ValTy> = Vec::new();
    match &f.return_type {
        OnuType::Nothing => {},
        t => results.push(mir_to_wasm_type(t)),
    }
    assert(results@ =~= fn_sig(*f).1);
    WasmSignature { params, results }
}

/// The position of a signature in a list of signatures, if any.
fn find_sig(sigs: &Vec<WasmSignature>, s: &WasmSignature) -> (r: Option<usize>)
    ensures
        r matches Some(i) ==> i < sigs@.len() && sigs@[i as int].sig() == s.sig()
            && forall|j: int| 0 <= j < i ==> sigs@[j].sig() != s.sig(),
        r is None ==> forall|j: int| 0 <= j < sigs@.len() ==> sigs@[j].sig() != s.sig(),
{
    let mut i: usize = 0;
    while i < sigs.len()
        invariant
            i <= sigs@.len(),
            forall|j: int| 0 <= j < i ==> sigs@[j].sig() != s.sig(),
        decreases sigs.len() - i,
    {
        if vals_eq(&sigs[i].params, &s.params) && vals_eq(&sigs[i].results, &s.results) {
            return Some(i);
        }
        i = i + 1;
    }
    None
}

/// The WebAssembly code generator.
pub struct WasmCodegenStrategy;

impl WasmCodegenStrategy {
    /// The module of a program: its signatures, imports, function types,
    /// memory, arena pointer, exports, data segment, and the body of each
    /// function.
    pub fn emit_program(program: &MirProgram) -> (r: Result<WasmModule, OnuError>)
        requires
            module_fits(program.functions@),
        ensures
            r matches Ok(m) && module_of(program.functions@, m),
    {
        let fs = &program.functions;
        let ghost st = program_statics(fs@);
        let sb = StaticsBuilder::collect(fs);
        let StaticsBuilder { data, strings, tables, globals } = sb;
        let raw: u32 = #[verifier::truncate] (data.len() as u32);
        let arena_start: u32 = (raw + 7) & !7u32;
        let mut data = data;
        let target = arena_start as usize;
        let ghost d0 = data@;
        if target <= data.len() {
            while data.len() > target
                invariant
                    target <= data@.len() <= d0.len(),
                    data@ == d0.take(data@.len() as int),
                decreases data.len(),
            {
                data.pop();
                assert(data@ =~= d0.take(data@.len() as int));
            }
            assert(data@ =~= padded(d0, arena_start as nat));
        } else {
            while data.len() < target
                invariant
                    d0.len() <= data@.len() <= target,
                    data@ == d0 + zeros((data@.len() - d0.len()) as nat),
                decreases target - data.len(),
            {
                data.push(0u8);
                assert(data@ =~= d0 + zeros((data@.len() - d0.len()) as nat));
            }
            assert(data@ =~= padded(d0, arena_start as nat));
        }
        // Signatures: the imports' first, then each distinct signature of the program.
        let mut types: Vec<WasmSignature> = Vec::new();
        let mut p0: Vec<ValTy> = Vec::new();
        p0.push(ValTy::I32);
        p0.push(ValTy::I32);
        types.push(WasmSignature { params: p0, results: Vec::new() });
        let mut p1: Vec<ValTy> = Vec::new();
        p1.push(ValTy::I64);
        types.push(WasmSignature { params: p1, results: Vec::new() });
        assert(types@[0].sig() =~= (seq![ValTy::I32, ValTy::I32], Seq::<ValTy>::empty()));
        assert(types@[1].sig() =~= (seq![ValTy::I64], Seq::<ValTy>::empty()));
        let mut user_sigs: Vec<WasmSignature> = Vec::new();
        let mut k: usize = 0;
        while k < fs.len()
            invariant
                k <= fs@.len(),
                user_sigs@.len() == unique_sigs(fs@.take(k as int)).len(),
                forall|i: int| 0 <= i < user_sigs@.len() ==> #[trigger] user_sigs@[i].sig() == unique_sigs(fs@.take(k as int))[i],
            decreases fs.len() - k,
        {
            let sg = function_sig(&fs[k]);
            let ghost u = unique_sigs(fs@.take(k as int));
            proof {
                assert(fs@.take(k + 1).drop_last() =~= fs@.take(k as int));
                assert(fs@.take(k + 1).last() == fs@[k as int]);
            }
            match find_sig(&user_sigs, &sg) {
                Some(j) => {
                    proof {
                        assert(u[j as int] == fn_sig(fs@[k as int]));
                        assert(u.contains(fn_sig(fs@[k as int])));
                    }
                },
                None => {
                    proof {
                        assert(!u.contains(fn_sig(fs@[k as int]))) by {
                            if u.contains(fn_sig(fs@[k as int])) {
                                let j = choose|j: int| 0 <= j < u.len() && u[j] == fn_sig(fs@[k as int]);
                                assert(user_sigs@[j].sig() == u[j]);
                            }
                        }
                    }
                    user_sigs.push(sg);
                },
            }
            k = k + 1;
        }
        assert(fs@.take(fs@.len() as int) =~= fs@);
        let ghost u = unique_sigs(fs@);
        let mut function_types: Vec<u32> = Vec::new();
        let mut k: usize = 0;
        while k < fs.len()
            invariant
                k <= fs@.len(),
                u == unique_sigs(fs@),
                fs@.len() + NUM_IMPORTS <= u32::MAX,
                user_sigs@.len() == u.len(),
                forall|i: int| 0 <= i < user_sigs@.len() ==> #[trigger] user_sigs@[i].sig() == u[i],
                function_types@.len() == k,
                forall|j: int| 0 <= j < k ==> #[trigger] function_types@[j] == 2 + u.index_of(fn_sig(fs@[j])),
            decreases fs.len() - k,
        {
            let sg = function_sig(&fs[k]);
            let idx = match find_sig(&user_sigs, &sg) {
                Some(j) => j,
                None => 0,
            };
            proof {
                lemma_sig_present(fs@, k as int);
                let j = u.index_of(fn_sig(fs@[k as int]));
                assert(user_sigs@[j].sig() == fn_sig(fs@[k as int]));
                lemma_unique_sigs_distinct(fs@);
                assert(idx as int == j);
                lemma_unique_sigs_len(fs@);
            }
            function_types.push((idx as u32) + 2);
            k = k + 1;
        }
        let mut k: usize = 0;
        while k < user_sigs.len()
            invariant
                k <= user_sigs@.len(),
                u == unique_sigs(fs@),
                types@.len() == 2 + k,
                types@[0].sig() == (seq![ValTy::I32, ValTy::I32], Seq::<ValTy>::empty()),
                types@[1].sig() == (seq![ValTy::I64], Seq::<ValTy>::empty()),
                forall|i: int| 0 <= i < k ==> #[trigger] types@[2 + i].sig() == u[i],
                user_sigs@.len() == u.len(),
                forall|i: int| 0 <= i < user_sigs@.len() ==> #[trigger] user_sigs@[i].sig() == u[i],
            decreases user_sigs.len() - k,
        {
            let sg = WasmSignature { params: copy_vals(&user_sigs[k].params), results: copy_vals(&user_sigs[k].results) };
            let ghost t0 = types@;
            types.push(sg);
            proof {
                assert(user_sigs@[k as int].sig() == u[k as int]);
                assert(types@[2 + k as int].sig() == u[k as int]);
                assert forall|i: int| 0 <= i < k + 1 implies #[trigger] types@[2 + i].sig() == u[i] by {
                    if i < k {
                        assert(types@[2 + i] == t0[2 + i]);
                    }
                }
            }
            k = k + 1;
        }
        let mut imports: Vec<(String, String, u32)> = Vec::new();
        imports.push((String::from_str("env"), String::from_str("onu_write"), 0));
        imports.push((String::from_str("env"), String::from_str("onu_print_i64"), 1));
        let static_bytes = data.len() as u64;
        let pages = (static_bytes + 2 * 1024 * 1024 + 65536 - 1) / 65536;
        let min_pages = if pages < 2 { 2 } else { pages };
        let mut exports: Vec<(String, WasmExportKind)> = Vec::new();
        exports.push((String::from_str("memory"), WasmExportKind::Memory(0)));
        let mut bodies: Vec<WasmFunctionBody> = Vec::new();
        let mut k: usize = 0;
        while k < fs.len()
            invariant
                k <= fs@.len(),
                st == program_statics(fs@),
                module_fits(fs@),
                strings@ == st.strings,
                tables@ == st.tables,
                globals@ == st.globals,
                arena_start == arena_start_of(st.data.len()),
                exports@.len() == 1 + k,
                exports@[0].0@ == "memory"@ && exports@[0].1 == WasmExportKind::Memory(0),
                forall|j: int| 0 <= j < k ==> (#[trigger] exports@[1 + j]).0@ == fs@[j].name@
                    && exports@[1 + j].1 == WasmExportKind::Func(fn_index_of(fs@, fs@[j].name@)->0),
                bodies@.len() == k,
                forall|j: int| 0 <= j < k ==> body_of(fs@, st, arena_start, fs@[j], #[trigger] bodies@[j]),
            decreases fs.len() - k,
        {
            let f = &fs[k];
            let kinds = collect_ssa_kinds(f);
            proof {
                assert(module_fits(fs@));
                assert(fs@[k as int].args@.len() + 1 + ssa_kinds(fs@[k as int]).dom().len() <= u32::MAX);
            }
            let lm = LocalMap::new(f, &kinds);
            let ctx = CodeCtx { strings: &strings, tables: &tables, globals: &globals, arena_start, fns: fs, kinds: &kinds, locals: &lm };
            let idx = match ctx.fn_index(&f.name) {
                Some(i) => i,
                None => 0,
            };
            proof {
                lemma_fn_index_present(fs@, k as int);
            }
            exports.push((f.name.clone(), WasmExportKind::Func(idx)));
            let code = ctx.emit_function_code(f);
            proof {
                let env = env_for(fs@, st, arena_start, fs@[k as int]);
                assert(ctx.env().locals =~= env.locals);
                assert(ctx.env() == env);
            }
            let LocalMap { locals: _, pc_local: _, extra_types } = lm;
            bodies.push(WasmFunctionBody { locals: extra_types, code });
            k = k + 1;
        }
        let m = WasmModule {
            types,
            imports,
            function_types,
            min_pages,
            max_pages: 256,
            arena_start,
            exports,
            data,
            bodies,
        };
        proof {
            reveal_strlit("env");
            reveal_strlit("onu_write");
            reveal_strlit("onu_print_i64");
            reveal_strlit("memory");
        }
        Ok(m)
    }
}

fn copy_vals(v: &Vec<ValTy>) -> (r: Vec<ValTy>)
    ensures
        r@ == v@,
{
    let mut r: Vec<ValTy> = Vec::new();
    let mut i: usize = 0;
    while i < v.len()
        invariant
            i <= v@.len(),
            r@ == v@.take(i as int),
        decreases v.len() - i,
    {
        r.push(v[i]);
        i = i + 1;
        assert(r@ =~= v@.take(i as int));
    }
    assert(v@.take(v@.len() as int) =~= v@);
    r
}

proof fn lemma_sig_present(fs: Seq<MirFunction>, k: int)
    requires
        0 <= k < fs.len(),
    ensures
        unique_sigs(fs).contains(fn_sig(fs[k])),
    decreases fs.len(),
{
    let u = unique_sigs(fs.drop_last());
    if k < fs.len() - 1 {
        assert(fs.drop_last()[k] == fs[k]);
        lemma_sig_present(fs.drop_last(), k);
        if !u.contains(fn_sig(fs.last())) {
            let j = choose|j: int| 0 <= j < u.len() && u[j] == fn_sig(fs[k]);
            assert(u.push(fn_sig(fs.last()))[j] == fn_sig(fs[k]));
        }
    } else {
        if !u.contains(fn_sig(fs.last())) {
            assert(u.push(fn_sig(fs.last()))[u.len() as int] == fn_sig(fs[k]));
        }
    }
}

proof fn lemma_unique_sigs_distinct(fs: Seq<MirFunction>)
    ensures
        unique_sigs(fs).no_duplicates(),
    decreases fs.len(),
{
    if fs.len() > 0 {
        lemma_unique_sigs_distinct(fs.drop_last());
    }
}

proof fn lemma_unique_sigs_len(fs: Seq<MirFunction>)
    ensures
        unique_sigs(fs).len() <= fs.len(),
    decreases fs.len(),
{
    if fs.len() > 0 {
        lemma_unique_sigs_len(fs.drop_last());
    }
}

proof fn lemma_fn_index_present(fs: Seq<MirFunction>, k: int)
    requires
        0 <= k < fs.len(),
    ensures
        fn_index_of(fs, fs[k].name@) is Some,
    decreases fs.len(),
{
    if fs.last().name@ != fs[k].name@ {
        assert(k < fs.len() - 1);
        assert(fs.drop_last()[k] == fs[k]);
        lemma_fn_index_present(fs.drop_last(), k);
    }
}

/// The code of a MIR binary operation applies the same operator: after the
/// code of the two operands (brought to the chosen width) comes the
/// integer instruction of that very operator, at 64 bits when an operand
/// is 64 bits wide and at 32 bits otherwise; so the code computes
/// `lhs op rhs`.
pub proof fn law_binop_keeps_operator(env: CodeEnv, dest: usize, op: MirBinOp, lhs: MirOperand, rhs: MirOperand, dest_type: OnuType)
    ensures
        ({
            let code = env.inst_code(MirInstruction::BinaryOperation { dest, op, lhs, rhs, dest_type });
            let w = env.op_val(lhs) == ValTy::I64 || env.op_val(rhs) == ValTy::I64;
            let n = env.operand_to(lhs, w).len() + env.operand_to(rhs, w).len();
            &&& n < code.len()
            &&& code.subrange(0, n as int) == env.operand_to(lhs, w) + env.operand_to(rhs, w)
            &&& w ==> code[n as int] == WasmOp::I64Bin(op)
            &&& !w ==> code[n as int] == WasmOp::I32Bin(op)
        }),
{
    reveal(CodeEnv::binop_code);
    let w = env.wide(lhs, rhs);
    let a = env.operand_to(lhs, w);
    let b = env.operand_to(rhs, w);
    let code = env.inst_code(MirInstruction::BinaryOperation { dest, op, lhs, rhs, dest_type });
    assert(code == a + b + seq![bin_op(op, w)] + result_fix(op, w, dest_type) + seq![WasmOp::LocalSet(env.local(dest))]);
    assert(code.subrange(0, (a.len() + b.len()) as int) =~= a + b);
    assert(code[(a.len() + b.len()) as int] == bin_op(op, w));
}

} // verus!
