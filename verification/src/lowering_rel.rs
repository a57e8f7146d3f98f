//! What lowering the HIR to the MIR does, as relations between the states
//! of the function builder: `lowers(reg, e, tail, a, b, r)` holds when
//! lowering `e` from the builder state `a` ends in the state `b` with the
//! result `r` (the operand holding the value, or the error). On an error
//! the end state is left open. Where a type is copied, the copy is the same
//! type (`ty_equiv`), not necessarily the same value.

use vstd::prelude::*;
use crate::error::OnuError;
use crate::hir::{HirArgument, HirDiscourse, HirExpression, HirLiteral};
use crate::mir::{MirBinOp, MirFunction, MirInstruction, MirLiteral, MirOperand, MirTerminator};
use crate::mir_builder::{BuilderModel, emitted, innermost_binding, owed, scope_put, ssa_step, types_put};
use crate::mir_lowering::{mir_literal, mir_op, op_result_type, releases};
use crate::registry_service::RegistryService;
use crate::text::nat_digits;
use crate::types::{OnuType, spec_is_resource, ty_equiv};

verus! {

/// A run of builder states and results (a name for quantifying over one).
pub open spec fn trace(ms: Seq<BuilderModel>, rs: Seq<Result<MirOperand, OnuError>>) -> bool {
    true
}

/// A run of builder states with the operands and error of the arguments
/// (a name for quantifying over them).
pub open spec fn call_trace(ms: Seq<BuilderModel>, ops: Seq<MirOperand>, err: Option<OnuError>) -> bool {
    true
}

/// The builder after the innermost scope is closed.
pub open spec fn scope_closed(m: BuilderModel) -> BuilderModel {
    BuilderModel { scopes: if m.scopes.len() > 0 { m.scopes.drop_last() } else { m.scopes }, ..m }
}

/// `r` is the grammar error with the message `msg`.
pub open spec fn fails_with(r: Result<MirOperand, OnuError>, msg: Seq<char>) -> bool {
    r matches Err(OnuError::GrammarViolation { message, .. }) && message@ == msg
}

/// A new empty block (its id its position) is appended.
pub open spec fn created(a: BuilderModel, b: BuilderModel) -> bool {
    &&& b == (BuilderModel { blocks: b.blocks, ..a })
    &&& b.blocks.len() == a.blocks.len() + 1
    &&& b.blocks.drop_last() == a.blocks
    &&& b.blocks.last().id == a.blocks.len()
    &&& b.blocks.last().instructions@.len() == 0
    &&& b.blocks.last().terminator == MirTerminator::Unreachable
}

/// The current block, if any, gets the terminator `term`.
pub open spec fn terminated(a: BuilderModel, b: BuilderModel, term: MirTerminator) -> bool {
    &&& b == (BuilderModel { blocks: b.blocks, ..a })
    &&& match a.current {
        Some(i) => {
            &&& b.blocks.len() == a.blocks.len()
            &&& forall|j: int| 0 <= j < a.blocks.len() && j != i ==> b.blocks[j] == a.blocks[j]
            &&& b.blocks[i as int].id == a.blocks[i as int].id
            &&& b.blocks[i as int].instructions == a.blocks[i as int].instructions
            &&& b.blocks[i as int].terminator == term
        },
        None => b.blocks == a.blocks,
    }
}

/// The block `id`, if it exists, becomes current.
pub open spec fn switched(a: BuilderModel, id: usize) -> BuilderModel {
    BuilderModel { current: if id < a.blocks.len() { Some(id) } else { a.current }, ..a }
}

/// `name` is bound to `v` of type `t` (a copy) in the innermost scope, and
/// the type recorded.
pub open spec fn defined(a: BuilderModel, b: BuilderModel, name: Seq<char>, v: usize, t: OnuType, obs: bool) -> bool {
    &&& types_put(a.types, b.types, v, t)
    &&& b.dynamic == (if a.dynamic.contains_key(v) { a.dynamic } else { a.dynamic.insert(v, false) })
    &&& a.scopes.len() > 0
    &&& b.scopes.len() == a.scopes.len()
    &&& b.scopes.drop_last() == a.scopes.drop_last()
    &&& exists|bt: OnuType| #![trigger scope_put(a.scopes.last(), b.scopes.last(), name, (v, bt, obs))]
        ty_equiv(bt, t) && scope_put(a.scopes.last(), b.scopes.last(), name, (v, bt, obs))
    &&& b == (BuilderModel { types: b.types, dynamic: b.dynamic, scopes: b.scopes, ..a })
}

/// What a variable resolves to: its innermost binding unless consumed.
pub open spec fn variable_result(a: BuilderModel, name: Seq<char>, c: bool, r: Result<MirOperand, OnuError>) -> bool {
    match innermost_binding(a.scopes, name) {
        Some(bd) => if a.consumed.contains(bd.0) {
            fails_with(r, "Unresolved variable: "@ + name)
        } else {
            r == Ok::<MirOperand, OnuError>(MirOperand::Variable(bd.0, c && !bd.2))
        },
        None => fails_with(r, "Unresolved variable: "@ + name),
    }
}

/// A literal: a constant, except text, copied into a new static text
/// variable that the parent owns.
pub open spec fn literal_lowers(l: HirLiteral, a: BuilderModel, b: BuilderModel, r: Result<MirOperand, OnuError>) -> bool {
    match l {
        HirLiteral::Text(s) => {
            let d = a.next_ssa;
            let m = BuilderModel {
                types: a.types.insert(d, OnuType::Strings),
                dynamic: a.dynamic.insert(d, false),
                ..ssa_step(a)
            };
            &&& emitted(m, b, MirInstruction::Assign { dest: d, src: MirOperand::Constant(MirLiteral::Text(s)) })
            &&& r == Ok::<MirOperand, OnuError>(MirOperand::Variable(d, true))
        },
        _ => b == a && r == Ok::<MirOperand, OnuError>(MirOperand::Constant(mir_literal(l))),
    }
}

/// A consumed use of a resource variable is scheduled to be dropped.
pub open spec fn collected(op: MirOperand, a: BuilderModel, b: BuilderModel) -> bool {
    match op {
        MirOperand::Variable(v, c) => if c && a.types.contains_key(v) && spec_is_resource(a.types[v]) {
            exists|t: OnuType| #![trigger a.pending.push((v, t))]
                ty_equiv(t, a.types[v]) && b == (BuilderModel { pending: a.pending.push((v, t)), ..a })
        } else {
            b == a
        },
        _ => b == a,
    }
}

/// Whether a variable is recorded as dynamic.
pub open spec fn dyn_of(m: BuilderModel, v: usize) -> bool {
    m.dynamic.contains_key(v) && m.dynamic[v]
}

/// A manual drop of the value: a drop of its variable, if it is one.
pub open spec fn manual_dropped(op: MirOperand, a: BuilderModel, b: BuilderModel) -> bool {
    match op {
        MirOperand::Variable(v, _) => exists|t: OnuType, nm: String|
            #![trigger emitted(a, b, MirInstruction::Drop { ssa_var: v, typ: t, name: nm, is_dynamic: dyn_of(a, v) })]
            (if a.types.contains_key(v) { ty_equiv(t, a.types[v]) } else { t == OnuType::Nothing })
            && nm@ == "manual_drop"@
            && emitted(a, b, MirInstruction::Drop { ssa_var: v, typ: t, name: nm, is_dynamic: dyn_of(a, v) }),
        _ => b == a,
    }
}

/// A value that is a block's intermediate result is released: a variable
/// of a resource type not yet consumed is marked consumed and, when it is
/// dynamic, dropped.
pub open spec fn block_released(op: MirOperand, a: BuilderModel, b: BuilderModel) -> bool {
    match op {
        MirOperand::Variable(v, _) => if a.types.contains_key(v) && spec_is_resource(a.types[v]) && !a.consumed.contains(v) {
            let marked = BuilderModel { consumed: a.consumed.insert(v), ..a };
            if a.dynamic.contains_key(v) && a.dynamic[v] {
                exists|t: OnuType, name: String| #![trigger emitted(marked, b, MirInstruction::Drop { ssa_var: v, typ: t, name, is_dynamic: true })]
                    ty_equiv(t, a.types[v]) && name@ == "block_inter_"@ + nat_digits(v as nat)
                    && emitted(marked, b, MirInstruction::Drop { ssa_var: v, typ: t, name, is_dynamic: true })
            } else {
                b == marked
            }
        } else {
            b == a
        },
        _ => b == a,
    }
}

/// The value a derivation binds, when it is an unconsumed resource
/// variable, moves: the source is marked consumed.
pub open spec fn claimed(op: MirOperand, a: BuilderModel) -> BuilderModel {
    match op {
        MirOperand::Variable(v, _) => if a.types.contains_key(v) && spec_is_resource(a.types[v]) && !a.consumed.contains(v) {
            BuilderModel { consumed: a.consumed.insert(v), ..a }
        } else {
            a
        },
        _ => a,
    }
}

/// Whether the moved value was dynamic.
pub open spec fn claimed_dynamic(op: MirOperand, a: BuilderModel) -> bool {
    match op {
        MirOperand::Variable(v, _) => a.types.contains_key(v) && spec_is_resource(a.types[v]) && !a.consumed.contains(v)
            && a.dynamic.contains_key(v) && a.dynamic[v],
        _ => false,
    }
}

/// The string tuple `(len, ptr, is_dynamic)` is emitted into `dest`, whose
/// dynamic flag is recorded.
pub open spec fn tupled(a: BuilderModel, b: BuilderModel, dest: usize, len: MirOperand, ptr: MirOperand, is_dynamic: bool) -> bool {
    &&& b.dynamic == a.dynamic.insert(dest, is_dynamic)
    &&& b == (BuilderModel { blocks: b.blocks, dynamic: b.dynamic, ..a })
    &&& match a.current {
        Some(i) => {
            &&& b.blocks.len() == a.blocks.len()
            &&& forall|j: int| 0 <= j < a.blocks.len() && j != i ==> b.blocks[j] == a.blocks[j]
            &&& b.blocks[i as int].id == a.blocks[i as int].id
            &&& b.blocks[i as int].terminator == a.blocks[i as int].terminator
            &&& b.blocks[i as int].instructions@.drop_last() == a.blocks[i as int].instructions@
            &&& b.blocks[i as int].instructions@.len() == a.blocks[i as int].instructions@.len() + 1
            &&& b.blocks[i as int].instructions@.last() matches MirInstruction::Tuple { dest: d, elements }
                && d == dest && elements@ == seq![len, ptr, MirOperand::Constant(MirLiteral::Boolean(is_dynamic))]
        },
        None => b.blocks == a.blocks,
    }
}

/// `lhs joined-with rhs`: lengths and pointers of both texts read, a buffer
/// of the total length allocated, both copied into it, a new dynamic text
/// tuple made of it (SSA variable `a.next_ssa + 7`), and the inputs released.
pub open spec fn joined(lhs: MirOperand, rhs: MirOperand, a: BuilderModel, b: BuilderModel) -> bool {
    let n = a.next_ssa;
    let v = |k: int| MirOperand::Variable((n + k) as usize, false);
    exists|ms: Seq<BuilderModel>| #[trigger] trace(ms, Seq::empty()) && ms.len() == 11 && {
        &&& emitted(ssa_step(a), ms[0], MirInstruction::Index { dest: n, subject: lhs, index: 0 })
        &&& emitted(ssa_step(ms[0]), ms[1], MirInstruction::Index { dest: (n + 1) as usize, subject: rhs, index: 0 })
        &&& emitted(ssa_step(ms[1]), ms[2], MirInstruction::BinaryOperation {
            dest: (n + 2) as usize, op: MirBinOp::Add, lhs: v(0), rhs: v(1), dest_type: OnuType::I64,
        })
        &&& emitted(ssa_step(ms[2]), ms[3], MirInstruction::Alloc { dest: (n + 3) as usize, size_bytes: v(2) })
        &&& emitted(ssa_step(ms[3]), ms[4], MirInstruction::Index { dest: (n + 4) as usize, subject: lhs, index: 1 })
        &&& emitted(ms[4], ms[5], MirInstruction::MemCopy { dest: v(3), src: v(4), size: v(0) })
        &&& emitted(ssa_step(ms[5]), ms[6], MirInstruction::Index { dest: (n + 5) as usize, subject: rhs, index: 1 })
        &&& emitted(ssa_step(ms[6]), ms[7], MirInstruction::PointerOffset { dest: (n + 6) as usize, ptr: v(3), offset: v(0) })
        &&& emitted(ms[7], ms[8], MirInstruction::MemCopy { dest: v(6), src: v(5), size: v(1) })
        &&& tupled(ssa_step(ms[8]), ms[9], (n + 7) as usize, v(2), v(3), true)
        &&& releases(lhs, ms[9], ms[10], "join_lhs_"@)
        &&& releases(rhs, ms[10], b, "join_rhs_"@)
    }
}

/// The arguments the callee takes over (does not only observe) that hold
/// resources are marked consumed and scheduled to be dropped, from the
/// `j`-th on (`ats` and `obs` are the callee's input types and flags).
pub open spec fn marks(ops: Seq<MirOperand>, ats: Seq<OnuType>, obs: Seq<bool>, j: int, a: BuilderModel, b: BuilderModel) -> bool
    decreases ops.len() - j,
{
    if j < 0 || j >= ops.len() {
        b == a
    } else {
        exists|ms: Seq<BuilderModel>| #[trigger] trace(ms, Seq::empty()) && ms.len() == 1 && {
            &&& match ops[j] {
                MirOperand::Variable(v, _) => {
                    let is_obs = j < obs.len() && obs[j];
                    let t = if j < ats.len() { ats[j] } else { OnuType::Nothing };
                    if !is_obs && spec_is_resource(t) {
                        exists|t2: OnuType| #![trigger a.pending.push((v, t2))]
                            ty_equiv(t2, t) && ms[0] == (BuilderModel {
                                consumed: a.consumed.insert(v),
                                pending: a.pending.push((v, t2)),
                                ..a
                            })
                    } else {
                        ms[0] == a
                    }
                },
                _ => ms[0] == a,
            }
            &&& marks(ops, ats, obs, j + 1, ms[0], b)
        }
    }
}

/// The owed drops, from the `k`-th on: each of a dynamic variable not
/// consumed is emitted, named `drop_` and its number.
pub open spec fn owed_dropped(ow: Seq<(usize, OnuType)>, k: int, a: BuilderModel, b: BuilderModel) -> bool
    decreases ow.len() - k,
{
    if k < 0 || k >= ow.len() {
        b == a
    } else {
        let v = ow[k].0;
        exists|ms: Seq<BuilderModel>| #[trigger] trace(ms, Seq::empty()) && ms.len() == 1 && {
            &&& if a.dynamic.contains_key(v) && a.dynamic[v] && !a.consumed.contains(v) {
                exists|t: OnuType, nm: String| #![trigger emitted(a, ms[0], MirInstruction::Drop { ssa_var: v, typ: t, name: nm, is_dynamic: true })]
                    ty_equiv(t, ow[k].1) && nm@ == "drop_"@ + nat_digits(v as nat)
                    && emitted(a, ms[0], MirInstruction::Drop { ssa_var: v, typ: t, name: nm, is_dynamic: true })
            } else {
                ms[0] == a
            }
            &&& owed_dropped(ow, k + 1, ms[0], b)
        }
    }
}

/// Lowering as the parent does it: the expression, then a consumed
/// resource it yields scheduled to be dropped.
pub open spec fn ctx_lowers(reg: RegistryService, e: HirExpression, tail: bool, a: BuilderModel, b: BuilderModel, r: Result<MirOperand, OnuError>) -> bool
    decreases e, 2int,
{
    exists|ms: Seq<BuilderModel>| #[trigger] trace(ms, Seq::empty()) && ms.len() == 1
        && lowers(reg, e, tail, a, ms[0], r)
        && (r matches Ok(op) ==> collected(op, ms[0], b))
}

/// Lowering an expression (see the module's documentation).
pub open spec fn lowers(reg: RegistryService, e: HirExpression, tail: bool, a: BuilderModel, b: BuilderModel, r: Result<MirOperand, OnuError>) -> bool
    decreases e, 1int,
{
    match e {
        HirExpression::Literal(l) => literal_lowers(l, a, b, r),
        HirExpression::Variable(name, c) => b == a && variable_result(a, name@, c, r),
        HirExpression::BinaryOp { .. } => binop_lowers(reg, e, a, b, r),
        HirExpression::Call { .. } => call_lowers(reg, e, a, b, r),
        HirExpression::Derivation { .. } => deriv_lowers(reg, e, tail, a, b, r),
        HirExpression::If { .. } => if_lowers(reg, e, tail, a, b, r),
        HirExpression::Block(_) => block_lowers(reg, e, tail, a, b, r),
        HirExpression::Emit(_) => emit_lowers(reg, e, a, b, r),
        HirExpression::Drop(x) => exists|ms: Seq<BuilderModel>, rs: Seq<Result<MirOperand, OnuError>>| #[trigger] trace(ms, rs)
            && ms.len() == 1 && rs.len() == 1
            && lowers(reg, *x, false, a, ms[0], rs[0])
            && match rs[0] {
                Err(z) => r == Err::<MirOperand, OnuError>(z),
                Ok(op) => manual_dropped(op, ms[0], b) && r == Ok::<MirOperand, OnuError>(MirOperand::Constant(MirLiteral::Nothing)),
            },
        HirExpression::Index { .. } => index_lowers(reg, e, a, b, r),
        HirExpression::ActsAs { .. } => fails_with(r, "Unsupported HIR expression type for MIR lowering: a shape conversion"@),
        HirExpression::Tuple(_) => fails_with(r, "Unsupported HIR expression type for MIR lowering: a tuple"@),
    }
}

/// `left op right`: both operands (as the parent lowers them), the
/// operation into a new variable of the operator's result type, then both
/// operands released.
pub open spec fn binop_lowers(reg: RegistryService, e: HirExpression, a: BuilderModel, b: BuilderModel, r: Result<MirOperand, OnuError>) -> bool
    decreases e, 0int,
{
    match e {
        HirExpression::BinaryOp { op, left, right } => exists|ms: Seq<BuilderModel>, rs: Seq<Result<MirOperand, OnuError>>|
            #[trigger] trace(ms, rs) && ms.len() == 5 && rs.len() == 2
            && ctx_lowers(reg, *left, false, a, ms[0], rs[0])
            && match rs[0] {
                Err(z) => r == Err::<MirOperand, OnuError>(z),
                Ok(o1) => ctx_lowers(reg, *right, false, ms[0], ms[1], rs[1]) && match rs[1] {
                    Err(z) => r == Err::<MirOperand, OnuError>(z),
                    Ok(o2) => {
                        let d = ms[1].next_ssa;
                        &&& emitted(ssa_step(ms[1]), ms[2], MirInstruction::BinaryOperation {
                            dest: d, op: mir_op(op), lhs: o1, rhs: o2, dest_type: op_result_type(op),
                        })
                        &&& releases(o1, ms[2], ms[3], "bin_lhs_"@)
                        &&& releases(o2, ms[3], ms[4], "bin_rhs_"@)
                        &&& b == (BuilderModel { types: ms[4].types.insert(d, op_result_type(op)), ..ms[4] })
                        &&& r == Ok::<MirOperand, OnuError>(MirOperand::Variable(d, true))
                    },
                },
            },
        _ => false,
    }
}

/// `subject[index]` into a new variable, then the subject released.
pub open spec fn index_lowers(reg: RegistryService, e: HirExpression, a: BuilderModel, b: BuilderModel, r: Result<MirOperand, OnuError>) -> bool
    decreases e, 0int,
{
    match e {
        HirExpression::Index { subject, index } => exists|ms: Seq<BuilderModel>, rs: Seq<Result<MirOperand, OnuError>>|
            #[trigger] trace(ms, rs) && ms.len() == 2 && rs.len() == 1
            && ctx_lowers(reg, *subject, false, a, ms[0], rs[0])
            && match rs[0] {
                Err(z) => r == Err::<MirOperand, OnuError>(z),
                Ok(o) => {
                    let d = ms[0].next_ssa;
                    &&& emitted(ssa_step(ms[0]), ms[1], MirInstruction::Index { dest: d, subject: o, index })
                    &&& releases(o, ms[1], b, "index_op_"@)
                    &&& r == Ok::<MirOperand, OnuError>(MirOperand::Variable(d, true))
                },
            },
        _ => false,
    }
}

/// A print of the value, then the value released; the result is nothing.
pub open spec fn emit_lowers(reg: RegistryService, e: HirExpression, a: BuilderModel, b: BuilderModel, r: Result<MirOperand, OnuError>) -> bool
    decreases e, 0int,
{
    match e {
        HirExpression::Emit(x) => exists|ms: Seq<BuilderModel>, rs: Seq<Result<MirOperand, OnuError>>|
            #[trigger] trace(ms, rs) && ms.len() == 2 && rs.len() == 1
            && ctx_lowers(reg, *x, false, a, ms[0], rs[0])
            && match rs[0] {
                Err(z) => r == Err::<MirOperand, OnuError>(z),
                Ok(o) => {
                    &&& emitted(ms[0], ms[1], MirInstruction::Emit(o))
                    &&& releases(o, ms[1], b, "emit_op_"@)
                    &&& r == Ok::<MirOperand, OnuError>(MirOperand::Constant(MirLiteral::Nothing))
                },
            },
        _ => false,
    }
}

/// The arguments `es` lowered in order from `a` to `b`, giving `ops`, or
/// the first error.
pub open spec fn args_lower(reg: RegistryService, es: Seq<HirExpression>, a: BuilderModel, b: BuilderModel, ops: Seq<MirOperand>, err: Option<OnuError>) -> bool
    decreases es, 0int,
{
    if es.len() == 0 {
        b == a && ops.len() == 0 && err is None
    } else {
        exists|ms: Seq<BuilderModel>, rs: Seq<Result<MirOperand, OnuError>>| #[trigger] trace(ms, rs) && ms.len() == 1 && rs.len() == 1
            && lowers(reg, es[0], false, a, ms[0], rs[0])
            && match rs[0] {
                Err(z) => err == Some(z),
                Ok(o) => ops.len() > 0 && ops[0] == o && args_lower(reg, es.drop_first(), ms[0], b, ops.drop_first(), err),
            }
    }
}

/// The call of `name` on `ops` into `d`, with the callee's return and
/// input types (copies), not a tail call.
pub open spec fn call_inst(inst: MirInstruction, d: usize, name: Seq<char>, ops: Seq<MirOperand>, rt: OnuType, ats: Seq<OnuType>) -> bool {
    match inst {
        MirInstruction::Call { dest, name: n, args: xs, return_type, arg_types, is_tail_call } => {
            &&& dest == d
            &&& n@ == name
            &&& xs@ == ops
            &&& ty_equiv(return_type, rt)
            &&& arg_types@.len() == ats.len()
            &&& forall|i: int| 0 <= i < ats.len() ==> ty_equiv(#[trigger] arg_types@[i], ats[i])
            &&& !is_tail_call
        },
        _ => false,
    }
}

/// The types and flags of the callee's signature, when the registry has it.
pub open spec fn callee_types(reg: RegistryService, name: Seq<char>) -> (OnuType, Seq<OnuType>, Seq<bool>) {
    match reg.symbols().spec_lookup(name) {
        Some(s) => (s.return_type, s.input_types@, s.arg_is_observation@),
        None => (OnuType::Nothing, Seq::empty(), Seq::empty()),
    }
}

/// A call: the arguments in order, the arguments the callee takes over
/// marked, then either a `joined-with` spelled out into a new dynamic text,
/// or the call into a new variable with the callee's return type.
pub open spec fn call_lowers(reg: RegistryService, e: HirExpression, a: BuilderModel, b: BuilderModel, r: Result<MirOperand, OnuError>) -> bool
    decreases e, 0int,
{
    match e {
        HirExpression::Call { name, args } => {
            proof {
                broadcast use vstd::std_specs::vec::axiom_vec_decreases_to_view;
                assert(decreases_to!(args => args@));
            }
            exists|ms: Seq<BuilderModel>, ops: Seq<MirOperand>, err: Option<OnuError>|
                #[trigger] call_trace(ms, ops, err) && ms.len() == 3 && args_lower(reg, args@, a, ms[0], ops, err) && match err {
                    Some(z) => r == Err::<MirOperand, OnuError>(z),
                    None => {
                        let (rt, ats, obs) = callee_types(reg, name@);
                        &&& marks(ops, ats, obs, 0, ms[0], ms[1])
                        &&& if name@ == "joined-with"@ && ops.len() == 2 {
                            let d = (ms[1].next_ssa + 7) as usize;
                            &&& joined(ops[0], ops[1], ms[1], ms[2])
                            &&& b == (BuilderModel { types: ms[2].types.insert(d, OnuType::Strings), ..ms[2] })
                            &&& r == Ok::<MirOperand, OnuError>(MirOperand::Variable(d, true))
                        } else {
                            let d = ms[1].next_ssa;
                            &&& exists|inst: MirInstruction| #[trigger] emitted(ssa_step(ms[1]), b, inst)
                                && call_inst(inst, d, name@, ops, rt, ats)
                            &&& r == Ok::<MirOperand, OnuError>(MirOperand::Variable(d, false))
                        }
                    },
                }
        },
        _ => false,
    }
}

/// `let name: typ = value in body`: the value (as the parent lowers it)
/// moves into a new variable (an unconsumed resource source is marked
/// consumed and its dynamic flag carried over), recorded with the type;
/// the body is lowered in a new scope binding `name` to it, which is then
/// closed; the result is the body's.
pub open spec fn deriv_lowers(reg: RegistryService, e: HirExpression, tail: bool, a: BuilderModel, b: BuilderModel, r: Result<MirOperand, OnuError>) -> bool
    decreases e, 0int,
{
    match e {
        HirExpression::Derivation { name, typ, value, body } => exists|ms: Seq<BuilderModel>, rs: Seq<Result<MirOperand, OnuError>>|
            #[trigger] trace(ms, rs) && ms.len() == 6 && rs.len() == 2
            && ctx_lowers(reg, *value, false, a, ms[0], rs[0])
            && match rs[0] {
                Err(z) => r == Err::<MirOperand, OnuError>(z),
                Ok(v) => {
                    let m1 = claimed(v, ms[0]);
                    let s = m1.next_ssa;
                    &&& emitted(ssa_step(m1), ms[1], MirInstruction::Assign { dest: s, src: v })
                    &&& types_put(ms[1].types, ms[2].types, s, typ)
                    &&& ms[2] == (BuilderModel { types: ms[2].types, ..ms[1] })
                    &&& ms[3] == (if claimed_dynamic(v, ms[0]) { BuilderModel { dynamic: ms[2].dynamic.insert(s, true), ..ms[2] } } else { ms[2] })
                    &&& defined(BuilderModel { scopes: ms[3].scopes.push(Seq::empty()), ..ms[3] }, ms[4], name@, s, typ, false)
                    &&& ctx_lowers(reg, *body, tail, ms[4], ms[5], rs[1])
                    &&& match rs[1] {
                        Err(z) => r == Err::<MirOperand, OnuError>(z),
                        Ok(o) => b == scope_closed(ms[5]) && r == Ok::<MirOperand, OnuError>(o),
                    }
                },
            },
        _ => false,
    }
}

/// A block, from the expression `rest[0]` on, with `last` the value so far:
/// each expression (as the parent lowers it, the last one in tail position
/// when the block is), each value but the last released; lowering stops
/// once no block is current. The result is the value of the last
/// expression lowered.
pub open spec fn block_list(reg: RegistryService, rest: Seq<HirExpression>, tail: bool, a: BuilderModel, b: BuilderModel, last: MirOperand, r: Result<MirOperand, OnuError>) -> bool
    decreases rest, 0int,
{
    if rest.len() == 0 {
        b == a && r == Ok::<MirOperand, OnuError>(last)
    } else {
        let is_last = rest.len() == 1;
        exists|ms: Seq<BuilderModel>, rs: Seq<Result<MirOperand, OnuError>>| #[trigger] trace(ms, rs) && ms.len() == 2 && rs.len() == 1
            && ctx_lowers(reg, rest[0], tail && is_last, a, ms[0], rs[0])
            && match rs[0] {
                Err(z) => r == Err::<MirOperand, OnuError>(z),
                Ok(o) => {
                    &&& (if is_last { ms[1] == ms[0] } else { block_released(o, ms[0], ms[1]) })
                    &&& if ms[1].current is None {
                        b == ms[1] && r == Ok::<MirOperand, OnuError>(o)
                    } else {
                        block_list(reg, rest.drop_first(), tail, ms[1], b, o, r)
                    }
                },
            }
    }
}

/// A block of expressions (nothing when it is empty).
pub open spec fn block_lowers(reg: RegistryService, e: HirExpression, tail: bool, a: BuilderModel, b: BuilderModel, r: Result<MirOperand, OnuError>) -> bool
    decreases e, 0int,
{
    match e {
        HirExpression::Block(es) => {
            proof {
                broadcast use vstd::std_specs::vec::axiom_vec_decreases_to_view;
                assert(decreases_to!(es => es@));
            }
            block_list(reg, es@, tail, a, b, MirOperand::Constant(MirLiteral::Nothing), r)
        },
        _ => false,
    }
}

/// A conditional: the condition; the block current then ends branching on
/// it to two new blocks; each arm is lowered from the consumption state
/// before the branch, in its own block; the consumed set after is the union
/// of the arms'. In tail position each arm's last block returns its value,
/// no block is current and the result is nothing. Otherwise a new merge
/// block follows: each arm still open copies its value into a new variable
/// and jumps to it, it becomes current, and the result is that variable.
pub open spec fn if_lowers(reg: RegistryService, e: HirExpression, tail: bool, a: BuilderModel, b: BuilderModel, r: Result<MirOperand, OnuError>) -> bool
    decreases e, 0int,
{
    match e {
        HirExpression::If { condition, then_branch, else_branch } => exists|ms: Seq<BuilderModel>, rs: Seq<Result<MirOperand, OnuError>>|
            #[trigger] trace(ms, rs) && ms.len() == 20 && rs.len() == 3
            && lowers(reg, *condition, false, a, ms[0], rs[0])
            && match rs[0] {
                Err(z) => r == Err::<MirOperand, OnuError>(z),
                Ok(c) => {
                    let t = ms[0].blocks.len() as usize;
                    let f = (t + 1) as usize;
                    &&& created(ms[0], ms[1])
                    &&& created(ms[1], ms[2])
                    &&& terminated(ms[2], ms[3], MirTerminator::CondBranch { condition: c, then_block: t, else_block: f })
                    &&& lowers(reg, *then_branch, tail, switched(ms[3], t), ms[4], rs[1])
                    &&& match rs[1] {
                        Err(z) => r == Err::<MirOperand, OnuError>(z),
                        Ok(o1) => {
                            &&& (if tail { terminated(ms[4], ms[5], MirTerminator::Return(o1)) } else { ms[5] == ms[4] })
                            &&& lowers(reg, *else_branch, tail,
                                switched(BuilderModel { consumed: ms[3].consumed, ..ms[5] }, f), ms[6], rs[2])
                            &&& match rs[2] {
                                Err(z) => r == Err::<MirOperand, OnuError>(z),
                                Ok(o2) => {
                                    &&& (if tail { terminated(ms[6], ms[7], MirTerminator::Return(o2)) } else { ms[7] == ms[6] })
                                    &&& ms[8] == (BuilderModel { consumed: ms[5].consumed.union(ms[7].consumed), ..ms[7] })
                                    &&& if tail {
                                        &&& b == (BuilderModel { current: None, ..ms[8] })
                                        &&& r == Ok::<MirOperand, OnuError>(MirOperand::Constant(MirLiteral::Nothing))
                                    } else {
                                        let m = ms[8].blocks.len() as usize;
                                        let d = ms[8].next_ssa;
                                        &&& created(ms[8], ms[9])
                                        &&& ms[10] == ssa_step(ms[9])
                                        &&& match ms[5].current {
                                            Some(i) => {
                                                &&& emitted(switched(ms[10], i), ms[11], MirInstruction::Assign { dest: d, src: o1 })
                                                &&& terminated(ms[11], ms[12], MirTerminator::Branch(m))
                                            },
                                            None => ms[12] == ms[10],
                                        }
                                        &&& match ms[7].current {
                                            Some(i) => {
                                                &&& emitted(switched(ms[12], i), ms[13], MirInstruction::Assign { dest: d, src: o2 })
                                                &&& terminated(ms[13], ms[14], MirTerminator::Branch(m))
                                            },
                                            None => ms[14] == ms[12],
                                        }
                                        &&& b == switched(ms[14], m)
                                        &&& r == Ok::<MirOperand, OnuError>(MirOperand::Variable(d, false))
                                    }
                                },
                            }
                        },
                    }
                },
            },
        _ => false,
    }
}

/// The builder a function starts from: named, with the return type (a
/// copy), one empty entry block (current), one empty scope, nothing else.
pub open spec fn fresh_builder(m: BuilderModel, name: Seq<char>, rt: OnuType) -> bool {
    &&& m.name == name
    &&& ty_equiv(m.return_type, rt)
    &&& m.args.len() == 0
    &&& m.blocks.len() == 1
    &&& m.blocks[0].id == 0
    &&& m.blocks[0].instructions@.len() == 0
    &&& m.blocks[0].terminator == MirTerminator::Unreachable
    &&& m.current == Some(0usize)
    &&& m.next_ssa == 0
    &&& m.scopes == seq![Seq::<(String, (usize, OnuType, bool))>::empty()]
    &&& m.consumed == Set::<usize>::empty()
    &&& m.types == Map::<usize, OnuType>::empty()
    &&& m.dynamic == Map::<usize, bool>::empty()
    &&& m.pending.len() == 0
}

/// The builder after the parameters `hs` are set up: each gets the next SSA
/// variable, bound under its name (with its observation flag), recorded as
/// a parameter of its type, and not dynamic.
pub open spec fn params_set(hs: Seq<HirArgument>, name: Seq<char>, rt: OnuType, m: BuilderModel) -> bool
    decreases hs.len(),
{
    if hs.len() == 0 {
        fresh_builder(m, name, rt)
    } else {
        let h = hs.last();
        let i = (hs.len() - 1) as usize;
        exists|ms: Seq<BuilderModel>| #[trigger] trace(ms, Seq::empty()) && ms.len() == 2 && {
            &&& params_set(hs.drop_last(), name, rt, ms[0])
            &&& ms[0].next_ssa == i
            &&& defined(ssa_step(ms[0]), ms[1], h.name@, i, h.typ, h.is_observation)
            &&& types_put(ms[1].types, m.types, i, h.typ)
            &&& m == (BuilderModel {
                args: m.args,
                types: m.types,
                dynamic: ms[1].dynamic.insert(i, false),
                ..ms[1]
            })
            &&& m.args.len() == ms[1].args.len() + 1
            &&& m.args.drop_last() == ms[1].args
            &&& m.args.last().name@ == h.name@
            &&& ty_equiv(m.args.last().typ, h.typ)
            &&& m.args.last().ssa_var == i
        }
    }
}

/// A behavior lowered: the parameters set up, the body lowered in tail
/// position; if a block is still current, the drops owed then are emitted
/// (of the dynamic ones not consumed) and it returns the body's value. The
/// function has the builder's name, parameters, return type and blocks.
pub open spec fn function_lowers(reg: RegistryService, hs: Seq<HirArgument>, name: Seq<char>, rt: OnuType, body: HirExpression, r: Result<MirFunction, OnuError>) -> bool {
    exists|ms: Seq<BuilderModel>, rs: Seq<Result<MirOperand, OnuError>>| #[trigger] trace(ms, rs) && ms.len() == 4 && rs.len() == 1
        && params_set(hs, name, rt, ms[0])
        && lowers(reg, body, true, ms[0], ms[1], rs[0])
        && match rs[0] {
            Err(z) => r == Err::<MirFunction, OnuError>(z),
            Ok(o) => {
                &&& (if ms[1].current is Some {
                    &&& owed_dropped(owed(ms[1].pending, ms[1].consumed), 0, BuilderModel { pending: Seq::empty(), ..ms[1] }, ms[2])
                    &&& terminated(ms[2], ms[3], MirTerminator::Return(o))
                } else {
                    ms[3] == ms[1]
                })
                &&& r matches Ok(f) && f.name@ == ms[3].name && f.args@ == ms[3].args && f.return_type == ms[3].return_type
                    && f.blocks@ == ms[3].blocks && !f.is_pure_data_leaf && f.diminishing@.len() == 0 && f.memo_cache_size is None
            },
        }
}

/// The behavior `d` lowers with the result `r` (false for other units).
pub open spec fn behavior_lowers(reg: RegistryService, d: HirDiscourse, r: Result<MirFunction, OnuError>) -> bool {
    match d {
        HirDiscourse::Behavior { header, body } => function_lowers(reg, header.args@, header.name@, header.return_type, body, r),
        _ => false,
    }
}

} // verus!
