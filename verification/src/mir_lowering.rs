//! Lowering of the HIR to the MIR: each behavior becomes a function built
//! with a `MirBuilder`; expressions become instructions over SSA variables,
//! with every resource a parent consumes released (dropped when it is
//! dynamic) right after its use.

use vstd::prelude::*;
use crate::error::{OnuError, Span};
use crate::hir::{HirArgument, HirBehaviorHeader, HirBinOp, HirDiscourse, HirExpression, HirLiteral};
use crate::mir::{MirArgument, MirBinOp, MirFunction, MirInstruction, MirLiteral, MirOperand, MirProgram, MirTerminator};
use crate::mir_builder::{BuilderModel, MirBuilder, drop_entry, drops_listed, emitted, innermost_binding, owed, ssa_step, scope_put, types_put};
use crate::lowering_rel::{args_lower, call_inst, call_trace, callee_types, defined, dyn_of, behavior_lowers, function_lowers, marks, owed_dropped, params_set};
use crate::lowering_rel::{binop_lowers, block_list, block_lowers, block_released, call_lowers, claimed, claimed_dynamic, collected, ctx_lowers, deriv_lowers, emit_lowers, if_lowers, index_lowers, literal_lowers, lowers, trace, variable_result};
use crate::registry_service::RegistryService;
use crate::stdlib_lowering::{StdlibLowering, join_width};
use crate::text::{concat2, count_text, nat_digits, owned, str_eq};
use crate::types::{OnuType, lemma_ty_equiv_refl, lemma_ty_equiv_trans, spec_is_resource, ty_equiv};

verus! {

/// A bound on the SSA variables the lowering of an expression takes: one
/// per node, and a join's worth per call.
pub open spec fn hir_size(e: HirExpression) -> nat
    decreases e,
{
    proof {
        broadcast use vstd::std_specs::vec::axiom_vec_decreases_to_view;
    }
    match e {
        HirExpression::Call { args, .. } => {
            proof {
                assert(decreases_to!(args => args@));
            }
            join_width() + hir_size_list(args@)
        },
        HirExpression::BinaryOp { left, right, .. } => 1 + hir_size(*left) + hir_size(*right),
        HirExpression::Derivation { value, body, .. } => 1 + hir_size(*value) + hir_size(*body),
        HirExpression::If { condition, then_branch, else_branch } =>
            1 + hir_size(*condition) + hir_size(*then_branch) + hir_size(*else_branch),
        HirExpression::ActsAs { subject, .. } => 1 + hir_size(*subject),
        HirExpression::Tuple(es) => {
            proof {
                assert(decreases_to!(es => es@));
            }
            1 + hir_size_list(es@)
        },
        HirExpression::Index { subject, .. } => 1 + hir_size(*subject),
        HirExpression::Block(es) => {
            proof {
                assert(decreases_to!(es => es@));
            }
            1 + hir_size_list(es@)
        },
        HirExpression::Emit(x) => 1 + hir_size(*x),
        HirExpression::Drop(x) => 1 + hir_size(*x),
        _ => 1,
    }
}

/// The number of nodes of a list of expressions.
pub open spec fn hir_size_list(es: Seq<HirExpression>) -> nat
    decreases es,
{
    if es.len() == 0 {
        0
    } else {
        proof {
            assert(decreases_to!(es => es[es.len() - 1]));
        }
        hir_size_list(es.subrange(0, es.len() - 1)) + hir_size(es[es.len() - 1])
    }
}

/// An expression that names no variable and uses only what the lowering
/// supports (no shape conversion, no tuple): its lowering cannot fail.
pub open spec fn var_free(e: HirExpression) -> bool
    decreases e,
{
    proof {
        broadcast use vstd::std_specs::vec::axiom_vec_decreases_to_view;
    }
    match e {
        HirExpression::Literal(_) => true,
        HirExpression::Variable(..) => false,
        HirExpression::Call { args, .. } => {
            proof {
                assert(decreases_to!(args => args@));
            }
            forall|k: int| 0 <= k < args@.len() ==> var_free(#[trigger] args@[k])
        },
        HirExpression::BinaryOp { left, right, .. } => var_free(*left) && var_free(*right),
        HirExpression::Derivation { value, body, .. } => var_free(*value) && var_free(*body),
        HirExpression::If { condition, then_branch, else_branch } =>
            var_free(*condition) && var_free(*then_branch) && var_free(*else_branch),
        HirExpression::ActsAs { .. } => false,
        HirExpression::Tuple(_) => false,
        HirExpression::Index { subject, .. } => var_free(*subject),
        HirExpression::Block(es) => {
            proof {
                assert(decreases_to!(es => es@));
            }
            forall|k: int| 0 <= k < es@.len() ==> var_free(#[trigger] es@[k])
        },
        HirExpression::Emit(x) => var_free(*x),
        HirExpression::Drop(x) => var_free(*x),
    }
}

/// The number of nodes of an expression, when it is at most `limit`.
pub fn hir_size_within(e: &HirExpression, limit: usize) -> (r: Option<usize>)
    ensures
        match r {
            Some(n) => n == hir_size(*e) && n <= limit,
            None => hir_size(*e) > limit,
        },
    decreases *e, 1int,
{
    match e {
        HirExpression::Call { args, .. } => {
            if limit < 8 {
                return None;
            }
            match hir_size_list_within(args, limit - 8) {
                Some(n) => Some(n + 8),
                None => None,
            }
        },
        HirExpression::BinaryOp { left, right, .. } => {
            if limit < 1 {
                return None;
            }
            let a = match hir_size_within(left, limit - 1) {
                Some(a) => a,
                None => {
                    return None;
                },
            };
            match hir_size_within(right, limit - 1 - a) {
                Some(b) => Some(1 + a + b),
                None => None,
            }
        },
        HirExpression::Derivation { value, body, .. } => {
            if limit < 1 {
                return None;
            }
            let a = match hir_size_within(value, limit - 1) {
                Some(a) => a,
                None => {
                    return None;
                },
            };
            match hir_size_within(body, limit - 1 - a) {
                Some(b) => Some(1 + a + b),
                None => None,
            }
        },
        HirExpression::If { condition, then_branch, else_branch } => {
            if limit < 1 {
                return None;
            }
            let a = match hir_size_within(condition, limit - 1) {
                Some(a) => a,
                None => {
                    return None;
                },
            };
            let b = match hir_size_within(then_branch, limit - 1 - a) {
                Some(b) => b,
                None => {
                    return None;
                },
            };
            match hir_size_within(else_branch, limit - 1 - a - b) {
                Some(c) => Some(1 + a + b + c),
                None => None,
            }
        },
        HirExpression::ActsAs { subject, .. } | HirExpression::Index { subject, .. } => {
            if limit < 1 {
                return None;
            }
            match hir_size_within(subject, limit - 1) {
                Some(n) => Some(n + 1),
                None => None,
            }
        },
        HirExpression::Emit(x) | HirExpression::Drop(x) => {
            if limit < 1 {
                return None;
            }
            match hir_size_within(x, limit - 1) {
                Some(n) => Some(n + 1),
                None => None,
            }
        },
        HirExpression::Tuple(es) | HirExpression::Block(es) => {
            if limit < 1 {
                return None;
            }
            match hir_size_list_within(es, limit - 1) {
                Some(n) => Some(n + 1),
                None => None,
            }
        },
        _ => {
            if limit < 1 {
                None
            } else {
                Some(1)
            }
        },
    }
}

/// The number of nodes of a list of expressions, when it is at most `limit`.
pub fn hir_size_list_within(es: &Vec<HirExpression>, limit: usize) -> (r: Option<usize>)
    ensures
        match r {
            Some(n) => n == hir_size_list(es@) && n <= limit,
            None => hir_size_list(es@) > limit,
        },
    decreases *es, 0int,
{
    let mut acc: usize = 0;
    let mut i: usize = 0;
    proof {
        assert(es@.take(0) =~= Seq::<HirExpression>::empty());
    }
    while i < es.len()
        invariant
            i <= es@.len(),
            acc == hir_size_list(es@.take(i as int)),
            acc <= limit,
        decreases es@.len() - i,
    {
        proof {
            lemma_size_list_prefix(es@, i as int);
            broadcast use vstd::std_specs::vec::axiom_vec_decreases_to_view;
            assert(decreases_to!(*es => es@));
            assert(decreases_to!(es@ => es@[i as int]));
        }
        match hir_size_within(&es[i], limit - acc) {
            Some(n) => {
                acc = acc + n;
            },
            None => {
                return None;
            },
        }
        i = i + 1;
    }
    proof {
        assert(es@.take(i as int) =~= es@);
    }
    Some(acc)
}

/// Whether every behavior's parameters and body leave room in the SSA
/// counter (what `lower_program` needs of its units).
pub fn lowering_fits(ds: &[HirDiscourse]) -> (r: bool)
    ensures
        r == program_fits(ds@),
{
    let mut i: usize = 0;
    while i < ds.len()
        invariant
            i <= ds@.len(),
            forall|j: int| 0 <= j < i ==> (#[trigger] ds@[j] matches HirDiscourse::Behavior { header, body }
                ==> header.args@.len() + hir_size(body) <= usize::MAX),
        decreases ds@.len() - i,
    {
        if let HirDiscourse::Behavior { header, body } = &ds[i] {
            if hir_size_within(body, usize::MAX - header.args.len()).is_none() {
                proof {
                    assert(ds@[i as int] matches HirDiscourse::Behavior { header, body });
                }
                return false;
            }
        }
        i = i + 1;
    }
    true
}

proof fn lemma_size_list_prefix(es: Seq<HirExpression>, i: int)
    requires
        0 <= i < es.len(),
    ensures
        hir_size_list(es.take(i)) + hir_size(es[i]) <= hir_size_list(es),
        hir_size_list(es.take(i + 1)) == hir_size_list(es.take(i)) + hir_size(es[i]),
    decreases es.len(),
{
    let t1 = es.take(i + 1);
    assert(t1.subrange(0, t1.len() - 1) =~= es.take(i));
    assert(t1[t1.len() - 1] == es[i]);
    let d = es.subrange(0, es.len() - 1);
    if i < es.len() - 1 {
        lemma_size_list_prefix(d, i);
        assert(d.take(i) =~= es.take(i));
        assert(d.take(i + 1) =~= es.take(i + 1));
    } else {
        assert(d =~= es.take(i));
    }
}

/// The builder keeps the function's name, return type and parameters.
pub open spec fn same_header(a: BuilderModel, b: BuilderModel) -> bool {
    &&& b.name == a.name
    &&& b.return_type == a.return_type
    &&& b.args == a.args
}

/// The MIR operator of a HIR operator.
pub open spec fn mir_op(op: HirBinOp) -> MirBinOp {
    match op {
        HirBinOp::Add => MirBinOp::Add,
        HirBinOp::Sub => MirBinOp::Sub,
        HirBinOp::Mul => MirBinOp::Mul,
        HirBinOp::Div => MirBinOp::Div,
        HirBinOp::Equal => MirBinOp::Eq,
        HirBinOp::NotEqual => MirBinOp::Ne,
        HirBinOp::LessThan => MirBinOp::Lt,
        HirBinOp::GreaterThan => MirBinOp::Gt,
    }
}

/// The type of the result of a HIR operator: comparisons give booleans,
/// arithmetic 64-bit integers.
pub open spec fn op_result_type(op: HirBinOp) -> OnuType {
    match op {
        HirBinOp::Equal | HirBinOp::NotEqual | HirBinOp::LessThan | HirBinOp::GreaterThan => OnuType::Boolean,
        _ => OnuType::I64,
    }
}

fn lower_op(op: HirBinOp) -> (r: (MirBinOp, OnuType))
    ensures
        r.0 == mir_op(op),
        r.1 == op_result_type(op),
{
    match op {
        HirBinOp::Add => (MirBinOp::Add, OnuType::I64),
        HirBinOp::Sub => (MirBinOp::Sub, OnuType::I64),
        HirBinOp::Mul => (MirBinOp::Mul, OnuType::I64),
        HirBinOp::Div => (MirBinOp::Div, OnuType::I64),
        HirBinOp::Equal => (MirBinOp::Eq, OnuType::Boolean),
        HirBinOp::NotEqual => (MirBinOp::Ne, OnuType::Boolean),
        HirBinOp::LessThan => (MirBinOp::Lt, OnuType::Boolean),
        HirBinOp::GreaterThan => (MirBinOp::Gt, OnuType::Boolean),
    }
}

/// The parameters of a lowered function: those of the header, in order,
/// the `i`-th bound to SSA variable `i`.
pub open spec fn args_lowered(h: Seq<HirArgument>, a: Seq<MirArgument>) -> bool {
    &&& a.len() == h.len()
    &&& forall|i: int| 0 <= i < h.len() ==> {
        &&& (#[trigger] a[i]).name@ == h[i].name@
        &&& ty_equiv(a[i].typ, h[i].typ)
        &&& a[i].ssa_var == i
    }
}

/// `f` is the function of the behavior with header `h`: its name, return
/// type and parameters, with blocks numbered by position.
pub open spec fn function_lowered(h: HirBehaviorHeader, f: MirFunction) -> bool {
    &&& f.name@ == h.name@
    &&& ty_equiv(f.return_type, h.return_type)
    &&& args_lowered(h.args@, f.args@)
    &&& f.blocks@.len() > 0
    &&& forall|j: int| 0 <= j < f.blocks@.len() ==> (#[trigger] f.blocks@[j]).id == j
}

/// The behaviors among the units, in order.
pub open spec fn behaviors(ds: Seq<HirDiscourse>) -> Seq<HirDiscourse>
    decreases ds.len(),
{
    if ds.len() == 0 {
        Seq::empty()
    } else if ds.last() is Behavior {
        behaviors(ds.drop_last()).push(ds.last())
    } else {
        behaviors(ds.drop_last())
    }
}

/// `f` is the function of the behavior `d`.
pub open spec fn lowered_at(d: HirDiscourse, f: MirFunction) -> bool {
    match d {
        HirDiscourse::Behavior { header, .. } => function_lowered(header, f),
        _ => false,
    }
}

/// The program has one function per behavior, in order.
pub open spec fn program_lowered(ds: Seq<HirDiscourse>, fs: Seq<MirFunction>) -> bool {
    &&& fs.len() == behaviors(ds).len()
    &&& forall|k: int| 0 <= k < fs.len() ==> lowered_at(behaviors(ds)[k], #[trigger] fs[k])
}

/// Every behavior's parameters and body leave room in the SSA counter.
pub open spec fn program_fits(ds: Seq<HirDiscourse>) -> bool {
    forall|i: int| 0 <= i < ds.len() ==> (#[trigger] ds[i] matches HirDiscourse::Behavior { header, body }
        ==> header.args@.len() + hir_size(body) <= usize::MAX)
}

/// A run of lowered functions (a name for quantifying over them).
pub open spec fn functions_trace(fs: Seq<MirFunction>) -> bool {
    true
}

/// The program of the units `ds` with the result `r`: on success one
/// function per behavior, in order, each its behavior lowered; on failure
/// the error of the first behavior that fails, all before it lowering.
pub open spec fn program_lowers(reg: RegistryService, ds: Seq<HirDiscourse>, r: Result<MirProgram, OnuError>) -> bool {
    let bs = behaviors(ds);
    match r {
        Ok(p) => {
            &&& p.functions@.len() == bs.len()
            &&& forall|k: int| 0 <= k < bs.len() ==> behavior_lowers(reg, bs[k], Ok::<MirFunction, OnuError>(#[trigger] p.functions@[k]))
        },
        Err(e) => exists|fs: Seq<MirFunction>| #[trigger] functions_trace(fs) && {
            &&& fs.len() < bs.len()
            &&& forall|k: int| 0 <= k < fs.len() ==> behavior_lowers(reg, bs[k], Ok::<MirFunction, OnuError>(#[trigger] fs[k]))
            &&& behavior_lowers(reg, bs[fs.len() as int], Err::<MirFunction, OnuError>(e))
        },
    }
}

/// The behaviors of a prefix of the units are a prefix of those of a
/// longer one.
pub proof fn lemma_behaviors_prefix(ds: Seq<HirDiscourse>, i: int, j: int)
    requires
        0 <= i <= j <= ds.len(),
    ensures
        behaviors(ds.take(i)).len() <= behaviors(ds.take(j)).len(),
        forall|k: int| 0 <= k < behaviors(ds.take(i)).len() ==> #[trigger] behaviors(ds.take(i))[k] == behaviors(ds.take(j))[k],
    decreases j - i,
{
    if i < j {
        lemma_behaviors_prefix(ds, i, j - 1);
        assert(ds.take(j).drop_last() =~= ds.take(j - 1));
    }
}

/// No behavior's body names a variable or uses an unsupported form.
pub open spec fn program_var_free(ds: Seq<HirDiscourse>) -> bool {
    forall|i: int| 0 <= i < ds.len() ==> (#[trigger] ds[i] matches HirDiscourse::Behavior { body, .. } ==> var_free(body))
}

/// The MIR constant of a HIR literal.
pub open spec fn mir_literal(l: HirLiteral) -> MirLiteral {
    match l {
        HirLiteral::I64(n) => MirLiteral::I64(n),
        HirLiteral::F64(b) => MirLiteral::F64(b),
        HirLiteral::Boolean(v) => MirLiteral::Boolean(v),
        HirLiteral::Text(t) => MirLiteral::Text(t),
        HirLiteral::Nothing => MirLiteral::Nothing,
    }
}

/// A lowering error with its message.
fn lowering_error(message: String) -> (e: OnuError)
    ensures
        e matches OnuError::GrammarViolation { message: m, .. } && m@ == message@,
{
    OnuError::GrammarViolation { message, span: Span::empty() }
}

/// The environment of a lowering: the registry of behavior signatures.
pub struct LoweringContext<'a> {
    pub registry: &'a RegistryService,
}

/// The lowering of the HIR to the MIR.
pub struct MirLoweringService<'a> {
    pub context: LoweringContext<'a>,
}

impl<'a> LoweringContext<'a> {
    /// Lowers a sub-expression whose value the parent takes over: as
    /// `MirLoweringService::lower_expression`, then a consumed resource the
    /// expression yields is scheduled to be dropped.
    pub fn lower_expression(&self, expr: &HirExpression, builder: &mut MirBuilder, is_tail: bool) -> (r: Result<MirOperand, OnuError>)
        requires
            old(builder).wf(),
            old(builder)@.next_ssa + hir_size(*expr) <= usize::MAX,
        ensures
            final(builder).wf(),
            same_header(old(builder)@, final(builder)@),
            old(builder)@.next_ssa <= final(builder)@.next_ssa <= old(builder)@.next_ssa + hir_size(*expr),
            r matches Err(e) ==> e is GrammarViolation,
            r is Ok ==> final(builder)@.scopes == old(builder)@.scopes,
            var_free(*expr) ==> r is Ok,
            old(builder)@.blocks.len() <= final(builder)@.blocks.len(),
            ctx_lowers(*self.registry, *expr, is_tail, old(builder)@, final(builder)@, r),
        decreases *expr, 2int,
    {
        let service = MirLoweringService { context: LoweringContext { registry: self.registry } };
        let r0 = service.lower_expression(expr, builder, is_tail);
        let ghost m = builder@;
        proof {
            assert(trace(seq![m], Seq::empty()));
        }
        let res = match r0 {
            Ok(res) => res,
            Err(e) => {
                return Err(e);
            },
        };
        service.collect_resource_drop(&res, builder);
        Ok(res)
    }
}

impl<'a> MirLoweringService<'a> {
    pub fn new(registry: &'a RegistryService) -> (r: MirLoweringService<'a>)
        ensures
            r.context.registry == registry,
    {
        MirLoweringService { context: LoweringContext { registry } }
    }

    /// The MIR program of the units: one function per behavior, in order;
    /// the first behavior that fails to lower fails the program.
    pub fn lower_program(&self, discourses: &[HirDiscourse]) -> (r: Result<MirProgram, OnuError>)
        requires
            program_fits(discourses@),
        ensures
            r matches Ok(p) ==> program_lowered(discourses@, p.functions@),
            r matches Err(e) ==> e is GrammarViolation,
            program_var_free(discourses@) ==> r is Ok,
            program_lowers(*self.context.registry, discourses@, r),
    {
        let mut functions: Vec<MirFunction> = Vec::new();
        let ghost ds = discourses@;
        let ghost reg = *self.context.registry;
        let mut i: usize = 0;
        proof {
            assert(ds.take(0) =~= Seq::<HirDiscourse>::empty());
        }
        while i < discourses.len()
            invariant
                ds == discourses@,
                reg == *self.context.registry,
                program_fits(ds),
                i <= ds.len(),
                program_lowered(ds.take(i as int), functions@),
                forall|k: int| 0 <= k < functions@.len() ==> behavior_lowers(reg, behaviors(ds.take(i as int))[k], Ok::<MirFunction, OnuError>(#[trigger] functions@[k])),
            decreases ds.len() - i,
        {
            let ghost before = functions@;
            proof {
                assert(ds.take(i as int + 1).drop_last() =~= ds.take(i as int));
                assert(ds.take(i as int + 1).last() == ds[i as int]);
            }
            if let HirDiscourse::Behavior { header, body } = &discourses[i] {
                proof {
                    assert(ds[i as int] matches HirDiscourse::Behavior { header, body });
                }
                let f = match self.lower_function(header, body) {
                    Ok(f) => f,
                    Err(e) => {
                        proof {
                            let b1 = behaviors(ds.take(i as int + 1));
                            assert(b1 == behaviors(ds.take(i as int)).push(ds[i as int]));
                            lemma_behaviors_prefix(ds, i as int + 1, ds.len() as int);
                            assert(ds.take(ds.len() as int) =~= ds);
                            let bs = behaviors(ds);
                            assert(bs[before.len() as int] == b1[before.len() as int]);
                            assert forall|k: int| 0 <= k < before.len() implies behavior_lowers(reg, bs[k], Ok::<MirFunction, OnuError>(#[trigger] before[k])) by {
                                assert(bs[k] == b1[k]);
                            }
                            assert(functions_trace(before));
                        }
                        return Err(e);
                    },
                };
                functions.push(f);
                proof {
                    let b = behaviors(ds.take(i as int + 1));
                    assert(b == behaviors(ds.take(i as int)).push(ds[i as int]));
                    assert forall|k: int| 0 <= k < functions@.len() implies lowered_at(b[k], #[trigger] functions@[k]) by {
                        if k < before.len() {
                            assert(functions@[k] == before[k]);
                        }
                    }
                    assert forall|k: int| 0 <= k < functions@.len() implies behavior_lowers(reg, b[k], Ok::<MirFunction, OnuError>(#[trigger] functions@[k])) by {
                        if k < before.len() {
                            assert(functions@[k] == before[k]);
                        }
                    }
                }
            }
            i = i + 1;
        }
        proof {
            assert(ds.take(i as int) =~= ds);
        }
        Ok(MirProgram { functions })
    }

    /// A behavior as a MIR function: each parameter gets the next SSA
    /// variable and is bound under its name; the body is lowered in tail
    /// position; if a block is still open after it, the drops still owed
    /// (of dynamic values no use consumed) are emitted and the block returns
    /// the body's value.
    pub fn lower_function(&self, header: &HirBehaviorHeader, body: &HirExpression) -> (r: Result<MirFunction, OnuError>)
        requires
            header.args@.len() + hir_size(*body) <= usize::MAX,
        ensures
            r matches Ok(f) ==> function_lowered(*header, f),
            r matches Err(e) ==> e is GrammarViolation,
            var_free(*body) ==> r is Ok,
            function_lowers(*self.context.registry, header.args@, header.name@, header.return_type, *body, r),
    {
        let ghost reg = *self.context.registry;
        let ghost hs = header.args@;
        let ghost nm0 = header.name@;
        let ghost rt0 = header.return_type;
        let mut builder = MirBuilder::new(header.name.clone(), header.return_type.dup());
        let mut i: usize = 0;
        proof {
            assert(hs.take(0) =~= Seq::<HirArgument>::empty());
        }
        while i < header.args.len()
            invariant
                builder.wf(),
                hs == header.args@,
                nm0 == header.name@,
                rt0 == header.return_type,
                i <= hs.len(),
                hs.len() + hir_size(*body) <= usize::MAX,
                builder@.next_ssa == i,
                builder@.blocks.len() == 1,
                builder@.scopes.len() == 1,
                builder@.name == nm0,
                ty_equiv(builder@.return_type, rt0),
                args_lowered(hs.take(i as int), builder@.args),
                params_set(hs.take(i as int), nm0, rt0, builder@),
            decreases hs.len() - i,
        {
            let arg = &header.args[i];
            let ghost before = builder@.args;
            let ghost a0 = builder@;
            let ssa_var = builder.new_ssa();
            let t1 = arg.typ.dup();
            let ghost g1 = t1;
            builder.define_variable(arg.name.as_str(), ssa_var, t1, arg.is_observation);
            let ghost a1 = builder@;
            let t2 = arg.typ.dup();
            let ghost g2 = t2;
            builder.add_arg(arg.name.clone(), t2, ssa_var);
            proof {
                let h = hs.take(i as int + 1);
                assert(h.take(i as int) =~= hs.take(i as int));
                assert(h.drop_last() =~= hs.take(i as int));
                assert(h.last() == hs[i as int]);
                lemma_ty_equiv_trans(a1.types[ssa_var], g1, arg.typ);
                lemma_ty_equiv_trans(builder@.types[ssa_var], g2, arg.typ);
                assert(scope_put(ssa_step(a0).scopes.last(), a1.scopes.last(), arg.name@, (ssa_var, g1, arg.is_observation)));
                assert(defined(ssa_step(a0), a1, arg.name@, ssa_var, arg.typ, arg.is_observation));
                let ms = seq![a0, a1];
                assert(trace(ms, Seq::empty()));
                assert(params_set(h.drop_last(), nm0, rt0, ms[0]));
                assert(ms[0].next_ssa == (h.len() - 1) as usize);
                assert(types_put(ms[1].types, builder@.types, ssa_var, h.last().typ));
                assert(builder@.args.drop_last() =~= ms[1].args);
                assert(builder@.args.last().name@ == h.last().name@);
                assert(builder@ == (BuilderModel { args: builder@.args, types: builder@.types, dynamic: ms[1].dynamic.insert(ssa_var, false), ..ms[1] }));
                assert(params_set(h, nm0, rt0, builder@));
                assert forall|k: int| 0 <= k < h.len() implies {
                    &&& (#[trigger] builder@.args[k]).name@ == h[k].name@
                    &&& ty_equiv(builder@.args[k].typ, h[k].typ)
                    &&& builder@.args[k].ssa_var == k
                } by {
                    if k < i {
                        assert(builder@.args[k] == before[k]);
                        assert(h[k] == hs.take(i as int)[k]);
                    }
                }
            }
            i = i + 1;
        }
        proof {
            assert(hs.take(i as int) =~= hs);
        }
        let ghost m0 = builder@;
        let r0 = self.lower_expression(body, &mut builder, true);
        let ghost m1 = builder@;
        let ghost q0 = r0;
        let result_op = match r0 {
            Ok(v) => v,
            Err(z) => {
                proof {
                    assert(trace(seq![m0, m1, m1, m1], seq![q0]));
                }
                return Err(z);
            },
        };
        if builder.get_current_block_id().is_some() {
            let pending = builder.take_pending_drops();
            let ghost ow = owed(m1.pending, m1.consumed);
            let ghost s0 = builder@;
            let mut k: usize = 0;
            proof {
                assert forall|b2: BuilderModel| #[trigger] owed_dropped(ow, 0, builder@, b2) implies owed_dropped(ow, 0, s0, b2) by {}
            }
            while k < pending.len()
                invariant
                    builder.wf(),
                    same_header(m0, builder@),
                    builder@.blocks.len() > 0,
                    builder@ == (BuilderModel { blocks: builder@.blocks, ..s0 }),
                    s0 == (BuilderModel { pending: Seq::empty(), ..m1 }),
                    ow == owed(m1.pending, m1.consumed),
                    drops_listed(pending@, ow, m1.dynamic),
                    k <= pending@.len(),
                    forall|b2: BuilderModel| #[trigger] owed_dropped(ow, k as int, builder@, b2) ==> owed_dropped(ow, 0, s0, b2),
                decreases pending.len() - k,
            {
                let ghost c0 = builder@;
                proof {
                    assert(drop_entry(pending@[k as int], ow[k as int], m1.dynamic));
                }
                if pending[k].3 && !builder.is_consumed(pending[k].0) {
                    let t = pending[k].1.dup();
                    let nm = pending[k].2.clone();
                    let ghost gt = t;
                    let ghost gn = nm;
                    builder.emit(MirInstruction::Drop {
                        ssa_var: pending[k].0,
                        typ: t,
                        name: nm,
                        is_dynamic: true,
                    });
                    proof {
                        lemma_ty_equiv_trans(gt, pending@[k as int].1, ow[k as int].1);
                        assert(emitted(c0, builder@, MirInstruction::Drop { ssa_var: ow[k as int].0, typ: gt, name: gn, is_dynamic: true }));
                    }
                }
                proof {
                    let c1 = builder@;
                    assert forall|b2: BuilderModel| #[trigger] owed_dropped(ow, k as int + 1, c1, b2) implies owed_dropped(ow, 0, s0, b2) by {
                        let ms = seq![c1];
                        assert(ms[0] == c1);
                        assert(trace(ms, Seq::empty()));
                        let v = ow[k as int].0;
                        if c0.dynamic.contains_key(v) && c0.dynamic[v] && !c0.consumed.contains(v) {
                            assert(pending@[k as int].3);
                            assert(exists|t: OnuType, nm: String| #![trigger emitted(c0, ms[0], MirInstruction::Drop { ssa_var: v, typ: t, name: nm, is_dynamic: true })]
                                ty_equiv(t, ow[k as int].1) && nm@ == "drop_"@ + nat_digits(v as nat)
                                && emitted(c0, ms[0], MirInstruction::Drop { ssa_var: v, typ: t, name: nm, is_dynamic: true }));
                        } else {
                            assert(c1 == c0);
                        }
                        assert(owed_dropped(ow, k as int, c0, b2));
                    }
                }
                k = k + 1;
            }
            let ghost m2 = builder@;
            proof {
                assert(owed_dropped(ow, k as int, m2, m2));
                assert(owed_dropped(ow, 0, s0, m2));
            }
            builder.terminate(MirTerminator::Return(result_op));
            let ghost m3 = builder@;
            let f = builder.build();
            proof {
                assert(trace(seq![m0, m1, m2, m3], seq![q0]));
            }
            Ok(f)
        } else {
            let f = builder.build();
            proof {
                assert(trace(seq![m0, m1, m1, m1], seq![q0]));
            }
            Ok(f)
        }
    }

    /// A consumed resource variable is scheduled to be dropped.
    pub fn collect_resource_drop(&self, op: &MirOperand, builder: &mut MirBuilder)
        requires
            old(builder).wf(),
        ensures
            final(builder).wf(),
            final(builder)@ == (BuilderModel { pending: final(builder)@.pending, ..old(builder)@ }),
            collected(*op, old(builder)@, final(builder)@),
    {
        if let MirOperand::Variable(ssa_id, is_consuming) = op {
            if *is_consuming {
                if let Some(typ) = builder.resolve_ssa_type(*ssa_id) {
                    if typ.is_resource() {
                        builder.schedule_drop(*ssa_id, typ);
                    }
                }
            }
        }
    }

    /// Lowers an expression; the operand holds its value. In tail position
    /// the branches of a conditional return their values themselves.
    pub fn lower_expression(&self, expr: &HirExpression, builder: &mut MirBuilder, is_tail: bool) -> (r: Result<MirOperand, OnuError>)
        requires
            old(builder).wf(),
            old(builder)@.next_ssa + hir_size(*expr) <= usize::MAX,
        ensures
            final(builder).wf(),
            same_header(old(builder)@, final(builder)@),
            old(builder)@.next_ssa <= final(builder)@.next_ssa <= old(builder)@.next_ssa + hir_size(*expr),
            r matches Err(e) ==> e is GrammarViolation,
            r is Ok ==> final(builder)@.scopes == old(builder)@.scopes,
            var_free(*expr) ==> r is Ok,
            old(builder)@.blocks.len() <= final(builder)@.blocks.len(),
            *expr is ActsAs || *expr is Tuple ==> r is Err,
            (*expr is Emit || *expr is Drop) && r is Ok ==> r == Ok::<MirOperand, OnuError>(MirOperand::Constant(MirLiteral::Nothing)),
            *expr matches HirExpression::Literal(l) ==> (!(l is Text) ==> r == Ok::<MirOperand, OnuError>(MirOperand::Constant(mir_literal(l)))),
            *expr matches HirExpression::Variable(name, c) ==> match innermost_binding(old(builder)@.scopes, name@) {
                Some(b) => if old(builder)@.consumed.contains(b.0) {
                    r is Err
                } else {
                    r == Ok::<MirOperand, OnuError>(MirOperand::Variable(b.0, c && !b.2))
                },
                None => r is Err,
            },
            lowers(*self.context.registry, *expr, is_tail, old(builder)@, final(builder)@, r),
        decreases *expr, 1int,
    {
        match expr {
            HirExpression::Literal(lit) => Ok(self.lower_literal(lit, builder)),
            HirExpression::Variable(name, is_consuming) => self.lower_variable(name.as_str(), *is_consuming, builder),
            HirExpression::BinaryOp { .. } => self.lower_binary_op(expr, builder),
            HirExpression::Call { .. } => self.lower_call(expr, builder),
            HirExpression::Derivation { .. } => self.lower_derivation(expr, builder, is_tail),
            HirExpression::If { .. } => self.lower_if(expr, builder, is_tail),
            HirExpression::Block(_) => self.lower_block(expr, builder, is_tail),
            HirExpression::Emit(_) => self.lower_emit(expr, builder),
            HirExpression::Drop(e) => {
                let r0 = self.lower_expression(e, builder, false);
                let ghost m0 = builder@;
                let ghost q0 = r0;
                proof {
                    assert(trace(seq![m0], seq![q0]));
                }
                let op = match r0 {
                    Ok(v) => v,
                    Err(z) => {
                        return Err(z);
                    },
                };
                if let MirOperand::Variable(ssa_var, _) = op {
                    let typ = match builder.resolve_ssa_type(ssa_var) {
                        Some(t) => t,
                        None => OnuType::Nothing,
                    };
                    let is_dyn = builder.resolve_ssa_is_dynamic(ssa_var);
                    let nm = owned("manual_drop");
                    proof {
                        reveal_strlit("manual_drop");
                    }
                    let ghost t0 = typ;
                    let ghost n0 = nm;
                    builder.emit(MirInstruction::Drop { ssa_var, typ, name: nm, is_dynamic: is_dyn });
                    proof {
                        assert(emitted(m0, builder@, MirInstruction::Drop { ssa_var, typ: t0, name: n0, is_dynamic: dyn_of(m0, ssa_var) }));
                    }
                }
                Ok(MirOperand::Constant(MirLiteral::Nothing))
            },
            HirExpression::Index { .. } => self.lower_index(expr, builder),
            HirExpression::ActsAs { .. } => Err(lowering_error(owned(
                "Unsupported HIR expression type for MIR lowering: a shape conversion",
            ))),
            HirExpression::Tuple(_) => Err(lowering_error(owned(
                "Unsupported HIR expression type for MIR lowering: a tuple",
            ))),
        }
    }

    /// A literal: a constant, except text, which is copied into a new
    /// (static, not dynamic) string variable that the parent owns.
    pub fn lower_literal(&self, lit: &HirLiteral, builder: &mut MirBuilder) -> (r: MirOperand)
        requires
            old(builder).wf(),
            old(builder)@.next_ssa < usize::MAX,
        ensures
            final(builder).wf(),
            same_header(old(builder)@, final(builder)@),
            old(builder)@.next_ssa <= final(builder)@.next_ssa <= old(builder)@.next_ssa + 1,
            final(builder)@.scopes == old(builder)@.scopes,
            final(builder)@.blocks.len() == old(builder)@.blocks.len(),
            !(*lit is Text) ==> r == MirOperand::Constant(mir_literal(*lit)) && *final(builder) == *old(builder),
            *lit is Text ==> {
                let d = old(builder)@.next_ssa;
                &&& r == MirOperand::Variable(d, true)
                &&& final(builder)@.next_ssa == d + 1
                &&& final(builder)@.types == old(builder)@.types.insert(d, OnuType::Strings)
                &&& final(builder)@.dynamic == old(builder)@.dynamic.insert(d, false)
            },
            literal_lowers(*lit, old(builder)@, final(builder)@, Ok::<MirOperand, OnuError>(r)),
    {
        match lit {
            HirLiteral::I64(n) => MirOperand::Constant(MirLiteral::I64(*n)),
            HirLiteral::F64(n) => MirOperand::Constant(MirLiteral::F64(*n)),
            HirLiteral::Boolean(v) => MirOperand::Constant(MirLiteral::Boolean(*v)),
            HirLiteral::Nothing => MirOperand::Constant(MirLiteral::Nothing),
            HirLiteral::Text(s) => {
                let dest = builder.new_ssa();
                builder.set_ssa_type(dest, OnuType::Strings);
                builder.set_ssa_is_dynamic(dest, false);
                builder.build_assign(dest, MirOperand::Constant(MirLiteral::Text(s.clone())));
                MirOperand::Variable(dest, true)
            },
        }
    }

    /// A variable: its innermost binding, consumed by the use unless the
    /// binding only observes its value; an error when it is unbound (or
    /// already consumed).
    pub fn lower_variable(&self, name: &str, is_consuming: bool, builder: &mut MirBuilder) -> (r: Result<MirOperand, OnuError>)
        requires
            old(builder).wf(),
        ensures
            *final(builder) == *old(builder),
            r matches Err(e) ==> e is GrammarViolation,
            innermost_binding(old(builder)@.scopes, name@) matches Some(b) ==> if old(builder)@.consumed.contains(b.0) {
                r is Err
            } else {
                r == Ok::<MirOperand, OnuError>(MirOperand::Variable(b.0, is_consuming && !b.2))
            },
            innermost_binding(old(builder)@.scopes, name@) is None ==> r is Err,
            variable_result(old(builder)@, name@, is_consuming, r),
    {
        let ssa_var = match builder.resolve_variable(name) {
            Some(v) => v,
            None => {
                return Err(lowering_error(concat2("Unresolved variable: ", name)));
            },
        };
        let is_obs = builder.resolve_variable_is_observation(name);
        let final_consuming = if is_obs { false } else { is_consuming };
        Ok(MirOperand::Variable(ssa_var, final_consuming))
    }

    /// `left op right` into a new variable of the operator's result type;
    /// consumed resource operands are released after the operation.
    fn lower_binary_op(&self, expr: &HirExpression, builder: &mut MirBuilder) -> (r: Result<MirOperand, OnuError>)
        requires
            expr is BinaryOp,
            old(builder).wf(),
            old(builder)@.next_ssa + hir_size(*expr) <= usize::MAX,
        ensures
            final(builder).wf(),
            same_header(old(builder)@, final(builder)@),
            old(builder)@.next_ssa <= final(builder)@.next_ssa <= old(builder)@.next_ssa + hir_size(*expr),
            r matches Err(e) ==> e is GrammarViolation,
            r is Ok ==> final(builder)@.scopes == old(builder)@.scopes,
            var_free(*expr) ==> r is Ok,
            old(builder)@.blocks.len() <= final(builder)@.blocks.len(),
            binop_lowers(*self.context.registry, *expr, old(builder)@, final(builder)@, r),
        decreases *expr, 0int,
    {
        if let HirExpression::BinaryOp { op, left, right } = expr {
            let r1 = self.context.lower_expression(left, builder, false);
            let ghost m0 = builder@;
            let ghost q0 = r1;
            let lhs = match r1 {
                Ok(v) => v,
                Err(e) => {
                    proof {
                        assert(trace(seq![m0, m0, m0, m0, m0], seq![q0, q0]));
                    }
                    return Err(e);
                },
            };
            let r2 = self.context.lower_expression(right, builder, false);
            let ghost m1 = builder@;
            let ghost q1 = r2;
            let rhs = match r2 {
                Ok(v) => v,
                Err(e) => {
                    proof {
                        assert(trace(seq![m0, m1, m1, m1, m1], seq![q0, q1]));
                    }
                    return Err(e);
                },
            };
            let dest = builder.new_ssa();
            let (mop, res_type) = lower_op(*op);
            builder.emit(MirInstruction::BinaryOperation { dest, op: mop, lhs: lhs.dup(), rhs: rhs.dup(), dest_type: res_type.dup() });
            let ghost m2 = builder@;
            release_operand(&lhs, builder, "bin_lhs_");
            let ghost m3 = builder@;
            release_operand(&rhs, builder, "bin_rhs_");
            let ghost m4 = builder@;
            builder.set_ssa_type(dest, res_type);
            proof {
                assert(trace(seq![m0, m1, m2, m3, m4], seq![q0, q1]));
            }
            Ok(MirOperand::Variable(dest, true))
        } else {
            Err(lowering_error(owned("Expected BinaryOp expression")))
        }
    }

    /// `subject[index]` into a new variable; a consumed resource subject is
    /// released.
    pub fn lower_index(&self, expr: &HirExpression, builder: &mut MirBuilder) -> (r: Result<MirOperand, OnuError>)
        requires
            expr is Index,
            old(builder).wf(),
            old(builder)@.next_ssa + hir_size(*expr) <= usize::MAX,
        ensures
            final(builder).wf(),
            same_header(old(builder)@, final(builder)@),
            old(builder)@.next_ssa <= final(builder)@.next_ssa <= old(builder)@.next_ssa + hir_size(*expr),
            r matches Err(e) ==> e is GrammarViolation,
            r is Ok ==> final(builder)@.scopes == old(builder)@.scopes,
            var_free(*expr) ==> r is Ok,
            old(builder)@.blocks.len() <= final(builder)@.blocks.len(),
            index_lowers(*self.context.registry, *expr, old(builder)@, final(builder)@, r),
        decreases *expr, 0int,
    {
        if let HirExpression::Index { subject, index } = expr {
            let r1 = self.context.lower_expression(subject, builder, false);
            let ghost m0 = builder@;
            let ghost q0 = r1;
            let op = match r1 {
                Ok(v) => v,
                Err(e) => {
                    proof {
                        assert(trace(seq![m0, m0], seq![q0]));
                    }
                    return Err(e);
                },
            };
            let dest = builder.new_ssa();
            builder.emit(MirInstruction::Index { dest, subject: op.dup(), index: *index });
            let ghost m1 = builder@;
            release_operand(&op, builder, "index_op_");
            proof {
                assert(trace(seq![m0, m1], seq![q0]));
            }
            Ok(MirOperand::Variable(dest, true))
        } else {
            Err(lowering_error(owned("Expected Index expression")))
        }
    }

    /// Prints the value; the print takes custody of a consumed resource,
    /// which is then released.
    pub fn lower_emit(&self, expr: &HirExpression, builder: &mut MirBuilder) -> (r: Result<MirOperand, OnuError>)
        requires
            expr is Emit,
            old(builder).wf(),
            old(builder)@.next_ssa + hir_size(*expr) <= usize::MAX,
        ensures
            final(builder).wf(),
            same_header(old(builder)@, final(builder)@),
            old(builder)@.next_ssa <= final(builder)@.next_ssa <= old(builder)@.next_ssa + hir_size(*expr),
            r matches Err(e) ==> e is GrammarViolation,
            r is Ok ==> final(builder)@.scopes == old(builder)@.scopes,
            var_free(*expr) ==> r is Ok,
            old(builder)@.blocks.len() <= final(builder)@.blocks.len(),
            r is Ok ==> r == Ok::<MirOperand, OnuError>(MirOperand::Constant(MirLiteral::Nothing)),
            emit_lowers(*self.context.registry, *expr, old(builder)@, final(builder)@, r),
        decreases *expr, 0int,
    {
        if let HirExpression::Emit(e) = expr {
            let r1 = self.context.lower_expression(e, builder, false);
            let ghost m0 = builder@;
            let ghost q0 = r1;
            let op = match r1 {
                Ok(v) => v,
                Err(e) => {
                    proof {
                        assert(trace(seq![m0, m0], seq![q0]));
                    }
                    return Err(e);
                },
            };
            builder.emit(MirInstruction::Emit(op.dup()));
            let ghost m1 = builder@;
            release_operand(&op, builder, "emit_op_");
            proof {
                assert(trace(seq![m0, m1], seq![q0]));
            }
            Ok(MirOperand::Constant(MirLiteral::Nothing))
        } else {
            Err(lowering_error(owned("Expected Emit expression")))
        }
    }

    /// A call: the arguments in order, then the call into a new variable.
    /// Each argument variable the callee takes (does not only observe) that
    /// holds a resource is marked consumed and scheduled to be dropped. The
    /// callee's signature, when the registry knows it, gives the types. A
    /// `joined-with` of two arguments is spelled out in place (see
    /// `StdlibLowering::lower_joined_with`) and yields a new dynamic text.
    pub fn lower_call(&self, expr: &HirExpression, builder: &mut MirBuilder) -> (r: Result<MirOperand, OnuError>)
        requires
            expr is Call,
            old(builder).wf(),
            old(builder)@.next_ssa + hir_size(*expr) <= usize::MAX,
        ensures
            final(builder).wf(),
            same_header(old(builder)@, final(builder)@),
            old(builder)@.next_ssa <= final(builder)@.next_ssa <= old(builder)@.next_ssa + hir_size(*expr),
            r matches Err(e) ==> e is GrammarViolation,
            r is Ok ==> final(builder)@.scopes == old(builder)@.scopes,
            var_free(*expr) ==> r is Ok,
            old(builder)@.blocks.len() <= final(builder)@.blocks.len(),
            call_lowers(*self.context.registry, *expr, old(builder)@, final(builder)@, r),
        decreases *expr, 0int,
    {
        if let HirExpression::Call { name, args } = expr {
            let ghost es = args@;
            let ghost n0 = builder@.next_ssa;
            assert(hir_size(*expr) == join_width() + hir_size_list(es));
            let mut mir_args: Vec<MirOperand> = Vec::new();
            let mut i: usize = 0;
            let ghost reg = *self.context.registry;
            let ghost a0 = builder@;
            proof {
                assert(es.subrange(0, es.len() as int) =~= es);
                assert forall|b2: BuilderModel, ops2: Seq<MirOperand>, err2: Option<OnuError>|
                    #[trigger] args_lower(reg, es.subrange(0, es.len() as int), a0, b2, ops2, err2)
                    implies args_lower(reg, es, a0, b2, mir_args@ + ops2, err2) by {
                    assert(mir_args@ + ops2 =~= ops2);
                }
            }
            while i < args.len()
                invariant
                    reg == *self.context.registry,
                    a0 == old(builder)@,
                    forall|b2: BuilderModel, ops2: Seq<MirOperand>, err2: Option<OnuError>|
                        #[trigger] args_lower(reg, es.subrange(i as int, es.len() as int), builder@, b2, ops2, err2)
                        ==> args_lower(reg, es, a0, b2, mir_args@ + ops2, err2),
                    es == args@,
                    *expr == (HirExpression::Call { name: *name, args: *args }),
                    builder@.scopes == old(builder)@.scopes,
                    old(builder)@.blocks.len() <= builder@.blocks.len(),
                    hir_size(*expr) == join_width() + hir_size_list(es),
                    builder.wf(),
                    same_header(old(builder)@, builder@),
                    i <= es.len(),
                    n0 == old(builder)@.next_ssa,
                    n0 + hir_size(*expr) <= usize::MAX,
                    n0 <= builder@.next_ssa <= n0 + hir_size_list(es.take(i as int)),
                decreases es.len() - i,
            {
                proof {
                    lemma_size_list_prefix(es, i as int);
                    broadcast use vstd::std_specs::vec::axiom_vec_decreases_to_view;
                    assert(decreases_to!(args => args@));
                    assert(decreases_to!(args@ => args@[i as int]));
                }
                let ghost rest = es.subrange(i as int, es.len() as int);
                let ghost ai = builder@;
                let ghost done = mir_args@;
                proof {
                    assert(rest[0] == es[i as int]);
                    assert(rest.drop_first() =~= es.subrange(i as int + 1, es.len() as int));
                }
                let r1 = self.lower_expression(&args[i], builder, false);
                let ghost m0 = builder@;
                let ghost q0 = r1;
                let op = match r1 {
                    Ok(v) => v,
                    Err(e) => {
                        proof {
                            assert(trace(seq![m0], seq![q0]));
                            assert(args_lower(reg, rest, ai, m0, Seq::empty(), Some(e)));
                            assert(args_lower(reg, es, a0, m0, done + Seq::<MirOperand>::empty(), Some(e)));
                            let ops = done + Seq::<MirOperand>::empty();
                            assert(call_trace(seq![m0, m0, m0], ops, Some(e)));
                        }
                        return Err(e);
                    },
                };
                let ghost ov = op;
                mir_args.push(op);
                i = i + 1;
                proof {
                    assert forall|b2: BuilderModel, ops2: Seq<MirOperand>, err2: Option<OnuError>|
                        #[trigger] args_lower(reg, es.subrange(i as int, es.len() as int), m0, b2, ops2, err2)
                        implies args_lower(reg, es, a0, b2, mir_args@ + ops2, err2) by {
                        let full = seq![ov] + ops2;
                        assert(full[0] == ov);
                        assert(full.drop_first() =~= ops2);
                        assert(trace(seq![m0], seq![q0]));
                        assert(args_lower(reg, rest, ai, b2, full, err2));
                        assert(done + full =~= mir_args@ + ops2);
                    }
                }
            }
            proof {
                assert(es.take(es.len() as int) =~= es);
                assert(es.subrange(i as int, es.len() as int).len() == 0);
                assert(args_lower(reg, es.subrange(i as int, es.len() as int), builder@, builder@, Seq::empty(), None));
                assert(mir_args@ + Seq::<MirOperand>::empty() =~= mir_args@);
            }
            let ghost ma = builder@;
            let ghost ops = mir_args@;
            let ghost cts = callee_types(reg, name@);
            let (return_type, arg_types, arg_is_observation) = match self.context.registry.get_signature(name.as_str()) {
                Some(sig) => (sig.return_type.dup(), crate::types::dup_types(&sig.input_types), copy_flags(&sig.arg_is_observation)),
                None => (OnuType::Nothing, Vec::new(), Vec::new()),
            };
            proof {
                assert(ty_equiv(return_type, cts.0)) by {
                    if cts.0 == OnuType::Nothing && return_type == OnuType::Nothing {
                        lemma_ty_equiv_refl(return_type);
                    }
                }
                assert(arg_types@.len() == cts.1.len());
                assert(forall|k: int| 0 <= k < cts.1.len() ==> ty_equiv(#[trigger] arg_types@[k], cts.1[k]));
                assert(arg_is_observation@ == cts.2);
            }
            let mut j: usize = 0;
            proof {
                assert forall|b2: BuilderModel| #[trigger] marks(ops, cts.1, cts.2, 0, ma, b2)
                    implies marks(ops, cts.1, cts.2, 0, ma, b2) by {}
            }
            while j < mir_args.len()
                invariant
                    mir_args@ == ops,
                    arg_types@.len() == cts.1.len(),
                    forall|k: int| 0 <= k < cts.1.len() ==> ty_equiv(#[trigger] arg_types@[k], cts.1[k]),
                    arg_is_observation@ == cts.2,
                    forall|b2: BuilderModel| #[trigger] marks(ops, cts.1, cts.2, j as int, builder@, b2)
                        ==> marks(ops, cts.1, cts.2, 0, ma, b2),
                    builder.wf(),
                    same_header(old(builder)@, builder@),
                    builder@.scopes == old(builder)@.scopes,
                    old(builder)@.blocks.len() <= builder@.blocks.len(),
                    builder@.next_ssa == ma.next_ssa,
                    builder@.next_ssa <= n0 + hir_size_list(es),
                    n0 <= builder@.next_ssa,
                    n0 + hir_size(*expr) <= usize::MAX,
                    hir_size(*expr) == join_width() + hir_size_list(es),
                decreases mir_args.len() - j,
            {
                let ghost aj = builder@;
                if let MirOperand::Variable(ssa_id, _) = &mir_args[j] {
                    let is_observation = if j < arg_is_observation.len() { arg_is_observation[j] } else { false };
                    let typ = if j < arg_types.len() { arg_types[j].dup() } else { OnuType::Nothing };
                    proof {
                        if j < arg_types.len() {
                            lemma_ty_equiv_trans(typ, arg_types@[j as int], cts.1[j as int]);
                        } else {
                            lemma_ty_equiv_refl(typ);
                        }
                    }
                    if !is_observation && typ.is_resource() {
                        builder.mark_consumed(*ssa_id);
                        let ghost gt = typ;
                        builder.schedule_drop(*ssa_id, typ);
                        proof {
                            assert(aj.pending.push((*ssa_id, gt)) == builder@.pending);
                        }
                    }
                }
                let ghost mj = builder@;
                j = j + 1;
                proof {
                    assert forall|b2: BuilderModel| #[trigger] marks(ops, cts.1, cts.2, j as int, mj, b2)
                        implies marks(ops, cts.1, cts.2, 0, ma, b2) by {
                        assert(trace(seq![mj], Seq::empty()));
                        assert(marks(ops, cts.1, cts.2, j - 1, aj, b2));
                    }
                }
            }
            let ghost mm = builder@;
            proof {
                assert(marks(ops, cts.1, cts.2, j as int, mm, mm));
            }
            if str_eq(name.as_str(), "joined-with") && mir_args.len() == 2 {
                let res = StdlibLowering::lower_joined_with(&mir_args[0], &mir_args[1], builder);
                let ghost mjw = builder@;
                if let MirOperand::Variable(ssa_id, _) = &res {
                    builder.set_ssa_type(*ssa_id, OnuType::Strings);
                }
                proof {
                    reveal_strlit("joined-with");
                    assert(call_trace(seq![ma, mm, mjw], ops, None));
                }
                return Ok(res);
            }
            let dest = builder.new_ssa();
            let inst = MirInstruction::Call {
                dest,
                name: name.clone(),
                args: mir_args,
                return_type,
                arg_types,
                is_tail_call: false,
            };
            let ghost gi = inst;
            builder.emit(inst);
            proof {
                reveal_strlit("joined-with");
                assert(call_inst(gi, dest, name@, ops, cts.0, cts.1));
                assert(call_trace(seq![ma, mm, mm], ops, None));
            }
            Ok(MirOperand::Variable(dest, false))
        } else {
            Err(lowering_error(owned("Expected Call expression")))
        }
    }

    /// `let name: typ = value in body`: the value's resource moves to the new
    /// variable (the source is marked consumed, not dropped), which the body
    /// sees in a scope of its own.
    pub fn lower_derivation(&self, expr: &HirExpression, builder: &mut MirBuilder, is_tail: bool) -> (r: Result<MirOperand, OnuError>)
        requires
            expr is Derivation,
            old(builder).wf(),
            old(builder)@.next_ssa + hir_size(*expr) <= usize::MAX,
        ensures
            final(builder).wf(),
            same_header(old(builder)@, final(builder)@),
            old(builder)@.next_ssa <= final(builder)@.next_ssa <= old(builder)@.next_ssa + hir_size(*expr),
            r matches Err(e) ==> e is GrammarViolation,
            r is Ok ==> final(builder)@.scopes == old(builder)@.scopes,
            var_free(*expr) ==> r is Ok,
            old(builder)@.blocks.len() <= final(builder)@.blocks.len(),
            deriv_lowers(*self.context.registry, *expr, is_tail, old(builder)@, final(builder)@, r),
        decreases *expr, 0int,
    {
        if let HirExpression::Derivation { name, typ, value, body } = expr {
            let r1 = self.context.lower_expression(value, builder, false);
            let ghost m0 = builder@;
            let ghost q0 = r1;
            let val_op = match r1 {
                Ok(v) => v,
                Err(e) => {
                    proof {
                        assert(trace(seq![m0, m0, m0, m0, m0, m0], seq![q0, q0]));
                    }
                    return Err(e);
                },
            };
            let mut is_val_dyn = false;
            if let MirOperand::Variable(ssa_id, _) = &val_op {
                if let Some(vt) = builder.resolve_ssa_type(*ssa_id) {
                    if vt.is_resource() && !builder.is_consumed(*ssa_id) {
                        builder.mark_consumed(*ssa_id);
                        is_val_dyn = builder.resolve_ssa_is_dynamic(*ssa_id);
                    }
                }
            }
            proof {
                assert(builder@ == claimed(val_op, m0));
                assert(is_val_dyn == claimed_dynamic(val_op, m0));
            }
            let ssa_var = builder.new_ssa();
            builder.emit(MirInstruction::Assign { dest: ssa_var, src: val_op });
            let ghost m1 = builder@;
            let t1 = typ.dup();
            let ghost gt1 = t1;
            builder.set_ssa_type(ssa_var, t1);
            let ghost m2 = builder@;
            proof {
                assert(m2.types.dom() =~= m1.types.dom().insert(ssa_var));
                assert(types_put(m1.types, m2.types, ssa_var, *typ));
            }
            if is_val_dyn {
                builder.set_ssa_is_dynamic(ssa_var, true);
            }
            let ghost m3 = builder@;
            builder.enter_scope();
            let t2 = typ.dup();
            let ghost gt2 = t2;
            let ghost m3s = builder@;
            builder.define_variable(name.as_str(), ssa_var, t2, false);
            let ghost m4 = builder@;
            proof {
                lemma_ty_equiv_trans(m4.types[ssa_var], gt2, *typ);
                assert(types_put(m3s.types, m4.types, ssa_var, *typ));
                assert(scope_put(m3s.scopes.last(), m4.scopes.last(), name@, (ssa_var, gt2, false)));
                assert(defined(m3s, m4, name@, ssa_var, *typ, false));
            }
            let r2 = self.context.lower_expression(body, builder, is_tail);
            let ghost m5 = builder@;
            let ghost q1 = r2;
            proof {
                assert(trace(seq![m0, m1, m2, m3, m4, m5], seq![q0, q1]));
            }
            let res = match r2 {
                Ok(v) => v,
                Err(e) => {
                    return Err(e);
                },
            };
            builder.exit_scope();
            Ok(res)
        } else {
            Err(lowering_error(owned("Expected Derivation expression")))
        }
    }

    /// A block: its expressions in order; the value of each but the last that
    /// holds an unconsumed resource is released. Lowering stops once the
    /// current block has been closed (after a return).
    pub fn lower_block(&self, expr: &HirExpression, builder: &mut MirBuilder, is_tail: bool) -> (r: Result<MirOperand, OnuError>)
        requires
            expr is Block,
            old(builder).wf(),
            old(builder)@.next_ssa + hir_size(*expr) <= usize::MAX,
        ensures
            final(builder).wf(),
            same_header(old(builder)@, final(builder)@),
            old(builder)@.next_ssa <= final(builder)@.next_ssa <= old(builder)@.next_ssa + hir_size(*expr),
            r matches Err(e) ==> e is GrammarViolation,
            r is Ok ==> final(builder)@.scopes == old(builder)@.scopes,
            var_free(*expr) ==> r is Ok,
            old(builder)@.blocks.len() <= final(builder)@.blocks.len(),
            block_lowers(*self.context.registry, *expr, is_tail, old(builder)@, final(builder)@, r),
        decreases *expr, 0int,
    {
        if let HirExpression::Block(exprs) = expr {
            let ghost es = exprs@;
            let ghost n0 = builder@.next_ssa;
            assert(hir_size(*expr) == 1 + hir_size_list(es));
            let mut last_op = MirOperand::Constant(MirLiteral::Nothing);
            let len = exprs.len();
            let mut i: usize = 0;
            let ghost reg = *self.context.registry;
            let ghost a0 = builder@;
            proof {
                assert(es.subrange(0, es.len() as int) =~= es);
                assert forall|b2: BuilderModel, r2: Result<MirOperand, OnuError>|
                    #[trigger] block_list(reg, es.subrange(0, es.len() as int), is_tail, a0, b2, last_op, r2)
                    implies block_list(reg, es, is_tail, a0, b2, MirOperand::Constant(MirLiteral::Nothing), r2) by {
                    assert(es.subrange(0, es.len() as int) == es);
                }
            }
            while i < len
                invariant_except_break
                    forall|b2: BuilderModel, r2: Result<MirOperand, OnuError>|
                        #[trigger] block_list(reg, es.subrange(i as int, es.len() as int), is_tail, builder@, b2, last_op, r2)
                        ==> block_list(reg, es, is_tail, a0, b2, MirOperand::Constant(MirLiteral::Nothing), r2),
                invariant
                    i == es.len() ==> block_list(reg, es, is_tail, a0, builder@, MirOperand::Constant(MirLiteral::Nothing), Ok::<MirOperand, OnuError>(last_op)),
                    reg == *self.context.registry,
                    a0 == old(builder)@,
                    es == exprs@,
                    *expr == HirExpression::Block(*exprs),
                    builder@.scopes == old(builder)@.scopes,
                    old(builder)@.blocks.len() <= builder@.blocks.len(),
                    len == es.len(),
                    hir_size(*expr) == 1 + hir_size_list(es),
                    builder.wf(),
                    same_header(old(builder)@, builder@),
                    i <= es.len(),
                    n0 == old(builder)@.next_ssa,
                    n0 + hir_size(*expr) <= usize::MAX,
                    n0 <= builder@.next_ssa <= n0 + hir_size_list(es.take(i as int)),
                ensures
                    block_list(reg, es, is_tail, a0, builder@, MirOperand::Constant(MirLiteral::Nothing), Ok::<MirOperand, OnuError>(last_op)),
                    builder@.scopes == old(builder)@.scopes,
                    old(builder)@.blocks.len() <= builder@.blocks.len(),
                    builder.wf(),
                    same_header(old(builder)@, builder@),
                    i <= es.len(),
                    n0 <= builder@.next_ssa <= n0 + hir_size_list(es.take(i as int)),
                decreases es.len() - i,
            {
                proof {
                    lemma_size_list_prefix(es, i as int);
                    broadcast use vstd::std_specs::vec::axiom_vec_decreases_to_view;
                    assert(decreases_to!(exprs => exprs@));
                    assert(decreases_to!(exprs@ => exprs@[i as int]));
                }
                let ghost rest = es.subrange(i as int, es.len() as int);
                let ghost ai = builder@;
                let ghost prev = last_op;
                proof {
                    assert(rest[0] == es[i as int]);
                    assert(rest.drop_first() =~= es.subrange(i as int + 1, es.len() as int));
                }
                let is_last = i == len - 1;
                let r1 = self.context.lower_expression(&exprs[i], builder, is_tail && is_last);
                let ghost m0 = builder@;
                let ghost q0 = r1;
                last_op = match r1 {
                    Ok(v) => v,
                    Err(e) => {
                        proof {
                            assert(trace(seq![m0, m0], seq![q0]));
                            assert(block_list(reg, rest, is_tail, ai, m0, prev, q0));
                        }
                        return Err(e);
                    },
                };
                if !is_last {
                    release_intermediate(&last_op, builder);
                }
                let ghost m1 = builder@;
                proof {
                    assert(trace(seq![m0, m1], seq![q0]));
                }
                i = i + 1;
                if builder.get_current_block_id().is_none() {
                    proof {
                        assert(block_list(reg, rest, is_tail, ai, m1, prev, Ok::<MirOperand, OnuError>(last_op)));
                        assert(block_list(reg, es, is_tail, a0, m1, MirOperand::Constant(MirLiteral::Nothing), Ok::<MirOperand, OnuError>(last_op)));
                    }
                    break;
                }
                proof {
                    assert forall|b2: BuilderModel, r2: Result<MirOperand, OnuError>|
                        #[trigger] block_list(reg, es.subrange(i as int, es.len() as int), is_tail, m1, b2, last_op, r2)
                        implies block_list(reg, es, is_tail, a0, b2, MirOperand::Constant(MirLiteral::Nothing), r2) by {
                        assert(block_list(reg, rest, is_tail, ai, b2, prev, r2));
                    }
                    if i == len {
                        assert(es.subrange(i as int, es.len() as int).len() == 0);
                        assert(block_list(reg, es.subrange(i as int, es.len() as int), is_tail, m1, m1, last_op, Ok::<MirOperand, OnuError>(last_op)));
                    }
                }
            }
            proof {
                if i < len {
                    lemma_size_list_prefix(es, i as int);
                }
                lemma_size_list_take_le(es, i as int);
            }
            Ok(last_op)
        } else {
            Err(lowering_error(owned("Expected Block expression")))
        }
    }

    /// A conditional: the condition branches to a block for each arm, each
    /// arm lowered from the consumption state before the branch, and the
    /// state after is what either arm consumed. In tail position each arm
    /// returns its value and no block follows; otherwise both arms copy
    /// their value into a new variable and jump to a merge block.
    pub fn lower_if(&self, expr: &HirExpression, builder: &mut MirBuilder, is_tail: bool) -> (r: Result<MirOperand, OnuError>)
        requires
            expr is If,
            old(builder).wf(),
            old(builder)@.next_ssa + hir_size(*expr) <= usize::MAX,
        ensures
            final(builder).wf(),
            same_header(old(builder)@, final(builder)@),
            old(builder)@.next_ssa <= final(builder)@.next_ssa <= old(builder)@.next_ssa + hir_size(*expr),
            r matches Err(e) ==> e is GrammarViolation,
            r is Ok ==> final(builder)@.scopes == old(builder)@.scopes,
            var_free(*expr) ==> r is Ok,
            old(builder)@.blocks.len() <= final(builder)@.blocks.len(),
            if_lowers(*self.context.registry, *expr, is_tail, old(builder)@, final(builder)@, r),
        decreases *expr, 0int,
    {
        if let HirExpression::If { condition, then_branch, else_branch } = expr {
            let r0 = self.lower_expression(condition, builder, false);
            let ghost m0 = builder@;
            let ghost q0 = r0;
            let cond_op = match r0 {
                Ok(v) => v,
                Err(e) => {
                    proof {
                        let z = Seq::new(20, |k: int| m0);
                        assert(trace(z, seq![q0, q0, q0]));
                    }
                    return Err(e);
                },
            };
            let then_start_id = builder.create_block();
            let ghost m1 = builder@;
            let else_start_id = builder.create_block();
            let ghost m2 = builder@;
            builder.terminate(MirTerminator::CondBranch { condition: cond_op, then_block: then_start_id, else_block: else_start_id });
            let ghost m3 = builder@;
            let pre_branch_consumed = builder.get_consumed_vars();

            builder.switch_to_block(then_start_id);
            let r1 = self.lower_expression(then_branch, builder, is_tail);
            let ghost m4 = builder@;
            let ghost q1 = r1;
            let then_res = match r1 {
                Ok(v) => v,
                Err(e) => {
                    proof {
                        let z = Seq::new(20, |k: int| if k == 0 { m0 } else if k == 1 { m1 } else if k == 2 { m2 } else if k == 3 { m3 } else { m4 });
                        assert(trace(z, seq![q0, q1, q1]));
                    }
                    return Err(e);
                },
            };
            if is_tail {
                builder.terminate(MirTerminator::Return(then_res.dup()));
            }
            let ghost m5 = builder@;
            let then_consumed = builder.get_consumed_vars();
            let then_end_id = builder.get_current_block_id();

            builder.set_consumed_vars(pre_branch_consumed);
            builder.switch_to_block(else_start_id);
            let r2 = self.lower_expression(else_branch, builder, is_tail);
            let ghost m6 = builder@;
            let ghost q2 = r2;
            let else_res = match r2 {
                Ok(v) => v,
                Err(e) => {
                    proof {
                        let z = Seq::new(20, |k: int| if k == 0 { m0 } else if k == 1 { m1 } else if k == 2 { m2 } else if k == 3 { m3 }
                            else if k == 4 { m4 } else if k == 5 { m5 } else { m6 });
                        assert(trace(z, seq![q0, q1, q2]));
                    }
                    return Err(e);
                },
            };
            if is_tail {
                builder.terminate(MirTerminator::Return(else_res.dup()));
            }
            let ghost m7 = builder@;
            let else_consumed = builder.get_consumed_vars();
            let else_end_id = builder.get_current_block_id();

            let mut final_consumed = then_consumed;
            extend_set(&mut final_consumed, &else_consumed);
            builder.set_consumed_vars(final_consumed);
            let ghost m8 = builder@;

            if is_tail {
                builder.clear_current_block();
                proof {
                    let z = Seq::new(20, |k: int| if k == 0 { m0 } else if k == 1 { m1 } else if k == 2 { m2 } else if k == 3 { m3 }
                        else if k == 4 { m4 } else if k == 5 { m5 } else if k == 6 { m6 } else if k == 7 { m7 } else { m8 });
                    assert(trace(z, seq![q0, q1, q2]));
                }
                return Ok(MirOperand::Constant(MirLiteral::Nothing));
            }

            let merge_id = builder.create_block();
            let ghost m9 = builder@;
            let dest = builder.new_ssa();
            let ghost m10 = builder@;
            let ghost mut m11 = m10;
            let ghost mut m13 = m10;
            if let Some(id) = then_end_id {
                builder.switch_to_block(id);
                builder.emit(MirInstruction::Assign { dest, src: then_res });
                proof {
                    m11 = builder@;
                }
                builder.terminate(MirTerminator::Branch(merge_id));
            }
            let ghost m12 = builder@;
            if let Some(id) = else_end_id {
                builder.switch_to_block(id);
                builder.emit(MirInstruction::Assign { dest, src: else_res });
                proof {
                    m13 = builder@;
                }
                builder.terminate(MirTerminator::Branch(merge_id));
            }
            let ghost m14 = builder@;
            builder.switch_to_block(merge_id);
            proof {
                let z = Seq::new(20, |k: int| if k == 0 { m0 } else if k == 1 { m1 } else if k == 2 { m2 } else if k == 3 { m3 }
                    else if k == 4 { m4 } else if k == 5 { m5 } else if k == 6 { m6 } else if k == 7 { m7 } else if k == 8 { m8 }
                    else if k == 9 { m9 } else if k == 10 { m10 } else if k == 11 { m11 } else if k == 12 { m12 }
                    else if k == 13 { m13 } else { m14 });
                assert(trace(z, seq![q0, q1, q2]));
            }
            Ok(MirOperand::Variable(dest, false))
        } else {
            Err(lowering_error(owned("Expected If expression")))
        }
    }
}

/// What releasing `op` does to the builder `a`, giving `b`: a consuming use
/// of a variable of a resource type that is not yet consumed marks it
/// consumed and, when it is dynamic, appends a drop of it (named `tag` and
/// its number); anything else leaves the builder as it is. So a release
/// never drops a variable that is already consumed.
pub open spec fn releases(op: MirOperand, a: BuilderModel, b: BuilderModel, tag: Seq<char>) -> bool {
    match op {
        MirOperand::Variable(v, c) => if c && a.types.contains_key(v) && spec_is_resource(a.types[v]) && !a.consumed.contains(v) {
            let marked = BuilderModel { consumed: a.consumed.insert(v), ..a };
            if a.dynamic.contains_key(v) && a.dynamic[v] {
                exists|t: OnuType, name: String| #![trigger emitted(marked, b, MirInstruction::Drop { ssa_var: v, typ: t, name, is_dynamic: true })]
                    ty_equiv(t, a.types[v]) && name@ == tag + nat_digits(v as nat)
                    && emitted(marked, b, MirInstruction::Drop { ssa_var: v, typ: t, name, is_dynamic: true })
            } else {
                b == marked
            }
        } else {
            b == a
        },
        _ => b == a,
    }
}

/// A consumed resource that the parent has used is marked consumed and,
/// when it is dynamic, dropped (`tag` and its number name the drop).
pub fn release_operand(op: &MirOperand, builder: &mut MirBuilder, tag: &str)
    requires
        old(builder).wf(),
    ensures
        final(builder).wf(),
        same_header(old(builder)@, final(builder)@),
        final(builder)@.next_ssa == old(builder)@.next_ssa,
        final(builder)@.scopes == old(builder)@.scopes,
        final(builder)@.blocks.len() == old(builder)@.blocks.len(),
        final(builder)@.dynamic == old(builder)@.dynamic,
        final(builder)@.types == old(builder)@.types,
        releases(*op, old(builder)@, final(builder)@, tag@),
{
    if let MirOperand::Variable(ssa_id, is_consuming) = op {
        if *is_consuming {
            if let Some(typ) = builder.resolve_ssa_type(*ssa_id) {
                if typ.is_resource() && !builder.is_consumed(*ssa_id) {
                    let is_dyn = builder.resolve_ssa_is_dynamic(*ssa_id);
                    builder.mark_consumed(*ssa_id);
                    if is_dyn {
                        let name = concat2(tag, count_text(*ssa_id).as_str());
                        builder.emit(MirInstruction::Drop { ssa_var: *ssa_id, typ, name, is_dynamic: is_dyn });
                    }
                }
            }
        }
    }
}

/// The drops still owed never name a consumed variable.
proof fn lemma_owed_unconsumed(p: Seq<(usize, OnuType)>, consumed: Set<usize>)
    ensures
        forall|k: int| 0 <= k < owed(p, consumed).len() ==> !consumed.contains(#[trigger] owed(p, consumed)[k].0),
    decreases p.len(),
{
    if p.len() > 0 {
        lemma_owed_unconsumed(p.drop_last(), consumed);
        let l = owed(p.drop_last(), consumed);
        let o = owed(p, consumed);
        assert forall|k: int| 0 <= k < o.len() implies !consumed.contains(#[trigger] o[k].0) by {
            if k < l.len() {
                assert(o[k] == l[k]);
            }
        }
    }
}

/// A value is released once: after a release of `op` that dropped it,
/// releasing `op` again changes nothing, and the drops owed at the end of
/// the function (see `MirBuilder::take_pending_drops`) no longer list it.
pub proof fn law_release_once(op: MirOperand, a: BuilderModel, b: BuilderModel, c: BuilderModel, tag1: Seq<char>, tag2: Seq<char>)
    requires
        releases(op, a, b, tag1),
        releases(op, b, c, tag2),
    ensures
        c == b,
        op matches MirOperand::Variable(v, cons) ==> (cons && a.types.contains_key(v) && spec_is_resource(a.types[v]) ==> {
            &&& b.consumed.contains(v)
            &&& forall|k: int| 0 <= k < owed(b.pending, b.consumed).len() ==> #[trigger] owed(b.pending, b.consumed)[k].0 != v
        }),
{
    lemma_owed_unconsumed(b.pending, b.consumed);
    if let MirOperand::Variable(v, cons) = op {
        if cons && a.types.contains_key(v) && spec_is_resource(a.types[v]) && !a.consumed.contains(v) {
            let marked = BuilderModel { consumed: a.consumed.insert(v), ..a };
            if a.dynamic.contains_key(v) && a.dynamic[v] {
                let (t, name) = choose|t: OnuType, name: String| #![trigger emitted(marked, b, MirInstruction::Drop { ssa_var: v, typ: t, name, is_dynamic: true })]
                    ty_equiv(t, a.types[v]) && name@ == tag1 + nat_digits(v as nat)
                    && emitted(marked, b, MirInstruction::Drop { ssa_var: v, typ: t, name, is_dynamic: true });
                assert(b.consumed == a.consumed.insert(v));
            }
            assert(b.consumed.contains(v));
        }
    }
}

/// An intermediate value of a block is released (see `block_released`).
fn release_intermediate(op: &MirOperand, builder: &mut MirBuilder)
    requires
        old(builder).wf(),
    ensures
        final(builder).wf(),
        same_header(old(builder)@, final(builder)@),
        final(builder)@.next_ssa == old(builder)@.next_ssa,
        final(builder)@.scopes == old(builder)@.scopes,
        final(builder)@.blocks.len() == old(builder)@.blocks.len(),
        final(builder)@.current == old(builder)@.current,
        block_released(*op, old(builder)@, final(builder)@),
{
    if let MirOperand::Variable(ssa_id, _) = op {
        if let Some(typ) = builder.resolve_ssa_type(*ssa_id) {
            if typ.is_resource() && !builder.is_consumed(*ssa_id) {
                let is_dyn = builder.resolve_ssa_is_dynamic(*ssa_id);
                builder.mark_consumed(*ssa_id);
                if is_dyn {
                    let name = concat2("block_inter_", count_text(*ssa_id).as_str());
                    builder.emit(MirInstruction::Drop { ssa_var: *ssa_id, typ, name, is_dynamic: is_dyn });
                }
            }
        }
    }
}

proof fn lemma_size_list_take_le(es: Seq<HirExpression>, i: int)
    requires
        0 <= i <= es.len(),
    ensures
        hir_size_list(es.take(i)) <= hir_size_list(es),
    decreases es.len() - i,
{
    if i < es.len() {
        lemma_size_list_prefix(es, i);
        lemma_size_list_take_le(es, i + 1);
    } else {
        assert(es.take(i) =~= es);
    }
}

/// A copy of a list of flags.
fn copy_flags(v: &Vec<bool>) -> (r: Vec<bool>)
    ensures
        r@ == v@,
{
    let mut out: Vec<bool> = Vec::new();
    let mut i: usize = 0;
    while i < v.len()
        invariant
            i <= v@.len(),
            out@ == v@.take(i as int),
        decreases v.len() - i,
    {
        out.push(v[i]);
        proof { assert(out@ =~= v@.take(i as int + 1)); }
        i = i + 1;
    }
    proof { assert(v@.take(i as int) =~= v@); }
    out
}

/// Adds the elements of `b` to `a`, one by one.
fn extend_set(a: &mut std::collections::HashSet<usize>, b: &std::collections::HashSet<usize>)
    ensures
        final(a)@ == old(a)@.union(b@),
{
    broadcast use vstd::std_specs::hash::group_hash_axioms;
    let ghost a0 = a@;
    let mut acc: std::collections::HashSet<usize> = std::collections::HashSet::new();
    std::mem::swap(&mut acc, a);
    let ghost keys = vstd::std_specs::iter::IteratorSpec::remaining(&vstd::std_specs::hash::spec_hash_keys_iter(b));
    proof {
        vstd::std_specs::hash::axiom_spec_hash_keys_iter(b);
    }
    for x in it: b.iter()
        invariant
            it.seq() == keys,
            keys.unref().to_set() == b@,
            forall|k: usize| #![trigger acc@.contains(k)] acc@.contains(k) <==> (a0.contains(k) || exists|j: int| 0 <= j < it.index() && *keys[j] == k),
    {
        acc.insert(*x);
        proof {
            assert forall|k: usize| #![trigger acc@.contains(k)] acc@.contains(k) <==> (a0.contains(k) || exists|j: int| 0 <= j < it.index() + 1 && *keys[j] == k) by {
                if k == *x {
                    assert(*keys[it.index()] == k);
                }
            }
        }
    }
    proof {
        assert forall|k: usize| #![trigger acc@.contains(k)] acc@.contains(k) <==> a0.union(b@).contains(k) by {
            if acc@.contains(k) && !a0.contains(k) {
                let j = choose|j: int| 0 <= j < keys.len() && *keys[j] == k;
                assert(keys.unref()[j] == k);
            }
            if b@.contains(k) {
                assert(keys.unref().contains(k));
                let j = choose|j: int| 0 <= j < keys.unref().len() && keys.unref()[j] == k;
                assert(*keys[j] == k);
            }
        }
        assert(acc@ =~= a0.union(b@));
    }
    *a = acc;
}

} // verus!
