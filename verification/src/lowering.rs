//! Lowering of the abstract syntax tree to the HIR: literals become HIR
//! literals (integers as 64-bit integers), calls and control flow keep their
//! shape, and the entry points receive the command-line arguments.

use vstd::prelude::*;
use crate::ast::{Argument, BehaviorHeader, Discourse, Expression};
use crate::codegen_profile::{is_entry, is_entry_name};
use crate::hir::{HirArgument, HirBehaviorHeader, HirDiscourse, HirExpression, HirLiteral};
use crate::types::{OnuType, ty_equiv};

verus! {

/// `h` is the HIR of the expression `e`.
pub open spec fn lowered(e: Expression, h: HirExpression) -> bool
    decreases e,
{
    match e {
        Expression::I8(n) => h == HirExpression::Literal(HirLiteral::I64(n as i64)),
        Expression::I16(n) => h == HirExpression::Literal(HirLiteral::I64(n as i64)),
        Expression::I32(n) => h == HirExpression::Literal(HirLiteral::I64(n as i64)),
        Expression::I64(n) => h == HirExpression::Literal(HirLiteral::I64(n)),
        Expression::I128(n) => h == HirExpression::Literal(HirLiteral::I64(n as i64)),
        Expression::U8(n) => h == HirExpression::Literal(HirLiteral::I64(n as i64)),
        Expression::U16(n) => h == HirExpression::Literal(HirLiteral::I64(n as i64)),
        Expression::U32(n) => h == HirExpression::Literal(HirLiteral::I64(n as i64)),
        Expression::U64(n) => h == HirExpression::Literal(HirLiteral::I64(n as i64)),
        Expression::F32(n) => h == HirExpression::Literal(HirLiteral::F64(n as u64)),
        Expression::F64(n) => h == HirExpression::Literal(HirLiteral::F64(n)),
        Expression::Boolean(b) => h == HirExpression::Literal(HirLiteral::Boolean(b)),
        Expression::Text(s) => h == HirExpression::Literal(HirLiteral::Text(s)),
        Expression::Nothing => h == HirExpression::Literal(HirLiteral::Nothing),
        Expression::Identifier(s) => h == HirExpression::Variable(s, false),
        Expression::BehaviorCall { name, args } => match h {
            HirExpression::Call { name: n, args: hs } => n == name && hs@.len() == args@.len()
                && forall|i: int| 0 <= i < args@.len() ==> #[trigger] lowered(args@[i], hs@[i]),
            _ => false,
        },
        Expression::Derivation { name, value, body, .. } => match h {
            HirExpression::Derivation { name: n, typ, value: v, body: b } =>
                n == name && typ == OnuType::I64 && lowered(*value, *v) && lowered(*body, *b),
            _ => false,
        },
        Expression::If { condition, then_branch, else_branch } => match h {
            HirExpression::If { condition: c, then_branch: t, else_branch: x } =>
                lowered(*condition, *c) && lowered(*then_branch, *t) && lowered(*else_branch, *x),
            _ => false,
        },
        Expression::Block(es) => match h {
            HirExpression::Block(hs) => hs@.len() == es@.len()
                && forall|i: int| 0 <= i < es@.len() ==> #[trigger] lowered(es@[i], hs@[i]),
            _ => false,
        },
        Expression::Tuple(es) => match h {
            HirExpression::Tuple(hs) => hs@.len() == es@.len()
                && forall|i: int| 0 <= i < es@.len() ==> #[trigger] lowered(es@[i], hs@[i]),
            _ => false,
        },
        Expression::Emit(x) => match h {
            HirExpression::Emit(y) => lowered(*x, *y),
            _ => false,
        },
        Expression::Broadcasts(x) => match h {
            HirExpression::Emit(y) => lowered(*x, *y),
            _ => false,
        },
        Expression::Drop(x) => match h {
            HirExpression::Drop(y) => lowered(*x, *y),
            _ => false,
        },
        Expression::ActsAs { subject, .. } => lowered(*subject, h),
        Expression::Matrix { .. } => h == HirExpression::Literal(HirLiteral::Nothing),
        Expression::BinaryOp { .. } => h == HirExpression::Literal(HirLiteral::Nothing),
    }
}

/// The HIR of an expression.
pub fn lower_expression(expr: &Expression) -> (h: HirExpression)
    ensures
        lowered(*expr, h),
    decreases expr,
{
    let h = match expr {
        Expression::I8(n) => HirExpression::Literal(HirLiteral::I64(*n as i64)),
        Expression::I16(n) => HirExpression::Literal(HirLiteral::I64(*n as i64)),
        Expression::I32(n) => HirExpression::Literal(HirLiteral::I64(*n as i64)),
        Expression::I64(n) => HirExpression::Literal(HirLiteral::I64(*n)),
        Expression::I128(n) => HirExpression::Literal(HirLiteral::I64(#[verifier::truncate] (*n as i64))),
        Expression::U8(n) => HirExpression::Literal(HirLiteral::I64(*n as i64)),
        Expression::U16(n) => HirExpression::Literal(HirLiteral::I64(*n as i64)),
        Expression::U32(n) => HirExpression::Literal(HirLiteral::I64(*n as i64)),
        Expression::U64(n) => HirExpression::Literal(HirLiteral::I64(#[verifier::truncate] (*n as i64))),
        Expression::F32(n) => HirExpression::Literal(HirLiteral::F64(*n as u64)),
        Expression::F64(n) => HirExpression::Literal(HirLiteral::F64(*n)),
        Expression::Boolean(b) => HirExpression::Literal(HirLiteral::Boolean(*b)),
        Expression::Text(s) => HirExpression::Literal(HirLiteral::Text(s.clone())),
        Expression::Nothing => HirExpression::Literal(HirLiteral::Nothing),
        Expression::Identifier(s) => HirExpression::Variable(s.clone(), false),
        Expression::BehaviorCall { name, args } => HirExpression::Call { name: name.clone(), args: lower_list(args) },
        Expression::Derivation { name, value, body, .. } => HirExpression::Derivation {
            name: name.clone(),
            typ: OnuType::I64,
            value: Box::new(lower_expression(value)),
            body: Box::new(lower_expression(body)),
        },
        Expression::If { condition, then_branch, else_branch } => HirExpression::If {
            condition: Box::new(lower_expression(condition)),
            then_branch: Box::new(lower_expression(then_branch)),
            else_branch: Box::new(lower_expression(else_branch)),
        },
        Expression::Block(es) => HirExpression::Block(lower_list(es)),
        Expression::Tuple(es) => HirExpression::Tuple(lower_list(es)),
        Expression::Emit(x) => HirExpression::Emit(Box::new(lower_expression(x))),
        Expression::Broadcasts(x) => HirExpression::Emit(Box::new(lower_expression(x))),
        Expression::Drop(x) => HirExpression::Drop(Box::new(lower_expression(x))),
        Expression::ActsAs { subject, .. } => lower_expression(subject),
        Expression::Matrix { .. } => HirExpression::Literal(HirLiteral::Nothing),
        Expression::BinaryOp { .. } => HirExpression::Literal(HirLiteral::Nothing),
    };
    proof {
        reveal_with_fuel(lowered, 2);
    }
    h
}

/// The HIR of each expression of a list, in order.
pub fn lower_list(es: &Vec<Expression>) -> (hs: Vec<HirExpression>)
    ensures
        hs@.len() == es@.len(),
        forall|i: int| 0 <= i < es@.len() ==> lowered(es@[i], #[trigger] hs@[i]),
    decreases es,
{
    let mut out: Vec<HirExpression> = Vec::new();
    let mut i: usize = 0;
    while i < es.len()
        invariant
            i <= es@.len(),
            out@.len() == i,
            forall|j: int| 0 <= j < i ==> #[trigger] lowered(es@[j], out@[j]),
        decreases es.len() - i,
    {
        assert(decreases_to!(es => es@[i as int]));
        out.push(lower_expression(&es[i]));
        i = i + 1;
    }
    out
}

/// `h` is the HIR of the argument `a`.
pub open spec fn argument_lowered(a: Argument, h: HirArgument) -> bool {
    &&& h.name == a.name
    &&& ty_equiv(h.typ, a.type_info.onu_type)
    &&& h.is_observation == a.type_info.is_observation
}

/// `h` is the HIR of the header `a`: its arguments lowered one by one after
/// `extra` leading ones, its return type, and its `with diminishing`
/// argument, if any.
pub open spec fn header_lowered(a: BehaviorHeader, h: HirBehaviorHeader, extra: int) -> bool {
    &&& h.name == a.name
    &&& h.is_effect == a.is_effect
    &&& h.args@.len() == a.takes@.len() + extra
    &&& forall|i: int| 0 <= i < a.takes@.len() ==> #[trigger] argument_lowered(a.takes@[i], h.args@[i + extra])
    &&& ty_equiv(h.return_type, a.delivers.0)
    &&& h.diminishing@ == match a.diminishing {
        Some(d) => seq![d],
        None => Seq::<String>::empty(),
    }
    &&& h.memo_cache_size is None
}

fn lower_argument(arg: &Argument) -> (h: HirArgument)
    ensures
        argument_lowered(*arg, h),
{
    HirArgument { name: arg.name.clone(), typ: arg.type_info.onu_type.dup(), is_observation: arg.type_info.is_observation }
}

fn lower_header(header: &BehaviorHeader) -> (h: HirBehaviorHeader)
    ensures
        header_lowered(*header, h, 0),
{
    let mut args: Vec<HirArgument> = Vec::new();
    let mut i: usize = 0;
    while i < header.takes.len()
        invariant
            i <= header.takes@.len(),
            args@.len() == i,
            forall|j: int| 0 <= j < i ==> #[trigger] argument_lowered(header.takes@[j], args@[j + 0]),
        decreases header.takes.len() - i,
    {
        args.push(lower_argument(&header.takes[i]));
        i = i + 1;
    }
    let mut diminishing: Vec<String> = Vec::new();
    if let Some(d) = &header.diminishing {
        diminishing.push(d.clone());
    }
    HirBehaviorHeader {
        name: header.name.clone(),
        is_effect: header.is_effect,
        args,
        return_type: header.delivers.0.dup(),
        diminishing,
        memo_cache_size: None,
    }
}

/// `h` is the HIR of the discourse unit `d`. The header of an entry point
/// (`main` or `run`) takes `__argc` (`I32`) and `__argv` (`U64`) before its
/// own arguments.
pub open spec fn discourse_lowered(d: Discourse, h: HirDiscourse) -> bool {
    match d {
        Discourse::Module { name, concern } => h == HirDiscourse::Module { name, concern },
        Discourse::Behavior { header, body } => match h {
            HirDiscourse::Behavior { header: hh, body: hb } => {
                &&& lowered(body, hb)
                &&& if is_entry_name(header.name@) {
                    &&& header_lowered(header, hh, 2)
                    &&& hh.args@[0].name@ == "__argc"@
                    &&& hh.args@[0].typ == OnuType::I32
                    &&& !hh.args@[0].is_observation
                    &&& hh.args@[1].name@ == "__argv"@
                    &&& hh.args@[1].typ == OnuType::U64
                    &&& !hh.args@[1].is_observation
                } else {
                    header_lowered(header, hh, 0)
                }
            },
            _ => false,
        },
        Discourse::Shape { name, behaviors, .. } => match h {
            HirDiscourse::Shape { name: n, behaviors: hs } => n == name && hs@.len() == behaviors@.len()
                && forall|i: int| 0 <= i < behaviors@.len() ==> #[trigger] header_lowered(behaviors@[i], hs@[i], 0),
            _ => false,
        },
    }
}

/// Lowers the abstract syntax of discourse units to the HIR.
pub struct LoweringService;

impl LoweringService {
    /// The HIR of a discourse unit.
    pub fn lower_discourse(discourse: &Discourse) -> (h: HirDiscourse)
        ensures
            discourse_lowered(*discourse, h),
    {
        match discourse {
            Discourse::Module { name, concern } => HirDiscourse::Module { name: name.clone(), concern: concern.clone() },
            Discourse::Behavior { header, body } => {
                let mut hh = lower_header(header);
                if is_entry(header.name.as_str()) {
                    let ghost a0 = hh.args@;
                    hh.args.insert(0, HirArgument { name: "__argc".to_string(), typ: OnuType::I32, is_observation: false });
                    hh.args.insert(1, HirArgument { name: "__argv".to_string(), typ: OnuType::U64, is_observation: false });
                    proof {
                        assert forall|i: int| 0 <= i < header.takes@.len() implies #[trigger] argument_lowered(header.takes@[i], hh.args@[i + 2]) by {
                            assert(hh.args@[i + 2] == a0[i]);
                            assert(argument_lowered(header.takes@[i], a0[i + 0]));
                        }
                    }
                }
                HirDiscourse::Behavior { header: hh, body: lower_expression(body) }
            },
            Discourse::Shape { name, behaviors, .. } => {
                let mut hs: Vec<HirBehaviorHeader> = Vec::new();
                let mut i: usize = 0;
                while i < behaviors.len()
                    invariant
                        i <= behaviors@.len(),
                        hs@.len() == i,
                        forall|j: int| 0 <= j < i ==> #[trigger] header_lowered(behaviors@[j], hs@[j], 0),
                    decreases behaviors.len() - i,
                {
                    hs.push(lower_header(&behaviors[i]));
                    i = i + 1;
                }
                HirDiscourse::Shape { name: name.clone(), behaviors: hs }
            },
        }
    }
}

} // verus!
