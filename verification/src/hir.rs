//! The high-level intermediate representation.

use vstd::prelude::*;
use crate::types::OnuType;

verus! {

/// A literal of the HIR.
#[derive(Debug, PartialEq, Eq, Hash)]
pub enum HirLiteral {
    I64(i64),
    /// The bits of a double-precision value.
    F64(u64),
    Boolean(bool),
    Text(String),
    Nothing,
}

/// A binary operator of the HIR.
#[derive(Debug, Clone, Copy, PartialEq, Eq, Hash, Structural)]
pub enum HirBinOp {
    Add,
    Sub,
    Mul,
    Div,
    Equal,
    NotEqual,
    LessThan,
    GreaterThan,
}

/// An argument of a behavior in the HIR.
#[derive(Debug, PartialEq, Eq, Hash)]
pub struct HirArgument {
    pub name: String,
    pub typ: OnuType,
    pub is_observation: bool,
}

/// A behavior's header in the HIR.
#[derive(Debug, PartialEq, Eq, Hash)]
pub struct HirBehaviorHeader {
    pub name: String,
    pub is_effect: bool,
    pub args: Vec<HirArgument>,
    pub return_type: OnuType,
    /// The arguments that shrink on every recursive call.
    pub diminishing: Vec<String>,
    pub memo_cache_size: Option<usize>,
}

/// An expression of the HIR.
#[derive(Debug, PartialEq, Eq, Hash)]
pub enum HirExpression {
    Literal(HirLiteral),
    /// A variable, and whether the use consumes it.
    Variable(String, bool),
    Call { name: String, args: Vec<HirExpression> },
    BinaryOp { op: HirBinOp, left: Box<HirExpression>, right: Box<HirExpression> },
    Derivation { name: String, typ: OnuType, value: Box<HirExpression>, body: Box<HirExpression> },
    If {
        condition: Box<HirExpression>,
        then_branch: Box<HirExpression>,
        else_branch: Box<HirExpression>,
    },
    ActsAs { subject: Box<HirExpression>, shape: String },
    Tuple(Vec<HirExpression>),
    Index { subject: Box<HirExpression>, index: usize },
    Block(Vec<HirExpression>),
    Emit(Box<HirExpression>),
    Drop(Box<HirExpression>),
}

/// A top-level unit of the HIR.
#[derive(Debug, PartialEq, Eq, Hash)]
pub enum HirDiscourse {
    Module { name: String, concern: String },
    Shape { name: String, behaviors: Vec<HirBehaviorHeader> },
    Behavior { header: HirBehaviorHeader, body: HirExpression },
}

} // verus!
