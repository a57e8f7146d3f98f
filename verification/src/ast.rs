//! The abstract syntax tree produced by the parser.

use vstd::prelude::*;
use crate::types::OnuType;

verus! {

/// A binary operator of the surface language.
#[derive(Debug, Clone, Copy, PartialEq, Eq, Hash, Structural)]
pub enum BinOp {
    Add,
    Sub,
    Mul,
    Div,
    Equal,
    NotEqual,
    LessThan,
    GreaterThan,
}

/// A type annotation as written (`a string`, `an integer`, ...).
#[derive(Debug, PartialEq, Eq, Hash)]
pub struct TypeInfo {
    pub onu_type: OnuType,
    pub display_name: String,
    pub via_role: Option<String>,
    pub is_observation: bool,
}

/// A declared argument of a behavior or field of a shape.
#[derive(Debug, PartialEq, Eq, Hash)]
pub struct Argument {
    pub name: String,
    pub type_info: TypeInfo,
}

/// The declared return type of a behavior.
#[derive(Debug, PartialEq, Eq, Hash)]
pub struct ReturnType(pub OnuType);

/// Everything about a behavior except its body.
#[derive(Debug, PartialEq, Eq, Hash)]
pub struct BehaviorHeader {
    pub name: String,
    pub is_effect: bool,
    pub intent: String,
    pub takes: Vec<Argument>,
    pub delivers: ReturnType,
    pub diminishing: Option<String>,
    pub skip_termination_check: bool,
}

/// An expression of the surface language.
#[derive(Debug, PartialEq, Eq, Hash)]
pub enum Expression {
    I8(i8),
    I16(i16),
    I32(i32),
    I64(i64),
    I128(i128),
    U8(u8),
    U16(u16),
    U32(u32),
    U64(u64),
    /// The bits of a single-precision literal.
    F32(u32),
    /// The bits of a double-precision literal.
    F64(u64),
    Boolean(bool),
    Text(String),
    Nothing,
    Identifier(String),
    Tuple(Vec<Expression>),
    Matrix { rows: usize, cols: usize, data: Vec<Expression> },
    BehaviorCall { name: String, args: Vec<Expression> },
    BinaryOp { left: Box<Expression>, op: BinOp, right: Box<Expression> },
    Derivation {
        name: String,
        type_info: Option<TypeInfo>,
        value: Box<Expression>,
        body: Box<Expression>,
    },
    If { condition: Box<Expression>, then_branch: Box<Expression>, else_branch: Box<Expression> },
    Block(Vec<Expression>),
    Emit(Box<Expression>),
    Broadcasts(Box<Expression>),
    Drop(Box<Expression>),
    ActsAs { subject: Box<Expression>, shape: String },
}

/// A top-level unit of an Ọ̀nụ program.
#[derive(Debug, PartialEq, Eq, Hash)]
pub enum Discourse {
    Module { name: String, concern: String },
    Shape { name: String, fields: Vec<Argument>, behaviors: Vec<BehaviorHeader> },
    Behavior { header: BehaviorHeader, body: Expression },
}

} // verus!
