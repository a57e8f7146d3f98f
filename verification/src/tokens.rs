//! Tokens, and the ports through which the pipeline stages are driven.

use vstd::prelude::*;
use crate::error::OnuError;

verus! {

/// A lexical token of the Ọ̀nụ surface language.
#[derive(Debug, Clone, PartialEq, Eq, Hash)]
pub enum Token {
    Identifier(String),
    Literal(Literal),
    Operator(String),
    Delimiter(char),
    Indent,
    Dedent,
    /// Start of a line, with its indentation level.
    LineStart(usize),
    TheModuleCalled,
    TheShapeCalled,
    TheBehaviorCalled,
    TheEffectBehaviorCalled,
    WithConcern,
    WithIntent,
    WithDiminishing,
    NoGuaranteedTermination,
    DerivesFrom,
    DecreasedBy,
    PartitionsBy,
    ScalesBy,
    AddedTo,
    Utilizes,
    As,
    Takes,
    Delivers,
    Called,
    If,
    Then,
    Else,
    Derivation,
    Broadcasts,
    Nothing,
    Matches,
    Exceeds,
    FallsShortOf,
    UnitesWith,
    JoinsWith,
    Opposes,
    InitOf,
    TailOf,
    DuplicatedAs,
    To,
    From,
}

/// A literal value as written in the source.
#[derive(Debug, Clone, PartialEq, Eq, Hash)]
pub enum Literal {
    Integer(i128),
    /// The IEEE-754 binary64 bits of a decimal literal.
    FloatBits(u64),
    String(String),
    Boolean(bool),
    /// A decimal literal as written, before its binary64 bits are computed.
    Decimal(String),
}

/// Two literals are the same literal (texts compared by their characters).
pub open spec fn literal_same(a: Literal, b: Literal) -> bool {
    match a {
        Literal::String(x) => b matches Literal::String(y) && x@ == y@,
        Literal::Decimal(x) => b matches Literal::Decimal(y) && x@ == y@,
        Literal::Integer(x) => b matches Literal::Integer(y) && x == y,
        Literal::FloatBits(x) => b matches Literal::FloatBits(y) && x == y,
        Literal::Boolean(x) => b matches Literal::Boolean(y) && x == y,
    }
}

/// Two tokens are the same token (texts compared by their characters).
pub open spec fn token_same(a: Token, b: Token) -> bool {
    match a {
        Token::Identifier(x) => b matches Token::Identifier(y) && x@ == y@,
        Token::Operator(x) => b matches Token::Operator(y) && x@ == y@,
        Token::Literal(x) => b matches Token::Literal(y) && literal_same(x, y),
        _ => a == b,
    }
}

/// Whether two literals are the same literal.
pub fn literal_eq(a: &Literal, b: &Literal) -> (r: bool)
    ensures
        r == literal_same(*a, *b),
{
    match (a, b) {
        (Literal::Integer(x), Literal::Integer(y)) => *x == *y,
        (Literal::FloatBits(x), Literal::FloatBits(y)) => *x == *y,
        (Literal::String(x), Literal::String(y)) => *x == *y,
        (Literal::Boolean(x), Literal::Boolean(y)) => *x == *y,
        (Literal::Decimal(x), Literal::Decimal(y)) => *x == *y,
        _ => false,
    }
}

/// The position of a token's variant in the declaration of `Token`.
pub open spec fn token_kind(t: Token) -> int {
    match t {
        Token::Identifier(_) => 0,
        Token::Literal(_) => 1,
        Token::Operator(_) => 2,
        Token::Delimiter(_) => 3,
        Token::Indent => 4,
        Token::Dedent => 5,
        Token::LineStart(_) => 6,
        Token::TheModuleCalled => 7,
        Token::TheShapeCalled => 8,
        Token::TheBehaviorCalled => 9,
        Token::TheEffectBehaviorCalled => 10,
        Token::WithConcern => 11,
        Token::WithIntent => 12,
        Token::WithDiminishing => 13,
        Token::NoGuaranteedTermination => 14,
        Token::DerivesFrom => 15,
        Token::DecreasedBy => 16,
        Token::PartitionsBy => 17,
        Token::ScalesBy => 18,
        Token::AddedTo => 19,
        Token::Utilizes => 20,
        Token::As => 21,
        Token::Takes => 22,
        Token::Delivers => 23,
        Token::Called => 24,
        Token::If => 25,
        Token::Then => 26,
        Token::Else => 27,
        Token::Derivation => 28,
        Token::Broadcasts => 29,
        Token::Nothing => 30,
        Token::Matches => 31,
        Token::Exceeds => 32,
        Token::FallsShortOf => 33,
        Token::UnitesWith => 34,
        Token::JoinsWith => 35,
        Token::Opposes => 36,
        Token::InitOf => 37,
        Token::TailOf => 38,
        Token::DuplicatedAs => 39,
        Token::To => 40,
        Token::From => 41,
    }
}

/// The position of a token's variant in the declaration of `Token`.
pub fn kind_of(t: &Token) -> (r: u8)
    ensures
        r as int == token_kind(*t),
{
    match t {
        Token::Identifier(_) => 0,
        Token::Literal(_) => 1,
        Token::Operator(_) => 2,
        Token::Delimiter(_) => 3,
        Token::Indent => 4,
        Token::Dedent => 5,
        Token::LineStart(_) => 6,
        Token::TheModuleCalled => 7,
        Token::TheShapeCalled => 8,
        Token::TheBehaviorCalled => 9,
        Token::TheEffectBehaviorCalled => 10,
        Token::WithConcern => 11,
        Token::WithIntent => 12,
        Token::WithDiminishing => 13,
        Token::NoGuaranteedTermination => 14,
        Token::DerivesFrom => 15,
        Token::DecreasedBy => 16,
        Token::PartitionsBy => 17,
        Token::ScalesBy => 18,
        Token::AddedTo => 19,
        Token::Utilizes => 20,
        Token::As => 21,
        Token::Takes => 22,
        Token::Delivers => 23,
        Token::Called => 24,
        Token::If => 25,
        Token::Then => 26,
        Token::Else => 27,
        Token::Derivation => 28,
        Token::Broadcasts => 29,
        Token::Nothing => 30,
        Token::Matches => 31,
        Token::Exceeds => 32,
        Token::FallsShortOf => 33,
        Token::UnitesWith => 34,
        Token::JoinsWith => 35,
        Token::Opposes => 36,
        Token::InitOf => 37,
        Token::TailOf => 38,
        Token::DuplicatedAs => 39,
        Token::To => 40,
        Token::From => 41,
    }
}

/// Tokens without payload are determined by their kind.
pub proof fn lemma_kind_determines_unit(a: Token, b: Token)
    requires
        token_kind(a) == token_kind(b),
        token_kind(a) >= 4,
        !(a is LineStart),
    ensures
        a == b,
{
}

/// Whether two tokens are the same token.
pub fn token_eq(a: &Token, b: &Token) -> (r: bool)
    ensures
        r == token_same(*a, *b),
{
    match (a, b) {
        (Token::Identifier(x), Token::Identifier(y)) => *x == *y,
        (Token::Operator(x), Token::Operator(y)) => *x == *y,
        (Token::Literal(x), Token::Literal(y)) => literal_eq(x, y),
        (Token::Delimiter(x), Token::Delimiter(y)) => *x == *y,
        (Token::LineStart(x), Token::LineStart(y)) => *x == *y,
        _ => {
            let ka = kind_of(a);
            let kb = kind_of(b);
            if ka == kb && ka >= 4 {
                proof {
                    if !(*a is LineStart) {
                        lemma_kind_determines_unit(*a, *b);
                    }
                }
                true
            } else {
                false
            }
        },
    }
}

/// Turns source text into tokens.
pub trait LexerPort {
    fn lex(&self, source: &str) -> Result<Vec<Token>, OnuError>;
}

/// Turns tokens into discourse units.
pub trait ParserPort {
    fn parse(&self, tokens: Vec<Token>) -> Result<Vec<crate::ast::Discourse>, OnuError>;
}

/// Turns a MIR program into target code.
pub trait CodegenPort {
    fn generate(&self, program: &crate::mir::MirProgram) -> Result<String, OnuError>;

    fn set_registry(&mut self, registry: crate::registry_service::RegistryService);
}

/// A module that an extension contributes, identified by its realization.
pub trait ExtensionPort: crate::registry::BuiltInModule {
    fn realization_id(&self) -> &str;
}

/// Access to the operating system: files, commands and the log.
pub trait EnvironmentPort {
    fn read_file(&self, path: &str) -> Result<String, OnuError>;

    fn write_file(&self, path: &str, content: &str) -> Result<(), OnuError>;

    fn write_binary(&self, path: &str, content: &[u8]) -> Result<(), OnuError>;

    fn run_command(&self, command: &str, args: &[&str]) -> Result<String, OnuError>;

    fn log(&self, level: crate::options::LogLevel, message: &str);
}

} // verus!
