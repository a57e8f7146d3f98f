//! Options that configure the compilation pipeline.

use vstd::prelude::*;
use crate::text::str_eq;

verus! {

/// How much the pipeline reports while it works.
#[derive(Debug, Clone, Copy, PartialEq, Eq, PartialOrd, Ord, Hash, Structural)]
pub enum LogLevel {
    Off,
    Error,
    Warn,
    Info,
    Debug,
    Trace,
}

/// The numeric rank of a log level, from 0 (`Off`) to 5 (`Trace`).
pub open spec fn spec_log_rank(l: LogLevel) -> int {
    match l {
        LogLevel::Off => 0,
        LogLevel::Error => 1,
        LogLevel::Warn => 2,
        LogLevel::Info => 3,
        LogLevel::Debug => 4,
        LogLevel::Trace => 5,
    }
}

impl LogLevel {
    /// The numeric rank of this level, from 0 (`Off`) to 5 (`Trace`).
    pub fn rank(&self) -> (r: u8)
        ensures
            r as int == spec_log_rank(*self),
    {
        match self {
            LogLevel::Off => 0,
            LogLevel::Error => 1,
            LogLevel::Warn => 2,
            LogLevel::Info => 3,
            LogLevel::Debug => 4,
            LogLevel::Trace => 5,
        }
    }

    /// Whether a message of level `level` is shown when the configured level
    /// is `self`: it is, unless it is `Off` or more detailed than `self`.
    pub fn shows(&self, level: LogLevel) -> (r: bool)
        ensures
            r == (spec_log_rank(level) <= spec_log_rank(*self) && level != LogLevel::Off),
    {
        level.rank() <= self.rank() && level.rank() != 0
    }
}

/// A stage of the pipeline after which compilation may stop.
#[derive(Debug, Clone, Copy, PartialEq, Eq, Hash, Structural)]
pub enum CompilerStage {
    Lexing,
    Parsing,
    Analysis,
    Mir,
    Codegen,
    Realization,
}

/// The stage named by a lower-case word.
pub open spec fn spec_stage_named(s: Seq<char>) -> Option<CompilerStage> {
    if s == "lexing"@ {
        Some(CompilerStage::Lexing)
    } else if s == "parsing"@ {
        Some(CompilerStage::Parsing)
    } else if s == "analysis"@ {
        Some(CompilerStage::Analysis)
    } else if s == "mir"@ {
        Some(CompilerStage::Mir)
    } else if s == "codegen"@ {
        Some(CompilerStage::Codegen)
    } else if s == "realization"@ {
        Some(CompilerStage::Realization)
    } else {
        None
    }
}

/// What `str::to_lowercase` returns for a string: its Unicode lower-case
/// form (mostly a mapping of each character; a final Greek sigma depends on
/// its neighbours), a function of the string alone.
pub uninterp spec fn spec_lowercase(s: Seq<char>) -> Seq<char>;

/// `str::to_lowercase`.
#[verifier::external_body]
fn lowercase(s: &str) -> (r: String)
    ensures
        r@ == spec_lowercase(s@),
{
    s.to_lowercase()
}

impl CompilerStage {
    /// The stage named by a word already in lower case.
    pub fn from_lowercase(s: &str) -> (r: Option<CompilerStage>)
        ensures
            r == spec_stage_named(s@),
    {
        proof {
            reveal_strlit("lexing");
            reveal_strlit("parsing");
            reveal_strlit("analysis");
            reveal_strlit("mir");
            reveal_strlit("codegen");
            reveal_strlit("realization");
        }
        if str_eq(s, "lexing") {
            Some(CompilerStage::Lexing)
        } else if str_eq(s, "parsing") {
            Some(CompilerStage::Parsing)
        } else if str_eq(s, "analysis") {
            Some(CompilerStage::Analysis)
        } else if str_eq(s, "mir") {
            Some(CompilerStage::Mir)
        } else if str_eq(s, "codegen") {
            Some(CompilerStage::Codegen)
        } else if str_eq(s, "realization") {
            Some(CompilerStage::Realization)
        } else {
            None
        }
    }

    /// The stage named by a word, in any letter case.
    pub fn from_str(s: &str) -> (r: Option<CompilerStage>)
        ensures
            r == spec_stage_named(spec_lowercase(s@)),
    {
        let lower = lowercase(s);
        Self::from_lowercase(lower.as_str())
    }
}

/// The configuration of one compilation.
#[derive(Debug, Clone, PartialEq, Eq)]
pub struct CompilationOptions {
    pub stop_after: Option<CompilerStage>,
    pub log_level: LogLevel,
    pub emit_hir: bool,
    pub emit_mir: bool,
    pub emit_tokens: bool,
    pub optimization_level: u32,
}

impl Default for CompilationOptions {
    fn default() -> (r: CompilationOptions)
        ensures
            r == (CompilationOptions {
                stop_after: None,
                log_level: LogLevel::Info,
                emit_hir: false,
                emit_mir: false,
                emit_tokens: false,
                optimization_level: 0,
            }),
    {
        CompilationOptions {
            stop_after: None,
            log_level: LogLevel::Info,
            emit_hir: false,
            emit_mir: false,
            emit_tokens: false,
            optimization_level: 0,
        }
    }
}

} // verus!
