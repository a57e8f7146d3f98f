use vstd::prelude::*;

pub mod text;
pub mod types;
pub mod error;
pub mod options;
pub mod tokens;
pub mod ast;
pub mod hir;
pub mod mir;
pub mod registry;
pub mod registry_service;
pub mod matrix_parser;
pub mod svo_parser;
pub mod error_recovery;
pub mod ssa_set;
pub mod mir_util;
pub mod codegen_profile;
pub mod integer_upgrade;
pub mod mir_builder;
pub mod mir_lowering;
pub mod stdlib_lowering;
pub mod lowering_rel;
pub mod analyzer;
pub mod memo;
pub mod lexer;
pub mod safety;
pub mod lifetime;
pub mod idiom;
pub mod promotion;
pub mod intrinsics;
pub mod module_service;
pub mod layout;
pub mod lowering;
pub mod parser;
pub mod wasm;
pub mod inline;

verus! {


} // verus!
