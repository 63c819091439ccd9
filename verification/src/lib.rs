//! A toy language front end: tokens, token sets, syntax kinds, operator
//! binding powers, a concrete syntax tree with typed AST accessors, the
//! lowering of that tree to a high-level IR, and of that IR to a mid-level
//! IR of basic blocks with its textual form.
use vstd::prelude::*;

pub mod token;
pub mod token_set;
pub mod cst_kind;
pub mod syntax;
pub mod grammar;
pub mod profiler;
pub mod compiler;
pub mod hir;
pub mod mir;
pub mod cst;
pub mod text;
pub mod literal;
pub mod ast;
pub mod float_zero;
pub mod hir_lower;
pub mod hir_shape;
pub mod combine;
pub mod mir_lower;
pub mod mir_text;

verus! {

} // verus!
