//! Code generation helpers for a small compiler's WebAssembly text backend
//! and its common-subexpression elimination pass.

pub mod bitset;
pub mod codegen_wast;
pub mod common_expr;
pub mod flow;
pub mod ir;
pub mod print_wast;
pub mod printer;
pub mod text;
