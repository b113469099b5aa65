//! A compiler for a small C-like language: scanner, parser, semantic
//! analysis and RISC-V code generation.
use vstd::prelude::*;

pub mod text;
pub mod structs;
pub mod scanner;
pub mod parser;
pub mod symtab;
pub mod ast_text;
pub mod sematics;
pub mod codegen;

verus! {
} // verus!
