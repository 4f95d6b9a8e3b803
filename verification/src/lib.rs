//! A tape-machine language toolkit: lexer, run-length bytecode, peephole
//! optimizer, jump resolution, two interpreters and the code generators of
//! three just-in-time engines.

pub mod error;
pub mod agreement;
pub mod brackets;
pub mod bf;
pub mod bytecode_bf;
pub mod jit_utils;
pub mod llvm_jit;
pub mod machine;
pub mod optbytecode_jit;
pub mod parser;
pub mod simple_jit;
pub mod x64;

use vstd::prelude::*;

verus! {

/// Number of cells on the memory tape.
pub const MEMORY_SIZE: usize = 30000;

} // verus!
