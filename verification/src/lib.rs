//! A compiler from LIR, a small variable-addressed instruction language,
//! down to brainfuck source text, together with a brainfuck interpreter
//! and a peephole optimizer for the generated code.
//!
//! The pipeline is staged: `parser` turns LIR text into an instruction
//! list, `analysis` validates it and assigns every variable a tape cell,
//! and `codegen` lowers the instructions to brainfuck. `interpreter` runs
//! the result against a byte input, and `optim` shrinks it.

pub mod instruction;
pub mod parser;
pub mod analysis;
pub mod codegen;
pub mod interpreter;
pub mod optim;
pub mod utils;
pub mod ast;
pub mod tokens;
