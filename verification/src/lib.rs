//! A small stack language with structured `if`/`else` and `while`/`do` blocks:
//! lexing of source lines, resolution of blocks into absolute jump targets,
//! a step-bounded interpreter and a generator of assembly text.

pub mod token;
pub mod text;
pub mod resolve;
pub mod interp;
pub mod codegen;
pub mod lexer;
pub mod laws;
pub mod grammar;
