//! Front end for a small tensor-declaration language: a span-aware parser,
//! a shape/dtype checker that accumulates diagnostics, and a code generator
//! that lowers checked programs to construction calls against a numeric
//! tensor runtime.

pub mod ast;
pub mod parser;
pub mod type_checker;
pub mod compiler;
