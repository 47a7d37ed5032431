//! An interpreter for a minimal, Turing-complete instruction language on a
//! fixed-size circular byte tape: a lexer that keeps only the nine
//! significant characters, a stack-based parser that merges runs of like
//! instructions and resolves bracket nesting into an owned operation tree,
//! and a tree-walking executor with wraparound cell and pointer arithmetic.
//!
//! Every stage is specified against a small mathematical semantics
//! (`semantics::run_seq`) and verified: the lexer and parser return exactly
//! what `lexer::spec_tokenize` and `parser::spec_parse` say, and the
//! executor reproduces the fuel-indexed run of that semantics, where fuel
//! bounds only how often loops may repeat. The laws module proves the
//! wraparound, loop-termination and bracket-matching properties outright.

pub mod ast;
pub mod laws;
pub mod lexer;
pub mod machine;
pub mod parser;
pub mod semantics;

pub use ast::{InterpreterError, OpModel, Operation, RunStatus, Token, MEMORY_SIZE};
pub use machine::Program;
pub use semantics::MachineState;
