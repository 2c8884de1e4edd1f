//! A matcher for a small prefix-notation pattern language, in the style of
//! Thompson's and Pike's virtual-machine approach to regular-expression
//! matching: a pattern string is parsed into a tree, the tree is lowered to a
//! four-opcode bytecode, and the bytecode is run by either of two equivalent
//! backtracking evaluators (one recursive, one with an explicit stack).

pub mod compile;
pub mod instruction;
pub mod ranks;
pub mod recursive;
pub mod semantics;
pub mod stack;

pub use instruction::Instr;
