//! A small regular-expression engine.
//!
//! A pattern is parsed into a syntax tree, the tree is lowered into a program
//! for a small virtual machine, and the program is run against a line of
//! characters, either by backtracking or by stepping all candidate threads in
//! turn.
pub mod engine;
pub mod helper;

pub use engine::{disassemble, do_matching, try_matching};
