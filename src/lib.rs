//! An interpreter for the eight-instruction tape-machine language: a scanner
//! over source text, a compiler that merges runs and resolves brackets, and a
//! step-wise execution engine over a fixed byte tape.

pub mod compiler;
pub mod engine;
pub mod laws;
pub mod scanner;
pub mod tape;
