//! A verified pipeline for an eight-instruction pointer-and-tape language:
//! a lexer from source text to tokens, a bracket-matching parser from tokens
//! to a statement tree, and an interpreter that runs the tree against a
//! fixed-size byte tape through an abstract single-byte input/output
//! capability. Every phase carries a contract over a mathematical model —
//! token sequences, a specification-level statement tree, and a small-step
//! abstract machine — and the laws of the language (when parsing succeeds,
//! what the bracket errors mean, what a run outputs) are proved as lemmas.

pub mod ast;
pub mod lexer;
pub mod parser;
pub mod runner;
pub mod semantics;
