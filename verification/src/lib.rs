//! An interpreter for MAL, a small Lisp-family language, written to be
//! verified: the value model, tokenizer, reader, lexical environments,
//! evaluator and native library each carry contracts over a mathematical
//! model of the data, and the structural laws of the language (cross-tag
//! sequence equality, the binding rules, the atom round trip) are proved.
//!
//! A host shell drives the interpreter through `eval::rep`, handing it one
//! line of source text and a store; `prn` output accumulates in the store
//! for the shell to flush to its sink.
pub mod env;
pub mod eval;
pub mod natives;
pub mod printer;
pub mod reader;
pub mod types;
