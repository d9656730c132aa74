//! A tiny Unix shell's verified core: the tokenizer, the pipeline parser,
//! and the decisions that drive the execution of a parsed pipeline.
pub mod builtin;
pub mod exec;
pub mod lexer;
pub mod line;
pub mod parser;
