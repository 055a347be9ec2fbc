//! A verified core for a command-line arithmetic expression evaluator.
//!
//! The pipeline has three stages: the tokenizer turns a line of text into a
//! sequence of tokens, the parser turns tokens into an abstract syntax tree,
//! and the evaluation rules decide, from discrete facts about the operands,
//! which arithmetic routine applies or which domain error is reported.
//! The floating-point arithmetic itself stays with the caller, outside this
//! library; everything discrete about the pipeline is specified and proved.

pub mod eval;
pub mod lexer;
pub mod parser;
