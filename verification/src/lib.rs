//! A verified interpreter for Postfix, a small parenthesized, stack-based
//! language: programs declare a parameter count and then run a sequence of
//! integer literals, nested executable blocks, and built-in operators against
//! an operand stack.
//!
//! The pipeline has three stages, each specified against a mathematical model
//! and proved to follow it exactly:
//! lexing (`lexer`), parsing (`programs::parse_tokens_to_program`), and
//! evaluation (`enums::execute_command`, driven by `programs::compile_and_run`).

pub mod enums;
pub mod errors;
pub mod lexer;
pub mod programs;
