//! A lexer for Brainfuck source text.
//!
//! [`lexer::lex`] turns program text into a compact instruction stream:
//! consecutive copies of one counted command collapse into a single
//! [`op::Op`] that carries the run length, loop brackets become
//! placeholders whose jump targets are still to be resolved, and every other
//! character is a comment.

pub mod laws;
pub mod lexer;
pub mod model;
pub mod op;

pub use crate::lexer::lex;
pub use crate::op::{Instruction, Op, UNRESOLVED};
