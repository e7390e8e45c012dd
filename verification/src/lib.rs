//! A single-pass compiler for a small stack language.
//!
//! Source text is split into words, the words are classified into tokens while
//! nested `if`/`else` and `while`/`do` blocks are resolved into numbered
//! regions, and the tokens are lowered to assembly text for 64-bit Linux.

pub mod assembly;
pub mod blocks;
pub mod codegen;
pub mod error;
pub mod labels;
pub mod lexer;
pub mod nesting;
pub mod parser;
pub mod pipeline;
pub mod text;
pub mod token;
