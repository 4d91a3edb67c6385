//! A compiler from a small line-numbered BASIC dialect to C.
//!
//! The pipeline is `lexer::lex` (text to tokens), `parser::parse` (tokens to
//! numbered lines) and `transpiler::transpile` (lines to C source built around
//! a dispatch loop over the current line number). `machine` states what one
//! turn of that loop does, and `unparse` writes parsed expressions back as
//! tokens and proves that they parse to themselves.
pub mod lexer;
pub mod machine;
pub mod parser;
pub mod text;
pub mod transpiler;
pub mod unparse;
