//! A small C-like compiler front end: lexer, Pratt parser, scope analyzer and
//! LLVM IR text generator, each stated over a mathematical model.
pub mod ast;
pub mod error;
pub mod ir;
pub mod lexer;
pub mod parser;
pub mod semantic;
pub mod token;
pub mod text;
pub mod types;
