//! A compiler for a small imperative language whose target is a command stream
//! for a register-and-stack virtual machine: lexer, parser, semantic analysis
//! and code generation, each stage with its contract.
pub mod compiler;
pub mod error;
pub mod lexer;
pub mod parser;
pub mod pipeline;
pub mod render;
pub mod semantic;
