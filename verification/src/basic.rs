//! The stack-slot compiler: lexer, parser, type checker, IR builder,
//! stack allocator and assembly generator.
pub mod span;
pub mod token;
pub mod diag;
pub mod ast;
pub mod ir;
pub mod symbols;
pub mod regalloc;
pub mod lexer;
pub mod parser;
pub mod grammar;
pub mod typeck;
pub mod ir_build;
pub mod codegen;
pub mod lowerable;
pub mod machine;
