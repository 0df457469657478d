//! The block-graph compiler: lexer, parser, type checker, IR builder,
//! optimiser and linear-scan register allocator.
pub mod span;
pub mod ast;
pub mod token;
pub mod diag;
pub mod lexer;
pub mod parser;
pub mod grammar;
pub mod ir;
pub mod symbols;
pub mod typeck;
pub mod ir_opt;
pub mod ir_build;
pub mod regalloc;
pub mod table;
pub mod meaning;
