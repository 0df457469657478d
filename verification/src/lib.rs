//! Two compilers for the L1S language: `basic`, which lowers a program to
//! virtual registers kept in stack slots, and `ssa`, which builds a block graph,
//! optimises it and allocates machine registers.
pub mod basic;
pub mod ssa;
pub mod scope;
pub mod text;
