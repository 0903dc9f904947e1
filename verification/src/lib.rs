//! Lowering of a small imperative language into a control-flow graph of
//! three-address basic blocks.

pub mod ast;
pub mod cfg;
pub mod ident;
pub mod idset;
pub mod laws;
pub mod lower;
pub mod operands;
pub mod render;
pub mod runs;
pub mod stream;
pub mod tir;
