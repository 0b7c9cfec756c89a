//! Three-address code in SSA form: the data model of functions, basic blocks
//! and instructions, a cursor-based editor, and direct SSA construction.

pub mod handle;
pub mod ty;
pub mod err;
pub mod phi;
pub mod inst;
pub mod arena;
pub mod linkedlist;
pub mod chain;
pub mod func;
pub mod splice;
pub mod order;
pub mod builder;
pub mod rewrite;
pub mod ast;
pub mod tacgen;
pub mod scheme;
pub mod small;
pub mod measure;
