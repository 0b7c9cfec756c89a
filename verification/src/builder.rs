//! Building a function: the cursor-based editor and, on top of it, the
//! construction of SSA form.

pub mod func_editor;
pub mod tables;
pub mod ssa;
pub mod tidy;
pub mod lean;
pub mod steps;
