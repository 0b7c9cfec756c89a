//! Errors that the editing operations report.

use vstd::prelude::*;
use crate::handle::{BBId, InstId};
use crate::ty::Ty;

verus! {

/// What went wrong in a fallible operation.
#[derive(Clone, Copy, Debug, PartialEq, Eq, Structural)]
pub enum Error {
    /// The handle names no live basic block.
    NoSuchBB(BBId),
    /// The handle names no live instruction.
    NoSuchInst(InstId),
    /// Two operands that must agree in type do not.
    TypeMismatch { expected: Ty, found: Ty },
}

pub type TacResult<T> = Result<T, Error>;

} // verus!
