//! Types of values.

use vstd::prelude::*;

verus! {

/// The type of the value that an instruction produces.
#[derive(Clone, Copy, Debug, PartialEq, Eq, Hash, Structural)]
pub enum Ty {
    /// No value at all.
    Unit,
    /// A 32-bit signed integer.
    I32,
    /// A 64-bit signed integer, the type of integer literals.
    I64,
}

impl Ty {
    pub fn unit() -> (r: Ty)
        ensures
            r == Ty::Unit,
    {
        Ty::Unit
    }

    pub fn integer() -> (r: Ty)
        ensures
            r == Ty::I64,
    {
        Ty::I64
    }
}

impl Default for Ty {
    fn default() -> (r: Ty)
        ensures
            r == Ty::Unit,
    {
        Ty::Unit
    }
}

} // verus!
