//! Generational handles that identify instructions and basic blocks.
//!
//! A handle packs a slot number into its low 32 bits and a generation counter
//! into its high 32 bits. A live entity always has a generation of at least
//! one, so the all-zero handle is free to serve as the null handle.

use vstd::prelude::*;

verus! {

/// Handle of an instruction inside one function.
#[derive(Clone, Copy, Debug, PartialEq, Eq, Hash, PartialOrd, Ord, Structural)]
pub struct InstId {
    pub bits: u64,
}

/// Handle of a basic block inside one function.
#[derive(Clone, Copy, Debug, PartialEq, Eq, Hash, PartialOrd, Ord, Structural)]
pub struct BBId {
    pub bits: u64,
}

/// The slot number packed into `bits`.
pub open spec fn slot_of(bits: u64) -> u32 {
    (bits & 0xffff_ffff) as u32
}

/// The generation counter packed into `bits`.
pub open spec fn generation_of(bits: u64) -> u32 {
    (bits >> 32) as u32
}

fn low_half(bits: u64) -> (r: u32)
    ensures
        r == slot_of(bits),
{
    assert(bits & 0xffff_ffff <= 0xffff_ffff) by (bit_vector);
    (bits & 0xffff_ffff) as u32
}

fn high_half(bits: u64) -> (r: u32)
    ensures
        r == generation_of(bits),
{
    assert(bits >> 32 <= 0xffff_ffff) by (bit_vector);
    (bits >> 32) as u32
}

/// A handle whose generation is not zero is not the null handle.
pub proof fn lemma_generation_nonzero(bits: u64)
    requires
        generation_of(bits) != 0,
    ensures
        bits != 0,
{
    assert(bits >> 32 != 0 ==> bits != 0) by (bit_vector);
    assert(bits >> 32 <= 0xffff_ffff) by (bit_vector);
}

impl InstId {
    /// The null handle, which never names a live instruction.
    pub open spec fn null() -> InstId {
        InstId { bits: 0 }
    }

    pub open spec fn is_null(self) -> bool {
        self.bits == 0
    }

    /// Rebuilds a handle from its packed form.
    pub fn from_bits(bits: u64) -> (r: InstId)
        ensures
            r.bits == bits,
    {
        InstId { bits }
    }

    /// The packed form of this handle.
    pub fn to_bits(self) -> (r: u64)
        ensures
            r == self.bits,
    {
        self.bits
    }

    /// The slot this handle points at.
    pub fn slot(self) -> (r: u32)
        ensures
            r == slot_of(self.bits),
    {
        low_half(self.bits)
    }

    /// The generation this handle was issued in; zero only for handles that
    /// were never issued.
    pub fn generation(self) -> (r: u32)
        ensures
            r == generation_of(self.bits),
    {
        high_half(self.bits)
    }
}

impl Default for InstId {
    fn default() -> (r: InstId)
        ensures
            r == InstId::null(),
    {
        InstId { bits: 0 }
    }
}

impl BBId {
    /// The null handle, which never names a live block.
    pub open spec fn null() -> BBId {
        BBId { bits: 0 }
    }

    pub open spec fn is_null(self) -> bool {
        self.bits == 0
    }

    /// Rebuilds a handle from its packed form.
    pub fn from_bits(bits: u64) -> (r: BBId)
        ensures
            r.bits == bits,
    {
        BBId { bits }
    }

    /// The packed form of this handle.
    pub fn to_bits(self) -> (r: u64)
        ensures
            r == self.bits,
    {
        self.bits
    }

    /// The slot this handle points at.
    pub fn slot(self) -> (r: u32)
        ensures
            r == slot_of(self.bits),
    {
        low_half(self.bits)
    }

    /// The generation this handle was issued in; zero only for handles that
    /// were never issued.
    pub fn generation(self) -> (r: u32)
        ensures
            r == generation_of(self.bits),
    {
        high_half(self.bits)
    }
}

impl Default for BBId {
    fn default() -> (r: BBId)
        ensures
            r == BBId::null(),
    {
        BBId { bits: 0 }
    }
}

} // verus!
