//! The generational arenas that store instructions and basic blocks.
//!
//! Storage is `thunderdome::Arena`. Verus does not look inside it: what an
//! arena holds is named by [`inst_arena_map`] and [`block_arena_map`], and the
//! functions of this module state, without proof, what each arena operation
//! does to that content. A handle stands for the arena index whose
//! `Index::to_bits` equals the handle's `bits`.

use vstd::prelude::*;
use thunderdome::Arena;
use thunderdome::Index;
use crate::handle::{generation_of, BBId, InstId};
use crate::inst::{BasicBlock, Tac};

verus! {

/// `thunderdome::Arena`, made known to the verifier as a type whose inside
/// it does not see.
#[verifier::external_type_specification]
#[verifier::external_body]
#[verifier::reject_recursive_types(T)]
pub struct ExArena<T>(Arena<T>);

/// The records that an instruction arena holds, by handle.
pub uninterp spec fn inst_arena_map(a: Arena<Tac>) -> Map<InstId, Tac>;

/// The blocks that a block arena holds, by handle.
pub uninterp spec fn block_arena_map(a: Arena<BasicBlock>) -> Map<BBId, BasicBlock>;

/// `Arena::new`: the new arena holds nothing.
#[verifier::external_body]
pub(crate) fn inst_arena_new() -> (a: Arena<Tac>)
    ensures
        inst_arena_map(a) == (Map::<InstId, Tac>::empty()),
{
    Arena::new()
}

/// `Arena::len`: the number of records held.
#[verifier::external_body]
pub(crate) fn inst_arena_len(a: &Arena<Tac>) -> (n: usize)
    ensures
        n == inst_arena_map(*a).dom().len(),
        n <= u32::MAX,
{
    a.len()
}

/// `Arena::insert`: stores the record under an index that was not in use,
/// whose generation is not zero, and changes nothing else. The arena panics
/// when it already holds `u32::MAX` records.
#[verifier::external_body]
pub(crate) fn inst_arena_insert(a: &mut Arena<Tac>, tac: Tac) -> (id: InstId)
    requires
        inst_arena_map(*old(a)).dom().len() < u32::MAX,
    ensures
        !inst_arena_map(*old(a)).dom().contains(id),
        generation_of(id.bits) != 0,
        inst_arena_map(*final(a)) == inst_arena_map(*old(a)).insert(id, tac),
{
    InstId { bits: a.insert(tac).to_bits() }
}

/// `Arena::get` behind `Index::from_bits`: the record under the handle, or
/// nothing if the handle is not an index in use.
#[verifier::external_body]
pub(crate) fn inst_arena_get(a: &Arena<Tac>, id: InstId) -> (r: Option<&Tac>)
    ensures
        r == (if inst_arena_map(*a).dom().contains(id) {
            Some(&inst_arena_map(*a)[id])
        } else {
            None
        }),
{
    a.get(Index::from_bits(id.bits)?)
}

/// `Arena::get_mut` behind `Index::from_bits`: the record under the handle,
/// open to change; nothing else in the arena changes.
#[verifier::external_body]
pub(crate) fn inst_arena_get_mut(a: &mut Arena<Tac>, id: InstId) -> (r: Option<&mut Tac>)
    ensures
        match r {
            Some(t) => inst_arena_map(*old(a)).dom().contains(id)
                && *t == inst_arena_map(*old(a))[id]
                && inst_arena_map(*final(a)) == inst_arena_map(*old(a)).insert(id, *final(t)),
            None => !inst_arena_map(*old(a)).dom().contains(id)
                && inst_arena_map(*final(a)) == inst_arena_map(*old(a)),
        },
{
    a.get_mut(Index::from_bits(id.bits)?)
}

/// `Arena::remove` behind `Index::from_bits`: takes the record under the
/// handle out of the arena and changes nothing else.
#[verifier::external_body]
pub(crate) fn inst_arena_remove(a: &mut Arena<Tac>, id: InstId) -> (r: Option<Tac>)
    ensures
        r == (if inst_arena_map(*old(a)).dom().contains(id) {
            Some(inst_arena_map(*old(a))[id])
        } else {
            None
        }),
        inst_arena_map(*final(a)) == inst_arena_map(*old(a)).remove(id),
{
    a.remove(Index::from_bits(id.bits)?)
}

/// `Arena::iter`: every index in use, once each, in no stated order.
#[verifier::external_body]
pub(crate) fn inst_arena_ids(a: &Arena<Tac>) -> (r: Vec<InstId>)
    ensures
        r@.no_duplicates(),
        r@.to_set() == inst_arena_map(*a).dom(),
{
    a.iter().map(|(i, _)| InstId { bits: i.to_bits() }).collect()
}

/// `Arena::clone`: the copy holds a copy of each instruction under the
/// same handle, and nothing else.
#[verifier::external_body]
pub(crate) fn inst_arena_clone(a: &Arena<Tac>) -> (r: Arena<Tac>)
    ensures
        inst_arena_map(r) == inst_arena_map(*a),
{
    a.clone()
}

/// `Arena::new`: the new arena holds nothing.
#[verifier::external_body]
pub(crate) fn block_arena_new() -> (a: Arena<BasicBlock>)
    ensures
        block_arena_map(a) == (Map::<BBId, BasicBlock>::empty()),
{
    Arena::new()
}

/// `Arena::len`: the number of blocks held.
#[verifier::external_body]
pub(crate) fn block_arena_len(a: &Arena<BasicBlock>) -> (n: usize)
    ensures
        n == block_arena_map(*a).dom().len(),
        n <= u32::MAX,
{
    a.len()
}

/// `Arena::insert`: stores the block under an index that was not in use,
/// whose generation is not zero, and changes nothing else. The arena panics
/// when it already holds `u32::MAX` blocks.
#[verifier::external_body]
pub(crate) fn block_arena_insert(a: &mut Arena<BasicBlock>, block: BasicBlock) -> (id: BBId)
    requires
        block_arena_map(*old(a)).dom().len() < u32::MAX,
    ensures
        !block_arena_map(*old(a)).dom().contains(id),
        generation_of(id.bits) != 0,
        block_arena_map(*final(a)) == block_arena_map(*old(a)).insert(id, block),
{
    BBId { bits: a.insert(block).to_bits() }
}

/// `Arena::get` behind `Index::from_bits`: the block under the handle, or
/// nothing if the handle is not an index in use.
#[verifier::external_body]
pub(crate) fn block_arena_get(a: &Arena<BasicBlock>, id: BBId) -> (r: Option<&BasicBlock>)
    ensures
        r == (if block_arena_map(*a).dom().contains(id) {
            Some(&block_arena_map(*a)[id])
        } else {
            None
        }),
{
    a.get(Index::from_bits(id.bits)?)
}

/// `Arena::get_mut` behind `Index::from_bits`: the block under the handle,
/// open to change; nothing else in the arena changes.
#[verifier::external_body]
pub(crate) fn block_arena_get_mut(a: &mut Arena<BasicBlock>, id: BBId) -> (r: Option<&mut BasicBlock>)
    ensures
        match r {
            Some(b) => block_arena_map(*old(a)).dom().contains(id)
                && *b == block_arena_map(*old(a))[id]
                && block_arena_map(*final(a)) == block_arena_map(*old(a)).insert(id, *final(b)),
            None => !block_arena_map(*old(a)).dom().contains(id)
                && block_arena_map(*final(a)) == block_arena_map(*old(a)),
        },
{
    a.get_mut(Index::from_bits(id.bits)?)
}

/// `Arena::get2_mut`: the blocks under two different handles, both open to
/// change at once; nothing else in the arena changes. The arena panics when
/// the two indices are equal.
#[verifier::external_body]
pub(crate) fn block_arena_get2_mut(a: &mut Arena<BasicBlock>, one: BBId, two: BBId) -> (r: (
    &mut BasicBlock,
    &mut BasicBlock,
))
    requires
        one != two,
        block_arena_map(*old(a)).dom().contains(one),
        block_arena_map(*old(a)).dom().contains(two),
    ensures
        *r.0 == block_arena_map(*old(a))[one],
        *r.1 == block_arena_map(*old(a))[two],
        block_arena_map(*final(a)) == block_arena_map(*old(a)).insert(one, *final(r.0)).insert(
            two,
            *final(r.1),
        ),
{
    let (x, y) = a.get2_mut(Index::from_bits(one.bits).unwrap(), Index::from_bits(two.bits).unwrap());
    (x.unwrap(), y.unwrap())
}

/// `Arena::iter`: every index in use, once each, in no stated order.
#[verifier::external_body]
pub(crate) fn block_arena_ids(a: &Arena<BasicBlock>) -> (r: Vec<BBId>)
    ensures
        r@.no_duplicates(),
        r@.to_set() == block_arena_map(*a).dom(),
{
    a.iter().map(|(i, _)| BBId { bits: i.to_bits() }).collect()
}

/// `Arena::clone`: the copy holds a copy of each block under the same
/// handle, and nothing else.
#[verifier::external_body]
pub(crate) fn block_arena_clone(a: &Arena<BasicBlock>) -> (r: Arena<BasicBlock>)
    ensures
        block_arena_map(r) == block_arena_map(*a),
{
    a.clone()
}

} // verus!
