//! The doubly linked chain that threads through the records of an
//! instruction arena.
//!
//! The functions here only rewire `prev` and `next`. Which block owns a chain,
//! and where a chain starts and ends, is the business of the function that
//! holds the arena.

use vstd::prelude::*;
use thunderdome::Arena;
use crate::arena::{inst_arena_get, inst_arena_get_mut, inst_arena_map};
use crate::handle::InstId;
use crate::inst::Tac;

verus! {

/// `m` with the links of `i` replaced.
pub open spec fn relinked(m: Map<InstId, Tac>, i: InstId, prev: Option<InstId>, next: Option<
    InstId,
>) -> Map<InstId, Tac> {
    m.insert(i, Tac { inst: m[i].inst, bb: m[i].bb, prev, next })
}

/// `m` with the `prev` link of `i` replaced, if `i` names a record.
pub open spec fn with_prev(m: Map<InstId, Tac>, i: Option<InstId>, prev: Option<InstId>) -> Map<
    InstId,
    Tac,
> {
    match i {
        Some(i) => relinked(m, i, prev, m[i].next),
        None => m,
    }
}

/// `m` with the `next` link of `i` replaced, if `i` names a record.
pub open spec fn with_next(m: Map<InstId, Tac>, i: Option<InstId>, next: Option<InstId>) -> Map<
    InstId,
    Tac,
> {
    match i {
        Some(i) => relinked(m, i, m[i].prev, next),
        None => m,
    }
}

/// True if `i` names no record or one that `m` holds.
pub open spec fn known(m: Map<InstId, Tac>, i: Option<InstId>) -> bool {
    match i {
        Some(i) => m.dom().contains(i),
        None => true,
    }
}

/// The records after `x` was spliced in behind `anchor`.
pub open spec fn attached_after(m: Map<InstId, Tac>, anchor: InstId, x: InstId) -> Map<
    InstId,
    Tac,
> {
    let after = m[anchor].next;
    with_prev(with_next(relinked(m, x, Some(anchor), after), Some(anchor), Some(x)), after, Some(x))
}

/// The records after `x` was spliced in before `anchor`.
pub open spec fn attached_before(m: Map<InstId, Tac>, anchor: InstId, x: InstId) -> Map<
    InstId,
    Tac,
> {
    let before = m[anchor].prev;
    with_next(with_prev(relinked(m, x, before, Some(anchor)), Some(anchor), Some(x)), before, Some(x))
}

/// The records after `head` was linked behind `tail`.
pub open spec fn connected(m: Map<InstId, Tac>, tail: InstId, head: InstId) -> Map<InstId, Tac> {
    with_prev(with_next(m, Some(tail), Some(head)), Some(head), Some(tail))
}

/// The records after `x` was unlinked from its neighbours, which are linked
/// to each other instead.
pub open spec fn detached(m: Map<InstId, Tac>, x: InstId) -> Map<InstId, Tac> {
    let before = m[x].prev;
    let after = m[x].next;
    relinked(with_prev(with_next(m, before, after), after, before), x, None, None)
}

/// Replaces both links of the record `i`.
pub(crate) fn set_links(a: &mut Arena<Tac>, i: InstId, prev: Option<InstId>, next: Option<InstId>)
    requires
        inst_arena_map(*old(a)).dom().contains(i),
    ensures
        inst_arena_map(*final(a)) == relinked(inst_arena_map(*old(a)), i, prev, next),
{
    let t = inst_arena_get_mut(a, i).unwrap();
    t.prev = prev;
    t.next = next;
}

/// Replaces the `prev` link of the record `i`, if `i` names one.
pub(crate) fn set_prev(a: &mut Arena<Tac>, i: Option<InstId>, prev: Option<InstId>)
    requires
        known(inst_arena_map(*old(a)), i),
    ensures
        inst_arena_map(*final(a)) == with_prev(inst_arena_map(*old(a)), i, prev),
{
    if let Some(i) = i {
        let t = inst_arena_get_mut(a, i).unwrap();
        t.prev = prev;
    }
}

/// Replaces the `next` link of the record `i`, if `i` names one.
pub(crate) fn set_next(a: &mut Arena<Tac>, i: Option<InstId>, next: Option<InstId>)
    requires
        known(inst_arena_map(*old(a)), i),
    ensures
        inst_arena_map(*final(a)) == with_next(inst_arena_map(*old(a)), i, next),
{
    if let Some(i) = i {
        let t = inst_arena_get_mut(a, i).unwrap();
        t.next = next;
    }
}

/// Splices `x` into the chain directly behind `anchor`.
pub(crate) fn attach_after(a: &mut Arena<Tac>, anchor: InstId, x: InstId)
    requires
        inst_arena_map(*old(a)).dom().contains(anchor),
        inst_arena_map(*old(a)).dom().contains(x),
        known(inst_arena_map(*old(a)), inst_arena_map(*old(a))[anchor].next),
    ensures
        inst_arena_map(*final(a)) == attached_after(inst_arena_map(*old(a)), anchor, x),
{
    let after = inst_arena_get(a, anchor).unwrap().next;
    set_links(a, x, Some(anchor), after);
    set_next(a, Some(anchor), Some(x));
    set_prev(a, after, Some(x));
}

/// Splices `x` into the chain directly before `anchor`.
pub(crate) fn attach_before(a: &mut Arena<Tac>, anchor: InstId, x: InstId)
    requires
        inst_arena_map(*old(a)).dom().contains(anchor),
        inst_arena_map(*old(a)).dom().contains(x),
        known(inst_arena_map(*old(a)), inst_arena_map(*old(a))[anchor].prev),
    ensures
        inst_arena_map(*final(a)) == attached_before(inst_arena_map(*old(a)), anchor, x),
{
    let before = inst_arena_get(a, anchor).unwrap().prev;
    set_links(a, x, before, Some(anchor));
    set_prev(a, Some(anchor), Some(x));
    set_next(a, before, Some(x));
}

/// Links `head` behind `tail`. The two must differ.
pub(crate) fn connect(a: &mut Arena<Tac>, tail: InstId, head: InstId)
    requires
        tail != head,
        inst_arena_map(*old(a)).dom().contains(tail),
        inst_arena_map(*old(a)).dom().contains(head),
    ensures
        inst_arena_map(*final(a)) == connected(inst_arena_map(*old(a)), tail, head),
{
    set_next(a, Some(tail), Some(head));
    set_prev(a, Some(head), Some(tail));
}

/// Unlinks `x` from its neighbours and links them to each other.
pub(crate) fn detach(a: &mut Arena<Tac>, x: InstId)
    requires
        inst_arena_map(*old(a)).dom().contains(x),
        known(inst_arena_map(*old(a)), inst_arena_map(*old(a))[x].prev),
        known(inst_arena_map(*old(a)), inst_arena_map(*old(a))[x].next),
    ensures
        inst_arena_map(*final(a)) == detached(inst_arena_map(*old(a)), x),
{
    let t = inst_arena_get(a, x).unwrap();
    let before = t.prev;
    let after = t.next;
    set_next(a, before, after);
    set_prev(a, after, before);
    set_links(a, x, None, None);
}

/// Splicing a record without neighbours in before `x` and unlinking it again
/// gives back the records as they were, provided the record before `x`, if
/// any, points at `x`.
pub proof fn lemma_attach_before_detach(m: Map<InstId, Tac>, x: InstId, y: InstId)
    requires
        m.dom().contains(x),
        m.dom().contains(y),
        x != y,
        m[y].prev.is_none(),
        m[y].next.is_none(),
        known(m, m[x].prev),
        m[x].prev != Some(x),
        m[x].prev != Some(y),
        m[x].prev matches Some(p) ==> m[p].next == Some(x),
    ensures
        detached(attached_before(m, x, y), y) == m,
{
    let r = detached(attached_before(m, x, y), y);
    assert(r =~= m);
}

/// Splicing a record without neighbours in behind `x` and unlinking it again
/// gives back the records as they were, provided the record behind `x`, if
/// any, points back at `x`.
pub proof fn lemma_attach_after_detach(m: Map<InstId, Tac>, x: InstId, y: InstId)
    requires
        m.dom().contains(x),
        m.dom().contains(y),
        x != y,
        m[y].prev.is_none(),
        m[y].next.is_none(),
        known(m, m[x].next),
        m[x].next != Some(x),
        m[x].next != Some(y),
        m[x].next matches Some(n) ==> m[n].prev == Some(x),
    ensures
        detached(attached_after(m, x, y), y) == m,
{
    let r = detached(attached_after(m, x, y), y);
    assert(r =~= m);
}

} // verus!
