//! Splitting a basic block in two and joining two basic blocks into one.

use vstd::prelude::*;
use crate::arena::{block_arena_get2_mut, block_arena_get_mut, block_arena_insert, inst_arena_get_mut};
use crate::chain::{
    at, chain_ok, cut, glued, joined, lemma_join_linked, lemma_member, lemma_rehome_step,
    lemma_split_linked, rehomed, split_off,
};
use crate::func::{FuncView, TacFunc};
use crate::handle::{lemma_generation_nonzero, BBId, InstId};
use crate::inst::{BasicBlock, Branch};
use crate::linkedlist::{connect, set_next, set_prev};

verus! {

impl FuncView {
    /// This function after the block `bb` was split behind position `k` of
    /// its chain: the instructions behind `k` are in the new block `fresh`,
    /// and so are the branches of `bb` if `transfer` is set.
    pub open spec fn split(self, bb: BBId, k: int, fresh: BBId, transfer: bool) -> FuncView {
        FuncView {
            chains: self.chains.insert(bb, self.chains[bb].subrange(0, k + 1)).insert(
                fresh,
                self.chains[bb].subrange(k + 1, self.chains[bb].len() as int),
            ),
            jumps: if transfer {
                self.jumps.insert(bb, Seq::empty()).insert(fresh, self.jumps[bb])
            } else {
                self.jumps.insert(fresh, Seq::empty())
            },
            order: self.order.insert(fresh, (None, None)),
            ..self
        }
    }

    /// This function after the block `back` was joined to the end of the
    /// block `front`: `front` holds the instructions of both and the
    /// branches of `back`, and `back` is left empty.
    pub open spec fn join(self, front: BBId, back: BBId) -> FuncView {
        FuncView {
            chains: self.chains.insert(front, self.chains[front] + self.chains[back]).insert(
                back,
                Seq::empty(),
            ),
            jumps: self.jumps.insert(front, self.jumps[back]).insert(back, Seq::empty()),
            ..self
        }
    }
}

/// Splitting a block with its branches and joining the two halves again
/// gives back the function as it was, but for the empty block that the split
/// made.
pub proof fn lemma_split_join(v: FuncView, bb: BBId, k: int, fresh: BBId)
    requires
        bb != fresh,
        v.chains.dom().contains(bb),
        v.jumps.dom().contains(bb),
        0 <= k < v.chains[bb].len(),
    ensures
        v.split(bb, k, fresh, true).join(bb, fresh) == (FuncView {
            chains: v.chains.insert(fresh, Seq::empty()),
            jumps: v.jumps.insert(fresh, Seq::empty()),
            order: v.order.insert(fresh, (None, None)),
            ..v
        }),
{
    let c = v.chains[bb];
    let w = v.split(bb, k, fresh, true).join(bb, fresh);
    assert(c.subrange(0, k + 1) + c.subrange(k + 1, c.len() as int) =~= c);
    assert(w.chains =~= v.chains.insert(fresh, Seq::empty()));
    assert(w.jumps =~= v.jumps.insert(fresh, Seq::empty()));
}

impl TacFunc {
    /// Hands the records from `start` to the end of the chain `c` over to
    /// the block `bb`, following the `next` links.
    fn rehome_from(&mut self, start: Option<InstId>, bb: BBId, Ghost(c): Ghost<Seq<InstId>>, Ghost(from): Ghost<int>)
        requires
            c.no_duplicates(),
            0 <= from <= c.len(),
            start == at(c, from),
            forall|q: int|
                from <= q < c.len() ==> old(self).has_inst(#[trigger] c[q]) && old(self).insts()[c[q]].next
                    == at(c, q + 1),
        ensures
            final(self).insts() == rehomed(old(self).insts(), c, from, c.len() as int, bb),
            final(self).blocks() == old(self).blocks(),
            final(self).header() == old(self).header(),
    {
        let ghost m = self.insts();
        let ghost mut q = from;
        let mut it = start;
        proof {
            if from < c.len() {
                lemma_rehome_step(m, c, from, from, bb);
            } else {
                assert(rehomed(m, c, from, from, bb) =~= m);
            }
        }
        while it.is_some()
            invariant
                c.no_duplicates(),
                0 <= from <= q <= c.len(),
                it == at(c, q),
                forall|j: int| from <= j < c.len() ==> m.dom().contains(#[trigger] c[j]) && m[c[j]].next == at(c, j + 1),
                self.insts() == rehomed(m, c, from, q, bb),
                self.blocks() == old(self).blocks(),
                self.header() == old(self).header(),
            decreases c.len() - q,
        {
            let i = it.unwrap();
            proof {
                lemma_rehome_step(m, c, from, q, bb);
                assert(m.dom().contains(c[q]));
            }
            let t = inst_arena_get_mut(&mut self.instructions_arena, i).unwrap();
            t.bb = bb;
            it = t.next;
            proof {
                q = q + 1;
            }
        }
    }

    /// Splits the block of `inst` behind `inst`: the instructions behind it
    /// move to a new block, and with them the branches of the block if
    /// `transfer_branches` is set. Returns the new block.
    pub fn bb_split_after(&mut self, inst: InstId, transfer_branches: bool) -> (new_bb: BBId)
        requires
            old(self).wf(),
            old(self).has_inst(inst),
            !old(self).home(inst).is_null(),
            old(self).blocks().dom().len() < u32::MAX,
        ensures
            final(self).wf(),
            !old(self).has_bb(new_bb),
            final(self).has_bb(new_bb),
            final(self)@ == old(self)@.split(old(self).home(inst), old(self).pos(inst), new_bb, transfer_branches),
            final(self).blocks().dom().len() == old(self).blocks().dom().len() + 1,
    {
        let ghost m = self.insts();
        let ghost blocks = self.blocks();
        let ghost chains = self.chains();
        let ghost bb0 = self.home(inst);
        let ghost c = chains[bb0];
        let ghost k = self.pos(inst);
        proof {
            self.lemma_wf();
            self.lemma_home(inst);
            assert(chain_ok(m, blocks[bb0], bb0, c));
            if k + 1 < c.len() {
                lemma_member(m, blocks, chains, bb0, k + 1);
            }
            assert forall|q: int| 0 <= q < c.len() implies m.dom().contains(#[trigger] c[q]) && m[c[q]].next
                == at(c, q + 1) by {
                lemma_member(m, blocks, chains, bb0, q);
            }
        }
        let t = self.tac_get(inst);
        let after_head = t.next;
        let first_bb_id = t.bb;
        set_next(&mut self.instructions_arena, Some(inst), None);
        set_prev(&mut self.instructions_arena, after_head, None);
        assert(self.insts() == cut(m, c, k));
        let first_bb = block_arena_get_mut(&mut self.basic_block_arena, first_bb_id).unwrap();
        let orig_tail = first_bb.tail;
        let mut jumps: Vec<Branch> = Vec::new();
        if after_head.is_some() {
            first_bb.tail = Some(inst);
        }
        if transfer_branches {
            std::mem::swap(&mut first_bb.jumps, &mut jumps);
        }
        let new_tail = if after_head.is_some() {
            orig_tail
        } else {
            None
        };
        let new_bb_id = block_arena_insert(
            &mut self.basic_block_arena,
            BasicBlock { head: after_head, tail: new_tail, prev: None, next: None, jumps },
        );
        proof {
            lemma_generation_nonzero(new_bb_id.bits);
            assert forall|q: int| k + 1 <= q < c.len() implies self.has_inst(#[trigger] c[q])
                && self.insts()[c[q]].next == at(c, q + 1) by {
                assert(m.dom().contains(c[q]));
                assert(c[q] != c[k]);
            }
        }
        self.rehome_from(after_head, new_bb_id, Ghost(c), Ghost(k + 1));
        proof {
            assert(self.insts() == split_off(m, c, k, new_bb_id));
            assert(self.blocks().dom() =~= blocks.dom().insert(new_bb_id));
            lemma_split_linked(m, blocks, chains, bb0, k, new_bb_id, self.blocks());
            let chains2 = chains.insert(bb0, c.subrange(0, k + 1)).insert(
                new_bb_id,
                c.subrange(k + 1, c.len() as int),
            );
            self.lemma_chains_are(chains2);
            let v = old(self)@.split(bb0, k, new_bb_id, transfer_branches);
            assert(self@.insts =~= v.insts);
            assert(self@.jumps =~= v.jumps);
            assert(self@.order =~= v.order);
        }
        new_bb_id
    }

    /// Joins the block `back` to the end of the block `front`: the
    /// instructions of `back` move to the end of `front`, the branches of
    /// `back` take the place of those of `front`, and `back` is left empty.
    /// Returns the branches that `front` had.
    pub fn bb_connect(&mut self, front: BBId, back: BBId) -> (r: Vec<Branch>)
        requires
            old(self).wf(),
            old(self).has_bb(front),
            old(self).has_bb(back),
            front != back,
        ensures
            final(self).wf(),
            r@ == old(self)@.jumps[front],
            final(self)@ == old(self)@.join(front, back),
            final(self).blocks().dom() == old(self).blocks().dom(),
    {
        let ghost m = self.insts();
        let ghost blocks = self.blocks();
        let ghost chains = self.chains();
        let ghost cf = chains[front];
        let ghost cb = chains[back];
        proof {
            self.lemma_wf();
            assert(chain_ok(m, blocks[front], front, cf));
            assert(chain_ok(m, blocks[back], back, cb));
            assert forall|q: int| 0 <= q < cb.len() implies m.dom().contains(#[trigger] cb[q]) && m[cb[q]].next
                == at(cb, q + 1) && m[cb[q]].bb == back by {
                lemma_member(m, blocks, chains, back, q);
            }
            if cf.len() > 0 {
                lemma_member(m, blocks, chains, front, cf.len() - 1);
            }
        }
        let (front_bb, back_bb) = block_arena_get2_mut(&mut self.basic_block_arena, front, back);
        let mut branches: Vec<Branch> = Vec::new();
        std::mem::swap(&mut back_bb.jumps, &mut branches);
        std::mem::swap(&mut front_bb.jumps, &mut branches);
        let front_tail = front_bb.tail;
        let back_head = back_bb.head;
        if back_head.is_some() {
            if front_tail.is_none() {
                front_bb.head = back_head;
            }
            front_bb.tail = back_bb.tail;
            back_bb.head = None;
            back_bb.tail = None;
        }
        if let Some(head) = back_head {
            if let Some(tail) = front_tail {
                proof {
                    assert(tail == cf[cf.len() - 1] && head == cb[0]);
                    assert(m[tail].bb == front && m[head].bb == back);
                }
                connect(&mut self.instructions_arena, tail, head);
            }
        }
        proof {
            assert(self.insts() == glued(m, cf, cb));
            assert forall|q: int| 0 <= q < cb.len() implies self.has_inst(#[trigger] cb[q])
                && self.insts()[cb[q]].next == at(cb, q + 1) by {
                assert(m.dom().contains(cb[q]));
                if cf.len() > 0 {
                    assert(m[cb[q]].bb == back);
                    assert(cb[q] != cf[cf.len() - 1]);
                }
            }
        }
        self.rehome_from(back_head, front, Ghost(cb), Ghost(0));
        proof {
            assert(self.insts() == joined(m, cf, cb, front));
            let c = cf + cb;
            if cb.len() > 0 {
                assert(c[c.len() - 1] == cb[cb.len() - 1]);
                if cf.len() > 0 {
                    assert(c[0] == cf[0]);
                } else {
                    assert(c[0] == cb[0]);
                }
            } else {
                assert(c =~= cf);
            }
            assert(self.blocks().dom() =~= blocks.dom());
            lemma_join_linked(m, blocks, chains, front, back, self.blocks());
            let chains2 = chains.insert(front, c).insert(back, Seq::<InstId>::empty());
            self.lemma_chains_are(chains2);
            let v = old(self)@.join(front, back);
            assert(self@.insts =~= v.insts);
            assert(self@.jumps =~= v.jumps);
            assert(self@.order =~= v.order);
        }
        branches
    }
}

} // verus!
