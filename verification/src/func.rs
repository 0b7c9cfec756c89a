//! A function: its instructions, its basic blocks, and the operations that
//! place, move and remove them.

use vstd::prelude::*;
use std::collections::HashMap;
use smol_str::SmolStr;
use thunderdome::Arena;
use crate::arena::{
    block_arena_clone, inst_arena_clone,
    block_arena_get, block_arena_get2_mut, block_arena_get_mut, block_arena_ids, block_arena_insert,
    block_arena_len, block_arena_map, block_arena_new, inst_arena_get, inst_arena_get_mut,
    inst_arena_ids, inst_arena_insert, inst_arena_len, inst_arena_map, inst_arena_new,
    inst_arena_remove,
};
use crate::chain::{
    at, bodies, chain_ok, inserted, jumps_of, lemma_blocks_linked, lemma_body_linked, lemma_chain_frame, lemma_insert_linked, lemma_linked_unique,
    lemma_member, lemma_position, lemma_remove_linked, link_at, linked, order_of, placed_ok, removed,
    with_body, with_ends, with_jumps, with_neighbours,
};
use crate::handle::{lemma_generation_nonzero, BBId, InstId};
use crate::inst::{smol_str_text, BasicBlock, Branch, Inst, Tac};
use crate::linkedlist::{attach_after, attach_before, detach};
use crate::ty::Ty;

verus! {

/// A program: its functions by name.
#[derive(Debug)]
pub struct Program {
    pub functions: HashMap<SmolStr, TacFunc>,
}

/// A function made of instructions in basic blocks.
///
/// Instructions and blocks live in two arenas and are named by handles. The
/// instructions of a block form a doubly linked chain through the arena; the
/// block holds the two ends of its chain.
#[derive(Debug)]
pub struct TacFunc {
    /// The name of the function.
    pub name: SmolStr,
    /// The type of the function's result.
    pub ty: Ty,
    pub(crate) instructions_arena: Arena<Tac>,
    pub(crate) basic_block_arena: Arena<BasicBlock>,
    /// The block at which the function is entered.
    pub first_block: Option<BBId>,
}

/// A function as a mathematical value.
pub struct FuncView {
    /// The instruction under each live instruction handle.
    pub insts: Map<InstId, Inst>,
    /// For each live block, its instructions in order.
    pub chains: Map<BBId, Seq<InstId>>,
    /// For each live block, its branches in order.
    pub jumps: Map<BBId, Seq<Branch>>,
    /// For each live block, the block before it and the block after it.
    pub order: Map<BBId, (Option<BBId>, Option<BBId>)>,
    /// The block at which the function is entered.
    pub first_block: Option<BBId>,
    /// The type of the function's result.
    pub ty: Ty,
    /// The name of the function.
    pub name: SmolStr,
}

impl FuncView {
    /// This function with `x` put at position `p` of the chain of `bb`.
    pub open spec fn put(self, bb: BBId, p: int, x: InstId) -> FuncView {
        FuncView { chains: self.chains.insert(bb, self.chains[bb].insert(p, x)), ..self }
    }

    /// This function with the instruction at position `p` of the chain of
    /// `bb` taken out of the chain.
    pub open spec fn take(self, bb: BBId, p: int) -> FuncView {
        FuncView { chains: self.chains.insert(bb, self.chains[bb].remove(p)), ..self }
    }
}

/// Putting an instruction into a chain and taking it out again gives back
/// the function as it was.
pub proof fn lemma_put_take(v: FuncView, bb: BBId, p: int, x: InstId)
    requires
        v.chains.dom().contains(bb),
        0 <= p <= v.chains[bb].len(),
    ensures
        v.put(bb, p, x).take(bb, p) == v,
{
    let c = v.chains[bb];
    assert(c.insert(p, x).remove(p) =~= c);
    assert(v.put(bb, p, x).take(bb, p).chains =~= v.chains);
}

impl View for TacFunc {
    type V = FuncView;

    open(crate) spec fn view(&self) -> FuncView {
        FuncView {
            insts: bodies(self.insts()),
            chains: self.chains(),
            jumps: jumps_of(self.blocks()),
            order: order_of(self.blocks()),
            first_block: self.first_block,
            ty: self.ty,
            name: self.name,
        }
    }
}

/// The handles of a list of instructions with their blocks.
pub open spec fn handles_of(s: Seq<(InstId, BBId)>) -> Seq<InstId> {
    Seq::new(s.len(), |k: int| s[k].0)
}

/// `HashMap::clone`: a map from the same names to copies of their
/// functions. Nothing is stated of it here: the order and the hashing of a
/// map are its own.
#[verifier::external_body]
fn functions_clone(m: &HashMap<SmolStr, TacFunc>) -> (r: HashMap<SmolStr, TacFunc>) {
    m.clone()
}

impl Clone for Program {
    /// A copy of the program.
    fn clone(&self) -> (p: Program) {
        Program { functions: functions_clone(&self.functions) }
    }
}

impl Clone for TacFunc {
    /// A copy of the function: the same instructions and blocks under the
    /// same handles, the same type and entry block, and a name with the
    /// same text.
    fn clone(&self) -> (f: TacFunc)
        ensures
            f.insts() == self.insts(),
            f.blocks() == self.blocks(),
            f.wf() == self.wf(),
            f@ == (FuncView { name: f@.name, ..self@ }),
            smol_str_text(f@.name) == smol_str_text(self@.name),
    {
        TacFunc {
            name: self.name.clone(),
            ty: self.ty,
            instructions_arena: inst_arena_clone(&self.instructions_arena),
            basic_block_arena: block_arena_clone(&self.basic_block_arena),
            first_block: self.first_block,
        }
    }
}

impl Default for TacFunc {
    /// The function without a name, blocks or instructions, whose result
    /// type is the unit type.
    fn default() -> (f: TacFunc)
        ensures
            f.wf(),
            f@ == (FuncView {
                insts: Map::empty(),
                chains: Map::empty(),
                jumps: Map::empty(),
                order: Map::empty(),
                first_block: None,
                ty: Ty::Unit,
                name: f@.name,
            }),
            smol_str_text(f@.name) == Seq::<char>::empty(),
    {
        TacFunc::new_untyped(SmolStr::default())
    }
}

impl TacFunc {
    /// The records of all live instructions.
    pub open(crate) spec fn insts(&self) -> Map<InstId, Tac> {
        inst_arena_map(self.instructions_arena)
    }

    /// All live blocks.
    pub open(crate) spec fn blocks(&self) -> Map<BBId, BasicBlock> {
        block_arena_map(self.basic_block_arena)
    }

    /// True if `i` names a live instruction.
    pub open spec fn has_inst(&self, i: InstId) -> bool {
        self.insts().dom().contains(i)
    }

    /// True if `bb` names a live block.
    pub open spec fn has_bb(&self, bb: BBId) -> bool {
        self.blocks().dom().contains(bb)
    }

    /// The records and blocks form chains, and the entry block, if there is
    /// one, is live.
    pub open(crate) spec fn wf(&self) -> bool {
        &&& exists|chains: Map<BBId, Seq<InstId>>| linked(self.insts(), self.blocks(), chains)
        &&& self.first_block matches Some(bb) ==> self.has_bb(bb)
    }

    /// For each live block, its instructions in order.
    pub open spec fn chains(&self) -> Map<BBId, Seq<InstId>> {
        choose|chains: Map<BBId, Seq<InstId>>| linked(self.insts(), self.blocks(), chains)
    }

    /// The instructions of `bb` in order.
    pub open spec fn chain(&self, bb: BBId) -> Seq<InstId> {
        self.chains()[bb]
    }

    /// The block that holds `i`; null if none does.
    pub open spec fn home(&self, i: InstId) -> BBId {
        self.insts()[i].bb
    }

    /// The position of `i` in the chain of its block.
    pub open spec fn pos(&self, i: InstId) -> int {
        self.chain(self.home(i)).index_of(i)
    }

    /// In a well-formed function the chains link its records and blocks.
    pub proof fn lemma_wf(&self)
        requires
            self.wf(),
        ensures
            linked(self.insts(), self.blocks(), self.chains()),
            self@.insts.dom() == self.insts().dom(),
            self@.chains.dom() == self.blocks().dom(),
            self@.jumps.dom() == self.blocks().dom(),
            self@.order.dom() == self.blocks().dom(),
            self.insts().dom().finite(),
            self.blocks().dom().finite(),
            !self.has_inst(InstId::null()),
            !self.has_bb(BBId::null()),
    {
    }

    /// A function whose records and blocks form the chains `chains` has
    /// exactly these chains.
    pub proof fn lemma_chains_are(&self, chains: Map<BBId, Seq<InstId>>)
        requires
            linked(self.insts(), self.blocks(), chains),
        ensures
            self.chains() == chains,
            self@.first_block.is_none() ==> self.wf(),
    {
        lemma_linked_unique(self.insts(), self.blocks(), self.chains(), chains);
    }

    /// An instruction in a block sits in that block's chain, at its position.
    pub proof fn lemma_home(&self, i: InstId)
        requires
            self.wf(),
            self.has_inst(i),
            !self.home(i).is_null(),
        ensures
            self.has_bb(self.home(i)),
            0 <= self.pos(i) < self.chain(self.home(i)).len(),
            self.chain(self.home(i))[self.pos(i)] == i,
            self.insts()[i].prev == at(self.chain(self.home(i)), self.pos(i) - 1),
            self.insts()[i].next == at(self.chain(self.home(i)), self.pos(i) + 1),
    {
        lemma_position(self.insts(), self.blocks(), self.chains(), i);
    }

    /// An instruction is in the block whose chain holds it, and in no other.
    pub proof fn lemma_home_iff(&self, i: InstId, bb: BBId)
        requires
            self.wf(),
            self.has_inst(i),
            self.has_bb(bb),
        ensures
            self.home(i) == bb <==> self.chain(bb).contains(i),
    {
        let c = self.chain(bb);
        assert(placed_ok(self.insts(), self.blocks(), self.chains(), i));
        assert(chain_ok(self.insts(), self.blocks()[bb], bb, c));
        if c.contains(i) {
            let k = c.index_of(i);
            c.index_of_first_ensures(i);
            assert(link_at(self.insts(), bb, c, k));
        }
    }

    /// The instruction at a position of a block's chain is live and knows its
    /// block and its neighbours.
    pub proof fn lemma_chain_at(&self, bb: BBId, k: int)
        requires
            self.wf(),
            self.has_bb(bb),
            0 <= k < self.chain(bb).len(),
        ensures
            self.has_inst(self.chain(bb)[k]),
            self.home(self.chain(bb)[k]) == bb,
            self.pos(self.chain(bb)[k]) == k,
            self.insts()[self.chain(bb)[k]].prev == at(self.chain(bb), k - 1),
            self.insts()[self.chain(bb)[k]].next == at(self.chain(bb), k + 1),
            self.chain(bb).no_duplicates(),
    {
        lemma_member(self.insts(), self.blocks(), self.chains(), bb, k);
        let c = self.chain(bb);
        assert(chain_ok(self.insts(), self.blocks()[bb], bb, c));
        c.index_of_first_ensures(c[k]);
    }

    /// The ends of a block are the ends of its chain.
    pub proof fn lemma_ends(&self, bb: BBId)
        requires
            self.wf(),
            self.has_bb(bb),
        ensures
            self.blocks()[bb].head == at(self.chain(bb), 0),
            self.blocks()[bb].tail == at(self.chain(bb), self.chain(bb).len() - 1),
            self.chain(bb).no_duplicates(),
            !bb.is_null(),
    {
        assert(chain_ok(self.insts(), self.blocks()[bb], bb, self.chain(bb)));
    }

    /// A function without instructions and blocks.
    pub fn new(name: SmolStr, ty: Ty) -> (f: TacFunc)
        ensures
            f.wf(),
            f@ == (FuncView {
                insts: Map::empty(),
                chains: Map::empty(),
                jumps: Map::empty(),
                order: Map::empty(),
                first_block: None,
                ty,
                name,
            }),
            f.insts() == Map::<InstId, Tac>::empty(),
            f.blocks() == Map::<BBId, BasicBlock>::empty(),
    {
        let f = TacFunc {
            name,
            ty,
            instructions_arena: inst_arena_new(),
            basic_block_arena: block_arena_new(),
            first_block: None,
        };
        proof {
            let chains = Map::<BBId, Seq<InstId>>::empty();
            assert(chains.dom() =~= f.blocks().dom());
            assert(linked(f.insts(), f.blocks(), chains));
            f.lemma_chains_are(chains);
            assert(f@.insts =~= Map::<InstId, Inst>::empty());
            assert(f@.jumps =~= Map::<BBId, Seq<Branch>>::empty());
            assert(f@.order =~= Map::<BBId, (Option<BBId>, Option<BBId>)>::empty());
        }
        f
    }

    /// A function without instructions and blocks, and without a result.
    pub fn new_untyped(name: SmolStr) -> (f: TacFunc)
        ensures
            f.wf(),
            f@ == (FuncView {
                insts: Map::empty(),
                chains: Map::empty(),
                jumps: Map::empty(),
                order: Map::empty(),
                first_block: None,
                ty: Ty::Unit,
                name,
            }),
    {
        Self::new(name, Ty::unit())
    }

    /// The block at which the function is entered.
    pub fn starting_block(&self) -> (r: Option<BBId>)
        ensures
            r == self@.first_block,
    {
        self.first_block
    }

    /// The number of live instructions.
    pub fn inst_count(&self) -> (n: usize)
        ensures
            n == self.insts().dom().len(),
            n <= u32::MAX,
    {
        inst_arena_len(&self.instructions_arena)
    }

    /// The number of live blocks.
    pub fn bb_count(&self) -> (n: usize)
        ensures
            n == self.blocks().dom().len(),
            n <= u32::MAX,
    {
        block_arena_len(&self.basic_block_arena)
    }

    /// Stores a new instruction that is in no block yet.
    pub fn inst_new(&mut self, inst: Inst) -> (id: InstId)
        requires
            old(self).wf(),
            old(self).insts().dom().len() < u32::MAX,
        ensures
            final(self).wf(),
            !old(self).has_inst(id),
            final(self).insts() == old(self).insts().insert(
                id,
                Tac { inst, bb: BBId::null(), prev: None, next: None },
            ),
            final(self)@ == (FuncView { insts: old(self)@.insts.insert(id, inst), ..old(self)@ }),
            final(self).insts().dom().len() == old(self).insts().dom().len() + 1,
    {
        proof {
            self.lemma_wf();
        }
        let id = inst_arena_insert(&mut self.instructions_arena, Tac::independent(inst, BBId { bits: 0 }));
        proof {
            lemma_generation_nonzero(id.bits);
            let chains = old(self).chains();
            let m = old(self).insts();
            let m2 = self.insts();
            assert forall|bb: BBId| self.blocks().dom().contains(bb) implies #[trigger] chain_ok(
                m2,
                self.blocks()[bb],
                bb,
                chains[bb],
            ) by {
                assert(chain_ok(m, self.blocks()[bb], bb, chains[bb]));
                lemma_chain_frame(m, m2, self.blocks()[bb], self.blocks()[bb], bb, chains[bb]);
            }
            assert forall|i: InstId| m2.dom().contains(i) implies #[trigger] placed_ok(
                m2,
                self.blocks(),
                chains,
                i,
            ) by {
                if i != id {
                    assert(placed_ok(m, self.blocks(), chains, i));
                }
            }
            self.lemma_chains_are(chains);
            assert(self@.insts =~= old(self)@.insts.insert(id, inst));
        }
        id
    }

    /// True if `inst` names a live instruction.
    pub fn inst_exists(&self, inst: InstId) -> (r: bool)
        ensures
            r == self.has_inst(inst),
    {
        inst_arena_get(&self.instructions_arena, inst).is_some()
    }

    /// The instruction after `inst` in its block.
    pub fn inst_next(&self, inst: InstId) -> (r: Option<InstId>)
        requires
            self.has_inst(inst),
        ensures
            r == self.insts()[inst].next,
    {
        self.tac_get(inst).next
    }

    /// The instruction before `inst` in its block.
    pub fn inst_prev(&self, inst: InstId) -> (r: Option<InstId>)
        requires
            self.has_inst(inst),
        ensures
            r == self.insts()[inst].prev,
    {
        self.tac_get(inst).prev
    }

    /// The record of a live instruction.
    pub fn tac_get(&self, idx: InstId) -> (r: &Tac)
        requires
            self.has_inst(idx),
        ensures
            *r == self.insts()[idx],
    {
        inst_arena_get(&self.instructions_arena, idx).unwrap()
    }

    /// A live instruction.
    pub fn inst_get(&self, idx: InstId) -> (r: &Inst)
        requires
            self.has_inst(idx),
        ensures
            *r == self.insts()[idx].inst,
            *r == self@.insts[idx],
    {
        &self.tac_get(idx).inst
    }

    /// Puts the instruction `inst`, which is in no block, directly behind
    /// `after` in the block of `after`.
    pub fn inst_set_after(&mut self, after: InstId, inst: InstId)
        requires
            old(self).wf(),
            old(self).has_inst(after),
            old(self).has_inst(inst),
            !old(self).home(after).is_null(),
            old(self).home(inst).is_null(),
        ensures
            final(self).wf(),
            final(self)@ == old(self)@.put(old(self).home(after), old(self).pos(after) + 1, inst),
    {
        let ghost m = self.insts();
        let ghost blocks = self.blocks();
        let ghost chains = self.chains();
        let ghost bb0 = self.home(after);
        let ghost c = chains[bb0];
        let ghost k = self.pos(after);
        proof {
            self.lemma_wf();
            self.lemma_home(after);
            lemma_insert_linked(m, blocks, chains, bb0, k + 1, inst);
            assert(placed_ok(m, blocks, chains, inst));
            if k + 1 < c.len() {
                lemma_member(m, blocks, chains, bb0, k + 1);
            }
        }
        attach_after(&mut self.instructions_arena, after, inst);
        let bb = self.tac_get(after).bb;
        let t = inst_arena_get_mut(&mut self.instructions_arena, inst).unwrap();
        t.bb = bb;
        let b = block_arena_get_mut(&mut self.basic_block_arena, bb).unwrap();
        if b.tail == Some(after) {
            b.tail = Some(inst);
        }
        proof {
            let c2 = c.insert(k + 1, inst);
            assert(self.insts() =~= inserted(m, c, bb0, k + 1, inst));
            assert(chain_ok(m, blocks[bb0], bb0, c));
            assert(c2[0] == c[0]);
            if k == c.len() - 1 {
                assert(c2[c2.len() - 1] == inst);
            } else {
                assert(c2[c2.len() - 1] == c[c.len() - 1]);
                assert(c[k] != c[c.len() - 1]);
            }
            assert(self.blocks()[bb0] == with_ends(blocks[bb0], c2));
            assert(self.blocks() =~= blocks.insert(bb0, with_ends(blocks[bb0], c2)));
            self.lemma_chains_are(chains.insert(bb0, c2));
            assert(self@.insts =~= old(self)@.insts);
            assert(self@.jumps =~= old(self)@.jumps);
            assert(self@.order =~= old(self)@.order);
        }
    }

    /// Puts the instruction `inst`, which is in no block, directly before
    /// `before` in the block of `before`.
    pub fn inst_set_before(&mut self, before: InstId, inst: InstId)
        requires
            old(self).wf(),
            old(self).has_inst(before),
            old(self).has_inst(inst),
            !old(self).home(before).is_null(),
            old(self).home(inst).is_null(),
        ensures
            final(self).wf(),
            final(self)@ == old(self)@.put(old(self).home(before), old(self).pos(before), inst),
    {
        let ghost m = self.insts();
        let ghost blocks = self.blocks();
        let ghost chains = self.chains();
        let ghost bb0 = self.home(before);
        let ghost c = chains[bb0];
        let ghost k = self.pos(before);
        proof {
            self.lemma_wf();
            self.lemma_home(before);
            lemma_insert_linked(m, blocks, chains, bb0, k, inst);
            assert(placed_ok(m, blocks, chains, inst));
            if k > 0 {
                lemma_member(m, blocks, chains, bb0, k - 1);
            }
        }
        attach_before(&mut self.instructions_arena, before, inst);
        let bb = self.tac_get(before).bb;
        let t = inst_arena_get_mut(&mut self.instructions_arena, inst).unwrap();
        t.bb = bb;
        let b = block_arena_get_mut(&mut self.basic_block_arena, bb).unwrap();
        if b.head == Some(before) {
            b.head = Some(inst);
        }
        proof {
            let c2 = c.insert(k, inst);
            assert(self.insts() =~= inserted(m, c, bb0, k, inst));
            assert(chain_ok(m, blocks[bb0], bb0, c));
            assert(c2[c2.len() - 1] == c[c.len() - 1]);
            if k == 0 {
                assert(c2[0] == inst);
            } else {
                assert(c2[0] == c[0]);
                assert(c[k] != c[0]);
            }
            assert(self.blocks()[bb0] == with_ends(blocks[bb0], c2));
            assert(self.blocks() =~= blocks.insert(bb0, with_ends(blocks[bb0], c2)));
            self.lemma_chains_are(chains.insert(bb0, c2));
            assert(self@.insts =~= old(self)@.insts);
            assert(self@.jumps =~= old(self)@.jumps);
            assert(self@.order =~= old(self)@.order);
        }
    }

    /// Puts the instruction `inst`, which is in no block, into the empty
    /// block `bb` as its only instruction.
    fn inst_set_only(&mut self, inst: InstId, bb: BBId)
        requires
            old(self).wf(),
            old(self).has_inst(inst),
            old(self).has_bb(bb),
            old(self).home(inst).is_null(),
            old(self).chain(bb).len() == 0,
        ensures
            final(self).wf(),
            final(self)@ == old(self)@.put(bb, 0, inst),
    {
        let ghost m = self.insts();
        let ghost blocks = self.blocks();
        let ghost chains = self.chains();
        proof {
            self.lemma_wf();
            lemma_insert_linked(m, blocks, chains, bb, 0, inst);
        }
        let t = inst_arena_get_mut(&mut self.instructions_arena, inst).unwrap();
        t.bb = bb;
        let b = block_arena_get_mut(&mut self.basic_block_arena, bb).unwrap();
        b.head = Some(inst);
        b.tail = Some(inst);
        proof {
            let c = chains[bb];
            let c2 = c.insert(0, inst);
            assert(placed_ok(m, blocks, chains, inst));
            assert(self.insts() =~= inserted(m, c, bb, 0, inst));
            assert(c2[0] == inst);
            assert(self.blocks()[bb] == with_ends(blocks[bb], c2));
            assert(self.blocks() =~= blocks.insert(bb, with_ends(blocks[bb], c2)));
            self.lemma_chains_are(chains.insert(bb, c2));
            assert(self@.insts =~= old(self)@.insts);
            assert(self@.jumps =~= old(self)@.jumps);
            assert(self@.order =~= old(self)@.order);
        }
    }

    /// Puts the instruction `inst`, which is in no block, at the end of the
    /// block `bb`.
    pub fn inst_append_in_bb(&mut self, inst: InstId, bb: BBId)
        requires
            old(self).wf(),
            old(self).has_inst(inst),
            old(self).has_bb(bb),
            old(self).home(inst).is_null(),
        ensures
            final(self).wf(),
            final(self)@ == old(self)@.put(bb, old(self).chain(bb).len() as int, inst),
            final(self).chain(bb) == old(self).chain(bb).push(inst),
    {
        proof {
            self.lemma_wf();
            self.lemma_ends(bb);
            let c = self.chain(bb);
            if c.len() > 0 {
                self.lemma_chain_at(bb, c.len() - 1);
            }
            assert(c.insert(c.len() as int, inst) =~= c.push(inst));
        }
        let old_tail = self.bb_get(bb).tail;
        match old_tail {
            Some(t) => {
                self.inst_set_after(t, inst);
            },
            None => {
                self.inst_set_only(inst, bb);
            },
        }
    }

    /// Puts the instruction `inst`, which is in no block, at the start of the
    /// block `bb`.
    pub fn inst_prepend_in_bb(&mut self, inst: InstId, bb: BBId)
        requires
            old(self).wf(),
            old(self).has_inst(inst),
            old(self).has_bb(bb),
            old(self).home(inst).is_null(),
        ensures
            final(self).wf(),
            final(self)@ == old(self)@.put(bb, 0, inst),
    {
        proof {
            self.lemma_wf();
            self.lemma_ends(bb);
            let c = self.chain(bb);
            if c.len() > 0 {
                self.lemma_chain_at(bb, 0);
            }
        }
        let old_head = self.bb_get(bb).head;
        match old_head {
            Some(h) => {
                self.inst_set_before(h, inst);
            },
            None => {
                self.inst_set_only(inst, bb);
            },
        }
    }

    /// Takes the instruction `idx` out of the chain of its block, if it is
    /// in one. It stays live, in no block.
    pub fn inst_detach(&mut self, idx: InstId)
        requires
            old(self).wf(),
            old(self).has_inst(idx),
        ensures
            final(self).wf(),
            final(self).home(idx).is_null(),
            final(self)@ == (if old(self).home(idx).is_null() {
                old(self)@
            } else {
                old(self)@.take(old(self).home(idx), old(self).pos(idx))
            }),
    {
        let ghost m = self.insts();
        let ghost blocks = self.blocks();
        let ghost chains = self.chains();
        let ghost bb0 = self.home(idx);
        let ghost c = chains[bb0];
        let ghost k = self.pos(idx);
        proof {
            self.lemma_wf();
            assert(placed_ok(m, blocks, chains, idx));
        }
        let t = self.tac_get(idx);
        let bb = t.bb;
        let prev = t.prev;
        let next = t.next;
        if bb.bits == 0 {
            return ;
        }
        proof {
            self.lemma_home(idx);
            lemma_remove_linked(m, blocks, chains, bb0, k);
            if k > 0 {
                lemma_member(m, blocks, chains, bb0, k - 1);
            }
            if k + 1 < c.len() {
                lemma_member(m, blocks, chains, bb0, k + 1);
            }
        }
        detach(&mut self.instructions_arena, idx);
        let t = inst_arena_get_mut(&mut self.instructions_arena, idx).unwrap();
        t.bb = BBId { bits: 0 };
        let b = block_arena_get_mut(&mut self.basic_block_arena, bb).unwrap();
        if b.head == Some(idx) {
            b.head = next;
        }
        if b.tail == Some(idx) {
            b.tail = prev;
        }
        proof {
            let c2 = c.remove(k);
            assert(self.insts() =~= removed(m, c, k));
            assert(chain_ok(m, blocks[bb0], bb0, c));
            if c.len() > 1 {
                assert(c2[0] == (if k == 0 { c[1] } else { c[0] }));
                assert(c2[c2.len() - 1] == (if k == c.len() - 1 { c[c.len() - 2] } else { c[c.len() - 1] }));
                if k != 0 {
                    assert(c[k] != c[0]);
                }
                if k != c.len() - 1 {
                    assert(c[k] != c[c.len() - 1]);
                }
            }
            assert(self.blocks()[bb0] == with_ends(blocks[bb0], c2));
            assert(self.blocks() =~= blocks.insert(bb0, with_ends(blocks[bb0], c2)));
            self.lemma_chains_are(chains.insert(bb0, c2));
            assert(self@.insts =~= old(self)@.insts);
            assert(self@.jumps =~= old(self)@.jumps);
            assert(self@.order =~= old(self)@.order);
        }
    }

    /// Drops the instruction `idx`, which is in no block, and returns it.
    pub fn inst_remove(&mut self, idx: InstId) -> (r: Inst)
        requires
            old(self).wf(),
            old(self).has_inst(idx),
            old(self).home(idx).is_null(),
        ensures
            final(self).wf(),
            r == old(self)@.insts[idx],
            final(self).insts() == old(self).insts().remove(idx),
            final(self)@ == (FuncView { insts: old(self)@.insts.remove(idx), ..old(self)@ }),
    {
        proof {
            self.lemma_wf();
        }
        let t = inst_arena_remove(&mut self.instructions_arena, idx).unwrap();
        proof {
            let chains = old(self).chains();
            let m = old(self).insts();
            let m2 = self.insts();
            assert forall|bb: BBId| self.blocks().dom().contains(bb) implies #[trigger] chain_ok(
                m2,
                self.blocks()[bb],
                bb,
                chains[bb],
            ) by {
                assert(chain_ok(m, self.blocks()[bb], bb, chains[bb]));
                lemma_chain_frame(m, m2, self.blocks()[bb], self.blocks()[bb], bb, chains[bb]);
            }
            assert forall|i: InstId| m2.dom().contains(i) implies #[trigger] placed_ok(
                m2,
                self.blocks(),
                chains,
                i,
            ) by {
                assert(placed_ok(m, self.blocks(), chains, i));
            }
            self.lemma_chains_are(chains);
            assert(self@.insts =~= old(self)@.insts.remove(idx));
        }
        t.inst
    }

    /// The handles of all live instructions, in no particular order.
    pub(crate) fn inst_ids(&self) -> (r: Vec<InstId>)
        ensures
            r@.no_duplicates(),
            r@.to_set() == self@.insts.dom(),
    {
        let r = inst_arena_ids(&self.instructions_arena);
        assert(self@.insts.dom() =~= self.insts().dom());
        r
    }

    /// All live instructions, in no particular order: the handle of each,
    /// once, with the block that holds it, which is null while it is in
    /// none. The instruction itself is had from the handle.
    pub fn all_inst_unordered(&self) -> (r: Vec<(InstId, BBId)>)
        ensures
            handles_of(r@).no_duplicates(),
            handles_of(r@).to_set() == self@.insts.dom(),
            forall|k: int| 0 <= k < r@.len() ==> (#[trigger] r@[k]).1 == self.home(r@[k].0),
    {
        let ids = self.inst_ids();
        let mut r: Vec<(InstId, BBId)> = Vec::new();
        let mut k: usize = 0;
        proof {
            assert(self@.insts.dom() =~= self.insts().dom());
        }
        while k < ids.len()
            invariant
                k <= ids@.len(),
                ids@.to_set() == self.insts().dom(),
                r@.len() == k,
                forall|j: int| 0 <= j < r@.len() ==> (#[trigger] r@[j]).0 == ids@[j],
                forall|j: int| 0 <= j < r@.len() ==> (#[trigger] r@[j]).1 == self.home(r@[j].0),
            decreases ids.len() - k,
        {
            let id = ids[k];
            proof {
                assert(ids@.to_set().contains(ids@[k as int]));
            }
            let bb = self.tac_get(id).bb;
            r.push((id, bb));
            k += 1;
        }
        proof {
            assert(handles_of(r@) =~= ids@);
        }
        r
    }
}

/// Operations on basic blocks.
impl TacFunc {
    /// Adds a block without instructions, branches and neighbours.
    pub fn bb_new(&mut self) -> (id: BBId)
        requires
            old(self).wf(),
            old(self).blocks().dom().len() < u32::MAX,
        ensures
            final(self).wf(),
            !old(self).has_bb(id),
            final(self).has_bb(id),
            final(self)@ == (FuncView {
                chains: old(self)@.chains.insert(id, Seq::empty()),
                jumps: old(self)@.jumps.insert(id, Seq::empty()),
                order: old(self)@.order.insert(id, (None, None)),
                ..old(self)@
            }),
            final(self).insts() == old(self).insts(),
            final(self).blocks().dom() == old(self).blocks().dom().insert(id),
            final(self).blocks().dom().len() == old(self).blocks().dom().len() + 1,
    {
        proof {
            self.lemma_wf();
        }
        let id = block_arena_insert(&mut self.basic_block_arena, BasicBlock::default());
        proof {
            lemma_generation_nonzero(id.bits);
            let chains = old(self).chains();
            let chains2 = chains.insert(id, Seq::<InstId>::empty());
            let m = self.insts();
            let blocks = old(self).blocks();
            assert(chains2.dom() =~= self.blocks().dom());
            assert forall|bb: BBId| self.blocks().dom().contains(bb) implies #[trigger] chain_ok(
                m,
                self.blocks()[bb],
                bb,
                chains2[bb],
            ) by {
                if bb != id {
                    assert(chain_ok(m, blocks[bb], bb, chains[bb]));
                }
            }
            assert forall|i: InstId| m.dom().contains(i) implies #[trigger] placed_ok(
                m,
                self.blocks(),
                chains2,
                i,
            ) by {
                assert(placed_ok(m, blocks, chains, i));
            }
            self.lemma_chains_are(chains2);
            assert(self@.insts =~= old(self)@.insts);
            assert(self@.jumps =~= old(self)@.jumps.insert(id, Seq::empty()));
            assert(self@.order =~= old(self)@.order.insert(id, (None, None)));
        }
        id
    }

    /// True if `idx` names a live block.
    pub fn bb_exists(&self, idx: BBId) -> (r: bool)
        ensures
            r == self.has_bb(idx),
    {
        block_arena_get(&self.basic_block_arena, idx).is_some()
    }

    /// A live block.
    pub fn bb_get(&self, idx: BBId) -> (r: &BasicBlock)
        requires
            self.has_bb(idx),
        ensures
            *r == self.blocks()[idx],
            r.jumps@ == self@.jumps[idx],
            (r.prev, r.next) == self@.order[idx],
    {
        block_arena_get(&self.basic_block_arena, idx).unwrap()
    }

    /// Makes `bb` the block at which the function is entered, and returns
    /// the block that was.
    pub fn bb_set_first(&mut self, bb: BBId) -> (r: Option<BBId>)
        requires
            old(self).wf(),
            old(self).has_bb(bb),
        ensures
            final(self).wf(),
            r == old(self)@.first_block,
            final(self)@ == (FuncView { first_block: Some(bb), ..old(self)@ }),
            final(self).insts() == old(self).insts(),
            final(self).blocks() == old(self).blocks(),
    {
        let r = self.first_block;
        self.first_block = Some(bb);
        r
    }

    /// The handles of all live blocks, in no particular order.
    pub fn all_bb_unordered(&self) -> (r: Vec<BBId>)
        ensures
            r@.no_duplicates(),
            r@.to_set() == self.blocks().dom(),
    {
        let r = block_arena_ids(&self.basic_block_arena);
        r
    }
}

/// Direct access to records and blocks. What is written through these
/// references is not checked: the caller answers for the chains.
impl TacFunc {
    /// The name, the type and the entry block of the function.
    pub open(crate) spec fn header(&self) -> (SmolStr, Ty, Option<BBId>) {
        (self.name, self.ty, self.first_block)
    }

    /// The record of a live instruction, open to change.
    pub fn tac_get_mut(&mut self, idx: InstId) -> (r: &mut Tac)
        requires
            old(self).has_inst(idx),
        ensures
            *r == old(self).insts()[idx],
            final(self).insts() == old(self).insts().insert(idx, *final(r)),
            final(self).blocks() == old(self).blocks(),
            final(self).header() == old(self).header(),
    {
        inst_arena_get_mut(&mut self.instructions_arena, idx).unwrap()
    }

    /// A live instruction, open to change. Its place in the function stays
    /// as it is.
    pub fn inst_get_mut(&mut self, idx: InstId) -> (r: &mut Inst)
        requires
            old(self).wf(),
            old(self).has_inst(idx),
        ensures
            *r == old(self)@.insts[idx],
            final(self).insts() == with_body(old(self).insts(), idx, *final(r)),
            final(self).blocks() == old(self).blocks(),
            final(self).wf(),
            final(self)@ == (FuncView { insts: old(self)@.insts.insert(idx, *final(r)), ..old(self)@ }),
    {
        let ghost m = self.insts();
        let ghost blocks = self.blocks();
        let ghost chains = self.chains();
        proof {
            self.lemma_wf();
            assert forall|x: Inst| linked(#[trigger] with_body(m, idx, x), blocks, chains) by {
                lemma_body_linked(m, blocks, chains, idx, x);
            }
            assert forall|x: Inst, c2: Map<BBId, Seq<InstId>>| #[trigger]
                linked(with_body(m, idx, x), blocks, c2) implies c2 == chains by {
                lemma_linked_unique(with_body(m, idx, x), blocks, c2, chains);
            }
            assert forall|x: Inst| bodies(#[trigger] with_body(m, idx, x)) == bodies(m).insert(idx, x) by {
                assert(bodies(with_body(m, idx, x)) =~= bodies(m).insert(idx, x));
            }
        }
        let t = inst_arena_get_mut(&mut self.instructions_arena, idx).unwrap();
        let r = &mut t.inst;
        proof {
            assert(linked(with_body(m, idx, *final(r)), blocks, chains));
        }
        r
    }

    /// A live block, open to change.
    pub fn bb_get_mut(&mut self, idx: BBId) -> (r: &mut BasicBlock)
        requires
            old(self).has_bb(idx),
        ensures
            *r == old(self).blocks()[idx],
            final(self).blocks() == old(self).blocks().insert(idx, *final(r)),
            final(self).insts() == old(self).insts(),
            final(self).header() == old(self).header(),
    {
        block_arena_get_mut(&mut self.basic_block_arena, idx).unwrap()
    }

    /// Two different live blocks, both open to change.
    pub fn bb_get2_mut(&mut self, one: BBId, two: BBId) -> (r: (&mut BasicBlock, &mut BasicBlock))
        requires
            one != two,
            old(self).has_bb(one),
            old(self).has_bb(two),
        ensures
            *r.0 == old(self).blocks()[one],
            *r.1 == old(self).blocks()[two],
            final(self).blocks() == old(self).blocks().insert(one, *final(r.0)).insert(two, *final(r.1)),
            final(self).insts() == old(self).insts(),
            final(self).header() == old(self).header(),
    {
        block_arena_get2_mut(&mut self.basic_block_arena, one, two)
    }

    /// The branches of a live block, open to change. The instructions of the
    /// function stay as they are.
    pub fn bb_jumps_mut(&mut self, bb: BBId) -> (r: &mut Vec<Branch>)
        requires
            old(self).wf(),
            old(self).has_bb(bb),
        ensures
            r@ == old(self)@.jumps[bb],
            final(self).blocks() == with_jumps(old(self).blocks(), bb, *final(r)),
            final(self).insts() == old(self).insts(),
            final(self).wf(),
            final(self)@ == (FuncView { jumps: old(self)@.jumps.insert(bb, final(r)@), ..old(self)@ }),
    {
        let ghost m = self.insts();
        let ghost blocks = self.blocks();
        let ghost chains = self.chains();
        proof {
            self.lemma_wf();
            assert forall|x: Vec<Branch>| linked(m, #[trigger] with_jumps(blocks, bb, x), chains) by {
                assert(with_jumps(blocks, bb, x).dom() =~= blocks.dom());
                lemma_blocks_linked(m, blocks, with_jumps(blocks, bb, x), chains);
            }
            assert forall|x: Vec<Branch>, c2: Map<BBId, Seq<InstId>>| #[trigger]
                linked(m, with_jumps(blocks, bb, x), c2) implies c2 == chains by {
                lemma_linked_unique(m, with_jumps(blocks, bb, x), c2, chains);
            }
            assert forall|x: Vec<Branch>| jumps_of(#[trigger] with_jumps(blocks, bb, x)) == jumps_of(
                blocks,
            ).insert(bb, x@) && order_of(with_jumps(blocks, bb, x)) == order_of(blocks) by {
                assert(jumps_of(with_jumps(blocks, bb, x)) =~= jumps_of(blocks).insert(bb, x@));
                assert(order_of(with_jumps(blocks, bb, x)) =~= order_of(blocks));
            }
        }
        let b = block_arena_get_mut(&mut self.basic_block_arena, bb).unwrap();
        let r = &mut b.jumps;
        proof {
            assert(linked(m, with_jumps(blocks, bb, *final(r)), chains));
        }
        r
    }

    /// Replaces the neighbours of a live block in the order of blocks.
    pub(crate) fn bb_relink(&mut self, bb: BBId, prev: Option<BBId>, next: Option<BBId>)
        requires
            old(self).wf(),
            old(self).has_bb(bb),
        ensures
            final(self).wf(),
            final(self)@ == (FuncView { order: old(self)@.order.insert(bb, (prev, next)), ..old(self)@ }),
            final(self).insts() == old(self).insts(),
            final(self).blocks().dom() == old(self).blocks().dom(),
    {
        let ghost m = self.insts();
        let ghost blocks = self.blocks();
        let ghost chains = self.chains();
        proof {
            self.lemma_wf();
        }
        let b = block_arena_get_mut(&mut self.basic_block_arena, bb).unwrap();
        b.prev = prev;
        b.next = next;
        proof {
            let blocks2 = with_neighbours(blocks, bb, prev, next);
            assert(self.blocks() =~= blocks2);
            assert(blocks2.dom() =~= blocks.dom());
            lemma_blocks_linked(m, blocks, blocks2, chains);
            self.lemma_chains_are(chains);
            assert(self@.jumps =~= old(self)@.jumps);
            assert(self@.order =~= old(self)@.order.insert(bb, (prev, next)));
        }
    }
}

} // verus!
