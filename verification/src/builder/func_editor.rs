//! A cursor into a function, and the edits made at the cursor.

use vstd::prelude::*;
use crate::chain::at;
use crate::err::{Error, TacResult};
use crate::func::{FuncView, TacFunc};
use crate::handle::{BBId, InstId};
use crate::inst::{targets_of, Branch, Inst, InstKind};
use crate::small::SmallBBIdVec;
use crate::ty::Ty;

verus! {

/// A place in a function: a block, and an instruction of that block unless
/// the block is empty.
#[derive(Clone, Copy, Debug, PartialEq, Eq, Structural)]
pub struct Cursor {
    pub bb: BBId,
    pub idx: Option<InstId>,
}

impl FuncView {
    /// The last instruction of `bb`, if it has one.
    pub open spec fn tail(self, bb: BBId) -> Option<InstId> {
        at(self.chains[bb], self.chains[bb].len() - 1)
    }

    /// The first instruction of `bb`, if it has one.
    pub open spec fn head(self, bb: BBId) -> Option<InstId> {
        at(self.chains[bb], 0)
    }

    /// True if `bb` names a block of this function.
    pub open spec fn has_bb(self, bb: BBId) -> bool {
        self.chains.dom().contains(bb)
    }

    /// What moving the cursor `cur` to the end of `bb` reports: whether the
    /// cursor was there already, or that there is no such block.
    pub open spec fn to_end(self, cur: Cursor, bb: BBId) -> TacResult<bool> {
        if self.has_bb(bb) {
            Ok(cur == (Cursor { bb, idx: self.tail(bb) }))
        } else {
            Err(Error::NoSuchBB(bb))
        }
    }

    /// What moving the cursor `cur` to the start of `bb` reports.
    pub open spec fn to_start(self, cur: Cursor, bb: BBId) -> TacResult<bool> {
        if self.has_bb(bb) {
            Ok(cur == (Cursor { bb, idx: self.head(bb) }))
        } else {
            Err(Error::NoSuchBB(bb))
        }
    }

    /// This function with the new instruction `inst` stored under `id` and
    /// put at position `p` of the chain of `bb`.
    pub open spec fn with_new(self, bb: BBId, p: int, id: InstId, inst: Inst) -> FuncView {
        (FuncView { insts: self.insts.insert(id, inst), ..self }).put(bb, p, id)
    }

    /// This function with `branch` added behind the branches of `bb`.
    pub open spec fn with_branch(self, bb: BBId, branch: Branch) -> FuncView {
        FuncView { jumps: self.jumps.insert(bb, self.jumps[bb].push(branch)), ..self }
    }
}

/// The number of times `a` occurs in `s`.
pub open spec fn occurrences(s: Seq<BBId>, a: BBId) -> nat
    decreases s.len(),
{
    if s.len() == 0 {
        0
    } else {
        occurrences(s.drop_last(), a) + (if s.last() == a {
            1nat
        } else {
            0nat
        })
    }
}

/// Adding `x` behind `s` adds one occurrence of `x` and of nothing else.
pub proof fn lemma_occurrences_push(s: Seq<BBId>, x: BBId, a: BBId)
    ensures
        occurrences(s.push(x), a) == occurrences(s, a) + (if x == a {
            1nat
        } else {
            0nat
        }),
{
    assert(s.push(x).drop_last() =~= s);
}

/// An edge of the control flow graph: the branch at position `branch` of
/// the block `source`, which goes to `target`.
#[derive(Clone, Copy, Debug, PartialEq, Eq, Structural)]
pub struct Edge {
    pub source: BBId,
    pub branch: usize,
    pub target: BBId,
}

/// The edges that the branches `jumps` of the block `bb` make, in order.
pub open spec fn edges_of(bb: BBId, jumps: Seq<Branch>) -> Seq<Edge>
    decreases jumps.len(),
{
    if jumps.len() == 0 {
        Seq::empty()
    } else {
        match jumps.last().target() {
            Some(t) => edges_of(bb, jumps.drop_last()).push(
                Edge { source: bb, branch: (jumps.len() - 1) as usize, target: t },
            ),
            None => edges_of(bb, jumps.drop_last()),
        }
    }
}

impl FuncView {
    /// The blocks that the branches of `bb` go to, in the order of the
    /// branches; a block occurs once for each branch that goes to it.
    pub open spec fn succ(self, bb: BBId) -> Seq<BBId> {
        if self.jumps.dom().contains(bb) {
            targets_of(self.jumps[bb])
        } else {
            Seq::empty()
        }
    }

    /// True if every branch with a target goes to a block of this
    /// function.
    pub open spec fn targets_live(self) -> bool {
        forall|b: BBId, k: int| 0 <= k < self.succ(b).len() ==> self.chains.dom().contains(#[trigger] self.succ(b)[k])
    }

    /// The number of branches of `from` that go to `to`.
    pub open spec fn edge_count(self, from: BBId, to: BBId) -> nat {
        occurrences(self.succ(from), to)
    }

    /// True if `e` is an edge of this function.
    pub open spec fn is_edge(self, e: Edge) -> bool {
        &&& self.jumps.dom().contains(e.source)
        &&& e.branch < self.jumps[e.source].len()
        &&& self.jumps[e.source][e.branch as int].target() == Some(e.target)
    }

    /// True if `e` is an edge of this function that arrives at `bb`.
    pub open spec fn arrives(self, e: Edge, bb: BBId) -> bool {
        self.is_edge(e) && e.target == bb
    }
}

/// The targets of branches that all go to blocks of `live` are blocks of
/// `live`.
pub proof fn lemma_targets_among(jumps: Seq<Branch>, live: Set<BBId>)
    requires
        forall|k: int| 0 <= k < jumps.len() ==> ((#[trigger] jumps[k]).target() matches Some(t) ==> live.contains(t)),
    ensures
        forall|k: int| 0 <= k < targets_of(jumps).len() ==> live.contains(#[trigger] targets_of(jumps)[k]),
    decreases jumps.len(),
{
    if jumps.len() > 0 {
        let rest = jumps.drop_last();
        assert forall|k: int| 0 <= k < rest.len() implies ((#[trigger] rest[k]).target() matches Some(t)
            ==> live.contains(t)) by {
            assert(rest[k] == jumps[k]);
        }
        lemma_targets_among(rest, live);
        let last = jumps[jumps.len() - 1];
        assert(jumps.last() == last);
        let done = targets_of(rest);
        assert forall|k: int| 0 <= k < targets_of(jumps).len() implies live.contains(
            #[trigger] targets_of(jumps)[k],
        ) by {
            match last.target() {
                Some(t) => {
                    assert(targets_of(jumps) == done.push(t));
                    if k < done.len() {
                        assert(targets_of(jumps)[k] == done[k]);
                    }
                },
                None => {
                    assert(targets_of(jumps) == done);
                },
            }
        }
    }
}

/// A function whose branches go to its blocks stays so where the
/// branches of one block are replaced by branches to its blocks.
pub proof fn lemma_jumps_live(v: FuncView, bb: BBId, jumps: Seq<Branch>)
    requires
        v.targets_live(),
        forall|k: int|
            0 <= k < jumps.len() ==> ((#[trigger] jumps[k]).target() matches Some(t) ==> v.chains.dom().contains(t)),
    ensures
        (FuncView { jumps: v.jumps.insert(bb, jumps), ..v }).targets_live(),
{
    let w = FuncView { jumps: v.jumps.insert(bb, jumps), ..v };
    lemma_targets_among(jumps, v.chains.dom());
    assert forall|b: BBId, k: int| 0 <= k < w.succ(b).len() implies w.chains.dom().contains(#[trigger] w.succ(b)[k]) by {
        if b != bb {
            assert(w.succ(b) == v.succ(b));
            assert(v.chains.dom().contains(v.succ(b)[k]));
        }
    }
}

/// The branches of a block whose successors are blocks of the function,
/// with one more branch to a block of the function, go to its blocks.
pub proof fn lemma_branch_live(v: FuncView, bb: BBId, branch: Branch)
    requires
        v.targets_live(),
        v.jumps.dom().contains(bb),
        branch.target() matches Some(t) ==> v.chains.dom().contains(t),
    ensures
        v.with_branch(bb, branch).targets_live(),
{
    let w = v.with_branch(bb, branch);
    let old_jumps = v.jumps[bb];
    assert(old_jumps.push(branch).drop_last() =~= old_jumps);
    assert forall|b: BBId, k: int| 0 <= k < w.succ(b).len() implies w.chains.dom().contains(#[trigger] w.succ(b)[k]) by {
        if b != bb {
            assert(w.succ(b) == v.succ(b));
            assert(v.chains.dom().contains(v.succ(b)[k]));
        } else {
            let s0 = v.succ(bb);
            if k < s0.len() {
                assert(w.succ(b)[k] == s0[k]);
                assert(v.chains.dom().contains(s0[k]));
            }
        }
    }
}

/// A block without branches has no successor, and is the predecessor of no
/// block.
pub proof fn lemma_no_branch_no_edge(v: FuncView, bb: BBId)
    requires
        v.jumps.dom().contains(bb),
        v.jumps[bb].len() == 0,
    ensures
        v.succ(bb) == Seq::<BBId>::empty(),
        forall|to: BBId| v.edge_count(bb, to) == 0,
        forall|e: Edge| v.is_edge(e) ==> e.source != bb,
{
}

/// The first instruction of an empty block is both its first and its last.
pub proof fn lemma_first_instruction(v: FuncView, bb: BBId, id: InstId, inst: Inst)
    requires
        v.chains[bb].len() == 0,
    ensures
        v.with_new(bb, 0, id, inst).chains[bb] == seq![id],
        v.with_new(bb, 0, id, inst).head(bb) == Some(id),
        v.with_new(bb, 0, id, inst).tail(bb) == Some(id),
{
    assert(v.chains[bb].insert(0, id) =~= seq![id]);
}

/// In a block of one instruction, a new instruction behind it is the last
/// and leaves the first, and a new instruction before it is the first and
/// leaves the last.
pub proof fn lemma_second_instruction(v: FuncView, bb: BBId, id: InstId, inst: Inst)
    requires
        v.chains[bb].len() == 1,
    ensures
        v.with_new(bb, 1, id, inst).head(bb) == v.head(bb),
        v.with_new(bb, 1, id, inst).tail(bb) == Some(id),
        v.with_new(bb, 0, id, inst).head(bb) == Some(id),
        v.with_new(bb, 0, id, inst).tail(bb) == v.tail(bb),
{
    let c = v.chains[bb];
    assert(c.insert(1, id) =~= seq![c[0], id]);
    assert(c.insert(0, id) =~= seq![id, c[0]]);
}

/// Moving the cursor to the end of a block a second time reports that the
/// cursor did not move.
pub proof fn lemma_to_end_twice(v: FuncView, cur: Cursor, bb: BBId)
    requires
        v.has_bb(bb),
    ensures
        v.to_end(cur, bb).is_ok(),
        v.to_end(Cursor { bb, idx: v.tail(bb) }, bb) == Ok::<bool, Error>(true),
{
}

/// Moving the cursor to the start of a block a second time reports that the
/// cursor did not move.
pub proof fn lemma_to_start_twice(v: FuncView, cur: Cursor, bb: BBId)
    requires
        v.has_bb(bb),
    ensures
        v.to_start(cur, bb).is_ok(),
        v.to_start(Cursor { bb, idx: v.head(bb) }, bb) == Ok::<bool, Error>(true),
{
}

/// An editor of one function. It holds a cursor; new instructions go in
/// before or behind the cursor.
pub struct FuncEditor<'a> {
    /// The function being edited.
    pub func: &'a mut TacFunc,
    /// The block the cursor is in.
    pub current_bb: BBId,
    /// The instruction the cursor is at; `None` only while the block is
    /// empty.
    pub current_idx: Option<InstId>,
}

impl<'a> FuncEditor<'a> {
    /// The cursor.
    pub open(crate) spec fn cursor(&self) -> Cursor {
        Cursor { bb: self.current_bb, idx: self.current_idx }
    }

    /// The function under the editor.
    pub open(crate) spec fn f(&self) -> TacFunc {
        *self.func
    }

    /// The function is well formed, and the cursor is at an instruction of
    /// the cursor's block, or the cursor's block is live and empty.
    pub open(crate) spec fn wf(&self) -> bool {
        &&& self.func.wf()
        &&& match self.current_idx {
            Some(i) => self.func.has_inst(i) && self.func.home(i) == self.current_bb,
            None => self.func.has_bb(self.current_bb) && self.func.chain(self.current_bb).len() == 0,
        }
    }

    /// True if the cursor's block is live.
    pub open(crate) spec fn anchored(&self) -> bool {
        self.func.has_bb(self.current_bb)
    }

    /// The position in the chain of the cursor's block behind the cursor.
    pub open(crate) spec fn slot_after(&self) -> int {
        match self.current_idx {
            Some(i) => self.func.pos(i) + 1,
            None => 0,
        }
    }

    /// The position in the chain of the cursor's block before the cursor.
    pub open(crate) spec fn slot_before(&self) -> int {
        match self.current_idx {
            Some(i) => self.func.pos(i),
            None => 0,
        }
    }

    /// An editor with its cursor at the start of the function's first
    /// block.
    pub fn new(func: &'a mut TacFunc) -> (r: FuncEditor<'a>)
        requires
            old(func).wf(),
            old(func)@.first_block.is_some(),
        ensures
            r.wf(),
            r.anchored(),
            r.f() == *old(func),
            *final(r.func) == *final(func),
            r.cursor() == (Cursor {
                bb: old(func)@.first_block.unwrap(),
                idx: old(func)@.head(old(func)@.first_block.unwrap()),
            }),
    {
        let current_bb = func.starting_block().unwrap();
        let starting_idx = func.bb_get(current_bb).head;
        proof {
            func.lemma_wf();
            func.lemma_ends(current_bb);
            if func.chain(current_bb).len() > 0 {
                func.lemma_chain_at(current_bb, 0);
            }
        }
        FuncEditor { func, current_bb, current_idx: starting_idx }
    }

    /// Sets the type of the function's result.
    pub fn set_type(&mut self, ty: Ty)
        ensures
            *final(final(self).func) == *final(old(self).func),
            final(self).f()@ == (FuncView { ty, ..old(self).f()@ }),
            final(self).f().insts() == old(self).f().insts(),
            final(self).f().blocks() == old(self).f().blocks(),
            final(self).cursor() == old(self).cursor(),
            old(self).wf() ==> final(self).wf(),
    {
        self.func.ty = ty;
    }

    /// The block the cursor is in.
    pub fn current_bb(&self) -> (r: BBId)
        ensures
            r == self.cursor().bb,
    {
        self.current_bb
    }

    /// The instruction the cursor is at; `None` only while the cursor's
    /// block is empty.
    pub fn current_idx(&self) -> (r: Option<InstId>)
        ensures
            r == self.cursor().idx,
    {
        self.current_idx
    }

    /// Adds a block that is empty, has no branches and is in no order.
    pub fn new_bb(&mut self) -> (id: BBId)
        requires
            old(self).wf(),
            old(self).f().blocks().dom().len() < u32::MAX,
        ensures
            *final(final(self).func) == *final(old(self).func),
            final(self).wf(),
            !old(self).f().has_bb(id),
            final(self).f().has_bb(id),
            final(self).cursor() == old(self).cursor(),
            old(self).anchored() ==> final(self).anchored(),
            final(self).f()@ == (FuncView {
                chains: old(self).f()@.chains.insert(id, Seq::empty()),
                jumps: old(self).f()@.jumps.insert(id, Seq::empty()),
                order: old(self).f()@.order.insert(id, (None, None)),
                ..old(self).f()@
            }),
            final(self).f().insts() == old(self).f().insts(),
            final(self).f().blocks().dom() == old(self).f().blocks().dom().insert(id),
            final(self).f().blocks().dom().len() == old(self).f().blocks().dom().len() + 1,
    {
        self.func.bb_new()
    }

    /// Moves the cursor to the end of the block `bb_id`. Returns whether the
    /// cursor was there already.
    pub fn set_current_bb(&mut self, bb_id: BBId) -> (r: TacResult<bool>)
        requires
            old(self).wf(),
        ensures
            *final(final(self).func) == *final(old(self).func),
            final(self).wf(),
            final(self).f() == old(self).f(),
            r == old(self).f()@.to_end(old(self).cursor(), bb_id),
            r.is_ok() ==> final(self).anchored() && final(self).cursor() == (Cursor {
                bb: bb_id,
                idx: old(self).f()@.tail(bb_id),
            }),
            r.is_err() ==> final(self).cursor() == old(self).cursor(),
    {
        proof {
            self.func.lemma_wf();
        }
        if !self.func.bb_exists(bb_id) {
            return Err(Error::NoSuchBB(bb_id));
        }
        let tail = self.func.bb_get(bb_id).tail;
        proof {
            self.func.lemma_ends(bb_id);
            if self.func.chain(bb_id).len() > 0 {
                self.func.lemma_chain_at(bb_id, self.func.chain(bb_id).len() - 1);
            }
        }
        let same_pos = bb_id == self.current_bb && tail == self.current_idx;
        self.current_bb = bb_id;
        self.current_idx = tail;
        Ok(same_pos)
    }

    /// Moves the cursor to the start of the block `bb_id`. Returns whether
    /// the cursor was there already.
    pub fn set_current_bb_start(&mut self, bb_id: BBId) -> (r: TacResult<bool>)
        requires
            old(self).wf(),
        ensures
            *final(final(self).func) == *final(old(self).func),
            final(self).wf(),
            final(self).f() == old(self).f(),
            r == old(self).f()@.to_start(old(self).cursor(), bb_id),
            r.is_ok() ==> final(self).anchored() && final(self).cursor() == (Cursor {
                bb: bb_id,
                idx: old(self).f()@.head(bb_id),
            }),
            r.is_err() ==> final(self).cursor() == old(self).cursor(),
    {
        proof {
            self.func.lemma_wf();
        }
        if !self.func.bb_exists(bb_id) {
            return Err(Error::NoSuchBB(bb_id));
        }
        let head = self.func.bb_get(bb_id).head;
        proof {
            self.func.lemma_ends(bb_id);
            if self.func.chain(bb_id).len() > 0 {
                self.func.lemma_chain_at(bb_id, 0);
            }
        }
        let same_pos = bb_id == self.current_bb && head == self.current_idx;
        self.current_bb = bb_id;
        self.current_idx = head;
        Ok(same_pos)
    }

    /// Moves the cursor to the instruction `inst_idx`. Returns whether the
    /// cursor was there already.
    pub fn set_position_at_instruction(&mut self, inst_idx: InstId) -> (r: TacResult<bool>)
        requires
            old(self).wf(),
        ensures
            *final(final(self).func) == *final(old(self).func),
            final(self).wf(),
            final(self).f() == old(self).f(),
            r == (if old(self).f()@.insts.dom().contains(inst_idx) {
                Ok(old(self).cursor() == (Cursor { bb: old(self).f().home(inst_idx), idx: Some(inst_idx) }))
            } else {
                Err(Error::NoSuchInst(inst_idx))
            }),
            r.is_ok() ==> final(self).cursor() == (Cursor {
                bb: old(self).f().home(inst_idx),
                idx: Some(inst_idx),
            }),
            r.is_err() ==> final(self).cursor() == old(self).cursor(),
    {
        proof {
            self.func.lemma_wf();
        }
        if !self.func.inst_exists(inst_idx) {
            return Err(Error::NoSuchInst(inst_idx));
        }
        let bb = self.func.tac_get(inst_idx).bb;
        let same_pos = bb == self.current_bb && Some(inst_idx) == self.current_idx;
        self.current_bb = bb;
        self.current_idx = Some(inst_idx);
        Ok(same_pos)
    }

    /// Stores `inst` and puts it directly behind the cursor, or into the
    /// cursor's block if that is empty. The cursor moves to the new
    /// instruction, whose handle is returned.
    pub fn insert_after_current_place(&mut self, inst: Inst) -> (id: InstId)
        requires
            old(self).wf(),
            old(self).anchored(),
            old(self).f().insts().dom().len() < u32::MAX,
        ensures
            *final(final(self).func) == *final(old(self).func),
            final(self).wf(),
            final(self).anchored(),
            !old(self).f().has_inst(id),
            final(self).f()@ == old(self).f()@.with_new(old(self).cursor().bb, old(self).slot_after(), id, inst),
            final(self).cursor() == (Cursor { bb: old(self).cursor().bb, idx: Some(id) }),
            final(self).f().insts().dom().len() == old(self).f().insts().dom().len() + 1,
            final(self).f().blocks().dom() == old(self).f().blocks().dom(),
    {
        proof {
            self.func.lemma_wf();
        }
        let idx = self.func.inst_new(inst);
        proof {
            self.func.lemma_wf();
            old(self).func.lemma_wf();
        }
        match self.current_idx {
            Some(cur_idx) => {
                proof {
                    old(self).func.lemma_home(cur_idx);
                    self.func.lemma_home(cur_idx);
                }
                self.func.inst_set_after(cur_idx, idx);
            },
            None => {
                self.func.inst_append_in_bb(idx, self.current_bb);
            },
        }
        self.current_idx = Some(idx);
        proof {
            self.func.lemma_wf();
            let bb = self.current_bb;
            let c2 = self.func.chain(bb);
            let p = old(self).slot_after();
            assert(c2[p] == idx);
            self.func.lemma_chain_at(bb, p);
        }
        idx
    }

    /// Stores `inst` and puts it directly before the cursor, or into the
    /// cursor's block if that is empty. The cursor moves to the new
    /// instruction, whose handle is returned.
    pub fn insert_before_current_place(&mut self, inst: Inst) -> (id: InstId)
        requires
            old(self).wf(),
            old(self).anchored(),
            old(self).f().insts().dom().len() < u32::MAX,
        ensures
            *final(final(self).func) == *final(old(self).func),
            final(self).wf(),
            final(self).anchored(),
            !old(self).f().has_inst(id),
            final(self).f()@ == old(self).f()@.with_new(old(self).cursor().bb, old(self).slot_before(), id, inst),
            final(self).cursor() == (Cursor { bb: old(self).cursor().bb, idx: Some(id) }),
            final(self).f().insts().dom().len() == old(self).f().insts().dom().len() + 1,
            final(self).f().blocks().dom() == old(self).f().blocks().dom(),
    {
        proof {
            self.func.lemma_wf();
        }
        let idx = self.func.inst_new(inst);
        proof {
            self.func.lemma_wf();
            old(self).func.lemma_wf();
        }
        match self.current_idx {
            Some(cur_idx) => {
                proof {
                    old(self).func.lemma_home(cur_idx);
                    self.func.lemma_home(cur_idx);
                }
                self.func.inst_set_before(cur_idx, idx);
            },
            None => {
                self.func.inst_prepend_in_bb(idx, self.current_bb);
            },
        }
        self.current_idx = Some(idx);
        proof {
            self.func.lemma_wf();
            let bb = self.current_bb;
            let c2 = self.func.chain(bb);
            let p = old(self).slot_before();
            assert(c2[p] == idx);
            self.func.lemma_chain_at(bb, p);
        }
        idx
    }

    /// Stores `inst` and puts it at the end of the block `bb_id`. The cursor
    /// follows only if it was at the end of that block.
    pub fn insert_at_end_of(&mut self, inst: Inst, bb_id: BBId) -> (r: TacResult<InstId>)
        requires
            old(self).wf(),
            old(self).f().has_bb(bb_id) ==> old(self).f().insts().dom().len() < u32::MAX,
        ensures
            *final(final(self).func) == *final(old(self).func),
            final(self).wf(),
            old(self).anchored() ==> final(self).anchored(),
            final(self).f().blocks().dom() == old(self).f().blocks().dom(),
            match r {
                Ok(id) => {
                    &&& old(self).f().has_bb(bb_id)
                    &&& !old(self).f().has_inst(id)
                    &&& final(self).f()@ == old(self).f()@.with_new(
                        bb_id,
                        old(self).f().chain(bb_id).len() as int,
                        id,
                        inst,
                    )
                    &&& final(self).cursor() == (if old(self).cursor() == (Cursor {
                        bb: bb_id,
                        idx: old(self).f()@.tail(bb_id),
                    }) {
                        Cursor { bb: bb_id, idx: Some(id) }
                    } else {
                        old(self).cursor()
                    })
                    &&& final(self).f().insts().dom().len() == old(self).f().insts().dom().len() + 1
                },
                Err(e) => {
                    &&& e == Error::NoSuchBB(bb_id)
                    &&& !old(self).f().has_bb(bb_id)
                    &&& final(self).f() == old(self).f()
                    &&& final(self).cursor() == old(self).cursor()
                },
            },
    {
        let curr_bb = self.current_bb;
        let curr_idx = self.current_idx;
        proof {
            self.func.lemma_wf();
        }
        let same_pos = match self.set_current_bb(bb_id) {
            Ok(same_pos) => same_pos,
            Err(e) => {
                return Err(e);
            },
        };
        proof {
            self.func.lemma_ends(bb_id);
            if self.func.chain(bb_id).len() > 0 {
                self.func.lemma_chain_at(bb_id, self.func.chain(bb_id).len() - 1);
            }
        }
        let insert_pos = self.insert_after_current_place(inst);
        if !same_pos {
            proof {
                self.func.lemma_wf();
                if let Some(i) = curr_idx {
                    old(self).func.lemma_wf();
                    if old(self).func.has_bb(curr_bb) {
                        old(self).func.lemma_home_iff(i, curr_bb);
                        self.func.lemma_home_iff(i, curr_bb);
                        if curr_bb == bb_id {
                            let c = old(self).func.chain(bb_id);
                            let k = c.index_of(i);
                            c.index_of_first_ensures(i);
                            assert(c.insert(c.len() as int, insert_pos)[k] == i);
                        }
                    } else {
                        if !old(self).func.home(i).is_null() {
                            old(self).func.lemma_home(i);
                        }
                        assert(old(self).func.home(i).is_null());
                        assert(self.func.home(i).is_null()) by {
                            if !self.func.home(i).is_null() {
                                self.func.lemma_home(i);
                                let b2 = self.func.home(i);
                                old(self).func.lemma_home_iff(i, b2);
                                if b2 == bb_id {
                                    let c = old(self).func.chain(bb_id);
                                    let k = self.func.pos(i);
                                    assert(c.insert(c.len() as int, insert_pos)[k] == i);
                                    assert(c[k] == i);
                                }
                            }
                        }
                    }
                }
            }
            self.current_bb = curr_bb;
            self.current_idx = curr_idx;
        }
        Ok(insert_pos)
    }

    /// Stores `inst` and puts it at the start of the block `bb_id`. The
    /// cursor follows only if it was at the start of that block.
    pub fn insert_at_start_of(&mut self, inst: Inst, bb_id: BBId) -> (r: TacResult<InstId>)
        requires
            old(self).wf(),
            old(self).f().has_bb(bb_id) ==> old(self).f().insts().dom().len() < u32::MAX,
        ensures
            *final(final(self).func) == *final(old(self).func),
            final(self).wf(),
            old(self).anchored() ==> final(self).anchored(),
            final(self).f().blocks().dom() == old(self).f().blocks().dom(),
            match r {
                Ok(id) => {
                    &&& old(self).f().has_bb(bb_id)
                    &&& !old(self).f().has_inst(id)
                    &&& final(self).f()@ == old(self).f()@.with_new(bb_id, 0, id, inst)
                    &&& final(self).cursor() == (if old(self).cursor() == (Cursor {
                        bb: bb_id,
                        idx: old(self).f()@.head(bb_id),
                    }) {
                        Cursor { bb: bb_id, idx: Some(id) }
                    } else {
                        old(self).cursor()
                    })
                    &&& final(self).f().insts().dom().len() == old(self).f().insts().dom().len() + 1
                },
                Err(e) => {
                    &&& e == Error::NoSuchBB(bb_id)
                    &&& !old(self).f().has_bb(bb_id)
                    &&& final(self).f() == old(self).f()
                    &&& final(self).cursor() == old(self).cursor()
                },
            },
    {
        let curr_bb = self.current_bb;
        let curr_idx = self.current_idx;
        proof {
            self.func.lemma_wf();
        }
        let same_pos = match self.set_current_bb_start(bb_id) {
            Ok(same_pos) => same_pos,
            Err(e) => {
                return Err(e);
            },
        };
        proof {
            self.func.lemma_ends(bb_id);
            if self.func.chain(bb_id).len() > 0 {
                self.func.lemma_chain_at(bb_id, 0);
            }
        }
        let insert_pos = self.insert_before_current_place(inst);
        if !same_pos {
            proof {
                self.func.lemma_wf();
                if let Some(i) = curr_idx {
                    old(self).func.lemma_wf();
                    if old(self).func.has_bb(curr_bb) {
                        old(self).func.lemma_home_iff(i, curr_bb);
                        self.func.lemma_home_iff(i, curr_bb);
                        if curr_bb == bb_id {
                            let c = old(self).func.chain(bb_id);
                            let k = c.index_of(i);
                            c.index_of_first_ensures(i);
                            assert(c.insert(0, insert_pos)[k + 1] == i);
                        }
                    } else {
                        if !old(self).func.home(i).is_null() {
                            old(self).func.lemma_home(i);
                        }
                        assert(old(self).func.home(i).is_null());
                        assert(self.func.home(i).is_null()) by {
                            if !self.func.home(i).is_null() {
                                self.func.lemma_home(i);
                                let b2 = self.func.home(i);
                                old(self).func.lemma_home_iff(i, b2);
                                if b2 == bb_id {
                                    let c = old(self).func.chain(bb_id);
                                    let k = self.func.pos(i);
                                    assert(c.insert(0, insert_pos)[k] == i);
                                    assert(c[k - 1] == i);
                                }
                            }
                        }
                    }
                }
            }
            self.current_bb = curr_bb;
            self.current_idx = curr_idx;
        }
        Ok(insert_pos)
    }

    /// Stores a formal parameter of the function, the one at position
    /// `index`, at the start of the block `bb_id`.
    pub fn insert_param(&mut self, bb_id: BBId, ty: Ty, index: usize) -> (r: TacResult<InstId>)
        requires
            old(self).wf(),
            old(self).f().has_bb(bb_id) ==> old(self).f().insts().dom().len() < u32::MAX,
        ensures
            *final(final(self).func) == *final(old(self).func),
            final(self).wf(),
            old(self).anchored() ==> final(self).anchored(),
            final(self).f().blocks().dom() == old(self).f().blocks().dom(),
            match r {
                Ok(id) => {
                    &&& old(self).f().has_bb(bb_id)
                    &&& !old(self).f().has_inst(id)
                    &&& final(self).f()@ == old(self).f()@.with_new(
                        bb_id,
                        0,
                        id,
                        Inst { kind: InstKind::Param(index), ty },
                    )
                    &&& final(self).cursor() == (if old(self).cursor() == (Cursor {
                        bb: bb_id,
                        idx: old(self).f()@.head(bb_id),
                    }) {
                        Cursor { bb: bb_id, idx: Some(id) }
                    } else {
                        old(self).cursor()
                    })
                    &&& final(self).f().insts().dom().len() == old(self).f().insts().dom().len() + 1
                },
                Err(e) => {
                    &&& e == Error::NoSuchBB(bb_id)
                    &&& !old(self).f().has_bb(bb_id)
                    &&& final(self).f() == old(self).f()
                    &&& final(self).cursor() == old(self).cursor()
                },
            },
    {
        self.insert_at_start_of(Inst { kind: InstKind::Param(index), ty }, bb_id)
    }

    /// Adds `inst` behind the branches of the block `bb_id`. The target of
    /// `inst`, if it has one, must be a block of the function.
    pub fn add_branch(&mut self, inst: Branch, bb_id: BBId) -> (r: TacResult<()>)
        requires
            old(self).wf(),
            old(self).f().has_bb(bb_id) ==> (inst.target() matches Some(t) ==> old(self).f().has_bb(t)),
        ensures
            *final(final(self).func) == *final(old(self).func),
            final(self).wf(),
            final(self).cursor() == old(self).cursor(),
            old(self).anchored() ==> final(self).anchored(),
            final(self).f().insts() == old(self).f().insts(),
            final(self).f().blocks().dom() == old(self).f().blocks().dom(),
            old(self).f()@.targets_live() ==> final(self).f()@.targets_live(),
            match r {
                Ok(_) => old(self).f().has_bb(bb_id) && final(self).f()@ == old(self).f()@.with_branch(
                    bb_id,
                    inst,
                ),
                Err(e) => e == Error::NoSuchBB(bb_id) && !old(self).f().has_bb(bb_id) && final(self).f()
                    == old(self).f(),
            },
    {
        if !self.func.bb_exists(bb_id) {
            return Err(Error::NoSuchBB(bb_id));
        }
        let jumps = self.func.bb_jumps_mut(bb_id);
        jumps.push(inst);
        proof {
            assert(self.func.blocks().dom() =~= old(self).func.blocks().dom());
            old(self).func.lemma_wf();
            if old(self).f()@.targets_live() {
                lemma_branch_live(old(self).f()@, bb_id, inst);
            }
        }
        Ok(())
    }

    /// Lets `f` change the branches of the block `bb_id`. The successors of
    /// the block are those of the branches that `f` leaves, which must go to
    /// blocks of the function.
    pub fn modify_branch<F: FnOnce(&mut Vec<Branch>)>(&mut self, bb_id: BBId, f: F) -> (r: TacResult<()>)
        requires
            old(self).wf(),
            old(self).f().has_bb(bb_id) ==> forall|x: &mut Vec<Branch>|
                x@ == old(self).f()@.jumps[bb_id] ==> call_requires(f, (x,)),
            old(self).f().has_bb(bb_id) ==> forall|x: &mut Vec<Branch>, k: int|
                x@ == old(self).f()@.jumps[bb_id] && call_ensures(f, (x,), ()) && 0 <= k < final(x)@.len() ==> ((
                #[trigger] final(x)@[k]).target() matches Some(t) ==> old(self).f().has_bb(t)),
        ensures
            old(self).f()@.targets_live() ==> final(self).f()@.targets_live(),
            *final(final(self).func) == *final(old(self).func),
            final(self).wf(),
            final(self).cursor() == old(self).cursor(),
            old(self).anchored() ==> final(self).anchored(),
            final(self).f().insts() == old(self).f().insts(),
            final(self).f().blocks().dom() == old(self).f().blocks().dom(),
            match r {
                Ok(_) => old(self).f().has_bb(bb_id) && exists|x: &mut Vec<Branch>|
                    {
                        &&& x@ == old(self).f()@.jumps[bb_id]
                        &&& call_ensures(f, (x,), ())
                        &&& final(self).f()@ == (FuncView {
                            jumps: old(self).f()@.jumps.insert(bb_id, final(x)@),
                            ..old(self).f()@
                        })
                    },
                Err(e) => e == Error::NoSuchBB(bb_id) && !old(self).f().has_bb(bb_id) && final(self).f()
                    == old(self).f(),
            },
    {
        if !self.func.bb_exists(bb_id) {
            return Err(Error::NoSuchBB(bb_id));
        }
        let jumps = self.func.bb_jumps_mut(bb_id);
        let ghost before = jumps@;
        f(jumps);
        proof {
            assert(self.func.blocks().dom() =~= old(self).func.blocks().dom());
            old(self).func.lemma_wf();
            if old(self).f()@.targets_live() {
                lemma_jumps_live(old(self).f()@, bb_id, self.f()@.jumps[bb_id]);
            }
        }
        Ok(())
    }

    /// The blocks that the branches of `bb_id` go to, in the order of the
    /// branches; none if `bb_id` names no block.
    pub fn succ_of_bb(&self, bb_id: BBId) -> (r: SmallBBIdVec)
        ensures
            r@ == self.f()@.succ(bb_id),
    {
        let mut r = SmallBBIdVec::new();
        if !self.func.bb_exists(bb_id) {
            return r;
        }
        let jumps = &self.func.bb_get(bb_id).jumps;
        let mut j: usize = 0;
        while j < jumps.len()
            invariant
                j <= jumps@.len(),
                r@ == targets_of(jumps@.subrange(0, j as int)),
            decreases jumps.len() - j,
        {
            proof {
                assert(jumps@.subrange(0, j + 1).drop_last() =~= jumps@.subrange(0, j as int));
            }
            match jumps[j].target_iter() {
                Some(t) => {
                    r.push(t);
                },
                None => {},
            }
            j += 1;
        }
        proof {
            assert(jumps@.subrange(0, j as int) =~= jumps@);
        }
        r
    }

    /// The edges that leave `bb_id`, in the order of its branches; none if
    /// `bb_id` names no block.
    pub fn succ_edge_of_bb(&self, bb_id: BBId) -> (r: Vec<Edge>)
        ensures
            r@ == (if self.f()@.jumps.dom().contains(bb_id) {
                edges_of(bb_id, self.f()@.jumps[bb_id])
            } else {
                Seq::empty()
            }),
    {
        let mut r: Vec<Edge> = Vec::new();
        if !self.func.bb_exists(bb_id) {
            return r;
        }
        let jumps = &self.func.bb_get(bb_id).jumps;
        let mut j: usize = 0;
        while j < jumps.len()
            invariant
                j <= jumps@.len(),
                r@ == edges_of(bb_id, jumps@.subrange(0, j as int)),
            decreases jumps.len() - j,
        {
            proof {
                assert(jumps@.subrange(0, j + 1).drop_last() =~= jumps@.subrange(0, j as int));
            }
            match jumps[j].target_iter() {
                Some(t) => {
                    r.push(Edge { source: bb_id, branch: j, target: t });
                },
                None => {},
            }
            j += 1;
        }
        proof {
            assert(jumps@.subrange(0, j as int) =~= jumps@);
        }
        r
    }

    /// The edges that arrive at `bb_id`, in no particular order.
    pub fn pred_edge_of_bb(&self, bb_id: BBId) -> (r: Vec<Edge>)
        ensures
            r@.no_duplicates(),
            forall|e: Edge| r@.contains(e) <==> #[trigger] self.f()@.arrives(e, bb_id),
    {
        let ids = self.func.all_bb_unordered();
        let ghost v = self.f()@;
        let mut r: Vec<Edge> = Vec::new();
        let mut i: usize = 0;
        proof {
            assert(v.jumps.dom() =~= self.func.blocks().dom());
        }
        while i < ids.len()
            invariant
                i <= ids@.len(),
                v == self.f()@,
                v.jumps.dom() == self.func.blocks().dom(),
                ids@.no_duplicates(),
                ids@.to_set() == self.func.blocks().dom(),
                r@.no_duplicates(),
                forall|e: Edge|
                    #![trigger r@.contains(e)]
                    #![trigger v.arrives(e, bb_id)]
                    r@.contains(e) <==> v.arrives(e, bb_id) && ids@.subrange(0, i as int).contains(e.source),
            decreases ids.len() - i,
        {
            let src = ids[i];
            proof {
                assert(ids@.to_set().contains(src));
                assert(!ids@.subrange(0, i as int).contains(src));
            }
            let jumps = &self.func.bb_get(src).jumps;
            let ghost done = ids@.subrange(0, i as int);
            let mut j: usize = 0;
            while j < jumps.len()
                invariant
                    j <= jumps@.len(),
                    jumps@ == v.jumps[src],
                    v.jumps.dom().contains(src),
                    !done.contains(src),
                    r@.no_duplicates(),
                    forall|e: Edge|
                        #![trigger r@.contains(e)]
                        #![trigger v.arrives(e, bb_id)]
                        r@.contains(e) <==> v.arrives(e, bb_id) && (done.contains(e.source) || (e.source == src
                            && e.branch < j)),
                decreases jumps.len() - j,
            {
                let ghost before = r@;
                match jumps[j].target_iter() {
                    Some(t) => {
                        if t == bb_id {
                            let edge = Edge { source: src, branch: j, target: t };
                            assert(!before.contains(edge));
                            r.push(edge);
                            proof {
                                assert forall|e: Edge| r@.contains(e) <==> before.contains(e) || e == edge by {
                                    if r@.contains(e) {
                                        let k = choose|k: int| 0 <= k < r@.len() && r@[k] == e;
                                        if k < before.len() {
                                            assert(before[k] == e);
                                        }
                                    }
                                    if before.contains(e) {
                                        let k = choose|k: int| 0 <= k < before.len() && before[k] == e;
                                        assert(r@[k] == e);
                                    }
                                    if e == edge {
                                        assert(r@[r@.len() - 1] == e);
                                    }
                                }
                            }
                        }
                    },
                    None => {},
                }
                proof {
                    assert forall|e: Edge|
                        #![trigger r@.contains(e)]
                        #![trigger v.arrives(e, bb_id)]
                        r@.contains(e) <==> v.arrives(e, bb_id) && (done.contains(e.source) || (e.source == src
                            && e.branch < j + 1)) by {
                        if v.arrives(e, bb_id) && e.source == src && e.branch == j {
                            assert(jumps@[j as int].target() == Some(e.target));
                            assert(e == (Edge { source: src, branch: j, target: bb_id }));
                        }
                        assert(before.contains(e) <==> v.arrives(e, bb_id) && (done.contains(e.source) || (
                        e.source == src && e.branch < j)));
                    }
                }
                j += 1;
            }
            proof {
                let done2 = ids@.subrange(0, i + 1);
                assert forall|b: BBId| done2.contains(b) <==> done.contains(b) || b == src by {
                    if done2.contains(b) {
                        let k = choose|k: int| 0 <= k < done2.len() && done2[k] == b;
                        if k < i {
                            assert(done[k] == b);
                        }
                    }
                    if done.contains(b) {
                        let k = choose|k: int| 0 <= k < done.len() && done[k] == b;
                        assert(done2[k] == b);
                    }
                    if b == src {
                        assert(done2[i as int] == b);
                    }
                }
            }
            i += 1;
        }
        proof {
            assert(ids@.subrange(0, i as int) =~= ids@);
            assert forall|e: Edge| #[trigger] v.arrives(e, bb_id) implies ids@.contains(e.source) by {
                assert(ids@.to_set().contains(e.source));
            }
        }
        r
    }

    /// The blocks with a branch that goes to `bb_id`, in no particular
    /// order; a block occurs once for each such branch.
    pub fn pred_of_bb(&self, bb_id: BBId) -> (r: SmallBBIdVec)
        ensures
            forall|a: BBId| occurrences(r@, a) == self.f()@.edge_count(a, bb_id),
    {
        let ids = self.func.all_bb_unordered();
        let ghost v = self.f()@;
        let mut r = SmallBBIdVec::new();
        let mut i: usize = 0;
        proof {
            assert(v.jumps.dom() =~= self.func.blocks().dom());
        }
        while i < ids.len()
            invariant
                i <= ids@.len(),
                v == self.f()@,
                v.jumps.dom() == self.func.blocks().dom(),
                ids@.no_duplicates(),
                ids@.to_set() == self.func.blocks().dom(),
                forall|a: BBId|
                    occurrences(r@, a) == (if ids@.subrange(0, i as int).contains(a) {
                        v.edge_count(a, bb_id)
                    } else {
                        0
                    }),
            decreases ids.len() - i,
        {
            let src = ids[i];
            proof {
                assert(ids@.to_set().contains(src));
                assert(!ids@.subrange(0, i as int).contains(src));
            }
            let jumps = &self.func.bb_get(src).jumps;
            let ghost done = ids@.subrange(0, i as int);
            let mut j: usize = 0;
            while j < jumps.len()
                invariant
                    j <= jumps@.len(),
                    jumps@ == v.jumps[src],
                    v.jumps.dom().contains(src),
                    !done.contains(src),
                    occurrences(r@, src) == occurrences(targets_of(jumps@.subrange(0, j as int)), bb_id),
                    forall|a: BBId|
                        a != src ==> occurrences(r@, a) == (if done.contains(a) {
                            v.edge_count(a, bb_id)
                        } else {
                            0
                        }),
                decreases jumps.len() - j,
            {
                let ghost before = r@;
                proof {
                    assert(jumps@.subrange(0, j + 1).drop_last() =~= jumps@.subrange(0, j as int));
                }
                match jumps[j].target_iter() {
                    Some(t) => {
                        proof {
                            let ts = targets_of(jumps@.subrange(0, j as int));
                            assert(ts.push(t).drop_last() =~= ts);
                        }
                        if t == bb_id {
                            r.push(src);
                            proof {
                                assert forall|a: BBId| occurrences(r@, a) == occurrences(before, a) + (if src
                                    == a {
                                    1nat
                                } else {
                                    0nat
                                }) by {
                                    lemma_occurrences_push(before, src, a);
                                }
                            }
                        }
                    },
                    None => {},
                }
                j += 1;
            }
            proof {
                assert(jumps@.subrange(0, j as int) =~= jumps@);
                let done2 = ids@.subrange(0, i + 1);
                assert forall|b: BBId| done2.contains(b) <==> done.contains(b) || b == src by {
                    if done2.contains(b) {
                        let k = choose|k: int| 0 <= k < done2.len() && done2[k] == b;
                        if k < i {
                            assert(done[k] == b);
                        }
                    }
                    if done.contains(b) {
                        let k = choose|k: int| 0 <= k < done.len() && done[k] == b;
                        assert(done2[k] == b);
                    }
                    if b == src {
                        assert(done2[i as int] == b);
                    }
                }
            }
            i += 1;
        }
        proof {
            assert(ids@.subrange(0, i as int) =~= ids@);
            assert forall|a: BBId| occurrences(r@, a) == v.edge_count(a, bb_id) by {
                if !ids@.contains(a) {
                    assert(!ids@.to_set().contains(a));
                }
            }
        }
        r
    }
}

} // verus!
