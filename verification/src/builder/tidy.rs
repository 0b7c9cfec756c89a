//! What holds of the phis while SSA form is under construction: a phi in a
//! sealed block has one operand for each predecessor of the block, and a
//! phi in an unsealed block waits for the block to be sealed. The phis whose
//! operands are being collected are excepted.

use vstd::prelude::*;
use crate::builder::func_editor::occurrences;
use crate::builder::ssa::{BuilderView, Pending};
use crate::func::{FuncView, TacFunc};
use crate::handle::{BBId, InstId};
use crate::inst::{Inst, InstKind};

verus! {

impl FuncView {
    /// True if the instruction `i` stands in the chain of the block `bb`.
    pub open spec fn in_block(self, i: InstId, bb: BBId) -> bool {
        self.chains.dom().contains(bb) && self.chains[bb].contains(i)
    }

    /// The blocks from which the phi `i` has an operand; none if `i` is no
    /// phi.
    pub open spec fn phi_keys(self, i: InstId) -> Set<BBId> {
        match self.insts[i].kind {
            InstKind::Phi(ops) => ops@.dom(),
            _ => Set::empty(),
        }
    }

    /// The blocks with a branch that goes to `bb`.
    pub open spec fn preds(self, bb: BBId) -> Set<BBId> {
        Set::new(|a: BBId| self.edge_count(a, bb) > 0)
    }

    /// Every phi in a block has one operand for each predecessor of the
    /// block, and no other.
    pub open spec fn phis_complete(self) -> bool {
        forall|i: InstId, bb: BBId|
            #[trigger] self.in_block(i, bb) && self.is_phi(i) ==> self.phi_keys(i) == self.preds(bb)
    }

    /// Every instruction in a chain is live, and in one chain only.
    pub open spec fn placed_once(self) -> bool {
        &&& forall|i: InstId, a: BBId| #[trigger] self.in_block(i, a) ==> self.insts.dom().contains(i)
        &&& forall|i: InstId, a: BBId, b: BBId|
            #![trigger self.in_block(i, a), self.in_block(i, b)]
            self.in_block(i, a) && self.in_block(i, b) ==> a == b
    }

    /// True if `i` is a phi in this function and in `new`, with operands
    /// from the same blocks.
    pub open spec fn same_phi(self, new: FuncView, i: InstId) -> bool {
        self.is_phi(i) && new.is_phi(i) && new.phi_keys(i) == self.phi_keys(i)
    }

    /// True if `new` has the blocks, the chains and the edges of this
    /// function, and its phis are phis of this function with operands from
    /// the same blocks.
    pub open spec fn same_shape(self, new: FuncView) -> bool {
        &&& new.chains == self.chains
        &&& new.insts.dom() == self.insts.dom()
        &&& forall|bb: BBId| #[trigger] new.succ(bb) == self.succ(bb)
        &&& forall|i: InstId| new.is_phi(i) ==> #[trigger] self.same_phi(new, i)
    }
}

/// In a well-formed function every instruction in a chain is live, and in
/// one chain only.
pub proof fn lemma_placed_once(f: &TacFunc)
    requires
        f.wf(),
    ensures
        f@.placed_once(),
{
    f.lemma_wf();
    let v = f@;
    assert forall|i: InstId, a: BBId| #[trigger] v.in_block(i, a) implies v.insts.dom().contains(i) by {
        let c = f.chain(a);
        let k = choose|k: int| 0 <= k < c.len() && c[k] == i;
        f.lemma_chain_at(a, k);
    }
    assert forall|i: InstId, a: BBId, b: BBId|
        #![trigger v.in_block(i, a), v.in_block(i, b)]
        v.in_block(i, a) && v.in_block(i, b) implies a == b by {
        let c = f.chain(a);
        let k = choose|k: int| 0 <= k < c.len() && c[k] == i;
        f.lemma_chain_at(a, k);
        f.lemma_home_iff(i, a);
        f.lemma_home_iff(i, b);
    }
}

/// An element occurs in a sequence exactly if it is counted in it.
pub proof fn lemma_occurrences_contains(s: Seq<BBId>, a: BBId)
    ensures
        occurrences(s, a) > 0 <==> s.contains(a),
    decreases s.len(),
{
    if s.len() > 0 {
        lemma_occurrences_contains(s.drop_last(), a);
        if s.contains(a) {
            let k = choose|k: int| 0 <= k < s.len() && s[k] == a;
            if k < s.len() - 1 {
                assert(s.drop_last()[k] == a);
            }
        }
        if s.drop_last().contains(a) {
            let k = choose|k: int| 0 <= k < s.drop_last().len() && s.drop_last()[k] == a;
            assert(s[k] == a);
        }
        if s.last() == a {
            assert(s[s.len() - 1] == a);
        }
    }
}

/// Functions with the same successors have the same predecessors.
pub proof fn lemma_preds_same(a: FuncView, b: FuncView, bb: BBId)
    requires
        forall|x: BBId| #[trigger] b.succ(x) == a.succ(x),
    ensures
        b.preds(bb) == a.preds(bb),
{
    assert forall|x: BBId| b.preds(bb).contains(x) <==> a.preds(bb).contains(x) by {
        assert(b.succ(x) == a.succ(x));
    }
    assert(b.preds(bb) =~= a.preds(bb));
}

impl BuilderView {
    /// True if a phi `i` waits in `bb`.
    pub open spec fn waits(self, i: InstId, bb: BBId) -> bool {
        exists|k: int| 0 <= k < self.pending.len() && (#[trigger] self.pending[k]).phi == i && self.pending[k].bb == bb
    }

    /// True if `i` is a phi in the chain of `bb` whose operands are not
    /// being collected.
    pub open spec fn obliged(self, i: InstId, bb: BBId) -> bool {
        self.func.is_phi(i) && self.func.in_block(i, bb) && !self.filling.contains(i)
    }

    /// What is owed of a phi `i` in the chain of `bb`: in a sealed block,
    /// one operand for each predecessor; in an unsealed block, that it
    /// waits.
    pub open spec fn settled(self, i: InstId, bb: BBId) -> bool {
        if self.sealed.contains(bb) {
            self.func.phi_keys(i) == self.func.preds(bb)
        } else {
            self.waits(i, bb)
        }
    }

    /// The phi that waits at position `k` is a phi without operands in the
    /// chain of its block, the block is unsealed, and the operands of the
    /// phi are not being collected.
    pub open spec fn waiting_ok(self, k: int) -> bool {
        let p = self.pending[k];
        &&& self.func.is_phi(p.phi)
        &&& self.func.in_block(p.phi, p.bb)
        &&& self.func.phi_keys(p.phi) == Set::<BBId>::empty()
        &&& !self.sealed.contains(p.bb)
        &&& !self.filling.contains(p.phi)
    }

    /// Every phi in a sealed block has one operand for each predecessor of
    /// the block, and every phi in an unsealed block waits; but for the
    /// phis whose operands are being collected, which are live.
    pub open spec fn tidy(self) -> bool {
        &&& forall|i: InstId, bb: BBId| #[trigger] self.obliged(i, bb) ==> self.settled(i, bb)
        &&& forall|k: int| 0 <= k < self.pending.len() ==> #[trigger] self.waiting_ok(k)
        &&& forall|k: int| 0 <= k < self.filling.len() ==> self.func.insts.dom().contains(#[trigger] self.filling[k])
    }

    /// True if `new` keeps what the phis under collection in this state
    /// have so far: they are phis in the same blocks, with operands from
    /// the same blocks; but for the phi `skip`.
    pub open spec fn holds_open(self, new: BuilderView, skip: Option<InstId>) -> bool {
        &&& forall|i: InstId, bb: BBId| self.func.in_block(i, bb) ==> #[trigger] new.func.in_block(i, bb)
        &&& forall|i: InstId|
            self.filling.contains(i) && Some(i) != skip && self.func.is_phi(i) ==> #[trigger] self.func.same_phi(
                new.func,
                i,
            )
    }
}

impl BuilderView {
    /// The phis are tidy, no operands are being collected, and only live
    /// blocks are sealed.
    pub open spec fn at_rest(self) -> bool {
        &&& self.neat()
        &&& self.filling.len() == 0
        &&& forall|b: BBId| self.sealed.contains(b) ==> #[trigger] self.func.chains.dom().contains(b)
    }
}

/// At rest, with every block sealed, every phi has one operand for each
/// predecessor of its block.
pub proof fn lemma_rest_complete(a: BuilderView)
    requires
        a.at_rest(),
        a.func.placed_once(),
        forall|b: BBId| a.func.chains.dom().contains(b) ==> a.sealed.contains(b),
    ensures
        a.func.phis_complete(),
        forall|i: InstId, bb: BBId| #[trigger] a.func.in_block(i, bb) ==> !a.func.trivial(i),
{
    assert forall|i: InstId, bb: BBId| #[trigger] a.func.in_block(i, bb) implies !a.func.trivial(i) by {
        if a.func.insts[i].kind is Phi {
            assert(a.func.chains.dom().contains(bb));
            assert(a.sealed.contains(bb));
            if a.func.insts.dom().contains(i) {
                assert(a.obliged(i, bb));
            }
        }
    }
    assert forall|i: InstId, bb: BBId| #[trigger] a.func.in_block(i, bb) && a.func.is_phi(i) implies a.func.phi_keys(
        i,
    ) == a.func.preds(bb) by {
        assert(a.obliged(i, bb));
        assert(a.settled(i, bb));
    }
}

/// A tidy state that has the blocks of a state at rest and has the same
/// blocks sealed, or one live block more, is at rest.
pub proof fn lemma_at_rest(a: BuilderView, b: BuilderView, sealed: Option<BBId>)
    requires
        a.at_rest(),
        b.neat(),
        b.filling == a.filling,
        a.func.chains.dom().subset_of(b.func.chains.dom()),
        match sealed {
            Some(x) => b.sealed == a.sealed.insert(x) && b.func.chains.dom().contains(x),
            None => b.sealed == a.sealed,
        },
    ensures
        b.at_rest(),
{
    assert forall|x: BBId| b.sealed.contains(x) implies #[trigger] b.func.chains.dom().contains(x) by {
        if a.sealed.contains(x) {
            assert(a.func.chains.dom().contains(x));
        }
    }
}

/// Holding is reflexive and transitive.
pub proof fn lemma_holds_open(a: BuilderView, b: BuilderView, c: BuilderView, skip: Option<InstId>)
    requires
        a.holds_open(b, skip),
        b.holds_open(c, skip),
        b.filling == a.filling,
    ensures
        a.holds_open(a, skip),
        a.holds_open(c, skip),
{
    assert forall|i: InstId, bb: BBId| a.func.in_block(i, bb) implies #[trigger] c.func.in_block(i, bb) by {
        assert(b.func.in_block(i, bb));
    }
    assert forall|i: InstId|
        a.filling.contains(i) && Some(i) != skip && a.func.is_phi(i) implies #[trigger] a.func.same_phi(
        c.func,
        i,
    ) by {
        assert(a.func.same_phi(b.func, i));
        assert(b.func.same_phi(c.func, i));
    }
    assert forall|i: InstId|
        a.filling.contains(i) && Some(i) != skip && a.func.is_phi(i) implies #[trigger] a.func.same_phi(
        a.func,
        i,
    ) by {
    }
}

/// A change that leaves the shape of the function and the lists of the
/// builder as they are keeps the phis tidy. The change may remove one phi
/// that has operands and is not under collection.
pub proof fn lemma_tidy_same(a: BuilderView, b: BuilderView, removed: Option<InstId>)
    requires
        a.func.same_shape(b.func),
        b.sealed == a.sealed,
        b.filling == a.filling,
        b.pending == a.pending,
        forall|i: InstId| a.func.is_phi(i) && Some(i) != removed ==> #[trigger] b.func.is_phi(i),
        removed matches Some(x) ==> !a.filling.contains(x) && a.func.phi_keys(x) != Set::<BBId>::empty(),
    ensures
        a.tidy() ==> b.tidy(),
        a.holds_open(b, None),
{
    if a.tidy() {
        assert forall|i: InstId, bb: BBId| #[trigger] b.obliged(i, bb) implies b.settled(i, bb) by {
            assert(b.func.is_phi(i));
            assert(a.func.same_phi(b.func, i));
            assert(a.obliged(i, bb));
            lemma_preds_same(a.func, b.func, bb);
            if !a.sealed.contains(bb) {
                let k = choose|k: int|
                    0 <= k < a.pending.len() && (#[trigger] a.pending[k]).phi == i && a.pending[k].bb == bb;
                assert(b.pending[k].phi == i);
            }
        }
        assert forall|k: int| 0 <= k < b.pending.len() implies #[trigger] b.waiting_ok(k) by {
            assert(a.waiting_ok(k));
            assert(b.func.is_phi(a.pending[k].phi));
            assert(a.func.same_phi(b.func, a.pending[k].phi));
        }
    }
    assert forall|i: InstId| a.filling.contains(i) && a.func.is_phi(i) implies #[trigger] a.func.same_phi(
        b.func,
        i,
    ) by {
        assert(b.func.is_phi(i));
    }
}

/// What holds the phis under collection but one holds them but another.
pub proof fn lemma_holds_weaker(a: BuilderView, b: BuilderView, skip: InstId)
    requires
        a.holds_open(b, None),
    ensures
        a.holds_open(b, Some(skip)),
{
}

/// A change to one instruction holds the phis under collection, but for
/// that instruction.
pub proof fn lemma_operand_holds(a: BuilderView, b: BuilderView, phi: InstId)
    requires
        b.func == (FuncView { insts: b.func.insts, ..a.func }),
        b.func.insts.dom() == a.func.insts.dom(),
        forall|i: InstId| i != phi ==> b.func.insts[i] == a.func.insts[i],
    ensures
        a.holds_open(b, Some(phi)),
{
    assert forall|i: InstId|
        a.filling.contains(i) && Some(i) != Some(phi) && a.func.is_phi(i) implies #[trigger] a.func.same_phi(
        b.func,
        i,
    ) by {
        assert(b.func.insts[i] == a.func.insts[i]);
    }
}

/// When a block is sealed and the phis that waited in it go under
/// collection, the phis stay tidy.
pub proof fn lemma_tidy_seal(a: BuilderView, b: BuilderView, bb: BBId, todo: Seq<Pending>)
    requires
        a.tidy(),
        a.func.placed_once(),
        b.func == a.func,
        b.sealed == a.sealed.insert(bb),
        forall|j: int| 0 <= j < todo.len() ==> a.pending.contains(#[trigger] todo[j]) && todo[j].bb == bb,
        forall|j: int| 0 <= j < b.pending.len() ==> a.pending.contains(#[trigger] b.pending[j]) && b.pending[j].bb != bb,
        forall|k: int|
            0 <= k < a.pending.len() ==> (if (#[trigger] a.pending[k]).bb == bb {
                todo.contains(a.pending[k])
            } else {
                b.pending.contains(a.pending[k])
            }),
        b.filling == a.filling + todo.map_values(|p: Pending| p.phi),
    ensures
        b.tidy(),
        forall|j: int|
            0 <= j < todo.len() ==> b.func.is_phi((#[trigger] todo[j]).phi) && b.func.in_block(todo[j].phi, bb)
                && b.func.phi_keys(todo[j].phi) == Set::<BBId>::empty(),
{
    let phis = todo.map_values(|p: Pending| p.phi);
    let n = a.filling.len() as int;
    assert forall|j: int| 0 <= j < todo.len() implies b.filling.contains((#[trigger] todo[j]).phi) by {
        assert(b.filling[n + j] == phis[j]);
    }
    assert forall|j: int| 0 <= j < todo.len() implies b.func.is_phi((#[trigger] todo[j]).phi) && b.func.in_block(
        todo[j].phi,
        bb,
    ) && b.func.phi_keys(todo[j].phi) == Set::<BBId>::empty() by {
        let k = choose|k: int| 0 <= k < a.pending.len() && a.pending[k] == todo[j];
        assert(a.waiting_ok(k));
    }
    assert forall|i: InstId| a.filling.contains(i) implies b.filling.contains(i) by {
        let k = choose|k: int| 0 <= k < a.filling.len() && a.filling[k] == i;
        assert(b.filling[k] == i);
    }
    assert forall|i: InstId, x: BBId| #[trigger] b.obliged(i, x) implies b.settled(i, x) by {
        assert(a.obliged(i, x));
        assert(a.settled(i, x));
        if !a.sealed.contains(x) {
            let k = choose|k: int|
                0 <= k < a.pending.len() && (#[trigger] a.pending[k]).phi == i && a.pending[k].bb == x;
            if x == bb {
                assert(todo.contains(a.pending[k]));
                let j = choose|j: int| 0 <= j < todo.len() && todo[j] == a.pending[k];
                assert(b.filling.contains(todo[j].phi));
            } else {
                assert(b.pending.contains(a.pending[k]));
                let j = choose|j: int| 0 <= j < b.pending.len() && b.pending[j] == a.pending[k];
                assert(b.pending[j].phi == i);
            }
        }
    }
    assert forall|k: int| 0 <= k < b.pending.len() implies #[trigger] b.waiting_ok(k) by {
        let p = b.pending[k];
        let x = choose|x: int| 0 <= x < a.pending.len() && a.pending[x] == p;
        assert(a.waiting_ok(x));
        if b.filling.contains(p.phi) {
            let y = choose|y: int| 0 <= y < b.filling.len() && b.filling[y] == p.phi;
            if y < n {
                assert(a.filling[y] == p.phi);
            } else {
                assert(phis[y - n] == p.phi);
                let t = todo[y - n];
                assert(b.func.in_block(t.phi, bb));
                assert(a.func.in_block(p.phi, p.bb) && a.func.in_block(p.phi, bb));
            }
        }
    }
    assert forall|k: int| 0 <= k < b.filling.len() implies b.func.insts.dom().contains(#[trigger] b.filling[k]) by {
        if k < n {
            assert(b.filling[k] == a.filling[k]);
        } else {
            assert(b.filling[k] == phis[k - n]);
            assert(b.func.is_phi(todo[k - n].phi));
        }
    }
}

/// A new instruction at the start of a block keeps the phis tidy if it is
/// no phi or its operands are being collected.
pub proof fn lemma_tidy_new(a: BuilderView, b: BuilderView, bb: BBId, id: InstId, inst: Inst)
    requires
        a.tidy(),
        a.func.placed_once(),
        a.func.chains.dom().contains(bb),
        !a.func.insts.dom().contains(id),
        b.func == a.func.with_new(bb, 0, id, inst),
        b.sealed == a.sealed,
        b.pending == a.pending,
        b.filling == a.filling || b.filling == a.filling.push(id),
        inst.kind is Phi ==> b.filling == a.filling.push(id),
    ensures
        b.tidy(),
        a.holds_open(b, None),
        b.func.in_block(id, bb),
{
    lemma_tidy_put(a, b, bb, 0, id, inst);
}

/// A new instruction in a block keeps the phis tidy if it is no phi or its
/// operands are being collected.
pub proof fn lemma_tidy_put(a: BuilderView, b: BuilderView, bb: BBId, p: int, id: InstId, inst: Inst)
    requires
        a.tidy(),
        a.func.placed_once(),
        a.func.chains.dom().contains(bb),
        0 <= p <= a.func.chains[bb].len(),
        !a.func.insts.dom().contains(id),
        b.func == a.func.with_new(bb, p, id, inst),
        b.sealed == a.sealed,
        b.pending == a.pending,
        b.filling == a.filling || b.filling == a.filling.push(id),
        inst.kind is Phi ==> b.filling == a.filling.push(id),
    ensures
        b.tidy(),
        a.holds_open(b, None),
        b.func.in_block(id, bb),
{
    let c = a.func.chains[bb];
    let c2 = c.insert(p, id);
    assert(c2[p] == id);
    assert forall|i: InstId, x: BBId| a.func.in_block(i, x) implies #[trigger] b.func.in_block(i, x) by {
        if x == bb {
            let k = choose|k: int| 0 <= k < c.len() && c[k] == i;
            if k < p {
                assert(c2[k] == i);
            } else {
                assert(c2[k + 1] == i);
            }
        }
    }
    assert forall|i: InstId, x: BBId| i != id && b.func.in_block(i, x) implies #[trigger] a.func.in_block(i, x) by {
        if x == bb {
            let k = choose|k: int| 0 <= k < c2.len() && c2[k] == i;
            if k < p {
                assert(c[k] == i);
            } else {
                assert(c[k - 1] == i);
            }
        }
    }
    assert forall|x: BBId| #[trigger] b.func.succ(x) == a.func.succ(x) by {
    }
    assert forall|i: InstId| a.filling.contains(i) implies b.filling.contains(i) by {
        let k = choose|k: int| 0 <= k < a.filling.len() && a.filling[k] == i;
        assert(b.filling[k] == i);
    }
    assert forall|i: InstId| i != id && b.filling.contains(i) implies a.filling.contains(i) by {
        let k = choose|k: int| 0 <= k < b.filling.len() && b.filling[k] == i;
        assert(a.filling[k] == i);
    }
    if inst.kind is Phi {
        assert(b.filling[b.filling.len() - 1] == id);
    }
    assert forall|i: InstId, x: BBId| #[trigger] b.obliged(i, x) implies b.settled(i, x) by {
        assert(i != id);
        assert(a.func.in_block(i, x));
        assert(a.obliged(i, x));
        lemma_preds_same(a.func, b.func, x);
        if !a.sealed.contains(x) {
            let k = choose|k: int|
                0 <= k < a.pending.len() && (#[trigger] a.pending[k]).phi == i && a.pending[k].bb == x;
            assert(b.pending[k].phi == i);
        }
    }
    assert forall|k: int| 0 <= k < b.pending.len() implies #[trigger] b.waiting_ok(k) by {
        assert(a.waiting_ok(k));
        let p = a.pending[k];
        assert(p.phi != id);
        assert(a.func.in_block(p.phi, p.bb));
    }
    assert forall|k: int| 0 <= k < b.filling.len() implies b.func.insts.dom().contains(#[trigger] b.filling[k]) by {
        if k < a.filling.len() {
            assert(b.filling[k] == a.filling[k]);
        }
    }
}

/// A change to a phi whose operands are being collected keeps the phis
/// tidy.
pub proof fn lemma_tidy_operand(a: BuilderView, b: BuilderView, phi: InstId)
    requires
        a.tidy(),
        a.filling.contains(phi),
        b.func == (FuncView { insts: b.func.insts, ..a.func }),
        b.func.insts.dom() == a.func.insts.dom(),
        forall|i: InstId| i != phi ==> b.func.insts[i] == a.func.insts[i],
        b.sealed == a.sealed,
        b.pending == a.pending,
        b.filling == a.filling,
    ensures
        b.tidy(),
        a.holds_open(b, Some(phi)),
{
    assert forall|x: BBId| #[trigger] b.func.succ(x) == a.func.succ(x) by {
    }
    assert forall|i: InstId, x: BBId| #[trigger] b.obliged(i, x) implies b.settled(i, x) by {
        assert(i != phi);
        assert(a.obliged(i, x));
        lemma_preds_same(a.func, b.func, x);
        if !a.sealed.contains(x) {
            let k = choose|k: int|
                0 <= k < a.pending.len() && (#[trigger] a.pending[k]).phi == i && a.pending[k].bb == x;
            assert(b.pending[k].phi == i);
        }
    }
    assert forall|k: int| 0 <= k < b.pending.len() implies #[trigger] b.waiting_ok(k) by {
        assert(a.waiting_ok(k));
    }
}

/// When the collection of the operands of a phi ends, the phis stay tidy if
/// the phi is settled.
pub proof fn lemma_tidy_close(a: BuilderView, b: BuilderView, phi: InstId)
    requires
        a.tidy(),
        a.filling.len() > 0,
        a.filling.last() == phi,
        b.filling == a.filling.drop_last(),
        b.func == a.func,
        b.sealed == a.sealed,
        b.pending == a.pending,
        forall|x: BBId| #[trigger] b.obliged(phi, x) ==> b.settled(phi, x),
    ensures
        b.tidy(),
{
    assert forall|i: InstId| b.filling.contains(i) implies a.filling.contains(i) by {
        let k = choose|k: int| 0 <= k < b.filling.len() && b.filling[k] == i;
        assert(a.filling[k] == i);
    }
    assert forall|i: InstId| i != phi && a.filling.contains(i) implies b.filling.contains(i) by {
        let k = choose|k: int| 0 <= k < a.filling.len() && a.filling[k] == i;
        assert(b.filling[k] == i);
    }
    assert forall|i: InstId, x: BBId| #[trigger] b.obliged(i, x) implies b.settled(i, x) by {
        if i != phi {
            assert(a.obliged(i, x));
            assert(a.settled(i, x));
            if !a.sealed.contains(x) {
                let k = choose|k: int|
                    0 <= k < a.pending.len() && (#[trigger] a.pending[k]).phi == i && a.pending[k].bb == x;
                assert(b.pending[k].phi == i);
            }
        }
    }
    assert forall|k: int| 0 <= k < b.pending.len() implies #[trigger] b.waiting_ok(k) by {
        assert(a.waiting_ok(k));
    }
    assert forall|k: int| 0 <= k < b.filling.len() implies b.func.insts.dom().contains(#[trigger] b.filling[k]) by {
        assert(b.filling[k] == a.filling[k]);
    }
}

/// A phi without operands in an unsealed block, whose operands are not
/// collected any more, may wait.
pub proof fn lemma_tidy_wait(a: BuilderView, b: BuilderView, p: Pending)
    requires
        a.tidy(),
        a.func.placed_once(),
        a.filling.len() > 0,
        a.filling.last() == p.phi,
        !a.filling.drop_last().contains(p.phi),
        b.filling == a.filling.drop_last(),
        b.pending == a.pending.push(p),
        b.func == a.func,
        b.sealed == a.sealed,
        a.func.is_phi(p.phi),
        a.func.in_block(p.phi, p.bb),
        a.func.phi_keys(p.phi) == Set::<BBId>::empty(),
        !a.sealed.contains(p.bb),
    ensures
        b.tidy(),
{
    let n = a.pending.len() as int;
    assert(b.pending[n] == p);
    assert forall|i: InstId| b.filling.contains(i) implies a.filling.contains(i) by {
        let k = choose|k: int| 0 <= k < b.filling.len() && b.filling[k] == i;
        assert(a.filling[k] == i);
    }
    assert forall|i: InstId| i != p.phi && a.filling.contains(i) implies b.filling.contains(i) by {
        let k = choose|k: int| 0 <= k < a.filling.len() && a.filling[k] == i;
        assert(b.filling[k] == i);
    }
    assert forall|i: InstId, x: BBId| #[trigger] b.obliged(i, x) implies b.settled(i, x) by {
        if i != p.phi {
            assert(a.obliged(i, x));
            assert(a.settled(i, x));
            if !a.sealed.contains(x) {
                let k = choose|k: int|
                    0 <= k < a.pending.len() && (#[trigger] a.pending[k]).phi == i && a.pending[k].bb == x;
                assert(b.pending[k].phi == i);
            }
        } else {
            assert(a.func.in_block(i, x) && a.func.in_block(i, p.bb));
            assert(x == p.bb);
            assert(b.pending[n].phi == i && b.pending[n].bb == x);
        }
    }
    assert forall|k: int| 0 <= k < b.pending.len() implies #[trigger] b.waiting_ok(k) by {
        if k < n {
            assert(a.waiting_ok(k));
            assert(b.pending[k] == a.pending[k]);
        }
    }
    assert forall|k: int| 0 <= k < b.filling.len() implies b.func.insts.dom().contains(#[trigger] b.filling[k]) by {
        assert(b.filling[k] == a.filling[k]);
    }
}

/// A new block without instructions and branches keeps the phis tidy.
pub proof fn lemma_tidy_block(a: BuilderView, b: BuilderView, id: BBId)
    requires
        a.tidy(),
        !a.func.chains.dom().contains(id),
        b.func.insts == a.func.insts,
        b.func.chains == a.func.chains.insert(id, Seq::empty()),
        b.func.jumps == a.func.jumps.insert(id, Seq::empty()),
        a.func.jumps.dom() == a.func.chains.dom(),
        b.sealed == a.sealed,
        b.pending == a.pending,
        b.filling == a.filling,
    ensures
        b.tidy(),
{
    assert forall|x: BBId| #[trigger] b.func.succ(x) == a.func.succ(x) by {
    }
    assert forall|i: InstId, x: BBId| #[trigger] b.obliged(i, x) implies b.settled(i, x) by {
        assert(x != id);
        assert(a.obliged(i, x));
        lemma_preds_same(a.func, b.func, x);
        if !a.sealed.contains(x) {
            let k = choose|k: int|
                0 <= k < a.pending.len() && (#[trigger] a.pending[k]).phi == i && a.pending[k].bb == x;
            assert(b.pending[k].phi == i);
        }
    }
    assert forall|k: int| 0 <= k < b.pending.len() implies #[trigger] b.waiting_ok(k) by {
        assert(a.waiting_ok(k));
    }
}

/// A new branch keeps the phis tidy if it goes to no block or to an
/// unsealed one.
pub proof fn lemma_tidy_branch(a: BuilderView, b: BuilderView, bb: BBId, branch: crate::inst::Branch)
    requires
        a.tidy(),
        a.func.jumps.dom().contains(bb),
        b.func == a.func.with_branch(bb, branch),
        branch.target() matches Some(t) ==> !a.sealed.contains(t),
        b.sealed == a.sealed,
        b.pending == a.pending,
        b.filling == a.filling,
    ensures
        b.tidy(),
{
    let js = a.func.jumps[bb];
    assert(js.push(branch).drop_last() =~= js);
    assert forall|x: BBId, y: BBId| branch.target() != Some(y) implies #[trigger] b.func.edge_count(x, y)
        == a.func.edge_count(x, y) by {
        if x == bb {
            match branch.target() {
                Some(t) => {
                    crate::builder::func_editor::lemma_occurrences_push(a.func.succ(bb), t, y);
                },
                None => {},
            }
        }
    }
    assert forall|i: InstId, x: BBId| #[trigger] b.obliged(i, x) implies b.settled(i, x) by {
        assert(a.obliged(i, x));
        if a.sealed.contains(x) {
            assert(b.func.preds(x) =~= a.func.preds(x)) by {
                assert forall|y: BBId| b.func.preds(x).contains(y) <==> a.func.preds(x).contains(y) by {
                    assert(b.func.edge_count(y, x) == a.func.edge_count(y, x));
                }
            }
        } else {
            let k = choose|k: int|
                0 <= k < a.pending.len() && (#[trigger] a.pending[k]).phi == i && a.pending[k].bb == x;
            assert(b.pending[k].phi == i);
        }
    }
    assert forall|k: int| 0 <= k < b.pending.len() implies #[trigger] b.waiting_ok(k) by {
        assert(a.waiting_ok(k));
    }
}

} // verus!
