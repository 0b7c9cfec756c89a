//! What holds of the phis when trivial phis are removed: no phi in a sealed
//! block is trivial, but for the phis whose operands are being collected
//! and those that are about to be tried.

use vstd::prelude::*;
use crate::builder::ssa::{trivial_with, BuilderView, Pending};
use crate::func::FuncView;
use crate::handle::{BBId, InstId};
use crate::inst::{Inst, InstKind};
use crate::phi::{has_value, renamed_entries};

verus! {

impl FuncView {
    /// True if `i` is a phi whose operands, the phi itself aside, all name
    /// one other instruction.
    pub open spec fn trivial(self, i: InstId) -> bool {
        match self.insts[i].kind {
            InstKind::Phi(ops) => exists|x: InstId| #[trigger] trivial_with(ops.entries(), i, x),
            _ => false,
        }
    }
}

impl BuilderView {
    /// No phi in a sealed block is trivial, but for the phis whose operands
    /// are being collected and the phis `suspects`.
    pub open spec fn lean(self, suspects: Set<InstId>) -> bool {
        forall|i: InstId, bb: BBId|
            #[trigger] self.obliged(i, bb) && self.sealed.contains(bb) && !suspects.contains(i)
                ==> !self.func.trivial(i)
    }

    /// The phis are tidy, and none in a sealed block is trivial.
    pub open spec fn neat(self) -> bool {
        self.tidy() && self.lean(Set::empty())
    }
}

/// With more suspects, a lean state is lean.
pub proof fn lemma_lean_more(a: BuilderView, fewer: Set<InstId>, more: Set<InstId>)
    requires
        a.lean(fewer),
        fewer.subset_of(more),
    ensures
        a.lean(more),
{
}

/// A phi that is not trivial, or that the state does not answer for, is no
/// suspect.
pub proof fn lemma_lean_cleared(a: BuilderView, suspects: Set<InstId>, phi: InstId)
    requires
        a.lean(suspects),
        !a.func.is_phi(phi) || a.filling.contains(phi) || !a.func.trivial(phi),
    ensures
        a.lean(suspects.remove(phi)),
{
}

/// A state with the function and the lists of a lean state is lean.
pub proof fn lemma_lean_same(a: BuilderView, b: BuilderView, suspects: Set<InstId>)
    requires
        a.lean(suspects),
        b.func == a.func,
        b.sealed == a.sealed,
        b.filling == a.filling,
    ensures
        b.lean(suspects),
{
    assert forall|i: InstId, bb: BBId|
        #[trigger] b.obliged(i, bb) && b.sealed.contains(bb) && !suspects.contains(i) implies !b.func.trivial(i) by {
        assert(a.obliged(i, bb));
    }
}

/// Renaming a result keeps the state lean, but for the phis that read the
/// result, and the instruction of the result itself.
pub proof fn lemma_lean_rename(
    a: BuilderView,
    b: BuilderView,
    from: InstId,
    to: InstId,
    suspects: Set<InstId>,
    users: Set<InstId>,
)
    requires
        a.lean(suspects),
        a.func.renamed_to(b.func, from, to),
        b.sealed == a.sealed,
        b.filling == a.filling,
        forall|u: InstId| a.func.phi_user(u, from) ==> users.contains(u),
    ensures
        b.lean(suspects.union(users).insert(from)),
{
    let wider = suspects.union(users).insert(from);
    assert forall|i: InstId, bb: BBId|
        #[trigger] b.obliged(i, bb) && b.sealed.contains(bb) && !wider.contains(i) implies !b.func.trivial(i) by {
        assert(a.func.insts[i].kind.renamed_to(&b.func.insts[i].kind, from, to));
        assert(a.obliged(i, bb));
        assert(!a.func.phi_user(i, from));
        match (a.func.insts[i].kind, b.func.insts[i].kind) {
            (InstKind::Phi(p), InstKind::Phi(q)) => {
                let e = p.entries();
                crate::inst::lemma_phi_uses(e, from);
                assert(!has_value(e, from));
                assert(renamed_entries(e, from, to) =~= e) by {
                    assert forall|k: int| 0 <= k < e.len() implies renamed_entries(e, from, to)[k] == e[k] by {
                        assert(e[k].1 != from);
                    }
                }
                if b.func.trivial(i) {
                    let x = choose|x: InstId| #[trigger] trivial_with(q.entries(), i, x);
                    assert(trivial_with(e, i, x));
                }
            },
            _ => {},
        }
    }
}

/// Replacing an instruction keeps the state lean if the phis that the
/// state answers for stay as they are.
pub proof fn lemma_lean_put(a: BuilderView, b: BuilderView, id: InstId, suspects: Set<InstId>)
    requires
        a.lean(suspects),
        b.func == (FuncView { insts: b.func.insts, ..a.func }),
        forall|i: InstId| i != id ==> b.func.insts[i] == a.func.insts[i],
        b.func.insts.dom() == a.func.insts.dom(),
        !b.func.is_phi(id) || b.filling.contains(id) || suspects.contains(id),
        b.sealed == a.sealed,
        b.filling == a.filling,
    ensures
        b.lean(suspects),
{
    assert forall|i: InstId, bb: BBId|
        #[trigger] b.obliged(i, bb) && b.sealed.contains(bb) && !suspects.contains(i) implies !b.func.trivial(i) by {
        assert(i != id);
        assert(a.obliged(i, bb));
    }
}

/// A new instruction in a block keeps the state lean if it is no phi or
/// its operands are being collected.
pub proof fn lemma_lean_new(
    a: BuilderView,
    b: BuilderView,
    bb: BBId,
    p: int,
    id: InstId,
    inst: Inst,
    suspects: Set<InstId>,
)
    requires
        a.lean(suspects),
        a.func.chains.dom().contains(bb),
        0 <= p <= a.func.chains[bb].len(),
        !a.func.insts.dom().contains(id),
        b.func == a.func.with_new(bb, p, id, inst),
        b.sealed == a.sealed,
        b.filling == a.filling || b.filling == a.filling.push(id),
        inst.kind is Phi ==> b.filling == a.filling.push(id),
    ensures
        b.lean(suspects),
{
    let c = a.func.chains[bb];
    let c2 = c.insert(p, id);
    if inst.kind is Phi {
        assert(b.filling[b.filling.len() - 1] == id);
    }
    assert forall|i: InstId| a.filling.contains(i) implies b.filling.contains(i) by {
        let k = choose|k: int| 0 <= k < a.filling.len() && a.filling[k] == i;
        assert(b.filling[k] == i);
    }
    assert forall|i: InstId, x: BBId|
        #[trigger] b.obliged(i, x) && b.sealed.contains(x) && !suspects.contains(i) implies !b.func.trivial(i) by {
        assert(i != id);
        if x == bb {
            let k = choose|k: int| 0 <= k < c2.len() && c2[k] == i;
            if k < p {
                assert(c[k] == i);
            } else {
                assert(c[k - 1] == i);
            }
        }
        assert(a.func.in_block(i, x));
        if a.filling.contains(i) {
            assert(b.filling.contains(i));
        }
        assert(a.obliged(i, x));
    }
}

/// When the collection of the operands of a phi ends, the state stays
/// lean, but for that phi.
pub proof fn lemma_lean_close(a: BuilderView, b: BuilderView, phi: InstId, suspects: Set<InstId>)
    requires
        a.lean(suspects),
        a.filling.len() > 0,
        a.filling.last() == phi,
        b.filling == a.filling.drop_last(),
        b.func == a.func,
        b.sealed == a.sealed,
    ensures
        b.lean(suspects.insert(phi)),
{
    assert forall|i: InstId| i != phi && a.filling.contains(i) implies b.filling.contains(i) by {
        let k = choose|k: int| 0 <= k < a.filling.len() && a.filling[k] == i;
        assert(b.filling[k] == i);
    }
    assert forall|i: InstId, bb: BBId|
        #[trigger] b.obliged(i, bb) && b.sealed.contains(bb) && !suspects.insert(phi).contains(i) implies !b.func.trivial(
        i,
    ) by {
        assert(a.obliged(i, bb));
    }
}

/// When the collection of the operands of a phi in an unsealed block ends,
/// the state stays lean.
pub proof fn lemma_lean_wait(a: BuilderView, b: BuilderView, p: Pending, suspects: Set<InstId>)
    requires
        a.lean(suspects),
        a.func.placed_once(),
        a.filling.len() > 0,
        a.filling.last() == p.phi,
        b.filling == a.filling.drop_last(),
        b.func == a.func,
        b.sealed == a.sealed,
        a.func.in_block(p.phi, p.bb),
        !a.sealed.contains(p.bb),
    ensures
        b.lean(suspects),
{
    assert forall|i: InstId| i != p.phi && a.filling.contains(i) implies b.filling.contains(i) by {
        let k = choose|k: int| 0 <= k < a.filling.len() && a.filling[k] == i;
        assert(b.filling[k] == i);
    }
    assert forall|i: InstId, bb: BBId|
        #[trigger] b.obliged(i, bb) && b.sealed.contains(bb) && !suspects.contains(i) implies !b.func.trivial(i) by {
        if i == p.phi {
            assert(a.func.in_block(i, bb) && a.func.in_block(i, p.bb));
        } else {
            assert(a.obliged(i, bb));
        }
    }
}

/// When a block is sealed and the phis that waited in it go under
/// collection, the state stays lean.
pub proof fn lemma_lean_seal(a: BuilderView, b: BuilderView, bb: BBId, todo: Seq<Pending>)
    requires
        a.lean(Set::empty()),
        a.tidy(),
        b.func == a.func,
        b.sealed == a.sealed.insert(bb),
        !a.sealed.contains(bb),
        forall|k: int| 0 <= k < a.pending.len() && (#[trigger] a.pending[k]).bb == bb ==> todo.contains(a.pending[k]),
        b.filling == a.filling + todo.map_values(|p: Pending| p.phi),
    ensures
        b.lean(Set::empty()),
{
    let phis = todo.map_values(|p: Pending| p.phi);
    let n = a.filling.len() as int;
    assert forall|i: InstId| a.filling.contains(i) implies b.filling.contains(i) by {
        let k = choose|k: int| 0 <= k < a.filling.len() && a.filling[k] == i;
        assert(b.filling[k] == i);
    }
    assert forall|i: InstId, x: BBId|
        #[trigger] b.obliged(i, x) && b.sealed.contains(x) implies !b.func.trivial(i) by {
        assert(a.obliged(i, x));
        if x == bb {
            assert(a.settled(i, x));
            let k = choose|k: int|
                0 <= k < a.pending.len() && (#[trigger] a.pending[k]).phi == i && a.pending[k].bb == bb;
            assert(todo.contains(a.pending[k]));
            let j = choose|j: int| 0 <= j < todo.len() && todo[j] == a.pending[k];
            assert(b.filling[n + j] == phis[j]);
        }
    }
}

/// A change of blocks and branches that leaves the instructions and their
/// chains as they are keeps the state lean.
pub proof fn lemma_lean_blocks(a: BuilderView, b: BuilderView, suspects: Set<InstId>)
    requires
        a.lean(suspects),
        b.func.insts == a.func.insts,
        forall|i: InstId, bb: BBId| b.func.in_block(i, bb) ==> #[trigger] a.func.in_block(i, bb),
        b.sealed == a.sealed,
        b.filling == a.filling,
    ensures
        b.lean(suspects),
{
    assert forall|i: InstId, bb: BBId|
        #[trigger] b.obliged(i, bb) && b.sealed.contains(bb) && !suspects.contains(i) implies !b.func.trivial(i) by {
        assert(a.func.in_block(i, bb));
        assert(a.obliged(i, bb));
    }
}

} // verus!
