//! Rewriting the operands of a whole function.

use vstd::prelude::*;
use crate::func::{FuncView, TacFunc};
use crate::handle::{BBId, InstId};
use crate::inst::{lemma_renamed_uses, targets_of, Branch, Inst, InstKind};

verus! {

/// `jumps` with every reference to `from` turned into `to`.
pub open spec fn renamed_jumps(jumps: Seq<Branch>, from: InstId, to: InstId) -> Seq<Branch> {
    Seq::new(jumps.len(), |k: int| jumps[k].renamed(from, to))
}

/// Turning one value into another changes no target.
pub proof fn lemma_renamed_targets(jumps: Seq<Branch>, from: InstId, to: InstId)
    ensures
        targets_of(renamed_jumps(jumps, from, to)) == targets_of(jumps),
    decreases jumps.len(),
{
    let r = renamed_jumps(jumps, from, to);
    if jumps.len() > 0 {
        lemma_renamed_targets(jumps.drop_last(), from, to);
        assert(r.drop_last() =~= renamed_jumps(jumps.drop_last(), from, to));
        assert(r.last().target() == jumps.last().target());
    }
}

impl FuncView {
    /// True if `i` names a phi instruction.
    pub open spec fn is_phi(self, i: InstId) -> bool {
        self.insts.dom().contains(i) && self.insts[i].kind is Phi
    }

    /// The phi instructions of this function.
    pub open spec fn phis(self) -> Set<InstId> {
        self.insts.dom().filter(|i: InstId| self.insts[i].kind is Phi)
    }

    /// True if `i` names an instruction that was not removed.
    pub open spec fn good(self, i: InstId) -> bool {
        self.insts.dom().contains(i) && !(self.insts[i].kind is Dead)
    }

    /// True if `i` names a phi instruction other than `from` that reads the
    /// result of `from`.
    pub open spec fn phi_user(self, i: InstId, from: InstId) -> bool {
        self.is_phi(i) && i != from && self.insts[i].kind.uses(from)
    }

    /// True if `new` is this function with every reference to the result of
    /// `from`, in instructions and in branches, turned into a reference to
    /// the result of `to`.
    pub open spec fn renamed_to(self, new: FuncView, from: InstId, to: InstId) -> bool {
        &&& new.insts.dom() == self.insts.dom()
        &&& forall|i: InstId|
            self.insts.dom().contains(i) ==> (#[trigger] self.insts[i]).kind.renamed_to(
                &new.insts[i].kind,
                from,
                to,
            ) && new.insts[i].ty == self.insts[i].ty
        &&& new.jumps.dom() == self.jumps.dom()
        &&& forall|b: BBId|
            self.jumps.dom().contains(b) ==> #[trigger] new.jumps[b] == renamed_jumps(self.jumps[b], from, to)
        &&& new.chains == self.chains
        &&& new.order == self.order
        &&& new.first_block == self.first_block
        &&& new.ty == self.ty
        &&& new.name == self.name
    }
}

impl FuncView {
    /// True if no instruction and no branch reads the result of `j`.
    pub open spec fn unused(self, j: InstId) -> bool {
        &&& forall|i: InstId| self.insts.dom().contains(i) ==> !(#[trigger] self.insts[i]).kind.uses(j)
        &&& forall|b: BBId, k: int|
            self.jumps.dom().contains(b) && 0 <= k < self.jumps[b].len() ==> !(#[trigger] self.jumps[b][k]).uses(
                j,
            )
    }

    /// True if `inst` can be added: it is not a removed instruction, and
    /// every result it reads is the result of a live instruction that was
    /// not removed.
    pub open spec fn accepts(self, inst: Inst) -> bool {
        !(inst.kind is Dead) && forall|j: InstId| inst.kind.uses(j) ==> self.good(j)
    }

    /// Every result that an instruction or a branch reads is the result of
    /// a live instruction that was not removed.
    pub open spec fn refs_ok(self) -> bool {
        forall|j: InstId| !self.good(j) ==> #[trigger] self.unused(j)
    }
}

impl FuncView {
    /// True if the instructions `base` and all branches read only results
    /// of instructions in `base`.
    pub open spec fn closed(self, base: Set<InstId>) -> bool {
        &&& forall|i: InstId, j: InstId|
            base.contains(i) && self.insts.dom().contains(i) && #[trigger] self.insts[i].kind.uses(j)
                ==> base.contains(j)
        &&& forall|b: BBId, k: int, j: InstId|
            self.jumps.dom().contains(b) && 0 <= k < self.jumps[b].len() && #[trigger] self.jumps[b][k].uses(j)
                ==> base.contains(j)
    }

    /// True if `new` keeps the instructions `base` of this function: they
    /// are live, they read no result that they did not read before, and
    /// those that were not removed are not removed; and the branches are
    /// as before.
    pub open spec fn keeps(self, new: FuncView, base: Set<InstId>) -> bool {
        &&& forall|i: InstId| base.contains(i) ==> new.insts.dom().contains(i)
        &&& forall|i: InstId, j: InstId|
            base.contains(i) && #[trigger] new.insts[i].kind.uses(j) ==> self.insts[i].kind.uses(j)
        &&& forall|j: InstId| base.contains(j) && self.good(j) ==> #[trigger] new.good(j)
        &&& new.jumps == self.jumps
    }
}

/// A function keeps its own live instructions.
pub proof fn lemma_keeps_refl(a: FuncView, base: Set<InstId>)
    requires
        base.subset_of(a.insts.dom()),
    ensures
        a.keeps(a, base),
{
}

/// What keeps some instructions keeps fewer.
pub proof fn lemma_keeps_sub(a: FuncView, b: FuncView, base: Set<InstId>, fewer: Set<InstId>)
    requires
        a.keeps(b, base),
        fewer.subset_of(base),
    ensures
        a.keeps(b, fewer),
{
}

/// Keeping twice is keeping.
pub proof fn lemma_keeps_trans(a: FuncView, b: FuncView, c: FuncView, base: Set<InstId>)
    requires
        a.keeps(b, base),
        b.keeps(c, base),
    ensures
        a.keeps(c, base),
{
    assert forall|i: InstId, j: InstId| base.contains(i) && #[trigger] c.insts[i].kind.uses(j) implies a.insts[i].kind.uses(
        j,
    ) by {
        assert(b.insts[i].kind.uses(j));
    }
    assert forall|j: InstId| base.contains(j) && a.good(j) implies #[trigger] c.good(j) by {
        assert(b.good(j));
    }
}

/// Where the instructions `base` and the branches read only results of
/// `base`, renaming a result outside `base` keeps `base`.
pub proof fn lemma_rename_keeps(v: FuncView, w: FuncView, from: InstId, to: InstId, base: Set<InstId>)
    requires
        v.renamed_to(w, from, to),
        v.closed(base),
        !base.contains(from),
        base.subset_of(v.insts.dom()),
    ensures
        v.keeps(w, base),
        w.closed(base),
        forall|i: InstId| base.contains(i) ==> !v.phi_user(i, from),
{
    assert forall|i: InstId, j: InstId| base.contains(i) && #[trigger] w.insts[i].kind.uses(j) implies v.insts[i].kind.uses(
        j,
    ) by {
        assert(v.insts[i].kind.renamed_to(&w.insts[i].kind, from, to));
        lemma_renamed_uses(v.insts[i].kind, w.insts[i].kind, from, to, j);
        if v.insts[i].kind.uses(from) {
            assert(base.contains(from));
        }
    }
    assert forall|j: InstId| base.contains(j) && v.good(j) implies #[trigger] w.good(j) by {
        assert(v.insts[j].kind.renamed_to(&w.insts[j].kind, from, to));
        lemma_renamed_uses(v.insts[j].kind, w.insts[j].kind, from, to, j);
    }
    assert forall|b: BBId| v.jumps.dom().contains(b) implies #[trigger] w.jumps[b] == v.jumps[b] by {
        assert(w.jumps[b] == renamed_jumps(v.jumps[b], from, to));
        assert forall|k: int| 0 <= k < v.jumps[b].len() implies v.jumps[b][k].renamed(from, to) == v.jumps[b][k] by {
            if v.jumps[b][k].uses(from) {
                assert(base.contains(from));
            }
        }
        assert(w.jumps[b] =~= v.jumps[b]);
    }
    assert(w.jumps =~= v.jumps);
    assert forall|i: InstId| base.contains(i) implies !v.phi_user(i, from) by {
        if v.insts[i].kind.uses(from) {
            assert(base.contains(from));
        }
    }
}

/// Replacing or adding an instruction outside `base` keeps `base`.
pub proof fn lemma_put_keeps(w: FuncView, w2: FuncView, id: InstId, inst: Inst, base: Set<InstId>)
    requires
        w2.insts == w.insts.insert(id, inst),
        w2.jumps == w.jumps,
        !base.contains(id),
        base.subset_of(w.insts.dom()),
    ensures
        w.keeps(w2, base),
        w.closed(base) ==> w2.closed(base),
{
    assert forall|i: InstId, j: InstId| base.contains(i) && #[trigger] w2.insts[i].kind.uses(j) implies w.insts[i].kind.uses(
        j,
    ) by {
        assert(w2.insts[i] == w.insts[i]);
    }
    assert forall|j: InstId| base.contains(j) && w.good(j) implies #[trigger] w2.good(j) by {
        assert(w2.insts[j] == w.insts[j]);
    }
    if w.closed(base) {
        assert forall|i: InstId, j: InstId|
            base.contains(i) && w2.insts.dom().contains(i) && #[trigger] w2.insts[i].kind.uses(j) implies base.contains(
            j,
        ) by {
            assert(w2.insts[i] == w.insts[i]);
        }
    }
}

/// What is kept stays closed.
pub proof fn lemma_closed_kept(a: FuncView, b: FuncView, base: Set<InstId>)
    requires
        a.closed(base),
        a.keeps(b, base),
        base.subset_of(a.insts.dom()),
    ensures
        b.closed(base),
{
    assert forall|i: InstId, j: InstId|
        base.contains(i) && b.insts.dom().contains(i) && #[trigger] b.insts[i].kind.uses(j) implies base.contains(
        j,
    ) by {
        assert(a.insts[i].kind.uses(j));
    }
    assert forall|x: BBId, k: int, j: InstId|
        b.jumps.dom().contains(x) && 0 <= k < b.jumps[x].len() && #[trigger] b.jumps[x][k].uses(j) implies base.contains(
        j,
    ) by {
        assert(b.jumps[x].len() == a.jumps[x].len());
        assert(a.jumps[x][k].uses(j));
    }
}

/// Where the references are good, the live instructions and the branches
/// read only results of live instructions.
pub proof fn lemma_sound_closed(v: FuncView)
    requires
        v.refs_ok(),
    ensures
        v.closed(v.insts.dom()),
{
    assert forall|i: InstId, j: InstId|
        v.insts.dom().contains(i) && #[trigger] v.insts[i].kind.uses(j) implies v.insts.dom().contains(j) by {
        if !v.good(j) {
            assert(v.unused(j));
        }
    }
    assert forall|b: BBId, k: int, j: InstId|
        v.jumps.dom().contains(b) && 0 <= k < v.jumps[b].len() && #[trigger] v.jumps[b][k].uses(j) implies v.insts.dom().contains(
        j,
    ) by {
        if !v.good(j) {
            assert(v.unused(j));
        }
    }
}

/// Renaming a result into another that is good keeps the references good,
/// and leaves the old name unused.
pub proof fn lemma_rename_refs(v: FuncView, w: FuncView, from: InstId, to: InstId)
    requires
        v.renamed_to(w, from, to),
        v.refs_ok(),
        v.good(to),
        to != from,
    ensures
        w.refs_ok(),
        w.unused(from),
        forall|j: InstId| w.good(j) <==> v.good(j),
        forall|j: InstId| w.is_phi(j) <==> v.is_phi(j),
{
    assert forall|j: InstId| (w.good(j) <==> v.good(j)) && (w.is_phi(j) <==> v.is_phi(j)) by {
        if v.insts.dom().contains(j) {
            assert(v.insts[j].kind.renamed_to(&w.insts[j].kind, from, to));
            lemma_renamed_uses(v.insts[j].kind, w.insts[j].kind, from, to, j);
        }
    }
    assert forall|j: InstId| !w.good(j) || j == from implies #[trigger] w.unused(j) by {
        if !w.good(j) {
            assert(v.unused(j));
        }
        assert forall|i: InstId| w.insts.dom().contains(i) implies !(#[trigger] w.insts[i]).kind.uses(j) by {
            assert(v.insts[i].kind.renamed_to(&w.insts[i].kind, from, to));
            lemma_renamed_uses(v.insts[i].kind, w.insts[i].kind, from, to, j);
            if !w.good(j) {
                assert(!v.insts[i].kind.uses(j));
            }
        }
        assert forall|b: BBId, k: int|
            w.jumps.dom().contains(b) && 0 <= k < w.jumps[b].len() implies !(#[trigger] w.jumps[b][k]).uses(
            j,
        ) by {
            assert(w.jumps[b] == renamed_jumps(v.jumps[b], from, to));
            assert(w.jumps[b][k] == v.jumps[b][k].renamed(from, to));
            if !w.good(j) {
                assert(!v.jumps[b][k].uses(j));
            }
        }
    }
}

/// Where nothing reads the result of an instruction, the references stay
/// good when the instruction is replaced by one without operands.
pub proof fn lemma_kill_refs(w: FuncView, w2: FuncView, phi: InstId, dead: Inst)
    requires
        w.refs_ok(),
        w.unused(phi),
        w.insts.dom().contains(phi),
        w2 == (FuncView { insts: w.insts.insert(phi, dead), ..w }),
        dead.kind.operands().len() == 0,
    ensures
        w2.refs_ok(),
        w2.unused(phi),
        forall|j: InstId| j != phi ==> (w2.good(j) <==> w.good(j)),
{
    assert forall|j: InstId| !w2.good(j) || j == phi implies #[trigger] w2.unused(j) by {
        if j != phi {
            assert(!w.good(j));
            assert(w.unused(j));
        }
        assert forall|i: InstId| w2.insts.dom().contains(i) implies !(#[trigger] w2.insts[i]).kind.uses(j) by {
            if i != phi {
                assert(w2.insts[i] == w.insts[i]);
            }
        }
        assert forall|b: BBId, k: int|
            w2.jumps.dom().contains(b) && 0 <= k < w2.jumps[b].len() implies !(#[trigger] w2.jumps[b][k]).uses(
            j,
        ) by {
            assert(w2.jumps[b][k] == w.jumps[b][k]);
        }
    }
}

/// The references stay good when an instruction is added or replaced whose
/// operands are good, and which is not removed.
pub proof fn lemma_put_refs(w: FuncView, w2: FuncView, id: InstId, inst: Inst)
    requires
        w.refs_ok(),
        w2.insts == w.insts.insert(id, inst),
        w2.jumps == w.jumps,
        !(inst.kind is Dead),
        forall|j: InstId| inst.kind.uses(j) ==> j == id || w.good(j),
    ensures
        w2.refs_ok(),
        forall|j: InstId| w.good(j) ==> w2.good(j),
        w2.good(id),
{
    assert forall|j: InstId| !w2.good(j) implies #[trigger] w2.unused(j) by {
        assert(!w.good(j));
        assert(w.unused(j));
        assert forall|i: InstId| w2.insts.dom().contains(i) implies !(#[trigger] w2.insts[i]).kind.uses(j) by {
            if i != id {
                assert(w2.insts[i] == w.insts[i]);
            }
        }
        assert forall|b: BBId, k: int|
            w2.jumps.dom().contains(b) && 0 <= k < w2.jumps[b].len() implies !(#[trigger] w2.jumps[b][k]).uses(
            j,
        ) by {
            assert(w2.jumps[b][k] == w.jumps[b][k]);
        }
    }
}

/// Renaming a result changes no chain and no edge, and leaves every phi a
/// phi with operands from the same blocks.
pub proof fn lemma_renamed_shape(v: FuncView, w: FuncView, from: InstId, to: InstId)
    requires
        v.renamed_to(w, from, to),
    ensures
        v.same_shape(w),
        forall|i: InstId| v.is_phi(i) ==> #[trigger] w.is_phi(i),
{
    assert forall|b: BBId| #[trigger] w.succ(b) == v.succ(b) by {
        if v.jumps.dom().contains(b) {
            lemma_renamed_targets(v.jumps[b], from, to);
        }
    }
    assert forall|i: InstId| w.is_phi(i) implies #[trigger] v.same_phi(w, i) by {
        assert(v.insts[i].kind.renamed_to(&w.insts[i].kind, from, to));
    }
    assert forall|i: InstId| v.is_phi(i) implies #[trigger] w.is_phi(i) by {
        assert(v.insts[i].kind.renamed_to(&w.insts[i].kind, from, to));
    }
}

/// The references stay good when a branch is added that reads nothing or a
/// good result.
pub proof fn lemma_branch_refs(w: FuncView, w2: FuncView, bb: BBId, branch: Branch)
    requires
        w.refs_ok(),
        w.jumps.dom().contains(bb),
        w2 == w.with_branch(bb, branch),
        forall|j: InstId| branch.uses(j) ==> w.good(j),
    ensures
        w2.refs_ok(),
        forall|j: InstId| w.good(j) <==> w2.good(j),
{
    assert forall|j: InstId| !w2.good(j) implies #[trigger] w2.unused(j) by {
        assert(!w.good(j));
        assert(w.unused(j));
        assert forall|b: BBId, k: int|
            w2.jumps.dom().contains(b) && 0 <= k < w2.jumps[b].len() implies !(#[trigger] w2.jumps[b][k]).uses(
            j,
        ) by {
            if b == bb {
                if k < w.jumps[bb].len() {
                    assert(w2.jumps[b][k] == w.jumps[b][k]);
                }
            } else {
                assert(w2.jumps[b][k] == w.jumps[b][k]);
            }
        }
    }
}

/// The references stay good when a block without branches is added.
pub proof fn lemma_block_refs(w: FuncView, w2: FuncView, id: BBId)
    requires
        w.refs_ok(),
        w2.insts == w.insts,
        w2.jumps == w.jumps.insert(id, Seq::empty()),
    ensures
        w2.refs_ok(),
        forall|j: InstId| w.good(j) <==> w2.good(j),
{
    assert forall|j: InstId| !w2.good(j) implies #[trigger] w2.unused(j) by {
        assert(!w.good(j));
        assert(w.unused(j));
        assert forall|b: BBId, k: int|
            w2.jumps.dom().contains(b) && 0 <= k < w2.jumps[b].len() implies !(#[trigger] w2.jumps[b][k]).uses(
            j,
        ) by {
            if b != id {
                assert(w2.jumps[b][k] == w.jumps[b][k]);
            }
        }
    }
}

impl TacFunc {
    /// Turns every reference to the result of `from`, in instructions and in
    /// branches, into a reference to the result of `to`. Returns the phi
    /// instructions other than `from` that read the result of `from`.
    pub fn replace_uses(&mut self, from: InstId, to: InstId) -> (users: Vec<InstId>)
        requires
            old(self).wf(),
        ensures
            final(self).wf(),
            old(self)@.renamed_to(final(self)@, from, to),
            users@.no_duplicates(),
            forall|u: InstId| users@.contains(u) <==> #[trigger] old(self)@.phi_user(u, from),
            final(self).insts().dom() == old(self).insts().dom(),
            final(self).blocks().dom() == old(self).blocks().dom(),
            forall|i: InstId| old(self).has_inst(i) ==> final(self).home(i) == old(self).home(i),
    {
        proof {
            self.lemma_wf();
        }
        let ghost v0 = self@;
        let ids = self.inst_ids();
        let mut users: Vec<InstId> = Vec::new();
        let mut k: usize = 0;
        while k < ids.len()
            invariant
                k <= ids@.len(),
                self.wf(),
                ids@.no_duplicates(),
                ids@.to_set() == v0.insts.dom(),
                self@.insts.dom() == v0.insts.dom(),
                self.insts().dom() == old(self).insts().dom(),
                self.blocks() == old(self).blocks(),
                forall|i: InstId| old(self).has_inst(i) ==> self.home(i) == old(self).home(i),
                self@ == (FuncView { insts: self@.insts, ..v0 }),
                forall|j: int|
                    0 <= j < k ==> (#[trigger] v0.insts[ids@[j]]).kind.renamed_to(
                        &self@.insts[ids@[j]].kind,
                        from,
                        to,
                    ) && self@.insts[ids@[j]].ty == v0.insts[ids@[j]].ty,
                forall|j: int| k <= j < ids@.len() ==> self@.insts[#[trigger] ids@[j]] == v0.insts[ids@[j]],
                users@.no_duplicates(),
                forall|u: InstId|
                    #[trigger] users@.contains(u) ==> v0.phi_user(u, from) && ids@.subrange(0, k as int).contains(u),
                forall|u: InstId|
                    #[trigger] v0.phi_user(u, from) && ids@.subrange(0, k as int).contains(u) ==> users@.contains(u),
            decreases ids.len() - k,
        {
            let i = ids[k];
            let ghost before = self@;
            let ghost seen = ids@.subrange(0, k as int);
            proof {
                assert(ids@.to_set().contains(i));
                self.lemma_wf();
                assert(!seen.contains(i));
            }
            let inst = self.inst_get_mut(i);
            let changed = inst.kind.replace_uses(from, to);
            let is_phi = matches!(inst.kind, InstKind::Phi(_));
            let ghost users_before = users@;
            proof {
                assert(before.insts[i] == v0.insts[ids@[k as int]]);
                assert(v0.insts[i].kind.renamed_to(&inst.kind, from, to));
                assert(v0.phi_user(i, from) <==> changed && is_phi && i != from);
            }
            if changed && is_phi && i != from {
                proof {
                    assert(v0.phi_user(i, from));
                    assert(!users_before.contains(i));
                }
                users.push(i);
            }
            proof {
                assert forall|j: int| 0 <= j < k + 1 implies (#[trigger] v0.insts[ids@[j]]).kind.renamed_to(
                    &self@.insts[ids@[j]].kind,
                    from,
                    to,
                ) && self@.insts[ids@[j]].ty == v0.insts[ids@[j]].ty by {
                    if j < k {
                        assert(ids@[j] != i);
                        assert(before.insts[ids@[j]] == self@.insts[ids@[j]]);
                    }
                }
                assert forall|j: int| k + 1 <= j < ids@.len() implies self@.insts[#[trigger] ids@[j]]
                    == v0.insts[ids@[j]] by {
                    assert(ids@[j] != i);
                }
                assert(self@.insts.dom() =~= v0.insts.dom());
                let seen2 = ids@.subrange(0, k + 1);
                assert forall|u: InstId| seen2.contains(u) <==> seen.contains(u) || u == i by {
                    if seen2.contains(u) {
                        let x = choose|x: int| 0 <= x < seen2.len() && seen2[x] == u;
                        if x < k {
                            assert(seen[x] == u);
                        }
                    }
                    if seen.contains(u) {
                        let x = choose|x: int| 0 <= x < seen.len() && seen[x] == u;
                        assert(seen2[x] == u);
                    }
                    if u == i {
                        assert(seen2[k as int] == u);
                    }
                }
                assert forall|u: InstId| users@.contains(u) <==> users_before.contains(u) || (u == i && changed
                    && is_phi && i != from) by {
                    if users@.contains(u) {
                        let x = choose|x: int| 0 <= x < users@.len() && users@[x] == u;
                        if x < users_before.len() {
                            assert(users_before[x] == u);
                        }
                    }
                    if users_before.contains(u) {
                        let x = choose|x: int| 0 <= x < users_before.len() && users_before[x] == u;
                        assert(users@[x] == u);
                    }
                    if u == i && changed && is_phi && i != from {
                        assert(users@[users@.len() - 1] == u);
                    }
                }
                assert forall|u: InstId| #[trigger] users@.contains(u) implies v0.phi_user(u, from)
                    && seen2.contains(u) by {
                    assert(seen2.contains(u) <==> seen.contains(u) || u == i);
                    assert(users@.contains(u) <==> users_before.contains(u) || (u == i && changed && is_phi && i
                        != from));
                    if users_before.contains(u) {
                        assert(v0.phi_user(u, from) && seen.contains(u));
                    }
                }
                assert forall|u: InstId| #[trigger] v0.phi_user(u, from) && seen2.contains(u) implies users@.contains(
                    u,
                ) by {
                    assert(seen2.contains(u) <==> seen.contains(u) || u == i);
                    assert(users@.contains(u) <==> users_before.contains(u) || (u == i && changed && is_phi && i
                        != from));
                }
            }
            k += 1;
        }
        proof {
            assert(ids@.subrange(0, k as int) =~= ids@);
            assert forall|u: InstId| #[trigger] v0.phi_user(u, from) implies ids@.contains(u) by {
                assert(ids@.to_set().contains(u));
            }
            assert forall|i: InstId| v0.insts.dom().contains(i) implies (#[trigger] v0.insts[i]).kind.renamed_to(
                &self@.insts[i].kind,
                from,
                to,
            ) && self@.insts[i].ty == v0.insts[i].ty by {
                assert(ids@.to_set().contains(i));
                let j = choose|j: int| 0 <= j < ids@.len() && ids@[j] == i;
                assert(v0.insts[ids@[j]].kind.renamed_to(&self@.insts[ids@[j]].kind, from, to));
            }
        }
        let bbs = self.all_bb_unordered();
        let ghost v1 = self@;
        let mut b: usize = 0;
        proof {
            self.lemma_wf();
        }
        while b < bbs.len()
            invariant
                b <= bbs@.len(),
                self.wf(),
                bbs@.no_duplicates(),
                bbs@.to_set() == v0.jumps.dom(),
                self@.jumps.dom() == v0.jumps.dom(),
                self.insts().dom() == old(self).insts().dom(),
                self.blocks().dom() == old(self).blocks().dom(),
                forall|i: InstId| old(self).has_inst(i) ==> self.home(i) == old(self).home(i),
                self@ == (FuncView { jumps: self@.jumps, ..v1 }),
                forall|j: int| 0 <= j < b ==> self@.jumps[#[trigger] bbs@[j]] == renamed_jumps(v0.jumps[bbs@[j]], from, to),
                forall|j: int| b <= j < bbs@.len() ==> self@.jumps[#[trigger] bbs@[j]] == v0.jumps[bbs@[j]],
            decreases bbs.len() - b,
        {
            let bb = bbs[b];
            let ghost before = self@;
            proof {
                assert(bbs@.to_set().contains(bb));
                self.lemma_wf();
            }
            let jumps = &self.bb_get(bb).jumps;
            let n = jumps.len();
            let mut renamed: Vec<Branch> = Vec::new();
            let mut j: usize = 0;
            while j < n
                invariant
                    j <= n,
                    n == jumps@.len(),
                    renamed@ == renamed_jumps(jumps@, from, to).subrange(0, j as int),
                decreases n - j,
            {
                renamed.push(jumps[j].rename(from, to));
                j += 1;
                proof {
                    assert(renamed@ =~= renamed_jumps(jumps@, from, to).subrange(0, j as int));
                }
            }
            proof {
                assert(renamed@ =~= renamed_jumps(jumps@, from, to));
            }
            let ghost insts_before = self.insts();
            let slot = self.bb_jumps_mut(bb);
            *slot = renamed;
            proof {
                assert(self.insts() == insts_before);
                assert forall|x: int| 0 <= x < b + 1 implies self@.jumps[#[trigger] bbs@[x]] == renamed_jumps(
                    v0.jumps[bbs@[x]],
                    from,
                    to,
                ) by {
                    if x < b {
                        assert(bbs@[x] != bb);
                        assert(before.jumps[bbs@[x]] == self@.jumps[bbs@[x]]);
                    }
                }
                assert forall|x: int| b + 1 <= x < bbs@.len() implies self@.jumps[#[trigger] bbs@[x]]
                    == v0.jumps[bbs@[x]] by {
                    assert(bbs@[x] != bb);
                }
                assert(self@.jumps.dom() =~= v0.jumps.dom());
                assert(self.blocks().dom() =~= old(self).blocks().dom());
            }
            b += 1;
        }
        proof {
            assert forall|x: BBId| v0.jumps.dom().contains(x) implies #[trigger] self@.jumps[x] == renamed_jumps(
                v0.jumps[x],
                from,
                to,
            ) by {
                assert(bbs@.to_set().contains(x));
                let j = choose|j: int| 0 <= j < bbs@.len() && bbs@[j] == x;
                assert(self@.jumps[bbs@[j]] == renamed_jumps(v0.jumps[bbs@[j]], from, to));
            }
        }
        users
    }
}

} // verus!
