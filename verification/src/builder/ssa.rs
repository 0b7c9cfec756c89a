//! Direct construction of SSA form.
//!
//! The builder keeps, for every variable and block, the instruction that
//! holds the variable's value at the end of the block. A read that finds no
//! definition in its block looks in the predecessors and places phi
//! instructions where control flow joins. A block whose predecessors are not
//! all known yet is unsealed; phis placed in it wait until it is sealed.
//! Phis are placed at the start of their block.

use vstd::prelude::*;
use crate::builder::func_editor::{occurrences, Cursor, FuncEditor};
use crate::builder::steps::{
    deep, got, lemma_completes_more, lemma_fills_more, lemma_removes_more, pass, waiting_in, waiting_out,
};
use crate::builder::tables::{BlockSet, DefTable, Variable};
use crate::builder::lean::{
    lemma_lean_cleared, lemma_lean_close, lemma_lean_more, lemma_lean_new, lemma_lean_put, lemma_lean_rename, lemma_lean_same,
    lemma_lean_seal, lemma_lean_wait,
};
use crate::builder::tidy::{
    lemma_holds_open, lemma_occurrences_contains, lemma_placed_once, lemma_preds_same, lemma_tidy_close,
    lemma_holds_weaker, lemma_operand_holds, lemma_tidy_new, lemma_tidy_operand, lemma_tidy_same,
    lemma_tidy_seal, lemma_tidy_wait,
};
use crate::func::{FuncView, TacFunc};
use crate::handle::{BBId, InstId};
use crate::inst::{Inst, InstKind};
use crate::inst::lemma_phi_uses;
use crate::rewrite::{
    lemma_closed_kept, lemma_keeps_refl, lemma_keeps_sub, lemma_keeps_trans, lemma_kill_refs,
    lemma_put_keeps, lemma_put_refs, lemma_rename_keeps,
    lemma_rename_refs, lemma_renamed_shape, lemma_renamed_targets, lemma_sound_closed,
};
use crate::phi::{has_value, lemma_entry_key, PhiOperands};

verus! {

/// A phi that waits for its block to be sealed.
#[derive(Clone, Copy, Debug, PartialEq, Eq, Structural)]
pub struct Pending {
    pub bb: BBId,
    pub var: Variable,
    pub phi: InstId,
}

/// True if one of the phis `todo` is for the variable `var`.
pub open spec fn names_var(todo: Seq<Pending>, var: Variable) -> bool {
    exists|j: int| 0 <= j < todo.len() && (#[trigger] todo[j]).var == var
}

/// True if each of the phis `todo` is for one of the variables `vars`.
pub open spec fn vars_cover(todo: Seq<Pending>, vars: Seq<Variable>) -> bool {
    forall|j: int| 0 <= j < todo.len() ==> vars.contains((#[trigger] todo[j]).var)
}

/// The builder as a mathematical value.
pub struct BuilderView {
    /// The function under construction.
    pub func: FuncView,
    /// The cursor of the editor.
    pub cursor: Cursor,
    /// The definition of each variable at the end of each block.
    pub defs: Map<(Variable, BBId), InstId>,
    /// The blocks whose predecessors are all known.
    pub sealed: Set<BBId>,
    /// The blocks that take no more instructions.
    pub filled: Set<BBId>,
    /// The phis that wait for their block to be sealed.
    pub pending: Seq<Pending>,
    /// The phis whose operands are being collected, innermost last.
    pub filling: Seq<InstId>,
}

impl BuilderView {
    /// The live blocks in which `var` has no definition.
    pub open spec fn undefined(self, var: Variable) -> Set<BBId> {
        self.func.chains.dom().filter(|b: BBId| !self.defs.dom().contains((var, b)))
    }

    /// Every definition is a live instruction that was not removed.
    pub open spec fn defs_ok(self) -> bool {
        forall|key: (Variable, BBId)| self.defs.dom().contains(key) ==> self.func.good(#[trigger] self.defs[key])
    }

    /// Every result that an instruction, a branch or a definition names is
    /// the result of a live instruction that was not removed.
    pub open spec fn sound(self) -> bool {
        self.func.refs_ok() && self.defs_ok()
    }

    /// An upper bound on the phis that reading the variables `vars` can
    /// still place: for each of them, the number of live blocks without a
    /// definition of it.
    pub open spec fn need(self, vars: Seq<Variable>) -> nat
        decreases vars.len(),
    {
        if vars.len() == 0 {
            0
        } else {
            self.need(vars.drop_last()) + self.undefined(vars.last()).len()
        }
    }

    /// True if every phi that waits is for one of the variables `vars`.
    pub open spec fn waits_within(self, vars: Seq<Variable>) -> bool {
        forall|k: int| 0 <= k < self.pending.len() ==> vars.contains((#[trigger] self.pending[k]).var)
    }

    /// True if every phi that waits in `bb` is for one of the variables
    /// `vars`.
    pub open spec fn waits_in(self, bb: BBId, vars: Seq<Variable>) -> bool {
        forall|k: int|
            0 <= k < self.pending.len() && (#[trigger] self.pending[k]).bb == bb ==> vars.contains(
                self.pending[k].var,
            )
    }

    /// True if every waiting phi of `new` waits in this state too or is for
    /// the variable `var`.
    pub open spec fn waits_more(self, new: BuilderView, var: Variable) -> bool {
        forall|k: int|
            0 <= k < new.pending.len() ==> (#[trigger] new.pending[k]).var == var || self.pending.contains(
                new.pending[k],
            )
    }

    /// True if every waiting phi of `new` is for a variable for which a phi
    /// waits in this state.
    pub open spec fn waits_same_vars(self, new: BuilderView) -> bool {
        forall|k: int| 0 <= k < new.pending.len() ==> names_var(self.pending, (#[trigger] new.pending[k]).var)
    }

    /// True if `new` can come from this state by reading variables: blocks
    /// and their successors stay, instructions and definitions are only
    /// added, and the cursor stays at its instruction.
    pub open spec fn grows_to(self, new: BuilderView) -> bool {
        &&& new.func.chains.dom() == self.func.chains.dom()
        &&& new.func.jumps.dom() == self.func.jumps.dom()
        &&& forall|b: BBId| #[trigger] new.func.succ(b) == self.func.succ(b)
        &&& new.func.order == self.func.order
        &&& new.func.first_block == self.func.first_block
        &&& new.func.ty == self.func.ty
        &&& new.func.name == self.func.name
        &&& self.func.insts.dom().subset_of(new.func.insts.dom())
        &&& self.defs.dom().subset_of(new.defs.dom())
        &&& new.sealed == self.sealed
        &&& new.filled == self.filled
        &&& new.filling == self.filling
        &&& new.cursor.bb == self.cursor.bb
        &&& self.cursor.idx.is_some() ==> new.cursor == self.cursor
    }
}

/// A state grows to itself, and growing twice is growing.
pub proof fn lemma_grows(a: BuilderView, b: BuilderView, c: BuilderView)
    requires
        a.grows_to(b),
        b.grows_to(c),
    ensures
        a.grows_to(a),
        a.grows_to(c),
{
    assert forall|x: BBId| #[trigger] c.func.succ(x) == a.func.succ(x) by {
        assert(b.func.succ(x) == a.func.succ(x));
    }
}

/// When definitions are only added, the blocks without a definition only get
/// fewer.
pub proof fn lemma_undefined_shrinks(a: BuilderView, b: BuilderView, var: Variable)
    requires
        a.func.chains.dom().finite(),
        b.func.chains.dom() == a.func.chains.dom(),
        a.defs.dom().subset_of(b.defs.dom()),
    ensures
        a.undefined(var).finite(),
        b.undefined(var).finite(),
        b.undefined(var).subset_of(a.undefined(var)),
        b.undefined(var).len() <= a.undefined(var).len(),
        a.undefined(var).len() <= a.func.chains.dom().len(),
{
    a.func.chains.dom().lemma_len_filter(|x: BBId| !a.defs.dom().contains((var, x)));
    b.func.chains.dom().lemma_len_filter(|x: BBId| !b.defs.dom().contains((var, x)));
    vstd::set_lib::lemma_len_subset(b.undefined(var), a.undefined(var));
}

/// A new definition in a live block that had none leaves one block fewer
/// without a definition.
pub proof fn lemma_undefined_drops(a: BuilderView, b: BuilderView, var: Variable, bb: BBId)
    requires
        a.func.chains.dom().finite(),
        b.func.chains.dom() == a.func.chains.dom(),
        a.func.chains.dom().contains(bb),
        !a.defs.dom().contains((var, bb)),
        a.defs.dom().subset_of(b.defs.dom()),
        b.defs.dom().contains((var, bb)),
    ensures
        b.undefined(var).len() < a.undefined(var).len(),
{
    lemma_undefined_shrinks(a, b, var);
    assert(b.undefined(var).subset_of(a.undefined(var).remove(bb)));
    assert(a.undefined(var).contains(bb));
    vstd::set_lib::lemma_len_subset(b.undefined(var), a.undefined(var).remove(bb));
}

/// Waiting more twice is waiting more.
pub proof fn lemma_waits_more(a: BuilderView, b: BuilderView, c: BuilderView, var: Variable)
    requires
        a.waits_more(b, var),
        b.waits_more(c, var),
    ensures
        a.waits_more(a, var),
        a.waits_more(c, var),
{
    assert forall|k: int| 0 <= k < c.pending.len() implies (#[trigger] c.pending[k]).var == var
        || a.pending.contains(c.pending[k]) by {
        if c.pending[k].var != var {
            assert(b.pending.contains(c.pending[k]));
            let j = choose|j: int| 0 <= j < b.pending.len() && b.pending[j] == c.pending[k];
            assert(b.pending[j].var == var || a.pending.contains(b.pending[j]));
        }
    }
    assert forall|k: int| 0 <= k < a.pending.len() implies (#[trigger] a.pending[k]).var == var
        || a.pending.contains(a.pending[k]) by {
    }
}

/// When definitions are only added, the need only gets smaller.
pub proof fn lemma_need_shrinks(a: BuilderView, b: BuilderView, vars: Seq<Variable>)
    requires
        a.func.chains.dom().finite(),
        b.func.chains.dom() == a.func.chains.dom(),
        a.defs.dom().subset_of(b.defs.dom()),
    ensures
        b.need(vars) <= a.need(vars),
    decreases vars.len(),
{
    if vars.len() > 0 {
        lemma_need_shrinks(a, b, vars.drop_last());
        lemma_undefined_shrinks(a, b, vars.last());
    }
}

/// The need of some variables covers the need of each of them.
pub proof fn lemma_need_covers(a: BuilderView, vars: Seq<Variable>, var: Variable)
    requires
        vars.contains(var),
    ensures
        a.undefined(var).len() <= a.need(vars),
    decreases vars.len(),
{
    if vars.last() != var {
        let k = choose|k: int| 0 <= k < vars.len() && vars[k] == var;
        assert(vars.drop_last()[k] == var);
        lemma_need_covers(a, vars.drop_last(), var);
    }
}

/// What a step spends of the need of one variable, it spends of the need of
/// all of them: if the instructions `sa` grew to `sb` by no more than the
/// need of `var` fell, they grew by no more than the need of `vars` fell.
pub proof fn lemma_need_credit(
    a: BuilderView,
    b: BuilderView,
    vars: Seq<Variable>,
    var: Variable,
    sa: nat,
    sb: nat,
)
    requires
        a.func.chains.dom().finite(),
        b.func.chains.dom() == a.func.chains.dom(),
        a.defs.dom().subset_of(b.defs.dom()),
        vars.contains(var),
        sb + b.undefined(var).len() <= sa + a.undefined(var).len(),
    ensures
        sb + b.need(vars) <= sa + a.need(vars),
    decreases vars.len(),
{
    let front = vars.drop_last();
    if vars.last() == var {
        lemma_need_shrinks(a, b, front);
    } else {
        let k = choose|k: int| 0 <= k < vars.len() && vars[k] == var;
        assert(front[k] == var);
        lemma_need_credit(a, b, front, var, sa, sb);
        lemma_undefined_shrinks(a, b, vars.last());
    }
}

/// The need of some variables is at most one phi for each of them in each
/// block.
pub proof fn lemma_need_bound(a: BuilderView, vars: Seq<Variable>)
    requires
        a.func.chains.dom().finite(),
    ensures
        a.need(vars) <= vars.len() * a.func.chains.dom().len(),
    decreases vars.len(),
{
    let w = a.func.chains.dom().len();
    if vars.len() > 0 {
        lemma_need_bound(a, vars.drop_last());
        lemma_undefined_shrinks(a, a, vars.last());
        assert(vars.len() * w == (vars.len() - 1) * w + w) by (nonlinear_arith);
    } else {
        assert(vars.len() * w == 0) by (nonlinear_arith)
            requires
                vars.len() == 0,
        ;
    }
}

/// A new block adds at most one to the need of each variable.
pub proof fn lemma_need_new_block(a: BuilderView, b: BuilderView, vars: Seq<Variable>, id: BBId)
    requires
        a.func.chains.dom().finite(),
        b.func.chains.dom() == a.func.chains.dom().insert(id),
        a.defs.dom().subset_of(b.defs.dom()),
    ensures
        b.need(vars) <= a.need(vars) + vars.len(),
    decreases vars.len(),
{
    if vars.len() > 0 {
        lemma_need_new_block(a, b, vars.drop_last(), id);
        let v = vars.last();
        a.func.chains.dom().lemma_len_filter(|x: BBId| !a.defs.dom().contains((v, x)));
        b.func.chains.dom().lemma_len_filter(|x: BBId| !b.defs.dom().contains((v, x)));
        assert(b.undefined(v).subset_of(a.undefined(v).insert(id)));
        vstd::set_lib::lemma_len_subset(b.undefined(v), a.undefined(v).insert(id));
    }
}

/// An element of a sequence occurs in it.
pub proof fn lemma_occurs(s: Seq<BBId>, k: int)
    requires
        0 <= k < s.len(),
    ensures
        occurrences(s, s[k]) > 0,
    decreases s.len(),
{
    if k < s.len() - 1 {
        lemma_occurs(s.drop_last(), k);
    }
}

/// True if the operands `entries` of the phi `phi` are all `phi` itself or
/// `x`, which is another instruction and occurs among them.
pub open spec fn trivial_with(entries: Seq<(BBId, InstId)>, phi: InstId, x: InstId) -> bool {
    &&& x != phi
    &&& has_value(entries, x)
    &&& forall|k: int| 0 <= k < entries.len() ==> (#[trigger] entries[k]).1 == phi || entries[k].1 == x
}

/// The one instruction besides the phi itself that the operands of a
/// trivial phi name; `None` if the phi is not trivial.
pub fn sole_operand(ops: &PhiOperands, phi: InstId) -> (r: Option<InstId>)
    ensures
        match r {
            Some(x) => trivial_with(ops.entries(), phi, x),
            None => forall|x: InstId| !trivial_with(ops.entries(), phi, x),
        },
{
    let n = ops.len();
    let ghost entries = ops.entries();
    let mut same: Option<InstId> = None;
    let mut k: usize = 0;
    while k < n
        invariant
            k <= n,
            n == entries.len(),
            entries == ops.entries(),
            match same {
                Some(x) => trivial_with(entries.subrange(0, k as int), phi, x),
                None => forall|j: int| 0 <= j < k ==> (#[trigger] entries[j]).1 == phi,
            },
        decreases n - k,
    {
        let e = ops.entry(k);
        let ghost seen = entries.subrange(0, k as int);
        let ghost wider = entries.subrange(0, k + 1);
        if e.1 != phi {
            match same {
                Some(x) => {
                    if x != e.1 {
                        proof {
                            assert forall|y: InstId| !trivial_with(entries, phi, y) by {
                                let j = choose|j: int| 0 <= j < seen.len() && (#[trigger] seen[j]).1 == x;
                                assert(entries[j].1 == x);
                                assert(entries[k as int].1 == e.1);
                            }
                        }
                        return None;
                    }
                    proof {
                        let j = choose|j: int| 0 <= j < seen.len() && (#[trigger] seen[j]).1 == x;
                        assert(wider[j].1 == x);
                        assert forall|i: int| 0 <= i < wider.len() implies (#[trigger] wider[i]).1 == phi
                            || wider[i].1 == x by {
                            if i < k {
                                assert(seen[i] == wider[i]);
                            }
                        }
                    }
                },
                None => {
                    same = Some(e.1);
                    proof {
                        assert(wider[k as int].1 == e.1);
                        assert forall|i: int| 0 <= i < wider.len() implies (#[trigger] wider[i]).1 == phi
                            || wider[i].1 == e.1 by {
                            if i < k {
                                assert(entries[i].1 == phi);
                            }
                        }
                    }
                },
            }
        } else {
            proof {
                match same {
                    Some(x) => {
                        let j = choose|j: int| 0 <= j < seen.len() && (#[trigger] seen[j]).1 == x;
                        assert(wider[j].1 == x);
                        assert forall|i: int| 0 <= i < wider.len() implies (#[trigger] wider[i]).1 == phi
                            || wider[i].1 == x by {
                            if i < k {
                                assert(seen[i] == wider[i]);
                            }
                        }
                    },
                    None => {},
                }
            }
        }
        k += 1;
    }
    proof {
        assert(entries.subrange(0, n as int) =~= entries);
        if same.is_none() {
            assert forall|y: InstId| !trivial_with(entries, phi, y) by {
                if trivial_with(entries, phi, y) {
                    let j = choose|j: int| 0 <= j < entries.len() && (#[trigger] entries[j]).1 == y;
                    assert(entries[j].1 == phi);
                }
            }
        }
    }
    same
}

/// True if `x` is an element of `v`.
pub fn vec_has(v: &Vec<InstId>, x: InstId) -> (r: bool)
    ensures
        r == v@.contains(x),
{
    let mut k: usize = 0;
    while k < v.len()
        invariant
            k <= v@.len(),
            forall|j: int| 0 <= j < k ==> v@[j] != x,
        decreases v.len() - k,
    {
        if v[k] == x {
            return true;
        }
        k += 1;
    }
    false
}

/// The builder of one function in SSA form.
pub struct FuncBuilder<'a> {
    /// The editor through which the function is changed.
    pub editor: FuncEditor<'a>,
    /// The definition of each variable at the end of each block.
    pub defs: DefTable,
    /// The blocks whose predecessors are all known.
    pub sealed: BlockSet,
    /// The blocks that take no more instructions.
    pub filled: BlockSet,
    /// The phis that wait for their block to be sealed.
    pub pending: Vec<Pending>,
    /// The phis whose operands are being collected, innermost last.
    pub filling: Vec<InstId>,
}

impl<'a> View for FuncBuilder<'a> {
    type V = BuilderView;

    open spec fn view(&self) -> BuilderView {
        BuilderView {
            func: self.editor.f()@,
            cursor: self.editor.cursor(),
            defs: self.defs@,
            sealed: self.sealed@,
            filled: self.filled@,
            pending: self.pending@,
            filling: self.filling@,
        }
    }
}

impl<'a> FuncBuilder<'a> {
    /// The editor and the table of definitions are well formed.
    pub open spec fn wf(&self) -> bool {
        self.editor.wf() && self.defs.wf()
    }

    /// The number of live instructions.
    pub open spec fn size(&self) -> nat {
        self.editor.f().insts().dom().len()
    }

    /// The number of live blocks.
    pub open spec fn width(&self) -> nat {
        self.editor.f().blocks().dom().len()
    }

    /// A builder for `func`, with the cursor at the start of the first
    /// block and without definitions.
    pub fn new(func: &'a mut TacFunc) -> (r: FuncBuilder<'a>)
        requires
            old(func).wf(),
            old(func)@.first_block.is_some(),
        ensures
            r.wf(),
            r.editor.anchored(),
            r.editor.f() == *old(func),
            *final(r.editor.func) == *final(func),
            r@ == (BuilderView {
                func: old(func)@,
                cursor: Cursor {
                    bb: old(func)@.first_block.unwrap(),
                    idx: old(func)@.head(old(func)@.first_block.unwrap()),
                },
                defs: Map::empty(),
                sealed: Set::empty(),
                filled: Set::empty(),
                pending: Seq::empty(),
                filling: Seq::empty(),
            }),
    {
        FuncBuilder {
            editor: FuncEditor::new(func),
            defs: DefTable::new(),
            sealed: BlockSet::new(),
            filled: BlockSet::new(),
            pending: Vec::new(),
            filling: Vec::new(),
        }
    }

    /// Makes `inst` the definition of `var` at the end of `bb`.
    pub fn write_variable(&mut self, var: Variable, bb: BBId, inst: InstId)
        requires
            old(self).wf(),
        ensures
            old(self)@.neat() ==> final(self)@.neat(),
            old(self)@.holds_open(final(self)@, None),
            old(self)@.sound() && old(self)@.func.good(inst) ==> final(self)@.sound(),
            *final(final(self).editor.func) == *final(old(self).editor.func),
            final(self).wf(),
            final(self)@ == (BuilderView { defs: old(self)@.defs.insert((var, bb), inst), ..old(self)@ }),
            final(self).editor == old(self).editor,
    {
        self.defs.set(var, bb, inst);
        proof {
            lemma_tidy_same(old(self)@, self@, None);
            if old(self)@.neat() {
                lemma_lean_same(old(self)@, self@, Set::empty());
            }
        }
    }

    /// Records that `bb` takes no more instructions.
    pub fn mark_filled(&mut self, bb: BBId)
        requires
            old(self).wf(),
        ensures
            old(self)@.neat() ==> final(self)@.neat(),
            old(self)@.holds_open(final(self)@, None),
            old(self)@.sound() ==> final(self)@.sound(),
            *final(final(self).editor.func) == *final(old(self).editor.func),
            final(self).wf(),
            final(self)@ == (BuilderView { filled: old(self)@.filled.insert(bb), ..old(self)@ }),
            final(self).editor == old(self).editor,
    {
        self.filled.insert(bb);
        proof {
            lemma_tidy_same(old(self)@, self@, None);
            if old(self)@.neat() {
                lemma_lean_same(old(self)@, self@, Set::empty());
            }
        }
    }

    /// True if `bb` was sealed.
    pub fn is_sealed(&self, bb: BBId) -> (r: bool)
        ensures
            r == self@.sealed.contains(bb),
    {
        self.sealed.contains(bb)
    }

    /// True if `bb` was marked as filled.
    pub fn is_filled(&self, bb: BBId) -> (r: bool)
        ensures
            r == self@.filled.contains(bb),
    {
        self.filled.contains(bb)
    }

    /// Stores `inst` at the start of `bb`. The cursor stays at its
    /// instruction; a cursor in the empty block `bb` moves to the new
    /// instruction.
    pub fn prepend(&mut self, inst: Inst, bb: BBId) -> (id: InstId)
        requires
            old(self).wf(),
            old(self).editor.f().has_bb(bb),
            old(self).size() < u32::MAX,
        ensures
            old(self)@.neat() && !(inst.kind is Phi) ==> final(self)@.neat(),
            old(self)@.func.keeps(final(self)@.func, old(self)@.func.insts.dom()),
            old(self)@.sound() && old(self)@.func.accepts(inst) ==> final(self)@.sound(),
            forall|j: InstId| old(self)@.func.good(j) ==> final(self)@.func.good(j),
            *final(final(self).editor.func) == *final(old(self).editor.func),
            final(self).wf(),
            !old(self).editor.f().has_inst(id),
            final(self)@.func == old(self)@.func.with_new(bb, 0, id, inst),
            final(self)@ == (BuilderView { func: final(self)@.func, cursor: final(self)@.cursor, ..old(self)@ }),
            final(self)@.cursor.bb == old(self)@.cursor.bb,
            final(self)@.cursor.idx == (if old(self)@.cursor.idx.is_none() && old(self)@.cursor.bb == bb {
                Some(id)
            } else {
                old(self)@.cursor.idx
            }),
            old(self).editor.anchored() ==> final(self).editor.anchored(),
            final(self).size() == old(self).size() + 1,
            final(self).editor.f().blocks().dom() == old(self).editor.f().blocks().dom(),
    {
        let cur_idx = self.editor.current_idx();
        proof {
            self.editor.func.lemma_wf();
            if let Some(i) = cur_idx {
                if self.editor.func.has_bb(self.editor.current_bb) {
                    self.editor.func.lemma_home_iff(i, self.editor.current_bb);
                }
            }
            self.editor.func.lemma_ends(bb);
        }
        let r = self.editor.insert_at_start_of(inst, bb);
        let id = r.unwrap();
        if let Some(i) = cur_idx {
            proof {
                self.editor.func.lemma_wf();
                if old(self).editor.cursor() == (Cursor { bb, idx: old(self).editor.f()@.head(bb) }) {
                    let c = old(self).editor.f().chain(bb);
                    assert(c.insert(0, id)[1] == i);
                    self.editor.func.lemma_chain_at(bb, 1);
                }
            }
            let _ = self.editor.set_position_at_instruction(i);
        }
        proof {
            if old(self)@.neat() && !(inst.kind is Phi) {
                old(self).editor.func.lemma_wf();
                lemma_placed_once(&*old(self).editor.func);
                lemma_tidy_new(old(self)@, self@, bb, id, inst);
                lemma_lean_new(old(self)@, self@, bb, 0, id, inst, Set::empty());
            }
            lemma_put_keeps(old(self)@.func, self@.func, id, inst, old(self)@.func.insts.dom());
            if old(self)@.func.refs_ok() && old(self)@.func.accepts(inst) {
                lemma_put_refs(old(self)@.func, self@.func, id, inst);
            }
            assert forall|j: InstId| old(self)@.func.good(j) implies self@.func.good(j) by {
                assert(j != id);
            }
        }
        id
    }

    /// Stores a phi without operands for `var` at the start of `bb`. The
    /// cursor stays at its instruction; a cursor in the empty block `bb`
    /// moves to the phi.
    pub fn insert_phi(&mut self, var: Variable, bb: BBId) -> (id: InstId)
        requires
            old(self).wf(),
            old(self).editor.f().has_bb(bb),
            old(self).size() < u32::MAX,
        ensures
            old(self)@.places(final(self)@, id, var, bb),
            old(self)@.func.keeps(final(self)@.func, old(self)@.func.insts.dom()),
            old(self)@.sound() ==> final(self)@.sound(),
            *final(final(self).editor.func) == *final(old(self).editor.func),
            final(self).wf(),
            !old(self).editor.f().has_inst(id),
            final(self)@.func == old(self)@.func.with_new(bb, 0, id, final(self)@.func.insts[id]),
            final(self)@.func.insts[id].ty == var.ty,
            final(self)@.func.insts[id].kind matches InstKind::Phi(ops) && ops@ == Map::<BBId, InstId>::empty(),
            final(self)@ == (BuilderView { func: final(self)@.func, cursor: final(self)@.cursor, ..old(self)@ }),
            final(self)@.cursor.bb == old(self)@.cursor.bb,
            final(self)@.cursor.idx == (if old(self)@.cursor.idx.is_none() && old(self)@.cursor.bb == bb {
                Some(id)
            } else {
                old(self)@.cursor.idx
            }),
            old(self).editor.anchored() ==> final(self).editor.anchored(),
            final(self).size() == old(self).size() + 1,
            final(self).editor.f().blocks().dom() == old(self).editor.f().blocks().dom(),
    {
        proof {
            self.editor.func.lemma_wf();
        }
        let ops = PhiOperands::new();
        proof {
            assert forall|j: InstId| !(InstKind::Phi(ops)).uses(j) by {
                lemma_phi_uses(ops.entries(), j);
            }
        }
        let id = self.prepend(Inst { kind: InstKind::Phi(ops), ty: var.ty }, bb);
        proof {
            self.editor.func.lemma_wf();
            assert(self@.func.insts.dom().contains(id));
        }
        id
    }

    /// Sets the operand of the phi `phi` that arrives from `pred` to `val`.
    /// Nothing happens if `phi` names no phi instruction.
    pub fn set_operand(&mut self, phi: InstId, pred: BBId, val: InstId)
        requires
            old(self).wf(),
        ensures
            old(self)@.sets(final(self)@, phi, pred, val),
            old(self)@.neat() && old(self)@.filling.contains(phi) ==> final(self)@.neat(),
            old(self)@.holds_open(final(self)@, Some(phi)),
            old(self)@.func.is_phi(phi) ==> final(self)@.func.is_phi(phi) && final(self)@.func.phi_keys(phi)
                == old(self)@.func.phi_keys(phi).insert(pred),
            old(self)@.func.keeps(final(self)@.func, old(self)@.func.insts.dom().remove(phi)),
            old(self)@.sound() && old(self)@.func.good(val) ==> final(self)@.sound(),
            forall|j: InstId| old(self)@.func.good(j) <==> final(self)@.func.good(j),
            *final(final(self).editor.func) == *final(old(self).editor.func),
            final(self).wf(),
            final(self)@ == (BuilderView { func: final(self)@.func, ..old(self)@ }),
            final(self)@.func == (FuncView { insts: final(self)@.func.insts, ..old(self)@.func }),
            final(self)@.func.insts.dom() == old(self)@.func.insts.dom(),
            forall|i: InstId| i != phi ==> final(self)@.func.insts[i] == old(self)@.func.insts[i],
            match old(self)@.func.insts[phi].kind {
                InstKind::Phi(ops) => old(self)@.func.insts.dom().contains(phi) ==> {
                    &&& final(self)@.func.insts[phi].kind matches InstKind::Phi(ops2)
                    &&& ops2@ == ops@.insert(pred, val)
                    &&& forall|x: InstId|
                        has_value(ops2.entries(), x) ==> x == val || has_value(ops.entries(), x)
                    &&& final(self)@.func.insts[phi].ty == old(self)@.func.insts[phi].ty
                },
                _ => final(self)@.func.insts[phi] == old(self)@.func.insts[phi],
            },
            !old(self)@.func.insts.dom().contains(phi) ==> final(self)@.func == old(self)@.func,
            final(self).size() == old(self).size(),
            final(self).editor.f().blocks() == old(self).editor.f().blocks(),
            old(self).editor.anchored() ==> final(self).editor.anchored(),
    {
        proof {
            self.editor.func.lemma_wf();
        }
        if !self.editor.func.inst_exists(phi) {
            proof {
                lemma_keeps_refl(self@.func, self@.func.insts.dom().remove(phi));
                lemma_operand_holds(self@, self@, phi);
                if self@.tidy() && self@.filling.contains(phi) {
                    lemma_tidy_operand(self@, self@, phi);
                }
            }
            return ;
        }
        let ghost before = self.editor.func@;
        let slot = self.editor.func.inst_get_mut(phi);
        match &mut slot.kind {
            InstKind::Phi(ops) => {
                ops.insert(pred, val);
            },
            _ => {},
        }
        proof {
            assert(self.editor.func@.insts.dom() =~= before.insts.dom());
            assert(self.editor.func.insts().dom() =~= old(self).editor.func.insts().dom());
            let w = before;
            let w2 = self@.func;
            let new_inst = w2.insts[phi];
            assert(w2.insts =~= w.insts.insert(phi, new_inst));
            lemma_put_keeps(w, w2, phi, new_inst, w.insts.dom().remove(phi));
            lemma_operand_holds(old(self)@, self@, phi);
            if old(self)@.tidy() && old(self)@.filling.contains(phi) {
                lemma_tidy_operand(old(self)@, self@, phi);
            }
            if old(self)@.neat() && old(self)@.filling.contains(phi) {
                lemma_lean_put(old(self)@, self@, phi, Set::empty());
            }
            if w.is_phi(phi) {
                assert(w2.phi_keys(phi) =~= w.phi_keys(phi).insert(pred));
            }
            assert forall|j: InstId| w.good(j) <==> w2.good(j) by {
                if j != phi {
                    assert(w2.insts[j] == w.insts[j]);
                }
            }
            if w.refs_ok() && w.good(val) {
                assert forall|j: InstId| new_inst.kind.uses(j) implies j == phi || w.good(j) by {
                    match (w.insts[phi].kind, new_inst.kind) {
                        (InstKind::Phi(ops), InstKind::Phi(ops2)) => {
                            lemma_phi_uses(ops2.entries(), j);
                            lemma_phi_uses(ops.entries(), j);
                            if j != val {
                                assert(w.insts[phi].kind.uses(j));
                                if !w.good(j) {
                                    assert(w.unused(j));
                                }
                            }
                        },
                        _ => {
                            if !w.good(j) {
                                assert(w.unused(j));
                            }
                        },
                    }
                }
                if new_inst.kind is Dead {
                    assert(w2.insts =~= w.insts);
                } else {
                    assert(w2.insts =~= w.insts.insert(phi, new_inst));
                    lemma_put_refs(w, w2, phi, new_inst);
                }
            }
        }
    }

    /// Removes the phi `phi` if it is trivial: if its operands, the phi
    /// itself aside, all name one other instruction. Every use of the phi is
    /// then turned into a use of that instruction, the phi becomes `Dead`,
    /// and the phis that used it are tried in turn. A phi whose operands are
    /// still being collected is left alone: it is tried when it is complete.
    pub fn try_remove_trivial_phi(&mut self, phi: InstId)
        requires
            old(self).wf(),
        ensures
            exists|d: nat| #![trigger deep(d)] deep(d) && old(self)@.removes(final(self)@, phi, d),
            old(self)@.tidy() ==> final(self)@.tidy(),
            old(self)@.tidy() && old(self)@.lean(set![phi]) ==> final(self)@.neat(),
            old(self)@.holds_open(final(self)@, None),
            old(self)@.sound() ==> final(self)@.sound(),
            *final(final(self).editor.func) == *final(old(self).editor.func),
            final(self).wf(),
            old(self)@.grows_to(final(self)@),
            final(self)@.func.insts.dom() == old(self)@.func.insts.dom(),
            final(self)@.defs.dom() == old(self)@.defs.dom(),
            final(self)@.pending == old(self)@.pending,
            final(self)@.cursor == old(self)@.cursor,
            final(self)@.func.phis().len() <= old(self)@.func.phis().len(),
            final(self).size() == old(self).size(),
            final(self).editor.f().blocks().dom() == old(self).editor.f().blocks().dom(),
            old(self).editor.anchored() ==> final(self).editor.anchored(),
    {
        self.remove_trivial(phi, Ghost(None), Ghost(if self@.tidy() && self@.lean(set![phi]) {
            Some(set![phi])
        } else {
            None
        }));
        proof {
            assert(set![phi].remove(phi) =~= Set::<InstId>::empty());
        }
    }

    /// Removes the phi `phi` if it is trivial, and then the phis that used
    /// it, as far as they are trivial. The instructions `base`, which do
    /// not read the result of any other instruction, are kept.
    fn remove_trivial(
        &mut self,
        phi: InstId,
        Ghost(base): Ghost<Option<Set<InstId>>>,
        Ghost(check): Ghost<Option<Set<InstId>>>,
    )
        requires
            old(self).wf(),
            check matches Some(s) ==> old(self)@.tidy() && old(self)@.lean(s),
            base matches Some(b) ==> old(self)@.func.closed(b) && b.subset_of(old(self)@.func.insts.dom())
                && !b.contains(phi),
        ensures
            exists|d: nat| #![trigger deep(d)] deep(d) && old(self)@.removes(final(self)@, phi, d),
            check matches Some(s) ==> final(self)@.lean(s.remove(phi)),
            old(self)@.tidy() ==> final(self)@.tidy(),
            old(self)@.holds_open(final(self)@, None),
            base matches Some(b) ==> old(self)@.func.keeps(final(self)@.func, b) && final(self)@.func.closed(b),
            old(self)@.sound() ==> final(self)@.sound(),
            *final(final(self).editor.func) == *final(old(self).editor.func),
            final(self).wf(),
            old(self)@.grows_to(final(self)@),
            final(self)@.func.insts.dom() == old(self)@.func.insts.dom(),
            final(self)@.defs.dom() == old(self)@.defs.dom(),
            final(self)@.pending == old(self)@.pending,
            final(self)@.cursor == old(self)@.cursor,
            final(self)@.func.phis().len() <= old(self)@.func.phis().len(),
            final(self).size() == old(self).size(),
            final(self).editor.f().blocks().dom() == old(self).editor.f().blocks().dom(),
            old(self).editor.anchored() ==> final(self).editor.anchored(),
        decreases old(self)@.func.phis().len(),
    {
        proof {
            self.editor.func.lemma_wf();
            lemma_grows(self@, self@, self@);
            lemma_holds_open(self@, self@, self@, None);
            if let Some(b) = base {
                lemma_keeps_refl(self@.func, b);
            }
            assert(deep(0));
        }
        if !self.editor.func.inst_exists(phi) {
            proof {
                if let Some(s) = check {
                    lemma_lean_cleared(self@, s, phi);
                }
            }
            return ;
        }
        if vec_has(&self.filling, phi) {
            proof {
                if let Some(s) = check {
                    lemma_lean_cleared(self@, s, phi);
                }
            }
            return ;
        }
        let same = match &self.editor.func.inst_get(phi).kind {
            InstKind::Phi(ops) => sole_operand(ops, phi),
            _ => None,
        };
        let x = match same {
            Some(x) => x,
            None => {
                proof {
                    if let Some(s) = check {
                        lemma_lean_cleared(self@, s, phi);
                    }
                }
                return ;
            },
        };
        let ghost v0 = self@;
        proof {
            if v0.sound() {
                match v0.func.insts[phi].kind {
                    InstKind::Phi(ops) => {
                        lemma_phi_uses(ops.entries(), x);
                    },
                    _ => {},
                }
                assert(v0.func.insts[phi].kind.uses(x));
                if !v0.func.good(x) {
                    assert(v0.func.unused(x));
                }
            }
        }
        proof {
            match v0.func.insts[phi].kind {
                InstKind::Phi(ops) => {
                    let k = choose|k: int| 0 <= k < ops.entries().len() && (#[trigger] ops.entries()[k]).1 == x;
                    lemma_entry_key(ops, k);
                    assert(v0.func.phi_keys(phi).contains(ops.entries()[k].0));
                },
                _ => {},
            }
        }
        let users = self.editor.func.replace_uses(phi, x);
        let ghost v1 = self@;
        proof {
            lemma_renamed_shape(v0.func, v1.func, phi, x);
            lemma_tidy_same(v0, v1, None);
            if let Some(s) = check {
                assert forall|u: InstId| v0.func.phi_user(u, phi) implies users@.to_set().contains(u) by {
                    assert(users@.contains(u));
                }
                lemma_lean_rename(v0, v1, phi, x, s, users@.to_set());
            }
            if let Some(b) = base {
                lemma_rename_keeps(v0.func, v1.func, phi, x, b);
            }
            if v0.sound() {
                lemma_rename_refs(v0.func, v1.func, phi, x);
            }
            self.editor.func.lemma_wf();
            assert(v1.func.insts[phi].kind is Phi) by {
                assert(v0.func.insts[phi].kind.renamed_to(&v1.func.insts[phi].kind, phi, x));
            }
            assert(v1.func.phis() =~= v0.func.phis()) by {
                assert forall|i: InstId| v0.func.insts.dom().contains(i) implies (v1.func.insts[i].kind is Phi
                    <==> v0.func.insts[i].kind is Phi) by {
                    assert(v0.func.insts[i].kind.renamed_to(&v1.func.insts[i].kind, phi, x));
                }
            }
            assert forall|b: BBId| #[trigger] v1.func.succ(b) == v0.func.succ(b) by {
                if v0.func.jumps.dom().contains(b) {
                    lemma_renamed_targets(v0.func.jumps[b], phi, x);
                }
            }
            assert(v0.grows_to(v1));
        }
        self.defs.reroute(phi, x);
        let slot = self.editor.func.inst_get_mut(phi);
        slot.kind = InstKind::Dead;
        let ghost v2 = self@;
        proof {
            self.editor.func.lemma_wf();
            assert(v2.func.insts.dom() =~= v0.func.insts.dom());
            assert(self.editor.func.insts().dom() =~= old(self).editor.func.insts().dom());
            assert(v2.defs.dom() =~= v0.defs.dom());
            v0.func.insts.dom().lemma_len_filter(|i: InstId| v0.func.insts[i].kind is Phi);
            assert(v2.func.phis() =~= v1.func.phis().remove(phi));
            assert(v1.func.phis().contains(phi));
            assert forall|b: BBId| #[trigger] v2.func.succ(b) == v1.func.succ(b) by {
            }
            assert(v2.func.order == v1.func.order);
            assert(v2.func.chains == v1.func.chains);
            assert(v2.func.jumps == v1.func.jumps);
            assert(v1.func.insts.dom().subset_of(v2.func.insts.dom()));
            assert(v1.defs.dom().subset_of(v2.defs.dom()));
            assert(v2.cursor == v1.cursor);
            assert(v1.grows_to(v2));
            lemma_grows(v0, v1, v2);
            assert(v0.func.same_phi(v1.func, phi));
            assert(v1.func.same_shape(v2.func)) by {
                assert forall|i: InstId| v2.func.is_phi(i) implies #[trigger] v1.func.same_phi(v2.func, i) by {
                    assert(i != phi);
                    assert(v2.func.insts[i] == v1.func.insts[i]);
                }
            }
            assert forall|i: InstId| v1.func.is_phi(i) && Some(i) != Some(phi) implies #[trigger] v2.func.is_phi(
                i,
            ) by {
                assert(v2.func.insts[i] == v1.func.insts[i]);
            }
            lemma_tidy_same(v1, v2, Some(phi));
            lemma_holds_open(v0, v1, v2, None);
            if let Some(s) = check {
                let wider = s.union(users@.to_set()).insert(phi);
                lemma_lean_put(v1, v2, phi, wider);
                lemma_lean_cleared(v2, wider, phi);
                assert(!users@.to_set().contains(phi)) by {
                    if users@.contains(phi) {
                        assert(v0.func.phi_user(phi, phi));
                    }
                }
                assert(users@.subrange(0, users@.len() as int) =~= users@);
                assert(wider.remove(phi) =~= s.remove(phi).union(users@.to_set()));
            }
            if let Some(b) = base {
                assert(v2.func.insts =~= v1.func.insts.insert(phi, v2.func.insts[phi]));
                lemma_put_keeps(v1.func, v2.func, phi, v2.func.insts[phi], b);
                lemma_keeps_trans(v0.func, v1.func, v2.func, b);
            }
            if v0.sound() {
                lemma_kill_refs(v1.func, v2.func, phi, v2.func.insts[phi]);
                assert forall|key: (Variable, BBId)| v2.defs.dom().contains(key) implies v2.func.good(
                    #[trigger] v2.defs[key],
                ) by {
                    assert(v0.defs.dom().contains(key));
                    assert(v2.defs[key] == crate::builder::tables::rerouted(v0.defs[key], phi, x));
                    assert(v0.func.good(v0.defs[key]));
                }
            }
        }
        proof {
            assert forall|j: int| 0 <= j < users@.len() implies (base matches Some(b) ==> !b.contains(
                #[trigger] users@[j],
            )) by {
                assert(users@.contains(users@[j]));
                assert(v0.func.phi_user(users@[j], phi));
            }
        }
        let ghost mut dd: nat = 0;
        proof {
            assert(v0.func.sole(phi, x));
            assert(v0.func.read_by(phi, users@));
            assert(v0.replaces(v2, phi, x));
        }
        let mut k: usize = 0;
        while k < users.len()
            invariant
                k <= users@.len(),
                v2.removes_upto(self@, users@, k as int, dd),
                v0.func.sole(phi, x),
                v0.func.read_by(phi, users@),
                v0.replaces(v2, phi, x),
                v0.func.insts.dom().contains(phi) && !v0.filling.contains(phi),
                self.wf(),
                v0.sound() ==> self@.sound(),
                v0.tidy() ==> self@.tidy(),
                check matches Some(s) ==> v0.tidy(),
                check matches Some(s) ==> self@.lean(s.remove(phi).union(users@.subrange(k as int, users@.len() as int).to_set())),
                v0.holds_open(self@, None),
                base matches Some(b) ==> v0.func.keeps(self@.func, b) && self@.func.closed(b) && b.subset_of(
                    v0.func.insts.dom(),
                ),
                forall|j: int|
                    0 <= j < users@.len() ==> (base matches Some(b) ==> !b.contains(#[trigger] users@[j])),
                v0.grows_to(self@),
                self@.func.insts.dom() == v0.func.insts.dom(),
                self@.defs.dom() == v0.defs.dom(),
                self@.pending == v0.pending,
                self@.cursor == v0.cursor,
                self@.func.phis().len() < v0.func.phis().len(),
                *final(self.editor.func) == *final(old(self).editor.func),
                self.size() == old(self).size(),
                self.editor.f().blocks().dom() == old(self).editor.f().blocks().dom(),
                old(self).editor.anchored() ==> self.editor.anchored(),
                v0 == old(self)@,
            decreases users.len() - k,
        {
            let ghost before = self@;
            let ghost rest = users@.subrange(k as int, users@.len() as int);
            let ghost fewer = users@.subrange(k + 1, users@.len() as int);
            let ghost now = match check {
                Some(s) => Some(s.remove(phi).union(rest.to_set())),
                None => None,
            };
            self.remove_trivial(users[k], Ghost(base), Ghost(now));
            proof {
                let e = choose|e: nat| #![trigger deep(e)] deep(e) && before.removes(self@, users@[k as int], e);
                let top = if dd > e {
                    dd
                } else {
                    e + 1
                };
                lemma_removes_more(v2, before, users@, k as int, dd, top);
                assert(pass(before, e));
                assert(v2.removes_upto(self@, users@, k + 1, top));
                dd = top;
                if let Some(s) = check {
                    let t = s.remove(phi).union(rest.to_set());
                    let t2 = s.remove(phi).union(fewer.to_set());
                    assert(t.remove(users@[k as int]).subset_of(t2)) by {
                        assert forall|e: InstId| t.remove(users@[k as int]).contains(e) implies t2.contains(e) by {
                            if rest.contains(e) {
                                let x = choose|x: int| 0 <= x < rest.len() && rest[x] == e;
                                assert(x > 0);
                                assert(fewer[x - 1] == e);
                            }
                        }
                    }
                    lemma_lean_more(self@, t.remove(users@[k as int]), t2);
                }
                lemma_grows(v0, before, self@);
                lemma_holds_open(v0, before, self@, None);
                if let Some(b) = base {
                    lemma_keeps_trans(v0.func, before.func, self@.func, b);
                }
            }
            k += 1;
        }
        proof {
            if let Some(s) = check {
                assert(users@.subrange(users@.len() as int, users@.len() as int).to_set() =~= Set::<InstId>::empty());
                assert(s.remove(phi).union(Set::<InstId>::empty()) =~= s.remove(phi));
            }
            assert(deep(dd));
            assert(v0.removes(self@, phi, dd));
        }
    }

    /// The instruction that holds the value of `var` at the end of `bb`. If
    /// `bb` has no definition of `var`, the value is looked for in the
    /// predecessors of `bb`, phis are placed where they are needed, and the
    /// result is recorded as the definition of `var` in `bb`.
    pub fn read_variable(&mut self, var: Variable, bb: BBId) -> (r: InstId)
        requires
            old(self).wf(),
            old(self).editor.f().has_bb(bb),
            old(self).size() + old(self)@.undefined(var).len() <= u32::MAX,
        ensures
            exists|d: nat| #![trigger deep(d)] deep(d) && old(self)@.reads_at(final(self)@, var, bb, old(self).width(), r, d),
            old(self)@.neat() ==> final(self)@.neat(),
            old(self)@.holds_open(final(self)@, None),
            old(self)@.sound() ==> old(self)@.func.keeps(final(self)@.func, old(self)@.func.insts.dom()),
            final(self)@.sound() ==> final(self)@.func.good(r),
            old(self)@.sound() ==> final(self)@.sound(),
            *final(final(self).editor.func) == *final(old(self).editor.func),
            final(self).wf(),
            old(self)@.grows_to(final(self)@),
            old(self)@.waits_more(final(self)@, var),
            final(self)@.defs.dom().contains((var, bb)),
            r == final(self)@.defs[(var, bb)],
            old(self)@.defs.dom().contains((var, bb)) ==> r == old(self)@.defs[(var, bb)] && final(self)@ == old(
                self,
            )@,
            final(self).size() + final(self)@.undefined(var).len() <= old(self).size() + old(self)@.undefined(
                var,
            ).len(),
            final(self).editor.f().blocks().dom() == old(self).editor.f().blocks().dom(),
            old(self).editor.anchored() ==> final(self).editor.anchored(),
    {
        proof {
            self.editor.func.lemma_wf();
            lemma_undefined_shrinks(self@, self@, var);
        }
        let budget = self.editor.func.bb_count();
        self.read_bounded(var, bb, budget)
    }

    /// Reads `var` at the end of `bb`, following chains of blocks with one
    /// predecessor for at most `budget` steps before a phi is placed.
    fn read_bounded(&mut self, var: Variable, bb: BBId, budget: usize) -> (r: InstId)
        requires
            old(self).wf(),
            old(self).editor.f().has_bb(bb),
            budget <= old(self).width(),
            old(self).size() + old(self)@.undefined(var).len() <= u32::MAX,
        ensures
            exists|d: nat| #![trigger deep(d)] deep(d) && old(self)@.reads_at(final(self)@, var, bb, budget as nat, r, d),
            old(self)@.neat() ==> final(self)@.neat(),
            old(self)@.holds_open(final(self)@, None),
            old(self)@.sound() ==> old(self)@.func.keeps(final(self)@.func, old(self)@.func.insts.dom()),
            final(self)@.sound() ==> final(self)@.func.good(r),
            old(self)@.sound() ==> final(self)@.sound(),
            *final(final(self).editor.func) == *final(old(self).editor.func),
            final(self).wf(),
            old(self)@.grows_to(final(self)@),
            old(self)@.waits_more(final(self)@, var),
            final(self)@.defs.dom().contains((var, bb)),
            r == final(self)@.defs[(var, bb)],
            old(self)@.defs.dom().contains((var, bb)) ==> r == old(self)@.defs[(var, bb)] && final(self)@ == old(
                self,
            )@,
            final(self).size() + final(self)@.undefined(var).len() <= old(self).size() + old(self)@.undefined(
                var,
            ).len(),
            final(self).editor.f().blocks().dom() == old(self).editor.f().blocks().dom(),
            old(self).editor.anchored() ==> final(self).editor.anchored(),
        decreases old(self)@.undefined(var).len(), budget, 1int,
    {
        proof {
            lemma_grows(self@, self@, self@);
            lemma_waits_more(self@, self@, self@, var);
            lemma_keeps_refl(self@.func, self@.func.insts.dom());
            if self@.sound() && self@.defs.dom().contains((var, bb)) {
                assert(self@.func.good(self@.defs[(var, bb)]));
            }
        }
        proof {
            assert(deep(0));
        }
        match self.defs.get(var, bb) {
            Some(d) => d,
            None => self.read_recursive(var, bb, budget),
        }
    }

    /// Stores a phi without operands for `var` at the start of `bb` and
    /// puts it under collection.
    fn open_phi(&mut self, var: Variable, bb: BBId) -> (id: InstId)
        requires
            old(self).wf(),
            old(self).editor.f().has_bb(bb),
            old(self).size() < u32::MAX,
        ensures
            exists|a: BuilderView|
                #![trigger old(self)@.places(a, id, var, bb)]
                old(self)@.places(a, id, var, bb) && final(self)@ == (BuilderView {
                    filling: a.filling.push(id),
                    ..a
                }),
            old(self)@.neat() ==> final(self)@.neat() && !old(self)@.filling.contains(id),
            old(self)@.holds_open(final(self)@, None),
            final(self)@.func.is_phi(id),
            final(self)@.func.in_block(id, bb),
            final(self)@.func.phi_keys(id) == Set::<BBId>::empty(),
            old(self)@.func.keeps(final(self)@.func, old(self)@.func.insts.dom()),
            old(self)@.sound() ==> final(self)@.sound(),
            *final(final(self).editor.func) == *final(old(self).editor.func),
            final(self).wf(),
            !old(self).editor.f().has_inst(id),
            (BuilderView { filling: old(self)@.filling.push(id), ..old(self)@ }).grows_to(final(self)@),
            final(self)@.filling == old(self)@.filling.push(id),
            final(self)@.defs == old(self)@.defs,
            final(self)@.pending == old(self)@.pending,
            final(self)@.func.insts.dom() == old(self)@.func.insts.dom().insert(id),
            old(self).editor.anchored() ==> final(self).editor.anchored(),
            final(self).size() == old(self).size() + 1,
            final(self).editor.f().blocks().dom() == old(self).editor.f().blocks().dom(),
    {
        let ghost v0 = self@;
        proof {
            self.editor.func.lemma_wf();
            lemma_placed_once(&*self.editor.func);
        }
        let id = self.insert_phi(var, bb);
        let ghost placed = self@;
        self.filling.push(id);
        proof {
            assert(v0.places(placed, id, var, bb));
            self.editor.func.lemma_wf();
            let inst = self@.func.insts[id];
            assert(self@.func.insts.dom() =~= v0.func.insts.dom().insert(id));
            assert(self@.func.chains.dom() =~= v0.func.chains.dom());
            assert(self@.func.jumps.dom() =~= v0.func.jumps.dom());
            if v0.neat() {
                lemma_lean_new(v0, self@, bb, 0, id, inst, Set::empty());
            }
            if v0.tidy() {
                lemma_tidy_new(v0, self@, bb, id, inst);
                if v0.filling.contains(id) {
                    let k = choose|k: int| 0 <= k < v0.filling.len() && v0.filling[k] == id;
                    assert(v0.func.insts.dom().contains(v0.filling[k]));
                }
            }
            let c = v0.func.chains[bb];
            assert(c.insert(0, id)[0] == id);
            assert forall|i: InstId, x: BBId| v0.func.in_block(i, x) implies #[trigger] self@.func.in_block(i, x) by {
                if x == bb {
                    let k = choose|k: int| 0 <= k < c.len() && c[k] == i;
                    assert(c.insert(0, id)[k + 1] == i);
                }
            }
            assert forall|i: InstId| v0.filling.contains(i) && v0.func.is_phi(i) implies #[trigger] v0.func.same_phi(
                self@.func,
                i,
            ) by {
                assert(i != id);
            }
            assert forall|x: BBId| #[trigger] self@.func.succ(x) == v0.func.succ(x) by {
            }
        }
        id
    }

    /// Reads `var` at the end of `bb`, which has no definition of it.
    fn read_recursive(&mut self, var: Variable, bb: BBId, budget: usize) -> (r: InstId)
        requires
            old(self).wf(),
            old(self).editor.f().has_bb(bb),
            !old(self)@.defs.dom().contains((var, bb)),
            budget <= old(self).width(),
            old(self).size() + old(self)@.undefined(var).len() <= u32::MAX,
        ensures
            exists|d: nat| #![trigger deep(d)] deep(d) && old(self)@.reads_at(final(self)@, var, bb, budget as nat, r, d),
            old(self)@.neat() ==> final(self)@.neat(),
            old(self)@.holds_open(final(self)@, None),
            old(self)@.sound() ==> old(self)@.func.keeps(final(self)@.func, old(self)@.func.insts.dom()),
            final(self)@.sound() ==> final(self)@.func.good(r),
            old(self)@.sound() ==> final(self)@.sound(),
            *final(final(self).editor.func) == *final(old(self).editor.func),
            final(self).wf(),
            old(self)@.grows_to(final(self)@),
            old(self)@.waits_more(final(self)@, var),
            final(self)@.defs.dom().contains((var, bb)),
            r == final(self)@.defs[(var, bb)],
            final(self).size() + final(self)@.undefined(var).len() <= old(self).size() + old(self)@.undefined(
                var,
            ).len(),
            final(self).editor.f().blocks().dom() == old(self).editor.f().blocks().dom(),
            old(self).editor.anchored() ==> final(self).editor.anchored(),
        decreases old(self)@.undefined(var).len(), budget, 0int,
    {
        let ghost v0 = self@;
        proof {
            self.editor.func.lemma_wf();
            lemma_undefined_shrinks(v0, v0, var);
            assert(v0.undefined(var).contains(bb));
            assert(v0.undefined(var).len() > 0) by {
                if v0.undefined(var).len() == 0 {
                    assert(v0.undefined(var) =~= Set::<BBId>::empty());
                }
            }
        }
        if !self.sealed.contains(bb) {
            let phi = self.open_phi(var, bb);
            let ghost v1 = self@;
            self.pending.push(Pending { bb, var, phi });
            self.filling.pop();
            let ghost v2 = self@;
            self.write_variable(var, bb, phi);
            proof {
                assert(v2.filling =~= v0.filling);
                let a = choose|a: BuilderView|
                    #![trigger v0.places(a, phi, var, bb)]
                    v0.places(a, phi, var, bb) && v1 == (BuilderView { filling: a.filling.push(phi), ..a });
                assert(a.filling =~= v0.filling);
                assert(self@ == (BuilderView { pending: a.pending.push(Pending { bb, var, phi }), ..a }).defined(
                    var,
                    bb,
                    phi,
                ));
                assert(deep(0));
                assert(v0.reads_at(self@, var, bb, budget as nat, phi, 0));
                assert forall|k: int| 0 <= k < self@.pending.len() implies (#[trigger] self@.pending[k]).var
                    == var || v0.pending.contains(self@.pending[k]) by {
                    if k < v0.pending.len() {
                        assert(v0.pending[k] == self@.pending[k]);
                    }
                }
                self.editor.func.lemma_wf();
                lemma_placed_once(&*self.editor.func);
                assert(v0.grows_to(self@));
                lemma_undefined_drops(v0, self@, var, bb);
                if v0.neat() {
                    lemma_tidy_wait(v1, v2, Pending { bb, var, phi });
                }
                if v0.neat() {
                    lemma_lean_wait(v1, v2, Pending { bb, var, phi }, Set::empty());
                    lemma_lean_same(v2, self@, Set::empty());
                }
                assert(v0.holds_open(v2, None)) by {
                    assert forall|i: InstId| v0.filling.contains(i) && v0.func.is_phi(i) implies #[trigger] v0.func.same_phi(
                        v2.func,
                        i,
                    ) by {
                        assert(v0.func.same_phi(v1.func, i));
                    }
                }
                lemma_holds_open(v0, v2, self@, None);
                if self@.sound() {
                    assert(self@.func.good(self@.defs[(var, bb)]));
                }
            }
            return phi;
        }
        let preds = self.editor.pred_of_bb(bb).to_vec();
        if preds.len() == 1 && budget > 0 {
            let p = preds[0];
            proof {
                lemma_occurs(preds@, 0);
                assert(v0.func.edge_count(p, bb) > 0);
                assert(v0.func.jumps.dom().contains(p));
            }
            let val = self.read_bounded(var, p, budget - 1);
            let ghost v1 = self@;
            self.write_variable(var, bb, val);
            proof {
                let e = choose|e: nat|
                    #![trigger deep(e)]
                    deep(e) && v0.reads_at(v1, var, p, (budget - 1) as nat, val, e);
                assert(pass(v1, e));
                assert(v0.func.comes_from(bb, preds@));
                assert(deep(e + 1));
                assert(v0.reads_at(self@, var, bb, budget as nat, val, e + 1));
                self.editor.func.lemma_wf();
                lemma_waits_more(v0, v1, v1, var);
                assert(v1.grows_to(self@));
                lemma_grows(v0, v1, self@);
                lemma_holds_open(v0, v1, self@, None);
                lemma_undefined_shrinks(v1, self@, var);
                if self@.sound() {
                    assert(self@.func.good(self@.defs[(var, bb)]));
                }
                assert(self@.func == v1.func);
            }
            return val;
        }
        let phi = self.open_phi(var, bb);
        let ghost v1a = self@;
        self.write_variable(var, bb, phi);
        let ghost v1 = self@;
        proof {
            self.editor.func.lemma_wf();
            lemma_undefined_drops(v0, v1, var, bb);
            lemma_undefined_shrinks(v0, v1, var);
        }
        let ghost base = if v0.sound() {
            Some(v0.func.insts.dom())
        } else {
            None
        };
        self.fill_phi(phi, var, bb);
        let ghost v2 = self@;
        self.filling.pop();
        let ghost v3 = self@;
        proof {
            assert(v3.filling =~= v0.filling);
            self.editor.func.lemma_wf();
            lemma_placed_once(&*self.editor.func);
            if v0.neat() {
                assert(v1.func.is_phi(phi) && v1.func.phi_keys(phi) == Set::<BBId>::empty());
                assert(v1.func.in_block(phi, bb));
                assert(v2.func.in_block(phi, bb));
                assert(v2.func.phi_keys(phi) =~= v2.func.preds(bb));
                assert(v2.sealed.contains(bb));
                assert forall|x: BBId| #[trigger] v3.obliged(phi, x) implies v3.settled(phi, x) by {
                    assert(v3.func.in_block(phi, x) && v3.func.in_block(phi, bb));
                    assert(x == bb);
                }
                lemma_tidy_close(v2, v3, phi);
            }
            if v0.neat() {
                lemma_lean_close(v2, v3, phi, Set::empty());
                assert(Set::<InstId>::empty().insert(phi) =~= set![phi]);
            }
            if v0.sound() {
                let b = v0.func.insts.dom();
                lemma_sound_closed(v0.func);
                lemma_keeps_sub(v1.func, v2.func, v1.func.insts.dom().remove(phi), b);
                lemma_keeps_trans(v0.func, v1.func, v2.func, b);
                lemma_closed_kept(v0.func, v2.func, b);
            }
        }
        self.remove_trivial(phi, Ghost(base), Ghost(if v0.neat() {
            Some(set![phi])
        } else {
            None
        }));
        let ghost r0 = if self@.defs.dom().contains((var, bb)) {
            self@.defs[(var, bb)]
        } else {
            phi
        };
        proof {
            let a = choose|a: BuilderView|
                #![trigger v0.places(a, phi, var, bb)]
                v0.places(a, phi, var, bb) && v1a == (BuilderView { filling: a.filling.push(phi), ..a });
            let e1 = choose|e: nat| #![trigger deep(e)] deep(e) && v1.fills(v2, phi, var, bb, e);
            let e2 = choose|e: nat| #![trigger deep(e)] deep(e) && v3.removes(self@, phi, e);
            let top = if e1 > e2 {
                e1 + 1
            } else {
                e2 + 1
            };
            assert(v1 == (BuilderView { filling: a.filling.push(phi), ..a }).defined(var, bb, phi));
            assert(v3 == (BuilderView { filling: v2.filling.drop_last(), ..v2 }));
            assert(pass(v2, e1));
            assert(deep(e2));
            assert(v0.func.comes_from(bb, preds@));
            assert(deep(top));
            assert(v0.reads_at(self@, var, bb, budget as nat, r0, top));
            if v0.neat() {
                assert(set![phi].remove(phi) =~= Set::<InstId>::empty());
            }
            if v0.sound() {
                lemma_keeps_trans(v0.func, v2.func, self@.func, v0.func.insts.dom());
                assert(self@.func.good(self@.defs[(var, bb)]));
            }
            self.editor.func.lemma_wf();
            lemma_waits_more(v1, v1, v2, var);
            assert(v0.pending == v1.pending);
            let w0 = BuilderView { filling: v1.filling, ..v0 };
            lemma_grows(w0, v1, v2);
            assert(v0.grows_to(v3)) by {
                assert forall|x: BBId| #[trigger] v3.func.succ(x) == v0.func.succ(x) by {
                    assert(v2.func.succ(x) == w0.func.succ(x));
                }
            }
            lemma_grows(v0, v3, self@);
            lemma_undefined_shrinks(v2, self@, var);
            assert(v0.holds_open(self@, None)) by {
                assert forall|i: InstId, x: BBId| v0.func.in_block(i, x) implies #[trigger] self@.func.in_block(
                    i,
                    x,
                ) by {
                    assert(v1a.func.in_block(i, x));
                    assert(v2.func.in_block(i, x));
                    assert(v3.func.in_block(i, x));
                }
                assert forall|i: InstId| v0.filling.contains(i) && v0.func.is_phi(i) implies #[trigger] v0.func.same_phi(
                    self@.func,
                    i,
                ) by {
                    assert(v0.func.same_phi(v1a.func, i));
                    let k = choose|k: int| 0 <= k < v0.filling.len() && v0.filling[k] == i;
                    assert(v1.filling[k] == i);
                    if v0.tidy() {
                        assert(i != phi);
                    } else {
                        assert(v0.func.insts.dom().contains(i));
                        assert(i != phi);
                    }
                    assert(v1.func.same_phi(v2.func, i));
                    assert(v3.filling.contains(i));
                    assert(v3.func.same_phi(self@.func, i));
                }
            }
        }
        match self.defs.get(var, bb) {
            Some(d) => d,
            None => phi,
        }
    }

    /// Collects the operands of the phi `phi`, which stands in `bb` for
    /// `var`: one for each predecessor of `bb`, read at the end of that
    /// predecessor.
    pub fn add_phi_operands(&mut self, phi: InstId, var: Variable, bb: BBId)
        requires
            old(self).wf(),
            old(self).size() + old(self)@.undefined(var).len() <= u32::MAX,
        ensures
            exists|m: BuilderView, d: nat|
                #![trigger pass(m, d)]
                pass(m, d) && (BuilderView { filling: old(self)@.filling.push(phi), ..old(self)@ }).fills(
                    m,
                    phi,
                    var,
                    bb,
                    d,
                ) && final(self)@ == (BuilderView { filling: m.filling.drop_last(), ..m }),
            old(self)@.sound() ==> old(self)@.func.keeps(
                final(self)@.func,
                old(self)@.func.insts.dom().remove(phi),
            ),
            old(self)@.sound() ==> final(self)@.sound(),
            *final(final(self).editor.func) == *final(old(self).editor.func),
            final(self).wf(),
            old(self)@.grows_to(final(self)@),
            old(self)@.waits_more(final(self)@, var),
            old(self)@.func.is_phi(phi) ==> final(self)@.func.is_phi(phi) && final(self)@.func.phi_keys(phi)
                == old(self)@.func.phi_keys(phi).union(final(self)@.func.preds(bb)),
            final(self).size() + final(self)@.undefined(var).len() <= old(self).size() + old(self)@.undefined(
                var,
            ).len(),
            final(self).editor.f().blocks().dom() == old(self).editor.f().blocks().dom(),
            old(self).editor.anchored() ==> final(self).editor.anchored(),
    {
        let ghost v0 = self@;
        self.filling.push(phi);
        let ghost v1 = self@;
        proof {
            lemma_undefined_shrinks(v0, v1, var);
            self.editor.func.lemma_wf();
        }
        self.fill_phi(phi, var, bb);
        let ghost v2 = self@;
        self.filling.pop();
        proof {
            let d = choose|d: nat| #![trigger deep(d)] deep(d) && v1.fills(v2, phi, var, bb, d);
            assert(pass(v2, d));
            assert(v1 == (BuilderView { filling: v0.filling.push(phi), ..v0 }));
            assert(self@ == (BuilderView { filling: v2.filling.drop_last(), ..v2 }));
            assert(self@.filling =~= v0.filling);
            assert forall|x: BBId| #[trigger] self@.func.succ(x) == v0.func.succ(x) by {
                assert(v2.func.succ(x) == v1.func.succ(x));
            }
            assert(v0.waits_more(self@, var)) by {
                assert forall|k: int| 0 <= k < self@.pending.len() implies (#[trigger] self@.pending[k]).var
                    == var || v0.pending.contains(self@.pending[k]) by {
                    assert(v2.pending[k].var == var || v1.pending.contains(v2.pending[k]));
                }
            }
            lemma_undefined_shrinks(v1, v2, var);
        }
    }

    /// Collects the operands of the phi `phi`, which stands in `bb` for
    /// `var` and is the innermost phi under collection.
    fn fill_phi(&mut self, phi: InstId, var: Variable, bb: BBId)
        requires
            old(self).wf(),
            old(self).size() + old(self)@.undefined(var).len() <= u32::MAX,
            old(self)@.filling.len() > 0,
            old(self)@.filling.last() == phi,
        ensures
            exists|d: nat| #![trigger deep(d)] deep(d) && old(self)@.fills(final(self)@, phi, var, bb, d),
            old(self)@.neat() ==> final(self)@.neat(),
            old(self)@.holds_open(final(self)@, Some(phi)),
            old(self)@.func.is_phi(phi) ==> final(self)@.func.is_phi(phi) && final(self)@.func.phi_keys(phi)
                == old(self)@.func.phi_keys(phi).union(final(self)@.func.preds(bb)),
            old(self)@.sound() ==> old(self)@.func.keeps(
                final(self)@.func,
                old(self)@.func.insts.dom().remove(phi),
            ),
            old(self)@.sound() ==> final(self)@.sound(),
            *final(final(self).editor.func) == *final(old(self).editor.func),
            final(self).wf(),
            old(self)@.grows_to(final(self)@),
            old(self)@.waits_more(final(self)@, var),
            final(self).size() + final(self)@.undefined(var).len() <= old(self).size() + old(self)@.undefined(
                var,
            ).len(),
            final(self).editor.f().blocks().dom() == old(self).editor.f().blocks().dom(),
            old(self).editor.anchored() ==> final(self).editor.anchored(),
        decreases old(self)@.undefined(var).len(), old(self).width() + 1, 0int,
    {
        let ghost v0 = self@;
        let ghost base = v0.func.insts.dom().remove(phi);
        proof {
            self.editor.func.lemma_wf();
            lemma_grows(v0, v0, v0);
            lemma_waits_more(v0, v0, v0, var);
            lemma_keeps_refl(v0.func, base);
            lemma_holds_open(v0, v0, v0, Some(phi));
            assert(v0.filling[v0.filling.len() - 1] == phi);
        }
        let preds = self.editor.pred_of_bb(bb).to_vec();
        let total = self.editor.func.bb_count();
        let mut i: usize = 0;
        let ghost mut dd: nat = 0;
        proof {
            assert(v0.func.phi_keys(phi).union(preds@.subrange(0, 0).to_set()) =~= v0.func.phi_keys(phi));
        }
        while i < preds.len()
            invariant
                i <= preds@.len(),
                v0.fills_upto(self@, phi, var, preds@, i as int, total as nat, dd),
                self.wf(),
                v0.grows_to(self@),
                v0.filling.contains(phi),
                v0.neat() ==> self@.neat(),
                v0.holds_open(self@, Some(phi)),
                v0.func.is_phi(phi) ==> self@.func.is_phi(phi) && self@.func.phi_keys(phi) == v0.func.phi_keys(
                    phi,
                ).union(preds@.subrange(0, i as int).to_set()),
                *final(self.editor.func) == *final(old(self).editor.func),
                v0.sound() ==> self@.sound(),
                base == v0.func.insts.dom().remove(phi),
                v0.sound() ==> v0.func.keeps(self@.func, base),
                v0.waits_more(self@, var),
                v0 == old(self)@,
                forall|a: BBId| occurrences(preds@, a) == v0.func.edge_count(a, bb),
                total == old(self).width(),
                self.size() + self@.undefined(var).len() <= old(self).size() + v0.undefined(var).len(),
                old(self).size() + v0.undefined(var).len() <= u32::MAX,
                self@.undefined(var).len() <= v0.undefined(var).len(),
                self.editor.f().blocks().dom() == old(self).editor.f().blocks().dom(),
                old(self).editor.anchored() ==> self.editor.anchored(),
                v0.func.chains.dom().finite(),
                v0.func.jumps.dom() == old(self).editor.f().blocks().dom(),
            decreases preds.len() - i,
        {
            let p = preds[i];
            let ghost before = self@;
            proof {
                lemma_occurs(preds@, i as int);
                assert(v0.func.edge_count(p, bb) > 0);
                assert(v0.func.jumps.dom().contains(p));
                self.editor.func.lemma_wf();
            }
            let val = self.read_bounded(var, p, total);
            let ghost mid = self@;
            self.set_operand(phi, p, val);
            proof {
                let e = choose|e: nat| #![trigger deep(e)] deep(e) && before.reads_at(mid, var, p, total as nat, val, e);
                let top = if dd > e {
                    dd
                } else {
                    e + 1
                };
                lemma_fills_more(v0, before, phi, var, preds@, i as int, total as nat, dd, top);
                assert(pass(before, e));
                assert(got(mid, val));
                assert(v0.fills_upto(self@, phi, var, preds@, i + 1, total as nat, top));
                dd = top;
                self.editor.func.lemma_wf();
                assert(mid.grows_to(self@)) by {
                    assert forall|b: BBId| #[trigger] self@.func.succ(b) == mid.func.succ(b) by {
                    }
                }
                lemma_grows(before, mid, self@);
                lemma_grows(v0, before, self@);
                lemma_waits_more(v0, before, mid, var);
                lemma_holds_weaker(before, mid, phi);
                lemma_holds_open(before, mid, self@, Some(phi));
                lemma_holds_open(v0, before, self@, Some(phi));
                if v0.func.is_phi(phi) {
                    assert(before.filling.contains(phi));
                    assert(before.func.same_phi(mid.func, phi));
                    let shorter = preds@.subrange(0, i as int);
                    let longer = preds@.subrange(0, i + 1);
                    let done = shorter.to_set();
                    let more = longer.to_set();
                    assert(more =~= done.insert(p)) by {
                        assert forall|x: BBId| more.contains(x) <==> done.contains(x) || x == p by {
                            if longer.contains(x) {
                                let k = choose|k: int| 0 <= k < longer.len() && longer[k] == x;
                                if k < i {
                                    assert(shorter[k] == x);
                                }
                            }
                            if shorter.contains(x) {
                                let k = choose|k: int| 0 <= k < shorter.len() && shorter[k] == x;
                                assert(longer[k] == x);
                            }
                            if x == p {
                                assert(longer[i as int] == x);
                            }
                        }
                    }
                    assert(self@.func.phi_keys(phi) =~= v0.func.phi_keys(phi).union(more));
                }
                if v0.sound() {
                    assert(base.subset_of(before.func.insts.dom()));
                    assert(base.subset_of(mid.func.insts.dom().remove(phi)));
                    lemma_keeps_sub(before.func, mid.func, before.func.insts.dom(), base);
                    lemma_keeps_sub(mid.func, self@.func, mid.func.insts.dom().remove(phi), base);
                    lemma_keeps_trans(before.func, mid.func, self@.func, base);
                    lemma_keeps_trans(v0.func, before.func, self@.func, base);
                }
                lemma_undefined_shrinks(before, mid, var);
                lemma_undefined_shrinks(mid, self@, var);
            }
            i += 1;
        }
        proof {
            assert(v0.func.comes_from(bb, preds@));
            assert(deep(dd));
            assert(v0.fills(self@, phi, var, bb, dd));
            assert(preds@.subrange(0, i as int) =~= preds@);
            lemma_preds_same(v0.func, self@.func, bb);
            assert(preds@.to_set() =~= v0.func.preds(bb)) by {
                assert forall|a: BBId| preds@.to_set().contains(a) <==> v0.func.preds(bb).contains(a) by {
                    lemma_occurrences_contains(preds@, a);
                }
            }
        }
    }

    /// Takes the phis that wait in `bb` out of the list of waiting phis and
    /// puts them under collection.
    fn take_waiting(&mut self, bb: BBId) -> (todo: Vec<Pending>)
        requires
            old(self).wf(),
        ensures
            todo@ == waiting_in(old(self)@.pending, bb),
            final(self)@.pending == waiting_out(old(self)@.pending, bb),
            !old(self)@.awaited(bb) ==> todo@.len() == 0 && final(self)@ == old(self)@,
            *final(final(self).editor.func) == *final(old(self).editor.func),
            final(self).wf(),
            final(self)@ == (BuilderView {
                pending: final(self)@.pending,
                filling: final(self)@.filling,
                ..old(self)@
            }),
            final(self).editor == old(self).editor,
            final(self)@.filling == old(self)@.filling + todo@.map_values(|p: Pending| p.phi),
            forall|j: int|
                0 <= j < todo@.len() ==> old(self)@.pending.contains(#[trigger] todo@[j]) && todo@[j].bb == bb,
            forall|j: int|
                0 <= j < final(self)@.pending.len() ==> old(self)@.pending.contains(
                    #[trigger] final(self)@.pending[j],
                ) && final(self)@.pending[j].bb != bb,
            forall|k: int|
                0 <= k < old(self)@.pending.len() ==> (if (#[trigger] old(self)@.pending[k]).bb == bb {
                    todo@.contains(old(self)@.pending[k])
                } else {
                    final(self)@.pending.contains(old(self)@.pending[k])
                }),
    {
        let ghost v0 = self@;
        let mut todo: Vec<Pending> = Vec::new();
        let mut rest: Vec<Pending> = Vec::new();
        let mut k: usize = 0;
        proof {
            assert(v0.filling + todo@.map_values(|p: Pending| p.phi) =~= v0.filling);
            assert(rest@ =~= v0.pending.subrange(0, 0));
        }
        while k < self.pending.len()
            invariant
                k <= self.pending@.len(),
                self.wf(),
                self@ == (BuilderView { filling: self@.filling, ..v0 }),
                self.editor == old(self).editor,
                self@.filling == v0.filling + todo@.map_values(|p: Pending| p.phi),
                todo@ == waiting_in(v0.pending.subrange(0, k as int), bb),
                rest@ == waiting_out(v0.pending.subrange(0, k as int), bb),
                !v0.awaited(bb) ==> todo@.len() == 0 && rest@ == v0.pending.subrange(0, k as int),
                forall|j: int| 0 <= j < todo@.len() ==> v0.pending.contains(#[trigger] todo@[j]) && todo@[j].bb == bb,
                forall|j: int| 0 <= j < rest@.len() ==> v0.pending.contains(#[trigger] rest@[j]) && rest@[j].bb != bb,
                forall|x: int|
                    0 <= x < k ==> (if (#[trigger] v0.pending[x]).bb == bb {
                        todo@.contains(v0.pending[x])
                    } else {
                        rest@.contains(v0.pending[x])
                    }),
            decreases self.pending.len() - k,
        {
            let e = self.pending[k];
            let ghost todo0 = todo@;
            let ghost rest0 = rest@;
            assert(v0.pending[k as int] == e);
            proof {
                let longer = v0.pending.subrange(0, k + 1);
                assert(longer.drop_last() =~= v0.pending.subrange(0, k as int));
                assert(longer.last() == e);
            }
            if e.bb == bb {
                todo.push(e);
                self.filling.push(e.phi);
                proof {
                    assert(self@.filling =~= v0.filling + todo@.map_values(|p: Pending| p.phi));
                    assert(todo@[todo0.len() as int] == e);
                }
            } else {
                rest.push(e);
                proof {
                    assert(rest@[rest0.len() as int] == e);
                    if !v0.awaited(bb) {
                        assert(rest@ =~= v0.pending.subrange(0, k + 1));
                    }
                }
            }
            proof {
                assert forall|x: int| 0 <= x < k + 1 implies (if (#[trigger] v0.pending[x]).bb == bb {
                    todo@.contains(v0.pending[x])
                } else {
                    rest@.contains(v0.pending[x])
                }) by {
                    if x < k {
                        if v0.pending[x].bb == bb {
                            let j = choose|j: int| 0 <= j < todo0.len() && todo0[j] == v0.pending[x];
                            assert(todo@[j] == v0.pending[x]);
                        } else {
                            let j = choose|j: int| 0 <= j < rest0.len() && rest0[j] == v0.pending[x];
                            assert(rest@[j] == v0.pending[x]);
                        }
                    }
                }
            }
            k += 1;
        }
        proof {
            assert(v0.pending.subrange(0, k as int) =~= v0.pending);
            if !v0.awaited(bb) {
                assert(rest@ =~= v0.pending);
                assert(self@.filling =~= v0.filling);
            }
        }
        self.pending = rest;
        todo
    }

    /// Gives each of the phis `todo`, which stand in `bb` and are the
    /// innermost phis under collection, its operands, and removes those
    /// that turn out trivial. The last is done first.
    fn complete_waiting(
        &mut self,
        todo: &Vec<Pending>,
        bb: BBId,
        Ghost(room): Ghost<Seq<Variable>>,
        Ghost(strict): Ghost<bool>,
    )
        requires
            old(self).wf(),
            vars_cover(todo@, room),
            old(self).size() + old(self)@.need(room) <= u32::MAX,
            old(self)@.filling.len() >= todo@.len(),
            old(self)@.filling.subrange(old(self)@.filling.len() - todo@.len(), old(self)@.filling.len() as int)
                == todo@.map_values(|p: Pending| p.phi),
            strict ==> old(self)@.neat() && old(self)@.sealed.contains(bb) && forall|j: int|
                0 <= j < todo@.len() ==> old(self)@.func.is_phi((#[trigger] todo@[j]).phi) && old(
                    self,
                )@.func.in_block(todo@[j].phi, bb) && old(self)@.func.phi_keys(todo@[j].phi) == Set::<
                    BBId,
                >::empty(),
        ensures
            exists|d: nat| #![trigger deep(d)] deep(d) && old(self)@.completes_from(final(self)@, todo@, bb, 0, d),
            todo@.len() == 0 ==> final(self)@ == old(self)@,
            strict ==> final(self)@.neat(),
            old(self)@.sound() ==> final(self)@.sound(),
            *final(final(self).editor.func) == *final(old(self).editor.func),
            final(self).wf(),
            (BuilderView {
                filling: old(self)@.filling.subrange(0, old(self)@.filling.len() - todo@.len()),
                ..old(self)@
            }).grows_to(final(self)@),
            forall|vars: Seq<Variable>|
                vars_cover(todo@, vars) ==> final(self).size() + #[trigger] final(self)@.need(vars) <= old(
                    self,
                ).size() + old(self)@.need(vars),
            forall|k: int|
                0 <= k < final(self)@.pending.len() ==> old(self)@.pending.contains(
                    #[trigger] final(self)@.pending[k],
                ) || names_var(todo@, final(self)@.pending[k].var),
            final(self).editor.f().blocks().dom() == old(self).editor.f().blocks().dom(),
            old(self).editor.anchored() ==> final(self).editor.anchored(),
    {
        let ghost v0 = self@;
        let ghost phis = todo@.map_values(|p: Pending| p.phi);
        let ghost outer = v0.filling.subrange(0, v0.filling.len() - todo@.len());
        let mut k: usize = todo.len();
        proof {
            self.editor.func.lemma_wf();
            lemma_grows(v0, v0, v0);
            assert(v0.filling =~= outer + phis.subrange(0, k as int));
            assert forall|x: BBId| #[trigger] v0.func.succ(x) == v0.func.succ(x) by {
            }
        }
        let ghost mut dd: nat = 0;
        while k > 0
            invariant
                k <= todo@.len(),
                v0.completes_from(self@, todo@, bb, k as int, dd),
                self.wf(),
                todo@.len() == 0 ==> self@ == v0,
                (BuilderView { filling: self@.filling, ..v0 }).grows_to(self@),
                self@.filling == outer + phis.subrange(0, k as int),
                phis == todo@.map_values(|p: Pending| p.phi),
                *final(self.editor.func) == *final(old(self).editor.func),
                v0.sound() ==> self@.sound(),
                strict ==> self@.neat() && self@.sealed.contains(bb) && forall|j: int|
                    0 <= j < k ==> self@.func.is_phi((#[trigger] todo@[j]).phi) && self@.func.in_block(
                        todo@[j].phi,
                        bb,
                    ) && self@.func.phi_keys(todo@[j].phi).subset_of(self@.func.preds(bb)),
                v0 == old(self)@,
                v0.func.chains.dom().finite(),
                vars_cover(todo@, room),
                old(self).size() + v0.need(room) <= u32::MAX,
                forall|vars: Seq<Variable>|
                    vars_cover(todo@, vars) ==> self.size() + #[trigger] self@.need(vars) <= old(self).size()
                        + v0.need(vars),
                forall|i: int|
                    0 <= i < self@.pending.len() ==> v0.pending.contains(#[trigger] self@.pending[i]) || names_var(
                        todo@,
                        self@.pending[i].var,
                    ),
                self.editor.f().blocks().dom() == old(self).editor.f().blocks().dom(),
                old(self).editor.anchored() ==> self.editor.anchored(),
            decreases k,
        {
            let e = todo[k - 1];
            let ghost before = self@;
            let ghost size_before = self.size();
            proof {
                self.editor.func.lemma_wf();
                assert(room.contains(todo@[k - 1].var));
                lemma_need_covers(before, room, e.var);
                assert(self.size() + before.need(room) <= old(self).size() + v0.need(room));
                assert(before.filling[before.filling.len() - 1] == phis[k - 1]);
            }
            self.fill_phi(e.phi, e.var, bb);
            let ghost mid = self@;
            let ghost size_mid = self.size();
            self.filling.pop();
            let ghost popped = self@;
            proof {
                assert(popped.filling =~= outer + phis.subrange(0, k - 1));
                self.editor.func.lemma_wf();
                lemma_placed_once(&*self.editor.func);
                lemma_preds_same(before.func, mid.func, bb);
                if strict {
                    assert forall|x: BBId| #[trigger] popped.obliged(e.phi, x) implies popped.settled(e.phi, x) by {
                        assert(before.func.is_phi(todo@[k - 1].phi));
                        assert(before.func.in_block(e.phi, bb));
                        assert(mid.func.in_block(e.phi, bb));
                        assert(popped.func.in_block(e.phi, x) && popped.func.in_block(e.phi, bb));
                        assert(x == bb);
                        assert(mid.func.phi_keys(e.phi) =~= mid.func.preds(bb));
                    }
                    lemma_tidy_close(mid, popped, e.phi);
                    lemma_lean_close(mid, popped, e.phi, Set::empty());
                    assert(Set::<InstId>::empty().insert(e.phi) =~= set![e.phi]);
                }
            }
            self.remove_trivial(e.phi, Ghost(None), Ghost(if strict {
                Some(set![e.phi])
            } else {
                None
            }));
            proof {
                let e1 = choose|d: nat| #![trigger deep(d)] deep(d) && before.fills(mid, e.phi, e.var, bb, d);
                let e2 = choose|d: nat| #![trigger deep(d)] deep(d) && popped.removes(self@, e.phi, d);
                let most = if e1 > e2 {
                    e1 + 1
                } else {
                    e2 + 1
                };
                let top = if dd > most {
                    dd
                } else {
                    most
                };
                lemma_completes_more(v0, before, todo@, bb, k as int, dd, top);
                assert(pass(before, e1));
                assert(pass(mid, e2));
                assert(popped == (BuilderView { filling: mid.filling.drop_last(), ..mid }));
                assert(v0.completes_from(self@, todo@, bb, k - 1, top));
                dd = top;
            }
            proof {
                if strict {
                    assert(set![e.phi].remove(e.phi) =~= Set::<InstId>::empty());
                }
            }
            proof {
                self.editor.func.lemma_wf();
                lemma_grows(before, mid, mid);
                assert((BuilderView { filling: popped.filling, ..v0 }).grows_to(popped)) by {
                    let w = BuilderView { filling: before.filling, ..v0 };
                    assert forall|x: BBId| #[trigger] popped.func.succ(x) == v0.func.succ(x) by {
                        assert(before.func.succ(x) == w.func.succ(x));
                        assert(mid.func.succ(x) == before.func.succ(x));
                    }
                }
                lemma_grows(BuilderView { filling: popped.filling, ..v0 }, popped, self@);
                assert forall|vars: Seq<Variable>| vars_cover(todo@, vars) implies self.size()
                    + #[trigger] self@.need(vars) <= old(self).size() + v0.need(vars) by {
                    assert(vars.contains(todo@[k - 1].var));
                    lemma_need_credit(before, mid, vars, e.var, size_before, size_mid);
                    lemma_need_shrinks(mid, self@, vars);
                    assert(size_before + before.need(vars) <= old(self).size() + v0.need(vars));
                }
                assert forall|i: int| 0 <= i < self@.pending.len() implies v0.pending.contains(
                    #[trigger] self@.pending[i],
                ) || names_var(todo@, self@.pending[i].var) by {
                    let p = self@.pending[i];
                    assert(mid.pending[i] == p);
                    if p.var == e.var {
                        assert(todo@[k - 1].var == p.var);
                    } else {
                        assert(before.pending.contains(p));
                        let x = choose|x: int| 0 <= x < before.pending.len() && before.pending[x] == p;
                        assert(v0.pending.contains(before.pending[x]) || names_var(todo@, before.pending[x].var));
                    }
                }
                if strict {
                    lemma_preds_same(mid.func, self@.func, bb);
                    assert forall|j: int| 0 <= j < k - 1 implies self@.func.is_phi((#[trigger] todo@[j]).phi)
                        && self@.func.in_block(todo@[j].phi, bb) && self@.func.phi_keys(todo@[j].phi).subset_of(
                        self@.func.preds(bb),
                    ) by {
                        let t = todo@[j].phi;
                        assert(phis[j] == t);
                        assert(popped.filling[outer.len() + j] == phis.subrange(0, k - 1)[j]);
                        assert(popped.filling.contains(t));
                        assert(before.filling[outer.len() + j] == phis.subrange(0, k as int)[j]);
                        assert(before.filling.contains(t));
                        assert(before.func.is_phi(t));
                        assert(before.func.in_block(t, bb));
                        assert(mid.func.in_block(t, bb));
                        assert(self@.func.in_block(t, bb));
                        if t != e.phi {
                            assert(before.func.same_phi(mid.func, t));
                        } else {
                            assert(mid.func.is_phi(t));
                            assert(mid.func.phi_keys(t) =~= before.func.phi_keys(t).union(mid.func.preds(bb)));
                        }
                        assert(popped.func.same_phi(self@.func, t));
                    }
                }
            }
            k -= 1;
        }
        proof {
            assert(self@.filling =~= outer);
        }
        proof {
            assert(deep(dd));
        }
    }

    /// Seals `bb`: all its predecessors are known from now on. The phis that
    /// waited in `bb` get their operands, and those that turn out trivial
    /// are removed.
    ///
    /// There must be room for the phis that this can place: the variables
    /// of the phis that wait in `bb` must be among some variables whose need
    /// fits into the arena.
    pub fn seal_block(&mut self, bb: BBId)
        requires
            old(self).wf(),
            exists|vars: Seq<Variable>|
                old(self)@.waits_in(bb, vars) && old(self).size() + #[trigger] old(self)@.need(vars) <= u32::MAX,
        ensures
            old(self)@.seals_to(final(self)@, bb),
            old(self)@.seals(final(self)@, bb),
            old(self)@.neat() ==> final(self)@.neat(),
            old(self)@.sound() ==> final(self)@.sound(),
            *final(final(self).editor.func) == *final(old(self).editor.func),
            final(self).wf(),
            (BuilderView { sealed: old(self)@.sealed.insert(bb), ..old(self)@ }).grows_to(final(self)@),
            old(self)@.waits_same_vars(final(self)@),
            forall|vars: Seq<Variable>|
                old(self)@.waits_in(bb, vars) ==> final(self).size() + #[trigger] final(self)@.need(vars) <= old(
                    self,
                ).size() + old(self)@.need(vars),
            final(self).editor.f().blocks().dom() == old(self).editor.f().blocks().dom(),
            old(self).editor.anchored() ==> final(self).editor.anchored(),
    {
        let ghost v0 = self@;
        let ghost start = BuilderView { sealed: v0.sealed.insert(bb), ..v0 };
        let ghost room = choose|vars: Seq<Variable>|
            v0.waits_in(bb, vars) && old(self).size() + #[trigger] v0.need(vars) <= u32::MAX;
        proof {
            self.editor.func.lemma_wf();
            lemma_placed_once(&*self.editor.func);
            lemma_grows(start, start, start);
            assert forall|k: int| 0 <= k < v0.pending.len() implies names_var(
                v0.pending,
                (#[trigger] v0.pending[k]).var,
            ) by {
            }
        }
        if self.sealed.contains(bb) {
            proof {
                assert(v0.sealed.insert(bb) =~= v0.sealed);
            }
            return ;
        }
        self.sealed.insert(bb);
        let todo = self.take_waiting(bb);
        let ghost v1 = self@;
        proof {
            self.editor.func.lemma_wf();
            assert((BuilderView { filling: v1.filling, ..start }).grows_to(v1));
            assert(vars_cover(todo@, room)) by {
                assert forall|j: int| 0 <= j < todo@.len() implies room.contains((#[trigger] todo@[j]).var) by {
                    let x = choose|x: int| 0 <= x < v0.pending.len() && v0.pending[x] == todo@[j];
                    assert(room.contains(v0.pending[x].var));
                }
            }
            lemma_need_shrinks(v0, v1, room);
            let phis = todo@.map_values(|p: Pending| p.phi);
            assert(v1.filling.subrange(v1.filling.len() - todo@.len(), v1.filling.len() as int) =~= phis);
            assert(v1.filling.subrange(0, v1.filling.len() - todo@.len()) =~= v0.filling);
            if v0.tidy() {
                lemma_tidy_seal(v0, v1, bb, todo@);
            }
            if v0.neat() {
                lemma_lean_seal(v0, v1, bb, todo@);
            }
        }
        self.complete_waiting(&todo, bb, Ghost(room), Ghost(v0.neat()));
        proof {
            lemma_grows(start, BuilderView { filling: v0.filling, ..v1 }, self@);
            assert forall|vars: Seq<Variable>| v0.waits_in(bb, vars) implies self.size() + #[trigger] self@.need(
                vars,
            ) <= old(self).size() + v0.need(vars) by {
                assert forall|j: int| 0 <= j < todo@.len() implies vars.contains((#[trigger] todo@[j]).var) by {
                    let x = choose|x: int| 0 <= x < v0.pending.len() && v0.pending[x] == todo@[j];
                    assert(vars.contains(v0.pending[x].var));
                }
                assert(vars_cover(todo@, vars));
                lemma_need_shrinks(v0, v1, vars);
            }
            assert forall|k: int| 0 <= k < self@.pending.len() implies names_var(
                v0.pending,
                (#[trigger] self@.pending[k]).var,
            ) by {
                let p = self@.pending[k];
                if v1.pending.contains(p) {
                    let x = choose|x: int| 0 <= x < v1.pending.len() && v1.pending[x] == p;
                    assert(v0.pending.contains(v1.pending[x]));
                    let y = choose|y: int| 0 <= y < v0.pending.len() && v0.pending[y] == p;
                    assert(v0.pending[y].var == p.var);
                } else {
                    let j = choose|j: int| 0 <= j < todo@.len() && (#[trigger] todo@[j]).var == p.var;
                    let y = choose|y: int| 0 <= y < v0.pending.len() && v0.pending[y] == todo@[j];
                    assert(v0.pending[y].var == p.var);
                }
            }
        }
    }

    /// Stores the formal parameter at position `index` at the start of the
    /// function's first block and makes it the definition of `var` there.
    /// The cursor stays at its instruction; a cursor in the empty first
    /// block moves to the parameter.
    pub fn declare_param(&mut self, var: Variable, index: usize) -> (id: InstId)
        requires
            old(self).wf(),
            old(self)@.func.first_block.is_some(),
            old(self).size() < u32::MAX,
        ensures
            old(self)@.neat() ==> final(self)@.neat(),
            old(self)@.sound() ==> final(self)@.sound(),
            *final(final(self).editor.func) == *final(old(self).editor.func),
            final(self).wf(),
            !old(self).editor.f().has_inst(id),
            final(self)@.func == old(self)@.func.with_new(
                old(self)@.func.first_block.unwrap(),
                0,
                id,
                Inst { kind: InstKind::Param(index), ty: var.ty },
            ),
            final(self)@ == (BuilderView {
                func: final(self)@.func,
                cursor: final(self)@.cursor,
                defs: old(self)@.defs.insert((var, old(self)@.func.first_block.unwrap()), id),
                ..old(self)@
            }),
            final(self)@.cursor.bb == old(self)@.cursor.bb,
            final(self)@.cursor.idx == (if old(self)@.cursor.idx.is_none() && old(self)@.cursor.bb == old(
                self,
            )@.func.first_block.unwrap() {
                Some(id)
            } else {
                old(self)@.cursor.idx
            }),
            final(self).size() == old(self).size() + 1,
            final(self).editor.f().blocks().dom() == old(self).editor.f().blocks().dom(),
            old(self).editor.anchored() ==> final(self).editor.anchored(),
    {
        let bb = self.editor.func.starting_block().unwrap();
        let id = self.prepend(Inst { kind: InstKind::Param(index), ty: var.ty }, bb);
        let ghost v1 = self@;
        self.defs.set(var, bb, id);
        proof {
            lemma_tidy_same(v1, self@, None);
            if v1.neat() {
                lemma_lean_same(v1, self@, Set::empty());
            }
        }
        id
    }
}

} // verus!
