//! Turning a structured program into three-address code in SSA form.
//!
//! Expressions become instructions in the block under the cursor.
//! Conditionals and loops become blocks and branches. Variables are read and
//! written through the SSA builder, which places the phis.
//!
//! A `return` ends its block with the branch that leaves the function and
//! opens a new block at once, which nothing jumps to. What follows the
//! `return` is built into that block. So the end of an arm or of a loop
//! body is always an open block, which jumps on: behind a `return` it is
//! the block that cannot be reached.
//!
//! What each construct builds is stated by the relations of the module
//! `scheme`: every visitor promises that the builder before and after it,
//! and its result, stand in the relation of its construct.

use vstd::prelude::*;
use crate::ast::{
    blocks_from, check_from, cost_from, same_type, within_from, AsExpr, AssignExpr, BinaryExpr,
    BlockStmt, DeclStmt, Expr, FuncStmt, IfElseBlock, IfStmt, LiteralExpr, LiteralKind, ReturnStmt, Stmt,
    UnaryExpr, UnaryOp, WhileStmt,
};
use crate::builder::func_editor::{occurrences, Cursor};
use crate::builder::ssa::{
    lemma_need_bound, lemma_need_covers, lemma_need_credit, lemma_need_new_block,
    lemma_need_shrinks,
    BuilderView, FuncBuilder,
};
use crate::builder::tables::Variable;
use crate::builder::lean::{lemma_lean_blocks, lemma_lean_new, lemma_lean_same};
use crate::builder::tidy::{
    lemma_at_rest, lemma_placed_once, lemma_rest_complete, lemma_tidy_block, lemma_tidy_branch, lemma_tidy_put, lemma_tidy_same,
};
use crate::err::Error;
use crate::func::TacFunc;
use crate::handle::{BBId, InstId};
use crate::inst::{smol_str_text, BinaryInst, BinaryOp, Branch, Inst, InstKind, Value};
use crate::rewrite::{lemma_block_refs, lemma_branch_refs, lemma_put_refs};
use crate::scheme::{
    builds_expr, built_upto, declared_upto, fresh, halt, lemma_adds_edges, lemma_cond_edges,
    lemma_no_edge_to_new, lemma_spares_adds, lemma_spares_both, lemma_spares_none, lemma_spares_same,
    lemma_targets_adds, lemma_targets_push, lemma_targets_same, mismatch, place, place_inst, step, upto, way,
    Arms,
};
use crate::ty::Ty;

verus! {

/// The compiler of one function.
pub struct FuncCompiler<'a> {
    /// The builder of the function under construction.
    pub builder: FuncBuilder<'a>,
    /// The variables of the function.
    pub vars: Vec<Variable>,
}

/// `Ok` if the two types are the same, and the mismatch otherwise.
pub fn assert_type_eq(lhs: &Ty, rhs: &Ty) -> (r: Result<(), Error>)
    ensures
        r == same_type(*lhs, *rhs),
{
    if *lhs != *rhs {
        return Err(Error::TypeMismatch { expected: *lhs, found: *rhs });
    }
    Ok(())
}

/// A result without a value that is `Ok` is `Ok(())`.
pub proof fn lemma_ok_unit(r: Result<(), Error>)
    requires
        r.is_ok(),
    ensures
        r == Ok::<(), Error>(()),
{
    match r {
        Ok(u) => {
            assert(u == ());
        },
        Err(_) => {},
    }
}

/// The instruction operator for an operator of the source program.
pub open spec fn lowered_op(op: crate::ast::BinaryOp) -> BinaryOp {
    match op {
        crate::ast::BinaryOp::Add => BinaryOp::Add,
        crate::ast::BinaryOp::Sub => BinaryOp::Sub,
        crate::ast::BinaryOp::Mul => BinaryOp::Mul,
        crate::ast::BinaryOp::Div => BinaryOp::Div,
        crate::ast::BinaryOp::Gt => BinaryOp::Gt,
        crate::ast::BinaryOp::Lt => BinaryOp::Lt,
        crate::ast::BinaryOp::Ge => BinaryOp::Ge,
        crate::ast::BinaryOp::Le => BinaryOp::Le,
        crate::ast::BinaryOp::Eq => BinaryOp::Eq,
        crate::ast::BinaryOp::Neq => BinaryOp::Ne,
    }
}

/// The instruction operator for an operator of the source program.
pub fn lower_op(op: crate::ast::BinaryOp) -> (r: BinaryOp)
    ensures
        r == lowered_op(op),
{
    match op {
        crate::ast::BinaryOp::Add => BinaryOp::Add,
        crate::ast::BinaryOp::Sub => BinaryOp::Sub,
        crate::ast::BinaryOp::Mul => BinaryOp::Mul,
        crate::ast::BinaryOp::Div => BinaryOp::Div,
        crate::ast::BinaryOp::Gt => BinaryOp::Gt,
        crate::ast::BinaryOp::Lt => BinaryOp::Lt,
        crate::ast::BinaryOp::Ge => BinaryOp::Ge,
        crate::ast::BinaryOp::Le => BinaryOp::Le,
        crate::ast::BinaryOp::Eq => BinaryOp::Eq,
        crate::ast::BinaryOp::Neq => BinaryOp::Ne,
    }
}

/// The value of a literal.
pub fn literal_value(kind: LiteralKind) -> (r: i64)
    ensures
        r == kind.value(),
{
    match kind {
        LiteralKind::Integer(val) => {
            if val <= 0x7fff_ffff_ffff_ffff {
                val as i64
            } else {
                let low: u64 = val - 0x8000_0000_0000_0000;
                (low as i64) + i64::MIN
            }
        },
        LiteralKind::Char(ch) => (ch as u32) as i64,
    }
}

impl<'a> FuncCompiler<'a> {
    /// The function under construction.
    pub open spec fn f(&self) -> TacFunc {
        self.builder.editor.f()
    }

    /// The builder is well formed, the cursor is in a live block, every
    /// waiting phi is for a variable of the function, and every branch
    /// goes to a block of the function.
    pub open spec fn inv(&self) -> bool {
        &&& self.builder.wf()
        &&& self.builder.editor.anchored()
        &&& self.builder@.waits_within(self.vars@)
        &&& self.builder@.sound()
        &&& self.builder@.at_rest()
        &&& self.f()@.targets_live()
    }

    /// True if building from `old` to this state has added no branch to a
    /// block of `old`, has given none of its blocks but the one under its
    /// cursor other successors, and has left the cursor in its block or
    /// moved it to a new block.
    pub open spec fn frames(&self, old: &FuncCompiler) -> bool {
        &&& old.f()@.spares(self.f()@, old.builder@.cursor.bb)
        &&& self.builder@.cursor.bb == old.builder@.cursor.bb || !old.f()@.chains.dom().contains(
            self.builder@.cursor.bb,
        )
    }

    /// The frame goes on through a step that leaves every successor as it
    /// is.
    pub proof fn lemma_frame_same(&self, prev: &FuncCompiler, old: &FuncCompiler)
        requires
            old.f()@.spares(prev.f()@, old.builder@.cursor.bb),
            prev.f()@.same_edges(self.f()@),
        ensures
            old.f()@.spares(self.f()@, old.builder@.cursor.bb),
    {
        lemma_spares_same(old.f()@, prev.f()@, self.f()@, old.builder@.cursor.bb);
    }

    /// The frame goes on through a step that adds branches to new blocks,
    /// from the block under the cursor of `old` or from a new block.
    pub proof fn lemma_frame_adds(&self, prev: &FuncCompiler, old: &FuncCompiler, from: BBId, more: Seq<BBId>)
        requires
            old.inv(),
            old.f()@.spares(prev.f()@, old.builder@.cursor.bb),
            prev.f()@.adds(self.f()@, from, more),
            from == old.builder@.cursor.bb || !old.f().has_bb(from),
            forall|k: int| 0 <= k < more.len() ==> !old.f().has_bb(#[trigger] more[k]),
        ensures
            old.f()@.spares(self.f()@, old.builder@.cursor.bb),
    {
        old.builder.editor.func.lemma_wf();
        lemma_spares_adds(old.f()@, prev.f()@, self.f()@, old.builder@.cursor.bb, from, more);
    }

    /// The frame goes on through steps that have a frame in turn, from the
    /// block under the cursor of `old` or from a new block.
    pub proof fn lemma_frame_both(&self, prev: &FuncCompiler, old: &FuncCompiler)
        requires
            old.inv(),
            prev.inv(),
            old.f()@.spares(prev.f()@, old.builder@.cursor.bb),
            self.frames(prev),
            prev.builder@.cursor.bb == old.builder@.cursor.bb || !old.f().has_bb(prev.builder@.cursor.bb),
            old.f().blocks().dom().subset_of(prev.f().blocks().dom()),
        ensures
            self.frames(old),
    {
        old.builder.editor.func.lemma_wf();
        prev.builder.editor.func.lemma_wf();
        lemma_spares_both(
            old.f()@,
            prev.f()@,
            self.f()@,
            old.builder@.cursor.bb,
            prev.builder@.cursor.bb,
        );
    }

    /// True if `b` is sealed.
    pub open spec fn sealed(&self, b: BBId) -> bool {
        self.builder@.sealed.contains(b)
    }

    /// True if the block under the cursor is sealed.
    pub open spec fn here_sealed(&self) -> bool {
        self.sealed(self.builder@.cursor.bb)
    }

    /// True if the blocks of this state are sealed as follows: those that
    /// `old` has, as they are in `old`; the others, unless they are in
    /// `open`.
    pub open spec fn tracks(&self, old: &FuncCompiler, open: Set<BBId>) -> bool {
        &&& old.f().blocks().dom().subset_of(self.f().blocks().dom())
        &&& open.subset_of(self.f().blocks().dom())
        &&& open.disjoint(old.f().blocks().dom())
        &&& forall|b: BBId|
            old.f().blocks().dom().contains(b) ==> (#[trigger] self.builder@.sealed.contains(b)
                <==> old.builder@.sealed.contains(b))
        &&& forall|b: BBId|
            #[trigger] self.f().blocks().dom().contains(b) && !old.f().blocks().dom().contains(b) ==> (
            self.builder@.sealed.contains(b) <==> !open.contains(b))
    }

    /// A state tracks itself.
    pub proof fn lemma_tracks_none(&self)
        ensures
            self.tracks(self, Set::empty()),
    {
    }

    /// Tracking goes on through a step that seals no block and makes none.
    pub proof fn lemma_tracks_same(&self, mid: &FuncCompiler, old: &FuncCompiler, open: Set<BBId>)
        requires
            mid.tracks(old, open),
            self.builder@.sealed == mid.builder@.sealed,
            self.f().blocks().dom() == mid.f().blocks().dom(),
        ensures
            self.tracks(old, open),
    {
    }

    /// Tracking goes on through a step that seals one live block, which is
    /// sealed then.
    pub proof fn lemma_tracks_seal(&self, mid: &FuncCompiler, old: &FuncCompiler, open: Set<BBId>, x: BBId)
        requires
            mid.tracks(old, open),
            self.builder@.sealed == mid.builder@.sealed.insert(x),
            self.f().blocks().dom() == mid.f().blocks().dom(),
            mid.f().blocks().dom().contains(x),
            old.f().blocks().dom().contains(x) ==> old.builder@.sealed.contains(x),
        ensures
            self.tracks(old, open.remove(x)),
    {
        assert forall|b: BBId|
            old.f().blocks().dom().contains(b) implies (#[trigger] self.builder@.sealed.contains(b)
            <==> old.builder@.sealed.contains(b)) by {
            assert(mid.builder@.sealed.contains(b) <==> old.builder@.sealed.contains(b));
        }
    }

    /// Tracking goes on through steps that leave the blocks so far as they
    /// are: the new blocks that the steps leave unsealed are unsealed too.
    pub proof fn lemma_tracks(&self, mid: &FuncCompiler, old: &FuncCompiler, open: Set<BBId>, more: Set<BBId>)
        requires
            mid.tracks(old, open),
            self.tracks(mid, more),
        ensures
            self.tracks(old, open.union(more)),
    {
        assert forall|b: BBId|
            old.f().blocks().dom().contains(b) implies (#[trigger] self.builder@.sealed.contains(b)
            <==> old.builder@.sealed.contains(b)) by {
            assert(mid.builder@.sealed.contains(b) <==> old.builder@.sealed.contains(b));
        }
        assert forall|b: BBId|
            #[trigger] self.f().blocks().dom().contains(b) && !old.f().blocks().dom().contains(b) implies (
        self.builder@.sealed.contains(b) <==> !open.union(more).contains(b)) by {
            if mid.f().blocks().dom().contains(b) {
                assert(self.builder@.sealed.contains(b) <==> mid.builder@.sealed.contains(b));
            }
        }
    }

    /// True if the value `v` is a constant or the result of a live
    /// instruction that was not removed.
    pub open spec fn holds(&self, v: Value) -> bool {
        match v {
            Value::Dest(i) => self.f()@.good(i),
            Value::Imm(_) => true,
        }
    }

    /// True if every instruction that was not removed in `old` is not
    /// removed in this state.
    pub open spec fn lasts(&self, old: &FuncCompiler) -> bool {
        forall|j: InstId| old.f()@.good(j) ==> #[trigger] self.f()@.good(j)
    }

    /// The instructions of the function, together with the phis that
    /// reading its variables can still place.
    pub open spec fn used(&self) -> nat {
        self.builder.size() + self.builder@.need(self.vars@)
    }

    /// True if there is room for `insts` more instructions and `blocks`
    /// more blocks, with the phis that the new blocks can need.
    pub open spec fn room(&self, insts: nat, blocks: nat) -> bool {
        &&& self.used() + insts + self.vars@.len() * blocks <= u32::MAX
        &&& self.builder.width() + blocks <= u32::MAX
    }

    /// True if this state can come from `old` by building something that
    /// takes at most `insts` instructions and `blocks` blocks: the
    /// invariant holds, blocks are only added, and no more room is used
    /// than that.
    pub open spec fn after(&self, old: &FuncCompiler, insts: nat, blocks: nat) -> bool {
        &&& self.inv()
        &&& self.vars@ == old.vars@
        &&& self.used() <= old.used() + insts + old.vars@.len() * blocks
        &&& self.builder.width() <= old.builder.width() + blocks
        &&& old.f().blocks().dom().subset_of(self.f().blocks().dom())
        &&& old.builder@.filled.subset_of(self.builder@.filled)
        &&& self.f()@.first_block == old.f()@.first_block
        &&& self.f()@.ty == old.f()@.ty
        &&& self.f()@.name == old.f()@.name
    }

    /// Room for two things is room for the first and then room for the
    /// second.
    pub proof fn lemma_room_split(&self, na: nat, ma: nat, nb: nat, mb: nat)
        requires
            self.room(na + nb, ma + mb),
        ensures
            self.room(na, ma),
            self.vars@.len() * (ma + mb) == self.vars@.len() * ma + self.vars@.len() * mb,
    {
        let n = self.vars@.len();
        assert(n * (ma + mb) == n * ma + n * mb) by (nonlinear_arith);
        assert(n * mb >= 0) by (nonlinear_arith)
            requires
                n >= 0,
                mb >= 0,
        ;
    }

    /// What is left of the room after a part of it was used.
    pub proof fn lemma_room_left(&self, old: &FuncCompiler, na: nat, ma: nat, nb: nat, mb: nat)
        requires
            old.room(na + nb, ma + mb),
            self.after(old, na, ma),
        ensures
            self.room(nb, mb),
    {
        let n = old.vars@.len();
        assert(n * (ma + mb) == n * ma + n * mb) by (nonlinear_arith);
    }

    /// Building one thing after another is building both.
    pub proof fn lemma_after_both(&self, mid: &FuncCompiler, old: &FuncCompiler, na: nat, ma: nat, nb: nat, mb: nat)
        requires
            mid.after(old, na, ma),
            self.after(mid, nb, mb),
        ensures
            self.after(old, na + nb, ma + mb),
    {
        let n = old.vars@.len();
        assert(n * (ma + mb) == n * ma + n * mb) by (nonlinear_arith);
    }

    /// Building less is building at most more.
    pub proof fn lemma_after_more(&self, old: &FuncCompiler, na: nat, ma: nat, nb: nat, mb: nat)
        requires
            self.after(old, na, ma),
            na <= nb,
            ma <= mb,
        ensures
            self.after(old, nb, mb),
    {
        let n = old.vars@.len();
        assert(n * ma <= n * mb) by (nonlinear_arith)
            requires
                n >= 0,
                ma <= mb,
        ;
    }

    /// One more step: what was built before and what the step built are
    /// built now, and the rest of the room is left.
    pub proof fn lemma_step(
        &self,
        prev: &FuncCompiler,
        old: &FuncCompiler,
        ci: nat,
        cb: nat,
        di: nat,
        db: nat,
        ti: nat,
        tb: nat,
    )
        requires
            prev.after(old, ci, cb),
            self.after(prev, di, db),
            old.room(ti, tb),
            ci + di <= ti,
            cb + db <= tb,
        ensures
            self.after(old, ci + di, cb + db),
            self.after(old, ti, tb),
            self.room((ti - (ci + di)) as nat, (tb - (cb + db)) as nat),
    {
        let n = old.vars@.len();
        assert(n * (cb + db) == n * cb + n * db) by (nonlinear_arith);
        assert(n * tb == n * (cb + db) + n * ((tb - (cb + db)) as nat)) by (nonlinear_arith)
            requires
                cb + db <= tb,
        ;
        assert(n * ((tb - (cb + db)) as nat) >= 0) by (nonlinear_arith)
            requires
                n >= 0,
        ;
    }

    /// Room for more is room for less.
    pub proof fn lemma_room_less(&self, na: nat, ma: nat, nb: nat, mb: nat)
        requires
            self.room(na, ma),
            nb <= na,
            mb <= ma,
        ensures
            self.room(nb, mb),
    {
        let n = self.vars@.len();
        assert(n * mb <= n * ma) by (nonlinear_arith)
            requires
                n >= 0,
                mb <= ma,
        ;
    }

    /// A state comes from itself by building nothing.
    pub proof fn lemma_after_none(&self)
        requires
            self.inv(),
        ensures
            self.after(self, 0, 0),
    {
        assert(self.vars@.len() * 0 == 0) by (nonlinear_arith);
    }

    /// A compiler for `func` with the variables `vars`. The cursor is at
    /// the start of the first block, which is sealed.
    ///
    /// The function must be as a function is before its body is built:
    /// every operand and every branch target is live, and no phi stands in
    /// a block. The compiler answers for the operands of the phis that it
    /// places, and it knows no variable that a phi of another origin
    /// stands for.
    pub fn new(func: &'a mut TacFunc, vars: Vec<Variable>) -> (r: FuncCompiler<'a>)
        requires
            old(func).wf(),
            old(func)@.first_block.is_some(),
            old(func)@.refs_ok(),
            old(func)@.targets_live(),
            forall|i: InstId, bb: BBId| !(old(func)@.is_phi(i) && #[trigger] old(func)@.in_block(i, bb)),
        ensures
            r.inv(),
            r.vars@ == vars@,
            r.f() == *old(func),
            *final(r.builder.editor.func) == *final(func),
            r.builder@ == (BuilderView {
                func: old(func)@,
                cursor: Cursor {
                    bb: old(func)@.first_block.unwrap(),
                    idx: old(func)@.head(old(func)@.first_block.unwrap()),
                },
                defs: Map::empty(),
                sealed: set![old(func)@.first_block.unwrap()],
                filled: Set::empty(),
                pending: Seq::empty(),
                filling: Seq::empty(),
            }),
    {
        let first = func.starting_block().unwrap();
        let mut builder = FuncBuilder::new(func);
        builder.sealed.insert(first);
        proof {
            assert(builder@.sealed =~= set![first]);
        }
        FuncCompiler { builder, vars }
    }

    /// The block under the cursor.
    pub fn current_bb(&self) -> (r: BBId)
        ensures
            r == self.builder@.cursor.bb,
    {
        self.builder.editor.current_bb()
    }

    /// Stores `inst` behind the cursor.
    fn emit(&mut self, inst: Inst) -> (id: InstId)
        requires
            old(self).inv(),
            old(self).room(1, 0),
            old(self).f()@.accepts(inst),
            !(inst.kind is Phi),
        ensures
            final(self).f()@.jumps == old(self).f()@.jumps,
            old(self).f()@.same_edges(final(self).f()@),
            old(self).builder@.emits(final(self).builder@, id, inst),
            final(self).f()@.good(id),
            final(self).lasts(old(self)),
            *final(final(self).builder.editor.func) == *final(old(self).builder.editor.func),
            final(self).after(old(self), 1, 0),
            final(self).f().blocks().dom() == old(self).f().blocks().dom(),
            final(self).builder@.cursor.bb == old(self).builder@.cursor.bb,
            final(self).builder@.sealed == old(self).builder@.sealed,
            final(self).f().has_inst(id),
            final(self).f()@.insts[id] == inst,
    {
        let ghost v0 = self.builder@;
        proof {
            self.builder.editor.func.lemma_wf();
            assert(self.vars@.len() * 0 == 0) by (nonlinear_arith);
        }
        let id = self.builder.editor.insert_after_current_place(inst);
        proof {
            old(self).builder.editor.func.lemma_wf();
            self.builder.editor.func.lemma_wf();
            lemma_targets_same(old(self).f()@, self.f()@);
            self.builder.editor.func.lemma_wf();
            assert(self.builder@.func.chains.dom() =~= v0.func.chains.dom());
            lemma_need_shrinks(v0, self.builder@, self.vars@);
            lemma_put_refs(v0.func, self.builder@.func, id, inst);
            old(self).builder.editor.func.lemma_wf();
            lemma_placed_once(&*old(self).builder.editor.func);
            if let Some(c) = old(self).builder.editor.current_idx {
                old(self).builder.editor.func.lemma_home(c);
            }
            lemma_tidy_put(v0, self.builder@, v0.cursor.bb, old(self).builder.editor.slot_after(), id, inst);
            lemma_lean_new(
                v0,
                self.builder@,
                v0.cursor.bb,
                old(self).builder.editor.slot_after(),
                id,
                inst,
                Set::empty(),
            );
            lemma_at_rest(v0, self.builder@, None);
            assert forall|key: (Variable, BBId)| self.builder@.defs.dom().contains(key) implies self.builder@.func.good(
                #[trigger] self.builder@.defs[key],
            ) by {
                assert(v0.func.good(v0.defs[key]));
            }
        }
        id
    }

    /// Reads the variable `var` in the block under the cursor.
    fn read(&mut self, var: Variable) -> (r: InstId)
        requires
            old(self).inv(),
            old(self).vars@.contains(var),
            old(self).room(0, 0),
        ensures
            final(self).f()@.jumps == old(self).f()@.jumps,
            old(self).f()@.same_edges(final(self).f()@),
            old(self).builder@.reads(final(self).builder@, var),
            Value::Dest(r) == final(self).builder@.value_of(var),
            final(self).f()@.good(r),
            final(self).lasts(old(self)),
            *final(final(self).builder.editor.func) == *final(old(self).builder.editor.func),
            final(self).after(old(self), 0, 0),
            final(self).f().blocks().dom() == old(self).f().blocks().dom(),
            final(self).builder@.cursor.bb == old(self).builder@.cursor.bb,
            final(self).builder@.sealed == old(self).builder@.sealed,
    {
        let ghost v0 = self.builder@;
        let ghost at0 = self.builder.size();
        proof {
            self.builder.editor.func.lemma_wf();
            assert(self.vars@.len() * 0 == 0) by (nonlinear_arith);
            lemma_need_covers(v0, self.vars@, var);
        }
        let bb = self.builder.editor.current_bb();
        let r = self.builder.read_variable(var, bb);
        proof {
            old(self).builder.editor.func.lemma_wf();
            self.builder.editor.func.lemma_wf();
            lemma_targets_same(old(self).f()@, self.f()@);
            self.builder.editor.func.lemma_wf();
            lemma_need_credit(v0, self.builder@, self.vars@, var, at0, self.builder.size());
            lemma_at_rest(v0, self.builder@, None);
            assert forall|k: int| 0 <= k < self.builder@.pending.len() implies self.vars@.contains(
                (#[trigger] self.builder@.pending[k]).var,
            ) by {
                let p = self.builder@.pending[k];
                if p.var != var {
                    assert(v0.pending.contains(p));
                    let j = choose|j: int| 0 <= j < v0.pending.len() && v0.pending[j] == p;
                    assert(self.vars@.contains(v0.pending[j].var));
                }
            }
        }
        r
    }

    /// Makes `inst` the definition of `var` in the block under the cursor.
    /// Nothing else of the builder changes.
    fn write(&mut self, var: Variable, inst: InstId)
        requires
            old(self).inv(),
            old(self).f()@.good(inst),
        ensures
            final(self).builder@ == (BuilderView {
                defs: old(self).builder@.defs.insert((var, old(self).builder@.cursor.bb), inst),
                ..old(self).builder@
            }),
            final(self).vars == old(self).vars,
            final(self).lasts(old(self)),
            *final(final(self).builder.editor.func) == *final(old(self).builder.editor.func),
            final(self).after(old(self), 0, 0),
            final(self).f() == old(self).f(),
            final(self).builder.editor == old(self).builder.editor,
            final(self).builder@.sealed == old(self).builder@.sealed,
    {
        let ghost v0 = self.builder@;
        proof {
            self.builder.editor.func.lemma_wf();
            assert(self.vars@.len() * 0 == 0) by (nonlinear_arith);
        }
        let bb = self.builder.editor.current_bb();
        self.builder.write_variable(var, bb, inst);
        proof {
            lemma_need_shrinks(v0, self.builder@, self.vars@);
            lemma_at_rest(v0, self.builder@, None);
        }
    }

    /// Adds an empty block.
    fn open_block(&mut self) -> (id: BBId)
        requires
            old(self).inv(),
            old(self).room(0, 1),
        ensures
            old(self).f()@.same_edges(final(self).f()@),
            !old(self).builder@.func.chains.dom().contains(id),
            final(self).builder@ == old(self).builder@.with_block(id),
            !final(self).sealed(id),
            final(self).f().blocks().dom() == old(self).f().blocks().dom().insert(id),
            final(self).lasts(old(self)),
            *final(final(self).builder.editor.func) == *final(old(self).builder.editor.func),
            final(self).after(old(self), 0, 1),
            !old(self).f().has_bb(id),
            final(self).f().has_bb(id),
            final(self).builder@.cursor == old(self).builder@.cursor,
            final(self).builder@.sealed == old(self).builder@.sealed,
    {
        let ghost v0 = self.builder@;
        proof {
            self.builder.editor.func.lemma_wf();
            assert(self.vars@.len() * 1 == self.vars@.len()) by (nonlinear_arith);
        }
        let id = self.builder.editor.new_bb();
        proof {
            old(self).builder.editor.func.lemma_wf();
            self.builder.editor.func.lemma_wf();
            lemma_targets_same(old(self).f()@, self.f()@);
            self.builder.editor.func.lemma_wf();
            assert(self.builder@.func.chains.dom() =~= v0.func.chains.dom().insert(id));
            lemma_need_new_block(v0, self.builder@, self.vars@, id);
            lemma_block_refs(v0.func, self.builder@.func, id);
            old(self).builder.editor.func.lemma_wf();
            lemma_tidy_block(v0, self.builder@, id);
            lemma_lean_blocks(v0, self.builder@, Set::empty());
            lemma_at_rest(v0, self.builder@, None);
            if self.sealed(id) {
                assert(v0.func.chains.dom().contains(id));
            }
            assert forall|key: (Variable, BBId)| self.builder@.defs.dom().contains(key) implies self.builder@.func.good(
                #[trigger] self.builder@.defs[key],
            ) by {
                assert(v0.func.good(v0.defs[key]));
            }
        }
        id
    }

    /// Adds `branch` to the live block `bb`.
    fn branch(&mut self, branch: Branch, bb: BBId)
        requires
            old(self).inv(),
            old(self).f().has_bb(bb),
            forall|j: InstId| branch.uses(j) ==> old(self).f()@.good(j),
            branch.target() matches Some(t) ==> old(self).f().has_bb(t) && !old(self).sealed(t),
        ensures
            old(self).f()@.adds(final(self).f()@, bb, match branch.target() {
                Some(t) => seq![t],
                None => Seq::empty(),
            }),
            final(self).builder@ == old(self).builder@.with_jump(bb, branch),
            final(self).lasts(old(self)),
            *final(final(self).builder.editor.func) == *final(old(self).builder.editor.func),
            final(self).after(old(self), 0, 0),
            final(self).f().blocks().dom() == old(self).f().blocks().dom(),
            final(self).builder@.cursor == old(self).builder@.cursor,
            final(self).builder@.sealed == old(self).builder@.sealed,
            final(self).f()@ == old(self).f()@.with_branch(bb, branch),
    {
        let ghost v0 = self.builder@;
        proof {
            self.builder.editor.func.lemma_wf();
            assert(self.vars@.len() * 0 == 0) by (nonlinear_arith);
        }
        let r = self.builder.editor.add_branch(branch, bb);
        proof {
            self.builder.editor.func.lemma_wf();
            assert(self.builder@.func.chains.dom() =~= v0.func.chains.dom());
            lemma_need_shrinks(v0, self.builder@, self.vars@);
            old(self).builder.editor.func.lemma_wf();
            lemma_branch_refs(v0.func, self.builder@.func, bb, branch);
            lemma_targets_push(v0.func.jumps[bb], branch);
            assert(v0.func.jumps.dom().contains(bb));
            match branch.target() {
                Some(t) => {
                    assert(v0.func.succ(bb).push(t) =~= v0.func.succ(bb) + seq![t]);
                },
                None => {
                    assert(v0.func.succ(bb) + Seq::<BBId>::empty() =~= v0.func.succ(bb));
                },
            }
            assert(self.builder@.func.succ(bb) == v0.func.succ(bb) + (match branch.target() {
                Some(t) => seq![t],
                None => Seq::empty(),
            }));
            lemma_targets_adds(v0.func, self.builder@.func, bb, match branch.target() {
                Some(t) => seq![t],
                None => Seq::empty(),
            });
            lemma_tidy_branch(v0, self.builder@, bb, branch);
            lemma_lean_blocks(v0, self.builder@, Set::empty());
            lemma_at_rest(v0, self.builder@, None);
            assert forall|key: (Variable, BBId)| self.builder@.defs.dom().contains(key) implies self.builder@.func.good(
                #[trigger] self.builder@.defs[key],
            ) by {
                assert(v0.func.good(v0.defs[key]));
            }
        }
    }

    /// Seals `bb`.
    fn seal(&mut self, bb: BBId)
        requires
            old(self).inv(),
            old(self).f().has_bb(bb),
            old(self).room(0, 0),
        ensures
            old(self).f()@.same_edges(final(self).f()@),
            old(self).builder@.seals(final(self).builder@, bb),
            *final(final(self).builder.editor.func) == *final(old(self).builder.editor.func),
            final(self).after(old(self), 0, 0),
            final(self).f().blocks().dom() == old(self).f().blocks().dom(),
            final(self).builder@.cursor.bb == old(self).builder@.cursor.bb,
            final(self).builder@.sealed == old(self).builder@.sealed.insert(bb),
    {
        let ghost v0 = self.builder@;
        proof {
            self.builder.editor.func.lemma_wf();
            assert(self.vars@.len() * 0 == 0) by (nonlinear_arith);
            assert(v0.waits_in(bb, self.vars@));
        }
        self.builder.seal_block(bb);
        proof {
            self.builder.editor.func.lemma_wf();
            old(self).builder.editor.func.lemma_wf();
            lemma_targets_same(old(self).f()@, self.f()@);
            assert(self.builder.size() + self.builder@.need(self.vars@) <= old(self).builder.size() + v0.need(
                self.vars@,
            ));
            old(self).builder.editor.func.lemma_wf();
            lemma_at_rest(v0, self.builder@, Some(bb));
            assert forall|k: int| 0 <= k < self.builder@.pending.len() implies self.vars@.contains(
                (#[trigger] self.builder@.pending[k]).var,
            ) by {
                let p = self.builder@.pending[k];
                let j = choose|j: int| 0 <= j < v0.pending.len() && (#[trigger] v0.pending[j]).var == p.var;
                assert(self.vars@.contains(v0.pending[j].var));
            }
        }
    }

    /// Records that `bb` takes no more instructions. Nothing else of the
    /// builder changes.
    fn fill(&mut self, bb: BBId)
        requires
            old(self).inv(),
        ensures
            final(self).builder@ == (BuilderView {
                filled: old(self).builder@.filled.insert(bb),
                ..old(self).builder@
            }),
            final(self).vars == old(self).vars,
            final(self).lasts(old(self)),
            *final(final(self).builder.editor.func) == *final(old(self).builder.editor.func),
            final(self).after(old(self), 0, 0),
            final(self).f() == old(self).f(),
            final(self).builder.editor == old(self).builder.editor,
            final(self).builder@.sealed == old(self).builder@.sealed,
    {
        let ghost v0 = self.builder@;
        proof {
            self.builder.editor.func.lemma_wf();
            assert(self.vars@.len() * 0 == 0) by (nonlinear_arith);
        }
        self.builder.mark_filled(bb);
        proof {
            lemma_need_shrinks(v0, self.builder@, self.vars@);
            lemma_at_rest(v0, self.builder@, None);
        }
    }

    /// Moves the cursor to the end of the live block `bb`.
    fn goto(&mut self, bb: BBId)
        requires
            old(self).inv(),
            old(self).f().has_bb(bb),
        ensures
            old(self).f()@.same_edges(final(self).f()@),
            final(self).builder@ == old(self).builder@.at_end_of(bb),
            final(self).lasts(old(self)),
            *final(final(self).builder.editor.func) == *final(old(self).builder.editor.func),
            final(self).after(old(self), 0, 0),
            final(self).f() == old(self).f(),
            final(self).builder@.cursor.bb == bb,
            final(self).builder@.sealed == old(self).builder@.sealed,
    {
        let ghost v0 = self.builder@;
        proof {
            self.builder.editor.func.lemma_wf();
            assert(self.vars@.len() * 0 == 0) by (nonlinear_arith);
        }
        let r = self.builder.editor.set_current_bb(bb);
        proof {
            old(self).builder.editor.func.lemma_wf();
            self.builder.editor.func.lemma_wf();
            lemma_targets_same(old(self).f()@, self.f()@);
            lemma_need_shrinks(v0, self.builder@, self.vars@);
            lemma_tidy_same(v0, self.builder@, None);
            lemma_lean_same(v0, self.builder@, Set::empty());
            lemma_at_rest(v0, self.builder@, None);
        }
    }

    /// True if `r` is what building an expression of type `ty` and constant
    /// value `constant` gives: the type or the mismatch, and the constant
    /// itself or the result of an instruction.
    pub open spec fn valued(r: Result<(Value, Ty), Error>, ty: Result<Ty, Error>, constant: Option<i64>) -> bool {
        match r {
            Ok((v, t)) => ty == Ok::<Ty, Error>(t) && (match constant {
                Some(k) => v == Value::Imm(k),
                None => v is Dest,
            }),
            Err(e) => ty == Err::<Ty, Error>(e),
        }
    }

    /// A literal: its value, of the integer type.
    pub fn visit_literal_expr(&mut self, expr: &LiteralExpr) -> (r: Result<(Value, Ty), Error>)
        ensures
            *final(final(self).builder.editor.func) == *final(old(self).builder.editor.func),
            *final(self) == *old(self),
            r == Ok::<(Value, Ty), Error>((Value::Imm(expr.kind.value()), Ty::I64)),
    {
        Ok((Value::Imm(literal_value(expr.kind)), Ty::I64))
    }

    /// A variable: the instruction that holds its value in the block under
    /// the cursor.
    pub fn visit_ident_expr(&mut self, var: &Variable) -> (r: Result<(Value, Ty), Error>)
        requires
            old(self).inv(),
            old(self).vars@.contains(*var),
            old(self).room(0, 0),
        ensures
            final(self).f()@.jumps == old(self).f()@.jumps,
            old(self).f()@.same_edges(final(self).f()@),
            old(self).builder@.reads(final(self).builder@, *var),
            r == Ok::<(Value, Ty), Error>((final(self).builder@.value_of(*var), var.ty)),
            r matches Ok((v, _)) ==> final(self).holds(v),
            final(self).lasts(old(self)),
            *final(final(self).builder.editor.func) == *final(old(self).builder.editor.func),
            final(self).after(old(self), 0, 0),
            final(self).f().blocks().dom() == old(self).f().blocks().dom(),
            final(self).builder@.cursor.bb == old(self).builder@.cursor.bb,
            final(self).builder@.sealed == old(self).builder@.sealed,
            r matches Ok((v, t)) && v is Dest && t == var.ty,
    {
        let inst = self.read(*var);
        Ok((Value::Dest(inst), var.ty))
    }

    /// A binary expression: both sides in order, then one instruction on
    /// their values. The two sides must have the same type, which is the
    /// type of the result.
    pub fn visit_binary_expr(&mut self, expr: &BinaryExpr) -> (r: Result<(Value, Ty), Error>)
        requires
            old(self).inv(),
            expr.within(old(self).vars@),
            old(self).room(expr.cost(), 0),
        ensures
            final(self).f()@.jumps == old(self).f()@.jumps,
            old(self).f()@.same_edges(final(self).f()@),
            match r {
                Ok((Value::Dest(v), t)) => {
                    &&& final(self).builder@.cursor.idx == Some(v)
                    &&& final(self).builder@.func.insts[v].ty == t
                    &&& final(self).builder@.func.insts[v].kind matches InstKind::Binary(b) && b.op == lowered_op(
                        expr.op,
                    )
                },
                _ => true,
            },
            expr.builds(old(self).builder@, final(self).builder@, r),
            r matches Ok((v, _)) ==> final(self).holds(v),
            final(self).lasts(old(self)),
            *final(final(self).builder.editor.func) == *final(old(self).builder.editor.func),
            final(self).after(old(self), expr.cost(), 0),
            final(self).f().blocks().dom() == old(self).f().blocks().dom(),
            final(self).builder@.cursor.bb == old(self).builder@.cursor.bb,
            final(self).builder@.sealed == old(self).builder@.sealed,
            Self::valued(r, expr.ty(), None),
        decreases expr,
    {
        let ghost at0 = *self;
        proof {
            self.lemma_room_split(expr.lhs.cost(), 0, expr.rhs.cost() + 1, 0);
        }
        let (lhsv, lhst) = match self.visit_expr(&expr.lhs) {
            Ok(x) => x,
            Err(e) => {
                proof {
                    self.lemma_after_more(&at0, expr.lhs.cost(), 0, expr.cost(), 0);
                    assert(step(self.builder@, Err::<(Value, Ty), Error>(e)));
                }
                return Err(e);
            },
        };
        let ghost at1 = *self;
        proof {
            assert(step(at1.builder@, Ok::<(Value, Ty), Error>((lhsv, lhst))));
            at1.lemma_room_left(&at0, expr.lhs.cost(), 0, expr.rhs.cost() + 1, 0);
            at1.lemma_room_split(expr.rhs.cost(), 0, 1, 0);
        }
        let (rhsv, rhst) = match self.visit_expr(&expr.rhs) {
            Ok(x) => x,
            Err(e) => {
                proof {
                    self.lemma_after_both(&at1, &at0, expr.lhs.cost(), 0, expr.rhs.cost(), 0);
                    self.lemma_after_more(&at0, expr.lhs.cost() + expr.rhs.cost(), 0, expr.cost(), 0);
                    assert(step(self.builder@, Err::<(Value, Ty), Error>(e)));
                }
                return Err(e);
            },
        };
        let ghost at2 = *self;
        proof {
            assert(step(at2.builder@, Ok::<(Value, Ty), Error>((rhsv, rhst))));
            at2.lemma_room_left(&at1, expr.rhs.cost(), 0, 1, 0);
            at2.lemma_after_both(&at1, &at0, expr.lhs.cost(), 0, expr.rhs.cost(), 0);
        }
        match assert_type_eq(&lhst, &rhst) {
            Ok(_) => {},
            Err(e) => {
                proof {
                    self.lemma_after_more(&at0, expr.lhs.cost() + expr.rhs.cost(), 0, expr.cost(), 0);
                }
                return Err(e);
            },
        }
        let v = self.emit(
            Inst { kind: InstKind::Binary(BinaryInst { op: lower_op(expr.op), lhs: lhsv, rhs: rhsv }), ty: lhst },
        );
        proof {
            self.lemma_after_both(&at2, &at0, expr.lhs.cost() + expr.rhs.cost(), 0, 1, 0);
        }
        Ok((Value::Dest(v), lhst))
    }

    /// A unary expression: `-x` is `0 - x`, and `+x` is `x`.
    pub fn visit_unary_expr(&mut self, expr: &UnaryExpr) -> (r: Result<(Value, Ty), Error>)
        requires
            old(self).inv(),
            expr.within(old(self).vars@),
            old(self).room(expr.cost(), 0),
        ensures
            final(self).f()@.jumps == old(self).f()@.jumps,
            old(self).f()@.same_edges(final(self).f()@),
            match r {
                Ok((Value::Dest(v), t)) => expr.op is Neg ==> {
                    &&& final(self).builder@.cursor.idx == Some(v)
                    &&& final(self).builder@.func.insts[v].ty == t
                    &&& final(self).builder@.func.insts[v].kind matches InstKind::Binary(b) && b.op == BinaryOp::Sub
                        && b.lhs == Value::Imm(0)
                },
                _ => true,
            },
            expr.builds(old(self).builder@, final(self).builder@, r),
            r matches Ok((v, _)) ==> final(self).holds(v),
            final(self).lasts(old(self)),
            *final(final(self).builder.editor.func) == *final(old(self).builder.editor.func),
            final(self).after(old(self), expr.cost(), 0),
            final(self).f().blocks().dom() == old(self).f().blocks().dom(),
            final(self).builder@.cursor.bb == old(self).builder@.cursor.bb,
            final(self).builder@.sealed == old(self).builder@.sealed,
            Self::valued(r, expr.ty(), expr.constant()),
        decreases expr,
    {
        let ghost at0 = *self;
        proof {
            self.lemma_room_split(expr.expr.cost(), 0, 1, 0);
        }
        let (v, t) = match self.visit_expr(&expr.expr) {
            Ok(x) => x,
            Err(e) => {
                proof {
                    self.lemma_after_more(&at0, expr.expr.cost(), 0, expr.cost(), 0);
                    assert(step(self.builder@, Err::<(Value, Ty), Error>(e)));
                }
                return Err(e);
            },
        };
        let ghost at1 = *self;
        proof {
            assert(step(at1.builder@, Ok::<(Value, Ty), Error>((v, t))));
            at1.lemma_room_left(&at0, expr.expr.cost(), 0, 1, 0);
        }
        match expr.op {
            UnaryOp::Neg => {
                let v = self.emit(
                    Inst {
                        kind: InstKind::Binary(BinaryInst { op: BinaryOp::Sub, lhs: Value::Imm(0), rhs: v }),
                        ty: t,
                    },
                );
                proof {
                    self.lemma_after_both(&at1, &at0, expr.expr.cost(), 0, 1, 0);
                }
                Ok((Value::Dest(v), t))
            },
            UnaryOp::Pos => {
                proof {
                    self.lemma_after_more(&at0, expr.expr.cost(), 0, expr.cost(), 0);
                }
                Ok((v, t))
            },
        }
    }

    /// A conversion: the value as it is.
    pub fn visit_as_expr(&mut self, expr: &AsExpr) -> (r: Result<(Value, Ty), Error>)
        requires
            old(self).inv(),
            expr.within(old(self).vars@),
            old(self).room(expr.cost(), 0),
        ensures
            final(self).f()@.jumps == old(self).f()@.jumps,
            old(self).f()@.same_edges(final(self).f()@),
            expr.builds(old(self).builder@, final(self).builder@, r),
            r matches Ok((v, _)) ==> final(self).holds(v),
            final(self).lasts(old(self)),
            *final(final(self).builder.editor.func) == *final(old(self).builder.editor.func),
            final(self).after(old(self), expr.cost(), 0),
            final(self).f().blocks().dom() == old(self).f().blocks().dom(),
            final(self).builder@.cursor.bb == old(self).builder@.cursor.bb,
            final(self).builder@.sealed == old(self).builder@.sealed,
            Self::valued(r, expr.ty(), expr.constant()),
        decreases expr,
    {
        self.visit_expr(&expr.val)
    }

    /// An assignment: the right side, whose value becomes the definition of
    /// the variable in the block under the cursor. A constant is stored by
    /// an instruction of its own first. The variable and the value must
    /// have the same type.
    pub fn visit_assign_expr(&mut self, expr: &AssignExpr) -> (r: Result<(Value, Ty), Error>)
        requires
            old(self).inv(),
            expr.within(old(self).vars@),
            old(self).room(expr.cost(), 0),
        ensures
            final(self).f()@.jumps == old(self).f()@.jumps,
            old(self).f()@.same_edges(final(self).f()@),
            expr.builds(old(self).builder@, final(self).builder@, r),
            r matches Ok((v, _)) ==> final(self).holds(v),
            final(self).lasts(old(self)),
            *final(final(self).builder.editor.func) == *final(old(self).builder.editor.func),
            final(self).after(old(self), expr.cost(), 0),
            final(self).f().blocks().dom() == old(self).f().blocks().dom(),
            final(self).builder@.cursor.bb == old(self).builder@.cursor.bb,
            final(self).builder@.sealed == old(self).builder@.sealed,
            Self::valued(r, expr.ty(), None),
        decreases expr,
    {
        let ghost at0 = *self;
        proof {
            self.lemma_room_split(expr.rhs.cost(), 0, 1, 0);
        }
        let (v, t) = match self.visit_expr(&expr.rhs) {
            Ok(x) => x,
            Err(e) => {
                proof {
                    self.lemma_after_more(&at0, expr.rhs.cost(), 0, expr.cost(), 0);
                    assert(step(self.builder@, Err::<(Value, Ty), Error>(e)));
                }
                return Err(e);
            },
        };
        let ghost at1 = *self;
        proof {
            assert(step(at1.builder@, Ok::<(Value, Ty), Error>((v, t))));
            at1.lemma_room_left(&at0, expr.rhs.cost(), 0, 1, 0);
        }
        match assert_type_eq(&expr.lhs.ty, &t) {
            Ok(_) => {},
            Err(e) => {
                proof {
                    self.lemma_after_more(&at0, expr.rhs.cost(), 0, expr.cost(), 0);
                }
                return Err(e);
            },
        }
        let inst = self.define(expr.lhs, v, t);
        proof {
            self.lemma_after_both(&at1, &at0, expr.rhs.cost(), 0, 1, 0);
        }
        Ok((Value::Dest(inst), t))
    }

    /// Makes the value `v` of type `t` the definition of `var` in the block
    /// under the cursor. A constant is stored by an instruction of its own
    /// first.
    fn define(&mut self, var: Variable, v: Value, t: Ty) -> (inst: InstId)
        requires
            old(self).inv(),
            old(self).room(1, 0),
            old(self).holds(v),
        ensures
            final(self).f()@.jumps == old(self).f()@.jumps,
            old(self).f()@.same_edges(final(self).f()@),
            old(self).builder@.defines(final(self).builder@, var, v, t, inst),
            final(self).f()@.good(inst),
            final(self).lasts(old(self)),
            *final(final(self).builder.editor.func) == *final(old(self).builder.editor.func),
            final(self).after(old(self), 1, 0),
            final(self).f().blocks().dom() == old(self).f().blocks().dom(),
            final(self).builder@.cursor.bb == old(self).builder@.cursor.bb,
            final(self).builder@.sealed == old(self).builder@.sealed,
    {
        let ghost at0 = *self;
        let inst = match v {
            Value::Dest(i) => {
                proof {
                    assert(self.vars@.len() * 0 == 0) by (nonlinear_arith);
                }
                i
            },
            Value::Imm(_) => self.emit(Inst { kind: InstKind::Assign(v), ty: t }),
        };
        let ghost at1 = *self;
        self.write(var, inst);
        proof {
            if v is Dest {
                self.lemma_after_more(&at0, 0, 0, 1, 0);
            } else {
                self.lemma_after_both(&at1, &at0, 1, 0, 0, 0);
            }
        }
        inst
    }

    /// Builds an expression. Returns its value and its type, or the first
    /// mismatch of types in it.
    pub fn visit_expr(&mut self, expr: &Expr) -> (r: Result<(Value, Ty), Error>)
        requires
            old(self).inv(),
            expr.within(old(self).vars@),
            old(self).room(expr.cost(), 0),
        ensures
            final(self).f()@.jumps == old(self).f()@.jumps,
            old(self).f()@.same_edges(final(self).f()@),
            expr.builds(old(self).builder@, final(self).builder@, r),
            r matches Ok((v, _)) ==> final(self).holds(v),
            final(self).lasts(old(self)),
            *final(final(self).builder.editor.func) == *final(old(self).builder.editor.func),
            final(self).after(old(self), expr.cost(), 0),
            final(self).f().blocks().dom() == old(self).f().blocks().dom(),
            final(self).builder@.cursor.bb == old(self).builder@.cursor.bb,
            final(self).builder@.sealed == old(self).builder@.sealed,
            Self::valued(r, expr.ty(), expr.constant()),
        decreases expr,
    {
        match expr {
            Expr::Literal(l) => {
                proof {
                    assert(self.vars@.len() * 0 == 0) by (nonlinear_arith);
                }
                self.visit_literal_expr(l)
            },
            Expr::Ident(var) => self.visit_ident_expr(var),
            Expr::Binary(b) => self.visit_binary_expr(b),
            Expr::Unary(u) => self.visit_unary_expr(u),
            Expr::As(a) => self.visit_as_expr(a),
            Expr::Assign(a) => self.visit_assign_expr(a),
        }
    }

    /// Ends an arm of a conditional or the body of a loop: the block under
    /// the cursor jumps to `target` and is filled.
    fn close_arm(&mut self, target: BBId)
        requires
            old(self).inv(),
            old(self).f().has_bb(target),
            !old(self).sealed(target),
        ensures
            old(self).f()@.adds(final(self).f()@, old(self).builder@.cursor.bb, seq![target]),
            final(self).builder@ == old(self).builder@.arm_to(target),
            final(self).builder@.filled == old(self).builder@.filled.insert(old(self).builder@.cursor.bb),
            final(self).builder@.sealed == old(self).builder@.sealed,
            final(self).builder@.cursor.bb == old(self).builder@.cursor.bb,
            *final(final(self).builder.editor.func) == *final(old(self).builder.editor.func),
            final(self).after(old(self), 0, 0),
            final(self).f().blocks().dom() == old(self).f().blocks().dom(),
    {
        let ghost at0 = *self;
        let end = self.current_bb();
        self.branch(Branch::Jump(target), end);
        let ghost at1 = *self;
        self.fill(end);
        proof {
            self.lemma_after_both(&at1, &at0, 0, 0, 0, 0);
        }
    }

    /// A `return`: the value, if there is one, then the branch that leaves
    /// the function. The block under the cursor is filled, and building
    /// goes on in a new block, which nothing jumps to.
    pub fn visit_return_stmt(&mut self, stmt: &ReturnStmt) -> (r: Result<(), Error>)
        requires
            old(self).here_sealed(),
            old(self).inv(),
            stmt.within(old(self).vars@),
            old(self).room(stmt.cost(), 1),
        ensures
            r.is_ok() ==> exists|val: Option<Value>|
                #![trigger old(self).builder@.return_shape(final(self).builder@, val)]
                old(self).builder@.return_shape(final(self).builder@, val) && (val is None <==> stmt.val is None),
            final(self).f().blocks().dom().len() == old(self).f().blocks().dom().len() + (if r.is_ok() {
                1nat
            } else {
                0nat
            }),
            stmt.builds(old(self).builder@, final(self).builder@, r),
            old(self).f()@.same_edges(final(self).f()@),
            final(self).builder@.cursor.bb == old(self).builder@.cursor.bb || !old(self).f()@.chains.dom().contains(
                final(self).builder@.cursor.bb,
            ),
            r.is_ok() ==> final(self).tracks(old(self), Set::empty()) && final(self).here_sealed(),
            *final(final(self).builder.editor.func) == *final(old(self).builder.editor.func),
            final(self).after(old(self), stmt.cost(), 1),
            r == stmt.check(),
    {
        let ghost at0 = *self;
        let ghost ti = stmt.cost();
        proof {
            self.lemma_room_less(ti, 1, ti, 0);
        }
        let val = match &stmt.val {
            Some(e) => {
                match self.visit_expr(e) {
                    Ok(x) => {
                        proof {
                            assert(step(self.builder@, Ok::<(Value, Ty), Error>(x)));
                        }
                        Some(x.0)
                    },
                    Err(err) => {
                        proof {
                            assert(step(self.builder@, Err::<(Value, Ty), Error>(err)));
                            self.lemma_after_more(&at0, ti, 0, ti, 1);
                        }
                        return Err(err);
                    },
                }
            },
            None => {
                proof {
                    self.lemma_after_none();
                }
                None
            },
        };
        let ghost at1 = *self;
        proof {
            at1.lemma_room_left(&at0, ti, 0, 0, 1);
            at1.lemma_tracks_same(&at0, &at0, Set::empty());
            at0.lemma_tracks_none();
        }
        let bb = self.current_bb();
        self.branch(Branch::Return(val), bb);
        let ghost at2 = *self;
        self.fill(bb);
        let ghost at3 = *self;
        proof {
            at2.lemma_step(&at1, &at1, 0, 0, 0, 0, 0, 1);
            at3.lemma_step(&at2, &at1, 0, 0, 0, 0, 0, 1);
        }
        let next = self.open_block();
        let ghost at4 = *self;
        proof {
            at4.lemma_step(&at3, &at1, 0, 0, 0, 1, 0, 1);
        }
        self.seal(next);
        let ghost at5 = *self;
        proof {
            at5.lemma_step(&at4, &at1, 0, 1, 0, 0, 0, 1);
        }
        self.goto(next);
        proof {
            self.lemma_step(&at5, &at1, 0, 1, 0, 0, 0, 1);
            self.lemma_after_both(&at1, &at0, ti, 0, 0, 1);
            assert(place(next, at5.builder@));
            assert(at1.builder@.gives_back(self.builder@, val, next));
            assert(at0.f()@.same_edges(self.f()@)) by {
                assert(at1.f()@.succ(bb) + Seq::<BBId>::empty() =~= at1.f()@.succ(bb));
                assert forall|b: BBId| #[trigger] self.f()@.succ(b) == at0.f()@.succ(b) by {
                    assert(at1.f()@.succ(b) == at0.f()@.succ(b));
                    assert(at2.f()@.succ(b) == at1.f()@.succ(b));
                    assert(at4.f()@.succ(b) == at3.f()@.succ(b));
                    assert(at5.f()@.succ(b) == at4.f()@.succ(b));
                }
            }
            at0.builder.editor.func.lemma_wf();
            at1.builder.editor.func.lemma_wf();
            at3.builder.editor.func.lemma_wf();
            at4.builder.editor.func.lemma_wf();
            self.builder.editor.func.lemma_wf();
            assert(self.tracks(&at0, Set::empty()));
            assert(!at4.builder@.awaited(next)) by {
                assert forall|k: int| 0 <= k < at4.builder@.pending.len() implies (#[trigger] at4.builder@.pending[k]).bb
                    != next by {
                    assert(at4.builder@.waiting_ok(k));
                }
            }
            assert(at5.builder@ == (BuilderView { sealed: at4.builder@.sealed.insert(next), ..at4.builder@ }));
            assert(at1.f()@.jumps == at0.f()@.jumps);
            assert forall|a: BBId| #[trigger] self.f()@.edge_count(a, next) == 0 by {
                lemma_no_edge_to_new(at0.f()@, a, next);
                assert(self.f()@.succ(a) == at0.f()@.succ(a));
            }
            assert(self.f()@.chains.dom() =~= at0.f()@.chains.dom().insert(next));
            assert(at0.builder@.return_shape(self.builder@, val));
        }
        Ok(())
    }

    /// An expression as a statement.
    pub fn visit_expr_stmt(&mut self, stmt: &Expr) -> (r: Result<(), Error>)
        requires
            old(self).here_sealed(),
            old(self).inv(),
            stmt.within(old(self).vars@),
            old(self).room(stmt.cost(), 0),
        ensures
            old(self).f()@.same_edges(final(self).f()@),
            final(self).builder@.cursor.bb == old(self).builder@.cursor.bb || !old(self).f()@.chains.dom().contains(
                final(self).builder@.cursor.bb,
            ),
            builds_expr(stmt, old(self).builder@, final(self).builder@, r),
            r.is_ok() ==> final(self).tracks(old(self), Set::empty()) && final(self).here_sealed(),
            *final(final(self).builder.editor.func) == *final(old(self).builder.editor.func),
            final(self).after(old(self), stmt.cost(), 0),
            r == crate::ast::check_expr(stmt),
    {
        let ghost at0 = *self;
        proof {
            self.lemma_after_none();
            self.lemma_tracks_none();
        }
        let ghost at1 = *self;
        proof {
            at1.lemma_room_left(&at0, 0, 0, stmt.cost(), 0);
        }
        let r = self.visit_expr(stmt);
        proof {
            assert(way(at1.builder@));
            assert(step(self.builder@, r));
            self.lemma_after_both(&at1, &at0, 0, 0, stmt.cost(), 0);
            self.lemma_tracks_same(&at0, &at0, Set::empty());
        }
        match r {
            Ok(_) => Ok(()),
            Err(e) => Err(e),
        }
    }

    /// A declaration: the value, if there is one, becomes the definition of
    /// the variable. The variable and the value must have the same type.
    pub fn visit_decl_stmt(&mut self, stmt: &DeclStmt) -> (r: Result<(), Error>)
        requires
            old(self).here_sealed(),
            old(self).inv(),
            stmt.within(old(self).vars@),
            old(self).room(stmt.cost(), 0),
        ensures
            old(self).f()@.same_edges(final(self).f()@),
            final(self).builder@.cursor.bb == old(self).builder@.cursor.bb || !old(self).f()@.chains.dom().contains(
                final(self).builder@.cursor.bb,
            ),
            stmt.builds(old(self).builder@, final(self).builder@, r),
            r.is_ok() ==> final(self).tracks(old(self), Set::empty()) && final(self).here_sealed(),
            *final(final(self).builder.editor.func) == *final(old(self).builder.editor.func),
            final(self).after(old(self), stmt.cost(), 0),
            r == stmt.check(),
    {
        let ghost at0 = *self;
        let ghost ti = stmt.cost();
        proof {
            self.lemma_after_none();
            self.lemma_tracks_none();
        }
        let ghost at1 = *self;
        proof {
            assert(way(at1.builder@));
            at1.lemma_room_left(&at0, 0, 0, ti, 0);
        }
        match &stmt.val {
            Some(e) => {
                proof {
                    at1.lemma_room_split(e.cost(), 0, 1, 0);
                }
                let (v, t) = match self.visit_expr(e) {
                    Ok(x) => x,
                    Err(err) => {
                        proof {
                            assert(step(self.builder@, Err::<(Value, Ty), Error>(err)));
                            self.lemma_after_more(&at1, e.cost(), 0, ti, 0);
                            self.lemma_after_both(&at1, &at0, 0, 0, ti, 0);
                        }
                        return Err(err);
                    },
                };
                let ghost at2 = *self;
                proof {
                    assert(step(at2.builder@, Ok::<(Value, Ty), Error>((v, t))));
                    at2.lemma_room_left(&at1, e.cost(), 0, 1, 0);
                    at2.lemma_after_both(&at1, &at0, 0, 0, e.cost(), 0);
                    at2.lemma_tracks_same(&at0, &at0, Set::empty());
                }
                match assert_type_eq(&stmt.var.ty, &t) {
                    Ok(_) => {},
                    Err(err) => {
                        proof {
                            self.lemma_after_more(&at0, e.cost(), 0, ti, 0);
                        }
                        return Err(err);
                    },
                }
                let _ = self.define(stmt.var, v, t);
                proof {
                    self.lemma_after_both(&at2, &at0, e.cost(), 0, 1, 0);
                    self.lemma_tracks_same(&at2, &at0, Set::empty());
                }
                Ok(())
            },
            None => {
                proof {
                    self.lemma_after_more(&at0, 0, 0, ti, 0);
                }
                Ok(())
            },
        }
    }

    /// The empty statement: nothing.
    pub fn visit_empty_stmt(&mut self) -> (r: Result<(), Error>)
        ensures
            *final(final(self).builder.editor.func) == *final(old(self).builder.editor.func),
            *final(self) == *old(self),
            r == Ok::<(), Error>(()),
    {
        Ok(())
    }

    /// A statement of any kind.
    pub fn visit_stmt(&mut self, stmt: &Stmt) -> (r: Result<(), Error>)
        requires
            old(self).here_sealed(),
            old(self).inv(),
            stmt.within(old(self).vars@),
            old(self).room(stmt.cost(), stmt.blocks()),
        ensures
            final(self).frames(old(self)),
            stmt.builds(old(self).builder@, final(self).builder@, r),
            r.is_ok() ==> final(self).tracks(old(self), Set::empty()) && final(self).here_sealed(),
            *final(final(self).builder.editor.func) == *final(old(self).builder.editor.func),
            final(self).after(old(self), stmt.cost(), stmt.blocks()),
            r == stmt.check(),
        decreases stmt, 0int,
    {
        match stmt {
            Stmt::If(i) => self.visit_if_stmt(i),
            Stmt::While(w) => self.visit_while_stmt(w),
            Stmt::Return(r) => self.visit_return_stmt(r),
            Stmt::Block(b) => self.visit_block_stmt(b),
            Stmt::Expr(e) => self.visit_expr_stmt(e),
            Stmt::Decl(d) => self.visit_decl_stmt(d),
            Stmt::Empty => {
                proof {
                    self.lemma_after_none();
                }
                self.visit_empty_stmt()
            },
        }
    }

    /// The statements of a block in order, up to the first that fails.
    pub fn visit_block_stmt(&mut self, stmt: &BlockStmt) -> (r: Result<(), Error>)
        requires
            old(self).here_sealed(),
            old(self).inv(),
            stmt.within(old(self).vars@),
            old(self).room(stmt.cost(), stmt.blocks()),
        ensures
            final(self).frames(old(self)),
            stmt.builds(old(self).builder@, final(self).builder@, r),
            r.is_ok() ==> final(self).tracks(old(self), Set::empty()) && final(self).here_sealed(),
            *final(final(self).builder.editor.func) == *final(old(self).builder.editor.func),
            final(self).after(old(self), stmt.cost(), stmt.blocks()),
            r == stmt.check(),
        decreases stmt, 1int,
    {
        let ghost at0 = *self;
        let ghost ti = stmt.cost();
        let ghost tb = stmt.blocks();
        let ghost mut ci: nat = 0;
        let ghost mut cb: nat = 0;
        let n = stmt.stmts.len();
        let mut i: usize = 0;
        proof {
            self.lemma_after_none();
            self.lemma_tracks_none();
            lemma_spares_none(at0.f()@, at0.builder@.cursor.bb);
        }
        while i < n
            invariant
                i <= n,
                at0.inv(),
                self.frames(&at0),
                n == stmt.stmts@.len(),
                at0 == *old(self),
                ti == stmt.cost(),
                tb == stmt.blocks(),
                at0.room(ti, tb),
                *final(self.builder.editor.func) == *final(old(self).builder.editor.func),
                self.after(&at0, ci, cb),
                self.here_sealed(),
                self.tracks(&at0, Set::empty()),
                ci + cost_from(stmt.stmts@, i as int) == ti,
                cb + blocks_from(stmt.stmts@, i as int) == tb,
                self.room(cost_from(stmt.stmts@, i as int), blocks_from(stmt.stmts@, i as int)),
                within_from(stmt.stmts@, i as int, at0.vars@),
                check_from(stmt.stmts@, i as int) == stmt.check(),
                built_upto(stmt.stmts@, i as int, at0.builder@, self.builder@),
            decreases n - i,
        {
            let ghost p = *self;
            let sub = &stmt.stmts[i];
            proof {
                self.lemma_room_split(
                    sub.cost(),
                    sub.blocks(),
                    cost_from(stmt.stmts@, i + 1),
                    blocks_from(stmt.stmts@, i + 1),
                );
            }
            let done = self.visit_stmt(sub);
            match done {
                Ok(_) => {
                    proof {
                        lemma_ok_unit(done);
                    }
                },
                Err(e) => {
                    proof {
                        at0.builder.editor.func.lemma_wf();
                        p.builder.editor.func.lemma_wf();
                        lemma_spares_both(
                            at0.f()@,
                            p.f()@,
                            self.f()@,
                            at0.builder@.cursor.bb,
                            p.builder@.cursor.bb,
                        );
                        assert(upto(i as int, p.builder@));
                        self.lemma_step(&p, &at0, ci, cb, sub.cost(), sub.blocks(), ti, tb);
                    }
                    return Err(e);
                },
            }
            proof {
                at0.builder.editor.func.lemma_wf();
                p.builder.editor.func.lemma_wf();
                lemma_spares_both(
                    at0.f()@,
                    p.f()@,
                    self.f()@,
                    at0.builder@.cursor.bb,
                    p.builder@.cursor.bb,
                );
                assert(way(p.builder@));
                assert(stmt.stmts@[i as int].builds(p.builder@, self.builder@, Ok::<(), Error>(())));
                assert(built_upto(stmt.stmts@, i + 1, at0.builder@, self.builder@));
                self.lemma_step(&p, &at0, ci, cb, sub.cost(), sub.blocks(), ti, tb);
                self.lemma_tracks(&p, &at0, Set::empty(), Set::empty());
                assert(Set::<BBId>::empty().union(Set::<BBId>::empty()) =~= Set::<BBId>::empty());
                ci = ci + sub.cost();
                cb = cb + sub.blocks();
            }
            i += 1;
        }
        proof {
            self.lemma_after_more(&at0, ci, cb, ti, tb);
        }
        Ok(())
    }

    /// Ends the block under the cursor with a branch on `cond`: to a new
    /// block if `cond` holds, and else to a second new block. With
    /// `with_else`, a third new block is made, and it is the second target.
    /// The block under the cursor is filled and sealed, the first new block
    /// is sealed, and the cursor moves into it. Returns the first target,
    /// the block made second, and the block made third.
    fn branch_on(&mut self, cond: Value, with_else: bool) -> (r: (BBId, BBId, Option<BBId>))
        requires
            old(self).here_sealed(),
            old(self).inv(),
            old(self).room(0, 3),
            old(self).holds(cond),
        ensures
            old(self).f()@.adds(final(self).f()@, old(self).builder@.cursor.bb, seq![r.0, if r.2 is Some {
                r.2.unwrap()
            } else {
                r.1
            }]),
            old(self).builder@.forks(final(self).builder@, cond, r.0, r.1, r.2),
            r.2 matches Some(b) ==> b != r.1,
            final(self).tracks(
                old(self),
                match r.2 {
                    Some(b) => set![r.1, b],
                    None => set![r.1],
                },
            ),
            final(self).here_sealed(),
            *final(final(self).builder.editor.func) == *final(old(self).builder.editor.func),
            final(self).after(old(self), 0, 3),
            final(self).f().has_bb(r.0),
            final(self).f().has_bb(r.1),
            r.2 matches Some(b) ==> final(self).f().has_bb(b),
            r.2.is_some() == with_else,
            final(self).builder@.cursor.bb == r.0,
    {
        let ghost at0 = *self;
        let ghost mut p = *self;
        proof {
            self.lemma_room_less(0, 3, 0, 1);
        }
        let c = self.current_bb();
        let then_bb = self.open_block();
        proof {
            p.lemma_after_none();
            self.lemma_step(&p, &at0, 0, 0, 0, 1, 0, 3);
            p = *self;
            self.lemma_room_less(0, 2, 0, 1);
        }
        let next_bb = self.open_block();
        proof {
            self.lemma_step(&p, &at0, 0, 1, 0, 1, 0, 3);
            p = *self;
        }
        let else_bb = if with_else {
            Some(self.open_block())
        } else {
            proof {
                self.lemma_after_none();
            }
            None
        };
        proof {
            self.lemma_step(&p, &at0, 0, 2, 0, 1, 0, 3);
            p = *self;
        }
        let other = match else_bb {
            Some(b) => b,
            None => next_bb,
        };
        proof {
            assert(at0.f()@.same_edges(self.f()@)) by {
                assert forall|b: BBId| #[trigger] self.f()@.succ(b) == at0.f()@.succ(b) by {
                }
            }
        }
        let ghost both = seq![then_bb, other];
        self.branch(Branch::CondJump { cond, target: then_bb }, c);
        proof {
            self.lemma_step(&p, &at0, 0, 3, 0, 0, 0, 3);
            assert(at0.f()@.adds(self.f()@, c, seq![then_bb])) by {
                assert forall|b: BBId| b != c implies #[trigger] self.f()@.succ(b) == at0.f()@.succ(b) by {
                    assert(p.f()@.succ(b) == at0.f()@.succ(b));
                }
                assert(p.f()@.succ(c) == at0.f()@.succ(c));
            }
            p = *self;
        }
        self.branch(Branch::Jump(other), c);
        proof {
            self.lemma_step(&p, &at0, 0, 3, 0, 0, 0, 3);
            assert(at0.f()@.adds(self.f()@, c, both)) by {
                assert forall|b: BBId| b != c implies #[trigger] self.f()@.succ(b) == at0.f()@.succ(b) by {
                    assert(p.f()@.succ(b) == at0.f()@.succ(b));
                }
                let s0 = at0.f()@.succ(c);
                assert((s0 + seq![then_bb]) + seq![other] =~= s0 + both);
            }
            p = *self;
        }
        self.fill(c);
        proof {
            self.lemma_step(&p, &at0, 0, 3, 0, 0, 0, 3);
            p = *self;
        }
        self.seal(c);
        proof {
            self.lemma_step(&p, &at0, 0, 3, 0, 0, 0, 3);
            assert(at0.f()@.adds(self.f()@, c, both)) by {
                assert forall|b: BBId| #[trigger] self.f()@.succ(b) == p.f()@.succ(b) by {
                }
            }
            p = *self;
            assert(way(p.builder@));
        }
        self.seal(then_bb);
        proof {
            self.lemma_step(&p, &at0, 0, 3, 0, 0, 0, 3);
            assert(at0.f()@.adds(self.f()@, c, both)) by {
                assert forall|b: BBId| #[trigger] self.f()@.succ(b) == p.f()@.succ(b) by {
                }
            }
            p = *self;
            assert(way(p.builder@));
        }
        self.goto(then_bb);
        proof {
            assert(at0.f()@.adds(self.f()@, c, both)) by {
                assert forall|b: BBId| #[trigger] self.f()@.succ(b) == p.f()@.succ(b) by {
                }
            }
            self.lemma_step(&p, &at0, 0, 3, 0, 0, 0, 3);
            assert(p.builder@.at_end_of(then_bb) == self.builder@);
        }
        (then_bb, next_bb, else_bb)
    }

    /// Seals the live block `bb` and moves the cursor into it.
    fn enter(&mut self, bb: BBId)
        requires
            old(self).inv(),
            old(self).f().has_bb(bb),
            old(self).room(0, 0),
        ensures
            old(self).f()@.same_edges(final(self).f()@),
            old(self).builder@.enters(final(self).builder@, bb),
            final(self).builder@.sealed == old(self).builder@.sealed.insert(bb),
            *final(final(self).builder.editor.func) == *final(old(self).builder.editor.func),
            final(self).after(old(self), 0, 0),
            final(self).f().blocks().dom() == old(self).f().blocks().dom(),
            final(self).builder@.cursor.bb == bb,
    {
        let ghost at0 = *self;
        self.seal(bb);
        let ghost at1 = *self;
        self.goto(bb);
        proof {
            assert(way(at1.builder@));
            self.lemma_after_both(&at1, &at0, 0, 0, 0, 0);
        }
    }

    /// The `else` arm of a conditional, built into the block under the
    /// cursor.
    fn visit_else(&mut self, arm: &IfElseBlock) -> (r: Result<(), Error>)
        requires
            old(self).here_sealed(),
            old(self).inv(),
            arm.within(old(self).vars@),
            old(self).room(arm.cost(), arm.blocks()),
        ensures
            final(self).frames(old(self)),
            arm.builds(old(self).builder@, final(self).builder@, r),
            r.is_ok() ==> final(self).tracks(old(self), Set::empty()) && final(self).here_sealed(),
            *final(final(self).builder.editor.func) == *final(old(self).builder.editor.func),
            final(self).after(old(self), arm.cost(), arm.blocks()),
            r == arm.check(),
        decreases arm, 2int,
    {
        match arm {
            IfElseBlock::Absent => {
                proof {
                    self.lemma_after_none();
                }
                Ok(())
            },
            IfElseBlock::If(i) => self.visit_if_stmt(i),
            IfElseBlock::Block(b) => self.visit_block_stmt(b),
        }
    }

    /// A conditional. The block under the cursor gets the condition and two
    /// branches: to a new block for the first arm if the condition holds,
    /// and else to a new block for the other arm, or past the conditional
    /// if there is none. Each arm ends with a jump to the block behind the
    /// conditional, where building goes on.
    #[verifier::rlimit(80)]
    pub fn visit_if_stmt(&mut self, stmt: &IfStmt) -> (r: Result<(), Error>)
        requires
            old(self).here_sealed(),
            old(self).inv(),
            stmt.within(old(self).vars@),
            old(self).room(stmt.cost(), stmt.blocks()),
        ensures
            r.is_ok() ==> exists|w: Arms|
                #![trigger old(self).builder@.cond_shape(final(self).builder@, w)]
                old(self).builder@.cond_shape(final(self).builder@, w),
            final(self).frames(old(self)),
            r.is_ok() ==> !old(self).f().has_bb(final(self).builder@.cursor.bb),
            stmt.builds(old(self).builder@, final(self).builder@, r),
            r.is_ok() ==> final(self).tracks(old(self), Set::empty()) && final(self).here_sealed(),
            *final(final(self).builder.editor.func) == *final(old(self).builder.editor.func),
            final(self).after(old(self), stmt.cost(), stmt.blocks()),
            r == stmt.check(),
        decreases stmt, 0int,
    {
        let ghost at0 = *self;
        let ghost ti = stmt.cost();
        let ghost tb = stmt.blocks();
        let ghost mut ci: nat = 0;
        let ghost mut cb: nat = 0;
        let ghost mut p = *self;
        let ghost mut open: Set<BBId> = Set::empty();
        proof {
            self.lemma_room_less(ti, tb, 0, 1);
        }
        let ghost sa = self.builder@;
        proof {
            at0.builder.editor.func.lemma_wf();
            lemma_spares_none(at0.f()@, at0.builder@.cursor.bb);
            self.lemma_frame_same(&at0, &at0);
            assert(way(sa));
            p.lemma_after_none();
            self.lemma_step(&p, &at0, 0, 0, 0, 0, ti, tb);
            at0.lemma_tracks_none();
            p = *self;
            self.lemma_room_less((ti - ci) as nat, (tb - cb) as nat, stmt.cond.cost(), 0);
        }
        let (cond, cond_ty) = match self.visit_expr(&stmt.cond) {
            Ok(x) => x,
            Err(e) => {
                proof {
                    self.lemma_frame_same(&p, &at0);
                    assert(step(self.builder@, Err::<(Value, Ty), Error>(e)));
                    self.lemma_step(&p, &at0, ci, cb, stmt.cond.cost(), 0, ti, tb);
                }
                return Err(e);
            },
        };
        let ghost sm = self.builder@;
        let ghost cm = *self;
        proof {
            self.lemma_frame_same(&p, &at0);
            assert(step(sm, Ok::<(Value, Ty), Error>((cond, cond_ty))));
            self.lemma_step(&p, &at0, ci, cb, stmt.cond.cost(), 0, ti, tb);
            self.lemma_tracks_same(&p, &at0, open);
            ci = ci + stmt.cond.cost();
            p = *self;
            self.lemma_room_less((ti - ci) as nat, (tb - cb) as nat, 0, 3);
        }
        let with_else = !matches!(stmt.else_block, IfElseBlock::Absent);
        let (then_bb, next_bb, else_bb) = self.branch_on(cond, with_else);
        let ghost sf = self.builder@;
        proof {
            assert(sm.forks(sf, cond, then_bb, next_bb, else_bb));
            p.builder.editor.func.lemma_wf();
            assert(!at0.f().has_bb(then_bb) && !at0.f().has_bb(next_bb));
            assert(else_bb matches Some(b) ==> !at0.f().has_bb(b));
            self.lemma_frame_adds(&p, &at0, p.builder@.cursor.bb, seq![then_bb, if else_bb is Some {
                else_bb.unwrap()
            } else {
                next_bb
            }]);
            assert(self.builder@ == sf);
            self.lemma_step(&p, &at0, ci, cb, 0, 3, ti, tb);
            let made = match else_bb {
                Some(b) => set![next_bb, b],
                None => set![next_bb],
            };
            self.lemma_tracks(&p, &at0, open, made);
            assert(open.union(made) =~= made);
            open = made;
            cb = cb + 3;
            p = *self;
            self.lemma_room_less((ti - ci) as nat, (tb - cb) as nat, stmt.if_block.cost(), stmt.if_block.blocks());
        }
        let first = self.visit_block_stmt(&stmt.if_block);
        match first {
            Ok(_) => {
                proof {
                    lemma_ok_unit(first);
                }
            },
            Err(e) => {
                proof {
                    self.lemma_frame_both(&p, &at0);
                    assert(halt(self.builder@, Err::<(), Error>(e)));
                    self.lemma_step(&p, &at0, ci, cb, stmt.if_block.cost(), stmt.if_block.blocks(), ti, tb);
                }
                return Err(e);
            },
        }
        let ghost ss = self.builder@;
        let ghost cs = *self;
        proof {
            self.lemma_frame_both(&p, &at0);
            assert(halt(ss, Ok::<(), Error>(())));
            assert(stmt.if_block.builds(sf, ss, Ok::<(), Error>(())));
            self.lemma_step(&p, &at0, ci, cb, stmt.if_block.cost(), stmt.if_block.blocks(), ti, tb);
            self.lemma_tracks(&p, &at0, open, Set::empty());
            assert(open.union(Set::<BBId>::empty()) =~= open);
            assert(self.f().blocks().dom().contains(next_bb));
            ci = ci + stmt.if_block.cost();
            cb = cb + stmt.if_block.blocks();
            p = *self;
        }
        self.close_arm(next_bb);
        let ghost c1 = *self;
        let ghost mut c2 = *self;
        let ghost mut c3 = *self;
        let ghost mut c4 = *self;
        proof {
            self.lemma_frame_adds(&p, &at0, p.builder@.cursor.bb, seq![next_bb]);
            self.lemma_step(&p, &at0, ci, cb, 0, 0, ti, tb);
            self.lemma_tracks_same(&p, &at0, open);
            p = *self;
        }
        if let Some(else_bb) = else_bb {
            proof {
                self.lemma_room_less((ti - ci) as nat, (tb - cb) as nat, 0, 0);
            }
            proof {
                assert(self.f().blocks().dom().contains(else_bb));
            }
            self.enter(else_bb);
            proof {
                c2 = *self;
                self.lemma_frame_same(&p, &at0);
                assert(way(self.builder@));
                assert(self.builder@ == self.builder@);
                self.lemma_step(&p, &at0, ci, cb, 0, 0, ti, tb);
                self.lemma_tracks_seal(&p, &at0, open, else_bb);
                open = open.remove(else_bb);
                p = *self;
                self.lemma_room_less(
                    (ti - ci) as nat,
                    (tb - cb) as nat,
                    stmt.else_block.cost(),
                    stmt.else_block.blocks(),
                );
            }
            let second = self.visit_else(&stmt.else_block);
            match second {
                Ok(_) => {
                    proof {
                        lemma_ok_unit(second);
                    }
                },
                Err(e) => {
                    proof {
                        self.lemma_frame_both(&p, &at0);
                        assert(halt(self.builder@, Err::<(), Error>(e)));
                        assert(stmt.joins(ss, self.builder@, next_bb, Some(else_bb), Err::<(), Error>(e)));
                        self.lemma_step(
                            &p,
                            &at0,
                            ci,
                            cb,
                            stmt.else_block.cost(),
                            stmt.else_block.blocks(),
                            ti,
                            tb,
                        );
                    }
                    return Err(e);
                },
            }
            proof {
                c3 = *self;
                self.lemma_frame_both(&p, &at0);
                assert(halt(self.builder@, Ok::<(), Error>(())));
                self.lemma_step(&p, &at0, ci, cb, stmt.else_block.cost(), stmt.else_block.blocks(), ti, tb);
                self.lemma_tracks(&p, &at0, open, Set::empty());
                assert(open.union(Set::<BBId>::empty()) =~= open);
                assert(self.f().blocks().dom().contains(next_bb));
                ci = ci + stmt.else_block.cost();
                cb = cb + stmt.else_block.blocks();
                p = *self;
            }
            self.close_arm(next_bb);
            proof {
                c4 = *self;
                self.lemma_frame_adds(&p, &at0, p.builder@.cursor.bb, seq![next_bb]);
                self.lemma_step(&p, &at0, ci, cb, 0, 0, ti, tb);
                self.lemma_tracks_same(&p, &at0, open);
                p = *self;
            }
        }
        proof {
            self.lemma_room_less((ti - ci) as nat, (tb - cb) as nat, 0, 0);
            assert(self.f().blocks().dom().contains(next_bb));
            assert(open =~= set![next_bb]);
        }
        self.enter(next_bb);
        proof {
            self.lemma_frame_same(&p, &at0);
            assert(!at0.f().has_bb(next_bb));
            let w = Arms {
                t: then_bb,
                n: next_bb,
                e: else_bb,
                end1: cs.builder@.cursor.bb,
                end2: c3.builder@.cursor.bb,
            };
            let pb = sa.cursor.bb;
            let f0 = at0.f()@;
            let g = self.f()@;
            at0.builder.editor.func.lemma_wf();
            cs.builder.editor.func.lemma_wf();
            c1.builder.editor.func.lemma_wf();
            c2.builder.editor.func.lemma_wf();
            c3.builder.editor.func.lemma_wf();
            self.builder.editor.func.lemma_wf();
            cm.builder.editor.func.lemma_wf();
            assert(f0.same_edges(sm.func));
            assert(sm.func.adds(sf.func, pb, seq![w.t, w.other()]));
            assert(sf.func.spares(cs.f()@, then_bb));
            if else_bb is Some {
                assert(c3.f()@.adds(g, w.end2, seq![next_bb])) by {
                    assert forall|b: BBId| #[trigger] g.succ(b) == c4.f()@.succ(b) by {
                    }
                }
            }
            assert forall|a: BBId| #[trigger] sm.func.edge_count(a, next_bb) == 0 by {
                lemma_no_edge_to_new(sm.func, a, next_bb);
            }
            lemma_cond_edges(sm.func, sf.func, cs.f()@, c1.f()@, c2.f()@, c3.f()@, g, pb, w);
            assert(g.succ(pb) == f0.succ(pb) + seq![w.t, w.other()]) by {
                assert(sm.func.succ(pb) == f0.succ(pb));
            }
            assert(at0.builder@.cond_shape(self.builder@, w));
            assert(stmt.joins(ss, self.builder@, next_bb, else_bb, Ok::<(), Error>(())));
            self.lemma_step(&p, &at0, ci, cb, 0, 0, ti, tb);
            self.lemma_tracks_seal(&p, &at0, open, next_bb);
            assert(open.remove(next_bb) =~= Set::<BBId>::empty());
            lemma_ok_unit(stmt.else_block.check());
        }
        Ok(())
    }

    /// Ends the block under the cursor with a jump to a new block, fills
    /// and seals it, and moves the cursor into the new block, which stays
    /// unsealed. Returns the new block.
    fn enter_loop(&mut self) -> (cond_bb: BBId)
        requires
            old(self).here_sealed(),
            old(self).inv(),
            old(self).room(0, 1),
        ensures
            old(self).f()@.adds(final(self).f()@, old(self).builder@.cursor.bb, seq![cond_bb]),
            old(self).builder@.loops(final(self).builder@, cond_bb),
            final(self).tracks(old(self), set![cond_bb]),
            *final(final(self).builder.editor.func) == *final(old(self).builder.editor.func),
            final(self).after(old(self), 0, 1),
            final(self).f().has_bb(cond_bb),
            final(self).builder@.cursor.bb == cond_bb,
    {
        let ghost at0 = *self;
        let ghost mut p = *self;
        let cur_bb = self.current_bb();
        let cond_bb = self.open_block();
        proof {
            p.lemma_after_none();
            self.lemma_step(&p, &at0, 0, 0, 0, 1, 0, 1);
            p = *self;
        }
        self.branch(Branch::Jump(cond_bb), cur_bb);
        proof {
            self.lemma_step(&p, &at0, 0, 1, 0, 0, 0, 1);
            p = *self;
        }
        self.fill(cur_bb);
        proof {
            self.lemma_step(&p, &at0, 0, 1, 0, 0, 0, 1);
            p = *self;
        }
        self.seal(cur_bb);
        proof {
            self.lemma_step(&p, &at0, 0, 1, 0, 0, 0, 1);
            p = *self;
            assert(way(p.builder@));
        }
        self.goto(cond_bb);
        proof {
            self.lemma_step(&p, &at0, 0, 1, 0, 0, 0, 1);
        }
        cond_bb
    }

    /// Ends the block `cond_bb` under the cursor with a branch on `cond`:
    /// to a new block for the body of the loop if `cond` holds, and else to
    /// a new block behind the loop. Both new blocks are sealed, and the
    /// cursor moves into the first. Returns the two new blocks.
    fn branch_loop(&mut self, cond: Value, cond_bb: BBId) -> (r: (BBId, BBId))
        requires
            old(self).inv(),
            old(self).f().has_bb(cond_bb),
            old(self).room(0, 2),
            old(self).holds(cond),
        ensures
            old(self).f()@.adds(final(self).f()@, cond_bb, seq![r.0, r.1]),
            old(self).builder@.tests(final(self).builder@, cond, cond_bb, r.0, r.1),
            final(self).tracks(old(self), Set::empty()),
            final(self).here_sealed(),
            final(self).sealed(r.1),
            *final(final(self).builder.editor.func) == *final(old(self).builder.editor.func),
            final(self).after(old(self), 0, 2),
            final(self).f().has_bb(r.0),
            final(self).f().has_bb(r.1),
            final(self).builder@.cursor.bb == r.0,
    {
        let ghost at0 = *self;
        let ghost mut p = *self;
        proof {
            self.lemma_room_less(0, 2, 0, 1);
        }
        let loop_bb = self.open_block();
        proof {
            p.lemma_after_none();
            self.lemma_step(&p, &at0, 0, 0, 0, 1, 0, 2);
            p = *self;
        }
        let next_bb = self.open_block();
        proof {
            self.lemma_step(&p, &at0, 0, 1, 0, 1, 0, 2);
            p = *self;
        }
        self.fill(cond_bb);
        proof {
            self.lemma_step(&p, &at0, 0, 2, 0, 0, 0, 2);
            p = *self;
        }
        self.branch(Branch::CondJump { cond, target: loop_bb }, cond_bb);
        proof {
            self.lemma_step(&p, &at0, 0, 2, 0, 0, 0, 2);
            p = *self;
        }
        self.branch(Branch::Jump(next_bb), cond_bb);
        proof {
            self.lemma_step(&p, &at0, 0, 2, 0, 0, 0, 2);
            p = *self;
        }
        self.seal(next_bb);
        proof {
            self.lemma_step(&p, &at0, 0, 2, 0, 0, 0, 2);
            p = *self;
            assert(way(p.builder@));
        }
        self.enter(loop_bb);
        proof {
            let s0 = at0.f()@.succ(cond_bb);
            assert((s0 + seq![loop_bb]) + seq![next_bb] =~= s0 + seq![loop_bb, next_bb]);
            self.lemma_step(&p, &at0, 0, 2, 0, 0, 0, 2);
        }
        (loop_bb, next_bb)
    }

    /// Ends the body of a loop: the block under the cursor jumps back to
    /// `cond_bb` and is filled and sealed; then `cond_bb` is sealed, and the
    /// cursor moves to `next_bb`.
    fn leave_loop(&mut self, cond_bb: BBId, next_bb: BBId)
        requires
            old(self).f().has_bb(cond_bb),
            !old(self).sealed(cond_bb),
            old(self).sealed(next_bb),
            old(self).here_sealed(),
            old(self).inv(),
            old(self).f().has_bb(next_bb),
            old(self).room(0, 0),
        ensures
            old(self).f()@.adds(final(self).f()@, old(self).builder@.cursor.bb, seq![cond_bb]),
            final(self).builder@.filled == old(self).builder@.filled.insert(old(self).builder@.cursor.bb),
            old(self).builder@.leaves(final(self).builder@, cond_bb, next_bb),
            final(self).builder@.sealed == old(self).builder@.sealed.insert(cond_bb),
            final(self).f().blocks().dom() == old(self).f().blocks().dom(),
            *final(final(self).builder.editor.func) == *final(old(self).builder.editor.func),
            final(self).after(old(self), 0, 0),
            final(self).builder@.cursor.bb == next_bb,
    {
        let ghost at0 = *self;
        let ghost mut p = *self;
        let loop_end_bb = self.current_bb();
        self.close_arm(cond_bb);
        proof {
            p.lemma_after_none();
            self.lemma_step(&p, &at0, 0, 0, 0, 0, 0, 0);
            p = *self;
        }
        self.seal(loop_end_bb);
        proof {
            self.lemma_step(&p, &at0, 0, 0, 0, 0, 0, 0);
            p = *self;
            assert(way(p.builder@));
        }
        self.seal(cond_bb);
        proof {
            self.lemma_step(&p, &at0, 0, 0, 0, 0, 0, 0);
            p = *self;
            assert(way(p.builder@));
        }
        self.goto(next_bb);
        proof {
            self.lemma_step(&p, &at0, 0, 0, 0, 0, 0, 0);
        }
    }

    /// A loop. The block under the cursor jumps to a new block for the
    /// condition, which branches to a new block for the body if the
    /// condition holds, and else to a new block behind the loop, where
    /// building goes on. The body ends with a jump back to the condition.
    /// The block of the condition is sealed only when the body is built.
    pub fn visit_while_stmt(&mut self, stmt: &WhileStmt) -> (r: Result<(), Error>)
        requires
            old(self).here_sealed(),
            old(self).inv(),
            stmt.within(old(self).vars@),
            old(self).room(stmt.cost(), stmt.blocks()),
        ensures
            r.is_ok() ==> exists|h: BBId, l: BBId, n: BBId, e: BBId|
                #![trigger old(self).builder@.loop_shape(final(self).builder@, h, l, n, e)]
                old(self).builder@.loop_shape(final(self).builder@, h, l, n, e),
            final(self).frames(old(self)),
            r.is_ok() ==> !old(self).f().has_bb(final(self).builder@.cursor.bb),
            stmt.builds(old(self).builder@, final(self).builder@, r),
            r.is_ok() ==> final(self).tracks(old(self), Set::empty()) && final(self).here_sealed(),
            *final(final(self).builder.editor.func) == *final(old(self).builder.editor.func),
            final(self).after(old(self), stmt.cost(), stmt.blocks()),
            r == stmt.check(),
        decreases stmt, 0int,
    {
        let ghost at0 = *self;
        let ghost ti = stmt.cost();
        let ghost tb = stmt.blocks();
        let ghost mut ci: nat = 0;
        let ghost mut cb: nat = 0;
        let ghost mut p = *self;
        let ghost mut open: Set<BBId> = Set::empty();
        proof {
            self.lemma_room_less(ti, tb, 0, 1);
        }
        let ghost sa = self.builder@;
        proof {
            at0.builder.editor.func.lemma_wf();
            lemma_spares_none(at0.f()@, at0.builder@.cursor.bb);
            self.lemma_frame_same(&at0, &at0);
            assert(way(sa));
            p.lemma_after_none();
            self.lemma_step(&p, &at0, 0, 0, 0, 0, ti, tb);
            at0.lemma_tracks_none();
            p = *self;
            self.lemma_room_less((ti - ci) as nat, (tb - cb) as nat, 0, 1);
        }
        let cond_bb = self.enter_loop();
        let ghost sb = self.builder@;
        proof {
            assert(sa.loops(sb, cond_bb));
            p.builder.editor.func.lemma_wf();
            assert(!at0.f().has_bb(cond_bb));
            self.lemma_frame_adds(&p, &at0, p.builder@.cursor.bb, seq![cond_bb]);
            self.lemma_step(&p, &at0, ci, cb, 0, 1, ti, tb);
            self.lemma_tracks(&p, &at0, open, set![cond_bb]);
            assert(open.union(set![cond_bb]) =~= set![cond_bb]);
            open = set![cond_bb];
            cb = cb + 1;
            p = *self;
            self.lemma_room_less((ti - ci) as nat, (tb - cb) as nat, stmt.cond.cost(), 0);
        }
        let (cond, cond_ty) = match self.visit_expr(&stmt.cond) {
            Ok(x) => x,
            Err(e) => {
                proof {
                    self.lemma_frame_same(&p, &at0);
                    assert(step(self.builder@, Err::<(Value, Ty), Error>(e)));
                    self.lemma_step(&p, &at0, ci, cb, stmt.cond.cost(), 0, ti, tb);
                }
                return Err(e);
            },
        };
        let ghost sm = self.builder@;
        proof {
            self.lemma_frame_same(&p, &at0);
            assert(step(sm, Ok::<(Value, Ty), Error>((cond, cond_ty))));
            self.lemma_step(&p, &at0, ci, cb, stmt.cond.cost(), 0, ti, tb);
            self.lemma_tracks_same(&p, &at0, open);
            ci = ci + stmt.cond.cost();
            p = *self;
            self.lemma_room_less((ti - ci) as nat, (tb - cb) as nat, 0, 2);
        }
        let (loop_bb, next_bb) = self.branch_loop(cond, cond_bb);
        let ghost sf = self.builder@;
        proof {
            assert(sm.tests(sf, cond, cond_bb, loop_bb, next_bb));
            p.builder.editor.func.lemma_wf();
            assert(!at0.f().has_bb(loop_bb) && !at0.f().has_bb(next_bb));
            self.lemma_frame_adds(&p, &at0, cond_bb, seq![loop_bb, next_bb]);
            assert(self.builder@ == sf);
            self.lemma_step(&p, &at0, ci, cb, 0, 2, ti, tb);
            self.lemma_tracks(&p, &at0, open, Set::empty());
            assert(open.union(Set::<BBId>::empty()) =~= open);
            cb = cb + 2;
            p = *self;
            self.lemma_room_less((ti - ci) as nat, (tb - cb) as nat, stmt.body.cost(), stmt.body.blocks());
        }
        let body = self.visit_block_stmt(&stmt.body);
        match body {
            Ok(_) => {
                proof {
                    lemma_ok_unit(body);
                }
            },
            Err(e) => {
                proof {
                    self.lemma_frame_both(&p, &at0);
                    assert(halt(self.builder@, Err::<(), Error>(e)));
                    self.lemma_step(&p, &at0, ci, cb, stmt.body.cost(), stmt.body.blocks(), ti, tb);
                }
                return Err(e);
            },
        }
        let ghost ss = self.builder@;
        proof {
            self.lemma_frame_both(&p, &at0);
            assert(halt(ss, Ok::<(), Error>(())));
            assert(stmt.body.builds(sf, ss, Ok::<(), Error>(())));
            self.lemma_step(&p, &at0, ci, cb, stmt.body.cost(), stmt.body.blocks(), ti, tb);
            self.lemma_tracks(&p, &at0, open, Set::empty());
            assert(open.union(Set::<BBId>::empty()) =~= open);
            assert(self.f().blocks().dom().contains(cond_bb));
            assert(self.f().blocks().dom().contains(next_bb));
            assert(self.builder@.sealed.contains(next_bb));
            ci = ci + stmt.body.cost();
            cb = cb + stmt.body.blocks();
            p = *self;
            self.lemma_room_less((ti - ci) as nat, (tb - cb) as nat, 0, 0);
        }
        self.leave_loop(cond_bb, next_bb);
        proof {
            let f0 = at0.f()@;
            let fa = sa.func;
            let fb = sb.func;
            let fm = sm.func;
            let ff = sf.func;
            let fs = ss.func;
            let g = self.f()@;
            let pb = sa.cursor.bb;
            let eb = ss.cursor.bb;
            let last = seq![cond_bb];
            at0.builder.editor.func.lemma_wf();
            assert(f0.same_edges(fa));
            assert(fa.adds(fb, pb, seq![cond_bb]));
            assert(fb.same_edges(fm));
            assert(fm.adds(ff, cond_bb, seq![loop_bb, next_bb]));
            assert(ff.spares(fs, loop_bb));
            assert(fs.adds(g, eb, last));
            assert(ff.chains.dom().contains(cond_bb) && ff.chains.dom().contains(pb));
            assert(pb != cond_bb && pb != loop_bb && eb != cond_bb && eb != pb);
            assert(f0.succ(cond_bb) == Seq::<BBId>::empty());
            assert(g.succ(cond_bb) == seq![loop_bb, next_bb]) by {
                assert(fs.succ(cond_bb) == ff.succ(cond_bb));
                assert(fm.succ(cond_bb) == fb.succ(cond_bb));
                assert(fb.succ(cond_bb) == fa.succ(cond_bb));
                assert(Seq::<BBId>::empty() + seq![loop_bb, next_bb] =~= seq![loop_bb, next_bb]);
            }
            assert(g.succ(pb) == f0.succ(pb).push(cond_bb)) by {
                assert(fs.succ(pb) == ff.succ(pb));
                assert(ff.succ(pb) == fm.succ(pb));
                assert(fm.succ(pb) == fb.succ(pb));
                assert(fa.succ(pb) == f0.succ(pb));
                assert(f0.succ(pb) + seq![cond_bb] =~= f0.succ(pb).push(cond_bb));
            }
            assert(g.succ(eb).len() > 0 && g.succ(eb).last() == cond_bb) by {
                assert(fs.succ(eb) + seq![cond_bb] =~= fs.succ(eb).push(cond_bb));
            }
            assert forall|a: BBId| #[trigger]
                g.edge_count(a, cond_bb) == (if a == pb {
                    1nat
                } else {
                    0nat
                }) + (if a == eb {
                    1nat
                } else {
                    0nat
                }) by {
                lemma_no_edge_to_new(f0, a, cond_bb);
                lemma_adds_edges(fs, g, eb, last, a, cond_bb);
                assert(fs.edge_count(a, cond_bb) == ff.edge_count(a, cond_bb));
                lemma_adds_edges(fm, ff, cond_bb, seq![loop_bb, next_bb], a, cond_bb);
                assert(fm.edge_count(a, cond_bb) == fb.edge_count(a, cond_bb)) by {
                    assert(fm.succ(a) == fb.succ(a));
                }
                lemma_adds_edges(fa, fb, pb, seq![cond_bb], a, cond_bb);
                assert(fa.edge_count(a, cond_bb) == f0.edge_count(a, cond_bb)) by {
                    assert(fa.succ(a) == f0.succ(a));
                }
                reveal_with_fuel(occurrences, 3);
            }
            assert(eb == loop_bb || !ff.chains.dom().contains(eb));
            assert(at0.builder@.loop_shape(self.builder@, cond_bb, loop_bb, next_bb, eb));
            self.lemma_frame_adds(&p, &at0, p.builder@.cursor.bb, seq![cond_bb]);
            assert(!at0.f().has_bb(next_bb));
            self.lemma_step(&p, &at0, ci, cb, 0, 0, ti, tb);
            self.lemma_tracks_seal(&p, &at0, open, cond_bb);
            assert(open.remove(cond_bb) =~= Set::<BBId>::empty());
            lemma_ok_unit(stmt.body.check());
        }
        Ok(())
    }

    /// A parameter of the function: the parameter at position `index` is
    /// stored as a new instruction at the start of the first block and
    /// defines `param` there. Nothing else of the builder changes, but
    /// that a cursor in the empty first block moves to the new instruction.
    pub fn visit_func_param(&mut self, param: &Variable, index: usize) -> (r: Result<(), Error>)
        requires
            old(self).inv(),
            old(self).f()@.first_block.is_some(),
            old(self).room(1, 0),
        ensures
            old(self).f()@.same_edges(final(self).f()@),
            old(self).builder@.declares(
                final(self).builder@,
                *param,
                index,
                final(self).builder@.defs[(*param, old(self).builder@.func.first_block.unwrap())],
            ),
            final(self).vars == old(self).vars,
            final(self).builder@.sealed == old(self).builder@.sealed,
            final(self).f().blocks().dom() == old(self).f().blocks().dom(),
            final(self).builder@.cursor.bb == old(self).builder@.cursor.bb,
            *final(final(self).builder.editor.func) == *final(old(self).builder.editor.func),
            final(self).after(old(self), 1, 0),
            r.is_ok(),
    {
        let ghost v0 = self.builder@;
        proof {
            self.builder.editor.func.lemma_wf();
            assert(self.vars@.len() * 0 == 0) by (nonlinear_arith);
        }
        let _ = self.builder.declare_param(*param, index);
        proof {
            old(self).builder.editor.func.lemma_wf();
            self.builder.editor.func.lemma_wf();
            lemma_targets_same(old(self).f()@, self.f()@);
            self.builder.editor.func.lemma_wf();
            assert(self.builder@.func.chains.dom() =~= v0.func.chains.dom());
            lemma_need_shrinks(v0, self.builder@, self.vars@);
            lemma_at_rest(v0, self.builder@, None);
        }
        Ok(())
    }

    /// A function: its parameters in order, then its body.
    pub fn visit_func(&mut self, func: &FuncStmt) -> (r: Result<(), Error>)
        requires
            old(self).here_sealed(),
            old(self).inv(),
            old(self).f()@.first_block.is_some(),
            func.body.within(old(self).vars@),
            old(self).room(func.cost(), func.body.blocks()),
        ensures
            final(self).frames(old(self)),
            func.builds(old(self).builder@, final(self).builder@, r),
            r.is_ok() ==> final(self).tracks(old(self), Set::empty()) && final(self).here_sealed(),
            *final(final(self).builder.editor.func) == *final(old(self).builder.editor.func),
            final(self).after(old(self), func.cost(), func.body.blocks()),
            r == func.body.check(),
    {
        let ghost at0 = *self;
        let ghost ti = func.cost();
        let ghost tb = func.body.blocks();
        let n = func.params.len();
        let mut k: usize = 0;
        proof {
            self.lemma_after_none();
            self.lemma_tracks_none();
        }
        while k < n
            invariant
                k <= n,
                n == func.params@.len(),
                at0 == *old(self),
                at0.room(ti, tb),
                at0.f()@.first_block.is_some(),
                *final(self.builder.editor.func) == *final(old(self).builder.editor.func),
                ti == n + func.body.cost(),
                self.after(&at0, k as nat, 0),
                self.here_sealed(),
                self.tracks(&at0, Set::empty()),
                at0.inv(),
                at0.f()@.same_edges(self.f()@),
                self.builder@.cursor.bb == at0.builder@.cursor.bb,
                declared_upto(func.params@, k as int, at0.builder@, self.builder@),
            decreases n - k,
        {
            let ghost p = *self;
            proof {
                self.lemma_room_left(&at0, k as nat, 0, (ti - k) as nat, tb);
                self.lemma_room_less((ti - k) as nat, tb, 1, 0);
            }
            let _ = self.visit_func_param(&func.params[k], k);
            proof {
                let id = self.builder@.defs[(func.params@[k as int], p.builder@.func.first_block.unwrap())];
                assert(place_inst(id, p.builder@));
                assert(p.builder@.declares(self.builder@, func.params@[k as int], k, id));
                assert(declared_upto(func.params@, k + 1, at0.builder@, self.builder@));
                self.lemma_after_both(&p, &at0, k as nat, 0, 1, 0);
                self.lemma_tracks_same(&p, &at0, Set::empty());
            }
            k += 1;
        }
        let ghost p = *self;
        proof {
            lemma_spares_none(at0.f()@, at0.builder@.cursor.bb);
            p.lemma_frame_same(&at0, &at0);
            assert(way(p.builder@));
            self.lemma_room_left(&at0, n as nat, 0, func.body.cost(), tb);
        }
        let r = self.visit_block_stmt(&func.body);
        proof {
            self.lemma_frame_both(&p, &at0);
            self.lemma_after_both(&p, &at0, n as nat, 0, func.body.cost(), tb);
            if r.is_ok() {
                self.lemma_tracks(&p, &at0, Set::empty(), Set::empty());
                assert(Set::<BBId>::empty().union(Set::<BBId>::empty()) =~= Set::<BBId>::empty());
            }
        }
        r
    }
}

/// Builds the function `func` from nothing: a new function with one block,
/// the parameters in that block, and the body from there on.
pub fn compile_func(func: &FuncStmt) -> (r: Result<TacFunc, Error>)
    requires
        func.fits(),
    ensures
        func.compiles_to(r),
        match r {
            Ok(f) => {
                &&& func.body.check() == Ok::<(), Error>(())
                &&& f.wf()
                &&& f@.refs_ok()
                &&& f@.phis_complete()
                &&& forall|i: InstId, bb: BBId| #[trigger] f@.in_block(i, bb) ==> !f@.trivial(i)
                &&& f@.first_block.is_some()
                &&& f@.ty == func.ret_ty
                &&& smol_str_text(f@.name) == smol_str_text(func.name)
                &&& f@.chains.dom().len() <= 1 + func.body.blocks()
                &&& f@.insts.dom().len() <= func.cost() + func.vars().len() * (1 + func.body.blocks())
            },
            Err(e) => func.body.check() == Err::<(), Error>(e),
        },
{
    let mut f = TacFunc::new(func.name.clone(), func.ret_ty);
    let ghost name0 = f@.name;
    let entry = f.bb_new();
    f.bb_set_first(entry);
    let vars = func.all_vars();
    proof {
        f.lemma_wf();
    }
    let mut compiler = FuncCompiler::new(&mut f, vars);
    proof {
        let n = func.vars().len();
        let b = func.body.blocks();
        compiler.builder.editor.func.lemma_wf();
        lemma_need_bound(compiler.builder@, compiler.vars@);
        assert(compiler.builder@.func.chains.dom() =~= set![entry]);
        assert(n * (1 + b) == n * 1 + n * b) by (nonlinear_arith);
        assert(n * 1 == n) by (nonlinear_arith);
        assert(compiler.builder@.func.chains.dom().len() == 1);
        assert(compiler.builder.size() == 0);
    }
    let ghost start = compiler;
    proof {
        assert(start.builder@.func.chains =~= fresh(name0, func.ret_ty, entry).func.chains);
        assert(start.builder@.func.jumps =~= fresh(name0, func.ret_ty, entry).func.jumps);
        assert(start.builder@.func.order =~= fresh(name0, func.ret_ty, entry).func.order);
        assert(start.builder@.sealed =~= fresh(name0, func.ret_ty, entry).sealed);
        assert(start.builder@ == fresh(name0, func.ret_ty, entry));
    }
    let r = compiler.visit_func(func);
    let ghost last = compiler.builder@;
    proof {
        assert(func.builds(fresh(name0, func.ret_ty, entry), last, r));
    }
    match r {
        Ok(_) => {
            proof {
                lemma_ok_unit(r);
                lemma_ok_unit(func.body.check());
                compiler.builder.editor.func.lemma_wf();
                lemma_placed_once(&*compiler.builder.editor.func);
                assert forall|b: BBId| compiler.builder@.func.chains.dom().contains(b) implies compiler.builder@.sealed.contains(
                    b,
                ) by {
                    assert(compiler.f().blocks().dom().contains(b));
                    if start.f().blocks().dom().contains(b) {
                        assert(b == entry);
                        assert(start.builder@.sealed.contains(b));
                    }
                }
                lemma_rest_complete(compiler.builder@);
            }
            Ok(f)
        },
        Err(e) => Err(e),
    }
}

} // verus!
