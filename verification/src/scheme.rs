//! What building a construct of the source program does to the builder.
//!
//! Every construct has a relation between the builder before and after it
//! is built, and the result. The relations follow the structure of the
//! program. The new handles are not among the arguments: a relation says
//! that there are such handles. Reading a variable and sealing a block
//! can place and remove phis; their relations are those of the builder.

use vstd::prelude::*;
use smol_str::SmolStr;
use crate::ast::{
    AsExpr, AssignExpr, BinaryExpr, BlockStmt, DeclStmt, Expr, FuncStmt, IfElseBlock, IfStmt, ReturnStmt, Stmt,
    UnaryExpr, UnaryOp, WhileStmt,
};
use crate::builder::func_editor::{occurrences, Cursor};
use crate::builder::ssa::{BuilderView, Pending};
use crate::builder::steps::{deep, lemma_read_joined, lemma_seal_resolves, waiting_in};
use crate::builder::tables::{rerouted, Variable};
use crate::err::Error;
use crate::func::{FuncView, TacFunc};
use crate::handle::{BBId, InstId};
use crate::inst::{smol_str_text, targets_of, BinaryInst, BinaryOp, Branch, Inst, InstKind, Value};
use crate::tacgen::lowered_op;
use crate::ty::Ty;

verus! {

impl BuilderView {
    /// The position in the chain of the cursor's block behind the cursor.
    pub open spec fn slot(self) -> int {
        match self.cursor.idx {
            Some(i) => self.func.chains[self.cursor.bb].index_of(i) + 1,
            None => 0,
        }
    }

    /// True if `post` is this state with the new instruction `id` stored
    /// behind the cursor, its content `inst`, and the cursor at it.
    pub open spec fn emits(self, post: BuilderView, id: InstId, inst: Inst) -> bool {
        &&& !self.func.insts.dom().contains(id)
        &&& post == (BuilderView {
            func: self.func.with_new(self.cursor.bb, self.slot(), id, inst),
            cursor: Cursor { bb: self.cursor.bb, idx: Some(id) },
            ..self
        })
    }

    /// True if `post` can come from this state by reading `var` in the
    /// cursor's block, step by step as the builder reads a variable: the
    /// variable has a definition there then. Where it had one before,
    /// nothing changes. Else phis may be placed, and removed again: the
    /// blocks, their successors and the marks stay, the instructions so
    /// far stay and read no other result than before.
    pub open spec fn reads(self, post: BuilderView, var: Variable) -> bool {
        &&& post.defs.dom().contains((var, self.cursor.bb))
        &&& self.defs.dom().contains((var, self.cursor.bb)) ==> post == self
        &&& self.grows_to(post)
        &&& self.func.keeps(post.func, self.func.insts.dom())
        &&& self.waits_more(post, var)
        &&& exists|d: nat|
            #![trigger deep(d)]
            deep(d) && self.reads_at(
                post,
                var,
                self.cursor.bb,
                self.func.chains.dom().len(),
                post.defs[(var, self.cursor.bb)],
                d,
            )
    }

    /// The value that reading `var` in the cursor's block gave.
    pub open spec fn value_of(self, var: Variable) -> Value {
        Value::Dest(self.defs[(var, self.cursor.bb)])
    }

    /// This state with `inst` as the definition of `var` in the cursor's
    /// block.
    pub open spec fn with_def(self, var: Variable, inst: InstId) -> BuilderView {
        BuilderView { defs: self.defs.insert((var, self.cursor.bb), inst), ..self }
    }

    /// True if `post` is this state with the value `v` of type `t` made
    /// the definition `inst` of `var` in the cursor's block: the result of
    /// an instruction is that definition itself, and a constant is stored
    /// by the new instruction `inst` behind the cursor first.
    pub open spec fn defines(self, post: BuilderView, var: Variable, v: Value, t: Ty, inst: InstId) -> bool {
        match v {
            Value::Dest(i) => inst == i && post == self.with_def(var, i),
            Value::Imm(_) => exists|mid: BuilderView|
                #![trigger self.emits(mid, inst, Inst { kind: InstKind::Assign(v), ty: t })]
                self.emits(mid, inst, Inst { kind: InstKind::Assign(v), ty: t }) && post == mid.with_def(var, inst),
        }
    }
}

impl BuilderView {
    /// This state with the new empty block `id`.
    pub open spec fn with_block(self, id: BBId) -> BuilderView {
        BuilderView {
            func: FuncView {
                chains: self.func.chains.insert(id, Seq::empty()),
                jumps: self.func.jumps.insert(id, Seq::empty()),
                order: self.func.order.insert(id, (None, None)),
                ..self.func
            },
            ..self
        }
    }

    /// This state with `branch` added behind the branches of `bb`.
    pub open spec fn with_jump(self, bb: BBId, branch: Branch) -> BuilderView {
        BuilderView { func: self.func.with_branch(bb, branch), ..self }
    }

    /// This state with `bb` marked as taking no more instructions.
    pub open spec fn with_filled(self, bb: BBId) -> BuilderView {
        BuilderView { filled: self.filled.insert(bb), ..self }
    }

    /// This state with the cursor at the end of `bb`.
    pub open spec fn at_end_of(self, bb: BBId) -> BuilderView {
        BuilderView { cursor: Cursor { bb, idx: self.func.tail(bb) }, ..self }
    }

    /// True if a phi waits in `bb` for the block to be sealed.
    pub open spec fn awaited(self, bb: BBId) -> bool {
        exists|k: int| 0 <= k < self.pending.len() && (#[trigger] self.pending[k]).bb == bb
    }

    /// True if `post` can come from this state by sealing `bb`, step by
    /// step as the builder seals a block: the block is sealed. Where no
    /// phi waited in it, nothing else changes. Else the phis that waited
    /// get their operands, which can place and remove phis: the blocks,
    /// their successors, the other marks and the cursor's block stay.
    pub open spec fn seals(self, post: BuilderView, bb: BBId) -> bool {
        &&& (BuilderView { sealed: self.sealed.insert(bb), ..self }).grows_to(post)
        &&& self.waits_same_vars(post)
        &&& !self.awaited(bb) ==> post == (BuilderView { sealed: self.sealed.insert(bb), ..self })
        &&& self.seals_to(post, bb)
    }

    /// True if `post` can come from this state by sealing `bb` and moving
    /// the cursor to its end.
    pub open spec fn enters(self, post: BuilderView, bb: BBId) -> bool {
        exists|m: BuilderView| #![trigger way(m)] way(m) && self.seals(m, bb) && post == m.at_end_of(bb)
    }
}

impl FuncView {
    /// True if `new` has the branches of this function and, behind the
    /// branches of `bb`, branches to `more` in order: every other block
    /// has the successors that it had.
    pub open spec fn adds(self, new: FuncView, bb: BBId, more: Seq<BBId>) -> bool {
        &&& new.succ(bb) == self.succ(bb) + more
        &&& forall|b: BBId| b != bb ==> #[trigger] new.succ(b) == self.succ(b)
    }

    /// True if every block of `new` has the successors that it has in this
    /// function.
    pub open spec fn same_edges(self, new: FuncView) -> bool {
        forall|b: BBId| #[trigger] new.succ(b) == self.succ(b)
    }

    /// True if `new` has no branch to a block of this function that this
    /// function has not, and among the blocks of this function none but
    /// `at` has other successors than before.
    pub open spec fn spares(self, new: FuncView, at: BBId) -> bool {
        &&& forall|a: BBId, b: BBId|
            self.chains.dom().contains(b) ==> #[trigger] new.edge_count(a, b) == self.edge_count(a, b)
        &&& forall|b: BBId| self.chains.dom().contains(b) && b != at ==> #[trigger] new.succ(b) == self.succ(b)
    }
}

/// The occurrences in two lists, one behind the other, are those in the
/// one and those in the other.
pub proof fn lemma_occurrences_add(s: Seq<BBId>, more: Seq<BBId>, a: BBId)
    ensures
        occurrences(s + more, a) == occurrences(s, a) + occurrences(more, a),
    decreases more.len(),
{
    if more.len() == 0 {
        assert(s + more =~= s);
    } else {
        lemma_occurrences_add(s, more.drop_last(), a);
        assert((s + more).drop_last() =~= s + more.drop_last());
    }
}

/// A block that is not in a list does not occur in it.
pub proof fn lemma_occurrences_none(more: Seq<BBId>, a: BBId)
    requires
        forall|k: int| 0 <= k < more.len() ==> more[k] != a,
    ensures
        occurrences(more, a) == 0,
    decreases more.len(),
{
    if more.len() > 0 {
        lemma_occurrences_none(more.drop_last(), a);
    }
}

/// Sparing goes on through a step that leaves every successor as it is.
pub proof fn lemma_spares_same(a: FuncView, b: FuncView, c: FuncView, at: BBId)
    requires
        a.spares(b, at),
        b.same_edges(c),
    ensures
        a.spares(c, at),
{
    assert forall|x: BBId, y: BBId| a.chains.dom().contains(y) implies #[trigger] c.edge_count(x, y) == a.edge_count(
        x,
        y,
    ) by {
        assert(c.succ(x) == b.succ(x));
        assert(b.edge_count(x, y) == a.edge_count(x, y));
    }
    assert forall|y: BBId| a.chains.dom().contains(y) && y != at implies #[trigger] c.succ(y) == a.succ(y) by {
        assert(c.succ(y) == b.succ(y));
        assert(b.succ(y) == a.succ(y));
    }
}

/// Sparing goes on through a step that adds branches to new blocks, from
/// the block that is not spared or from a new block.
pub proof fn lemma_spares_adds(a: FuncView, b: FuncView, c: FuncView, at: BBId, from: BBId, more: Seq<BBId>)
    requires
        a.spares(b, at),
        b.adds(c, from, more),
        from == at || !a.chains.dom().contains(from),
        forall|k: int| 0 <= k < more.len() ==> !a.chains.dom().contains(#[trigger] more[k]),
    ensures
        a.spares(c, at),
{
    assert forall|x: BBId, y: BBId| a.chains.dom().contains(y) implies #[trigger] c.edge_count(x, y) == a.edge_count(
        x,
        y,
    ) by {
        assert(b.edge_count(x, y) == a.edge_count(x, y));
        if x == from {
            lemma_occurrences_add(b.succ(x), more, y);
            lemma_occurrences_none(more, y);
        } else {
            assert(c.succ(x) == b.succ(x));
        }
    }
    assert forall|y: BBId| a.chains.dom().contains(y) && y != at implies #[trigger] c.succ(y) == a.succ(y) by {
        assert(c.succ(y) == b.succ(y));
        assert(b.succ(y) == a.succ(y));
    }
}

/// Sparing goes on through steps that spare in turn, from the block that
/// is not spared or from a new block.
pub proof fn lemma_spares_both(a: FuncView, b: FuncView, c: FuncView, at: BBId, from: BBId)
    requires
        a.spares(b, at),
        b.spares(c, from),
        from == at || !a.chains.dom().contains(from),
        a.chains.dom().subset_of(b.chains.dom()),
    ensures
        a.spares(c, at),
{
    assert forall|x: BBId, y: BBId| a.chains.dom().contains(y) implies #[trigger] c.edge_count(x, y) == a.edge_count(
        x,
        y,
    ) by {
        assert(b.chains.dom().contains(y));
        assert(c.edge_count(x, y) == b.edge_count(x, y));
        assert(b.edge_count(x, y) == a.edge_count(x, y));
    }
    assert forall|y: BBId| a.chains.dom().contains(y) && y != at implies #[trigger] c.succ(y) == a.succ(y) by {
        assert(b.chains.dom().contains(y));
        assert(c.succ(y) == b.succ(y));
        assert(b.succ(y) == a.succ(y));
    }
}

/// A function spares itself.
pub proof fn lemma_spares_none(a: FuncView, at: BBId)
    ensures
        a.spares(a, at),
{
}

/// A branch more adds its target, if it has one, to the targets.
pub proof fn lemma_targets_push(jumps: Seq<Branch>, branch: Branch)
    ensures
        targets_of(jumps.push(branch)) == (match branch.target() {
            Some(t) => targets_of(jumps).push(t),
            None => targets_of(jumps),
        }),
{
    assert(jumps.push(branch).drop_last() =~= jumps);
}

/// Marks the state `m` as a step on the way from one state to another. It
/// holds of every state.
pub open spec fn way(m: BuilderView) -> bool {
    true
}

/// Marks the state `m` and the result `r` as a step on the way from one
/// state to another. It holds of every state and result.
pub open spec fn step(m: BuilderView, r: Result<(Value, Ty), Error>) -> bool {
    true
}

/// The type mismatch that is reported when `found` stands where `expected`
/// is wanted.
pub open spec fn mismatch(expected: Ty, found: Ty) -> Error {
    Error::TypeMismatch { expected, found }
}

impl BinaryExpr {
    /// Both sides are built in order, and one new instruction on their
    /// values is stored behind the cursor. Where a side fails, or the
    /// types of the sides differ, nothing more is built.
    pub open spec fn builds(&self, pre: BuilderView, post: BuilderView, r: Result<(Value, Ty), Error>) -> bool
        decreases self,
    {
        exists|m1: BuilderView, rl: Result<(Value, Ty), Error>|
            #![trigger step(m1, rl)]
            step(m1, rl) && self.lhs.builds(pre, m1, rl) && match rl {
                Err(e) => post == m1 && r == Err::<(Value, Ty), Error>(e),
                Ok((l, tl)) => exists|m2: BuilderView, rr: Result<(Value, Ty), Error>|
                    #![trigger step(m2, rr)]
                    step(m2, rr) && self.rhs.builds(m1, m2, rr) && match rr {
                        Err(e) => post == m2 && r == Err::<(Value, Ty), Error>(e),
                        Ok((x, tr)) => if tl != tr {
                            post == m2 && r == Err::<(Value, Ty), Error>(mismatch(tl, tr))
                        } else {
                            r matches Ok((Value::Dest(id), t)) && t == tl && m2.emits(
                                post,
                                id,
                                Inst {
                                    kind: InstKind::Binary(BinaryInst { op: lowered_op(self.op), lhs: l, rhs: x }),
                                    ty: tl,
                                },
                            )
                        },
                    },
            }
    }
}

impl UnaryExpr {
    /// The operand is built. For `-` one new instruction that takes its
    /// value from zero is stored behind the cursor; for `+` nothing more
    /// is built, and the value is that of the operand.
    pub open spec fn builds(&self, pre: BuilderView, post: BuilderView, r: Result<(Value, Ty), Error>) -> bool
        decreases self,
    {
        match self.op {
            UnaryOp::Pos => self.expr.builds(pre, post, r),
            UnaryOp::Neg => exists|m1: BuilderView, ro: Result<(Value, Ty), Error>|
                #![trigger step(m1, ro)]
                step(m1, ro) && self.expr.builds(pre, m1, ro) && match ro {
                    Err(e) => post == m1 && r == Err::<(Value, Ty), Error>(e),
                    Ok((x, tx)) => r matches Ok((Value::Dest(id), t)) && t == tx && m1.emits(
                        post,
                        id,
                        Inst {
                            kind: InstKind::Binary(BinaryInst { op: BinaryOp::Sub, lhs: Value::Imm(0), rhs: x }),
                            ty: tx,
                        },
                    ),
                },
        }
    }
}

impl AsExpr {
    /// The value is built, and it is the result as it is.
    pub open spec fn builds(&self, pre: BuilderView, post: BuilderView, r: Result<(Value, Ty), Error>) -> bool
        decreases self,
    {
        self.val.builds(pre, post, r)
    }
}

impl AssignExpr {
    /// The right side is built, and its value becomes the definition of
    /// the variable in the cursor's block; the result is that definition.
    /// Where the right side fails, or its type is not that of the
    /// variable, nothing more is built.
    pub open spec fn builds(&self, pre: BuilderView, post: BuilderView, r: Result<(Value, Ty), Error>) -> bool
        decreases self,
    {
        exists|m1: BuilderView, rr: Result<(Value, Ty), Error>|
            #![trigger step(m1, rr)]
            step(m1, rr) && self.rhs.builds(pre, m1, rr) && match rr {
                Err(e) => post == m1 && r == Err::<(Value, Ty), Error>(e),
                Ok((v, t)) => if self.lhs.ty != t {
                    post == m1 && r == Err::<(Value, Ty), Error>(mismatch(self.lhs.ty, t))
                } else {
                    r matches Ok((Value::Dest(inst), tr)) && tr == t && m1.defines(post, self.lhs, v, t, inst)
                },
            }
    }
}

impl Expr {
    /// True if building this expression can take the builder from `pre`
    /// to `post` with the result `r`. A literal builds nothing. A
    /// variable is read in the cursor's block, and its value is its
    /// definition there.
    pub open spec fn builds(&self, pre: BuilderView, post: BuilderView, r: Result<(Value, Ty), Error>) -> bool
        decreases self,
    {
        match self {
            Expr::Literal(l) => post == pre && r == Ok::<(Value, Ty), Error>(
                (Value::Imm(l.kind.value()), Ty::I64),
            ),
            Expr::Ident(var) => pre.reads(post, *var) && r == Ok::<(Value, Ty), Error>(
                (post.value_of(*var), var.ty),
            ),
            Expr::Binary(b) => b.builds(pre, post, r),
            Expr::Unary(u) => u.builds(pre, post, r),
            Expr::As(a) => a.builds(pre, post, r),
            Expr::Assign(a) => a.builds(pre, post, r),
        }
    }
}

/// Marks the state `s` and the result `r` as a step on the way from one
/// state to another. It holds of every state and result.
pub open spec fn halt(s: BuilderView, r: Result<(), Error>) -> bool {
    true
}

/// Marks the position `k` and the state `s` as a step on the way through
/// a list of statements. It holds of every position and state.
pub open spec fn upto(k: int, s: BuilderView) -> bool {
    true
}

/// Marks the block `id` and the state `m` as a step on the way from one
/// state to another. It holds of every block and state.
pub open spec fn place(id: BBId, m: BuilderView) -> bool {
    true
}

/// The result of a statement whose expression gave `re`.
pub open spec fn dropped(re: Result<(Value, Ty), Error>) -> Result<(), Error> {
    match re {
        Ok(_) => Ok(()),
        Err(e) => Err(e),
    }
}

impl BuilderView {
    /// True if `post` can come from this state by branching on `cond`:
    /// `t`, `n` and, for a conditional with an else, `e` are new blocks;
    /// the cursor's block gets a branch to `t` if `cond` holds and a jump
    /// to `e`, or to `n` where there is no else, and is filled and sealed;
    /// then `t` is sealed, and the cursor is at its end.
    pub open spec fn forks(self, post: BuilderView, cond: Value, t: BBId, n: BBId, e: Option<BBId>) -> bool {
        let c = self.cursor.bb;
        let two = self.with_block(t).with_block(n);
        let all = match e {
            Some(x) => two.with_block(x),
            None => two,
        };
        let other = match e {
            Some(x) => x,
            None => n,
        };
        let branched = all.with_jump(c, Branch::CondJump { cond, target: t }).with_jump(
            c,
            Branch::Jump(other),
        ).with_filled(c);
        &&& !self.func.chains.dom().contains(t)
        &&& !self.func.chains.dom().contains(n)
        &&& n != t
        &&& e matches Some(x) ==> !self.func.chains.dom().contains(x) && x != t && x != n
        &&& exists|m: BuilderView| #![trigger way(m)] way(m) && branched.seals(m, c) && m.enters(post, t)
    }

    /// True if `post` can come from this state by opening a loop: `h` is a
    /// new block, the cursor's block gets a jump to it and is filled and
    /// sealed, and the cursor is at the end of `h`, which is not sealed.
    pub open spec fn loops(self, post: BuilderView, h: BBId) -> bool {
        let c = self.cursor.bb;
        let jumped = self.with_block(h).with_jump(c, Branch::Jump(h)).with_filled(c);
        &&& !self.func.chains.dom().contains(h)
        &&& exists|m: BuilderView| #![trigger way(m)] way(m) && jumped.seals(m, c) && post == m.at_end_of(h)
    }

    /// True if `post` can come from this state by branching out of the
    /// loop header `h` on `cond`: `l` and `n` are new blocks; `h` is filled
    /// and gets a branch to `l` if `cond` holds and a jump to `n`; `n` is
    /// sealed; then `l` is sealed, and the cursor is at its end.
    pub open spec fn tests(self, post: BuilderView, cond: Value, h: BBId, l: BBId, n: BBId) -> bool {
        let branched = self.with_block(l).with_block(n).with_filled(h).with_jump(
            h,
            Branch::CondJump { cond, target: l },
        ).with_jump(h, Branch::Jump(n));
        &&& !self.func.chains.dom().contains(l)
        &&& !self.func.chains.dom().contains(n)
        &&& n != l
        &&& exists|m: BuilderView| #![trigger way(m)] way(m) && branched.seals(m, n) && m.enters(post, l)
    }

    /// This state at the end of an arm that goes on at `target`: the
    /// cursor's block gets a jump to `target` and is filled.
    pub open spec fn arm_to(self, target: BBId) -> BuilderView {
        self.with_jump(self.cursor.bb, Branch::Jump(target)).with_filled(self.cursor.bb)
    }

    /// True if `post` can come from this state by a `return` of `val`:
    /// the cursor's block gets the branch and is filled; the new block
    /// `id` is added and sealed, and the cursor is in it. Nothing jumps to
    /// the new block.
    pub open spec fn gives_back(self, post: BuilderView, val: Option<Value>, id: BBId) -> bool {
        let c = self.cursor.bb;
        &&& !self.func.chains.dom().contains(id)
        &&& exists|m: BuilderView|
            #![trigger place(id, m)]
            place(id, m) && self.with_jump(c, Branch::Return(val)).with_filled(c).with_block(id).seals(m, id) && post
                == m.at_end_of(id)
    }

    /// True if `post` can come from this state, at the end of the body of
    /// the loop with the header `h`, by leaving the loop: the cursor's
    /// block jumps back to `h` and is filled and sealed, `h` is sealed,
    /// and the cursor is at the end of `n`.
    pub open spec fn leaves(self, post: BuilderView, h: BBId, n: BBId) -> bool {
        exists|m1: BuilderView|
            #![trigger way(m1)]
            way(m1) && self.arm_to(h).seals(m1, self.cursor.bb) && exists|m2: BuilderView|
                #![trigger way(m2)]
                way(m2) && m1.seals(m2, h) && post == m2.at_end_of(n)
    }

    /// True if `post` has the shape of a `return` of `val` that was built
    /// from this state: the block `b` that was under the cursor when the
    /// value was built has the branches that it had and the `return`
    /// behind them, and is filled. The cursor is in a new block, the one
    /// block more than before, which is sealed and has no instructions,
    /// no branches and no predecessor.
    pub open spec fn return_shape(self, post: BuilderView, val: Option<Value>) -> bool {
        let f = self.func;
        let g = post.func;
        let b = self.cursor.bb;
        let n = post.cursor.bb;
        &&& g.jumps[b] == f.jumps[b].push(Branch::Return(val))
        &&& post.filled.contains(b)
        &&& !f.chains.dom().contains(n)
        &&& g.chains.dom() == f.chains.dom().insert(n)
        &&& g.chains[n] == Seq::<InstId>::empty()
        &&& g.jumps[n] == Seq::<Branch>::empty()
        &&& forall|a: BBId| #[trigger] g.edge_count(a, n) == 0
        &&& f.same_edges(g)
        &&& post.sealed.contains(n)
        &&& post.cursor.idx.is_none()
    }

    /// True if `post` has the shape of a loop that was built from this
    /// state: `h`, `l` and `n` are new blocks, the header of the loop, the
    /// first block of its body and the block behind it. The block that
    /// was under the cursor has one more branch, to `h`. The header goes
    /// to `l` and to `n`. The body ends in the new block `e`, which jumps
    /// back to `h` and is filled and sealed; behind a `return` that is the
    /// block that cannot be reached. The header has these two branches
    /// into it and no other. The three blocks are sealed, and the cursor
    /// is in `n`.
    pub open spec fn loop_shape(self, post: BuilderView, h: BBId, l: BBId, n: BBId, e: BBId) -> bool {
        let f = self.func;
        let g = post.func;
        let p = self.cursor.bb;
        &&& !f.chains.dom().contains(h) && !f.chains.dom().contains(l) && !f.chains.dom().contains(n)
        &&& h != l && h != n && l != n
        &&& g.chains.dom().contains(h) && g.chains.dom().contains(l) && g.chains.dom().contains(n)
        &&& g.succ(p) == f.succ(p).push(h)
        &&& g.succ(h) == seq![l, n]
        &&& !f.chains.dom().contains(e) && g.chains.dom().contains(e) && e != h && e != n
        &&& g.succ(e).len() > 0 && g.succ(e).last() == h
        &&& post.filled.contains(e) && post.sealed.contains(e)
        &&& forall|a: BBId|
            #[trigger] g.edge_count(a, h) == (if a == p {
                1nat
            } else {
                0nat
            }) + (if a == e {
                1nat
            } else {
                0nat
            })
        &&& post.sealed.contains(h) && post.sealed.contains(l) && post.sealed.contains(n)
        &&& post.cursor.bb == n
    }
}

/// The blocks that a conditional branches to and its arms end in: `t`
/// and `n` are the new blocks of the first arm and behind the
/// conditional, `e` the new block of the else, if there is one. The first
/// arm ends in `end1`, the else in `end2`.
pub struct Arms {
    pub t: BBId,
    pub n: BBId,
    pub e: Option<BBId>,
    pub end1: BBId,
    pub end2: BBId,
}

impl Arms {
    /// The second target of the branch of the conditional: the else, or
    /// the block behind the conditional where there is no else.
    pub open spec fn other(self) -> BBId {
        match self.e {
            Some(x) => x,
            None => self.n,
        }
    }

    /// The number of branches to the block behind the conditional that
    /// the conditional has added to the block `a`, where `p` is the block
    /// that branches: one from `p` where there is no else, one from the
    /// end of the first arm, and one from the end of the else.
    pub open spec fn joining(self, p: BBId, a: BBId) -> nat {
        (if self.e is None && a == p {
            1nat
        } else {
            0nat
        }) + (if a == self.end1 {
            1nat
        } else {
            0nat
        }) + (if self.e is Some && a == self.end2 {
            1nat
        } else {
            0nat
        })
    }
}

impl BuilderView {
    /// True if `post` has the shape of a conditional that was built from
    /// this state, with the new blocks and ends `w`. The block that was
    /// under the cursor has two more branches: to the first arm, and to
    /// the else, or past the conditional where there is no else. Each arm
    /// ends in a new block, which jumps to the block behind the
    /// conditional and is filled and sealed; behind a `return` that is the
    /// block that cannot be reached. The block behind the conditional has
    /// these branches into it and no other. The new blocks are sealed, and
    /// the cursor is in the block behind the conditional.
    pub open spec fn cond_shape(self, post: BuilderView, w: Arms) -> bool {
        let f = self.func;
        let g = post.func;
        let p = self.cursor.bb;
        &&& !f.chains.dom().contains(w.t) && !f.chains.dom().contains(w.n) && w.t != w.n
        &&& g.chains.dom().contains(w.t) && g.chains.dom().contains(w.n)
        &&& w.e matches Some(x) ==> !f.chains.dom().contains(x) && g.chains.dom().contains(x) && x != w.t && x != w.n
            && post.sealed.contains(x)
        &&& g.succ(p) == f.succ(p) + seq![w.t, w.other()]
        &&& !f.chains.dom().contains(w.end1) && g.chains.dom().contains(w.end1)
        &&& g.succ(w.end1).len() > 0 && g.succ(w.end1).last() == w.n
        &&& post.filled.contains(w.end1) && post.sealed.contains(w.end1)
        &&& w.e is Some ==> !f.chains.dom().contains(w.end2) && g.chains.dom().contains(w.end2) && g.succ(
            w.end2,
        ).len() > 0 && g.succ(w.end2).last() == w.n && post.filled.contains(w.end2) && post.sealed.contains(w.end2)
        &&& forall|a: BBId| #[trigger] g.edge_count(a, w.n) == w.joining(p, a)
        &&& post.sealed.contains(w.t) && post.sealed.contains(w.n)
        &&& post.cursor.bb == w.n
    }
}

/// The branches of a conditional, from the steps that build it: the
/// states in order are the start, behind the branch, behind the first arm
/// and its end, and, with an else, behind entering the else, the else and
/// its end.
pub proof fn lemma_cond_edges(
    f0: FuncView,
    ff: FuncView,
    fs: FuncView,
    f1: FuncView,
    f2: FuncView,
    f3: FuncView,
    g: FuncView,
    p: BBId,
    w: Arms,
)
    requires
        f0.adds(ff, p, seq![w.t, w.other()]),
        ff.spares(fs, w.t),
        fs.adds(f1, w.end1, seq![w.n]),
        w.e is None ==> f1.same_edges(g),
        w.e matches Some(x) ==> f1.same_edges(f2) && f2.spares(f3, x) && f3.adds(g, w.end2, seq![w.n]) && (w.end2 == x
            || !f2.chains.dom().contains(w.end2)) && ff.chains.dom().contains(x) && x != w.t && x != w.n && x != p
            && f2.chains.dom().contains(w.end1) && f2.chains.dom().contains(p) && f2.chains.dom().contains(w.n),
        ff.chains.dom().contains(p),
        ff.chains.dom().contains(w.n),
        ff.chains.dom().contains(w.t),
        p != w.t,
        p != w.n,
        w.t != w.n,
        w.end1 == w.t || !ff.chains.dom().contains(w.end1),
        forall|a: BBId| #[trigger] f0.edge_count(a, w.n) == 0,
    ensures
        g.succ(p) == f0.succ(p) + seq![w.t, w.other()],
        g.succ(w.end1).len() > 0 && g.succ(w.end1).last() == w.n,
        w.e is Some ==> g.succ(w.end2).len() > 0 && g.succ(w.end2).last() == w.n,
        forall|a: BBId| #[trigger] g.edge_count(a, w.n) == w.joining(p, a),
{
    let n = w.n;
    assert(fs.succ(p) == ff.succ(p));
    assert(f1.succ(p) == fs.succ(p));
    assert(fs.succ(w.end1) + seq![n] =~= fs.succ(w.end1).push(n));
    match w.e {
        None => {
            assert(g.succ(p) == f1.succ(p));
            assert(g.succ(w.end1) == f1.succ(w.end1));
        },
        Some(x) => {
            assert(f2.succ(p) == f1.succ(p));
            assert(f3.succ(p) == f2.succ(p));
            assert(g.succ(p) == f3.succ(p));
            assert(w.end1 != x);
            assert(f2.succ(w.end1) == f1.succ(w.end1));
            assert(f3.succ(w.end1) == f2.succ(w.end1));
            assert(w.end1 != w.end2);
            assert(g.succ(w.end1) == f3.succ(w.end1));
            assert(f3.succ(w.end2) + seq![n] =~= f3.succ(w.end2).push(n));
        },
    }
    assert forall|a: BBId| #[trigger] g.edge_count(a, n) == w.joining(p, a) by {
        reveal_with_fuel(occurrences, 3);
        assert(f0.edge_count(a, n) == 0);
        lemma_adds_edges(f0, ff, p, seq![w.t, w.other()], a, n);
        assert(fs.edge_count(a, n) == ff.edge_count(a, n));
        lemma_adds_edges(fs, f1, w.end1, seq![n], a, n);
        match w.e {
            None => {
                assert(g.succ(a) == f1.succ(a));
            },
            Some(x) => {
                assert(f2.succ(a) == f1.succ(a));
                assert(f3.edge_count(a, n) == f2.edge_count(a, n));
                lemma_adds_edges(f3, g, w.end2, seq![n], a, n);
            },
        }
    }
}

/// Behind a loop, every phi in its header has one operand from the block
/// that jumps into the loop and one from the end of its body, and no
/// other, and is not trivial. This holds of a builder at rest.
pub proof fn lemma_loop_phis(pre: BuilderView, post: BuilderView, h: BBId, l: BBId, n: BBId, e: BBId, i: InstId)
    requires
        pre.loop_shape(post, h, l, n, e),
        post.at_rest(),
        post.func.is_phi(i),
        post.func.in_block(i, h),
    ensures
        post.func.phi_keys(i) == set![pre.cursor.bb, e],
        !post.func.trivial(i),
{
    let g = post.func;
    let p = pre.cursor.bb;
    assert(post.obliged(i, h));
    assert(post.settled(i, h));
    assert(g.preds(h) =~= set![p, e]) by {
        assert forall|a: BBId| g.preds(h).contains(a) <==> set![p, e].contains(a) by {
            assert(g.edge_count(a, h) == (if a == p {
                1nat
            } else {
                0nat
            }) + (if a == e {
                1nat
            } else {
                0nat
            }));
        }
    }
}

/// Behind a conditional, every phi in the block behind it has one
/// operand from the end of each arm, or from the block that branches
/// where there is no else, and no other, and is not trivial. This holds
/// of a builder at rest.
pub proof fn lemma_join_phis(pre: BuilderView, post: BuilderView, w: Arms, i: InstId)
    requires
        pre.cond_shape(post, w),
        post.at_rest(),
        post.func.is_phi(i),
        post.func.in_block(i, w.n),
    ensures
        post.func.phi_keys(i) == set![w.end1, match w.e {
            Some(_) => w.end2,
            None => pre.cursor.bb,
        }],
        !post.func.trivial(i),
{
    let g = post.func;
    let p = pre.cursor.bb;
    let second = match w.e {
        Some(_) => w.end2,
        None => p,
    };
    assert(post.obliged(i, w.n));
    assert(post.settled(i, w.n));
    assert(g.preds(w.n) =~= set![w.end1, second]) by {
        assert forall|a: BBId| g.preds(w.n).contains(a) <==> set![w.end1, second].contains(a) by {
            assert(g.edge_count(a, w.n) == w.joining(p, a));
        }
    }
}

/// Leaving a loop in whose header one phi waits, for a variable whose
/// definition `x` comes into the loop and is handed round to the header
/// unchanged, removes the phi: with the jump back from the end of the
/// body, every predecessor of the header hands on `x` or the phi itself,
/// and one of them `x`. Every definition that was the phi is `x` then,
/// and the other definitions stay. This holds of a builder that collects
/// no operands, in which no instruction, branch or definition names an
/// instruction that is not there, and in which no other phi reads the
/// phi.
pub proof fn lemma_loop_resolves(
    s: BuilderView,
    post: BuilderView,
    h: BBId,
    n: BBId,
    var: Variable,
    phi: InstId,
    x: InstId,
    from: BBId,
)
    requires
        s.leaves(post, h, n),
        s.sealed.contains(s.cursor.bb),
        !s.sealed.contains(h),
        waiting_in(s.pending, h) == seq![Pending { bb: h, var, phi }],
        s.arm_to(h).sound(),
        s.filling.len() == 0,
        s.func.insts.dom().contains(phi),
        s.func.insts[phi].kind matches InstKind::Phi(ops) && ops@ == Map::<BBId, InstId>::empty(),
        forall|u: InstId| !s.func.phi_user(u, phi),
        x != phi,
        s.func.chains.dom().len() > 0,
        s.arm_to(h).func.edge_count(from, h) > 0,
        (BuilderView { sealed: s.sealed.insert(h), ..s.arm_to(h) }).hands(var, from, x),
        forall|a: BBId|
            #[trigger] s.arm_to(h).func.edge_count(a, h) > 0 ==> (BuilderView {
                sealed: s.sealed.insert(h),
                ..s.arm_to(h)
            }).hands(var, a, x) || (BuilderView { sealed: s.sealed.insert(h), ..s.arm_to(h) }).hands(var, a, phi),
    ensures
        post.func.insts.dom().contains(phi) && post.func.insts[phi].kind is Dead,
        forall|key: (Variable, BBId)|
            #![trigger s.defs.dom().contains(key)]
            s.defs.dom().contains(key) ==> post.defs.dom().contains(key) && post.defs[key] == rerouted(
                s.defs[key],
                phi,
                x,
            ),
        post.sealed == s.sealed.insert(h),
        post.cursor.bb == n,
{
    let a = s.arm_to(h);
    let m1 = choose|m1: BuilderView|
        #![trigger way(m1)]
        way(m1) && a.seals(m1, s.cursor.bb) && exists|m2: BuilderView|
            #![trigger way(m2)]
            way(m2) && m1.seals(m2, h) && post == m2.at_end_of(n);
    let m2 = choose|m2: BuilderView| #![trigger way(m2)] way(m2) && m1.seals(m2, h) && post == m2.at_end_of(n);
    assert(m1 == a);
    assert(a.func.insts == s.func.insts);
    assert forall|u: InstId| !a.func.phi_user(u, phi) by {
        if a.func.phi_user(u, phi) {
            assert(s.func.phi_user(u, phi));
        }
    }
    lemma_seal_resolves(a, m2, h, var, phi, x, from);
}

/// Behind a conditional whose arms end in blocks that hand on the one
/// definition `x` of a variable, reading the variable gives `x`, and no
/// phi stays for it: where there is no else, the block that branches
/// hands on `x` too. This holds of a builder that collects no operands
/// and in which no instruction, branch or definition names an instruction
/// that is not there.
pub proof fn lemma_read_behind_cond(
    pre: BuilderView,
    post: BuilderView,
    w: Arms,
    last: BuilderView,
    var: Variable,
    budget: nat,
    r: InstId,
    d: nat,
    x: InstId,
)
    requires
        pre.cond_shape(post, w),
        post.sound(),
        post.filling.len() == 0,
        post.func.chains.dom().finite(),
        !post.defs.dom().contains((var, w.n)),
        post.hands(var, w.end1, x),
        w.e is Some ==> post.hands(var, w.end2, x),
        w.e is None ==> post.hands(var, pre.cursor.bb, x),
        post.reads_at(last, var, w.n, budget, r, d),
        budget > 1,
    ensures
        r == x,
        last.defs.dom().contains((var, w.n)) && last.defs[(var, w.n)] == x,
        post.more_defs(last, var, x),
{
    let g = post.func;
    let p = pre.cursor.bb;
    assert(g.edge_count(w.end1, w.n) == w.joining(p, w.end1));
    assert forall|a: BBId| #[trigger] g.edge_count(a, w.n) > 0 implies post.hands(var, a, x) by {
        assert(g.edge_count(a, w.n) == w.joining(p, a));
    }
    assert(g.chains.dom().len() > 0) by {
        if g.chains.dom().len() == 0 {
            assert(g.chains.dom() =~= Set::<BBId>::empty());
        }
    }
    lemma_read_joined(post, last, var, w.n, budget, r, d, x, w.end1);
}

/// The branches that a step has added behind those of a block are the
/// branches more that go from it to any block; the branches from the
/// other blocks are as before.
pub proof fn lemma_adds_edges(a: FuncView, b: FuncView, from: BBId, more: Seq<BBId>, x: BBId, y: BBId)
    requires
        a.adds(b, from, more),
    ensures
        b.edge_count(x, y) == a.edge_count(x, y) + (if x == from {
            occurrences(more, y)
        } else {
            0nat
        }),
{
    if x == from {
        lemma_occurrences_add(a.succ(x), more, y);
    } else {
        assert(b.succ(x) == a.succ(x));
    }
}

/// Where every branch goes to a block of the function, no branch goes to
/// a block that the function has not.
pub proof fn lemma_no_edge_to_new(f: FuncView, a: BBId, n: BBId)
    requires
        f.targets_live(),
        !f.chains.dom().contains(n),
    ensures
        f.edge_count(a, n) == 0,
{
    assert forall|k: int| 0 <= k < f.succ(a).len() implies f.succ(a)[k] != n by {
        assert(f.chains.dom().contains(f.succ(a)[k]));
    }
    lemma_occurrences_none(f.succ(a), n);
}

/// Branches to blocks of the function stay branches to its blocks where
/// blocks are only added and no successor changes.
pub proof fn lemma_targets_same(a: FuncView, b: FuncView)
    requires
        a.targets_live(),
        a.same_edges(b),
        a.chains.dom().subset_of(b.chains.dom()),
    ensures
        b.targets_live(),
{
    assert forall|x: BBId, k: int| 0 <= k < b.succ(x).len() implies b.chains.dom().contains(
        #[trigger] b.succ(x)[k],
    ) by {
        assert(b.succ(x) == a.succ(x));
        assert(a.chains.dom().contains(a.succ(x)[k]));
    }
}

/// Branches to blocks of the function stay branches to its blocks where
/// one block gets branches more to blocks of the function.
pub proof fn lemma_targets_adds(a: FuncView, b: FuncView, from: BBId, more: Seq<BBId>)
    requires
        a.targets_live(),
        a.adds(b, from, more),
        a.chains.dom().subset_of(b.chains.dom()),
        forall|k: int| 0 <= k < more.len() ==> b.chains.dom().contains(#[trigger] more[k]),
    ensures
        b.targets_live(),
{
    assert forall|x: BBId, k: int| 0 <= k < b.succ(x).len() implies b.chains.dom().contains(
        #[trigger] b.succ(x)[k],
    ) by {
        if x == from {
            let s = a.succ(x);
            if k < s.len() {
                assert((s + more)[k] == s[k]);
                assert(a.chains.dom().contains(s[k]));
            } else {
                assert((s + more)[k] == more[k - s.len()]);
            }
        } else {
            assert(b.succ(x) == a.succ(x));
            assert(a.chains.dom().contains(a.succ(x)[k]));
        }
    }
}

impl ReturnStmt {
    /// The value is built if there is one, the cursor's block gets the
    /// `return`, and building goes on in a new block. Where the value
    /// fails, nothing more is built.
    pub open spec fn builds(&self, pre: BuilderView, post: BuilderView, r: Result<(), Error>) -> bool {
        match self.val {
            None => r == Ok::<(), Error>(()) && exists|id: BBId|
                #![trigger pre.gives_back(post, None, id)]
                pre.gives_back(post, None, id),
            Some(e) => exists|m: BuilderView, re: Result<(Value, Ty), Error>|
                #![trigger step(m, re)]
                step(m, re) && e.builds(pre, m, re) && match re {
                    Err(x) => post == m && r == Err::<(), Error>(x),
                    Ok((v, _)) => r == Ok::<(), Error>(()) && exists|id: BBId|
                        #![trigger m.gives_back(post, Some(v), id)]
                        m.gives_back(post, Some(v), id),
                },
        }
    }
}

impl DeclStmt {
    /// Where the variable has a first value, the value is built and
    /// becomes the definition of the variable in the cursor's block. Where
    /// the value fails, or its type is not that of the variable, nothing
    /// more is built.
    pub open spec fn builds(&self, pre: BuilderView, post: BuilderView, r: Result<(), Error>) -> bool {
        match self.val {
            None => post == pre && r == Ok::<(), Error>(()),
            Some(e) => exists|m: BuilderView, re: Result<(Value, Ty), Error>|
                #![trigger step(m, re)]
                step(m, re) && e.builds(pre, m, re) && match re {
                    Err(x) => post == m && r == Err::<(), Error>(x),
                    Ok((v, t)) => if self.var.ty != t {
                        post == m && r == Err::<(), Error>(mismatch(self.var.ty, t))
                    } else {
                        r == Ok::<(), Error>(()) && exists|inst: InstId|
                            #![trigger m.defines(post, self.var, v, t, inst)]
                            m.defines(post, self.var, v, t, inst)
                    },
                },
        }
    }
}

/// True if building the expression `e` as a statement can take the
/// builder from `pre` to `post` with the result `r`.
pub open spec fn builds_expr(e: &Expr, pre: BuilderView, post: BuilderView, r: Result<(), Error>) -> bool {
    exists|re: Result<(Value, Ty), Error>|
        #![trigger step(post, re)]
        step(post, re) && e.builds(pre, post, re) && r == dropped(re)
}

/// True if building the first `upto` of the statements `stmts` in order,
/// each with success, can take the builder from `pre` to `post`.
pub open spec fn built_upto(stmts: Seq<Stmt>, upto: int, pre: BuilderView, post: BuilderView) -> bool
    decreases stmts, upto,
{
    if upto <= 0 {
        post == pre
    } else {
        exists|m: BuilderView|
            #![trigger way(m)]
            way(m) && built_upto(stmts, upto - 1, pre, m) && 0 <= upto - 1 < stmts.len() && stmts[upto - 1].builds(
                m,
                post,
                Ok::<(), Error>(()),
            )
    }
}

impl BlockStmt {
    /// The statements are built in order, up to the first that fails.
    pub open spec fn builds(&self, pre: BuilderView, post: BuilderView, r: Result<(), Error>) -> bool
        decreases self,
    {
        match r {
            Ok(_) => built_upto(self.stmts@, self.stmts@.len() as int, pre, post),
            Err(e) => exists|k: int, m: BuilderView|
                #![trigger upto(k, m)]
                upto(k, m) && 0 <= k < self.stmts@.len() && built_upto(self.stmts@, k, pre, m) && self.stmts@[k].builds(
                    m,
                    post,
                    Err::<(), Error>(e),
                ),
        }
    }
}

impl IfElseBlock {
    /// What stands for the else is built: nothing, a block, or a further
    /// conditional.
    pub open spec fn builds(&self, pre: BuilderView, post: BuilderView, r: Result<(), Error>) -> bool
        decreases self,
    {
        match self {
            IfElseBlock::Absent => post == pre && r == Ok::<(), Error>(()),
            IfElseBlock::If(i) => i.builds(pre, post, r),
            IfElseBlock::Block(b) => b.builds(pre, post, r),
        }
    }
}

impl IfStmt {
    /// True if `post` is `mid`, the state behind the first arm, with the
    /// rest of the conditional built: the first arm goes on at `n`; with
    /// an else, `e` is sealed and entered, the else is built, and it goes
    /// on at `n` too; then `n` is sealed and entered.
    pub open spec fn joins(
        &self,
        mid: BuilderView,
        post: BuilderView,
        n: BBId,
        e: Option<BBId>,
        r: Result<(), Error>,
    ) -> bool
        decreases self, 0int,
    {
        match e {
            None => mid.arm_to(n).enters(post, n) && r == Ok::<(), Error>(()),
            Some(x) => exists|m: BuilderView|
                #![trigger way(m)]
                way(m) && mid.arm_to(n).enters(m, x) && exists|s: BuilderView, re: Result<(), Error>|
                    #![trigger halt(s, re)]
                    halt(s, re) && self.else_block.builds(m, s, re) && match re {
                        Err(x) => post == s && r == Err::<(), Error>(x),
                        Ok(_) => s.arm_to(n).enters(post, n) && r == Ok::<(), Error>(()),
                    },
        }
    }

    /// The condition is built. The cursor's block branches to the new
    /// block of the first arm, which is built there. Both arms go on at a
    /// new block, where the cursor is in the end. Where a part fails,
    /// nothing more is built.
    pub open spec fn builds(&self, pre: BuilderView, post: BuilderView, r: Result<(), Error>) -> bool
        decreases self, 1int,
    {
        exists|m: BuilderView, rc: Result<(Value, Ty), Error>|
            #![trigger step(m, rc)]
            step(m, rc) && self.cond.builds(pre, m, rc) && match rc {
                Err(x) => post == m && r == Err::<(), Error>(x),
                Ok((cond, _)) => exists|t: BBId, n: BBId, e: Option<BBId>, f: BuilderView|
                    #![trigger m.forks(f, cond, t, n, e)]
                    m.forks(f, cond, t, n, e) && (e is Some <==> !(self.else_block is Absent)) && exists|
                        s: BuilderView,
                        rt: Result<(), Error>,
                    |
                        #![trigger halt(s, rt)]
                        halt(s, rt) && self.if_block.builds(f, s, rt) && match rt {
                            Err(x) => post == s && r == Err::<(), Error>(x),
                            Ok(_) => self.joins(s, post, n, e, r),
                        },
            }
    }
}

impl WhileStmt {
    /// The cursor's block jumps to the new header of the loop, where the
    /// condition is built. The header branches to the new block of the
    /// body, which is built there and goes back to the header, and to a
    /// new block, where the cursor is in the end. Where a part fails,
    /// nothing more is built.
    pub open spec fn builds(&self, pre: BuilderView, post: BuilderView, r: Result<(), Error>) -> bool
        decreases self,
    {
        exists|h: BBId, b: BuilderView|
            #![trigger pre.loops(b, h)]
            pre.loops(b, h) && exists|m: BuilderView, rc: Result<(Value, Ty), Error>|
                #![trigger step(m, rc)]
                step(m, rc) && self.cond.builds(b, m, rc) && match rc {
                    Err(x) => post == m && r == Err::<(), Error>(x),
                    Ok((cond, _)) => exists|l: BBId, n: BBId, f: BuilderView|
                        #![trigger m.tests(f, cond, h, l, n)]
                        m.tests(f, cond, h, l, n) && exists|s: BuilderView, rb: Result<(), Error>|
                            #![trigger halt(s, rb)]
                            halt(s, rb) && self.body.builds(f, s, rb) && match rb {
                                Err(x) => post == s && r == Err::<(), Error>(x),
                                Ok(_) => s.leaves(post, h, n) && r == Ok::<(), Error>(()),
                            },
                }
    }
}

impl BuilderView {
    /// True if `post` is this state with the parameter at position
    /// `index` stored as the new instruction `id` at the start of the
    /// first block, and made the definition of `var` there. The cursor
    /// stays at its instruction; a cursor in the empty first block moves
    /// to the parameter.
    pub open spec fn declares(self, post: BuilderView, var: Variable, index: usize, id: InstId) -> bool {
        let first = self.func.first_block.unwrap();
        &&& !self.func.insts.dom().contains(id)
        &&& post == (BuilderView {
            func: self.func.with_new(first, 0, id, Inst { kind: InstKind::Param(index), ty: var.ty }),
            cursor: Cursor {
                bb: self.cursor.bb,
                idx: if self.cursor.idx.is_none() && self.cursor.bb == first {
                    Some(id)
                } else {
                    self.cursor.idx
                },
            },
            defs: self.defs.insert((var, first), id),
            ..self
        })
    }
}

/// True if declaring the first `upto` of the parameters `params` in order
/// can take the builder from `pre` to `post`.
pub open spec fn declared_upto(params: Seq<Variable>, upto: int, pre: BuilderView, post: BuilderView) -> bool
    decreases upto,
{
    if upto <= 0 {
        post == pre
    } else {
        exists|m: BuilderView, id: InstId|
            #![trigger place_inst(id, m)]
            place_inst(id, m) && declared_upto(params, upto - 1, pre, m) && 0 <= upto - 1 < params.len() && upto - 1
                <= usize::MAX && m.declares(post, params[upto - 1], (upto - 1) as usize, id)
    }
}

/// Marks the instruction `id` and the state `m` as a step on the way from
/// one state to another. It holds of every instruction and state.
pub open spec fn place_inst(id: InstId, m: BuilderView) -> bool {
    true
}

/// The builder at the start of a function named `name` with the result
/// type `ty`: the function has the one empty block `entry`, which is
/// sealed, the cursor is in it, and nothing is defined.
pub open spec fn fresh(name: SmolStr, ty: Ty, entry: BBId) -> BuilderView {
    BuilderView {
        func: FuncView {
            insts: Map::empty(),
            chains: Map::<BBId, Seq<InstId>>::empty().insert(entry, Seq::empty()),
            jumps: Map::<BBId, Seq<Branch>>::empty().insert(entry, Seq::empty()),
            order: Map::<BBId, (Option<BBId>, Option<BBId>)>::empty().insert(entry, (None, None)),
            first_block: Some(entry),
            ty,
            name,
        },
        cursor: Cursor { bb: entry, idx: None },
        defs: Map::empty(),
        sealed: Set::<BBId>::empty().insert(entry),
        filled: Set::empty(),
        pending: Seq::empty(),
        filling: Seq::empty(),
    }
}

/// The result of building a function, without the function.
pub open spec fn outcome(r: Result<TacFunc, Error>) -> Result<(), Error> {
    match r {
        Ok(_) => Ok(()),
        Err(e) => Err(e),
    }
}

impl FuncStmt {
    /// True if `r` is what building this function from nothing can give:
    /// building it takes the builder from the start of a function of its
    /// name and result type to a last state, and with success `r` is the
    /// function of that state.
    pub open spec fn compiles_to(&self, r: Result<TacFunc, Error>) -> bool {
        exists|name: SmolStr, entry: BBId, last: BuilderView|
            #![trigger self.builds(fresh(name, self.ret_ty, entry), last, outcome(r))]
            smol_str_text(name) == smol_str_text(self.name) && self.builds(
                fresh(name, self.ret_ty, entry),
                last,
                outcome(r),
            ) && (r matches Ok(f) ==> f@ == last.func)
    }

    /// The parameters are declared in order, and the body is built.
    pub open spec fn builds(&self, pre: BuilderView, post: BuilderView, r: Result<(), Error>) -> bool {
        exists|m: BuilderView|
            #![trigger way(m)]
            way(m) && declared_upto(self.params@, self.params@.len() as int, pre, m) && self.body.builds(m, post, r)
    }
}

impl Stmt {
    /// True if building this statement can take the builder from `pre` to
    /// `post` with the result `r`. An empty statement builds nothing.
    pub open spec fn builds(&self, pre: BuilderView, post: BuilderView, r: Result<(), Error>) -> bool
        decreases self,
    {
        match self {
            Stmt::If(i) => i.builds(pre, post, r),
            Stmt::While(w) => w.builds(pre, post, r),
            Stmt::Return(x) => x.builds(pre, post, r),
            Stmt::Block(b) => b.builds(pre, post, r),
            Stmt::Expr(e) => builds_expr(e, pre, post, r),
            Stmt::Decl(d) => d.builds(pre, post, r),
            Stmt::Empty => post == pre && r == Ok::<(), Error>(()),
        }
    }
}

} // verus!
