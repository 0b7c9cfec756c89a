//! What reading a variable and sealing a block do to the builder.
//!
//! Each operation has a relation between the builder before and after it.
//! The relations follow the construction step by step. Two things are left
//! open, as the operations leave them open: the order in which the
//! predecessors of a block are asked, and the order in which the users of
//! a removed phi are looked at. A relation takes a depth, which bounds how
//! deep the operations are nested; an operation promises its relation at
//! some depth.

use vstd::prelude::*;
use crate::builder::func_editor::occurrences;
use crate::builder::ssa::{lemma_occurs, trivial_with, BuilderView, Pending};
use crate::builder::tables::{rerouted, Variable};
use crate::builder::tidy::lemma_occurrences_contains;
use crate::func::FuncView;
use crate::handle::{BBId, InstId};
use crate::inst::{Inst, InstKind};
use crate::phi::{has_value, lemma_no_entries, lemma_value_of_key};

verus! {

/// Marks the depth `d` as the depth of a step. It holds of every depth.
pub open spec fn deep(d: nat) -> bool {
    true
}

/// Marks the state `m` as a step on the way from one state to another, at
/// the depth `d`. It holds of every state and depth.
pub open spec fn pass(m: BuilderView, d: nat) -> bool {
    true
}

/// Marks the state `m` and the instruction `i` as a step on the way from
/// one state to another. It holds of every state and instruction.
pub open spec fn got(m: BuilderView, i: InstId) -> bool {
    true
}

/// The phis of `s` that wait in `bb`, in the order of `s`.
pub open spec fn waiting_in(s: Seq<Pending>, bb: BBId) -> Seq<Pending>
    decreases s.len(),
{
    if s.len() == 0 {
        Seq::<Pending>::empty()
    } else if s.last().bb == bb {
        waiting_in(s.drop_last(), bb).push(s.last())
    } else {
        waiting_in(s.drop_last(), bb)
    }
}

/// The phis of `s` that wait in other blocks than `bb`, in the order of
/// `s`.
pub open spec fn waiting_out(s: Seq<Pending>, bb: BBId) -> Seq<Pending>
    decreases s.len(),
{
    if s.len() == 0 {
        Seq::<Pending>::empty()
    } else if s.last().bb == bb {
        waiting_out(s.drop_last(), bb)
    } else {
        waiting_out(s.drop_last(), bb).push(s.last())
    }
}

impl FuncView {
    /// True if `preds` lists the blocks with a branch to `bb`, each as
    /// often as it has such branches, in some order.
    pub open spec fn comes_from(self, bb: BBId, preds: Seq<BBId>) -> bool {
        forall|a: BBId| #[trigger] occurrences(preds, a) == self.edge_count(a, bb)
    }

    /// True if `p` has one branch to `bb`, and no other block has one.
    pub open spec fn sole_pred(self, bb: BBId, p: BBId) -> bool {
        &&& self.edge_count(p, bb) == 1
        &&& forall|a: BBId| a != p ==> #[trigger] self.edge_count(a, bb) == 0
    }

    /// True if `users` lists the phis other than `phi` that read the
    /// result of `phi`, each once, in some order.
    pub open spec fn read_by(self, phi: InstId, users: Seq<InstId>) -> bool {
        &&& users.no_duplicates()
        &&& forall|u: InstId| users.contains(u) <==> #[trigger] self.phi_user(u, phi)
    }

    /// The operand that makes the phi `phi` trivial, if it is a phi and
    /// has such an operand.
    pub open spec fn sole(self, phi: InstId, x: InstId) -> bool {
        self.insts[phi].kind matches InstKind::Phi(ops) && trivial_with(ops.entries(), phi, x)
    }
}

impl BuilderView {
    /// True if `post` is this state with the new phi `id` for `var`,
    /// without operands, stored at the start of `bb`. The cursor stays at
    /// its instruction; a cursor in the empty block `bb` moves to the phi.
    pub open spec fn places(self, post: BuilderView, id: InstId, var: Variable, bb: BBId) -> bool {
        &&& !self.func.insts.dom().contains(id)
        &&& post.func == self.func.with_new(bb, 0, id, post.func.insts[id])
        &&& post.func.insts[id].ty == var.ty
        &&& post.func.insts[id].kind matches InstKind::Phi(ops) && ops@ == Map::<BBId, InstId>::empty()
        &&& post == (BuilderView { func: post.func, cursor: post.cursor, ..self })
        &&& post.cursor.bb == self.cursor.bb
        &&& post.cursor.idx == (if self.cursor.idx.is_none() && self.cursor.bb == bb {
            Some(id)
        } else {
            self.cursor.idx
        })
    }

    /// True if `post` is this state with the result of `val` as the
    /// operand of the live phi `phi` from `pred`. Nothing else changes.
    pub open spec fn sets(self, post: BuilderView, phi: InstId, pred: BBId, val: InstId) -> bool {
        &&& post == (BuilderView { func: post.func, ..self })
        &&& post.func == (FuncView { insts: post.func.insts, ..self.func })
        &&& post.func.insts.dom() == self.func.insts.dom()
        &&& forall|i: InstId| i != phi ==> post.func.insts[i] == self.func.insts[i]
        &&& post.func.insts[phi].ty == self.func.insts[phi].ty
        &&& match self.func.insts[phi].kind {
            InstKind::Phi(ops) => self.func.insts.dom().contains(phi) ==> (post.func.insts[phi].kind matches InstKind::Phi(
                ops2,
            ) && ops2@ == ops@.insert(pred, val) && forall|x: InstId|
                has_value(ops2.entries(), x) ==> x == val || has_value(ops.entries(), x)),
            _ => post.func.insts[phi] == self.func.insts[phi],
        }
    }

    /// True if `post` is this state with the trivial phi `phi` replaced by
    /// `x`: every instruction, branch and definition that named the result
    /// of `phi` names the result of `x`, and `phi` is removed. Its record
    /// stays in its block.
    pub open spec fn replaces(self, post: BuilderView, phi: InstId, x: InstId) -> bool {
        &&& post == (BuilderView { func: post.func, defs: post.defs, ..self })
        &&& post.defs.dom() == self.defs.dom()
        &&& forall|k: (Variable, BBId)|
            self.defs.dom().contains(k) ==> #[trigger] post.defs[k] == rerouted(self.defs[k], phi, x)
        &&& exists|m: FuncView|
            #![trigger self.func.renamed_to(m, phi, x)]
            self.func.renamed_to(m, phi, x) && post.func == (FuncView {
                insts: m.insts.insert(phi, Inst { kind: InstKind::Dead, ty: m.insts[phi].ty }),
                ..m
            })
    }

    /// True if `post` can come from this state by looking at the phis
    /// `users[0]`, .., `users[k - 1]` in order and removing those that are
    /// trivial, nested less deep than `d`.
    pub open spec fn removes_upto(self, post: BuilderView, users: Seq<InstId>, k: int, d: nat) -> bool
        decreases d, 0int, k,
    {
        if k <= 0 {
            post == self
        } else {
            exists|m: BuilderView, e: nat|
                #![trigger pass(m, e)]
                pass(m, e) && e < d && self.removes_upto(m, users, k - 1, d) && 0 <= k - 1 < users.len() && m.removes(
                    post,
                    users[k - 1],
                    e,
                )
        }
    }

    /// True if `post` can come from this state by removing `phi` if it is
    /// a trivial phi, at the depth `d`. A phi is trivial if all its
    /// operands but itself are one instruction. It is replaced by that
    /// instruction, and the phis that read it are looked at in turn.
    /// Nothing happens to an instruction that is not live, that is no phi,
    /// that is not trivial, or whose operands are being collected.
    pub open spec fn removes(self, post: BuilderView, phi: InstId, d: nat) -> bool
        decreases d, 1int, 0int,
    {
        if self.func.insts.dom().contains(phi) && !self.filling.contains(phi) && exists|x: InstId|
            self.func.sole(phi, x) {
            exists|x: InstId, users: Seq<InstId>, m: BuilderView|
                #![trigger self.replaces(m, phi, x), self.func.read_by(phi, users)]
                self.func.sole(phi, x) && self.func.read_by(phi, users) && self.replaces(m, phi, x) && m.removes_upto(
                    post,
                    users,
                    users.len() as int,
                    d,
                )
        } else {
            post == self
        }
    }

    /// True if `post` can come from this state by giving the phi `phi`,
    /// which stands for `var`, its operands from `preds[0]`, ..,
    /// `preds[k - 1]` in order: `var` is read at the end of each, with the
    /// budget `total`, nested less deep than `d`.
    pub open spec fn fills_upto(
        self,
        post: BuilderView,
        phi: InstId,
        var: Variable,
        preds: Seq<BBId>,
        k: int,
        total: nat,
        d: nat,
    ) -> bool
        decreases d, 0int, k,
    {
        if k <= 0 {
            post == self
        } else {
            exists|m: BuilderView, e: nat|
                #![trigger pass(m, e)]
                pass(m, e) && e < d && self.fills_upto(m, phi, var, preds, k - 1, total, d) && 0 <= k - 1 < preds.len()
                    && exists|n: BuilderView, val: InstId|
                    #![trigger got(n, val)]
                    got(n, val) && m.reads_at(n, var, preds[k - 1], total, val, e) && n.sets(
                        post,
                        phi,
                        preds[k - 1],
                        val,
                    )
        }
    }

    /// True if `post` can come from this state by giving the phi `phi`,
    /// which stands in `bb` for `var`, an operand for each predecessor of
    /// `bb`, at the depth `d`.
    pub open spec fn fills(self, post: BuilderView, phi: InstId, var: Variable, bb: BBId, d: nat) -> bool
        decreases d, 1int, 0int,
    {
        exists|preds: Seq<BBId>|
            #![trigger self.func.comes_from(bb, preds)]
            self.func.comes_from(bb, preds) && self.fills_upto(
                post,
                phi,
                var,
                preds,
                preds.len() as int,
                self.func.chains.dom().len(),
                d,
            )
    }

    /// This state with `inst` as the definition of `var` in `bb`.
    pub open spec fn defined(self, var: Variable, bb: BBId, inst: InstId) -> BuilderView {
        BuilderView { defs: self.defs.insert((var, bb), inst), ..self }
    }

    /// True if `post` can come from this state by reading `var` at the end
    /// of `bb` with the result `r`, at the depth `d`.
    ///
    /// A definition in `bb` is the result, and nothing changes. Else, in a
    /// block that is not sealed, a new phi is placed, which waits for the
    /// block to be sealed, and is the result. In a sealed block with one
    /// branch into it, the result is what reading at the end of the block
    /// of that branch gives, as long as `budget` lasts. In any other
    /// sealed block a new phi is placed, gets its operands, and is removed
    /// if it turns out trivial; the result is the definition in `bb` then.
    /// In the last three cases the result becomes the definition in `bb`.
    pub open spec fn reads_at(self, post: BuilderView, var: Variable, bb: BBId, budget: nat, r: InstId, d: nat) -> bool
        decreases d, 0int, 0int,
    {
        if self.defs.dom().contains((var, bb)) {
            post == self && r == self.defs[(var, bb)]
        } else if !self.sealed.contains(bb) {
            exists|m: BuilderView|
                #![trigger self.places(m, r, var, bb)]
                self.places(m, r, var, bb) && post == (BuilderView {
                    pending: m.pending.push(Pending { bb, var, phi: r }),
                    ..m
                }).defined(var, bb, r)
        } else {
            exists|preds: Seq<BBId>|
                #![trigger self.func.comes_from(bb, preds)]
                self.func.comes_from(bb, preds) && if preds.len() == 1 && budget > 0 {
                    exists|m: BuilderView, e: nat|
                        #![trigger pass(m, e)]
                        pass(m, e) && e < d && self.reads_at(m, var, preds[0], (budget - 1) as nat, r, e) && post
                            == m.defined(var, bb, r)
                } else {
                    exists|phi: InstId, a: BuilderView|
                        #![trigger self.places(a, phi, var, bb)]
                        self.places(a, phi, var, bb) && exists|m: BuilderView, e: nat|
                            #![trigger pass(m, e)]
                            pass(m, e) && e < d && (BuilderView { filling: a.filling.push(phi), ..a }).defined(
                                var,
                                bb,
                                phi,
                            ).fills(m, phi, var, bb, e) && exists|e2: nat|
                                #![trigger deep(e2)]
                                deep(e2) && e2 < d && (BuilderView { filling: m.filling.drop_last(), ..m }).removes(
                                    post,
                                    phi,
                                    e2,
                                ) && r == (if post.defs.dom().contains((var, bb)) {
                                    post.defs[(var, bb)]
                                } else {
                                    phi
                                })
                }
        }
    }

    /// True if `post` can come from this state by completing the phis
    /// `todo[k]`, .., `todo[todo.len() - 1]` of `bb`, the last first: each
    /// gets its operands, and is removed if it turns out trivial.
    pub open spec fn completes_from(self, post: BuilderView, todo: Seq<Pending>, bb: BBId, k: int, d: nat) -> bool
        decreases d, 0int, todo.len() - k,
    {
        if k >= todo.len() || k < 0 {
            post == self
        } else {
            exists|m: BuilderView, e: nat|
                #![trigger pass(m, e)]
                pass(m, e) && e < d && self.completes_from(m, todo, bb, k + 1, d) && exists|n: BuilderView, e2: nat|
                    #![trigger pass(n, e2)]
                    pass(n, e2) && e2 < d && m.fills(n, todo[k].phi, todo[k].var, bb, e) && (BuilderView {
                        filling: n.filling.drop_last(),
                        ..n
                    }).removes(post, todo[k].phi, e2)
        }
    }

    /// True if `post` can come from this state by sealing `bb`. A sealed
    /// block stays as it is. Else the block is sealed, and the phis that
    /// waited in it wait no more and are completed, the last first.
    pub open spec fn seals_to(self, post: BuilderView, bb: BBId) -> bool {
        if self.sealed.contains(bb) {
            post == self
        } else {
            exists|todo: Seq<Pending>, m: BuilderView, d: nat|
                #![trigger m.completes_from(post, todo, bb, 0, d)]
                m.completes_from(post, todo, bb, 0, d) && m == (BuilderView {
                    sealed: self.sealed.insert(bb),
                    pending: m.pending,
                    filling: self.filling + todo.map_values(|p: Pending| p.phi),
                    ..self
                }) && todo == waiting_in(self.pending, bb) && m.pending == waiting_out(self.pending, bb)
        }
    }
}

/// What holds of the first users nested less deep than `d` holds nested
/// less deep than any greater depth.
pub proof fn lemma_removes_more(pre: BuilderView, post: BuilderView, users: Seq<InstId>, k: int, d: nat, top: nat)
    requires
        pre.removes_upto(post, users, k, d),
        d <= top,
    ensures
        pre.removes_upto(post, users, k, top),
    decreases k,
{
    if k > 0 {
        let (m, e) = choose|m: BuilderView, e: nat|
            #![trigger pass(m, e)]
            pass(m, e) && e < d && pre.removes_upto(m, users, k - 1, d) && 0 <= k - 1 < users.len() && m.removes(
                post,
                users[k - 1],
                e,
            );
        lemma_removes_more(pre, m, users, k - 1, d, top);
        assert(pass(m, e));
    }
}

/// What holds of the first predecessors nested less deep than `d` holds
/// nested less deep than any greater depth.
pub proof fn lemma_fills_more(
    pre: BuilderView,
    post: BuilderView,
    phi: InstId,
    var: Variable,
    preds: Seq<BBId>,
    k: int,
    total: nat,
    d: nat,
    top: nat,
)
    requires
        pre.fills_upto(post, phi, var, preds, k, total, d),
        d <= top,
    ensures
        pre.fills_upto(post, phi, var, preds, k, total, top),
    decreases k,
{
    if k > 0 {
        let (m, e) = choose|m: BuilderView, e: nat|
            #![trigger pass(m, e)]
            pass(m, e) && e < d && pre.fills_upto(m, phi, var, preds, k - 1, total, d) && 0 <= k - 1 < preds.len()
                && exists|n: BuilderView, val: InstId|
                #![trigger got(n, val)]
                got(n, val) && m.reads_at(n, var, preds[k - 1], total, val, e) && n.sets(post, phi, preds[k - 1], val);
        lemma_fills_more(pre, m, phi, var, preds, k - 1, total, d, top);
        assert(pass(m, e));
    }
}

/// What holds of the last waiting phis nested less deep than `d` holds
/// nested less deep than any greater depth.
pub proof fn lemma_completes_more(
    pre: BuilderView,
    post: BuilderView,
    todo: Seq<Pending>,
    bb: BBId,
    k: int,
    d: nat,
    top: nat,
)
    requires
        pre.completes_from(post, todo, bb, k, d),
        d <= top,
    ensures
        pre.completes_from(post, todo, bb, k, top),
    decreases todo.len() - k,
{
    if 0 <= k < todo.len() {
        let (m, e) = choose|m: BuilderView, e: nat|
            #![trigger pass(m, e)]
            pass(m, e) && e < d && pre.completes_from(m, todo, bb, k + 1, d) && exists|n: BuilderView, e2: nat|
                #![trigger pass(n, e2)]
                pass(n, e2) && e2 < d && m.fills(n, todo[k].phi, todo[k].var, bb, e) && (BuilderView {
                    filling: n.filling.drop_last(),
                    ..n
                }).removes(post, todo[k].phi, e2);
        lemma_completes_more(pre, m, todo, bb, k + 1, d, top);
        assert(pass(m, e));
    }
}

/// A block that stands at two positions of a list occurs in it twice at
/// least.
pub proof fn lemma_occurs_twice(s: Seq<BBId>, i: int, j: int)
    requires
        0 <= i < j < s.len(),
        s[i] == s[j],
    ensures
        occurrences(s, s[i]) >= 2,
    decreases s.len(),
{
    if j == s.len() - 1 {
        lemma_occurs(s.drop_last(), i);
    } else {
        lemma_occurs_twice(s.drop_last(), i, j);
    }
}

/// Where one branch goes to `bb`, the list of the predecessors of `bb` is
/// the block of that branch alone.
pub proof fn lemma_one_pred(f: FuncView, bb: BBId, p: BBId, preds: Seq<BBId>)
    requires
        f.comes_from(bb, preds),
        f.sole_pred(bb, p),
    ensures
        preds == seq![p],
{
    assert(occurrences(preds, p) == f.edge_count(p, bb));
    if preds.len() == 0 {
        assert(occurrences(preds, p) == 0);
    }
    lemma_occurs(preds, 0);
    assert(occurrences(preds, preds[0]) == f.edge_count(preds[0], bb));
    assert(preds[0] == p);
    if preds.len() >= 2 {
        lemma_occurs(preds, 1);
        assert(occurrences(preds, preds[1]) == f.edge_count(preds[1], bb));
        assert(preds[1] == p);
        lemma_occurs_twice(preds, 0, 1);
    }
    assert(preds =~= seq![p]);
}

/// Reading a variable in a sealed block without a definition of it, into
/// which one branch goes, is reading it at the end of the block of that
/// branch: the result is the same, and it becomes the definition in the
/// sealed block.
pub proof fn lemma_read_through(
    pre: BuilderView,
    post: BuilderView,
    var: Variable,
    bb: BBId,
    budget: nat,
    r: InstId,
    d: nat,
    p: BBId,
)
    requires
        pre.reads_at(post, var, bb, budget, r, d),
        !pre.defs.dom().contains((var, bb)),
        pre.sealed.contains(bb),
        pre.func.sole_pred(bb, p),
        budget > 0,
    ensures
        exists|m: BuilderView, e: nat|
            #![trigger pass(m, e)]
            pass(m, e) && e < d && pre.reads_at(m, var, p, (budget - 1) as nat, r, e) && post == m.defined(var, bb, r),
{
    assert forall|preds: Seq<BBId>| pre.func.comes_from(bb, preds) implies preds == seq![p] by {
        lemma_one_pred(pre.func, bb, p, preds);
    }
}

/// Giving a new phi its operands from blocks that all have the definition
/// `x` of the variable changes nothing but the phi, and every operand of
/// the phi is `x` then.
pub proof fn lemma_fills_agreed(
    pre: BuilderView,
    post: BuilderView,
    phi: InstId,
    var: Variable,
    preds: Seq<BBId>,
    k: int,
    total: nat,
    d: nat,
    x: InstId,
)
    requires
        pre.fills_upto(post, phi, var, preds, k, total, d),
        0 <= k <= preds.len(),
        forall|j: int|
            0 <= j < preds.len() ==> pre.defs.dom().contains((var, #[trigger] preds[j])) && pre.defs[(var, preds[j])]
                == x,
        pre.func.insts.dom().contains(phi),
        pre.func.insts[phi].kind matches InstKind::Phi(ops) && ops.entries().len() == 0,
    ensures
        post == (BuilderView { func: post.func, ..pre }),
        post.func == (FuncView { insts: post.func.insts, ..pre.func }),
        post.func.insts.dom() == pre.func.insts.dom(),
        forall|i: InstId| i != phi ==> post.func.insts[i] == pre.func.insts[i],
        post.func.insts[phi].kind matches InstKind::Phi(ops) && (forall|v: InstId|
            has_value(ops.entries(), v) ==> v == x) && (k > 0 ==> has_value(ops.entries(), x)),
    decreases k,
{
    if k > 0 {
        let (m, e) = choose|m: BuilderView, e: nat|
            #![trigger pass(m, e)]
            pass(m, e) && e < d && pre.fills_upto(m, phi, var, preds, k - 1, total, d) && 0 <= k - 1 < preds.len()
                && exists|n: BuilderView, val: InstId|
                #![trigger got(n, val)]
                got(n, val) && m.reads_at(n, var, preds[k - 1], total, val, e) && n.sets(post, phi, preds[k - 1], val);
        lemma_fills_agreed(pre, m, phi, var, preds, k - 1, total, d, x);
        let (n, val) = choose|n: BuilderView, val: InstId|
            #![trigger got(n, val)]
            got(n, val) && m.reads_at(n, var, preds[k - 1], total, val, e) && n.sets(post, phi, preds[k - 1], val);
        assert(m.defs == pre.defs);
        assert(m.defs.dom().contains((var, preds[k - 1])));
        assert(n == m && val == x);
        match post.func.insts[phi].kind {
            InstKind::Phi(ops2) => {
                assert(ops2@.dom().contains(preds[k - 1]));
                lemma_value_of_key(ops2, preds[k - 1]);
            },
            _ => {},
        }
    }
}

/// Reading a variable in a sealed block without a definition of it, whose
/// predecessors all have the one definition `x` of it, gives `x`, which
/// becomes the definition in the block; the other definitions stay. This
/// holds of a builder that collects no operands and in which no
/// instruction, branch or definition names an instruction that is not
/// there.
pub proof fn lemma_read_agreed(
    pre: BuilderView,
    post: BuilderView,
    var: Variable,
    bb: BBId,
    budget: nat,
    r: InstId,
    d: nat,
    x: InstId,
    from: BBId,
)
    requires
        pre.reads_at(post, var, bb, budget, r, d),
        !pre.defs.dom().contains((var, bb)),
        pre.sealed.contains(bb),
        pre.sound(),
        pre.filling.len() == 0,
        pre.func.edge_count(from, bb) > 0,
        forall|a: BBId|
            #[trigger] pre.func.edge_count(a, bb) > 0 ==> pre.defs.dom().contains((var, a)) && pre.defs[(var, a)] == x,
    ensures
        r == x,
        post.defs == pre.defs.insert((var, bb), x),
{
    let preds = choose|preds: Seq<BBId>|
        #![trigger pre.func.comes_from(bb, preds)]
        pre.func.comes_from(bb, preds) && if preds.len() == 1 && budget > 0 {
            exists|m: BuilderView, e: nat|
                #![trigger pass(m, e)]
                pass(m, e) && e < d && pre.reads_at(m, var, preds[0], (budget - 1) as nat, r, e) && post == m.defined(
                    var,
                    bb,
                    r,
                )
        } else {
            exists|phi: InstId, a: BuilderView|
                #![trigger pre.places(a, phi, var, bb)]
                pre.places(a, phi, var, bb) && exists|m: BuilderView, e: nat|
                    #![trigger pass(m, e)]
                    pass(m, e) && e < d && (BuilderView { filling: a.filling.push(phi), ..a }).defined(
                        var,
                        bb,
                        phi,
                    ).fills(m, phi, var, bb, e) && exists|e2: nat|
                        #![trigger deep(e2)]
                        deep(e2) && e2 < d && (BuilderView { filling: m.filling.drop_last(), ..m }).removes(
                            post,
                            phi,
                            e2,
                        ) && r == (if post.defs.dom().contains((var, bb)) {
                            post.defs[(var, bb)]
                        } else {
                            phi
                        })
        };
    assert(occurrences(preds, from) == pre.func.edge_count(from, bb));
    assert(preds.len() > 0) by {
        if preds.len() == 0 {
            assert(occurrences(preds, from) == 0);
        }
    }
    assert forall|j: int| 0 <= j < preds.len() implies pre.defs.dom().contains((var, #[trigger] preds[j]))
        && pre.defs[(var, preds[j])] == x by {
        lemma_occurs(preds, j);
        assert(occurrences(preds, preds[j]) == pre.func.edge_count(preds[j], bb));
    }
    assert(pre.func.good(x)) by {
        assert(pre.defs.dom().contains((var, preds[0])));
        assert(pre.func.good(pre.defs[(var, preds[0])]));
    }
    if preds.len() == 1 && budget > 0 {
        let (m, e) = choose|m: BuilderView, e: nat|
            #![trigger pass(m, e)]
            pass(m, e) && e < d && pre.reads_at(m, var, preds[0], (budget - 1) as nat, r, e) && post == m.defined(
                var,
                bb,
                r,
            );
        assert(m == pre && r == x);
    } else {
        let (phi, a) = choose|phi: InstId, a: BuilderView|
            #![trigger pre.places(a, phi, var, bb)]
            pre.places(a, phi, var, bb) && exists|m: BuilderView, e: nat|
                #![trigger pass(m, e)]
                pass(m, e) && e < d && (BuilderView { filling: a.filling.push(phi), ..a }).defined(var, bb, phi).fills(
                    m,
                    phi,
                    var,
                    bb,
                    e,
                ) && exists|e2: nat|
                    #![trigger deep(e2)]
                    deep(e2) && e2 < d && (BuilderView { filling: m.filling.drop_last(), ..m }).removes(post, phi, e2)
                        && r == (if post.defs.dom().contains((var, bb)) {
                        post.defs[(var, bb)]
                    } else {
                        phi
                    });
        let start = (BuilderView { filling: a.filling.push(phi), ..a }).defined(var, bb, phi);
        let (m, e) = choose|m: BuilderView, e: nat|
            #![trigger pass(m, e)]
            pass(m, e) && e < d && start.fills(m, phi, var, bb, e) && exists|e2: nat|
                #![trigger deep(e2)]
                deep(e2) && e2 < d && (BuilderView { filling: m.filling.drop_last(), ..m }).removes(post, phi, e2) && r
                    == (if post.defs.dom().contains((var, bb)) {
                    post.defs[(var, bb)]
                } else {
                    phi
                });
        let e2 = choose|e2: nat|
            #![trigger deep(e2)]
            deep(e2) && e2 < d && (BuilderView { filling: m.filling.drop_last(), ..m }).removes(post, phi, e2) && r == (
            if post.defs.dom().contains((var, bb)) {
                post.defs[(var, bb)]
            } else {
                phi
            });
        let again = choose|again: Seq<BBId>|
            #![trigger start.func.comes_from(bb, again)]
            start.func.comes_from(bb, again) && start.fills_upto(
                m,
                phi,
                var,
                again,
                again.len() as int,
                start.func.chains.dom().len(),
                e,
            );
        assert(start.func.jumps == pre.func.jumps);
        assert forall|b: BBId| start.func.edge_count(b, bb) == pre.func.edge_count(b, bb) by {
        }
        assert(occurrences(again, from) == start.func.edge_count(from, bb));
        assert(again.len() > 0) by {
            if again.len() == 0 {
                assert(occurrences(again, from) == 0);
            }
        }
        assert forall|j: int| 0 <= j < again.len() implies start.defs.dom().contains((var, #[trigger] again[j]))
            && start.defs[(var, again[j])] == x by {
            lemma_occurs(again, j);
            assert(occurrences(again, again[j]) == start.func.edge_count(again[j], bb));
            assert(pre.func.edge_count(again[j], bb) > 0);
            assert(again[j] != bb);
        }
        match start.func.insts[phi].kind {
            InstKind::Phi(ops) => {
                lemma_no_entries(ops);
            },
            _ => {},
        }
        lemma_fills_agreed(start, m, phi, var, again, again.len() as int, start.func.chains.dom().len(), e, x);
        let gone = BuilderView { filling: m.filling.drop_last(), ..m };
        assert(gone.filling =~= pre.filling);
        assert(x != phi);
        match gone.func.insts[phi].kind {
            InstKind::Phi(ops) => {
                assert forall|k: int| 0 <= k < ops.entries().len() implies (#[trigger] ops.entries()[k]).1 == x by {
                    assert(has_value(ops.entries(), ops.entries()[k].1));
                }
                assert(trivial_with(ops.entries(), phi, x));
            },
            _ => {},
        }
        assert(gone.func.sole(phi, x));
        assert forall|u: InstId| !gone.func.phi_user(u, phi) by {
            if gone.func.phi_user(u, phi) {
                assert(gone.func.insts[u] == start.func.insts[u]);
                assert(pre.func.insts.dom().contains(u));
                assert(pre.func.insts[u] == start.func.insts[u]);
                assert(!pre.func.good(phi));
                assert(pre.func.unused(phi));
            }
        }
        let (y, users, mm) = choose|y: InstId, users: Seq<InstId>, mm: BuilderView|
            #![trigger gone.replaces(mm, phi, y), gone.func.read_by(phi, users)]
            gone.func.sole(phi, y) && gone.func.read_by(phi, users) && gone.replaces(mm, phi, y) && mm.removes_upto(
                post,
                users,
                users.len() as int,
                e2,
            );
        assert(y == x);
        assert(users.len() == 0) by {
            if users.len() > 0 {
                assert(users.contains(users[0]));
                assert(gone.func.phi_user(users[0], phi));
            }
        }
        assert(post == mm);
        assert(gone.defs == pre.defs.insert((var, bb), phi));
        assert forall|key: (Variable, BBId)| pre.defs.dom().contains(key) implies pre.defs[key] != phi by {
            assert(pre.func.good(pre.defs[key]));
        }
        assert(post.defs =~= pre.defs.insert((var, bb), x));
    }
}

impl BuilderView {
    /// True if reading `var` at the end of `a` gives `x` and places no
    /// phi: `a` has the definition `x`, or `a` is a sealed block without
    /// a definition into which one branch goes, from a block with the
    /// definition `x`.
    pub open spec fn hands(self, var: Variable, a: BBId, x: InstId) -> bool {
        if self.defs.dom().contains((var, a)) {
            self.defs[(var, a)] == x
        } else {
            self.sealed.contains(a) && exists|c: BBId|
                #![trigger self.func.sole_pred(a, c)]
                self.func.sole_pred(a, c) && self.defs.dom().contains((var, c)) && self.defs[(var, c)] == x
        }
    }

    /// True if `post` has the definitions of this state and, besides
    /// them, only definitions of `var` that are `x`.
    pub open spec fn more_defs(self, post: BuilderView, var: Variable, x: InstId) -> bool {
        &&& forall|k: (Variable, BBId)|
            #![trigger self.defs.dom().contains(k)]
            self.defs.dom().contains(k) ==> post.defs.dom().contains(k) && post.defs[k] == self.defs[k]
        &&& forall|k: (Variable, BBId)|
            #![trigger post.defs.dom().contains(k)]
            post.defs.dom().contains(k) && !self.defs.dom().contains(k) ==> k.0 == var && post.defs[k] == x
    }
}

/// Reading a variable at the end of a block that hands on the definition
/// `x` gives `x` and changes nothing but the definitions: the block has
/// the definition `x` then.
pub proof fn lemma_read_handed(
    pre: BuilderView,
    post: BuilderView,
    var: Variable,
    a: BBId,
    budget: nat,
    r: InstId,
    d: nat,
    x: InstId,
)
    requires
        pre.reads_at(post, var, a, budget, r, d),
        pre.hands(var, a, x),
        budget > 0,
    ensures
        r == x,
        post == (BuilderView { defs: post.defs, ..pre }),
        pre.more_defs(post, var, x),
        post.defs.dom().contains((var, a)) && post.defs[(var, a)] == x,
        forall|k: (Variable, BBId)|
            #![trigger post.defs.dom().contains(k)]
            post.defs.dom().contains(k) && !pre.defs.dom().contains(k) ==> k == (var, a),
{
    if !pre.defs.dom().contains((var, a)) {
        let c = choose|c: BBId|
            #![trigger pre.func.sole_pred(a, c)]
            pre.func.sole_pred(a, c) && pre.defs.dom().contains((var, c)) && pre.defs[(var, c)] == x;
        assert forall|preds: Seq<BBId>| pre.func.comes_from(a, preds) implies preds == seq![c] by {
            lemma_one_pred(pre.func, a, c, preds);
        }
        let preds = choose|preds: Seq<BBId>|
            #![trigger pre.func.comes_from(a, preds)]
            pre.func.comes_from(a, preds) && preds.len() == 1 && exists|m: BuilderView, e: nat|
                #![trigger pass(m, e)]
                pass(m, e) && e < d && pre.reads_at(m, var, preds[0], (budget - 1) as nat, r, e) && post == m.defined(
                    var,
                    a,
                    r,
                );
        let (m, e) = choose|m: BuilderView, e: nat|
            #![trigger pass(m, e)]
            pass(m, e) && e < d && pre.reads_at(m, var, preds[0], (budget - 1) as nat, r, e) && post == m.defined(
                var,
                a,
                r,
            );
        assert(preds[0] == c);
        assert(m == pre && r == x);
    }
}

/// Giving a new phi its operands from blocks that all hand on the
/// definition `x` of the variable changes nothing but the phi and the
/// definitions, and every operand of the phi is `x` then.
pub proof fn lemma_fills_handed(
    pre: BuilderView,
    post: BuilderView,
    phi: InstId,
    var: Variable,
    preds: Seq<BBId>,
    k: int,
    total: nat,
    d: nat,
    x: InstId,
)
    requires
        pre.fills_upto(post, phi, var, preds, k, total, d),
        0 <= k <= preds.len(),
        total > 0,
        forall|j: int| 0 <= j < preds.len() ==> pre.hands(var, #[trigger] preds[j], x),
        pre.func.insts.dom().contains(phi),
        pre.func.insts[phi].kind matches InstKind::Phi(ops) && ops.entries().len() == 0,
    ensures
        post == (BuilderView { func: post.func, defs: post.defs, ..pre }),
        post.func == (FuncView { insts: post.func.insts, ..pre.func }),
        post.func.insts.dom() == pre.func.insts.dom(),
        forall|i: InstId| i != phi ==> post.func.insts[i] == pre.func.insts[i],
        pre.more_defs(post, var, x),
        post.func.insts[phi].kind matches InstKind::Phi(ops) && (forall|v: InstId|
            has_value(ops.entries(), v) ==> v == x) && (k > 0 ==> has_value(ops.entries(), x)),
    decreases k,
{
    if k > 0 {
        let (m, e) = choose|m: BuilderView, e: nat|
            #![trigger pass(m, e)]
            pass(m, e) && e < d && pre.fills_upto(m, phi, var, preds, k - 1, total, d) && 0 <= k - 1 < preds.len()
                && exists|n: BuilderView, val: InstId|
                #![trigger got(n, val)]
                got(n, val) && m.reads_at(n, var, preds[k - 1], total, val, e) && n.sets(post, phi, preds[k - 1], val);
        lemma_fills_handed(pre, m, phi, var, preds, k - 1, total, d, x);
        let (n, val) = choose|n: BuilderView, val: InstId|
            #![trigger got(n, val)]
            got(n, val) && m.reads_at(n, var, preds[k - 1], total, val, e) && n.sets(post, phi, preds[k - 1], val);
        let a = preds[k - 1];
        assert(pre.hands(var, a, x));
        assert(m.hands(var, a, x)) by {
            if pre.defs.dom().contains((var, a)) {
                assert(m.defs.dom().contains((var, a)) && m.defs[(var, a)] == pre.defs[(var, a)]);
            }
            if !m.defs.dom().contains((var, a)) {
                let c = choose|c: BBId|
                    #![trigger pre.func.sole_pred(a, c)]
                    pre.func.sole_pred(a, c) && pre.defs.dom().contains((var, c)) && pre.defs[(var, c)] == x;
                assert forall|b: BBId| #[trigger] m.func.succ(b) == pre.func.succ(b) by {
                }
                assert(m.func.sole_pred(a, c)) by {
                    assert(m.func.edge_count(c, a) == pre.func.edge_count(c, a));
                    assert forall|b: BBId| b != c implies #[trigger] m.func.edge_count(b, a) == 0 by {
                        assert(pre.func.edge_count(b, a) == 0);
                    }
                }
                assert(m.defs[(var, c)] == pre.defs[(var, c)]);
            } else if !pre.defs.dom().contains((var, a)) {
                assert(m.defs[(var, a)] == x);
            } else {
                assert(m.defs[(var, a)] == pre.defs[(var, a)]);
            }
        }
        lemma_read_handed(m, n, var, a, total, val, e, x);
        assert(pre.more_defs(post, var, x)) by {
            assert(post.defs == n.defs);
            assert forall|key: (Variable, BBId)| #[trigger]
                pre.defs.dom().contains(key) implies post.defs.dom().contains(key) && post.defs[key] == pre.defs[key] by {
                assert(m.defs[key] == pre.defs[key]);
                assert(n.defs[key] == m.defs[key]);
            }
            assert forall|key: (Variable, BBId)| #[trigger]
                post.defs.dom().contains(key) && !pre.defs.dom().contains(key) implies key.0 == var && post.defs[key]
                == x by {
                if m.defs.dom().contains(key) {
                    assert(m.defs[key] == x);
                    assert(n.defs[key] == m.defs[key]);
                } else {
                    assert(n.defs[key] == x);
                }
            }
        }
        match post.func.insts[phi].kind {
            InstKind::Phi(ops2) => {
                assert(ops2@.dom().contains(a));
                lemma_value_of_key(ops2, a);
            },
            _ => {},
        }
    }
}

/// Reading a variable in a sealed block without a definition of it, whose
/// predecessors all hand on the one definition `x` of it, gives `x`,
/// which becomes the definition in the block; the definitions so far
/// stay, and every definition more is `x`. This holds of a builder that
/// collects no operands and in which no instruction, branch or definition
/// names an instruction that is not there.
pub proof fn lemma_read_joined(
    pre: BuilderView,
    post: BuilderView,
    var: Variable,
    bb: BBId,
    budget: nat,
    r: InstId,
    d: nat,
    x: InstId,
    from: BBId,
)
    requires
        pre.reads_at(post, var, bb, budget, r, d),
        !pre.defs.dom().contains((var, bb)),
        pre.sealed.contains(bb),
        pre.sound(),
        pre.filling.len() == 0,
        budget > 1,
        pre.func.chains.dom().contains(bb),
        pre.func.chains.dom().len() > 0,
        pre.func.edge_count(from, bb) > 0,
        forall|a: BBId| #[trigger] pre.func.edge_count(a, bb) > 0 ==> pre.hands(var, a, x),
    ensures
        r == x,
        post.defs.dom().contains((var, bb)) && post.defs[(var, bb)] == x,
        pre.more_defs(post, var, x),
{
    let preds = choose|preds: Seq<BBId>|
        #![trigger pre.func.comes_from(bb, preds)]
        pre.func.comes_from(bb, preds) && if preds.len() == 1 && budget > 0 {
            exists|m: BuilderView, e: nat|
                #![trigger pass(m, e)]
                pass(m, e) && e < d && pre.reads_at(m, var, preds[0], (budget - 1) as nat, r, e) && post == m.defined(
                    var,
                    bb,
                    r,
                )
        } else {
            exists|phi: InstId, a: BuilderView|
                #![trigger pre.places(a, phi, var, bb)]
                pre.places(a, phi, var, bb) && exists|m: BuilderView, e: nat|
                    #![trigger pass(m, e)]
                    pass(m, e) && e < d && (BuilderView { filling: a.filling.push(phi), ..a }).defined(
                        var,
                        bb,
                        phi,
                    ).fills(m, phi, var, bb, e) && exists|e2: nat|
                        #![trigger deep(e2)]
                        deep(e2) && e2 < d && (BuilderView { filling: m.filling.drop_last(), ..m }).removes(
                            post,
                            phi,
                            e2,
                        ) && r == (if post.defs.dom().contains((var, bb)) {
                            post.defs[(var, bb)]
                        } else {
                            phi
                        })
        };
    assert(occurrences(preds, from) == pre.func.edge_count(from, bb));
    assert(preds.len() > 0) by {
        if preds.len() == 0 {
            assert(occurrences(preds, from) == 0);
        }
    }
    assert forall|j: int| 0 <= j < preds.len() implies pre.hands(var, #[trigger] preds[j], x) by {
        lemma_occurs(preds, j);
        assert(occurrences(preds, preds[j]) == pre.func.edge_count(preds[j], bb));
    }
    assert(pre.func.good(x)) by {
        let a0 = preds[0];
        if pre.defs.dom().contains((var, a0)) {
            assert(pre.func.good(pre.defs[(var, a0)]));
        } else {
            let c = choose|c: BBId|
                #![trigger pre.func.sole_pred(a0, c)]
                pre.func.sole_pred(a0, c) && pre.defs.dom().contains((var, c)) && pre.defs[(var, c)] == x;
            assert(pre.func.good(pre.defs[(var, c)]));
        }
    }
    if preds.len() == 1 && budget > 0 {
        let (m, e) = choose|m: BuilderView, e: nat|
            #![trigger pass(m, e)]
            pass(m, e) && e < d && pre.reads_at(m, var, preds[0], (budget - 1) as nat, r, e) && post == m.defined(
                var,
                bb,
                r,
            );
        lemma_read_handed(pre, m, var, preds[0], (budget - 1) as nat, r, e, x);
        assert(pre.more_defs(post, var, x)) by {
            assert forall|key: (Variable, BBId)| #[trigger]
                pre.defs.dom().contains(key) implies post.defs.dom().contains(key) && post.defs[key] == pre.defs[key] by {
                assert(m.defs[key] == pre.defs[key]);
            }
            assert forall|key: (Variable, BBId)| #[trigger]
                post.defs.dom().contains(key) && !pre.defs.dom().contains(key) implies key.0 == var && post.defs[key]
                == x by {
                if m.defs.dom().contains(key) {
                    assert(m.defs[key] == x);
                }
            }
        }
    } else {
        let (phi, a) = choose|phi: InstId, a: BuilderView|
            #![trigger pre.places(a, phi, var, bb)]
            pre.places(a, phi, var, bb) && exists|m: BuilderView, e: nat|
                #![trigger pass(m, e)]
                pass(m, e) && e < d && (BuilderView { filling: a.filling.push(phi), ..a }).defined(var, bb, phi).fills(
                    m,
                    phi,
                    var,
                    bb,
                    e,
                ) && exists|e2: nat|
                    #![trigger deep(e2)]
                    deep(e2) && e2 < d && (BuilderView { filling: m.filling.drop_last(), ..m }).removes(post, phi, e2)
                        && r == (if post.defs.dom().contains((var, bb)) {
                        post.defs[(var, bb)]
                    } else {
                        phi
                    });
        let start = (BuilderView { filling: a.filling.push(phi), ..a }).defined(var, bb, phi);
        let (m, e) = choose|m: BuilderView, e: nat|
            #![trigger pass(m, e)]
            pass(m, e) && e < d && start.fills(m, phi, var, bb, e) && exists|e2: nat|
                #![trigger deep(e2)]
                deep(e2) && e2 < d && (BuilderView { filling: m.filling.drop_last(), ..m }).removes(post, phi, e2) && r
                    == (if post.defs.dom().contains((var, bb)) {
                    post.defs[(var, bb)]
                } else {
                    phi
                });
        let e2 = choose|e2: nat|
            #![trigger deep(e2)]
            deep(e2) && e2 < d && (BuilderView { filling: m.filling.drop_last(), ..m }).removes(post, phi, e2) && r == (
            if post.defs.dom().contains((var, bb)) {
                post.defs[(var, bb)]
            } else {
                phi
            });
        let again = choose|again: Seq<BBId>|
            #![trigger start.func.comes_from(bb, again)]
            start.func.comes_from(bb, again) && start.fills_upto(
                m,
                phi,
                var,
                again,
                again.len() as int,
                start.func.chains.dom().len(),
                e,
            );
        assert(start.func.jumps == pre.func.jumps);
        assert(start.func.chains.dom() =~= pre.func.chains.dom());
        assert forall|b: BBId| #[trigger] start.func.succ(b) == pre.func.succ(b) by {
        }
        assert forall|b: BBId, c: BBId| #[trigger] start.func.edge_count(b, c) == pre.func.edge_count(b, c) by {
            assert(start.func.succ(b) == pre.func.succ(b));
        }
        assert(occurrences(again, from) == start.func.edge_count(from, bb));
        assert(again.len() > 0) by {
            if again.len() == 0 {
                assert(occurrences(again, from) == 0);
            }
        }
        assert forall|j: int| 0 <= j < again.len() implies start.hands(var, #[trigger] again[j], x) by {
            lemma_occurs(again, j);
            let a1 = again[j];
            assert(occurrences(again, a1) == start.func.edge_count(a1, bb));
            assert(pre.func.edge_count(a1, bb) > 0);
            assert(pre.hands(var, a1, x));
            if pre.defs.dom().contains((var, a1)) {
                assert(a1 != bb);
                assert(start.defs[(var, a1)] == pre.defs[(var, a1)]);
            } else {
                let c = choose|c: BBId|
                    #![trigger pre.func.sole_pred(a1, c)]
                    pre.func.sole_pred(a1, c) && pre.defs.dom().contains((var, c)) && pre.defs[(var, c)] == x;
                assert(c != bb);
                if a1 == bb {
                    assert(pre.func.edge_count(bb, bb) > 0);
                    assert(c == bb);
                }
                assert(start.func.sole_pred(a1, c)) by {
                    assert(start.func.edge_count(c, a1) == pre.func.edge_count(c, a1));
                    assert forall|b: BBId| b != c implies #[trigger] start.func.edge_count(b, a1) == 0 by {
                        assert(pre.func.edge_count(b, a1) == 0);
                    }
                }
                assert(start.defs[(var, c)] == pre.defs[(var, c)]);
                assert(!start.defs.dom().contains((var, a1)));
            }
        }
        match start.func.insts[phi].kind {
            InstKind::Phi(ops) => {
                lemma_no_entries(ops);
            },
            _ => {},
        }
        lemma_fills_handed(start, m, phi, var, again, again.len() as int, start.func.chains.dom().len(), e, x);
        let gone = BuilderView { filling: m.filling.drop_last(), ..m };
        assert(gone.filling =~= pre.filling);
        assert(x != phi);
        match gone.func.insts[phi].kind {
            InstKind::Phi(ops) => {
                assert forall|k: int| 0 <= k < ops.entries().len() implies (#[trigger] ops.entries()[k]).1 == x by {
                    assert(has_value(ops.entries(), ops.entries()[k].1));
                }
                assert(trivial_with(ops.entries(), phi, x));
            },
            _ => {},
        }
        assert(gone.func.sole(phi, x));
        assert forall|u: InstId| !gone.func.phi_user(u, phi) by {
            if gone.func.phi_user(u, phi) {
                assert(gone.func.insts[u] == start.func.insts[u]);
                assert(pre.func.insts.dom().contains(u));
                assert(pre.func.insts[u] == start.func.insts[u]);
                assert(!pre.func.good(phi));
                assert(pre.func.unused(phi));
            }
        }
        let (y, users, mm) = choose|y: InstId, users: Seq<InstId>, mm: BuilderView|
            #![trigger gone.replaces(mm, phi, y), gone.func.read_by(phi, users)]
            gone.func.sole(phi, y) && gone.func.read_by(phi, users) && gone.replaces(mm, phi, y) && mm.removes_upto(
                post,
                users,
                users.len() as int,
                e2,
            );
        assert(y == x);
        assert(users.len() == 0) by {
            if users.len() > 0 {
                assert(users.contains(users[0]));
                assert(gone.func.phi_user(users[0], phi));
            }
        }
        assert(post == mm);
        assert(start.defs == pre.defs.insert((var, bb), phi));
        assert(gone.defs == m.defs);
        assert(start.more_defs(m, var, x));
        assert(post.defs[(var, bb)] == x) by {
            assert(start.defs.dom().contains((var, bb)));
            assert(m.defs[(var, bb)] == start.defs[(var, bb)]);
        }
        assert(pre.more_defs(post, var, x)) by {
            assert forall|key: (Variable, BBId)| #[trigger]
                pre.defs.dom().contains(key) implies post.defs.dom().contains(key) && post.defs[key] == pre.defs[key] by {
                assert(pre.func.good(pre.defs[key]));
                assert(start.defs.dom().contains(key));
                assert(start.defs[key] == pre.defs[key]);
                assert(m.defs[key] == start.defs[key]);
            }
            assert forall|key: (Variable, BBId)| #[trigger]
                post.defs.dom().contains(key) && !pre.defs.dom().contains(key) implies key.0 == var && post.defs[key]
                == x by {
                assert(m.defs.dom().contains(key));
                if key == (var, bb) {
                } else {
                    assert(!start.defs.dom().contains(key));
                    assert(m.defs[key] == x);
                    assert(x != phi);
                }
            }
        }
    }
}

impl BuilderView {
    /// True if `post` has the definitions of this state and, besides
    /// them, only definitions of `var` that the blocks hand on in this
    /// state.
    pub open spec fn handed_defs(self, post: BuilderView, var: Variable) -> bool {
        &&& forall|k: (Variable, BBId)|
            #![trigger self.defs.dom().contains(k)]
            self.defs.dom().contains(k) ==> post.defs.dom().contains(k) && post.defs[k] == self.defs[k]
        &&& forall|k: (Variable, BBId)|
            #![trigger post.defs.dom().contains(k)]
            post.defs.dom().contains(k) && !self.defs.dom().contains(k) ==> k.0 == var && self.hands(
                var,
                k.1,
                post.defs[k],
            )
    }
}

/// A block hands on one definition of a variable at most.
pub proof fn lemma_hands_one(s: BuilderView, var: Variable, a: BBId, x: InstId, y: InstId)
    requires
        s.hands(var, a, x),
        s.hands(var, a, y),
    ensures
        x == y,
{
    if !s.defs.dom().contains((var, a)) {
        let c = choose|c: BBId|
            #![trigger s.func.sole_pred(a, c)]
            s.func.sole_pred(a, c) && s.defs.dom().contains((var, c)) && s.defs[(var, c)] == x;
        let c2 = choose|c: BBId|
            #![trigger s.func.sole_pred(a, c)]
            s.func.sole_pred(a, c) && s.defs.dom().contains((var, c)) && s.defs[(var, c)] == y;
        if c != c2 {
            assert(s.func.edge_count(c2, a) == 0);
        }
    }
}

/// What a block hands on, it hands on where only definitions were added
/// that the blocks handed on.
pub proof fn lemma_hands_stays(pre: BuilderView, m: BuilderView, var: Variable, a: BBId, x: InstId)
    requires
        pre.hands(var, a, x),
        pre.handed_defs(m, var),
        m.sealed == pre.sealed,
        m.func.jumps == pre.func.jumps,
    ensures
        m.hands(var, a, x),
{
    if pre.defs.dom().contains((var, a)) {
        assert(m.defs[(var, a)] == pre.defs[(var, a)]);
    } else if m.defs.dom().contains((var, a)) {
        assert(pre.hands(var, a, m.defs[(var, a)]));
        lemma_hands_one(pre, var, a, x, m.defs[(var, a)]);
    } else {
        let c = choose|c: BBId|
            #![trigger pre.func.sole_pred(a, c)]
            pre.func.sole_pred(a, c) && pre.defs.dom().contains((var, c)) && pre.defs[(var, c)] == x;
        assert forall|b: BBId| #[trigger] m.func.succ(b) == pre.func.succ(b) by {
        }
        assert(m.func.sole_pred(a, c)) by {
            assert(m.func.edge_count(c, a) == pre.func.edge_count(c, a));
            assert forall|b: BBId| b != c implies #[trigger] m.func.edge_count(b, a) == 0 by {
                assert(pre.func.edge_count(b, a) == 0);
            }
        }
        assert(m.defs[(var, c)] == pre.defs[(var, c)]);
    }
}

/// Giving a phi that waited its operands from blocks that each hand on
/// the definition `x` of the variable or the phi itself changes nothing
/// but the phi and the definitions, and every operand of the phi is `x`
/// or the phi itself then.
pub proof fn lemma_fills_resolved(
    pre: BuilderView,
    post: BuilderView,
    phi: InstId,
    var: Variable,
    preds: Seq<BBId>,
    k: int,
    total: nat,
    d: nat,
    x: InstId,
)
    requires
        pre.fills_upto(post, phi, var, preds, k, total, d),
        0 <= k <= preds.len(),
        total > 0,
        forall|j: int|
            0 <= j < preds.len() ==> pre.hands(var, #[trigger] preds[j], x) || pre.hands(var, preds[j], phi),
        pre.func.insts.dom().contains(phi),
        pre.func.insts[phi].kind matches InstKind::Phi(ops) && ops.entries().len() == 0,
    ensures
        post == (BuilderView { func: post.func, defs: post.defs, ..pre }),
        post.func == (FuncView { insts: post.func.insts, ..pre.func }),
        post.func.insts.dom() == pre.func.insts.dom(),
        forall|i: InstId| i != phi ==> post.func.insts[i] == pre.func.insts[i],
        pre.handed_defs(post, var),
        post.func.insts[phi].kind matches InstKind::Phi(ops) && (forall|v: InstId|
            has_value(ops.entries(), v) ==> v == x || v == phi) && (forall|j: int|
            0 <= j < k && pre.hands(var, #[trigger] preds[j], x) ==> ops@.dom().contains(preds[j]) && ops@[preds[j]]
                == x),
    decreases k,
{
    if k > 0 {
        let (m, e) = choose|m: BuilderView, e: nat|
            #![trigger pass(m, e)]
            pass(m, e) && e < d && pre.fills_upto(m, phi, var, preds, k - 1, total, d) && 0 <= k - 1 < preds.len()
                && exists|n: BuilderView, val: InstId|
                #![trigger got(n, val)]
                got(n, val) && m.reads_at(n, var, preds[k - 1], total, val, e) && n.sets(post, phi, preds[k - 1], val);
        lemma_fills_resolved(pre, m, phi, var, preds, k - 1, total, d, x);
        let (n, val) = choose|n: BuilderView, val: InstId|
            #![trigger got(n, val)]
            got(n, val) && m.reads_at(n, var, preds[k - 1], total, val, e) && n.sets(post, phi, preds[k - 1], val);
        let a = preds[k - 1];
        let y = if pre.hands(var, a, x) {
            x
        } else {
            phi
        };
        assert(pre.hands(var, a, y));
        lemma_hands_stays(pre, m, var, a, y);
        lemma_read_handed(m, n, var, a, total, val, e, y);
        assert(pre.handed_defs(post, var)) by {
            assert(post.defs == n.defs);
            assert forall|key: (Variable, BBId)| #[trigger]
                pre.defs.dom().contains(key) implies post.defs.dom().contains(key) && post.defs[key] == pre.defs[key] by {
                assert(m.defs.dom().contains(key));
                assert(m.defs[key] == pre.defs[key]);
                assert(n.defs[key] == m.defs[key]);
            }
            assert forall|key: (Variable, BBId)| #[trigger]
                post.defs.dom().contains(key) && !pre.defs.dom().contains(key) implies key.0 == var && pre.hands(
                var,
                key.1,
                post.defs[key],
            ) by {
                if m.defs.dom().contains(key) {
                    assert(n.defs[key] == m.defs[key]);
                } else {
                    assert(n.defs.dom().contains(key));
                    assert(key == (var, a));
                    assert(n.defs[key] == y);
                }
            }
        }
        match (m.func.insts[phi].kind, post.func.insts[phi].kind) {
            (InstKind::Phi(ops1), InstKind::Phi(ops2)) => {
                assert(n.func.insts[phi] == m.func.insts[phi]);
                assert(ops2@ == ops1@.insert(a, y));
                assert forall|j: int| 0 <= j < k && pre.hands(var, #[trigger] preds[j], x) implies ops2@.dom().contains(
                    preds[j],
                ) && ops2@[preds[j]] == x by {
                    if preds[j] == a {
                        lemma_hands_one(pre, var, a, x, y);
                    } else {
                        assert(j < k - 1);
                    }
                }
            },
            _ => {},
        }
    }
}

/// Sealing a block in which one phi waits, for a variable whose
/// definition `x` comes into the block and is handed round to it
/// unchanged, removes the phi: every predecessor of the block hands on
/// `x` or the phi itself, and one of them `x`. Every definition that was
/// the phi is `x` then, and the other definitions stay. This holds of a
/// builder that collects no operands, in which no instruction, branch or
/// definition names an instruction that is not there, and in which no
/// other phi reads the phi.
pub proof fn lemma_seal_resolves(
    pre: BuilderView,
    post: BuilderView,
    bb: BBId,
    var: Variable,
    phi: InstId,
    x: InstId,
    from: BBId,
)
    requires
        pre.seals_to(post, bb),
        !pre.sealed.contains(bb),
        waiting_in(pre.pending, bb) == seq![Pending { bb, var, phi }],
        pre.sound(),
        pre.filling.len() == 0,
        pre.func.insts.dom().contains(phi),
        pre.func.insts[phi].kind matches InstKind::Phi(ops) && ops@ == Map::<BBId, InstId>::empty(),
        forall|u: InstId| !pre.func.phi_user(u, phi),
        x != phi,
        pre.func.chains.dom().len() > 0,
        pre.func.edge_count(from, bb) > 0,
        (BuilderView { sealed: pre.sealed.insert(bb), ..pre }).hands(var, from, x),
        forall|a: BBId|
            #[trigger] pre.func.edge_count(a, bb) > 0 ==> (BuilderView { sealed: pre.sealed.insert(bb), ..pre }).hands(
                var,
                a,
                x,
            ) || (BuilderView { sealed: pre.sealed.insert(bb), ..pre }).hands(var, a, phi),
    ensures
        post.func.insts.dom().contains(phi) && post.func.insts[phi].kind is Dead,
        forall|key: (Variable, BBId)|
            #![trigger pre.defs.dom().contains(key)]
            pre.defs.dom().contains(key) ==> post.defs.dom().contains(key) && post.defs[key] == rerouted(
                pre.defs[key],
                phi,
                x,
            ),
        post.sealed == pre.sealed.insert(bb),
        post.pending == waiting_out(pre.pending, bb),
{
    reveal_with_fuel(BuilderView::completes_from, 2);
    let start = BuilderView { sealed: pre.sealed.insert(bb), ..pre };
    let (todo, m, d) = choose|todo: Seq<Pending>, m: BuilderView, d: nat|
        #![trigger m.completes_from(post, todo, bb, 0, d)]
        m.completes_from(post, todo, bb, 0, d) && m == (BuilderView {
            sealed: pre.sealed.insert(bb),
            pending: m.pending,
            filling: pre.filling + todo.map_values(|p: Pending| p.phi),
            ..pre
        }) && todo == waiting_in(pre.pending, bb) && m.pending == waiting_out(pre.pending, bb);
    assert(todo.len() == 1 && todo[0] == (Pending { bb, var, phi }));
    assert(m.filling =~= seq![phi]);
    let (m1, e) = choose|m1: BuilderView, e: nat|
        #![trigger pass(m1, e)]
        pass(m1, e) && e < d && m.completes_from(m1, todo, bb, 1, d) && exists|n: BuilderView, e2: nat|
            #![trigger pass(n, e2)]
            pass(n, e2) && e2 < d && m1.fills(n, todo[0].phi, todo[0].var, bb, e) && (BuilderView {
                filling: n.filling.drop_last(),
                ..n
            }).removes(post, todo[0].phi, e2);
    assert(m1 == m);
    let (n, e2) = choose|n: BuilderView, e2: nat|
        #![trigger pass(n, e2)]
        pass(n, e2) && e2 < d && m.fills(n, phi, var, bb, e) && (BuilderView { filling: n.filling.drop_last(), ..n }).removes(
            post,
            phi,
            e2,
        );
    let preds = choose|preds: Seq<BBId>|
        #![trigger m.func.comes_from(bb, preds)]
        m.func.comes_from(bb, preds) && m.fills_upto(
            n,
            phi,
            var,
            preds,
            preds.len() as int,
            m.func.chains.dom().len(),
            e,
        );
    assert forall|j: int| 0 <= j < preds.len() implies m.hands(var, #[trigger] preds[j], x) || m.hands(
        var,
        preds[j],
        phi,
    ) by {
        lemma_occurs(preds, j);
        assert(occurrences(preds, preds[j]) == m.func.edge_count(preds[j], bb));
        assert(pre.func.edge_count(preds[j], bb) > 0);
        assert(start.hands(var, preds[j], x) || start.hands(var, preds[j], phi));
    }
    match m.func.insts[phi].kind {
        InstKind::Phi(ops) => {
            lemma_no_entries(ops);
        },
        _ => {},
    }
    lemma_fills_resolved(m, n, phi, var, preds, preds.len() as int, m.func.chains.dom().len(), e, x);
    assert(occurrences(preds, from) == m.func.edge_count(from, bb));
    lemma_occurrences_contains(preds, from);
    let j0 = choose|j: int| 0 <= j < preds.len() && preds[j] == from;
    assert(m.hands(var, preds[j0], x));
    let gone = BuilderView { filling: n.filling.drop_last(), ..n };
    assert(gone.filling =~= Seq::<InstId>::empty());
    match gone.func.insts[phi].kind {
        InstKind::Phi(ops) => {
            assert(ops@.dom().contains(from) && ops@[from] == x);
            lemma_value_of_key(ops, from);
            assert forall|k: int| 0 <= k < ops.entries().len() implies (#[trigger] ops.entries()[k]).1 == phi
                || ops.entries()[k].1 == x by {
                assert(has_value(ops.entries(), ops.entries()[k].1));
            }
            assert(trivial_with(ops.entries(), phi, x));
        },
        _ => {},
    }
    assert(gone.func.sole(phi, x));
    assert forall|u: InstId| !gone.func.phi_user(u, phi) by {
        if gone.func.phi_user(u, phi) {
            assert(gone.func.insts[u] == m.func.insts[u]);
            assert(pre.func.phi_user(u, phi));
        }
    }
    let (y, users, mm) = choose|y: InstId, users: Seq<InstId>, mm: BuilderView|
        #![trigger gone.replaces(mm, phi, y), gone.func.read_by(phi, users)]
        gone.func.sole(phi, y) && gone.func.read_by(phi, users) && gone.replaces(mm, phi, y) && mm.removes_upto(
            post,
            users,
            users.len() as int,
            e2,
        );
    assert(y == x) by {
        match gone.func.insts[phi].kind {
            InstKind::Phi(ops) => {
                assert(has_value(ops.entries(), y));
            },
            _ => {},
        }
    }
    assert(users.len() == 0) by {
        if users.len() > 0 {
            assert(users.contains(users[0]));
            assert(gone.func.phi_user(users[0], phi));
        }
    }
    assert(post == mm);
    assert forall|key: (Variable, BBId)| #[trigger]
        pre.defs.dom().contains(key) implies post.defs.dom().contains(key) && post.defs[key] == rerouted(
        pre.defs[key],
        phi,
        x,
    ) by {
        assert(m.defs.dom().contains(key));
        assert(n.defs[key] == m.defs[key]);
        assert(gone.defs.dom().contains(key));
    }
}

} // verus!
