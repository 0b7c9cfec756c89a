//! Instructions, values, branches, and the records that place them in a
//! function.

use vstd::prelude::*;
use smol_str::SmolStr;
use crate::handle::{BBId, InstId};
use crate::phi::{has_value, renamed_entries, PhiOperands};
use crate::ty::Ty;

verus! {

/// `smol_str::SmolStr`, made known to the verifier as a type whose inside
/// it does not see.
#[verifier::external_type_specification]
#[verifier::external_body]
pub struct ExSmolStr(SmolStr);

/// The text that a name holds.
pub uninterp spec fn smol_str_text(s: SmolStr) -> Seq<char>;

/// `SmolStr::clone` hands back a string with the same text.
pub assume_specification[ <SmolStr as Clone>::clone ](s: &SmolStr) -> (r: SmolStr)
    ensures
        smol_str_text(r) == smol_str_text(*s),
;

/// `SmolStr::default` hands back the empty string.
pub assume_specification[ <SmolStr as Default>::default ]() -> (r: SmolStr)
    ensures
        smol_str_text(r) == Seq::<char>::empty(),
;

/// A literal operand.
pub type Immediate = i64;

/// An operand: the result of an instruction, or a literal.
#[derive(Clone, Copy, Debug, PartialEq, Eq, Structural)]
pub enum Value {
    Dest(InstId),
    Imm(Immediate),
}

impl Value {
    /// The literal, if this operand is one.
    pub fn get_imm(&self) -> (r: Option<Immediate>)
        ensures
            r == (match *self {
                Value::Dest(_) => None,
                Value::Imm(i) => Some(i),
            }),
    {
        match self {
            Value::Dest(_) => None,
            Value::Imm(i) => Some(*i),
        }
    }

    /// The instruction whose result this operand is, if it is one.
    pub fn get_inst(&self) -> (r: Option<InstId>)
        ensures
            r == self.dest(),
    {
        match self {
            Value::Dest(o) => Some(*o),
            _ => None,
        }
    }

    /// The instruction whose result this operand is, if it is one.
    pub open spec fn dest(self) -> Option<InstId> {
        match self {
            Value::Dest(o) => Some(o),
            Value::Imm(_) => None,
        }
    }

    /// This operand with every reference to `from` turned into `to`.
    pub open spec fn renamed(self, from: InstId, to: InstId) -> Value {
        if self == Value::Dest(from) {
            Value::Dest(to)
        } else {
            self
        }
    }

    /// Turns a reference to `from` into a reference to `to`.
    pub fn rename(self, from: InstId, to: InstId) -> (r: Value)
        ensures
            r == self.renamed(from, to),
    {
        match self {
            Value::Dest(o) => if o == from {
                Value::Dest(to)
            } else {
                self
            },
            Value::Imm(_) => self,
        }
    }
}

impl From<InstId> for Value {
    fn from(x: InstId) -> (r: Value) {
        Value::Dest(x)
    }
}

impl vstd::std_specs::convert::FromSpecImpl<InstId> for Value {
    open spec fn obeys_from_spec() -> bool {
        true
    }

    open spec fn from_spec(x: InstId) -> Value {
        Value::Dest(x)
    }
}

#[derive(Clone, Copy, Debug, PartialEq, Eq, Structural)]
pub enum BinaryOp {
    Add,
    Sub,
    Mul,
    Div,
    Lt,
    Gt,
    Le,
    Ge,
    Eq,
    Ne,
}

#[derive(Clone, Copy, Debug, PartialEq, Eq, Structural)]
pub struct BinaryInst {
    pub op: BinaryOp,
    pub lhs: Value,
    pub rhs: Value,
}

#[derive(Clone, Debug, PartialEq, Eq)]
pub struct FunctionCall {
    pub name: SmolStr,
    pub params: Vec<Value>,
}

/// An instruction: what it computes and the type of its result.
#[derive(Clone, Debug, PartialEq, Eq)]
pub struct Inst {
    pub kind: InstKind,
    pub ty: Ty,
}

/// Kinds of an instruction.
#[derive(Clone, Debug, PartialEq, Eq)]
pub enum InstKind {
    /// A binary operation.
    Binary(BinaryInst),
    /// A call to another function, named by its text.
    FunctionCall(FunctionCall),
    /// A copy of another value.
    Assign(Value),
    /// A choice among the values that arrive from the predecessor blocks.
    Phi(PhiOperands),
    /// A formal parameter of the function, by position.
    Param(usize),
    /// A definition that was removed.
    Dead,
}

/// The operands of a phi in key order, as values.
pub open spec fn phi_values(entries: Seq<(BBId, InstId)>) -> Seq<Value> {
    Seq::new(entries.len(), |i: int| Value::Dest(entries[i].1))
}

/// The instructions among `vals`, in order.
pub open spec fn dests_of(vals: Seq<Value>) -> Seq<InstId>
    decreases vals.len(),
{
    if vals.len() == 0 {
        Seq::<InstId>::empty()
    } else {
        match vals.last() {
            Value::Dest(i) => dests_of(vals.drop_last()).push(i),
            Value::Imm(_) => dests_of(vals.drop_last()),
        }
    }
}

/// A phi reads the result of `j` exactly if `j` is one of its operands.
pub proof fn lemma_phi_uses(entries: Seq<(BBId, InstId)>, j: InstId)
    ensures
        phi_values(entries).contains(Value::Dest(j)) <==> has_value(entries, j),
{
    let vals = phi_values(entries);
    if has_value(entries, j) {
        let i = choose|i: int| 0 <= i < entries.len() && (#[trigger] entries[i]).1 == j;
        assert(vals[i] == Value::Dest(j));
    }
    if vals.contains(Value::Dest(j)) {
        let i = choose|i: int| 0 <= i < vals.len() && vals[i] == Value::Dest(j);
        assert(entries[i].1 == j);
    }
}

/// An instruction whose operands were renamed reads what it read before,
/// but for the old name, and maybe the new name in its place. It is a phi,
/// or removed, exactly if it was before.
pub proof fn lemma_renamed_uses(a: InstKind, b: InstKind, from: InstId, to: InstId, j: InstId)
    requires
        a.renamed_to(&b, from, to),
    ensures
        b.uses(j) ==> (a.uses(j) && j != from) || (j == to && a.uses(from)),
        a.uses(j) && j != from ==> b.uses(j),
        b is Phi <==> a is Phi,
        b is Dead <==> a is Dead,
{
    let x = a.operands();
    let y = b.operands();
    match (a, b) {
        (InstKind::Binary(p), InstKind::Binary(q)) => {
            assert(x[0] == p.lhs && x[1] == p.rhs);
            assert(y[0] == q.lhs && y[1] == q.rhs);
        },
        (InstKind::FunctionCall(p), InstKind::FunctionCall(q)) => {
            if y.contains(Value::Dest(j)) {
                let i = choose|i: int| 0 <= i < y.len() && y[i] == Value::Dest(j);
                assert(y[i] == x[i].renamed(from, to));
            }
            if x.contains(Value::Dest(j)) && j != from {
                let i = choose|i: int| 0 <= i < x.len() && x[i] == Value::Dest(j);
                assert(y[i] == x[i].renamed(from, to));
            }
        },
        (InstKind::Assign(p), InstKind::Assign(q)) => {
            assert(x[0] == p);
            assert(y[0] == q);
        },
        (InstKind::Phi(p), InstKind::Phi(q)) => {
            let e = p.entries();
            let f = q.entries();
            lemma_phi_uses(e, j);
            lemma_phi_uses(e, from);
            lemma_phi_uses(f, j);
            if has_value(f, j) {
                let i = choose|i: int| 0 <= i < f.len() && (#[trigger] f[i]).1 == j;
                assert(f[i].1 == (if e[i].1 == from {
                    to
                } else {
                    e[i].1
                }));
            }
            if has_value(e, j) && j != from {
                let i = choose|i: int| 0 <= i < e.len() && (#[trigger] e[i]).1 == j;
                assert(f[i].1 == j);
            }
        },
        _ => {},
    }
}

impl InstKind {
    /// The operands that this instruction reads, in order.
    pub open spec fn operands(&self) -> Seq<Value> {
        match self {
            InstKind::Binary(b) => seq![b.lhs, b.rhs],
            InstKind::FunctionCall(f) => f.params@,
            InstKind::Assign(v) => seq![*v],
            InstKind::Phi(source) => phi_values(source.entries()),
            InstKind::Param(_) => Seq::<Value>::empty(),
            InstKind::Dead => Seq::<Value>::empty(),
        }
    }

    /// True if one of the operands is the result of `inst`.
    pub open spec fn uses(&self, inst: InstId) -> bool {
        self.operands().contains(Value::Dest(inst))
    }

    /// True if `new` is this instruction with every operand that is the
    /// result of `from` turned into the result of `to`.
    pub open spec fn renamed_to(&self, new: &InstKind, from: InstId, to: InstId) -> bool {
        match (*self, *new) {
            (InstKind::Binary(a), InstKind::Binary(b)) => b.op == a.op && b.lhs == a.lhs.renamed(from, to)
                && b.rhs == a.rhs.renamed(from, to),
            (InstKind::FunctionCall(a), InstKind::FunctionCall(b)) => b.name == a.name && b.params@
                == a.params@.map_values(|v: Value| v.renamed(from, to)),
            (InstKind::Assign(a), InstKind::Assign(b)) => b == a.renamed(from, to),
            (InstKind::Phi(a), InstKind::Phi(b)) => b.entries() == renamed_entries(a.entries(), from, to)
                && b@.dom() == a@.dom(),
            (InstKind::Param(a), InstKind::Param(b)) => a == b,
            (InstKind::Dead, InstKind::Dead) => true,
            _ => false,
        }
    }

    /// Turns every operand that is the result of `from` into the result of
    /// `to`. Returns whether there was one.
    pub fn replace_uses(&mut self, from: InstId, to: InstId) -> (changed: bool)
        ensures
            old(self).renamed_to(final(self), from, to),
            changed == old(self).uses(from),
    {
        match self {
            InstKind::Binary(b) => {
                let changed = b.lhs == Value::Dest(from) || b.rhs == Value::Dest(from);
                proof {
                    let ops = seq![b.lhs, b.rhs];
                    if changed {
                        assert(ops[0] == b.lhs && ops[1] == b.rhs);
                    }
                }
                b.lhs = b.lhs.rename(from, to);
                b.rhs = b.rhs.rename(from, to);
                changed
            },
            InstKind::FunctionCall(f) => {
                let ghost before = f.params@;
                let n = f.params.len();
                let mut v: Vec<Value> = Vec::new();
                let mut changed = false;
                let mut i: usize = 0;
                while i < n
                    invariant
                        i <= n,
                        n == before.len(),
                        f.params@ == before,
                        v@ == before.map_values(|x: Value| x.renamed(from, to)).subrange(0, i as int),
                        changed == before.subrange(0, i as int).contains(Value::Dest(from)),
                    decreases n - i,
                {
                    let x = f.params[i];
                    let ghost seen = before.subrange(0, i as int);
                    if x == Value::Dest(from) {
                        changed = true;
                        proof {
                            assert(before.subrange(0, i + 1)[i as int] == Value::Dest(from));
                        }
                    } else {
                        proof {
                            let wider = before.subrange(0, i + 1);
                            if wider.contains(Value::Dest(from)) {
                                let k = choose|k: int| 0 <= k < wider.len() && wider[k] == Value::Dest(from);
                                assert(seen[k] == Value::Dest(from));
                            }
                            if seen.contains(Value::Dest(from)) {
                                let k = choose|k: int| 0 <= k < i && seen[k] == Value::Dest(from);
                                assert(before.subrange(0, i + 1)[k] == Value::Dest(from));
                            }
                        }
                    }
                    v.push(x.rename(from, to));
                    i += 1;
                    proof {
                        assert(v@ =~= before.map_values(|x: Value| x.renamed(from, to)).subrange(0, i as int));
                    }
                }
                proof {
                    assert(before.subrange(0, n as int) =~= before);
                    assert(v@ =~= before.map_values(|x: Value| x.renamed(from, to)));
                }
                f.params = v;
                changed
            },
            InstKind::Assign(v) => {
                let changed = *v == Value::Dest(from);
                proof {
                    let ops = seq![*v];
                    if changed {
                        assert(ops[0] == *v);
                    }
                }
                *v = v.rename(from, to);
                changed
            },
            InstKind::Phi(source) => {
                let ghost before = source.entries();
                let changed = source.rename(from, to);
                proof {
                    let vals = phi_values(before);
                    if has_value(before, from) {
                        let i = choose|i: int| 0 <= i < before.len() && (#[trigger] before[i]).1 == from;
                        assert(vals[i] == Value::Dest(from));
                    }
                    if vals.contains(Value::Dest(from)) {
                        let i = choose|i: int| 0 <= i < vals.len() && vals[i] == Value::Dest(from);
                        assert(before[i].1 == from);
                    }
                }
                changed
            },
            InstKind::Param(_) => false,
            InstKind::Dead => false,
        }
    }

    /// The operands that this instruction reads, in order.
    pub fn params_iter(&self) -> (r: Vec<Value>)
        ensures
            r@ == self.operands(),
    {
        let mut r: Vec<Value> = Vec::new();
        match self {
            InstKind::Binary(b) => {
                r.push(b.lhs);
                r.push(b.rhs);
                assert(r@ =~= seq![b.lhs, b.rhs]);
            },
            InstKind::FunctionCall(f) => {
                let mut i: usize = 0;
                while i < f.params.len()
                    invariant
                        i <= f.params@.len(),
                        r@ == f.params@.subrange(0, i as int),
                    decreases f.params.len() - i,
                {
                    r.push(f.params[i]);
                    i += 1;
                    assert(r@ =~= f.params@.subrange(0, i as int));
                }
                assert(r@ =~= f.params@);
            },
            InstKind::Assign(v) => {
                r.push(*v);
                assert(r@ =~= seq![*v]);
            },
            InstKind::Phi(source) => {
                let n = source.len();
                let mut i: usize = 0;
                while i < n
                    invariant
                        i <= n,
                        n == source.entries().len(),
                        r@ == phi_values(source.entries()).subrange(0, i as int),
                    decreases n - i,
                {
                    let e = source.entry(i);
                    r.push(Value::Dest(e.1));
                    i += 1;
                    assert(r@ =~= phi_values(source.entries()).subrange(0, i as int));
                }
                assert(r@ =~= phi_values(source.entries()));
            },
            InstKind::Param(_) => {},
            InstKind::Dead => {},
        }
        r
    }

    /// The instructions whose results this instruction reads, in order.
    pub fn param_op_iter(&self) -> (r: Vec<InstId>)
        ensures
            r@ == dests_of(self.operands()),
    {
        let vals = self.params_iter();
        let mut r: Vec<InstId> = Vec::new();
        let mut i: usize = 0;
        while i < vals.len()
            invariant
                i <= vals@.len(),
                r@ == dests_of(vals@.subrange(0, i as int)),
            decreases vals.len() - i,
        {
            proof {
                assert(vals@.subrange(0, i + 1).drop_last() =~= vals@.subrange(0, i as int));
            }
            match vals[i].get_inst() {
                Some(o) => {
                    r.push(o);
                },
                None => {},
            }
            i += 1;
        }
        assert(vals@.subrange(0, i as int) =~= vals@);
        r
    }
}

/// A branch at the end of a basic block.
#[derive(Clone, Copy, Debug, PartialEq, Eq, Structural)]
pub enum Branch {
    /// Leaves the function, with a value or without.
    Return(Option<Value>),
    /// Goes to the target.
    Jump(BBId),
    /// Goes to the target if `cond` is not zero, and on to the next branch of
    /// the block otherwise.
    CondJump { cond: Value, target: BBId },
}

impl Branch {
    /// The block this branch may go to, if it goes to one.
    pub open spec fn target(&self) -> Option<BBId> {
        match self {
            Branch::Return(_) => None,
            Branch::Jump(t) => Some(*t),
            Branch::CondJump { target, .. } => Some(*target),
        }
    }

    /// The block this branch may go to, if it goes to one.
    pub fn target_iter(&self) -> (r: Option<BBId>)
        ensures
            r == self.target(),
    {
        match self {
            Branch::Return(_) => None,
            Branch::Jump(t) => Some(*t),
            Branch::CondJump { target, .. } => Some(*target),
        }
    }

    /// This branch with every reference to `from` turned into `to`.
    pub open spec fn renamed(self, from: InstId, to: InstId) -> Branch {
        match self {
            Branch::Return(Some(v)) => Branch::Return(Some(v.renamed(from, to))),
            Branch::Return(None) => self,
            Branch::Jump(_) => self,
            Branch::CondJump { cond, target } => Branch::CondJump { cond: cond.renamed(from, to), target },
        }
    }

    /// Turns every reference to `from` into a reference to `to`.
    pub fn rename(self, from: InstId, to: InstId) -> (r: Branch)
        ensures
            r == self.renamed(from, to),
            r.target() == self.target(),
    {
        match self {
            Branch::Return(Some(v)) => Branch::Return(Some(v.rename(from, to))),
            Branch::Return(None) => self,
            Branch::Jump(_) => self,
            Branch::CondJump { cond, target } => Branch::CondJump { cond: cond.rename(from, to), target },
        }
    }

    /// True if this branch reads the result of `inst`.
    pub open spec fn uses(&self, inst: InstId) -> bool {
        self.operand() == Some(Value::Dest(inst))
    }

    /// The value this branch reads, if it reads one.
    pub open spec fn operand(&self) -> Option<Value> {
        match self {
            Branch::Return(v) => *v,
            Branch::Jump(_) => None,
            Branch::CondJump { cond, .. } => Some(*cond),
        }
    }
}

/// The targets of a list of branches, in order.
pub open spec fn targets_of(jumps: Seq<Branch>) -> Seq<BBId>
    decreases jumps.len(),
{
    if jumps.len() == 0 {
        Seq::<BBId>::empty()
    } else {
        match jumps.last().target() {
            Some(t) => targets_of(jumps.drop_last()).push(t),
            None => targets_of(jumps.drop_last()),
        }
    }
}

/// An instruction together with its place: the block that holds it and its
/// neighbours in that block's chain.
#[derive(Clone, Debug, PartialEq, Eq)]
pub struct Tac {
    /// The instruction itself.
    pub inst: Inst,
    /// The block that holds this instruction; null while it is in none.
    pub bb: BBId,
    /// The instruction before this one in its block.
    pub prev: Option<InstId>,
    /// The instruction after this one in its block.
    pub next: Option<InstId>,
}

impl Tac {
    pub fn new(inst: Inst, prev: Option<InstId>, next: Option<InstId>, bb: BBId) -> (r: Tac)
        ensures
            r == (Tac { inst, prev, next, bb }),
    {
        Tac { inst, prev, next, bb }
    }

    /// A record without neighbours.
    pub fn independent(inst: Inst, bb: BBId) -> (r: Tac)
        ensures
            r == (Tac { inst, bb, prev: None, next: None }),
    {
        Tac { inst, bb, prev: None, next: None }
    }

    /// True if this instruction is in no block and has no neighbours.
    pub open spec fn freestanding(&self) -> bool {
        self.bb.is_null() && self.prev.is_none() && self.next.is_none()
    }

    /// True if this instruction is in no block and has no neighbours.
    pub fn is_freestanding(&self) -> (r: bool)
        ensures
            r == self.freestanding(),
    {
        self.bb.bits == 0 && self.prev.is_none() && self.next.is_none()
    }
}

/// A basic block: the ends of its chain of instructions, its neighbours in
/// the function's order of blocks, and its branches.
#[derive(Clone, Debug, PartialEq, Eq)]
pub struct BasicBlock {
    /// The first instruction of the block.
    pub head: Option<InstId>,
    /// The last instruction of the block.
    pub tail: Option<InstId>,
    /// The block before this one.
    pub prev: Option<BBId>,
    /// The block after this one.
    pub next: Option<BBId>,
    /// The branches that end this block, in the order in which they are tried.
    pub jumps: Vec<Branch>,
}

impl BasicBlock {
    /// True if the block holds no instruction, no branch and has no neighbour.
    pub open spec fn blank(&self) -> bool {
        &&& self.head.is_none()
        &&& self.tail.is_none()
        &&& self.prev.is_none()
        &&& self.next.is_none()
        &&& self.jumps@ == Seq::<Branch>::empty()
    }
}

impl Default for BasicBlock {
    fn default() -> (r: BasicBlock)
        ensures
            r.blank(),
    {
        BasicBlock { head: None, tail: None, prev: None, next: None, jumps: Vec::new() }
    }
}

} // verus!
