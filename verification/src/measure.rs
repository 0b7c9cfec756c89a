//! Measuring a function of the source program before it is built: how many
//! instructions and blocks it can take, and whether it names only its own
//! variables.

use vstd::prelude::*;
use crate::ast::{
    blocks_from, cost_from, within_from, BlockStmt, Expr, FuncStmt, IfElseBlock, IfStmt, Stmt, WhileStmt,
};
use crate::builder::tables::Variable;
use crate::err::Error;
use crate::func::TacFunc;
use crate::inst::smol_str_text;
use crate::tacgen::compile_func;

verus! {

/// The largest count that matters: an arena holds no more entries.
pub const CAP: u64 = 0xffff_ffff;

/// The count `n`, or one more than [`CAP`] if `n` is larger than that.
pub open spec fn capped(n: nat) -> u64 {
    if n <= CAP {
        n as u64
    } else {
        (CAP + 1) as u64
    }
}

/// The capped sum of two capped counts.
fn cap_add(a: u64, b: u64, Ghost(x): Ghost<nat>, Ghost(y): Ghost<nat>) -> (r: u64)
    requires
        a == capped(x),
        b == capped(y),
    ensures
        r == capped(x + y),
{
    let sum: u64 = a + b;
    if sum > CAP {
        CAP + 1
    } else {
        sum
    }
}

/// True if `var` is among `vars`.
pub fn has_var(vars: &Vec<Variable>, var: Variable) -> (r: bool)
    ensures
        r == vars@.contains(var),
{
    let mut k: usize = 0;
    while k < vars.len()
        invariant
            k <= vars@.len(),
            forall|j: int| 0 <= j < k ==> vars@[j] != var,
        decreases vars.len() - k,
    {
        if vars[k] == var {
            return true;
        }
        k += 1;
    }
    false
}

impl Expr {
    /// The capped number of instructions that this expression can take.
    pub fn measure(&self) -> (r: u64)
        ensures
            r == capped(self.cost()),
        decreases self,
    {
        match self {
            Expr::Literal(_) => 0,
            Expr::Ident(_) => 0,
            Expr::Binary(b) => {
                let l = b.lhs.measure();
                let r = b.rhs.measure();
                let both = cap_add(l, r, Ghost(b.lhs.cost()), Ghost(b.rhs.cost()));
                cap_add(both, 1, Ghost(b.lhs.cost() + b.rhs.cost()), Ghost(1))
            },
            Expr::Unary(u) => {
                let e = u.expr.measure();
                cap_add(e, 1, Ghost(u.expr.cost()), Ghost(1))
            },
            Expr::As(a) => a.val.measure(),
            Expr::Assign(a) => {
                let e = a.rhs.measure();
                cap_add(e, 1, Ghost(a.rhs.cost()), Ghost(1))
            },
        }
    }

    /// True if every variable of this expression is among `vars`.
    pub fn names_only(&self, vars: &Vec<Variable>) -> (r: bool)
        ensures
            r == self.within(vars@),
        decreases self,
    {
        match self {
            Expr::Literal(_) => true,
            Expr::Ident(var) => has_var(vars, *var),
            Expr::Binary(b) => b.lhs.names_only(vars) && b.rhs.names_only(vars),
            Expr::Unary(u) => u.expr.names_only(vars),
            Expr::As(a) => a.val.names_only(vars),
            Expr::Assign(a) => has_var(vars, a.lhs) && a.rhs.names_only(vars),
        }
    }
}

/// What was measured of some statements: the capped numbers of instructions
/// and of blocks that they can take, and whether they name only the
/// variables they were measured against.
#[derive(Clone, Copy, Debug, PartialEq, Eq, Structural)]
pub struct Measure {
    pub cost: u64,
    pub blocks: u64,
    pub within: bool,
}

impl Measure {
    /// True if this is the measure of statements that can take `cost`
    /// instructions and `blocks` blocks and that name only the given
    /// variables exactly if `within`.
    pub open spec fn of(self, cost: nat, blocks: nat, within: bool) -> bool {
        self.cost == capped(cost) && self.blocks == capped(blocks) && self.within == within
    }
}

/// The measure of two things together, the second taking `extra` blocks
/// more.
fn both(
    a: Measure,
    b: Measure,
    extra: u64,
    Ghost(ca): Ghost<nat>,
    Ghost(ba): Ghost<nat>,
    Ghost(cb): Ghost<nat>,
    Ghost(bb): Ghost<nat>,
) -> (r: Measure)
    requires
        a.cost == capped(ca),
        a.blocks == capped(ba),
        b.cost == capped(cb),
        b.blocks == capped(bb),
        extra <= 4,
    ensures
        r.of(ca + cb, (ba + bb + extra) as nat, a.within && b.within),
{
    let cost = cap_add(a.cost, b.cost, Ghost(ca), Ghost(cb));
    let blocks = cap_add(a.blocks, b.blocks, Ghost(ba), Ghost(bb));
    let blocks = cap_add(blocks, extra, Ghost(ba + bb), Ghost(extra as nat));
    Measure { cost, blocks, within: a.within && b.within }
}

impl BlockStmt {
    /// The measure of this block against the variables `vars`.
    pub fn measure(&self, vars: &Vec<Variable>) -> (r: Measure)
        ensures
            r.of(self.cost(), self.blocks(), self.within(vars@)),
        decreases self, 1int,
    {
        let n = self.stmts.len();
        let mut m = Measure { cost: 0, blocks: 0, within: true };
        let mut i: usize = n;
        while i > 0
            invariant
                i <= n,
                n == self.stmts@.len(),
                m.of(
                    cost_from(self.stmts@, i as int),
                    blocks_from(self.stmts@, i as int),
                    within_from(self.stmts@, i as int, vars@),
                ),
            decreases i,
        {
            i -= 1;
            let sub = &self.stmts[i];
            let s = sub.measure(vars);
            m = both(
                s,
                m,
                0,
                Ghost(sub.cost()),
                Ghost(sub.blocks()),
                Ghost(cost_from(self.stmts@, i + 1)),
                Ghost(blocks_from(self.stmts@, i + 1)),
            );
        }
        m
    }
}

impl IfElseBlock {
    /// The measure of this arm against the variables `vars`.
    pub fn measure(&self, vars: &Vec<Variable>) -> (r: Measure)
        ensures
            r.of(self.cost(), self.blocks(), self.within(vars@)),
        decreases self, 2int,
    {
        match self {
            IfElseBlock::Absent => Measure { cost: 0, blocks: 0, within: true },
            IfElseBlock::If(i) => i.measure(vars),
            IfElseBlock::Block(b) => b.measure(vars),
        }
    }
}

impl IfStmt {
    /// The measure of this conditional against the variables `vars`.
    pub fn measure(&self, vars: &Vec<Variable>) -> (r: Measure)
        ensures
            r.of(self.cost(), self.blocks(), self.within(vars@)),
        decreases self, 0int,
    {
        let cond = Measure { cost: self.cond.measure(), blocks: 0, within: self.cond.names_only(vars) };
        let then_arm = self.if_block.measure(vars);
        let else_arm = self.else_block.measure(vars);
        let first = both(
            cond,
            then_arm,
            3,
            Ghost(self.cond.cost()),
            Ghost(0),
            Ghost(self.if_block.cost()),
            Ghost(self.if_block.blocks()),
        );
        both(
            first,
            else_arm,
            0,
            Ghost(self.cond.cost() + self.if_block.cost()),
            Ghost(self.if_block.blocks() + 3),
            Ghost(self.else_block.cost()),
            Ghost(self.else_block.blocks()),
        )
    }
}

impl WhileStmt {
    /// The measure of this loop against the variables `vars`.
    pub fn measure(&self, vars: &Vec<Variable>) -> (r: Measure)
        ensures
            r.of(self.cost(), self.blocks(), self.within(vars@)),
        decreases self, 0int,
    {
        let cond = Measure { cost: self.cond.measure(), blocks: 0, within: self.cond.names_only(vars) };
        let body = self.body.measure(vars);
        both(cond, body, 3, Ghost(self.cond.cost()), Ghost(0), Ghost(self.body.cost()), Ghost(self.body.blocks()))
    }
}

impl Stmt {
    /// The measure of this statement against the variables `vars`.
    pub fn measure(&self, vars: &Vec<Variable>) -> (r: Measure)
        ensures
            r.of(self.cost(), self.blocks(), self.within(vars@)),
        decreases self, 0int,
    {
        match self {
            Stmt::If(i) => i.measure(vars),
            Stmt::While(w) => w.measure(vars),
            Stmt::Return(r) => match &r.val {
                Some(e) => Measure { cost: e.measure(), blocks: 1, within: e.names_only(vars) },
                None => Measure { cost: 0, blocks: 1, within: true },
            },
            Stmt::Block(b) => b.measure(vars),
            Stmt::Expr(e) => Measure { cost: e.measure(), blocks: 0, within: e.names_only(vars) },
            Stmt::Decl(d) => {
                let known = has_var(vars, d.var);
                match &d.val {
                    Some(e) => {
                        let c = cap_add(e.measure(), 1, Ghost(e.cost()), Ghost(1));
                        Measure { cost: c, blocks: 0, within: known && e.names_only(vars) }
                    },
                    None => Measure { cost: 0, blocks: 0, within: known },
                }
            },
            Stmt::Empty => Measure { cost: 0, blocks: 0, within: true },
        }
    }
}

impl FuncStmt {
    /// True if the function names only its own variables and fits into the
    /// arenas.
    pub fn check_fits(&self) -> (r: bool)
        ensures
            r == self.fits(),
    {
        let vars = self.all_vars();
        let m = self.body.measure(&vars);
        if !m.within || m.blocks >= CAP || m.cost > CAP {
            return false;
        }
        let n = vars.len();
        if n > 0xffff_ffff || self.params.len() > 0xffff_ffff {
            proof {
                assert(self.vars().len() * (1 + self.body.blocks()) >= self.vars().len()) by (nonlinear_arith)
                    requires
                        self.body.blocks() >= 0,
                        self.vars().len() >= 0,
                ;
            }
            return false;
        }
        let width: u64 = 1 + m.blocks;
        proof {
            assert(n * width <= 0xffff_ffff * 0xffff_ffff) by (nonlinear_arith)
                requires
                    0 <= n <= 0xffff_ffff,
                    0 <= width <= 0xffff_ffff,
            ;
        }
        let phis: u64 = (n as u64) * width;
        let total: u64 = (self.params.len() as u64) + m.cost + phis;
        total <= CAP
    }
}

/// Builds the function `func` if it names only its own variables and fits
/// into the arenas, and reports `None` if it does not.
pub fn compile_checked(func: &FuncStmt) -> (r: Option<Result<TacFunc, Error>>)
    ensures
        r.is_some() == func.fits(),
        r matches Some(x) ==> func.compiles_to(x),
        r matches Some(Ok(f)) ==> {
            &&& func.body.check() == Ok::<(), Error>(())
            &&& f.wf()
            &&& f@.refs_ok()
            &&& f@.phis_complete()
            &&& forall|i: crate::handle::InstId, bb: crate::handle::BBId| #[trigger] f@.in_block(i, bb) ==> !f@.trivial(i)
            &&& f@.first_block.is_some()
            &&& f@.ty == func.ret_ty
            &&& smol_str_text(f@.name) == smol_str_text(func.name)
        },
        r matches Some(Err(e)) ==> func.body.check() == Err::<(), Error>(e),
{
    if func.check_fits() {
        Some(compile_func(func))
    } else {
        None
    }
}

} // verus!
