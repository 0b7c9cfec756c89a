//! The structured program that is turned into three-address code.
//!
//! Variables are resolved before this point: an identifier is a
//! [`Variable`], its number and its type.

use vstd::prelude::*;
use smol_str::SmolStr;
use crate::builder::tables::Variable;
use crate::err::Error;
use crate::ty::Ty;

verus! {

#[derive(Clone, Copy, Debug, PartialEq, Eq, Structural)]
pub enum LiteralKind {
    Integer(u64),
    Char(char),
}

#[derive(Clone, Copy, Debug, PartialEq, Eq, Structural)]
pub struct LiteralExpr {
    pub kind: LiteralKind,
}

#[derive(Clone, Copy, Debug, PartialEq, Eq, Structural)]
pub enum BinaryOp {
    Add,
    Sub,
    Mul,
    Div,
    Gt,
    Lt,
    Ge,
    Le,
    Eq,
    Neq,
}

#[derive(Clone, Copy, Debug, PartialEq, Eq, Structural)]
pub enum UnaryOp {
    Neg,
    Pos,
}

#[derive(Debug)]
pub struct BinaryExpr {
    pub op: BinaryOp,
    pub lhs: Box<Expr>,
    pub rhs: Box<Expr>,
}

#[derive(Debug)]
pub struct UnaryExpr {
    pub op: UnaryOp,
    pub expr: Box<Expr>,
}

#[derive(Debug)]
pub struct AsExpr {
    pub val: Box<Expr>,
    pub ty: Ty,
}

#[derive(Debug)]
pub struct AssignExpr {
    pub lhs: Variable,
    pub rhs: Box<Expr>,
}

#[derive(Debug)]
pub enum Expr {
    Literal(LiteralExpr),
    Ident(Variable),
    Binary(BinaryExpr),
    Unary(UnaryExpr),
    As(AsExpr),
    Assign(AssignExpr),
}

#[derive(Debug)]
pub struct BlockStmt {
    pub stmts: Vec<Stmt>,
}

#[derive(Debug)]
pub enum IfElseBlock {
    Absent,
    If(Box<IfStmt>),
    Block(BlockStmt),
}

#[derive(Debug)]
pub struct IfStmt {
    pub cond: Expr,
    pub if_block: BlockStmt,
    pub else_block: IfElseBlock,
}

#[derive(Debug)]
pub struct WhileStmt {
    pub cond: Expr,
    pub body: BlockStmt,
}

#[derive(Debug)]
pub struct ReturnStmt {
    pub val: Option<Expr>,
}

#[derive(Debug)]
pub struct DeclStmt {
    pub var: Variable,
    pub val: Option<Expr>,
}

#[derive(Debug)]
pub enum Stmt {
    If(IfStmt),
    While(WhileStmt),
    Return(ReturnStmt),
    Block(BlockStmt),
    Expr(Expr),
    Decl(DeclStmt),
    Empty,
}

/// A function of the source program: its parameters in order, its other
/// variables, and its body.
#[derive(Debug)]
pub struct FuncStmt {
    pub name: SmolStr,
    pub params: Vec<Variable>,
    pub locals: Vec<Variable>,
    pub ret_ty: Ty,
    pub body: BlockStmt,
}

impl FuncStmt {
    /// The variables of the function: its parameters, then its other
    /// variables.
    pub open spec fn vars(&self) -> Seq<Variable> {
        self.params@ + self.locals@
    }

    /// The most instructions that the function can take, not counting
    /// phis.
    pub open spec fn cost(&self) -> nat {
        self.params@.len() + self.body.cost()
    }

    /// The variables of the function: its parameters, then its other
    /// variables.
    pub fn all_vars(&self) -> (r: Vec<Variable>)
        ensures
            r@ == self.vars(),
    {
        let mut vars: Vec<Variable> = Vec::new();
        let mut k: usize = 0;
        while k < self.params.len()
            invariant
                k <= self.params@.len(),
                vars@ == self.params@.subrange(0, k as int),
            decreases self.params.len() - k,
        {
            vars.push(self.params[k]);
            k += 1;
            proof {
                assert(vars@ =~= self.params@.subrange(0, k as int));
            }
        }
        let mut k: usize = 0;
        while k < self.locals.len()
            invariant
                k <= self.locals@.len(),
                vars@ == self.params@ + self.locals@.subrange(0, k as int),
            decreases self.locals.len() - k,
        {
            vars.push(self.locals[k]);
            k += 1;
            proof {
                assert(vars@ =~= self.params@ + self.locals@.subrange(0, k as int));
            }
        }
        proof {
            assert(vars@ =~= self.vars());
        }
        vars
    }

    /// True if the function names only its own variables and fits into the
    /// arenas, which hold no more than `u32::MAX` entries: there is room
    /// for its instructions and, in each block, for one phi for each of its
    /// variables.
    pub open spec fn fits(&self) -> bool {
        &&& self.body.within(self.vars())
        &&& self.cost() + self.vars().len() * (1 + self.body.blocks()) <= u32::MAX
        &&& 1 + self.body.blocks() <= u32::MAX
    }
}

/// The number that an integer literal stands for: its value taken as a
/// 64-bit two's complement number.
pub open spec fn wrapped(val: u64) -> i64 {
    if val <= i64::MAX as u64 {
        val as i64
    } else {
        (val - 0x1_0000_0000_0000_0000) as i64
    }
}

impl LiteralKind {
    /// The value of the literal.
    pub open spec fn value(self) -> i64 {
        match self {
            LiteralKind::Integer(val) => wrapped(val),
            LiteralKind::Char(ch) => ch as u32 as i64,
        }
    }
}

/// `Ok` if the two types are the same, and the mismatch otherwise.
pub open spec fn same_type(expected: Ty, found: Ty) -> Result<(), Error> {
    if expected == found {
        Ok(())
    } else {
        Err(Error::TypeMismatch { expected, found })
    }
}

impl BinaryExpr {
    pub open spec fn ty(&self) -> Result<Ty, Error>
        decreases self,
    {
        match self.lhs.ty() {
            Ok(lt) => match self.rhs.ty() {
                Ok(rt) => match same_type(lt, rt) {
                    Ok(_) => Ok(lt),
                    Err(e) => Err(e),
                },
                Err(e) => Err(e),
            },
            Err(e) => Err(e),
        }
    }

    pub open spec fn cost(&self) -> nat
        decreases self,
    {
        self.lhs.cost() + self.rhs.cost() + 1
    }

    pub open spec fn within(&self, vars: Seq<Variable>) -> bool
        decreases self,
    {
        self.lhs.within(vars) && self.rhs.within(vars)
    }
}

impl UnaryExpr {
    pub open spec fn ty(&self) -> Result<Ty, Error>
        decreases self,
    {
        self.expr.ty()
    }

    pub open spec fn constant(&self) -> Option<i64>
        decreases self,
    {
        if self.op == UnaryOp::Pos {
            self.expr.constant()
        } else {
            None
        }
    }

    pub open spec fn cost(&self) -> nat
        decreases self,
    {
        self.expr.cost() + 1
    }

    pub open spec fn within(&self, vars: Seq<Variable>) -> bool
        decreases self,
    {
        self.expr.within(vars)
    }
}

impl AsExpr {
    pub open spec fn ty(&self) -> Result<Ty, Error>
        decreases self,
    {
        self.val.ty()
    }

    pub open spec fn constant(&self) -> Option<i64>
        decreases self,
    {
        self.val.constant()
    }

    pub open spec fn cost(&self) -> nat
        decreases self,
    {
        self.val.cost()
    }

    pub open spec fn within(&self, vars: Seq<Variable>) -> bool
        decreases self,
    {
        self.val.within(vars)
    }
}

impl AssignExpr {
    pub open spec fn ty(&self) -> Result<Ty, Error>
        decreases self,
    {
        match self.rhs.ty() {
            Ok(t) => match same_type(self.lhs.ty, t) {
                Ok(_) => Ok(t),
                Err(e) => Err(e),
            },
            Err(e) => Err(e),
        }
    }

    pub open spec fn cost(&self) -> nat
        decreases self,
    {
        self.rhs.cost() + 1
    }

    pub open spec fn within(&self, vars: Seq<Variable>) -> bool
        decreases self,
    {
        vars.contains(self.lhs) && self.rhs.within(vars)
    }
}

impl Expr {
    /// The type of this expression, or the first mismatch met when its
    /// parts are typed from left to right.
    pub open spec fn ty(&self) -> Result<Ty, Error>
        decreases self,
    {
        match self {
            Expr::Literal(_) => Ok(Ty::I64),
            Expr::Ident(var) => Ok(var.ty),
            Expr::Binary(b) => b.ty(),
            Expr::Unary(u) => u.ty(),
            Expr::As(a) => a.ty(),
            Expr::Assign(a) => a.ty(),
        }
    }

    /// The value of this expression if it needs no instruction: a literal,
    /// or a literal under `+` or `as`.
    pub open spec fn constant(&self) -> Option<i64>
        decreases self,
    {
        match self {
            Expr::Literal(l) => Some(l.kind.value()),
            Expr::Unary(u) => u.constant(),
            Expr::As(a) => a.constant(),
            _ => None,
        }
    }

    /// The most instructions that this expression can take, not counting
    /// phis.
    pub open spec fn cost(&self) -> nat
        decreases self,
    {
        match self {
            Expr::Literal(_) => 0,
            Expr::Ident(_) => 0,
            Expr::Binary(b) => b.cost(),
            Expr::Unary(u) => u.cost(),
            Expr::As(a) => a.cost(),
            Expr::Assign(a) => a.cost(),
        }
    }

    /// True if every variable of this expression is among `vars`.
    pub open spec fn within(&self, vars: Seq<Variable>) -> bool
        decreases self,
    {
        match self {
            Expr::Literal(_) => true,
            Expr::Ident(var) => vars.contains(*var),
            Expr::Binary(b) => b.within(vars),
            Expr::Unary(u) => u.within(vars),
            Expr::As(a) => a.within(vars),
            Expr::Assign(a) => a.within(vars),
        }
    }
}

/// The first mismatch in an optional expression.
pub open spec fn check_opt(e: Option<Expr>) -> Result<(), Error> {
    match e {
        Some(e) => match e.ty() {
            Ok(_) => Ok(()),
            Err(e) => Err(e),
        },
        None => Ok(()),
    }
}

/// The first mismatch among the statements `stmts` from position `from` on.
pub open spec fn check_from(stmts: Seq<Stmt>, from: int) -> Result<(), Error>
    decreases stmts, stmts.len() - from,
{
    if 0 <= from < stmts.len() {
        match stmts[from].check() {
            Ok(_) => check_from(stmts, from + 1),
            Err(e) => Err(e),
        }
    } else {
        Ok(())
    }
}

/// The most instructions that the statements `stmts` from position `from`
/// on can take, not counting phis.
pub open spec fn cost_from(stmts: Seq<Stmt>, from: int) -> nat
    decreases stmts, stmts.len() - from,
{
    if 0 <= from < stmts.len() {
        stmts[from].cost() + cost_from(stmts, from + 1)
    } else {
        0
    }
}

/// The most blocks that the statements `stmts` from position `from` on can
/// make.
pub open spec fn blocks_from(stmts: Seq<Stmt>, from: int) -> nat
    decreases stmts, stmts.len() - from,
{
    if 0 <= from < stmts.len() {
        stmts[from].blocks() + blocks_from(stmts, from + 1)
    } else {
        0
    }
}

/// True if every variable of the statements `stmts` from position `from`
/// on is among `vars`.
pub open spec fn within_from(stmts: Seq<Stmt>, from: int, vars: Seq<Variable>) -> bool
    decreases stmts, stmts.len() - from,
{
    if 0 <= from < stmts.len() {
        stmts[from].within(vars) && within_from(stmts, from + 1, vars)
    } else {
        true
    }
}

impl BlockStmt {
    pub open spec fn check(&self) -> Result<(), Error>
        decreases self,
    {
        check_from(self.stmts@, 0)
    }

    pub open spec fn cost(&self) -> nat
        decreases self,
    {
        cost_from(self.stmts@, 0)
    }

    pub open spec fn blocks(&self) -> nat
        decreases self,
    {
        blocks_from(self.stmts@, 0)
    }

    pub open spec fn within(&self, vars: Seq<Variable>) -> bool
        decreases self,
    {
        within_from(self.stmts@, 0, vars)
    }
}

impl IfElseBlock {
    pub open spec fn check(&self) -> Result<(), Error>
        decreases self,
    {
        match self {
            IfElseBlock::Absent => Ok(()),
            IfElseBlock::If(i) => i.check(),
            IfElseBlock::Block(b) => b.check(),
        }
    }

    pub open spec fn cost(&self) -> nat
        decreases self,
    {
        match self {
            IfElseBlock::Absent => 0,
            IfElseBlock::If(i) => i.cost(),
            IfElseBlock::Block(b) => b.cost(),
        }
    }

    pub open spec fn blocks(&self) -> nat
        decreases self,
    {
        match self {
            IfElseBlock::Absent => 0,
            IfElseBlock::If(i) => i.blocks(),
            IfElseBlock::Block(b) => b.blocks(),
        }
    }

    pub open spec fn within(&self, vars: Seq<Variable>) -> bool
        decreases self,
    {
        match self {
            IfElseBlock::Absent => true,
            IfElseBlock::If(i) => i.within(vars),
            IfElseBlock::Block(b) => b.within(vars),
        }
    }
}

impl IfStmt {
    /// The first mismatch met when the statement is typed in the order in
    /// which it is built.
    pub open spec fn check(&self) -> Result<(), Error>
        decreases self,
    {
        match self.cond.ty() {
            Ok(_) => match self.if_block.check() {
                Ok(_) => self.else_block.check(),
                Err(e) => Err(e),
            },
            Err(e) => Err(e),
        }
    }

    pub open spec fn cost(&self) -> nat
        decreases self,
    {
        self.cond.cost() + self.if_block.cost() + self.else_block.cost()
    }

    pub open spec fn blocks(&self) -> nat
        decreases self,
    {
        3 + self.if_block.blocks() + self.else_block.blocks()
    }

    pub open spec fn within(&self, vars: Seq<Variable>) -> bool
        decreases self,
    {
        self.cond.within(vars) && self.if_block.within(vars) && self.else_block.within(vars)
    }
}

impl WhileStmt {
    pub open spec fn check(&self) -> Result<(), Error>
        decreases self,
    {
        match self.cond.ty() {
            Ok(_) => self.body.check(),
            Err(e) => Err(e),
        }
    }

    pub open spec fn cost(&self) -> nat
        decreases self,
    {
        self.cond.cost() + self.body.cost()
    }

    pub open spec fn blocks(&self) -> nat
        decreases self,
    {
        3 + self.body.blocks()
    }

    pub open spec fn within(&self, vars: Seq<Variable>) -> bool
        decreases self,
    {
        self.cond.within(vars) && self.body.within(vars)
    }
}

impl ReturnStmt {
    pub open spec fn check(&self) -> Result<(), Error> {
        check_opt(self.val)
    }

    pub open spec fn cost(&self) -> nat {
        match self.val {
            Some(e) => e.cost(),
            None => 0,
        }
    }

    pub open spec fn within(&self, vars: Seq<Variable>) -> bool {
        match self.val {
            Some(e) => e.within(vars),
            None => true,
        }
    }
}

impl DeclStmt {
    pub open spec fn check(&self) -> Result<(), Error> {
        match self.val {
            Some(e) => match e.ty() {
                Ok(t) => same_type(self.var.ty, t),
                Err(e) => Err(e),
            },
            None => Ok(()),
        }
    }

    pub open spec fn cost(&self) -> nat {
        match self.val {
            Some(e) => e.cost() + 1,
            None => 0,
        }
    }

    pub open spec fn within(&self, vars: Seq<Variable>) -> bool {
        vars.contains(self.var) && (match self.val {
            Some(e) => e.within(vars),
            None => true,
        })
    }
}

/// The first mismatch in an expression used as a statement.
pub open spec fn check_expr(e: &Expr) -> Result<(), Error> {
    match e.ty() {
        Ok(_) => Ok(()),
        Err(e) => Err(e),
    }
}

impl Stmt {
    /// The first mismatch met when the statement is typed in the order in
    /// which it is built.
    pub open spec fn check(&self) -> Result<(), Error>
        decreases self,
    {
        match self {
            Stmt::If(i) => i.check(),
            Stmt::While(w) => w.check(),
            Stmt::Return(r) => r.check(),
            Stmt::Block(b) => b.check(),
            Stmt::Expr(e) => check_expr(e),
            Stmt::Decl(d) => d.check(),
            Stmt::Empty => Ok(()),
        }
    }

    /// The most instructions that this statement can take, not counting
    /// phis.
    pub open spec fn cost(&self) -> nat
        decreases self,
    {
        match self {
            Stmt::If(i) => i.cost(),
            Stmt::While(w) => w.cost(),
            Stmt::Return(r) => r.cost(),
            Stmt::Block(b) => b.cost(),
            Stmt::Expr(e) => e.cost(),
            Stmt::Decl(d) => d.cost(),
            Stmt::Empty => 0,
        }
    }

    /// The most blocks that this statement can make.
    pub open spec fn blocks(&self) -> nat
        decreases self,
    {
        match self {
            Stmt::If(i) => i.blocks(),
            Stmt::While(w) => w.blocks(),
            Stmt::Return(_) => 1,
            Stmt::Block(b) => b.blocks(),
            Stmt::Expr(_) => 0,
            Stmt::Decl(_) => 0,
            Stmt::Empty => 0,
        }
    }

    /// True if every variable of this statement is among `vars`.
    pub open spec fn within(&self, vars: Seq<Variable>) -> bool
        decreases self,
    {
        match self {
            Stmt::If(i) => i.within(vars),
            Stmt::While(w) => w.within(vars),
            Stmt::Return(r) => r.within(vars),
            Stmt::Block(b) => b.within(vars),
            Stmt::Expr(e) => e.within(vars),
            Stmt::Decl(d) => d.within(vars),
            Stmt::Empty => true,
        }
    }
}

} // verus!
