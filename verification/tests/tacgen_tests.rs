use azuki_tac::ast::{
    AsExpr, AssignExpr, BinaryExpr, BinaryOp as AstOp, BlockStmt, DeclStmt, Expr, FuncStmt, IfElseBlock,
    IfStmt, LiteralExpr, LiteralKind, ReturnStmt, Stmt, UnaryExpr, UnaryOp, WhileStmt,
};
use azuki_tac::builder::tables::Variable;
use azuki_tac::err::Error;
use azuki_tac::func::TacFunc;
use azuki_tac::handle::{BBId, InstId};
use azuki_tac::inst::{BinaryInst, BinaryOp, Branch, Inst, InstKind, Value};
use azuki_tac::tacgen::{assert_type_eq, compile_func, literal_value, lower_op, FuncCompiler};
use azuki_tac::ty::Ty;
use smol_str::SmolStr;

fn num(v: u64) -> Expr {
    Expr::Literal(LiteralExpr { kind: LiteralKind::Integer(v) })
}

fn var(id: u32) -> Variable {
    Variable { id, ty: Ty::I64 }
}

fn ident(id: u32) -> Expr {
    Expr::Ident(var(id))
}

fn binary(op: AstOp, lhs: Expr, rhs: Expr) -> Expr {
    Expr::Binary(BinaryExpr { op, lhs: Box::new(lhs), rhs: Box::new(rhs) })
}

fn assign(id: u32, rhs: Expr) -> Stmt {
    Stmt::Expr(Expr::Assign(AssignExpr { lhs: var(id), rhs: Box::new(rhs) }))
}

fn ret(e: Expr) -> Stmt {
    Stmt::Return(ReturnStmt { val: Some(e) })
}

fn block(stmts: Vec<Stmt>) -> BlockStmt {
    BlockStmt { stmts }
}

fn func(name: &str, params: Vec<Variable>, locals: Vec<Variable>, body: Vec<Stmt>) -> FuncStmt {
    FuncStmt { name: SmolStr::new(name), params, locals, ret_ty: Ty::I64, body: block(body) }
}

fn chain_of(f: &TacFunc, bb: BBId) -> Vec<InstId> {
    let mut out = Vec::new();
    let mut it = f.bb_get(bb).head;
    while let Some(i) = it {
        out.push(i);
        it = f.inst_next(i);
    }
    out
}

fn kinds_of(f: &TacFunc, bb: BBId) -> Vec<InstKind> {
    chain_of(f, bb).iter().map(|i| f.inst_get(*i).kind.clone()).collect()
}

fn phis_of(f: &TacFunc) -> Vec<InstId> {
    f.all_inst_unordered()
        .into_iter()
        .map(|p| p.0)
        .filter(|i| matches!(f.inst_get(*i).kind, InstKind::Phi(_)))
        .collect()
}

fn phi_operands(f: &TacFunc, phi: InstId) -> Vec<(BBId, InstId)> {
    match &f.inst_get(phi).kind {
        InstKind::Phi(ops) => (0..ops.len()).map(|k| ops.entry(k)).collect(),
        other => panic!("not a phi: {:?}", other),
    }
}

fn fresh() -> TacFunc {
    let mut f = TacFunc::new(SmolStr::new("f"), Ty::I64);
    let bb = f.bb_new();
    f.bb_set_first(bb);
    f
}

#[test]
fn straight_line_return() {
    let f = compile_func(&func("f", vec![], vec![], vec![ret(binary(AstOp::Add, num(1), num(2)))])).unwrap();
    assert_eq!(f.name.as_str(), "f");
    assert_eq!(f.ty, Ty::I64);
    assert_eq!(f.bb_count(), 2);
    let entry = f.starting_block().unwrap();
    let insts = chain_of(&f, entry);
    assert_eq!(insts.len(), 1);
    assert_eq!(
        f.inst_get(insts[0]),
        &Inst {
            kind: InstKind::Binary(BinaryInst { op: BinaryOp::Add, lhs: Value::Imm(1), rhs: Value::Imm(2) }),
            ty: Ty::I64
        }
    );
    assert_eq!(f.bb_get(entry).jumps, vec![Branch::Return(Some(Value::Dest(insts[0])))]);
    let tail: Vec<BBId> = f.all_bb_unordered().into_iter().filter(|x| *x != entry).collect();
    assert_eq!(tail.len(), 1);
    assert!(chain_of(&f, tail[0]).is_empty());
    assert!(f.bb_get(tail[0]).jumps.is_empty());
}

#[test]
fn if_else_with_returns() {
    let body = vec![Stmt::If(IfStmt {
        cond: binary(AstOp::Lt, ident(0), ident(1)),
        if_block: block(vec![ret(ident(0))]),
        else_block: IfElseBlock::Block(block(vec![ret(ident(1))])),
    })];
    let f = compile_func(&func("g", vec![var(0), var(1)], vec![], body)).unwrap();
    assert_eq!(f.bb_count(), 6);
    assert!(phis_of(&f).is_empty());
    let entry = f.starting_block().unwrap();
    let insts = chain_of(&f, entry);
    assert_eq!(insts.len(), 3);
    let (a, b) = match (&f.inst_get(insts[0]).kind, &f.inst_get(insts[1]).kind) {
        (InstKind::Param(1), InstKind::Param(0)) => (insts[1], insts[0]),
        other => panic!("unexpected parameters: {:?}", other),
    };
    assert_eq!(
        f.inst_get(insts[2]).kind,
        InstKind::Binary(BinaryInst { op: BinaryOp::Lt, lhs: Value::Dest(a), rhs: Value::Dest(b) })
    );
    let jumps = f.bb_get(entry).jumps.clone();
    assert_eq!(jumps.len(), 2);
    let (l_then, l_else) = match (jumps[0], jumps[1]) {
        (Branch::CondJump { cond, target }, Branch::Jump(other)) => {
            assert_eq!(cond, Value::Dest(insts[2]));
            (target, other)
        }
        other => panic!("unexpected branches: {:?}", other),
    };
    assert_ne!(l_then, l_else);
    assert!(chain_of(&f, l_then).is_empty());
    assert_eq!(f.bb_get(l_then).jumps, vec![Branch::Return(Some(Value::Dest(a)))]);
    assert!(chain_of(&f, l_else).is_empty());
    assert_eq!(f.bb_get(l_else).jumps, vec![Branch::Return(Some(Value::Dest(b)))]);
    let tail: Vec<BBId> =
        f.all_bb_unordered().into_iter().filter(|x| *x != entry && *x != l_then && *x != l_else).collect();
    assert_eq!(tail.len(), 3);
    let next: Vec<BBId> = tail.iter().copied().filter(|x| f.bb_get(*x).jumps.is_empty()).collect();
    assert_eq!(next.len(), 1);
    for b in tail.iter() {
        assert!(chain_of(&f, *b).is_empty());
        if *b != next[0] {
            assert_eq!(f.bb_get(*b).jumps, vec![Branch::Jump(next[0])]);
        }
    }
}

#[test]
fn if_with_join_and_assignment() {
    let body = vec![
        Stmt::Decl(DeclStmt { var: var(1), val: Some(num(0)) }),
        Stmt::If(IfStmt {
            cond: ident(0),
            if_block: block(vec![assign(1, num(1))]),
            else_block: IfElseBlock::Block(block(vec![assign(1, num(2))])),
        }),
        ret(ident(1)),
    ];
    let f = compile_func(&func("h", vec![var(0)], vec![var(1)], body)).unwrap();
    assert_eq!(f.bb_count(), 5);
    let entry = f.starting_block().unwrap();
    let jumps = f.bb_get(entry).jumps.clone();
    let (l_then, l_else) = match (jumps[0], jumps[1]) {
        (Branch::CondJump { target, .. }, Branch::Jump(other)) => (target, other),
        other => panic!("unexpected branches: {:?}", other),
    };
    assert_eq!(kinds_of(&f, l_then), vec![InstKind::Assign(Value::Imm(1))]);
    assert_eq!(kinds_of(&f, l_else), vec![InstKind::Assign(Value::Imm(2))]);
    let join = match f.bb_get(l_then).jumps[..] {
        [Branch::Jump(j)] => j,
        _ => panic!("the arm must jump to the join"),
    };
    assert_eq!(f.bb_get(l_else).jumps, vec![Branch::Jump(join)]);
    let phis = phis_of(&f);
    assert_eq!(phis.len(), 1);
    assert_eq!(chain_of(&f, join), vec![phis[0]]);
    let mut expected = vec![(l_then, chain_of(&f, l_then)[0]), (l_else, chain_of(&f, l_else)[0])];
    expected.sort();
    assert_eq!(phi_operands(&f, phis[0]), expected);
    assert_eq!(f.bb_get(join).jumps, vec![Branch::Return(Some(Value::Dest(phis[0])))]);
}

#[test]
fn while_loop_with_counter() {
    let body = vec![
        Stmt::Decl(DeclStmt { var: var(0), val: Some(num(0)) }),
        Stmt::While(WhileStmt {
            cond: binary(AstOp::Lt, ident(0), num(10)),
            body: block(vec![assign(0, binary(AstOp::Add, ident(0), num(1)))]),
        }),
        ret(ident(0)),
    ];
    let f = compile_func(&func("k", vec![], vec![var(0)], body)).unwrap();
    assert_eq!(f.bb_count(), 5);
    let entry = f.starting_block().unwrap();
    let init = chain_of(&f, entry);
    assert_eq!(kinds_of(&f, entry), vec![InstKind::Assign(Value::Imm(0))]);
    let header = match f.bb_get(entry).jumps[..] {
        [Branch::Jump(h)] => h,
        _ => panic!("the entry must jump to the header"),
    };
    let in_header = chain_of(&f, header);
    assert_eq!(in_header.len(), 2);
    let phi = in_header[0];
    assert_eq!(
        f.inst_get(in_header[1]).kind,
        InstKind::Binary(BinaryInst { op: BinaryOp::Lt, lhs: Value::Dest(phi), rhs: Value::Imm(10) })
    );
    let (body_bb, exit) = match f.bb_get(header).jumps[..] {
        [Branch::CondJump { cond, target }, Branch::Jump(other)] => {
            assert_eq!(cond, Value::Dest(in_header[1]));
            (target, other)
        }
        _ => panic!("the header must branch"),
    };
    let in_body = chain_of(&f, body_bb);
    assert_eq!(in_body.len(), 1);
    assert_eq!(
        f.inst_get(in_body[0]).kind,
        InstKind::Binary(BinaryInst { op: BinaryOp::Add, lhs: Value::Dest(phi), rhs: Value::Imm(1) })
    );
    assert_eq!(f.bb_get(body_bb).jumps, vec![Branch::Jump(header)]);
    let mut expected = vec![(entry, init[0]), (body_bb, in_body[0])];
    expected.sort();
    assert_eq!(phi_operands(&f, phi), expected);
    assert_eq!(phis_of(&f), vec![phi]);
    assert!(chain_of(&f, exit).is_empty());
    assert_eq!(f.bb_get(exit).jumps, vec![Branch::Return(Some(Value::Dest(phi)))]);
}

#[test]
fn if_without_else_branches_past_the_arm() {
    let body = vec![
        Stmt::Decl(DeclStmt { var: var(1), val: Some(num(0)) }),
        Stmt::If(IfStmt {
            cond: ident(0),
            if_block: block(vec![assign(1, num(1))]),
            else_block: IfElseBlock::Absent,
        }),
        ret(ident(1)),
    ];
    let f = compile_func(&func("h", vec![var(0)], vec![var(1)], body)).unwrap();
    assert_eq!(f.bb_count(), 4);
    let entry = f.starting_block().unwrap();
    let (l_then, next) = match f.bb_get(entry).jumps[..] {
        [Branch::CondJump { target, .. }, Branch::Jump(other)] => (target, other),
        _ => panic!("the entry must branch"),
    };
    assert_eq!(f.bb_get(l_then).jumps, vec![Branch::Jump(next)]);
    let phis = phis_of(&f);
    assert_eq!(phis.len(), 1);
    let zero = *chain_of(&f, entry).last().unwrap();
    let mut expected = vec![(entry, zero), (l_then, chain_of(&f, l_then)[0])];
    expected.sort();
    assert_eq!(phi_operands(&f, phis[0]), expected);
}

#[test]
fn else_if_chains_nest_in_the_else_block() {
    let inner = IfStmt {
        cond: ident(1),
        if_block: block(vec![ret(num(2))]),
        else_block: IfElseBlock::Block(block(vec![ret(num(3))])),
    };
    let body = vec![Stmt::If(IfStmt {
        cond: ident(0),
        if_block: block(vec![ret(num(1))]),
        else_block: IfElseBlock::If(Box::new(inner)),
    })];
    let f = compile_func(&func("e", vec![var(0), var(1)], vec![], body)).unwrap();
    assert_eq!(f.bb_count(), 10);
    let returns: usize = f
        .all_bb_unordered()
        .iter()
        .map(|b| f.bb_get(*b).jumps.iter().filter(|j| matches!(j, Branch::Return(_))).count())
        .sum();
    assert_eq!(returns, 3);
    assert!(phis_of(&f).is_empty());
}

#[test]
fn statement_after_return_goes_into_a_new_block() {
    let body = vec![ret(num(1)), Stmt::Decl(DeclStmt { var: var(0), val: Some(num(5)) }), ret(ident(0))];
    let f = compile_func(&func("r", vec![], vec![var(0)], body)).unwrap();
    assert_eq!(f.bb_count(), 3);
    let entry = f.starting_block().unwrap();
    assert_eq!(f.bb_get(entry).jumps, vec![Branch::Return(Some(Value::Imm(1)))]);
    assert!(chain_of(&f, entry).is_empty());
    let other: Vec<BBId> =
        f.all_bb_unordered().into_iter().filter(|b| *b != entry && !chain_of(&f, *b).is_empty()).collect();
    assert_eq!(other.len(), 1);
    let insts = chain_of(&f, other[0]);
    assert_eq!(kinds_of(&f, other[0]), vec![InstKind::Assign(Value::Imm(5))]);
    assert_eq!(f.bb_get(other[0]).jumps, vec![Branch::Return(Some(Value::Dest(insts[0])))]);
}

#[test]
fn return_without_value() {
    let f = compile_func(&func("u", vec![], vec![], vec![Stmt::Return(ReturnStmt { val: None })])).unwrap();
    let entry = f.starting_block().unwrap();
    assert_eq!(f.bb_get(entry).jumps, vec![Branch::Return(None)]);
}

#[test]
fn empty_and_nested_blocks() {
    let body = vec![Stmt::Empty, Stmt::Block(block(vec![Stmt::Empty, ret(num(4))])), Stmt::Empty];
    let f = compile_func(&func("n", vec![], vec![], body)).unwrap();
    assert_eq!(f.bb_count(), 2);
    assert_eq!(f.bb_get(f.starting_block().unwrap()).jumps, vec![Branch::Return(Some(Value::Imm(4)))]);
}

#[test]
fn binary_type_mismatch_is_reported() {
    let short = Variable { id: 0, ty: Ty::I32 };
    let body = vec![ret(binary(AstOp::Add, num(1), Expr::Ident(short)))];
    let r = compile_func(&func("m", vec![short], vec![], body));
    assert_eq!(r.err(), Some(Error::TypeMismatch { expected: Ty::I64, found: Ty::I32 }));
    let body = vec![ret(binary(AstOp::Add, Expr::Ident(short), num(1)))];
    let r = compile_func(&func("m", vec![short], vec![], body));
    assert_eq!(r.err(), Some(Error::TypeMismatch { expected: Ty::I32, found: Ty::I64 }));
}

#[test]
fn assignment_type_mismatch_is_reported() {
    let short = Variable { id: 0, ty: Ty::I32 };
    let body = vec![Stmt::Expr(Expr::Assign(AssignExpr { lhs: short, rhs: Box::new(num(1)) }))];
    let r = compile_func(&func("m", vec![], vec![short], body));
    assert_eq!(r.err(), Some(Error::TypeMismatch { expected: Ty::I32, found: Ty::I64 }));
    let body = vec![Stmt::Decl(DeclStmt { var: short, val: Some(num(1)) })];
    let r = compile_func(&func("m", vec![], vec![short], body));
    assert_eq!(r.err(), Some(Error::TypeMismatch { expected: Ty::I32, found: Ty::I64 }));
}

#[test]
fn first_mismatch_in_order_wins() {
    let short = Variable { id: 0, ty: Ty::I32 };
    let unit = Variable { id: 1, ty: Ty::Unit };
    let bad_left = binary(AstOp::Add, Expr::Ident(short), num(1));
    let bad_right = binary(AstOp::Add, Expr::Ident(unit), num(1));
    let body = vec![ret(binary(AstOp::Mul, bad_left, bad_right))];
    let r = compile_func(&func("m", vec![short, unit], vec![], body));
    assert_eq!(r.err(), Some(Error::TypeMismatch { expected: Ty::I32, found: Ty::I64 }));
    let body = vec![
        Stmt::While(WhileStmt {
            cond: num(1),
            body: block(vec![Stmt::Expr(binary(AstOp::Add, Expr::Ident(unit), num(1)))]),
        }),
        Stmt::Expr(binary(AstOp::Add, Expr::Ident(short), num(1))),
    ];
    let r = compile_func(&func("m", vec![short, unit], vec![], body));
    assert_eq!(r.err(), Some(Error::TypeMismatch { expected: Ty::Unit, found: Ty::I64 }));
}

#[test]
fn unary_and_as_expressions() {
    let mut f = fresh();
    let entry = f.starting_block().unwrap();
    let mut c = FuncCompiler::new(&mut f, vec![]);
    let neg = UnaryExpr { op: UnaryOp::Neg, expr: Box::new(num(5)) };
    let (v, t) = c.visit_unary_expr(&neg).unwrap();
    assert_eq!(t, Ty::I64);
    let i = v.get_inst().unwrap();
    assert_eq!(
        c.builder.editor.func.inst_get(i).kind,
        InstKind::Binary(BinaryInst { op: BinaryOp::Sub, lhs: Value::Imm(0), rhs: Value::Imm(5) })
    );
    let pos = UnaryExpr { op: UnaryOp::Pos, expr: Box::new(num(5)) };
    assert_eq!(c.visit_unary_expr(&pos), Ok((Value::Imm(5), Ty::I64)));
    let cast = AsExpr { val: Box::new(num(6)), ty: Ty::I32 };
    assert_eq!(c.visit_as_expr(&cast), Ok((Value::Imm(6), Ty::I64)));
    assert_eq!(c.builder.editor.func.inst_count(), 1);
    assert_eq!(c.current_bb(), entry);
}

#[test]
fn literals_have_the_integer_type() {
    let mut f = fresh();
    let mut c = FuncCompiler::new(&mut f, vec![]);
    let lit = LiteralExpr { kind: LiteralKind::Integer(42) };
    assert_eq!(c.visit_literal_expr(&lit), Ok((Value::Imm(42), Ty::I64)));
    let lit = LiteralExpr { kind: LiteralKind::Char('a') };
    assert_eq!(c.visit_literal_expr(&lit), Ok((Value::Imm(97), Ty::I64)));
    assert_eq!(literal_value(LiteralKind::Integer(u64::MAX)), -1);
    assert_eq!(literal_value(LiteralKind::Integer(1 << 63)), i64::MIN);
    assert_eq!(literal_value(LiteralKind::Integer(i64::MAX as u64)), i64::MAX);
    assert_eq!(literal_value(LiteralKind::Char('\u{10FFFF}')), 0x10FFFF);
}

#[test]
fn operators_are_lowered_one_to_one() {
    assert_eq!(lower_op(AstOp::Add), BinaryOp::Add);
    assert_eq!(lower_op(AstOp::Sub), BinaryOp::Sub);
    assert_eq!(lower_op(AstOp::Mul), BinaryOp::Mul);
    assert_eq!(lower_op(AstOp::Div), BinaryOp::Div);
    assert_eq!(lower_op(AstOp::Gt), BinaryOp::Gt);
    assert_eq!(lower_op(AstOp::Lt), BinaryOp::Lt);
    assert_eq!(lower_op(AstOp::Ge), BinaryOp::Ge);
    assert_eq!(lower_op(AstOp::Le), BinaryOp::Le);
    assert_eq!(lower_op(AstOp::Eq), BinaryOp::Eq);
    assert_eq!(lower_op(AstOp::Neq), BinaryOp::Ne);
}

#[test]
fn type_equality_check() {
    assert_eq!(assert_type_eq(&Ty::I64, &Ty::I64), Ok(()));
    assert_eq!(
        assert_type_eq(&Ty::I64, &Ty::Unit),
        Err(Error::TypeMismatch { expected: Ty::I64, found: Ty::Unit })
    );
}

#[test]
fn assignment_of_a_variable_copies_the_definition() {
    let mut f = fresh();
    let entry = f.starting_block().unwrap();
    let mut c = FuncCompiler::new(&mut f, vec![var(0), var(1)]);
    let first = Stmt::Decl(DeclStmt { var: var(0), val: Some(num(3)) });
    assert_eq!(c.visit_stmt(&first), Ok(()));
    let copy = AssignExpr { lhs: var(1), rhs: Box::new(ident(0)) };
    let (v, t) = c.visit_assign_expr(&copy).unwrap();
    assert_eq!(t, Ty::I64);
    let d = c.builder.defs.get(var(0), entry).unwrap();
    assert_eq!(v, Value::Dest(d));
    assert_eq!(c.builder.defs.get(var(1), entry), Some(d));
    assert_eq!(c.builder.editor.func.inst_count(), 1);
    assert_eq!(c.visit_ident_expr(&var(1)), Ok((Value::Dest(d), Ty::I64)));
    assert_eq!(c.visit_expr_stmt(&ident(1)), Ok(()));
    assert_eq!(c.visit_empty_stmt(), Ok(()));
}

#[test]
fn nested_loops_and_conditionals_leave_no_trivial_phi() {
    let inner = Stmt::While(WhileStmt {
        cond: binary(AstOp::Lt, ident(1), ident(0)),
        body: block(vec![
            Stmt::If(IfStmt {
                cond: binary(AstOp::Eq, ident(1), num(3)),
                if_block: block(vec![assign(2, binary(AstOp::Add, ident(2), num(1)))]),
                else_block: IfElseBlock::Absent,
            }),
            assign(1, binary(AstOp::Add, ident(1), num(1))),
        ]),
    });
    let body = vec![
        Stmt::Decl(DeclStmt { var: var(1), val: Some(num(0)) }),
        Stmt::Decl(DeclStmt { var: var(2), val: Some(num(0)) }),
        Stmt::While(WhileStmt {
            cond: binary(AstOp::Gt, ident(0), num(0)),
            body: block(vec![inner, assign(0, binary(AstOp::Sub, ident(0), num(1)))]),
        }),
        ret(ident(2)),
    ];
    let f = compile_func(&func("n", vec![var(0)], vec![var(1), var(2)], body)).unwrap();
    for (i, _) in f.all_inst_unordered() {
        let inst = f.inst_get(i);
        for used in inst.kind.param_op_iter() {
            assert!(f.inst_exists(used));
            assert_ne!(f.inst_get(used).kind, InstKind::Dead);
        }
        if let InstKind::Phi(ops) = &inst.kind {
            let mut others: Vec<InstId> = (0..ops.len()).map(|k| ops.entry(k).1).filter(|x| *x != i).collect();
            others.sort();
            others.dedup();
            assert!(others.len() >= 2);
        }
    }
    for b in f.all_bb_unordered() {
        for j in &f.bb_get(b).jumps {
            let used = match j {
                Branch::Return(Some(Value::Dest(i))) => Some(*i),
                Branch::CondJump { cond: Value::Dest(i), .. } => Some(*i),
                _ => None,
            };
            if let Some(i) = used {
                assert_ne!(f.inst_get(i).kind, InstKind::Dead);
            }
        }
    }
}

#[test]
fn a_parameter_is_stored_first_and_defines_its_variable() {
    let mut f = fresh();
    let entry = f.starting_block().unwrap();
    let short = Variable { id: 1, ty: Ty::I32 };
    let mut c = FuncCompiler::new(&mut f, vec![var(0), short]);
    let (v, _) = c.visit_binary_expr(&BinaryExpr {
        op: AstOp::Add,
        lhs: Box::new(num(1)),
        rhs: Box::new(num(2)),
    })
    .unwrap();
    let sum = v.get_inst().unwrap();
    assert_eq!(c.visit_func_param(&var(0), 0), Ok(()));
    assert_eq!(c.visit_func_param(&short, 1), Ok(()));
    let p0 = c.builder.defs.get(var(0), entry).unwrap();
    let p1 = c.builder.defs.get(short, entry).unwrap();
    assert_eq!(c.builder.editor.func.inst_get(p0), &Inst { kind: InstKind::Param(0), ty: Ty::I64 });
    assert_eq!(c.builder.editor.func.inst_get(p1), &Inst { kind: InstKind::Param(1), ty: Ty::I32 });
    assert_eq!(c.builder.editor.current_bb(), entry);
    assert_eq!(c.builder.editor.current_idx(), Some(sum));
    assert_eq!(chain_of(&f, entry), vec![p1, p0, sum]);
}

#[test]
fn a_return_opens_a_new_block_at_once() {
    let mut f = fresh();
    let entry = f.starting_block().unwrap();
    let mut c = FuncCompiler::new(&mut f, vec![]);
    assert_eq!(c.visit_return_stmt(&ReturnStmt { val: None }), Ok(()));
    let n = c.current_bb();
    assert_ne!(n, entry);
    assert_eq!(c.builder.editor.current_idx(), None);
    assert!(c.builder.is_filled(entry));
    assert!(c.builder.is_sealed(n));
    assert!(c.builder.editor.pred_of_bb(n).to_vec().is_empty());
    assert!(c.builder.editor.succ_of_bb(entry).to_vec().is_empty());
    assert_eq!(f.bb_count(), 2);
    assert_eq!(f.bb_get(entry).jumps, vec![Branch::Return(None)]);
    assert!(f.bb_get(n).jumps.is_empty());
    assert!(chain_of(&f, n).is_empty());
}

#[test]
fn a_loop_body_that_returns_still_jumps_back() {
    let body = vec![Stmt::While(WhileStmt { cond: num(1), body: block(vec![Stmt::Return(ReturnStmt { val: None })]) })];
    let f = compile_func(&func("w", vec![], vec![], body)).unwrap();
    assert_eq!(f.bb_count(), 5);
    let entry = f.starting_block().unwrap();
    let header = match f.bb_get(entry).jumps[..] {
        [Branch::Jump(h)] => h,
        _ => panic!("the entry must jump to the header"),
    };
    let (body_bb, exit) = match f.bb_get(header).jumps[..] {
        [Branch::CondJump { cond, target }, Branch::Jump(other)] => {
            assert_eq!(cond, Value::Imm(1));
            (target, other)
        }
        _ => panic!("the header must branch"),
    };
    assert_eq!(f.bb_get(body_bb).jumps, vec![Branch::Return(None)]);
    let behind: Vec<BBId> = f
        .all_bb_unordered()
        .into_iter()
        .filter(|b| *b != entry && *b != header && *b != body_bb && *b != exit)
        .collect();
    assert_eq!(behind.len(), 1);
    assert_eq!(f.bb_get(behind[0]).jumps, vec![Branch::Jump(header)]);
    assert!(f.bb_get(exit).jumps.is_empty());
}
