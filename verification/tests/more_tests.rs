use azuki_tac::ast::{
    BinaryExpr, BinaryOp as AstOp, BlockStmt, DeclStmt, Expr, FuncStmt, IfElseBlock, IfStmt, LiteralExpr,
    LiteralKind, ReturnStmt, Stmt, WhileStmt,
};
use azuki_tac::builder::func_editor::FuncEditor;
use azuki_tac::builder::ssa::{sole_operand, vec_has, FuncBuilder};
use azuki_tac::builder::tables::Variable;
use azuki_tac::func::{Program, TacFunc};
use azuki_tac::handle::{BBId, InstId};
use azuki_tac::inst::{BinaryInst, BinaryOp, Branch, FunctionCall, Inst, InstKind, Value};
use azuki_tac::measure::{compile_checked, has_var, Measure, CAP};
use azuki_tac::phi::PhiOperands;
use azuki_tac::small::SmallBBIdVec;
use azuki_tac::ty::Ty;
use smol_str::SmolStr;

fn assign(v: i64) -> Inst {
    Inst { kind: InstKind::Assign(Value::Imm(v)), ty: Ty::I64 }
}

fn var(id: u32) -> Variable {
    Variable { id, ty: Ty::I64 }
}

fn num(v: u64) -> Expr {
    Expr::Literal(LiteralExpr { kind: LiteralKind::Integer(v) })
}

fn add(lhs: Expr, rhs: Expr) -> Expr {
    Expr::Binary(BinaryExpr { op: AstOp::Add, lhs: Box::new(lhs), rhs: Box::new(rhs) })
}

fn fresh() -> (TacFunc, BBId) {
    let mut f = TacFunc::new(SmolStr::new("f"), Ty::I64);
    let bb = f.bb_new();
    f.bb_set_first(bb);
    (f, bb)
}

fn block_with(f: &mut TacFunc, n: i64) -> (BBId, Vec<InstId>) {
    let bb = f.bb_new();
    let mut ids = Vec::new();
    for k in 0..n {
        let i = f.inst_new(assign(k));
        f.inst_append_in_bb(i, bb);
        ids.push(i);
    }
    (bb, ids)
}

#[test]
fn chain_walk_from_start_to_end() {
    let mut f = TacFunc::new_untyped(SmolStr::new("f"));
    let (bb, ids) = block_with(&mut f, 5);
    assert_eq!(f.inst_iter(f.bb_get(bb).head, None), ids);
    assert_eq!(f.inst_iter(Some(ids[1]), Some(ids[3])), vec![ids[1], ids[2]]);
    assert_eq!(f.inst_iter(Some(ids[2]), None), vec![ids[2], ids[3], ids[4]]);
    assert_eq!(f.inst_iter(Some(ids[2]), Some(ids[2])), Vec::<InstId>::new());
    assert_eq!(f.inst_iter(Some(ids[3]), Some(ids[1])), vec![ids[3], ids[4]]);
    assert_eq!(f.inst_iter(None, None), Vec::<InstId>::new());
    let (other, more) = block_with(&mut f, 1);
    assert_eq!(f.inst_iter(Some(ids[4]), Some(more[0])), vec![ids[4]]);
    assert_eq!(f.inst_iter(f.bb_get(other).head, None), more);
}

#[test]
fn short_list_holds_its_elements_in_order() {
    let mut v = SmallBBIdVec::new();
    assert_eq!(v.len(), 0);
    assert_eq!(v.get(0), None);
    let ids: Vec<BBId> = (1..=40).map(|k| BBId::from_bits((1 << 32) | k)).collect();
    for (k, id) in ids.iter().enumerate() {
        v.push(*id);
        assert_eq!(v.len(), k + 1);
        assert_eq!(v.get(k), Some(*id));
    }
    assert_eq!(v.get(0), Some(ids[0]));
    assert_eq!(v.get(16), Some(ids[16]));
    assert_eq!(v.get(40), None);
    assert_eq!(v.to_vec(), ids);
}

#[test]
fn block_with_many_branches_has_many_successors() {
    let (mut f, first) = fresh();
    let mut e = FuncEditor::new(&mut f);
    let target = e.new_bb();
    let other = e.new_bb();
    for k in 0..20 {
        let t = if k % 2 == 0 { target } else { other };
        e.add_branch(Branch::CondJump { cond: Value::Imm(k), target: t }, first).unwrap();
    }
    let succ = e.succ_of_bb(first).to_vec();
    assert_eq!(succ.len(), 20);
    for (k, s) in succ.iter().enumerate() {
        assert_eq!(*s, if k % 2 == 0 { target } else { other });
    }
    assert_eq!(e.pred_of_bb(target).to_vec(), vec![first; 10]);
    assert_eq!(e.pred_edge_of_bb(other).len(), 10);
}

#[test]
fn operands_are_renamed_in_every_kind() {
    let a = InstId::from_bits((1 << 32) | 1);
    let b = InstId::from_bits((1 << 32) | 2);
    let c = InstId::from_bits((1 << 32) | 3);
    let mut k = InstKind::Binary(BinaryInst { op: BinaryOp::Mul, lhs: Value::Dest(a), rhs: Value::Dest(b) });
    assert!(k.replace_uses(a, c));
    assert_eq!(k, InstKind::Binary(BinaryInst { op: BinaryOp::Mul, lhs: Value::Dest(c), rhs: Value::Dest(b) }));
    assert!(!k.replace_uses(a, c));
    let mut k = InstKind::FunctionCall(FunctionCall {
        name: SmolStr::new("g"),
        params: vec![Value::Dest(a), Value::Imm(1), Value::Dest(a), Value::Dest(b)],
    });
    assert!(k.replace_uses(a, c));
    assert_eq!(k.params_iter(), vec![Value::Dest(c), Value::Imm(1), Value::Dest(c), Value::Dest(b)]);
    let mut k = InstKind::Assign(Value::Dest(b));
    assert!(k.replace_uses(b, a));
    assert_eq!(k, InstKind::Assign(Value::Dest(a)));
    let mut k = InstKind::Assign(Value::Imm(4));
    assert!(!k.replace_uses(b, a));
    let mut k = InstKind::Param(3);
    assert!(!k.replace_uses(b, a));
    let mut k = InstKind::Dead;
    assert!(!k.replace_uses(b, a));
    let mut ops = PhiOperands::new();
    ops.insert(BBId::from_bits((1 << 32) | 1), a);
    ops.insert(BBId::from_bits((1 << 32) | 2), b);
    ops.insert(BBId::from_bits((1 << 32) | 3), a);
    let mut k = InstKind::Phi(ops);
    assert!(k.replace_uses(a, c));
    assert_eq!(k.param_op_iter(), vec![c, b, c]);
    assert!(!k.replace_uses(a, c));
}

#[test]
fn phi_operands_rename_keeps_the_keys() {
    let k1 = BBId::from_bits((1 << 32) | 1);
    let k2 = BBId::from_bits((1 << 32) | 2);
    let a = InstId::from_bits((1 << 32) | 10);
    let b = InstId::from_bits((1 << 32) | 11);
    let mut ops = PhiOperands::new();
    ops.insert(k2, a);
    ops.insert(k1, b);
    assert!(ops.rename(a, b));
    assert_eq!(ops.entry(0), (k1, b));
    assert_eq!(ops.entry(1), (k2, b));
    assert!(!ops.rename(a, b));
}

#[test]
fn branches_are_renamed() {
    let a = InstId::from_bits((1 << 32) | 1);
    let b = InstId::from_bits((1 << 32) | 2);
    let t = BBId::from_bits((1 << 32) | 1);
    assert_eq!(Branch::Return(Some(Value::Dest(a))).rename(a, b), Branch::Return(Some(Value::Dest(b))));
    assert_eq!(Branch::Return(Some(Value::Imm(1))).rename(a, b), Branch::Return(Some(Value::Imm(1))));
    assert_eq!(Branch::Return(None).rename(a, b), Branch::Return(None));
    assert_eq!(Branch::Jump(t).rename(a, b), Branch::Jump(t));
    assert_eq!(
        Branch::CondJump { cond: Value::Dest(a), target: t }.rename(a, b),
        Branch::CondJump { cond: Value::Dest(b), target: t }
    );
}

#[test]
fn uses_are_replaced_in_the_whole_function() {
    let (mut f, first) = fresh();
    let a = f.inst_new(assign(1));
    f.inst_append_in_bb(a, first);
    let b = f.inst_new(assign(2));
    f.inst_append_in_bb(b, first);
    let user = f.inst_new(Inst {
        kind: InstKind::Binary(BinaryInst { op: BinaryOp::Add, lhs: Value::Dest(a), rhs: Value::Dest(a) }),
        ty: Ty::I64,
    });
    f.inst_append_in_bb(user, first);
    let mut ops = PhiOperands::new();
    ops.insert(first, a);
    let phi = f.inst_new(Inst { kind: InstKind::Phi(ops), ty: Ty::I64 });
    f.inst_prepend_in_bb(phi, first);
    f.bb_jumps_mut(first).push(Branch::CondJump { cond: Value::Dest(a), target: first });
    f.bb_jumps_mut(first).push(Branch::Return(Some(Value::Dest(b))));
    let users = f.replace_uses(a, b);
    assert_eq!(users, vec![phi]);
    assert_eq!(
        f.inst_get(user).kind,
        InstKind::Binary(BinaryInst { op: BinaryOp::Add, lhs: Value::Dest(b), rhs: Value::Dest(b) })
    );
    assert_eq!(f.inst_get(phi).kind.param_op_iter(), vec![b]);
    assert_eq!(
        f.bb_get(first).jumps,
        vec![Branch::CondJump { cond: Value::Dest(b), target: first }, Branch::Return(Some(Value::Dest(b)))]
    );
    assert_eq!(f.replace_uses(a, b), Vec::<InstId>::new());
}

#[test]
fn sole_operand_tells_trivial_phis() {
    let k1 = BBId::from_bits((1 << 32) | 1);
    let k2 = BBId::from_bits((1 << 32) | 2);
    let k3 = BBId::from_bits((1 << 32) | 3);
    let phi = InstId::from_bits((1 << 32) | 9);
    let a = InstId::from_bits((1 << 32) | 10);
    let b = InstId::from_bits((1 << 32) | 11);
    let mut ops = PhiOperands::new();
    assert_eq!(sole_operand(&ops, phi), None);
    ops.insert(k1, phi);
    assert_eq!(sole_operand(&ops, phi), None);
    ops.insert(k2, a);
    assert_eq!(sole_operand(&ops, phi), Some(a));
    ops.insert(k3, a);
    assert_eq!(sole_operand(&ops, phi), Some(a));
    ops.insert(k1, b);
    assert_eq!(sole_operand(&ops, phi), None);
    assert!(vec_has(&vec![a, b], b));
    assert!(!vec_has(&vec![a, b], phi));
}

#[test]
fn trivial_phi_can_be_removed_by_hand() {
    let (mut f, entry) = fresh();
    let mut b = FuncBuilder::new(&mut f);
    let d = b.editor.insert_after_current_place(assign(1));
    let join = b.editor.new_bb();
    b.editor.add_branch(Branch::Jump(join), entry).unwrap();
    let phi = b.insert_phi(var(0), join);
    b.write_variable(var(0), join, phi);
    let user = b.editor.insert_at_end_of(
        Inst { kind: InstKind::Assign(Value::Dest(phi)), ty: Ty::I64 },
        join,
    )
    .unwrap();
    b.try_remove_trivial_phi(phi);
    assert!(matches!(b.editor.func.inst_get(phi).kind, InstKind::Phi(_)));
    b.set_operand(phi, entry, d);
    b.filling.push(phi);
    b.try_remove_trivial_phi(phi);
    assert!(matches!(b.editor.func.inst_get(phi).kind, InstKind::Phi(_)));
    b.filling.pop();
    b.try_remove_trivial_phi(phi);
    assert_eq!(b.editor.func.inst_get(phi).kind, InstKind::Dead);
    assert_eq!(b.editor.func.inst_get(user).kind, InstKind::Assign(Value::Dest(d)));
    assert_eq!(b.defs.get(var(0), join), Some(d));
    b.try_remove_trivial_phi(phi);
    b.try_remove_trivial_phi(InstId::default());
    assert_eq!(b.editor.func.inst_get(phi).kind, InstKind::Dead);
}

#[test]
fn phi_operands_are_collected_from_the_predecessors() {
    let (mut f, entry) = fresh();
    let mut b = FuncBuilder::new(&mut f);
    let one = b.editor.insert_after_current_place(assign(1));
    b.write_variable(var(0), entry, one);
    let side = b.editor.new_bb();
    let join = b.editor.new_bb();
    b.editor.add_branch(Branch::CondJump { cond: Value::Imm(1), target: side }, entry).unwrap();
    b.editor.add_branch(Branch::Jump(join), entry).unwrap();
    b.editor.add_branch(Branch::Jump(join), side).unwrap();
    let two = b.editor.insert_at_end_of(assign(2), side).unwrap();
    b.write_variable(var(0), side, two);
    b.seal_block(entry);
    b.seal_block(side);
    let phi = b.insert_phi(var(0), join);
    b.add_phi_operands(phi, var(0), join);
    let ops: Vec<(BBId, InstId)> = match &b.editor.func.inst_get(phi).kind {
        InstKind::Phi(ops) => (0..ops.len()).map(|k| ops.entry(k)).collect(),
        _ => panic!("not a phi"),
    };
    let mut expected = vec![(entry, one), (side, two)];
    expected.sort();
    assert_eq!(ops, expected);
    assert!(b.filling.is_empty());
    b.add_phi_operands(InstId::default(), var(0), join);
    b.set_operand(one, entry, two);
    assert_eq!(b.editor.func.inst_get(one), &assign(1));
}

#[test]
fn measure_counts_instructions_and_blocks() {
    let vars = vec![var(0), var(1)];
    assert!(has_var(&vars, var(1)));
    assert!(!has_var(&vars, var(2)));
    assert!(!has_var(&vars, Variable { id: 1, ty: Ty::I32 }));
    let e = add(add(num(1), Expr::Ident(var(0))), num(3));
    assert_eq!(e.measure(), 2);
    assert!(e.names_only(&vars));
    assert!(!add(num(1), Expr::Ident(var(2))).names_only(&vars));
    let body = BlockStmt {
        stmts: vec![
            Stmt::Decl(DeclStmt { var: var(0), val: Some(num(0)) }),
            Stmt::While(WhileStmt {
                cond: Expr::Ident(var(0)),
                body: BlockStmt {
                    stmts: vec![Stmt::If(IfStmt {
                        cond: add(num(1), num(2)),
                        if_block: BlockStmt { stmts: vec![Stmt::Empty] },
                        else_block: IfElseBlock::Block(BlockStmt {
                            stmts: vec![Stmt::Expr(add(num(1), num(2)))],
                        }),
                    })],
                },
            }),
            Stmt::Return(ReturnStmt { val: Some(add(num(1), num(2))) }),
        ],
    };
    assert_eq!(body.measure(&vars), Measure { cost: 4, blocks: 7, within: true });
    assert_eq!(body.measure(&vec![]), Measure { cost: 4, blocks: 7, within: false });
    assert_eq!(CAP, u32::MAX as u64);
}

#[test]
fn checked_compile_refuses_unknown_variables() {
    let f = FuncStmt {
        name: SmolStr::new("f"),
        params: vec![var(0)],
        locals: vec![var(1)],
        ret_ty: Ty::I64,
        body: BlockStmt { stmts: vec![Stmt::Return(ReturnStmt { val: Some(Expr::Ident(var(2))) })] },
    };
    assert!(!f.check_fits());
    assert!(compile_checked(&f).is_none());
    assert_eq!(f.all_vars(), vec![var(0), var(1)]);
    let f = FuncStmt {
        name: SmolStr::new("f"),
        params: vec![var(0)],
        locals: vec![var(1)],
        ret_ty: Ty::I64,
        body: BlockStmt { stmts: vec![Stmt::Return(ReturnStmt { val: Some(Expr::Ident(var(1))) })] },
    };
    assert!(f.check_fits());
    let built = compile_checked(&f).unwrap().unwrap();
    assert_eq!(built.bb_count(), 2);
    assert_eq!(built.inst_count(), 2);
    let short = Variable { id: 1, ty: Ty::I32 };
    let f = FuncStmt {
        name: SmolStr::new("f"),
        params: vec![],
        locals: vec![short],
        ret_ty: Ty::I64,
        body: BlockStmt { stmts: vec![Stmt::Decl(DeclStmt { var: short, val: Some(num(1)) })] },
    };
    assert!(compile_checked(&f).unwrap().is_err());
}

#[test]
fn walking_from_an_instruction_in_no_block_gives_only_itself() {
    let mut f = TacFunc::new(SmolStr::new("f"), Ty::I64);
    let a = f.inst_new(Inst { kind: InstKind::Assign(Value::Imm(1)), ty: Ty::I64 });
    let b = f.inst_new(Inst { kind: InstKind::Assign(Value::Imm(2)), ty: Ty::I64 });
    assert_eq!(f.inst_iter(Some(a), None), vec![a]);
    assert_eq!(f.inst_iter(Some(a), Some(b)), vec![a]);
    assert_eq!(f.inst_iter(Some(a), Some(a)), Vec::<InstId>::new());
    assert_eq!(f.inst_iter(None, Some(a)), Vec::<InstId>::new());
}

#[test]
fn the_default_function_is_empty_and_of_the_unit_type() {
    let f = TacFunc::default();
    assert_eq!(f.name.as_str(), "");
    assert_eq!(f.ty, Ty::Unit);
    assert_eq!(f.inst_count(), 0);
    assert_eq!(f.bb_count(), 0);
    assert_eq!(f.starting_block(), None);
}

#[test]
fn a_copy_of_a_function_holds_the_same_under_the_same_handles() {
    let mut f = TacFunc::new(SmolStr::new("g"), Ty::I32);
    let bb = f.bb_new();
    f.bb_set_first(bb);
    let a = f.inst_new(Inst { kind: InstKind::Assign(Value::Imm(7)), ty: Ty::I32 });
    f.inst_append_in_bb(a, bb);
    let mut g = f.clone();
    assert_eq!(g.name.as_str(), "g");
    assert_eq!(g.ty, Ty::I32);
    assert_eq!(g.starting_block(), Some(bb));
    assert_eq!(g.tac_get(a), f.tac_get(a));
    assert_eq!(g.bb_get(bb), f.bb_get(bb));
    let b = g.inst_new(Inst { kind: InstKind::Assign(Value::Imm(8)), ty: Ty::I32 });
    g.inst_append_in_bb(b, bb);
    assert_eq!(g.inst_count(), 2);
    assert_eq!(f.inst_count(), 1);
    assert_eq!(f.bb_get(bb).tail, Some(a));
}

#[test]
fn a_copy_of_a_program_holds_the_same_functions() {
    let mut p = Program { functions: std::collections::HashMap::new() };
    p.functions.insert(SmolStr::new("h"), TacFunc::new(SmolStr::new("h"), Ty::I64));
    let q = p.clone();
    assert_eq!(q.functions.len(), 1);
    assert_eq!(q.functions.get("h").map(|f| f.ty), Some(Ty::I64));
}
