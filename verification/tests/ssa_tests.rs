use azuki_tac::builder::ssa::FuncBuilder;
use azuki_tac::builder::tables::{BlockSet, DefTable, Variable};
use azuki_tac::func::TacFunc;
use azuki_tac::handle::{BBId, InstId};
use azuki_tac::inst::{BinaryInst, BinaryOp, Branch, Inst, InstKind, Value};
use azuki_tac::ty::Ty;
use smol_str::SmolStr;

fn assign(v: i64) -> Inst {
    Inst { kind: InstKind::Assign(Value::Imm(v)), ty: Ty::I64 }
}

fn binary(op: BinaryOp, lhs: Value, rhs: Value) -> Inst {
    Inst { kind: InstKind::Binary(BinaryInst { op, lhs, rhs }), ty: Ty::I64 }
}

fn var(id: u32) -> Variable {
    Variable { id, ty: Ty::I64 }
}

fn fresh() -> (TacFunc, BBId) {
    let mut f = TacFunc::new(SmolStr::new("f"), Ty::I64);
    let bb = f.bb_new();
    f.bb_set_first(bb);
    (f, bb)
}

fn chain_of(f: &TacFunc, bb: BBId) -> Vec<InstId> {
    let mut out = Vec::new();
    let mut it = f.bb_get(bb).head;
    while let Some(i) = it {
        out.push(i);
        it = f.inst_next(i);
    }
    out
}

fn phi_operands(f: &TacFunc, phi: InstId) -> Vec<(BBId, InstId)> {
    match &f.inst_get(phi).kind {
        InstKind::Phi(ops) => (0..ops.len()).map(|k| ops.entry(k)).collect(),
        other => panic!("not a phi: {:?}", other),
    }
}

fn uses_anywhere(f: &TacFunc, inst: InstId) -> bool {
    let in_insts = f
        .all_inst_unordered()
        .iter()
        .any(|i| f.inst_get(i.0).kind.param_op_iter().contains(&inst));
    let in_jumps = f.all_bb_unordered().iter().any(|b| {
        f.bb_get(*b).jumps.iter().any(|j| match j {
            Branch::Return(Some(Value::Dest(i))) => *i == inst,
            Branch::CondJump { cond: Value::Dest(i), .. } => *i == inst,
            _ => false,
        })
    });
    in_insts || in_jumps
}

#[test]
fn def_table_holds_one_definition_per_variable_and_block() {
    let mut t = DefTable::new();
    let b1 = BBId::from_bits((1 << 32) | 1);
    let b2 = BBId::from_bits((1 << 32) | 2);
    let first = InstId::from_bits((1 << 32) | 1);
    let second = InstId::from_bits((1 << 32) | 2);
    assert_eq!(t.get(var(0), b1), None);
    t.set(var(0), b1, first);
    t.set(var(0), b2, second);
    t.set(var(1), b1, second);
    assert_eq!(t.get(var(0), b1), Some(first));
    assert_eq!(t.get(var(0), b2), Some(second));
    assert_eq!(t.get(var(1), b1), Some(second));
    assert_eq!(t.get(var(1), b2), None);
    assert_eq!(t.get(Variable { id: 0, ty: Ty::I32 }, b1), None);
    t.set(var(0), b1, second);
    assert_eq!(t.get(var(0), b1), Some(second));
    assert_eq!(t.entries.len(), 3);
    t.reroute(second, first);
    assert_eq!(t.get(var(0), b1), Some(first));
    assert_eq!(t.get(var(0), b2), Some(first));
    assert_eq!(t.get(var(1), b1), Some(first));
}

#[test]
fn block_set_membership() {
    let mut s = BlockSet::new();
    let b1 = BBId::from_bits((1 << 32) | 1);
    let b2 = BBId::from_bits((1 << 32) | 2);
    assert!(!s.contains(b1));
    assert!(s.insert(b1));
    assert!(!s.insert(b1));
    assert!(s.contains(b1));
    assert!(!s.contains(b2));
}

#[test]
fn local_definition_is_read_back() {
    let (mut f, entry) = fresh();
    let mut b = FuncBuilder::new(&mut f);
    let d = b.editor.insert_after_current_place(assign(1));
    b.write_variable(var(0), entry, d);
    let count = b.editor.func.inst_count();
    assert_eq!(b.read_variable(var(0), entry), d);
    assert_eq!(b.editor.func.inst_count(), count);
    let e = b.editor.insert_after_current_place(assign(2));
    b.write_variable(var(0), entry, e);
    assert_eq!(b.read_variable(var(0), entry), e);
}

#[test]
fn single_predecessor_is_looked_through() {
    let (mut f, entry) = fresh();
    let mut b = FuncBuilder::new(&mut f);
    let d = b.editor.insert_after_current_place(assign(1));
    b.write_variable(var(0), entry, d);
    let next = b.editor.new_bb();
    let last = b.editor.new_bb();
    b.editor.add_branch(Branch::Jump(next), entry).unwrap();
    b.editor.add_branch(Branch::Jump(last), next).unwrap();
    b.seal_block(entry);
    b.seal_block(next);
    b.seal_block(last);
    assert_eq!(b.read_variable(var(0), last), d);
    assert_eq!(b.defs.get(var(0), next), Some(d));
    assert_eq!(b.defs.get(var(0), last), Some(d));
    assert_eq!(b.editor.func.inst_count(), 1);
}

#[test]
fn join_of_two_definitions_gets_a_phi() {
    let (mut f, entry) = fresh();
    let mut b = FuncBuilder::new(&mut f);
    let c = b.editor.insert_after_current_place(assign(5));
    let then_bb = b.editor.new_bb();
    let else_bb = b.editor.new_bb();
    let join = b.editor.new_bb();
    b.editor.add_branch(Branch::CondJump { cond: Value::Dest(c), target: then_bb }, entry).unwrap();
    b.editor.add_branch(Branch::Jump(else_bb), entry).unwrap();
    b.seal_block(entry);
    b.seal_block(then_bb);
    b.seal_block(else_bb);
    let one = b.editor.insert_at_end_of(assign(1), then_bb).unwrap();
    b.write_variable(var(0), then_bb, one);
    b.editor.add_branch(Branch::Jump(join), then_bb).unwrap();
    let two = b.editor.insert_at_end_of(assign(2), else_bb).unwrap();
    b.write_variable(var(0), else_bb, two);
    b.editor.add_branch(Branch::Jump(join), else_bb).unwrap();
    b.seal_block(join);
    let phi = b.read_variable(var(0), join);
    assert_ne!(phi, one);
    assert_ne!(phi, two);
    let mut expected = vec![(then_bb, one), (else_bb, two)];
    expected.sort();
    assert_eq!(phi_operands(b.editor.func, phi), expected);
    assert_eq!(b.editor.func.inst_get(phi).ty, Ty::I64);
    assert_eq!(chain_of(b.editor.func, join), vec![phi]);
    assert_eq!(b.read_variable(var(0), join), phi);
    assert_eq!(b.editor.func.inst_count(), 4);
}

#[test]
fn trivial_phi_is_removed_on_seal() {
    let (mut f, entry) = fresh();
    let mut b = FuncBuilder::new(&mut f);
    let d = b.editor.insert_after_current_place(assign(1));
    b.write_variable(var(0), entry, d);
    let left = b.editor.new_bb();
    let right = b.editor.new_bb();
    let join = b.editor.new_bb();
    b.editor.add_branch(Branch::CondJump { cond: Value::Dest(d), target: left }, entry).unwrap();
    b.editor.add_branch(Branch::Jump(right), entry).unwrap();
    b.editor.add_branch(Branch::Jump(join), left).unwrap();
    b.editor.add_branch(Branch::Jump(join), right).unwrap();
    b.seal_block(entry);
    b.seal_block(left);
    b.seal_block(right);
    let phi = b.read_variable(var(0), join);
    assert_ne!(phi, d);
    assert!(matches!(b.editor.func.inst_get(phi).kind, InstKind::Phi(_)));
    assert!(phi_operands(b.editor.func, phi).is_empty());
    assert_eq!(b.pending.len(), 1);
    let user = b.editor.insert_at_end_of(binary(BinaryOp::Add, Value::Dest(phi), Value::Imm(1)), join).unwrap();
    b.editor.add_branch(Branch::Return(Some(Value::Dest(phi))), join).unwrap();
    b.seal_block(join);
    assert!(b.pending.is_empty());
    assert!(b.is_sealed(join));
    assert_eq!(b.read_variable(var(0), join), d);
    assert_eq!(b.editor.func.inst_get(phi).kind, InstKind::Dead);
    assert!(!uses_anywhere(b.editor.func, phi));
    assert_eq!(
        b.editor.func.inst_get(user).kind,
        InstKind::Binary(BinaryInst { op: BinaryOp::Add, lhs: Value::Dest(d), rhs: Value::Imm(1) })
    );
    assert_eq!(b.editor.func.bb_get(join).jumps, vec![Branch::Return(Some(Value::Dest(d)))]);
}

#[test]
fn trivial_phi_is_removed_when_read_in_a_sealed_block() {
    let (mut f, entry) = fresh();
    let mut b = FuncBuilder::new(&mut f);
    let d = b.editor.insert_after_current_place(assign(1));
    b.write_variable(var(0), entry, d);
    let left = b.editor.new_bb();
    let right = b.editor.new_bb();
    let join = b.editor.new_bb();
    b.editor.add_branch(Branch::CondJump { cond: Value::Dest(d), target: left }, entry).unwrap();
    b.editor.add_branch(Branch::Jump(right), entry).unwrap();
    b.editor.add_branch(Branch::Jump(join), left).unwrap();
    b.editor.add_branch(Branch::Jump(join), right).unwrap();
    b.seal_block(entry);
    b.seal_block(left);
    b.seal_block(right);
    b.seal_block(join);
    assert_eq!(b.read_variable(var(0), join), d);
    let in_join = chain_of(b.editor.func, join);
    assert_eq!(in_join.len(), 1);
    assert_eq!(b.editor.func.inst_get(in_join[0]).kind, InstKind::Dead);
    assert!(!uses_anywhere(b.editor.func, in_join[0]));
}

#[test]
fn loop_header_keeps_its_phi() {
    let (mut f, entry) = fresh();
    let mut b = FuncBuilder::new(&mut f);
    let i = var(0);
    let zero = b.editor.insert_after_current_place(assign(0));
    b.write_variable(i, entry, zero);
    let header = b.editor.new_bb();
    let body = b.editor.new_bb();
    let exit = b.editor.new_bb();
    b.editor.add_branch(Branch::Jump(header), entry).unwrap();
    b.seal_block(entry);
    b.mark_filled(entry);
    b.editor.set_current_bb(header).unwrap();
    let phi = b.read_variable(i, header);
    let cond = b.editor.insert_after_current_place(binary(BinaryOp::Lt, Value::Dest(phi), Value::Imm(10)));
    assert_eq!(chain_of(b.editor.func, header), vec![phi, cond]);
    b.mark_filled(header);
    b.editor.add_branch(Branch::CondJump { cond: Value::Dest(cond), target: body }, header).unwrap();
    b.editor.add_branch(Branch::Jump(exit), header).unwrap();
    b.seal_block(body);
    b.editor.set_current_bb(body).unwrap();
    let read = b.read_variable(i, body);
    assert_eq!(read, phi);
    let add = b.editor.insert_after_current_place(binary(BinaryOp::Add, Value::Dest(read), Value::Imm(1)));
    b.write_variable(i, body, add);
    b.editor.add_branch(Branch::Jump(header), body).unwrap();
    b.mark_filled(body);
    b.seal_block(header);
    b.seal_block(exit);
    b.editor.set_current_bb(exit).unwrap();
    let out = b.read_variable(i, exit);
    assert_eq!(out, phi);
    b.editor.add_branch(Branch::Return(Some(Value::Dest(out))), exit).unwrap();
    let mut expected = vec![(entry, zero), (body, add)];
    expected.sort();
    assert_eq!(phi_operands(b.editor.func, phi), expected);
    assert_eq!(
        b.editor.func.inst_get(cond).kind,
        InstKind::Binary(BinaryInst { op: BinaryOp::Lt, lhs: Value::Dest(phi), rhs: Value::Imm(10) })
    );
    assert_eq!(
        b.editor.func.inst_get(add).kind,
        InstKind::Binary(BinaryInst { op: BinaryOp::Add, lhs: Value::Dest(phi), rhs: Value::Imm(1) })
    );
    assert_eq!(b.editor.succ_of_bb(body).to_vec(), vec![header]);
    assert!(b.is_filled(header));
    assert!(!b.is_filled(exit));
}

#[test]
fn loop_that_does_not_write_gets_no_phi() {
    let (mut f, entry) = fresh();
    let mut b = FuncBuilder::new(&mut f);
    let x = var(0);
    let d = b.editor.insert_after_current_place(assign(7));
    b.write_variable(x, entry, d);
    let header = b.editor.new_bb();
    let body = b.editor.new_bb();
    let exit = b.editor.new_bb();
    b.editor.add_branch(Branch::Jump(header), entry).unwrap();
    b.seal_block(entry);
    let phi = b.read_variable(x, header);
    b.editor.add_branch(Branch::CondJump { cond: Value::Dest(phi), target: body }, header).unwrap();
    b.editor.add_branch(Branch::Jump(exit), header).unwrap();
    b.seal_block(body);
    assert_eq!(b.read_variable(x, body), phi);
    b.editor.add_branch(Branch::Jump(header), body).unwrap();
    b.seal_block(header);
    b.seal_block(exit);
    assert_eq!(b.read_variable(x, header), d);
    assert_eq!(b.read_variable(x, body), d);
    assert_eq!(b.read_variable(x, exit), d);
    assert_eq!(b.editor.func.inst_get(phi).kind, InstKind::Dead);
    assert!(!uses_anywhere(b.editor.func, phi));
    assert_eq!(
        b.editor.func.bb_get(header).jumps,
        vec![Branch::CondJump { cond: Value::Dest(d), target: body }, Branch::Jump(exit)]
    );
}

#[test]
fn removal_cascades_through_phis() {
    let (mut f, entry) = fresh();
    let mut b = FuncBuilder::new(&mut f);
    let x = var(0);
    let d = b.editor.insert_after_current_place(assign(7));
    b.write_variable(x, entry, d);
    let outer = b.editor.new_bb();
    let inner = b.editor.new_bb();
    let latch = b.editor.new_bb();
    let exit = b.editor.new_bb();
    b.editor.add_branch(Branch::Jump(outer), entry).unwrap();
    b.editor.add_branch(Branch::Jump(inner), outer).unwrap();
    b.editor.add_branch(Branch::CondJump { cond: Value::Imm(1), target: inner }, inner).unwrap();
    b.editor.add_branch(Branch::Jump(latch), inner).unwrap();
    b.editor.add_branch(Branch::CondJump { cond: Value::Imm(1), target: outer }, latch).unwrap();
    b.editor.add_branch(Branch::Jump(exit), latch).unwrap();
    b.seal_block(entry);
    b.seal_block(latch);
    b.seal_block(exit);
    let got = b.read_variable(x, exit);
    assert_ne!(got, d);
    b.seal_block(inner);
    b.seal_block(outer);
    assert_eq!(b.read_variable(x, exit), d);
    assert_eq!(b.read_variable(x, inner), d);
    assert_eq!(b.read_variable(x, outer), d);
    let f = &*b.editor.func;
    for (i, _) in f.all_inst_unordered() {
        assert!(!matches!(f.inst_get(i).kind, InstKind::Phi(_)));
        if f.inst_get(i).kind == InstKind::Dead {
            assert!(!uses_anywhere(f, i));
        }
    }
}

#[test]
fn undefined_variable_in_the_entry_reads_an_empty_phi() {
    let (mut f, entry) = fresh();
    let mut b = FuncBuilder::new(&mut f);
    b.seal_block(entry);
    let r = b.read_variable(var(3), entry);
    assert!(phi_operands(b.editor.func, r).is_empty());
    assert_eq!(b.read_variable(var(3), entry), r);
    assert_eq!(b.editor.current_idx(), Some(r));
}

#[test]
fn self_loop_with_one_predecessor_terminates() {
    let (mut f, entry) = fresh();
    let mut b = FuncBuilder::new(&mut f);
    b.editor.add_branch(Branch::Jump(entry), entry).unwrap();
    b.seal_block(entry);
    let r = b.read_variable(var(0), entry);
    assert_eq!(phi_operands(b.editor.func, r), vec![(entry, r)]);
    assert_eq!(b.read_variable(var(0), entry), r);
}

#[test]
fn phi_goes_before_the_instructions_and_the_cursor_stays() {
    let (mut f, entry) = fresh();
    let mut b = FuncBuilder::new(&mut f);
    let a = b.editor.insert_after_current_place(assign(1));
    assert_eq!(b.editor.current_idx(), Some(a));
    let phi = b.read_variable(var(0), entry);
    assert_eq!(chain_of(b.editor.func, entry), vec![phi, a]);
    assert_eq!(b.editor.current_idx(), Some(a));
    assert_eq!(b.editor.current_bb(), entry);
    let c = b.editor.insert_after_current_place(assign(2));
    assert_eq!(chain_of(b.editor.func, entry), vec![phi, a, c]);
}

#[test]
fn parameters_are_definitions_in_the_first_block() {
    let (mut f, entry) = fresh();
    let mut b = FuncBuilder::new(&mut f);
    let a = Variable { id: 0, ty: Ty::I64 };
    let bvar = Variable { id: 1, ty: Ty::I32 };
    let pa = b.declare_param(a, 0);
    let pb = b.declare_param(bvar, 1);
    assert_eq!(b.editor.func.inst_get(pa), &Inst { kind: InstKind::Param(0), ty: Ty::I64 });
    assert_eq!(b.editor.func.inst_get(pb), &Inst { kind: InstKind::Param(1), ty: Ty::I32 });
    assert_eq!(b.read_variable(a, entry), pa);
    assert_eq!(b.read_variable(bvar, entry), pb);
    assert_eq!(chain_of(b.editor.func, entry), vec![pb, pa]);
}

#[test]
fn sealing_twice_changes_nothing() {
    let (mut f, entry) = fresh();
    let mut b = FuncBuilder::new(&mut f);
    assert!(!b.is_sealed(entry));
    b.seal_block(entry);
    b.seal_block(entry);
    assert!(b.is_sealed(entry));
    assert_eq!(b.sealed.items.len(), 1);
    assert_eq!(b.editor.func.inst_count(), 0);
}
