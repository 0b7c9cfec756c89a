use azuki_tac::err::Error;
use azuki_tac::func::TacFunc;
use azuki_tac::handle::{BBId, InstId};
use azuki_tac::inst::{BinaryInst, BinaryOp, Branch, FunctionCall, Inst, InstKind, Tac, Value};
use azuki_tac::phi::PhiOperands;
use azuki_tac::ty::Ty;
use smol_str::SmolStr;

fn assign(v: i64) -> Inst {
    Inst { kind: InstKind::Assign(Value::Imm(v)), ty: Ty::I64 }
}

fn chain_of(f: &TacFunc, bb: BBId) -> Vec<InstId> {
    let mut out = Vec::new();
    let mut it = f.bb_get(bb).head;
    while let Some(i) = it {
        out.push(i);
        it = f.inst_next(i);
    }
    out
}

fn chain_backwards(f: &TacFunc, bb: BBId) -> Vec<InstId> {
    let mut out = Vec::new();
    let mut it = f.bb_get(bb).tail;
    while let Some(i) = it {
        out.push(i);
        it = f.inst_prev(i);
    }
    out.reverse();
    out
}

fn block_with(f: &mut TacFunc, n: i64) -> (BBId, Vec<InstId>) {
    let bb = f.bb_new();
    let mut ids = Vec::new();
    for k in 0..n {
        let i = f.inst_new(assign(k));
        f.inst_append_in_bb(i, bb);
        ids.push(i);
    }
    (bb, ids)
}

#[test]
fn handles_pack_slot_and_generation() {
    let h = InstId::from_bits((7u64 << 32) | 5);
    assert_eq!(h.slot(), 5);
    assert_eq!(h.generation(), 7);
    assert_eq!(h.to_bits(), (7u64 << 32) | 5);
    let b = BBId::from_bits(u64::MAX);
    assert_eq!(b.slot(), u32::MAX);
    assert_eq!(b.generation(), u32::MAX);
    assert_eq!(InstId::default().to_bits(), 0);
    assert_eq!(BBId::default().generation(), 0);
}

#[test]
fn null_handles_name_nothing() {
    let mut f = TacFunc::new_untyped(SmolStr::new("f"));
    let bb = f.bb_new();
    let i = f.inst_new(assign(1));
    assert!(!f.inst_exists(InstId::default()));
    assert!(!f.bb_exists(BBId::default()));
    assert!(f.inst_exists(i));
    assert!(f.bb_exists(bb));
    assert_ne!(i.generation(), 0);
    assert_ne!(bb.generation(), 0);
}

#[test]
fn new_function_is_empty() {
    let f = TacFunc::new(SmolStr::new("main"), Ty::I64);
    assert_eq!(f.name.as_str(), "main");
    assert_eq!(f.ty, Ty::I64);
    assert_eq!(f.starting_block(), None);
    assert_eq!(f.inst_count(), 0);
    assert_eq!(f.bb_count(), 0);
    assert!(f.all_inst_unordered().is_empty());
    assert!(f.all_bb_unordered().is_empty());
    assert!(f.bb_iter().is_empty());
    let g = TacFunc::new_untyped(SmolStr::new("g"));
    assert_eq!(g.ty, Ty::Unit);
}

#[test]
fn value_accessors() {
    let i = InstId::from_bits(1 << 32);
    assert_eq!(Value::Imm(42).get_imm(), Some(42));
    assert_eq!(Value::Imm(42).get_inst(), None);
    assert_eq!(Value::Dest(i).get_imm(), None);
    assert_eq!(Value::Dest(i).get_inst(), Some(i));
    assert_eq!(Value::from(i), Value::Dest(i));
    let j = InstId::from_bits(2 << 32);
    assert_eq!(Value::Dest(i).rename(i, j), Value::Dest(j));
    assert_eq!(Value::Dest(j).rename(i, j), Value::Dest(j));
    assert_eq!(Value::Imm(3).rename(i, j), Value::Imm(3));
}

#[test]
fn branch_targets() {
    let b = BBId::from_bits(1 << 32);
    assert_eq!(Branch::Return(None).target_iter(), None);
    assert_eq!(Branch::Return(Some(Value::Imm(1))).target_iter(), None);
    assert_eq!(Branch::Jump(b).target_iter(), Some(b));
    assert_eq!(Branch::CondJump { cond: Value::Imm(1), target: b }.target_iter(), Some(b));
}

#[test]
fn operands_of_each_kind() {
    let a = InstId::from_bits((1 << 32) | 1);
    let b = InstId::from_bits((1 << 32) | 2);
    let bin = InstKind::Binary(BinaryInst { op: BinaryOp::Add, lhs: Value::Dest(a), rhs: Value::Imm(2) });
    assert_eq!(bin.params_iter(), vec![Value::Dest(a), Value::Imm(2)]);
    assert_eq!(bin.param_op_iter(), vec![a]);
    let call = InstKind::FunctionCall(FunctionCall {
        name: SmolStr::new("callee"),
        params: vec![Value::Imm(1), Value::Dest(b), Value::Dest(a)],
    });
    assert_eq!(call.params_iter(), vec![Value::Imm(1), Value::Dest(b), Value::Dest(a)]);
    assert_eq!(call.param_op_iter(), vec![b, a]);
    assert_eq!(InstKind::Assign(Value::Dest(b)).params_iter(), vec![Value::Dest(b)]);
    assert_eq!(InstKind::Assign(Value::Imm(9)).param_op_iter(), Vec::<InstId>::new());
    assert!(InstKind::Param(0).params_iter().is_empty());
    assert!(InstKind::Dead.params_iter().is_empty());
    let mut phi = PhiOperands::new();
    phi.insert(BBId::from_bits((1 << 32) | 9), a);
    phi.insert(BBId::from_bits((1 << 32) | 3), b);
    let phi = InstKind::Phi(phi);
    assert_eq!(phi.params_iter(), vec![Value::Dest(b), Value::Dest(a)]);
    assert_eq!(phi.param_op_iter(), vec![b, a]);
}

#[test]
fn phi_operands_are_a_mapping_in_key_order() {
    let k1 = BBId::from_bits((1 << 32) | 1);
    let k2 = BBId::from_bits((1 << 32) | 2);
    let k3 = BBId::from_bits((1 << 32) | 3);
    let a = InstId::from_bits((1 << 32) | 10);
    let b = InstId::from_bits((1 << 32) | 11);
    let mut phi = PhiOperands::new();
    assert_eq!(phi.len(), 0);
    assert_eq!(phi.get(k1), None);
    assert_eq!(phi.insert(k2, a), None);
    assert_eq!(phi.insert(k3, a), None);
    assert_eq!(phi.insert(k1, b), None);
    assert_eq!(phi.len(), 3);
    assert_eq!(phi.entry(0), (k1, b));
    assert_eq!(phi.entry(1), (k2, a));
    assert_eq!(phi.entry(2), (k3, a));
    assert_eq!(phi.insert(k2, b), Some(a));
    assert_eq!(phi.len(), 3);
    assert_eq!(phi.get(k2), Some(b));
    assert_eq!(phi.get(k3), Some(a));
    let copy = phi.clone();
    assert_eq!(copy, phi);
}

#[test]
fn tac_constructors() {
    let i = InstId::from_bits(1 << 32);
    let b = BBId::from_bits(1 << 32);
    let t = Tac::new(assign(1), Some(i), None, b);
    assert_eq!(t.prev, Some(i));
    assert_eq!(t.next, None);
    assert_eq!(t.bb, b);
    assert!(!t.is_freestanding());
    let t = Tac::independent(assign(1), BBId::default());
    assert!(t.is_freestanding());
    let t = Tac::independent(assign(1), b);
    assert!(!t.is_freestanding());
}

#[test]
fn new_instruction_is_freestanding() {
    let mut f = TacFunc::new_untyped(SmolStr::new("f"));
    let i = f.inst_new(assign(5));
    assert!(f.tac_get(i).is_freestanding());
    assert_eq!(f.inst_get(i), &assign(5));
    assert_eq!(f.inst_next(i), None);
    assert_eq!(f.inst_prev(i), None);
    assert_eq!(f.inst_count(), 1);
    assert_eq!(f.all_inst_unordered(), vec![(i, BBId::from_bits(0))]);
}

#[test]
fn append_into_empty_block_sets_both_ends() {
    let mut f = TacFunc::new_untyped(SmolStr::new("f"));
    let bb = f.bb_new();
    assert_eq!(f.bb_get(bb).head, None);
    assert_eq!(f.bb_get(bb).tail, None);
    let i = f.inst_new(assign(1));
    f.inst_append_in_bb(i, bb);
    assert_eq!(f.bb_get(bb).head, Some(i));
    assert_eq!(f.bb_get(bb).tail, Some(i));
    assert_eq!(f.tac_get(i).bb, bb);
    assert_eq!(f.inst_prev(i), None);
    assert_eq!(f.inst_next(i), None);
    assert_eq!(f.all_inst_unordered(), vec![(i, bb)]);
}

#[test]
fn prepend_into_empty_block_sets_both_ends() {
    let mut f = TacFunc::new_untyped(SmolStr::new("f"));
    let bb = f.bb_new();
    let i = f.inst_new(assign(1));
    f.inst_prepend_in_bb(i, bb);
    assert_eq!(f.bb_get(bb).head, Some(i));
    assert_eq!(f.bb_get(bb).tail, Some(i));
    assert_eq!(f.tac_get(i).bb, bb);
}

#[test]
fn append_and_prepend_keep_order() {
    let mut f = TacFunc::new_untyped(SmolStr::new("f"));
    let (bb, ids) = block_with(&mut f, 3);
    let first = f.inst_new(assign(10));
    f.inst_prepend_in_bb(first, bb);
    let last = f.inst_new(assign(11));
    f.inst_append_in_bb(last, bb);
    let expected = vec![first, ids[0], ids[1], ids[2], last];
    assert_eq!(chain_of(&f, bb), expected);
    assert_eq!(chain_backwards(&f, bb), expected);
    for i in expected {
        assert_eq!(f.tac_get(i).bb, bb);
    }
}

#[test]
fn set_after_single_instruction_moves_tail() {
    let mut f = TacFunc::new_untyped(SmolStr::new("f"));
    let (bb, ids) = block_with(&mut f, 1);
    let x = f.inst_new(assign(7));
    f.inst_set_after(ids[0], x);
    assert_eq!(f.bb_get(bb).head, Some(ids[0]));
    assert_eq!(f.bb_get(bb).tail, Some(x));
    assert_eq!(chain_of(&f, bb), vec![ids[0], x]);
    assert_eq!(chain_backwards(&f, bb), vec![ids[0], x]);
}

#[test]
fn set_before_single_instruction_moves_head() {
    let mut f = TacFunc::new_untyped(SmolStr::new("f"));
    let (bb, ids) = block_with(&mut f, 1);
    let x = f.inst_new(assign(7));
    f.inst_set_before(ids[0], x);
    assert_eq!(f.bb_get(bb).head, Some(x));
    assert_eq!(f.bb_get(bb).tail, Some(ids[0]));
    assert_eq!(chain_of(&f, bb), vec![x, ids[0]]);
    assert_eq!(chain_backwards(&f, bb), vec![x, ids[0]]);
}

#[test]
fn set_in_the_middle_keeps_the_ends() {
    let mut f = TacFunc::new_untyped(SmolStr::new("f"));
    let (bb, ids) = block_with(&mut f, 3);
    let x = f.inst_new(assign(7));
    f.inst_set_after(ids[0], x);
    let y = f.inst_new(assign(8));
    f.inst_set_before(ids[2], y);
    assert_eq!(f.bb_get(bb).head, Some(ids[0]));
    assert_eq!(f.bb_get(bb).tail, Some(ids[2]));
    assert_eq!(chain_of(&f, bb), vec![ids[0], x, ids[1], y, ids[2]]);
    assert_eq!(chain_backwards(&f, bb), vec![ids[0], x, ids[1], y, ids[2]]);
}

#[test]
fn attach_before_then_detach_restores_the_chain() {
    let mut f = TacFunc::new_untyped(SmolStr::new("f"));
    let (bb, ids) = block_with(&mut f, 3);
    let y = f.inst_new(assign(9));
    let before: Vec<Tac> = ids.iter().map(|i| f.tac_get(*i).clone()).collect();
    f.inst_set_before(ids[1], y);
    assert_eq!(chain_of(&f, bb), vec![ids[0], y, ids[1], ids[2]]);
    f.inst_detach(y);
    assert_eq!(chain_of(&f, bb), ids);
    let after: Vec<Tac> = ids.iter().map(|i| f.tac_get(*i).clone()).collect();
    assert_eq!(before, after);
    assert!(f.tac_get(y).is_freestanding());
}

#[test]
fn detach_at_the_ends_moves_the_ends() {
    let mut f = TacFunc::new_untyped(SmolStr::new("f"));
    let (bb, ids) = block_with(&mut f, 3);
    f.inst_detach(ids[0]);
    assert_eq!(f.bb_get(bb).head, Some(ids[1]));
    assert_eq!(chain_of(&f, bb), vec![ids[1], ids[2]]);
    f.inst_detach(ids[2]);
    assert_eq!(f.bb_get(bb).tail, Some(ids[1]));
    assert_eq!(chain_of(&f, bb), vec![ids[1]]);
    f.inst_detach(ids[1]);
    assert_eq!(f.bb_get(bb).head, None);
    assert_eq!(f.bb_get(bb).tail, None);
    for i in ids {
        assert!(f.tac_get(i).is_freestanding());
    }
}

#[test]
fn detach_of_freestanding_changes_nothing() {
    let mut f = TacFunc::new_untyped(SmolStr::new("f"));
    let (bb, ids) = block_with(&mut f, 2);
    let x = f.inst_new(assign(3));
    f.inst_detach(x);
    assert!(f.tac_get(x).is_freestanding());
    assert_eq!(chain_of(&f, bb), ids);
}

#[test]
fn remove_gives_the_instruction_back() {
    let mut f = TacFunc::new_untyped(SmolStr::new("f"));
    let (bb, ids) = block_with(&mut f, 2);
    f.inst_detach(ids[0]);
    let inst = f.inst_remove(ids[0]);
    assert_eq!(inst, assign(0));
    assert!(!f.inst_exists(ids[0]));
    assert!(f.inst_exists(ids[1]));
    assert_eq!(f.inst_count(), 1);
    assert_eq!(chain_of(&f, bb), vec![ids[1]]);
}

#[test]
fn stale_handle_is_detected_after_slot_reuse() {
    let mut f = TacFunc::new_untyped(SmolStr::new("f"));
    let a = f.inst_new(assign(1));
    f.inst_remove(a);
    let b = f.inst_new(assign(2));
    assert_eq!(a.slot(), b.slot());
    assert_ne!(a, b);
    assert!(!f.inst_exists(a));
    assert!(f.inst_exists(b));
    assert_eq!(f.inst_get(b), &assign(2));
}

#[test]
fn instruction_body_can_be_rewritten_in_place() {
    let mut f = TacFunc::new_untyped(SmolStr::new("f"));
    let (bb, ids) = block_with(&mut f, 2);
    *f.inst_get_mut(ids[0]) = Inst { kind: InstKind::Dead, ty: Ty::Unit };
    assert_eq!(f.inst_get(ids[0]).kind, InstKind::Dead);
    assert_eq!(chain_of(&f, bb), ids);
    f.tac_get_mut(ids[1]).inst.ty = Ty::I32;
    assert_eq!(f.inst_get(ids[1]).ty, Ty::I32);
}

#[test]
fn inst_connect_links_two_records() {
    let mut f = TacFunc::new_untyped(SmolStr::new("f"));
    let a = f.inst_new(assign(1));
    let b = f.inst_new(assign(2));
    f.inst_connect(a, b);
    assert_eq!(f.inst_next(a), Some(b));
    assert_eq!(f.inst_prev(b), Some(a));
    assert_eq!(f.inst_prev(a), None);
    assert_eq!(f.inst_next(b), None);
}

#[test]
fn new_block_is_blank() {
    let mut f = TacFunc::new_untyped(SmolStr::new("f"));
    let bb = f.bb_new();
    let b = f.bb_get(bb);
    assert_eq!(b.head, None);
    assert_eq!(b.tail, None);
    assert_eq!(b.prev, None);
    assert_eq!(b.next, None);
    assert!(b.jumps.is_empty());
    assert_eq!(f.bb_count(), 1);
    assert_eq!(f.all_bb_unordered(), vec![bb]);
}

#[test]
fn first_block_can_be_set_and_replaced() {
    let mut f = TacFunc::new_untyped(SmolStr::new("f"));
    let a = f.bb_new();
    let b = f.bb_new();
    assert_eq!(f.bb_set_first(a), None);
    assert_eq!(f.starting_block(), Some(a));
    assert_eq!(f.bb_set_first(b), Some(a));
    assert_eq!(f.starting_block(), Some(b));
}

#[test]
fn blocks_are_walked_in_order() {
    let mut f = TacFunc::new_untyped(SmolStr::new("f"));
    let a = f.bb_new();
    let b = f.bb_new();
    let c = f.bb_new();
    let d = f.bb_new();
    f.bb_set_first(a);
    f.bb_set_after(a, c);
    f.bb_set_before(c, b);
    f.bb_set_after(c, d);
    assert_eq!(f.bb_iter(), vec![a, b, c, d]);
    assert_eq!(f.bb_get(b).prev, Some(a));
    assert_eq!(f.bb_get(b).next, Some(c));
    f.bb_detach(c);
    assert_eq!(f.bb_iter(), vec![a, b, d]);
    assert_eq!(f.bb_get(c).prev, None);
    assert_eq!(f.bb_get(c).next, None);
    assert_eq!(f.bb_get(d).prev, Some(b));
    f.bb_detach(a);
    assert_eq!(f.bb_iter(), vec![a]);
    f.bb_set_first(b);
    assert_eq!(f.bb_iter(), vec![b, d]);
}

#[test]
fn block_walk_stops_on_a_ring() {
    let mut f = TacFunc::new_untyped(SmolStr::new("f"));
    let a = f.bb_new();
    let b = f.bb_new();
    f.bb_set_first(a);
    f.bb_set_after(a, b);
    f.bb_get_mut(b).next = Some(a);
    assert_eq!(f.bb_iter(), vec![a, b]);
}

#[test]
fn two_blocks_can_be_borrowed_at_once() {
    let mut f = TacFunc::new_untyped(SmolStr::new("f"));
    let a = f.bb_new();
    let b = f.bb_new();
    let (x, y) = f.bb_get2_mut(a, b);
    x.jumps.push(Branch::Jump(b));
    y.jumps.push(Branch::Return(None));
    assert_eq!(f.bb_get(a).jumps, vec![Branch::Jump(b)]);
    assert_eq!(f.bb_get(b).jumps, vec![Branch::Return(None)]);
    f.bb_jumps_mut(a).clear();
    assert!(f.bb_get(a).jumps.is_empty());
}

#[test]
fn split_and_connect_round_trip() {
    let mut f = TacFunc::new_untyped(SmolStr::new("f"));
    let (front, ids) = block_with(&mut f, 5);
    let t1 = f.bb_new();
    let t2 = f.bb_new();
    let jumps = vec![Branch::CondJump { cond: Value::Dest(ids[4]), target: t1 }, Branch::Jump(t2)];
    f.bb_get_mut(front).jumps = jumps.clone();

    let new_bb = f.bb_split_after(ids[2], true);
    assert_ne!(new_bb, front);
    assert_eq!(chain_of(&f, front), vec![ids[0], ids[1], ids[2]]);
    assert_eq!(chain_backwards(&f, front), vec![ids[0], ids[1], ids[2]]);
    assert_eq!(chain_of(&f, new_bb), vec![ids[3], ids[4]]);
    assert_eq!(chain_backwards(&f, new_bb), vec![ids[3], ids[4]]);
    assert!(f.bb_get(front).jumps.is_empty());
    assert_eq!(f.bb_get(new_bb).jumps, jumps);
    assert_eq!(f.tac_get(ids[2]).bb, front);
    assert_eq!(f.tac_get(ids[3]).bb, new_bb);
    assert_eq!(f.tac_get(ids[4]).bb, new_bb);

    let dropped = f.bb_connect(front, new_bb);
    assert!(dropped.is_empty());
    assert_eq!(chain_of(&f, front), ids);
    assert_eq!(chain_backwards(&f, front), ids);
    assert_eq!(f.bb_get(front).jumps, jumps);
    for i in &ids {
        assert_eq!(f.tac_get(*i).bb, front);
    }
    let b = f.bb_get(new_bb);
    assert_eq!(b.head, None);
    assert_eq!(b.tail, None);
    assert_eq!(b.prev, None);
    assert_eq!(b.next, None);
    assert!(b.jumps.is_empty());
}

#[test]
fn split_without_transfer_keeps_the_branches() {
    let mut f = TacFunc::new_untyped(SmolStr::new("f"));
    let (front, ids) = block_with(&mut f, 2);
    f.bb_get_mut(front).jumps = vec![Branch::Return(None)];
    let new_bb = f.bb_split_after(ids[0], false);
    assert_eq!(f.bb_get(front).jumps, vec![Branch::Return(None)]);
    assert!(f.bb_get(new_bb).jumps.is_empty());
    assert_eq!(chain_of(&f, front), vec![ids[0]]);
    assert_eq!(chain_of(&f, new_bb), vec![ids[1]]);
}

#[test]
fn split_after_the_last_instruction_gives_an_empty_block() {
    let mut f = TacFunc::new_untyped(SmolStr::new("f"));
    let (front, ids) = block_with(&mut f, 2);
    let new_bb = f.bb_split_after(ids[1], true);
    assert_eq!(chain_of(&f, front), ids);
    assert_eq!(f.bb_get(front).tail, Some(ids[1]));
    assert_eq!(f.bb_get(new_bb).head, None);
    assert_eq!(f.bb_get(new_bb).tail, None);
}

#[test]
fn connect_returns_the_branches_of_the_front() {
    let mut f = TacFunc::new_untyped(SmolStr::new("f"));
    let (front, a) = block_with(&mut f, 2);
    let (back, b) = block_with(&mut f, 2);
    f.bb_get_mut(front).jumps = vec![Branch::Jump(back)];
    f.bb_get_mut(back).jumps = vec![Branch::Return(Some(Value::Imm(0)))];
    let old = f.bb_connect(front, back);
    assert_eq!(old, vec![Branch::Jump(back)]);
    assert_eq!(f.bb_get(front).jumps, vec![Branch::Return(Some(Value::Imm(0)))]);
    assert_eq!(chain_of(&f, front), vec![a[0], a[1], b[0], b[1]]);
    assert_eq!(chain_backwards(&f, front), vec![a[0], a[1], b[0], b[1]]);
    assert_eq!(chain_of(&f, back), Vec::<InstId>::new());
}

#[test]
fn connect_with_an_empty_side() {
    let mut f = TacFunc::new_untyped(SmolStr::new("f"));
    let empty = f.bb_new();
    let (back, b) = block_with(&mut f, 2);
    f.bb_connect(empty, back);
    assert_eq!(chain_of(&f, empty), b);
    assert_eq!(f.bb_get(empty).tail, Some(b[1]));
    assert_eq!(f.tac_get(b[0]).bb, empty);
    let other = f.bb_new();
    f.bb_connect(empty, other);
    assert_eq!(chain_of(&f, empty), b);
    assert_eq!(f.bb_get(other).head, None);
}

#[test]
fn error_values_compare() {
    let b = BBId::from_bits(1 << 32);
    assert_eq!(Error::NoSuchBB(b), Error::NoSuchBB(b));
    assert_ne!(Error::NoSuchBB(b), Error::NoSuchInst(InstId::from_bits(1 << 32)));
    assert_ne!(
        Error::TypeMismatch { expected: Ty::I64, found: Ty::Unit },
        Error::TypeMismatch { expected: Ty::Unit, found: Ty::I64 }
    );
}
