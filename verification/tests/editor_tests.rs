use azuki_tac::builder::func_editor::{Edge, FuncEditor};
use azuki_tac::err::Error;
use azuki_tac::func::TacFunc;
use azuki_tac::handle::{BBId, InstId};
use azuki_tac::inst::{Branch, Inst, InstKind, Value};
use azuki_tac::ty::Ty;
use smol_str::SmolStr;

fn assign(v: i64) -> Inst {
    Inst { kind: InstKind::Assign(Value::Imm(v)), ty: Ty::I64 }
}

fn fresh() -> (TacFunc, BBId) {
    let mut f = TacFunc::new_untyped(SmolStr::new("f"));
    let bb = f.bb_new();
    f.bb_set_first(bb);
    (f, bb)
}

fn chain_of(f: &TacFunc, bb: BBId) -> Vec<InstId> {
    let mut out = Vec::new();
    let mut it = f.bb_get(bb).head;
    while let Some(i) = it {
        out.push(i);
        it = f.inst_next(i);
    }
    out
}

#[test]
fn editor_starts_at_the_head_of_the_first_block() {
    let (mut f, bb) = fresh();
    let a = f.inst_new(assign(1));
    f.inst_append_in_bb(a, bb);
    let b = f.inst_new(assign(2));
    f.inst_append_in_bb(b, bb);
    let e = FuncEditor::new(&mut f);
    assert_eq!(e.current_bb(), bb);
    assert_eq!(e.current_idx(), Some(a));
}

#[test]
fn editor_on_an_empty_block_has_no_instruction() {
    let (mut f, bb) = fresh();
    let e = FuncEditor::new(&mut f);
    assert_eq!(e.current_bb(), bb);
    assert_eq!(e.current_idx(), None);
}

#[test]
fn set_type_changes_the_function_type() {
    let (mut f, _) = fresh();
    let mut e = FuncEditor::new(&mut f);
    e.set_type(Ty::I32);
    assert_eq!(e.func.ty, Ty::I32);
}

#[test]
fn set_current_bb_twice_reports_unchanged() {
    let (mut f, first) = fresh();
    let mut e = FuncEditor::new(&mut f);
    let x = e.new_bb();
    let i = e.insert_at_end_of(assign(1), x).unwrap();
    assert_eq!(e.current_bb(), first);
    assert_eq!(e.set_current_bb(x), Ok(false));
    assert_eq!(e.current_bb(), x);
    assert_eq!(e.current_idx(), Some(i));
    assert_eq!(e.set_current_bb(x), Ok(true));
    assert_eq!(e.current_bb(), x);
    assert_eq!(e.current_idx(), Some(i));
}

#[test]
fn set_current_bb_start_twice_reports_unchanged() {
    let (mut f, _) = fresh();
    let mut e = FuncEditor::new(&mut f);
    let x = e.new_bb();
    let a = e.insert_at_end_of(assign(1), x).unwrap();
    let _b = e.insert_at_end_of(assign(2), x).unwrap();
    assert_eq!(e.set_current_bb_start(x), Ok(false));
    assert_eq!(e.current_idx(), Some(a));
    assert_eq!(e.set_current_bb_start(x), Ok(true));
    assert_eq!(e.set_current_bb(x), Ok(false));
}

#[test]
fn unknown_block_is_reported() {
    let (mut f, first) = fresh();
    let mut e = FuncEditor::new(&mut f);
    let ghost = BBId::from_bits((5 << 32) | 77);
    assert_eq!(e.set_current_bb(ghost), Err(Error::NoSuchBB(ghost)));
    assert_eq!(e.set_current_bb_start(ghost), Err(Error::NoSuchBB(ghost)));
    assert_eq!(e.set_current_bb(BBId::default()), Err(Error::NoSuchBB(BBId::default())));
    assert_eq!(e.insert_at_end_of(assign(1), ghost), Err(Error::NoSuchBB(ghost)));
    assert_eq!(e.insert_at_start_of(assign(1), ghost), Err(Error::NoSuchBB(ghost)));
    assert_eq!(e.insert_param(ghost, Ty::I64, 0), Err(Error::NoSuchBB(ghost)));
    assert_eq!(e.add_branch(Branch::Return(None), ghost), Err(Error::NoSuchBB(ghost)));
    assert_eq!(e.modify_branch(ghost, |v: &mut Vec<Branch>| v.clear()), Err(Error::NoSuchBB(ghost)));
    assert_eq!(e.current_bb(), first);
    assert_eq!(e.current_idx(), None);
    assert_eq!(e.func.inst_count(), 0);
}

#[test]
fn unknown_instruction_is_reported() {
    let (mut f, first) = fresh();
    let mut e = FuncEditor::new(&mut f);
    let ghost = InstId::from_bits((5 << 32) | 77);
    assert_eq!(e.set_position_at_instruction(ghost), Err(Error::NoSuchInst(ghost)));
    assert_eq!(e.current_bb(), first);
}

#[test]
fn set_position_at_instruction_moves_the_cursor() {
    let (mut f, first) = fresh();
    let mut e = FuncEditor::new(&mut f);
    let a = e.insert_after_current_place(assign(1));
    let b = e.insert_after_current_place(assign(2));
    assert_eq!(e.current_idx(), Some(b));
    assert_eq!(e.set_position_at_instruction(a), Ok(false));
    assert_eq!(e.current_idx(), Some(a));
    assert_eq!(e.current_bb(), first);
    assert_eq!(e.set_position_at_instruction(a), Ok(true));
    let c = e.insert_after_current_place(assign(3));
    assert_eq!(chain_of(e.func, first), vec![a, c, b]);
}

#[test]
fn insert_into_empty_block_sets_head_and_tail() {
    let (mut f, first) = fresh();
    let mut e = FuncEditor::new(&mut f);
    let a = e.insert_after_current_place(assign(1));
    assert_eq!(e.func.bb_get(first).head, Some(a));
    assert_eq!(e.func.bb_get(first).tail, Some(a));
    assert_eq!(e.current_idx(), Some(a));
    assert_eq!(e.func.tac_get(a).bb, first);
    let other = e.new_bb();
    e.set_current_bb(other).unwrap();
    let b = e.insert_before_current_place(assign(2));
    assert_eq!(e.func.bb_get(other).head, Some(b));
    assert_eq!(e.func.bb_get(other).tail, Some(b));
    assert_eq!(e.current_idx(), Some(b));
}

#[test]
fn insert_after_the_only_instruction_moves_the_tail() {
    let (mut f, first) = fresh();
    let mut e = FuncEditor::new(&mut f);
    let a = e.insert_after_current_place(assign(1));
    let b = e.insert_after_current_place(assign(2));
    assert_eq!(e.func.bb_get(first).head, Some(a));
    assert_eq!(e.func.bb_get(first).tail, Some(b));
    assert_eq!(chain_of(e.func, first), vec![a, b]);
}

#[test]
fn insert_before_the_only_instruction_moves_the_head() {
    let (mut f, first) = fresh();
    let mut e = FuncEditor::new(&mut f);
    let a = e.insert_after_current_place(assign(1));
    let b = e.insert_before_current_place(assign(2));
    assert_eq!(e.func.bb_get(first).head, Some(b));
    assert_eq!(e.func.bb_get(first).tail, Some(a));
    assert_eq!(chain_of(e.func, first), vec![b, a]);
    assert_eq!(e.current_idx(), Some(b));
}

#[test]
fn insert_at_end_keeps_a_cursor_that_is_elsewhere() {
    let (mut f, first) = fresh();
    let mut e = FuncEditor::new(&mut f);
    let a = e.insert_after_current_place(assign(1));
    let other = e.new_bb();
    let x = e.insert_at_end_of(assign(2), other).unwrap();
    assert_eq!(e.current_bb(), first);
    assert_eq!(e.current_idx(), Some(a));
    let y = e.insert_at_end_of(assign(3), other).unwrap();
    assert_eq!(chain_of(e.func, other), vec![x, y]);
}

#[test]
fn insert_at_end_moves_a_cursor_that_is_at_the_end() {
    let (mut f, first) = fresh();
    let mut e = FuncEditor::new(&mut f);
    let a = e.insert_after_current_place(assign(1));
    let b = e.insert_at_end_of(assign(2), first).unwrap();
    assert_eq!(e.current_idx(), Some(b));
    assert_eq!(chain_of(e.func, first), vec![a, b]);
    e.set_position_at_instruction(a).unwrap();
    let c = e.insert_at_end_of(assign(3), first).unwrap();
    assert_eq!(e.current_idx(), Some(a));
    assert_eq!(chain_of(e.func, first), vec![a, b, c]);
}

#[test]
fn insert_at_start_puts_the_instruction_first() {
    let (mut f, first) = fresh();
    let mut e = FuncEditor::new(&mut f);
    let a = e.insert_after_current_place(assign(1));
    let b = e.insert_after_current_place(assign(2));
    let c = e.insert_at_start_of(assign(3), first).unwrap();
    assert_eq!(chain_of(e.func, first), vec![c, a, b]);
    assert_eq!(e.current_idx(), Some(b));
    e.set_current_bb_start(first).unwrap();
    let d = e.insert_at_start_of(assign(4), first).unwrap();
    assert_eq!(e.current_idx(), Some(d));
    assert_eq!(chain_of(e.func, first), vec![d, c, a, b]);
}

#[test]
fn insert_param_stores_a_parameter_at_the_start() {
    let (mut f, first) = fresh();
    let mut e = FuncEditor::new(&mut f);
    let a = e.insert_after_current_place(assign(1));
    let p = e.insert_param(first, Ty::I32, 2).unwrap();
    assert_eq!(chain_of(e.func, first), vec![p, a]);
    assert_eq!(e.func.inst_get(p), &Inst { kind: InstKind::Param(2), ty: Ty::I32 });
}

#[test]
fn branches_make_the_edges() {
    let (mut f, first) = fresh();
    let mut e = FuncEditor::new(&mut f);
    let a = e.new_bb();
    let b = e.new_bb();
    assert_eq!(e.add_branch(Branch::CondJump { cond: Value::Imm(1), target: a }, first), Ok(()));
    assert_eq!(e.add_branch(Branch::Jump(b), first), Ok(()));
    assert_eq!(e.add_branch(Branch::Jump(b), a), Ok(()));
    assert_eq!(e.add_branch(Branch::Return(None), b), Ok(()));
    assert_eq!(e.succ_of_bb(first).to_vec(), vec![a, b]);
    assert_eq!(e.succ_of_bb(a).to_vec(), vec![b]);
    assert_eq!(e.succ_of_bb(b).to_vec(), Vec::<BBId>::new());
    assert_eq!(e.pred_of_bb(first).to_vec(), Vec::<BBId>::new());
    assert_eq!(e.pred_of_bb(a).to_vec(), vec![first]);
    let mut preds = e.pred_of_bb(b).to_vec();
    preds.sort();
    let mut expected = vec![first, a];
    expected.sort();
    assert_eq!(preds, expected);
    assert_eq!(
        e.succ_edge_of_bb(first),
        vec![Edge { source: first, branch: 0, target: a }, Edge { source: first, branch: 1, target: b }]
    );
    assert_eq!(e.pred_edge_of_bb(a), vec![Edge { source: first, branch: 0, target: a }]);
    let edges = e.pred_edge_of_bb(b);
    assert_eq!(edges.len(), 2);
    assert!(edges.contains(&Edge { source: first, branch: 1, target: b }));
    assert!(edges.contains(&Edge { source: a, branch: 0, target: b }));
}

#[test]
fn parallel_branches_count_twice() {
    let (mut f, first) = fresh();
    let mut e = FuncEditor::new(&mut f);
    let a = e.new_bb();
    e.add_branch(Branch::CondJump { cond: Value::Imm(1), target: a }, first).unwrap();
    e.add_branch(Branch::Jump(a), first).unwrap();
    assert_eq!(e.succ_of_bb(first).to_vec(), vec![a, a]);
    assert_eq!(e.pred_of_bb(a).to_vec(), vec![first, first]);
    assert_eq!(e.pred_edge_of_bb(a).len(), 2);
}

#[test]
fn edges_of_an_unknown_block_are_none() {
    let (mut f, _) = fresh();
    let e = FuncEditor::new(&mut f);
    let ghost = BBId::from_bits((9 << 32) | 9);
    assert!(e.succ_of_bb(ghost).to_vec().is_empty());
    assert!(e.pred_of_bb(ghost).to_vec().is_empty());
    assert!(e.succ_edge_of_bb(ghost).is_empty());
    assert!(e.pred_edge_of_bb(ghost).is_empty());
}

#[test]
fn modify_branch_that_removes_all_clears_the_edges() {
    let (mut f, first) = fresh();
    let mut e = FuncEditor::new(&mut f);
    let a = e.new_bb();
    let b = e.new_bb();
    e.add_branch(Branch::CondJump { cond: Value::Imm(1), target: a }, first).unwrap();
    e.add_branch(Branch::Jump(b), first).unwrap();
    assert_eq!(e.modify_branch(first, |v: &mut Vec<Branch>| v.clear()), Ok(()));
    assert!(e.func.bb_get(first).jumps.is_empty());
    assert!(e.succ_of_bb(first).to_vec().is_empty());
    assert!(e.succ_edge_of_bb(first).is_empty());
    assert!(e.pred_of_bb(a).to_vec().is_empty());
    assert!(e.pred_of_bb(b).to_vec().is_empty());
    assert!(e.pred_edge_of_bb(a).is_empty());
}

#[test]
fn modify_branch_recomputes_the_edges() {
    let (mut f, first) = fresh();
    let mut e = FuncEditor::new(&mut f);
    let a = e.new_bb();
    let b = e.new_bb();
    e.add_branch(Branch::Jump(a), first).unwrap();
    e.modify_branch(first, |v: &mut Vec<Branch>| {
        v.clear();
        v.push(Branch::Jump(b));
    })
    .unwrap();
    assert_eq!(e.succ_of_bb(first).to_vec(), vec![b]);
    assert!(e.pred_of_bb(a).to_vec().is_empty());
    assert_eq!(e.pred_of_bb(b).to_vec(), vec![first]);
}

#[test]
fn new_block_of_the_editor_is_freestanding() {
    let (mut f, first) = fresh();
    let mut e = FuncEditor::new(&mut f);
    let a = e.new_bb();
    let b = e.func.bb_get(a);
    assert_eq!(b.head, None);
    assert_eq!(b.tail, None);
    assert_eq!(b.prev, None);
    assert_eq!(b.next, None);
    assert!(b.jumps.is_empty());
    assert_eq!(e.current_bb(), first);
    assert_eq!(e.func.bb_iter(), vec![first]);
}
