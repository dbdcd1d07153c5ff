use decaf_backend::common_expr::{mem_kill, work, TacRhs, WorkCtx};
use decaf_backend::ir::{BinOp, CallHint, CallKind, FuncBB, Intrinsic, MemHint, Operand, TacKind, UnOp, BB};

fn add(dst: u32, a: u32, b: u32) -> TacKind {
    TacKind::Bin { op: BinOp::Add, dst, lr: [Operand::Reg(a), Operand::Reg(b)] }
}

fn load(dst: u32, base: u32, hint: MemHint) -> TacKind {
    load_at(dst, base, 4, hint)
}

fn load_at(dst: u32, base: u32, off: i32, hint: MemHint) -> TacKind {
    TacKind::Load { dst, base: [Operand::Reg(base)], off, hint }
}

fn store(hint: MemHint) -> TacKind {
    TacKind::Store { src_base: [Operand::Reg(9), Operand::Reg(0)], off: 4, hint }
}

fn is_add(k: &TacKind, d: u32, a: u32, b: u32) -> bool {
    matches!(k, TacKind::Bin { op: BinOp::Add, dst, lr: [Operand::Reg(x), Operand::Reg(y)] } if *dst == d && *x == a && *y == b)
}

fn is_copy(k: &TacKind, d: u32, s: u32) -> bool {
    matches!(k, TacKind::Assign { dst, src: [Operand::Reg(x)] } if *dst == d && *x == s)
}

fn block(tacs: Vec<TacKind>, prev: Vec<u32>) -> BB {
    BB { tacs, prev }
}

#[test]
fn repeated_expression_in_one_block_is_computed_once() {
    let mut f = FuncBB { bb: vec![block(vec![add(2, 0, 1), add(3, 0, 1)], vec![])], max_reg: 4 };
    work(&mut f);
    assert_eq!(f.max_reg, 5);
    let t = &f.bb[0].tacs;
    assert_eq!(t.len(), 3);
    assert!(is_add(&t[0], 4, 0, 1));
    assert!(is_copy(&t[1], 2, 4));
    assert!(is_copy(&t[2], 3, 4));
}

#[test]
fn writing_an_operand_of_its_own_expression_generates_nothing() {
    // r0 = r0 + r1 makes r0 + r1 stale at once
    let mut f = FuncBB { bb: vec![block(vec![add(0, 0, 1), add(2, 0, 1)], vec![])], max_reg: 3 };
    work(&mut f);
    assert_eq!(f.max_reg, 3);
    let t = &f.bb[0].tacs;
    assert_eq!(t.len(), 2);
    assert!(is_add(&t[0], 0, 0, 1));
    assert!(is_add(&t[1], 2, 0, 1));
}

#[test]
fn writing_an_operand_between_kills_the_expression() {
    let assign = TacKind::Assign { dst: 1, src: [Operand::Const(3)] };
    let mut f = FuncBB { bb: vec![block(vec![add(2, 0, 1), assign, add(3, 0, 1)], vec![])], max_reg: 4 };
    work(&mut f);
    assert_eq!(f.max_reg, 4);
    assert!(is_add(&f.bb[0].tacs[2], 3, 0, 1));
}

#[test]
fn expression_from_a_predecessor_block_is_reused() {
    let mut f = FuncBB {
        bb: vec![block(vec![add(2, 0, 1)], vec![]), block(vec![add(3, 0, 1)], vec![0])],
        max_reg: 4,
    };
    work(&mut f);
    assert_eq!(f.max_reg, 5);
    assert_eq!(f.bb[0].tacs.len(), 2);
    assert!(is_add(&f.bb[0].tacs[0], 4, 0, 1));
    assert!(is_copy(&f.bb[0].tacs[1], 2, 4));
    assert_eq!(f.bb[1].tacs.len(), 1);
    assert!(is_copy(&f.bb[1].tacs[0], 3, 4));
}

#[test]
fn expression_on_one_branch_only_is_not_available_at_the_join() {
    let mut f = FuncBB {
        bb: vec![
            block(vec![], vec![]),
            block(vec![add(2, 0, 1)], vec![0]),
            block(vec![], vec![0]),
            block(vec![add(3, 0, 1)], vec![1, 2]),
        ],
        max_reg: 4,
    };
    work(&mut f);
    assert_eq!(f.max_reg, 4);
    assert!(is_add(&f.bb[1].tacs[0], 2, 0, 1));
    assert!(is_add(&f.bb[3].tacs[0], 3, 0, 1));
}

#[test]
fn expression_on_both_branches_is_computed_into_one_register() {
    let mut f = FuncBB {
        bb: vec![
            block(vec![], vec![]),
            block(vec![add(2, 0, 1)], vec![0]),
            block(vec![add(5, 0, 1)], vec![0]),
            block(vec![add(3, 0, 1)], vec![1, 2]),
        ],
        max_reg: 6,
    };
    work(&mut f);
    assert_eq!(f.max_reg, 7);
    assert!(is_add(&f.bb[1].tacs[0], 6, 0, 1));
    assert!(is_copy(&f.bb[1].tacs[1], 2, 6));
    assert!(is_add(&f.bb[2].tacs[0], 6, 0, 1));
    assert!(is_copy(&f.bb[2].tacs[1], 5, 6));
    assert_eq!(f.bb[3].tacs.len(), 1);
    assert!(is_copy(&f.bb[3].tacs[0], 3, 6));
    assert_eq!(f.bb.len(), 4);
    assert_eq!(f.bb[3].prev, vec![1, 2]);
    assert_eq!(f.bb[1].prev, vec![0]);
}

#[test]
fn loop_back_edge_keeps_expression_unavailable() {
    // block 1 loops to itself and writes r0, so r0 + r1 is not available at its start
    let bump = TacKind::Assign { dst: 0, src: [Operand::Reg(2)] };
    let mut f = FuncBB {
        bb: vec![block(vec![add(2, 0, 1)], vec![]), block(vec![add(3, 0, 1), bump], vec![0, 1])],
        max_reg: 4,
    };
    work(&mut f);
    assert_eq!(f.max_reg, 4);
    assert!(is_add(&f.bb[1].tacs[0], 3, 0, 1));
}

#[test]
fn object_store_kills_object_loads_only() {
    let mut f = FuncBB {
        bb: vec![block(
            vec![load(1, 0, MemHint::Obj), load_at(2, 0, 8, MemHint::Arr), store(MemHint::Obj), load(3, 0, MemHint::Obj)],
            vec![],
        )],
        max_reg: 4,
    };
    work(&mut f);
    assert_eq!(f.max_reg, 4);
    assert_eq!(f.bb[0].tacs.len(), 4);
    assert!(matches!(f.bb[0].tacs[3], TacKind::Load { dst: 3, .. }));
}

#[test]
fn array_store_leaves_object_loads_available() {
    let mut f = FuncBB {
        bb: vec![block(vec![load(1, 0, MemHint::Obj), store(MemHint::Arr), load(3, 0, MemHint::Obj)], vec![])],
        max_reg: 4,
    };
    work(&mut f);
    assert_eq!(f.max_reg, 5);
    let t = &f.bb[0].tacs;
    assert_eq!(t.len(), 4);
    assert!(matches!(t[0], TacKind::Load { dst: 4, hint: MemHint::Obj, .. }));
    assert!(is_copy(&t[1], 1, 4));
    assert!(is_copy(&t[3], 3, 4));
}

#[test]
fn call_that_may_write_arrays_kills_array_loads() {
    let call = TacKind::Call { dst: None, kind: CallKind::Static(0, CallHint { arg_obj: false, arg_arr: true }) };
    let mut f = FuncBB {
        bb: vec![block(vec![load(1, 0, MemHint::Arr), call, load(3, 0, MemHint::Arr)], vec![])],
        max_reg: 4,
    };
    work(&mut f);
    assert_eq!(f.max_reg, 4);
    assert!(matches!(f.bb[0].tacs[2], TacKind::Load { dst: 3, .. }));
}

#[test]
fn immutable_loads_survive_stores() {
    let mut f = FuncBB {
        bb: vec![block(vec![load(1, 0, MemHint::Immutable), store(MemHint::Obj), store(MemHint::Arr), load(3, 0, MemHint::Immutable)], vec![])],
        max_reg: 4,
    };
    work(&mut f);
    assert_eq!(f.max_reg, 5);
    assert!(is_copy(&f.bb[0].tacs[4], 3, 4));
}

#[test]
fn unary_expressions_are_shared_too() {
    let neg = |d: u32| TacKind::Un { op: UnOp::Neg, dst: d, r: [Operand::Const(7)] };
    let mut f = FuncBB { bb: vec![block(vec![neg(1), neg(2)], vec![])], max_reg: 3 };
    work(&mut f);
    assert_eq!(f.max_reg, 4);
    assert!(matches!(f.bb[0].tacs[0], TacKind::Un { op: UnOp::Neg, dst: 3, .. }));
    assert!(is_copy(&f.bb[0].tacs[1], 1, 3));
    assert!(is_copy(&f.bb[0].tacs[2], 2, 3));
}

#[test]
fn right_hand_sides_and_memory_effects() {
    assert_eq!(TacRhs::from_tac(add(2, 0, 1)), Some(TacRhs::Bin(BinOp::Add, Operand::Reg(0), Operand::Reg(1))));
    assert_eq!(TacRhs::from_tac(load(1, 0, MemHint::Arr)), Some(TacRhs::Load(Operand::Reg(0), 4)));
    assert_eq!(TacRhs::from_tac(TacKind::Jmp { label: 1 }), None);
    assert_eq!(TacRhs::Un(UnOp::Not, Operand::Reg(5)).r(), vec![Operand::Reg(5)]);
    assert_eq!(TacRhs::Bin(BinOp::Lt, Operand::Reg(1), Operand::Const(2)).r(), vec![Operand::Reg(1), Operand::Const(2)]);
    assert_eq!(mem_kill(store(MemHint::Immutable)), (false, false));
    assert_eq!(mem_kill(store(MemHint::Obj)), (true, false));
    assert_eq!(mem_kill(store(MemHint::Arr)), (false, true));
    let hint = CallHint { arg_obj: true, arg_arr: true };
    assert_eq!(mem_kill(TacKind::Call { dst: Some(1), kind: CallKind::Virtual([Operand::Reg(0)], hint) }), (true, true));
    assert_eq!(mem_kill(TacKind::Call { dst: None, kind: CallKind::Intrinsic(Intrinsic::PrintInt) }), (false, false));
    assert_eq!(mem_kill(add(1, 2, 3)), (false, false));
}

#[test]
fn gen_and_kill_of_a_block() {
    let f = FuncBB {
        bb: vec![block(vec![add(2, 0, 1), TacKind::Un { op: UnOp::Neg, dst: 0, r: [Operand::Reg(2)] }], vec![])],
        max_reg: 3,
    };
    let ctx = WorkCtx::new(&f);
    let mut gen = vec![0u32];
    let mut kill = vec![0u32];
    ctx.compute_gen_kill(&f.bb[0], &mut gen, &mut kill);
    // expression 0 is r0 + r1, made stale by the later write of r0;
    // expression 1 is -r2, which the earlier write of r2 also counts as killing
    assert_eq!(gen, vec![0b10]);
    assert_eq!(kill, vec![0b11]);
}
