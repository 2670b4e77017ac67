use solomon::backend::{program_has_exceptions, reachable_functions, PReg};
use solomon::builtins::{is_builtin, libc_symbol, ret_of, Type};
use solomon::copies::sequence_copies;
use solomon::destruct::{destruct_program, destruct_ssa};
use solomon::ir::{
    ArgTy, Callee, IrBinOp, IrBlock, IrFunc, IrInst, IrParam, IrProgram, IrRet, IrTerm, IrTy, Layouts, Phi, Prim,
    Val, VarargInfo,
};
use solomon::regalloc::{allocate, Location, RegSet};
use solomon::licm::{run_func, LoopForest, LoopInfo, NONE};
use solomon::sema::is_anon_field;
use solomon::simplify::{fold_int_bin, try_int_rewrite};
use solomon::x86_64::write_elf;
use std::collections::HashMap;

fn func(name: &str, blocks: Vec<IrBlock>, n_vregs: u32) -> IrFunc {
    IrFunc {
        name: name.to_string(),
        ret: IrRet::Void,
        params: vec![],
        varargs: false,
        slots: vec![],
        blocks,
        entry: 0,
        n_vregs,
    }
}

fn block(id: u32, insts: Vec<IrInst>, term: IrTerm) -> IrBlock {
    IrBlock { id, phis: vec![], insts, term }
}

fn mov(dst: u32, src: Val) -> IrInst {
    IrInst::Mov { dst, ty: IrTy::I64, src }
}

fn call(dst: Option<u32>, name: &str, args: Vec<Val>) -> IrInst {
    IrInst::Call {
        dst,
        ret: IrRet::Scalar(IrTy::I64),
        callee: Callee::Direct(name.to_string()),
        args: args.into_iter().map(|v| solomon::ir::ArgVal { ty: ArgTy::Int(IrTy::I64), val: v }).collect(),
        sret: None,
        varargs: VarargInfo { is_varargs: false, count: 0 },
    }
}

fn program(funcs: Vec<IrFunc>) -> IrProgram {
    IrProgram { funcs, globals: vec![], strings: vec![], layouts: Layouts { classes: vec![] } }
}

/// Runs a straight line of `Mov`s over a register file.
fn run_movs(movs: &[IrInst], regs: &mut HashMap<u32, i64>) {
    for m in movs {
        match m {
            IrInst::Mov { dst, src, .. } => {
                let v = match src {
                    Val::Reg(r) => *regs.get(r).unwrap_or(&0),
                    Val::ImmInt(i) => *i,
                    Val::ImmF64(_) => panic!("float"),
                };
                regs.insert(*dst, v);
            },
            other => panic!("not a move: {:?}", other),
        }
    }
}

#[test]
fn parallel_copies_swap_through_a_temporary() {
    let copies = vec![(0u32, IrTy::I64, Val::Reg(1)), (1u32, IrTy::I64, Val::Reg(0))];
    let mut next = 10u32;
    let movs = sequence_copies(&copies, &mut next);
    let mut regs: HashMap<u32, i64> = HashMap::new();
    regs.insert(0, 7);
    regs.insert(1, 9);
    run_movs(&movs, &mut regs);
    assert_eq!(regs[&0], 9);
    assert_eq!(regs[&1], 7);
    assert!(next > 10);
}

#[test]
fn parallel_copies_without_cycle_use_direct_moves() {
    // a = b; b = c: `a` must read `b` before `b` is overwritten.
    let copies = vec![(0u32, IrTy::I64, Val::Reg(1)), (1u32, IrTy::I64, Val::Reg(2)), (3u32, IrTy::I64, Val::ImmInt(4))];
    let mut next = 10u32;
    let movs = sequence_copies(&copies, &mut next);
    let mut regs: HashMap<u32, i64> = HashMap::new();
    regs.insert(0, 1);
    regs.insert(1, 2);
    regs.insert(2, 3);
    run_movs(&movs, &mut regs);
    assert_eq!((regs[&0], regs[&1], regs[&3]), (2, 3, 4));
    assert_eq!(next, 10);
}

#[test]
fn acyclic_copies_read_before_overwrite_in_order() {
    let copies = vec![(1u32, IrTy::I64, Val::ImmInt(5)), (0u32, IrTy::I64, Val::Reg(1))];
    let mut next = 7u32;
    let movs = sequence_copies(&copies, &mut next);
    assert_eq!(movs.len(), 2);
    assert!(matches!(movs[0], IrInst::Mov { dst: 0, ty: IrTy::I64, src: Val::Reg(1) }));
    assert!(matches!(movs[1], IrInst::Mov { dst: 1, ty: IrTy::I64, src: Val::ImmInt(5) }));
    assert_eq!(next, 7);
}

fn diamond() -> IrFunc {
    let mut b3 = block(3, vec![], IrTerm::Ret(Some(Val::Reg(1))));
    b3.phis.push(Phi { dst: 1, ty: IrTy::I64, args: vec![(1, Val::ImmInt(10)), (2, Val::ImmInt(20))] });
    func(
        "@entry",
        vec![
            block(0, vec![mov(0, Val::ImmInt(1))], IrTerm::CondBr { cond: Val::Reg(0), t: 1, f: 2 }),
            block(1, vec![], IrTerm::Br(3)),
            block(2, vec![], IrTerm::Br(3)),
            b3,
        ],
        2,
    )
}

#[test]
fn out_of_ssa_puts_copies_at_the_end_of_single_successor_predecessors() {
    let r = destruct_ssa(diamond());
    assert_eq!(r.blocks.len(), 4);
    assert!(r.blocks.iter().all(|b| b.phis.is_empty()));
    assert!(matches!(r.blocks[1].insts[..], [IrInst::Mov { dst: 1, src: Val::ImmInt(10), .. }]));
    assert!(matches!(r.blocks[2].insts[..], [IrInst::Mov { dst: 1, src: Val::ImmInt(20), .. }]));
}

#[test]
fn out_of_ssa_splits_critical_edges() {
    let mut b2 = block(2, vec![], IrTerm::Ret(Some(Val::Reg(1))));
    b2.phis.push(Phi { dst: 1, ty: IrTy::I64, args: vec![(0, Val::ImmInt(5)), (1, Val::ImmInt(6))] });
    let f = func(
        "f",
        vec![
            block(0, vec![mov(0, Val::ImmInt(1))], IrTerm::CondBr { cond: Val::Reg(0), t: 1, f: 2 }),
            block(1, vec![], IrTerm::Br(2)),
            b2,
        ],
        2,
    );
    let p = destruct_program(program(vec![f]));
    let r = &p.funcs[0];
    assert_eq!(r.blocks.len(), 4);
    assert!(matches!(r.blocks[0].term, IrTerm::CondBr { t: 1, f: 3, .. }));
    assert!(matches!(r.blocks[3].term, IrTerm::Br(2)));
    assert!(matches!(r.blocks[3].insts[..], [IrInst::Mov { dst: 1, src: Val::ImmInt(5), .. }]));
    assert!(matches!(r.blocks[1].insts[..], [IrInst::Mov { dst: 1, src: Val::ImmInt(6), .. }]));
}

#[test]
fn integer_folding_follows_the_ir_semantics() {
    assert_eq!(fold_int_bin(IrBinOp::Add, true, 2, 3), Some(5));
    assert_eq!(fold_int_bin(IrBinOp::Add, true, i64::MAX, 1), Some(i64::MIN));
    assert_eq!(fold_int_bin(IrBinOp::Div, true, -7, 2), Some(-3));
    assert_eq!(fold_int_bin(IrBinOp::Mod, true, -7, 2), Some(-1));
    assert_eq!(fold_int_bin(IrBinOp::Div, true, 1, 0), None);
    assert_eq!(fold_int_bin(IrBinOp::Div, false, -1, 2), Some(i64::MAX));
}

#[test]
fn multiplication_by_a_power_of_two_becomes_a_shift() {
    let mut nv: u32 = 10;
    let mut out = Vec::new();
    assert!(try_int_rewrite(5, IrBinOp::Mul, IrTy::I64, true, Val::Reg(1), Val::ImmInt(8), &mut out, &mut nv));
    assert!(matches!(
        out[..],
        [IrInst::Bin { dst: 5, op: IrBinOp::Shl, lhs: Val::Reg(1), rhs: Val::ImmInt(3), .. }]
    ));
    let mut out2 = Vec::new();
    assert!(try_int_rewrite(5, IrBinOp::Add, IrTy::I64, true, Val::ImmInt(0), Val::Reg(2), &mut out2, &mut nv));
    assert!(matches!(out2[..], [IrInst::Mov { dst: 5, src: Val::Reg(2), .. }]));
    let mut out3 = Vec::new();
    assert!(!try_int_rewrite(5, IrBinOp::Mul, IrTy::I64, true, Val::Reg(1), Val::ImmInt(6), &mut out3, &mut nv));
    assert_eq!(nv, 10);
    assert!(out3.is_empty());
}

/// Runs a straight line of integer `Bin`s over a register file.
fn run_bins(insts: &[IrInst], regs: &mut HashMap<u32, i64>) {
    for i in insts {
        match i {
            IrInst::Bin { dst, op, signed, lhs, rhs, .. } => {
                let get = |v: &Val| match v {
                    Val::Reg(r) => *regs.get(r).unwrap_or(&0),
                    Val::ImmInt(c) => *c,
                    Val::ImmF64(_) => panic!("float"),
                };
                let (a, b) = (get(lhs), get(rhs));
                let v = fold_int_bin(*op, *signed, a, b).unwrap();
                regs.insert(*dst, v);
            },
            other => panic!("not a bin: {:?}", other),
        }
    }
}

#[test]
fn signed_division_by_a_power_of_two_rounds_toward_zero() {
    let mut nv: u32 = 10;
    let mut out = Vec::new();
    assert!(try_int_rewrite(5, IrBinOp::Div, IrTy::I64, true, Val::Reg(1), Val::ImmInt(4), &mut out, &mut nv));
    assert_eq!(nv, 13);
    assert!(matches!(
        out[..],
        [
            IrInst::Bin { dst: 10, op: IrBinOp::Shr, signed: true, lhs: Val::Reg(1), rhs: Val::ImmInt(63), .. },
            IrInst::Bin { dst: 11, op: IrBinOp::Shr, signed: false, lhs: Val::Reg(10), rhs: Val::ImmInt(62), .. },
            IrInst::Bin { dst: 12, op: IrBinOp::Add, lhs: Val::Reg(1), rhs: Val::Reg(11), .. },
            IrInst::Bin { dst: 5, op: IrBinOp::Shr, signed: true, lhs: Val::Reg(12), rhs: Val::ImmInt(2), .. }
        ]
    ));
    for x in [-9i64, -8, -7, -1, 0, 1, 7, 8, 9, i64::MIN, i64::MAX] {
        let mut regs = HashMap::new();
        regs.insert(1, x);
        run_bins(&out, &mut regs);
        assert_eq!(regs[&5], x.wrapping_div(4), "x = {}", x);
    }
    // A 32-bit or an unsigned divide takes no bias sequence.
    let mut out2 = Vec::new();
    assert!(!try_int_rewrite(5, IrBinOp::Div, IrTy::I32, true, Val::Reg(1), Val::ImmInt(4), &mut out2, &mut nv));
    assert_eq!(nv, 13);
    let mut out3 = Vec::new();
    assert!(try_int_rewrite(5, IrBinOp::Div, IrTy::I64, false, Val::Reg(1), Val::ImmInt(4), &mut out3, &mut nv));
    assert_eq!(nv, 13);
}

fn pools() -> RegSet {
    RegSet { callee_int: vec![19, 20], caller_int: vec![9, 10], callee_flt: vec![8], caller_flt: vec![16] }
}

/// A loop: v0 = 0; loop { v1 = v0 + 1; v0 = v1; v2 = call f(v0); if v2 goto loop }; ret v0.
fn loop_with_call() -> IrFunc {
    func(
        "g",
        vec![
            block(0, vec![mov(0, Val::ImmInt(0))], IrTerm::Br(1)),
            block(
                1,
                vec![
                    IrInst::Bin {
                        dst: 1,
                        op: IrBinOp::Add,
                        ty: IrTy::I64,
                        signed: true,
                        lhs: Val::Reg(0),
                        rhs: Val::ImmInt(1),
                    },
                    mov(0, Val::Reg(1)),
                    call(Some(2), "f", vec![Val::Reg(0)]),
                ],
                IrTerm::CondBr { cond: Val::Reg(2), t: 1, f: 2 },
            ),
            block(2, vec![], IrTerm::Ret(Some(Val::Reg(0)))),
        ],
        3,
    )
}

#[test]
fn allocation_keeps_call_crossing_values_in_callee_saved_registers() {
    let f = loop_with_call();
    let regs = pools();
    let a = allocate(&f, &regs, false, &vec![0, 1, 0]);
    assert_eq!(a.loc.len(), 3);
    // v0 is live across the call and read many times: it gets a callee-saved register.
    match a.loc[0] {
        Location::Reg(PReg { is_float: false, num }) => {
            assert!(num == 19 || num == 20);
            assert!(a.saved.iter().any(|s| s.num == num && !s.is_float));
        },
        _ => panic!("v0 should be in a register"),
    }
    // Every register used comes from the integer pools, and the saved ones are callee-saved.
    for l in &a.loc {
        if let Location::Reg(r) = l {
            assert!(!r.is_float);
            assert!([19, 20, 9, 10].contains(&r.num));
        }
    }
    for s in &a.saved {
        assert!([19, 20].contains(&s.num));
    }
}

#[test]
fn allocation_places_only_vregs_read_twice() {
    let f = loop_with_call();
    let regs = RegSet { callee_int: vec![19, 20, 21], caller_int: vec![], callee_flt: vec![8], caller_flt: vec![] };
    let a = allocate(&f, &regs, false, &vec![0, 1, 0]);
    // v0 is read three times and the callee-saved pool is large enough: it gets a register.
    assert!(matches!(a.loc[0], Location::Reg(PReg { is_float: false, .. })));
    // v1 and v2 are each read once: they stay in their frame slots.
    assert!(matches!(a.loc[1], Location::Spill));
    assert!(matches!(a.loc[2], Location::Spill));
}

#[test]
fn allocation_gives_an_isolated_vreg_the_one_register() {
    // v0 is the only vreg read twice, so nothing competes with it: a single
    // callee-saved register is enough.
    let f = loop_with_call();
    let regs = RegSet { callee_int: vec![19], caller_int: vec![], callee_flt: vec![], caller_flt: vec![] };
    let a = allocate(&f, &regs, false, &vec![0, 1, 0]);
    assert!(matches!(a.loc[0], Location::Reg(PReg { is_float: false, num: 19 })));
    assert!(a.saved.iter().any(|s| s.num == 19 && !s.is_float));
}

#[test]
fn allocation_spills_everything_when_the_program_throws() {
    let f = loop_with_call();
    let a = allocate(&f, &pools(), true, &vec![0, 1, 0]);
    assert!(a.loc.iter().all(|l| matches!(l, Location::Spill)));
    assert!(a.saved.is_empty());
}

#[test]
fn allocation_with_empty_pools_spills() {
    let f = loop_with_call();
    let none = RegSet { callee_int: vec![], caller_int: vec![], callee_flt: vec![], caller_flt: vec![] };
    let a = allocate(&f, &none, false, &vec![0, 0, 0]);
    assert!(a.loc.iter().all(|l| matches!(l, Location::Spill)));
}

#[test]
fn reachability_follows_calls_and_taken_addresses() {
    let entry = func("@entry", vec![block(0, vec![call(None, "f", vec![])], IrTerm::Ret(None))], 0);
    let f = func(
        "f",
        vec![block(0, vec![IrInst::FuncAddr { dst: 0, func: "g".to_string() }], IrTerm::Ret(None))],
        1,
    );
    let g = func("g", vec![block(0, vec![call(None, "f", vec![])], IrTerm::Ret(None))], 0);
    let h = func("h", vec![block(0, vec![], IrTerm::Ret(None))], 0);
    let p = program(vec![h, g, f, entry]);
    let r = reachable_functions(&p, "x86_64").expect("all lowered");
    let names: Vec<&str> = r.iter().map(|f| f.name.as_str()).collect();
    assert_eq!(names[0], "@entry");
    assert_eq!(names.len(), 3);
    assert!(names.contains(&"f") && names.contains(&"g"));
    assert!(!names.contains(&"h"));
}

#[test]
fn reachability_walks_the_most_recent_reference_first() {
    // `@entry` refers to f, then g: g is taken from the stack first.
    let entry = func(
        "@entry",
        vec![block(0, vec![call(None, "f", vec![]), call(None, "g", vec![])], IrTerm::Ret(None))],
        0,
    );
    let f = func("f", vec![block(0, vec![], IrTerm::Ret(None))], 0);
    let g = func("g", vec![block(0, vec![call(None, "h", vec![])], IrTerm::Ret(None))], 0);
    let h = func("h", vec![block(0, vec![], IrTerm::Ret(None))], 0);
    let p = program(vec![f, g, h, entry]);
    let r = reachable_functions(&p, "x86_64").expect("all lowered");
    let names: Vec<&str> = r.iter().map(|f| f.name.as_str()).collect();
    assert_eq!(names, vec!["@entry", "g", "h", "f"]);
}

#[test]
fn reachability_reports_a_missing_function() {
    let entry = func("@entry", vec![block(0, vec![call(None, "nope", vec![])], IrTerm::Ret(None))], 0);
    let p = program(vec![entry]);
    let e = reachable_functions(&p, "arm64").expect_err("missing");
    assert_eq!(e.message, "IR arm64: needed function `nope` was not lowered");
    assert!(e.pos.is_none());
    let empty = program(vec![func("main", vec![], 0)]);
    assert!(reachable_functions(&empty, "arm64").unwrap().is_empty());
}

#[test]
fn exceptions_are_found_in_any_function() {
    let plain = func("a", vec![block(0, vec![], IrTerm::Ret(None))], 0);
    let throws = func("b", vec![block(0, vec![], IrTerm::Throw(Val::ImmInt(1)))], 0);
    assert!(!program_has_exceptions(&program(vec![plain.clone()])));
    assert!(program_has_exceptions(&program(vec![plain, throws])));
}

#[test]
fn elf_image_is_header_program_header_then_code() {
    let code = [0x90u8, 0xC3];
    let out = write_elf(&code, 16);
    assert_eq!(out.len(), 64 + 56 + 2);
    assert_eq!(&out[0..4], &[0x7F, b'E', b'L', b'F']);
    assert_eq!(&out[120..], &code);
}

#[test]
fn builtin_registry_and_libc_names() {
    assert!(is_builtin("ArgC"));
    assert!(!is_builtin("Print"));
    assert!(matches!(ret_of("VarArgF64"), Some(Type::F64)));
    assert!(ret_of("nothing").is_none());
    assert_eq!(libc_symbol("MAlloc"), Some("_malloc"));
    assert_eq!(libc_symbol("HeapExtend"), None);
}

#[test]
fn anonymous_field_names() {
    assert!(is_anon_field("$anon0"));
    assert!(is_anon_field("$anon"));
    assert!(!is_anon_field("anon"));
    assert!(!is_anon_field("$ano"));
}

#[allow(dead_code)]
fn _uses(_: IrParam, _: Prim) {}

fn bin(dst: u32, op: IrBinOp, lhs: Val, rhs: Val) -> IrInst {
    IrInst::Bin { dst, op, ty: IrTy::I64, signed: true, lhs, rhs }
}

#[test]
fn licm_moves_invariant_chains_out_of_the_loop() {
    // v0 is a parameter; the loop body computes v1 = v0 + 5 and v2 = v1 * 2 (both invariant),
    // v3 = load v2 (not hoistable), v4 = v0 / v1 (integer division: may trap) and loops on v3.
    let mut f = func(
        "k",
        vec![
            block(0, vec![], IrTerm::Br(1)),
            block(
                1,
                vec![
                    bin(1, IrBinOp::Add, Val::Reg(0), Val::ImmInt(5)),
                    bin(2, IrBinOp::Mul, Val::Reg(1), Val::ImmInt(2)),
                    IrInst::Load { dst: 3, ty: IrTy::I64, addr: Val::Reg(2) },
                    bin(4, IrBinOp::Div, Val::Reg(0), Val::Reg(1)),
                ],
                IrTerm::CondBr { cond: Val::Reg(3), t: 1, f: 2 },
            ),
            block(2, vec![], IrTerm::Ret(Some(Val::Reg(4)))),
        ],
        5,
    );
    f.params.push(IrParam { vreg: 0, ty: ArgTy::Int(IrTy::I64) });
    let loops = LoopForest {
        loops: vec![LoopInfo { header: 1, body: vec![1], latches: vec![1] }],
        depth: vec![0, 1, 0],
    };
    run_func(&mut f, &loops, &vec![NONE, 0, 1]);
    assert!(matches!(
        f.blocks[0].insts[..],
        [IrInst::Bin { dst: 1, op: IrBinOp::Add, .. }, IrInst::Bin { dst: 2, op: IrBinOp::Mul, .. }]
    ));
    assert!(matches!(f.blocks[1].insts[..], [IrInst::Load { dst: 3, .. }, IrInst::Bin { dst: 4, op: IrBinOp::Div, .. }]));
    assert!(f.blocks[2].insts.is_empty());
}

#[test]
fn licm_skips_a_loop_whose_header_is_the_entry() {
    let mut f = func(
        "k",
        vec![
            block(0, vec![bin(1, IrBinOp::Add, Val::ImmInt(1), Val::ImmInt(2))], IrTerm::CondBr {
                cond: Val::Reg(1),
                t: 0,
                f: 1,
            }),
            block(1, vec![], IrTerm::Ret(None)),
        ],
        2,
    );
    let loops = LoopForest { loops: vec![LoopInfo { header: 0, body: vec![0], latches: vec![0] }], depth: vec![1, 0] };
    run_func(&mut f, &loops, &vec![NONE, 0]);
    assert_eq!(f.blocks[0].insts.len(), 1);
}

#[test]
fn ivsr_replaces_an_indexed_pointer_with_a_derived_induction_variable() {
    // for (k = 0; *p; k++) p = base + k*8, with base = v0 a parameter:
    // header 1 holds k = v1 = phi((0, 0), (2, v2)), v3 = base + v1*8, v4 = load v3, v2 = v1 + 1.
    let mut f = func(
        "walk",
        vec![
            block(0, vec![], IrTerm::Br(1)),
            IrBlock {
                id: 1,
                phis: vec![Phi { dst: 1, ty: IrTy::I64, args: vec![(0, Val::ImmInt(0)), (2, Val::Reg(2))] }],
                insts: vec![
                    IrInst::PtrAdd { dst: 3, base: Val::Reg(0), index: Val::Reg(1), stride: 8 },
                    IrInst::Load { dst: 4, ty: IrTy::I64, addr: Val::Reg(3) },
                    bin(2, IrBinOp::Add, Val::Reg(1), Val::ImmInt(1)),
                ],
                term: IrTerm::CondBr { cond: Val::Reg(4), t: 2, f: 3 },
            },
            block(2, vec![], IrTerm::Br(1)),
            block(3, vec![], IrTerm::Ret(None)),
        ],
        5,
    );
    f.params.push(IrParam { vreg: 0, ty: ArgTy::Int(IrTy::Ptr) });
    let loops = LoopForest {
        loops: vec![LoopInfo { header: 1, body: vec![1, 2], latches: vec![2] }],
        depth: vec![0, 1, 1, 0],
    };
    let preds = vec![vec![], vec![0, 2], vec![1], vec![1]];
    solomon::ivsr::run_func(&mut f, &loops, &vec![NONE, 0, 1, 1], &preds);
    assert_eq!(f.n_vregs, 8);
    assert!(matches!(
        f.blocks[0].insts[..],
        [IrInst::PtrAdd { dst: 5, base: Val::Reg(0), index: Val::ImmInt(0), stride: 8 }]
    ));
    assert!(matches!(
        f.blocks[2].insts[..],
        [IrInst::PtrAdd { dst: 6, base: Val::Reg(7), index: Val::ImmInt(1), stride: 8 }]
    ));
    assert_eq!(f.blocks[1].phis.len(), 2);
    assert_eq!(f.blocks[1].phis[1].dst, 7);
    assert_eq!(f.blocks[1].phis[1].args, vec![(0, Val::Reg(5)), (2, Val::Reg(6))]);
    assert!(matches!(
        f.blocks[1].insts[..],
        [IrInst::Load { dst: 4, addr: Val::Reg(7), .. }, IrInst::Bin { dst: 2, op: IrBinOp::Add, .. }]
    ));
}

#[test]
fn ivsr_leaves_a_loop_with_two_latches_alone() {
    let mut f = func(
        "walk",
        vec![
            block(0, vec![], IrTerm::Br(1)),
            IrBlock {
                id: 1,
                phis: vec![Phi { dst: 1, ty: IrTy::I64, args: vec![(0, Val::ImmInt(0)), (1, Val::Reg(2))] }],
                insts: vec![
                    IrInst::PtrAdd { dst: 3, base: Val::Reg(0), index: Val::Reg(1), stride: 8 },
                    IrInst::Load { dst: 4, ty: IrTy::I64, addr: Val::Reg(3) },
                    bin(2, IrBinOp::Add, Val::Reg(1), Val::ImmInt(1)),
                ],
                term: IrTerm::CondBr { cond: Val::Reg(4), t: 1, f: 2 },
            },
            block(2, vec![], IrTerm::Ret(None)),
        ],
        5,
    );
    f.params.push(IrParam { vreg: 0, ty: ArgTy::Int(IrTy::Ptr) });
    let loops = LoopForest { loops: vec![LoopInfo { header: 1, body: vec![1], latches: vec![1, 1] }], depth: vec![0, 1, 0] };
    let preds = vec![vec![], vec![0, 1], vec![1]];
    solomon::ivsr::run_func(&mut f, &loops, &vec![NONE, 0, 1], &preds);
    assert_eq!(f.n_vregs, 5);
    assert_eq!(f.blocks[1].insts.len(), 3);
}

#[test]
fn ivsr_skips_a_base_that_another_site_reduces() {
    // Two chained PtrAdds over the same induction variable k = v1: v3 = v0 + k*8 and
    // v5 = v3 + k*4. Both are sites, but v5's base is v3, which the first plan reduces,
    // so only v3's PtrAdd becomes a derived induction variable.
    let mut f = func(
        "walk2",
        vec![
            block(0, vec![], IrTerm::Br(1)),
            IrBlock {
                id: 1,
                phis: vec![Phi { dst: 1, ty: IrTy::I64, args: vec![(0, Val::ImmInt(0)), (2, Val::Reg(2))] }],
                insts: vec![
                    IrInst::PtrAdd { dst: 3, base: Val::Reg(0), index: Val::Reg(1), stride: 8 },
                    IrInst::PtrAdd { dst: 5, base: Val::Reg(3), index: Val::Reg(1), stride: 4 },
                    IrInst::Load { dst: 4, ty: IrTy::I64, addr: Val::Reg(5) },
                    bin(2, IrBinOp::Add, Val::Reg(1), Val::ImmInt(1)),
                ],
                term: IrTerm::CondBr { cond: Val::Reg(4), t: 2, f: 3 },
            },
            block(2, vec![], IrTerm::Br(1)),
            block(3, vec![], IrTerm::Ret(None)),
        ],
        6,
    );
    f.params.push(IrParam { vreg: 0, ty: ArgTy::Int(IrTy::Ptr) });
    let loops = LoopForest {
        loops: vec![LoopInfo { header: 1, body: vec![1, 2], latches: vec![2] }],
        depth: vec![0, 1, 1, 0],
    };
    let preds = vec![vec![], vec![0, 2], vec![1], vec![1]];
    solomon::ivsr::run_func(&mut f, &loops, &vec![NONE, 0, 1, 1], &preds);
    assert_eq!(f.n_vregs, 9);
    assert_eq!(f.blocks[1].phis.len(), 2);
    assert_eq!(f.blocks[1].phis[1].dst, 8);
    assert!(matches!(
        f.blocks[1].insts[..],
        [
            IrInst::PtrAdd { dst: 5, base: Val::Reg(8), index: Val::Reg(1), stride: 4 },
            IrInst::Load { dst: 4, addr: Val::Reg(5), .. },
            IrInst::Bin { dst: 2, .. }
        ]
    ));
}
