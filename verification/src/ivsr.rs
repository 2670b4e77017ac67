//! Induction-variable strength reduction. A basic induction variable
//! `k = phi(k0, k + c)` of a loop that feeds `PtrAdd(base, k, stride)` with a
//! loop-invariant `base` recomputes `base + k*stride` on every iteration.
//! The pass replaces it with a parallel induction variable
//! `q = phi(base + k0*stride, q + c*stride)`: the multiply becomes one add
//! on the back edge, and `q == base + k*stride` on every iteration under the
//! IR's wrapping arithmetic.
//!
//! Only one shape is handled: a loop with one latch whose header's
//! predecessors are exactly its immediate dominator (the preheader, where
//! `q0` is computed) and that latch (where `q`'s step is computed).
use crate::ir::{BlockId, IrBinOp, IrBlock, IrFunc, IrInst, IrTy, Phi, Val, Vreg};
use crate::licm::{def_blocks, def_seq, defs_in_range, LoopForest, LoopInfo, NONE};
use crate::liveness::{def_of, inst_def};
use crate::simplify::{block_substituted, replace_all_uses};
use vstd::prelude::*;

verus! {

/// One strength-reduction site: `PtrAdd { dst: orig, base, index: k, stride }`
/// becomes the derived induction variable
/// `q = phi((preheader, base + k0*stride), (latch, q + c*stride))`.
#[derive(Clone, Copy)]
pub struct Plan {
    pub orig: Vreg,
    pub base: Val,
    pub k0: Val,
    pub c: i64,
    pub stride: u32,
    pub header: BlockId,
    pub preheader: BlockId,
    pub latch: BlockId,
}

/// `insts` without the instructions that define `v`.
pub open spec fn without_defs(insts: Seq<IrInst>, v: Vreg) -> Seq<IrInst>
    decreases insts.len(),
{
    if insts.len() == 0 {
        seq![]
    } else {
        let rest = without_defs(insts.drop_last(), v);
        if inst_def(insts.last()) matches Some((d, _)) && d == v {
            rest
        } else {
            rest.push(insts.last())
        }
    }
}

/// Block `n` is block `o` with plan `p` laid out, before the uses of the
/// original `PtrAdd` are redirected: the instructions defining `p.orig`
/// dropped, `q0 = base + k0*stride` appended to the preheader,
/// `qnext = q + c*stride` to the latch, and `q`'s phi added to the header,
/// where `q0`, `qnext` and `q` are the vregs `nv`, `nv + 1` and `nv + 2`.
pub open spec fn laid_out(o: IrBlock, n: IrBlock, p: Plan, nv: int) -> bool {
    let q0 = nv as Vreg;
    let qnext = (nv + 1) as Vreg;
    let q = (nv + 2) as Vreg;
    let added = if o.id == p.preheader {
        seq![IrInst::PtrAdd { dst: q0, base: p.base, index: p.k0, stride: p.stride }]
    } else if o.id == p.latch {
        seq![IrInst::PtrAdd { dst: qnext, base: Val::Reg(q), index: Val::ImmInt(p.c), stride: p.stride }]
    } else {
        seq![]
    };
    &&& n.id == o.id
    &&& n.term == o.term
    &&& n.insts@ == without_defs(o.insts@, p.orig) + added
    &&& if o.id == p.header {
        &&& n.phis.len() == o.phis.len() + 1
        &&& n.phis@.take(o.phis.len() as int) == o.phis@
        &&& n.phis@.last().dst == q
        &&& n.phis@.last().ty == IrTy::Ptr
        &&& n.phis@.last().args@ == seq![(p.preheader, Val::Reg(q0)), (p.latch, Val::Reg(qnext))]
    } else {
        n.phis == o.phis
    }
}

/// The first argument of `phi` that flows in from `pred`.
pub open spec fn first_arg_from(phi: Phi, pred: BlockId) -> Option<Val> {
    if exists|i: int| 0 <= i < phi.args.len() && (#[trigger] phi.args@[i]).0 == pred {
        let i = choose|i: int|
            0 <= i < phi.args.len() && (#[trigger] phi.args@[i]).0 == pred && forall|j: int|
                0 <= j < i ==> phi.args@[j].0 != pred;
        Some(phi.args@[i].1)
    } else {
        None
    }
}

/// The value `phi` takes when control comes from `pred`: its first argument
/// for `pred`, if any.
fn phi_arg(phi: &Phi, pred: BlockId) -> (r: Option<Val>)
    ensures
        match r {
            Some(v) => exists|i: int|
                0 <= i < phi.args.len() && phi.args@[i] == (pred, v) && forall|j: int|
                    0 <= j < i ==> (#[trigger] phi.args@[j]).0 != pred,
            None => forall|i: int| 0 <= i < phi.args.len() ==> (#[trigger] phi.args@[i]).0 != pred,
        },
{
    let mut i: usize = 0;
    while i < phi.args.len()
        invariant
            i <= phi.args.len(),
            forall|j: int| 0 <= j < i ==> (#[trigger] phi.args@[j]).0 != pred,
        decreases phi.args.len() - i,
    {
        if phi.args[i].0 == pred {
            return Some(phi.args[i].1);
        }
        i += 1;
    }
    None
}

/// The integer an immediate operand holds.
pub open spec fn imm_of(v: Val) -> Option<i64> {
    match v {
        Val::ImmInt(c) => Some(c),
        _ => None,
    }
}

/// The step `i` gives the induction variable `k` when it computes its latch
/// value `knext`: `c` when `i` is the integer addition `knext = k + c` (or
/// `c + k`).
pub open spec fn step_of(i: IrInst, knext: Vreg, k: Vreg) -> Option<i64> {
    match i {
        IrInst::Bin { dst, op, ty, lhs, rhs, .. } => if dst == knext && op == IrBinOp::Add && !ty.spec_is_float() {
            if lhs == Val::Reg(k) && imm_of(rhs) is Some {
                imm_of(rhs)
            } else if rhs == Val::Reg(k) {
                imm_of(lhs)
            } else {
                None
            }
        } else {
            None
        },
        _ => None,
    }
}

/// The step of the first instruction of `insts` that has one.
pub open spec fn first_step_in(insts: Seq<IrInst>, knext: Vreg, k: Vreg) -> Option<i64>
    decreases insts.len(),
{
    if insts.len() == 0 {
        None
    } else if step_of(insts[0], knext, k) is Some {
        step_of(insts[0], knext, k)
    } else {
        first_step_in(insts.skip(1), knext, k)
    }
}

/// The step of the first instruction with one, over the blocks `body` in
/// order.
pub open spec fn first_step(blocks: Seq<IrBlock>, body: Seq<BlockId>, knext: Vreg, k: Vreg) -> Option<i64>
    decreases body.len(),
{
    if body.len() == 0 {
        None
    } else if first_step_in(blocks[body[0] as int].insts@, knext, k) is Some {
        first_step_in(blocks[body[0] as int].insts@, knext, k)
    } else {
        first_step(blocks, body.skip(1), knext, k)
    }
}

/// The step of the induction variable `k` whose latch value is `knext`: the
/// constant `c` of the first instruction `knext = k + c` (or `c + k`) in the
/// blocks of `body`.
fn iv_step(f: &IrFunc, body: &Vec<BlockId>, knext: Vreg, k: Vreg) -> (r: Option<i64>)
    requires
        forall|t: int| 0 <= t < body.len() ==> #[trigger] body@[t] < f.blocks.len(),
    ensures
        r == first_step(f.blocks@, body@, knext, k),
{
    let mut t: usize = 0;
    proof {
        assert(body@.skip(0) =~= body@);
    }
    while t < body.len()
        invariant
            t <= body.len(),
            forall|u: int| 0 <= u < body.len() ==> #[trigger] body@[u] < f.blocks.len(),
            first_step(f.blocks@, body@, knext, k) == first_step(f.blocks@, body@.skip(t as int), knext, k),
        decreases body.len() - t,
    {
        let blk = &f.blocks[body[t] as usize];
        let ghost bs = body@.skip(t as int);
        proof {
            assert(bs[0] == body@[t as int]);
            assert(bs.skip(1) =~= body@.skip(t + 1));
            assert(blk.insts@.skip(0) =~= blk.insts@);
        }
        let mut j: usize = 0;
        while j < blk.insts.len()
            invariant
                j <= blk.insts.len(),
                t < body.len(),
                blk == f.blocks@[body@[t as int] as int],
                bs == body@.skip(t as int),
                bs.len() > 0,
                bs[0] == body@[t as int],
                first_step(f.blocks@, body@, knext, k) == first_step(f.blocks@, bs, knext, k),
                first_step_in(blk.insts@, knext, k) == first_step_in(blk.insts@.skip(j as int), knext, k),
            decreases blk.insts.len() - j,
        {
            let ghost is = blk.insts@.skip(j as int);
            proof {
                assert(is[0] == blk.insts@[j as int]);
                assert(is.skip(1) =~= blk.insts@.skip(j + 1));
            }
            match &blk.insts[j] {
                IrInst::Bin { dst, op: IrBinOp::Add, ty, lhs, rhs, .. } => {
                    if *dst == knext && !ty.is_float() {
                        if *lhs == Val::Reg(k) {
                            if let Val::ImmInt(c) = rhs {
                                proof {
                                    assert(step_of(is[0], knext, k) == Some(*c));
                                    assert(first_step_in(is, knext, k) == Some(*c));
                                    assert(f.blocks@[bs[0] as int].insts@ == blk.insts@);
                                    assert(first_step_in(f.blocks@[bs[0] as int].insts@, knext, k) == Some(*c));
                                    assert(first_step(f.blocks@, bs, knext, k) == Some(*c));
                                }
                                return Some(*c);
                            }
                        }
                        if *rhs == Val::Reg(k) {
                            if let Val::ImmInt(c) = lhs {
                                proof {
                                    assert(step_of(is[0], knext, k) == Some(*c));
                                    assert(first_step_in(is, knext, k) == Some(*c));
                                    assert(f.blocks@[bs[0] as int].insts@ == blk.insts@);
                                    assert(first_step_in(f.blocks@[bs[0] as int].insts@, knext, k) == Some(*c));
                                    assert(first_step(f.blocks@, bs, knext, k) == Some(*c));
                                }
                                return Some(*c);
                            }
                        }
                    }
                },
                _ => {},
            }
            j += 1;
        }
        proof {
            assert(blk.insts@.skip(j as int).len() == 0);
        }
        t += 1;
    }
    proof {
        assert(body@.skip(t as int).len() == 0);
    }
    None
}

/// `v` is an immediate or a register defined outside `body`.
pub open spec fn val_invariant(v: Val, def: Seq<BlockId>, body: Seq<BlockId>) -> bool {
    match v {
        Val::Reg(r) => def[r as int] == NONE || !body.contains(def[r as int]),
        _ => true,
    }
}

fn is_invariant(v: Val, def: &Vec<BlockId>, body: &Vec<BlockId>) -> (r: bool)
    requires
        v matches Val::Reg(x) ==> x < def.len(),
    ensures
        r == val_invariant(v, def@, body@),
{
    match v {
        Val::Reg(x) => {
            let db = def[x as usize];
            if db == NONE {
                return true;
            }
            let mut i: usize = 0;
            while i < body.len()
                invariant
                    i <= body.len(),
                    v == Val::Reg(x),
                    x < def.len(),
                    db == def@[x as int],
                    db != NONE,
                    forall|k: int| 0 <= k < i ==> body@[k] != db,
                decreases body.len() - i,
            {
                if body[i] == db {
                    proof {
                        assert(body@[i as int] == db);
                        assert(body@.contains(db));
                    }
                    return false;
                }
                i += 1;
            }
            true
        },
        _ => true,
    }
}


proof fn lemma_without_defs_push(s: Seq<IrInst>, x: IrInst, v: Vreg)
    requires
        !(inst_def(x) matches Some((d, _)) && d == v),
    ensures
        without_defs(s.push(x), v) == without_defs(s, v).push(x),
{
    assert(s.push(x).drop_last() =~= s);
}

/// `blk` with the instructions defining `v` dropped.
fn drop_defs(blk: &mut IrBlock, v: Vreg)
    ensures
        final(blk).id == old(blk).id,
        final(blk).phis == old(blk).phis,
        final(blk).term == old(blk).term,
        final(blk).insts@ == without_defs(old(blk).insts@, v),
{
    let mut insts: Vec<IrInst> = Vec::new();
    std::mem::swap(&mut insts, &mut blk.insts);
    let ghost orig = insts@;
    let mut kept: Vec<IrInst> = Vec::new();
    let mut j: usize = 0;
    while j < insts.len()
        invariant
            j <= insts.len(),
            insts.len() == orig.len(),
            forall|k: int| j <= k < orig.len() ==> #[trigger] insts@[k] == orig[k],
            kept@ == without_defs(orig.take(j as int), v),
        decreases orig.len() - j,
    {
        let mut cur = IrInst::TryEnd;
        insts.set_and_swap(j, &mut cur);
        proof {
            assert(orig.take(j as int + 1).drop_last() =~= orig.take(j as int));
            assert(orig.take(j as int + 1).last() == cur);
        }
        let defines_v = match def_of(&cur) {
            Some((d, _)) => d == v,
            None => false,
        };
        if !defines_v {
            kept.push(cur);
        }
        j += 1;
    }
    proof {
        assert(orig.take(orig.len() as int) =~= orig);
    }
    std::mem::swap(&mut kept, &mut blk.insts);
}

/// Block ids are block indices.
pub open spec fn ids_are_indices(f: IrFunc) -> bool {
    forall|i: int| 0 <= i < f.blocks.len() ==> (#[trigger] f.blocks@[i]).id == i
}

/// `b` is `a` with plan `p` applied: three fresh vregs, every block laid
/// out as `laid_out` says and then every use of `p.orig` reading `q`, the
/// rest of the function unchanged.
pub open spec fn applied(a: IrFunc, b: IrFunc, p: Plan) -> bool {
    &&& b.n_vregs == a.n_vregs + 3
    &&& b.name == a.name
    &&& b.ret == a.ret
    &&& b.params == a.params
    &&& b.varargs == a.varargs
    &&& b.slots == a.slots
    &&& b.entry == a.entry
    &&& b.blocks.len() == a.blocks.len()
    &&& ids_are_indices(b)
    &&& exists|mid: Seq<IrBlock>|
        mid.len() == a.blocks.len() && forall|i: int|
            0 <= i < mid.len() ==> laid_out(a.blocks@[i], #[trigger] mid[i], p, a.n_vregs as int)
                && block_substituted(mid[i], b.blocks@[i], p.orig, Val::Reg((a.n_vregs + 2) as Vreg))
}

/// Lays out plan `p`: `q0`, `qnext` and `q` are three fresh vregs; the
/// original `PtrAdd` goes and its uses read `q`.
fn apply(f: &mut IrFunc, p: Plan)
    requires
        old(f).n_vregs + 3 <= u32::MAX,
        ids_are_indices(*old(f)),
        p.header < old(f).blocks.len(),
        p.preheader < old(f).blocks.len(),
        p.latch < old(f).blocks.len(),
        p.preheader != p.latch,
        p.orig < old(f).n_vregs,
    ensures
        applied(*old(f), *final(f), p),
{
    let ghost f0 = *f;
    let nv = f.n_vregs;
    let q0 = nv;
    let qnext = nv + 1;
    let q = nv + 2;
    f.n_vregs = nv + 3;
    f.blocks[p.preheader as usize].insts.push(IrInst::PtrAdd { dst: q0, base: p.base, index: p.k0, stride: p.stride });
    f.blocks[p.latch as usize].insts.push(
        IrInst::PtrAdd { dst: qnext, base: Val::Reg(q), index: Val::ImmInt(p.c), stride: p.stride },
    );
    let mut args: Vec<(BlockId, Val)> = Vec::new();
    args.push((p.preheader, Val::Reg(q0)));
    args.push((p.latch, Val::Reg(qnext)));
    f.blocks[p.header as usize].phis.push(Phi { dst: q, ty: IrTy::Ptr, args });
    let ghost f1 = *f;
    let mut b: usize = 0;
    while b < f.blocks.len()
        invariant
            b <= f.blocks.len(),
            f.blocks.len() == f1.blocks.len(),
            f.n_vregs == f1.n_vregs,
            f.name == f1.name,
            f.ret == f1.ret,
            f.params == f1.params,
            f.varargs == f1.varargs,
            f.slots == f1.slots,
            f.entry == f1.entry,
            forall|i: int| b <= i < f1.blocks.len() ==> #[trigger] f.blocks@[i] == f1.blocks@[i],
            forall|i: int|
                0 <= i < b ==> {
                    let (x, y) = (f1.blocks@[i], #[trigger] f.blocks@[i]);
                    &&& y.id == x.id
                    &&& y.phis == x.phis
                    &&& y.term == x.term
                    &&& y.insts@ == without_defs(x.insts@, p.orig)
                },
        decreases f1.blocks.len() - b,
    {
        drop_defs(&mut f.blocks[b], p.orig);
        b += 1;
    }
    let ghost mid = f.blocks@;
    proof {
        assert forall|i: int| 0 <= i < mid.len() implies laid_out(f0.blocks@[i], #[trigger] mid[i], p, nv as int) by {
            let o = f0.blocks@[i];
            let x = f1.blocks@[i];
            assert(o.id == i);
            if i == p.preheader {
                let pa = IrInst::PtrAdd { dst: q0, base: p.base, index: p.k0, stride: p.stride };
                assert(x.insts@ == o.insts@.push(pa));
                lemma_without_defs_push(o.insts@, pa, p.orig);
                assert(mid[i].insts@ =~= without_defs(o.insts@, p.orig) + seq![pa]);
            } else if i == p.latch {
                let pa = IrInst::PtrAdd { dst: qnext, base: Val::Reg(q), index: Val::ImmInt(p.c), stride: p.stride };
                assert(x.insts@ == o.insts@.push(pa));
                lemma_without_defs_push(o.insts@, pa, p.orig);
                assert(mid[i].insts@ =~= without_defs(o.insts@, p.orig) + seq![pa]);
            } else {
                assert(mid[i].insts@ =~= without_defs(o.insts@, p.orig) + Seq::<IrInst>::empty());
            }
            assert(mid[i].id == o.id);
            assert(mid[i].term == o.term);
            if i == p.header {
                assert(x.phis@.take(o.phis.len() as int) =~= o.phis@);
                assert(x.phis.len() == o.phis.len() + 1);
                assert(x.phis@.last().dst == q);
                assert(x.phis@.last().args@ =~= seq![(p.preheader, Val::Reg(q0)), (p.latch, Val::Reg(qnext))]);
            } else {
                assert(x.phis == o.phis);
            }
        }
    }
    replace_all_uses(f, p.orig, Val::Reg(q));
    proof {
        assert forall|i: int| 0 <= i < f.blocks.len() implies (#[trigger] f.blocks@[i]).id == i by {
            assert(block_substituted(mid[i], f.blocks@[i], p.orig, Val::Reg(q)));
        }
    }
}


/// What the pass needs of the loop analysis: every loop's header, body and
/// latches name blocks of `f`; each immediate dominator is a block or
/// `NONE`; every latch lies in its loop's body; `preds` lists the
/// predecessors of each block.
pub open spec fn analysis_fits(f: IrFunc, loops: LoopForest, idom: Seq<BlockId>, preds: Seq<Vec<BlockId>>) -> bool {
    &&& idom.len() == f.blocks.len()
    &&& preds.len() == f.blocks.len()
    &&& forall|i: int| 0 <= i < idom.len() ==> #[trigger] idom[i] == NONE || idom[i] < f.blocks.len()
    &&& forall|i: int|
        0 <= i < loops.loops.len() ==> {
            let l = #[trigger] loops.loops@[i];
            &&& l.header < f.blocks.len()
            &&& forall|t: int| 0 <= t < l.body.len() ==> #[trigger] l.body@[t] < f.blocks.len()
            &&& forall|t: int| 0 <= t < l.latches.len() ==> l.body@.contains(#[trigger] l.latches@[t])
        }
}

/// Plan `p` is a strength-reduction site of `f` for the loop `l`, through
/// the header phi `ph` and the instruction `j` of the body block `t`: the
/// loop has a single latch; its header's immediate dominator (the
/// preheader) lies outside it; the header has exactly the preheader and the
/// latch as predecessors; the phi `k` is entered as `k0` from the preheader
/// and as `knext` from the latch, and the first instruction of the body
/// that computes `knext = k + c` fixes the step `c`; and that body
/// instruction is `orig = PtrAdd(base, k, stride)` with `base` invariant.
#[verifier::opaque]
pub open spec fn loop_site(
    f: IrFunc,
    l: LoopInfo,
    idom: Seq<BlockId>,
    preds: Seq<Vec<BlockId>>,
    def: Seq<BlockId>,
    p: Plan,
    ph: int,
    t: int,
    j: int,
) -> bool {
    let phi = f.blocks@[p.header as int].phis@[ph];
    let hp = preds[p.header as int]@;
    &&& l.latches.len() == 1
    &&& p.header == l.header
    &&& p.latch == l.latches@[0]
    &&& p.preheader == idom[p.header as int]
    &&& p.preheader != NONE
    &&& !l.body@.contains(p.preheader)
    &&& hp.len() == 2 && hp.contains(p.preheader) && hp.contains(p.latch)
    &&& 0 <= ph < f.blocks@[p.header as int].phis.len()
    &&& first_arg_from(phi, p.preheader) == Some(p.k0)
    &&& first_arg_from(phi, p.latch) matches Some(Val::Reg(knext)) && first_step(f.blocks@, l.body@, knext, phi.dst)
        == Some(p.c)
    &&& 0 <= t < l.body.len()
    &&& 0 <= j < f.blocks@[l.body@[t] as int].insts.len()
    &&& f.blocks@[l.body@[t] as int].insts@[j] == (IrInst::PtrAdd {
        dst: p.orig,
        base: p.base,
        index: Val::Reg(phi.dst),
        stride: p.stride,
    })
    &&& val_invariant(p.base, def, l.body@)
}

/// Plan `p` is a strength-reduction site of `f` for one of `loops` (see
/// `loop_site`).
pub open spec fn site(
    f: IrFunc,
    loops: LoopForest,
    idom: Seq<BlockId>,
    preds: Seq<Vec<BlockId>>,
    def: Seq<BlockId>,
    p: Plan,
) -> bool {
    exists|li: int, ph: int, t: int, j: int|
        0 <= li < loops.loops.len() && #[trigger] loop_site(f, loops.loops@[li], idom, preds, def, p, ph, t, j)
}

proof fn lemma_first_arg(phi: Phi, pred: BlockId, v: Val, i: int)
    requires
        0 <= i < phi.args.len(),
        phi.args@[i] == (pred, v),
        forall|j: int| 0 <= j < i ==> (#[trigger] phi.args@[j]).0 != pred,
    ensures
        first_arg_from(phi, pred) == Some(v),
{
    let k = choose|k: int|
        0 <= k < phi.args.len() && (#[trigger] phi.args@[k]).0 == pred && forall|j: int|
            0 <= j < k ==> phi.args@[j].0 != pred;
    if k < i {
        assert(phi.args@[k].0 != pred);
    } else if i < k {
        assert(phi.args@[i].0 != pred);
    }
}

/// Whether `v` lists `b`.
fn lists(v: &Vec<BlockId>, b: BlockId) -> (r: bool)
    ensures
        r == v@.contains(b),
{
    let mut i: usize = 0;
    while i < v.len()
        invariant
            i <= v.len(),
            forall|k: int| 0 <= k < i ==> v@[k] != b,
        decreases v.len() - i,
    {
        if v[i] == b {
            proof {
                assert(v@[i as int] == b);
            }
            return true;
        }
        i += 1;
    }
    false
}

proof fn lemma_no_arg(phi: Phi, pred: BlockId)
    requires
        forall|i: int| 0 <= i < phi.args.len() ==> (#[trigger] phi.args@[i]).0 != pred,
    ensures
        first_arg_from(phi, pred) is None,
{
}

/// The `PtrAdd`s of block `b` indexed by `k` over an invariant base, as
/// `(dst, base, stride)`: each of them, and nothing else.
fn scan_block(f: &IrFunc, b: usize, k: Vreg, def: &Vec<BlockId>, body: &Vec<BlockId>) -> (r: Vec<(Vreg, Val, u32)>)
    requires
        b < f.blocks.len(),
        def.len() == f.n_vregs,
        crate::licm::insts_ok(*f),
    ensures
        forall|m: int|
            0 <= m < r.len() ==> {
                let (o, base, st) = #[trigger] r@[m];
                &&& val_invariant(base, def@, body@)
                &&& exists|j: int|
                    0 <= j < f.blocks@[b as int].insts.len() && f.blocks@[b as int].insts@[j] == (IrInst::PtrAdd {
                        dst: o,
                        base,
                        index: Val::Reg(k),
                        stride: st,
                    })
            },
        forall|j: int, o: Vreg, base: Val, st: u32|
            #![trigger f.blocks@[b as int].insts@[j], r@.contains((o, base, st))]
            0 <= j < f.blocks@[b as int].insts.len() && f.blocks@[b as int].insts@[j] == (IrInst::PtrAdd {
                dst: o,
                base,
                index: Val::Reg(k),
                stride: st,
            }) && val_invariant(base, def@, body@) ==> r@.contains((o, base, st)),
{
    let blk = &f.blocks[b];
    let mut out: Vec<(Vreg, Val, u32)> = Vec::new();
    let mut j: usize = 0;
    while j < blk.insts.len()
        invariant
            j <= blk.insts.len(),
            b < f.blocks.len(),
            blk == f.blocks@[b as int],
            def.len() == f.n_vregs,
            crate::licm::insts_ok(*f),
            forall|m: int|
                0 <= m < out.len() ==> {
                    let (o, base, st) = #[trigger] out@[m];
                    &&& val_invariant(base, def@, body@)
                    &&& exists|jj: int|
                        0 <= jj < blk.insts.len() && blk.insts@[jj] == (IrInst::PtrAdd {
                            dst: o,
                            base,
                            index: Val::Reg(k),
                            stride: st,
                        })
                },
            forall|jj: int, o: Vreg, base: Val, st: u32|
                #![trigger blk.insts@[jj], out@.contains((o, base, st))]
                0 <= jj < j && blk.insts@[jj] == (IrInst::PtrAdd { dst: o, base, index: Val::Reg(k), stride: st })
                    && val_invariant(base, def@, body@) ==> out@.contains((o, base, st)),
        decreases blk.insts.len() - j,
    {
        let ghost before = out@;
        if let IrInst::PtrAdd { dst, base, index: Val::Reg(idx), stride } = &blk.insts[j] {
            proof {
                assert(crate::licm::inst_ok(f.blocks@[b as int].insts@[j as int], f.n_vregs));
                if let Val::Reg(x) = *base {
                    assert(crate::liveness::inst_uses(blk.insts@[j as int])[0] == x);
                }
            }
            if *idx == k && is_invariant(*base, def, body) {
                out.push((*dst, *base, *stride));
                proof {
                    assert(blk.insts@[j as int] == (IrInst::PtrAdd { dst: *dst, base: *base, index: Val::Reg(k), stride: *stride }));
                    assert(out@[out.len() - 1] == (*dst, *base, *stride));
                }
            }
        }
        proof {
            assert forall|jj: int, o: Vreg, base: Val, st: u32|
                #![trigger blk.insts@[jj], out@.contains((o, base, st))]
                0 <= jj < j + 1 && blk.insts@[jj] == (IrInst::PtrAdd { dst: o, base, index: Val::Reg(k), stride: st })
                    && val_invariant(base, def@, body@) implies out@.contains((o, base, st)) by {
                if jj < j {
                    assert(before.contains((o, base, st)));
                    let m = choose|m: int| 0 <= m < before.len() && before[m] == (o, base, st);
                    assert(out@[m] == before[m]);
                } else {
                    assert(out@[out.len() - 1] == (o, base, st));
                }
            }
        }
        j += 1;
    }
    out
}

/// The loop-level conditions of `loop_site` for the loop `l`.
pub open spec fn loop_shape(
    f: IrFunc,
    l: LoopInfo,
    idom: Seq<BlockId>,
    preds: Seq<Vec<BlockId>>,
) -> bool {
    let hp = preds[l.header as int]@;
    let preheader = idom[l.header as int];
    &&& l.latches.len() == 1
    &&& preheader != NONE
    &&& !l.body@.contains(preheader)
    &&& hp.len() == 2 && hp.contains(preheader) && hp.contains(l.latches@[0])
}

/// `out` grew by plans only, keeping what it held.
pub open spec fn grew(old_out: Seq<Plan>, new_out: Seq<Plan>) -> bool {
    new_out.len() >= old_out.len() && new_out.take(old_out.len() as int) == old_out
}

proof fn lemma_grew_contains(a: Seq<Plan>, b: Seq<Plan>, p: Plan)
    requires
        grew(a, b),
        a.contains(p),
    ensures
        b.contains(p),
{
    let m = choose|m: int| 0 <= m < a.len() && a[m] == p;
    assert(b.take(a.len() as int)[m] == b[m]);
}

/// The plan for the `PtrAdd` at `j` in the body block `t`, which indexes by
/// `k`, with the phi-level fields given.
pub open spec fn made_at(
    f: IrFunc,
    body: Seq<BlockId>,
    def: Seq<BlockId>,
    p: Plan,
    t: int,
    j: int,
    k: Vreg,
    k0: Val,
    c: i64,
    header: BlockId,
    preheader: BlockId,
    latch: BlockId,
) -> bool {
    &&& 0 <= t < body.len()
    &&& 0 <= j < f.blocks@[body[t] as int].insts.len()
    &&& f.blocks@[body[t] as int].insts@[j] == (IrInst::PtrAdd {
        dst: p.orig,
        base: p.base,
        index: Val::Reg(k),
        stride: p.stride,
    })
    &&& val_invariant(p.base, def, body)
    &&& p.k0 == k0 && p.c == c && p.header == header && p.preheader == preheader && p.latch == latch
}

/// `p` is the plan for some `PtrAdd` of the body block `t` (see `made_at`).
pub open spec fn made_in(
    f: IrFunc,
    body: Seq<BlockId>,
    def: Seq<BlockId>,
    p: Plan,
    t: int,
    k: Vreg,
    k0: Val,
    c: i64,
    header: BlockId,
    preheader: BlockId,
    latch: BlockId,
) -> bool {
    exists|j: int| #[trigger] made_at(f, body, def, p, t, j, k, k0, c, header, preheader, latch)
}

/// `p` is the plan for some `PtrAdd` of the body (see `made_at`).
pub open spec fn made_any(
    f: IrFunc,
    body: Seq<BlockId>,
    def: Seq<BlockId>,
    p: Plan,
    k: Vreg,
    k0: Val,
    c: i64,
    header: BlockId,
    preheader: BlockId,
    latch: BlockId,
) -> bool {
    exists|t: int, j: int| #[trigger] made_at(f, body, def, p, t, j, k, k0, c, header, preheader, latch)
}

/// `p` is a site of the loop `l` through the phi `ph`.
pub open spec fn site_via(
    f: IrFunc,
    l: LoopInfo,
    idom: Seq<BlockId>,
    preds: Seq<Vec<BlockId>>,
    def: Seq<BlockId>,
    p: Plan,
    ph: int,
) -> bool {
    exists|t: int, j: int| #[trigger] loop_site(f, l, idom, preds, def, p, ph, t, j)
}

/// `p` is a site of the loop `l`.
pub open spec fn site_of(f: IrFunc, l: LoopInfo, idom: Seq<BlockId>, preds: Seq<Vec<BlockId>>, def: Seq<BlockId>, p: Plan) -> bool {
    exists|ph: int, t: int, j: int| #[trigger] loop_site(f, l, idom, preds, def, p, ph, t, j)
}

/// Appends the plans for the `PtrAdd`s of the body block `t` indexed by `k`
/// over an invariant base.
fn block_plans(
    f: &IrFunc,
    body: &Vec<BlockId>,
    def: &Vec<BlockId>,
    t: usize,
    k: Vreg,
    k0: Val,
    c: i64,
    header: BlockId,
    preheader: BlockId,
    latch: BlockId,
    out: &mut Vec<Plan>,
)
    requires
        t < body.len(),
        body@[t as int] < f.blocks.len(),
        def.len() == f.n_vregs,
        crate::licm::insts_ok(*f),
    ensures
        grew(old(out)@, final(out)@),
        forall|i: int|
            old(out).len() <= i < final(out).len() ==> made_in(*f, body@, def@, #[trigger] final(out)@[i], t as int, k, k0, c, header, preheader, latch),
        forall|p: Plan, j: int|
            #[trigger] made_at(*f, body@, def@, p, t as int, j, k, k0, c, header, preheader, latch) ==> final(out)@.contains(p),
{
    let bidx = body[t] as usize;
    let found = scan_block(f, bidx, k, def, body);
    let ghost out0 = out@;
    proof {
        assert(out@.take(out@.len() as int) =~= out@);
    }
    let mut q: usize = 0;
    while q < found.len()
        invariant
            q <= found.len(),
            t < body.len(),
            bidx == body@[t as int],
            bidx < f.blocks.len(),
            forall|m: int|
                0 <= m < found.len() ==> {
                    let (o, base, st) = #[trigger] found@[m];
                    &&& val_invariant(base, def@, body@)
                    &&& exists|j: int|
                        0 <= j < f.blocks@[bidx as int].insts.len() && f.blocks@[bidx as int].insts@[j]
                            == (IrInst::PtrAdd { dst: o, base, index: Val::Reg(k), stride: st })
                },
            out0 == old(out)@,
            grew(out0, out@),
            forall|i: int|
                out0.len() <= i < out.len() ==> made_in(*f, body@, def@, #[trigger] out@[i], t as int, k, k0, c, header, preheader, latch),
            forall|m: int|
                0 <= m < q ==> out@.contains(
                    Plan {
                        orig: (#[trigger] found@[m]).0,
                        base: found@[m].1,
                        k0,
                        c,
                        stride: found@[m].2,
                        header,
                        preheader,
                        latch,
                    },
                ),
        decreases found.len() - q,
    {
        let (orig, base, stride) = found[q];
        let plan = Plan { orig, base, k0, c, stride, header, preheader, latch };
        let ghost before = out@;
        out.push(plan);
        proof {
            assert(out@.take(before.len() as int) =~= before);
            assert(out@.take(out0.len() as int) =~= before.take(out0.len() as int));
            assert(out@[out.len() - 1] == plan);
            assert forall|m: int| 0 <= m < q + 1 implies out@.contains(
                Plan {
                    orig: (#[trigger] found@[m]).0,
                    base: found@[m].1,
                    k0,
                    c,
                    stride: found@[m].2,
                    header,
                    preheader,
                    latch,
                },
            ) by {
                if m < q {
                    lemma_grew_contains(before, out@, Plan {
                        orig: found@[m].0,
                        base: found@[m].1,
                        k0,
                        c,
                        stride: found@[m].2,
                        header,
                        preheader,
                        latch,
                    });
                }
            }
            assert forall|i: int| out0.len() <= i < out.len() implies made_in(*f, body@, def@, #[trigger] out@[i], t as int, k, k0, c, header, preheader, latch) by {
                if i < before.len() {
                    assert(out@[i] == before[i]);
                } else {
                    assert(found@[q as int] == (orig, base, stride));
                    let j = choose|j: int|
                        0 <= j < f.blocks@[bidx as int].insts.len() && f.blocks@[bidx as int].insts@[j]
                            == (IrInst::PtrAdd { dst: orig, base, index: Val::Reg(k), stride });
                    assert(made_at(*f, body@, def@, out@[i], t as int, j, k, k0, c, header, preheader, latch));
                }
            }
        }
        q += 1;
    }
    proof {
        assert forall|p: Plan, j: int| #[trigger] made_at(*f, body@, def@, p, t as int, j, k, k0, c, header, preheader, latch)
            implies out@.contains(p) by {
            assert(f.blocks@[bidx as int].insts@[j] == (IrInst::PtrAdd {
                dst: p.orig,
                base: p.base,
                index: Val::Reg(k),
                stride: p.stride,
            }));
            assert(found@.contains((p.orig, p.base, p.stride)));
            let m = choose|m: int| 0 <= m < found.len() && found@[m] == (p.orig, p.base, p.stride);
            assert(p == Plan {
                orig: found@[m].0,
                base: found@[m].1,
                k0,
                c,
                stride: found@[m].2,
                header,
                preheader,
                latch,
            });
        }
    }
}

/// Under the loop- and phi-level conditions, a site of `l` through the phi
/// `ph` is the plan for one of the body's `PtrAdd`s.
proof fn lemma_loop_site_made(
    f: IrFunc,
    l: LoopInfo,
    idom: Seq<BlockId>,
    preds: Seq<Vec<BlockId>>,
    def: Seq<BlockId>,
    ph: int,
    k0: Val,
    knext: Vreg,
    c: i64,
)
    requires
        loop_shape(f, l, idom, preds),
        0 <= ph < f.blocks@[l.header as int].phis.len(),
        first_arg_from(f.blocks@[l.header as int].phis@[ph], idom[l.header as int]) == Some(k0),
        first_arg_from(f.blocks@[l.header as int].phis@[ph], l.latches@[0]) == Some(Val::Reg(knext)),
        first_step(f.blocks@, l.body@, knext, f.blocks@[l.header as int].phis@[ph].dst) == Some(c),
    ensures
        forall|p: Plan, t: int, j: int|
            #[trigger] loop_site(f, l, idom, preds, def, p, ph, t, j) <==> made_at(
                f,
                l.body@,
                def,
                p,
                t,
                j,
                f.blocks@[l.header as int].phis@[ph].dst,
                k0,
                c,
                l.header,
                idom[l.header as int],
                l.latches@[0],
            ),
{
    reveal(loop_site);
}

/// Appends the strength-reduction sites of `l` through the header phi `ph`.
fn phi_plans(
    f: &IrFunc,
    l: &LoopInfo,
    idom: &Vec<BlockId>,
    preds: &Vec<Vec<BlockId>>,
    def: &Vec<BlockId>,
    ph: usize,
    out: &mut Vec<Plan>,
)
    requires
        idom.len() == f.blocks.len(),
        preds.len() == f.blocks.len(),
        l.header < f.blocks.len(),
        forall|t: int| 0 <= t < l.body.len() ==> #[trigger] l.body@[t] < f.blocks.len(),
        loop_shape(*f, *l, idom@, preds@),
        ph < f.blocks@[l.header as int].phis.len(),
        def.len() == f.n_vregs,
        crate::licm::insts_ok(*f),
    ensures
        grew(old(out)@, final(out)@),
        forall|i: int|
            old(out).len() <= i < final(out).len() ==> site_via(*f, *l, idom@, preds@, def@, #[trigger] final(out)@[i], ph as int),
        forall|p: Plan, t: int, j: int|
            #[trigger] loop_site(*f, *l, idom@, preds@, def@, p, ph as int, t, j) ==> final(out)@.contains(p),
{
    let header = l.header;
    let latch = l.latches[0];
    let preheader = idom[header as usize];
    let phi = &f.blocks[header as usize].phis[ph];
    let a0 = phi_arg(phi, preheader);
    let a1 = phi_arg(phi, latch);
    proof {
        assert(out@.take(out@.len() as int) =~= out@);
        match a0 {
            Some(k0) => {
                let i0 = choose|i: int|
                    0 <= i < phi.args.len() && phi.args@[i] == (preheader, k0) && forall|j: int|
                        0 <= j < i ==> (#[trigger] phi.args@[j]).0 != preheader;
                lemma_first_arg(*phi, preheader, k0, i0);
            },
            None => lemma_no_arg(*phi, preheader),
        }
        match a1 {
            Some(v1) => {
                let i1 = choose|i: int|
                    0 <= i < phi.args.len() && phi.args@[i] == (latch, v1) && forall|j: int|
                        0 <= j < i ==> (#[trigger] phi.args@[j]).0 != latch;
                lemma_first_arg(*phi, latch, v1, i1);
            },
            None => lemma_no_arg(*phi, latch),
        }
    }
    if let (Some(k0), Some(Val::Reg(knext))) = (a0, a1) {
        if let Some(c) = iv_step(f, &l.body, knext, phi.dst) {
            let k = phi.dst;
            let ghost out0 = out@;
            let mut t: usize = 0;
            while t < l.body.len()
                invariant
                    t <= l.body.len(),
                    forall|u: int| 0 <= u < l.body.len() ==> #[trigger] l.body@[u] < f.blocks.len(),
                    def.len() == f.n_vregs,
                    crate::licm::insts_ok(*f),
                    grew(out0, out@),
                    out0 == old(out)@,
                    forall|i: int|
                        out0.len() <= i < out.len() ==> made_any(*f, l.body@, def@, #[trigger] out@[i], k, k0, c, header, preheader, latch),
                    forall|p: Plan, t2: int, j: int|
                        t2 < t && #[trigger] made_at(*f, l.body@, def@, p, t2, j, k, k0, c, header, preheader, latch)
                            ==> out@.contains(p),
                decreases l.body.len() - t,
            {
                let ghost before = out@;
                block_plans(f, &l.body, def, t, k, k0, c, header, preheader, latch, out);
                proof {
                    assert(out@.take(out0.len() as int) =~= out@.take(before.len() as int).take(out0.len() as int));
                    assert forall|i: int| out0.len() <= i < out.len() implies made_any(*f, l.body@, def@, #[trigger] out@[i], k, k0, c, header, preheader, latch) by {
                        if i < before.len() {
                            assert(out@.take(before.len() as int)[i] == out@[i]);
                            assert(before[i] == out@[i]);
                        } else {
                            assert(made_in(*f, l.body@, def@, out@[i], t as int, k, k0, c, header, preheader, latch));
                            let j = choose|j: int|
                                #[trigger] made_at(*f, l.body@, def@, out@[i], t as int, j, k, k0, c, header, preheader, latch);
                        }
                    }
                    assert forall|p: Plan, t2: int, j: int|
                        t2 < t + 1 && #[trigger] made_at(*f, l.body@, def@, p, t2, j, k, k0, c, header, preheader, latch)
                            implies out@.contains(p) by {
                        if t2 < t {
                            lemma_grew_contains(before, out@, p);
                        }
                    }
                }
                t += 1;
            }
            proof {
                lemma_loop_site_made(*f, *l, idom@, preds@, def@, ph as int, k0, knext, c);
                assert forall|i: int| old(out).len() <= i < out.len() implies site_via(*f, *l, idom@, preds@, def@, #[trigger] out@[i], ph as int) by {
                    assert(made_any(*f, l.body@, def@, out@[i], k, k0, c, header, preheader, latch));
                    let (t2, j) = choose|t2: int, j: int|
                        #[trigger] made_at(*f, l.body@, def@, out@[i], t2, j, k, k0, c, header, preheader, latch);
                    assert(loop_site(*f, *l, idom@, preds@, def@, out@[i], ph as int, t2, j));
                }
                assert forall|p: Plan, t2: int, j: int| #[trigger] loop_site(*f, *l, idom@, preds@, def@, p, ph as int, t2, j)
                    implies out@.contains(p) by {
                    assert(made_at(*f, l.body@, def@, p, t2, j, k, k0, c, header, preheader, latch));
                    if !(t2 < l.body.len()) {
                    }
                }
            }
        } else {
            proof {
                assert forall|p: Plan, t: int, j: int| #[trigger] loop_site(*f, *l, idom@, preds@, def@, p, ph as int, t, j)
                    implies out@.contains(p) by {
                    reveal(loop_site);
                    assert(first_step(f.blocks@, l.body@, knext, phi.dst) is None);
                }
            }
        }
    } else {
        proof {
            assert forall|p: Plan, t: int, j: int| #[trigger] loop_site(*f, *l, idom@, preds@, def@, p, ph as int, t, j)
                implies out@.contains(p) by {
                reveal(loop_site);
                assert(p.header == header && p.preheader == preheader && p.latch == latch);
                assert(f.blocks@[p.header as int].phis@[ph as int] == *phi);
            }
        }
    }
}

/// Appends the strength-reduction sites of the loop `l`.
fn loop_plans(
    f: &IrFunc,
    l: &LoopInfo,
    idom: &Vec<BlockId>,
    preds: &Vec<Vec<BlockId>>,
    def: &Vec<BlockId>,
    out: &mut Vec<Plan>,
)
    requires
        idom.len() == f.blocks.len(),
        preds.len() == f.blocks.len(),
        forall|i: int| 0 <= i < idom.len() ==> #[trigger] idom@[i] == NONE || idom@[i] < f.blocks.len(),
        l.header < f.blocks.len(),
        forall|t: int| 0 <= t < l.body.len() ==> #[trigger] l.body@[t] < f.blocks.len(),
        def.len() == f.n_vregs,
        crate::licm::insts_ok(*f),
    ensures
        grew(old(out)@, final(out)@),
        forall|i: int|
            old(out).len() <= i < final(out).len() ==> site_of(*f, *l, idom@, preds@, def@, #[trigger] final(out)@[i]),
        forall|p: Plan, ph: int, t: int, j: int|
            #[trigger] loop_site(*f, *l, idom@, preds@, def@, p, ph, t, j) ==> final(out)@.contains(p),
{
    proof {
        assert(out@.take(out@.len() as int) =~= out@);
        reveal(loop_site);
    }
    if l.latches.len() != 1 {
        return;
    }
    let header = l.header;
    let latch = l.latches[0];
    let preheader = idom[header as usize];
    if preheader == NONE || lists(&l.body, preheader) {
        return;
    }
    let hp = &preds[header as usize];
    if !(hp.len() == 2 && lists(hp, preheader) && lists(hp, latch)) {
        return;
    }
    let ghost out0 = out@;
    let nph = f.blocks[header as usize].phis.len();
    let mut ph: usize = 0;
    while ph < nph
        invariant
            ph <= nph,
            nph == f.blocks@[l.header as int].phis.len(),
            header == l.header,
            idom.len() == f.blocks.len(),
            preds.len() == f.blocks.len(),
            l.header < f.blocks.len(),
            forall|t: int| 0 <= t < l.body.len() ==> #[trigger] l.body@[t] < f.blocks.len(),
            loop_shape(*f, *l, idom@, preds@),
            def.len() == f.n_vregs,
            crate::licm::insts_ok(*f),
            out0 == old(out)@,
            grew(out0, out@),
            forall|i: int|
                out0.len() <= i < out.len() ==> site_of(*f, *l, idom@, preds@, def@, #[trigger] out@[i]),
            forall|p: Plan, ph2: int, t: int, j: int|
                ph2 < ph && #[trigger] loop_site(*f, *l, idom@, preds@, def@, p, ph2, t, j) ==> out@.contains(p),
        decreases nph - ph,
    {
        let ghost before = out@;
        phi_plans(f, l, idom, preds, def, ph, out);
        proof {
            assert(out@.take(out0.len() as int) =~= out@.take(before.len() as int).take(out0.len() as int));
            assert forall|i: int| out0.len() <= i < out.len() implies site_of(*f, *l, idom@, preds@, def@, #[trigger] out@[i]) by {
                if i < before.len() {
                    assert(out@.take(before.len() as int)[i] == out@[i]);
                    assert(before[i] == out@[i]);
                } else {
                    assert(site_via(*f, *l, idom@, preds@, def@, out@[i], ph as int));
                    let (t, j) = choose|t: int, j: int| #[trigger] loop_site(*f, *l, idom@, preds@, def@, out@[i], ph as int, t, j);
                }
            }
            assert forall|p: Plan, ph2: int, t: int, j: int|
                ph2 < ph + 1 && #[trigger] loop_site(*f, *l, idom@, preds@, def@, p, ph2, t, j) implies out@.contains(p) by {
                if ph2 < ph {
                    lemma_grew_contains(before, out@, p);
                }
            }
        }
        ph += 1;
    }
}

/// The strength-reduction sites of `f`: each listed plan is a site, and
/// every site is listed.
fn find_plans(
    f: &IrFunc,
    loops: &LoopForest,
    idom: &Vec<BlockId>,
    preds: &Vec<Vec<BlockId>>,
    def: &Vec<BlockId>,
) -> (r: Vec<Plan>)
    requires
        analysis_fits(*f, *loops, idom@, preds@),
        def.len() == f.n_vregs,
        crate::licm::insts_ok(*f),
    ensures
        forall|i: int| 0 <= i < r.len() ==> site(*f, *loops, idom@, preds@, def@, #[trigger] r@[i]),
        forall|p: Plan| site(*f, *loops, idom@, preds@, def@, p) ==> #[trigger] r@.contains(p),
{
    let mut plans: Vec<Plan> = Vec::new();
    let mut li: usize = 0;
    while li < loops.loops.len()
        invariant
            li <= loops.loops.len(),
            analysis_fits(*f, *loops, idom@, preds@),
            def.len() == f.n_vregs,
            crate::licm::insts_ok(*f),
            forall|i: int| 0 <= i < plans.len() ==> site(*f, *loops, idom@, preds@, def@, #[trigger] plans@[i]),
            forall|p: Plan, l2: int, ph: int, t: int, j: int|
                0 <= l2 < li && #[trigger] loop_site(*f, loops.loops@[l2], idom@, preds@, def@, p, ph, t, j)
                    ==> plans@.contains(p),
        decreases loops.loops.len() - li,
    {
        let l = &loops.loops[li];
        let ghost before = plans@;
        proof {
            assert(loops.loops@[li as int] == *l);
        }
        loop_plans(f, l, idom, preds, def, &mut plans);
        proof {
            assert forall|i: int| 0 <= i < plans.len() implies site(*f, *loops, idom@, preds@, def@, #[trigger] plans@[i]) by {
                if i < before.len() {
                    assert(plans@.take(before.len() as int)[i] == plans@[i]);
                } else {
                    assert(site_of(*f, *l, idom@, preds@, def@, plans@[i]));
                    let (ph, t, j) = choose|ph: int, t: int, j: int|
                        #[trigger] loop_site(*f, *l, idom@, preds@, def@, plans@[i], ph, t, j);
                    assert(loop_site(*f, loops.loops@[li as int], idom@, preds@, def@, plans@[i], ph, t, j));
                }
            }
            assert forall|p: Plan, l2: int, ph: int, t: int, j: int|
                0 <= l2 < li + 1 && #[trigger] loop_site(*f, loops.loops@[l2], idom@, preds@, def@, p, ph, t, j)
                    implies plans@.contains(p) by {
                if l2 < li {
                    lemma_grew_contains(before, plans@, p);
                }
            }
        }
        li += 1;
    }
    proof {
        assert forall|p: Plan| site(*f, *loops, idom@, preds@, def@, p) implies #[trigger] plans@.contains(p) by {
            let (l2, ph, t, j) = choose|l2: int, ph: int, t: int, j: int|
                0 <= l2 < loops.loops.len() && #[trigger] loop_site(*f, loops.loops@[l2], idom@, preds@, def@, p, ph, t, j);
        }
    }
    plans
}

/// Some plan of `plans` replaces the `PtrAdd` that defines `v`.
pub open spec fn reduces(plans: Seq<Plan>, v: Vreg) -> bool {
    exists|i: int| 0 <= i < plans.len() && (#[trigger] plans[i]).orig == v
}

/// The base of `p` is not the result of a `PtrAdd` that one of `plans`
/// replaces.
pub open spec fn stable_base(plans: Seq<Plan>, p: Plan) -> bool {
    !(p.base matches Val::Reg(r) && reduces(plans, r))
}

/// The plans of `plans` whose base is stable, in their order.
pub open spec fn stable_plans(plans: Seq<Plan>) -> Seq<Plan> {
    plans.filter(|p: Plan| stable_base(plans, p))
}

/// Drops the plans whose base is another plan's reduced `PtrAdd` (a chained
/// access `a[i][j]` over two induction variables): the inner one still
/// reduces, and the outer keeps reading the inner's derived variable.
fn keep_stable(plans: Vec<Plan>) -> (r: Vec<Plan>)
    ensures
        r@ == stable_plans(plans@),
{
    let ghost all = plans@;
    let ghost pred = |p: Plan| stable_base(all, p);
    let mut kept: Vec<Plan> = Vec::new();
    let mut i: usize = 0;
    while i < plans.len()
        invariant
            i <= plans.len(),
            plans@ == all,
            pred == (|p: Plan| stable_base(all, p)),
            kept@ == all.take(i as int).filter(pred),
        decreases plans.len() - i,
    {
        let p = plans[i];
        let mut stable = true;
        if let Val::Reg(r) = p.base {
            let mut j: usize = 0;
            while j < plans.len()
                invariant
                    j <= plans.len(),
                    plans@ == all,
                    p.base == Val::Reg(r),
                    stable == forall|k: int| 0 <= k < j ==> all[k].orig != r,
                decreases plans.len() - j,
            {
                if plans[j].orig == r {
                    stable = false;
                }
                j += 1;
            }
        }
        proof {
            assert(all.take(i + 1).drop_last() =~= all.take(i as int));
            assert(all.take(i + 1).last() == p);
            reveal_with_fuel(Seq::filter, 1);
            assert(stable == pred(p));
        }
        if stable {
            kept.push(p);
        }
        i += 1;
    }
    proof {
        assert(all.take(all.len() as int) =~= all);
    }
    kept
}

/// A site of `f` names blocks of `f`, two distinct ones for the preheader
/// and the latch, and replaces a vreg of `f`.
#[verifier::spinoff_prover]
#[verifier::rlimit(40)]
proof fn lemma_site_fits(
    f: IrFunc,
    loops: LoopForest,
    idom: Seq<BlockId>,
    preds: Seq<Vec<BlockId>>,
    def: Seq<BlockId>,
    p: Plan,
)
    requires
        site(f, loops, idom, preds, def, p),
        analysis_fits(f, loops, idom, preds),
        crate::licm::insts_ok(f),
    ensures
        p.header < f.blocks.len(),
        p.preheader < f.blocks.len(),
        p.latch < f.blocks.len(),
        p.preheader != p.latch,
        p.orig < f.n_vregs,
{
    let (li, ph, t, j) = choose|li: int, ph: int, t: int, j: int|
        0 <= li < loops.loops.len() && #[trigger] loop_site(f, loops.loops@[li], idom, preds, def, p, ph, t, j);
    reveal(loop_site);
    let l = loops.loops@[li];
    assert(l.body@.contains(l.latches@[0]));
    let w = choose|w: int| 0 <= w < l.body.len() && l.body@[w] == p.latch;
    assert(l.body@[w] < f.blocks.len());
    assert(p.preheader == idom[p.header as int]);
    assert(l.body@[t] < f.blocks.len());
    assert(crate::licm::inst_ok(f.blocks@[l.body@[t] as int].insts@[j], f.n_vregs));
}

/// `b` is `a` with `plans` applied one after another, in their order.
pub open spec fn applied_all(a: IrFunc, b: IrFunc, plans: Seq<Plan>) -> bool
    decreases plans.len(),
{
    if plans.len() == 0 {
        b == a
    } else {
        exists|mid: IrFunc| applied_all(a, mid, plans.drop_last()) && #[trigger] applied(mid, b, plans.last())
    }
}

/// Induction-variable strength reduction over one function, given its loop
/// analysis (`loops`, each block's immediate dominator `idom` and its
/// predecessors `preds`): the strength-reduction sites of `f` whose base is
/// stable are applied in turn. A plan is applied only while three fresh
/// vregs still fit in the vreg range; the ones after it are left out.
pub fn run_func(f: &mut IrFunc, loops: &LoopForest, idom: &Vec<BlockId>, preds: &Vec<Vec<BlockId>>)
    requires
        defs_in_range(*old(f)),
        crate::licm::insts_ok(*old(f)),
        ids_are_indices(*old(f)),
        analysis_fits(*old(f), *loops, idom@, preds@),
    ensures
        exists|all: Seq<Plan>, n: int|
            {
                &&& forall|p: Plan| site(*old(f), *loops, idom@, preds@, def_seq(*old(f)), p) <==> #[trigger] all.contains(p)
                &&& 0 <= n <= stable_plans(all).len()
                &&& applied_all(*old(f), *final(f), stable_plans(all).take(n))
                &&& n < stable_plans(all).len() ==> final(f).n_vregs > u32::MAX - 3
            },
        final(f).n_vregs >= old(f).n_vregs,
{
    let ghost f0 = *f;
    let def = def_blocks(f);
    proof {
        assert(def@ =~= def_seq(f0));
    }
    let found = find_plans(f, loops, idom, preds, &def);
    let ghost all = found@;
    let plans = keep_stable(found);
    proof {
        lemma_stable_sites(f0, *loops, idom@, preds@, def@, all);
        assert(plans@.take(0) =~= seq![]);
        assert(f0.n_vregs == f.n_vregs);
    }
    let mut n: usize = 0;
    while n < plans.len() && f.n_vregs <= u32::MAX - 3
        invariant
            n <= plans.len(),
            f0.blocks.len() == f.blocks.len(),
            f.n_vregs >= f0.n_vregs,
            ids_are_indices(*f),
            analysis_fits(f0, *loops, idom@, preds@),
            crate::licm::insts_ok(f0),
            def@ == def_seq(f0),
            applied_all(f0, *f, plans@.take(n as int)),
            plans@ == stable_plans(all),
            forall|i: int|
                0 <= i < plans.len() ==> site(f0, *loops, idom@, preds@, def@, #[trigger] plans@[i])
                    && stable_base(all, plans@[i]) && all.contains(plans@[i]),
        decreases plans.len() - n,
    {
        let p = plans[n];
        proof {
            lemma_site_fits(f0, *loops, idom@, preds@, def@, p);
        }
        let ghost before = *f;
        apply(f, p);
        proof {
            let s = plans@.take(n + 1);
            assert(s.drop_last() =~= plans@.take(n as int));
            assert(s.last() == p);
            assert(applied_all(f0, before, s.drop_last()));
            assert(applied(before, *f, s.last()));
        }
        n += 1;
    }
    proof {
        assert(forall|p: Plan| site(f0, *loops, idom@, preds@, def_seq(f0), p) <==> #[trigger] all.contains(p)) by {
            assert forall|p: Plan| #[trigger] all.contains(p) implies site(f0, *loops, idom@, preds@, def_seq(f0), p) by {
                let k = choose|k: int| 0 <= k < all.len() && all[k] == p;
                assert(site(f0, *loops, idom@, preds@, def@, all[k]));
            }
        }
    }
}

/// The plans kept by `stable_plans` are sites when all plans are, and have a
/// stable base among all plans.
proof fn lemma_stable_sites(
    f: IrFunc,
    loops: LoopForest,
    idom: Seq<BlockId>,
    preds: Seq<Vec<BlockId>>,
    def: Seq<BlockId>,
    all: Seq<Plan>,
)
    requires
        forall|i: int| 0 <= i < all.len() ==> site(f, loops, idom, preds, def, #[trigger] all[i]),
    ensures
        forall|i: int|
            0 <= i < stable_plans(all).len() ==> site(f, loops, idom, preds, def, #[trigger] stable_plans(all)[i])
                && stable_base(all, stable_plans(all)[i]) && all.contains(stable_plans(all)[i]),
{
    let kept = stable_plans(all);
    all.filter_lemma(|p: Plan| stable_base(all, p));
    assert forall|i: int| 0 <= i < kept.len() implies site(f, loops, idom, preds, def, #[trigger] kept[i])
        && stable_base(all, kept[i]) && all.contains(kept[i]) by {
        assert(kept.contains(kept[i]));
        all.lemma_filter_contains_rev(|p: Plan| stable_base(all, p), kept[i]);
        let k = choose|k: int| 0 <= k < all.len() && all[k] == kept[i];
        assert(site(f, loops, idom, preds, def, all[k]));
    }
}

} // verus!
