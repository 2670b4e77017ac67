//! Loop-invariant code motion: pure, non-trapping instructions whose operands
//! are all defined outside a loop move to the end of the loop header's
//! immediate dominator, a block outside the loop that dominates it. Loops are
//! handled innermost first, each to a fixpoint, so chains of invariant
//! instructions move out over successive rounds.
use crate::ir::{BlockId, IrBinOp, IrBlock, IrFunc, IrInst, IrParam, Vreg};
use crate::liveness::{def_of, inst_def, inst_uses, uses_of};
use vstd::prelude::*;
use vstd::multiset::Multiset;
use vstd::seq_lib::lemma_multiset_commutative;

verus! {

broadcast use vstd::seq_lib::group_to_multiset_ensures, vstd::multiset::group_multiset_axioms;

/// No block.
pub const NONE: BlockId = 0xFFFF_FFFFu32;

/// One natural loop of the loop analysis: its header, the blocks of its
/// body (header included, each once) and its latches.
pub struct LoopInfo {
    pub header: BlockId,
    pub body: Vec<BlockId>,
    pub latches: Vec<BlockId>,
}

/// What the loop analysis gives the loop passes: the natural loops, and
/// each block's loop nesting depth.
pub struct LoopForest {
    pub loops: Vec<LoopInfo>,
    pub depth: Vec<u32>,
}

// ---- where each vreg is defined ----

/// `b` defines `v`, by a `phi` or an instruction.
pub open spec fn block_defines(b: IrBlock, v: Vreg) -> bool {
    ||| exists|p: int| 0 <= p < b.phis.len() && (#[trigger] b.phis@[p]).dst == v
    ||| exists|k: int| 0 <= k < b.insts.len() && (#[trigger] inst_def(b.insts@[k]) matches Some((d, _)) && d == v)
}

/// The id of the last of `bs` that defines `v`, else `init`.
pub open spec fn def_block_in(bs: Seq<IrBlock>, v: Vreg, init: BlockId) -> BlockId
    decreases bs.len(),
{
    if bs.len() == 0 {
        init
    } else if block_defines(bs.last(), v) {
        bs.last().id
    } else {
        def_block_in(bs.drop_last(), v, init)
    }
}

/// Whether `v` is a parameter.
pub open spec fn is_param(ps: Seq<IrParam>, v: Vreg) -> bool {
    exists|i: int| 0 <= i < ps.len() && (#[trigger] ps[i]).vreg == v
}

/// The block that defines `v`: the last block that does, else the entry for
/// a parameter, else `NONE`.
pub open spec fn def_block(f: IrFunc, v: Vreg) -> BlockId {
    def_block_in(f.blocks@, v, if is_param(f.params@, v) {
        f.entry
    } else {
        NONE
    })
}

/// Every vreg that `f` defines is below `n_vregs`.
pub open spec fn defs_in_range(f: IrFunc) -> bool {
    &&& forall|i: int| 0 <= i < f.params.len() ==> (#[trigger] f.params@[i]).vreg < f.n_vregs
    &&& forall|b: int, p: int|
        0 <= b < f.blocks.len() && 0 <= p < f.blocks@[b].phis.len() ==> (#[trigger] f.blocks@[b].phis@[p]).dst
            < f.n_vregs
    &&& forall|b: int, k: int|
        0 <= b < f.blocks.len() && 0 <= k < f.blocks@[b].insts.len() ==> (#[trigger] inst_def(
            f.blocks@[b].insts@[k],
        ) matches Some((d, _)) ==> d < f.n_vregs)
}

/// The block defining each vreg of `f`.
pub fn def_blocks(f: &IrFunc) -> (r: Vec<BlockId>)
    requires
        defs_in_range(*f),
    ensures
        r.len() == f.n_vregs,
        forall|v: int| 0 <= v < f.n_vregs ==> #[trigger] r@[v] == def_block(*f, v as Vreg),
{
    let n = f.n_vregs as usize;
    let mut def: Vec<BlockId> = Vec::new();
    let mut z: usize = 0;
    while z < n
        invariant
            z <= n,
            def.len() == z,
            forall|v: int| 0 <= v < z ==> #[trigger] def@[v] == NONE,
        decreases n - z,
    {
        def.push(NONE);
        z += 1;
    }
    let mut i: usize = 0;
    while i < f.params.len()
        invariant
            i <= f.params.len(),
            n == f.n_vregs,
            def.len() == n,
            defs_in_range(*f),
            forall|v: int|
                0 <= v < n ==> #[trigger] def@[v] == if is_param(f.params@.take(i as int), v as Vreg) {
                    f.entry
                } else {
                    NONE
                },
        decreases f.params.len() - i,
    {
        let p = f.params[i].vreg;
        def.set(p as usize, f.entry);
        proof {
            let t = f.params@.take(i as int + 1);
            let t0 = f.params@.take(i as int);
            assert forall|v: int| 0 <= v < n implies #[trigger] def@[v] == if is_param(t, v as Vreg) {
                f.entry
            } else {
                NONE
            } by {
                if is_param(t, v as Vreg) && v as Vreg != p {
                    let k = choose|k: int| 0 <= k < t.len() && (#[trigger] t[k]).vreg == v as Vreg;
                    assert(t0[k] == t[k]);
                }
                if is_param(t0, v as Vreg) {
                    let k = choose|k: int| 0 <= k < t0.len() && (#[trigger] t0[k]).vreg == v as Vreg;
                    assert(t[k] == t0[k]);
                }
                if v as Vreg == p {
                    assert(t[i as int].vreg == p);
                }
            }
        }
        i += 1;
    }
    proof {
        assert(f.params@.take(f.params.len() as int) =~= f.params@);
        assert(f.blocks@.take(0) =~= Seq::<IrBlock>::empty());
    }
    let mut b: usize = 0;
    while b < f.blocks.len()
        invariant
            b <= f.blocks.len(),
            n == f.n_vregs,
            def.len() == n,
            defs_in_range(*f),
            forall|v: int|
                0 <= v < n ==> #[trigger] def@[v] == def_block_in(
                    f.blocks@.take(b as int),
                    v as Vreg,
                    if is_param(f.params@, v as Vreg) {
                        f.entry
                    } else {
                        NONE
                    },
                ),
        decreases f.blocks.len() - b,
    {
        let blk = &f.blocks[b];
        let ghost prev = def@;
        let mut k: usize = 0;
        while k < blk.phis.len()
            invariant
                k <= blk.phis.len(),
                b < f.blocks.len(),
                blk == f.blocks@[b as int],
                def.len() == n,
                n == f.n_vregs,
                defs_in_range(*f),
                forall|v: int|
                    0 <= v < n ==> #[trigger] def@[v] == if exists|p: int|
                        0 <= p < k && (#[trigger] blk.phis@[p]).dst == v as Vreg {
                        blk.id
                    } else {
                        prev[v]
                    },
            decreases blk.phis.len() - k,
        {
            let d = blk.phis[k].dst;
            assert(f.blocks@[b as int].phis@[k as int].dst < n);
            def.set(d as usize, blk.id);
            proof {
                assert forall|v: int| 0 <= v < n implies #[trigger] def@[v] == if exists|p: int|
                    0 <= p < k + 1 && (#[trigger] blk.phis@[p]).dst == v as Vreg {
                    blk.id
                } else {
                    prev[v]
                } by {
                    if v as Vreg == d {
                        assert(blk.phis@[k as int].dst == v as Vreg);
                    }
                }
            }
            k += 1;
        }
        let ghost mid = def@;
        k = 0;
        while k < blk.insts.len()
            invariant
                k <= blk.insts.len(),
                b < f.blocks.len(),
                blk == f.blocks@[b as int],
                def.len() == n,
                n == f.n_vregs,
                defs_in_range(*f),
                forall|v: int|
                    0 <= v < n ==> #[trigger] def@[v] == if exists|q: int|
                        0 <= q < k && (#[trigger] inst_def(blk.insts@[q]) matches Some((d, _)) && d == v as Vreg) {
                        blk.id
                    } else {
                        mid[v]
                    },
            decreases blk.insts.len() - k,
        {
            match def_of(&blk.insts[k]) {
                Some((d, _)) => {
                    assert(inst_def(f.blocks@[b as int].insts@[k as int]) matches Some((d2, _)) ==> d2 < n);
                    def.set(d as usize, blk.id);
                    proof {
                        assert forall|v: int| 0 <= v < n implies #[trigger] def@[v] == if exists|q: int|
                            0 <= q < k + 1 && (#[trigger] inst_def(blk.insts@[q]) matches Some((d3, _)) && d3
                                == v as Vreg) {
                            blk.id
                        } else {
                            mid[v]
                        } by {
                            if v as Vreg == d {
                                assert(inst_def(blk.insts@[k as int]) matches Some((d3, _)) && d3 == v as Vreg);
                            } else if exists|q: int|
                                0 <= q < k + 1 && (#[trigger] inst_def(blk.insts@[q]) matches Some((d3, _)) && d3
                                    == v as Vreg) {
                                let q = choose|q: int|
                                    0 <= q < k + 1 && (#[trigger] inst_def(blk.insts@[q]) matches Some((d3, _)) && d3
                                        == v as Vreg);
                                assert(q != k);
                            }
                        }
                    }
                },
                None => {
                    proof {
                        assert forall|v: int| 0 <= v < n implies #[trigger] def@[v] == if exists|q: int|
                            0 <= q < k + 1 && (#[trigger] inst_def(blk.insts@[q]) matches Some((d3, _)) && d3
                                == v as Vreg) {
                            blk.id
                        } else {
                            mid[v]
                        } by {
                            if exists|q: int|
                                0 <= q < k + 1 && (#[trigger] inst_def(blk.insts@[q]) matches Some((d3, _)) && d3
                                    == v as Vreg) {
                                let q = choose|q: int|
                                    0 <= q < k + 1 && (#[trigger] inst_def(blk.insts@[q]) matches Some((d3, _)) && d3
                                        == v as Vreg);
                                assert(q != k);
                            }
                        }
                    }
                },
            }
            k += 1;
        }
        proof {
            let t = f.blocks@.take(b as int + 1);
            assert(t.drop_last() =~= f.blocks@.take(b as int));
            assert(t.last() == *blk);
        }
        b += 1;
    }
    proof {
        assert(f.blocks@.take(f.blocks.len() as int) =~= f.blocks@);
    }
    def
}


// ---- what may move ----

/// A pure instruction that cannot trap: arithmetic (but an integer division
/// or remainder, whose divisor may be zero), unary, cast, compare, pointer
/// arithmetic and the address forms.
pub open spec fn hoistable(i: IrInst) -> bool {
    match i {
        IrInst::Bin { op, ty, .. } => !((op == IrBinOp::Div || op == IrBinOp::Mod) && !ty.spec_is_float()),
        IrInst::Un { .. } => true,
        IrInst::Cast { .. } => true,
        IrInst::Cmp { .. } => true,
        IrInst::PtrAdd { .. } => true,
        IrInst::SlotAddr { .. } => true,
        IrInst::GlobalAddr { .. } => true,
        IrInst::StrAddr { .. } => true,
        IrInst::FuncAddr { .. } => true,
        _ => false,
    }
}

/// An instruction that does more than define its destination from its
/// operands, or that can trap: calls and runtime primitives (effects),
/// loads, stores, block copies and clears (memory), the exception-frame
/// markers, and an integer division or remainder (a zero divisor traps).
pub open spec fn has_effect_or_may_trap(i: IrInst) -> bool {
    match i {
        IrInst::Call { .. } => true,
        IrInst::Prim { .. } => true,
        IrInst::Load { .. } => true,
        IrInst::Store { .. } => true,
        IrInst::MemCpy { .. } => true,
        IrInst::MemZero { .. } => true,
        IrInst::TryBegin { .. } => true,
        IrInst::TryEnd => true,
        IrInst::Bin { op, ty, .. } => (op == IrBinOp::Div || op == IrBinOp::Mod) && !ty.spec_is_float(),
        _ => false,
    }
}

/// What may leave a loop is pure and cannot trap: a hoistable instruction
/// has no effect, touches no memory, cannot trap, and its whole work is to
/// define one destination register.
pub proof fn lemma_hoistable_is_pure(i: IrInst)
    ensures
        hoistable(i) ==> !has_effect_or_may_trap(i),
        hoistable(i) ==> inst_def(i) is Some,
{
}

/// `v` is not defined inside `body`.
pub open spec fn invariant_in(def: Seq<BlockId>, body: Seq<BlockId>, v: Vreg) -> bool {
    def[v as int] == NONE || !body.contains(def[v as int])
}

/// `i` may leave the loop `body`: it is hoistable and every vreg it reads is
/// defined outside the loop.
pub open spec fn movable(i: IrInst, def: Seq<BlockId>, body: Seq<BlockId>) -> bool {
    &&& hoistable(i)
    &&& forall|j: int| 0 <= j < inst_uses(i).len() ==> invariant_in(def, body, #[trigger] inst_uses(i)[j])
}

fn is_hoistable(i: &IrInst) -> (r: bool)
    ensures
        r == hoistable(*i),
{
    match i {
        IrInst::Bin { op, ty, .. } => !((matches!(op, IrBinOp::Div) || matches!(op, IrBinOp::Mod)) && !ty.is_float()),
        IrInst::Un { .. } => true,
        IrInst::Cast { .. } => true,
        IrInst::Cmp { .. } => true,
        IrInst::PtrAdd { .. } => true,
        IrInst::SlotAddr { .. } => true,
        IrInst::GlobalAddr { .. } => true,
        IrInst::StrAddr { .. } => true,
        IrInst::FuncAddr { .. } => true,
        _ => false,
    }
}

/// Whether `body` lists `b`.
fn in_body(body: &Vec<BlockId>, b: BlockId) -> (r: bool)
    ensures
        r == body@.contains(b),
{
    let mut i: usize = 0;
    while i < body.len()
        invariant
            i <= body.len(),
            forall|k: int| 0 <= k < i ==> body@[k] != b,
        decreases body.len() - i,
    {
        if body[i] == b {
            return true;
        }
        i += 1;
    }
    false
}

/// Whether every vreg `i` reads is defined outside `body`.
fn all_uses_invariant(i: &IrInst, def: &Vec<BlockId>, body: &Vec<BlockId>) -> (r: bool)
    requires
        forall|j: int| 0 <= j < inst_uses(*i).len() ==> #[trigger] inst_uses(*i)[j] < def.len(),
    ensures
        r == forall|j: int| 0 <= j < inst_uses(*i).len() ==> invariant_in(def@, body@, #[trigger] inst_uses(*i)[j]),
{
    let us = uses_of(i);
    let mut j: usize = 0;
    while j < us.len()
        invariant
            j <= us.len(),
            us@ == inst_uses(*i),
            forall|t: int| 0 <= t < us.len() ==> #[trigger] us@[t] < def.len(),
            forall|t: int| 0 <= t < j ==> invariant_in(def@, body@, #[trigger] us@[t]),
        decreases us.len() - j,
    {
        let db = def[us[j] as usize];
        if db != NONE && in_body(body, db) {
            return false;
        }
        j += 1;
    }
    true
}


// ---- hoisting ----

/// `i` reads and defines only vregs below `n`.
pub open spec fn inst_ok(i: IrInst, n: u32) -> bool {
    &&& (inst_def(i) matches Some((d, _)) ==> d < n)
    &&& forall|j: int| 0 <= j < inst_uses(i).len() ==> #[trigger] inst_uses(i)[j] < n
}

/// Every instruction of `f` reads and defines only its vregs.
pub open spec fn insts_ok(f: IrFunc) -> bool {
    forall|b: int, k: int|
        0 <= b < f.blocks.len() && 0 <= k < f.blocks@[b].insts.len() ==> inst_ok(
            #[trigger] f.blocks@[b].insts@[k],
            f.n_vregs,
        )
}

/// The block defining each vreg of `f`.
pub open spec fn def_seq(f: IrFunc) -> Seq<BlockId> {
    Seq::new(f.n_vregs as nat, |v: int| def_block(f, v as Vreg))
}

/// The instructions of the blocks `body`, in that order.
pub open spec fn body_insts(blocks: Seq<IrBlock>, body: Seq<BlockId>) -> Seq<IrInst>
    decreases body.len(),
{
    if body.len() == 0 {
        seq![]
    } else {
        body_insts(blocks, body.drop_last()) + blocks[body.last() as int].insts@
    }
}

/// The blocks the loop pass may leave untouched: all but the ones of `body`
/// and the target.
pub open spec fn same_shape(a: IrFunc, b: IrFunc) -> bool {
    &&& b.name == a.name
    &&& b.ret == a.ret
    &&& b.params == a.params
    &&& b.varargs == a.varargs
    &&& b.slots == a.slots
    &&& b.entry == a.entry
    &&& b.n_vregs == a.n_vregs
    &&& b.blocks.len() == a.blocks.len()
    &&& forall|i: int|
        0 <= i < a.blocks.len() ==> {
            let (x, y) = (a.blocks@[i], #[trigger] b.blocks@[i]);
            &&& y.id == x.id
            &&& y.phis == x.phis
            &&& y.term == x.term
        }
}

proof fn lemma_def_block_same(a: Seq<IrBlock>, b: Seq<IrBlock>, ps: Seq<IrParam>, entry: BlockId)
    requires
        a.len() == b.len(),
        forall|i: int| 0 <= i < a.len() ==> #[trigger] b[i].insts@ == a[i].insts@,
        forall|i: int| 0 <= i < a.len() ==> (#[trigger] b[i]).phis == a[i].phis && b[i].id == a[i].id,
    ensures
        forall|v: Vreg, init: BlockId| #[trigger] def_block_in(b, v, init) == def_block_in(a, v, init),
    decreases a.len(),
{
    if a.len() > 0 {
        lemma_def_block_same(a.drop_last(), b.drop_last(), ps, entry);
        let (x, y) = (a.last(), b.last());
        assert(y.insts@ == x.insts@ && y.phis == x.phis && y.id == x.id);
        assert forall|v: Vreg| #[trigger] block_defines(y, v) == block_defines(x, v) by {
            if block_defines(x, v) {
                if exists|k: int| 0 <= k < x.insts.len() && (#[trigger] inst_def(x.insts@[k]) matches Some((d, _)) && d == v) {
                    let k = choose|k: int| 0 <= k < x.insts.len() && (#[trigger] inst_def(x.insts@[k]) matches Some((d, _)) && d == v);
                    assert(y.insts@[k] == x.insts@[k]);
                }
            }
            if block_defines(y, v) {
                if exists|k: int| 0 <= k < y.insts.len() && (#[trigger] inst_def(y.insts@[k]) matches Some((d, _)) && d == v) {
                    let k = choose|k: int| 0 <= k < y.insts.len() && (#[trigger] inst_def(y.insts@[k]) matches Some((d, _)) && d == v);
                    assert(y.insts@[k] == x.insts@[k]);
                }
            }
        }
        assert forall|v: Vreg, init: BlockId| #[trigger] def_block_in(b, v, init) == def_block_in(a, v, init) by {
            assert(block_defines(y, v) == block_defines(x, v));
            assert(def_block_in(b.drop_last(), v, init) == def_block_in(a.drop_last(), v, init));
        }
    }
}

/// One round of hoisting: the instructions of the blocks `body` that may
/// move (by the definitions of `a`) go, in body order, to the end of
/// `target`; the rest stay where they were; every other block is unchanged.
pub open spec fn hoist_round(a: IrFunc, b: IrFunc, target: BlockId, body: Seq<BlockId>) -> bool {
    let moves = |x: IrInst| movable(x, def_seq(a), body);
    let stays = |x: IrInst| !movable(x, def_seq(a), body);
    &&& same_shape(a, b)
    &&& b.blocks@[target as int].insts@ == a.blocks@[target as int].insts@ + body_insts(a.blocks@, body).filter(moves)
    &&& forall|i: int|
        0 <= i < a.blocks.len() && i != target && !body.contains(i as BlockId) ==> (#[trigger] b.blocks@[i]).insts@
            == a.blocks@[i].insts@
    &&& forall|u: int|
        0 <= u < body.len() ==> b.blocks@[#[trigger] body[u] as int].insts@ == a.blocks@[body[u] as int].insts@.filter(
            stays,
        )
}

/// `b` has the shape and the instructions of `a`.
pub open spec fn same_insts(a: IrFunc, b: IrFunc) -> bool {
    &&& same_shape(a, b)
    &&& forall|i: int| 0 <= i < a.blocks.len() ==> (#[trigger] b.blocks@[i]).insts@ == a.blocks@[i].insts@
}

/// `b` is `a` after `n` rounds of hoisting.
pub open spec fn hoist_rounds(a: IrFunc, b: IrFunc, n: nat, target: BlockId, body: Seq<BlockId>) -> bool
    decreases n,
{
    if n == 0 {
        same_insts(a, b)
    } else {
        exists|mid: IrFunc| hoist_rounds(a, mid, (n - 1) as nat, target, body) && #[trigger] hoist_round(mid, b, target, body)
    }
}

/// The instructions that moved so far in a round, one more block done.
proof fn lemma_block_done(
    blocks: Seq<IrBlock>,
    body: Seq<BlockId>,
    t: int,
    h0: Seq<IrInst>,
    orig: Seq<IrInst>,
    hoisted: Seq<IrInst>,
    moves: spec_fn(IrInst) -> bool,
)
    requires
        0 <= t < body.len(),
        h0 == body_insts(blocks, body.take(t)).filter(moves),
        orig == blocks[body[t] as int].insts@,
        hoisted == h0 + orig.filter(moves),
    ensures
        hoisted == body_insts(blocks, body.take(t + 1)).filter(moves),
{
    lemma_body_insts_take(blocks, body, t);
    Seq::filter_distributes_over_add(body_insts(blocks, body.take(t)), orig, moves);
}

/// A round that moved `hoisted` to the end of `target`.
proof fn lemma_round_done(
    fr: IrFunc,
    f: IrFunc,
    target: BlockId,
    body: Seq<BlockId>,
    hoisted: Seq<IrInst>,
    moves: spec_fn(IrInst) -> bool,
    stays: spec_fn(IrInst) -> bool,
)
    requires
        same_shape(fr, f),
        moves == (|x: IrInst| movable(x, def_seq(fr), body)),
        stays == (|x: IrInst| !movable(x, def_seq(fr), body)),
        hoisted == body_insts(fr.blocks@, body).filter(moves),
        f.blocks@[target as int].insts@ == fr.blocks@[target as int].insts@ + hoisted,
        forall|i: int|
            0 <= i < fr.blocks.len() && i != target && !body.contains(i as BlockId) ==> (#[trigger] f.blocks@[i]).insts@
                == fr.blocks@[i].insts@,
        forall|u: int|
            0 <= u < body.len() ==> f.blocks@[#[trigger] body[u] as int].insts@ == fr.blocks@[body[u] as int].insts@.filter(
                stays,
            ),
    ensures
        hoist_round(fr, f, target, body),
{
}

proof fn lemma_body_insts_take(blocks: Seq<IrBlock>, body: Seq<BlockId>, t: int)
    requires
        0 <= t < body.len(),
    ensures
        body_insts(blocks, body.take(t + 1)) == body_insts(blocks, body.take(t)) + blocks[body[t] as int].insts@,
{
    assert(body.take(t + 1).drop_last() =~= body.take(t));
    assert(body.take(t + 1).last() == body[t]);
}

proof fn lemma_ms_push(kp: Multiset<IrInst>, mp: Multiset<IrInst>, t: Multiset<IrInst>, cur: IrInst)
    requires
        kp.add(mp) == t,
    ensures
        kp.add(mp.insert(cur)) =~= t.insert(cur),
        kp.insert(cur).add(mp) =~= t.insert(cur),
{
    broadcast use vstd::multiset::group_multiset_axioms;

    assert forall|x: IrInst| #[trigger] kp.add(mp.insert(cur)).count(x) == t.insert(cur).count(x) by {
        assert(kp.add(mp).count(x) == kp.count(x) + mp.count(x));
    }
    assert forall|x: IrInst| #[trigger] kp.insert(cur).add(mp).count(x) == t.insert(cur).count(x) by {
        assert(kp.add(mp).count(x) == kp.count(x) + mp.count(x));
    }
}

/// Splits `insts` into the instructions that stay in the loop and those
/// that may move out of it, each in their order.
fn partition(insts: Vec<IrInst>, def: &Vec<BlockId>, body: &Vec<BlockId>) -> (r: (Vec<IrInst>, Vec<IrInst>))
    requires
        def.len() <= u32::MAX,
        forall|k: int| 0 <= k < insts.len() ==> inst_ok(#[trigger] insts@[k], def.len() as u32),
    ensures
        r.0@ == insts@.filter(|x: IrInst| !movable(x, def@, body@)),
        r.1@ == insts@.filter(|x: IrInst| movable(x, def@, body@)),
        (r.0@ + r.1@).to_multiset() == insts@.to_multiset(),
        forall|k: int| 0 <= k < r.1.len() ==> hoistable(#[trigger] r.1@[k]) && inst_ok(r.1@[k], def.len() as u32),
        forall|k: int| 0 <= k < r.0.len() ==> inst_ok(#[trigger] r.0@[k], def.len() as u32),
        r.1.len() == 0 ==> r.0@ == insts@,
        r.1.len() == 0 ==> forall|k: int| 0 <= k < insts.len() ==> !movable(#[trigger] insts@[k], def@, body@),
{
    let ghost orig = insts@;
    let ghost moves = |x: IrInst| movable(x, def@, body@);
    let ghost stays = |x: IrInst| !movable(x, def@, body@);
    let mut insts = insts;
    let mut kept: Vec<IrInst> = Vec::new();
    let mut moved: Vec<IrInst> = Vec::new();
    let mut j: usize = 0;
    proof {
        assert(orig.take(0) =~= seq![]);
        reveal_with_fuel(Seq::filter, 1);
    }
    while j < insts.len()
        invariant
            j <= insts.len(),
            insts.len() == orig.len(),
            def.len() <= u32::MAX,
            forall|k: int| j <= k < orig.len() ==> #[trigger] insts@[k] == orig[k],
            forall|k: int| 0 <= k < orig.len() ==> inst_ok(#[trigger] orig[k], def.len() as u32),
            moves == (|x: IrInst| movable(x, def@, body@)),
            stays == (|x: IrInst| !movable(x, def@, body@)),
            kept@ == orig.take(j as int).filter(stays),
            moved@ == orig.take(j as int).filter(moves),
            (kept@ + moved@).to_multiset() == orig.take(j as int).to_multiset(),
            forall|k: int| 0 <= k < moved.len() ==> hoistable(#[trigger] moved@[k]) && inst_ok(moved@[k], def.len() as u32),
            forall|k: int| 0 <= k < kept.len() ==> inst_ok(#[trigger] kept@[k], def.len() as u32),
            moved.len() == 0 ==> kept@ == orig.take(j as int),
            moved.len() == 0 ==> forall|k: int| 0 <= k < j ==> !movable(#[trigger] orig[k], def@, body@),
        decreases orig.len() - j,
    {
        let mut cur = IrInst::TryEnd;
        insts.set_and_swap(j, &mut cur);
        let ghost kp = kept@;
        let ghost mp = moved@;
        proof {
            assert(cur == orig[j as int]);
            assert(orig.take(j as int + 1).drop_last() =~= orig.take(j as int));
            assert(orig.take(j as int + 1).last() == cur);
            assert(orig.take(j as int + 1) =~= orig.take(j as int).push(cur));
            reveal_with_fuel(Seq::filter, 1);
            assert(inst_ok(cur, def.len() as u32));
            assert forall|u: int| 0 <= u < inst_uses(cur).len() implies #[trigger] inst_uses(cur)[u] < def.len() by {}
            lemma_multiset_commutative(kp, mp);
            orig.take(j as int).to_multiset_ensures();
        }
        if is_hoistable(&cur) && all_uses_invariant(&cur, def, body) {
            moved.push(cur);
            proof {
                assert(moves(cur));
                assert(moved@ == mp.push(cur));
                lemma_ms_push(kp.to_multiset(), mp.to_multiset(), orig.take(j as int).to_multiset(), cur);
                assert(moved@.to_multiset() =~= mp.to_multiset().insert(cur));
                lemma_multiset_commutative(kept@, moved@);
                assert(orig.take(j as int + 1).to_multiset() =~= orig.take(j as int).to_multiset().insert(cur));
            }
        } else {
            kept.push(cur);
            proof {
                assert(stays(cur));
                assert(kept@ == kp.push(cur));
                lemma_ms_push(kp.to_multiset(), mp.to_multiset(), orig.take(j as int).to_multiset(), cur);
                assert(kept@.to_multiset() =~= kp.to_multiset().insert(cur));
                lemma_multiset_commutative(kept@, moved@);
                assert(orig.take(j as int + 1).to_multiset() =~= orig.take(j as int).to_multiset().insert(cur));
                if moved.len() == 0 {
                    assert(kept@ =~= orig.take(j as int + 1));
                }
            }
        }
        j += 1;
    }
    proof {
        assert(orig.take(orig.len() as int) =~= orig);
    }
    (kept, moved)
}

/// The instructions `p` keeps and those it drops make up `s`, as a multiset
/// and in number.
proof fn lemma_filter_split(s: Seq<IrInst>, p: spec_fn(IrInst) -> bool, q: spec_fn(IrInst) -> bool)
    requires
        forall|x: IrInst| #[trigger] q(x) == !p(x),
    ensures
        s.filter(p).to_multiset().add(s.filter(q).to_multiset()) =~= s.to_multiset(),
        s.filter(p).len() + s.filter(q).len() == s.len(),
    decreases s.len(),
{
    broadcast use vstd::multiset::group_multiset_axioms;

    reveal_with_fuel(Seq::filter, 1);
    if s.len() > 0 {
        let d = s.drop_last();
        lemma_filter_split(d, p, q);
        assert(s =~= d.push(s.last()));
        d.to_multiset_ensures();
        d.filter(p).to_multiset_ensures();
        d.filter(q).to_multiset_ensures();
    } else {
        assert(s.filter(p) =~= seq![]);
        assert(s.filter(q) =~= seq![]);
    }
}

/// A filter that drops nothing keeps the sequence.
proof fn lemma_filter_keeps_all(s: Seq<IrInst>, p: spec_fn(IrInst) -> bool)
    requires
        forall|k: int| 0 <= k < s.len() ==> p(#[trigger] s[k]),
    ensures
        s.filter(p) == s,
    decreases s.len(),
{
    reveal_with_fuel(Seq::filter, 1);
    if s.len() > 0 {
        let d = s.drop_last();
        assert forall|k: int| 0 <= k < d.len() implies p(#[trigger] d[k]) by {
            assert(d[k] == s[k]);
        }
        lemma_filter_keeps_all(d, p);
        assert(s =~= d.push(s.last()));
    } else {
        assert(s.filter(p) =~= s);
    }
}

/// Every instruction of the blocks `body` sits in one of them.
proof fn lemma_body_member(blocks: Seq<IrBlock>, body: Seq<BlockId>, x: IrInst)
    requires
        body_insts(blocks, body).contains(x),
    ensures
        exists|u: int, k: int|
            0 <= u < body.len() && 0 <= k < blocks[body[u] as int].insts.len() && #[trigger] blocks[body[u] as int].insts@[k]
                == x,
    decreases body.len(),
{
    let pre = body.drop_last();
    let last = blocks[body.last() as int].insts@;
    let j = choose|j: int| 0 <= j < body_insts(blocks, body).len() && body_insts(blocks, body)[j] == x;
    if j < body_insts(blocks, pre).len() {
        assert(body_insts(blocks, body)[j] == body_insts(blocks, pre)[j]);
        lemma_body_member(blocks, pre, x);
        let (u, k) = choose|u: int, k: int|
            0 <= u < pre.len() && 0 <= k < blocks[pre[u] as int].insts.len() && #[trigger] blocks[pre[u] as int].insts@[k]
                == x;
        assert(pre[u] == body[u]);
    } else {
        let k = j - body_insts(blocks, pre).len();
        assert(last[k] == x);
        assert(blocks[body[body.len() - 1] as int].insts@[k] == x);
    }
}

/// What a round does to the blocks `body` as a whole: the instructions that
/// stay and those that move make up the body's instructions before, and
/// when none moves, every block keeps its instructions.
proof fn lemma_round_body(a: Seq<IrBlock>, b: Seq<IrBlock>, body: Seq<BlockId>, m: int, moves: spec_fn(IrInst) -> bool, stays: spec_fn(IrInst) -> bool)
    requires
        0 <= m <= body.len(),
        forall|x: IrInst| #[trigger] stays(x) == !moves(x),
        forall|u: int| 0 <= u < body.len() ==> b[#[trigger] body[u] as int].insts@ == a[body[u] as int].insts@.filter(stays),
    ensures
        body_insts(b, body.take(m)).to_multiset().add(body_insts(a, body.take(m)).filter(moves).to_multiset())
            =~= body_insts(a, body.take(m)).to_multiset(),
        body_insts(b, body.take(m)).len() + body_insts(a, body.take(m)).filter(moves).len() == body_insts(a, body.take(m)).len(),
        body_insts(a, body.take(m)).filter(moves).len() == 0 ==> forall|u: int| 0 <= u < m ==> b[#[trigger] body[u] as int].insts@ == a[body[u] as int].insts@,
    decreases m,
{
    broadcast use vstd::multiset::group_multiset_axioms;

    if m == 0 {
        assert(body.take(0) =~= seq![]);
        reveal_with_fuel(Seq::filter, 1);
        assert(body_insts(a, body.take(0)).filter(moves) =~= seq![]);
    } else {
        lemma_round_body(a, b, body, m - 1, moves, stays);
        lemma_body_insts_take(a, body, m - 1);
        lemma_body_insts_take(b, body, m - 1);
        let pa = body_insts(a, body.take(m - 1));
        let pb = body_insts(b, body.take(m - 1));
        let blk = a[body[m - 1] as int].insts@;
        Seq::filter_distributes_over_add(pa, blk, moves);
        lemma_filter_split(blk, stays, moves);
        lemma_multiset_commutative(pb, blk.filter(stays));
        lemma_multiset_commutative(pa.filter(moves), blk.filter(moves));
        lemma_multiset_commutative(pa, blk);
        if (pa + blk).filter(moves).len() == 0 {
            assert forall|u: int| 0 <= u < m implies b[#[trigger] body[u] as int].insts@ == a[body[u] as int].insts@ by {
                if u == m - 1 {
                    assert forall|k: int| 0 <= k < blk.len() implies stays(#[trigger] blk[k]) by {
                        blk.filter_lemma(moves);
                        if moves(blk[k]) {
                            assert(blk.filter(moves).contains(blk[k]));
                        }
                    }
                    lemma_filter_keeps_all(blk, stays);
                }
            }
        }
    }
}

/// The facts a round keeps: the function stays well formed, the target
/// gains hoistable instructions only, the target and the body together
/// hold the same instructions, the body shrinks by what moved, and a round
/// that moves nothing changes nothing and leaves nothing movable.
proof fn lemma_round_facts(a: IrFunc, b: IrFunc, target: BlockId, body: Seq<BlockId>)
    requires
        hoist_round(a, b, target, body),
        defs_in_range(a),
        insts_ok(a),
        a.blocks.len() <= u32::MAX,
        target < a.blocks.len(),
        !body.contains(target),
        forall|t: int| 0 <= t < body.len() ==> #[trigger] body[t] < a.blocks.len(),
    ensures
        defs_in_range(b),
        insts_ok(b),
        b.blocks@[target as int].insts@.take(a.blocks@[target as int].insts.len() as int) == a.blocks@[target as int].insts@,
        forall|k: int|
            a.blocks@[target as int].insts.len() <= k < b.blocks@[target as int].insts.len() ==> hoistable(
                #[trigger] b.blocks@[target as int].insts@[k],
            ),
        (b.blocks@[target as int].insts@ + body_insts(b.blocks@, body)).to_multiset() == (a.blocks@[target as int].insts@
            + body_insts(a.blocks@, body)).to_multiset(),
        b.blocks@[target as int].insts.len() + body_insts(b.blocks@, body).len() == a.blocks@[target as int].insts.len()
            + body_insts(a.blocks@, body).len(),
        b.blocks@[target as int].insts.len() == a.blocks@[target as int].insts.len() ==> {
            &&& same_insts(a, b)
            &&& forall|t: int, k: int|
                0 <= t < body.len() && 0 <= k < b.blocks@[body[t] as int].insts.len() ==> !movable(
                    #[trigger] b.blocks@[body[t] as int].insts@[k],
                    def_seq(b),
                    body,
                )
        },
{
    broadcast use vstd::multiset::group_multiset_axioms;

    let moves = |x: IrInst| movable(x, def_seq(a), body);
    let stays = |x: IrInst| !movable(x, def_seq(a), body);
    let ta = a.blocks@[target as int].insts@;
    let tb = b.blocks@[target as int].insts@;
    let ba = body_insts(a.blocks@, body);
    let bb = body_insts(b.blocks@, body);
    let mv = ba.filter(moves);
    assert(body.take(body.len() as int) =~= body);
    lemma_round_body(a.blocks@, b.blocks@, body, body.len() as int, moves, stays);
    assert(tb == ta + mv);
    assert(tb.take(ta.len() as int) =~= ta);
    ba.filter_lemma(moves);
    assert forall|k: int| ta.len() <= k < tb.len() implies hoistable(#[trigger] tb[k]) by {
        assert(tb[k] == mv[k - ta.len()]);
        assert(moves(mv[k - ta.len()]));
    }
    lemma_multiset_commutative(tb, bb);
    lemma_multiset_commutative(ta, ba);
    lemma_multiset_commutative(ta, mv);
    // Every instruction of `b` is one of `a`.
    assert forall|i: int, k: int|
        0 <= i < b.blocks.len() && 0 <= k < b.blocks@[i].insts.len() implies inst_ok(
        #[trigger] b.blocks@[i].insts@[k],
        b.n_vregs,
    ) by {
        let x = b.blocks@[i].insts@[k];
        if i == target {
            if k >= ta.len() {
                assert(x == mv[k - ta.len()]);
                assert(mv.contains(x));
                ba.lemma_filter_contains_rev(moves, x);
                lemma_body_member(a.blocks@, body, x);
                let (u, k2) = choose|u: int, k2: int|
                    0 <= u < body.len() && 0 <= k2 < a.blocks@[body[u] as int].insts.len()
                        && #[trigger] a.blocks@[body[u] as int].insts@[k2] == x;
                assert(inst_ok(a.blocks@[body[u] as int].insts@[k2], a.n_vregs));
            } else {
                assert(x == ta[k]);
            }
        } else if body.contains(i as BlockId) {
            let u = choose|u: int| 0 <= u < body.len() && body[u] == i as BlockId;
            let blk = a.blocks@[i].insts@;
            assert(body[u] as int == i);
            assert(b.blocks@[body[u] as int].insts@ == a.blocks@[body[u] as int].insts@.filter(stays));
            assert(b.blocks@[i].insts@ == blk.filter(stays));
            assert(blk.filter(stays).contains(x));
            blk.lemma_filter_contains_rev(stays, x);
            let k2 = choose|k2: int| 0 <= k2 < blk.len() && blk[k2] == x;
            assert(inst_ok(a.blocks@[i].insts@[k2], a.n_vregs));
        } else {
            assert(b.blocks@[i].insts@ == a.blocks@[i].insts@);
            assert(inst_ok(a.blocks@[i].insts@[k], a.n_vregs));
        }
    }
    assert forall|i: int, k: int|
        0 <= i < b.blocks.len() && 0 <= k < b.blocks@[i].insts.len() implies (#[trigger] inst_def(
        b.blocks@[i].insts@[k],
    ) matches Some((d, _)) ==> d < b.n_vregs) by {
        assert(inst_ok(b.blocks@[i].insts@[k], b.n_vregs));
    }
    assert forall|i: int, p: int|
        0 <= i < b.blocks.len() && 0 <= p < b.blocks@[i].phis.len() implies (#[trigger] b.blocks@[i].phis@[p]).dst
        < b.n_vregs by {
        assert(b.blocks@[i].phis == a.blocks@[i].phis);
    }
    if tb.len() == ta.len() {
        assert(mv.len() == 0);
        assert forall|i: int| 0 <= i < a.blocks.len() implies (#[trigger] b.blocks@[i]).insts@ == a.blocks@[i].insts@ by {
            if i == target {
                assert(tb =~= ta);
            } else if body.contains(i as BlockId) {
                let u = choose|u: int| 0 <= u < body.len() && body[u] == i as BlockId;
                assert(b.blocks@[body[u] as int].insts@ == a.blocks@[body[u] as int].insts@);
            }
        }
        lemma_def_block_same(a.blocks@, b.blocks@, a.params@, a.entry);
        assert(def_seq(b) =~= def_seq(a)) by {
            assert forall|v: int| 0 <= v < a.n_vregs implies #[trigger] def_seq(b)[v] == def_seq(a)[v] by {
                assert(def_block_in(b.blocks@, v as Vreg, if is_param(a.params@, v as Vreg) {
                    a.entry
                } else {
                    NONE
                }) == def_block_in(a.blocks@, v as Vreg, if is_param(a.params@, v as Vreg) {
                    a.entry
                } else {
                    NONE
                }));
            }
        }
        assert forall|t: int, k: int|
            0 <= t < body.len() && 0 <= k < b.blocks@[body[t] as int].insts.len() implies !movable(
            #[trigger] b.blocks@[body[t] as int].insts@[k],
            def_seq(b),
            body,
        ) by {
            let x = b.blocks@[body[t] as int].insts@[k];
            assert(x == a.blocks@[body[t] as int].insts@[k]);
            if movable(x, def_seq(a), body) {
                lemma_body_insts_member(a.blocks@, body, t, k);
                assert(ba.contains(x));
                let j = choose|j: int| 0 <= j < ba.len() && ba[j] == x;
                assert(moves(ba[j]));
                assert(mv.contains(x));
            }
        }
    }
}

/// An instruction of one of the blocks `body` is among their instructions.
proof fn lemma_body_insts_member(blocks: Seq<IrBlock>, body: Seq<BlockId>, t: int, k: int)
    requires
        0 <= t < body.len(),
        0 <= k < blocks[body[t] as int].insts.len(),
    ensures
        body_insts(blocks, body).contains(blocks[body[t] as int].insts@[k]),
    decreases body.len(),
{
    let pre = body.drop_last();
    let x = blocks[body[t] as int].insts@[k];
    if t < body.len() - 1 {
        assert(pre[t] == body[t]);
        lemma_body_insts_member(blocks, pre, t, k);
        let j = choose|j: int| 0 <= j < body_insts(blocks, pre).len() && body_insts(blocks, pre)[j] == x;
        assert(body_insts(blocks, body)[j] == x);
    } else {
        assert(body_insts(blocks, body)[body_insts(blocks, pre).len() + k] == x);
    }
}

/// One round of hoisting (see `hoist_round`); says whether anything moved.
fn hoist_once(f: &mut IrFunc, target: BlockId, body: &Vec<BlockId>)
    requires
        defs_in_range(*old(f)),
        insts_ok(*old(f)),
        target < old(f).blocks.len(),
        old(f).blocks.len() <= u32::MAX,
        !body@.contains(target),
        forall|t: int| 0 <= t < body.len() ==> #[trigger] body@[t] < old(f).blocks.len(),
        forall|u: int, w: int| 0 <= u < w < body.len() ==> body@[u] != body@[w],
    ensures
        hoist_round(*old(f), *final(f), target, body@),
{
    let def = def_blocks(f);
    let ghost fr = *f;
    let ghost moves = |x: IrInst| movable(x, def@, body@);
    let ghost stays = |x: IrInst| !movable(x, def@, body@);
    proof {
        assert(def@ =~= def_seq(fr));
        assert(body@.take(0) =~= seq![]);
        reveal_with_fuel(Seq::filter, 1);
        assert(body_insts(fr.blocks@, body@.take(0)).filter(moves) =~= seq![]);
    }
    let mut hoisted: Vec<IrInst> = Vec::new();
    let mut t: usize = 0;
    while t < body.len()
        invariant
            t <= body.len(),
            same_shape(fr, *f),
            insts_ok(fr),
            def@ == def_seq(fr),
            def.len() == fr.n_vregs,
            fr.blocks.len() <= u32::MAX,
            forall|u: int| 0 <= u < body.len() ==> #[trigger] body@[u] < fr.blocks.len(),
            forall|u: int, w: int| 0 <= u < w < body.len() ==> body@[u] != body@[w],
            forall|i: int|
                0 <= i < fr.blocks.len() && !body@.contains(i as BlockId) ==> (#[trigger] f.blocks@[i]).insts@
                    == fr.blocks@[i].insts@,
            forall|u: int|
                t <= u < body.len() ==> f.blocks@[#[trigger] body@[u] as int].insts@ == fr.blocks@[body@[u] as int].insts@,
            forall|u: int|
                0 <= u < t ==> f.blocks@[#[trigger] body@[u] as int].insts@ == fr.blocks@[body@[u] as int].insts@.filter(
                    stays,
                ),
            moves == (|x: IrInst| movable(x, def@, body@)),
            stays == (|x: IrInst| !movable(x, def@, body@)),
            hoisted@ == body_insts(fr.blocks@, body@.take(t as int)).filter(moves),
        decreases body.len() - t,
    {
        let b = body[t] as usize;
        let ghost blocks_before = f.blocks@;
        let mut insts: Vec<IrInst> = Vec::new();
        std::mem::swap(&mut insts, &mut f.blocks[b].insts);
        let ghost orig = insts@;
        let ghost h0 = hoisted@;
        proof {
            assert(orig == fr.blocks@[body@[t as int] as int].insts@);
            assert forall|k: int| 0 <= k < insts.len() implies inst_ok(#[trigger] insts@[k], def.len() as u32) by {
                assert(insts_ok(fr));
                assert(inst_ok(fr.blocks@[b as int].insts@[k], fr.n_vregs));
            }
        }
        let (mut kept, mut moved) = partition(insts, &def, body);
        let ghost mv = moved@;
        hoisted.append(&mut moved);
        std::mem::swap(&mut kept, &mut f.blocks[b].insts);
        proof {
            assert(hoisted@ == h0 + mv);
            lemma_block_done(fr.blocks@, body@, t as int, h0, orig, hoisted@, moves);
            assert forall|u: int| 0 <= u < t + 1 implies f.blocks@[#[trigger] body@[u] as int].insts@
                == fr.blocks@[body@[u] as int].insts@.filter(stays) by {
                if u < t {
                    assert(body@[u] != body@[t as int]);
                    assert(f.blocks@[body@[u] as int] == blocks_before[body@[u] as int]);
                }
            }
            assert forall|u: int| t + 1 <= u < body.len() implies f.blocks@[#[trigger] body@[u] as int].insts@
                == fr.blocks@[body@[u] as int].insts@ by {
                assert(body@[u] != body@[t as int]);
                assert(f.blocks@[body@[u] as int] == blocks_before[body@[u] as int]);
            }
            assert forall|i: int| 0 <= i < fr.blocks.len() && !body@.contains(i as BlockId) implies (#[trigger] f.blocks@[
                i
            ]).insts@ == fr.blocks@[i].insts@ by {
                assert(i != b as int);
                assert(f.blocks@[i] == blocks_before[i]);
            }
        }
        t += 1;
    }
    let ghost before_append = f.blocks@;
    let ghost all_moved = hoisted@;
    let mut h = hoisted;
    f.blocks[target as usize].insts.append(&mut h);
    proof {
        assert(body@.take(body.len() as int) =~= body@);
        assert(before_append[target as int].insts@ == fr.blocks@[target as int].insts@);
        assert((|x: IrInst| movable(x, def_seq(fr), body@)) =~= moves);
        assert((|x: IrInst| !movable(x, def_seq(fr), body@)) =~= stays);
        assert forall|u: int| 0 <= u < body.len() implies f.blocks@[#[trigger] body@[u] as int].insts@
            == fr.blocks@[body@[u] as int].insts@.filter(stays) by {
            assert(body@[u] != target);
            assert(f.blocks@[body@[u] as int] == before_append[body@[u] as int]);
        }
        assert forall|i: int| 0 <= i < fr.blocks.len() && i != target && !body@.contains(i as BlockId) implies (
        #[trigger] f.blocks@[i]).insts@ == fr.blocks@[i].insts@ by {
            assert(f.blocks@[i] == before_append[i]);
        }
        lemma_round_done(fr, *f, target, body@, all_moved, moves, stays);
    }
}

/// Hoists the movable instructions of the blocks `body` to the end of
/// `target`, round after round (`hoist_round`), until a round moves
/// nothing: an instruction may move when it is hoistable and reads only
/// vregs defined outside the body. Moving keeps the instructions: what the
/// body and the target hold together is the same multiset before and after.
pub fn hoist_loop(f: &mut IrFunc, target: BlockId, body: &Vec<BlockId>)
    requires
        defs_in_range(*old(f)),
        insts_ok(*old(f)),
        target < old(f).blocks.len(),
        old(f).blocks.len() <= u32::MAX,
        !body@.contains(target),
        forall|t: int| 0 <= t < body.len() ==> #[trigger] body@[t] < old(f).blocks.len(),
        forall|u: int, w: int| 0 <= u < w < body.len() ==> body@[u] != body@[w],
    ensures
        same_shape(*old(f), *final(f)),
        defs_in_range(*final(f)),
        insts_ok(*final(f)),
        forall|b: int|
            0 <= b < old(f).blocks.len() && b != target && !body@.contains(b as BlockId) ==> (#[trigger] final(f).blocks@[b]).insts@ == old(f).blocks@[b].insts@,
        final(f).blocks@[target as int].insts@.take(old(f).blocks@[target as int].insts.len() as int) == old(f).blocks@[target as int].insts@,
        forall|k: int|
            old(f).blocks@[target as int].insts.len() <= k < final(f).blocks@[target as int].insts.len() ==> hoistable(
                #[trigger] final(f).blocks@[target as int].insts@[k],
            ),
        (final(f).blocks@[target as int].insts@ + body_insts(final(f).blocks@, body@)).to_multiset() == (old(f).blocks@[target as int].insts@ + body_insts(old(f).blocks@, body@)).to_multiset(),
        forall|t: int, k: int|
            0 <= t < body.len() && 0 <= k < final(f).blocks@[body@[t] as int].insts.len() ==> !movable(
                #[trigger] final(f).blocks@[body@[t] as int].insts@[k],
                def_seq(*final(f)),
                body@,
            ),
        forall|k: int|
            old(f).blocks@[target as int].insts.len() <= k < final(f).blocks@[target as int].insts.len()
                ==> !has_effect_or_may_trap(#[trigger] final(f).blocks@[target as int].insts@[k]),
        exists|n: nat| hoist_rounds(*old(f), *final(f), n, target, body@),
{
    let ghost f0 = *f;
    let ghost mut rounds: nat = 0;
    proof {
        assert(same_insts(f0, *f));
    }
    loop
        invariant
            hoist_rounds(f0, *f, rounds, target, body@),
            same_shape(f0, *f),
            defs_in_range(*f),
            insts_ok(*f),
            f0 == *old(f),
            target < f0.blocks.len(),
            f0.blocks.len() <= u32::MAX,
            !body@.contains(target),
            forall|t: int| 0 <= t < body.len() ==> #[trigger] body@[t] < f0.blocks.len(),
            forall|u: int, w: int| 0 <= u < w < body.len() ==> body@[u] != body@[w],
            forall|b: int|
                0 <= b < f0.blocks.len() && b != target && !body@.contains(b as BlockId) ==> (
                #[trigger] f.blocks@[b]).insts@ == f0.blocks@[b].insts@,
            f.blocks@[target as int].insts@.take(f0.blocks@[target as int].insts.len() as int)
                == f0.blocks@[target as int].insts@,
            f.blocks@[target as int].insts.len() >= f0.blocks@[target as int].insts.len(),
            forall|k: int|
                f0.blocks@[target as int].insts.len() <= k < f.blocks@[target as int].insts.len() ==> hoistable(
                    #[trigger] f.blocks@[target as int].insts@[k],
                ),
            (f.blocks@[target as int].insts@ + body_insts(f.blocks@, body@)).to_multiset() == (
            f0.blocks@[target as int].insts@ + body_insts(f0.blocks@, body@)).to_multiset(),
        ensures
            hoist_rounds(f0, *f, rounds, target, body@),
            same_shape(f0, *f),
            defs_in_range(*f),
            insts_ok(*f),
            forall|b: int|
                0 <= b < f0.blocks.len() && b != target && !body@.contains(b as BlockId) ==> (
                #[trigger] f.blocks@[b]).insts@ == f0.blocks@[b].insts@,
            f.blocks@[target as int].insts@.take(f0.blocks@[target as int].insts.len() as int)
                == f0.blocks@[target as int].insts@,
            forall|k: int|
                f0.blocks@[target as int].insts.len() <= k < f.blocks@[target as int].insts.len() ==> hoistable(
                    #[trigger] f.blocks@[target as int].insts@[k],
                ),
            (f.blocks@[target as int].insts@ + body_insts(f.blocks@, body@)).to_multiset() == (
            f0.blocks@[target as int].insts@ + body_insts(f0.blocks@, body@)).to_multiset(),
            forall|t: int, k: int|
                0 <= t < body.len() && 0 <= k < f.blocks@[body@[t] as int].insts.len() ==> !movable(
                    #[trigger] f.blocks@[body@[t] as int].insts@[k],
                    def_seq(*f),
                    body@,
                ),
        decreases body_insts(f.blocks@, body@).len(),
    {
        let ghost fb = *f;
        let before_len = f.blocks[target as usize].insts.len();
        hoist_once(f, target, body);
        proof {
            lemma_round_facts(fb, *f, target, body@);
            rounds = rounds + 1;
            assert(hoist_rounds(f0, fb, (rounds - 1) as nat, target, body@));
            lemma_frame_round(f0, fb, *f, target, body@);
        }
        if f.blocks[target as usize].insts.len() == before_len {
            break;
        }
    }
    proof {
        assert forall|k: int|
            f0.blocks@[target as int].insts.len() <= k < f.blocks@[target as int].insts.len()
            implies !has_effect_or_may_trap(#[trigger] f.blocks@[target as int].insts@[k]) by {
            lemma_hoistable_is_pure(f.blocks@[target as int].insts@[k]);
        }
    }
}

/// The facts `hoist_loop` keeps over its rounds, carried over one more.
proof fn lemma_frame_round(f0: IrFunc, a: IrFunc, b: IrFunc, target: BlockId, body: Seq<BlockId>)
    requires
        hoist_round(a, b, target, body),
        same_shape(f0, a),
        target < f0.blocks.len(),
        forall|i: int|
            0 <= i < f0.blocks.len() && i != target && !body.contains(i as BlockId) ==> (#[trigger] a.blocks@[i]).insts@
                == f0.blocks@[i].insts@,
        a.blocks@[target as int].insts@.take(f0.blocks@[target as int].insts.len() as int) == f0.blocks@[target as int].insts@,
        a.blocks@[target as int].insts.len() >= f0.blocks@[target as int].insts.len(),
        forall|k: int|
            f0.blocks@[target as int].insts.len() <= k < a.blocks@[target as int].insts.len() ==> hoistable(
                #[trigger] a.blocks@[target as int].insts@[k],
            ),
        b.blocks@[target as int].insts@.take(a.blocks@[target as int].insts.len() as int) == a.blocks@[target as int].insts@,
        forall|k: int|
            a.blocks@[target as int].insts.len() <= k < b.blocks@[target as int].insts.len() ==> hoistable(
                #[trigger] b.blocks@[target as int].insts@[k],
            ),
        (b.blocks@[target as int].insts@ + body_insts(b.blocks@, body)).to_multiset() == (a.blocks@[target as int].insts@
            + body_insts(a.blocks@, body)).to_multiset(),
        (a.blocks@[target as int].insts@ + body_insts(a.blocks@, body)).to_multiset() == (f0.blocks@[target as int].insts@
            + body_insts(f0.blocks@, body)).to_multiset(),
    ensures
        same_shape(f0, b),
        forall|i: int|
            0 <= i < f0.blocks.len() && i != target && !body.contains(i as BlockId) ==> (#[trigger] b.blocks@[i]).insts@
                == f0.blocks@[i].insts@,
        b.blocks@[target as int].insts@.take(f0.blocks@[target as int].insts.len() as int) == f0.blocks@[target as int].insts@,
        b.blocks@[target as int].insts.len() >= f0.blocks@[target as int].insts.len(),
        forall|k: int|
            f0.blocks@[target as int].insts.len() <= k < b.blocks@[target as int].insts.len() ==> hoistable(
                #[trigger] b.blocks@[target as int].insts@[k],
            ),
        (b.blocks@[target as int].insts@ + body_insts(b.blocks@, body)).to_multiset() == (f0.blocks@[target as int].insts@
            + body_insts(f0.blocks@, body)).to_multiset(),
{
    let n0 = f0.blocks@[target as int].insts.len() as int;
    let na = a.blocks@[target as int].insts.len() as int;
    let tb = b.blocks@[target as int].insts@;
    let ta = a.blocks@[target as int].insts@;
    assert(tb.take(n0) =~= ta.take(n0)) by {
        assert forall|k: int| 0 <= k < n0 implies tb.take(n0)[k] == ta.take(n0)[k] by {
            assert(tb.take(na)[k] == tb[k]);
        }
    }
    assert forall|k: int| n0 <= k < tb.len() implies hoistable(#[trigger] tb[k]) by {
        if k < na {
            assert(tb.take(na)[k] == tb[k]);
            assert(hoistable(ta[k]));
        }
    }
    assert forall|i: int| 0 <= i < f0.blocks.len() implies {
        let (x, y) = (f0.blocks@[i], #[trigger] b.blocks@[i]);
        &&& y.id == x.id
        &&& y.phis == x.phis
        &&& y.term == x.term
    } by {
        assert(a.blocks@[i].id == f0.blocks@[i].id);
    }
}

// ---- the pass ----

/// `order` lists each loop of `loops` once, deepest header first, loops of
/// the same depth in their listed order.
pub open spec fn innermost_order(loops: LoopForest, order: Seq<usize>) -> bool {
    &&& order.len() == loops.loops.len()
    &&& forall|k: int| 0 <= k < order.len() ==> #[trigger] order[k] < loops.loops.len()
    &&& forall|k1: int, k2: int| 0 <= k1 < k2 < order.len() ==> order[k1] != order[k2]
    &&& forall|k1: int, k2: int|
        0 <= k1 < k2 < order.len() ==> loops.depth@[loops.loops@[order[k1] as int].header as int] >= loops.depth@[
            loops.loops@[order[k2] as int].header as int
        ]
    &&& forall|k1: int, k2: int|
        0 <= k1 < k2 < order.len() && loops.depth@[loops.loops@[order[k1] as int].header as int]
            == loops.depth@[loops.loops@[order[k2] as int].header as int] ==> order[k1] < order[k2]
}

/// The hoists the pass makes, loop by loop in `order`: to the immediate
/// dominator of the loop's header, from the loop's body; a loop whose
/// header has no immediate dominator, or whose dominator lies in its body,
/// makes none.
pub open spec fn loop_work(loops: LoopForest, idom: Seq<BlockId>, order: Seq<usize>) -> Seq<(BlockId, Seq<BlockId>)>
    decreases order.len(),
{
    if order.len() == 0 {
        seq![]
    } else {
        let rest = loop_work(loops, idom, order.drop_last());
        let l = loops.loops@[order.last() as int];
        let tg = idom[l.header as int];
        if tg != NONE && !l.body@.contains(tg) {
            rest.push((tg, l.body@))
        } else {
            rest
        }
    }
}

/// `b` is `a` after `hoist_loop(target, body)`, as its contract states.
pub open spec fn hoisted(a: IrFunc, b: IrFunc, target: BlockId, body: Seq<BlockId>) -> bool {
    &&& same_shape(a, b)
    &&& defs_in_range(b)
    &&& insts_ok(b)
    &&& forall|i: int|
        0 <= i < a.blocks.len() && i != target && !body.contains(i as BlockId) ==> (#[trigger] b.blocks@[i]).insts@
            == a.blocks@[i].insts@
    &&& b.blocks@[target as int].insts@.take(a.blocks@[target as int].insts.len() as int) == a.blocks@[target as int].insts@
    &&& forall|k: int|
        a.blocks@[target as int].insts.len() <= k < b.blocks@[target as int].insts.len() ==> hoistable(
            #[trigger] b.blocks@[target as int].insts@[k],
        )
    &&& (b.blocks@[target as int].insts@ + body_insts(b.blocks@, body)).to_multiset() == (a.blocks@[target as int].insts@
        + body_insts(a.blocks@, body)).to_multiset()
    &&& forall|t: int, k: int|
        0 <= t < body.len() && 0 <= k < b.blocks@[body[t] as int].insts.len() ==> !movable(
            #[trigger] b.blocks@[body[t] as int].insts@[k],
            def_seq(b),
            body,
        )
    &&& exists|n: nat| hoist_rounds(a, b, n, target, body)
}

/// `b` is `a` after the hoists of `work`, one after another.
pub open spec fn hoisted_all(a: IrFunc, b: IrFunc, work: Seq<(BlockId, Seq<BlockId>)>) -> bool
    decreases work.len(),
{
    if work.len() == 0 {
        b == a
    } else {
        exists|mid: IrFunc|
            hoisted_all(a, mid, work.drop_last()) && #[trigger] hoisted(mid, b, work.last().0, work.last().1)
    }
}

/// The order the loops are handled in: deepest header first, ties in
/// their listed order.
#[verifier::spinoff_prover]
#[verifier::rlimit(40)]
fn innermost_first(loops: &LoopForest) -> (r: Vec<usize>)
    requires
        forall|i: int| 0 <= i < loops.loops.len() ==> (#[trigger] loops.loops@[i]).header < loops.depth.len(),
    ensures
        r.len() == loops.loops.len(),
        forall|k: int| 0 <= k < r.len() ==> #[trigger] r@[k] < loops.loops.len(),
        forall|k1: int, k2: int| 0 <= k1 < k2 < r.len() ==> r@[k1] != r@[k2],
        innermost_order(*loops, r@),
{
    let n = loops.loops.len();
    let mut r: Vec<usize> = Vec::new();
    let mut li: usize = 0;
    while li < n
        invariant
            li <= n,
            n == loops.loops.len(),
            r.len() == li,
            forall|i: int| 0 <= i < loops.loops.len() ==> (#[trigger] loops.loops@[i]).header < loops.depth.len(),
            forall|k: int| 0 <= k < r.len() ==> #[trigger] r@[k] < li,
            forall|k1: int, k2: int| 0 <= k1 < k2 < r.len() ==> r@[k1] != r@[k2],
            forall|k1: int, k2: int|
                0 <= k1 < k2 < r.len() ==> loops.depth@[loops.loops@[r@[k1] as int].header as int]
                    >= loops.depth@[loops.loops@[r@[k2] as int].header as int],
            forall|k1: int, k2: int|
                0 <= k1 < k2 < r.len() && loops.depth@[loops.loops@[r@[k1] as int].header as int]
                    == loops.depth@[loops.loops@[r@[k2] as int].header as int] ==> r@[k1] < r@[k2],
        decreases n - li,
    {
        let d = loops.depth[loops.loops[li].header as usize];
        let mut i: usize = 0;
        while i < r.len() && loops.depth[loops.loops[r[i]].header as usize] >= d
            invariant
                i <= r.len(),
                li < n,
                n == loops.loops.len(),
                d == loops.depth@[loops.loops@[li as int].header as int],
                forall|ii: int| 0 <= ii < loops.loops.len() ==> (#[trigger] loops.loops@[ii]).header < loops.depth.len(),
                forall|k: int| 0 <= k < r.len() ==> #[trigger] r@[k] < li,
                forall|k: int| 0 <= k < i ==> loops.depth@[loops.loops@[#[trigger] r@[k] as int].header as int] >= d,
            decreases r.len() - i,
        {
            i += 1;
        }
        let ghost r0 = r@;
        r.insert(i, li);
        proof {
            r0.insert_ensures(i as int, li);
            assert forall|k1: int, k2: int| 0 <= k1 < k2 < r.len() implies loops.depth@[loops.loops@[r@[
                k1
            ] as int].header as int] >= loops.depth@[loops.loops@[r@[k2] as int].header as int] by {
                if k2 < i {
                } else if k2 == i {
                } else if k1 < i {
                    assert(r@[k2] == r0[k2 - 1]);
                    if k2 - 1 == i as int {
                    } else {
                        assert(loops.depth@[loops.loops@[r0[i as int] as int].header as int] >= loops.depth@[
                            loops.loops@[r0[k2 - 1] as int].header as int
                        ]);
                    }
                } else if k1 == i {
                    assert(r@[k2] == r0[k2 - 1]);
                    assert(!(loops.depth@[loops.loops@[r0[i as int] as int].header as int] >= d));
                    if k2 - 1 > i {
                        assert(loops.depth@[loops.loops@[r0[i as int] as int].header as int] >= loops.depth@[
                            loops.loops@[r0[k2 - 1] as int].header as int
                        ]);
                    }
                } else {
                    assert(r@[k1] == r0[k1 - 1] && r@[k2] == r0[k2 - 1]);
                }
            }
            assert forall|k1: int, k2: int| 0 <= k1 < k2 < r.len() implies r@[k1] != r@[k2] by {
                if k1 == i {
                    assert(r@[k2] == r0[k2 - 1]);
                } else if k2 == i {
                    assert(r@[k1] == r0[k1]);
                } else {
                    let a = if k1 < i { k1 } else { k1 - 1 };
                    let b = if k2 < i { k2 } else { k2 - 1 };
                    assert(r@[k1] == r0[a] && r@[k2] == r0[b]);
                }
            }
            assert forall|k1: int, k2: int|
                0 <= k1 < k2 < r.len() && loops.depth@[loops.loops@[r@[k1] as int].header as int]
                    == loops.depth@[loops.loops@[r@[k2] as int].header as int] implies r@[k1] < r@[k2] by {
                if k1 == i {
                    assert(r@[k2] == r0[k2 - 1]);
                    assert(loops.depth@[loops.loops@[r0[i as int] as int].header as int] < d);
                    if k2 - 1 > i {
                        assert(loops.depth@[loops.loops@[r0[i as int] as int].header as int] >= loops.depth@[
                            loops.loops@[r0[k2 - 1] as int].header as int
                        ]);
                    }
                } else if k2 == i {
                    assert(r@[k1] == r0[k1]);
                } else {
                    let a = if k1 < i { k1 } else { k1 - 1 };
                    let b = if k2 < i { k2 } else { k2 - 1 };
                    assert(r@[k1] == r0[a] && r@[k2] == r0[b]);
                }
            }
            assert forall|k: int| 0 <= k < r.len() implies #[trigger] r@[k] < li + 1 by {
                if k < i {
                    assert(r@[k] == r0[k]);
                } else if k > i {
                    assert(r@[k] == r0[k - 1]);
                }
            }
        }
        li += 1;
    }
    r
}

/// A copy of a list of block ids.
fn copy_ids(v: &Vec<BlockId>) -> (r: Vec<BlockId>)
    ensures
        r@ == v@,
{
    let mut r: Vec<BlockId> = Vec::new();
    let mut i: usize = 0;
    while i < v.len()
        invariant
            i <= v.len(),
            r@ == v@.take(i as int),
        decreases v.len() - i,
    {
        r.push(v[i]);
        i += 1;
        proof {
            assert(r@ =~= v@.take(i as int));
        }
    }
    proof {
        assert(v@.take(v.len() as int) =~= v@);
    }
    r
}

/// Each loop of `loops` lists blocks of `f` once each, with a header the
/// depth table covers; each immediate dominator is a block or `NONE`.
pub open spec fn analysis_fits(f: IrFunc, loops: LoopForest, idom: Seq<BlockId>) -> bool {
    &&& idom.len() == f.blocks.len()
    &&& forall|i: int| 0 <= i < idom.len() ==> #[trigger] idom[i] == NONE || idom[i] < f.blocks.len()
    &&& forall|i: int|
        0 <= i < loops.loops.len() ==> {
            let l = #[trigger] loops.loops@[i];
            &&& l.header < loops.depth.len()
            &&& l.header < f.blocks.len()
            &&& forall|t: int| 0 <= t < l.body.len() ==> #[trigger] l.body@[t] < f.blocks.len()
            &&& forall|u: int, w: int| 0 <= u < w < l.body.len() ==> l.body@[u] != l.body@[w]
        }
}

/// Loop-invariant code motion over one function, given its loop analysis:
/// innermost loops first, each loop's invariant instructions move to the
/// end of its header's immediate dominator, unless the header has none (it
/// is the entry) or the dominator lies inside the loop.
pub fn run_func(f: &mut IrFunc, loops: &LoopForest, idom: &Vec<BlockId>)
    requires
        defs_in_range(*old(f)),
        insts_ok(*old(f)),
        old(f).blocks.len() <= u32::MAX,
        analysis_fits(*old(f), *loops, idom@),
    ensures
        same_shape(*old(f), *final(f)),
        defs_in_range(*final(f)),
        insts_ok(*final(f)),
        exists|order: Seq<usize>|
            innermost_order(*loops, order) && hoisted_all(*old(f), *final(f), loop_work(*loops, idom@, order)),
{
    let order = innermost_first(loops);
    let mut work: Vec<(BlockId, Vec<BlockId>)> = Vec::new();
    let mut k: usize = 0;
    while k < order.len()
        invariant
            k <= order.len(),
            order.len() == loops.loops.len(),
            forall|q: int| 0 <= q < order.len() ==> #[trigger] order@[q] < loops.loops.len(),
            analysis_fits(*f, *loops, idom@),
            forall|w: int|
                0 <= w < work.len() ==> {
                    let (tg, body) = #[trigger] work@[w];
                    &&& tg < f.blocks.len()
                    &&& !body@.contains(tg)
                    &&& forall|t: int| 0 <= t < body.len() ==> #[trigger] body@[t] < f.blocks.len()
                    &&& forall|u: int, v: int| 0 <= u < v < body.len() ==> body@[u] != body@[v]
                },
            work.len() == loop_work(*loops, idom@, order@.take(k as int)).len(),
            forall|w: int|
                0 <= w < work.len() ==> (#[trigger] work@[w]).0 == loop_work(*loops, idom@, order@.take(k as int))[w].0
                    && work@[w].1@ == loop_work(*loops, idom@, order@.take(k as int))[w].1,
        decreases order.len() - k,
    {
        let l = &loops.loops[order[k]];
        let target = idom[l.header as usize];
        let ghost lw = loop_work(*loops, idom@, order@.take(k as int));
        proof {
            assert(order@.take(k + 1).drop_last() =~= order@.take(k as int));
            assert(order@.take(k + 1).last() == order@[k as int]);
            assert(loops.loops@[order@[k as int] as int] == *l);
        }
        if target != NONE {
            let mut inside = false;
            let mut t: usize = 0;
            while t < l.body.len()
                invariant
                    t <= l.body.len(),
                    inside == exists|u: int| 0 <= u < t && l.body@[u] == target,
                decreases l.body.len() - t,
            {
                if l.body[t] == target {
                    inside = true;
                }
                t += 1;
            }
            if !inside {
                let body = copy_ids(&l.body);
                proof {
                    assert(loops.loops@[order@[k as int] as int] == *l);
                    assert(!body@.contains(target)) by {
                        if body@.contains(target) {
                            let u = choose|u: int| 0 <= u < body.len() && body@[u] == target;
                        }
                    }
                }
                work.push((target, body));
            }
        }
        k += 1;
    }
    proof {
        assert(order@.take(order.len() as int) =~= order@);
    }
    let ghost all = loop_work(*loops, idom@, order@);
    let ghost f0 = *f;
    let mut w: usize = 0;
    while w < work.len()
        invariant
            w <= work.len(),
            same_shape(f0, *f),
            f0 == *old(f),
            defs_in_range(*f),
            insts_ok(*f),
            f.blocks.len() <= u32::MAX,
            forall|q: int|
                0 <= q < work.len() ==> {
                    let (tg, body) = #[trigger] work@[q];
                    &&& tg < f.blocks.len()
                    &&& !body@.contains(tg)
                    &&& forall|t: int| 0 <= t < body.len() ==> #[trigger] body@[t] < f.blocks.len()
                    &&& forall|u: int, v: int| 0 <= u < v < body.len() ==> body@[u] != body@[v]
                },
            work.len() == all.len(),
            forall|q: int| 0 <= q < work.len() ==> (#[trigger] work@[q]).0 == all[q].0 && work@[q].1@ == all[q].1,
            hoisted_all(f0, *f, all.take(w as int)),
        decreases work.len() - w,
    {
        let ghost fb = *f;
        hoist_loop(f, work[w].0, &work[w].1);
        proof {
            let s = all.take(w + 1);
            assert(s.drop_last() =~= all.take(w as int));
            assert(s.last() == all[w as int]);
            assert(hoisted(fb, *f, s.last().0, s.last().1));
            assert forall|i: int| 0 <= i < f0.blocks.len() implies {
                let (x, y) = (f0.blocks@[i], #[trigger] f.blocks@[i]);
                &&& y.id == x.id
                &&& y.phis == x.phis
                &&& y.term == x.term
            } by {
                assert(fb.blocks@[i].id == f0.blocks@[i].id);
            }
        }
        w += 1;
    }
    proof {
        assert(all.take(all.len() as int) =~= all);
    }
}

} // verus!
