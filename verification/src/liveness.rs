//! What each instruction reads and defines, and backward liveness over an
//! out-of-SSA function: one row of `n_vregs` flags per block, computed
//! round-robin to a fixpoint of the dataflow rules.
use crate::destruct::cfg_well_formed;
use crate::ir::{term_successors, ArgTy, ArgVal, IrParam, BlockId, Callee, IrBlock, IrFunc, IrInst, IrRet, IrTerm, IrTy, Val, Vreg};
use vstd::prelude::*;

verus! {

// ---- definitions and uses ----

/// The register an operand reads, if it is one.
pub open spec fn val_regs(v: Val) -> Seq<Vreg> {
    match v {
        Val::Reg(r) => seq![r],
        _ => seq![],
    }
}

pub open spec fn vals_regs(vs: Seq<Val>) -> Seq<Vreg>
    decreases vs.len(),
{
    if vs.len() == 0 {
        seq![]
    } else {
        vals_regs(vs.drop_last()) + val_regs(vs.last())
    }
}

pub open spec fn args_regs(args: Seq<ArgVal>) -> Seq<Vreg>
    decreases args.len(),
{
    if args.len() == 0 {
        seq![]
    } else {
        args_regs(args.drop_last()) + val_regs(args.last().val)
    }
}

/// The registers an instruction reads, one entry per operand occurrence.
pub open spec fn inst_uses(i: IrInst) -> Seq<Vreg> {
    match i {
        IrInst::Mov { src, .. } => val_regs(src),
        IrInst::Bin { lhs, rhs, .. } => val_regs(lhs) + val_regs(rhs),
        IrInst::Cmp { lhs, rhs, .. } => val_regs(lhs) + val_regs(rhs),
        IrInst::Un { src, .. } => val_regs(src),
        IrInst::Cast { src, .. } => val_regs(src),
        IrInst::Load { addr, .. } => val_regs(addr),
        IrInst::Store { addr, val, .. } => val_regs(addr) + val_regs(val),
        IrInst::PtrAdd { base, index, .. } => val_regs(base) + val_regs(index),
        IrInst::Call { callee, args, sret, .. } => (match callee {
            Callee::Indirect(v) => val_regs(v),
            Callee::Direct(_) => seq![],
        }) + args_regs(args@) + (match sret {
            Some(v) => val_regs(v),
            None => seq![],
        }),
        IrInst::Prim { args, .. } => vals_regs(args@),
        IrInst::MemCpy { dst, src, .. } => val_regs(dst) + val_regs(src),
        IrInst::MemZero { dst, .. } => val_regs(dst),
        _ => seq![],
    }
}

/// The register an instruction defines, and whether it holds a float.
pub open spec fn inst_def(i: IrInst) -> Option<(Vreg, bool)> {
    match i {
        IrInst::Mov { dst, ty, .. } => Some((dst, ty.spec_is_float())),
        IrInst::Bin { dst, ty, .. } => Some((dst, ty.spec_is_float())),
        IrInst::Cmp { dst, .. } => Some((dst, false)),
        IrInst::Un { dst, ty, .. } => Some((dst, ty.spec_is_float())),
        IrInst::Cast { dst, to, .. } => Some((dst, to.spec_is_float())),
        IrInst::Load { dst, ty, .. } => Some((dst, ty.spec_is_float())),
        IrInst::PtrAdd { dst, .. } => Some((dst, false)),
        IrInst::SlotAddr { dst, .. } => Some((dst, false)),
        IrInst::GlobalAddr { dst, .. } => Some((dst, false)),
        IrInst::StrAddr { dst, .. } => Some((dst, false)),
        IrInst::FuncAddr { dst, .. } => Some((dst, false)),
        IrInst::Call { dst: Some(d), ret, .. } => Some((d, ret == IrRet::Scalar(IrTy::F64))),
        IrInst::Prim { dst: Some(d), .. } => Some((d, false)),
        _ => None,
    }
}

/// The registers a terminator reads.
pub open spec fn term_uses(t: IrTerm) -> Seq<Vreg> {
    match t {
        IrTerm::CondBr { cond, .. } => val_regs(cond),
        IrTerm::Switch { val, .. } => val_regs(val),
        IrTerm::Ret(Some(v)) => val_regs(v),
        IrTerm::Throw(v) => val_regs(v),
        _ => seq![],
    }
}

fn push_val_reg(out: &mut Vec<Vreg>, v: Val)
    ensures
        final(out)@ == old(out)@ + val_regs(v),
{
    if let Val::Reg(r) = v {
        out.push(r);
    }
    proof {
        assert(out@ =~= old(out)@ + val_regs(v));
    }
}

fn push_vals_regs(out: &mut Vec<Vreg>, vs: &Vec<Val>)
    ensures
        final(out)@ == old(out)@ + vals_regs(vs@),
{
    let mut i: usize = 0;
    while i < vs.len()
        invariant
            i <= vs.len(),
            out@ == old(out)@ + vals_regs(vs@.take(i as int)),
        decreases vs.len() - i,
    {
        push_val_reg(out, vs[i]);
        proof {
            assert(vs@.take(i as int + 1).drop_last() =~= vs@.take(i as int));
            assert(out@ =~= old(out)@ + vals_regs(vs@.take(i as int + 1)));
        }
        i += 1;
    }
    proof {
        assert(vs@.take(vs.len() as int) =~= vs@);
    }
}

fn push_args_regs(out: &mut Vec<Vreg>, args: &Vec<ArgVal>)
    ensures
        final(out)@ == old(out)@ + args_regs(args@),
{
    let mut i: usize = 0;
    while i < args.len()
        invariant
            i <= args.len(),
            out@ == old(out)@ + args_regs(args@.take(i as int)),
        decreases args.len() - i,
    {
        push_val_reg(out, args[i].val);
        proof {
            assert(args@.take(i as int + 1).drop_last() =~= args@.take(i as int));
            assert(out@ =~= old(out)@ + args_regs(args@.take(i as int + 1)));
        }
        i += 1;
    }
    proof {
        assert(args@.take(args.len() as int) =~= args@);
    }
}

/// The registers an instruction reads.
pub fn uses_of(i: &IrInst) -> (r: Vec<Vreg>)
    ensures
        r@ == inst_uses(*i),
{
    let mut out: Vec<Vreg> = Vec::new();
    match i {
        IrInst::Mov { src, .. } => push_val_reg(&mut out, *src),
        IrInst::Bin { lhs, rhs, .. } => {
            push_val_reg(&mut out, *lhs);
            push_val_reg(&mut out, *rhs);
        },
        IrInst::Cmp { lhs, rhs, .. } => {
            push_val_reg(&mut out, *lhs);
            push_val_reg(&mut out, *rhs);
        },
        IrInst::Un { src, .. } => push_val_reg(&mut out, *src),
        IrInst::Cast { src, .. } => push_val_reg(&mut out, *src),
        IrInst::Load { addr, .. } => push_val_reg(&mut out, *addr),
        IrInst::Store { addr, val, .. } => {
            push_val_reg(&mut out, *addr);
            push_val_reg(&mut out, *val);
        },
        IrInst::PtrAdd { base, index, .. } => {
            push_val_reg(&mut out, *base);
            push_val_reg(&mut out, *index);
        },
        IrInst::Call { callee, args, sret, .. } => {
            match callee {
                Callee::Indirect(v) => push_val_reg(&mut out, *v),
                Callee::Direct(_) => {},
            }
            push_args_regs(&mut out, args);
            match sret {
                Some(v) => push_val_reg(&mut out, *v),
                None => {},
            }
        },
        IrInst::Prim { args, .. } => push_vals_regs(&mut out, args),
        IrInst::MemCpy { dst, src, .. } => {
            push_val_reg(&mut out, *dst);
            push_val_reg(&mut out, *src);
        },
        IrInst::MemZero { dst, .. } => push_val_reg(&mut out, *dst),
        _ => {},
    }
    proof {
        assert(out@ =~= inst_uses(*i));
    }
    out
}

/// The register an instruction defines, and whether it holds a float.
pub fn def_of(i: &IrInst) -> (r: Option<(Vreg, bool)>)
    ensures
        r == inst_def(*i),
{
    match i {
        IrInst::Mov { dst, ty, .. } => Some((*dst, ty.is_float())),
        IrInst::Bin { dst, ty, .. } => Some((*dst, ty.is_float())),
        IrInst::Cmp { dst, .. } => Some((*dst, false)),
        IrInst::Un { dst, ty, .. } => Some((*dst, ty.is_float())),
        IrInst::Cast { dst, to, .. } => Some((*dst, to.is_float())),
        IrInst::Load { dst, ty, .. } => Some((*dst, ty.is_float())),
        IrInst::PtrAdd { dst, .. } => Some((*dst, false)),
        IrInst::SlotAddr { dst, .. } => Some((*dst, false)),
        IrInst::GlobalAddr { dst, .. } => Some((*dst, false)),
        IrInst::StrAddr { dst, .. } => Some((*dst, false)),
        IrInst::FuncAddr { dst, .. } => Some((*dst, false)),
        IrInst::Call { dst: Some(d), ret, .. } => Some((*d, matches!(ret, IrRet::Scalar(IrTy::F64)))),
        IrInst::Prim { dst: Some(d), .. } => Some((*d, false)),
        _ => None,
    }
}

/// The registers a terminator reads.
pub fn term_uses_of(t: &IrTerm) -> (r: Vec<Vreg>)
    ensures
        r@ == term_uses(*t),
{
    let mut out: Vec<Vreg> = Vec::new();
    match t {
        IrTerm::CondBr { cond, .. } => push_val_reg(&mut out, *cond),
        IrTerm::Switch { val, .. } => push_val_reg(&mut out, *val),
        IrTerm::Ret(Some(v)) => push_val_reg(&mut out, *v),
        IrTerm::Throw(v) => push_val_reg(&mut out, *v),
        _ => {},
    }
    proof {
        assert(out@ =~= term_uses(*t));
    }
    out
}


// ---- liveness ----

/// `v` is defined by one of the first `k` instructions of `b`.
pub open spec fn defined_before(b: IrBlock, k: int, v: Vreg) -> bool
    decreases k,
{
    if k <= 0 {
        false
    } else {
        defined_before(b, k - 1, v) || (inst_def(b.insts@[k - 1]) matches Some((d, _)) && d == v)
    }
}

/// One of the first `k` instructions of `b` reads `v` before `b` defines it.
pub open spec fn exposed_in(b: IrBlock, k: int, v: Vreg) -> bool
    decreases k,
{
    if k <= 0 {
        false
    } else {
        exposed_in(b, k - 1, v) || (inst_uses(b.insts@[k - 1]).contains(v) && !defined_before(b, k - 1, v))
    }
}

/// `b` reads `v` before (or without) defining it.
pub open spec fn upward_exposed(b: IrBlock, v: Vreg) -> bool {
    let len = b.insts.len() as int;
    exposed_in(b, len, v) || (term_uses(b.term).contains(v) && !defined_before(b, len, v))
}

/// Every vreg the function mentions is below `n`, every successor names a
/// block, and the linear positions fit in `u32`.
pub open spec fn allocatable(f: IrFunc) -> bool {
    let n = f.n_vregs as int;
    &&& cfg_well_formed(f.blocks@)
    &&& forall|i: int| 0 <= i < f.params.len() ==> (#[trigger] f.params@[i]).vreg < n
    &&& forall|b: int| 0 <= b < f.blocks.len() ==> #[trigger] block_in_range(f.blocks@[b], n)
    &&& f.blocks.len() <= u32::MAX
    &&& total_positions(f.blocks@) < u32::MAX
}

/// Every vreg `b` reads or defines is below `n`.
pub open spec fn block_in_range(b: IrBlock, n: int) -> bool {
    &&& forall|k: int, j: int|
        0 <= k < b.insts.len() && 0 <= j < inst_uses(b.insts@[k]).len() ==> #[trigger] inst_uses(b.insts@[k])[j] < n
    &&& forall|k: int| 0 <= k < b.insts.len() ==> (#[trigger] inst_def(b.insts@[k]) matches Some((d, _)) ==> d < n)
    &&& forall|j: int| 0 <= j < term_uses(b.term).len() ==> #[trigger] term_uses(b.term)[j] < n
}

/// One position per instruction and one per terminator.
pub open spec fn total_positions(bs: Seq<IrBlock>) -> int
    decreases bs.len(),
{
    if bs.len() == 0 {
        0
    } else {
        total_positions(bs.drop_last()) + bs.last().insts.len() + 1
    }
}

/// Marks each entry of `us` in `uses`, unless `defs` already holds it.
fn mark_exposed(uses: &mut Vec<bool>, defs: &Vec<bool>, us: &Vec<Vreg>)
    requires
        old(uses).len() == defs.len(),
        defs.len() <= u32::MAX,
        forall|j: int| 0 <= j < us.len() ==> us@[j] < defs.len(),
    ensures
        final(uses).len() == defs.len(),
        forall|v: int|
            0 <= v < defs.len() ==> #[trigger] final(uses)@[v] == (old(uses)@[v] || (us@.contains(v as Vreg)
                && !defs@[v])),
{
    let mut j: usize = 0;
    while j < us.len()
        invariant
            j <= us.len(),
            uses.len() == defs.len(),
            defs.len() <= u32::MAX,
            forall|jj: int| 0 <= jj < us.len() ==> us@[jj] < defs.len(),
            forall|v: int|
                0 <= v < defs.len() ==> #[trigger] uses@[v] == (old(uses)@[v] || (us@.take(j as int).contains(
                    v as Vreg,
                ) && !defs@[v])),
        decreases us.len() - j,
    {
        let r = us[j];
        if !defs[r as usize] {
            uses.set(r as usize, true);
        }
        proof {
            let t = us@.take(j as int);
            assert(us@.take(j as int + 1) =~= t.push(r));
            assert forall|x: Vreg| #[trigger] t.push(r).contains(x) == (t.contains(x) || x == r) by {
                if t.push(r).contains(x) {
                    let i = choose|i: int| 0 <= i < t.push(r).len() && t.push(r)[i] == x;
                    if i < t.len() {
                        assert(t[i] == x);
                    }
                }
                if t.contains(x) {
                    let i = choose|i: int| 0 <= i < t.len() && t[i] == x;
                    assert(t.push(r)[i] == x);
                }
                if x == r {
                    assert(t.push(r)[t.len() as int] == x);
                }
            }
        }
        j += 1;
    }
    proof {
        assert(us@.take(us.len() as int) =~= us@);
    }
}

/// The per-block sets of upward-exposed uses and of definitions.
pub fn block_use_def(b: &IrBlock, n: usize) -> (r: (Vec<bool>, Vec<bool>))
    requires
        block_in_range(*b, n as int),
        n <= u32::MAX,
    ensures
        r.0.len() == n,
        r.1.len() == n,
        forall|v: int| 0 <= v < n ==> #[trigger] r.0@[v] == upward_exposed(*b, v as Vreg),
        forall|v: int| 0 <= v < n ==> #[trigger] r.1@[v] == defined_before(*b, b.insts.len() as int, v as Vreg),
{
    let mut uses: Vec<bool> = Vec::new();
    let mut defs: Vec<bool> = Vec::new();
    let mut z: usize = 0;
    while z < n
        invariant
            z <= n,
            uses.len() == z,
            defs.len() == z,
            forall|v: int| 0 <= v < z ==> !uses@[v] && !defs@[v],
        decreases n - z,
    {
        uses.push(false);
        defs.push(false);
        z += 1;
    }
    let mut k: usize = 0;
    while k < b.insts.len()
        invariant
            k <= b.insts.len(),
            uses.len() == n,
            defs.len() == n,
            block_in_range(*b, n as int),
            n <= u32::MAX,
            forall|v: int| 0 <= v < n ==> #[trigger] defs@[v] == defined_before(*b, k as int, v as Vreg),
            forall|v: int| 0 <= v < n ==> #[trigger] uses@[v] == exposed_in(*b, k as int, v as Vreg),
        decreases b.insts.len() - k,
    {
        let us = uses_of(&b.insts[k]);
        proof {
            assert forall|jj: int| 0 <= jj < us.len() implies us@[jj] < n by {
                assert(inst_uses(b.insts@[k as int])[jj] < n);
            }
        }
        mark_exposed(&mut uses, &defs, &us);
        match def_of(&b.insts[k]) {
            Some((d, _)) => {
                assert(inst_def(b.insts@[k as int]) matches Some((d2, _)) ==> d2 < n);
                defs.set(d as usize, true);
            },
            None => {},
        }
        k += 1;
    }
    let tu = term_uses_of(&b.term);
    mark_exposed(&mut uses, &defs, &tu);
    (uses, defs)
}


/// The rows of a table of flags, as sequences.
pub open spec fn rows_of(v: Seq<Vec<bool>>) -> Seq<Seq<bool>> {
    v.map_values(|r: Vec<bool>| r@)
}

/// The number of `true` entries of `s`.
pub open spec fn count_true(s: Seq<bool>) -> nat
    decreases s.len(),
{
    if s.len() == 0 {
        0
    } else {
        count_true(s.drop_last()) + if s.last() {
            1nat
        } else {
            0nat
        }
    }
}

/// The number of `true` entries over all rows.
pub open spec fn count_rows(rows: Seq<Seq<bool>>) -> nat
    decreases rows.len(),
{
    if rows.len() == 0 {
        0
    } else {
        count_rows(rows.drop_last()) + count_true(rows.last())
    }
}

proof fn lemma_count_bound(s: Seq<bool>)
    ensures
        count_true(s) <= s.len(),
    decreases s.len(),
{
    if s.len() > 0 {
        lemma_count_bound(s.drop_last());
    }
}

proof fn lemma_count_grow(a: Seq<bool>, b: Seq<bool>)
    requires
        a.len() == b.len(),
        forall|i: int| 0 <= i < a.len() && a[i] ==> b[i],
    ensures
        count_true(a) <= count_true(b),
        (exists|i: int| 0 <= i < a.len() && !a[i] && b[i]) ==> count_true(a) < count_true(b),
    decreases a.len(),
{
    if a.len() > 0 {
        lemma_count_grow(a.drop_last(), b.drop_last());
        if exists|i: int| 0 <= i < a.len() && !a[i] && b[i] {
            let i = choose|i: int| 0 <= i < a.len() && !a[i] && b[i];
            if i < a.len() - 1 {
                assert(!a.drop_last()[i] && b.drop_last()[i]);
            }
        }
    }
}

proof fn lemma_rows_bound(rows: Seq<Seq<bool>>, n: nat)
    requires
        forall|i: int| 0 <= i < rows.len() ==> (#[trigger] rows[i]).len() == n,
    ensures
        count_rows(rows) <= rows.len() * n,
    decreases rows.len(),
{
    if rows.len() > 0 {
        lemma_rows_bound(rows.drop_last(), n);
        lemma_count_bound(rows.last());
        let m = rows.len();
        assert((m - 1) * n + n == m * n) by (nonlinear_arith);
    }
}

proof fn lemma_rows_update(rows: Seq<Seq<bool>>, i: int, r: Seq<bool>)
    requires
        0 <= i < rows.len(),
        r.len() == rows[i].len(),
        forall|j: int| 0 <= j < r.len() && rows[i][j] ==> r[j],
    ensures
        count_rows(rows) <= count_rows(rows.update(i, r)),
        (exists|j: int| 0 <= j < r.len() && !rows[i][j] && r[j]) ==> count_rows(rows) < count_rows(
            rows.update(i, r),
        ),
    decreases rows.len(),
{
    lemma_count_grow(rows[i], r);
    if i == rows.len() - 1 {
        assert(rows.update(i, r).drop_last() =~= rows.drop_last());
    } else {
        lemma_rows_update(rows.drop_last(), i, r);
        assert(rows.update(i, r).drop_last() =~= rows.drop_last().update(i, r));
    }
}

/// Block `b` obeys the backward liveness rules: its live-in holds what it
/// reads before defining and what is live out of it without being defined
/// in it; its live-out holds what is live into each successor.
pub open spec fn block_closed(blk: IrBlock, live_in: Seq<Seq<bool>>, live_out: Seq<Seq<bool>>, b: int, n: int) -> bool {
    let len = blk.insts.len() as int;
    &&& forall|v: int| 0 <= v < n && upward_exposed(blk, v as Vreg) ==> #[trigger] live_in[b][v]
    &&& forall|v: int|
        0 <= v < n && #[trigger] live_out[b][v] && !defined_before(blk, len, v as Vreg) ==> live_in[b][v]
    &&& forall|k: int, v: int|
        0 <= k < term_successors(blk.term).len() && 0 <= v < n && #[trigger] live_in[term_successors(
            blk.term,
        )[k] as int][v] ==> live_out[b][v]
}

/// `live_in` and `live_out` give one row of `n_vregs` flags per block and
/// are closed under the liveness rules of every block: a superset of the
/// vregs whose value may still be read.
pub open spec fn live_closed(f: IrFunc, live_in: Seq<Seq<bool>>, live_out: Seq<Seq<bool>>) -> bool {
    let nb = f.blocks.len() as int;
    let n = f.n_vregs as int;
    &&& live_in.len() == nb
    &&& live_out.len() == nb
    &&& forall|b: int| 0 <= b < nb ==> (#[trigger] live_in[b]).len() == n
    &&& forall|b: int| 0 <= b < nb ==> (#[trigger] live_out[b]).len() == n
    &&& forall|b: int| 0 <= b < nb ==> #[trigger] block_closed(f.blocks@[b], live_in, live_out, b, n)
}

/// Every flag set in `a_in`/`a_out` is also set in `b_in`/`b_out`.
pub open spec fn rows_below(
    a_in: Seq<Seq<bool>>,
    a_out: Seq<Seq<bool>>,
    b_in: Seq<Seq<bool>>,
    b_out: Seq<Seq<bool>>,
    nb: int,
    n: int,
) -> bool {
    &&& forall|b: int, v: int| 0 <= b < nb && 0 <= v < n && #[trigger] a_in[b][v] ==> b_in[b][v]
    &&& forall|b: int, v: int| 0 <= b < nb && 0 <= v < n && #[trigger] a_out[b][v] ==> b_out[b][v]
}

/// One block's update keeps the rows under any closed solution.
proof fn lemma_round_below(
    f: IrFunc,
    in0: Seq<Seq<bool>>,
    out0: Seq<Seq<bool>>,
    no: Seq<bool>,
    ni: Seq<bool>,
    bi: int,
    li2: Seq<Seq<bool>>,
    lo2: Seq<Seq<bool>>,
    u: Seq<bool>,
    d: Seq<bool>,
)
    requires
        live_closed(f, li2, lo2),
        rows_below(in0, out0, li2, lo2, f.blocks.len() as int, f.n_vregs as int),
        0 <= bi < f.blocks.len(),
        in0.len() == f.blocks.len(),
        out0.len() == f.blocks.len(),
        forall|k: int|
            0 <= k < term_successors(f.blocks@[bi].term).len() ==> #[trigger] term_successors(f.blocks@[bi].term)[k]
                < f.blocks.len(),
        forall|v: int| 0 <= v < f.n_vregs ==> #[trigger] u[v] == upward_exposed(f.blocks@[bi], v as Vreg),
        forall|v: int|
            0 <= v < f.n_vregs ==> #[trigger] d[v] == defined_before(
                f.blocks@[bi],
                f.blocks@[bi].insts.len() as int,
                v as Vreg,
            ),
        forall|v: int|
            0 <= v < f.n_vregs ==> #[trigger] no[v] == (out0[bi][v] || exists|k: int|
                0 <= k < term_successors(f.blocks@[bi].term).len() && #[trigger] in0[term_successors(
                    f.blocks@[bi].term,
                )[k] as int][v]),
        forall|v: int| 0 <= v < f.n_vregs ==> #[trigger] ni[v] == (in0[bi][v] || u[v] || (no[v] && !d[v])),
    ensures
        rows_below(
            in0.update(bi, ni),
            out0.update(bi, no),
            li2,
            lo2,
            f.blocks.len() as int,
            f.n_vregs as int,
        ),
{
    let nb = f.blocks.len() as int;
    let n = f.n_vregs as int;
    let blk = f.blocks@[bi];
    assert(block_closed(blk, li2, lo2, bi, n));
    assert forall|v: int| 0 <= v < n && #[trigger] no[v] implies lo2[bi][v] by {
        if !out0[bi][v] {
            let k = choose|k: int|
                0 <= k < term_successors(blk.term).len() && #[trigger] in0[term_successors(blk.term)[k] as int][v];
            assert(li2[term_successors(blk.term)[k] as int][v]);
        }
    }
    assert forall|v: int| 0 <= v < n && #[trigger] ni[v] implies li2[bi][v] by {
        if !in0[bi][v] && !u[v] {
            assert(lo2[bi][v]);
        }
    }
    assert forall|b: int, v: int| 0 <= b < nb && 0 <= v < n && #[trigger] in0.update(bi, ni)[b][v] implies li2[b][v] by {
        if b == bi {
            assert(ni[v]);
        } else {
            assert(in0[b][v]);
        }
    }
    assert forall|b: int, v: int| 0 <= b < nb && 0 <= v < n && #[trigger] out0.update(bi, no)[b][v] implies lo2[b][v] by {
        if b == bi {
            assert(no[v]);
        } else {
            assert(out0[b][v]);
        }
    }
}

/// `old` widened by what is live into any of `succ`; and whether it grew.
#[verifier::spinoff_prover]
fn merge_out(live_in: &Vec<Vec<bool>>, succ: &Vec<BlockId>, old: &Vec<bool>, n: usize) -> (r: (Vec<bool>, bool))
    requires
        old.len() == n,
        forall|k: int| 0 <= k < succ.len() ==> #[trigger] succ@[k] < live_in.len(),
        forall|b: int| 0 <= b < live_in.len() ==> (#[trigger] live_in@[b]).len() == n,
    ensures
        r.0.len() == n,
        forall|v: int|
            0 <= v < n ==> #[trigger] r.0@[v] == (old@[v] || exists|k: int|
                0 <= k < succ.len() && #[trigger] live_in@[succ@[k] as int]@[v]),
        r.1 == exists|v: int| 0 <= v < n && !old@[v] && #[trigger] r.0@[v],
{
    let mut row: Vec<bool> = Vec::new();
    let mut ch = false;
    let mut v: usize = 0;
    while v < n
        invariant
            v <= n,
            old.len() == n,
            row.len() == v,
            forall|k: int| 0 <= k < succ.len() ==> #[trigger] succ@[k] < live_in.len(),
            forall|b: int| 0 <= b < live_in.len() ==> (#[trigger] live_in@[b]).len() == n,
            forall|w: int|
                0 <= w < v ==> #[trigger] row@[w] == (old@[w] || exists|k: int|
                    0 <= k < succ.len() && #[trigger] live_in@[succ@[k] as int]@[w]),
            ch == exists|w: int| 0 <= w < v && !old@[w] && #[trigger] row@[w],
        decreases n - v,
    {
        let mut x = old[v];
        let mut k: usize = 0;
        while k < succ.len()
            invariant
                k <= succ.len(),
                v < n,
                old.len() == n,
                forall|kk: int| 0 <= kk < succ.len() ==> #[trigger] succ@[kk] < live_in.len(),
                forall|b: int| 0 <= b < live_in.len() ==> (#[trigger] live_in@[b]).len() == n,
                x == (old@[v as int] || exists|kk: int|
                    0 <= kk < k && #[trigger] live_in@[succ@[kk] as int]@[v as int]),
            decreases succ.len() - k,
        {
            let s = succ[k] as usize;
            if live_in[s][v] {
                x = true;
            }
            k += 1;
        }
        let grew = x && !old[v];
        let ghost prev = row@;
        row.push(x);
        if grew {
            ch = true;
        }
        proof {
            assert(row@[v as int] == x);
            assert forall|w: int| 0 <= w < v implies row@[w] == prev[w] by {}
        }
        v += 1;
    }
    proof {
        assert(v == n);
        assert(ch == exists|w: int| 0 <= w < n && !old@[w] && #[trigger] row@[w]);
    }
    (row, ch)
}

/// `old` widened by the upward-exposed uses and by what is live out and not
/// defined; and whether it grew.
fn merge_in(uses: &Vec<bool>, defs: &Vec<bool>, out: &Vec<bool>, old: &Vec<bool>) -> (r: (Vec<bool>, bool))
    requires
        uses.len() == old.len(),
        defs.len() == old.len(),
        out.len() == old.len(),
    ensures
        r.0.len() == old.len(),
        forall|v: int|
            0 <= v < old.len() ==> #[trigger] r.0@[v] == (old@[v] || uses@[v] || (out@[v] && !defs@[v])),
        r.1 == exists|v: int| 0 <= v < old.len() && !old@[v] && #[trigger] r.0@[v],
{
    let n = old.len();
    let mut row: Vec<bool> = Vec::new();
    let mut ch = false;
    let mut v: usize = 0;
    while v < n
        invariant
            v <= n,
            n == old.len(),
            uses.len() == n,
            defs.len() == n,
            out.len() == n,
            row.len() == v,
            forall|w: int| 0 <= w < v ==> #[trigger] row@[w] == (old@[w] || uses@[w] || (out@[w] && !defs@[w])),
            ch == exists|w: int| 0 <= w < v && !old@[w] && #[trigger] row@[w],
        decreases n - v,
    {
        let x = old[v] || uses[v] || (out[v] && !defs[v]);
        let grew = x && !old[v];
        let ghost prev = row@;
        row.push(x);
        if grew {
            ch = true;
        }
        proof {
            assert(row@[v as int] == x);
            assert forall|w: int| 0 <= w < v implies row@[w] == prev[w] by {}
        }
        v += 1;
    }
    (row, ch)
}

/// `nb` rows of `n` false flags.
fn empty_rows(nb: usize, n: usize) -> (r: Vec<Vec<bool>>)
    ensures
        r.len() == nb,
        forall|b: int| 0 <= b < nb ==> (#[trigger] r@[b]).len() == n,
        forall|b: int, v: int| 0 <= b < nb && 0 <= v < n ==> !#[trigger] r@[b]@[v],
{
    let mut rows: Vec<Vec<bool>> = Vec::new();
    let mut b: usize = 0;
    while b < nb
        invariant
            b <= nb,
            rows.len() == b,
            forall|bb: int| 0 <= bb < b ==> (#[trigger] rows@[bb]).len() == n,
            forall|bb: int, v: int| 0 <= bb < b && 0 <= v < n ==> !#[trigger] rows@[bb]@[v],
        decreases nb - b,
    {
        let mut row: Vec<bool> = Vec::new();
        let mut v: usize = 0;
        while v < n
            invariant
                v <= n,
                row.len() == v,
                forall|w: int| 0 <= w < v ==> !#[trigger] row@[w],
            decreases n - v,
        {
            row.push(false);
            v += 1;
        }
        rows.push(row);
        b += 1;
    }
    rows
}

/// Live-in and live-out rows for every block of `f`, from the per-block
/// upward-exposed uses and definitions, iterated to a fixpoint.
pub fn liveness(f: &IrFunc, uses: &Vec<Vec<bool>>, defs: &Vec<Vec<bool>>, succs: &Vec<Vec<BlockId>>) -> (r: (
    Vec<Vec<bool>>,
    Vec<Vec<bool>>,
))
    requires
        cfg_well_formed(f.blocks@),
        uses.len() == f.blocks.len(),
        defs.len() == f.blocks.len(),
        succs.len() == f.blocks.len(),
        forall|b: int| 0 <= b < f.blocks.len() ==> (#[trigger] uses@[b]).len() == f.n_vregs,
        forall|b: int| 0 <= b < f.blocks.len() ==> (#[trigger] defs@[b]).len() == f.n_vregs,
        forall|b: int, v: int|
            0 <= b < f.blocks.len() && 0 <= v < f.n_vregs ==> #[trigger] uses@[b]@[v] == upward_exposed(
                f.blocks@[b],
                v as Vreg,
            ),
        forall|b: int, v: int|
            0 <= b < f.blocks.len() && 0 <= v < f.n_vregs ==> #[trigger] defs@[b]@[v] == defined_before(
                f.blocks@[b],
                f.blocks@[b].insts.len() as int,
                v as Vreg,
            ),
        forall|b: int| 0 <= b < f.blocks.len() ==> (#[trigger] succs@[b])@ == term_successors(f.blocks@[b].term),
    ensures
        live_closed(*f, rows_of(r.0@), rows_of(r.1@)),
        forall|li: Seq<Seq<bool>>, lo: Seq<Seq<bool>>|
            #[trigger] live_closed(*f, li, lo) ==> rows_below(
                rows_of(r.0@),
                rows_of(r.1@),
                li,
                lo,
                f.blocks.len() as int,
                f.n_vregs as int,
            ),
        r.0.len() == f.blocks.len(),
        r.1.len() == f.blocks.len(),
        forall|b: int| 0 <= b < f.blocks.len() ==> (#[trigger] r.0@[b]).len() == f.n_vregs,
        forall|b: int| 0 <= b < f.blocks.len() ==> (#[trigger] r.1@[b]).len() == f.n_vregs,
{
    let nb = f.blocks.len();
    let n = f.n_vregs as usize;
    let mut live_in = empty_rows(nb, n);
    let mut live_out = empty_rows(nb, n);
    loop
        invariant
            nb == f.blocks.len(),
            n == f.n_vregs,
            cfg_well_formed(f.blocks@),
            uses.len() == nb,
            defs.len() == nb,
            succs.len() == nb,
            forall|b: int| 0 <= b < nb ==> (#[trigger] uses@[b]).len() == n,
            forall|b: int| 0 <= b < nb ==> (#[trigger] defs@[b]).len() == n,
            forall|b: int, v: int|
                0 <= b < nb && 0 <= v < n ==> #[trigger] uses@[b]@[v] == upward_exposed(f.blocks@[b], v as Vreg),
            forall|b: int, v: int|
                0 <= b < nb && 0 <= v < n ==> #[trigger] defs@[b]@[v] == defined_before(
                    f.blocks@[b],
                    f.blocks@[b].insts.len() as int,
                    v as Vreg,
                ),
            forall|b: int| 0 <= b < nb ==> (#[trigger] succs@[b])@ == term_successors(f.blocks@[b].term),
            live_in.len() == nb,
            live_out.len() == nb,
            forall|b: int| 0 <= b < nb ==> (#[trigger] live_in@[b]).len() == n,
            forall|b: int| 0 <= b < nb ==> (#[trigger] live_out@[b]).len() == n,
            forall|li: Seq<Seq<bool>>, lo: Seq<Seq<bool>>|
                #[trigger] live_closed(*f, li, lo) ==> rows_below(rows_of(live_in@), rows_of(live_out@), li, lo, nb as int, n as int),
        ensures
            live_closed(*f, rows_of(live_in@), rows_of(live_out@)),
            forall|li: Seq<Seq<bool>>, lo: Seq<Seq<bool>>|
                #[trigger] live_closed(*f, li, lo) ==> rows_below(rows_of(live_in@), rows_of(live_out@), li, lo, nb as int, n as int),

            live_in.len() == nb,
            live_out.len() == nb,
            forall|b: int| 0 <= b < nb ==> (#[trigger] live_in@[b]).len() == n,
            forall|b: int| 0 <= b < nb ==> (#[trigger] live_out@[b]).len() == n,
        decreases 2 * (nb as int) * (n as int) - count_rows(rows_of(live_in@)) - count_rows(rows_of(live_out@)),
    {
        let ghost c0 = count_rows(rows_of(live_in@)) + count_rows(rows_of(live_out@));
        proof {
            lemma_rows_bound(rows_of(live_in@), n as nat);
            lemma_rows_bound(rows_of(live_out@), n as nat);
            assert(2 * (nb as int) * (n as int) == (nb as int) * (n as int) + (nb as int) * (n as int)) by (nonlinear_arith);
        }
        let mut changed = false;
        let mut bi = nb;
        while bi > 0
            invariant
                bi <= nb,
                nb == f.blocks.len(),
                n == f.n_vregs,
                cfg_well_formed(f.blocks@),
                uses.len() == nb,
                defs.len() == nb,
                succs.len() == nb,
                forall|b: int| 0 <= b < nb ==> (#[trigger] uses@[b]).len() == n,
                forall|b: int| 0 <= b < nb ==> (#[trigger] defs@[b]).len() == n,
                forall|b: int, v: int|
                    0 <= b < nb && 0 <= v < n ==> #[trigger] uses@[b]@[v] == upward_exposed(f.blocks@[b], v as Vreg),
                forall|b: int, v: int|
                    0 <= b < nb && 0 <= v < n ==> #[trigger] defs@[b]@[v] == defined_before(
                        f.blocks@[b],
                        f.blocks@[b].insts.len() as int,
                        v as Vreg,
                    ),
                forall|b: int| 0 <= b < nb ==> (#[trigger] succs@[b])@ == term_successors(f.blocks@[b].term),
                live_in.len() == nb,
                live_out.len() == nb,
                forall|b: int| 0 <= b < nb ==> (#[trigger] live_in@[b]).len() == n,
                forall|b: int| 0 <= b < nb ==> (#[trigger] live_out@[b]).len() == n,
                count_rows(rows_of(live_in@)) + count_rows(rows_of(live_out@)) >= c0,
                forall|li: Seq<Seq<bool>>, lo: Seq<Seq<bool>>|
                    #[trigger] live_closed(*f, li, lo) ==> rows_below(rows_of(live_in@), rows_of(live_out@), li, lo, nb as int, n as int),

                changed ==> count_rows(rows_of(live_in@)) + count_rows(rows_of(live_out@)) > c0,
                !changed ==> forall|b: int|
                    bi <= b < nb ==> #[trigger] block_closed(
                        f.blocks@[b],
                        rows_of(live_in@),
                        rows_of(live_out@),
                        b,
                        n as int,
                    ),
            decreases bi,
        {
            bi -= 1;
            let ghost in0 = rows_of(live_in@);
            let ghost vin0 = live_in@;
            let ghost out0 = rows_of(live_out@);
            proof {
                assert forall|k: int| 0 <= k < succs@[bi as int].len() implies #[trigger] succs@[bi as int]@[k]
                    < live_in.len() by {
                    assert(term_successors(f.blocks@[bi as int].term)[k] < nb);
                }
            }
            let (new_out, ch1) = merge_out(&live_in, &succs[bi], &live_out[bi], n);
            live_out.set(bi, new_out);
            proof {
                assert(rows_of(live_out@) =~= out0.update(bi as int, new_out@));
                lemma_rows_update(out0, bi as int, new_out@);
            }
            let ghost out1 = rows_of(live_out@);
            let (new_in, ch2) = merge_in(&uses[bi], &defs[bi], &live_out[bi], &live_in[bi]);
            live_in.set(bi, new_in);
            proof {
                assert(rows_of(live_in@) =~= in0.update(bi as int, new_in@));
                lemma_rows_update(in0, bi as int, new_in@);
            }
            proof {
                assert forall|li: Seq<Seq<bool>>, lo: Seq<Seq<bool>>| #[trigger] live_closed(*f, li, lo) implies rows_below(
                    rows_of(live_in@),
                    rows_of(live_out@),
                    li,
                    lo,
                    nb as int,
                    n as int,
                ) by {
                    assert forall|k: int|
                        0 <= k < term_successors(f.blocks@[bi as int].term).len() implies #[trigger] term_successors(
                            f.blocks@[bi as int].term,
                        )[k] < f.blocks.len() by {
                        assert(succs@[bi as int]@[k] < nb);
                    }
                    assert forall|v: int| 0 <= v < n implies #[trigger] new_out@[v] == (out0[bi as int][v] || exists|k: int|
                        0 <= k < term_successors(f.blocks@[bi as int].term).len() && #[trigger] in0[term_successors(
                            f.blocks@[bi as int].term,
                        )[k] as int][v]) by {
                        if new_out@[v] && !out0[bi as int][v] {
                            let k = choose|k: int| 0 <= k < succs@[bi as int].len() && #[trigger] vin0[succs@[bi as int]@[k] as int]@[v];
                            assert(succs@[bi as int]@[k] == term_successors(f.blocks@[bi as int].term)[k]);
                            assert(in0[succs@[bi as int]@[k] as int] == vin0[succs@[bi as int]@[k] as int]@);
                            assert(in0[term_successors(f.blocks@[bi as int].term)[k] as int][v]);
                        }
                        if exists|k: int|
                            0 <= k < term_successors(f.blocks@[bi as int].term).len() && #[trigger] in0[term_successors(
                                f.blocks@[bi as int].term,
                            )[k] as int][v] {
                            let k = choose|k: int|
                                0 <= k < term_successors(f.blocks@[bi as int].term).len() && #[trigger] in0[term_successors(
                                    f.blocks@[bi as int].term,
                                )[k] as int][v];
                            assert(succs@[bi as int]@[k] == term_successors(f.blocks@[bi as int].term)[k]);
                            assert(vin0[succs@[bi as int]@[k] as int]@[v] == in0[succs@[bi as int]@[k] as int][v]);
                        }
                    }
                    lemma_round_below(*f, in0, out0, new_out@, new_in@, bi as int, li, lo, uses@[bi as int]@, defs@[bi as int]@);
                    assert(rows_of(live_in@) =~= in0.update(bi as int, new_in@));
                    assert(rows_of(live_out@) =~= out0.update(bi as int, new_out@));
                }
            }
            if ch1 || ch2 {
                changed = true;
            }
            proof {
                if !changed {
                    assert(new_out@ =~= out0[bi as int]);
                    assert(new_in@ =~= in0[bi as int]);
                    assert(rows_of(live_out@) =~= out0);
                    assert(rows_of(live_in@) =~= in0);
                    let blk = f.blocks@[bi as int];
                    let li = rows_of(live_in@);
                    let lo = rows_of(live_out@);
                    assert forall|v: int| 0 <= v < n && upward_exposed(blk, v as Vreg) implies #[trigger] li[bi as int][v] by {
                        assert(uses@[bi as int]@[v]);
                        assert(new_in@[v]);
                    }
                    assert forall|v: int|
                        0 <= v < n && #[trigger] lo[bi as int][v] && !defined_before(
                            blk,
                            blk.insts.len() as int,
                            v as Vreg,
                        ) implies li[bi as int][v] by {
                        assert(!defs@[bi as int]@[v]);
                        assert(new_in@[v]);
                    }
                    assert forall|k: int, v: int|
                        0 <= k < term_successors(blk.term).len() && 0 <= v < n && #[trigger] li[term_successors(
                            blk.term,
                        )[k] as int][v] implies lo[bi as int][v] by {
                        assert(succs@[bi as int]@[k] == term_successors(blk.term)[k]);
                        assert(live_in@[succs@[bi as int]@[k] as int]@[v]);
                        assert(new_out@[v]);
                    }
                    assert(block_closed(blk, li, lo, bi as int, n as int));
                }
            }
        }
        proof {
            lemma_rows_bound(rows_of(live_in@), n as nat);
            lemma_rows_bound(rows_of(live_out@), n as nat);
            assert(2 * (nb as int) * (n as int) == (nb as int) * (n as int) + (nb as int) * (n as int)) by (nonlinear_arith);
        }
        if !changed {
            break;
        }
    }
    (live_in, live_out)
}

// ---- live intervals ----

/// The position of the first instruction of block `b`: each instruction and
/// each terminator takes one position, in block order.
pub open spec fn block_start(bs: Seq<IrBlock>, b: int) -> int {
    total_positions(bs.take(b))
}

proof fn lemma_positions_step(bs: Seq<IrBlock>, b: int)
    requires
        0 <= b < bs.len(),
    ensures
        total_positions(bs.take(b + 1)) == total_positions(bs.take(b)) + bs[b].insts.len() + 1,
{
    assert(bs.take(b + 1).drop_last() =~= bs.take(b));
}

proof fn lemma_positions_prefix(bs: Seq<IrBlock>, b: int)
    requires
        0 <= b <= bs.len(),
    ensures
        total_positions(bs.take(b)) <= total_positions(bs),
    decreases bs.len() - b,
{
    if b < bs.len() {
        lemma_positions_step(bs, b);
        lemma_positions_prefix(bs, b + 1);
    } else {
        assert(bs.take(b) =~= bs);
    }
}

/// `start[v] <= p <= end[v]`: position `p` lies in the interval of `v`.
pub open spec fn within(start: Seq<u32>, end: Seq<u32>, v: int, p: int) -> bool {
    start[v] <= p <= end[v]
}

/// Every interval of `[start2, end2]` contains the one of `[start, end]`.
pub open spec fn wider(start2: Seq<u32>, end2: Seq<u32>, start: Seq<u32>, end: Seq<u32>) -> bool {
    &&& start2.len() == start.len()
    &&& end2.len() == end.len()
    &&& forall|v: int| 0 <= v < start.len() ==> #[trigger] start2[v] <= start[v]
    &&& forall|v: int| 0 <= v < end.len() ==> #[trigger] end2[v] >= end[v]
}

/// The intervals cover block `blk` starting at position `s`: what is live
/// into it at `s`, what is live out of it at its terminator, and each read
/// and definition at its own position.
pub open spec fn block_covered(
    blk: IrBlock,
    lin: Seq<bool>,
    lout: Seq<bool>,
    s: int,
    start: Seq<u32>,
    end: Seq<u32>,
) -> bool {
    let t = s + blk.insts.len();
    &&& forall|v: int| 0 <= v < lin.len() && #[trigger] lin[v] ==> within(start, end, v, s)
    &&& forall|v: int| 0 <= v < lout.len() && #[trigger] lout[v] ==> within(start, end, v, t)
    &&& forall|k: int, j: int|
        0 <= k < blk.insts.len() && 0 <= j < inst_uses(blk.insts@[k]).len() ==> within(
            start,
            end,
            #[trigger] inst_uses(blk.insts@[k])[j] as int,
            s + k,
        )
    &&& forall|k: int|
        0 <= k < blk.insts.len() ==> (#[trigger] inst_def(blk.insts@[k]) matches Some((d, _)) ==> within(
            start,
            end,
            d as int,
            s + k,
        ))
    &&& forall|j: int| 0 <= j < term_uses(blk.term).len() ==> within(start, end, #[trigger] term_uses(blk.term)[j] as int, t)
}

/// The intervals cover every block of `f` under the liveness `live_in`,
/// `live_out`, and every parameter's interval starts at position 0.
pub open spec fn covers(f: IrFunc, live_in: Seq<Seq<bool>>, live_out: Seq<Seq<bool>>, start: Seq<u32>, end: Seq<u32>) -> bool {
    &&& forall|b: int|
        0 <= b < f.blocks.len() ==> #[trigger] block_covered(
            f.blocks@[b],
            live_in[b],
            live_out[b],
            block_start(f.blocks@, b),
            start,
            end,
        )
    &&& forall|i: int| 0 <= i < f.params.len() ==> start[(#[trigger] f.params@[i]).vreg as int] == 0
}

proof fn lemma_covered_wider(
    blk: IrBlock,
    lin: Seq<bool>,
    lout: Seq<bool>,
    s: int,
    start: Seq<u32>,
    end: Seq<u32>,
    start2: Seq<u32>,
    end2: Seq<u32>,
)
    requires
        block_covered(blk, lin, lout, s, start, end),
        wider(start2, end2, start, end),
        start.len() == end.len(),
        lin.len() == start.len(),
        lout.len() == start.len(),
        block_in_range(blk, start.len() as int),
    ensures
        block_covered(blk, lin, lout, s, start2, end2),
{
    let t = s + blk.insts.len();
    assert forall|k: int, j: int|
        0 <= k < blk.insts.len() && 0 <= j < inst_uses(blk.insts@[k]).len() implies within(
            start2,
            end2,
            #[trigger] inst_uses(blk.insts@[k])[j] as int,
            s + k,
        ) by {
        let v = inst_uses(blk.insts@[k])[j] as int;
        assert(within(start, end, v, s + k));
        assert(start2[v] <= start[v] && end2[v] >= end[v]);
    }
    assert forall|k: int|
        0 <= k < blk.insts.len() implies (#[trigger] inst_def(blk.insts@[k]) matches Some((d, _)) ==> within(
            start2,
            end2,
            d as int,
            s + k,
        )) by {
        if let Some((d, _)) = inst_def(blk.insts@[k]) {
            assert(within(start, end, d as int, s + k));
            assert(start2[d as int] <= start[d as int] && end2[d as int] >= end[d as int]);
        }
    }
    assert forall|j: int| 0 <= j < term_uses(blk.term).len() implies within(
        start2,
        end2,
        #[trigger] term_uses(blk.term)[j] as int,
        t,
    ) by {
        let v = term_uses(blk.term)[j] as int;
        assert(within(start, end, v, t));
        assert(start2[v] <= start[v] && end2[v] >= end[v]);
    }
    assert forall|v: int| 0 <= v < lin.len() && #[trigger] lin[v] implies within(start2, end2, v, s) by {
        assert(within(start, end, v, s));
    }
    assert forall|v: int| 0 <= v < lout.len() && #[trigger] lout[v] implies within(start2, end2, v, t) by {
        assert(within(start, end, v, t));
    }
}

/// Widen the interval of `v` to hold position `p`.
fn touch(start: &mut Vec<u32>, end: &mut Vec<u32>, v: usize, p: u32)
    requires
        v < old(start).len(),
        old(start).len() == old(end).len(),
    ensures
        wider(final(start)@, final(end)@, old(start)@, old(end)@),
        within(final(start)@, final(end)@, v as int, p as int),
        forall|w: int| 0 <= w < old(start).len() && w != v ==> final(start)@[w] == old(start)@[w] && final(end)@[w] == old(end)@[w],
        final(start)@[v as int] == old(start)@[v as int] || final(start)@[v as int] == p,
        final(end)@[v as int] == old(end)@[v as int] || final(end)@[v as int] == p,
{
    if p < start[v] {
        start.set(v, p);
    }
    if p > end[v] {
        end.set(v, p);
    }
}

/// How many entries of `s` are `v`.
pub open spec fn occurrences(s: Seq<Vreg>, v: Vreg) -> nat
    decreases s.len(),
{
    if s.len() == 0 {
        0
    } else {
        occurrences(s.drop_last(), v) + if s.last() == v {
            1nat
        } else {
            0nat
        }
    }
}

/// Every register read by `insts`, in order, one entry per operand occurrence.
pub open spec fn insts_reads(insts: Seq<IrInst>) -> Seq<Vreg>
    decreases insts.len(),
{
    if insts.len() == 0 {
        seq![]
    } else {
        insts_reads(insts.drop_last()) + inst_uses(insts.last())
    }
}

/// Every register read by a block: its instructions', then its terminator's.
pub open spec fn block_reads(blk: IrBlock) -> Seq<Vreg> {
    insts_reads(blk.insts@) + term_uses(blk.term)
}

/// Every register read by `blocks`, block by block.
pub open spec fn blocks_reads(blocks: Seq<IrBlock>) -> Seq<Vreg>
    decreases blocks.len(),
{
    if blocks.len() == 0 {
        seq![]
    } else {
        blocks_reads(blocks.drop_last()) + block_reads(blocks.last())
    }
}

/// How many times the body of `f` reads vreg `v`.
pub open spec fn read_count(f: IrFunc, v: Vreg) -> nat {
    occurrences(blocks_reads(f.blocks@), v)
}

/// A count held in a `u32` that sticks at `u32::MAX`.
pub open spec fn saturate(c: nat) -> u32 {
    if c >= u32::MAX {
        u32::MAX
    } else {
        c as u32
    }
}

/// A saturating counter at `a` after `c` more increments.
pub open spec fn sat_add(a: u32, c: nat) -> u32 {
    if a + c >= u32::MAX {
        u32::MAX
    } else {
        (a + c) as u32
    }
}

proof fn lemma_occurrences_concat(a: Seq<Vreg>, b: Seq<Vreg>, v: Vreg)
    ensures
        occurrences(a + b, v) == occurrences(a, v) + occurrences(b, v),
    decreases b.len(),
{
    if b.len() > 0 {
        assert((a + b).drop_last() =~= a + b.drop_last());
        lemma_occurrences_concat(a, b.drop_last(), v);
    } else {
        assert(a + b =~= a);
    }
}

proof fn lemma_occurrences_push(a: Seq<Vreg>, r: Vreg)
    ensures
        forall|w: Vreg| #[trigger] occurrences(a.push(r), w) == occurrences(a, w) + if r == w {
            1nat
        } else {
            0nat
        },
{
    assert(a.push(r).drop_last() =~= a);
}

/// Position `p` is one where `v` is touched in block `blk`, which starts at
/// position `s`: live into it, live out of it, read or defined by one of its
/// instructions, or read by its terminator.
pub open spec fn touched_in_block(blk: IrBlock, lin: Seq<bool>, lout: Seq<bool>, s: int, v: int, p: int) -> bool {
    let t = s + blk.insts.len();
    ||| (lin[v] && p == s)
    ||| (lout[v] && p == t)
    ||| exists|k: int|
        0 <= k < blk.insts.len() && p == s + k && (#[trigger] inst_uses(blk.insts@[k]).contains(v as Vreg) || (
        inst_def(blk.insts@[k]) matches Some((d, _)) && d == v as Vreg))
    ||| (term_uses(blk.term).contains(v as Vreg) && p == t)
}

/// Every bound of `[start, end]` is its value in `[s0, e0]` or a position
/// where the vreg is touched in `blk`.
pub open spec fn from_touches(
    blk: IrBlock,
    lin: Seq<bool>,
    lout: Seq<bool>,
    s: int,
    start: Seq<u32>,
    end: Seq<u32>,
    s0: Seq<u32>,
    e0: Seq<u32>,
) -> bool {
    forall|w: int|
        0 <= w < s0.len() ==> {
            &&& (#[trigger] start[w] == s0[w] || touched_in_block(blk, lin, lout, s, w, start[w] as int))
            &&& (end[w] == e0[w] || touched_in_block(blk, lin, lout, s, w, end[w] as int))
        }
}

/// Position `p` is one where `v` is touched in `f` under the liveness
/// `li`, `lo`: position 0 for a parameter, or a position where it is
/// touched in one of the blocks.
pub open spec fn touched(f: IrFunc, li: Seq<Seq<bool>>, lo: Seq<Seq<bool>>, v: int, p: int) -> bool {
    ||| (p == 0 && exists|i: int| 0 <= i < f.params.len() && (#[trigger] f.params@[i]).vreg == v)
    ||| exists|b: int|
        0 <= b < f.blocks.len() && #[trigger] touched_in_block(f.blocks@[b], li[b], lo[b], block_start(f.blocks@, b), v, p)
}

/// Each interval bound of `[start, end]` is a position where the vreg is
/// touched, or the starting value (`u32::MAX` for the start, 0 for the end)
/// when it is touched nowhere.
pub open spec fn intervals_tight(f: IrFunc, li: Seq<Seq<bool>>, lo: Seq<Seq<bool>>, start: Seq<u32>, end: Seq<u32>) -> bool {
    forall|w: int|
        0 <= w < f.n_vregs ==> {
            &&& (#[trigger] start[w] == u32::MAX || touched(f, li, lo, w, start[w] as int))
            &&& (end[w] == 0 || touched(f, li, lo, w, end[w] as int))
        }
}

proof fn lemma_touched_def(blk: IrBlock, lin: Seq<bool>, lout: Seq<bool>, s: int, k: int, d: Vreg)
    requires
        0 <= k < blk.insts.len(),
        inst_def(blk.insts@[k]) matches Some((d2, _)) && d2 == d,
    ensures
        touched_in_block(blk, lin, lout, s, d as int, s + k),
{
    let v = d as int;
    assert(v as Vreg == d);
    let c = inst_uses(blk.insts@[k]).contains(v as Vreg);
    assert(c || (inst_def(blk.insts@[k]) matches Some((d3, _)) && d3 == v as Vreg));
    assert(exists|k2: int|
        0 <= k2 < blk.insts.len() && s + k == s + k2 && (#[trigger] inst_uses(blk.insts@[k2]).contains(v as Vreg) || (
        inst_def(blk.insts@[k2]) matches Some((d4, _)) && d4 == v as Vreg)));
}

proof fn lemma_touch_keeps(
    blk: IrBlock,
    lin: Seq<bool>,
    lout: Seq<bool>,
    s: int,
    sp: Seq<u32>,
    ep: Seq<u32>,
    start: Seq<u32>,
    end: Seq<u32>,
    s0: Seq<u32>,
    e0: Seq<u32>,
    r: int,
    p: int,
)
    requires
        from_touches(blk, lin, lout, s, sp, ep, s0, e0),
        sp.len() == s0.len(),
        start.len() == sp.len(),
        end.len() == ep.len(),
        0 <= r < sp.len(),
        touched_in_block(blk, lin, lout, s, r, p),
        forall|w: int| 0 <= w < sp.len() && w != r ==> start[w] == sp[w] && end[w] == ep[w],
        start[r] == sp[r] || start[r] == p,
        end[r] == ep[r] || end[r] == p,
    ensures
        from_touches(blk, lin, lout, s, start, end, s0, e0),
{
    assert forall|w: int| 0 <= w < s0.len() implies {
        &&& (#[trigger] start[w] == s0[w] || touched_in_block(blk, lin, lout, s, w, start[w] as int))
        &&& (end[w] == e0[w] || touched_in_block(blk, lin, lout, s, w, end[w] as int))
    } by {
        assert(sp[w] == s0[w] || touched_in_block(blk, lin, lout, s, w, sp[w] as int));
    }
}

/// Widen the intervals over block `blk`, which starts at position `s`, and
/// count each read in `refs` (saturating).
#[verifier::spinoff_prover]
fn cover_block(
    start: &mut Vec<u32>,
    end: &mut Vec<u32>,
    refs: &mut Vec<u32>,
    blk: &IrBlock,
    lin: &Vec<bool>,
    lout: &Vec<bool>,
    s: u32,
)
    requires
        old(start).len() == old(end).len(),
        old(refs).len() == old(start).len(),
        lin.len() == old(start).len(),
        lout.len() == old(start).len(),
        old(start).len() <= u32::MAX,
        block_in_range(*blk, old(start).len() as int),
        s + blk.insts.len() < u32::MAX,
        forall|w: int| 0 <= w < old(refs).len() && old(refs)@[w] > 0 ==> old(start)@[w] < u32::MAX && old(start)@[w] <= old(end)@[w],
    ensures
        final(refs).len() == old(refs).len(),
        forall|w: int| 0 <= w < final(refs).len() && final(refs)@[w] > 0 ==> final(start)@[w] < u32::MAX && final(start)@[w] <= final(end)@[w],
        forall|w: int| 0 <= w < old(refs).len() ==> #[trigger] final(refs)@[w] == sat_add(
            old(refs)@[w],
            occurrences(block_reads(*blk), w as Vreg),
        ),
        wider(final(start)@, final(end)@, old(start)@, old(end)@),
        block_covered(*blk, lin@, lout@, s as int, final(start)@, final(end)@),
        from_touches(*blk, lin@, lout@, s as int, final(start)@, final(end)@, old(start)@, old(end)@),
{
    let ghost r0 = refs@;
    let ghost mut seen: Seq<Vreg> = Seq::empty();
    let n = start.len();
    let ghost s0 = start@;
    let ghost e0 = end@;
    let t: u32 = s + blk.insts.len() as u32;
    let mut v: usize = 0;
    while v < n
        invariant
            v <= n,
            n == start.len(),
            end.len() == n,
            lin.len() == n,
            lout.len() == n,
            wider(start@, end@, s0, e0),
            s0.len() == n,
            t == s + blk.insts.len(),
            from_touches(*blk, lin@, lout@, s as int, start@, end@, s0, e0),
            forall|w: int| 0 <= w < v && #[trigger] lin@[w] ==> within(start@, end@, w, s as int),
            forall|w: int| 0 <= w < v && #[trigger] lout@[w] ==> within(start@, end@, w, t as int),
        decreases n - v,
    {
        let ghost sp = start@;
        let ghost ep = end@;
        if lin[v] {
            touch(start, end, v, s);
            proof {
                lemma_touch_keeps(*blk, lin@, lout@, s as int, sp, ep, start@, end@, s0, e0, v as int, s as int);
            }
        }
        let ghost sq = start@;
        let ghost eq = end@;
        if lout[v] {
            touch(start, end, v, t);
            proof {
                lemma_touch_keeps(*blk, lin@, lout@, s as int, sq, eq, start@, end@, s0, e0, v as int, t as int);
            }
        }
        proof {
            assert forall|w: int| 0 <= w < v + 1 && #[trigger] lin@[w] implies within(start@, end@, w, s as int) by {
                if w < v {
                    assert(within(sp, ep, w, s as int));
                }
                assert(within(sq, eq, w, s as int));
            }
            assert forall|w: int| 0 <= w < v + 1 && #[trigger] lout@[w] implies within(start@, end@, w, t as int) by {
                if w < v {
                    assert(within(sp, ep, w, t as int));
                }
            }
        }
        v += 1;
    }
    let mut k: usize = 0;
    while k < blk.insts.len()
        invariant
            k <= blk.insts.len(),
            n == start.len(),
            end.len() == n,
            refs.len() == n,
            lin.len() == n,
            lout.len() == n,
            n <= u32::MAX,
            block_in_range(*blk, n as int),
            s + blk.insts.len() < u32::MAX,
            t == s + blk.insts.len(),
            r0.len() == n,
            s0.len() == n,
            from_touches(*blk, lin@, lout@, s as int, start@, end@, s0, e0),
            forall|w: int| 0 <= w < n && refs@[w] > 0 ==> start@[w] < u32::MAX && start@[w] <= end@[w],
            seen == insts_reads(blk.insts@.take(k as int)),
            forall|w: int| 0 <= w < n ==> #[trigger] refs@[w] == sat_add(r0[w], occurrences(seen, w as Vreg)),
            wider(start@, end@, s0, e0),
            forall|w: int| 0 <= w < n && #[trigger] lin@[w] ==> within(start@, end@, w, s as int),
            forall|w: int| 0 <= w < n && #[trigger] lout@[w] ==> within(start@, end@, w, t as int),
            forall|k1: int, j: int|
                0 <= k1 < k && 0 <= j < inst_uses(blk.insts@[k1]).len() ==> within(
                    start@,
                    end@,
                    #[trigger] inst_uses(blk.insts@[k1])[j] as int,
                    s + k1,
                ),
            forall|k1: int|
                0 <= k1 < k ==> (#[trigger] inst_def(blk.insts@[k1]) matches Some((d, _)) ==> within(
                    start@,
                    end@,
                    d as int,
                    s + k1,
                )),
        decreases blk.insts.len() - k,
    {
        let p: u32 = s + k as u32;
        let us = uses_of(&blk.insts[k]);
        let ghost sk = start@;
        let ghost ek = end@;
        proof {
            assert(seen =~= insts_reads(blk.insts@.take(k as int)) + us@.take(0));
        }
        let mut j: usize = 0;
        while j < us.len()
            invariant
                j <= us.len(),
                k < blk.insts.len(),
                us@ == inst_uses(blk.insts@[k as int]),
                p == s + k,
                n == start.len(),
                end.len() == n,
                refs.len() == n,
                r0.len() == n,
                n <= u32::MAX,
                p < u32::MAX,
                s0.len() == n,
                lin.len() == n,
                lout.len() == n,
                from_touches(*blk, lin@, lout@, s as int, start@, end@, s0, e0),
                forall|w: int| 0 <= w < n && refs@[w] > 0 ==> start@[w] < u32::MAX && start@[w] <= end@[w],
                seen == insts_reads(blk.insts@.take(k as int)) + us@.take(j as int),
                forall|w: int| 0 <= w < n ==> #[trigger] refs@[w] == sat_add(r0[w], occurrences(seen, w as Vreg)),
                block_in_range(*blk, n as int),
                wider(start@, end@, sk, ek),
                forall|jj: int| 0 <= jj < j ==> within(start@, end@, #[trigger] us@[jj] as int, p as int),
            decreases us.len() - j,
        {
            let r = us[j] as usize;
            assert(inst_uses(blk.insts@[k as int])[j as int] < n);
            let ghost sj = start@;
            let ghost ej = end@;
            touch(start, end, r, p);
            proof {
                assert(us@[j as int] == r as Vreg);
                assert(inst_uses(blk.insts@[k as int]).contains(r as Vreg));
                assert(touched_in_block(*blk, lin@, lout@, s as int, r as int, p as int));
                lemma_touch_keeps(*blk, lin@, lout@, s as int, sj, ej, start@, end@, s0, e0, r as int, p as int);
            }
            let ghost rp = refs@;
            if refs[r] < u32::MAX {
                let c = refs[r] + 1;
                refs.set(r, c);
            }
            proof {
                let seen0 = seen;
                lemma_occurrences_push(seen, r as Vreg);
                assert(us@.take(j + 1) =~= us@.take(j as int).push(r as Vreg));
                seen = seen.push(r as Vreg);
                assert forall|w: int| 0 <= w < n implies #[trigger] refs@[w] == sat_add(r0[w], occurrences(seen, w as Vreg)) by {
                    assert(rp[w] == sat_add(r0[w], occurrences(seen0, w as Vreg)));
                    assert(occurrences(seen, w as Vreg) == occurrences(seen0, w as Vreg) + if r as Vreg == w as Vreg { 1nat } else { 0nat });
                if w == r as int {
                    assert(r as Vreg == w as Vreg);
                    if rp[w] < u32::MAX {
                        assert(refs@[w] == rp[w] + 1);
                    } else {
                        assert(refs@[w] == rp[w]);
                    }
                } else {
                    assert(r as Vreg != w as Vreg);
                    assert(refs@[w] == rp[w]);
                }
                    if w == r as int {
                        assert(r as Vreg == w as Vreg);
                        if rp[w] < u32::MAX {
                            assert(refs@[w] == rp[w] + 1);
                        } else {
                            assert(refs@[w] == rp[w]);
                        }
                    } else {
                        assert(r as Vreg != w as Vreg);
                        assert(refs@[w] == rp[w]);
                    }
                }
                assert forall|jj: int| 0 <= jj < j + 1 implies within(start@, end@, #[trigger] us@[jj] as int, p as int) by {
                    if jj < j {
                        let w = us@[jj] as int;
                        assert(inst_uses(blk.insts@[k as int])[jj] < n);
                        assert(within(sj, ej, w, p as int));
                        assert(start@[w] <= sj[w] && end@[w] >= ej[w]);
                    }
                }
            }
            j += 1;
        }
        let ghost sd = start@;
        let ghost ed = end@;
        match def_of(&blk.insts[k]) {
            Some((d, _)) => {
                assert(inst_def(blk.insts@[k as int]) matches Some((d2, _)) ==> d2 < n);
                let ghost sd1 = start@;
                let ghost ed1 = end@;
                touch(start, end, d as usize, p);
                proof {
                    lemma_touched_def(*blk, lin@, lout@, s as int, k as int, d);
                    assert(p as int == s as int + k as int);
                    lemma_touch_keeps(*blk, lin@, lout@, s as int, sd1, ed1, start@, end@, s0, e0, d as int, p as int);
                }
            },
            None => {},
        }
        proof {
            // Everything covered so far stays covered under the wider intervals.
            assert forall|w: int| 0 <= w < n && #[trigger] lin@[w] implies within(start@, end@, w, s as int) by {
                assert(within(sk, ek, w, s as int));
                assert(start@[w] <= sk[w] && end@[w] >= ek[w]);
            }
            assert forall|w: int| 0 <= w < n && #[trigger] lout@[w] implies within(start@, end@, w, t as int) by {
                assert(within(sk, ek, w, t as int));
                assert(start@[w] <= sk[w] && end@[w] >= ek[w]);
            }
            assert forall|k1: int, j1: int|
                0 <= k1 < k + 1 && 0 <= j1 < inst_uses(blk.insts@[k1]).len() implies within(
                    start@,
                    end@,
                    #[trigger] inst_uses(blk.insts@[k1])[j1] as int,
                    s + k1,
                ) by {
                let w = inst_uses(blk.insts@[k1])[j1] as int;
                if k1 < k {
                    assert(within(sk, ek, w, s + k1));
                } else {
                    assert(us@[j1] == w);
                    assert(within(sd, ed, w, p as int));
                }
                assert(start@[w] <= sd[w] && end@[w] >= ed[w]);
                assert(sd[w] <= sk[w] && ed[w] >= ek[w]);
            }
            assert forall|k1: int|
                0 <= k1 < k + 1 implies (#[trigger] inst_def(blk.insts@[k1]) matches Some((d, _)) ==> within(
                    start@,
                    end@,
                    d as int,
                    s + k1,
                )) by {
                if let Some((d, _)) = inst_def(blk.insts@[k1]) {
                    if k1 < k {
                        assert(within(sk, ek, d as int, s + k1));
                        assert(start@[d as int] <= sk[d as int] && end@[d as int] >= ek[d as int]);
                    }
                }
            }
            assert(us@.take(us.len() as int) =~= us@);
            assert(blk.insts@.take(k + 1).drop_last() =~= blk.insts@.take(k as int));
        }
        k += 1;
    }
    proof {
        assert(blk.insts@.take(blk.insts.len() as int) =~= blk.insts@);
    }
    let tu = term_uses_of(&blk.term);
    let ghost st = start@;
    let ghost et = end@;
    proof {
        assert(seen =~= insts_reads(blk.insts@) + tu@.take(0));
    }
    let mut j: usize = 0;
    while j < tu.len()
        invariant
            j <= tu.len(),
            tu@ == term_uses(blk.term),
            n == start.len(),
            end.len() == n,
            refs.len() == n,
            r0.len() == n,
            n <= u32::MAX,
            t < u32::MAX,
            t == s + blk.insts.len(),
            s0.len() == n,
            lin.len() == n,
            lout.len() == n,
            from_touches(*blk, lin@, lout@, s as int, start@, end@, s0, e0),
            forall|w: int| 0 <= w < n && refs@[w] > 0 ==> start@[w] < u32::MAX && start@[w] <= end@[w],
            seen == insts_reads(blk.insts@) + tu@.take(j as int),
            forall|w: int| 0 <= w < n ==> #[trigger] refs@[w] == sat_add(r0[w], occurrences(seen, w as Vreg)),
            block_in_range(*blk, n as int),
            wider(start@, end@, st, et),
            forall|jj: int| 0 <= jj < j ==> within(start@, end@, #[trigger] tu@[jj] as int, t as int),
        decreases tu.len() - j,
    {
        let r = tu[j] as usize;
        assert(term_uses(blk.term)[j as int] < n);
        let ghost sj = start@;
        let ghost ej = end@;
        touch(start, end, r, t);
        proof {
            assert(tu@[j as int] == r as Vreg);
            assert(term_uses(blk.term).contains(r as Vreg));
            assert(touched_in_block(*blk, lin@, lout@, s as int, r as int, t as int));
            lemma_touch_keeps(*blk, lin@, lout@, s as int, sj, ej, start@, end@, s0, e0, r as int, t as int);
        }
        let ghost rp = refs@;
        if refs[r] < u32::MAX {
            let c = refs[r] + 1;
            refs.set(r, c);
        }
        proof {
            let seen0 = seen;
            lemma_occurrences_push(seen, r as Vreg);
            assert(tu@.take(j + 1) =~= tu@.take(j as int).push(r as Vreg));
            seen = seen.push(r as Vreg);
            assert forall|w: int| 0 <= w < n implies #[trigger] refs@[w] == sat_add(r0[w], occurrences(seen, w as Vreg)) by {
                assert(rp[w] == sat_add(r0[w], occurrences(seen0, w as Vreg)));
                assert(occurrences(seen, w as Vreg) == occurrences(seen0, w as Vreg) + if r as Vreg == w as Vreg { 1nat } else { 0nat });
            }
            assert forall|jj: int| 0 <= jj < j + 1 implies within(start@, end@, #[trigger] tu@[jj] as int, t as int) by {
                if jj < j {
                    let w = tu@[jj] as int;
                    assert(term_uses(blk.term)[jj] < n);
                    assert(within(sj, ej, w, t as int));
                    assert(start@[w] <= sj[w] && end@[w] >= ej[w]);
                }
            }
        }
        j += 1;
    }
    proof {
        assert(tu@.take(tu.len() as int) =~= tu@);
        let fs = start@;
        let fe = end@;
        assert forall|w: int| 0 <= w < n && #[trigger] lin@[w] implies within(fs, fe, w, s as int) by {
            assert(within(st, et, w, s as int));
            assert(fs[w] <= st[w] && fe[w] >= et[w]);
        }
        assert forall|w: int| 0 <= w < n && #[trigger] lout@[w] implies within(fs, fe, w, t as int) by {
            assert(within(st, et, w, t as int));
            assert(fs[w] <= st[w] && fe[w] >= et[w]);
        }
        assert forall|k1: int, j1: int|
            0 <= k1 < blk.insts.len() && 0 <= j1 < inst_uses(blk.insts@[k1]).len() implies within(
                fs,
                fe,
                #[trigger] inst_uses(blk.insts@[k1])[j1] as int,
                s + k1,
            ) by {
            let w = inst_uses(blk.insts@[k1])[j1] as int;
            assert(within(st, et, w, s + k1));
            assert(fs[w] <= st[w] && fe[w] >= et[w]);
        }
        assert forall|k1: int|
            0 <= k1 < blk.insts.len() implies (#[trigger] inst_def(blk.insts@[k1]) matches Some((d, _)) ==> within(
                fs,
                fe,
                d as int,
                s + k1,
            )) by {
            if let Some((d, _)) = inst_def(blk.insts@[k1]) {
                assert(within(st, et, d as int, s + k1));
                assert(fs[d as int] <= st[d as int] && fe[d as int] >= et[d as int]);
            }
        }
        assert forall|jj: int| 0 <= jj < term_uses(blk.term).len() implies within(
            fs,
            fe,
            #[trigger] term_uses(blk.term)[jj] as int,
            t as int,
        ) by {
            assert(tu@[jj] == term_uses(blk.term)[jj]);
        }
    }
}

/// The live interval `[start[v], end[v]]` of each vreg and how often it is
/// read (saturating): each interval is widened to every position where the
/// vreg is read, defined, live into a block or live out of it, and each
/// parameter's starts at position 0. A vreg that nothing touches keeps
/// `start == u32::MAX`.
#[verifier::spinoff_prover]
pub fn intervals(f: &IrFunc, live_in: &Vec<Vec<bool>>, live_out: &Vec<Vec<bool>>) -> (r: (Vec<u32>, Vec<u32>, Vec<u32>))
    requires
        allocatable(*f),
        live_in.len() == f.blocks.len(),
        live_out.len() == f.blocks.len(),
        forall|b: int| 0 <= b < f.blocks.len() ==> (#[trigger] live_in@[b]).len() == f.n_vregs,
        forall|b: int| 0 <= b < f.blocks.len() ==> (#[trigger] live_out@[b]).len() == f.n_vregs,
    ensures
        r.0.len() == f.n_vregs,
        r.1.len() == f.n_vregs,
        r.2.len() == f.n_vregs,
        covers(*f, rows_of(live_in@), rows_of(live_out@), r.0@, r.1@),
        forall|w: int| 0 <= w < f.n_vregs ==> #[trigger] r.2@[w] == saturate(read_count(*f, w as Vreg)),
        forall|w: int| 0 <= w < f.n_vregs && r.2@[w] > 0 ==> r.0@[w] < u32::MAX && r.0@[w] <= r.1@[w],
        intervals_tight(*f, rows_of(live_in@), rows_of(live_out@), r.0@, r.1@),
{
    let n = f.n_vregs as usize;
    let mut start: Vec<u32> = Vec::new();
    let mut end: Vec<u32> = Vec::new();
    let mut refs: Vec<u32> = Vec::new();
    let mut z: usize = 0;
    while z < n
        invariant
            z <= n,
            start.len() == z,
            end.len() == z,
            refs.len() == z,
            forall|w: int| 0 <= w < z ==> refs@[w] == 0,
            forall|w: int| 0 <= w < z ==> start@[w] == u32::MAX && end@[w] == 0,
        decreases n - z,
    {
        start.push(u32::MAX);
        end.push(0);
        refs.push(0);
        z += 1;
    }
    let mut i: usize = 0;
    while i < f.params.len()
        invariant
            i <= f.params.len(),
            n == f.n_vregs,
            start.len() == n,
            forall|k: int| 0 <= k < f.params.len() ==> (#[trigger] f.params@[k]).vreg < n,
            forall|k: int| 0 <= k < i ==> start@[(#[trigger] f.params@[k]).vreg as int] == 0,
            refs.len() == n,
            forall|w: int| 0 <= w < n ==> refs@[w] == 0,
            end.len() == n,
            forall|w: int| 0 <= w < n ==> end@[w] == 0,
            intervals_tight(*f, rows_of(live_in@), rows_of(live_out@), start@, end@),
        decreases f.params.len() - i,
    {
        let ghost sp = start@;
        start.set(f.params[i].vreg as usize, 0);
        proof {
            assert forall|w: int| 0 <= w < f.n_vregs implies {
                &&& (#[trigger] start@[w] == u32::MAX || touched(*f, rows_of(live_in@), rows_of(live_out@), w, start@[w] as int))
                &&& (end@[w] == 0 || touched(*f, rows_of(live_in@), rows_of(live_out@), w, end@[w] as int))
            } by {
                if w == f.params@[i as int].vreg as int {
                    assert(f.params@[i as int].vreg == w);
                } else {
                    assert(start@[w] == sp[w]);
                }
            }
        }
        i += 1;
    }
    let nb = f.blocks.len();
    let mut pos: u32 = 0;
    let mut b: usize = 0;
    while b < nb
        invariant
            b <= nb,
            nb == f.blocks.len(),
            n == f.n_vregs,
            allocatable(*f),
            start.len() == n,
            end.len() == n,
            refs.len() == n,
            live_in.len() == nb,
            live_out.len() == nb,
            forall|bb: int| 0 <= bb < nb ==> (#[trigger] live_in@[bb]).len() == n,
            forall|bb: int| 0 <= bb < nb ==> (#[trigger] live_out@[bb]).len() == n,
            pos == block_start(f.blocks@, b as int),
            forall|w: int| 0 <= w < n && refs@[w] > 0 ==> start@[w] < u32::MAX && start@[w] <= end@[w],
            intervals_tight(*f, rows_of(live_in@), rows_of(live_out@), start@, end@),
            forall|w: int| 0 <= w < n ==> #[trigger] refs@[w] == saturate(
                occurrences(blocks_reads(f.blocks@.take(b as int)), w as Vreg),
            ),
            forall|k: int| 0 <= k < f.params.len() ==> start@[(#[trigger] f.params@[k]).vreg as int] == 0,
            forall|bb: int|
                0 <= bb < b ==> #[trigger] block_covered(
                    f.blocks@[bb],
                    rows_of(live_in@)[bb],
                    rows_of(live_out@)[bb],
                    block_start(f.blocks@, bb),
                    start@,
                    end@,
                ),
        decreases nb - b,
    {
        proof {
            lemma_positions_step(f.blocks@, b as int);
            lemma_positions_prefix(f.blocks@, b as int + 1);
            assert(block_in_range(f.blocks@[b as int], n as int));
        }
        let ghost s0 = start@;
        let ghost e0 = end@;
        let ghost rb = refs@;
        cover_block(&mut start, &mut end, &mut refs, &f.blocks[b], &live_in[b], &live_out[b], pos);
        proof {
            assert(rows_of(live_in@)[b as int] == live_in@[b as int]@);
            assert(rows_of(live_out@)[b as int] == live_out@[b as int]@);
            assert forall|w: int| 0 <= w < f.n_vregs implies {
                &&& (#[trigger] start@[w] == u32::MAX || touched(*f, rows_of(live_in@), rows_of(live_out@), w, start@[w] as int))
                &&& (end@[w] == 0 || touched(*f, rows_of(live_in@), rows_of(live_out@), w, end@[w] as int))
            } by {
                assert(start@[w] == s0[w] || touched_in_block(
                    f.blocks@[b as int],
                    live_in@[b as int]@,
                    live_out@[b as int]@,
                    pos as int,
                    w,
                    start@[w] as int,
                ));
                assert(s0[w] == u32::MAX || touched(*f, rows_of(live_in@), rows_of(live_out@), w, s0[w] as int));
                assert(e0[w] == 0 || touched(*f, rows_of(live_in@), rows_of(live_out@), w, e0[w] as int));
            }
            let pre = blocks_reads(f.blocks@.take(b as int));
            assert(f.blocks@.take(b + 1).drop_last() =~= f.blocks@.take(b as int));
            assert(blocks_reads(f.blocks@.take(b + 1)) == pre + block_reads(f.blocks@[b as int]));
            assert forall|w: int| 0 <= w < n implies #[trigger] refs@[w] == saturate(
                occurrences(blocks_reads(f.blocks@.take(b + 1)), w as Vreg),
            ) by {
                lemma_occurrences_concat(pre, block_reads(f.blocks@[b as int]), w as Vreg);
                assert(rb[w] == saturate(occurrences(pre, w as Vreg)));
            }
            assert forall|bb: int|
                0 <= bb < b + 1 implies #[trigger] block_covered(
                f.blocks@[bb],
                rows_of(live_in@)[bb],
                rows_of(live_out@)[bb],
                block_start(f.blocks@, bb),
                start@,
                end@,
            ) by {
                if bb < b {
                    assert(block_in_range(f.blocks@[bb], n as int));
                    lemma_covered_wider(
                        f.blocks@[bb],
                        rows_of(live_in@)[bb],
                        rows_of(live_out@)[bb],
                        block_start(f.blocks@, bb),
                        s0,
                        e0,
                        start@,
                        end@,
                    );
                }
            }
            assert forall|k: int| 0 <= k < f.params.len() implies start@[(#[trigger] f.params@[k]).vreg as int] == 0 by {
                assert(start@[f.params@[k].vreg as int] <= s0[f.params@[k].vreg as int]);
            }
        }
        pos = pos + f.blocks[b].insts.len() as u32 + 1;
        b += 1;
    }
    proof {
        assert(f.blocks@.take(nb as int) =~= f.blocks@);
    }
    (start, end, refs)
}

// ---- values live across calls ----

/// A call, or a runtime primitive, which clobbers the caller-saved registers.
pub open spec fn is_call(i: IrInst) -> bool {
    i is Call || i is Prim
}

/// `v` is live just after instruction `k` of `blk`, whose live-out row is
/// `out`.
pub open spec fn live_after(blk: IrBlock, out: Seq<bool>, k: int, v: Vreg) -> bool
    decreases blk.insts.len() - k,
{
    if k + 1 >= blk.insts.len() {
        (v < out.len() && out[v as int]) || term_uses(blk.term).contains(v)
    } else {
        (live_after(blk, out, k + 1, v) && !(inst_def(blk.insts@[k + 1]) matches Some((d, _)) && d == v))
            || inst_uses(blk.insts@[k + 1]).contains(v)
    }
}

/// `v` is live across some call of `f`: live just after it and not the
/// value the call defines.
pub open spec fn crosses(f: IrFunc, live_out: Seq<Seq<bool>>, v: Vreg) -> bool {
    exists|b: int, k: int|
        0 <= b < f.blocks.len() && 0 <= k < f.blocks@[b].insts.len() && #[trigger] is_call(f.blocks@[b].insts@[k])
            && live_after(f.blocks@[b], live_out[b], k, v) && !(inst_def(f.blocks@[b].insts@[k]) matches Some((d, _))
            && d == v)
}

/// Sets each entry of `rs` in `live`.
fn mark_all(live: &mut Vec<bool>, rs: &Vec<Vreg>)
    requires
        old(live).len() <= u32::MAX,
        forall|j: int| 0 <= j < rs.len() ==> rs@[j] < old(live).len(),
    ensures
        final(live).len() == old(live).len(),
        forall|v: int| 0 <= v < old(live).len() ==> #[trigger] final(live)@[v] == (old(live)@[v] || rs@.contains(v as Vreg)),
{
    let mut j: usize = 0;
    while j < rs.len()
        invariant
            j <= rs.len(),
            live.len() == old(live).len(),
            live.len() <= u32::MAX,
            forall|jj: int| 0 <= jj < rs.len() ==> rs@[jj] < live.len(),
            forall|v: int|
                0 <= v < live.len() ==> #[trigger] live@[v] == (old(live)@[v] || rs@.take(j as int).contains(v as Vreg)),
        decreases rs.len() - j,
    {
        let r = rs[j];
        live.set(r as usize, true);
        proof {
            let t = rs@.take(j as int);
            assert(rs@.take(j as int + 1) =~= t.push(r));
            assert forall|x: Vreg| #[trigger] t.push(r).contains(x) == (t.contains(x) || x == r) by {
                if t.push(r).contains(x) {
                    let i = choose|i: int| 0 <= i < t.push(r).len() && t.push(r)[i] == x;
                    if i < t.len() {
                        assert(t[i] == x);
                    }
                }
                if t.contains(x) {
                    let i = choose|i: int| 0 <= i < t.len() && t[i] == x;
                    assert(t.push(r)[i] == x);
                }
                if x == r {
                    assert(t.push(r)[t.len() as int] == x);
                }
            }
        }
        j += 1;
    }
    proof {
        assert(rs@.take(rs.len() as int) =~= rs@);
    }
}

/// Marks in `crossing` every vreg live across a call of `blk`, walking it
/// backward from its live-out row.
fn mark_crossing(crossing: &mut Vec<bool>, blk: &IrBlock, out: &Vec<bool>)
    requires
        old(crossing).len() == out.len(),
        out.len() <= u32::MAX,
        block_in_range(*blk, out.len() as int),
    ensures
        final(crossing).len() == out.len(),
        forall|v: int|
            0 <= v < out.len() ==> #[trigger] final(crossing)@[v] == (old(crossing)@[v] || exists|k: int|
                0 <= k < blk.insts.len() && #[trigger] crosses_at(*blk, out@, k, v as Vreg)),
{
    let n = out.len();
    let mut live: Vec<bool> = Vec::new();
    let mut z: usize = 0;
    while z < n
        invariant
            z <= n,
            n == out.len(),
            live.len() == z,
            forall|v: int| 0 <= v < z ==> #[trigger] live@[v] == out@[v],
        decreases n - z,
    {
        live.push(out[z]);
        z += 1;
    }
    let tu = term_uses_of(&blk.term);
    proof {
        assert forall|j: int| 0 <= j < tu.len() implies tu@[j] < live.len() by {
            assert(term_uses(blk.term)[j] < n);
        }
    }
    mark_all(&mut live, &tu);
    let mut k = blk.insts.len();
    while k > 0
        invariant
            k <= blk.insts.len(),
            n == out.len(),
            n <= u32::MAX,
            live.len() == n,
            crossing.len() == n,
            block_in_range(*blk, n as int),
            forall|v: int| 0 <= v < n ==> #[trigger] live@[v] == live_after(*blk, out@, k - 1, v as Vreg),
            forall|v: int|
                0 <= v < n ==> #[trigger] crossing@[v] == (old(crossing)@[v] || exists|k1: int|
                    k <= k1 < blk.insts.len() && #[trigger] crosses_at(*blk, out@, k1, v as Vreg)),
        decreases k,
    {
        k -= 1;
        let inst = &blk.insts[k];
        let def = def_of(inst);
        let ghost c0 = crossing@;
        if matches!(inst, IrInst::Call { .. } | IrInst::Prim { .. }) {
            let mut v: usize = 0;
            while v < n
                invariant
                    v <= n,
                    n == live.len(),
                    crossing.len() == n,
                    c0.len() == n,
                    n <= u32::MAX,
                    k < blk.insts.len(),
                    def == inst_def(blk.insts@[k as int]),
                    forall|w: int|
                        0 <= w < n ==> #[trigger] crossing@[w] == (c0[w] || (w < v && live@[w] && !(def matches Some(
                            (d, _),
                        ) && d == w as Vreg))),
                decreases n - v,
            {
                let is_def = match def {
                    Some((d, _)) => d as usize == v,
                    None => false,
                };
                assert(is_def == (def matches Some((d, _)) && d == v as Vreg));
                if live[v] && !is_def {
                    crossing.set(v, true);
                }
                v += 1;
            }
        }
        proof {
            assert forall|v: int| 0 <= v < n implies #[trigger] crossing@[v] == (old(crossing)@[v] || exists|k1: int|
                k <= k1 < blk.insts.len() && #[trigger] crosses_at(*blk, out@, k1, v as Vreg)) by {
                assert(live@[v] == live_after(*blk, out@, k as int, v as Vreg));
                if crosses_at(*blk, out@, k as int, v as Vreg) {
                    assert(crossing@[v]);
                }
                if exists|k1: int| k + 1 <= k1 < blk.insts.len() && #[trigger] crosses_at(*blk, out@, k1, v as Vreg) {
                    let k1 = choose|k1: int| k + 1 <= k1 < blk.insts.len() && #[trigger] crosses_at(*blk, out@, k1, v as Vreg);
                    assert(k <= k1);
                }
                if exists|k1: int| k <= k1 < blk.insts.len() && #[trigger] crosses_at(*blk, out@, k1, v as Vreg) {
                    let k1 = choose|k1: int| k <= k1 < blk.insts.len() && #[trigger] crosses_at(*blk, out@, k1, v as Vreg);
                    if k1 > k {
                        assert(c0[v]);
                    }
                }
            }
        }
        let us = uses_of(inst);
        proof {
            assert forall|j: int| 0 <= j < us.len() implies us@[j] < live.len() by {
                assert(inst_uses(blk.insts@[k as int])[j] < n);
            }
        }
        match def {
            Some((d, _)) => {
                assert(inst_def(blk.insts@[k as int]) matches Some((d2, _)) ==> d2 < n);
                live.set(d as usize, false);
            },
            None => {},
        }
        mark_all(&mut live, &us);
    }
}

/// Instruction `k` of `blk` is a call across which `v` is live (and which
/// does not define `v`), with `out` the block's live-out row.
pub open spec fn crosses_at(blk: IrBlock, out: Seq<bool>, k: int, v: Vreg) -> bool {
    &&& is_call(blk.insts@[k])
    &&& live_after(blk, out, k, v)
    &&& !(inst_def(blk.insts@[k]) matches Some((d, _)) && d == v)
}

/// A flag per vreg, set exactly for the vregs live across a call of `f`.
#[verifier::spinoff_prover]
pub fn crossing_calls(f: &IrFunc, live_out: &Vec<Vec<bool>>) -> (r: Vec<bool>)
    requires
        allocatable(*f),
        live_out.len() == f.blocks.len(),
        forall|b: int| 0 <= b < f.blocks.len() ==> (#[trigger] live_out@[b]).len() == f.n_vregs,
    ensures
        r.len() == f.n_vregs,
        forall|v: int| 0 <= v < f.n_vregs ==> (#[trigger] r@[v] <==> crosses(*f, rows_of(live_out@), v as Vreg)),
{
    let n = f.n_vregs as usize;
    let mut crossing: Vec<bool> = Vec::new();
    let mut z: usize = 0;
    while z < n
        invariant
            z <= n,
            crossing.len() == z,
            forall|v: int| 0 <= v < z ==> !crossing@[v],
        decreases n - z,
    {
        crossing.push(false);
        z += 1;
    }
    let mut b: usize = 0;
    while b < f.blocks.len()
        invariant
            b <= f.blocks.len(),
            n == f.n_vregs,
            allocatable(*f),
            crossing.len() == n,
            live_out.len() == f.blocks.len(),
            forall|bb: int| 0 <= bb < f.blocks.len() ==> (#[trigger] live_out@[bb]).len() == n,
            forall|v: int|
                0 <= v < n ==> #[trigger] crossing@[v] == exists|b1: int, k: int|
                    0 <= b1 < b && 0 <= k < f.blocks@[b1].insts.len() && #[trigger] crosses_at(
                        f.blocks@[b1],
                        live_out@[b1]@,
                        k,
                        v as Vreg,
                    ),
        decreases f.blocks.len() - b,
    {
        proof {
            assert(block_in_range(f.blocks@[b as int], n as int));
        }
        let ghost c0 = crossing@;
        mark_crossing(&mut crossing, &f.blocks[b], &live_out[b]);
        proof {
            assert forall|v: int| 0 <= v < n implies #[trigger] crossing@[v] == exists|b1: int, k: int|
                0 <= b1 < b + 1 && 0 <= k < f.blocks@[b1].insts.len() && #[trigger] crosses_at(
                    f.blocks@[b1],
                    live_out@[b1]@,
                    k,
                    v as Vreg,
                ) by {
                if exists|b1: int, k: int|
                    0 <= b1 < b + 1 && 0 <= k < f.blocks@[b1].insts.len() && #[trigger] crosses_at(
                        f.blocks@[b1],
                        live_out@[b1]@,
                        k,
                        v as Vreg,
                    ) {
                    let (b1, k) = choose|b1: int, k: int|
                        0 <= b1 < b + 1 && 0 <= k < f.blocks@[b1].insts.len() && #[trigger] crosses_at(
                            f.blocks@[b1],
                            live_out@[b1]@,
                            k,
                            v as Vreg,
                        );
                    if b1 < b {
                        assert(c0[v]);
                    }
                }
                if c0[v] {
                    let (b1, k) = choose|b1: int, k: int|
                        0 <= b1 < b && 0 <= k < f.blocks@[b1].insts.len() && #[trigger] crosses_at(
                            f.blocks@[b1],
                            live_out@[b1]@,
                            k,
                            v as Vreg,
                        );
                    assert(b1 < b + 1);
                }
            }
        }
        b += 1;
    }
    proof {
        assert forall|v: int| 0 <= v < n implies (#[trigger] crossing@[v] <==> crosses(*f, rows_of(live_out@), v as Vreg)) by {
            if crosses(*f, rows_of(live_out@), v as Vreg) {
                let (b1, k) = choose|b1: int, k: int|
                    0 <= b1 < f.blocks.len() && 0 <= k < f.blocks@[b1].insts.len() && #[trigger] is_call(
                        f.blocks@[b1].insts@[k],
                    ) && live_after(f.blocks@[b1], rows_of(live_out@)[b1], k, v as Vreg) && !(inst_def(
                        f.blocks@[b1].insts@[k],
                    ) matches Some((d, _)) && d == v as Vreg);
                assert(rows_of(live_out@)[b1] == live_out@[b1]@);
                assert(crosses_at(f.blocks@[b1], live_out@[b1]@, k, v as Vreg));
            }
            if crossing@[v] {
                let (b1, k) = choose|b1: int, k: int|
                    0 <= b1 < f.blocks.len() && 0 <= k < f.blocks@[b1].insts.len() && #[trigger] crosses_at(
                        f.blocks@[b1],
                        live_out@[b1]@,
                        k,
                        v as Vreg,
                    );
                assert(rows_of(live_out@)[b1] == live_out@[b1]@);
                assert(is_call(f.blocks@[b1].insts@[k]));
            }
        }
    }
    crossing
}

// ---- register class ----

/// Every instruction of `bs`, in block order.
pub open spec fn all_insts(bs: Seq<IrBlock>) -> Seq<IrInst>
    decreases bs.len(),
{
    if bs.len() == 0 {
        seq![]
    } else {
        all_insts(bs.drop_last()) + bs.last().insts@
    }
}

/// Whether `v` holds a float after `insts`: the class of its last
/// definition there, else `init`.
pub open spec fn class_in(insts: Seq<IrInst>, v: Vreg, init: bool) -> bool
    decreases insts.len(),
{
    if insts.len() == 0 {
        init
    } else {
        match inst_def(insts.last()) {
            Some((d, fl)) => if d == v {
                fl
            } else {
                class_in(insts.drop_last(), v, init)
            },
            None => class_in(insts.drop_last(), v, init),
        }
    }
}

/// Whether `v` is a float parameter.
pub open spec fn float_param(params: Seq<IrParam>, v: Vreg) -> bool {
    exists|i: int| 0 <= i < params.len() && params[i].vreg == v && #[trigger] params[i].ty == ArgTy::Float
}

/// Whether vreg `v` of `f` holds a float: the class of its last definition
/// in block order, else whether it is a float parameter.
pub open spec fn vreg_class(f: IrFunc, v: Vreg) -> bool {
    class_in(all_insts(f.blocks@), v, float_param(f.params@, v))
}

/// The class of every vreg of `f`.
pub fn vreg_classes(f: &IrFunc) -> (r: Vec<bool>)
    requires
        allocatable(*f),
    ensures
        r.len() == f.n_vregs,
        forall|v: int| 0 <= v < f.n_vregs ==> #[trigger] r@[v] == vreg_class(*f, v as Vreg),
{
    let n = f.n_vregs as usize;
    let mut is_float: Vec<bool> = Vec::new();
    let mut z: usize = 0;
    while z < n
        invariant
            z <= n,
            is_float.len() == z,
            forall|v: int| 0 <= v < z ==> !#[trigger] is_float@[v],
        decreases n - z,
    {
        is_float.push(false);
        z += 1;
    }
    let mut i: usize = 0;
    while i < f.params.len()
        invariant
            i <= f.params.len(),
            n == f.n_vregs,
            n <= u32::MAX,
            is_float.len() == n,
            forall|k: int| 0 <= k < f.params.len() ==> (#[trigger] f.params@[k]).vreg < n,
            forall|v: int| 0 <= v < n ==> #[trigger] is_float@[v] == float_param(f.params@.take(i as int), v as Vreg),
        decreases f.params.len() - i,
    {
        let p = f.params[i];
        if matches!(p.ty, ArgTy::Float) {
            is_float.set(p.vreg as usize, true);
        }
        proof {
            let t = f.params@.take(i as int + 1);
            assert forall|v: int| 0 <= v < n implies #[trigger] is_float@[v] == float_param(t, v as Vreg) by {
                if float_param(t, v as Vreg) {
                    let k = choose|k: int| 0 <= k < t.len() && t[k].vreg == v as Vreg && #[trigger] t[k].ty == ArgTy::Float;
                    if k < i {
                        assert(f.params@.take(i as int)[k] == t[k]);
                    }
                }
                if float_param(f.params@.take(i as int), v as Vreg) {
                    let k = choose|k: int|
                        0 <= k < i && f.params@.take(i as int)[k].vreg == v as Vreg && #[trigger] f.params@.take(
                            i as int,
                        )[k].ty == ArgTy::Float;
                    assert(t[k] == f.params@.take(i as int)[k]);
                }
                if p.ty == ArgTy::Float && p.vreg == v as Vreg {
                    assert(t[i as int] == p);
                }
            }
        }
        i += 1;
    }
    proof {
        assert(f.params@.take(f.params.len() as int) =~= f.params@);
        assert(f.blocks@.take(0) =~= Seq::<IrBlock>::empty());
    }
    let mut b: usize = 0;
    while b < f.blocks.len()
        invariant
            b <= f.blocks.len(),
            n == f.n_vregs,
            n <= u32::MAX,
            allocatable(*f),
            is_float.len() == n,
            forall|v: int|
                0 <= v < n ==> #[trigger] is_float@[v] == class_in(
                    all_insts(f.blocks@.take(b as int)),
                    v as Vreg,
                    float_param(f.params@, v as Vreg),
                ),
        decreases f.blocks.len() - b,
    {
        let blk = &f.blocks[b];
        let ghost pre = all_insts(f.blocks@.take(b as int));
        proof {
            assert(block_in_range(*blk, n as int));
            assert(pre + blk.insts@.take(0) =~= pre);
        }
        let mut k: usize = 0;
        while k < blk.insts.len()
            invariant
                k <= blk.insts.len(),
                n == is_float.len(),
                n <= u32::MAX,
                block_in_range(*blk, n as int),
                forall|v: int|
                    0 <= v < n ==> #[trigger] is_float@[v] == class_in(
                        pre + blk.insts@.take(k as int),
                        v as Vreg,
                        float_param(f.params@, v as Vreg),
                    ),
            decreases blk.insts.len() - k,
        {
            let ghost cur = pre + blk.insts@.take(k as int);
            match def_of(&blk.insts[k]) {
                Some((d, fl)) => {
                    assert(inst_def(blk.insts@[k as int]) matches Some((d2, _)) ==> d2 < n);
                    is_float.set(d as usize, fl);
                },
                None => {},
            }
            proof {
                let nxt = pre + blk.insts@.take(k as int + 1);
                assert(nxt.drop_last() =~= cur);
                assert(nxt.last() == blk.insts@[k as int]);
            }
            k += 1;
        }
        proof {
            assert(blk.insts@.take(blk.insts.len() as int) =~= blk.insts@);
            assert(f.blocks@.take(b as int + 1).drop_last() =~= f.blocks@.take(b as int));
        }
        b += 1;
    }
    proof {
        assert(f.blocks@.take(f.blocks.len() as int) =~= f.blocks@);
    }
    is_float
}

} // verus!
