//! Leaving SSA form: every `phi` node becomes register copies on the incoming
//! control-flow edges — appended to the predecessor when it has that one
//! successor, otherwise placed in a new block that splits the critical edge.
use crate::copies::{distinct_dsts, fresh_for, parallel_copy, regs_below, run_moves, sequence_copies};
use crate::ir::{BlockId, IrBlock, IrFunc, IrInst, IrProgram, IrTerm, IrTy, Phi, Val, Vreg, term_successors};
use vstd::prelude::*;

verus! {

/// Block `from` replaced by `to` in a successor list.
pub open spec fn swap_target(b: BlockId, from: BlockId, to: BlockId) -> BlockId {
    if b == from {
        to
    } else {
        b
    }
}

/// `new` is `old` with every `from` target replaced by `to`, all else equal.
pub open spec fn redirected(old: IrTerm, new: IrTerm, from: BlockId, to: BlockId) -> bool {
    match old {
        IrTerm::Br(b) => new == IrTerm::Br(swap_target(b, from, to)),
        IrTerm::CondBr { cond, t, f } => new == IrTerm::CondBr {
            cond,
            t: swap_target(t, from, to),
            f: swap_target(f, from, to),
        },
        IrTerm::Switch { val, ty, signed, cases, default } => match new {
            IrTerm::Switch { val: v2, ty: t2, signed: s2, cases: c2, default: d2 } => {
                &&& v2 == val
                &&& t2 == ty
                &&& s2 == signed
                &&& d2 == swap_target(default, from, to)
                &&& c2.len() == cases.len()
                &&& forall|i: int|
                    0 <= i < cases.len() ==> (#[trigger] c2@[i]).0 == cases@[i].0 && c2@[i].1
                        == cases@[i].1 && c2@[i].2 == swap_target(cases@[i].2, from, to)
            },
            _ => false,
        },
        _ => new == old,
    }
}

/// Redirects every `from` successor of a terminator to `to` (for edge splitting).
pub fn redirect_term(term: &mut IrTerm, from: BlockId, to: BlockId)
    ensures
        redirected(*old(term), *final(term), from, to),
        term_successors(*final(term)) == term_successors(*old(term)).map_values(
            |b: BlockId| swap_target(b, from, to),
        ),
{
    match term {
        IrTerm::Br(b) => {
            if *b == from {
                *b = to;
            }
            proof {
                assert(term_successors(*term) =~= term_successors(*old(term)).map_values(
                    |b: BlockId| swap_target(b, from, to),
                ));
            }
        },
        IrTerm::CondBr { t, f, .. } => {
            if *t == from {
                *t = to;
            }
            if *f == from {
                *f = to;
            }
            proof {
                assert(term_successors(*term) =~= term_successors(*old(term)).map_values(
                    |b: BlockId| swap_target(b, from, to),
                ));
            }
        },
        IrTerm::Switch { cases, default, .. } => {
            let ghost old_cases = cases@;
            let mut i: usize = 0;
            while i < cases.len()
                invariant
                    i <= cases.len(),
                    cases.len() == old_cases.len(),
                    forall|k: int|
                        0 <= k < cases.len() ==> (#[trigger] cases@[k]).0 == old_cases[k].0 && cases@[k].1
                            == old_cases[k].1 && cases@[k].2 == if k < i {
                            swap_target(old_cases[k].2, from, to)
                        } else {
                            old_cases[k].2
                        },
                decreases cases.len() - i,
            {
                let (lo, hi, b) = cases[i];
                if b == from {
                    cases.set(i, (lo, hi, to));
                }
                i += 1;
            }
            if *default == from {
                *default = to;
            }
            proof {
                assert(term_successors(*term) =~= term_successors(*old(term)).map_values(
                    |b: BlockId| swap_target(b, from, to),
                ));
            }
        },
        IrTerm::Ret(_) | IrTerm::Throw(_) | IrTerm::Rethrow | IrTerm::Unreachable => {
            proof {
                assert(term_successors(*term) =~= term_successors(*old(term)).map_values(
                    |b: BlockId| swap_target(b, from, to),
                ));
            }
        },
    }
}

/// Block ids are their indices and every successor names an existing block.
pub open spec fn cfg_well_formed(blocks: Seq<IrBlock>) -> bool {
    &&& forall|i: int| 0 <= i < blocks.len() ==> (#[trigger] blocks[i]).id == i
    &&& forall|i: int, k: int|
        0 <= i < blocks.len() && 0 <= k < term_successors(blocks[i].term).len() ==> #[trigger] term_successors(
            blocks[i].term,
        )[k] < blocks.len()
}

/// The number of `phi` nodes over all blocks.
pub open spec fn total_phis(blocks: Seq<IrBlock>) -> int
    decreases blocks.len(),
{
    if blocks.len() == 0 {
        0
    } else {
        total_phis(blocks.drop_last()) + blocks.last().phis.len()
    }
}

/// The number of control-flow edges (successor entries) over all blocks.
pub open spec fn total_edges(blocks: Seq<IrBlock>) -> int
    decreases blocks.len(),
{
    if blocks.len() == 0 {
        0
    } else {
        total_edges(blocks.drop_last()) + term_successors(blocks.last().term).len()
    }
}

proof fn lemma_total_phis_bound(blocks: Seq<IrBlock>, i: int)
    requires
        0 <= i < blocks.len(),
    ensures
        blocks[i].phis.len() <= total_phis(blocks),
        0 <= total_phis(blocks),
    decreases blocks.len(),
{
    if i < blocks.len() - 1 {
        lemma_total_phis_bound(blocks.drop_last(), i);
    }
    lemma_total_phis_nonneg(blocks.drop_last());
}

proof fn lemma_total_phis_nonneg(blocks: Seq<IrBlock>)
    ensures
        0 <= total_phis(blocks),
    decreases blocks.len(),
{
    if blocks.len() > 0 {
        lemma_total_phis_nonneg(blocks.drop_last());
    }
}

proof fn lemma_total_edges_nonneg(blocks: Seq<IrBlock>)
    ensures
        0 <= total_edges(blocks),
    decreases blocks.len(),
{
    if blocks.len() > 0 {
        lemma_total_edges_nonneg(blocks.drop_last());
    }
}

proof fn lemma_total_edges_take(blocks: Seq<IrBlock>, i: int)
    requires
        0 <= i < blocks.len(),
    ensures
        total_edges(blocks.take(i + 1)) == total_edges(blocks.take(i)) + term_successors(blocks[i].term).len(),
{
    assert(blocks.take(i + 1).drop_last() =~= blocks.take(i));
}

/// The total length of a list of lists.
pub open spec fn sum_lens(s: Seq<Vec<BlockId>>) -> int
    decreases s.len(),
{
    if s.len() == 0 {
        0
    } else {
        sum_lens(s.drop_last()) + s.last().len()
    }
}

proof fn lemma_sum_lens_push_at(s: Seq<Vec<BlockId>>, i: int, v: Vec<BlockId>)
    requires
        0 <= i < s.len(),
        v.len() == s[i].len() + 1,
    ensures
        sum_lens(s.update(i, v)) == sum_lens(s) + 1,
    decreases s.len(),
{
    if i < s.len() - 1 {
        assert(s.update(i, v).drop_last() =~= s.drop_last().update(i, v));
        lemma_sum_lens_push_at(s.drop_last(), i, v);
    } else {
        assert(s.update(i, v).drop_last() =~= s.drop_last());
    }
}

proof fn lemma_sum_lens_take(s: Seq<Vec<BlockId>>, i: int)
    requires
        0 <= i < s.len(),
    ensures
        sum_lens(s.take(i + 1)) == sum_lens(s.take(i)) + s[i].len(),
{
    assert(s.take(i + 1).drop_last() =~= s.take(i));
}

proof fn lemma_sum_lens_take_bound(s: Seq<Vec<BlockId>>, i: int)
    requires
        0 <= i <= s.len(),
    ensures
        sum_lens(s.take(i)) <= sum_lens(s),
        0 <= sum_lens(s.take(i)),
    decreases s.len() - i,
{
    lemma_sum_lens_nonneg(s.take(i));
    if i < s.len() {
        lemma_sum_lens_take(s, i);
        lemma_sum_lens_take_bound(s, i + 1);
    } else {
        assert(s.take(i) =~= s);
        lemma_sum_lens_nonneg(s);
    }
}

proof fn lemma_sum_lens_nonneg(s: Seq<Vec<BlockId>>)
    ensures
        0 <= sum_lens(s),
    decreases s.len(),
{
    if s.len() > 0 {
        lemma_sum_lens_nonneg(s.drop_last());
    }
}

/// The successors of `t` are those of `orig`, except that some were redirected
/// to split blocks that branch on to the original target.
pub open spec fn successors_split(orig: IrTerm, t: IrTerm, nb: int, split: Seq<IrBlock>) -> bool {
    &&& term_successors(t).len() == term_successors(orig).len()
    &&& forall|k: int|
        0 <= k < term_successors(t).len() ==> {
            let s = #[trigger] term_successors(t)[k];
            ||| s == term_successors(orig)[k]
            ||| (nb <= s < nb + split.len() && split[s - nb].term == IrTerm::Br(term_successors(orig)[k]))
        }
}

/// A block created to split an edge of `f`: it holds only moves and branches
/// on to a block of `f` that had `phi`s, and it was made for an edge into that
/// block from a block of `f` with more than one successor.
pub open spec fn is_split_block(f: IrFunc, b: IrBlock, id: int) -> bool {
    let nb = f.blocks.len() as int;
    &&& b.id == id
    &&& b.phis.len() == 0
    &&& forall|k: int| 0 <= k < b.insts.len() ==> (#[trigger] b.insts@[k]) is Mov
    &&& b.term matches IrTerm::Br(t) && t < nb && f.blocks@[t as int].phis.len() > 0 && exists|a: int, k: int|
        0 <= a < nb && term_successors(f.blocks@[a].term).len() > 1 && 0 <= k < term_successors(
            f.blocks@[a].term,
        ).len() && #[trigger] term_successors(f.blocks@[a].term)[k] == t
}

/// `r` is `f` out of SSA form: no block has a `phi`; the original blocks keep
/// their ids and instructions, with only moves appended; each original edge
/// either still goes to its target or through a new split block that goes on to
/// it; the new blocks follow the original ones; and the moves on each edge do
/// what the `phi`s of its target did on it (`copies_realized`).
pub open spec fn out_of_ssa(f: IrFunc, r: IrFunc) -> bool {
    let nb = f.blocks.len() as int;
    &&& r.name == f.name
    &&& r.ret == f.ret
    &&& r.params == f.params
    &&& r.varargs == f.varargs
    &&& r.slots == f.slots
    &&& r.entry == f.entry
    &&& r.n_vregs == f.n_vregs + fresh_upto(f, nb)
    &&& r.blocks.len() >= nb
    &&& forall|i: int| 0 <= i < r.blocks.len() ==> (#[trigger] r.blocks@[i]).phis.len() == 0
    &&& forall|i: int|
        0 <= i < nb ==> {
            let b = #[trigger] r.blocks@[i];
            let o = f.blocks@[i];
            &&& b.id == i
            &&& b.insts.len() >= o.insts.len()
            &&& b.insts@.take(o.insts.len() as int) == o.insts@
            &&& forall|k: int| o.insts.len() <= k < b.insts.len() ==> (#[trigger] b.insts@[k]) is Mov
            &&& successors_split(o.term, b.term, nb, r.blocks@.skip(nb))
        }
    &&& forall|i: int| nb <= i < r.blocks.len() ==> is_split_block(f, #[trigger] r.blocks@[i], i)
    &&& copies_realized(f, r)
}

/// What out-of-SSA needs of a function: a well-formed CFG, and room in the
/// 32-bit vreg and block numbering for the copies and split blocks it may add.
pub open spec fn destructible(f: IrFunc) -> bool {
    &&& cfg_well_formed(f.blocks@)
    &&& f.blocks.len() + total_edges(f.blocks@) <= u32::MAX
    &&& forall|b: int| 0 <= b < f.blocks.len() ==> (#[trigger] f.blocks@[b]).phis.len() <= u32::MAX
    &&& f.n_vregs + fresh_upto(f, f.blocks.len() as int) <= u32::MAX
}

/// The fresh vregs taken for the edges from `ps` into a block with `phis`:
/// for each edge, those that sequencing its parallel copy takes.
pub open spec fn preds_fresh(phis: Seq<Phi>, ps: Seq<BlockId>) -> nat
    decreases ps.len(),
{
    if ps.len() == 0 {
        0
    } else {
        preds_fresh(phis, ps.drop_last()) + fresh_for(phi_copies(phis, ps.last()))
    }
}

/// The fresh vregs out-of-SSA takes for the blocks of `f` before `b`.
pub open spec fn fresh_upto(f: IrFunc, b: int) -> nat
    decreases b,
{
    if b <= 0 {
        0
    } else {
        fresh_upto(f, b - 1) + preds_fresh(
            f.blocks@[b - 1].phis@,
            preds_upto(f.blocks@, f.blocks.len() as int, (b - 1) as BlockId),
        )
    }
}

proof fn lemma_fresh_upto_mono(f: IrFunc, b1: int, b2: int)
    requires
        0 <= b1 <= b2,
    ensures
        fresh_upto(f, b1) <= fresh_upto(f, b2),
    decreases b2,
{
    if b1 < b2 {
        lemma_fresh_upto_mono(f, b1, b2 - 1);
    }
}

proof fn lemma_preds_fresh_prefix(phis: Seq<Phi>, ps: Seq<BlockId>, m: int)
    requires
        0 <= m <= ps.len(),
    ensures
        preds_fresh(phis, ps.take(m)) <= preds_fresh(phis, ps),
    decreases ps.len() - m,
{
    if m < ps.len() {
        lemma_preds_fresh_prefix(phis, ps, m + 1);
        assert(ps.take(m + 1).drop_last() =~= ps.take(m));
    } else {
        assert(ps.take(m) =~= ps);
    }
}

proof fn lemma_preds_fresh_no_phis(phis: Seq<Phi>, ps: Seq<BlockId>)
    requires
        phis.len() == 0,
    ensures
        preds_fresh(phis, ps) == 0,
    decreases ps.len(),
{
    if ps.len() > 0 {
        lemma_preds_fresh_no_phis(phis, ps.drop_last());
        let c = phi_copies(phis, ps.last());
        assert(c =~= Seq::<(Vreg, IrTy, Val)>::empty());
        c.lemma_filter_len(|x: (Vreg, IrTy, Val)| !crate::copies::is_self_copy(x));
    }
}

/// The value a `phi` with arguments `args` takes on the edge from `a`: its
/// first argument for `a`, or 0 when it names none.
pub open spec fn incoming(args: Seq<(BlockId, Val)>, a: BlockId) -> Val
    decreases args.len(),
{
    if args.len() == 0 {
        Val::ImmInt(0)
    } else if args[0].0 == a {
        args[0].1
    } else {
        incoming(args.skip(1), a)
    }
}

/// The parallel copies the `phis` of a block make on the edge from `a`.
pub open spec fn phi_copies(phis: Seq<Phi>, a: BlockId) -> Seq<(Vreg, IrTy, Val)> {
    Seq::new(phis.len(), |i: int| (phis[i].dst, phis[i].ty, incoming(phis[i].args@, a)))
}

/// The copies write distinct registers, and every register they name is
/// below `bound`.
pub open spec fn clean(copies: Seq<(Vreg, IrTy, Val)>, bound: u32) -> bool {
    distinct_dsts(copies) && regs_below(copies, bound)
}

/// Running `movs` leaves every register below `bound` as the parallel
/// `copies` would, whatever the registers held before.
pub open spec fn realizes(movs: Seq<IrInst>, copies: Seq<(Vreg, IrTy, Val)>, bound: u32) -> bool {
    forall|env: spec_fn(Vreg) -> u64, r: Vreg| r < bound ==> #[trigger] run_moves(env, movs)(r) == parallel_copy(env, copies, r)
}

/// The copies of an edge into a block whose `phis` are counted in the pass
/// that handles the blocks before `b_id`, and the edges from the blocks
/// `seen` into `b_id`.
pub open spec fn handled(t: int, b_id: int, seen: Seq<BlockId>, i: int) -> bool {
    t < b_id || (t == b_id && seen.contains(i as BlockId))
}

/// Successor slot `k` of block `i`: a handled edge into a block with `phis`
/// carries its copies, appended to `i` when that is its only edge, else in
/// the split block the slot now names; any other slot is unchanged.
pub open spec fn edge_placed(
    orig: IrFunc,
    head: Seq<IrBlock>,
    tail: Seq<IrBlock>,
    b_id: int,
    seen: Seq<BlockId>,
    i: int,
    k: int,
) -> bool {
    let nb = orig.blocks.len() as int;
    let o = orig.blocks@[i];
    let t = term_successors(o.term)[k];
    let s = term_successors(head[i].term)[k];
    let c = phi_copies(orig.blocks@[t as int].phis@, i as BlockId);
    if orig.blocks@[t as int].phis.len() > 0 && handled(t as int, b_id, seen, i) {
        if term_successors(o.term).len() == 1 {
            &&& s == t
            &&& clean(c, orig.n_vregs) ==> realizes(head[i].insts@.skip(o.insts.len() as int), c, orig.n_vregs)
        } else {
            &&& nb <= s < nb + tail.len()
            &&& clean(c, orig.n_vregs) ==> realizes(tail[s - nb].insts@, c, orig.n_vregs)
        }
    } else {
        s == t
    }
}

/// The state of out-of-SSA part way: every successor slot is as
/// `edge_placed` says, and a block has moves appended only when its one
/// edge is handled and leads to a block with `phis`.
pub open spec fn placed(orig: IrFunc, head: Seq<IrBlock>, tail: Seq<IrBlock>, b_id: int, seen: Seq<BlockId>) -> bool {
    let nb = orig.blocks.len() as int;
    &&& head.len() == nb
    &&& forall|i: int, k: int|
        0 <= i < nb && 0 <= k < term_successors(orig.blocks@[i].term).len() ==> #[trigger] edge_placed(
            orig,
            head,
            tail,
            b_id,
            seen,
            i,
            k,
        )
    &&& forall|i: int|
        0 <= i < nb && (#[trigger] head[i]).insts.len() > orig.blocks@[i].insts.len() ==> {
            let o = orig.blocks@[i];
            let t = term_successors(o.term)[0];
            &&& term_successors(o.term).len() == 1
            &&& orig.blocks@[t as int].phis.len() > 0
            &&& handled(t as int, b_id, seen, i)
        }
}

/// The moves on edge `k` out of block `i` of `f` in its out-of-SSA form
/// `r`: those appended to `i` when the edge still leads where it did, else
/// those of the split block it now leads to.
pub open spec fn edge_moves(f: IrFunc, r: IrFunc, i: int, k: int) -> Seq<IrInst> {
    let o = f.blocks@[i];
    let b = r.blocks@[i];
    if term_successors(b.term)[k] == term_successors(o.term)[k] {
        b.insts@.skip(o.insts.len() as int)
    } else {
        r.blocks@[term_successors(b.term)[k] as int].insts@
    }
}

/// Every edge of `f` carries, in `r`, moves that do what the `phi`s of its
/// target do on it: on the registers of `f`, running them gives the
/// parallel copies of the incoming values, whenever those copies write
/// distinct registers of `f` and read only registers of `f`.
pub open spec fn copies_realized(f: IrFunc, r: IrFunc) -> bool {
    forall|i: int, k: int|
        0 <= i < f.blocks.len() && 0 <= k < term_successors(f.blocks@[i].term).len() ==> {
            let t = #[trigger] term_successors(f.blocks@[i].term)[k];
            let c = phi_copies(f.blocks@[t as int].phis@, i as BlockId);
            clean(c, f.n_vregs) ==> realizes(edge_moves(f, r, i, k), c, f.n_vregs)
        }
}

proof fn lemma_placed_start(orig: IrFunc)
    ensures
        placed(orig, orig.blocks@, seq![], 0, seq![]),
{
    assert forall|i: int, k: int|
        0 <= i < orig.blocks.len() && 0 <= k < term_successors(orig.blocks@[i].term).len() implies #[trigger] edge_placed(
        orig,
        orig.blocks@,
        seq![],
        0,
        seq![],
        i,
        k,
    ) by {
        let t = term_successors(orig.blocks@[i].term)[k];
        assert(!seq![].contains(i as BlockId));
        assert(!handled(t as int, 0, seq![], i));
    }
}

/// `placed` reads only the instructions and terminators of `head`.
proof fn lemma_placed_same(
    orig: IrFunc,
    head: Seq<IrBlock>,
    head2: Seq<IrBlock>,
    tail: Seq<IrBlock>,
    b_id: int,
    seen: Seq<BlockId>,
)
    requires
        placed(orig, head, tail, b_id, seen),
        head2.len() == head.len(),
        forall|i: int| 0 <= i < head.len() ==> (#[trigger] head2[i]).insts == head[i].insts && head2[i].term == head[i].term,
    ensures
        placed(orig, head2, tail, b_id, seen),
{
    assert forall|i: int, k: int|
        0 <= i < orig.blocks.len() && 0 <= k < term_successors(orig.blocks@[i].term).len() implies #[trigger] edge_placed(
        orig,
        head2,
        tail,
        b_id,
        seen,
        i,
        k,
    ) by {
        assert(edge_placed(orig, head, tail, b_id, seen, i, k));
        assert(head2[i].insts == head[i].insts && head2[i].term == head[i].term);
    }
    assert forall|i: int|
        0 <= i < orig.blocks.len() && (#[trigger] head2[i]).insts.len() > orig.blocks@[i].insts.len() implies head[i].insts.len()
        > orig.blocks@[i].insts.len() by {}
}

/// Moving on from block `b_id` once every edge into it is handled.
proof fn lemma_placed_advance(orig: IrFunc, head: Seq<IrBlock>, tail: Seq<IrBlock>, b_id: int, seen: Seq<BlockId>)
    requires
        placed(orig, head, tail, b_id, seen),
        orig.blocks@[b_id].phis.len() > 0 ==> forall|i: int, k: int|
            0 <= i < orig.blocks.len() && 0 <= k < term_successors(orig.blocks@[i].term).len()
                && #[trigger] term_successors(orig.blocks@[i].term)[k] == b_id ==> seen.contains(i as BlockId),
    ensures
        placed(orig, head, tail, b_id + 1, seq![]),
{
    let nb = orig.blocks.len() as int;
    assert forall|i: int, t: int| handled(t, b_id + 1, seq![], i) && orig.blocks@[t].phis.len() > 0 && (exists|k: int|
        0 <= i < nb && 0 <= k < term_successors(orig.blocks@[i].term).len() && term_successors(orig.blocks@[i].term)[k] == t)
        implies handled(t, b_id, seen, i) by {
        if t == b_id {
            let k = choose|k: int|
                0 <= i < nb && 0 <= k < term_successors(orig.blocks@[i].term).len() && term_successors(orig.blocks@[i].term)[k] == t;
            assert(term_successors(orig.blocks@[i].term)[k] == b_id);
        }
    }
    assert forall|i: int, k: int|
        0 <= i < nb && 0 <= k < term_successors(orig.blocks@[i].term).len() implies #[trigger] edge_placed(
        orig,
        head,
        tail,
        b_id + 1,
        seq![],
        i,
        k,
    ) by {
        assert(edge_placed(orig, head, tail, b_id, seen, i, k));
        let t = term_successors(orig.blocks@[i].term)[k] as int;
        assert(!seq![].contains(i as BlockId));
        if orig.blocks@[t].phis.len() > 0 && handled(t, b_id + 1, seq![], i) {
            assert(handled(t, b_id, seen, i));
        }
        if handled(t, b_id, seen, i) {
            assert(handled(t, b_id + 1, seq![], i));
        }
    }
    assert forall|i: int|
        0 <= i < nb && (#[trigger] head[i]).insts.len() > orig.blocks@[i].insts.len() implies {
            let o = orig.blocks@[i];
            let t = term_successors(o.term)[0];
            &&& term_successors(o.term).len() == 1
            &&& orig.blocks@[t as int].phis.len() > 0
            &&& handled(t as int, b_id + 1, seq![], i)
        } by {
        let t = term_successors(orig.blocks@[i].term)[0] as int;
        assert(handled(t, b_id, seen, i));
    }
}

proof fn lemma_seen_push(seen: Seq<BlockId>, a: BlockId, x: BlockId)
    ensures
        seen.push(a).contains(x) <==> (seen.contains(x) || x == a),
{
    if seen.contains(x) {
        let j = choose|j: int| 0 <= j < seen.len() && seen[j] == x;
        assert(seen.push(a)[j] == x);
    }
    if x == a {
        assert(seen.push(a)[seen.len() as int] == x);
    }
    if seen.push(a).contains(x) {
        let j = choose|j: int| 0 <= j < seen.len() + 1 && seen.push(a)[j] == x;
        if j < seen.len() {
            assert(seen[j] == x);
        }
    }
}

/// Appending the copies of the edge `a -> b_id` to `a`, the one edge out of `a`.
proof fn lemma_place_single(
    orig: IrFunc,
    head: Seq<IrBlock>,
    head2: Seq<IrBlock>,
    tail: Seq<IrBlock>,
    b_id: int,
    seen: Seq<BlockId>,
    a: int,
    movs: Seq<IrInst>,
)
    requires
        placed(orig, head, tail, b_id, seen),
        orig.blocks.len() <= u32::MAX,
        0 <= a < orig.blocks.len(),
        0 <= b_id < orig.blocks.len(),
        term_successors(orig.blocks@[a].term).len() == 1,
        term_successors(orig.blocks@[a].term)[0] == b_id,
        !seen.contains(a as BlockId),
        orig.blocks@[b_id].phis.len() > 0,
        head[a].insts.len() >= orig.blocks@[a].insts.len(),
        head2.len() == head.len(),
        forall|i: int| 0 <= i < head.len() && i != a ==> #[trigger] head2[i] == head[i],
        head2[a].term == head[a].term,
        head2[a].insts@ == head[a].insts@ + movs,
        clean(phi_copies(orig.blocks@[b_id].phis@, a as BlockId), orig.n_vregs) ==> realizes(
            movs,
            phi_copies(orig.blocks@[b_id].phis@, a as BlockId),
            orig.n_vregs,
        ),
    ensures
        placed(orig, head2, tail, b_id, seen.push(a as BlockId)),
{
    let nb = orig.blocks.len() as int;
    let seen2 = seen.push(a as BlockId);
    assert forall|i: int, t: int| 0 <= i < nb && i != a implies handled(t, b_id, seen2, i) == handled(t, b_id, seen, i) by {
        lemma_seen_push(seen, a as BlockId, i as BlockId);
    }
    lemma_seen_push(seen, a as BlockId, a as BlockId);
    let oa = orig.blocks@[a];
    assert(head[a].insts.len() == oa.insts.len()) by {
        if head[a].insts.len() > oa.insts.len() {
            assert(handled(b_id, b_id, seen, a));
        }
    }
    assert(head2[a].insts@.skip(oa.insts.len() as int) =~= movs);
    assert forall|i: int, k: int|
        0 <= i < nb && 0 <= k < term_successors(orig.blocks@[i].term).len() implies #[trigger] edge_placed(
        orig,
        head2,
        tail,
        b_id,
        seen2,
        i,
        k,
    ) by {
        assert(edge_placed(orig, head, tail, b_id, seen, i, k));
        if i == a {
            assert(k == 0);
            assert(!handled(b_id, b_id, seen, a));
        } else {
            assert(head2[i] == head[i]);
        }
    }
    assert forall|i: int|
        0 <= i < nb && (#[trigger] head2[i]).insts.len() > orig.blocks@[i].insts.len() implies {
            let o = orig.blocks@[i];
            let t = term_successors(o.term)[0];
            &&& term_successors(o.term).len() == 1
            &&& orig.blocks@[t as int].phis.len() > 0
            &&& handled(t as int, b_id, seen2, i)
        } by {
        if i != a {
            assert(head2[i] == head[i]);
            let t = term_successors(orig.blocks@[i].term)[0] as int;
            assert(handled(t, b_id, seen, i));
        }
    }
}

/// Splitting the edges `a -> b_id` with a new block that carries their copies.
proof fn lemma_place_split(
    orig: IrFunc,
    head: Seq<IrBlock>,
    head2: Seq<IrBlock>,
    tail: Seq<IrBlock>,
    tail2: Seq<IrBlock>,
    b_id: int,
    seen: Seq<BlockId>,
    a: int,
    movs: Seq<IrInst>,
)
    requires
        placed(orig, head, tail, b_id, seen),
        orig.blocks.len() + tail.len() < u32::MAX,
        0 <= a < orig.blocks.len(),
        0 <= b_id < orig.blocks.len(),
        term_successors(orig.blocks@[a].term).len() != 1,
        term_successors(head[a].term).len() == term_successors(orig.blocks@[a].term).len(),
        orig.blocks@[b_id].phis.len() > 0,
        head2.len() == head.len(),
        forall|i: int| 0 <= i < head.len() && i != a ==> #[trigger] head2[i] == head[i],
        head2[a].insts == head[a].insts,
        term_successors(head2[a].term) == term_successors(head[a].term).map_values(
            |b: BlockId| swap_target(b, b_id as BlockId, (orig.blocks.len() + tail.len()) as BlockId),
        ),
        tail2.len() == tail.len() + 1,
        forall|j: int| 0 <= j < tail.len() ==> #[trigger] tail2[j] == tail[j],
        tail2[tail.len() as int].insts@ == movs,
        clean(phi_copies(orig.blocks@[b_id].phis@, a as BlockId), orig.n_vregs) ==> realizes(
            movs,
            phi_copies(orig.blocks@[b_id].phis@, a as BlockId),
            orig.n_vregs,
        ),
    ensures
        placed(orig, head2, tail2, b_id, seen.push(a as BlockId)),
{
    let nb = orig.blocks.len() as int;
    let sid = nb + tail.len();
    let seen2 = seen.push(a as BlockId);
    assert forall|i: int, t: int| 0 <= i < nb && i != a implies handled(t, b_id, seen2, i) == handled(t, b_id, seen, i) by {
        lemma_seen_push(seen, a as BlockId, i as BlockId);
    }
    lemma_seen_push(seen, a as BlockId, a as BlockId);
    assert forall|i: int, k: int|
        0 <= i < nb && 0 <= k < term_successors(orig.blocks@[i].term).len() implies #[trigger] edge_placed(
        orig,
        head2,
        tail2,
        b_id,
        seen2,
        i,
        k,
    ) by {
        assert(edge_placed(orig, head, tail, b_id, seen, i, k));
        let t = term_successors(orig.blocks@[i].term)[k] as int;
        if i == a {
            let s_old = term_successors(head[a].term)[k];
            assert(term_successors(head2[a].term)[k] == swap_target(s_old, b_id as BlockId, sid as BlockId));
            if t == b_id {
                if seen.contains(a as BlockId) {
                    assert(nb <= s_old < nb + tail.len());
                    assert(tail2[s_old - nb] == tail[s_old - nb]);
                } else {
                    assert(!handled(t, b_id, seen, a));
                    assert(s_old == b_id);
                }
            } else {
                assert(handled(t, b_id, seen2, a) == handled(t, b_id, seen, a));
                if orig.blocks@[t].phis.len() > 0 && handled(t, b_id, seen, a) {
                    assert(nb <= s_old < nb + tail.len());
                    assert(tail2[s_old - nb] == tail[s_old - nb]);
                }
            }
        } else {
            assert(head2[i] == head[i]);
            let s = term_successors(head[i].term)[k];
            if orig.blocks@[t].phis.len() > 0 && handled(t, b_id, seen, i) && term_successors(
                orig.blocks@[i].term,
            ).len() != 1 {
                assert(tail2[s - nb] == tail[s - nb]);
            }
        }
    }
    assert forall|i: int|
        0 <= i < nb && (#[trigger] head2[i]).insts.len() > orig.blocks@[i].insts.len() implies {
            let o = orig.blocks@[i];
            let t = term_successors(o.term)[0];
            &&& term_successors(o.term).len() == 1
            &&& orig.blocks@[t as int].phis.len() > 0
            &&& handled(t as int, b_id, seen2, i)
        } by {
        if i != a {
            assert(head2[i] == head[i]);
            let t = term_successors(orig.blocks@[i].term)[0] as int;
            assert(handled(t, b_id, seen, i));
        } else {
            assert(head[a].insts.len() > orig.blocks@[a].insts.len());
        }
    }
}

/// Once every block is handled, each edge carries moves that realize its copies.
proof fn lemma_placed_final(orig: IrFunc, r: IrFunc, head: Seq<IrBlock>, tail: Seq<IrBlock>)
    requires
        placed(orig, head, tail, orig.blocks.len() as int, seq![]),
        cfg_well_formed(orig.blocks@),
        r.blocks@ == head + tail,
        forall|i: int| 0 <= i < orig.blocks.len() ==> (#[trigger] head[i]).insts.len() >= orig.blocks@[i].insts.len(),
    ensures
        copies_realized(orig, r),
{
    let nb = orig.blocks.len() as int;
    assert forall|i: int, k: int|
        0 <= i < nb && 0 <= k < term_successors(orig.blocks@[i].term).len() implies {
            let t = #[trigger] term_successors(orig.blocks@[i].term)[k];
            let c = phi_copies(orig.blocks@[t as int].phis@, i as BlockId);
            clean(c, orig.n_vregs) ==> realizes(edge_moves(orig, r, i, k), c, orig.n_vregs)
        } by {
        assert(edge_placed(orig, head, tail, nb, seq![], i, k));
        let o = orig.blocks@[i];
        let t = term_successors(o.term)[k];
        let c = phi_copies(orig.blocks@[t as int].phis@, i as BlockId);
        assert(r.blocks@[i] == head[i]);
        let s = term_successors(head[i].term)[k];
        if orig.blocks@[t as int].phis.len() > 0 {
            if term_successors(o.term).len() != 1 {
                assert(r.blocks@[s as int] == tail[s - nb]);
            }
        } else {
            assert(s == t);
            assert(head[i].insts.len() == o.insts.len()) by {
                if head[i].insts.len() > o.insts.len() {
                    assert(term_successors(o.term).len() == 1);
                    assert(k == 0);
                }
            }
            assert(head[i].insts@.skip(o.insts.len() as int) =~= Seq::<IrInst>::empty());
            assert(c =~= Seq::<(Vreg, IrTy, Val)>::empty());
            assert forall|env: spec_fn(Vreg) -> u64, x: Vreg| x < orig.n_vregs implies #[trigger] run_moves(
                env,
                Seq::<IrInst>::empty(),
            )(x) == parallel_copy(env, c, x) by {}
        }
    }
}

/// The parallel copies for edge `a -> b`: each `phi` takes the value it names
/// for predecessor `a` (0 if it names none).
fn edge_copies(phis: &Vec<Phi>, a: BlockId) -> (r: Vec<(Vreg, IrTy, Val)>)
    ensures
        r@ == phi_copies(phis@, a),
{
    let mut r: Vec<(Vreg, IrTy, Val)> = Vec::new();
    let mut i: usize = 0;
    while i < phis.len()
        invariant
            i <= phis.len(),
            r.len() == i,
            forall|k: int| 0 <= k < i ==> #[trigger] r@[k] == phi_copies(phis@, a)[k],
        decreases phis.len() - i,
    {
        let phi = &phis[i];
        let ghost args = phi.args@;
        let mut val = Val::ImmInt(0);
        let mut found = false;
        let mut j: usize = 0;
        proof {
            assert(args.skip(0) =~= args);
        }
        while j < phi.args.len() && !found
            invariant
                j <= phi.args.len(),
                args == phi.args@,
                found ==> val == incoming(args, a),
                !found ==> val == Val::ImmInt(0) && incoming(args, a) == incoming(args.skip(j as int), a),
            decreases phi.args.len() - j,
        {
            proof {
                assert(args.skip(j as int)[0] == args[j as int]);
                assert(args.skip(j as int).skip(1) =~= args.skip(j + 1));
            }
            if phi.args[j].0 == a {
                val = phi.args[j].1;
                found = true;
            }
            j += 1;
        }
        proof {
            if !found {
                assert(args.skip(j as int).len() == 0);
            }
        }
        r.push((phi.dst, phi.ty, val));
        i += 1;
    }
    proof {
        assert(r@ =~= phi_copies(phis@, a));
    }
    r
}

/// The entries block `id` adds to the predecessor list of `t`: one per
/// successor slot of `succ` that names `t`.
pub open spec fn hits(succ: Seq<BlockId>, t: BlockId, id: BlockId) -> Seq<BlockId>
    decreases succ.len(),
{
    if succ.len() == 0 {
        seq![]
    } else {
        let rest = hits(succ.drop_last(), t, id);
        if succ.last() == t {
            rest.push(id)
        } else {
            rest
        }
    }
}

/// The predecessor list of `t` over the first `n` blocks: block by block, one
/// entry per edge into `t`.
pub open spec fn preds_upto(blocks: Seq<IrBlock>, n: int, t: BlockId) -> Seq<BlockId>
    decreases n,
{
    if n <= 0 {
        seq![]
    } else {
        preds_upto(blocks, n - 1, t) + hits(term_successors(blocks[n - 1].term), t, (n - 1) as BlockId)
    }
}

proof fn lemma_hits(succ: Seq<BlockId>, t: BlockId, id: BlockId)
    ensures
        hits(succ, t, id).len() <= succ.len(),
        forall|j: int| 0 <= j < hits(succ, t, id).len() ==> #[trigger] hits(succ, t, id)[j] == id,
        hits(succ, t, id).len() > 0 ==> exists|k: int| 0 <= k < succ.len() && succ[k] == t,
        forall|k: int| 0 <= k < succ.len() && succ[k] == t ==> #[trigger] hits(succ, t, id).contains(id),
    decreases succ.len(),
{
    if succ.len() > 0 {
        let d = succ.drop_last();
        lemma_hits(d, t, id);
        let h = hits(d, t, id);
        assert forall|k: int| 0 <= k < succ.len() && succ[k] == t implies #[trigger] hits(succ, t, id).contains(id) by {
            if k < succ.len() - 1 {
                assert(d[k] == t);
                assert(h.contains(id));
                let j = choose|j: int| 0 <= j < h.len() && h[j] == id;
                assert(hits(succ, t, id)[j] == id);
            } else {
                assert(hits(succ, t, id)[h.len() as int] == id);
            }
        }
        if h.len() > 0 {
            let k = choose|k: int| 0 <= k < d.len() && d[k] == t;
            assert(succ[k] == t);
        }
        if succ.last() == t {
            assert(succ[succ.len() - 1] == t);
        }
    }
}

/// Facts about the predecessor list of `t`: each entry is a block before
/// `n` with an edge into `t`; every such edge has its block listed; and only
/// a block with two or more successor slots is listed twice.
proof fn lemma_preds_upto(blocks: Seq<IrBlock>, n: int, t: BlockId)
    requires
        0 <= n <= blocks.len(),
        blocks.len() <= u32::MAX,
    ensures
        forall|j: int|
            0 <= j < preds_upto(blocks, n, t).len() ==> {
                let a = #[trigger] preds_upto(blocks, n, t)[j];
                &&& a < n
                &&& exists|k: int|
                    0 <= k < term_successors(blocks[a as int].term).len() && term_successors(blocks[a as int].term)[k]
                        == t
            },
        forall|i: int, k: int|
            0 <= i < n && 0 <= k < term_successors(blocks[i].term).len() && #[trigger] term_successors(
                blocks[i].term,
            )[k] == t ==> preds_upto(blocks, n, t).contains(i as BlockId),
        forall|j1: int, j2: int|
            0 <= j1 < j2 < preds_upto(blocks, n, t).len() && preds_upto(blocks, n, t)[j1] == preds_upto(
                blocks,
                n,
                t,
            )[j2] ==> term_successors(blocks[preds_upto(blocks, n, t)[j1] as int].term).len() >= 2,
    decreases n,
{
    if n > 0 {
        lemma_preds_upto(blocks, n - 1, t);
        let p = preds_upto(blocks, n - 1, t);
        let succ = term_successors(blocks[n - 1].term);
        let h = hits(succ, t, (n - 1) as BlockId);
        lemma_hits(succ, t, (n - 1) as BlockId);
        let q = preds_upto(blocks, n, t);
        assert(q == p + h);
        assert forall|j: int| 0 <= j < q.len() implies {
            let a = #[trigger] q[j];
            &&& a < n
            &&& exists|k: int|
                0 <= k < term_successors(blocks[a as int].term).len() && term_successors(blocks[a as int].term)[k] == t
        } by {
            if j < p.len() {
                assert(q[j] == p[j]);
            } else {
                assert(q[j] == h[j - p.len()]);
            }
        }
        assert forall|i: int, k: int|
            0 <= i < n && 0 <= k < term_successors(blocks[i].term).len() && #[trigger] term_successors(
                blocks[i].term,
            )[k] == t implies q.contains(i as BlockId) by {
            if i < n - 1 {
                assert(p.contains(i as BlockId));
                let j = choose|j: int| 0 <= j < p.len() && p[j] == i as BlockId;
                assert(q[j] == p[j]);
            } else {
                assert(h.contains(i as BlockId));
                let j = choose|j: int| 0 <= j < h.len() && h[j] == i as BlockId;
                assert(q[p.len() + j] == h[j]);
            }
        }
        assert forall|j1: int, j2: int| 0 <= j1 < j2 < q.len() && q[j1] == q[j2] implies term_successors(
            blocks[q[j1] as int].term,
        ).len() >= 2 by {
            if j2 < p.len() {
                assert(q[j1] == p[j1] && q[j2] == p[j2]);
            } else if j1 < p.len() {
                assert(q[j1] == p[j1]);
                assert(q[j2] == h[j2 - p.len()]);
                assert(p[j1] < n - 1);
            } else {
                assert(q[j1] == h[j1 - p.len()]);
            }
        }
    }
}

/// Resolves all `phi` nodes in `f`, returning an equivalent `phi`-free function.
#[verifier::rlimit(40)]
pub fn destruct_ssa(f: IrFunc) -> (r: IrFunc)
    requires
        destructible(f),
    ensures
        out_of_ssa(f, r),
{
    let ghost orig = f;
    let IrFunc { name, ret, params, varargs, slots, mut blocks, entry, n_vregs } = f;
    let mut next_vreg = n_vregs;
    let nb = blocks.len();
    let ghost e_total = total_edges(orig.blocks@);
    let ghost p_total = total_phis(orig.blocks@);
    proof {
        lemma_total_phis_nonneg(orig.blocks@);
        lemma_total_edges_nonneg(orig.blocks@);
    }
    // Predecessors, from the original terminators (before any edge splitting).
    let mut preds: Vec<Vec<BlockId>> = Vec::new();
    let mut i: usize = 0;
    while i < nb
        invariant
            i <= nb,
            preds.len() == i,
            forall|k: int| 0 <= k < i ==> (#[trigger] preds@[k]).len() == 0,
            sum_lens(preds@) == 0,
            forall|t: int| 0 <= t < i ==> (#[trigger] preds@[t])@ == preds_upto(orig.blocks@, 0, t as BlockId),
        decreases nb - i,
    {
        let ghost before = preds@;
        preds.push(Vec::new());
        proof {
            assert(preds@.drop_last() =~= before);
            assert(preds@[i as int]@ =~= preds_upto(orig.blocks@, 0, i as BlockId));
        }
        i += 1;
    }
    let mut bi: usize = 0;
    while bi < nb
        invariant
            bi <= nb,
            nb == blocks.len(),
            blocks@ == orig.blocks@,
            cfg_well_formed(blocks@),
            preds.len() == nb,
            forall|k: int, j: int|
                0 <= k < nb && 0 <= j < preds@[k].len() ==> (#[trigger] preds@[k]@[j]) < nb,
            sum_lens(preds@) == total_edges(orig.blocks@.take(bi as int)),
            nb <= u32::MAX,
            forall|t: int| 0 <= t < nb ==> (#[trigger] preds@[t])@ == preds_upto(orig.blocks@, bi as int, t as BlockId),
        decreases nb - bi,
    {
        let succ = blocks[bi].term.successors();
        let id = blocks[bi].id;
        let mut k: usize = 0;
        while k < succ.len()
            invariant
                bi < nb,
                k <= succ.len(),
                nb == blocks.len(),
                blocks@ == orig.blocks@,
                cfg_well_formed(blocks@),
                succ@ == term_successors(blocks@[bi as int].term),
                id == bi,
                preds.len() == nb,
                forall|kk: int, j: int|
                    0 <= kk < nb && 0 <= j < preds@[kk].len() ==> (#[trigger] preds@[kk]@[j]) < nb,
                sum_lens(preds@) == total_edges(orig.blocks@.take(bi as int)) + k,
                nb <= u32::MAX,
                forall|t: int|
                    0 <= t < nb ==> (#[trigger] preds@[t])@ == preds_upto(orig.blocks@, bi as int, t as BlockId)
                        + hits(succ@.take(k as int), t as BlockId, id),
            decreases succ.len() - k,
        {
            let s = succ[k];
            proof {
                assert(term_successors(blocks@[bi as int].term)[k as int] < nb);
            }
            let ghost before = preds@;
            preds[s as usize].push(id);
            proof {
                lemma_sum_lens_push_at(before, s as int, preds@[s as int]);
                assert(preds@ == before.update(s as int, preds@[s as int]));
                assert(succ@.take(k + 1).drop_last() =~= succ@.take(k as int));
                assert forall|t: int| 0 <= t < nb implies (#[trigger] preds@[t])@ == preds_upto(
                    orig.blocks@,
                    bi as int,
                    t as BlockId,
                ) + hits(succ@.take(k + 1), t as BlockId, id) by {
                    let pu = preds_upto(orig.blocks@, bi as int, t as BlockId);
                    let h0 = hits(succ@.take(k as int), t as BlockId, id);
                    let tk = succ@.take(k + 1);
                    assert(tk.last() == s);
                    assert(hits(tk, t as BlockId, id) == (if tk.last() == t as BlockId {
                        hits(tk.drop_last(), t as BlockId, id).push(id)
                    } else {
                        hits(tk.drop_last(), t as BlockId, id)
                    }));
                    assert(before[t]@ == pu + h0);
                    if t == s as int {
                        assert(preds@[t]@ =~= before[t]@.push(id));
                        assert(hits(tk, t as BlockId, id) == h0.push(id));
                        assert(pu + h0.push(id) =~= (pu + h0).push(id));
                    } else {
                        assert(preds@[t] == before[t]);
                        assert(hits(tk, t as BlockId, id) == h0);
                    }
                }
            }
            k += 1;
        }
        proof {
            lemma_total_edges_take(orig.blocks@, bi as int);
            assert(succ@.take(succ.len() as int) =~= succ@);
            assert(id == bi as BlockId);
            assert forall|t: int| 0 <= t < nb implies (#[trigger] preds@[t])@ == preds_upto(
                orig.blocks@,
                bi + 1,
                t as BlockId,
            ) by {
                assert(preds_upto(orig.blocks@, bi + 1, t as BlockId) == preds_upto(orig.blocks@, bi as int, t as BlockId)
                    + hits(term_successors(orig.blocks@[bi as int].term), t as BlockId, bi as BlockId));
            }
        }
        bi += 1;
    }
    proof {
        assert(orig.blocks@.take(nb as int) =~= orig.blocks@);
    }
    let ghost all_preds = preds@;
    let mut split_blocks: Vec<IrBlock> = Vec::new();
    proof {
        lemma_placed_start(orig);
        assert(blocks@ == orig.blocks@);
    }
    let ghost mut done: int = 0;
    let mut b_id: usize = 0;
    while b_id < nb
        invariant
            b_id <= nb,
            nb == blocks.len(),
            nb == orig.blocks.len(),
            destructible(orig),
            e_total == total_edges(orig.blocks@),
            p_total == total_phis(orig.blocks@),
            0 <= p_total,
            preds@ == all_preds,
            preds.len() == nb,
            sum_lens(all_preds) == e_total,
            forall|k: int, j: int|
                0 <= k < nb && 0 <= j < preds@[k].len() ==> (#[trigger] preds@[k]@[j]) < nb,
            0 <= done <= sum_lens(all_preds.take(b_id as int)),
            next_vreg == orig.n_vregs + fresh_upto(orig, b_id as int),
            split_blocks.len() <= done,
            forall|t: int| 0 <= t < nb ==> (#[trigger] all_preds[t])@ == preds_upto(orig.blocks@, nb as int, t as BlockId),
            placed(orig, blocks@, split_blocks@, b_id as int, seq![]),
            forall|i: int|
                0 <= i < nb ==> {
                    let b = #[trigger] blocks@[i];
                    let o = orig.blocks@[i];
                    &&& b.id == i
                    &&& (i < b_id ==> b.phis.len() == 0)
                    &&& (i >= b_id ==> b.phis == o.phis)
                    &&& b.insts.len() >= o.insts.len()
                    &&& b.insts@.take(o.insts.len() as int) == o.insts@
                    &&& forall|k: int| o.insts.len() <= k < b.insts.len() ==> (#[trigger] b.insts@[k]) is Mov
                    &&& successors_split(o.term, b.term, nb as int, split_blocks@)
                },
            forall|j: int|
                0 <= j < split_blocks.len() ==> is_split_block(
                    orig,
                    #[trigger] split_blocks@[j],
                    nb + j,
                ),
        decreases nb - b_id,
    {
        proof {
            lemma_sum_lens_take(all_preds, b_id as int);
            lemma_sum_lens_take_bound(all_preds, b_id as int + 1);
            lemma_total_phis_bound(orig.blocks@, b_id as int);
        }
        let mut phis: Vec<Phi> = Vec::new();
        let ghost head0 = blocks@;
        std::mem::swap(&mut phis, &mut blocks[b_id].phis);
        proof {
            assert(phis == orig.blocks@[b_id as int].phis);
            assert forall|i: int| 0 <= i < head0.len() implies (#[trigger] blocks@[i]).insts == head0[i].insts
                && blocks@[i].term == head0[i].term by {}
            lemma_placed_same(orig, head0, blocks@, split_blocks@, b_id as int, seq![]);
        }
        if phis.len() == 0 {
            proof {
                lemma_placed_advance(orig, blocks@, split_blocks@, b_id as int, seq![]);
                lemma_preds_fresh_no_phis(orig.blocks@[b_id as int].phis@, preds_upto(orig.blocks@, nb as int, b_id as BlockId));
                assert(fresh_upto(orig, b_id + 1) == fresh_upto(orig, b_id as int));
            }
            b_id += 1;
            continue;
        }
        let pl = preds[b_id].clone();
        proof {
            assert(pl@ =~= preds@[b_id as int]@);
            lemma_preds_upto(orig.blocks@, nb as int, b_id as BlockId);
            assert(pl@.take(0) =~= seq![]);
        }
        let ghost done0 = done;
        let ghost mut seen: Seq<BlockId> = seq![];
        let mut ai: usize = 0;
        while ai < pl.len()
            invariant
                b_id < nb,
                ai <= pl.len(),
                pl@ == all_preds[b_id as int]@,
                nb == blocks.len(),
                nb == orig.blocks.len(),
                destructible(orig),
                e_total == total_edges(orig.blocks@),
                p_total == total_phis(orig.blocks@),
                0 <= p_total,
                phis.len() <= p_total,
                preds@ == all_preds,
                sum_lens(all_preds) == e_total,
                sum_lens(all_preds.take(b_id as int + 1)) <= e_total,
                sum_lens(all_preds.take(b_id as int + 1)) == sum_lens(all_preds.take(b_id as int))
                    + pl.len(),
                forall|k: int, j: int|
                    0 <= k < nb && 0 <= j < preds@[k].len() ==> (#[trigger] preds@[k]@[j]) < nb,
                done == done0 + ai,
                0 <= done0 <= sum_lens(all_preds.take(b_id as int)),
                next_vreg == orig.n_vregs + fresh_upto(orig, b_id as int) + preds_fresh(phis@, seen),
                split_blocks.len() <= done,
                forall|t: int| 0 <= t < nb ==> (#[trigger] all_preds[t])@ == preds_upto(orig.blocks@, nb as int, t as BlockId),
                pl@ == preds_upto(orig.blocks@, nb as int, b_id as BlockId),
                phis == orig.blocks@[b_id as int].phis,
                phis.len() > 0,
                seen == pl@.take(ai as int),
                placed(orig, blocks@, split_blocks@, b_id as int, seen),
                forall|i: int|
                    0 <= i < nb ==> {
                        let b = #[trigger] blocks@[i];
                        let o = orig.blocks@[i];
                        &&& b.id == i
                        &&& (i <= b_id ==> b.phis.len() == 0)
                        &&& (i > b_id ==> b.phis == o.phis)
                        &&& b.insts.len() >= o.insts.len()
                        &&& b.insts@.take(o.insts.len() as int) == o.insts@
                        &&& forall|k: int|
                            o.insts.len() <= k < b.insts.len() ==> (#[trigger] b.insts@[k]) is Mov
                        &&& successors_split(o.term, b.term, nb as int, split_blocks@)
                    },
                forall|j: int|
                    0 <= j < split_blocks.len() ==> is_split_block(
                        orig,
                        #[trigger] split_blocks@[j],
                        nb + j,
                    ),
            decreases pl.len() - ai,
        {
            let a = pl[ai];
            proof {
                assert(all_preds[b_id as int]@[ai as int] < nb);
                assert(done + 1 <= e_total);
                assert(pl@.take(ai + 1).drop_last() =~= seen);
                lemma_preds_fresh_prefix(phis@, pl@, ai + 1);
                lemma_fresh_upto_mono(orig, b_id + 1, nb as int);
                assert(fresh_upto(orig, b_id + 1) == fresh_upto(orig, b_id as int) + preds_fresh(phis@, pl@));
            }
            let copies = edge_copies(&phis, a);
            let ghost nv0 = next_vreg;
            let mut movs = sequence_copies(copies.as_slice(), &mut next_vreg);
            let ghost m0 = movs@;
            let ghost c = phi_copies(orig.blocks@[b_id as int].phis@, a);
            proof {
                assert(copies@ == c);
                if clean(c, orig.n_vregs) {
                    assert(regs_below(c, nv0));
                    assert forall|env: spec_fn(Vreg) -> u64, x: Vreg| x < orig.n_vregs implies #[trigger] run_moves(
                        env,
                        m0,
                    )(x) == parallel_copy(env, c, x) by {}
                }
                assert(clean(c, orig.n_vregs) ==> realizes(m0, c, orig.n_vregs));
                assert(pl@[ai as int] == a);
                assert(pl@.take(ai + 1) =~= seen.push(a));
            }
            let single = blocks[a as usize].term.successors().len() == 1;
            let ghost before = blocks@;
            let ghost split_before = split_blocks@;
            if single {
                // The only edge out of `a` is `a -> b`: place the copies at the end of `a`.
                let ghost old_insts = blocks@[a as int].insts@;
                blocks[a as usize].insts.append(&mut movs);
                proof {
                    lemma_preds_upto(orig.blocks@, nb as int, b_id as BlockId);
                    assert(successors_split(orig.blocks@[a as int].term, before[a as int].term, nb as int, split_before));
                    let k = choose|k: int|
                        0 <= k < term_successors(orig.blocks@[a as int].term).len() && term_successors(
                            orig.blocks@[a as int].term,
                        )[k] == b_id as BlockId;
                    assert(k == 0);
                    if seen.contains(a) {
                        let j = choose|j: int| 0 <= j < seen.len() && seen[j] == a;
                        assert(pl@[j] == pl@[ai as int]);
                    }
                    lemma_place_single(orig, before, blocks@, split_blocks@, b_id as int, seen, a as int, m0);
                    assert forall|i: int| 0 <= i < nb implies {
                        let b = #[trigger] blocks@[i];
                        let o = orig.blocks@[i];
                        &&& b.id == i
                        &&& (i <= b_id ==> b.phis.len() == 0)
                        &&& (i > b_id ==> b.phis == o.phis)
                        &&& b.insts.len() >= o.insts.len()
                        &&& b.insts@.take(o.insts.len() as int) == o.insts@
                        &&& forall|k: int|
                            o.insts.len() <= k < b.insts.len() ==> (#[trigger] b.insts@[k]) is Mov
                        &&& successors_split(o.term, b.term, nb as int, split_blocks@)
                    } by {
                        if i == a as int {
                            let b = blocks@[i];
                            let o = orig.blocks@[i];
                            assert(b.insts@.take(o.insts.len() as int) =~= old_insts.take(
                                o.insts.len() as int,
                            ));
                        } else {
                            assert(blocks@[i] == before[i]);
                        }
                    }
                }
            } else {
                // A critical edge: split it with a new block carrying the copies.
                let s_id = (nb + split_blocks.len()) as BlockId;
                split_blocks.push(
                    IrBlock { id: s_id, phis: Vec::new(), insts: movs, term: IrTerm::Br(b_id as BlockId) },
                );
                let ghost old_term = blocks@[a as int].term;
                redirect_term(&mut blocks[a as usize].term, b_id as BlockId, s_id);
                proof {
                    lemma_place_split(orig, before, blocks@, split_before, split_blocks@, b_id as int, seen, a as int, m0);
                    assert forall|j: int| 0 <= j < split_blocks.len() implies is_split_block(
                        orig,
                        #[trigger] split_blocks@[j],
                        nb + j,
                    ) by {
                        if j < split_before.len() {
                            assert(split_blocks@[j] == split_before[j]);
                        } else {
                            lemma_preds_upto(orig.blocks@, nb as int, b_id as BlockId);
                            assert(pl@[ai as int] == a);
                            let k = choose|k: int|
                                0 <= k < term_successors(orig.blocks@[a as int].term).len() && term_successors(
                                    orig.blocks@[a as int].term,
                                )[k] == b_id as BlockId;
                            assert(successors_split(orig.blocks@[a as int].term, before[a as int].term, nb as int, split_before));
                            assert(term_successors(before[a as int].term).len() != 1);
                            assert(term_successors(orig.blocks@[a as int].term).len() > 1);
                            assert(orig.blocks@[b_id as int].phis.len() > 0);
                        }
                    }
                    assert forall|i: int| 0 <= i < nb implies {
                        let b = #[trigger] blocks@[i];
                        let o = orig.blocks@[i];
                        &&& b.id == i
                        &&& (i <= b_id ==> b.phis.len() == 0)
                        &&& (i > b_id ==> b.phis == o.phis)
                        &&& b.insts.len() >= o.insts.len()
                        &&& b.insts@.take(o.insts.len() as int) == o.insts@
                        &&& forall|k: int|
                            o.insts.len() <= k < b.insts.len() ==> (#[trigger] b.insts@[k]) is Mov
                        &&& successors_split(o.term, b.term, nb as int, split_blocks@)
                    } by {
                        let o = orig.blocks@[i];
                        if i == a as int {
                            let t = blocks@[i].term;
                            assert(successors_split(o.term, old_term, nb as int, split_before));
                            assert forall|k: int| 0 <= k < term_successors(t).len() implies {
                                let s = #[trigger] term_successors(t)[k];
                                ||| s == term_successors(o.term)[k]
                                ||| (nb <= s < nb + split_blocks.len() && split_blocks@[s - nb].term
                                    == IrTerm::Br(term_successors(o.term)[k]))
                            } by {
                                let s0 = term_successors(old_term)[k];
                                if s0 == b_id as BlockId {
                                    assert(s0 == term_successors(o.term)[k]);
                                } else if s0 != term_successors(o.term)[k] {
                                    assert(split_blocks@[s0 - nb] == split_before[s0 - nb]);
                                }
                            }
                        } else {
                            assert(blocks@[i] == before[i]);
                            let t = blocks@[i].term;
                            assert(successors_split(o.term, t, nb as int, split_before));
                            assert forall|k: int| 0 <= k < term_successors(t).len() implies {
                                let s = #[trigger] term_successors(t)[k];
                                ||| s == term_successors(o.term)[k]
                                ||| (nb <= s < nb + split_blocks.len() && split_blocks@[s - nb].term
                                    == IrTerm::Br(term_successors(o.term)[k]))
                            } by {
                                let s0 = term_successors(t)[k];
                                if s0 != term_successors(o.term)[k] {
                                    assert(split_blocks@[s0 - nb] == split_before[s0 - nb]);
                                }
                            }
                        }
                    }
                }
            }
            proof {
                done = done + 1;
                seen = seen.push(a);
            }
            ai += 1;
        }
        proof {
            assert(pl@.take(pl.len() as int) =~= pl@);
            lemma_placed_advance(orig, blocks@, split_blocks@, b_id as int, seen);
        }
        b_id += 1;
    }
    let ghost head = blocks@;
    let ghost tail = split_blocks@;
    blocks.append(&mut split_blocks);
    let r = IrFunc { name, ret, params, varargs, slots, blocks, entry, n_vregs: next_vreg };
    proof {
        assert(r.blocks@.skip(nb as int) =~= tail);
        assert(r.blocks@.take(nb as int) =~= head);
        assert forall|i: int| 0 <= i < r.blocks.len() implies (#[trigger] r.blocks@[i]).phis.len() == 0 by {
            if i < nb {
                assert(r.blocks@[i] == head[i]);
            } else {
                assert(r.blocks@[i] == tail[i - nb]);
            }
        }
        assert forall|i: int| nb <= i < r.blocks.len() implies is_split_block(orig, #[trigger] r.blocks@[i], i) by {
            assert(r.blocks@[i] == tail[i - nb]);
        }
        assert forall|i: int| 0 <= i < nb implies #[trigger] r.blocks@[i] == head[i] by {}
        assert(r.blocks@ =~= head + tail);
        lemma_placed_final(orig, r, head, tail);
    }
    r
}


/// Out-of-SSA every function of a program; the globals, strings and layouts
/// carry over unchanged.
pub fn destruct_program(p: IrProgram) -> (r: IrProgram)
    requires
        forall|i: int| 0 <= i < p.funcs.len() ==> destructible(#[trigger] p.funcs@[i]),
    ensures
        r.funcs.len() == p.funcs.len(),
        forall|i: int| 0 <= i < p.funcs.len() ==> out_of_ssa(p.funcs@[i], #[trigger] r.funcs@[i]),
        r.globals == p.globals,
        r.strings == p.strings,
        r.layouts == p.layouts,
{
    let ghost orig = p.funcs@;
    let IrProgram { funcs, globals, strings, layouts } = p;
    let mut rest = funcs;
    let mut out: Vec<IrFunc> = Vec::new();
    while rest.len() > 0
        invariant
            out.len() + rest.len() == orig.len(),
            rest@ == orig.skip(out.len() as int),
            forall|i: int| 0 <= i < orig.len() ==> destructible(#[trigger] orig[i]),
            forall|i: int| 0 <= i < out.len() ==> out_of_ssa(orig[i], #[trigger] out@[i]),
        decreases rest.len(),
    {
        let ghost k = out.len() as int;
        let f = rest.remove(0);
        proof {
            assert(f == orig[k]);
            assert(rest@ =~= orig.skip(k + 1));
        }
        out.push(destruct_ssa(f));
    }
    IrProgram { funcs: out, globals, strings, layouts }
}

} // verus!
