//! Register allocation: each vreg of an out-of-SSA function gets a location — a
//! physical register or its frame slot — by a liveness-based linear scan over
//! the target's register pools. A vreg live across a call only takes a
//! callee-saved register; two vregs share a register only when their live
//! intervals do not overlap.
use crate::backend::PReg;
use crate::copies::lemma_distinct_below;
use crate::ir::{BlockId, IrBlock, IrFunc, Vreg};
use vstd::arithmetic::power::pow;
use crate::liveness::{
    allocatable, block_in_range, block_use_def, covers, crossing_calls, crosses, def_of, intervals, live_closed,
    intervals_tight, liveness, read_count, rows_below, rows_of, saturate, vreg_class, vreg_classes,
};
use vstd::prelude::*;

verus! {

/// Where a vreg lives during the function body.
#[derive(Clone, Copy, Debug)]
pub enum Location {
    /// In a physical register.
    Reg(PReg),
    /// In its frame slot.
    Spill,
}

/// One function's allocation: a location per vreg, and the callee-saved
/// registers the function must save and restore.
pub struct Allocation {
    pub loc: Vec<Location>,
    pub saved: Vec<PReg>,
}

/// The registers the allocator may use, by class and by who preserves them
/// across a call.
pub struct RegSet {
    pub callee_int: Vec<u32>,
    pub caller_int: Vec<u32>,
    pub callee_flt: Vec<u32>,
    pub caller_flt: Vec<u32>,
}

impl RegSet {
    /// The pool of class `fl` (float or integer), caller-saved or callee-saved.
    pub open spec fn pool(&self, fl: bool, caller: bool) -> Seq<u32> {
        if fl {
            if caller {
                self.caller_flt@
            } else {
                self.callee_flt@
            }
        } else {
            if caller {
                self.caller_int@
            } else {
                self.callee_int@
            }
        }
    }

    /// No register of a class is both callee-saved and caller-saved.
    pub open spec fn pools_disjoint(&self) -> bool {
        forall|fl: bool, i: int, j: int|
            0 <= i < self.pool(fl, false).len() && 0 <= j < self.pool(fl, true).len() ==> self.pool(fl, false)[i]
                != self.pool(fl, true)[j]
    }

    /// No register is listed twice within a class.
    pub open spec fn distinct(&self) -> bool {
        &&& forall|fl: bool, c: bool, i: int, j: int|
            0 <= i < j < self.pool(fl, c).len() ==> self.pool(fl, c)[i] != self.pool(fl, c)[j]
        &&& self.pools_disjoint()
    }

    fn pop(&mut self, fl: bool, caller: bool) -> (r: Option<u32>)
        ensures
            old(self).pool(fl, caller).len() > 0 ==> r == Some(old(self).pool(fl, caller).last())
                && final(self).pool(fl, caller) == old(self).pool(fl, caller).drop_last(),
            old(self).pool(fl, caller).len() == 0 ==> r is None && final(self).pool(fl, caller) == old(self).pool(
                fl,
                caller,
            ),
            forall|f2: bool, c2: bool| (f2, c2) != (fl, caller) ==> final(self).pool(f2, c2) == old(self).pool(f2, c2),
    {
        let r = if fl {
            if caller {
                self.caller_flt.pop()
            } else {
                self.callee_flt.pop()
            }
        } else {
            if caller {
                self.caller_int.pop()
            } else {
                self.callee_int.pop()
            }
        };
        proof {
            assert(old(self).pool(fl, caller).len() > 0 ==> final(self).pool(fl, caller) =~= old(self).pool(
                fl,
                caller,
            ).drop_last());
        }
        r
    }

    fn push(&mut self, fl: bool, caller: bool, reg: u32)
        ensures
            final(self).pool(fl, caller) == old(self).pool(fl, caller).push(reg),
            forall|f2: bool, c2: bool| (f2, c2) != (fl, caller) ==> final(self).pool(f2, c2) == old(self).pool(f2, c2),
    {
        if fl {
            if caller {
                self.caller_flt.push(reg);
            } else {
                self.callee_flt.push(reg);
            }
        } else {
            if caller {
                self.caller_int.push(reg);
            } else {
                self.callee_int.push(reg);
            }
        }
    }
}

/// An interval holding a register during the scan.
#[derive(Clone, Copy)]
struct Active {
    end: u32,
    reg: u32,
    is_float: bool,
    from_caller: bool,
    weight: u64,
    vreg: usize,
}

/// The live interval of `v` is `[start[v], end[v]]`.
pub open spec fn overlap(start: Seq<u32>, end: Seq<u32>, u: int, v: int) -> bool {
    !(end[u] < start[v] || end[v] < start[u])
}

/// No two vregs in the same register have overlapping intervals.
pub open spec fn interference_free(plan: Seq<Option<PReg>>, start: Seq<u32>, end: Seq<u32>) -> bool {
    forall|u: int, w: int|
        0 <= u < plan.len() && 0 <= w < plan.len() && u != w && plan[u] is Some && plan[u] == plan[w] ==> !overlap(
            start,
            end,
            u,
            w,
        )
}


spec fn in_active(active: Seq<Active>, u: int) -> bool {
    exists|k: int| 0 <= k < active.len() && active[k].vreg == u
}

/// The free pools and the active intervals never hold one register twice.
spec fn no_double_holding(free: RegSet, active: Seq<Active>) -> bool {
    &&& free.distinct()
    &&& forall|k: int, c: bool, i: int|
        0 <= k < active.len() && 0 <= i < free.pool(active[k].is_float, c).len() ==> active[k].reg != free.pool(
            active[k].is_float,
            c,
        )[i]
    &&& forall|k1: int, k2: int|
        0 <= k1 < active.len() && 0 <= k2 < active.len() && k1 != k2 && active[k1].is_float == active[k2].is_float
            ==> active[k1].reg != active[k2].reg
}

/// How many active intervals hold a register of class `fl` taken from the
/// caller-saved pool (`c`) or the callee-saved one.
spec fn count_held(act: Seq<Active>, fl: bool, c: bool) -> nat
    decreases act.len(),
{
    if act.len() == 0 {
        0
    } else {
        count_held(act.drop_last(), fl, c) + if act.last().is_float == fl && act.last().from_caller == c {
            1nat
        } else {
            0nat
        }
    }
}

/// Every register of a pool is either free or held by an active interval.
spec fn held_accounting(free: RegSet, act: Seq<Active>, regs: RegSet) -> bool {
    forall|fl: bool, c: bool| #[trigger] free.pool(fl, c).len() + count_held(act, fl, c) == regs.pool(fl, c).len()
}

proof fn lemma_count_held_concat(a: Seq<Active>, b: Seq<Active>, fl: bool, c: bool)
    ensures
        count_held(a + b, fl, c) == count_held(a, fl, c) + count_held(b, fl, c),
    decreases b.len(),
{
    if b.len() > 0 {
        assert((a + b).drop_last() =~= a + b.drop_last());
        lemma_count_held_concat(a, b.drop_last(), fl, c);
    } else {
        assert(a + b =~= a);
    }
}

proof fn lemma_count_held_le(a: Seq<Active>, fl: bool, c: bool)
    ensures
        count_held(a, fl, c) <= a.len(),
    decreases a.len(),
{
    if a.len() > 0 {
        lemma_count_held_le(a.drop_last(), fl, c);
    }
}

proof fn lemma_count_held_push(a: Seq<Active>, x: Active, fl: bool, c: bool)
    ensures
        count_held(a.push(x), fl, c) == count_held(a, fl, c) + if x.is_float == fl && x.from_caller == c {
            1nat
        } else {
            0nat
        },
{
    assert(a.push(x).drop_last() =~= a);
}

proof fn lemma_count_held_remove(a: Seq<Active>, i: int, fl: bool, c: bool)
    requires
        0 <= i < a.len(),
    ensures
        count_held(a.remove(i), fl, c) + (if a[i].is_float == fl && a[i].from_caller == c {
            1nat
        } else {
            0nat
        }) == count_held(a, fl, c),
{
    let l = a.take(i);
    let r = a.skip(i + 1);
    assert(a.remove(i) =~= l + r);
    assert(a =~= l.push(a[i]) + r);
    lemma_count_held_concat(l, r, fl, c);
    lemma_count_held_concat(l.push(a[i]), r, fl, c);
    lemma_count_held_push(l, a[i], fl, c);
}

/// One assignment keeps every pool's registers accounted for.
proof fn lemma_held_step(
    regs: RegSet,
    free1: RegSet,
    free: RegSet,
    act0: Seq<Active>,
    act1: Seq<Active>,
    act2: Seq<Active>,
    entry: Active,
    evicted: Option<usize>,
    fl: bool,
    from_caller: bool,
)
    requires
        held_accounting(free1, act0, regs),
        act2 == act1.push(entry),
        entry.is_float == fl,
        entry.from_caller == from_caller,
        evicted matches Some(b) ==> b < act0.len() && act1 == act0.remove(b as int) && act0[b as int].is_float == fl
            && act0[b as int].from_caller == from_caller && forall|f2: bool, c2: bool| free.pool(f2, c2) == free1.pool(f2, c2),
        evicted is None ==> act1 == act0 && free1.pool(fl, from_caller).len() > 0 && free.pool(fl, from_caller)
            == free1.pool(fl, from_caller).drop_last() && forall|f2: bool, c2: bool|
            (f2, c2) != (fl, from_caller) ==> free.pool(f2, c2) == free1.pool(f2, c2),
    ensures
        held_accounting(free, act2, regs),
{
    assert forall|fl2: bool, c: bool| #[trigger] free.pool(fl2, c).len() + count_held(act2, fl2, c) == regs.pool(
        fl2,
        c,
    ).len() by {
        lemma_count_held_push(act1, entry, fl2, c);
        assert(free1.pool(fl2, c).len() + count_held(act0, fl2, c) == regs.pool(fl2, c).len());
        if let Some(b) = evicted {
            lemma_count_held_remove(act0, b as int, fl2, c);
        } else if (fl2, c) != (fl, from_caller) {
            assert(free.pool(fl2, c) == free1.pool(fl2, c));
        }
    }
}

/// One assignment keeps every processed candidate whose class has a
/// callee-saved pool of at least `n` registers in a register.
proof fn lemma_done_step(
    n: int,
    is_float: Seq<bool>,
    regs: RegSet,
    cands: Seq<usize>,
    ci: int,
    plan0: Seq<Option<PReg>>,
    plan1: Seq<Option<PReg>>,
    plan2: Seq<Option<PReg>>,
    victim: int,
    evicted: bool,
    np: PReg,
)
    requires
        0 <= ci < cands.len(),
        forall|k1: int, k2: int| 0 <= k1 < k2 < cands.len() ==> cands[k1] != cands[k2],
        forall|k: int|
            0 <= k < ci && regs.pool(is_float[cands[k] as int], false).len() >= n ==> #[trigger] plan0[cands[k] as int] is Some,
        plan2 == plan1.update(cands[ci] as int, Some(np)),
        evicted ==> 0 <= victim < plan0.len() && plan1 == plan0.update(victim, None) && is_float[victim] == is_float[cands[ci] as int] && regs.pool(
            is_float[cands[ci] as int],
            false,
        ).len() < n,
        !evicted ==> plan1 == plan0,
        forall|k: int| 0 <= k < cands.len() ==> #[trigger] cands[k] < plan0.len(),
    ensures
        forall|k: int|
            0 <= k < ci + 1 && regs.pool(is_float[cands[k] as int], false).len() >= n ==> #[trigger] plan2[cands[k] as int] is Some,
{
    assert forall|k: int|
        0 <= k < ci + 1 && regs.pool(is_float[cands[k] as int], false).len() >= n implies #[trigger] plan2[cands[k] as int] is Some by {
        assert(cands[ci] < plan0.len());
        if k < ci {
            assert(plan0[cands[k] as int] is Some);
            assert(cands[k] != cands[ci]);
            if evicted {
                assert(cands[k] as int != victim);
                assert(plan1[cands[k] as int] == plan0[cands[k] as int]);
            }
            assert(plan2[cands[k] as int] == plan1[cands[k] as int]);
        } else {
            assert(k == ci);
            assert(plan2[cands[ci] as int] == Some(np));
        }
    }
}

/// One assignment keeps in a register every processed candidate that `good`
/// holds of, when the displaced one (if any) is not good.
proof fn lemma_keep_step(
    cands: Seq<usize>,
    ci: int,
    plan0: Seq<Option<PReg>>,
    plan1: Seq<Option<PReg>>,
    plan2: Seq<Option<PReg>>,
    victim: int,
    evicted: bool,
    np: PReg,
    good: spec_fn(int) -> bool,
)
    requires
        0 <= ci < cands.len(),
        forall|k1: int, k2: int| 0 <= k1 < k2 < cands.len() ==> cands[k1] != cands[k2],
        forall|k: int| 0 <= k < ci && good(cands[k] as int) ==> #[trigger] plan0[cands[k] as int] is Some,
        plan2 == plan1.update(cands[ci] as int, Some(np)),
        evicted ==> 0 <= victim < plan0.len() && plan1 == plan0.update(victim, None) && !good(victim),
        !evicted ==> plan1 == plan0,
        forall|k: int| 0 <= k < cands.len() ==> #[trigger] cands[k] < plan0.len(),
    ensures
        forall|k: int| 0 <= k < ci + 1 && good(cands[k] as int) ==> #[trigger] plan2[cands[k] as int] is Some,
{
    assert forall|k: int| 0 <= k < ci + 1 && good(cands[k] as int) implies #[trigger] plan2[cands[k] as int] is Some by {
        assert(cands[ci] < plan0.len());
        if k < ci {
            assert(plan0[cands[k] as int] is Some);
            assert(cands[k] != cands[ci]);
            if evicted {
                assert(cands[k] as int != victim);
                assert(plan1[cands[k] as int] == plan0[cands[k] as int]);
            }
            assert(plan2[cands[k] as int] == plan1[cands[k] as int]);
        } else {
            assert(plan2[cands[ci] as int] == Some(np));
        }
    }
}

/// Some other vreg of `cands`, of the same class, overlaps `u` and weighs at
/// least as much.
pub open spec fn has_rival(
    cands: Seq<usize>,
    start: Seq<u32>,
    end: Seq<u32>,
    weight: Seq<u64>,
    is_float: Seq<bool>,
    u: int,
) -> bool {
    exists|k: int|
        0 <= k < cands.len() && cands[k] as int != u && is_float[cands[k] as int] == is_float[u] && #[trigger] overlap(
            start,
            end,
            cands[k] as int,
            u,
        ) && weight[cands[k] as int] >= weight[u]
}

/// One assignment keeps a rival for every processed candidate left without
/// a register: the displaced one (if any) is outweighed by the new holder.
proof fn lemma_rival_step(
    cands: Seq<usize>,
    start: Seq<u32>,
    end: Seq<u32>,
    weight: Seq<u64>,
    is_float: Seq<bool>,
    crossing: Seq<bool>,
    regs: RegSet,
    ci: int,
    plan0: Seq<Option<PReg>>,
    plan1: Seq<Option<PReg>>,
    plan2: Seq<Option<PReg>>,
    victim: int,
    evicted: bool,
    np: PReg,
)
    requires
        0 <= ci < cands.len(),
        forall|k1: int, k2: int| 0 <= k1 < k2 < cands.len() ==> cands[k1] != cands[k2],
        forall|k: int| 0 <= k < cands.len() ==> #[trigger] cands[k] < plan0.len(),
        forall|k: int|
            0 <= k < ci && plan0[cands[k] as int] is None && has_eligible(
                regs,
                is_float[cands[k] as int],
                crossing[cands[k] as int],
            ) ==> #[trigger] has_rival(cands, start, end, weight, is_float, cands[k] as int),
        plan2 == plan1.update(cands[ci] as int, Some(np)),
        evicted ==> {
            &&& 0 <= victim < plan0.len()
            &&& plan1 == plan0.update(victim, None)
            &&& cands[ci] as int != victim
            &&& is_float[cands[ci] as int] == is_float[victim]
            &&& overlap(start, end, cands[ci] as int, victim)
            &&& weight[cands[ci] as int] >= weight[victim]
        },
        !evicted ==> plan1 == plan0,
    ensures
        forall|k: int|
            0 <= k < ci + 1 && plan2[cands[k] as int] is None && has_eligible(
                regs,
                is_float[cands[k] as int],
                crossing[cands[k] as int],
            ) ==> #[trigger] has_rival(cands, start, end, weight, is_float, cands[k] as int),
{
    assert forall|k: int|
        0 <= k < ci + 1 && plan2[cands[k] as int] is None && has_eligible(
            regs,
            is_float[cands[k] as int],
            crossing[cands[k] as int],
        ) implies #[trigger] has_rival(cands, start, end, weight, is_float, cands[k] as int) by {
        assert(cands[ci] < plan0.len());
        if k == ci {
            assert(plan2[cands[ci] as int] == Some(np));
        } else {
            assert(cands[k] != cands[ci]);
            assert(plan2[cands[k] as int] == plan1[cands[k] as int]);
            if evicted && cands[k] as int == victim {
                assert(overlap(start, end, cands[ci] as int, victim));
            } else {
                assert(plan0[cands[k] as int] is None);
            }
        }
    }
}

proof fn lemma_count_held_pos(a: Seq<Active>, fl: bool, c: bool)
    requires
        count_held(a, fl, c) > 0,
    ensures
        exists|k: int| 0 <= k < a.len() && a[k].is_float == fl && a[k].from_caller == c,
    decreases a.len(),
{
    if !(a.last().is_float == fl && a.last().from_caller == c) {
        lemma_count_held_pos(a.drop_last(), fl, c);
        let k = choose|k: int| 0 <= k < a.drop_last().len() && a.drop_last()[k].is_float == fl && a.drop_last()[k].from_caller == c;
        assert(a[k] == a.drop_last()[k]);
    }
}

/// The interval of `u` overlaps that of no other vreg listed in `cands`.
pub open spec fn isolated_in(cands: Seq<usize>, start: Seq<u32>, end: Seq<u32>, u: int) -> bool {
    forall|k: int| 0 <= k < cands.len() && cands[k] as int != u ==> !#[trigger] overlap(start, end, cands[k] as int, u)
}

/// Class `fl` has a register that a vreg may take: a callee-saved one, or a
/// caller-saved one when the vreg is not live across a call.
pub open spec fn has_eligible(regs: RegSet, fl: bool, crossing: bool) -> bool {
    regs.pool(fl, false).len() > 0 || (!crossing && regs.pool(fl, true).len() > 0)
}

fn reversed(v: &Vec<u32>) -> (r: Vec<u32>)
    ensures
        r@ == v@.reverse(),
{
    let mut r: Vec<u32> = Vec::new();
    let mut i = v.len();
    while i > 0
        invariant
            i <= v.len(),
            r@ == v@.subrange(i as int, v.len() as int).reverse(),
        decreases i,
    {
        i -= 1;
        r.push(v[i]);
        proof {
            assert(r@ =~= v@.subrange(i as int, v.len() as int).reverse());
        }
    }
    proof {
        assert(v@.subrange(0, v.len() as int) =~= v@);
    }
    r
}

/// The linear scan over candidates `cands` (in nondecreasing start order):
/// expire the intervals that ended before the next one starts, then give it a
/// free register of its class — caller-saved first unless it is live across a
/// call — or take over the register of the lightest strictly lighter holder it
/// may use. Returns each vreg's register and whether it came from the
/// caller-saved pool.
#[verifier::rlimit(60)]
#[verifier::spinoff_prover]
fn linear_scan(
    n: usize,
    start: &Vec<u32>,
    end: &Vec<u32>,
    weight: &Vec<u64>,
    is_float: &Vec<bool>,
    crossing: &Vec<bool>,
    cands: &Vec<usize>,
    regs: &RegSet,
) -> (r: (Vec<Option<PReg>>, Vec<bool>))
    requires
        start.len() == n,
        end.len() == n,
        weight.len() == n,
        is_float.len() == n,
        crossing.len() == n,
        forall|k: int| 0 <= k < cands.len() ==> #[trigger] cands@[k] < n,
        forall|k1: int, k2: int| 0 <= k1 < k2 < cands.len() ==> cands@[k1] != cands@[k2],
        forall|k1: int, k2: int|
            0 <= k1 <= k2 < cands.len() ==> start@[cands@[k1] as int] <= start@[cands@[k2] as int],
        forall|k: int| 0 <= k < cands.len() ==> start@[#[trigger] cands@[k] as int] <= end@[cands@[k] as int],
    ensures
        forall|k: int|
            0 <= k < cands.len() && r.0@[cands@[k] as int] is None && has_eligible(
                *regs,
                is_float@[cands@[k] as int],
                crossing@[cands@[k] as int],
            ) ==> #[trigger] has_rival(cands@, start@, end@, weight@, is_float@, cands@[k] as int),
        forall|k: int|
            0 <= k < cands.len() && isolated_in(cands@, start@, end@, cands@[k] as int) && has_eligible(
                *regs,
                is_float@[cands@[k] as int],
                crossing@[cands@[k] as int],
            ) ==> #[trigger] r.0@[cands@[k] as int] is Some,
        r.0.len() == n,
        r.1.len() == n,
        forall|v: int|
            0 <= v < n && r.0@[v] is Some ==> {
                &&& (exists|k: int| 0 <= k < cands.len() && cands@[k] == v)
                &&& r.0@[v]->0.is_float == is_float@[v]
                &&& regs.pool(is_float@[v], r.1@[v]).contains(r.0@[v]->0.num)
                &&& (crossing@[v] ==> !r.1@[v])
            },
        regs.distinct() ==> interference_free(r.0@, start@, end@),
        forall|k: int|
            0 <= k < cands.len() && regs.pool(is_float@[cands@[k] as int], false).len() >= n ==> #[trigger] r.0@[cands@[k] as int] is Some,
{
    proof {
        lemma_distinct_below(cands@, n);
    }
    let ghost dist = regs.distinct();
    let mut free = RegSet {
        callee_int: reversed(&regs.callee_int),
        caller_int: reversed(&regs.caller_int),
        callee_flt: reversed(&regs.callee_flt),
        caller_flt: reversed(&regs.caller_flt),
    };
    proof {
        assert forall|fl: bool, c: bool, x: u32| #[trigger] free.pool(fl, c).contains(x) implies regs.pool(
            fl,
            c,
        ).contains(x) by {
            let i = choose|i: int| 0 <= i < free.pool(fl, c).len() && free.pool(fl, c)[i] == x;
            assert(regs.pool(fl, c)[regs.pool(fl, c).len() - 1 - i] == x);
        }
        if dist {
            assert forall|fl: bool, c: bool, i: int, j: int|
                0 <= i < j < free.pool(fl, c).len() implies free.pool(fl, c)[i] != free.pool(fl, c)[j] by {
                let len = regs.pool(fl, c).len();
                assert(free.pool(fl, c)[i] == regs.pool(fl, c)[len - 1 - i]);
                assert(free.pool(fl, c)[j] == regs.pool(fl, c)[len - 1 - j]);
            }
            assert forall|fl: bool, i: int, j: int|
                0 <= i < free.pool(fl, false).len() && 0 <= j < free.pool(fl, true).len() implies free.pool(
                    fl,
                    false,
                )[i] != free.pool(fl, true)[j] by {
                assert(free.pool(fl, false)[i] == regs.pool(fl, false)[regs.pool(fl, false).len() - 1 - i]);
                assert(free.pool(fl, true)[j] == regs.pool(fl, true)[regs.pool(fl, true).len() - 1 - j]);
            }
        }
    }
    let mut active: Vec<Active> = Vec::new();
    let mut plan: Vec<Option<PReg>> = Vec::new();
    let mut from_caller_of: Vec<bool> = Vec::new();
    let mut z: usize = 0;
    while z < n
        invariant
            z <= n,
            plan.len() == z,
            from_caller_of.len() == z,
            forall|v: int| 0 <= v < z ==> plan@[v] is None,
        decreases n - z,
    {
        plan.push(None);
        from_caller_of.push(false);
        z += 1;
    }
    proof {
        assert forall|fl: bool, c: bool| #[trigger] free.pool(fl, c).len() + count_held(active@, fl, c) == regs.pool(
            fl,
            c,
        ).len() by {
            assert(free.pool(fl, c).len() == regs.pool(fl, c).len());
        }
    }
    let ghost mut last_s: u32 = 0;
    let mut ci: usize = 0;
    while ci < cands.len()
        invariant
            ci <= cands.len(),
            start.len() == n,
            end.len() == n,
            weight.len() == n,
            is_float.len() == n,
            crossing.len() == n,
            plan.len() == n,
            from_caller_of.len() == n,
            dist == regs.distinct(),
            forall|k: int| 0 <= k < cands.len() ==> #[trigger] cands@[k] < n,
            forall|k1: int, k2: int| 0 <= k1 < k2 < cands.len() ==> cands@[k1] != cands@[k2],
            forall|k1: int, k2: int|
                0 <= k1 <= k2 < cands.len() ==> start@[cands@[k1] as int] <= start@[cands@[k2] as int],
            ci > 0 ==> last_s == start@[cands@[ci - 1] as int],
            forall|fl: bool, c: bool, x: u32| #[trigger] free.pool(fl, c).contains(x) ==> regs.pool(fl, c).contains(x),
            dist ==> no_double_holding(free, active@),
            active_consistent(n as int, end@, weight@, active@, plan@, from_caller_of@),
            act_in_regs(*regs, active@),
            assigned_ok(n as int, end@, is_float@, crossing@, *regs, active@, plan@, from_caller_of@, cands@, ci as int, last_s),
            dist ==> interference_free(plan@, start@, end@),
            cands.len() <= n,
            active.len() <= ci,
            held_accounting(free, active@, *regs),
            forall|k: int|
                0 <= k < ci && regs.pool(is_float@[cands@[k] as int], false).len() >= n ==> #[trigger] plan@[cands@[k] as int] is Some,
            forall|k: int| 0 <= k < cands.len() ==> start@[#[trigger] cands@[k] as int] <= end@[cands@[k] as int],
            forall|k: int|
                0 <= k < ci && isolated_in(cands@, start@, end@, cands@[k] as int) && has_eligible(
                    *regs,
                    is_float@[cands@[k] as int],
                    crossing@[cands@[k] as int],
                ) ==> #[trigger] plan@[cands@[k] as int] is Some,
            forall|k: int|
                0 <= k < ci && plan@[cands@[k] as int] is None && has_eligible(
                    *regs,
                    is_float@[cands@[k] as int],
                    crossing@[cands@[k] as int],
                ) ==> #[trigger] has_rival(cands@, start@, end@, weight@, is_float@, cands@[k] as int),
        decreases cands.len() - ci,
    {
        let v = cands[ci];
        let s = start[v];
        let e = end[v];
        let fl = is_float[v];
        let cr = crossing[v];
        proof {
            if ci > 0 {
                assert(start@[cands@[ci - 1] as int] <= start@[cands@[ci as int] as int]);
            }
            assert(plan@[v as int] is None) by {
                if plan@[v as int] is Some {
                    let k = choose|k: int| 0 <= k < ci && cands@[k] == v;
                    assert(cands@[k] != cands@[ci as int]);
                }
            }
        }
        // Expire the intervals that ended before this one starts.
        let mut i: usize = 0;
        while i < active.len()
            invariant
                i <= active.len(),
                plan.len() == n,
                from_caller_of.len() == n,
                dist == regs.distinct(),
                forall|fl2: bool, c: bool, x: u32| #[trigger] free.pool(fl2, c).contains(x) ==> regs.pool(fl2, c).contains(x),
                dist ==> no_double_holding(free, active@),
                active_consistent(n as int, end@, weight@, active@, plan@, from_caller_of@),
                act_in_regs(*regs, active@),
                forall|k: int| 0 <= k < i ==> active@[k].end >= s,
                held_accounting(free, active@, *regs),
                active.len() <= ci,
                forall|u: int|
                    0 <= u < n && plan@[u] is Some && !in_active(active@, u) ==> end@[u] < s,
            decreases active.len() - i,
        {
            if active[i].end < s {
                let ghost before = active@;
                let a = active.remove(i);
                proof {
                    assert forall|u: int| 0 <= u < n && plan@[u] is Some && !in_active(active@, u) implies end@[u]
                        < s by {
                        if in_active(before, u) {
                            let k = choose|k: int| 0 <= k < before.len() && before[k].vreg == u;
                            if k != i as int {
                                let k2 = if k < i { k } else { k - 1 };
                                assert(active@[k2] == before[k]);
                            }
                        }
                    }
                }
                let ghost free0 = free;
                free.push(a.is_float, a.from_caller, a.reg);
                proof {
                    assert forall|fl2: bool, c: bool| #[trigger] free.pool(fl2, c).len() + count_held(active@, fl2, c)
                        == regs.pool(fl2, c).len() by {
                        lemma_count_held_remove(before, i as int, fl2, c);
                        assert(before[i as int] == a);
                    }
                    assert forall|fl2: bool, c: bool, x: u32| #[trigger] free.pool(fl2, c).contains(x) implies regs.pool(
                        fl2,
                        c,
                    ).contains(x) by {
                        if (fl2, c) == (a.is_float, a.from_caller) {
                            if x != a.reg {
                                let j = choose|j: int| 0 <= j < free.pool(fl2, c).len() && free.pool(fl2, c)[j] == x;
                                assert(free0.pool(fl2, c)[j] == x);
                                assert(free0.pool(fl2, c).contains(x));
                            } else {
                                assert(before[i as int] == a);
                            }
                        } else {
                            assert(free.pool(fl2, c) == free0.pool(fl2, c));
                        }
                    }
                    if dist {
                        assert(no_double_holding(free, active@)) by {
                            assert forall|fl2: bool, c: bool, i1: int, j1: int|
                                0 <= i1 < j1 < free.pool(fl2, c).len() implies free.pool(fl2, c)[i1] != free.pool(
                                    fl2,
                                    c,
                                )[j1] by {
                                if (fl2, c) != (a.is_float, a.from_caller) {
                                    assert(free.pool(fl2, c) == free0.pool(fl2, c));
                                } else if j1 == free.pool(fl2, c).len() - 1 {
                                    assert(free0.pool(fl2, c)[i1] != a.reg);
                                }
                            }
                            assert forall|fl2: bool, i1: int, j1: int|
                                0 <= i1 < free.pool(fl2, false).len() && 0 <= j1 < free.pool(fl2, true).len() implies free.pool(
                                    fl2,
                                    false,
                                )[i1] != free.pool(fl2, true)[j1] by {
                                if fl2 == a.is_float && !a.from_caller && i1 == free.pool(fl2, false).len() - 1 {
                                    assert(free.pool(fl2, true) == free0.pool(fl2, true));
                                    assert(free0.pool(fl2, true)[j1] != a.reg);
                                } else if fl2 == a.is_float && a.from_caller && j1 == free.pool(fl2, true).len() - 1 {
                                    assert(free.pool(fl2, false) == free0.pool(fl2, false));
                                    assert(free0.pool(fl2, false)[i1] != a.reg);
                                }
                            }
                            assert forall|k: int, c: bool, i1: int|
                                0 <= k < active.len() && 0 <= i1 < free.pool(active@[k].is_float, c).len() implies active@[k].reg
                                    != free.pool(active@[k].is_float, c)[i1] by {
                                let k0 = if k < i { k } else { k + 1 };
                                assert(active@[k] == before[k0]);
                                if (active@[k].is_float, c) == (a.is_float, a.from_caller) && i1 == free.pool(
                                    active@[k].is_float,
                                    c,
                                ).len() - 1 {
                                    assert(k0 != i as int);
                                }
                            }
                            assert forall|k1: int, k2: int|
                                0 <= k1 < active.len() && 0 <= k2 < active.len() && k1 != k2 && active@[k1].is_float
                                    == active@[k2].is_float implies active@[k1].reg != active@[k2].reg by {
                                let a1 = if k1 < i { k1 } else { k1 + 1 };
                                let a2 = if k2 < i { k2 } else { k2 + 1 };
                                assert(active@[k1] == before[a1]);
                                assert(active@[k2] == before[a2]);
                            }
                        }
                    }
                }
            } else {
                i += 1;
            }
        }
        // A vreg live across a call takes a callee-saved register; another prefers
        // a caller-saved one (no prologue save) and falls back to callee-saved.
        let ghost free1 = free;
        let mut pick: Option<(u32, bool)> = None;
        if cr {
            pick = match free.pop(fl, false) {
                Some(r) => Some((r, false)),
                None => None,
            };
        } else {
            pick = match free.pop(fl, true) {
                Some(r) => Some((r, true)),
                None => None,
            };
            if pick.is_none() {
                let ghost free2 = free;
                pick = match free.pop(fl, false) {
                    Some(r) => Some((r, false)),
                    None => None,
                };
                proof {
                    assert forall|f2: bool, c2: bool| (f2, c2) != (fl, false) implies free.pool(f2, c2) == free1.pool(
                        f2,
                        c2,
                    ) by {
                        assert(free2.pool(f2, c2) == free1.pool(f2, c2));
                    }
                }
            }
        }
        proof {
            assert(pick matches Some(p) ==> free1.pool(fl, p.1).len() > 0 && p.0 == free1.pool(fl, p.1).last()
                && free.pool(fl, p.1) == free1.pool(fl, p.1).drop_last() && (cr ==> !p.1) && forall|f2: bool, c2: bool|
                (f2, c2) != (fl, p.1) ==> free.pool(f2, c2) == free1.pool(f2, c2));
            assert(pick is None ==> forall|f2: bool, c2: bool| free.pool(f2, c2) == free1.pool(f2, c2));
            if regs.pool(fl, false).len() >= n {
                lemma_count_held_le(active@, fl, false);
                assert(free1.pool(fl, false).len() + count_held(active@, fl, false) == regs.pool(fl, false).len());
                assert(pick is Some);
            }
            if isolated_in(cands@, start@, end@, v as int) && has_eligible(*regs, fl, cr) {
                if active.len() > 0 {
                    let a = active@[0];
                    assert(a.end >= s);
                    assert(plan@[a.vreg as int] == Some(PReg { is_float: a.is_float, num: a.reg }));
                    let k = choose|k: int| 0 <= k < ci && cands@[k] == a.vreg as int;
                    assert(start@[cands@[k] as int] <= start@[cands@[ci as int] as int]);
                    assert(start@[v as int] <= end@[v as int]);
                    assert(overlap(start@, end@, cands@[k] as int, v as int));
                    assert(cands@[k] != v);
                    assert(false);
                }
                assert(count_held(active@, fl, false) == 0 && count_held(active@, fl, true) == 0);
                assert(free1.pool(fl, false).len() + count_held(active@, fl, false) == regs.pool(fl, false).len());
                assert(free1.pool(fl, true).len() + count_held(active@, fl, true) == regs.pool(fl, true).len());
                assert(pick is Some);
            }
        }
        let ghost pre_pick = pick;
        let mut evicted: Option<usize> = None;
        if pick.is_none() {
            // No free register: take over the lightest strictly lighter holder it may use.
            let mut best: Option<usize> = None;
            let mut k: usize = 0;
            while k < active.len()
                invariant
                    k <= active.len(),
                    weight.len() == n,
                    v < n,
                    best matches Some(b) ==> b < k && active@[b as int].is_float == fl && !(cr
                        && active@[b as int].from_caller) && active@[b as int].weight < weight@[v as int],
                    best is None ==> forall|k2: int|
                        0 <= k2 < k ==> !(active@[k2].is_float == fl && !(cr && active@[k2].from_caller)
                            && active@[k2].weight < weight@[v as int]),
                decreases active.len() - k,
            {
                let a = active[k];
                if a.is_float == fl && !(cr && a.from_caller) && a.weight < weight[v] {
                    match best {
                        None => {
                            best = Some(k);
                        },
                        Some(b) => {
                            if a.weight < active[b].weight {
                                best = Some(k);
                            }
                        },
                    }
                }
                k += 1;
            }
            match best {
                Some(b) => {
                    let a = active[b];
                    evicted = Some(b);
                    pick = Some((a.reg, a.from_caller));
                },
                None => {},
            }
            proof {
                assert(pick is None ==> forall|k2: int|
                    0 <= k2 < active.len() ==> !(active@[k2].is_float == fl && !(cr && active@[k2].from_caller)
                        && active@[k2].weight < weight@[v as int]));
            }
        }
        match pick {
            Some((reg, from_caller)) => {
                let ghost act0 = active@;
                let ghost plan0 = plan@;
                let ghost fc0 = from_caller_of@;
                let ghost victim: int = -1;
                match evicted {
                    Some(b) => {
                        let a = active.remove(b);
                        plan.set(a.vreg, None);
                        proof {
                            victim = a.vreg as int;
                        }
                    },
                    None => {},
                }
                let ghost act1 = active@;
                let ghost plan1 = plan@;
                let np = PReg { is_float: fl, num: reg };
                plan.set(v, Some(np));
                from_caller_of.set(v, from_caller);
                active.push(Active { end: e, reg, is_float: fl, from_caller, weight: weight[v], vreg: v });
                proof {
                    lemma_assign_step(
                        n as int,
                        start@,
                        end@,
                        weight@,
                        is_float@,
                        crossing@,
                        *regs,
                        free1,
                        free,
                        act0,
                        act1,
                        active@,
                        plan0,
                        plan1,
                        plan@,
                        fc0,
                        from_caller_of@,
                        cands@,
                        ci as int,
                        np,
                        from_caller,
                        evicted,
                        victim,
                        s,
                        dist,
                    );
                    let entry = Active { end: e, reg, is_float: fl, from_caller, weight: weight@[v as int], vreg: v };
                    assert(active@ == act1.push(entry));
                    lemma_held_step(*regs, free1, free, act0, act1, active@, entry, evicted, fl, from_caller);
                    if let Some(b) = evicted {
                        assert(act0[b as int].is_float == fl);
                        assert(plan0[victim] == Some(PReg { is_float: act0[b as int].is_float, num: act0[b as int].reg }));
                        assert(is_float@[victim] == fl);
                    }
                    lemma_done_step(n as int, is_float@, *regs, cands@, ci as int, plan0, plan1, plan@, victim, evicted is Some, np);
                    if let Some(b) = evicted {
                        let a = act0[b as int];
                        assert(a.end >= s);
                        let k = choose|k: int| 0 <= k < ci && cands@[k] == victim;
                        assert(start@[cands@[k] as int] <= start@[cands@[ci as int] as int]);
                        assert(start@[v as int] <= end@[v as int]);
                        assert(overlap(start@, end@, cands@[ci as int] as int, victim));
                        assert(cands@[ci as int] as int != victim);
                        assert(!isolated_in(cands@, start@, end@, victim));
                    }
                    lemma_keep_step(
                        cands@,
                        ci as int,
                        plan0,
                        plan1,
                        plan@,
                        victim,
                        evicted is Some,
                        np,
                        |u: int| isolated_in(cands@, start@, end@, u) && has_eligible(*regs, is_float@[u], crossing@[u]),
                    );
                    if let Some(b) = evicted {
                        let a = act0[b as int];
                        assert(a.weight < weight@[v as int]);
                        assert(a.weight == weight@[victim]);
                        assert(is_float@[victim] == fl);
                    }
                    lemma_rival_step(cands@, start@, end@, weight@, is_float@, crossing@, *regs, ci as int, plan0, plan1, plan@, victim, evicted is Some, np);
                }
            },
            None => {
                proof {
                    if has_eligible(*regs, fl, cr) {
                        let c: bool = if regs.pool(fl, false).len() > 0 { false } else { true };
                        assert(regs.pool(fl, c).len() > 0);
                        assert(free1.pool(fl, c).len() == 0);
                        assert(free1.pool(fl, c).len() + count_held(active@, fl, c) == regs.pool(fl, c).len());
                        lemma_count_held_pos(active@, fl, c);
                        let kk = choose|kk: int| 0 <= kk < active.len() && active@[kk].is_float == fl && active@[kk].from_caller == c;
                        let a = active@[kk];
                        assert(!(cr && a.from_caller));
                        assert(a.weight >= weight@[v as int]);
                        assert(a.end >= s);
                        assert(plan@[a.vreg as int] == Some(PReg { is_float: a.is_float, num: a.reg }));
                        let k = choose|k: int| 0 <= k < ci && cands@[k] == a.vreg as int;
                        assert(start@[cands@[k] as int] <= start@[cands@[ci as int] as int]);
                        assert(start@[v as int] <= end@[v as int]);
                        assert(overlap(start@, end@, cands@[k] as int, v as int));
                        assert(cands@[k] != v);
                        assert(is_float@[cands@[k] as int] == fl);
                        assert(has_rival(cands@, start@, end@, weight@, is_float@, v as int));
                    }
                    assert forall|k: int|
                        0 <= k < ci + 1 && plan@[cands@[k] as int] is None && has_eligible(
                            *regs,
                            is_float@[cands@[k] as int],
                            crossing@[cands@[k] as int],
                        ) implies #[trigger] has_rival(cands@, start@, end@, weight@, is_float@, cands@[k] as int) by {
                    }
                    assert(regs.pool(fl, false).len() < n);
                    assert forall|fl2: bool, c: bool| #[trigger] free.pool(fl2, c).len() + count_held(active@, fl2, c)
                        == regs.pool(fl2, c).len() by {
                        assert(free.pool(fl2, c) == free1.pool(fl2, c));
                    }
                }
            },
        }
        proof {
            last_s = s;
        }
        ci += 1;
    }
    (plan, from_caller_of)
}


/// The active intervals are those of assigned vregs, each once.
spec fn active_consistent(
    n: int,
    end: Seq<u32>,
    weight: Seq<u64>,
    act: Seq<Active>,
    plan: Seq<Option<PReg>>,
    fc: Seq<bool>,
) -> bool {
    &&& forall|k: int|
        0 <= k < act.len() ==> {
            let a = #[trigger] act[k];
            &&& a.vreg < n
            &&& plan[a.vreg as int] == Some(PReg { is_float: a.is_float, num: a.reg })
            &&& fc[a.vreg as int] == a.from_caller
            &&& a.end == end[a.vreg as int]
            &&& a.weight == weight[a.vreg as int]
        }
    &&& forall|k1: int, k2: int| 0 <= k1 < act.len() && 0 <= k2 < act.len() && k1 != k2 ==> act[k1].vreg != act[k2].vreg
}

/// Every active interval's register comes from the pool it is recorded under.
spec fn act_in_regs(regs: RegSet, act: Seq<Active>) -> bool {
    forall|k: int| 0 <= k < act.len() ==> regs.pool((#[trigger] act[k]).is_float, act[k].from_caller).contains(act[k].reg)
}

/// What holds of every assigned vreg: it is a candidate already processed, its
/// register is of its class and from the pool it is recorded under, it is not
/// caller-saved if live across a call, and it has expired if no longer active.
spec fn assigned_ok(
    n: int,
    end: Seq<u32>,
    is_float: Seq<bool>,
    crossing: Seq<bool>,
    regs: RegSet,
    act: Seq<Active>,
    plan: Seq<Option<PReg>>,
    fc: Seq<bool>,
    cands: Seq<usize>,
    upto: int,
    bound: u32,
) -> bool {
    forall|v: int|
        0 <= v < n && (#[trigger] plan[v]) is Some ==> {
            &&& (exists|k: int| 0 <= k < upto && cands[k] == v)
            &&& plan[v]->0.is_float == is_float[v]
            &&& regs.pool(is_float[v], fc[v]).contains(plan[v]->0.num)
            &&& (crossing[v] ==> !fc[v])
            &&& (!in_active(act, v) ==> end[v] < bound)
        }
}

/// One assignment of the scan keeps its invariants.
proof fn lemma_assign_step(
    n: int,
    start: Seq<u32>,
    end: Seq<u32>,
    weight: Seq<u64>,
    is_float: Seq<bool>,
    crossing: Seq<bool>,
    regs: RegSet,
    free1: RegSet,
    free: RegSet,
    act0: Seq<Active>,
    act1: Seq<Active>,
    act2: Seq<Active>,
    plan0: Seq<Option<PReg>>,
    plan1: Seq<Option<PReg>>,
    plan2: Seq<Option<PReg>>,
    fc0: Seq<bool>,
    fc2: Seq<bool>,
    cands: Seq<usize>,
    ci: int,
    np: PReg,
    from_caller: bool,
    evicted: Option<usize>,
    victim: int,
    s: u32,
    dist: bool,
)
    requires
        0 <= ci < cands.len(),
        cands[ci] < n,
        plan0.len() == n,
        fc0.len() == n,
        start.len() == n,
        end.len() == n,
        weight.len() == n,
        is_float.len() == n,
        crossing.len() == n,
        s == start[cands[ci] as int],
        np.is_float == is_float[cands[ci] as int],
        plan0[cands[ci] as int] is None,
        active_consistent(n, end, weight, act0, plan0, fc0),
        dist ==> no_double_holding(free1, act0),
        dist ==> interference_free(plan0, start, end),
        forall|fl2: bool, c: bool, x: u32| #[trigger] free1.pool(fl2, c).contains(x) ==> regs.pool(fl2, c).contains(x),
        forall|u: int| 0 <= u < n && plan0[u] is Some && !in_active(act0, u) ==> end[u] < s,
        assigned_ok(n, end, is_float, crossing, regs, act0, plan0, fc0, cands, ci, s),
        act_in_regs(regs, act0),
        match evicted {
            None => {
                &&& free1.pool(np.is_float, from_caller).len() > 0
                &&& np.num == free1.pool(np.is_float, from_caller).last()
                &&& free.pool(np.is_float, from_caller) == free1.pool(np.is_float, from_caller).drop_last()
                &&& forall|f2: bool, c2: bool| (f2, c2) != (np.is_float, from_caller) ==> free.pool(f2, c2) == free1.pool(f2, c2)
                &&& (crossing[cands[ci] as int] ==> !from_caller)
                &&& act1 == act0
                &&& plan1 == plan0
            },
            Some(b) => {
                &&& b < act0.len()
                &&& act0[b as int].reg == np.num
                &&& act0[b as int].from_caller == from_caller
                &&& act0[b as int].is_float == np.is_float
                &&& !(crossing[cands[ci] as int] && from_caller)
                &&& forall|f2: bool, c2: bool| free.pool(f2, c2) == free1.pool(f2, c2)
                &&& act1 == act0.remove(b as int)
                &&& victim == act0[b as int].vreg
                &&& plan1 == plan0.update(victim, None)
            },
        },
        act2 == act1.push(
            Active {
                end: end[cands[ci] as int],
                reg: np.num,
                is_float: np.is_float,
                from_caller,
                weight: weight[cands[ci] as int],
                vreg: cands[ci] as usize,
            },
        ),
        plan2 == plan1.update(cands[ci] as int, Some(np)),
        fc2 == fc0.update(cands[ci] as int, from_caller),
    ensures
        active_consistent(n, end, weight, act2, plan2, fc2),
        dist ==> no_double_holding(free, act2),
        dist ==> interference_free(plan2, start, end),
        forall|fl2: bool, c: bool, x: u32| #[trigger] free.pool(fl2, c).contains(x) ==> regs.pool(fl2, c).contains(x),
        assigned_ok(n, end, is_float, crossing, regs, act2, plan2, fc2, cands, ci + 1, s),
        act_in_regs(regs, act2),
{
    let v = cands[ci] as int;
    let fl = np.is_float;
    // The new entry and the ones kept.
    assert forall|k: int| 0 <= k < act1.len() implies #[trigger] act1[k].vreg != v && act0.contains(act1[k]) && (
    evicted matches Some(b) ==> act1[k].vreg != victim && act1[k] != act0[b as int]) by {
        let k0 = match evicted {
            Some(b) => if k < b { k } else { k + 1 },
            None => k,
        };
        assert(act1[k] == act0[k0]);
        if let Some(b) = evicted {
            assert(k0 != b);
        }
    }
    // Entries stay consistent.
    assert forall|k: int| 0 <= k < act2.len() implies {
        let a = #[trigger] act2[k];
        &&& a.vreg < n
        &&& plan2[a.vreg as int] == Some(PReg { is_float: a.is_float, num: a.reg })
        &&& fc2[a.vreg as int] == a.from_caller
        &&& a.end == end[a.vreg as int]
        &&& a.weight == weight[a.vreg as int]
    } by {
        if k < act1.len() {
            let a = act1[k];
            let k0 = choose|k0: int| 0 <= k0 < act0.len() && act0[k0] == a;
            assert(act0[k0] == a);
        }
    }
    assert forall|k1: int, k2: int| 0 <= k1 < act2.len() && 0 <= k2 < act2.len() && k1 != k2 implies act2[k1].vreg
        != act2[k2].vreg by {
        if k1 < act1.len() && k2 < act1.len() {
            let j1 = match evicted { Some(b) => if k1 < b { k1 } else { k1 + 1 }, None => k1 };
            let j2 = match evicted { Some(b) => if k2 < b { k2 } else { k2 + 1 }, None => k2 };
            assert(act1[k1] == act0[j1]);
            assert(act1[k2] == act0[j2]);
        }
    }
    // Free pools stay within the register set.
    assert forall|fl2: bool, c: bool, x: u32| #[trigger] free.pool(fl2, c).contains(x) implies regs.pool(fl2, c).contains(x) by {
        let i = choose|i: int| 0 <= i < free.pool(fl2, c).len() && free.pool(fl2, c)[i] == x;
        if evicted is None && (fl2, c) == (fl, from_caller) {
            assert(free1.pool(fl2, c)[i] == x);
            assert(free1.pool(fl2, c).contains(x));
        } else {
            assert(free.pool(fl2, c) == free1.pool(fl2, c));
            assert(free1.pool(fl2, c).contains(x));
        }
    }
    if dist {
        assert(no_double_holding(free, act2)) by {
            assert forall|f2: bool, c: bool, i: int, j: int|
                0 <= i < j < free.pool(f2, c).len() implies free.pool(f2, c)[i] != free.pool(f2, c)[j] by {
                if evicted is None && (f2, c) == (fl, from_caller) {
                    assert(free.pool(f2, c)[i] == free1.pool(f2, c)[i]);
                    assert(free.pool(f2, c)[j] == free1.pool(f2, c)[j]);
                } else {
                    assert(free.pool(f2, c) == free1.pool(f2, c));
                }
            }
            assert forall|f2: bool, i: int, j: int|
                0 <= i < free.pool(f2, false).len() && 0 <= j < free.pool(f2, true).len() implies free.pool(f2, false)[i]
                    != free.pool(f2, true)[j] by {
                assert(free.pool(f2, false)[i] == free1.pool(f2, false)[i]);
                assert(free.pool(f2, true)[j] == free1.pool(f2, true)[j]);
            }
            assert forall|k: int, c: bool, i: int|
                0 <= k < act2.len() && 0 <= i < free.pool(act2[k].is_float, c).len() implies act2[k].reg != free.pool(
                    act2[k].is_float,
                    c,
                )[i] by {
                let f2 = act2[k].is_float;
                assert(free.pool(f2, c)[i] == free1.pool(f2, c)[i]);
                if k < act1.len() {
                    let k0 = choose|k0: int| 0 <= k0 < act0.len() && act0[k0] == act1[k];
                    assert(act0[k0] == act1[k]);
                } else {
                    match evicted {
                        None => {
                            let last = free1.pool(fl, from_caller).len() - 1;
                            if c == from_caller {
                                assert(free1.pool(fl, c)[last] == np.num);
                                assert(i < last);
                            } else {
                                if from_caller {
                                    assert(free1.pool(fl, false)[i] != free1.pool(fl, true)[last]);
                                } else {
                                    assert(free1.pool(fl, false)[last] != free1.pool(fl, true)[i]);
                                }
                            }
                        },
                        Some(b) => {
                            assert(act0[b as int].reg == np.num);
                        },
                    }
                }
            }
            assert forall|k1: int, k2: int|
                0 <= k1 < act2.len() && 0 <= k2 < act2.len() && k1 != k2 && act2[k1].is_float == act2[k2].is_float implies act2[k1].reg
                    != act2[k2].reg by {
                if k1 < act1.len() && k2 < act1.len() {
                    let j1 = match evicted { Some(b) => if k1 < b { k1 } else { k1 + 1 }, None => k1 };
                    let j2 = match evicted { Some(b) => if k2 < b { k2 } else { k2 + 1 }, None => k2 };
                    assert(act1[k1] == act0[j1]);
                    assert(act1[k2] == act0[j2]);
                } else {
                    let old_k = if k1 < act1.len() { k1 } else { k2 };
                    let j = match evicted { Some(b) => if old_k < b { old_k } else { old_k + 1 }, None => old_k };
                    assert(act1[old_k] == act0[j]);
                    match evicted {
                        None => {
                            let last = free1.pool(fl, from_caller).len() - 1;
                            assert(free1.pool(fl, from_caller)[last] == np.num);
                        },
                        Some(b) => {
                            assert(j != b);
                        },
                    }
                }
            }
        }
    }
    // A vreg that is assigned and not active has expired.
    assert forall|u: int| 0 <= u < n && plan2[u] is Some && !in_active(act2, u) implies end[u] < s by {
        if u != v {
            assert(plan0[u] is Some);
            if in_active(act0, u) {
                let k = choose|k: int| 0 <= k < act0.len() && act0[k].vreg == u;
                match evicted {
                    Some(b) => {
                        if k != b {
                            let k1 = if k < b { k } else { k - 1 };
                            assert(act1[k1] == act0[k]);
                            assert(act2[k1] == act1[k1]);
                        }
                    },
                    None => {
                        assert(act2[k] == act0[k]);
                    },
                }
            }
        } else {
            assert(act2[act2.len() - 1].vreg == v);
        }
    }
    if dist {
        assert forall|u: int, w: int|
            0 <= u < plan2.len() && 0 <= w < plan2.len() && u != w && plan2[u] is Some && plan2[u] == plan2[w] implies !overlap(
                start,
                end,
                u,
                w,
            ) by {
            if u != v && w != v {
                assert(plan0[u] == plan2[u] && plan0[w] == plan2[w]);
            } else {
                let o = if u == v { w } else { u };
                assert(plan2[o] == Some(np));
                assert(plan0[o] == Some(np));
                assert(end[o] < s) by {
                    if in_active(act0, o) {
                        let k = choose|k: int| 0 <= k < act0.len() && act0[k].vreg == o;
                        assert(act0[k].reg == np.num && act0[k].is_float == fl);
                        match evicted {
                            None => {
                                let last = free1.pool(fl, from_caller).len() - 1;
                                assert(free1.pool(fl, from_caller)[last] == np.num);
                            },
                            Some(b) => {
                                if k != b {
                                    assert(act0[b as int].reg == np.num);
                                }
                            },
                        }
                    }
                }
            }
        }
    }
    assert forall|u: int| 0 <= u < n && plan2[u] is Some implies (exists|k: int| 0 <= k < ci + 1 && cands[k] == u) by {
        if u != v {
            assert(plan1[u] is Some);
            assert(plan0[u] is Some);
            let k = choose|k: int| 0 <= k < ci && cands[k] == u;
            assert(cands[k] == u);
        } else {
            assert(cands[ci] == u);
        }
    }
    assert forall|u: int| 0 <= u < n && plan2[u] is Some implies regs.pool(is_float[u], fc2[u]).contains(plan2[u]->0.num) by {
        if u == v {
            match evicted {
                None => {
                    let last = free1.pool(fl, from_caller).len() - 1;
                    assert(free1.pool(fl, from_caller).contains(free1.pool(fl, from_caller)[last]));
                },
                Some(b) => {
                    let a = act0[b as int];
                    assert(plan0[a.vreg as int] == Some(PReg { is_float: a.is_float, num: a.reg }));
                },
            }
        }
    }
}


// ---- the allocator ----

/// `a` goes before `b` among the candidates: earlier start, then more reads,
/// then lower number.
pub open spec fn cand_before(start: Seq<u32>, refs: Seq<u32>, a: int, b: int) -> bool {
    ||| start[a] < start[b]
    ||| (start[a] == start[b] && refs[a] > refs[b])
    ||| (start[a] == start[b] && refs[a] == refs[b] && a < b)
}

/// `w` has an interval and is read at least twice.
pub open spec fn is_candidate(start: Seq<u32>, refs: Seq<u32>, w: int) -> bool {
    start[w] != u32::MAX && refs[w] >= 2
}

/// Every candidate below `v` is listed in `c`.
spec fn listed_upto(c: Seq<usize>, start: Seq<u32>, refs: Seq<u32>, v: int) -> bool {
    forall|w: int|
        0 <= w < v && #[trigger] is_candidate(start, refs, w) ==> exists|k: int| 0 <= k < c.len() && c[k] == w
}

proof fn lemma_listed_insert(c0: Seq<usize>, start: Seq<u32>, refs: Seq<u32>, v: int, i: int)
    requires
        listed_upto(c0, start, refs, v),
        0 <= v <= usize::MAX,
        0 <= i <= c0.len(),
    ensures
        listed_upto(c0.insert(i, v as usize), start, refs, v + 1),
{
    let c = c0.insert(i, v as usize);
    c0.insert_ensures(i, v as usize);
    assert forall|w: int| 0 <= w < v + 1 && #[trigger] is_candidate(start, refs, w) implies exists|k: int|
        0 <= k < c.len() && c[k] == w by {
        if w < v {
            let k = choose|k: int| 0 <= k < c0.len() && c0[k] == w;
            if k < i {
                assert(c[k] == w);
            } else {
                assert(c[k + 1] == w);
            }
        } else {
            assert(c[i] == w);
        }
    }
}

/// The vregs with an interval that are read at least twice, in the order of
/// `cand_before`.
fn candidates(start: &Vec<u32>, refs: &Vec<u32>) -> (r: Vec<usize>)
    requires
        start.len() == refs.len(),
    ensures
        forall|k: int| 0 <= k < r.len() ==> #[trigger] r@[k] < start.len(),
        forall|k: int| 0 <= k < r.len() ==> is_candidate(start@, refs@, #[trigger] r@[k] as int),
        forall|k1: int, k2: int| 0 <= k1 < k2 < r.len() ==> cand_before(start@, refs@, r@[k1] as int, r@[k2] as int),
        forall|v: int|
            0 <= v < start.len() && #[trigger] is_candidate(start@, refs@, v) ==> exists|k: int|
                0 <= k < r.len() && r@[k] == v,
{
    let n = start.len();
    let mut c: Vec<usize> = Vec::new();
    let mut v: usize = 0;
    while v < n
        invariant
            v <= n,
            n == start.len(),
            refs.len() == n,
            forall|k: int| 0 <= k < c.len() ==> #[trigger] c@[k] < v,
            forall|k: int| 0 <= k < c.len() ==> is_candidate(start@, refs@, #[trigger] c@[k] as int),
            forall|k1: int, k2: int| 0 <= k1 < k2 < c.len() ==> cand_before(start@, refs@, c@[k1] as int, c@[k2] as int),
            listed_upto(c@, start@, refs@, v as int),
        decreases n - v,
    {
        if start[v] != u32::MAX && refs[v] >= 2 {
            // Insert before the first entry that `v` goes before.
            let mut i: usize = 0;
            while i < c.len() && !(start[v] < start[c[i]] || (start[v] == start[c[i]] && refs[v] > refs[c[i]]))
                invariant
                    i <= c.len(),
                    n == start.len(),
                    refs.len() == n,
                    v < n,
                    forall|k: int| 0 <= k < c.len() ==> #[trigger] c@[k] < v,
                    forall|k: int| 0 <= k < i ==> cand_before(start@, refs@, #[trigger] c@[k] as int, v as int),
                decreases c.len() - i,
            {
                i += 1;
            }
            let ghost c0 = c@;
            proof {
                if i < c.len() {
                    assert(cand_before(start@, refs@, v as int, c0[i as int] as int));
                    assert forall|k: int| i <= k < c0.len() implies cand_before(start@, refs@, v as int, #[trigger] c0[k] as int) by {
                        if k > i {
                            assert(cand_before(start@, refs@, c0[i as int] as int, c0[k] as int));
                        }
                    }
                }
            }
            c.insert(i, v);
            proof {
                c0.insert_ensures(i as int, v);
                assert forall|k1: int, k2: int| 0 <= k1 < k2 < c.len() implies cand_before(
                    start@,
                    refs@,
                    c@[k1] as int,
                    c@[k2] as int,
                ) by {
                    if k2 < i {
                    } else if k2 == i {
                    } else if k1 < i {
                        assert(c@[k2] == c0[k2 - 1]);
                    } else if k1 == i {
                        assert(c@[k2] == c0[k2 - 1]);
                    } else {
                        assert(c@[k1] == c0[k1 - 1] && c@[k2] == c0[k2 - 1]);
                    }
                }
                assert forall|k: int| 0 <= k < c.len() implies is_candidate(start@, refs@, #[trigger] c@[k] as int) by {
                    if k < i {
                        assert(c@[k] == c0[k]);
                    } else if k > i {
                        assert(c@[k] == c0[k - 1]);
                    }
                }
                lemma_listed_insert(c0, start@, refs@, v as int, i as int);
            }
        }
        v += 1;
    }
    c
}

impl Allocation {
    /// Every vreg spilled: no register touched, nothing to save.
    fn all_spilled(n: usize) -> (a: Allocation)
        ensures
            a.loc.len() == n,
            forall|v: int| 0 <= v < n ==> #[trigger] a.loc@[v] is Spill,
            a.saved.len() == 0,
    {
        let mut loc: Vec<Location> = Vec::new();
        let mut v: usize = 0;
        while v < n
            invariant
                v <= n,
                loc.len() == v,
                forall|w: int| 0 <= w < v ==> #[trigger] loc@[w] is Spill,
            decreases n - v,
        {
            loc.push(Location::Spill);
            v += 1;
        }
        Allocation { loc, saved: Vec::new() }
    }
}

/// Block `blk` defines `v`, by a `phi` or an instruction.
pub open spec fn block_defines(blk: IrBlock, v: Vreg) -> bool {
    ||| exists|k: int| 0 <= k < blk.phis.len() && (#[trigger] blk.phis@[k]).dst == v
    ||| exists|k: int|
        0 <= k < blk.insts.len() && (#[trigger] crate::liveness::inst_def(blk.insts@[k]) matches Some((d, _)) && d == v)
}

/// The last of the first `b` blocks that defines `v`, or `dflt` if none does.
pub open spec fn last_def_block(blocks: Seq<IrBlock>, b: int, v: Vreg, dflt: int) -> int
    decreases b,
{
    if b <= 0 {
        dflt
    } else if block_defines(blocks[b - 1], v) {
        b - 1
    } else {
        last_def_block(blocks, b - 1, v, dflt)
    }
}

/// The spill weight of `v`: how often it is read (saturating at `u32::MAX`),
/// times 4 to the loop depth (at most 15) of the block that defines it last
/// (the entry block if none does).
pub open spec fn spill_weight(f: IrFunc, loop_depth: Seq<u32>, v: Vreg) -> int {
    let depth = loop_depth[last_def_block(f.blocks@, f.blocks.len() as int, v, f.entry as int)];
    saturate(read_count(f, v)) as int * pow(4, if depth < 15 {
        depth as nat
    } else {
        15
    })
}

proof fn lemma_pow4_values()
    ensures
        pow(4, 14) == 0x1000_0000,
        pow(4, 15) == 0x4000_0000,
{
    reveal_with_fuel(pow, 16);
}

/// The register of each vreg held in one.
pub open spec fn loc_plan(loc: Seq<Location>) -> Seq<Option<PReg>> {
    loc.map_values(
        |l: Location|
            match l {
                Location::Reg(r) => Some(r),
                Location::Spill => None,
            },
    )
}

/// The interval of `v` overlaps that of no other vreg of `f` read at least twice.
pub open spec fn isolated(f: IrFunc, start: Seq<u32>, end: Seq<u32>, v: int) -> bool {
    forall|u: int|
        0 <= u < f.n_vregs && u != v && #[trigger] read_count(f, u as Vreg) >= 2 ==> !overlap(start, end, u, v)
}

/// What makes an allocation of `f` correct: under the least liveness of `f`
/// closed under its dataflow rules, and the intervals that run from the first
/// to the last position where a vreg is live, read or defined, two vregs share
/// a register only when their intervals are disjoint (given pools without
/// repeats), a vreg live across a call holds a callee-saved register that the
/// function saves, a vreg read at least twice whose interval overlaps no
/// other such vreg's gets a register whenever its class has one it may take,
/// and one such vreg left in its slot, although its class has a register it
/// may take, is outweighed (`spill_weight` under `loop_depth`) by another of
/// its class whose interval overlaps its own.
pub open spec fn sound_allocation(f: IrFunc, regs: RegSet, loop_depth: Seq<u32>, loc: Seq<Location>, saved: Seq<PReg>) -> bool {
    exists|live_in: Seq<Seq<bool>>, live_out: Seq<Seq<bool>>, start: Seq<u32>, end: Seq<u32>|
        {
            &&& live_closed(f, live_in, live_out)
            &&& (forall|li: Seq<Seq<bool>>, lo: Seq<Seq<bool>>|
                #[trigger] live_closed(f, li, lo) ==> rows_below(
                    live_in,
                    live_out,
                    li,
                    lo,
                    f.blocks.len() as int,
                    f.n_vregs as int,
                ))
            &&& #[trigger] covers(f, live_in, live_out, start, end)
            &&& intervals_tight(f, live_in, live_out, start, end)
            &&& start.len() == f.n_vregs
            &&& end.len() == f.n_vregs
            &&& (regs.distinct() ==> interference_free(loc_plan(loc), start, end))
            &&& forall|v: int|
                0 <= v < loc.len() && #[trigger] loc[v] is Reg && crosses(f, live_out, v as Vreg) ==> {
                    &&& regs.pool(loc[v]->0.is_float, false).contains(loc[v]->0.num)
                    &&& saved.contains(loc[v]->0)
                }
            &&& forall|v: int|
                0 <= v < loc.len() && read_count(f, v as Vreg) >= 2 && isolated(f, start, end, v) && has_eligible(
                    regs,
                    vreg_class(f, v as Vreg),
                    crosses(f, live_out, v as Vreg),
                ) ==> #[trigger] loc[v] is Reg
            &&& forall|v: int|
                0 <= v < loc.len() && read_count(f, v as Vreg) >= 2 && #[trigger] loc[v] is Spill && has_eligible(
                    regs,
                    vreg_class(f, v as Vreg),
                    crosses(f, live_out, v as Vreg),
                ) ==> exists|u: int|
                    0 <= u < f.n_vregs && u != v && read_count(f, u as Vreg) >= 2 && vreg_class(f, u as Vreg)
                        == vreg_class(f, v as Vreg) && #[trigger] overlap(start, end, u, v) && spill_weight(
                        f,
                        loop_depth,
                        u as Vreg,
                    ) >= spill_weight(f, loop_depth, v as Vreg)
        }
}

/// The block that defines each vreg last (the entry block if none does).
fn def_blocks(f: &IrFunc) -> (def_block: Vec<u32>)
    requires
        allocatable(*f),
        f.entry < f.blocks.len(),
    ensures
        def_block.len() == f.n_vregs,
        forall|w: int| 0 <= w < f.n_vregs ==> #[trigger] def_block@[w] < f.blocks.len(),
        forall|w: int|
            0 <= w < f.n_vregs ==> #[trigger] def_block@[w] as int == last_def_block(
                f.blocks@,
                f.blocks.len() as int,
                w as Vreg,
                f.entry as int,
            ),
{
    let n = f.n_vregs as usize;
    let nb = f.blocks.len();
    let mut b: usize = 0;
    let mut def_block: Vec<u32> = Vec::new();
    let mut z: usize = 0;
    while z < n
        invariant
            z <= n,
            def_block.len() == z,
            forall|w: int| 0 <= w < z ==> #[trigger] def_block@[w] < nb,
            forall|w: int| 0 <= w < z ==> #[trigger] def_block@[w] == f.entry,
            nb == f.blocks.len(),
            f.entry < nb,
        decreases n - z,
    {
        def_block.push(f.entry);
        z += 1;
    }
    b = 0;
    while b < nb
        invariant
            b <= nb,
            nb == f.blocks.len(),
            n == f.n_vregs,
            allocatable(*f),
            def_block.len() == n,
            forall|w: int| 0 <= w < n ==> #[trigger] def_block@[w] < nb,
            f.entry < nb,
            forall|w: int|
                0 <= w < n ==> #[trigger] def_block@[w] as int == last_def_block(f.blocks@, b as int, w as Vreg, f.entry as int),
        decreases nb - b,
    {
        let blk = &f.blocks[b];
        proof {
            assert(block_in_range(*blk, n as int));
            assert(blk.id == b);
        }
        let mut k: usize = 0;
        while k < blk.phis.len()
            invariant
                k <= blk.phis.len(),
                def_block.len() == n,
                b < nb,
                blk.id == b,
                n <= u32::MAX,
                blk == f.blocks@[b as int],
                forall|w: int| 0 <= w < n ==> #[trigger] def_block@[w] < nb,
                forall|w: int|
                    0 <= w < n ==> #[trigger] def_block@[w] as int == if exists|k2: int|
                        0 <= k2 < k && (#[trigger] blk.phis@[k2]).dst == w as Vreg {
                        b as int
                    } else {
                        last_def_block(f.blocks@, b as int, w as Vreg, f.entry as int)
                    },
            decreases blk.phis.len() - k,
        {
            let d = blk.phis[k].dst as usize;
            if d < n {
                def_block.set(d, blk.id);
            }
            k += 1;
            proof {
                assert forall|w: int| 0 <= w < n implies #[trigger] def_block@[w] as int == if exists|k2: int|
                    0 <= k2 < k && (#[trigger] blk.phis@[k2]).dst == w as Vreg {
                    b as int
                } else {
                    last_def_block(f.blocks@, b as int, w as Vreg, f.entry as int)
                } by {
                    if blk.phis@[k - 1].dst == w as Vreg {
                        assert(d == w);
                    }
                    if exists|k2: int| 0 <= k2 < k - 1 && (#[trigger] blk.phis@[k2]).dst == w as Vreg {
                        let k2 = choose|k2: int| 0 <= k2 < k - 1 && (#[trigger] blk.phis@[k2]).dst == w as Vreg;
                        assert(k2 < k);
                    }
                    if exists|k2: int| 0 <= k2 < k && (#[trigger] blk.phis@[k2]).dst == w as Vreg {
                        let k2 = choose|k2: int| 0 <= k2 < k && (#[trigger] blk.phis@[k2]).dst == w as Vreg;
                        if k2 < k - 1 {
                        }
                    }
                }
            }
        }
        k = 0;
        while k < blk.insts.len()
            invariant
                k <= blk.insts.len(),
                def_block.len() == n,
                b < nb,
                blk.id == b,
                block_in_range(*blk, n as int),
                n <= u32::MAX,
                blk == f.blocks@[b as int],
                forall|w: int| 0 <= w < n ==> #[trigger] def_block@[w] < nb,
                forall|w: int|
                    0 <= w < n ==> #[trigger] def_block@[w] as int == if (exists|k2: int|
                        0 <= k2 < blk.phis.len() && (#[trigger] blk.phis@[k2]).dst == w as Vreg) || (exists|k2: int|
                        0 <= k2 < k && (#[trigger] crate::liveness::inst_def(blk.insts@[k2]) matches Some((d, _)) && d
                            == w as Vreg)) {
                        b as int
                    } else {
                        last_def_block(f.blocks@, b as int, w as Vreg, f.entry as int)
                    },
            decreases blk.insts.len() - k,
        {
            let ghost db0 = def_block@;
            match def_of(&blk.insts[k]) {
                Some((d, _)) => {
                    assert(crate::liveness::inst_def(blk.insts@[k as int]) matches Some((d2, _)) ==> d2 < n);
                    def_block.set(d as usize, blk.id);
                },
                None => {},
            }
            k += 1;
            proof {
                assert forall|w: int| 0 <= w < n implies #[trigger] def_block@[w] as int == if (exists|k2: int|
                    0 <= k2 < blk.phis.len() && (#[trigger] blk.phis@[k2]).dst == w as Vreg) || (exists|k2: int|
                    0 <= k2 < k && (#[trigger] crate::liveness::inst_def(blk.insts@[k2]) matches Some((d, _)) && d
                        == w as Vreg)) {
                    b as int
                } else {
                    last_def_block(f.blocks@, b as int, w as Vreg, f.entry as int)
                } by {
                    if exists|k2: int|
                        0 <= k2 < k && (#[trigger] crate::liveness::inst_def(blk.insts@[k2]) matches Some((d, _)) && d
                            == w as Vreg) {
                        let k2 = choose|k2: int|
                            0 <= k2 < k && (#[trigger] crate::liveness::inst_def(blk.insts@[k2]) matches Some((d, _))
                                && d == w as Vreg);
                        if k2 < k - 1 {
                            assert(db0[w] as int == b as int);
                        }
                    }
                    if exists|k2: int|
                        0 <= k2 < k - 1 && (#[trigger] crate::liveness::inst_def(blk.insts@[k2]) matches Some((d, _)) && d
                            == w as Vreg) {
                        let k2 = choose|k2: int|
                            0 <= k2 < k - 1 && (#[trigger] crate::liveness::inst_def(blk.insts@[k2]) matches Some((d, _))
                                && d == w as Vreg);
                        assert(k2 < k);
                    }
                }
            }
        }
        proof {
            assert forall|w: int| 0 <= w < n implies #[trigger] def_block@[w] as int == last_def_block(
                f.blocks@,
                b + 1,
                w as Vreg,
                f.entry as int,
            ) by {
                assert(block_defines(f.blocks@[b as int], w as Vreg) == ((exists|k2: int|
                    0 <= k2 < blk.phis.len() && (#[trigger] blk.phis@[k2]).dst == w as Vreg) || (exists|k2: int|
                    0 <= k2 < blk.insts.len() && (#[trigger] crate::liveness::inst_def(blk.insts@[k2]) matches Some((d, _))
                        && d == w as Vreg))));
            }
        }
        b += 1;
    }
    def_block
}

/// Each vreg's spill weight (`spill_weight`).
fn spill_weights(f: &IrFunc, refs: &Vec<u32>, def_block: &Vec<u32>, loop_depth: &Vec<u32>) -> (weight: Vec<u64>)
    requires
        loop_depth.len() == f.blocks.len(),
        refs.len() == f.n_vregs,
        def_block.len() == f.n_vregs,
        forall|w: int| 0 <= w < f.n_vregs ==> #[trigger] def_block@[w] < f.blocks.len(),
        forall|w: int|
            0 <= w < f.n_vregs ==> #[trigger] def_block@[w] as int == last_def_block(
                f.blocks@,
                f.blocks.len() as int,
                w as Vreg,
                f.entry as int,
            ),
        forall|w: int| 0 <= w < f.n_vregs ==> #[trigger] refs@[w] == saturate(read_count(*f, w as Vreg)),
    ensures
        weight.len() == f.n_vregs,
        forall|w: int| 0 <= w < f.n_vregs ==> #[trigger] weight@[w] == spill_weight(*f, loop_depth@, w as Vreg),
{
    let n = f.n_vregs as usize;
    let nb = f.blocks.len();
    let mut weight: Vec<u64> = Vec::new();
    let mut v: usize = 0;
    while v < n
        invariant
            v <= n,
            weight.len() == v,
            def_block.len() == n,
            refs.len() == n,
            loop_depth.len() == nb,
            forall|w: int| 0 <= w < n ==> #[trigger] def_block@[w] < nb,
            nb == f.blocks.len(),
            n == f.n_vregs,
            forall|w: int|
                0 <= w < n ==> #[trigger] def_block@[w] as int == last_def_block(f.blocks@, nb as int, w as Vreg, f.entry as int),
            forall|w: int| 0 <= w < n ==> #[trigger] refs@[w] == saturate(read_count(*f, w as Vreg)),
            forall|w: int| 0 <= w < v ==> #[trigger] weight@[w] == spill_weight(*f, loop_depth@, w as Vreg),
        decreases n - v,
    {
        let depth = loop_depth[def_block[v] as usize];
        let d: u32 = if depth < 15 { depth } else { 15 };
        let mut scale: u64 = 1;
        proof {
            reveal(pow);
        }
        let mut i: u32 = 0;
        while i < d
            invariant
                i <= d,
                d <= 15,
                scale == pow(4, i as nat),
            decreases d - i,
        {
            proof {
                reveal(pow);
                vstd::arithmetic::power::lemma_pow_increases(4, i as nat, 14);
                lemma_pow4_values();
            }
            scale = scale * 4;
            i += 1;
            proof {
                reveal(pow);
                assert(pow(4, i as nat) == 4 * pow(4, (i - 1) as nat));
            }
        }
        proof {
            vstd::arithmetic::power::lemma_pow_increases(4, d as nat, 15);
            lemma_pow4_values();
        }
        let r = refs[v] as u64;
        assert(r * scale <= 0xffff_ffff * 0x4000_0000) by (nonlinear_arith)
            requires
                r <= 0xffff_ffff,
                scale <= 0x4000_0000,
        ;
        weight.push(r * scale);
        v += 1;
        proof {
            reveal(pow);
            assert(weight@[v - 1] == spill_weight(*f, loop_depth@, (v - 1) as Vreg));
        }
    }

    weight
}

/// Plan register allocation for `f` (already out of SSA): a liveness-based
/// linear scan over the pools of `regs`. Only a vreg read at least twice is
/// a candidate for a register; it gets one when one of its eligible pools (by
/// its class, and by whether it is live across a call) has a free one, or when
/// it outweighs the lightest holder it may displace; otherwise it stays
/// spilled. So a candidate whose interval overlaps no other candidate's gets
/// a register whenever its class has one it may take; a candidate left in its
/// slot although its class has such a register is outweighed by another
/// candidate of its class whose interval overlaps its own; and when its class
/// has at least as many callee-saved registers as the function has vregs,
/// every candidate of that class gets one. `loop_depth[b]` is the
/// loop nesting depth of block `b`: a vreg's weight is its number of reads
/// times 4 to the depth (at most 15) of the block that defines it last.
///
/// When the program throws anywhere, nothing is allocated in any function:
/// unwinding skips the epilogues that would restore callee-saved registers.
#[verifier::rlimit(40)]
#[verifier::spinoff_prover]
pub fn allocate(f: &IrFunc, regs: &RegSet, program_has_exceptions: bool, loop_depth: &Vec<u32>) -> (a: Allocation)
    requires
        f.n_vregs > 0 && !program_has_exceptions ==> allocatable(*f) && loop_depth.len() == f.blocks.len()
            && f.entry < f.blocks.len(),
    ensures
        a.loc.len() == f.n_vregs,
        f.n_vregs == 0 || program_has_exceptions ==> (forall|v: int| 0 <= v < f.n_vregs ==> #[trigger] a.loc@[v] is Spill)
            && a.saved.len() == 0,
        f.n_vregs > 0 && !program_has_exceptions ==> sound_allocation(*f, *regs, loop_depth@, a.loc@, a.saved@),
        forall|v: int|
            0 <= v < f.n_vregs && #[trigger] a.loc@[v] is Reg ==> {
                &&& a.loc@[v]->0.is_float == vreg_class(*f, v as Vreg)
                &&& (regs.pool(a.loc@[v]->0.is_float, true).contains(a.loc@[v]->0.num) || regs.pool(
                    a.loc@[v]->0.is_float,
                    false,
                ).contains(a.loc@[v]->0.num))
            },
        forall|i: int|
            0 <= i < a.saved.len() ==> {
                &&& regs.pool((#[trigger] a.saved@[i]).is_float, false).contains(a.saved@[i].num)
                &&& exists|v: int| 0 <= v < f.n_vregs && a.loc@[v] == Location::Reg(a.saved@[i])
            },
        forall|i: int, j: int| 0 <= i < j < a.saved.len() ==> a.saved@[i] != a.saved@[j],
        forall|v: int| 0 <= v < f.n_vregs && #[trigger] a.loc@[v] is Reg ==> read_count(*f, v as Vreg) >= 2,
        !program_has_exceptions ==> forall|v: int|
            0 <= v < f.n_vregs && read_count(*f, v as Vreg) >= 2 && regs.pool(vreg_class(*f, v as Vreg), false).len()
                >= f.n_vregs ==> #[trigger] a.loc@[v] is Reg,
        regs.pools_disjoint() ==> forall|v: int|
            0 <= v < f.n_vregs && #[trigger] a.loc@[v] is Reg && regs.pool(a.loc@[v]->0.is_float, false).contains(
                a.loc@[v]->0.num,
            ) ==> a.saved@.contains(a.loc@[v]->0),
{
    let n = f.n_vregs as usize;
    if n == 0 || program_has_exceptions {
        return Allocation::all_spilled(n);
    }
    let is_float = vreg_classes(f);
    let nb = f.blocks.len();
    let mut uses: Vec<Vec<bool>> = Vec::new();
    let mut defs: Vec<Vec<bool>> = Vec::new();
    let mut succs: Vec<Vec<BlockId>> = Vec::new();
    let mut b: usize = 0;
    while b < nb
        invariant
            b <= nb,
            nb == f.blocks.len(),
            n == f.n_vregs,
            allocatable(*f),
            uses.len() == b,
            defs.len() == b,
            succs.len() == b,
            forall|bb: int| 0 <= bb < b ==> (#[trigger] uses@[bb]).len() == n,
            forall|bb: int| 0 <= bb < b ==> (#[trigger] defs@[bb]).len() == n,
            forall|bb: int, v: int|
                0 <= bb < b && 0 <= v < n ==> #[trigger] uses@[bb]@[v] == crate::liveness::upward_exposed(
                    f.blocks@[bb],
                    v as Vreg,
                ),
            forall|bb: int, v: int|
                0 <= bb < b && 0 <= v < n ==> #[trigger] defs@[bb]@[v] == crate::liveness::defined_before(
                    f.blocks@[bb],
                    f.blocks@[bb].insts.len() as int,
                    v as Vreg,
                ),
            forall|bb: int| 0 <= bb < b ==> (#[trigger] succs@[bb])@ == crate::ir::term_successors(f.blocks@[bb].term),
        decreases nb - b,
    {
        proof {
            assert(block_in_range(f.blocks@[b as int], n as int));
        }
        let (u, d) = block_use_def(&f.blocks[b], n);
        uses.push(u);
        defs.push(d);
        succs.push(f.blocks[b].term.successors());
        b += 1;
    }
    let (live_in, live_out) = liveness(f, &uses, &defs, &succs);
    let (start, end, refs) = intervals(f, &live_in, &live_out);
    let crossing = crossing_calls(f, &live_out);

    let def_block = def_blocks(f);
    let weight = spill_weights(f, &refs, &def_block, loop_depth);

    let cands = candidates(&start, &refs);
    proof {
        assert forall|k1: int, k2: int| 0 <= k1 < k2 < cands.len() implies cands@[k1] != cands@[k2] by {
            assert(cand_before(start@, refs@, cands@[k1] as int, cands@[k2] as int));
        }
        assert forall|k1: int, k2: int|
            0 <= k1 <= k2 < cands.len() implies start@[cands@[k1] as int] <= start@[cands@[k2] as int] by {
            if k1 < k2 {
                assert(cand_before(start@, refs@, cands@[k1] as int, cands@[k2] as int));
            }
        }
    }
    let (plan, from_caller) = linear_scan(n, &start, &end, &weight, &is_float, &crossing, &cands, regs);

    let mut loc: Vec<Location> = Vec::new();
    let mut saved: Vec<PReg> = Vec::new();
    let mut v: usize = 0;
    while v < n
        invariant
            v <= n,
            n == f.n_vregs,
            plan.len() == n,
            from_caller.len() == n,
            loc.len() == v,
            forall|w: int| 0 <= w < v ==> #[trigger] loc_plan(loc@)[w] == plan@[w],
            forall|i: int|
                0 <= i < saved.len() ==> exists|w: int|
                    0 <= w < v && plan@[w] == Some(#[trigger] saved@[i]) && !from_caller@[w],
            forall|i: int, j: int| 0 <= i < j < saved.len() ==> saved@[i] != saved@[j],
            forall|w: int| 0 <= w < v && #[trigger] plan@[w] is Some && !from_caller@[w] ==> saved@.contains(plan@[w]->0),
        decreases n - v,
    {
        let ghost loc0 = loc@;
        match plan[v] {
            Some(r) => {
                loc.push(Location::Reg(r));
                if !from_caller[v] {
                    let mut dup = false;
                    let mut i: usize = 0;
                    while i < saved.len()
                        invariant
                            i <= saved.len(),
                            dup == exists|j: int| 0 <= j < i && saved@[j] == r,
                        decreases saved.len() - i,
                    {
                        if saved[i].num == r.num && saved[i].is_float == r.is_float {
                            dup = true;
                        }
                        i += 1;
                    }
                    let ghost saved0 = saved@;
                    if !dup {
                        saved.push(r);
                        proof {
                            assert forall|w: int| 0 <= w < v && #[trigger] plan@[w] is Some && !from_caller@[w] implies saved@.contains(plan@[w]->0) by {
                                let j = choose|j: int| 0 <= j < saved0.len() && saved0[j] == plan@[w]->0;
                                assert(saved@[j] == saved0[j]);
                            }
                            assert(saved@[saved0.len() as int] == r);
                        }
                    }
                }
            },
            None => {
                loc.push(Location::Spill);
            },
        }
        proof {
            assert forall|w: int| 0 <= w < v + 1 implies #[trigger] loc_plan(loc@)[w] == plan@[w] by {
                if w < v {
                    assert(loc@[w] == loc0[w]);
                    assert(loc_plan(loc0)[w] == plan@[w]);
                }
            }
        }
        v += 1;
    }
    proof {
        assert(loc_plan(loc@) =~= plan@);
        let li = rows_of(live_in@);
        let lo = rows_of(live_out@);
        assert forall|w: int| 0 <= w < n && #[trigger] loc@[w] is Reg implies plan@[w] == Some(loc@[w]->0) && {
            &&& loc@[w]->0.is_float == is_float@[w]
            &&& regs.pool(is_float@[w], from_caller@[w]).contains(loc@[w]->0.num)
            &&& (crossing@[w] ==> !from_caller@[w])
        } by {
            assert(loc_plan(loc@)[w] == plan@[w]);
        }
        assert forall|w: int|
            0 <= w < loc@.len() && #[trigger] loc@[w] is Reg && crosses(*f, lo, w as Vreg) implies {
            &&& regs.pool(loc@[w]->0.is_float, false).contains(loc@[w]->0.num)
            &&& saved@.contains(loc@[w]->0)
        } by {
            assert(crossing@[w]);
            assert(plan@[w] == Some(loc@[w]->0));
        }
        assert(covers(*f, li, lo, start@, end@));
        assert forall|w: int|
            0 <= w < loc@.len() && read_count(*f, w as Vreg) >= 2 && isolated(*f, start@, end@, w) && has_eligible(
                *regs,
                vreg_class(*f, w as Vreg),
                crosses(*f, lo, w as Vreg),
            ) implies #[trigger] loc@[w] is Reg by {
            assert(refs@[w] > 0);
            assert(is_candidate(start@, refs@, w));
            let k = choose|k: int| 0 <= k < cands.len() && cands@[k] == w;
            assert forall|k2: int| 0 <= k2 < cands.len() && cands@[k2] as int != w implies !#[trigger] overlap(
                start@,
                end@,
                cands@[k2] as int,
                w,
            ) by {
                let u = cands@[k2] as int;
                assert(is_candidate(start@, refs@, u));
                assert(refs@[u] == crate::liveness::saturate(read_count(*f, u as Vreg)));
                assert(read_count(*f, u as Vreg) >= 2);
            }
            assert(crossing@[w] == crosses(*f, lo, w as Vreg));
            assert(plan@[cands@[k] as int] is Some);
            assert(loc_plan(loc@)[w] == plan@[w]);
        }
        assert forall|w: int|
            0 <= w < loc@.len() && read_count(*f, w as Vreg) >= 2 && #[trigger] loc@[w] is Spill && has_eligible(
                *regs,
                vreg_class(*f, w as Vreg),
                crosses(*f, lo, w as Vreg),
            ) implies exists|u: int|
                0 <= u < f.n_vregs && u != w && read_count(*f, u as Vreg) >= 2 && vreg_class(*f, u as Vreg)
                    == vreg_class(*f, w as Vreg) && #[trigger] overlap(start@, end@, u, w) && spill_weight(
                    *f,
                    loop_depth@,
                    u as Vreg,
                ) >= spill_weight(*f, loop_depth@, w as Vreg) by {
            assert(refs@[w] > 0);
            assert(is_candidate(start@, refs@, w));
            let k = choose|k: int| 0 <= k < cands.len() && cands@[k] == w;
            assert(loc_plan(loc@)[w] == plan@[w]);
            assert(plan@[cands@[k] as int] is None);
            assert(crossing@[w] == crosses(*f, lo, w as Vreg));
            assert(has_rival(cands@, start@, end@, weight@, is_float@, w));
            let k2 = choose|k2: int|
                0 <= k2 < cands.len() && cands@[k2] as int != w && is_float@[cands@[k2] as int] == is_float@[w]
                    && #[trigger] overlap(start@, end@, cands@[k2] as int, w) && weight@[cands@[k2] as int] >= weight@[w];
            let u = cands@[k2] as int;
            assert(is_candidate(start@, refs@, u));
            assert(refs@[u] == saturate(read_count(*f, u as Vreg)));
            assert(read_count(*f, u as Vreg) >= 2);
        }
        assert(sound_allocation(*f, *regs, loop_depth@, loc@, saved@));
        assert forall|i: int| 0 <= i < saved.len() implies {
            &&& regs.pool((#[trigger] saved@[i]).is_float, false).contains(saved@[i].num)
            &&& exists|w: int| 0 <= w < f.n_vregs && loc@[w] == Location::Reg(saved@[i])
        } by {
            let w = choose|w: int| 0 <= w < n && plan@[w] == Some(#[trigger] saved@[i]) && !from_caller@[w];
            assert(loc_plan(loc@)[w] == plan@[w]);
            assert(loc@[w] == Location::Reg(saved@[i]));
        }
        assert forall|w: int| 0 <= w < f.n_vregs && #[trigger] loc@[w] is Reg implies read_count(*f, w as Vreg) >= 2 by {
            assert(loc_plan(loc@)[w] == plan@[w]);
            let k = choose|k: int| 0 <= k < cands.len() && cands@[k] == w;
            assert(is_candidate(start@, refs@, cands@[k] as int));
        }
        assert forall|w: int|
            0 <= w < f.n_vregs && read_count(*f, w as Vreg) >= 2 && regs.pool(vreg_class(*f, w as Vreg), false).len()
                >= f.n_vregs implies #[trigger] loc@[w] is Reg by {
            assert(refs@[w] > 0);
            assert(is_candidate(start@, refs@, w));
            let k = choose|k: int| 0 <= k < cands.len() && cands@[k] == w;
            assert(plan@[cands@[k] as int] is Some);
            assert(loc_plan(loc@)[w] == plan@[w]);
        }
        if regs.pools_disjoint() {
            assert forall|w: int|
                0 <= w < f.n_vregs && #[trigger] loc@[w] is Reg && regs.pool(loc@[w]->0.is_float, false).contains(
                    loc@[w]->0.num,
                ) implies saved@.contains(loc@[w]->0) by {
                assert(plan@[w] == Some(loc@[w]->0));
                if from_caller@[w] {
                    let i = choose|i: int| 0 <= i < regs.pool(is_float@[w], true).len() && regs.pool(is_float@[w], true)[i] == loc@[w]->0.num;
                    let j = choose|j: int| 0 <= j < regs.pool(is_float@[w], false).len() && regs.pool(is_float@[w], false)[j] == loc@[w]->0.num;
                    assert(regs.pool(is_float@[w], false)[j] != regs.pool(is_float@[w], true)[i]);
                }
            }
        }
    }
    let ghost loc_s = loc@;
    let ghost saved_s = saved@;
    let a = Allocation { loc, saved };
    proof {
        assert(a.saved@ == saved_s && a.loc@ == loc_s);
        assert forall|i: int| 0 <= i < a.saved.len() implies {
            &&& regs.pool((#[trigger] a.saved@[i]).is_float, false).contains(a.saved@[i].num)
            &&& exists|v: int| 0 <= v < f.n_vregs && a.loc@[v] == Location::Reg(a.saved@[i])
        } by {
            assert(regs.pool(saved_s[i].is_float, false).contains(saved_s[i].num));
            let w = choose|w: int| 0 <= w < f.n_vregs && loc_s[w] == Location::Reg(saved_s[i]);
            assert(a.loc@[w] == Location::Reg(a.saved@[i]));
        }
    }
    a
}

} // verus!
