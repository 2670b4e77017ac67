//! Sequencing a set of parallel register copies into ordinary moves — the core of
//! leaving SSA form, where the `phi` nodes of a block become simultaneous copies
//! on each incoming edge.
use crate::ir::{IrInst, IrTy, Val, Vreg};
use vstd::prelude::*;

verus! {

/// The 64-bit contents an operand denotes in a register environment (float
/// immediates by their bit pattern, integers by their two's-complement bits).
pub open spec fn val_bits(v: Val, env: spec_fn(Vreg) -> u64) -> u64 {
    match v {
        Val::Reg(r) => env(r),
        Val::ImmInt(i) => i as u64,
        Val::ImmF64(b) => b,
    }
}

/// The environment after one instruction: a `Mov` writes its source into its
/// destination; any other instruction is treated as leaving registers unchanged.
pub open spec fn step_move(env: spec_fn(Vreg) -> u64, m: IrInst) -> spec_fn(Vreg) -> u64 {
    match m {
        IrInst::Mov { dst, src, .. } => |r: Vreg|
            if r == dst {
                val_bits(src, env)
            } else {
                env(r)
            },
        _ => env,
    }
}

/// The environment after running `movs` one after another.
pub open spec fn run_moves(env: spec_fn(Vreg) -> u64, movs: Seq<IrInst>) -> spec_fn(Vreg) -> u64
    decreases movs.len(),
{
    if movs.len() == 0 {
        env
    } else {
        step_move(run_moves(env, movs.drop_last()), movs.last())
    }
}

/// The value register `r` holds after all `copies` happen at once: every copy
/// reads the registers as they were before any of them wrote. (Should two copies
/// name the same destination, the later one wins.)
pub open spec fn parallel_copy(
    env: spec_fn(Vreg) -> u64,
    copies: Seq<(Vreg, IrTy, Val)>,
    r: Vreg,
) -> u64
    decreases copies.len(),
{
    if copies.len() == 0 {
        env(r)
    } else if copies.last().0 == r {
        val_bits(copies.last().2, env)
    } else {
        parallel_copy(env, copies.drop_last(), r)
    }
}

/// No two copies write the same register.
pub open spec fn distinct_dsts(copies: Seq<(Vreg, IrTy, Val)>) -> bool {
    forall|i: int, j: int|
        0 <= i < copies.len() && 0 <= j < copies.len() && i != j ==> copies[i].0 != copies[j].0
}

/// Every register a copy reads or writes is numbered below `bound`.
pub open spec fn regs_below(copies: Seq<(Vreg, IrTy, Val)>, bound: u32) -> bool {
    forall|i: int|
        0 <= i < copies.len() ==> {
            &&& copies[i].0 < bound
            &&& (copies[i].2 matches Val::Reg(s) ==> s < bound)
        }
}

/// A copy that writes a register with its own value.
pub open spec fn is_self_copy(c: (Vreg, IrTy, Val)) -> bool {
    c.2 == Val::Reg(c.0)
}

/// `order` lists each of `0..n` exactly once.
pub open spec fn is_permutation(order: Seq<usize>, n: int) -> bool {
    &&& order.len() == n
    &&& forall|p: int| 0 <= p < order.len() ==> order[p] < n
    &&& forall|p: int, q: int| 0 <= p < order.len() && 0 <= q < order.len() && p != q ==> order[p] != order[q]
}

/// The moves performing `copies` in the order `order`.
pub open spec fn moves_in_order(copies: Seq<(Vreg, IrTy, Val)>, order: Seq<usize>) -> Seq<IrInst> {
    order.map_values(
        |i: usize| IrInst::Mov { dst: copies[i as int].0, ty: copies[i as int].1, src: copies[i as int].2 },
    )
}

/// The copies with the self-copies removed, in their original order.
pub open spec fn without_self_copies(copies: Seq<(Vreg, IrTy, Val)>) -> Seq<(Vreg, IrTy, Val)> {
    copies.filter(|c: (Vreg, IrTy, Val)| !is_self_copy(c))
}

/// Copy `j` is the last of `f` to write register `s`.
pub open spec fn is_last_writer(f: Seq<(Vreg, IrTy, Val)>, s: Vreg, j: int) -> bool {
    &&& 0 <= j < f.len()
    &&& f[j].0 == s
    &&& forall|k: int| j < k < f.len() ==> f[k].0 != s
}

/// The index of the last copy of `f` that writes register `s`, if any.
pub open spec fn last_writer_of(f: Seq<(Vreg, IrTy, Val)>, s: Vreg) -> Option<usize> {
    if exists|j: int| is_last_writer(f, s, j) {
        Some((choose|j: int| is_last_writer(f, s, j)) as usize)
    } else {
        None
    }
}

/// The "must precede" edges of a list of copies: copy `k` must run before the
/// copy that last writes the register `k` reads, unless that copy is `k` itself.
pub open spec fn copy_edges(f: Seq<(Vreg, IrTy, Val)>) -> Seq<Option<usize>> {
    Seq::new(
        f.len(),
        |k: int|
            match f[k].2 {
                Val::Reg(s) => match last_writer_of(f, s) {
                    Some(j) => if j as int != k {
                        Some(j)
                    } else {
                        None
                    },
                    None => None,
                },
                _ => None,
            },
    )
}

/// `order` runs every copy before the copy it must precede.
pub open spec fn respects_edges(edges: Seq<Option<usize>>, order: Seq<usize>) -> bool {
    forall|p: int, k: int|
        0 <= p < order.len() && 0 <= k < edges.len() && edges[k] == Some(order[p]) ==> exists|q: int|
            0 <= q < p && order[q] == k
}

/// No copy of `f` lies on a cycle of the must-precede edges.
pub open spec fn acyclic_copies(f: Seq<(Vreg, IrTy, Val)>) -> bool {
    forall|j: usize| j < f.len() ==> !on_cycle(copy_edges(f), j)
}

/// The index of the last copy writing `s`, if any.
fn last_writer(copies: &Vec<(Vreg, IrTy, Val)>, s: Vreg) -> (r: Option<usize>)
    ensures
        r matches Some(j) ==> j < copies.len() && copies@[j as int].0 == s && forall|k: int|
            j < k < copies.len() ==> copies@[k].0 != s,
        r is None ==> forall|k: int| 0 <= k < copies.len() ==> copies@[k].0 != s,
        r == last_writer_of(copies@, s),
{
    let mut found: Option<usize> = None;
    let mut i: usize = 0;
    while i < copies.len()
        invariant
            i <= copies.len(),
            found matches Some(j) ==> j < i && copies@[j as int].0 == s && forall|k: int|
                j < k < i ==> copies@[k].0 != s,
            found is None ==> forall|k: int| 0 <= k < i ==> copies@[k].0 != s,
        decreases copies.len() - i,
    {
        if copies[i].0 == s {
            found = Some(i);
        }
        i += 1;
    }
    proof {
        let f = copies@;
        if let Some(j) = found {
            assert(is_last_writer(f, s, j as int));
            let c = choose|c: int| is_last_writer(f, s, c);
            if c < j {
                assert(f[j as int].0 != s);
            } else if c > j {
                assert(f[c].0 != s);
            }
        } else {
            assert(!exists|j: int| is_last_writer(f, s, j));
        }
    }
    found
}

/// Number of copies `k` not yet in `done` that must precede copy `j`.
pub open spec fn pending_readers(edges: Seq<Option<usize>>, done: Seq<usize>, j: usize, m: int) -> nat
    decreases m,
{
    if m <= 0 {
        0
    } else {
        pending_readers(edges, done, j, m - 1) + if edges[m - 1] == Some(j) && !done.contains(
            (m - 1) as usize,
        ) {
            1nat
        } else {
            0nat
        }
    }
}

proof fn lemma_pending_bound(edges: Seq<Option<usize>>, done: Seq<usize>, j: usize, m: int)
    requires
        0 <= m,
    ensures
        pending_readers(edges, done, j, m) <= m,
    decreases m,
{
    if m > 0 {
        lemma_pending_bound(edges, done, j, m - 1);
    }
}

/// Adding `x` to `done` lowers the count for `edges[x]` by one and leaves the others.
proof fn lemma_pending_mark(edges: Seq<Option<usize>>, done: Seq<usize>, x: usize, j: usize, m: int)
    requires
        0 <= m <= usize::MAX,
        !done.contains(x),
    ensures
        pending_readers(edges, done.push(x), j, m) + (if (x as int) < m && edges[x as int] == Some(
            j,
        ) {
            1nat
        } else {
            0nat
        }) == pending_readers(edges, done, j, m),
    decreases m,
{
    if m > 0 {
        lemma_pending_mark(edges, done, x, j, m - 1);
        let k = (m - 1) as usize;
        let d2 = done.push(x);
        assert(d2.contains(k) <==> done.contains(k) || k == x) by {
            if d2.contains(k) {
                let p = choose|p: int| 0 <= p < d2.len() && d2[p] == k;
                if p < done.len() {
                    assert(done[p] == k);
                }
            }
            if done.contains(k) {
                let p = choose|p: int| 0 <= p < done.len() && done[p] == k;
                assert(d2[p] == k);
            }
            if k == x {
                assert(d2[done.len() as int] == k);
            }
        }
        assert(pending_readers(edges, d2, j, m) == pending_readers(edges, d2, j, m - 1) + if edges[m
            - 1] == Some(j) && !d2.contains((m - 1) as usize) {
            1nat
        } else {
            0nat
        });
        assert(pending_readers(edges, done, j, m) == pending_readers(edges, done, j, m - 1) + if edges[m
            - 1] == Some(j) && !done.contains((m - 1) as usize) {
            1nat
        } else {
            0nat
        });
    }
}

/// A zero count means every copy that must precede `j` is in `done`.
proof fn lemma_pending_zero(edges: Seq<Option<usize>>, done: Seq<usize>, j: usize, m: int, k: int)
    requires
        0 <= k < m <= usize::MAX,
        edges[k] == Some(j),
        pending_readers(edges, done, j, m) == 0,
    ensures
        done.contains(k as usize),
    decreases m,
{
    let prev = pending_readers(edges, done, j, m - 1);
    assert(prev == 0);
    if k < m - 1 {
        lemma_pending_zero(edges, done, j, m - 1, k);
    }
}

/// A list of distinct indices below `n` has at most `n` entries.
pub(crate) proof fn lemma_distinct_below(s: Seq<usize>, n: usize)
    requires
        forall|p: int| 0 <= p < s.len() ==> s[p] < n,
        forall|p: int, q: int| 0 <= p < s.len() && 0 <= q < s.len() && p != q ==> s[p] != s[q],
    ensures
        s.len() <= n,
    decreases n,
{
    if s.len() > 0 {
        assert(s[0] < n);
        let m = (n - 1) as usize;
        if exists|p: int| 0 <= p < s.len() && s[p] == m {
            let p = choose|p: int| 0 <= p < s.len() && s[p] == m;
            let t = s.subrange(0, p) + s.subrange(p + 1, s.len() as int);
            assert forall|i: int| 0 <= i < t.len() implies t[i] < m by {
                if i < p {
                    assert(t[i] == s[i]);
                } else {
                    assert(t[i] == s[i + 1]);
                }
            }
            assert forall|i: int, j: int| 0 <= i < t.len() && 0 <= j < t.len() && i != j implies t[i]
                != t[j] by {
                let si = if i < p { i } else { i + 1 };
                let sj = if j < p { j } else { j + 1 };
                assert(t[i] == s[si] && t[j] == s[sj]);
            }
            lemma_distinct_below(t, m);
        } else {
            lemma_distinct_below(s, m);
        }
    }
}

/// One step along the "must precede" edges: from copy `x` to the copy it
/// must precede, if any.
pub open spec fn edge_step(edges: Seq<Option<usize>>, o: Option<usize>) -> Option<usize> {
    match o {
        Some(x) => if x < edges.len() {
            edges[x as int]
        } else {
            None
        },
        None => None,
    }
}

/// `m` steps along the edges from `o`.
pub open spec fn edge_walk(edges: Seq<Option<usize>>, o: Option<usize>, m: nat) -> Option<usize>
    decreases m,
{
    if m == 0 {
        o
    } else {
        edge_step(edges, edge_walk(edges, o, (m - 1) as nat))
    }
}

/// Copy `j` lies on a cycle of the edges: some walk of one step or more from
/// it comes back to it.
pub open spec fn on_cycle(edges: Seq<Option<usize>>, j: usize) -> bool {
    exists|m: nat| m >= 1 && #[trigger] edge_walk(edges, Some(j), m) == Some(j)
}

proof fn lemma_walk_add(edges: Seq<Option<usize>>, o: Option<usize>, a: nat, b: nat)
    ensures
        edge_walk(edges, o, a + b) == edge_walk(edges, edge_walk(edges, o, a), b),
    decreases b,
{
    if b > 0 {
        lemma_walk_add(edges, o, a, (b - 1) as nat);
        assert((a + b - 1) as nat == a + (b - 1) as nat);
    }
}

/// A positive count of pending copies that must precede `j` names one.
proof fn lemma_pending_pos(edges: Seq<Option<usize>>, done: Seq<usize>, j: usize, m: int)
    requires
        0 <= m <= usize::MAX,
        pending_readers(edges, done, j, m) > 0,
    ensures
        exists|k: int| 0 <= k < m && edges[k] == Some(j) && !done.contains(k as usize),
    decreases m,
{
    if pending_readers(edges, done, j, m - 1) > 0 {
        lemma_pending_pos(edges, done, j, m - 1);
    } else {
        assert(edges[m - 1] == Some(j) && !done.contains((m - 1) as usize));
    }
}

/// A pending copy that some pending copy must precede, going back `i` steps
/// from `j`.
pub open spec fn pending_back(edges: Seq<Option<usize>>, done: Seq<usize>, j: usize, i: nat) -> usize
    decreases i,
{
    if i == 0 {
        j
    } else {
        let y = pending_back(edges, done, j, (i - 1) as nat);
        choose|k: usize| k < edges.len() && !done.contains(k) && edges[k as int] == Some(y)
    }
}

proof fn lemma_pending_back(edges: Seq<Option<usize>>, done: Seq<usize>, j: usize, i: nat)
    requires
        j < edges.len(),
        !done.contains(j),
        forall|x: usize|
            x < edges.len() && !done.contains(x) ==> exists|k: usize|
                k < edges.len() && !done.contains(k) && #[trigger] edges[k as int] == Some(x),
    ensures
        pending_back(edges, done, j, i) < edges.len(),
        !done.contains(pending_back(edges, done, j, i)),
        i > 0 ==> edges[pending_back(edges, done, j, i) as int] == Some(pending_back(edges, done, j, (i - 1) as nat)),
    decreases i,
{
    if i > 0 {
        lemma_pending_back(edges, done, j, (i - 1) as nat);
        let y = pending_back(edges, done, j, (i - 1) as nat);
        let k = choose|k: usize| k < edges.len() && !done.contains(k) && #[trigger] edges[k as int] == Some(y);
    }
}

proof fn lemma_pending_back_walk(edges: Seq<Option<usize>>, done: Seq<usize>, j: usize, i: nat, d: nat)
    requires
        j < edges.len(),
        !done.contains(j),
        forall|x: usize|
            x < edges.len() && !done.contains(x) ==> exists|k: usize|
                k < edges.len() && !done.contains(k) && #[trigger] edges[k as int] == Some(x),
    ensures
        edge_walk(edges, Some(pending_back(edges, done, j, i + d)), d) == Some(pending_back(edges, done, j, i)),
    decreases d,
{
    if d > 0 {
        let top = pending_back(edges, done, j, i + d);
        lemma_pending_back(edges, done, j, i + d);
        assert(((i + d) - 1) as nat == i + (d - 1) as nat);
        lemma_walk_add(edges, Some(top), 1, (d - 1) as nat);
        assert(edge_walk(edges, Some(top), 0) == Some(top));
        assert(edge_walk(edges, Some(top), 1) == edge_step(edges, Some(top)));
        lemma_pending_back_walk(edges, done, j, i, (d - 1) as nat);
        assert((1 + (d - 1)) as nat == d);
    }
}

/// When every pending copy has a pending copy that must precede it, each
/// pending copy lies on a cycle.
proof fn lemma_stuck_on_cycle(edges: Seq<Option<usize>>, done: Seq<usize>, j: usize)
    requires
        j < edges.len(),
        edges.len() <= u32::MAX,
        !done.contains(j),
        forall|x: usize|
            x < edges.len() && !done.contains(x) ==> exists|k: usize|
                k < edges.len() && !done.contains(k) && #[trigger] edges[k as int] == Some(x),
    ensures
        on_cycle(edges, j),
{
    let n = edges.len() as usize;
    let s = Seq::new((n + 1) as nat, |i: int| pending_back(edges, done, j, i as nat));
    assert forall|p: int| 0 <= p < s.len() implies s[p] < n by {
        lemma_pending_back(edges, done, j, p as nat);
    }
    if forall|p: int, q: int| 0 <= p < s.len() && 0 <= q < s.len() && p != q ==> s[p] != s[q] {
        lemma_distinct_below(s, n);
    }
    let (a, b) = choose|a: int, b: int| 0 <= a < s.len() && 0 <= b < s.len() && a != b && s[a] == s[b];
    let (lo, hi) = if a < b { (a, b) } else { (b, a) };
    let m = (hi - lo) as nat;
    let c = pending_back(edges, done, j, hi as nat);
    lemma_pending_back_walk(edges, done, j, lo as nat, m);
    assert((lo as nat + m) as nat == hi as nat);
    assert(edge_walk(edges, Some(c), m) == Some(c));
    lemma_pending_back_walk(edges, done, j, 0, hi as nat);
    assert(edge_walk(edges, Some(c), hi as nat) == Some(j));
    lemma_walk_add(edges, Some(c), hi as nat, m);
    lemma_walk_add(edges, Some(c), m, hi as nat);
    assert(hi as nat + m == m + hi as nat);
    assert(edge_walk(edges, Some(j), m) == Some(j));
}

/// A distinct list of indices below `n` that holds every index below `n` has `n` entries.
proof fn lemma_covering_len(order: Seq<usize>, n: usize)
    requires
        order.len() <= n,
        forall|p: int, q: int| 0 <= p < order.len() && 0 <= q < order.len() && p != q ==> order[p] != order[q],
        forall|j: usize| j < n ==> #[trigger] order.contains(j),
    ensures
        order.len() == n,
{
    let idx = Seq::new(
        n as nat,
        |j: int| (choose|p: int| 0 <= p < order.len() && order[p] == j as usize) as usize,
    );
    assert forall|j: int| 0 <= j < n implies 0 <= #[trigger] idx[j] < order.len() && order[idx[j] as int]
        == j as usize by {
        assert(order.contains(j as usize));
    }
    assert forall|a: int, b: int| 0 <= a < idx.len() && 0 <= b < idx.len() && a != b implies idx[a]
        != idx[b] by {
        assert(order[idx[a] as int] == a as usize);
        assert(order[idx[b] as int] == b as usize);
    }
    lemma_distinct_below(idx, order.len() as usize);
}

/// The position of index `x` in `order`.
pub open spec fn position(order: Seq<usize>, x: usize) -> int {
    choose|p: int| 0 <= p < order.len() && order[p] == x
}

/// Along the must-precede edges, positions in an order that respects them only grow.
proof fn lemma_walk_later(edges: Seq<Option<usize>>, order: Seq<usize>, j: usize, m: nat, y: usize)
    requires
        is_permutation(order, edges.len() as int),
        edges.len() <= usize::MAX,
        forall|i: int| #![trigger edges[i]] 0 <= i < edges.len() ==> (edges[i] matches Some(x) ==> x < edges.len()),
        respects_edges(edges, order),
        j < edges.len(),
        edge_walk(edges, Some(j), m) == Some(y),
    ensures
        y < edges.len(),
        order[position(order, y)] == y,
        0 <= position(order, y) < order.len(),
        m >= 1 ==> position(order, j) < position(order, y),
        m == 0 ==> y == j,
    decreases m,
{
    let n = edges.len() as int;
    if m == 0 {
        lemma_permutation_covers(order, n, j as int);
    } else {
        let w = edge_walk(edges, Some(j), (m - 1) as nat);
        assert(edge_walk(edges, Some(j), m) == edge_step(edges, w));
        let z = w->0;
        lemma_walk_later(edges, order, j, (m - 1) as nat, z);
        assert(edges[z as int] == Some(y));
        lemma_permutation_covers(order, n, y as int);
        let py = position(order, y);
        let q = choose|q: int| 0 <= q < py && order[q] == z;
        assert(q == position(order, z));
    }
}

/// An order of every copy that respects the edges leaves no copy on a cycle.
proof fn lemma_ordered_acyclic(edges: Seq<Option<usize>>, order: Seq<usize>, j: usize)
    requires
        is_permutation(order, edges.len() as int),
        edges.len() <= usize::MAX,
        forall|i: int| #![trigger edges[i]] 0 <= i < edges.len() ==> (edges[i] matches Some(x) ==> x < edges.len()),
        respects_edges(edges, order),
        j < edges.len(),
    ensures
        !on_cycle(edges, j),
{
    if on_cycle(edges, j) {
        let m = choose|m: nat| m >= 1 && #[trigger] edge_walk(edges, Some(j), m) == Some(j);
        lemma_walk_later(edges, order, j, m, j);
    }
}

/// The copies with no copy that must precede them, in index order, among
/// the first `m`.
pub open spec fn kahn_seed(edges: Seq<Option<usize>>, m: int) -> Seq<usize>
    decreases m,
{
    if m <= 0 {
        seq![]
    } else {
        kahn_seed(edges, m - 1) + if pending_readers(edges, Seq::empty(), (m - 1) as usize, edges.len() as int) == 0 {
            seq![(m - 1) as usize]
        } else {
            seq![]
        }
    }
}

/// Kahn's algorithm run on from queue position `qi` of `order`: take the
/// copy at the head, and append the copy it must precede once every copy
/// that must precede that one has been taken.
pub open spec fn kahn_from(edges: Seq<Option<usize>>, order: Seq<usize>, qi: int) -> Seq<usize>
    decreases edges.len() - qi,
{
    if qi < 0 || qi >= order.len() || qi >= edges.len() {
        order
    } else {
        let x = order[qi];
        let next = if x < edges.len() && edges[x as int] is Some && pending_readers(
            edges,
            order.take(qi + 1),
            edges[x as int]->0,
            edges.len() as int,
        ) == 0 {
            order.push(edges[x as int]->0)
        } else {
            order
        };
        kahn_from(edges, next, qi + 1)
    }
}

/// The order Kahn's algorithm gives the copies: seeded with those that no
/// copy must precede, in index order, then a queue.
pub open spec fn kahn_order(edges: Seq<Option<usize>>) -> Seq<usize> {
    kahn_from(edges, kahn_seed(edges, edges.len() as int), 0)
}

/// Kahn's topological sort over the "must precede" edges (`kahn_order`): returns
/// the copies in an order where every copy comes before the copy it must precede, every copy
/// that lies on no cycle among them; the result is shorter than `n` exactly
/// when the edges form a cycle.
#[verifier::spinoff_prover]
fn topo_order(edges: &Vec<Option<usize>>) -> (order: Vec<usize>)
    requires
        forall|i: int| #![trigger edges@[i]] 0 <= i < edges.len() ==> (edges@[i] matches Some(j) ==> j < edges.len()),
        edges.len() <= u32::MAX,
    ensures
        order.len() <= edges.len(),
        forall|p: int| 0 <= p < order.len() ==> order@[p] < edges.len(),
        forall|p: int, q: int| 0 <= p < order.len() && 0 <= q < order.len() && p != q ==> order@[p] != order@[q],
        forall|p: int, k: int|
            0 <= p < order.len() && 0 <= k < edges.len() && edges@[k] == Some(order@[p]) ==> exists|q: int|
                0 <= q < p && order@[q] == k,
        forall|j: usize| j < edges.len() && !on_cycle(edges@, j) ==> #[trigger] order@.contains(j),
        order@ == kahn_order(edges@),
{
    let n = edges.len();
    let mut indeg: Vec<u32> = Vec::new();
    let mut i: usize = 0;
    while i < n
        invariant
            i <= n,
            indeg.len() == i,
            forall|j: int| 0 <= j < i ==> indeg@[j] == 0,
        decreases n - i,
    {
        indeg.push(0);
        i += 1;
    }
    // Count each copy's pending predecessors.
    let mut k: usize = 0;
    while k < n
        invariant
            k <= n,
            n == edges.len(),
            n <= u32::MAX,
            indeg.len() == n,
            forall|i: int| #![trigger edges@[i]] 0 <= i < n ==> (edges@[i] matches Some(j) ==> j < n),
            forall|j: int| 0 <= j < n ==> indeg@[j] == pending_readers(edges@, Seq::empty(), j as usize, k as int),
        decreases n - k,
    {
        proof {
            assert(!Seq::<usize>::empty().contains(k));
        }
        if let Some(j) = edges[k] {
            proof {
                lemma_pending_bound(edges@, Seq::empty(), j, k as int);
            }
            indeg.set(j, indeg[j] + 1);
        }
        k += 1;
    }
    let mut order: Vec<usize> = Vec::new();
    let mut i: usize = 0;
    while i < n
        invariant
            i <= n,
            n == edges.len(),
            indeg.len() == n,
            forall|j: int| 0 <= j < n ==> indeg@[j] == pending_readers(edges@, Seq::empty(), j as usize, n as int),
            forall|p: int| 0 <= p < order.len() ==> order@[p] < i,
            forall|p: int, q: int| 0 <= p < order.len() && 0 <= q < order.len() && p < q ==> order@[p] < order@[q],
            forall|j: int| 0 <= j < i ==> (order@.contains(j as usize) <==> indeg@[j] == 0),
            order.len() <= i,
            order@ == kahn_seed(edges@, i as int),
        decreases n - i,
    {
        let ghost old_order = order@;
        if indeg[i] == 0 {
            order.push(i);
        }
        i += 1;
        proof {
            assert(order@ =~= kahn_seed(edges@, i as int));
        }
        proof {
            assert forall|j: int| 0 <= j < i implies (order@.contains(j as usize) <==> indeg@[j] == 0) by {
                if j < i - 1 {
                    if order@.contains(j as usize) {
                        let p = choose|p: int| 0 <= p < order.len() && order@[p] == j as usize;
                        if p < old_order.len() {
                            assert(old_order[p] == j);
                        }
                    }
                    if old_order.contains(j as usize) {
                        let p = choose|p: int| 0 <= p < old_order.len() && old_order[p] == j as usize;
                        assert(order@[p] == j);
                    }
                } else if indeg@[j] == 0 {
                    assert(order@[order.len() - 1] == j);
                }
            }
        }
    }
    let ghost done0: Seq<usize> = Seq::empty();
    proof {
        assert(order@.take(0) =~= done0);
        assert forall|p: int, k: int|
            0 <= p < order.len() && 0 <= k < n && edges@[k] == Some(order@[p]) implies exists|q: int|
            0 <= q < p && order@[q] == k by {
            let j = order@[p];
            assert(order@.contains(j));
            assert(j < n);
            assert(indeg@[j as int] == 0);
            assert(pending_readers(edges@, Seq::empty(), j, n as int) == 0);
            lemma_pending_zero(edges@, Seq::empty(), j, n as int, k);
        }
        assert forall|j: int| 0 <= j < n implies (order@.contains(j as usize) <==> indeg@[j] == 0) by {}
    }
    let mut qi: usize = 0;
    while qi < order.len()
        invariant
            n == edges.len(),
            forall|i: int| #![trigger edges@[i]] 0 <= i < n ==> (edges@[i] matches Some(j) ==> j < n),
            indeg.len() == n,
            qi <= order.len(),
            order.len() <= n,
            n == indeg.len(),
            forall|p: int| 0 <= p < order.len() ==> order@[p] < n,
            forall|p: int, q: int| 0 <= p < order.len() && 0 <= q < order.len() && p != q ==> order@[p] != order@[q],
            forall|j: int|
                0 <= j < n ==> indeg@[j] == pending_readers(edges@, order@.take(qi as int), j as usize, n as int),
            forall|j: int| 0 <= j < n ==> (order@.contains(j as usize) <==> indeg@[j] == 0),
            forall|p: int, k: int|
                0 <= p < order.len() && 0 <= k < n && edges@[k] == Some(order@[p]) ==> exists|q: int|
                    0 <= q < p && order@[q] == k,
            kahn_from(edges@, order@, qi as int) == kahn_order(edges@),
        decreases n - qi,
    {
        let x = order[qi];
        let ghost done = order@.take(qi as int);
        proof {
            assert(!done.contains(x)) by {
                if done.contains(x) {
                    let p = choose|p: int| 0 <= p < done.len() && done[p] == x;
                    assert(order@[p] == x);
                }
            }
            assert(order@.take(qi + 1) =~= done.push(x));
        }
        let ghost before_order = order@;
        proof {
            lemma_distinct_below(order@, n);
        }
        if let Some(j) = edges[x] {
            proof {
                lemma_pending_mark(edges@, done, x, j, n as int);
                // `x` is still pending for `j`, so the count is positive.
                lemma_pending_mark(edges@, done, x, j, n as int);
                assert(indeg@[j as int] >= 1);
            }
            let ghost old_order = order@;
            let ghost old_indeg = indeg@;
            indeg.set(j, indeg[j] - 1);
            if indeg[j] == 0 {
                proof {
                    assert(!old_order.contains(j));
                }
                order.push(j);
            }
            proof {
                assert(order@ == old_order || order@ == old_order.push(j));
                assert(forall|p: int| 0 <= p < old_order.len() ==> order@[p] == old_order[p]);
                assert(order@.take(qi + 1) =~= done.push(x));
                assert forall|p: int, q: int|
                    0 <= p < order.len() && 0 <= q < order.len() && p != q implies order@[p]
                    != order@[q] by {
                    if p < old_order.len() && q < old_order.len() {
                        assert(old_order[p] == order@[p] && old_order[q] == order@[q]);
                    } else if p < old_order.len() {
                        assert(old_order[p] == order@[p]);
                        assert(old_order.contains(order@[p]));
                    } else if q < old_order.len() {
                        assert(old_order[q] == order@[q]);
                        assert(old_order.contains(order@[q]));
                    }
                }
                lemma_distinct_below(order@, n);
                assert forall|jj: int| 0 <= jj < n implies indeg@[jj] == pending_readers(
                    edges@,
                    order@.take(qi + 1),
                    jj as usize,
                    n as int,
                ) by {
                    lemma_pending_mark(edges@, done, x, jj as usize, n as int);
                }
                assert forall|jj: int| 0 <= jj < n implies (order@.contains(jj as usize) <==> indeg@[jj]
                    == 0) by {
                    if order@.contains(jj as usize) {
                        let p = choose|p: int| 0 <= p < order.len() && order@[p] == jj as usize;
                        if p < old_order.len() {
                            assert(order@[p] == old_order[p]);
                            assert(old_order.contains(jj as usize));
                        }
                    }
                    if old_order.contains(jj as usize) {
                        let p = choose|p: int| 0 <= p < old_order.len() && old_order[p] == jj as usize;
                        assert(order@[p] == jj);
                    }
                    if jj == j && indeg@[jj] == 0 {
                        assert(order@[order.len() - 1] == j);
                    }
                    if jj != j {
                        assert(indeg@[jj] == old_indeg[jj]);
                    }
                }
                assert forall|p: int, k: int|
                    0 <= p < order.len() && 0 <= k < n && edges@[k] == Some(order@[p]) implies exists|
                    q: int,
                | 0 <= q < p && order@[q] == k by {
                    if p == old_order.len() {
                        lemma_pending_zero(edges@, order@.take(qi + 1), j, n as int, k);
                        let dn = order@.take(qi + 1);
                        let q = choose|q: int| 0 <= q < dn.len() && dn[q] == k as usize;
                        assert(order@[q] == k);
                    } else {
                        assert(old_order[p] == order@[p]);
                        let q = choose|q: int| 0 <= q < p && old_order[q] == k;
                        assert(order@[q] == k);
                    }
                }
                assert forall|p: int, q: int|
                    0 <= p < order.len() && 0 <= q < order.len() && p != q implies order@[p]
                    != order@[q] by {
                    if p < old_order.len() && q < old_order.len() {
                        assert(old_order[p] == order@[p] && old_order[q] == order@[q]);
                    } else if p < old_order.len() {
                        assert(old_order.contains(order@[p]));
                        assert(old_order[p] == order@[p]);
                    } else if q < old_order.len() {
                        assert(old_order[q] == order@[q]);
                        assert(old_order.contains(order@[q]));
                    }
                }
            }
        } else {
            proof {
                assert forall|jj: int| 0 <= jj < n implies indeg@[jj] == pending_readers(
                    edges@,
                    order@.take(qi + 1),
                    jj as usize,
                    n as int,
                ) by {
                    lemma_pending_mark(edges@, done, x, jj as usize, n as int);
                }
            }
        }
        proof {
            if let Some(j) = edges@[x as int] {
                lemma_pending_mark(edges@, done, x, j, n as int);
                if order@.len() > before_order.len() {
                    assert(order@ == before_order.push(j));
                } else {
                    assert(order@ == before_order);
                }
            }
            assert(kahn_from(edges@, before_order, qi as int) == kahn_from(edges@, order@, qi + 1));
        }
        qi += 1;
    }
    proof {
        let done = order@.take(qi as int);
        assert(done =~= order@);
        assert forall|x: usize| x < edges.len() && !done.contains(x) implies exists|k: usize|
            k < edges.len() && !done.contains(k) && #[trigger] edges@[k as int] == Some(x) by {
            assert(indeg@[x as int] != 0);
            lemma_pending_pos(edges@, done, x, n as int);
            let k = choose|k: int| 0 <= k < n && edges@[k] == Some(x) && !done.contains(k as usize);
            assert(edges@[(k as usize) as int] == Some(x));
        }
        assert forall|j: usize| j < edges.len() && !on_cycle(edges@, j) implies #[trigger] order@.contains(j) by {
            if !order@.contains(j) {
                lemma_stuck_on_cycle(edges@, done, j);
            }
        }
    }
    order
}

} // verus!

verus! {

/// With distinct destinations, a register written by copy `i` ends up holding
/// that copy's source value.
pub proof fn lemma_parallel_copy_writer(env: spec_fn(Vreg) -> u64, c: Seq<(Vreg, IrTy, Val)>, i: int)
    requires
        distinct_dsts(c),
        0 <= i < c.len(),
    ensures
        parallel_copy(env, c, c[i].0) == val_bits(c[i].2, env),
    decreases c.len(),
{
    if i < c.len() - 1 {
        assert(c.last().0 != c[i].0);
        let d = c.drop_last();
        assert(d[i] == c[i]);
        lemma_parallel_copy_writer(env, d, i);
    }
}

/// A register no copy writes keeps its value.
pub proof fn lemma_parallel_copy_untouched(env: spec_fn(Vreg) -> u64, c: Seq<(Vreg, IrTy, Val)>, r: Vreg)
    requires
        forall|i: int| 0 <= i < c.len() ==> c[i].0 != r,
    ensures
        parallel_copy(env, c, r) == env(r),
    decreases c.len(),
{
    if c.len() > 0 {
        let d = c.drop_last();
        assert forall|i: int| 0 <= i < d.len() implies d[i].0 != r by {
            assert(d[i] == c[i]);
        }
        lemma_parallel_copy_untouched(env, d, r);
    }
}

/// A distinct list of `n` indices below `n` holds every index below `n`.
proof fn lemma_permutation_covers(order: Seq<usize>, n: int, j: int)
    requires
        is_permutation(order, n),
        0 <= j < n <= usize::MAX,
    ensures
        exists|q: int| 0 <= q < order.len() && order[q] == j,
{
    if !(exists|q: int| 0 <= q < order.len() && order[q] == j) {
        let squeezed = order.map_values(|x: usize| if x > j { (x - 1) as usize } else { x });
        assert forall|p: int| 0 <= p < squeezed.len() implies squeezed[p] < (n - 1) as usize by {
            assert(order[p] != j);
            assert(squeezed[p] == if order[p] > j { (order[p] - 1) as usize } else { order[p] });
        }
        assert forall|p: int, q: int|
            0 <= p < squeezed.len() && 0 <= q < squeezed.len() && p != q implies squeezed[p]
            != squeezed[q] by {
            assert(order[p] != j && order[q] != j && order[p] != order[q]);
            assert(squeezed[p] == if order[p] > j { (order[p] - 1) as usize } else { order[p] });
            assert(squeezed[q] == if order[q] > j { (order[q] - 1) as usize } else { order[q] });
        }
        lemma_distinct_below(squeezed, (n - 1) as usize);
    }
}

/// The environment after the first `p` moves of `order`: a register written by
/// one of them holds that copy's source value, read before any move ran.
pub open spec fn after_prefix(
    env: spec_fn(Vreg) -> u64,
    f: Seq<(Vreg, IrTy, Val)>,
    order: Seq<usize>,
    p: int,
    r: Vreg,
) -> u64 {
    if exists|q: int| 0 <= q < p && f[order[q] as int].0 == r {
        let q = choose|q: int| 0 <= q < p && f[order[q] as int].0 == r;
        val_bits(f[order[q] as int].2, env)
    } else {
        env(r)
    }
}

/// Running the moves in an order that respects the precedence edges performs
/// the parallel copy.
proof fn lemma_ordered_moves(
    env: spec_fn(Vreg) -> u64,
    f: Seq<(Vreg, IrTy, Val)>,
    edges: Seq<Option<usize>>,
    order: Seq<usize>,
    p: int,
)
    requires
        distinct_dsts(f),
        edges.len() == f.len(),
        forall|i: int, j: int|
            0 <= i < f.len() && 0 <= j < f.len() && i != j && f[i].2 == Val::Reg(f[j].0) ==> edges[i]
                == Some(j as usize),
        is_permutation(order, f.len() as int),
        forall|q: int, k: int|
            0 <= q < order.len() && 0 <= k < edges.len() && edges[k] == Some(order[q]) ==> exists|q2: int|
                0 <= q2 < q && order[q2] == k,
        0 <= p <= order.len(),
    ensures
        forall|r: Vreg|
            run_moves(env, moves_in_order(f, order).take(p))(r) == #[trigger] after_prefix(env, f, order, p, r),
    decreases p,
{
    let ms = moves_in_order(f, order);
    if p == 0 {
        assert(ms.take(0) =~= Seq::<IrInst>::empty());
    } else {
        lemma_ordered_moves(env, f, edges, order, p - 1);
        assert(ms.take(p).drop_last() =~= ms.take(p - 1));
        let c = order[p - 1] as int;
        let prev = run_moves(env, ms.take(p - 1));
        assert(ms.take(p).last() == IrInst::Mov { dst: f[c].0, ty: f[c].1, src: f[c].2 });
        // The source still holds its original value.
        assert(val_bits(f[c].2, prev) == val_bits(f[c].2, env)) by {
            if let Val::Reg(s) = f[c].2 {
                assert(prev(s) == after_prefix(env, f, order, p - 1, s));
                if exists|q: int| 0 <= q < p - 1 && f[order[q] as int].0 == s {
                    let q = choose|q: int| 0 <= q < p - 1 && f[order[q] as int].0 == s;
                    let j = order[q] as int;
                    assert(j != c);
                    assert(edges[c] == Some(j as usize));
                    let q2 = choose|q2: int| 0 <= q2 < q && order[q2] == c;
                    assert(order[q2] == order[p - 1]);
                    assert(false);
                }
            }
        }
        assert forall|r: Vreg| run_moves(env, ms.take(p))(r) == #[trigger] after_prefix(
            env,
            f,
            order,
            p,
            r,
        ) by {
            assert(prev(r) == after_prefix(env, f, order, p - 1, r));
            if r == f[c].0 {
                assert(f[order[p - 1] as int].0 == r);
                let q = choose|q: int| 0 <= q < p && f[order[q] as int].0 == r;
                assert(order[q] as int == c) by {
                    if order[q] as int != c {
                        assert(f[order[q] as int].0 != f[c].0);
                    }
                }
            } else {
                if exists|q: int| 0 <= q < p && f[order[q] as int].0 == r {
                    let q = choose|q: int| 0 <= q < p && f[order[q] as int].0 == r;
                    assert(q < p - 1);
                    let q1 = choose|q1: int| 0 <= q1 < p - 1 && f[order[q1] as int].0 == r;
                    assert(order[q1] == order[q]) by {
                        if order[q1] != order[q] {
                            assert(f[order[q1] as int].0 != f[order[q] as int].0);
                        }
                    }
                }
            }
        }
    }
}

/// Routing every source through a fresh register first, then writing every
/// destination from its fresh register, performs the parallel copy.
pub open spec fn routed_moves(f: Seq<(Vreg, IrTy, Val)>, t0: u32) -> Seq<IrInst> {
    Seq::new(f.len(), |i: int| IrInst::Mov { dst: (t0 + i) as u32, ty: f[i].1, src: f[i].2 }) + Seq::new(
        f.len(),
        |i: int| IrInst::Mov { dst: f[i].0, ty: f[i].1, src: Val::Reg((t0 + i) as u32) },
    )
}

proof fn lemma_routed_reads(env: spec_fn(Vreg) -> u64, f: Seq<(Vreg, IrTy, Val)>, t0: u32, k: int)
    requires
        regs_below(f, t0),
        t0 + f.len() <= u32::MAX,
        0 <= k <= f.len(),
    ensures
        forall|r: Vreg|
            #[trigger] run_moves(env, routed_moves(f, t0).take(k))(r) == if t0 <= r < t0 + k {
                val_bits(f[r - t0].2, env)
            } else {
                env(r)
            },
    decreases k,
{
    let ms = routed_moves(f, t0);
    if k == 0 {
        assert(ms.take(0) =~= Seq::<IrInst>::empty());
    } else {
        lemma_routed_reads(env, f, t0, k - 1);
        assert(ms.take(k).drop_last() =~= ms.take(k - 1));
        assert(ms.take(k).last() == ms[k - 1]);
        let prev = run_moves(env, ms.take(k - 1));
        assert(val_bits(f[k - 1].2, prev) == val_bits(f[k - 1].2, env));
    }
}

#[verifier::spinoff_prover]
proof fn lemma_routed_writes(env: spec_fn(Vreg) -> u64, f: Seq<(Vreg, IrTy, Val)>, t0: u32, k: int)
    requires
        regs_below(f, t0),
        distinct_dsts(f),
        t0 + f.len() <= u32::MAX,
        0 <= k <= f.len(),
    ensures
        forall|r: Vreg|
            r < t0 ==> #[trigger] run_moves(env, routed_moves(f, t0).take(f.len() + k))(r) == if exists|
                i: int,
            | 0 <= i < k && f[i].0 == r {
                val_bits(f[choose|i: int| 0 <= i < k && f[i].0 == r].2, env)
            } else {
                env(r)
            },
    decreases k,
{
    let ms = routed_moves(f, t0);
    if k == 0 {
        lemma_routed_reads(env, f, t0, f.len() as int);
    } else {
        lemma_routed_writes(env, f, t0, k - 1);
        lemma_routed_reads(env, f, t0, f.len() as int);
        let n = f.len() as int;
        assert(ms.take(n + k).drop_last() =~= ms.take(n + k - 1));
        assert(ms.take(n + k).last() == ms[n + k - 1]);
        let prev = run_moves(env, ms.take(n + k - 1));
        let t = (t0 + (k - 1)) as u32;
        assert(prev(t) == val_bits(f[k - 1].2, env)) by {
            if k - 1 == 0 {
                assert(ms.take(n + k - 1) =~= ms.take(n));
            }
            lemma_routed_prefix_temp(env, f, t0, k - 1);
        }
        assert forall|r: Vreg| r < t0 implies #[trigger] run_moves(env, ms.take(n + k))(r) == if exists|
            i: int,
        | 0 <= i < k && f[i].0 == r {
            val_bits(f[choose|i: int| 0 <= i < k && f[i].0 == r].2, env)
        } else {
            env(r)
        } by {
            let m = IrInst::Mov { dst: f[k - 1].0, ty: f[k - 1].1, src: Val::Reg(t) };
            assert(ms[n + k - 1] == m);
            assert(run_moves(env, ms.take(n + k)) == step_move(prev, m));
            assert(run_moves(env, ms.take(n + k))(r) == if r == f[k - 1].0 {
                prev(t)
            } else {
                prev(r)
            });
            if r == f[k - 1].0 {
                let i = choose|i: int| 0 <= i < k && f[i].0 == r;
                assert(i == k - 1);
            } else if exists|i: int| 0 <= i < k && f[i].0 == r {
                let i = choose|i: int| 0 <= i < k && f[i].0 == r;
                assert(i < k - 1);
                let i1 = choose|i1: int| 0 <= i1 < k - 1 && f[i1].0 == r;
                assert(i1 == i);
            }
        }
    }
}

/// The fresh registers not yet overwritten keep what the first half stored.
proof fn lemma_routed_prefix_temp(env: spec_fn(Vreg) -> u64, f: Seq<(Vreg, IrTy, Val)>, t0: u32, k: int)
    requires
        regs_below(f, t0),
        t0 + f.len() <= u32::MAX,
        0 <= k < f.len(),
    ensures
        run_moves(env, routed_moves(f, t0).take(f.len() + k))((t0 + k) as u32) == val_bits(f[k].2, env),
    decreases k,
{
    let ms = routed_moves(f, t0);
    let n = f.len() as int;
    lemma_routed_reads(env, f, t0, n);
    lemma_routed_prefix_temp_rec(env, f, t0, k, k);
}

proof fn lemma_routed_prefix_temp_rec(
    env: spec_fn(Vreg) -> u64,
    f: Seq<(Vreg, IrTy, Val)>,
    t0: u32,
    k: int,
    m: int,
)
    requires
        regs_below(f, t0),
        t0 + f.len() <= u32::MAX,
        0 <= k < f.len(),
        0 <= m <= k,
    ensures
        run_moves(env, routed_moves(f, t0).take(f.len() + m))((t0 + k) as u32) == val_bits(f[k].2, env),
    decreases m,
{
    let ms = routed_moves(f, t0);
    let n = f.len() as int;
    if m == 0 {
        lemma_routed_reads(env, f, t0, n);
    } else {
        lemma_routed_prefix_temp_rec(env, f, t0, k, m - 1);
        assert(ms.take(n + m).drop_last() =~= ms.take(n + m - 1));
        assert(ms.take(n + m).last() == ms[n + m - 1]);
        assert(f[m - 1].0 < t0);
    }
}

/// How many fresh registers sequencing `copies` takes: none when no copy lies
/// on a cycle, else one for each copy that is not a self-copy.
pub open spec fn fresh_for(copies: Seq<(Vreg, IrTy, Val)>) -> nat {
    if acyclic_copies(without_self_copies(copies)) {
        0
    } else {
        without_self_copies(copies).len()
    }
}

/// Sequences a set of parallel copies (`dst_i = src_i`, all conceptually
/// simultaneous) into `Mov`s. A copy whose source is another copy's destination
/// must run first; with no cycle among these constraints the copies are emitted as
/// direct moves in Kahn's order over these constraints. A cycle (a swap `a=b; b=a`, or
/// longer) is broken by routing every source through a fresh register drawn from
/// `next_vreg`. Self-copies (`d = d`) are dropped.
#[verifier::spinoff_prover]
pub fn sequence_copies(copies: &[(Vreg, IrTy, Val)], next_vreg: &mut u32) -> (movs: Vec<IrInst>)
    requires
        copies.len() <= u32::MAX,
        *old(next_vreg) + fresh_for(copies@) <= u32::MAX,
    ensures
        *final(next_vreg) == *old(next_vreg) + fresh_for(copies@),
        ({
            let f = without_self_copies(copies@);
            let order = kahn_order(copy_edges(f));
            acyclic_copies(f) ==> {
                &&& is_permutation(order, f.len() as int)
                &&& respects_edges(copy_edges(f), order)
                &&& movs@ == moves_in_order(f, order)
            }
        }),
        ({
            let f = without_self_copies(copies@);
            !acyclic_copies(f) ==> *final(next_vreg) == *old(next_vreg) + f.len() && movs@
                == routed_moves(f, *old(next_vreg))
        }),
        forall|p: int| 0 <= p < movs.len() ==> (#[trigger] movs@[p]) is Mov,
        distinct_dsts(copies@) && regs_below(copies@, *old(next_vreg)) ==> forall|
            env: spec_fn(Vreg) -> u64,
            r: Vreg,
        |
            r < *old(next_vreg) ==> #[trigger] run_moves(env, movs@)(r) == parallel_copy(env, copies@, r),
{
    let ghost pred = |c: (Vreg, IrTy, Val)| !is_self_copy(c);
    // Drop no-op self-copies (`dst = dst`); they constrain nothing and need no move.
    let mut f: Vec<(Vreg, IrTy, Val)> = Vec::new();
    let ghost mut map: Seq<int> = Seq::empty();
    let mut i: usize = 0;
    while i < copies.len()
        invariant
            i <= copies.len(),
            pred == (|c: (Vreg, IrTy, Val)| !is_self_copy(c)),
            f@ == copies@.take(i as int).filter(pred),
            f.len() <= i,
            map.len() == f.len(),
            forall|k: int| 0 <= k < f.len() ==> 0 <= #[trigger] map[k] < i && f@[k] == copies@[map[k]],
            forall|k: int, l: int| 0 <= k < l < f.len() ==> map[k] < map[l],
            forall|m: int| 0 <= m < i && !is_self_copy(#[trigger] copies@[m]) ==> exists|k: int|
                0 <= k < f.len() && map[k] == m,
        decreases copies.len() - i,
    {
        let c = copies[i];
        proof {
            copies@.take(i as int).lemma_filter_push(c, pred);
            assert(copies@.take(i + 1) =~= copies@.take(i as int).push(c));
        }
        let ghost old_f = f@;
        let ghost old_map = map;
        assert(pred(c) <==> !is_self_copy(c));
        if c.2 != Val::Reg(c.0) {
            f.push(c);
            proof {
                map = map.push(i as int);
            }
        }
        i += 1;
        proof {
            assert forall|m: int| 0 <= m < i && !is_self_copy(#[trigger] copies@[m]) implies exists|k: int|
                0 <= k < f.len() && map[k] == m by {
                if m < i - 1 {
                    let k = choose|k: int| 0 <= k < old_f.len() && old_map[k] == m;
                    assert(map[k] == m);
                } else {
                    assert(map[f.len() - 1] == m);
                }
            }
        }
    }
    proof {
        assert(copies@.take(copies.len() as int) =~= copies@);
    }
    let ghost fs = f@;
    if f.len() == 0 {
        let movs: Vec<IrInst> = Vec::new();
        proof {
            let order: Seq<usize> = Seq::empty();
            assert(movs@ =~= moves_in_order(fs, order));
            assert(respects_edges(copy_edges(fs), order));
            assert forall|env: spec_fn(Vreg) -> u64, r: Vreg|
                distinct_dsts(copies@) && regs_below(copies@, *old(next_vreg)) && r < *old(
                    next_vreg,
                ) implies #[trigger] run_moves(env, movs@)(r) == parallel_copy(env, copies@, r) by {
                lemma_filtered_parallel(env, copies@, fs, map, r);
                lemma_parallel_copy_untouched(env, fs, r);
            }
        }
        return movs;
    }
    let n = f.len();
    // Edge `i -> j` (i before j) when copy i's source is copy j's destination.
    let mut edges: Vec<Option<usize>> = Vec::new();
    let mut k: usize = 0;
    while k < n
        invariant
            k <= n,
            n == f.len(),
            edges.len() == k,
            forall|i: int| #![trigger edges@[i]] 0 <= i < k ==> (edges@[i] matches Some(j) ==> j < n),
            forall|i: int, j: int|
                0 <= i < k && 0 <= j < n && i != j && f@[i].2 == Val::Reg(f@[j].0) && distinct_dsts(f@)
                    ==> edges@[i] == Some(j as usize),
            forall|i: int| 0 <= i < k ==> edges@[i] == #[trigger] copy_edges(f@)[i],
        decreases n - k,
    {
        let e = match f[k].2 {
            Val::Reg(s) => match last_writer(&f, s) {
                Some(j) => if j != k {
                    Some(j)
                } else {
                    None
                },
                None => None,
            },
            _ => None,
        };
        assert(e == copy_edges(f@)[k as int]);
        edges.push(e);
        k += 1;
    }
    proof {
        assert(edges@ =~= copy_edges(fs));
    }
    let order = topo_order(&edges);
    if order.len() == n {
        // Acyclic: emit direct moves in dependency order — no temporaries.
        let mut movs: Vec<IrInst> = Vec::new();
        let mut p: usize = 0;
        while p < n
            invariant
                p <= n,
                n == f.len(),
                order.len() == n,
                forall|q: int| 0 <= q < order.len() ==> order@[q] < n,
                movs@ == moves_in_order(f@, order@).take(p as int),
            decreases n - p,
        {
            let i = order[p];
            let (dst, ty, src) = f[i];
            movs.push(IrInst::Mov { dst, ty, src });
            p += 1;
            proof {
                assert(movs@ =~= moves_in_order(f@, order@).take(p as int));
            }
        }
        proof {
            assert(moves_in_order(f@, order@).take(n as int) =~= moves_in_order(f@, order@));
            assert(forall|p: int| 0 <= p < movs.len() ==> (#[trigger] movs@[p]) is Mov);
            assert(is_permutation(order@, fs.len() as int));
            assert(respects_edges(copy_edges(fs), order@));
            assert forall|j: usize| j < fs.len() implies !on_cycle(copy_edges(fs), j) by {
                lemma_ordered_acyclic(edges@, order@, j);
            }
            assert forall|env: spec_fn(Vreg) -> u64, r: Vreg|
                distinct_dsts(copies@) && regs_below(copies@, *old(next_vreg)) && r < *old(
                    next_vreg,
                ) implies #[trigger] run_moves(env, movs@)(r) == parallel_copy(env, copies@, r) by {
                lemma_filtered_parallel(env, copies@, fs, map, r);
                lemma_ordered_moves(env, fs, edges@, order@, n as int);
                assert(after_prefix(env, fs, order@, n as int, r) == parallel_copy(env, fs, r)) by {
                    if exists|q: int| 0 <= q < n && fs[order@[q] as int].0 == r {
                        let q = choose|q: int| 0 <= q < n && fs[order@[q] as int].0 == r;
                        lemma_parallel_copy_writer(env, fs, order@[q] as int);
                    } else {
                        assert forall|j: int| 0 <= j < fs.len() implies fs[j].0 != r by {
                            lemma_permutation_covers(order@, n as int, j);
                            let q = choose|q: int| 0 <= q < order.len() && order@[q] == j;
                            assert(fs[order@[q] as int].0 != r);
                        }
                        lemma_parallel_copy_untouched(env, fs, r);
                    }
                }
            }
        }
        return movs;
    }
    // A cycle remains: route every source through a fresh temporary, then write every
    // destination from its temporary. Correct for any dependency pattern (swaps, cycles).
    proof {
        if acyclic_copies(fs) {
            assert forall|j: usize| j < n implies #[trigger] order@.contains(j) by {
                assert(!on_cycle(edges@, j));
            }
            lemma_covering_len(order@, n);
        }
        assert(fresh_for(copies@) == n);
    }
    let t0 = *next_vreg;
    let mut movs: Vec<IrInst> = Vec::new();
    let mut temps: Vec<u32> = Vec::new();
    let mut q: usize = 0;
    while q < n
        invariant
            q <= n,
            n == f.len(),
            t0 + n <= u32::MAX,
            *next_vreg == t0 + q,
            temps.len() == q,
            forall|i: int| 0 <= i < q ==> temps@[i] == t0 + i,
            movs@ == routed_moves(f@, t0).take(q as int),
        decreases n - q,
    {
        let (_, ty, src) = f[q];
        let t = *next_vreg;
        *next_vreg += 1;
        movs.push(IrInst::Mov { dst: t, ty, src });
        temps.push(t);
        q += 1;
        proof {
            assert(movs@ =~= routed_moves(f@, t0).take(q as int));
        }
    }
    let mut w: usize = 0;
    while w < n
        invariant
            w <= n,
            n == f.len(),
            temps.len() == n,
            forall|i: int| 0 <= i < n ==> temps@[i] == t0 + i,
            movs@ == routed_moves(f@, t0).take(n + w),
        decreases n - w,
    {
        let (dst, ty, _) = f[w];
        movs.push(IrInst::Mov { dst, ty, src: Val::Reg(temps[w]) });
        w += 1;
        proof {
            assert(movs@ =~= routed_moves(f@, t0).take(n + w));
        }
    }
    proof {
        assert(routed_moves(fs, t0).take(2 * n) =~= routed_moves(fs, t0));
        assert forall|p: int| 0 <= p < movs.len() implies (#[trigger] movs@[p]) is Mov by {
            if p < n {
                assert(movs@[p] == routed_moves(fs, t0)[p]);
            } else {
                assert(movs@[p] == routed_moves(fs, t0)[p]);
            }
        }
        assert forall|env: spec_fn(Vreg) -> u64, r: Vreg|
            distinct_dsts(copies@) && regs_below(copies@, *old(next_vreg)) && r < *old(
                next_vreg,
            ) implies #[trigger] run_moves(env, movs@)(r) == parallel_copy(env, copies@, r) by {
            lemma_filtered_parallel(env, copies@, fs, map, r);
            lemma_routed_writes(env, fs, t0, n as int);
            if exists|i: int| 0 <= i < n && fs[i].0 == r {
                let i = choose|i: int| 0 <= i < n && fs[i].0 == r;
                lemma_parallel_copy_writer(env, fs, i);
            } else {
                lemma_parallel_copy_untouched(env, fs, r);
            }
        }
    }
    movs
}

/// Dropping the self-copies keeps the parallel-copy meaning, and keeps the
/// destinations distinct and the registers in range.
proof fn lemma_filtered_parallel(
    env: spec_fn(Vreg) -> u64,
    copies: Seq<(Vreg, IrTy, Val)>,
    f: Seq<(Vreg, IrTy, Val)>,
    map: Seq<int>,
    r: Vreg,
)
    requires
        map.len() == f.len(),
        forall|k: int| 0 <= k < f.len() ==> 0 <= #[trigger] map[k] < copies.len() && f[k] == copies[map[k]],
        forall|k: int, l: int| 0 <= k < l < f.len() ==> map[k] < map[l],
        forall|m: int| 0 <= m < copies.len() && !is_self_copy(#[trigger] copies[m]) ==> exists|k: int|
            0 <= k < f.len() && map[k] == m,
        forall|k: int| 0 <= k < f.len() ==> !is_self_copy(#[trigger] f[k]),
    ensures
        distinct_dsts(copies) ==> distinct_dsts(f),
        forall|b: u32| regs_below(copies, b) ==> #[trigger] regs_below(f, b),
        distinct_dsts(copies) ==> parallel_copy(env, copies, r) == parallel_copy(env, f, r),
{
    if distinct_dsts(copies) {
        assert forall|i: int, j: int| 0 <= i < f.len() && 0 <= j < f.len() && i != j implies f[i].0
            != f[j].0 by {
            if i < j {
                assert(map[i] < map[j]);
            } else {
                assert(map[j] < map[i]);
            }
        }
        if exists|m: int| 0 <= m < copies.len() && copies[m].0 == r {
            let m = choose|m: int| 0 <= m < copies.len() && copies[m].0 == r;
            lemma_parallel_copy_writer(env, copies, m);
            if is_self_copy(copies[m]) {
                assert forall|k: int| 0 <= k < f.len() implies f[k].0 != r by {
                    if f[k].0 == r {
                        assert(copies[map[k]].0 == copies[m].0);
                        assert(map[k] == m);
                    }
                }
                lemma_parallel_copy_untouched(env, f, r);
            } else {
                let k = choose|k: int| 0 <= k < f.len() && map[k] == m;
                lemma_parallel_copy_writer(env, f, k);
            }
        } else {
            lemma_parallel_copy_untouched(env, copies, r);
            assert forall|k: int| 0 <= k < f.len() implies f[k].0 != r by {
                assert(f[k] == copies[map[k]]);
            }
            lemma_parallel_copy_untouched(env, f, r);
        }
    }
    assert forall|b: u32| regs_below(copies, b) implies #[trigger] regs_below(f, b) by {
        assert forall|i: int| 0 <= i < f.len() implies {
            &&& f[i].0 < b
            &&& (f[i].2 matches Val::Reg(s) ==> s < b)
        } by {
            assert(f[i] == copies[map[i]]);
        }
    }
}

} // verus!
