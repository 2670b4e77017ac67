//! Scalar simplification of the IR, run on the backend path only: constant
//! folding of integer `Bin`/`Cmp` on immediates, algebraic identities, and
//! power-of-two strength reduction, then removal of trivial `phi` nodes.
//!
//! Every rewrite preserves the value an instruction computes under the IR's
//! 64-bit integer semantics (`int_bin`, `int_cmp`); an integer divide or modulo
//! by zero is never folded, so its trap stays where it was.
use crate::destruct::total_phis;
use crate::ir::{IrBinOp, IrBlock, IrCmpOp, IrFunc, IrInst, IrProgram, IrTerm, IrTy, Phi, Val, Vreg};
use vstd::arithmetic::power2::{lemma_pow2_strictly_increases, lemma_pow2_unfold};
use vstd::arithmetic::power2::pow2 as two_to;
use vstd::bits::{lemma_u64_shl_is_mul, lemma_u64_shr_is_div, low_bits_mask};
use vstd::prelude::*;
use vstd::pervasive::VecAdditionalExecFns;

verus! {

// ---- the IR's integer semantics ----

pub open spec fn abs_int(x: int) -> int {
    if x < 0 {
        -x
    } else {
        x
    }
}

/// Division rounding toward zero.
pub open spec fn trunc_div(a: int, b: int) -> int {
    let q = abs_int(a) / abs_int(b);
    if (a < 0) != (b < 0) {
        -q
    } else {
        q
    }
}

/// What an integer `Bin` computes at 64 bits: two's-complement wrapping
/// arithmetic, division toward zero (or unsigned), shifts by the amount modulo
/// 64; `None` for a divide or modulo by zero (a runtime trap).
pub open spec fn int_bin(op: IrBinOp, signed: bool, a: i64, b: i64) -> Option<i64> {
    match op {
        IrBinOp::Add => Some(vstd::wrapping::i64_specs::wrapping_add(a, b)),
        IrBinOp::Sub => Some(vstd::wrapping::i64_specs::wrapping_sub(a, b)),
        IrBinOp::Mul => Some((a * b) as i64),
        IrBinOp::Div => if b == 0 {
            None
        } else if signed {
            Some(trunc_div(a as int, b as int) as i64)
        } else {
            Some(((a as u64) / (b as u64)) as i64)
        },
        IrBinOp::Mod => if b == 0 {
            None
        } else if signed {
            Some((a - b * trunc_div(a as int, b as int)) as i64)
        } else {
            Some(((a as u64) % (b as u64)) as i64)
        },
        IrBinOp::BitAnd => Some(a & b),
        IrBinOp::BitOr => Some(a | b),
        IrBinOp::BitXor => Some(a ^ b),
        IrBinOp::Shl => Some(a << ((b as u32) % 64)),
        IrBinOp::Shr => if signed {
            Some(a >> ((b as u32) % 64))
        } else {
            Some(((a as u64) >> ((b as u32) % 64)) as i64)
        },
    }
}

/// What an integer `Cmp` yields: a signed or an unsigned comparison.
pub open spec fn int_compare(op: IrCmpOp, signed: bool, a: i64, b: i64) -> bool {
    let (x, y) = if signed {
        (a as int, b as int)
    } else {
        ((a as u64) as int, (b as u64) as int)
    };
    match op {
        IrCmpOp::Eq => x == y,
        IrCmpOp::Ne => x != y,
        IrCmpOp::Lt => x < y,
        IrCmpOp::Le => x <= y,
        IrCmpOp::Gt => x > y,
        IrCmpOp::Ge => x >= y,
    }
}

proof fn lemma_mul_wraps(x: i64, y: i64)
    ensures
        vstd::wrapping::i64_specs::signed_crop(x * y) == ((x * y) as i64),
{
    assert(vstd::wrapping::i64_specs::signed_crop(x * y) == ((x * y) as i64)) by (bit_vector);
}

proof fn lemma_nonzero_as_u64(b: i64)
    ensures
        b != 0 ==> (b as u64) != 0,
{
    lemma_u64_cast_injective(b, 0);
}

/// `|a|` as an unsigned 64-bit number.
fn magnitude(a: i64) -> (r: u64)
    ensures
        r == abs_int(a as int),
{
    if a < 0 {
        (0i128 - a as i128) as u64
    } else {
        a as u64
    }
}

/// Signed division toward zero, wrapping `i64::MIN / -1` to `i64::MIN`.
fn signed_div(a: i64, b: i64) -> (r: i64)
    requires
        b != 0,
    ensures
        r == trunc_div(a as int, b as int) as i64,
{
    let ua = magnitude(a);
    let ub = magnitude(b);
    let q = ua / ub;
    proof {
        assert(q <= ua) by (nonlinear_arith)
            requires
                ub >= 1,
                q == ua / ub,
        ;
    }
    if (a < 0) != (b < 0) {
        if q == 0x8000_0000_0000_0000u64 {
            proof {
                assert((-0x8000_0000_0000_0000int) as i64 == i64::MIN);
            }
            i64::MIN
        } else {
            -(q as i64)
        }
    } else if q == 0x8000_0000_0000_0000u64 {
        proof {
            assert(0x8000_0000_0000_0000int as i64 == i64::MIN) by (bit_vector);
        }
        i64::MIN
    } else {
        q as i64
    }
}

/// Signed remainder (sign of the dividend); `i64::MIN % -1` is 0.
fn signed_rem(a: i64, b: i64) -> (r: i64)
    requires
        b != 0,
    ensures
        r == (a - b * trunc_div(a as int, b as int)) as i64,
{
    let ua = magnitude(a);
    let ub = magnitude(b);
    let m = ua % ub;
    proof {
        let q: u64 = ua / ub;
        assert(ua == q * ub + m && 0 <= m < ub) by (nonlinear_arith)
            requires
                ub >= 1,
                q == ua / ub,
                m == ua % ub,
        ;
        assert(abs_int(a as int) == q * abs_int(b as int) + m);
        if b < 0 {
            assert(b * trunc_div(a as int, b as int) == (if a < 0 { -(q * ub) } else { q * ub })) by (nonlinear_arith)
                requires
                    b < 0,
                    ub == -b,
                    trunc_div(a as int, b as int) == (if a < 0 { q as int } else { -q }),
            ;
        } else {
            assert(b * trunc_div(a as int, b as int) == (if a < 0 { -(q * ub) } else { q * ub })) by (nonlinear_arith)
                requires
                    b > 0,
                    ub == b,
                    trunc_div(a as int, b as int) == (if a < 0 { -q } else { q as int }),
            ;
        }
    }
    if a < 0 {
        -(m as i64)
    } else {
        m as i64
    }
}

/// Folds an integer `Bin` on two constants; `None` for a divide or modulo by zero.
pub fn fold_int_bin(op: IrBinOp, signed: bool, a: i64, b: i64) -> (r: Option<i64>)
    ensures
        r == int_bin(op, signed, a, b),
{
    proof {
        lemma_nonzero_as_u64(b);
    }
    match op {
        IrBinOp::Add => Some(a.wrapping_add(b)),
        IrBinOp::Sub => Some(a.wrapping_sub(b)),
        IrBinOp::Mul => {
            proof {
                lemma_mul_wraps(a, b);
            }
            Some(a.wrapping_mul(b))
        },
        IrBinOp::Div => if b == 0 {
            None
        } else if signed {
            Some(signed_div(a, b))
        } else {
            Some(((a as u64) / (b as u64)) as i64)
        },
        IrBinOp::Mod => if b == 0 {
            None
        } else if signed {
            Some(signed_rem(a, b))
        } else {
            Some(((a as u64) % (b as u64)) as i64)
        },
        IrBinOp::BitAnd => Some(a & b),
        IrBinOp::BitOr => Some(a | b),
        IrBinOp::BitXor => Some(a ^ b),
        IrBinOp::Shl => Some(a.wrapping_shl(b as u32)),
        IrBinOp::Shr => if signed {
            Some(a.wrapping_shr(b as u32))
        } else {
            Some((a as u64).wrapping_shr(b as u32) as i64)
        },
    }
}

/// Folds an integer `Cmp` on two constants.
pub fn fold_int_compare(op: IrCmpOp, signed: bool, a: i64, b: i64) -> (r: bool)
    ensures
        r == int_compare(op, signed, a, b),
{
    if signed {
        match op {
            IrCmpOp::Eq => a == b,
            IrCmpOp::Ne => a != b,
            IrCmpOp::Lt => a < b,
            IrCmpOp::Le => a <= b,
            IrCmpOp::Gt => a > b,
            IrCmpOp::Ge => a >= b,
        }
    } else {
        let x = a as u64;
        let y = b as u64;
        match op {
            IrCmpOp::Eq => x == y,
            IrCmpOp::Ne => x != y,
            IrCmpOp::Lt => x < y,
            IrCmpOp::Le => x <= y,
            IrCmpOp::Gt => x > y,
            IrCmpOp::Ge => x >= y,
        }
    }
}


/// Folding a constant comparison gives the order of the two operands, read
/// as signed or as unsigned 64-bit integers: `Eq` and `Ne` are equality and
/// its negation, `Lt`, `Le`, `Gt` and `Ge` the strict and non-strict orders;
/// so `Le` holds of equal operands and differs from `Lt` exactly on them,
/// and `Gt`/`Ge` are `Lt`/`Le` with the operands swapped.
pub proof fn lemma_int_compare_is_order(signed: bool, a: i64, b: i64)
    ensures
        int_compare(IrCmpOp::Eq, signed, a, b) == (a == b),
        int_compare(IrCmpOp::Ne, signed, a, b) == (a != b),
        signed ==> int_compare(IrCmpOp::Lt, signed, a, b) == (a < b),
        signed ==> int_compare(IrCmpOp::Le, signed, a, b) == (a <= b),
        signed ==> int_compare(IrCmpOp::Gt, signed, a, b) == (a > b),
        signed ==> int_compare(IrCmpOp::Ge, signed, a, b) == (a >= b),
        !signed ==> int_compare(IrCmpOp::Lt, signed, a, b) == ((a as u64) < (b as u64)),
        !signed ==> int_compare(IrCmpOp::Le, signed, a, b) == ((a as u64) <= (b as u64)),
        !signed ==> int_compare(IrCmpOp::Gt, signed, a, b) == ((a as u64) > (b as u64)),
        !signed ==> int_compare(IrCmpOp::Ge, signed, a, b) == ((a as u64) >= (b as u64)),
        int_compare(IrCmpOp::Le, signed, a, b) == (int_compare(IrCmpOp::Lt, signed, a, b) || a == b),
        int_compare(IrCmpOp::Ge, signed, a, b) == (int_compare(IrCmpOp::Gt, signed, a, b) || a == b),
        int_compare(IrCmpOp::Gt, signed, a, b) == int_compare(IrCmpOp::Lt, signed, b, a),
        int_compare(IrCmpOp::Ge, signed, a, b) == int_compare(IrCmpOp::Le, signed, b, a),
        int_compare(IrCmpOp::Le, signed, a, a),
        !int_compare(IrCmpOp::Lt, signed, a, a),
{
    lemma_u64_cast_injective(a, b);
}

proof fn lemma_u64_cast_injective(a: i64, b: i64)
    ensures
        ((a as u64) == (b as u64)) == (a == b),
{
    assert(((a as u64) == (b as u64)) == (a == b)) by (bit_vector);
}

// ---- algebraic identities and strength reduction ----

/// The exponent `k` in `1..=62` with `c == 2^k`, if there is one.
pub open spec fn spec_pow2(c: i64) -> Option<i64> {
    if exists|k: int| 1 <= k <= 62 && c == #[trigger] two_to(k as nat) {
        Some((choose|k: int| 1 <= k <= 62 && c == #[trigger] two_to(k as nat) as int) as i64)
    } else {
        None
    }
}

proof fn lemma_pow2_injective(j: int, k: int)
    requires
        0 <= j,
        0 <= k,
        two_to(j as nat) == two_to(k as nat),
    ensures
        j == k,
{
    if j < k {
        lemma_pow2_strictly_increases(j as nat, k as nat);
    } else if k < j {
        lemma_pow2_strictly_increases(k as nat, j as nat);
    }
}

/// If `c` is `2^k` with `k` in `1..=62`, returns `k`. `1` (`2^0`, an identity
/// handled separately) and `2^63` (negative as an `i64`) are excluded.
pub fn pow2(c: i64) -> (r: Option<i64>)
    ensures
        r == spec_pow2(c),
        r matches Some(k) ==> 1 <= k <= 62 && c == two_to(k as nat),
{
    let mut k: i64 = 1;
    let mut p: i64 = 2;
    proof {
        lemma_pow2_unfold(1);
        assert(two_to(0) == 1) by {
            vstd::arithmetic::power2::lemma2_to64();
        }
    }
    while k <= 62
        invariant
            1 <= k <= 63,
            k <= 62 ==> p == two_to(k as nat),
            forall|j: int| 1 <= j < k ==> c != #[trigger] two_to(j as nat),
        decreases 63 - k,
    {
        if c == p {
            proof {
                let w = choose|j: int| 1 <= j <= 62 && c == #[trigger] two_to(j as nat) as int;
                assert(1 <= k <= 62 && c == two_to(k as nat) as int);
                lemma_pow2_injective(w, k as int);
            }
            return Some(k);
        }
        if k < 62 {
            proof {
                lemma_pow2_unfold((k + 1) as nat);
                vstd::arithmetic::power2::lemma2_to64();
                vstd::arithmetic::power2::lemma2_to64_rest();
                if k + 1 < 62 {
                    lemma_pow2_strictly_increases((k + 1) as nat, 62);
                }
            }
            p = p * 2;
        }
        k += 1;
    }
    None
}

/// The power-of-two exponent of an immediate operand.
pub open spec fn imm_pow2(v: Val) -> Option<i64> {
    match v {
        Val::ImmInt(c) => spec_pow2(c),
        _ => None,
    }
}

/// The value an operand holds under a register assignment `env`.
pub open spec fn val_of(env: spec_fn(Vreg) -> i64, v: Val) -> i64 {
    match v {
        Val::Reg(r) => env(r),
        Val::ImmInt(i) => i,
        Val::ImmF64(b) => b as i64,
    }
}

/// The integer a `Mov`, an integer `Bin` or an integer `Cmp` (0 or 1) computes
/// under `env`; `None` for a trap or another instruction.
pub open spec fn int_value(env: spec_fn(Vreg) -> i64, inst: IrInst) -> Option<i64> {
    match inst {
        IrInst::Mov { src, .. } => Some(val_of(env, src)),
        IrInst::Bin { op, signed, lhs, rhs, .. } => int_bin(op, signed, val_of(env, lhs), val_of(env, rhs)),
        IrInst::Cmp { op, signed, lhs, rhs, .. } => Some(
            if int_compare(op, signed, val_of(env, lhs), val_of(env, rhs)) {
                1
            } else {
                0
            },
        ),
        _ => None,
    }
}

/// The single replacement for the integer `Bin dst = lhs op rhs`, if an
/// identity (`x+0`, `x*1`, `x&-1`, `x&0`, …) or a power-of-two reduction
/// (`x*2^k`, unsigned `x/2^k` and `x%2^k`) applies.
pub open spec fn int_rewrite(dst: Vreg, op: IrBinOp, ty: IrTy, signed: bool, lhs: Val, rhs: Val) -> Option<IrInst> {
    let zero = Val::ImmInt(0);
    let one = Val::ImmInt(1);
    let all_ones = Val::ImmInt(-1i64);
    let mov = |src: Val| Some(IrInst::Mov { dst, ty, src });
    match op {
        IrBinOp::Add | IrBinOp::BitOr | IrBinOp::BitXor => if rhs == zero {
            mov(lhs)
        } else if lhs == zero {
            mov(rhs)
        } else {
            None
        },
        IrBinOp::Sub | IrBinOp::Shl | IrBinOp::Shr => if rhs == zero {
            mov(lhs)
        } else {
            None
        },
        IrBinOp::BitAnd => if rhs == all_ones {
            mov(lhs)
        } else if lhs == all_ones {
            mov(rhs)
        } else if rhs == zero || lhs == zero {
            mov(zero)
        } else {
            None
        },
        IrBinOp::Mul => if rhs == one {
            mov(lhs)
        } else if lhs == one {
            mov(rhs)
        } else if rhs == zero || lhs == zero {
            mov(zero)
        } else if imm_pow2(rhs) is Some {
            Some(IrInst::Bin { dst, op: IrBinOp::Shl, ty, signed, lhs, rhs: Val::ImmInt(imm_pow2(rhs)->0) })
        } else if imm_pow2(lhs) is Some {
            Some(IrInst::Bin { dst, op: IrBinOp::Shl, ty, signed, lhs: rhs, rhs: Val::ImmInt(imm_pow2(lhs)->0) })
        } else {
            None
        },
        IrBinOp::Div => if rhs == one {
            mov(lhs)
        } else if !signed && imm_pow2(rhs) is Some {
            Some(IrInst::Bin { dst, op: IrBinOp::Shr, ty, signed: false, lhs, rhs: Val::ImmInt(imm_pow2(rhs)->0) })
        } else {
            None
        },
        IrBinOp::Mod => if !signed && imm_pow2(rhs) is Some {
            Some(IrInst::Bin { dst, op: IrBinOp::BitAnd, ty, signed: false, lhs, rhs: Val::ImmInt((rhs->ImmInt_0 - 1) as i64) })
        } else {
            None
        },
    }
}

proof fn lemma_pow2_not_one()
    ensures
        spec_pow2(1) is None,
{
    if exists|k: int| 1 <= k <= 62 && 1 == #[trigger] two_to(k as nat) {
        let k = choose|k: int| 1 <= k <= 62 && 1 == #[trigger] two_to(k as nat);
        lemma_pow2_strictly_increases(0, k as nat);
        vstd::arithmetic::power2::lemma2_to64();
    }
}

/// A signed 64-bit divide by `2^k` (`k` in `1..=62`).
pub open spec fn signed_div_pow2(op: IrBinOp, ty: IrTy, signed: bool, rhs: Val) -> bool {
    op == IrBinOp::Div && signed && ty == IrTy::I64 && imm_pow2(rhs) is Some
}

/// `dst = x / 2^k` rounded toward zero, by the bias sequence
/// `(x + ((x s>> 63) u>> (64 - k))) s>> k` through the fresh registers
/// `t`, `t + 1` and `t + 2`.
pub open spec fn bias_div_seq(dst: Vreg, ty: IrTy, x: Val, k: i64, t: u32) -> Seq<IrInst> {
    seq![
        IrInst::Bin { dst: t, op: IrBinOp::Shr, ty, signed: true, lhs: x, rhs: Val::ImmInt(63) },
        IrInst::Bin { dst: (t + 1) as u32, op: IrBinOp::Shr, ty, signed: false, lhs: Val::Reg(t), rhs: Val::ImmInt((64 - k) as i64) },
        IrInst::Bin { dst: (t + 2) as u32, op: IrBinOp::Add, ty, signed: true, lhs: x, rhs: Val::Reg((t + 1) as u32) },
        IrInst::Bin { dst, op: IrBinOp::Shr, ty, signed: true, lhs: Val::Reg((t + 2) as u32), rhs: Val::ImmInt(k) },
    ]
}

/// The replacement for the integer `Bin dst = lhs op rhs`, with `t` the next
/// free register: the bias sequence for a signed 64-bit divide by `2^k` (when
/// three registers are still free), else the single rewrite of `int_rewrite`.
pub open spec fn int_rewrite_seq(dst: Vreg, op: IrBinOp, ty: IrTy, signed: bool, lhs: Val, rhs: Val, t: u32) -> Option<
    Seq<IrInst>,
> {
    if signed_div_pow2(op, ty, signed, rhs) {
        if t <= u32::MAX - 3 {
            Some(bias_div_seq(dst, ty, lhs, imm_pow2(rhs)->0, t))
        } else {
            None
        }
    } else {
        match int_rewrite(dst, op, ty, signed, lhs, rhs) {
            Some(i) => Some(seq![i]),
            None => None,
        }
    }
}

/// The next free register after the rewrite of `Bin _ = _ op rhs` from `t`.
pub open spec fn rewrite_fresh(op: IrBinOp, ty: IrTy, signed: bool, rhs: Val, t: u32) -> u32 {
    if signed_div_pow2(op, ty, signed, rhs) && t <= u32::MAX - 3 {
        (t + 3) as u32
    } else {
        t
    }
}

/// Rewrites an integer `Bin` by an identity or a power-of-two reduction,
/// appending the replacement to `out`; `false` (and `out` unchanged) when none
/// applies. A signed 64-bit divide by `2^k` becomes the round-toward-zero bias
/// sequence, computed through three fresh registers taken from `next_vreg`.
pub fn try_int_rewrite(
    dst: Vreg,
    op: IrBinOp,
    ty: IrTy,
    signed: bool,
    lhs: Val,
    rhs: Val,
    out: &mut Vec<IrInst>,
    next_vreg: &mut u32,
) -> (r: bool)
    ensures
        r == int_rewrite_seq(dst, op, ty, signed, lhs, rhs, *old(next_vreg)) is Some,
        r ==> final(out)@ == old(out)@ + int_rewrite_seq(dst, op, ty, signed, lhs, rhs, *old(next_vreg))->0,
        !r ==> final(out)@ == old(out)@,
        *final(next_vreg) == rewrite_fresh(op, ty, signed, rhs, *old(next_vreg)),
{
    proof {
        if !signed_div_pow2(op, ty, signed, rhs) && int_rewrite(dst, op, ty, signed, lhs, rhs) is Some {
            assert(seq![int_rewrite(dst, op, ty, signed, lhs, rhs)->0] == int_rewrite_seq(dst, op, ty, signed, lhs, rhs, *next_vreg)->0);
        }
    }
    let ghost out0 = out@;
    let zero = Val::ImmInt(0);
    match op {
        IrBinOp::Add | IrBinOp::BitOr | IrBinOp::BitXor => {
            if rhs == zero {
                out.push(IrInst::Mov { dst, ty, src: lhs });
                return true;
            }
            if lhs == zero {
                out.push(IrInst::Mov { dst, ty, src: rhs });
                return true;
            }
        },
        IrBinOp::Sub | IrBinOp::Shl | IrBinOp::Shr => {
            if rhs == zero {
                out.push(IrInst::Mov { dst, ty, src: lhs });
                return true;
            }
        },
        IrBinOp::BitAnd => {
            if rhs == Val::ImmInt(-1) {
                out.push(IrInst::Mov { dst, ty, src: lhs });
                return true;
            }
            if lhs == Val::ImmInt(-1) {
                out.push(IrInst::Mov { dst, ty, src: rhs });
                return true;
            }
            if rhs == zero || lhs == zero {
                out.push(IrInst::Mov { dst, ty, src: zero });
                return true;
            }
        },
        IrBinOp::Mul => {
            if rhs == Val::ImmInt(1) {
                out.push(IrInst::Mov { dst, ty, src: lhs });
                return true;
            }
            if lhs == Val::ImmInt(1) {
                out.push(IrInst::Mov { dst, ty, src: rhs });
                return true;
            }
            if rhs == zero || lhs == zero {
                out.push(IrInst::Mov { dst, ty, src: zero });
                return true;
            }
            // x * 2^k: the low 64 bits of the product are x << k, signed or not.
            if let Val::ImmInt(c) = rhs {
                if let Some(k) = pow2(c) {
                    out.push(IrInst::Bin { dst, op: IrBinOp::Shl, ty, signed, lhs, rhs: Val::ImmInt(k) });
                    return true;
                }
            }
            if let Val::ImmInt(c) = lhs {
                if let Some(k) = pow2(c) {
                    out.push(IrInst::Bin { dst, op: IrBinOp::Shl, ty, signed, lhs: rhs, rhs: Val::ImmInt(k) });
                    return true;
                }
            }
        },
        IrBinOp::Div => {
            if rhs == Val::ImmInt(1) {
                proof {
                    lemma_pow2_not_one();
                    assert(int_rewrite_seq(dst, op, ty, signed, lhs, rhs, *old(next_vreg))->0 == seq![
                        int_rewrite(dst, op, ty, signed, lhs, rhs)->0,
                    ]);
                }
                out.push(IrInst::Mov { dst, ty, src: lhs });
                return true;
            }
            // Unsigned x / 2^k is one logical shift; a signed 64-bit one adds the
            // rounding bias first.
            if let Val::ImmInt(c) = rhs {
                if let Some(k) = pow2(c) {
                    if !signed {
                        out.push(IrInst::Bin { dst, op: IrBinOp::Shr, ty, signed: false, lhs, rhs: Val::ImmInt(k) });
                        return true;
                    }
                    if matches!(ty, IrTy::I64) && *next_vreg <= u32::MAX - 3 {
                        let t = *next_vreg;
                        out.push(IrInst::Bin { dst: t, op: IrBinOp::Shr, ty, signed: true, lhs, rhs: Val::ImmInt(63) });
                        out.push(
                            IrInst::Bin {
                                dst: t + 1,
                                op: IrBinOp::Shr,
                                ty,
                                signed: false,
                                lhs: Val::Reg(t),
                                rhs: Val::ImmInt(64 - k),
                            },
                        );
                        out.push(
                            IrInst::Bin { dst: t + 2, op: IrBinOp::Add, ty, signed: true, lhs, rhs: Val::Reg(t + 1) },
                        );
                        out.push(IrInst::Bin { dst, op: IrBinOp::Shr, ty, signed: true, lhs: Val::Reg(t + 2), rhs: Val::ImmInt(k) });
                        *next_vreg = t + 3;
                        proof {
                            assert(out@ =~= out0 + bias_div_seq(dst, ty, lhs, k, t));
                        }
                        return true;
                    }
                }
            }
        },
        IrBinOp::Mod => {
            // Unsigned x % 2^k is a mask; a signed modulo stays as it is.
            if let Val::ImmInt(c) = rhs {
                if pow2(c).is_some() {
                    if !signed {
                        proof {
                            assert(c >= 2) by {
                                let k = spec_pow2(c)->0;
                                lemma_pow2_strictly_increases(0, k as nat);
                                vstd::arithmetic::power2::lemma2_to64();
                            }
                        }
                        out.push(IrInst::Bin { dst, op: IrBinOp::BitAnd, ty, signed: false, lhs, rhs: Val::ImmInt(c - 1) });
                        return true;
                    }
                }
            }
        },
    }
    false
}


/// `2^k` as a left shift of one.
proof fn lemma_pow2_is_shl(k: i64)
    requires
        1 <= k <= 62,
    ensures
        two_to(k as nat) == (1i64 << (k as u32)) as int,
        two_to(k as nat) == (1u64 << (k as u64)) as int,
{
    vstd::bits::lemma_u64_pow2_no_overflow(k as nat);
    lemma_u64_shl_is_mul(1u64, k as u64);
    let s = k as u32;
    assert(s == k as u64);
    assert(((1i64 << s) as u64) == (1u64 << (s as u64)) && (1i64 << s) >= 0) by (bit_vector)
        requires
            1 <= s <= 62,
    ;
}

/// A rewrite of an integer `Bin` computes the same value as the original, for
/// every value of its register operands; the original is then never a trap.
#[verifier::spinoff_prover]
#[verifier::rlimit(30)]
pub proof fn lemma_int_rewrite_preserves_value(
    dst: Vreg,
    op: IrBinOp,
    ty: IrTy,
    signed: bool,
    lhs: Val,
    rhs: Val,
    env: spec_fn(Vreg) -> i64,
)
    requires
        int_rewrite(dst, op, ty, signed, lhs, rhs) is Some,
    ensures
        int_bin(op, signed, val_of(env, lhs), val_of(env, rhs)) is Some,
        int_value(env, int_rewrite(dst, op, ty, signed, lhs, rhs)->0) == int_bin(
            op,
            signed,
            val_of(env, lhs),
            val_of(env, rhs),
        ),
{
    let x = val_of(env, lhs);
    let y = val_of(env, rhs);
    let n = int_rewrite(dst, op, ty, signed, lhs, rhs)->0;
    let zero = Val::ImmInt(0);
    assert(x | 0 == x && 0 | y == y && x ^ 0 == x && 0 ^ y == y && x << 0u32 == x && x >> 0u32 == x && ((x as u64)
        >> 0u32) as i64 == x && x & -1i64 == x && -1i64 & y == y && x & 0 == 0 && 0 & y == 0 && ((x as u64) / 1u64) as i64
        == x) by (bit_vector);
    match op {
        IrBinOp::Mul => {
            assert(((x * 1) as i64) == x);
            assert(((1 * y) as i64) == y);
            assert(((x * 0) as i64) == 0);
            assert(((0 * y) as i64) == 0);
            if rhs != Val::ImmInt(1) && lhs != Val::ImmInt(1) && rhs != zero && lhs != zero {
                if imm_pow2(rhs) is Some {
                    let k = imm_pow2(rhs)->0;
                    let c = rhs->ImmInt_0;
                    lemma_pow2_is_shl(k);
                    let s = k as u32;
                    assert(((x * c) as i64) == (x << (s % 64))) by (bit_vector)
                        requires
                            1 <= s <= 62,
                            c == (1i64 << s),
                    ;
                } else {
                    let k = imm_pow2(lhs)->0;
                    let c = lhs->ImmInt_0;
                    lemma_pow2_is_shl(k);
                    let s = k as u32;
                    assert(((c * y) as i64) == (y << (s % 64))) by (bit_vector)
                        requires
                            1 <= s <= 62,
                            c == (1i64 << s),
                    ;
                }
            }
        },
        IrBinOp::Div => {
            if rhs != Val::ImmInt(1) {
                let k = imm_pow2(rhs)->0;
                let c = rhs->ImmInt_0;
                lemma_pow2_is_shl(k);
                let s = k as u32;
                vstd::arithmetic::power2::lemma_pow2_pos(k as nat);
                let u = x as u64;
                let ks = k as u64;
                lemma_u64_shr_is_div(u, ks);
                assert((u >> (s % 64)) == (u >> ks)) by (bit_vector)
                    requires
                        1 <= s <= 62,
                        ks == s as u64,
                ;
                assert(c as u64 == two_to(k as nat));
            }
        },
        IrBinOp::Mod => {
            let k = imm_pow2(rhs)->0;
            let c = rhs->ImmInt_0;
            lemma_pow2_is_shl(k);
            let s = k as u32;
            vstd::arithmetic::power2::lemma_pow2_pos(k as nat);
            let u = x as u64;
            let m = (c - 1) as i64;
            vstd::bits::lemma_u64_low_bits_mask_is_mod(u, k as nat);
            assert((x & m) == ((u & (m as u64)) as i64)) by (bit_vector)
                requires
                    u == x as u64,
            ;
            assert(m as u64 == (two_to(k as nat) - 1) as u64);
            assert(c as u64 == two_to(k as nat) as u64);
        },
        _ => {},
    }
}


/// The bias sequence divides toward zero: for `x` and `k` in `1..=62`, the
/// four steps of `bias_div_seq` compute what the signed divide by `2^k` does.
proof fn lemma_bias_arith(x: i64, k: i64)
    requires
        1 <= k <= 62,
    ensures
        int_bin(
            IrBinOp::Shr,
            true,
            int_bin(
                IrBinOp::Add,
                true,
                x,
                int_bin(IrBinOp::Shr, false, int_bin(IrBinOp::Shr, true, x, 63)->0, (64 - k) as i64)->0,
            )->0,
            k,
        ) == int_bin(IrBinOp::Div, true, x, two_to(k as nat) as i64),
{
    let s = k as u32;
    let s2 = ((64 - k) as i64) as u32;
    assert(s % 64 == s);
    assert(s2 == 64 - s);
    assert(s2 % 64 == s2);
    assert((63i64 as u32) % 64 == 63u32);
    lemma_pow2_is_shl(k);
    vstd::arithmetic::power2::lemma_pow2_pos(k as nat);
    let p = two_to(k as nat);
    assert(p as i64 as int == p);
    let a = x >> 63u32;
    let b = ((a as u64) >> s2) as i64;
    if x >= 0 {
        let u = x as u64;
        assert(a == 0i64 && b == 0 && (x >> s) == ((u >> (k as u64)) as i64)) by (bit_vector)
            requires
                x >= 0,
                a == x >> 63u32,
                b == ((a as u64) >> s2) as i64,
                u == x as u64,
                1 <= s <= 62,
                s as u64 == k as u64,
        ;
        vstd::bits::lemma_u64_shr_is_div(u, k as u64);
        assert(trunc_div(x as int, p as int) == (x as int) / (p as int));
    } else {
        let c = (x + ((((-1i64) as u64) >> s2) as i64)) as i64;
        let u = (0 - (x as u64)) as u64;
        let q = u >> s;
        assert({
            &&& a == -1i64
            &&& b == ((1u64 << s) - 1) as i64
            &&& (1u64 << s) == (1u64 << (k as u64))
            &&& c == (x + b) as i64
            &&& (c >> s) == (((0 - q) as u64) as i64)
            &&& u == ((-(x as int)) as u64)
            &&& q == (u >> (k as u64))
            &&& (q <= 0x8000000000000000u64 ==> ((0 - q) as u64) as i64 == (-(q as int)) as i64)
        }) by (bit_vector)
            requires
                x < 0,
                a == x >> 63u32,
                b == ((a as u64) >> s2) as i64,
                s2 == 64 - s,
                1 <= s <= 62,
                s as u64 == k as u64,
                c == (x + ((((-1i64) as u64) >> s2) as i64)) as i64,
                u == (0 - (x as u64)) as u64,
                q == u >> s,
        ;
        assert(b as int == p - 1);
        assert(vstd::wrapping::i64_specs::wrapping_add(x, b) == c);
        assert(u as int == -(x as int));
        vstd::bits::lemma_u64_shr_is_div(u, k as u64);
        assert(q as int == (u as int) / (p as int));
        assert(q as int <= 0x8000000000000000int);
        assert(trunc_div(x as int, p as int) == -((u as int) / (p as int)));
    }
}

/// Running `inst` on the register values `env`: an integer `Mov`, `Bin` or
/// `Cmp` writes what it computes into its destination; any other
/// instruction, or a trap, leaves `env` as it is.
pub open spec fn exec_int(env: spec_fn(Vreg) -> i64, inst: IrInst) -> spec_fn(Vreg) -> i64 {
    let d = match inst {
        IrInst::Mov { dst, .. } => dst,
        IrInst::Bin { dst, .. } => dst,
        IrInst::Cmp { dst, .. } => dst,
        _ => 0,
    };
    if int_value(env, inst) is Some {
        |r: Vreg| if r == d { int_value(env, inst)->0 } else { env(r) }
    } else {
        env
    }
}

/// Running `insts` one after another.
pub open spec fn exec_ints(env: spec_fn(Vreg) -> i64, insts: Seq<IrInst>) -> spec_fn(Vreg) -> i64
    decreases insts.len(),
{
    if insts.len() == 0 {
        env
    } else {
        exec_int(exec_ints(env, insts.drop_last()), insts.last())
    }
}

/// The bias sequence leaves in `dst` what the signed divide by `2^k` would,
/// for every value of `x`, and touches no register but `dst` and its three
/// fresh ones; `x` must not be one of those.
pub proof fn lemma_bias_div_preserves_value(
    dst: Vreg,
    ty: IrTy,
    x: Val,
    k: i64,
    t: u32,
    env: spec_fn(Vreg) -> i64,
)
    requires
        1 <= k <= 62,
        t <= u32::MAX - 3,
        x != Val::Reg(t),
        x != Val::Reg((t + 1) as u32),
        x != Val::Reg((t + 2) as u32),
    ensures
        int_bin(IrBinOp::Div, true, val_of(env, x), two_to(k as nat) as i64) is Some,
        exec_ints(env, bias_div_seq(dst, ty, x, k, t))(dst) == int_bin(
            IrBinOp::Div,
            true,
            val_of(env, x),
            two_to(k as nat) as i64,
        )->0,
        forall|r: Vreg|
            r != dst && r != t && r != (t + 1) as u32 && r != (t + 2) as u32 ==> #[trigger] exec_ints(
                env,
                bias_div_seq(dst, ty, x, k, t),
            )(r) == env(r),
{
    let sq = bias_div_seq(dst, ty, x, k, t);
    let xv = val_of(env, x);
    let e1 = exec_ints(env, sq.take(1));
    let e2 = exec_ints(env, sq.take(2));
    let e3 = exec_ints(env, sq.take(3));
    assert(sq.take(1).drop_last() =~= Seq::<IrInst>::empty());
    assert(sq.take(2).drop_last() =~= sq.take(1));
    assert(sq.take(3).drop_last() =~= sq.take(2));
    assert(sq.drop_last() =~= sq.take(3));
    assert(exec_ints(env, Seq::<IrInst>::empty()) == env);
    assert(sq.take(1).last() == sq[0]);
    assert(sq.take(2).last() == sq[1]);
    assert(sq.take(3).last() == sq[2]);
    let v1 = int_bin(IrBinOp::Shr, true, xv, 63)->0;
    assert(e1 == exec_int(env, sq[0]));
    assert(e1(t) == v1);
    assert(val_of(e1, x) == xv);
    let v2 = int_bin(IrBinOp::Shr, false, v1, (64 - k) as i64)->0;
    assert(e2 == exec_int(e1, sq[1]));
    assert(e2(t) == v1);
    assert(e2((t + 1) as u32) == v2);
    assert(val_of(e2, x) == xv);
    let v3 = int_bin(IrBinOp::Add, true, xv, v2)->0;
    assert(e3 == exec_int(e2, sq[2]));
    assert(e3((t + 2) as u32) == v3);
    lemma_bias_arith(xv, k);
    vstd::arithmetic::power2::lemma_pow2_pos(k as nat);
    lemma_pow2_is_shl(k);
    assert(two_to(k as nat) as i64 != 0);
    assert(exec_ints(env, sq) == exec_int(e3, sq[3]));
}

// ---- the pass ----

/// The simplified form of one instruction: an integer `Bin` or `Cmp` on two
/// constants becomes a `Mov` of the folded constant (a trapping divide stays),
/// else an integer `Bin` takes its identity or strength-reduced form; anything
/// else, including every float operation, is kept.
pub open spec fn simplified(inst: IrInst) -> IrInst {
    match inst {
        IrInst::Bin { dst, op, ty, signed, lhs, rhs } => if !ty.spec_is_float() && lhs is ImmInt && rhs is ImmInt
            && int_bin(op, signed, lhs->ImmInt_0, rhs->ImmInt_0) is Some {
            IrInst::Mov { dst, ty, src: Val::ImmInt(int_bin(op, signed, lhs->ImmInt_0, rhs->ImmInt_0)->0) }
        } else if !ty.spec_is_float() && int_rewrite(dst, op, ty, signed, lhs, rhs) is Some {
            int_rewrite(dst, op, ty, signed, lhs, rhs)->0
        } else {
            inst
        },
        IrInst::Cmp { dst, op, ty, signed, lhs, rhs } => if !ty.spec_is_float() && lhs is ImmInt && rhs is ImmInt {
            IrInst::Mov {
                dst,
                ty,
                src: Val::ImmInt(if int_compare(op, signed, lhs->ImmInt_0, rhs->ImmInt_0) { 1 } else { 0 }),
            }
        } else {
            inst
        },
        _ => inst,
    }
}

/// A `Bin` whose operands are two integers it can fold.
pub open spec fn foldable(inst: IrInst) -> bool {
    inst matches IrInst::Bin { op, signed, lhs, rhs, .. } && lhs is ImmInt && rhs is ImmInt && int_bin(
        op,
        signed,
        lhs->ImmInt_0,
        rhs->ImmInt_0,
    ) is Some
}

/// The simplified form of `inst` with `t` the next free register: the bias
/// sequence for a signed 64-bit divide by a power of two, else the single
/// instruction `simplified(inst)`.
pub open spec fn simplified_seq(inst: IrInst, t: u32) -> Seq<IrInst> {
    match inst {
        IrInst::Bin { dst, op, ty, signed, lhs, rhs } => if !ty.spec_is_float() && !foldable(inst) && signed_div_pow2(
            op,
            ty,
            signed,
            rhs,
        ) && t <= u32::MAX - 3 {
            bias_div_seq(dst, ty, lhs, imm_pow2(rhs)->0, t)
        } else {
            seq![simplified(inst)]
        },
        _ => seq![simplified(inst)],
    }
}

/// The next free register after simplifying `inst` from `t`.
pub open spec fn simplified_fresh(inst: IrInst, t: u32) -> u32 {
    match inst {
        IrInst::Bin { op, ty, signed, rhs, .. } => if !ty.spec_is_float() && !foldable(inst) {
            rewrite_fresh(op, ty, signed, rhs, t)
        } else {
            t
        },
        _ => t,
    }
}

/// Appends the simplified form of `inst` to `out`: one instruction, or the
/// bias sequence of a signed divide by a power of two, whose three fresh
/// registers come from `next_vreg`.
pub fn simplify_inst(inst: IrInst, out: &mut Vec<IrInst>, next_vreg: &mut u32)
    ensures
        final(out)@ == old(out)@ + simplified_seq(inst, *old(next_vreg)),
        *final(next_vreg) == simplified_fresh(inst, *old(next_vreg)),
{
    let ghost out0 = out@;
    let ghost t0 = *next_vreg;
    let ghost orig = inst;
    match inst {
        IrInst::Bin { dst, op, ty, signed, lhs, rhs } => {
            if !ty.is_float() {
                if let (Val::ImmInt(l), Val::ImmInt(r)) = (lhs, rhs) {
                    if let Some(v) = fold_int_bin(op, signed, l, r) {
                        out.push(IrInst::Mov { dst, ty, src: Val::ImmInt(v) });
                        proof {
                            assert(out@ =~= out0 + simplified_seq(orig, t0));
                        }
                        return;
                    }
                    // A divide or modulo by zero: keep it, so the trap survives.
                }
                if try_int_rewrite(dst, op, ty, signed, lhs, rhs, out, next_vreg) {
                    proof {
                        assert(!foldable(orig));
                        if !signed_div_pow2(op, ty, signed, rhs) {
                            assert(int_rewrite_seq(dst, op, ty, signed, lhs, rhs, t0)->0 == seq![int_rewrite(dst, op, ty, signed, lhs, rhs)->0]);
                        }
                        assert(out@ =~= out0 + simplified_seq(orig, t0));
                    }
                    return;
                }
            }
            out.push(IrInst::Bin { dst, op, ty, signed, lhs, rhs });
            proof {
                if !ty.spec_is_float() {
                    lemma_pow2_not_one();
                    assert(!foldable(orig));
                    assert(int_rewrite(dst, op, ty, signed, lhs, rhs) is None);
                    assert(simplified(orig) == orig);
                }
                assert(simplified_seq(orig, t0) == seq![orig]);
                assert(out@ =~= out0 + simplified_seq(orig, t0));
            }
        },
        IrInst::Cmp { dst, op, ty, signed, lhs, rhs } => {
            if !ty.is_float() {
                if let (Val::ImmInt(l), Val::ImmInt(r)) = (lhs, rhs) {
                    let v: i64 = if fold_int_compare(op, signed, l, r) {
                        1
                    } else {
                        0
                    };
                    out.push(IrInst::Mov { dst, ty, src: Val::ImmInt(v) });
                    proof {
                        assert(out@ =~= out0 + simplified_seq(orig, t0));
                    }
                    return;
                }
            }
            out.push(IrInst::Cmp { dst, op, ty, signed, lhs, rhs });
            proof {
                assert(out@ =~= out0 + simplified_seq(orig, t0));
            }
        },
        other => {
            out.push(other);
            proof {
                assert(out@ =~= out0 + simplified_seq(orig, t0));
            }
        },
    }
}

/// Simplification keeps what an integer instruction computes, for every value
/// of its register operands.
pub proof fn lemma_simplified_preserves_value(inst: IrInst, env: spec_fn(Vreg) -> i64)
    requires
        inst matches IrInst::Bin { ty, .. } ==> !ty.spec_is_float(),
        inst matches IrInst::Cmp { ty, .. } ==> !ty.spec_is_float(),
    ensures
        int_value(env, simplified(inst)) == int_value(env, inst),
{
    if let IrInst::Bin { dst, op, ty, signed, lhs, rhs } = inst {
        if !(lhs is ImmInt && rhs is ImmInt && int_bin(op, signed, lhs->ImmInt_0, rhs->ImmInt_0) is Some) {
            if int_rewrite(dst, op, ty, signed, lhs, rhs) is Some {
                lemma_int_rewrite_preserves_value(dst, op, ty, signed, lhs, rhs, env);
            }
        }
    }
}

/// The simplified forms of `insts`, in order, with `t` the first free
/// register.
pub open spec fn simp_seq(insts: Seq<IrInst>, t: u32) -> Seq<IrInst>
    decreases insts.len(),
{
    if insts.len() == 0 {
        seq![]
    } else {
        simp_seq(insts.drop_last(), t) + simplified_seq(insts.last(), simp_count(insts.drop_last(), t))
    }
}

/// The next free register after simplifying `insts` from `t`.
pub open spec fn simp_count(insts: Seq<IrInst>, t: u32) -> u32
    decreases insts.len(),
{
    if insts.len() == 0 {
        t
    } else {
        simplified_fresh(insts.last(), simp_count(insts.drop_last(), t))
    }
}

/// The next free register after simplifying the blocks `bs` from `t`.
pub open spec fn blocks_count(bs: Seq<IrBlock>, t: u32) -> u32
    decreases bs.len(),
{
    if bs.len() == 0 {
        t
    } else {
        simp_count(bs.last().insts@, blocks_count(bs.drop_last(), t))
    }
}

/// Every block's instructions replaced by their simplified forms, block by
/// block, the fresh registers numbered from `t` on.
pub open spec fn blocks_simplified(old: Seq<IrBlock>, new: Seq<IrBlock>, t: u32) -> bool {
    &&& new.len() == old.len()
    &&& forall|i: int|
        0 <= i < old.len() ==> {
            let (o, n) = (old[i], #[trigger] new[i]);
            &&& n.id == o.id
            &&& n.phis == o.phis
            &&& n.term == o.term
            &&& n.insts@ == simp_seq(o.insts@, blocks_count(old.take(i), t))
        }
}

/// Simplifies every instruction of `f`, in place; the fresh registers of the
/// bias sequences are numbered from `f.n_vregs` on.
pub fn run_func(f: &mut IrFunc)
    ensures
        blocks_simplified(old(f).blocks@, final(f).blocks@, old(f).n_vregs),
        final(f).n_vregs == blocks_count(old(f).blocks@, old(f).n_vregs),
        final(f).name == old(f).name,
        final(f).ret == old(f).ret,
        final(f).params == old(f).params,
        final(f).varargs == old(f).varargs,
        final(f).slots == old(f).slots,
        final(f).entry == old(f).entry,
{
    let ghost blocks0 = f.blocks@;
    let ghost n0 = f.n_vregs;
    let mut next = f.n_vregs;
    let mut bi: usize = 0;
    proof {
        assert(blocks0.take(0) =~= seq![]);
    }
    while bi < f.blocks.len()
        invariant
            bi <= f.blocks.len(),
            f.blocks.len() == blocks0.len(),
            f.name == old(f).name,
            f.ret == old(f).ret,
            f.params == old(f).params,
            f.varargs == old(f).varargs,
            f.slots == old(f).slots,
            f.entry == old(f).entry,
            f.n_vregs == old(f).n_vregs,
            n0 == old(f).n_vregs,
            blocks0 == old(f).blocks@,
            next == blocks_count(blocks0.take(bi as int), n0),
            forall|i: int|
                bi <= i < blocks0.len() ==> #[trigger] f.blocks@[i] == blocks0[i],
            forall|i: int|
                0 <= i < bi ==> {
                    let (o, n) = (blocks0[i], #[trigger] f.blocks@[i]);
                    &&& n.id == o.id
                    &&& n.phis == o.phis
                    &&& n.term == o.term
                    &&& n.insts@ == simp_seq(o.insts@, blocks_count(blocks0.take(i), n0))
                },
        decreases blocks0.len() - bi,
    {
        let mut insts: Vec<IrInst> = Vec::new();
        std::mem::swap(&mut insts, &mut f.blocks[bi].insts);
        let ghost orig = insts@;
        let ghost start = next;
        assert(orig == blocks0[bi as int].insts@);
        let mut out: Vec<IrInst> = Vec::new();
        let mut j: usize = 0;
        proof {
            assert(orig.take(0) =~= seq![]);
        }
        while j < insts.len()
            invariant
                j <= insts.len(),
                insts.len() == orig.len(),
                forall|k: int| j <= k < orig.len() ==> #[trigger] insts@[k] == orig[k],
                out@ == simp_seq(orig.take(j as int), start),
                next == simp_count(orig.take(j as int), start),
            decreases orig.len() - j,
        {
            let mut cur = IrInst::TryEnd;
            insts.set_and_swap(j, &mut cur);
            simplify_inst(cur, &mut out, &mut next);
            proof {
                assert(orig.take(j as int + 1).drop_last() =~= orig.take(j as int));
                assert(orig.take(j as int + 1).last() == orig[j as int]);
            }
            j += 1;
        }
        proof {
            assert(orig.take(orig.len() as int) =~= orig);
            assert(blocks0.take(bi as int + 1).drop_last() =~= blocks0.take(bi as int));
            assert(blocks0.take(bi as int + 1).last() == blocks0[bi as int]);
        }
        std::mem::swap(&mut out, &mut f.blocks[bi].insts);
        bi += 1;
    }
    proof {
        assert(blocks0.take(blocks0.len() as int) =~= blocks0);
    }
    f.n_vregs = next;
}


// ---- replacing the uses of a register ----

/// `v`, with `Reg(from)` replaced by `to`.
pub open spec fn replaced_val(v: Val, from: Vreg, to: Val) -> Val {
    if v == Val::Reg(from) {
        to
    } else {
        v
    }
}

pub open spec fn opt_subst(v: Option<Val>, from: Vreg, to: Val) -> Option<Val> {
    match v {
        Some(x) => Some(replaced_val(x, from, to)),
        None => None,
    }
}

/// An indirect callee's address operand with `Reg(from)` replaced by `to`.
pub open spec fn callee_substituted(o: crate::ir::Callee, n: crate::ir::Callee, from: Vreg, to: Val) -> bool {
    match o {
        crate::ir::Callee::Direct(name) => match n {
            crate::ir::Callee::Direct(n2) => n2@ == name@,
            _ => false,
        },
        crate::ir::Callee::Indirect(v) => n == crate::ir::Callee::Indirect(replaced_val(v, from, to)),
    }
}

/// `n` is `o` with every operand use of `Reg(from)` replaced by `to`; the
/// registers it defines and every other field are unchanged.
pub open spec fn inst_substituted(o: IrInst, n: IrInst, from: Vreg, to: Val) -> bool {
    match o {
        IrInst::Mov { dst, ty, src } => n == IrInst::Mov { dst, ty, src: replaced_val(src, from, to) },
        IrInst::Bin { dst, op, ty, signed, lhs, rhs } => n == IrInst::Bin {
            dst,
            op,
            ty,
            signed,
            lhs: replaced_val(lhs, from, to),
            rhs: replaced_val(rhs, from, to),
        },
        IrInst::Cmp { dst, op, ty, signed, lhs, rhs } => n == IrInst::Cmp {
            dst,
            op,
            ty,
            signed,
            lhs: replaced_val(lhs, from, to),
            rhs: replaced_val(rhs, from, to),
        },
        IrInst::Un { dst, op, ty, src } => n == IrInst::Un { dst, op, ty, src: replaced_val(src, from, to) },
        IrInst::Cast { dst, to: t, from: f, src } => n == IrInst::Cast { dst, to: t, from: f, src: replaced_val(src, from, to) },
        IrInst::Load { dst, ty, addr } => n == IrInst::Load { dst, ty, addr: replaced_val(addr, from, to) },
        IrInst::Store { ty, addr, val } => n == IrInst::Store {
            ty,
            addr: replaced_val(addr, from, to),
            val: replaced_val(val, from, to),
        },
        IrInst::PtrAdd { dst, base, index, stride } => n == IrInst::PtrAdd {
            dst,
            base: replaced_val(base, from, to),
            index: replaced_val(index, from, to),
            stride,
        },
        IrInst::Call { dst, ret, callee, args, sret, varargs } => match n {
            IrInst::Call { dst: d2, ret: r2, callee: c2, args: a2, sret: s2, varargs: v2 } => {
                &&& d2 == dst
                &&& r2 == ret
                &&& v2 == varargs
                &&& s2 == opt_subst(sret, from, to)
                &&& callee_substituted(callee, c2, from, to)
                &&& a2.len() == args.len()
                &&& forall|i: int|
                    0 <= i < args.len() ==> (#[trigger] a2@[i]).ty == args@[i].ty && a2@[i].val == replaced_val(
                        args@[i].val,
                        from,
                        to,
                    )
            },
            _ => false,
        },
        IrInst::Prim { dst, prim, args, width } => match n {
            IrInst::Prim { dst: d2, prim: p2, args: a2, width: w2 } => {
                &&& d2 == dst
                &&& p2 == prim
                &&& w2 == width
                &&& a2.len() == args.len()
                &&& forall|k: int| 0 <= k < args.len() ==> #[trigger] a2@[k] == replaced_val(args@[k], from, to)
            },
            _ => false,
        },
        IrInst::MemCpy { dst, src, len } => n == IrInst::MemCpy {
            dst: replaced_val(dst, from, to),
            src: replaced_val(src, from, to),
            len,
        },
        IrInst::MemZero { dst, len } => n == IrInst::MemZero { dst: replaced_val(dst, from, to), len },
        _ => n == o,
    }
}

/// `n` is `o` with the uses of `Reg(from)` in its operand replaced by `to`.
pub open spec fn term_substituted(o: IrTerm, n: IrTerm, from: Vreg, to: Val) -> bool {
    match o {
        IrTerm::CondBr { cond, t, f } => n == IrTerm::CondBr { cond: replaced_val(cond, from, to), t, f },
        IrTerm::Switch { val, ty, signed, cases, default } => match n {
            IrTerm::Switch { val: v2, ty: t2, signed: s2, cases: c2, default: d2 } => {
                &&& v2 == replaced_val(val, from, to)
                &&& t2 == ty
                &&& s2 == signed
                &&& c2@ == cases@
                &&& d2 == default
            },
            _ => false,
        },
        IrTerm::Ret(v) => n == IrTerm::Ret(opt_subst(v, from, to)),
        IrTerm::Throw(v) => n == IrTerm::Throw(replaced_val(v, from, to)),
        _ => n == o,
    }
}

fn subst_val(v: &mut Val, from: Vreg, to: Val)
    ensures
        *final(v) == replaced_val(*old(v), from, to),
{
    if *v == Val::Reg(from) {
        *v = to;
    }
}

fn subst_args(args: &mut Vec<crate::ir::ArgVal>, from: Vreg, to: Val)
    ensures
        final(args).len() == old(args).len(),
        forall|k: int|
            0 <= k < old(args).len() ==> (#[trigger] final(args)@[k]).ty == old(args)@[k].ty && final(args)@[k].val
                == replaced_val(old(args)@[k].val, from, to),
{
    let ghost old_args = args@;
    let mut i: usize = 0;
    while i < args.len()
        invariant
            i <= args.len(),
            args.len() == old_args.len(),
            old_args == old(args)@,
            forall|k: int|
                0 <= k < i ==> (#[trigger] args@[k]).ty == old_args[k].ty && args@[k].val == replaced_val(
                    old_args[k].val,
                    from,
                    to,
                ),
            forall|k: int| i <= k < args.len() ==> #[trigger] args@[k] == old_args[k],
        decreases args.len() - i,
    {
        let mut a = args[i];
        subst_val(&mut a.val, from, to);
        args.set(i, a);
        i += 1;
    }
}

fn subst_vals(args: &mut Vec<Val>, from: Vreg, to: Val)
    ensures
        final(args).len() == old(args).len(),
        forall|k: int| 0 <= k < old(args).len() ==> #[trigger] final(args)@[k] == replaced_val(old(args)@[k], from, to),
{
    let ghost old_args = args@;
    let mut i: usize = 0;
    while i < args.len()
        invariant
            i <= args.len(),
            args.len() == old_args.len(),
            old_args == old(args)@,
            forall|k: int| 0 <= k < i ==> #[trigger] args@[k] == replaced_val(old_args[k], from, to),
            forall|k: int| i <= k < args.len() ==> #[trigger] args@[k] == old_args[k],
        decreases args.len() - i,
    {
        let mut a = args[i];
        subst_val(&mut a, from, to);
        args.set(i, a);
        i += 1;
    }
}

/// Replaces the use of `Reg(from)` in a terminator's operand.
fn subst_term(term: &mut IrTerm, from: Vreg, to: Val)
    ensures
        term_substituted(*old(term), *final(term), from, to),
{
    match term {
        IrTerm::CondBr { cond, .. } => subst_val(cond, from, to),
        IrTerm::Switch { val, .. } => subst_val(val, from, to),
        IrTerm::Ret(Some(x)) => subst_val(x, from, to),
        IrTerm::Throw(v) => subst_val(v, from, to),
        _ => {},
    }
}

/// `n` is `o` with `Reg(from)` replaced by `to` in its incoming values.
pub open spec fn phi_substituted(o: Phi, n: Phi, from: Vreg, to: Val) -> bool {
    &&& n.dst == o.dst
    &&& n.ty == o.ty
    &&& n.args.len() == o.args.len()
    &&& forall|k: int| 0 <= k < o.args.len() ==> #[trigger] n.args@[k] == (o.args@[k].0, replaced_val(o.args@[k].1, from, to))
}

/// `n` is `o` with every use of `Reg(from)` (in phis, instructions and the
/// terminator) replaced by `to`.
pub open spec fn block_substituted(o: IrBlock, n: IrBlock, from: Vreg, to: Val) -> bool {
    &&& n.id == o.id
    &&& n.phis.len() == o.phis.len()
    &&& forall|k: int| 0 <= k < o.phis.len() ==> phi_substituted(o.phis@[k], #[trigger] n.phis@[k], from, to)
    &&& n.insts.len() == o.insts.len()
    &&& forall|k: int| 0 <= k < o.insts.len() ==> inst_substituted(o.insts@[k], #[trigger] n.insts@[k], from, to)
    &&& term_substituted(o.term, n.term, from, to)
}

fn subst_phi(phi: &mut Phi, from: Vreg, to: Val)
    ensures
        phi_substituted(*old(phi), *final(phi), from, to),
{
    let ghost old_args = phi.args@;
    let mut i: usize = 0;
    while i < phi.args.len()
        invariant
            i <= phi.args.len(),
            phi.args.len() == old_args.len(),
            phi.dst == old(phi).dst,
            phi.ty == old(phi).ty,
            old_args == old(phi).args@,
            forall|k: int|
                0 <= k < phi.args.len() ==> #[trigger] phi.args@[k] == if k < i {
                    (old_args[k].0, replaced_val(old_args[k].1, from, to))
                } else {
                    old_args[k]
                },
        decreases phi.args.len() - i,
    {
        let (p, v) = phi.args[i];
        let mut w = v;
        subst_val(&mut w, from, to);
        phi.args.set(i, (p, w));
        i += 1;
    }
}

/// Replaces every operand use of `Reg(from)` — in phis, instructions and
/// terminators — with `to`.
pub fn replace_all_uses(f: &mut IrFunc, from: Vreg, to: Val)
    ensures
        final(f).blocks.len() == old(f).blocks.len(),
        forall|i: int|
            0 <= i < old(f).blocks.len() ==> block_substituted(old(f).blocks@[i], #[trigger] final(f).blocks@[i], from, to),
        final(f).name == old(f).name,
        final(f).n_vregs == old(f).n_vregs,
        final(f).entry == old(f).entry,
        final(f).ret == old(f).ret,
        final(f).params == old(f).params,
        final(f).varargs == old(f).varargs,
        final(f).slots == old(f).slots,
{
    let mut blocks: Vec<IrBlock> = Vec::new();
    std::mem::swap(&mut blocks, &mut f.blocks);
    let ghost b0 = blocks@;
    let mut bi: usize = 0;
    while bi < blocks.len()
        invariant
            bi <= blocks.len(),
            blocks.len() == b0.len(),
            forall|i: int| bi <= i < b0.len() ==> #[trigger] blocks@[i] == b0[i],
            forall|i: int| 0 <= i < bi ==> block_substituted(b0[i], #[trigger] blocks@[i], from, to),
        decreases b0.len() - bi,
    {
        let ghost ob = blocks@[bi as int];
        let ghost outer = blocks@;
        let mut pi: usize = 0;
        while pi < blocks[bi].phis.len()
            invariant
                bi < blocks.len(),
                blocks.len() == b0.len(),
                pi <= blocks@[bi as int].phis.len(),
                blocks@[bi as int].phis.len() == ob.phis.len(),
                blocks@[bi as int].id == ob.id,
                blocks@[bi as int].insts == ob.insts,
                blocks@[bi as int].term == ob.term,
                forall|k: int| pi <= k < ob.phis.len() ==> #[trigger] blocks@[bi as int].phis@[k] == ob.phis@[k],
                forall|k: int| 0 <= k < pi ==> phi_substituted(ob.phis@[k], #[trigger] blocks@[bi as int].phis@[k], from, to),
                forall|i: int| 0 <= i < b0.len() && i != bi ==> #[trigger] blocks@[i] == outer[i],
            decreases ob.phis.len() - pi,
        {
            subst_phi(&mut blocks[bi].phis[pi], from, to);
            pi += 1;
        }
        let mut k: usize = 0;
        while k < blocks[bi].insts.len()
            invariant
                bi < blocks.len(),
                blocks.len() == b0.len(),
                k <= blocks@[bi as int].insts.len(),
                blocks@[bi as int].insts.len() == ob.insts.len(),
                blocks@[bi as int].phis.len() == ob.phis.len(),
                blocks@[bi as int].id == ob.id,
                blocks@[bi as int].term == ob.term,
                forall|j: int| 0 <= j < ob.phis.len() ==> phi_substituted(ob.phis@[j], #[trigger] blocks@[bi as int].phis@[j], from, to),
                forall|j: int| k <= j < ob.insts.len() ==> #[trigger] blocks@[bi as int].insts@[j] == ob.insts@[j],
                forall|j: int| 0 <= j < k ==> inst_substituted(ob.insts@[j], #[trigger] blocks@[bi as int].insts@[j], from, to),
                forall|i: int| 0 <= i < b0.len() && i != bi ==> #[trigger] blocks@[i] == outer[i],
            decreases ob.insts.len() - k,
        {
            let mut cur = IrInst::TryEnd;
            blocks[bi].insts.set_and_swap(k, &mut cur);
            let n = subst_inst(cur, from, to);
            blocks[bi].insts.set(k, n);
            k += 1;
        }
        subst_term(&mut blocks[bi].term, from, to);
        bi += 1;
    }
    f.blocks = blocks;
}

// ---- trivial phi nodes ----

/// `phi` always equals `v`: every argument is `v` or the phi itself, and at
/// least one is `v`.
pub open spec fn phi_trivial_with(phi: Phi, v: Val) -> bool {
    &&& v != Val::Reg(phi.dst)
    &&& exists|i: int| 0 <= i < phi.args.len() && (#[trigger] phi.args@[i]).1 == v
    &&& forall|i: int|
        0 <= i < phi.args.len() ==> (#[trigger] phi.args@[i]).1 == v || phi.args@[i].1 == Val::Reg(phi.dst)
}

/// A trivial phi: one that always equals a single other value.
pub open spec fn phi_is_trivial(phi: Phi) -> bool {
    exists|v: Val| phi_trivial_with(phi, v)
}

/// The value a trivial phi always equals, or `None` if it is not trivial (two
/// different incoming values, or only references to itself).
pub fn trivial_value(phi: &Phi) -> (r: Option<Val>)
    ensures
        r matches Some(v) ==> phi_trivial_with(*phi, v),
        r is None ==> !phi_is_trivial(*phi),
{
    let me = Val::Reg(phi.dst);
    let mut only: Option<Val> = None;
    let mut i: usize = 0;
    while i < phi.args.len()
        invariant
            i <= phi.args.len(),
            me == Val::Reg(phi.dst),
            match only {
                None => forall|k: int| 0 <= k < i ==> (#[trigger] phi.args@[k]).1 == me,
                Some(v) => v != me && (exists|k: int| 0 <= k < i && (#[trigger] phi.args@[k]).1 == v) && forall|
                    k: int,
                | 0 <= k < i ==> (#[trigger] phi.args@[k]).1 == v || phi.args@[k].1 == me,
            },
        decreases phi.args.len() - i,
    {
        let arg = phi.args[i].1;
        if arg != me {
            match only {
                None => {
                    only = Some(arg);
                },
                Some(v) => {
                    if v != arg {
                        proof {
                            assert forall|w: Val| !phi_trivial_with(*phi, w) by {
                                if phi_trivial_with(*phi, w) {
                                    let k = choose|k: int| 0 <= k < i && (#[trigger] phi.args@[k]).1 == v;
                                    assert(phi.args@[k].1 == w || phi.args@[k].1 == me);
                                    assert(phi.args@[i as int].1 == w || phi.args@[i as int].1 == me);
                                }
                            }
                        }
                        return None;
                    }
                },
            }
        }
        i += 1;
    }
    proof {
        if only is None {
            assert forall|w: Val| !phi_trivial_with(*phi, w) by {
                if phi_trivial_with(*phi, w) {
                    let k = choose|k: int| 0 <= k < phi.args.len() && (#[trigger] phi.args@[k]).1 == w;
                    assert(phi.args@[k].1 == me);
                }
            }
        }
    }
    only
}

/// The phi at `(bi, pi)` is trivial, and no phi before it (in block order,
/// then phi order) is.
pub open spec fn first_trivial(blocks: Seq<IrBlock>, bi: int, pi: int) -> bool {
    &&& 0 <= bi < blocks.len()
    &&& 0 <= pi < blocks[bi].phis.len()
    &&& phi_is_trivial(blocks[bi].phis@[pi])
    &&& forall|b: int, p: int|
        0 <= b && 0 <= p < blocks[b].phis.len() && (b < bi || (b == bi && p < pi)) ==> !phi_is_trivial(
            #[trigger] blocks[b].phis@[p],
        )
}

/// `b` is `a` with its first trivial phi removed and every use of that phi's
/// register replaced by the value the phi always equals.
pub open spec fn phi_removed(a: IrFunc, b: IrFunc) -> bool {
    exists|bi: int, pi: int, v: Val, mid: Seq<IrBlock>|
        #![trigger first_trivial(a.blocks@, bi, pi), phi_trivial_with(a.blocks@[bi].phis@[pi], v), mid.len()]
        {
            &&& first_trivial(a.blocks@, bi, pi)
            &&& phi_trivial_with(a.blocks@[bi].phis@[pi], v)
            &&& mid.len() == a.blocks.len()
            &&& forall|i: int| 0 <= i < mid.len() && i != bi ==> #[trigger] mid[i] == a.blocks@[i]
            &&& mid[bi].id == a.blocks@[bi].id
            &&& mid[bi].insts == a.blocks@[bi].insts
            &&& mid[bi].term == a.blocks@[bi].term
            &&& mid[bi].phis@ == a.blocks@[bi].phis@.remove(pi)
            &&& b.blocks.len() == mid.len()
            &&& forall|i: int|
                0 <= i < mid.len() ==> block_substituted(mid[i], #[trigger] b.blocks@[i], a.blocks@[bi].phis@[pi].dst, v)
            &&& b.name == a.name
            &&& b.ret == a.ret
            &&& b.params == a.params
            &&& b.varargs == a.varargs
            &&& b.slots == a.slots
            &&& b.entry == a.entry
            &&& b.n_vregs == a.n_vregs
        }
}

/// `b` is `a` after `n` rounds of `phi_removed`.
pub open spec fn phis_removed(a: IrFunc, b: IrFunc, n: nat) -> bool
    decreases n,
{
    if n == 0 {
        b == a
    } else {
        exists|mid: IrFunc| phis_removed(a, mid, (n - 1) as nat) && #[trigger] phi_removed(mid, b)
    }
}

/// The first trivial phi: its block, its index there, its register and the
/// value it always equals.
fn find_trivial_phi(blocks: &Vec<IrBlock>) -> (r: Option<(usize, usize, Vreg, Val)>)
    ensures
        match r {
            Some((bi, pi, dst, v)) => first_trivial(blocks@, bi as int, pi as int) && dst
                == blocks@[bi as int].phis@[pi as int].dst && phi_trivial_with(blocks@[bi as int].phis@[pi as int], v),
            None => forall|b: int, p: int|
                0 <= b < blocks.len() && 0 <= p < blocks@[b].phis.len() ==> !phi_is_trivial(
                    #[trigger] blocks@[b].phis@[p],
                ),
        },
{
    let mut bi: usize = 0;
    while bi < blocks.len()
        invariant
            bi <= blocks.len(),
            forall|b: int, p: int|
                0 <= b < bi && 0 <= p < blocks@[b].phis.len() ==> !phi_is_trivial(#[trigger] blocks@[b].phis@[p]),
        decreases blocks.len() - bi,
    {
        let mut pi: usize = 0;
        while pi < blocks[bi].phis.len()
            invariant
                bi < blocks.len(),
                pi <= blocks@[bi as int].phis.len(),
                forall|b: int, p: int|
                    0 <= b < bi && 0 <= p < blocks@[b].phis.len() ==> !phi_is_trivial(#[trigger] blocks@[b].phis@[p]),
                forall|p: int| 0 <= p < pi ==> !phi_is_trivial(#[trigger] blocks@[bi as int].phis@[p]),
            decreases blocks@[bi as int].phis.len() - pi,
        {
            if let Some(v) = trivial_value(&blocks[bi].phis[pi]) {
                proof {
                    assert(phi_is_trivial(blocks@[bi as int].phis@[pi as int]));
                }
                return Some((bi, pi, blocks[bi].phis[pi].dst, v));
            }
            pi += 1;
        }
        bi += 1;
    }
    None
}

proof fn lemma_total_phis_same_lens(a: Seq<IrBlock>, b: Seq<IrBlock>)
    requires
        a.len() == b.len(),
        forall|i: int| 0 <= i < a.len() ==> (#[trigger] a[i]).phis.len() == b[i].phis.len(),
    ensures
        total_phis(a) == total_phis(b),
    decreases a.len(),
{
    if a.len() > 0 {
        lemma_total_phis_same_lens(a.drop_last(), b.drop_last());
    }
}

proof fn lemma_total_phis_remove_one(a: Seq<IrBlock>, i: int, blk: IrBlock)
    requires
        0 <= i < a.len(),
        blk.phis.len() + 1 == a[i].phis.len(),
    ensures
        total_phis(a.update(i, blk)) + 1 == total_phis(a),
    decreases a.len(),
{
    if i < a.len() - 1 {
        assert(a.update(i, blk).drop_last() =~= a.drop_last().update(i, blk));
        lemma_total_phis_remove_one(a.drop_last(), i, blk);
    } else {
        assert(a.update(i, blk).drop_last() =~= a.drop_last());
    }
}

proof fn lemma_total_phis_nonneg(a: Seq<IrBlock>)
    ensures
        total_phis(a) >= 0,
    decreases a.len(),
{
    if a.len() > 0 {
        lemma_total_phis_nonneg(a.drop_last());
    }
}

/// Removes trivial `phi` nodes until none is left: each is deleted and every
/// use of it replaced by the value it always equals. Blocks keep their ids and
/// instruction counts.
pub fn eliminate_trivial_phis(f: &mut IrFunc)
    ensures
        final(f).blocks.len() == old(f).blocks.len(),
        forall|b: int, p: int|
            0 <= b < final(f).blocks.len() && 0 <= p < final(f).blocks@[b].phis.len() ==> !phi_is_trivial(
                #[trigger] final(f).blocks@[b].phis@[p],
            ),
        forall|b: int|
            0 <= b < old(f).blocks.len() ==> (#[trigger] final(f).blocks@[b]).id == old(f).blocks@[b].id
                && final(f).blocks@[b].insts.len() == old(f).blocks@[b].insts.len(),
        total_phis(final(f).blocks@) <= total_phis(old(f).blocks@),
        final(f).name == old(f).name,
        final(f).n_vregs == old(f).n_vregs,
        final(f).entry == old(f).entry,
        exists|n: nat| phis_removed(*old(f), *final(f), n),
{
    proof {
        lemma_total_phis_nonneg(f.blocks@);
    }
    let ghost f0 = *f;
    let ghost mut rounds: nat = 0;
    loop
        invariant
            f.blocks.len() == old(f).blocks.len(),
            forall|b: int|
                0 <= b < old(f).blocks.len() ==> (#[trigger] f.blocks@[b]).id == old(f).blocks@[b].id
                    && f.blocks@[b].insts.len() == old(f).blocks@[b].insts.len(),
            total_phis(f.blocks@) <= total_phis(old(f).blocks@),
            total_phis(f.blocks@) >= 0,
            f.name == old(f).name,
            f.n_vregs == old(f).n_vregs,
            f.entry == old(f).entry,
            f0 == *old(f),
            phis_removed(f0, *f, rounds),
        ensures
            forall|b: int, p: int|
                0 <= b < f.blocks.len() && 0 <= p < f.blocks@[b].phis.len() ==> !phi_is_trivial(
                    #[trigger] f.blocks@[b].phis@[p],
                ),
            phis_removed(f0, *f, rounds),
        decreases total_phis(f.blocks@),
    {
        let found = find_trivial_phi(&f.blocks);
        match found {
            None => {
                break;
            },
            Some((bi, pi, dst, val)) => {
                let ghost fb = *f;
                let ghost before = f.blocks@;
                let mut blocks: Vec<IrBlock> = Vec::new();
                std::mem::swap(&mut blocks, &mut f.blocks);
                blocks[bi].phis.remove(pi);
                proof {
                    assert(blocks@ == before.update(bi as int, blocks@[bi as int]));
                    lemma_total_phis_remove_one(before, bi as int, blocks@[bi as int]);
                }
                f.blocks = blocks;
                let ghost mid = f.blocks@;
                replace_all_uses(f, dst, val);
                proof {
                    lemma_total_phis_same_lens(mid, f.blocks@);
                    lemma_total_phis_nonneg(f.blocks@);
                    assert(mid[bi as int].phis@ == before[bi as int].phis@.remove(pi as int));
                    assert forall|i: int| 0 <= i < mid.len() && i != bi implies #[trigger] mid[i] == fb.blocks@[i] by {}
                    assert(first_trivial(fb.blocks@, bi as int, pi as int));
                    assert(phi_removed(fb, *f));
                    rounds = rounds + 1;
                    assert(phis_removed(f0, fb, (rounds - 1) as nat));
                }
            },
        }
    }
}

/// `n` is `o` with every instruction simplified, then its trivial phis
/// removed one by one.
pub open spec fn func_simplified(o: IrFunc, n: IrFunc) -> bool {
    exists|mid: IrFunc, k: nat|
        {
            &&& blocks_simplified(o.blocks@, mid.blocks@, o.n_vregs)
            &&& mid.name == o.name
            &&& mid.ret == o.ret
            &&& mid.params == o.params
            &&& mid.varargs == o.varargs
            &&& mid.slots == o.slots
            &&& mid.entry == o.entry
            &&& mid.n_vregs == blocks_count(o.blocks@, o.n_vregs)
            &&& #[trigger] phis_removed(mid, n, k)
        }
}

/// Scalar simplification of every function: folding, identities and strength
/// reduction, then trivial-`phi` elimination.
pub fn run(p: IrProgram) -> (r: IrProgram)
    ensures
        r.funcs.len() == p.funcs.len(),
        forall|i: int|
            0 <= i < p.funcs.len() ==> {
                let (o, n) = (p.funcs@[i], #[trigger] r.funcs@[i]);
                &&& n.name == o.name
                &&& n.n_vregs == blocks_count(o.blocks@, o.n_vregs)
                &&& n.entry == o.entry
                &&& n.blocks.len() == o.blocks.len()
                &&& forall|b: int, q: int|
                    0 <= b < n.blocks.len() && 0 <= q < n.blocks@[b].phis.len() ==> !phi_is_trivial(
                        #[trigger] n.blocks@[b].phis@[q],
                    )
                &&& func_simplified(o, n)
            },
        r.globals == p.globals,
        r.strings == p.strings,
        r.layouts == p.layouts,
{
    let IrProgram { mut funcs, globals, strings, layouts } = p;
    let ghost f0 = funcs@;
    let mut i: usize = 0;
    while i < funcs.len()
        invariant
            i <= funcs.len(),
            funcs.len() == f0.len(),
            forall|k: int| i <= k < f0.len() ==> #[trigger] funcs@[k] == f0[k],
            forall|k: int|
                0 <= k < i ==> {
                    let (o, n) = (f0[k], #[trigger] funcs@[k]);
                    &&& n.name == o.name
                    &&& n.n_vregs == blocks_count(o.blocks@, o.n_vregs)
                    &&& n.entry == o.entry
                    &&& n.blocks.len() == o.blocks.len()
                    &&& forall|b: int, q: int|
                        0 <= b < n.blocks.len() && 0 <= q < n.blocks@[b].phis.len() ==> !phi_is_trivial(
                            #[trigger] n.blocks@[b].phis@[q],
                        )
                    &&& func_simplified(o, n)
                },
        decreases f0.len() - i,
    {
        let mut f = IrFunc {
            name: String::new(),
            ret: crate::ir::IrRet::Void,
            params: Vec::new(),
            varargs: false,
            slots: Vec::new(),
            blocks: Vec::new(),
            entry: 0,
            n_vregs: 0,
        };
        funcs.set_and_swap(i, &mut f);
        run_func(&mut f);
        let ghost fs = f;
        eliminate_trivial_phis(&mut f);
        proof {
            let k = choose|k: nat| phis_removed(fs, f, k);
            assert(phis_removed(fs, f, k));
            assert(func_simplified(f0[i as int], f));
        }
        funcs.set(i, f);
        i += 1;
    }
    IrProgram { funcs, globals, strings, layouts }
}

/// `v` with `Reg(from)` replaced by `to`.
fn subst_value(v: Val, from: Vreg, to: Val) -> (r: Val)
    ensures
        r == replaced_val(v, from, to),
{
    if v == Val::Reg(from) {
        to
    } else {
        v
    }
}

/// One instruction with the uses of `Reg(from)` among its operands replaced.
fn subst_inst(inst: IrInst, from: Vreg, to: Val) -> (r: IrInst)
    ensures
        inst_substituted(inst, r, from, to),
{
    match inst {
        IrInst::Mov { dst, ty, src } => IrInst::Mov { dst, ty, src: subst_value(src, from, to) },
        IrInst::Bin { dst, op, ty, signed, lhs, rhs } => IrInst::Bin {
            dst,
            op,
            ty,
            signed,
            lhs: subst_value(lhs, from, to),
            rhs: subst_value(rhs, from, to),
        },
        IrInst::Cmp { dst, op, ty, signed, lhs, rhs } => IrInst::Cmp {
            dst,
            op,
            ty,
            signed,
            lhs: subst_value(lhs, from, to),
            rhs: subst_value(rhs, from, to),
        },
        IrInst::Un { dst, op, ty, src } => IrInst::Un { dst, op, ty, src: subst_value(src, from, to) },
        IrInst::Cast { dst, to: t, from: f, src } => IrInst::Cast { dst, to: t, from: f, src: subst_value(src, from, to) },
        IrInst::Load { dst, ty, addr } => IrInst::Load { dst, ty, addr: subst_value(addr, from, to) },
        IrInst::Store { ty, addr, val } => IrInst::Store {
            ty,
            addr: subst_value(addr, from, to),
            val: subst_value(val, from, to),
        },
        IrInst::PtrAdd { dst, base, index, stride } => IrInst::PtrAdd {
            dst,
            base: subst_value(base, from, to),
            index: subst_value(index, from, to),
            stride,
        },
        IrInst::Call { dst, ret, callee, args, sret, varargs } => {
            let callee = match callee {
                crate::ir::Callee::Indirect(v) => crate::ir::Callee::Indirect(subst_value(v, from, to)),
                crate::ir::Callee::Direct(name) => crate::ir::Callee::Direct(name),
            };
            let mut args = args;
            subst_args(&mut args, from, to);
            let sret = match sret {
                Some(v) => Some(subst_value(v, from, to)),
                None => None,
            };
            IrInst::Call { dst, ret, callee, args, sret, varargs }
        },
        IrInst::Prim { dst, prim, args, width } => {
            let mut args = args;
            subst_vals(&mut args, from, to);
            IrInst::Prim { dst, prim, args, width }
        },
        IrInst::MemCpy { dst, src, len } => IrInst::MemCpy {
            dst: subst_value(dst, from, to),
            src: subst_value(src, from, to),
            len,
        },
        IrInst::MemZero { dst, len } => IrInst::MemZero { dst: subst_value(dst, from, to), len },
        other => other,
    }
}

} // verus!

