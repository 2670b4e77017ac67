//! The byte-level helpers the interpreter's built-ins rest on: `atoll`-style
//! integer parsing, substring search, string comparison, the integer
//! built-ins, and the sign of a float conversion.
use crate::fmt::Spec;
use vstd::arithmetic::div_mod::{lemma_add_mod_noop, lemma_mul_mod_noop_left, lemma_sub_mod_noop};
use vstd::prelude::*;
use vstd::wrapping::i64_specs::signed_crop;

verus! {

/// ASCII whitespace as Rust's `u8::is_ascii_whitespace` has it: space, tab,
/// line feed, form feed and carriage return.
pub open spec fn is_ascii_space(b: u8) -> bool {
    b == 0x20 || b == 0x09 || b == 0x0a || b == 0x0c || b == 0x0d
}

/// An ASCII decimal digit.
pub open spec fn is_ascii_digit(b: u8) -> bool {
    0x30 <= b <= 0x39
}

/// The first index at or after `i` that is not whitespace.
pub open spec fn skip_spaces(b: Seq<u8>, i: int) -> int
    decreases b.len() - i,
{
    if 0 <= i < b.len() && is_ascii_space(b[i]) {
        skip_spaces(b, i + 1)
    } else {
        i
    }
}

/// The first index at or after `i` that is not a digit.
pub open spec fn skip_digits(b: Seq<u8>, i: int) -> int
    decreases b.len() - i,
{
    if 0 <= i < b.len() && is_ascii_digit(b[i]) {
        skip_digits(b, i + 1)
    } else {
        i
    }
}

/// The number the decimal digits `b[s..e]` spell.
pub open spec fn digits_value(b: Seq<u8>, s: int, e: int) -> int
    decreases e - s,
{
    if e <= s {
        0
    } else {
        digits_value(b, s, e - 1) * 10 + (b[e - 1] - 0x30)
    }
}

/// What libc `atoll` gives for `b`: leading whitespace skipped, an optional
/// sign, then the longest run of decimal digits, wrapped to 64 bits.
pub open spec fn atoll(b: Seq<u8>) -> i64 {
    let i = skip_spaces(b, 0);
    let signed = i < b.len() && (b[i] == 0x2d || b[i] == 0x2b);
    let s = if signed { i + 1 } else { i };
    let v = digits_value(b, s, skip_digits(b, s));
    signed_crop(if i < b.len() && b[i] == 0x2d { -v } else { v })
}

proof fn lemma_crop_mod(x: int)
    ensures
        signed_crop(x) as int % 0x1_0000_0000_0000_0000 == x % 0x1_0000_0000_0000_0000,
{
}

proof fn lemma_crop_same(x: int, y: int)
    requires
        x % 0x1_0000_0000_0000_0000 == y % 0x1_0000_0000_0000_0000,
    ensures
        signed_crop(x) == signed_crop(y),
{
}

/// One more digit: `n * 10 + d` under wrapping arithmetic keeps `n` the
/// 64-bit image of the exact value.
proof fn lemma_digit_step(n: i64, v: int, d: int)
    requires
        n == signed_crop(v),
        0 <= d <= 9,
    ensures
        vstd::wrapping::i64_specs::wrapping_add(vstd::wrapping::i64_specs::wrapping_mul(n, 10), d as i64)
            == signed_crop(v * 10 + d),
{
    let m: int = 0x1_0000_0000_0000_0000;
    let p = vstd::wrapping::i64_specs::wrapping_mul(n, 10);
    lemma_crop_mod(v);
    lemma_crop_mod(n * 10);
    lemma_mul_mod_noop_left(n as int, 10, m);
    lemma_mul_mod_noop_left(v, 10, m);
    assert(p as int % m == (v * 10) % m);
    lemma_add_mod_noop(p as int, d, m);
    lemma_add_mod_noop(v * 10, d, m);
    assert((p + d) % m == (v * 10 + d) % m);
    let w = vstd::wrapping::i64_specs::wrapping_add(p, d as i64);
    assert(w as int % m == (p + d) % m);
    lemma_crop_same(w as int, v * 10 + d);
    assert(signed_crop(w as int) == w);
}

proof fn lemma_negate(n: i64, v: int)
    requires
        n == signed_crop(v),
    ensures
        vstd::wrapping::i64_specs::wrapping_sub(0, n) == signed_crop(-v),
{
    let m: int = 0x1_0000_0000_0000_0000;
    lemma_crop_mod(v);
    lemma_sub_mod_noop(0, n as int, m);
    lemma_sub_mod_noop(0, v, m);
    let w = vstd::wrapping::i64_specs::wrapping_sub(0, n);
    assert(w as int % m == (0 - n) % m);
    lemma_crop_same(w as int, -v);
    assert(signed_crop(w as int) == w);
}

/// Parses a base-10 integer like libc `atoll`: leading whitespace, an
/// optional sign, then decimal digits up to the first non-digit; the value
/// wraps to 64 bits.
pub fn parse_atoll(bytes: &[u8]) -> (r: i64)
    ensures
        r == atoll(bytes@),
{
    let ghost b = bytes@;
    let mut i: usize = 0;
    while i < bytes.len() && (bytes[i] == 0x20 || bytes[i] == 0x09 || bytes[i] == 0x0a || bytes[i] == 0x0c
        || bytes[i] == 0x0d)
        invariant
            i <= bytes.len(),
            b == bytes@,
            skip_spaces(b, i as int) == skip_spaces(b, 0),
        decreases bytes.len() - i,
    {
        i += 1;
    }
    let ghost sp = i as int;
    let mut neg = false;
    if i < bytes.len() && bytes[i] == 0x2d {
        i += 1;
        neg = true;
    } else if i < bytes.len() && bytes[i] == 0x2b {
        i += 1;
    }
    let ghost s = i as int;
    let mut n: i64 = 0;
    while i < bytes.len() && 0x30 <= bytes[i] && bytes[i] <= 0x39
        invariant
            s <= i <= bytes.len(),
            b == bytes@,
            skip_digits(b, i as int) == skip_digits(b, s),
            n == signed_crop(digits_value(b, s, i as int)),
        decreases bytes.len() - i,
    {
        let d = (bytes[i] - 0x30) as i64;
        proof {
            lemma_digit_step(n, digits_value(b, s, i as int), d as int);
            assert(digits_value(b, s, i + 1) == digits_value(b, s, i as int) * 10 + (b[i as int] - 0x30));
        }
        n = n.wrapping_mul(10).wrapping_add(d);
        i += 1;
    }
    proof {
        assert(sp == skip_spaces(b, 0));
    }
    if neg {
        proof {
            lemma_negate(n, digits_value(b, s, i as int));
        }
        0i64.wrapping_sub(n)
    } else {
        n
    }
}

/// `needle` occurs in `haystack` at `i`.
pub open spec fn occurs_at(haystack: Seq<u8>, needle: Seq<u8>, i: int) -> bool {
    0 <= i && i + needle.len() <= haystack.len() && haystack.subrange(i, i + needle.len() as int) == needle
}

/// Whether `haystack[i..]` starts with `needle`.
fn matches_at(haystack: &[u8], needle: &[u8], i: usize) -> (r: bool)
    requires
        i + needle.len() <= haystack.len(),
    ensures
        r == occurs_at(haystack@, needle@, i as int),
{
    let mut j: usize = 0;
    while j < needle.len()
        invariant
            j <= needle.len(),
            i + needle.len() <= haystack.len(),
            forall|k: int| 0 <= k < j ==> haystack@[i + k] == needle@[k],
        decreases needle.len() - j,
    {
        if haystack[i + j] != needle[j] {
            proof {
                if occurs_at(haystack@, needle@, i as int) {
                    assert(haystack@.subrange(i as int, i + needle.len() as int)[j as int] == needle@[j as int]);
                }
            }
            return false;
        }
        j += 1;
    }
    proof {
        assert(haystack@.subrange(i as int, i + needle.len() as int) =~= needle@);
    }
    true
}

/// The byte index of the first occurrence of `needle` in `haystack`, or
/// `None`; an empty needle occurs at 0.
pub fn subslice_index(haystack: &[u8], needle: &[u8]) -> (r: Option<usize>)
    ensures
        match r {
            Some(i) => occurs_at(haystack@, needle@, i as int) && forall|j: int|
                0 <= j < i ==> !occurs_at(haystack@, needle@, j),
            None => forall|j: int| !occurs_at(haystack@, needle@, j),
        },
{
    if needle.len() == 0 {
        proof {
            assert(haystack@.subrange(0, 0) =~= needle@);
        }
        return Some(0);
    }
    if needle.len() > haystack.len() {
        return None;
    }
    let last = haystack.len() - needle.len();
    let mut i: usize = 0;
    while i <= last
        invariant
            last + needle.len() == haystack.len(),
            needle.len() >= 1,
            i <= last + 1,
            forall|j: int| 0 <= j < i ==> !occurs_at(haystack@, needle@, j),
        decreases last + 1 - i,
    {
        if matches_at(haystack, needle, i) {
            return Some(i);
        }
        i += 1;
    }
    None
}

/// The byte strings `a` and `b` compared from byte `i` on, as a sign: -1,
/// 0 or 1 by the first byte where they differ, a string that ends first
/// counting as the smaller.
pub open spec fn lex_sign(a: Seq<u8>, b: Seq<u8>, i: int) -> int
    decreases a.len() - i,
{
    if i >= a.len() {
        if i >= b.len() {
            0
        } else {
            -1
        }
    } else if i >= b.len() {
        1
    } else if a[i] < b[i] {
        -1
    } else if a[i] > b[i] {
        1
    } else {
        lex_sign(a, b, i + 1)
    }
}

/// `StrCmp`: the sign of the byte-wise comparison of two strings.
pub fn str_compare(a: &[u8], b: &[u8]) -> (r: i64)
    ensures
        r == lex_sign(a@, b@, 0),
{
    let mut i: usize = 0;
    while i < a.len() && i < b.len()
        invariant
            i <= a.len(),
            i <= b.len(),
            lex_sign(a@, b@, 0) == lex_sign(a@, b@, i as int),
        decreases a.len() - i,
    {
        if a[i] < b[i] {
            return -1;
        }
        if a[i] > b[i] {
            return 1;
        }
        i += 1;
    }
    if i < a.len() {
        1
    } else if i < b.len() {
        -1
    } else {
        0
    }
}

/// The first `n` bytes of `s` (all of it when shorter; none when `n` is negative).
pub open spec fn prefix_of(s: Seq<u8>, n: i64) -> Seq<u8> {
    if n <= 0 {
        seq![]
    } else if n >= s.len() {
        s
    } else {
        s.take(n as int)
    }
}

/// `StrNCmp`: `StrCmp` on the first `n` bytes of each string.
pub fn str_n_compare(a: &[u8], b: &[u8], n: i64) -> (r: i64)
    ensures
        r == lex_sign(prefix_of(a@, n), prefix_of(b@, n), 0),
{
    let na: usize = if n <= 0 {
        0
    } else if n as u64 >= a.len() as u64 {
        a.len()
    } else {
        n as usize
    };
    let nb: usize = if n <= 0 {
        0
    } else if n as u64 >= b.len() as u64 {
        b.len()
    } else {
        n as usize
    };
    let ghost pa = prefix_of(a@, n);
    let ghost pb = prefix_of(b@, n);
    proof {
        assert(pa.len() == na);
        assert(pb.len() == nb);
        assert(forall|k: int| 0 <= k < na ==> pa[k] == a@[k]);
        assert(forall|k: int| 0 <= k < nb ==> pb[k] == b@[k]);
    }
    let mut i: usize = 0;
    while i < na && i < nb
        invariant
            i <= na <= a.len(),
            i <= nb <= b.len(),
            pa.len() == na,
            pb.len() == nb,
            pa == prefix_of(a@, n),
            pb == prefix_of(b@, n),
            forall|k: int| 0 <= k < na ==> pa[k] == a@[k],
            forall|k: int| 0 <= k < nb ==> pb[k] == b@[k],
            lex_sign(pa, pb, 0) == lex_sign(pa, pb, i as int),
        decreases na - i,
    {
        proof {
            assert(pa[i as int] == a@[i as int] && pb[i as int] == b@[i as int]);
        }
        if a[i] < b[i] {
            return -1;
        }
        if a[i] > b[i] {
            return 1;
        }
        i += 1;
    }
    if i < na {
        1
    } else if i < nb {
        -1
    } else {
        0
    }
}

/// `ToUpper`: an ASCII lower-case letter's code made upper-case; any other
/// value unchanged.
pub fn to_upper(c: i64) -> (r: i64)
    ensures
        r == if 97 <= c <= 122 {
            c - 32
        } else {
            c as int
        },
{
    if 97 <= c && c <= 122 {
        c - 32
    } else {
        c
    }
}

/// `ToLower`: an ASCII upper-case letter's code made lower-case; any other
/// value unchanged.
pub fn to_lower(c: i64) -> (r: i64)
    ensures
        r == if 65 <= c <= 90 {
            c + 32
        } else {
            c as int
        },
{
    if 65 <= c && c <= 90 {
        c + 32
    } else {
        c
    }
}

/// `Abs`: the magnitude of `x` (which must not be `i64::MIN`, whose magnitude
/// does not fit).
pub fn abs_i64(x: i64) -> (r: i64)
    requires
        x != i64::MIN,
    ensures
        r == if x < 0 {
            -x
        } else {
            x as int
        },
{
    if x < 0 {
        -x
    } else {
        x
    }
}

/// `Sign`: -1, 0 or 1 as `x` is negative, zero or positive.
pub fn sign_i64(x: i64) -> (r: i64)
    ensures
        r == if x < 0 {
            -1
        } else if x == 0 {
            0
        } else {
            1
        },
{
    if x < 0 {
        -1
    } else if x == 0 {
        0
    } else {
        1
    }
}

/// The sign prefix of a float conversion: `-` for a negative value, else `+`
/// or a space as the flags ask, else nothing.
pub fn float_sign(neg: bool, spec: &Spec) -> (r: &'static str)
    ensures
        r@ == (if neg {
            seq!['-']
        } else if spec.plus {
            seq!['+']
        } else if spec.space {
            seq![' ']
        } else {
            Seq::<char>::empty()
        }),
{
    proof {
        reveal_strlit("-");
        reveal_strlit("+");
        reveal_strlit(" ");
        reveal_strlit("");
    }
    if neg {
        "-"
    } else if spec.plus {
        "+"
    } else if spec.space {
        " "
    } else {
        ""
    }
}

} // verus!
