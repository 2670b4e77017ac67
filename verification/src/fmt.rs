//! C `printf` conversion specs: parsing `%[flags][width][.precision][length]conv`,
//! rebuilding a libc format string from a parsed spec (with the `ll` length
//! injected on integer conversions, so 64-bit values print in full), and laying
//! out integer and string conversions the way libc does.
use crate::text::{decimal_chars, push_char, push_decimal, push_repeat, repeat_char, str_eq};
use vstd::prelude::*;
use vstd::string::{StrSliceExecFns, StringExecFns, StringSliceAdditionalSpecFns};
use vstd::utf8::{decode_utf8, is_char_boundary};

verus! {

/// Cap on a literal field width.
pub const MAX_WIDTH: usize = 1024;

/// Cap on a literal precision.
pub const MAX_PRECISION: usize = 512;

/// A parsed conversion spec: the flags, width and precision between `%` and
/// the conversion character, and that character (`'\0'` when the text ended).
#[derive(Debug, Clone)]
pub struct Spec {
    /// `-`: left-justify.
    pub minus: bool,
    /// `+`: always show a sign.
    pub plus: bool,
    /// ` `: a space before a non-negative value.
    pub space: bool,
    /// `0`: pad with zeros.
    pub zero: bool,
    /// `#`: alternate form.
    pub hash: bool,
    /// The width is `*` (taken from an argument).
    pub width_star: bool,
    pub width: Option<usize>,
    /// A `.` was present.
    pub has_precision: bool,
    /// The precision is `*` (taken from an argument).
    pub prec_star: bool,
    pub precision: usize,
    pub conv: char,
}

impl Default for Spec {
    fn default() -> (r: Spec)
        ensures
            !r.minus && !r.plus && !r.space && !r.zero && !r.hash && !r.width_star && r.width is None
                && !r.has_precision && !r.prec_star && r.precision == 0 && r.conv == '\0',
    {
        Spec {
            minus: false,
            plus: false,
            space: false,
            zero: false,
            hash: false,
            width_star: false,
            width: None,
            has_precision: false,
            prec_star: false,
            precision: 0,
            conv: '\0',
        }
    }
}

pub open spec fn is_flag_char(c: char) -> bool {
    c == '-' || c == '+' || c == ' ' || c == '0' || c == '#'
}

pub open spec fn is_digit_char(c: char) -> bool {
    '0' <= c <= '9'
}

pub open spec fn is_length_char(c: char) -> bool {
    c == 'l' || c == 'h' || c == 'L' || c == 'z' || c == 'j' || c == 't'
}

/// The end of the longest run of flag characters starting at `i`.
pub open spec fn flags_end(s: Seq<char>, i: int) -> int
    decreases s.len() - i,
{
    if 0 <= i < s.len() && is_flag_char(s[i]) {
        flags_end(s, i + 1)
    } else {
        i
    }
}

/// The end of the longest run of decimal digits starting at `i`.
pub open spec fn digits_end(s: Seq<char>, i: int) -> int
    decreases s.len() - i,
{
    if 0 <= i < s.len() && is_digit_char(s[i]) {
        digits_end(s, i + 1)
    } else {
        i
    }
}

/// The end of the longest run of length-modifier characters starting at `i`.
pub open spec fn lengths_end(s: Seq<char>, i: int) -> int
    decreases s.len() - i,
{
    if 0 <= i < s.len() && is_length_char(s[i]) {
        lengths_end(s, i + 1)
    } else {
        i
    }
}

/// The value of a string of decimal digits.
pub open spec fn decimal_value(d: Seq<char>) -> nat
    decreases d.len(),
{
    if d.len() == 0 {
        0
    } else {
        decimal_value(d.drop_last()) * 10 + (d.last() as nat - '0' as nat) as nat
    }
}

/// Whether flag `c` occurs in `s[i..j)`.
pub open spec fn has_flag(s: Seq<char>, i: int, j: int, c: char) -> bool {
    exists|k: int| i <= k < j && s[k] == c
}

/// The width at `f`: `*`, or a decimal number (capped at `MAX_WIDTH`; dropped
/// when too large for `usize`), or nothing; and the position after it.
pub open spec fn width_part(s: Seq<char>, f: int) -> (bool, Option<usize>, int) {
    if f < s.len() && s[f] == '*' {
        (true, None, f + 1)
    } else {
        let wd = digits_end(s, f);
        let wv = decimal_value(s.subrange(f, wd));
        let width = if wd == f || wv > usize::MAX {
            None
        } else {
            Some((if wv < MAX_WIDTH { wv } else { MAX_WIDTH as nat }) as usize)
        };
        (false, width, wd)
    }
}

/// The precision at `a`: absent (no `.`), `.*`, or `.` and a decimal number
/// (capped at `MAX_PRECISION`; 0 when empty or too large); as (has precision,
/// star, value, position after it).
pub open spec fn precision_part(s: Seq<char>, a: int) -> (bool, bool, usize, int) {
    if !(a < s.len() && s[a] == '.') {
        (false, false, 0, a)
    } else if a + 1 < s.len() && s[a + 1] == '*' {
        (true, true, 0, a + 2)
    } else {
        let pd = digits_end(s, a + 1);
        let pv = decimal_value(s.subrange(a + 1, pd));
        let precision: usize = if pv > usize::MAX {
            0
        } else {
            (if pv < MAX_PRECISION { pv } else { MAX_PRECISION as nat }) as usize
        };
        (true, false, precision, pd)
    }
}

/// The spec `%` at `i - 1` introduces, and the position after its conversion
/// character: flags, width, precision, skipped length modifiers, and the
/// conversion character (`'\0'` at the end of the text).
pub open spec fn parse_spec(s: Seq<char>, i: int) -> (Spec, int) {
    let f = flags_end(s, i);
    let (wstar, width, after_w) = width_part(s, f);
    let (dot, pstar, precision, after_p) = precision_part(s, after_w);
    let l = lengths_end(s, after_p);
    let conv = if l < s.len() {
        s[l]
    } else {
        '\0'
    };
    (
        Spec {
            minus: has_flag(s, i, f, '-'),
            plus: has_flag(s, i, f, '+'),
            space: has_flag(s, i, f, ' '),
            zero: has_flag(s, i, f, '0'),
            hash: has_flag(s, i, f, '#'),
            width_star: wstar,
            width,
            has_precision: dot,
            prec_star: pstar,
            precision,
            conv,
        },
        if l < s.len() {
            l + 1
        } else {
            l
        },
    )
}

proof fn lemma_flags_end_bounds(s: Seq<char>, i: int)
    requires
        0 <= i <= s.len(),
    ensures
        i <= flags_end(s, i) <= s.len(),
    decreases s.len() - i,
{
    if i < s.len() && is_flag_char(s[i]) {
        lemma_flags_end_bounds(s, i + 1);
    }
}

proof fn lemma_digits_end_bounds(s: Seq<char>, i: int)
    requires
        0 <= i <= s.len(),
    ensures
        i <= digits_end(s, i) <= s.len(),
    decreases s.len() - i,
{
    if i < s.len() && is_digit_char(s[i]) {
        lemma_digits_end_bounds(s, i + 1);
    }
}

proof fn lemma_lengths_end_bounds(s: Seq<char>, i: int)
    requires
        0 <= i <= s.len(),
    ensures
        i <= lengths_end(s, i) <= s.len(),
    decreases s.len() - i,
{
    if i < s.len() && is_length_char(s[i]) {
        lemma_lengths_end_bounds(s, i + 1);
    }
}

/// Reads a run of decimal digits starting at `*pos`, advancing past it: the
/// run's value, or `None` if it does not fit a `usize`.
fn read_number(chars: &[char], pos: &mut usize) -> (r: Option<usize>)
    requires
        *old(pos) <= chars.len(),
    ensures
        *final(pos) == digits_end(chars@, *old(pos) as int),
        *old(pos) <= *final(pos) <= chars.len(),
        r == (if decimal_value(chars@.subrange(*old(pos) as int, *final(pos) as int)) <= usize::MAX {
            Some(decimal_value(chars@.subrange(*old(pos) as int, *final(pos) as int)) as usize)
        } else {
            None::<usize>
        }),
{
    let start = *pos;
    let mut v: Option<usize> = Some(0);
    proof {
        lemma_digits_end_bounds(chars@, start as int);
        assert(chars@.subrange(start as int, start as int) =~= Seq::<char>::empty());
    }
    while *pos < chars.len() && '0' <= chars[*pos] && chars[*pos] <= '9'
        invariant
            start <= *pos <= chars.len(),
            digits_end(chars@, start as int) == digits_end(chars@, *pos as int),
            v == (if decimal_value(chars@.subrange(start as int, *pos as int)) <= usize::MAX {
                Some(decimal_value(chars@.subrange(start as int, *pos as int)) as usize)
            } else {
                None::<usize>
            }),
        decreases chars.len() - *pos,
    {
        let d = (chars[*pos] as u32 - '0' as u32) as usize;
        let ghost old_sub = chars@.subrange(start as int, *pos as int);
        proof {
            assert(chars@.subrange(start as int, *pos as int + 1).drop_last() =~= old_sub);
            assert(chars@.subrange(start as int, *pos as int + 1).last() == chars@[*pos as int]);
        }
        v = match v {
            Some(x) => match x.checked_mul(10) {
                Some(y) => y.checked_add(d),
                None => None,
            },
            None => None,
        };
        *pos = *pos + 1;
    }
    v
}

/// Reads the width at `*pos`, advancing past it.
fn parse_width(chars: &[char], pos: &mut usize) -> (r: (bool, Option<usize>))
    requires
        *old(pos) <= chars.len(),
    ensures
        (r.0, r.1, *final(pos) as int) == width_part(chars@, *old(pos) as int),
        *final(pos) <= chars.len(),
{
    if *pos < chars.len() && chars[*pos] == '*' {
        *pos = *pos + 1;
        (true, None)
    } else {
        let start = *pos;
        let w = read_number(chars, pos);
        proof {
            let wd = digits_end(chars@, start as int);
            let wv = decimal_value(chars@.subrange(start as int, wd));
            assert(wd == *pos as int);
            assert(width_part(chars@, start as int).2 == wd);
            assert(width_part(chars@, start as int).0 == false);
        }
        if *pos > start {
            match w {
                Some(x) => {
                    let c = if x < MAX_WIDTH {
                        x
                    } else {
                        MAX_WIDTH
                    };
                    proof {
                        let wv = decimal_value(chars@.subrange(start as int, *pos as int));
                        assert(x as nat == wv);
                        assert(c == (if wv < MAX_WIDTH { wv } else { MAX_WIDTH as nat }) as usize);
                    }
                    (false, Some(c))
                },
                None => {
                    proof {
                        let wd = digits_end(chars@, start as int);
                        let wv = decimal_value(chars@.subrange(start as int, wd));
                        assert(wv > usize::MAX);
                    }
                    (false, None)
                },
            }
        } else {
            proof {
                let wd = digits_end(chars@, start as int);
                assert(wd == start);
            }
            (false, None)
        }
    }
}

/// Reads the precision at `*pos`, advancing past it.
fn parse_precision(chars: &[char], pos: &mut usize) -> (r: (bool, bool, usize))
    requires
        *old(pos) <= chars.len(),
    ensures
        (r.0, r.1, r.2, *final(pos) as int) == precision_part(chars@, *old(pos) as int),
        *final(pos) <= chars.len(),
{
    if *pos < chars.len() && chars[*pos] == '.' {
        *pos = *pos + 1;
        if *pos < chars.len() && chars[*pos] == '*' {
            *pos = *pos + 1;
            (true, true, 0)
        } else {
            let p = read_number(chars, pos);
            let v = match p {
                Some(x) => if x < MAX_PRECISION {
                    x
                } else {
                    MAX_PRECISION
                },
                None => 0,
            };
            (true, false, v)
        }
    } else {
        (false, false, 0)
    }
}

/// Parses a spec from `chars`, with `*pos` just after the `%`; leaves `*pos`
/// just after the conversion character.
pub fn parse(chars: &[char], pos: &mut usize) -> (s: Spec)
    requires
        *old(pos) <= chars.len(),
    ensures
        (s, *final(pos) as int) == parse_spec(chars@, *old(pos) as int),
{
    let ghost s0 = chars@;
    let ghost i0 = *pos as int;
    let mut s = Spec::default();
    proof {
        lemma_flags_end_bounds(s0, i0);
    }
    while *pos < chars.len() && (chars[*pos] == '-' || chars[*pos] == '+' || chars[*pos] == ' ' || chars[*pos] == '0'
        || chars[*pos] == '#')
        invariant
            i0 <= *pos <= chars.len(),
            s0 == chars@,
            flags_end(s0, i0) == flags_end(s0, *pos as int),
            s.minus == has_flag(s0, i0, *pos as int, '-'),
            s.plus == has_flag(s0, i0, *pos as int, '+'),
            s.space == has_flag(s0, i0, *pos as int, ' '),
            s.zero == has_flag(s0, i0, *pos as int, '0'),
            s.hash == has_flag(s0, i0, *pos as int, '#'),
        decreases chars.len() - *pos,
    {
        let c = chars[*pos];
        if c == '-' {
            s.minus = true;
        } else if c == '+' {
            s.plus = true;
        } else if c == ' ' {
            s.space = true;
        } else if c == '0' {
            s.zero = true;
        } else {
            s.hash = true;
        }
        *pos = *pos + 1;
    }
    assert(*pos as int == flags_end(s0, i0));
    let (wstar, width) = parse_width(chars, pos);
    s.width_star = wstar;
    s.width = width;
    let (dot, pstar, precision) = parse_precision(chars, pos);
    s.has_precision = dot;
    s.prec_star = pstar;
    s.precision = precision;
    let ghost after_p = *pos as int;
    proof {
        lemma_lengths_end_bounds(s0, after_p);
    }
    while *pos < chars.len() && (chars[*pos] == 'l' || chars[*pos] == 'h' || chars[*pos] == 'L' || chars[*pos] == 'z'
        || chars[*pos] == 'j' || chars[*pos] == 't')
        invariant
            after_p <= *pos <= chars.len(),
            s0 == chars@,
            lengths_end(s0, after_p) == lengths_end(s0, *pos as int),
        decreases chars.len() - *pos,
    {
        *pos = *pos + 1;
    }
    if *pos < chars.len() {
        s.conv = chars[*pos];
        *pos = *pos + 1;
    } else {
        s.conv = '\0';
    }
    s
}


// ---- rebuilding a libc format ----

/// `c` if `b`, else nothing.
pub open spec fn opt_char(b: bool, c: char) -> Seq<char> {
    if b {
        seq![c]
    } else {
        seq![]
    }
}

/// An integer conversion: `d i u x X o`.
pub open spec fn is_int_conv(c: char) -> bool {
    c == 'd' || c == 'i' || c == 'u' || c == 'x' || c == 'X' || c == 'o'
}

/// The flags, in the order `-+ 0#`.
pub open spec fn flags_text(s: Spec) -> Seq<char> {
    opt_char(s.minus, '-') + opt_char(s.plus, '+') + opt_char(s.space, ' ') + opt_char(s.zero, '0') + opt_char(
        s.hash,
        '#',
    )
}

/// `*`, the literal width, or nothing.
pub open spec fn width_text(s: Spec) -> Seq<char> {
    if s.width_star {
        seq!['*']
    } else {
        match s.width {
            Some(w) => decimal_chars(w as nat),
            None => seq![],
        }
    }
}

/// `.*`, `.` and the precision, or nothing.
pub open spec fn precision_text(s: Spec) -> Seq<char> {
    if s.has_precision {
        seq!['.'] + if s.prec_star {
            seq!['*']
        } else {
            decimal_chars(s.precision as nat)
        }
    } else {
        seq![]
    }
}

/// The conversion, with `ll` before an integer one; nothing for `'\0'`.
pub open spec fn conv_text(c: char) -> Seq<char> {
    if is_int_conv(c) {
        seq!['l', 'l', c]
    } else if c == '\0' {
        seq![]
    } else {
        seq![c]
    }
}

/// The libc format for `s`: `%%` for a literal percent; else `%`, the flags,
/// the width, the precision and the conversion.
pub open spec fn c_format(s: Spec) -> Seq<char> {
    if s.conv == '%' {
        seq!['%', '%']
    } else {
        seq!['%'] + flags_text(s) + width_text(s) + precision_text(s) + conv_text(s.conv)
    }
}

/// A conversion that the rebuilt libc format keeps as itself:
/// `d i u x X o f e E g G c s p`.
pub open spec fn is_std_conv(c: char) -> bool {
    is_int_conv(c) || c == 'f' || c == 'e' || c == 'E' || c == 'g' || c == 'G' || c == 'c' || c == 's' || c == 'p'
}

proof fn lemma_flags_run(t: Seq<char>, i: int, j: int)
    requires
        0 <= i <= j <= t.len(),
        forall|k: int| i <= k < j ==> is_flag_char(#[trigger] t[k]),
        j == t.len() || !is_flag_char(t[j]),
    ensures
        flags_end(t, i) == j,
    decreases j - i,
{
    if i < j {
        lemma_flags_run(t, i + 1, j);
    }
}

proof fn lemma_digits_run(t: Seq<char>, i: int, j: int)
    requires
        0 <= i <= j <= t.len(),
        forall|k: int| i <= k < j ==> is_digit_char(#[trigger] t[k]),
        j == t.len() || !is_digit_char(t[j]),
    ensures
        digits_end(t, i) == j,
    decreases j - i,
{
    if i < j {
        lemma_digits_run(t, i + 1, j);
    }
}

proof fn lemma_lengths_run(t: Seq<char>, i: int, j: int)
    requires
        0 <= i <= j <= t.len(),
        forall|k: int| i <= k < j ==> is_length_char(#[trigger] t[k]),
        j == t.len() || !is_length_char(t[j]),
    ensures
        lengths_end(t, i) == j,
    decreases j - i,
{
    if i < j {
        lemma_lengths_run(t, i + 1, j);
    }
}

proof fn lemma_flags_end_stops(t: Seq<char>, i: int)
    requires
        0 <= i <= t.len(),
    ensures
        flags_end(t, i) == t.len() || !is_flag_char(t[flags_end(t, i)]),
    decreases t.len() - i,
{
    if i < t.len() && is_flag_char(t[i]) {
        lemma_flags_end_stops(t, i + 1);
    }
}

proof fn lemma_digits_end_all(t: Seq<char>, i: int)
    requires
        0 <= i <= t.len(),
    ensures
        forall|k: int| i <= k < digits_end(t, i) ==> is_digit_char(#[trigger] t[k]),
    decreases t.len() - i,
{
    if i < t.len() && is_digit_char(t[i]) {
        lemma_digits_end_all(t, i + 1);
    }
}

proof fn lemma_digit_char(d: nat)
    requires
        d < 10,
    ensures
        is_digit_char(crate::text::digit_char(d)),
        crate::text::digit_char(d) as nat - '0' as nat == d,
        d >= 1 ==> crate::text::digit_char(d) != '0',
{
}

/// The decimal text of `n` is all digits, reads back as `n`, and starts with
/// a nonzero digit when `n` is positive.
proof fn lemma_decimal_chars(n: nat)
    ensures
        decimal_chars(n).len() >= 1,
        forall|k: int| 0 <= k < decimal_chars(n).len() ==> is_digit_char(#[trigger] decimal_chars(n)[k]),
        decimal_value(decimal_chars(n)) == n,
        n >= 1 ==> decimal_chars(n)[0] != '0',
    decreases n,
{
    if n < 10 {
        lemma_digit_char(n);
        assert(decimal_chars(n).drop_last() =~= Seq::<char>::empty());
        assert(decimal_chars(n).last() == crate::text::digit_char(n));
        assert(decimal_value(Seq::<char>::empty()) == 0);
        assert(decimal_value(decimal_chars(n)) == decimal_value(decimal_chars(n).drop_last()) * 10 + n);
    } else {
        lemma_decimal_chars(n / 10);
        lemma_digit_char(n % 10);
        let a = decimal_chars(n / 10);
        assert(decimal_chars(n).drop_last() =~= a);
        assert(decimal_chars(n).last() == crate::text::digit_char(n % 10));
        assert(decimal_value(decimal_chars(n)) == decimal_value(a) * 10 + (n % 10));
        assert((n / 10) * 10 + n % 10 == n);
    }
}

/// Digits that start with a nonzero one have a positive value.
proof fn lemma_decimal_value_pos(d: Seq<char>)
    requires
        d.len() >= 1,
        forall|k: int| 0 <= k < d.len() ==> is_digit_char(#[trigger] d[k]),
        d[0] != '0',
    ensures
        decimal_value(d) >= 1,
    decreases d.len(),
{
    if d.len() > 1 {
        lemma_decimal_value_pos(d.drop_last());
    } else {
        assert(d.drop_last() =~= Seq::<char>::empty());
    }
}

/// What a parsed spec's fields can be: a literal width is between 1 and the
/// cap, a `*` width has no value, and the precision is at most its cap and 0
/// unless given as digits.
proof fn lemma_parsed_fields(chars: Seq<char>, i: int)
    requires
        0 <= i <= chars.len(),
    ensures
        ({
            let s = parse_spec(chars, i).0;
            &&& s.width_star ==> s.width is None
            &&& (s.width matches Some(w) ==> 1 <= w <= MAX_WIDTH)
            &&& s.prec_star ==> s.has_precision && s.precision == 0
            &&& !s.has_precision ==> s.precision == 0 && !s.prec_star
            &&& s.precision <= MAX_PRECISION
        }),
{
    let f = flags_end(chars, i);
    lemma_flags_end_bounds(chars, i);
    lemma_flags_end_stops(chars, i);
    if !(f < chars.len() && chars[f] == '*') {
        let wd = digits_end(chars, f);
        lemma_digits_end_bounds(chars, f);
        lemma_digits_end_all(chars, f);
        if wd > f {
            let d = chars.subrange(f, wd);
            assert(d[0] == chars[f]);
            lemma_decimal_value_pos(d);
        }
    }
}

/// The flags of a rebuilt format, read back: their run ends where they end,
/// and each flag is there exactly when the spec has it.
proof fn lemma_flags_back(s: Spec, t: Seq<char>, tail: Seq<char>)
    requires
        t == seq!['%'] + flags_text(s) + tail,
        tail.len() >= 1,
        !is_flag_char(tail[0]),
    ensures
        flags_end(t, 1) == 1 + flags_text(s).len(),
        has_flag(t, 1, 1 + flags_text(s).len() as int, '-') == s.minus,
        has_flag(t, 1, 1 + flags_text(s).len() as int, '+') == s.plus,
        has_flag(t, 1, 1 + flags_text(s).len() as int, ' ') == s.space,
        has_flag(t, 1, 1 + flags_text(s).len() as int, '0') == s.zero,
        has_flag(t, 1, 1 + flags_text(s).len() as int, '#') == s.hash,
{
    let ff = flags_text(s);
    let b: int = 1 + ff.len() as int;
    assert(forall|k: int| 1 <= k < b ==> t[k] == ff[k - 1]);
    assert(t[b] == tail[0]);
    assert forall|k: int| 1 <= k < b implies is_flag_char(#[trigger] t[k]) by {
        assert(t[k] == ff[k - 1]);
    }
    lemma_flags_run(t, 1, b);
    let m1: int = opt_char(s.minus, '-').len() as int;
    let m2: int = opt_char(s.plus, '+').len() as int;
    let m3: int = opt_char(s.space, ' ').len() as int;
    let m4: int = opt_char(s.zero, '0').len() as int;
    if s.minus {
        assert(t[1] == '-');
    }
    if s.plus {
        assert(t[1 + m1] == '+');
    }
    if s.space {
        assert(t[1 + m1 + m2] == ' ');
    }
    if s.zero {
        assert(t[1 + m1 + m2 + m3] == '0');
    }
    if s.hash {
        assert(t[1 + m1 + m2 + m3 + m4] == '#');
    }
}

/// The width of a rebuilt format, read back at `b`.
proof fn lemma_width_back(s: Spec, t: Seq<char>, pre: Seq<char>, tail: Seq<char>)
    requires
        t == pre + width_text(s) + tail,
        tail.len() >= 1,
        !is_digit_char(tail[0]),
        tail[0] != '*',
        s.width_star ==> s.width is None,
        s.width matches Some(w) ==> 1 <= w <= MAX_WIDTH,
    ensures
        width_part(t, pre.len() as int) == (s.width_star, s.width, (pre.len() + width_text(s).len()) as int),
{
    let ww = width_text(s);
    let b: int = pre.len() as int;
    let c: int = b + ww.len() as int;
    assert(forall|k: int| b <= k < c ==> t[k] == ww[k - b]);
    assert(t[c] == tail[0]);
    if !s.width_star {
        if let Some(w) = s.width {
            lemma_decimal_chars(w as nat);
            assert forall|k: int| b <= k < c implies is_digit_char(#[trigger] t[k]) by {
                assert(t[k] == ww[k - b]);
            }
            lemma_digits_run(t, b, c);
            assert(t.subrange(b, c) =~= ww);
            assert(t[b] == ww[0]);
        } else {
            lemma_digits_run(t, b, b);
            assert(t.subrange(b, b) =~= Seq::<char>::empty());
        }
    }
}

/// The precision of a rebuilt format, read back at `c`.
proof fn lemma_precision_back(s: Spec, t: Seq<char>, pre: Seq<char>, tail: Seq<char>)
    requires
        t == pre + precision_text(s) + tail,
        tail.len() >= 1,
        !is_digit_char(tail[0]),
        tail[0] != '.',
        s.prec_star ==> s.has_precision && s.precision == 0,
        !s.has_precision ==> s.precision == 0 && !s.prec_star,
        s.precision <= MAX_PRECISION,
    ensures
        precision_part(t, pre.len() as int) == (s.has_precision, s.prec_star, s.precision, (pre.len()
            + precision_text(s).len()) as int),
{
    let pp = precision_text(s);
    let c: int = pre.len() as int;
    let d: int = c + pp.len() as int;
    assert(forall|k: int| c <= k < d ==> t[k] == pp[k - c]);
    assert(t[d] == tail[0]);
    if s.has_precision && !s.prec_star {
        let dc = decimal_chars(s.precision as nat);
        lemma_decimal_chars(s.precision as nat);
        assert(pp =~= seq!['.'] + dc);
        assert forall|k: int| c + 1 <= k < d implies is_digit_char(#[trigger] t[k]) by {
            assert(t[k] == pp[k - c]);
            assert(pp[k - c] == dc[k - c - 1]);
        }
        lemma_digits_run(t, c + 1, d);
        assert(t.subrange(c + 1, d) =~= dc);
        assert(t[c + 1] == dc[0]);
    }
}

/// The conversion of a rebuilt format, read back at `d`.
proof fn lemma_conv_back(conv: char, t: Seq<char>, pre: Seq<char>)
    requires
        t == pre + conv_text(conv),
        is_std_conv(conv),
    ensures
        ({
            let l = lengths_end(t, pre.len() as int);
            &&& l < t.len()
            &&& t[l] == conv
            &&& l + 1 == t.len()
        }),
{
    let d: int = pre.len() as int;
    if is_int_conv(conv) {
        assert(t[d] == 'l' && t[d + 1] == 'l' && t[d + 2] == conv);
        lemma_lengths_run(t, d, d + 2);
    } else {
        assert(t[d] == conv);
        lemma_lengths_run(t, d, d);
    }
}

/// Parsing the libc format rebuilt from a parsed spec gives that spec back,
/// and ends at the end of the format, for each of the conversions
/// `d i u x X o f e E g G c s p`.
#[verifier::rlimit(80)]
#[verifier::spinoff_prover]
pub proof fn lemma_c_format_round_trip(chars: Seq<char>, i: int)
    requires
        0 <= i <= chars.len(),
        is_std_conv(parse_spec(chars, i).0.conv),
    ensures
        c_format(parse_spec(chars, i).0)[0] == '%',
        parse_spec(c_format(parse_spec(chars, i).0), 1) == (
            parse_spec(chars, i).0,
            c_format(parse_spec(chars, i).0).len() as int,
        ),
{
    let s = parse_spec(chars, i).0;
    lemma_parsed_fields(chars, i);
    let ff = flags_text(s);
    let ww = width_text(s);
    let pp = precision_text(s);
    let cc = conv_text(s.conv);
    let t = c_format(s);
    assert(cc.len() >= 1 && !is_flag_char(cc[0]) && !is_digit_char(cc[0]) && cc[0] != '.' && cc[0] != '*');
    if let Some(w) = s.width {
        if !s.width_star {
            lemma_decimal_chars(w as nat);
        }
    }
    let tail_f = ww + pp + cc;
    assert(t =~= seq!['%'] + ff + tail_f);
    assert(tail_f[0] == if ww.len() > 0 {
        ww[0]
    } else if pp.len() > 0 {
        pp[0]
    } else {
        cc[0]
    });
    lemma_flags_back(s, t, tail_f);
    let pre_w = seq!['%'] + ff;
    let tail_w = pp + cc;
    assert(t =~= pre_w + ww + tail_w);
    lemma_width_back(s, t, pre_w, tail_w);
    let pre_p = pre_w + ww;
    assert(t =~= pre_p + pp + cc);
    lemma_precision_back(s, t, pre_p, cc);
    let pre_c = pre_p + pp;
    assert(t =~= pre_c + cc);
    lemma_conv_back(s.conv, t, pre_c);
    let r = parse_spec(t, 1);
    assert(r.0 == s);
}

fn push_if(out: &mut String, b: bool, c: char)
    ensures
        final(out)@ == old(out)@ + opt_char(b, c),
{
    if b {
        push_char(out, c);
    }
    proof {
        assert(out@ =~= old(out)@ + opt_char(b, c));
    }
}

fn push_flags(out: &mut String, s: &Spec)
    ensures
        final(out)@ == old(out)@ + flags_text(*s),
{
    push_if(out, s.minus, '-');
    push_if(out, s.plus, '+');
    push_if(out, s.space, ' ');
    push_if(out, s.zero, '0');
    push_if(out, s.hash, '#');
    proof {
        assert(out@ =~= old(out)@ + flags_text(*s));
    }
}

fn push_width(out: &mut String, s: &Spec)
    ensures
        final(out)@ == old(out)@ + width_text(*s),
{
    if s.width_star {
        push_char(out, '*');
    } else {
        match s.width {
            Some(w) => push_decimal(out, w),
            None => {},
        }
    }
    proof {
        assert(out@ =~= old(out)@ + width_text(*s));
    }
}

fn push_precision(out: &mut String, s: &Spec)
    ensures
        final(out)@ == old(out)@ + precision_text(*s),
{
    if s.has_precision {
        push_char(out, '.');
        if s.prec_star {
            push_char(out, '*');
        } else {
            push_decimal(out, s.precision);
        }
    }
    proof {
        assert(out@ =~= old(out)@ + precision_text(*s));
    }
}

fn push_conv(out: &mut String, c: char)
    ensures
        final(out)@ == old(out)@ + conv_text(c),
{
    if c == 'd' || c == 'i' || c == 'u' || c == 'x' || c == 'X' || c == 'o' {
        push_char(out, 'l');
        push_char(out, 'l');
        push_char(out, c);
    } else if c != '\0' {
        push_char(out, c);
    }
    proof {
        assert(out@ =~= old(out)@ + conv_text(c));
    }
}

/// Rebuilds a libc format string from `s`, injecting the `ll` length on
/// integer conversions so a 64-bit argument is read in full.
pub fn to_c_format(s: &Spec) -> (r: String)
    ensures
        r@ == c_format(*s),
{
    let mut out = String::new();
    if s.conv == '%' {
        push_char(&mut out, '%');
        push_char(&mut out, '%');
        proof {
            assert(out@ =~= c_format(*s));
        }
        return out;
    }
    push_char(&mut out, '%');
    push_flags(&mut out, s);
    push_width(&mut out, s);
    push_precision(&mut out, s);
    push_conv(&mut out, s.conv);
    out
}

// ---- laying out conversions ----

/// The integer conversion laid out: `digits` padded with zeros to `precision`
/// digits (a zero value with precision 0 printing no digits), after the sign
/// and the alternate-form prefix; then padded to `width` with spaces (on the
/// right with `-`), or with zeros after the prefix when `0` is set and no
/// precision is given. Lengths are counted in bytes.
pub open spec fn int_layout(s: Spec, width: Option<usize>, precision: Option<usize>, sign: Seq<char>, sign_len: int, alt: Seq<char>, alt_len: int, digits: Seq<char>, digits_len: int) -> Seq<char> {
    let cleared = precision == Some(0usize) && digits == seq!['0'];
    let d: Seq<char> = if cleared {
        seq![]
    } else {
        digits
    };
    let dlen: int = if cleared {
        0
    } else {
        digits_len
    };
    let zp: int = match precision {
        Some(p) => if p > dlen {
            p - dlen
        } else {
            0
        },
        None => 0,
    };
    let body = sign + alt + repeat_char('0', zp) + d;
    let body_len = sign_len + alt_len + dlen + zp;
    let w: int = match width {
        Some(w) => w as int,
        None => 0,
    };
    if w <= body_len {
        body
    } else if s.minus {
        body + repeat_char(' ', w - body_len)
    } else if s.zero && precision is None {
        sign + alt + repeat_char('0', w - body_len) + d
    } else {
        repeat_char(' ', w - body_len) + body
    }
}

/// Where the padding of an integer conversion goes. The digits, zero-filled
/// on the left to `precision` digits (none for a zero value with precision
/// 0), follow the sign and the alternate-form prefix: that unpadded text is
/// `body`. Spaces make up the width: before the body when right-justified,
/// after it with `-`; with `0` and no precision, zeros go between the prefix
/// and the digits instead. Widths and lengths count bytes.
pub proof fn lemma_int_layout_padding(
    s: Spec,
    width: Option<usize>,
    precision: Option<usize>,
    sign: Seq<char>,
    sign_len: int,
    alt: Seq<char>,
    alt_len: int,
    digits: Seq<char>,
    digits_len: int,
)
    ensures
        ({
            let r = int_layout(s, width, precision, sign, sign_len, alt, alt_len, digits, digits_len);
            let zero_value = precision == Some(0usize) && digits == seq!['0'];
            let d: Seq<char> = if zero_value { seq![] } else { digits };
            let dlen: int = if zero_value { 0 } else { digits_len };
            let zeros: int = match precision {
                Some(p) => if p > dlen { p - dlen } else { 0 },
                None => 0,
            };
            let body = sign + alt + repeat_char('0', zeros) + d;
            let w: int = match width {
                Some(w) => w as int,
                None => 0,
            };
            let pad: int = if w > sign_len + alt_len + zeros + dlen { w - (sign_len + alt_len + zeros + dlen) } else { 0 };
            &&& !s.minus && !(s.zero && precision is None) ==> {
                &&& r.len() == pad + body.len()
                &&& forall|k: int| 0 <= k < pad ==> r[k] == ' '
                &&& r.subrange(pad, r.len() as int) == body
            }
            &&& s.minus ==> {
                &&& r.len() == body.len() + pad
                &&& r.subrange(0, body.len() as int) == body
                &&& forall|k: int| body.len() <= k < r.len() ==> r[k] == ' '
            }
            &&& !s.minus && s.zero && precision is None ==> {
                &&& r.len() == sign.len() + alt.len() + pad + d.len()
                &&& r.subrange(0, (sign.len() + alt.len()) as int) == sign + alt
                &&& forall|k: int| sign.len() + alt.len() <= k < sign.len() + alt.len() + pad ==> r[k] == '0'
                &&& r.subrange(sign.len() + alt.len() + pad, r.len() as int) == d
            }
        }),
{
    let r = int_layout(s, width, precision, sign, sign_len, alt, alt_len, digits, digits_len);
    let zero_value = precision == Some(0usize) && digits == seq!['0'];
    let d: Seq<char> = if zero_value { seq![] } else { digits };
    let dlen: int = if zero_value { 0 } else { digits_len };
    let zeros: int = match precision {
        Some(p) => if p > dlen { p - dlen } else { 0 },
        None => 0,
    };
    let body = sign + alt + repeat_char('0', zeros) + d;
    let w: int = match width {
        Some(w) => w as int,
        None => 0,
    };
    let pad: int = if w > sign_len + alt_len + zeros + dlen { w - (sign_len + alt_len + zeros + dlen) } else { 0 };
    if !s.minus && !(s.zero && precision is None) {
        assert(r =~= repeat_char(' ', pad) + body);
        assert(r.subrange(pad, r.len() as int) =~= body);
    }
    if s.minus {
        assert(r =~= body + repeat_char(' ', pad));
        assert(r.subrange(0, body.len() as int) =~= body);
    }
    if !s.minus && s.zero && precision is None {
        assert(r =~= sign + alt + repeat_char('0', pad) + d);
        assert(r.subrange(0, (sign.len() + alt.len()) as int) =~= sign + alt);
        assert(r.subrange(sign.len() + alt.len() + pad, r.len() as int) =~= d);
    }
}

/// Lays out an integer conversion: `precision` is the minimum digit count,
/// then `width` and the flags apply. `sign` is "", "-", "+" or " "; `alt` an
/// alternate-form prefix such as "0x". With a precision the `0` flag is
/// ignored, and a zero value with precision 0 prints no digits.
pub fn render_int(s: &Spec, width: Option<usize>, precision: Option<usize>, sign: &str, alt: &str, digits: &str) -> (r:
    String)
    requires
        sign.spec_bytes().len() + alt.spec_bytes().len() + digits.spec_bytes().len() + (match precision {
            Some(p) => p as int,
            None => 0,
        }) <= usize::MAX,
    ensures
        r@ == int_layout(
            *s,
            width,
            precision,
            sign@,
            sign.spec_bytes().len() as int,
            alt@,
            alt.spec_bytes().len() as int,
            digits@,
            digits.spec_bytes().len() as int,
        ),
{
    proof {
        reveal_strlit("0");
        assert("0"@ =~= seq!['0']);
    }
    let cleared = match precision {
        Some(p) => p == 0 && str_eq(digits, "0"),
        None => false,
    };
    let dlen: usize = if cleared {
        0
    } else {
        digits.len()
    };
    let zp: usize = match precision {
        Some(p) => if p > dlen {
            p - dlen
        } else {
            0
        },
        None => 0,
    };
    let body_len = sign.len() + alt.len() + dlen + zp;
    let w: usize = match width {
        Some(w) => w,
        None => 0,
    };
    let ghost d: Seq<char> = if cleared {
        seq![]
    } else {
        digits@
    };
    let ghost body = sign@ + alt@ + repeat_char('0', zp as int) + d;
    let mut out = String::new();
    if w <= body_len || s.minus {
        out.append(sign);
        out.append(alt);
        push_repeat(&mut out, '0', zp);
        if !cleared {
            out.append(digits);
        }
        proof {
            assert(out@ =~= body);
        }
        if w > body_len {
            push_repeat(&mut out, ' ', w - body_len);
        }
    } else if s.zero && precision.is_none() {
        out.append(sign);
        out.append(alt);
        push_repeat(&mut out, '0', w - body_len);
        if !cleared {
            out.append(digits);
        }
        proof {
            assert(out@ =~= sign@ + alt@ + repeat_char('0', w - body_len) + d);
        }
    } else {
        push_repeat(&mut out, ' ', w - body_len);
        let ghost pad = out@;
        out.append(sign);
        out.append(alt);
        push_repeat(&mut out, '0', zp);
        if !cleared {
            out.append(digits);
        }
        proof {
            assert(out@ =~= pad + body);
        }
    }
    out
}

/// The end of the longest prefix of at most `p` bytes that ends on a
/// character boundary.
pub open spec fn trunc_end(bytes: Seq<u8>, p: int) -> int
    decreases p,
{
    let k = if p < bytes.len() {
        p
    } else {
        bytes.len() as int
    };
    if k <= 0 {
        0
    } else if is_char_boundary(bytes, k) {
        k
    } else {
        trunc_end(bytes, k - 1)
    }
}

/// The string conversion laid out: `body` cut to at most `precision` bytes (at
/// a character boundary), then padded with spaces to `width` bytes, on the
/// right with `-`.
pub open spec fn str_layout(s: Spec, width: Option<usize>, precision: Option<usize>, body: Seq<u8>) -> Seq<char> {
    let end = match precision {
        Some(p) => trunc_end(body, p as int),
        None => body.len() as int,
    };
    let head = decode_utf8(body.subrange(0, end));
    let w: int = match width {
        Some(w) => w as int,
        None => 0,
    };
    if end >= w {
        head
    } else if s.minus {
        head + repeat_char(' ', w - end)
    } else {
        repeat_char(' ', w - end) + head
    }
}

proof fn lemma_trunc_end_clamp(bytes: Seq<u8>, p: int)
    requires
        p >= 0,
    ensures
        trunc_end(bytes, p) == trunc_end(bytes, if p < bytes.len() { p } else { bytes.len() as int }),
{
    let k = if p < bytes.len() {
        p
    } else {
        bytes.len() as int
    };
    assert(trunc_end(bytes, k) == (if k <= 0 {
        0
    } else if is_char_boundary(bytes, k) {
        k
    } else {
        trunc_end(bytes, k - 1)
    }));
}

proof fn lemma_trunc_end_bounds(bytes: Seq<u8>, p: int)
    ensures
        0 <= trunc_end(bytes, p) <= bytes.len(),
        trunc_end(bytes, p) <= p || trunc_end(bytes, p) == 0,
    decreases p,
{
    let k = if p < bytes.len() {
        p
    } else {
        bytes.len() as int
    };
    if k > 0 && !is_char_boundary(bytes, k) {
        lemma_trunc_end_bounds(bytes, k - 1);
    }
}

/// Lays out a string conversion: cut `body` to `precision` bytes (backing off
/// to a character boundary), then pad to `width` bytes, left-justified with `-`.
pub fn render_str(s: &Spec, width: Option<usize>, precision: Option<usize>, body: &str) -> (r: String)
    ensures
        r@ == str_layout(*s, width, precision, body.spec_bytes()),
{
    let ghost bytes = body.spec_bytes();
    let nbytes = body.as_bytes().len();
    proof {
        vstd::utf8::encode_utf8_valid_utf8(body@);
    }
    let head: &str = match precision {
        Some(p) => {
            let mut end = if p < nbytes {
                p
            } else {
                nbytes
            };
            proof {
                lemma_trunc_end_clamp(bytes, p as int);
            }
            while end > 0 && !body.is_char_boundary(end)
                invariant
                    end <= bytes.len(),
                    bytes == body.spec_bytes(),
                    vstd::utf8::valid_utf8(bytes),
                    trunc_end(bytes, p as int) == trunc_end(bytes, end as int),
                decreases end,
            {
                end -= 1;
            }
            proof {
                assert(is_char_boundary(bytes, end as int));
                assert(trunc_end(bytes, end as int) == end);
            }
            body.split_at(end).0
        },
        None => {
            proof {
                assert(bytes.subrange(0, bytes.len() as int) =~= bytes);
            }
            body
        },
    };
    proof {
        vstd::utf8::encode_utf8_decode_utf8(head@);
    }
    let len = head.len();
    let w: usize = match width {
        Some(w) => w,
        None => 0,
    };
    let mut out = String::new();
    if len >= w {
        out.append(head);
    } else if s.minus {
        out.append(head);
        push_repeat(&mut out, ' ', w - len);
    } else {
        push_repeat(&mut out, ' ', w - len);
        out.append(head);
    }
    proof {
        assert(out@ =~= str_layout(*s, width, precision, bytes));
    }
    out
}


// ---- whole format strings ----

/// Parsing a spec consumes at least nothing and stays within the text.
pub proof fn lemma_parse_spec_advances(s: Seq<char>, i: int)
    requires
        0 <= i <= s.len(),
    ensures
        i <= parse_spec(s, i).1 <= s.len(),
{
    lemma_flags_end_bounds(s, i);
    let f = flags_end(s, i);
    lemma_digits_end_bounds(s, f);
    let after_w = width_part(s, f).2;
    if after_w < s.len() && s[after_w] == '.' && !(after_w + 1 < s.len() && s[after_w + 1] == '*') {
        lemma_digits_end_bounds(s, after_w + 1);
    }
    let after_p = precision_part(s, after_w).3;
    lemma_lengths_end_bounds(s, after_p);
}

/// The characters of `s` from `i` on with every `%` spec rewritten as
/// `c_format` of it; other characters copied.
pub open spec fn translated_from(s: Seq<char>, i: int) -> Seq<char>
    decreases s.len() - i,
{
    if i < 0 || i >= s.len() {
        seq![]
    } else if s[i] != '%' {
        seq![s[i]] + translated_from(s, i + 1)
    } else {
        proof {
            lemma_parse_spec_advances(s, i + 1);
        }
        c_format(parse_spec(s, i + 1).0) + translated_from(s, parse_spec(s, i + 1).1)
    }
}

/// The characters of `s`, in order.
pub fn str_chars(s: &str) -> (r: Vec<char>)
    ensures
        r@ == s@,
{
    let n = s.unicode_len();
    let mut r: Vec<char> = Vec::new();
    let mut i: usize = 0;
    while i < n
        invariant
            i <= n,
            n == s@.len(),
            r@ == s@.take(i as int),
        decreases n - i,
    {
        r.push(s.get_char(i));
        i += 1;
        proof {
            assert(r@ =~= s@.take(i as int));
        }
    }
    proof {
        assert(s@.take(n as int) =~= s@);
    }
    r
}

/// A format string with each conversion spec rebuilt for libc (`ll` injected on
/// integer conversions, so libc reads the 64-bit argument and honours the same
/// flags as the interpreter).
pub fn translate_format(fmt: &str) -> (r: String)
    ensures
        r@ == translated_from(fmt@, 0),
{
    let cs = str_chars(fmt);
    let mut out = String::new();
    let mut i: usize = 0;
    while i < cs.len()
        invariant
            i <= cs.len(),
            cs@ == fmt@,
            out@ + translated_from(fmt@, i as int) == translated_from(fmt@, 0),
        decreases cs.len() - i,
    {
        let c = cs[i];
        i += 1;
        if c != '%' {
            push_char(&mut out, c);
            proof {
                assert(out@ + translated_from(fmt@, i as int) =~= translated_from(fmt@, 0));
            }
        } else {
            let ghost at = i as int;
            proof {
                lemma_parse_spec_advances(fmt@, at);
            }
            let spec = parse(cs.as_slice(), &mut i);
            let text = to_c_format(&spec);
            out.append(text.as_str());
            proof {
                assert(out@ + translated_from(fmt@, i as int) =~= translated_from(fmt@, 0));
            }
        }
    }
    proof {
        assert(out@ =~= translated_from(fmt@, 0));
    }
    out
}

} // verus!
