use solomon::fmt::{parse, Spec};
use solomon::interp::{
    abs_i64, float_sign, parse_atoll, sign_i64, str_compare, str_n_compare, subslice_index, to_lower, to_upper,
};

fn spec(fmt: &str) -> Spec {
    let chars: Vec<char> = fmt.chars().collect();
    let mut pos: usize = 1;
    parse(&chars, &mut pos)
}

#[test]
fn atoll_skips_space_and_reads_a_signed_prefix() {
    assert_eq!(parse_atoll(b"  -42abc"), -42);
    assert_eq!(parse_atoll(b"+7"), 7);
    assert_eq!(parse_atoll(b"\t\n\r\x0c 12 34"), 12);
    assert_eq!(parse_atoll(b"0012"), 12);
}

#[test]
fn atoll_without_digits_is_zero() {
    assert_eq!(parse_atoll(b""), 0);
    assert_eq!(parse_atoll(b"- 5"), 0);
    assert_eq!(parse_atoll(b"abc"), 0);
    // A vertical tab is not whitespace to `is_ascii_whitespace`.
    assert_eq!(parse_atoll(b"\x0b5"), 0);
}

#[test]
fn atoll_wraps_to_64_bits() {
    assert_eq!(parse_atoll(b"99999999999999999999"), 7766279631452241919);
    assert_eq!(parse_atoll(b"9223372036854775808"), i64::MIN);
    assert_eq!(parse_atoll(b"-9223372036854775808"), i64::MIN);
    assert_eq!(parse_atoll(b"18446744073709551615"), -1);
}

#[test]
fn subslice_index_finds_the_first_occurrence() {
    assert_eq!(subslice_index(b"hello", b"ll"), Some(2));
    assert_eq!(subslice_index(b"abab", b"ab"), Some(0));
    assert_eq!(subslice_index(b"xabab", b"bab"), Some(2));
    assert_eq!(subslice_index(b"abc", b""), Some(0));
    assert_eq!(subslice_index(b"", b""), Some(0));
    assert_eq!(subslice_index(b"ab", b"abc"), None);
    assert_eq!(subslice_index(b"aaa", b"b"), None);
    assert_eq!(subslice_index(b"abc", b"abc"), Some(0));
}

#[test]
fn float_sign_follows_the_flags() {
    assert_eq!(float_sign(true, &spec("%+f")), "-");
    assert_eq!(float_sign(false, &spec("%+f")), "+");
    assert_eq!(float_sign(false, &spec("% f")), " ");
    assert_eq!(float_sign(false, &spec("%f")), "");
    assert_eq!(float_sign(true, &spec("%f")), "-");
}

#[test]
fn string_comparison_gives_a_sign() {
    assert_eq!(str_compare(b"abc", b"abc"), 0);
    assert_eq!(str_compare(b"abc", b"abd"), -1);
    assert_eq!(str_compare(b"abd", b"abc"), 1);
    assert_eq!(str_compare(b"ab", b"abc"), -1);
    assert_eq!(str_compare(b"abc", b"ab"), 1);
    assert_eq!(str_compare(b"", b""), 0);
    assert_eq!(str_compare(b"\xff", b"a"), 1);
}

#[test]
fn bounded_string_comparison_looks_at_n_bytes() {
    assert_eq!(str_n_compare(b"abcX", b"abcY", 3), 0);
    assert_eq!(str_n_compare(b"abcX", b"abcY", 4), -1);
    assert_eq!(str_n_compare(b"ab", b"abc", 10), -1);
    assert_eq!(str_n_compare(b"zzz", b"aaa", 0), 0);
    assert_eq!(str_n_compare(b"zzz", b"aaa", -5), 0);
}

#[test]
fn integer_builtins() {
    assert_eq!(to_upper(b'a' as i64), b'A' as i64);
    assert_eq!(to_upper(b'Z' as i64), b'Z' as i64);
    assert_eq!(to_upper(200), 200);
    assert_eq!(to_lower(b'Q' as i64), b'q' as i64);
    assert_eq!(to_lower(b'1' as i64), b'1' as i64);
    assert_eq!(abs_i64(-7), 7);
    assert_eq!(abs_i64(i64::MAX), i64::MAX);
    assert_eq!(sign_i64(-3), -1);
    assert_eq!(sign_i64(0), 0);
    assert_eq!(sign_i64(42), 1);
}
