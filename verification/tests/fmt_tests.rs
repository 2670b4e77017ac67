use solomon::fmt::{parse, render_int, render_str, to_c_format, translate_format, Spec};

fn spec(fmt: &str) -> Spec {
    let chars: Vec<char> = fmt.chars().collect();
    assert_eq!(chars.first(), Some(&'%'));
    let mut pos: usize = 1;
    parse(&chars, &mut pos)
}

#[test]
fn parses_flags_width_precision_length() {
    let s = spec("%-+08.3lld");
    assert!(s.minus && s.plus && s.zero);
    assert_eq!(s.width, Some(8));
    assert!(s.has_precision);
    assert_eq!(s.precision, 3);
    assert_eq!(s.conv, 'd');
}

#[test]
fn native_injects_ll_for_integers() {
    assert_eq!(to_c_format(&spec("%d")), "%lld");
    assert_eq!(to_c_format(&spec("%05x")), "%05llx");
    assert_eq!(to_c_format(&spec("%-8u")), "%-8llu");
    assert_eq!(to_c_format(&spec("%llu")), "%llu");
    assert_eq!(to_c_format(&spec("%#X")), "%#llX");
    assert_eq!(to_c_format(&spec("%f")), "%f");
    assert_eq!(to_c_format(&spec("%.2f")), "%.2f");
    assert_eq!(to_c_format(&spec("%%")), "%%");
}

#[test]
fn renders_int_padding() {
    // %5d of 42
    assert_eq!(render_int(&spec("%5d"), Some(5), None, "", "", "42"), "   42");
    // %-5d of 42
    assert_eq!(render_int(&spec("%-5d"), Some(5), None, "", "", "42"), "42   ");
    // %05x of 255 -> "000ff"
    assert_eq!(render_int(&spec("%05x"), Some(5), None, "", "", "ff"), "000ff");
    // %+d of 7
    assert_eq!(render_int(&spec("%+d"), None, None, "+", "", "7"), "+7");
    // %#x of 255 -> 0xff
    assert_eq!(render_int(&spec("%#x"), None, None, "", "0x", "ff"), "0xff");
    // %.3d of 5 -> 005
    assert_eq!(render_int(&spec("%.3d"), None, Some(3), "", "", "5"), "005");
    // zero flag ignored when precision given
    assert_eq!(render_int(&spec("%08.2d"), Some(8), Some(2), "", "", "5"), "      05");
}

#[test]
fn renders_str_padding() {
    assert_eq!(render_str(&spec("%10s"), Some(10), None, "hi"), "        hi");
    assert_eq!(render_str(&spec("%-10s"), Some(10), None, "hi"), "hi        ");
    assert_eq!(render_str(&spec("%.2s"), None, Some(2), "hello"), "he");
}

#[test]
fn parse_stops_after_conversion_and_reads_stars() {
    let chars: Vec<char> = "%*.*sX".chars().collect();
    let mut pos: usize = 1;
    let s = parse(&chars, &mut pos);
    assert!(s.width_star && s.prec_star && s.has_precision);
    assert_eq!(s.width, None);
    assert_eq!(s.conv, 's');
    assert_eq!(pos, 5);
}

#[test]
fn parse_at_end_of_input_gives_no_conversion() {
    let chars: Vec<char> = "%-5".chars().collect();
    let mut pos: usize = 1;
    let s = parse(&chars, &mut pos);
    assert!(s.minus);
    assert_eq!(s.width, Some(5));
    assert_eq!(pos, 3);
}

#[test]
fn render_int_zero_pad_goes_after_sign_and_prefix() {
    assert_eq!(render_int(&spec("%08x"), Some(8), None, "-", "0x", "ff"), "-0x000ff");
    assert_eq!(render_int(&spec("%-6d"), Some(6), Some(3), "+", "", "7"), "+007  ");
}

#[test]
fn render_str_wider_than_width_is_not_cut() {
    assert_eq!(render_str(&spec("%2s"), Some(2), None, "hello"), "hello");
    assert_eq!(render_str(&spec("%-4.3s"), Some(4), Some(3), "hello"), "hel ");
}

#[test]
fn translate_format_rewrites_integer_conversions() {
    assert_eq!(translate_format("x=%d y=%5u%%\n"), "x=%lld y=%5llu%%\n");
    assert_eq!(translate_format("%s and %f"), "%s and %f");
}

#[test]
fn rebuilt_format_parses_back_to_the_same_spec() {
    for f in ["%d", "%-+ 0#12.5lli", "%*.*x", "%.f", "%99999s", "%#o", "%.700e", "%+G", "%c", "%p"] {
        let s = spec(f);
        let rebuilt = to_c_format(&s);
        let t = spec(&rebuilt);
        let mut pos: usize = 1;
        let chars: Vec<char> = rebuilt.chars().collect();
        parse(&chars, &mut pos);
        assert_eq!(pos, chars.len(), "{}", rebuilt);
        assert_eq!(
            (t.minus, t.plus, t.space, t.zero, t.hash, t.width_star, t.width, t.has_precision, t.prec_star, t.precision, t.conv),
            (s.minus, s.plus, s.space, s.zero, s.hash, s.width_star, s.width, s.has_precision, s.prec_star, s.precision, s.conv),
            "{} -> {}",
            f,
            rebuilt
        );
    }
}
