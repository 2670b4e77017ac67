use solomon::lexer::{tokenize, Lexer};
use solomon::token::{Keyword, Pos, TokenKind};

fn kinds(src: &str) -> Vec<TokenKind> {
    tokenize(src).expect("lexes").into_iter().map(|t| t.kind).collect()
}

fn err(src: &str) -> (String, Pos) {
    let e = tokenize(src).expect_err("fails");
    (e.message, e.pos)
}

#[test]
fn names_and_keywords() {
    let k = kinds("if x1 _y else U0 Bool");
    assert_eq!(k.len(), 7);
    assert!(matches!(k[0], TokenKind::Keyword(Keyword::If)));
    assert!(matches!(&k[1], TokenKind::Ident(s) if s == "x1"));
    assert!(matches!(&k[2], TokenKind::Ident(s) if s == "_y"));
    assert!(matches!(k[3], TokenKind::Keyword(Keyword::Else)));
    assert!(matches!(k[4], TokenKind::Keyword(Keyword::U0)));
    assert!(matches!(k[5], TokenKind::Keyword(Keyword::Bool)));
    assert!(matches!(k[6], TokenKind::Eof));
}

#[test]
fn integer_literals_in_every_radix() {
    let k = kinds("0x1F 0b101 017 42 0 0xFFFFFFFFFFFFFFFF 9223372036854775807");
    assert!(matches!(k[0], TokenKind::Int(31)));
    assert!(matches!(k[1], TokenKind::Int(5)));
    assert!(matches!(k[2], TokenKind::Int(15)));
    assert!(matches!(k[3], TokenKind::Int(42)));
    assert!(matches!(k[4], TokenKind::Int(0)));
    assert!(matches!(k[5], TokenKind::Int(-1)));
    assert!(matches!(k[6], TokenKind::Int(i64::MAX)));
}

#[test]
fn float_literals_keep_their_text() {
    let k = kinds("1.5 2e10 3.0e-2 7E+1");
    assert!(matches!(&k[0], TokenKind::Float(s) if s == "1.5"));
    assert!(matches!(&k[1], TokenKind::Float(s) if s == "2e10"));
    assert!(matches!(&k[2], TokenKind::Float(s) if s == "3.0e-2"));
    assert!(matches!(&k[3], TokenKind::Float(s) if s == "7E+1"));
}

#[test]
fn dot_without_digit_is_not_a_fraction() {
    let k = kinds("1.foo 2e");
    assert!(matches!(k[0], TokenKind::Int(1)));
    assert!(matches!(k[1], TokenKind::Dot));
    assert!(matches!(&k[2], TokenKind::Ident(s) if s == "foo"));
    assert!(matches!(k[3], TokenKind::Int(2)));
    assert!(matches!(&k[4], TokenKind::Ident(s) if s == "e"));
}

#[test]
fn bad_integer_literals() {
    assert_eq!(err("x = 08;").0, "invalid octal literal `08` (digits must be 0-7)");
    assert_eq!(err("99999999999999999999").0, "integer literal `99999999999999999999` out of range");
    assert_eq!(err("0x").0, "missing digits after radix prefix");
    assert_eq!(err("0x10000000000000000").0, "integer literal out of range");
}

#[test]
fn string_literals_and_escapes() {
    let k = kinds("\"a\\n\\x41\\t\u{e9}\"");
    assert!(matches!(&k[0], TokenKind::Str(s) if s == "a\nA\t\u{e9}"));
    assert_eq!(err("\"abc").0, "unterminated string literal");
    assert_eq!(err("\"a\nb\"").0, "unterminated string literal");
    assert_eq!(err("\"\\q\"").0, "unknown escape sequence `\\q`");
    assert_eq!(err("\"\\x\"").0, "expected hex digits after `\\x`");
}

#[test]
fn character_constants_pack_little_endian() {
    let k = kinds("'A' 'AB' '\\n' '\\xff'");
    assert!(matches!(k[0], TokenKind::Char(0x41)));
    assert!(matches!(k[1], TokenKind::Char(0x4241)));
    assert!(matches!(k[2], TokenKind::Char(10)));
    assert!(matches!(k[3], TokenKind::Char(0xff)));
    assert_eq!(err("''").0, "empty character constant");
    assert_eq!(err("'abcdefghi'").0, "character constant too long (max 8 bytes)");
    assert_eq!(err("'\u{263a}'").0, "character constant byte out of range");
    assert_eq!(err("'a").0, "unterminated character constant");
}

#[test]
fn operators_take_the_longest_match() {
    let k = kinds("<<= >>= << >> <= >= < > ... . -> -- -= :: := ++ += && || &= |= ^= == != ~ ? @ # `");
    let expect = [
        "ShlEq", "ShrEq", "Shl", "Shr", "Le", "Ge", "Lt", "Gt", "DotDotDot", "Dot", "Arrow", "MinusMinus", "MinusEq",
        "ColonColon", "ColonEq", "PlusPlus", "PlusEq", "AndAnd", "OrOr", "AmpEq", "PipeEq", "CaretEq", "EqEq", "Ne",
        "Tilde", "Question", "At", "Hash", "Backtick", "Eof",
    ];
    assert_eq!(k.len(), expect.len());
    for (kind, name) in k.iter().zip(expect.iter()) {
        assert_eq!(format!("{:?}", kind), *name);
    }
}

#[test]
fn comments_and_positions() {
    let toks = tokenize("// line\n  /* block\n */ ab = 1;").expect("lexes");
    assert!(matches!(&toks[0].kind, TokenKind::Ident(s) if s == "ab"));
    assert_eq!(toks[0].span.pos, Pos { line: 3, col: 5 });
    assert_eq!(toks[0].span.start, 23);
    assert_eq!(toks[0].span.end, 25);
    assert!(matches!(toks[1].kind, TokenKind::Eq));
    assert_eq!(toks[1].span.pos, Pos { line: 3, col: 8 });
    let last = toks.last().unwrap();
    assert!(matches!(last.kind, TokenKind::Eof));
    assert_eq!(last.span.start, 30);
}

#[test]
fn lexical_errors_carry_positions() {
    assert_eq!(err("a\n  /* open"), ("unterminated block comment".to_string(), Pos { line: 2, col: 3 }));
    assert_eq!(err("x $"), ("unexpected character `$`".to_string(), Pos { line: 1, col: 3 }));
}

#[test]
fn eof_repeats_after_the_end() {
    let mut lx = Lexer::new("a");
    assert!(matches!(lx.next_token().unwrap().kind, TokenKind::Ident(_)));
    assert!(matches!(lx.next_token().unwrap().kind, TokenKind::Eof));
    assert!(matches!(lx.next_token().unwrap().kind, TokenKind::Eof));
}
