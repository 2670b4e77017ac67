//! The HolyC lexer: turns source text into a stream of tokens.
//!
//! The lexer works over the raw bytes of the source. Every syntactically
//! meaningful HolyC character is ASCII; other bytes appear only inside string
//! and character literals and comments, where they pass through.
//!
//! What each step reads is stated over the source bytes by the spec functions
//! below: `trivia_end` for whitespace and comments, `ident_end` for names,
//! `number_token`, `string_token` and `char_token` for literals, and
//! `op_token` for operators; `next_tok` puts them together.
use crate::text::owned;
use crate::token::{keyword_text, Keyword, Pos, Span, Token, TokenKind};
use vstd::prelude::*;
use vstd::string::{StrSliceExecFns, StringExecFns, StringSliceAdditionalSpecFns};

verus! {

/// A lexical error and the position at which it occurred.
#[derive(Clone, Debug)]
pub struct LexError {
    pub message: String,
    pub pos: Pos,
}

// ---- positions ----

/// The 1-based line and column reached after the first `i` bytes of `src`.
pub open spec fn pos_after(src: Seq<u8>, i: int) -> (int, int)
    decreases i,
{
    if i <= 0 {
        (1, 1)
    } else {
        let (l, c) = pos_after(src, i - 1);
        if src[i - 1] == 10u8 {
            (l + 1, 1)
        } else {
            (l, c + 1)
        }
    }
}

/// The position of byte `i` of `src`.
pub open spec fn pos_of(src: Seq<u8>, i: int) -> Pos {
    Pos { line: pos_after(src, i).0 as u32, col: pos_after(src, i).1 as u32 }
}

proof fn lemma_pos_bound(src: Seq<u8>, i: int)
    requires
        0 <= i,
    ensures
        1 <= pos_after(src, i).0 <= i + 1,
        1 <= pos_after(src, i).1 <= i + 1,
    decreases i,
{
    if i > 0 {
        lemma_pos_bound(src, i - 1);
    }
}

/// The byte at `i`, if there is one.
pub open spec fn at(src: Seq<u8>, i: int) -> Option<u8> {
    if 0 <= i < src.len() {
        Some(src[i])
    } else {
        None
    }
}

// ---- trivia ----

/// Space, tab, carriage return or newline.
pub open spec fn is_space(b: u8) -> bool {
    b == 32u8 || b == 9u8 || b == 13u8 || b == 10u8
}

/// The first newline at or after `i`, or the end of `src`.
pub open spec fn line_end(src: Seq<u8>, i: int) -> int
    decreases src.len() - i,
{
    if i >= src.len() || src[i] == 10u8 {
        i
    } else {
        line_end(src, i + 1)
    }
}

/// Just past the first `*/` at or after `j`, if there is one.
pub open spec fn block_end(src: Seq<u8>, j: int) -> Option<int>
    decreases src.len() - j,
{
    if j >= src.len() {
        None
    } else if src[j] == 42u8 && at(src, j + 1) == Some(47u8) {
        Some(j + 2)
    } else {
        block_end(src, j + 1)
    }
}

/// Where the whitespace and comments starting at `i` end; or, for a block
/// comment with no end, `Err` of where it starts.
pub open spec fn trivia_end(src: Seq<u8>, i: int) -> Result<int, int>
    decreases src.len() - i,
{
    if i < 0 || i >= src.len() {
        Ok(i)
    } else if is_space(src[i]) {
        trivia_end(src, i + 1)
    } else if src[i] == 47u8 && at(src, i + 1) == Some(47u8) {
        let e = line_end(src, i);
        if i < e <= src.len() {
            trivia_end(src, e)
        } else {
            Ok(i)
        }
    } else if src[i] == 47u8 && at(src, i + 1) == Some(42u8) {
        match block_end(src, i + 2) {
            None => Err(i),
            Some(e) => if i < e <= src.len() {
                trivia_end(src, e)
            } else {
                Ok(i)
            },
        }
    } else {
        Ok(i)
    }
}

proof fn lemma_line_end(src: Seq<u8>, i: int)
    requires
        0 <= i <= src.len(),
    ensures
        i <= line_end(src, i) <= src.len(),
    decreases src.len() - i,
{
    if i < src.len() && src[i] != 10u8 {
        lemma_line_end(src, i + 1);
    }
}

proof fn lemma_block_end(src: Seq<u8>, j: int)
    requires
        0 <= j,
    ensures
        block_end(src, j) matches Some(e) ==> j + 2 <= e <= src.len(),
    decreases src.len() - j,
{
    if j < src.len() && !(src[j] == 42u8 && at(src, j + 1) == Some(47u8)) {
        lemma_block_end(src, j + 1);
    }
}

/// A lexer over a source: its bytes and a cursor with its line and column.
pub struct Lexer {
    src: Vec<u8>,
    idx: usize,
    line: u32,
    col: u32,
}

impl Lexer {
    /// The source bytes.
    pub closed spec fn text(&self) -> Seq<u8> {
        self.src@
    }

    /// The cursor.
    pub closed spec fn cursor(&self) -> int {
        self.idx as int
    }

    /// The cursor is within the source, and the line and column are those
    /// of the cursor.
    pub closed spec fn wf(&self) -> bool {
        &&& self.idx <= self.src.len()
        &&& self.src.len() < u32::MAX
        &&& pos_after(self.src@, self.idx as int) == (self.line as int, self.col as int)
    }

    /// A lexer at the start of `src`.
    pub fn new(src: &str) -> (r: Lexer)
        requires
            src.spec_bytes().len() < u32::MAX,
        ensures
            r.wf(),
            r.text() == src.spec_bytes(),
            r.cursor() == 0,
    {
        let bytes = src.as_bytes();
        let mut v: Vec<u8> = Vec::new();
        let mut i: usize = 0;
        while i < bytes.len()
            invariant
                i <= bytes.len(),
                bytes@ == src.spec_bytes(),
                v@ == bytes@.take(i as int),
            decreases bytes.len() - i,
        {
            v.push(bytes[i]);
            i += 1;
            proof {
                assert(v@ =~= bytes@.take(i as int));
            }
        }
        proof {
            assert(v@ =~= bytes@);
        }
        Lexer { src: v, idx: 0, line: 1, col: 1 }
    }

    fn peek(&self) -> (r: Option<u8>)
        ensures
            r == at(self.text(), self.cursor()),
    {
        if self.idx < self.src.len() {
            Some(self.src[self.idx])
        } else {
            None
        }
    }

    fn peek2(&self) -> (r: Option<u8>)
        requires
            self.wf(),
        ensures
            r == at(self.text(), self.cursor() + 1),
    {
        if self.idx + 1 < self.src.len() {
            Some(self.src[self.idx + 1])
        } else {
            None
        }
    }

    fn peek3(&self) -> (r: Option<u8>)
        requires
            self.wf(),
        ensures
            r == at(self.text(), self.cursor() + 2),
    {
        if self.idx < self.src.len() && self.src.len() - self.idx > 2 {
            Some(self.src[self.idx + 2])
        } else {
            None
        }
    }

    /// Advances one byte, keeping the line and column.
    fn bump(&mut self) -> (r: Option<u8>)
        requires
            old(self).wf(),
        ensures
            final(self).wf(),
            final(self).text() == old(self).text(),
            r == at(old(self).text(), old(self).cursor()),
            final(self).cursor() == if r is Some {
                old(self).cursor() + 1
            } else {
                old(self).cursor()
            },
    {
        if self.idx >= self.src.len() {
            return None;
        }
        let b = self.src[self.idx];
        proof {
            lemma_pos_bound(self.src@, self.idx as int);
        }
        self.idx += 1;
        if b == 10u8 {
            self.line += 1;
            self.col = 1;
        } else {
            self.col += 1;
        }
        Some(b)
    }

    fn pos(&self) -> (r: Pos)
        requires
            self.wf(),
        ensures
            r == pos_of(self.text(), self.cursor()),
    {
        Pos::new(self.line, self.col)
    }

    /// Skips whitespace and comments.
    fn skip_trivia(&mut self) -> (r: Result<(), LexError>)
        requires
            old(self).wf(),
        ensures
            final(self).wf(),
            final(self).text() == old(self).text(),
            match trivia_end(old(self).text(), old(self).cursor()) {
                Ok(e) => r is Ok && final(self).cursor() == e,
                Err(p) => r matches Err(err) && err.pos == pos_of(old(self).text(), p) && err.message@
                    == "unterminated block comment"@,
            },
    {
        let ghost goal = trivia_end(self.src@, self.idx as int);
        loop
            invariant
                self.wf(),
                self.text() == old(self).text(),
                trivia_end(self.text(), self.cursor()) == goal,
                goal == trivia_end(old(self).text(), old(self).cursor()),
            decreases self.text().len() - self.cursor(),
        {
            let ghost i = self.idx as int;
            let b = self.peek();
            let b2 = self.peek2();
            match b {
                Some(c) => {
                    if c == 32u8 || c == 9u8 || c == 13u8 || c == 10u8 {
                        self.bump();
                        assert(trivia_end(self.text(), i) == trivia_end(self.text(), i + 1));
                    } else if c == 47u8 && b2 == Some(47u8) {
                        proof {
                            lemma_line_end(self.src@, i);
                            lemma_line_end(self.src@, i + 1);
                        }
                        while self.idx < self.src.len() && self.src[self.idx] != 10u8
                            invariant
                                self.wf(),
                                self.text() == old(self).text(),
                                i <= self.cursor(),
                                line_end(self.text(), self.cursor()) == line_end(self.text(), i),
                            decreases self.text().len() - self.cursor(),
                        {
                            self.bump();
                        }
                        assert(self.cursor() == line_end(self.text(), i));
                        assert(trivia_end(self.text(), i) == trivia_end(self.text(), self.cursor()));
                    } else if c == 47u8 && b2 == Some(42u8) {
                        let start = self.pos();
                        self.bump();
                        self.bump();
                        proof {
                            lemma_block_end(self.src@, i + 2);
                        }
                        loop
                            invariant_except_break
                                self.wf(),
                                self.text() == old(self).text(),
                                0 <= i < self.text().len(),
                                self.text()[i] == 47u8,
                                at(self.text(), i + 1) == Some(42u8),
                                start == pos_of(self.text(), i),
                                trivia_end(self.text(), i) == goal,
                                goal == trivia_end(old(self).text(), old(self).cursor()),
                                i + 2 <= self.cursor(),
                                block_end(self.text(), self.cursor()) == block_end(self.text(), i + 2),
                            ensures
                                self.wf(),
                                self.text() == old(self).text(),
                                block_end(self.text(), i + 2) == Some(self.cursor()),
                            decreases self.text().len() - self.cursor(),
                        {
                            match self.peek() {
                                None => {
                                    proof {
                                        assert(block_end(self.text(), i + 2) is None);
                                        assert(0 <= i < self.text().len());
                                        assert(self.text()[i] == 47u8);
                                        assert(at(self.text(), i + 1) == Some(42u8));
                                        assert(!is_space(self.text()[i]));
                                        assert(trivia_end(self.text(), i) == Err::<int, int>(i));
                                    }
                                    return Err(LexError { message: owned("unterminated block comment"), pos: start });
                                },
                                Some(d) => {
                                    if d == 42u8 && self.peek2() == Some(47u8) {
                                        self.bump();
                                        self.bump();
                                        break;
                                    } else {
                                        self.bump();
                                    }
                                },
                            }
                        }
                        assert(trivia_end(self.text(), i) == trivia_end(self.text(), self.cursor()));
                    } else {
                        return Ok(());
                    }
                },
                None => {
                    return Ok(());
                },
            }
        }
    }
}


// ---- identifiers and keywords ----

pub open spec fn is_ident_start(b: u8) -> bool {
    b == 95u8 || (65u8 <= b <= 90u8) || (97u8 <= b <= 122u8)
}

pub open spec fn is_ident_continue(b: u8) -> bool {
    is_ident_start(b) || (48u8 <= b <= 57u8)
}

pub open spec fn is_digit(b: u8) -> bool {
    48u8 <= b <= 57u8
}

/// The end of the run of identifier bytes starting at `i`.
pub open spec fn ident_end(src: Seq<u8>, i: int) -> int
    decreases src.len() - i,
{
    if 0 <= i < src.len() && is_ident_continue(src[i]) {
        ident_end(src, i + 1)
    } else {
        i
    }
}

/// Bytes read as characters, one each.
pub open spec fn ascii_chars(bs: Seq<u8>) -> Seq<char> {
    bs.map_values(|b: u8| b as char)
}

/// `kind` is the token for the name `text`: its keyword, or an identifier
/// when it spells none.
pub open spec fn name_kind(kind: TokenKind, text: Seq<char>) -> bool {
    match kind {
        TokenKind::Keyword(k) => keyword_text(k) == text,
        TokenKind::Ident(s) => s@ == text && forall|k: Keyword| keyword_text(k) != text,
        _ => false,
    }
}

proof fn lemma_ident_end(src: Seq<u8>, i: int)
    requires
        0 <= i <= src.len(),
    ensures
        i <= ident_end(src, i) <= src.len(),
        forall|j: int| i <= j < ident_end(src, i) ==> is_ident_continue(#[trigger] src[j]),
    decreases src.len() - i,
{
    if i < src.len() && is_ident_continue(src[i]) {
        lemma_ident_end(src, i + 1);
    }
}

/// The keyword spelled by `s`, if any.
fn keyword_of(s: &str) -> (r: Option<Keyword>)
    ensures
        match r {
            Some(k) => keyword_text(k) == s@,
            None => forall|k: Keyword| keyword_text(k) != s@,
        },
{
    if crate::text::str_eq(s, "if") { return Some(Keyword::If); }
    if crate::text::str_eq(s, "else") { return Some(Keyword::Else); }
    if crate::text::str_eq(s, "while") { return Some(Keyword::While); }
    if crate::text::str_eq(s, "do") { return Some(Keyword::Do); }
    if crate::text::str_eq(s, "for") { return Some(Keyword::For); }
    if crate::text::str_eq(s, "switch") { return Some(Keyword::Switch); }
    if crate::text::str_eq(s, "case") { return Some(Keyword::Case); }
    if crate::text::str_eq(s, "default") { return Some(Keyword::Default); }
    if crate::text::str_eq(s, "break") { return Some(Keyword::Break); }
    if crate::text::str_eq(s, "continue") { return Some(Keyword::Continue); }
    if crate::text::str_eq(s, "return") { return Some(Keyword::Return); }
    if crate::text::str_eq(s, "goto") { return Some(Keyword::Goto); }
    if crate::text::str_eq(s, "class") { return Some(Keyword::Class); }
    if crate::text::str_eq(s, "union") { return Some(Keyword::Union); }
    if crate::text::str_eq(s, "public") { return Some(Keyword::Public); }
    if crate::text::str_eq(s, "try") { return Some(Keyword::Try); }
    if crate::text::str_eq(s, "catch") { return Some(Keyword::Catch); }
    if crate::text::str_eq(s, "throw") { return Some(Keyword::Throw); }
    if crate::text::str_eq(s, "sizeof") { return Some(Keyword::Sizeof); }
    if crate::text::str_eq(s, "start") { return Some(Keyword::Start); }
    if crate::text::str_eq(s, "end") { return Some(Keyword::End); }
    if crate::text::str_eq(s, "U0") { return Some(Keyword::U0); }
    if crate::text::str_eq(s, "I8") { return Some(Keyword::I8); }
    if crate::text::str_eq(s, "I16") { return Some(Keyword::I16); }
    if crate::text::str_eq(s, "I32") { return Some(Keyword::I32); }
    if crate::text::str_eq(s, "I64") { return Some(Keyword::I64); }
    if crate::text::str_eq(s, "U8") { return Some(Keyword::U8); }
    if crate::text::str_eq(s, "U16") { return Some(Keyword::U16); }
    if crate::text::str_eq(s, "U32") { return Some(Keyword::U32); }
    if crate::text::str_eq(s, "U64") { return Some(Keyword::U64); }
    if crate::text::str_eq(s, "F64") { return Some(Keyword::F64); }
    if crate::text::str_eq(s, "Bool") { return Some(Keyword::Bool); }
    None
}

/// The bytes `src[from..to]` as a string of one character each.
fn ascii_string(src: &Vec<u8>, from: usize, to: usize) -> (r: String)
    requires
        from <= to <= src.len(),
    ensures
        r@ == ascii_chars(src@.subrange(from as int, to as int)),
{
    let mut out = String::new();
    let mut i = from;
    while i < to
        invariant
            from <= i <= to <= src.len(),
            out@ == ascii_chars(src@.subrange(from as int, i as int)),
        decreases to - i,
    {
        crate::text::push_char(&mut out, src[i] as char);
        i += 1;
        proof {
            assert(ascii_chars(src@.subrange(from as int, i as int)) =~= ascii_chars(
                src@.subrange(from as int, i - 1),
            ).push(src@[i - 1] as char));
        }
    }
    out
}

impl Lexer {
    /// Lexes a name from `start`, the cursor, as a keyword or an identifier.
    fn lex_ident(&mut self, start: usize, pos: Pos) -> (t: Token)
        requires
            old(self).wf(),
            start == old(self).cursor(),
        ensures
            final(self).wf(),
            final(self).text() == old(self).text(),
            final(self).cursor() == ident_end(old(self).text(), start as int),
            name_kind(t.kind, ascii_chars(old(self).text().subrange(start as int, final(self).cursor()))),
            t.span == (Span { start, end: final(self).cursor() as usize, pos }),
    {
        proof {
            lemma_ident_end(self.src@, start as int);
        }
        while self.idx < self.src.len() && (self.src[self.idx] == 95u8 || (65u8 <= self.src[self.idx]
            && self.src[self.idx] <= 90u8) || (97u8 <= self.src[self.idx] && self.src[self.idx] <= 122u8) || (48u8
            <= self.src[self.idx] && self.src[self.idx] <= 57u8))
            invariant
                self.wf(),
                self.text() == old(self).text(),
                start <= self.cursor(),
                ident_end(self.text(), self.cursor()) == ident_end(self.text(), start as int),
            decreases self.text().len() - self.cursor(),
        {
            self.bump();
        }
        let text = ascii_string(&self.src, start, self.idx);
        let kind = match keyword_of(text.as_str()) {
            Some(kw) => TokenKind::Keyword(kw),
            None => TokenKind::Ident(text),
        };
        Token::new(kind, Span::new(start, self.idx, pos))
    }
}


// ---- numbers ----

pub open spec fn is_hex_digit(b: u8) -> bool {
    is_digit(b) || (97u8 <= b <= 102u8) || (65u8 <= b <= 70u8)
}

/// The value of a hexadecimal digit character (0 for any other byte).
pub open spec fn hex_val(b: u8) -> nat {
    if is_digit(b) {
        (b - 48) as nat
    } else if 97u8 <= b <= 102u8 {
        (b - 87) as nat
    } else if 65u8 <= b <= 70u8 {
        (b - 55) as nat
    } else {
        0
    }
}

/// A digit of `radix` (2, 8, 10 or 16).
pub open spec fn radix_digit(b: u8, radix: nat) -> bool {
    is_hex_digit(b) && hex_val(b) < radix
}

/// The end of the run of `radix` digits starting at `i`.
pub open spec fn digits_end(src: Seq<u8>, i: int, radix: nat) -> int
    decreases src.len() - i,
{
    if 0 <= i < src.len() && radix_digit(src[i], radix) {
        digits_end(src, i + 1, radix)
    } else {
        i
    }
}

/// The value of the digits `ds` in `radix`.
pub open spec fn digits_value(ds: Seq<u8>, radix: nat) -> nat
    decreases ds.len(),
{
    if ds.len() == 0 {
        0
    } else {
        digits_value(ds.drop_last(), radix) * radix + hex_val(ds.last())
    }
}

/// An integer literal's digits in `radix`: `None` when empty, when a byte is
/// no digit of `radix`, or when the value needs more than 64 bits; else the
/// 64-bit pattern of the value.
pub open spec fn int_value(ds: Seq<u8>, radix: nat) -> Option<i64> {
    if ds.len() > 0 && (forall|j: int| 0 <= j < ds.len() ==> radix_digit(#[trigger] ds[j], radix)) && digits_value(
        ds,
        radix,
    ) <= u64::MAX {
        Some(digits_value(ds, radix) as u64 as i64)
    } else {
        None
    }
}

/// A numeric literal's value: an integer, or a float kept as its text.
pub enum NumLit {
    Int(i64),
    Float(Seq<char>),
}

/// The numeric literal starting at `i` (a decimal digit), and where it ends;
/// or the error message. `0x`/`0X` and `0b`/`0B` start hexadecimal and
/// binary integers; a decimal literal becomes a float with a `.` followed by
/// a digit, or an `e`/`E` (optionally signed) followed by a digit; a
/// multi-digit integer starting with `0` is octal.
pub open spec fn number_token(src: Seq<u8>, i: int) -> Result<(NumLit, int), Seq<char>> {
    if at(src, i) == Some(48u8) && (at(src, i + 1) == Some(120u8) || at(src, i + 1) == Some(88u8)) {
        let e = digits_end(src, i + 2, 16);
        if e == i + 2 {
            Err("missing digits after radix prefix"@)
        } else {
            match int_value(src.subrange(i + 2, e), 16) {
                Some(v) => Ok((NumLit::Int(v), e)),
                None => Err("integer literal out of range"@),
            }
        }
    } else if at(src, i) == Some(48u8) && (at(src, i + 1) == Some(98u8) || at(src, i + 1) == Some(66u8)) {
        let e = digits_end(src, i + 2, 2);
        if e == i + 2 {
            Err("missing digits after radix prefix"@)
        } else {
            match int_value(src.subrange(i + 2, e), 2) {
                Some(v) => Ok((NumLit::Int(v), e)),
                None => Err("integer literal out of range"@),
            }
        }
    } else {
        let d = digits_end(src, i, 10);
        let frac = at(src, d) == Some(46u8) && (at(src, d + 1) matches Some(b) && is_digit(b));
        let f = if frac {
            digits_end(src, d + 1, 10)
        } else {
            d
        };
        let k: int = if at(src, f + 1) == Some(43u8) || at(src, f + 1) == Some(45u8) {
            2
        } else {
            1
        };
        let expo = (at(src, f) == Some(101u8) || at(src, f) == Some(69u8)) && (at(src, f + k) matches Some(b)
            && is_digit(b));
        let end = if expo {
            digits_end(src, f + k, 10)
        } else {
            f
        };
        let text = ascii_chars(src.subrange(i, end));
        if frac || expo {
            Ok((NumLit::Float(text), end))
        } else if text.len() > 1 && text[0] == '0' {
            match int_value(src.subrange(i, end), 8) {
                Some(v) => Ok((NumLit::Int(v), end)),
                None => Err("invalid octal literal `"@ + text + "` (digits must be 0-7)"@),
            }
        } else {
            match int_value(src.subrange(i, end), 10) {
                Some(v) => Ok((NumLit::Int(v), end)),
                None => Err("integer literal `"@ + text + "` out of range"@),
            }
        }
    }
}

proof fn lemma_digits_end(src: Seq<u8>, i: int, radix: nat)
    requires
        0 <= i,
    ensures
        i <= digits_end(src, i, radix),
        i <= src.len() ==> digits_end(src, i, radix) <= src.len(),
        forall|j: int| i <= j < digits_end(src, i, radix) ==> radix_digit(#[trigger] src[j], radix),
    decreases src.len() - i,
{
    if i < src.len() && radix_digit(src[i], radix) {
        lemma_digits_end(src, i + 1, radix);
    }
}

proof fn lemma_number_progress(src: Seq<u8>, s: int)
    requires
        0 <= s < src.len(),
        is_digit(src[s]),
    ensures
        number_token(src, s) matches Ok((_, e)) ==> s < e <= src.len(),
{
    lemma_digits_end(src, s, 10);
    lemma_digits_end(src, s + 1, 10);
    lemma_digits_end(src, s + 2, 16);
    lemma_digits_end(src, s + 2, 2);
    assert(digits_end(src, s, 10) == digits_end(src, s + 1, 10));
    let d = digits_end(src, s, 10);
    lemma_digits_end(src, d + 1, 10);
    let frac = at(src, d) == Some(46u8) && (at(src, d + 1) matches Some(b) && is_digit(b));
    let f = if frac {
        digits_end(src, d + 1, 10)
    } else {
        d
    };
    lemma_digits_end(src, f + 1, 10);
    lemma_digits_end(src, f + 2, 10);
}

proof fn lemma_value_prefix(ds: Seq<u8>, j: int, radix: nat)
    requires
        0 <= j <= ds.len(),
        radix >= 1,
    ensures
        digits_value(ds.take(j), radix) <= digits_value(ds, radix),
    decreases ds.len() - j,
{
    if j < ds.len() {
        lemma_value_prefix(ds, j + 1, radix);
        let p = ds.take(j + 1);
        assert(p.drop_last() =~= ds.take(j));
        let a = digits_value(ds.take(j), radix);
        assert(a * radix >= a) by (nonlinear_arith)
            requires
                radix >= 1,
        ;
    } else {
        assert(ds.take(j) =~= ds);
    }
}

/// The value of the digit character `b`.
fn hex_val_of(b: u8) -> (r: u64)
    ensures
        r == hex_val(b),
{
    if 48u8 <= b && b <= 57u8 {
        (b - 48) as u64
    } else if 97u8 <= b && b <= 102u8 {
        (b - 87) as u64
    } else if 65u8 <= b && b <= 70u8 {
        (b - 55) as u64
    } else {
        0
    }
}

/// Parses `src[from..to]` as an integer of `radix` (2, 8, 10 or 16) into
/// its 64-bit pattern.
fn parse_int(src: &Vec<u8>, from: usize, to: usize, radix: u64) -> (r: Option<i64>)
    requires
        from <= to <= src.len(),
        2 <= radix <= 16,
    ensures
        r == int_value(src@.subrange(from as int, to as int), radix as nat),
{
    let ghost ds = src@.subrange(from as int, to as int);
    if from == to {
        return None;
    }
    let mut v: u64 = 0;
    let mut i = from;
    while i < to
        invariant
            from <= i <= to <= src.len(),
            ds == src@.subrange(from as int, to as int),
            2 <= radix <= 16,
            v == digits_value(ds.take(i - from), radix as nat),
            forall|j: int| 0 <= j < i - from ==> radix_digit(#[trigger] ds[j], radix as nat),
        decreases to - i,
    {
        let b = src[i];
        let d = hex_val_of(b);
        let is_digit_char = (48u8 <= b && b <= 57u8) || (97u8 <= b && b <= 102u8) || (65u8 <= b && b <= 70u8);
        if !is_digit_char || d >= radix {
            proof {
                assert(!radix_digit(ds[i - from], radix as nat));
            }
            return None;
        }
        proof {
            let p = ds.take(i - from + 1);
            assert(p.drop_last() =~= ds.take(i - from));
        }
        match v.checked_mul(radix) {
            None => {
                proof {
                    lemma_value_prefix(ds, i - from + 1, radix as nat);
                }
                return None;
            },
            Some(m) => match m.checked_add(d) {
                None => {
                    proof {
                        lemma_value_prefix(ds, i - from + 1, radix as nat);
                    }
                    return None;
                },
                Some(w) => {
                    v = w;
                },
            },
        }
        i += 1;
    }
    proof {
        assert(ds.take(to - from) =~= ds);
    }
    Some(v as i64)
}

/// `kind` carries the numeric literal `lit`.
pub open spec fn num_kind(kind: TokenKind, lit: NumLit) -> bool {
    match lit {
        NumLit::Int(v) => kind == TokenKind::Int(v),
        NumLit::Float(t) => kind matches TokenKind::Float(s) && s@ == t,
    }
}

impl Lexer {
    /// Advances over the run of `radix` digits at the cursor.
    fn skip_digits(&mut self, radix: u64)
        requires
            old(self).wf(),
            2 <= radix <= 16,
        ensures
            final(self).wf(),
            final(self).text() == old(self).text(),
            final(self).cursor() == digits_end(old(self).text(), old(self).cursor(), radix as nat),
            old(self).cursor() <= final(self).cursor() <= old(self).text().len(),
    {
        proof {
            lemma_digits_end(self.src@, self.idx as int, radix as nat);
        }
        let ghost i0 = self.idx as int;
        while self.idx < self.src.len() && ((48u8 <= self.src[self.idx] && self.src[self.idx] <= 57u8) || (97u8
            <= self.src[self.idx] && self.src[self.idx] <= 102u8) || (65u8 <= self.src[self.idx] && self.src[self.idx]
            <= 70u8)) && hex_val_of(self.src[self.idx]) < radix
            invariant
                self.wf(),
                self.text() == old(self).text(),
                2 <= radix <= 16,
                digits_end(self.text(), self.cursor(), radix as nat) == digits_end(self.text(), i0, radix as nat),
            decreases self.text().len() - self.cursor(),
        {
            self.bump();
        }
    }

    /// Lexes a numeric literal from `start`, the cursor (a decimal digit).
    fn lex_number(&mut self, start: usize, pos: Pos) -> (r: Result<Token, LexError>)
        requires
            old(self).wf(),
            start == old(self).cursor(),
        ensures
            final(self).wf(),
            final(self).text() == old(self).text(),
            match number_token(old(self).text(), start as int) {
                Ok((lit, end)) => r matches Ok(t) && num_kind(t.kind, lit) && t.span == (Span {
                    start,
                    end: end as usize,
                    pos,
                }) && final(self).cursor() == end,
                Err(msg) => r matches Err(e) && e.message@ == msg && e.pos == pos,
            },
    {
        let ghost src = self.src@;
        let b = self.peek();
        let b2 = self.peek2();
        if b == Some(48u8) && (b2 == Some(120u8) || b2 == Some(88u8) || b2 == Some(98u8) || b2 == Some(66u8)) {
            let radix: u64 = if b2 == Some(120u8) || b2 == Some(88u8) {
                16
            } else {
                2
            };
            self.bump();
            self.bump();
            let digits_start = self.idx;
            self.skip_digits(radix);
            if self.idx == digits_start {
                return Err(LexError { message: owned("missing digits after radix prefix"), pos });
            }
            proof {
                lemma_digits_end(src, start + 2, radix as nat);
            }
            return match parse_int(&self.src, digits_start, self.idx, radix) {
                Some(v) => Ok(Token::new(TokenKind::Int(v), Span::new(start, self.idx, pos))),
                None => Err(LexError { message: owned("integer literal out of range"), pos }),
            };
        }
        self.skip_digits(10);
        let ghost d = self.idx as int;
        let mut is_float = false;
        let p = self.peek();
        let p2 = self.peek2();
        let frac = p == Some(46u8) && (match p2 {
            Some(c) => 48u8 <= c && c <= 57u8,
            None => false,
        });
        if frac {
            is_float = true;
            self.bump();
            self.skip_digits(10);
        }
        let ghost f = self.idx as int;
        let e = self.peek();
        if e == Some(101u8) || e == Some(69u8) {
            let s2 = self.peek2();
            let k: usize = if s2 == Some(43u8) || s2 == Some(45u8) {
                2
            } else {
                1
            };
            let after = if self.idx < self.src.len() && self.src.len() - self.idx > k {
                Some(self.src[self.idx + k])
            } else {
                None
            };
            let digit_after = match after {
                Some(c) => 48u8 <= c && c <= 57u8,
                None => false,
            };
            if digit_after {
                is_float = true;
                self.bump();
                if k == 2 {
                    self.bump();
                }
                self.skip_digits(10);
            }
        }
        let text = ascii_string(&self.src, start, self.idx);
        proof {
            lemma_digits_end(src, start as int, 10);
        }
        if is_float {
            Ok(Token::new(TokenKind::Float(text), Span::new(start, self.idx, pos)))
        } else if self.idx - start > 1 && self.src[start] == 48u8 {
            match parse_int(&self.src, start, self.idx, 8) {
                Some(v) => Ok(Token::new(TokenKind::Int(v), Span::new(start, self.idx, pos))),
                None => {
                    let mut msg = owned("invalid octal literal `");
                    msg.append(text.as_str());
                    msg.append("` (digits must be 0-7)");
                    Err(LexError { message: msg, pos })
                },
            }
        } else {
            match parse_int(&self.src, start, self.idx, 10) {
                Some(v) => Ok(Token::new(TokenKind::Int(v), Span::new(start, self.idx, pos))),
                None => {
                    let mut msg = owned("integer literal `");
                    msg.append(text.as_str());
                    msg.append("` out of range");
                    Err(LexError { message: msg, pos })
                },
            }
        }
    }
}


// ---- string and character literals ----

/// How many bytes the UTF-8 sequence led by `b` takes (1 for a byte that
/// leads none).
pub open spec fn utf8_len(b: u8) -> int {
    if b < 0x80u8 {
        1
    } else if 0xC0u8 <= b <= 0xDFu8 {
        2
    } else if 0xE0u8 <= b <= 0xEFu8 {
        3
    } else if 0xF0u8 <= b <= 0xF7u8 {
        4
    } else {
        1
    }
}

/// How many bytes the UTF-8 encoding of `c` takes.
pub open spec fn char_len(c: char) -> int {
    if (c as u32) < 0x80 {
        1
    } else if (c as u32) < 0x800 {
        2
    } else if (c as u32) < 0x10000 {
        3
    } else {
        4
    }
}

/// The character at byte `j` (which exists) and the byte after it: the
/// bytes its leading byte announces (as far as the source goes) decoded as
/// UTF-8, or U+FFFD when they are not valid; the cursor then moves over as
/// many bytes as that character encodes to, stopping at the end.
pub open spec fn utf8_step(src: Seq<u8>, j: int) -> (char, int) {
    let n = utf8_len(src[j]);
    let chunk = src.subrange(j, if j + n <= src.len() {
        j + n
    } else {
        src.len() as int
    });
    let c = if vstd::utf8::valid_utf8(chunk) && vstd::utf8::decode_utf8(chunk).len() > 0 {
        vstd::utf8::decode_utf8(chunk)[0]
    } else {
        '\u{FFFD}'
    };
    let e = if j + char_len(c) <= src.len() {
        j + char_len(c)
    } else {
        src.len() as int
    };
    (c, e)
}

/// The end of the run of at most two hex digits starting at `j`.
pub open spec fn hex2_end(src: Seq<u8>, j: int) -> int {
    if at(src, j) matches Some(b) && is_hex_digit(b) {
        if at(src, j + 1) matches Some(b2) && is_hex_digit(b2) {
            j + 2
        } else {
            j + 1
        }
    } else {
        j
    }
}

/// The escape sequence whose body starts at `j` (just past the backslash):
/// its character and the byte after it, or the error message.
pub open spec fn escape(src: Seq<u8>, j: int) -> Result<(char, int), Seq<char>> {
    match at(src, j) {
        None => Err("unterminated escape sequence"@),
        Some(b) => if b == 110u8 {
            Ok(('\n', j + 1))
        } else if b == 116u8 {
            Ok(('\t', j + 1))
        } else if b == 114u8 {
            Ok(('\r', j + 1))
        } else if b == 48u8 {
            Ok(('\0', j + 1))
        } else if b == 92u8 {
            Ok(('\\', j + 1))
        } else if b == 39u8 {
            Ok(('\'', j + 1))
        } else if b == 34u8 {
            Ok(('"', j + 1))
        } else if b == 96u8 {
            Ok(('`', j + 1))
        } else if b == 97u8 {
            Ok(('\u{07}', j + 1))
        } else if b == 98u8 {
            Ok(('\u{08}', j + 1))
        } else if b == 102u8 {
            Ok(('\u{0C}', j + 1))
        } else if b == 118u8 {
            Ok(('\u{0B}', j + 1))
        } else if b == 120u8 {
            let e = hex2_end(src, j + 1);
            if e == j + 1 {
                Err("expected hex digits after `\\x`"@)
            } else {
                Ok((digits_value(src.subrange(j + 1, e), 16) as u8 as char, e))
            }
        } else {
            Err("unknown escape sequence `\\"@ + seq![b as char] + "`"@)
        },
    }
}

/// The rest of a string literal from byte `j`, after the characters `acc`:
/// its characters and the byte after the closing quote, or the error.
pub open spec fn string_body(src: Seq<u8>, j: int, acc: Seq<char>) -> Result<(Seq<char>, int), Seq<char>>
    decreases src.len() - j,
{
    if j < 0 || j >= src.len() || src[j] == 10u8 {
        Err("unterminated string literal"@)
    } else if src[j] == 34u8 {
        Ok((acc, j + 1))
    } else if src[j] == 92u8 {
        match escape(src, j + 1) {
            Err(m) => Err(m),
            Ok((c, e)) => if j < e <= src.len() {
                string_body(src, e, acc.push(c))
            } else {
                Err(seq![])
            },
        }
    } else {
        let (c, e) = utf8_step(src, j);
        if j < e <= src.len() {
            string_body(src, e, acc.push(c))
        } else {
            Err(seq![])
        }
    }
}

/// Adds the character with code `c` as byte `count` of a character
/// constant's value.
pub open spec fn pack(value: i64, count: nat, c: u32) -> Result<i64, Seq<char>> {
    if count >= 8 {
        Err("character constant too long (max 8 bytes)"@)
    } else if c > 0xFF {
        Err("character constant byte out of range"@)
    } else {
        Ok(((value as u64) | ((c as u64) << (8 * count) as u64)) as i64)
    }
}

/// The rest of a character constant from byte `j`, with `count` bytes
/// packed into `value` so far: its value and the byte after the closing
/// quote, or the error. Each character is packed little-endian.
pub open spec fn char_body(src: Seq<u8>, j: int, value: i64, count: nat) -> Result<(i64, int), Seq<char>>
    decreases src.len() - j,
{
    if j < 0 || j >= src.len() || src[j] == 10u8 {
        Err("unterminated character constant"@)
    } else if src[j] == 39u8 {
        if count == 0 {
            Err("empty character constant"@)
        } else {
            Ok((value, j + 1))
        }
    } else {
        let step = if src[j] == 92u8 {
            escape(src, j + 1)
        } else {
            Ok(utf8_step(src, j))
        };
        match step {
            Err(m) => Err(m),
            Ok((c, e)) => match pack(value, count, c as u32) {
                Err(m) => Err(m),
                Ok(v2) => if j < e <= src.len() {
                    char_body(src, e, v2, count + 1)
                } else {
                    Err(seq![])
                },
            },
        }
    }
}

proof fn lemma_utf8_step(src: Seq<u8>, j: int)
    requires
        0 <= j < src.len(),
    ensures
        j < utf8_step(src, j).1 <= src.len(),
{
}

proof fn lemma_string_progress(src: Seq<u8>, j: int, acc: Seq<char>)
    ensures
        string_body(src, j, acc) matches Ok((_, e)) ==> j < e <= src.len(),
    decreases src.len() - j,
{
    if 0 <= j < src.len() && src[j] != 10u8 && src[j] != 34u8 {
        if src[j] == 92u8 {
            if let Ok((c, e)) = escape(src, j + 1) {
                if j < e <= src.len() {
                    lemma_string_progress(src, e, acc.push(c));
                }
            }
        } else {
            lemma_utf8_step(src, j);
            let (c, e) = utf8_step(src, j);
            lemma_string_progress(src, e, acc.push(c));
        }
    }
}

proof fn lemma_char_progress(src: Seq<u8>, j: int, value: i64, count: nat)
    ensures
        char_body(src, j, value, count) matches Ok((_, e)) ==> j < e <= src.len(),
    decreases src.len() - j,
{
    if 0 <= j < src.len() && src[j] != 10u8 && src[j] != 39u8 {
        let step = if src[j] == 92u8 {
            escape(src, j + 1)
        } else {
            Ok(utf8_step(src, j))
        };
        if let Ok((c, e)) = step {
            if let Ok(v2) = pack(value, count, c as u32) {
                if j < e <= src.len() {
                    lemma_char_progress(src, e, v2, count + 1);
                }
            }
        }
    }
}

/// `std::str::from_utf8`: the bytes as a string slice when they are valid
/// UTF-8, decoded as UTF-8.
#[verifier::external_body]
fn str_from_utf8(bytes: &[u8]) -> (r: Option<&str>)
    ensures
        match r {
            Some(s) => vstd::utf8::valid_utf8(bytes@) && s@ == vstd::utf8::decode_utf8(bytes@),
            None => !vstd::utf8::valid_utf8(bytes@),
        },
{
    std::str::from_utf8(bytes).ok()
}

fn utf8_len_of(b: u8) -> (r: usize)
    ensures
        r == utf8_len(b),
{
    if b < 0x80u8 {
        1
    } else if 0xC0u8 <= b && b <= 0xDFu8 {
        2
    } else if 0xE0u8 <= b && b <= 0xEFu8 {
        3
    } else if 0xF0u8 <= b && b <= 0xF7u8 {
        4
    } else {
        1
    }
}

fn char_len_of(c: char) -> (r: usize)
    ensures
        r == char_len(c),
{
    let v = c as u32;
    if v < 0x80 {
        1
    } else if v < 0x800 {
        2
    } else if v < 0x10000 {
        3
    } else {
        4
    }
}

impl Lexer {
    /// Consumes one UTF-8 encoded character at the cursor (which has a byte).
    fn bump_char(&mut self) -> (c: char)
        requires
            old(self).wf(),
            old(self).cursor() < old(self).text().len(),
        ensures
            final(self).wf(),
            final(self).text() == old(self).text(),
            (c, final(self).cursor()) == utf8_step(old(self).text(), old(self).cursor()),
    {
        let ghost j = self.idx as int;
        let first = self.src[self.idx];
        let n = utf8_len_of(first);
        let chunk_end = if self.src.len() - self.idx >= n {
            self.idx + n
        } else {
            self.src.len()
        };
        let chunk = slice_of(&self.src, self.idx, chunk_end);
        let ch = match str_from_utf8(chunk.as_slice()) {
            Some(s) => {
                if s.unicode_len() > 0 {
                    s.get_char(0)
                } else {
                    '\u{FFFD}'
                }
            },
            None => '\u{FFFD}',
        };
        let k = char_len_of(ch);
        let mut m: usize = 0;
        while m < k
            invariant
                self.wf(),
                self.text() == old(self).text(),
                m <= k,
                self.cursor() == if j + m <= self.text().len() {
                    j + m
                } else {
                    self.text().len() as int
                },
            decreases k - m,
        {
            self.bump();
            m += 1;
        }
        ch
    }

    /// Consumes an escape sequence body (the backslash already consumed);
    /// errors are reported at `pos`, the literal's position.
    fn lex_escape(&mut self, pos: Pos) -> (r: Result<char, LexError>)
        requires
            old(self).wf(),
        ensures
            final(self).wf(),
            final(self).text() == old(self).text(),
            match escape(old(self).text(), old(self).cursor()) {
                Ok((c, e)) => r == Ok::<char, LexError>(c) && final(self).cursor() == e,
                Err(m) => r matches Err(err) && err.message@ == m && err.pos == pos,
            },
    {
        let ghost j = self.idx as int;
        let b = match self.bump() {
            None => {
                return Err(LexError { message: owned("unterminated escape sequence"), pos });
            },
            Some(b) => b,
        };
        if b == 110u8 {
            Ok('\n')
        } else if b == 116u8 {
            Ok('\t')
        } else if b == 114u8 {
            Ok('\r')
        } else if b == 48u8 {
            Ok('\0')
        } else if b == 92u8 {
            Ok('\\')
        } else if b == 39u8 {
            Ok('\'')
        } else if b == 34u8 {
            Ok('"')
        } else if b == 96u8 {
            Ok('`')
        } else if b == 97u8 {
            Ok('\u{07}')
        } else if b == 98u8 {
            Ok('\u{08}')
        } else if b == 102u8 {
            Ok('\u{0C}')
        } else if b == 118u8 {
            Ok('\u{0B}')
        } else if b == 120u8 {
            let digits_start = self.idx;
            let mut n: usize = 0;
            while n < 2 && self.idx < self.src.len() && ((48u8 <= self.src[self.idx] && self.src[self.idx] <= 57u8)
                || (97u8 <= self.src[self.idx] && self.src[self.idx] <= 102u8) || (65u8 <= self.src[self.idx]
                && self.src[self.idx] <= 70u8))
                invariant
                    self.wf(),
                    self.text() == old(self).text(),
                    n <= 2,
                    self.cursor() == digits_start + n,
                    digits_start == j + 1,
                    forall|t: int| j + 1 <= t < self.cursor() ==> is_hex_digit(#[trigger] self.text()[t]),
                decreases 2 - n,
            {
                self.bump();
                n += 1;
            }
            if n == 0 {
                return Err(LexError { message: owned("expected hex digits after `\\x`"), pos });
            }
            proof {
                assert(self.cursor() == hex2_end(self.text(), j + 1));
            }
            match parse_int(&self.src, digits_start, self.idx, 16) {
                Some(v) => {
                    proof {
                        let ds = self.text().subrange(j + 1, self.cursor());
                        assert(digits_value(ds, 16) <= 255) by {
                            if n == 1 {
                                assert(ds.drop_last() =~= seq![]);
                                assert(digits_value(ds.drop_last(), 16) == 0);
                            } else {
                                assert(ds.drop_last().drop_last() =~= seq![]);
                                assert(digits_value(ds.drop_last().drop_last(), 16) == 0);
                                assert(digits_value(ds.drop_last(), 16) == hex_val(ds.drop_last().last()));
                                assert(digits_value(ds.drop_last(), 16) <= 15);
                            }
                        }
                    }
                    Ok((v as u8) as char)
                },
                None => {
                    proof {
                        let ds = self.text().subrange(j + 1, self.cursor());
                        assert(forall|t: int| 0 <= t < ds.len() ==> radix_digit(#[trigger] ds[t], 16));
                        assert(digits_value(ds, 16) <= 255) by {
                            if n == 1 {
                                assert(ds.drop_last() =~= seq![]);
                                assert(digits_value(ds.drop_last(), 16) == 0);
                            } else {
                                assert(ds.drop_last().drop_last() =~= seq![]);
                                assert(digits_value(ds.drop_last().drop_last(), 16) == 0);
                                assert(digits_value(ds.drop_last(), 16) == hex_val(ds.drop_last().last()));
                                assert(digits_value(ds.drop_last(), 16) <= 15);
                            }
                        }
                    }
                    Err(LexError { message: owned("expected hex digits after `\\x`"), pos })
                },
            }
        } else {
            let mut msg = owned("unknown escape sequence `\\");
            crate::text::push_char(&mut msg, b as char);
            msg.append("`");
            Err(LexError { message: msg, pos })
        }
    }
}

/// The bytes `v[from..to]`.
fn slice_of(v: &Vec<u8>, from: usize, to: usize) -> (r: Vec<u8>)
    requires
        from <= to <= v.len(),
    ensures
        r@ == v@.subrange(from as int, to as int),
{
    let mut r: Vec<u8> = Vec::new();
    let mut i = from;
    while i < to
        invariant
            from <= i <= to <= v.len(),
            r@ == v@.subrange(from as int, i as int),
        decreases to - i,
    {
        r.push(v[i]);
        i += 1;
        proof {
            assert(r@ =~= v@.subrange(from as int, i as int));
        }
    }
    r
}


impl Lexer {
    /// Lexes a string literal from `start`, the cursor (the opening quote).
    fn lex_string(&mut self, start: usize, pos: Pos) -> (r: Result<Token, LexError>)
        requires
            old(self).wf(),
            start == old(self).cursor(),
            start < old(self).text().len(),
        ensures
            final(self).wf(),
            final(self).text() == old(self).text(),
            match string_body(old(self).text(), start + 1, seq![]) {
                Ok((chars, end)) => r matches Ok(t) && t.kind matches TokenKind::Str(s) && s@ == chars && t.span
                    == (Span { start, end: end as usize, pos }) && final(self).cursor() == end,
                Err(m) => r matches Err(e) && e.message@ == m && e.pos == pos,
            },
    {
        let ghost goal = string_body(self.src@, start + 1, seq![]);
        self.bump();
        let mut out = String::new();
        loop
            invariant
                self.wf(),
                self.text() == old(self).text(),
                start < self.cursor(),
                string_body(self.text(), self.cursor(), out@) == goal,
                goal == string_body(old(self).text(), start + 1, seq![]),
            decreases self.text().len() - self.cursor(),
        {
            let ghost j = self.idx as int;
            match self.peek() {
                None => {
                    return Err(LexError { message: owned("unterminated string literal"), pos });
                },
                Some(b) => {
                    if b == 10u8 {
                        return Err(LexError { message: owned("unterminated string literal"), pos });
                    } else if b == 34u8 {
                        self.bump();
                        return Ok(Token::new(TokenKind::Str(out), Span::new(start, self.idx, pos)));
                    } else if b == 92u8 {
                        self.bump();
                        let ch = match self.lex_escape(pos) {
                            Ok(c) => c,
                            Err(e) => {
                                return Err(e);
                            },
                        };
                        crate::text::push_char(&mut out, ch);
                    } else {
                        let ch = self.bump_char();
                        crate::text::push_char(&mut out, ch);
                    }
                },
            }
        }
    }

    /// Adds `ch` to a character constant's value.
    fn pack_char(&self, value: &mut i64, count: &mut u32, ch: u32, pos: Pos) -> (r: Result<(), LexError>)
        requires
            *old(count) <= 8,
        ensures
            match pack(*old(value), *old(count) as nat, ch) {
                Ok(v) => r is Ok && *final(value) == v && *final(count) == *old(count) + 1,
                Err(m) => r matches Err(e) && e.message@ == m && e.pos == pos,
            },
    {
        if *count >= 8 {
            return Err(LexError { message: owned("character constant too long (max 8 bytes)"), pos });
        }
        if ch > 0xFF {
            return Err(LexError { message: owned("character constant byte out of range"), pos });
        }
        let shifted: u64 = (ch as u64) << (8 * *count) as u64;
        *value = ((*value as u64) | shifted) as i64;
        *count += 1;
        Ok(())
    }

    /// Lexes a character constant from `start`, the cursor (the opening
    /// quote).
    fn lex_char(&mut self, start: usize, pos: Pos) -> (r: Result<Token, LexError>)
        requires
            old(self).wf(),
            start == old(self).cursor(),
            start < old(self).text().len(),
        ensures
            final(self).wf(),
            final(self).text() == old(self).text(),
            match char_body(old(self).text(), start + 1, 0, 0) {
                Ok((v, end)) => r matches Ok(t) && t.kind == TokenKind::Char(v) && t.span == (Span {
                    start,
                    end: end as usize,
                    pos,
                }) && final(self).cursor() == end,
                Err(m) => r matches Err(e) && e.message@ == m && e.pos == pos,
            },
    {
        let ghost goal = char_body(self.src@, start + 1, 0, 0);
        self.bump();
        let mut value: i64 = 0;
        let mut count: u32 = 0;
        loop
            invariant
                self.wf(),
                self.text() == old(self).text(),
                start < self.cursor(),
                count <= 8,
                char_body(self.text(), self.cursor(), value, count as nat) == goal,
                goal == char_body(old(self).text(), start + 1, 0, 0),
            decreases self.text().len() - self.cursor(),
        {
            let ghost j = self.idx as int;
            match self.peek() {
                None => {
                    return Err(LexError { message: owned("unterminated character constant"), pos });
                },
                Some(b) => {
                    if b == 10u8 {
                        return Err(LexError { message: owned("unterminated character constant"), pos });
                    } else if b == 39u8 {
                        self.bump();
                        if count == 0 {
                            return Err(LexError { message: owned("empty character constant"), pos });
                        }
                        return Ok(Token::new(TokenKind::Char(value), Span::new(start, self.idx, pos)));
                    } else if b == 92u8 {
                        self.bump();
                        let ch = match self.lex_escape(pos) {
                            Ok(c) => c,
                            Err(e) => {
                                return Err(e);
                            },
                        };
                        match self.pack_char(&mut value, &mut count, ch as u32, pos) {
                            Ok(()) => {},
                            Err(e) => {
                                return Err(e);
                            },
                        }
                    } else {
                        let ch = self.bump_char();
                        match self.pack_char(&mut value, &mut count, ch as u32, pos) {
                            Ok(()) => {},
                            Err(e) => {
                                return Err(e);
                            },
                        }
                    }
                },
            }
        }
    }
}


// ---- operators ----

/// The operator or punctuation token starting with byte `b`, followed by
/// `b2` and `b3`, and its length: the longest that matches.
pub open spec fn op_token(b: u8, b2: Option<u8>, b3: Option<u8>) -> Option<(TokenKind, int)> {
    if b == 43u8 {
        if b2 == Some(43u8) {
            Some((TokenKind::PlusPlus, 2))
        } else if b2 == Some(61u8) {
            Some((TokenKind::PlusEq, 2))
        } else {
            Some((TokenKind::Plus, 1))
        }
    } else if b == 45u8 {
        if b2 == Some(45u8) {
            Some((TokenKind::MinusMinus, 2))
        } else if b2 == Some(61u8) {
            Some((TokenKind::MinusEq, 2))
        } else if b2 == Some(62u8) {
            Some((TokenKind::Arrow, 2))
        } else {
            Some((TokenKind::Minus, 1))
        }
    } else if b == 42u8 {
        if b2 == Some(61u8) {
            Some((TokenKind::StarEq, 2))
        } else {
            Some((TokenKind::Star, 1))
        }
    } else if b == 47u8 {
        if b2 == Some(61u8) {
            Some((TokenKind::SlashEq, 2))
        } else {
            Some((TokenKind::Slash, 1))
        }
    } else if b == 37u8 {
        if b2 == Some(61u8) {
            Some((TokenKind::PercentEq, 2))
        } else {
            Some((TokenKind::Percent, 1))
        }
    } else if b == 61u8 {
        if b2 == Some(61u8) {
            Some((TokenKind::EqEq, 2))
        } else {
            Some((TokenKind::Eq, 1))
        }
    } else if b == 33u8 {
        if b2 == Some(61u8) {
            Some((TokenKind::Ne, 2))
        } else {
            Some((TokenKind::Not, 1))
        }
    } else if b == 38u8 {
        if b2 == Some(38u8) {
            Some((TokenKind::AndAnd, 2))
        } else if b2 == Some(61u8) {
            Some((TokenKind::AmpEq, 2))
        } else {
            Some((TokenKind::Amp, 1))
        }
    } else if b == 124u8 {
        if b2 == Some(124u8) {
            Some((TokenKind::OrOr, 2))
        } else if b2 == Some(61u8) {
            Some((TokenKind::PipeEq, 2))
        } else {
            Some((TokenKind::Pipe, 1))
        }
    } else if b == 94u8 {
        if b2 == Some(61u8) {
            Some((TokenKind::CaretEq, 2))
        } else {
            Some((TokenKind::Caret, 1))
        }
    } else if b == 58u8 {
        if b2 == Some(58u8) {
            Some((TokenKind::ColonColon, 2))
        } else if b2 == Some(61u8) {
            Some((TokenKind::ColonEq, 2))
        } else {
            Some((TokenKind::Colon, 1))
        }
    } else if b == 60u8 {
        if b2 == Some(60u8) && b3 == Some(61u8) {
            Some((TokenKind::ShlEq, 3))
        } else if b2 == Some(60u8) {
            Some((TokenKind::Shl, 2))
        } else if b2 == Some(61u8) {
            Some((TokenKind::Le, 2))
        } else {
            Some((TokenKind::Lt, 1))
        }
    } else if b == 62u8 {
        if b2 == Some(62u8) && b3 == Some(61u8) {
            Some((TokenKind::ShrEq, 3))
        } else if b2 == Some(62u8) {
            Some((TokenKind::Shr, 2))
        } else if b2 == Some(61u8) {
            Some((TokenKind::Ge, 2))
        } else {
            Some((TokenKind::Gt, 1))
        }
    } else if b == 46u8 {
        if b2 == Some(46u8) && b3 == Some(46u8) {
            Some((TokenKind::DotDotDot, 3))
        } else {
            Some((TokenKind::Dot, 1))
        }
    } else if b == 126u8 {
        Some((TokenKind::Tilde, 1))
    } else if b == 63u8 {
        Some((TokenKind::Question, 1))
    } else if b == 40u8 {
        Some((TokenKind::LParen, 1))
    } else if b == 41u8 {
        Some((TokenKind::RParen, 1))
    } else if b == 123u8 {
        Some((TokenKind::LBrace, 1))
    } else if b == 125u8 {
        Some((TokenKind::RBrace, 1))
    } else if b == 91u8 {
        Some((TokenKind::LBracket, 1))
    } else if b == 93u8 {
        Some((TokenKind::RBracket, 1))
    } else if b == 44u8 {
        Some((TokenKind::Comma, 1))
    } else if b == 59u8 {
        Some((TokenKind::Semicolon, 1))
    } else if b == 64u8 {
        Some((TokenKind::At, 1))
    } else if b == 35u8 {
        Some((TokenKind::Hash, 1))
    } else if b == 96u8 {
        Some((TokenKind::Backtick, 1))
    } else {
        None
    }
}

impl Lexer {
    /// Lexes an operator or punctuation token from `start`, the cursor.
    fn lex_operator(&mut self, start: usize, pos: Pos) -> (r: Result<Token, LexError>)
        requires
            old(self).wf(),
            start == old(self).cursor(),
            start < old(self).text().len(),
        ensures
            final(self).wf(),
            final(self).text() == old(self).text(),
            match op_token(
                old(self).text()[start as int],
                at(old(self).text(), start + 1),
                at(old(self).text(), start + 2),
            ) {
                Some((k, n)) => r matches Ok(t) && t.kind == k && t.span == (Span {
                    start,
                    end: (start + n) as usize,
                    pos,
                }) && final(self).cursor() == start + n,
                None => r matches Err(e) && e.message@ == "unexpected character `"@ + seq![
                    old(self).text()[start as int] as char,
                ] + "`"@ && e.pos == pos,
            },
    {
        let b = self.src[self.idx];
        let b2 = self.peek2();
        let b3 = self.peek3();
        let (kind, n): (TokenKind, usize) = if b == 43u8 {
            if b2 == Some(43u8) {
                (TokenKind::PlusPlus, 2)
            } else if b2 == Some(61u8) {
                (TokenKind::PlusEq, 2)
            } else {
                (TokenKind::Plus, 1)
            }
        } else if b == 45u8 {
            if b2 == Some(45u8) {
                (TokenKind::MinusMinus, 2)
            } else if b2 == Some(61u8) {
                (TokenKind::MinusEq, 2)
            } else if b2 == Some(62u8) {
                (TokenKind::Arrow, 2)
            } else {
                (TokenKind::Minus, 1)
            }
        } else if b == 42u8 {
            if b2 == Some(61u8) {
                (TokenKind::StarEq, 2)
            } else {
                (TokenKind::Star, 1)
            }
        } else if b == 47u8 {
            if b2 == Some(61u8) {
                (TokenKind::SlashEq, 2)
            } else {
                (TokenKind::Slash, 1)
            }
        } else if b == 37u8 {
            if b2 == Some(61u8) {
                (TokenKind::PercentEq, 2)
            } else {
                (TokenKind::Percent, 1)
            }
        } else if b == 61u8 {
            if b2 == Some(61u8) {
                (TokenKind::EqEq, 2)
            } else {
                (TokenKind::Eq, 1)
            }
        } else if b == 33u8 {
            if b2 == Some(61u8) {
                (TokenKind::Ne, 2)
            } else {
                (TokenKind::Not, 1)
            }
        } else if b == 38u8 {
            if b2 == Some(38u8) {
                (TokenKind::AndAnd, 2)
            } else if b2 == Some(61u8) {
                (TokenKind::AmpEq, 2)
            } else {
                (TokenKind::Amp, 1)
            }
        } else if b == 124u8 {
            if b2 == Some(124u8) {
                (TokenKind::OrOr, 2)
            } else if b2 == Some(61u8) {
                (TokenKind::PipeEq, 2)
            } else {
                (TokenKind::Pipe, 1)
            }
        } else if b == 94u8 {
            if b2 == Some(61u8) {
                (TokenKind::CaretEq, 2)
            } else {
                (TokenKind::Caret, 1)
            }
        } else if b == 58u8 {
            if b2 == Some(58u8) {
                (TokenKind::ColonColon, 2)
            } else if b2 == Some(61u8) {
                (TokenKind::ColonEq, 2)
            } else {
                (TokenKind::Colon, 1)
            }
        } else if b == 60u8 {
            if b2 == Some(60u8) && b3 == Some(61u8) {
                (TokenKind::ShlEq, 3)
            } else if b2 == Some(60u8) {
                (TokenKind::Shl, 2)
            } else if b2 == Some(61u8) {
                (TokenKind::Le, 2)
            } else {
                (TokenKind::Lt, 1)
            }
        } else if b == 62u8 {
            if b2 == Some(62u8) && b3 == Some(61u8) {
                (TokenKind::ShrEq, 3)
            } else if b2 == Some(62u8) {
                (TokenKind::Shr, 2)
            } else if b2 == Some(61u8) {
                (TokenKind::Ge, 2)
            } else {
                (TokenKind::Gt, 1)
            }
        } else if b == 46u8 {
            if b2 == Some(46u8) && b3 == Some(46u8) {
                (TokenKind::DotDotDot, 3)
            } else {
                (TokenKind::Dot, 1)
            }
        } else if b == 126u8 {
            (TokenKind::Tilde, 1)
        } else if b == 63u8 {
            (TokenKind::Question, 1)
        } else if b == 40u8 {
            (TokenKind::LParen, 1)
        } else if b == 41u8 {
            (TokenKind::RParen, 1)
        } else if b == 123u8 {
            (TokenKind::LBrace, 1)
        } else if b == 125u8 {
            (TokenKind::RBrace, 1)
        } else if b == 91u8 {
            (TokenKind::LBracket, 1)
        } else if b == 93u8 {
            (TokenKind::RBracket, 1)
        } else if b == 44u8 {
            (TokenKind::Comma, 1)
        } else if b == 59u8 {
            (TokenKind::Semicolon, 1)
        } else if b == 64u8 {
            (TokenKind::At, 1)
        } else if b == 35u8 {
            (TokenKind::Hash, 1)
        } else if b == 96u8 {
            (TokenKind::Backtick, 1)
        } else {
            let mut msg = owned("unexpected character `");
            crate::text::push_char(&mut msg, b as char);
            msg.append("`");
            return Err(LexError { message: msg, pos });
        };
        let mut m: usize = 0;
        while m < n
            invariant
                self.wf(),
                self.text() == old(self).text(),
                m <= n,
                1 <= n <= 3,
                start + n <= self.text().len(),
                self.cursor() == start + m,
            decreases n - m,
        {
            self.bump();
            m += 1;
        }
        Ok(Token::new(kind, Span::new(start, self.idx, pos)))
    }
}


// ---- tokens ----

/// `r` is what lexing `src` from byte `i` gives: the token after the
/// whitespace and comments there, ending at `end`, or the error. At the end
/// of the source the token is `Eof`, again and again.
pub open spec fn lexed(src: Seq<u8>, i: int, r: Result<Token, LexError>, end: int) -> bool {
    match trivia_end(src, i) {
        Err(p) => r matches Err(e) && e.pos == pos_of(src, p) && e.message@ == "unterminated block comment"@,
        Ok(s) => {
            let pos = pos_of(src, s);
            if s >= src.len() {
                r matches Ok(t) && t.kind is Eof && t.span == (Span { start: s as usize, end: s as usize, pos })
                    && end == s
            } else {
                let b = src[s];
                if is_ident_start(b) {
                    &&& end == ident_end(src, s)
                    &&& r matches Ok(t) && name_kind(t.kind, ascii_chars(src.subrange(s, end))) && t.span == (Span {
                        start: s as usize,
                        end: end as usize,
                        pos,
                    })
                } else if is_digit(b) {
                    match number_token(src, s) {
                        Ok((lit, e)) => r matches Ok(t) && num_kind(t.kind, lit) && t.span == (Span {
                            start: s as usize,
                            end: e as usize,
                            pos,
                        }) && end == e,
                        Err(m) => r matches Err(err) && err.message@ == m && err.pos == pos,
                    }
                } else if b == 34u8 {
                    match string_body(src, s + 1, seq![]) {
                        Ok((chars, e)) => r matches Ok(t) && t.kind matches TokenKind::Str(x) && x@ == chars && t.span
                            == (Span { start: s as usize, end: e as usize, pos }) && end == e,
                        Err(m) => r matches Err(err) && err.message@ == m && err.pos == pos,
                    }
                } else if b == 39u8 {
                    match char_body(src, s + 1, 0, 0) {
                        Ok((v, e)) => r matches Ok(t) && t.kind == TokenKind::Char(v) && t.span == (Span {
                            start: s as usize,
                            end: e as usize,
                            pos,
                        }) && end == e,
                        Err(m) => r matches Err(err) && err.message@ == m && err.pos == pos,
                    }
                } else {
                    match op_token(b, at(src, s + 1), at(src, s + 2)) {
                        Some((k, n)) => r matches Ok(t) && t.kind == k && t.span == (Span {
                            start: s as usize,
                            end: (s + n) as usize,
                            pos,
                        }) && end == s + n,
                        None => r matches Err(err) && err.message@ == "unexpected character `"@ + seq![b as char]
                            + "`"@ && err.pos == pos,
                    }
                }
            }
        },
    }
}

/// The operator or punctuation token spelled by the first `n` of the bytes
/// `c0`, `c1`, `c2` (one, two or three bytes), if that spelling is one.
pub open spec fn op_spelling(n: int, c0: u8, c1: u8, c2: u8) -> Option<TokenKind> {
    if n == 1 {
        if c0 == 43u8 {
            Some(TokenKind::Plus)
        } else if c0 == 45u8 {
            Some(TokenKind::Minus)
        } else if c0 == 42u8 {
            Some(TokenKind::Star)
        } else if c0 == 47u8 {
            Some(TokenKind::Slash)
        } else if c0 == 37u8 {
            Some(TokenKind::Percent)
        } else if c0 == 61u8 {
            Some(TokenKind::Eq)
        } else if c0 == 33u8 {
            Some(TokenKind::Not)
        } else if c0 == 38u8 {
            Some(TokenKind::Amp)
        } else if c0 == 124u8 {
            Some(TokenKind::Pipe)
        } else if c0 == 94u8 {
            Some(TokenKind::Caret)
        } else if c0 == 58u8 {
            Some(TokenKind::Colon)
        } else if c0 == 60u8 {
            Some(TokenKind::Lt)
        } else if c0 == 62u8 {
            Some(TokenKind::Gt)
        } else if c0 == 46u8 {
            Some(TokenKind::Dot)
        } else if c0 == 126u8 {
            Some(TokenKind::Tilde)
        } else if c0 == 63u8 {
            Some(TokenKind::Question)
        } else if c0 == 40u8 {
            Some(TokenKind::LParen)
        } else if c0 == 41u8 {
            Some(TokenKind::RParen)
        } else if c0 == 123u8 {
            Some(TokenKind::LBrace)
        } else if c0 == 125u8 {
            Some(TokenKind::RBrace)
        } else if c0 == 91u8 {
            Some(TokenKind::LBracket)
        } else if c0 == 93u8 {
            Some(TokenKind::RBracket)
        } else if c0 == 44u8 {
            Some(TokenKind::Comma)
        } else if c0 == 59u8 {
            Some(TokenKind::Semicolon)
        } else if c0 == 64u8 {
            Some(TokenKind::At)
        } else if c0 == 35u8 {
            Some(TokenKind::Hash)
        } else if c0 == 96u8 {
            Some(TokenKind::Backtick)
        } else {
            None
        }
    } else if n == 2 {
        if c0 == 43u8 && c1 == 43u8 {
            Some(TokenKind::PlusPlus)
        } else if c0 == 43u8 && c1 == 61u8 {
            Some(TokenKind::PlusEq)
        } else if c0 == 45u8 && c1 == 45u8 {
            Some(TokenKind::MinusMinus)
        } else if c0 == 45u8 && c1 == 61u8 {
            Some(TokenKind::MinusEq)
        } else if c0 == 45u8 && c1 == 62u8 {
            Some(TokenKind::Arrow)
        } else if c0 == 42u8 && c1 == 61u8 {
            Some(TokenKind::StarEq)
        } else if c0 == 47u8 && c1 == 61u8 {
            Some(TokenKind::SlashEq)
        } else if c0 == 37u8 && c1 == 61u8 {
            Some(TokenKind::PercentEq)
        } else if c0 == 61u8 && c1 == 61u8 {
            Some(TokenKind::EqEq)
        } else if c0 == 33u8 && c1 == 61u8 {
            Some(TokenKind::Ne)
        } else if c0 == 38u8 && c1 == 38u8 {
            Some(TokenKind::AndAnd)
        } else if c0 == 38u8 && c1 == 61u8 {
            Some(TokenKind::AmpEq)
        } else if c0 == 124u8 && c1 == 124u8 {
            Some(TokenKind::OrOr)
        } else if c0 == 124u8 && c1 == 61u8 {
            Some(TokenKind::PipeEq)
        } else if c0 == 94u8 && c1 == 61u8 {
            Some(TokenKind::CaretEq)
        } else if c0 == 58u8 && c1 == 58u8 {
            Some(TokenKind::ColonColon)
        } else if c0 == 58u8 && c1 == 61u8 {
            Some(TokenKind::ColonEq)
        } else if c0 == 60u8 && c1 == 60u8 {
            Some(TokenKind::Shl)
        } else if c0 == 60u8 && c1 == 61u8 {
            Some(TokenKind::Le)
        } else if c0 == 62u8 && c1 == 62u8 {
            Some(TokenKind::Shr)
        } else if c0 == 62u8 && c1 == 61u8 {
            Some(TokenKind::Ge)
        } else {
            None
        }
    } else if n == 3 {
        if c0 == 60u8 && c1 == 60u8 && c2 == 61u8 {
            Some(TokenKind::ShlEq)
        } else if c0 == 62u8 && c1 == 62u8 && c2 == 61u8 {
            Some(TokenKind::ShrEq)
        } else if c0 == 46u8 && c1 == 46u8 && c2 == 46u8 {
            Some(TokenKind::DotDotDot)
        } else {
            None
        }
    } else {
        None
    }
}

/// Maximal munch: the operator lexed at a position is the longest operator
/// spelling that the input there starts with (of the up to three bytes
/// available), and there is none when no spelling fits.
pub proof fn lemma_op_token_longest(b: u8, b2: Option<u8>, b3: Option<u8>)
    ensures
        ({
            let avail: int = if b2 is None {
                1
            } else if b3 is None {
                2
            } else {
                3
            };
            let c1: u8 = match b2 {
                Some(x) => x,
                None => 0,
            };
            let c2: u8 = match b3 {
                Some(x) => x,
                None => 0,
            };
            &&& op_token(b, b2, b3) matches Some((k, n)) ==> {
                &&& 1 <= n <= avail
                &&& op_spelling(n, b, c1, c2) == Some(k)
                &&& forall|m: int| n < m <= avail ==> op_spelling(m, b, c1, c2) is None
            }
            &&& op_token(b, b2, b3) is None ==> forall|m: int| 1 <= m <= avail ==> op_spelling(m, b, c1, c2) is None
        }),
{
}

proof fn lemma_op_not_eof(b: u8, b2: Option<u8>, b3: Option<u8>)
    ensures
        op_token(b, b2, b3) matches Some((k, n)) ==> !(k is Eof),
{
}

/// Once lexing from byte `i` reaches the end of input, lexing again from
/// where that token ended gives the same end-of-input token and stays put:
/// calling past the end is safe.
pub proof fn lemma_eof_stays(src: Seq<u8>, i: int, t: Token, end: int, r2: Result<Token, LexError>, end2: int)
    requires
        0 <= i,
        lexed(src, i, Ok(t), end),
        t.kind is Eof,
        lexed(src, end, r2, end2),
    ensures
        r2 matches Ok(t2) && t2.kind is Eof && t2.span == t.span,
        end2 == end,
{
    if let Ok(s) = trivia_end(src, i) {
        if s < src.len() {
            lemma_op_not_eof(src[s], at(src, s + 1), at(src, s + 2));
        }
    }
}

/// `toks` is the token list of `src` from byte `i`: each token lexed where
/// the one before ended, the last and only the last one `Eof`.
pub open spec fn tokens_of(src: Seq<u8>, i: int, toks: Seq<Token>) -> bool
    decreases toks.len(),
{
    &&& toks.len() > 0
    &&& lexed(src, i, Ok(toks[0]), toks[0].span.end as int)
    &&& if toks[0].kind is Eof {
        toks.len() == 1
    } else {
        tokens_of(src, toks[0].span.end as int, toks.drop_first())
    }
}

/// Lexing `src` from byte `i` gives the tokens `toks` (none of them `Eof`)
/// and then the error `e`.
pub open spec fn fails_after(src: Seq<u8>, i: int, toks: Seq<Token>, e: LexError) -> bool
    decreases toks.len(),
{
    if toks.len() == 0 {
        lexed(src, i, Err(e), i)
    } else {
        &&& lexed(src, i, Ok(toks[0]), toks[0].span.end as int)
        &&& !(toks[0].kind is Eof)
        &&& fails_after(src, toks[0].span.end as int, toks.drop_first(), e)
    }
}

/// Lexing `src` from byte `i` ends in the error `e` after some tokens.
pub open spec fn lex_fails(src: Seq<u8>, i: int, e: LexError) -> bool {
    exists|toks: Seq<Token>| #[trigger] fails_after(src, i, toks, e)
}

/// `toks` (none of them `Eof`) are lexed one after another from byte `i`,
/// the last ending at `j`.
spec fn lexed_run(src: Seq<u8>, i: int, toks: Seq<Token>, j: int) -> bool
    decreases toks.len(),
{
    if toks.len() == 0 {
        i == j
    } else {
        &&& lexed(src, i, Ok(toks[0]), toks[0].span.end as int)
        &&& !(toks[0].kind is Eof)
        &&& lexed_run(src, toks[0].span.end as int, toks.drop_first(), j)
    }
}

proof fn lemma_run_extend(src: Seq<u8>, i: int, toks: Seq<Token>, j: int, t: Token)
    requires
        lexed_run(src, i, toks, j),
        lexed(src, j, Ok(t), t.span.end as int),
        !(t.kind is Eof),
    ensures
        lexed_run(src, i, toks.push(t), t.span.end as int),
    decreases toks.len(),
{
    if toks.len() == 0 {
        assert(toks.push(t).drop_first() =~= Seq::<Token>::empty());
        assert(toks.push(t)[0] == t);
        assert(lexed_run(src, t.span.end as int, Seq::<Token>::empty(), t.span.end as int));
    } else {
        lemma_run_extend(src, toks[0].span.end as int, toks.drop_first(), j, t);
        assert(toks.push(t).drop_first() =~= toks.drop_first().push(t));
    }
}

proof fn lemma_run_finish(src: Seq<u8>, i: int, toks: Seq<Token>, j: int, t: Token)
    requires
        lexed_run(src, i, toks, j),
        lexed(src, j, Ok(t), t.span.end as int),
        t.kind is Eof,
    ensures
        tokens_of(src, i, toks.push(t)),
    decreases toks.len(),
{
    if toks.len() == 0 {
        assert(toks.push(t).drop_first() =~= Seq::<Token>::empty());
    } else {
        lemma_run_finish(src, toks[0].span.end as int, toks.drop_first(), j, t);
        assert(toks.push(t).drop_first() =~= toks.drop_first().push(t));
    }
}

proof fn lemma_run_fail(src: Seq<u8>, i: int, toks: Seq<Token>, j: int, e: LexError)
    requires
        lexed_run(src, i, toks, j),
        lexed(src, j, Err(e), j),
    ensures
        fails_after(src, i, toks, e),
    decreases toks.len(),
{
    if toks.len() > 0 {
        lemma_run_fail(src, toks[0].span.end as int, toks.drop_first(), j, e);
    }
}

proof fn lemma_trivia_end(src: Seq<u8>, i: int)
    requires
        0 <= i <= src.len(),
    ensures
        trivia_end(src, i) matches Ok(s) ==> i <= s <= src.len(),
    decreases src.len() - i,
{
    if i < src.len() {
        if is_space(src[i]) {
            lemma_trivia_end(src, i + 1);
        } else if src[i] == 47u8 && at(src, i + 1) == Some(47u8) {
            lemma_line_end(src, i);
            let e = line_end(src, i);
            if i < e <= src.len() {
                lemma_trivia_end(src, e);
            }
        } else if src[i] == 47u8 && at(src, i + 1) == Some(42u8) {
            lemma_block_end(src, i + 2);
            if let Some(e) = block_end(src, i + 2) {
                lemma_trivia_end(src, e);
            }
        }
    }
}

impl Lexer {
    /// Produces the next token, skipping whitespace and comments first. At
    /// the end of the source it gives `Eof`, and again on every later call.
    pub fn next_token(&mut self) -> (r: Result<Token, LexError>)
        requires
            old(self).wf(),
        ensures
            final(self).wf(),
            final(self).text() == old(self).text(),
            lexed(old(self).text(), old(self).cursor(), r, final(self).cursor()),
            r matches Ok(t) ==> final(self).cursor() == t.span.end && (!(t.kind is Eof) ==> old(self).cursor()
                < final(self).cursor()),
    {
        let ghost i = self.idx as int;
        proof {
            lemma_trivia_end(self.src@, i);
        }
        match self.skip_trivia() {
            Ok(()) => {},
            Err(e) => {
                return Err(e);
            },
        }
        let start = self.idx;
        let pos = self.pos();
        let b = match self.peek() {
            None => {
                return Ok(Token::new(TokenKind::Eof, Span::new(start, self.idx, pos)));
            },
            Some(b) => b,
        };
        if b == 95u8 || (65u8 <= b && b <= 90u8) || (97u8 <= b && b <= 122u8) {
            proof {
                lemma_ident_end(self.src@, start as int);
                assert(ident_end(self.src@, start as int) == ident_end(self.src@, start + 1));
                lemma_ident_end(self.src@, start + 1);
            }
            return Ok(self.lex_ident(start, pos));
        }
        if 48u8 <= b && b <= 57u8 {
            proof {
                lemma_number_progress(self.src@, start as int);
            }
            return self.lex_number(start, pos);
        }
        if b == 34u8 {
            proof {
                lemma_string_progress(self.src@, start + 1, seq![]);
            }
            return self.lex_string(start, pos);
        }
        if b == 39u8 {
            proof {
                lemma_char_progress(self.src@, start + 1, 0, 0);
            }
            return self.lex_char(start, pos);
        }
        self.lex_operator(start, pos)
    }

    /// Tokenizes the whole input: the token list, ending with `Eof`, or the
    /// first error.
    pub fn tokenize(self) -> (r: Result<Vec<Token>, LexError>)
        requires
            self.wf(),
        ensures
            match r {
                Ok(v) => tokens_of(self.text(), self.cursor(), v@),
                Err(e) => lex_fails(self.text(), self.cursor(), e),
            },
    {
        let ghost src = self.text();
        let ghost i0 = self.cursor();
        let mut lx = self;
        let mut tokens: Vec<Token> = Vec::new();
        loop
            invariant
                lx.wf(),
                lx.text() == src,
                src == self.text(),
                i0 == self.cursor(),
                lexed_run(src, i0, tokens@, lx.cursor()),
            decreases src.len() - lx.cursor(),
        {
            let ghost c = lx.cursor();
            let ghost t0 = tokens@;
            match lx.next_token() {
                Err(e) => {
                    proof {
                        lemma_run_fail(src, i0, t0, c, e);
                        assert(fails_after(self.text(), self.cursor(), t0, e));
                        assert(lex_fails(self.text(), self.cursor(), e));
                    }
                    return Err(e);
                },
                Ok(tok) => {
                    let is_eof = matches!(tok.kind, TokenKind::Eof);
                    let ghost t = tok;
                    tokens.push(tok);
                    proof {
                        if is_eof {
                            lemma_run_finish(src, i0, t0, c, t);
                        } else {
                            lemma_run_extend(src, i0, t0, c, t);
                        }
                    }
                    if is_eof {
                        proof {
                            assert(tokens@ =~= t0.push(t));
                            assert(tokens_of(src, i0, tokens@));
                        }
                        return Ok(tokens);
                    }
                },
            }
        }
    }
}

/// Tokenizes a source text.
pub fn tokenize(src: &str) -> (r: Result<Vec<Token>, LexError>)
    requires
        src.spec_bytes().len() < u32::MAX,
    ensures
        match r {
            Ok(v) => tokens_of(src.spec_bytes(), 0, v@),
            Err(e) => lex_fails(src.spec_bytes(), 0, e),
        },
{
    Lexer::new(src).tokenize()
}

/// A pull-based source of tokens, so a parser can run over the lexer (or
/// over a preprocessor in front of it) while pulling tokens one at a time.
/// `ready` is what the stream keeps between calls.
pub trait TokenStream {
    spec fn ready(&self) -> bool;

    fn next_token(&mut self) -> (r: Result<Token, LexError>)
        requires
            old(self).ready(),
        ensures
            final(self).ready(),
    ;
}

impl TokenStream for Lexer {
    open spec fn ready(&self) -> bool {
        self.wf()
    }

    fn next_token(&mut self) -> (r: Result<Token, LexError>)
        ensures
            final(self).text() == old(self).text(),
            lexed(old(self).text(), old(self).cursor(), r, final(self).cursor()),
            r matches Ok(t) ==> final(self).cursor() == t.span.end && (!(t.kind is Eof) ==> old(self).cursor()
                < final(self).cursor()),
    {
        Lexer::next_token(self)
    }
}

} // verus!
