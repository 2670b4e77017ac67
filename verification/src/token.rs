//! Source positions and the tokens the lexer produces.
use vstd::prelude::*;

verus! {

/// A 1-based line/column source position.
#[derive(Clone, Copy, Debug, PartialEq, Eq, Structural)]
pub struct Pos {
    pub line: u32,
    pub col: u32,
}

impl Pos {
    pub fn new(line: u32, col: u32) -> (r: Pos)
        ensures
            r == (Pos { line, col }),
    {
        Pos { line, col }
    }
}

/// A token's byte range `[start, end)` in the source, and the position of its
/// first byte.
#[derive(Clone, Copy, Debug, PartialEq, Eq, Structural)]
pub struct Span {
    pub start: usize,
    pub end: usize,
    pub pos: Pos,
}

impl Span {
    pub fn new(start: usize, end: usize, pos: Pos) -> (r: Span)
        ensures
            r == (Span { start, end, pos }),
    {
        Span { start, end, pos }
    }
}

/// The reserved words of HolyC: the statement keywords and the built-in type names.
#[derive(Clone, Copy, Debug, PartialEq, Eq, Structural)]
pub enum Keyword {
    If,
    Else,
    While,
    Do,
    For,
    Switch,
    Case,
    Default,
    Break,
    Continue,
    Return,
    Goto,
    Class,
    Union,
    Public,
    Try,
    Catch,
    Throw,
    Sizeof,
    Start,
    End,
    U0,
    I8,
    I16,
    I32,
    I64,
    U8,
    U16,
    U32,
    U64,
    F64,
    Bool,
}

/// The spelling of each keyword.
pub open spec fn keyword_text(k: Keyword) -> Seq<char> {
    match k {
        Keyword::If => "if"@,
        Keyword::Else => "else"@,
        Keyword::While => "while"@,
        Keyword::Do => "do"@,
        Keyword::For => "for"@,
        Keyword::Switch => "switch"@,
        Keyword::Case => "case"@,
        Keyword::Default => "default"@,
        Keyword::Break => "break"@,
        Keyword::Continue => "continue"@,
        Keyword::Return => "return"@,
        Keyword::Goto => "goto"@,
        Keyword::Class => "class"@,
        Keyword::Union => "union"@,
        Keyword::Public => "public"@,
        Keyword::Try => "try"@,
        Keyword::Catch => "catch"@,
        Keyword::Throw => "throw"@,
        Keyword::Sizeof => "sizeof"@,
        Keyword::Start => "start"@,
        Keyword::End => "end"@,
        Keyword::U0 => "U0"@,
        Keyword::I8 => "I8"@,
        Keyword::I16 => "I16"@,
        Keyword::I32 => "I32"@,
        Keyword::I64 => "I64"@,
        Keyword::U8 => "U8"@,
        Keyword::U16 => "U16"@,
        Keyword::U32 => "U32"@,
        Keyword::U64 => "U64"@,
        Keyword::F64 => "F64"@,
        Keyword::Bool => "Bool"@,
    }
}

/// What a token is. A float literal keeps its source text (the digits, an
/// optional fraction and exponent), to be converted by the consumer.
#[derive(Clone, Debug)]
pub enum TokenKind {
    Ident(String),
    Keyword(Keyword),
    Int(i64),
    Float(String),
    Str(String),
    Char(i64),
    Plus,
    PlusPlus,
    PlusEq,
    Minus,
    MinusMinus,
    MinusEq,
    Arrow,
    Star,
    StarEq,
    Slash,
    SlashEq,
    Percent,
    PercentEq,
    Eq,
    EqEq,
    Not,
    Ne,
    Lt,
    Le,
    Shl,
    ShlEq,
    Gt,
    Ge,
    Shr,
    ShrEq,
    Amp,
    AndAnd,
    AmpEq,
    Pipe,
    OrOr,
    PipeEq,
    Caret,
    CaretEq,
    Tilde,
    Dot,
    DotDotDot,
    Colon,
    ColonColon,
    ColonEq,
    Question,
    LParen,
    RParen,
    LBrace,
    RBrace,
    LBracket,
    RBracket,
    Comma,
    Semicolon,
    At,
    Hash,
    Backtick,
    Eof,
}

#[derive(Clone, Debug)]
pub struct Token {
    pub kind: TokenKind,
    pub span: Span,
}

impl Token {
    pub fn new(kind: TokenKind, span: Span) -> (r: Token)
        ensures
            r == (Token { kind, span }),
    {
        Token { kind, span }
    }
}

} // verus!
