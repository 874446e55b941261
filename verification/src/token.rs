//! Tokens produced by the lexer.
use vstd::prelude::*;

verus! {

/// Token kinds. Numbers are integers (see `value::MAX_SAFE`); identifiers and
/// string literals hold UTF-8 bytes.
#[derive(Debug, Clone, PartialEq)]
pub enum TokenKind {
    // Literals
    Number(i64),
    Str(Vec<u8>),
    Ident(Vec<u8>),
    // Keywords
    Let,
    Fn,
    If,
    Else,
    While,
    For,
    Return,
    True,
    False,
    Nil,
    Print,
    // Punctuation
    LParen,
    RParen,
    LBrace,
    RBrace,
    LBracket,
    RBracket,
    Comma,
    Semicolon,
    Colon,
    // Operators
    Plus,
    Minus,
    Star,
    Slash,
    Percent,
    Assign,
    EqEq,
    NotEq,
    Lt,
    LtEq,
    Gt,
    GtEq,
    AndAnd,
    OrOr,
    Bang,
    Eof,
}

/// The view of a token kind: literals by their values, the others as they are.
pub enum SKind {
    Num(int),
    Str(Seq<u8>),
    Ident(Seq<u8>),
    Plain(TokenKind),
}

pub open spec fn kind_view(k: TokenKind) -> SKind {
    match k {
        TokenKind::Number(n) => SKind::Num(n as int),
        TokenKind::Str(s) => SKind::Str(s@),
        TokenKind::Ident(s) => SKind::Ident(s@),
        _ => SKind::Plain(k),
    }
}

/// A token and the 1-based source line it starts on.
#[derive(Debug, Clone, PartialEq)]
pub struct Token {
    pub kind: TokenKind,
    pub line: u32,
}

impl Token {
    pub fn new(kind: TokenKind, line: u32) -> (t: Token)
        ensures
            t.kind == kind,
            t.line == line,
    {
        Token { kind, line }
    }
}

} // verus!
