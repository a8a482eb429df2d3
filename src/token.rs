//! Tokens: kinds, literal payloads, lexemes and spans.
use vstd::prelude::*;

verus! {

/// The kind of a token. Literal payloads live in [`Literal`].
#[derive(Debug, Clone, Copy, PartialEq, Eq, Structural)]
pub enum TokenType {
    // Single character tokens
    LeftParen,
    RightParen,
    LeftBrace,
    RightBrace,
    Comma,
    Dot,
    Minus,
    Plus,
    Semicolon,
    Slash,
    Star,
    // One or two character tokens
    Bang,
    BangEqual,
    Equal,
    EqualEqual,
    Greater,
    GreaterEqual,
    Less,
    LessEqual,
    // Literals
    Identifier,
    String,
    Number,
    // Keywords
    If,
    Else,
    And,
    Or,
    False,
    True,
    For,
    While,
    Var,
    Nil,
    Fn,
    Class,
    Super,
    This,
    Print,
    Return,
    Eof,
}

/// The payload that a literal token carries.
#[derive(Debug, PartialEq, Eq)]
pub enum Literal {
    Nothing,
    /// The content of a string literal, without its quotes.
    Str(String),
    /// The value of a number literal.
    Num(i64),
}

/// A token: its kind, its payload, the exact source text it was read from, and the
/// half-open byte span `(lo, hi)` of that text in the source.
#[derive(Debug, PartialEq, Eq)]
pub struct Token {
    pub _type: TokenType,
    pub literal: Literal,
    pub lexeme: String,
    pub place: (usize, usize),
}

impl Literal {
    pub fn copy(&self) -> (r: Literal)
        ensures
            r == *self,
    {
        match self {
            Literal::Nothing => Literal::Nothing,
            Literal::Str(s) => Literal::Str(s.clone()),
            Literal::Num(n) => Literal::Num(*n),
        }
    }
}

impl Token {
    pub fn new(_type: TokenType, literal: Literal, lexeme: String, place: (usize, usize)) -> (r:
        Token)
        ensures
            r._type == _type,
            r.literal == literal,
            r.lexeme == lexeme,
            r.place == place,
    {
        Token { _type, literal, lexeme, place }
    }

    pub fn copy(&self) -> (r: Token)
        ensures
            r == *self,
    {
        Token {
            _type: self._type,
            literal: self.literal.copy(),
            lexeme: self.lexeme.clone(),
            place: self.place,
        }
    }
}

} // verus!
