//! Tokens: a kind and the number of bytes of source text that the token covers.
use vstd::prelude::*;

verus! {

/// The kinds of literal the lexer can recognise.
#[derive(Debug, Clone, Copy, PartialEq, Eq, Structural)]
pub enum LiteralKind {
    Number,
    String,
    /// A long bracket string such as `[[...]]`; `level` counts the `=` between the brackets.
    LongString { level: u32 },
    Boolean,
    Nil,
}

/// The kinds of token of Lua source text.
#[derive(Debug, Clone, Copy, PartialEq, Eq, Structural)]
pub enum TokenKind {
    // Trivia
    /// A run of ' ', '\t', '\n', '\r'.
    Whitespace,
    /// `--...` up to the end of the line.
    LineComment,
    /// `--[[...]]`, `--[==[...]==]`; `level` counts the `=` between the brackets.
    BlockComment { level: u32 },
    // Literals
    Literal { kind: LiteralKind },
    // Identifiers
    Ident,
    // Symbols
    Plus,
    Minus,
    Star,
    Slash,
    Percent,
    Caret,
    Hash,
    Eq,
    EqEq,
    TildeEq,
    Lt,
    LtEq,
    Gt,
    GtEq,
    LParen,
    RParen,
    LBrace,
    RBrace,
    LBracket,
    RBracket,
    Semi,
    Colon,
    Comma,
    Dot,
    DotDot,
    Ellipsis,
    // Special
    /// Text that starts no token the lexer knows.
    Error,
    /// End of input.
    Eof,
}

/// A token: its kind and its length in bytes of UTF-8 source text.
#[derive(Debug, Clone, PartialEq, Eq, Structural)]
pub struct Token {
    pub kind: TokenKind,
    pub len: u32,
}

impl Token {
    pub fn new(kind: TokenKind, len: u32) -> (tok: Self)
        ensures
            tok.kind == kind,
            tok.len == len,
    {
        Self { kind, len }
    }
}

} // verus!
