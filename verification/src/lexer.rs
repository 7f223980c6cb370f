//! The lexer: turns Lua source text into tokens.
//!
//! ```text
//! local x = 12
//! local M = {}
//! ```
//! becomes a sequence of tokens, each a kind and the number of bytes it covers;
//! whitespace and comments are tokens of their own.
use vstd::prelude::*;
use crate::chars::{
    byte_len, char_at, chars_of, equals_class, hex_digit_class, ident_class, is_hex_digit,
    is_ident_char, is_ident_start, is_number, is_whitespace, lemma_ascii_byte_len, lemma_run_end,
    lemma_token_len_step, line_class, number_class, run_end, spec_is_ascii, token_len,
    whitespace_class, width_utf8,
};
use crate::rules::{
    closes_at, find_close, lemma_next_token_at_bounds, lemma_opening_level, lex_from,
    long_bracket_end, next_token_at, number_end, opening_level, quoted_end,
};
use crate::token::{LiteralKind, Token, TokenKind};

verus! {

/// A lexer over one input text.
pub struct Lexer {
    /// The input text.
    chars: Vec<char>,
    /// Index in `chars` of the next character to read.
    pos: usize,
    /// Index in `chars` where the current token began.
    token_start: usize,
    /// Bytes of the current token read so far, modulo 2^32.
    token_bytes: u32,
}

/// The closing long bracket of the given level: `]`, `level` times `=`, `]`.
pub open spec fn closing_long_bracket(level: nat) -> Seq<char> {
    seq![']'] + Seq::new(level, |_t: int| '=') + seq![']']
}

/// The input continues at `i` with the characters of `p`.
pub open spec fn matches_at(s: Seq<char>, i: int, p: Seq<char>) -> bool {
    &&& 0 <= i
    &&& i + p.len() <= s.len()
    &&& forall|t: int| 0 <= t < p.len() ==> s[i + t] == p[t]
}

/// The input matches `closing_long_bracket(level)` at `m` exactly when a closing long bracket
/// of that level stands there.
proof fn lemma_closing_long_bracket(s: Seq<char>, m: int, level: nat)
    requires
        0 <= m,
    ensures
        matches_at(s, m, closing_long_bracket(level)) <==> closes_at(s, m, level as int),
{
    let p = closing_long_bracket(level);
    assert(p.len() == level + 2);
    assert(p[0] == ']');
    assert(p[level + 1 as int] == ']');
    assert forall|t: int| 1 <= t <= level implies p[t] == '=' by {}
    if matches_at(s, m, p) {
        assert(s[m + 0] == p[0]);
        assert(s[m + (level + 1)] == p[level + 1 as int]);
        assert forall|t: int| m + 1 <= t <= m + level implies s[t] == '=' by {
            assert(s[m + (t - m)] == p[t - m]);
        }
    }
    if closes_at(s, m, level as int) {
        assert forall|t: int| 0 <= t < p.len() implies s[m + t] == p[t] by {
            if t == 0 {
            } else if t == level + 1 {
            } else {
                assert(m + 1 <= m + t <= m + level);
            }
        }
    }
}

/// A closing long bracket is made of ASCII characters.
proof fn lemma_closing_long_bracket_ascii(level: nat)
    ensures
        forall|t: int|
            0 <= t < closing_long_bracket(level).len() ==> spec_is_ascii(
                #[trigger] closing_long_bracket(level)[t],
            ),
{
    let p = closing_long_bracket(level);
    assert forall|t: int| 0 <= t < p.len() implies spec_is_ascii(#[trigger] p[t]) by {
        if t == 0 {
            assert(p[t] == ']');
        } else if t == level + 1 {
            assert(p[t] == ']');
        } else {
            assert(p[t] == '=');
        }
    }
}

/// `]`, `level` times `=`, `]`.
fn closing_bracket_of_level(level: usize) -> (v: Vec<char>)
    ensures
        v@ == closing_long_bracket(level as nat),
{
    let mut v: Vec<char> = Vec::new();
    v.push(']');
    let mut t: usize = 0;
    while t < level
        invariant
            t <= level,
            v@ == seq![']'] + Seq::new(t as nat, |_t: int| '='),
        decreases level - t,
    {
        v.push('=');
        t = t + 1;
        assert(v@ =~= seq![']'] + Seq::new(t as nat, |_t: int| '='));
    }
    v.push(']');
    assert(v@ =~= closing_long_bracket(level as nat));
    v
}

impl Lexer {
    /// The whole input text.
    pub closed spec fn input(&self) -> Seq<char> {
        self.chars@
    }

    /// Index in `input()` of the next character to read.
    pub closed spec fn position(&self) -> int {
        self.pos as int
    }

    /// The bookkeeping agrees: positions within the input, bytes of the current token counted.
    spec fn inv(&self) -> bool {
        &&& self.pos <= self.chars.len()
        &&& self.token_start <= self.pos
        &&& self.token_bytes == token_len(self.chars@, self.token_start as int, self.pos as int)
    }

    /// A lexer between two tokens, ready to read the next one.
    pub closed spec fn wf(&self) -> bool {
        &&& self.inv()
        &&& self.token_start == self.pos
    }

    /// `self` and `other` read the same text and are within the same token.
    spec fn same_token(&self, other: &Self) -> bool {
        &&& self.chars@ == other.chars@
        &&& self.token_start == other.token_start
    }

    pub fn new(inner: &str) -> (lexer: Self)
        ensures
            lexer.wf(),
            lexer.input() == inner@,
            lexer.position() == 0,
    {
        Self { chars: chars_of(inner), pos: 0, token_start: 0, token_bytes: 0 }
    }

    /// The text still to be read.
    pub fn remaining(&self) -> (rest: Vec<char>)
        requires
            self.wf(),
        ensures
            rest@ == self.input().subrange(self.position(), self.input().len() as int),
    {
        let mut rest: Vec<char> = Vec::new();
        let mut k = self.pos;
        while k < self.chars.len()
            invariant
                self.wf(),
                self.pos <= k <= self.chars.len(),
                rest@ == self.chars@.subrange(self.pos as int, k as int),
            decreases self.chars.len() - k,
        {
            rest.push(self.chars[k]);
            k = k + 1;
            assert(rest@ =~= self.chars@.subrange(self.pos as int, k as int));
        }
        rest
    }

    /// All the tokens from the current position to the end of the input, without the final
    /// end-of-input mark; the lexer is left at the end of the input.
    pub fn tokenize(&mut self) -> (tokens: Vec<Token>)
        requires
            old(self).wf(),
        ensures
            final(self).wf(),
            final(self).input() == old(self).input(),
            final(self).position() == final(self).input().len(),
            tokens@ == lex_from(old(self).input(), old(self).position()),
    {
        let ghost s = self.chars@;
        let ghost i0 = self.pos as int;
        let mut tokens: Vec<Token> = Vec::new();
        loop
            invariant_except_break
                self.wf(),
                self.chars@ == s,
                lex_from(s, i0) == tokens@ + lex_from(s, self.pos as int),
            ensures
                self.wf(),
                self.chars@ == s,
                self.pos == s.len(),
                lex_from(s, i0) == tokens@,
            decreases s.len() - self.pos,
        {
            let ghost before = self.pos as int;
            let tok = self.next_token();
            if tok.kind == TokenKind::Eof {
                assert(lex_from(s, before) == Seq::<Token>::empty());
                assert(tokens@ + Seq::<Token>::empty() =~= tokens@);
                break;
            }
            proof {
                lemma_next_token_at_bounds(s, before);
                assert(lex_from(s, before) == seq![tok] + lex_from(s, self.pos as int));
                assert(tokens@.push(tok) + lex_from(s, self.pos as int) =~= tokens@ + (seq![tok]
                    + lex_from(s, self.pos as int)));
            }
            tokens.push(tok);
        }
        tokens
    }

    /// Reads one token. At the end of the input it reads nothing and returns the
    /// end-of-input mark, of length 0.
    fn next_token(&mut self) -> (tok: Token)
        requires
            old(self).wf(),
        ensures
            final(self).wf(),
            final(self).chars@ == old(self).chars@,
            old(self).pos == old(self).chars.len() ==> tok == (Token { kind: TokenKind::Eof, len: 0 })
                && final(self).pos == old(self).pos,
            old(self).pos < old(self).chars.len() ==> ({
                let s = old(self).chars@;
                let i = old(self).pos as int;
                let (kind, end) = next_token_at(s, i);
                &&& tok == (Token { kind, len: token_len(s, i, end) })
                &&& final(self).pos == end
            }),
    {
        let ghost s = self.chars@;
        let ghost i = self.pos as int;
        let cur = match self.consume() {
            Some(c) => c,
            None => return Token::new(TokenKind::Eof, 0),
        };
        let kind = if is_whitespace(cur) {
            // skip whitespace
            while is_whitespace(self.peek())
                invariant
                    self.inv(),
                    self.chars@ == s,
                    self.token_start == i,
                    i + 1 <= self.pos,
                    run_end(s, self.pos as int, whitespace_class()) == run_end(
                        s,
                        i + 1,
                        whitespace_class(),
                    ),
                decreases s.len() - self.pos,
            {
                self.consume();
            }
            TokenKind::Whitespace
        } else if is_number(cur) {
            self.consume_number(cur);
            TokenKind::Literal { kind: LiteralKind::Number }
        } else if is_ident_start(cur) {
            self.consume_while(is_ident_char, Ghost(ident_class()));
            TokenKind::Ident
        } else if cur == '"' || cur == '\'' {
            if self.quoted_body(cur) {
                TokenKind::Literal { kind: LiteralKind::String }
            } else {
                TokenKind::Error
            }
        } else if cur == '-' {
            self.dash_token()
        } else if cur == '[' {
            self.bracket_token()
        } else {
            match cur {
                '(' => TokenKind::LParen,
                ')' => TokenKind::RParen,
                '{' => TokenKind::LBrace,
                '}' => TokenKind::RBrace,
                ']' => TokenKind::RBracket,
                '+' => TokenKind::Plus,
                '*' => TokenKind::Star,
                '/' => TokenKind::Slash,
                '%' => TokenKind::Percent,
                '^' => TokenKind::Caret,
                '#' => TokenKind::Hash,
                ';' => TokenKind::Semi,
                ':' => TokenKind::Colon,
                ',' => TokenKind::Comma,
                '.' => {
                    if self.expect(&['.', '.']) {
                        TokenKind::Ellipsis
                    } else if self.expect(&['.']) {
                        TokenKind::DotDot
                    } else {
                        TokenKind::Dot
                    }
                },
                '=' => match self.peek() {
                    '=' => {
                        self.consume();
                        TokenKind::EqEq
                    },
                    _ => TokenKind::Eq,
                },
                '<' => match self.peek() {
                    '=' => {
                        self.consume();
                        TokenKind::LtEq
                    },
                    _ => TokenKind::Lt,
                },
                '>' => match self.peek() {
                    '=' => {
                        self.consume();
                        TokenKind::GtEq
                    },
                    _ => TokenKind::Gt,
                },
                '~' => match self.peek() {
                    '=' => {
                        self.consume();
                        TokenKind::TildeEq
                    },
                    _ => TokenKind::Error,
                },
                _ => TokenKind::Error,
            }
        };
        let tok = Token::new(kind, self.pos_within_token());
        self.reset_pos_within_token();
        tok
    }

    /// The rest of a token that began with `-`: a block comment, a line comment or a minus.
    fn dash_token(&mut self) -> (kind: TokenKind)
        requires
            old(self).inv(),
            1 <= old(self).pos,
            old(self).token_start == old(self).pos - 1,
            old(self).chars@[old(self).pos - 1] == '-',
        ensures
            final(self).inv(),
            final(self).same_token(old(self)),
            ({
                let (k, end) = crate::rules::dash_token_at(old(self).chars@, old(self).pos - 1);
                kind == k && final(self).pos == end
            }),
    {
        let ghost s = self.chars@;
        let ghost j = self.pos as int;
        if self.starts_with(&['-']) {
            // comments
            if self.peek_at(1) == '[' {
                match self.opening_level_at(2) {
                    Some(level) => {
                        proof {
                            lemma_opening_level(s, j + 2);
                            lemma_run_end(s, j + 2, equals_class());
                            assert forall|t: int| j <= t < j + level + 3 implies spec_is_ascii(
                                #[trigger] s[t],
                            ) by {
                                if j + 2 <= t < j + 2 + level {
                                    assert(equals_class()(s[t]));
                                }
                            }
                        }
                        self.consume_bytes(level + 3);
                        if self.long_bracket_body(level) {
                            return TokenKind::BlockComment {
                                level: #[verifier::truncate] (level as u32),
                            };
                        } else {
                            return TokenKind::Error;
                        }
                    },
                    None => {},
                }
            }
            loop
                invariant_except_break
                    self.inv(),
                    self.same_token(old(self)),
                    self.chars@ == s,
                    j <= self.pos,
                    run_end(s, self.pos as int, line_class()) == run_end(s, j, line_class()),
                ensures
                    self.inv(),
                    self.same_token(old(self)),
                    self.chars@ == s,
                    self.pos == run_end(s, j, line_class()),
                decreases s.len() - self.pos,
            {
                let c = self.peek();
                if c == '\n' || c == '\r' {
                    break;
                }
                if self.consume().is_none() {
                    break;
                }
            }
            TokenKind::LineComment
        } else {
            TokenKind::Minus
        }
    }

    /// The rest of a token that began with `[`: a long string or a left bracket.
    fn bracket_token(&mut self) -> (kind: TokenKind)
        requires
            old(self).inv(),
            1 <= old(self).pos,
            old(self).token_start == old(self).pos - 1,
            old(self).chars@[old(self).pos - 1] == '[',
        ensures
            final(self).inv(),
            final(self).same_token(old(self)),
            ({
                let (k, end) = crate::rules::bracket_token_at(old(self).chars@, old(self).pos - 1);
                kind == k && final(self).pos == end
            }),
    {
        let ghost s = self.chars@;
        let ghost j = self.pos as int;
        match self.opening_level_at(0) {
            Some(level) => {
                proof {
                    lemma_opening_level(s, j);
                    lemma_run_end(s, j, equals_class());
                    assert forall|t: int| j <= t < j + level + 1 implies spec_is_ascii(
                        #[trigger] s[t],
                    ) by {
                        if t < j + level {
                            assert(equals_class()(s[t]));
                        }
                    }
                }
                self.consume_bytes(level + 1);
                if self.long_bracket_body(level) {
                    TokenKind::Literal {
                        kind: LiteralKind::LongString { level: #[verifier::truncate] (level as u32) },
                    }
                } else {
                    TokenKind::Error
                }
            },
            None => TokenKind::LBracket,
        }
    }

    /// Reads the body of a long bracket of the given level, through its closing bracket;
    /// `false` when the input ends first.
    fn long_bracket_body(&mut self, level: usize) -> (closed: bool)
        requires
            old(self).inv(),
        ensures
            final(self).inv(),
            final(self).same_token(old(self)),
            (closed, final(self).pos as int) == long_bracket_end(
                old(self).chars@,
                old(self).pos as int,
                level as int,
            ),
    {
        let ghost s = self.chars@;
        let ghost p0 = self.pos as int;
        let closing = closing_bracket_of_level(level);
        proof {
            lemma_closing_long_bracket_ascii(level as nat);
        }
        loop
            invariant
                self.inv(),
                self.same_token(old(self)),
                self.chars@ == s,
                s == old(self).chars@,
                p0 == old(self).pos,
                p0 <= self.pos,
                closing@ == closing_long_bracket(level as nat),
                forall|t: int| 0 <= t < closing@.len() ==> spec_is_ascii(#[trigger] closing@[t]),
                find_close(s, self.pos as int, level as int) == find_close(s, p0, level as int),
            decreases s.len() - self.pos,
        {
            let ghost p = self.pos as int;
            proof {
                lemma_closing_long_bracket(s, p, level as nat);
            }
            if self.starts_with(closing.as_slice()) {
                proof {
                    assert forall|t: int| p <= t < p + closing@.len() implies spec_is_ascii(
                        #[trigger] s[t],
                    ) by {
                        assert(s[p + (t - p)] == closing@[t - p]);
                    }
                }
                assert(find_close(s, p, level as int) == Some(p));
                self.consume_bytes(closing.len());
                return true;
            }
            if self.is_eof() {
                assert(find_close(s, p, level as int) == None::<int>);
                return false;
            }
            assert(find_close(s, p, level as int) == find_close(s, p + 1, level as int));
            self.consume();
        }
    }

    /// Reads the rest of a string quoted with `q`, through the closing quote; `false` when
    /// a line break or the end of the input comes first.
    fn quoted_body(&mut self, q: char) -> (closed: bool)
        requires
            old(self).inv(),
        ensures
            final(self).inv(),
            final(self).same_token(old(self)),
            (closed, final(self).pos as int) == quoted_end(
                old(self).chars@,
                old(self).pos as int,
                q,
            ),
    {
        let ghost s = self.chars@;
        let ghost p0 = self.pos as int;
        loop
            invariant
                self.inv(),
                self.same_token(old(self)),
                self.chars@ == s,
                s == old(self).chars@,
                p0 == old(self).pos,
                p0 <= self.pos,
                quoted_end(s, self.pos as int, q) == quoted_end(s, p0, q),
            decreases s.len() - self.pos,
        {
            let ghost p = self.pos as int;
            if self.is_eof() {
                assert(quoted_end(s, p, q) == (false, s.len() as int));
                return false;
            }
            let c = self.peek();
            if c == q {
                assert(quoted_end(s, p, q) == (true, p + 1));
                self.consume();
                return true;
            }
            if c == '\n' || c == '\r' {
                assert(quoted_end(s, p, q) == (false, p));
                return false;
            }
            if c == '\\' {
                self.consume();
                if self.is_eof() {
                    assert(quoted_end(s, p, q) == (false, s.len() as int));
                    return false;
                }
                assert(quoted_end(s, p, q) == quoted_end(s, p + 2, q));
            } else {
                assert(quoted_end(s, p, q) == quoted_end(s, p + 1, q));
            }
            self.consume();
        }
    }

    /// Looks at `off` characters ahead: the number of `=` that follow there and then a `[`,
    /// if they do.
    fn opening_level_at(&self, off: usize) -> (r: Option<usize>)
        requires
            self.inv(),
            self.pos + off <= self.chars.len(),
        ensures
            match opening_level(self.chars@, self.pos + off) {
                Some(level) => r == Some(level as usize),
                None => r is None,
            },
    {
        let ghost s = self.chars@;
        let mut t = off;
        while self.peek_at(t) == '='
            invariant
                self.inv(),
                self.chars@ == s,
                off <= t <= self.chars.len() - self.pos,
                run_end(s, self.pos + t, equals_class()) == run_end(
                    s,
                    self.pos + off,
                    equals_class(),
                ),
            decreases self.chars.len() - self.pos - t,
        {
            t = t + 1;
        }
        if self.peek_at(t) == '[' {
            Some(t - off)
        } else {
            None
        }
    }

    /// The next character, or `'\0'` at the end of the input.
    fn peek(&self) -> (c: char)
        requires
            self.inv(),
        ensures
            c == char_at(self.chars@, self.pos as int),
    {
        if self.pos < self.chars.len() {
            self.chars[self.pos]
        } else {
            '\0'
        }
    }

    /// The character `off` places after the next one, or `'\0'` past the end of the input.
    fn peek_at(&self, off: usize) -> (c: char)
        requires
            self.inv(),
        ensures
            c == char_at(self.chars@, self.pos + off),
    {
        if off < self.chars.len() - self.pos {
            self.chars[self.pos + off]
        } else {
            '\0'
        }
    }

    fn is_eof(&self) -> (b: bool)
        requires
            self.inv(),
        ensures
            b == (self.pos == self.chars.len()),
    {
        self.pos == self.chars.len()
    }

    /// Reads one character.
    fn consume(&mut self) -> (c: Option<char>)
        requires
            old(self).inv(),
        ensures
            final(self).inv(),
            final(self).same_token(old(self)),
            old(self).pos < old(self).chars.len() ==> c == Some(old(self).chars@[old(self).pos as int])
                && final(self).pos == old(self).pos + 1,
            old(self).pos == old(self).chars.len() ==> c is None && final(self).pos == old(self).pos,
    {
        if self.pos < self.chars.len() {
            let c = self.chars[self.pos];
            let w = width_utf8(c);
            proof {
                lemma_token_len_step(self.chars@, self.token_start as int, self.pos as int, w);
            }
            self.token_bytes = self.token_bytes.wrapping_add(w);
            self.pos = self.pos + 1;
            Some(c)
        } else {
            None
        }
    }

    /// Reads the next `n` bytes, which are `n` ASCII characters.
    fn consume_bytes(&mut self, n: usize)
        requires
            old(self).inv(),
            old(self).pos + n <= old(self).chars.len(),
            forall|t: int|
                old(self).pos <= t < old(self).pos + n ==> spec_is_ascii(
                    #[trigger] old(self).chars@[t],
                ),
        ensures
            final(self).inv(),
            final(self).same_token(old(self)),
            final(self).pos == old(self).pos + n,
            byte_len(old(self).chars@, old(self).pos as int, final(self).pos as int) == n,
    {
        proof {
            lemma_ascii_byte_len(self.chars@, self.pos as int, self.pos + n);
        }
        let mut k: usize = 0;
        while k < n
            invariant
                self.inv(),
                self.same_token(old(self)),
                k <= n,
                self.pos == old(self).pos + k,
                old(self).pos + n <= self.chars.len(),
            decreases n - k,
        {
            self.consume();
            k = k + 1;
        }
    }

    /// Reads characters as long as `cond` holds of the next one.
    fn consume_while<F: Fn(char) -> bool>(&mut self, cond: F, Ghost(p): Ghost<spec_fn(char) -> bool>)
        requires
            old(self).inv(),
            forall|c: char| cond.requires((c,)),
            forall|c: char, b: bool| cond.ensures((c,), b) ==> b == p(c),
            !p('\0'),
        ensures
            final(self).inv(),
            final(self).same_token(old(self)),
            final(self).pos == run_end(old(self).chars@, old(self).pos as int, p),
    {
        let ghost s = self.chars@;
        loop
            invariant_except_break
                self.inv(),
                self.same_token(old(self)),
                self.chars@ == s,
                forall|c: char| cond.requires((c,)),
                forall|c: char, b: bool| cond.ensures((c,), b) ==> b == p(c),
                !p('\0'),
                old(self).pos <= self.pos,
                run_end(s, self.pos as int, p) == run_end(s, old(self).pos as int, p),
            ensures
                self.inv(),
                self.same_token(old(self)),
                self.chars@ == s,
                self.pos == run_end(s, old(self).pos as int, p),
            decreases s.len() - self.pos,
        {
            let c = self.peek();
            if !cond(c) {
                break;
            }
            self.consume();
        }
    }

    /// Reads the ASCII `pattern` if the input continues with it.
    fn expect(&mut self, pattern: &[char]) -> (b: bool)
        requires
            old(self).inv(),
            forall|t: int| 0 <= t < pattern@.len() ==> spec_is_ascii(#[trigger] pattern@[t]),
        ensures
            final(self).inv(),
            final(self).same_token(old(self)),
            b == matches_at(old(self).chars@, old(self).pos as int, pattern@),
            b ==> final(self).pos == old(self).pos + pattern@.len(),
            !b ==> final(self).pos == old(self).pos,
    {
        if self.starts_with(pattern) {
            proof {
                let p = self.pos as int;
                assert forall|t: int| p <= t < p + pattern@.len() implies spec_is_ascii(
                    #[trigger] self.chars@[t],
                ) by {
                    assert(self.chars@[p + (t - p)] == pattern@[t - p]);
                }
            }
            self.consume_bytes(pattern.len());
            true
        } else {
            false
        }
    }

    /// The input continues with `pattern`.
    fn starts_with(&self, pattern: &[char]) -> (b: bool)
        requires
            self.inv(),
        ensures
            b == matches_at(self.chars@, self.pos as int, pattern@),
    {
        let n = pattern.len();
        if n > self.chars.len() - self.pos {
            return false;
        }
        let mut k: usize = 0;
        while k < n
            invariant
                self.inv(),
                n == pattern@.len(),
                k <= n,
                self.pos + n <= self.chars.len(),
                forall|t: int| 0 <= t < k ==> self.chars@[self.pos + t] == pattern@[t],
            decreases n - k,
        {
            if self.chars[self.pos + k] != pattern[k] {
                return false;
            }
            k = k + 1;
        }
        true
    }

    /// Bytes read since the current token began, modulo 2^32.
    fn pos_within_token(&self) -> (n: u32)
        requires
            self.inv(),
        ensures
            n == token_len(self.chars@, self.token_start as int, self.pos as int),
    {
        self.token_bytes
    }

    /// Starts the next token at the current position.
    fn reset_pos_within_token(&mut self)
        requires
            old(self).inv(),
        ensures
            final(self).wf(),
            final(self).chars@ == old(self).chars@,
            final(self).pos == old(self).pos,
    {
        self.token_start = self.pos;
        self.token_bytes = 0;
    }

    /// Reads the rest of a numeral whose first digit, `first`, has just been read.
    fn consume_number(&mut self, first: char)
        requires
            old(self).inv(),
            1 <= old(self).pos,
            first == old(self).chars@[old(self).pos - 1],
        ensures
            final(self).inv(),
            final(self).same_token(old(self)),
            final(self).pos == number_end(old(self).chars@, old(self).pos - 1),
    {
        let ghost s = self.chars@;
        let ghost i = self.pos - 1;
        if first == '0' && matches!(self.peek(), 'x' | 'X') {
            self.consume();
            self.consume_while(is_hex_digit, Ghost(hex_digit_class()));
            return;
        }
        self.consume_while(is_number, Ghost(number_class()));
        proof {
            lemma_run_end(s, i + 1, number_class());
        }
        if self.peek() == '.' && self.peek_at(1) != '.' {
            self.consume();
            self.consume_while(is_number, Ghost(number_class()));
        }
        let ghost b = self.pos as int;
        if matches!(self.peek(), 'e' | 'E') {
            self.consume();
            if matches!(self.peek(), '+' | '-') {
                self.consume();
            }
            self.consume_while(is_number, Ghost(number_class()));
        }
    }
}

} // verus!
