//! The lexical rules of `lexer::Lexer`, stated over the input as a sequence of characters.
//!
//! `next_token_at(s, i)` says which token starts at index `i` and the index where it ends;
//! `lex(s)` is the sequence of tokens of the whole input. Token lengths are counted in
//! bytes of the UTF-8 text, as `token_len` records them.
use vstd::prelude::*;
use crate::chars::{
    char_at, equals_class, hex_digit_class, ident_class, lemma_run_end, line_class, number_class,
    run_end, spec_is_ident_start, spec_is_newline, spec_is_number, spec_is_whitespace, token_len,
    whitespace_class,
};
use crate::token::{LiteralKind, Token, TokenKind};

verus! {

/// Where the numeral that starts with the digit `s[i]` ends:
/// `0x`/`0X` and hex digits; or digits, an optional fraction (a `.` not followed by
/// another `.`, then digits), and an optional exponent (`e`/`E`, an optional sign, digits).
pub open spec fn number_end(s: Seq<char>, i: int) -> int {
    let j = i + 1;
    if s[i] == '0' && (char_at(s, j) == 'x' || char_at(s, j) == 'X') {
        run_end(s, j + 1, hex_digit_class())
    } else {
        let a = run_end(s, j, number_class());
        let b = if char_at(s, a) == '.' && char_at(s, a + 1) != '.' {
            run_end(s, a + 1, number_class())
        } else {
            a
        };
        if char_at(s, b) == 'e' || char_at(s, b) == 'E' {
            let c = if char_at(s, b + 1) == '+' || char_at(s, b + 1) == '-' {
                b + 2
            } else {
                b + 1
            };
            run_end(s, c, number_class())
        } else {
            b
        }
    }
}

/// At `m` stands a closing long bracket of the given level: `]`, `level` times `=`, `]`.
pub open spec fn closes_at(s: Seq<char>, m: int, level: int) -> bool {
    &&& 0 <= m
    &&& 0 <= level
    &&& m + level + 2 <= s.len()
    &&& s[m] == ']'
    &&& forall|t: int| m + 1 <= t <= m + level ==> s[t] == '='
    &&& s[m + level + 1] == ']'
}

/// The first index at or after `k` where a closing long bracket of the given level stands.
pub open spec fn find_close(s: Seq<char>, k: int, level: int) -> Option<int>
    decreases s.len() - k,
{
    if k < 0 || k >= s.len() {
        None
    } else if closes_at(s, k, level) {
        Some(k)
    } else {
        find_close(s, k + 1, level)
    }
}

/// The body of a long bracket of the given level, from `k` (just past the opening bracket):
/// whether a closing bracket of the same level ends it, and where the token ends — just past
/// that closing bracket, or at the end of the input.
pub open spec fn long_bracket_end(s: Seq<char>, k: int, level: int) -> (bool, int) {
    match find_close(s, k, level) {
        Some(m) => (true, m + level + 2),
        None => (false, s.len() as int),
    }
}

/// At `k` there follow `level` times `=` and a `[`: the rest of an opening long bracket
/// whose first `[` is just before `k`. `None` when there is no such bracket.
pub open spec fn opening_level(s: Seq<char>, k: int) -> Option<int> {
    let e = run_end(s, k, equals_class());
    if char_at(s, e) == '[' {
        Some(e - k)
    } else {
        None
    }
}

/// The token that starts with `s[i] == '-'`: a block comment `--[` `=`... `[` ... `]` `=`... `]`
/// (an error when it is not closed), a line comment `--...` up to the line break, or a minus.
pub open spec fn dash_token_at(s: Seq<char>, i: int) -> (TokenKind, int) {
    let j = i + 1;
    if char_at(s, j) == '-' {
        let k = j + 1;
        if char_at(s, k) == '[' && opening_level(s, k + 1) is Some {
            let level = opening_level(s, k + 1)->0;
            let (closed, end) = long_bracket_end(s, k + level + 2, level);
            if closed {
                (TokenKind::BlockComment { level: level as u32 }, end)
            } else {
                (TokenKind::Error, end)
            }
        } else {
            (TokenKind::LineComment, run_end(s, j, line_class()))
        }
    } else {
        (TokenKind::Minus, j)
    }
}

/// The token that starts with `s[i] == '['`: a long string `[` `=`... `[` ... `]` `=`... `]`
/// (an error when it is not closed), or a left bracket.
pub open spec fn bracket_token_at(s: Seq<char>, i: int) -> (TokenKind, int) {
    let j = i + 1;
    match opening_level(s, j) {
        Some(level) => {
            let (closed, end) = long_bracket_end(s, j + level + 1, level);
            if closed {
                (TokenKind::Literal { kind: LiteralKind::LongString { level: level as u32 } }, end)
            } else {
                (TokenKind::Error, end)
            }
        },
        None => (TokenKind::LBracket, j),
    }
}

/// The rest of a quoted string from `k`, the quote being `q`: whether it is closed by `q`
/// and where the token ends. A `\` takes the character after it along; a line break that
/// no `\` takes ends the token before it, unclosed, as does the end of the input.
pub open spec fn quoted_end(s: Seq<char>, k: int, q: char) -> (bool, int)
    decreases s.len() - k,
{
    if k < 0 || k >= s.len() {
        (false, s.len() as int)
    } else if s[k] == q {
        (true, k + 1)
    } else if spec_is_newline(s[k]) {
        (false, k)
    } else if s[k] == '\\' {
        if k + 1 < s.len() {
            quoted_end(s, k + 2, q)
        } else {
            (false, s.len() as int)
        }
    } else {
        quoted_end(s, k + 1, q)
    }
}

/// The token that starts with the quote `s[i]`: a string literal through the matching
/// closing quote, or an error when there is none on the line.
pub open spec fn quoted_token_at(s: Seq<char>, i: int) -> (TokenKind, int) {
    let (closed, end) = quoted_end(s, i + 1, s[i]);
    if closed {
        (TokenKind::Literal { kind: LiteralKind::String }, end)
    } else {
        (TokenKind::Error, end)
    }
}

/// The kind of a token made of the single character `c`, where there is one.
pub open spec fn single_char_kind(c: char) -> Option<TokenKind> {
    if c == '(' {
        Some(TokenKind::LParen)
    } else if c == ')' {
        Some(TokenKind::RParen)
    } else if c == '{' {
        Some(TokenKind::LBrace)
    } else if c == '}' {
        Some(TokenKind::RBrace)
    } else if c == ']' {
        Some(TokenKind::RBracket)
    } else if c == '+' {
        Some(TokenKind::Plus)
    } else if c == '*' {
        Some(TokenKind::Star)
    } else if c == '/' {
        Some(TokenKind::Slash)
    } else if c == '%' {
        Some(TokenKind::Percent)
    } else if c == '^' {
        Some(TokenKind::Caret)
    } else if c == '#' {
        Some(TokenKind::Hash)
    } else if c == ';' {
        Some(TokenKind::Semi)
    } else if c == ':' {
        Some(TokenKind::Colon)
    } else if c == ',' {
        Some(TokenKind::Comma)
    } else {
        None
    }
}

/// The token that starts at `i` (`0 <= i < s.len()`): its kind and the index where it ends.
pub open spec fn next_token_at(s: Seq<char>, i: int) -> (TokenKind, int) {
    let c = s[i];
    let j = i + 1;
    if spec_is_whitespace(c) {
        (TokenKind::Whitespace, run_end(s, j, whitespace_class()))
    } else if spec_is_number(c) {
        (TokenKind::Literal { kind: LiteralKind::Number }, number_end(s, i))
    } else if spec_is_ident_start(c) {
        (TokenKind::Ident, run_end(s, j, ident_class()))
    } else if c == '"' || c == '\'' {
        quoted_token_at(s, i)
    } else if c == '-' {
        dash_token_at(s, i)
    } else if c == '[' {
        bracket_token_at(s, i)
    } else if single_char_kind(c) is Some {
        (single_char_kind(c)->0, j)
    } else if c == '.' {
        if char_at(s, j) == '.' && char_at(s, j + 1) == '.' {
            (TokenKind::Ellipsis, j + 2)
        } else if char_at(s, j) == '.' {
            (TokenKind::DotDot, j + 1)
        } else {
            (TokenKind::Dot, j)
        }
    } else if c == '=' {
        if char_at(s, j) == '=' {
            (TokenKind::EqEq, j + 1)
        } else {
            (TokenKind::Eq, j)
        }
    } else if c == '<' {
        if char_at(s, j) == '=' {
            (TokenKind::LtEq, j + 1)
        } else {
            (TokenKind::Lt, j)
        }
    } else if c == '>' {
        if char_at(s, j) == '=' {
            (TokenKind::GtEq, j + 1)
        } else {
            (TokenKind::Gt, j)
        }
    } else if c == '~' {
        if char_at(s, j) == '=' {
            (TokenKind::TildeEq, j + 1)
        } else {
            (TokenKind::Error, j)
        }
    } else {
        (TokenKind::Error, j)
    }
}

pub proof fn lemma_find_close(s: Seq<char>, k: int, level: int)
    requires
        0 <= k <= s.len(),
    ensures
        find_close(s, k, level) matches Some(m) ==> k <= m && closes_at(s, m, level),
        find_close(s, k, level) matches Some(m) ==> forall|t: int|
            k <= t < m ==> !closes_at(s, t, level),
        find_close(s, k, level) is None ==> forall|t: int|
            k <= t < s.len() ==> !closes_at(s, t, level),
    decreases s.len() - k,
{
    if k < s.len() && !closes_at(s, k, level) {
        lemma_find_close(s, k + 1, level);
    }
}

pub proof fn lemma_long_bracket_end(s: Seq<char>, k: int, level: int)
    requires
        0 <= k <= s.len(),
    ensures
        k <= long_bracket_end(s, k, level).1 <= s.len(),
{
    lemma_find_close(s, k, level);
}

pub proof fn lemma_opening_level(s: Seq<char>, k: int)
    requires
        0 <= k <= s.len(),
    ensures
        opening_level(s, k) matches Some(level) ==> 0 <= level && k + level < s.len() && s[k
            + level] == '[' && run_end(s, k, equals_class()) == k + level,
{
    lemma_run_end(s, k, equals_class());
}

pub proof fn lemma_quoted_end(s: Seq<char>, k: int, q: char)
    requires
        0 <= k <= s.len(),
    ensures
        k <= quoted_end(s, k, q).1 <= s.len(),
    decreases s.len() - k,
{
    if k < s.len() && s[k] != q && !spec_is_newline(s[k]) {
        if s[k] == '\\' {
            if k + 1 < s.len() {
                lemma_quoted_end(s, k + 2, q);
            }
        } else {
            lemma_quoted_end(s, k + 1, q);
        }
    }
}

/// Every token takes at least one character and stays within the input.
pub proof fn lemma_next_token_at_bounds(s: Seq<char>, i: int)
    requires
        0 <= i < s.len(),
    ensures
        i < next_token_at(s, i).1 <= s.len(),
{
    let c = s[i];
    let j = i + 1;
    if spec_is_whitespace(c) {
        lemma_run_end(s, j, whitespace_class());
    } else if spec_is_number(c) {
        lemma_number_end(s, i);
    } else if spec_is_ident_start(c) {
        lemma_run_end(s, j, ident_class());
    } else if c == '"' || c == '\'' {
        lemma_quoted_end(s, j, c);
    } else if c == '-' {
        if char_at(s, j) == '-' {
            let k = j + 1;
            lemma_run_end(s, j, line_class());
            if char_at(s, k) == '[' {
                lemma_opening_level(s, k + 1);
                if opening_level(s, k + 1) is Some {
                    let level = opening_level(s, k + 1)->0;
                    lemma_long_bracket_end(s, k + level + 2, level);
                }
            }
        }
    } else if c == '[' {
        lemma_opening_level(s, j);
        if opening_level(s, j) is Some {
            let level = opening_level(s, j)->0;
            lemma_long_bracket_end(s, j + level + 1, level);
        }
    } else if c == '=' || c == '<' || c == '>' || c == '~' || c == '.' {
        if char_at(s, j) == '=' || char_at(s, j) == '.' {
            assert(j < s.len());
        }
        if char_at(s, j) == '.' && char_at(s, j + 1) == '.' {
            assert(j + 1 < s.len());
        }
    }
}

pub proof fn lemma_number_end(s: Seq<char>, i: int)
    requires
        0 <= i < s.len(),
    ensures
        i < number_end(s, i) <= s.len(),
{
    let j = i + 1;
    if s[i] == '0' && (char_at(s, j) == 'x' || char_at(s, j) == 'X') {
        lemma_run_end(s, j + 1, hex_digit_class());
    } else {
        lemma_run_end(s, j, number_class());
        let a = run_end(s, j, number_class());
        if char_at(s, a) == '.' && char_at(s, a + 1) != '.' {
            lemma_run_end(s, a + 1, number_class());
        }
        let b = if char_at(s, a) == '.' && char_at(s, a + 1) != '.' {
            run_end(s, a + 1, number_class())
        } else {
            a
        };
        if char_at(s, b) == 'e' || char_at(s, b) == 'E' {
            if char_at(s, b + 1) == '+' || char_at(s, b + 1) == '-' {
                lemma_run_end(s, b + 2, number_class());
            } else {
                lemma_run_end(s, b + 1, number_class());
            }
        }
    }
}

/// The tokens of `s` from index `i` on.
pub open spec fn lex_from(s: Seq<char>, i: int) -> Seq<Token>
    decreases s.len() - i,
{
    if 0 <= i < s.len() {
        let end = next_token_at(s, i).1;
        proof {
            lemma_next_token_at_bounds(s, i);
        }
        seq![Token { kind: next_token_at(s, i).0, len: token_len(s, i, end) }] + lex_from(s, end)
    } else {
        seq![]
    }
}

/// The tokens of the whole input.
pub open spec fn lex(s: Seq<char>) -> Seq<Token> {
    lex_from(s, 0)
}

} // verus!
