//! What holds of every token sequence the lexers return.
use vstd::prelude::*;
use vstd::utf8::{encode_scalar, encode_utf8};
use crate::chars::{
    byte_len, equals_class, ident_class, lemma_byte_len_split, lemma_run_end,
    lemma_run_end_exact, line_class, run_end, spec_is_whitespace, token_len, utf8_width,
    whitespace_class,
};
use crate::lexer::closing_long_bracket;
use crate::rules::{
    closes_at, find_close, lemma_find_close, lemma_next_token_at_bounds, lex, lex_from,
    next_token_at, quoted_end,
};
use crate::token::{LiteralKind, Token, TokenKind};

verus! {

/// The sum of the lengths of `tokens`.
pub open spec fn total_len(tokens: Seq<Token>) -> nat
    decreases tokens.len(),
{
    if tokens.len() == 0 {
        0
    } else {
        tokens[0].len as nat + total_len(tokens.drop_first())
    }
}

/// `utf8_width` is the length of the UTF-8 encoding.
proof fn lemma_width_is_encoding_len(c: char)
    ensures
        utf8_width(c) == encode_scalar(c as u32).len(),
{
    vstd::utf8::char_is_scalar(c);
}

proof fn lemma_byte_len_drop_first(s: Seq<char>, i: int, j: int)
    requires
        1 <= i <= j <= s.len(),
    ensures
        byte_len(s, i, j) == byte_len(s.drop_first(), i - 1, j - 1),
    decreases j - i,
{
    if i < j {
        lemma_byte_len_drop_first(s, i, j - 1);
        assert(s.drop_first()[j - 2] == s[j - 1]);
    }
}

/// `byte_len` of a whole sequence is the length of its UTF-8 encoding.
pub proof fn lemma_byte_len_is_encoding_len(s: Seq<char>)
    ensures
        byte_len(s, 0, s.len() as int) == encode_utf8(s).len(),
    decreases s.len(),
{
    if s.len() > 0 {
        lemma_byte_len_is_encoding_len(s.drop_first());
        lemma_byte_len_split(s, 0, 1, s.len() as int);
        lemma_byte_len_drop_first(s, 1, s.len() as int);
        lemma_width_is_encoding_len(s[0]);
        assert(byte_len(s, 0, 0) == 0);
        assert(byte_len(s, 0, 1) == utf8_width(s[0]));
    }
}

proof fn lemma_total_len_cons(tok: Token, rest: Seq<Token>)
    ensures
        total_len(seq![tok] + rest) == tok.len + total_len(rest),
{
    assert((seq![tok] + rest).drop_first() =~= rest);
}

proof fn lemma_lex_from_total(s: Seq<char>, i: int)
    requires
        0 <= i <= s.len(),
        byte_len(s, i, s.len() as int) < 0x1_0000_0000,
    ensures
        total_len(lex_from(s, i)) == byte_len(s, i, s.len() as int),
    decreases s.len() - i,
{
    if i < s.len() {
        let (kind, end) = next_token_at(s, i);
        lemma_next_token_at_bounds(s, i);
        lemma_byte_len_split(s, i, end, s.len() as int);
        lemma_lex_from_total(s, end);
        let tok = Token { kind, len: token_len(s, i, end) };
        assert(token_len(s, i, end) == byte_len(s, i, end));
        lemma_total_len_cons(tok, lex_from(s, end));
    }
}

/// The tokens cover the text: their lengths add up to the length of the text in bytes
/// (for texts under 4 GiB, whose tokens' lengths all fit in a `u32`).
pub proof fn law_lengths_add_up_to_text(s: Seq<char>)
    requires
        encode_utf8(s).len() < 0x1_0000_0000,
    ensures
        total_len(lex(s)) == encode_utf8(s).len(),
{
    lemma_byte_len_is_encoding_len(s);
    lemma_lex_from_total(s, 0);
}

proof fn lemma_lex_from_index(s: Seq<char>, i: int, k: int)
    requires
        0 <= i < s.len(),
        1 <= k < lex_from(s, i).len(),
    ensures
        lex_from(s, i)[k] == lex_from(s, next_token_at(s, i).1)[k - 1],
{
    lemma_next_token_at_bounds(s, i);
}

/// Every token is made of at least one character, so of at least one byte.
proof fn lemma_lex_from_nonempty(s: Seq<char>, i: int, k: int)
    requires
        0 <= i <= s.len(),
        byte_len(s, i, s.len() as int) < 0x1_0000_0000,
        0 <= k < lex_from(s, i).len(),
    ensures
        lex_from(s, i)[k].len > 0,
    decreases s.len() - i,
{
    if i < s.len() {
        let end = next_token_at(s, i).1;
        lemma_next_token_at_bounds(s, i);
        lemma_byte_len_split(s, i, end, s.len() as int);
        if k == 0 {
            lemma_byte_len_split(s, i, i + 1, end);
            assert(byte_len(s, i, i) == 0);
            assert(byte_len(s, i, i + 1) == utf8_width(s[i]));
            assert(token_len(s, i, end) == byte_len(s, i, end));
        } else {
            lemma_lex_from_index(s, i, k);
            lemma_lex_from_nonempty(s, end, k - 1);
        }
    }
}

/// No token is empty (for texts under 4 GiB).
pub proof fn law_no_empty_token(s: Seq<char>)
    requires
        encode_utf8(s).len() < 0x1_0000_0000,
    ensures
        forall|k: int| 0 <= k < lex(s).len() ==> #[trigger] lex(s)[k].len > 0,
{
    lemma_byte_len_is_encoding_len(s);
    assert forall|k: int| 0 <= k < lex(s).len() implies #[trigger] lex(s)[k].len > 0 by {
        lemma_lex_from_nonempty(s, 0, k);
    }
}

proof fn lemma_next_token_at_not_eof(s: Seq<char>, i: int)
    requires
        0 <= i < s.len(),
    ensures
        next_token_at(s, i).0 != TokenKind::Eof,
        next_token_at(s, i).0 == TokenKind::Whitespace ==> spec_is_whitespace(s[i]),
{
}

proof fn lemma_lex_from_no_eof(s: Seq<char>, i: int, k: int)
    requires
        0 <= i <= s.len(),
        0 <= k < lex_from(s, i).len(),
    ensures
        lex_from(s, i)[k].kind != TokenKind::Eof,
    decreases s.len() - i,
{
    if i < s.len() {
        lemma_next_token_at_not_eof(s, i);
        if k > 0 {
            lemma_lex_from_index(s, i, k);
            lemma_next_token_at_bounds(s, i);
            lemma_lex_from_no_eof(s, next_token_at(s, i).1, k - 1);
        }
    }
}

/// The end-of-input mark is never among the tokens returned.
pub proof fn law_no_end_mark(s: Seq<char>)
    ensures
        forall|k: int| 0 <= k < lex(s).len() ==> #[trigger] lex(s)[k].kind != TokenKind::Eof,
{
    assert forall|k: int| 0 <= k < lex(s).len() implies #[trigger] lex(s)[k].kind
        != TokenKind::Eof by {
        lemma_lex_from_no_eof(s, 0, k);
    }
}

proof fn lemma_lex_from_whitespace_maximal(s: Seq<char>, i: int, k: int)
    requires
        0 <= i <= s.len(),
        0 <= k,
        k + 1 < lex_from(s, i).len(),
    ensures
        !(lex_from(s, i)[k].kind == TokenKind::Whitespace && lex_from(s, i)[k + 1].kind
            == TokenKind::Whitespace),
    decreases s.len() - i,
{
    if i < s.len() {
        let end = next_token_at(s, i).1;
        lemma_next_token_at_bounds(s, i);
        lemma_lex_from_index(s, i, k + 1);
        if k == 0 {
            if next_token_at(s, i).0 == TokenKind::Whitespace {
                lemma_next_token_at_not_eof(s, i);
                lemma_run_end(s, i + 1, whitespace_class());
                assert(end == run_end(s, i + 1, whitespace_class()));
                if end < s.len() {
                    lemma_next_token_at_not_eof(s, end);
                    assert(!spec_is_whitespace(s[end]));
                }
                assert(lex_from(s, end)[0].kind == next_token_at(s, end).0);
            }
        } else {
            lemma_lex_from_index(s, i, k);
            lemma_lex_from_whitespace_maximal(s, end, k - 1);
        }
    }
}

/// Whitespace tokens are maximal: no two whitespace tokens are adjacent.
pub proof fn law_whitespace_runs_are_maximal(s: Seq<char>)
    ensures
        forall|k: int|
            0 <= k && k + 1 < lex(s).len() ==> !(#[trigger] lex(s)[k].kind == TokenKind::Whitespace
                && lex(s)[k + 1].kind == TokenKind::Whitespace),
{
    assert forall|k: int| 0 <= k && k + 1 < lex(s).len() implies !(#[trigger] lex(s)[k].kind
        == TokenKind::Whitespace && lex(s)[k + 1].kind == TokenKind::Whitespace) by {
        lemma_lex_from_whitespace_maximal(s, 0, k);
    }
}

/// Once the text has been read to its end, there are no more tokens: a second call of
/// `tokenize` returns none.
pub proof fn law_nothing_after_the_end(s: Seq<char>)
    ensures
        lex_from(s, s.len() as int) == Seq::<Token>::empty(),
{
}

/// A text that is one token from its start to its end lexes to that token alone.
proof fn lemma_lex_single(s: Seq<char>)
    requires
        s.len() > 0,
        next_token_at(s, 0).1 == s.len(),
    ensures
        lex(s) == seq![
            Token { kind: next_token_at(s, 0).0, len: token_len(s, 0, s.len() as int) },
        ],
{
    assert(lex_from(s, s.len() as int) == Seq::<Token>::empty());
    assert(seq![Token { kind: next_token_at(s, 0).0, len: token_len(s, 0, s.len() as int) }]
        + Seq::<Token>::empty() =~= seq![
        Token { kind: next_token_at(s, 0).0, len: token_len(s, 0, s.len() as int) },
    ]);
}

/// A name: an ASCII letter or `_`, then ASCII letters, decimal digits `0`-`9` and `_`, is one
/// identifier token covering the whole text.
pub proof fn law_name_is_one_identifier(s: Seq<char>)
    requires
        s.len() > 0,
        ('a' <= s[0] && s[0] <= 'z') || ('A' <= s[0] && s[0] <= 'Z') || s[0] == '_',
        forall|k: int|
            0 <= k < s.len() ==> ('a' <= #[trigger] s[k] && s[k] <= 'z') || ('A' <= s[k] && s[k]
                <= 'Z') || ('0' <= s[k] && s[k] <= '9') || s[k] == '_',
    ensures
        lex(s) == seq![Token { kind: TokenKind::Ident, len: token_len(s, 0, s.len() as int) }],
{
    assert forall|k: int| 1 <= k < s.len() implies ident_class()(#[trigger] s[k]) by {
        assert(('a' <= s[k] && s[k] <= 'z') || ('A' <= s[k] && s[k] <= 'Z') || ('0' <= s[k] && s[k]
            <= '9') || s[k] == '_');
    }
    lemma_run_end_exact(s, 1, s.len() as int, ident_class());
    lemma_lex_single(s);
}

/// Two dashes not directly followed by `[` begin a line comment, which runs up to (not
/// including) the first line break, or to the end of the text.
pub proof fn law_dashes_without_bracket_begin_a_line_comment(s: Seq<char>, e: int)
    requires
        2 <= e <= s.len(),
        s[0] == '-',
        s[1] == '-',
        e == 2 || s[2] != '[',
        forall|k: int| 0 <= k < e ==> #[trigger] s[k] != '\n' && s[k] != '\r',
        e == s.len() || s[e] == '\n' || s[e] == '\r',
    ensures
        lex(s)[0] == (Token { kind: TokenKind::LineComment, len: token_len(s, 0, e) }),
        lex(s).len() >= 1,
{
    assert forall|k: int| 1 <= k < e implies line_class()(#[trigger] s[k]) by {
        assert(s[k] != '\n' && s[k] != '\r');
    }
    lemma_run_end_exact(s, 1, e, line_class());
    assert(next_token_at(s, 0).1 == e);
    lemma_next_token_at_bounds(s, 0);
}

/// The text of a long bracket of level `n` round the body `b`: `[`, `n` times `=`, `[`, `b`,
/// `]`, `n` times `=`, `]`.
pub open spec fn long_bracket_text(n: nat, b: Seq<char>) -> Seq<char> {
    seq!['['] + Seq::new(n, |_t: int| '=') + seq!['['] + b + closing_long_bracket(n)
}

proof fn lemma_closes_at_is_closing_text(s: Seq<char>, m: int, n: nat)
    requires
        closes_at(s, m, n as int),
    ensures
        s.subrange(m, m + n + 2) == closing_long_bracket(n),
{
    let c = closing_long_bracket(n);
    assert forall|t: int| 0 <= t < n + 2 implies #[trigger] s.subrange(m, m + n + 2)[t] == c[t] by {
        if t == 0 {
        } else if t == n + 1 {
        } else {
            assert(m + 1 <= m + t <= m + n);
        }
    }
    assert(s.subrange(m, m + n + 2) =~= c);
}

/// A long string is one token from its opening bracket through the first closing bracket of
/// the same level: when the body holds no closing bracket of that level, the whole text is
/// a single long-string literal of that level.
pub proof fn law_long_string_is_one_literal(n: nat, b: Seq<char>)
    requires
        forall|t: int|
            0 <= t < b.len() ==> #[trigger] (b + closing_long_bracket(n)).subrange(t, t + n + 2)
                != closing_long_bracket(n),
    ensures
        lex(long_bracket_text(n, b)) == seq![
            Token {
                kind: TokenKind::Literal { kind: LiteralKind::LongString { level: n as u32 } },
                len: token_len(long_bracket_text(n, b), 0, long_bracket_text(n, b).len() as int),
            },
        ],
{
    let s = long_bracket_text(n, b);
    let c = closing_long_bracket(n);
    let last = (n + 2 + b.len()) as int;
    assert(s.len() == last + n + 2);
    assert(s[0] == '[');
    assert forall|k: int| 1 <= k < n + 1 implies equals_class()(#[trigger] s[k]) by {
        assert(s[k] == '=');
    }
    assert(s[n + 1 as int] == '[');
    lemma_run_end_exact(s, 1, n + 1 as int, equals_class());
    // the final closing bracket
    assert(s[last] == ']');
    assert(s[last + n + 1] == ']');
    assert forall|t: int| last + 1 <= t <= last + n implies s[t] == '=' by {}
    assert(closes_at(s, last, n as int));
    // no earlier one
    lemma_find_close(s, n + 2 as int, n as int);
    match find_close(s, n + 2 as int, n as int) {
        Some(m) => {
            if m < last {
                lemma_closes_at_is_closing_text(s, m, n);
                let t = m - (n + 2);
                assert(s.subrange(m, m + n + 2) =~= (b + c).subrange(t, t + n + 2));
            }
            assert(m == last);
        },
        None => {},
    }
    assert(next_token_at(s, 0).1 == s.len());
    lemma_lex_single(s);
}

/// A backslash in a quoted string takes the next character along, whatever it is but a line
/// break: quote, backslash, that character, quote is one string literal.
pub proof fn law_backslash_takes_the_next_character(q: char, c: char)
    requires
        q == '"' || q == '\'',
        c != '\n' && c != '\r',
    ensures
        lex(seq![q, '\\', c, q]) == seq![
            Token {
                kind: TokenKind::Literal { kind: LiteralKind::String },
                len: token_len(seq![q, '\\', c, q], 0, 4),
            },
        ],
{
    let s = seq![q, '\\', c, q];
    assert(quoted_end(s, 4, q) == (false, 4int));
    assert(quoted_end(s, 3, q) == (true, 4int));
    assert(quoted_end(s, 1, q) == quoted_end(s, 3, q));
    lemma_lex_single(s);
}

proof fn lemma_plain_body(s: Seq<char>, k: int, q: char)
    requires
        1 <= k <= s.len() - 1,
        s[s.len() - 1] == q,
        forall|t: int|
            1 <= t < s.len() - 1 ==> #[trigger] s[t] != q && s[t] != '\\' && s[t] != '\n' && s[t]
                != '\r',
    ensures
        quoted_end(s, k, q) == (true, s.len() as int),
    decreases s.len() - k,
{
    if k < s.len() - 1 {
        assert(s[k] != q && s[k] != '\\' && s[k] != '\n' && s[k] != '\r');
        lemma_plain_body(s, k + 1, q);
    }
}

/// A quote, a body with no quote of that kind, no backslash and no line break, and the same
/// quote again is one string literal.
pub proof fn law_plain_quoted_string_is_one_literal(q: char, b: Seq<char>)
    requires
        q == '"' || q == '\'',
        forall|t: int|
            0 <= t < b.len() ==> #[trigger] b[t] != q && b[t] != '\\' && b[t] != '\n' && b[t]
                != '\r',
    ensures
        lex(seq![q] + b + seq![q]) == seq![
            Token {
                kind: TokenKind::Literal { kind: LiteralKind::String },
                len: token_len(seq![q] + b + seq![q], 0, b.len() + 2 as int),
            },
        ],
{
    let s = seq![q] + b + seq![q];
    assert forall|t: int| 1 <= t < s.len() - 1 implies #[trigger] s[t] != q && s[t] != '\\'
        && s[t] != '\n' && s[t] != '\r' by {
        assert(s[t] == b[t - 1]);
    }
    lemma_plain_body(s, 1, q);
    lemma_lex_single(s);
}

} // verus!
