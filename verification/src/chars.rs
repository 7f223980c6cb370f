//! Character classes, runs of characters, and UTF-8 byte counts:
//! the vocabulary in which the lexers' rules are written.
use vstd::prelude::*;

verus! {

/// Whitespace as the lexer sees it: space, tab, line feed, carriage return.
pub open spec fn spec_is_whitespace(c: char) -> bool {
    c == ' ' || c == '\t' || c == '\n' || c == '\r'
}

/// A decimal digit.
pub open spec fn spec_is_number(c: char) -> bool {
    '0' <= c && c <= '9'
}

/// A hexadecimal digit.
pub open spec fn spec_is_hex_digit(c: char) -> bool {
    ('0' <= c && c <= '9') || ('a' <= c && c <= 'f') || ('A' <= c && c <= 'F')
}

/// A line break.
pub open spec fn spec_is_newline(c: char) -> bool {
    c == '\n' || c == '\r'
}

/// A character that can begin a name: an ASCII letter or `_`.
pub open spec fn spec_is_ident_start(c: char) -> bool {
    ('a' <= c && c <= 'z') || ('A' <= c && c <= 'Z') || c == '_'
}

/// A character that can continue a name: an ASCII letter, a digit or `_`.
pub open spec fn spec_is_ident_char(c: char) -> bool {
    spec_is_ident_start(c) || spec_is_number(c)
}

/// A character whose UTF-8 encoding is one byte.
pub open spec fn spec_is_ascii(c: char) -> bool {
    (c as u32) < 0x80
}

pub open spec fn ident_class() -> spec_fn(char) -> bool {
    |c: char| spec_is_ident_char(c)
}

pub open spec fn whitespace_class() -> spec_fn(char) -> bool {
    |c: char| spec_is_whitespace(c)
}

pub open spec fn number_class() -> spec_fn(char) -> bool {
    |c: char| spec_is_number(c)
}

pub open spec fn hex_digit_class() -> spec_fn(char) -> bool {
    |c: char| spec_is_hex_digit(c)
}

/// Everything but a line break.
pub open spec fn line_class() -> spec_fn(char) -> bool {
    |c: char| !spec_is_newline(c)
}

/// Line breaks only.
pub open spec fn newline_class() -> spec_fn(char) -> bool {
    |c: char| spec_is_newline(c)
}

/// The character `=`.
pub open spec fn equals_class() -> spec_fn(char) -> bool {
    |c: char| c == '='
}

/// The character at `i`, or `'\0'` past either end: what a one-character look-ahead sees.
pub open spec fn char_at(s: Seq<char>, i: int) -> char {
    if 0 <= i < s.len() {
        s[i]
    } else {
        '\0'
    }
}

/// The end of the longest run of characters satisfying `p` that starts at `i`.
pub open spec fn run_end(s: Seq<char>, i: int, p: spec_fn(char) -> bool) -> int
    decreases s.len() - i,
{
    if 0 <= i < s.len() && p(s[i]) {
        run_end(s, i + 1, p)
    } else {
        i
    }
}

pub proof fn lemma_run_end(s: Seq<char>, i: int, p: spec_fn(char) -> bool)
    requires
        0 <= i <= s.len(),
    ensures
        i <= run_end(s, i, p) <= s.len(),
        run_end(s, i, p) < s.len() ==> !p(s[run_end(s, i, p)]),
        forall|k: int| i <= k < run_end(s, i, p) ==> p(#[trigger] s[k]),
    decreases s.len() - i,
{
    if i < s.len() && p(s[i]) {
        lemma_run_end(s, i + 1, p);
    }
}

/// A run that is known to end at `e` ends there.
pub proof fn lemma_run_end_exact(s: Seq<char>, i: int, e: int, p: spec_fn(char) -> bool)
    requires
        0 <= i <= e <= s.len(),
        forall|k: int| i <= k < e ==> p(#[trigger] s[k]),
        e == s.len() || !p(s[e]),
    ensures
        run_end(s, i, p) == e,
    decreases e - i,
{
    if i < e {
        lemma_run_end_exact(s, i + 1, e, p);
    }
}

/// Number of bytes in the UTF-8 encoding of `c`.
pub open spec fn utf8_width(c: char) -> nat {
    if (c as u32) < 0x80 {
        1
    } else if (c as u32) < 0x800 {
        2
    } else if (c as u32) < 0x10000 {
        3
    } else {
        4
    }
}

/// Number of bytes in the UTF-8 encoding of the characters `s[i..j]`.
pub open spec fn byte_len(s: Seq<char>, i: int, j: int) -> nat
    decreases j - i,
{
    if i < j {
        byte_len(s, i, j - 1) + utf8_width(s[j - 1])
    } else {
        0
    }
}

/// The length of `s[i..j]` in bytes as a token records it: in a `u32`, modulo 2^32.
pub open spec fn token_len(s: Seq<char>, i: int, j: int) -> u32 {
    (byte_len(s, i, j) % 0x1_0000_0000) as u32
}

/// Byte counts add up over adjacent ranges.
pub proof fn lemma_byte_len_split(s: Seq<char>, i: int, k: int, j: int)
    requires
        i <= k <= j,
    ensures
        byte_len(s, i, j) == byte_len(s, i, k) + byte_len(s, k, j),
    decreases j - k,
{
    if k < j {
        lemma_byte_len_split(s, i, k, j - 1);
    }
}

/// One more character in a range: the recorded length grows by its width, modulo 2^32.
pub proof fn lemma_token_len_step(s: Seq<char>, i: int, j: int, w: u32)
    requires
        i <= j,
        w == utf8_width(s[j]),
    ensures
        token_len(s, i, j + 1) == vstd::wrapping::u32_specs::wrapping_add(token_len(s, i, j), w),
{
    let b: int = byte_len(s, i, j) as int;
    assert(byte_len(s, i, j + 1) == b + w);
    let m: int = 0x1_0000_0000;
    let t = b % m;
    assert(0 <= t < m);
    assert(b == (b / m) * m + t) by (nonlinear_arith)
        requires
            m > 0,
            t == b % m,
    ;
    if t + w >= m {
        assert((b + w) % m == t + w - m) by (nonlinear_arith)
            requires
                m > 0,
                b == (b / m) * m + t,
                0 <= t + w - m < m,
        ;
    } else {
        assert((b + w) % m == t + w) by (nonlinear_arith)
            requires
                m > 0,
                b == (b / m) * m + t,
                0 <= t + w < m,
        ;
    }
}

/// A range of ASCII characters has as many bytes as characters.
pub proof fn lemma_ascii_byte_len(s: Seq<char>, i: int, j: int)
    requires
        0 <= i <= j <= s.len(),
        forall|k: int| i <= k < j ==> spec_is_ascii(#[trigger] s[k]),
    ensures
        byte_len(s, i, j) == j - i,
    decreases j - i,
{
    if i < j {
        lemma_ascii_byte_len(s, i, j - 1);
        assert(spec_is_ascii(s[j - 1]));
    }
}

pub fn is_ident_start(c: char) -> (b: bool)
    ensures
        b == spec_is_ident_start(c),
{
    ('a' <= c && c <= 'z') || ('A' <= c && c <= 'Z') || c == '_'
}

pub fn is_ident_char(c: char) -> (b: bool)
    ensures
        b == spec_is_ident_char(c),
{
    is_ident_start(c) || is_number(c)
}

pub fn is_whitespace(c: char) -> (b: bool)
    ensures
        b == spec_is_whitespace(c),
{
    c == ' ' || c == '\t' || c == '\n' || c == '\r'
}

pub fn is_number(c: char) -> (b: bool)
    ensures
        b == spec_is_number(c),
{
    '0' <= c && c <= '9'
}

pub fn is_hex_digit(c: char) -> (b: bool)
    ensures
        b == spec_is_hex_digit(c),
{
    ('0' <= c && c <= '9') || ('a' <= c && c <= 'f') || ('A' <= c && c <= 'F')
}

/// Number of bytes in the UTF-8 encoding of `c`.
pub fn width_utf8(c: char) -> (w: u32)
    ensures
        w == utf8_width(c),
{
    let u = c as u32;
    if u < 0x80 {
        1
    } else if u < 0x800 {
        2
    } else if u < 0x10000 {
        3
    } else {
        4
    }
}

/// The characters of `s`, in order.
pub fn chars_of(s: &str) -> (v: Vec<char>)
    ensures
        v@ == s@,
{
    let mut v: Vec<char> = Vec::new();
    for c in it: s.chars()
        invariant
            v@ == it.seq().take(it.index() as int),
            it.seq() == s@,
    {
        v.push(c);
    }
    v
}

} // verus!
