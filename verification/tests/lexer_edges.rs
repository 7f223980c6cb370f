use lua_lexer::lexer::Lexer;
use lua_lexer::token::{LiteralKind, Token, TokenKind};

fn lex(text: &str) -> Vec<Token> {
    Lexer::new(text).tokenize()
}

fn t(kind: TokenKind, len: u32) -> Token {
    Token::new(kind, len)
}

fn num(len: u32) -> Token {
    t(TokenKind::Literal { kind: LiteralKind::Number }, len)
}

fn string(len: u32) -> Token {
    t(TokenKind::Literal { kind: LiteralKind::String }, len)
}

fn long_string(level: u32, len: u32) -> Token {
    t(TokenKind::Literal { kind: LiteralKind::LongString { level } }, len)
}

#[test]
fn empty_input_has_no_tokens() {
    assert_eq!(lex(""), vec![]);
}

#[test]
fn second_tokenize_returns_nothing() {
    let mut lexer = Lexer::new("a = 1");
    assert_eq!(lexer.tokenize().len(), 5);
    assert_eq!(lexer.tokenize(), vec![]);
    assert_eq!(lexer.remaining(), vec![]);
}

#[test]
fn remaining_is_the_whole_text_before_reading() {
    let lexer = Lexer::new("x é");
    assert_eq!(lexer.remaining(), vec!['x', ' ', 'é']);
}

#[test]
fn whitespace_run_is_one_token() {
    assert_eq!(lex(" \t\r\n  x"), vec![t(TokenKind::Whitespace, 6), t(TokenKind::Ident, 1)]);
}

#[test]
fn identifiers() {
    assert_eq!(
        lex("local x_1 = _Ab9"),
        vec![
            t(TokenKind::Ident, 5),
            t(TokenKind::Whitespace, 1),
            t(TokenKind::Ident, 3),
            t(TokenKind::Whitespace, 1),
            t(TokenKind::Eq, 1),
            t(TokenKind::Whitespace, 1),
            t(TokenKind::Ident, 4),
        ]
    );
    assert_eq!(
        lex("M.add"),
        vec![t(TokenKind::Ident, 1), t(TokenKind::Dot, 1), t(TokenKind::Ident, 3)]
    );
    assert_eq!(
        lex("x+y"),
        vec![t(TokenKind::Ident, 1), t(TokenKind::Plus, 1), t(TokenKind::Ident, 1)]
    );
    assert_eq!(lex("3abc"), vec![num(1), t(TokenKind::Ident, 3)]);
}

#[test]
fn quoted_strings() {
    assert_eq!(lex("\"12\""), vec![string(4)]);
    assert_eq!(lex("'string'"), vec![string(8)]);
    assert_eq!(lex("'a\\'b'"), vec![string(6)]);
    assert_eq!(lex("\"it's\""), vec![string(6)]);
    assert_eq!(lex("'é'"), vec![string(4)]);
}

#[test]
fn unclosed_strings_are_errors() {
    assert_eq!(
        lex("\"ab\ncd\""),
        vec![
            t(TokenKind::Error, 3),
            t(TokenKind::Whitespace, 1),
            t(TokenKind::Ident, 2),
            t(TokenKind::Error, 1),
        ]
    );
    assert_eq!(lex("'unterminated"), vec![t(TokenKind::Error, 13)]);
    assert_eq!(lex("'a\\"), vec![t(TokenKind::Error, 3)]);
}

#[test]
fn line_comment_stops_at_line_break() {
    assert_eq!(
        lex("-- x\ny"),
        vec![t(TokenKind::LineComment, 4), t(TokenKind::Whitespace, 1), t(TokenKind::Ident, 1)]
    );
    assert_eq!(lex("--\r"), vec![t(TokenKind::LineComment, 2), t(TokenKind::Whitespace, 1)]);
    assert_eq!(lex("--[x"), vec![t(TokenKind::LineComment, 4)]);
    assert_eq!(lex("--[==x"), vec![t(TokenKind::LineComment, 6)]);
}

#[test]
fn unclosed_block_comment_is_an_error() {
    assert_eq!(lex("--[[abc"), vec![t(TokenKind::Error, 7)]);
    assert_eq!(lex("--[==[abc]=]"), vec![t(TokenKind::Error, 12)]);
}

#[test]
fn block_comment_closes_at_its_matching_bracket() {
    assert_eq!(lex("--[==[ x ]] ]==]"), vec![t(TokenKind::BlockComment { level: 2 }, 16)]);
    assert_eq!(
        lex("--[[a]]b"),
        vec![t(TokenKind::BlockComment { level: 0 }, 7), t(TokenKind::Ident, 1)]
    );
}

#[test]
fn long_strings() {
    assert_eq!(lex("[[abc]]"), vec![long_string(0, 7)]);
    assert_eq!(lex("[==[abc]==]"), vec![long_string(2, 11)]);
    assert_eq!(lex("[[a]b]]"), vec![long_string(0, 7)]);
    assert_eq!(lex("[[a"), vec![t(TokenKind::Error, 3)]);
    assert_eq!(
        lex("[=x"),
        vec![t(TokenKind::LBracket, 1), t(TokenKind::Eq, 1), t(TokenKind::Ident, 1)]
    );
    assert_eq!(
        lex("a[1]"),
        vec![t(TokenKind::Ident, 1), t(TokenKind::LBracket, 1), num(1), t(TokenKind::RBracket, 1)]
    );
}

#[test]
fn symbols_of_one_and_two_characters() {
    assert_eq!(
        lex("<=>===<>~=~(){};:,+*/%^#"),
        vec![
            t(TokenKind::LtEq, 2),
            t(TokenKind::GtEq, 2),
            t(TokenKind::EqEq, 2),
            t(TokenKind::Lt, 1),
            t(TokenKind::Gt, 1),
            t(TokenKind::TildeEq, 2),
            t(TokenKind::Error, 1),
            t(TokenKind::LParen, 1),
            t(TokenKind::RParen, 1),
            t(TokenKind::LBrace, 1),
            t(TokenKind::RBrace, 1),
            t(TokenKind::Semi, 1),
            t(TokenKind::Colon, 1),
            t(TokenKind::Comma, 1),
            t(TokenKind::Plus, 1),
            t(TokenKind::Star, 1),
            t(TokenKind::Slash, 1),
            t(TokenKind::Percent, 1),
            t(TokenKind::Caret, 1),
            t(TokenKind::Hash, 1),
        ]
    );
}

#[test]
fn dots() {
    assert_eq!(lex("."), vec![t(TokenKind::Dot, 1)]);
    assert_eq!(lex(".."), vec![t(TokenKind::DotDot, 2)]);
    assert_eq!(lex("..."), vec![t(TokenKind::Ellipsis, 3)]);
    assert_eq!(lex("...."), vec![t(TokenKind::Ellipsis, 3), t(TokenKind::Dot, 1)]);
}

#[test]
fn numerals() {
    assert_eq!(lex("1..2"), vec![num(1), t(TokenKind::DotDot, 2), num(1)]);
    assert_eq!(lex("3e"), vec![num(2)]);
    assert_eq!(lex("7E+"), vec![num(3)]);
    assert_eq!(lex("0X1fz"), vec![num(4), t(TokenKind::Ident, 1)]);
}

#[test]
fn lengths_count_bytes() {
    // 'é' takes two bytes, '€' three, '😀' four
    assert_eq!(lex("é"), vec![t(TokenKind::Error, 2)]);
    assert_eq!(lex("--€😀"), vec![t(TokenKind::LineComment, 9)]);
}

#[test]
fn lengths_add_up_to_the_text() {
    let text = "local x = {} -- ü\n[[s]] --[=[c]=]\t0x1F 3.5e+2 ... ~= é 'q' \"w\\\"\"";
    let tokens = lex(text);
    let total: usize = tokens.iter().map(|tok| tok.len as usize).sum();
    assert_eq!(total, text.len());
    assert!(tokens.iter().all(|tok| tok.len > 0 && tok.kind != TokenKind::Eof));
    assert!(tokens
        .windows(2)
        .all(|w| !(w[0].kind == TokenKind::Whitespace && w[1].kind == TokenKind::Whitespace)));
}
