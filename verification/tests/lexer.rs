use lua_lexer::lexer::Lexer;
use lua_lexer::token::{LiteralKind, Token, TokenKind};
use unindent::unindent;

fn number(len: u32) -> Token {
    Token::new(TokenKind::Literal { kind: LiteralKind::Number }, len)
}

#[test]
fn trivias_linecomment() {
    let tokens = Lexer::new("--hello").tokenize();
    assert_eq!(tokens, vec![Token::new(TokenKind::LineComment, 7),]);
}

#[test]
fn trivias_blockcomment() {
    // no level
    let target = unindent(
        r#"
        --[[
        hello
        ]]
        "#,
    );
    let mut lexer = Lexer::new(target.as_str());
    let tokens = lexer.tokenize();
    assert_eq!(
        tokens,
        vec![
            Token::new(TokenKind::BlockComment { level: 0 }, 13),
            Token::new(TokenKind::Whitespace, 1),
        ]
    );
    // with level
    let target = unindent(
        r#"
        --[==[
        hello
        ]==]
        "#,
    );
    let mut lexer = Lexer::new(target.as_str());
    let tokens = lexer.tokenize();
    assert_eq!(
        tokens,
        vec![
            Token::new(TokenKind::BlockComment { level: 2 }, 17),
            Token::new(TokenKind::Whitespace, 1),
        ]
    );
}

#[test]
fn lieral_number() {
    let target = "3";
    let mut lexer = Lexer::new(target);
    let tokens = lexer.tokenize();
    assert_eq!(tokens, vec![number(1)]);
    let target = "-3";
    let mut lexer = Lexer::new(target);
    let tokens = lexer.tokenize();
    assert_eq!(tokens, vec![Token::new(TokenKind::Minus, 1), number(1)]);
    let target = "30";
    let mut lexer = Lexer::new(target);
    let tokens = lexer.tokenize();
    assert_eq!(tokens, vec![number(2)]);
    let target = "3.1416";
    let mut lexer = Lexer::new(target);
    let tokens = lexer.tokenize();
    assert_eq!(tokens, vec![number(6)]);
    let target = "314.16e-2";
    let mut lexer = Lexer::new(target);
    let tokens = lexer.tokenize();
    assert_eq!(tokens, vec![number(9)]);
    let target = "0.31416E1";
    let mut lexer = Lexer::new(target);
    let tokens = lexer.tokenize();
    assert_eq!(tokens, vec![number(9)]);
    let target = "0x5f6";
    let mut lexer = Lexer::new(target);
    let tokens = lexer.tokenize();
    assert_eq!(tokens, vec![number(5)]);
}
