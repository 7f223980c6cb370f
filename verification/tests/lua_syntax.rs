use lua_lexer::lua_syntax::Lexer;
use lua_lexer::token::{Token, TokenKind};

#[test]
fn syntax_lexer_reads_names_and_symbols() {
    let tokens = Lexer::new("M.add = x").tokenize();
    assert_eq!(
        tokens,
        vec![
            Token::new(TokenKind::Ident, 1),
            Token::new(TokenKind::Dot, 1),
            Token::new(TokenKind::Ident, 3),
            Token::new(TokenKind::Whitespace, 1),
            Token::new(TokenKind::Eq, 1),
            Token::new(TokenKind::Whitespace, 1),
            Token::new(TokenKind::Ident, 1),
        ]
    );
}

#[test]
fn only_the_whole_text_hello_is_read_as_a_name() {
    assert_eq!(
        Lexer::new("--hello\n").tokenize(),
        vec![Token::new(TokenKind::LineComment, 7), Token::new(TokenKind::Whitespace, 1)]
    );
    assert_eq!(Lexer::new("--hellp").tokenize(), vec![Token::new(TokenKind::LineComment, 7)]);
    let mut lexer = Lexer::new("--hello");
    assert_eq!(lexer.tokenize().len(), 1);
    assert_eq!(lexer.tokenize(), vec![]);
}

#[test]
fn symbols() {
    let target = "--hello";
    let tokens = Lexer::new(target).tokenize();
    assert_eq!(tokens, vec![Token::new(TokenKind::Ident, 4)]);
}
