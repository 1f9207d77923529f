use eretria::lexer::{Lexer, Token};
use eretria::operators::precedence;
use eretria::parser::Parser;

#[test]
fn lexer_token_sequence() {
    let mut lx = Lexer::new("fn x() 0x10 \"a\\d65\"");
    let mut toks: Vec<(Token, usize, usize)> = Vec::new();
    while let Some(t) = lx.next() {
        toks.push(t);
    }
    assert_eq!(
        toks,
        vec![
            (Token::Fn, 0, 2),
            (Token::Ident("x".to_string()), 3, 4),
            (Token::OpenParen, 4, 5),
            (Token::CloseParen, 5, 6),
            (Token::Integer(16), 7, 11),
            (Token::Str("aA".to_string()), 12, 19),
        ]
    );
}

#[test]
fn lexer_operators_longest_first() {
    let mut lx = Lexer::new("** * == = >= >> >");
    let mut toks: Vec<Token> = Vec::new();
    while let Some((t, _, _)) = lx.next() {
        toks.push(t);
    }
    assert_eq!(
        toks,
        vec![
            Token::Op("**".to_string()),
            Token::Op("*".to_string()),
            Token::Op("==".to_string()),
            Token::Equals,
            Token::Op(">=".to_string()),
            Token::Op(">>".to_string()),
            Token::Op(">".to_string()),
        ]
    );
}

#[test]
fn lexer_marks_unknown_text() {
    let mut lx = Lexer::new("$");
    assert_eq!(lx.next(), Some((Token::Error, 0, 1)));
    assert_eq!(lx.next(), None);
}

#[test]
fn precedence_table_values() {
    assert_eq!(precedence("|"), Some(0));
    assert_eq!(precedence("^"), Some(1));
    assert_eq!(precedence("&"), Some(2));
    assert_eq!(precedence("=="), Some(3));
    assert_eq!(precedence("!="), Some(3));
    assert_eq!(precedence(">"), Some(4));
    assert_eq!(precedence("<"), Some(4));
    assert_eq!(precedence(">="), Some(4));
    assert_eq!(precedence("<="), Some(4));
    assert_eq!(precedence(">>"), Some(5));
    assert_eq!(precedence("<<"), Some(5));
    assert_eq!(precedence("+"), Some(6));
    assert_eq!(precedence("-"), Some(6));
    assert_eq!(precedence("*"), Some(7));
    assert_eq!(precedence("/"), Some(7));
    assert_eq!(precedence("**"), Some(8));
    assert_eq!(precedence("="), None);
    assert_eq!(precedence("@"), None);
    assert_eq!(precedence(""), None);
}

#[test]
fn parser_consumes_stream_once() {
    // the token stream is consumed by the first parse; a second parse of the
    // same parser sees an exhausted stream
    let mut p = Parser::new("fn f() 1");
    let first = p.parse().unwrap();
    assert_eq!(first.len(), 1);
    let second = p.parse().unwrap();
    assert_eq!(second.len(), 0);
}
