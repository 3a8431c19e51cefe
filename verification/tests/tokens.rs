use dentaku::lexer::{Lexer, Token};

fn chars(s: &str) -> Vec<char> {
    s.chars().collect()
}

fn number_text(t: Option<Token>) -> String {
    match t {
        Some(Token::Number(v)) => v.iter().collect(),
        other => panic!("expected a number token, got {:?}", other),
    }
}

#[test]
fn new_starts_at_the_beginning() {
    let l = Lexer::new(chars("1+2"));
    assert_eq!(l.position, 0);
    assert_eq!(l.input.len(), 3);
}

#[test]
fn numbers_and_symbols() {
    let mut l = Lexer::new(chars("1+23-4"));
    assert_eq!(number_text(l.token()), "1");
    assert!(matches!(l.token(), Some(Token::Plus)));
    assert_eq!(number_text(l.token()), "23");
    assert!(matches!(l.token(), Some(Token::Minus)));
    assert_eq!(number_text(l.token()), "4");
    assert!(l.token().is_none());
}

#[test]
fn whitespace_is_skipped_between_tokens() {
    let mut l = Lexer::new(chars("  12  *  3 "));
    assert_eq!(number_text(l.token()), "12");
    assert!(matches!(l.token(), Some(Token::Asterisk)));
    assert_eq!(number_text(l.token()), "3");
    assert!(l.token().is_none());
}

#[test]
fn all_symbols_are_recognised() {
    let mut l = Lexer::new(chars("+-*/()"));
    assert!(matches!(l.token(), Some(Token::Plus)));
    assert!(matches!(l.token(), Some(Token::Minus)));
    assert!(matches!(l.token(), Some(Token::Asterisk)));
    assert!(matches!(l.token(), Some(Token::Slash)));
    assert!(matches!(l.token(), Some(Token::LParen)));
    assert!(matches!(l.token(), Some(Token::RParen)));
    assert!(l.token().is_none());
}

#[test]
fn decimal_literals_keep_their_characters() {
    let mut l = Lexer::new(chars("23.5"));
    assert_eq!(number_text(l.token()), "23.5");
    let mut l2 = Lexer::new(chars(".5+1."));
    assert_eq!(number_text(l2.token()), ".5");
    assert!(matches!(l2.token(), Some(Token::Plus)));
    assert_eq!(number_text(l2.token()), "1.");
}

#[test]
fn invalid_number_runs_yield_no_token() {
    let mut l = Lexer::new(chars("1.2.3+4"));
    assert!(l.token().is_none());
    // the whole run was consumed all the same
    assert!(matches!(l.token(), Some(Token::Plus)));
    assert_eq!(number_text(l.token()), "4");
    let mut l2 = Lexer::new(chars("."));
    assert!(l2.token().is_none());
}

#[test]
fn unknown_characters_yield_no_token() {
    let mut l = Lexer::new(chars("a+1"));
    assert!(l.token().is_none());
    assert_eq!(l.position, 1);
}

#[test]
fn cursor_helpers() {
    let mut l = Lexer::new(chars("ab"));
    assert_eq!(l.curr(), Some('a'));
    assert_eq!(l.peek(), Some('b'));
    l.next();
    assert_eq!(l.curr(), Some('b'));
    assert_eq!(l.peek(), None);
    l.next();
    assert_eq!(l.curr(), None);
}

#[test]
fn number_characters() {
    assert!(Lexer::is_number(&'0'));
    assert!(Lexer::is_number(&'9'));
    assert!(Lexer::is_number(&'.'));
    assert!(!Lexer::is_number(&'+'));
    assert!(!Lexer::is_number(&'a'));
}
