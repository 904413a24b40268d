use thegrep::tokenizer::{Token, Tokenizer};

#[test]
fn empty() {
    let mut tokens = Tokenizer::new("");
    assert_eq!(tokens.next(), None);
    assert_eq!(tokens.next(), None);
}

#[test]
fn unknown_char() {
    let mut tokens = Tokenizer::new("k");
    assert_eq!(tokens.next(), Some(Token::Char('k')));
    assert_eq!(tokens.next(), None);
}

#[test]
fn print() {
    let mut tokens = Tokenizer::new("()(");
    assert_eq!(tokens.next(), Some(Token::LParen));
    assert_eq!(tokens.next(), Some(Token::RParen));
    assert_eq!(tokens.next(), Some(Token::LParen));
    assert_eq!(tokens.next(), None);
}

#[test]
fn star_eyes_tokens() {
    let mut tokens = Tokenizer::new("*_* .|.  *_*");
    assert_eq!(tokens.next(), Some(Token::KleeneStar));
    assert_eq!(tokens.next(), Some(Token::Char('_')));
    assert_eq!(tokens.next(), Some(Token::KleeneStar));
    assert_eq!(tokens.next(), Some(Token::AnyChar));
    assert_eq!(tokens.next(), Some(Token::UnionBar));
    assert_eq!(tokens.next(), Some(Token::AnyChar));
    assert_eq!(tokens.next(), Some(Token::KleeneStar));
    assert_eq!(tokens.next(), Some(Token::Char('_')));
    assert_eq!(tokens.next(), Some(Token::KleeneStar));
    assert_eq!(tokens.next(), None);
}

#[test]
fn check_spaces() {
    let mut tokens = Tokenizer::new("(      *     f      ");
    assert_eq!(tokens.next(), Some(Token::LParen));
    assert_eq!(tokens.next(), Some(Token::KleeneStar));
    assert_eq!(tokens.next(), Some(Token::Char('f')));
    assert_eq!(tokens.next(), None);
}

#[test]
fn check_tabs() {
    let mut tokens = Tokenizer::new("\t* \t*\t\t((");
    assert_eq!(tokens.next(), Some(Token::KleeneStar));
    assert_eq!(tokens.next(), Some(Token::KleeneStar));
    assert_eq!(tokens.next(), Some(Token::LParen));
    assert_eq!(tokens.next(), Some(Token::LParen));
    assert_eq!(tokens.next(), None);
}

#[test]
fn check_operators() {
    let mut tokens = Tokenizer::new("()|*|.");
    assert_eq!(tokens.next(), Some(Token::LParen));
    assert_eq!(tokens.next(), Some(Token::RParen));
    assert_eq!(tokens.next(), Some(Token::UnionBar));
    assert_eq!(tokens.next(), Some(Token::KleeneStar));
    assert_eq!(tokens.next(), Some(Token::UnionBar));
    assert_eq!(tokens.next(), Some(Token::AnyChar));
    assert_eq!(tokens.next(), None);
}

#[test]
fn take_lex_whitespace() {
    let mut tokens = Tokenizer::new("      \t \t   \n");
    tokens.lex_whitespace();
    assert_eq!(tokens.next_char(), None);
}

#[test]
fn take_lex_paren() {
    let mut tokens = Tokenizer::new("(()))");
    assert_eq!(tokens.lex_paren(), Token::LParen);
    assert_eq!(tokens.lex_paren(), Token::LParen);
    assert_eq!(tokens.lex_paren(), Token::RParen);
    assert_eq!(tokens.lex_paren(), Token::RParen);
    assert_eq!(tokens.lex_paren(), Token::RParen);
    assert_eq!(tokens.next_char(), None);
}

#[test]
fn take_lex_union() {
    let mut tokens = Tokenizer::new("|");
    assert_eq!(tokens.lex_union_bar(), Token::UnionBar);
    // Ensure we consumed the unknown character
    assert_eq!(tokens.next_char(), None);
}

#[test]
fn take_lex_kleene_star() {
    let mut tokens = Tokenizer::new("*");
    assert_eq!(tokens.lex_kleene_star(), Token::KleeneStar);
    assert_eq!(tokens.next_char(), None);
}

#[test]
fn take_lex_kleene_plus() {
    let mut tokens = Tokenizer::new("+");
    assert_eq!(tokens.lex_kleene_plus(), Token::KleenePlus);
    assert_eq!(tokens.next_char(), None);
}

#[test]
fn take_any_char() {
    let mut tokens = Tokenizer::new(".");
    assert_eq!(tokens.lex_any_char(), Token::AnyChar);
    assert_eq!(tokens.next_char(), None);
}
