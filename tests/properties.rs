use thegrep::nfa::{Char, State, NFA};
use thegrep::parser::{to_catenation, to_char, to_closure, to_one_or_more, Parser, AST};
use thegrep::tokenizer::{Token, Tokenizer};

fn compile(p: &str) -> NFA {
    NFA::from(p).unwrap()
}

#[test]
fn generated_strings_are_accepted() {
    let patterns = [
        "ab",
        "a..b",
        "a|b|c",
        "a*",
        "a*b+c*d+",
        "(ab+)|i(cd)+",
        "abcccc*dd*a*a",
        "a*(a|b)+|(c|d)*d",
        "(a|b)*c+.",
    ];
    for p in patterns.iter() {
        let nfa = compile(p);
        for _ in 0..20 {
            let s = nfa.gen(1_000_000).unwrap();
            assert!(nfa.accepts(&s), "{} did not accept {}", p, s);
        }
    }
}

#[test]
fn gen_with_no_steps_gives_nothing() {
    assert_eq!(compile("a").gen(0), None);
    assert_eq!(compile("a*").gen(0), None);
}

#[test]
fn gen_of_literal_is_the_literal() {
    assert_eq!(compile("abc").gen(100), Some(String::from("abc")));
}

#[test]
fn gen_wildcards_are_alphanumeric() {
    let s = compile("...").gen(100).unwrap();
    assert_eq!(s.chars().count(), 3);
    assert!(s.chars().all(|c| c.is_ascii_alphanumeric()));
}

#[test]
fn precedence_of_star_and_catenation() {
    let ast = Parser::parse(Tokenizer::new("a.*")).unwrap();
    assert_eq!(ast, to_catenation(to_char('a'), to_closure(AST::AnyChar)));
    let ast = Parser::parse(Tokenizer::new("ab*")).unwrap();
    assert_eq!(ast, to_catenation(to_char('a'), to_closure(to_char('b'))));
}

#[test]
fn star_then_plus_on_one_atom() {
    let ast = Parser::parse(Tokenizer::new("a*+")).unwrap();
    assert_eq!(ast, to_one_or_more(to_closure(to_char('a'))));
}

#[test]
fn literal_match_is_anchored() {
    let nfa = compile("ab");
    assert!(nfa.accepts("ab"));
    assert!(!nfa.accepts("abc"));
    assert!(!nfa.accepts("a"));
    assert!(!nfa.accepts(""));
    assert!(!nfa.accepts("xab"));
}

#[test]
fn alternation_accepts_exactly_its_branches() {
    let nfa = compile("a|b|c");
    for s in ["a", "b", "c"].iter() {
        assert!(nfa.accepts(s));
    }
    for s in ["", "d", "ab", "abc", "aa", "cb"].iter() {
        assert!(!nfa.accepts(s));
    }
}

#[test]
fn closure_and_one_or_more_on_empty() {
    assert!(compile("a*").accepts(""));
    assert!(!compile("a+").accepts(""));
    assert!(compile("a+").accepts("aaaa"));
    assert!(compile("a*").accepts("aaaa"));
    assert!(!compile("a+").accepts("aab"));
}

#[test]
fn malformed_patterns_are_rejected() {
    for p in ["(ab", "a|", "|b", "a**", "", ")", "a)", "a++", "a+*", "a(b", "()", "*a"].iter() {
        assert!(NFA::from(p).is_err(), "{} compiled", p);
    }
}

#[test]
fn whitespace_is_ignored_in_patterns() {
    let nfa = compile(" a \t b\n");
    assert!(nfa.accepts("ab"));
    assert!(!nfa.accepts("a b"));
}

#[test]
fn concatenation_agrees_with_joined_literals() {
    let joined = compile("abcd");
    let inputs = ["", "a", "ab", "abc", "abcd", "abcde", "abdc", "cdab"];
    for s in inputs.iter() {
        let glued = compile("ab") + compile("cd");
        assert_eq!(glued.accepts(s), joined.accepts(s), "on {}", s);
    }
}

#[test]
fn concatenation_turns_right_wildcard_into_dot() {
    let glued = compile("a") + compile(".");
    assert!(glued.accepts("a."));
    assert!(!glued.accepts("ab"));
    let glued = compile(".") + compile("a");
    assert!(glued.accepts("ba"));
}

#[test]
fn concatenation_state_layout() {
    let glued = compile("a") + compile("b");
    assert_eq!(
        glued.states().clone(),
        vec![
            State::Start(Some(1)),
            State::Match(Char::Literal('a'), Some(2)),
            State::Start(Some(3)),
            State::Match(Char::Literal('b'), Some(4)),
            State::End,
        ]
    );
    assert_eq!(glued.start(), 0);
}

#[test]
fn compiled_state_layout() {
    let nfa = compile("a|b");
    assert_eq!(
        nfa.states().clone(),
        vec![
            State::Start(Some(3)),
            State::Match(Char::Literal('a'), Some(4)),
            State::Match(Char::Literal('b'), Some(4)),
            State::Split(Some(1), Some(2)),
            State::End,
        ]
    );
    let nfa = compile("a*");
    assert_eq!(
        nfa.states().clone(),
        vec![
            State::Start(Some(2)),
            State::Match(Char::Literal('a'), Some(2)),
            State::Split(Some(1), Some(3)),
            State::End,
        ]
    );
    let nfa = compile(".+");
    assert_eq!(
        nfa.states().clone(),
        vec![
            State::Start(Some(1)),
            State::Match(Char::Any, Some(2)),
            State::Split(Some(1), Some(3)),
            State::End,
        ]
    );
}

#[test]
fn walk_step_follows_edges() {
    let nfa = compile("a|.");
    assert_eq!(nfa.walk_step(0, false, 'x'), (3, None));
    assert_eq!(nfa.walk_step(3, true, 'x'), (1, None));
    assert_eq!(nfa.walk_step(3, false, 'x'), (2, None));
    assert_eq!(nfa.walk_step(1, false, 'x'), (4, Some('a')));
    assert_eq!(nfa.walk_step(2, true, 'z'), (4, Some('z')));
    assert_eq!(nfa.walk_step(4, true, 'z'), (4, None));
}

#[test]
fn nested_closure_terminates() {
    let nfa = compile("(a*)*");
    assert!(nfa.accepts(""));
    assert!(nfa.accepts("aaa"));
    assert!(!nfa.accepts("b"));
    assert!(!nfa.accepts("aab"));
}

#[test]
fn wildcard_matches_non_ascii() {
    let nfa = compile("h.llo");
    assert!(nfa.accepts("héllo"));
    assert!(!nfa.accepts("hllo"));
}

#[test]
fn tokens_for_every_punctuation() {
    let mut tokens = Tokenizer::new("(a)|*.+ \n");
    assert_eq!(tokens.next(), Some(Token::LParen));
    assert_eq!(tokens.next(), Some(Token::Char('a')));
    assert_eq!(tokens.next(), Some(Token::RParen));
    assert_eq!(tokens.next(), Some(Token::UnionBar));
    assert_eq!(tokens.next(), Some(Token::KleeneStar));
    assert_eq!(tokens.next(), Some(Token::AnyChar));
    assert_eq!(tokens.next(), Some(Token::KleenePlus));
    assert_eq!(tokens.next(), None);
}

#[test]
fn lex_char_takes_a_literal() {
    let mut tokens = Tokenizer::new("zq");
    assert_eq!(tokens.lex_char(), Token::Char('z'));
    assert_eq!(tokens.next_char(), Some('q'));
    assert_eq!(tokens.next_char(), None);
}

#[test]
fn error_messages_describe_the_failure() {
    assert!(NFA::from("(ab").unwrap_err().len() > 0);
    assert!(NFA::from("a**").unwrap_err().len() > 0);
}

#[test]
fn alternation_over_all_short_strings() {
    let nfa = compile("a|b|c");
    let alphabet = ['a', 'b', 'c', 'd'];
    let mut inputs = vec![String::new()];
    for _ in 0..3 {
        let mut longer = Vec::new();
        for s in inputs.iter() {
            for c in alphabet.iter() {
                let mut t = s.clone();
                t.push(*c);
                longer.push(t);
            }
        }
        inputs.extend(longer.into_iter().filter(|t| t.len() <= 3));
        inputs.sort();
        inputs.dedup();
    }
    for s in inputs.iter() {
        let expected = s == "a" || s == "b" || s == "c";
        assert_eq!(nfa.accepts(s), expected, "on {:?}", s);
    }
}

#[test]
fn parse_errors_name_the_found_token() {
    let err = Parser::parse(Tokenizer::new("a**")).unwrap_err();
    assert_eq!(err, "Expected end of input, found KleeneStar");
    let err = Parser::parse(Tokenizer::new("a)")).unwrap_err();
    assert_eq!(err, "Expected end of input, found RParen");
    let err = Parser::from("|").atom().unwrap_err();
    assert_eq!(err, "Unexpected token, found UnionBar");
    let err = Parser::parse(Tokenizer::new("(ab|")).unwrap_err();
    assert_eq!(err, "Missing RegExpr after UnionBar");
    let err = Parser::parse(Tokenizer::new("(ab")).unwrap_err();
    assert_eq!(err, "Missing closing parenthesis: Unexpected end of input");
    let err = Parser::parse(Tokenizer::new("(ab x")).unwrap_err();
    assert_eq!(err, "Missing closing parenthesis: Unexpected end of input");
    let err = Parser::parse(Tokenizer::new("(a b+*)")).unwrap_err();
    assert_eq!(err, "Expected end of input, found KleeneStar");
}

#[test]
fn literal_patterns_accept_only_themselves() {
    let nfa = compile("hello");
    for s in ["hello", "hell", "helloo", "", "hellp", "xhello"].iter() {
        assert_eq!(nfa.accepts(s), *s == "hello");
    }
}

#[test]
fn compile_passes_the_parse_error_on() {
    for p in ["a*)", "(ab", "a|", "|b", "a**", "", "(a b+*)", "(a|b"].iter() {
        let from_parser = Parser::parse(Tokenizer::new(p)).unwrap_err();
        assert_eq!(NFA::from(p).unwrap_err(), from_parser);
    }
    assert_eq!(NFA::from("a*)").unwrap_err(), "Expected end of input, found RParen");
    assert_eq!(NFA::from("|b").unwrap_err(), "Expected end of input, found Char('b')");
    assert_eq!(NFA::from("|").unwrap_err(), "Unexpected token, found UnionBar");
    assert_eq!(NFA::from("(a|b").unwrap_err(), "Missing closing parenthesis: Unexpected end of input");
    assert_eq!(NFA::from("a|").unwrap_err(), "Missing RegExpr after UnionBar");
    assert_eq!(NFA::from("").unwrap_err(), "Unexpected end of input");
}

#[test]
fn gen_without_choices_is_determined() {
    assert_eq!(compile("ab").gen(4), Some(String::from("ab")));
    assert_eq!(compile("ab").gen(3), None);
    let s = compile("a|b|c").gen(10).unwrap();
    assert!(s == "a" || s == "b" || s == "c");
    let s = compile("a..b").gen(10).unwrap();
    let cs: Vec<char> = s.chars().collect();
    assert_eq!(cs.len(), 4);
    assert_eq!(cs[0], 'a');
    assert_eq!(cs[3], 'b');
    assert!(cs[1].is_ascii_alphanumeric() && cs[2].is_ascii_alphanumeric());
}

#[test]
fn plus_operator_matches_concat() {
    let a = compile("(a|b)*") + compile("(c|d)*");
    let b = compile("(a|b)*").concat(compile("(c|d)*"));
    assert_eq!(a.states().clone(), b.states().clone());
}

#[test]
fn next_leaves_the_whitespace_after_its_token() {
    let mut tokens = Tokenizer::new("  a \tb");
    assert_eq!(tokens.next(), Some(Token::Char('a')));
    assert_eq!(tokens.next_char(), Some(' '));
    assert_eq!(tokens.next_char(), Some('\t'));
    assert_eq!(tokens.next(), Some(Token::Char('b')));
    assert_eq!(tokens.next_char(), None);
}
