use thegrep::parser::{to_alternation, to_catenation, to_char, to_closure, Parser, AST};
use thegrep::tokenizer::Tokenizer;

#[test]
fn parse_catenate_closure() {
    let _res = Parser::parse(Tokenizer::new("a.*")).unwrap();
    assert_eq!(to_catenation(to_char('a'), to_closure(AST::AnyChar)), _res);
}

#[test]
fn parse_catenation() {
    let _res = Parser::parse(Tokenizer::new("aaa")).unwrap();
    assert_eq!(
        to_catenation(to_char('a'), to_catenation(to_char('a'), to_char('a'))),
        _res
    );
}

#[test]
fn parse_grouped_alternation() {
    let _res = Parser::parse(Tokenizer::new("1|2|3")).unwrap();
    assert_eq!(
        to_alternation(to_char('1'), to_alternation(to_char('2'), to_char('3'))),
        _res
    );
}

#[test]
fn parse_test_parentheses() {
    let _res = Parser::parse(Tokenizer::new("(1)|(2)|(3)")).unwrap();
    assert_eq!(
        to_alternation(to_char('1'), to_alternation(to_char('2'), to_char('3'))),
        _res
    );
}

#[test]
#[should_panic]
fn parse_fail_missing_parentheses() {
    let _res = Parser::parse(Tokenizer::new("(ab")).unwrap();
}

#[test]
#[should_panic]
fn parse_fail_no_left_parentheses() {
    let _res = Parser::parse(Tokenizer::new("a*)")).unwrap();
}

#[test]
#[should_panic]
fn parse_fail_missing_union() {
    let _res = Parser::parse(Tokenizer::new("|b")).unwrap();
}

#[test]
#[should_panic]
fn parse_fail_missing_alternation() {
    let _res = Parser::parse(Tokenizer::new("a|")).unwrap();
}

#[test]
#[should_panic]
fn parse_fail_extra_kleene() {
    let _res = Parser::parse(Tokenizer::new("a**")).unwrap();
}

#[test]
fn parse_reg_expr_helper() {
    let _res = Parser::from("a.*").reg_expr().unwrap();
    assert_eq!(to_catenation(to_char('a'), to_closure(AST::AnyChar)), _res);
}

#[test]
fn parse_reg_expr_catenation() {
    let _res = Parser::from("aba").reg_expr().unwrap();
    assert_eq!(
        to_catenation(to_char('a'), to_catenation(to_char('b'), to_char('a'))),
        _res
    );
}

#[test]
#[should_panic]
fn parse_missing_rside_reg_expr() {
    let _res = Parser::parse(Tokenizer::new("1|")).unwrap();
}

#[test]
fn parse_catenation_helper() {
    let _res = Parser::from("a.a").catenation().unwrap();
    assert_eq!(
        to_catenation(to_char('a'), to_catenation(AST::AnyChar, to_char('a'))),
        _res
    );
}

#[test]
fn parse_catenation_recursive_helper() {
    let _res = Parser::from("a.a.a").catenation().unwrap();
    assert_eq!(
        to_catenation(
            to_char('a'),
            to_catenation(
                AST::AnyChar,
                to_catenation(to_char('a'), to_catenation(AST::AnyChar, to_char('a')))
            )
        ),
        _res
    );
}

#[test]
fn parse_fail_catenation_beginning_atom() {
    let _res = Parser::from("a)").catenation().unwrap();
    assert_eq!(to_char('a'), _res);
}

#[test]
fn parse_closure_helper() {
    let _res = Parser::from("a*").catenation().unwrap();
    assert_eq!(to_closure(to_char('a')), _res);
}

#[test]
fn parse_closure_parentheses() {
    let _res = Parser::from("(a|b)*").catenation().unwrap();
    assert_eq!(to_closure(to_alternation(to_char('a'), to_char('b'))), _res);
}

#[test]
fn parse_closure_no_kleene_star() {
    let _res = Parser::from("a").catenation().unwrap();
    assert_eq!(to_char('a'), _res);
}

#[test]
fn parse_atom_helper() {
    let _res = Parser::from(".").atom().unwrap();
    assert_eq!(AST::AnyChar, _res);
}

#[test]
fn parse_atom_helper_any_char() {
    let _res = Parser::from("c").atom().unwrap();
    assert_eq!(to_char('c'), _res);
}

#[test]
#[should_panic]
fn parse_atom_helper_invalid_char() {
    let _res = Parser::from("|").atom().unwrap();
}
