use vstd::prelude::*;
use crate::tokenizer::{lex, Token, Tokenizer};

verus! {

/// The syntax tree of a pattern.
#[derive(Debug, PartialEq, Eq)]
pub enum AST {
    Alternation(Box<AST>, Box<AST>),
    Catenation(Box<AST>, Box<AST>),
    Closure(Box<AST>),
    OneOrMore(Box<AST>),
    Char(char),
    AnyChar,
}

pub fn to_alternation(lhs: AST, rhs: AST) -> (r: AST)
    ensures
        r == AST::Alternation(Box::new(lhs), Box::new(rhs)),
{
    AST::Alternation(Box::new(lhs), Box::new(rhs))
}

pub fn to_catenation(lhs: AST, rhs: AST) -> (r: AST)
    ensures
        r == AST::Catenation(Box::new(lhs), Box::new(rhs)),
{
    AST::Catenation(Box::new(lhs), Box::new(rhs))
}

pub fn to_closure(ast_box: AST) -> (r: AST)
    ensures
        r == AST::Closure(Box::new(ast_box)),
{
    AST::Closure(Box::new(ast_box))
}

pub fn to_char(value: char) -> (r: AST)
    ensures
        r == AST::Char(value),
{
    AST::Char(value)
}

pub fn to_one_or_more(ast_box: AST) -> (r: AST)
    ensures
        r == AST::OneOrMore(Box::new(ast_box)),
{
    AST::OneOrMore(Box::new(ast_box))
}

/// The token at index `i`, if there is one.
pub open spec fn token_at(ts: Seq<Token>, i: int) -> Option<Token> {
    if 0 <= i < ts.len() {
        Some(ts[i])
    } else {
        None
    }
}

/// Tokens that cannot begin another link of a catenation.
pub open spec fn ends_catenation(t: Token) -> bool {
    t == Token::RParen || t == Token::UnionBar || t == Token::KleeneStar || t == Token::KleenePlus
}

// The grammar, one spec function per rule. Each gives the tree that its rule
// derives from a prefix of `ts`, with the number of tokens of that prefix.

/// Atom ::= '(' RegExpr ')' | '.' | Char
pub open spec fn parse_atom(ts: Seq<Token>) -> Option<(AST, nat)>
    decreases ts.len(), 0nat,
{
    if ts.len() == 0 {
        None
    } else {
        match ts[0] {
            Token::LParen => match parse_reg_expr(ts.drop_first()) {
                Some((e, k)) => if token_at(ts, k + 1int) == Some(Token::RParen) {
                    Some((e, k + 2))
                } else {
                    None
                },
                None => None,
            },
            Token::AnyChar => Some((AST::AnyChar, 1)),
            Token::Char(c) => Some((AST::Char(c), 1)),
            _ => None,
        }
    }
}

/// Atom '*'?
pub open spec fn parse_closure(ts: Seq<Token>) -> Option<(AST, nat)>
    decreases ts.len(), 1nat,
{
    match parse_atom(ts) {
        Some((a, k)) => if token_at(ts, k as int) == Some(Token::KleeneStar) {
            Some((AST::Closure(Box::new(a)), k + 1))
        } else {
            Some((a, k))
        },
        None => None,
    }
}

/// Quantified ::= Atom '*'? '+'?
pub open spec fn parse_quantified(ts: Seq<Token>) -> Option<(AST, nat)>
    decreases ts.len(), 2nat,
{
    match parse_closure(ts) {
        Some((a, k)) => if token_at(ts, k as int) == Some(Token::KleenePlus) {
            Some((AST::OneOrMore(Box::new(a)), k + 1))
        } else {
            Some((a, k))
        },
        None => None,
    }
}

/// Catenation ::= Quantified Catenation?
pub open spec fn parse_catenation(ts: Seq<Token>) -> Option<(AST, nat)>
    decreases ts.len(), 3nat,
{
    match parse_quantified(ts) {
        Some((q, k)) => if 0 < k < ts.len() && !ends_catenation(ts[k as int]) {
            match parse_catenation(ts.skip(k as int)) {
                Some((r, k2)) => Some((AST::Catenation(Box::new(q), Box::new(r)), k + k2)),
                None => None,
            }
        } else {
            Some((q, k))
        },
        None => None,
    }
}

/// RegExpr ::= Catenation ('|' RegExpr)?
pub open spec fn parse_reg_expr(ts: Seq<Token>) -> Option<(AST, nat)>
    decreases ts.len(), 4nat,
{
    match parse_catenation(ts) {
        Some((c, k)) => if k < ts.len() && ts[k as int] == Token::UnionBar {
            match parse_reg_expr(ts.skip(k + 1int)) {
                Some((r, k2)) => Some((AST::Alternation(Box::new(c), Box::new(r)), k + 1 + k2)),
                None => None,
            }
        } else {
            Some((c, k))
        },
        None => None,
    }
}

/// The tree of a whole token sequence: one RegExpr and nothing after it.
pub open spec fn parse_tokens(ts: Seq<Token>) -> Option<AST> {
    match parse_reg_expr(ts) {
        Some((e, k)) => if k == ts.len() {
            Some(e)
        } else {
            None
        },
        None => None,
    }
}

/// Every rule that succeeds consumes at least one token, and no more than
/// there are.
pub proof fn lemma_parse_consumes(ts: Seq<Token>)
    ensures
        parse_atom(ts) matches Some((_, k)) ==> 1 <= k <= ts.len(),
        parse_closure(ts) matches Some((_, k)) ==> 1 <= k <= ts.len(),
        parse_quantified(ts) matches Some((_, k)) ==> 1 <= k <= ts.len(),
        parse_catenation(ts) matches Some((_, k)) ==> 1 <= k <= ts.len(),
        parse_reg_expr(ts) matches Some((_, k)) ==> 1 <= k <= ts.len(),
    decreases ts.len(),
{
    if ts.len() > 0 {
        lemma_parse_consumes(ts.drop_first());
    }
    if let Some((q, k)) = parse_quantified(ts) {
        if 0 < k < ts.len() && !ends_catenation(ts[k as int]) {
            lemma_parse_consumes(ts.skip(k as int));
        }
    }
    if let Some((c, k)) = parse_catenation(ts) {
        if k < ts.len() && ts[k as int] == Token::UnionBar {
            lemma_parse_consumes(ts.skip(k + 1int));
        }
    }
}

/// How a token is named in error messages.
pub open spec fn token_name(t: Token) -> Seq<char> {
    match t {
        Token::LParen => "LParen"@,
        Token::RParen => "RParen"@,
        Token::UnionBar => "UnionBar"@,
        Token::KleeneStar => "KleeneStar"@,
        Token::AnyChar => "AnyChar"@,
        Token::KleenePlus => "KleenePlus"@,
        Token::Char(c) => "Char('"@ + seq![c] + "')"@,
    }
}

/// An error message that names the token found.
pub open spec fn found_text(prefix: Seq<char>, t: Token) -> Seq<char> {
    prefix + ", found "@ + token_name(t)
}

/// The message for a parenthesized expression not followed by `)`: what
/// came instead, if anything.
pub open spec fn missing_paren_text(next: Option<Token>) -> Seq<char> {
    "Missing closing parenthesis: "@ + match next {
        Some(t) => found_text("Expected "@ + token_name(Token::RParen), t),
        None => "Unexpected end of input"@,
    }
}

// Where a rule fails, the message it gives and how many tokens it has
// consumed by then. Each is read only where the rule's parse is `None`.

/// How Atom fails.
pub open spec fn atom_failure(ts: Seq<Token>) -> (Seq<char>, nat)
    decreases ts.len(), 0nat,
{
    if ts.len() == 0 {
        ("Unexpected end of input"@, 0)
    } else {
        match ts[0] {
            Token::LParen => match parse_reg_expr(ts.drop_first()) {
                Some((e, k)) => (missing_paren_text(token_at(ts, k + 1int)), k + 1),
                None => (
                    reg_expr_failure(ts.drop_first()).0,
                    reg_expr_failure(ts.drop_first()).1 + 1,
                ),
            },
            Token::AnyChar => (Seq::empty(), 0),
            Token::Char(_) => (Seq::empty(), 0),
            t => (found_text("Unexpected token"@, t), 1),
        }
    }
}

/// How Catenation fails.
pub open spec fn catenation_failure(ts: Seq<Token>) -> (Seq<char>, nat)
    decreases ts.len(), 1nat,
{
    match parse_quantified(ts) {
        Some((q, k)) => if 0 < k < ts.len() && !ends_catenation(ts[k as int]) {
            (catenation_failure(ts.skip(k as int)).0, k + catenation_failure(ts.skip(k as int)).1)
        } else {
            (Seq::empty(), 0)
        },
        None => atom_failure(ts),
    }
}

/// How RegExpr fails.
pub open spec fn reg_expr_failure(ts: Seq<Token>) -> (Seq<char>, nat)
    decreases ts.len(), 2nat,
{
    match parse_catenation(ts) {
        Some((c, k)) => if k < ts.len() && ts[k as int] == Token::UnionBar {
            ("Missing RegExpr after UnionBar"@, k + 1 + reg_expr_failure(ts.skip(k + 1int)).1)
        } else {
            (Seq::empty(), 0)
        },
        None => catenation_failure(ts),
    }
}

/// The message of a token sequence that does not parse: a token left over
/// after the expression is named; otherwise the expression's own failure.
pub open spec fn parse_failure_text(ts: Seq<Token>) -> Seq<char> {
    let stop = match parse_reg_expr(ts) {
        Some((e, k)) => k,
        None => reg_expr_failure(ts).1,
    };
    match token_at(ts, stop as int) {
        Some(t) => found_text("Expected end of input"@, t),
        None => reg_expr_failure(ts).0,
    }
}

fn describe(t: Token) -> (r: String)
    ensures
        r@ == token_name(t),
{
    match t {
        Token::LParen => "LParen".to_owned(),
        Token::RParen => "RParen".to_owned(),
        Token::UnionBar => "UnionBar".to_owned(),
        Token::KleeneStar => "KleeneStar".to_owned(),
        Token::AnyChar => "AnyChar".to_owned(),
        Token::KleenePlus => "KleenePlus".to_owned(),
        Token::Char(c) => {
            let mut r = "Char('".to_owned();
            r.push(c);
            r.push_str("')");
            proof {
                assert(("Char('"@).push(c) =~= "Char('"@ + seq![c]);
            }
            r
        },
    }
}

/// `prefix` followed by the name of `t`.
fn found(prefix: &str, t: Token) -> (r: String)
    ensures
        r@ == found_text(prefix@, t),
{
    let mut r = prefix.to_owned();
    r.push_str(", found ");
    r.push_str(describe(t).as_str());
    r
}

/// A rule that fails has consumed no more tokens than there are.
pub proof fn lemma_failure_consumes(ts: Seq<Token>)
    ensures
        parse_atom(ts) is None ==> atom_failure(ts).1 <= ts.len(),
        parse_catenation(ts) is None ==> catenation_failure(ts).1 <= ts.len(),
        parse_reg_expr(ts) is None ==> reg_expr_failure(ts).1 <= ts.len(),
    decreases ts.len(),
{
    lemma_parse_consumes(ts);
    if ts.len() > 0 {
        lemma_failure_consumes(ts.drop_first());
        lemma_parse_consumes(ts.drop_first());
    }
    assert(parse_atom(ts) is None ==> atom_failure(ts).1 <= ts.len()) by {
        if ts.len() > 0 && ts[0] == Token::LParen {
            if let Some((e, k)) = parse_reg_expr(ts.drop_first()) {
                assert(k <= ts.len() - 1);
            }
        }
    }
    assert(parse_catenation(ts) is None ==> catenation_failure(ts).1 <= ts.len()) by {
        match parse_quantified(ts) {
            Some((q, k)) => {
                if 0 < k < ts.len() && !ends_catenation(ts[k as int]) {
                    lemma_failure_consumes(ts.skip(k as int));
                    if parse_catenation(ts) is None {
                        assert(parse_catenation(ts.skip(k as int)) is None);
                    }
                }
            },
            None => {
                assert(parse_closure(ts) is None);
                assert(parse_atom(ts) is None);
            },
        }
    }
    assert(parse_reg_expr(ts) is None ==> reg_expr_failure(ts).1 <= ts.len()) by {
        if let Some((c, k)) = parse_catenation(ts) {
            if k < ts.len() && ts[k as int] == Token::UnionBar {
                lemma_failure_consumes(ts.skip(k + 1int));
                if parse_reg_expr(ts) is None {
                    assert(parse_reg_expr(ts.skip(k + 1int)) is None);
                }
            }
        }
    }
}

/// A recursive-descent parser over a token stream, with one token of
/// lookahead.
pub struct Parser {
    tokens: Tokenizer,
    current: Option<Token>,
}

impl Parser {
    /// The tokens not yet consumed, lookahead included.
    pub closed spec fn rest(&self) -> Seq<Token> {
        match self.current {
            Some(t) => seq![t] + self.tokens.tokens(),
            None => Seq::empty(),
        }
    }

    pub closed spec fn wf(&self) -> bool {
        &&& self.tokens.wf()
        &&& self.current is None ==> self.tokens.tokens().len() == 0
    }

    fn over(tokenizer: Tokenizer) -> (r: Parser)
        requires
            tokenizer.wf(),
        ensures
            r.wf(),
            r.rest() == tokenizer.tokens(),
    {
        let mut tokens = tokenizer;
        let current = tokens.next();
        let r = Parser { tokens, current };
        proof {
            if tokenizer.tokens().len() > 0 {
                assert(r.rest() =~= tokenizer.tokens());
            }
        }
        r
    }

    /// Parses a whole token stream into a tree; tokens left over after the
    /// expression are an error.
    pub fn parse(tokenizer: Tokenizer) -> (r: Result<AST, String>)
        requires
            tokenizer.wf(),
        ensures
            match parse_tokens(tokenizer.tokens()) {
                Some(e) => r == Ok::<AST, String>(e),
                None => r is Err && r->Err_0@ == parse_failure_text(tokenizer.tokens()),
            },
    {
        let ghost ts = tokenizer.tokens();
        let mut parser = Parser::over(tokenizer);
        let parse_expr = parser.reg_expr();
        proof {
            lemma_parse_consumes(ts);
            lemma_failure_consumes(ts);
            let stop = match parse_reg_expr(ts) {
                Some((e, k)) => k,
                None => reg_expr_failure(ts).1,
            };
            assert(parser.rest() == ts.skip(stop as int));
            if stop < ts.len() {
                assert(parser.rest()[0] == ts[stop as int]);
            }
        }
        match parser.current {
            Some(t) => Err(found("Expected end of input", t)),
            None => parse_expr,
        }
    }

    /// A parser over the tokens of `input`.
    pub fn from(input: &str) -> (r: Parser)
        ensures
            r.wf(),
            r.rest() == lex(input@),
    {
        Parser::over(Tokenizer::new(input))
    }

    /// The lookahead token, not consumed.
    fn peek(&self) -> (r: Option<Token>)
        requires
            self.wf(),
        ensures
            r == token_at(self.rest(), 0),
    {
        self.current
    }

    /// Consumes the lookahead token, or fails at the end of input.
    fn take_next_token(&mut self) -> (r: Result<Token, String>)
        requires
            old(self).wf(),
        ensures
            final(self).wf(),
            old(self).rest().len() > 0 ==> r == Ok::<Token, String>(old(self).rest()[0])
                && final(self).rest() == old(self).rest().drop_first(),
            old(self).rest().len() == 0 ==> r is Err && r->Err_0@ == "Unexpected end of input"@
                && final(self).rest() == old(self).rest(),
    {
        match self.current {
            Some(t) => {
                let next = self.tokens.next();
                self.current = next;
                proof {
                    assert(self.rest() =~= old(self).rest().drop_first());
                }
                Ok(t)
            },
            None => Err("Unexpected end of input".to_owned()),
        }
    }

    /// Consumes the lookahead token if it is `expected`; fails otherwise.
    fn consume_token(&mut self, expected: Token) -> (r: Result<Token, String>)
        requires
            old(self).wf(),
        ensures
            final(self).wf(),
            token_at(old(self).rest(), 0) == Some(expected) ==> r == Ok::<Token, String>(expected)
                && final(self).rest() == old(self).rest().drop_first(),
            token_at(old(self).rest(), 0) != Some(expected) ==> r is Err && final(self).rest() == old(self).rest() && r->Err_0@ == match token_at(old(self).rest(), 0) {
                Some(t) => found_text("Expected "@ + token_name(expected), t),
                None => "Unexpected end of input"@,
            },
    {
        match self.current {
            Some(t) => {
                if t == expected {
                    self.take_next_token()
                } else {
                    let mut msg = "Expected ".to_owned();
                    msg.push_str(describe(expected).as_str());
                    let e = found(msg.as_str(), t);
                    Err(e)
                }
            },
            None => Err("Unexpected end of input".to_owned()),
        }
    }

    /// RegExpr ::= Catenation ('|' RegExpr)?
    pub fn reg_expr(&mut self) -> (r: Result<AST, String>)
        requires
            old(self).wf(),
        ensures
            final(self).wf(),
            match parse_reg_expr(old(self).rest()) {
                Some((e, k)) => r == Ok::<AST, String>(e) && final(self).rest() == old(self).rest().skip(k as int),
                None => r is Err && r->Err_0@ == reg_expr_failure(old(self).rest()).0 && final(self).rest()
                    == old(self).rest().skip(reg_expr_failure(old(self).rest()).1 as int),
            },
        decreases old(self).rest().len(), 4nat,
    {
        let ghost ts = self.rest();
        proof {
            lemma_parse_consumes(ts);
            lemma_failure_consumes(ts);
        }
        let catenation = match self.catenation() {
            Ok(c) => c,
            Err(e) => return Err(e),
        };
        let ghost k = parse_catenation(ts).unwrap().1;
        assert(self.rest() == ts.skip(k as int));
        if self.peek() == Some(Token::UnionBar) {
            let _ = self.take_next_token();
            assert(self.rest() =~= ts.skip(k + 1int));
            proof {
                lemma_parse_consumes(ts.skip(k + 1int));
            }
            match self.reg_expr() {
                Ok(reg_expr) => {
                    proof {
                        let k2 = parse_reg_expr(ts.skip(k + 1int)).unwrap().1;
                        assert(ts.skip(k + 1int).skip(k2 as int) =~= ts.skip((k + 1 + k2) as int));
                    }
                    Ok(AST::Alternation(Box::new(catenation), Box::new(reg_expr)))
                },
                Err(_) => {
                    proof {
                        lemma_failure_consumes(ts.skip(k + 1int));
                        let k2 = reg_expr_failure(ts.skip(k + 1int)).1;
                        assert(ts.skip(k + 1int).skip(k2 as int) =~= ts.skip((k + 1 + k2) as int));
                    }
                    Err("Missing RegExpr after UnionBar".to_owned())
                },
            }
        } else {
            Ok(catenation)
        }
    }

    /// Catenation ::= Quantified Catenation?
    pub fn catenation(&mut self) -> (r: Result<AST, String>)
        requires
            old(self).wf(),
        ensures
            final(self).wf(),
            match parse_catenation(old(self).rest()) {
                Some((e, k)) => r == Ok::<AST, String>(e) && final(self).rest() == old(self).rest().skip(k as int),
                None => r is Err && r->Err_0@ == catenation_failure(old(self).rest()).0 && final(self).rest()
                    == old(self).rest().skip(catenation_failure(old(self).rest()).1 as int),
            },
        decreases old(self).rest().len(), 3nat,
    {
        let ghost ts = self.rest();
        proof {
            lemma_parse_consumes(ts);
        }
        let closure = match self.closure() {
            Ok(c) => c,
            Err(e) => return Err(e),
        };
        let one_or_more = self.one_or_more(closure);
        let ghost k = parse_quantified(ts).unwrap().1;
        assert(self.rest() == ts.skip(k as int));
        let more = match self.peek() {
            Some(t) => !(t == Token::RParen || t == Token::UnionBar || t == Token::KleeneStar
                || t == Token::KleenePlus),
            None => false,
        };
        if more {
            proof {
                lemma_parse_consumes(ts.skip(k as int));
            }
            match self.catenation() {
                Ok(rest) => {
                    proof {
                        let k2 = parse_catenation(ts.skip(k as int)).unwrap().1;
                        assert(ts.skip(k as int).skip(k2 as int) =~= ts.skip((k + k2) as int));
                    }
                    Ok(AST::Catenation(Box::new(one_or_more), Box::new(rest)))
                },
                Err(e) => {
                    proof {
                        lemma_failure_consumes(ts.skip(k as int));
                        let k2 = catenation_failure(ts.skip(k as int)).1;
                        assert(ts.skip(k as int).skip(k2 as int) =~= ts.skip((k + k2) as int));
                    }
                    Err(e)
                },
            }
        } else {
            Ok(one_or_more)
        }
    }

    /// Atom '*'?
    fn closure(&mut self) -> (r: Result<AST, String>)
        requires
            old(self).wf(),
        ensures
            final(self).wf(),
            match parse_closure(old(self).rest()) {
                Some((e, k)) => r == Ok::<AST, String>(e) && final(self).rest() == old(self).rest().skip(k as int),
                None => r is Err && r->Err_0@ == atom_failure(old(self).rest()).0 && final(self).rest()
                    == old(self).rest().skip(atom_failure(old(self).rest()).1 as int),
            },
        decreases old(self).rest().len(), 1nat,
    {
        let ghost ts = self.rest();
        proof {
            lemma_parse_consumes(ts);
        }
        let atom = match self.atom() {
            Ok(a) => a,
            Err(e) => return Err(e),
        };
        let ghost k = parse_atom(ts).unwrap().1;
        if self.peek() == Some(Token::KleeneStar) {
            let _ = self.take_next_token();
            assert(self.rest() =~= ts.skip(k + 1int));
            Ok(AST::Closure(Box::new(atom)))
        } else {
            Ok(atom)
        }
    }

    /// '+'? after an atom and its optional star.
    fn one_or_more(&mut self, closure: AST) -> (r: AST)
        requires
            old(self).wf(),
        ensures
            final(self).wf(),
            token_at(old(self).rest(), 0) == Some(Token::KleenePlus) ==> r == AST::OneOrMore(
                Box::new(closure),
            ) && final(self).rest() == old(self).rest().drop_first(),
            token_at(old(self).rest(), 0) != Some(Token::KleenePlus) ==> r == closure
                && final(self).rest() == old(self).rest(),
    {
        if self.peek() == Some(Token::KleenePlus) {
            let _ = self.take_next_token();
            AST::OneOrMore(Box::new(closure))
        } else {
            closure
        }
    }

    /// Atom ::= '(' RegExpr ')' | '.' | Char
    pub fn atom(&mut self) -> (r: Result<AST, String>)
        requires
            old(self).wf(),
        ensures
            final(self).wf(),
            match parse_atom(old(self).rest()) {
                Some((e, k)) => r == Ok::<AST, String>(e) && final(self).rest() == old(self).rest().skip(k as int),
                None => r is Err && r->Err_0@ == atom_failure(old(self).rest()).0 && final(self).rest()
                    == old(self).rest().skip(atom_failure(old(self).rest()).1 as int),
            },
        decreases old(self).rest().len(), 0nat,
    {
        let ghost ts = self.rest();
        proof {
            lemma_parse_consumes(ts);
            lemma_failure_consumes(ts);
            if ts.len() > 0 {
                lemma_parse_consumes(ts.drop_first());
                lemma_failure_consumes(ts.drop_first());
            }
        }
        let t = match self.take_next_token() {
            Ok(t) => t,
            Err(e) => {
                assert(ts.skip(0) =~= ts);
                return Err(e);
            },
        };
        match t {
            Token::LParen => {
                let r = self.opt_parentheses();
                proof {
                    let d = ts.drop_first();
                    match parse_reg_expr(d) {
                        Some((e, k)) => {
                            assert(d.skip(k as int) =~= ts.skip(k + 1int));
                            if token_at(d, k as int) == Some(Token::RParen) {
                                assert(d.skip(k + 1int) =~= ts.skip(k + 2int));
                            }
                            assert(token_at(d, k as int) == token_at(ts, k + 1int));
                        },
                        None => {
                            let k = reg_expr_failure(d).1;
                            assert(d.skip(k as int) =~= ts.skip(k + 1int));
                        },
                    }
                }
                r
            },
            Token::AnyChar => {
                assert(self.rest() =~= ts.skip(1));
                Ok(AST::AnyChar)
            },
            Token::Char(c) => {
                assert(self.rest() =~= ts.skip(1));
                Ok(AST::Char(c))
            },
            _ => {
                assert(self.rest() =~= ts.skip(1));
                Err(found("Unexpected token", t))
            },
        }
    }

    /// The rest of a parenthesized atom, after its opening parenthesis.
    fn opt_parentheses(&mut self) -> (r: Result<AST, String>)
        requires
            old(self).wf(),
        ensures
            final(self).wf(),
            match parse_reg_expr(old(self).rest()) {
                Some((e, k)) => if token_at(old(self).rest(), k as int) == Some(Token::RParen) {
                    r == Ok::<AST, String>(e) && final(self).rest() == old(self).rest().skip(
                        k + 1int,
                    )
                } else {
                    r is Err && r->Err_0@ == missing_paren_text(token_at(old(self).rest(), k as int))
                        && final(self).rest() == old(self).rest().skip(k as int)
                },
                None => r is Err && r->Err_0@ == reg_expr_failure(old(self).rest()).0 && final(self).rest() == old(self).rest().skip(reg_expr_failure(old(self).rest()).1 as int),
            },
        decreases old(self).rest().len(), 5nat,
    {
        let ghost ts = self.rest();
        proof {
            lemma_parse_consumes(ts);
        }
        let expr = match self.reg_expr() {
            Ok(e) => e,
            Err(e) => return Err(e),
        };
        let ghost k = parse_reg_expr(ts).unwrap().1;
        match self.consume_token(Token::RParen) {
            Ok(_) => {
                assert(self.rest() =~= ts.skip(k + 1int));
                Ok(expr)
            },
            Err(e) => {
                let mut msg = "Missing closing parenthesis: ".to_owned();
                msg.push_str(e.as_str());
                proof {
                    assert(token_at(ts.skip(k as int), 0) == token_at(ts, k as int));
                }
                Err(msg)
            },
        }
    }
}

} // verus!
