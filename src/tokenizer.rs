use vstd::prelude::*;
use vstd::string::StrSliceExecFns;

verus! {

/// A lexical token of the pattern language.
#[derive(Debug, Clone, Copy, PartialEq, Eq, Structural)]
pub enum Token {
    LParen,
    RParen,
    UnionBar,
    KleeneStar,
    AnyChar,
    Char(char),
    KleenePlus,
}

/// Whitespace that separates tokens and never produces one.
pub open spec fn is_space(c: char) -> bool {
    c == ' ' || c == '\t' || c == '\n'
}

/// The six characters that form a token of their own.
pub open spec fn is_punct(c: char) -> bool {
    c == '(' || c == ')' || c == '|' || c == '*' || c == '.' || c == '+'
}

/// The token that a single non-whitespace character stands for.
pub open spec fn token_of(c: char) -> Token {
    if c == '(' {
        Token::LParen
    } else if c == ')' {
        Token::RParen
    } else if c == '|' {
        Token::UnionBar
    } else if c == '*' {
        Token::KleeneStar
    } else if c == '.' {
        Token::AnyChar
    } else if c == '+' {
        Token::KleenePlus
    } else {
        Token::Char(c)
    }
}

/// The token sequence of a character sequence: one token per character,
/// whitespace skipped.
pub open spec fn lex(s: Seq<char>) -> Seq<Token>
    decreases s.len(),
{
    if s.len() == 0 {
        Seq::empty()
    } else if is_space(s[0]) {
        lex(s.drop_first())
    } else {
        seq![token_of(s[0])] + lex(s.drop_first())
    }
}

/// The characters that remain once leading whitespace is dropped.
pub open spec fn skip_spaces(s: Seq<char>) -> Seq<char>
    decreases s.len(),
{
    if s.len() > 0 && is_space(s[0]) {
        skip_spaces(s.drop_first())
    } else {
        s
    }
}

proof fn lemma_skip_spaces(s: Seq<char>)
    ensures
        lex(skip_spaces(s)) == lex(s),
        skip_spaces(s).len() <= s.len(),
        skip_spaces(s).len() > 0 ==> !is_space(skip_spaces(s)[0]),
        skip_spaces(s) == s.skip(s.len() - skip_spaces(s).len()),
    decreases s.len(),
{
    if s.len() > 0 && is_space(s[0]) {
        lemma_skip_spaces(s.drop_first());
        assert(s.drop_first().skip(s.drop_first().len() - skip_spaces(s).len()) =~= s.skip(
            s.len() - skip_spaces(s).len(),
        ));
    } else {
        assert(s.skip(0) =~= s);
    }
}

/// Every character of a string, in order.
pub fn chars_of(s: &str) -> (r: Vec<char>)
    ensures
        r@ == s@,
{
    let n = s.unicode_len();
    let mut r: Vec<char> = Vec::new();
    let mut i: usize = 0;
    while i < n
        invariant
            n == s@.len(),
            i <= n,
            r@ == s@.subrange(0, i as int),
        decreases n - i,
    {
        r.push(s.get_char(i));
        i += 1;
    }
    assert(r@ =~= s@);
    r
}

/// Produces the tokens of a pattern one at a time.
pub struct Tokenizer {
    chars: Vec<char>,
    pos: usize,
}

impl Tokenizer {
    /// The characters not yet consumed.
    pub closed spec fn rest(&self) -> Seq<char> {
        self.chars@.skip(self.pos as int)
    }

    pub closed spec fn wf(&self) -> bool {
        self.pos <= self.chars@.len()
    }

    /// The tokens not yet produced.
    pub open spec fn tokens(&self) -> Seq<Token> {
        lex(self.rest())
    }

    pub fn new(input: &str) -> (r: Tokenizer)
        ensures
            r.wf(),
            r.rest() == input@,
    {
        let chars = chars_of(input);
        proof {
            assert(chars@.skip(0) =~= chars@);
        }
        Tokenizer { chars, pos: 0 }
    }

    /// Consumes and returns the next character, if any.
    pub fn next_char(&mut self) -> (r: Option<char>)
        requires
            old(self).wf(),
        ensures
            final(self).wf(),
            old(self).rest().len() == 0 ==> r is None && final(self).rest() == old(self).rest(),
            old(self).rest().len() > 0 ==> r == Some(old(self).rest()[0]) && final(self).rest() == old(self).rest().drop_first(),
    {
        if self.pos < self.chars.len() {
            let c = self.chars[self.pos];
            self.pos += 1;
            proof {
                assert(self.rest() =~= old(self).rest().drop_first());
            }
            Some(c)
        } else {
            None
        }
    }

    fn peek_char(&self) -> (r: Option<char>)
        requires
            self.wf(),
        ensures
            self.rest().len() == 0 ==> r is None,
            self.rest().len() > 0 ==> r == Some(self.rest()[0]),
    {
        if self.pos < self.chars.len() {
            Some(self.chars[self.pos])
        } else {
            None
        }
    }

    /// Produces the next token, skipping whitespace before it.
    pub fn next(&mut self) -> (r: Option<Token>)
        requires
            old(self).wf(),
        ensures
            final(self).wf(),
            old(self).tokens().len() == 0 ==> r is None && final(self).tokens() == old(self).tokens(),
            old(self).tokens().len() > 0 ==> r == Some(old(self).tokens()[0]) && final(self).tokens() == old(self).tokens().drop_first()
                && final(self).rest() == skip_spaces(old(self).rest()).drop_first(),
            old(self).tokens().len() == 0 ==> final(self).rest().len() == 0,
    {
        self.lex_whitespace();
        proof {
            lemma_skip_spaces(old(self).rest());
        }
        match self.peek_char() {
            None => None,
            Some(c) => {
                let t = if c == '(' || c == ')' {
                    self.lex_paren()
                } else if c == '|' {
                    self.lex_union_bar()
                } else if c == '*' {
                    self.lex_kleene_star()
                } else if c == '.' {
                    self.lex_any_char()
                } else if c == '+' {
                    self.lex_kleene_plus()
                } else {
                    self.lex_char()
                };
                Some(t)
            },
        }
    }

    /// Consumes the whitespace in front of the next token.
    pub fn lex_whitespace(&mut self)
        requires
            old(self).wf(),
        ensures
            final(self).wf(),
            final(self).rest() == skip_spaces(old(self).rest()),
    {
        loop
            invariant
                self.wf(),
                skip_spaces(self.rest()) == skip_spaces(old(self).rest()),
            ensures
                self.wf(),
                self.rest() == skip_spaces(old(self).rest()),
            decreases self.rest().len(),
        {
            match self.peek_char() {
                Some(c) => {
                    if c == ' ' || c == '\t' || c == '\n' {
                        self.next_char();
                    } else {
                        break;
                    }
                },
                None => break,
            }
        }
    }

    /// Consumes a parenthesis.
    pub fn lex_paren(&mut self) -> (r: Token)
        requires
            old(self).wf(),
            old(self).rest().len() > 0,
            old(self).rest()[0] == '(' || old(self).rest()[0] == ')',
        ensures
            final(self).wf(),
            r == token_of(old(self).rest()[0]),
            final(self).rest() == old(self).rest().drop_first(),
    {
        let c = self.next_char();
        if c == Some('(') {
            Token::LParen
        } else {
            Token::RParen
        }
    }

    /// Consumes a union bar.
    pub fn lex_union_bar(&mut self) -> (r: Token)
        requires
            old(self).wf(),
            old(self).rest().len() > 0,
            old(self).rest()[0] == '|',
        ensures
            final(self).wf(),
            r == Token::UnionBar,
            final(self).rest() == old(self).rest().drop_first(),
    {
        self.next_char();
        Token::UnionBar
    }

    /// Consumes a Kleene star.
    pub fn lex_kleene_star(&mut self) -> (r: Token)
        requires
            old(self).wf(),
            old(self).rest().len() > 0,
            old(self).rest()[0] == '*',
        ensures
            final(self).wf(),
            r == Token::KleeneStar,
            final(self).rest() == old(self).rest().drop_first(),
    {
        self.next_char();
        Token::KleeneStar
    }

    /// Consumes the wildcard dot.
    pub fn lex_any_char(&mut self) -> (r: Token)
        requires
            old(self).wf(),
            old(self).rest().len() > 0,
            old(self).rest()[0] == '.',
        ensures
            final(self).wf(),
            r == Token::AnyChar,
            final(self).rest() == old(self).rest().drop_first(),
    {
        self.next_char();
        Token::AnyChar
    }

    /// Consumes a plus sign.
    pub fn lex_kleene_plus(&mut self) -> (r: Token)
        requires
            old(self).wf(),
            old(self).rest().len() > 0,
            old(self).rest()[0] == '+',
        ensures
            final(self).wf(),
            r == Token::KleenePlus,
            final(self).rest() == old(self).rest().drop_first(),
    {
        self.next_char();
        Token::KleenePlus
    }

    /// Consumes a literal character; a punctuation character is never one.
    pub fn lex_char(&mut self) -> (r: Token)
        requires
            old(self).wf(),
            old(self).rest().len() > 0,
            !is_punct(old(self).rest()[0]),
        ensures
            final(self).wf(),
            r == Token::Char(old(self).rest()[0]),
            final(self).rest() == old(self).rest().drop_first(),
    {
        let n = self.chars.len();
        assert(self.rest().len() == n - self.pos);
        let c = self.chars[self.pos];
        self.pos += 1;
        proof {
            assert(self.rest() =~= old(self).rest().drop_first());
        }
        Token::Char(c)
    }
}

} // verus!
