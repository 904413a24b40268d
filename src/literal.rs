use vstd::prelude::*;
use crate::nfa::{bind_ends, compiled, concat_states, relocate, thompson, Char, State, StateId};
use crate::parser::{
    parse_atom, parse_catenation, parse_closure, parse_quantified, parse_reg_expr, parse_tokens,
    AST,
};
use crate::run::{
    accepts_from, is_accepting, is_run, lemma_accepts_end, lemma_accepts_single, lemma_accepts_split,
    lemma_prepend, lemma_run_skip, step,
};
use crate::tokenizer::{is_punct, is_space, lex, token_of, Token};

verus! {

/// A pattern made of literal characters only: no punctuation, no
/// whitespace, at least one character.
pub open spec fn is_literal(p: Seq<char>) -> bool {
    p.len() >= 1 && forall|i: int| 0 <= i < p.len() ==> !is_punct(#[trigger] p[i]) && !is_space(p[i])
}

/// The tree of a literal pattern: its characters, catenated to the right.
pub open spec fn literal_ast(p: Seq<char>) -> AST
    decreases p.len(),
{
    if p.len() <= 1 {
        literal_leaf(p.first())
    } else {
        AST::Catenation(Box::new(literal_leaf(p.first())), Box::new(literal_ast(p.drop_first())))
    }
}

/// The characters that the consuming states of `ss` match, in list order.
pub open spec fn labels(ss: Seq<State>) -> Seq<char>
    decreases ss.len(),
{
    if ss.len() == 0 {
        Seq::empty()
    } else {
        let rest = labels(ss.drop_first());
        match ss[0] {
            State::Match(Char::Literal(c), _) => seq![c] + rest,
            _ => rest,
        }
    }
}

/// An automaton that is a single path: each state but the last is `Start`
/// or a literal match and leads to the next one; the last is `End`.
pub open spec fn is_chain(ss: Seq<State>) -> bool {
    &&& ss.len() >= 1
    &&& ss.last() is End
    &&& forall|i: int|
        0 <= i < ss.len() - 1 ==> match #[trigger] ss[i] {
            State::Start(Some(n)) => n == i + 1,
            State::Match(Char::Literal(_), Some(n)) => n == i + 1,
            _ => false,
        }
}

/// The token of a literal character.
pub open spec fn literal_token(c: char) -> Token {
    Token::Char(c)
}

/// The tree of a literal character.
pub open spec fn literal_leaf(c: char) -> AST {
    AST::Char(c)
}

/// A state that matches a literal character.
pub open spec fn literal_match(c: char, next: Option<StateId>) -> State {
    State::Match(Char::Literal(c), next)
}

/// One `Char` token per character.
pub open spec fn char_tokens(p: Seq<char>) -> Seq<Token>
    decreases p.len(),
{
    if p.len() == 0 {
        Seq::empty()
    } else {
        seq![literal_token(p.first())] + char_tokens(p.drop_first())
    }
}

proof fn lemma_lex_literal(p: Seq<char>)
    requires
        forall|i: int| 0 <= i < p.len() ==> !is_punct(#[trigger] p[i]) && !is_space(p[i]),
    ensures
        lex(p) == char_tokens(p),
    decreases p.len(),
{
    if p.len() > 0 {
        assert(!is_punct(p[0]) && !is_space(p[0]));
        assert forall|i: int| 0 <= i < p.drop_first().len() implies !is_punct(
            #[trigger] p.drop_first()[i],
        ) && !is_space(p.drop_first()[i]) by {
            assert(p.drop_first()[i] == p[i + 1]);
        }
        lemma_lex_literal(p.drop_first());
        assert(token_of(p[0]) == literal_token(p.first()));
    }
}

proof fn lemma_parse_literal(p: Seq<char>)
    requires
        p.len() >= 1,
    ensures
        parse_catenation(char_tokens(p)) == Some((literal_ast(p), p.len())),
        parse_reg_expr(char_tokens(p)) == Some((literal_ast(p), p.len())),
    decreases p.len(),
{
    let ts = char_tokens(p);
    let rest = char_tokens(p.drop_first());
    assert(ts[0] == literal_token(p.first()));
    assert(ts.len() == p.len()) by {
        lemma_char_tokens_len(p);
    }
    assert(parse_atom(ts) == Some((literal_leaf(p.first()), 1nat)));
    if p.len() > 1 {
        assert(ts.skip(1) =~= rest);
        assert(ts[1] == rest[0]);
        assert(rest[0] == literal_token(p.drop_first().first()));
        lemma_parse_literal(p.drop_first());
    }
    assert(parse_closure(ts) == Some((literal_leaf(p.first()), 1nat)));
    assert(parse_quantified(ts) == Some((literal_leaf(p.first()), 1nat)));
}

proof fn lemma_char_tokens_len(p: Seq<char>)
    ensures
        char_tokens(p).len() == p.len(),
    decreases p.len(),
{
    if p.len() > 0 {
        lemma_char_tokens_len(p.drop_first());
    }
}

/// The states that a literal pattern compiles to from index `base`: one
/// match for each character, each leading to the next, the last unbound.
pub open spec fn literal_states(p: Seq<char>, base: int) -> Seq<State>
    decreases p.len(),
{
    if p.len() <= 1 {
        seq![literal_match(p.first(), None)]
    } else {
        seq![literal_match(p.first(), Some((base + 1) as StateId))] + literal_states(
            p.drop_first(),
            base + 1,
        )
    }
}

proof fn lemma_literal_states_index(p: Seq<char>, base: int, i: int)
    requires
        p.len() >= 1,
        0 <= i < p.len(),
    ensures
        literal_states(p, base).len() == p.len(),
        literal_states(p, base)[i] == State::Match(
            Char::Literal(p[i]),
            if i + 1 < p.len() {
                Some((base + i + 1) as StateId)
            } else {
                None
            },
        ),
    decreases p.len(),
{
    if p.len() > 1 {
        if i > 0 {
            lemma_literal_states_index(p.drop_first(), base + 1, i - 1);
        } else {
            lemma_literal_states_index(p.drop_first(), base + 1, 0);
        }
    }
}

proof fn lemma_thompson_literal(p: Seq<char>, base: int)
    requires
        p.len() >= 1,
    ensures
        thompson(literal_ast(p), base) == (literal_states(p, base), base, seq![base + p.len() - 1]),
    decreases p.len(),
{
    if p.len() > 1 {
        lemma_thompson_literal(p.drop_first(), base + 1);
        let sl = seq![literal_match(p.first(), None)];
        let bound = bind_ends(sl, base, seq![base], base + 1);
        assert(seq![base][0] == base);
        assert(bound =~= seq![literal_match(p.first(), Some((base + 1) as StateId))]);
        assert(thompson(literal_leaf(p.first()), base) == (sl, base, seq![base]));
        let (ss, st, ends) = thompson(literal_ast(p), base);
        assert(ss =~= literal_states(p, base));
        assert(ends =~= seq![base + p.len() - 1]);
    }
}

proof fn lemma_labels_append(a: Seq<State>, b: Seq<State>)
    ensures
        labels(a + b) == labels(a) + labels(b),
    decreases a.len(),
{
    if a.len() == 0 {
        assert(a + b =~= b);
        assert(labels(a) + labels(b) =~= labels(b));
    } else {
        lemma_labels_append(a.drop_first(), b);
        assert((a + b).drop_first() =~= a.drop_first() + b);
        assert((a + b)[0] == a[0]);
        match a[0] {
            State::Match(Char::Literal(c), _) => {
                assert(seq![c] + (labels(a.drop_first()) + labels(b)) =~= (seq![c] + labels(
                    a.drop_first(),
                )) + labels(b));
            },
            _ => {},
        }
    }
}

proof fn lemma_labels_relocate(b: Seq<State>, off: int)
    requires
        forall|i: int| 0 <= i < b.len() ==> !(#[trigger] b[i] matches State::Match(Char::Any, _)),
    ensures
        labels(b.map_values(|s: State| relocate(s, off))) == labels(b),
    decreases b.len(),
{
    let m = b.map_values(|s: State| relocate(s, off));
    if b.len() > 0 {
        assert(m.drop_first() =~= b.drop_first().map_values(|s: State| relocate(s, off)));
        assert forall|i: int| 0 <= i < b.drop_first().len() implies !(
        #[trigger] b.drop_first()[i] matches State::Match(Char::Any, _)) by {
            assert(b.drop_first()[i] == b[i + 1]);
        }
        lemma_labels_relocate(b.drop_first(), off);
        assert(m[0] == relocate(b[0], off));
        assert(!(b[0] matches State::Match(Char::Any, _)));
    }
}

/// A literal pattern compiles to a chain that spells the pattern.
proof fn lemma_literal_chain(p: Seq<char>)
    requires
        p.len() >= 1,
        p.len() + 2 <= usize::MAX,
    ensures
        is_chain(compiled(literal_ast(p))),
        labels(compiled(literal_ast(p))) == p,
        compiled(literal_ast(p)).len() == p.len() + 2,
{
    lemma_thompson_literal(p, 1);
    let n = p.len() as int;
    let body = bind_ends(literal_states(p, 1), 1, seq![n], n + 1);
    lemma_literal_states_index(p, 1, 0);
    assert forall|i: int| 0 <= i < n implies #[trigger] body[i] == literal_match(
        p[i],
        Some((i + 2) as StateId),
    ) by {
        lemma_literal_states_index(p, 1, i);
        if i == n - 1 {
            assert(seq![n][0] == n);
        } else {
            assert(!seq![n].contains(1 + i));
        }
    }
    let ss = compiled(literal_ast(p));
    assert(ss =~= seq![State::Start(Some(1))] + body + seq![State::End]);
    lemma_labels_matches(body, p);
    lemma_labels_append(seq![State::Start(Some(1))], body);
    lemma_labels_append(seq![State::Start(Some(1))] + body, seq![State::End]);
    assert(labels(seq![State::End].drop_first()) =~= Seq::<char>::empty());
    assert(labels(seq![State::End]) =~= Seq::<char>::empty());
    assert(labels(seq![State::Start(Some(1))].drop_first()) =~= Seq::<char>::empty());
    assert(labels(seq![State::Start(Some(1))]) =~= Seq::<char>::empty());
    assert(labels(ss) =~= p);
    assert forall|i: int| 0 <= i < ss.len() - 1 implies match #[trigger] ss[i] {
        State::Start(Some(m)) => m == i + 1,
        State::Match(Char::Literal(_), Some(m)) => m == i + 1,
        _ => false,
    } by {
        if i > 0 {
            assert(ss[i] == body[i - 1]);
            assert(body[i - 1] == literal_match(p[i - 1], Some((i - 1 + 2) as StateId)));
        }
    }
}

/// A list of literal matches is labelled by their characters.
proof fn lemma_labels_matches(ss: Seq<State>, p: Seq<char>)
    requires
        ss.len() == p.len(),
        forall|i: int|
            0 <= i < ss.len() ==> (#[trigger] ss[i] matches State::Match(Char::Literal(c), _)
                && c == p[i]),
    ensures
        labels(ss) == p,
    decreases ss.len(),
{
    if ss.len() > 0 {
        assert forall|i: int| 0 <= i < ss.drop_first().len() implies (
        #[trigger] ss.drop_first()[i] matches State::Match(Char::Literal(c), _) && c
            == p.drop_first()[i]) by {
            assert(ss.drop_first()[i] == ss[i + 1]);
        }
        lemma_labels_matches(ss.drop_first(), p.drop_first());
        assert(ss[0] matches State::Match(Char::Literal(c), _) && c == p[0]);
        assert(labels(ss) =~= p);
    } else {
        assert(labels(ss) =~= p);
    }
}

/// A run of a chain from state `i` at position `pos` accepts exactly when
/// the rest of the input is what the rest of the chain spells.
proof fn lemma_chain_accepts(ss: Seq<State>, s: Seq<char>, i: int, pos: int)
    requires
        is_chain(ss),
        0 <= i < ss.len(),
        0 <= pos <= s.len(),
    ensures
        accepts_from(ss, s, (i, pos)) == (s.subrange(pos, s.len() as int) == labels(
            ss.subrange(i, ss.len() as int),
        )),
    decreases ss.len() - i,
{
    let c = (i, pos);
    let rest = ss.subrange(i, ss.len() as int);
    let tail = s.subrange(pos, s.len() as int);
    assert(rest.drop_first() =~= ss.subrange(i + 1, ss.len() as int));
    assert(rest[0] == ss[i]);
    if i == ss.len() - 1 {
        assert(labels(rest.drop_first()) =~= Seq::<char>::empty());
        if accepts_from(ss, s, c) {
            let run = choose|run: Seq<(int, int)>| #[trigger] is_run(ss, s, run) && run[0] == c;
            if run.len() >= 2 {
                assert(step(ss, s, run[0], run[1]));
            }
        }
        if pos == s.len() {
            assert(is_run(ss, s, seq![c]));
        }
        assert(rest[0] is End);
        assert(labels(rest) == labels(rest.drop_first()));
        if pos == s.len() {
            assert(tail =~= Seq::<char>::empty());
        }
        if tail == labels(rest) {
            assert(tail.len() == 0);
        }
        assert(accepts_from(ss, s, c) == (pos == s.len()));
        assert((tail == labels(rest)) == (pos == s.len()));
    } else {
        assert(!is_accepting(ss, s, c));
        let l = labels(ss.subrange(i + 1, ss.len() as int));
        match ss[i] {
            State::Start(Some(n)) => {
                let d = (i + 1, pos);
                lemma_chain_accepts(ss, s, i + 1, pos);
                if accepts_from(ss, s, c) {
                    let run = choose|run: Seq<(int, int)>| #[trigger] is_run(ss, s, run) && run[0] == c;
                    assert(step(ss, s, run[0], run[1]));
                    lemma_run_skip(ss, s, run, 1);
                }
                if accepts_from(ss, s, d) {
                    lemma_prepend(ss, s, c, d);
                }
                assert(labels(rest) == l);
                assert(accepts_from(ss, s, c) == accepts_from(ss, s, d));
            },
            State::Match(Char::Literal(ch), Some(n)) => {
                assert(labels(rest) == seq![ch] + l);
                if pos < s.len() && s[pos] == ch {
                    let d = (i + 1, pos + 1);
                    lemma_chain_accepts(ss, s, i + 1, pos + 1);
                    if accepts_from(ss, s, c) {
                        let run = choose|run: Seq<(int, int)>|
                            #[trigger] is_run(ss, s, run) && run[0] == c;
                        assert(step(ss, s, run[0], run[1]));
                        lemma_run_skip(ss, s, run, 1);
                    }
                    if accepts_from(ss, s, d) {
                        lemma_prepend(ss, s, c, d);
                    }
                    assert(tail =~= seq![ch] + s.subrange(pos + 1, s.len() as int));
                    if tail == seq![ch] + l {
                        assert(s.subrange(pos + 1, s.len() as int) =~= (seq![ch] + l).drop_first());
                        assert((seq![ch] + l).drop_first() =~= l);
                    }
                } else {
                    if accepts_from(ss, s, c) {
                        let run = choose|run: Seq<(int, int)>|
                            #[trigger] is_run(ss, s, run) && run[0] == c;
                        assert(step(ss, s, run[0], run[1]));
                    }
                    if tail == seq![ch] + l {
                        assert(tail[0] == ch);
                    }
                }
            },
            _ => {},
        }
    }
}

/// Joining two chains gives a chain that spells the first word, then the
/// second.
proof fn lemma_concat_chain(a: Seq<State>, b: Seq<State>)
    requires
        is_chain(a),
        is_chain(b),
        a.len() >= 2,
        a.len() - 1 + b.len() <= usize::MAX,
    ensures
        is_chain(concat_states(a, b)),
        labels(concat_states(a, b)) == labels(a) + labels(b),
{
    let off = a.len() - 1;
    let m = b.map_values(|s: State| relocate(s, off));
    let cs = concat_states(a, b);
    assert(cs == a.drop_last() + m);
    assert forall|i: int| 0 <= i < cs.len() - 1 implies match #[trigger] cs[i] {
        State::Start(Some(n)) => n == i + 1,
        State::Match(Char::Literal(_), Some(n)) => n == i + 1,
        _ => false,
    } by {
        if i < off {
            assert(cs[i] == a[i]);
        } else {
            assert(cs[i] == relocate(b[i - off], off));
            assert(i - off < b.len() - 1);
        }
    }
    assert(cs.last() == relocate(b.last(), off));
    assert forall|j: int| 0 <= j < b.len() implies !(#[trigger] b[j] matches State::Match(
        Char::Any,
        _,
    )) by {
        if j < b.len() - 1 {
        }
    }
    lemma_labels_relocate(b, off);
    lemma_labels_append(a.drop_last(), m);
    assert(a =~= a.drop_last() + seq![State::End]);
    lemma_labels_append(a.drop_last(), seq![State::End]);
    assert(labels(seq![State::End].drop_first()) =~= Seq::<char>::empty());
    assert(labels(a.drop_last()) + labels(seq![State::End]) =~= labels(a.drop_last()));
}

proof fn lemma_parse_literal_pattern(p: Seq<char>)
    requires
        is_literal(p),
    ensures
        parse_tokens(lex(p)) == Some(literal_ast(p)),
{
    lemma_lex_literal(p);
    lemma_parse_literal(p);
    lemma_char_tokens_len(p);
}

/// A pattern of literal characters accepts exactly itself: the match is
/// anchored at both ends.
pub proof fn literal_pattern_accepts_itself(p: Seq<char>, s: Seq<char>)
    requires
        is_literal(p),
        p.len() + 2 <= usize::MAX,
    ensures
        parse_tokens(lex(p)) is Some,
        accepts_from(compiled(parse_tokens(lex(p))->Some_0), s, (0, 0)) <==> s == p,
{
    lemma_parse_literal_pattern(p);
    lemma_literal_chain(p);
    let ss = compiled(literal_ast(p));
    lemma_chain_accepts(ss, s, 0, 0);
    assert(ss.subrange(0, ss.len() as int) =~= ss);
    assert(s.subrange(0, s.len() as int) =~= s);
}

/// Catenating the automata of two literal patterns accepts what the
/// automaton of the joined pattern accepts.
pub proof fn concat_agrees_with_joined_literals(p: Seq<char>, q: Seq<char>, s: Seq<char>)
    requires
        is_literal(p),
        is_literal(q),
        p.len() + q.len() + 3 <= usize::MAX,
    ensures
        parse_tokens(lex(p)) is Some,
        parse_tokens(lex(q)) is Some,
        parse_tokens(lex(p + q)) is Some,
        accepts_from(
            concat_states(
                compiled(parse_tokens(lex(p))->Some_0),
                compiled(parse_tokens(lex(q))->Some_0),
            ),
            s,
            (0, 0),
        ) == accepts_from(compiled(parse_tokens(lex(p + q))->Some_0), s, (0, 0)),
{
    assert forall|i: int| 0 <= i < (p + q).len() implies !is_punct(#[trigger] (p + q)[i]) && !is_space(
        (p + q)[i],
    ) by {
        if i < p.len() {
            assert((p + q)[i] == p[i]);
        } else {
            assert((p + q)[i] == q[i - p.len()]);
        }
    }
    literal_pattern_accepts_itself(p + q, s);
    lemma_parse_literal_pattern(p);
    lemma_parse_literal_pattern(q);
    lemma_literal_chain(p);
    lemma_literal_chain(q);
    let a = compiled(literal_ast(p));
    let b = compiled(literal_ast(q));
    lemma_thompson_literal(p, 1);
    lemma_thompson_literal(q, 1);
    lemma_literal_states_index(p, 1, 0);
    lemma_literal_states_index(q, 1, 0);
    lemma_concat_chain(a, b);
    let cs = concat_states(a, b);
    lemma_chain_accepts(cs, s, 0, 0);
    assert(cs.subrange(0, cs.len() as int) =~= cs);
    assert(s.subrange(0, s.len() as int) =~= s);
}

/// From a match of `ch` that leads to `End`, the input is accepted from its
/// start exactly when it is `ch` alone.
proof fn lemma_accepts_one_char(ss: Seq<State>, s: Seq<char>, k: int, ch: char, end: StateId)
    requires
        0 <= k < ss.len(),
        end < ss.len(),
        ss[k] == State::Match(Char::Literal(ch), Some(end)),
        ss[end as int] is End,
    ensures
        accepts_from(ss, s, (k, 0)) == (s == seq![ch]),
{
    lemma_accepts_end(ss, s, (end as int, 1));
    lemma_accepts_single(ss, s, (k, 0), (end as int, 1));
    if s == seq![ch] {
        assert(s[0] == ch);
    }
    if s.len() == 1 && s[0] == ch {
        assert(s =~= seq![ch]);
    }
}

/// A character that is a pattern of its own.
pub open spec fn is_literal_char(c: char) -> bool {
    !is_punct(c) && !is_space(c)
}

/// A three-way alternation of literal characters accepts exactly the three
/// one-character strings.
pub proof fn alternation_of_three_characters(x: char, y: char, z: char, s: Seq<char>)
    requires
        is_literal_char(x),
        is_literal_char(y),
        is_literal_char(z),
    ensures
        parse_tokens(lex(seq![x, '|', y, '|', z])) is Some,
        accepts_from(compiled(parse_tokens(lex(seq![x, '|', y, '|', z]))->Some_0), s, (0, 0)) <==> (s
            == seq![x] || s == seq![y] || s == seq![z]),
{
    let pat = seq![x, '|', y, '|', z];
    let bar = Token::UnionBar;
    let ts = seq![Token::Char(x), bar, Token::Char(y), bar, Token::Char(z)];
    reveal_with_fuel(lex, 6);
    assert(lex(pat) =~= ts);
    // `z` alone
    let t5 = ts.skip(4);
    assert(t5 =~= seq![Token::Char(z)]);
    assert(parse_atom(t5) == Some((AST::Char(z), 1nat)));
    assert(parse_closure(t5) == Some((AST::Char(z), 1nat)));
    assert(parse_quantified(t5) == Some((AST::Char(z), 1nat)));
    assert(parse_catenation(t5) == Some((AST::Char(z), 1nat)));
    assert(parse_reg_expr(t5) == Some((AST::Char(z), 1nat)));
    // `y|z`
    let t3 = ts.skip(2);
    let yz = AST::Alternation(Box::new(AST::Char(y)), Box::new(AST::Char(z)));
    assert(t3 =~= seq![Token::Char(y), bar, Token::Char(z)]);
    assert(t3.skip(2) =~= t5);
    assert(parse_atom(t3) == Some((AST::Char(y), 1nat)));
    assert(parse_closure(t3) == Some((AST::Char(y), 1nat)));
    assert(parse_quantified(t3) == Some((AST::Char(y), 1nat)));
    assert(parse_catenation(t3) == Some((AST::Char(y), 1nat)));
    assert(parse_reg_expr(t3) == Some((yz, 3nat)));
    // `x|y|z`
    let ast = AST::Alternation(Box::new(AST::Char(x)), Box::new(yz));
    assert(ts.skip(2) =~= t3);
    assert(parse_atom(ts) == Some((AST::Char(x), 1nat)));
    assert(parse_closure(ts) == Some((AST::Char(x), 1nat)));
    assert(parse_quantified(ts) == Some((AST::Char(x), 1nat)));
    assert(parse_catenation(ts) == Some((AST::Char(x), 1nat)));
    assert(parse_reg_expr(ts) == Some((ast, 5nat)));
    assert(parse_tokens(lex(pat)) == Some(ast));
    // the automaton
    let mx = State::Match(Char::Literal(x), None);
    let my = State::Match(Char::Literal(y), None);
    let mz = State::Match(Char::Literal(z), None);
    assert(thompson(AST::Char(y), 2) == (seq![my], 2int, seq![2int]));
    assert(thompson(AST::Char(z), 3) == (seq![mz], 3int, seq![3int]));
    assert(thompson(yz, 2) == (seq![my, mz, State::Split(Some(2), Some(3))], 4int, seq![2int, 3int]))
        by {
        assert(seq![my] + seq![mz] + seq![State::Split(Some(2), Some(3))] =~= seq![
            my,
            mz,
            State::Split(Some(2), Some(3)),
        ]);
        assert(seq![2int] + seq![3int] =~= seq![2int, 3int]);
    }
    assert(thompson(AST::Char(x), 1) == (seq![mx], 1int, seq![1int]));
    let body = seq![mx, my, mz, State::Split(Some(2), Some(3)), State::Split(Some(1), Some(4))];
    assert(thompson(ast, 1) == (body, 5int, seq![1int, 2int, 3int])) by {
        assert(seq![mx] + seq![my, mz, State::Split(Some(2), Some(3))] + seq![
            State::Split(Some(1), Some(4)),
        ] =~= body);
        assert(seq![1int] + seq![2int, 3int] =~= seq![1int, 2int, 3int]);
    }
    let ss = seq![
        State::Start(Some(5)),
        State::Match(Char::Literal(x), Some(6)),
        State::Match(Char::Literal(y), Some(6)),
        State::Match(Char::Literal(z), Some(6)),
        State::Split(Some(2), Some(3)),
        State::Split(Some(1), Some(4)),
        State::End,
    ];
    let ends = seq![1int, 2int, 3int];
    assert(ends[0] == 1 && ends[1] == 2 && ends[2] == 3);
    assert(!ends.contains(4) && !ends.contains(5));
    assert(compiled(ast) =~= ss);
    // acceptance, state by state
    lemma_accepts_end(ss, s, (6, 1));
    lemma_accepts_one_char(ss, s, 1, x, 6);
    lemma_accepts_one_char(ss, s, 2, y, 6);
    lemma_accepts_one_char(ss, s, 3, z, 6);
    assert(ss[1] == State::Match(Char::Literal(x), Some(6)));
    assert(ss[2] == State::Match(Char::Literal(y), Some(6)));
    assert(ss[3] == State::Match(Char::Literal(z), Some(6)));
    assert(accepts_from(ss, s, (1, 0)) == (s == seq![x]));
    assert(accepts_from(ss, s, (2, 0)) == (s == seq![y]));
    assert(accepts_from(ss, s, (3, 0)) == (s == seq![z]));
    lemma_accepts_split(ss, s, (4, 0), 2, 3);
    lemma_accepts_split(ss, s, (5, 0), 1, 4);
    lemma_accepts_single(ss, s, (0, 0), (5, 0));
}

} // verus!
