use crate::language::{compiled_accepts_its_language, denotes};
use crate::parser::{parse_failure_text, parse_tokens, Parser, AST};
use crate::run::{
    accepts_avoiding, accepts_from, avoids, is_accepting, is_run, lemma_avoid_nothing, lemma_extend,
    lemma_first_step, lemma_walk_extend, step,
};
use crate::tokenizer::{chars_of, lex, Tokenizer};
use rand::Rng;
use vstd::prelude::*;
use vstd::set_lib::{lemma_int_range, lemma_len_subset, set_int_range};

verus! {

/// An index into an automaton's state list.
pub type StateId = usize;

/// The label of a consuming edge.
#[derive(Debug, Clone, Copy, PartialEq, Eq, Structural)]
pub enum Char {
    Literal(char),
    Any,
}

/// A node of the automaton; an absent edge is one not yet bound.
#[derive(Debug, Clone, Copy, PartialEq, Eq, Structural)]
pub enum State {
    Start(Option<StateId>),
    Match(Char, Option<StateId>),
    Split(Option<StateId>, Option<StateId>),
    End,
}

/// A nondeterministic finite automaton: an arena of states and a start
/// index.
#[derive(Debug)]
pub struct NFA {
    start: StateId,
    states: Vec<State>,
}

/// A sub-automaton under construction: its entry and the states whose last
/// edge is still to be bound.
struct Fragment {
    start: StateId,
    ends: Vec<StateId>,
}

/// An edge that is bound to one of the first `n` states.
pub open spec fn edge_ok(e: Option<StateId>, n: int) -> bool {
    e matches Some(i) && i < n
}

/// Every edge of the state is bound to one of the first `n` states.
pub open spec fn state_ok(s: State, n: int) -> bool {
    match s {
        State::Start(e) => edge_ok(e, n),
        State::Match(_, e) => edge_ok(e, n),
        State::Split(l, r) => edge_ok(l, n) && edge_ok(r, n),
        State::End => true,
    }
}

/// A complete automaton: `Start` first, `End` last and nowhere else, every
/// edge bound to a state of the list.
pub open spec fn wf_states(ss: Seq<State>) -> bool {
    &&& ss.len() >= 2
    &&& ss[0] is Start
    &&& ss.last() is End
    &&& forall|i: int| 0 <= i < ss.len() - 1 ==> !(#[trigger] ss[i] is End)
    &&& forall|i: int| 0 <= i < ss.len() ==> state_ok(#[trigger] ss[i], ss.len() as int)
}

/// The state with its last edge bound to `to`.
pub open spec fn bind(s: State, to: int) -> State {
    match s {
        State::Start(_) => State::Start(Some(to as StateId)),
        State::Match(c, _) => State::Match(c, Some(to as StateId)),
        State::Split(l, _) => State::Split(l, Some(to as StateId)),
        State::End => State::End,
    }
}

/// `ss`, whose first state has index `base`, with the last edge of each
/// state listed in `ends` bound to `to`.
pub open spec fn bind_ends(ss: Seq<State>, base: int, ends: Seq<int>, to: int) -> Seq<State> {
    Seq::new(
        ss.len(),
        |i: int|
            if ends.contains(base + i) {
                bind(ss[i], to)
            } else {
                ss[i]
            },
    )
}

/// The Thompson construction of `ast` when its first state gets index `base`:
/// the states it appends, its entry and its unbound ends.
pub open spec fn thompson(ast: AST, base: int) -> (Seq<State>, int, Seq<int>)
    decreases ast,
{
    match ast {
        AST::Char(c) => (seq![State::Match(Char::Literal(c), None)], base, seq![base]),
        AST::AnyChar => (seq![State::Match(Char::Any, None)], base, seq![base]),
        AST::Catenation(l, r) => {
            let (sl, stl, el) = thompson(*l, base);
            let (sr, str, er) = thompson(*r, base + sl.len());
            (bind_ends(sl, base, el, str) + sr, stl, er)
        },
        AST::Alternation(l, r) => {
            let (sl, stl, el) = thompson(*l, base);
            let (sr, str, er) = thompson(*r, base + sl.len());
            let split = base + sl.len() + sr.len();
            (sl + sr + seq![State::Split(Some(stl as StateId), Some(str as StateId))], split, el + er)
        },
        AST::Closure(b) => {
            let (sb, stb, eb) = thompson(*b, base);
            let split = base + sb.len();
            (
                bind_ends(sb, base, eb, split) + seq![State::Split(Some(stb as StateId), None)],
                split,
                seq![split],
            )
        },
        AST::OneOrMore(b) => {
            let (sb, stb, eb) = thompson(*b, base);
            let split = base + sb.len();
            (
                bind_ends(sb, base, eb, split) + seq![State::Split(Some(stb as StateId), None)],
                stb,
                seq![split],
            )
        },
    }
}

/// The automaton of a tree: `Start`, the construction of the tree from
/// index 1 with its ends bound to `End`, and `End`.
pub open spec fn compiled(ast: AST) -> Seq<State> {
    let (sb, st, e) = thompson(ast, 1);
    seq![State::Start(Some(st as StateId))] + bind_ends(sb, 1, e, sb.len() + 1int) + seq![State::End]
}

/// What holds of each state of a fragment whose first state has index
/// `base`: a bound edge stays inside the fragment, an unbound one is the last
/// edge of a listed end, and neither `Start` nor `End` occurs.
pub open spec fn fragment_state_ok(s: State, i: int, base: int, n: int, ends: Seq<int>) -> bool {
    let inside = |e: Option<StateId>| e matches Some(j) && base <= j < base + n;
    match s {
        State::Match(_, e) => inside(e) || (e is None && ends.contains(i)),
        State::Split(l, r) => inside(l) && (inside(r) || (r is None && ends.contains(i))),
        _ => false,
    }
}

pub open spec fn fragment_ok(f: (Seq<State>, int, Seq<int>), base: int) -> bool {
    let (ss, st, ends) = f;
    &&& ss.len() >= 1
    &&& base <= st < base + ss.len()
    &&& forall|k: int| 0 <= k < ends.len() ==> base <= #[trigger] ends[k] < base + ss.len()
    &&& forall|i: int|
        0 <= i < ss.len() ==> fragment_state_ok(#[trigger] ss[i], base + i, base, ss.len() as int, ends)
}

/// Binding the listed ends of a fragment to a state inside a range leaves
/// every state well-formed with respect to that range.
proof fn lemma_bind_fragment(
    ss: Seq<State>,
    base: int,
    ends: Seq<int>,
    to: int,
    lo: int,
    n: int,
    ends2: Seq<int>,
)
    requires
        fragment_ok((ss, base, ends), base) || (ss.len() >= 1 && forall|i: int|
            0 <= i < ss.len() ==> fragment_state_ok(
                #[trigger] ss[i],
                base + i,
                base,
                ss.len() as int,
                ends,
            )),
        lo <= base,
        base + ss.len() <= lo + n,
        lo <= to < lo + n,
        0 <= to <= usize::MAX,
    ensures
        forall|i: int|
            0 <= i < ss.len() ==> fragment_state_ok(
                #[trigger] bind_ends(ss, base, ends, to)[i],
                base + i,
                lo,
                n,
                ends2,
            ),
{
    assert forall|i: int| 0 <= i < ss.len() implies fragment_state_ok(
        #[trigger] bind_ends(ss, base, ends, to)[i],
        base + i,
        lo,
        n,
        ends2,
    ) by {
        assert(fragment_state_ok(ss[i], base + i, base, ss.len() as int, ends));
    }
}

pub proof fn lemma_thompson(ast: AST, base: int)
    requires
        0 <= base,
        base + thompson(ast, base).0.len() <= usize::MAX + 1,
    ensures
        fragment_ok(thompson(ast, base), base),
    decreases ast,
{
    match ast {
        AST::Char(c) => {
            assert(thompson(ast, base).2[0] == base);
        },
        AST::AnyChar => {
            assert(thompson(ast, base).2[0] == base);
        },
        AST::Catenation(l, r) => {
            let (sl, stl, el) = thompson(*l, base);
            let (sr, str, er) = thompson(*r, base + sl.len());
            lemma_thompson(*l, base);
            lemma_thompson(*r, base + sl.len());
            let (ss, st, ends) = thompson(ast, base);
            let n = ss.len() as int;
            lemma_bind_fragment(sl, base, el, str, base, n, er);
            assert forall|i: int| 0 <= i < ss.len() implies fragment_state_ok(
                #[trigger] ss[i],
                base + i,
                base,
                n,
                ends,
            ) by {
                if i < sl.len() {
                    assert(ss[i] == bind_ends(sl, base, el, str)[i]);
                } else {
                    assert(ss[i] == sr[i - sl.len()]);
                    assert(fragment_state_ok(
                        sr[i - sl.len()],
                        base + sl.len() + (i - sl.len()),
                        base + sl.len(),
                        sr.len() as int,
                        er,
                    ));
                }
            }
        },
        AST::Alternation(l, r) => {
            let (sl, stl, el) = thompson(*l, base);
            let (sr, str, er) = thompson(*r, base + sl.len());
            lemma_thompson(*l, base);
            lemma_thompson(*r, base + sl.len());
            let (ss, st, ends) = thompson(ast, base);
            let n = ss.len() as int;
            assert forall|k: int| 0 <= k < ends.len() implies base <= #[trigger] ends[k] < base
                + n by {
                if k < el.len() {
                    assert(ends[k] == el[k]);
                } else {
                    assert(ends[k] == er[k - el.len()]);
                }
            }
            assert forall|i: int| 0 <= i < ss.len() implies fragment_state_ok(
                #[trigger] ss[i],
                base + i,
                base,
                n,
                ends,
            ) by {
                if i < sl.len() {
                    assert(ss[i] == sl[i]);
                    assert(fragment_state_ok(sl[i], base + i, base, sl.len() as int, el));
                    if el.contains(base + i) {
                        let k = choose|k: int| 0 <= k < el.len() && el[k] == base + i;
                        assert(ends[k] == base + i);
                    }
                } else if i < sl.len() + sr.len() {
                    assert(ss[i] == sr[i - sl.len()]);
                    assert(fragment_state_ok(
                        sr[i - sl.len()],
                        base + sl.len() + (i - sl.len()),
                        base + sl.len(),
                        sr.len() as int,
                        er,
                    ));
                    if er.contains(base + i) {
                        let k = choose|k: int| 0 <= k < er.len() && er[k] == base + i;
                        assert(ends[el.len() + k] == base + i);
                    }
                } else {
                    assert(ss[i] == State::Split(Some(stl as StateId), Some(str as StateId)));
                }
            }
        },
        AST::Closure(b) => {
            let (sb, stb, eb) = thompson(*b, base);
            lemma_thompson(*b, base);
            let (ss, st, ends) = thompson(ast, base);
            let n = ss.len() as int;
            let split = base + sb.len();
            lemma_bind_fragment(sb, base, eb, split, base, n, ends);
            assert forall|i: int| 0 <= i < ss.len() implies fragment_state_ok(
                #[trigger] ss[i],
                base + i,
                base,
                n,
                ends,
            ) by {
                if i < sb.len() {
                    assert(ss[i] == bind_ends(sb, base, eb, split)[i]);
                } else {
                    assert(ends[0] == base + i);
                }
            }
        },
        AST::OneOrMore(b) => {
            let (sb, stb, eb) = thompson(*b, base);
            lemma_thompson(*b, base);
            let (ss, st, ends) = thompson(ast, base);
            let n = ss.len() as int;
            let split = base + sb.len();
            lemma_bind_fragment(sb, base, eb, split, base, n, ends);
            assert forall|i: int| 0 <= i < ss.len() implies fragment_state_ok(
                #[trigger] ss[i],
                base + i,
                base,
                n,
                ends,
            ) by {
                if i < sb.len() {
                    assert(ss[i] == bind_ends(sb, base, eb, split)[i]);
                } else {
                    assert(ends[0] == base + i);
                }
            }
        },
    }
}

/// The indices of a list of state ids, as integers.
pub open spec fn ids(v: Seq<StateId>) -> Seq<int> {
    v.map_values(|e: StateId| e as int)
}

proof fn lemma_bind_ends_split(pre: Seq<State>, ss: Seq<State>, post: Seq<State>, ends: Seq<int>, to: int)
    requires
        forall|k: int| 0 <= k < ends.len() ==> pre.len() <= #[trigger] ends[k] < pre.len() + ss.len(),
    ensures
        bind_ends(pre + ss + post, 0, ends, to) == pre + bind_ends(ss, pre.len() as int, ends, to) + post,
{
    let a = bind_ends(pre + ss + post, 0, ends, to);
    let b = pre + bind_ends(ss, pre.len() as int, ends, to) + post;
    assert forall|i: int| 0 <= i < a.len() implies a[i] == b[i] by {
        if i < pre.len() || i >= pre.len() + ss.len() {
            if ends.contains(i) {
                let k = choose|k: int| 0 <= k < ends.len() && ends[k] == i;
                assert(pre.len() <= ends[k] < pre.len() + ss.len());
            }
        }
    }
    assert(a =~= b);
}

pub proof fn lemma_compiled_wf(ast: AST)
    requires
        thompson(ast, 1).0.len() + 1 <= usize::MAX,
    ensures
        wf_states(compiled(ast)),
{
    let (sb, st, e) = thompson(ast, 1);
    let end = sb.len() + 1int;
    let ss = compiled(ast);
    let n = ss.len() as int;
    lemma_thompson(ast, 1);
    lemma_bind_fragment(sb, 1, e, end, 0, n, Seq::empty());
    assert forall|i: int| 0 <= i < ss.len() implies state_ok(#[trigger] ss[i], n) && (i < n - 1
        ==> !(ss[i] is End)) by {
        if 1 <= i < n - 1 {
            assert(ss[i] == bind_ends(sb, 1, e, end)[i - 1]);
            assert(fragment_state_ok(bind_ends(sb, 1, e, end)[i - 1], i, 0, n, Seq::empty()));
        }
    }
}

/// The state with every bound edge moved `off` places on; a wildcard becomes
/// a literal dot.
pub open spec fn relocate(s: State, off: int) -> State {
    match s {
        State::Start(Some(n)) => State::Start(Some((n + off) as StateId)),
        State::Match(Char::Any, Some(n)) => State::Match(Char::Literal('.'), Some((n + off) as StateId)),
        State::Match(Char::Literal(c), Some(n)) => State::Match(
            Char::Literal(c),
            Some((n + off) as StateId),
        ),
        State::Split(Some(l), Some(r)) => State::Split(
            Some((l + off) as StateId),
            Some((r + off) as StateId),
        ),
        _ => s,
    }
}

/// The states of the concatenation of two automata: the first without its
/// `End`, then the second relocated behind it, so that what led to the first
/// one's `End` now leads to the second one's `Start`.
pub open spec fn concat_states(a: Seq<State>, b: Seq<State>) -> Seq<State> {
    a.drop_last() + b.map_values(|s: State| relocate(s, a.len() - 1))
}

/// An ASCII letter or digit.
pub open spec fn is_alphanumeric(c: char) -> bool {
    ('A' <= c && c <= 'Z') || ('a' <= c && c <= 'z') || ('0' <= c && c <= '9')
}

/// `out` followed by the string of `w`, if there is one.
pub open spec fn emit_then(out: Seq<char>, w: Option<Seq<char>>) -> Option<Seq<char>> {
    match w {
        Some(x) => Some(out + x),
        None => None,
    }
}

/// The string of an optional `String`.
pub open spec fn text_of(r: Option<String>) -> Option<Seq<char>> {
    match r {
        Some(s) => Some(s@),
        None => None,
    }
}

/// The walk from `current` with at most `fuel` looks at a state: each split
/// takes the branch that the next of `coins` picks (left on `true`), each
/// wildcard emits the next of `symbols`, each literal its character. The
/// string emitted once `End` is reached, or `None` if the fuel or the draws
/// run out first.
pub open spec fn walk(ss: Seq<State>, current: int, coins: Seq<bool>, symbols: Seq<char>, fuel: nat) -> Option<
    Seq<char>,
>
    decreases fuel,
{
    if fuel == 0 || !(0 <= current < ss.len()) {
        None
    } else {
        let f = (fuel - 1) as nat;
        match ss[current] {
            State::End => Some(Seq::empty()),
            State::Start(Some(n)) => walk(ss, n as int, coins, symbols, f),
            State::Match(Char::Literal(c), Some(n)) => emit_then(seq![c], walk(ss, n as int, coins, symbols, f)),
            State::Match(Char::Any, Some(n)) => if symbols.len() == 0 {
                None
            } else {
                emit_then(seq![symbols.first()], walk(ss, n as int, coins, symbols.drop_first(), f))
            },
            State::Split(Some(l), Some(r)) => if coins.len() == 0 {
                None
            } else {
                walk(ss, if coins.first() { l as int } else { r as int }, coins.drop_first(), symbols, f)
            },
            _ => None,
        }
    }
}

/// The walk of at most `max` looks from the start that begins with the
/// draws `coins` and `symbols` gives `result`, whatever is drawn after them.
pub open spec fn draws_decide(
    ss: Seq<State>,
    coins: Seq<bool>,
    symbols: Seq<char>,
    max: nat,
    result: Option<Seq<char>>,
) -> bool {
    forall|cs: Seq<bool>, ys: Seq<char>| #[trigger] walk(ss, 0, coins + cs, symbols + ys, max) == result
}

/// After drawing `coins` and `symbols` and emitting `out`, a walk from the
/// start is at `current` with `rem` looks left: whatever is drawn next, the
/// whole walk emits `out` and then what the walk from `current` emits.
pub open spec fn walk_so_far(
    ss: Seq<State>,
    coins: Seq<bool>,
    symbols: Seq<char>,
    out: Seq<char>,
    current: int,
    rem: nat,
    max: nat,
) -> bool {
    forall|cs: Seq<bool>, ys: Seq<char>|
        #[trigger] walk(ss, 0, coins + cs, symbols + ys, max) == emit_then(out, walk(ss, current, cs, ys, rem))
}

proof fn lemma_emit_then_assoc(a: Seq<char>, b: Seq<char>, w: Option<Seq<char>>)
    ensures
        emit_then(a, emit_then(b, w)) == emit_then(a + b, w),
{
    if let Some(x) = w {
        assert(a + (b + x) =~= (a + b) + x);
    }
}

/// One more move of the walk keeps `walk_so_far`, with the draw it used
/// appended to the draws and what it emitted appended to the output.
proof fn lemma_walk_advance(
    ss: Seq<State>,
    coins: Seq<bool>,
    symbols: Seq<char>,
    out: Seq<char>,
    current: int,
    rem: nat,
    max: nat,
    coin: bool,
    symbol: char,
)
    requires
        walk_so_far(ss, coins, symbols, out, current, rem, max),
        rem > 0,
        0 <= current < ss.len(),
        state_ok(ss[current], ss.len() as int),
        !(ss[current] is End),
    ensures
        match ss[current] {
            State::Start(Some(n)) => walk_so_far(ss, coins, symbols, out, n as int, (rem - 1) as nat, max),
            State::Match(Char::Literal(c), Some(n)) => walk_so_far(
                ss,
                coins,
                symbols,
                out.push(c),
                n as int,
                (rem - 1) as nat,
                max,
            ),
            State::Match(Char::Any, Some(n)) => walk_so_far(
                ss,
                coins,
                symbols.push(symbol),
                out.push(symbol),
                n as int,
                (rem - 1) as nat,
                max,
            ),
            State::Split(Some(l), Some(r)) => walk_so_far(
                ss,
                coins.push(coin),
                symbols,
                out,
                if coin { l as int } else { r as int },
                (rem - 1) as nat,
                max,
            ),
            _ => true,
        },
{
    let f = (rem - 1) as nat;
    match ss[current] {
        State::Start(Some(n)) => {
            assert forall|cs: Seq<bool>, ys: Seq<char>| #[trigger] walk(ss, 0, coins + cs, symbols + ys, max)
                == emit_then(out, walk(ss, n as int, cs, ys, f)) by {
                assert(walk(ss, current, cs, ys, rem) == walk(ss, n as int, cs, ys, f));
            }
        },
        State::Match(Char::Literal(c), Some(n)) => {
            assert forall|cs: Seq<bool>, ys: Seq<char>| #[trigger] walk(ss, 0, coins + cs, symbols + ys, max)
                == emit_then(out.push(c), walk(ss, n as int, cs, ys, f)) by {
                assert(walk(ss, current, cs, ys, rem) == emit_then(seq![c], walk(ss, n as int, cs, ys, f)));
                lemma_emit_then_assoc(out, seq![c], walk(ss, n as int, cs, ys, f));
                assert(out + seq![c] =~= out.push(c));
            }
        },
        State::Match(Char::Any, Some(n)) => {
            assert forall|cs: Seq<bool>, ys: Seq<char>| #[trigger] walk(ss, 0, coins + cs, symbols.push(symbol) + ys, max)
                == emit_then(out.push(symbol), walk(ss, n as int, cs, ys, f)) by {
                let ys2 = seq![symbol] + ys;
                assert(symbols.push(symbol) + ys =~= symbols + ys2);
                assert(walk(ss, 0, coins + cs, symbols + ys2, max) == emit_then(out, walk(ss, current, cs, ys2, rem)));
                assert(ys2.drop_first() =~= ys);
                assert(walk(ss, current, cs, ys2, rem) == emit_then(seq![symbol], walk(ss, n as int, cs, ys, f)));
                lemma_emit_then_assoc(out, seq![symbol], walk(ss, n as int, cs, ys, f));
                assert(out + seq![symbol] =~= out.push(symbol));
            }
        },
        State::Split(Some(l), Some(r)) => {
            let next = if coin { l as int } else { r as int };
            assert forall|cs: Seq<bool>, ys: Seq<char>| #[trigger] walk(ss, 0, coins.push(coin) + cs, symbols + ys, max)
                == emit_then(out, walk(ss, next, cs, ys, f)) by {
                let cs2 = seq![coin] + cs;
                assert(coins.push(coin) + cs =~= coins + cs2);
                assert(walk(ss, 0, coins + cs2, symbols + ys, max) == emit_then(out, walk(ss, current, cs2, ys, rem)));
                assert(cs2.drop_first() =~= cs);
                assert(walk(ss, current, cs2, ys, rem) == walk(ss, next, cs, ys, f));
            }
        },
        _ => {},
    }
}

/// Relies on rand::random::<bool>, which draws from the thread's generator.
#[verifier::external_body]
fn random_coin() -> bool {
    rand::random::<bool>()
}

/// Relies on Rng::sample with rand::distributions::Alphanumeric on the
/// thread's generator: one of the 62 ASCII letters and digits.
#[verifier::external_body]
fn random_alphanumeric() -> (c: char)
    ensures
        is_alphanumeric(c),
{
    rand::thread_rng().sample(rand::distributions::Alphanumeric)
}

/// A mark for each of `n` states, none set.
fn unmarked(n: usize) -> (r: Vec<bool>)
    ensures
        r@.len() == n,
        forall|i: int| 0 <= i < n ==> !#[trigger] r@[i],
{
    let mut r: Vec<bool> = Vec::new();
    let mut i: usize = 0;
    while i < n
        invariant
            i <= n,
            r@.len() == i,
            forall|k: int| 0 <= k < i ==> !#[trigger] r@[k],
        decreases n - i,
    {
        r.push(false);
        i += 1;
    }
    r
}

impl NFA {
    /// The list of states.
    pub closed spec fn spec_states(&self) -> Seq<State> {
        self.states@
    }

    /// The index of the start state.
    pub closed spec fn spec_start(&self) -> int {
        self.start as int
    }

    /// A complete automaton whose start state comes first.
    pub open spec fn wf(&self) -> bool {
        wf_states(self.spec_states()) && self.spec_start() == 0
    }

    /// Compiles a pattern into an automaton, or returns the parser's message
    /// for why it does not parse.
    pub fn from(regular_expression: &str) -> (r: Result<NFA, String>)
        ensures
            match parse_tokens(lex(regular_expression@)) {
                Some(ast) => {
                    &&& r is Ok
                    &&& r->Ok_0.wf()
                    &&& r->Ok_0.spec_states() == compiled(ast)
                    &&& forall|s: Seq<char>|
                        accepts_from(r->Ok_0.spec_states(), s, (0, 0)) == #[trigger] denotes(ast, s)
                },
                None => r is Err && r->Err_0@ == parse_failure_text(lex(regular_expression@)),
            },
    {
        let mut nfa = NFA::new();
        let start = nfa.add_state(State::Start(None));
        nfa.start = start;
        let ast = match Parser::parse(Tokenizer::new(regular_expression)) {
            Ok(ast) => ast,
            Err(e) => return Err(e),
        };
        let body = nfa.gen_fragment(&ast);
        let ghost (sb, st, e) = thompson(ast, 1);
        nfa.join(nfa.start, body.start);
        let end = nfa.add_state(State::End);
        proof {
            lemma_thompson(ast, 1);
            assert(nfa.states@ =~= seq![State::Start(Some(st as StateId))] + sb + seq![State::End]);
            lemma_bind_ends_split(seq![State::Start(Some(st as StateId))], sb, seq![State::End], e, end as int);
            assert forall|k: int| 0 <= k < body.ends@.len() implies #[trigger] body.ends@[k]
                < nfa.states@.len() by {
                assert(ids(body.ends@)[k] == e[k]);
            }
        }
        nfa.join_fragment(&body.ends, end);
        proof {
            lemma_compiled_wf(ast);
            assert forall|s: Seq<char>| accepts_from(nfa.states@, s, (0, 0)) == #[trigger] denotes(ast, s) by {
                compiled_accepts_its_language(ast, s);
            }
        }
        Ok(nfa)
    }

    /// Whether the automaton accepts the whole of `input`.
    pub fn accepts(&self, input: &str) -> (r: bool)
        requires
            self.wf(),
        ensures
            r == accepts_from(self.spec_states(), input@, (0, 0)),
    {
        let output_vec = chars_of(input);
        let mut marks = unmarked(self.states.len());
        proof {
            lemma_avoid_nothing(self.states@, input@, (0, 0));
        }
        self.recursive_state(&output_vec, 0, 0, &mut marks, Ghost(Set::empty()))
    }

    /// Depth-first search for an accepting run from `current_state` at
    /// `position`, left branch first. `marks` holds the states met at this
    /// position on the way here: coming back to one of them would repeat the
    /// search it is part of, so that branch is not taken.
    fn recursive_state(
        &self,
        input_vec: &Vec<char>,
        current_state: StateId,
        position: usize,
        marks: &mut Vec<bool>,
        Ghost(seg): Ghost<Set<int>>,
    ) -> (r: bool)
        requires
            self.wf(),
            current_state < self.states@.len(),
            position <= input_vec@.len(),
            old(marks)@.len() == self.states@.len(),
            forall|i: int| 0 <= i < self.states@.len() ==> (old(marks)@[i] <==> seg.contains(i)),
            forall|x: int| seg.contains(x) ==> 0 <= x < self.states@.len(),
        ensures
            final(marks)@ == old(marks)@,
            r == accepts_avoiding(
                self.states@,
                input_vec@,
                (current_state as int, position as int),
                seg,
            ),
        decreases input_vec@.len() - position, self.states@.len() - seg.len(),
    {
        let ghost ss = self.states@;
        let ghost input = input_vec@;
        let ghost c = (current_state as int, position as int);
        let ghost n = ss.len() as int;
        proof {
            lemma_int_range(0, n);
            assert(seg.insert(current_state as int).subset_of(set_int_range(0, n)));
            lemma_len_subset(seg.insert(current_state as int), set_int_range(0, n));
            assert(state_ok(ss[c.0], n));
        }
        if marks[current_state] {
            proof {
                if accepts_avoiding(ss, input, c, seg) {
                    let run = choose|run: Seq<(int, int)>|
                        #[trigger] is_run(ss, input, run) && run[0] == c
                            && avoids(run, seg, c.1);
                    assert(run[0].1 == c.1);
                }
            }
            return false;
        }
        proof {
            lemma_len_subset(seg, set_int_range(0, n));
            assert(seg.insert(current_state as int).len() == seg.len() + 1);
        }
        match self.states[current_state] {
            State::End => {
                proof {
                    if !is_accepting(ss, input, c) && accepts_avoiding(ss, input, c, seg) {
                        let d = lemma_first_step(ss, input, c, seg);
                    }
                    if is_accepting(ss, input, c) {
                        let run = seq![c];
                        assert(is_run(ss, input, run) && avoids(run, seg, c.1));
                    }
                }
                position >= input_vec.len()
            },
            State::Start(Some(next)) => {
                marks.set(current_state, true);
                let found = self.recursive_state(
                    input_vec,
                    next,
                    position,
                    marks,
                    Ghost(seg.insert(current_state as int)),
                );
                marks.set(current_state, false);
                proof {
                    assert(marks@ =~= old(marks)@);
                    let d = (next as int, position as int);
                    if found {
                        lemma_extend(ss, input, c, d, seg);
                    } else if accepts_avoiding(ss, input, c, seg) {
                        let d2 = lemma_first_step(ss, input, c, seg);
                    }
                }
                found
            },
            State::Match(label, Some(next)) => {
                let consumed = position < input_vec.len() && match label {
                    Char::Any => true,
                    Char::Literal(character) => input_vec[position] == character,
                };
                if consumed {
                    let mut fresh = unmarked(self.states.len());
                    let found = self.recursive_state(
                        input_vec,
                        next,
                        position + 1,
                        &mut fresh,
                        Ghost(Set::empty()),
                    );
                    proof {
                        let d = (next as int, position + 1);
                        if found {
                            lemma_extend(ss, input, c, d, seg);
                        } else if accepts_avoiding(ss, input, c, seg) {
                            let d2 = lemma_first_step(ss, input, c, seg);
                        }
                    }
                    found
                } else {
                    proof {
                        if accepts_avoiding(ss, input, c, seg) {
                            let d2 = lemma_first_step(ss, input, c, seg);
                        }
                    }
                    false
                }
            },
            State::Split(Some(lhs), Some(rhs)) => {
                marks.set(current_state, true);
                let left = self.recursive_state(
                    input_vec,
                    lhs,
                    position,
                    marks,
                    Ghost(seg.insert(current_state as int)),
                );
                if left {
                    marks.set(current_state, false);
                    proof {
                        assert(marks@ =~= old(marks)@);
                        lemma_extend(ss, input, c, (lhs as int, position as int), seg);
                    }
                    return true;
                }
                let right = self.recursive_state(
                    input_vec,
                    rhs,
                    position,
                    marks,
                    Ghost(seg.insert(current_state as int)),
                );
                marks.set(current_state, false);
                proof {
                    assert(marks@ =~= old(marks)@);
                    if right {
                        lemma_extend(ss, input, c, (rhs as int, position as int), seg);
                    } else if accepts_avoiding(ss, input, c, seg) {
                        let d2 = lemma_first_step(ss, input, c, seg);
                    }
                }
                right
            },
            _ => false,
        }
    }

    /// The automaton for the catenation of the two languages, made from the
    /// two automata without parsing again.
    pub fn concat(self, rhs: NFA) -> (r: NFA)
        requires
            self.wf(),
            rhs.wf(),
            self.spec_states().len() - 1 + rhs.spec_states().len() <= usize::MAX,
        ensures
            r.wf(),
            r.spec_states() == concat_states(self.spec_states(), rhs.spec_states()),
    {
        let ghost a = self.states@;
        let ghost b = rhs.states@;
        let mut nfa = self;
        nfa.states.pop();
        let rhs_offset = nfa.states.len();
        let mut nfa_rhs = rhs;
        let mut state: usize = 0;
        while state < nfa_rhs.states.len()
            invariant
                rhs_offset == a.len() - 1,
                wf_states(b),
                a.len() - 1 + b.len() <= usize::MAX,
                nfa_rhs.states@.len() == b.len(),
                state <= b.len(),
                forall|j: int| 0 <= j < state ==> #[trigger] nfa_rhs.states@[j] == relocate(b[j], a.len() - 1),
                forall|j: int| state <= j < b.len() ==> #[trigger] nfa_rhs.states@[j] == b[j],
            decreases b.len() - state,
        {
            proof {
                assert(state_ok(b[state as int], b.len() as int));
            }
            let moved = match nfa_rhs.states[state] {
                State::Start(Some(next)) => State::Start(Some(next + rhs_offset)),
                State::Match(Char::Any, Some(next)) => State::Match(Char::Literal('.'), Some(next + rhs_offset)),
                State::Match(Char::Literal(character), Some(next)) => State::Match(
                    Char::Literal(character),
                    Some(next + rhs_offset),
                ),
                State::Split(Some(lhs), Some(rhs)) => State::Split(
                    Some(lhs + rhs_offset),
                    Some(rhs + rhs_offset),
                ),
                other => other,
            };
            nfa_rhs.states.set(state, moved);
            state += 1;
        }
        nfa.states.append(&mut nfa_rhs.states);
        proof {
            let ss = nfa.states@;
            let n = ss.len() as int;
            assert(ss =~= concat_states(a, b));
            assert forall|i: int| 0 <= i < n implies state_ok(#[trigger] ss[i], n) && (i < n - 1
                ==> !(ss[i] is End)) by {
                if i < a.len() - 1 {
                    assert(ss[i] == a[i]);
                    assert(state_ok(a[i], a.len() as int));
                } else {
                    assert(ss[i] == relocate(b[i - (a.len() - 1)], a.len() - 1));
                    assert(state_ok(b[i - (a.len() - 1)], b.len() as int));
                }
            }
            assert(ss.last() == relocate(b.last(), a.len() - 1));
        }
        nfa
    }

    /// What a walk does at `current`: the state it moves to and the character
    /// it emits. `coin` picks the branch of a split, `symbol` is what a
    /// wildcard emits.
    pub fn walk_step(&self, current: StateId, coin: bool, symbol: char) -> (r: (StateId, Option<char>))
        requires
            self.wf(),
            current < self.spec_states().len(),
        ensures
            match self.spec_states()[current as int] {
                State::Start(Some(n)) => r == (n, None::<char>),
                State::Match(Char::Literal(c), Some(n)) => r == (n, Some(c)),
                State::Match(Char::Any, Some(n)) => r == (n, Some(symbol)),
                State::Split(Some(l), Some(rr)) => r == (if coin { l } else { rr }, None::<char>),
                _ => r == (current, None::<char>),
            },
    {
        match self.states[current] {
            State::Start(Some(next)) => (next, None),
            State::Match(Char::Literal(character), Some(next)) => (next, Some(character)),
            State::Match(Char::Any, Some(next)) => (next, Some(symbol)),
            State::Split(Some(lhs), Some(rhs)) => if coin {
                (lhs, None)
            } else {
                (rhs, None)
            },
            _ => (current, None),
        }
    }

    /// A random walk from `Start` that flips a fair coin at each split and
    /// emits a random letter or digit for each wildcard; the string it spells
    /// once it reaches `End`, or `None` if that takes more than `max_steps`
    /// moves. The result is the walk that the coins and symbols drawn decide,
    /// whatever would have been drawn after them, so `None` comes only from
    /// running out of moves; whatever it returns is accepted.
    pub fn gen(&self, max_steps: usize) -> (r: Option<String>)
        requires
            self.wf(),
        ensures
            exists|coins: Seq<bool>, symbols: Seq<char>|
                (forall|i: int| 0 <= i < symbols.len() ==> is_alphanumeric(#[trigger] symbols[i]))
                    && #[trigger] draws_decide(self.spec_states(), coins, symbols, max_steps as nat, text_of(r)),
            r is Some ==> accepts_from(self.spec_states(), r->Some_0@, (0, 0)),
            max_steps == 0 ==> r is None,
    {
        let ghost ss = self.states@;
        let mut output = String::new();
        let mut current: usize = 0;
        let mut steps: usize = 0;
        let ghost mut run: Seq<(int, int)> = seq![(0, 0)];
        let ghost mut coins: Seq<bool> = Seq::empty();
        let ghost mut symbols: Seq<char> = Seq::empty();
        proof {
            assert forall|cs: Seq<bool>, ys: Seq<char>| #[trigger] walk(ss, 0, coins + cs, symbols + ys, max_steps as nat)
                == emit_then(output@, walk(ss, 0, cs, ys, max_steps as nat)) by {
                assert(coins + cs =~= cs);
                assert(symbols + ys =~= ys);
                if let Some(x) = walk(ss, 0, cs, ys, max_steps as nat) {
                    assert(output@ + x =~= x);
                }
            }
        }
        while steps < max_steps
            invariant
                self.wf(),
                ss == self.states@,
                current < ss.len(),
                steps <= max_steps,
                run.len() >= 1,
                run[0] == (0int, 0int),
                run.last() == (current as int, output@.len() as int),
                forall|i: int| 0 <= i < run.len() - 1 ==> step(ss, output@, #[trigger] run[i], run[i + 1]),
                walk_so_far(ss, coins, symbols, output@, current as int, (max_steps - steps) as nat, max_steps as nat),
                forall|i: int| 0 <= i < symbols.len() ==> is_alphanumeric(#[trigger] symbols[i]),
            decreases max_steps - steps,
        {
            let here = self.states[current];
            if here == State::End {
                proof {
                    assert(is_run(ss, output@, run));
                    assert(output@ + Seq::<char>::empty() =~= output@);
                    assert(draws_decide(ss, coins, symbols, max_steps as nat, text_of(Some(output)))) by {
                        assert forall|cs: Seq<bool>, ys: Seq<char>|
                        #[trigger] walk(ss, 0, coins + cs, symbols + ys, max_steps as nat) == text_of(
                            Some(output),
                        ) by {
                        assert(walk(ss, current as int, cs, ys, (max_steps - steps) as nat) == Some(
                            Seq::<char>::empty(),
                        ));
                    }
                    }
                }
                return Some(output);
            }
            let coin = match here {
                State::Split(_, _) => random_coin(),
                _ => false,
            };
            let symbol = match here {
                State::Match(Char::Any, _) => random_alphanumeric(),
                _ => 'a',
            };
            let ghost before = output@;
            let (next, emitted) = self.walk_step(current, coin, symbol);
            match emitted {
                Some(ch) => output.push(ch),
                None => {},
            }
            proof {
                assert(state_ok(ss[current as int], ss.len() as int));
                lemma_walk_advance(
                    ss,
                    coins,
                    symbols,
                    before,
                    current as int,
                    (max_steps - steps) as nat,
                    max_steps as nat,
                    coin,
                    symbol,
                );
                match here {
                    State::Split(_, _) => {
                        coins = coins.push(coin);
                    },
                    State::Match(Char::Any, _) => {
                        assert forall|i: int| 0 <= i < symbols.push(symbol).len() implies is_alphanumeric(
                            #[trigger] symbols.push(symbol)[i],
                        ) by {
                            if i < symbols.len() {
                                assert(symbols.push(symbol)[i] == symbols[i]);
                            }
                        }
                        symbols = symbols.push(symbol);
                    },
                    _ => {},
                }
                assert((max_steps - (steps + 1)) as nat == ((max_steps - steps) as nat - 1) as nat);
                let c = (current as int, before.len() as int);
                let d = (next as int, output@.len() as int);
                assert(step(ss, output@, c, d));
                lemma_walk_extend(ss, before, output@, run, d);
                let run2 = run.push(d);
                run = run2;
            }
            current = next;
            steps += 1;
        }
        proof {
            assert(draws_decide(ss, coins, symbols, max_steps as nat, text_of(None))) by {
                assert forall|cs: Seq<bool>, ys: Seq<char>|
                    #[trigger] walk(ss, 0, coins + cs, symbols + ys, max_steps as nat) == text_of(None) by {
                    assert(walk(ss, current as int, cs, ys, 0) is None);
                }
            }
        }
        None
    }

    /// The state list, for tools that draw or inspect the automaton.
    pub fn states(&self) -> (r: &Vec<State>)
        ensures
            r@ == self.spec_states(),
    {
        &self.states
    }

    /// The index of the start state.
    pub fn start(&self) -> (r: StateId)
        ensures
            r as int == self.spec_start(),
    {
        self.start
    }

    fn new() -> (r: NFA)
        ensures
            r.states@ == Seq::<State>::empty(),
            r.start == 0,
    {
        NFA { states: Vec::new(), start: 0 }
    }

    /// Appends a state and returns its index.
    fn add_state(&mut self, state: State) -> (id: StateId)
        ensures
            final(self).states@ == old(self).states@.push(state),
            final(self).start == old(self).start,
            id == old(self).states@.len(),
    {
        let idx = self.states.len();
        self.states.push(state);
        idx
    }

    /// Binds the last edge of state `from` to `to`.
    fn join(&mut self, from: StateId, to: StateId)
        requires
            from < old(self).states@.len(),
        ensures
            final(self).states@ == old(self).states@.update(
                from as int,
                bind(old(self).states@[from as int], to as int),
            ),
            final(self).start == old(self).start,
    {
        let bound = match self.states[from] {
            State::Start(_) => State::Start(Some(to)),
            State::Match(c, _) => State::Match(c, Some(to)),
            State::Split(l, _) => State::Split(l, Some(to)),
            State::End => State::End,
        };
        self.states.set(from, bound);
    }

    /// Binds the last edge of each listed end to `to`.
    fn join_fragment(&mut self, ends: &Vec<StateId>, to: StateId)
        requires
            forall|k: int| 0 <= k < ends@.len() ==> #[trigger] ends@[k] < old(self).states@.len(),
        ensures
            final(self).states@ == bind_ends(old(self).states@, 0, ids(ends@), to as int),
            final(self).start == old(self).start,
    {
        let ghost orig = self.states@;
        let mut j: usize = 0;
        proof {
            assert(orig =~= bind_ends(orig, 0, ids(ends@.take(0)), to as int));
        }
        while j < ends.len()
            invariant
                j <= ends@.len(),
                self.start == old(self).start,
                orig == old(self).states@,
                forall|k: int| 0 <= k < ends@.len() ==> #[trigger] ends@[k] < orig.len(),
                self.states@ == bind_ends(orig, 0, ids(ends@.take(j as int)), to as int),
            decreases ends@.len() - j,
        {
            let e = ends[j];
            let ghost before = self.states@;
            self.join(e, to);
            proof {
                let prev = ids(ends@.take(j as int));
                let next = ids(ends@.take(j + 1));
                assert(next =~= prev.push(e as int));
                assert forall|i: int| 0 <= i < orig.len() implies self.states@[i] == bind_ends(
                    orig,
                    0,
                    next,
                    to as int,
                )[i] by {
                    assert(next[j as int] == e);
                    if i != e {
                        assert(self.states@[i] == before[i]);
                        if prev.contains(i) {
                            let k = choose|k: int| 0 <= k < prev.len() && prev[k] == i;
                            assert(next[k] == i);
                        }
                        if next.contains(i) {
                            let k = choose|k: int| 0 <= k < next.len() && next[k] == i;
                            assert(prev[k] == i);
                        }
                    }
                }
                assert(self.states@ =~= bind_ends(orig, 0, next, to as int));
            }
            j += 1;
        }
        proof {
            assert(ends@.take(ends@.len() as int) =~= ends@);
        }
    }

    fn create_fragment(&self, state: StateId, ends: Vec<StateId>) -> (f: Fragment)
        ensures
            f.start == state,
            f.ends == ends,
    {
        Fragment { start: state, ends }
    }

    /// Appends the states of `ast` and returns its fragment.
    fn gen_fragment(&mut self, ast: &AST) -> (f: Fragment)
        ensures
            final(self).start == old(self).start,
            final(self).states@ == old(self).states@ + thompson(*ast, old(self).states@.len() as int).0,
            f.start as int == thompson(*ast, old(self).states@.len() as int).1,
            ids(f.ends@) == thompson(*ast, old(self).states@.len() as int).2,
            final(self).states@.len() <= usize::MAX + 1,
        decreases ast,
    {
        let ghost base = self.states@.len() as int;
        match ast {
            AST::AnyChar => {
                let state = self.add_state(State::Match(Char::Any, None));
                proof {
                    assert(ids(seq![state]) =~= seq![base]);
                }
                self.create_fragment(state, vec![state])
            },
            AST::Char(c) => {
                let state = self.add_state(State::Match(Char::Literal(*c), None));
                proof {
                    assert(ids(seq![state]) =~= seq![base]);
                }
                self.create_fragment(state, vec![state])
            },
            AST::Catenation(lhs, rhs) => {
                let fragment_lhs = self.gen_fragment(lhs);
                let ghost mid = self.states@;
                let fragment_rhs = self.gen_fragment(rhs);
                let ghost (sl, stl, el) = thompson(**lhs, base);
                let ghost (sr, str, er) = thompson(**rhs, base + sl.len());
                proof {
                    lemma_thompson(**lhs, base);
                    assert(self.states@ == old(self).states@ + sl + sr);
                    lemma_bind_ends_split(old(self).states@, sl, sr, el, str);
                    assert forall|k: int| 0 <= k < fragment_lhs.ends@.len() implies #[trigger] fragment_lhs.ends@[k]
                        < self.states@.len() by {
                        assert(ids(fragment_lhs.ends@)[k] == el[k]);
                    }
                }
                self.join_fragment(&fragment_lhs.ends, fragment_rhs.start);
                self.create_fragment(fragment_lhs.start, fragment_rhs.ends)
            },
            AST::Alternation(lhs, rhs) => {
                let fragment_lhs = self.gen_fragment(lhs);
                let fragment_rhs = self.gen_fragment(rhs);
                let lhs_or_rhs = self.add_state(
                    State::Split(Some(fragment_lhs.start), Some(fragment_rhs.start)),
                );
                let mut lhs_vec = fragment_lhs.ends;
                let mut rhs_vec = fragment_rhs.ends;
                let ghost (el, er) = (lhs_vec@, rhs_vec@);
                lhs_vec.append(&mut rhs_vec);
                proof {
                    assert(ids(el + er) =~= ids(el) + ids(er));
                    assert(self.states@ =~= old(self).states@ + thompson(*ast, base).0);
                }
                self.create_fragment(lhs_or_rhs, lhs_vec)
            },
            AST::Closure(value) => {
                let fragment = self.gen_fragment(value);
                let ghost (sb, stb, eb) = thompson(**value, base);
                let state = self.add_state(State::Split(Some(fragment.start), None));
                proof {
                    lemma_thompson(**value, base);
                    lemma_bind_ends_split(
                        old(self).states@,
                        sb,
                        seq![State::Split(Some(fragment.start), None)],
                        eb,
                        state as int,
                    );
                    assert(self.states@ =~= old(self).states@ + sb + seq![
                        State::Split(Some(fragment.start), None),
                    ]);
                    assert forall|k: int| 0 <= k < fragment.ends@.len() implies #[trigger] fragment.ends@[k]
                        < self.states@.len() by {
                        assert(ids(fragment.ends@)[k] == eb[k]);
                    }
                }
                self.join_fragment(&fragment.ends, state);
                proof {
                    assert(ids(seq![state]) =~= seq![state as int]);
                    assert(self.states@ =~= old(self).states@ + thompson(*ast, base).0);
                }
                self.create_fragment(state, vec![state])
            },
            AST::OneOrMore(value) => {
                let fragment = self.gen_fragment(value);
                let ghost (sb, stb, eb) = thompson(**value, base);
                let state = self.add_state(State::Split(Some(fragment.start), None));
                proof {
                    lemma_thompson(**value, base);
                    lemma_bind_ends_split(
                        old(self).states@,
                        sb,
                        seq![State::Split(Some(fragment.start), None)],
                        eb,
                        state as int,
                    );
                    assert(self.states@ =~= old(self).states@ + sb + seq![
                        State::Split(Some(fragment.start), None),
                    ]);
                    assert forall|k: int| 0 <= k < fragment.ends@.len() implies #[trigger] fragment.ends@[k]
                        < self.states@.len() by {
                        assert(ids(fragment.ends@)[k] == eb[k]);
                    }
                }
                self.join_fragment(&fragment.ends, state);
                proof {
                    assert(ids(seq![state]) =~= seq![state as int]);
                    assert(self.states@ =~= old(self).states@ + thompson(*ast, base).0);
                }
                self.create_fragment(fragment.start, vec![state])
            },
        }
    }
}

} // verus!

verus! {

impl core::ops::Add for NFA {
    type Output = NFA;

    fn add(self, rhs: NFA) -> (r: NFA)
        ensures
            r.wf(),
            r.spec_states() == concat_states(self.spec_states(), rhs.spec_states()),
    {
        self.concat(rhs)
    }
}

impl vstd::std_specs::ops::AddSpecImpl for NFA {
    open spec fn obeys_add_spec() -> bool {
        false
    }

    open spec fn add_req(self, rhs: NFA) -> bool {
        &&& self.wf()
        &&& rhs.wf()
        &&& self.spec_states().len() - 1 + rhs.spec_states().len() <= usize::MAX
    }

    open spec fn add_spec(self, rhs: NFA) -> NFA {
        vstd::pervasive::arbitrary()
    }
}

} // verus!
