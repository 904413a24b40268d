use vstd::prelude::*;
use crate::nfa::{
    bind_ends, compiled, fragment_state_ok, lemma_compiled_wf, lemma_thompson, thompson, Char, State,
    StateId,
};
use crate::parser::AST;
use crate::run::{
    accepts_from, is_run, lemma_accepts_end, lemma_accepts_single, lemma_run_skip, step, Config,
};

verus! {

/// The strings that a tree denotes.
pub open spec fn denotes(ast: AST, w: Seq<char>) -> bool
    decreases ast, 0nat, w.len(),
{
    match ast {
        AST::Char(c) => w.len() == 1 && w[0] == c,
        AST::AnyChar => w.len() == 1,
        AST::Catenation(l, r) => exists|k: int|
            0 <= k <= w.len() && denotes(*l, #[trigger] w.take(k)) && denotes(*r, w.skip(k)),
        AST::Alternation(l, r) => denotes(*l, w) || denotes(*r, w),
        AST::Closure(b) => denotes_star(*b, w),
        AST::OneOrMore(b) => exists|k: int|
            0 <= k <= w.len() && denotes(*b, #[trigger] w.take(k)) && denotes_star(*b, w.skip(k)),
    }
}

/// The strings made of any number of non-empty strings that `b` denotes.
pub open spec fn denotes_star(b: AST, w: Seq<char>) -> bool
    decreases b, 1nat, w.len(),
{
    w.len() == 0 || exists|k: int|
        1 <= k <= w.len() && denotes(b, #[trigger] w.take(k)) && denotes_star(b, w.skip(k))
}

/// A sequence of moves.
pub open spec fn is_path(ss: Seq<State>, s: Seq<char>, p: Seq<Config>) -> bool {
    &&& p.len() >= 1
    &&& forall|k: int| 0 <= k < p.len() - 1 ==> #[trigger] step(ss, s, p[k], p[k + 1])
}

/// The path meets state `x` at its end and not before.
pub open spec fn first_reach(p: Seq<Config>, x: int) -> bool {
    &&& p.last().0 == x
    &&& forall|k: int| 0 <= k < p.len() - 1 ==> (#[trigger] p[k]).0 != x
}

/// The construction of `ast` sits in `ss` from index `base`, with its ends
/// bound to `to`, a state outside it.
#[verifier::opaque]
pub open spec fn embedded(ss: Seq<State>, ast: AST, base: int, to: int) -> bool {
    let (fs, st, ends) = thompson(ast, base);
    &&& 0 <= base
    &&& base + fs.len() <= ss.len()
    &&& ss.len() <= usize::MAX + 1
    &&& 0 <= to < ss.len()
    &&& !(base <= to < base + fs.len())
    &&& forall|i: int| 0 <= i < fs.len() ==> ss[base + i] == #[trigger] bind_ends(fs, base, ends, to)[i]
}

/// Where an embedded construction and its target lie.
proof fn lemma_embedded_basics(ss: Seq<State>, ast: AST, base: int, to: int)
    requires
        embedded(ss, ast, base, to),
    ensures
        0 <= base,
        base + thompson(ast, base).0.len() <= ss.len() <= usize::MAX + 1,
        0 <= to < ss.len(),
        !(base <= to < base + thompson(ast, base).0.len()),
        base <= thompson(ast, base).1 < base + thompson(ast, base).0.len(),
{
    reveal(embedded);
    lemma_thompson(ast, base);
}

/// The first state of an embedded construction, with its ends bound.
proof fn lemma_embedded_first(ss: Seq<State>, ast: AST, base: int, to: int)
    requires
        embedded(ss, ast, base, to),
    ensures
        ss[base] == bind_ends(thompson(ast, base).0, base, thompson(ast, base).2, to)[0],
{
    reveal(embedded);
    lemma_thompson(ast, base);
    assert(ss[base + 0] == bind_ends(thompson(ast, base).0, base, thompson(ast, base).2, to)[0]);
}

/// A move from a state of an embedded construction stays inside it or goes
/// to where its ends are bound.
proof fn lemma_fragment_step(ss: Seq<State>, s: Seq<char>, ast: AST, base: int, to: int, a: Config, b: Config)
    requires
        embedded(ss, ast, base, to),
        base <= a.0 < base + thompson(ast, base).0.len(),
        step(ss, s, a, b),
    ensures
        (base <= b.0 < base + thompson(ast, base).0.len()) || b.0 == to,
{
    reveal(embedded);
    let (fs, st, ends) = thompson(ast, base);
    lemma_thompson(ast, base);
    let i = a.0 - base;
    assert(ss[base + i] == bind_ends(fs, base, ends, to)[i]);
    assert(fragment_state_ok(fs[i], base + i, base, fs.len() as int, ends));
}

/// The two halves of an embedded catenation are embedded: the left one
/// bound to the entry of the right one.
proof fn lemma_embedded_catenation(ss: Seq<State>, l: AST, r: AST, base: int, to: int)
    requires
        embedded(ss, AST::Catenation(Box::new(l), Box::new(r)), base, to),
    ensures
        embedded(ss, l, base, thompson(r, base + thompson(l, base).0.len()).1),
        embedded(ss, r, base + thompson(l, base).0.len(), to),
        thompson(AST::Catenation(Box::new(l), Box::new(r)), base).1 == thompson(l, base).1,
{
    reveal(embedded);
    let ast = AST::Catenation(Box::new(l), Box::new(r));
    let (fs, st, ends) = thompson(ast, base);
    let (sl, stl, el) = thompson(l, base);
    let (sr, str, er) = thompson(r, base + sl.len());
    lemma_thompson(l, base);
    lemma_thompson(r, base + sl.len());
    assert forall|i: int| 0 <= i < sl.len() implies ss[base + i] == #[trigger] bind_ends(sl, base, el, str)[i] by {
        assert(ss[base + i] == bind_ends(fs, base, ends, to)[i]);
        assert(fs[i] == bind_ends(sl, base, el, str)[i]);
        if er.contains(base + i) {
            let k = choose|k: int| 0 <= k < er.len() && er[k] == base + i;
        }
    }
    assert forall|i: int| 0 <= i < sr.len() implies ss[base + sl.len() + i] == #[trigger] bind_ends(
        sr,
        base + sl.len(),
        er,
        to,
    )[i] by {
        assert(ss[base + (sl.len() + i)] == bind_ends(fs, base, ends, to)[sl.len() + i]);
        assert(fs[sl.len() + i] == sr[i]);
    }
}

/// The two branches of an embedded alternation are embedded with the same
/// target, and its split leads to their entries.
proof fn lemma_embedded_alternation(ss: Seq<State>, l: AST, r: AST, base: int, to: int)
    requires
        embedded(ss, AST::Alternation(Box::new(l), Box::new(r)), base, to),
    ensures
        embedded(ss, l, base, to),
        embedded(ss, r, base + thompson(l, base).0.len(), to),
        ss[thompson(AST::Alternation(Box::new(l), Box::new(r)), base).1] == State::Split(
            Some(thompson(l, base).1 as StateId),
            Some(thompson(r, base + thompson(l, base).0.len()).1 as StateId),
        ),
{
    reveal(embedded);
    let ast = AST::Alternation(Box::new(l), Box::new(r));
    let (fs, st, ends) = thompson(ast, base);
    let (sl, stl, el) = thompson(l, base);
    let (sr, str, er) = thompson(r, base + sl.len());
    lemma_thompson(l, base);
    lemma_thompson(r, base + sl.len());
    assert forall|i: int| 0 <= i < sl.len() implies ss[base + i] == #[trigger] bind_ends(sl, base, el, to)[i] by {
        assert(ss[base + i] == bind_ends(fs, base, ends, to)[i]);
        assert(fs[i] == sl[i]);
        if ends.contains(base + i) {
            let k = choose|k: int| 0 <= k < ends.len() && ends[k] == base + i;
            if k >= el.len() {
                assert(ends[k] == er[k - el.len()]);
            } else {
                assert(el[k] == base + i);
            }
        }
        if el.contains(base + i) {
            let k = choose|k: int| 0 <= k < el.len() && el[k] == base + i;
            assert(ends[k] == base + i);
        }
    }
    assert forall|i: int| 0 <= i < sr.len() implies ss[base + sl.len() + i] == #[trigger] bind_ends(
        sr,
        base + sl.len(),
        er,
        to,
    )[i] by {
        assert(ss[base + (sl.len() + i)] == bind_ends(fs, base, ends, to)[sl.len() + i]);
        assert(fs[sl.len() + i] == sr[i]);
        let x = base + sl.len() + i;
        if ends.contains(x) {
            let k = choose|k: int| 0 <= k < ends.len() && ends[k] == x;
            if k < el.len() {
                assert(ends[k] == el[k]);
            } else {
                assert(er[k - el.len()] == x);
            }
        }
        if er.contains(x) {
            let k = choose|k: int| 0 <= k < er.len() && er[k] == x;
            assert(ends[el.len() + k] == x);
        }
    }
    let n = (sl.len() + sr.len()) as int;
    assert(ss[base + n] == bind_ends(fs, base, ends, to)[n]);
    assert(fs[n] == State::Split(Some(stl as StateId), Some(str as StateId)));
    if ends.contains(base + n) {
        let k = choose|k: int| 0 <= k < ends.len() && ends[k] == base + n;
        if k < el.len() {
            assert(ends[k] == el[k]);
        } else {
            assert(ends[k] == er[k - el.len()]);
        }
    }
}

/// The body of an embedded closure or one-or-more is embedded, bound to the
/// split after it, and the split leads back into the body or on to `to`.
proof fn lemma_embedded_loop(ss: Seq<State>, ast: AST, b: AST, base: int, to: int)
    requires
        embedded(ss, ast, base, to),
        ast == AST::Closure(Box::new(b)) || ast == AST::OneOrMore(Box::new(b)),
    ensures
        embedded(ss, b, base, base + thompson(b, base).0.len()),
        embedded(ss, AST::Closure(Box::new(b)), base, to),
        ss[base + thompson(b, base).0.len()] == State::Split(
            Some(thompson(b, base).1 as StateId),
            Some(to as StateId),
        ),
{
    reveal(embedded);
    let (fs, st, ends) = thompson(ast, base);
    let (sb, stb, eb) = thompson(b, base);
    let sp = base + sb.len();
    lemma_thompson(b, base);
    assert(ends == seq![sp]);
    assert forall|i: int| 0 <= i < sb.len() implies ss[base + i] == #[trigger] bind_ends(sb, base, eb, sp)[i] by {
        assert(ss[base + i] == bind_ends(fs, base, ends, to)[i]);
        assert(fs[i] == bind_ends(sb, base, eb, sp)[i]);
    }
    assert(ss[base + sb.len()] == bind_ends(fs, base, ends, to)[sb.len() as int]);
    assert(ends[0] == sp);
    assert(thompson(AST::Closure(Box::new(b)), base).0 == fs);
    assert(thompson(AST::Closure(Box::new(b)), base).2 == ends);
}

/// Positions never decrease along a path, and never pass the end of the
/// input.
proof fn lemma_path_positions(ss: Seq<State>, s: Seq<char>, p: Seq<Config>, k: int)
    requires
        is_path(ss, s, p),
        0 <= k < p.len(),
        0 <= p[0].1 <= s.len(),
    ensures
        p[0].1 <= p[k].1 <= s.len(),
    decreases k,
{
    if k > 0 {
        lemma_path_positions(ss, s, p, k - 1);
        assert(step(ss, s, p[k - 1], p[k - 1 + 1]));
    }
}

proof fn lemma_subpath(ss: Seq<State>, s: Seq<char>, p: Seq<Config>, a: int, b: int)
    requires
        is_path(ss, s, p),
        0 <= a <= b < p.len(),
    ensures
        is_path(ss, s, p.subrange(a, b + 1)),
        p.subrange(a, b + 1)[0] == p[a],
        p.subrange(a, b + 1).last() == p[b],
{
    let q = p.subrange(a, b + 1);
    assert forall|k: int| 0 <= k < q.len() - 1 implies #[trigger] step(ss, s, q[k], q[k + 1]) by {
        assert(q[k] == p[a + k] && q[k + 1] == p[a + k + 1]);
    }
}

proof fn lemma_join(ss: Seq<State>, s: Seq<char>, p1: Seq<Config>, p2: Seq<Config>)
    requires
        is_path(ss, s, p1),
        is_path(ss, s, p2),
        p1.last() == p2[0],
    ensures
        is_path(ss, s, p1 + p2.skip(1)),
        (p1 + p2.skip(1))[0] == p1[0],
        (p1 + p2.skip(1)).last() == p2.last(),
{
    let q = p1 + p2.skip(1);
    assert forall|k: int| 0 <= k < q.len() - 1 implies #[trigger] step(ss, s, q[k], q[k + 1]) by {
        if k < p1.len() - 1 {
            assert(q[k] == p1[k] && q[k + 1] == p1[k + 1]);
        } else if k == p1.len() - 1 {
            assert(q[k] == p2[0] && q[k + 1] == p2[1]);
        } else {
            assert(q[k] == p2[k - p1.len() + 1] && q[k + 1] == p2[k - p1.len() + 2]);
        }
    }
    if p2.len() == 1 {
        assert(q.last() == p1.last());
    } else {
        assert(q.last() == p2[p2.len() - 1]);
    }
}

/// A path that starts inside an embedded construction and ends outside it
/// leaves it through `to`: the index where it first does so.
proof fn lemma_exit(ss: Seq<State>, s: Seq<char>, ast: AST, base: int, to: int, p: Seq<Config>, k0: int) -> (m: int)
    requires
        embedded(ss, ast, base, to),
        is_path(ss, s, p),
        0 <= k0 < p.len(),
        forall|k: int| 0 <= k <= k0 ==> base <= (#[trigger] p[k]).0 < base + thompson(ast, base).0.len(),
        !(base <= p.last().0 < base + thompson(ast, base).0.len()),
    ensures
        k0 < m < p.len(),
        p[m].0 == to,
        forall|k: int| 0 <= k < m ==> base <= (#[trigger] p[k]).0 < base + thompson(ast, base).0.len(),
    decreases p.len() - k0,
{
    let n = thompson(ast, base).0.len();
    assert(k0 < p.len() - 1);
    assert(step(ss, s, p[k0], p[k0 + 1]));
    lemma_fragment_step(ss, s, ast, base, to, p[k0], p[k0 + 1]);
    if base <= p[k0 + 1].0 < base + n {
        lemma_exit(ss, s, ast, base, to, p, k0 + 1)
    } else {
        k0 + 1
    }
}

/// A path through an embedded construction, from its entry to the first
/// time it reaches `to`, spells a string that the tree denotes.
#[verifier::rlimit(50)]
proof fn lemma_sound(ss: Seq<State>, s: Seq<char>, ast: AST, base: int, to: int, p: Seq<Config>)
    requires
        embedded(ss, ast, base, to),
        is_path(ss, s, p),
        p[0].0 == thompson(ast, base).1,
        first_reach(p, to),
        0 <= p[0].1 <= s.len(),
    ensures
        denotes(ast, s.subrange(p[0].1, p.last().1)),
    decreases ast, 0nat, p.len(),
{
    let (fs, st, ends) = thompson(ast, base);
    let i = p[0].1;
    let j = p.last().1;
    let w = s.subrange(i, j);
    lemma_path_positions(ss, s, p, p.len() - 1);
    lemma_embedded_basics(ss, ast, base, to);
    assert(p.len() >= 2);
    assert(step(ss, s, p[0], p[1]));
    match ast {
        AST::Char(c) => {
            lemma_embedded_first(ss, ast, base, to);
            assert(ends[0] == base);
            assert(p.len() == 2);
            assert(w.len() == 1 && w[0] == s[i]);
            assert(fs[0] == State::Match(Char::Literal(c), None));
            assert(ss[base] == State::Match(Char::Literal(c), Some(to as StateId)));
            assert(s[i] == c);
            assert(denotes(ast, w));
        },
        AST::AnyChar => {
            lemma_embedded_first(ss, ast, base, to);
            assert(ends[0] == base);
            assert(p.len() == 2);
            assert(w.len() == 1);
            assert(denotes(ast, w));
        },
        AST::Catenation(l, r) => {
            lemma_embedded_catenation(ss, *l, *r, base, to);
            let nl = thompson(*l, base).0.len() as int;
            let str = thompson(*r, base + nl).1;
            lemma_embedded_basics(ss, *l, base, str);
            let m = lemma_exit(ss, s, *l, base, str, p, 0);
            let p1 = p.subrange(0, m + 1);
            lemma_subpath(ss, s, p, 0, m);
            let p2 = p.subrange(m, p.len() as int);
            lemma_subpath(ss, s, p, m, p.len() - 1);
            assert(p2 =~= p.subrange(m, p.len() - 1 + 1));
            assert forall|k: int| 0 <= k < p1.len() - 1 implies (#[trigger] p1[k]).0 != str by {
                assert(p1[k] == p[k]);
            }
            assert forall|k: int| 0 <= k < p2.len() - 1 implies (#[trigger] p2[k]).0 != to by {
                assert(p2[k] == p[m + k]);
            }
            lemma_path_positions(ss, s, p, m);
            lemma_path_positions(ss, s, p2, p2.len() - 1);
            lemma_sound(ss, s, *l, base, str, p1);
            lemma_sound(ss, s, *r, base + nl, to, p2);
            let pm = p[m].1;
            let k = pm - i;
            assert(w.take(k) =~= s.subrange(i, pm));
            assert(w.skip(k) =~= s.subrange(pm, j));
            assert(denotes(*l, w.take(k)) && denotes(*r, w.skip(k)));
        },
        AST::Alternation(l, r) => {
            lemma_embedded_alternation(ss, *l, *r, base, to);
            let nl = thompson(*l, base).0.len() as int;
            let q = p.subrange(1, p.len() as int);
            lemma_subpath(ss, s, p, 1, p.len() - 1);
            assert(q =~= p.subrange(1, p.len() - 1 + 1));
            assert forall|k: int| 0 <= k < q.len() - 1 implies (#[trigger] q[k]).0 != to by {
                assert(q[k] == p[1 + k]);
            }
            lemma_embedded_basics(ss, *l, base, to);
            lemma_embedded_basics(ss, *r, base + nl, to);
            assert(p[1].0 == thompson(*l, base).1 || p[1].0 == thompson(*r, base + nl).1);
            if p[1].0 == thompson(*l, base).1 {
                lemma_sound(ss, s, *l, base, to, q);
            } else {
                lemma_sound(ss, s, *r, base + nl, to, q);
            }
        },
        AST::Closure(b) => {
            lemma_embedded_loop(ss, ast, *b, base, to);
            lemma_star_sound(ss, s, *b, base, to, p);
        },
        AST::OneOrMore(b) => {
            lemma_embedded_loop(ss, ast, *b, base, to);
            let sp = base + thompson(*b, base).0.len();
            lemma_embedded_basics(ss, *b, base, sp);
            let m = lemma_exit(ss, s, *b, base, sp, p, 0);
            let p1 = p.subrange(0, m + 1);
            lemma_subpath(ss, s, p, 0, m);
            let p2 = p.subrange(m, p.len() as int);
            lemma_subpath(ss, s, p, m, p.len() - 1);
            assert(p2 =~= p.subrange(m, p.len() - 1 + 1));
            assert forall|k: int| 0 <= k < p1.len() - 1 implies (#[trigger] p1[k]).0 != sp by {
                assert(p1[k] == p[k]);
            }
            assert forall|k: int| 0 <= k < p2.len() - 1 implies (#[trigger] p2[k]).0 != to by {
                assert(p2[k] == p[m + k]);
            }
            lemma_path_positions(ss, s, p, m);
            lemma_path_positions(ss, s, p2, p2.len() - 1);
            lemma_sound(ss, s, *b, base, sp, p1);
            lemma_star_sound(ss, s, *b, base, to, p2);
            let pm = p[m].1;
            let k = pm - i;
            assert(w.take(k) =~= s.subrange(i, pm));
            assert(w.skip(k) =~= s.subrange(pm, j));
            assert(denotes(*b, w.take(k)) && denotes_star(*b, w.skip(k)));
        },
    }
}

/// A path from the split of an embedded closure to the first time it
/// reaches `to` spells a string of any number of strings of the body.
#[verifier::rlimit(50)]
proof fn lemma_star_sound(ss: Seq<State>, s: Seq<char>, b: AST, base: int, to: int, p: Seq<Config>)
    requires
        embedded(ss, AST::Closure(Box::new(b)), base, to),
        is_path(ss, s, p),
        p[0].0 == base + thompson(b, base).0.len(),
        first_reach(p, to),
        0 <= p[0].1 <= s.len(),
    ensures
        denotes_star(b, s.subrange(p[0].1, p.last().1)),
    decreases b, 1nat, p.len(),
{
    let closure = AST::Closure(Box::new(b));
    lemma_embedded_loop(ss, closure, b, base, to);
    let sp = base + thompson(b, base).0.len();
    let stb = thompson(b, base).1;
    let i = p[0].1;
    let j = p.last().1;
    let w = s.subrange(i, j);
    lemma_path_positions(ss, s, p, p.len() - 1);
    lemma_embedded_basics(ss, closure, base, to);
    lemma_embedded_basics(ss, b, base, sp);
    assert(p.len() >= 2);
    assert(step(ss, s, p[0], p[1]));
    if p[1].0 == to {
        assert(p.len() == 2);
        assert(w.len() == 0);
        assert(denotes_star(b, w));
    } else {
        let q = p.subrange(1, p.len() as int);
        lemma_subpath(ss, s, p, 1, p.len() - 1);
        assert(q =~= p.subrange(1, p.len() - 1 + 1));
        assert(q[0] == p[1]);
        assert(q.last() == p.last());
        let m = lemma_exit(ss, s, b, base, sp, q, 0);
        let q1 = q.subrange(0, m + 1);
        lemma_subpath(ss, s, q, 0, m);
        let q2 = q.subrange(m, q.len() as int);
        lemma_subpath(ss, s, q, m, q.len() - 1);
        assert(q2 =~= q.subrange(m, q.len() - 1 + 1));
        assert forall|k: int| 0 <= k < q1.len() - 1 implies (#[trigger] q1[k]).0 != sp by {
            assert(q1[k] == q[k]);
        }
        assert forall|k: int| 0 <= k < q2.len() - 1 implies (#[trigger] q2[k]).0 != to by {
            assert(q2[k] == p[1 + m + k]);
        }
        lemma_path_positions(ss, s, q, m);
        lemma_path_positions(ss, s, q2, q2.len() - 1);
        lemma_sound(ss, s, b, base, sp, q1);
        lemma_star_sound(ss, s, b, base, to, q2);
        let pm = q[m].1;
        assert(q[0].1 == i);
        assert(i <= pm <= j);
        assert(q2.last() == p.last());
        if pm == i {
            assert(s.subrange(pm, j) == w);
        } else {
            let k = pm - i;
            assert(w.take(k) =~= s.subrange(i, pm));
            assert(w.skip(k) =~= s.subrange(pm, j));
            assert(denotes(b, w.take(k)) && denotes_star(b, w.skip(k)));
            assert(1 <= k <= w.len());
        }
    }
}

/// A one-move path.
proof fn lemma_single(ss: Seq<State>, s: Seq<char>, a: Config, b: Config)
    requires
        step(ss, s, a, b),
    ensures
        is_path(ss, s, seq![a, b]),
{
    assert(seq![a, b][0] == a && seq![a, b][1] == b);
}

/// A string that the tree denotes is spelled by a path through its embedded
/// construction, from its entry to `to`.
#[verifier::rlimit(50)]
proof fn lemma_complete(ss: Seq<State>, s: Seq<char>, ast: AST, base: int, to: int, i: int, j: int) -> (p: Seq<Config>)
    requires
        embedded(ss, ast, base, to),
        0 <= i <= j <= s.len(),
        denotes(ast, s.subrange(i, j)),
    ensures
        is_path(ss, s, p),
        p[0] == (thompson(ast, base).1, i),
        p.last() == (to, j),
    decreases ast, 0nat, j - i,
{
    let w = s.subrange(i, j);
    let (fs, st, ends) = thompson(ast, base);
    lemma_embedded_basics(ss, ast, base, to);
    match ast {
        AST::Char(c) => {
            lemma_embedded_first(ss, ast, base, to);
            assert(ends[0] == base);
            assert(fs[0] == State::Match(Char::Literal(c), None));
            assert(w[0] == s[i]);
            lemma_single(ss, s, (base, i), (to, j));
            seq![(base, i), (to, j)]
        },
        AST::AnyChar => {
            lemma_embedded_first(ss, ast, base, to);
            assert(ends[0] == base);
            lemma_single(ss, s, (base, i), (to, j));
            seq![(base, i), (to, j)]
        },
        AST::Catenation(l, r) => {
            lemma_embedded_catenation(ss, *l, *r, base, to);
            let nl = thompson(*l, base).0.len() as int;
            let str = thompson(*r, base + nl).1;
            let k = choose|k: int| 0 <= k <= w.len() && denotes(*l, #[trigger] w.take(k)) && denotes(*r, w.skip(k));
            let m = i + k;
            assert(w.take(k) =~= s.subrange(i, m));
            assert(w.skip(k) =~= s.subrange(m, j));
            let p1 = lemma_complete(ss, s, *l, base, str, i, m);
            let p2 = lemma_complete(ss, s, *r, base + nl, to, m, j);
            lemma_join(ss, s, p1, p2);
            p1 + p2.skip(1)
        },
        AST::Alternation(l, r) => {
            lemma_embedded_alternation(ss, *l, *r, base, to);
            let nl = thompson(*l, base).0.len() as int;
            let (target, q) = if denotes(*l, w) {
                (thompson(*l, base).1, lemma_complete(ss, s, *l, base, to, i, j))
            } else {
                (thompson(*r, base + nl).1, lemma_complete(ss, s, *r, base + nl, to, i, j))
            };
            lemma_embedded_basics(ss, *l, base, to);
            lemma_embedded_basics(ss, *r, base + nl, to);
            lemma_single(ss, s, (st, i), (target, i));
            lemma_join(ss, s, seq![(st, i), (target, i)], q);
            seq![(st, i), (target, i)] + q.skip(1)
        },
        AST::Closure(b) => {
            lemma_embedded_loop(ss, ast, *b, base, to);
            lemma_star_complete(ss, s, *b, base, to, i, j)
        },
        AST::OneOrMore(b) => {
            lemma_embedded_loop(ss, ast, *b, base, to);
            let sp = base + thompson(*b, base).0.len();
            let k = choose|k: int| 0 <= k <= w.len() && denotes(*b, #[trigger] w.take(k)) && denotes_star(*b, w.skip(k));
            let m = i + k;
            assert(w.take(k) =~= s.subrange(i, m));
            assert(w.skip(k) =~= s.subrange(m, j));
            let p1 = lemma_complete(ss, s, *b, base, sp, i, m);
            let p2 = lemma_star_complete(ss, s, *b, base, to, m, j);
            lemma_join(ss, s, p1, p2);
            p1 + p2.skip(1)
        },
    }
}

/// A string of any number of strings of the body is spelled by a path from
/// the split of an embedded closure to `to`.
#[verifier::rlimit(50)]
proof fn lemma_star_complete(ss: Seq<State>, s: Seq<char>, b: AST, base: int, to: int, i: int, j: int) -> (p: Seq<Config>)
    requires
        embedded(ss, AST::Closure(Box::new(b)), base, to),
        0 <= i <= j <= s.len(),
        denotes_star(b, s.subrange(i, j)),
    ensures
        is_path(ss, s, p),
        p[0] == (base + thompson(b, base).0.len(), i),
        p.last() == (to, j),
    decreases b, 1nat, j - i,
{
    let closure = AST::Closure(Box::new(b));
    lemma_embedded_loop(ss, closure, b, base, to);
    lemma_embedded_basics(ss, closure, base, to);
    let sp = base + thompson(b, base).0.len();
    lemma_embedded_basics(ss, b, base, sp);
    let stb = thompson(b, base).1;
    let w = s.subrange(i, j);
    if i == j {
        lemma_single(ss, s, (sp, i), (to, j));
        seq![(sp, i), (to, j)]
    } else {
        let k = choose|k: int| 1 <= k <= w.len() && denotes(b, #[trigger] w.take(k)) && denotes_star(b, w.skip(k));
        let m = i + k;
        assert(w.take(k) =~= s.subrange(i, m));
        assert(w.skip(k) =~= s.subrange(m, j));
        let p1 = lemma_complete(ss, s, b, base, sp, i, m);
        let p2 = lemma_star_complete(ss, s, b, base, to, m, j);
        lemma_single(ss, s, (sp, i), (stb, i));
        lemma_join(ss, s, seq![(sp, i), (stb, i)], p1);
        let p0 = seq![(sp, i), (stb, i)] + p1.skip(1);
        lemma_join(ss, s, p0, p2);
        p0 + p2.skip(1)
    }
}

/// The automaton compiled from a tree accepts exactly the strings that the
/// tree denotes.
pub proof fn compiled_accepts_its_language(ast: AST, s: Seq<char>)
    requires
        compiled(ast).len() <= usize::MAX + 1,
    ensures
        accepts_from(compiled(ast), s, (0, 0)) == denotes(ast, s),
{
    let (sb, st, e) = thompson(ast, 1);
    let ss = compiled(ast);
    let end = sb.len() + 1int;
    lemma_thompson(ast, 1);
    lemma_compiled_wf(ast);
    assert(embedded(ss, ast, 1, end)) by {
        reveal(embedded);
        assert forall|i: int| 0 <= i < sb.len() implies ss[1 + i] == #[trigger] bind_ends(sb, 1, e, end)[i] by {
        }
    }
    assert(ss[0] == State::Start(Some(st as StateId)));
    lemma_accepts_single(ss, s, (0, 0), (st, 0));
    assert(s.subrange(0, s.len() as int) =~= s);
    if denotes(ast, s) {
        let p = lemma_complete(ss, s, ast, 1, end, 0, s.len() as int);
        assert(is_run(ss, s, p));
    }
    if accepts_from(ss, s, (st, 0)) {
        let r = choose|r: Seq<Config>| #[trigger] is_run(ss, s, r) && r[0] == (st, 0int);
        assert(is_path(ss, s, r));
        assert(r.last().0 == end);
        let m = lemma_exit(ss, s, ast, 1, end, r, 0);
        let r1 = r.subrange(0, m + 1);
        lemma_subpath(ss, s, r, 0, m);
        assert forall|k: int| 0 <= k < r1.len() - 1 implies (#[trigger] r1[k]).0 != end by {
            assert(r1[k] == r[k]);
        }
        lemma_sound(ss, s, ast, 1, end, r1);
        lemma_run_skip(ss, s, r, m);
        lemma_accepts_end(ss, s, r[m]);
        lemma_path_positions(ss, s, r, m);
    }
}

} // verus!
