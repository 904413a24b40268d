use vstd::prelude::*;
use crate::nfa::{Char, State, StateId};

verus! {

/// A configuration of a run: a state index and an input position.
pub type Config = (int, int);

/// Whether a consuming edge with this label accepts the character.
pub open spec fn label_matches(l: Char, c: char) -> bool {
    match l {
        Char::Any => true,
        Char::Literal(x) => x == c,
    }
}

/// One move of the automaton `ss` on `input`, from `a` to `b`.
pub open spec fn step(ss: Seq<State>, input: Seq<char>, a: Config, b: Config) -> bool {
    &&& 0 <= a.0 < ss.len()
    &&& match ss[a.0] {
        State::Start(Some(n)) => b == (n as int, a.1),
        State::Match(l, Some(n)) => 0 <= a.1 < input.len() && label_matches(l, input[a.1]) && b == (
        n as int, a.1 + 1),
        State::Split(Some(x), Some(y)) => b == (x as int, a.1) || b == (y as int, a.1),
        _ => false,
    }
}

/// `End` with the whole input consumed.
pub open spec fn is_accepting(ss: Seq<State>, input: Seq<char>, c: Config) -> bool {
    0 <= c.0 < ss.len() && ss[c.0] is End && c.1 == input.len()
}

/// A sequence of moves that ends in an accepting configuration.
pub open spec fn is_run(ss: Seq<State>, input: Seq<char>, run: Seq<Config>) -> bool {
    &&& run.len() >= 1
    &&& forall|i: int| 0 <= i < run.len() - 1 ==> step(ss, input, #[trigger] run[i], run[i + 1])
    &&& is_accepting(ss, input, run.last())
}

/// Some run leads from `c` to acceptance.
pub open spec fn accepts_from(ss: Seq<State>, input: Seq<char>, c: Config) -> bool {
    exists|run: Seq<Config>| #[trigger] is_run(ss, input, run) && run[0] == c
}

/// No configuration of the run at position `pos` has its state in `seg`.
pub open spec fn avoids(run: Seq<Config>, seg: Set<int>, pos: int) -> bool {
    forall|i: int| 0 <= i < run.len() && (#[trigger] run[i]).1 == pos ==> !seg.contains(run[i].0)
}

/// Some run leads from `c` to acceptance without meeting a state of `seg`
/// at the position of `c`.
pub open spec fn accepts_avoiding(ss: Seq<State>, input: Seq<char>, c: Config, seg: Set<int>) -> bool {
    exists|run: Seq<Config>| #[trigger] is_run(ss, input, run) && run[0] == c && avoids(run, seg, c.1)
}

/// The states to avoid after a move from `c` to `d`: those of `seg` and `c`
/// itself while the position stays, none once it has advanced.
pub open spec fn next_seg(c: Config, d: Config, seg: Set<int>) -> Set<int> {
    if d.1 == c.1 {
        seg.insert(c.0)
    } else {
        Set::empty()
    }
}

proof fn lemma_step_pos(ss: Seq<State>, input: Seq<char>, a: Config, b: Config)
    requires
        step(ss, input, a, b),
    ensures
        b.1 == a.1 || b.1 == a.1 + 1,
{
}

/// Positions never decrease along a run.
proof fn lemma_run_monotone(ss: Seq<State>, input: Seq<char>, run: Seq<Config>, i: int)
    requires
        is_run(ss, input, run),
        0 <= i < run.len(),
    ensures
        run[i].1 >= run[0].1,
    decreases i,
{
    if i > 0 {
        lemma_run_monotone(ss, input, run, i - 1);
        lemma_step_pos(ss, input, run[i - 1], run[i]);
    }
}

pub proof fn lemma_run_skip(ss: Seq<State>, input: Seq<char>, run: Seq<Config>, i: int)
    requires
        is_run(ss, input, run),
        0 <= i < run.len(),
    ensures
        is_run(ss, input, run.skip(i)),
        run.skip(i)[0] == run[i],
{
    let t = run.skip(i);
    assert forall|k: int| 0 <= k < t.len() - 1 implies step(ss, input, #[trigger] t[k], t[k + 1]) by {
        assert(t[k] == run[i + k] && t[k + 1] == run[i + k + 1]);
    }
    assert(t.last() == run.last());
}

/// A run from `c` that avoids `seg` can be cut so that it never comes back
/// to its first configuration.
proof fn lemma_shorten(ss: Seq<State>, input: Seq<char>, run: Seq<Config>, seg: Set<int>) -> (r: Seq<
    Config,
>)
    requires
        is_run(ss, input, run),
        avoids(run, seg, run[0].1),
    ensures
        is_run(ss, input, r),
        r[0] == run[0],
        avoids(r, seg, run[0].1),
        forall|i: int| 1 <= i < r.len() ==> #[trigger] r[i] != run[0],
    decreases run.len(),
{
    if exists|i: int| 1 <= i < run.len() && #[trigger] run[i] == run[0] {
        let i = choose|i: int| 1 <= i < run.len() && #[trigger] run[i] == run[0];
        lemma_run_skip(ss, input, run, i);
        let t = run.skip(i);
        assert forall|k: int| 0 <= k < t.len() && (#[trigger] t[k]).1 == t[0].1 implies !seg.contains(
            t[k].0,
        ) by {
            assert(t[k] == run[i + k]);
        }
        lemma_shorten(ss, input, t, seg)
    } else {
        run
    }
}

/// A move followed by an avoiding run from its target is an avoiding run.
pub proof fn lemma_extend(ss: Seq<State>, input: Seq<char>, c: Config, d: Config, seg: Set<int>)
    requires
        step(ss, input, c, d),
        !seg.contains(c.0),
        accepts_avoiding(ss, input, d, next_seg(c, d, seg)),
    ensures
        accepts_avoiding(ss, input, c, seg),
{
    let rd = choose|run: Seq<Config>|
        #[trigger] is_run(ss, input, run) && run[0] == d && avoids(run, next_seg(c, d, seg), d.1);
    let run = seq![c] + rd;
    assert forall|i: int| 0 <= i < run.len() - 1 implies step(ss, input, #[trigger] run[i], run[i + 1]) by {
        if i > 0 {
            assert(run[i] == rd[i - 1] && run[i + 1] == rd[i]);
        }
    }
    assert(run.last() == rd.last());
    assert forall|i: int| 0 <= i < run.len() && (#[trigger] run[i]).1 == c.1 implies !seg.contains(
        run[i].0,
    ) by {
        if i > 0 {
            assert(run[i] == rd[i - 1]);
            lemma_step_pos(ss, input, c, d);
            lemma_run_monotone(ss, input, rd, i - 1);
        }
    }
    assert(is_run(ss, input, run));
}

/// An avoiding run from a configuration that does not accept begins with a
/// move to a configuration from which an avoiding run leads on.
pub proof fn lemma_first_step(ss: Seq<State>, input: Seq<char>, c: Config, seg: Set<int>) -> (d:
    Config)
    requires
        accepts_avoiding(ss, input, c, seg),
        !is_accepting(ss, input, c),
    ensures
        step(ss, input, c, d),
        accepts_avoiding(ss, input, d, next_seg(c, d, seg)),
{
    let run0 = choose|run: Seq<Config>|
        #[trigger] is_run(ss, input, run) && run[0] == c && avoids(run, seg, c.1);
    let run = lemma_shorten(ss, input, run0, seg);
    assert(run.len() >= 2);
    let d = run[1];
    assert(step(ss, input, run[0], run[1]));
    lemma_run_skip(ss, input, run, 1);
    let t = run.skip(1);
    assert forall|k: int| 0 <= k < t.len() && (#[trigger] t[k]).1 == d.1 implies !next_seg(
        c,
        d,
        seg,
    ).contains(t[k].0) by {
        assert(t[k] == run[k + 1]);
        if d.1 == c.1 {
            assert(run[k + 1] != run[0]);
        }
    }
    assert(is_run(ss, input, t) && t[0] == d && avoids(t, next_seg(c, d, seg), d.1));
    d
}

/// A move followed by a run from its target is a run.
pub proof fn lemma_prepend(ss: Seq<State>, input: Seq<char>, c: Config, d: Config)
    requires
        step(ss, input, c, d),
        accepts_from(ss, input, d),
    ensures
        accepts_from(ss, input, c),
{
    let rd = choose|run: Seq<Config>| #[trigger] is_run(ss, input, run) && run[0] == d;
    let run = seq![c] + rd;
    assert forall|i: int| 0 <= i < run.len() - 1 implies step(ss, input, #[trigger] run[i], run[i + 1]) by {
        if i > 0 {
            assert(run[i] == rd[i - 1] && run[i + 1] == rd[i]);
        }
    }
    assert(run.last() == rd.last());
    assert(is_run(ss, input, run));
}

/// Acceptance from a configuration of `End`: exactly when the input is used
/// up.
pub proof fn lemma_accepts_end(ss: Seq<State>, input: Seq<char>, c: Config)
    requires
        0 <= c.0 < ss.len(),
        ss[c.0] is End,
    ensures
        accepts_from(ss, input, c) == (c.1 == input.len()),
{
    if accepts_from(ss, input, c) {
        let run = choose|run: Seq<Config>| #[trigger] is_run(ss, input, run) && run[0] == c;
        if run.len() >= 2 {
            assert(step(ss, input, run[0], run[1]));
        }
    }
    if c.1 == input.len() {
        assert(is_run(ss, input, seq![c]));
    }
}

/// Acceptance from a configuration of a state with a single move out of it.
pub proof fn lemma_accepts_single(ss: Seq<State>, input: Seq<char>, c: Config, d: Config)
    requires
        0 <= c.0 < ss.len(),
        !(ss[c.0] is End),
        forall|e: Config| step(ss, input, c, e) ==> e == d,
    ensures
        accepts_from(ss, input, c) == (step(ss, input, c, d) && accepts_from(ss, input, d)),
{
    if accepts_from(ss, input, c) {
        let run = choose|run: Seq<Config>| #[trigger] is_run(ss, input, run) && run[0] == c;
        assert(step(ss, input, run[0], run[1]));
        lemma_run_skip(ss, input, run, 1);
    }
    if step(ss, input, c, d) && accepts_from(ss, input, d) {
        lemma_prepend(ss, input, c, d);
    }
}

/// Acceptance from a configuration of a split: from either branch.
pub proof fn lemma_accepts_split(ss: Seq<State>, input: Seq<char>, c: Config, l: StateId, r: StateId)
    requires
        0 <= c.0 < ss.len(),
        ss[c.0] == State::Split(Some(l), Some(r)),
    ensures
        accepts_from(ss, input, c) == (accepts_from(ss, input, (l as int, c.1)) || accepts_from(
            ss,
            input,
            (r as int, c.1),
        )),
{
    if accepts_from(ss, input, c) {
        let run = choose|run: Seq<Config>| #[trigger] is_run(ss, input, run) && run[0] == c;
        assert(step(ss, input, run[0], run[1]));
        lemma_run_skip(ss, input, run, 1);
    }
    if accepts_from(ss, input, (l as int, c.1)) {
        lemma_prepend(ss, input, c, (l as int, c.1));
    }
    if accepts_from(ss, input, (r as int, c.1)) {
        lemma_prepend(ss, input, c, (r as int, c.1));
    }
}

/// With nothing to avoid, an avoiding run is any run.
pub proof fn lemma_avoid_nothing(ss: Seq<State>, input: Seq<char>, c: Config)
    ensures
        accepts_avoiding(ss, input, c, Set::empty()) == accepts_from(ss, input, c),
{
    if accepts_from(ss, input, c) {
        let run = choose|run: Seq<Config>| #[trigger] is_run(ss, input, run) && run[0] == c;
        assert(avoids(run, Set::empty(), c.1));
    }
}

/// A move stays a move when more input follows.
proof fn lemma_step_extend(ss: Seq<State>, w: Seq<char>, w2: Seq<char>, a: Config, b: Config)
    requires
        step(ss, w, a, b),
        w.len() <= w2.len(),
        forall|k: int| 0 <= k < w.len() ==> #[trigger] w2[k] == w[k],
    ensures
        step(ss, w2, a, b),
{
}

/// The moves of a walk stay moves when the walk emits more, and one more
/// move can be added at its end.
pub proof fn lemma_walk_extend(ss: Seq<State>, w: Seq<char>, w2: Seq<char>, run: Seq<Config>, d: Config)
    requires
        run.len() >= 1,
        forall|k: int| 0 <= k < run.len() - 1 ==> step(ss, w, #[trigger] run[k], run[k + 1]),
        w.len() <= w2.len(),
        forall|k: int| 0 <= k < w.len() ==> #[trigger] w2[k] == w[k],
        step(ss, w2, run.last(), d),
    ensures
        forall|k: int|
            0 <= k < run.push(d).len() - 1 ==> step(ss, w2, #[trigger] run.push(d)[k], run.push(d)[k + 1]),
{
    let r2 = run.push(d);
    assert forall|k: int| 0 <= k < r2.len() - 1 implies step(ss, w2, #[trigger] r2[k], r2[k + 1]) by {
        if k < run.len() - 1 {
            assert(r2[k] == run[k] && r2[k + 1] == run[k + 1]);
            lemma_step_extend(ss, w, w2, run[k], run[k + 1]);
        } else {
            assert(r2[k] == run.last());
        }
    }
}

} // verus!
