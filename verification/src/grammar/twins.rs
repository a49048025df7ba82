//! Constraints that are made alike work alike.
use vstd::prelude::*;
use crate::grammar::builder::is_automaton_of;
use crate::grammar::constraint::Constraint;
use crate::grammar::dfa::Dfa;
use crate::grammar::lang::{Delims, Sym, Tool};
use crate::grammar::layout::nodes_of;

verus! {

// ---------------------------------------------------------------- the same calls
/// Whether two constraints have the same vocabulary.
pub open spec fn same_vocabulary(a: Constraint, b: Constraint) -> bool {
    &&& a.vocab() == b.vocab()
    &&& forall|t: int| 0 <= t < a.vocab() ==> #[trigger] a.spelling(t) == b.spelling(t)
}

/// Whether the automata of two constraints complete the same words, without dead ends.
pub open spec fn same_calls(a: Constraint, b: Constraint) -> bool {
    &&& a.dfa().no_dead_end()
    &&& b.dfa().no_dead_end()
    &&& forall|w: Seq<Sym>| #[trigger]
        a.dfa().completes(a.dfa().spec_start() as int, w) == b.dfa().completes(
            b.dfa().spec_start() as int,
            w,
        )
}

/// Whether the same tokens may stand in state `s` of one constraint and in state
/// `u` of another, and a call may end in both or in neither.
pub open spec fn admit_alike(a: Constraint, s: int, b: Constraint, u: int) -> bool {
    &&& forall|t: int| #[trigger] a.legal(s, t) == b.legal(u, t)
    &&& forall|t: int| #[trigger] a.sole(s, t) == b.sole(u, t)
    &&& a.legal_below(s, a.vocab()) == b.legal_below(u, b.vocab())
    &&& a.dfa().spec_accepting(s) == b.dfa().spec_accepting(u)
}

/// Whether the same words lead from two states to the end of a call.
spec fn same_rest(a: Constraint, s: int, b: Constraint, u: int) -> bool {
    forall|w: Seq<Sym>| #[trigger] a.dfa().completes(s, w) == b.dfa().completes(u, w)
}

/// A word that leads on from one state leads on from the other, to states from which
/// the same words lead to the end of a call.
proof fn lemma_same_run(a: Constraint, s: int, b: Constraint, u: int, w: Seq<Sym>)
    requires
        a.tables(),
        a.dfa().no_dead_end(),
        0 <= s < a.dfa().spec_num_states(),
        same_rest(a, s, b, u),
        a.dfa().run(s, w) is Some,
    ensures
        b.dfa().run(u, w) is Some,
        same_rest(a, a.dfa().run(s, w).unwrap(), b, b.dfa().run(u, w).unwrap()),
{
    let n = a.dfa().run(s, w).unwrap();
    a.lemma_run_is_a_state(s, w);
    assert(a.dfa().completable(n));
    let v = choose|v: Seq<Sym>| a.dfa().completes(n, v);
    a.dfa().lemma_run_concat(s, w, v);
    b.dfa().lemma_run_concat(u, w, v);
    assert(a.dfa().completes(s, w + v));
    assert(b.dfa().completes(u, w + v));
    let m = b.dfa().run(u, w).unwrap();
    assert forall|x: Seq<Sym>| #[trigger] a.dfa().completes(n, x) == b.dfa().completes(m, x) by {
        a.dfa().lemma_run_concat(s, w, x);
        b.dfa().lemma_run_concat(u, w, x);
        assert(a.dfa().completes(s, w + x) == b.dfa().completes(u, w + x));
    }
}

proof fn lemma_same_rest_back(a: Constraint, s: int, b: Constraint, u: int)
    requires
        same_rest(a, s, b, u),
    ensures
        same_rest(b, u, a, s),
{
    assert forall|w: Seq<Sym>| #[trigger] b.dfa().completes(u, w) == a.dfa().completes(s, w) by {
        assert(a.dfa().completes(s, w) == b.dfa().completes(u, w));
    }
}

proof fn lemma_same_after(a: Constraint, s: int, b: Constraint, u: int, t: int)
    requires
        a.tables(),
        b.tables(),
        a.dfa().no_dead_end(),
        b.dfa().no_dead_end(),
        same_vocabulary(a, b),
        0 <= s < a.dfa().spec_num_states(),
        0 <= u < b.dfa().spec_num_states(),
        same_rest(a, s, b, u),
    ensures
        a.legal(s, t) == b.legal(u, t),
        a.legal(s, t) ==> same_rest(a, a.after(s, t).unwrap(), b, b.after(u, t).unwrap()),
{
    if 0 <= t < a.vocab() {
        let w = a.spelling(t);
        assert(w == b.spelling(t));
        if a.legal(s, t) {
            lemma_same_run(a, s, b, u, w);
        }
        if b.legal(u, t) {
            lemma_same_rest_back(a, s, b, u);
            lemma_same_run(b, u, a, s, w);
        }
    }
}

proof fn lemma_same_below(a: Constraint, s: int, b: Constraint, u: int, n: nat)
    requires
        forall|t: int| #[trigger] a.legal(s, t) == b.legal(u, t),
    ensures
        a.legal_below(s, n) == b.legal_below(u, n),
    decreases n,
{
    if n > 0 {
        lemma_same_below(a, s, b, u, (n - 1) as nat);
        assert(a.legal(s, n - 1) == b.legal(u, n - 1));
    }
}

proof fn lemma_admit_alike(a: Constraint, s: int, b: Constraint, u: int)
    requires
        a.vocab() == b.vocab(),
        forall|t: int| #[trigger] a.legal(s, t) == b.legal(u, t),
        a.dfa().spec_accepting(s) == b.dfa().spec_accepting(u),
    ensures
        admit_alike(a, s, b, u),
{
    lemma_same_below(a, s, b, u, a.vocab());
    assert forall|t: int| #[trigger] a.sole(s, t) == b.sole(u, t) by {
        if a.sole(s, t) {
            assert(a.legal(s, t));
            assert forall|x: int| #[trigger] b.legal(u, x) implies x == t by {
                assert(a.legal(s, x));
            }
        }
        if b.sole(u, t) {
            assert(a.legal(s, t) == b.legal(u, t));
            assert forall|x: int| #[trigger] a.legal(s, x) implies x == t by {}
        }
    }
}

proof fn lemma_same_walk(a: Constraint, s: int, b: Constraint, u: int, ts: Seq<usize>)
    requires
        a.tables(),
        b.tables(),
        a.dfa().no_dead_end(),
        b.dfa().no_dead_end(),
        same_vocabulary(a, b),
        0 <= s < a.dfa().spec_num_states(),
        0 <= u < b.dfa().spec_num_states(),
        same_rest(a, s, b, u),
    ensures
        a.walk(s, ts) is Some == b.walk(u, ts) is Some,
        a.walk(s, ts) is Some ==> same_rest(
            a,
            a.walk(s, ts).unwrap(),
            b,
            b.walk(u, ts).unwrap(),
        ),
    decreases ts.len(),
{
    if ts.len() > 0 {
        let t = ts[0] as int;
        lemma_same_after(a, s, b, u, t);
        a.lemma_after_is_a_state(s, t);
        b.lemma_after_is_a_state(u, t);
        if a.legal(s, t) {
            lemma_same_walk(
                a,
                a.after(s, t).unwrap(),
                b,
                b.after(u, t).unwrap(),
                ts.skip(1),
            );
        }
    }
}

/// Constraints whose automata complete the same calls, over the same vocabulary,
/// step alike: after the same tokens they admit the same tokens.
pub proof fn law_same_calls_step_alike(a: Constraint, b: Constraint, ts: Seq<usize>)
    requires
        a.tables(),
        b.tables(),
        same_vocabulary(a, b),
        same_calls(a, b),
    ensures
        a.walk(a.dfa().spec_start() as int, ts) is Some == b.walk(
            b.dfa().spec_start() as int,
            ts,
        ) is Some,
        a.walk(a.dfa().spec_start() as int, ts) is Some ==> admit_alike(
            a,
            a.walk(a.dfa().spec_start() as int, ts).unwrap(),
            b,
            b.walk(b.dfa().spec_start() as int, ts).unwrap(),
        ),
{
    let s = a.dfa().spec_start() as int;
    let u = b.dfa().spec_start() as int;
    a.lemma_start_is_a_state();
    b.lemma_start_is_a_state();
    lemma_same_walk(a, s, b, u, ts);
    if a.walk(s, ts) is Some {
        let x = a.walk(s, ts).unwrap();
        let y = b.walk(u, ts).unwrap();
        a.lemma_walk_is_a_state(s, ts);
        b.lemma_walk_is_a_state(u, ts);
        assert forall|t: int| #[trigger] a.legal(x, t) == b.legal(y, t) by {
            lemma_same_after(a, x, b, y, t);
        }
        let none: Seq<Sym> = Seq::empty();
        assert(a.dfa().completes(x, none) == b.dfa().completes(y, none));
        lemma_admit_alike(a, x, b, y);
    }
}

/// Constraints whose automata complete the same calls, over the same vocabulary,
/// have the same forced runs.
pub proof fn law_same_calls_force_alike(a: Constraint, b: Constraint, run: Seq<usize>)
    requires
        a.tables(),
        b.tables(),
        same_vocabulary(a, b),
        same_calls(a, b),
    ensures
        a.forced_from(a.dfa().spec_start() as int, run) == b.forced_from(
            b.dfa().spec_start() as int,
            run,
        ),
{
    let s = a.dfa().spec_start() as int;
    let u = b.dfa().spec_start() as int;
    assert forall|i: int| 0 <= i < run.len() implies #[trigger] a.forced_there(s, run, i)
        == b.forced_there(u, run, i) by {
        law_same_calls_step_alike(a, b, run.take(i));
        if a.walk(s, run.take(i)) is Some {
            let x = a.walk(s, run.take(i)).unwrap();
            let y = b.walk(u, run.take(i)).unwrap();
            assert(a.sole(x, run[i] as int) == b.sole(y, run[i] as int));
        }
    }
    assert forall|i: int| 0 <= i < run.len() && a.forced_from(s, run) implies #[trigger] b.forced_there(
        u,
        run,
        i,
    ) by {
        assert(a.forced_there(s, run, i));
    }
    assert forall|i: int| 0 <= i < run.len() && b.forced_from(u, run) implies #[trigger] a.forced_there(
        s,
        run,
        i,
    ) by {
        assert(b.forced_there(u, run, i));
    }
}

// ---------------------------------------------------------------- the same tools
/// A tool set has one automaton: building it twice gives the same states with the
/// same numbers.
pub proof fn law_a_tool_set_has_one_automaton(d: Dfa, e: Dfa, tools: Seq<Tool>)
    requires
        is_automaton_of(d, tools),
        is_automaton_of(e, tools),
    ensures
        d.same_states(e),
{
    let n = nodes_of(tools, Delims::gemma4());
    d.lemma_numbers(e, n.0, n.1 as int);
}

proof fn lemma_same_states_run(a: Constraint, b: Constraint, s: int, w: Seq<Sym>)
    requires
        a.tables(),
        a.dfa().same_states(b.dfa()),
        0 <= s < a.dfa().spec_num_states(),
    ensures
        a.dfa().run(s, w) == b.dfa().run(s, w),
    decreases w.len(),
{
    if w.len() > 0 {
        assert(a.dfa().edge(s, w[0]) == b.dfa().edge(s, w[0]));
        if let Some(t) = a.dfa().edge(s, w[0]) {
            a.lemma_edge_is_a_state(s, w[0]);
            lemma_same_states_run(a, b, t as int, w.skip(1));
        }
    }
}

proof fn lemma_same_states_after(a: Constraint, b: Constraint, s: int, t: int)
    requires
        a.tables(),
        a.dfa().same_states(b.dfa()),
        same_vocabulary(a, b),
        0 <= s < a.dfa().spec_num_states(),
    ensures
        a.after(s, t) == b.after(s, t),
{
    if 0 <= t < a.vocab() {
        assert(a.spelling(t) == b.spelling(t));
        lemma_same_states_run(a, b, s, a.spelling(t));
    }
}

/// Constraints that were compiled from automata of one tool set, over the same
/// vocabulary, are in the same state after the same tokens, and admit the same
/// tokens in every state.
pub proof fn law_same_tools_same_states(
    a: Constraint,
    b: Constraint,
    tools: Seq<Tool>,
    s: int,
    ts: Seq<usize>,
)
    requires
        a.tables(),
        b.tables(),
        same_vocabulary(a, b),
        is_automaton_of(a.dfa(), tools),
        is_automaton_of(b.dfa(), tools),
        0 <= s < a.dfa().spec_num_states(),
    ensures
        a.dfa().spec_start() == b.dfa().spec_start(),
        a.dfa().spec_num_states() == b.dfa().spec_num_states(),
        a.walk(s, ts) == b.walk(s, ts),
        admit_alike(a, s, b, s),
    decreases ts.len(),
{
    law_a_tool_set_has_one_automaton(a.dfa(), b.dfa(), tools);
    assert forall|t: int| #[trigger] a.legal(s, t) == b.legal(s, t) by {
        lemma_same_states_after(a, b, s, t);
    }
    assert(a.dfa().spec_accepting(s) == b.dfa().spec_accepting(s));
    lemma_admit_alike(a, s, b, s);
    if ts.len() > 0 {
        let t = ts[0] as int;
        lemma_same_states_after(a, b, s, t);
        a.lemma_after_is_a_state(s, t);
        if let Some(n) = a.after(s, t) {
            law_same_tools_same_states(a, b, tools, n, ts.skip(1));
        }
    }
}

/// A forced run of one constraint, replayed token by token on another that was made
/// from the same tools and vocabulary, is accepted and ends in the same state. There
/// either no token is forced or exactly one is counted, in both.
pub proof fn law_forced_runs_replay(
    a: Constraint,
    b: Constraint,
    tools: Seq<Tool>,
    run: Seq<usize>,
)
    requires
        a.tables(),
        b.tables(),
        same_vocabulary(a, b),
        is_automaton_of(a.dfa(), tools),
        is_automaton_of(b.dfa(), tools),
        a.walk(a.dfa().spec_start() as int, run) is Some,
        a.forced_from(a.dfa().spec_start() as int, run),
    ensures
        b.forced_from(b.dfa().spec_start() as int, run),
        b.walk(b.dfa().spec_start() as int, run) == a.walk(a.dfa().spec_start() as int, run),
        ({
            let end = a.walk(a.dfa().spec_start() as int, run).unwrap();
            &&& admit_alike(a, end, b, end)
            &&& (forall|t: int| !#[trigger] a.sole(end, t)) || a.legal_below(end, a.vocab()) == 1
        }),
{
    let s = a.dfa().spec_start() as int;
    a.lemma_start_is_a_state();
    law_same_tools_same_states(a, b, tools, s, run);
    a.lemma_walk_is_a_state(s, run);
    let end = a.walk(s, run).unwrap();
    law_same_tools_same_states(a, b, tools, end, Seq::empty());
    a.law_forced_is_a_count_of_one(end);
    assert forall|i: int| 0 <= i < run.len() implies #[trigger] b.forced_there(s, run, i) by {
        assert(a.forced_there(s, run, i));
        law_same_tools_same_states(a, b, tools, s, run.take(i));
        a.lemma_walk_is_a_state(s, run.take(i));
        let n = a.walk(s, run.take(i)).unwrap();
        law_same_tools_same_states(a, b, tools, n, Seq::empty());
        assert(a.sole(n, run[i] as int) == b.sole(n, run[i] as int));
    }
}

} // verus!
