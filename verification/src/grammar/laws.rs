//! What the grammar promises as a whole.
use vstd::prelude::*;
use crate::grammar::constraint::Constraint;
use crate::grammar::lang::{
    args_parts, byte_syms, call_parts, choosable, is_call, is_decimal_at, is_digit, is_digits,
    is_one_of, is_some_call, is_text, is_unsigned_num, matches_parts, param_parts, required,
    value_parts, Delims, Param, ParamType, Part, Sym, Tool,
};
use crate::grammar::nfa::{lemma_join, lemma_single};

verus! {

/// Whether some word is an instance of the part.
spec fn possible(p: Part) -> bool {
    p matches Part::OneOf(vals) ==> vals.len() > 0
}

spec fn all_possible(parts: Seq<Part>) -> bool {
    forall|i: int| 0 <= i < parts.len() ==> possible(#[trigger] parts[i])
}

proof fn lemma_instance(p: Part) -> (u: Seq<Sym>)
    requires
        possible(p),
    ensures
        p.matches(u),
{
    match p {
        Part::Bytes(s) => byte_syms(s),
        Part::Delim(t) => seq![Sym::Tok(t)],
        Part::Space => Seq::empty(),
        Part::Text => Seq::empty(),
        Part::Int => {
            assert(is_digits(seq![Sym::Byte(0x30)]));
            seq![Sym::Byte(0x30)]
        },
        Part::Num => {
            assert(is_digits(seq![Sym::Byte(0x30)]));
            seq![Sym::Byte(0x30)]
        },
        Part::OneOf(vals) => {
            let u = byte_syms(vals[0]);
            assert(is_one_of(vals, u));
            u
        },
    }
}

proof fn lemma_instances(parts: Seq<Part>) -> (w: Seq<Sym>)
    requires
        all_possible(parts),
    ensures
        matches_parts(parts, w),
    decreases parts.len(),
{
    if parts.len() == 0 {
        Seq::empty()
    } else {
        assert(possible(parts[0]));
        let u = lemma_instance(parts[0]);
        let rest = parts.skip(1);
        assert forall|i: int| 0 <= i < rest.len() implies possible(#[trigger] rest[i]) by {
            assert(possible(parts[i + 1]));
        }
        let v = lemma_instances(rest);
        let w = u + v;
        lemma_single(parts[0], u);
        assert(w.take(u.len() as int) =~= u);
        assert(w.skip(u.len() as int) =~= v);
        lemma_join(seq![parts[0]], rest, w, u.len() as int);
        assert(seq![parts[0]] + rest =~= parts);
        w
    }
}

spec fn params_choosable(params: Seq<Param>) -> bool {
    forall|i: int|
        0 <= i < params.len() ==> ((#[trigger] params[i]).ty matches ParamType::Enum(vals)
            ==> vals@.len() > 0)
}

proof fn lemma_args_possible(params: Seq<Param>, d: Delims)
    requires
        params_choosable(params),
    ensures
        all_possible(args_parts(params, d)),
    decreases params.len(),
{
    if params.len() > 0 {
        let p = params[0];
        let v = value_parts(p.ty, d);
        assert(all_possible(v));
        let one = param_parts(p, d);
        assert forall|i: int| 0 <= i < one.len() implies possible(#[trigger] one[i]) by {
            if i >= 3 {
                assert(one[i] == v[i - 3]);
            }
        }
        if params.len() > 1 {
            let rest = params.skip(1);
            assert forall|i: int| 0 <= i < rest.len() implies ((
            #[trigger] rest[i]).ty matches ParamType::Enum(vals) ==> vals@.len() > 0) by {
                assert(rest[i] == params[i + 1]);
            }
            lemma_args_possible(rest, d);
            let tail = args_parts(rest, d);
            let all = args_parts(params, d);
            assert forall|i: int| 0 <= i < all.len() implies possible(#[trigger] all[i]) by {
                if i < one.len() {
                    assert(all[i] == one[i]);
                } else if i >= one.len() + 2 {
                    assert(all[i] == tail[i - one.len() - 2]);
                }
            }
        }
    }
}

/// Every tool of the set can be spelled: there is a call of it.
pub proof fn law_every_tool_is_spellable(tools: Seq<Tool>, i: int, d: Delims) -> (w: Seq<Sym>)
    requires
        0 <= i < tools.len(),
        choosable(tools[i]),
    ensures
        is_call(tools[i], d, w),
        is_some_call(tools, d, w),
{
    let t = tools[i];
    let params = required(t.params@);
    lemma_args_possible(params, d);
    let args = args_parts(params, d);
    let parts = call_parts(t, d);
    assert forall|k: int| 0 <= k < parts.len() implies possible(#[trigger] parts[k]) by {
        if 5 <= k < 5 + args.len() {
            assert(parts[k] == args[k - 5]);
        }
    }
    lemma_instances(parts)
}

/// What has been decoded under the constraint is a call of one of the tools
/// exactly if the constraint says that it is done.
pub proof fn law_done_is_a_call(c: Constraint, tools: Seq<Tool>, ts: Seq<usize>)
    requires
        forall|w: Seq<Sym>| #[trigger]
            c.dfa().completes(c.dfa().spec_start() as int, w) == is_some_call(
                tools,
                Delims::gemma4(),
                w,
            ),
        c.walk(c.dfa().spec_start() as int, ts) is Some,
    ensures
        c.dfa().spec_accepting(c.walk(c.dfa().spec_start() as int, ts).unwrap()) == is_some_call(
            tools,
            Delims::gemma4(),
            c.spelling_of(ts),
        ),
{
    let s = c.dfa().spec_start() as int;
    c.law_walk_is_run(s, ts);
    assert(c.dfa().completes(s, c.spelling_of(ts)) == is_some_call(
        tools,
        Delims::gemma4(),
        c.spelling_of(ts),
    ));
}

// ---------------------------------------------------------------- the end of a call
/// What a part other than a delimiter spells does not hold the delimiter.
proof fn lemma_part_without(p: Part, u: Seq<Sym>, c: u32)
    requires
        p.matches(u),
        p != Part::Delim(c),
    ensures
        forall|i: int| 0 <= i < u.len() ==> (#[trigger] u[i]) != Sym::Tok(c),
{
    match p {
        Part::Int => {
            if !is_digits(u) {
                lemma_digits_without(u.skip(1), c);
                assert forall|i: int| 0 <= i < u.len() implies (#[trigger] u[i]) != Sym::Tok(c) by {
                    if i > 0 {
                        assert(u[i] == u.skip(1)[i - 1]);
                    }
                }
            } else {
                lemma_digits_without(u, c);
            }
        },
        Part::Num => {
            if !is_unsigned_num(u) {
                lemma_number_without(u.skip(1), c);
                assert forall|i: int| 0 <= i < u.len() implies (#[trigger] u[i]) != Sym::Tok(c) by {
                    if i > 0 {
                        assert(u[i] == u.skip(1)[i - 1]);
                    }
                }
            } else {
                lemma_number_without(u, c);
            }
        },
        Part::Text => {
            assert forall|i: int| 0 <= i < u.len() implies (#[trigger] u[i]) != Sym::Tok(c) by {
                assert(is_text(u[i]));
            }
        },
        Part::OneOf(vals) => {
            let i = choose|i: int| 0 <= i < vals.len() && u == byte_syms(#[trigger] vals[i]);
            assert(u == byte_syms(vals[i]));
        },
        _ => {},
    }
}

proof fn lemma_digits_without(u: Seq<Sym>, c: u32)
    requires
        is_digits(u),
    ensures
        forall|i: int| 0 <= i < u.len() ==> (#[trigger] u[i]) != Sym::Tok(c),
{
    assert forall|i: int| 0 <= i < u.len() implies (#[trigger] u[i]) != Sym::Tok(c) by {
        assert(is_digit(u[i]));
    }
}

proof fn lemma_number_without(u: Seq<Sym>, c: u32)
    requires
        is_unsigned_num(u),
    ensures
        forall|i: int| 0 <= i < u.len() ==> (#[trigger] u[i]) != Sym::Tok(c),
{
    if is_digits(u) {
        lemma_digits_without(u, c);
    } else {
        let dot = choose|dot: int| is_decimal_at(u, dot);
        lemma_digits_without(u.take(dot), c);
        lemma_digits_without(u.skip(dot + 1), c);
        assert forall|i: int| 0 <= i < u.len() implies (#[trigger] u[i]) != Sym::Tok(c) by {
            if i < dot {
                assert(u[i] == u.take(dot)[i]);
            } else if i > dot {
                assert(u[i] == u.skip(dot + 1)[i - dot - 1]);
            }
        }
    }
}

/// Whether the last of some parts, and no other, is a delimiter.
spec fn closes(parts: Seq<Part>, c: u32) -> bool {
    &&& parts.len() > 0
    &&& parts.last() == Part::Delim(c)
    &&& forall|i: int| 0 <= i < parts.len() - 1 ==> (#[trigger] parts[i]) != Part::Delim(c)
}

/// Whether the last symbol of a word, and no other, is a delimiter.
spec fn closed(w: Seq<Sym>, c: u32) -> bool {
    &&& w.len() > 0
    &&& w.last() == Sym::Tok(c)
    &&& forall|i: int| 0 <= i < w.len() - 1 ==> (#[trigger] w[i]) != Sym::Tok(c)
}

proof fn lemma_closed(parts: Seq<Part>, w: Seq<Sym>, c: u32)
    requires
        closes(parts, c),
        matches_parts(parts, w),
    ensures
        closed(w, c),
    decreases parts.len(),
{
    if parts.len() == 1 {
        assert(parts =~= seq![Part::Delim(c)]);
        lemma_single(Part::Delim(c), w);
    } else {
        let k = choose|k: int|
            0 <= k <= w.len() && #[trigger] parts[0].matches(w.take(k)) && matches_parts(
                parts.skip(1),
                w.skip(k),
            );
        let rest = parts.skip(1);
        assert(parts[0] != Part::Delim(c));
        assert(closes(rest, c)) by {
            assert forall|i: int| 0 <= i < rest.len() - 1 implies (#[trigger] rest[i])
                != Part::Delim(c) by {
                assert(rest[i] == parts[i + 1]);
            }
        }
        lemma_part_without(parts[0], w.take(k), c);
        lemma_closed(rest, w.skip(k), c);
        assert forall|i: int| 0 <= i < w.len() - 1 implies (#[trigger] w[i]) != Sym::Tok(c) by {
            if i < k {
                assert(w[i] == w.take(k)[i]);
            } else {
                assert(w[i] == w.skip(k)[i - k]);
            }
        }
    }
}

proof fn lemma_args_without(params: Seq<Param>, d: Delims)
    requires
        d.quote != d.call_close,
    ensures
        forall|i: int|
            0 <= i < args_parts(params, d).len() ==> (#[trigger] args_parts(params, d)[i])
                != Part::Delim(d.call_close),
    decreases params.len(),
{
    if params.len() > 0 {
        let v = value_parts(params[0].ty, d);
        let one = param_parts(params[0], d);
        assert forall|i: int| 0 <= i < one.len() implies (#[trigger] one[i]) != Part::Delim(
            d.call_close,
        ) by {
            if i >= 3 {
                assert(one[i] == v[i - 3]);
            }
        }
        if params.len() > 1 {
            lemma_args_without(params.skip(1), d);
            let tail = args_parts(params.skip(1), d);
            let all = args_parts(params, d);
            assert forall|i: int| 0 <= i < all.len() implies (#[trigger] all[i]) != Part::Delim(
                d.call_close,
            ) by {
                if i < one.len() {
                    assert(all[i] == one[i]);
                } else if i >= one.len() + 2 {
                    assert(all[i] == tail[i - one.len() - 2]);
                }
            }
        }
    }
}

/// A call ends with the closing delimiter and holds it nowhere else.
proof fn lemma_call_closed(tools: Seq<Tool>, w: Seq<Sym>)
    requires
        is_some_call(tools, Delims::gemma4(), w),
    ensures
        closed(w, Delims::gemma4().call_close),
{
    let d = Delims::gemma4();
    let n = choose|n: int| 0 <= n < tools.len() && is_call(#[trigger] tools[n], d, w);
    let args = args_parts(required(tools[n].params@), d);
    let parts = call_parts(tools[n], d);
    lemma_args_without(required(tools[n].params@), d);
    assert forall|i: int| 0 <= i < parts.len() - 1 implies (#[trigger] parts[i]) != Part::Delim(
        d.call_close,
    ) by {
        if 5 <= i < 5 + args.len() {
            assert(parts[i] == args[i - 5]);
        }
    }
    lemma_closed(parts, w, d.call_close);
}

proof fn lemma_none_below(c: Constraint, s: int, n: nat)
    requires
        forall|t: int| !#[trigger] c.legal(s, t),
    ensures
        c.legal_below(s, n) == 0,
    decreases n,
{
    if n > 0 {
        lemma_none_below(c, s, (n - 1) as nat);
    }
}

/// Nothing may follow a complete call: once the constraint is done, no token is
/// legal and the count of legal tokens is zero.
pub proof fn law_nothing_follows_a_call(c: Constraint, tools: Seq<Tool>, ts: Seq<usize>)
    requires
        c.tables(),
        c.dfa().no_dead_end(),
        forall|w: Seq<Sym>| #[trigger]
            c.dfa().completes(c.dfa().spec_start() as int, w) == is_some_call(
                tools,
                Delims::gemma4(),
                w,
            ),
        c.walk(c.dfa().spec_start() as int, ts) is Some,
        c.dfa().spec_accepting(c.walk(c.dfa().spec_start() as int, ts).unwrap()),
    ensures
        forall|t: int|
            !#[trigger] c.legal(c.walk(c.dfa().spec_start() as int, ts).unwrap(), t),
        c.legal_below(c.walk(c.dfa().spec_start() as int, ts).unwrap(), c.vocab()) == 0,
{
    let start = c.dfa().spec_start() as int;
    let s = c.walk(start, ts).unwrap();
    let call = c.spelling_of(ts);
    c.lemma_start_is_a_state();
    c.lemma_walk_is_a_state(start, ts);
    c.law_walk_is_run(start, ts);
    assert(c.dfa().completes(start, call));
    lemma_call_closed(tools, call);
    assert forall|t: int| !#[trigger] c.legal(s, t) by {
        if c.legal(s, t) {
            let u = c.spelling(t);
            c.lemma_after_is_a_state(s, t);
            let n = c.after(s, t).unwrap();
            assert(c.dfa().completable(n));
            let v = choose|v: Seq<Sym>| c.dfa().completes(n, v);
            let w = call + (u + v);
            c.dfa().lemma_run_concat(s, u, v);
            c.dfa().lemma_run_concat(start, call, u + v);
            assert(c.dfa().completes(start, w));
            lemma_call_closed(tools, w);
            assert(w[call.len() - 1] == call.last());
        }
    }
    lemma_none_below(c, s, c.vocab());
}

/// Constrained decoding never runs into an empty choice: short of the end of a
/// call some token is legal, provided that every symbol the automaton asks for
/// has a token that spells it alone.
pub proof fn law_never_stuck(c: Constraint, s: int) -> (t: int)
    requires
        c.wf(),
        c.dfa().no_dead_end(),
        0 <= s < c.dfa().spec_num_states(),
        !c.dfa().spec_accepting(s),
        forall|a: Sym| #[trigger]
            c.dfa().edge(s, a) is Some ==> exists|t: int|
                0 <= t < c.vocab() && #[trigger] c.spelling(t) == seq![a],
    ensures
        c.legal(s, t),
{
    assert(c.dfa().completable(s));
    let w = choose|w: Seq<Sym>| c.dfa().completes(s, w);
    assert(w.len() > 0);
    let a = w[0];
    assert(c.dfa().edge(s, a) is Some);
    let t = choose|t: int| 0 <= t < c.vocab() && #[trigger] c.spelling(t) == seq![a];
    let n = c.dfa().edge(s, a).unwrap();
    assert(seq![a].skip(1).len() == 0);
    assert(c.dfa().run(n as int, seq![a].skip(1)) == Some(n as int));
    assert(c.dfa().run(s, seq![a]) == Some(n as int));
    t
}

} // verus!
