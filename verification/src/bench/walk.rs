//! Walking a grammar without a model: which tools can be spelled, and how often
//! the grammar leaves no choice.
use vstd::prelude::*;
use vstd::utf8::encode_utf8;
use crate::grammar::constraint::Constraint;
use crate::grammar::dfa::Dfa;
use crate::grammar::lang::{
    byte_syms, call_parts, choosable, is_some_call, matches_parts, Delims, Part, Sym, Tool,
};
use crate::grammar::laws::law_every_tool_is_spellable;
use crate::text::lemma_bytes_concat;

verus! {

// ---------------------------------------------------------------- bytes
/// Steps some bytes from a state.
fn run_bytes(c: &Constraint, from: usize, b: &[u8]) -> (r: Option<usize>)
    requires
        c.wf(),
        from < c.dfa().spec_num_states(),
    ensures
        match r {
            Some(n) => c.dfa().run(from as int, byte_syms(b@)) == Some(n as int) && n
                < c.dfa().spec_num_states(),
            None => c.dfa().run(from as int, byte_syms(b@)) is None,
        },
{
    let mut s: usize = from;
    let mut i: usize = 0;
    let ghost w = byte_syms(b@);
    assert(w.skip(0) =~= w);
    while i < b.len()
        invariant
            c.wf(),
            s < c.dfa().spec_num_states(),
            i <= b@.len(),
            w == byte_syms(b@),
            c.dfa().run(s as int, w.skip(i as int)) == c.dfa().run(from as int, w),
        decreases b@.len() - i,
    {
        proof {
            assert(w.skip(i as int)[0] == Sym::Byte(b@[i as int]));
            assert(w.skip(i as int).skip(1) =~= w.skip(i + 1));
        }
        match c.peek(s, b[i]) {
            Some(n) => {
                s = n;
            },
            None => {
                return None;
            },
        }
        i += 1;
    }
    assert(w.skip(i as int).len() == 0);
    Some(s)
}

/// How a call of a tool begins.
pub open spec fn opening(name: Seq<char>) -> Seq<Sym> {
    seq![Sym::Tok(Delims::gemma4().call_open)] + byte_syms(encode_utf8("call:"@ + name + "{"@))
}

/// Whether a call of a tool can be begun.
pub fn reachable(c: &Constraint, name: &str) -> (r: bool)
    requires
        c.wf(),
    ensures
        r == (c.dfa().run(c.dfa().spec_start() as int, opening(name@)) is Some),
{
    let start: usize = c.start();
    let mut text = "call:".to_owned();
    text.append(name);
    text.append("{");
    let ghost w = opening(name@);
    proof {
        assert(w[0] == Sym::Tok(Delims::gemma4().call_open));
        assert(w.skip(1) =~= byte_syms(encode_utf8("call:"@ + name@ + "{"@)));
    }
    match c.peek_tok(start, Delims::gemma4().call_open) {
        Some(s) => run_bytes(c, s, text.as_str().as_bytes()).is_some(),
        None => false,
    }
}

/// The first part of a word that matches several parts.
proof fn lemma_first_part(parts: Seq<Part>, w: Seq<Sym>) -> (k: int)
    requires
        parts.len() > 0,
        matches_parts(parts, w),
    ensures
        0 <= k <= w.len(),
        parts[0].matches(w.take(k)),
        matches_parts(parts.skip(1), w.skip(k)),
        w == w.take(k) + w.skip(k),
{
    let k = choose|k: int|
        0 <= k <= w.len() && #[trigger] parts[0].matches(w.take(k)) && matches_parts(
            parts.skip(1),
            w.skip(k),
        );
    assert(w =~= w.take(k) + w.skip(k));
    k
}

/// A grammar that takes exactly the calls of some tools can begin a call of
/// each of them.
pub proof fn law_every_tool_is_reachable(dfa: Dfa, tools: Seq<Tool>, i: int)
    requires
        0 <= i < tools.len(),
        choosable(tools[i]),
        forall|w: Seq<Sym>| #[trigger]
            dfa.completes(dfa.spec_start() as int, w) == is_some_call(
                tools,
                Delims::gemma4(),
                w,
            ),
    ensures
        dfa.run(dfa.spec_start() as int, opening(tools[i].name@)) is Some,
{
    let d = Delims::gemma4();
    let start = dfa.spec_start() as int;
    let name = tools[i].name@;
    let w = law_every_tool_is_spellable(tools, i, d);
    assert(dfa.completes(start, w));
    let p0 = call_parts(tools[i], d);
    let k0 = lemma_first_part(p0, w);
    let (p1, w1) = (p0.skip(1), w.skip(k0));
    let k1 = lemma_first_part(p1, w1);
    let (p2, w2) = (p1.skip(1), w1.skip(k1));
    let k2 = lemma_first_part(p2, w2);
    let (p3, w3) = (p2.skip(1), w2.skip(k2));
    let k3 = lemma_first_part(p3, w3);
    let v = w3.skip(k3);
    let a = encode_utf8("call:"@);
    let b = encode_utf8(name);
    let e = encode_utf8("{"@);
    assert(p1[0] == Part::Bytes(a));
    assert(p2[0] == Part::Bytes(b));
    assert(p3[0] == Part::Bytes(e));
    lemma_bytes_concat("call:"@, name);
    lemma_bytes_concat("call:"@ + name, "{"@);
    assert(byte_syms(a + b + e) =~= byte_syms(a) + byte_syms(b) + byte_syms(e));
    assert(w =~= opening(name) + v);
    dfa.lemma_run_concat(start, opening(name), v);
}

// ---------------------------------------------------------------- picking tokens
/// Whether a token may stand in a state and gets the walk on: a delimiter, which
/// has no bytes, or a token whose bytes lead to another state.
pub open spec fn moves(c: Constraint, vocab: Seq<Vec<u8>>, s: int, t: int) -> bool {
    &&& c.legal(s, t)
    &&& vocab[t]@.len() == 0 || (c.dfa().run(s, byte_syms(vocab[t]@)) matches Some(n) && n != s)
}

/// Whether a token is the one that a walk takes: the only one there is, else the
/// first that gets it on, else, unless the walk is strict, the first at all.
pub open spec fn is_pick(
    c: Constraint,
    vocab: Seq<Vec<u8>>,
    strict: bool,
    s: int,
    t: int,
) -> bool {
    &&& 0 <= t < vocab.len()
    &&& c.legal(s, t)
    &&& {
        ||| c.sole(s, t)
        ||| moves(c, vocab, s, t) && forall|u: int| 0 <= u < t ==> !#[trigger] moves(c, vocab, s, u)
        ||| !strict && (forall|u: int|
            0 <= u < vocab.len() ==> !#[trigger] moves(c, vocab, s, u)) && (forall|u: int|
            0 <= u < t ==> !#[trigger] c.legal(s, u))
    }
}

/// The token that a walk takes in a state.
pub fn pick_token(c: &Constraint, vocab: &[Vec<u8>], strict: bool, s: usize) -> (r: Option<usize>)
    requires
        c.wf(),
        vocab@.len() == c.vocab(),
        s < c.dfa().spec_num_states(),
    ensures
        match r {
            Some(t) => is_pick(*c, vocab@, strict, s as int, t as int),
            None => forall|t: int| !#[trigger] is_pick(*c, vocab@, strict, s as int, t),
        },
{
    let ghost si = s as int;
    if let Some(t) = c.forced_at(s) {
        return Some(t);
    }
    let mut first: Option<usize> = None;
    let mut t: usize = 0;
    while t < vocab.len()
        invariant
            c.wf(),
            vocab@.len() == c.vocab(),
            s < c.dfa().spec_num_states(),
            si == s,
            t <= vocab@.len(),
            forall|u: int| !#[trigger] c.sole(si, u),
            forall|u: int| 0 <= u < t ==> !#[trigger] moves(*c, vocab@, si, u),
            match first {
                Some(f) => f < t && c.legal(si, f as int) && forall|u: int|
                    0 <= u < f ==> !#[trigger] c.legal(si, u),
                None => forall|u: int| 0 <= u < t ==> !#[trigger] c.legal(si, u),
            },
        decreases vocab@.len() - t,
    {
        if c.allowed_at(s, t) {
            if vocab[t].len() == 0 {
                assert(moves(*c, vocab@, si, t as int));
                return Some(t);
            }
            if let Some(n) = run_bytes(c, s, vocab[t].as_slice()) {
                if n != s {
                    assert(moves(*c, vocab@, si, t as int));
                    return Some(t);
                }
            }
            if first.is_none() {
                first = Some(t);
            }
        }
        t += 1;
    }
    if strict {
        None
    } else {
        first
    }
}

// ---------------------------------------------------------------- a whole call
/// Where a walk came to.
pub struct Walk {
    pub tokens: Vec<usize>,
    /// for each token, whether it was the only one there was
    pub forced: Vec<bool>,
    /// the state that the walk came to
    pub end: usize,
}

/// Whether token `i` of a walk is the one that is taken there, short of the end
/// of a call.
pub open spec fn walked(
    c: Constraint,
    vocab: Seq<Vec<u8>>,
    strict: bool,
    ts: Seq<usize>,
    forced: Seq<bool>,
    i: int,
) -> bool {
    c.walk(c.dfa().spec_start() as int, ts.take(i)) matches Some(s) && {
        &&& !c.dfa().spec_accepting(s)
        &&& is_pick(c, vocab, strict, s, ts[i] as int)
        &&& forced[i] == c.sole(s, ts[i] as int)
    }
}

/// Walks a call of up to `max` tokens from the beginning of the grammar.
pub fn walk_call(c: &Constraint, vocab: &[Vec<u8>], strict: bool, max: usize) -> (w: Walk)
    requires
        c.wf(),
        vocab@.len() == c.vocab(),
    ensures
        w.tokens@.len() == w.forced@.len(),
        w.tokens@.len() <= max,
        forall|i: int|
            0 <= i < w.tokens@.len() ==> #[trigger] walked(
                *c,
                vocab@,
                strict,
                w.tokens@,
                w.forced@,
                i,
            ),
        c.walk(c.dfa().spec_start() as int, w.tokens@) == Some(w.end as int),
        w.tokens@.len() == max || c.dfa().spec_accepting(w.end as int) || forall|t: int|
            !#[trigger] is_pick(*c, vocab@, strict, w.end as int, t),
{
    let start: usize = c.start();
    let mut s: usize = start;
    let mut tokens: Vec<usize> = Vec::new();
    let mut forced: Vec<bool> = Vec::new();
    while tokens.len() < max
        invariant
            c.wf(),
            vocab@.len() == c.vocab(),
            s < c.dfa().spec_num_states(),
            start == c.dfa().spec_start(),
            tokens@.len() == forced@.len(),
            tokens@.len() <= max,
            forall|i: int|
                0 <= i < tokens@.len() ==> #[trigger] walked(
                    *c,
                    vocab@,
                    strict,
                    tokens@,
                    forced@,
                    i,
                ),
            c.walk(start as int, tokens@) == Some(s as int),
        decreases max - tokens@.len(),
    {
        if c.accepting(s) {
            return Walk { tokens, forced, end: s };
        }
        match pick_token(c, vocab, strict, s) {
            None => {
                return Walk { tokens, forced, end: s };
            },
            Some(t) => {
                let alone = match c.forced_at(s) {
                    Some(f) => f == t,
                    None => false,
                };
                let ghost before = tokens@;
                let ghost was = forced@;
                let ghost here = s as int;
                proof {
                    c.lemma_walk_push(start as int, before, t);
                    assert(alone == c.sole(here, t as int)) by {
                        if c.sole(here, t as int) {
                            assert(c.legal(here, t as int));
                        }
                    }
                }
                match c.peek_token(s, t) {
                    Some(n) => {
                        s = n;
                    },
                    None => {
                        assert(false);
                    },
                }
                tokens.push(t);
                forced.push(alone);
                proof {
                    assert forall|i: int| 0 <= i < tokens@.len() implies #[trigger] walked(
                        *c,
                        vocab@,
                        strict,
                        tokens@,
                        forced@,
                        i,
                    ) by {
                        assert(tokens@.take(i) =~= before.take(i));
                        if i < before.len() {
                            assert(walked(*c, vocab@, strict, before, was, i));
                        } else {
                            assert(before.take(i) =~= before);
                        }
                    }
                }
            },
        }
    }
    Walk { tokens, forced, end: s }
}

// ---------------------------------------------------------------- runs
/// The runs of `true` that have ended, and the length of the one that has not.
pub open spec fn runs(f: Seq<bool>) -> (Seq<int>, int)
    decreases f.len(),
{
    if f.len() == 0 {
        (Seq::empty(), 0)
    } else {
        let (r, n) = runs(f.drop_last());
        if f.last() {
            (r, n + 1)
        } else if n > 0 {
            (r.push(n), 0)
        } else {
            (r, 0)
        }
    }
}

/// The lengths of the runs of `true`.
pub open spec fn lengths(f: Seq<bool>) -> Seq<int> {
    let (r, n) = runs(f);
    if n > 0 {
        r.push(n)
    } else {
        r
    }
}

/// How many are true.
pub open spec fn trues(f: Seq<bool>) -> int
    decreases f.len(),
{
    if f.len() == 0 {
        0
    } else {
        trues(f.drop_last()) + if f.last() {
            1int
        } else {
            0
        }
    }
}

/// A sum.
pub open spec fn total(s: Seq<int>) -> int
    decreases s.len(),
{
    if s.len() == 0 {
        0
    } else {
        total(s.drop_last()) + s.last()
    }
}

/// What lengths are as numbers.
pub open spec fn ints(v: Seq<usize>) -> Seq<int> {
    v.map_values(|n: usize| n as int)
}

/// The lengths of the runs of forced tokens. A run of `k` takes one forward
/// instead of `k`.
pub fn run_lengths(f: &Vec<bool>) -> (r: Vec<usize>)
    ensures
        ints(r@) == lengths(f@),
{
    let mut r: Vec<usize> = Vec::new();
    let mut n: usize = 0;
    let mut i: usize = 0;
    assert(ints(r@) =~= Seq::empty());
    while i < f.len()
        invariant
            i <= f@.len(),
            n <= i,
            (ints(r@), n as int) == runs(f@.take(i as int)),
        decreases f@.len() - i,
    {
        let ghost r0 = r@;
        let ghost n0 = n;
        assert(f@.take(i + 1).drop_last() =~= f@.take(i as int));
        if f[i] {
            n += 1;
        } else if n > 0 {
            r.push(n);
            assert(ints(r@) =~= ints(r0).push(n as int));
            n = 0;
        }
        i += 1;
    }
    assert(f@.take(i as int) =~= f@);
    if n > 0 {
        let ghost r0 = r@;
        r.push(n);
        assert(ints(r@) =~= ints(r0).push(n as int));
    }
    r
}

proof fn lemma_runs(f: Seq<bool>)
    ensures
        total(runs(f).0) + runs(f).1 == trues(f),
        runs(f).1 >= 0,
        forall|i: int| 0 <= i < runs(f).0.len() ==> #[trigger] runs(f).0[i] > 0,
    decreases f.len(),
{
    if f.len() > 0 {
        lemma_runs(f.drop_last());
        let (r, n) = runs(f.drop_last());
        if !f.last() && n > 0 {
            assert(r.push(n).drop_last() =~= r);
        }
    }
}

/// The runs hold every forced token, and none of them is empty.
pub proof fn law_runs_hold_every_forced_token(f: Seq<bool>)
    ensures
        total(lengths(f)) == trues(f),
        forall|i: int| 0 <= i < lengths(f).len() ==> #[trigger] lengths(f)[i] > 0,
{
    lemma_runs(f);
    let (r, n) = runs(f);
    if n > 0 {
        assert(r.push(n).drop_last() =~= r);
    }
}

/// Runs are parted by what is not forced: a stretch of forced tokens alone is one run of
/// its length, and a token that is not forced parts the runs before it from those
/// behind it.
pub proof fn law_runs_are_parted_by_choices(f: Seq<bool>, g: Seq<bool>)
    ensures
        lengths(f + seq![false] + g) == lengths(f) + lengths(g),
        (forall|i: int| 0 <= i < f.len() ==> #[trigger] f[i]) && f.len() > 0 ==> lengths(f) == seq![
            f.len() as int,
        ],
    decreases f.len() + g.len(),
{
    if forall|i: int| 0 <= i < f.len() ==> #[trigger] f[i] {
        lemma_one_run(f);
        if f.len() > 0 {
            assert(lengths(f) =~= seq![f.len() as int]);
        }
    }
    lemma_runs_parted(f, g);
    lemma_open_run(f);
    lemma_open_run(g);
    assert(lengths(f + seq![false] + g) =~= lengths(f) + lengths(g));
}

proof fn lemma_open_run(f: Seq<bool>)
    ensures
        runs(f).1 >= 0,
    decreases f.len(),
{
    if f.len() > 0 {
        lemma_open_run(f.drop_last());
    }
}

proof fn lemma_one_run(f: Seq<bool>)
    requires
        forall|i: int| 0 <= i < f.len() ==> #[trigger] f[i],
    ensures
        runs(f) == (Seq::<int>::empty(), f.len() as int),
    decreases f.len(),
{
    if f.len() > 0 {
        let init = f.drop_last();
        assert forall|i: int| 0 <= i < init.len() implies #[trigger] init[i] by {
            assert(f[i]);
        }
        lemma_one_run(init);
        assert(f[f.len() - 1]);
    }
}

proof fn lemma_runs_parted(f: Seq<bool>, g: Seq<bool>)
    ensures
        runs(f + seq![false] + g) == (lengths(f) + runs(g).0, runs(g).1),
    decreases g.len(),
{
    let s = f + seq![false] + g;
    lemma_open_run(f);
    if g.len() == 0 {
        assert(s.drop_last() =~= f);
        assert(!s.last());
        assert(runs(s).0 =~= lengths(f) + runs(g).0);
    } else {
        let rest = g.drop_last();
        assert(s.drop_last() =~= f + seq![false] + rest);
        assert(s.last() == g.last());
        lemma_runs_parted(f, rest);
        assert(runs(s).0 =~= lengths(f) + runs(g).0);
    }
}

/// A walk takes the first token that gets it on: where there is a choice and some token
/// gets on, the one that is taken does, and no earlier one would.
pub proof fn law_walks_take_the_first_that_gets_on(
    c: Constraint,
    vocab: Seq<Vec<u8>>,
    strict: bool,
    s: int,
    t: int,
    u: int,
)
    requires
        is_pick(c, vocab, strict, s, t),
        0 <= u < vocab.len(),
    ensures
        c.after(s, t) is Some,
        moves(c, vocab, s, u) && !c.sole(s, t) ==> moves(c, vocab, s, t) && t <= u,
        c.sole(s, u) ==> t == u,
        strict && !c.sole(s, t) ==> moves(c, vocab, s, t),
{
    if c.sole(s, u) {
        assert(c.legal(s, t));
    }
}

} // verus!
