//! Greedy decoding under a constraint, with two ways to take several tokens in
//! one forward.
//!
//! A run of tokens that the grammar alone determines is emitted at once. A
//! draft, copied from the prompt after the last two tokens, is verified token
//! by token against what the model chooses. Neither may change the output:
//! taking several tokens at once is worth something only if nobody can tell.
use vstd::prelude::*;
use crate::grammar::constraint::Constraint;
use crate::grammar::lang::{
    call_parts, is_call, is_some_call, matches_parts, Delims, Sym, Tool,
};
use crate::grammar::laws::law_done_is_a_call;

verus! {

// ---------------------------------------------------------------- settings
/// How to decode.
pub struct Rules {
    pub con: Option<Constraint>,
    pub prompt: Vec<u32>,
    /// the tokens that end an output
    pub eos: Vec<u32>,
    /// how many tokens to emit at most
    pub ngen: usize,
    /// whether runs of forced tokens are taken at once
    pub batch_forced: bool,
    /// how many tokens to draft from the prompt
    pub lookahead: usize,
}

/// The longest run of forced tokens that is taken at once.
pub const LONGEST_RUN: usize = 15;

impl Rules {
    /// Whether a token ends an output.
    pub open spec fn ends(&self, t: u32) -> bool {
        self.eos@.contains(t)
    }

    /// Whether a call is complete in state `s` of the constraint.
    pub open spec fn complete(&self, s: int) -> bool {
        match self.con {
            Some(c) => c.dfa().spec_accepting(s),
            None => false,
        }
    }

    /// The state after a token; one that may not stand there changes nothing.
    pub open spec fn take(&self, s: int, t: u32) -> int {
        match self.con {
            Some(c) => match c.after(s, t as int) {
                Some(n) => n,
                None => s,
            },
            None => s,
        }
    }

    /// Whether token `t` is the only one that may stand in state `s`.
    pub open spec fn only(&self, s: int, t: u32) -> bool {
        match self.con {
            Some(c) => c.sole(s, t as int),
            None => false,
        }
    }

    /// Whether `s` is a state of the constraint.
    pub open spec fn is_state(&self, s: int) -> bool {
        match self.con {
            Some(c) => 0 <= s < c.dfa().spec_num_states(),
            None => true,
        }
    }

    /// Whether the constraint's tables hold, its tokens have ids, and what is
    /// emitted can be counted.
    pub open spec fn wf(&self) -> bool {
        &&& self.prompt@.len() + self.ngen + 1 <= usize::MAX
        &&& match self.con {
            Some(c) => c.tables() && c.vocab() <= u32::MAX,
            None => true,
        }
    }

    /// The tokens that the constraint alone determines from state `s`, up to
    /// `max` of them. Nothing follows a token that ends the output or completes
    /// the call.
    pub open spec fn forced(&self, s: int, max: nat) -> Seq<u32>
        decreases max,
    {
        if max > 0 && exists|t: u32| self.only(s, t) {
            let t = choose|t: u32| self.only(s, t);
            let n = self.take(s, t);
            if self.ends(t) || self.complete(n) {
                seq![t]
            } else {
                seq![t] + self.forced(n, (max - 1) as nat)
            }
        } else {
            Seq::empty()
        }
    }

    /// The state after several tokens.
    pub open spec fn take_all(&self, s: int, ts: Seq<u32>) -> int
        decreases ts.len(),
    {
        if ts.len() == 0 {
            s
        } else {
            self.take_all(self.take(s, ts[0]), ts.skip(1))
        }
    }
}

// ---------------------------------------------------------------- drafts
/// The last place before `j` in the prompt that follows the tokens `a` and `b`.
pub open spec fn follows(prompt: Seq<u32>, a: u32, b: u32, j: int) -> Option<int>
    decreases j,
{
    if j <= 2 {
        None
    } else if prompt[j - 3] == a && prompt[j - 2] == b {
        Some(j - 1)
    } else {
        follows(prompt, a, b, j - 1)
    }
}

/// What the prompt suggests after the last two tokens of an output: up to
/// `lookahead` tokens from where the prompt last had those two.
pub open spec fn draft(prompt: Seq<u32>, out: Seq<u32>, lookahead: int) -> Seq<u32> {
    if lookahead > 0 && out.len() >= 2 {
        match follows(prompt, out[out.len() - 2], out[out.len() - 1], prompt.len() as int) {
            Some(j) => prompt.subrange(
                j,
                if prompt.len() - j < lookahead {
                    prompt.len() as int
                } else {
                    j + lookahead
                },
            ),
            None => Seq::empty(),
        }
    } else {
        Seq::empty()
    }
}

proof fn lemma_follows(prompt: Seq<u32>, a: u32, b: u32, j: int)
    ensures
        follows(prompt, a, b, j) matches Some(k) ==> 2 <= k < j,
    decreases j,
{
    if j > 2 {
        lemma_follows(prompt, a, b, j - 1);
    }
}

/// Whether position `j` of a prompt follows two tokens.
pub open spec fn stands_behind(prompt: Seq<u32>, a: u32, b: u32, j: int) -> bool {
    2 <= j < prompt.len() && prompt[j - 2] == a && prompt[j - 1] == b
}

proof fn lemma_follows_last(prompt: Seq<u32>, a: u32, b: u32, n: int)
    requires
        n <= prompt.len(),
    ensures
        match follows(prompt, a, b, n) {
            Some(j) => j < n && stands_behind(prompt, a, b, j) && forall|i: int|
                j < i < n ==> !#[trigger] stands_behind(prompt, a, b, i),
            None => forall|i: int| i < n ==> !#[trigger] stands_behind(prompt, a, b, i),
        },
    decreases n,
{
    if n > 2 && !(prompt[n - 3] == a && prompt[n - 2] == b) {
        lemma_follows_last(prompt, a, b, n - 1);
        assert(!stands_behind(prompt, a, b, n - 1));
    }
}

/// A draft is what the prompt says where it last had the two tokens that the output
/// ends in: there is one exactly if the prompt goes on behind such a place, and it
/// is as long as asked for, or as the prompt.
pub proof fn law_drafts_follow_the_last_place(
    prompt: Seq<u32>,
    out: Seq<u32>,
    a: u32,
    b: u32,
    lookahead: int,
    j: int,
)
    requires
        lookahead > 0,
    ensures
        ({
            let d = draft(prompt, out + seq![a, b], lookahead);
            &&& stands_behind(prompt, a, b, j) && (forall|i: int|
                j < i ==> !#[trigger] stands_behind(prompt, a, b, i)) ==> {
                &&& d.is_prefix_of(prompt.skip(j))
                &&& d.len() == lookahead || d == prompt.skip(j)
                &&& 0 < d.len() <= lookahead
            }
            &&& (forall|i: int| !#[trigger] stands_behind(prompt, a, b, i)) ==> d.len() == 0
        }),
        draft(prompt, seq![a], lookahead).len() == 0,
        draft(prompt, out, 0).len() == 0,
{
    let end = out + seq![a, b];
    assert(end[end.len() - 2] == a && end[end.len() - 1] == b);
    let n = prompt.len() as int;
    lemma_follows_last(prompt, a, b, n);
    let d = draft(prompt, end, lookahead);
    if let Some(k) = follows(prompt, a, b, n) {
        assert(stands_behind(prompt, a, b, k));
        if stands_behind(prompt, a, b, j) && (forall|i: int|
            j < i ==> !#[trigger] stands_behind(prompt, a, b, i)) {
            assert(k == j) by {
                if k < j {
                    assert(!stands_behind(prompt, a, b, j));
                }
            }
            assert(d =~= prompt.skip(j).subrange(0, d.len() as int));
            if n - j < lookahead {
                assert(d =~= prompt.skip(j));
            }
        }
    } else if stands_behind(prompt, a, b, j) {
        assert(!stands_behind(prompt, a, b, j));
    }
}

/// What the prompt suggests after the last two tokens of an output.
pub fn lookup(prompt: &Vec<u32>, out: &Vec<u32>, lookahead: usize) -> (r: Vec<u32>)
    ensures
        r@ == draft(prompt@, out@, lookahead as int),
{
    let mut r: Vec<u32> = Vec::new();
    if lookahead == 0 || out.len() < 2 {
        return r;
    }
    let a: u32 = out[out.len() - 2];
    let b: u32 = out[out.len() - 1];
    let mut j: usize = prompt.len();
    while j > 2 && !(prompt[j - 3] == a && prompt[j - 2] == b)
        invariant
            j <= prompt@.len(),
            follows(prompt@, a, b, j as int) == follows(prompt@, a, b, prompt@.len() as int),
        decreases j,
    {
        j -= 1;
    }
    if j <= 2 {
        return r;
    }
    let from: usize = j - 1;
    let to: usize = if prompt.len() - from < lookahead {
        prompt.len()
    } else {
        from + lookahead
    };
    let mut i: usize = from;
    while i < to
        invariant
            from <= i <= to <= prompt@.len(),
            r@ == prompt@.subrange(from as int, i as int),
        decreases to - i,
    {
        r.push(prompt[i]);
        i += 1;
        assert(r@ =~= prompt@.subrange(from as int, i as int));
    }
    r
}

// ---------------------------------------------------------------- decoding
/// Which logits a forward has to leave.
#[derive(Clone, Copy, Debug, PartialEq, Eq, Structural)]
pub enum Want {
    Nothing,
    /// those after the last token
    Last,
    /// those after each token
    All,
}

/// What to do next.
pub enum Step {
    /// run these tokens from this position on
    Forward { batch: Vec<u32>, pos: usize, want: Want },
    Done,
}

/// How far decoding has come.
pub enum Stage {
    /// the next token is known and has not been emitted
    Ready,
    /// `acc` tokens of a draft have been verified; what follows is to be chosen
    Choosing { draft: Vec<u32>, acc: usize },
    Over,
}

/// A sequence being decoded.
pub struct Decoder {
    pub rules: Rules,
    /// what has been emitted
    pub out: Vec<u32>,
    /// the token that comes next
    pub tok: u32,
    /// the state of the constraint
    pub at: usize,
    /// the position of the next token
    pub pos: usize,
    pub stage: Stage,
}

/// What a step asks for.
#[verifier::ext_equal]
pub enum Asked {
    Forward { batch: Seq<u32>, pos: int, want: Want },
    Done,
}

impl View for Step {
    type V = Asked;

    open spec fn view(&self) -> Asked {
        match *self {
            Step::Forward { batch, pos, want } => Asked::Forward {
                batch: batch@,
                pos: pos as int,
                want,
            },
            Step::Done => Asked::Done,
        }
    }
}

/// How far decoding has come.
#[verifier::ext_equal]
pub enum Phase {
    Ready,
    Choosing { draft: Seq<u32>, acc: int },
    Over,
}

/// Where decoding stands.
#[verifier::ext_equal]
pub struct Standing {
    pub out: Seq<u32>,
    pub tok: u32,
    pub at: int,
    pub pos: int,
    pub phase: Phase,
}

impl View for Decoder {
    type V = Standing;

    open spec fn view(&self) -> Standing {
        Standing {
            out: self.out@,
            tok: self.tok,
            at: self.at as int,
            pos: self.pos as int,
            phase: match self.stage {
                Stage::Ready => Phase::Ready,
                Stage::Choosing { draft, acc } => Phase::Choosing {
                    draft: draft@,
                    acc: acc as int,
                },
                Stage::Over => Phase::Over,
            },
        }
    }
}

/// Whether a standing can come about: the next forward begins where the last
/// one ended, and what is still to be verified fits the output.
pub open spec fn in_step(r: Rules, d: Standing) -> bool {
    &&& r.is_state(d.at)
    &&& d.out.len() <= r.ngen
    &&& match d.phase {
        Phase::Ready => d.pos == r.prompt@.len() + d.out.len(),
        Phase::Choosing { draft, acc } => {
            &&& 0 <= acc <= draft.len()
            &&& d.pos + acc + 1 == r.prompt@.len() + d.out.len()
            &&& draft.len() > 0 ==> d.out.len() + (draft.len() - acc) + 1 <= r.ngen
        },
        Phase::Over => true,
    }
}

/// What comes next.
pub open spec fn next_of(r: Rules, d: Standing) -> (Standing, Asked) {
    let out = d.out.push(d.tok);
    let run = if r.batch_forced {
        r.forced(d.at, LONGEST_RUN as nat)
    } else {
        Seq::empty()
    };
    let guess = draft(r.prompt@, out, r.lookahead as int);
    if d.phase is Over {
        (d, Asked::Done)
    } else if d.out.len() >= r.ngen || r.ends(d.tok) {
        (Standing { phase: Phase::Over, ..d }, Asked::Done)
    } else if r.complete(d.at) {
        (Standing { out, phase: Phase::Over, ..d }, Asked::Done)
    } else if run.len() > 1 && out.len() + run.len() <= r.ngen {
        (
            Standing {
                out: out + run.drop_last(),
                tok: run.last(),
                at: r.take_all(d.at, run),
                pos: d.pos + run.len(),
                phase: Phase::Ready,
            },
            Asked::Forward { batch: seq![d.tok] + run.drop_last(), pos: d.pos, want: Want::Nothing },
        )
    } else if guess.len() > 0 && out.len() + guess.len() + 1 <= r.ngen {
        (
            Standing { out, phase: Phase::Choosing { draft: guess, acc: 0 }, ..d },
            Asked::Forward { batch: seq![d.tok] + guess, pos: d.pos, want: Want::All },
        )
    } else if exists|t: u32| r.only(d.at, t) {
        let t = choose|t: u32| r.only(d.at, t);
        (
            Standing {
                out,
                tok: t,
                at: r.take(d.at, t),
                pos: d.pos + 1,
                phase: Phase::Ready,
            },
            Asked::Forward { batch: seq![d.tok], pos: d.pos, want: Want::Nothing },
        )
    } else {
        (
            Standing { out, phase: Phase::Choosing { draft: Seq::empty(), acc: 0 }, ..d },
            Asked::Forward { batch: seq![d.tok], pos: d.pos, want: Want::Last },
        )
    }
}

/// What the model's choice leads to, and the row whose logits decide next.
pub open spec fn chosen(r: Rules, d: Standing, next: u32) -> (Standing, Option<int>) {
    match d.phase {
        Phase::Choosing { draft, acc } => {
            let at = r.take(d.at, next);
            let out = d.out.push(next);
            if acc < draft.len() && next == draft[acc] && !r.ends(next) {
                if r.complete(at) {
                    (
                        Standing {
                            out,
                            tok: next,
                            at,
                            pos: d.pos + acc + 2,
                            phase: Phase::Over,
                        },
                        None,
                    )
                } else {
                    (
                        Standing {
                            out,
                            at,
                            phase: Phase::Choosing { draft, acc: acc + 1 },
                            ..d
                        },
                        Some(acc + 1),
                    )
                }
            } else {
                (Standing { tok: next, at, pos: d.pos + acc + 1, phase: Phase::Ready, ..d }, None)
            }
        },
        _ => (d, None),
    }
}

fn contains(v: &Vec<u32>, x: u32) -> (r: bool)
    ensures
        r == v@.contains(x),
{
    let mut i: usize = 0;
    while i < v.len()
        invariant
            i <= v@.len(),
            forall|j: int| 0 <= j < i ==> v@[j] != x,
        decreases v@.len() - i,
    {
        if v[i] == x {
            assert(v@.contains(x));
            return true;
        }
        i += 1;
    }
    false
}

impl Rules {
    proof fn lemma_only_one(&self, s: int, t: u32, u: u32)
        requires
            self.only(s, t),
            self.only(s, u),
        ensures
            t == u,
    {
        let c = self.con->0;
        assert(c.legal(s, u as int));
    }

    fn taken(&self, s: usize, t: u32) -> (n: usize)
        requires
            self.wf(),
            self.is_state(s as int),
        ensures
            n == self.take(s as int, t),
            self.is_state(n as int),
    {
        match &self.con {
            Some(c) => match c.peek_token(s, t as usize) {
                Some(n) => n,
                None => s,
            },
            None => s,
        }
    }

    fn completes(&self, s: usize) -> (r: bool)
        requires
            self.wf(),
            self.is_state(s as int),
        ensures
            r == self.complete(s as int),
    {
        match &self.con {
            Some(c) => c.accepting(s),
            None => false,
        }
    }

    fn forced_token(&self, s: usize) -> (r: Option<u32>)
        requires
            self.wf(),
            self.is_state(s as int),
        ensures
            match r {
                Some(t) => self.only(s as int, t) && (exists|u: u32| self.only(s as int, u)) && t == (
                choose|u: u32| self.only(s as int, u)),
                None => !exists|u: u32| self.only(s as int, u),
            },
    {
        match &self.con {
            Some(c) => match c.forced_at(s) {
                Some(t) => {
                    assert(c.legal(s as int, t as int));
                    let t: u32 = t as u32;
                    proof {
                        assert(self.only(s as int, t));
                        let u = choose|u: u32| self.only(s as int, u);
                        self.lemma_only_one(s as int, t, u);
                    }
                    Some(t)
                },
                None => None,
            },
            None => None,
        }
    }

    /// The forced tokens from a state, and the state after them.
    fn forced_run(&self, from: usize, max: usize) -> (r: (Vec<u32>, usize))
        requires
            self.wf(),
            self.is_state(from as int),
        ensures
            r.0@ == self.forced(from as int, max as nat),
            r.1 == self.take_all(from as int, r.0@),
            self.is_state(r.1 as int),
            r.0@.len() <= max,
    {
        let mut run: Vec<u32> = Vec::new();
        let mut s: usize = from;
        while run.len() < max
            invariant
                self.wf(),
                self.is_state(s as int),
                run@.len() <= max,
                self.forced(from as int, max as nat) == run@ + self.forced(
                    s as int,
                    (max - run@.len()) as nat,
                ),
                self.take_all(from as int, run@) == s,
            decreases max - run@.len(),
        {
            match self.forced_token(s) {
                None => {
                    assert(self.forced(from as int, max as nat) =~= run@);
                    return (run, s);
                },
                Some(t) => {
                    let n: usize = self.taken(s, t);
                    let last = contains(&self.eos, t) || self.completes(n);
                    let ghost run0 = run@;
                    run.push(t);
                    proof {
                        self.lemma_take_push(from as int, run0, t);
                        assert(run@ =~= run0 + seq![t]);
                    }
                    s = n;
                    if last {
                        assert(self.forced(from as int, max as nat) =~= run@);
                        return (run, s);
                    }
                    assert(run0 + (seq![t] + self.forced(n as int, (max - run@.len()) as nat))
                        =~= run@ + self.forced(n as int, (max - run@.len()) as nat));
                },
            }
        }
        assert(self.forced(from as int, max as nat) =~= run@);
        (run, s)
    }

    proof fn lemma_take_is_a_state(&self, s: int, t: u32)
        requires
            self.wf(),
            self.is_state(s),
        ensures
            self.is_state(self.take(s, t)),
    {
        if let Some(c) = self.con {
            c.lemma_after_is_a_state(s, t as int);
        }
    }

    proof fn lemma_take_all_is_a_state(&self, s: int, ts: Seq<u32>)
        requires
            self.wf(),
            self.is_state(s),
        ensures
            self.is_state(self.take_all(s, ts)),
        decreases ts.len(),
    {
        if ts.len() > 0 {
            self.lemma_take_is_a_state(s, ts[0]);
            self.lemma_take_all_is_a_state(self.take(s, ts[0]), ts.skip(1));
        }
    }

    proof fn lemma_take_push(&self, s: int, ts: Seq<u32>, t: u32)
        ensures
            self.take_all(s, ts.push(t)) == self.take(self.take_all(s, ts), t),
        decreases ts.len(),
    {
        let us = ts.push(t);
        if ts.len() == 0 {
            assert(us.skip(1).len() == 0);
            assert(self.take_all(self.take(s, t), us.skip(1)) == self.take(s, t));
        } else {
            assert(us.skip(1) =~= ts.skip(1).push(t));
            self.lemma_take_push(self.take(s, ts[0]), ts.skip(1), t);
        }
    }
}

impl Decoder {
    /// Whether the settings hold and the standing can come about.
    pub open spec fn wf(&self) -> bool {
        self.rules.wf() && in_step(self.rules, self@)
    }

    /// A sequence whose prompt has been run and whose first token is `first`.
    pub fn new(rules: Rules, first: u32) -> (d: Decoder)
        requires
            rules.wf(),
        ensures
            d.wf(),
            d.rules == rules,
            d@ == (Standing {
                out: Seq::empty(),
                tok: first,
                at: match rules.con {
                    Some(c) => rules.take(c.dfa().spec_start() as int, first),
                    None => 0,
                },
                pos: rules.prompt@.len() as int,
                phase: Phase::Ready,
            }),
    {
        let start: usize = match &rules.con {
            Some(c) => c.start(),
            None => 0,
        };
        let at: usize = rules.taken(start, first);
        let pos: usize = rules.prompt.len();
        Decoder { rules, out: Vec::new(), tok: first, at, pos, stage: Stage::Ready }
    }

    /// Emits the token that is known, and says what to run.
    pub fn next(&mut self) -> (a: Step)
        requires
            old(self).wf(),
            old(self).stage !is Choosing,
        ensures
            final(self).wf(),
            final(self).rules == old(self).rules,
            (final(self)@, a@) == next_of(old(self).rules, old(self)@),
    {
        if let Stage::Over = self.stage {
            return Step::Done;
        }
        if self.out.len() >= self.rules.ngen || contains(&self.rules.eos, self.tok) {
            self.stage = Stage::Over;
            return Step::Done;
        }
        self.out.push(self.tok);
        if self.rules.completes(self.at) {
            self.stage = Stage::Over;
            return Step::Done;
        }
        let pos: usize = self.pos;
        let mut batch: Vec<u32> = Vec::new();
        batch.push(self.tok);
        assert(batch@ =~= seq![self.tok]);
        let ghost out1 = self.out@;
        if self.rules.batch_forced {
            let (run, at) = self.rules.forced_run(self.at, LONGEST_RUN);
            if run.len() > 1 && run.len() <= self.rules.ngen - self.out.len() {
                let n: usize = run.len();
                let ghost first = self.tok;
                let mut i: usize = 0;
                while i + 1 < n
                    invariant
                        n == run@.len(),
                        n >= 2,
                        i < n,
                        batch@ == seq![first] + run@.take(i as int),
                        self.out@ == out1 + run@.take(i as int),
                        self.rules == old(self).rules,
                        self.at == old(self).at,
                        self.pos == old(self).pos,
                    decreases n - i,
                {
                    batch.push(run[i]);
                    self.out.push(run[i]);
                    i += 1;
                    assert(run@.take(i as int) =~= run@.take(i - 1).push(run@[i - 1]));
                    assert(batch@ =~= seq![first] + run@.take(i as int));
                    assert(self.out@ =~= out1 + run@.take(i as int));
                }
                assert(run@.take(i as int) =~= run@.drop_last());
                self.tok = run[n - 1];
                self.at = at;
                self.pos = self.pos + n;
                self.stage = Stage::Ready;
                return Step::Forward { batch, pos, want: Want::Nothing };
            }
        }
        let guess = lookup(&self.rules.prompt, &self.out, self.rules.lookahead);
        if guess.len() > 0 && guess.len() < self.rules.ngen - self.out.len() {
            let mut i: usize = 0;
            while i < guess.len()
                invariant
                    i <= guess@.len(),
                    batch@ == seq![old(self).tok] + guess@.take(i as int),
                decreases guess@.len() - i,
            {
                batch.push(guess[i]);
                i += 1;
                assert(batch@ =~= seq![old(self).tok] + guess@.take(i as int));
            }
            assert(guess@.take(i as int) =~= guess@);
            self.stage = Stage::Choosing { draft: guess, acc: 0 };
            return Step::Forward { batch, pos, want: Want::All };
        }
        match self.rules.forced_token(self.at) {
            Some(t) => {
                self.at = self.rules.taken(self.at, t);
                self.tok = t;
                self.pos = self.pos + 1;
                self.stage = Stage::Ready;
                Step::Forward { batch, pos, want: Want::Nothing }
            },
            None => {
                let nothing: Vec<u32> = Vec::new();
                assert(nothing@ =~= Seq::empty());
                self.stage = Stage::Choosing { draft: nothing, acc: 0 };
                Step::Forward { batch, pos, want: Want::Last }
            },
        }
    }

    /// Takes the token that the model chose, and says from which row to choose
    /// next.
    pub fn choose_token(&mut self, next: u32) -> (row: Option<usize>)
        requires
            old(self).wf(),
            old(self).stage is Choosing,
        ensures
            final(self).wf(),
            final(self).rules == old(self).rules,
            (
                final(self)@,
                match row {
                    Some(i) => Some(i as int),
                    None => None,
                },
            ) == chosen(old(self).rules, old(self)@, next),
    {
        let at: usize = self.rules.taken(self.at, next);
        let mut stage = Stage::Over;
        std::mem::swap(&mut stage, &mut self.stage);
        if let Stage::Choosing { draft, acc } = stage {
            if acc < draft.len() && next == draft[acc] && !contains(&self.rules.eos, next) {
                self.out.push(next);
                self.at = at;
                if self.rules.completes(at) {
                    self.tok = next;
                    self.pos = self.pos + acc + 2;
                    return None;
                }
                self.stage = Stage::Choosing { draft, acc: acc + 1 };
                return Some(acc + 1);
            }
            self.tok = next;
            self.at = at;
            self.pos = self.pos + acc + 1;
            self.stage = Stage::Ready;
        }
        None
    }

    /// Sets the logits that the constraint rules out to negative infinity.
    pub fn mask(&self, logits: &mut Vec<u32>)
        requires
            self.wf(),
            self.rules.con matches Some(c) ==> old(logits)@.len() == c.vocab(),
        ensures
            final(logits)@ == match self.rules.con {
                Some(c) => c.masked(self.at as int, old(logits)@),
                None => old(logits)@,
            },
    {
        if let Some(c) = &self.rules.con {
            c.apply_at(self.at, logits);
        }
    }
}

// ---------------------------------------------------------------- what decoding means
/// How a model answers: the token it chooses after an output, among those that
/// a state of the constraint admits.
pub open spec fn heeds(r: Rules, f: spec_fn(Seq<u32>, int) -> u32) -> bool {
    forall|o: Seq<u32>, s: int, t: u32| #[trigger] r.only(s, t) ==> #[trigger] f(o, s) == t
}

/// The output of plain greedy decoding from `tok` on: one token at a time, until
/// one ends the output, a call is complete, or `ngen` tokens have been emitted.
pub open spec fn greedy(
    r: Rules,
    f: spec_fn(Seq<u32>, int) -> u32,
    out: Seq<u32>,
    tok: u32,
    at: int,
) -> Seq<u32>
    decreases r.ngen - out.len(),
{
    if out.len() >= r.ngen || r.ends(tok) {
        out
    } else {
        let o = out.push(tok);
        if r.complete(at) {
            o
        } else {
            greedy(r, f, o, f(o, at), r.take(at, f(o, at)))
        }
    }
}

/// The output that a standing leads to.
pub open spec fn outcome(r: Rules, f: spec_fn(Seq<u32>, int) -> u32, d: Standing) -> Seq<u32> {
    match d.phase {
        Phase::Ready => greedy(r, f, d.out, d.tok, d.at),
        Phase::Choosing { .. } => greedy(r, f, d.out, f(d.out, d.at), r.take(d.at, f(d.out, d.at))),
        Phase::Over => d.out,
    }
}

proof fn lemma_forced_is_greedy(
    r: Rules,
    f: spec_fn(Seq<u32>, int) -> u32,
    o: Seq<u32>,
    s: int,
    max: nat,
)
    requires
        heeds(r, f),
        r.forced(s, max).len() > 0,
        o.len() + r.forced(s, max).len() <= r.ngen,
    ensures
        greedy(r, f, o, f(o, s), r.take(s, f(o, s))) == greedy(
            r,
            f,
            o + r.forced(s, max).drop_last(),
            r.forced(s, max).last(),
            r.take_all(s, r.forced(s, max)),
        ),
    decreases max,
{
    let run = r.forced(s, max);
    let t = choose|t: u32| r.only(s, t);
    let n = r.take(s, t);
    assert(f(o, s) == t);
    if r.ends(t) || r.complete(n) || r.forced(n, (max - 1) as nat).len() == 0 {
        assert(run =~= seq![t]);
        assert(o + run.drop_last() =~= o);
        assert(run.skip(1).len() == 0);
        assert(r.take_all(n, run.skip(1)) == n);
        assert(r.take_all(s, run) == n);
    } else {
        let rest = r.forced(n, (max - 1) as nat);
        assert(run =~= seq![t] + rest);
        assert(run.skip(1) =~= rest);
        lemma_forced_is_greedy(r, f, o.push(t), n, (max - 1) as nat);
        assert(o + run.drop_last() =~= o.push(t) + rest.drop_last());
        assert(run.last() == rest.last());
        assert(r.take_all(s, run) == r.take_all(n, rest));
    }
}

/// Taking several tokens at once is invisible. Whatever the settings, each step
/// leads to the output of plain greedy decoding, and when decoding is over that
/// is what has been emitted.
pub proof fn law_batches_are_invisible(r: Rules, f: spec_fn(Seq<u32>, int) -> u32, d: Standing)
    requires
        heeds(r, f),
        in_step(r, d),
    ensures
        d.phase !is Choosing ==> outcome(r, f, next_of(r, d).0) == outcome(r, f, d),
        d.phase !is Choosing && next_of(r, d).1 is Done ==> next_of(r, d).0.out == outcome(
            r,
            f,
            d,
        ),
        d.phase is Choosing ==> outcome(r, f, chosen(r, d, f(d.out, d.at)).0) == outcome(r, f, d),
        d.phase is Over ==> d.out == outcome(r, f, d),
{
    if d.phase is Ready {
        let out = d.out.push(d.tok);
        if d.out.len() < r.ngen && !r.ends(d.tok) && !r.complete(d.at) {
            let run = r.forced(d.at, LONGEST_RUN as nat);
            if r.batch_forced && run.len() > 1 && out.len() + run.len() <= r.ngen {
                lemma_forced_is_greedy(r, f, out, d.at, LONGEST_RUN as nat);
            }
        }
    }
}

/// The settings that take several tokens at once are not in what is emitted:
/// two decoders that differ in them alone have the same output.
pub proof fn law_settings_do_not_matter(
    a: Rules,
    b: Rules,
    f: spec_fn(Seq<u32>, int) -> u32,
    out: Seq<u32>,
    tok: u32,
    at: int,
)
    requires
        a.con == b.con,
        a.eos == b.eos,
        a.ngen == b.ngen,
    ensures
        greedy(a, f, out, tok, at) == greedy(b, f, out, tok, at),
    decreases a.ngen - out.len(),
{
    if out.len() < a.ngen && !a.ends(tok) && !a.complete(at) {
        let o = out.push(tok);
        law_settings_do_not_matter(a, b, f, o, f(o, at), a.take(at, f(o, at)));
    }
}

/// The tokens of an output, as the constraint numbers them.
pub open spec fn tokens(out: Seq<u32>) -> Seq<usize> {
    out.map_values(|t: u32| t as usize)
}

/// Whether a model, short of the end of a call, chooses a token that may stand.
pub open spec fn stays_legal(c: Constraint, f: spec_fn(Seq<u32>, int) -> u32) -> bool {
    forall|o: Seq<u32>, s: int|
        0 <= s < c.dfa().spec_num_states() && !c.dfa().spec_accepting(s) ==> c.legal(
            s,
            #[trigger] f(o, s) as int,
        )
}

/// Whether no token that ends an output may stand in a call.
pub open spec fn ends_stand_nowhere(r: Rules, c: Constraint) -> bool {
    forall|s: int, t: u32| #[trigger] r.ends(t) ==> !#[trigger] c.legal(s, t as int)
}

proof fn lemma_greedy_walks(
    r: Rules,
    c: Constraint,
    f: spec_fn(Seq<u32>, int) -> u32,
    out: Seq<u32>,
    tok: u32,
    s: int,
)
    requires
        r.con == Some(c),
        c.tables(),
        stays_legal(c, f),
        ends_stand_nowhere(r, c),
        0 <= s < c.dfa().spec_num_states(),
        c.walk(c.dfa().spec_start() as int, tokens(out)) == Some(s),
        c.legal(s, tok as int),
    ensures
        ({
            let o = greedy(r, f, out, tok, r.take(s, tok));
            let end = c.walk(c.dfa().spec_start() as int, tokens(o));
            end is Some && (o.len() >= r.ngen || c.dfa().spec_accepting(end->0))
        }),
    decreases r.ngen - out.len(),
{
    let start = c.dfa().spec_start() as int;
    let at = r.take(s, tok);
    assert(!r.ends(tok)) by {
        if r.ends(tok) {
            assert(!c.legal(s, tok as int));
        }
    }
    if out.len() < r.ngen {
        let o = out.push(tok);
        c.lemma_walk_push(start, tokens(out), tok as usize);
        assert(tokens(o) =~= tokens(out).push(tok as usize));
        c.lemma_after_is_a_state(s, tok as int);
        if !r.complete(at) {
            let next = f(o, at);
            assert(c.legal(at, f(o, at) as int));
            lemma_greedy_walks(r, c, f, o, next, at);
        }
    }
}

/// Constrained decoding is a guarantee: an output that was not cut off by its
/// limit is a call of one of the tools, whichever of the legal tokens the model
/// chooses.
pub proof fn law_constrained_output_is_a_call(
    r: Rules,
    c: Constraint,
    f: spec_fn(Seq<u32>, int) -> u32,
    tools: Seq<Tool>,
)
    requires
        r.con == Some(c),
        c.tables(),
        stays_legal(c, f),
        ends_stand_nowhere(r, c),
        forall|w: Seq<Sym>| #[trigger]
            c.dfa().completes(c.dfa().spec_start() as int, w) == is_some_call(
                tools,
                Delims::gemma4(),
                w,
            ),
    ensures
        ({
            let start = c.dfa().spec_start() as int;
            let first = f(Seq::empty(), start);
            let o = greedy(r, f, Seq::empty(), first, r.take(start, first));
            o.len() >= r.ngen || is_some_call(tools, Delims::gemma4(), c.spelling_of(tokens(o)))
        }),
{
    let start = c.dfa().spec_start() as int;
    let none: Seq<u32> = Seq::empty();
    let first = f(none, start);
    assert(tokens(none) =~= Seq::empty());
    assert(!c.dfa().spec_accepting(start)) by {
        let w: Seq<Sym> = Seq::empty();
        assert(c.dfa().run(start, w) == Some(start));
        if is_some_call(tools, Delims::gemma4(), w) {
            let i = choose|i: int|
                0 <= i < tools.len() && is_call(#[trigger] tools[i], Delims::gemma4(), w);
            let parts = call_parts(tools[i], Delims::gemma4());
            let k = choose|k: int|
                0 <= k <= w.len() && #[trigger] parts[0].matches(w.take(k)) && matches_parts(
                    parts.skip(1),
                    w.skip(k),
                );
            assert(parts[0].matches(w.take(k)));
            assert(w.take(k).len() == 0);
        }
        assert(c.dfa().completes(start, w) == is_some_call(tools, Delims::gemma4(), w));
    }
    c.lemma_start_is_a_state();
    assert(c.legal(start, f(none, start) as int));
    lemma_greedy_walks(r, c, f, none, first, start);
    let o = greedy(r, f, none, first, r.take(start, first));
    law_done_is_a_call(c, tools, tokens(o));
}

/// Every forward begins right behind what has been emitted, and an output never
/// grows beyond what was asked for.
pub proof fn law_forwards_follow_the_output(r: Rules, d: Standing, next: u32)
    requires
        in_step(r, d),
        r.wf(),
    ensures
        d.phase !is Choosing ==> {
            &&& in_step(r, next_of(r, d).0)
            &&& next_of(r, d).1 matches Asked::Forward { batch, pos, want } ==> pos
                == r.prompt@.len() + d.out.len() && batch.len() > 0 && batch[0] == d.tok
        },
        d.phase is Choosing ==> in_step(r, chosen(r, d, next).0),
{
    r.lemma_take_is_a_state(d.at, next);
    if d.phase is Ready {
        r.lemma_take_all_is_a_state(d.at, r.forced(d.at, LONGEST_RUN as nat));
        r.lemma_take_is_a_state(d.at, choose|t: u32| r.only(d.at, t));
    }
}

} // verus!
