//! The engine's loop, from one piece of outside work to the next.
//!
//! The application does what an [`Action`] asks for and hands back a [`Reply`].
//! What is to be computed, when requests are taken in, and what every client is
//! told is decided here.
use vstd::prelude::*;
use crate::engine::plan::{chunk_view, chunks, law_share_is_common, prefill_chunks};
use crate::engine::scheduler::{ready, Admission, Batch, Config, Engine, Plan};
use crate::engine::slot::{all_said, emission, Event, Job, Said};
use crate::tokenizer::Tokenizer;

verus! {

// ---------------------------------------------------------------- what goes in and out
/// What the engine needs done.
pub enum Action {
    /// a request for this slot; wait for one, or look whether there is one
    Receive { slot: usize, wait: bool },
    /// clear the slot's cache, or fork the shared one into it if `fork` is set; run
    /// these chunks of the prompt; then run the chunks to share, if any, into a new
    /// shared cache
    Prefill {
        slot: usize,
        toks: Vec<u32>,
        fork: bool,
        list: Vec<(usize, usize)>,
        share: Option<Vec<(usize, usize)>>,
    },
    /// run one row per request in flight and choose a token for each
    Decode(Batch),
    /// there will be no more requests
    Stop,
}

/// What came of an action.
pub enum Reply {
    /// nothing has been asked for yet
    Begin,
    Request(Job),
    /// no request is waiting, or none will come
    Nobody,
    /// the token chosen after the prompt
    Prefilled(u32),
    /// the token chosen for each row
    Chosen(Vec<u32>),
}

/// What the engine is waiting for.
pub enum Stage {
    Begin,
    Receiving { slot: usize, wait: bool },
    Prefilling { slot: usize, job: Job, plan: Plan },
    /// the slots of the rows that are being decoded
    Deciding(Vec<usize>),
    Over,
}

/// An engine at work.
pub struct Run {
    pub e: Engine,
    pub stage: Stage,
}

/// What an action asks for.
pub enum Asks {
    Receive { slot: usize, wait: bool },
    Prefill {
        slot: usize,
        toks: Seq<u32>,
        fork: bool,
        list: Seq<(int, int)>,
        share: Option<Seq<(int, int)>>,
    },
    Decode { tokens: Seq<u32>, seq: Seq<usize>, pos: Seq<usize> },
    Stop,
}

impl View for Action {
    type V = Asks;

    open spec fn view(&self) -> Asks {
        match *self {
            Action::Receive { slot, wait } => Asks::Receive { slot, wait },
            Action::Prefill { slot, toks, fork, list, share } => Asks::Prefill {
                slot,
                toks: toks@,
                fork,
                list: chunk_view(list@),
                share: match share {
                    Some(l) => Some(chunk_view(l@)),
                    None => None,
                },
            },
            Action::Decode(b) => Asks::Decode { tokens: b.tokens@, seq: b.seq@, pos: b.pos@ },
            Action::Stop => Asks::Stop,
        }
    }
}

/// What is said to the client of one slot.
pub open spec fn to_slot(slot: usize, said: Seq<Said>) -> Seq<(usize, Said)> {
    said.map_values(|s: Said| (slot, s))
}

/// What is said, and to the client of which slot.
pub open spec fn told_view(told: Seq<(usize, Vec<Event>)>) -> Seq<(usize, Said)>
    decreases told.len(),
{
    if told.len() == 0 {
        Seq::empty()
    } else {
        told_view(told.drop_last()) + to_slot(told.last().0, all_said(told.last().1@))
    }
}

// ---------------------------------------------------------------- rounds
/// Whether `f` is `e` after slot `i` took the token it holds.
pub open spec fn emits_one(k: Tokenizer, e: Engine, f: Engine, i: int, said: Seq<Said>) -> bool {
    &&& f.same_but(e, i)
    &&& emission(k, e.slots@[i].unwrap(), f.slots@[i], said)
}

/// Whether `f` is `e` after the first `n` slots took the tokens they hold.
pub open spec fn emits(
    k: Tokenizer,
    e: Engine,
    f: Engine,
    n: int,
    told: Seq<(usize, Said)>,
) -> bool
    decreases n,
{
    if n <= 0 {
        f == e && told.len() == 0
    } else {
        exists|u: Engine, before: Seq<(usize, Said)>|
            emits(k, e, u, n - 1, before) && #[trigger] emits_next(k, u, f, n - 1, before, told)
    }
}

/// Whether `f` is `u` after slot `i` took the token it holds, if it holds one.
pub open spec fn emits_next(
    k: Tokenizer,
    u: Engine,
    f: Engine,
    i: int,
    before: Seq<(usize, Said)>,
    told: Seq<(usize, Said)>,
) -> bool {
    if u.slots@[i] is Some {
        exists|said: Seq<Said>| #[trigger]
            emits_one(k, u, f, i, said) && told == before + to_slot(i as usize, said)
    } else {
        f == u && told == before
    }
}

/// Whether `f` is `e` after the slots of the first `r` rows were given their tokens.
pub open spec fn commits(
    e: Engine,
    f: Engine,
    seq: Seq<usize>,
    toks: Seq<u32>,
    r: int,
    told: Seq<(usize, Said)>,
) -> bool
    decreases r,
{
    if r <= 0 {
        f == e && told.len() == 0
    } else {
        exists|u: Engine, before: Seq<(usize, Said)>|
            commits(e, u, seq, toks, r - 1, before) && #[trigger] commits_next(
                u,
                f,
                seq[r - 1],
                toks[r - 1],
                before,
                told,
            )
    }
}

/// Whether `f` is `u` after a slot was given a token.
pub open spec fn commits_next(
    u: Engine,
    f: Engine,
    slot: usize,
    tok: u32,
    before: Seq<(usize, Said)>,
    told: Seq<(usize, Said)>,
) -> bool {
    exists|said: Seq<Said>| #[trigger]
        f.committed(u, slot as int, tok, said) && told == before + to_slot(slot, said)
}

proof fn lemma_emits_next(
    k: Tokenizer,
    e: Engine,
    u: Engine,
    f: Engine,
    n: int,
    before: Seq<(usize, Said)>,
    told: Seq<(usize, Said)>,
)
    requires
        0 <= n,
        emits(k, e, u, n, before),
        emits_next(k, u, f, n, before, told),
    ensures
        emits(k, e, f, n + 1, told),
{
    let m = n + 1;
    assert(emits(k, e, u, m - 1, before) && emits_next(k, u, f, m - 1, before, told));
}

proof fn lemma_commits_next(
    e: Engine,
    u: Engine,
    f: Engine,
    seq: Seq<usize>,
    toks: Seq<u32>,
    r: int,
    before: Seq<(usize, Said)>,
    told: Seq<(usize, Said)>,
)
    requires
        0 <= r,
        commits(e, u, seq, toks, r, before),
        commits_next(u, f, seq[r], toks[r], before, told),
    ensures
        commits(e, f, seq, toks, r + 1, told),
{
    let m = r + 1;
    assert(commits(e, u, seq, toks, m - 1, before) && commits_next(
        u,
        f,
        seq[m - 1],
        toks[m - 1],
        before,
        told,
    ));
}

/// The tokens of the rows of a forward pass.
pub open spec fn row_tokens(e: Engine, seq: Seq<usize>) -> Seq<u32> {
    seq.map_values(|i: usize| e.slots@[i as int].unwrap().tok)
}

/// The positions of the rows of a forward pass.
pub open spec fn row_positions(e: Engine, seq: Seq<usize>) -> Seq<usize> {
    seq.map_values(|i: usize| e.slots@[i as int].unwrap().pos)
}

/// The slots with a request in flight.
pub open spec fn rows_of(e: Engine) -> Seq<usize> {
    e.active_below(e.slots@.len() as int)
}

/// Whether the requests in flight take the tokens they hold, and those that go on
/// are decoded next. With none left the next request is waited for.
pub open spec fn decodes(
    k: Tokenizer,
    e: Engine,
    r: Run,
    a: Asks,
    told: Seq<(usize, Said)>,
) -> bool {
    let seq = rows_of(r.e);
    &&& emits(k, e, r.e, e.slots@.len() as int, told)
    &&& if seq.len() == 0 {
        &&& r.stage == (Stage::Receiving { slot: 0, wait: true })
        &&& a == (Asks::Receive { slot: 0, wait: true })
    } else {
        &&& r.stage matches Stage::Deciding(rows) && rows@ == seq
        &&& a == (Asks::Decode {
            tokens: row_tokens(r.e, seq),
            seq,
            pos: row_positions(r.e, seq),
        })
    }
}

/// Whether a free slot asks for a request, and the requests in flight are decoded
/// where there is none.
pub open spec fn admits(
    k: Tokenizer,
    e: Engine,
    r: Run,
    a: Asks,
    told: Seq<(usize, Said)>,
) -> bool {
    if exists|i: int| e.first_free(i) {
        let i = choose|i: int| e.first_free(i);
        &&& r.e == e
        &&& r.stage == (Stage::Receiving { slot: i as usize, wait: e.idle() })
        &&& a == (Asks::Receive { slot: i as usize, wait: e.idle() })
        &&& told.len() == 0
    } else {
        decodes(k, e, r, a, told)
    }
}

/// The chunks to share.
pub open spec fn share_list(e: Engine, p: Plan) -> Option<Seq<(int, int)>> {
    match p.share {
        Some(n) => Some(chunks(0, n as int, e.cfg.prefill_chunk as int)),
        None => None,
    }
}

/// Whether `r`, asking for `a`, is `s` after a reply.
pub open spec fn runs(
    k: Tokenizer,
    s: Run,
    reply: Reply,
    r: Run,
    a: Asks,
    told: Seq<(usize, Said)>,
) -> bool {
    match (s.stage, reply) {
        (Stage::Begin, Reply::Begin) => admits(k, s.e, r, a, told),
        (Stage::Receiving { slot, wait }, Reply::Request(job)) => {
            let toks = job.toks@;
            &&& r.e == s.e
            &&& r.stage matches Stage::Prefilling { slot: at, job: j, plan } && at == slot && j
                == job && s.e.plans(toks, plan) && a == (Asks::Prefill {
                slot,
                toks,
                fork: plan.reuse > 0,
                list: chunks(
                    plan.reuse as int,
                    toks.len() as int,
                    s.e.cfg.prefill_chunk as int,
                ),
                share: share_list(s.e, plan),
            })
            &&& told.len() == 0
        },
        (Stage::Receiving { slot, wait }, Reply::Nobody) => if wait {
            r.e == s.e && r.stage is Over && a is Stop && told.len() == 0
        } else {
            decodes(k, s.e, r, a, told)
        },
        (Stage::Prefilling { slot, job, plan }, Reply::Prefilled(first)) => exists|e: Engine|
            #[trigger] e.placed(s.e, slot as int, job, first, plan.share) && admits(
                k,
                e,
                r,
                a,
                told,
            ),
        (Stage::Deciding(seq), Reply::Chosen(toks)) => exists|
            e: Engine,
            one: Seq<(usize, Said)>,
            two: Seq<(usize, Said)>,
        | #[trigger]
            commits(s.e, e, seq@, toks@, seq@.len() as int, one) && #[trigger] admits(
                k,
                e,
                r,
                a,
                two,
            ) && told == one + two,
        _ => false,
    }
}

// ---------------------------------------------------------------- running
/// Whether slots are in order and every one of them has a request in flight.
pub open spec fn rows_in_flight(e: Engine, seq: Seq<usize>) -> bool {
    &&& forall|x: int|
        0 <= x < seq.len() ==> (#[trigger] seq[x]) < e.slots@.len() && (
        e.slots@[seq[x] as int] matches Some(s) && ready(s, e.cfg.ctx))
    &&& forall|x: int, y: int| 0 <= x < y < seq.len() ==> (#[trigger] seq[x]) < (#[trigger] seq[y])
}

impl Run {
    /// Whether the engine is in order and waits for something that can come.
    pub open spec fn wf(&self, k: Tokenizer) -> bool {
        &&& self.e.wf(k)
        &&& self.e.cfg.batch > 0
        &&& match self.stage {
            Stage::Receiving { slot, wait } => self.e.first_free(slot as int) && wait
                == self.e.idle(),
            Stage::Prefilling { slot, job, plan } => {
                &&& self.e.first_free(slot as int)
                &&& self.e.plans(job.toks@, plan)
                &&& job.toks@.len() + job.max_tokens <= self.e.cfg.ctx
                &&& plan.share matches Some(n) ==> n <= job.toks@.len()
            },
            Stage::Deciding(seq) => rows_in_flight(self.e, seq@),
            _ => true,
        }
    }

    /// Whether a reply answers what was asked for. A request has to fit the context.
    pub open spec fn answered_by(&self, reply: Reply) -> bool {
        match (self.stage, reply) {
            (Stage::Begin, Reply::Begin) => true,
            (Stage::Receiving { .. }, Reply::Request(job)) => job.toks@.len() + job.max_tokens
                <= self.e.cfg.ctx,
            (Stage::Receiving { .. }, Reply::Nobody) => true,
            (Stage::Prefilling { .. }, Reply::Prefilled(_)) => true,
            (Stage::Deciding(seq), Reply::Chosen(toks)) => toks@.len() == seq@.len(),
            _ => false,
        }
    }

    /// An engine that has not begun.
    pub fn new(cfg: Config) -> (r: Run)
        ensures
            r.stage is Begin,
            r.e.cfg == cfg,
            r.e.slots@.len() == cfg.batch,
            r.e.idle(),
            r.e.prefix is None,
            r.e.last_toks@.len() == 0,
    {
        Run { e: Engine::new(cfg), stage: Stage::Begin }
    }
}

/// The requests in flight take the tokens they hold.
fn emit_all(e: &mut Engine, k: &Tokenizer) -> (told: Vec<(usize, Vec<Event>)>)
    requires
        k.wf(),
        old(e).wf(*k),
    ensures
        final(e).wf(*k),
        final(e).cfg == old(e).cfg,
        final(e).slots@.len() == old(e).slots@.len(),
        emits(*k, *old(e), *final(e), old(e).slots@.len() as int, told_view(told@)),
        forall|i: int|
            0 <= i < final(e).slots@.len() ==> (#[trigger] final(e).slots@[i] matches Some(s)
                ==> ready(s, final(e).cfg.ctx)),
{
    let mut told: Vec<(usize, Vec<Event>)> = Vec::new();
    let mut i: usize = 0;
    while i < e.slots.len()
        invariant
            k.wf(),
            e.wf(*k),
            e.cfg == old(e).cfg,
            e.slots@.len() == old(e).slots@.len(),
            i <= e.slots@.len(),
            emits(*k, *old(e), *e, i as int, told_view(told@)),
            forall|j: int|
                0 <= j < i ==> (#[trigger] e.slots@[j] matches Some(s) ==> ready(s, e.cfg.ctx)),
        decreases e.slots@.len() - i,
    {
        let ghost u = *e;
        let ghost before = told@;
        if e.slots[i].is_some() {
            let events = e.emit(i, k);
            told.push((i, events));
            proof {
                assert(told@.drop_last() =~= before);
                assert(emits_one(*k, u, *e, i as int, all_said(events@)));
            }
        }
        proof {
            assert(emits_next(*k, u, *e, i as int, told_view(before), told_view(told@)));
            lemma_emits_next(
                *k,
                *old(e),
                u,
                *e,
                i as int,
                told_view(before),
                told_view(told@),
            );
            assert forall|j: int| 0 <= j < i + 1 implies (#[trigger] e.slots@[j] matches Some(s)
                ==> ready(s, e.cfg.ctx)) by {
                if j < i {
                    assert(e.slots@[j] == u.slots@[j]);
                }
            }
        }
        i += 1;
    }
    told
}

/// The rows of a forward pass are given the tokens that were chosen.
fn commit_all(e: &mut Engine, seq: &Vec<usize>, toks: &Vec<u32>, k: &Tokenizer) -> (told: Vec<
    (usize, Vec<Event>),
>)
    requires
        old(e).wf(*k),
        rows_in_flight(*old(e), seq@),
        toks@.len() == seq@.len(),
    ensures
        final(e).wf(*k),
        final(e).cfg == old(e).cfg,
        final(e).slots@.len() == old(e).slots@.len(),
        commits(*old(e), *final(e), seq@, toks@, seq@.len() as int, told_view(told@)),
{
    let mut told: Vec<(usize, Vec<Event>)> = Vec::new();
    let mut r: usize = 0;
    while r < seq.len()
        invariant
            e.wf(*k),
            e.cfg == old(e).cfg,
            e.slots@.len() == old(e).slots@.len(),
            rows_in_flight(*old(e), seq@),
            toks@.len() == seq@.len(),
            r <= seq@.len(),
            commits(*old(e), *e, seq@, toks@, r as int, told_view(told@)),
            forall|x: int|
                r <= x < seq@.len() ==> e.slots@[(#[trigger] seq@[x]) as int] == old(
                    e,
                ).slots@[seq@[x] as int],
        decreases seq@.len() - r,
    {
        let ghost u = *e;
        let ghost before = told@;
        let i: usize = seq[r];
        assert(e.slots@[seq@[r as int] as int] == old(e).slots@[seq@[r as int] as int]);
        let events = e.commit(i, toks[r], k);
        told.push((i, events));
        proof {
            assert(told@.drop_last() =~= before);
            assert(e.committed(u, seq@[r as int] as int, toks@[r as int], all_said(events@)));
            assert(commits_next(
                u,
                *e,
                seq@[r as int],
                toks@[r as int],
                told_view(before),
                told_view(told@),
            ));
            lemma_commits_next(
                *old(e),
                u,
                *e,
                seq@,
                toks@,
                r as int,
                told_view(before),
                told_view(told@),
            );
            assert forall|x: int| r + 1 <= x < seq@.len() implies e.slots@[(
            #[trigger] seq@[x]) as int] == old(e).slots@[seq@[x] as int] by {
                assert(seq@[r as int] < seq@[x]);
                assert(e.slots@[seq@[x] as int] == u.slots@[seq@[x] as int]);
            }
        }
        r += 1;
    }
    told
}

/// The slots with a request in flight stand in order, and no other does.
proof fn lemma_rows(e: Engine, n: int)
    requires
        0 <= n <= e.slots@.len(),
        forall|i: int|
            0 <= i < e.slots@.len() ==> (#[trigger] e.slots@[i] matches Some(s) ==> ready(
                s,
                e.cfg.ctx,
            )),
    ensures
        rows_in_flight(e, e.active_below(n)),
        forall|x: int| 0 <= x < e.active_below(n).len() ==> (#[trigger] e.active_below(n)[x]) < n,
        e.active_below(n).len() == 0 ==> forall|i: int|
            0 <= i < n ==> (#[trigger] e.slots@[i]) is None,
    decreases n,
{
    if n > 0 {
        lemma_rows(e, n - 1);
        assert(e.slots.len() == e.slots@.len());
        let shorter = e.active_below(n - 1);
        let rows = e.active_below(n);
        assert forall|x: int| 0 <= x < rows.len() implies (#[trigger] rows[x]) < n && (
        e.slots@[rows[x] as int] matches Some(s) && ready(s, e.cfg.ctx)) by {
            if x < shorter.len() {
                assert(rows[x] == shorter[x]);
            } else {
                assert(e.slots@[n - 1] is Some);
            }
        }
        assert forall|x: int, y: int| 0 <= x < y < rows.len() implies (#[trigger] rows[x]) < (
        #[trigger] rows[y]) by {
            assert(rows[x] == shorter[x]);
            if y < shorter.len() {
                assert(rows[y] == shorter[y]);
            }
        }
    }
}

/// The requests in flight take the tokens they hold, and those that go on are decoded.
fn decode(r: &mut Run, k: &Tokenizer) -> (out: (Action, Vec<(usize, Vec<Event>)>))
    requires
        k.wf(),
        old(r).e.wf(*k),
        old(r).e.cfg.batch > 0,
    ensures
        final(r).wf(*k),
        final(r).e.cfg == old(r).e.cfg,
        decodes(*k, old(r).e, *final(r), out.0@, told_view(out.1@)),
{
    let told = emit_all(&mut r.e, k);
    let b = r.e.batch();
    let ghost n = r.e.slots@.len() as int;
    proof {
        lemma_rows(r.e, n);
    }
    if b.seq.len() == 0 {
        r.stage = Stage::Receiving { slot: 0, wait: true };
        assert(r.e.slots@[0] is None);
        return (Action::Receive { slot: 0, wait: true }, told);
    }
    let rows = b.seq.clone();
    proof {
        assert(rows@ =~= b.seq@);
        assert(b.tokens@ =~= row_tokens(r.e, b.seq@)) by {
            assert forall|x: int| 0 <= x < b.seq@.len() implies b.tokens@[x] == row_tokens(
                r.e,
                b.seq@,
            )[x] by {
                assert(b.seq@[x] < r.e.slots@.len());
            }
        }
        assert(b.pos@ =~= row_positions(r.e, b.seq@)) by {
            assert forall|x: int| 0 <= x < b.seq@.len() implies b.pos@[x] == row_positions(
                r.e,
                b.seq@,
            )[x] by {
                assert(b.seq@[x] < r.e.slots@.len());
            }
        }
    }
    r.stage = Stage::Deciding(rows);
    (Action::Decode(b), told)
}

/// Asks for a request if a slot is free, and goes on with those in flight if none is.
fn admit_or_decode(r: &mut Run, k: &Tokenizer) -> (out: (Action, Vec<(usize, Vec<Event>)>))
    requires
        k.wf(),
        old(r).e.wf(*k),
        old(r).e.cfg.batch > 0,
    ensures
        final(r).wf(*k),
        final(r).e.cfg == old(r).e.cfg,
        admits(*k, old(r).e, *final(r), out.0@, told_view(out.1@)),
{
    match r.e.admission() {
        Admission::Full => {
            proof {
                assert forall|i: int| !r.e.first_free(i) by {
                    if r.e.first_free(i) {
                        assert(r.e.slots@[i] is Some);
                    }
                }
            }
            decode(r, k)
        },
        Admission::Wait(slot) => {
            proof {
                lemma_one_free(r.e, slot as int);
            }
            r.stage = Stage::Receiving { slot, wait: true };
            (Action::Receive { slot, wait: true }, Vec::new())
        },
        Admission::Poll(slot) => {
            proof {
                lemma_one_free(r.e, slot as int);
            }
            r.stage = Stage::Receiving { slot, wait: false };
            (Action::Receive { slot, wait: false }, Vec::new())
        },
    }
}

/// One slot at most is the first free one.
pub proof fn lemma_one_free(e: Engine, i: int)
    requires
        e.first_free(i),
    ensures
        i == choose|j: int| e.first_free(j),
{
    let j = choose|j: int| e.first_free(j);
    if i < j {
        assert(e.slots@[i] is Some);
    } else if j < i {
        assert(e.slots@[j] is Some);
    }
}

/// Runs on to the next piece of outside work. Returns what to do, and what to tell
/// the clients of which slots.
pub fn run(r: &mut Run, reply: Reply, k: &Tokenizer) -> (out: (Action, Vec<(usize, Vec<Event>)>))
    requires
        k.wf(),
        old(r).wf(*k),
        old(r).answered_by(reply),
    ensures
        final(r).wf(*k),
        final(r).e.cfg == old(r).e.cfg,
        runs(*k, *old(r), reply, *final(r), out.0@, told_view(out.1@)),
{
    let mut stage = Stage::Over;
    std::mem::swap(&mut stage, &mut r.stage);
    match (stage, reply) {
        (Stage::Receiving { slot, wait: _ }, Reply::Request(job)) => {
            let plan = r.e.plan(job.toks.as_slice());
            let toks = job.toks.clone();
            let list = prefill_chunks(plan.reuse, toks.len(), r.e.cfg.prefill_chunk);
            let share = match plan.share {
                Some(n) => Some(prefill_chunks(0, n, r.e.cfg.prefill_chunk)),
                None => None,
            };
            proof {
                assert(toks@ =~= job.toks@);
                if let Some(n) = plan.share {
                    lemma_share_fits(r.e, toks@, plan);
                }
            }
            let a = Action::Prefill { slot, toks, fork: plan.reuse > 0, list, share };
            r.stage = Stage::Prefilling { slot, job, plan };
            (a, Vec::new())
        },
        (Stage::Receiving { slot: _, wait }, Reply::Nobody) => {
            if wait {
                return (Action::Stop, Vec::new());
            }
            decode(r, k)
        },
        (Stage::Prefilling { slot, job, plan }, Reply::Prefilled(first)) => {
            r.e.place(slot, job, first, plan.share, k);
            admit_or_decode(r, k)
        },
        (Stage::Deciding(seq), Reply::Chosen(toks)) => {
            let mut told = commit_all(&mut r.e, &seq, &toks, k);
            let ghost one = told_view(told@);
            let (a, mut more) = admit_or_decode(r, k);
            let ghost t0 = told@;
            let ghost m0 = more@;
            told.append(&mut more);
            proof {
                lemma_told_concat(t0, m0);
                assert(told@ =~= t0 + m0);
            }
            (a, told)
        },
        _ => admit_or_decode(r, k),
    }
}

proof fn lemma_told_concat(a: Seq<(usize, Vec<Event>)>, b: Seq<(usize, Vec<Event>)>)
    ensures
        told_view(a + b) == told_view(a) + told_view(b),
    decreases b.len(),
{
    if b.len() == 0 {
        assert(a + b =~= a);
        assert(told_view(a) + told_view(b) =~= told_view(a));
    } else {
        assert((a + b).drop_last() =~= a + b.drop_last());
        lemma_told_concat(a, b.drop_last());
        assert(told_view(a + b) =~= told_view(a) + told_view(b));
    }
}

/// What is shared is part of the prompt.
proof fn lemma_share_fits(e: Engine, toks: Seq<u32>, p: Plan)
    requires
        e.cfg.prefill_chunk > 0,
        e.plans(toks, p),
        p.share is Some,
    ensures
        p.share.unwrap() <= toks.len(),
{
    let covered = match e.prefix_toks() {
        Some(t) => t.len(),
        None => 0,
    };
    law_share_is_common(
        toks,
        e.last_toks@,
        covered,
        p.reuse as nat,
        e.cfg.prefill_chunk as int,
        e.cfg.prefix_min as nat,
        p.share.unwrap() as int,
    );
}

} // verus!
