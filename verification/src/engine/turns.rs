//! How requests take turns: what a forward pass is asked for continues what was
//! computed before.
use vstd::prelude::*;
use crate::engine::laws::law_every_request_has_one_row;
use crate::engine::plan::{law_chunks_cover, law_only_the_last_chunk_is_short};
use crate::engine::run::{
    admits, commits, commits_next, decodes, emits, emits_next, emits_one, row_positions, row_tokens,
    rows_of, runs, to_slot, Asks, Reply, Run, Stage,
};
use crate::engine::scheduler::Engine;
use crate::engine::slot::{emission, Job, Said, Slot};
use crate::tokenizer::Tokenizer;

verus! {

// ---------------------------------------------------------------- whose turn it is
/// Whether a request holds a token that it has not taken yet: its position is the one
/// behind the prompt and all that was generated.
pub open spec fn due(s: Slot) -> bool {
    s.pos == s.job.toks@.len() + s.out_ids@.len()
}

/// Whether a request has taken its token: the token is the last that was generated, and
/// its position the last one of the prompt and all that was generated.
pub open spec fn taken(s: Slot) -> bool {
    &&& s.out_ids@.len() > 0
    &&& s.out_ids@.last() == s.tok
    &&& s.pos + 1 == s.job.toks@.len() + s.out_ids@.len()
}

pub open spec fn all_due(e: Engine) -> bool {
    forall|i: int| 0 <= i < e.slots@.len() ==> (#[trigger] e.slots@[i] matches Some(s) ==> due(s))
}

pub open spec fn all_taken(e: Engine) -> bool {
    forall|i: int|
        0 <= i < e.slots@.len() ==> (#[trigger] e.slots@[i] matches Some(s) ==> taken(s))
}

/// Whether the requests are where the engine's stage has them: while tokens are chosen,
/// every request has taken its last one and has a row; otherwise every request holds
/// one that it has not taken.
pub open spec fn in_turn(r: Run) -> bool {
    match r.stage {
        Stage::Deciding(seq) => all_taken(r.e) && seq@ == rows_of(r.e),
        Stage::Over => true,
        _ => all_due(r.e),
    }
}

// ---------------------------------------------------------------- rounds
proof fn lemma_emits(
    k: Tokenizer,
    e: Engine,
    f: Engine,
    n: int,
    told: Seq<(usize, Said)>,
)
    requires
        emits(k, e, f, n, told),
        all_due(e),
        0 <= n <= e.slots@.len(),
    ensures
        f.slots@.len() == e.slots@.len(),
        forall|j: int| 0 <= j < n ==> (#[trigger] f.slots@[j] matches Some(t) ==> taken(t)),
        forall|j: int| n <= j < e.slots@.len() ==> #[trigger] f.slots@[j] == e.slots@[j],
    decreases n,
{
    if n > 0 {
        let (u, before) = choose|u: Engine, before: Seq<(usize, Said)>|
            emits(k, e, u, n - 1, before) && #[trigger] emits_next(k, u, f, n - 1, before, told);
        lemma_emits(k, e, u, n - 1, before);
        assert(u.slots@[n - 1] == e.slots@[n - 1]);
        if u.slots@[n - 1] is Some {
            let said = choose|said: Seq<Said>| #[trigger] emits_one(k, u, f, n - 1, said);
            let s = u.slots@[n - 1].unwrap();
            assert(due(s));
            assert(emission(k, s, f.slots@[n - 1], said));
            if let Some(t) = f.slots@[n - 1] {
                assert(t.out_ids@ == s.out_ids@.push(s.tok));
                assert(taken(t));
            }
            assert forall|j: int| 0 <= j < n implies (#[trigger] f.slots@[j] matches Some(t)
                ==> taken(t)) by {
                if j < n - 1 {
                    assert(f.slots@[j] == u.slots@[j]);
                }
            }
            assert forall|j: int| n <= j < e.slots@.len() implies #[trigger] f.slots@[j]
                == e.slots@[j] by {
                assert(f.slots@[j] == u.slots@[j]);
            }
        }
    }
}

/// Whether rows stand in order and each has a request.
spec fn orderly(e: Engine, seq: Seq<usize>) -> bool {
    &&& forall|x: int|
        0 <= x < seq.len() ==> (#[trigger] seq[x]) < e.slots@.len() && e.slots@[seq[x] as int] is Some
    &&& forall|x: int, y: int| 0 <= x < y < seq.len() ==> (#[trigger] seq[x]) < (#[trigger] seq[y])
}

proof fn lemma_orderly(e: Engine)
    ensures
        orderly(e, rows_of(e)),
        forall|i: int|
            0 <= i < e.slots@.len() && (#[trigger] e.slots@[i]) is Some ==> rows_of(e).contains(
                i as usize,
            ),
{
    let n = e.slots@.len() as int;
    let seq = rows_of(e);
    assert(e.slots.len() == n);
    assert forall|x: int| 0 <= x < seq.len() implies (#[trigger] seq[x]) < e.slots@.len()
        && e.slots@[seq[x] as int] is Some by {
        law_every_request_has_one_row(e, n, 0, x, x);
        law_every_request_has_one_row(e, n, seq[x] as int, x, x);
        assert(seq.contains(seq[x]));
    }
    assert forall|x: int, y: int| 0 <= x < y < seq.len() implies (#[trigger] seq[x]) < (
    #[trigger] seq[y]) by {
        law_every_request_has_one_row(e, n, 0, x, y);
    }
    assert forall|i: int| 0 <= i < e.slots@.len() && (
    #[trigger] e.slots@[i]) is Some implies seq.contains(i as usize) by {
        law_every_request_has_one_row(e, n, i, 0, 0);
    }
}

proof fn lemma_commits(
    e: Engine,
    f: Engine,
    seq: Seq<usize>,
    toks: Seq<u32>,
    r: int,
    told: Seq<(usize, Said)>,
)
    requires
        commits(e, f, seq, toks, r, told),
        all_taken(e),
        orderly(e, seq),
        0 <= r <= seq.len(),
    ensures
        f.slots@.len() == e.slots@.len(),
        forall|x: int|
            0 <= x < r ==> (f.slots@[(#[trigger] seq[x]) as int] matches Some(t) ==> due(t)),
        forall|j: int|
            0 <= j < e.slots@.len() && (forall|x: int| 0 <= x < r ==> (#[trigger] seq[x]) != j)
                ==> #[trigger] f.slots@[j] == e.slots@[j],
    decreases r,
{
    if r > 0 {
        let (u, before) = choose|u: Engine, before: Seq<(usize, Said)>|
            commits(e, u, seq, toks, r - 1, before) && #[trigger] commits_next(
                u,
                f,
                seq[r - 1],
                toks[r - 1],
                before,
                told,
            );
        lemma_commits(e, u, seq, toks, r - 1, before);
        let i = seq[r - 1] as int;
        let said = choose|said: Seq<Said>| #[trigger] f.committed(u, i, toks[r - 1], said);
        assert(i < e.slots@.len());
        assert(u.slots@[i] == e.slots@[i]) by {
            assert forall|x: int| 0 <= x < r - 1 implies (#[trigger] seq[x]) != i by {
                assert(seq[x] < seq[r - 1]);
            }
        }
        assert(taken(u.slots@[i].unwrap()));
        assert forall|x: int| 0 <= x < r implies (f.slots@[(
        #[trigger] seq[x]) as int] matches Some(t) ==> due(t)) by {
            if x < r - 1 {
                assert(seq[x] < seq[r - 1]);
                assert(f.slots@[seq[x] as int] == u.slots@[seq[x] as int]);
            }
        }
        assert forall|j: int|
            0 <= j < e.slots@.len() && (forall|x: int|
                0 <= x < r ==> (#[trigger] seq[x]) != j) implies #[trigger] f.slots@[j]
            == e.slots@[j] by {
            assert(seq[r - 1] != j);
            assert(f.slots@[j] == u.slots@[j]);
        }
    }
}

proof fn lemma_all_committed(e: Engine, f: Engine, toks: Seq<u32>, told: Seq<(usize, Said)>)
    requires
        commits(e, f, rows_of(e), toks, rows_of(e).len() as int, told),
        all_taken(e),
    ensures
        all_due(f),
{
    let seq = rows_of(e);
    lemma_orderly(e);
    lemma_commits(e, f, seq, toks, seq.len() as int, told);
    assert(e.slots.len() == e.slots@.len());
    assert forall|i: int| 0 <= i < f.slots@.len() implies (#[trigger] f.slots@[i] matches Some(s)
        ==> due(s)) by {
        if exists|x: int| 0 <= x < seq.len() && (#[trigger] seq[x]) == i {
            let x = choose|x: int| 0 <= x < seq.len() && (#[trigger] seq[x]) == i;
            assert(seq[x] == i);
        } else {
            assert(f.slots@[i] == e.slots@[i]);
            if e.slots@[i] is Some {
                assert(seq.contains(i as usize));
            }
        }
    }
}

proof fn lemma_decodes(k: Tokenizer, e: Engine, r: Run, a: Asks, told: Seq<(usize, Said)>)
    requires
        decodes(k, e, r, a, told),
        all_due(e),
    ensures
        in_turn(r),
        r.stage is Deciding || r.stage is Receiving,
        a is Decode ==> r.stage is Deciding,
{
    let n = e.slots@.len() as int;
    lemma_emits(k, e, r.e, n, told);
    lemma_orderly(r.e);
    if rows_of(r.e).len() == 0 {
        assert forall|i: int| 0 <= i < r.e.slots@.len() implies (
        #[trigger] r.e.slots@[i] matches Some(s) ==> due(s)) by {
            if r.e.slots@[i] is Some {
                assert(rows_of(r.e).contains(i as usize));
            }
        }
    }
}

proof fn lemma_admits(k: Tokenizer, e: Engine, r: Run, a: Asks, told: Seq<(usize, Said)>)
    requires
        admits(k, e, r, a, told),
        all_due(e),
    ensures
        in_turn(r),
        a is Decode ==> r.stage is Deciding,
{
    if !(exists|i: int| e.first_free(i)) {
        lemma_decodes(k, e, r, a, told);
    }
}

/// Requests take turns: a request takes a token, has the next one chosen, takes that
/// one, and so on, whatever comes in between. From one piece of outside work to the
/// next the engine keeps this order.
pub proof fn law_requests_take_turns(
    k: Tokenizer,
    s: Run,
    reply: Reply,
    r: Run,
    a: Asks,
    told: Seq<(usize, Said)>,
)
    requires
        in_turn(s),
        runs(k, s, reply, r, a, told),
        s.stage matches Stage::Prefilling { slot, .. } ==> slot < s.e.slots@.len(),
    ensures
        in_turn(r),
        a is Decode ==> r.stage is Deciding,
{
    match (s.stage, reply) {
        (Stage::Begin, Reply::Begin) => {
            lemma_admits(k, s.e, r, a, told);
        },
        (Stage::Receiving { slot, wait }, Reply::Nobody) => {
            if !wait {
                lemma_decodes(k, s.e, r, a, told);
            }
        },
        (Stage::Prefilling { slot, job, plan }, Reply::Prefilled(first)) => {
            let e = choose|e: Engine| #[trigger]
                e.placed(s.e, slot as int, job, first, plan.share) && admits(k, e, r, a, told);
            assert forall|i: int| 0 <= i < e.slots@.len() implies (
            #[trigger] e.slots@[i] matches Some(t) ==> due(t)) by {
                if i != slot {
                    assert(e.slots@[i] == s.e.slots@[i]);
                }
            }
            lemma_admits(k, e, r, a, told);
        },
        (Stage::Deciding(seq), Reply::Chosen(toks)) => {
            let (e, one, two) = choose|
                e: Engine,
                one: Seq<(usize, Said)>,
                two: Seq<(usize, Said)>,
            | #[trigger]
                commits(s.e, e, seq@, toks@, seq@.len() as int, one) && #[trigger] admits(
                    k,
                    e,
                    r,
                    a,
                    two,
                ) && told == one + two;
            lemma_all_committed(s.e, e, toks@, one);
            lemma_admits(k, e, r, a, two);
        },
        _ => {},
    }
}

/// What a forward pass is asked for: for every request in flight one row, with the last
/// token that was generated for it, at the position of that token.
pub proof fn law_rows_continue_their_requests(
    k: Tokenizer,
    s: Run,
    reply: Reply,
    r: Run,
    tokens: Seq<u32>,
    seq: Seq<usize>,
    pos: Seq<usize>,
    told: Seq<(usize, Said)>,
    x: int,
    i: int,
)
    requires
        in_turn(s),
        runs(k, s, reply, r, (Asks::Decode { tokens, seq, pos }), told),
        s.stage matches Stage::Prefilling { slot, .. } ==> slot < s.e.slots@.len(),
    ensures
        tokens.len() == seq.len(),
        pos.len() == seq.len(),
        0 <= x < seq.len() ==> (r.e.slots@[seq[x] as int] matches Some(t) && tokens[x]
            == t.out_ids@.last() && pos[x] == t.job.toks@.len() + t.out_ids@.len() - 1),
        0 <= i < r.e.slots@.len() && r.e.slots@[i] is Some ==> seq.contains(i as usize),
{
    let a = Asks::Decode { tokens, seq, pos };
    law_requests_take_turns(k, s, reply, r, a, told);
    lemma_orderly(r.e);
    lemma_rows_asked(k, s, reply, r, a, told);
    if 0 <= x < seq.len() {
        assert(seq[x] < r.e.slots@.len());
        assert(taken(r.e.slots@[seq[x] as int].unwrap()));
    }
}

/// The rows that are asked for are those of the requests in flight.
proof fn lemma_rows_asked(
    k: Tokenizer,
    s: Run,
    reply: Reply,
    r: Run,
    a: Asks,
    told: Seq<(usize, Said)>,
)
    requires
        runs(k, s, reply, r, a, told),
        a is Decode,
    ensures
        a->seq == rows_of(r.e),
        a->tokens == row_tokens(r.e, rows_of(r.e)),
        a->pos == row_positions(r.e, rows_of(r.e)),
{
}

// ---------------------------------------------------------------- prompts
/// A prompt is computed exactly once: what the shared cache covers of it is forked, and
/// the chunks go on from there without a gap to its end; without a fork they begin at
/// its first token.
pub proof fn law_prompts_are_computed_once(
    k: Tokenizer,
    s: Run,
    job: Job,
    r: Run,
    toks: Seq<u32>,
    fork: bool,
    list: Seq<(int, int)>,
    share: Option<Seq<(int, int)>>,
    slot: usize,
    told: Seq<(usize, Said)>,
    i: int,
)
    requires
        s.stage is Receiving,
        s.e.cfg.prefill_chunk > 0,
        runs(k, s, Reply::Request(job), r, (Asks::Prefill { slot, toks, fork, list, share }), told),
        job.toks@.len() > 0,
    ensures
        toks == job.toks@,
        list.len() > 0,
        fork ==> (s.e.prefix matches Some(p) && p@.is_prefix_of(toks) && 0 < p@.len() < toks.len()
            && list[0].0 == p@.len()),
        !fork ==> list[0].0 == 0,
        list.last().0 + list.last().1 == toks.len(),
        0 <= i < list.len() ==> 0 < list[i].1 <= s.e.cfg.prefill_chunk,
        0 < i < list.len() ==> list[i].0 == list[i - 1].0 + list[i - 1].1,
{
    let plan = r.stage->plan;
    let from = plan.reuse as int;
    let n = toks.len() as int;
    let size = s.e.cfg.prefill_chunk as int;
    if let Some(p) = s.e.prefix {
        if p@.len() < toks.len() {
            assert(toks.take(p@.len() as int) =~= toks.subrange(0, p@.len() as int));
        }
    }
    assert(from < n);
    law_only_the_last_chunk_is_short(from, n, size, 0);
    law_chunks_cover(from, n, size, 0);
    law_chunks_cover(from, n, size, list.len() - 1);
    if 0 <= i < list.len() {
        law_chunks_cover(from, n, size, i);
    }
}

// ---------------------------------------------------------------- the end
/// The engine stops only where nothing is left to do: no request is in flight, and none
/// will come. While one is in flight it asks for a forward or for another request.
pub proof fn law_the_engine_stops_when_idle(
    k: Tokenizer,
    s: Run,
    reply: Reply,
    r: Run,
    a: Asks,
    told: Seq<(usize, Said)>,
)
    requires
        s.wf(k),
        runs(k, s, reply, r, a, told),
    ensures
        a is Stop ==> s.e.idle() && reply is Nobody && told.len() == 0,
        a is Receive && a->wait ==> r.e.idle(),
        a is Receive ==> (a->Receive_slot < r.e.slots@.len() ==> r.e.slots@[a->Receive_slot as int] is None),
{
    if a is Receive && a->wait {
        lemma_orderly(r.e);
        assert forall|i: int| 0 <= i < r.e.slots@.len() && rows_of(r.e).len() == 0 implies (
        #[trigger] r.e.slots@[i]) is None by {
            if r.e.slots@[i] is Some {
                assert(rows_of(r.e).contains(i as usize));
            }
        }
    }
    if a is Receive {
        lemma_orderly(r.e);
        lemma_free_asked(k, s, reply, r, a, told);
    }
}

proof fn lemma_free_asked(
    k: Tokenizer,
    s: Run,
    reply: Reply,
    r: Run,
    a: Asks,
    told: Seq<(usize, Said)>,
)
    requires
        runs(k, s, reply, r, a, told),
        a is Receive,
    ensures
        rows_of(r.e).len() == 0 || r.e.first_free(a->Receive_slot as int),
{
    assert(r.e.slots.len() == r.e.slots@.len());
}

// ---------------------------------------------------------------- what clients are told
/// Whether the client of a slot is told that its request is done.
pub open spec fn told_done(told: Seq<(usize, Said)>, i: int) -> bool {
    exists|x: int| 0 <= x < told.len() && (#[trigger] told[x]).0 == i && told[x].1 is Done
}

proof fn lemma_told_more(a: Seq<(usize, Said)>, b: Seq<(usize, Said)>, i: int)
    ensures
        told_done(a, i) || told_done(b, i) ==> told_done(a + b, i),
{
    if told_done(a, i) {
        let x = choose|x: int| 0 <= x < a.len() && (#[trigger] a[x]).0 == i && a[x].1 is Done;
        assert((a + b)[x] == a[x]);
    }
    if told_done(b, i) {
        let x = choose|x: int| 0 <= x < b.len() && (#[trigger] b[x]).0 == i && b[x].1 is Done;
        assert((a + b)[a.len() + x] == b[x]);
    }
}

proof fn lemma_told_slot(slot: usize, said: Seq<Said>)
    requires
        said.len() > 0,
        said.last() is Done,
    ensures
        told_done(to_slot(slot, said), slot as int),
{
    let t = to_slot(slot, said);
    assert(t[t.len() - 1] == (slot, said.last()));
}

proof fn lemma_emits_told(
    k: Tokenizer,
    e: Engine,
    f: Engine,
    n: int,
    told: Seq<(usize, Said)>,
    i: int,
)
    requires
        emits(k, e, f, n, told),
        0 <= n <= e.slots@.len(),
        0 <= i < e.slots@.len(),
        e.slots@[i] is Some,
    ensures
        f.slots@.len() == e.slots@.len(),
        f.slots@[i] is None ==> told_done(told, i),
        n <= i ==> f.slots@[i] == e.slots@[i],
    decreases n,
{
    if n > 0 {
        let (u, before) = choose|u: Engine, before: Seq<(usize, Said)>|
            emits(k, e, u, n - 1, before) && #[trigger] emits_next(k, u, f, n - 1, before, told);
        lemma_emits_told(k, e, u, n - 1, before, i);
        assert(e.slots.len() == e.slots@.len());
        if u.slots@[n - 1] is Some {
            let said = choose|said: Seq<Said>| #[trigger]
                emits_one(k, u, f, n - 1, said) && told == before + to_slot((n - 1) as usize, said);
            lemma_told_more(before, to_slot((n - 1) as usize, said), i);
            if i == n - 1 {
                if f.slots@[i] is None {
                    assert(emission(k, u.slots@[i].unwrap(), None, said));
                    lemma_told_slot(i as usize, said);
                }
            } else {
                assert(f.slots@[i] == u.slots@[i]);
            }
        }
    }
}

proof fn lemma_commits_told(
    e: Engine,
    f: Engine,
    seq: Seq<usize>,
    toks: Seq<u32>,
    r: int,
    told: Seq<(usize, Said)>,
    i: int,
)
    requires
        commits(e, f, seq, toks, r, told),
        0 <= r <= seq.len(),
        0 <= i < e.slots@.len(),
        e.slots@[i] is Some,
    ensures
        f.slots@.len() == e.slots@.len(),
        f.slots@[i] is None ==> told_done(told, i),
    decreases r,
{
    if r > 0 {
        let (u, before) = choose|u: Engine, before: Seq<(usize, Said)>|
            commits(e, u, seq, toks, r - 1, before) && #[trigger] commits_next(
                u,
                f,
                seq[r - 1],
                toks[r - 1],
                before,
                told,
            );
        lemma_commits_told(e, u, seq, toks, r - 1, before, i);
        let slot = seq[r - 1];
        let said = choose|said: Seq<Said>| #[trigger]
            f.committed(u, slot as int, toks[r - 1], said) && told == before + to_slot(slot, said);
        lemma_told_more(before, to_slot(slot, said), i);
        if i == slot {
            if f.slots@[i] is None {
                lemma_told_slot(slot, said);
            }
        } else {
            assert(f.slots@[i] == u.slots@[i]);
        }
    }
}

proof fn lemma_decodes_told(
    k: Tokenizer,
    e: Engine,
    r: Run,
    a: Asks,
    told: Seq<(usize, Said)>,
    i: int,
)
    requires
        decodes(k, e, r, a, told),
        0 <= i < e.slots@.len(),
        e.slots@[i] is Some,
    ensures
        r.e.slots@[i] is None ==> told_done(told, i),
{
    lemma_emits_told(k, e, r.e, e.slots@.len() as int, told, i);
}

proof fn lemma_admits_told(
    k: Tokenizer,
    e: Engine,
    r: Run,
    a: Asks,
    told: Seq<(usize, Said)>,
    i: int,
)
    requires
        admits(k, e, r, a, told),
        0 <= i < e.slots@.len(),
        e.slots@[i] is Some,
    ensures
        r.e.slots@[i] is None ==> told_done(told, i),
{
    if !(exists|j: int| e.first_free(j)) {
        lemma_decodes_told(k, e, r, a, told, i);
    }
}

/// No client is left waiting: a request that is in flight before a piece of outside work
/// and no longer afterwards was told that it is done.
pub proof fn law_every_end_is_told(
    k: Tokenizer,
    s: Run,
    reply: Reply,
    r: Run,
    a: Asks,
    told: Seq<(usize, Said)>,
    i: int,
)
    requires
        runs(k, s, reply, r, a, told),
        s.wf(k),
        0 <= i < s.e.slots@.len(),
        s.e.slots@[i] is Some,
    ensures
        r.e.slots@[i] is None ==> told_done(told, i),
{
    match (s.stage, reply) {
        (Stage::Begin, Reply::Begin) => {
            lemma_admits_told(k, s.e, r, a, told, i);
        },
        (Stage::Receiving { slot, wait }, Reply::Nobody) => {
            if !wait {
                lemma_decodes_told(k, s.e, r, a, told, i);
            }
        },
        (Stage::Prefilling { slot, job, plan }, Reply::Prefilled(first)) => {
            let e = choose|e: Engine| #[trigger]
                e.placed(s.e, slot as int, job, first, plan.share) && admits(k, e, r, a, told);
            assert(e.slots@[i] is Some);
            lemma_admits_told(k, e, r, a, told, i);
        },
        (Stage::Deciding(seq), Reply::Chosen(toks)) => {
            let (e, one, two) = choose|
                e: Engine,
                one: Seq<(usize, Said)>,
                two: Seq<(usize, Said)>,
            | #[trigger]
                commits(s.e, e, seq@, toks@, seq@.len() as int, one) && #[trigger] admits(
                    k,
                    e,
                    r,
                    a,
                    two,
                ) && told == one + two;
            lemma_commits_told(s.e, e, seq@, toks@, seq@.len() as int, one, i);
            lemma_told_more(one, two, i);
            if e.slots@[i] is Some {
                lemma_admits_told(k, e, r, a, two, i);
            }
        },
        _ => {},
    }
}

} // verus!
