//! Sharing the beginning of a prompt changes nothing that is generated.
//!
//! A forward pass is taken as a function of what the caches hold and of the tokens
//! it is given. A fork holds what its source holds, and every cleared cache holds
//! the same, so a cache is no more here than what it holds. A prompt that continues from a shared cache then leaves the cache
//! and chooses the token that a full prefill does, and two engines that differ in
//! what they share tell every client the same.
use vstd::prelude::*;
use crate::engine::plan::{chunks, law_aligned_reuse_keeps_chunks, law_share_is_common};
use crate::engine::run::{
    admits, commits, commits_next, decodes, emits, emits_next, emits_one, lemma_one_free,
    row_positions, row_tokens, rows_of, runs, share_list, to_slot, Asks, Reply, Run, Stage,
};
use crate::engine::scheduler::{Config, Engine};
use crate::engine::slot::{emission, Job, Said, Slot};
use crate::tokenizer::Tokenizer;

verus! {

// ---------------------------------------------------------------- prefilling
/// The forward passes of a model, over what caches hold.
#[verifier::reject_recursive_types(C)]
pub struct Passes<C> {
    /// what a cache holds that was cleared
    pub empty: C,
    /// some tokens from a position on: the cache then, and the token chosen after
    /// the last of them
    pub forward: spec_fn(C, Seq<u32>, int) -> (C, u32),
    /// one row per request, each with its token, slot and position: the caches
    /// then, and the token chosen for each row
    pub decode: spec_fn(Seq<C>, Seq<u32>, Seq<usize>, Seq<usize>) -> (Seq<C>, Seq<u32>),
}

/// The cache after the chunks of a prompt, and the token chosen after the last.
pub open spec fn prefilled<C>(
    m: Passes<C>,
    toks: Seq<u32>,
    list: Seq<(int, int)>,
    c: C,
    first: u32,
) -> (C, u32)
    decreases list.len(),
{
    if list.len() == 0 {
        (c, first)
    } else {
        let (off, n) = list[0];
        let (next, tok) = (m.forward)(c, toks.subrange(off, off + n), off);
        prefilled(m, toks, list.skip(1), next, tok)
    }
}

/// The cache after a whole prompt in chunks, and the token chosen after it.
pub open spec fn from_scratch<C>(m: Passes<C>, toks: Seq<u32>, chunk: int) -> (C, u32) {
    prefilled(m, toks, chunks(0, toks.len() as int, chunk), m.empty, 0)
}

proof fn lemma_prefilled_concat<C>(
    m: Passes<C>,
    toks: Seq<u32>,
    a: Seq<(int, int)>,
    b: Seq<(int, int)>,
    c: C,
    first: u32,
)
    ensures
        prefilled(m, toks, a + b, c, first) == prefilled(
            m,
            toks,
            b,
            prefilled(m, toks, a, c, first).0,
            prefilled(m, toks, a, c, first).1,
        ),
    decreases a.len(),
{
    if a.len() == 0 {
        assert(a + b =~= b);
    } else {
        let (off, n) = a[0];
        let (next, tok) = (m.forward)(c, toks.subrange(off, off + n), off);
        assert((a + b)[0] == a[0]);
        assert((a + b).skip(1) =~= a.skip(1) + b);
        lemma_prefilled_concat(m, toks, a.skip(1), b, next, tok);
    }
}

/// The token held before a chunk has no part in what comes of it.
proof fn lemma_first_forgotten<C>(
    m: Passes<C>,
    toks: Seq<u32>,
    list: Seq<(int, int)>,
    c: C,
    a: u32,
    b: u32,
)
    requires
        list.len() > 0,
    ensures
        prefilled(m, toks, list, c, a) == prefilled(m, toks, list, c, b),
{
}

/// What is prefilled of a prompt depends on that part of it alone.
proof fn lemma_prefilled_part<C>(
    m: Passes<C>,
    toks: Seq<u32>,
    from: int,
    to: int,
    chunk: int,
    c: C,
    first: u32,
)
    requires
        chunk > 0,
        0 <= from <= to <= toks.len(),
    ensures
        prefilled(m, toks, chunks(from, to, chunk), c, first) == prefilled(
            m,
            toks.take(to),
            chunks(from, to, chunk),
            c,
            first,
        ),
    decreases to - from,
{
    let list = chunks(from, to, chunk);
    if from < to {
        let (off, n) = list[0];
        assert(list.skip(1) =~= chunks(from + n, to, chunk));
        assert(toks.subrange(off, off + n) =~= toks.take(to).subrange(off, off + n));
        let (next, tok) = (m.forward)(c, toks.subrange(off, off + n), off);
        lemma_prefilled_part(m, toks, from + n, to, chunk, next, tok);
    }
}

/// Continuing from a shared beginning of whole chunks leaves the cache and chooses
/// the token that prefilling the whole prompt does.
pub proof fn law_reuse_is_a_full_prefill<C>(m: Passes<C>, shared: Seq<u32>, toks: Seq<u32>, chunk: int)
    requires
        chunk > 0,
        shared.len() % chunk as nat == 0,
        shared.len() < toks.len(),
        toks.take(shared.len() as int) == shared,
    ensures
        prefilled(
            m,
            toks,
            chunks(shared.len() as int, toks.len() as int, chunk),
            from_scratch(m, shared, chunk).0,
            0,
        ) == from_scratch(m, toks, chunk),
{
    let n = shared.len() as int;
    let head = chunks(0, n, chunk);
    let tail = chunks(n, toks.len() as int, chunk);
    law_aligned_reuse_keeps_chunks(0, n, toks.len() as int, chunk);
    lemma_prefilled_concat(m, toks, head, tail, m.empty, 0);
    lemma_prefilled_part(m, toks, 0, n, chunk, m.empty, 0);
    let (c, first) = prefilled(m, toks, head, m.empty, 0);
    lemma_first_forgotten(m, toks, tail, c, first, 0);
}

// ---------------------------------------------------------------- an engine and its surroundings
/// An engine, what its caches hold, and what its clients were told.
pub struct World<C> {
    pub r: Run,
    /// what the engine asks for, once it has begun
    pub asks: Option<Asks>,
    /// what the cache of each slot holds
    pub caches: Seq<C>,
    /// what the shared cache holds
    pub shared: C,
    /// per slot the number of its request
    pub clients: Seq<nat>,
    /// how many requests were received
    pub taken: nat,
    /// all that was said, each with the number of the request
    pub told: Seq<(nat, Said)>,
}

/// What is said, with the numbers of the requests in place of the slots.
pub open spec fn by_request(clients: Seq<nat>, told: Seq<(usize, Said)>) -> Seq<(nat, Said)> {
    told.map_values(|t: (usize, Said)| (clients[t.0 as int], t.1))
}

/// Whether nothing has happened yet.
pub open spec fn begins<C>(m: Passes<C>, w: World<C>) -> bool {
    let e = w.r.e;
    &&& e.cfg.prefill_chunk > 0
    &&& e.cfg.batch > 0
    &&& e.slots@.len() == e.cfg.batch
    &&& e.idle()
    &&& e.prefix is None
    &&& e.last_toks@.len() == 0
    &&& w.r.stage is Begin
    &&& w.asks is None
    &&& w.caches == Seq::new(e.cfg.batch as nat, |i: int| m.empty)
    &&& w.clients == Seq::new(e.cfg.batch as nat, |i: int| 0nat)
    &&& w.taken == 0
    &&& w.told.len() == 0
}

/// The cache and the token that a prefill gives.
pub open spec fn prefill_result<C>(
    m: Passes<C>,
    w: World<C>,
    toks: Seq<u32>,
    fork: bool,
    list: Seq<(int, int)>,
) -> (C, u32) {
    prefilled(
        m,
        toks,
        list,
        if fork {
            w.shared
        } else {
            m.empty
        },
        0,
    )
}

/// The caches and the tokens that a forward pass over several requests gives.
pub open spec fn decode_result<C>(
    m: Passes<C>,
    w: World<C>,
    tokens: Seq<u32>,
    seq: Seq<usize>,
    pos: Seq<usize>,
) -> (Seq<C>, Seq<u32>) {
    (m.decode)(w.caches, tokens, seq, pos)
}

/// Whether a reply is what comes of what the engine asks for, where `heard` is the
/// request that came when it asked for one.
pub open spec fn replies<C>(m: Passes<C>, w: World<C>, heard: Option<Job>, reply: Reply) -> bool {
    match w.asks {
        None => reply is Begin,
        Some(Asks::Receive { .. }) => match heard {
            Some(job) => reply == Reply::Request(job),
            None => reply is Nobody,
        },
        Some(Asks::Prefill { slot, toks, fork, list, share }) => reply == Reply::Prefilled(
            prefill_result(m, w, toks, fork, list).1,
        ),
        Some(Asks::Decode { tokens, seq, pos }) => reply matches Reply::Chosen(toks) && toks@
            == decode_result(m, w, tokens, seq, pos).1,
        Some(Asks::Stop) => false,
    }
}

/// Whether the caches of `v` are those of `w` after what the engine asks for.
pub open spec fn caches_follow<C>(m: Passes<C>, w: World<C>, v: World<C>) -> bool {
    match w.asks {
        Some(Asks::Prefill { slot, toks, fork, list, share }) => {
            &&& v.caches == w.caches.update(
                slot as int,
                prefill_result(m, w, toks, fork, list).0,
            )
            &&& v.shared == match share {
                Some(l) => prefilled(m, toks, l, m.empty, 0).0,
                None => w.shared,
            }
        },
        Some(Asks::Decode { tokens, seq, pos }) => {
            &&& v.caches == decode_result(m, w, tokens, seq, pos).0
            &&& v.shared == w.shared
        },
        _ => v.caches == w.caches && v.shared == w.shared,
    }
}

/// Whether the requests of `v` are those of `w` and the one that was heard.
pub open spec fn requests_follow<C>(w: World<C>, v: World<C>, heard: Option<Job>) -> bool {
    match (w.asks, heard) {
        (Some(Asks::Receive { slot, wait }), Some(_)) => {
            &&& v.clients == w.clients.update(slot as int, w.taken)
            &&& v.taken == w.taken + 1
        },
        _ => v.clients == w.clients && v.taken == w.taken,
    }
}

/// Whether `v` is `w` after one piece of outside work. An engine that has stopped
/// stays as it is.
pub open spec fn is_step<C>(
    m: Passes<C>,
    k: Tokenizer,
    w: World<C>,
    v: World<C>,
    heard: Option<Job>,
) -> bool {
    if w.asks matches Some(Asks::Stop) {
        v == w
    } else {
        exists|reply: Reply, told: Seq<(usize, Said)>| #[trigger]
            steps_by(m, k, w, v, heard, reply, told)
    }
}

/// Whether `v` is `w` after a reply.
pub open spec fn steps_by<C>(
    m: Passes<C>,
    k: Tokenizer,
    w: World<C>,
    v: World<C>,
    heard: Option<Job>,
    reply: Reply,
    told: Seq<(usize, Said)>,
) -> bool {
    &&& replies(m, w, heard, reply)
    &&& v.asks is Some
    &&& runs(k, w.r, reply, v.r, v.asks.unwrap(), told)
    &&& caches_follow(m, w, v)
    &&& requests_follow(w, v, heard)
    &&& v.told == w.told + by_request(v.clients, told)
}

/// Whether an engine went through `worlds` from its beginning on, `heard[i]` being
/// the request that came if it asked for one in step `i`.
pub open spec fn is_run<C>(
    m: Passes<C>,
    k: Tokenizer,
    worlds: Seq<World<C>>,
    heard: Seq<Option<Job>>,
) -> bool {
    &&& worlds.len() == heard.len() + 1
    &&& begins(m, worlds[0])
    &&& forall|i: int|
        0 <= i < heard.len() ==> is_step(m, k, #[trigger] worlds[i], worlds[i + 1], heard[i])
}

/// Whether two engines are set up alike but for what they share.
pub open spec fn set_up_alike(a: Config, b: Config) -> bool {
    &&& a.ctx == b.ctx
    &&& a.batch == b.batch
    &&& a.threads == b.threads
    &&& a.prefill_chunk == b.prefill_chunk
}

// ---------------------------------------------------------------- two engines
/// Whether two slots are at the same point of one request.
spec fn same_slot(a: Option<Slot>, b: Option<Slot>) -> bool {
    match (a, b) {
        (Some(s), Some(t)) => {
            &&& s.job == t.job
            &&& s.out_ids@ == t.out_ids@
            &&& s.text@ == t.text@
            &&& s.sent == t.sent
            &&& s.pos == t.pos
            &&& s.tok == t.tok
        },
        (None, None) => true,
        _ => false,
    }
}

spec fn same_slots(a: Seq<Option<Slot>>, b: Seq<Option<Slot>>) -> bool {
    a.len() == b.len() && forall|i: int|
        #![trigger a[i]]
        #![trigger b[i]]
        0 <= i < a.len() ==> same_slot(a[i], b[i])
}

/// Whether two engines differ in what they share at most.
spec fn same_engine(a: Engine, b: Engine) -> bool {
    &&& set_up_alike(a.cfg, b.cfg)
    &&& a.cfg.prefill_chunk > 0
    &&& a.cfg.batch > 0
    &&& a.slots@.len() == a.cfg.batch
    &&& same_slots(a.slots@, b.slots@)
}

/// Whether an engine is set up and shares as before.
spec fn shares_as(e: Engine, f: Engine) -> bool {
    f.cfg == e.cfg && f.prefix == e.prefix
}

/// Whether an engine prefills the prompt of a request in a slot as it plans to.
spec fn prefills(r: Run, a: Asks, at: usize, of: Job) -> bool {
    &&& r.stage matches Stage::Prefilling { slot, job, plan } && slot == at && job == of
        && r.e.plans(of.toks@, plan) && a == (Asks::Prefill {
        slot: at,
        toks: of.toks@,
        fork: plan.reuse > 0,
        list: chunks(
            plan.reuse as int,
            of.toks@.len() as int,
            r.e.cfg.prefill_chunk as int,
        ),
        share: share_list(r.e, plan),
    })
}

/// Whether two engines wait for the same.
spec fn wait_alike(a: Run, x: Asks, b: Run, y: Asks) -> bool {
    match x {
        Asks::Receive { slot, wait } => {
            &&& y == x
            &&& a.stage == (Stage::Receiving { slot, wait })
            &&& b.stage == (Stage::Receiving { slot, wait })
        },
        Asks::Prefill { slot, .. } => exists|job: Job| #[trigger]
            prefills(a, x, slot, job) && prefills(b, y, slot, job),
        Asks::Decode { tokens, seq, pos } => {
            &&& y == x
            &&& a.stage matches Stage::Deciding(rows) && rows@ == seq
            &&& b.stage matches Stage::Deciding(rows) && rows@ == seq
            &&& rows_here(a.e, seq)
        },
        Asks::Stop => y is Stop,
    }
}

/// Whether slots stand in order and each has a request in flight.
spec fn rows_here(e: Engine, seq: Seq<usize>) -> bool {
    &&& forall|x: int|
        0 <= x < seq.len() ==> (#[trigger] seq[x]) < e.slots@.len()
            && e.slots@[seq[x] as int] is Some
    &&& forall|x: int, y: int| 0 <= x < y < seq.len() ==> (#[trigger] seq[x]) < (#[trigger] seq[y])
}

/// Whether two worlds differ in what is shared at most.
spec fn same<C>(a: World<C>, b: World<C>) -> bool {
    &&& same_engine(a.r.e, b.r.e)
    &&& match (a.asks, b.asks) {
        (Some(x), Some(y)) => wait_alike(a.r, x, b.r, y),
        (None, None) => a.r.stage is Begin && b.r.stage is Begin,
        _ => false,
    }
    &&& a.caches == b.caches
    &&& a.clients == b.clients
    &&& a.taken == b.taken
    &&& a.told == b.told
}

/// Whether the shared cache holds what prefilling its tokens leaves.
spec fn shares_rightly<C>(m: Passes<C>, e: Engine, shared: C) -> bool {
    e.prefix_toks() matches Some(p) ==> {
        &&& p.len() % e.cfg.prefill_chunk as nat == 0
        &&& shared == from_scratch(m, p, e.cfg.prefill_chunk as int).0
    }
}

proof fn lemma_free_alike(a: Engine, b: Engine, i: int)
    requires
        same_slots(a.slots@, b.slots@),
        a.first_free(i),
    ensures
        b.first_free(i),
{
    assert(same_slot(a.slots@[i], b.slots@[i]));
    assert forall|j: int| 0 <= j < i implies (#[trigger] b.slots@[j]) is Some by {
        assert(a.slots@[j] is Some);
    }
}

proof fn lemma_idle_alike(a: Engine, b: Engine)
    requires
        same_slots(a.slots@, b.slots@),
    ensures
        a.idle() == b.idle(),
{
    if a.idle() {
        assert forall|i: int| 0 <= i < b.slots@.len() implies (#[trigger] b.slots@[i]) is None by {
            assert(a.slots@[i] is None);
        }
    }
    if b.idle() {
        assert forall|i: int| 0 <= i < a.slots@.len() implies (#[trigger] a.slots@[i]) is None by {
            assert(b.slots@[i] is None);
        }
    }
}

proof fn lemma_same_slots_back(a: Seq<Option<Slot>>, b: Seq<Option<Slot>>)
    requires
        same_slots(a, b),
    ensures
        same_slots(b, a),
{
    assert forall|i: int|
        #![trigger a[i]]
        #![trigger b[i]]
        0 <= i < b.len() implies same_slot(b[i], a[i]) by {
        assert(same_slot(a[i], b[i]));
    }
}

/// Two engines whose slot `i` alone has changed, to the same.
proof fn lemma_same_but(a: Engine, u: Engine, b: Engine, v: Engine, i: int)
    requires
        same_engine(a, b),
        u.same_but(a, i),
        v.same_but(b, i),
        same_slot(u.slots@[i], v.slots@[i]),
    ensures
        same_engine(u, v),
        shares_as(a, u),
        shares_as(b, v),
{
    assert forall|x: int|
        #![trigger u.slots@[x]]
        #![trigger v.slots@[x]]
        0 <= x < u.slots@.len() implies same_slot(u.slots@[x], v.slots@[x]) by {
        if x != i {
            assert(same_slot(a.slots@[x], b.slots@[x]));
            assert(u.slots@[x] == a.slots@[x]);
            assert(v.slots@[x] == b.slots@[x]);
        }
    }
}

/// One request says the same and comes to the same point.
proof fn lemma_same_emission(
    k: Tokenizer,
    s: Slot,
    t: Slot,
    s2: Option<Slot>,
    t2: Option<Slot>,
    said: Seq<Said>,
    heard: Seq<Said>,
)
    requires
        same_slot(Some(s), Some(t)),
        emission(k, s, s2, said),
        emission(k, t, t2, heard),
    ensures
        said == heard,
        same_slot(s2, t2),
{
}

proof fn lemma_emits(
    k: Tokenizer,
    a: Engine,
    a2: Engine,
    b: Engine,
    b2: Engine,
    n: int,
    ta: Seq<(usize, Said)>,
    tb: Seq<(usize, Said)>,
)
    requires
        same_engine(a, b),
        n <= a.slots@.len(),
        emits(k, a, a2, n, ta),
        emits(k, b, b2, n, tb),
    ensures
        same_engine(a2, b2),
        shares_as(a, a2),
        shares_as(b, b2),
        ta == tb,
    decreases n,
{
    if n > 0 {
        let (u, one) = choose|u: Engine, one: Seq<(usize, Said)>|
            emits(k, a, u, n - 1, one) && #[trigger] emits_next(k, u, a2, n - 1, one, ta);
        let (v, two) = choose|v: Engine, two: Seq<(usize, Said)>|
            emits(k, b, v, n - 1, two) && #[trigger] emits_next(k, v, b2, n - 1, two, tb);
        lemma_emits(k, a, u, b, v, n - 1, one, two);
        assert(same_slot(u.slots@[n - 1], v.slots@[n - 1]));
        if u.slots@[n - 1] is Some {
            let said = choose|said: Seq<Said>| #[trigger]
                emits_one(k, u, a2, n - 1, said) && ta == one + to_slot((n - 1) as usize, said);
            let heard = choose|heard: Seq<Said>| #[trigger]
                emits_one(k, v, b2, n - 1, heard) && tb == two + to_slot((n - 1) as usize, heard);
            lemma_same_emission(
                k,
                u.slots@[n - 1].unwrap(),
                v.slots@[n - 1].unwrap(),
                a2.slots@[n - 1],
                b2.slots@[n - 1],
                said,
                heard,
            );
            lemma_same_but(u, a2, v, b2, n - 1);
        }
    } else {
        assert(ta =~= tb);
    }
}

proof fn lemma_commits(
    a: Engine,
    a2: Engine,
    b: Engine,
    b2: Engine,
    seq: Seq<usize>,
    toks: Seq<u32>,
    r: int,
    ta: Seq<(usize, Said)>,
    tb: Seq<(usize, Said)>,
)
    requires
        same_engine(a, b),
        rows_here(a, seq),
        r <= seq.len(),
        commits(a, a2, seq, toks, r, ta),
        commits(b, b2, seq, toks, r, tb),
    ensures
        same_engine(a2, b2),
        shares_as(a, a2),
        shares_as(b, b2),
        ta == tb,
        forall|x: int|
            0 <= x && r <= x < seq.len() ==> a2.slots@[(#[trigger] seq[x]) as int]
                == a.slots@[seq[x] as int],
    decreases r,
{
    if r > 0 {
        let (u, one) = choose|u: Engine, one: Seq<(usize, Said)>|
            commits(a, u, seq, toks, r - 1, one) && #[trigger] commits_next(
                u,
                a2,
                seq[r - 1],
                toks[r - 1],
                one,
                ta,
            );
        let (v, two) = choose|v: Engine, two: Seq<(usize, Said)>|
            commits(b, v, seq, toks, r - 1, two) && #[trigger] commits_next(
                v,
                b2,
                seq[r - 1],
                toks[r - 1],
                two,
                tb,
            );
        lemma_commits(a, u, b, v, seq, toks, r - 1, one, two);
        let i = seq[r - 1] as int;
        let said = choose|said: Seq<Said>| #[trigger]
            a2.committed(u, i, toks[r - 1], said) && ta == one + to_slot(seq[r - 1], said);
        let heard = choose|heard: Seq<Said>| #[trigger]
            b2.committed(v, i, toks[r - 1], heard) && tb == two + to_slot(seq[r - 1], heard);
        assert(u.slots@[i] == a.slots@[i]);
        assert(same_slot(u.slots@[i], v.slots@[i]));
        assert(said =~= heard);
        lemma_same_but(u, a2, v, b2, i);
        assert forall|x: int| r <= x < seq.len() implies a2.slots@[(#[trigger] seq[x]) as int]
            == a.slots@[seq[x] as int] by {
            assert(seq[r - 1] < seq[x]);
            assert(a2.slots@[seq[x] as int] == u.slots@[seq[x] as int]);
        }
    } else {
        assert(ta =~= tb);
    }
}

proof fn lemma_same_rows(a: Engine, b: Engine, n: int)
    requires
        same_slots(a.slots@, b.slots@),
        n <= a.slots@.len(),
    ensures
        a.active_below(n) == b.active_below(n),
        rows_here(a, a.active_below(n)),
        forall|r: int|
            0 <= r < a.active_below(n).len() ==> (#[trigger] a.active_below(n)[r]) < n,
    decreases n,
{
    if n > 0 {
        lemma_same_rows(a, b, n - 1);
        assert(same_slot(a.slots@[n - 1], b.slots@[n - 1]));
        assert(a.slots.len() == a.slots@.len());
        let shorter = a.active_below(n - 1);
        let rows = a.active_below(n);
        assert forall|r: int| 0 <= r < rows.len() implies (#[trigger] rows[r]) < n
            && a.slots@[rows[r] as int] is Some by {
            if r < shorter.len() {
                assert(rows[r] == shorter[r]);
            }
        }
        assert forall|r: int, q: int| 0 <= r < q < rows.len() implies (#[trigger] rows[r]) < (
        #[trigger] rows[q]) by {
            assert(rows[r] == shorter[r]);
            if q < shorter.len() {
                assert(rows[q] == shorter[q]);
            }
        }
    }
}

proof fn lemma_decodes(
    k: Tokenizer,
    a: Engine,
    ra: Run,
    x: Asks,
    ta: Seq<(usize, Said)>,
    b: Engine,
    rb: Run,
    y: Asks,
    tb: Seq<(usize, Said)>,
)
    requires
        same_engine(a, b),
        decodes(k, a, ra, x, ta),
        decodes(k, b, rb, y, tb),
    ensures
        same_engine(ra.e, rb.e),
        shares_as(a, ra.e),
        shares_as(b, rb.e),
        wait_alike(ra, x, rb, y),
        ta == tb,
{
    let n = a.slots@.len() as int;
    lemma_emits(k, a, ra.e, b, rb.e, n, ta, tb);
    lemma_same_rows(ra.e, rb.e, n);
    let seq = rows_of(ra.e);
    assert forall|r: int| 0 <= r < seq.len() implies same_slot(
        ra.e.slots@[(#[trigger] seq[r]) as int],
        rb.e.slots@[seq[r] as int],
    ) by {}
    assert(row_tokens(ra.e, seq) =~= row_tokens(rb.e, seq));
    assert(row_positions(ra.e, seq) =~= row_positions(rb.e, seq));
}

proof fn lemma_admits(
    k: Tokenizer,
    a: Engine,
    ra: Run,
    x: Asks,
    ta: Seq<(usize, Said)>,
    b: Engine,
    rb: Run,
    y: Asks,
    tb: Seq<(usize, Said)>,
)
    requires
        same_engine(a, b),
        admits(k, a, ra, x, ta),
        admits(k, b, rb, y, tb),
    ensures
        same_engine(ra.e, rb.e),
        shares_as(a, ra.e),
        shares_as(b, rb.e),
        wait_alike(ra, x, rb, y),
        ta == tb,
{
    lemma_idle_alike(a, b);
    if exists|i: int| a.first_free(i) {
        let i = choose|i: int| a.first_free(i);
        lemma_free_alike(a, b, i);
        lemma_one_free(b, i);
        assert(ta =~= tb);
    } else {
        assert forall|i: int| !b.first_free(i) by {
            if b.first_free(i) {
                lemma_same_slots_back(a.slots@, b.slots@);
                lemma_free_alike(b, a, i);
            }
        }
        lemma_decodes(k, a, ra, x, ta, b, rb, y, tb);
    }
}

/// However a prompt is prefilled, it comes to what a full prefill does, and what
/// is shared stays right.
proof fn lemma_prefill<C>(m: Passes<C>, w: World<C>, at: usize, job: Job, f: Engine, first: u32)
    requires
        w.r.e.cfg.prefill_chunk > 0,
        shares_rightly(m, w.r.e, w.shared),
        w.asks is Some,
        prefills(w.r, w.asks.unwrap(), at, job),
    ensures
        ({
            let a = w.asks.unwrap();
            let plan = w.r.stage->plan;
            &&& prefill_result(m, w, a->toks, a->fork, a->list) == from_scratch(
                m,
                job.toks@,
                w.r.e.cfg.prefill_chunk as int,
            )
            &&& f.placed(w.r.e, at as int, job, first, plan.share) ==> shares_rightly(
                m,
                f,
                match a->share {
                    Some(l) => prefilled(m, job.toks@, l, m.empty, 0).0,
                    None => w.shared,
                },
            )
        }),
{
    let toks = job.toks@;
    let chunk = w.r.e.cfg.prefill_chunk as int;
    let p = w.r.stage->plan;
    if p.reuse > 0 {
        let shared = w.r.e.prefix_toks().unwrap();
        law_reuse_is_a_full_prefill(m, shared, toks, chunk);
    }
    if let Some(n) = p.share {
        let covered = match w.r.e.prefix_toks() {
            Some(t) => t.len(),
            None => 0,
        };
        law_share_is_common(
            toks,
            w.r.e.last_toks@,
            covered,
            p.reuse as nat,
            chunk,
            w.r.e.cfg.prefix_min as nat,
            n as int,
        );
        lemma_prefilled_part(m, toks, 0, n as int, chunk, m.empty, 0);
    }
}

proof fn lemma_placed(
    a: Engine,
    u: Engine,
    b: Engine,
    v: Engine,
    at: usize,
    job: Job,
    first: u32,
    pa: Option<usize>,
    pb: Option<usize>,
)
    requires
        same_engine(a, b),
        u.placed(a, at as int, job, first, pa),
        v.placed(b, at as int, job, first, pb),
    ensures
        same_engine(u, v),
{
    assert forall|x: int|
        #![trigger u.slots@[x]]
        #![trigger v.slots@[x]]
        0 <= x < u.slots@.len() implies same_slot(u.slots@[x], v.slots@[x]) by {
        if x != at {
            assert(same_slot(a.slots@[x], b.slots@[x]));
        } else {
            let s = u.slots@[x].unwrap();
            let t = v.slots@[x].unwrap();
            assert(s.out_ids@ =~= t.out_ids@);
            assert(s.text@ =~= t.text@);
        }
    }
}

/// Two engines that are the same but for what they share stay so.
proof fn lemma_step<C>(
    m: Passes<C>,
    k: Tokenizer,
    a: World<C>,
    a2: World<C>,
    b: World<C>,
    b2: World<C>,
    heard: Option<Job>,
)
    requires
        same(a, b),
        shares_rightly(m, a.r.e, a.shared),
        shares_rightly(m, b.r.e, b.shared),
        is_step(m, k, a, a2, heard),
        is_step(m, k, b, b2, heard),
    ensures
        same(a2, b2),
        shares_rightly(m, a2.r.e, a2.shared),
        shares_rightly(m, b2.r.e, b2.shared),
{
    if !(a.asks matches Some(Asks::Stop)) {
        let (p, ta) = choose|p: Reply, ta: Seq<(usize, Said)>| #[trigger]
            steps_by(m, k, a, a2, heard, p, ta);
        let (q, tb) = choose|q: Reply, tb: Seq<(usize, Said)>| #[trigger]
            steps_by(m, k, b, b2, heard, q, tb);
        let x = a2.asks.unwrap();
        let y = b2.asks.unwrap();
        match a.asks {
            None => {
                lemma_admits(k, a.r.e, a2.r, x, ta, b.r.e, b2.r, y, tb);
            },
            Some(Asks::Receive { slot, wait }) => {
                match heard {
                    Some(job) => {
                        assert(ta =~= tb);
                        assert(prefills(a2.r, x, slot, job));
                        assert(prefills(b2.r, y, slot, job));
                        assert(x matches Asks::Prefill { slot: s, .. } && s == slot);
                    },
                    None => {
                        if wait {
                            assert(ta =~= tb);
                        } else {
                            lemma_decodes(k, a.r.e, a2.r, x, ta, b.r.e, b2.r, y, tb);
                        }
                    },
                }
            },
            Some(Asks::Prefill { slot, .. }) => {
                let job = choose|job: Job| #[trigger]
                    prefills(a.r, a.asks.unwrap(), slot, job) && prefills(
                        b.r,
                        b.asks.unwrap(),
                        slot,
                        job,
                    );
                let first = p->Prefilled_0;
                let pa = a.r.stage->plan.share;
                let pb = b.r.stage->plan.share;
                let u = choose|u: Engine| #[trigger]
                    u.placed(a.r.e, slot as int, job, first, pa) && admits(k, u, a2.r, x, ta);
                let last = q->Prefilled_0;
                let v = choose|v: Engine| #[trigger]
                    v.placed(b.r.e, slot as int, job, last, pb) && admits(k, v, b2.r, y, tb);
                lemma_prefill(m, a, slot, job, u, first);
                lemma_prefill(m, b, slot, job, v, last);
                lemma_placed(a.r.e, u, b.r.e, v, slot, job, first, pa, pb);
                lemma_admits(k, u, a2.r, x, ta, v, b2.r, y, tb);
            },
            Some(Asks::Decode { tokens, seq, pos }) => {
                let toks = decode_result(m, a, tokens, seq, pos).1;
                let (u, one, two) = choose|
                    u: Engine,
                    one: Seq<(usize, Said)>,
                    two: Seq<(usize, Said)>,
                | #[trigger]
                    commits(a.r.e, u, seq, toks, seq.len() as int, one) && #[trigger] admits(
                        k,
                        u,
                        a2.r,
                        x,
                        two,
                    ) && ta == one + two;
                let (v, three, four) = choose|
                    v: Engine,
                    three: Seq<(usize, Said)>,
                    four: Seq<(usize, Said)>,
                | #[trigger]
                    commits(b.r.e, v, seq, toks, seq.len() as int, three) && #[trigger] admits(
                        k,
                        v,
                        b2.r,
                        y,
                        four,
                    ) && tb == three + four;
                lemma_commits(a.r.e, u, b.r.e, v, seq, toks, seq.len() as int, one, three);
                lemma_admits(k, u, a2.r, x, two, v, b2.r, y, four);
            },
            Some(Asks::Stop) => {},
        }
        assert(ta == tb);
    }
}

proof fn lemma_runs<C>(
    m: Passes<C>,
    k: Tokenizer,
    a: Seq<World<C>>,
    b: Seq<World<C>>,
    heard: Seq<Option<Job>>,
    i: int,
)
    requires
        is_run(m, k, a, heard),
        is_run(m, k, b, heard),
        set_up_alike(a[0].r.e.cfg, b[0].r.e.cfg),
        0 <= i < a.len(),
    ensures
        same(a[i], b[i]),
        shares_rightly(m, a[i].r.e, a[i].shared),
        shares_rightly(m, b[i].r.e, b[i].shared),
    decreases i,
{
    if i == 0 {
        assert(a[0].told =~= b[0].told);
        assert(a[0].caches =~= b[0].caches);
        assert(a[0].clients =~= b[0].clients);
        assert forall|x: int|
            #![trigger a[0].r.e.slots@[x]]
            #![trigger b[0].r.e.slots@[x]]
            0 <= x < a[0].r.e.slots@.len() implies same_slot(
            a[0].r.e.slots@[x],
            b[0].r.e.slots@[x],
        ) by {}
    } else {
        lemma_runs(m, k, a, b, heard, i - 1);
        assert(is_step(m, k, a[i - 1], a[i - 1 + 1], heard[i - 1]));
        assert(is_step(m, k, b[i - 1], b[i - 1 + 1], heard[i - 1]));
        lemma_step(m, k, a[i - 1], a[i], b[i - 1], b[i], heard[i - 1]);
    }
}

/// Sharing never changes what is generated: two engines that differ in the shortest
/// beginning they share, given the same requests at the same steps, say the same to
/// every client. One of them may share nothing at all.
pub proof fn law_sharing_changes_no_event<C>(
    m: Passes<C>,
    k: Tokenizer,
    a: Seq<World<C>>,
    b: Seq<World<C>>,
    heard: Seq<Option<Job>>,
)
    requires
        is_run(m, k, a, heard),
        is_run(m, k, b, heard),
        set_up_alike(a[0].r.e.cfg, b[0].r.e.cfg),
    ensures
        a.last().told == b.last().told,
{
    lemma_runs(m, k, a, b, heard, a.len() - 1);
}

} // verus!
