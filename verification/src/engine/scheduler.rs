//! The state of the engine between two forward passes.
use vstd::prelude::*;
use crate::engine::plan::{reuse_len, reuse_of, share_from, share_len};
use crate::engine::slot::{
    all_said, decoded, emission, emit, finish, lemma_settled_is_prefix, out_of_room, Event, Job,
    Said, Slot,
};
use crate::tokenizer::Tokenizer;

verus! {

/// How the engine is set up.
pub struct Config {
    /// positions per sequence
    pub ctx: usize,
    /// sequences decoded together
    pub batch: usize,
    pub threads: usize,
    pub prefill_chunk: usize,
    /// shortest shared beginning worth caching; 0 turns sharing off
    pub prefix_min: usize,
}

/// Whether a request can be taken in now.
pub enum Admission {
    /// every slot is taken
    Full,
    /// this slot is free and nothing is running: wait for a request
    Wait(usize),
    /// this slot is free and others are running: look whether there is a request
    Poll(usize),
}

/// How a prompt is prefilled.
pub struct Plan {
    /// tokens at its beginning that the shared cache already covers
    pub reuse: usize,
    /// tokens at its beginning to cache for the prompts to come
    pub share: Option<usize>,
}

/// The rows of one forward pass: per row the token, the slot and the position.
pub struct Batch {
    pub tokens: Vec<u32>,
    pub seq: Vec<usize>,
    pub pos: Vec<usize>,
}

/// The engine's slots and what it knows of the prompts it has seen.
pub struct Engine {
    pub cfg: Config,
    pub slots: Vec<Option<Slot>>,
    /// the tokens of the shared cache
    pub prefix: Option<Vec<u32>>,
    /// the prompt before
    pub last_toks: Vec<u32>,
}

/// Whether the positions that a slot can still reach lie within the context.
pub open spec fn fits(s: Slot, ctx: usize) -> bool {
    s.pos + s.job.max_tokens <= ctx + s.out_ids@.len()
}

/// Whether a slot has taken its token and waits for the next one.
pub open spec fn ready(s: Slot, ctx: usize) -> bool {
    s.pos + s.job.max_tokens + 1 <= ctx + s.out_ids@.len()
}

impl Engine {
    /// Whether every request in flight is in order and stays within the context.
    pub open spec fn wf(&self, k: Tokenizer) -> bool {
        &&& self.cfg.prefill_chunk > 0
        &&& self.slots@.len() == self.cfg.batch
        &&& forall|i: int|
            0 <= i < self.slots@.len() ==> (#[trigger] self.slots@[i] matches Some(s) ==> s.wf(k)
                && fits(s, self.cfg.ctx))
    }

    /// The tokens of the shared cache.
    pub open spec fn prefix_toks(&self) -> Option<Seq<u32>> {
        match self.prefix {
            Some(p) => Some(p@),
            None => None,
        }
    }

    /// Whether slot `i` is the first free one.
    pub open spec fn first_free(&self, i: int) -> bool {
        &&& 0 <= i < self.slots@.len()
        &&& self.slots@[i] is None
        &&& forall|j: int| 0 <= j < i ==> (#[trigger] self.slots@[j]) is Some
    }

    /// Whether no request is in flight.
    pub open spec fn idle(&self) -> bool {
        forall|i: int| 0 <= i < self.slots@.len() ==> (#[trigger] self.slots@[i]) is None
    }

    /// An engine with free slots alone.
    pub fn new(cfg: Config) -> (e: Engine)
        ensures
            e.cfg == cfg,
            e.slots@.len() == cfg.batch,
            e.idle(),
            e.prefix is None,
            e.last_toks@.len() == 0,
    {
        let mut slots: Vec<Option<Slot>> = Vec::new();
        while slots.len() < cfg.batch
            invariant
                slots@.len() <= cfg.batch,
                forall|i: int| 0 <= i < slots@.len() ==> (#[trigger] slots@[i]) is None,
            decreases cfg.batch - slots@.len(),
        {
            slots.push(None);
        }
        Engine { cfg, slots, prefix: None, last_toks: Vec::new() }
    }

    /// Whether a request can be taken in now, and where.
    pub fn admission(&self) -> (r: Admission)
        ensures
            match r {
                Admission::Full => forall|i: int|
                    0 <= i < self.slots@.len() ==> (#[trigger] self.slots@[i]) is Some,
                Admission::Wait(i) => self.first_free(i as int) && self.idle(),
                Admission::Poll(i) => self.first_free(i as int) && !self.idle(),
            },
    {
        let mut free: Option<usize> = None;
        let mut idle: bool = true;
        let mut i: usize = 0;
        while i < self.slots.len()
            invariant
                i <= self.slots@.len(),
                match free {
                    Some(f) => f < i && self.first_free(f as int),
                    None => forall|j: int| 0 <= j < i ==> (#[trigger] self.slots@[j]) is Some,
                },
                idle == forall|j: int| 0 <= j < i ==> (#[trigger] self.slots@[j]) is None,
            decreases self.slots@.len() - i,
        {
            if self.slots[i].is_some() {
                idle = false;
            } else if free.is_none() {
                free = Some(i);
            }
            i += 1;
        }
        match free {
            Some(f) => {
                if idle {
                    Admission::Wait(f)
                } else {
                    Admission::Poll(f)
                }
            },
            None => Admission::Full,
        }
    }

    /// Whether `p` is how a prompt is prefilled.
    pub open spec fn plans(&self, toks: Seq<u32>, p: Plan) -> bool {
        &&& p.reuse == reuse_of(self.prefix_toks(), toks)
        &&& share_from(
            toks,
            self.last_toks@,
            match self.prefix_toks() {
                Some(t) => t.len(),
                None => 0,
            },
            p.reuse as nat,
            self.cfg.prefill_chunk as int,
            self.cfg.prefix_min as nat,
            match p.share {
                Some(n) => Some(n as int),
                None => None,
            },
        )
    }

    /// How a prompt is prefilled.
    pub fn plan(&self, toks: &[u32]) -> (p: Plan)
        requires
            self.cfg.prefill_chunk > 0,
        ensures
            self.plans(toks@, p),
            p.reuse < toks@.len() || p.reuse == 0,
    {
        let reuse: usize = reuse_len(&self.prefix, toks);
        let covered: usize = match &self.prefix {
            Some(p) => p.len(),
            None => 0,
        };
        let share = share_len(
            toks,
            self.last_toks.as_slice(),
            covered,
            reuse,
            self.cfg.prefill_chunk,
            self.cfg.prefix_min,
        );
        Plan { reuse, share }
    }

    /// Whether this is `before` with a prefilled request in slot `i`.
    pub open spec fn placed(
        &self,
        before: Engine,
        i: int,
        job: Job,
        first: u32,
        share: Option<usize>,
    ) -> bool {
        &&& self.cfg == before.cfg
        &&& self.last_toks@ == job.toks@
        &&& self.prefix_toks() == match share {
            Some(n) => Some(job.toks@.take(n as int)),
            None => before.prefix_toks(),
        }
        &&& self.slots@.len() == before.slots@.len()
        &&& forall|j: int|
            0 <= j < before.slots@.len() && j != i ==> #[trigger] self.slots@[j]
                == before.slots@[j]
        &&& self.slots@[i] matches Some(s) && s.is_new(job) && s.tok == first
    }

    /// Takes a prefilled request into a free slot. `first` is the token that its
    /// prefill gave, `share` what was cached of its prompt.
    pub fn place(&mut self, i: usize, job: Job, first: u32, share: Option<usize>, k: &Tokenizer)
        requires
            old(self).wf(*k),
            i < old(self).slots@.len(),
            old(self).slots@[i as int] is None,
            job.toks@.len() + job.max_tokens <= old(self).cfg.ctx,
            share matches Some(n) ==> n <= job.toks@.len(),
        ensures
            final(self).wf(*k),
            final(self).placed(*old(self), i as int, job, first, share),
    {
        let last = copy_toks(job.toks.as_slice(), job.toks.len());
        assert(job.toks@.take(job.toks@.len() as int) =~= job.toks@);
        if let Some(n) = share {
            let shared = copy_toks(job.toks.as_slice(), n);
            self.prefix = Some(shared);
        }
        self.last_toks = last;
        let pos: usize = job.toks.len();
        let s = Slot {
            job,
            out_ids: Vec::new(),
            text: String::new(),
            sent: 0,
            pos,
            tok: first,
        };
        proof {
            assert(s.text@ =~= decoded(*k, s.out_ids@));
            lemma_settled_is_prefix(s.text@);
        }
        self.slots.set(i, Some(s));
    }

    /// Takes the token that slot `i` holds and gives what its client is told. The
    /// slot is free afterwards if the request has ended.
    pub fn emit(&mut self, i: usize, k: &Tokenizer) -> (events: Vec<Event>)
        requires
            k.wf(),
            old(self).wf(*k),
            i < old(self).slots@.len(),
            old(self).slots@[i as int] is Some,
        ensures
            final(self).wf(*k),
            final(self).same_but(*old(self), i as int),
            emission(
                *k,
                old(self).slots@[i as int].unwrap(),
                final(self).slots@[i as int],
                all_said(events@),
            ),
            final(self).slots@[i as int] matches Some(s) ==> ready(s, final(self).cfg.ctx),
    {
        let mut taken: Option<Slot> = None;
        std::mem::swap(&mut taken, &mut self.slots[i]);
        match taken {
            Some(s) => {
                let (left, events) = emit(s, k);
                self.slots.set(i, left);
                events
            },
            None => Vec::new(),
        }
    }

    /// Whether only slot `i` may differ.
    pub open spec fn same_but(&self, other: Engine, i: int) -> bool {
        &&& self.cfg == other.cfg
        &&& self.prefix == other.prefix
        &&& self.last_toks == other.last_toks
        &&& self.slots@.len() == other.slots@.len()
        &&& forall|j: int|
            0 <= j < self.slots@.len() && j != i ==> #[trigger] self.slots@[j] == other.slots@[j]
    }

    /// The slots with a request in flight, in order.
    pub open spec fn active_below(&self, n: int) -> Seq<usize>
        decreases n,
    {
        if n <= 0 {
            Seq::empty()
        } else if self.slots@[n - 1] is Some {
            self.active_below(n - 1).push((n - 1) as usize)
        } else {
            self.active_below(n - 1)
        }
    }

    /// The slots with a request in flight, in order.
    pub fn active(&self) -> (r: Vec<usize>)
        ensures
            r@ == self.active_below(self.slots@.len() as int),
    {
        let mut r: Vec<usize> = Vec::new();
        let mut i: usize = 0;
        while i < self.slots.len()
            invariant
                i <= self.slots@.len(),
                r@ == self.active_below(i as int),
            decreases self.slots@.len() - i,
        {
            if self.slots[i].is_some() {
                r.push(i);
            }
            i += 1;
        }
        r
    }

    /// The rows of the next forward pass: one per request in flight.
    pub fn batch(&self) -> (b: Batch)
        ensures
            b.seq@ == self.active_below(self.slots@.len() as int),
            b.tokens@.len() == b.seq@.len(),
            b.pos@.len() == b.seq@.len(),
            forall|r: int|
                0 <= r < b.seq@.len() ==> (#[trigger] b.seq@[r]) < self.slots@.len()
                    && (self.slots@[b.seq@[r] as int] matches Some(s) && b.tokens@[r] == s.tok
                    && b.pos@[r] == s.pos),
    {
        let mut tokens: Vec<u32> = Vec::new();
        let mut seq: Vec<usize> = Vec::new();
        let mut pos: Vec<usize> = Vec::new();
        let mut i: usize = 0;
        while i < self.slots.len()
            invariant
                i <= self.slots@.len(),
                seq@ == self.active_below(i as int),
                tokens@.len() == seq@.len(),
                pos@.len() == seq@.len(),
                forall|r: int|
                    0 <= r < seq@.len() ==> (#[trigger] seq@[r]) < self.slots@.len() && (
                    self.slots@[seq@[r] as int] matches Some(s) && tokens@[r] == s.tok && pos@[r]
                        == s.pos),
            decreases self.slots@.len() - i,
        {
            if let Some(s) = &self.slots[i] {
                tokens.push(s.tok);
                seq.push(i);
                pos.push(s.pos);
            }
            i += 1;
        }
        Batch { tokens, seq, pos }
    }

    /// Whether this is `before` with slot `i` given a token, and `said` what its
    /// client is told: the rest, if the request has used up the context.
    pub open spec fn committed(&self, before: Engine, i: int, tok: u32, said: Seq<Said>) -> bool {
        let s = before.slots@[i].unwrap();
        &&& self.same_but(before, i)
        &&& if s.pos + 1 >= before.cfg.ctx - 1 {
            self.slots@[i] is None && said == out_of_room(s)
        } else {
            self.slots@[i] matches Some(t) && t.moved(s, tok) && said.len() == 0
        }
    }

    /// Gives slot `i` the token that the forward pass chose. A request that has
    /// used up the context ends here; what its client is told then is returned.
    pub fn commit(&mut self, i: usize, tok: u32, k: &Tokenizer) -> (events: Vec<Event>)
        requires
            old(self).wf(*k),
            i < old(self).slots@.len(),
            old(self).slots@[i as int] matches Some(s) && ready(s, old(self).cfg.ctx),
        ensures
            final(self).wf(*k),
            final(self).committed(*old(self), i as int, tok, all_said(events@)),
    {
        let mut taken: Option<Slot> = None;
        std::mem::swap(&mut taken, &mut self.slots[i]);
        match taken {
            Some(s) => {
                let mut s = s;
                s.tok = tok;
                s.pos = s.pos + 1;
                if s.pos >= self.cfg.ctx - 1 {
                    finish(s, "length")
                } else {
                    self.slots.set(i, Some(s));
                    Vec::new()
                }
            },
            None => Vec::new(),
        }
    }
}

fn copy_toks(toks: &[u32], n: usize) -> (r: Vec<u32>)
    requires
        n <= toks@.len(),
    ensures
        r@ == toks@.take(n as int),
{
    let mut r: Vec<u32> = Vec::new();
    let mut i: usize = 0;
    while i < n
        invariant
            i <= n <= toks@.len(),
            r@ == toks@.take(i as int),
        decreases n - i,
    {
        r.push(toks[i]);
        assert(toks@.take(i + 1) =~= toks@.take(i as int).push(toks@[i as int]));
        i += 1;
    }
    r
}

} // verus!
