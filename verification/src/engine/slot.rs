//! One request in flight.
use vstd::prelude::*;
use crate::lossy::{lossy, settled, REPLACEMENT};
use crate::text::{chars_of, text_of};
use crate::tokenizer::laws::law_settled_text_stays_decoded;
use crate::tokenizer::Tokenizer;

verus! {

/// What a client is told.
#[derive(Debug)]
pub enum Event {
    /// newly decoded text
    Text(String),
    Done { finish: &'static str, prompt_tokens: usize, completion_tokens: usize },
    /// a failure that the engine survives
    Error(String),
}

/// What an event says.
pub enum Said {
    Text(Seq<char>),
    Done { finish: Seq<char>, prompt_tokens: nat, completion_tokens: nat },
    Error(Seq<char>),
}

impl View for Event {
    type V = Said;

    open spec fn view(&self) -> Said {
        match *self {
            Event::Text(s) => Said::Text(s@),
            Event::Done { finish, prompt_tokens, completion_tokens } => Said::Done {
                finish: finish@,
                prompt_tokens: prompt_tokens as nat,
                completion_tokens: completion_tokens as nat,
            },
            Event::Error(s) => Said::Error(s@),
        }
    }
}

/// What several events say.
pub open spec fn all_said(events: Seq<Event>) -> Seq<Said> {
    events.map_values(|e: Event| e@)
}

/// The text of some events, put together.
pub open spec fn texts(said: Seq<Said>) -> Seq<char>
    decreases said.len(),
{
    if said.len() == 0 {
        Seq::empty()
    } else {
        texts(said.drop_last()) + match said.last() {
            Said::Text(s) => s,
            _ => Seq::empty(),
        }
    }
}

/// A request: the prompt, how much to generate, and what to stop at.
pub struct Job {
    pub toks: Vec<u32>,
    pub max_tokens: usize,
    pub stops: Vec<String>,
}

/// A request in flight.
pub struct Slot {
    pub job: Job,
    pub out_ids: Vec<u32>,
    pub text: String,
    /// characters of `text` already handed to the client
    pub sent: usize,
    pub pos: usize,
    pub tok: u32,
}

/// The text of generated ids.
pub open spec fn decoded(k: Tokenizer, ids: Seq<u32>) -> Seq<char> {
    lossy(k.ids_bytes(ids, true))
}

/// Whether stop string `s` stands at `i`.
pub open spec fn stop_stands(text: Seq<char>, s: Seq<char>, i: int) -> bool {
    0 <= i && i + s.len() <= text.len() && text.subrange(i, i + s.len()) == s
}

/// Whether some stop string stands at `i`.
pub open spec fn stops_at(text: Seq<char>, stops: Seq<String>, i: int) -> bool {
    exists|k: int| 0 <= k < stops.len() && stop_stands(text, #[trigger] stops[k]@, i)
}

/// Whether `i` is where the first stop string stands.
pub open spec fn first_stop(text: Seq<char>, stops: Seq<String>, i: int) -> bool {
    stops_at(text, stops, i) && forall|j: int| 0 <= j < i ==> !#[trigger] stops_at(text, stops, j)
}

impl Slot {
    /// Whether the text is that of the ids, and what was sent of it has settled.
    pub open spec fn wf(&self, k: Tokenizer) -> bool {
        &&& self.text@ == decoded(k, self.out_ids@)
        &&& self.sent <= settled(self.text@).len()
        &&& self.out_ids@.len() <= self.job.max_tokens
    }

    /// Whether nothing has been generated yet: the prompt has been prefilled.
    pub open spec fn is_new(&self, job: Job) -> bool {
        &&& self.job == job
        &&& self.out_ids@.len() == 0
        &&& self.text@.len() == 0
        &&& self.sent == 0
        &&& self.pos == job.toks@.len()
    }

    /// Whether this is `s` one position on, with the next token.
    pub open spec fn moved(&self, s: Slot, tok: u32) -> bool {
        &&& self.tok == tok
        &&& self.pos == s.pos + 1
        &&& self.job == s.job
        &&& self.out_ids == s.out_ids
        &&& self.text == s.text
        &&& self.sent == s.sent
    }

    /// What the client has been told so far.
    pub open spec fn heard(&self) -> Seq<char> {
        self.text@.take(self.sent as int)
    }
}

/// What a client is told at the end: the text that was held back, and a summary.
pub open spec fn farewell(
    text: Seq<char>,
    sent: nat,
    finish: Seq<char>,
    prompt_tokens: nat,
    completion_tokens: nat,
) -> Seq<Said> {
    let done = seq![Said::Done { finish, prompt_tokens, completion_tokens }];
    if text.len() > sent {
        seq![Said::Text(text.skip(sent as int))] + done
    } else {
        done
    }
}

// ---------------------------------------------------------------- settled text
/// The settled part is the beginning of the text.
pub proof fn lemma_settled_is_prefix(t: Seq<char>)
    ensures
        settled(t).len() <= t.len(),
        settled(t) == t.take(settled(t).len() as int),
        settled(t).len() > 0 ==> settled(t).last() != REPLACEMENT,
        forall|i: int| settled(t).len() <= i < t.len() ==> #[trigger] t[i] == REPLACEMENT,
    decreases t.len(),
{
    if t.len() == 0 || t.last() != REPLACEMENT {
        assert(t.take(t.len() as int) =~= t);
    } else {
        let u = t.drop_last();
        lemma_settled_is_prefix(u);
        let n = settled(u).len() as int;
        assert(u.take(n) =~= t.take(n));
        assert forall|i: int| n <= i < t.len() implies #[trigger] t[i] == REPLACEMENT by {
            if i < u.len() {
                assert(u[i] == REPLACEMENT);
            }
        }
    }
}

/// What has settled of a text has settled of every text that begins with it.
pub proof fn lemma_settled_grows(t: Seq<char>, u: Seq<char>)
    requires
        settled(t).is_prefix_of(u),
    ensures
        settled(t).len() <= settled(u).len(),
        forall|n: int| 0 <= n <= settled(t).len() ==> #[trigger] t.take(n) == u.take(n),
{
    lemma_settled_is_prefix(t);
    lemma_settled_is_prefix(u);
    let n = settled(t).len() as int;
    let s = settled(t);
    assert(s =~= u.subrange(0, n));
    if n > 0 && settled(u).len() < n {
        assert(u[n - 1] == REPLACEMENT);
        assert(s[n - 1] == u[n - 1]);
    }
    assert forall|m: int| 0 <= m <= n implies #[trigger] t.take(m) == u.take(m) by {
        assert forall|i: int| 0 <= i < m implies t.take(m)[i] == u.take(m)[i] by {
            assert(s[i] == t[i]);
            assert(s[i] == u[i]);
        }
        assert(t.take(m) =~= u.take(m));
    }
}

/// Length of the beginning of a text that does not change as more tokens arrive,
/// in characters.
///
/// A character that still misses its tail shows up as a trailing U+FFFD that a
/// later token replaces. Streaming it would send what the client can never take
/// back, so the trailing run is held back; it is at most a few characters and a
/// few tokens.
pub fn stable_len(cs: &Vec<char>) -> (n: usize)
    ensures
        n == settled(cs@).len(),
        n <= cs@.len(),
{
    let mut n: usize = cs.len();
    proof {
        assert(cs@.take(n as int) =~= cs@);
    }
    while n > 0 && cs[n - 1] == REPLACEMENT
        invariant
            n <= cs@.len(),
            settled(cs@.take(n as int)) == settled(cs@),
        decreases n,
    {
        proof {
            assert(cs@.take(n as int).drop_last() =~= cs@.take(n - 1));
        }
        n -= 1;
    }
    n
}

// ---------------------------------------------------------------- stop strings
fn stop_here(cs: &Vec<char>, s: &Vec<char>, i: usize) -> (r: bool)
    requires
        i <= cs@.len(),
    ensures
        r == stop_stands(cs@, s@, i as int),
{
    let room: usize = cs.len() - i;
    if s.len() > room {
        return false;
    }
    let mut k: usize = 0;
    while k < s.len()
        invariant
            k <= s@.len(),
            s@.len() <= room,
            i + room == cs.len(),
            forall|j: int| 0 <= j < k ==> cs@[i + j] == s@[j],
        decreases s@.len() - k,
    {
        if cs[i + k] != s[k] {
            proof {
                let sub = cs@.subrange(i as int, i + s@.len());
                assert(sub[k as int] == cs@[i + k]);
            }
            return false;
        }
        k += 1;
    }
    assert(cs@.subrange(i as int, i + s@.len()) =~= s@);
    true
}

/// Where the first stop string stands.
fn find_stop(cs: &Vec<char>, stops: &Vec<String>) -> (r: Option<usize>)
    ensures
        match r {
            Some(i) => i <= cs@.len() && first_stop(cs@, stops@, i as int),
            None => forall|i: int| !#[trigger] stops_at(cs@, stops@, i),
        },
{
    let mut lists: Vec<Vec<char>> = Vec::new();
    let mut k: usize = 0;
    while k < stops.len()
        invariant
            k <= stops@.len(),
            lists@.len() == k,
            forall|j: int| 0 <= j < k ==> (#[trigger] lists@[j])@ == stops@[j]@,
        decreases stops@.len() - k,
    {
        let s = chars_of(stops[k].as_str());
        lists.push(s);
        k += 1;
    }
    let mut i: usize = 0;
    loop
        invariant
            i <= cs@.len(),
            lists@.len() == stops@.len(),
            forall|j: int| 0 <= j < lists@.len() ==> (#[trigger] lists@[j])@ == stops@[j]@,
            forall|j: int| 0 <= j < i ==> !#[trigger] stops_at(cs@, stops@, j),
        ensures
            forall|j: int| 0 <= j <= cs@.len() ==> !#[trigger] stops_at(cs@, stops@, j),
        decreases cs@.len() - i,
    {
        let mut k: usize = 0;
        while k < lists.len()
            invariant
                i <= cs@.len(),
                k <= lists@.len(),
                lists@.len() == stops@.len(),
                forall|j: int| 0 <= j < lists@.len() ==> (#[trigger] lists@[j])@ == stops@[j]@,
                forall|j: int| 0 <= j < i ==> !#[trigger] stops_at(cs@, stops@, j),
                forall|j: int|
                    0 <= j < k ==> !stop_stands(cs@, #[trigger] stops@[j]@, i as int),
            decreases lists@.len() - k,
        {
            assert(lists@[k as int]@ == stops@[k as int]@);
            if stop_here(cs, &lists[k], i) {
                proof {
                    assert(stop_stands(cs@, stops@[k as int]@, i as int));
                    assert(stops_at(cs@, stops@, i as int));
                }
                return Some(i);
            }
            k += 1;
        }
        assert(!stops_at(cs@, stops@, i as int));
        if i == cs.len() {
            break;
        }
        i += 1;
    }
    proof {
        assert forall|j: int| !#[trigger] stops_at(cs@, stops@, j) by {
            if stops_at(cs@, stops@, j) {
                let k = choose|k: int|
                    0 <= k < stops@.len() && stop_stands(cs@, #[trigger] stops@[k]@, j);
                assert(0 <= j <= cs@.len());
            }
        }
    }
    None
}

// ---------------------------------------------------------------- finishing
/// What an emission does to a slot: the slot that is left, if it goes on, and what
/// the client is told.
pub open spec fn emission(k: Tokenizer, s: Slot, left: Option<Slot>, said: Seq<Said>) -> bool {
    let prompt = s.job.toks@.len();
    if k.eos_ids().contains(s.tok) {
        left is None && said == farewell(s.text@, s.sent as nat, "stop"@, prompt, s.out_ids@.len())
    } else if s.out_ids@.len() >= s.job.max_tokens {
        left is None && said == farewell(
            s.text@,
            s.sent as nat,
            "length"@,
            prompt,
            s.out_ids@.len(),
        )
    } else {
        let ids = s.out_ids@.push(s.tok);
        let text = decoded(k, ids);
        if exists|i: int| first_stop(text, s.job.stops@, i) {
            let cut = choose|i: int| first_stop(text, s.job.stops@, i);
            left is None && said == farewell(
                text.take(cut),
                s.sent as nat,
                "stop"@,
                prompt,
                ids.len(),
            )
        } else {
            &&& left matches Some(t)
            &&& t.job == s.job
            &&& t.out_ids@ == ids
            &&& t.text@ == text
            &&& t.pos == s.pos
            &&& t.tok == s.tok
            &&& t.sent == settled(text).len()
            &&& said == if settled(text).len() > s.sent {
                seq![Said::Text(text.subrange(s.sent as int, settled(text).len() as int))]
            } else {
                Seq::empty()
            }
        }
    }
}

/// What a client is told whose request has used up the context.
pub open spec fn out_of_room(s: Slot) -> Seq<Said> {
    farewell(s.text@, s.sent as nat, "length"@, s.job.toks@.len(), s.out_ids@.len())
}

/// A request that goes on stays in order, and its client has heard what it was
/// told.
pub proof fn lemma_emission_grows(k: Tokenizer, s: Slot, t: Slot, said: Seq<Said>)
    requires
        s.wf(k),
        emission(k, s, Some(t), said),
    ensures
        t.wf(k),
        t.heard() == s.heard() + texts(said),
{
    let text = t.text@;
    let from = s.sent as int;
    let stable = t.sent as int;
    assert(s.out_ids@ + seq![s.tok] =~= t.out_ids@);
    law_settled_text_stays_decoded(k, s.out_ids@, seq![s.tok], true);
    lemma_settled_is_prefix(s.text@);
    lemma_settled_is_prefix(text);
    lemma_settled_grows(s.text@, text);
    assert(s.text@.take(from) == text.take(from));
    if stable > from {
        assert(said.drop_last() =~= Seq::empty());
        assert(texts(said.drop_last()) =~= Seq::empty());
        assert(texts(said) =~= text.subrange(from, stable));
    } else {
        assert(texts(said) =~= Seq::empty());
    }
    assert(t.heard() =~= s.heard() + texts(said));
}

/// Tells a client the rest of its text and that it is done.
pub fn finish(s: Slot, how: &'static str) -> (events: Vec<Event>)
    ensures
        all_said(events@) == farewell(
            s.text@,
            s.sent as nat,
            how@,
            s.job.toks@.len(),
            s.out_ids@.len(),
        ),
{
    let mut events: Vec<Event> = Vec::new();
    let cs = chars_of(s.text.as_str());
    if cs.len() > s.sent {
        let rest = text_of(vstd::slice::slice_subrange(cs.as_slice(), s.sent, cs.len()));
        assert(rest@ =~= s.text@.skip(s.sent as int));
        events.push(Event::Text(rest));
    }
    events.push(
        Event::Done {
            finish: how,
            prompt_tokens: s.job.toks.len(),
            completion_tokens: s.out_ids.len(),
        },
    );
    assert(all_said(events@) =~= farewell(
        s.text@,
        s.sent as nat,
        how@,
        s.job.toks@.len(),
        s.out_ids@.len(),
    ));
    events
}

/// Takes the token that a slot holds: ends the request on it, or adds it to the
/// text and tells the client what has settled.
///
/// The whole run is decoded each time: one character can span several byte
/// tokens, and decoding them one by one would emit replacement characters.
pub fn emit(s: Slot, k: &Tokenizer) -> (r: (Option<Slot>, Vec<Event>))
    requires
        k.wf(),
        s.wf(*k),
    ensures
        emission(*k, s, r.0, all_said(r.1@)),
        r.0 matches Some(t) ==> t.wf(*k) && t.heard() == s.heard() + texts(all_said(r.1@)),
{
    if k.is_eos(s.tok) {
        return (None, finish(s, "stop"));
    }
    if s.out_ids.len() >= s.job.max_tokens {
        return (None, finish(s, "length"));
    }
    let ghost s0 = s;
    let mut s = s;
    s.out_ids.push(s.tok);
    s.text = k.decode(s.out_ids.as_slice(), true);
    let cs = chars_of(s.text.as_str());
    match find_stop(&cs, &s.job.stops) {
        Some(cut) => {
            proof {
                let c = choose|i: int| first_stop(s.text@, s.job.stops@, i);
                assert(first_stop(s.text@, s.job.stops@, cut as int));
                if c < cut {
                    assert(stops_at(s.text@, s.job.stops@, c));
                    lemma_stop_not_negative(s.text@, s.job.stops@, c);
                } else if cut < c {
                    assert(stops_at(s.text@, s.job.stops@, cut as int));
                }
            }
            let ghost full = s.text@;
            s.text = text_of(vstd::slice::slice_subrange(cs.as_slice(), 0, cut));
            assert(s.text@ =~= full.take(cut as int));
            (None, finish(s, "stop"))
        },
        None => {
            let stable: usize = stable_len(&cs);
            let mut events: Vec<Event> = Vec::new();
            if stable > s.sent {
                let delta = text_of(vstd::slice::slice_subrange(cs.as_slice(), s.sent, stable));
                events.push(Event::Text(delta));
            }
            let ghost from = s.sent;
            s.sent = stable;
            proof {
                let said = all_said(events@);
                let text = s.text@;
                assert forall|i: int| !first_stop(text, s.job.stops@, i) by {
                    assert(!stops_at(text, s.job.stops@, i));
                }
                assert(said =~= if stable > from {
                    seq![Said::Text(text.subrange(from as int, stable as int))]
                } else {
                    Seq::empty()
                });
                lemma_emission_grows(*k, s0, s, said);
            }
            (Some(s), events)
        },
    }
}

proof fn lemma_stop_not_negative(text: Seq<char>, stops: Seq<String>, i: int)
    requires
        stops_at(text, stops, i),
    ensures
        0 <= i <= text.len(),
{
    let k = choose|k: int| 0 <= k < stops.len() && stop_stands(text, #[trigger] stops[k]@, i);
}

} // verus!
