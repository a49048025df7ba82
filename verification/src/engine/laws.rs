//! What the engine promises as a whole.
use vstd::prelude::*;
use crate::engine::scheduler::{ready, Engine, Plan};
use crate::engine::slot::{
    decoded, emission, farewell, first_stop, lemma_emission_grows, lemma_settled_grows,
    lemma_settled_is_prefix, out_of_room, stop_stands, stops_at, texts, Said, Slot,
};
use crate::lossy::lossy;
use crate::tokenizer::laws::{faithful, law_settled_text_stays_decoded};
use crate::tokenizer::reading::{law_control_tokens_are_left_out, ordinary_ids};
use crate::tokenizer::Tokenizer;

verus! {

/// What a client hears, put together, is the text: the pieces it was sent and
/// the farewell leave nothing out and repeat nothing.
pub proof fn law_client_hears_the_text(
    text: Seq<char>,
    sent: nat,
    finish: Seq<char>,
    prompt_tokens: nat,
    completion_tokens: nat,
)
    requires
        sent <= text.len(),
    ensures
        text.take(sent as int) + texts(
            farewell(text, sent, finish, prompt_tokens, completion_tokens),
        ) == text,
{
    let f = farewell(text, sent, finish, prompt_tokens, completion_tokens);
    let head = f.drop_last();
    if text.len() > sent {
        assert(head =~= seq![Said::Text(text.skip(sent as int))]);
        assert(head.drop_last() =~= Seq::empty());
        assert(texts(head.drop_last()) =~= Seq::empty());
        assert(texts(head) =~= text.skip(sent as int));
    } else {
        assert(head =~= Seq::empty());
        assert(texts(head) =~= Seq::empty());
    }
    assert(texts(f) =~= texts(head));
    assert(text.take(sent as int) + texts(f) =~= text);
}

/// A client that was cut off behind what it had heard hears nothing more.
pub proof fn law_nothing_is_taken_back(
    text: Seq<char>,
    sent: nat,
    finish: Seq<char>,
    prompt_tokens: nat,
    completion_tokens: nat,
)
    requires
        text.len() <= sent,
    ensures
        texts(farewell(text, sent, finish, prompt_tokens, completion_tokens)).len() == 0,
{
    let f = farewell(text, sent, finish, prompt_tokens, completion_tokens);
    assert(f.drop_last() =~= Seq::empty());
    assert(texts(f.drop_last()) =~= Seq::empty());
}

/// What a client has heard of a request that goes on holds no stop string.
pub proof fn law_heard_text_holds_no_stop(k: Tokenizer, s: Slot, t: Slot, said: Seq<Said>, i: int)
    requires
        emission(k, s, Some(t), said),
        t.sent <= t.text@.len(),
    ensures
        !stops_at(t.heard(), t.job.stops@, i),
{
    let text = t.text@;
    let stops = t.job.stops@;
    if stops_at(t.heard(), stops, i) {
        let n = choose|n: int| 0 <= n < stops.len() && stop_stands(t.heard(), #[trigger] stops[n]@, i);
        let p = stops[n]@;
        assert(text.subrange(i, i + p.len()) =~= t.heard().subrange(i, i + p.len()));
        assert(stop_stands(text, stops[n]@, i));
        assert(stops_at(text, stops, i));
        lemma_some_first(text, stops, i);
        assert(false);
    }
}

/// Where some stop string stands, one stands first.
proof fn lemma_some_first(text: Seq<char>, stops: Seq<String>, i: int) -> (f: int)
    requires
        stops_at(text, stops, i),
    ensures
        first_stop(text, stops, f),
    decreases i,
{
    let n = choose|n: int| 0 <= n < stops.len() && stop_stands(text, #[trigger] stops[n]@, i);
    assert(0 <= i);
    if forall|j: int| 0 <= j < i ==> !#[trigger] stops_at(text, stops, j) {
        i
    } else {
        let j = choose|j: int| 0 <= j < i && #[trigger] stops_at(text, stops, j);
        lemma_some_first(text, stops, j)
    }
}

// ---------------------------------------------------------------- a whole request
/// Whether a request goes on from `s` to `t`, its client being told `said`: it
/// takes the token it holds, or is given the next one.
pub open spec fn goes_on(k: Tokenizer, s: Slot, t: Slot, said: Seq<Said>) -> bool {
    emission(k, s, Some(t), said) || (t.moved(s, t.tok) && said.len() == 0)
}

/// Whether a request ends at `s`, its client being told `said`: on the token it
/// holds, or because the context is used up.
pub open spec fn ends(k: Tokenizer, s: Slot, said: Seq<Said>) -> bool {
    emission(k, s, None, said) || said == out_of_room(s)
}

/// Whether a request went through the slots `states` from its first to its end,
/// its client being told `told[i]` at `states[i]`.
pub open spec fn is_request(k: Tokenizer, states: Seq<Slot>, told: Seq<Seq<Said>>) -> bool {
    &&& states.len() > 0
    &&& told.len() == states.len()
    &&& states[0].is_new(states[0].job)
    &&& forall|i: int|
        0 <= i < states.len() - 1 ==> goes_on(k, #[trigger] states[i], states[i + 1], told[i])
    &&& ends(k, states.last(), told.last())
}

/// All that was said, in order.
pub open spec fn in_all(told: Seq<Seq<Said>>) -> Seq<Said>
    decreases told.len(),
{
    if told.len() == 0 {
        Seq::empty()
    } else {
        in_all(told.drop_last()) + told.last()
    }
}

/// Whether a text holds no stop string. (An empty one stands everywhere.)
pub open spec fn free_of(text: Seq<char>, stops: Seq<String>) -> bool {
    forall|n: int, i: int|
        0 <= n < stops.len() && stops[n]@.len() > 0 ==> !#[trigger] stop_stands(
            text,
            stops[n]@,
            i,
        )
}

/// Whether everything that was said is text.
pub open spec fn text_alone(said: Seq<Said>) -> bool {
    forall|i: int| 0 <= i < said.len() ==> #[trigger] said[i] is Text
}

proof fn lemma_texts_concat(a: Seq<Said>, b: Seq<Said>)
    ensures
        texts(a + b) == texts(a) + texts(b),
    decreases b.len(),
{
    if b.len() == 0 {
        assert(a + b =~= a);
        assert(texts(a) + texts(b) =~= texts(a));
    } else {
        assert((a + b).drop_last() =~= a + b.drop_last());
        lemma_texts_concat(a, b.drop_last());
        assert(texts(a + b) =~= texts(a) + texts(b));
    }
}

/// The beginning of a text that holds no stop string holds none.
proof fn lemma_free_part(text: Seq<char>, stops: Seq<String>, n: int)
    requires
        0 <= n <= text.len(),
        forall|j: int| 0 <= j < n ==> !#[trigger] stops_at(text, stops, j),
    ensures
        free_of(text.take(n), stops),
{
    let t = text.take(n);
    assert forall|x: int, i: int| 0 <= x < stops.len() && stops[x]@.len() > 0 implies !#[trigger] stop_stands(
        t,
        stops[x]@,
        i,
    ) by {
        if stop_stands(t, stops[x]@, i) {
            let p = stops[x]@;
            assert(text.subrange(i, i + p.len()) =~= t.subrange(i, i + p.len()));
            assert(stop_stands(text, stops[x]@, i));
            assert(stops_at(text, stops, i));
        }
    }
}

proof fn lemma_free_prefix(text: Seq<char>, stops: Seq<String>, n: int)
    requires
        0 <= n <= text.len(),
        free_of(text, stops),
    ensures
        free_of(text.take(n), stops),
{
    let t = text.take(n);
    assert forall|x: int, i: int| 0 <= x < stops.len() && stops[x]@.len() > 0 implies !#[trigger] stop_stands(
        t,
        stops[x]@,
        i,
    ) by {
        if stop_stands(t, stops[x]@, i) {
            let p = stops[x]@;
            assert(text.subrange(i, i + p.len()) =~= t.subrange(i, i + p.len()));
            assert(stop_stands(text, stops[x]@, i));
        }
    }
}

/// What holds of a request that goes on.
proof fn lemma_going_on(k: Tokenizer, states: Seq<Slot>, told: Seq<Seq<Said>>, n: int)
    requires
        is_request(k, states, told),
        0 <= n < states.len(),
    ensures
        states[n].wf(k),
        states[n].job == states[0].job,
        free_of(states[n].text@, states[0].job.stops@),
        states[n].heard() == texts(in_all(told.take(n))),
        text_alone(in_all(told.take(n))),
    decreases n,
{
    let stops = states[0].job.stops@;
    if n == 0 {
        let s = states[0];
        assert(told.take(0).len() == 0);
        assert(s.out_ids@ =~= Seq::empty());
        assert(decoded(k, s.out_ids@) =~= s.text@);
        assert(s.heard() =~= Seq::empty());
        assert(texts(in_all(told.take(0))) =~= Seq::empty());
    } else {
        let s = states[n - 1];
        let t = states[n];
        let said = told[n - 1];
        lemma_going_on(k, states, told, n - 1);
        assert(goes_on(k, states[n - 1], states[n - 1 + 1], told[n - 1]));
        assert(told.take(n).drop_last() =~= told.take(n - 1));
        let before = in_all(told.take(n - 1));
        lemma_texts_concat(before, said);
        if emission(k, s, Some(t), said) {
            lemma_emission_grows(k, s, t, said);
            assert forall|i: int| !#[trigger] stops_at(t.text@, stops, i) by {
                if stops_at(t.text@, stops, i) {
                    let f = lemma_some_first(t.text@, stops, i);
                    assert(false);
                }
            }
            lemma_free_part(t.text@, stops, t.text@.len() as int);
            assert(t.text@.take(t.text@.len() as int) =~= t.text@);
        } else {
            assert(before + said =~= before);
        }
    }
}

/// A whole request: its client hears no stop string, whatever ended it, and is
/// told that it is done exactly once, at the end.
pub proof fn law_a_request_ends_once(k: Tokenizer, states: Seq<Slot>, told: Seq<Seq<Said>>)
    requires
        is_request(k, states, told),
    ensures
        free_of(texts(in_all(told)), states[0].job.stops@),
        in_all(told).len() > 0,
        in_all(told).last() is Done,
        text_alone(in_all(told).drop_last()),
{
    let n = states.len() - 1;
    let s = states.last();
    let said = told.last();
    let stops = s.job.stops@;
    let before = in_all(told.take(n));
    assert(states[n] == s);
    lemma_going_on(k, states, told, n);
    assert(told.drop_last() =~= told.take(n));
    lemma_texts_concat(before, said);
    lemma_settled_is_prefix(s.text@);
    let prompt = s.job.toks@.len();
    let ids = s.out_ids@.push(s.tok);
    let text = decoded(k, ids);
    if exists|how: Seq<char>| said == farewell(
        s.text@,
        s.sent as nat,
        how,
        prompt,
        s.out_ids@.len(),
    ) {
        let how = choose|how: Seq<char>|
            said == farewell(s.text@, s.sent as nat, how, prompt, s.out_ids@.len());
        law_client_hears_the_text(s.text@, s.sent as nat, how, prompt, s.out_ids@.len());
    } else {
        assert(emission(k, s, None, said));
        let cut = choose|i: int| first_stop(text, stops, i);
        assert(stops_at(text, stops, cut));
        let x = choose|x: int| 0 <= x < stops.len() && stop_stands(text, #[trigger] stops[x]@, cut);
        let kept = text.take(cut);
        assert(s.out_ids@ + seq![s.tok] =~= ids);
        law_settled_text_stays_decoded(k, s.out_ids@, seq![s.tok], true);
        lemma_settled_grows(s.text@, text);
        assert(s.heard() == text.take(s.sent as int));
        if cut >= s.sent {
            law_client_hears_the_text(kept, s.sent as nat, "stop"@, prompt, ids.len());
            assert(kept.take(s.sent as int) =~= s.heard());
            lemma_free_part(text, stops, cut);
        } else {
            law_nothing_is_taken_back(kept, s.sent as nat, "stop"@, prompt, ids.len());
            assert(s.heard() + texts(said) =~= s.heard());
            lemma_free_prefix(s.text@, stops, s.sent as int);
        }
    }
    let all = in_all(told);
    assert(all == before + said);
    assert(all.last() == said.last());
    assert(all.drop_last() =~= before + said.drop_last());
}

// ---------------------------------------------------------------- one token
/// What a client is told at the end of a request: how many tokens its prompt had, and
/// how many were generated, never more than it asked for. `length` means that it
/// had all that it asked for, and `stop` that the token ends a sequence or that a
/// stop string stands in the text.
pub proof fn law_a_finish_says_why(k: Tokenizer, s: Slot, said: Seq<Said>)
    requires
        s.wf(k),
        emission(k, s, None, said),
    ensures
        said.len() > 0,
        said.last() matches Said::Done { finish, prompt_tokens, completion_tokens } && {
            &&& prompt_tokens == s.job.toks@.len()
            &&& completion_tokens <= s.job.max_tokens
            &&& finish == "stop"@ || finish == "length"@
            &&& finish == "length"@ ==> {
                &&& !k.eos@.contains(s.tok)
                &&& completion_tokens == s.job.max_tokens
                &&& completion_tokens == s.out_ids@.len()
            }
            &&& finish == "stop"@ ==> (k.eos@.contains(s.tok) && completion_tokens
                == s.out_ids@.len()) || (completion_tokens == s.out_ids@.len() + 1 && exists|i: int|
                stops_at(decoded(k, s.out_ids@.push(s.tok)), s.job.stops@, i))
        },
{
    reveal_strlit("stop");
    reveal_strlit("length");
    assert("stop"@.len() != "length"@.len());
    let text = decoded(k, s.out_ids@.push(s.tok));
    if !k.eos_ids().contains(s.tok) && s.out_ids@.len() < s.job.max_tokens {
        let cut = choose|i: int| first_stop(text, s.job.stops@, i);
        assert(stops_at(text, s.job.stops@, cut));
    }
}

/// A request goes on exactly as long as it should: its token does not end a sequence,
/// it has not had all that it asked for, and no stop string stands in the text that
/// the token makes. It then has one token more, that one.
pub proof fn law_a_request_goes_on_while_it_should(
    k: Tokenizer,
    s: Slot,
    left: Option<Slot>,
    said: Seq<Said>,
)
    requires
        s.wf(k),
        emission(k, s, left, said),
    ensures
        left is Some <==> {
            &&& !k.eos@.contains(s.tok)
            &&& s.out_ids@.len() < s.job.max_tokens
            &&& forall|i: int| !#[trigger] stops_at(
                decoded(k, s.out_ids@.push(s.tok)),
                s.job.stops@,
                i,
            )
        },
        left matches Some(t) ==> t.job == s.job && t.out_ids@ == s.out_ids@ + seq![s.tok],
{
    let text = decoded(k, s.out_ids@.push(s.tok));
    if exists|i: int| stops_at(text, s.job.stops@, i) {
        let i = choose|i: int| stops_at(text, s.job.stops@, i);
        let f = lemma_some_first(text, s.job.stops@, i);
        assert(first_stop(text, s.job.stops@, f));
    } else {
        assert forall|i: int| !first_stop(text, s.job.stops@, i) by {
            assert(!stops_at(text, s.job.stops@, i));
        }
    }
    if let Some(t) = left {
        assert(s.out_ids@.push(s.tok) =~= s.out_ids@ + seq![s.tok]);
        assert forall|i: int| !#[trigger] stops_at(text, s.job.stops@, i) by {
            if stops_at(text, s.job.stops@, i) {
                let f = lemma_some_first(text, s.job.stops@, i);
                assert(first_stop(text, s.job.stops@, f));
            }
        }
    }
}

/// A stop string is found wherever it stands in a text, whatever stands around it, and
/// nowhere else.
pub proof fn law_stop_strings_are_found_anywhere(
    a: Seq<char>,
    b: Seq<char>,
    stops: Seq<String>,
    n: int,
    text: Seq<char>,
    i: int,
)
    requires
        0 <= n < stops.len(),
    ensures
        stops_at(a + stops[n]@ + b, stops, a.len() as int),
        stop_stands(text, stops[n]@, i) ==> exists|x: Seq<char>, y: Seq<char>|
            text == #[trigger] (x + stops[n]@ + y) && x.len() == i,
        (forall|x: Seq<char>, y: Seq<char>, m: int|
            0 <= m < stops.len() ==> text != #[trigger] (x + stops[m]@ + y)) ==> !stops_at(
            text,
            stops,
            i,
        ),
{
    let s = stops[n]@;
    let t = a + s + b;
    assert(t.subrange(a.len() as int, a.len() as int + s.len()) =~= s);
    assert(stop_stands(t, stops[n]@, a.len() as int));
    if stop_stands(text, s, i) {
        lemma_stands_between(text, s, i);
    }
    if stops_at(text, stops, i) {
        let m = choose|m: int| 0 <= m < stops.len() && stop_stands(text, #[trigger] stops[m]@, i);
        lemma_stands_between(text, stops[m]@, i);
    }
}

proof fn lemma_stands_between(text: Seq<char>, s: Seq<char>, i: int)
    requires
        stop_stands(text, s, i),
    ensures
        text == text.take(i) + s + text.skip(i + s.len()),
        text.take(i).len() == i,
{
    assert(text =~= text.take(i) + text.subrange(i, i + s.len()) + text.skip(i + s.len()));
}

/// Nothing is held back but what may still change: of a request that goes on its
/// client has heard the text up to the replacement characters at its end.
pub proof fn law_only_unfinished_characters_are_held_back(
    k: Tokenizer,
    s: Slot,
    t: Slot,
    said: Seq<Said>,
    i: int,
)
    requires
        s.wf(k),
        emission(k, s, Some(t), said),
    ensures
        t.heard() == s.heard() + texts(said),
        t.heard().is_prefix_of(decoded(k, t.out_ids@)),
        t.heard().len() <= i < decoded(k, t.out_ids@).len() ==> decoded(k, t.out_ids@)[i]
            == '\u{FFFD}',
        t.heard().len() > 0 ==> t.heard().last() != '\u{FFFD}',
{
    lemma_emission_grows(k, s, t, said);
    lemma_settled_is_prefix(t.text@);
    assert(t.heard() =~= t.text@.subrange(0, t.sent as int));
}

/// No control token is ever heard: the text of generated ids is that of the ids among
/// them that belong to no control string.
pub proof fn law_clients_hear_no_control_tokens(k: Tokenizer, ids: Seq<u32>)
    requires
        faithful(k),
    ensures
        decoded(k, ids) == lossy(k.ids_bytes(ordinary_ids(k, ids), false)),
{
    law_control_tokens_are_left_out(k, ids);
}

/// A whole request: what its client hears in all is the beginning of the text of what
/// was generated, and all of it unless a stop string cut it off.
pub proof fn law_clients_hear_what_was_generated(
    k: Tokenizer,
    states: Seq<Slot>,
    told: Seq<Seq<Said>>,
)
    requires
        is_request(k, states, told),
    ensures
        ({
            let s = states.last();
            let ids = s.out_ids@;
            let heard = texts(in_all(told));
            let full = decoded(k, ids + seq![s.tok]);
            ||| heard == decoded(k, ids)
            ||| heard.is_prefix_of(full) && exists|i: int| stops_at(full, s.job.stops@, i)
        }),
{
    let n = states.len() - 1;
    let s = states.last();
    let said = told.last();
    let stops = s.job.stops@;
    let before = in_all(told.take(n));
    assert(states[n] == s);
    lemma_going_on(k, states, told, n);
    assert(told.drop_last() =~= told.take(n));
    lemma_texts_concat(before, said);
    lemma_settled_is_prefix(s.text@);
    let prompt = s.job.toks@.len();
    let ids = s.out_ids@.push(s.tok);
    let text = decoded(k, ids);
    assert(s.out_ids@ + seq![s.tok] =~= ids);
    if exists|how: Seq<char>| said == farewell(
        s.text@,
        s.sent as nat,
        how,
        prompt,
        s.out_ids@.len(),
    ) {
        let how = choose|how: Seq<char>|
            said == farewell(s.text@, s.sent as nat, how, prompt, s.out_ids@.len());
        law_client_hears_the_text(s.text@, s.sent as nat, how, prompt, s.out_ids@.len());
    } else {
        assert(emission(k, s, None, said));
        let cut = choose|i: int| first_stop(text, stops, i);
        assert(stops_at(text, stops, cut));
        let x = choose|x: int| 0 <= x < stops.len() && stop_stands(text, #[trigger] stops[x]@, cut);
        let kept = text.take(cut);
        law_settled_text_stays_decoded(k, s.out_ids@, seq![s.tok], true);
        lemma_settled_grows(s.text@, text);
        assert(s.heard() == text.take(s.sent as int));
        if cut >= s.sent {
            law_client_hears_the_text(kept, s.sent as nat, "stop"@, prompt, ids.len());
            assert(kept.take(s.sent as int) =~= s.heard());
            assert(texts(in_all(told)) =~= text.subrange(0, cut));
        } else {
            law_nothing_is_taken_back(kept, s.sent as nat, "stop"@, prompt, ids.len());
            assert(s.heard() + texts(said) =~= s.heard());
            assert(texts(in_all(told)) =~= text.subrange(0, s.sent as int));
        }
    }
}

// ---------------------------------------------------------------- rows
/// Every request in flight has one row of a forward pass, and no other slot has one;
/// the rows stand in the order of their slots.
pub proof fn law_every_request_has_one_row(e: Engine, n: int, i: int, x: int, y: int)
    requires
        0 <= n <= e.slots@.len(),
        e.slots@.len() <= usize::MAX,
    ensures
        0 <= i < n ==> (e.slots@[i] is Some <==> e.active_below(n).contains(i as usize)),
        0 <= x < e.active_below(n).len() ==> e.active_below(n)[x] < n,
        0 <= x < y < e.active_below(n).len() ==> e.active_below(n)[x] < e.active_below(n)[y],
    decreases n,
{
    if n > 0 {
        law_every_request_has_one_row(e, n - 1, i, x, y);
        let rest = e.active_below(n - 1);
        let all = e.active_below(n);
        law_every_request_has_one_row(e, n - 1, i, x, x);
        if e.slots@[n - 1] is Some {
            assert(all == rest.push((n - 1) as usize));
            assert(all[all.len() - 1] == n - 1);
            if 0 <= i < n - 1 {
                if rest.contains(i as usize) {
                    let z = choose|z: int| 0 <= z < rest.len() && rest[z] == i as usize;
                    assert(all[z] == i as usize);
                }
                if all.contains(i as usize) {
                    let z = choose|z: int| 0 <= z < all.len() && all[z] == i as usize;
                    assert(rest[z] == i as usize);
                }
            }
        } else if i == n - 1 && rest.contains(i as usize) {
            let z = choose|z: int| 0 <= z < rest.len() && rest[z] == i as usize;
            law_every_request_has_one_row(e, n - 1, i, z, z);
        }
    }
}

/// A request is given its next token as long as its new position is not the last one of
/// the context; there it ends, told that it ran out of length, with all that was
/// generated.
pub proof fn law_the_context_ends_a_request(
    f: Engine,
    e: Engine,
    i: int,
    tok: u32,
    said: Seq<Said>,
)
    requires
        e.slots@[i] is Some,
        f.committed(e, i, tok, said),
    ensures
        f.slots@[i] is Some <==> e.slots@[i].unwrap().pos + 2 < e.cfg.ctx,
        f.slots@[i] matches Some(t) ==> t.tok == tok && t.pos == e.slots@[i].unwrap().pos + 1
            && t.out_ids == e.slots@[i].unwrap().out_ids && said.len() == 0,
        f.slots@[i] is None ==> said.last() == (Said::Done {
            finish: "length"@,
            prompt_tokens: e.slots@[i].unwrap().job.toks@.len(),
            completion_tokens: e.slots@[i].unwrap().out_ids@.len(),
        }),
{
}

// ---------------------------------------------------------------- settings
/// An engine whose shortest shared beginning is zero shares nothing.
pub proof fn law_zero_turns_sharing_off(e: Engine, toks: Seq<u32>, p: Plan)
    requires
        e.cfg.prefix_min == 0,
        e.plans(toks, p),
    ensures
        p.share is None,
        e.prefix is None ==> p.reuse == 0,
{
}

/// Every position that is computed lies within the context.
pub proof fn law_positions_lie_in_the_context(e: Engine, k: Tokenizer, i: int)
    requires
        e.wf(k),
        0 <= i < e.slots@.len(),
        e.slots@[i] matches Some(s) && ready(s, e.cfg.ctx),
    ensures
        e.slots@[i].unwrap().pos < e.cfg.ctx,
{
}

/// No request is given more tokens than it asked for.
pub proof fn law_no_more_than_asked(e: Engine, k: Tokenizer, i: int)
    requires
        e.wf(k),
        0 <= i < e.slots@.len(),
        e.slots@[i] is Some,
    ensures
        e.slots@[i].unwrap().out_ids@.len() <= e.slots@[i].unwrap().job.max_tokens,
{
}

} // verus!
