//! What a completions request asks for.
use vstd::prelude::*;
use crate::engine::Job;
use crate::json::{json_of_bytes, read_bytes, Json, Tree};
use crate::text::{decimal, decimal_text, lemma_decimal, same_text, text_list};
use crate::tokenizer::Tokenizer;

verus! {

/// Why a request is refused.
pub struct Refusal {
    pub code: u16,
    pub message: String,
    pub kind: &'static str,
}

/// A request that is carried out.
pub struct Accepted {
    pub job: Job,
    pub stream: bool,
}

// ---------------------------------------------------------------- refusals
/// How `serde_json` prints a number that is zero.
pub open spec fn is_zero(s: Seq<char>) -> bool {
    s == "0"@ || s == "0.0"@ || s == "-0.0"@
}

/// How `serde_json` prints a number that is one.
pub open spec fn is_one(s: Seq<char>) -> bool {
    s == "1"@ || s == "1.0"@
}

/// Whether a field is there and is not null.
pub open spec fn given(t: Tree, key: Seq<char>) -> bool {
    t.field(key) matches Some(v) && v != Tree::Null
}

/// That a field is not supported.
pub open spec fn not_supported(key: Seq<char>) -> Seq<char> {
    "`"@ + key + "` is not supported"@
}

/// What a request asks for that is not implemented.
pub open spec fn unsupported_in(t: Tree) -> Option<Seq<char>> {
    if t.field("n"@) matches Some(v) && v.uint() matches Some(n) && n != 1 {
        Some("n > 1 is not supported"@)
    } else if t.field("temperature"@) matches Some(Tree::Num(s)) && !is_zero(s) {
        Some("only greedy decoding is implemented; temperature must be 0"@)
    } else if t.field("top_p"@) matches Some(Tree::Num(s)) && !is_one(s) {
        Some("only greedy decoding is implemented; top_p must be 1"@)
    } else if given(t, "logprobs"@) {
        Some(not_supported("logprobs"@))
    } else if given(t, "echo"@) {
        Some(not_supported("echo"@))
    } else if given(t, "best_of"@) {
        Some(not_supported("best_of"@))
    } else if given(t, "suffix"@) {
        Some(not_supported("suffix"@))
    } else if given(t, "logit_bias"@) {
        Some(not_supported("logit_bias"@))
    } else {
        None
    }
}

fn zero(s: &str) -> (r: bool)
    ensures
        r == is_zero(s@),
{
    same_text(s, "0") || same_text(s, "0.0") || same_text(s, "-0.0")
}

fn one(s: &str) -> (r: bool)
    ensures
        r == is_one(s@),
{
    same_text(s, "1") || same_text(s, "1.0")
}

fn is_given(req: &Json, key: &str) -> (r: bool)
    ensures
        r == given(req.tree(), key@),
{
    match req.get(key) {
        Some(v) => !v.is_null(),
        None => false,
    }
}

fn refuse_field(key: &str) -> (r: String)
    ensures
        r@ == not_supported(key@),
{
    let mut s = "`".to_owned();
    s.append(key);
    s.append("` is not supported");
    s
}

/// What a request asks for that is not implemented.
pub fn unsupported(req: &Json) -> (r: Option<String>)
    ensures
        match r {
            Some(m) => unsupported_in(req.tree()) == Some(m@),
            None => unsupported_in(req.tree()) is None,
        },
{
    if let Some(v) = req.get("n") {
        if let Some(n) = v.as_u64() {
            if n != 1 {
                return Some("n > 1 is not supported".to_owned());
            }
        }
    }
    if let Some(Json::Num(s)) = req.get("temperature") {
        if !zero(s.as_str()) {
            return Some("only greedy decoding is implemented; temperature must be 0".to_owned());
        }
    }
    if let Some(Json::Num(s)) = req.get("top_p") {
        if !one(s.as_str()) {
            return Some("only greedy decoding is implemented; top_p must be 1".to_owned());
        }
    }
    if is_given(req, "logprobs") {
        return Some(refuse_field("logprobs"));
    }
    if is_given(req, "echo") {
        return Some(refuse_field("echo"));
    }
    if is_given(req, "best_of") {
        return Some(refuse_field("best_of"));
    }
    if is_given(req, "suffix") {
        return Some(refuse_field("suffix"));
    }
    if is_given(req, "logit_bias") {
        return Some(refuse_field("logit_bias"));
    }
    None
}

// ---------------------------------------------------------------- stop strings
/// The texts of a list, values of other kinds left out.
pub open spec fn texts_in(a: Seq<Tree>) -> Seq<Seq<char>>
    decreases a.len(),
{
    if a.len() == 0 {
        Seq::empty()
    } else {
        match a.last().text() {
            Some(s) => texts_in(a.drop_last()).push(s),
            None => texts_in(a.drop_last()),
        }
    }
}

/// The stop strings of a request: one text, or a list of texts.
pub open spec fn stops_in(t: Tree) -> Seq<Seq<char>> {
    match t.field("stop"@) {
        Some(Tree::Str(s)) => seq![s],
        Some(Tree::Arr(a)) => texts_in(a),
        _ => Seq::empty(),
    }
}

/// The stop strings of a request.
pub fn stops_from(req: &Json) -> (r: Vec<String>)
    ensures
        text_list(r@) == stops_in(req.tree()),
{
    let mut r: Vec<String> = Vec::new();
    match req.get("stop") {
        Some(Json::Str(s)) => {
            r.push(s.clone());
            assert(text_list(r@) =~= seq![s@]);
        },
        Some(Json::Arr(a)) => {
            let ghost ts = (Json::Arr(*a)).tree()->Arr_0;
            let mut i: usize = 0;
            proof {
                assert(ts.take(0).len() == 0);
                assert(text_list(r@) =~= texts_in(ts.take(0)));
            }
            while i < a.len()
                invariant
                    i <= a@.len(),
                    ts.len() == a@.len(),
                    forall|k: int| 0 <= k < a@.len() ==> #[trigger] ts[k] == a@[k].tree(),
                    text_list(r@) == texts_in(ts.take(i as int)),
                decreases a@.len() - i,
            {
                let ghost r0 = r@;
                proof {
                    assert(ts.take(i + 1).drop_last() =~= ts.take(i as int));
                    assert(ts[i as int] == a@[i as int].tree());
                }
                if let Some(s) = a[i].as_str() {
                    r.push(s.to_owned());
                    assert(text_list(r@) =~= text_list(r0).push(s@));
                }
                i += 1;
            }
            assert(ts.take(i as int) =~= ts);
        },
        _ => {
            assert(text_list(r@) =~= Seq::empty());
        },
    }
    r
}

// ---------------------------------------------------------------- requests
/// How many tokens a request asks for.
pub open spec fn tokens_asked(t: Tree) -> nat {
    match t.field("max_tokens"@) {
        Some(v) => match v.uint() {
            Some(n) => n as nat,
            None => 64,
        },
        None => 64,
    }
}

/// Whether a request asks for a stream.
pub open spec fn asks_stream(t: Tree) -> bool {
    t.field("stream"@) matches Some(v) && v.truth() == Some(true)
}

/// That a request is too long for the context.
pub open spec fn too_long(prompt: nat, max_tokens: nat, ctx: nat) -> Seq<char> {
    "prompt is "@ + decimal(prompt) + " tokens and max_tokens is "@ + decimal(max_tokens)
        + ", which exceeds the "@ + decimal(ctx)
        + "-token context this server was started with (--ctx)"@
}

/// Whether a request is refused with a message.
pub open spec fn refused(r: Result<Accepted, Refusal>, message: Seq<char>) -> bool {
    r matches Err(e) && e.code == 400 && e.message@ == message && e.kind@
        == "invalid_request_error"@
}

/// What becomes of a request.
pub open spec fn answer(
    t: Tree,
    k: Tokenizer,
    ctx: usize,
    r: Result<Accepted, Refusal>,
) -> bool {
    match unsupported_in(t) {
        Some(m) => refused(r, m),
        None => match t.field("prompt"@) {
            Some(Tree::Str(p)) => {
                let toks = seq![k.bos_id()] + k.text_ids(p);
                let asked = tokens_asked(t);
                if toks.len() + asked > ctx {
                    refused(r, too_long(toks.len(), asked, ctx as nat))
                } else {
                    &&& r matches Ok(a)
                    &&& a.job.toks@ == toks
                    &&& a.job.max_tokens == asked
                    &&& text_list(a.job.stops@) == stops_in(t)
                    &&& a.stream == asks_stream(t)
                }
            },
            _ => refused(
                r,
                "`prompt` must be a string (token-id arrays are not accepted)"@,
            ),
        },
    }
}

fn refuse(message: String) -> (r: Result<Accepted, Refusal>)
    ensures
        refused(r, message@),
{
    Err(Refusal { code: 400, message, kind: "invalid_request_error" })
}

/// Takes a request on, or says why not.
pub fn accept(req: &Json, k: &Tokenizer, ctx: usize) -> (r: Result<Accepted, Refusal>)
    ensures
        answer(req.tree(), *k, ctx, r),
{
    if let Some(m) = unsupported(req) {
        return refuse(m);
    }
    let prompt = match req.get("prompt") {
        Some(Json::Str(p)) => p,
        _ => {
            return refuse(
                "`prompt` must be a string (token-id arrays are not accepted)".to_owned(),
            );
        },
    };
    let asked: u64 = match req.get("max_tokens") {
        Some(v) => match v.as_u64() {
            Some(n) => n,
            None => 64,
        },
        None => 64,
    };
    let stream: bool = match req.get("stream") {
        Some(v) => match v.as_bool() {
            Some(b) => b,
            None => false,
        },
        None => false,
    };
    let stops = stops_from(req);
    let toks = k.encode(prompt.as_str(), true);
    if toks.len() > ctx || asked > (ctx - toks.len()) as u64 {
        let mut m = "prompt is ".to_owned();
        m.append(decimal_text(toks.len() as u64).as_str());
        m.append(" tokens and max_tokens is ");
        m.append(decimal_text(asked).as_str());
        m.append(", which exceeds the ");
        m.append(decimal_text(ctx as u64).as_str());
        m.append("-token context this server was started with (--ctx)");
        return refuse(m);
    }
    Ok(Accepted { job: Job { toks, max_tokens: asked as usize, stops }, stream })
}

/// What becomes of a request body.
pub open spec fn body_answer(
    body: Seq<u8>,
    k: Tokenizer,
    ctx: usize,
    r: Result<Accepted, Refusal>,
) -> bool {
    match json_of_bytes(body) {
        Ok(t) => answer(t, k, ctx, r),
        Err(e) => refused(r, "invalid JSON: "@ + e),
    }
}

/// Reads a request body and takes the request on, or says why not.
pub fn completion(body: &[u8], k: &Tokenizer, ctx: usize) -> (r: Result<Accepted, Refusal>)
    ensures
        body_answer(body@, *k, ctx, r),
{
    match read_bytes(body) {
        Ok(req) => accept(&req, k, ctx),
        Err(e) => {
            let mut m = "invalid JSON: ".to_owned();
            m.append(e.as_str());
            refuse(m)
        },
    }
}

/// A request that is taken on fits the context.
pub proof fn law_accepted_requests_fit(t: Tree, k: Tokenizer, ctx: usize, a: Accepted)
    requires
        answer(t, k, ctx, Ok(a)),
    ensures
        a.job.toks@.len() + a.job.max_tokens <= ctx,
        a.job.toks@.len() > 0,
        a.job.toks@[0] == k.bos_id(),
{
}

/// Whether a field is left out or null.
pub open spec fn left_out(t: Tree, key: Seq<char>) -> bool {
    t.field(key) is None || t.field(key) == Some(Tree::Null)
}

/// Whether a text writes a number whose every digit is zero.
pub open spec fn writes_zero(s: Seq<char>) -> bool {
    forall|i: int| 0 <= i < s.len() ==> (#[trigger] s[i]) == '0' || s[i] == '.' || s[i] == '-'
}

/// Whether a text writes a one, alone or with a zero behind the point.
pub open spec fn writes_one(s: Seq<char>) -> bool {
    s == seq!['1'] || s == seq!['1', '.', '0']
}

/// Whether a request asks for nothing but greedy decoding of one answer: a
/// temperature that is a number is zero, a `top_p` that is a number is one, a count
/// of answers is one, and none of the fields that would change the answer is given.
pub open spec fn asks_for_greedy(t: Tree) -> bool {
    &&& t.field("temperature"@) matches Some(Tree::Num(s)) ==> writes_zero(s)
    &&& t.field("top_p"@) matches Some(Tree::Num(s)) ==> writes_one(s)
    &&& t.field("n"@) matches Some(v) ==> v.uint() matches Some(n) ==> n == 1
    &&& left_out(t, "logprobs"@)
    &&& left_out(t, "echo"@)
    &&& left_out(t, "best_of"@)
    &&& left_out(t, "suffix"@)
    &&& left_out(t, "logit_bias"@)
}

/// A body that is taken on is JSON that asks for nothing but greedy decoding.
pub proof fn law_accepted_requests_are_greedy(
    body: Seq<u8>,
    k: Tokenizer,
    ctx: usize,
    a: Accepted,
)
    requires
        body_answer(body, k, ctx, Ok(a)),
    ensures
        json_of_bytes(body) matches Ok(t) && asks_for_greedy(t) && answer(t, k, ctx, Ok(a)),
{
    reveal_strlit("0");
    reveal_strlit("0.0");
    reveal_strlit("-0.0");
    reveal_strlit("1");
    reveal_strlit("1.0");
    if let Ok(t) = json_of_bytes(body) {
        if let Some(Tree::Num(s)) = t.field("top_p"@) {
            assert(s =~= seq!['1'] || s =~= seq!['1', '.', '0']);
        }
    }
}

/// The other way round: a request that asks for greedy decoding in any of the ways
/// in which a number is printed is not refused for how it asks.
pub proof fn law_greedy_requests_are_not_refused_for_it(
    t: Tree,
    k: Tokenizer,
    ctx: usize,
    r: Result<Accepted, Refusal>,
    prompt: Seq<char>,
)
    requires
        answer(t, k, ctx, r),
        asks_for_greedy(t),
        t.field("temperature"@) matches Some(Tree::Num(s)) ==> s == seq!['0'] || s == seq![
            '0',
            '.',
            '0',
        ] || s == seq!['-', '0', '.', '0'],
        t.field("prompt"@) == Some(Tree::Str(prompt)),
        1 + k.text_ids(prompt).len() + tokens_asked(t) <= ctx,
    ensures
        r is Ok,
{
    reveal_strlit("0");
    reveal_strlit("0.0");
    reveal_strlit("-0.0");
    reveal_strlit("1");
    reveal_strlit("1.0");
    assert("0"@ =~= seq!['0']);
    assert("0.0"@ =~= seq!['0', '.', '0']);
    assert("-0.0"@ =~= seq!['-', '0', '.', '0']);
    assert("1"@ =~= seq!['1']);
    assert("1.0"@ =~= seq!['1', '.', '0']);
}

/// Whether no field of a request speaks of how to decode, or in how many ways.
pub open spec fn leaves_decoding_alone(t: Tree) -> bool {
    &&& left_out(t, "n"@)
    &&& left_out(t, "temperature"@)
    &&& left_out(t, "top_p"@)
    &&& left_out(t, "logprobs"@)
    &&& left_out(t, "echo"@)
    &&& left_out(t, "best_of"@)
    &&& left_out(t, "suffix"@)
    &&& left_out(t, "logit_bias"@)
}

/// A request with a prompt that leaves decoding alone is taken on exactly where its
/// ids and the tokens that it may have, 64 where it does not say, fit the context
/// together; its job is then the prompt behind the id that begins a sequence, and
/// it is streamed if it says so.
pub proof fn law_plain_requests_are_taken_on(
    t: Tree,
    k: Tokenizer,
    ctx: usize,
    r: Result<Accepted, Refusal>,
    prompt: Seq<char>,
    asked: u64,
)
    requires
        answer(t, k, ctx, r),
        leaves_decoding_alone(t),
        t.field("prompt"@) == Some(Tree::Str(prompt)),
        t.field("max_tokens"@) == Some(Tree::Num(decimal(asked as nat))) || (asked == 64
            && left_out(t, "max_tokens"@)),
    ensures
        r is Ok <==> 1 + k.text_ids(prompt).len() + asked <= ctx,
        r matches Ok(a) ==> {
            &&& a.job.toks@.len() == 1 + k.text_ids(prompt).len()
            &&& a.job.toks@.first() == k.bos
            &&& a.job.toks@.skip(1) == k.text_ids(prompt)
            &&& a.job.max_tokens == asked
            &&& a.stream <==> t.field("stream"@) == Some(Tree::Bool(true))
            &&& left_out(t, "stop"@) ==> a.job.stops@.len() == 0
        },
{
    lemma_decimal(asked as nat);
    if let Ok(a) = r {
        assert(a.job.toks@.skip(1) =~= k.text_ids(prompt));
        if left_out(t, "stop"@) {
            assert(text_list(a.job.stops@).len() == 0);
        }
    }
}

/// Without a prompt that is a text nothing is taken on.
pub proof fn law_a_prompt_is_needed(
    t: Tree,
    k: Tokenizer,
    ctx: usize,
    r: Result<Accepted, Refusal>,
)
    requires
        answer(t, k, ctx, r),
        !(t.field("prompt"@) matches Some(Tree::Str(_))),
    ensures
        r is Err,
        r->Err_0.code == 400,
{
}

/// Whatever is refused is the request's fault, and says why.
pub proof fn law_refusals_blame_the_request(
    body: Seq<u8>,
    k: Tokenizer,
    ctx: usize,
    e: Refusal,
)
    requires
        body_answer(body, k, ctx, Err(e)),
    ensures
        e.code == 400,
        e.kind@ == "invalid_request_error"@,
        e.message@.len() > 0,
        json_of_bytes(body) matches Err(why) ==> e.message@ == "invalid JSON: "@ + why,
{
    reveal_strlit("invalid JSON: ");
    reveal_strlit("n > 1 is not supported");
    reveal_strlit("only greedy decoding is implemented; temperature must be 0");
    reveal_strlit("only greedy decoding is implemented; top_p must be 1");
    reveal_strlit("`");
    reveal_strlit("prompt is ");
    reveal_strlit("`prompt` must be a string (token-id arrays are not accepted)");
}

/// A field that is not supported is refused by its name.
pub proof fn law_refusals_name_the_field(
    t: Tree,
    k: Tokenizer,
    ctx: usize,
    r: Result<Accepted, Refusal>,
    key: Seq<char>,
)
    requires
        answer(t, k, ctx, r),
        key == "logprobs"@ || key == "echo"@ || key == "best_of"@ || key == "suffix"@ || key
            == "logit_bias"@,
        !left_out(t, key),
        left_out(t, "n"@),
        left_out(t, "temperature"@),
        left_out(t, "top_p"@),
        key == "logprobs"@ || left_out(t, "logprobs"@),
        key == "echo"@ || left_out(t, "echo"@),
        key == "best_of"@ || left_out(t, "best_of"@),
        key == "suffix"@ || left_out(t, "suffix"@),
        key == "logit_bias"@ || left_out(t, "logit_bias"@),
    ensures
        r matches Err(e) && e.message@ == "`"@ + key + "` is not supported"@,
{
    reveal_strlit("logprobs");
    reveal_strlit("echo");
    reveal_strlit("best_of");
    reveal_strlit("suffix");
    reveal_strlit("logit_bias");
    assert("logprobs"@.len() == 8 && "echo"@.len() == 4 && "best_of"@.len() == 7 && "suffix"@.len()
        == 6 && "logit_bias"@.len() == 10);
}

/// The stop strings are those of the list in its order: one string alone is itself,
/// anything else alone is none, and a list has those of its halves.
pub proof fn law_stops_are_the_texts_in_order(a: Seq<Tree>, b: Seq<Tree>, v: Tree, s: Seq<char>)
    ensures
        texts_in(a + b) == texts_in(a) + texts_in(b),
        texts_in(seq![Tree::Str(s)]) == seq![s],
        !(v is Str) ==> texts_in(seq![v]).len() == 0,
    decreases b.len(),
{
    let none = Seq::<Tree>::empty();
    assert(seq![v].drop_last() =~= none);
    assert(seq![Tree::Str(s)].drop_last() =~= none);
    assert(texts_in(none) =~= Seq::empty());
    assert(texts_in(seq![Tree::Str(s)]) =~= seq![s]);
    if b.len() == 0 {
        assert(a + b =~= a);
        assert(texts_in(a) + texts_in(b) =~= texts_in(a));
    } else {
        assert((a + b).drop_last() =~= a + b.drop_last());
        law_stops_are_the_texts_in_order(a, b.drop_last(), v, s);
        assert(texts_in(a + b) =~= texts_in(a) + texts_in(b));
    }
}

/// A stop that is one text is as good as a list of it.
pub proof fn law_one_stop_needs_no_list(t: Tree, u: Tree, s: Seq<char>)
    requires
        t.field("stop"@) == Some(Tree::Str(s)),
        u.field("stop"@) == Some(Tree::Arr(seq![Tree::Str(s)])),
    ensures
        stops_in(t) == seq![s],
        stops_in(t) == stops_in(u),
{
    law_stops_are_the_texts_in_order(Seq::empty(), Seq::empty(), Tree::Null, s);
}

/// What is not implemented is refused, whatever else the request holds.
pub proof fn law_unsupported_is_refused(
    t: Tree,
    k: Tokenizer,
    ctx: usize,
    r: Result<Accepted, Refusal>,
)
    requires
        answer(t, k, ctx, r),
        unsupported_in(t) is Some,
    ensures
        r matches Err(e) && e.code == 400 && e.message@ == unsupported_in(t).unwrap(),
{
}

} // verus!
