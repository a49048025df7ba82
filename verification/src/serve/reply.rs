//! What a client is sent as its request is carried out.
use vstd::prelude::*;
use vstd::utf8::encode_utf8;
use crate::engine::slot::{texts, Said};
use crate::engine::Event;
use crate::http::{
    error_tree, json_error, json_response, respond_json, sse_done, sse_end, sse_frame, sse_head,
    sse_open, sse_send,
};
use crate::json::{
    field, field_of, fields_tree, number, object, one_value, string, Json, Tree,
};
use crate::text::{decimal, lemma_decimal};

verus! {

/// What is known of a reply before its text.
pub struct Reply {
    pub stream: bool,
    pub id: String,
    /// seconds since the epoch
    pub created: u64,
    pub model_id: String,
    /// the text so far, where it is not streamed
    pub text: String,
}

/// What to send now, and whether that is all.
pub struct Step {
    pub out: Vec<u8>,
    pub done: bool,
}

// ---------------------------------------------------------------- what is said
/// What every answer begins with, and its one choice.
pub open spec fn answer_fields(r: Reply, choice: Tree) -> Seq<(Seq<char>, Tree)> {
    seq![
        ("id"@, Tree::Str(r.id@)),
        ("object"@, Tree::Str("text_completion"@)),
        ("created"@, Tree::Num(decimal(r.created as nat))),
        ("model"@, Tree::Str(r.model_id@)),
        ("choices"@, Tree::Arr(seq![choice])),
    ]
}

/// A piece of a streamed answer.
pub open spec fn piece(text: Seq<char>, finish: Tree) -> Tree {
    Tree::Obj(
        seq![
            ("text"@, Tree::Str(text)),
            ("index"@, Tree::Num(decimal(0))),
            ("finish_reason"@, finish),
        ],
    )
}

/// An answer that is not streamed.
pub open spec fn whole(text: Seq<char>, finish: Seq<char>) -> Tree {
    Tree::Obj(
        seq![
            ("text"@, Tree::Str(text)),
            ("index"@, Tree::Num(decimal(0))),
            ("logprobs"@, Tree::Null),
            ("finish_reason"@, Tree::Str(finish)),
        ],
    )
}

/// How many tokens a request took.
pub open spec fn usage(prompt: nat, completion: nat) -> Tree {
    Tree::Obj(
        seq![
            ("prompt_tokens"@, Tree::Num(decimal(prompt))),
            ("completion_tokens"@, Tree::Num(decimal(completion))),
            ("total_tokens"@, Tree::Num(decimal(prompt + completion))),
        ],
    )
}

/// A failure in the middle of a stream.
pub open spec fn stream_error(msg: Seq<char>) -> Tree {
    Tree::Obj(seq![("error"@, Tree::Obj(seq![("message"@, Tree::Str(msg))]))])
}

/// What is sent for an event, and whether that is all.
pub open spec fn sent_for(r: Reply, e: Said) -> (Seq<u8>, bool) {
    match e {
        Said::Text(t) => if r.stream {
            (sse_frame(Tree::Obj(answer_fields(r, piece(t, Tree::Null)))), false)
        } else {
            (Seq::empty(), false)
        },
        Said::Done { finish, prompt_tokens, completion_tokens } => {
            let used = ("usage"@, usage(prompt_tokens, completion_tokens));
            if r.stream {
                (
                    sse_frame(
                        Tree::Obj(
                            answer_fields(r, piece(Seq::empty(), Tree::Str(finish))).push(used),
                        ),
                    ) + sse_end(),
                    true,
                )
            } else {
                (
                    json_response(
                        200,
                        Tree::Obj(answer_fields(r, whole(r.text@, finish)).push(used)),
                    ),
                    true,
                )
            }
        },
        Said::Error(m) => if r.stream {
            (sse_frame(stream_error(m)) + sse_end(), true)
        } else {
            (json_response(500, error_tree(m, "server_error"@)), true)
        },
    }
}

/// The text that is kept after an event: a stream keeps none.
pub open spec fn kept_after(r: Reply, e: Said) -> Seq<char> {
    match e {
        Said::Text(t) => if r.stream {
            r.text@
        } else {
            r.text@ + t
        },
        _ => r.text@,
    }
}

/// What is sent when the engine stops before the end: that it stopped, so that
/// what was sent does not pass for a whole answer.
pub open spec fn sent_when_closed(r: Reply) -> Seq<u8> {
    if r.stream {
        sse_frame(stream_error("engine stopped mid-request"@)) + sse_end()
    } else {
        json_response(500, error_tree("engine stopped mid-request"@, "server_error"@))
    }
}

// ---------------------------------------------------------------- saying it
fn answer(r: &Reply, choice: Json) -> (v: Vec<(String, Json)>)
    ensures
        fields_tree(v@) == answer_fields(*r, choice.tree()),
{
    let v = vec![
        field("id", string(r.id.as_str())),
        field("object", string("text_completion")),
        field("created", number(r.created)),
        field("model", string(r.model_id.as_str())),
        field("choices", one_value(choice)),
    ];
    assert(fields_tree(v@) =~= answer_fields(*r, choice.tree()));
    v
}

fn piece_json(text: &str, finish: Json) -> (j: Json)
    ensures
        j.tree() == piece(text@, finish.tree()),
{
    let v = vec![
        field("text", string(text)),
        field("index", number(0)),
        field("finish_reason", finish),
    ];
    assert(fields_tree(v@) =~= piece(text@, finish.tree())->Obj_0);
    object(v)
}

fn whole_json(text: &str, finish: &str) -> (j: Json)
    ensures
        j.tree() == whole(text@, finish@),
{
    let v = vec![
        field("text", string(text)),
        field("index", number(0)),
        field("logprobs", Json::Null),
        field("finish_reason", string(finish)),
    ];
    assert(fields_tree(v@) =~= whole(text@, finish@)->Obj_0);
    object(v)
}

fn usage_json(prompt: usize, completion: usize) -> (j: Json)
    requires
        prompt + completion <= u64::MAX,
    ensures
        j.tree() == usage(prompt as nat, completion as nat),
{
    let v = vec![
        field("prompt_tokens", number(prompt as u64)),
        field("completion_tokens", number(completion as u64)),
        field("total_tokens", number(prompt as u64 + completion as u64)),
    ];
    assert(fields_tree(v@) =~= usage(prompt as nat, completion as nat)->Obj_0);
    object(v)
}

fn stream_error_json(msg: &str) -> (j: Json)
    ensures
        j.tree() == stream_error(msg@),
{
    let inner = object(vec![field("message", string(msg))]);
    let v = vec![field("error", inner)];
    proof {
        let want = stream_error(msg@);
        assert(inner.tree()->Obj_0 =~= want->Obj_0[0].1->Obj_0);
        assert(fields_tree(v@) =~= want->Obj_0);
    }
    object(v)
}

impl Reply {
    /// A reply to which nothing has been said yet.
    pub fn new(stream: bool, id: String, created: u64, model_id: String) -> (r: Reply)
        ensures
            r.stream == stream,
            r.id == id,
            r.created == created,
            r.model_id == model_id,
            r.text@.len() == 0,
    {
        Reply { stream, id, created, model_id, text: String::new() }
    }

    /// What is sent before anything else.
    pub fn open(&self) -> (out: Vec<u8>)
        ensures
            out@ == if self.stream {
                encode_utf8(sse_head())
            } else {
                Seq::empty()
            },
    {
        if self.stream {
            sse_open()
        } else {
            Vec::new()
        }
    }

    /// Takes an event of the engine.
    pub fn on(&mut self, e: Event) -> (s: Step)
        requires
            e matches Event::Done { finish: _, prompt_tokens, completion_tokens } ==> prompt_tokens
                + completion_tokens <= u64::MAX,
        ensures
            (s.out@, s.done) == sent_for(*old(self), e@),
            final(self).stream == old(self).stream,
            final(self).id == old(self).id,
            final(self).created == old(self).created,
            final(self).model_id == old(self).model_id,
            final(self).text@ == kept_after(*old(self), e@),
    {
        match e {
            Event::Text(t) => {
                if self.stream {
                    let fields = answer(self, piece_json(t.as_str(), Json::Null));
                    Step { out: sse_send(&object(fields)), done: false }
                } else {
                    self.text.append(t.as_str());
                    let out: Vec<u8> = Vec::new();
                    assert(out@ =~= Seq::empty());
                    Step { out, done: false }
                }
            },
            Event::Done { finish, prompt_tokens, completion_tokens } => {
                let used = usage_json(prompt_tokens, completion_tokens);
                let choice = if self.stream {
                    let p = piece_json("", string(finish));
                    proof {
                        reveal_strlit("");
                        assert(""@ =~= Seq::empty());
                    }
                    p
                } else {
                    whole_json(self.text.as_str(), finish)
                };
                let mut fields = answer(self, choice);
                let ghost f0 = fields@;
                fields.push(field("usage", used));
                assert(fields_tree(fields@) =~= fields_tree(f0).push(("usage"@, used.tree())));
                let j = object(fields);
                if self.stream {
                    let mut out = sse_send(&j);
                    let end = sse_done();
                    out.extend_from_slice(end.as_slice());
                    Step { out, done: true }
                } else {
                    Step { out: respond_json(200, &j), done: true }
                }
            },
            Event::Error(m) => {
                if self.stream {
                    let mut out = sse_send(&stream_error_json(m.as_str()));
                    let end = sse_done();
                    out.extend_from_slice(end.as_slice());
                    Step { out, done: true }
                } else {
                    Step { out: json_error(500, m.as_str(), "server_error"), done: true }
                }
            },
        }
    }

    /// The engine has stopped before the end.
    pub fn closed(&self) -> (s: Step)
        ensures
            s.out@ == sent_when_closed(*self),
            s.done,
    {
        if self.stream {
            let mut out = sse_send(&stream_error_json("engine stopped mid-request"));
            let end = sse_done();
            out.extend_from_slice(end.as_slice());
            Step { out, done: true }
        } else {
            Step {
                out: json_error(500, "engine stopped mid-request", "server_error"),
                done: true,
            }
        }
    }
}

// ---------------------------------------------------------------- what a client reads
/// The one choice of an answer.
pub open spec fn choice_of(t: Tree) -> Tree {
    match t.field("choices"@) {
        Some(Tree::Arr(a)) => a[0],
        _ => Tree::Null,
    }
}

/// Whether a value names this reply and has one choice.
pub open spec fn names_reply(t: Tree, r: Reply) -> bool {
    &&& t.field("id"@) == Some(Tree::Str(r.id@))
    &&& t.field("model"@) == Some(Tree::Str(r.model_id@))
    &&& t.field("created"@) matches Some(v) && v.uint() == Some(r.created)
    &&& t.field("choices"@) matches Some(Tree::Arr(a)) && a.len() == 1
}

proof fn lemma_field(fields: Seq<(Seq<char>, Tree)>, i: int)
    requires
        0 <= i < fields.len(),
        forall|j: int| 0 <= j < i ==> (#[trigger] fields[j]).0 != fields[i].0,
    ensures
        field_of(fields, fields[i].0) == Some(fields[i].1),
    decreases i,
{
    if i > 0 {
        let rest = fields.skip(1);
        assert(fields[0].0 != fields[i].0);
        assert forall|j: int| 0 <= j < i - 1 implies (#[trigger] rest[j]).0 != rest[i - 1].0 by {
            assert(rest[j] == fields[j + 1]);
        }
        lemma_field(rest, i - 1);
    }
}

proof fn lemma_answer(r: Reply, choice: Tree, more: Seq<(Seq<char>, Tree)>)
    ensures
        names_reply(Tree::Obj(answer_fields(r, choice) + more), r),
        choice_of(Tree::Obj(answer_fields(r, choice) + more)) == choice,
        more.len() > 0 && more[0].0 == "usage"@ ==> Tree::Obj(
            answer_fields(r, choice) + more,
        ).field("usage"@) == Some(more[0].1),
{
    reveal_strlit("id");
    reveal_strlit("object");
    reveal_strlit("created");
    reveal_strlit("model");
    reveal_strlit("choices");
    reveal_strlit("usage");
    let f = answer_fields(r, choice) + more;
    assert(f[0].0 == "id"@ && f[1].0 == "object"@ && f[2].0 == "created"@ && f[3].0 == "model"@
        && f[4].0 == "choices"@);
    assert("id"@.len() == 2 && "object"@.len() == 6 && "created"@.len() == 7 && "model"@.len() == 5
        && "choices"@.len() == 7 && "usage"@.len() == 5);
    assert("created"@[0] == 'c' && "choices"@[1] == 'h' && "created"@[1] == 'r');
    assert("model"@[0] == 'm' && "usage"@[0] == 'u');
    lemma_field(f, 0);
    lemma_field(f, 2);
    lemma_field(f, 3);
    lemma_field(f, 4);
    lemma_decimal(r.created as nat);
    if more.len() > 0 && more[0].0 == "usage"@ {
        assert(f[5] == more[0]);
        lemma_field(f, 5);
    }
}

proof fn lemma_choices(text: Seq<char>, finish: Seq<char>, t: Tree)
    ensures
        piece(text, t).field("text"@) == Some(Tree::Str(text)),
        piece(text, t).field("finish_reason"@) == Some(t),
        whole(text, finish).field("text"@) == Some(Tree::Str(text)),
        whole(text, finish).field("finish_reason"@) == Some(Tree::Str(finish)),
{
    reveal_strlit("text");
    reveal_strlit("index");
    reveal_strlit("logprobs");
    reveal_strlit("finish_reason");
    assert("text"@.len() == 4 && "index"@.len() == 5 && "logprobs"@.len() == 8
        && "finish_reason"@.len() == 13);
    let p = piece(text, t)->Obj_0;
    let w = whole(text, finish)->Obj_0;
    lemma_field(p, 0);
    lemma_field(p, 2);
    lemma_field(w, 0);
    lemma_field(w, 3);
}

/// Whether a value counts the tokens of a request, and their sum.
pub open spec fn counts(t: Tree, prompt: nat, completion: nat) -> bool {
    &&& t.field("prompt_tokens"@) == Some(Tree::Num(decimal(prompt)))
    &&& t.field("completion_tokens"@) == Some(Tree::Num(decimal(completion)))
    &&& t.field("total_tokens"@) == Some(Tree::Num(decimal(prompt + completion)))
}

proof fn lemma_usage(prompt: nat, completion: nat)
    ensures
        counts(usage(prompt, completion), prompt, completion),
{
    reveal_strlit("prompt_tokens");
    reveal_strlit("completion_tokens");
    reveal_strlit("total_tokens");
    assert("prompt_tokens"@.len() == 13 && "completion_tokens"@.len() == 17
        && "total_tokens"@.len() == 12);
    let u = usage(prompt, completion)->Obj_0;
    lemma_field(u, 0);
    lemma_field(u, 1);
    lemma_field(u, 2);
}

/// A stream sends each text as it comes, in an event of its own that names the reply
/// and gives no reason to stop.
pub proof fn law_pieces_carry_their_text(r: Reply, text: Seq<char>)
    requires
        r.stream,
    ensures
        !sent_for(r, Said::Text(text)).1,
        exists|t: Tree|
            sent_for(r, Said::Text(text)).0 == #[trigger] sse_frame(t) && names_reply(t, r)
                && choice_of(t).field("text"@) == Some(Tree::Str(text)) && choice_of(t).field(
                "finish_reason"@,
            ) == Some(Tree::Null),
{
    let c = piece(text, Tree::Null);
    let none = Seq::<(Seq<char>, Tree)>::empty();
    lemma_choices(text, text, Tree::Null);
    lemma_answer(r, c, none);
    assert(answer_fields(r, c) + none =~= answer_fields(r, c));
    assert(sent_for(r, Said::Text(text)).0 == sse_frame(Tree::Obj(answer_fields(r, c))));
}

/// The end of a request says why it ended and how many tokens it took, in a stream and
/// without one; without one it also carries the whole text.
pub proof fn law_the_end_counts_the_tokens(r: Reply, finish: Seq<char>, prompt: nat, completion: nat)
    ensures
        ({
            let e = Said::Done { finish, prompt_tokens: prompt, completion_tokens: completion };
            &&& sent_for(r, e).1
            &&& exists|t: Tree|
                {
                    &&& sent_for(r, e).0 == if r.stream {
                        #[trigger] sse_frame(t) + sse_end()
                    } else {
                        json_response(200, t)
                    }
                    &&& names_reply(t, r)
                    &&& choice_of(t).field("finish_reason"@) == Some(Tree::Str(finish))
                    &&& choice_of(t).field("text"@) == Some(
                        Tree::Str(
                            if r.stream {
                                Seq::empty()
                            } else {
                                r.text@
                            },
                        ),
                    )
                    &&& t.field("usage"@) matches Some(u) && counts(u, prompt, completion)
                }
        }),
{
    let used = ("usage"@, usage(prompt, completion));
    let c = if r.stream {
        piece(Seq::empty(), Tree::Str(finish))
    } else {
        whole(r.text@, finish)
    };
    lemma_choices(Seq::empty(), finish, Tree::Str(finish));
    lemma_choices(r.text@, finish, Tree::Null);
    lemma_answer(r, c, seq![used]);
    lemma_usage(prompt, completion);
    let f = answer_fields(r, c);
    assert(f + seq![used] =~= f.push(used));
    let t = Tree::Obj(f.push(used));
    assert(sse_frame(t) == sse_frame(t));
}

/// Whether a value reports an error with this message, and is no answer.
pub open spec fn reports(t: Tree, msg: Seq<char>) -> bool {
    &&& t.field("error"@) matches Some(e) && e.field("message"@) == Some(Tree::Str(msg))
    &&& t.field("choices"@) is None
}

proof fn lemma_reports(msg: Seq<char>, kind: Seq<char>)
    ensures
        reports(stream_error(msg), msg),
        reports(error_tree(msg, kind), msg),
{
    reveal_strlit("error");
    reveal_strlit("message");
    reveal_strlit("choices");
    assert("error"@.len() == 5 && "choices"@.len() == 7);
    let a = stream_error(msg)->Obj_0;
    let b = error_tree(msg, kind)->Obj_0;
    lemma_field(a, 0);
    lemma_field(b, 0);
    lemma_field(a[0].1->Obj_0, 0);
    lemma_field(b[0].1->Obj_0, 0);
    assert(a.skip(1).len() == 0);
    assert(b.skip(1).len() == 0);
    assert(field_of(a.skip(1), "choices"@) is None);
    assert(field_of(b.skip(1), "choices"@) is None);
}

/// What is cut short does not pass for an answer: a failure is reported as one, in a
/// stream before its end and otherwise with the status of a server's error, and so is
/// an engine that stops in the middle.
pub proof fn law_failures_do_not_pass_for_answers(r: Reply, msg: Seq<char>)
    ensures
        exists|t: Tree|
            sent_for(r, Said::Error(msg)).0 == (if r.stream {
                #[trigger] sse_frame(t) + sse_end()
            } else {
                json_response(500, t)
            }) && reports(t, msg),
        exists|t: Tree|
            sent_when_closed(r) == (if r.stream {
                #[trigger] sse_frame(t) + sse_end()
            } else {
                json_response(500, t)
            }) && reports(t, "engine stopped mid-request"@),
{
    let cut = "engine stopped mid-request"@;
    lemma_reports(msg, "server_error"@);
    lemma_reports(cut, "server_error"@);
    let a = if r.stream {
        stream_error(msg)
    } else {
        error_tree(msg, "server_error"@)
    };
    let b = if r.stream {
        stream_error(cut)
    } else {
        error_tree(cut, "server_error"@)
    };
    assert(sse_frame(a) == sse_frame(a));
    assert(sse_frame(b) == sse_frame(b));
}

/// The texts of some events as a reply that is not streamed keeps them.
pub open spec fn kept_text(r: Reply, before: Seq<char>, said: Seq<Said>) -> bool
    decreases said.len(),
{
    if said.len() == 0 {
        r.text@ == before
    } else {
        exists|q: Reply|
            kept_text(q, before, said.drop_last()) && q.stream == r.stream && r.text@ == #[trigger]
                kept_after(q, said.last())
    }
}

/// A reply that is not streamed ends with the texts of its events, one behind the
/// other.
pub proof fn law_nothing_is_lost_without_a_stream(r: Reply, before: Seq<char>, said: Seq<Said>)
    requires
        !r.stream,
        kept_text(r, before, said),
    ensures
        r.text@ == before + texts(said),
    decreases said.len(),
{
    if said.len() == 0 {
        assert(before + texts(said) =~= before);
    } else {
        let q = choose|q: Reply|
            kept_text(q, before, said.drop_last()) && q.stream == r.stream && r.text@ == #[trigger]
                kept_after(q, said.last());
        law_nothing_is_lost_without_a_stream(q, before, said.drop_last());
        assert(r.text@ =~= before + texts(said));
    }
}

/// A reply is over with the end of its request or with a failure, and with nothing
/// else.
pub proof fn law_only_an_end_ends_a_reply(r: Reply, e: Said)
    ensures
        sent_for(r, e).1 <==> !(e is Text),
        !r.stream && e is Text ==> sent_for(r, e).0.len() == 0,
{
}

// ---------------------------------------------------------------- names
/// A lower-case hexadecimal digit.
pub open spec fn hex_digit(n: nat) -> char {
    if n < 10 {
        (48 + n) as char
    } else {
        (87 + n) as char
    }
}

/// A number in lower-case hexadecimal digits.
pub open spec fn hex(n: nat) -> Seq<char>
    decreases n,
{
    if n < 16 {
        seq![hex_digit(n)]
    } else {
        hex(n / 16).push(hex_digit(n % 16))
    }
}

fn hex_text(n: u32) -> (r: String)
    ensures
        r@ == hex(n as nat),
    decreases n,
{
    let d: u8 = (n % 16) as u8;
    let c: char = if d < 10 {
        (48 + d) as char
    } else {
        (87 + d) as char
    };
    if n < 16 {
        let mut r = String::new();
        r.push(c);
        assert(r@ =~= hex(n as nat));
        r
    } else {
        let mut r = hex_text(n / 16);
        r.push(c);
        r
    }
}

/// The name of a completion, from the clock's nanoseconds.
pub fn completion_id(nanos: u32) -> (r: String)
    ensures
        r@ == "cmpl-"@ + hex(nanos as nat),
{
    let mut r = "cmpl-".to_owned();
    r.append(hex_text(nanos).as_str());
    r
}

/// The number that lower-case hexadecimal digits write.
pub open spec fn hex_value(s: Seq<char>) -> nat
    decreases s.len(),
{
    if s.len() == 0 {
        0
    } else {
        let c = s.last();
        16 * hex_value(s.drop_last()) + (if '0' <= c <= '9' {
            c as int - 48
        } else {
            c as int - 87
        }) as nat
    }
}

/// A completion is named by the digits of its number, all of them lower-case, and no two
/// numbers give one name.
pub proof fn law_names_are_read_back(n: nat)
    ensures
        hex_value(hex(n)) == n,
        forall|i: int|
            0 <= i < hex(n).len() ==> '0' <= #[trigger] hex(n)[i] <= '9' || 'a' <= hex(n)[i] <= 'f',
    decreases n,
{
    let s = hex(n);
    if n < 16 {
        assert(s.drop_last() =~= Seq::empty());
        assert(hex_value(s.drop_last()) == 0);
    } else {
        law_names_are_read_back(n / 16);
        assert(s.drop_last() =~= hex(n / 16));
        assert forall|i: int| 0 <= i < s.len() implies '0' <= #[trigger] s[i] <= '9' || 'a' <= s[i]
            <= 'f' by {
            if i < s.len() - 1 {
                assert(s[i] == hex(n / 16)[i]);
            }
        }
    }
}

} // verus!
