//! The completions server: arguments, requests, replies.

use fastgemma::engine::Event;
use fastgemma::http::{json_error, respond, respond_json, sse_done, sse_open, sse_send, Head};
use fastgemma::json::{field, number, object, parse, string, Json};
use fastgemma::serve::reply::completion_id;
use fastgemma::serve::route::models;
use fastgemma::serve::{
    completion, parse_args, route, stops_from, unsupported, vocabulary_flaw, Accepted, Args, Refusal, Reply, Route,
};
use fastgemma::tokenizer::Tokenizer;

fn args(list: &[&str]) -> Option<Args> {
    let v: Vec<String> = list.iter().map(|s| s.to_string()).collect();
    parse_args(&v, 3)
}

#[test]
fn arguments_have_defaults() {
    let a = args(&[]).unwrap();
    assert_eq!(a.model, None);
    assert_eq!(a.tokenizer, None);
    assert_eq!(a.addr, "127.0.0.1:8080");
    assert_eq!((a.threads, a.ctx, a.batch, a.no_download), (3, 8192, 8, false));
}

#[test]
fn arguments_are_taken_in_order() {
    let a = args(&[
        "-m", "a.fgm", "--tokenizer", "t.json", "--addr", "0.0.0.0:1", "-t", "2", "--ctx", "99",
        "-b", "+4", "--no-download", "--model", "b.fgm",
    ])
    .unwrap();
    assert_eq!(a.model.as_deref(), Some("b.fgm"));
    assert_eq!(a.tokenizer.as_deref(), Some("t.json"));
    assert_eq!(a.addr, "0.0.0.0:1");
    assert_eq!((a.threads, a.ctx, a.batch, a.no_download), (2, 99, 4, true));
}

#[test]
fn bad_arguments_ask_for_the_usage() {
    for bad in [
        &["--help"][..],
        &["-h"],
        &["--what"],
        &["--ctx"],
        &["--ctx", "x"],
        &["--ctx", "-1"],
        &["--threads", "99999999999999999999999"],
        &["model.fgm"],
    ] {
        assert!(args(bad).is_none(), "{bad:?} was understood");
    }
}

fn tk() -> Tokenizer {
    let raw = "{\"model\": {\"vocab\": {\"<bos>\": 2, \"<eos>\": 1, \"a\": 5, \"b\": 6}}}";
    match Tokenizer::load(raw) {
        Ok(t) => t,
        Err(_) => panic!("the file does not load"),
    }
}

fn ask(body: &str, ctx: usize) -> Result<Accepted, Refusal> {
    completion(body.as_bytes(), &tk(), ctx)
}

fn refusal(body: &str) -> String {
    match ask(body, 100) {
        Ok(_) => panic!("{body} was accepted"),
        Err(r) => {
            assert_eq!(r.code, 400);
            assert_eq!(r.kind, "invalid_request_error");
            r.message
        }
    }
}

#[test]
fn requests_are_carried_out_as_asked() {
    let a = match ask("{\"prompt\": \"ab\", \"max_tokens\": 7, \"stream\": true, \"stop\": [\"x\", 3, \"y\"]}", 100) {
        Ok(a) => a,
        Err(r) => panic!("{}", r.message),
    };
    assert_eq!(a.job.toks, vec![2, 5, 6]);
    assert_eq!(a.job.max_tokens, 7);
    assert_eq!(a.job.stops, vec!["x".to_string(), "y".to_string()]);
    assert!(a.stream);
    let b = match ask("{\"prompt\": \"\", \"temperature\": 0, \"top_p\": 1.0, \"n\": 1, \"echo\": null}", 100) {
        Ok(b) => b,
        Err(r) => panic!("{}", r.message),
    };
    assert_eq!(b.job.toks, vec![2]);
    assert_eq!(b.job.max_tokens, 64);
    assert!(b.job.stops.is_empty());
    assert!(!b.stream);
}

/// What is not implemented is refused, not ignored.
#[test]
fn unsupported_requests_are_refused() {
    let cases = [
        ("\"n\": 2", "n > 1 is not supported"),
        ("\"temperature\": 0.8", "only greedy decoding is implemented; temperature must be 0"),
        ("\"top_p\": 0.9", "only greedy decoding is implemented; top_p must be 1"),
        ("\"logprobs\": 1", "`logprobs` is not supported"),
        ("\"echo\": false", "`echo` is not supported"),
        ("\"best_of\": 1", "`best_of` is not supported"),
        ("\"suffix\": \"\"", "`suffix` is not supported"),
        ("\"logit_bias\": {}", "`logit_bias` is not supported"),
    ];
    for (f, want) in cases {
        assert_eq!(refusal(&format!("{{\"prompt\": \"a\", {f}}}")), want);
    }
}

#[test]
fn prompts_are_text() {
    let want = "`prompt` must be a string (token-id arrays are not accepted)";
    assert_eq!(refusal("{\"prompt\": [1, 2]}"), want);
    assert_eq!(refusal("{}"), want);
    assert_eq!(refusal("[]"), want);
}

#[test]
fn bodies_are_json() {
    assert!(refusal("{\"prompt\": ").starts_with("invalid JSON: "));
    assert!(refusal("").starts_with("invalid JSON: EOF"));
}

/// A request fits the context, or is refused with the numbers.
#[test]
fn requests_fit_the_context() {
    assert!(ask("{\"prompt\": \"ab\", \"max_tokens\": 7}", 10).is_ok());
    match ask("{\"prompt\": \"ab\", \"max_tokens\": 8}", 10) {
        Ok(_) => panic!("accepted"),
        Err(r) => assert_eq!(
            r.message,
            "prompt is 3 tokens and max_tokens is 8, which exceeds the 10-token context \
             this server was started with (--ctx)"
        ),
    }
    // a sum that no machine word holds
    assert!(ask("{\"prompt\": \"a\", \"max_tokens\": 18446744073709551615}", 10).is_err());
}

#[test]
fn fields_are_read_from_values() {
    let j = object(vec![field("stop", string("end")), field("n", number(1))]);
    assert_eq!(stops_from(&j), vec!["end".to_string()]);
    assert_eq!(unsupported(&j), None);
    let j = object(vec![field("stop", Json::Null), field("n", number(3))]);
    assert!(stops_from(&j).is_empty());
    assert_eq!(unsupported(&j).as_deref(), Some("n > 1 is not supported"));
}

#[test]
fn routes() {
    assert!(matches!(route("POST", "/v1/completions"), Route::Completions));
    assert!(matches!(route("POST", "/v1/completions?x=1"), Route::Completions));
    assert!(matches!(route("GET", "/v1/models"), Route::Models));
    assert!(matches!(route("GET", "/health?"), Route::Health));
    assert!(matches!(route("OPTIONS", "/anything"), Route::Options));
    match route("GET", "/v1/completions?x") {
        Route::Unknown(m) => assert_eq!(
            m,
            "no route for GET /v1/completions; this server implements /v1/completions only"
        ),
        _ => panic!("routed"),
    }
}

fn body_of(out: &[u8]) -> (String, String) {
    let s = String::from_utf8(out.to_vec()).unwrap();
    let (head, body) = s.split_once("\r\n\r\n").unwrap();
    (head.to_string(), body.to_string())
}

#[test]
fn responses_carry_their_length() {
    let (head, body) = body_of(&respond(200, "text/plain", b"ok\n"));
    assert_eq!(
        head,
        "HTTP/1.1 200 OK\r\nContent-Type: text/plain\r\nContent-Length: 3\r\n\
         Access-Control-Allow-Origin: *\r\nConnection: close"
    );
    assert_eq!(body, "ok\n");
    let (head, _) = body_of(&respond(413, "text/plain", b""));
    assert!(head.starts_with("HTTP/1.1 413 Payload Too Large\r\n"));
    let (head, _) = body_of(&respond(302, "text/plain", b""));
    assert!(head.starts_with("HTTP/1.1 302 OK\r\n"));
}

#[test]
fn errors_are_json() {
    let (head, body) = body_of(&json_error(404, "no \"x\"", "invalid_request_error"));
    assert!(head.starts_with("HTTP/1.1 404 Not Found\r\nContent-Type: application/json\r\n"));
    assert_eq!(body, "{\"error\":{\"message\":\"no \\\"x\\\"\",\"type\":\"invalid_request_error\"}}");
}

#[test]
fn models_lists_the_loaded_one() {
    let (_, body) = body_of(&respond_json(200, &models("g4e2b")));
    assert_eq!(
        body,
        "{\"data\":[{\"id\":\"g4e2b\",\"object\":\"model\",\"owned_by\":\"fastgemma\"}],\
         \"object\":\"list\"}"
    );
}

#[test]
fn event_streams_are_framed() {
    let (head, body) = body_of(&sse_open());
    assert_eq!(
        head,
        "HTTP/1.1 200 OK\r\nContent-Type: text/event-stream\r\nCache-Control: no-cache\r\n\
         Access-Control-Allow-Origin: *\r\nConnection: close"
    );
    assert_eq!(body, "");
    assert_eq!(sse_send(&Json::Bool(true)), b"data: true\n\n".to_vec());
    // a line break in a text does not end the event
    assert_eq!(sse_send(&string("a\n\nb")), b"data: \"a\\n\\nb\"\n\n".to_vec());
    assert_eq!(sse_done(), b"data: [DONE]\n\n".to_vec());
}

#[test]
fn heads_are_read_line_by_line() {
    let mut h = Head::start("POST  /v1/completions HTTP/1.1\r\n").unwrap();
    assert_eq!((h.method.as_str(), h.path.as_str(), h.len), ("POST", "/v1/completions", 0));
    assert!(!h.line("Host: x\r\n"));
    assert!(!h.line("CONTENT-length:  12 \r\n"));
    assert!(!h.line("no colon here\r\n"));
    assert_eq!(h.len, 12);
    assert!(h.line("\r\n"));
    assert!(h.check(12).is_ok());
    assert_eq!(
        h.check(11),
        Err("request body 12 bytes exceeds the 11-byte limit".to_string())
    );
    h.line("Content-Length: many");
    assert_eq!(h.len, 0);
    h.line("Content-Length: 2");
    let r = h.with_body(b"{}".to_vec());
    assert_eq!((r.method.as_str(), r.path.as_str(), r.body), ("POST", "/v1/completions", b"{}".to_vec()));
    assert!(Head::start("GET\r\n").is_none());
    assert!(Head::start("\r\n").is_none());
}

fn reply(stream: bool) -> Reply {
    Reply::new(stream, "cmpl-1".to_string(), 77, "m".to_string())
}

#[test]
fn whole_answers_come_at_the_end() {
    let mut r = reply(false);
    assert!(r.open().is_empty());
    for t in ["Par", "is"] {
        let s = r.on(Event::Text(t.to_string()));
        assert!(s.out.is_empty() && !s.done);
    }
    let s = r.on(Event::Done { finish: "stop", prompt_tokens: 3, completion_tokens: 2 });
    assert!(s.done);
    let (head, body) = body_of(&s.out);
    assert!(head.starts_with("HTTP/1.1 200 OK\r\nContent-Type: application/json\r\n"));
    assert_eq!(
        body,
        "{\"choices\":[{\"finish_reason\":\"stop\",\"index\":0,\"logprobs\":null,\
         \"text\":\"Paris\"}],\"created\":77,\"id\":\"cmpl-1\",\"model\":\"m\",\
         \"object\":\"text_completion\",\"usage\":{\"completion_tokens\":2,\
         \"prompt_tokens\":3,\"total_tokens\":5}}"
    );
}

#[test]
fn streamed_answers_come_in_pieces() {
    let mut r = reply(true);
    assert_eq!(r.open(), sse_open());
    let s = r.on(Event::Text("hi".to_string()));
    assert!(!s.done);
    assert_eq!(
        String::from_utf8(s.out).unwrap(),
        "data: {\"choices\":[{\"finish_reason\":null,\"index\":0,\"text\":\"hi\"}],\
         \"created\":77,\"id\":\"cmpl-1\",\"model\":\"m\",\"object\":\"text_completion\"}\n\n"
    );
    let s = r.on(Event::Done { finish: "length", prompt_tokens: 1, completion_tokens: 1 });
    assert!(s.done);
    let text = String::from_utf8(s.out).unwrap();
    assert!(text.contains("\"finish_reason\":\"length\""));
    assert!(text.contains("\"total_tokens\":2"));
    assert!(text.ends_with("}\n\ndata: [DONE]\n\n"));
}

#[test]
fn failures_are_told() {
    let s = reply(true).on(Event::Error("broken".to_string()));
    assert!(s.done);
    assert_eq!(
        String::from_utf8(s.out).unwrap(),
        "data: {\"error\":{\"message\":\"broken\"}}\n\ndata: [DONE]\n\n"
    );
    let s = reply(false).on(Event::Error("broken".to_string()));
    assert!(body_of(&s.out).1.contains("\"message\":\"broken\""));
    // an engine that stopped before the end
    let s = reply(true).closed();
    assert!(s.done);
    assert_eq!(
        String::from_utf8(s.out).unwrap(),
        "data: {\"error\":{\"message\":\"engine stopped mid-request\"}}\n\ndata: [DONE]\n\n"
    );
    let s = reply(false).closed();
    assert!(s.done);
    let (head, body) = body_of(&s.out);
    assert!(head.starts_with("HTTP/1.1 500 Internal Server Error\r\n"));
    assert!(body.contains("engine stopped mid-request"));
}

#[test]
fn completions_are_named_by_the_clock() {
    assert_eq!(completion_id(0), "cmpl-0");
    assert_eq!(completion_id(0xdead_beef), "cmpl-deadbeef");
    assert_eq!(completion_id(255), format!("cmpl-{:x}", 255));
}

#[test]
fn a_tokenizer_has_to_cover_the_model() {
    assert_eq!(vocabulary_flaw(8, 8), None);
    assert_eq!(vocabulary_flaw(9, 8), None);
    assert_eq!(
        vocabulary_flaw(7, 8).as_deref(),
        Some(
            "tokenizer has 7 entries but the model expects 8 — \
             these files are not from the same checkpoint"
        )
    );
}

#[test]
fn values_are_read_and_refused() {
    let Ok(Json::Arr(v)) = parse("[1.50, \"a\", null]") else { panic!("a list") };
    assert!(matches!(&v[0], Json::Num(n) if n == "1.5"));
    assert_eq!(v[1].as_str(), Some("a"));
    assert!(v[2].is_null());
    assert!(parse("[1").is_err());
}
