//! The scheduler: what is prefilled, what is emitted, what clients hear.

use fastgemma::engine::slot::{emit, finish};
use fastgemma::engine::{
    lcp, prefill_chunks, reuse_len, run, share_len, stable_len, Action, Admission, Config, Engine,
    Event, Job, Reply, Run, Slot,
};
use fastgemma::tokenizer::Tokenizer;

/// Ids 0 to 255 are the bytes, 256 ends an output, 257 is a control token.
fn tk() -> Tokenizer {
    let mut vocab = String::from("\"<eos>\": 256");
    for b in 0..256 {
        vocab.push_str(&format!(", \"<0x{b:02X}>\": {b}"));
    }
    let raw = format!(
        "{{\"model\": {{\"vocab\": {{{vocab}}}}}, \
         \"added_tokens\": [{{\"id\": 257, \"content\": \"<c>\"}}]}}"
    );
    match Tokenizer::load(&raw) {
        Ok(t) => t,
        Err(_) => panic!("the file does not load"),
    }
}

fn cfg(ctx: usize, batch: usize) -> Config {
    Config { ctx, batch, threads: 1, prefill_chunk: 4, prefix_min: 4 }
}

fn job(toks: &[u32], max_tokens: usize, stops: &[&str]) -> Job {
    Job { toks: toks.to_vec(), max_tokens, stops: stops.iter().map(|s| s.to_string()).collect() }
}

fn heard(events: &[Event]) -> String {
    let mut s = String::new();
    for e in events {
        if let Event::Text(t) = e {
            s.push_str(t);
        }
    }
    s
}

fn ending(events: &[Event]) -> Option<(&'static str, usize, usize)> {
    match events.last() {
        Some(Event::Done { finish, prompt_tokens, completion_tokens }) => {
            Some((finish, *prompt_tokens, *completion_tokens))
        }
        _ => None,
    }
}

/// Runs one request whose model chooses these tokens one after another.
fn play(ctx: usize, j: Job, chosen: &[u32]) -> (String, Option<(&'static str, usize, usize)>) {
    let k = tk();
    let mut e = Engine::new(cfg(ctx, 1));
    e.place(0, j, chosen[0], None, &k);
    let mut all = Vec::new();
    for t in chosen[1..].iter().chain([&0u32]) {
        all.extend(e.emit(0, &k));
        if e.active().is_empty() {
            break;
        }
        let b = e.batch();
        assert_eq!((b.seq.len(), b.tokens.len(), b.pos.len()), (1, 1, 1));
        all.extend(e.commit(0, *t, &k));
        if e.active().is_empty() {
            break;
        }
    }
    (heard(&all), ending(&all))
}

fn bytes(s: &str) -> Vec<u32> {
    s.bytes().map(|b| b as u32).collect()
}

#[test]
fn an_end_token_ends_the_request() {
    let mut t = bytes("Paris");
    t.push(256);
    assert_eq!(play(100, job(&[1, 2], 50, &[]), &t), ("Paris".into(), Some(("stop", 2, 5))));
}

#[test]
fn the_limit_ends_the_request() {
    assert_eq!(
        play(100, job(&[1, 2], 3, &[]), &bytes("Paris")),
        ("Par".into(), Some(("length", 2, 3)))
    );
    assert_eq!(play(100, job(&[1], 0, &[]), &bytes("P")), ("".into(), Some(("length", 1, 0))));
}

#[test]
fn a_stop_string_cuts_the_text() {
    assert_eq!(
        play(100, job(&[1], 50, &["\n\n", " "]), &bytes("This is it")),
        ("This".into(), Some(("stop", 1, 5)))
    );
    // the one that stands first counts, whatever their order
    let k = tk();
    let s = Slot {
        job: job(&[1], 50, &["cd", "bcd"]),
        out_ids: bytes("abc"),
        text: "abc".to_string(),
        sent: 1,
        pos: 4,
        tok: 0x64,
    };
    let (left, events) = emit(s, &k);
    assert!(left.is_none());
    assert_eq!(heard(&events), "");
    assert_eq!(ending(&events), Some(("stop", 1, 4)));
}

/// What was sent before a stop string showed cannot be taken back.
#[test]
fn what_was_heard_stays_heard() {
    assert_eq!(
        play(100, job(&[1], 50, &["abc"]), &bytes("abc")),
        ("ab".into(), Some(("stop", 1, 3)))
    );
}

#[test]
fn the_context_ends_the_request() {
    // positions 2 to 6 of 8: the last but one ends it
    assert_eq!(
        play(8, job(&[1, 2], 6, &[]), &bytes("abcdefgh")),
        ("abcde".into(), Some(("length", 2, 5)))
    );
}

/// Half a character is held back until its tail arrives.
#[test]
fn characters_are_sent_whole() {
    let k = tk();
    let mut s = Slot {
        job: job(&[1], 50, &[]),
        out_ids: Vec::new(),
        text: String::new(),
        sent: 0,
        pos: 1,
        tok: 0,
    };
    let mut pieces = Vec::new();
    for b in "aé日🎉".bytes() {
        s.tok = b as u32;
        let (left, events) = emit(s, &k);
        pieces.push(heard(&events));
        s = left.unwrap();
    }
    assert_eq!(pieces, ["a", "", "é", "", "", "日", "", "", "", "🎉"]);
    let events = finish(s, "length");
    assert_eq!(ending(&events), Some(("length", 1, 10)));
    assert_eq!(events.len(), 1);
}

/// What is held back is told at the end.
#[test]
fn the_rest_is_told_at_the_end() {
    let (text, end) = play(100, job(&[1], 2, &[]), &[0x61, 0xc3, 0x61]);
    assert_eq!(text, "a\u{fffd}");
    assert_eq!(end, Some(("length", 1, 2)));
}

#[test]
fn control_tokens_are_not_text() {
    let (text, _) = play(100, job(&[1], 3, &[]), &[0x61, 257, 0x62, 0]);
    assert_eq!(text, "ab");
}

#[test]
fn settled_text_ends_before_replacements() {
    let len = |s: &str| stable_len(&s.chars().collect());
    assert_eq!(len("abc"), 3);
    assert_eq!(len("ab\u{fffd}\u{fffd}"), 2);
    assert_eq!(len("a\u{fffd}b"), 3);
    assert_eq!(len("\u{fffd}"), 0);
    assert_eq!(len(""), 0);
}

#[test]
fn slots_are_filled_from_the_front() {
    let k = tk();
    let mut e = Engine::new(cfg(100, 2));
    assert!(matches!(e.admission(), Admission::Wait(0)));
    e.place(0, job(&[1, 2, 3], 9, &[]), 65, None, &k);
    assert!(matches!(e.admission(), Admission::Poll(1)));
    e.place(1, job(&[7], 9, &[]), 66, None, &k);
    assert!(matches!(e.admission(), Admission::Full));
    assert_eq!(e.active(), vec![0, 1]);
    let b = e.batch();
    assert_eq!(b.tokens, vec![65, 66]);
    assert_eq!(b.seq, vec![0, 1]);
    assert_eq!(b.pos, vec![3, 1]);
    e.emit(0, &k);
    e.commit(0, 256, &k);
    assert_eq!(ending(&e.emit(0, &k)), Some(("stop", 3, 1)));
    assert_eq!(e.active(), vec![1]);
    assert!(matches!(e.admission(), Admission::Poll(0)));
}

#[test]
fn common_beginnings() {
    assert_eq!(lcp(&[1, 2, 3], &[1, 2, 4]), 2);
    assert_eq!(lcp(&[1, 2], &[1, 2, 4]), 2);
    assert_eq!(lcp(&[], &[1]), 0);
}

/// Chunks cover the prompt; from a whole number of chunks on they are the same.
#[test]
fn chunks_cover_the_prompt() {
    assert_eq!(prefill_chunks(0, 10, 4), vec![(0, 4), (4, 4), (8, 2)]);
    assert_eq!(prefill_chunks(8, 10, 4), vec![(8, 2)]);
    assert_eq!(prefill_chunks(3, 3, 4), vec![]);
    let mut joined = prefill_chunks(0, 8, 4);
    joined.extend(prefill_chunks(8, 10, 4));
    assert_eq!(joined, prefill_chunks(0, 10, 4));
}

#[test]
fn shared_beginnings_are_reused_whole() {
    let p = Some(vec![1, 2, 3]);
    assert_eq!(reuse_len(&p, &[1, 2, 3, 4]), 3);
    // one token has to be left
    assert_eq!(reuse_len(&p, &[1, 2, 3]), 0);
    assert_eq!(reuse_len(&p, &[1, 2, 4, 4]), 0);
    assert_eq!(reuse_len(&None, &[1]), 0);
}

#[test]
fn what_is_shared_is_whole_chunks() {
    let a: Vec<u32> = (0..20).collect();
    let mut b = a.clone();
    b[11] = 99;
    assert_eq!(share_len(&a, &b, 0, 0, 4, 4), Some(8));
    // covered already, reused, too short, or turned off
    assert_eq!(share_len(&a, &b, 8, 0, 4, 4), None);
    assert_eq!(share_len(&a, &b, 0, 4, 4, 4), None);
    assert_eq!(share_len(&a, &b, 0, 0, 4, 9), None);
    assert_eq!(share_len(&a, &b, 0, 0, 4, 0), None);
    // short of the last token
    assert_eq!(share_len(&a[..8], &a, 0, 0, 4, 4), Some(4));
}

#[test]
fn plans_follow_the_prompts_before() {
    let k = tk();
    let mut e = Engine::new(cfg(100, 3));
    let a: Vec<u32> = (10..20).collect();
    let p = e.plan(&a);
    assert_eq!((p.reuse, p.share), (0, None));
    e.place(0, job(&a, 5, &[]), 65, p.share, &k);
    let p = e.plan(&a);
    assert_eq!((p.reuse, p.share), (0, Some(8)));
    e.place(1, job(&a, 5, &[]), 65, p.share, &k);
    let p = e.plan(&a);
    assert_eq!((p.reuse, p.share), (8, None));
    assert_eq!(e.prefix.as_deref(), Some(&a[..8]));
    assert_eq!(e.last_toks, a);
}

/// Whatever ends a request, its client is told so once, at the end, and has heard
/// no stop string.
#[test]
fn requests_end_once() {
    let k = tk();
    for (ctx, max, stops, text) in [
        (100, 50, vec!["xyz"], "abc\u{100}"),
        (100, 2, vec!["c"], "abc\u{100}"),
        (100, 50, vec!["bc", "c"], "abcabc\u{100}"),
        (6, 4, vec![], "abcdef\u{100}"),
        (100, 50, vec![""], "abc\u{100}"),
    ] {
        let chosen: Vec<u32> =
            text.chars().map(|c| if c == '\u{100}' { 256 } else { c as u32 }).collect();
        let mut e = Engine::new(cfg(ctx, 1));
        e.place(0, job(&[1, 2], max, &stops), chosen[0], None, &k);
        let mut all = Vec::new();
        let mut next = 1;
        while !e.active().is_empty() {
            all.extend(e.emit(0, &k));
            if !e.active().is_empty() {
                all.extend(e.commit(0, chosen[next], &k));
                next += 1;
            }
        }
        let done = all.iter().filter(|e| matches!(e, Event::Done { .. })).count();
        assert_eq!(done, 1);
        assert!(ending(&all).is_some());
        let told = heard(&all);
        assert!(stops.iter().all(|s| s.is_empty() || !told.contains(s)), "heard {told:?}");
    }
}

/// A model whose choices depend on every token and on how they were grouped.
fn forward(cache: &mut Vec<u64>, toks: &[u32]) -> u32 {
    let mut h = cache.last().copied().unwrap_or(7);
    for t in toks {
        h = h.wrapping_mul(6364136223846793005).wrapping_add(*t as u64 + toks.len() as u64);
        cache.push(h);
    }
    97 + (h >> 33) as u32 % 20
}

/// Runs the engine's loop on requests that come when it asks for the `n`-th time;
/// returns what each client is told, and how many tokens were forked.
fn serve(prefix_min: usize, mut arrivals: Vec<(usize, Vec<u32>)>) -> (Vec<String>, usize) {
    let k = tk();
    let cfg = Config { ctx: 64, batch: 2, threads: 1, prefill_chunk: 4, prefix_min };
    let mut r = Run::new(cfg);
    let mut caches = vec![Vec::new(); 2];
    let mut shared: Vec<u64> = Vec::new();
    let mut clients = vec![0; 2];
    let mut told: Vec<String> = Vec::new();
    let (mut forked, mut asked) = (0, 0);
    let mut reply = Reply::Begin;
    loop {
        let (action, said) = run(&mut r, reply, &k);
        for (slot, events) in said {
            told[clients[slot]].push_str(&format!("{events:?}"));
        }
        reply = match action {
            Action::Receive { slot, wait } => {
                asked += 1;
                if !arrivals.is_empty() && (wait || arrivals[0].0 <= asked) {
                    let (_, toks) = arrivals.remove(0);
                    clients[slot] = told.len();
                    told.push(String::new());
                    Reply::Request(job(&toks, 9, &["g", "kk"]))
                } else {
                    Reply::Nobody
                }
            }
            Action::Prefill { slot, toks, fork, list, share } => {
                caches[slot] = if fork { shared.clone() } else { Vec::new() };
                forked += caches[slot].len();
                let mut first = 0;
                for (off, n) in list {
                    first = forward(&mut caches[slot], &toks[off..off + n]);
                }
                if let Some(list) = share {
                    shared = Vec::new();
                    for (off, n) in list {
                        forward(&mut shared, &toks[off..off + n]);
                    }
                }
                Reply::Prefilled(first)
            }
            Action::Decode(b) => {
                let rows = b.seq.iter().zip(&b.tokens);
                Reply::Chosen(rows.map(|(&i, t)| forward(&mut caches[i], &[*t])).collect())
            }
            Action::Stop => break,
        };
    }
    assert!(arrivals.is_empty() && r.e.active().is_empty());
    (told, forked)
}

/// Sharing changes nothing that any client is told.
#[test]
fn sharing_changes_no_event() {
    let head: Vec<u32> = (300..311).collect();
    let prompt = |tail: &[u32]| [&head[..], tail].concat();
    let arrivals = vec![
        (0, prompt(&[1, 2, 3])),
        (0, prompt(&[4])),
        (5, prompt(&[5, 6])),
        (6, vec![9, 9]),
        (6, prompt(&[7, 7, 7, 7, 7])),
        (20, prompt(&[1, 2, 3])),
        (20, head.clone()),
    ];
    let (plain, none) = serve(0, arrivals.clone());
    assert_eq!(none, 0);
    assert_eq!(plain.len(), 7);
    assert!(plain.iter().all(|t| t.matches("Done").count() == 1));
    for prefix_min in [1, 4, 8, 12] {
        let (told, forked) = serve(prefix_min, arrivals.clone());
        assert_eq!(told, plain);
        assert_eq!(forked > 0, prefix_min <= 8);
    }
}

/// The loop asks for requests while slots are free, and decodes in between.
#[test]
fn the_loop_asks_for_one_thing_at_a_time() {
    let k = tk();
    let mut r = Run::new(cfg(100, 2));
    let (a, told) = run(&mut r, Reply::Begin, &k);
    assert!(matches!(a, Action::Receive { slot: 0, wait: true }));
    assert!(told.is_empty());
    let (a, _) = run(&mut r, Reply::Request(job(&[1, 2, 3, 4, 5], 2, &[])), &k);
    let Action::Prefill { slot: 0, toks, fork: false, list, share: None } = a else {
        panic!("a prompt is prefilled")
    };
    assert_eq!(toks, vec![1, 2, 3, 4, 5]);
    assert_eq!(list, vec![(0, 4), (4, 1)]);
    let (a, _) = run(&mut r, Reply::Prefilled(0x61), &k);
    assert!(matches!(a, Action::Receive { slot: 1, wait: false }));
    let (a, told) = run(&mut r, Reply::Nobody, &k);
    let Action::Decode(b) = a else { panic!("the request is decoded") };
    assert_eq!((b.tokens, b.seq, b.pos), (vec![0x61], vec![0], vec![5]));
    assert_eq!(told.len(), 1);
    assert_eq!((told[0].0, heard(&told[0].1)), (0, "a".to_string()));
    let (a, told) = run(&mut r, Reply::Chosen(vec![0x62]), &k);
    assert!(matches!(a, Action::Receive { slot: 1, wait: false }));
    assert!(told.iter().all(|t| t.1.is_empty()));
    // the same prompt again: its whole chunks are shared
    let (a, _) = run(&mut r, Reply::Request(job(&[1, 2, 3, 4, 5], 2, &[])), &k);
    let Action::Prefill { slot: 1, fork: false, share: Some(share), .. } = a else {
        panic!("a beginning is shared")
    };
    assert_eq!(share, vec![(0, 4)]);
    // with every slot taken nothing is asked for
    let (a, _) = run(&mut r, Reply::Prefilled(256), &k);
    let Action::Decode(b) = a else { panic!("the request is decoded") };
    // the second request ended on its first token
    assert_eq!(b.seq, vec![0]);
    let (a, told) = run(&mut r, Reply::Chosen(vec![0x63]), &k);
    assert!(matches!(a, Action::Receive { slot: 1, wait: false }));
    assert!(told.iter().all(|t| t.1.is_empty()));
    // its limit reached, the first request ends and the engine waits
    let (a, told) = run(&mut r, Reply::Nobody, &k);
    assert!(matches!(a, Action::Receive { slot: 0, wait: true }));
    assert_eq!(ending(&told[0].1), Some(("length", 5, 2)));
    let (a, _) = run(&mut r, Reply::Nobody, &k);
    assert!(matches!(a, Action::Stop));
}
