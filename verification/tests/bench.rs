//! The benchmark driver: prompts, schemas, walks and decoding.

use fastgemma::bench::{
    end_ids, id_list, load_toolspec, lookup, number_or, parse_ids, parse_prompts, parse_sizes, pick_token,
    reachable, run_lengths, sibling_bench, synth_tokens, walk_call, Decoder, Flaw, Rules, Step,
    ToolspecError, Want,
};
use fastgemma::grammar::constraint::NEG_INFINITY;
use fastgemma::grammar::{
    load_vocab_bytes, parse_call, render, synthetic_tools, tool_index, Constraint, Delims,
    GrammarBuilder, ParamType, VocabError,
};

// ---------------------------------------------------------------- prompts
#[test]
fn synthetic_prompts_are_the_same_every_time() {
    let a = synth_tokens(64, 7);
    assert_eq!(a.len(), 64);
    assert_eq!(a[..10], synth_tokens(10, 7)[..]);
    assert!(a.iter().all(|t| (1000..201_000).contains(t)));
    assert_ne!(a, synth_tokens(64, 8));
    let mut s = 7u64.wrapping_mul(6364136223846793005).wrapping_add(1);
    for t in a {
        s = s.wrapping_mul(6364136223846793005).wrapping_add(1442695040888963407);
        assert_eq!(t, 1000 + ((s >> 33) % 200_000) as u32);
    }
}

#[test]
fn prompts_are_lists_of_ids() {
    assert_eq!(parse_ids("1,22,+333"), Some(vec![1, 22, 333]));
    assert_eq!(parse_ids("4294967295"), Some(vec![u32::MAX]));
    for bad in ["", "1,", "1, 2", "4294967296", "x", "-1"] {
        assert_eq!(parse_ids(bad), None, "{bad:?} was read");
    }
    assert_eq!(end_ids(None), vec![1, 106]);
    assert_eq!(end_ids(Some("5,x,,7")), vec![5, 7]);
    assert_eq!(
        parse_prompts("1,2\r\n\n  3 \n"),
        Some(vec![vec![1, 2], vec![3]])
    );
    assert_eq!(parse_prompts("1,2\nx\n3"), None);
    assert_eq!(parse_prompts("\n \n"), Some(vec![]));
}

/// What is written reads back.
#[test]
fn written_ids_read_back() {
    assert_eq!(id_list(&vec![]), "");
    assert_eq!(id_list(&vec![7, 0, 4294967295]), "7,0,4294967295");
    let ids = synth_tokens(50, 3);
    assert_eq!(parse_ids(&id_list(&ids)), Some(ids));
}

#[test]
fn settings_have_defaults() {
    assert_eq!(number_or(None, 8), 8);
    assert_eq!(number_or(Some("12"), 8), 12);
    assert_eq!(number_or(Some("-1"), 8), 8);
    assert_eq!(number_or(Some("99999999999999999999999999"), 8), 8);
}

#[test]
fn other_benches_are_known_by_name() {
    assert_eq!(sibling_bench(10, "11", "fgm-bench\n"), Some(11));
    assert_eq!(sibling_bench(10, "10", "fgm-bench\n"), None);
    assert_eq!(sibling_bench(10, "self", "fgm-bench\n"), None);
    assert_eq!(sibling_bench(10, "11", "bash\n"), None);
}

// ---------------------------------------------------------------- schemas
#[test]
fn schemas_declare_tools() {
    let raw = "[{\"name\": \"f\", \"params\": [\
        {\"name\": \"a\"}, \
        {\"name\": \"b\", \"type\": \"INTEGER\", \"required\": false}, \
        {\"name\": \"c\", \"type\": \"NUMBER\"}, \
        {\"name\": \"d\", \"type\": \"BOOLEAN\", \"enum\": [1]}, \
        {\"name\": \"e\", \"type\": \"STRING\", \"enum\": [\"x\", \"y\"]}, \
        {\"name\": \"g\", \"type\": 3, \"enum\": {}}]}, \
        {\"name\": \"h\", \"params\": []}]";
    let Ok(tools) = load_toolspec(raw) else { panic!("no tools") };
    assert_eq!(tools.len(), 2);
    assert_eq!((tools[0].name.as_str(), tools[1].name.as_str()), ("f", "h"));
    let ty: Vec<&ParamType> = tools[0].params.iter().map(|p| &p.ty).collect();
    assert_eq!(ty[0], &ParamType::Str);
    assert_eq!(ty[1], &ParamType::Int);
    assert_eq!(ty[2], &ParamType::Num);
    assert_eq!(ty[3], &ParamType::Bool);
    assert_eq!(ty[4], &ParamType::Enum(vec!["x".to_string(), "y".to_string()]));
    assert_eq!(ty[5], &ParamType::Str);
    let req: Vec<bool> = tools[0].params.iter().map(|p| p.required).collect();
    assert_eq!(req, [true, false, true, true, true, true]);
}

fn flaw(raw: &str) -> Flaw {
    match load_toolspec(raw) {
        Err(ToolspecError::Flawed(f)) => f,
        _ => panic!("no flaw in {raw}"),
    }
}

#[test]
fn schemas_with_flaws_are_refused() {
    assert!(matches!(load_toolspec("["), Err(ToolspecError::NotJson(_))));
    assert!(flaw("{}") == Flaw::NotAList);
    assert!(flaw("[{\"params\": []}]") == Flaw::ToolName);
    assert!(flaw("[3]") == Flaw::ToolName);
    assert!(flaw("[{\"name\": \"f\"}]") == Flaw::ToolParams);
    assert!(flaw("[{\"name\": \"f\", \"params\": [{}]}]") == Flaw::ParamName);
    assert!(
        flaw("[{\"name\": \"f\", \"params\": [{\"name\": \"a\", \"enum\": [1]}]}]")
            == Flaw::EnumValue
    );
    // the first one counts
    assert!(flaw("[{\"name\": \"f\"}, 3]") == Flaw::ToolParams);
}

// ---------------------------------------------------------------- walks
/// The three delimiters, and every printable byte as a token of its own.
fn vocab() -> Vec<Vec<u8>> {
    let mut v: Vec<Vec<u8>> = vec![Vec::new(); 64];
    for b in 0x20..0x7f {
        v.push(vec![b]);
    }
    v
}

fn constraint(ntools: usize, nparams: usize) -> Constraint {
    Constraint::compile(GrammarBuilder::build(&synthetic_tools(ntools, nparams)), &vocab())
}

#[test]
fn every_tool_can_be_begun() {
    let c = constraint(12, 4);
    for t in synthetic_tools(12, 4) {
        assert!(reachable(&c, &t.name), "unreachable: {}", t.name);
    }
    assert!(!reachable(&c, "tool_12"));
    assert!(!reachable(&c, "tool"));
}

/// A walk that always takes the first token that gets it on spells a call.
#[test]
fn walks_spell_calls() {
    let c = constraint(12, 4);
    let v = vocab();
    let w = walk_call(&c, &v, false, 4096);
    assert!(c.accepting(w.end));
    let ids: Vec<u32> = w.tokens.iter().map(|t| *t as u32).collect();
    let text = render(&ids, &v, Delims::gemma4());
    let call = parse_call(&text).expect("the walk spells no call");
    assert_eq!(call.args.len(), 4);
    let runs = run_lengths(&w.forced);
    let forced = w.forced.iter().filter(|f| **f).count();
    assert_eq!(runs.iter().sum::<usize>(), forced);
    assert!(forced > 10);
    let strict = walk_call(&c, &v, true, 4096);
    assert!(c.accepting(strict.end));
    assert_eq!(walk_call(&c, &v, false, 3).tokens.len(), 3);
    assert_eq!(pick_token(&c, &v, false, c.start()), Some(48));
}

#[test]
fn runs_are_counted() {
    let f = |s: &str| run_lengths(&s.chars().map(|c| c == '1').collect());
    assert_eq!(f("1101011100"), vec![2, 1, 3]);
    assert_eq!(f("011"), vec![2]);
    assert_eq!(f("000"), Vec::<usize>::new());
}

#[test]
fn tools_are_found_by_name() {
    let m = tool_index(&synthetic_tools(3, 1));
    assert_eq!(m.get("tool_2"), Some(&2));
    assert_eq!(m.get("tool_3"), None);
}

#[test]
fn vocabularies_give_bytes() {
    let raw = "{\"model\": {\"vocab\": {\"<pad>\": 1, \"\u{2581}a\": 3}}, \
               \"added_tokens\": [{\"id\": 1}, {\"id\": 5}]}";
    let Ok(v) = load_vocab_bytes(raw) else { panic!("no vocabulary") };
    assert_eq!(v.len(), 6);
    assert_eq!(v[3], b" a".to_vec());
    // a control token is never text
    assert!(v[1].is_empty() && v[5].is_empty());
    assert!(matches!(load_vocab_bytes("x"), Err(VocabError::NotJson(_))));
    assert!(matches!(load_vocab_bytes("{}"), Err(VocabError::NoVocab)));
    assert!(matches!(
        load_vocab_bytes("{\"model\": {\"vocab\": {\"a\": -1}}}"),
        Err(VocabError::BadId)
    ));
}

#[test]
fn masks_rule_out_what_may_not_stand() {
    let c = constraint(2, 1);
    let mut logits = vec![7u32; vocab().len()];
    c.apply(&mut logits);
    for (t, x) in logits.iter().enumerate() {
        assert_eq!(*x, if t == 48 { 7 } else { NEG_INFINITY });
    }
    assert_eq!(f32::from_bits(NEG_INFINITY), f32::NEG_INFINITY);
}

// ---------------------------------------------------------------- decoding
#[test]
fn drafts_come_from_the_prompt() {
    let p = vec![1, 2, 3, 4, 1, 2, 5, 6];
    assert_eq!(lookup(&p, &vec![9, 1, 2], 3), vec![5, 6]);
    assert_eq!(lookup(&p, &vec![9, 1, 2], 1), vec![5]);
    assert_eq!(lookup(&p, &vec![3, 4], 2), vec![1, 2]);
    assert_eq!(lookup(&p, &vec![5, 6], 2), Vec::<u32>::new());
    assert_eq!(lookup(&p, &vec![2], 2), Vec::<u32>::new());
    assert_eq!(lookup(&p, &vec![1, 2], 0), Vec::<u32>::new());
}

/// A model whose logits depend on everything before, so that a wrong context
/// shows in what it chooses.
fn logits(context: &[u32], n: usize) -> Vec<u32> {
    let mut h = 0xcbf29ce484222325u64;
    for t in context {
        h = (h ^ (*t as u64)).wrapping_mul(0x100000001b3);
    }
    (0..n as u64)
        .map(|i| {
            let x = (h ^ i).wrapping_mul(0x9e3779b97f4a7c15) >> 40;
            ((x % 1000) as f32).to_bits()
        })
        .collect()
}

fn argmax(v: &[u32]) -> u32 {
    let mut best = (0usize, f32::NEG_INFINITY);
    for (i, x) in v.iter().enumerate() {
        if f32::from_bits(*x) > best.1 {
            best = (i, f32::from_bits(*x));
        }
    }
    best.0 as u32
}

/// Runs a decoder against the model, and counts the forwards.
fn decode(rules: Rules, n: usize) -> (Vec<u32>, usize) {
    let mut seen = rules.prompt.clone();
    let mut first = logits(&seen, n);
    if let Some(c) = &rules.con {
        c.apply_at(c.start(), &mut first);
    }
    let mut d = Decoder::new(rules, argmax(&first));
    let mut forwards = 0;
    loop {
        match d.next() {
            Step::Done => return (d.out, forwards),
            Step::Forward { batch, pos, want } => {
                forwards += 1;
                seen.truncate(pos);
                assert_eq!(seen.len(), pos, "a position was skipped");
                let base = seen.clone();
                seen.extend(&batch);
                let mut row = match want {
                    Want::Nothing => None,
                    Want::Last => {
                        assert_eq!(batch.len(), 1);
                        Some(0)
                    }
                    Want::All => Some(0),
                };
                while let Some(r) = row {
                    let mut ctx = base.clone();
                    ctx.extend(&batch[..r + 1]);
                    let mut v = logits(&ctx, n);
                    d.mask(&mut v);
                    row = d.choose_token(argmax(&v));
                }
            }
        }
    }
}

fn rules(con: bool, prompt: &[u32], batch_forced: bool, lookahead: usize) -> Rules {
    Rules {
        con: if con { Some(constraint(12, 4)) } else { None },
        prompt: prompt.to_vec(),
        eos: vec![1],
        ngen: 200,
        batch_forced,
        lookahead,
    }
}

/// Taking several tokens at once saves forwards and changes nothing.
#[test]
fn batches_are_invisible() {
    let n = vocab().len();
    for seed in 0..6 {
        let prompt: Vec<u32> = synth_tokens(30, seed).iter().map(|t| 64 + t % 90).collect();
        let (plain, steps) = decode(rules(true, &prompt, false, 0), n);
        if plain.len() < 200 {
            let text = render(&plain, &vocab(), Delims::gemma4());
            assert!(parse_call(&text).is_some(), "{text} is no call");
        }
        let (batched, fewer) = decode(rules(true, &prompt, true, 0), n);
        assert_eq!(batched, plain);
        assert!(fewer < steps);
        // a prompt that holds the output: every draft is accepted
        let mut knowing = prompt.clone();
        knowing.extend(&plain);
        let (alone, _) = decode(rules(true, &knowing, false, 0), n);
        for (forced, ahead) in [(false, 1), (false, 4), (true, 4), (false, 50)] {
            let (out, _) = decode(rules(true, &knowing, forced, ahead), n);
            assert_eq!(out, alone);
        }
    }
}

#[test]
fn drafts_are_verified() {
    // without a constraint, over few tokens, so that drafts are found and refused
    for seed in 0..40 {
        let prompt: Vec<u32> = synth_tokens(60, seed).iter().map(|t| 2 + t % 4).collect();
        let (plain, steps) = decode(rules(false, &prompt, false, 0), 6);
        assert_eq!(steps, plain.len());
        for ahead in [1, 2, 5] {
            let (out, forwards) = decode(rules(false, &prompt, true, ahead), 6);
            assert_eq!(out, plain);
            assert!(forwards <= steps);
        }
    }
}

#[test]
fn outputs_end() {
    // an end token is not emitted
    let mut d = Decoder::new(rules(false, &[5], false, 0), 1);
    assert!(matches!(d.next(), Step::Done));
    assert!(d.out.is_empty());
    // neither is anything beyond the limit
    let mut r = rules(false, &[5], false, 0);
    r.ngen = 1;
    let mut d = Decoder::new(r, 7);
    match d.next() {
        Step::Forward { batch, pos, want } => {
            assert_eq!((batch, pos), (vec![7], 1));
            assert!(want == Want::Last);
        }
        Step::Done => panic!("nothing was emitted"),
    }
    assert_eq!(d.choose_token(8), None);
    assert!(matches!(d.next(), Step::Done));
    assert_eq!(d.out, vec![7]);
}

#[test]
fn sizes_are_written_as_a_list() {
    assert_eq!(parse_sizes("128,+256,5000000000"), Some(vec![128, 256, 5000000000]));
    assert_eq!(parse_sizes("128,"), None);
    assert_eq!(parse_sizes(""), None);
    assert_eq!(parse_sizes("1,-2"), None);
}
