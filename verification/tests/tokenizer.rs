//! The tokenizer, on a small vocabulary.

use fastgemma::json::Json;
use fastgemma::lossy::decode_lossy;
use fastgemma::tokenizer::cases::encode_cases;
use fastgemma::tokenizer::load::parse_byte_token;
use fastgemma::tokenizer::{LoadError, Tokenizer};

/// A tokenizer file: the control tokens and their ids, the bytes, a few pieces
/// with ids from 400 on, and merges in both notations.
fn file() -> String {
    let mut vocab = String::from("\"<pad>\": 0, \"<eos>\": 1, \"<bos>\": 2, \"<end_of_turn>\": 106");
    for b in 0..256 {
        vocab.push_str(&format!(", \"<0x{:02X}>\": {}", b, 107 + b));
    }
    for (i, p) in ["h", "e", "l", "o", "\u{2581}", "he", "ll", "hell", "hello", "\u{2581}o"]
        .iter()
        .enumerate()
    {
        vocab.push_str(&format!(", \"{}\": {}", p, 400 + i));
    }
    format!(
        "{{\"model\": {{\"vocab\": {{{vocab}}}, \
         \"merges\": [[\"h\", \"e\"], \"l l\", [\"he\", \"ll\"], [\"\u{2581}\", \"o\"], \"nothing\"]}}, \
         \"added_tokens\": [\
         {{\"id\": 48, \"content\": \"<|tool_call>\"}}, \
         {{\"id\": 49, \"content\": \"<tool_call|>\"}}, \
         {{\"id\": 52, \"content\": \"<|\\\"|>\"}}, \
         {{\"id\": 53}}]}}"
    )
}

fn tk() -> Tokenizer {
    match Tokenizer::load(&file()) {
        Ok(t) => t,
        Err(_) => panic!("the file does not load"),
    }
}

#[test]
fn round_trips() {
    let t = tk();
    for s in [
        "Hello, world!",
        "The quick brown fox jumps over the lazy dog.",
        "  leading and  doubled   spaces ",
        "unicode: éàü 日本語 🎉",
        "<|tool_call>call:get_weather{city:<|\"|>Tokyo<|\"|>}<tool_call|>",
    ] {
        let ids = t.encode(s, false);
        assert_eq!(t.decode(&ids, false), *s, "round trip failed for {s:?}");
    }
}

#[test]
fn control_tokens_are_single_ids() {
    let t = tk();
    for (s, want) in [("<|tool_call>", 48u32), ("<tool_call|>", 49), ("<|\"|>", 52)] {
        let ids = t.encode(s, false);
        assert_eq!(ids, vec![want], "{s} did not encode to one id");
    }
}

#[test]
fn size_is_one_past_the_largest_id() {
    assert_eq!(tk().vocab_size(), 410);
}

#[test]
fn bos_stands_first_where_asked_for() {
    let t = tk();
    assert_eq!(t.encode("h", true), vec![2, 400]);
    assert_eq!(t.encode("", true), vec![2]);
    assert_eq!(t.encode("", false), Vec::<u32>::new());
}

/// A text that is in the vocabulary as it stands is that one id.
#[test]
fn whole_pieces_run_no_merges() {
    assert_eq!(tk().encode("hello", false), vec![408]);
}

/// Merges run in the order of their ranks, the leftmost first.
#[test]
fn merges_run_by_rank() {
    let t = tk();
    // h e l l -> he l l -> he ll -> hell, then o and the space
    assert_eq!(t.encode("hell o", false), vec![407, 409]);
    assert_eq!(t.encode("heh", false), vec![405, 400]);
    assert_eq!(t.encode("lll", false), vec![406, 402]);
}

/// What no piece spells goes out byte by byte.
#[test]
fn unknown_characters_fall_back_to_bytes() {
    let t = tk();
    assert_eq!(t.encode("é", false), vec![107 + 0xc3, 107 + 0xa9]);
    assert_eq!(t.decode(&[107 + 0xc3, 107 + 0xa9], false), "é");
    assert_eq!(t.decode(&[107 + 0xc3], false), "\u{fffd}");
}

#[test]
fn control_tokens_can_be_left_out() {
    let t = tk();
    assert_eq!(t.decode(&[48, 400, 49], true), "h");
    assert_eq!(t.decode(&[48, 400, 49], false), "<|tool_call>h<tool_call|>");
    // ids that nothing stands for
    assert_eq!(t.decode(&[60, 9999], false), "");
}

/// Text around a control token is encoded on its own.
#[test]
fn control_tokens_split_the_text() {
    let t = tk();
    assert_eq!(t.encode("hello<|tool_call>hello", false), vec![408, 48, 408]);
}

#[test]
fn end_tokens_are_known() {
    let t = tk();
    assert!(t.is_eos(1));
    assert!(t.is_eos(106));
    assert!(!t.is_eos(2));
    assert!(!t.is_eos(400));
    let plain = Tokenizer::load("{\"model\": {\"vocab\": {\"a\": 5}}}");
    let Ok(plain) = plain else { panic!("a vocabulary is enough") };
    // without them, id 1 ends an output and id 2 begins a prompt
    assert!(plain.is_eos(1));
    assert_eq!(plain.encode("a", true), vec![2, 5]);
}

#[test]
fn files_without_a_vocabulary_are_refused() {
    assert!(matches!(Tokenizer::load("{"), Err(LoadError::NotJson(_))));
    assert!(matches!(Tokenizer::load("{}"), Err(LoadError::NoVocab)));
    assert!(matches!(Tokenizer::load("{\"model\": {\"vocab\": [1]}}"), Err(LoadError::NoVocab)));
}

#[test]
fn byte_tokens_are_two_hex_digits() {
    assert_eq!(parse_byte_token("<0x41>"), Some(0x41));
    assert_eq!(parse_byte_token("<0xfF>"), Some(0xff));
    assert_eq!(parse_byte_token("<0x4>"), None);
    assert_eq!(parse_byte_token("<0x041>"), None);
    assert_eq!(parse_byte_token("<0xG1>"), None);
    assert_eq!(parse_byte_token("0x41"), None);
    assert_eq!(parse_byte_token("<0x+A>"), None);
    assert_eq!(parse_byte_token("<0x-1>"), None);
    assert_eq!(parse_byte_token("<0x 1>"), None);
}

/// What only looks like a byte token is a piece like any other.
#[test]
fn near_byte_tokens_are_pieces() {
    let t = Tokenizer::load("{\"model\": {\"vocab\": {\"<0x+A>\": 3, \"<0x0A>\": 4}}}");
    let Ok(t) = t else { panic!("a vocabulary is enough") };
    assert_eq!(t.decode(&[3], false), "<0x+A>");
    assert_eq!(t.decode(&[4], false), "\n");
}

/// Text comes back unless it holds a whole byte token, or U+2581.
#[test]
fn only_whole_byte_tokens_are_bytes() {
    let t = tk();
    for s in ["a<0xyz", "<0x", "<0x+A>", "<0x4 1>", "<0x41", "<|tool_call><0xG0><tool_call|>"] {
        assert_eq!(t.decode(&t.encode(s, false), false), s);
    }
    assert_eq!(t.encode("<0x41>", false), vec![107 + 0x41]);
    assert_eq!(t.decode(&[107 + 0x41], false), "A");
    assert_eq!(t.decode(&t.encode("h\u{2581}o", false), false), "h o");
}

/// What stands around control strings is encoded as if it stood alone.
#[test]
fn texts_are_encoded_by_their_parts() {
    let t = tk();
    for (a, b) in [("hello", "hell o"), ("", "é"), ("lll", ""), ("<|\"|>he", "<tool_call|>o")] {
        let mut parts = t.encode(a, false);
        parts.push(48);
        parts.extend(t.encode(b, false));
        assert_eq!(t.encode(&format!("{a}<|tool_call>{b}"), false), parts);
    }
}

#[test]
fn lists_of_texts_are_encoded() {
    let t = tk();
    assert_eq!(
        encode_cases(&t, "[\"hello\", \"\", \"hell o<|tool_call>\"]").as_deref(),
        Some("[[408],[],[407,409,48]]")
    );
    assert_eq!(encode_cases(&t, "[]").as_deref(), Some("[]"));
    for bad in ["[\"hello\", 1]", "{\"a\": \"b\"}", "\"hello\"", "[\"hello\"", "[[\"hello\"]]"] {
        assert!(encode_cases(&t, bad).is_none(), "encoded: {bad}");
    }
    let list = Json::Arr(vec![Json::Str("h".to_string()), Json::Null]);
    assert!(t.encode_list(&list).is_none());
}

/// Ill-formed bytes are replaced as the standard library replaces them.
#[test]
fn lossy_text_is_the_standard_librarys() {
    for a in 0..=255u8 {
        for b in 0..=255u8 {
            let s = [a, b];
            assert_eq!(decode_lossy(&s), String::from_utf8_lossy(&s));
        }
    }
    let edges = [
        0x00u8, 0x41, 0x7f, 0x80, 0x8f, 0x90, 0x9f, 0xa0, 0xbf, 0xc0, 0xc1, 0xc2, 0xdf, 0xe0, 0xe1,
        0xec, 0xed, 0xee, 0xef, 0xf0, 0xf1, 0xf3, 0xf4, 0xf5, 0xff,
    ];
    for a in edges {
        for b in edges {
            for c in edges {
                for d in edges {
                    let s = [a, b, c, d, 0x41];
                    assert_eq!(decode_lossy(&s), String::from_utf8_lossy(&s));
                }
            }
        }
    }
}

/// What has settled of a text stays when more bytes come.
#[test]
fn settled_text_stays() {
    let whole = "a日b🎉".as_bytes();
    let mut before = String::new();
    for n in 0..=whole.len() {
        let now = decode_lossy(&whole[..n]);
        assert!(now.starts_with(&before), "{before:?} was taken back");
        before = now.trim_end_matches('\u{fffd}').to_string();
    }
    assert_eq!(before, "a日b🎉");
}
