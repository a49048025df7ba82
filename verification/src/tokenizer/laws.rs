//! What the tokenizer promises as a whole.
use vstd::prelude::*;
use vstd::utf8::encode_utf8;
use crate::grammar::vocab::added_entries;
use crate::json::Tree;
use crate::lossy::{law_lossy_keeps_text, law_settled_text_stays, lossy, settled};
use crate::text::{lemma_bytes_concat, replaced, swap_char};
use crate::tokenizer::bpe::{byte_token, char_parts, hex_digit, merge_at};
use crate::tokenizer::load::{
    byte_token_value, control_text, controls_of, describes, entry_byte, entry_id, entry_piece,
    first_merge_of, hex_value, lemma_sorted_from, lemma_top_entry, merge_entries, merge_pair,
    rank_right, vocab_map,
};
use crate::tokenizer::model::Tokenizer;

verus! {

/// Parts, one after the other.
pub open spec fn joined(parts: Seq<Seq<char>>) -> Seq<char>
    decreases parts.len(),
{
    if parts.len() == 0 {
        Seq::empty()
    } else {
        joined(parts.drop_last()) + parts.last()
    }
}

/// Whether a byte token stands at position `i` of a text.
pub open spec fn byte_token_at(s: Seq<char>, i: int) -> bool {
    0 <= i && i + 6 <= s.len() && byte_token_value(s.subrange(i, i + 6)) is Some
}

/// Whether a text has a byte token in it.
pub open spec fn has_byte_token(s: Seq<char>) -> bool {
    exists|i: int| #[trigger] byte_token_at(s, i)
}

/// Whether every id decodes to what it encodes.
pub open spec fn faithful(k: Tokenizer) -> bool {
    &&& forall|t: Seq<char>| #[trigger]
        k.ids().contains_key(t) ==> {
            let id = k.ids()[t];
            id < k.size() && match byte_token_value(t) {
                Some(b) => k.byte_of(id as int) == Some(b),
                None => k.byte_of(id as int) is None && k.piece(id as int) == Some(
                    replaced(t, '\u{2581}', ' '),
                ),
            }
        }
    &&& forall|i: int|
        0 <= i < k.controls().len() ==> {
            let (c, id) = #[trigger] k.controls()[i];
            id < k.size() && k.byte_of(id as int) is None && k.piece(id as int) == Some(c)
        }
}

/// Whether there is a token for each byte and for the space, and merging only
/// ever makes tokens.
pub open spec fn complete(k: Tokenizer) -> bool {
    &&& forall|b: u8| k.ids().contains_key(#[trigger] byte_token(b))
    &&& k.ids().contains_key(seq!['\u{2581}'])
    &&& forall|l: Seq<char>, r: Seq<char>| #[trigger]
        k.rank(l, r) is Some ==> k.ids().contains_key(l + r)
}

// ---------------------------------------------------------------- byte tokens
/// A byte token in a part of a text is one in the text.
proof fn lemma_part_has(s: Seq<char>, i: int, j: int)
    requires
        0 <= i <= j <= s.len(),
        !has_byte_token(s),
    ensures
        !has_byte_token(s.subrange(i, j)),
{
    let p = s.subrange(i, j);
    if has_byte_token(p) {
        let x = choose|x: int| #[trigger] byte_token_at(p, x);
        assert(p.subrange(x, x + 6) =~= s.subrange(i + x, i + x + 6));
        assert(byte_token_at(s, i + x));
    }
}

/// No byte token has a space in it, whichever way it is written.
proof fn lemma_normalized_has(s: Seq<char>)
    requires
        !has_byte_token(s),
    ensures
        !has_byte_token(replaced(s, ' ', '\u{2581}')),
{
    let n = replaced(s, ' ', '\u{2581}');
    if has_byte_token(n) {
        let i = choose|i: int| #[trigger] byte_token_at(n, i);
        let t = n.subrange(i, i + 6);
        assert forall|j: int| 0 <= j < 6 implies #[trigger] t[j] == s[i + j] by {
            assert(t[j] == swap_char(s[i + j], ' ', '\u{2581}'));
            assert(t[j] != '\u{2581}');
        }
        assert(t =~= s.subrange(i, i + 6));
        assert(byte_token_at(s, i));
    }
}

// ---------------------------------------------------------------- parts
proof fn lemma_joined_concat(p: Seq<Seq<char>>, q: Seq<Seq<char>>)
    ensures
        joined(p + q) == joined(p) + joined(q),
    decreases q.len(),
{
    if q.len() == 0 {
        assert(p + q =~= p);
        assert(joined(p) + joined(q) =~= joined(p));
    } else {
        assert((p + q).drop_last() =~= p + q.drop_last());
        lemma_joined_concat(p, q.drop_last());
        assert(joined(p + q) =~= joined(p) + joined(q));
    }
}

proof fn lemma_joined_one(s: Seq<char>)
    ensures
        joined(seq![s]) == s,
{
    assert(seq![s].drop_last() =~= Seq::empty());
    assert(joined(seq![s].drop_last()) =~= Seq::empty());
    assert(joined(seq![s]) =~= s);
}

/// Merging two parts keeps what they spell.
proof fn lemma_joined_merge(parts: Seq<Seq<char>>, i: int)
    requires
        0 <= i < parts.len() - 1,
    ensures
        joined(merge_at(parts, i)) == joined(parts),
{
    let a = parts.take(i);
    let b = parts.skip(i + 2);
    let x = parts[i];
    let y = parts[i + 1];
    assert(merge_at(parts, i) =~= a + seq![x + y] + b);
    assert(parts =~= a + (seq![x] + seq![y]) + b);
    lemma_joined_concat(a + seq![x + y], b);
    lemma_joined_concat(a, seq![x + y]);
    lemma_joined_concat(a + (seq![x] + seq![y]), b);
    lemma_joined_concat(a, seq![x] + seq![y]);
    lemma_joined_concat(seq![x], seq![y]);
    lemma_joined_one(x);
    lemma_joined_one(y);
    lemma_joined_one(x + y);
}

proof fn lemma_joined_chars(s: Seq<char>)
    ensures
        joined(char_parts(s)) == s,
    decreases s.len(),
{
    if s.len() == 0 {
        assert(joined(char_parts(s)) =~= s);
    } else {
        assert(char_parts(s).drop_last() =~= char_parts(s.drop_last()));
        lemma_joined_chars(s.drop_last());
        assert(joined(char_parts(s)) =~= s);
    }
}

/// Whether each part is one character or a token.
spec fn tokens_or_chars(k: Tokenizer, parts: Seq<Seq<char>>) -> bool {
    forall|i: int|
        0 <= i < parts.len() ==> (#[trigger] parts[i]).len() == 1 || k.ids().contains_key(parts[i])
}

/// Merging to the end keeps what the parts spell.
proof fn lemma_merged(k: Tokenizer, parts: Seq<Seq<char>>)
    requires
        complete(k),
        tokens_or_chars(k, parts),
    ensures
        joined(k.merged(parts)) == joined(parts),
        tokens_or_chars(k, k.merged(parts)),
    decreases parts.len(),
{
    if exists|i: int| k.merges_first(parts, i) {
        let i = choose|i: int| k.merges_first(parts, i);
        if 0 <= i < parts.len() - 1 {
            let next = merge_at(parts, i);
            lemma_joined_merge(parts, i);
            assert(k.rank(parts[i], parts[i + 1]) is Some);
            assert forall|j: int| 0 <= j < next.len() implies (#[trigger] next[j]).len() == 1
                || k.ids().contains_key(next[j]) by {
                if j < i {
                    assert(next[j] == parts[j]);
                } else if j > i {
                    assert(next[j] == parts[j + 1]);
                }
            }
            lemma_merged(k, next);
        }
    }
}

// ---------------------------------------------------------------- bytes
proof fn lemma_ids_bytes_concat(k: Tokenizer, a: Seq<u32>, b: Seq<u32>)
    ensures
        k.ids_bytes(a + b, false) == k.ids_bytes(a, false) + k.ids_bytes(b, false),
    decreases b.len(),
{
    if b.len() == 0 {
        assert(a + b =~= a);
        assert(k.ids_bytes(a, false) + k.ids_bytes(b, false) =~= k.ids_bytes(a, false));
    } else {
        assert((a + b).drop_last() =~= a + b.drop_last());
        lemma_ids_bytes_concat(k, a, b.drop_last());
        assert(k.ids_bytes(a + b, false) =~= k.ids_bytes(a, false) + k.ids_bytes(b, false));
    }
}

proof fn lemma_ids_bytes_one(k: Tokenizer, id: u32)
    ensures
        k.ids_bytes(seq![id], false) == k.id_bytes(id, false),
{
    let one = seq![id];
    assert(one.drop_last() =~= Seq::empty());
    assert(k.ids_bytes(one.drop_last(), false) =~= Seq::empty());
    assert(k.ids_bytes(one, false) =~= k.id_bytes(id, false));
}

/// A byte token names its byte.
pub(crate) proof fn lemma_byte_token(b: u8)
    ensures
        byte_token_value(byte_token(b)) == Some(b),
{
    let x = b as int / 16;
    let y = b as int % 16;
    assert(hex_value(hex_digit(x)) == Some(x));
    assert(hex_value(hex_digit(y)) == Some(y));
    assert(16 * x + y == b);
}

proof fn lemma_byte_ids(k: Tokenizer, b: Seq<u8>)
    requires
        faithful(k),
        complete(k),
    ensures
        k.ids_bytes(k.byte_ids(b), false) == b,
    decreases b.len(),
{
    if b.len() == 0 {
        assert(k.ids_bytes(k.byte_ids(b), false) =~= b);
    } else {
        let t = byte_token(b.last());
        lemma_byte_ids(k, b.drop_last());
        lemma_byte_token(b.last());
        assert(k.ids().contains_key(t));
        let id = k.ids()[t];
        let ids = k.byte_ids(b.drop_last());
        assert(ids.push(id).drop_last() =~= ids);
        assert(k.ids_bytes(ids.push(id), false) =~= b);
    }
}

/// A text without U+2581 comes back from the form that is merged.
proof fn lemma_unnormalize(s: Seq<char>)
    requires
        forall|i: int| 0 <= i < s.len() ==> (#[trigger] s[i]) != '\u{2581}',
    ensures
        replaced(replaced(s, ' ', '\u{2581}'), '\u{2581}', ' ') == s,
{
    let n = replaced(s, ' ', '\u{2581}');
    assert forall|i: int| 0 <= i < s.len() implies replaced(n, '\u{2581}', ' ')[i] == s[i] by {
        assert(n[i] == swap_char(s[i], ' ', '\u{2581}'));
    }
    assert(replaced(n, '\u{2581}', ' ') =~= s);
}

/// What one part decodes to.
proof fn lemma_part(k: Tokenizer, p: Seq<char>)
    requires
        faithful(k),
        complete(k),
        p.len() == 1 || k.ids().contains_key(p),
        !has_byte_token(p),
    ensures
        k.ids_bytes(k.part_ids(p), false) == encode_utf8(replaced(p, '\u{2581}', ' ')),
{
    if k.ids().contains_key(p) {
        let id = k.ids()[p];
        if byte_token_value(p) is Some {
            assert(p.subrange(0, 6) =~= p);
            assert(byte_token_at(p, 0));
        }
        lemma_ids_bytes_one(k, id);
    } else {
        lemma_byte_ids(k, encode_utf8(p));
        assert(p[0] != '\u{2581}') by {
            if p[0] == '\u{2581}' {
                assert(p =~= seq!['\u{2581}']);
            }
        }
        assert(replaced(p, '\u{2581}', ' ') =~= p);
    }
}

/// What several parts decode to.
proof fn lemma_parts(k: Tokenizer, parts: Seq<Seq<char>>)
    requires
        faithful(k),
        complete(k),
        tokens_or_chars(k, parts),
        !has_byte_token(joined(parts)),
    ensures
        k.ids_bytes(k.parts_ids(parts), false) == encode_utf8(
            replaced(joined(parts), '\u{2581}', ' '),
        ),
    decreases parts.len(),
{
    if parts.len() == 0 {
        assert(replaced(joined(parts), '\u{2581}', ' ') =~= Seq::empty());
        assert(k.ids_bytes(k.parts_ids(parts), false) =~= encode_utf8(Seq::empty()));
    } else {
        let init = parts.drop_last();
        let p = parts.last();
        let a = joined(init);
        let s = joined(parts);
        assert(s == a + p);
        assert(!has_byte_token(a)) by {
            lemma_part_has(s, 0, a.len() as int);
            assert(s.subrange(0, a.len() as int) =~= a);
        }
        assert(!has_byte_token(p)) by {
            lemma_part_has(s, a.len() as int, s.len() as int);
            assert(s.subrange(a.len() as int, s.len() as int) =~= p);
        }
        assert forall|i: int| 0 <= i < init.len() implies (#[trigger] init[i]).len() == 1
            || k.ids().contains_key(init[i]) by {
            assert(init[i] == parts[i]);
        }
        lemma_parts(k, init);
        assert(parts[parts.len() - 1] == p);
        lemma_part(k, p);
        lemma_ids_bytes_concat(k, k.parts_ids(init), k.part_ids(p));
        assert(replaced(s, '\u{2581}', ' ') =~= replaced(a, '\u{2581}', ' ') + replaced(
            p,
            '\u{2581}',
            ' ',
        ));
        lemma_bytes_concat(replaced(a, '\u{2581}', ' '), replaced(p, '\u{2581}', ' '));
    }
}

spec fn plain(text: Seq<char>) -> bool {
    &&& forall|i: int| 0 <= i < text.len() ==> (#[trigger] text[i]) != '\u{2581}'
    &&& !has_byte_token(text)
}

/// What a text without control strings decodes to.
proof fn lemma_bpe(k: Tokenizer, text: Seq<char>)
    requires
        faithful(k),
        complete(k),
        plain(text),
    ensures
        k.ids_bytes(k.bpe_ids(text), false) == encode_utf8(text),
{
    let norm = replaced(text, ' ', '\u{2581}');
    lemma_unnormalize(text);
    lemma_normalized_has(text);
    if text.len() == 0 {
        assert(k.ids_bytes(k.bpe_ids(text), false) =~= encode_utf8(text));
    } else if k.ids().contains_key(norm) {
        lemma_part(k, norm);
    } else {
        let chars = char_parts(norm);
        lemma_joined_chars(norm);
        lemma_merged(k, chars);
        lemma_parts(k, k.merged(chars));
    }
}

proof fn lemma_plain_part(text: Seq<char>, i: int, j: int)
    requires
        plain(text),
        0 <= i <= j <= text.len(),
    ensures
        plain(text.subrange(i, j)),
{
    let s = text.subrange(i, j);
    lemma_part_has(text, i, j);
    assert forall|x: int| 0 <= x < s.len() implies (#[trigger] s[x]) != '\u{2581}' by {
        assert(s[x] == text[i + x]);
    }
}

proof fn lemma_ids_from(k: Tokenizer, cs: Seq<char>, start: int, i: int)
    requires
        faithful(k),
        complete(k),
        plain(cs),
        0 <= start <= i <= cs.len(),
    ensures
        k.ids_bytes(k.ids_from(cs, start, i), false) == encode_utf8(
            cs.subrange(start, cs.len() as int),
        ),
    decreases cs.len() - i,
{
    let n = cs.len() as int;
    if i >= n {
        lemma_plain_part(cs, start, n);
        lemma_bpe(k, cs.subrange(start, n));
    } else if exists|x: int| k.control_at(cs, i, x) {
        let x = choose|x: int| k.control_at(cs, i, x);
        let (c, id) = k.controls()[x];
        let next = i + c.len();
        let head = cs.subrange(start, i);
        lemma_plain_part(cs, start, i);
        lemma_bpe(k, head);
        lemma_ids_from(k, cs, next, next);
        let a = k.bpe_ids(head);
        let b = seq![id];
        let rest = k.ids_from(cs, next, next);
        lemma_ids_bytes_concat(k, a + b, rest);
        lemma_ids_bytes_concat(k, a, b);
        lemma_ids_bytes_one(k, id);
        let tail = cs.subrange(next, n);
        assert(cs.subrange(start, n) =~= head + c + tail) by {
            assert(cs.subrange(i, next) == c);
            assert forall|j: int| 0 <= j < n - start implies cs.subrange(start, n)[j] == (head + c
                + tail)[j] by {
                if head.len() <= j < head.len() + c.len() {
                    assert(cs.subrange(i, next)[j - head.len()] == cs[start + j]);
                }
            }
        }
        lemma_bytes_concat(head + c, tail);
        lemma_bytes_concat(head, c);
    } else {
        lemma_ids_from(k, cs, start, i + 1);
    }
}

/// Decoding gives back what was encoded, control strings and spaces included.
///
/// The text must not hold U+2581, which stands for a space, nor a byte token,
/// which stands for a byte.
pub proof fn law_decode_inverts_encode(k: Tokenizer, text: Seq<char>)
    requires
        faithful(k),
        complete(k),
        forall|i: int| 0 <= i < text.len() ==> (#[trigger] text[i]) != '\u{2581}',
        !has_byte_token(text),
    ensures
        lossy(k.ids_bytes(k.text_ids(text), false)) == text,
{
    lemma_ids_from(k, text, 0, 0);
    assert(text.subrange(0, text.len() as int) =~= text);
    law_lossy_keeps_text(text);
}

// ---------------------------------------------------------------- tokenizers that were loaded
/// Whether a text decodes as it is written: it is no byte token and does not hold
/// U+2581.
pub open spec fn literal(s: Seq<char>) -> bool {
    &&& byte_token_value(s) is None
    &&& forall|i: int| 0 <= i < s.len() ==> (#[trigger] s[i]) != '\u{2581}'
}

/// Whether a file has one string for each id. An id may be both in the vocabulary
/// and a control string's, as one string that decodes as it is written.
pub open spec fn one_string_per_id(
    entries: Seq<(Seq<char>, Tree)>,
    controls: Seq<(Seq<char>, u32)>,
) -> bool {
    &&& forall|i: int, j: int|
        0 <= i < entries.len() && 0 <= j < entries.len() && entry_id((#[trigger] entries[i]).1)
            == entry_id((#[trigger] entries[j]).1) ==> entries[i].0 == entries[j].0
    &&& forall|i: int, j: int|
        0 <= i < controls.len() && 0 <= j < controls.len() && (#[trigger] controls[i]).1 == (
        #[trigger] controls[j]).1 ==> controls[i].0 == controls[j].0
    &&& forall|i: int, j: int|
        0 <= i < entries.len() && 0 <= j < controls.len() && entry_id((#[trigger] entries[i]).1)
            == (#[trigger] controls[j]).1 ==> entries[i].0 == controls[j].0 && literal(
            entries[i].0,
        )
}

/// Whether a file has a token for each byte and for the space, and one for
/// whatever its merges make.
pub open spec fn whole_vocabulary(t: Tree, entries: Seq<(Seq<char>, Tree)>) -> bool {
    let ids = vocab_map(entries);
    &&& forall|b: u8| ids.contains_key(#[trigger] byte_token(b))
    &&& ids.contains_key(seq!['\u{2581}'])
    &&& forall|i: int|
        0 <= i < merge_entries(t).len() ==> match merge_pair(#[trigger] merge_entries(t)[i]) {
            Some(p) => ids.contains_key(p.0 + p.1),
            None => true,
        }
}

/// Every id of the vocabulary stands in one of its entries.
proof fn lemma_vocab_entry(entries: Seq<(Seq<char>, Tree)>, s: Seq<char>) -> (i: int)
    requires
        vocab_map(entries).contains_key(s),
    ensures
        0 <= i < entries.len(),
        entries[i].0 == s,
        entry_id(entries[i].1) == vocab_map(entries)[s],
    decreases entries.len(),
{
    if entries.last().0 == s {
        entries.len() - 1
    } else {
        lemma_vocab_entry(entries.drop_last(), s)
    }
}

/// What an id decodes to where all entries with it have one string.
proof fn lemma_entry_decodes(entries: Seq<(Seq<char>, Tree)>, id: int, s: Seq<char>)
    requires
        forall|j: int|
            0 <= j < entries.len() && entry_id((#[trigger] entries[j]).1) == id ==> entries[j].0
                == s,
    ensures
        byte_token_value(s) is None ==> entry_byte(entries, id) is None,
        (exists|j: int| 0 <= j < entries.len() && entry_id((#[trigger] entries[j]).1) == id) ==> (
        match byte_token_value(s) {
            Some(b) => entry_byte(entries, id) == Some(b),
            None => entry_piece(entries, id) == Some(replaced(s, '\u{2581}', ' ')),
        }),
    decreases entries.len(),
{
    if entries.len() > 0 {
        let init = entries.drop_last();
        assert forall|j: int| 0 <= j < init.len() && entry_id((#[trigger] init[j]).1)
            == id implies init[j].0 == s by {
            assert(init[j] == entries[j]);
        }
        lemma_entry_decodes(init, id, s);
        assert(entries[entries.len() - 1] == entries.last());
        if entry_id(entries.last().1) != id {
            assert forall|j: int|
                0 <= j < entries.len() && entry_id((#[trigger] entries[j]).1) == id implies 0 <= j
                < init.len() && init[j] == entries[j] by {}
        }
    }
}

/// The text of an id among the control strings is that of one of them.
proof fn lemma_control_text(list: Seq<(Seq<char>, u32)>, id: int)
    ensures
        match control_text(list, id) {
            Some(s) => exists|j: int|
                0 <= j < list.len() && (#[trigger] list[j]).0 == s && list[j].1 == id,
            None => forall|j: int| 0 <= j < list.len() ==> (#[trigger] list[j]).1 != id,
        },
    decreases list.len(),
{
    if list.len() > 0 {
        let init = list.drop_last();
        lemma_control_text(init, id);
        assert(list[list.len() - 1] == list.last());
        if list.last().1 != id {
            match control_text(init, id) {
                Some(s) => {
                    let j = choose|j: int|
                        0 <= j < init.len() && (#[trigger] init[j]).0 == s && init[j].1 == id;
                    assert(list[j] == init[j]);
                },
                None => {
                    assert forall|j: int| 0 <= j < list.len() implies (#[trigger] list[j]).1
                        != id by {
                        if j < init.len() {
                            assert(list[j] == init[j]);
                        }
                    }
                },
            }
        }
    }
}

/// A tokenizer that was loaded is faithful if its file has one string for each id.
pub proof fn law_loaded_is_faithful(t: Tree, entries: Seq<(Seq<char>, Tree)>, k: Tokenizer)
    requires
        describes(t, entries, k),
        one_string_per_id(entries, controls_of(added_entries(t))),
    ensures
        faithful(k),
{
    let list = controls_of(added_entries(t));
    let sorted = k.controls();
    assert forall|s: Seq<char>| #[trigger] k.ids().contains_key(s) implies {
        let id = k.ids()[s];
        id < k.size() && match byte_token_value(s) {
            Some(b) => k.byte_of(id as int) == Some(b),
            None => k.byte_of(id as int) is None && k.piece(id as int) == Some(
                replaced(s, '\u{2581}', ' '),
            ),
        }
    } by {
        let id = k.ids()[s] as int;
        let i = lemma_vocab_entry(entries, s);
        lemma_top_entry(entries, i);
        lemma_entry_decodes(entries, id, s);
        lemma_control_text(sorted, id);
        if let Some(c) = control_text(sorted, id) {
            let x = choose|x: int|
                0 <= x < sorted.len() && (#[trigger] sorted[x]).0 == c && sorted[x].1 == id;
            let j = lemma_sorted_from(list, sorted, x);
            assert(entry_id(entries[i].1) == list[j].1);
            assert(literal(s));
            assert(replaced(s, '\u{2581}', ' ') =~= s);
        }
    }
    assert forall|x: int| 0 <= x < sorted.len() implies {
        let (c, id) = #[trigger] sorted[x];
        id < k.size() && k.byte_of(id as int) is None && k.piece(id as int) == Some(c)
    } by {
        let (c, id) = sorted[x];
        let j = lemma_sorted_from(list, sorted, x);
        lemma_control_text(sorted, id as int);
        assert(control_text(sorted, id as int) is Some);
        let s = control_text(sorted, id as int).unwrap();
        let y = choose|y: int|
            0 <= y < sorted.len() && (#[trigger] sorted[y]).0 == s && sorted[y].1 == id;
        let z = lemma_sorted_from(list, sorted, y);
        assert(list[j].1 == list[z].1);
    }
}

/// A tokenizer that was loaded is complete if its file's vocabulary is.
pub proof fn law_loaded_is_complete(t: Tree, entries: Seq<(Seq<char>, Tree)>, k: Tokenizer)
    requires
        describes(t, entries, k),
        whole_vocabulary(t, entries),
    ensures
        complete(k),
{
    let merges = merge_entries(t);
    assert forall|l: Seq<char>, r: Seq<char>| #[trigger] k.rank(l, r) is Some implies k.ids().contains_key(
        l + r,
    ) by {
        assert(rank_right(merges, l, r, k.rank(l, r)));
        let i = choose|i: int|
            first_merge_of(merges, l, r, i) && k.rank(l, r).unwrap() == i as u32;
        assert(merge_pair(merges[i]) == Some((l, r)));
    }
}

/// A tokenizer that was loaded gives back what it encodes, whatever the text,
/// U+2581 and byte tokens apart: doubled and leading spaces, characters of every
/// script and control strings included.
pub proof fn law_loaded_tokenizer_round_trips(
    t: Tree,
    entries: Seq<(Seq<char>, Tree)>,
    k: Tokenizer,
    text: Seq<char>,
)
    requires
        describes(t, entries, k),
        one_string_per_id(entries, controls_of(added_entries(t))),
        whole_vocabulary(t, entries),
        forall|i: int| 0 <= i < text.len() ==> (#[trigger] text[i]) != '\u{2581}',
        !has_byte_token(text),
    ensures
        lossy(k.ids_bytes(k.text_ids(text), false)) == text,
{
    law_loaded_is_faithful(t, entries, k);
    law_loaded_is_complete(t, entries, k);
    law_decode_inverts_encode(k, text);
}

// ---------------------------------------------------------------- control strings
/// One control string at most is the first that stands somewhere.
proof fn lemma_one_control(k: Tokenizer, cs: Seq<char>, i: int, x: int, y: int)
    requires
        k.control_at(cs, i, x),
        k.control_at(cs, i, y),
    ensures
        x == y,
{
    if x < y {
        assert(!k.control_stands(cs, i, x));
    } else if y < x {
        assert(!k.control_stands(cs, i, y));
    }
}

/// Where a control string stands, a first one does.
proof fn lemma_first_control(k: Tokenizer, cs: Seq<char>, i: int, x: int)
    requires
        0 <= x < k.controls().len(),
        k.control_stands(cs, i, x),
    ensures
        exists|y: int| k.control_at(cs, i, y),
    decreases x,
{
    if exists|j: int| 0 <= j < x && #[trigger] k.control_stands(cs, i, j) {
        let j = choose|j: int| 0 <= j < x && #[trigger] k.control_stands(cs, i, j);
        lemma_first_control(k, cs, i, j);
    } else {
        assert(k.control_at(cs, i, x));
    }
}

/// A text is cut at a control string.
proof fn lemma_cut(k: Tokenizer, cs: Seq<char>, start: int, i: int, x: int)
    requires
        0 <= i < cs.len(),
        k.control_at(cs, i, x),
    ensures
        k.ids_from(cs, start, i) == k.bpe_ids(cs.subrange(start, i)) + seq![k.controls()[x].1]
            + k.ids_from(cs, i + k.controls()[x].0.len(), i + k.controls()[x].0.len()),
{
    let y = choose|y: int| k.control_at(cs, i, y);
    lemma_one_control(k, cs, i, x, y);
}

/// What stands before has no part in how a text goes on.
proof fn lemma_ids_shift(k: Tokenizer, cs: Seq<char>, m: int, start: int, i: int)
    requires
        0 <= m <= start <= i <= cs.len(),
    ensures
        k.ids_from(cs, start, i) == k.ids_from(cs.skip(m), start - m, i - m),
    decreases cs.len() - i,
{
    let s = cs.skip(m);
    let q = i - m;
    let n = cs.len() as int;
    if i >= n {
        assert(s.subrange(start - m, n - m) =~= cs.subrange(start, n));
    } else {
        assert forall|x: int|
            k.control_stands(cs, i, x) == #[trigger] k.control_stands(s, q, x) by {
            let c = k.controls()[x].0;
            if i + c.len() <= n {
                assert(s.subrange(q, q + c.len()) =~= cs.subrange(i, i + c.len()));
            }
        }
        assert forall|x: int| k.control_at(cs, i, x) == #[trigger] k.control_at(s, q, x) by {
            if k.control_at(s, q, x) {
                assert forall|j: int| 0 <= j < x implies !#[trigger] k.control_stands(cs, i, j) by {
                    assert(!k.control_stands(s, q, j));
                }
            }
        }
        if exists|x: int| k.control_at(cs, i, x) {
            let x = choose|x: int| k.control_at(cs, i, x);
            assert(k.control_at(s, q, x));
            let next = i + k.controls()[x].0.len();
            lemma_cut(k, cs, start, i, x);
            lemma_cut(k, s, start - m, q, x);
            lemma_ids_shift(k, cs, m, next, next);
            assert(s.subrange(start - m, q) =~= cs.subrange(start, i));
        } else {
            assert forall|x: int| !k.control_at(s, q, x) by {
                assert(!k.control_at(cs, i, x));
            }
            lemma_ids_shift(k, cs, m, start, i + 1);
        }
    }
}

/// Where no control string stands before `i`, the scan gets there.
proof fn lemma_scan(k: Tokenizer, cs: Seq<char>, i: int, to: int)
    requires
        0 <= i <= to <= cs.len(),
        forall|j: int, x: int| 0 <= j < to ==> !#[trigger] k.control_at(cs, j, x),
    ensures
        k.ids_from(cs, 0, i) == k.ids_from(cs, 0, to),
    decreases to - i,
{
    if i < to {
        assert(forall|x: int| !k.control_at(cs, i, x));
        lemma_scan(k, cs, i + 1, to);
    }
}

/// A text without control strings is merged as a whole.
pub proof fn law_plain_text_is_one_unit(k: Tokenizer, text: Seq<char>)
    requires
        forall|j: int, x: int| 0 <= j < text.len() ==> !#[trigger] k.control_at(text, j, x),
    ensures
        k.text_ids(text) == k.bpe_ids(text),
{
    lemma_scan(k, text, 0, text.len() as int);
    assert(text.subrange(0, text.len() as int) =~= text);
}

/// A text is encoded by its parts around control strings: the first control string
/// in it is one id, and what stands before it and after it is encoded as if it
/// stood alone.
pub proof fn law_control_strings_cut_the_text(k: Tokenizer, text: Seq<char>, i: int, x: int)
    requires
        0 <= i < text.len(),
        k.control_at(text, i, x),
        forall|j: int, y: int| 0 <= j < i ==> !#[trigger] k.control_at(text, j, y),
    ensures
        k.text_ids(text) == k.text_ids(text.take(i)) + seq![k.controls()[x].1] + k.text_ids(
            text.skip(i + k.controls()[x].0.len()),
        ),
{
    let next = i + k.controls()[x].0.len();
    let head = text.take(i);
    lemma_scan(k, text, 0, i);
    lemma_cut(k, text, 0, i, x);
    lemma_ids_shift(k, text, next, next, next);
    assert(text.subrange(0, i) =~= head);
    assert forall|j: int, y: int| 0 <= j < head.len() implies !#[trigger] k.control_at(
        head,
        j,
        y,
    ) by {
        if k.control_at(head, j, y) {
            let c = k.controls()[y].0;
            assert(head.subrange(j, j + c.len()) =~= text.subrange(j, j + c.len()));
            assert(k.control_stands(text, j, y));
            lemma_first_control(k, text, j, y);
            let z = choose|z: int| k.control_at(text, j, z);
            assert(!k.control_at(text, j, z));
        }
    }
    law_plain_text_is_one_unit(k, head);
}

/// A control string that no other one is tried before is a single id.
pub proof fn law_control_string_is_one_id(k: Tokenizer, i: int)
    requires
        0 <= i < k.controls().len(),
        k.controls()[i].0.len() > 0,
        forall|j: int|
            0 <= j < i ==> !#[trigger] k.control_stands(k.controls()[i].0, 0, j),
    ensures
        k.text_ids(k.controls()[i].0) == seq![k.controls()[i].1],
{
    let (c, id) = k.controls()[i];
    assert(c.subrange(0, c.len() as int) =~= c);
    assert(k.control_at(c, 0, i));
    let x = choose|x: int| k.control_at(c, 0, x);
    assert(x == i) by {
        if x < i {
            assert(!k.control_stands(c, 0, x));
        } else if i < x {
            assert(!k.control_stands(c, 0, i));
        }
    }
    let n = c.len() as int;
    assert(c.subrange(0, 0).len() == 0);
    assert(c.subrange(n, n).len() == 0);
    assert(k.ids_from(c, n, n) =~= Seq::empty());
    assert(k.text_ids(c) =~= seq![id]);
}

/// Text that has settled stays as more ids are decoded.
pub proof fn law_settled_text_stays_decoded(
    k: Tokenizer,
    ids: Seq<u32>,
    more: Seq<u32>,
    skip_special: bool,
)
    ensures
        settled(lossy(k.ids_bytes(ids, skip_special))).is_prefix_of(
            lossy(k.ids_bytes(ids + more, skip_special)),
        ),
{
    let rest = lemma_ids_bytes_grow(k, ids, more, skip_special);
    law_settled_text_stays(k.ids_bytes(ids, skip_special), rest);
}

proof fn lemma_ids_bytes_grow(
    k: Tokenizer,
    ids: Seq<u32>,
    more: Seq<u32>,
    skip_special: bool,
) -> (rest: Seq<u8>)
    ensures
        k.ids_bytes(ids + more, skip_special) == k.ids_bytes(ids, skip_special) + rest,
    decreases more.len(),
{
    if more.len() == 0 {
        assert(ids + more =~= ids);
        assert(k.ids_bytes(ids, skip_special) + Seq::<u8>::empty() =~= k.ids_bytes(
            ids,
            skip_special,
        ));
        Seq::empty()
    } else {
        assert((ids + more).drop_last() =~= ids + more.drop_last());
        let r = lemma_ids_bytes_grow(k, ids, more.drop_last(), skip_special);
        let rest = r + k.id_bytes(more.last(), skip_special);
        assert(k.ids_bytes(ids + more, skip_special) =~= k.ids_bytes(ids, skip_special) + rest);
        rest
    }
}

} // verus!
