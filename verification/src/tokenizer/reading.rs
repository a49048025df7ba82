//! What the ids of a tokenizer decode to, and what it has from its file.
use vstd::prelude::*;
use vstd::utf8::encode_utf8;
use crate::grammar::vocab::added_entries;
use crate::json::Tree;
use crate::lossy::lossy;
use crate::text::{decimal, lemma_bytes_concat, lemma_decimal, replaced};
use crate::tokenizer::bpe::byte_token;
use crate::tokenizer::laws::{faithful, lemma_byte_token};
use crate::tokenizer::load::{
    byte_token_value, control_len, control_of, controls_of, describes, entry_id, hex_value,
    lemma_filter_from, lemma_sorted_from, lemma_top_entry, of_len, sorted_from, top_control, top_entry,
    vocab_map,
};
use crate::tokenizer::model::Tokenizer;

verus! {

// ---------------------------------------------------------------- decoding
/// Whether an id belongs to none of the control strings.
pub open spec fn ordinary(k: Tokenizer, id: u32) -> bool {
    forall|x: int| 0 <= x < k.controls().len() ==> (#[trigger] k.controls()[x]).1 != id
}

/// The ids among some that belong to no control string.
pub open spec fn ordinary_ids(k: Tokenizer, ids: Seq<u32>) -> Seq<u32>
    decreases ids.len(),
{
    if ids.len() == 0 {
        Seq::empty()
    } else if ordinary(k, ids.last()) {
        ordinary_ids(k, ids.drop_last()).push(ids.last())
    } else {
        ordinary_ids(k, ids.drop_last())
    }
}

/// Leaving out control tokens changes nothing else: ids none of which belongs to a
/// control string decode to the same text either way.
pub proof fn law_leaving_out_control_tokens_changes_nothing_else(k: Tokenizer, ids: Seq<u32>)
    requires
        forall|i: int| 0 <= i < ids.len() ==> ordinary(k, #[trigger] ids[i]),
    ensures
        k.ids_bytes(ids, true) == k.ids_bytes(ids, false),
        lossy(k.ids_bytes(ids, true)) == lossy(k.ids_bytes(ids, false)),
    decreases ids.len(),
{
    if ids.len() > 0 {
        let init = ids.drop_last();
        assert forall|i: int| 0 <= i < init.len() implies ordinary(k, #[trigger] init[i]) by {
            assert(init[i] == ids[i]);
        }
        law_leaving_out_control_tokens_changes_nothing_else(k, init);
        assert(ids[ids.len() - 1] == ids.last());
        assert(ordinary(k, ids.last()));
    }
}

/// Leaving out control tokens is decoding what is left without them.
pub proof fn law_control_tokens_are_left_out(k: Tokenizer, ids: Seq<u32>)
    requires
        faithful(k),
    ensures
        k.ids_bytes(ids, true) == k.ids_bytes(ordinary_ids(k, ids), false),
        lossy(k.ids_bytes(ids, true)) == lossy(k.ids_bytes(ordinary_ids(k, ids), false)),
    decreases ids.len(),
{
    if ids.len() == 0 {
        assert(ordinary_ids(k, ids) =~= ids);
    } else {
        let init = ids.drop_last();
        let id = ids.last();
        let rest = ordinary_ids(k, init);
        law_control_tokens_are_left_out(k, init);
        if ordinary(k, id) {
            assert(rest.push(id).drop_last() =~= rest);
        } else {
            let x = choose|x: int|
                0 <= x < k.controls().len() && (#[trigger] k.controls()[x]).1 == id;
            assert(k.controls()[x].1 == id);
            assert(k.control_id(id));
            assert(k.ids_bytes(ids, true) =~= k.ids_bytes(init, true));
        }
    }
}

/// Ids are decoded one after the other: the bytes of a list are those of its halves.
pub proof fn law_ids_decode_in_their_order(
    k: Tokenizer,
    a: Seq<u32>,
    b: Seq<u32>,
    skip_special: bool,
)
    ensures
        k.ids_bytes(a + b, skip_special) == k.ids_bytes(a, skip_special) + k.ids_bytes(
            b,
            skip_special,
        ),
    decreases b.len(),
{
    if b.len() == 0 {
        assert(a + b =~= a);
        assert(k.ids_bytes(a, skip_special) + k.ids_bytes(b, skip_special) =~= k.ids_bytes(
            a,
            skip_special,
        ));
    } else {
        assert((a + b).drop_last() =~= a + b.drop_last());
        law_ids_decode_in_their_order(k, a, b.drop_last(), skip_special);
        assert(k.ids_bytes(a + b, skip_special) =~= k.ids_bytes(a, skip_special) + k.ids_bytes(
            b,
            skip_special,
        ));
    }
}

proof fn lemma_one(k: Tokenizer, id: u32, skip_special: bool)
    ensures
        k.ids_bytes(seq![id], skip_special) == k.id_bytes(id, skip_special),
{
    assert(seq![id].drop_last() =~= Seq::empty());
    assert(k.ids_bytes(Seq::empty(), skip_special) =~= Seq::empty());
    assert(k.ids_bytes(seq![id], skip_special) =~= k.id_bytes(id, skip_special));
}

/// What one id decodes to: a token to itself, with spaces for U+2581; a byte token
/// to its byte; a control string to itself, or to nothing where control tokens are
/// left out; an id that there is not, to nothing.
pub proof fn law_an_id_decodes_to_its_string(
    k: Tokenizer,
    s: Seq<char>,
    b: u8,
    x: int,
    out: u32,
    skip_special: bool,
)
    requires
        faithful(k),
    ensures
        k.ids().contains_key(s) && ordinary(k, k.ids()[s]) && byte_token_value(s) is None
            ==> k.ids_bytes(seq![k.ids()[s]], skip_special) == encode_utf8(
            replaced(s, '\u{2581}', ' '),
        ),
        k.ids().contains_key(byte_token(b)) ==> k.ids_bytes(
            seq![k.ids()[byte_token(b)]],
            skip_special,
        ) == seq![b],
        0 <= x < k.controls().len() ==> k.ids_bytes(seq![k.controls()[x].1], false) == encode_utf8(
            k.controls()[x].0,
        ) && k.ids_bytes(seq![k.controls()[x].1], true).len() == 0,
        out >= k.size() ==> k.ids_bytes(seq![out], skip_special).len() == 0,
{
    lemma_one(k, out, skip_special);
    lemma_byte_token(b);
    if k.ids().contains_key(s) {
        lemma_one(k, k.ids()[s], skip_special);
    }
    if k.ids().contains_key(byte_token(b)) {
        lemma_one(k, k.ids()[byte_token(b)], skip_special);
    }
    if 0 <= x < k.controls().len() {
        let id = k.controls()[x].1;
        lemma_one(k, id, true);
        lemma_one(k, id, false);
        assert(k.control_id(id));
    }
}

// ---------------------------------------------------------------- the file
/// Every added token with an id and a text is a control string, and there are no
/// others.
pub proof fn law_added_tokens_are_control_strings(
    t: Tree,
    entries: Seq<(Seq<char>, Tree)>,
    k: Tokenizer,
    i: int,
    n: nat,
    s: Seq<char>,
    x: int,
)
    requires
        describes(t, entries, k),
    ensures
        0 <= i < added_entries(t).len() && n <= u32::MAX && added_entries(t)[i].field("id"@) == Some(
            Tree::Num(decimal(n)),
        ) && added_entries(t)[i].field("content"@) == Some(Tree::Str(s)) ==> k.controls().contains(
            (s, n as u32),
        ),
        0 <= x < k.controls().len() ==> exists|j: int|
            0 <= j < added_entries(t).len() && (#[trigger] added_entries(t)[j]).field("content"@)
                == Some(Tree::Str(k.controls()[x].0)),
{
    let added = added_entries(t);
    let list = controls_of(added);
    let sorted = k.controls();
    if 0 <= i < added.len() && n <= u32::MAX && added[i].field("id"@) == Some(
        Tree::Num(decimal(n)),
    ) && added[i].field("content"@) == Some(Tree::Str(s)) {
        lemma_decimal(n);
        let c = (s, n as u32);
        assert(control_of(added[i]) == Some(c));
        let j = lemma_listed(added, i);
        let z = lemma_still_listed(list, sorted, j);
        assert(sorted[z] == c);
    }
    if 0 <= x < sorted.len() {
        let j = lemma_sorted_from(list, sorted, x);
        let y = lemma_from_added(added, j);
        assert(added[y].field("content"@) == Some(Tree::Str(sorted[x].0)));
    }
}

proof fn lemma_listed(added: Seq<Tree>, i: int) -> (j: int)
    requires
        0 <= i < added.len(),
        control_of(added[i]) is Some,
    ensures
        0 <= j < controls_of(added).len(),
        controls_of(added)[j] == control_of(added[i]).unwrap(),
    decreases added.len(),
{
    let init = added.drop_last();
    if i == added.len() - 1 {
        controls_of(added).len() - 1
    } else {
        assert(init[i] == added[i]);
        lemma_listed(init, i)
    }
}

proof fn lemma_from_added(added: Seq<Tree>, j: int) -> (i: int)
    requires
        0 <= j < controls_of(added).len(),
    ensures
        0 <= i < added.len(),
        control_of(added[i]) == Some(controls_of(added)[j]),
    decreases added.len(),
{
    let init = added.drop_last();
    if j < controls_of(init).len() {
        let i = lemma_from_added(init, j);
        assert(init[i] == added[i]);
        i
    } else {
        added.len() - 1
    }
}

/// Where several control strings stand at one place, the longest is taken.
pub proof fn law_the_longest_control_string_wins(
    t: Tree,
    entries: Seq<(Seq<char>, Tree)>,
    k: Tokenizer,
    text: Seq<char>,
    i: int,
    x: int,
    y: int,
)
    requires
        describes(t, entries, k),
        0 <= i <= text.len(),
        k.control_at(text, i, x),
        0 <= y < k.controls().len(),
        k.control_stands(text, i, y),
    ensures
        k.controls()[y].0.len() <= k.controls()[x].0.len(),
{
    let a = k.controls()[x].0;
    let b = k.controls()[y].0;
    if y < x {
        assert(!k.control_stands(text, i, y));
    }
    if x < y && a.len() < b.len() {
        let rest = b.skip(a.len() as int);
        assert(text.subrange(i, i + a.len()) =~= text.subrange(i, i + b.len()).take(
            a.len() as int,
        ));
        assert(b =~= a + rest);
        lemma_bytes_concat(a, rest);
        assert(rest.len() > 0);
        lemma_bytes_some(rest);
        assert(control_len(k.controls()[x]) >= control_len(k.controls()[y]));
    }
}

proof fn lemma_bytes_some(s: Seq<char>)
    requires
        s.len() > 0,
    ensures
        encode_utf8(s).len() > 0,
{
}

/// With one entry per string, each string of the vocabulary has the id that its entry
/// states, and nothing else has an id.
pub proof fn law_the_vocabulary_gives_the_ids(
    t: Tree,
    entries: Seq<(Seq<char>, Tree)>,
    k: Tokenizer,
    i: int,
    n: u32,
    s: Seq<char>,
)
    requires
        describes(t, entries, k),
        forall|a: int, b: int|
            0 <= a < b < entries.len() ==> (#[trigger] entries[a]).0 != (#[trigger] entries[b]).0,
    ensures
        0 <= i < entries.len() && entries[i].1 == Tree::Num(decimal(n as nat)) ==> k.ids().contains_key(
            entries[i].0,
        ) && k.ids()[entries[i].0] == n,
        k.ids().contains_key(s) <==> exists|j: int|
            0 <= j < entries.len() && (#[trigger] entries[j]).0 == s,
{
    lemma_decimal(n as nat);
    lemma_vocab(entries, i, s);
}

proof fn lemma_vocab(entries: Seq<(Seq<char>, Tree)>, i: int, s: Seq<char>)
    requires
        forall|a: int, b: int|
            0 <= a < b < entries.len() ==> (#[trigger] entries[a]).0 != (#[trigger] entries[b]).0,
    ensures
        0 <= i < entries.len() ==> vocab_map(entries).contains_key(entries[i].0) && vocab_map(
            entries,
        )[entries[i].0] == entry_id(entries[i].1),
        vocab_map(entries).contains_key(s) <==> exists|j: int|
            0 <= j < entries.len() && (#[trigger] entries[j]).0 == s,
    decreases entries.len(),
{
    if entries.len() > 0 {
        let init = entries.drop_last();
        assert forall|a: int, b: int| 0 <= a < b < init.len() implies (#[trigger] init[a]).0 != (
        #[trigger] init[b]).0 by {
            assert(init[a] == entries[a] && init[b] == entries[b]);
        }
        lemma_vocab(init, i, s);
        assert(entries[entries.len() - 1] == entries.last());
        if 0 <= i < init.len() {
            assert(init[i] == entries[i]);
        }
        if exists|j: int| 0 <= j < init.len() && (#[trigger] init[j]).0 == s {
            let j = choose|j: int| 0 <= j < init.len() && (#[trigger] init[j]).0 == s;
            assert(entries[j].0 == s);
        }
        if exists|j: int| 0 <= j < entries.len() && (#[trigger] entries[j]).0 == s {
            let j = choose|j: int| 0 <= j < entries.len() && (#[trigger] entries[j]).0 == s;
            if j < init.len() {
                assert(init[j].0 == s);
            }
        }
    }
}

/// A sequence begins with the vocabulary's `<bos>` and ends with its `<eos>` or its
/// `<end_of_turn>`, where it has them.
pub proof fn law_marks_are_the_vocabularys(
    t: Tree,
    entries: Seq<(Seq<char>, Tree)>,
    k: Tokenizer,
    id: u32,
)
    requires
        describes(t, entries, k),
    ensures
        k.ids().contains_key("<bos>"@) ==> k.bos == k.ids()["<bos>"@],
        !k.ids().contains_key("<bos>"@) ==> k.bos == 2,
        k.ids().contains_key("<eos>"@) || k.ids().contains_key("<end_of_turn>"@) ==> (
        k.eos@.contains(id) <==> (k.ids().contains_key("<eos>"@) && id == k.ids()["<eos>"@]) || (
        k.ids().contains_key("<end_of_turn>"@) && id == k.ids()["<end_of_turn>"@])),
        !k.ids().contains_key("<eos>"@) && !k.ids().contains_key("<end_of_turn>"@) ==> (
        k.eos@.contains(id) <==> id == 1),
{
    let ids = k.ids();
    if ids.contains_key("<eos>"@) && ids.contains_key("<end_of_turn>"@) {
        let e = seq![ids["<eos>"@]] + seq![ids["<end_of_turn>"@]];
        assert(k.eos@ == e);
        assert(e[0] == ids["<eos>"@] && e[1] == ids["<end_of_turn>"@]);
    } else if ids.contains_key("<eos>"@) {
        assert(k.eos@ =~= seq![ids["<eos>"@]]);
        assert(k.eos@[0] == ids["<eos>"@]);
    } else if ids.contains_key("<end_of_turn>"@) {
        assert(k.eos@ =~= seq![ids["<end_of_turn>"@]]);
        assert(k.eos@[0] == ids["<end_of_turn>"@]);
    } else {
        assert(k.eos@ =~= seq![1u32]);
        assert(k.eos@[0] == 1);
    }
}

/// There are as many ids as the largest one asks for: every id of the vocabulary and of
/// the control strings is one, and the last one belongs to some of them.
pub proof fn law_the_last_id_is_somebodys(
    t: Tree,
    entries: Seq<(Seq<char>, Tree)>,
    k: Tokenizer,
    i: int,
    x: int,
)
    requires
        describes(t, entries, k),
    ensures
        0 <= i < entries.len() ==> entry_id(entries[i].1) < k.size(),
        0 <= x < k.controls().len() ==> k.controls()[x].1 < k.size(),
        k.size() == 1 || (exists|j: int|
            0 <= j < entries.len() && entry_id((#[trigger] entries[j]).1) == k.size() - 1) || (
        exists|j: int|
            0 <= j < k.controls().len() && (#[trigger] k.controls()[j]).1 == k.size() - 1),
{
    let list = controls_of(added_entries(t));
    let sorted = k.controls();
    if 0 <= i < entries.len() {
        lemma_top_entry(entries, i);
    }
    if 0 <= x < sorted.len() {
        let j = lemma_sorted_from(list, sorted, x);
    }
    lemma_top_entry_is_one(entries);
    lemma_top_control_is_one(list);
    if k.size() > 1 && top_control(list) == k.size() - 1 {
        let j = choose|j: int| 0 <= j < list.len() && (#[trigger] list[j]).1 == top_control(list);
        let z = lemma_still_listed(list, sorted, j);
        assert(sorted[z].1 == k.size() - 1);
    }
}

proof fn lemma_top_entry_is_one(entries: Seq<(Seq<char>, Tree)>)
    ensures
        top_entry(entries) == 0 || exists|j: int|
            0 <= j < entries.len() && entry_id((#[trigger] entries[j]).1) == top_entry(entries),
    decreases entries.len(),
{
    if entries.len() > 0 {
        let init = entries.drop_last();
        lemma_top_entry_is_one(init);
        assert(entries[entries.len() - 1] == entries.last());
        if top_entry(entries) == top_entry(init) && top_entry(init) != 0 {
            let j = choose|j: int|
                0 <= j < init.len() && entry_id((#[trigger] init[j]).1) == top_entry(init);
            assert(entries[j] == init[j]);
        }
    }
}

proof fn lemma_top_control_is_one(list: Seq<(Seq<char>, u32)>)
    ensures
        top_control(list) == 0 || exists|j: int|
            0 <= j < list.len() && (#[trigger] list[j]).1 == top_control(list),
    decreases list.len(),
{
    if list.len() > 0 {
        let init = list.drop_last();
        lemma_top_control_is_one(init);
        assert(list[list.len() - 1] == list.last());
        if top_control(list) == top_control(init) && top_control(init) != 0 {
            let j = choose|j: int| 0 <= j < init.len() && (#[trigger] init[j]).1 == top_control(init);
            assert(list[j] == init[j]);
        }
    }
}

/// What a list holds, the list in order of length holds too.
proof fn lemma_still_listed(
    list: Seq<(Seq<char>, u32)>,
    sorted: Seq<(Seq<char>, u32)>,
    j: int,
) -> (z: int)
    requires
        sorted_from(list, sorted),
        0 <= j < list.len(),
    ensures
        0 <= z < sorted.len(),
        sorted[z] == list[j],
{
    let c = list[j];
    let m = control_len(c);
    let f = |d: (Seq<char>, u32)| control_len(d) == m;
    broadcast use {vstd::seq_lib::group_seq_properties, vstd::seq_lib::group_filter_ensures};

    assert(list.contains(c));
    assert(of_len(list, m).contains(c));
    assert(of_len(sorted, m) == of_len(list, m));
    lemma_filter_from(sorted, f, of_len(sorted, m).index_of(c))
}

/// A control string is found wherever it stands in a text, whatever stands around it, and
/// where it is found it stands.
pub proof fn law_control_strings_are_found_anywhere(
    k: Tokenizer,
    a: Seq<char>,
    b: Seq<char>,
    x: int,
    text: Seq<char>,
    i: int,
)
    requires
        0 <= x < k.controls().len(),
        0 <= i,
    ensures
        k.controls()[x].0.len() > 0 ==> k.control_stands(
            a + k.controls()[x].0 + b,
            a.len() as int,
            x,
        ),
        k.control_stands(text, i, x) ==> text == text.take(i) + k.controls()[x].0 + text.skip(
            i + k.controls()[x].0.len(),
        ) && k.controls()[x].0.len() > 0,
{
    let c = k.controls()[x].0;
    let t = a + c + b;
    assert(t.subrange(a.len() as int, a.len() as int + c.len()) =~= c);
    if k.control_stands(text, i, x) {
        assert(text =~= text.take(i) + text.subrange(i, i + c.len()) + text.skip(i + c.len()));
    }
}

/// Whether a character is the hexadecimal digit of a value, in either case.
pub open spec fn is_hex_of(c: char, n: int) -> bool {
    0 <= n < 16 && (c == "0123456789abcdef"@[n] || c == "0123456789ABCDEF"@[n])
}

/// A token stands for a byte exactly if it is `<0x`, the two hexadecimal digits of the
/// byte in either case, and `>`; anything else is a piece of text.
pub proof fn law_byte_tokens_name_their_byte(t: Seq<char>, hi: int, lo: int)
    ensures
        t.len() == 6 && t.take(3) == "<0x"@ && t[5] == '>' && is_hex_of(t[3], hi) && is_hex_of(
            t[4],
            lo,
        ) ==> byte_token_value(t) == Some((16 * hi + lo) as u8),
        byte_token_value(t) is Some ==> t.len() == 6 && t.take(3) == "<0x"@ && t[5] == '>'
            && exists|a: int, b: int|
            #![trigger is_hex_of(t[3], a), is_hex_of(t[4], b)]
            is_hex_of(t[3], a) && is_hex_of(t[4], b) && byte_token_value(t) == Some(
                (16 * a + b) as u8,
            ),
{
    reveal_strlit("<0x");
    if t.len() == 6 && t.take(3) == "<0x"@ {
        assert(t.take(3)[0] == t[0] && t.take(3)[1] == t[1] && t.take(3)[2] == t[2]);
        lemma_hex_of(t[3], hi);
        lemma_hex_of(t[4], lo);
    }
    if byte_token_value(t) is Some {
        assert(t.take(3) =~= "<0x"@);
        lemma_hex_value(t[3]);
        lemma_hex_value(t[4]);
        let a = hex_value(t[3]).unwrap();
        let b = hex_value(t[4]).unwrap();
        assert(is_hex_of(t[3], a) && is_hex_of(t[4], b));
    }
}

proof fn lemma_tables()
    ensures
        "0123456789abcdef"@ == seq![
            '0', '1', '2', '3', '4', '5', '6', '7', '8', '9', 'a', 'b', 'c', 'd', 'e', 'f',
        ],
        "0123456789ABCDEF"@ == seq![
            '0', '1', '2', '3', '4', '5', '6', '7', '8', '9', 'A', 'B', 'C', 'D', 'E', 'F',
        ],
{
    reveal_strlit("0123456789abcdef");
    reveal_strlit("0123456789ABCDEF");
    assert("0123456789abcdef"@ =~= seq![
        '0', '1', '2', '3', '4', '5', '6', '7', '8', '9', 'a', 'b', 'c', 'd', 'e', 'f',
    ]);
    assert("0123456789ABCDEF"@ =~= seq![
        '0', '1', '2', '3', '4', '5', '6', '7', '8', '9', 'A', 'B', 'C', 'D', 'E', 'F',
    ]);
}

proof fn lemma_hex_of(c: char, n: int)
    ensures
        is_hex_of(c, n) ==> hex_value(c) == Some(n),
{
    lemma_tables();
}

proof fn lemma_hex_value(c: char)
    ensures
        hex_value(c) matches Some(n) ==> is_hex_of(c, n),
{
    lemma_tables();
}

} // verus!
