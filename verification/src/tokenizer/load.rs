//! Reading a tokenizer file.
//!
//! The fields that count are `model.vocab`, `model.merges` and `added_tokens`.
//! Merges are `["a", "b"]` pairs in the modern format and `"a b"` strings in the
//! old one; both are accepted.
use vstd::hash_map::StringHashMap;
use vstd::prelude::*;
use vstd::utf8::encode_utf8;
use crate::grammar::vocab::{added_entries, larger, vocab_entries};
use crate::json::{json_of_text, read_text, Json, Tree};
use crate::text::{chars_of, replace_char, replaced, text_of};
use crate::tokenizer::model::{
    control_view, key_of, lemma_pair_key, pair_key, rank_in, text_in, Tokenizer,
};

verus! {

/// Why a file yields no tokenizer.
pub enum LoadError {
    /// not JSON; the message says why
    NotJson(String),
    /// `model.vocab` is not an object
    NoVocab,
    /// an id leaves no room for the ids below it
    IdTooLarge,
}

// ---------------------------------------------------------------- vocabulary
/// The id of a vocabulary entry: its lower 32 bits, and zero where it is no id.
pub open spec fn entry_id(t: Tree) -> u32 {
    match t.uint() {
        Some(n) => n as u32,
        None => 0,
    }
}

/// The id of each token string; a later entry overrides an earlier one.
pub open spec fn vocab_map(entries: Seq<(Seq<char>, Tree)>) -> Map<Seq<char>, u32>
    decreases entries.len(),
{
    if entries.len() == 0 {
        Map::empty()
    } else {
        vocab_map(entries.drop_last()).insert(entries.last().0, entry_id(entries.last().1))
    }
}

/// The largest id of the entries, or zero.
pub open spec fn top_entry(entries: Seq<(Seq<char>, Tree)>) -> nat
    decreases entries.len(),
{
    if entries.len() == 0 {
        0
    } else {
        larger(top_entry(entries.drop_last()), entry_id(entries.last().1) as nat)
    }
}

// ---------------------------------------------------------------- merges
/// Whether `i` is the first space of a text.
pub open spec fn first_space(s: Seq<char>, i: int) -> bool {
    &&& 0 <= i < s.len()
    &&& s[i] == ' '
    &&& forall|j: int| 0 <= j < i ==> (#[trigger] s[j]) != ' '
}

/// The pair that an entry of the merges names.
pub open spec fn merge_pair(t: Tree) -> Option<(Seq<char>, Seq<char>)> {
    match t {
        Tree::Arr(a) => if a.len() == 2 && a[0] is Str && a[1] is Str {
            Some((a[0]->Str_0, a[1]->Str_0))
        } else {
            None
        },
        Tree::Str(s) => if exists|i: int| first_space(s, i) {
            let i = choose|i: int| first_space(s, i);
            Some((s.take(i), s.skip(i + 1)))
        } else {
            None
        },
        _ => None,
    }
}

/// The entries of `model.merges`.
pub open spec fn merge_entries(t: Tree) -> Seq<Tree> {
    match t.at("model"@).at("merges"@) {
        Tree::Arr(a) => a,
        _ => Seq::empty(),
    }
}

/// Whether entry `i` is the first one that names a pair.
pub open spec fn first_merge_of(
    merges: Seq<Tree>,
    left: Seq<char>,
    right: Seq<char>,
    i: int,
) -> bool {
    &&& 0 <= i < merges.len()
    &&& merge_pair(merges[i]) == Some((left, right))
    &&& forall|j: int| 0 <= j < i ==> merge_pair(#[trigger] merges[j]) != Some((left, right))
}

/// Whether a rank is that of a pair: where it is named first, in 32 bits.
pub open spec fn rank_right(
    merges: Seq<Tree>,
    left: Seq<char>,
    right: Seq<char>,
    r: Option<u32>,
) -> bool {
    match r {
        Some(n) => exists|i: int| first_merge_of(merges, left, right, i) && n == i as u32,
        None => forall|i: int|
            0 <= i < merges.len() ==> merge_pair(#[trigger] merges[i]) != Some((left, right)),
    }
}

// ---------------------------------------------------------------- control strings
/// The control string of an added token, if it has an id and a text.
pub open spec fn control_of(t: Tree) -> Option<(Seq<char>, u32)> {
    match (t.field("id"@), t.field("content"@)) {
        (Some(i), Some(c)) => match (i.uint(), c.text()) {
            (Some(n), Some(s)) => Some((s, n as u32)),
            _ => None,
        },
        _ => None,
    }
}

/// The control strings, in file order.
pub open spec fn controls_of(added: Seq<Tree>) -> Seq<(Seq<char>, u32)>
    decreases added.len(),
{
    if added.len() == 0 {
        Seq::empty()
    } else {
        match control_of(added.last()) {
            Some(c) => controls_of(added.drop_last()).push(c),
            None => controls_of(added.drop_last()),
        }
    }
}

/// The length of a control string, in bytes.
pub open spec fn control_len(c: (Seq<char>, u32)) -> nat {
    encode_utf8(c.0).len()
}

/// The control strings of one length.
pub open spec fn of_len(list: Seq<(Seq<char>, u32)>, n: nat) -> Seq<(Seq<char>, u32)> {
    list.filter(|c: (Seq<char>, u32)| control_len(c) == n)
}

/// Whether a list is in order of length, the longest first.
pub open spec fn longest_first(list: Seq<(Seq<char>, u32)>) -> bool {
    forall|i: int, j: int|
        0 <= i < j < list.len() ==> control_len(#[trigger] list[i]) >= control_len(
            #[trigger] list[j],
        )
}

/// Whether `sorted` is `list` in order of length, those of one length in the
/// order of `list`.
pub open spec fn sorted_from(list: Seq<(Seq<char>, u32)>, sorted: Seq<(Seq<char>, u32)>) -> bool {
    &&& longest_first(sorted)
    &&& forall|n: nat| #[trigger] of_len(sorted, n) == of_len(list, n)
}

/// The largest id of the control strings, or zero.
pub open spec fn top_control(list: Seq<(Seq<char>, u32)>) -> nat
    decreases list.len(),
{
    if list.len() == 0 {
        0
    } else {
        larger(top_control(list.drop_last()), list.last().1 as nat)
    }
}

// ---------------------------------------------------------------- what ids decode to
/// The value of a hexadecimal digit.
pub open spec fn hex_value(c: char) -> Option<int> {
    if '0' <= c <= '9' {
        Some(c as int - 48)
    } else if 'a' <= c <= 'f' {
        Some(c as int - 87)
    } else if 'A' <= c <= 'F' {
        Some(c as int - 55)
    } else {
        None
    }
}

/// The byte that two hexadecimal digits write.
pub open spec fn hex_pair(a: char, b: char) -> Option<u8> {
    match (hex_value(a), hex_value(b)) {
        (Some(x), Some(y)) => Some((16 * x + y) as u8),
        _ => None,
    }
}

/// The byte of a byte token: `<0x41>` is 0x41. Anything else is an ordinary piece.
pub open spec fn byte_token_value(t: Seq<char>) -> Option<u8> {
    if t.len() == 6 && t[0] == '<' && t[1] == '0' && t[2] == 'x' && t[5] == '>' {
        hex_pair(t[3], t[4])
    } else {
        None
    }
}

/// The piece of an id as the vocabulary has it: that of the last entry with the
/// id that is no byte token.
pub open spec fn entry_piece(entries: Seq<(Seq<char>, Tree)>, id: int) -> Option<Seq<char>>
    decreases entries.len(),
{
    if entries.len() == 0 {
        None
    } else {
        let e = entries.last();
        if entry_id(e.1) == id && byte_token_value(e.0) is None {
            Some(replaced(e.0, '\u{2581}', ' '))
        } else {
            entry_piece(entries.drop_last(), id)
        }
    }
}

/// The byte of an id as the vocabulary has it: that of the last byte token with
/// the id.
pub open spec fn entry_byte(entries: Seq<(Seq<char>, Tree)>, id: int) -> Option<u8>
    decreases entries.len(),
{
    if entries.len() == 0 {
        None
    } else {
        let e = entries.last();
        if entry_id(e.1) == id && byte_token_value(e.0) is Some {
            byte_token_value(e.0)
        } else {
            entry_byte(entries.drop_last(), id)
        }
    }
}

/// The text of the last control string with an id.
pub open spec fn control_text(list: Seq<(Seq<char>, u32)>, id: int) -> Option<Seq<char>>
    decreases list.len(),
{
    if list.len() == 0 {
        None
    } else if list.last().1 == id {
        Some(list.last().0)
    } else {
        control_text(list.drop_last(), id)
    }
}

// ---------------------------------------------------------------- the tokenizer
/// The ids that end a sequence: those of `<eos>` and `<end_of_turn>`, and 1 where
/// the vocabulary has neither.
pub open spec fn eos_of(vocab: Map<Seq<char>, u32>) -> Seq<u32> {
    let a = if vocab.contains_key("<eos>"@) {
        seq![vocab["<eos>"@]]
    } else {
        Seq::empty()
    };
    let b = if vocab.contains_key("<end_of_turn>"@) {
        seq![vocab["<end_of_turn>"@]]
    } else {
        Seq::empty()
    };
    if (a + b).len() == 0 {
        seq![1u32]
    } else {
        a + b
    }
}

/// The id that begins a sequence: that of `<bos>`, or 2.
pub open spec fn bos_of(vocab: Map<Seq<char>, u32>) -> u32 {
    if vocab.contains_key("<bos>"@) {
        vocab["<bos>"@]
    } else {
        2
    }
}

/// Whether a tokenizer is the one that a file describes.
pub open spec fn describes(t: Tree, entries: Seq<(Seq<char>, Tree)>, k: Tokenizer) -> bool {
    let list = controls_of(added_entries(t));
    &&& k.wf()
    &&& k.ids() == vocab_map(entries)
    &&& forall|left: Seq<char>, right: Seq<char>|
        rank_right(merge_entries(t), left, right, #[trigger] k.rank(left, right))
    &&& sorted_from(list, k.controls())
    &&& k.size() == larger(top_entry(entries), top_control(list)) + 1
    &&& forall|id: int|
        0 <= id < k.size() ==> #[trigger] k.piece(id) == match control_text(k.controls(), id) {
            Some(s) => Some(s),
            None => entry_piece(entries, id),
        }
    &&& forall|id: int|
        0 <= id < k.size() ==> #[trigger] k.byte_of(id) == match control_text(k.controls(), id) {
            Some(_) => None,
            None => entry_byte(entries, id),
        }
    &&& k.bos_id() == bos_of(vocab_map(entries))
    &&& k.eos_ids() == eos_of(vocab_map(entries))
}

/// What a file is made into.
pub open spec fn load_result(t: Tree, r: Result<Tokenizer, LoadError>) -> bool {
    match vocab_entries(t) {
        None => r matches Err(LoadError::NoVocab),
        Some(entries) => if larger(top_entry(entries), top_control(controls_of(added_entries(t))))
            >= usize::MAX {
            r matches Err(LoadError::IdTooLarge)
        } else {
            r matches Ok(k) && describes(t, entries, k)
        },
    }
}

// ---------------------------------------------------------------- reading
/// Whether fields are what a list of them holds.
spec fn fields_view(fields: Seq<(String, Json)>, es: Seq<(Seq<char>, Tree)>) -> bool {
    &&& es.len() == fields.len()
    &&& forall|k: int|
        0 <= k < fields.len() ==> #[trigger] es[k] == (fields[k].0@, fields[k].1.tree())
}

/// Whether trees are what a list of values holds.
spec fn values_view(values: Seq<Json>, ts: Seq<Tree>) -> bool {
    &&& ts.len() == values.len()
    &&& forall|k: int| 0 <= k < values.len() ==> #[trigger] ts[k] == values[k].tree()
}

fn id_of_entry(j: &Json) -> (id: u32)
    ensures
        id == entry_id(j.tree()),
{
    match j.as_u64() {
        Some(n) => n as u32,
        None => 0,
    }
}

fn read_vocab(
    fields: &Vec<(String, Json)>,
    Ghost(es): Ghost<Seq<(Seq<char>, Tree)>>,
) -> (r: (StringHashMap<u32>, u32))
    requires
        fields_view(fields@, es),
    ensures
        r.0@ == vocab_map(es),
        r.1 == top_entry(es),
{
    let mut vocab: StringHashMap<u32> = StringHashMap::new();
    let mut top: u32 = 0;
    let mut i: usize = 0;
    while i < fields.len()
        invariant
            i <= fields@.len(),
            fields_view(fields@, es),
            vocab@ == vocab_map(es.take(i as int)),
            top == top_entry(es.take(i as int)),
        decreases fields@.len() - i,
    {
        proof {
            assert(es.take(i + 1).drop_last() =~= es.take(i as int));
            assert(es[i as int] == (fields@[i as int].0@, fields@[i as int].1.tree()));
        }
        let id: u32 = id_of_entry(&fields[i].1);
        if top < id {
            top = id;
        }
        vocab.insert(fields[i].0.clone(), id);
        i += 1;
    }
    assert(es.take(i as int) =~= es);
    (vocab, top)
}

/// The pair that an entry of the merges names.
fn pair_of(j: &Json) -> (r: Option<(String, String)>)
    ensures
        match r {
            Some(p) => merge_pair(j.tree()) == Some((p.0@, p.1@)),
            None => merge_pair(j.tree()) is None,
        },
{
    match j {
        Json::Arr(a) => {
            if a.len() == 2 {
                proof {
                    assert(j.tree()->Arr_0[0] == a@[0].tree());
                    assert(j.tree()->Arr_0[1] == a@[1].tree());
                }
                match &a[0] {
                    Json::Str(x) => match &a[1] {
                        Json::Str(y) => {
                            assert(merge_pair(j.tree()) == Some((x@, y@)));
                            Some((x.clone(), y.clone()))
                        },
                        _ => None,
                    },
                    _ => None,
                }
            } else {
                None
            }
        },
        Json::Str(s) => {
            let cs = chars_of(s.as_str());
            let mut i: usize = 0;
            while i < cs.len() && cs[i] != ' '
                invariant
                    i <= cs@.len(),
                    forall|k: int| 0 <= k < i ==> (#[trigger] cs@[k]) != ' ',
                decreases cs@.len() - i,
            {
                i += 1;
            }
            if i == cs.len() {
                proof {
                    assert forall|k: int| !first_space(s@, k) by {}
                }
                return None;
            }
            proof {
                assert(first_space(s@, i as int));
                let k = choose|k: int| first_space(s@, k);
                assert(k == i) by {
                    if k < i {
                        assert(cs@[k] != ' ');
                    } else if i < k {
                        assert(s@[i as int] != ' ');
                    }
                }
            }
            let left = text_of(vstd::slice::slice_subrange(cs.as_slice(), 0, i));
            let right = text_of(vstd::slice::slice_subrange(cs.as_slice(), i + 1, cs.len()));
            proof {
                assert(left@ =~= s@.take(i as int));
                assert(right@ =~= s@.skip(i + 1));
                assert(j.tree() == Tree::Str(s@));
                assert(merge_pair(j.tree()) == Some((left@, right@)));
            }
            Some((left, right))
        },
        _ => None,
    }
}

fn read_merges(merges: &Vec<Json>, Ghost(ms): Ghost<Seq<Tree>>) -> (ranks: StringHashMap<u32>)
    requires
        values_view(merges@, ms),
    ensures
        forall|left: Seq<char>, right: Seq<char>|
            rank_right(ms, left, right, #[trigger] rank_in(ranks@, left, right)),
{
    let mut ranks: StringHashMap<u32> = StringHashMap::new();
    let mut i: usize = 0;
    while i < merges.len()
        invariant
            i <= merges@.len(),
            values_view(merges@, ms),
            forall|left: Seq<char>, right: Seq<char>|
                rank_right(
                    ms.take(i as int),
                    left,
                    right,
                    #[trigger] rank_in(ranks@, left, right),
                ),
        decreases merges@.len() - i,
    {
        let ghost before = ms.take(i as int);
        let ghost after = ms.take(i + 1);
        let ghost r0 = ranks@;
        let pair = pair_of(&merges[i]);
        proof {
            assert(ms[i as int] == merges@[i as int].tree());
        }
        if let Some((l, r)) = &pair {
            let key = key_of(l.as_str(), r.as_str());
            if !ranks.contains_key(key.as_str()) {
                ranks.insert(key, i as u32);
            }
        }
        proof {
            assert forall|left: Seq<char>, right: Seq<char>|
                rank_right(after, left, right, #[trigger] rank_in(ranks@, left, right)) by {
                let was = rank_in(r0, left, right);
                let is = rank_in(ranks@, left, right);
                assert(rank_right(before, left, right, was));
                assert forall|j: int| 0 <= j < i implies #[trigger] after[j] == before[j] by {}
                assert(after[i as int] == ms[i as int]);
                if was is Some {
                    let j = choose|j: int|
                        first_merge_of(before, left, right, j) && was == Some(j as u32);
                    assert(first_merge_of(after, left, right, j)) by {
                        assert forall|x: int| 0 <= x < j implies merge_pair(#[trigger] after[x])
                            != Some((left, right)) by {
                            assert(after[x] == before[x]);
                        }
                        assert(after[j] == before[j]);
                    }
                    assert(is == was);
                } else if merge_pair(ms[i as int]) == Some((left, right)) {
                    assert(first_merge_of(after, left, right, i as int)) by {
                        assert forall|x: int| 0 <= x < i implies merge_pair(#[trigger] after[x])
                            != Some((left, right)) by {
                            assert(after[x] == before[x]);
                        }
                    }
                    assert(is == Some(i as u32));
                } else {
                    if let Some((l, r)) = pair {
                        if pair_key(l@, r@) == pair_key(left, right) {
                            lemma_pair_key(l@, r@, left, right);
                        }
                    }
                    assert(is is None);
                    assert forall|x: int| 0 <= x < after.len() implies merge_pair(
                        #[trigger] after[x],
                    ) != Some((left, right)) by {
                        if x < i {
                            assert(after[x] == before[x]);
                        }
                    }
                }
            }
        }
        i += 1;
    }
    assert(ms.take(i as int) =~= ms);
    ranks
}

// ---------------------------------------------------------------- control strings
/// The control string of an added token.
fn control_entry(j: &Json) -> (r: Option<(String, u32)>)
    ensures
        match r {
            Some(p) => control_of(j.tree()) == Some((p.0@, p.1)),
            None => control_of(j.tree()) is None,
        },
{
    let id: Option<u64> = match j.get("id") {
        Some(i) => i.as_u64(),
        None => None,
    };
    let content = match j.get("content") {
        Some(c) => c.as_str(),
        None => None,
    };
    match (id, content) {
        (Some(id), Some(c)) => Some((c.to_owned(), id as u32)),
        _ => None,
    }
}

/// Puts a control string in its place among shorter and longer ones, behind those
/// of its own length.
fn insert_control(list: &mut Vec<(String, u32)>, c: (String, u32), Ghost(from): Ghost<Seq<(Seq<char>, u32)>>)
    requires
        sorted_from(from, control_view(old(list)@)),
    ensures
        sorted_from(from.push((c.0@, c.1)), control_view(final(list)@)),
{
    let ghost old_view = control_view(list@);
    let ghost e = (c.0@, c.1);
    let n: usize = c.0.as_str().as_bytes().len();
    let mut p: usize = 0;
    while p < list.len() && list[p].0.as_str().as_bytes().len() >= n
        invariant
            p <= list@.len(),
            list@ == old(list)@,
            old_view == control_view(list@),
            n == control_len(e),
            forall|i: int| 0 <= i < p ==> control_len(#[trigger] old_view[i]) >= n,
        decreases list@.len() - p,
    {
        proof {
            assert(old_view[p as int].0 == list@[p as int].0@);
        }
        p += 1;
    }
    proof {
        if p < list@.len() {
            assert(old_view[p as int].0 == list@[p as int].0@);
        }
    }
    list.insert(p, c);
    proof {
        let head = old_view.take(p as int);
        let tail = old_view.skip(p as int);
        let now = control_view(list@);
        assert(now =~= head + seq![e] + tail);
        assert(old_view =~= head + tail);
        assert(longest_first(now)) by {
            assert forall|i: int, j: int| 0 <= i < j < now.len() implies control_len(
                #[trigger] now[i],
            ) >= control_len(#[trigger] now[j]) by {
                if i < p {
                    assert(now[i] == old_view[i]);
                }
                if j < p {
                    assert(now[j] == old_view[j]);
                }
                if i > p {
                    assert(now[i] == old_view[i - 1]);
                }
                if j > p {
                    assert(now[j] == old_view[j - 1]);
                    if j - 1 > p {
                        assert(control_len(old_view[p as int]) >= control_len(old_view[j - 1]));
                    }
                }
            }
        }
        assert forall|m: nat| #[trigger] of_len(now, m) == of_len(from.push(e), m) by {
            let f = |c: (Seq<char>, u32)| control_len(c) == m;
            assert(of_len(old_view, m) == of_len(from, m));
            Seq::filter_distributes_over_add(head, tail, f);
            Seq::filter_distributes_over_add(head + seq![e], tail, f);
            Seq::filter_distributes_over_add(head, seq![e], f);
            assert(from.push(e) =~= from + seq![e]);
            Seq::filter_distributes_over_add(from, seq![e], f);
            if m == n {
                assert forall|i: int| 0 <= i < tail.len() implies !f(#[trigger] tail[i]) by {
                    assert(tail[i] == old_view[p + i]);
                    if i > 0 {
                        assert(control_len(old_view[p as int]) >= control_len(old_view[p + i]));
                    }
                }
                lemma_filter_none(tail, f);
                assert(of_len(old_view, m) =~= head.filter(f));
                assert(of_len(now, m) =~= head.filter(f) + seq![e].filter(f));
            } else {
                lemma_filter_none(seq![e], f);
                assert(of_len(now, m) =~= head.filter(f) + tail.filter(f));
                assert(of_len(from.push(e), m) =~= of_len(from, m));
            }
        }
    }
}

proof fn lemma_filter_none(s: Seq<(Seq<char>, u32)>, f: spec_fn((Seq<char>, u32)) -> bool)
    requires
        forall|i: int| 0 <= i < s.len() ==> !f(#[trigger] s[i]),
    ensures
        s.filter(f) == Seq::<(Seq<char>, u32)>::empty(),
    decreases s.len(),
{
    reveal(Seq::filter);
    if s.len() > 0 {
        assert(!f(s[s.len() - 1]));
        assert forall|i: int| 0 <= i < s.drop_last().len() implies !f(
            #[trigger] s.drop_last()[i],
        ) by {
            assert(!f(s[i]));
        }
        lemma_filter_none(s.drop_last(), f);
    }
}

/// The control strings, the longest first, and the largest of their ids.
fn read_controls(added: &Vec<Json>, Ghost(ads): Ghost<Seq<Tree>>) -> (r: (Vec<(String, u32)>, u32))
    requires
        values_view(added@, ads),
    ensures
        sorted_from(controls_of(ads), control_view(r.0@)),
        r.1 == top_control(controls_of(ads)),
{
    let mut list: Vec<(String, u32)> = Vec::new();
    let mut top: u32 = 0;
    let mut i: usize = 0;
    proof {
        assert(ads.take(0).len() == 0);
        assert(control_view(list@) =~= controls_of(ads.take(0)));
    }
    while i < added.len()
        invariant
            i <= added@.len(),
            values_view(added@, ads),
            sorted_from(controls_of(ads.take(i as int)), control_view(list@)),
            top == top_control(controls_of(ads.take(i as int))),
        decreases added@.len() - i,
    {
        let ghost before = controls_of(ads.take(i as int));
        proof {
            assert(ads.take(i + 1).drop_last() =~= ads.take(i as int));
            assert(ads[i as int] == added@[i as int].tree());
        }
        if let Some(c) = control_entry(&added[i]) {
            if top < c.1 {
                top = c.1;
            }
            proof {
                assert(before.push((c.0@, c.1)).drop_last() =~= before);
            }
            insert_control(&mut list, c, Ghost(before));
        }
        i += 1;
    }
    assert(ads.take(i as int) =~= ads);
    (list, top)
}

// ---------------------------------------------------------------- pieces and bytes
fn hex_of(c: char) -> (r: Option<u8>)
    ensures
        match r {
            Some(n) => hex_value(c) == Some(n as int) && n < 16,
            None => hex_value(c) is None,
        },
{
    if '0' <= c && c <= '9' {
        Some((c as u32 - 48) as u8)
    } else if 'a' <= c && c <= 'f' {
        Some((c as u32 - 87) as u8)
    } else if 'A' <= c && c <= 'F' {
        Some((c as u32 - 55) as u8)
    } else {
        None
    }
}

/// `<0x41>` is 0x41. Anything else is an ordinary piece.
pub fn parse_byte_token(t: &str) -> (r: Option<u8>)
    ensures
        r == byte_token_value(t@),
{
    let cs = chars_of(t);
    if cs.len() != 6 || cs[0] != '<' || cs[1] != '0' || cs[2] != 'x' || cs[5] != '>' {
        return None;
    }
    match (hex_of(cs[3]), hex_of(cs[4])) {
        (Some(x), Some(y)) => Some(16 * x + y),
        _ => None,
    }
}

pub(crate) proof fn lemma_top_entry(entries: Seq<(Seq<char>, Tree)>, i: int)
    requires
        0 <= i < entries.len(),
    ensures
        entry_id(entries[i].1) <= top_entry(entries),
    decreases entries.len(),
{
    if i < entries.len() - 1 {
        lemma_top_entry(entries.drop_last(), i);
    }
}

proof fn lemma_top_control(list: Seq<(Seq<char>, u32)>, i: int)
    requires
        0 <= i < list.len(),
    ensures
        list[i].1 <= top_control(list),
    decreases list.len(),
{
    if i < list.len() - 1 {
        lemma_top_control(list.drop_last(), i);
    }
}

/// A filtered list holds nothing new.
pub(crate) proof fn lemma_filter_from(
    list: Seq<(Seq<char>, u32)>,
    f: spec_fn((Seq<char>, u32)) -> bool,
    i: int,
) -> (j: int)
    requires
        0 <= i < list.filter(f).len(),
    ensures
        0 <= j < list.len(),
        list[j] == list.filter(f)[i],
    decreases list.len(),
{
    reveal(Seq::filter);
    let init = list.drop_last();
    if list.len() == 0 {
        0
    } else if i < init.filter(f).len() {
        lemma_filter_from(init, f, i)
    } else {
        list.len() - 1
    }
}

/// A sorted list holds what the list it is made from holds.
pub(crate) proof fn lemma_sorted_from(
    list: Seq<(Seq<char>, u32)>,
    sorted: Seq<(Seq<char>, u32)>,
    i: int,
) -> (j: int)
    requires
        sorted_from(list, sorted),
        0 <= i < sorted.len(),
    ensures
        0 <= j < list.len(),
        list[j] == sorted[i],
        sorted[i].1 <= top_control(list),
{
    let c = sorted[i];
    let n = control_len(c);
    let f = |c: (Seq<char>, u32)| control_len(c) == n;
    broadcast use {vstd::seq_lib::group_seq_properties, vstd::seq_lib::group_filter_ensures};

    assert(sorted.contains(c));
    assert(of_len(sorted, n).contains(c));
    assert(of_len(sorted, n) == of_len(list, n));
    let k = of_len(list, n).index_of(c);
    let j = lemma_filter_from(list, f, k);
    lemma_top_control(list, j);
    j
}

/// What each id decodes to.
fn read_pieces(
    fields: &Vec<(String, Json)>,
    Ghost(es): Ghost<Seq<(Seq<char>, Tree)>>,
    added: &Vec<(String, u32)>,
    n: usize,
) -> (r: (Vec<Option<String>>, Vec<Option<u8>>))
    requires
        fields_view(fields@, es),
        forall|i: int| 0 <= i < es.len() ==> entry_id((#[trigger] es[i]).1) < n,
        forall|i: int| 0 <= i < added@.len() ==> (#[trigger] added@[i]).1 < n,
    ensures
        r.0@.len() == n,
        r.1@.len() == n,
        forall|id: int|
            0 <= id < n ==> text_in(#[trigger] r.0@[id]) == match control_text(
                control_view(added@),
                id,
            ) {
                Some(s) => Some(s),
                None => entry_piece(es, id),
            },
        forall|id: int|
            0 <= id < n ==> (#[trigger] r.1@[id]) == match control_text(control_view(added@), id) {
                Some(_) => None,
                None => entry_byte(es, id),
            },
{
    let mut pieces: Vec<Option<String>> = Vec::new();
    let mut bytes: Vec<Option<u8>> = Vec::new();
    while pieces.len() < n
        invariant
            pieces@.len() <= n,
            bytes@.len() == pieces@.len(),
            forall|id: int| 0 <= id < pieces@.len() ==> (#[trigger] pieces@[id]) is None,
            forall|id: int| 0 <= id < bytes@.len() ==> (#[trigger] bytes@[id]) is None,
        decreases n - pieces@.len(),
    {
        pieces.push(None);
        bytes.push(None);
    }
    let mut i: usize = 0;
    while i < fields.len()
        invariant
            i <= fields@.len(),
            fields_view(fields@, es),
            forall|i: int| 0 <= i < es.len() ==> entry_id((#[trigger] es[i]).1) < n,
            pieces@.len() == n,
            bytes@.len() == n,
            forall|id: int|
                0 <= id < n ==> text_in(#[trigger] pieces@[id]) == entry_piece(
                    es.take(i as int),
                    id,
                ),
            forall|id: int|
                0 <= id < n ==> (#[trigger] bytes@[id]) == entry_byte(es.take(i as int), id),
        decreases fields@.len() - i,
    {
        let ghost p0 = pieces@;
        let ghost b0 = bytes@;
        proof {
            assert(es.take(i + 1).drop_last() =~= es.take(i as int));
            assert(es[i as int] == (fields@[i as int].0@, fields@[i as int].1.tree()));
            assert(entry_id(es[i as int].1) < n);
        }
        let id: u32 = id_of_entry(&fields[i].1);
        match parse_byte_token(fields[i].0.as_str()) {
            Some(b) => {
                bytes.set(id as usize, Some(b));
            },
            None => {
                let text = replace_char(fields[i].0.as_str(), '\u{2581}', ' ');
                pieces.set(id as usize, Some(text));
            },
        }
        proof {
            let after = es.take(i + 1);
            assert(after.last() == es[i as int]);
            assert forall|x: int| 0 <= x < n implies text_in(#[trigger] pieces@[x])
                == entry_piece(after, x) by {
                assert(text_in(p0[x]) == entry_piece(es.take(i as int), x));
            }
            assert forall|x: int| 0 <= x < n implies (#[trigger] bytes@[x]) == entry_byte(
                after,
                x,
            ) by {
                assert(b0[x] == entry_byte(es.take(i as int), x));
            }
        }
        i += 1;
    }
    assert(es.take(i as int) =~= es);
    let ghost list = control_view(added@);
    let mut i: usize = 0;
    proof {
        assert(list.take(0).len() == 0);
    }
    while i < added.len()
        invariant
            i <= added@.len(),
            list == control_view(added@),
            forall|i: int| 0 <= i < added@.len() ==> (#[trigger] added@[i]).1 < n,
            pieces@.len() == n,
            bytes@.len() == n,
            forall|id: int|
                0 <= id < n ==> text_in(#[trigger] pieces@[id]) == match control_text(
                    list.take(i as int),
                    id,
                ) {
                    Some(s) => Some(s),
                    None => entry_piece(es, id),
                },
            forall|id: int|
                0 <= id < n ==> (#[trigger] bytes@[id]) == match control_text(
                    list.take(i as int),
                    id,
                ) {
                    Some(_) => None,
                    None => entry_byte(es, id),
                },
        decreases added@.len() - i,
    {
        let ghost p0 = pieces@;
        let ghost b0 = bytes@;
        let ghost before = list.take(i as int);
        let ghost after = list.take(i + 1);
        proof {
            assert(after.drop_last() =~= before);
            assert(after.last() == (added@[i as int].0@, added@[i as int].1));
            assert(added@[i as int].1 < n);
        }
        let id: usize = added[i].1 as usize;
        pieces.set(id, Some(added[i].0.clone()));
        bytes.set(id, None);
        proof {
            assert forall|x: int| 0 <= x < n implies text_in(#[trigger] pieces@[x])
                == match control_text(after, x) {
                Some(s) => Some(s),
                None => entry_piece(es, x),
            } by {
                if x != id {
                    assert(pieces@[x] == p0[x]);
                }
            }
            assert forall|x: int| 0 <= x < n implies (#[trigger] bytes@[x]) == match control_text(
                after,
                x,
            ) {
                Some(_) => None,
                None => entry_byte(es, x),
            } by {
                if x != id {
                    assert(bytes@[x] == b0[x]);
                }
            }
        }
        i += 1;
    }
    assert(list.take(i as int) =~= list);
    (pieces, bytes)
}

// ---------------------------------------------------------------- loading
impl Tokenizer {
    /// Makes the tokenizer that a file describes.
    pub fn from_json(v: &Json) -> (r: Result<Tokenizer, LoadError>)
        ensures
            load_result(v.tree(), r),
    {
        let model = match v.get("model") {
            Some(m) => m,
            None => {
                return Err(LoadError::NoVocab);
            },
        };
        let fields = match model.get("vocab") {
            Some(Json::Obj(fields)) => fields,
            _ => {
                return Err(LoadError::NoVocab);
            },
        };
        let ghost t = v.tree();
        let ghost es = vocab_entries(t).unwrap();
        proof {
            assert(fields_view(fields@, es));
        }
        let (vocab, top) = read_vocab(fields, Ghost(es));

        let none: Vec<Json> = Vec::new();
        let merges: &Vec<Json> = match model.get("merges") {
            Some(Json::Arr(a)) => a,
            _ => &none,
        };
        let ghost ms = merge_entries(t);
        proof {
            assert(values_view(merges@, ms));
        }
        let ranks = read_merges(merges, Ghost(ms));

        let added: &Vec<Json> = match v.get("added_tokens") {
            Some(Json::Arr(a)) => a,
            _ => &none,
        };
        let ghost ads = added_entries(t);
        proof {
            assert(values_view(added@, ads));
        }
        let (controls, top_added) = read_controls(added, Ghost(ads));
        let ghost list = controls_of(ads);

        let largest: u32 = if top < top_added {
            top_added
        } else {
            top
        };
        if largest as u64 >= usize::MAX as u64 {
            return Err(LoadError::IdTooLarge);
        }
        let n: usize = largest as usize + 1;
        proof {
            assert forall|i: int| 0 <= i < es.len() implies entry_id((#[trigger] es[i]).1) < n by {
                lemma_top_entry(es, i);
            }
            assert forall|i: int| 0 <= i < controls@.len() implies (#[trigger] controls@[i]).1
                < n by {
                lemma_sorted_from(list, control_view(controls@), i);
            }
        }
        let (pieces, bytes) = read_pieces(fields, Ghost(es), &controls, n);

        let bos: u32 = match vocab.get("<bos>") {
            Some(id) => *id,
            None => 2,
        };
        let mut eos: Vec<u32> = Vec::new();
        if let Some(id) = vocab.get("<eos>") {
            eos.push(*id);
        }
        if let Some(id) = vocab.get("<end_of_turn>") {
            eos.push(*id);
        }
        if eos.len() == 0 {
            eos.push(1);
        }
        proof {
            assert(eos@ =~= eos_of(vocab@));
        }
        Ok(Tokenizer::assemble(vocab, ranks, pieces, bytes, controls, bos, eos))
    }

    /// Reads a tokenizer file.
    pub fn load(raw: &str) -> (r: Result<Tokenizer, LoadError>)
        ensures
            match json_of_text(raw@) {
                Ok(t) => load_result(t, r),
                Err(e) => r matches Err(LoadError::NotJson(m)) && m@ == e,
            },
    {
        match read_text(raw) {
            Ok(v) => Tokenizer::from_json(&v),
            Err(e) => Err(LoadError::NotJson(e)),
        }
    }
}

} // verus!
