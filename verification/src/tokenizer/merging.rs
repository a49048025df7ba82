//! Which pairs of a text a tokenizer merges, said of the file that it was read from.
use vstd::prelude::*;
use vstd::utf8::encode_utf8;
use crate::json::Tree;
use crate::text::replaced;
use crate::tokenizer::bpe::{byte_token, char_parts, hex_digit, merge_at};
use crate::tokenizer::laws::law_plain_text_is_one_unit;
use crate::tokenizer::load::{
    describes, first_merge_of, first_space, merge_entries, merge_pair, rank_right, vocab_map,
};
use crate::tokenizer::model::Tokenizer;

verus! {

// ---------------------------------------------------------------- the list of merges
/// Whether entry `p` of a list of merges joins two parts.
pub open spec fn joins(merges: Seq<Tree>, p: int, left: Seq<char>, right: Seq<char>) -> bool {
    0 <= p < merges.len() && merge_pair(merges[p]) == Some((left, right))
}

/// Whether some entry joins two parts.
pub open spec fn joined_by(merges: Seq<Tree>, left: Seq<char>, right: Seq<char>) -> bool {
    exists|p: int| joins(merges, p, left, right)
}

/// Whether place `p` lies before every entry that joins two parts.
pub open spec fn lies_before(merges: Seq<Tree>, p: int, left: Seq<char>, right: Seq<char>) -> bool {
    forall|q: int| #[trigger] joins(merges, q, left, right) ==> p < q
}

/// Whether some entry for the first pair stands before every entry for the second.
pub open spec fn stands_before(
    merges: Seq<Tree>,
    a: (Seq<char>, Seq<char>),
    b: (Seq<char>, Seq<char>),
) -> bool {
    exists|p: int| #[trigger] joins(merges, p, a.0, a.1) && lies_before(merges, p, b.0, b.1)
}

/// Both ways of writing an entry name the same pair: a list of two texts, and one
/// text with a space between the two.
pub proof fn law_both_formats_name_the_pair(left: Seq<char>, right: Seq<char>)
    requires
        !left.contains(' '),
    ensures
        merge_pair(Tree::Arr(seq![Tree::Str(left), Tree::Str(right)])) == Some((left, right)),
        merge_pair(Tree::Str(left + seq![' '] + right)) == Some((left, right)),
{
    let s = left + seq![' '] + right;
    let n = left.len() as int;
    assert forall|j: int| 0 <= j < n implies (#[trigger] s[j]) != ' ' by {
        assert(left.contains(left[j]));
    }
    assert(first_space(s, n));
    let i = choose|i: int| first_space(s, i);
    assert(i == n) by {
        if i < n {
            assert(s[i] != ' ');
        } else if n < i {
            assert(s[n] != ' ');
        }
    }
    assert(s.take(n) =~= left);
    assert(s.skip(n + 1) =~= right);
}

/// Whether a list is short enough for a place in it to be a rank.
pub open spec fn ranks_fit(merges: Seq<Tree>) -> bool {
    merges.len() <= 0x1_0000_0000
}

// ---------------------------------------------------------------- ranks
/// An entry gives its pair a rank that is no later than the entry.
proof fn lemma_has_rank(merges: Seq<Tree>, k: Tokenizer, p: int, left: Seq<char>, right: Seq<char>)
    requires
        forall|l: Seq<char>, r: Seq<char>| rank_right(merges, l, r, #[trigger] k.rank(l, r)),
        ranks_fit(merges),
        joins(merges, p, left, right),
    ensures
        k.rank(left, right) matches Some(n) && n <= p,
{
    assert(rank_right(merges, left, right, k.rank(left, right)));
    if let Some(n) = k.rank(left, right) {
        let i = choose|i: int| first_merge_of(merges, left, right, i) && n == i as u32;
        if p < i {
            assert(merge_pair(merges[p]) != Some((left, right)));
        }
    }
}

/// A rank is the place of an entry for its pair.
proof fn lemma_rank_joins(merges: Seq<Tree>, k: Tokenizer, left: Seq<char>, right: Seq<char>)
    requires
        forall|l: Seq<char>, r: Seq<char>| rank_right(merges, l, r, #[trigger] k.rank(l, r)),
        ranks_fit(merges),
        k.rank(left, right) is Some,
    ensures
        joins(merges, k.rank(left, right).unwrap() as int, left, right),
{
    assert(rank_right(merges, left, right, k.rank(left, right)));
    let n = k.rank(left, right).unwrap();
    let i = choose|i: int| first_merge_of(merges, left, right, i) && n == i as u32;
}

// ---------------------------------------------------------------- parts
/// Of all neighbours in a row of parts, those are joined whose entry stands first in
/// the file's list of merges, and the leftmost of them where they occur more than
/// once: entry `p` joins `x` and `y`, no earlier entry joins any two neighbours, and
/// `p` joins none further left.
pub proof fn law_the_earliest_merge_is_made(
    t: Tree,
    entries: Seq<(Seq<char>, Tree)>,
    k: Tokenizer,
    before: Seq<Seq<char>>,
    x: Seq<char>,
    y: Seq<char>,
    behind: Seq<Seq<char>>,
    p: int,
)
    requires
        describes(t, entries, k),
        ranks_fit(merge_entries(t)),
        joins(merge_entries(t), p, x, y),
        ({
            let parts = before + seq![x, y] + behind;
            forall|j: int, q: int|
                #![trigger joins(merge_entries(t), q, parts[j], parts[j + 1])]
                0 <= j < parts.len() - 1 && joins(merge_entries(t), q, parts[j], parts[j + 1])
                    ==> p < q || (p == q && before.len() <= j)
        }),
    ensures
        k.merged(before + seq![x, y] + behind) == k.merged(before + seq![x + y] + behind),
{
    let merges = merge_entries(t);
    let parts = before + seq![x, y] + behind;
    let i = before.len() as int;
    assert(parts[i] == x && parts[i + 1] == y);
    lemma_has_rank(merges, k, p, x, y);
    lemma_rank_joins(merges, k, x, y);
    let n = k.rank(x, y).unwrap() as int;
    assert(joins(merges, n, parts[i], parts[i + 1]));
    assert(n == p);
    assert(k.merges_first(parts, i)) by {
        assert forall|j: int| (#[trigger] k.rank_at(parts, j)) is Some implies k.rank_at(
            parts,
            i,
        ).unwrap() < k.rank_at(parts, j).unwrap() || (k.rank_at(parts, i).unwrap() == k.rank_at(
            parts,
            j,
        ).unwrap() && i <= j) by {
            lemma_rank_joins(merges, k, parts[j], parts[j + 1]);
            assert(joins(merges, k.rank_at(parts, j).unwrap() as int, parts[j], parts[j + 1]));
        }
    }
    let j = choose|j: int| k.merges_first(parts, j);
    assert(k.rank_at(parts, i) is Some);
    assert(k.rank_at(parts, j) is Some);
    assert(i == j);
    assert(merge_at(parts, i) =~= before + seq![x + y] + behind);
}

/// Parts of which no entry joins two neighbours stay as they are.
pub proof fn law_unnamed_neighbours_stay_apart(
    t: Tree,
    entries: Seq<(Seq<char>, Tree)>,
    k: Tokenizer,
    parts: Seq<Seq<char>>,
)
    requires
        describes(t, entries, k),
        forall|j: int|
            0 <= j < parts.len() - 1 ==> !joined_by(
                merge_entries(t),
                #[trigger] parts[j],
                parts[j + 1],
            ),
    ensures
        k.merged(parts) == parts,
{
    let merges = merge_entries(t);
    assert forall|i: int| !k.merges_first(parts, i) by {
        if k.merges_first(parts, i) {
            let l = parts[i];
            let r = parts[i + 1];
            assert(rank_right(merges, l, r, k.rank(l, r)));
            let n = k.rank(l, r).unwrap();
            let q = choose|q: int| first_merge_of(merges, l, r, q) && n == q as u32;
            assert(joins(merges, q, l, r));
        }
    }
}

// ---------------------------------------------------------------- texts
/// Whether no control string stands anywhere in a text.
pub open spec fn no_control(k: Tokenizer, text: Seq<char>) -> bool {
    forall|i: int, x: int|
        0 <= i < text.len() && 0 <= x < k.controls().len() ==> !#[trigger] k.control_stands(
            text,
            i,
            x,
        )
}

/// The ids of three characters that are no token together.
proof fn lemma_three(k: Tokenizer, x: char, y: char, z: char)
    requires
        no_control(k, seq![x, y, z]),
        x != ' ' && y != ' ' && z != ' ',
        !k.ids().contains_key(seq![x, y, z]),
    ensures
        k.text_ids(seq![x, y, z]) == k.parts_ids(k.merged(seq![seq![x], seq![y], seq![z]])),
{
    let text = seq![x, y, z];
    assert forall|j: int, c: int| 0 <= j < text.len() implies !#[trigger] k.control_at(
        text,
        j,
        c,
    ) by {}
    law_plain_text_is_one_unit(k, text);
    assert(replaced(text, ' ', '\u{2581}') =~= text);
    assert(char_parts(text) =~= seq![seq![x], seq![y], seq![z]]);
}

/// The ids of two parts that are tokens.
proof fn lemma_two_ids(k: Tokenizer, a: Seq<char>, b: Seq<char>)
    requires
        k.ids().contains_key(a),
        k.ids().contains_key(b),
    ensures
        k.parts_ids(seq![a, b]) == seq![k.ids()[a], k.ids()[b]],
{
    let none = Seq::<Seq<char>>::empty();
    assert(seq![a, b].drop_last() =~= seq![a]);
    assert(seq![a].drop_last() =~= none);
    assert(k.parts_ids(none) =~= Seq::empty());
    assert(k.parts_ids(seq![a]) =~= seq![k.ids()[a]]);
    assert(k.parts_ids(seq![a, b]) =~= seq![k.ids()[a], k.ids()[b]]);
}

/// Where both neighbours of a character could be joined to it, the pair whose entry
/// stands earlier in the file's list is: a text `xyz` that is itself no token is
/// the ids of `xy` and `z` where the entry for `x` and `y` stands before any for
/// `y` and `z`, and the ids of `x` and `yz` where it is the other way round.
pub proof fn law_earlier_merges_win(
    t: Tree,
    entries: Seq<(Seq<char>, Tree)>,
    k: Tokenizer,
    x: char,
    y: char,
    z: char,
)
    requires
        describes(t, entries, k),
        ranks_fit(merge_entries(t)),
        no_control(k, seq![x, y, z]),
        x != ' ' && y != ' ' && z != ' ',
        !vocab_map(entries).contains_key(seq![x, y, z]),
        !joined_by(merge_entries(t), seq![x, y], seq![z]),
        !joined_by(merge_entries(t), seq![x], seq![y, z]),
    ensures
        ({
            let ids = vocab_map(entries);
            &&& stands_before(merge_entries(t), (seq![x], seq![y]), (seq![y], seq![z]))
                && ids.contains_key(seq![x, y]) && ids.contains_key(seq![z]) ==> k.text_ids(
                seq![x, y, z],
            ) == seq![ids[seq![x, y]], ids[seq![z]]]
            &&& stands_before(merge_entries(t), (seq![y], seq![z]), (seq![x], seq![y]))
                && ids.contains_key(seq![x]) && ids.contains_key(seq![y, z]) ==> k.text_ids(
                seq![x, y, z],
            ) == seq![ids[seq![x]], ids[seq![y, z]]]
        }),
{
    let ids = vocab_map(entries);
    let merges = merge_entries(t);
    let a = seq![x];
    let b = seq![y];
    let c = seq![z];
    lemma_three(k, x, y, z);
    assert(a + b =~= seq![x, y]);
    assert(b + c =~= seq![y, z]);
    if stands_before(merges, (a, b), (b, c)) && ids.contains_key(seq![x, y]) && ids.contains_key(
        c,
    ) {
        lemma_left_first(t, entries, k, a, b, c);
        lemma_two_ids(k, seq![x, y], c);
    }
    if stands_before(merges, (b, c), (a, b)) && ids.contains_key(a) && ids.contains_key(
        seq![y, z],
    ) {
        lemma_right_first(t, entries, k, a, b, c);
        lemma_two_ids(k, a, seq![y, z]);
    }
}

/// The first entry for a pair, none of which stands behind one that is known.
proof fn lemma_first_entry(merges: Seq<Tree>, l: Seq<char>, r: Seq<char>, p: int) -> (f: int)
    requires
        joins(merges, p, l, r),
    ensures
        joins(merges, f, l, r),
        f <= p,
        forall|q: int| #[trigger] joins(merges, q, l, r) ==> f <= q,
    decreases p,
{
    if exists|q: int| #[trigger] joins(merges, q, l, r) && q < p {
        lemma_first_entry(merges, l, r, choose|q: int| #[trigger] joins(merges, q, l, r) && q < p)
    } else {
        p
    }
}

proof fn lemma_left_first(
    t: Tree,
    entries: Seq<(Seq<char>, Tree)>,
    k: Tokenizer,
    a: Seq<char>,
    b: Seq<char>,
    c: Seq<char>,
)
    requires
        describes(t, entries, k),
        ranks_fit(merge_entries(t)),
        stands_before(merge_entries(t), (a, b), (b, c)),
        !joined_by(merge_entries(t), a + b, c),
    ensures
        k.merged(seq![a, b, c]) == seq![a + b, c],
{
    let merges = merge_entries(t);
    let none = Seq::<Seq<char>>::empty();
    let w = choose|w: int| #[trigger] joins(merges, w, a, b) && lies_before(merges, w, b, c);
    let p = lemma_first_entry(merges, a, b, w);
    let parts = none + seq![a, b] + seq![c];
    assert(parts =~= seq![a, b, c]);
    assert forall|j: int, q: int|
        #![trigger joins(merges, q, parts[j], parts[j + 1])]
        0 <= j < parts.len() - 1 && joins(merges, q, parts[j], parts[j + 1]) implies p < q || (p
        == q && none.len() <= j) by {
        if j == 0 {
            assert(joins(merges, q, a, b));
        } else {
            assert(joins(merges, q, b, c));
        }
    }
    law_the_earliest_merge_is_made(t, entries, k, none, a, b, seq![c], p);
    let next = seq![a + b, c];
    assert(none + seq![a + b] + seq![c] =~= next);
    assert forall|j: int| 0 <= j < next.len() - 1 implies !joined_by(
        merges,
        #[trigger] next[j],
        next[j + 1],
    ) by {
        assert(j == 0);
    }
    law_unnamed_neighbours_stay_apart(t, entries, k, next);
}

proof fn lemma_right_first(
    t: Tree,
    entries: Seq<(Seq<char>, Tree)>,
    k: Tokenizer,
    a: Seq<char>,
    b: Seq<char>,
    c: Seq<char>,
)
    requires
        describes(t, entries, k),
        ranks_fit(merge_entries(t)),
        stands_before(merge_entries(t), (b, c), (a, b)),
        !joined_by(merge_entries(t), a, b + c),
    ensures
        k.merged(seq![a, b, c]) == seq![a, b + c],
{
    let merges = merge_entries(t);
    let none = Seq::<Seq<char>>::empty();
    let w = choose|w: int| #[trigger] joins(merges, w, b, c) && lies_before(merges, w, a, b);
    let p = lemma_first_entry(merges, b, c, w);
    let parts = seq![a] + seq![b, c] + none;
    assert(parts =~= seq![a, b, c]);
    assert forall|j: int, q: int|
        #![trigger joins(merges, q, parts[j], parts[j + 1])]
        0 <= j < parts.len() - 1 && joins(merges, q, parts[j], parts[j + 1]) implies p < q || (p
        == q && seq![a].len() <= j) by {
        if j == 0 {
            assert(joins(merges, q, a, b));
        } else {
            assert(joins(merges, q, b, c));
        }
    }
    law_the_earliest_merge_is_made(t, entries, k, seq![a], b, c, none, p);
    let next = seq![a, b + c];
    assert(seq![a] + seq![b + c] + none =~= next);
    assert forall|j: int| 0 <= j < next.len() - 1 implies !joined_by(
        merges,
        #[trigger] next[j],
        next[j + 1],
    ) by {
        assert(j == 0);
    }
    law_unnamed_neighbours_stay_apart(t, entries, k, next);
}

// ---------------------------------------------------------------- units
/// To merging, a space is U+2581: a text is encoded as the text in which U+2581
/// stands for each space, where no control string stands in either.
pub proof fn law_a_space_is_u2581(k: Tokenizer, text: Seq<char>, norm: Seq<char>)
    requires
        norm.len() == text.len(),
        forall|i: int|
            0 <= i < text.len() ==> (#[trigger] norm[i]) == if text[i] == ' ' {
                '\u{2581}'
            } else {
                text[i]
            },
        no_control(k, text),
        no_control(k, norm),
    ensures
        k.text_ids(text) == k.text_ids(norm),
{
    lemma_one_unit(k, text);
    lemma_one_unit(k, norm);
    assert(replaced(text, ' ', '\u{2581}') =~= norm);
    assert(replaced(norm, ' ', '\u{2581}') =~= norm);
}

proof fn lemma_one_unit(k: Tokenizer, text: Seq<char>)
    requires
        no_control(k, text),
    ensures
        k.text_ids(text) == k.bpe_ids(text),
{
    assert forall|j: int, c: int| 0 <= j < text.len() implies !#[trigger] k.control_at(
        text,
        j,
        c,
    ) by {}
    law_plain_text_is_one_unit(k, text);
}

/// A text that is a token as it stands is that one id, whatever could be merged in
/// it.
pub proof fn law_a_token_is_its_id(k: Tokenizer, text: Seq<char>)
    requires
        text.len() > 0,
        !text.contains(' '),
        no_control(k, text),
        k.ids().contains_key(text),
    ensures
        k.text_ids(text) == seq![k.ids()[text]],
{
    lemma_one_unit(k, text);
    assert forall|i: int| 0 <= i < text.len() implies (#[trigger] text[i]) != ' ' by {
        assert(text.contains(text[i]));
    }
    assert(replaced(text, ' ', '\u{2581}') =~= text);
}

/// A character that is no token is one id for each of its bytes, in their order.
pub proof fn law_unknown_characters_fall_back_to_bytes(k: Tokenizer, c: char)
    requires
        c != ' ',
        no_control(k, seq![c]),
        !k.ids().contains_key(seq![c]),
        forall|i: int|
            0 <= i < encode_utf8(seq![c]).len() ==> k.ids().contains_key(
                byte_token(#[trigger] encode_utf8(seq![c])[i]),
            ),
    ensures
        k.text_ids(seq![c]).len() == encode_utf8(seq![c]).len(),
        forall|i: int|
            0 <= i < encode_utf8(seq![c]).len() ==> #[trigger] k.text_ids(seq![c])[i] == k.ids()[byte_token(
                encode_utf8(seq![c])[i],
            )],
{
    let text = seq![c];
    lemma_one_unit(k, text);
    assert(replaced(text, ' ', '\u{2581}') =~= text);
    assert(char_parts(text) =~= seq![text]);
    let parts = seq![text];
    assert forall|i: int| !k.merges_first(parts, i) by {
        assert(k.rank_at(parts, i) is None);
    }
    let none = Seq::<Seq<char>>::empty();
    assert(parts.drop_last() =~= none);
    assert(k.parts_ids(none) =~= Seq::empty());
    assert(k.parts_ids(parts) =~= k.byte_ids(encode_utf8(text)));
    lemma_byte_ids(k, encode_utf8(text));
}

proof fn lemma_byte_ids(k: Tokenizer, b: Seq<u8>)
    requires
        forall|i: int| 0 <= i < b.len() ==> k.ids().contains_key(byte_token(#[trigger] b[i])),
    ensures
        k.byte_ids(b).len() == b.len(),
        forall|i: int|
            0 <= i < b.len() ==> #[trigger] k.byte_ids(b)[i] == k.ids()[byte_token(b[i])],
    decreases b.len(),
{
    if b.len() > 0 {
        let init = b.drop_last();
        assert forall|i: int| 0 <= i < init.len() implies k.ids().contains_key(
            byte_token(#[trigger] init[i]),
        ) by {
            assert(init[i] == b[i]);
        }
        lemma_byte_ids(k, init);
        assert(b[b.len() - 1] == b.last());
        assert forall|i: int| 0 <= i < b.len() implies #[trigger] k.byte_ids(b)[i]
            == k.ids()[byte_token(b[i])] by {
            if i < init.len() {
                assert(k.byte_ids(b)[i] == k.byte_ids(init)[i]);
            }
        }
    }
}

/// What begins a sequence stands before it and changes nothing else.
pub proof fn law_the_beginning_is_put_in_front(k: Tokenizer, text: Seq<char>)
    ensures
        k.encoded(text, true).len() == k.encoded(text, false).len() + 1,
        k.encoded(text, true).first() == k.bos,
        k.encoded(text, true).skip(1) == k.encoded(text, false),
        k.encoded(text, false) == k.text_ids(text),
{
    assert(k.encoded(text, true).skip(1) =~= k.text_ids(text));
}

/// A byte token is written with two upper-case hexadecimal digits, the high one first.
pub proof fn law_byte_tokens_are_upper_case(b: u8)
    ensures
        byte_token(b).len() == 6,
        byte_token(b).take(3) == "<0x"@,
        byte_token(b)[3] == "0123456789ABCDEF"@[b as int / 16],
        byte_token(b)[4] == "0123456789ABCDEF"@[b as int % 16],
        byte_token(b)[5] == '>',
{
    reveal_strlit("<0x");
    reveal_strlit("0123456789ABCDEF");
    assert(byte_token(b).take(3) =~= "<0x"@);
    lemma_hex_digit(b as int / 16);
    lemma_hex_digit(b as int % 16);
}

proof fn lemma_hex_digit(n: int)
    requires
        0 <= n < 16,
    ensures
        hex_digit(n) == "0123456789ABCDEF"@[n],
{
    reveal_strlit("0123456789ABCDEF");
    let s = "0123456789ABCDEF"@;
    assert(s[0] == '0' && s[1] == '1' && s[2] == '2' && s[3] == '3' && s[4] == '4' && s[5] == '5'
        && s[6] == '6' && s[7] == '7' && s[8] == '8' && s[9] == '9' && s[10] == 'A' && s[11] == 'B'
        && s[12] == 'C' && s[13] == 'D' && s[14] == 'E' && s[15] == 'F');
}

} // verus!
