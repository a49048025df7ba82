//! Text from bytes that need not be well-formed.
//!
//! Every ill-formed stretch becomes one U+FFFD, a stretch being the longest
//! beginning of a character that something else follows.
use vstd::prelude::*;
use vstd::utf8::{
    codepoint_width_3, codepoint_width_4, decode_first_scalar, decode_utf8, encode_utf8,
    encode_utf8_decode_utf8, encode_utf8_first_scalar, is_continuation_byte,
    length_of_first_scalar, pop_first_scalar, valid_first_scalar, valid_utf8,
};
use crate::text::copy_bytes;

verus! {

/// What stands for an ill-formed stretch.
pub const REPLACEMENT: char = '\u{FFFD}';

/// Whether `b1` may follow the first byte `b0` of a character of three or four bytes.
pub open spec fn may_follow(b0: u8, b1: u8) -> bool {
    ||| b0 == 0xe0 && 0xa0 <= b1 <= 0xbf
    ||| 0xe1 <= b0 <= 0xef && b0 != 0xed && 0x80 <= b1 <= 0xbf
    ||| b0 == 0xed && 0x80 <= b1 <= 0x9f
    ||| b0 == 0xf0 && 0x90 <= b1 <= 0xbf
    ||| 0xf1 <= b0 <= 0xf3 && 0x80 <= b1 <= 0xbf
    ||| b0 == 0xf4 && 0x80 <= b1 <= 0x8f
}

/// The length of the ill-formed stretch that the bytes begin with.
pub open spec fn ill_formed_len(b: Seq<u8>) -> int {
    if b.len() >= 2 && may_follow(b[0], b[1]) {
        if b.len() >= 3 && b[0] >= 0xf0 && is_continuation_byte(b[2]) {
            3
        } else {
            2
        }
    } else {
        1
    }
}

/// The text of some bytes, with U+FFFD for every ill-formed stretch.
pub open spec fn lossy(b: Seq<u8>) -> Seq<char>
    decreases b.len(),
{
    if b.len() == 0 {
        Seq::empty()
    } else if valid_first_scalar(b) {
        seq![decode_first_scalar(b) as char] + lossy(b.skip(length_of_first_scalar(b)))
    } else {
        seq![REPLACEMENT] + lossy(b.skip(ill_formed_len(b)))
    }
}

/// The text without the U+FFFD that it ends in.
pub open spec fn settled(t: Seq<char>) -> Seq<char>
    decreases t.len(),
{
    if t.len() == 0 || t.last() != REPLACEMENT {
        t
    } else {
        settled(t.drop_last())
    }
}

/// `std::str::from_utf8` takes exactly the well-formed bytes, and the text it
/// gives has those bytes.
#[verifier::external_body]
fn well_formed_text(b: &[u8]) -> (r: Option<String>)
    ensures
        r is Some == valid_utf8(b@),
        r matches Some(s) ==> encode_utf8(s@) == b@,
{
    std::str::from_utf8(b).ok().map(str::to_owned)
}

// ---------------------------------------------------------------- first characters
proof fn lemma_three(b0: u8, b1: u8, b2: u8)
    requires
        0xe0 <= b0 <= 0xef,
        0x80 <= b1 <= 0xbf,
        0x80 <= b2 <= 0xbf,
    ensures
        (codepoint_width_3(b0, b1, b2) >= 0x800) == (b0 != 0xe0 || b1 >= 0xa0),
        (0xd800 <= codepoint_width_3(b0, b1, b2) <= 0xdfff) == (b0 == 0xed && b1 >= 0xa0),
{
    let c = (((b0 & 0x0f) as u32) << 12) | (((b1 & 0x3f) as u32) << 6) | ((b2 & 0x3f) as u32);
    assert((c >= 0x800) == (b0 != 0xe0 || b1 >= 0xa0) && (0xd800 <= c && c <= 0xdfff) == (b0
        == 0xed && b1 >= 0xa0)) by (bit_vector)
        requires
            0xe0 <= b0 <= 0xef,
            0x80 <= b1 <= 0xbf,
            0x80 <= b2 <= 0xbf,
            c == (((b0 & 0x0f) as u32) << 12) | (((b1 & 0x3f) as u32) << 6) | ((b2 & 0x3f) as u32),
    ;
}

proof fn lemma_four(b0: u8, b1: u8, b2: u8, b3: u8)
    requires
        0xf0 <= b0 <= 0xf7,
        0x80 <= b1 <= 0xbf,
        0x80 <= b2 <= 0xbf,
        0x80 <= b3 <= 0xbf,
    ensures
        (0x10000 <= codepoint_width_4(b0, b1, b2, b3) <= 0x10ffff) == (b0 == 0xf0 && b1 >= 0x90
            || 0xf1 <= b0 <= 0xf3 || b0 == 0xf4 && b1 <= 0x8f),
{
    let c = (((b0 & 0x07) as u32) << 18) | (((b1 & 0x3f) as u32) << 12) | (((b2 & 0x3f) as u32)
        << 6) | ((b3 & 0x3f) as u32);
    assert((0x10000 <= c && c <= 0x10ffff) == (b0 == 0xf0 && b1 >= 0x90 || 0xf1 <= b0 && b0 <= 0xf3
        || b0 == 0xf4 && b1 <= 0x8f)) by (bit_vector)
        requires
            0xf0 <= b0 <= 0xf7,
            0x80 <= b1 <= 0xbf,
            0x80 <= b2 <= 0xbf,
            0x80 <= b3 <= 0xbf,
            c == (((b0 & 0x07) as u32) << 18) | (((b1 & 0x3f) as u32) << 12) | (((b2 & 0x3f) as u32)
                << 6) | ((b3 & 0x3f) as u32),
    ;
}

/// A longer character is well-formed exactly if its second byte may follow its
/// first and the rest are continuation bytes.
proof fn lemma_long_scalar(b: Seq<u8>)
    requires
        b.len() > 0,
        b[0] >= 0xe0,
    ensures
        valid_first_scalar(b) == (b.len() >= 2 && may_follow(b[0], b[1]) && if b[0] < 0xf0 {
            b.len() >= 3 && is_continuation_byte(b[2])
        } else {
            b.len() >= 4 && is_continuation_byte(b[2]) && is_continuation_byte(b[3])
        }),
{
    if b[0] < 0xf0 {
        if b.len() >= 3 && is_continuation_byte(b[1]) && is_continuation_byte(b[2]) {
            lemma_three(b[0], b[1], b[2]);
        }
    } else if b[0] <= 0xf7 {
        if b.len() >= 4 && is_continuation_byte(b[1]) && is_continuation_byte(b[2])
            && is_continuation_byte(b[3]) {
            lemma_four(b[0], b[1], b[2], b[3]);
        }
    }
}

/// More bytes do not change a well-formed first character.
proof fn lemma_first_scalar_extends(b: Seq<u8>, c: Seq<u8>)
    requires
        valid_first_scalar(b),
    ensures
        valid_first_scalar(b + c),
        decode_first_scalar(b + c) == decode_first_scalar(b),
        length_of_first_scalar(b + c) == length_of_first_scalar(b),
        1 <= length_of_first_scalar(b) <= b.len(),
{
    let d = b + c;
    assert(forall|i: int| 0 <= i < b.len() ==> d[i] == b[i]);
}

/// More bytes do not change an ill-formed stretch that something already follows.
proof fn lemma_ill_formed_extends(b: Seq<u8>, c: Seq<u8>)
    requires
        b.len() > 0,
        !valid_first_scalar(b),
        ill_formed_len(b) < b.len(),
    ensures
        !valid_first_scalar(b + c),
        ill_formed_len(b + c) == ill_formed_len(b),
{
    let d = b + c;
    assert(forall|i: int| 0 <= i < b.len() ==> d[i] == b[i]);
    if b[0] >= 0xe0 {
        lemma_long_scalar(b);
        lemma_long_scalar(d);
    }
}

/// An ill-formed stretch lies within the bytes.
proof fn lemma_ill_formed_len(b: Seq<u8>)
    requires
        b.len() > 0,
    ensures
        1 <= ill_formed_len(b) <= b.len(),
{
}

/// Well-formed bytes become the text that they encode.
pub proof fn law_lossy_keeps_text(s: Seq<char>)
    ensures
        lossy(encode_utf8(s)) == s,
{
    crate::text::lemma_text(s);
    lemma_lossy_valid(encode_utf8(s));
}

proof fn lemma_lossy_valid(b: Seq<u8>)
    requires
        valid_utf8(b),
    ensures
        lossy(b) == decode_utf8(b),
    decreases b.len(),
{
    if b.len() > 0 {
        lemma_first_scalar_extends(b, Seq::empty());
        assert(b.skip(length_of_first_scalar(b)) =~= pop_first_scalar(b));
        lemma_lossy_valid(pop_first_scalar(b));
    }
}

proof fn lemma_settled_front(x: char, t: Seq<char>)
    ensures
        settled(seq![x] + t) == if settled(t).len() == 0 && x == REPLACEMENT {
            Seq::empty()
        } else {
            seq![x] + settled(t)
        },
    decreases t.len(),
{
    let u = seq![x] + t;
    if t.len() == 0 {
        assert(u.drop_last() =~= Seq::empty());
        assert(settled(u.drop_last()) =~= Seq::empty());
        assert(u =~= seq![x] + settled(t));
    } else {
        assert(u.last() == t.last());
        if t.last() == REPLACEMENT {
            assert(u.drop_last() =~= seq![x] + t.drop_last());
            lemma_settled_front(x, t.drop_last());
        }
    }
}

/// What has settled does not change as more bytes arrive.
pub proof fn law_settled_text_stays(b: Seq<u8>, c: Seq<u8>)
    ensures
        settled(lossy(b)).is_prefix_of(lossy(b + c)),
    decreases b.len(),
{
    let d = b + c;
    if b.len() == 0 {
        assert(settled(lossy(b)) =~= Seq::empty());
    } else if valid_first_scalar(b) {
        lemma_first_scalar_extends(b, c);
        let n = length_of_first_scalar(b);
        let x = decode_first_scalar(b) as char;
        law_settled_text_stays(b.skip(n), c);
        assert(d.skip(n) =~= b.skip(n) + c);
        lemma_settled_front(x, lossy(b.skip(n)));
        lemma_prefix_front(x, settled(lossy(b.skip(n))), lossy(d.skip(n)));
    } else {
        lemma_ill_formed_len(b);
        let n = ill_formed_len(b);
        lemma_settled_front(REPLACEMENT, lossy(b.skip(n)));
        if n < b.len() {
            lemma_ill_formed_extends(b, c);
            law_settled_text_stays(b.skip(n), c);
            assert(d.skip(n) =~= b.skip(n) + c);
            lemma_prefix_front(REPLACEMENT, settled(lossy(b.skip(n))), lossy(d.skip(n)));
        } else {
            assert(b.skip(n).len() == 0);
            assert(settled(lossy(b.skip(n))).len() == 0);
        }
    }
}

proof fn lemma_prefix_front(x: char, s: Seq<char>, t: Seq<char>)
    requires
        s.is_prefix_of(t),
    ensures
        (seq![x] + s).is_prefix_of(seq![x] + t),
{
    assert(seq![x] + s =~= (seq![x] + t).subrange(0, 1 + s.len() as int));
}

// ---------------------------------------------------------------- decoding
/// A byte string that is well-formed and begins with a character of its own length.
proof fn lemma_one_scalar(b: Seq<u8>, n: int)
    requires
        1 <= n <= b.len(),
        forall|m: int| 1 <= m < n ==> !valid_utf8(#[trigger] b.take(m)),
    ensures
        valid_utf8(b.take(n)) ==> valid_first_scalar(b) && length_of_first_scalar(b) == n
            && decode_utf8(b.take(n)) == seq![decode_first_scalar(b) as char],
        valid_first_scalar(b) && length_of_first_scalar(b) == n ==> valid_utf8(b.take(n)),
{
    let h = b.take(n);
    assert(b =~= h + b.skip(n));
    if valid_utf8(h) {
        lemma_first_scalar_extends(h, b.skip(n));
        let m = length_of_first_scalar(h);
        if m < n {
            let g = b.take(m);
            assert(g =~= h.take(m));
            assert(forall|i: int| 0 <= i < m ==> g[i] == h[i]);
            assert(valid_first_scalar(g));
            assert(pop_first_scalar(g).len() == 0);
            assert(valid_utf8(pop_first_scalar(g)));
            assert(valid_utf8(g));
        }
        assert(pop_first_scalar(h).len() == 0);
        assert(decode_utf8(pop_first_scalar(h)) =~= Seq::empty());
        assert(decode_utf8(h) =~= seq![decode_first_scalar(b) as char]);
    }
    if valid_first_scalar(b) && length_of_first_scalar(b) == n {
        assert(forall|i: int| 0 <= i < n ==> h[i] == b[i]);
        assert(valid_first_scalar(h));
        assert(pop_first_scalar(h).len() == 0);
        assert(valid_utf8(pop_first_scalar(h)));
    }
}

/// The first character of some bytes, if it is well-formed, and its length.
fn first_char(b: &[u8], i: usize) -> (r: Option<(String, usize)>)
    requires
        i < b@.len(),
    ensures
        match r {
            Some((s, n)) => {
                let t = b@.skip(i as int);
                valid_first_scalar(t) && n == length_of_first_scalar(t) && i + n <= b@.len() && n > 0
                    && s@ == seq![decode_first_scalar(t) as char]
            },
            None => !valid_first_scalar(b@.skip(i as int)),
        },
{
    let ghost t = b@.skip(i as int);
    let mut n: usize = 1;
    while n <= 4 && n <= b.len() - i
        invariant
            1 <= n <= 5,
            i < b@.len(),
            t == b@.skip(i as int),
            forall|m: int| 1 <= m < n ==> !valid_utf8(#[trigger] t.take(m)),
            valid_first_scalar(t) ==> length_of_first_scalar(t) >= n,
        decreases 5 - n,
    {
        let part = copy_bytes(b, i, i + n);
        proof {
            assert(part@ =~= t.take(n as int));
            lemma_one_scalar(t, n as int);
        }
        if let Some(s) = well_formed_text(part.as_slice()) {
            proof {
                encode_utf8_decode_utf8(s@);
            }
            return Some((s, n));
        }
        n += 1;
    }
    proof {
        if valid_first_scalar(t) {
            lemma_first_scalar_extends(t, Seq::empty());
        }
    }
    None
}

fn stretch_len(b: &[u8], i: usize) -> (n: usize)
    requires
        i < b@.len(),
    ensures
        n == ill_formed_len(b@.skip(i as int)),
        1 <= n <= b@.len() - i,
{
    if b.len() - i < 2 {
        return 1;
    }
    let b0: u8 = b[i];
    let b1: u8 = b[i + 1];
    let follows = (b0 == 0xe0 && 0xa0 <= b1 && b1 <= 0xbf) || (0xe1 <= b0 && b0 <= 0xef && b0
        != 0xed && 0x80 <= b1 && b1 <= 0xbf) || (b0 == 0xed && 0x80 <= b1 && b1 <= 0x9f) || (b0
        == 0xf0 && 0x90 <= b1 && b1 <= 0xbf) || (0xf1 <= b0 && b0 <= 0xf3 && 0x80 <= b1 && b1
        <= 0xbf) || (b0 == 0xf4 && 0x80 <= b1 && b1 <= 0x8f);
    if !follows {
        1
    } else if b.len() - i >= 3 && b0 >= 0xf0 && 0x80 <= b[i + 2] && b[i + 2] <= 0xbf {
        3
    } else {
        2
    }
}

/// The text of some bytes, with U+FFFD for every ill-formed stretch.
pub fn decode_lossy(b: &[u8]) -> (r: String)
    ensures
        r@ == lossy(b@),
{
    let mut r = String::new();
    let mut i: usize = 0;
    proof {
        assert(b@.skip(0) =~= b@);
    }
    while i < b.len()
        invariant
            i <= b@.len(),
            r@ + lossy(b@.skip(i as int)) == lossy(b@),
        decreases b@.len() - i,
    {
        let ghost t = b@.skip(i as int);
        let ghost r0 = r@;
        match first_char(b, i) {
            Some((s, n)) => {
                r.append(s.as_str());
                proof {
                    assert(t.skip(n as int) =~= b@.skip(i + n));
                    assert(r@ + lossy(b@.skip(i + n)) =~= r0 + lossy(t));
                }
                i += n;
            },
            None => {
                let n: usize = stretch_len(b, i);
                r.push(REPLACEMENT);
                proof {
                    assert(t.skip(n as int) =~= b@.skip(i + n));
                    assert(r@ + lossy(b@.skip(i + n)) =~= r0 + lossy(t));
                }
                i += n;
            },
        }
    }
    proof {
        assert(lossy(b@.skip(i as int)) =~= Seq::empty());
        assert(r@ =~= lossy(b@));
    }
    r
}

/// Well-formed text stays as it is, whatever follows it.
pub proof fn law_text_in_front_is_kept(s: Seq<char>, c: Seq<u8>)
    ensures
        lossy(encode_utf8(s) + c) == s + lossy(c),
    decreases s.len(),
{
    if s.len() == 0 {
        assert(encode_utf8(s) + c =~= c);
        assert(s + lossy(c) =~= lossy(c));
    } else {
        let b = encode_utf8(s);
        let rest = s.drop_first();
        encode_utf8_first_scalar(s);
        lemma_first_scalar_extends(b, c);
        let n = length_of_first_scalar(b);
        assert(b.skip(n) =~= encode_utf8(rest));
        assert((b + c).skip(n) =~= encode_utf8(rest) + c);
        law_text_in_front_is_kept(rest, c);
        crate::text::lemma_text(s);
        assert(decode_utf8(b)[0] == decode_first_scalar(b) as char);
        assert(seq![s[0]] + (rest + lossy(c)) =~= s + lossy(c));
    }
}

/// A byte that begins no character is one U+FFFD, and takes nothing else with it.
pub proof fn law_a_stray_byte_is_one_replacement(b: u8, c: Seq<u8>)
    requires
        0x80 <= b <= 0xbf || b >= 0xf8,
    ensures
        lossy(seq![b] + c) == seq!['\u{FFFD}'] + lossy(c),
{
    let d = seq![b] + c;
    assert(d[0] == b);
    assert(d.skip(1) =~= c);
    assert(!may_follow(d[0], d[1]));
}

/// A character that is cut off is one U+FFFD, however many of its bytes are there, and
/// what follows it is read as if it stood alone.
pub proof fn law_a_cut_character_is_one_replacement(x: char, n: int, c: Seq<u8>)
    requires
        0 < n < encode_utf8(seq![x]).len(),
        c.len() > 0 ==> !(0x80 <= c[0] <= 0xbf),
    ensures
        lossy(encode_utf8(seq![x]).take(n) + c) == seq!['\u{FFFD}'] + lossy(c),
{
    let s = seq![x];
    let e = encode_utf8(s);
    encode_utf8_first_scalar(s);
    assert(s.drop_first() =~= Seq::empty());
    assert(encode_utf8(s.drop_first()) =~= Seq::empty());
    assert(e.len() == length_of_first_scalar(e));
    let d = e.take(n) + c;
    assert(forall|i: int| 0 <= i < n ==> d[i] == e[i]);
    assert(n < d.len() ==> d[n] == c[0]);
    if e[0] >= 0xe0 {
        lemma_long_scalar(e);
        lemma_long_scalar(d);
    }
    assert(!valid_first_scalar(d));
    assert(ill_formed_len(d) == n);
    assert(d.skip(n) =~= c);
}

} // verus!
