//! Byte strings and text.
use vstd::prelude::*;
use vstd::utf8::{
    decode_utf8, encode_utf8, encode_utf8_decode_utf8, encode_utf8_valid_utf8, is_char_boundary,
    is_char_boundary_iff_not_is_continuation_byte, is_char_boundary_start_end_of_seq,
    length_of_first_scalar, pop_first_scalar, valid_utf8,
};

verus! {

/// `String::push` of the standard library appends the character to the string.
pub assume_specification[ String::push ](s: &mut String, c: char)
    ensures
        final(s)@ == old(s)@.push(c),
;

// ---------------------------------------------------------------- searching
/// Whether `p` stands at position `i` of `h`.
pub open spec fn stands_at(h: Seq<u8>, i: int, p: Seq<u8>) -> bool {
    0 <= i && i + p.len() <= h.len() && h.subrange(i, i + p.len()) == p
}

/// Whether position `i` is the first one from `from` on at which `p` stands in `h`.
pub open spec fn first_at(h: Seq<u8>, from: int, p: Seq<u8>, i: int) -> bool {
    &&& from <= i
    &&& stands_at(h, i, p)
    &&& forall|j: int| from <= j < i ==> !#[trigger] stands_at(h, j, p)
}

/// Whether `p` stands at position `i` of `h`.
pub fn starts_at(h: &[u8], i: usize, p: &[u8]) -> (r: bool)
    ensures
        r == stands_at(h@, i as int, p@),
{
    if i > h.len() || p.len() > h.len() - i {
        return false;
    }
    let mut k: usize = 0;
    while k < p.len()
        invariant
            k <= p@.len(),
            i + p@.len() <= h.len(),
            forall|j: int| 0 <= j < k ==> h@[i + j] == p@[j],
        decreases p@.len() - k,
    {
        if h[i + k] != p[k] {
            proof {
                if h@.subrange(i as int, i + p@.len()) == p@ {
                    assert(h@.subrange(i as int, i + p@.len())[k as int] == p@[k as int]);
                }
            }
            return false;
        }
        k += 1;
    }
    assert(h@.subrange(i as int, i + p@.len()) =~= p@);
    true
}

/// The first position from `from` on at which `p` stands.
pub fn find(h: &[u8], from: usize, p: &[u8]) -> (r: Option<usize>)
    ensures
        match r {
            Some(i) => first_at(h@, from as int, p@, i as int),
            None => forall|i: int| from <= i ==> !#[trigger] stands_at(h@, i, p@),
        },
{
    let mut i: usize = from;
    while i <= h.len() && p.len() <= h.len() - i
        invariant
            from <= i,
            i <= h@.len() + 1 || i == from,
            forall|j: int| from <= j < i ==> !#[trigger] stands_at(h@, j, p@),
        decreases h@.len() + 1 - i,
    {
        if starts_at(h, i, p) {
            return Some(i);
        }
        if i == h.len() {
            return None;
        }
        i += 1;
    }
    None
}

/// Copies a part of a byte string.
pub fn copy_bytes(h: &[u8], from: usize, to: usize) -> (r: Vec<u8>)
    requires
        from <= to <= h@.len(),
    ensures
        r@ == h@.subrange(from as int, to as int),
{
    let mut r: Vec<u8> = Vec::new();
    let mut i: usize = from;
    while i < to
        invariant
            from <= i <= to <= h@.len(),
            r@ == h@.subrange(from as int, i as int),
        decreases to - i,
    {
        r.push(h[i]);
        i += 1;
    }
    r
}

/// Whether two byte strings are equal.
pub fn same_bytes(a: &[u8], b: &[u8]) -> (r: bool)
    ensures
        r == (a@ == b@),
{
    if a.len() != b.len() {
        return false;
    }
    let r = starts_at(a, 0, b);
    proof {
        assert(a@.subrange(0, a@.len() as int) =~= a@);
    }
    r
}

// ---------------------------------------------------------------- UTF-8
/// After an ASCII character the next one begins.
pub proof fn lemma_boundary_after_ascii(b: Seq<u8>, i: int)
    requires
        valid_utf8(b),
        0 <= i < b.len(),
        b[i] < 0x80,
    ensures
        is_char_boundary(b, i),
        is_char_boundary(b, i + 1),
    decreases b.len(),
{
    is_char_boundary_iff_not_is_continuation_byte(b, i);
    let n = length_of_first_scalar(b);
    let rest = pop_first_scalar(b);
    if i == 0 {
        assert(n == 1);
        is_char_boundary_start_end_of_seq(rest);
        reveal_with_fuel(is_char_boundary, 2);
    } else {
        assert(i >= n) by {
            reveal_with_fuel(is_char_boundary, 2);
        }
        assert(rest[i - n] == b[i]);
        lemma_boundary_after_ascii(rest, i - n);
    }
}

/// Text is valid UTF-8, and decodes to itself.
pub proof fn lemma_text(s: Seq<char>)
    ensures
        valid_utf8(encode_utf8(s)),
        decode_utf8(encode_utf8(s)) == s,
{
    encode_utf8_valid_utf8(s);
    encode_utf8_decode_utf8(s);
}

/// Texts with the same bytes are the same.
pub proof fn lemma_same_text(s: Seq<char>, t: Seq<char>)
    requires
        encode_utf8(s) == encode_utf8(t),
    ensures
        s == t,
{
    lemma_text(s);
    lemma_text(t);
}

/// Whether two texts are equal.
pub fn same_text(a: &str, b: &str) -> (r: bool)
    ensures
        r == (a@ == b@),
{
    let r = same_bytes(a.as_bytes(), b.as_bytes());
    proof {
        if encode_utf8(a@) == encode_utf8(b@) {
            lemma_same_text(a@, b@);
        }
    }
    r
}

/// The part of a text between two positions in bytes.
pub fn slice_text(s: &str, from: usize, to: usize) -> (r: String)
    requires
        from <= to <= encode_utf8(s@).len(),
        is_char_boundary(encode_utf8(s@), from as int),
        is_char_boundary(encode_utf8(s@), to as int),
    ensures
        encode_utf8(r@) == encode_utf8(s@).subrange(from as int, to as int),
{
    proof {
        lemma_text(s@);
    }
    let (head, _) = s.split_at(to);
    proof {
        lemma_boundary_take(encode_utf8(s@), from as int, to as int);
    }
    let (_, part) = head.split_at(from);
    part.to_owned()
}

/// A boundary of a text stays one in the text up to a later boundary.
proof fn lemma_boundary_take(b: Seq<u8>, i: int, j: int)
    requires
        valid_utf8(b),
        0 <= i <= j <= b.len(),
        is_char_boundary(b, i),
        is_char_boundary(b, j),
    ensures
        is_char_boundary(b.subrange(0, j), i),
{
    vstd::utf8::valid_utf8_split(b, j);
    let h = b.subrange(0, j);
    if i == j {
        is_char_boundary_start_end_of_seq(h);
    } else {
        is_char_boundary_iff_not_is_continuation_byte(b, i);
        is_char_boundary_iff_not_is_continuation_byte(h, i);
    }
}

/// The bytes of two texts, one after the other.
pub proof fn lemma_bytes_concat(s: Seq<char>, t: Seq<char>)
    ensures
        encode_utf8(s + t) == encode_utf8(s) + encode_utf8(t),
    decreases s.len(),
{
    if s.len() == 0 {
        assert(s + t =~= t);
        assert(encode_utf8(s) + encode_utf8(t) =~= encode_utf8(t));
    } else {
        assert((s + t).drop_first() =~= s.drop_first() + t);
        lemma_bytes_concat(s.drop_first(), t);
        assert(encode_utf8(s + t) =~= encode_utf8(s) + encode_utf8(t));
    }
}

// ---------------------------------------------------------------- characters
/// The characters of a text.
pub fn chars_of(s: &str) -> (r: Vec<char>)
    ensures
        r@ == s@,
{
    let mut r: Vec<char> = Vec::new();
    for c in it: s.chars()
        invariant
            r@ == s@.take(it.index() as int),
            it.seq() == s@,
    {
        r.push(c);
    }
    assert(s@.take(s@.len() as int) =~= s@);
    r
}

/// The text of some characters.
pub fn text_of(cs: &[char]) -> (r: String)
    ensures
        r@ == cs@,
{
    let mut r = String::new();
    let mut i: usize = 0;
    while i < cs.len()
        invariant
            i <= cs@.len(),
            r@ == cs@.take(i as int),
        decreases cs@.len() - i,
    {
        r.push(cs[i]);
        assert(cs@.take(i + 1) =~= cs@.take(i as int).push(cs@[i as int]));
        i += 1;
    }
    assert(cs@.take(i as int) =~= cs@);
    r
}

/// What a list of texts holds.
pub open spec fn text_list(v: Seq<String>) -> Seq<Seq<char>> {
    v.map_values(|s: String| s@)
}

/// A character with another in place of `from`.
pub open spec fn swap_char(c: char, from: char, to: char) -> char {
    if c == from {
        to
    } else {
        c
    }
}

/// A text with every `from` replaced by `to`.
pub open spec fn replaced(s: Seq<char>, from: char, to: char) -> Seq<char> {
    s.map_values(|c: char| swap_char(c, from, to))
}

/// Replaces every `from` by `to`.
pub fn replace_char(s: &str, from: char, to: char) -> (r: String)
    ensures
        r@ == replaced(s@, from, to),
{
    let cs = chars_of(s);
    let mut r = String::new();
    let mut i: usize = 0;
    while i < cs.len()
        invariant
            i <= cs@.len(),
            cs@ == s@,
            r@ == replaced(s@.take(i as int), from, to),
        decreases cs@.len() - i,
    {
        if cs[i] == from {
            r.push(to);
        } else {
            r.push(cs[i]);
        }
        assert(replaced(s@.take(i + 1), from, to) =~= replaced(s@.take(i as int), from, to).push(
            swap_char(s@[i as int], from, to),
        ));
        i += 1;
    }
    assert(s@.take(i as int) =~= s@);
    r
}

// ---------------------------------------------------------------- numbers
/// The decimal digits of a number.
pub open spec fn decimal(n: nat) -> Seq<char>
    decreases n,
{
    if n < 10 {
        seq![digit_char(n)]
    } else {
        decimal(n / 10).push(digit_char(n % 10))
    }
}

/// The character of a digit.
pub open spec fn digit_char(n: nat) -> char {
    (48 + n) as char
}

/// The number that a string of decimal digits stands for.
pub open spec fn digits_value(s: Seq<char>) -> nat
    decreases s.len(),
{
    if s.len() == 0 {
        0
    } else {
        10 * digits_value(s.drop_last()) + (s.last() as nat - 48) as nat
    }
}

/// At least one character, and all of them decimal digits.
pub open spec fn all_digits(s: Seq<char>) -> bool {
    s.len() > 0 && forall|i: int| 0 <= i < s.len() ==> '0' <= #[trigger] s[i] <= '9'
}

/// The digits of a number stand for it.
pub proof fn lemma_decimal(n: nat)
    ensures
        all_digits(decimal(n)),
        digits_value(decimal(n)) == n,
    decreases n,
{
    if n < 10 {
        let s = decimal(n);
        assert(s.drop_last().len() == 0);
        assert(digits_value(s.drop_last()) == 0);
    } else {
        lemma_decimal(n / 10);
        let s = decimal(n);
        assert(s.drop_last() =~= decimal(n / 10));
    }
}

/// A number is written without a zero in front, and no two numbers alike.
pub proof fn law_numbers_are_written_once(n: nat, m: nat)
    ensures
        n > 0 ==> decimal(n)[0] != '0',
        decimal(n) == decimal(m) ==> n == m,
        decimal(10 * n + m % 10) == if n > 0 {
            decimal(n) + decimal(m % 10)
        } else {
            decimal(m % 10)
        },
    decreases n,
{
    lemma_decimal(n);
    lemma_decimal(m);
    if n >= 10 {
        law_numbers_are_written_once(n / 10, m);
        assert(decimal(n)[0] == decimal(n / 10)[0]);
    }
    let k = 10 * n + m % 10;
    assert(k / 10 == n && k % 10 == m % 10);
    assert(decimal(m % 10) =~= seq![digit_char(m % 10)]);
    if n > 0 {
        assert(decimal(k) =~= decimal(n) + decimal(m % 10));
    }
}

/// The ten digits, and what a number below ten is written as.
pub proof fn law_digits_are_the_ten(n: nat)
    requires
        n < 10,
    ensures
        decimal(n) == seq!["0123456789"@[n as int]],
        digits_value(decimal(n)) == n,
{
    reveal_strlit("0123456789");
    let s = "0123456789"@;
    assert(s[0] == '0' && s[1] == '1' && s[2] == '2' && s[3] == '3' && s[4] == '4' && s[5] == '5'
        && s[6] == '6' && s[7] == '7' && s[8] == '8' && s[9] == '9');
    assert(decimal(n) =~= seq![s[n as int]]);
    lemma_decimal(n);
}

/// Writes a number in decimal digits.
pub fn decimal_text(n: u64) -> (r: String)
    ensures
        r@ == decimal(n as nat),
    decreases n,
{
    let d: u8 = 48 + (n % 10) as u8;
    if n < 10 {
        let mut r = String::new();
        r.push(d as char);
        assert(r@ =~= decimal(n as nat));
        r
    } else {
        let mut r = decimal_text(n / 10);
        r.push(d as char);
        r
    }
}

/// Reads a number written in decimal digits that fits the machine.
pub fn parse_decimal(s: &str) -> (r: Option<u64>)
    ensures
        match r {
            Some(n) => all_digits(s@) && digits_value(s@) == n,
            None => !all_digits(s@) || digits_value(s@) > u64::MAX,
        },
{
    let cs = chars_of(s);
    if cs.len() == 0 {
        return None;
    }
    let mut n: u64 = 0;
    let mut over: bool = false;
    let mut i: usize = 0;
    while i < cs.len()
        invariant
            cs@ == s@,
            cs@.len() > 0,
            i <= cs@.len(),
            forall|k: int| 0 <= k < i ==> '0' <= #[trigger] s@[k] <= '9',
            !over ==> n == digits_value(s@.take(i as int)),
            over ==> digits_value(s@.take(i as int)) > u64::MAX,
        decreases cs@.len() - i,
    {
        let c = cs[i];
        if c < '0' || c > '9' {
            return None;
        }
        let d: u64 = (c as u32 - 48) as u64;
        proof {
            assert(s@.take(i + 1).drop_last() =~= s@.take(i as int));
        }
        if !over {
            if n > 1844674407370955161 || n * 10 > u64::MAX - d {
                over = true;
            } else {
                n = n * 10 + d;
            }
        }
        i += 1;
    }
    proof {
        assert(s@.take(i as int) =~= s@);
    }
    if over {
        None
    } else {
        Some(n)
    }
}

// ---------------------------------------------------------------- white space
/// Whether a character is white space in the sense of Unicode.
pub open spec fn is_space(c: char) -> bool {
    ||| '\u{9}' <= c <= '\u{d}'
    ||| c == ' '
    ||| c == '\u{85}'
    ||| c == '\u{a0}'
    ||| c == '\u{1680}'
    ||| '\u{2000}' <= c <= '\u{200a}'
    ||| c == '\u{2028}'
    ||| c == '\u{2029}'
    ||| c == '\u{202f}'
    ||| c == '\u{205f}'
    ||| c == '\u{3000}'
}

/// White space is what Unicode calls so: among ASCII characters the space and the five
/// controls from tab to carriage return, and no letter, digit or sign.
pub proof fn law_white_space_is_blank(c: char)
    ensures
        (c as int) < 128 ==> (is_space(c) <==> c == ' ' || c == '\t' || c == '\n' || c == '\r' || c
            == '\u{b}' || c == '\u{c}'),
        is_space('\u{a0}') && is_space('\u{3000}') && is_space('\u{2028}') && is_space('\u{2003}'),
        !is_space('\u{200b}') && !is_space('\u{feff}') && !is_space('\u{2581}'),
{
}

fn space_char(c: char) -> (r: bool)
    ensures
        r == is_space(c),
{
    ('\u{9}' <= c && c <= '\u{d}') || c == ' ' || c == '\u{85}' || c == '\u{a0}' || c == '\u{1680}'
        || ('\u{2000}' <= c && c <= '\u{200a}') || c == '\u{2028}' || c == '\u{2029}' || c
        == '\u{202f}' || c == '\u{205f}' || c == '\u{3000}'
}

/// The first position from `from` on that is white space, or the end.
pub open spec fn space_from(s: Seq<char>, from: int) -> int
    decreases s.len() - from,
{
    if from >= s.len() || is_space(s[from]) {
        from
    } else {
        space_from(s, from + 1)
    }
}

/// The first position from `from` on that is not white space, or the end.
pub open spec fn word_from(s: Seq<char>, from: int) -> int
    decreases s.len() - from,
{
    if from >= s.len() || !is_space(s[from]) {
        from
    } else {
        word_from(s, from + 1)
    }
}

/// The first position from `from` on that is white space, or the end.
pub fn find_space(cs: &Vec<char>, from: usize) -> (n: usize)
    requires
        from <= cs@.len(),
    ensures
        n == space_from(cs@, from as int),
        from <= n <= cs@.len(),
{
    let mut n: usize = from;
    while n < cs.len() && !space_char(cs[n])
        invariant
            from <= n <= cs@.len(),
            space_from(cs@, n as int) == space_from(cs@, from as int),
        decreases cs@.len() - n,
    {
        n += 1;
    }
    n
}

/// The first position from `from` on that is not white space, or the end.
pub fn find_word(cs: &Vec<char>, from: usize) -> (n: usize)
    requires
        from <= cs@.len(),
    ensures
        n == word_from(cs@, from as int),
        from <= n <= cs@.len(),
{
    let mut n: usize = from;
    while n < cs.len() && space_char(cs[n])
        invariant
            from <= n <= cs@.len(),
            word_from(cs@, n as int) == word_from(cs@, from as int),
        decreases cs@.len() - n,
    {
        n += 1;
    }
    n
}

/// A text without the white space that it ends in.
pub open spec fn trimmed_end(s: Seq<char>) -> Seq<char>
    decreases s.len(),
{
    if s.len() == 0 || !is_space(s.last()) {
        s
    } else {
        trimmed_end(s.drop_last())
    }
}

/// A text without the white space around it.
pub open spec fn trimmed(s: Seq<char>) -> Seq<char> {
    trimmed_end(s.skip(word_from(s, 0)))
}

/// Trimming takes white space off both ends and nothing else: what is left neither
/// begins nor ends with any, and stands between what was taken.
pub proof fn law_trimming_takes_the_ends(s: Seq<char>) -> (r: (Seq<char>, Seq<char>))
    ensures
        s == r.0 + trimmed(s) + r.1,
        forall|i: int| 0 <= i < r.0.len() ==> is_space(#[trigger] r.0[i]),
        forall|i: int| 0 <= i < r.1.len() ==> is_space(#[trigger] r.1[i]),
        trimmed(s).len() > 0 ==> !is_space(trimmed(s)[0]) && !is_space(trimmed(s).last()),
{
    lemma_word_from(s, 0);
    let n = word_from(s, 0);
    let rest = s.skip(n);
    lemma_trimmed_end(rest);
    let t = trimmed(s);
    let m = t.len() as int;
    let r = (s.take(n), rest.skip(m));
    assert(s =~= r.0 + t + r.1);
    assert forall|i: int| 0 <= i < r.1.len() implies is_space(#[trigger] r.1[i]) by {
        assert(rest[m + i] == r.1[i]);
    }
    if m > 0 {
        assert(t[0] == rest[0] && rest[0] == s[n]);
    }
    r
}

proof fn lemma_word_from(s: Seq<char>, from: int)
    requires
        0 <= from <= s.len(),
    ensures
        from <= word_from(s, from) <= s.len(),
        forall|i: int| from <= i < word_from(s, from) ==> is_space(#[trigger] s[i]),
        word_from(s, from) < s.len() ==> !is_space(s[word_from(s, from)]),
    decreases s.len() - from,
{
    if from < s.len() && is_space(s[from]) {
        lemma_word_from(s, from + 1);
    }
}

proof fn lemma_trimmed_end(s: Seq<char>)
    ensures
        trimmed_end(s).len() <= s.len(),
        trimmed_end(s) == s.take(trimmed_end(s).len() as int),
        trimmed_end(s).len() > 0 ==> !is_space(trimmed_end(s).last()),
        forall|i: int| trimmed_end(s).len() <= i < s.len() ==> is_space(#[trigger] s[i]),
    decreases s.len(),
{
    if s.len() == 0 || !is_space(s.last()) {
        assert(s.take(s.len() as int) =~= s);
    } else {
        let u = s.drop_last();
        lemma_trimmed_end(u);
        let n = trimmed_end(u).len() as int;
        assert(u.take(n) =~= s.take(n));
        assert forall|i: int| n <= i < s.len() implies is_space(#[trigger] s[i]) by {
            if i < u.len() {
                assert(u[i] == s[i]);
            }
        }
    }
}

/// Where a text ends without the white space that it ends in.
pub fn end_of_text(cs: &Vec<char>) -> (n: usize)
    ensures
        n <= cs@.len(),
        cs@.take(n as int) == trimmed_end(cs@),
{
    let mut n: usize = cs.len();
    proof {
        assert(cs@.take(n as int) =~= cs@);
    }
    while n > 0 && space_char(cs[n - 1])
        invariant
            n <= cs@.len(),
            trimmed_end(cs@.take(n as int)) == trimmed_end(cs@),
        decreases n,
    {
        assert(cs@.take(n as int).drop_last() =~= cs@.take(n - 1));
        n -= 1;
    }
    n
}

/// A part of a text, character by character.
pub fn slice_chars(cs: &Vec<char>, from: usize, to: usize) -> (r: Vec<char>)
    requires
        from <= to <= cs@.len(),
    ensures
        r@ == cs@.subrange(from as int, to as int),
{
    let mut r: Vec<char> = Vec::new();
    let mut i: usize = from;
    while i < to
        invariant
            from <= i <= to <= cs@.len(),
            r@ == cs@.subrange(from as int, i as int),
        decreases to - i,
    {
        r.push(cs[i]);
        assert(cs@.subrange(from as int, i + 1) =~= cs@.subrange(from as int, i as int).push(
            cs@[i as int],
        ));
        i += 1;
    }
    r
}

/// A text without the white space around it.
pub fn trim(cs: &Vec<char>) -> (r: Vec<char>)
    ensures
        r@ == trimmed(cs@),
{
    let from: usize = find_word(cs, 0);
    let rest = slice_chars(cs, from, cs.len());
    assert(rest@ =~= cs@.skip(from as int));
    let n: usize = end_of_text(&rest);
    let r = slice_chars(&rest, 0, n);
    assert(r@ =~= rest@.take(n as int));
    r
}

/// The number that a text writes: decimal digits, with a plus sign before them or
/// without.
pub open spec fn unsigned_value(s: Seq<char>) -> Option<nat> {
    let d = if s.len() > 0 && s[0] == '+' {
        s.skip(1)
    } else {
        s
    };
    if all_digits(d) {
        Some(digits_value(d))
    } else {
        None
    }
}

/// Reads a number that fits an address.
pub fn parse_usize(s: &str) -> (r: Option<usize>)
    ensures
        match r {
            Some(n) => unsigned_value(s@) == Some(n as nat),
            None => unsigned_value(s@) matches Some(n) ==> n > usize::MAX,
        },
{
    let cs = chars_of(s);
    let from: usize = if cs.len() > 0 && cs[0] == '+' {
        1
    } else {
        0
    };
    let digits = slice_chars(&cs, from, cs.len());
    proof {
        if from == 0 {
            assert(digits@ =~= s@);
        } else {
            assert(digits@ =~= s@.skip(1));
        }
    }
    let text = text_of(digits.as_slice());
    match parse_decimal(text.as_str()) {
        Some(n) => {
            if n <= usize::MAX as u64 {
                Some(n as usize)
            } else {
                None
            }
        },
        None => None,
    }
}

} // verus!
