//! Reads a tool call back from text.
//!
//! As text, a call spells its delimiters out: `<|tool_call>`, `<tool_call|>`
//! and `<|"|>`.
use vstd::prelude::*;
use vstd::utf8::{encode_utf8, is_ascii_chars_encode_utf8, is_char_boundary};
use crate::grammar::lang::{
    byte_syms, is_decimal_at, is_digit, is_digits, is_unsigned_num, Delims, Part, Sym,
};
use crate::lossy::{decode_lossy, lossy};
use crate::text::{
    copy_bytes, find, first_at, lemma_boundary_after_ascii, lemma_text, same_bytes, slice_text,
    stands_at, starts_at,
};

verus! {

/// A tool call: the tool and its arguments, without their delimiters.
#[derive(Clone, Debug)]
pub struct Call {
    pub name: String,
    pub args: Vec<(String, String)>,
}

/// `<|tool_call>` and the word before the name.
pub open spec fn open_text() -> Seq<u8> {
    encode_utf8("<|tool_call>call:"@)
}

/// What ends the arguments and the call.
pub open spec fn close_text() -> Seq<u8> {
    encode_utf8("}<tool_call|>"@)
}

/// The delimiter around a string.
pub open spec fn quote_text() -> Seq<u8> {
    encode_utf8("<|\"|>"@)
}

/// A byte that separates the pieces of a call.
pub open spec fn is_separator(b: u8) -> bool {
    b == 0x20 || b == 0x3a || b == 0x2c || b == 0x7b || b == 0x7d
}

/// A name or key: at least one byte, none of them a separator.
pub open spec fn is_bare(s: Seq<u8>) -> bool {
    s.len() > 0 && forall|i: int| 0 <= i < s.len() ==> !is_separator(#[trigger] s[i])
}

/// A value that stands without delimiters: a number or a truth value.
pub open spec fn is_literal(s: Seq<u8>) -> bool {
    Part::Num.matches(byte_syms(s)) || s == encode_utf8("true"@) || s == encode_utf8("false"@)
}

/// Past one optional space.
pub open spec fn past_space(h: Seq<u8>, i: int) -> int {
    if 0 <= i < h.len() && h[i] == 0x20 {
        i + 1
    } else {
        i
    }
}

/// `,` or `}` stands at `n`.
pub open spec fn ends_value(h: Seq<u8>, n: int) -> bool {
    0 <= n < h.len() && (h[n] == 0x2c || h[n] == 0x7d)
}

/// Value `val` stands between `v` and `n`: a string in its delimiters, or a
/// literal without any.
pub open spec fn value_at(h: Seq<u8>, v: int, val: Seq<u8>, n: int) -> bool {
    let q = quote_text().len();
    &&& 0 <= v <= n
    &&& ends_value(h, n)
    &&& if stands_at(h, v, quote_text()) {
        first_at(h, v + q, quote_text(), n - q) && val == h.subrange(v + q, n - q)
    } else {
        is_literal(val) && val == h.subrange(v, n)
    }
}

/// Argument `key:val` stands between `i` and `n`, its colon at `c`.
pub open spec fn arg_with_colon(
    h: Seq<u8>,
    i: int,
    c: int,
    key: Seq<u8>,
    val: Seq<u8>,
    n: int,
) -> bool {
    &&& 0 <= i <= c < h.len()
    &&& key == h.subrange(i, c)
    &&& is_bare(key)
    &&& h[c] == 0x3a
    &&& value_at(h, past_space(h, c + 1), val, n)
}

/// Argument `key:val` stands between `i` and `n`.
pub open spec fn arg_at(h: Seq<u8>, i: int, arg: (Seq<u8>, Seq<u8>), n: int) -> bool {
    exists|c: int| arg_with_colon(h, i, c, arg.0, arg.1, n)
}

/// The arguments stand from `i` on, separated by `,` and one optional space, and
/// the end of the call follows them.
pub open spec fn args_at(h: Seq<u8>, i: int, args: Seq<(Seq<u8>, Seq<u8>)>) -> bool
    decreases args.len(),
{
    args.len() > 0 && exists|n: int|
        #![trigger arg_at(h, i, args[0], n)]
        arg_at(h, i, args[0], n) && if args.len() == 1 {
            h.skip(n) == close_text()
        } else {
            h[n] == 0x2c && args_at(h, past_space(h, n + 1), args.skip(1))
        }
}

/// The call `name{args}` is written in `h`, its name up to `e`.
pub open spec fn call_with_brace(
    h: Seq<u8>,
    e: int,
    name: Seq<u8>,
    args: Seq<(Seq<u8>, Seq<u8>)>,
) -> bool {
    let o = open_text().len() as int;
    &&& stands_at(h, 0, open_text())
    &&& o <= e < h.len()
    &&& name == h.subrange(o, e)
    &&& is_bare(name)
    &&& h[e] == 0x7b
    &&& if args.len() == 0 {
        h.skip(past_space(h, e + 1)) == close_text()
    } else {
        args_at(h, past_space(h, e + 1), args)
    }
}

/// The text `h` is the call `name{args}`.
pub open spec fn is_call_text(h: Seq<u8>, name: Seq<u8>, args: Seq<(Seq<u8>, Seq<u8>)>) -> bool {
    exists|e: int| call_with_brace(h, e, name, args)
}

/// The bytes of a name or value pair.
pub open spec fn pair_bytes(p: (String, String)) -> (Seq<u8>, Seq<u8>) {
    (encode_utf8(p.0@), encode_utf8(p.1@))
}

/// The bytes of the arguments.
pub open spec fn args_bytes(args: Seq<(String, String)>) -> Seq<(Seq<u8>, Seq<u8>)> {
    args.map_values(|p: (String, String)| pair_bytes(p))
}

// ---------------------------------------------------------------- literals
fn digits_end(s: &[u8], from: usize) -> (n: usize)
    requires
        from <= s@.len(),
    ensures
        from <= n <= s@.len(),
        forall|i: int| from <= i < n ==> 0x30 <= #[trigger] s@[i] <= 0x39,
        n < s@.len() ==> !(0x30 <= s@[n as int] <= 0x39),
{
    let mut n: usize = from;
    while n < s.len() && s[n] >= 0x30 && s[n] <= 0x39
        invariant
            from <= n <= s@.len(),
            forall|i: int| from <= i < n ==> 0x30 <= #[trigger] s@[i] <= 0x39,
        decreases s@.len() - n,
    {
        n += 1;
    }
    n
}

/// Whether a byte string from `from` on is a number without a sign.
fn unsigned_from(s: &[u8], from: usize) -> (r: bool)
    requires
        from <= s@.len(),
    ensures
        r == is_unsigned_num(byte_syms(s@.skip(from as int))),
{
    let ghost u = byte_syms(s@.skip(from as int));
    let n: usize = digits_end(s, from);
    let ghost k = n - from;
    proof {
        assert forall|i: int| 0 <= i < u.len() implies #[trigger] u[i] == Sym::Byte(
            s@[from + i],
        ) by {}
    }
    if n == s.len() {
        proof {
            if n > from {
                assert forall|i: int| 0 <= i < u.len() implies is_digit(#[trigger] u[i]) by {
                    assert(0x30 <= s@[from + i] <= 0x39);
                }
                assert(is_digits(u));
            } else {
                assert forall|dot: int| !is_decimal_at(u, dot) by {}
            }
        }
        return n > from;
    }
    if s[n] != 0x2e || n == from {
        proof {
            assert(!is_digit(u[k]));
            assert(!is_digits(u));
            assert forall|dot: int| !is_decimal_at(u, dot) by {
                if is_decimal_at(u, dot) {
                    if dot > k {
                        assert(is_digit(u.take(dot)[k]));
                    } else if dot < k {
                        assert(0x30 <= s@[from + dot] <= 0x39);
                    }
                }
            }
        }
        return false;
    }
    let m: usize = digits_end(s, n + 1);
    proof {
        assert(!is_digit(u[k]));
        assert(!is_digits(u));
        assert forall|i: int| 0 <= i < u.take(k).len() implies is_digit(#[trigger] u.take(k)[i]) by {
            assert(0x30 <= s@[from + i] <= 0x39);
        }
        assert(is_digits(u.take(k)));
        let v = u.skip(k + 1);
        if m == s.len() && m > n + 1 {
            assert forall|i: int| 0 <= i < v.len() implies is_digit(#[trigger] v[i]) by {
                assert(0x30 <= s@[n + 1 + i] <= 0x39);
            }
            assert(is_decimal_at(u, k));
        } else {
            assert forall|dot: int| !is_decimal_at(u, dot) by {
                if is_decimal_at(u, dot) {
                    if dot > k {
                        assert(is_digit(u.take(dot)[k]));
                    } else if dot < k {
                        assert(0x30 <= s@[from + dot] <= 0x39);
                    } else if m < s.len() {
                        assert(is_digit(u.skip(dot + 1)[m - n - 1]));
                        assert(u.skip(dot + 1)[m - n - 1] == u[m - from]);
                    }
                }
            }
        }
    }
    m == s.len() && m > n + 1
}

/// Whether a byte string is a number.
fn is_number(s: &[u8]) -> (r: bool)
    ensures
        r == Part::Num.matches(byte_syms(s@)),
{
    let ghost u = byte_syms(s@);
    proof {
        assert(s@.skip(0) =~= s@);
        if s@.len() > 0 {
            assert(byte_syms(s@.skip(1)) =~= u.skip(1));
        }
    }
    if s.len() > 0 && s[0] == 0x2d {
        let r = unsigned_from(s, 1);
        proof {
            assert(!is_digit(u[0]));
            assert(!is_digits(u));
            assert forall|dot: int| !is_decimal_at(u, dot) by {
                if is_decimal_at(u, dot) && dot > 0 {
                    assert(is_digit(u.take(dot)[0]));
                }
            }
        }
        return r;
    }
    unsigned_from(s, 0)
}

/// A literal does not begin with a space or a delimiter.
pub proof fn lemma_literal_first(s: Seq<u8>)
    requires
        is_literal(s),
        s.len() > 0,
    ensures
        s[0] != 0x20,
        s[0] != 0x3c,
{
    let u = byte_syms(s);
    if Part::Num.matches(u) {
        lemma_num_syms(u, 0);
        assert(u[0] == Sym::Byte(s[0]));
    } else {
        reveal_strlit("true");
        reveal_strlit("false");
        is_ascii_chars_encode_utf8("true"@);
        is_ascii_chars_encode_utf8("false"@);
    }
}

/// A literal is not empty and holds nothing that ends a value.
pub proof fn lemma_literal(s: Seq<u8>)
    requires
        is_literal(s),
    ensures
        forall|i: int| 0 <= i < s.len() ==> (#[trigger] s[i]) != 0x2c && s[i] != 0x7d && s[i] < 0x80,
        s.len() > 0,
{
    let u = byte_syms(s);
    if Part::Num.matches(u) {
        assert forall|i: int| 0 <= i < s.len() implies (#[trigger] s[i]) != 0x2c && s[i] != 0x7d
            && s[i] < 0x80 by {
            lemma_num_syms(u, i);
            assert(u[i] == Sym::Byte(s[i]));
        }
    } else {
        reveal_strlit("true");
        reveal_strlit("false");
        is_ascii_chars_encode_utf8("true"@);
        is_ascii_chars_encode_utf8("false"@);
    }
}

proof fn lemma_unsigned_syms(u: Seq<Sym>, i: int)
    requires
        is_unsigned_num(u),
        0 <= i < u.len(),
    ensures
        is_digit(u[i]) || u[i] == Sym::Byte(0x2e),
{
    if !is_digits(u) {
        let dot = choose|dot: int| is_decimal_at(u, dot);
        if i < dot {
            assert(is_digit(u.take(dot)[i]));
        } else if i > dot {
            assert(is_digit(u.skip(dot + 1)[i - dot - 1]));
        }
    }
}

pub proof fn lemma_num_syms(u: Seq<Sym>, i: int)
    requires
        Part::Num.matches(u),
        0 <= i < u.len(),
    ensures
        is_digit(u[i]) || u[i] == Sym::Byte(0x2e) || u[i] == Sym::Byte(0x2d),
{
    if is_unsigned_num(u) {
        lemma_unsigned_syms(u, i);
    } else if i > 0 {
        lemma_unsigned_syms(u.skip(1), i - 1);
    }
}

// ---------------------------------------------------------------- parsing
proof fn lemma_marks()
    ensures
        open_text().len() == 17,
        close_text().len() == 13,
        close_text()[0] == 0x7d,
        quote_text() == seq![0x3cu8, 0x7c, 0x22, 0x7c, 0x3e],
        forall|i: int| 0 <= i < 17 ==> #[trigger] open_text()[i] < 0x80,
{
    reveal_strlit("<|tool_call>call:");
    reveal_strlit("}<tool_call|>");
    reveal_strlit("<|\"|>");
    is_ascii_chars_encode_utf8("<|tool_call>call:"@);
    is_ascii_chars_encode_utf8("}<tool_call|>"@);
    is_ascii_chars_encode_utf8("<|\"|>"@);
    assert(quote_text() =~= seq![0x3cu8, 0x7c, 0x22, 0x7c, 0x3e]);
}

fn skip_space(h: &[u8], i: usize) -> (r: usize)
    requires
        i <= h@.len(),
    ensures
        r == past_space(h@, i as int),
        r <= h@.len(),
{
    if i < h.len() && h[i] == 0x20 {
        i + 1
    } else {
        i
    }
}

fn separator(b: u8) -> (r: bool)
    ensures
        r == is_separator(b),
{
    b == 0x20 || b == 0x3a || b == 0x2c || b == 0x7b || b == 0x7d
}

/// The first separator from `i` on.
fn bare_end(h: &[u8], i: usize) -> (n: usize)
    requires
        i <= h@.len(),
    ensures
        i <= n <= h@.len(),
        forall|k: int| i <= k < n ==> !is_separator(#[trigger] h@[k]),
        n < h@.len() ==> is_separator(h@[n as int]),
{
    let mut n: usize = i;
    while n < h.len() && !separator(h[n])
        invariant
            i <= n <= h@.len(),
            forall|k: int| i <= k < n ==> !is_separator(#[trigger] h@[k]),
        decreases h@.len() - n,
    {
        n += 1;
    }
    n
}

/// A position at which an ASCII character stands, or after one, or at an end.
proof fn lemma_boundary(text: Seq<char>, i: int)
    requires
        ({
            let h = encode_utf8(text);
            0 <= i < h.len() && h[i] < 0x80 || 0 < i <= h.len() && h[i - 1] < 0x80
        }),
    ensures
        is_char_boundary(encode_utf8(text), i),
{
    lemma_text(text);
    let h = encode_utf8(text);
    if 0 <= i < h.len() && h[i] < 0x80 {
        lemma_boundary_after_ascii(h, i);
    } else {
        lemma_boundary_after_ascii(h, i - 1);
    }
}

/// Where the value from `v` on stands: its first byte, its end, and what follows it.
fn parse_value(h: &[u8], v: usize) -> (r: Option<(usize, usize, usize)>)
    requires
        v <= h@.len(),
    ensures
        match r {
            Some((s, e, n)) => {
                &&& v <= s <= e <= n < h@.len()
                &&& value_at(h@, v as int, h@.subrange(s as int, e as int), n as int)
                &&& (h@[s as int] < 0x80 || s > 0 && h@[s - 1] < 0x80)
                &&& h@[e as int] < 0x80
                &&& forall|val: Seq<u8>, m: int| #[trigger]
                    value_at(h@, v as int, val, m) ==> val == h@.subrange(s as int, e as int) && m
                        == n
            },
            None => forall|val: Seq<u8>, m: int| !#[trigger] value_at(h@, v as int, val, m),
        },
{
    let quote = "<|\"|>".as_bytes();
    let len: usize = h.len();
    proof {
        lemma_marks();
    }
    let ghost hs = h@;
    let ghost vi = v as int;
    if starts_at(h, v, quote) {
        assert(v + 5 <= len);
        match find(h, v + 5, quote) {
            Some(i) => {
                assert(i + 5 <= len);
                let n: usize = i + 5;
                proof {
                    assert forall|val: Seq<u8>, m: int| #[trigger]
                        value_at(hs, vi, val, m) implies val == hs.subrange(v + 5, i as int) && m
                        == n by {
                        let j = m - 5;
                        assert(first_at(hs, vi + 5, quote_text(), j));
                        if j < i {
                            assert(!stands_at(hs, j, quote_text()));
                        } else if i < j {
                            assert(!stands_at(hs, i as int, quote_text()));
                        }
                    }
                    assert(hs.subrange(v as int, v + 5)[4] == quote_text()[4]);
                    assert(hs.subrange(i as int, i + 5)[0] == quote_text()[0]);
                }
                if n < len && (h[n] == 0x2c || h[n] == 0x7d) {
                    return Some((v + 5, i, n));
                }
                proof {
                    assert forall|val: Seq<u8>, m: int| !#[trigger] value_at(hs, vi, val, m) by {
                        if value_at(hs, vi, val, m) {
                            assert(m == n);
                        }
                    }
                }
                return None;
            },
            None => {
                proof {
                    assert forall|val: Seq<u8>, m: int| !#[trigger] value_at(hs, vi, val, m) by {
                        if value_at(hs, vi, val, m) {
                            assert(stands_at(hs, m - 5, quote_text()));
                        }
                    }
                }
                return None;
            },
        }
    }
    let mut n: usize = v;
    while n < h.len() && h[n] != 0x2c && h[n] != 0x7d
        invariant
            v <= n <= h@.len(),
            forall|k: int| v <= k < n ==> (#[trigger] h@[k]) != 0x2c && h@[k] != 0x7d,
        decreases h@.len() - n,
    {
        n += 1;
    }
    proof {
        assert forall|val: Seq<u8>, m: int| #[trigger] value_at(hs, vi, val, m) implies m == n
            && val == hs.subrange(vi, n as int) && n < hs.len() by {
            lemma_literal(val);
            if n < m {
                assert(val[n - v] == hs[n as int]);
            }
        }
    }
    if n == h.len() {
        return None;
    }
    let lit = copy_bytes(h, v, n);
    if is_number(lit.as_slice()) || same_bytes(lit.as_slice(), "true".as_bytes()) || same_bytes(
        lit.as_slice(),
        "false".as_bytes(),
    ) {
        proof {
            lemma_literal(lit@);
            assert(lit@[0] == hs[vi]);
        }
        Some((v, n, n))
    } else {
        None
    }
}

/// The argument from `i` on, and where it ends.
fn parse_arg(text: &str, h: &[u8], i: usize) -> (r: Option<((String, String), usize)>)
    requires
        h@ == encode_utf8(text@),
        i <= h@.len(),
        is_char_boundary(h@, i as int),
    ensures
        match r {
            Some((p, n)) => {
                &&& i <= n < h@.len()
                &&& ends_value(h@, n as int)
                &&& arg_at(h@, i as int, pair_bytes(p), n as int)
                &&& forall|arg: (Seq<u8>, Seq<u8>), m: int| #[trigger]
                    arg_at(h@, i as int, arg, m) ==> arg == pair_bytes(p) && m == n
            },
            None => forall|arg: (Seq<u8>, Seq<u8>), m: int| !#[trigger]
                arg_at(h@, i as int, arg, m),
        },
{
    let ghost hs = h@;
    let c: usize = bare_end(h, i);
    proof {
        assert forall|arg: (Seq<u8>, Seq<u8>), m: int, d: int| #[trigger]
            arg_with_colon(hs, i as int, d, arg.0, arg.1, m) implies d == c && c < hs.len() && c > i
            by {
            if c < d {
                assert(arg.0[c - i] == hs[c as int]);
            } else if d < c {
                assert(is_separator(hs[d]));
            }
        }
    }
    if c == h.len() || c == i || h[c] != 0x3a {
        proof {
            assert forall|arg: (Seq<u8>, Seq<u8>), m: int| !#[trigger]
                arg_at(hs, i as int, arg, m) by {
                if arg_at(hs, i as int, arg, m) {
                    let d = choose|d: int| arg_with_colon(hs, i as int, d, arg.0, arg.1, m);
                    assert(d == c);
                }
            }
        }
        return None;
    }
    let v: usize = skip_space(h, c + 1);
    match parse_value(h, v) {
        Some((s, e, n)) => {
            proof {
                lemma_boundary(text@, c as int);
                lemma_boundary(text@, s as int);
                lemma_boundary(text@, e as int);
            }
            let key = slice_text(text, i, c);
            let val = slice_text(text, s, e);
            let p = (key, val);
            proof {
                let b = pair_bytes(p);
                assert forall|k: int| 0 <= k < b.0.len() implies !is_separator(
                    #[trigger] b.0[k],
                ) by {
                    assert(b.0[k] == hs[i + k]);
                }
                assert(arg_with_colon(hs, i as int, c as int, b.0, b.1, n as int));
                assert forall|arg: (Seq<u8>, Seq<u8>), m: int| #[trigger]
                    arg_at(hs, i as int, arg, m) implies arg == b && m == n by {
                    let d = choose|d: int| arg_with_colon(hs, i as int, d, arg.0, arg.1, m);
                    assert(d == c);
                    assert(value_at(hs, v as int, arg.1, m));
                    assert(arg.0 == b.0);
                    assert(arg.1 == b.1);
                }
            }
            Some((p, n))
        },
        None => {
            proof {
                assert forall|arg: (Seq<u8>, Seq<u8>), m: int| !#[trigger]
                    arg_at(hs, i as int, arg, m) by {
                    if arg_at(hs, i as int, arg, m) {
                        let d = choose|d: int| arg_with_colon(hs, i as int, d, arg.0, arg.1, m);
                        assert(d == c);
                        assert(value_at(hs, v as int, arg.1, m));
                    }
                }
            }
            None
        },
    }
}

/// Whether the end of a call stands at `n` and nothing after it.
fn call_ends(h: &[u8], n: usize) -> (r: bool)
    requires
        n <= h@.len(),
    ensures
        r == (h@.skip(n as int) == close_text()),
{
    let close = "}<tool_call|>".as_bytes();
    let r = h.len() - n == close.len() && starts_at(h, n, close);
    proof {
        assert(h@.skip(n as int) =~= h@.subrange(n as int, h@.len() as int));
    }
    r
}

/// The arguments from `i` on, up to the end of the call.
fn parse_args(text: &str, h: &[u8], i: usize) -> (r: Option<Vec<(String, String)>>)
    requires
        h@ == encode_utf8(text@),
        i <= h@.len(),
        is_char_boundary(h@, i as int),
    ensures
        match r {
            Some(args) => {
                &&& args_at(h@, i as int, args_bytes(args@))
                &&& forall|a: Seq<(Seq<u8>, Seq<u8>)>| #[trigger]
                    args_at(h@, i as int, a) ==> a == args_bytes(args@)
            },
            None => forall|a: Seq<(Seq<u8>, Seq<u8>)>| !#[trigger] args_at(h@, i as int, a),
        },
    decreases h@.len() - i,
{
    let ghost hs = h@;
    let ghost ii = i as int;
    let (p, n) = match parse_arg(text, h, i) {
        Some(x) => x,
        None => {
            return None;
        },
    };
    let ghost b = pair_bytes(p);
    proof {
        lemma_marks();
    }
    if h[n] == 0x7d {
        proof {
            assert forall|a: Seq<(Seq<u8>, Seq<u8>)>| #[trigger] args_at(hs, ii, a) implies a
                == seq![b] && hs.skip(n as int) == close_text() by {
                let m = choose|m: int|
                    #![trigger arg_at(hs, ii, a[0], m)]
                    arg_at(hs, ii, a[0], m) && if a.len() == 1 {
                        hs.skip(m) == close_text()
                    } else {
                        hs[m] == 0x2c && args_at(hs, past_space(hs, m + 1), a.skip(1))
                    };
                assert(m == n);
                assert(a =~= seq![b]);
            }
        }
        if call_ends(h, n) {
            let mut args: Vec<(String, String)> = Vec::new();
            args.push(p);
            proof {
                assert(args_bytes(args@) =~= seq![b]);
                assert(arg_at(hs, ii, seq![b][0], n as int));
                assert(args_at(hs, ii, seq![b]));
            }
            return Some(args);
        }
        return None;
    }
    proof {
        assert(hs.skip(n as int)[0] == hs[n as int]);
        assert forall|a: Seq<(Seq<u8>, Seq<u8>)>| #[trigger] args_at(hs, ii, a) implies a
            =~= seq![b] + a.skip(1) && args_at(hs, past_space(hs, n + 1), a.skip(1)) by {
            let m = choose|m: int|
                #![trigger arg_at(hs, ii, a[0], m)]
                arg_at(hs, ii, a[0], m) && if a.len() == 1 {
                    hs.skip(m) == close_text()
                } else {
                    hs[m] == 0x2c && args_at(hs, past_space(hs, m + 1), a.skip(1))
                };
            assert(m == n);
        }
    }
    let next: usize = skip_space(h, n + 1);
    proof {
        lemma_boundary(text@, next as int);
    }
    match parse_args(text, h, next) {
        Some(rest) => {
            let ghost r0 = rest@;
            let mut args = rest;
            args.insert(0, p);
            proof {
                let all = args_bytes(args@);
                assert(all =~= seq![b] + args_bytes(r0));
                assert(all.skip(1) =~= args_bytes(r0));
                assert(arg_at(hs, ii, all[0], n as int));
                assert(args_at(hs, ii, all));
            }
            Some(args)
        },
        None => None,
    }
}

/// Reads a call. Anything but one whole call is refused.
pub fn parse_call(text: &str) -> (r: Option<Call>)
    ensures
        match r {
            Some(c) => {
                &&& is_call_text(encode_utf8(text@), encode_utf8(c.name@), args_bytes(c.args@))
                &&& forall|name: Seq<u8>, args: Seq<(Seq<u8>, Seq<u8>)>| #[trigger]
                    is_call_text(encode_utf8(text@), name, args) ==> name == encode_utf8(c.name@)
                        && args == args_bytes(c.args@)
            },
            None => forall|name: Seq<u8>, args: Seq<(Seq<u8>, Seq<u8>)>| !#[trigger]
                is_call_text(encode_utf8(text@), name, args),
        },
{
    let h = text.as_bytes();
    let ghost hs = h@;
    proof {
        lemma_marks();
    }
    let open = "<|tool_call>call:".as_bytes();
    if !starts_at(h, 0, open) {
        return None;
    }
    let e: usize = bare_end(h, 17);
    proof {
        assert(hs.subrange(0, 17)[16] == open_text()[16]);
        assert forall|name: Seq<u8>, args: Seq<(Seq<u8>, Seq<u8>)>, d: int| #[trigger]
            call_with_brace(hs, d, name, args) implies d == e && e < hs.len() && e > 17 by {
            if e < d {
                assert(name[e - 17] == hs[e as int]);
            } else if d < e {
                assert(is_separator(hs[d]));
            }
        }
    }
    if e == h.len() || e == 17 || h[e] != 0x7b {
        proof {
            assert forall|name: Seq<u8>, args: Seq<(Seq<u8>, Seq<u8>)>| !#[trigger]
                is_call_text(hs, name, args) by {
                if is_call_text(hs, name, args) {
                    let d = choose|d: int| call_with_brace(hs, d, name, args);
                    assert(d == e);
                }
            }
        }
        return None;
    }
    proof {
        lemma_boundary(text@, 17);
        lemma_boundary(text@, e as int);
    }
    let name = slice_text(text, 17, e);
    let i: usize = skip_space(h, e + 1);
    let ghost nb = encode_utf8(name@);
    proof {
        assert forall|k: int| 0 <= k < nb.len() implies !is_separator(#[trigger] nb[k]) by {
            assert(nb[k] == hs[17 + k]);
        }
        assert forall|nm: Seq<u8>, args: Seq<(Seq<u8>, Seq<u8>)>| #[trigger]
            is_call_text(hs, nm, args) implies nm == nb && if args.len() == 0 {
            hs.skip(i as int) == close_text()
        } else {
            args_at(hs, i as int, args)
        } by {
            let d = choose|d: int| call_with_brace(hs, d, nm, args);
            assert(d == e);
        }
        lemma_boundary(text@, i as int);
    }
    if call_ends(h, i) {
        let c = Call { name, args: Vec::new() };
        proof {
            let none = args_bytes(c.args@);
            assert(none.len() == 0);
            assert(call_with_brace(hs, e as int, nb, none));
            assert forall|nm: Seq<u8>, args: Seq<(Seq<u8>, Seq<u8>)>| #[trigger]
                is_call_text(hs, nm, args) implies nm == nb && args == none by {
                if args.len() > 0 {
                    assert(args_at(hs, i as int, args));
                    let m = choose|m: int| #![trigger arg_at(hs, i as int, args[0], m)] arg_at(
                        hs,
                        i as int,
                        args[0],
                        m,
                    );
                    let k = choose|k: int|
                        arg_with_colon(hs, i as int, k, args[0].0, args[0].1, m);
                    assert(hs.skip(i as int)[0] == hs[i as int]);
                    assert(args[0].0[0] == hs[i as int]);
                    assert(is_separator(hs[i as int]));
                }
                assert(args =~= none);
            }
        }
        return Some(c);
    }
    match parse_args(text, h, i) {
        Some(args) => {
            let c = Call { name, args };
            proof {
                let all = args_bytes(c.args@);
                assert(args_at(hs, i as int, all));
                assert(call_with_brace(hs, e as int, nb, all));
                assert forall|nm: Seq<u8>, a: Seq<(Seq<u8>, Seq<u8>)>| #[trigger]
                    is_call_text(hs, nm, a) implies nm == nb && a == all by {
                    assert(args_at(hs, i as int, a));
                }
            }
            Some(c)
        },
        None => None,
    }
}

// ---------------------------------------------------------------- what a call looks like
/// A name may hold anything but a space, a colon, a comma and a brace.
pub proof fn law_names_hold_no_separator(s: Seq<u8>)
    ensures
        is_bare(s) <==> s.len() > 0 && !s.contains(0x20) && !s.contains(0x3a) && !s.contains(0x2c)
            && !s.contains(0x7b) && !s.contains(0x7d),
{
    if s.len() > 0 && !s.contains(0x20) && !s.contains(0x3a) && !s.contains(0x2c) && !s.contains(
        0x7b,
    ) && !s.contains(0x7d) {
        assert forall|i: int| 0 <= i < s.len() implies !is_separator(#[trigger] s[i]) by {
            assert(s.contains(s[i]));
        }
    }
}

proof fn lemma_args_end(h: Seq<u8>, i: int, args: Seq<(Seq<u8>, Seq<u8>)>) -> (n: int)
    requires
        args_at(h, i, args),
    ensures
        i <= n <= h.len(),
        h.skip(n) == close_text(),
    decreases args.len(),
{
    let n = choose|n: int|
        #![trigger arg_at(h, i, args[0], n)]
        arg_at(h, i, args[0], n) && if args.len() == 1 {
            h.skip(n) == close_text()
        } else {
            h[n] == 0x2c && args_at(h, past_space(h, n + 1), args.skip(1))
        };
    let c = choose|c: int| arg_with_colon(h, i, c, args[0].0, args[0].1, n);
    assert(i <= c < n);
    if args.len() == 1 {
        n
    } else {
        lemma_args_end(h, past_space(h, n + 1), args.skip(1))
    }
}

/// A call is one whole text: it begins with the delimiter, the word and the name of the
/// tool, goes on with a brace, and ends with the other brace and the other delimiter;
/// nothing stands before it or behind it. Without arguments there is at most one space
/// between the braces.
pub proof fn law_a_call_is_framed(
    h: Seq<u8>,
    name: Seq<u8>,
    args: Seq<(Seq<u8>, Seq<u8>)>,
) -> (inner: Seq<u8>)
    requires
        is_call_text(h, name, args),
    ensures
        h == encode_utf8("<|tool_call>call:"@) + name + seq![0x7bu8] + inner + encode_utf8(
            "}<tool_call|>"@,
        ),
        is_bare(name),
        args.len() == 0 ==> inner.len() == 0 || inner == seq![0x20u8],
{
    lemma_marks();
    let e = choose|e: int| call_with_brace(h, e, name, args);
    let o = open_text().len() as int;
    let n = if args.len() == 0 {
        past_space(h, e + 1)
    } else {
        lemma_args_end(h, past_space(h, e + 1), args)
    };
    let inner = h.subrange(e + 1, n);
    assert(h.skip(n) == close_text());
    assert(h =~= h.subrange(0, o) + h.subrange(o, e) + h.subrange(e, e + 1) + inner + h.skip(n));
    assert(h.subrange(e, e + 1) =~= seq![0x7bu8]);
    assert(h.subrange(0, o) == open_text());
    if args.len() == 0 && inner.len() > 0 {
        assert(inner =~= seq![0x20u8]);
    }
    inner
}

// ---------------------------------------------------------------- rendering
/// What a token looks like as text: a delimiter spelled out, any other token its bytes.
pub open spec fn token_text(id: u32, vocab: Seq<Vec<u8>>, d: Delims) -> Seq<u8> {
    if id == d.call_open {
        encode_utf8("<|tool_call>"@)
    } else if id == d.call_close {
        encode_utf8("<tool_call|>"@)
    } else if id == d.quote {
        quote_text()
    } else {
        vocab[id as int]@
    }
}

/// What several tokens look like as text.
pub open spec fn tokens_text(ids: Seq<u32>, vocab: Seq<Vec<u8>>, d: Delims) -> Seq<u8>
    decreases ids.len(),
{
    if ids.len() == 0 {
        Seq::empty()
    } else {
        tokens_text(ids.drop_last(), vocab, d) + token_text(ids.last(), vocab, d)
    }
}

/// The text of decoded tokens, delimiters spelled out.
pub fn render(ids: &[u32], vocab: &[Vec<u8>], d: Delims) -> (r: String)
    requires
        forall|i: int|
            0 <= i < ids@.len() ==> (#[trigger] ids@[i]) < vocab@.len() || ids@[i] == d.call_open
                || ids@[i] == d.call_close || ids@[i] == d.quote,
    ensures
        r@ == lossy(tokens_text(ids@, vocab@, d)),
{
    let mut out: Vec<u8> = Vec::new();
    let mut i: usize = 0;
    while i < ids.len()
        invariant
            i <= ids@.len(),
            forall|i: int|
                0 <= i < ids@.len() ==> (#[trigger] ids@[i]) < vocab@.len() || ids@[i]
                    == d.call_open || ids@[i] == d.call_close || ids@[i] == d.quote,
            out@ == tokens_text(ids@.take(i as int), vocab@, d),
        decreases ids@.len() - i,
    {
        let id: u32 = ids[i];
        proof {
            assert(ids@.take(i + 1).drop_last() =~= ids@.take(i as int));
        }
        if id == d.call_open {
            out.extend_from_slice("<|tool_call>".as_bytes());
        } else if id == d.call_close {
            out.extend_from_slice("<tool_call|>".as_bytes());
        } else if id == d.quote {
            out.extend_from_slice("<|\"|>".as_bytes());
        } else {
            out.extend_from_slice(vocab[id as usize].as_slice());
        }
        i += 1;
    }
    proof {
        assert(ids@.take(i as int) =~= ids@);
    }
    decode_lossy(out.as_slice())
}

} // verus!
