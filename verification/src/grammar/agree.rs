//! The grammar and the parser agree on what a call is.
use vstd::prelude::*;
use vstd::utf8::{encode_utf8, is_ascii_chars_encode_utf8};
use crate::grammar::call::{
    arg_at, arg_with_colon, args_at, call_with_brace, close_text, ends_value, is_bare,
    is_call_text, is_literal, is_separator, open_text, past_space, quote_text, token_text,
    tokens_text, value_at,
};
use crate::grammar::constraint::{token_word, Constraint};
use crate::grammar::lang::{
    args_parts, byte_syms, call_parts, is_call, is_digit, is_digits, is_one_of, is_text,
    matches_parts, name_bytes, param_parts, required, value_parts, Delims, Param, ParamType, Part,
    Sym, Tool,
};
use crate::grammar::nfa::{lemma_join, lemma_single, lemma_unjoin};
use crate::text::{first_at, stands_at};

verus! {

/// What a symbol looks like as text.
pub open spec fn sym_text(a: Sym, d: Delims) -> Seq<u8> {
    match a {
        Sym::Byte(b) => seq![b],
        Sym::Tok(t) => if t == d.call_open {
            encode_utf8("<|tool_call>"@)
        } else if t == d.call_close {
            encode_utf8("<tool_call|>"@)
        } else if t == d.quote {
            quote_text()
        } else {
            Seq::empty()
        },
    }
}

/// What a word looks like as text.
pub open spec fn word_text(w: Seq<Sym>, d: Delims) -> Seq<u8>
    decreases w.len(),
{
    if w.len() == 0 {
        Seq::empty()
    } else {
        sym_text(w[0], d) + word_text(w.skip(1), d)
    }
}

/// Whether no plain bytes of the word spell the string delimiter.
pub open spec fn no_plain_quote(w: Seq<Sym>) -> bool {
    forall|i: int|
        0 <= i && i + quote_text().len() <= w.len() ==> #[trigger] w.subrange(
            i,
            i + quote_text().len(),
        ) != byte_syms(quote_text())
}

/// Whether the names of a tool and of its required parameters hold no separator.
pub open spec fn plainly_named(t: Tool) -> bool {
    &&& is_bare(name_bytes(t.name))
    &&& params_bare(required(t.params@))
}

pub open spec fn params_bare(params: Seq<Param>) -> bool {
    forall|i: int| 0 <= i < params.len() ==> is_bare(name_bytes((#[trigger] params[i]).name))
}

/// The parts of a value that is known.
pub open spec fn exact_value(ty: ParamType, val: Seq<u8>, d: Delims) -> Seq<Part> {
    if ty is Str || ty is Enum {
        seq![Part::Delim(d.quote), Part::Bytes(val), Part::Delim(d.quote)]
    } else {
        seq![Part::Bytes(val)]
    }
}

/// The parts of a parameter whose value is known.
pub open spec fn exact_param(p: Param, val: Seq<u8>, d: Delims) -> Seq<Part> {
    seq![Part::Bytes(name_bytes(p.name)), Part::Bytes(encode_utf8(":"@)), Part::Space]
        + exact_value(p.ty, val, d)
}

/// The parts of arguments whose values are known.
pub open spec fn exact_args(
    params: Seq<Param>,
    args: Seq<(Seq<u8>, Seq<u8>)>,
    d: Delims,
) -> Seq<Part>
    decreases params.len(),
{
    if params.len() == 0 {
        Seq::empty()
    } else if params.len() == 1 {
        exact_param(params[0], args[0].1, d)
    } else {
        exact_param(params[0], args[0].1, d) + (seq![Part::Bytes(encode_utf8(","@)), Part::Space]
            + exact_args(params.skip(1), args.skip(1), d))
    }
}

/// The parts of a call up to its brace.
pub open spec fn head_parts(t: Tool, d: Delims) -> Seq<Part> {
    seq![
        Part::Delim(d.call_open),
        Part::Bytes(encode_utf8("call:"@)),
        Part::Bytes(name_bytes(t.name)),
        Part::Bytes(encode_utf8("{"@)),
    ]
}

/// The parts of a call from its last brace on.
pub open spec fn tail_parts(d: Delims) -> Seq<Part> {
    seq![Part::Bytes(encode_utf8("}"@)), Part::Delim(d.call_close)]
}

/// Whether a word is the call of a tool with these very values: those of texts and
/// of closed sets stand between two string delimiters, the others as they are.
pub open spec fn is_exact_call(
    t: Tool,
    args: Seq<(Seq<u8>, Seq<u8>)>,
    d: Delims,
    w: Seq<Sym>,
) -> bool {
    matches_parts(
        head_parts(t, d) + (seq![Part::Space] + (exact_args(required(t.params@), args, d)
            + tail_parts(d))),
        w,
    )
}

/// Whether a value is one of its type.
pub open spec fn value_fits(ty: ParamType, val: Seq<u8>) -> bool {
    match ty {
        ParamType::Str => Part::Text.matches(byte_syms(val)),
        ParamType::Int => Part::Int.matches(byte_syms(val)),
        ParamType::Num => Part::Num.matches(byte_syms(val)),
        ParamType::Bool => val == encode_utf8("true"@) || val == encode_utf8("false"@),
        ParamType::Enum(vals) => exists|i: int|
            0 <= i < vals@.len() && val == name_bytes(#[trigger] vals@[i]),
    }
}

/// Whether the values are of the types of the parameters, in order.
pub open spec fn values_fit(args: Seq<(Seq<u8>, Seq<u8>)>, params: Seq<Param>) -> bool {
    &&& args.len() == params.len()
    &&& forall|i: int|
        0 <= i < args.len() ==> value_fits(params[i].ty, (#[trigger] args[i]).1)
}

/// Whether the keys are the names of the parameters, in order.
pub open spec fn keys_match(args: Seq<(Seq<u8>, Seq<u8>)>, params: Seq<Param>) -> bool {
    &&& args.len() == params.len()
    &&& forall|i: int|
        0 <= i < args.len() ==> (#[trigger] args[i]).0 == name_bytes(params[i].name)
}

pub proof fn lemma_word_text_concat(u: Seq<Sym>, v: Seq<Sym>, d: Delims)
    ensures
        word_text(u + v, d) == word_text(u, d) + word_text(v, d),
    decreases u.len(),
{
    if u.len() == 0 {
        assert(u + v =~= v);
        assert(word_text(u, d) + word_text(v, d) =~= word_text(v, d));
    } else {
        assert((u + v)[0] == u[0]);
        assert((u + v).skip(1) =~= u.skip(1) + v);
        lemma_word_text_concat(u.skip(1), v, d);
        assert(word_text(u + v, d) =~= word_text(u, d) + word_text(v, d));
    }
}

pub proof fn lemma_word_text_bytes(s: Seq<u8>, d: Delims)
    ensures
        word_text(byte_syms(s), d) == s,
    decreases s.len(),
{
    if s.len() > 0 {
        assert(byte_syms(s).skip(1) =~= byte_syms(s.skip(1)));
        lemma_word_text_bytes(s.skip(1), d);
        assert(seq![s[0]] + s.skip(1) =~= s);
    }
}

proof fn lemma_word_text_one(a: Sym, d: Delims)
    ensures
        word_text(seq![a], d) == sym_text(a, d),
{
    let w = seq![a];
    assert(w.skip(1).len() == 0);
    assert(word_text(w.skip(1), d) =~= Seq::empty());
    assert(word_text(w, d) =~= sym_text(a, d));
}

/// The bytes that a word of bytes alone spells.
spec fn plain_bytes(u: Seq<Sym>) -> Seq<u8> {
    Seq::new(u.len(), |i: int| u[i]->Byte_0)
}

proof fn lemma_plain(u: Seq<Sym>, d: Delims)
    requires
        forall|i: int| 0 <= i < u.len() ==> (#[trigger] u[i]) is Byte,
    ensures
        u == byte_syms(plain_bytes(u)),
        word_text(u, d) == plain_bytes(u),
{
    assert(u =~= byte_syms(plain_bytes(u)));
    lemma_word_text_bytes(plain_bytes(u), d);
}

/// Takes the first part off a word.
proof fn lemma_peel(p: Part, rest: Seq<Part>, parts: Seq<Part>, w: Seq<Sym>) -> (k: int)
    requires
        matches_parts(parts, w),
        parts =~= seq![p] + rest,
    ensures
        0 <= k <= w.len(),
        p.matches(w.take(k)),
        matches_parts(rest, w.skip(k)),
        w == w.take(k) + w.skip(k),
{
    let k = lemma_unjoin(seq![p], rest, w);
    lemma_single(p, w.take(k));
    assert(w =~= w.take(k) + w.skip(k));
    k
}

proof fn lemma_sub_no_quote(w: Seq<Sym>, i: int, j: int)
    requires
        no_plain_quote(w),
        0 <= i <= j <= w.len(),
    ensures
        no_plain_quote(w.subrange(i, j)),
{
    let v = w.subrange(i, j);
    let q = quote_text().len();
    assert forall|k: int| 0 <= k && k + q <= v.len() implies #[trigger] v.subrange(k, k + q)
        != byte_syms(quote_text()) by {
        assert(v.subrange(k, k + q) =~= w.subrange(i + k, i + k + q));
    }
}

spec fn quote_seq() -> Seq<u8> {
    seq![0x3cu8, 0x7c, 0x22, 0x7c, 0x3e]
}

proof fn lemma_quote()
    ensures
        quote_text() == quote_seq(),
        quote_text().len() == 5,
{
    reveal_strlit("<|\"|>");
    is_ascii_chars_encode_utf8("<|\"|>"@);
    assert(quote_text() =~= quote_seq());
}

/// A string body that does not spell the delimiter ends where the delimiter stands first.
proof fn lemma_quoted(h: Seq<u8>, v: int, u: Seq<Sym>)
    requires
        0 <= v,
        forall|i: int| 0 <= i < u.len() ==> (#[trigger] u[i]) is Byte,
        no_plain_quote(u),
        v + 10 + u.len() <= h.len(),
        h.subrange(v + 5, v + 5 + u.len()) == plain_bytes(u),
        stands_at(h, v + 5 + u.len(), quote_text()),
    ensures
        first_at(h, v + 5, quote_text(), v + 5 + u.len()),
{
    lemma_quote();
    let b = plain_bytes(u);
    let e = v + 5 + u.len();
    assert forall|j: int| v + 5 <= j < e implies !#[trigger] stands_at(h, j, quote_text()) by {
        if stands_at(h, j, quote_text()) {
            let s = h.subrange(j, j + 5);
            if j + 5 <= e {
                let k = j - v - 5;
                assert(u.subrange(k, k + 5) =~= byte_syms(quote_text())) by {
                    assert forall|i: int| 0 <= i < 5 implies u.subrange(k, k + 5)[i] == byte_syms(
                        quote_text(),
                    )[i] by {
                        assert(s[i] == quote_text()[i]);
                        assert(h.subrange(v + 5, e)[k + i] == b[k + i]);
                        assert(u[k + i] is Byte);
                    }
                }
                assert(u.subrange(k, k + 5) != byte_syms(quote_text()));
            } else {
                let i = e - j;
                assert(s[i] == quote_text()[i]);
                assert(h.subrange(e, e + 5)[0] == quote_text()[0]);
                assert(false);
            }
        }
    }
}

/// A quoted value in a text.
proof fn lemma_quoted_value(h: Seq<u8>, v: int, u: Seq<Sym>)
    requires
        0 <= v,
        forall|i: int| 0 <= i < u.len() ==> (#[trigger] u[i]) is Byte,
        no_plain_quote(u),
        v + 10 + u.len() < h.len(),
        h.subrange(v, v + 10 + u.len()) == quote_text() + plain_bytes(u) + quote_text(),
        ends_value(h, v + 10 + u.len()),
    ensures
        value_at(h, v, plain_bytes(u), v + 10 + u.len()),
{
    lemma_quote();
    let n = v + 10 + u.len();
    let b = plain_bytes(u);
    let s = h.subrange(v, n);
    let r = quote_text() + b + quote_text();
    assert(h.subrange(v, v + 5) =~= quote_text()) by {
        assert forall|i: int| 0 <= i < 5 implies h.subrange(v, v + 5)[i] == quote_text()[i] by {
            assert(s[i] == r[i]);
        }
    }
    assert(h.subrange(v + 5, v + 5 + u.len()) =~= b) by {
        assert forall|i: int| 0 <= i < u.len() implies h.subrange(v + 5, v + 5 + u.len())[i]
            == b[i] by {
            assert(s[5 + i] == r[5 + i]);
        }
    }
    let e = v + 5 + u.len();
    assert(h.subrange(e, e + 5) =~= quote_text()) by {
        assert forall|i: int| 0 <= i < 5 implies h.subrange(e, e + 5)[i] == quote_text()[i] by {
            assert(s[5 + u.len() + i] == r[5 + u.len() + i]);
        }
    }
    lemma_quoted(h, v, u);
}

proof fn lemma_all_bytes(p: Part, u: Seq<Sym>)
    requires
        p.matches(u),
        p is Text || p is Int || p is Num || p is OneOf,
    ensures
        forall|i: int| 0 <= i < u.len() ==> (#[trigger] u[i]) is Byte,
{
    match p {
        Part::Text => {
            assert forall|i: int| 0 <= i < u.len() implies (#[trigger] u[i]) is Byte by {
                assert(is_text(u[i]));
            }
        },
        Part::Int => {
            assert forall|i: int| 0 <= i < u.len() implies (#[trigger] u[i]) is Byte by {
                if is_digits(u) {
                    assert(is_digit(u[i]));
                } else if i > 0 {
                    assert(is_digit(u.skip(1)[i - 1]));
                }
            }
        },
        Part::Num => {
            assert forall|i: int| 0 <= i < u.len() implies (#[trigger] u[i]) is Byte by {
                crate::grammar::call::lemma_num_syms(u, i);
            }
        },
        Part::OneOf(vals) => {
            assert(is_one_of(vals, u));
        },
        _ => {},
    }
}

/// A word of bytes spells its bytes.
proof fn lemma_plain_syms(u: Seq<Sym>)
    requires
        forall|i: int| 0 <= i < u.len() ==> (#[trigger] u[i]) is Byte,
    ensures
        byte_syms(plain_bytes(u)) == u,
{
    assert forall|i: int| 0 <= i < u.len() implies byte_syms(plain_bytes(u))[i] == u[i] by {
        assert(u[i] is Byte);
    }
    assert(byte_syms(plain_bytes(u)) =~= u);
}

/// Different bytes are spelled differently.
proof fn lemma_syms_injective(a: Seq<u8>, b: Seq<u8>)
    requires
        byte_syms(a) == byte_syms(b),
    ensures
        a == b,
{
    assert(byte_syms(a).len() == a.len());
    assert(byte_syms(b).len() == b.len());
    assert forall|i: int| 0 <= i < a.len() implies a[i] == b[i] by {
        assert(byte_syms(a)[i] == Sym::Byte(a[i]));
        assert(byte_syms(b)[i] == Sym::Byte(b[i]));
    }
    assert(a =~= b);
}

/// Puts a part in front of others.
proof fn lemma_put(p: Part, rest: Seq<Part>, w: Seq<Sym>, k: int)
    requires
        0 <= k <= w.len(),
        p.matches(w.take(k)),
        matches_parts(rest, w.skip(k)),
    ensures
        matches_parts(seq![p] + rest, w),
{
    lemma_single(p, w.take(k));
    lemma_join(seq![p], rest, w, k);
}

/// A value in string delimiters is what stands between them.
proof fn lemma_exact_quoted(ty: ParamType, w: Seq<Sym>, d: Delims, k: int, j: int)
    requires
        ty is Str || ty is Enum,
        0 <= k <= w.len(),
        0 <= j <= w.skip(k).len(),
        w.take(k) == seq![Sym::Tok(d.quote)],
        value_parts(ty, d)[1].matches(w.skip(k).take(j)),
        w.skip(k).skip(j) == seq![Sym::Tok(d.quote)],
    ensures
        matches_parts(exact_value(ty, plain_bytes(w.skip(k).take(j)), d), w),
        value_fits(ty, plain_bytes(w.skip(k).take(j))),
{
    let q = Part::Delim(d.quote);
    let w1 = w.skip(k);
    let u = w1.take(j);
    let b = plain_bytes(u);
    lemma_all_bytes(value_parts(ty, d)[1], u);
    lemma_plain_syms(u);
    lemma_single(q, w1.skip(j));
    lemma_put(Part::Bytes(b), seq![q], w1, j);
    lemma_put(q, seq![Part::Bytes(b)] + seq![q], w, k);
    assert(seq![q] + (seq![Part::Bytes(b)] + seq![q]) =~= exact_value(ty, b, d));
    if let ParamType::Enum(vals) = ty {
        let seqs = Seq::new(vals@.len(), |i: int| name_bytes(vals@[i]));
        let i = choose|i: int| 0 <= i < seqs.len() && u == byte_syms(#[trigger] seqs[i]);
        lemma_syms_injective(b, seqs[i]);
        assert(b == name_bytes(vals@[i]));
    }
}

/// A literal is its value.
proof fn lemma_exact_literal(ty: ParamType, w: Seq<Sym>, d: Delims)
    requires
        !(ty is Str || ty is Enum),
        value_parts(ty, d)[0].matches(w),
    ensures
        matches_parts(exact_value(ty, plain_bytes(w), d), w),
        value_fits(ty, plain_bytes(w)),
{
    let b = plain_bytes(w);
    lemma_all_bytes(value_parts(ty, d)[0], w);
    lemma_plain_syms(w);
    lemma_single(Part::Bytes(b), w);
    if ty is Bool {
        let vals = seq![encode_utf8("true"@), encode_utf8("false"@)];
        let i = choose|i: int| 0 <= i < vals.len() && w == byte_syms(#[trigger] vals[i]);
        lemma_syms_injective(b, vals[i]);
    }
}

/// A value that the grammar takes is a value to the parser.
proof fn lemma_value(
    h: Seq<u8>,
    v: int,
    ty: ParamType,
    w: Seq<Sym>,
    d: Delims,
) -> (val: Seq<u8>)
    requires
        d == Delims::gemma4(),
        matches_parts(value_parts(ty, d), w),
        no_plain_quote(w),
        0 <= v,
        v + word_text(w, d).len() <= h.len(),
        h.subrange(v, v + word_text(w, d).len()) == word_text(w, d),
        ends_value(h, v + word_text(w, d).len()),
    ensures
        value_at(h, v, val, v + word_text(w, d).len()),
        word_text(w, d).len() > 0,
        h[v] != 0x20,
        matches_parts(exact_value(ty, val, d), w),
        value_fits(ty, val),
{
    lemma_quote();
    let parts = value_parts(ty, d);
    let t = word_text(w, d);
    let n = v + t.len();
    if ty is Str || ty is Enum {
        let q = Part::Delim(d.quote);
        let body = parts[1];
        let k = lemma_peel(q, seq![body, q], parts, w);
        let w1 = w.skip(k);
        let j = lemma_peel(body, seq![q], seq![body, q], w1);
        let u = w1.take(j);
        let w2 = w1.skip(j);
        lemma_single(q, w2);
        lemma_all_bytes(body, u);
        lemma_plain(u, d);
        lemma_word_text_concat(w.take(k), w1, d);
        lemma_word_text_concat(u, w2, d);
        lemma_word_text_one(Sym::Tok(d.quote), d);
        let b = plain_bytes(u);
        assert(t =~= quote_text() + b + quote_text());
        assert(u =~= w.subrange(k, k + j));
        lemma_sub_no_quote(w, k, k + j);
        lemma_quoted_value(h, v, u);
        assert(h.subrange(v, n)[0] == t[0]);
        lemma_exact_quoted(ty, w, d, k, j);
        b
    } else {
        assert(parts.len() == 1);
        let p = parts[0];
        assert(parts =~= seq![p]);
        lemma_single(p, w);
        lemma_all_bytes(p, w);
        lemma_plain(w, d);
        let b = plain_bytes(w);
        assert(is_literal(b)) by {
            match ty {
                ParamType::Int => {
                    assert(Part::Num.matches(w)) by {
                        if is_digits(w) {
                        } else {
                            assert(is_digits(w.skip(1)));
                        }
                    }
                },
                ParamType::Bool => {
                    let vals = seq![encode_utf8("true"@), encode_utf8("false"@)];
                    assert(is_one_of(vals, w));
                    let i = choose|i: int| 0 <= i < vals.len() && w == byte_syms(#[trigger] vals[i]);
                    assert(b =~= vals[i]) by {
                        assert forall|k: int| 0 <= k < b.len() implies b[k] == vals[i][k] by {
                            assert(w[k] == byte_syms(vals[i])[k]);
                        }
                    }
                },
                _ => {},
            }
        }
        crate::grammar::call::lemma_literal(b);
        assert(h.subrange(v, n)[0] == b[0]);
        crate::grammar::call::lemma_literal_first(b);
        assert(!stands_at(h, v, quote_text())) by {
            if stands_at(h, v, quote_text()) {
                assert(h.subrange(v, v + 5)[0] == quote_text()[0]);
            }
        }
        lemma_exact_literal(ty, w, d);
        b
    }
}

/// Whether `t` stands in `h` from `i` on.
spec fn holds(h: Seq<u8>, i: int, t: Seq<u8>) -> bool {
    0 <= i && i + t.len() <= h.len() && h.subrange(i, i + t.len()) == t
}

proof fn lemma_holds_split(h: Seq<u8>, i: int, a: Seq<u8>, b: Seq<u8>)
    requires
        holds(h, i, a + b),
    ensures
        holds(h, i, a),
        holds(h, i + a.len(), b),
{
    let s = h.subrange(i, i + a.len() + b.len());
    assert(h.subrange(i, i + a.len()) =~= a) by {
        assert forall|k: int| 0 <= k < a.len() implies h.subrange(i, i + a.len())[k] == a[k] by {
            assert(s[k] == (a + b)[k]);
        }
    }
    let j = i + a.len();
    assert(h.subrange(j, j + b.len()) =~= b) by {
        assert forall|k: int| 0 <= k < b.len() implies h.subrange(j, j + b.len())[k] == b[k] by {
            assert(s[a.len() + k] == (a + b)[a.len() + k]);
        }
    }
}

/// An optional space and what it stands before.
proof fn lemma_space(h: Seq<u8>, i: int, u: Seq<Sym>, t: Seq<u8>, d: Delims)
    requires
        Part::Space.matches(u),
        holds(h, i, word_text(u, d) + t),
        t.len() > 0,
        t[0] != 0x20,
    ensures
        holds(h, past_space(h, i), t),
        past_space(h, i) == i + word_text(u, d).len(),
{
    lemma_holds_split(h, i, word_text(u, d), t);
    let j = i + word_text(u, d).len();
    assert(h.subrange(j, j + t.len())[0] == t[0]);
    if u.len() == 0 {
    } else {
        lemma_word_text_one(Sym::Byte(0x20), d);
        assert(h.subrange(i, i + 1)[0] == 0x20);
    }
}

/// A parameter that the grammar takes is an argument to the parser.
proof fn lemma_param(h: Seq<u8>, i: int, p: Param, w: Seq<Sym>, d: Delims, after: Seq<u8>) -> (val:
    Seq<u8>)
    requires
        d == Delims::gemma4(),
        is_bare(name_bytes(p.name)),
        matches_parts(param_parts(p, d), w),
        no_plain_quote(w),
        holds(h, i, word_text(w, d) + after),
        after.len() > 0,
        after[0] == 0x2c || after[0] == 0x7d,
    ensures
        arg_at(h, i, (name_bytes(p.name), val), i + word_text(w, d).len()),
        word_text(w, d).len() > 0,
        !is_separator(h[i]),
        matches_parts(exact_param(p, val, d), w),
        value_fits(p.ty, val),
{
    reveal_strlit(":");
    is_ascii_chars_encode_utf8(":"@);
    let key = name_bytes(p.name);
    let colon = encode_utf8(":"@);
    assert(colon =~= seq![0x3au8]);
    let parts = param_parts(p, d);
    let vp = value_parts(p.ty, d);
    let k = lemma_peel(
        Part::Bytes(key),
        seq![Part::Bytes(colon), Part::Space] + vp,
        parts,
        w,
    );
    let w1 = w.skip(k);
    let c1 = lemma_peel(
        Part::Bytes(colon),
        seq![Part::Space] + vp,
        seq![Part::Bytes(colon), Part::Space] + vp,
        w1,
    );
    let w2 = w1.skip(c1);
    let s = lemma_peel(Part::Space, vp, seq![Part::Space] + vp, w2);
    let w3 = w2.skip(s);
    lemma_word_text_concat(w.take(k), w1, d);
    lemma_word_text_concat(w1.take(c1), w2, d);
    lemma_word_text_concat(w2.take(s), w3, d);
    lemma_word_text_bytes(key, d);
    lemma_word_text_bytes(colon, d);
    let st = word_text(w2.take(s), d);
    let vt = word_text(w3, d);
    let c = i + key.len();
    let n = i + word_text(w, d).len();
    assert(word_text(w, d) + after =~= key + (colon + (st + (vt + after))));
    lemma_holds_split(h, i, key, colon + (st + (vt + after)));
    lemma_holds_split(h, c, colon, st + (vt + after));
    assert(h.subrange(c, c + 1)[0] == colon[0]);
    // the space and the value
    let v = c + 1 + st.len();
    lemma_holds_split(h, c + 1, st, vt + after);
    lemma_holds_split(h, v, vt, after);
    assert(h.subrange(n, n + after.len())[0] == after[0]);
    assert(w3 =~= w.subrange(k + c1 + s, w.len() as int));
    lemma_sub_no_quote(w, k + c1 + s, w.len() as int);
    let val = lemma_value(h, v, p.ty, w3, d);
    assert(h.subrange(v, v + vt.len())[0] == vt[0]);
    assert((vt + after)[0] == vt[0]);
    lemma_space(h, c + 1, w2.take(s), vt + after, d);
    assert(h.subrange(i, i + key.len()) == key);
    assert(h.subrange(i, i + key.len())[0] == h[i]);
    let arg = (key, val);
    assert(arg_with_colon(h, i, c, arg.0, arg.1, n));
    assert(arg_at(h, i, arg, n));
    assert(matches_parts(exact_param(p, val, d), w)) by {
        let e = exact_value(p.ty, val, d);
        lemma_put(Part::Space, e, w2, s);
        lemma_put(Part::Bytes(colon), seq![Part::Space] + e, w1, c1);
        lemma_put(Part::Bytes(key), seq![Part::Bytes(colon)] + (seq![Part::Space] + e), w, k);
        assert(seq![Part::Bytes(key)] + (seq![Part::Bytes(colon)] + (seq![Part::Space] + e))
            =~= exact_param(p, val, d));
    }
    val
}

/// An argument with known values before others.
proof fn lemma_exact_args(
    params: Seq<Param>,
    args: Seq<(Seq<u8>, Seq<u8>)>,
    d: Delims,
    w: Seq<Sym>,
    k: int,
    c: int,
    s: int,
)
    requires
        params.len() > 1,
        0 <= k <= w.len(),
        0 <= c <= w.skip(k).len(),
        0 <= s <= w.skip(k).skip(c).len(),
        matches_parts(exact_param(params[0], args[0].1, d), w.take(k)),
        Part::Bytes(encode_utf8(","@)).matches(w.skip(k).take(c)),
        Part::Space.matches(w.skip(k).skip(c).take(s)),
        matches_parts(
            exact_args(params.skip(1), args.skip(1), d),
            w.skip(k).skip(c).skip(s),
        ),
    ensures
        matches_parts(exact_args(params, args, d), w),
{
    let comma = Part::Bytes(encode_utf8(","@));
    let e = exact_args(params.skip(1), args.skip(1), d);
    lemma_put(Part::Space, e, w.skip(k).skip(c), s);
    lemma_put(comma, seq![Part::Space] + e, w.skip(k), c);
    let tail = seq![comma] + (seq![Part::Space] + e);
    lemma_join(exact_param(params[0], args[0].1, d), tail, w, k);
    assert(tail =~= seq![comma, Part::Space] + e);
}

/// Arguments that the grammar takes are arguments to the parser.
proof fn lemma_args(h: Seq<u8>, i: int, params: Seq<Param>, w: Seq<Sym>, d: Delims) -> (args: Seq<
    (Seq<u8>, Seq<u8>),
>)
    requires
        d == Delims::gemma4(),
        params.len() > 0,
        params_bare(params),
        matches_parts(args_parts(params, d), w),
        no_plain_quote(w),
        holds(h, i, word_text(w, d) + close_text()),
        i + (word_text(w, d) + close_text()).len() == h.len(),
    ensures
        args_at(h, i, args),
        keys_match(args, params),
        values_fit(args, params),
        matches_parts(exact_args(params, args, d), w),
        !is_separator(h[i]),
        word_text(w, d).len() > 0,
    decreases params.len(),
{
    lemma_close();
    let p = params[0];
    let pp = param_parts(p, d);
    if params.len() == 1 {
        let val = lemma_param(h, i, p, w, d, close_text());
        let args = seq![(name_bytes(p.name), val)];
        let n = i + word_text(w, d).len();
        assert(arg_at(h, i, args[0], n));
        assert(h.skip(n) =~= close_text()) by {
            lemma_holds_split(h, i, word_text(w, d), close_text());
            assert(h.skip(n) =~= h.subrange(n, n + close_text().len()));
        }
        args
    } else {
        reveal_strlit(",");
        is_ascii_chars_encode_utf8(","@);
        let comma = encode_utf8(","@);
        assert(comma =~= seq![0x2cu8]);
        let rest = params.skip(1);
        let rp = args_parts(rest, d);
        let sep = seq![Part::Bytes(comma), Part::Space];
        assert(args_parts(params, d) =~= pp + (sep + rp));
        let k = lemma_unjoin(pp, sep + rp, w);
        let w0 = w.take(k);
        let w1 = w.skip(k);
        assert(w =~= w0 + w1);
        let c1 = lemma_peel(Part::Bytes(comma), seq![Part::Space] + rp, sep + rp, w1);
        let w2 = w1.skip(c1);
        let s = lemma_peel(Part::Space, rp, seq![Part::Space] + rp, w2);
        let w3 = w2.skip(s);
        lemma_word_text_concat(w0, w1, d);
        lemma_word_text_concat(w1.take(c1), w2, d);
        lemma_word_text_concat(w2.take(s), w3, d);
        lemma_word_text_bytes(comma, d);
        let pt = word_text(w0, d);
        let st = word_text(w2.take(s), d);
        let rt = word_text(w3, d);
        let close = close_text();
        assert(word_text(w, d) + close =~= pt + (comma + (st + (rt + close))));
        assert(w0 =~= w.subrange(0, k));
        lemma_sub_no_quote(w, 0, k);
        let val = lemma_param(h, i, p, w0, d, comma + (st + (rt + close)));
        let n = i + pt.len();
        lemma_holds_split(h, i, pt, comma + (st + (rt + close)));
        lemma_holds_split(h, n, comma, st + (rt + close));
        assert(h.subrange(n, n + 1)[0] == comma[0]);
        lemma_holds_split(h, n + 1, st, rt + close);
        let m = n + 1 + st.len();
        assert(w3 =~= w.subrange(k + c1 + s, w.len() as int));
        lemma_sub_no_quote(w, k + c1 + s, w.len() as int);
        assert forall|x: int| 0 <= x < rest.len() implies is_bare(
            name_bytes((#[trigger] rest[x]).name),
        ) by {
            assert(rest[x] == params[x + 1]);
        }
        let more = lemma_args(h, m, rest, w3, d);
        assert(h.subrange(m, m + (rt + close).len())[0] == (rt + close)[0]);
        lemma_space(h, n + 1, w2.take(s), rt + close, d);
        let args = seq![(name_bytes(p.name), val)] + more;
        assert(args.skip(1) =~= more);
        assert(arg_at(h, i, args[0], n));
        assert forall|x: int| 0 <= x < args.len() implies (#[trigger] args[x]).0 == name_bytes(
            params[x].name,
        ) by {
            if x > 0 {
                assert(args[x] == more[x - 1]);
                assert(rest[x - 1] == params[x]);
            }
        }
        assert forall|x: int| 0 <= x < args.len() implies value_fits(
            params[x].ty,
            (#[trigger] args[x]).1,
        ) by {
            if x > 0 {
                assert(args[x] == more[x - 1]);
                assert(rest[x - 1] == params[x]);
            }
        }
        lemma_exact_args(params, args, d, w, k, c1, s);
        args
    }
}

proof fn lemma_close()
    ensures
        close_text().len() == 13,
        close_text()[0] == 0x7d,
        close_text() == encode_utf8("}"@) + encode_utf8("<tool_call|>"@),
        open_text() == encode_utf8("<|tool_call>"@) + encode_utf8("call:"@),
        encode_utf8("{"@) == seq![0x7bu8],
{
    reveal_strlit("}<tool_call|>");
    reveal_strlit("}");
    reveal_strlit("<tool_call|>");
    reveal_strlit("<|tool_call>call:");
    reveal_strlit("<|tool_call>");
    reveal_strlit("call:");
    reveal_strlit("{");
    is_ascii_chars_encode_utf8("}<tool_call|>"@);
    is_ascii_chars_encode_utf8("}"@);
    is_ascii_chars_encode_utf8("<tool_call|>"@);
    is_ascii_chars_encode_utf8("<|tool_call>call:"@);
    is_ascii_chars_encode_utf8("<|tool_call>"@);
    is_ascii_chars_encode_utf8("call:"@);
    is_ascii_chars_encode_utf8("{"@);
    assert(close_text() =~= encode_utf8("}"@) + encode_utf8("<tool_call|>"@));
    assert(open_text() =~= encode_utf8("<|tool_call>"@) + encode_utf8("call:"@));
    assert(encode_utf8("{"@) =~= seq![0x7bu8]);
}

/// Takes a byte string off the front of a word and of its text.
proof fn lemma_peel_bytes(
    b: Seq<u8>,
    rest: Seq<Part>,
    parts: Seq<Part>,
    w: Seq<Sym>,
    d: Delims,
) -> (v: Seq<Sym>)
    requires
        matches_parts(parts, w),
        parts =~= seq![Part::Bytes(b)] + rest,
        no_plain_quote(w),
    ensures
        matches_parts(rest, v),
        no_plain_quote(v),
        word_text(w, d) == b + word_text(v, d),
        forall|other: Seq<Part>| #[trigger]
            matches_parts(other, v) ==> matches_parts(seq![Part::Bytes(b)] + other, w),
{
    let k = lemma_peel(Part::Bytes(b), rest, parts, w);
    let v = w.skip(k);
    assert forall|other: Seq<Part>| #[trigger] matches_parts(other, v) implies matches_parts(
        seq![Part::Bytes(b)] + other,
        w,
    ) by {
        lemma_put(Part::Bytes(b), other, w, k);
    }
    lemma_word_text_concat(w.take(k), v, d);
    lemma_word_text_bytes(b, d);
    assert(v =~= w.subrange(k, w.len() as int));
    lemma_sub_no_quote(w, k, w.len() as int);
    v
}

/// The text of a call up to its brace.
proof fn lemma_call_head(t: Tool, w: Seq<Sym>, d: Delims, rest: Seq<Part>) -> (v: Seq<Sym>)
    requires
        d == Delims::gemma4(),
        is_call(t, d, w),
        no_plain_quote(w),
        rest == seq![Part::Space] + (args_parts(required(t.params@), d) + seq![
            Part::Bytes(encode_utf8("}"@)),
            Part::Delim(d.call_close),
        ]),
    ensures
        matches_parts(rest, v),
        no_plain_quote(v),
        word_text(w, d) == open_text() + (name_bytes(t.name) + (encode_utf8("{"@) + word_text(
            v,
            d,
        ))),
        forall|other: Seq<Part>| #[trigger]
            matches_parts(other, v) ==> matches_parts(head_parts(t, d) + other, w),
{
    lemma_close();
    let name = name_bytes(t.name);
    let brace = encode_utf8("{"@);
    let word = encode_utf8("call:"@);
    let open = encode_utf8("<|tool_call>"@);
    let q2 = seq![Part::Bytes(brace)] + rest;
    let q1 = seq![Part::Bytes(name)] + q2;
    let q0 = seq![Part::Bytes(word)] + q1;
    assert(call_parts(t, d) =~= seq![Part::Delim(d.call_open)] + q0);
    let k0 = lemma_peel(Part::Delim(d.call_open), q0, call_parts(t, d), w);
    let w1 = w.skip(k0);
    lemma_word_text_concat(w.take(k0), w1, d);
    lemma_word_text_one(Sym::Tok(d.call_open), d);
    assert(w1 =~= w.subrange(k0, w.len() as int));
    lemma_sub_no_quote(w, k0, w.len() as int);
    let w2 = lemma_peel_bytes(word, q1, q0, w1, d);
    let w3 = lemma_peel_bytes(name, q2, q1, w2, d);
    let v = lemma_peel_bytes(brace, rest, q2, w3, d);
    let r1 = name + (brace + word_text(v, d));
    assert(open + (word + r1) =~= (open + word) + r1);
    assert forall|other: Seq<Part>| #[trigger] matches_parts(other, v) implies matches_parts(
        head_parts(t, d) + other,
        w,
    ) by {
        let o3 = seq![Part::Bytes(brace)] + other;
        let o2 = seq![Part::Bytes(name)] + o3;
        let o1 = seq![Part::Bytes(word)] + o2;
        assert(matches_parts(o3, w3));
        assert(matches_parts(o2, w2));
        assert(matches_parts(o1, w1));
        lemma_put(Part::Delim(d.call_open), o1, w, k0);
        assert(seq![Part::Delim(d.call_open)] + o1 =~= head_parts(t, d) + other);
    }
    v
}

/// The text of a call after its brace.
proof fn lemma_call_tail(v: Seq<Sym>, ap: Seq<Part>, d: Delims) -> (r: (Seq<Sym>, Seq<Sym>))
    requires
        d == Delims::gemma4(),
        matches_parts(
            seq![Part::Space] + (ap + seq![
                Part::Bytes(encode_utf8("}"@)),
                Part::Delim(d.call_close),
            ]),
            v,
        ),
        no_plain_quote(v),
    ensures
        Part::Space.matches(r.0),
        matches_parts(ap, r.1),
        no_plain_quote(r.1),
        word_text(v, d) == word_text(r.0, d) + (word_text(r.1, d) + close_text()),
        forall|other: Seq<Part>| #[trigger]
            matches_parts(other, r.1) ==> matches_parts(
                seq![Part::Space] + (other + tail_parts(d)),
                v,
            ),
{
    lemma_close();
    let shut = encode_utf8("}"@);
    let tail = seq![Part::Bytes(shut), Part::Delim(d.call_close)];
    let k = lemma_peel(Part::Space, ap + tail, seq![Part::Space] + (ap + tail), v);
    let sp = v.take(k);
    let v1 = v.skip(k);
    let j = lemma_unjoin(ap, tail, v1);
    let wa = v1.take(j);
    let v2 = v1.skip(j);
    assert(v1 =~= wa + v2);
    assert(v2 =~= v.subrange(k + j, v.len() as int));
    lemma_sub_no_quote(v, k + j, v.len() as int);
    assert(wa =~= v.subrange(k, k + j));
    lemma_sub_no_quote(v, k, k + j);
    let v3 = lemma_peel_bytes(shut, seq![Part::Delim(d.call_close)], tail, v2, d);
    lemma_single(Part::Delim(d.call_close), v3);
    lemma_word_text_one(Sym::Tok(d.call_close), d);
    lemma_word_text_concat(sp, v1, d);
    lemma_word_text_concat(wa, v2, d);
    assert forall|other: Seq<Part>| #[trigger] matches_parts(other, wa) implies matches_parts(
        seq![Part::Space] + (other + tail_parts(d)),
        v,
    ) by {
        assert(tail =~= tail_parts(d));
        lemma_join(other, tail, v1, j);
        lemma_put(Part::Space, other + tail, v, k);
    }
    (sp, wa)
}

/// The parser agrees with the grammar: as text, a call of a plainly named tool
/// whose strings do not spell the string delimiter is the call of that tool, with
/// one argument for each required parameter, in schema order. The value of an
/// argument is what the call spells: what stands between the two string delimiters,
/// or the literal.
///
/// What `parse_call` returns is the only reading of a text, so this is the one it
/// returns.
pub proof fn law_parser_agrees_with_grammar(t: Tool, w: Seq<Sym>) -> (args: Seq<
    (Seq<u8>, Seq<u8>),
>)
    requires
        is_call(t, Delims::gemma4(), w),
        plainly_named(t),
        no_plain_quote(w),
    ensures
        is_call_text(word_text(w, Delims::gemma4()), name_bytes(t.name), args),
        keys_match(args, required(t.params@)),
        values_fit(args, required(t.params@)),
        is_exact_call(t, args, Delims::gemma4(), w),
{
    lemma_close();
    let d = Delims::gemma4();
    let h = word_text(w, d);
    let name = name_bytes(t.name);
    let params = required(t.params@);
    let ap = args_parts(params, d);
    let brace = encode_utf8("{"@);
    let v = lemma_call_head(
        t,
        w,
        d,
        seq![Part::Space] + (ap + seq![
            Part::Bytes(encode_utf8("}"@)),
            Part::Delim(d.call_close),
        ]),
    );
    let (sp, wa) = lemma_call_tail(v, ap, d);
    let st = word_text(sp, d);
    let close = close_text();
    let r4 = word_text(wa, d) + close;
    let r3 = st + r4;
    let r2 = brace + r3;
    let r1 = name + r2;
    assert(h == open_text() + r1);
    assert(h.subrange(0, h.len() as int) =~= h);
    let o = open_text().len() as int;
    let e = o + name.len();
    lemma_holds_split(h, 0, open_text(), r1);
    lemma_holds_split(h, o, name, r2);
    lemma_holds_split(h, e, brace, r3);
    assert(h.subrange(e, e + 1)[0] == brace[0]);
    lemma_holds_split(h, e + 1, st, r4);
    let i = e + 1 + st.len();
    let args = if params.len() == 0 {
        assert(r4 =~= close);
        lemma_space(h, e + 1, sp, close, d);
        assert(h.skip(i) =~= h.subrange(i, i + close.len()));
        assert(matches_parts(exact_args(params, Seq::empty(), d), wa));
        Seq::empty()
    } else {
        let args = lemma_args(h, i, params, wa, d);
        assert(h.subrange(i, i + r4.len())[0] == r4[0]);
        lemma_space(h, e + 1, sp, r4, d);
        args
    };
    assert(call_with_brace(h, e, name, args));
    let ex = exact_args(params, args, d);
    assert(matches_parts(ex, wa));
    assert(matches_parts(seq![Part::Space] + (ex + tail_parts(d)), v));
    args
}

/// Rendering decoded tokens gives the text of what they spell.
pub proof fn law_render_is_the_spelling(c: Constraint, ts: Seq<usize>, vocab: Seq<Vec<u8>>)
    requires
        c.vocab() == vocab.len(),
        vocab.len() <= u32::MAX,
        forall|t: int|
            0 <= t < vocab.len() ==> #[trigger] c.spelling(t) == token_word(vocab[t]@, t),
        forall|i: int| 0 <= i < ts.len() ==> (#[trigger] ts[i]) < vocab.len(),
    ensures
        word_text(c.spelling_of(ts), Delims::gemma4()) == tokens_text(
            ts.map_values(|t: usize| t as u32),
            vocab,
            Delims::gemma4(),
        ),
    decreases ts.len(),
{
    let d = Delims::gemma4();
    let ids = ts.map_values(|t: usize| t as u32);
    if ts.len() > 0 {
        let init = ts.drop_last();
        let t = ts.last();
        law_render_is_the_spelling(c, init, vocab);
        assert(ids.drop_last() =~= init.map_values(|t: usize| t as u32));
        assert(init.push(t) =~= ts);
        lemma_spelling_push(c, init, t);
        lemma_word_text_concat(c.spelling_of(init), c.spelling(t as int), d);
        assert(ts[ts.len() - 1] < vocab.len());
        if t == d.call_open || t == d.call_close || t == d.quote {
            lemma_word_text_one(Sym::Tok(t as u32), d);
        } else {
            lemma_word_text_bytes(vocab[t as int]@, d);
        }
        assert(word_text(c.spelling(t as int), d) == token_text(t as u32, vocab, d));
    }
}

proof fn lemma_spelling_push(c: Constraint, ts: Seq<usize>, t: usize)
    ensures
        c.spelling_of(ts.push(t)) == c.spelling_of(ts) + c.spelling(t as int),
    decreases ts.len(),
{
    let us = ts.push(t);
    if ts.len() == 0 {
        assert(us.skip(1).len() == 0);
        assert(c.spelling_of(us.skip(1)) =~= Seq::empty());
        assert(c.spelling_of(us) =~= c.spelling_of(ts) + c.spelling(t as int));
    } else {
        assert(us.skip(1) =~= ts.skip(1).push(t));
        lemma_spelling_push(c, ts.skip(1), t);
        assert(c.spelling_of(us) =~= c.spelling_of(ts) + c.spelling(t as int));
    }
}

} // verus!
