//! Calls as they are written, symbol by symbol.
use vstd::prelude::*;
use vstd::utf8::encode_utf8;
use crate::grammar::agree::value_fits;
use crate::grammar::lang::{
    args_parts, byte_syms, call_parts, is_call, is_decimal_at, is_digit, is_digits, is_one_of,
    is_text, is_unsigned_num, matches_parts, name_bytes, param_parts, required, value_parts, Delims,
    Param, ParamType, Part, Sym, Tool,
};
use crate::grammar::nfa::{lemma_join, lemma_single};

verus! {

// ---------------------------------------------------------------- values
/// At least one byte, and all of them digits.
pub open spec fn all_digits(b: Seq<u8>) -> bool {
    b.len() > 0 && forall|i: int| 0 <= i < b.len() ==> 48 <= #[trigger] b[i] <= 57
}

/// Digits, with a minus sign before them or without.
pub open spec fn integer(b: Seq<u8>) -> bool {
    all_digits(b) || (b.len() > 0 && b[0] == 45 && all_digits(b.skip(1)))
}

/// An integer, a point, and digits.
pub open spec fn fraction(b: Seq<u8>, dot: int) -> bool {
    0 <= dot < b.len() && integer(b.take(dot)) && b[dot] == 46 && all_digits(b.skip(dot + 1))
}

/// Whether bytes write a value of a type.
pub open spec fn of_type(ty: ParamType, b: Seq<u8>) -> bool {
    match ty {
        ParamType::Str => forall|i: int| 0 <= i < b.len() ==> #[trigger] b[i] >= 32,
        ParamType::Int => integer(b),
        ParamType::Num => integer(b) || exists|dot: int| fraction(b, dot),
        ParamType::Bool => b == encode_utf8("true"@) || b == encode_utf8("false"@),
        ParamType::Enum(vals) => exists|i: int|
            0 <= i < vals@.len() && encode_utf8((#[trigger] vals@[i])@) == b,
    }
}

proof fn lemma_digits(b: Seq<u8>)
    ensures
        is_digits(byte_syms(b)) == all_digits(b),
{
    let u = byte_syms(b);
    if is_digits(u) {
        assert forall|i: int| 0 <= i < b.len() implies 48 <= #[trigger] b[i] <= 57 by {
            assert(is_digit(u[i]));
        }
    }
    if all_digits(b) {
        assert forall|i: int| 0 <= i < u.len() implies is_digit(#[trigger] u[i]) by {
            assert(48 <= b[i] <= 57);
        }
    }
}

proof fn lemma_cuts(b: Seq<u8>, i: int)
    requires
        0 <= i <= b.len(),
    ensures
        byte_syms(b).take(i) == byte_syms(b.take(i)),
        byte_syms(b).skip(i) == byte_syms(b.skip(i)),
{
    assert(byte_syms(b).take(i) =~= byte_syms(b.take(i)));
    assert(byte_syms(b).skip(i) =~= byte_syms(b.skip(i)));
}

proof fn lemma_integer(b: Seq<u8>)
    ensures
        Part::Int.matches(byte_syms(b)) == integer(b),
{
    lemma_digits(b);
    if b.len() > 0 {
        lemma_cuts(b, 1);
        lemma_digits(b.skip(1));
    }
}

/// Digits, or digits with a point between them.
spec fn unsigned(b: Seq<u8>, dot: int) -> bool {
    0 <= dot < b.len() && all_digits(b.take(dot)) && b[dot] == 46 && all_digits(b.skip(dot + 1))
}

proof fn lemma_unsigned(b: Seq<u8>)
    ensures
        is_unsigned_num(byte_syms(b)) == (all_digits(b) || exists|dot: int| unsigned(b, dot)),
{
    let u = byte_syms(b);
    lemma_digits(b);
    assert forall|dot: int| is_decimal_at(u, dot) == #[trigger] unsigned(b, dot) by {
        if 0 <= dot < b.len() {
            lemma_cuts(b, dot);
            lemma_cuts(b, dot + 1);
            lemma_digits(b.take(dot));
            lemma_digits(b.skip(dot + 1));
        }
    }
    if exists|dot: int| is_decimal_at(u, dot) {
        let dot = choose|dot: int| is_decimal_at(u, dot);
        assert(unsigned(b, dot));
    }
    if exists|dot: int| unsigned(b, dot) {
        let dot = choose|dot: int| unsigned(b, dot);
        assert(is_decimal_at(u, dot));
    }
}

proof fn lemma_number(b: Seq<u8>)
    ensures
        Part::Num.matches(byte_syms(b)) == (integer(b) || exists|dot: int| fraction(b, dot)),
{
    lemma_unsigned(b);
    if b.len() > 0 {
        lemma_cuts(b, 1);
        lemma_unsigned(b.skip(1));
        assert forall|dot: int| #[trigger] unsigned(b, dot) implies fraction(b, dot) by {}
        assert forall|dot: int| b[0] == 45 && #[trigger] unsigned(b.skip(1), dot) implies fraction(
            b,
            dot + 1,
        ) by {
            let t = b.take(dot + 1);
            assert(t.skip(1) =~= b.skip(1).take(dot));
            assert(b.skip(dot + 2) =~= b.skip(1).skip(dot + 1));
        }
        assert forall|dot: int| #[trigger] fraction(b, dot) implies unsigned(b, dot) || (b[0] == 45
            && unsigned(b.skip(1), dot - 1)) by {
            let t = b.take(dot);
            if !all_digits(t) {
                assert(t.skip(1) =~= b.skip(1).take(dot - 1));
                assert(b.skip(dot + 1) =~= b.skip(1).skip(dot));
            }
        }
        if Part::Num.matches(byte_syms(b)) {
            if exists|dot: int| unsigned(b, dot) {
                let dot = choose|dot: int| unsigned(b, dot);
                assert(fraction(b, dot));
            } else if !all_digits(b) && exists|dot: int| unsigned(b.skip(1), dot) {
                let dot = choose|dot: int| unsigned(b.skip(1), dot);
                assert(b[0] == 45 ==> fraction(b, dot + 1));
            }
        }
        if exists|dot: int| fraction(b, dot) {
            let dot = choose|dot: int| fraction(b, dot);
            assert(unsigned(b, dot) || (b[0] == 45 && unsigned(b.skip(1), dot - 1)));
        }
    }
}

/// What may be written for a parameter: any text without control bytes, digits with a
/// sign or without, those with a fraction, one of two words, or one of the values of
/// a closed set.
pub proof fn law_values_are_those_of_their_type(ty: ParamType, b: Seq<u8>)
    ensures
        value_fits(ty, b) == of_type(ty, b),
{
    let u = byte_syms(b);
    match ty {
        ParamType::Str => {
            if Part::Text.matches(u) {
                assert forall|i: int| 0 <= i < b.len() implies #[trigger] b[i] >= 32 by {
                    assert(is_text(u[i]));
                }
            }
            if of_type(ty, b) {
                assert forall|i: int|
                    0 <= i < u.len() implies is_text(#[trigger] u[i]) by {
                    assert(b[i] >= 32);
                }
            }
        },
        ParamType::Int => {
            lemma_integer(b);
        },
        ParamType::Num => {
            lemma_number(b);
        },
        ParamType::Bool => {},
        ParamType::Enum(vals) => {
            if value_fits(ty, b) {
                let i = choose|i: int| 0 <= i < vals@.len() && b == name_bytes(#[trigger] vals@[i]);
                assert(encode_utf8(vals@[i]@) == b);
            }
            if of_type(ty, b) {
                let i = choose|i: int|
                    0 <= i < vals@.len() && encode_utf8((#[trigger] vals@[i])@) == b;
                assert(b == name_bytes(vals@[i]));
            }
        },
    }
}

// ---------------------------------------------------------------- words
/// A space, or nothing.
pub open spec fn blank(spaced: bool) -> Seq<Sym> {
    if spaced {
        seq![Sym::Byte(32)]
    } else {
        Seq::empty()
    }
}

/// A value as it is written: texts between two string delimiters, all else as it is.
pub open spec fn value_word(ty: ParamType, b: Seq<u8>, d: Delims) -> Seq<Sym> {
    match ty {
        ParamType::Str | ParamType::Enum(_) => seq![Sym::Tok(d.quote)] + byte_syms(b) + seq![
            Sym::Tok(d.quote),
        ],
        _ => byte_syms(b),
    }
}

/// `key:value`, with a space behind the colon or without.
pub open spec fn param_word(p: Param, b: Seq<u8>, spaced: bool, d: Delims) -> Seq<Sym> {
    byte_syms(encode_utf8(p.name@)) + byte_syms(encode_utf8(":"@)) + blank(spaced) + value_word(
        p.ty,
        b,
        d,
    )
}

/// The arguments one behind the other, with commas between them.
pub open spec fn args_word(params: Seq<Param>, vals: Seq<Seq<u8>>, spaced: bool, d: Delims) -> Seq<
    Sym,
>
    decreases params.len(),
{
    if params.len() == 0 {
        Seq::empty()
    } else if params.len() == 1 {
        param_word(params[0], vals[0], spaced, d)
    } else {
        param_word(params[0], vals[0], spaced, d) + (byte_syms(encode_utf8(","@)) + blank(spaced))
            + args_word(params.skip(1), vals.skip(1), spaced, d)
    }
}

/// A call as it is written, with spaces or without.
pub open spec fn call_word(t: Tool, vals: Seq<Seq<u8>>, spaced: bool, d: Delims) -> Seq<Sym> {
    seq![Sym::Tok(d.call_open)] + byte_syms(encode_utf8("call:"@)) + byte_syms(
        encode_utf8(t.name@),
    ) + byte_syms(encode_utf8("{"@)) + blank(spaced) + args_word(
        required(t.params@),
        vals,
        spaced,
        d,
    ) + byte_syms(encode_utf8("}"@)) + seq![Sym::Tok(d.call_close)]
}

proof fn lemma_cat(p: Seq<Part>, u: Seq<Sym>, q: Seq<Part>, v: Seq<Sym>)
    requires
        matches_parts(p, u),
        matches_parts(q, v),
    ensures
        matches_parts(p + q, u + v),
{
    let w = u + v;
    let k = u.len() as int;
    assert(w.take(k) =~= u);
    assert(w.skip(k) =~= v);
    lemma_join(p, q, w, k);
}

proof fn lemma_value_word(ty: ParamType, b: Seq<u8>, d: Delims)
    requires
        of_type(ty, b),
    ensures
        matches_parts(value_parts(ty, d), value_word(ty, b, d)),
{
    law_values_are_those_of_their_type(ty, b);
    let u = byte_syms(b);
    let q = Part::Delim(d.quote);
    let qu = seq![Sym::Tok(d.quote)];
    lemma_single(q, qu);
    match ty {
        ParamType::Str => {
            lemma_single(Part::Text, u);
            lemma_cat(seq![q], qu, seq![Part::Text], u);
            lemma_cat(seq![q] + seq![Part::Text], qu + u, seq![q], qu);
            assert(seq![q] + seq![Part::Text] + seq![q] =~= value_parts(ty, d));
        },
        ParamType::Int => {
            lemma_single(Part::Int, u);
        },
        ParamType::Num => {
            lemma_single(Part::Num, u);
        },
        ParamType::Bool => {
            let vals = seq![encode_utf8("true"@), encode_utf8("false"@)];
            assert(vals[0] == encode_utf8("true"@) && vals[1] == encode_utf8("false"@));
            assert(is_one_of(vals, u));
            lemma_single(Part::OneOf(vals), u);
        },
        ParamType::Enum(names) => {
            let vals = Seq::new(names@.len(), |i: int| name_bytes(names@[i]));
            let i = choose|i: int| 0 <= i < names@.len() && b == name_bytes(#[trigger] names@[i]);
            assert(vals[i] == b);
            assert(is_one_of(vals, u));
            let p = Part::OneOf(vals);
            lemma_single(p, u);
            lemma_cat(seq![q], qu, seq![p], u);
            lemma_cat(seq![q] + seq![p], qu + u, seq![q], qu);
            assert(seq![q] + seq![p] + seq![q] =~= value_parts(ty, d));
        },
    }
}

proof fn lemma_blank(spaced: bool)
    ensures
        matches_parts(seq![Part::Space], blank(spaced)),
{
    lemma_single(Part::Space, blank(spaced));
}

proof fn lemma_bytes(s: Seq<u8>)
    ensures
        matches_parts(seq![Part::Bytes(s)], byte_syms(s)),
{
    lemma_single(Part::Bytes(s), byte_syms(s));
}

proof fn lemma_param_word(p: Param, b: Seq<u8>, spaced: bool, d: Delims)
    requires
        of_type(p.ty, b),
    ensures
        matches_parts(param_parts(p, d), param_word(p, b, spaced, d)),
{
    let n = name_bytes(p.name);
    let c = encode_utf8(":"@);
    lemma_bytes(n);
    lemma_bytes(c);
    lemma_blank(spaced);
    lemma_value_word(p.ty, b, d);
    let p1 = seq![Part::Bytes(n)];
    let p2 = seq![Part::Bytes(c)];
    let p3 = seq![Part::Space];
    lemma_cat(p1, byte_syms(n), p2, byte_syms(c));
    lemma_cat(p1 + p2, byte_syms(n) + byte_syms(c), p3, blank(spaced));
    lemma_cat(
        p1 + p2 + p3,
        byte_syms(n) + byte_syms(c) + blank(spaced),
        value_parts(p.ty, d),
        value_word(p.ty, b, d),
    );
    assert(p1 + p2 + p3 + value_parts(p.ty, d) =~= param_parts(p, d));
}

proof fn lemma_args_word(params: Seq<Param>, vals: Seq<Seq<u8>>, spaced: bool, d: Delims)
    requires
        vals.len() == params.len(),
        forall|i: int| 0 <= i < params.len() ==> of_type((#[trigger] params[i]).ty, vals[i]),
    ensures
        matches_parts(args_parts(params, d), args_word(params, vals, spaced, d)),
    decreases params.len(),
{
    if params.len() > 0 {
        let p = params[0];
        lemma_param_word(p, vals[0], spaced, d);
        if params.len() > 1 {
            let rest = params.skip(1);
            let more = vals.skip(1);
            assert forall|i: int| 0 <= i < rest.len() implies of_type(
                (#[trigger] rest[i]).ty,
                more[i],
            ) by {
                assert(rest[i] == params[i + 1]);
            }
            lemma_args_word(rest, more, spaced, d);
            let c = encode_utf8(","@);
            lemma_bytes(c);
            lemma_blank(spaced);
            let sep = byte_syms(c) + blank(spaced);
            lemma_cat(seq![Part::Bytes(c)], byte_syms(c), seq![Part::Space], blank(spaced));
            let sp = seq![Part::Bytes(c)] + seq![Part::Space];
            lemma_cat(param_parts(p, d), param_word(p, vals[0], spaced, d), sp, sep);
            lemma_cat(
                param_parts(p, d) + sp,
                param_word(p, vals[0], spaced, d) + sep,
                args_parts(rest, d),
                args_word(rest, more, spaced, d),
            );
            assert(sp =~= seq![Part::Bytes(c), Part::Space]);
            assert(param_parts(p, d) + sp + args_parts(rest, d) =~= args_parts(params, d));
        }
    }
}

/// Whatever is written as a call is one: the name of the tool, then each required
/// parameter in the order of the schema with any value of its type, commas between
/// them, with spaces or without.
pub proof fn law_written_calls_are_calls(t: Tool, vals: Seq<Seq<u8>>, spaced: bool, d: Delims)
    requires
        vals.len() == required(t.params@).len(),
        forall|i: int|
            0 <= i < vals.len() ==> of_type(
                required(t.params@)[i].ty,
                #[trigger] vals[i],
            ),
    ensures
        is_call(t, d, call_word(t, vals, spaced, d)),
{
    let params = required(t.params@);
    let o = seq![Sym::Tok(d.call_open)];
    let z = seq![Sym::Tok(d.call_close)];
    let c = encode_utf8("call:"@);
    let n = name_bytes(t.name);
    let l = encode_utf8("{"@);
    let r = encode_utf8("}"@);
    assert forall|i: int| 0 <= i < params.len() implies of_type(
        (#[trigger] params[i]).ty,
        vals[i],
    ) by {
        assert(of_type(params[i].ty, vals[i]));
    }
    lemma_args_word(params, vals, spaced, d);
    lemma_single(Part::Delim(d.call_open), o);
    lemma_single(Part::Delim(d.call_close), z);
    lemma_bytes(c);
    lemma_bytes(n);
    lemma_bytes(l);
    lemma_bytes(r);
    lemma_blank(spaced);
    let p0 = seq![Part::Delim(d.call_open)];
    let p1 = seq![Part::Bytes(c)];
    let p2 = seq![Part::Bytes(n)];
    let p3 = seq![Part::Bytes(l)];
    let p4 = seq![Part::Space];
    let p5 = args_parts(params, d);
    let p6 = seq![Part::Bytes(r)];
    let p7 = seq![Part::Delim(d.call_close)];
    let a = args_word(params, vals, spaced, d);
    let w1 = o + byte_syms(c);
    let w2 = w1 + byte_syms(n);
    let w3 = w2 + byte_syms(l);
    let w4 = w3 + blank(spaced);
    let w5 = w4 + a;
    let w6 = w5 + byte_syms(r);
    lemma_cat(p0, o, p1, byte_syms(c));
    lemma_cat(p0 + p1, w1, p2, byte_syms(n));
    lemma_cat(p0 + p1 + p2, w2, p3, byte_syms(l));
    lemma_cat(p0 + p1 + p2 + p3, w3, p4, blank(spaced));
    lemma_cat(p0 + p1 + p2 + p3 + p4, w4, p5, a);
    lemma_cat(p0 + p1 + p2 + p3 + p4 + p5, w5, p6, byte_syms(r));
    lemma_cat(p0 + p1 + p2 + p3 + p4 + p5 + p6, w6, p7, z);
    assert(p0 + p1 + p2 + p3 + p4 + p5 + p6 + p7 =~= call_parts(t, d));
}

/// The required parameters are those that are marked so, in the order of the schema.
pub proof fn law_required_parameters_are_the_marked_ones(params: Seq<Param>, p: Param)
    ensures
        required(params.push(p)) == if p.required {
            required(params).push(p)
        } else {
            required(params)
        },
        required(Seq::empty()).len() == 0,
{
    reveal(Seq::filter);
    assert(params.push(p).drop_last() =~= params);
}

} // verus!
