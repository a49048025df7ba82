//! The tool-call language: what counts as a call of a tool.
//!
//! A call is a word over two kinds of symbols, plain bytes and delimiter
//! tokens. Its shape is
//!
//! ```text
//! <|tool_call>call:NAME{key:value,key:value}<tool_call|>
//! ```
//!
//! with one optional space after `{`, `:` and `,`. The three delimiters
//! `<|tool_call>`, `<tool_call|>` and `<|"|>` are single vocabulary tokens, so
//! nothing between two `<|"|>` is structural.
use vstd::prelude::*;
use vstd::utf8::encode_utf8;

verus! {

/// A tool parameter's value type, which decides what the grammar accepts.
#[derive(Clone, Debug, PartialEq)]
pub enum ParamType {
    Str,
    Int,
    Num,
    Bool,
    /// closed set of allowed string values
    Enum(Vec<String>),
}

/// A named parameter of a tool.
#[derive(Clone, Debug)]
pub struct Param {
    pub name: String,
    pub ty: ParamType,
    pub required: bool,
}

/// A tool: its name and its parameters in schema order.
#[derive(Clone, Debug)]
pub struct Tool {
    pub name: String,
    pub params: Vec<Param>,
}

/// Vocabulary ids of the three delimiter tokens.
#[derive(Clone, Copy, Debug, PartialEq, Eq, Structural)]
pub struct Delims {
    pub call_open: u32,
    pub call_close: u32,
    pub quote: u32,
}

impl Delims {
    /// The delimiters of the Gemma 4 vocabulary.
    pub open spec fn spec_gemma4() -> Delims {
        Delims { call_open: 48, call_close: 49, quote: 52 }
    }

    /// The delimiters of the Gemma 4 vocabulary.
    #[verifier::when_used_as_spec(spec_gemma4)]
    pub fn gemma4() -> (d: Delims)
        ensures
            d == Delims::spec_gemma4(),
    {
        Delims { call_open: 48, call_close: 49, quote: 52 }
    }
}

/// One symbol of a tool call: a byte of text or a delimiter token.
#[derive(Clone, Copy, Debug, PartialEq, Eq, Structural)]
pub enum Sym {
    Byte(u8),
    Tok(u32),
}

/// A stretch of a tool call.
pub enum Part {
    /// exactly these bytes
    Bytes(Seq<u8>),
    /// exactly this delimiter token
    Delim(u32),
    /// one space or nothing
    Space,
    /// any run of bytes that holds no control byte
    Text,
    /// an integer, with a sign or without
    Int,
    /// an integer, or one followed by `.` and at least one digit
    Num,
    /// the bytes of one of these
    OneOf(Seq<Seq<u8>>),
}

/// The symbols that spell a byte string.
pub open spec fn byte_syms(s: Seq<u8>) -> Seq<Sym> {
    Seq::new(s.len(), |i: int| Sym::Byte(s[i]))
}

/// Whether a symbol is a byte that a string body may hold.
pub open spec fn is_text(a: Sym) -> bool {
    a matches Sym::Byte(b) && b >= 0x20
}

/// Whether a symbol is an ASCII digit.
pub open spec fn is_digit(a: Sym) -> bool {
    a matches Sym::Byte(b) && 0x30 <= b <= 0x39
}

/// At least one symbol, and all of them digits.
pub open spec fn is_digits(u: Seq<Sym>) -> bool {
    u.len() > 0 && forall|i: int| 0 <= i < u.len() ==> is_digit(#[trigger] u[i])
}

/// Digits with `.` and more digits between them.
pub open spec fn is_decimal_at(u: Seq<Sym>, dot: int) -> bool {
    &&& 0 <= dot < u.len()
    &&& is_digits(u.take(dot))
    &&& u[dot] == Sym::Byte(0x2e)
    &&& is_digits(u.skip(dot + 1))
}

/// A number without a sign.
pub open spec fn is_unsigned_num(u: Seq<Sym>) -> bool {
    is_digits(u) || exists|dot: int| is_decimal_at(u, dot)
}

/// A word that a predicate takes, with a minus sign before it or without.
pub open spec fn maybe_signed(p: spec_fn(Seq<Sym>) -> bool, u: Seq<Sym>) -> bool {
    p(u) || (u.len() > 0 && u[0] == Sym::Byte(0x2d) && p(u.skip(1)))
}

/// The bytes of one of several strings.
pub open spec fn is_one_of(vals: Seq<Seq<u8>>, u: Seq<Sym>) -> bool {
    exists|i: int| 0 <= i < vals.len() && u == byte_syms(#[trigger] vals[i])
}

impl Part {
    /// Whether a word is an instance of this part.
    pub open spec fn matches(self, u: Seq<Sym>) -> bool {
        match self {
            Part::Bytes(s) => u == byte_syms(s),
            Part::Delim(t) => u == seq![Sym::Tok(t)],
            Part::Space => u.len() == 0 || u == seq![Sym::Byte(0x20)],
            Part::Text => forall|i: int| 0 <= i < u.len() ==> is_text(#[trigger] u[i]),
            Part::Int => maybe_signed(|v: Seq<Sym>| is_digits(v), u),
            Part::Num => maybe_signed(|v: Seq<Sym>| is_unsigned_num(v), u),
            Part::OneOf(vals) => is_one_of(vals, u),
        }
    }
}

/// Whether a word is one instance of each part, in order.
pub open spec fn matches_parts(parts: Seq<Part>, w: Seq<Sym>) -> bool
    decreases parts.len(),
{
    if parts.len() == 0 {
        w.len() == 0
    } else {
        exists|k: int|
            0 <= k <= w.len() && #[trigger] parts[0].matches(w.take(k)) && matches_parts(
                parts.skip(1),
                w.skip(k),
            )
    }
}

/// The UTF-8 bytes of a name.
pub open spec fn name_bytes(s: String) -> Seq<u8> {
    encode_utf8(s@)
}

/// What a value of a type looks like.
pub open spec fn value_parts(ty: ParamType, d: Delims) -> Seq<Part> {
    match ty {
        ParamType::Str => seq![Part::Delim(d.quote), Part::Text, Part::Delim(d.quote)],
        ParamType::Int => seq![Part::Int],
        ParamType::Num => seq![Part::Num],
        ParamType::Bool => seq![
            Part::OneOf(seq![encode_utf8("true"@), encode_utf8("false"@)]),
        ],
        ParamType::Enum(vals) => seq![
            Part::Delim(d.quote),
            Part::OneOf(Seq::new(vals@.len(), |i: int| name_bytes(vals@[i]))),
            Part::Delim(d.quote),
        ],
    }
}

/// `key:value`, with one optional space between them.
pub open spec fn param_parts(p: Param, d: Delims) -> Seq<Part> {
    seq![Part::Bytes(name_bytes(p.name)), Part::Bytes(encode_utf8(":"@)), Part::Space]
        + value_parts(p.ty, d)
}

/// The required parameters, in schema order.
pub open spec fn required(params: Seq<Param>) -> Seq<Param> {
    params.filter(|p: Param| p.required)
}

/// The arguments, separated by `,` and one optional space.
pub open spec fn args_parts(params: Seq<Param>, d: Delims) -> Seq<Part>
    decreases params.len(),
{
    if params.len() == 0 {
        Seq::empty()
    } else if params.len() == 1 {
        param_parts(params[0], d)
    } else {
        param_parts(params[0], d) + seq![Part::Bytes(encode_utf8(","@)), Part::Space] + args_parts(
            params.skip(1),
            d,
        )
    }
}

/// The parts of a call of a tool.
pub open spec fn call_parts(t: Tool, d: Delims) -> Seq<Part> {
    seq![
        Part::Delim(d.call_open),
        Part::Bytes(encode_utf8("call:"@)),
        Part::Bytes(name_bytes(t.name)),
        Part::Bytes(encode_utf8("{"@)),
        Part::Space,
    ] + args_parts(required(t.params@), d) + seq![
        Part::Bytes(encode_utf8("}"@)),
        Part::Delim(d.call_close),
    ]
}

/// Whether a word is a complete call of the tool.
pub open spec fn is_call(t: Tool, d: Delims, w: Seq<Sym>) -> bool {
    matches_parts(call_parts(t, d), w)
}

/// Whether a word is a complete call of one of the tools.
pub open spec fn is_some_call(tools: Seq<Tool>, d: Delims, w: Seq<Sym>) -> bool {
    exists|i: int| 0 <= i < tools.len() && is_call(#[trigger] tools[i], d, w)
}

/// Whether every closed set that a call has to choose from holds a value.
pub open spec fn choosable(t: Tool) -> bool {
    forall|i: int|
        0 <= i < required(t.params@).len() ==> ((#[trigger] required(
            t.params@,
        )[i]).ty matches ParamType::Enum(vals) ==> vals@.len() > 0)
}

} // verus!
