//! Where the builder puts its nodes.
//!
//! What an automaton accepts does not tell how its states are numbered. The order
//! in which the nodes of a tool set are appended does: it is fixed here, so that a
//! tool set has one automaton and not only one language. Every function takes the
//! nodes so far and the node at which a call goes on, and gives the nodes then and
//! the node from which it starts.
use vstd::prelude::*;
use vstd::utf8::encode_utf8;
use crate::grammar::lang::{name_bytes, required, Delims, Param, ParamType, Tool};
use crate::grammar::nfa::{Node, SymClass};

verus! {

/// One more node.
pub open spec fn put(g: Seq<Node>, node: Node) -> (Seq<Node>, usize) {
    (g.push(node), g.len() as usize)
}

/// A delimiter token.
pub open spec fn put_delim(g: Seq<Node>, t: u32, next: usize) -> (Seq<Node>, usize) {
    put(g, Node::Step(SymClass::Tok(t), next))
}

/// A byte string, its last byte first.
pub open spec fn put_bytes(g: Seq<Node>, s: Seq<u8>, next: usize) -> (Seq<Node>, usize)
    decreases s.len(),
{
    if s.len() == 0 {
        (g, next)
    } else {
        let rest = put_bytes(g, s.skip(1), next);
        put(rest.0, Node::Step(SymClass::Byte(s[0]), rest.1))
    }
}

/// One space or nothing.
pub open spec fn put_space(g: Seq<Node>, next: usize) -> (Seq<Node>, usize) {
    let sp = put(g, Node::Step(SymClass::Byte(0x20), next));
    put(sp.0, Node::Split(sp.1, next))
}

/// At least one digit.
pub open spec fn put_digits(g: Seq<Node>, next: usize) -> (Seq<Node>, usize) {
    let star = put(g, Node::Star(SymClass::Digit, next));
    put(star.0, Node::Step(SymClass::Digit, star.1))
}

/// A number.
pub open spec fn put_number(g: Seq<Node>, fraction: bool, next: usize) -> (Seq<Node>, usize) {
    let unsigned = if fraction {
        let frac = put_digits(g, next);
        let dot = put(frac.0, Node::Step(SymClass::Byte(0x2e), frac.1));
        let end = put(dot.0, Node::Split(next, dot.1));
        put_digits(end.0, end.1)
    } else {
        put_digits(g, next)
    };
    let minus = put(unsigned.0, Node::Step(SymClass::Byte(0x2d), unsigned.1));
    put(minus.0, Node::Split(minus.1, unsigned.1))
}

/// One of several byte strings, the first one first.
pub open spec fn put_one_of(g: Seq<Node>, vals: Seq<Seq<u8>>, next: usize) -> (Seq<Node>, usize)
    decreases vals.len(),
{
    if vals.len() == 0 {
        (g, next)
    } else if vals.len() == 1 {
        put_bytes(g, vals[0], next)
    } else {
        let rest = put_one_of(g, vals.drop_last(), next);
        let one = put_bytes(rest.0, vals.last(), next);
        put(one.0, Node::Split(one.1, rest.1))
    }
}

/// `true` or `false`.
pub open spec fn put_bool(g: Seq<Node>, next: usize) -> (Seq<Node>, usize) {
    let t = put_bytes(g, encode_utf8("true"@), next);
    let f = put_bytes(t.0, encode_utf8("false"@), next);
    put(f.0, Node::Split(t.1, f.1))
}

/// The bytes of several strings.
pub open spec fn all_bytes(vals: Seq<String>) -> Seq<Seq<u8>> {
    Seq::new(vals.len(), |i: int| name_bytes(vals[i]))
}

/// A value of a parameter.
pub open spec fn put_value(g: Seq<Node>, ty: ParamType, d: Delims, next: usize) -> (
    Seq<Node>,
    usize,
) {
    match ty {
        ParamType::Str => {
            let close = put_delim(g, d.quote, next);
            let body = put(close.0, Node::Star(SymClass::StrBody, close.1));
            put_delim(body.0, d.quote, body.1)
        },
        ParamType::Int => put_number(g, false, next),
        ParamType::Num => put_number(g, true, next),
        ParamType::Bool => put_bool(g, next),
        ParamType::Enum(vals) => {
            let close = put_delim(g, d.quote, next);
            let body = put_one_of(close.0, all_bytes(vals@), close.1);
            put_delim(body.0, d.quote, body.1)
        },
    }
}

/// `key:value`.
pub open spec fn put_param(g: Seq<Node>, p: Param, d: Delims, next: usize) -> (Seq<Node>, usize) {
    let val = put_value(g, p.ty, d, next);
    let sp = put_space(val.0, val.1);
    let colon = put_bytes(sp.0, encode_utf8(":"@), sp.1);
    put_bytes(colon.0, name_bytes(p.name), colon.1)
}

/// Parameters, the last one first.
pub open spec fn put_args(g: Seq<Node>, params: Seq<Param>, d: Delims, end: usize) -> (
    Seq<Node>,
    usize,
)
    decreases params.len(),
{
    if params.len() == 0 {
        (g, end)
    } else if params.len() == 1 {
        put_param(g, params[0], d, end)
    } else {
        let rest = put_args(g, params.skip(1), d, end);
        let sp = put_space(rest.0, rest.1);
        let comma = put_bytes(sp.0, encode_utf8(","@), sp.1);
        put_param(comma.0, params[0], d, comma.1)
    }
}

/// A call of a tool, up to the `}` that `end` starts with.
pub open spec fn put_tool(g: Seq<Node>, t: Tool, d: Delims, end: usize) -> (Seq<Node>, usize) {
    let args = put_args(g, required(t.params@), d, end);
    let sp = put_space(args.0, args.1);
    let brace = put_bytes(sp.0, encode_utf8("{"@), sp.1);
    let name = put_bytes(brace.0, name_bytes(t.name), brace.1);
    let call = put_bytes(name.0, encode_utf8("call:"@), name.1);
    put_delim(call.0, d.call_open, call.1)
}

/// A call of one of several tools, the first one first.
pub open spec fn put_tools(g: Seq<Node>, tools: Seq<Tool>, d: Delims, end: usize) -> (
    Seq<Node>,
    usize,
)
    decreases tools.len(),
{
    if tools.len() == 0 {
        (g, end)
    } else if tools.len() == 1 {
        put_tool(g, tools[0], d, end)
    } else {
        let rest = put_tools(g, tools.drop_last(), d, end);
        let one = put_tool(rest.0, tools.last(), d, end);
        put(one.0, Node::Split(one.1, rest.1))
    }
}

/// The nodes of a tool set, and the one that its calls start from.
pub open spec fn nodes_of(tools: Seq<Tool>, d: Delims) -> (Seq<Node>, usize) {
    let done = put(Seq::empty(), Node::Accept);
    let shut = put_delim(done.0, d.call_close, done.1);
    let end = put_bytes(shut.0, encode_utf8("}"@), shut.1);
    if tools.len() == 0 {
        put(end.0, Node::Dead)
    } else {
        put_tools(end.0, tools, d, end.1)
    }
}

} // verus!
