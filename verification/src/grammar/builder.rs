//! Builds the automaton of a tool set.
use vstd::prelude::*;
use vstd::utf8::encode_utf8;
use crate::grammar::dfa::{determinize, Dfa};
use crate::grammar::lang::{
    args_parts, byte_syms, call_parts, choosable, is_call, is_one_of, is_some_call, name_bytes,
    param_parts, required, value_parts, Delims, Param, ParamType, Part, Sym, Tool,
};
use crate::grammar::layout::{
    all_bytes, nodes_of, put, put_args, put_bool, put_bytes, put_delim, put_digits, put_number,
    put_one_of, put_param, put_space, put_tool, put_tools, put_value,
};
use crate::grammar::nfa::{
    accepts, alive, backward, digit_runs, either, leads, lemma_digits, lemma_either,
    lemma_leads_frame, lemma_leads_trans, lemma_lit_step, lemma_push, lemma_reads_frame,
    lemma_reads_nothing, lemma_reads_part, lemma_signed, lemma_star, lemma_step, lemma_unsigned_num,
    nothing, one_of_class, reads, run_of_class, signed, splits_at, this_text, unsigned_nums, Node,
    SymClass,
};

verus! {

/// Builds the automaton for
/// `<|tool_call>call:NAME{key:value,...}<tool_call|>` over a tool set.
///
/// A call holds the tool's required parameters in schema order. Every function
/// here takes the node at which the call goes on and returns the node from
/// which it starts.
pub struct GrammarBuilder {
    nodes: Vec<Node>,
    delims: Delims,
}

impl View for GrammarBuilder {
    type V = Seq<Node>;

    closed spec fn view(&self) -> Seq<Node> {
        self.nodes@
    }
}

/// Whether an automaton is the one of a tool set, to the numbers of its states.
pub open spec fn is_automaton_of(d: Dfa, tools: Seq<Tool>) -> bool {
    let n = nodes_of(tools, Delims::gemma4());
    d.numbers(n.0, n.1 as int)
}

/// Whether `h` holds the nodes of `g`, unchanged, and no dead node unless `g` does.
pub open spec fn grows(g: Seq<Node>, h: Seq<Node>) -> bool {
    &&& backward(h)
    &&& g.len() <= h.len()
    &&& forall|n: int| 0 <= n < g.len() ==> #[trigger] h[n] == g[n]
    &&& forall|n: int, w: Seq<Sym>|
        0 <= n < g.len() ==> #[trigger] accepts(h, n, w) == accepts(g, n, w)
    &&& alive(g) ==> alive(h)
}

impl GrammarBuilder {
    pub closed spec fn delims(&self) -> Delims {
        self.delims
    }

    fn new(delims: Delims) -> (b: GrammarBuilder)
        ensures
            b@.len() == 0,
            b.delims() == delims,
    {
        GrammarBuilder { nodes: Vec::new(), delims }
    }

    /// Appends a node and returns it.
    fn add(&mut self, node: Node) -> (n: usize)
        requires
            backward(old(self)@),
            backward(old(self)@.push(node)),
        ensures
            (final(self)@, n) == put(old(self)@, node),
            final(self)@ == old(self)@.push(node),
            final(self).delims() == old(self).delims(),
            n == old(self)@.len(),
            forall|m: int, w: Seq<Sym>|
                0 <= m < old(self)@.len() ==> #[trigger] accepts(final(self)@, m, w) == accepts(
                    old(self)@,
                    m,
                    w,
                ),
            node !is Dead ==> grows(old(self)@, final(self)@),
    {
        let n: usize = self.nodes.len();
        self.nodes.push(node);
        proof {
            lemma_push(old(self)@, node);
        }
        n
    }

    /// A delimiter token.
    fn delim(&mut self, t: u32, next: usize) -> (from: usize)
        requires
            backward(old(self)@),
            next < old(self)@.len(),
        ensures
            (final(self)@, from) == put_delim(old(self)@, t, next),
            grows(old(self)@, final(self)@),
            final(self).delims() == old(self).delims(),
            from < final(self)@.len(),
            leads(final(self)@, from as int, seq![Part::Delim(t)], next as int),
    {
        let from: usize = self.add(Node::Step(SymClass::Tok(t), next));
        proof {
            let p = one_of_class(SymClass::Tok(t));
            lemma_step(self@, from as int, SymClass::Tok(t), next);
            assert forall|u: Seq<Sym>| #[trigger] p(u) == Part::Delim(t).matches(u) by {
                if p(u) {
                    assert(u =~= seq![Sym::Tok(t)]);
                }
            }
            lemma_reads_part(self@, from as int, p, Part::Delim(t), next as int);
        }
        from
    }

    /// A byte string.
    fn lit(&mut self, s: &[u8], next: usize) -> (from: usize)
        requires
            backward(old(self)@),
            next < old(self)@.len(),
        ensures
            (final(self)@, from) == put_bytes(old(self)@, s@, next),
            grows(old(self)@, final(self)@),
            final(self).delims() == old(self).delims(),
            from < final(self)@.len(),
            reads(final(self)@, from as int, this_text(s@), next as int),
            leads(final(self)@, from as int, seq![Part::Bytes(s@)], next as int),
    {
        let mut from: usize = next;
        let mut i: usize = s.len();
        proof {
            lemma_reads_nothing(self@, next as int);
            assert forall|w: Seq<Sym>| #[trigger] nothing()(w) == this_text(s@.skip(i as int))(w) by {
                assert(byte_syms(s@.skip(i as int)).len() == 0);
                if w.len() == 0 {
                    assert(w =~= byte_syms(s@.skip(i as int)));
                }
            }
            assert(nothing() =~= this_text(s@.skip(i as int)));
        }
        while i > 0
            invariant
                i <= s.len(),
                next < old(self)@.len(),
                grows(old(self)@, self@),
                self.delims() == old(self).delims(),
                from < self@.len(),
                reads(self@, from as int, this_text(s@.skip(i as int)), next as int),
                (self@, from) == put_bytes(old(self)@, s@.skip(i as int), next),
            decreases i,
        {
            i -= 1;
            let ghost g = self@;
            let ghost mid = from;
            from = self.add(Node::Step(SymClass::Byte(s[i]), from));
            proof {
                lemma_reads_frame(g, self@, mid as int, this_text(s@.skip(i + 1)), next as int);
                lemma_lit_step(self@, from as int, s[i as int], mid, s@.skip(i + 1), next as int);
                assert(seq![s[i as int]] + s@.skip(i + 1) =~= s@.skip(i as int));
                assert(s@.skip(i as int).skip(1) =~= s@.skip(i + 1));
            }
        }
        proof {
            assert(s@.skip(0) =~= s@);
            lemma_reads_part(self@, from as int, this_text(s@), Part::Bytes(s@), next as int);
        }
        from
    }

    /// One space or nothing.
    fn space(&mut self, next: usize) -> (from: usize)
        requires
            backward(old(self)@),
            next < old(self)@.len(),
        ensures
            (final(self)@, from) == put_space(old(self)@, next),
            grows(old(self)@, final(self)@),
            final(self).delims() == old(self).delims(),
            from < final(self)@.len(),
            leads(final(self)@, from as int, seq![Part::Space], next as int),
    {
        let c = SymClass::Byte(0x20);
        let sp: usize = self.add(Node::Step(c, next));
        let ghost g = self@;
        let from: usize = self.add(Node::Split(sp, next));
        proof {
            let p = one_of_class(c);
            let q = nothing();
            lemma_step(self@, sp as int, c, next);
            lemma_reads_nothing(self@, next as int);
            lemma_either(self@, from as int, sp, next, p, q, next as int);
            assert forall|u: Seq<Sym>| #[trigger]
                either(p, q)(u) == Part::Space.matches(u) by {
                if p(u) {
                    assert(u =~= seq![Sym::Byte(0x20)]);
                }
            }
            lemma_reads_part(self@, from as int, either(p, q), Part::Space, next as int);
        }
        from
    }

    /// A string body: any bytes but control bytes.
    fn string_body(&mut self, next: usize) -> (from: usize)
        requires
            backward(old(self)@),
            next < old(self)@.len(),
        ensures
            (final(self)@, from) == put(old(self)@, Node::Star(SymClass::StrBody, next)),
            grows(old(self)@, final(self)@),
            final(self).delims() == old(self).delims(),
            from < final(self)@.len(),
            leads(final(self)@, from as int, seq![Part::Text], next as int),
    {
        let c = SymClass::StrBody;
        let from: usize = self.add(Node::Star(c, next));
        proof {
            lemma_star(self@, from as int, c, next);
            lemma_reads_part(self@, from as int, run_of_class(c), Part::Text, next as int);
        }
        from
    }

    /// At least one digit.
    fn digits(&mut self, next: usize) -> (from: usize)
        requires
            backward(old(self)@),
            next < old(self)@.len(),
        ensures
            (final(self)@, from) == put_digits(old(self)@, next),
            grows(old(self)@, final(self)@),
            final(self).delims() == old(self).delims(),
            from < final(self)@.len(),
            reads(final(self)@, from as int, digit_runs(), next as int),
    {
        let star: usize = self.add(Node::Star(SymClass::Digit, next));
        let from: usize = self.add(Node::Step(SymClass::Digit, star));
        proof {
            lemma_digits(self@, from as int, star, next);
        }
        from
    }

    /// A number: an optional minus sign and at least one digit; with `fraction`
    /// also at most one `.`, with at least one digit after it.
    fn number_body(&mut self, fraction: bool, next: usize) -> (from: usize)
        requires
            backward(old(self)@),
            next < old(self)@.len(),
        ensures
            (final(self)@, from) == put_number(old(self)@, fraction, next),
            grows(old(self)@, final(self)@),
            final(self).delims() == old(self).delims(),
            from < final(self)@.len(),
            leads(
                final(self)@,
                from as int,
                seq![
                    if fraction {
                        Part::Num
                    } else {
                        Part::Int
                    },
                ],
                next as int,
            ),
    {
        let ghost p = if fraction { unsigned_nums() } else { digit_runs() };
        let unsigned: usize = if fraction {
            let frac: usize = self.digits(next);
            let ghost g1 = self@;
            let dot: usize = self.add(Node::Step(SymClass::Byte(0x2e), frac));
            let end: usize = self.add(Node::Split(next, dot));
            let d: usize = self.digits(end);
            proof {
                assert(grows(g1, self@));
                lemma_reads_frame(g1, self@, frac as int, digit_runs(), next as int);
                lemma_unsigned_num(self@, d as int, end, dot, frac, next);
            }
            d
        } else {
            self.digits(next)
        };
        let ghost g = self@;
        let minus: usize = self.add(Node::Step(SymClass::Byte(0x2d), unsigned));
        let from: usize = self.add(Node::Split(minus, unsigned));
        proof {
            lemma_reads_frame(g, self@, unsigned as int, p, next as int);
            lemma_signed(self@, from as int, minus, unsigned, p, next as int);
            let part = if fraction { Part::Num } else { Part::Int };
            lemma_reads_part(self@, from as int, signed(p), part, next as int);
        }
        from
    }

    /// One of several byte strings.
    fn one_of(&mut self, vals: &Vec<String>, next: usize) -> (from: usize)
        requires
            backward(old(self)@),
            next < old(self)@.len(),
            vals@.len() > 0,
        ensures
            (final(self)@, from) == put_one_of(old(self)@, all_bytes(vals@), next),
            grows(old(self)@, final(self)@),
            final(self).delims() == old(self).delims(),
            from < final(self)@.len(),
            leads(
                final(self)@,
                from as int,
                seq![Part::OneOf(Seq::new(vals@.len(), |i: int| name_bytes(vals@[i])))],
                next as int,
            ),
    {
        let mut from: usize = self.lit(vals[0].as_str().as_bytes(), next);
        let mut i: usize = 1;
        proof {
            let p = this_text(name_bytes(vals@[0]));
            assert forall|u: Seq<Sym>| #[trigger] p(u) == among(vals@, 1)(u) by {}
            assert(p =~= among(vals@, 1));
            assert(all_bytes(vals@.take(1))[0] == name_bytes(vals@[0]));
        }
        while i < vals.len()
            invariant
                1 <= i <= vals.len(),
                next < old(self)@.len(),
                grows(old(self)@, self@),
                self.delims() == old(self).delims(),
                from < self@.len(),
                reads(self@, from as int, among(vals@, i as int), next as int),
                (self@, from) == put_one_of(old(self)@, all_bytes(vals@.take(i as int)), next),
            decreases vals.len() - i,
        {
            let ghost g0 = self@;
            let rest: usize = from;
            let one: usize = self.lit(vals[i].as_str().as_bytes(), next);
            let ghost g1 = self@;
            from = self.add(Node::Split(one, rest));
            proof {
                let p = this_text(name_bytes(vals@[i as int]));
                let q = among(vals@, i as int);
                lemma_reads_frame(g0, g1, rest as int, q, next as int);
                lemma_reads_frame(g1, self@, rest as int, q, next as int);
                lemma_reads_frame(g1, self@, one as int, p, next as int);
                lemma_either(self@, from as int, one, rest, p, q, next as int);
                assert forall|u: Seq<Sym>| #[trigger]
                    either(p, q)(u) == among(vals@, i + 1)(u) by {
                    if p(u) {
                        assert(u == byte_syms(name_bytes(vals@[i as int])));
                    }
                }
                assert(either(p, q) =~= among(vals@, i + 1));
                let more = all_bytes(vals@.take(i + 1));
                assert(more.drop_last() =~= all_bytes(vals@.take(i as int)));
                assert(more.last() == name_bytes(vals@[i as int]));
            }
            i += 1;
        }
        proof {
            assert(vals@.take(i as int) =~= vals@);
            let seqs = Seq::new(vals@.len(), |i: int| name_bytes(vals@[i]));
            let p = among(vals@, vals@.len() as int);
            assert forall|u: Seq<Sym>| #[trigger] p(u) == is_one_of(seqs, u) by {
                if p(u) {
                    let j = choose|j: int|
                        0 <= j < vals@.len() && u == byte_syms(name_bytes(#[trigger] vals@[j]));
                    assert(u == byte_syms(seqs[j]));
                    assert(is_one_of(seqs, u));
                }
                if is_one_of(seqs, u) {
                    let j = choose|j: int| 0 <= j < seqs.len() && u == byte_syms(#[trigger] seqs[j]);
                    assert(u == byte_syms(name_bytes(vals@[j])));
                    assert(p(u));
                }
            }
            lemma_reads_part(self@, from as int, p, Part::OneOf(seqs), next as int);
        }
        from
    }

    /// `true` or `false`.
    fn boolean(&mut self, next: usize) -> (from: usize)
        requires
            backward(old(self)@),
            next < old(self)@.len(),
        ensures
            (final(self)@, from) == put_bool(old(self)@, next),
            grows(old(self)@, final(self)@),
            final(self).delims() == old(self).delims(),
            from < final(self)@.len(),
            leads(
                final(self)@,
                from as int,
                value_parts(ParamType::Bool, final(self).delims()),
                next as int,
            ),
    {
        let t: usize = self.lit("true".as_bytes(), next);
        let ghost g1 = self@;
        let f: usize = self.lit("false".as_bytes(), next);
        let ghost g2 = self@;
        let from: usize = self.add(Node::Split(t, f));
        proof {
            lemma_either_of(
                g1,
                g2,
                self@,
                from,
                t,
                f,
                encode_utf8("true"@),
                encode_utf8("false"@),
                next,
            );
        }
        from
    }

    /// A value of a parameter.
    fn value(&mut self, ty: &ParamType, next: usize) -> (from: usize)
        requires
            backward(old(self)@),
            next < old(self)@.len(),
            *ty matches ParamType::Enum(vals) ==> vals@.len() > 0,
        ensures
            (final(self)@, from) == put_value(old(self)@, *ty, old(self).delims(), next),
            grows(old(self)@, final(self)@),
            final(self).delims() == old(self).delims(),
            from < final(self)@.len(),
            leads(
                final(self)@,
                from as int,
                value_parts(*ty, final(self).delims()),
                next as int,
            ),
    {
        let quote: u32 = self.delims.quote;
        let ghost d = self.delims();
        match ty {
            ParamType::Str => {
                let close: usize = self.delim(quote, next);
                let ghost g1 = self@;
                let body: usize = self.string_body(close);
                let ghost g2 = self@;
                let from: usize = self.delim(quote, body);
                proof {
                    let q = seq![Part::Delim(quote)];
                    let b = seq![Part::Text];
                    lemma_before(g1, g2, body, b, close, q, next);
                    lemma_before(g2, self@, from, q, body, b + q, next);
                    assert(q + (b + q) =~= value_parts(*ty, d));
                }
                from
            },
            ParamType::Int => self.number_body(false, next),
            ParamType::Num => self.number_body(true, next),
            ParamType::Bool => self.boolean(next),
            ParamType::Enum(vals) => {
                let close: usize = self.delim(quote, next);
                let ghost g1 = self@;
                let body: usize = self.one_of(vals, close);
                let ghost g2 = self@;
                let from: usize = self.delim(quote, body);
                proof {
                    let q = seq![Part::Delim(quote)];
                    let b = seq![Part::OneOf(Seq::new(vals@.len(), |i: int| name_bytes(vals@[i])))];
                    lemma_before(g1, g2, body, b, close, q, next);
                    lemma_before(g2, self@, from, q, body, b + q, next);
                    assert(q + (b + q) =~= value_parts(*ty, d));
                }
                from
            },
        }
    }

    /// `key:value`.
    fn param(&mut self, p: &Param, next: usize) -> (from: usize)
        requires
            backward(old(self)@),
            next < old(self)@.len(),
            p.ty matches ParamType::Enum(vals) ==> vals@.len() > 0,
        ensures
            (final(self)@, from) == put_param(old(self)@, *p, old(self).delims(), next),
            grows(old(self)@, final(self)@),
            final(self).delims() == old(self).delims(),
            from < final(self)@.len(),
            leads(final(self)@, from as int, param_parts(*p, final(self).delims()), next as int),
    {
        let ghost d = self.delims();
        let val: usize = self.value(&p.ty, next);
        let ghost g1 = self@;
        let sp: usize = self.space(val);
        let ghost g2 = self@;
        let colon: usize = self.lit(":".as_bytes(), sp);
        let ghost g3 = self@;
        let from: usize = self.lit(p.name.as_str().as_bytes(), colon);
        proof {
            let v = value_parts(p.ty, d);
            let s = seq![Part::Space];
            let c = seq![Part::Bytes(encode_utf8(":"@))];
            let k = seq![Part::Bytes(name_bytes(p.name))];
            lemma_before(g1, g2, sp, s, val, v, next);
            lemma_before(g2, g3, colon, c, sp, s + v, next);
            lemma_before(g3, self@, from, k, colon, c + (s + v), next);
            assert(k + (c + (s + v)) =~= param_parts(*p, d));
        }
        from
    }

    /// The required parameters, in order.
    fn args(&mut self, params: &Vec<Param>, end: usize) -> (from: usize)
        requires
            backward(old(self)@),
            end < old(self)@.len(),
            forall|i: int|
                0 <= i < required(params@).len() ==> ((#[trigger] required(
                    params@,
                )[i]).ty matches ParamType::Enum(vals) ==> vals@.len() > 0),
        ensures
            (final(self)@, from) == put_args(
                old(self)@,
                required(params@),
                old(self).delims(),
                end,
            ),
            grows(old(self)@, final(self)@),
            final(self).delims() == old(self).delims(),
            from < final(self)@.len(),
            leads(
                final(self)@,
                from as int,
                args_parts(required(params@), final(self).delims()),
                end as int,
            ),
    {
        let ghost d = self.delims();
        let mut from: usize = end;
        let mut first: bool = true;
        let mut i: usize = params.len();
        proof {
            assert(params@.skip(i as int) =~= Seq::empty());
            assert(required(params@.skip(i as int)) =~= Seq::<Param>::empty()) by {
                reveal(Seq::filter);
            }
            lemma_leads_nothing(self@, end as int);
        }
        while i > 0
            invariant
                i <= params.len(),
                end < old(self)@.len(),
                forall|i: int|
                    0 <= i < required(params@).len() ==> ((#[trigger] required(
                        params@,
                    )[i]).ty matches ParamType::Enum(vals) ==> vals@.len() > 0),
                grows(old(self)@, self@),
                self.delims() == old(self).delims(),
                d == self.delims(),
                from < self@.len(),
                first == (required(params@.skip(i as int)).len() == 0),
                leads(
                    self@,
                    from as int,
                    args_parts(required(params@.skip(i as int)), d),
                    end as int,
                ),
                (self@, from) == put_args(
                    old(self)@,
                    required(params@.skip(i as int)),
                    d,
                    end,
                ),
            decreases i,
        {
            i -= 1;
            proof {
                lemma_required_step(params@, i as int);
            }
            let p = &params[i];
            if p.required {
                let ghost rest = required(params@.skip(i + 1));
                let ghost ps = args_parts(rest, d);
                proof {
                    assert(required(params@.skip(i as int)).skip(1) =~= rest);
                }
                if first {
                    let ghost g0 = self@;
                    let mid: usize = from;
                    from = self.param(p, mid);
                    proof {
                        lemma_before(g0, self@, from, param_parts(*p, d), mid, ps, end);
                        assert(param_parts(*p, d) + ps =~= args_parts(
                            required(params@.skip(i as int)),
                            d,
                        ));
                    }
                } else {
                    let ghost g0 = self@;
                    let mid: usize = from;
                    let sp: usize = self.space(mid);
                    let ghost g1 = self@;
                    let comma: usize = self.lit(",".as_bytes(), sp);
                    let ghost g2 = self@;
                    from = self.param(p, comma);
                    proof {
                        let s = seq![Part::Space];
                        let c = seq![Part::Bytes(encode_utf8(","@))];
                        let v = param_parts(*p, d);
                        lemma_before(g0, g1, sp, s, mid, ps, end);
                        lemma_before(g1, g2, comma, c, sp, s + ps, end);
                        lemma_before(g2, self@, from, v, comma, c + (s + ps), end);
                        assert(v + (c + (s + ps)) =~= args_parts(
                            required(params@.skip(i as int)),
                            d,
                        ));
                    }
                }
                first = false;
            }
        }
        proof {
            assert(params@.skip(0) =~= params@);
        }
        from
    }

    /// A call of a tool, up to the `}` that `end` starts with.
    fn tool(&mut self, t: &Tool, end: usize) -> (from: usize)
        requires
            backward(old(self)@),
            end < old(self)@.len(),
            choosable(*t),
        ensures
            (final(self)@, from) == put_tool(old(self)@, *t, old(self).delims(), end),
            grows(old(self)@, final(self)@),
            final(self).delims() == old(self).delims(),
            from < final(self)@.len(),
            leads(final(self)@, from as int, open_parts(*t, final(self).delims()), end as int),
    {
        let ghost d = self.delims();
        let open: u32 = self.delims.call_open;
        let args: usize = self.args(&t.params, end);
        let ghost g1 = self@;
        let sp: usize = self.space(args);
        let ghost g2 = self@;
        let brace: usize = self.lit("{".as_bytes(), sp);
        let ghost g3 = self@;
        let name: usize = self.lit(t.name.as_str().as_bytes(), brace);
        let ghost g4 = self@;
        let call: usize = self.lit("call:".as_bytes(), name);
        let ghost g5 = self@;
        let from: usize = self.delim(open, call);
        proof {
            let a = args_parts(required(t.params@), d);
            let s = seq![Part::Space] + a;
            let b = seq![Part::Bytes(encode_utf8("{"@))] + s;
            let n = seq![Part::Bytes(name_bytes(t.name))] + b;
            let c = seq![Part::Bytes(encode_utf8("call:"@))] + n;
            lemma_before(g1, g2, sp, seq![Part::Space], args, a, end);
            lemma_before(g2, g3, brace, seq![Part::Bytes(encode_utf8("{"@))], sp, s, end);
            lemma_before(g3, g4, name, seq![Part::Bytes(name_bytes(t.name))], brace, b, end);
            lemma_before(g4, g5, call, seq![Part::Bytes(encode_utf8("call:"@))], name, n, end);
            lemma_before(g5, self@, from, seq![Part::Delim(open)], call, c, end);
            assert(seq![Part::Delim(open)] + c =~= open_parts(*t, d));
        }
        from
    }

    /// A call of any of the tools: the node that the calls start from.
    fn grammar(&mut self, tools: &[Tool]) -> (root: usize)
        requires
            old(self)@.len() == 0,
            forall|i: int| 0 <= i < tools@.len() ==> choosable(#[trigger] tools@[i]),
        ensures
            (final(self)@, root) == nodes_of(tools@, old(self).delims()),
            backward(final(self)@),
            root < final(self)@.len(),
            final(self).delims() == old(self).delims(),
            tools@.len() > 0 ==> alive(final(self)@),
            forall|w: Seq<Sym>| #[trigger]
                accepts(final(self)@, root as int, w) <==> is_some_call(
                    tools@,
                    final(self).delims(),
                    w,
                ),
    {
        let ghost d = self.delims();
        let close: u32 = self.delims.call_close;
        assert(self@ =~= Seq::empty());
        let done: usize = self.add(Node::Accept);
        let ghost g0 = self@;
        let shut: usize = self.delim(close, done);
        let ghost g1 = self@;
        let end: usize = self.lit("}".as_bytes(), shut);
        let ghost g2 = self@;
        let ghost tail = seq![Part::Bytes(encode_utf8("}"@))] + seq![Part::Delim(close)];
        proof {
            lemma_before(g1, g2, end, seq![Part::Bytes(encode_utf8("}"@))], shut, seq![
                Part::Delim(close),
            ], done);
        }
        if tools.len() == 0 {
            let root: usize = self.add(Node::Dead);
            return root;
        }
        let mut root: usize = self.tool(&tools[0], end);
        let mut i: usize = 1;
        proof {
            lemma_tool(g2, self@, root, tools@[0], d, end, tail, done);
            let one = tools@.take(1);
            assert forall|w: Seq<Sym>| #[trigger]
                accepts(self@, root as int, w) <==> is_some_call(one, d, w) by {
                if is_call(tools@[0], d, w) {
                    assert(is_call(one[0], d, w));
                }
            }
        }
        while i < tools.len()
            invariant
                1 <= i <= tools@.len(),
                forall|i: int| 0 <= i < tools@.len() ==> choosable(#[trigger] tools@[i]),
                self.delims() == d,
                d == old(self).delims(),
                end < g2.len(),
                done < g2.len(),
                backward(g2),
                alive(g2),
                g2[done as int] == Node::Accept,
                grows(g2, self@),
                (self@, root) == put_tools(g2, tools@.take(i as int), d, end),
                tools@.len() > 0,
                nodes_of(tools@, d) == put_tools(g2, tools@, d, end),
                tail =~= seq![
                    Part::Bytes(encode_utf8("}"@)),
                    Part::Delim(d.call_close),
                ],
                leads(g2, end as int, tail, done as int),
                root < self@.len(),
                forall|w: Seq<Sym>| #[trigger]
                    accepts(self@, root as int, w) <==> is_some_call(tools@.take(i as int), d, w),
            decreases tools@.len() - i,
        {
            let ghost h0 = self@;
            let rest: usize = root;
            let one: usize = self.tool(&tools[i], end);
            let ghost h1 = self@;
            proof {
                lemma_tool(g2, h1, one, tools@[i as int], d, end, tail, done);
            }
            root = self.add(Node::Split(one, rest));
            proof {
                let before = tools@.take(i as int);
                let after = tools@.take(i + 1);
                assert(after.drop_last() =~= before);
                assert forall|w: Seq<Sym>| #[trigger]
                    accepts(self@, root as int, w) <==> is_some_call(after, d, w) by {
                    assert(accepts(self@, one as int, w) == accepts(h1, one as int, w));
                    assert(accepts(self@, rest as int, w) == accepts(h1, rest as int, w));
                    assert(accepts(h1, rest as int, w) == accepts(h0, rest as int, w));
                    if is_call(tools@[i as int], d, w) {
                        assert(is_call(after[i as int], d, w));
                    }
                    if is_some_call(before, d, w) {
                        let j = choose|j: int|
                            0 <= j < before.len() && is_call(#[trigger] before[j], d, w);
                        assert(is_call(after[j], d, w));
                    }
                    if is_some_call(after, d, w) {
                        let j = choose|j: int|
                            0 <= j < after.len() && is_call(#[trigger] after[j], d, w);
                        if j < i {
                            assert(is_call(before[j], d, w));
                        }
                    }
                }
            }
            i += 1;
        }
        proof {
            assert(tools@.take(i as int) =~= tools@);
        }
        root
    }

    /// Compiles a tool set: the automaton completes exactly the calls of its tools.
    ///
    /// Whatever has been taken so far can always be completed to a call, so a
    /// decoder that only takes what the automaton admits never runs into an
    /// empty choice.
    pub fn build(tools: &[Tool]) -> (d: Dfa)
        requires
            forall|i: int| 0 <= i < tools@.len() ==> choosable(#[trigger] tools@[i]),
        ensures
            d.wf(),
            forall|w: Seq<Sym>| #[trigger]
                d.completes(d.spec_start() as int, w) == is_some_call(tools@, Delims::gemma4(), w),
            tools@.len() > 0 ==> d.no_dead_end(),
            is_automaton_of(d, tools@),
    {
        let mut b = GrammarBuilder::new(Delims::gemma4());
        let root: usize = b.grammar(tools);
        let d = determinize(&b.nodes, root);
        proof {
            assert forall|w: Seq<Sym>| #[trigger]
                d.completes(d.spec_start() as int, w) == is_some_call(
                tools@,
                Delims::gemma4(),
                w,
            ) by {
                assert(accepts(b@, root as int, w) == is_some_call(tools@, b.delims(), w));
            }
        }
        d
    }
}

/// One of two byte strings.
proof fn lemma_either_of(
    g1: Seq<Node>,
    g2: Seq<Node>,
    g3: Seq<Node>,
    from: usize,
    one: usize,
    two: usize,
    a: Seq<u8>,
    b: Seq<u8>,
    next: usize,
)
    requires
        grows(g1, g2),
        grows(g2, g3),
        one < g1.len(),
        two < g2.len(),
        next < g1.len(),
        reads(g1, one as int, this_text(a), next as int),
        reads(g2, two as int, this_text(b), next as int),
        from < g3.len(),
        backward(g3),
        g3[from as int] == Node::Split(one, two),
    ensures
        leads(g3, from as int, seq![Part::OneOf(seq![a, b])], next as int),
{
    let vals = seq![a, b];
    let p = this_text(a);
    let q = this_text(b);
    lemma_reads_frame(g1, g2, one as int, p, next as int);
    lemma_reads_frame(g2, g3, one as int, p, next as int);
    lemma_reads_frame(g2, g3, two as int, q, next as int);
    lemma_either(g3, from as int, one, two, p, q, next as int);
    assert forall|u: Seq<Sym>| #[trigger] either(p, q)(u) == is_one_of(vals, u) by {
        if p(u) {
            assert(u == byte_syms(vals[0]));
        }
        if q(u) {
            assert(u == byte_syms(vals[1]));
        }
    }
    lemma_reads_part(g3, from as int, either(p, q), Part::OneOf(vals), next as int);
}

/// The words that spell one of the first `n` strings.
spec fn among(vals: Seq<String>, n: int) -> spec_fn(Seq<Sym>) -> bool {
    |u: Seq<Sym>|
        exists|j: int| 0 <= j < n && u == byte_syms(name_bytes(#[trigger] vals[j]))
}

/// The parts of a call before its last `}`.
spec fn open_parts(t: Tool, d: Delims) -> Seq<Part> {
    seq![
        Part::Delim(d.call_open),
        Part::Bytes(encode_utf8("call:"@)),
        Part::Bytes(name_bytes(t.name)),
        Part::Bytes(encode_utf8("{"@)),
        Part::Space,
    ] + args_parts(required(t.params@), d)
}

/// A node put before another one.
proof fn lemma_before(
    g: Seq<Node>,
    h: Seq<Node>,
    from: usize,
    p1: Seq<Part>,
    mid: usize,
    p2: Seq<Part>,
    next: usize,
)
    requires
        grows(g, h),
        mid < g.len(),
        next < g.len(),
        leads(g, mid as int, p2, next as int),
        leads(h, from as int, p1, mid as int),
    ensures
        leads(h, from as int, p1 + p2, next as int),
{
    lemma_leads_frame(g, h, mid as int, p2, next as int);
    lemma_leads_trans(h, from as int, p1, mid as int, p2, next as int);
}

proof fn lemma_leads_nothing(g: Seq<Node>, n: int)
    ensures
        leads(g, n, Seq::empty(), n),
{
    assert forall|w: Seq<Sym>| #[trigger] accepts(g, n, w) <==> exists|k: int|
        splits_at(g, Seq::empty(), n, w, k) by {
        assert(w.skip(0) =~= w);
        if accepts(g, n, w) {
            assert(splits_at(g, Seq::empty(), n, w, 0));
        }
    }
}

proof fn lemma_required_step(params: Seq<Param>, i: int)
    requires
        0 <= i < params.len(),
    ensures
        required(params.skip(i)) == if params[i].required {
            seq![params[i]] + required(params.skip(i + 1))
        } else {
            required(params.skip(i + 1))
        },
        params[i].required ==> required(params).contains(params[i]),
{
    let f = |p: Param| p.required;
    let one = seq![params[i]];
    assert(params.skip(i) =~= one + params.skip(i + 1));
    Seq::filter_distributes_over_add(one, params.skip(i + 1), f);
    assert(one.filter(f) =~= if params[i].required { one } else { Seq::empty() }) by {
        reveal_with_fuel(Seq::filter, 2);
        assert(one.drop_last() =~= Seq::<Param>::empty());
    }
    if params[i].required {
        assert(params =~= params.take(i) + params.skip(i));
        Seq::filter_distributes_over_add(params.take(i), params.skip(i), f);
        let at = required(params.take(i)).len() as int;
        assert(required(params)[at] == params[i]);
    }
}

/// A call of a tool that ends at the accepting node.
proof fn lemma_tool(
    g: Seq<Node>,
    h: Seq<Node>,
    from: usize,
    t: Tool,
    d: Delims,
    end: usize,
    tail: Seq<Part>,
    done: usize,
)
    requires
        grows(g, h),
        end < g.len(),
        done < g.len(),
        g[done as int] == Node::Accept,
        leads(g, end as int, tail, done as int),
        leads(h, from as int, open_parts(t, d), end as int),
        tail =~= seq![Part::Bytes(encode_utf8("}"@)), Part::Delim(d.call_close)],
    ensures
        forall|w: Seq<Sym>| #[trigger] accepts(h, from as int, w) <==> is_call(t, d, w),
{
    lemma_before(g, h, from, open_parts(t, d), end, tail, done);
    let parts = call_parts(t, d);
    assert(open_parts(t, d) + tail =~= parts);
    assert(h[done as int] == Node::Accept);
    assert forall|w: Seq<Sym>| #[trigger] accepts(h, from as int, w) <==> is_call(t, d, w) by {
        assert(w.take(w.len() as int) =~= w);
        if accepts(h, from as int, w) {
            let k = choose|k: int| splits_at(h, parts, done as int, w, k);
            assert(w.skip(k).len() == 0);
            assert(w.take(k) =~= w);
        }
        if is_call(t, d, w) {
            assert(w.skip(w.len() as int).len() == 0);
            assert(splits_at(h, parts, done as int, w, w.len() as int));
        }
    }
}

} // verus!
