//! A nondeterministic automaton over the symbols of a tool call.
//!
//! Nodes are only ever appended and refer to earlier nodes alone, so a grammar
//! is built from its end to its beginning and what a node accepts never changes.
use vstd::prelude::*;
use crate::grammar::lang::{
    byte_syms, is_decimal_at, is_digit, is_digits, is_text, is_unsigned_num, matches_parts,
    maybe_signed, Part, Sym,
};

verus! {

/// A class of symbols that an edge takes.
#[derive(Clone, Copy, Debug, PartialEq, Eq, Structural)]
pub enum SymClass {
    /// this byte
    Byte(u8),
    /// a byte of a string body: anything but control bytes
    StrBody,
    /// an ASCII digit
    Digit,
    /// this delimiter token
    Tok(u32),
}

impl SymClass {
    pub open spec fn spec_accepts(self, a: Sym) -> bool {
        match self {
            SymClass::Byte(b) => a == Sym::Byte(b),
            SymClass::StrBody => is_text(a),
            SymClass::Digit => is_digit(a),
            SymClass::Tok(t) => a == Sym::Tok(t),
        }
    }

    #[verifier::when_used_as_spec(spec_accepts)]
    pub fn accepts(self, a: Sym) -> (r: bool)
        ensures
            r == self.spec_accepts(a),
    {
        match (self, a) {
            (SymClass::Byte(b), Sym::Byte(c)) => b == c,
            (SymClass::StrBody, Sym::Byte(c)) => c >= 0x20,
            (SymClass::Digit, Sym::Byte(c)) => 0x30 <= c && c <= 0x39,
            (SymClass::Tok(t), Sym::Tok(u)) => t == u,
            _ => false,
        }
    }
}

/// A node of the automaton.
#[derive(Clone, Copy, Debug, PartialEq, Eq, Structural)]
pub enum Node {
    /// accepts the empty word
    Accept,
    /// accepts nothing
    Dead,
    /// takes one symbol of the class and goes on
    Step(SymClass, usize),
    /// goes on at either node
    Split(usize, usize),
    /// takes any number of symbols of the class and goes on
    Star(SymClass, usize),
}

/// Whether node `n` of `g` accepts `w`.
pub open spec fn accepts(g: Seq<Node>, n: int, w: Seq<Sym>) -> bool
    decreases w.len(), n,
{
    0 <= n < g.len() && match g[n] {
        Node::Accept => w.len() == 0,
        Node::Dead => false,
        Node::Step(c, t) => w.len() > 0 && c.accepts(w[0]) && accepts(g, t as int, w.skip(1)),
        Node::Split(a, b) => a < n && b < n && (accepts(g, a as int, w) || accepts(
            g,
            b as int,
            w,
        )),
        Node::Star(c, t) => t < n && (accepts(g, t as int, w) || (w.len() > 0 && c.accepts(w[0])
            && accepts(g, n, w.skip(1)))),
    }
}

/// Whether every node refers to earlier nodes alone.
pub open spec fn backward(g: Seq<Node>) -> bool {
    forall|n: int|
        0 <= n < g.len() ==> match #[trigger] g[n] {
            Node::Accept | Node::Dead => true,
            Node::Step(_, t) => t < n,
            Node::Split(a, b) => a < n && b < n,
            Node::Star(_, t) => t < n,
        }
}

/// Whether every node accepts some word.
pub open spec fn alive(g: Seq<Node>) -> bool {
    forall|n: int| 0 <= n < g.len() ==> #[trigger] live(g, n)
}

/// Whether a node accepts some word.
pub open spec fn live(g: Seq<Node>, n: int) -> bool {
    exists|w: Seq<Sym>| accepts(g, n, w)
}

/// Whether `w` splits into an instance of the parts and a word that `next` accepts.
pub open spec fn splits_at(g: Seq<Node>, parts: Seq<Part>, next: int, w: Seq<Sym>, k: int) -> bool {
    0 <= k <= w.len() && matches_parts(parts, w.take(k)) && accepts(g, next, w.skip(k))
}

/// Whether node `from` accepts exactly the parts followed by what `next` accepts.
pub open spec fn leads(g: Seq<Node>, from: int, parts: Seq<Part>, next: int) -> bool {
    forall|w: Seq<Sym>| #[trigger]
        accepts(g, from, w) <==> exists|k: int| splits_at(g, parts, next, w, k)
}

/// Appending nodes does not change what a node accepts.
pub proof fn lemma_accepts_frame(g: Seq<Node>, h: Seq<Node>, n: int, w: Seq<Sym>)
    requires
        backward(g),
        g.len() <= h.len(),
        h.take(g.len() as int) == g,
        0 <= n < g.len(),
    ensures
        accepts(g, n, w) == accepts(h, n, w),
    decreases w.len(), n,
{
    assert(h[n] == h.take(g.len() as int)[n]);
    match g[n] {
        Node::Accept => {},
        Node::Dead => {},
        Node::Step(c, t) => {
            if w.len() > 0 {
                lemma_accepts_frame(g, h, t as int, w.skip(1));
            }
        },
        Node::Split(a, b) => {
            lemma_accepts_frame(g, h, a as int, w);
            lemma_accepts_frame(g, h, b as int, w);
        },
        Node::Star(c, t) => {
            lemma_accepts_frame(g, h, t as int, w);
            if w.len() > 0 {
                lemma_accepts_frame(g, h, n, w.skip(1));
            }
        },
    }
}

/// Appending a node keeps the order of references, what the older nodes accept,
/// and the life of them all.
pub proof fn lemma_push(g: Seq<Node>, node: Node)
    requires
        backward(g),
        backward(g.push(node)),
    ensures
        forall|n: int, w: Seq<Sym>|
            0 <= n < g.len() ==> #[trigger] accepts(g.push(node), n, w) == accepts(g, n, w),
        alive(g) && node !is Dead ==> alive(g.push(node)),
{
    let h = g.push(node);
    assert(h.take(g.len() as int) =~= g);
    assert forall|n: int, w: Seq<Sym>| 0 <= n < g.len() implies #[trigger] accepts(h, n, w)
        == accepts(g, n, w) by {
        lemma_accepts_frame(g, h, n, w);
    }
    if alive(g) && node !is Dead {
        assert forall|n: int| 0 <= n < h.len() implies #[trigger] live(h, n) by {
            if n < g.len() {
                assert(live(g, n));
                let w = choose|w: Seq<Sym>| accepts(g, n, w);
                assert(accepts(h, n, w));
            } else {
                assert(h[n] == node);
                match node {
                    Node::Accept => {
                        assert(accepts(h, n, Seq::empty()));
                    },
                    Node::Dead => {},
                    Node::Step(c, t) => {
                        assert(live(g, t as int));
                        let w = choose|w: Seq<Sym>| accepts(g, t as int, w);
                        let a = sample(c);
                        let aw = seq![a] + w;
                        assert(aw.skip(1) =~= w);
                        assert(accepts(h, t as int, w));
                        assert(accepts(h, n, aw));
                    },
                    Node::Split(a, _) => {
                        assert(live(g, a as int));
                        let w = choose|w: Seq<Sym>| accepts(g, a as int, w);
                        assert(accepts(h, a as int, w));
                        assert(accepts(h, n, w));
                    },
                    Node::Star(_, t) => {
                        assert(live(g, t as int));
                        let w = choose|w: Seq<Sym>| accepts(g, t as int, w);
                        assert(accepts(h, t as int, w));
                        assert(accepts(h, n, w));
                    },
                }
            }
        }
    }
}

/// Some symbol of a class.
spec fn sample(c: SymClass) -> Sym {
    match c {
        SymClass::Byte(b) => Sym::Byte(b),
        SymClass::StrBody => Sym::Byte(0x20),
        SymClass::Digit => Sym::Byte(0x30),
        SymClass::Tok(t) => Sym::Tok(t),
    }
}

/// `leads` survives appending nodes.
pub proof fn lemma_leads_frame(g: Seq<Node>, h: Seq<Node>, from: int, parts: Seq<Part>, next: int)
    requires
        leads(g, from, parts, next),
        0 <= from < g.len(),
        0 <= next < g.len(),
        forall|n: int, w: Seq<Sym>|
            0 <= n < g.len() ==> #[trigger] accepts(h, n, w) == accepts(g, n, w),
    ensures
        leads(h, from, parts, next),
{
    assert forall|w: Seq<Sym>| #[trigger] accepts(h, from, w) <==> exists|k: int|
        splits_at(h, parts, next, w, k) by {
        assert(accepts(h, from, w) == accepts(g, from, w));
        if accepts(g, from, w) {
            let k = choose|k: int| splits_at(g, parts, next, w, k);
            assert(accepts(h, next, w.skip(k)));
            assert(splits_at(h, parts, next, w, k));
        }
        if exists|k: int| splits_at(h, parts, next, w, k) {
            let k = choose|k: int| splits_at(h, parts, next, w, k);
            assert(accepts(h, next, w.skip(k)));
            assert(splits_at(g, parts, next, w, k));
        }
    }
}

/// One part alone.
pub proof fn lemma_single(p: Part, u: Seq<Sym>)
    ensures
        matches_parts(seq![p], u) == p.matches(u),
{
    reveal_with_fuel(matches_parts, 2);
    let ps = seq![p];
    assert(ps.skip(1).len() == 0);
    assert(u.take(u.len() as int) =~= u);
    if p.matches(u) {
        assert(ps[0].matches(u.take(u.len() as int)));
        assert(matches_parts(ps.skip(1), u.skip(u.len() as int)));
    }
    if matches_parts(ps, u) {
        let k = choose|k: int|
            0 <= k <= u.len() && #[trigger] ps[0].matches(u.take(k)) && matches_parts(
                ps.skip(1),
                u.skip(k),
            );
        assert(u.skip(k).len() == 0);
        assert(u.take(k) =~= u);
    }
}

/// Instances of two lists of parts, one after the other, make one of the joined list.
pub proof fn lemma_join(p1: Seq<Part>, p2: Seq<Part>, u: Seq<Sym>, k: int)
    requires
        0 <= k <= u.len(),
        matches_parts(p1, u.take(k)),
        matches_parts(p2, u.skip(k)),
    ensures
        matches_parts(p1 + p2, u),
    decreases p1.len(),
{
    if p1.len() == 0 {
        assert(p1 + p2 =~= p2);
        assert(u.skip(k) =~= u);
    } else {
        let v = u.take(k);
        let j = choose|j: int|
            0 <= j <= v.len() && #[trigger] p1[0].matches(v.take(j)) && matches_parts(
                p1.skip(1),
                v.skip(j),
            );
        let rest = u.skip(j);
        assert(rest.take(k - j) =~= v.skip(j));
        assert(rest.skip(k - j) =~= u.skip(k));
        lemma_join(p1.skip(1), p2, rest, k - j);
        assert((p1 + p2).skip(1) =~= p1.skip(1) + p2);
        assert((p1 + p2)[0] == p1[0]);
        assert(u.take(j) =~= v.take(j));
        assert((p1 + p2)[0].matches(u.take(j)));
    }
}

/// An instance of a joined list of parts is one of each list, one after the other.
pub proof fn lemma_unjoin(p1: Seq<Part>, p2: Seq<Part>, u: Seq<Sym>) -> (k: int)
    requires
        matches_parts(p1 + p2, u),
    ensures
        0 <= k <= u.len(),
        matches_parts(p1, u.take(k)),
        matches_parts(p2, u.skip(k)),
    decreases p1.len(),
{
    if p1.len() == 0 {
        assert(p1 + p2 =~= p2);
        assert(u.skip(0) =~= u);
        assert(u.take(0).len() == 0);
        0
    } else {
        let ps = p1 + p2;
        let j = choose|j: int|
            0 <= j <= u.len() && #[trigger] ps[0].matches(u.take(j)) && matches_parts(
                ps.skip(1),
                u.skip(j),
            );
        assert(ps.skip(1) =~= p1.skip(1) + p2);
        let i = lemma_unjoin(p1.skip(1), p2, u.skip(j));
        let k = i + j;
        let v = u.take(k);
        assert(v.take(j) =~= u.take(j));
        assert(p1[0].matches(v.take(j)));
        assert(v.skip(j) =~= u.skip(j).take(i));
        assert(u.skip(k) =~= u.skip(j).skip(i));
        k
    }
}

/// `leads` through a middle node.
pub proof fn lemma_leads_trans(
    g: Seq<Node>,
    from: int,
    p1: Seq<Part>,
    mid: int,
    p2: Seq<Part>,
    next: int,
)
    requires
        leads(g, from, p1, mid),
        leads(g, mid, p2, next),
    ensures
        leads(g, from, p1 + p2, next),
{
    assert forall|w: Seq<Sym>| #[trigger] accepts(g, from, w) <==> exists|k: int|
        splits_at(g, p1 + p2, next, w, k) by {
        if accepts(g, from, w) {
            let i = choose|i: int| splits_at(g, p1, mid, w, i);
            let j = choose|j: int| splits_at(g, p2, next, w.skip(i), j);
            assert(accepts(g, mid, w.skip(i)));
            let k = i + j;
            assert(w.take(k).take(i) =~= w.take(i));
            assert(w.take(k).skip(i) =~= w.skip(i).take(j));
            assert(w.skip(i).skip(j) =~= w.skip(k));
            lemma_join(p1, p2, w.take(k), i);
            assert(splits_at(g, p1 + p2, next, w, k));
        }
        if exists|k: int| splits_at(g, p1 + p2, next, w, k) {
            let k = choose|k: int| splits_at(g, p1 + p2, next, w, k);
            let i = lemma_unjoin(p1, p2, w.take(k));
            assert(w.take(k).take(i) =~= w.take(i));
            assert(w.take(k).skip(i) =~= w.skip(i).take(k - i));
            assert(w.skip(i).skip(k - i) =~= w.skip(k));
            assert(splits_at(g, p2, next, w.skip(i), k - i));
            assert(accepts(g, mid, w.skip(i)));
            assert(splits_at(g, p1, mid, w, i));
        }
    }
}

/// Whether `w` splits into a word that `p` takes and one that `next` accepts.
pub open spec fn cuts_at(
    g: Seq<Node>,
    p: spec_fn(Seq<Sym>) -> bool,
    next: int,
    w: Seq<Sym>,
    k: int,
) -> bool {
    0 <= k <= w.len() && p(w.take(k)) && accepts(g, next, w.skip(k))
}

/// Whether node `from` accepts exactly what `p` takes followed by what `next` accepts.
pub open spec fn reads(
    g: Seq<Node>,
    from: int,
    p: spec_fn(Seq<Sym>) -> bool,
    next: int,
) -> bool {
    forall|w: Seq<Sym>| #[trigger]
        accepts(g, from, w) <==> exists|k: int| cuts_at(g, p, next, w, k)
}

/// The words of one symbol of a class.
pub open spec fn one_of_class(c: SymClass) -> spec_fn(Seq<Sym>) -> bool {
    |u: Seq<Sym>| u.len() == 1 && c.accepts(u[0])
}

/// The words whose symbols are all of a class.
pub open spec fn run_of_class(c: SymClass) -> spec_fn(Seq<Sym>) -> bool {
    |u: Seq<Sym>| all_in(c, u)
}

/// The words of at least one digit and nothing else.
pub open spec fn digit_runs() -> spec_fn(Seq<Sym>) -> bool {
    |u: Seq<Sym>| is_digits(u)
}

/// The numbers without a sign.
pub open spec fn unsigned_nums() -> spec_fn(Seq<Sym>) -> bool {
    |u: Seq<Sym>| is_unsigned_num(u)
}

/// The words of `p`, with a minus sign or without.
pub open spec fn signed(p: spec_fn(Seq<Sym>) -> bool) -> spec_fn(Seq<Sym>) -> bool {
    |u: Seq<Sym>| maybe_signed(p, u)
}

/// The words of `p` and of `q`.
pub open spec fn either(
    p: spec_fn(Seq<Sym>) -> bool,
    q: spec_fn(Seq<Sym>) -> bool,
) -> spec_fn(Seq<Sym>) -> bool {
    |u: Seq<Sym>| p(u) || q(u)
}

/// The empty word.
pub open spec fn nothing() -> spec_fn(Seq<Sym>) -> bool {
    |u: Seq<Sym>| u.len() == 0
}

/// The word that spells a byte string.
pub open spec fn this_text(s: Seq<u8>) -> spec_fn(Seq<Sym>) -> bool {
    |u: Seq<Sym>| u == byte_syms(s)
}

/// Reading the words of a part is leading through that part.
pub proof fn lemma_reads_part(
    g: Seq<Node>,
    from: int,
    p: spec_fn(Seq<Sym>) -> bool,
    part: Part,
    next: int,
)
    requires
        reads(g, from, p, next),
        forall|u: Seq<Sym>| #[trigger] p(u) == part.matches(u),
    ensures
        leads(g, from, seq![part], next),
{
    assert forall|w: Seq<Sym>| #[trigger] accepts(g, from, w) <==> exists|k: int|
        splits_at(g, seq![part], next, w, k) by {
        if accepts(g, from, w) {
            let k = choose|k: int| cuts_at(g, p, next, w, k);
            lemma_single(part, w.take(k));
            assert(p(w.take(k)));
            assert(splits_at(g, seq![part], next, w, k));
        }
        if exists|k: int| splits_at(g, seq![part], next, w, k) {
            let k = choose|k: int| splits_at(g, seq![part], next, w, k);
            lemma_single(part, w.take(k));
            assert(p(w.take(k)));
            assert(cuts_at(g, p, next, w, k));
        }
    }
}

/// `reads` survives appending nodes.
pub proof fn lemma_reads_frame(
    g: Seq<Node>,
    h: Seq<Node>,
    from: int,
    p: spec_fn(Seq<Sym>) -> bool,
    next: int,
)
    requires
        reads(g, from, p, next),
        0 <= from < g.len(),
        0 <= next < g.len(),
        forall|n: int, w: Seq<Sym>|
            0 <= n < g.len() ==> #[trigger] accepts(h, n, w) == accepts(g, n, w),
    ensures
        reads(h, from, p, next),
{
    assert forall|w: Seq<Sym>| #[trigger] accepts(h, from, w) <==> exists|k: int|
        cuts_at(h, p, next, w, k) by {
        assert(accepts(h, from, w) == accepts(g, from, w));
        if accepts(g, from, w) {
            let k = choose|k: int| cuts_at(g, p, next, w, k);
            assert(accepts(h, next, w.skip(k)));
            assert(cuts_at(h, p, next, w, k));
        }
        if exists|k: int| cuts_at(h, p, next, w, k) {
            let k = choose|k: int| cuts_at(h, p, next, w, k);
            assert(accepts(h, next, w.skip(k)));
            assert(cuts_at(g, p, next, w, k));
        }
    }
}

/// A step on one symbol.
pub proof fn lemma_step(g: Seq<Node>, n: int, c: SymClass, t: usize)
    requires
        0 <= n < g.len(),
        g[n] == Node::Step(c, t),
    ensures
        reads(g, n, one_of_class(c), t as int),
{
    let p = one_of_class(c);
    assert forall|w: Seq<Sym>| #[trigger] accepts(g, n, w) <==> exists|k: int|
        cuts_at(g, p, t as int, w, k) by {
        if accepts(g, n, w) {
            assert(w.take(1)[0] == w[0]);
            assert(cuts_at(g, p, t as int, w, 1));
        }
        if exists|k: int| cuts_at(g, p, t as int, w, k) {
            let k = choose|k: int| cuts_at(g, p, t as int, w, k);
            assert(w.take(k).len() == k);
            assert(k == 1);
            assert(w.take(1)[0] == w[0]);
        }
    }
}

/// Whether every symbol is of the class.
pub open spec fn all_in(c: SymClass, u: Seq<Sym>) -> bool {
    forall|i: int| 0 <= i < u.len() ==> c.accepts(#[trigger] u[i])
}

proof fn lemma_star_at(g: Seq<Node>, n: int, c: SymClass, t: usize, w: Seq<Sym>)
    requires
        0 <= n < g.len(),
        g[n] == Node::Star(c, t),
        t < n,
    ensures
        accepts(g, n, w) <==> exists|k: int|
            cuts_at(g, run_of_class(c), t as int, w, k),
    decreases w.len(),
{
    let p = run_of_class(c);
    if accepts(g, t as int, w) {
        assert(w.skip(0) =~= w);
        assert(cuts_at(g, p, t as int, w, 0));
    }
    if w.len() > 0 {
        let v = w.skip(1);
        lemma_star_at(g, n, c, t, v);
        if c.accepts(w[0]) && accepts(g, n, v) {
            let k = choose|k: int| cuts_at(g, p, t as int, v, k);
            let u = w.take(k + 1);
            assert forall|i: int| 0 <= i < u.len() implies c.accepts(#[trigger] u[i]) by {
                if i > 0 {
                    assert(v.take(k)[i - 1] == u[i]);
                }
            }
            assert(w.skip(k + 1) =~= v.skip(k));
            assert(cuts_at(g, p, t as int, w, k + 1));
        }
    }
    if exists|k: int| cuts_at(g, p, t as int, w, k) {
        let k = choose|k: int| cuts_at(g, p, t as int, w, k);
        if k == 0 {
            assert(w.skip(0) =~= w);
        } else {
            let v = w.skip(1);
            assert(w.take(k)[0] == w[0]);
            assert forall|i: int| 0 <= i < v.take(k - 1).len() implies c.accepts(
                #[trigger] v.take(k - 1)[i],
            ) by {
                assert(w.take(k)[i + 1] == v.take(k - 1)[i]);
            }
            assert(v.skip(k - 1) =~= w.skip(k));
            assert(cuts_at(g, p, t as int, v, k - 1));
        }
    }
}

/// A loop on a class of symbols.
pub proof fn lemma_star(g: Seq<Node>, n: int, c: SymClass, t: usize)
    requires
        0 <= n < g.len(),
        g[n] == Node::Star(c, t),
        t < n,
    ensures
        reads(g, n, run_of_class(c), t as int),
{
    assert forall|w: Seq<Sym>| #[trigger] accepts(g, n, w) <==> exists|k: int|
        cuts_at(g, run_of_class(c), t as int, w, k) by {
        lemma_star_at(g, n, c, t, w);
    }
}

/// One digit and then a loop on digits is a run of digits.
pub proof fn lemma_digits(g: Seq<Node>, n: int, s: usize, t: usize)
    requires
        0 <= n < g.len(),
        g[n] == Node::Step(SymClass::Digit, s),
        s < g.len(),
        g[s as int] == Node::Star(SymClass::Digit, t),
        t < s,
    ensures
        reads(g, n, digit_runs(), t as int),
{
    let c = SymClass::Digit;
    let p = digit_runs();
    let q = run_of_class(c);
    lemma_star(g, s as int, c, t);
    assert forall|w: Seq<Sym>| #[trigger] accepts(g, n, w) <==> exists|k: int|
        cuts_at(g, p, t as int, w, k) by {
        let v = w.skip(1);
        if accepts(g, n, w) {
            assert(accepts(g, s as int, v));
            let k = choose|k: int| cuts_at(g, q, t as int, v, k);
            let u = w.take(k + 1);
            assert forall|i: int| 0 <= i < u.len() implies is_digit(#[trigger] u[i]) by {
                if i > 0 {
                    assert(v.take(k)[i - 1] == u[i]);
                    assert(c.accepts(v.take(k)[i - 1]));
                }
            }
            assert(w.skip(k + 1) =~= v.skip(k));
            assert(cuts_at(g, p, t as int, w, k + 1));
        }
        if exists|k: int| cuts_at(g, p, t as int, w, k) {
            let k = choose|k: int| cuts_at(g, p, t as int, w, k);
            let u = w.take(k);
            assert(is_digits(u));
            assert(u[0] == w[0]);
            assert forall|i: int| 0 <= i < v.take(k - 1).len() implies c.accepts(
                #[trigger] v.take(k - 1)[i],
            ) by {
                assert(u[i + 1] == v.take(k - 1)[i]);
            }
            assert(v.skip(k - 1) =~= w.skip(k));
            assert(cuts_at(g, q, t as int, v, k - 1));
            assert(accepts(g, s as int, v));
        }
    }
}

/// A minus sign that may be left out.
pub proof fn lemma_signed(
    g: Seq<Node>,
    n: int,
    m: usize,
    d: usize,
    p: spec_fn(Seq<Sym>) -> bool,
    t: int,
)
    requires
        0 <= n < g.len(),
        g[n] == Node::Split(m, d),
        m < n,
        d < n,
        g[m as int] == Node::Step(SymClass::Byte(0x2d), d),
        reads(g, d as int, p, t),
    ensures
        reads(g, n, signed(p), t),
{
    let q = signed(p);
    assert forall|w: Seq<Sym>| #[trigger] accepts(g, n, w) <==> exists|k: int|
        cuts_at(g, q, t, w, k) by {
        let v = w.skip(1);
        if accepts(g, d as int, w) {
            let k = choose|k: int| cuts_at(g, p, t, w, k);
            assert(cuts_at(g, q, t, w, k));
        }
        if accepts(g, m as int, w) {
            assert(accepts(g, d as int, v));
            let k = choose|k: int| cuts_at(g, p, t, v, k);
            let u = w.take(k + 1);
            assert(u.skip(1) =~= v.take(k));
            assert(u[0] == w[0]);
            assert(w.skip(k + 1) =~= v.skip(k));
            assert(cuts_at(g, q, t, w, k + 1));
        }
        if exists|k: int| cuts_at(g, q, t, w, k) {
            let k = choose|k: int| cuts_at(g, q, t, w, k);
            let u = w.take(k);
            if p(u) {
                assert(cuts_at(g, p, t, w, k));
                assert(accepts(g, d as int, w));
            } else {
                assert(u[0] == w[0]);
                assert(u.skip(1) =~= v.take(k - 1));
                assert(v.skip(k - 1) =~= w.skip(k));
                assert(cuts_at(g, p, t, v, k - 1));
                assert(accepts(g, d as int, v));
                assert(accepts(g, m as int, w));
            }
        }
    }
}

/// Digits, and then either the end or `.` and more digits.
pub proof fn lemma_unsigned_num(g: Seq<Node>, d: int, e: usize, dot: usize, f: usize, t: usize)
    requires
        0 <= d < g.len(),
        e < g.len(),
        dot < g.len(),
        f < g.len(),
        t < e,
        dot < e,
        reads(g, d, digit_runs(), e as int),
        g[e as int] == Node::Split(t, dot),
        g[dot as int] == Node::Step(SymClass::Byte(0x2e), f),
        reads(g, f as int, digit_runs(), t as int),
    ensures
        reads(g, d, unsigned_nums(), t as int),
{
    let p = digit_runs();
    let q = unsigned_nums();
    assert forall|w: Seq<Sym>| #[trigger] accepts(g, d, w) <==> exists|k: int|
        cuts_at(g, q, t as int, w, k) by {
        if accepts(g, d, w) {
            let i = choose|i: int| cuts_at(g, p, e as int, w, i);
            let v = w.skip(i);
            assert(accepts(g, e as int, v));
            if accepts(g, t as int, v) {
                assert(cuts_at(g, q, t as int, w, i));
            } else {
                assert(accepts(g, dot as int, v));
                assert(accepts(g, f as int, v.skip(1)));
                let j = choose|j: int| cuts_at(g, p, t as int, v.skip(1), j);
                let k = i + 1 + j;
                let u = w.take(k);
                assert(u.take(i) =~= w.take(i));
                assert(u[i] == v[0]);
                assert(u.skip(i + 1) =~= v.skip(1).take(j));
                assert(is_decimal_at(u, i));
                assert(w.skip(k) =~= v.skip(1).skip(j));
                assert(cuts_at(g, q, t as int, w, k));
            }
        }
        if exists|k: int| cuts_at(g, q, t as int, w, k) {
            let k = choose|k: int| cuts_at(g, q, t as int, w, k);
            let u = w.take(k);
            if is_digits(u) {
                assert(accepts(g, e as int, w.skip(k)));
                assert(cuts_at(g, p, e as int, w, k));
            } else {
                let i = choose|i: int| is_decimal_at(u, i);
                let v = w.skip(i);
                assert(u.take(i) =~= w.take(i));
                assert(u[i] == v[0]);
                let j = k - i - 1;
                assert(u.skip(i + 1) =~= v.skip(1).take(j));
                assert(w.skip(k) =~= v.skip(1).skip(j));
                assert(cuts_at(g, p, t as int, v.skip(1), j));
                assert(accepts(g, f as int, v.skip(1)));
                assert(accepts(g, dot as int, v));
                assert(accepts(g, e as int, v));
                assert(cuts_at(g, p, e as int, w, i));
            }
        }
    }
}

/// Either of two nodes that go on at the same place.
pub proof fn lemma_either(
    g: Seq<Node>,
    n: int,
    a: usize,
    b: usize,
    p: spec_fn(Seq<Sym>) -> bool,
    q: spec_fn(Seq<Sym>) -> bool,
    t: int,
)
    requires
        0 <= n < g.len(),
        g[n] == Node::Split(a, b),
        a < n,
        b < n,
        reads(g, a as int, p, t),
        reads(g, b as int, q, t),
    ensures
        reads(g, n, either(p, q), t),
{
    let r = either(p, q);
    assert forall|w: Seq<Sym>| #[trigger] accepts(g, n, w) <==> exists|k: int|
        cuts_at(g, r, t, w, k) by {
        if accepts(g, a as int, w) {
            let k = choose|k: int| cuts_at(g, p, t, w, k);
            assert(cuts_at(g, r, t, w, k));
        }
        if accepts(g, b as int, w) {
            let k = choose|k: int| cuts_at(g, q, t, w, k);
            assert(cuts_at(g, r, t, w, k));
        }
        if exists|k: int| cuts_at(g, r, t, w, k) {
            let k = choose|k: int| cuts_at(g, r, t, w, k);
            if p(w.take(k)) {
                assert(cuts_at(g, p, t, w, k));
                assert(accepts(g, a as int, w));
            } else {
                assert(cuts_at(g, q, t, w, k));
                assert(accepts(g, b as int, w));
            }
        }
    }
}

/// The empty word leads nowhere else.
pub proof fn lemma_reads_nothing(g: Seq<Node>, t: int)
    ensures
        reads(g, t, nothing(), t),
{
    let p = nothing();
    assert forall|w: Seq<Sym>| #[trigger] accepts(g, t, w) <==> exists|k: int|
        cuts_at(g, p, t, w, k) by {
        assert(w.skip(0) =~= w);
        if accepts(g, t, w) {
            assert(cuts_at(g, p, t, w, 0));
        }
    }
}

/// One more byte before a byte string.
pub proof fn lemma_lit_step(g: Seq<Node>, n: int, b: u8, m: usize, s: Seq<u8>, t: int)
    requires
        0 <= n < g.len(),
        g[n] == Node::Step(SymClass::Byte(b), m),
        reads(g, m as int, this_text(s), t),
    ensures
        reads(g, n, this_text(seq![b] + s), t),
{
    let p = this_text(s);
    let q = this_text(seq![b] + s);
    let l = s.len() as int;
    assert forall|w: Seq<Sym>| #[trigger] accepts(g, n, w) <==> exists|k: int|
        cuts_at(g, q, t, w, k) by {
        let v = w.skip(1);
        if accepts(g, n, w) {
            assert(accepts(g, m as int, v));
            let k = choose|k: int| cuts_at(g, p, t, v, k);
            assert(v.take(k) == byte_syms(s));
            assert(w.take(k + 1) =~= byte_syms(seq![b] + s)) by {
                assert forall|i: int| 0 <= i < k + 1 implies w.take(k + 1)[i] == byte_syms(
                    seq![b] + s,
                )[i] by {
                    if i > 0 {
                        assert(v.take(k)[i - 1] == byte_syms(s)[i - 1]);
                    }
                }
            }
            assert(w.skip(k + 1) =~= v.skip(k));
            assert(cuts_at(g, q, t, w, k + 1));
        }
        if exists|k: int| cuts_at(g, q, t, w, k) {
            let k = choose|k: int| cuts_at(g, q, t, w, k);
            assert(w.take(k).len() == l + 1);
            assert(w.take(k)[0] == w[0]);
            assert(v.take(k - 1) =~= byte_syms(s)) by {
                assert forall|i: int| 0 <= i < l implies v.take(k - 1)[i] == byte_syms(s)[i] by {
                    assert(w.take(k)[i + 1] == byte_syms(seq![b] + s)[i + 1]);
                }
            }
            assert(v.skip(k - 1) =~= w.skip(k));
            assert(cuts_at(g, p, t, v, k - 1));
            assert(accepts(g, m as int, v));
        }
    }
}

} // verus!
