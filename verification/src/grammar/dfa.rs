//! A deterministic automaton over the symbols of a tool call.
use vstd::arithmetic::power2::{lemma_pow2_strictly_increases, lemma_pow2_unfold, pow2};
use vstd::prelude::*;
use vstd::set_lib::{lemma_int_range, lemma_len_subset, set_int_range};
use crate::grammar::lang::Sym;
use crate::grammar::nfa::{accepts, alive, backward, live, Node, SymClass};

verus! {

/// Marks an edge that is not there.
const NONE: usize = usize::MAX;

/// A state: its edges and whether a call may end here.
pub struct State {
    /// target per byte, or `NONE`
    bytes: Vec<usize>,
    /// target per delimiter token
    toks: Vec<(u32, usize)>,
    accept: bool,
}

/// The target of the first edge for a token.
spec fn tok_edge(toks: Seq<(u32, usize)>, t: u32) -> Option<usize>
    decreases toks.len(),
{
    if toks.len() == 0 {
        None
    } else if toks[0].0 == t {
        Some(toks[0].1)
    } else {
        tok_edge(toks.skip(1), t)
    }
}

/// The target of the edge for a byte.
spec fn byte_edge(bytes: Seq<usize>, b: u8) -> Option<usize> {
    if bytes[b as int] == NONE {
        None
    } else {
        Some(bytes[b as int])
    }
}

impl State {
    spec fn edge(self, a: Sym) -> Option<usize> {
        match a {
            Sym::Byte(b) => byte_edge(self.bytes@, b),
            Sym::Tok(t) => tok_edge(self.toks@, t),
        }
    }

    spec fn wf(self, len: nat) -> bool {
        &&& self.bytes@.len() == 256
        &&& forall|a: Sym| (#[trigger] self.edge(a)) matches Some(t) ==> t < len
    }
}

/// A compiled automaton over the tool-call grammar.
pub struct Dfa {
    states: Vec<State>,
    start: usize,
}

impl Dfa {
    /// The number of states.
    pub closed spec fn spec_num_states(&self) -> nat {
        self.states@.len()
    }

    /// The state in which a call begins.
    pub closed spec fn spec_start(&self) -> usize {
        self.start
    }

    /// The state after one symbol, if the symbol may stand there.
    pub closed spec fn edge(&self, s: int, a: Sym) -> Option<usize> {
        self.states@[s].edge(a)
    }

    /// Whether a call may end in a state.
    pub closed spec fn spec_accepting(&self, s: int) -> bool {
        self.states@[s].accept
    }

    /// Whether the edges stay within the states.
    pub closed spec fn wf(&self) -> bool {
        &&& self.start < self.states@.len()
        &&& forall|s: int|
            0 <= s < self.states@.len() ==> (#[trigger] self.states@[s]).wf(self.states@.len())
    }

    /// The state after a word, if every symbol of it may stand where it does.
    pub open spec fn run(&self, s: int, w: Seq<Sym>) -> Option<int>
        decreases w.len(),
    {
        if w.len() == 0 {
            Some(s)
        } else {
            match self.edge(s, w[0]) {
                Some(t) => self.run(t as int, w.skip(1)),
                None => None,
            }
        }
    }

    /// Whether a word leads from a state to one in which a call may end.
    pub open spec fn completes(&self, s: int, w: Seq<Sym>) -> bool {
        self.run(s, w) matches Some(t) && self.spec_accepting(t)
    }

    /// Whether every state can still reach the end of a call.
    pub open spec fn no_dead_end(&self) -> bool {
        forall|s: int| 0 <= s < self.spec_num_states() ==> #[trigger] self.completable(s)
    }

    /// Whether a state can still reach the end of a call.
    pub open spec fn completable(&self, s: int) -> bool {
        exists|w: Seq<Sym>| self.completes(s, w)
    }

    /// An edge of a well-formed automaton leads to one of its states.
    pub proof fn lemma_edge(&self, s: int, a: Sym)
        requires
            self.wf(),
            0 <= s < self.spec_num_states(),
        ensures
            self.edge(s, a) matches Some(t) ==> t < self.spec_num_states(),
    {
        assert(self.states@[s].wf(self.states@.len()));
    }

    /// A run of a well-formed automaton ends in one of its states.
    pub proof fn lemma_run(&self, s: int, w: Seq<Sym>)
        requires
            self.wf(),
            0 <= s < self.spec_num_states(),
        ensures
            self.run(s, w) matches Some(t) ==> 0 <= t < self.spec_num_states(),
        decreases w.len(),
    {
        if w.len() > 0 {
            self.lemma_edge(s, w[0]);
            if let Some(t) = self.edge(s, w[0]) {
                self.lemma_run(t as int, w.skip(1));
            }
        }
    }

    /// A run over two words is a run over the first and then over the second.
    pub proof fn lemma_run_concat(&self, s: int, u: Seq<Sym>, v: Seq<Sym>)
        ensures
            self.run(s, u + v) == match self.run(s, u) {
                Some(t) => self.run(t, v),
                None => None,
            },
        decreases u.len(),
    {
        if u.len() == 0 {
            assert(u + v =~= v);
        } else {
            assert((u + v)[0] == u[0]);
            assert((u + v).skip(1) =~= u.skip(1) + v);
            if let Some(t) = self.edge(s, u[0]) {
                self.lemma_run_concat(t as int, u.skip(1), v);
            }
        }
    }

    /// A call begins in a state.
    pub proof fn lemma_start(&self)
        requires
            self.wf(),
        ensures
            self.spec_start() < self.spec_num_states(),
    {
    }

    /// The number of states.
    pub fn num_states(&self) -> (n: usize)
        ensures
            n == self.spec_num_states(),
    {
        self.states.len()
    }

    /// The state in which a call begins.
    pub fn start(&self) -> (s: usize)
        requires
            self.wf(),
        ensures
            s == self.spec_start(),
            s < self.spec_num_states(),
    {
        self.start
    }

    /// Whether a call may end in a state.
    pub fn accepting(&self, s: usize) -> (r: bool)
        requires
            s < self.spec_num_states(),
        ensures
            r == self.spec_accepting(s as int),
    {
        self.states[s].accept
    }

    /// Steps one byte: the next state, or `None` if the byte may not stand there.
    pub fn step(&self, s: usize, b: u8) -> (r: Option<usize>)
        requires
            self.wf(),
            s < self.spec_num_states(),
        ensures
            r == self.edge(s as int, Sym::Byte(b)),
            r matches Some(t) ==> t < self.spec_num_states(),
    {
        proof {
            assert(self.states@[s as int].wf(self.states@.len()));
            self.lemma_edge(s as int, Sym::Byte(b));
        }
        let t: usize = self.states[s].bytes[b as usize];
        if t == NONE {
            None
        } else {
            Some(t)
        }
    }

    /// Steps one delimiter token.
    pub fn step_tok(&self, s: usize, t: u32) -> (r: Option<usize>)
        requires
            self.wf(),
            s < self.spec_num_states(),
        ensures
            r == self.edge(s as int, Sym::Tok(t)),
            r matches Some(t) ==> t < self.spec_num_states(),
    {
        proof {
            self.lemma_edge(s as int, Sym::Tok(t));
        }
        find_tok(&self.states[s].toks, t)
    }
}

fn find_tok(toks: &Vec<(u32, usize)>, t: u32) -> (r: Option<usize>)
    ensures
        r == tok_edge(toks@, t),
{
    let mut i: usize = 0;
    proof {
        assert(toks@.skip(0) =~= toks@);
    }
    while i < toks.len()
        invariant
            i <= toks.len(),
            tok_edge(toks@, t) == tok_edge(toks@.skip(i as int), t),
        decreases toks.len() - i,
    {
        proof {
            assert(toks@.skip(i as int).skip(1) =~= toks@.skip(i + 1));
        }
        if toks[i].0 == t {
            return Some(toks[i].1);
        }
        i += 1;
    }
    None
}

// ---------------------------------------------------------------- sets of nodes
/// Whether some node of the set accepts the word.
spec fn any_accepts(g: Seq<Node>, q: Seq<usize>, w: Seq<Sym>) -> bool {
    exists|i: int| 0 <= i < q.len() && accepts(g, #[trigger] q[i] as int, w)
}

/// Whether some marked node accepts the word.
spec fn mark_accepts(g: Seq<Node>, m: Seq<bool>, w: Seq<Sym>) -> bool {
    exists|n: int| 0 <= n < m.len() && #[trigger] m[n] && accepts(g, n, w)
}

/// Whether the marks hold every node that a marked one goes on at without a symbol.
spec fn mark_closed(g: Seq<Node>, m: Seq<bool>, from: int) -> bool {
    forall|n: int|
        from <= n < m.len() && #[trigger] m[n] ==> match g[n] {
            Node::Split(a, b) => m[a as int] && m[b as int],
            Node::Star(_, t) => m[t as int],
            _ => true,
        }
}

/// Whether the set holds every node that one of its nodes goes on at without a symbol.
spec fn closed(g: Seq<Node>, q: Seq<usize>) -> bool {
    forall|i: int|
        0 <= i < q.len() ==> match g[(#[trigger] q[i]) as int] {
            Node::Split(a, b) => q.contains(a) && q.contains(b),
            Node::Star(_, t) => q.contains(t),
            _ => true,
        }
}

/// Whether a set is written in increasing order, below a bound.
spec fn ordered(q: Seq<usize>, bound: int) -> bool {
    &&& forall|i: int| 0 <= i < q.len() ==> (#[trigger] q[i]) < bound
    &&& forall|i: int, j: int| 0 <= i < j < q.len() ==> #[trigger] q[i] < #[trigger] q[j]
}

/// A set as a number with one bit per node.
spec fn code(q: Seq<usize>) -> nat
    decreases q.len(),
{
    if q.len() == 0 {
        0
    } else {
        code(q.drop_last()) + pow2(q.last() as nat)
    }
}

proof fn lemma_code_bound(q: Seq<usize>, bound: nat)
    requires
        ordered(q, bound as int),
    ensures
        code(q) < pow2(bound),
        q.len() > 0 ==> pow2(q.last() as nat) <= code(q) < pow2(q.last() as nat + 1),
    decreases q.len(),
{
    if q.len() == 0 {
        vstd::arithmetic::power2::lemma_pow2_pos(bound);
    } else {
        let l = q.last() as nat;
        assert forall|i: int| 0 <= i < q.drop_last().len() implies (#[trigger] q.drop_last()[i])
            < l by {
            assert(q[i] < q[q.len() - 1]);
        }
        lemma_code_bound(q.drop_last(), l);
        lemma_pow2_unfold(l + 1);
        if l + 1 < bound {
            lemma_pow2_strictly_increases(l + 1, bound);
        }
    }
}

proof fn lemma_code_injective(p: Seq<usize>, q: Seq<usize>, bound: nat)
    requires
        ordered(p, bound as int),
        ordered(q, bound as int),
        code(p) == code(q),
    ensures
        p == q,
    decreases p.len(),
{
    lemma_code_bound(p, bound);
    lemma_code_bound(q, bound);
    if p.len() == 0 || q.len() == 0 {
        if p.len() > 0 {
            vstd::arithmetic::power2::lemma_pow2_pos(p.last() as nat);
        }
        if q.len() > 0 {
            vstd::arithmetic::power2::lemma_pow2_pos(q.last() as nat);
        }
        assert(p =~= q);
    } else {
        let a = p.last() as nat;
        let b = q.last() as nat;
        if a < b && a + 1 < b {
            lemma_pow2_strictly_increases(a + 1, b);
        }
        if b < a && b + 1 < a {
            lemma_pow2_strictly_increases(b + 1, a);
        }
        assert(a == b);
        lemma_code_injective(p.drop_last(), q.drop_last(), bound);
        assert(p =~= p.drop_last().push(p.last()));
        assert(q =~= q.drop_last().push(q.last()));
    }
}

/// There are no more distinct sets of `bound` nodes than there are sets of them.
proof fn lemma_set_count(sets: Seq<Vec<usize>>, bound: nat)
    requires
        forall|i: int| 0 <= i < sets.len() ==> ordered((#[trigger] sets[i])@, bound as int),
        forall|i: int, j: int|
            0 <= i < j < sets.len() ==> (#[trigger] sets[i])@ != (#[trigger] sets[j])@,
    ensures
        sets.len() <= pow2(bound),
{
    let codes = Seq::new(sets.len(), |i: int| code(sets[i]@) as int);
    assert(codes.no_duplicates()) by {
        assert forall|i: int, j: int|
            0 <= i < codes.len() && 0 <= j < codes.len() && i != j implies codes[i] != codes[j] by {
            if codes[i] == codes[j] {
                lemma_code_injective(sets[i]@, sets[j]@, bound);
                if i < j {
                    assert(sets[i]@ != sets[j]@);
                } else {
                    assert(sets[j]@ != sets[i]@);
                }
            }
        }
    }
    codes.unique_seq_to_set();
    let all = set_int_range(0, pow2(bound) as int);
    lemma_int_range(0, pow2(bound) as int);
    assert(codes.to_set().subset_of(all)) by {
        assert forall|c: int| codes.to_set().contains(c) implies all.contains(c) by {
            let i = choose|i: int| 0 <= i < codes.len() && codes[i] == c;
            lemma_code_bound(sets[i]@, bound);
        }
    }
    lemma_len_subset(codes.to_set(), all);
}

// ---------------------------------------------------------------- following a symbol
/// What a set of nodes becomes after a symbol: the words that follow it.
spec fn follows(g: Seq<Node>, q: Seq<usize>, a: Sym, r: Seq<usize>) -> bool {
    forall|w: Seq<Sym>| #[trigger]
        any_accepts(g, r, w) == any_accepts(g, q, seq![a] + w)
}

/// Whether a node of a set goes on at node `t` after the symbol.
spec fn moves(g: Seq<Node>, q: Seq<usize>, a: Sym, t: int, i: int) -> bool {
    0 <= i < q.len() && match g[q[i] as int] {
        Node::Step(c, u) => c.accepts(a) && u == t,
        Node::Star(c, _) => c.accepts(a) && q[i] == t,
        _ => false,
    }
}

/// A node that accepts a word with the symbol in front has a node of the closed
/// set that goes on after the symbol.
proof fn lemma_moves(g: Seq<Node>, q: Seq<usize>, a: Sym, i: int, w: Seq<Sym>) -> (r: (int, int))
    requires
        closed(g, q),
        0 <= i < q.len(),
        accepts(g, q[i] as int, seq![a] + w),
    ensures
        moves(g, q, a, r.0, r.1),
        accepts(g, r.0, w),
    decreases q[i],
{
    let aw = seq![a] + w;
    assert(aw.skip(1) =~= w);
    assert(aw[0] == a);
    let n = q[i] as int;
    match g[n] {
        Node::Accept => (0, 0),
        Node::Dead => (0, 0),
        Node::Step(c, t) => (t as int, i),
        Node::Split(x, y) => {
            if accepts(g, x as int, aw) {
                let j = q.index_of(x);
                assert(q.contains(x));
                lemma_moves(g, q, a, j, w)
            } else {
                let j = q.index_of(y);
                assert(q.contains(y));
                lemma_moves(g, q, a, j, w)
            }
        },
        Node::Star(c, t) => {
            if accepts(g, t as int, aw) {
                let j = q.index_of(t);
                assert(q.contains(t));
                lemma_moves(g, q, a, j, w)
            } else {
                (n, i)
            }
        },
    }
}

/// A node that goes on after the symbol accepts what is accepted there, with the
/// symbol in front.
proof fn lemma_moves_back(g: Seq<Node>, q: Seq<usize>, a: Sym, t: int, i: int, w: Seq<Sym>)
    requires
        backward(g),
        ordered(q, g.len() as int),
        moves(g, q, a, t, i),
        accepts(g, t, w),
    ensures
        any_accepts(g, q, seq![a] + w),
{
    let aw = seq![a] + w;
    assert(aw.skip(1) =~= w);
    assert(aw[0] == a);
    assert(accepts(g, q[i] as int, aw));
}

/// A closed set accepts the empty word exactly if it holds an accepting node.
proof fn lemma_accept(g: Seq<Node>, q: Seq<usize>, i: int) -> (j: int)
    requires
        closed(g, q),
        0 <= i < q.len(),
        accepts(g, q[i] as int, Seq::empty()),
    ensures
        0 <= j < q.len(),
        g[q[j] as int] == Node::Accept,
    decreases q[i],
{
    match g[q[i] as int] {
        Node::Split(x, y) => {
            if accepts(g, x as int, Seq::empty()) {
                assert(q.contains(x));
                lemma_accept(g, q, q.index_of(x))
            } else {
                assert(q.contains(y));
                lemma_accept(g, q, q.index_of(y))
            }
        },
        Node::Star(c, t) => {
            assert(q.contains(t));
            lemma_accept(g, q, q.index_of(t))
        },
        _ => i,
    }
}

// ---------------------------------------------------------------- which nodes
/// Whether node `p` goes on at node `n` without a symbol.
spec fn skips(g: Seq<Node>, p: int, n: int) -> bool {
    match g[p] {
        Node::Split(a, b) => a == n || b == n,
        Node::Star(_, t) => t == n,
        _ => false,
    }
}

/// Whether a marked node goes on at node `n` without a symbol, or is that node.
spec fn reached(g: Seq<Node>, m: Seq<bool>, n: int) -> bool
    decreases g.len() - n,
{
    0 <= n < g.len() && (m[n] || exists|p: int|
        n < p < g.len() && #[trigger] skips(g, p, n) && reached(g, m, p))
}

/// Whether node `k` is reached by the nodes from `n` on.
spec fn reached_from(g: Seq<Node>, m: Seq<bool>, k: int, n: int) -> bool {
    m[k] || exists|p: int| n <= p < g.len() && k < p && #[trigger] skips(g, p, k) && reached(g, m, p)
}

/// The nodes below `n` with a property, in order.
spec fn nodes_in(n: nat, f: spec_fn(int) -> bool) -> Seq<usize>
    decreases n,
{
    if n == 0 {
        Seq::empty()
    } else if f(n - 1) {
        nodes_in((n - 1) as nat, f).push((n - 1) as usize)
    } else {
        nodes_in((n - 1) as nat, f)
    }
}

proof fn lemma_nodes_in(n: nat, f: spec_fn(int) -> bool, h: spec_fn(int) -> bool)
    requires
        forall|k: int| 0 <= k < n ==> #[trigger] f(k) == h(k),
    ensures
        nodes_in(n, f) == nodes_in(n, h),
    decreases n,
{
    if n > 0 {
        lemma_nodes_in((n - 1) as nat, f, h);
        assert(f(n - 1) == h(n - 1));
    }
}

/// The set of the nodes that the marks reach.
spec fn closure(g: Seq<Node>, m: Seq<bool>) -> Seq<usize> {
    nodes_in(g.len(), |n: int| reached(g, m, n))
}

/// Nothing is reached where nothing is marked.
proof fn lemma_nothing_reached(g: Seq<Node>, m: Seq<bool>, n: int)
    requires
        m.len() == g.len(),
        forall|k: int| 0 <= k < m.len() ==> !#[trigger] m[k],
    ensures
        !reached(g, m, n),
    decreases g.len() - n,
{
    if reached(g, m, n) {
        let p = choose|p: int|
            n < p < g.len() && #[trigger] skips(g, p, n) && reached(g, m, p);
        lemma_nothing_reached(g, m, p);
    }
}

proof fn lemma_nodes_in_none(n: nat, f: spec_fn(int) -> bool)
    requires
        forall|k: int| 0 <= k < n ==> !#[trigger] f(k),
    ensures
        nodes_in(n, f) == Seq::<usize>::empty(),
    decreases n,
{
    if n > 0 {
        assert(!f(n - 1));
        lemma_nodes_in_none((n - 1) as nat, f);
    }
}

/// Adds every node that a marked one goes on at without a symbol, and lists the
/// marked nodes.
fn close(nodes: &Vec<Node>, mark: &mut Vec<bool>) -> (q: Vec<usize>)
    requires
        backward(nodes@),
        old(mark)@.len() == nodes@.len(),
    ensures
        q@ == closure(nodes@, old(mark)@),
        ordered(q@, nodes@.len() as int),
        closed(nodes@, q@),
        forall|w: Seq<Sym>| #[trigger]
            any_accepts(nodes@, q@, w) == mark_accepts(nodes@, old(mark)@, w),
        (exists|n: int| 0 <= n < nodes@.len() && #[trigger] old(mark)@[n]) ==> q@.len() > 0,
{
    let ghost g = nodes@;
    let ghost m0 = mark@;
    let mut n: usize = nodes.len();
    while n > 0
        invariant
            g == nodes@,
            backward(g),
            n <= g.len(),
            mark@.len() == g.len(),
            m0.len() == g.len(),
            forall|i: int| 0 <= i < g.len() && m0[i] ==> #[trigger] mark@[i],
            mark_closed(g, mark@, n as int),
            forall|w: Seq<Sym>| #[trigger] mark_accepts(g, mark@, w) == mark_accepts(g, m0, w),
            forall|k: int|
                0 <= k < g.len() ==> #[trigger] mark@[k] == reached_from(g, m0, k, n as int),
        decreases n,
    {
        n -= 1;
        let ghost before = mark@;
        if mark[n] {
            let ghost m1 = mark@;
            match nodes[n] {
                Node::Split(a, b) => {
                    mark.set(a, true);
                    mark.set(b, true);
                },
                Node::Star(_, t) => {
                    mark.set(t, true);
                },
                _ => {},
            }
            proof {
                assert forall|w: Seq<Sym>| #[trigger]
                    mark_accepts(g, mark@, w) == mark_accepts(g, m0, w) by {
                    assert(mark_accepts(g, m1, w) == mark_accepts(g, m0, w));
                    if mark_accepts(g, mark@, w) {
                        let k = choose|k: int|
                            0 <= k < mark@.len() && #[trigger] mark@[k] && accepts(g, k, w);
                        if m1[k] {
                        } else {
                            assert(accepts(g, n as int, w));
                            assert(m1[n as int]);
                        }
                        assert(mark_accepts(g, m1, w));
                    }
                    if mark_accepts(g, m1, w) {
                        let k = choose|k: int|
                            0 <= k < m1.len() && #[trigger] m1[k] && accepts(g, k, w);
                        assert(mark@[k]);
                    }
                }
                assert(mark_closed(g, mark@, n as int)) by {
                    assert forall|k: int| n <= k < mark@.len() && #[trigger] mark@[k] implies match g[k] {
                        Node::Split(a, b) => mark@[a as int] && mark@[b as int],
                        Node::Star(_, t) => mark@[t as int],
                        _ => true,
                    } by {
                        if k > n {
                            assert(m1[k]);
                        }
                    }
                }
            }
        }
        proof {
            assert(before[n as int] == reached(g, m0, n as int)) by {
                assert(reached_from(g, m0, n as int, n + 1) == reached(g, m0, n as int));
            }
            assert forall|k: int| 0 <= k < g.len() implies #[trigger] mark@[k] == reached_from(
                g,
                m0,
                k,
                n as int,
            ) by {
                assert(before[k] == reached_from(g, m0, k, n + 1));
                assert(mark@[k] == (before[k] || (skips(g, n as int, k) && before[n as int])));
                if skips(g, n as int, k) {
                    assert(k < n);
                }
            }
        }
    }
    let mut q: Vec<usize> = Vec::new();
    let mut i: usize = 0;
    while i < nodes.len()
        invariant
            g == nodes@,
            i <= g.len(),
            mark@.len() == g.len(),
            ordered(q@, i as int),
            forall|k: int| 0 <= k < i && #[trigger] mark@[k] ==> q@.contains(k as usize),
            forall|k: int| 0 <= k < q@.len() ==> mark@[(#[trigger] q@[k]) as int],
            q@ == nodes_in(i as nat, |k: int| mark@[k]),
        decreases nodes.len() - i,
    {
        let ghost q0 = q@;
        if mark[i] {
            q.push(i);
            proof {
                assert forall|k: int| 0 <= k <= i && #[trigger] mark@[k] implies q@.contains(
                    k as usize,
                ) by {
                    if k < i {
                        assert(q0.contains(k as usize));
                        let j = q0.index_of(k as usize);
                        assert(q@[j] == k as usize);
                    } else {
                        assert(q@[q0.len() as int] == i);
                    }
                }
            }
        }
        i += 1;
    }
    proof {
        assert(q@ == closure(g, m0)) by {
            let f = |k: int| mark@[k];
            let h = |k: int| reached(g, m0, k);
            assert forall|k: int| 0 <= k < g.len() implies #[trigger] f(k) == h(k) by {
                assert(mark@[k] == reached_from(g, m0, k, 0));
            }
            lemma_nodes_in(g.len(), f, h);
        }
        assert(closed(g, q@)) by {
            assert forall|k: int| 0 <= k < q@.len() implies match g[(#[trigger] q@[k]) as int] {
                Node::Split(a, b) => q@.contains(a) && q@.contains(b),
                Node::Star(_, t) => q@.contains(t),
                _ => true,
            } by {
                assert(mark@[q@[k] as int]);
            }
        }
        assert forall|w: Seq<Sym>| #[trigger] any_accepts(g, q@, w) == mark_accepts(g, m0, w) by {
            assert(mark_accepts(g, mark@, w) == mark_accepts(g, m0, w));
            if any_accepts(g, q@, w) {
                let k = choose|k: int| 0 <= k < q@.len() && accepts(g, #[trigger] q@[k] as int, w);
                assert(mark@[q@[k] as int]);
            }
            if mark_accepts(g, mark@, w) {
                let k = choose|k: int| 0 <= k < mark@.len() && #[trigger] mark@[k] && accepts(g, k, w);
                assert(q@.contains(k as usize));
                let j = q@.index_of(k as usize);
                assert(accepts(g, q@[j] as int, w));
            }
        }
        if exists|n: int| 0 <= n < g.len() && #[trigger] m0[n] {
            let k = choose|n: int| 0 <= n < g.len() && #[trigger] m0[n];
            assert(mark@[k]);
            assert(q@.contains(k as usize));
        }
    }
    q
}

/// The nodes at which a set goes on after a symbol.
spec fn moved(g: Seq<Node>, q: Seq<usize>, a: Sym) -> Seq<bool> {
    Seq::new(g.len(), |t: int| exists|j: int| moves(g, q, a, t, j))
}

/// The set of nodes after a symbol.
spec fn follow_set(g: Seq<Node>, q: Seq<usize>, a: Sym) -> Seq<usize> {
    closure(g, moved(g, q, a))
}

/// The set of nodes after a symbol.
fn follow(nodes: &Vec<Node>, q: &Vec<usize>, a: Sym) -> (r: Vec<usize>)
    requires
        backward(nodes@),
        ordered(q@, nodes@.len() as int),
        closed(nodes@, q@),
    ensures
        r@ == follow_set(nodes@, q@, a),
        ordered(r@, nodes@.len() as int),
        closed(nodes@, r@),
        follows(nodes@, q@, a, r@),
{
    let ghost g = nodes@;
    let mut hit: bool = false;
    let mut i: usize = 0;
    while i < q.len()
        invariant
            g == nodes@,
            i <= q.len(),
            ordered(q@, g.len() as int),
            !hit ==> forall|t: int, j: int| 0 <= j < i ==> !#[trigger] moves(g, q@, a, t, j),
        decreases q.len() - i,
    {
        let takes: bool = match nodes[q[i]] {
            Node::Step(c, _) => c.accepts(a),
            Node::Star(c, _) => c.accepts(a),
            _ => false,
        };
        hit = hit || takes;
        i += 1;
    }
    if !hit {
        let r: Vec<usize> = Vec::new();
        proof {
            let m = moved(g, q@, a);
            assert forall|t: int| 0 <= t < m.len() implies !#[trigger] m[t] by {
                if m[t] {
                    let j = choose|j: int| moves(g, q@, a, t, j);
                    assert(!moves(g, q@, a, t, j));
                }
            }
            let f = |n: int| reached(g, m, n);
            assert forall|n: int| 0 <= n < g.len() implies !#[trigger] f(n) by {
                lemma_nothing_reached(g, m, n);
            }
            lemma_nodes_in_none(g.len(), f);
            assert forall|w: Seq<Sym>| #[trigger]
                any_accepts(g, r@, w) == any_accepts(g, q@, seq![a] + w) by {
                if any_accepts(g, q@, seq![a] + w) {
                    let k = choose|k: int|
                        0 <= k < q@.len() && accepts(g, #[trigger] q@[k] as int, seq![a] + w);
                    let (t, j) = lemma_moves(g, q@, a, k, w);
                }
            }
        }
        return r;
    }
    let mut mark: Vec<bool> = vec![false; nodes.len()];
    let mut i: usize = 0;
    while i < q.len()
        invariant
            g == nodes@,
            backward(g),
            i <= q.len(),
            ordered(q@, g.len() as int),
            mark@.len() == g.len(),
            forall|t: int, j: int| 0 <= j < i && #[trigger] moves(g, q@, a, t, j) ==> mark@[t],
            forall|t: int|
                0 <= t < g.len() && #[trigger] mark@[t] ==> exists|j: int|
                    0 <= j < i && moves(g, q@, a, t, j),
        decreases q.len() - i,
    {
        let ghost m0 = mark@;
        match nodes[q[i]] {
            Node::Step(c, t) => {
                if c.accepts(a) {
                    mark.set(t, true);
                    assert(moves(g, q@, a, t as int, i as int));
                }
            },
            Node::Star(c, _) => {
                if c.accepts(a) {
                    mark.set(q[i], true);
                    assert(moves(g, q@, a, q@[i as int] as int, i as int));
                }
            },
            _ => {},
        }
        proof {
            assert forall|t: int| 0 <= t < g.len() && #[trigger] mark@[t] implies exists|j: int|
                0 <= j < i + 1 && moves(g, q@, a, t, j) by {
                if m0[t] {
                    let j = choose|j: int| 0 <= j < i && moves(g, q@, a, t, j);
                    assert(moves(g, q@, a, t, j));
                }
            }
        }
        i += 1;
    }
    let ghost m = mark@;
    let r = close(nodes, &mut mark);
    proof {
        assert(m =~= moved(g, q@, a)) by {
            assert forall|t: int| 0 <= t < g.len() implies m[t] == moved(g, q@, a)[t] by {
                if moved(g, q@, a)[t] {
                    let j = choose|j: int| moves(g, q@, a, t, j);
                    assert(moves(g, q@, a, t, j));
                }
            }
        }
        assert forall|w: Seq<Sym>| #[trigger]
            any_accepts(g, r@, w) == any_accepts(g, q@, seq![a] + w) by {
            assert(any_accepts(g, r@, w) == mark_accepts(g, m, w));
            if any_accepts(g, q@, seq![a] + w) {
                let k = choose|k: int|
                    0 <= k < q@.len() && accepts(g, #[trigger] q@[k] as int, seq![a] + w);
                let (t, j) = lemma_moves(g, q@, a, k, w);
                assert(m[t]);
            }
            if mark_accepts(g, m, w) {
                let t = choose|t: int| 0 <= t < m.len() && #[trigger] m[t] && accepts(g, t, w);
                let j = choose|j: int| 0 <= j < q@.len() && moves(g, q@, a, t, j);
                lemma_moves_back(g, q@, a, t, j, w);
            }
        }
    }
    r
}

// ---------------------------------------------------------------- subset construction
/// Whether the sets are distinct, closed and not empty.
spec fn proper(g: Seq<Node>, sets: Seq<Vec<usize>>) -> bool {
    &&& forall|i: int|
        0 <= i < sets.len() ==> {
            let q = (#[trigger] sets[i])@;
            ordered(q, g.len() as int) && closed(g, q) && q.len() > 0
        }
    &&& forall|i: int, j: int|
        0 <= i < j < sets.len() ==> (#[trigger] sets[i])@ != (#[trigger] sets[j])@
}

/// Whether an edge out of set `q` goes where the symbol leads.
spec fn edge_right(
    g: Seq<Node>,
    sets: Seq<Vec<usize>>,
    q: Seq<usize>,
    a: Sym,
    e: Option<usize>,
) -> bool {
    match e {
        Some(t) => t < sets.len() && follows(g, q, a, sets[t as int]@),
        None => forall|w: Seq<Sym>| !#[trigger] any_accepts(g, q, seq![a] + w),
    }
}

/// Whether a state stands for set `q`.
spec fn state_right(g: Seq<Node>, sets: Seq<Vec<usize>>, q: Seq<usize>, st: State) -> bool {
    &&& st.bytes@.len() == 256
    &&& forall|a: Sym| edge_right(g, sets, q, a, #[trigger] st.edge(a))
    &&& st.accept == any_accepts(g, q, Seq::empty())
}

// ---------------------------------------------------------------- how states are numbered
/// What some sets hold.
spec fn set_view(sets: Seq<Vec<usize>>) -> Seq<Seq<usize>> {
    sets.map_values(|q: Vec<usize>| q@)
}

/// The sets with one more, if it is new, and its index.
spec fn interned(sets: Seq<Seq<usize>>, q: Seq<usize>) -> (Seq<Seq<usize>>, usize) {
    if sets.contains(q) {
        (sets, sets.index_of(q) as usize)
    } else {
        (sets.push(q), sets.len() as usize)
    }
}

/// The sets and the edge after one symbol out of a set.
spec fn edge_step(g: Seq<Node>, sets: Seq<Seq<usize>>, q: Seq<usize>, a: Sym) -> (
    Seq<Seq<usize>>,
    Option<usize>,
) {
    let r = follow_set(g, q, a);
    if r.len() == 0 {
        (sets, None)
    } else {
        let t = interned(sets, r);
        (t.0, Some(t.1))
    }
}

/// The sets and the edges after the first `b` bytes out of a set.
spec fn byte_steps(g: Seq<Node>, sets: Seq<Seq<usize>>, q: Seq<usize>, b: nat) -> (
    Seq<Seq<usize>>,
    Seq<usize>,
)
    decreases b,
{
    if b == 0 {
        (sets, Seq::empty())
    } else {
        let p = byte_steps(g, sets, q, (b - 1) as nat);
        let e = edge_step(g, p.0, q, Sym::Byte((b - 1) as u8));
        (
            e.0,
            p.1.push(
                match e.1 {
                    Some(t) => t,
                    None => NONE,
                },
            ),
        )
    }
}

/// The delimiter token that a node takes.
spec fn label(node: Node) -> Option<u32> {
    match node {
        Node::Step(SymClass::Tok(t), _) => Some(t),
        Node::Star(SymClass::Tok(t), _) => Some(t),
        _ => None,
    }
}

/// The sets and the edges after the delimiter tokens of the first `i` nodes of a set.
spec fn tok_steps(g: Seq<Node>, sets: Seq<Seq<usize>>, q: Seq<usize>, i: nat) -> (
    Seq<Seq<usize>>,
    Seq<(u32, usize)>,
)
    decreases i,
{
    if i == 0 {
        (sets, Seq::empty())
    } else {
        let p = tok_steps(g, sets, q, (i - 1) as nat);
        match label(g[q[i - 1] as int]) {
            Some(t) => if tok_edge(p.1, t) is None {
                let e = edge_step(g, p.0, q, Sym::Tok(t));
                match e.1 {
                    Some(to) => (e.0, p.1.push((t, to))),
                    None => (e.0, p.1),
                }
            } else {
                p
            },
            None => p,
        }
    }
}

/// The sets after those that a set leads to are found.
spec fn sets_after(g: Seq<Node>, sets: Seq<Seq<usize>>, q: Seq<usize>) -> Seq<Seq<usize>> {
    tok_steps(g, byte_steps(g, sets, q, 256).0, q, q.len()).0
}

/// Whether a state is the one of a set, where `sets` were found before it.
spec fn is_state_of(g: Seq<Node>, sets: Seq<Seq<usize>>, q: Seq<usize>, st: State) -> bool {
    let b = byte_steps(g, sets, q, 256);
    &&& st.bytes@ == b.1
    &&& st.toks@ == tok_steps(g, b.0, q, q.len()).1
    &&& st.accept == any_accepts(g, q, Seq::empty())
}

/// One node alone.
spec fn only(g: Seq<Node>, root: int) -> Seq<bool> {
    Seq::new(g.len(), |n: int| n == root)
}

/// The sets that are found once the first `i` of them have been followed.
spec fn found(g: Seq<Node>, root: int, i: nat) -> Seq<Seq<usize>>
    decreases i,
{
    if i == 0 {
        seq![closure(g, only(g, root))]
    } else {
        let p = found(g, root, (i - 1) as nat);
        if i - 1 < p.len() {
            sets_after(g, p, p[i - 1])
        } else {
            p
        }
    }
}

impl Dfa {
    /// Whether the states stand for the sets of nodes that a node leads to, in the
    /// order in which they are found.
    pub closed spec fn numbers(&self, g: Seq<Node>, root: int) -> bool {
        let n = self.states@.len();
        &&& self.start == 0
        &&& found(g, root, n).len() == n
        &&& forall|k: nat| k < n ==> (#[trigger] found(g, root, k)).len() > k
        &&& forall|k: int|
            0 <= k < n ==> is_state_of(
                g,
                found(g, root, k as nat),
                found(g, root, k as nat)[k],
                #[trigger] self.states@[k],
            )
    }

    /// Whether two automata have the same states, numbered alike.
    pub open spec fn same_states(&self, o: Dfa) -> bool {
        &&& self.spec_start() == o.spec_start()
        &&& self.spec_num_states() == o.spec_num_states()
        &&& forall|s: int, a: Sym|
            0 <= s < self.spec_num_states() ==> #[trigger] self.edge(s, a) == o.edge(s, a)
        &&& forall|s: int|
            0 <= s < self.spec_num_states() ==> #[trigger] self.spec_accepting(s)
                == o.spec_accepting(s)
    }

    /// The nodes tell the states and their numbers.
    pub proof fn lemma_numbers(&self, o: Dfa, g: Seq<Node>, root: int)
        requires
            self.numbers(g, root),
            o.numbers(g, root),
        ensures
            self.same_states(o),
    {
        let n = self.states@.len();
        let m = o.states@.len();
        assert(n == m) by {
            if n < m {
                assert(found(g, root, n).len() > n);
            } else if m < n {
                assert(found(g, root, m).len() > m);
            }
        }
        assert forall|s: int, a: Sym| 0 <= s < n implies #[trigger] self.edge(s, a) == o.edge(
            s,
            a,
        ) by {
            assert(is_state_of(
                g,
                found(g, root, s as nat),
                found(g, root, s as nat)[s],
                self.states@[s],
            ));
            assert(is_state_of(
                g,
                found(g, root, s as nat),
                found(g, root, s as nat)[s],
                o.states@[s],
            ));
        }
        assert forall|s: int| 0 <= s < n implies #[trigger] self.spec_accepting(s)
            == o.spec_accepting(s) by {
            assert(is_state_of(
                g,
                found(g, root, s as nat),
                found(g, root, s as nat)[s],
                self.states@[s],
            ));
            assert(is_state_of(
                g,
                found(g, root, s as nat),
                found(g, root, s as nat)[s],
                o.states@[s],
            ));
        }
    }
}

fn same(p: &Vec<usize>, q: &Vec<usize>) -> (r: bool)
    ensures
        r == (p@ == q@),
{
    if p.len() != q.len() {
        return false;
    }
    let mut i: usize = 0;
    while i < p.len()
        invariant
            i <= p.len(),
            p@.len() == q@.len(),
            forall|k: int| 0 <= k < i ==> p@[k] == q@[k],
        decreases p.len() - i,
    {
        if p[i] != q[i] {
            return false;
        }
        i += 1;
    }
    assert(p@ =~= q@);
    true
}

/// The index of a set among the sets, which gain it where it is new.
fn intern(Ghost(g): Ghost<Seq<Node>>, sets: &mut Vec<Vec<usize>>, q: Vec<usize>) -> (t: usize)
    requires
        proper(g, old(sets)@),
        ordered(q@, g.len() as int),
        closed(g, q@),
        q@.len() > 0,
    ensures
        proper(g, final(sets)@),
        old(sets)@.len() <= final(sets)@.len(),
        forall|i: int| 0 <= i < old(sets)@.len() ==> #[trigger] final(sets)@[i] == old(sets)@[i],
        t < final(sets)@.len(),
        t < usize::MAX,
        final(sets)@[t as int]@ == q@,
        (set_view(final(sets)@), t) == interned(set_view(old(sets)@), q@),
{
    let ghost v = set_view(sets@);
    let mut i: usize = 0;
    while i < sets.len()
        invariant
            i <= sets@.len(),
            sets@ == old(sets)@,
            proper(g, old(sets)@),
            v == set_view(old(sets)@),
            forall|k: int| 0 <= k < i ==> (#[trigger] sets@[k])@ != q@,
        decreases sets@.len() - i,
    {
        if same(&sets[i], &q) {
            proof {
                assert(v[i as int] == q@);
                let j = v.index_of(q@);
                assert(v[j] == sets@[j]@);
                if j < i {
                    assert(sets@[j]@ != sets@[i as int]@);
                } else if i < j {
                    assert(sets@[i as int]@ != sets@[j]@);
                }
            }
            return i;
        }
        i += 1;
    }
    proof {
        assert(!v.contains(q@)) by {
            if v.contains(q@) {
                let j = v.index_of(q@);
                assert(v[j] == sets@[j]@);
            }
        }
    }
    sets.push(q);
    assert(set_view(sets@) =~= v.push(q@));
    sets.len() - 1
}

proof fn lemma_edge_right_grows(
    g: Seq<Node>,
    before: Seq<Vec<usize>>,
    after: Seq<Vec<usize>>,
    q: Seq<usize>,
    a: Sym,
    e: Option<usize>,
)
    requires
        edge_right(g, before, q, a, e),
        before.len() <= after.len(),
        forall|i: int| 0 <= i < before.len() ==> #[trigger] after[i] == before[i],
    ensures
        edge_right(g, after, q, a, e),
{
}

/// The edge of a set for one symbol.
fn edge_of(nodes: &Vec<Node>, sets: &mut Vec<Vec<usize>>, s: usize, a: Sym) -> (e: Option<usize>)
    requires
        backward(nodes@),
        proper(nodes@, old(sets)@),
        s < old(sets)@.len(),
    ensures
        proper(nodes@, final(sets)@),
        old(sets)@.len() <= final(sets)@.len(),
        forall|i: int| 0 <= i < old(sets)@.len() ==> #[trigger] final(sets)@[i] == old(sets)@[i],
        edge_right(nodes@, final(sets)@, old(sets)@[s as int]@, a, e),
        e matches Some(t) ==> t < usize::MAX,
        (set_view(final(sets)@), e) == edge_step(
            nodes@,
            set_view(old(sets)@),
            old(sets)@[s as int]@,
            a,
        ),
        e is None ==> forall|i: int, t: int|
            !#[trigger] moves(nodes@, old(sets)@[s as int]@, a, t, i) || !live(nodes@, t),
{
    let ghost q = sets@[s as int]@;
    let r = follow(nodes, &sets[s], a);
    if r.len() == 0 {
        proof {
            assert forall|w: Seq<Sym>| !#[trigger] any_accepts(nodes@, q, seq![a] + w) by {
                assert(any_accepts(nodes@, r@, w) == any_accepts(nodes@, q, seq![a] + w));
            }
            assert forall|i: int, t: int|
                !#[trigger] moves(nodes@, q, a, t, i) || !live(nodes@, t) by {
                if moves(nodes@, q, a, t, i) && live(nodes@, t) {
                    let w = choose|w: Seq<Sym>| accepts(nodes@, t, w);
                    lemma_moves_back(nodes@, q, a, t, i, w);
                }
            }
        }
        return None;
    }
    let t: usize = intern(Ghost(nodes@), sets, r);
    Some(t)
}

/// The state that stands for a set.
fn state_of(nodes: &Vec<Node>, sets: &mut Vec<Vec<usize>>, s: usize) -> (st: State)
    requires
        backward(nodes@),
        proper(nodes@, old(sets)@),
        s < old(sets)@.len(),
    ensures
        proper(nodes@, final(sets)@),
        old(sets)@.len() <= final(sets)@.len(),
        forall|i: int| 0 <= i < old(sets)@.len() ==> #[trigger] final(sets)@[i] == old(sets)@[i],
        state_right(nodes@, final(sets)@, old(sets)@[s as int]@, st),
        is_state_of(nodes@, set_view(old(sets)@), old(sets)@[s as int]@, st),
        set_view(final(sets)@) == sets_after(
            nodes@,
            set_view(old(sets)@),
            old(sets)@[s as int]@,
        ),
{
    let ghost g = nodes@;
    let ghost q = sets@[s as int]@;
    let ghost s0 = sets@;
    let mut bytes: Vec<usize> = Vec::new();
    let mut b: usize = 0;
    while b < 256
        invariant
            g == nodes@,
            backward(g),
            b <= 256,
            bytes@.len() == b,
            s < s0.len() <= sets@.len(),
            forall|i: int| 0 <= i < s0.len() ==> #[trigger] sets@[i] == s0[i],
            q == s0[s as int]@,
            proper(g, sets@),
            forall|c: u8|
                c < b ==> edge_right(
                    g,
                    sets@,
                    q,
                    Sym::Byte(c), #[trigger] byte_edge(bytes@, c),
                ),
            (set_view(sets@), bytes@) == byte_steps(g, set_view(s0), q, b as nat),
        decreases 256 - b,
    {
        let ghost before = sets@;
        let ghost bytes0 = bytes@;
        let e = edge_of(nodes, sets, s, Sym::Byte(b as u8));
        match e {
            Some(t) => {
                bytes.push(t);
            },
            None => {
                bytes.push(NONE);
            },
        }
        proof {
            assert forall|c: u8| c < b + 1 implies edge_right(
                g,
                sets@,
                q,
                Sym::Byte(c),
                #[trigger] byte_edge(bytes@, c),
            ) by {
                if c < b {
                    assert(byte_edge(bytes@, c) == byte_edge(bytes0, c));
                    lemma_edge_right_grows(
                        g,
                        before,
                        sets@,
                        q,
                        Sym::Byte(c),
                        byte_edge(bytes0, c),
                    );
                } else {
                    assert(byte_edge(bytes@, c) == e);
                }
            }
        }
        b += 1;
    }
    let ghost s1 = set_view(sets@);
    let mut toks: Vec<(u32, usize)> = Vec::new();
    let mut accept: bool = false;
    assert(toks@ =~= Seq::empty());
    let mut i: usize = 0;
    while i < sets[s].len()
        invariant
            g == nodes@,
            backward(g),
            i <= q.len(),
            ordered(q, g.len() as int),
            s < s0.len() <= sets@.len(),
            forall|i: int| 0 <= i < s0.len() ==> #[trigger] sets@[i] == s0[i],
            q == s0[s as int]@,
            proper(g, sets@),
            bytes@.len() == 256,
            forall|c: u8|
                edge_right(
                    g,
                    sets@,
                    q,
                    Sym::Byte(c), #[trigger] byte_edge(bytes@, c),
                ),
            forall|t: u32|
                (#[trigger] tok_edge(toks@, t)) is Some ==> edge_right(
                    g,
                    sets@,
                    q,
                    Sym::Tok(t),
                    tok_edge(toks@, t),
                ),
            forall|t: u32, u: int, j: int|
                0 <= j < i && tok_edge(toks@, t) is None && #[trigger] moves(
                    g,
                    q,
                    Sym::Tok(t),
                    u,
                    j,
                ) ==> !live(g, u),
            accept == exists|j: int| 0 <= j < i && g[(#[trigger] q[j]) as int] == Node::Accept,
            (s1, bytes@) == byte_steps(g, set_view(s0), q, 256),
            (set_view(sets@), toks@) == tok_steps(g, s1, q, i as nat),
        decreases q.len() - i,
    {
        let n: usize = sets[s][i];
        let ghost before = sets@;
        let ghost toks0 = toks@;
        let label: Option<u32> = match nodes[n] {
            Node::Step(SymClass::Tok(t), _) => Some(t),
            Node::Star(SymClass::Tok(t), _) => Some(t),
            _ => None,
        };
        if let Some(t) = label {
            if find_tok(&toks, t).is_none() {
                let e = edge_of(nodes, sets, s, Sym::Tok(t));
                if let Some(to) = e {
                    toks.push((t, to));
                    proof {
                        lemma_tok_push(toks0, t, to);
                    }
                }
            }
        }
        if let Node::Accept = nodes[n] {
            accept = true;
        }
        proof {
            assert forall|u: u32| (#[trigger] tok_edge(toks@, u)) is Some implies edge_right(
                g,
                sets@,
                q,
                Sym::Tok(u),
                tok_edge(toks@, u),
            ) by {
                if tok_edge(toks0, u) is Some {
                    lemma_edge_right_grows(g, before, sets@, q, Sym::Tok(u), tok_edge(toks0, u));
                }
            }
            assert forall|c: u8|
                edge_right(
                    g,
                    sets@,
                    q,
                    Sym::Byte(c), #[trigger] byte_edge(bytes@, c),
                ) by {
                lemma_edge_right_grows(
                    g,
                    before,
                    sets@,
                    q,
                    Sym::Byte(c), byte_edge(bytes@, c),
                );
            }
        }
        i += 1;
    }
    let st = State { bytes, toks, accept };
    proof {
        assert forall|a: Sym| edge_right(g, sets@, q, a, #[trigger] st.edge(a)) by {
            match a {
                Sym::Byte(c) => {},
                Sym::Tok(t) => {
                    if tok_edge(st.toks@, t) is None {
                        assert forall|w: Seq<Sym>| !#[trigger]
                            any_accepts(g, q, seq![a] + w) by {
                            if any_accepts(g, q, seq![a] + w) {
                                let k = choose|k: int|
                                    0 <= k < q.len() && accepts(
                                        g,
                                        #[trigger] q[k] as int,
                                        seq![a] + w,
                                    );
                                let (u, j) = lemma_moves(g, q, a, k, w);
                                assert(live(g, u));
                            }
                        }
                    }
                },
            }
        }
        if any_accepts(g, q, Seq::empty()) {
            let k = choose|k: int|
                0 <= k < q.len() && accepts(g, #[trigger] q[k] as int, Seq::empty());
            let j = lemma_accept(g, q, k);
            assert(g[q[j] as int] == Node::Accept);
        }
        if accept {
            let j = choose|j: int| 0 <= j < q.len() && g[(#[trigger] q[j]) as int] == Node::Accept;
            assert(accepts(g, q[j] as int, Seq::empty()));
        }
    }
    st
}

proof fn lemma_tok_push_at(toks: Seq<(u32, usize)>, t: u32, to: usize, u: u32)
    ensures
        tok_edge(toks.push((t, to)), u) == if tok_edge(toks, u) is Some {
            tok_edge(toks, u)
        } else if u == t {
            Some(to)
        } else {
            None
        },
    decreases toks.len(),
{
    let after = toks.push((t, to));
    if toks.len() == 0 {
        assert(tok_edge(after.skip(1), u) is None);
    } else {
        assert(after.skip(1) =~= toks.skip(1).push((t, to)));
        assert(after[0] == toks[0]);
        lemma_tok_push_at(toks.skip(1), t, to, u);
    }
}

proof fn lemma_tok_push(toks: Seq<(u32, usize)>, t: u32, to: usize)
    ensures
        forall|u: u32| #[trigger]
            tok_edge(toks.push((t, to)), u) == if tok_edge(toks, u) is Some {
                tok_edge(toks, u)
            } else if u == t {
                Some(to)
            } else {
                None
            },
{
    assert forall|u: u32| #[trigger]
        tok_edge(toks.push((t, to)), u) == if tok_edge(toks, u) is Some {
            tok_edge(toks, u)
        } else if u == t {
            Some(to)
        } else {
            None
        } by {
        lemma_tok_push_at(toks, t, to, u);
    }
}

/// A state stands for its set: it completes the words that the set accepts.
proof fn lemma_completes(
    g: Seq<Node>,
    sets: Seq<Vec<usize>>,
    d: Dfa,
    s: int,
    w: Seq<Sym>,
)
    requires
        d.states@.len() == sets.len(),
        forall|i: int|
            0 <= i < sets.len() ==> state_right(g, sets, sets[i]@, #[trigger] d.states@[i]),
        0 <= s < sets.len(),
    ensures
        d.completes(s, w) == any_accepts(g, sets[s]@, w),
    decreases w.len(),
{
    let q = sets[s]@;
    assert(state_right(g, sets, q, d.states@[s]));
    if w.len() == 0 {
        assert(w =~= Seq::empty());
    } else {
        let a = w[0];
        let v = w.skip(1);
        assert(seq![a] + v =~= w);
        let e = d.edge(s, a);
        assert(edge_right(g, sets, q, a, d.states@[s].edge(a)));
        match e {
            Some(t) => {
                lemma_completes(g, sets, d, t as int, v);
                assert(any_accepts(g, sets[t as int]@, v) == any_accepts(g, q, seq![a] + v));
            },
            None => {
                assert(!any_accepts(g, q, seq![a] + v));
            },
        }
    }
}

/// The deterministic automaton that accepts what a node accepts.
pub fn determinize(nodes: &Vec<Node>, root: usize) -> (d: Dfa)
    requires
        backward(nodes@),
        root < nodes@.len(),
    ensures
        d.wf(),
        forall|w: Seq<Sym>| #[trigger]
            d.completes(d.spec_start() as int, w) == accepts(nodes@, root as int, w),
        alive(nodes@) ==> d.no_dead_end(),
        d.numbers(nodes@, root as int),
{
    let ghost g = nodes@;
    let ghost r = root as int;
    let mut mark: Vec<bool> = vec![false; nodes.len()];
    mark.set(root, true);
    let ghost m = mark@;
    assert(m =~= only(g, r));
    let first = close(nodes, &mut mark);
    proof {
        assert(m[root as int]);
        assert forall|w: Seq<Sym>| #[trigger]
            any_accepts(g, first@, w) == accepts(g, root as int, w) by {
            assert(any_accepts(g, first@, w) == mark_accepts(g, m, w));
            if accepts(g, root as int, w) {
                assert(m[root as int] && accepts(g, root as int, w));
            }
        }
    }
    let mut sets: Vec<Vec<usize>> = Vec::new();
    sets.push(first);
    assert(set_view(sets@) =~= found(g, r, 0));
    let mut states: Vec<State> = Vec::new();
    let mut i: usize = 0;
    while i < sets.len()
        invariant
            g == nodes@,
            backward(g),
            proper(g, sets@),
            i <= sets@.len(),
            sets@.len() > 0,
            sets@[0]@ == first@,
            states@.len() == i,
            forall|k: int|
                0 <= k < i ==> state_right(g, sets@, sets@[k]@, #[trigger] states@[k]),
            set_view(sets@) == found(g, r, i as nat),
            forall|k: nat| k < i ==> (#[trigger] found(g, r, k)).len() > k,
            forall|k: int|
                0 <= k < i ==> is_state_of(
                    g,
                    found(g, r, k as nat),
                    found(g, r, k as nat)[k],
                    #[trigger] states@[k],
                ),
        decreases pow2(g.len()) - i,
    {
        let ghost before = sets@;
        assert(set_view(before)[i as int] == before[i as int]@);
        let st = state_of(nodes, &mut sets, i);
        let ghost states0 = states@;
        states.push(st);
        proof {
            lemma_set_count(sets@, g.len());
            assert forall|k: int| 0 <= k < i + 1 implies state_right(
                g,
                sets@,
                sets@[k]@,
                #[trigger] states@[k],
            ) by {
                if k < i {
                    assert(state_right(g, before, before[k]@, states0[k]));
                    assert forall|a: Sym|
                        edge_right(g, sets@, sets@[k]@, a, #[trigger] states@[k].edge(a)) by {
                        lemma_edge_right_grows(
                            g,
                            before,
                            sets@,
                            before[k]@,
                            a,
                            states0[k].edge(a),
                        );
                    }
                }
            }
        }
        i += 1;
    }
    let d = Dfa { states, start: 0 };
    proof {
        assert(d.wf()) by {
            assert forall|s: int| 0 <= s < d.states@.len() implies (#[trigger] d.states@[s]).wf(
                d.states@.len(),
            ) by {
                assert(state_right(g, sets@, sets@[s]@, d.states@[s]));
            }
        }
        assert forall|w: Seq<Sym>| #[trigger]
            d.completes(d.spec_start() as int, w) == accepts(nodes@, root as int, w) by {
            lemma_completes(g, sets@, d, 0, w);
            assert(any_accepts(g, first@, w) == accepts(g, root as int, w));
        }
        if alive(g) {
            assert forall|s: int| 0 <= s < d.spec_num_states() implies #[trigger] d.completable(
                s,
            ) by {
                let q = sets@[s]@;
                assert(q.len() > 0);
                assert(live(g, q[0] as int));
                let w = choose|w: Seq<Sym>| accepts(g, q[0] as int, w);
                assert(any_accepts(g, q, w));
                lemma_completes(g, sets@, d, s, w);
            }
        }
    }
    d
}

} // verus!
