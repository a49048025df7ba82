//! Token-level masks over a vocabulary.
//!
//! Every vocabulary token is walked through the automaton once per state, which
//! yields per state the set of tokens that keep the output on a path to a call.
use vstd::prelude::*;
use vstd::std_specs::bits::axiom_u64_trailing_zeros;
use crate::grammar::dfa::Dfa;
use crate::grammar::lang::{byte_syms, Delims, Sym};

verus! {

/// Marks a token that may not stand in a state.
const ILLEGAL: u32 = 0xffff_ffff;

/// The bits of the `f32` that lies below every other.
pub const NEG_INFINITY: u32 = 0xff80_0000;

/// What a token spells: a delimiter token itself, any other its bytes.
pub open spec fn token_word(bytes: Seq<u8>, t: int) -> Seq<Sym> {
    let d = Delims::gemma4();
    if t == d.call_open || t == d.call_close || t == d.quote {
        seq![Sym::Tok(t as u32)]
    } else {
        byte_syms(bytes)
    }
}

/// What one state admits.
struct Row {
    /// bitset of the legal tokens
    mask: Vec<u64>,
    /// next state per token, or `ILLEGAL`
    next: Vec<u32>,
    /// how many tokens are legal
    count: usize,
}

/// Bit `i` of a word.
spec fn bit(w: u64, i: int) -> bool {
    w & (1u64 << (i as u64)) != 0
}

/// What each state of an automaton admits of a vocabulary.
pub struct Table {
    dfa: Dfa,
    rows: Vec<Row>,
    vocab: usize,
    words: Ghost<Seq<Seq<Sym>>>,
}

/// Token-level mask over a vocabulary, derived from the automaton.
pub struct Constraint {
    pub table: Table,
    /// the current state
    pub state: usize,
}

impl Constraint {
    /// The automaton.
    pub closed spec fn dfa(&self) -> Dfa {
        self.table.dfa
    }

    /// The current state.
    pub open spec fn at(&self) -> int {
        self.state as int
    }

    /// The size of the vocabulary.
    pub closed spec fn vocab(&self) -> nat {
        self.table.vocab as nat
    }

    /// What a token spells.
    pub closed spec fn spelling(&self, t: int) -> Seq<Sym> {
        self.table.words@[t]
    }

    /// The state that a token leads to, if it may stand in a state.
    pub open spec fn after(&self, s: int, t: int) -> Option<int> {
        if 0 <= t < self.vocab() && self.spelling(t).len() > 0 {
            self.dfa().run(s, self.spelling(t))
        } else {
            None
        }
    }

    /// Whether a token may stand in a state.
    pub open spec fn legal(&self, s: int, t: int) -> bool {
        self.after(s, t) is Some
    }

    /// How many of the first `n` tokens may stand in a state.
    pub open spec fn legal_below(&self, s: int, n: nat) -> nat
        decreases n,
    {
        if n == 0 {
            0
        } else {
            self.legal_below(s, (n - 1) as nat) + if self.legal(s, n - 1) {
                1nat
            } else {
                0nat
            }
        }
    }

    /// Logits with negative infinity for each token that may not stand in a state.
    pub open spec fn masked(&self, s: int, logits: Seq<u32>) -> Seq<u32> {
        Seq::new(
            logits.len(),
            |t: int|
                if self.legal(s, t) {
                    logits[t]
                } else {
                    NEG_INFINITY
                },
        )
    }

    /// Whether a token is the only one that may stand in a state.
    pub open spec fn sole(&self, s: int, t: int) -> bool {
        &&& self.legal(s, t)
        &&& forall|u: int| #[trigger] self.legal(s, u) ==> u == t
    }

    /// The state after several tokens, if each may stand where it does.
    pub open spec fn walk(&self, s: int, ts: Seq<usize>) -> Option<int>
        decreases ts.len(),
    {
        if ts.len() == 0 {
            Some(s)
        } else {
            match self.after(s, ts[0] as int) {
                Some(n) => self.walk(n, ts.skip(1)),
                None => None,
            }
        }
    }

    spec fn row_right(&self, s: int, row: Row) -> bool {
        &&& row.next@.len() == self.table.vocab
        &&& row.mask@.len() * 64 >= self.table.vocab
        &&& forall|t: int|
            #![trigger row.next@[t]]
            0 <= t < self.table.vocab ==> match self.after(s, t) {
                Some(n) => row.next@[t] == n && row.next@[t] != ILLEGAL,
                None => row.next@[t] == ILLEGAL,
            }
        &&& forall|i: int, j: int|
            0 <= i < row.mask@.len() && 0 <= j < 64 ==> #[trigger] bit(row.mask@[i], j)
                == self.legal(s, i * 64 + j)
        &&& row.count == self.legal_below(s, self.table.vocab as nat)
    }

    /// Whether the tables agree with the automaton.
    pub closed spec fn tables(&self) -> bool {
        &&& self.table.dfa.wf()
        &&& self.table.words@.len() == self.table.vocab
        &&& self.table.rows@.len() == self.table.dfa.spec_num_states()
        &&& forall|s: int| 0 <= s < self.table.rows@.len() ==> self.row_right(s, #[trigger] self.table.rows@[s])
    }

    /// Whether the tables agree with the automaton and the state is one of its states.
    pub open spec fn wf(&self) -> bool {
        self.tables() && 0 <= self.at() < self.dfa().spec_num_states()
    }
}

// ---------------------------------------------------------------- counting
impl Constraint {
    /// With no legal token the count is zero, with one at least one, with two at least two.
    proof fn lemma_count(&self, s: int, n: nat, t: int, u: int)
        ensures
            0 <= t < n && self.legal(s, t) ==> self.legal_below(s, n) >= 1,
            0 <= t < u < n && self.legal(s, t) && self.legal(s, u) ==> self.legal_below(s, n) >= 2,
            self.legal_below(s, n) <= n,
        decreases n,
    {
        if n > 0 {
            self.lemma_count(s, (n - 1) as nat, t, u);
        }
    }

    proof fn lemma_count_sole(&self, s: int, n: nat, t: int)
        requires
            self.sole(s, t),
        ensures
            self.legal_below(s, n) == if 0 <= t < n {
                1nat
            } else {
                0nat
            },
        decreases n,
    {
        if n > 0 {
            self.lemma_count_sole(s, (n - 1) as nat, t);
        }
    }

    /// Exactly one token is counted exactly if one token is the only one.
    pub proof fn lemma_one(&self, s: int, t: int)
        requires
            self.legal(s, t),
            self.legal_below(s, self.vocab()) == 1,
        ensures
            self.sole(s, t),
    {
        assert forall|u: int| #[trigger] self.legal(s, u) implies u == t by {
            self.lemma_count(s, self.vocab(), t, u);
            self.lemma_count(s, self.vocab(), u, t);
        }
    }
}

// ---------------------------------------------------------------- bits
proof fn lemma_bit_none(j: u64)
    requires
        j < 64,
    ensures
        0u64 & (1u64 << j) == 0,
{
    assert(0u64 & (1u64 << j) == 0) by (bit_vector);
}

proof fn lemma_bit_set(w: u64, i: u64, j: u64)
    requires
        i < 64,
        j < 64,
    ensures
        ((w | (1u64 << i)) & (1u64 << j) != 0) == (i == j || w & (1u64 << j) != 0),
{
    assert(((w | (1u64 << i)) & (1u64 << j) != 0) == (i == j || w & (1u64 << j) != 0))
        by (bit_vector)
        requires
            i < 64,
            j < 64,
    ;
}

proof fn lemma_bit_shifted(w: u64, j: u64)
    requires
        j < 64,
    ensures
        (w & (1u64 << j) != 0) == ((w >> j) & 1u64 == 1u64),
{
    assert((w & (1u64 << j) != 0) == ((w >> j) & 1u64 == 1u64)) by (bit_vector)
        requires
            j < 64,
    ;
}

// ---------------------------------------------------------------- compiling
/// Walks a token through the automaton from a state.
fn walk_token(dfa: &Dfa, s: usize, t: usize, bytes: &Vec<u8>) -> (r: Option<usize>)
    requires
        dfa.wf(),
        s < dfa.spec_num_states(),
    ensures
        match r {
            Some(n) => n < dfa.spec_num_states() && token_word(bytes@, t as int).len() > 0
                && dfa.run(s as int, token_word(bytes@, t as int)) == Some(n as int),
            None => token_word(bytes@, t as int).len() == 0 || dfa.run(
                s as int,
                token_word(bytes@, t as int),
            ) is None,
        },
{
    let d = Delims::gemma4();
    let ghost w = token_word(bytes@, t as int);
    if t == d.call_open as usize || t == d.call_close as usize || t == d.quote as usize {
        let r = dfa.step_tok(s, t as u32);
        proof {
            if let Some(n) = r {
                assert(dfa.run(n as int, w.skip(1)) == Some(n as int));
            }
        }
        return r;
    }
    if bytes.len() == 0 {
        return None;
    }
    let mut cur: usize = s;
    let mut i: usize = 0;
    proof {
        assert(w.skip(0) =~= w);
    }
    while i < bytes.len()
        invariant
            dfa.wf(),
            cur < dfa.spec_num_states(),
            i <= bytes@.len(),
            w == token_word(bytes@, t as int),
            w == byte_syms(bytes@),
            w.len() > 0,
            dfa.run(s as int, w) == dfa.run(cur as int, w.skip(i as int)),
        decreases bytes@.len() - i,
    {
        proof {
            assert(w.skip(i as int)[0] == Sym::Byte(bytes@[i as int]));
            assert(w.skip(i as int).skip(1) =~= w.skip(i + 1));
        }
        match dfa.step(cur, bytes[i]) {
            Some(n) => {
                cur = n;
            },
            None => {
                return None;
            },
        }
        i += 1;
    }
    proof {
        assert(w.skip(i as int).len() == 0);
    }
    Some(cur)
}

impl Constraint {
    /// `vocab_bytes[t]` is the byte string that token `t` decodes to; it is empty
    /// for a token that has no byte form.
    pub fn compile(dfa: Dfa, vocab_bytes: &[Vec<u8>]) -> (c: Constraint)
        requires
            dfa.wf(),
            dfa.spec_num_states() <= u32::MAX,
        ensures
            c.wf(),
            c.dfa() == dfa,
            c.vocab() == vocab_bytes@.len(),
            forall|t: int|
                0 <= t < vocab_bytes@.len() ==> #[trigger] c.spelling(t) == token_word(
                    vocab_bytes@[t]@,
                    t,
                ),
            c.at() == dfa.spec_start(),
    {
        let start: usize = dfa.start();
        let vocab: usize = vocab_bytes.len();
        let ghost spell = Seq::new(
            vocab_bytes@.len(),
            |t: int| token_word(vocab_bytes@[t]@, t),
        );
        let table = Table { dfa, rows: Vec::new(), vocab, words: Ghost(spell) };
        let mut c = Constraint { table, state: start };
        let words: usize = if vocab % 64 == 0 {
            vocab / 64
        } else {
            vocab / 64 + 1
        };
        let mut s: usize = 0;
        while s < c.table.dfa.num_states()
            invariant
                c.table.dfa == dfa,
                dfa.wf(),
                dfa.spec_num_states() <= u32::MAX,
                c.table.vocab == vocab,
                vocab == vocab_bytes@.len(),
                words * 64 >= vocab,
                c.table.words@ == spell,
                spell == Seq::new(vocab_bytes@.len(), |t: int| token_word(vocab_bytes@[t]@, t)),
                c.state == start,
                s <= dfa.spec_num_states(),
                c.table.rows@.len() == s,
                forall|k: int| 0 <= k < s ==> c.row_right(k, #[trigger] c.table.rows@[k]),
            decreases dfa.spec_num_states() - s,
        {
            let mut mask: Vec<u64> = vec![0; words];
            let mut next: Vec<u32> = Vec::with_capacity(vocab);
            let mut count: usize = 0;
            let mut t: usize = 0;
            proof {
                assert forall|i: int, j: int|
                    0 <= i < words && 0 <= j < 64 implies #[trigger] bit(mask@[i], j) == (i * 64 + j
                    < t && c.legal(s as int, i * 64 + j)) by {
                    lemma_bit_none(j as u64);
                }
            }
            while t < vocab
                invariant
                    c.table.dfa == dfa,
                    dfa.wf(),
                    dfa.spec_num_states() <= u32::MAX,
                    s < dfa.spec_num_states(),
                    c.table.vocab == vocab,
                    vocab == vocab_bytes@.len(),
                    words * 64 >= vocab,
                    c.table.words@ == spell,
                    spell == Seq::new(
                        vocab_bytes@.len(),
                        |t: int| token_word(vocab_bytes@[t]@, t),
                    ),
                    t <= vocab,
                    mask@.len() == words,
                    next@.len() == t,
                    count <= t,
                    forall|k: int|
                        #![trigger next@[k]]
                        0 <= k < t ==> match c.after(s as int, k) {
                            Some(n) => next@[k] == n && next@[k] != ILLEGAL,
                            None => next@[k] == ILLEGAL,
                        },
                    forall|i: int, j: int|
                        0 <= i < words && 0 <= j < 64 ==> #[trigger] bit(mask@[i], j) == (i * 64 + j
                            < t && c.legal(s as int, i * 64 + j)),
                    count == c.legal_below(s as int, t as nat),
                decreases vocab - t,
            {
                let r = walk_token(&c.table.dfa, s, t, &vocab_bytes[t]);
                let ghost m0 = mask@;
                assert(c.spelling(t as int) == token_word(vocab_bytes@[t as int]@, t as int));
                match r {
                    Some(n) => {
                        let i: usize = t / 64;
                        let k: u64 = (t % 64) as u64;
                        let w: u64 = mask[i] | (1u64 << k);
                        mask.set(i, w);
                        next.push(n as u32);
                        count += 1;
                        proof {
                            assert forall|x: int, y: int|
                                0 <= x < words && 0 <= y < 64 implies #[trigger] bit(mask@[x], y)
                                == (x * 64 + y < t + 1 && c.legal(s as int, x * 64 + y)) by {
                                assert(bit(m0[x], y) == (x * 64 + y < t && c.legal(
                                    s as int,
                                    x * 64 + y,
                                )));
                                if x == i {
                                    lemma_bit_set(m0[x], k, y as u64);
                                }
                            }
                        }
                    },
                    None => {
                        next.push(ILLEGAL);
                        proof {
                            assert forall|x: int, y: int|
                                0 <= x < words && 0 <= y < 64 implies #[trigger] bit(mask@[x], y)
                                == (x * 64 + y < t + 1 && c.legal(s as int, x * 64 + y)) by {
                                assert(bit(m0[x], y) == (x * 64 + y < t && c.legal(
                                    s as int,
                                    x * 64 + y,
                                )));
                            }
                        }
                    },
                }
                t += 1;
            }
            let row = Row { mask, next, count };
            let ghost rows0 = c.table.rows@;
            let ghost c0 = c;
            assert(c.row_right(s as int, row));
            c.table.rows.push(row);
            proof {
                assert forall|k: int| 0 <= k < s + 1 implies c.row_right(
                    k,
                    #[trigger] c.table.rows@[k],
                ) by {
                    if k < s {
                        assert(c0.row_right(k, rows0[k]));
                        c0.lemma_same_tables(c, k, rows0[k]);
                    } else {
                        c0.lemma_same_tables(c, k, row);
                    }
                }
            }
            s += 1;
        }
        c
    }

    proof fn lemma_same_count(&self, other: Constraint, s: int, n: nat)
        requires
            self.table.dfa == other.table.dfa,
            self.table.vocab == other.table.vocab,
            self.table.words@ == other.table.words@,
        ensures
            self.legal_below(s, n) == other.legal_below(s, n),
        decreases n,
    {
        if n > 0 {
            self.lemma_same_count(other, s, (n - 1) as nat);
        }
    }

    proof fn lemma_same_tables(&self, other: Constraint, s: int, row: Row)
        requires
            self.table.dfa == other.table.dfa,
            self.table.vocab == other.table.vocab,
            self.table.words@ == other.table.words@,
            self.row_right(s, row),
        ensures
            other.row_right(s, row),
    {
        self.lemma_same_count(other, s, self.table.vocab as nat);
        assert forall|t: int| self.after(s, t) == #[trigger] other.after(s, t) by {}
    }
}

impl Constraint {
    /// Goes back to the beginning of a call.
    pub fn reset(&mut self)
        requires
            old(self).wf(),
        ensures
            final(self).wf(),
            final(self).same_grammar(*old(self)),
            final(self).at() == old(self).dfa().spec_start(),
    {
        self.state = self.table.dfa.start();
        proof {
            self.lemma_still_tables(*old(self));
        }
    }

    /// Whether token `t` may stand in the current state.
    pub fn allowed(&self, t: usize) -> (r: bool)
        requires
            self.wf(),
        ensures
            r == self.legal(self.at(), t as int),
    {
        self.allowed_at(self.state, t)
    }

    /// Whether token `t` may stand in a state.
    pub fn allowed_at(&self, s: usize, t: usize) -> (r: bool)
        requires
            self.tables(),
            s < self.dfa().spec_num_states(),
        ensures
            r == self.legal(s as int, t as int),
    {
        if t >= self.table.vocab {
            return false;
        }
        let row = &self.table.rows[s];
        proof {
            assert(self.row_right(s as int, self.table.rows@[s as int]));
            assert(bit(row.mask@[t as int / 64], t as int % 64) == self.legal(
                s as int,
                (t as int / 64) * 64 + t as int % 64,
            ));
        }
        row.mask[t / 64] & (1u64 << ((t % 64) as u64)) != 0
    }

    /// Sets the logits of the tokens that may not stand in the current state to
    /// negative infinity. Logits are given by their bits.
    pub fn apply(&self, logits: &mut Vec<u32>)
        requires
            self.wf(),
            old(logits)@.len() == self.vocab(),
        ensures
            final(logits)@ == self.masked(self.at(), old(logits)@),
    {
        self.apply_at(self.state, logits)
    }

    /// Sets the logits of the tokens that may not stand in a state to negative
    /// infinity.
    pub fn apply_at(&self, s: usize, logits: &mut Vec<u32>)
        requires
            self.tables(),
            s < self.dfa().spec_num_states(),
            old(logits)@.len() == self.vocab(),
        ensures
            final(logits)@ == self.masked(s as int, old(logits)@),
    {
        let mut t: usize = 0;
        while t < logits.len()
            invariant
                self.tables(),
                s < self.dfa().spec_num_states(),
                t <= logits@.len(),
                logits@.len() == old(logits)@.len(),
                forall|i: int|
                    0 <= i < t ==> #[trigger] logits@[i] == self.masked(s as int, old(logits)@)[i],
                forall|i: int| t <= i < logits@.len() ==> #[trigger] logits@[i] == old(logits)@[i],
            decreases logits@.len() - t,
        {
            if !self.allowed_at(s, t) {
                logits.set(t, NEG_INFINITY);
            }
            t += 1;
        }
        assert(logits@ =~= self.masked(s as int, old(logits)@));
    }

    /// Number of tokens the current state permits.
    pub fn count(&self) -> (n: usize)
        requires
            self.wf(),
        ensures
            n == self.legal_below(self.at(), self.vocab()),
    {
        proof {
            assert(self.row_right(self.state as int, self.table.rows@[self.state as int]));
        }
        self.table.rows[self.state].count
    }

    /// The only legal token of a state, if there is exactly one.
    pub fn forced_at(&self, s: usize) -> (r: Option<usize>)
        requires
            self.tables(),
            s < self.dfa().spec_num_states(),
        ensures
            match r {
                Some(t) => self.sole(s as int, t as int),
                None => forall|t: int| !#[trigger] self.sole(s as int, t),
            },
    {
        let row = &self.table.rows[s];
        let ghost si = s as int;
        proof {
            assert(self.row_right(si, self.table.rows@[si]));
        }
        if row.count != 1 {
            proof {
                assert forall|t: int| !#[trigger] self.sole(si, t) by {
                    if self.sole(si, t) {
                        self.lemma_count_sole(si, self.table.vocab as nat, t);
                    }
                }
            }
            return None;
        }
        let mut i: usize = 0;
        while i < row.mask.len()
            invariant
                si == s,
                self.tables(),
                self.row_right(si, *row),
                row.count == 1,
                i <= row.mask@.len(),
                forall|x: int, y: int|
                    0 <= x < i && 0 <= y < 64 ==> !#[trigger] self.legal(si, x * 64 + y),
            decreases row.mask@.len() - i,
        {
            let w: u64 = row.mask[i];
            if w != 0 {
                let k: u32 = w.trailing_zeros();
                proof {
                    axiom_u64_trailing_zeros(w);
                    lemma_bit_shifted(w, k as u64);
                    assert(bit(row.mask@[i as int], k as int));
                    assert(self.legal(si, i * 64 + k));
                    self.lemma_one(si, i * 64 + k);
                }
                return Some(i * 64 + k as usize);
            }
            proof {
                assert forall|y: int| 0 <= y < 64 implies !#[trigger] self.legal(si, i * 64 + y) by {
                    lemma_bit_none(y as u64);
                    assert(!bit(row.mask@[i as int], y));
                }
            }
            i += 1;
        }
        proof {
            assert forall|t: int| !#[trigger] self.sole(si, t) by {
                if self.legal(si, t) {
                    assert(self.legal(si, (t / 64) * 64 + t % 64));
                }
            }
        }
        None
    }

    /// If exactly one token is legal, that token: its logits need not be computed.
    pub fn forced(&self) -> (r: Option<usize>)
        requires
            self.wf(),
        ensures
            match r {
                Some(t) => self.sole(self.at(), t as int),
                None => forall|t: int| !#[trigger] self.sole(self.at(), t),
            },
    {
        self.forced_at(self.state)
    }

    /// The tokens that the grammar alone determines from here, up to `max` of them.
    pub fn forced_run(&self, max: usize) -> (run: Vec<usize>)
        requires
            self.wf(),
        ensures
            run@.len() <= max,
            self.forced_from(self.at(), run@),
            run@.len() < max ==> forall|t: int|
                !#[trigger] self.sole(self.walk(self.at(), run@).unwrap(), t),
    {
        self.forced_run_at(self.state, max)
    }

    /// The tokens that the grammar alone determines from a state, up to `max` of them.
    pub fn forced_run_at(&self, from: usize, max: usize) -> (run: Vec<usize>)
        requires
            self.tables(),
            from < self.dfa().spec_num_states(),
        ensures
            run@.len() <= max,
            self.forced_from(from as int, run@),
            run@.len() < max ==> forall|t: int|
                !#[trigger] self.sole(self.walk(from as int, run@).unwrap(), t),
    {
        let mut run: Vec<usize> = Vec::new();
        let mut s: usize = from;
        while run.len() < max
            invariant
                self.tables(),
                s < self.dfa().spec_num_states(),
                run@.len() <= max,
                self.forced_from(from as int, run@),
                self.walk(from as int, run@) == Some(s as int),
            decreases max - run@.len(),
        {
            match self.forced_at(s) {
                Some(t) => {
                    let ghost run0 = run@;
                    proof {
                        assert(self.row_right(s as int, self.table.rows@[s as int]));
                        assert(0 <= t < self.table.vocab);
                        self.table.dfa.lemma_run(s as int, self.spelling(t as int));
                    }
                    let n: u32 = self.table.rows[s].next[t];
                    run.push(t);
                    proof {
                        self.lemma_walk_push(from as int, run0, t);
                        self.lemma_forced_push(from as int, run0, t);
                    }
                    s = n as usize;
                },
                None => {
                    return run;
                },
            }
        }
        run
    }

    /// The state that a token leads to from any state, if it may stand there.
    pub fn peek_token(&self, s: usize, t: usize) -> (r: Option<usize>)
        requires
            self.tables(),
            s < self.dfa().spec_num_states(),
        ensures
            match r {
                Some(n) => self.after(s as int, t as int) == Some(n as int) && n
                    < self.dfa().spec_num_states(),
                None => self.after(s as int, t as int) is None,
            },
    {
        if t >= self.table.vocab {
            return None;
        }
        proof {
            assert(self.row_right(s as int, self.table.rows@[s as int]));
            self.table.dfa.lemma_run(s as int, self.spelling(t as int));
        }
        let n: u32 = self.table.rows[s].next[t];
        if n == ILLEGAL {
            None
        } else {
            Some(n as usize)
        }
    }

    /// Takes a token. An illegal one is refused and changes nothing.
    pub fn advance(&mut self, t: usize) -> (r: bool)
        requires
            old(self).wf(),
        ensures
            final(self).wf(),
            final(self).same_grammar(*old(self)),
            match old(self).after(old(self).at(), t as int) {
                Some(n) => r && final(self).at() == n,
                None => !r && final(self).at() == old(self).at(),
            },
    {
        match self.peek_token(self.state, t) {
            Some(n) => {
                self.state = n;
                proof {
                    self.lemma_still_tables(*old(self));
                }
                true
            },
            None => false,
        }
    }

    /// Steps a byte from any state.
    pub fn peek(&self, state: usize, b: u8) -> (r: Option<usize>)
        requires
            self.wf(),
            state < self.dfa().spec_num_states(),
        ensures
            r == self.dfa().edge(state as int, Sym::Byte(b)),
            r matches Some(t) ==> t < self.dfa().spec_num_states(),
    {
        self.table.dfa.step(state, b)
    }

    /// Steps a delimiter token from any state.
    pub fn peek_tok(&self, state: usize, t: u32) -> (r: Option<usize>)
        requires
            self.wf(),
            state < self.dfa().spec_num_states(),
        ensures
            r == self.dfa().edge(state as int, Sym::Tok(t)),
            r matches Some(t) ==> t < self.dfa().spec_num_states(),
    {
        self.table.dfa.step_tok(state, t)
    }

    /// The state in which a call begins.
    pub fn start(&self) -> (s: usize)
        requires
            self.tables(),
        ensures
            s == self.dfa().spec_start(),
            s < self.dfa().spec_num_states(),
    {
        self.table.dfa.start()
    }

    /// Whether a call may end in a state.
    pub fn accepting(&self, state: usize) -> (r: bool)
        requires
            self.tables(),
            state < self.dfa().spec_num_states(),
        ensures
            r == self.dfa().spec_accepting(state as int),
    {
        self.table.dfa.accepting(state)
    }

    /// Whether the call may end here.
    pub fn done(&self) -> (r: bool)
        requires
            self.wf(),
        ensures
            r == self.dfa().spec_accepting(self.at()),
    {
        self.table.dfa.accepting(self.state)
    }

    /// The number of states.
    pub fn num_states(&self) -> (n: usize)
        ensures
            n == self.dfa().spec_num_states(),
    {
        self.table.dfa.num_states()
    }
}

// ---------------------------------------------------------------- walks
impl Constraint {
    /// Whether two constraints differ in their current state at most.
    pub closed spec fn same_grammar(&self, other: Constraint) -> bool {
        &&& self.table.dfa == other.table.dfa
        &&& self.table.rows == other.table.rows
        &&& self.table.vocab == other.table.vocab
        &&& self.table.words == other.table.words
    }

    /// Constraints that differ in their current state at most agree on all else.
    pub broadcast proof fn law_same_grammar_agrees(&self, other: Constraint)
        requires
            #[trigger] self.same_grammar(other),
        ensures
            self.dfa() == other.dfa(),
            self.vocab() == other.vocab(),
            forall|t: int| #[trigger] self.spelling(t) == other.spelling(t),
    {
    }

    proof fn lemma_still_tables(&self, other: Constraint)
        requires
            self.same_grammar(other),
            other.tables(),
        ensures
            self.tables(),
    {
        assert forall|s: int| 0 <= s < self.table.rows@.len() implies self.row_right(
            s,
            #[trigger] self.table.rows@[s],
        ) by {
            assert(other.row_right(s, other.table.rows@[s]));
            other.lemma_same_tables(*self, s, other.table.rows@[s]);
        }
    }

    /// Whether each token of a run is the only one that may stand where it does.
    pub open spec fn forced_from(&self, s: int, run: Seq<usize>) -> bool {
        forall|i: int| 0 <= i < run.len() ==> #[trigger] self.forced_there(s, run, i)
    }

    /// Whether token `i` of a run is the only one that may stand where it does.
    pub open spec fn forced_there(&self, s: int, run: Seq<usize>, i: int) -> bool {
        self.walk(s, run.take(i)) matches Some(n) && self.sole(n, run[i] as int)
    }

    /// A token leads from a state to a state.
    pub proof fn lemma_after_is_a_state(&self, s: int, t: int)
        requires
            self.tables(),
            0 <= s < self.dfa().spec_num_states(),
        ensures
            self.after(s, t) matches Some(n) ==> 0 <= n < self.dfa().spec_num_states(),
    {
        self.table.dfa.lemma_run(s, self.spelling(t));
    }

    /// A symbol leads from a state to a state.
    pub proof fn lemma_edge_is_a_state(&self, s: int, a: Sym)
        requires
            self.tables(),
            0 <= s < self.dfa().spec_num_states(),
        ensures
            self.dfa().edge(s, a) matches Some(n) ==> n < self.dfa().spec_num_states(),
    {
        self.table.dfa.lemma_edge(s, a);
    }

    /// A word leads from a state to a state.
    pub proof fn lemma_run_is_a_state(&self, s: int, w: Seq<Sym>)
        requires
            self.tables(),
            0 <= s < self.dfa().spec_num_states(),
        ensures
            self.dfa().run(s, w) matches Some(n) ==> 0 <= n < self.dfa().spec_num_states(),
    {
        self.table.dfa.lemma_run(s, w);
    }

    /// A token is forced in a state exactly if one token is counted there.
    pub proof fn law_forced_is_a_count_of_one(&self, s: int)
        ensures
            (exists|t: int| self.sole(s, t)) == (self.legal_below(s, self.vocab()) == 1),
    {
        if exists|t: int| self.sole(s, t) {
            let t = choose|t: int| self.sole(s, t);
            self.lemma_count_sole(s, self.vocab(), t);
        }
        if self.legal_below(s, self.vocab()) == 1 {
            let t = self.lemma_some_legal(s, self.vocab());
            self.lemma_one(s, t);
        }
    }

    proof fn lemma_some_legal(&self, s: int, n: nat) -> (t: int)
        requires
            self.legal_below(s, n) > 0,
        ensures
            self.legal(s, t),
        decreases n,
    {
        if self.legal(s, n - 1) {
            n - 1
        } else {
            self.lemma_some_legal(s, (n - 1) as nat)
        }
    }

    /// A call begins in a state.
    pub proof fn lemma_start_is_a_state(&self)
        requires
            self.tables(),
        ensures
            self.dfa().spec_start() < self.dfa().spec_num_states(),
    {
        self.table.dfa.lemma_start();
    }

    /// A walk ends in a state.
    pub proof fn lemma_walk_is_a_state(&self, s: int, ts: Seq<usize>)
        requires
            self.tables(),
            0 <= s < self.dfa().spec_num_states(),
        ensures
            self.walk(s, ts) matches Some(n) ==> 0 <= n < self.dfa().spec_num_states(),
        decreases ts.len(),
    {
        if ts.len() > 0 {
            self.lemma_after_is_a_state(s, ts[0] as int);
            if let Some(n) = self.after(s, ts[0] as int) {
                self.lemma_walk_is_a_state(n, ts.skip(1));
            }
        }
    }

    /// A walk with one more token.
    pub proof fn lemma_walk_push(&self, s: int, ts: Seq<usize>, t: usize)
        ensures
            self.walk(s, ts.push(t)) == match self.walk(s, ts) {
                Some(n) => self.after(n, t as int),
                None => None,
            },
        decreases ts.len(),
    {
        let us = ts.push(t);
        if ts.len() == 0 {
            assert(us.skip(1).len() == 0);
            if let Some(n) = self.after(s, t as int) {
                assert(self.walk(n, us.skip(1)) == Some(n));
            }
        } else {
            assert(us.skip(1) =~= ts.skip(1).push(t));
            if let Some(n) = self.after(s, ts[0] as int) {
                self.lemma_walk_push(n, ts.skip(1), t);
            }
        }
    }

    proof fn lemma_forced_push(&self, s: int, run: Seq<usize>, t: usize)
        requires
            self.forced_from(s, run),
            self.walk(s, run) matches Some(n) && self.sole(n, t as int),
        ensures
            self.forced_from(s, run.push(t)),
    {
        let longer = run.push(t);
        assert forall|i: int| 0 <= i < longer.len() implies #[trigger] self.forced_there(
            s,
            longer,
            i,
        ) by {
            assert(longer.take(i) =~= run.take(i));
            if i == run.len() {
                assert(run.take(i) =~= run);
            } else {
                assert(self.forced_there(s, run, i));
            }
        }
    }

    /// What several tokens spell together.
    pub open spec fn spelling_of(&self, ts: Seq<usize>) -> Seq<Sym>
        decreases ts.len(),
    {
        if ts.len() == 0 {
            Seq::empty()
        } else {
            self.spelling(ts[0] as int) + self.spelling_of(ts.skip(1))
        }
    }

    /// Walking tokens is running what they spell: taking several tokens at once
    /// and taking them one at a time lead to the same state.
    pub proof fn law_walk_is_run(&self, s: int, ts: Seq<usize>)
        requires
            self.walk(s, ts) is Some,
        ensures
            self.dfa().run(s, self.spelling_of(ts)) == self.walk(s, ts),
        decreases ts.len(),
    {
        if ts.len() > 0 {
            let n = self.after(s, ts[0] as int).unwrap();
            self.law_walk_is_run(n, ts.skip(1));
            self.dfa().lemma_run_concat(
                s,
                self.spelling(ts[0] as int),
                self.spelling_of(ts.skip(1)),
            );
        }
    }

    /// A forced run is what the grammar alone determines: whatever tokens are
    /// taken from that state, as many of them as the run holds are the run.
    pub proof fn law_forced_run_is_determined(&self, s: int, run: Seq<usize>, ts: Seq<usize>)
        requires
            self.forced_from(s, run),
            self.walk(s, ts) is Some,
            run.len() <= ts.len(),
        ensures
            ts.take(run.len() as int) == run,
        decreases run.len(),
    {
        if run.len() > 0 {
            let k = run.len() - 1;
            let shorter = run.take(k);
            assert forall|i: int| 0 <= i < shorter.len() implies #[trigger] self.forced_there(
                s,
                shorter,
                i,
            ) by {
                assert(shorter.take(i) =~= run.take(i));
                assert(self.forced_there(s, run, i));
            }
            self.law_forced_run_is_determined(s, shorter, ts);
            assert(self.forced_there(s, run, k));
            self.lemma_walk_prefix(s, ts, k);
            assert(ts.take(k) =~= shorter);
            assert(ts[k] == run[k]);
            assert(ts.take(run.len() as int) =~= run);
        } else {
            assert(ts.take(0) =~= run);
        }
    }

    /// A walk goes through a walk over its first tokens and takes the next.
    proof fn lemma_walk_prefix(&self, s: int, ts: Seq<usize>, k: int)
        requires
            0 <= k < ts.len(),
            self.walk(s, ts) is Some,
        ensures
            self.walk(s, ts.take(k)) matches Some(n) && self.legal(n, ts[k] as int),
        decreases ts.len(),
    {
        if k > 0 {
            let n = self.after(s, ts[0] as int).unwrap();
            self.lemma_walk_prefix(n, ts.skip(1), k - 1);
            assert(ts.skip(1).take(k - 1) =~= ts.take(k).skip(1));
            assert(ts.take(k)[0] == ts[0]);
        }
    }
}

/// Masking takes away what may not stand and nothing else: a token that may stand keeps
/// its logit, any other gets the bits of negative infinity.
pub proof fn law_masking_keeps_what_may_stand(c: Constraint, s: int, logits: Seq<u32>, t: int)
    requires
        0 <= t < logits.len(),
    ensures
        c.masked(s, logits).len() == logits.len(),
        c.masked(s, logits)[t] == if c.after(s, t) is Some {
            logits[t]
        } else {
            0xff80_0000
        },
        c.masked(s, c.masked(s, logits)) == c.masked(s, logits),
{
    assert(c.masked(s, c.masked(s, logits)) =~= c.masked(s, logits));
}

/// A token spells its bytes, one symbol each; the three delimiters alone are symbols of
/// their own, and no two delimiters are one symbol.
pub proof fn law_delimiters_are_symbols(bytes: Seq<u8>, t: int)
    requires
        0 <= t <= u32::MAX,
    ensures
        t != 48 && t != 49 && t != 52 ==> token_word(bytes, t) == byte_syms(bytes),
        t == 48 || t == 49 || t == 52 ==> token_word(bytes, t) == seq![Sym::Tok(t as u32)],
{
}

} // verus!
