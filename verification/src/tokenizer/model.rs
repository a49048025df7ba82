//! What a tokenizer knows.
use vstd::hash_map::StringHashMap;
use vstd::prelude::*;
use crate::text::{decimal, decimal_text, lemma_decimal};

verus! {

/// The tables of a tokenizer.
pub struct Table {
    /// token string -> id, for the whole vocabulary
    pub(crate) vocab: StringHashMap<u32>,
    /// key of a pair -> merge rank; lower merges first
    pub(crate) ranks: StringHashMap<u32>,
    /// id -> decoded text; `None` for a byte-fallback token
    pub(crate) pieces: Vec<Option<String>>,
    /// id -> raw byte for `<0xNN>` tokens
    pub(crate) byte_val: Vec<Option<u8>>,
    /// literal control strings matched before merging, longest first
    pub(crate) added: Vec<(String, u32)>,
}

/// A byte-pair tokenizer with byte fallback.
pub struct Tokenizer {
    pub table: Table,
    /// the id that begins a sequence
    pub bos: u32,
    /// the ids that end a sequence
    pub eos: Vec<u32>,
}

/// A pair as one string: the length of the left part, a colon, and both parts.
pub open spec fn pair_key(left: Seq<char>, right: Seq<char>) -> Seq<char> {
    decimal(left.len()) + seq![':'] + left + right
}

/// Different pairs have different keys.
pub proof fn lemma_pair_key(l1: Seq<char>, r1: Seq<char>, l2: Seq<char>, r2: Seq<char>)
    requires
        pair_key(l1, r1) == pair_key(l2, r2),
    ensures
        l1 == l2,
        r1 == r2,
{
    let d1 = decimal(l1.len());
    let d2 = decimal(l2.len());
    let k1 = pair_key(l1, r1);
    let k2 = pair_key(l2, r2);
    lemma_decimal(l1.len());
    lemma_decimal(l2.len());
    let n1 = d1.len() as int;
    let n2 = d2.len() as int;
    assert(k1[n1] == ':');
    assert(k2[n2] == ':');
    if n1 < n2 {
        assert(k2[n1] == d2[n1]);
    } else if n2 < n1 {
        assert(k1[n2] == d1[n2]);
    }
    assert(d1 =~= d2) by {
        assert forall|i: int| 0 <= i < n1 implies d1[i] == d2[i] by {
            assert(k1[i] == d1[i]);
            assert(k2[i] == d2[i]);
        }
    }
    let l = l1.len() as int;
    assert(l1 =~= l2) by {
        assert forall|i: int| 0 <= i < l implies l1[i] == l2[i] by {
            assert(k1[n1 + 1 + i] == l1[i]);
            assert(k2[n1 + 1 + i] == l2[i]);
        }
    }
    assert(r1 =~= r2) by {
        assert(k1.len() == k2.len());
        assert forall|i: int| 0 <= i < r1.len() implies r1[i] == r2[i] by {
            assert(k1[n1 + 1 + l + i] == r1[i]);
            assert(k2[n1 + 1 + l + i] == r2[i]);
        }
    }
}

/// The key of a pair.
pub(crate) fn key_of(left: &str, right: &str) -> (r: String)
    ensures
        r@ == pair_key(left@, right@),
{
    let cs = crate::text::chars_of(left);
    let mut r = decimal_text(cs.len() as u64);
    r.push(':');
    r.append(left);
    r.append(right);
    assert(r@ =~= pair_key(left@, right@));
    r
}

impl Tokenizer {
    /// The id of each token string.
    pub closed spec fn ids(&self) -> Map<Seq<char>, u32> {
        self.table.vocab@
    }

    /// The merge rank of a pair.
    pub closed spec fn rank(&self, left: Seq<char>, right: Seq<char>) -> Option<u32> {
        if self.table.ranks@.contains_key(pair_key(left, right)) {
            Some(self.table.ranks@[pair_key(left, right)])
        } else {
            None
        }
    }

    /// The number of ids.
    pub closed spec fn size(&self) -> nat {
        self.table.pieces@.len()
    }

    /// The text that an id decodes to.
    pub closed spec fn piece(&self, id: int) -> Option<Seq<char>> {
        match self.table.pieces@[id] {
            Some(s) => Some(s@),
            None => None,
        }
    }

    /// The byte that an id decodes to.
    pub closed spec fn byte_of(&self, id: int) -> Option<u8> {
        self.table.byte_val@[id]
    }

    /// The control strings and their ids, in the order in which they are tried.
    pub closed spec fn controls(&self) -> Seq<(Seq<char>, u32)> {
        control_view(self.table.added@)
    }

    /// The id that begins a sequence.
    pub open spec fn bos_id(&self) -> u32 {
        self.bos
    }

    /// The ids that end a sequence.
    pub open spec fn eos_ids(&self) -> Seq<u32> {
        self.eos@
    }

    /// Whether there is an entry for the text and the byte of each id.
    pub closed spec fn wf(&self) -> bool {
        self.table.pieces@.len() == self.table.byte_val@.len()
    }

    /// The id that begins a sequence.
    pub(crate) fn first_id(&self) -> (id: u32)
        ensures
            id == self.bos_id(),
    {
        self.bos
    }

    /// Whether an id ends a sequence.
    pub fn is_eos(&self, id: u32) -> (r: bool)
        ensures
            r == self.eos_ids().contains(id),
    {
        let mut i: usize = 0;
        while i < self.eos.len()
            invariant
                i <= self.eos@.len(),
                forall|k: int| 0 <= k < i ==> self.eos@[k] != id,
            decreases self.eos@.len() - i,
        {
            if self.eos[i] == id {
                assert(self.eos@.contains(id));
                return true;
            }
            i += 1;
        }
        false
    }

    /// The merge rank of a pair.
    pub(crate) fn rank_of(&self, left: &str, right: &str) -> (r: Option<u32>)
        ensures
            r == self.rank(left@, right@),
    {
        let key = key_of(left, right);
        match self.table.ranks.get(key.as_str()) {
            Some(r) => Some(*r),
            None => None,
        }
    }

    /// The id of a token string.
    pub(crate) fn id_of(&self, token: &str) -> (r: Option<u32>)
        ensures
            match r {
                Some(id) => self.ids().contains_key(token@) && self.ids()[token@] == id,
                None => !self.ids().contains_key(token@),
            },
    {
        match self.table.vocab.get(token) {
            Some(id) => Some(*id),
            None => None,
        }
    }

    /// The control strings, character by character, and their ids.
    pub(crate) fn control_chars(&self) -> (r: Vec<(Vec<char>, u32)>)
        ensures
            r@.len() == self.controls().len(),
            forall|i: int|
                0 <= i < r@.len() ==> ((#[trigger] r@[i]).0@, r@[i].1) == self.controls()[i],
    {
        let mut r: Vec<(Vec<char>, u32)> = Vec::new();
        let mut i: usize = 0;
        while i < self.table.added.len()
            invariant
                i <= self.table.added@.len(),
                r@.len() == i,
                forall|k: int|
                    0 <= k < i ==> ((#[trigger] r@[k]).0@, r@[k].1) == self.controls()[k],
            decreases self.table.added@.len() - i,
        {
            let cs = crate::text::chars_of(self.table.added[i].0.as_str());
            r.push((cs, self.table.added[i].1));
            i += 1;
        }
        r
    }

    /// Whether an id belongs to a control string.
    pub(crate) fn is_control(&self, id: u32) -> (r: bool)
        ensures
            r == self.control_id(id),
    {
        let mut i: usize = 0;
        while i < self.table.added.len()
            invariant
                i <= self.table.added@.len(),
                forall|k: int| 0 <= k < i ==> (#[trigger] self.controls()[k]).1 != id,
            decreases self.table.added@.len() - i,
        {
            proof {
                assert(self.controls()[i as int].1 == self.table.added@[i as int].1);
            }
            if self.table.added[i].1 == id {
                return true;
            }
            i += 1;
        }
        false
    }

    /// Whether an id belongs to a control string.
    pub open spec fn control_id(&self, id: u32) -> bool {
        exists|i: int| 0 <= i < self.controls().len() && (#[trigger] self.controls()[i]).1 == id
    }

    /// What an id decodes to, if it is one of the ids.
    pub(crate) fn lookup(&self, id: u32) -> (r: Option<(Option<u8>, Option<&String>)>)
        requires
            self.wf(),
        ensures
            match r {
                Some((b, p)) => {
                    &&& id < self.size()
                    &&& b == self.byte_of(id as int)
                    &&& match p {
                        Some(s) => self.piece(id as int) == Some(s@),
                        None => self.piece(id as int) is None,
                    }
                },
                None => id >= self.size(),
            },
    {
        let i: usize = id as usize;
        if i >= self.table.pieces.len() {
            return None;
        }
        Some((self.table.byte_val[i], self.table.pieces[i].as_ref()))
    }

    /// The number of ids.
    pub fn vocab_size(&self) -> (n: usize)
        ensures
            n == self.size(),
    {
        self.table.pieces.len()
    }
}

/// The rank that a table holds for a pair.
pub open spec fn rank_in(ranks: Map<Seq<char>, u32>, left: Seq<char>, right: Seq<char>) -> Option<
    u32,
> {
    if ranks.contains_key(pair_key(left, right)) {
        Some(ranks[pair_key(left, right)])
    } else {
        None
    }
}

/// The text of an entry that may have none.
pub open spec fn text_in(p: Option<String>) -> Option<Seq<char>> {
    match p {
        Some(s) => Some(s@),
        None => None,
    }
}

impl Tokenizer {
    /// Puts a tokenizer together from its tables.
    pub(crate) fn assemble(
        vocab: StringHashMap<u32>,
        ranks: StringHashMap<u32>,
        pieces: Vec<Option<String>>,
        byte_val: Vec<Option<u8>>,
        added: Vec<(String, u32)>,
        bos: u32,
        eos: Vec<u32>,
    ) -> (k: Tokenizer)
        requires
            pieces@.len() == byte_val@.len(),
        ensures
            k.wf(),
            k.ids() == vocab@,
            forall|left: Seq<char>, right: Seq<char>| #[trigger]
                k.rank(left, right) == rank_in(ranks@, left, right),
            k.size() == pieces@.len(),
            forall|id: int| #[trigger] k.piece(id) == text_in(pieces@[id]),
            forall|id: int| #[trigger] k.byte_of(id) == byte_val@[id],
            k.controls() == control_view(added@),
            k.bos_id() == bos,
            k.eos_ids() == eos@,
    {
        Tokenizer { table: Table { vocab, ranks, pieces, byte_val, added }, bos, eos }
    }
}

/// What a list of control strings holds.
pub open spec fn control_view(added: Seq<(String, u32)>) -> Seq<(Seq<char>, u32)> {
    added.map_values(|p: (String, u32)| (p.0@, p.1))
}

} // verus!
