//! Encoding and decoding.
use vstd::prelude::*;
use vstd::utf8::encode_utf8;
use crate::lossy::{decode_lossy, lossy};
use crate::text::{chars_of, replace_char, replaced, slice_chars, text_of};
use crate::tokenizer::model::Tokenizer;

verus! {

// ---------------------------------------------------------------- merging
/// The texts of some parts.
pub open spec fn part_texts(parts: Seq<String>) -> Seq<Seq<char>> {
    parts.map_values(|p: String| p@)
}

/// One part per character.
pub open spec fn char_parts(s: Seq<char>) -> Seq<Seq<char>> {
    s.map_values(|c: char| seq![c])
}

/// The parts with part `i` and the next one made one.
pub open spec fn merge_at(parts: Seq<Seq<char>>, i: int) -> Seq<Seq<char>> {
    parts.take(i).push(parts[i] + parts[i + 1]) + parts.skip(i + 2)
}

impl Tokenizer {
    /// The merge rank of part `i` with the next one.
    pub open spec fn rank_at(&self, parts: Seq<Seq<char>>, i: int) -> Option<u32> {
        if 0 <= i < parts.len() - 1 {
            self.rank(parts[i], parts[i + 1])
        } else {
            None
        }
    }

    /// Whether the pair at `i` merges first: no pair ranks lower, and none to its
    /// left ranks the same.
    pub open spec fn merges_first(&self, parts: Seq<Seq<char>>, i: int) -> bool {
        &&& self.rank_at(parts, i) is Some
        &&& forall|j: int|
            (#[trigger] self.rank_at(parts, j)) is Some ==> self.rank_at(parts, i).unwrap()
                < self.rank_at(parts, j).unwrap() || (self.rank_at(parts, i).unwrap()
                == self.rank_at(parts, j).unwrap() && i <= j)
    }

    /// The parts after every merge, the first ones first.
    pub open spec fn merged(&self, parts: Seq<Seq<char>>) -> Seq<Seq<char>>
        decreases parts.len(),
    {
        if exists|i: int| self.merges_first(parts, i) {
            let i = choose|i: int| self.merges_first(parts, i);
            if 0 <= i < parts.len() - 1 {
                self.merged(merge_at(parts, i))
            } else {
                parts
            }
        } else {
            parts
        }
    }

    proof fn lemma_merged_step(&self, parts: Seq<Seq<char>>, i: int)
        requires
            self.merges_first(parts, i),
        ensures
            self.merged(parts) == self.merged(merge_at(parts, i)),
    {
        let j = choose|j: int| self.merges_first(parts, j);
        assert(self.rank_at(parts, i) is Some);
        assert(self.rank_at(parts, j) is Some);
        assert(i == j);
    }

    /// The pair that merges first.
    fn first_merge(&self, parts: &Vec<String>) -> (r: Option<usize>)
        ensures
            match r {
                Some(i) => i + 1 < parts@.len() && self.merges_first(
                    part_texts(parts@),
                    i as int,
                ),
                None => forall|i: int| self.rank_at(part_texts(parts@), i) is None,
            },
    {
        let ghost ps = part_texts(parts@);
        let mut best: Option<(u32, usize)> = None;
        let mut i: usize = 0;
        while i < parts.len() && i + 1 < parts.len()
            invariant
                i <= parts@.len(),
                ps == part_texts(parts@),
                match best {
                    Some((r, k)) => {
                        &&& k < i
                        &&& self.rank_at(ps, k as int) == Some(r)
                        &&& forall|j: int|
                            j < i && (#[trigger] self.rank_at(ps, j)) is Some ==> r < self.rank_at(
                                ps,
                                j,
                            ).unwrap() || (r == self.rank_at(ps, j).unwrap() && k <= j)
                    },
                    None => forall|j: int| j < i ==> (#[trigger] self.rank_at(ps, j)) is None,
                },
            decreases parts@.len() - i,
        {
            proof {
                assert(self.rank_at(ps, i as int) == self.rank(
                    parts@[i as int]@,
                    parts@[i + 1]@,
                ));
            }
            if let Some(r) = self.rank_of(parts[i].as_str(), parts[i + 1].as_str()) {
                let better: bool = match best {
                    Some((b, _)) => r < b,
                    None => true,
                };
                if better {
                    best = Some((r, i));
                }
            }
            i += 1;
        }
        match best {
            Some((_, k)) => Some(k),
            None => None,
        }
    }

    /// Merges until no pair has a rank.
    fn merge_all(&self, start: Vec<String>) -> (parts: Vec<String>)
        ensures
            part_texts(parts@) == self.merged(part_texts(start@)),
    {
        let mut parts = start;
        loop
            invariant
                self.merged(part_texts(parts@)) == self.merged(part_texts(start@)),
            ensures
                part_texts(parts@) == self.merged(part_texts(start@)),
            decreases parts@.len(),
        {
            let ghost p0 = part_texts(parts@);
            match self.first_merge(&parts) {
                Some(i) => {
                    proof {
                        self.lemma_merged_step(p0, i as int);
                    }
                    let len: usize = parts.len();
                    assert(i + 1 < len);
                    let mut joined = parts[i].clone();
                    joined.append(parts[i + 1].as_str());
                    parts.set(i, joined);
                    parts.remove(i + 1);
                    proof {
                        assert(part_texts(parts@) =~= merge_at(p0, i as int));
                    }
                },
                None => {
                    proof {
                        assert forall|i: int| !self.merges_first(p0, i) by {
                            assert(self.rank_at(p0, i) is None);
                        }
                    }
                    break;
                },
            }
        }
        parts
    }
}

// ---------------------------------------------------------------- ids
/// An upper-case hexadecimal digit.
pub open spec fn hex_digit(n: int) -> char {
    if n < 10 {
        (48 + n) as char
    } else {
        (55 + n) as char
    }
}

/// The token that stands for a byte: `<0x41>` for 0x41.
pub open spec fn byte_token(b: u8) -> Seq<char> {
    seq!['<', '0', 'x', hex_digit(b as int / 16), hex_digit(b as int % 16), '>']
}

fn hex_char(n: u8) -> (c: char)
    requires
        n < 16,
    ensures
        c == hex_digit(n as int),
{
    if n < 10 {
        (48 + n) as char
    } else {
        (55 + n) as char
    }
}

fn byte_name(b: u8) -> (r: String)
    ensures
        r@ == byte_token(b),
{
    let mut r = String::new();
    r.push('<');
    r.push('0');
    r.push('x');
    r.push(hex_char(b / 16));
    r.push(hex_char(b % 16));
    r.push('>');
    assert(r@ =~= byte_token(b));
    r
}

impl Tokenizer {
    /// The ids of the byte tokens that there are for some bytes.
    pub open spec fn byte_ids(&self, b: Seq<u8>) -> Seq<u32>
        decreases b.len(),
    {
        if b.len() == 0 {
            Seq::empty()
        } else if self.ids().contains_key(byte_token(b.last())) {
            self.byte_ids(b.drop_last()).push(self.ids()[byte_token(b.last())])
        } else {
            self.byte_ids(b.drop_last())
        }
    }

    /// The ids of one part: its own id, or those of its bytes where it has none.
    pub open spec fn part_ids(&self, p: Seq<char>) -> Seq<u32> {
        if self.ids().contains_key(p) {
            seq![self.ids()[p]]
        } else {
            self.byte_ids(encode_utf8(p))
        }
    }

    /// The ids of several parts.
    pub open spec fn parts_ids(&self, parts: Seq<Seq<char>>) -> Seq<u32>
        decreases parts.len(),
    {
        if parts.len() == 0 {
            Seq::empty()
        } else {
            self.parts_ids(parts.drop_last()) + self.part_ids(parts.last())
        }
    }

    /// The ids of a text that holds no control string: the id of the whole text
    /// if it has one, else those of the parts that its characters merge to.
    pub open spec fn bpe_ids(&self, text: Seq<char>) -> Seq<u32> {
        let norm = replaced(text, ' ', '\u{2581}');
        if text.len() == 0 {
            Seq::empty()
        } else if self.ids().contains_key(norm) {
            seq![self.ids()[norm]]
        } else {
            self.parts_ids(self.merged(char_parts(norm)))
        }
    }

    /// Whether control string `k` stands at `i`.
    pub open spec fn control_stands(&self, cs: Seq<char>, i: int, k: int) -> bool {
        let c = self.controls()[k].0;
        c.len() > 0 && i + c.len() <= cs.len() && cs.subrange(i, i + c.len()) == c
    }

    /// Whether control string `k` is the first one that stands at `i`.
    pub open spec fn control_at(&self, cs: Seq<char>, i: int, k: int) -> bool {
        &&& 0 <= k < self.controls().len()
        &&& self.control_stands(cs, i, k)
        &&& forall|j: int| 0 <= j < k ==> !#[trigger] self.control_stands(cs, i, j)
    }

    /// The ids of a text from `start` on, where no control string stands before
    /// `i`: the text is cut at its control strings, each of which is one id.
    pub open spec fn ids_from(&self, cs: Seq<char>, start: int, i: int) -> Seq<u32>
        decreases cs.len() - i,
    {
        if i >= cs.len() {
            self.bpe_ids(cs.subrange(start, cs.len() as int))
        } else if exists|k: int| self.control_at(cs, i, k) {
            let k = choose|k: int| self.control_at(cs, i, k);
            let next = i + self.controls()[k].0.len();
            if next > i {
                self.bpe_ids(cs.subrange(start, i)) + seq![self.controls()[k].1] + self.ids_from(
                    cs,
                    next,
                    next,
                )
            } else {
                Seq::empty()
            }
        } else {
            self.ids_from(cs, start, i + 1)
        }
    }

    /// The ids of a text.
    pub open spec fn text_ids(&self, text: Seq<char>) -> Seq<u32> {
        self.ids_from(text, 0, 0)
    }

    /// The ids of a text, behind the id that begins a sequence or without it.
    pub open spec fn encoded(&self, text: Seq<char>, add_bos: bool) -> Seq<u32> {
        if add_bos {
            seq![self.bos_id()] + self.text_ids(text)
        } else {
            self.text_ids(text)
        }
    }

    fn push_part(&self, p: &String, out: &mut Vec<u32>)
        ensures
            final(out)@ == old(out)@ + self.part_ids(p@),
    {
        match self.id_of(p.as_str()) {
            Some(id) => {
                out.push(id);
                assert(out@ =~= old(out)@ + self.part_ids(p@));
            },
            None => {
                let b = p.as_str().as_bytes();
                let mut i: usize = 0;
                proof {
                    assert(out@ =~= old(out)@ + self.byte_ids(b@.take(0)));
                }
                while i < b.len()
                    invariant
                        i <= b@.len(),
                        out@ == old(out)@ + self.byte_ids(b@.take(i as int)),
                    decreases b@.len() - i,
                {
                    proof {
                        assert(b@.take(i + 1).drop_last() =~= b@.take(i as int));
                    }
                    let name = byte_name(b[i]);
                    if let Some(id) = self.id_of(name.as_str()) {
                        out.push(id);
                    }
                    proof {
                        assert(out@ =~= old(out)@ + self.byte_ids(b@.take(i + 1)));
                    }
                    i += 1;
                }
                proof {
                    assert(b@.take(i as int) =~= b@);
                }
            },
        }
    }

    /// Appends the ids of a text that holds no control string.
    fn bpe(&self, text: &str, out: &mut Vec<u32>)
        ensures
            final(out)@ == old(out)@ + self.bpe_ids(text@),
    {
        if text.is_empty() {
            assert(out@ =~= old(out)@ + self.bpe_ids(text@));
            return;
        }
        let norm = replace_char(text, ' ', '\u{2581}');
        if let Some(id) = self.id_of(norm.as_str()) {
            out.push(id);
            assert(out@ =~= old(out)@ + self.bpe_ids(text@));
            return;
        }
        let cs = chars_of(norm.as_str());
        let mut start: Vec<String> = Vec::new();
        let mut i: usize = 0;
        while i < cs.len()
            invariant
                i <= cs@.len(),
                start@.len() == i,
                forall|k: int| 0 <= k < i ==> (#[trigger] start@[k])@ == seq![cs@[k]],
            decreases cs@.len() - i,
        {
            let mut one = String::new();
            one.push(cs[i]);
            assert(one@ =~= seq![cs@[i as int]]);
            start.push(one);
            i += 1;
        }
        proof {
            assert(part_texts(start@) =~= char_parts(norm@));
        }
        let parts = self.merge_all(start);
        let ghost ps = part_texts(parts@);
        let mut i: usize = 0;
        proof {
            assert(out@ =~= old(out)@ + self.parts_ids(ps.take(0)));
        }
        while i < parts.len()
            invariant
                i <= parts@.len(),
                ps == part_texts(parts@),
                out@ == old(out)@ + self.parts_ids(ps.take(i as int)),
            decreases parts@.len() - i,
        {
            let ghost out0 = out@;
            self.push_part(&parts[i], out);
            proof {
                assert(ps.take(i + 1).drop_last() =~= ps.take(i as int));
                assert(out@ =~= old(out)@ + self.parts_ids(ps.take(i + 1)));
            }
            i += 1;
        }
        proof {
            assert(ps.take(i as int) =~= ps);
        }
    }

    /// The first control string that stands at a position.
    fn find_control(&self, controls: &Vec<(Vec<char>, u32)>, cs: &Vec<char>, i: usize) -> (r: Option<
        usize,
    >)
        requires
            i <= cs@.len(),
            controls@.len() == self.controls().len(),
            forall|k: int|
                0 <= k < controls@.len() ==> ((#[trigger] controls@[k]).0@, controls@[k].1)
                    == self.controls()[k],
        ensures
            match r {
                Some(k) => self.control_at(cs@, i as int, k as int),
                None => forall|k: int| !self.control_at(cs@, i as int, k),
            },
    {
        let mut k: usize = 0;
        while k < controls.len()
            invariant
                i <= cs@.len(),
                k <= controls@.len(),
                controls@.len() == self.controls().len(),
                forall|k: int|
                    0 <= k < controls@.len() ==> ((#[trigger] controls@[k]).0@, controls@[k].1)
                        == self.controls()[k],
                forall|j: int|
                    0 <= j < k ==> !#[trigger] self.control_stands(cs@, i as int, j),
            decreases controls@.len() - k,
        {
            let c = &controls[k].0;
            proof {
                assert((controls@[k as int].0@, controls@[k as int].1) == self.controls()[k as int]);
            }
            let room: usize = cs.len() - i;
            if c.len() > 0 && c.len() <= room {
                let mut j: usize = 0;
                while j < c.len() && cs[i + j] == c[j]
                    invariant
                        j <= c@.len(),
                        c@.len() <= room,
                        i + room == cs.len(),
                        forall|x: int| 0 <= x < j ==> cs@[i + x] == c@[x],
                    decreases c@.len() - j,
                {
                    j += 1;
                }
                proof {
                    let sub = cs@.subrange(i as int, i + c@.len());
                    if j == c@.len() {
                        assert(sub =~= c@);
                    } else {
                        assert(sub[j as int] == cs@[i + j]);
                    }
                }
                if j == c.len() {
                    return Some(k);
                }
            }
            k += 1;
        }
        None
    }

    fn encode_into(&self, text: &str, out: &mut Vec<u32>)
        ensures
            final(out)@ == old(out)@ + self.text_ids(text@),
    {
        let cs = chars_of(text);
        let controls = self.control_chars();
        let mut start: usize = 0;
        let mut i: usize = 0;
        while i < cs.len()
            invariant
                start <= i <= cs@.len(),
                cs@ == text@,
                controls@.len() == self.controls().len(),
                forall|k: int|
                    0 <= k < controls@.len() ==> ((#[trigger] controls@[k]).0@, controls@[k].1)
                        == self.controls()[k],
                out@ + self.ids_from(cs@, start as int, i as int) == old(out)@ + self.text_ids(
                    text@,
                ),
            decreases cs@.len() - i,
        {
            let ghost out0 = out@;
            match self.find_control(&controls, &cs, i) {
                Some(k) => {
                    proof {
                        let j = choose|j: int| self.control_at(cs@, i as int, j);
                        assert(j == k) by {
                            if j < k {
                                assert(!self.control_stands(cs@, i as int, j));
                            } else if k < j {
                                assert(!self.control_stands(cs@, i as int, k as int));
                            }
                        }
                        assert((controls@[k as int].0@, controls@[k as int].1)
                            == self.controls()[k as int]);
                    }
                    let chunk = slice_chars(&cs, start, i);
                    let piece = text_of(chunk.as_slice());
                    self.bpe(piece.as_str(), out);
                    out.push(controls[k].1);
                    i += controls[k].0.len();
                    start = i;
                    proof {
                        assert(out@ + self.ids_from(cs@, start as int, i as int) =~= old(out)@
                            + self.text_ids(text@));
                    }
                },
                None => {
                    i += 1;
                },
            }
        }
        let chunk = slice_chars(&cs, start, cs.len());
        let piece = text_of(chunk.as_slice());
        self.bpe(piece.as_str(), out);
    }

    /// Encodes text. `add_bos` puts the id that begins a sequence in front, which
    /// a raw prompt does not carry.
    pub fn encode(&self, text: &str, add_bos: bool) -> (out: Vec<u32>)
        ensures
            out@ == self.encoded(text@, add_bos),
    {
        let mut out: Vec<u32> = Vec::new();
        if add_bos {
            out.push(self.first_id());
        }
        let ghost out0 = out@;
        self.encode_into(text, &mut out);
        proof {
            if add_bos {
                assert(out0 =~= seq![self.bos_id()]);
            } else {
                assert(out@ =~= self.text_ids(text@));
            }
        }
        out
    }

    // ---------------------------------------------------------------- decoding
    /// The bytes that one id decodes to.
    pub open spec fn id_bytes(&self, id: u32, skip_special: bool) -> Seq<u8> {
        if id >= self.size() {
            Seq::empty()
        } else {
            match self.byte_of(id as int) {
                Some(b) => seq![b],
                None => match self.piece(id as int) {
                    Some(p) => if skip_special && self.control_id(id) {
                        Seq::empty()
                    } else {
                        encode_utf8(p)
                    },
                    None => Seq::empty(),
                },
            }
        }
    }

    /// The bytes that several ids decode to.
    pub open spec fn ids_bytes(&self, ids: Seq<u32>, skip_special: bool) -> Seq<u8>
        decreases ids.len(),
    {
        if ids.len() == 0 {
            Seq::empty()
        } else {
            self.ids_bytes(ids.drop_last(), skip_special) + self.id_bytes(ids.last(), skip_special)
        }
    }

    /// Decodes ids to text. The bytes of all ids are put together before they are
    /// read as text: a character may be split across several byte tokens.
    pub fn decode(&self, ids: &[u32], skip_special: bool) -> (r: String)
        requires
            self.wf(),
        ensures
            r@ == lossy(self.ids_bytes(ids@, skip_special)),
    {
        let mut out: Vec<u8> = Vec::new();
        let mut i: usize = 0;
        while i < ids.len()
            invariant
                self.wf(),
                i <= ids@.len(),
                out@ == self.ids_bytes(ids@.take(i as int), skip_special),
            decreases ids@.len() - i,
        {
            let id: u32 = ids[i];
            let ghost out0 = out@;
            proof {
                assert(ids@.take(i + 1).drop_last() =~= ids@.take(i as int));
            }
            if let Some((b, p)) = self.lookup(id) {
                if let Some(b) = b {
                    out.push(b);
                } else if let Some(p) = p {
                    if !(skip_special && self.is_control(id)) {
                        out.extend_from_slice(p.as_str().as_bytes());
                    }
                }
            }
            proof {
                assert(out@ =~= out0 + self.id_bytes(id, skip_special));
            }
            i += 1;
        }
        proof {
            assert(ids@.take(i as int) =~= ids@);
        }
        decode_lossy(out.as_slice())
    }
}

} // verus!
