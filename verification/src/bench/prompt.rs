//! Prompts as token ids: synthetic ones, and those written as text.
use vstd::prelude::*;
use crate::text::{
    chars_of, decimal, decimal_text, lemma_decimal, parse_usize, same_text, text_of, trim, trimmed,
    unsigned_value,
};

verus! {

// ---------------------------------------------------------------- synthetic prompts
/// The number of values of the generator's state.
pub const STATES: u128 = 0x1_0000_0000_0000_0000;

/// The multiplier of the generator.
pub const MULTIPLIER: u64 = 6364136223846793005;

/// The state of the generator before it gives its `i`-th token.
pub open spec fn state(seed: u64, i: nat) -> int
    decreases i,
{
    if i == 0 {
        (seed * MULTIPLIER + 1) % (STATES as int)
    } else {
        (state(seed, (i - 1) as nat) * MULTIPLIER + 1442695040888963407) % (STATES as int)
    }
}

/// The `i`-th token of a synthetic prompt.
pub open spec fn synthetic(seed: u64, i: nat) -> int {
    1000 + (state(seed, i + 1) / 0x2_0000_0000) % 200_000
}

fn turn(s: u64, more: u64) -> (n: u64)
    ensures
        n == (s * MULTIPLIER + more) % (STATES as int),
{
    let p: u64 = s.wrapping_mul(MULTIPLIER);
    let n: u64 = p.wrapping_add(more);
    proof {
        let r = STATES as int;
        let x = s * MULTIPLIER;
        assert(0 <= x) by (nonlinear_arith)
            requires
                x == s * MULTIPLIER,
        ;
        assert(p == x % r);
        vstd::arithmetic::div_mod::lemma_add_mod_noop(x, more as int, r);
        vstd::arithmetic::div_mod::lemma_small_mod(more as nat, r as nat);
        if p + more >= r {
            vstd::arithmetic::div_mod::lemma_mod_add_multiples_vanish(p + more - r, r);
            vstd::arithmetic::div_mod::lemma_small_mod((p + more - r) as nat, r as nat);
        } else {
            vstd::arithmetic::div_mod::lemma_small_mod((p + more) as nat, r as nat);
        }
    }
    n
}

/// Deterministic pseudo-random token ids, away from the special ids.
pub fn synth_tokens(n: usize, seed: u64) -> (r: Vec<u32>)
    ensures
        r@.len() == n,
        forall|i: int|
            0 <= i < n ==> #[trigger] r@[i] == synthetic(seed, i as nat) && 1000 <= r@[i] < 201_000,
{
    let mut s: u64 = turn(seed, 1);
    let mut r: Vec<u32> = Vec::new();
    while r.len() < n
        invariant
            r@.len() <= n,
            s == state(seed, r@.len()),
            forall|i: int|
                0 <= i < r@.len() ==> #[trigger] r@[i] == synthetic(seed, i as nat) && 1000 <= r@[i]
                    < 201_000,
        decreases n - r@.len(),
    {
        s = turn(s, 1442695040888963407);
        let t: u64 = (s / 0x2_0000_0000) % 200_000;
        assert(state(seed, r@.len() + 1) == s);
        r.push(1000 + t as u32);
    }
    r
}

// ---------------------------------------------------------------- lists
/// What stands between the separators of a text.
pub open spec fn pieces(s: Seq<char>, sep: char) -> Seq<Seq<char>>
    decreases s.len(),
{
    if s.len() == 0 {
        seq![Seq::empty()]
    } else {
        let before = pieces(s.drop_last(), sep);
        if s.last() == sep {
            before.push(Seq::empty())
        } else {
            before.drop_last().push(before.last().push(s.last()))
        }
    }
}

proof fn lemma_pieces(s: Seq<char>, sep: char)
    ensures
        pieces(s, sep).len() > 0,
    decreases s.len(),
{
    if s.len() > 0 {
        lemma_pieces(s.drop_last(), sep);
    }
}

/// A text is split at every separator and nowhere else: what has none is one piece,
/// and a separator parts the pieces before it from those behind it.
pub proof fn law_separators_part_the_pieces(a: Seq<char>, b: Seq<char>, sep: char)
    ensures
        !a.contains(sep) ==> pieces(a, sep) == seq![a],
        pieces(a + seq![sep] + b, sep) == pieces(a, sep) + pieces(b, sep),
    decreases a.len() + b.len(),
{
    if !a.contains(sep) {
        lemma_one_piece(a, sep);
    }
    lemma_pieces(b, sep);
    let s = a + seq![sep] + b;
    let p = pieces(a, sep);
    if b.len() == 0 {
        assert(s.drop_last() =~= a);
        assert(s.last() == sep);
        assert(pieces(s, sep) =~= p + seq![Seq::<char>::empty()]);
    } else {
        let rest = b.drop_last();
        assert(s.drop_last() =~= a + seq![sep] + rest);
        assert(s.last() == b.last());
        law_separators_part_the_pieces(a, rest, sep);
        lemma_pieces(rest, sep);
        let q = pieces(rest, sep);
        assert((p + q).last() == q.last());
        assert((p + q).drop_last() =~= p + q.drop_last());
        assert(pieces(s, sep) =~= p + pieces(b, sep));
    }
}

proof fn lemma_one_piece(a: Seq<char>, sep: char)
    requires
        !a.contains(sep),
    ensures
        pieces(a, sep) == seq![a],
    decreases a.len(),
{
    if a.len() == 0 {
        assert(a =~= Seq::empty());
    } else {
        let init = a.drop_last();
        assert(a[a.len() - 1] == a.last());
        assert(a.contains(a.last()));
        assert forall|i: int| 0 <= i < init.len() implies init[i] != sep by {
            assert(a[i] == init[i]);
        }
        lemma_one_piece(init, sep);
        assert(init.push(a.last()) =~= a);
        assert(pieces(init, sep).drop_last() =~= Seq::empty());
        assert(pieces(init, sep).last() == init);
        assert(Seq::<Seq<char>>::empty().push(a) =~= seq![a]);
    }
}

/// What several texts hold.
pub open spec fn all_chars(v: Seq<Vec<char>>) -> Seq<Seq<char>> {
    v.map_values(|c: Vec<char>| c@)
}

/// Splits a text at a separator.
pub fn split(cs: &Vec<char>, sep: char) -> (r: Vec<Vec<char>>)
    ensures
        all_chars(r@) == pieces(cs@, sep),
        r@.len() > 0,
{
    let mut r: Vec<Vec<char>> = Vec::new();
    let mut cur: Vec<char> = Vec::new();
    let mut i: usize = 0;
    assert(all_chars(r@).push(cur@) =~= pieces(cs@.take(0), sep));
    while i < cs.len()
        invariant
            i <= cs@.len(),
            all_chars(r@).push(cur@) == pieces(cs@.take(i as int), sep),
        decreases cs@.len() - i,
    {
        let ghost before = pieces(cs@.take(i as int), sep);
        let ghost r0 = r@;
        let ghost cur0 = cur@;
        assert(cs@.take(i + 1).drop_last() =~= cs@.take(i as int));
        assert(before.last() == cur0);
        assert(before.drop_last() =~= all_chars(r0));
        if cs[i] == sep {
            r.push(cur);
            cur = Vec::new();
            assert(all_chars(r@) =~= all_chars(r0).push(cur0));
        } else {
            cur.push(cs[i]);
        }
        i += 1;
        assert(all_chars(r@).push(cur@) =~= pieces(cs@.take(i as int), sep));
    }
    assert(cs@.take(i as int) =~= cs@);
    let ghost r0 = r@;
    let ghost cur0 = cur@;
    r.push(cur);
    assert(all_chars(r@) =~= all_chars(r0).push(cur0));
    r
}

/// The id that a text writes.
pub open spec fn id(s: Seq<char>) -> Option<u32> {
    match unsigned_value(s) {
        Some(n) => if n <= u32::MAX {
            Some(n as u32)
        } else {
            None
        },
        None => None,
    }
}

fn parse_id(cs: &Vec<char>) -> (r: Option<u32>)
    ensures
        r == id(cs@),
{
    let t = text_of(cs.as_slice());
    match parse_usize(t.as_str()) {
        Some(n) => if n as u64 <= u32::MAX as u64 {
            Some(n as u32)
        } else {
            None
        },
        None => None,
    }
}

/// The ids that texts write; a text that writes none is passed over.
pub open spec fn ids_among(v: Seq<Seq<char>>) -> Seq<u32>
    decreases v.len(),
{
    if v.len() == 0 {
        Seq::empty()
    } else {
        match id(v.last()) {
            Some(n) => ids_among(v.drop_last()).push(n),
            None => ids_among(v.drop_last()),
        }
    }
}

/// Whether every text writes an id.
pub open spec fn all_ids(v: Seq<Seq<char>>) -> bool {
    forall|i: int| 0 <= i < v.len() ==> id(#[trigger] v[i]) is Some
}

/// The ids in a list such as `1,106`, those that are none passed over, and
/// whether all of them are ids.
fn ids_of(cs: &Vec<char>) -> (r: (Vec<u32>, bool))
    ensures
        r.0@ == ids_among(pieces(cs@, ',')),
        r.1 == all_ids(pieces(cs@, ',')),
{
    let parts = split(cs, ',');
    let ghost all = pieces(cs@, ',');
    let mut r: Vec<u32> = Vec::new();
    let mut good = true;
    let mut i: usize = 0;
    while i < parts.len()
        invariant
            i <= parts@.len(),
            all_chars(parts@) == all,
            all.len() == parts@.len(),
            r@ == ids_among(all.take(i as int)),
            good == all_ids(all.take(i as int)),
        decreases parts@.len() - i,
    {
        assert(parts@[i as int]@ == all[i as int]);
        let ghost now = all.take(i + 1);
        let ghost was = all.take(i as int);
        assert(now.drop_last() =~= was);
        assert(now.last() == all[i as int]);
        match parse_id(&parts[i]) {
            Some(n) => {
                r.push(n);
                proof {
                    if all_ids(was) {
                        assert forall|j: int| 0 <= j < now.len() implies id(#[trigger] now[j]) is Some by {
                            if j < i {
                                assert(now[j] == was[j]);
                            }
                        }
                    } else {
                        let j = choose|j: int| 0 <= j < was.len() && id(#[trigger] was[j]) is None;
                        assert(id(now[j]) is None);
                    }
                }
            },
            None => {
                good = false;
                assert(id(now[i as int]) is None);
            },
        }
        i += 1;
    }
    assert(all.take(i as int) =~= all);
    (r, good)
}

/// The prompt that a list of ids writes, if all of it is ids.
pub fn parse_ids(s: &str) -> (r: Option<Vec<u32>>)
    ensures
        match r {
            Some(v) => writes(s@, v@),
            None => !all_ids(pieces(s@, ',')),
        },
{
    let (v, good) = ids_of(&chars_of(s));
    if good {
        Some(v)
    } else {
        None
    }
}

/// The size that a text writes.
pub open spec fn size_of(s: Seq<char>) -> Option<usize> {
    match unsigned_value(s) {
        Some(n) => if n <= usize::MAX {
            Some(n as usize)
        } else {
            None
        },
        None => None,
    }
}

/// The sizes of a list such as `128,256`, if all of it is sizes.
pub fn parse_sizes(s: &str) -> (r: Option<Vec<usize>>)
    ensures
        match r {
            Some(v) => v@.len() == pieces(s@, ',').len() && forall|i: int|
                0 <= i < v@.len() ==> size_of(#[trigger] pieces(s@, ',')[i]) == Some(v@[i]),
            None => exists|i: int|
                0 <= i < pieces(s@, ',').len() && size_of(#[trigger] pieces(s@, ',')[i]) is None,
        },
{
    let parts = split(&chars_of(s), ',');
    let ghost all = pieces(s@, ',');
    let mut v: Vec<usize> = Vec::new();
    let mut i: usize = 0;
    while i < parts.len()
        invariant
            i <= parts@.len(),
            all_chars(parts@) == all,
            all == pieces(s@, ','),
            all.len() == parts@.len(),
            v@.len() == i,
            forall|j: int| 0 <= j < i ==> size_of(#[trigger] all[j]) == Some(v@[j]),
        decreases parts@.len() - i,
    {
        assert(parts@[i as int]@ == all[i as int]);
        let t = text_of(parts[i].as_slice());
        match parse_usize(t.as_str()) {
            Some(n) => {
                v.push(n);
            },
            None => {
                assert(size_of(all[i as int]) is None);
                return None;
            },
        }
        i += 1;
    }
    Some(v)
}

/// The tokens that end an output: those of a list, or `1` and `106`.
pub fn end_ids(s: Option<&str>) -> (r: Vec<u32>)
    ensures
        r@ == match s {
            Some(t) => ids_among(pieces(t@, ',')),
            None => seq![1u32, 106u32],
        },
{
    match s {
        Some(t) => {
            let (v, good) = ids_of(&chars_of(t));
            v
        },
        None => vec![1u32, 106u32],
    }
}

/// The number that a setting states, or `default`.
pub fn number_or(s: Option<&str>, default: usize) -> (n: usize)
    ensures
        n == match s {
            Some(t) => match unsigned_value(t@) {
                Some(v) => if v <= usize::MAX {
                    v as int
                } else {
                    default as int
                },
                None => default as int,
            },
            None => default as int,
        },
{
    match s {
        Some(t) => match parse_usize(t) {
            Some(n) => n,
            None => default,
        },
        None => default,
    }
}

/// The lines of a text that hold something, without the white space around them.
pub open spec fn filled(lines: Seq<Seq<char>>) -> Seq<Seq<char>>
    decreases lines.len(),
{
    if lines.len() == 0 {
        Seq::empty()
    } else {
        let t = trimmed(lines.last());
        if t.len() == 0 {
            filled(lines.drop_last())
        } else {
            filled(lines.drop_last()).push(t)
        }
    }
}

/// Whether a line writes these ids.
pub open spec fn writes(line: Seq<char>, ids: Seq<u32>) -> bool {
    all_ids(pieces(line, ',')) && ids == ids_among(pieces(line, ','))
}

/// Whether prompts are what lines write.
pub open spec fn prompts_right(lines: Seq<Seq<char>>, v: Seq<Vec<u32>>) -> bool {
    &&& v.len() == lines.len()
    &&& forall|i: int| 0 <= i < v.len() ==> #[trigger] writes(lines[i], v[i]@)
}

/// The prompts of a file, one for each line that holds something; nothing where
/// a line is not a list of ids.
pub fn parse_prompts(s: &str) -> (r: Option<Vec<Vec<u32>>>)
    ensures
        match r {
            Some(v) => prompts_right(filled(pieces(s@, '\n')), v@),
            None => exists|i: int|
                0 <= i < filled(pieces(s@, '\n')).len() && !all_ids(
                    pieces(#[trigger] filled(pieces(s@, '\n'))[i], ','),
                ),
        },
{
    let lines = split(&chars_of(s), '\n');
    let ghost all = pieces(s@, '\n');
    let mut r: Vec<Vec<u32>> = Vec::new();
    let mut bad: bool = false;
    let mut i: usize = 0;
    while i < lines.len()
        invariant
            i <= lines@.len(),
            all_chars(lines@) == all,
            all.len() == lines@.len(),
            !bad ==> prompts_right(filled(all.take(i as int)), r@),
            bad ==> exists|k: int|
                0 <= k < filled(all.take(i as int)).len() && !all_ids(
                    pieces(#[trigger] filled(all.take(i as int))[k], ','),
                ),
        decreases lines@.len() - i,
    {
        assert(lines@[i as int]@ == all[i as int]);
        let ghost was = filled(all.take(i as int));
        let ghost now = filled(all.take(i + 1));
        assert(all.take(i + 1).drop_last() =~= all.take(i as int));
        assert(all.take(i + 1).last() == all[i as int]);
        let t = trim(&lines[i]);
        if t.len() > 0 {
            assert(now == was.push(t@));
            let (ids, good) = ids_of(&t);
            if !good {
                assert(!all_ids(pieces(now[was.len() as int], ',')));
                bad = true;
            } else if bad {
                proof {
                    let k = choose|k: int|
                        0 <= k < was.len() && !all_ids(pieces(#[trigger] was[k], ','));
                    assert(!all_ids(pieces(now[k], ',')));
                }
            } else {
                let ghost r0 = r@;
                r.push(ids);
                assert forall|k: int| 0 <= k < r@.len() implies #[trigger] writes(
                    now[k],
                    r@[k]@,
                ) by {
                    if k < r0.len() {
                        assert(writes(was[k], r0[k]@));
                    }
                }
            }
        } else {
            assert(now == was);
        }
        i += 1;
    }
    assert(all.take(i as int) =~= all);
    if bad {
        None
    } else {
        Some(r)
    }
}

/// How a list of ids is written.
pub open spec fn written(ids: Seq<u32>) -> Seq<char>
    decreases ids.len(),
{
    if ids.len() == 0 {
        Seq::empty()
    } else if ids.len() == 1 {
        decimal(ids[0] as nat)
    } else {
        written(ids.drop_last()) + ","@ + decimal(ids.last() as nat)
    }
}

/// Writes a list of ids.
pub fn id_list(ids: &Vec<u32>) -> (s: String)
    ensures
        s@ == written(ids@),
{
    let mut s = String::new();
    let mut i: usize = 0;
    assert(s@ =~= written(ids@.take(0)));
    while i < ids.len()
        invariant
            i <= ids@.len(),
            s@ == written(ids@.take(i as int)),
        decreases ids@.len() - i,
    {
        let ghost s0 = s@;
        if i > 0 {
            s.append(",");
        }
        let d = decimal_text(ids[i] as u64);
        s.append(d.as_str());
        proof {
            let now = ids@.take(i + 1);
            assert(now.drop_last() =~= ids@.take(i as int));
            assert(now.last() == ids@[i as int]);
            if i == 0 {
                assert(s0.len() == 0);
                assert(s@ =~= decimal(ids@[0] as nat));
            }
        }
        i += 1;
    }
    assert(ids@.take(i as int) =~= ids@);
    s
}

proof fn lemma_pieces_append(s: Seq<char>, sep: char, t: Seq<char>)
    requires
        forall|i: int| 0 <= i < t.len() ==> #[trigger] t[i] != sep,
    ensures
        pieces(s + t, sep) == pieces(s, sep).drop_last().push(pieces(s, sep).last() + t),
    decreases t.len(),
{
    lemma_pieces(s, sep);
    let p = pieces(s, sep);
    if t.len() == 0 {
        assert(s + t =~= s);
        assert(p.last() + t =~= p.last());
        assert(p.drop_last().push(p.last()) =~= p);
    } else {
        let u = t.drop_last();
        assert forall|i: int| 0 <= i < u.len() implies #[trigger] u[i] != sep by {
            assert(u[i] == t[i]);
        }
        lemma_pieces_append(s, sep, u);
        assert((s + t).drop_last() =~= s + u);
        assert((s + t).last() == t.last());
        let q = pieces(s + u, sep);
        assert(q.drop_last() =~= p.drop_last());
        assert(q.last() == p.last() + u);
        assert((p.last() + u).push(t.last()) =~= p.last() + t);
    }
}

proof fn lemma_decimal_is_id(n: u32)
    ensures
        id(decimal(n as nat)) == Some(n),
        forall|i: int|
            0 <= i < decimal(n as nat).len() ==> #[trigger] decimal(n as nat)[i] != ',',
{
    lemma_decimal(n as nat);
    let d = decimal(n as nat);
    assert('0' <= d[0] <= '9');
}

/// A list of ids that is written reads back as it was.
pub proof fn law_ids_read_back(ids: Seq<u32>)
    requires
        ids.len() > 0,
    ensures
        writes(written(ids), ids),
        pieces(written(ids), ',').len() == ids.len(),
    decreases ids.len(),
{
    reveal_with_fuel(ids_among, 2);
    let d = decimal(ids.last() as nat);
    lemma_decimal_is_id(ids.last());
    if ids.len() == 1 {
        lemma_pieces_append(Seq::empty(), ',', d);
        let none = pieces(Seq::empty(), ',');
        assert(none =~= seq![Seq::<char>::empty()]);
        assert(Seq::empty() + d =~= d);
        assert(none.drop_last().push(none.last() + d) =~= seq![d]);
        assert(seq![d].drop_last() =~= Seq::empty());
        assert(ids_among(Seq::empty()) =~= Seq::empty());
        assert(ids =~= seq![ids.last()]);
    } else {
        let rest = ids.drop_last();
        law_ids_read_back(rest);
        let w = written(rest);
        reveal_strlit(",");
        assert(","@ =~= seq![',']);
        let sepd = w + ","@;
        assert(sepd.drop_last() =~= w);
        assert(sepd.last() == ',');
        let p = pieces(w, ',');
        assert(pieces(sepd, ',') == p.push(Seq::empty()));
        lemma_pieces_append(sepd, ',', d);
        assert(p.push(Seq::empty()).drop_last() =~= p);
        assert(Seq::empty() + d =~= d);
        let all = pieces(written(ids), ',');
        assert(all == p.push(d));
        assert(all.drop_last() =~= p);
        assert forall|i: int| 0 <= i < all.len() implies id(#[trigger] all[i]) is Some by {
            if i < p.len() {
                assert(all[i] == p[i]);
            }
        }
        assert(rest.push(ids.last()) =~= ids);
    }
}

// ---------------------------------------------------------------- other benches
/// Whether a process is another bench: its name under `/proc` is a number other
/// than `me`, and its executable is `fgm-bench`.
pub open spec fn sibling(me: u32, name: Seq<char>, comm: Seq<char>) -> Option<u32> {
    match id(name) {
        Some(pid) => if pid != me && trimmed(comm) == "fgm-bench"@ {
            Some(pid)
        } else {
            None
        },
        None => None,
    }
}

/// The id of a process that is another bench.
///
/// What counts is the name of the executable, not the command line, which would
/// also match a shell that waits for this very process.
pub fn sibling_bench(me: u32, name: &str, comm: &str) -> (r: Option<u32>)
    ensures
        r == sibling(me, name@, comm@),
{
    match parse_id(&chars_of(name)) {
        Some(pid) => {
            let c = text_of(trim(&chars_of(comm)).as_slice());
            if pid != me && same_text(c.as_str(), "fgm-bench") {
                Some(pid)
            } else {
                None
            }
        },
        None => None,
    }
}

/// A bench is no sibling of itself; any other process of the same executable is one, found
/// by its number, and a process of another executable is none.
pub proof fn law_siblings_are_other_benches(me: u32, pid: u32, comm: Seq<char>)
    ensures
        sibling(me, decimal(me as nat), comm) is None,
        pid != me && trimmed(comm) == "fgm-bench"@ ==> sibling(me, decimal(pid as nat), comm)
            == Some(pid),
        trimmed(comm) != "fgm-bench"@ ==> sibling(me, decimal(pid as nat), comm) is None,
{
    lemma_decimal_is_id(me);
    lemma_decimal_is_id(pid);
}

} // verus!
