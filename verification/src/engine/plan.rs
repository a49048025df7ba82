//! What to prefill, and what to share between prompts.
use vstd::prelude::*;

verus! {

// ---------------------------------------------------------------- common beginnings
/// Whether `n` is the length of the longest common beginning.
pub open spec fn is_lcp(a: Seq<u32>, b: Seq<u32>, n: int) -> bool {
    &&& 0 <= n <= a.len()
    &&& n <= b.len()
    &&& a.take(n) == b.take(n)
    &&& n < a.len() && n < b.len() ==> a[n] != b[n]
}

/// Length of the longest common leading run of two token sequences.
pub fn lcp(a: &[u32], b: &[u32]) -> (n: usize)
    ensures
        is_lcp(a@, b@, n as int),
{
    let mut n: usize = 0;
    while n < a.len() && n < b.len() && a[n] == b[n]
        invariant
            n <= a@.len(),
            n <= b@.len(),
            forall|i: int| 0 <= i < n ==> a@[i] == b@[i],
        decreases a@.len() - n,
    {
        n += 1;
    }
    assert(a@.take(n as int) =~= b@.take(n as int));
    n
}

// ---------------------------------------------------------------- chunks
/// The chunks from `from` to `to`: where each begins and how long it is.
pub open spec fn chunks(from: int, to: int, size: int) -> Seq<(int, int)>
    decreases to - from,
{
    if from >= to || size <= 0 {
        Seq::empty()
    } else {
        let n = if size < to - from {
            size
        } else {
            to - from
        };
        seq![(from, n)] + chunks(from + n, to, size)
    }
}

/// What a list of chunks holds.
pub open spec fn chunk_view(list: Seq<(usize, usize)>) -> Seq<(int, int)> {
    list.map_values(|c: (usize, usize)| (c.0 as int, c.1 as int))
}

/// Cuts the positions from `from` to `to` into chunks of at most `size`.
pub fn prefill_chunks(from: usize, to: usize, size: usize) -> (r: Vec<(usize, usize)>)
    requires
        from <= to,
        size > 0,
    ensures
        chunk_view(r@) == chunks(from as int, to as int, size as int),
{
    let mut r: Vec<(usize, usize)> = Vec::new();
    let mut off: usize = from;
    while off < to
        invariant
            from <= off <= to,
            size > 0,
            chunk_view(r@) + chunks(off as int, to as int, size as int) =~= chunks(
                from as int,
                to as int,
                size as int,
            ),
        decreases to - off,
    {
        let n: usize = if size < to - off {
            size
        } else {
            to - off
        };
        let ghost r0 = r@;
        r.push((off, n));
        assert(chunk_view(r@) =~= chunk_view(r0).push((off as int, n as int)));
        off += n;
    }
    assert(chunk_view(r@) =~= chunks(from as int, to as int, size as int));
    r
}

/// The chunks lie one behind the other, none is empty and none too long.
pub proof fn law_chunks_cover(from: int, to: int, size: int, i: int)
    requires
        from <= to,
        size > 0,
        0 <= i < chunks(from, to, size).len(),
    ensures
        0 < chunks(from, to, size)[i].1 <= size,
        chunks(from, to, size)[i].0 == if i == 0 {
            from
        } else {
            chunks(from, to, size)[i - 1].0 + chunks(from, to, size)[i - 1].1
        },
        i == chunks(from, to, size).len() - 1 ==> chunks(from, to, size)[i].0 + chunks(
            from,
            to,
            size,
        )[i].1 == to,
    decreases to - from,
{
    let all = chunks(from, to, size);
    let n = all[0].1;
    let rest = chunks(from + n, to, size);
    assert(all == seq![(from, n)] + rest);
    if i > 0 {
        law_chunks_cover(from + n, to, size, i - 1);
        assert(all[i] == rest[i - 1]);
        if i > 1 {
            assert(all[i - 1] == rest[i - 2]);
        }
    } else if all.len() == 1 {
        assert(rest.len() == 0);
    }
}

/// A prompt prefilled from a whole number of chunks on is cut exactly as it is
/// when prefilled from its beginning. The kernels group rows by chunk, so reusing
/// such a beginning changes no sum.
pub proof fn law_aligned_reuse_keeps_chunks(start: int, shared: int, to: int, size: int)
    requires
        start <= shared <= to,
        size > 0,
        (shared - start) % size == 0,
    ensures
        chunks(start, to, size) == chunks(start, shared, size) + chunks(shared, to, size),
    decreases shared - start,
{
    if start == shared {
        assert(chunks(start, to, size) =~= chunks(start, shared, size) + chunks(shared, to, size));
    } else {
        let d = shared - start;
        assert(d >= size) by (nonlinear_arith)
            requires
                d % size == 0,
                d > 0,
                size > 0,
        ;
        assert((d - size) % size == 0) by {
            vstd::arithmetic::div_mod::lemma_mod_sub_multiples_vanish(d, size);
        }
        law_aligned_reuse_keeps_chunks(start + size, shared, to, size);
        assert(chunks(start, shared, size) =~= seq![(start, size)] + chunks(
            start + size,
            shared,
            size,
        ));
        assert(chunks(start, to, size) =~= seq![(start, size)] + chunks(start + size, to, size));
        assert(chunks(start, to, size) =~= chunks(start, shared, size) + chunks(shared, to, size));
    }
}

/// There is a chunk wherever there is something to compute, and only the last one is
/// short.
pub proof fn law_only_the_last_chunk_is_short(from: int, to: int, size: int, i: int)
    requires
        from <= to,
        size > 0,
    ensures
        chunks(from, to, size).len() == 0 <==> from == to,
        0 <= i < chunks(from, to, size).len() - 1 ==> chunks(from, to, size)[i].1 == size,
    decreases to - from,
{
    if from < to {
        let all = chunks(from, to, size);
        let n = all[0].1;
        let rest = chunks(from + n, to, size);
        assert(all == seq![(from, n)] + rest);
        law_only_the_last_chunk_is_short(from + n, to, size, i - 1);
        if 0 < i < all.len() - 1 {
            assert(all[i] == rest[i - 1]);
        }
    }
}

// ---------------------------------------------------------------- sharing
/// How many tokens of a prompt a shared beginning covers: all of it, if the
/// prompt begins with it and has at least one token more.
pub open spec fn reuse_of(prefix: Option<Seq<u32>>, toks: Seq<u32>) -> nat {
    match prefix {
        Some(p) => if p.len() < toks.len() && toks.take(p.len() as int) == p {
            p.len()
        } else {
            0
        },
        None => 0,
    }
}

/// How much of a prompt is worth keeping for the prompts to come: what it has in
/// common with the prompt before it, in whole chunks and short of its last token.
pub open spec fn share_of(
    toks: Seq<u32>,
    common: int,
    covered: nat,
    reuse: nat,
    chunk: int,
    prefix_min: nat,
) -> Option<int> {
    let last = if toks.len() == 0 {
        0
    } else {
        toks.len() - 1
    };
    let raw = if common < last {
        common
    } else {
        last
    };
    let share = (raw / chunk) * chunk;
    if prefix_min > 0 && reuse == 0 && share >= prefix_min && share != covered {
        Some(share)
    } else {
        None
    }
}

/// Whether `p` is what the longest common beginning of two prompts makes worth sharing.
pub open spec fn share_from(
    toks: Seq<u32>,
    last_toks: Seq<u32>,
    covered: nat,
    reuse: nat,
    chunk: int,
    prefix_min: nat,
    p: Option<int>,
) -> bool {
    exists|n: int| is_lcp(toks, last_toks, n) && p == share_of(
        toks,
        n,
        covered,
        reuse,
        chunk,
        prefix_min,
    )
}

/// What is worth sharing is a beginning of both prompts, in whole chunks, and
/// leaves a token to compute.
pub proof fn law_share_is_common(
    toks: Seq<u32>,
    last_toks: Seq<u32>,
    covered: nat,
    reuse: nat,
    chunk: int,
    prefix_min: nat,
    p: int,
)
    requires
        chunk > 0,
        share_from(toks, last_toks, covered, reuse, chunk, prefix_min, Some(p)),
    ensures
        prefix_min <= p < toks.len(),
        p <= last_toks.len(),
        toks.take(p) == last_toks.take(p),
        p % chunk == 0,
{
    let n = choose|n: int|
        is_lcp(toks, last_toks, n) && Some(p) == share_of(
            toks,
            n,
            covered,
            reuse,
            chunk,
            prefix_min,
        );
    let last = if toks.len() == 0 {
        0
    } else {
        toks.len() - 1
    };
    let raw = if n < last {
        n
    } else {
        last
    };
    assert(p == (raw / chunk) * chunk);
    assert(0 <= p <= raw) by (nonlinear_arith)
        requires
            p == (raw / chunk) * chunk,
            chunk > 0,
            raw >= 0,
    ;
    vstd::arithmetic::div_mod::lemma_mod_multiples_basic(raw / chunk, chunk);
    assert forall|i: int| 0 <= i < p implies toks.take(p)[i] == last_toks.take(p)[i] by {
        assert(toks.take(n)[i] == last_toks.take(n)[i]);
    }
    assert(toks.take(p) =~= last_toks.take(p));
}

/// A prompt that goes on behind the shared beginning reuses all of it; one that ends
/// with it, or differs from it anywhere, reuses nothing.
pub proof fn law_a_shared_beginning_is_reused(p: Seq<u32>, rest: Seq<u32>, toks: Seq<u32>)
    ensures
        rest.len() > 0 ==> reuse_of(Some(p), p + rest) == p.len(),
        reuse_of(Some(p), p) == 0,
        !p.is_prefix_of(toks) ==> reuse_of(Some(p), toks) == 0,
        reuse_of(None, toks) == 0,
{
    assert((p + rest).take(p.len() as int) =~= p);
    if p.len() < toks.len() {
        assert(toks.take(p.len() as int) =~= toks.subrange(0, p.len() as int));
    }
}

/// Nothing longer could be shared: where some whole number of chunks that is long
/// enough is common to both prompts and leaves a token to compute, at least as much
/// is shared, or was already.
pub proof fn law_share_is_the_longest(
    toks: Seq<u32>,
    last_toks: Seq<u32>,
    covered: nat,
    chunk: int,
    prefix_min: nat,
    r: Option<int>,
    q: int,
)
    requires
        chunk > 0,
        0 < prefix_min <= q < toks.len(),
        q <= last_toks.len(),
        q % chunk == 0,
        toks.take(q) == last_toks.take(q),
        share_from(toks, last_toks, covered, 0, chunk, prefix_min, r),
    ensures
        r matches Some(p) ==> q <= p,
        r is None ==> q <= covered,
{
    let n = choose|n: int|
        is_lcp(toks, last_toks, n) && r == share_of(toks, n, covered, 0, chunk, prefix_min);
    assert(q <= n) by {
        if n < q {
            assert(toks.take(q)[n] == toks[n]);
            assert(last_toks.take(q)[n] == last_toks[n]);
        }
    }
    let last = toks.len() - 1;
    let raw: int = if n < last {
        n
    } else {
        last
    };
    assert((raw / chunk) * chunk >= q) by (nonlinear_arith)
        requires
            q <= raw,
            chunk > 0,
            q % chunk == 0,
    {
        vstd::arithmetic::div_mod::lemma_fundamental_div_mod(q, chunk);
        vstd::arithmetic::div_mod::lemma_div_is_ordered(q, raw, chunk);
        vstd::arithmetic::mul::lemma_mul_inequality(q / chunk, raw / chunk, chunk);
    }
}

/// Nothing is computed for sharing that need not be: not for a prompt that reuses what is
/// shared, not where as much is shared already, and not where sharing is off.
pub proof fn law_nothing_is_shared_twice(
    toks: Seq<u32>,
    last_toks: Seq<u32>,
    covered: nat,
    reuse: nat,
    chunk: int,
    prefix_min: nat,
    p: int,
)
    requires
        share_from(toks, last_toks, covered, reuse, chunk, prefix_min, Some(p)),
    ensures
        reuse == 0,
        p != covered,
        0 < prefix_min <= p,
{
}

/// How many tokens of a prompt the shared beginning covers.
pub fn reuse_len(prefix: &Option<Vec<u32>>, toks: &[u32]) -> (n: usize)
    ensures
        n == reuse_of(
            match *prefix {
                Some(p) => Some(p@),
                None => None,
            },
            toks@,
        ),
        n < toks@.len() || n == 0,
{
    match prefix {
        Some(p) => {
            if p.len() < toks.len() {
                let n: usize = lcp(toks, p.as_slice());
                proof {
                    if n == p@.len() {
                        assert(p@.take(n as int) =~= p@);
                    } else if toks@.take(p@.len() as int) == p@ {
                        assert(toks@.take(p@.len() as int)[n as int] == p@[n as int]);
                    }
                }
                if n == p.len() {
                    return n;
                }
            }
            0
        },
        None => 0,
    }
}

/// How much of a prompt is worth keeping for the prompts to come.
pub fn share_len(
    toks: &[u32],
    last_toks: &[u32],
    covered: usize,
    reuse: usize,
    chunk: usize,
    prefix_min: usize,
) -> (r: Option<usize>)
    requires
        chunk > 0,
    ensures
        share_from(
            toks@,
            last_toks@,
            covered as nat,
            reuse as nat,
            chunk as int,
            prefix_min as nat,
            match r {
                Some(n) => Some(n as int),
                None => None,
            },
        ),
{
    let n: usize = lcp(toks, last_toks);
    let last: usize = if toks.len() == 0 {
        0
    } else {
        toks.len() - 1
    };
    let raw: usize = if n < last {
        n
    } else {
        last
    };
    assert((raw / chunk) * chunk <= raw) by (nonlinear_arith)
        requires
            chunk > 0,
    ;
    let share: usize = (raw / chunk) * chunk;
    proof {
        assert(is_lcp(toks@, last_toks@, n as int));
    }
    if prefix_min > 0 && reuse == 0 && share >= prefix_min && share != covered {
        Some(share)
    } else {
        None
    }
}

} // verus!
