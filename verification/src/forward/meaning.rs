//! What the steps of a layer come to.
//!
//! The steps are carried out on names: a value says which weights and which
//! operations it went through, in which order.
use vstd::prelude::*;
use crate::forward::program::{
    cache_steps, later_steps, query_steps, steps, Buf, Does,
};
use crate::model::config::Config;
use crate::text::decimal;

verus! {

// ---------------------------------------------------------------- values
/// What rows hold.
pub enum Val {
    /// what was there before
    Given(Buf),
    /// the rows, normed with a weight
    Normed { weight: Seq<char>, of: Box<Val> },
    /// the rows, multiplied with a weight
    Times { weight: Seq<char>, of: Box<Val> },
    /// the heads of the rows, normed
    HeadNormed { norm: Option<Seq<char>>, heads: int, of: Box<Val> },
    /// the heads of the rows, rotated by their position
    Rotated { heads: int, of: Box<Val> },
    /// what queries find in the cache of a layer, to which keys and values may
    /// just have been added
    Attended { queries: Box<Val>, source: int, window: int, added: Option<(Box<Val>, Box<Val>)> },
    /// the sum of two
    Sum(Box<Val>, Box<Val>),
    /// the first, through the activation, times the second
    Gated(Box<Val>, Box<Val>),
    /// the rows, through the activation
    Activated(Box<Val>),
    /// the rows, times the per-layer inputs
    WithInputs(Box<Val>),
    /// the rows, scaled by a weight
    Scaled { weight: Seq<char>, of: Box<Val> },
}

/// What all rows hold, and what was added to the cache.
pub struct Rows {
    pub at: spec_fn(Buf) -> Val,
    pub added: Option<(Box<Val>, Box<Val>)>,
}

impl Rows {
    /// The rows with new ones in one place.
    pub open spec fn with(self, b: Buf, v: Val) -> Rows {
        Rows {
            at: |c: Buf|
                if c == b {
                    v
                } else {
                    (self.at)(c)
                },
            added: self.added,
        }
    }

    /// What is in one place.
    pub open spec fn of(self, b: Buf) -> Box<Val> {
        Box::new((self.at)(b))
    }
}

/// What a step makes of the rows.
pub open spec fn after_step(s: Rows, d: Does) -> Rows {
    match d {
        Does::Norm { weight, from, to } => s.with(to, Val::Normed { weight, of: s.of(from) }),
        Does::Product { weight, from, to } => s.with(to, Val::Times { weight, of: s.of(from) }),
        Does::HeadNorm { norm, rows, heads } => s.with(
            rows,
            Val::HeadNormed { norm, heads, of: s.of(rows) },
        ),
        Does::Rope { rows, heads } => s.with(rows, Val::Rotated { heads, of: s.of(rows) }),
        Does::Store => Rows { at: s.at, added: Some((s.of(Buf::K), s.of(Buf::V))) },
        Does::Attend { source, window } => s.with(
            Buf::Ao,
            Val::Attended { queries: s.of(Buf::Q), source, window, added: s.added },
        ),
        Does::Join { weight, from } => s.with(
            Buf::H,
            Val::Sum(s.of(Buf::H), Box::new(Val::Normed { weight, of: s.of(from) })),
        ),
        Does::GeluMul => s.with(Buf::Act, Val::Gated(s.of(Buf::Gate), s.of(Buf::Up))),
        Does::Gelu => s.with(Buf::P, Val::Activated(s.of(Buf::P))),
        Does::Ple => s.with(Buf::P, Val::WithInputs(s.of(Buf::P))),
        Does::Scale { weight } => s.with(Buf::H, Val::Scaled { weight, of: s.of(Buf::H) }),
    }
}

/// What several steps make of the rows.
pub open spec fn after(s: Rows, ds: Seq<Does>) -> Rows
    decreases ds.len(),
{
    if ds.len() == 0 {
        s
    } else {
        after_step(after(s, ds.drop_last()), ds.last())
    }
}

// ---------------------------------------------------------------- a layer
/// A weight of layer `l`, by its part.
pub open spec fn weight_of(l: int, part: Seq<char>) -> Seq<char> {
    "l"@ + decimal(l as nat) + "."@ + part
}

/// Rows normed with a weight of layer `l`.
pub open spec fn norm(l: int, part: Seq<char>, v: Val) -> Val {
    Val::Normed { weight: weight_of(l, part), of: Box::new(v) }
}

/// Rows multiplied with a weight of layer `l`.
pub open spec fn times(l: int, part: Seq<char>, v: Val) -> Val {
    Val::Times { weight: weight_of(l, part), of: Box::new(v) }
}

/// The queries of layer `l`: projected, normed head by head, rotated.
pub open spec fn queries(cfg: Config, l: int, x: Val) -> Val {
    let n = cfg.num_attention_heads as int;
    let p = times(l, "q_proj"@, norm(l, "input_layernorm"@, x));
    Val::Rotated {
        heads: n,
        of: Box::new(
            Val::HeadNormed { norm: Some(weight_of(l, "q_norm"@)), heads: n, of: Box::new(p) },
        ),
    }
}

/// The keys of layer `l`: projected, normed head by head, rotated.
pub open spec fn keys(cfg: Config, l: int, x: Val) -> Val {
    let n = cfg.num_key_value_heads as int;
    let p = times(l, "k_proj"@, norm(l, "input_layernorm"@, x));
    Val::Rotated {
        heads: n,
        of: Box::new(
            Val::HeadNormed { norm: Some(weight_of(l, "k_norm"@)), heads: n, of: Box::new(p) },
        ),
    }
}

/// The values of layer `l`: projected and normed head by head, without a weight and
/// without a rotation.
pub open spec fn values(cfg: Config, l: int, x: Val) -> Val {
    let n = cfg.num_key_value_heads as int;
    let p = times(l, "v_proj"@, norm(l, "input_layernorm"@, x));
    Val::HeadNormed { norm: None, heads: n, of: Box::new(p) }
}

/// What layer `l` adds to its cache.
pub open spec fn added(cfg: Config, l: int, x: Val) -> Option<(Box<Val>, Box<Val>)> {
    if cfg.shared(l) {
        None
    } else {
        Some((Box::new(keys(cfg, l, x)), Box::new(values(cfg, l, x))))
    }
}

/// The residual stream behind attention.
pub open spec fn attended(cfg: Config, l: int, source: int, x: Val) -> Val {
    let a = Val::Attended {
        queries: Box::new(queries(cfg, l, x)),
        source,
        window: if cfg.sliding(l) {
            cfg.sliding_window as int
        } else {
            0
        },
        added: added(cfg, l, x),
    };
    Val::Sum(
        Box::new(x),
        Box::new(norm(l, "post_attention_layernorm"@, times(l, "o_proj"@, a))),
    )
}

/// The residual stream behind the MLP.
pub open spec fn fed(l: int, x: Val) -> Val {
    let n = norm(l, "pre_feedforward_layernorm"@, x);
    let g = Val::Gated(
        Box::new(times(l, "gate_proj"@, n)),
        Box::new(times(l, "up_proj"@, n)),
    );
    Val::Sum(
        Box::new(x),
        Box::new(norm(l, "post_feedforward_layernorm"@, times(l, "down_proj"@, g))),
    )
}

/// The residual stream behind the per-layer input.
pub open spec fn injected(l: int, x: Val) -> Val {
    let p = Val::WithInputs(
        Box::new(Val::Activated(Box::new(times(l, "per_layer_input_gate"@, x)))),
    );
    Val::Sum(
        Box::new(x),
        Box::new(norm(l, "post_per_layer_input_norm"@, times(l, "per_layer_projection"@, p))),
    )
}

// ---------------------------------------------------------------- proofs
proof fn lemma_after_concat(s: Rows, a: Seq<Does>, b: Seq<Does>)
    ensures
        after(s, a + b) == after(after(s, a), b),
    decreases b.len(),
{
    if b.len() == 0 {
        assert(a + b =~= a);
    } else {
        assert((a + b).drop_last() =~= a + b.drop_last());
        lemma_after_concat(s, a, b.drop_last());
    }
}

/// Every step in turn.
proof fn lemma_after_each(s: Rows, ds: Seq<Does>)
    ensures
        after(s, ds.take(0)) == s,
        forall|i: int|
            0 < i <= ds.len() ==> after(s, #[trigger] ds.take(i)) == after_step(
                after(s, ds.take(i - 1)),
                ds[i - 1],
            ),
        after(s, ds.take(ds.len() as int)) == after(s, ds),
{
    assert(ds.take(ds.len() as int) =~= ds);
    assert forall|i: int| 0 < i <= ds.len() implies after(s, #[trigger] ds.take(i)) == after_step(
        after(s, ds.take(i - 1)),
        ds[i - 1],
    ) by {
        assert(ds.take(i).drop_last() =~= ds.take(i - 1));
    }
}

proof fn lemma_queries(cfg: Config, l: int, s: Rows)
    ensures
        after(s, query_steps(cfg, l)).of(Buf::H) == s.of(Buf::H),
        after(s, query_steps(cfg, l)).of(Buf::Xn) == Box::new(
            norm(l, "input_layernorm"@, (s.at)(Buf::H)),
        ),
        after(s, query_steps(cfg, l)).of(Buf::Q) == Box::new(queries(cfg, l, (s.at)(Buf::H))),
        after(s, query_steps(cfg, l)).added == s.added,
{
    let ds = query_steps(cfg, l);
    lemma_after_each(s, ds);
    let s1 = after(s, ds.take(1));
    let s2 = after(s, ds.take(2));
    let s3 = after(s, ds.take(3));
    let s4 = after(s, ds.take(4));
    assert(s4 == after(s, ds));
}

proof fn lemma_added(cfg: Config, l: int, s: Rows, x: Val)
    requires
        s.of(Buf::Xn) == Box::new(norm(l, "input_layernorm"@, x)),
        s.added is None,
    ensures
        after(s, cache_steps(cfg, l)).of(Buf::H) == s.of(Buf::H),
        after(s, cache_steps(cfg, l)).of(Buf::Q) == s.of(Buf::Q),
        after(s, cache_steps(cfg, l)).added == added(cfg, l, x),
{
    let ds = cache_steps(cfg, l);
    lemma_after_each(s, ds);
    if !cfg.shared(l) {
        let s1 = after(s, ds.take(1));
        let s2 = after(s, ds.take(2));
        let s3 = after(s, ds.take(3));
        let s4 = after(s, ds.take(4));
        let s5 = after(s, ds.take(5));
        let s6 = after(s, ds.take(6));
        assert(s6 == after(s, ds));
    }
}

proof fn lemma_rest(cfg: Config, l: int, source: int, s: Rows, x: Val)
    requires
        s.of(Buf::H) == Box::new(x),
        s.of(Buf::Q) == Box::new(queries(cfg, l, x)),
        s.added == added(cfg, l, x),
    ensures
        after(s, later_steps(cfg, l, source)).of(Buf::H) == Box::new(
            Val::Scaled {
                weight: weight_of(l, "layer_scalar"@),
                of: Box::new(injected(l, fed(l, attended(cfg, l, source, x)))),
            },
        ),
        after(s, later_steps(cfg, l, source)).added == s.added,
{
    let ds = later_steps(cfg, l, source);
    lemma_after_each(s, ds);
    let s1 = after(s, ds.take(1));
    let s2 = after(s, ds.take(2));
    let s3 = after(s, ds.take(3));
    let a = attended(cfg, l, source, x);
    assert(s3.of(Buf::H) == Box::new(a));
    let s4 = after(s, ds.take(4));
    let s5 = after(s, ds.take(5));
    let s6 = after(s, ds.take(6));
    let s7 = after(s, ds.take(7));
    let s8 = after(s, ds.take(8));
    let s9 = after(s, ds.take(9));
    let b = fed(l, a);
    assert(s9.of(Buf::H) == Box::new(b));
    let s10 = after(s, ds.take(10));
    let s11 = after(s, ds.take(11));
    let s12 = after(s, ds.take(12));
    let s13 = after(s, ds.take(13));
    let s14 = after(s, ds.take(14));
    let s15 = after(s, ds.take(15));
    assert(s14.of(Buf::H) == Box::new(injected(l, b)));
    assert(s15 == after(s, ds));
}

// ---------------------------------------------------------------- laws
/// What a layer computes, whatever the rows held before: from the residual stream
/// `x`, attention is added to it, then the MLP, then the per-layer input, and the
/// whole is scaled. The keys that go into the cache are normed with a weight and
/// rotated, the values are normed without one and not rotated, and a layer that
/// reads another one's cache adds neither.
pub proof fn law_a_layer_computes(cfg: Config, l: int, source: int, s: Rows)
    requires
        s.added is None,
    ensures
        ({
            let x = (s.at)(Buf::H);
            let end = after(s, steps(cfg, l, source));
            &&& (end.at)(Buf::H) == Val::Scaled {
                weight: weight_of(l, "layer_scalar"@),
                of: Box::new(injected(l, fed(l, attended(cfg, l, source, x)))),
            }
            &&& end.added == added(cfg, l, x)
        }),
{
    let x = (s.at)(Buf::H);
    let q = query_steps(cfg, l);
    let c = cache_steps(cfg, l);
    let t = later_steps(cfg, l, source);
    let s1 = after(s, q);
    let s2 = after(s1, c);
    lemma_after_concat(s, q + c, t);
    lemma_after_concat(s, q, c);
    lemma_queries(cfg, l, s);
    lemma_added(cfg, l, s1, x);
    lemma_rest(cfg, l, source, s2, x);
}

/// Nothing that the rows held before has a part in a layer but the residual stream.
pub proof fn law_a_layer_reads_the_stream_alone(
    cfg: Config,
    l: int,
    source: int,
    s: Rows,
    r: Rows,
)
    requires
        s.added is None,
        r.added is None,
        (s.at)(Buf::H) == (r.at)(Buf::H),
    ensures
        (after(s, steps(cfg, l, source)).at)(Buf::H) == (after(r, steps(cfg, l, source)).at)(
            Buf::H,
        ),
        after(s, steps(cfg, l, source)).added == after(r, steps(cfg, l, source)).added,
{
    law_a_layer_computes(cfg, l, source, s);
    law_a_layer_computes(cfg, l, source, r);
}

/// Whether step `i` rotates rows.
pub open spec fn rotates(ds: Seq<Does>, i: int, b: Buf) -> bool {
    0 <= i < ds.len() && (ds[i] matches Does::Rope { rows, .. } && rows == b)
}

/// Whether step `i` writes rows, other than to norm or rotate them in place.
pub open spec fn fills(ds: Seq<Does>, i: int, b: Buf) -> bool {
    0 <= i < ds.len() && match ds[i] {
        Does::Norm { to, .. } => to == b,
        Does::Product { to, .. } => to == b,
        _ => false,
    }
}

/// Every row that attention compares by position carries its position. In the steps
/// of a layer the queries are rotated once, between the step that makes them and
/// the one that attends; the keys are rotated once, between the step that makes
/// them and the one that stores them, where the layer owns a cache, and never where
/// it does not; no other rows are rotated.
pub proof fn law_what_is_compared_is_rotated(cfg: Config, l: int, source: int)
    ensures
        ({
            let ds = steps(cfg, l, source);
            &&& exists|f: int, i: int, e: int|
                {
                    &&& #[trigger] fills(ds, f, Buf::Q)
                    &&& #[trigger] rotates(ds, i, Buf::Q)
                    &&& 0 <= e < ds.len()
                    &&& #[trigger] ds[e] is Attend
                    &&& f < i < e
                }
            &&& forall|i: int, j: int| #[trigger]
                rotates(ds, i, Buf::Q) && #[trigger] rotates(ds, j, Buf::Q) ==> i == j
            &&& !cfg.shared(l) ==> exists|f: int, i: int, e: int|
                {
                    &&& #[trigger] fills(ds, f, Buf::K)
                    &&& #[trigger] rotates(ds, i, Buf::K)
                    &&& 0 <= e < ds.len()
                    &&& #[trigger] ds[e] is Store
                    &&& f < i < e
                }
            &&& forall|i: int, j: int| #[trigger]
                rotates(ds, i, Buf::K) && #[trigger] rotates(ds, j, Buf::K) ==> i == j
            &&& cfg.shared(l) ==> forall|i: int| !#[trigger] rotates(ds, i, Buf::K)
            &&& forall|i: int, b: Buf| #[trigger] rotates(ds, i, b) ==> b == Buf::Q || b == Buf::K
        }),
{
    let ds = steps(cfg, l, source);
    let q = query_steps(cfg, l);
    let c = cache_steps(cfg, l);
    let t = later_steps(cfg, l, source);
    let n: int = q.len() as int + c.len();
    assert(forall|j: int| 0 <= j < 4 ==> #[trigger] ds[j] == q[j]);
    assert(forall|j: int| 4 <= j < n ==> #[trigger] ds[j] == c[j - 4]);
    assert(forall|j: int| n <= j < ds.len() ==> #[trigger] ds[j] == t[j - n]);
    assert(ds[n] is Attend);
    assert(fills(ds, 1, Buf::Q) && rotates(ds, 3, Buf::Q));
    if !cfg.shared(l) {
        assert(ds[9] is Store);
        assert(fills(ds, 4, Buf::K) && rotates(ds, 8, Buf::K));
    }
}

} // verus!
