//! The shape of the forward pass: which buffers it needs, and for each layer
//! and row what is read and written.
//!
//! Per layer, with norms around each step:
//!
//! ```text
//! h += attn(h)
//! h += mlp(h)
//! h += ple_proj(gelu(ple_gate(h)) * ple[l])
//! h *= layer_scalar
//! ```
//!
//! The arithmetic itself is floating point and runs in the application's
//! kernels.
pub mod meaning;
pub mod program;

pub use self::program::{buf_width, layer_ops, Buf, Op};

use vstd::prelude::*;
use crate::kernels::{packed_a_len, packed_len, tiled};
use crate::kv::{is_new, KvCache, LayerKv};
use crate::model::config::Config;
use crate::pool::attended;

verus! {

// ---------------------------------------------------------------- buffers
/// How long the buffers of the forward pass are.
#[derive(Clone, Copy)]
pub struct Scratch {
    /// `[M, H]` residual stream
    pub h: usize,
    /// `[M, H]` normed input
    pub xn: usize,
    /// `[M, Kmax]` rotated activation
    pub rot: usize,
    /// `[M, Kmax]` quantised activation
    pub qa: usize,
    /// `[M]` activation scales
    pub qs: usize,
    /// tile-packed activation
    pub pa: usize,
    /// `[M, Nmax]` GEMM output
    pub y: usize,
    /// `[M, Nmax]` second GEMM output
    pub y2: usize,
    /// `[M, nh * hd]`
    pub attn: usize,
    /// `[kv_heads * hd]`
    pub kv: usize,
    /// `[M, L, P]` per-layer inputs
    pub ple: usize,
    /// `[L * P]`
    pub ple_raw: usize,
    /// attention softmax scratch
    pub sc: usize,
    pub logits: usize,
}

pub open spec fn larger(a: int, b: int) -> int {
    if a < b {
        b
    } else {
        a
    }
}

/// What layer `l` asks of the output buffers.
pub open spec fn layer_width(cfg: Config, l: int) -> int {
    larger(cfg.mlp_width(l), cfg.num_attention_heads * cfg.head_width(l))
}

/// What the first `n` layers ask of the output buffers.
pub open spec fn widest(cfg: Config, n: int) -> int
    decreases n,
{
    if n <= 0 {
        0
    } else {
        larger(widest(cfg, n - 1), layer_width(cfg, n - 1))
    }
}

/// The width of the widest output.
pub open spec fn nmax(cfg: Config) -> int {
    larger(
        widest(cfg, cfg.layer_types@.len() as int),
        cfg.num_hidden_layers * cfg.hidden_size_per_layer_input,
    )
}

/// The width of the widest input.
pub open spec fn kmax(cfg: Config) -> int {
    larger(nmax(cfg), cfg.hidden_size as int)
}

/// Whether every buffer can be addressed.
pub open spec fn fits(cfg: Config, m: int, ctx: int) -> bool {
    &&& forall|l: int|
        0 <= l < cfg.layer_types@.len() ==> #[trigger] layer_width(cfg, l) <= usize::MAX
    &&& cfg.num_hidden_layers * cfg.hidden_size_per_layer_input <= usize::MAX
    &&& m * cfg.hidden_size <= usize::MAX
    &&& tiled(m) <= usize::MAX
    &&& m + 16 <= usize::MAX
    &&& packed_len(m, kmax(cfg)) <= usize::MAX
    &&& cfg.num_attention_heads * cfg.global_head_dim <= usize::MAX
    &&& m * (cfg.num_attention_heads * cfg.global_head_dim) <= usize::MAX
    &&& cfg.num_key_value_heads * cfg.global_head_dim <= usize::MAX
    &&& m * (cfg.num_hidden_layers * cfg.hidden_size_per_layer_input) <= usize::MAX
    &&& ctx + 64 <= usize::MAX
}

/// Whether these are the buffers for up to `max_tokens` rows over `max_ctx` positions.
pub open spec fn is_scratch(s: Scratch, cfg: Config, max_tokens: int, max_ctx: int) -> bool {
    &&& s.h == max_tokens * cfg.hidden_size
    &&& s.xn == max_tokens * cfg.hidden_size
    &&& s.rot == max_tokens * kmax(cfg)
    &&& s.qa == max_tokens * kmax(cfg)
    &&& s.qs == max_tokens + 16
    &&& s.pa == packed_len(max_tokens, kmax(cfg))
    &&& s.y == max_tokens * nmax(cfg)
    &&& s.y2 == max_tokens * nmax(cfg)
    &&& s.attn == max_tokens * (cfg.num_attention_heads * cfg.global_head_dim)
    &&& s.kv == cfg.num_key_value_heads * cfg.global_head_dim
    &&& s.ple == max_tokens * (cfg.num_hidden_layers * cfg.hidden_size_per_layer_input)
    &&& s.ple_raw == cfg.num_hidden_layers * cfg.hidden_size_per_layer_input
    &&& s.sc == max_ctx + 64
    &&& s.logits == cfg.vocab_size
}

proof fn lemma_widest(cfg: Config, l: int, n: int)
    requires
        0 <= l < n,
    ensures
        layer_width(cfg, l) <= widest(cfg, n),
        0 <= widest(cfg, n),
    decreases n,
{
    if l < n - 1 {
        lemma_widest(cfg, l, n - 1);
    } else if n > 1 {
        lemma_widest(cfg, 0, n - 1);
    }
}

proof fn lemma_rows_fit(m: int, w: int)
    requires
        0 <= m,
        0 <= w,
        packed_len(m, w) <= usize::MAX,
    ensures
        0 <= m * w <= usize::MAX,
        m * w <= packed_len(m, w),
{
    assert(m <= tiled(m));
    assert(m * w <= tiled(m) * w) by (nonlinear_arith)
        requires
            m <= tiled(m),
            0 <= w,
    ;
    assert(0 <= m * w) by (nonlinear_arith)
        requires
            0 <= m,
            0 <= w,
    ;
}

impl Scratch {
    /// The buffers for up to `max_tokens` rows over `max_ctx` positions.
    pub fn new(cfg: &Config, max_tokens: usize, max_ctx: usize) -> (s: Scratch)
        requires
            cfg.layer_types@.len() > 0,
            fits(*cfg, max_tokens as int, max_ctx as int),
        ensures
            is_scratch(s, *cfg, max_tokens as int, max_ctx as int),
    {
        let mut wide: usize = 0;
        let mut l: usize = 0;
        while l < cfg.layer_types.len()
            invariant
                l <= cfg.layer_types@.len(),
                fits(*cfg, max_tokens as int, max_ctx as int),
                wide == widest(*cfg, l as int),
            decreases cfg.layer_types@.len() - l,
        {
            assert(layer_width(*cfg, l as int) <= usize::MAX);
            let hd: usize = cfg.head_dim_of(l);
            let heads: usize = cfg.num_attention_heads * hd;
            let mlp: usize = cfg.inter_of(l);
            if mlp > wide {
                wide = mlp;
            }
            if heads > wide {
                wide = heads;
            }
            l += 1;
        }
        let per_layer: usize = cfg.num_hidden_layers * cfg.hidden_size_per_layer_input;
        let n: usize = if wide < per_layer {
            per_layer
        } else {
            wide
        };
        let k: usize = if n < cfg.hidden_size {
            cfg.hidden_size
        } else {
            n
        };
        let m: usize = max_tokens;
        proof {
            lemma_rows_fit(m as int, k as int);
            assert(m * n <= m * k) by (nonlinear_arith)
                requires
                    n <= k,
                    0 <= m,
            ;
        }
        Scratch {
            h: m * cfg.hidden_size,
            xn: m * cfg.hidden_size,
            rot: m * k,
            qa: m * k,
            qs: m + 16,
            pa: packed_a_len(m, k),
            y: m * n,
            y2: m * n,
            attn: m * (cfg.num_attention_heads * cfg.global_head_dim),
            kv: cfg.num_key_value_heads * cfg.global_head_dim,
            ple: m * per_layer,
            ple_raw: per_layer,
            sc: max_ctx + 64,
            logits: cfg.vocab_size,
        }
    }
}

/// The widths that the products of layer `l` read: the hidden state, the heads,
/// the MLP and the per-layer input.
pub open spec fn reads_width(cfg: Config, l: int, k: int) -> bool {
    k == cfg.hidden_size || k == cfg.num_attention_heads * cfg.head_width(l) || k == cfg.mlp_width(
        l,
    ) || k == cfg.hidden_size_per_layer_input
}

/// Whatever a product of a layer reads, `m` rows of it fit the buffers that are
/// made for `max_tokens` rows.
pub proof fn law_scratch_holds_every_product(cfg: Config, max_tokens: int, m: int, l: int, k: int)
    requires
        0 <= m <= max_tokens,
        0 <= l < cfg.layer_types@.len(),
        0 < cfg.num_hidden_layers,
        reads_width(cfg, l, k),
    ensures
        m * k <= max_tokens * kmax(cfg),
        packed_len(m, k) <= packed_len(max_tokens, kmax(cfg)),
{
    lemma_widest(cfg, l, cfg.layer_types@.len() as int);
    let pd = cfg.hidden_size_per_layer_input as int;
    let nl = cfg.num_hidden_layers as int;
    assert(pd <= nl * pd) by (nonlinear_arith)
        requires
            0 <= pd,
            0 < nl,
    ;
    assert(0 <= cfg.num_attention_heads * cfg.head_width(l)) by (nonlinear_arith);
    let w = kmax(cfg);
    assert(0 <= k <= w);
    assert(m * k <= max_tokens * w) by (nonlinear_arith)
        requires
            0 <= m <= max_tokens,
            0 <= k <= w,
    ;
    let a = tiled(m);
    let b = tiled(max_tokens);
    assert(a * k <= b * w) by (nonlinear_arith)
        requires
            0 <= a <= b,
            0 <= k <= w,
    ;
}

/// The buffers hold a forward of `m` rows at any layer: the residual stream and its normed
/// rows, what the MLP and the heads of the layer make, the activations of every product
/// and their scales, the per-layer inputs up to the last row, the scores of every
/// position of the context, and a logit for each token.
pub proof fn law_scratch_holds_a_forward(
    s: Scratch,
    cfg: Config,
    max_tokens: int,
    max_ctx: int,
    m: int,
    l: int,
    k: int,
    pos: int,
)
    requires
        is_scratch(s, cfg, max_tokens, max_ctx),
        0 <= m <= max_tokens,
        0 <= l < cfg.layer_types@.len(),
        0 < cfg.num_hidden_layers,
        reads_width(cfg, l, k),
        0 <= pos < max_ctx,
    ensures
        m * cfg.hidden_size <= s.h,
        m * cfg.hidden_size <= s.xn,
        m * k <= s.rot,
        m * k <= s.qa,
        packed_len(m, k) <= s.pa,
        m <= s.qs,
        m * cfg.mlp_width(l) <= s.y,
        m * (cfg.num_attention_heads * cfg.head_width(l)) <= s.y,
        s.y2 == s.y,
        ple_at(cfg, m, 0) <= s.ple,
        ple_at(cfg, 1, 0) == s.ple_raw,
        pos + 1 <= s.sc,
        s.logits == cfg.vocab_size,
{
    law_scratch_holds_every_product(cfg, max_tokens, m, l, k);
    lemma_widest(cfg, l, cfg.layer_types@.len() as int);
    let h = cfg.hidden_size as int;
    let w = nmax(cfg);
    let a = cfg.mlp_width(l);
    let b = cfg.num_attention_heads * cfg.head_width(l);
    assert(0 <= b) by (nonlinear_arith)
        requires
            b == cfg.num_attention_heads * cfg.head_width(l),
    ;
    lemma_rows_grow(m, max_tokens, h, h);
    lemma_rows_grow(m, max_tokens, a, w);
    lemma_rows_grow(m, max_tokens, b, w);
    let n = cfg.num_hidden_layers as int;
    let p = cfg.hidden_size_per_layer_input as int;
    assert(0 <= n * p) by (nonlinear_arith)
        requires
            0 <= n,
            0 <= p,
    ;
    lemma_rows_grow(m, max_tokens, n * p, n * p);
    assert((m * n + 0) * p == m * (n * p)) by (nonlinear_arith);
    assert((1 * n + 0) * p == n * p) by (nonlinear_arith);
}

proof fn lemma_rows_grow(m: int, n: int, a: int, b: int)
    requires
        0 <= m <= n,
        0 <= a <= b,
    ensures
        m * a <= n * b,
{
    assert(m * a <= n * b) by (nonlinear_arith)
        requires
            0 <= m <= n,
            0 <= a <= b,
    ;
}

/// No buffer is wider than something that goes into it: the widest input is the hidden
/// state, the inputs of all layers together, or what some layer makes.
pub proof fn law_no_buffer_is_wider_than_needed(cfg: Config)
    ensures
        kmax(cfg) == cfg.hidden_size || kmax(cfg) == cfg.num_hidden_layers
            * cfg.hidden_size_per_layer_input || kmax(cfg) == 0 || exists|l: int|
            0 <= l < cfg.layer_types@.len() && (kmax(cfg) == #[trigger] cfg.mlp_width(l) || kmax(cfg)
                == cfg.num_attention_heads * cfg.head_width(l)),
{
    lemma_widest_is_one(cfg, cfg.layer_types@.len() as int);
}

proof fn lemma_widest_is_one(cfg: Config, n: int)
    ensures
        widest(cfg, n) == 0 || exists|l: int|
            0 <= l < n && (widest(cfg, n) == #[trigger] cfg.mlp_width(l) || widest(cfg, n)
                == cfg.num_attention_heads * cfg.head_width(l)),
    decreases n,
{
    if n > 0 {
        lemma_widest_is_one(cfg, n - 1);
        let w = cfg.mlp_width(n - 1);
        if widest(cfg, n) == widest(cfg, n - 1) && widest(cfg, n) != 0 {
            let l = choose|l: int|
                0 <= l < n - 1 && (widest(cfg, n - 1) == #[trigger] cfg.mlp_width(l) || widest(
                    cfg,
                    n - 1,
                ) == cfg.num_attention_heads * cfg.head_width(l));
            assert(cfg.mlp_width(l) == cfg.mlp_width(l));
        }
    }
}

// ---------------------------------------------------------------- a layer
/// What a layer does.
#[derive(Clone, Copy)]
pub struct LayerPlan {
    pub head_dim: usize,
    pub inter: usize,
    pub sliding: bool,
    /// whether the layer writes a cache of its own
    pub owns: bool,
    /// the layer whose cache it reads
    pub source: usize,
}

/// What layer `l` does.
pub fn layer_plan(cfg: &Config, l: usize) -> (p: LayerPlan)
    requires
        l < cfg.layer_types@.len(),
        cfg.mlp_width(l as int) <= usize::MAX,
        exists|s: int| cfg.reads_from(l as int, s),
    ensures
        p.head_dim == cfg.head_width(l as int),
        p.inter == cfg.mlp_width(l as int),
        p.sliding == cfg.sliding(l as int),
        p.owns == !cfg.shared(l as int),
        cfg.reads_from(l as int, p.source as int),
{
    LayerPlan {
        head_dim: cfg.head_dim_of(l),
        inter: cfg.inter_of(l),
        sliding: cfg.is_sliding(l),
        owns: !cfg.is_shared(l),
        source: cfg.kv_source(l),
    }
}

/// What a query at `pos` reads of a cache: its window, cut down to what a ring
/// can hold.
pub open spec fn read_span(cfg: Config, l: int, lk: LayerKv, pos: int) -> (int, int) {
    let w = attended(
        if cfg.sliding(l) {
            cfg.sliding_window as int
        } else {
            0
        },
        pos,
    );
    if lk.ring && w.1 - w.0 > lk.capacity {
        (w.1 - lk.capacity, w.1)
    } else {
        w
    }
}

/// What a query of layer `l` at `pos` reads of the cache `lk`.
pub fn attend_span(kv: &KvCache, cfg: &Config, l: usize, lk: &LayerKv, pos: usize) -> (r: (
    usize,
    usize,
))
    requires
        l < cfg.layer_types@.len(),
        pos < usize::MAX,
        cfg.sliding(l as int) ==> cfg.sliding_window > 0,
    ensures
        (r.0 as int, r.1 as int) == read_span(*cfg, l as int, *lk, pos as int),
        r.0 <= r.1,
{
    let (start, end) = kv.window(cfg, l, pos);
    if lk.ring && end - start > lk.capacity {
        (end - lk.capacity, end)
    } else {
        (start, end)
    }
}

/// In a cache made for the model the cut never bites: every layer reads its
/// whole window, and every position of it has a place.
pub proof fn law_layers_read_their_whole_window(
    c: KvCache,
    cfg: Config,
    max_len: int,
    max_batch: int,
    l: int,
    s: int,
    pos: int,
    p: int,
)
    requires
        is_new(c, cfg, max_len, max_batch, true),
        0 <= l < cfg.layer_types@.len(),
        cfg.reads_from(l, s),
        0 <= s < cfg.num_hidden_layers,
        !cfg.shared(s),
        cfg.sliding(l) ==> cfg.sliding_window > 0,
        0 <= max_batch,
        0 <= pos < max_len,
        c.layers@[s] is Some,
        read_span(cfg, l, c.layers@[s]->0, pos).0 <= p < read_span(cfg, l, c.layers@[s]->0, pos).1,
    ensures
        read_span(cfg, l, c.layers@[s]->0, pos) == attended(
            if cfg.sliding(l) {
                cfg.sliding_window as int
            } else {
                0
            },
            pos,
        ),
        c.layers@[s]->0.has_place(p),
{
    let lk = c.layers@[s]->0;
    crate::model::config::law_source_has_the_layers_shape(cfg, l, s);
    if cfg.shared(l) {
        crate::kv::law_sources_keep_every_position(c, cfg, max_len, max_batch, l, s);
    }
}

/// Where row `r`'s input to layer `l` begins among the per-layer inputs.
pub open spec fn ple_at(cfg: Config, r: int, l: int) -> int {
    (r * cfg.num_hidden_layers + l) * cfg.hidden_size_per_layer_input
}

/// The per-layer inputs lie row by row, and in a row layer by layer, one behind the
/// other from the first on.
pub proof fn law_inputs_lie_side_by_side(cfg: Config, r: int, l: int)
    ensures
        ple_at(cfg, 0, 0) == 0,
        ple_at(cfg, r, l + 1) == ple_at(cfg, r, l) + cfg.hidden_size_per_layer_input,
        ple_at(cfg, r + 1, 0) == ple_at(cfg, r, cfg.num_hidden_layers as int),
{
    let n = cfg.num_hidden_layers as int;
    let w = cfg.hidden_size_per_layer_input as int;
    assert((r * n + (l + 1)) * w == (r * n + l) * w + w) by (nonlinear_arith);
    assert((r + 1) * n + 0 == r * n + n) by (nonlinear_arith);
    assert((0 * n + 0) * w == 0) by (nonlinear_arith);
}

/// Where row `r`'s input to layer `l` begins among the per-layer inputs.
pub fn ple_offset(cfg: &Config, r: usize, l: usize) -> (n: usize)
    requires
        l < cfg.num_hidden_layers,
        (r + 1) * (cfg.num_hidden_layers * cfg.hidden_size_per_layer_input) <= usize::MAX,
    ensures
        n == ple_at(*cfg, r as int, l as int),
        n + cfg.hidden_size_per_layer_input <= (r + 1) * (cfg.num_hidden_layers
            * cfg.hidden_size_per_layer_input),
{
    let nl: usize = cfg.num_hidden_layers;
    let pd: usize = cfg.hidden_size_per_layer_input;
    if pd == 0 {
        assert((r * nl + l) * 0 == 0);
        return 0;
    }
    proof {
        assert((r * nl + l) * pd + pd <= (r + 1) * (nl * pd)) by (nonlinear_arith)
            requires
                l < nl,
                0 < pd,
        ;
        assert(0 <= r * nl) by (nonlinear_arith);
        assert(r * nl + l <= (r * nl + l) * pd) by (nonlinear_arith)
            requires
                0 < pd,
                0 <= r * nl + l,
        ;
    }
    (r * nl + l) * pd
}

} // verus!
