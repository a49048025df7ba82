//! The steps of a layer, in order.
//!
//! A step names the weight it reads and the rows it reads and writes; the
//! arithmetic of a step is a kernel's.
use vstd::prelude::*;
use crate::forward::{kmax, law_scratch_holds_every_product, layer_plan};
use crate::kernels::packed_len;
use crate::model::config::Config;
use crate::text::{decimal, decimal_text};

verus! {

// ---------------------------------------------------------------- steps
/// Rows that the steps of a layer read and write.
#[derive(Clone, Copy, Debug, PartialEq, Eq, Structural)]
pub enum Buf {
    /// the residual stream
    H,
    /// its normed rows
    Xn,
    Q,
    K,
    V,
    /// what attention gives
    Ao,
    /// attention's output, projected
    Proj,
    Gate,
    Up,
    /// the MLP's activation
    Act,
    /// the MLP's output
    Down,
    /// the gated per-layer input
    P,
    /// the per-layer input, projected
    Pout,
}

/// A step of a layer.
pub enum Op {
    /// `to = rmsnorm(from) * weight`, row by row
    Norm { weight: String, from: Buf, to: Buf },
    /// `to = from . weight`
    Product { weight: String, from: Buf, to: Buf },
    /// each head of each row normed, with the weight where there is one
    HeadNorm { norm: Option<String>, rows: Buf, heads: usize },
    /// each row rotated by its position
    Rope { rows: Buf, heads: usize },
    /// the rows of `K` and `V` into the layer's cache
    Store,
    /// `Ao` from `Q` and the cache of a layer; a window of 0 is all of it
    Attend { source: usize, window: usize },
    /// `H += rmsnorm(from) * weight`
    Join { weight: String, from: Buf },
    /// `Act = gelu(Gate) * Up`
    GeluMul,
    /// `P = gelu(P)`
    Gelu,
    /// `P *= ` the per-layer inputs of this layer
    Ple,
    /// `H *= weight`
    Scale { weight: String },
}

/// What a step says.
#[verifier::ext_equal]
pub enum Does {
    Norm { weight: Seq<char>, from: Buf, to: Buf },
    Product { weight: Seq<char>, from: Buf, to: Buf },
    HeadNorm { norm: Option<Seq<char>>, rows: Buf, heads: int },
    Rope { rows: Buf, heads: int },
    Store,
    Attend { source: int, window: int },
    Join { weight: Seq<char>, from: Buf },
    GeluMul,
    Gelu,
    Ple,
    Scale { weight: Seq<char> },
}

impl View for Op {
    type V = Does;

    open spec fn view(&self) -> Does {
        match *self {
            Op::Norm { weight, from, to } => Does::Norm { weight: weight@, from, to },
            Op::Product { weight, from, to } => Does::Product { weight: weight@, from, to },
            Op::HeadNorm { norm, rows, heads } => Does::HeadNorm {
                norm: match norm {
                    Some(w) => Some(w@),
                    None => None,
                },
                rows,
                heads: heads as int,
            },
            Op::Rope { rows, heads } => Does::Rope { rows, heads: heads as int },
            Op::Store => Does::Store,
            Op::Attend { source, window } => Does::Attend {
                source: source as int,
                window: window as int,
            },
            Op::Join { weight, from } => Does::Join { weight: weight@, from },
            Op::GeluMul => Does::GeluMul,
            Op::Gelu => Does::Gelu,
            Op::Ple => Does::Ple,
            Op::Scale { weight } => Does::Scale { weight: weight@ },
        }
    }
}

/// What several steps say.
pub open spec fn all_do(ops: Seq<Op>) -> Seq<Does> {
    ops.map_values(|o: Op| o@)
}

// ---------------------------------------------------------------- a layer
/// The name of a weight of layer `l`.
pub open spec fn weight_name(l: int, part: Seq<char>) -> Seq<char> {
    "l"@ + decimal(l as nat) + "."@ + part
}

/// The steps that give the queries.
pub open spec fn query_steps(cfg: Config, l: int) -> Seq<Does> {
    seq![
        Does::Norm { weight: weight_name(l, "input_layernorm"@), from: Buf::H, to: Buf::Xn },
        Does::Product { weight: weight_name(l, "q_proj"@), from: Buf::Xn, to: Buf::Q },
        Does::HeadNorm {
            norm: Some(weight_name(l, "q_norm"@)),
            rows: Buf::Q,
            heads: cfg.num_attention_heads as int,
        },
        Does::Rope { rows: Buf::Q, heads: cfg.num_attention_heads as int },
    ]
}

/// The steps that write the cache, where the layer owns one.
pub open spec fn cache_steps(cfg: Config, l: int) -> Seq<Does> {
    let kvh = cfg.num_key_value_heads as int;
    if cfg.shared(l) {
        Seq::empty()
    } else {
        seq![
            Does::Product { weight: weight_name(l, "k_proj"@), from: Buf::Xn, to: Buf::K },
            Does::Product { weight: weight_name(l, "v_proj"@), from: Buf::Xn, to: Buf::V },
            Does::HeadNorm {
                norm: Some(weight_name(l, "k_norm"@)),
                rows: Buf::K,
                heads: kvh,
            },
            Does::HeadNorm { norm: None, rows: Buf::V, heads: kvh },
            Does::Rope { rows: Buf::K, heads: kvh },
            Does::Store,
        ]
    }
}

/// The steps behind the cache: attention, the MLP, the per-layer input.
pub open spec fn later_steps(cfg: Config, l: int, source: int) -> Seq<Does> {
    seq![
        Does::Attend {
            source,
            window: if cfg.sliding(l) {
                cfg.sliding_window as int
            } else {
                0
            },
        },
        Does::Product { weight: weight_name(l, "o_proj"@), from: Buf::Ao, to: Buf::Proj },
        Does::Join { weight: weight_name(l, "post_attention_layernorm"@), from: Buf::Proj },
        Does::Norm {
            weight: weight_name(l, "pre_feedforward_layernorm"@),
            from: Buf::H,
            to: Buf::Xn,
        },
        Does::Product { weight: weight_name(l, "gate_proj"@), from: Buf::Xn, to: Buf::Gate },
        Does::Product { weight: weight_name(l, "up_proj"@), from: Buf::Xn, to: Buf::Up },
        Does::GeluMul,
        Does::Product { weight: weight_name(l, "down_proj"@), from: Buf::Act, to: Buf::Down },
        Does::Join { weight: weight_name(l, "post_feedforward_layernorm"@), from: Buf::Down },
        Does::Product {
            weight: weight_name(l, "per_layer_input_gate"@),
            from: Buf::H,
            to: Buf::P,
        },
        Does::Gelu,
        Does::Ple,
        Does::Product {
            weight: weight_name(l, "per_layer_projection"@),
            from: Buf::P,
            to: Buf::Pout,
        },
        Does::Join { weight: weight_name(l, "post_per_layer_input_norm"@), from: Buf::Pout },
        Does::Scale { weight: weight_name(l, "layer_scalar"@) },
    ]
}

/// The steps of layer `l`, which reads the cache of layer `source`.
pub open spec fn steps(cfg: Config, l: int, source: int) -> Seq<Does> {
    query_steps(cfg, l) + cache_steps(cfg, l) + later_steps(cfg, l, source)
}

fn name(l: usize, part: &str) -> (s: String)
    ensures
        s@ == weight_name(l as int, part@),
{
    let mut s = "l".to_owned();
    s.append(decimal_text(l as u64).as_str());
    s.append(".");
    s.append(part);
    s
}

fn query_ops(cfg: &Config, l: usize) -> (ops: Vec<Op>)
    ensures
        all_do(ops@) == query_steps(*cfg, l as int),
{
    let heads: usize = cfg.num_attention_heads;
    let ops = vec![
        Op::Norm { weight: name(l, "input_layernorm"), from: Buf::H, to: Buf::Xn },
        Op::Product { weight: name(l, "q_proj"), from: Buf::Xn, to: Buf::Q },
        Op::HeadNorm { norm: Some(name(l, "q_norm")), rows: Buf::Q, heads },
        Op::Rope { rows: Buf::Q, heads },
    ];
    assert(all_do(ops@) =~= query_steps(*cfg, l as int));
    ops
}

fn cache_ops(cfg: &Config, l: usize) -> (ops: Vec<Op>)
    ensures
        all_do(ops@) == cache_steps(*cfg, l as int),
{
    let heads: usize = cfg.num_key_value_heads;
    let ops = if cfg.is_shared(l) {
        Vec::new()
    } else {
        vec![
            Op::Product { weight: name(l, "k_proj"), from: Buf::Xn, to: Buf::K },
            Op::Product { weight: name(l, "v_proj"), from: Buf::Xn, to: Buf::V },
            Op::HeadNorm { norm: Some(name(l, "k_norm")), rows: Buf::K, heads },
            Op::HeadNorm { norm: None, rows: Buf::V, heads },
            Op::Rope { rows: Buf::K, heads },
            Op::Store,
        ]
    };
    assert(all_do(ops@) =~= cache_steps(*cfg, l as int));
    ops
}

fn later_ops(cfg: &Config, l: usize, source: usize) -> (ops: Vec<Op>)
    requires
        l < cfg.layer_types@.len(),
    ensures
        all_do(ops@) == later_steps(*cfg, l as int, source as int),
{
    let window: usize = if cfg.is_sliding(l) {
        cfg.sliding_window
    } else {
        0
    };
    let ops = vec![
        Op::Attend { source, window },
        Op::Product { weight: name(l, "o_proj"), from: Buf::Ao, to: Buf::Proj },
        Op::Join { weight: name(l, "post_attention_layernorm"), from: Buf::Proj },
        Op::Norm { weight: name(l, "pre_feedforward_layernorm"), from: Buf::H, to: Buf::Xn },
        Op::Product { weight: name(l, "gate_proj"), from: Buf::Xn, to: Buf::Gate },
        Op::Product { weight: name(l, "up_proj"), from: Buf::Xn, to: Buf::Up },
        Op::GeluMul,
        Op::Product { weight: name(l, "down_proj"), from: Buf::Act, to: Buf::Down },
        Op::Join { weight: name(l, "post_feedforward_layernorm"), from: Buf::Down },
        Op::Product { weight: name(l, "per_layer_input_gate"), from: Buf::H, to: Buf::P },
        Op::Gelu,
        Op::Ple,
        Op::Product { weight: name(l, "per_layer_projection"), from: Buf::P, to: Buf::Pout },
        Op::Join { weight: name(l, "post_per_layer_input_norm"), from: Buf::Pout },
        Op::Scale { weight: name(l, "layer_scalar") },
    ];
    assert(all_do(ops@) =~= later_steps(*cfg, l as int, source as int));
    ops
}

/// The steps of layer `l`.
pub fn layer_ops(cfg: &Config, l: usize) -> (ops: Vec<Op>)
    requires
        l < cfg.layer_types@.len(),
        cfg.mlp_width(l as int) <= usize::MAX,
        exists|s: int| cfg.reads_from(l as int, s),
    ensures
        exists|s: int|
            cfg.reads_from(l as int, s) && all_do(ops@) == #[trigger] steps(*cfg, l as int, s),
{
    let source: usize = layer_plan(cfg, l).source;
    let mut ops = query_ops(cfg, l);
    let ghost a = ops@;
    let mut more = cache_ops(cfg, l);
    let ghost b = more@;
    ops.append(&mut more);
    let mut last = later_ops(cfg, l, source);
    let ghost c = last@;
    ops.append(&mut last);
    proof {
        assert(ops@ =~= a + b + c);
        assert(all_do(ops@) =~= all_do(a) + all_do(b) + all_do(c));
        assert(all_do(ops@) == steps(*cfg, l as int, source as int));
    }
    ops
}

// ---------------------------------------------------------------- what the steps keep
/// The width of a row.
pub open spec fn width(cfg: Config, l: int, b: Buf) -> int {
    match b {
        Buf::H | Buf::Xn | Buf::Proj | Buf::Down | Buf::Pout => cfg.hidden_size as int,
        Buf::Q | Buf::Ao => cfg.num_attention_heads * cfg.head_width(l),
        Buf::K | Buf::V => cfg.num_key_value_heads * cfg.head_width(l),
        Buf::Gate | Buf::Up | Buf::Act => cfg.mlp_width(l),
        Buf::P => cfg.hidden_size_per_layer_input as int,
    }
}

/// The width of a row of layer `l`.
pub fn buf_width(cfg: &Config, l: usize, b: Buf) -> (n: usize)
    requires
        l < cfg.layer_types@.len(),
        width(*cfg, l as int, b) <= usize::MAX,
    ensures
        n == width(*cfg, l as int, b),
{
    match b {
        Buf::H | Buf::Xn | Buf::Proj | Buf::Down | Buf::Pout => cfg.hidden_size,
        Buf::Q | Buf::Ao => cfg.num_attention_heads * cfg.head_dim_of(l),
        Buf::K | Buf::V => cfg.num_key_value_heads * cfg.head_dim_of(l),
        Buf::Gate | Buf::Up | Buf::Act => cfg.inter_of(l),
        Buf::P => cfg.hidden_size_per_layer_input,
    }
}

/// Whether a step reads rows.
pub open spec fn reads(d: Does, b: Buf) -> bool {
    match d {
        Does::Norm { from, .. } => b == from,
        Does::Product { from, .. } => b == from,
        Does::HeadNorm { rows, .. } => b == rows,
        Does::Rope { rows, .. } => b == rows,
        Does::Store => b == Buf::K || b == Buf::V,
        Does::Attend { .. } => b == Buf::Q,
        Does::Join { from, .. } => b == from || b == Buf::H,
        Does::GeluMul => b == Buf::Gate || b == Buf::Up,
        Does::Gelu => b == Buf::P,
        Does::Ple => b == Buf::P,
        Does::Scale { .. } => b == Buf::H,
    }
}

/// Whether a step writes rows.
pub open spec fn writes(d: Does, b: Buf) -> bool {
    match d {
        Does::Norm { to, .. } => b == to,
        Does::Product { to, .. } => b == to,
        Does::HeadNorm { rows, .. } => b == rows,
        Does::Rope { rows, .. } => b == rows,
        Does::Store => false,
        Does::Attend { .. } => b == Buf::Ao,
        Does::Join { .. } => b == Buf::H,
        Does::GeluMul => b == Buf::Act,
        Does::Gelu => b == Buf::P,
        Does::Ple => b == Buf::P,
        Does::Scale { .. } => b == Buf::H,
    }
}

/// Whether some step before step `i` writes rows.
pub open spec fn written_before(ds: Seq<Does>, i: int, b: Buf) -> bool {
    exists|j: int| 0 <= j < i && #[trigger] writes(ds[j], b)
}

/// Every step reads the residual stream or what an earlier step of the layer has
/// written.
pub proof fn law_steps_read_what_was_written(cfg: Config, l: int, source: int, i: int, b: Buf)
    requires
        0 <= i < steps(cfg, l, source).len(),
        reads(steps(cfg, l, source)[i], b),
        b != Buf::H,
    ensures
        written_before(steps(cfg, l, source), i, b),
{
    let ds = steps(cfg, l, source);
    let q = query_steps(cfg, l);
    let c = cache_steps(cfg, l);
    let n: int = q.len() as int + c.len();
    assert(forall|j: int| 0 <= j < 4 ==> ds[j] == #[trigger] q[j]);
    assert(forall|j: int| 0 <= j < c.len() ==> ds[4 + j] == #[trigger] c[j]);
    let t = later_steps(cfg, l, source);
    assert(forall|j: int| 0 <= j < 15 ==> ds[n + j] == #[trigger] t[j]);
    assert(writes(q[0], Buf::Xn));
    assert(writes(q[1], Buf::Q));
    assert(writes(ds[0], Buf::Xn));
    assert(writes(ds[1], Buf::Q));
    if i < 4 {
        assert(ds[i] == q[i]);
    } else if i < n {
        assert(ds[i] == c[i - 4]);
        assert(writes(c[0], Buf::K) && writes(c[1], Buf::V));
        assert(writes(ds[4], Buf::K));
        assert(writes(ds[5], Buf::V));
    } else {
        assert(ds[i] == t[i - n]);
        assert(writes(t[0], Buf::Ao) && writes(t[1], Buf::Proj) && writes(t[4], Buf::Gate)
            && writes(t[5], Buf::Up) && writes(t[6], Buf::Act) && writes(t[7], Buf::Down)
            && writes(t[9], Buf::P) && writes(t[12], Buf::Pout));
        assert(writes(ds[n + 0], Buf::Ao) && writes(ds[n + 1], Buf::Proj) && writes(
            ds[n + 4],
            Buf::Gate,
        ) && writes(ds[n + 5], Buf::Up) && writes(ds[n + 6], Buf::Act) && writes(
            ds[n + 7],
            Buf::Down,
        ) && writes(ds[n + 9], Buf::P) && writes(ds[n + 12], Buf::Pout));
    }
}

/// A layer that owns a cache writes it before it attends; one that does not
/// writes none.
pub proof fn law_caches_are_written_before_they_are_read(cfg: Config, l: int, source: int)
    ensures
        cfg.shared(l) ==> forall|i: int|
            0 <= i < steps(cfg, l, source).len() ==> !(#[trigger] steps(cfg, l, source)[i] is Store),
        !cfg.shared(l) ==> steps(cfg, l, source)[9] is Store && steps(cfg, l, source)[10] is Attend,
        forall|i: int|
            0 <= i < steps(cfg, l, source).len() && (#[trigger] steps(
                cfg,
                l,
                source,
            )[i] is Attend) ==> i == 4 + cache_steps(cfg, l).len(),
{
    let ds = steps(cfg, l, source);
    let q = query_steps(cfg, l);
    let c = cache_steps(cfg, l);
    let t = later_steps(cfg, l, source);
    let n: int = q.len() as int + c.len();
    assert(forall|j: int| 0 <= j < 4 ==> #[trigger] ds[j] == q[j]);
    assert(forall|j: int| 4 <= j < n ==> #[trigger] ds[j] == c[j - 4]);
    assert(forall|j: int| n <= j < ds.len() ==> #[trigger] ds[j] == t[j - n]);
}

/// A layer attends to a cache that this forward has written by then: its own, or
/// that of a layer before it.
pub proof fn law_sources_come_first(cfg: Config, l: int, s: int)
    requires
        cfg.reads_from(l, s),
        forall|i: int|
            0 <= i < cfg.store_full_length_kv@.len() ==> !cfg.shared(
                #[trigger] cfg.store_full_length_kv@[i] as int,
            ),
    ensures
        s <= l,
        !cfg.shared(s),
{
}

/// Whatever a product of a layer reads, `m` rows of it fit the buffers that are
/// made for `max_tokens` rows.
pub proof fn law_products_fit_the_scratch(
    cfg: Config,
    max_tokens: int,
    m: int,
    l: int,
    source: int,
    i: int,
)
    requires
        0 <= m <= max_tokens,
        0 <= l < cfg.layer_types@.len(),
        0 < cfg.num_hidden_layers,
        0 <= i < steps(cfg, l, source).len(),
        steps(cfg, l, source)[i] is Product,
    ensures
        m * width(cfg, l, steps(cfg, l, source)[i]->Product_from) <= max_tokens * kmax(cfg),
        packed_len(m, width(cfg, l, steps(cfg, l, source)[i]->Product_from)) <= packed_len(
            max_tokens,
            kmax(cfg),
        ),
{
    let ds = steps(cfg, l, source);
    let q = query_steps(cfg, l);
    let c = cache_steps(cfg, l);
    let t = later_steps(cfg, l, source);
    let n: int = q.len() as int + c.len();
    assert(ds[i] == if i < 4 {
        q[i]
    } else if i < n {
        c[i - 4]
    } else {
        t[i - n]
    });
    law_scratch_holds_every_product(cfg, max_tokens, m, l, width(cfg, l, ds[i]->Product_from));
}

/// Whether the rows of a step are as wide as it takes them: norms keep the width, heads
/// make up the row, and what is added or multiplied is equally wide.
pub open spec fn widths_agree(cfg: Config, l: int, d: Does) -> bool {
    match d {
        Does::Norm { from, to, .. } => width(cfg, l, from) == width(cfg, l, to),
        Does::Product { .. } => true,
        Does::HeadNorm { rows, heads, .. } => width(cfg, l, rows) == heads * cfg.head_width(l),
        Does::Rope { rows, heads } => width(cfg, l, rows) == heads * cfg.head_width(l),
        Does::Store => width(cfg, l, Buf::K) == width(cfg, l, Buf::V),
        Does::Attend { .. } => width(cfg, l, Buf::Q) == width(cfg, l, Buf::Ao),
        Does::Join { from, .. } => width(cfg, l, from) == width(cfg, l, Buf::H),
        Does::GeluMul => width(cfg, l, Buf::Gate) == width(cfg, l, Buf::Up) && width(
            cfg,
            l,
            Buf::Act,
        ) == width(cfg, l, Buf::Up),
        Does::Gelu => true,
        Does::Ple => width(cfg, l, Buf::P) == cfg.hidden_size_per_layer_input,
        Does::Scale { .. } => width(cfg, l, Buf::H) == cfg.hidden_size,
    }
}

/// The rows of every step fit together, and what goes into the cache is as wide as the
/// cache's rows: the key and value heads of the layer.
pub proof fn law_widths_agree(cfg: Config, l: int, source: int, i: int)
    requires
        0 <= i < steps(cfg, l, source).len(),
    ensures
        widths_agree(cfg, l, steps(cfg, l, source)[i]),
        width(cfg, l, Buf::K) == cfg.num_key_value_heads * cfg.head_width(l),
        width(cfg, l, Buf::Q) == cfg.num_attention_heads * cfg.head_width(l),
        width(cfg, l, Buf::Act) == cfg.mlp_width(l),
{
    let ds = steps(cfg, l, source);
    let q = query_steps(cfg, l);
    let c = cache_steps(cfg, l);
    let t = later_steps(cfg, l, source);
    let n: int = q.len() as int + c.len();
    assert(ds[i] == if i < 4 {
        q[i]
    } else if i < n {
        c[i - 4]
    } else {
        t[i - n]
    });
}

} // verus!
