//! The shape of a model.
use vstd::prelude::*;
use crate::text::same_text;

verus! {

/// The bits of each kind of weight.
#[derive(Clone, Copy)]
pub struct QuantBits {
    pub ffn: u32,
    pub attn: u32,
    pub ple: u32,
    pub emb: u32,
}

/// The shape of a model. Its real-valued parameters (the norms' epsilon, the
/// scales of the embeddings, the cap of the logits) are the application's.
pub struct Config {
    pub hidden_size: usize,
    pub num_hidden_layers: usize,
    pub intermediate_size: usize,
    pub use_double_wide_mlp: bool,
    pub num_attention_heads: usize,
    pub num_key_value_heads: usize,
    pub head_dim: usize,
    pub global_head_dim: usize,
    pub layer_types: Vec<String>,
    pub first_shared_layer: usize,
    pub store_full_length_kv: Vec<usize>,
    pub hidden_size_per_layer_input: usize,
    pub vocab_size: usize,
    pub vocab_size_per_layer_input: usize,
    pub sliding_window: usize,
    pub hadamard: usize,
    pub quant: QuantBits,
}

impl Config {
    /// Whether layer `l` reads the cache of another layer.
    pub open spec fn shared(&self, l: int) -> bool {
        l >= self.first_shared_layer
    }

    /// Whether layer `l` attends to a sliding window.
    pub open spec fn sliding(&self, l: int) -> bool {
        self.layer_types@[l]@ == "sliding_attention"@
    }

    /// The width of a head of layer `l`.
    pub open spec fn head_width(&self, l: int) -> usize {
        if self.sliding(l) {
            self.head_dim
        } else {
            self.global_head_dim
        }
    }

    /// The width of the MLP of layer `l`.
    pub open spec fn mlp_width(&self, l: int) -> int {
        if self.use_double_wide_mlp && self.shared(l) {
            2 * self.intermediate_size
        } else {
            self.intermediate_size as int
        }
    }

    /// Whether two layers are of one type.
    pub open spec fn same_type(&self, a: int, b: int) -> bool {
        self.layer_types@[a]@ == self.layer_types@[b]@
    }

    /// Whether entry `i` is the first full-length source of layer `l`'s type.
    pub open spec fn first_source(&self, l: int, i: int) -> bool {
        &&& 0 <= i < self.store_full_length_kv@.len()
        &&& forall|j: int|
            0 <= j <= i ==> #[trigger] self.store_full_length_kv@[j] < self.layer_types@.len()
        &&& self.same_type(self.store_full_length_kv@[i] as int, l)
        &&& forall|j: int|
            0 <= j < i ==> !self.same_type(#[trigger] self.store_full_length_kv@[j] as int, l)
    }

    /// Whether `s` is the layer whose cache layer `l` reads: itself where it
    /// owns one, else the first full-length layer of its type.
    pub open spec fn reads_from(&self, l: int, s: int) -> bool {
        if self.shared(l) {
            exists|i: int| #[trigger]
                self.first_source(l, i) && s == self.store_full_length_kv@[i]
        } else {
            s == l
        }
    }

    /// Whether layer `l` reads the cache of another layer.
    pub fn is_shared(&self, l: usize) -> (r: bool)
        ensures
            r == self.shared(l as int),
    {
        l >= self.first_shared_layer
    }

    /// Whether layer `l` attends to a sliding window.
    pub fn is_sliding(&self, l: usize) -> (r: bool)
        requires
            l < self.layer_types@.len(),
        ensures
            r == self.sliding(l as int),
    {
        same_text(self.layer_types[l].as_str(), "sliding_attention")
    }

    /// The width of a head of layer `l`.
    pub fn head_dim_of(&self, l: usize) -> (r: usize)
        requires
            l < self.layer_types@.len(),
        ensures
            r == self.head_width(l as int),
    {
        if self.is_sliding(l) {
            self.head_dim
        } else {
            self.global_head_dim
        }
    }

    /// The width of the MLP of layer `l`.
    pub fn inter_of(&self, l: usize) -> (r: usize)
        requires
            self.mlp_width(l as int) <= usize::MAX,
        ensures
            r == self.mlp_width(l as int),
    {
        if self.use_double_wide_mlp && self.is_shared(l) {
            2 * self.intermediate_size
        } else {
            self.intermediate_size
        }
    }

    /// Layer whose cache this layer reads, if there is one.
    pub fn find_source(&self, l: usize) -> (r: Option<usize>)
        requires
            l < self.layer_types@.len(),
        ensures
            match r {
                Some(s) => self.reads_from(l as int, s as int),
                None => forall|s: int| !self.reads_from(l as int, s),
            },
    {
        if !self.is_shared(l) {
            return Some(l);
        }
        let mut i: usize = 0;
        while i < self.store_full_length_kv.len()
            invariant
                l < self.layer_types@.len(),
                self.shared(l as int),
                i <= self.store_full_length_kv@.len(),
                forall|j: int|
                    0 <= j < i ==> #[trigger] self.store_full_length_kv@[j]
                        < self.layer_types@.len(),
                forall|j: int|
                    0 <= j < i ==> !self.same_type(
                        #[trigger] self.store_full_length_kv@[j] as int,
                        l as int,
                    ),
            decreases self.store_full_length_kv@.len() - i,
        {
            let s: usize = self.store_full_length_kv[i];
            if s >= self.layer_types.len() {
                assert forall|k: int| !#[trigger] self.first_source(l as int, k) by {
                    if k >= i {
                        assert(self.store_full_length_kv@[i as int] == s);
                    }
                }
                return None;
            }
            if same_text(self.layer_types[s].as_str(), self.layer_types[l].as_str()) {
                assert(self.first_source(l as int, i as int));
                return Some(s);
            }
            i += 1;
        }
        None
    }

    /// Layer whose cache this layer reads: itself if it owns one, else the
    /// full-length layer of the same type.
    pub fn kv_source(&self, l: usize) -> (s: usize)
        requires
            l < self.layer_types@.len(),
            exists|s: int| self.reads_from(l as int, s),
        ensures
            self.reads_from(l as int, s as int),
    {
        match self.find_source(l) {
            Some(s) => s,
            None => vstd::pervasive::unreached(),
        }
    }
}

/// A layer reads one cache.
pub proof fn law_one_source(c: Config, l: int, a: int, b: int)
    requires
        c.reads_from(l, a),
        c.reads_from(l, b),
    ensures
        a == b,
{
    if c.shared(l) {
        let i = choose|i: int| #[trigger]
            c.first_source(l, i) && a == c.store_full_length_kv@[i];
        let j = choose|j: int| #[trigger]
            c.first_source(l, j) && b == c.store_full_length_kv@[j];
        if i < j {
            assert(!c.same_type(c.store_full_length_kv@[i] as int, l));
        }
        if j < i {
            assert(!c.same_type(c.store_full_length_kv@[j] as int, l));
        }
    }
}

/// The cache that a layer reads has rows of its own width, and belongs to a
/// layer of its own type.
pub proof fn law_source_has_the_layers_shape(c: Config, l: int, s: int)
    requires
        0 <= l < c.layer_types@.len(),
        c.reads_from(l, s),
    ensures
        0 <= s < c.layer_types@.len(),
        c.same_type(s, l),
        c.sliding(s) == c.sliding(l),
        c.head_width(s) == c.head_width(l),
{
}

/// Where the full-length layers own their caches, a source is its own source:
/// reading goes one step, never two.
pub proof fn law_source_owns_its_cache(c: Config, l: int, s: int)
    requires
        c.reads_from(l, s),
        forall|i: int|
            0 <= i < c.store_full_length_kv@.len() ==> !c.shared(
                #[trigger] c.store_full_length_kv@[i] as int,
            ),
    ensures
        !c.shared(s),
        c.reads_from(s, s),
{
}

/// The layers before the first shared one own their caches, and those from it on read
/// another's; only these can have the wide MLP, which is twice as wide.
pub proof fn law_the_first_shared_layer_parts_the_model(c: Config, l: int)
    ensures
        !c.shared(l) ==> c.reads_from(l, l) && c.mlp_width(l) == c.intermediate_size,
        c.shared(c.first_shared_layer as int),
        !c.shared(c.first_shared_layer - 1),
        c.shared(l) ==> c.shared(l + 1),
        c.shared(l) && c.use_double_wide_mlp ==> c.mlp_width(l) == 2 * c.mlp_width(
            c.first_shared_layer - 1,
        ),
        !c.use_double_wide_mlp ==> c.mlp_width(l) == c.intermediate_size,
{
}

/// A layer that attends to a window has heads of the one width, any other layer heads
/// of the other.
pub proof fn law_heads_follow_the_type(c: Config, l: int)
    ensures
        c.layer_types@[l]@ == "sliding_attention"@ ==> c.sliding(l) && c.head_width(l)
            == c.head_dim,
        c.layer_types@[l]@ != "sliding_attention"@ ==> !c.sliding(l) && c.head_width(l)
            == c.global_head_dim,
{
}

/// A shared layer reads the full-length layer of its type, and the first of them where
/// there are several: the layers that stand before it in the list are of other types.
pub proof fn law_shared_layers_read_the_first_of_their_type(c: Config, l: int, i: int)
    requires
        c.shared(l),
        0 <= i < c.store_full_length_kv@.len(),
        forall|j: int|
            0 <= j <= i ==> #[trigger] c.store_full_length_kv@[j] < c.layer_types@.len(),
        c.layer_types@[c.store_full_length_kv@[i] as int]@ == c.layer_types@[l]@,
        forall|j: int|
            0 <= j < i ==> c.layer_types@[#[trigger] c.store_full_length_kv@[j] as int]@
                != c.layer_types@[l]@,
    ensures
        c.reads_from(l, c.store_full_length_kv@[i] as int),
{
    assert(c.same_type(c.store_full_length_kv@[i] as int, l));
    assert(c.first_source(l, i));
}

} // verus!
