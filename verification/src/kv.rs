//! The int8 KV cache.
//!
//! Only layers that own a cache have storage at all; the shared layers read the
//! cache of their source. A sliding layer that no other layer reads needs its
//! window only, so it gets a ring buffer; everything else is full length.
use vstd::prelude::*;
use crate::model::config::Config;
use crate::pool::attended;

verus! {

// ---------------------------------------------------------------- one layer
/// The cache of one layer. Scales are kept as the bits of their `f32`.
pub struct LayerKv {
    /// Positions this layer can hold: full length, or the window and a batch.
    pub capacity: usize,
    pub head_dim: usize,
    pub kv_heads: usize,
    /// `[capacity, kv_heads * head_dim]` int8
    pub k: Vec<i8>,
    pub v: Vec<i8>,
    /// per-position dequant scales
    pub ks: Vec<u32>,
    pub vs: Vec<u32>,
    pub ring: bool,
}

/// What is cached of one position.
#[verifier::ext_equal]
pub struct Row {
    pub k: Seq<i8>,
    pub v: Seq<i8>,
    pub ks: u32,
    pub vs: u32,
}

/// Whether `b` is `a` with `row` written at `pos`.
pub open spec fn is_store(a: LayerKv, b: LayerKv, pos: int, row: Row) -> bool {
    &&& b.wf()
    &&& b.alike(a)
    &&& b.at(pos) == row
    &&& forall|s: int|
        0 <= s < a.capacity && s != a.place(pos) ==> #[trigger] b.row(s) == a.row(s)
}

impl LayerKv {
    /// The length of a row.
    pub open spec fn width(&self) -> int {
        self.kv_heads * self.head_dim
    }

    /// Where position `pos` is kept.
    pub open spec fn place(&self, pos: int) -> int {
        if self.ring {
            pos % self.capacity as int
        } else {
            pos
        }
    }

    /// Whether there is a place for position `pos`.
    pub open spec fn has_place(&self, pos: int) -> bool {
        0 <= pos && if self.ring {
            self.capacity > 0
        } else {
            pos < self.capacity
        }
    }

    /// What slot `s` holds.
    pub open spec fn row(&self, s: int) -> Row {
        Row {
            k: self.k@.subrange(s * self.width(), s * self.width() + self.width()),
            v: self.v@.subrange(s * self.width(), s * self.width() + self.width()),
            ks: self.ks@[s],
            vs: self.vs@[s],
        }
    }

    /// What is read of position `pos`.
    pub open spec fn at(&self, pos: int) -> Row {
        self.row(self.place(pos))
    }

    /// Whether the storage is as long as the geometry says.
    pub open spec fn wf(&self) -> bool {
        &&& self.k@.len() == self.capacity * self.width()
        &&& self.v@.len() == self.capacity * self.width()
        &&& self.ks@.len() == self.capacity
        &&& self.vs@.len() == self.capacity
        &&& self.width() <= usize::MAX
    }

    /// Whether two caches are laid out alike.
    pub open spec fn alike(&self, o: LayerKv) -> bool {
        &&& self.capacity == o.capacity
        &&& self.head_dim == o.head_dim
        &&& self.kv_heads == o.kv_heads
        &&& self.ring == o.ring
    }

    /// Where position `pos` is kept.
    pub fn slot(&self, pos: usize) -> (s: usize)
        requires
            self.ring ==> self.capacity > 0,
        ensures
            s == self.place(pos as int),
            self.has_place(pos as int) ==> s < self.capacity,
    {
        if self.ring {
            pos % self.capacity
        } else {
            pos
        }
    }

    /// The length of a row.
    pub fn row_len(&self) -> (n: usize)
        requires
            self.width() <= usize::MAX,
        ensures
            n == self.width(),
    {
        self.kv_heads * self.head_dim
    }

    proof fn lemma_slot(&self, s: int)
        requires
            self.wf(),
            0 <= s < self.capacity,
        ensures
            0 <= s * self.width(),
            s * self.width() + self.width() <= self.capacity * self.width(),
            0 <= self.width(),
    {
        let w = self.width();
        assert(0 <= w) by {
            assert(0 <= self.kv_heads * self.head_dim) by (nonlinear_arith);
        }
        assert(0 <= s * w) by (nonlinear_arith)
            requires
                0 <= s,
                0 <= w,
        ;
        let c = self.capacity as int;
        assert(s * w + w <= c * w) by (nonlinear_arith)
            requires
                0 <= s < c,
                0 <= w,
        ;
    }

    /// Writes the row of position `pos`, and no other.
    pub fn store(&mut self, pos: usize, k: &[i8], ks: u32, v: &[i8], vs: u32)
        requires
            old(self).wf(),
            old(self).has_place(pos as int),
            k@.len() == old(self).width(),
            v@.len() == old(self).width(),
        ensures
            is_store(*old(self), *final(self), pos as int, (Row { k: k@, v: v@, ks, vs })),
    {
        let slot: usize = self.slot(pos);
        let w: usize = self.row_len();
        proof {
            self.lemma_slot(slot as int);
        }
        let len: usize = self.k.len();
        assert(self.capacity * w == len);
        assert(slot * w <= len);
        let base: usize = slot * w;
        let mut i: usize = 0;
        while i < w
            invariant
                i <= w,
                w == old(self).width(),
                base == slot * w,
                base + w <= len,
                len == old(self).k@.len(),
                old(self).wf(),
                k@.len() == w,
                v@.len() == w,
                self.wf(),
                self.alike(*old(self)),
                self.ks == old(self).ks,
                self.vs == old(self).vs,
                forall|j: int| base <= j < base + i ==> #[trigger] self.k@[j] == k@[j - base],
                forall|j: int| base <= j < base + i ==> #[trigger] self.v@[j] == v@[j - base],
                forall|j: int|
                    0 <= j < self.k@.len() && !(base <= j < base + i) ==> #[trigger] self.k@[j]
                        == old(self).k@[j],
                forall|j: int|
                    0 <= j < self.v@.len() && !(base <= j < base + i) ==> #[trigger] self.v@[j]
                        == old(self).v@[j],
            decreases w - i,
        {
            self.k.set(base + i, k[i]);
            self.v.set(base + i, v[i]);
            i += 1;
        }
        self.ks.set(slot, ks);
        self.vs.set(slot, vs);
        proof {
            assert(self.at(pos as int) =~= (Row { k: k@, v: v@, ks, vs }));
            assert forall|s: int| 0 <= s < old(self).capacity && s != slot implies #[trigger] self.row(
                s,
            ) == old(self).row(s) by {
                old(self).lemma_slot(s);
                let ww = w as int;
                assert(s * ww + ww <= slot * ww || slot * ww + ww <= s * ww) by (nonlinear_arith)
                    requires
                        s != slot,
                        0 <= ww,
                ;
                assert(self.row(s) =~= old(self).row(s));
            }
        }
    }

    /// Takes over the first `slots` slots of a cache that is laid out alike.
    fn copy_slots(&mut self, src: &LayerKv, slots: usize)
        requires
            old(self).wf(),
            src.wf(),
            old(self).alike(*src),
            slots <= src.capacity,
        ensures
            final(self).wf(),
            final(self).alike(*old(self)),
            forall|s: int| 0 <= s < slots ==> #[trigger] final(self).row(s) == src.row(s),
            forall|s: int|
                slots <= s < old(self).capacity ==> #[trigger] final(self).row(s) == old(self).row(
                    s,
                ),
    {
        let w: usize = self.row_len();
        let len: usize = self.k.len();
        let ghost c = self.capacity as int;
        assert(0 <= slots * w <= c * w) by (nonlinear_arith)
            requires
                0 <= slots <= c,
                0 <= w,
        ;
        let n: usize = slots * w;
        let mut i: usize = 0;
        while i < n
            invariant
                i <= n <= src.k@.len(),
                src.wf(),
                old(self).wf(),
                old(self).alike(*src),
                self.wf(),
                self.alike(*old(self)),
                self.ks == old(self).ks,
                self.vs == old(self).vs,
                forall|j: int| 0 <= j < i ==> #[trigger] self.k@[j] == src.k@[j],
                forall|j: int| 0 <= j < i ==> #[trigger] self.v@[j] == src.v@[j],
                forall|j: int|
                    i <= j < self.k@.len() ==> #[trigger] self.k@[j] == old(self).k@[j],
                forall|j: int|
                    i <= j < self.v@.len() ==> #[trigger] self.v@[j] == old(self).v@[j],
            decreases n - i,
        {
            self.k.set(i, src.k[i]);
            self.v.set(i, src.v[i]);
            i += 1;
        }
        let ghost mid = *self;
        let mut t: usize = 0;
        while t < slots
            invariant
                t <= slots <= src.capacity,
                src.wf(),
                old(self).wf(),
                old(self).alike(*src),
                self.wf(),
                self.alike(*old(self)),
                self.k == mid.k,
                self.v == mid.v,
                forall|j: int| 0 <= j < t ==> #[trigger] self.ks@[j] == src.ks@[j],
                forall|j: int| 0 <= j < t ==> #[trigger] self.vs@[j] == src.vs@[j],
                forall|j: int|
                    t <= j < self.ks@.len() ==> #[trigger] self.ks@[j] == old(self).ks@[j],
                forall|j: int|
                    t <= j < self.vs@.len() ==> #[trigger] self.vs@[j] == old(self).vs@[j],
            decreases slots - t,
        {
            self.ks.set(t, src.ks[t]);
            self.vs.set(t, src.vs[t]);
            t += 1;
        }
        proof {
            assert forall|s: int| 0 <= s < slots implies #[trigger] self.row(s) == src.row(s) by {
                old(self).lemma_slot(s);
                let ww = w as int;
                assert(s * ww + ww <= slots * ww) by (nonlinear_arith)
                    requires
                        s < slots,
                        0 <= ww,
                ;
                assert(self.row(s) =~= src.row(s));
            }
            assert forall|s: int| slots <= s < old(self).capacity implies #[trigger] self.row(s)
                == old(self).row(s) by {
                old(self).lemma_slot(s);
                let ww = w as int;
                assert(slots * ww <= s * ww) by (nonlinear_arith)
                    requires
                        slots <= s,
                        0 <= ww,
                ;
                assert(self.row(s) =~= old(self).row(s));
            }
        }
    }
}

// ---------------------------------------------------------------- all layers
/// The cache of one sequence.
pub struct KvCache {
    pub layers: Vec<Option<LayerKv>>,
    pub len: usize,
    pub max_len: usize,
}

/// Whether layer `l` has to keep every position: it attends to all of them, or
/// a shared layer reads it.
pub open spec fn keeps_all(cfg: Config, l: int, allow_ring: bool) -> bool {
    !allow_ring || !cfg.sliding(l) || cfg.store_full_length_kv@.contains(l as usize)
}

/// The positions that layer `l` can hold.
pub open spec fn positions(
    cfg: Config,
    l: int,
    max_len: int,
    max_batch: int,
    allow_ring: bool,
) -> int {
    if keeps_all(cfg, l, allow_ring) || max_len < cfg.sliding_window + max_batch {
        max_len
    } else {
        cfg.sliding_window + max_batch
    }
}

/// Whether a layer's cache is new: laid out for the model, and all zeros.
pub open spec fn is_new_layer(
    lk: LayerKv,
    cfg: Config,
    l: int,
    max_len: int,
    max_batch: int,
    allow_ring: bool,
) -> bool {
    &&& lk.wf()
    &&& lk.capacity == positions(cfg, l, max_len, max_batch, allow_ring)
    &&& lk.head_dim == cfg.head_width(l)
    &&& lk.kv_heads == cfg.num_key_value_heads
    &&& lk.ring == !keeps_all(cfg, l, allow_ring)
    &&& forall|i: int| 0 <= i < lk.k@.len() ==> #[trigger] lk.k@[i] == 0
    &&& forall|i: int| 0 <= i < lk.v@.len() ==> #[trigger] lk.v@[i] == 0
    &&& forall|i: int| 0 <= i < lk.ks@.len() ==> #[trigger] lk.ks@[i] == 0
    &&& forall|i: int| 0 <= i < lk.vs@.len() ==> #[trigger] lk.vs@[i] == 0
}

/// Whether a cache is new: the layers that own one have theirs, the shared
/// layers have none, and no position is held.
pub open spec fn is_new(
    c: KvCache,
    cfg: Config,
    max_len: int,
    max_batch: int,
    allow_ring: bool,
) -> bool {
    &&& c.len == 0
    &&& c.max_len == max_len
    &&& c.layers@.len() == cfg.num_hidden_layers
    &&& forall|l: int|
        0 <= l < cfg.num_hidden_layers ==> match #[trigger] c.layers@[l] {
            Some(lk) => !cfg.shared(l) && is_new_layer(
                lk,
                cfg,
                l,
                max_len,
                max_batch,
                allow_ring,
            ),
            None => cfg.shared(l),
        }
}

/// Whether the storage of layer `l` can be addressed.
pub open spec fn fits(
    cfg: Config,
    l: int,
    max_len: int,
    max_batch: int,
    allow_ring: bool,
) -> bool {
    &&& l < cfg.layer_types@.len()
    &&& cfg.num_key_value_heads * cfg.head_width(l) <= usize::MAX
    &&& positions(cfg, l, max_len, max_batch, allow_ring) * (cfg.num_key_value_heads
        * cfg.head_width(l)) <= usize::MAX
}

/// Whether the storage of every layer that owns a cache can be addressed.
pub open spec fn all_fit(cfg: Config, max_len: int, max_batch: int, allow_ring: bool) -> bool {
    forall|l: int|
        0 <= l < cfg.num_hidden_layers && !cfg.shared(l) ==> #[trigger] fits(
            cfg,
            l,
            max_len,
            max_batch,
            allow_ring,
        )
}

/// The bytes of the first `n` layers.
pub open spec fn size_of_layers(ls: Seq<Option<LayerKv>>, n: int) -> int
    decreases n,
{
    if n <= 0 {
        0
    } else {
        size_of_layers(ls, n - 1) + match ls[n - 1] {
            Some(lk) => lk.k@.len() + lk.v@.len() + 8 * lk.ks@.len(),
            None => 0,
        }
    }
}

proof fn lemma_size_part(ls: Seq<Option<LayerKv>>, a: int, b: int)
    requires
        0 <= a <= b,
    ensures
        0 <= size_of_layers(ls, a) <= size_of_layers(ls, b),
    decreases b,
{
    if a < b {
        lemma_size_part(ls, a, b - 1);
    } else if b > 0 {
        lemma_size_part(ls, a - 1, b - 1);
    }
}

fn holds(v: &Vec<usize>, x: usize) -> (r: bool)
    ensures
        r == v@.contains(x),
{
    let mut i: usize = 0;
    while i < v.len()
        invariant
            i <= v@.len(),
            forall|j: int| 0 <= j < i ==> v@[j] != x,
        decreases v@.len() - i,
    {
        if v[i] == x {
            assert(v@.contains(x));
            return true;
        }
        i += 1;
    }
    false
}

/// Whether one cache can take over another's positions: the layers are laid out
/// alike, and what is held fits.
pub open spec fn forkable(dst: KvCache, src: KvCache) -> bool {
    &&& dst.layers@.len() == src.layers@.len()
    &&& src.len <= dst.max_len
    &&& forall|l: int|
        0 <= l < src.layers@.len() ==> match (#[trigger] dst.layers@[l], src.layers@[l]) {
            (Some(d), Some(s)) => d.wf() && s.wf() && d.alike(s) && (s.ring || src.len
                <= s.capacity),
            (None, None) => true,
            _ => false,
        }
}

/// How many slots of a layer are live when `len` positions are held: a ring
/// that has wrapped holds live data in every slot.
pub open spec fn live_slots(lk: LayerKv, len: int) -> int {
    if lk.ring && len >= lk.capacity {
        lk.capacity as int
    } else {
        len
    }
}

/// Whether `now` is `before` with the live slots of `src`.
pub open spec fn is_fork(before: LayerKv, src: LayerKv, len: int, now: LayerKv) -> bool {
    &&& now.wf()
    &&& now.alike(before)
    &&& forall|s: int| 0 <= s < live_slots(src, len) ==> #[trigger] now.row(s) == src.row(s)
    &&& forall|s: int|
        live_slots(src, len) <= s < before.capacity ==> #[trigger] now.row(s) == before.row(s)
}

/// Whether `now` is `before` with what `src` holds.
pub open spec fn is_forked(before: KvCache, src: KvCache, now: KvCache) -> bool {
    &&& now.len == src.len
    &&& now.max_len == before.max_len
    &&& now.layers@.len() == before.layers@.len()
    &&& forall|l: int|
        0 <= l < src.layers@.len() ==> match (
            #[trigger] now.layers@[l],
            before.layers@[l],
            src.layers@[l],
        ) {
            (Some(n), Some(b), Some(s)) => is_fork(b, s, src.len as int, n),
            (None, None, None) => true,
            _ => false,
        }
}

impl KvCache {
    /// What is held: for each layer with storage, what is read of each position.
    pub open spec fn held(&self) -> Seq<Option<Seq<Row>>> {
        Seq::new(
            self.layers@.len(),
            |l: int|
                match self.layers@[l] {
                    Some(lk) => Some(Seq::new(self.len as nat, |p: int| lk.at(p))),
                    None => None,
                },
        )
    }

    /// A cache for `max_len` positions.
    ///
    /// `max_batch` is the largest number of rows that one forward submits. A
    /// ring holds the window and that many positions: a forward writes all its
    /// rows before any of them attends, so that with the window alone the later
    /// rows would overwrite what the earlier ones still need.
    pub fn new(cfg: &Config, max_len: usize, max_batch: usize) -> (c: KvCache)
        requires
            all_fit(*cfg, max_len as int, max_batch as int, true),
        ensures
            is_new(c, *cfg, max_len as int, max_batch as int, true),
    {
        Self::build(cfg, max_len, max_batch, true)
    }

    /// A cache whose layers are all full length.
    pub fn new_no_ring(cfg: &Config, max_len: usize) -> (c: KvCache)
        requires
            all_fit(*cfg, max_len as int, 0, false),
        ensures
            is_new(c, *cfg, max_len as int, 0, false),
    {
        Self::build(cfg, max_len, 0, false)
    }

    fn build(cfg: &Config, max_len: usize, max_batch: usize, allow_ring: bool) -> (c: KvCache)
        requires
            all_fit(*cfg, max_len as int, max_batch as int, allow_ring),
        ensures
            is_new(c, *cfg, max_len as int, max_batch as int, allow_ring),
    {
        let mut layers: Vec<Option<LayerKv>> = Vec::new();
        let mut l: usize = 0;
        while l < cfg.num_hidden_layers
            invariant
                l <= cfg.num_hidden_layers,
                all_fit(*cfg, max_len as int, max_batch as int, allow_ring),
                layers@.len() == l,
                forall|i: int|
                    0 <= i < l ==> match #[trigger] layers@[i] {
                        Some(lk) => !cfg.shared(i) && is_new_layer(
                            lk,
                            *cfg,
                            i,
                            max_len as int,
                            max_batch as int,
                            allow_ring,
                        ),
                        None => cfg.shared(i),
                    },
            decreases cfg.num_hidden_layers - l,
        {
            if cfg.is_shared(l) {
                layers.push(None);
            } else {
                assert(fits(*cfg, l as int, max_len as int, max_batch as int, allow_ring));
                let head_dim: usize = cfg.head_dim_of(l);
                let kv_heads: usize = cfg.num_key_value_heads;
                let full = !allow_ring || !cfg.is_sliding(l) || holds(
                    &cfg.store_full_length_kv,
                    l,
                );
                let capacity: usize = if full || max_len < max_batch || max_len - max_batch
                    < cfg.sliding_window {
                    max_len
                } else {
                    cfg.sliding_window + max_batch
                };
                let row: usize = kv_heads * head_dim;
                let n: usize = capacity * row;
                layers.push(
                    Some(
                        LayerKv {
                            capacity,
                            head_dim,
                            kv_heads,
                            k: vec![0i8; n],
                            v: vec![0i8; n],
                            ks: vec![0u32; capacity],
                            vs: vec![0u32; capacity],
                            ring: !full,
                        },
                    ),
                );
            }
            l += 1;
        }
        KvCache { layers, len: 0, max_len }
    }

    /// Takes over what `src` holds, so that this sequence continues from a
    /// prefix that was computed once.
    pub fn fork_from(&mut self, src: &KvCache)
        requires
            forkable(*old(self), *src),
        ensures
            is_forked(*old(self), *src, *final(self)),
    {
        let mut l: usize = 0;
        while l < src.layers.len()
            invariant
                l <= src.layers@.len(),
                forkable(*old(self), *src),
                self.max_len == old(self).max_len,
                self.layers@.len() == old(self).layers@.len(),
                forall|i: int|
                    l <= i < src.layers@.len() ==> #[trigger] self.layers@[i] == old(
                        self,
                    ).layers@[i],
                forall|i: int|
                    0 <= i < l ==> match (
                        #[trigger] self.layers@[i],
                        old(self).layers@[i],
                        src.layers@[i],
                    ) {
                        (Some(now), Some(before), Some(s)) => is_fork(
                            before,
                            s,
                            src.len as int,
                            now,
                        ),
                        (None, None, None) => true,
                        _ => false,
                    },
            decreases src.layers@.len() - l,
        {
            assert(self.layers@[l as int] == old(self).layers@[l as int]);
            if let Some(s) = &src.layers[l] {
                let mut taken: Option<LayerKv> = None;
                std::mem::swap(&mut taken, &mut self.layers[l]);
                if let Some(d) = taken {
                    let mut d = d;
                    let slots: usize = if s.ring && src.len >= s.capacity {
                        s.capacity
                    } else {
                        src.len
                    };
                    d.copy_slots(s, slots);
                    self.layers.set(l, Some(d));
                }
            }
            l += 1;
        }
        self.len = src.len;
    }

    /// The bytes of the cache.
    pub fn bytes(&self) -> (n: usize)
        requires
            size_of_layers(self.layers@, self.layers@.len() as int) <= usize::MAX,
        ensures
            n == size_of_layers(self.layers@, self.layers@.len() as int),
    {
        let mut n: usize = 0;
        let mut l: usize = 0;
        while l < self.layers.len()
            invariant
                l <= self.layers@.len(),
                n == size_of_layers(self.layers@, l as int),
                size_of_layers(self.layers@, self.layers@.len() as int) <= usize::MAX,
            decreases self.layers@.len() - l,
        {
            proof {
                lemma_size_part(self.layers@, l + 1, self.layers@.len() as int);
            }
            if let Some(lk) = &self.layers[l] {
                n = n + lk.k.len() + lk.v.len() + 8 * lk.ks.len();
            }
            l += 1;
        }
        n
    }

    /// Forgets every position.
    pub fn clear(&mut self)
        ensures
            final(self).len == 0,
            final(self).layers == old(self).layers,
            final(self).max_len == old(self).max_len,
    {
        self.len = 0;
    }

    /// The positions that layer `l` may attend to for a query at `pos`.
    pub fn window(&self, cfg: &Config, l: usize, pos: usize) -> (r: (usize, usize))
        requires
            l < cfg.layer_types@.len(),
            pos < usize::MAX,
            cfg.sliding(l as int) ==> cfg.sliding_window > 0,
        ensures
            (r.0 as int, r.1 as int) == attended(
                if cfg.sliding(l as int) {
                    cfg.sliding_window as int
                } else {
                    0
                },
                pos as int,
            ),
            r.0 < r.1,
    {
        if cfg.is_sliding(l) {
            (pos.saturating_sub(cfg.sliding_window - 1), pos + 1)
        } else {
            (0, pos + 1)
        }
    }
}

// ---------------------------------------------------------------- what every cache keeps
/// Two positions that lie closer together than a ring is long have different
/// places in it.
proof fn lemma_places_differ(cap: int, p: int, q: int)
    requires
        0 < cap,
        0 <= p < q,
        q - p < cap,
    ensures
        p % cap != q % cap,
{
    vstd::arithmetic::div_mod::lemma_fundamental_div_mod(p, cap);
    vstd::arithmetic::div_mod::lemma_fundamental_div_mod(q, cap);
    let a = p / cap;
    let b = q / cap;
    if p % cap == q % cap {
        assert(q - p == cap * b - cap * a);
        assert(cap * b - cap * a == cap * (b - a)) by (nonlinear_arith);
        assert(cap * (b - a) <= 0 || cap * (b - a) >= cap) by (nonlinear_arith)
            requires
                0 < cap,
        ;
    }
}

/// A ring keeps the window: while a batch of up to `max_batch` rows from `pos0`
/// on is written and attended to, the positions that any of its rows may read
/// and those that it writes have places of their own.
pub proof fn law_ring_keeps_the_window(
    lk: LayerKv,
    cfg: Config,
    l: int,
    max_len: int,
    max_batch: int,
    allow_ring: bool,
    pos0: int,
    m: int,
    p: int,
    q: int,
)
    requires
        is_new_layer(lk, cfg, l, max_len, max_batch, allow_ring),
        cfg.sliding(l) ==> cfg.sliding_window > 0,
        0 <= pos0,
        0 < m <= max_batch || !allow_ring,
        pos0 + m <= max_len,
        attended(
            if cfg.sliding(l) {
                cfg.sliding_window as int
            } else {
                0
            },
            pos0,
        ).0 <= p < q < pos0 + m,
    ensures
        lk.has_place(p),
        lk.has_place(q),
        0 <= lk.place(p) < lk.capacity,
        0 <= lk.place(q) < lk.capacity,
        lk.place(p) != lk.place(q),
{
    if lk.ring {
        if max_len < cfg.sliding_window + max_batch {
            assert(p % max_len == p && q % max_len == q) by {
                vstd::arithmetic::div_mod::lemma_small_mod(p as nat, max_len as nat);
                vstd::arithmetic::div_mod::lemma_small_mod(q as nat, max_len as nat);
            }
        } else {
            lemma_places_differ(lk.capacity as int, p, q);
        }
        vstd::arithmetic::div_mod::lemma_mod_bound(p, lk.capacity as int);
        vstd::arithmetic::div_mod::lemma_mod_bound(q, lk.capacity as int);
    }
}

/// Whether `states` come from writing `rows` one after another from `pos0` on.
pub open spec fn is_batch(states: Seq<LayerKv>, pos0: int, rows: Seq<Row>) -> bool {
    &&& states.len() == rows.len() + 1
    &&& forall|i: int|
        0 <= i < rows.len() ==> is_store(
            #[trigger] states[i],
            states[i + 1],
            pos0 + i,
            rows[i],
        )
}

proof fn lemma_batch(
    states: Seq<LayerKv>,
    cfg: Config,
    l: int,
    max_len: int,
    max_batch: int,
    allow_ring: bool,
    fresh: LayerKv,
    pos0: int,
    rows: Seq<Row>,
    n: int,
)
    requires
        is_batch(states, pos0, rows),
        is_new_layer(fresh, cfg, l, max_len, max_batch, allow_ring),
        states[0].alike(fresh),
        cfg.sliding(l) ==> cfg.sliding_window > 0,
        0 <= pos0,
        0 < rows.len() <= max_batch || !allow_ring,
        pos0 + rows.len() <= max_len,
        0 <= n <= rows.len(),
    ensures
        states[n].alike(fresh),
        forall|p: int|
            attended(
                if cfg.sliding(l) {
                    cfg.sliding_window as int
                } else {
                    0
                },
                pos0,
            ).0 <= p < pos0 + n ==> #[trigger] states[n].at(p) == (if p < pos0 {
                states[0].at(p)
            } else {
                rows[p - pos0]
            }),
    decreases n,
{
    let w = if cfg.sliding(l) {
        cfg.sliding_window as int
    } else {
        0
    };
    if n > 0 {
        lemma_batch(
            states,
            cfg,
            l,
            max_len,
            max_batch,
            allow_ring,
            fresh,
            pos0,
            rows,
            n - 1,
        );
        assert(is_store(states[n - 1], states[n - 1 + 1], pos0 + (n - 1), rows[n - 1]));
        assert forall|p: int| attended(w, pos0).0 <= p < pos0 + n implies #[trigger] states[n].at(p)
            == (if p < pos0 {
            states[0].at(p)
        } else {
            rows[p - pos0]
        }) by {
            if p < pos0 + (n - 1) {
                law_ring_keeps_the_window(
                    fresh,
                    cfg,
                    l,
                    max_len,
                    max_batch,
                    allow_ring,
                    pos0,
                    rows.len() as int,
                    p,
                    pos0 + (n - 1),
                );
                assert(states[n - 1].at(p) == states[n].at(p)) by {
                    assert(states[n].row(fresh.place(p)) == states[n - 1].row(fresh.place(p)));
                }
            }
        }
    }
}

/// Attention reads what was written: after a batch of rows has been stored, each
/// of its rows finds the batch's own rows as they were written, and the rows of
/// the window before them as they were.
pub proof fn law_attention_reads_what_was_written(
    states: Seq<LayerKv>,
    fresh: LayerKv,
    cfg: Config,
    l: int,
    max_len: int,
    max_batch: int,
    allow_ring: bool,
    pos0: int,
    rows: Seq<Row>,
    query: int,
    p: int,
)
    requires
        is_new_layer(fresh, cfg, l, max_len, max_batch, allow_ring),
        is_batch(states, pos0, rows),
        states[0].alike(fresh),
        cfg.sliding(l) ==> cfg.sliding_window > 0,
        0 <= pos0,
        0 < rows.len() <= max_batch || !allow_ring,
        pos0 + rows.len() <= max_len,
        pos0 <= query < pos0 + rows.len(),
        attended(
            if cfg.sliding(l) {
                cfg.sliding_window as int
            } else {
                0
            },
            query,
        ).0 <= p <= query,
    ensures
        states[rows.len() as int].at(p) == (if p < pos0 {
            states[0].at(p)
        } else {
            rows[p - pos0]
        }),
{
    lemma_batch(
        states,
        cfg,
        l,
        max_len,
        max_batch,
        allow_ring,
        fresh,
        pos0,
        rows,
        rows.len() as int,
    );
    assert(states[rows.len() as int].at(p) == states[rows.len() as int].at(p));
}

/// A fork is a copy: every position that the source still holds reads the same
/// in the fork.
pub proof fn law_fork_is_a_copy(before: LayerKv, src: LayerKv, len: int, now: LayerKv, p: int)
    requires
        is_fork(before, src, len, now),
        before.alike(src),
        src.ring ==> src.capacity > 0,
        !src.ring ==> len <= src.capacity,
        0 <= p < len,
    ensures
        now.at(p) == src.at(p),
{
    if src.ring {
        vstd::arithmetic::div_mod::lemma_mod_bound(p, src.capacity as int);
        if len < src.capacity {
            vstd::arithmetic::div_mod::lemma_small_mod(p as nat, src.capacity as nat);
        }
    }
    assert(now.row(src.place(p)) == src.row(src.place(p)));
}

/// A fork holds what its source holds, whatever was in it before.
pub proof fn law_forks_hold_the_same(before: KvCache, src: KvCache, now: KvCache)
    requires
        forkable(before, src),
        is_forked(before, src, now),
        forall|l: int|
            0 <= l < src.layers@.len() ==> (#[trigger] src.layers@[l] matches Some(s) ==> s.ring
                ==> s.capacity > 0),
    ensures
        now.held() == src.held(),
{
    assert forall|l: int| 0 <= l < src.layers@.len() implies now.held()[l] == src.held()[l] by {
        assert(now.layers@[l] is Some == src.layers@[l] is Some);
        assert(before.layers@[l] is Some == src.layers@[l] is Some);
        if now.layers@[l] is Some {
            let n = now.layers@[l]->0;
            let b = before.layers@[l]->0;
            let s = src.layers@[l]->0;
            let x = Seq::new(now.len as nat, |p: int| n.at(p));
            let y = Seq::new(src.len as nat, |p: int| s.at(p));
            assert forall|p: int| 0 <= p < src.len implies x[p] == y[p] by {
                law_fork_is_a_copy(b, s, src.len as int, n, p);
            }
            assert(x =~= y);
        }
    }
    assert(now.held() =~= src.held());
}

/// Caches that hold no position hold the same, whatever was in them before.
pub proof fn law_cleared_caches_hold_the_same(a: KvCache, b: KvCache)
    requires
        a.len == 0,
        b.len == 0,
        a.layers@.len() == b.layers@.len(),
        forall|l: int|
            0 <= l < a.layers@.len() ==> (#[trigger] a.layers@[l] is Some) == (
            #[trigger] b.layers@[l] is Some),
    ensures
        a.held() == b.held(),
{
    assert forall|l: int| 0 <= l < a.layers@.len() implies a.held()[l] == b.held()[l] by {
        if a.layers@[l] is Some {
            let x = a.layers@[l]->0;
            let y = b.layers@[l]->0;
            assert(Seq::new(a.len as nat, |p: int| x.at(p)) =~= Seq::new(
                b.len as nat,
                |p: int| y.at(p),
            ));
        }
    }
    assert(a.held() =~= b.held());
}

proof fn lemma_ring_smaller(
    a: KvCache,
    b: KvCache,
    cfg: Config,
    max_len: int,
    max_batch: int,
    n: int,
)
    requires
        is_new(a, cfg, max_len, max_batch, true),
        is_new(b, cfg, max_len, 0, false),
        0 <= n <= cfg.num_hidden_layers,
    ensures
        size_of_layers(a.layers@, n) <= size_of_layers(b.layers@, n),
    decreases n,
{
    if n > 0 {
        lemma_ring_smaller(a, b, cfg, max_len, max_batch, n - 1);
        assert(a.layers@[n - 1] is Some <==> b.layers@[n - 1] is Some);
        if a.layers@[n - 1] is Some {
            let x = a.layers@[n - 1]->0;
            let y = b.layers@[n - 1]->0;
            assert(is_new_layer(x, cfg, n - 1, max_len, max_batch, true));
            assert(is_new_layer(y, cfg, n - 1, max_len, 0, false));
            assert(x.capacity * x.width() <= y.capacity * y.width()) by (nonlinear_arith)
                requires
                    x.capacity <= y.capacity,
                    x.width() == y.width(),
                    0 <= x.width(),
            ;
        }
    }
}

/// A cache with rings is no larger than one without.
pub proof fn law_rings_save_memory(
    a: KvCache,
    b: KvCache,
    cfg: Config,
    max_len: int,
    max_batch: int,
)
    requires
        is_new(a, cfg, max_len, max_batch, true),
        is_new(b, cfg, max_len, 0, false),
    ensures
        size_of_layers(a.layers@, a.layers@.len() as int) <= size_of_layers(
            b.layers@,
            b.layers@.len() as int,
        ),
{
    lemma_ring_smaller(a, b, cfg, max_len, max_batch, cfg.num_hidden_layers as int);
}

/// A layer that others read keeps every position, so that no reader finds one
/// overwritten.
pub proof fn law_sources_keep_every_position(
    c: KvCache,
    cfg: Config,
    max_len: int,
    max_batch: int,
    l: int,
    s: int,
)
    requires
        is_new(c, cfg, max_len, max_batch, true),
        0 <= l < cfg.layer_types@.len(),
        cfg.shared(l),
        cfg.reads_from(l, s),
        0 <= s < cfg.num_hidden_layers,
        !cfg.shared(s),
    ensures
        c.layers@[s] matches Some(lk) && !lk.ring && lk.capacity == max_len,
{
    let i = choose|i: int| #[trigger]
        cfg.first_source(l, i) && s == cfg.store_full_length_kv@[i];
    assert(cfg.store_full_length_kv@.contains(s as usize));
    assert(c.layers@[s] is Some);
}

/// What a cache costs: for each position of each layer that owns one, a byte for each
/// of its keys and values and two scales.
pub proof fn law_positions_cost_the_same(ls: Seq<Option<LayerKv>>, n: int)
    requires
        0 <= n < ls.len(),
        ls[n] matches Some(lk) ==> lk.wf(),
    ensures
        size_of_layers(ls, 0) == 0,
        ls[n] is None ==> size_of_layers(ls, n + 1) == size_of_layers(ls, n),
        ls[n] matches Some(lk) ==> size_of_layers(ls, n + 1) == size_of_layers(ls, n) + lk.capacity
            * (2 * (lk.kv_heads * lk.head_dim) + 8),
{
    if let Some(lk) = ls[n] {
        let c = lk.capacity as int;
        let w = lk.width();
        assert(c * (2 * w + 8) == c * w + c * w + 8 * c) by (nonlinear_arith);
    }
}

/// What is stored is what is read, at its own position; in a cache that keeps every
/// position no other one changes.
pub proof fn law_stores_are_read_back(a: LayerKv, b: LayerKv, pos: int, row: Row, p: int)
    requires
        is_store(a, b, pos, row),
        !a.ring,
        a.has_place(pos),
        a.has_place(p),
    ensures
        b.at(pos) == row,
        p != pos ==> b.at(p) == a.at(p),
{
    if p != pos {
        assert(b.row(a.place(p)) == a.row(a.place(p)));
    }
}

/// Only the layers that own a cache have storage; it is a ring only where a sliding layer
/// that nobody else reads may have one, and then holds the window and a batch, or
/// everything if that is less.
pub proof fn law_rings_are_for_unshared_windows(
    c: KvCache,
    cfg: Config,
    max_len: int,
    max_batch: int,
    allow_ring: bool,
    l: int,
)
    requires
        is_new(c, cfg, max_len, max_batch, allow_ring),
        0 <= l < cfg.num_hidden_layers,
    ensures
        c.layers@[l] is Some <==> l < cfg.first_shared_layer,
        c.layers@[l] matches Some(lk) ==> {
            &&& lk.ring <==> allow_ring && cfg.layer_types@[l]@ == "sliding_attention"@
                && !cfg.store_full_length_kv@.contains(l as usize)
            &&& !lk.ring ==> lk.capacity == max_len
            &&& lk.ring && max_len >= cfg.sliding_window + max_batch ==> lk.capacity
                == cfg.sliding_window + max_batch
            &&& lk.capacity <= max_len
            &&& lk.kv_heads == cfg.num_key_value_heads
        },
{
}

} // verus!
