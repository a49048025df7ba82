//! Shapes, shares and caches.

use fastgemma::forward::{
    attend_span, buf_width, layer_ops, layer_plan, ple_offset, Buf, Op, Scratch,
};
use fastgemma::json::{field, number, object, string, Json};
use fastgemma::kernels::{
    can_attend, can_fwht, can_gemm, can_pack, choose_backend, guard_next, guard_start,
    packed_a_len, tile_blocks, Backend, Guard,
};
use fastgemma::kv::{KvCache, LayerKv};
use fastgemma::model::{
    header_span, Config, HeaderError, Model, QuantBits, Span, TensorEntry, TensorError, WeightSel,
};
use fastgemma::pool::{split_gemm, split_n, AttnJob, GemmJob, Job, PrepJob, RowRef};

/// Six layers, every third of them full attention, the last two shared.
fn config() -> Config {
    let slide = "sliding_attention".to_string();
    let full = "full_attention".to_string();
    Config {
        hidden_size: 128,
        num_hidden_layers: 6,
        intermediate_size: 256,
        use_double_wide_mlp: true,
        num_attention_heads: 4,
        num_key_value_heads: 1,
        head_dim: 16,
        global_head_dim: 32,
        layer_types: vec![
            slide.clone(),
            slide.clone(),
            full.clone(),
            slide.clone(),
            slide,
            full,
        ],
        first_shared_layer: 4,
        store_full_length_kv: vec![2, 3],
        hidden_size_per_layer_input: 8,
        vocab_size: 1000,
        vocab_size_per_layer_input: 1000,
        sliding_window: 4,
        hadamard: 64,
        quant: QuantBits { ffn: 4, attn: 8, ple: 4, emb: 8 },
    }
}

// ---------------------------------------------------------------- kernels
#[test]
fn packed_rows_come_in_tiles() {
    assert_eq!(tile_blocks(0), 0);
    assert_eq!(tile_blocks(16), 1);
    assert_eq!(tile_blocks(17), 2);
    assert_eq!(packed_a_len(0, 64), 0);
    assert_eq!(packed_a_len(1, 64), 1024);
    assert_eq!(packed_a_len(16, 64), 1024);
    assert_eq!(packed_a_len(17, 128), 4096);
}

#[test]
fn kernels_ask_for_shapes() {
    assert!(can_pack(17, 64, 17 * 64, 32 * 64));
    assert!(!can_pack(17, 64, 17 * 64 - 1, 32 * 64));
    assert!(!can_pack(17, 64, 17 * 64, 32 * 64 - 1));
    assert!(!can_pack(1, 65, 1000, 2000));
    assert!(!can_pack(usize::MAX, 64, 10, 10));
    assert!(can_gemm(64, 128, 0, 4));
    assert!(!can_gemm(64, 128, 0, 3));
    assert!(!can_gemm(60, 128, 0, 4));
    assert!(!can_gemm(64, 100, 0, 4));
    assert!(!can_gemm(64, 128, 4, 0));
    assert!(can_fwht(256, 64));
    assert!(!can_fwht(256, 48));
    assert!(!can_fwht(100, 64));
    assert!(!can_fwht(100, 0));
    assert!(can_attend(10, 5, 15, 0, 0, 64));
    assert!(!can_attend(9, 5, 15, 0, 0, 64));
    assert!(can_attend(10, 5, 15, 4, 256, 64));
    assert!(!can_attend(10, 5, 15, 4, 255, 64));
}

#[test]
fn tiles_run_where_they_are_granted() {
    assert_eq!(choose_backend(None, true, true), Backend::Amx);
    assert_eq!(choose_backend(None, true, false), Backend::Vnni);
    assert_eq!(choose_backend(None, false, true), Backend::Vnni);
    assert_eq!(choose_backend(Some("vnni"), true, true), Backend::Vnni);
    assert_eq!(choose_backend(Some("amx"), false, false), Backend::Amx);
    assert_eq!(choose_backend(Some("best"), true, true), Backend::Amx);
}

fn settle(wish: Option<&str>, found: impl Fn(i64) -> usize) -> (bool, usize, i64) {
    let mut g = guard_start(wish);
    loop {
        match g {
            Guard::Probe { hold_us } => g = guard_next(hold_us, found(hold_us)),
            Guard::Settled { on, bad, hold_us } => return (on, bad, hold_us),
        }
    }
}

/// The guard is on where a probe finds corruption, unless a wish decides.
#[test]
fn the_guard_follows_the_probes() {
    assert_eq!(settle(Some("on"), |_| 0), (true, 0, 0));
    assert_eq!(settle(Some("off"), |_| 9), (false, 0, 0));
    assert_eq!(settle(Some("maybe"), |_| 0), (false, 0, 0));
    assert_eq!(settle(None, |_| 3), (true, 3, 2_000));
    assert_eq!(settle(None, |us| if us >= 8_000 { 2 } else { 0 }), (true, 2, 8_000));
    assert_eq!(settle(None, |us| if us >= 16_000 { 1 } else { 0 }), (true, 1, 16_000));
    assert_eq!(settle(None, |_| 0), (false, 0, 0));
}

// ---------------------------------------------------------------- shares
/// Every item is done once, and nobody has more than one item more.
#[test]
fn shares_cover_every_item_once() {
    for total in 0..40 {
        for nt in 1..9 {
            let mut next = 0;
            let mut sizes = Vec::new();
            for tid in 0..nt {
                let (a, b) = split_n(total, nt, tid);
                assert_eq!(a, next);
                next = b;
                sizes.push(b - a);
            }
            assert_eq!(next, total);
            assert!(sizes.iter().max().unwrap() - sizes.iter().min().unwrap() <= 1);
        }
    }
    assert_eq!(split_n(10, 4, 0), (0, 3));
    assert_eq!(split_n(10, 4, 3), (8, 10));
    assert_eq!(split_gemm(16, 3, 0), (0, 8));
    assert_eq!(split_gemm(18, 3, 2), (12, 16));
}

#[test]
fn jobs_fall_into_pieces() {
    let g = Job::Gemm(GemmJob { m: 8, n: 256, kdim: 64, bits: 4, group: 32, ldc: 256 });
    assert_eq!(g.units(), 16);
    assert_eq!(g.share(1, 0), (0, 16));
    assert_eq!((g.share(2, 0), g.share(2, 1)), ((0, 8), (8, 16)));
    let at = AttnJob { nh: 4, kvh: 1, hd: 32, m: 3, window: 5, rowbatch: false };
    assert_eq!(Job::Attn(at).units(), 12);
    assert_eq!(Job::Attn(AttnJob { rowbatch: true, ..at }).units(), 3);
    let p = PrepJob { lda: 100, m: 40, k: 64, hsz: 64 };
    assert_eq!(Job::Prep(p).units(), 3);
    // three blocks are not worth waking a second thread
    assert!(Job::Prep(p).alone(2));
    assert_eq!(Job::Prep(p).share(2, 0), (0, 3));
    assert_eq!(Job::Prep(p).share(2, 1), (0, 0));
    assert!(!Job::Prep(PrepJob { m: 64, ..p }).alone(2));
    assert!(!g.alone(2));
}

#[test]
fn rows_are_prepared_in_blocks() {
    let p = PrepJob { lda: 100, m: 40, k: 64, hsz: 64 };
    assert_eq!(p.rows(0, 2), Some((0, 32)));
    assert_eq!(p.rows(2, 3), Some((32, 40)));
    assert_eq!(p.rows(2, 9), Some((32, 40)));
    assert_eq!(p.rows(3, 3), None);
    assert_eq!(p.rows(3, 9), None);
    assert_eq!(p.src_len(), 39 * 100 + 64);
}

#[test]
fn attention_reads_a_window() {
    let at = AttnJob { nh: 4, kvh: 1, hd: 32, m: 3, window: 5, rowbatch: false };
    let row = |pos| RowRef { k_len: 10, pos, ring: 0 };
    assert_eq!(at.span(&row(0)), (0, 1));
    assert_eq!(at.span(&row(4)), (0, 5));
    assert_eq!(at.span(&row(9)), (5, 10));
    assert_eq!(AttnJob { window: 0, ..at }.span(&row(9)), (0, 10));
    assert_eq!(at.item(0), (0, 0));
    assert_eq!(at.item(11), (2, 3));
    assert_eq!(at.cache_lens(&row(0)), (320, 384));
}

#[test]
fn operands_have_lengths() {
    let g = GemmJob { m: 17, n: 64, kdim: 128, bits: 4, group: 32, ldc: 64 };
    let l = g.lens();
    assert_eq!((l.a, l.a_scale, l.b, l.b_scale, l.c), (4096, 17, 4096, 256, 1088));
    let l = GemmJob { m: 0, bits: 8, ..g }.lens();
    assert_eq!((l.a, l.a_scale, l.b, l.b_scale, l.c), (0, 1, 8192, 64, 0));
}

// ---------------------------------------------------------------- the model
#[test]
fn layers_have_shapes() {
    let c = config();
    assert!(!c.is_shared(3) && c.is_shared(4));
    assert!(c.is_sliding(0) && !c.is_sliding(2));
    assert_eq!((c.head_dim_of(0), c.head_dim_of(2)), (16, 32));
    assert_eq!((c.inter_of(0), c.inter_of(4)), (256, 512));
    assert_eq!((0..6).map(|l| c.kv_source(l)).collect::<Vec<_>>(), [0, 1, 2, 3, 3, 2]);
    let mut none = config();
    none.store_full_length_kv = vec![2];
    assert_eq!(none.find_source(4), None);
    assert_eq!(none.find_source(5), Some(2));
    none.store_full_length_kv = vec![9, 2];
    assert_eq!(none.find_source(5), None);
    let p = layer_plan(&c, 5);
    assert_eq!((p.head_dim, p.inter, p.sliding, p.owns, p.source), (32, 512, false, false, 2));
}

#[test]
fn headers_stand_behind_their_length() {
    let mut f = b"FASTGEM1\x03\x00\x00\x00{}!".to_vec();
    assert_eq!(header_span(&f), Ok((12, 15)));
    f.push(0);
    assert_eq!(header_span(&f), Ok((12, 15)));
    assert_eq!(header_span(&f[..14]), Err(HeaderError::Truncated));
    assert_eq!(header_span(&f[..11]), Err(HeaderError::Truncated));
    assert_eq!(header_span(&f[..7]), Err(HeaderError::NotFgm));
    assert_eq!(header_span(b"FASTGEM2\x00\x00\x00\x00"), Err(HeaderError::NotFgm));
    assert_eq!(header_span(b"FASTGEM1\x00\x01\x00\x00"), Err(HeaderError::Truncated));
}

fn tensor(dtype: &str, shape: &[usize], offset: usize, nbytes: usize, meta: Json) -> TensorEntry {
    TensorEntry { dtype: dtype.to_string(), shape: shape.to_vec(), offset, nbytes, meta }
}

fn model() -> Model {
    let had = || object(vec![field("hadamard", number(64)), field("group", number(32))]);
    let list = vec![
        ("a", tensor("q4g", &[64, 128], 100, 40, had())),
        ("a.scale", tensor("f16", &[8], 140, 16, Json::Null)),
        ("a.i8", tensor("q8c", &[64, 128], 156, 80, Json::Null)),
        ("a.i8.scale", tensor("f32", &[8], 236, 64, Json::Null)),
        ("b", tensor("q4g", &[64, 128], 0, 8, object(vec![field("group", string("x"))]))),
        ("b.scale", tensor("f16", &[8], 8, 8, Json::Null)),
        ("t", tensor("q8r", &[64, 128], 0, 8, Json::Null)),
        ("t.scale", tensor("f32", &[8], 8, 8, Json::Null)),
        ("far", tensor("q8c", &[64, 128], 290, 20, Json::Null)),
        ("flat", tensor("q8c", &[64], 0, 4, Json::Null)),
        ("bare", tensor("q8c", &[64, 2], 0, 4, Json::Null)),
    ];
    let entries = list.into_iter().map(|(n, t)| (n.to_string(), t)).collect();
    Model::new(config(), entries, 300)
}

fn message<T>(r: Result<T, TensorError>) -> String {
    match r {
        Ok(_) => panic!("it was read"),
        Err(e) => e.message(),
    }
}

#[test]
fn tensors_are_found_by_name() {
    let m = model();
    assert!(m.has("a.scale") && !m.has("c"));
    assert_eq!(m.shape("a"), &vec![64, 128]);
    assert!(matches!(m.raw("a"), Ok(Span { start: 100, end: 140 })));
    assert_eq!(m.total_bytes(), 40 + 16 + 80 + 64 + 8 + 8 + 8 + 8 + 20 + 4 + 4);
}

#[test]
fn linears_know_their_scales() {
    let m = model();
    let Ok(q) = m.linear("a") else { panic!("no linear") };
    assert_eq!((q.bits, q.n, q.k, q.group, q.hadamard), (4, 64, 128, 32, 64));
    assert!(q.data == Span { start: 100, end: 140 } && q.scale == Span { start: 140, end: 156 });
    let Ok(q) = m.linear("a.i8") else { panic!("no linear") };
    assert_eq!((q.bits, q.n, q.k, q.group, q.hadamard), (8, 64, 128, 0, 0));
    let Ok(q) = m.linear("b") else { panic!("no linear") };
    assert_eq!((q.group, q.hadamard), (64, 0));
    let Ok(t) = m.gather("t") else { panic!("no table") };
    assert_eq!((t.bits, t.k, t.data.end, t.scale.start), (8, 128, 8, 8));
}

#[test]
fn tensors_that_cannot_be_read_say_why() {
    let m = model();
    assert_eq!(message(m.linear("c")), "missing tensor c");
    assert_eq!(message(m.linear("bare")), "missing tensor bare.scale");
    assert_eq!(message(m.linear("far")), "tensor far lies outside the file");
    assert_eq!(message(m.linear("flat")), "tensor flat is not a matrix");
    assert_eq!(message(m.linear("t")), "tensor t has non-linear dtype q8r");
    assert_eq!(message(m.gather("a")), "tensor a is not a gather table (q4g)");
    assert_eq!(message(m.raw("far")), "tensor far lies outside the file");
}

/// A file without twins gives its primary weights, whatever is asked for.
#[test]
fn twins_are_taken_where_there_are_any() {
    let m = model();
    let Ok(d) = m.dual("a") else { panic!("no linear") };
    assert_eq!(d.pick(WeightSel::Int4, 999).bits, 4);
    assert_eq!(d.pick(WeightSel::Int8, 1).bits, 8);
    assert_eq!(d.pick(WeightSel::Auto(16), 15).bits, 4);
    assert_eq!(d.pick(WeightSel::Auto(16), 16).bits, 8);
    let Ok(d) = m.dual("b") else { panic!("no linear") };
    assert_eq!(d.pick(WeightSel::Int8, 1).bits, 4);
}

#[test]
fn weights_are_chosen_by_name() {
    assert!(WeightSel::from_text(None) == WeightSel::Auto(16));
    assert!(WeightSel::from_text(Some("int4")) == WeightSel::Int4);
    assert!(WeightSel::from_text(Some("int8")) == WeightSel::Int8);
    assert!(WeightSel::from_text(Some("auto:32")) == WeightSel::Auto(32));
    assert!(WeightSel::from_text(Some("auto:x")) == WeightSel::Auto(16));
    assert!(WeightSel::from_text(Some("auto")) == WeightSel::Auto(16));
}

// ---------------------------------------------------------------- the cache
fn layer(c: &mut KvCache, l: usize) -> &mut LayerKv {
    c.layers[l].as_mut().unwrap()
}

#[test]
fn caches_are_as_long_as_their_layers_need() {
    let cfg = config();
    let c = KvCache::new(&cfg, 100, 3);
    let caps: Vec<Option<(usize, bool)>> =
        c.layers.iter().map(|l| l.as_ref().map(|l| (l.capacity, l.ring))).collect();
    assert_eq!(
        caps,
        [Some((7, true)), Some((7, true)), Some((100, false)), Some((100, false)), None, None]
    );
    assert_eq!((c.len, c.max_len), (0, 100));
    let full = KvCache::new_no_ring(&cfg, 100);
    assert!(full.layers.iter().flatten().all(|l| l.capacity == 100 && !l.ring));
    // rows of 16 or 32 in two tables, and two scales of four bytes
    assert_eq!(c.bytes(), 2 * 7 * 40 + 100 * 72 + 100 * 40);
    assert!(c.bytes() <= full.bytes());
    // a short context needs no ring longer than itself
    assert_eq!(KvCache::new(&cfg, 5, 3).layers[0].as_ref().unwrap().capacity, 5);
}

#[test]
fn windows_end_at_the_query() {
    let cfg = config();
    let c = KvCache::new(&cfg, 100, 3);
    assert_eq!(c.window(&cfg, 0, 0), (0, 1));
    assert_eq!(c.window(&cfg, 0, 10), (7, 11));
    assert_eq!(c.window(&cfg, 2, 10), (0, 11));
    let ring = c.layers[0].as_ref().unwrap();
    assert_eq!(attend_span(&c, &cfg, 0, ring, 10), (7, 11));
    let mut small = KvCache::new(&cfg, 100, 3);
    layer(&mut small, 0).capacity = 2;
    assert_eq!(attend_span(&c, &cfg, 0, small.layers[0].as_ref().unwrap(), 10), (9, 11));
}

/// A batch is written before any of it is read: its rows and the window before
/// them are all still there.
#[test]
fn rings_keep_what_is_read() {
    let cfg = config();
    let mut c = KvCache::new(&cfg, 100, 3);
    let mut pos0 = 0;
    while pos0 + 3 <= 60 {
        for p in pos0..pos0 + 3 {
            let row = vec![p as i8; 16];
            layer(&mut c, 0).store(p, &row, p as u32, &row, p as u32 + 1);
        }
        for q in pos0..pos0 + 3 {
            let (st, en) = c.window(&cfg, 0, q);
            let lk = c.layers[0].as_ref().unwrap();
            for p in st..en {
                let s = lk.slot(p);
                assert_eq!(lk.k[s * 16..(s + 1) * 16], vec![p as i8; 16][..]);
                assert_eq!((lk.ks[s], lk.vs[s]), (p as u32, p as u32 + 1));
            }
        }
        pos0 += 3;
    }
}

/// A fork reads what its source holds.
#[test]
fn forks_are_copies() {
    let cfg = config();
    for n in [3, 7, 20] {
        let mut a = KvCache::new(&cfg, 100, 3);
        for p in 0..n {
            for l in 0..4 {
                let w = layer(&mut a, l).row_len();
                let row = vec![(p + l) as i8; w];
                layer(&mut a, l).store(p, &row, 7, &row, 8);
            }
        }
        a.len = n;
        let mut b = KvCache::new(&cfg, 100, 3);
        b.fork_from(&a);
        assert_eq!(b.len, n);
        for l in 0..4 {
            let (x, y) = (a.layers[l].as_ref().unwrap(), b.layers[l].as_ref().unwrap());
            assert_eq!(x.k, y.k);
            assert_eq!(x.v, y.v);
            assert_eq!(x.ks, y.ks);
            assert_eq!(x.vs, y.vs);
        }
        b.clear();
        assert_eq!(b.len, 0);
    }
}

/// What a fork does not take over stays.
#[test]
fn forks_leave_the_rest() {
    let cfg = config();
    let mut a = KvCache::new(&cfg, 100, 3);
    let mut b = KvCache::new(&cfg, 100, 3);
    layer(&mut b, 2).store(5, &[9; 32], 9, &[9; 32], 9);
    layer(&mut a, 2).store(0, &[1; 32], 1, &[1; 32], 1);
    a.len = 1;
    b.fork_from(&a);
    let lk = b.layers[2].as_ref().unwrap();
    assert_eq!(lk.k[..32], [1; 32]);
    assert_eq!(lk.k[5 * 32..6 * 32], [9; 32]);
    assert_eq!((lk.ks[0], lk.ks[5]), (1, 9));
}

// ---------------------------------------------------------------- the forward pass
#[test]
fn buffers_hold_the_widest_layer() {
    let s = Scratch::new(&config(), 17, 100);
    // the widest layer is a shared one, with an MLP of twice 256
    assert_eq!((s.h, s.xn), (17 * 128, 17 * 128));
    assert_eq!((s.rot, s.qa, s.qs, s.pa), (17 * 512, 17 * 512, 33, 32 * 512));
    assert_eq!((s.y, s.y2), (17 * 512, 17 * 512));
    assert_eq!((s.attn, s.kv), (17 * 128, 32));
    assert_eq!((s.ple, s.ple_raw), (17 * 48, 48));
    assert_eq!((s.sc, s.logits), (164, 1000));
}

#[test]
fn inputs_per_layer_have_places() {
    let c = config();
    assert_eq!(ple_offset(&c, 0, 0), 0);
    assert_eq!(ple_offset(&c, 2, 3), 2 * 48 + 24);
}

/// A layer's steps: attention, the MLP, the per-layer input, each added to the
/// residual stream.
#[test]
fn layers_take_their_steps_in_order() {
    let c = config();
    let products = |l: usize| -> Vec<String> {
        layer_ops(&c, l)
            .into_iter()
            .filter_map(|o| match o {
                Op::Product { weight, .. } => Some(weight),
                _ => None,
            })
            .collect()
    };
    assert_eq!(
        products(3),
        [
            "l3.q_proj", "l3.k_proj", "l3.v_proj", "l3.o_proj", "l3.gate_proj", "l3.up_proj",
            "l3.down_proj", "l3.per_layer_input_gate", "l3.per_layer_projection",
        ]
    );
    // a shared layer owns no keys or values
    assert_eq!(products(5).len(), 7);
    let at = |l: usize| {
        layer_ops(&c, l).iter().enumerate().find_map(|(i, o)| match o {
            Op::Attend { source, window } => Some((i, *source, *window)),
            _ => None,
        })
    };
    assert_eq!(at(0), Some((10, 0, 4)));
    assert_eq!(at(2), Some((10, 2, 0)));
    assert_eq!(at(4), Some((4, 3, 4)));
    assert_eq!(at(5), Some((4, 2, 0)));
    assert!(matches!(layer_ops(&c, 0)[9], Op::Store));
    assert!(matches!(
        &layer_ops(&c, 5)[18],
        Op::Scale { weight } if weight == "l5.layer_scalar"
    ));
}

/// What a product reads has been written, with the width that it reads.
#[test]
fn rows_have_widths() {
    let c = config();
    assert_eq!(buf_width(&c, 0, Buf::H), 128);
    assert_eq!((buf_width(&c, 0, Buf::Q), buf_width(&c, 2, Buf::Ao)), (64, 128));
    assert_eq!((buf_width(&c, 0, Buf::K), buf_width(&c, 2, Buf::V)), (16, 32));
    assert_eq!((buf_width(&c, 0, Buf::Act), buf_width(&c, 5, Buf::Gate)), (256, 512));
    assert_eq!(buf_width(&c, 0, Buf::P), 8);
}

#[test]
fn shapes_that_cannot_be_addressed_have_no_lengths() {
    let g = GemmJob { m: 17, n: 32, kdim: 64, bits: 4, group: 32, ldc: 32 };
    let l = g.checked_lens().expect("a small shape");
    assert_eq!((l.a, l.a_scale, l.b, l.b_scale, l.c), (32 * 64, 17, 1024, 64, 17 * 32));
    assert!(GemmJob { group: 0, ..g }.checked_lens().is_none());
    assert!(GemmJob { group: 0, bits: 8, ..g }.checked_lens().is_some());
    assert!(GemmJob { n: usize::MAX, ..g }.checked_lens().is_none());
    assert!(GemmJob { m: usize::MAX, ..g }.checked_lens().is_none());
    assert!(GemmJob { ldc: usize::MAX, ..g }.checked_lens().is_none());
}
