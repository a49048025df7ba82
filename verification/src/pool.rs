//! How the parallel phases of the forward pass are shared out.
//!
//! GEMMs split along N, in groups of four column blocks, which is what the
//! kernels step by. Attention splits over flattened (row, head) pairs, so that
//! it runs in parallel during decode (one row, eight heads) as well as during
//! prefill. Activations are prepared in blocks of 16 rows.
use vstd::prelude::*;
use crate::kernels::{multiplies, packed_a_len, packed_len, product, tile_blocks, tiled};

verus! {

// ---------------------------------------------------------------- shares
/// Where worker `tid`'s share of `total` items begins: the first `total % nt`
/// workers have one item more than the rest.
pub open spec fn cut(total: int, nt: int, tid: int) -> int {
    tid * (total / nt) + if tid < total % nt {
        tid
    } else {
        total % nt
    }
}

proof fn lemma_cut(total: int, nt: int, tid: int)
    requires
        0 <= total,
        0 < nt,
        0 <= tid <= nt,
    ensures
        0 <= cut(total, nt, tid) <= total,
        0 <= tid * (total / nt),
        cut(total, nt, 0) == 0,
        cut(total, nt, nt) == total,
        cut(total, nt, tid + 1) == cut(total, nt, tid) + total / nt + (if tid < total % nt {
            1int
        } else {
            0
        }),
{
    let per = total / nt;
    let extra = total % nt;
    vstd::arithmetic::div_mod::lemma_fundamental_div_mod(total, nt);
    vstd::arithmetic::div_mod::lemma_div_pos_is_pos(total, nt);
    assert((tid + 1) * per == tid * per + per) by (nonlinear_arith);
    assert(0 * per == 0);
    assert(0 <= tid * per <= nt * per) by (nonlinear_arith)
        requires
            0 <= tid <= nt,
            0 <= per,
    ;
}

proof fn lemma_cut_grows(total: int, nt: int, a: int, b: int)
    requires
        0 <= total,
        0 < nt,
        0 <= a <= b <= nt,
    ensures
        cut(total, nt, a) <= cut(total, nt, b),
    decreases b - a,
{
    if a < b {
        lemma_cut_grows(total, nt, a, b - 1);
        lemma_cut(total, nt, b - 1);
        vstd::arithmetic::div_mod::lemma_div_pos_is_pos(total, nt);
    }
}

/// Even split of `total` items across `nt` workers.
pub fn split_n(total: usize, nt: usize, tid: usize) -> (r: (usize, usize))
    requires
        tid < nt,
    ensures
        r.0 == cut(total as int, nt as int, tid as int),
        r.1 == cut(total as int, nt as int, tid + 1),
        r.0 <= r.1 <= total,
{
    let per: usize = total / nt;
    let extra: usize = total % nt;
    proof {
        lemma_cut(total as int, nt as int, tid as int);
        lemma_cut(total as int, nt as int, tid + 1);
    }
    let start: usize = tid * per + if tid < extra {
        tid
    } else {
        extra
    };
    let more: usize = if tid < extra {
        1
    } else {
        0
    };
    (start, start + per + more)
}

/// Column split for GEMM, rounded to whole groups of four blocks.
pub fn split_gemm(nblocks: usize, nt: usize, tid: usize) -> (r: (usize, usize))
    requires
        tid < nt,
    ensures
        r.0 == 4 * cut(nblocks as int / 4, nt as int, tid as int),
        r.1 == 4 * cut(nblocks as int / 4, nt as int, tid + 1),
        r.0 <= r.1 <= nblocks,
{
    let (a, b) = split_n(nblocks / 4, nt, tid);
    (a * 4, b * 4)
}

/// Whether item `i` lies in worker `tid`'s share.
pub open spec fn in_share(total: int, nt: int, tid: int, i: int) -> bool {
    0 <= tid < nt && cut(total, nt, tid) <= i < cut(total, nt, tid + 1)
}

proof fn lemma_some_share(total: int, nt: int, i: int, t: int) -> (tid: int)
    requires
        0 < nt,
        0 <= total,
        0 <= t <= nt,
        0 <= i < cut(total, nt, t),
    ensures
        in_share(total, nt, tid, i),
    decreases t,
{
    lemma_cut(total, nt, t);
    if cut(total, nt, t - 1) <= i {
        t - 1
    } else {
        lemma_some_share(total, nt, i, t - 1)
    }
}

/// Every item is some worker's, and no other worker's.
pub proof fn law_shares_partition(total: int, nt: int, i: int)
    requires
        0 < nt,
        0 <= i < total,
    ensures
        exists|tid: int| #[trigger] in_share(total, nt, tid, i),
        forall|a: int, b: int| #[trigger]
            in_share(total, nt, a, i) && #[trigger] in_share(total, nt, b, i) ==> a == b,
{
    lemma_cut(total, nt, nt);
    let t = lemma_some_share(total, nt, i, nt);
    assert(in_share(total, nt, t, i));
    assert forall|a: int, b: int| #[trigger]
        in_share(total, nt, a, i) && #[trigger] in_share(total, nt, b, i) implies a == b by {
        if a < b {
            lemma_cut_grows(total, nt, a + 1, b);
        }
        if b < a {
            lemma_cut_grows(total, nt, b + 1, a);
        }
    }
}

/// No worker has more than one item more than another.
pub proof fn law_shares_are_even(total: int, nt: int, a: int, b: int)
    requires
        0 <= total,
        0 <= a < nt,
        0 <= b < nt,
    ensures
        cut(total, nt, a + 1) - cut(total, nt, a) <= cut(total, nt, b + 1) - cut(total, nt, b) + 1,
{
    lemma_cut(total, nt, a);
    lemma_cut(total, nt, b);
}

// ---------------------------------------------------------------- jobs
/// The geometry of `C[m, n] = A[m, kdim] . B[kdim, n]`.
#[derive(Clone, Copy)]
pub struct GemmJob {
    pub m: usize,
    pub n: usize,
    pub kdim: usize,
    pub bits: u32,
    pub group: usize,
    pub ldc: usize,
}

/// One row's view of its sequence: where it sits, and the cache it reads.
#[derive(Clone, Copy)]
pub struct RowRef {
    /// the positions that the cache can hold
    pub k_len: usize,
    pub pos: usize,
    /// ring-buffer capacity for sliding layers, 0 if the cache is full length
    pub ring: usize,
}

/// The geometry of the attention of `m` rows.
#[derive(Clone, Copy)]
pub struct AttnJob {
    pub nh: usize,
    pub kvh: usize,
    pub hd: usize,
    pub m: usize,
    /// sliding window, or 0 for full attention
    pub window: usize,
    /// one thread per row, all heads together
    pub rowbatch: bool,
}

/// Rotate, quantise and tile-pack `m` rows of `k`, `lda` apart.
#[derive(Clone, Copy)]
pub struct PrepJob {
    pub lda: usize,
    pub m: usize,
    pub k: usize,
    pub hsz: usize,
}

#[derive(Clone, Copy)]
pub enum Job {
    Gemm(GemmJob),
    Attn(AttnJob),
    Prep(PrepJob),
}

impl Job {
    /// The number of pieces that the job falls into.
    pub open spec fn pieces(&self) -> int {
        match *self {
            Job::Gemm(g) => g.n as int / 16,
            Job::Attn(a) => if a.rowbatch {
                a.m as int
            } else {
                a.m * a.nh
            },
            Job::Prep(p) => (p.m + 15) / 16,
        }
    }

    /// Whether the calling thread does the whole job. Below two tile blocks for
    /// each thread, waking the others costs more than preparing the rows.
    pub open spec fn is_alone(&self, nt: int) -> bool {
        nt == 1 || (self is Prep && self.pieces() < 2 * nt)
    }

    /// The pieces that worker `tid` of `nt` does.
    pub open spec fn part(&self, nt: int, tid: int) -> (int, int) {
        if self.is_alone(nt) {
            if tid == 0 {
                (0, self.pieces())
            } else {
                (0, 0)
            }
        } else if self is Gemm {
            (4 * cut(self.pieces() / 4, nt, tid), 4 * cut(self.pieces() / 4, nt, tid + 1))
        } else {
            (cut(self.pieces(), nt, tid), cut(self.pieces(), nt, tid + 1))
        }
    }

    /// The number of pieces that the job falls into.
    pub fn units(&self) -> (n: usize)
        requires
            self.pieces() <= usize::MAX,
        ensures
            n == self.pieces(),
    {
        match *self {
            Job::Gemm(g) => g.n / 16,
            Job::Attn(a) => if a.rowbatch {
                a.m
            } else {
                a.m * a.nh
            },
            Job::Prep(p) => tile_blocks(p.m),
        }
    }

    /// Whether the calling thread does the whole job.
    pub fn alone(&self, nt: usize) -> (r: bool)
        requires
            self.pieces() <= usize::MAX,
        ensures
            r == self.is_alone(nt as int),
    {
        if nt == 1 {
            return true;
        }
        match *self {
            Job::Prep(_) => {
                let n: usize = self.units();
                n / 2 < nt
            },
            _ => false,
        }
    }

    /// The pieces that worker `tid` of `nt` does.
    pub fn share(&self, nt: usize, tid: usize) -> (r: (usize, usize))
        requires
            self.pieces() <= usize::MAX,
            tid < nt,
        ensures
            (r.0 as int, r.1 as int) == self.part(nt as int, tid as int),
            r.0 <= r.1 <= self.pieces(),
    {
        let n: usize = self.units();
        if self.alone(nt) {
            return if tid == 0 {
                (0, n)
            } else {
                (0, 0)
            };
        }
        match *self {
            Job::Gemm(_) => split_gemm(n, nt, tid),
            _ => split_n(n, nt, tid),
        }
    }

    /// Whether piece `i` is worker `tid`'s.
    pub open spec fn does(&self, nt: int, tid: int, i: int) -> bool {
        0 <= tid < nt && self.part(nt, tid).0 <= i < self.part(nt, tid).1
    }
}

/// Every piece of a job is done by some worker and by no other. A GEMM is
/// shared in groups of four column blocks: where more than one thread takes
/// part, its columns have to come in whole groups.
pub proof fn law_every_piece_is_done_once(j: Job, nt: int, i: int)
    requires
        0 < nt,
        0 <= i < j.pieces(),
        j is Gemm && nt > 1 ==> j.pieces() % 4 == 0,
    ensures
        exists|tid: int| #[trigger] j.does(nt, tid, i),
        forall|a: int, b: int| #[trigger] j.does(nt, a, i) && #[trigger] j.does(nt, b, i) ==> a
            == b,
{
    if j.is_alone(nt) {
        assert(j.does(nt, 0, i));
    } else if j is Gemm {
        law_shares_partition(j.pieces() / 4, nt, i / 4);
        let t = choose|t: int| #[trigger] in_share(j.pieces() / 4, nt, t, i / 4);
        assert(j.does(nt, t, i));
        assert forall|a: int, b: int| #[trigger]
            j.does(nt, a, i) && #[trigger] j.does(nt, b, i) implies a == b by {
            assert(in_share(j.pieces() / 4, nt, a, i / 4));
            assert(in_share(j.pieces() / 4, nt, b, i / 4));
        }
    } else {
        law_shares_partition(j.pieces(), nt, i);
        let t = choose|t: int| #[trigger] in_share(j.pieces(), nt, t, i);
        assert(j.does(nt, t, i));
        assert forall|a: int, b: int| #[trigger]
            j.does(nt, a, i) && #[trigger] j.does(nt, b, i) implies a == b by {
            assert(in_share(j.pieces(), nt, a, i));
            assert(in_share(j.pieces(), nt, b, i));
        }
    }
}

/// What a worker is given of a GEMM, the kernels accept: whole tiles along K,
/// and a range of column blocks that is a multiple of four.
pub proof fn law_gemm_shares_are_multiplied(j: GemmJob, nt: int, tid: int)
    requires
        0 <= tid < nt,
        j.kdim % 64 == 0,
        j.n % 64 == 0,
    ensures
        multiplies(
            j.n as int,
            j.kdim as int,
            Job::Gemm(j).part(nt, tid).0,
            Job::Gemm(j).part(nt, tid).1,
        ),
{
    let c = j.n as int / 16 / 4;
    lemma_cut_grows(c, nt, tid, tid + 1);
}

/// Work is shared out wherever that is worth it: with more than one thread, products
/// and attention always are, and rows are prepared together from two tile blocks
/// for each thread on. No worker then has more than one unit more than another, a
/// unit of a product being four column blocks.
pub proof fn law_work_is_shared_out(j: Job, nt: int, a: int, b: int)
    requires
        nt > 1,
        0 <= a < nt,
        0 <= b < nt,
        j matches Job::Prep(p) ==> p.m > 16 * (2 * nt - 1),
    ensures
        j.part(nt, a).1 - j.part(nt, a).0 <= j.part(nt, b).1 - j.part(nt, b).0 + if j is Gemm {
            4int
        } else {
            1
        },
{
    assert(0 <= j.pieces()) by {
        if let Job::Attn(t) = j {
            assert(0 <= t.m * t.nh) by (nonlinear_arith);
        }
    }
    if j is Gemm {
        law_shares_are_even(j.pieces() / 4, nt, a, b);
    } else {
        law_shares_are_even(j.pieces(), nt, a, b);
    }
}

/// The first workers have the larger shares, and where rows are too few to be worth
/// sharing the calling thread prepares them all.
pub proof fn law_the_first_workers_do_more(total: int, p: PrepJob, nt: int, a: int, b: int)
    requires
        0 <= total,
        0 <= a <= b < nt,
    ensures
        cut(total, nt, b + 1) - cut(total, nt, b) <= cut(total, nt, a + 1) - cut(total, nt, a),
        p.m <= 16 * (2 * nt - 1) ==> {
            &&& Job::Prep(p).part(nt, 0) == (0int, Job::Prep(p).pieces())
            &&& b > 0 ==> Job::Prep(p).part(nt, b) == (0int, 0int)
        },
{
    lemma_cut(total, nt, a);
    lemma_cut(total, nt, b);
}

/// What a job is cut into: sixteen columns of a product, one head of one row of
/// attention or a row of it, sixteen rows to prepare. No column, head or row is left
/// over or done for nothing.
pub proof fn law_pieces_hold_the_whole_job(g: GemmJob, a: AttnJob, p: PrepJob)
    ensures
        g.n % 16 == 0 ==> 16 * Job::Gemm(g).pieces() == g.n,
        a.rowbatch ==> Job::Attn(a).pieces() == a.m,
        !a.rowbatch ==> Job::Attn(a).pieces() == a.m * a.nh,
        p.m <= 16 * Job::Prep(p).pieces() < p.m + 16,
{
}

// ---------------------------------------------------------------- attention
/// The positions that a query at `pos` attends to.
pub open spec fn attended(window: int, pos: int) -> (int, int) {
    (
        if window > 0 && pos >= window - 1 {
            pos - (window - 1)
        } else {
            0
        },
        pos + 1,
    )
}

/// The lengths of `n` keys of `w` and of as many values, in whole groups of four.
pub open spec fn lens_of(n: int, w: int) -> (int, int) {
    (n * w, (n + 3) / 4 * 4 * w)
}

/// There is room for every value, in whole groups of four slots, and for less than a group
/// more than there are keys.
pub proof fn law_values_come_in_groups(n: int, w: int)
    requires
        0 <= n,
        0 <= w,
    ensures
        lens_of(n, w).0 == n * w,
        lens_of(n, w).0 <= lens_of(n, w).1,
        lens_of(n, w).1 <= lens_of(n + 3, w).0,
        n % 4 == 0 ==> lens_of(n, w).1 == n * w,
        exists|g: int| lens_of(n, w).1 == #[trigger] lens_of(4 * g, w).0,
{
    let g = (n + 3) / 4;
    let m = g * 4;
    assert(n <= m <= n + 3);
    assert(n * w <= m * w <= (n + 3) * w) by (nonlinear_arith)
        requires
            n <= m <= n + 3,
            0 <= w,
    ;
    assert(lens_of(4 * g, w).0 == m * w);
}

/// The row and the head of item `i`.
pub open spec fn row_and_head(nh: int, i: int) -> (int, int) {
    (i / nh, i % nh)
}

impl AttnJob {
    /// The row and the head of item `i`.
    pub fn item(&self, i: usize) -> (r: (usize, usize))
        requires
            i < self.m * self.nh,
        ensures
            (r.0 as int, r.1 as int) == row_and_head(self.nh as int, i as int),
            r.0 < self.m,
            r.1 < self.nh,
    {
        assert(self.nh > 0) by {
            if self.nh == 0 {
                assert(self.m * 0 == 0);
            }
        }
        assert((i as int / self.nh as int) < self.m) by (nonlinear_arith)
            requires
                0 <= i < self.m * self.nh,
                self.nh > 0,
        ;
        (i / self.nh, i % self.nh)
    }

    /// The positions that a row attends to.
    pub fn span(&self, row: &RowRef) -> (r: (usize, usize))
        requires
            row.pos < usize::MAX,
        ensures
            (r.0 as int, r.1 as int) == attended(self.window as int, row.pos as int),
            r.0 < r.1,
    {
        let start: usize = if self.window > 0 {
            row.pos.saturating_sub(self.window - 1)
        } else {
            0
        };
        (start, row.pos + 1)
    }

    /// The lengths of a row's keys and of its values. Values are stored
    /// transposed, four slots interleaved, so theirs is rounded up to whole
    /// groups of four.
    pub fn cache_lens(&self, row: &RowRef) -> (r: (usize, usize))
        requires
            (row.k_len + 3) / 4 * 4 <= usize::MAX,
            self.kvh * self.hd <= usize::MAX,
            (row.k_len + 3) / 4 * 4 * (self.kvh * self.hd) <= usize::MAX,
        ensures
            (r.0 as int, r.1 as int) == lens_of(row.k_len as int, self.kvh * self.hd),
    {
        let kvd: usize = self.kvh * self.hd;
        let groups: usize = if row.k_len % 4 == 0 {
            row.k_len / 4
        } else {
            row.k_len / 4 + 1
        };
        assert(groups * 4 == (row.k_len + 3) / 4 * 4);
        assert(row.k_len * kvd <= groups * 4 * kvd) by (nonlinear_arith)
            requires
                row.k_len <= groups * 4,
        ;
        (row.k_len * kvd, groups * 4 * kvd)
    }
}

/// The item that a worker takes for (row, head) is `row * nh + head`.
pub proof fn law_items_are_row_and_head(nh: int, row: int, head: int)
    requires
        0 <= row,
        0 <= head < nh,
    ensures
        (row * nh + head) / nh == row,
        (row * nh + head) % nh == head,
        row_and_head(nh, row * nh + head) == (row, head),
{
    vstd::arithmetic::div_mod::lemma_fundamental_div_mod_converse(row * nh + head, nh, row, head);
}

/// A query attends to itself, to nothing after it, and to no more than its
/// window.
pub proof fn law_attention_is_causal(window: int, pos: int)
    requires
        0 <= window,
        0 <= pos,
    ensures
        attended(window, pos).0 <= pos < attended(window, pos).1,
        attended(window, pos).1 == pos + 1,
        window > 0 ==> attended(window, pos).1 - attended(window, pos).0 <= window,
{
}

/// A query reads its whole window: as many positions as the window is wide, or all
/// that there are so far, and all of them where there is no window.
pub proof fn law_attention_reads_its_whole_window(window: int, pos: int)
    requires
        0 <= window,
        0 <= pos,
    ensures
        0 <= attended(window, pos).0,
        window == 0 ==> attended(window, pos).0 == 0,
        window > 0 && window <= pos ==> attended(window, pos).1 - attended(window, pos).0 == window,
        window > pos ==> attended(window, pos).0 == 0,
        window > 0 ==> attended(window, pos + 1).0 == if pos + 1 < window {
            0
        } else {
            attended(window, pos).0 + 1
        },
{
}

// ---------------------------------------------------------------- preparing rows
impl PrepJob {
    /// The rows of the tile blocks from `b0` to `b1`.
    pub open spec fn spec_rows(&self, b0: int, b1: int) -> (int, int) {
        (
            b0 * 16,
            if b1 * 16 < self.m {
                b1 * 16
            } else {
                self.m as int
            },
        )
    }

    /// The rows of the tile blocks from `b0` to `b1`, unless there are none.
    pub fn rows(&self, b0: usize, b1: usize) -> (r: Option<(usize, usize)>)
        ensures
            match r {
                Some(p) => b0 < b1 && (p.0 as int, p.1 as int) == self.spec_rows(
                    b0 as int,
                    b1 as int,
                ) && p.0 < p.1 <= self.m,
                None => b0 >= b1 || self.spec_rows(b0 as int, b1 as int).0 >= self.spec_rows(
                    b0 as int,
                    b1 as int,
                ).1,
            },
    {
        let blocks: usize = tile_blocks(self.m);
        if b0 >= b1 || b0 >= blocks {
            return None;
        }
        let r1: usize = if b1 < blocks {
            b1 * 16
        } else {
            self.m
        };
        Some((b0 * 16, r1))
    }

    /// Where row `r` of the source ends.
    pub open spec fn row_end(&self, r: int) -> int {
        r * self.lda + self.k
    }

    /// How much of the source is read. Rows are `lda` apart but only `k` wide.
    pub fn src_len(&self) -> (n: usize)
        requires
            self.m > 0,
            (self.m - 1) * self.lda + self.k <= usize::MAX,
        ensures
            n == self.row_end(self.m - 1),
    {
        assert(0 <= (self.m - 1) * self.lda) by (nonlinear_arith)
            requires
                self.m > 0,
        ;
        (self.m - 1) * self.lda + self.k
    }
}

/// A row ends as far behind the one before it as rows lie apart, the first after its own
/// width: what is read of the source ends with its last row.
pub proof fn law_the_last_row_ends_the_source(p: PrepJob, r: int)
    requires
        0 <= r < p.m,
    ensures
        p.row_end(0) == p.k,
        p.row_end(r + 1) == p.row_end(r) + p.lda,
        p.row_end(r) <= p.row_end(p.m - 1),
{
    let d = p.lda as int;
    assert((r + 1) * d == r * d + d) by (nonlinear_arith);
    assert(r * d <= (p.m - 1) * d) by (nonlinear_arith)
        requires
            r <= p.m - 1,
            0 <= d,
    ;
    assert(0 * d == 0);
}

/// Every row is prepared by some worker and by no other.
pub proof fn law_every_row_is_prepared_once(p: PrepJob, nt: int, row: int)
    requires
        0 < nt,
        0 <= row < p.m,
    ensures
        exists|tid: int| #[trigger] Job::Prep(p).does(nt, tid, row / 16),
        forall|a: int, b: int| #[trigger]
            Job::Prep(p).does(nt, a, row / 16) && #[trigger] Job::Prep(p).does(nt, b, row / 16)
                ==> a == b,
        forall|tid: int| #[trigger]
            Job::Prep(p).does(nt, tid, row / 16) <==> 0 <= tid < nt && p.spec_rows(
                Job::Prep(p).part(nt, tid).0,
                Job::Prep(p).part(nt, tid).1,
            ).0 <= row < p.spec_rows(
                Job::Prep(p).part(nt, tid).0,
                Job::Prep(p).part(nt, tid).1,
            ).1,
{
    law_every_piece_is_done_once(Job::Prep(p), nt, row / 16);
}

// ---------------------------------------------------------------- the operands of a GEMM
/// How long the operands of a GEMM are.
#[derive(Clone, Copy)]
pub struct GemmLens {
    pub a: usize,
    pub a_scale: usize,
    pub b: usize,
    pub b_scale: usize,
    pub c: usize,
}

impl GemmJob {
    /// The number of scales of the weight: one for each group along K at four
    /// bits, one for each column at eight.
    pub open spec fn scales(&self) -> int {
        if self.bits == 4 {
            (self.kdim as int / self.group as int) * self.n
        } else {
            self.n as int
        }
    }

    /// Whether the operands can be addressed.
    pub open spec fn fits(&self) -> bool {
        &&& tiled(self.m as int) <= usize::MAX
        &&& packed_len(self.m as int, self.kdim as int) <= usize::MAX
        &&& self.n * self.kdim <= usize::MAX
        &&& self.m * self.ldc <= usize::MAX
        &&& self.bits == 4 ==> self.group > 0
        &&& self.scales() <= usize::MAX
    }

    /// Whether the operands are this long.
    pub open spec fn has_lens(&self, r: GemmLens) -> bool {
        &&& r.a == packed_len(self.m as int, self.kdim as int)
        &&& r.a_scale == (if self.m == 0 {
            1
        } else {
            self.m
        })
        &&& r.b == (if self.bits == 4 {
            (self.n * self.kdim) / 2
        } else {
            self.n * self.kdim
        })
        &&& r.b_scale == self.scales()
        &&& r.c == self.m * self.ldc
    }

    /// How long the operands are, if they can be addressed.
    pub fn checked_lens(&self) -> (r: Option<GemmLens>)
        ensures
            r is Some == self.fits(),
            r matches Some(l) ==> self.has_lens(l),
    {
        let max: u128 = usize::MAX as u128;
        if self.bits == 4 && self.group == 0 {
            return None;
        }
        let rows: u128 = product(tile_blocks(self.m), 16);
        if rows > max || product(rows as usize, self.kdim) > max {
            return None;
        }
        if product(self.n, self.kdim) > max || product(self.m, self.ldc) > max {
            return None;
        }
        if self.bits == 4 && product(self.kdim / self.group, self.n) > max {
            return None;
        }
        Some(self.lens())
    }

    /// How long the operands are.
    pub fn lens(&self) -> (r: GemmLens)
        requires
            self.fits(),
        ensures
            self.has_lens(r),
    {
        let weights: usize = self.n * self.kdim;
        GemmLens {
            a: packed_a_len(self.m, self.kdim),
            a_scale: if self.m == 0 {
                1
            } else {
                self.m
            },
            b: if self.bits == 4 {
                weights / 2
            } else {
                weights
            },
            b_scale: if self.bits == 4 {
                (self.kdim / self.group) * self.n
            } else {
                self.n
            },
            c: self.m * self.ldc,
        }
    }
}

/// Every weight is there and has a scale: at four bits two weights share a byte and a
/// group of them a scale, at eight bits each has its byte and each column a scale.
pub proof fn law_every_weight_has_a_scale(j: GemmJob, l: GemmLens)
    requires
        j.has_lens(l),
    ensures
        j.bits == 4 && j.kdim % 2 == 0 ==> 2 * l.b == j.n * j.kdim,
        j.bits == 4 && j.group > 0 && j.kdim % j.group == 0 ==> l.b_scale * j.group == j.n * j.kdim,
        j.bits == 8 ==> l.b == j.n * j.kdim && l.b_scale == j.n,
        l.a >= j.m * j.kdim,
        l.a_scale >= j.m,
        j.m > 0 ==> l.a_scale == j.m,
        l.c == j.m * j.ldc,
{
    let n = j.n as int;
    let k = j.kdim as int;
    let g = j.group as int;
    if j.bits == 4 && k % 2 == 0 {
        let h = k / 2;
        assert(n * k == 2 * (n * h)) by (nonlinear_arith)
            requires
                k == 2 * h,
        ;
    }
    if j.bits == 4 && g > 0 && k % g == 0 {
        let q = k / g;
        vstd::arithmetic::div_mod::lemma_fundamental_div_mod(k, g);
        assert(q * n * g == n * k) by (nonlinear_arith)
            requires
                k == g * q,
        ;
    }
    assert(j.m * k <= tiled(j.m as int) * k) by (nonlinear_arith)
        requires
            j.m <= tiled(j.m as int),
            0 <= k,
    ;
}

} // verus!
