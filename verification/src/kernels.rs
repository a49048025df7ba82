//! What the AMX and AVX-512 kernels ask of their arguments, and whether their
//! tiles have to be guarded.
//!
//! The kernels themselves compute on floating-point rows. They trust the
//! shapes they are called with: `K` a multiple of 64, ranges of column blocks
//! a multiple of 4, activations packed into tiles of 16 rows.
use vstd::prelude::*;
use vstd::arithmetic::power2::pow2;
use crate::text::same_text;

verus! {

// ---------------------------------------------------------------- shapes
/// The rows of `m`, rounded up to whole tiles.
pub open spec fn tiled(m: int) -> int {
    (m + 15) / 16 * 16
}

/// The bytes of the tile-packed copy of an `m x k` activation matrix.
pub open spec fn packed_len(m: int, k: int) -> int {
    tiled(m) * k
}

/// The number of 16-row tile blocks that hold `m` rows.
pub fn tile_blocks(m: usize) -> (n: usize)
    ensures
        n == (m + 15) / 16,
{
    if m % 16 == 0 {
        m / 16
    } else {
        m / 16 + 1
    }
}

/// Bytes needed for the tile-packed copy of an `m x k` activation matrix.
pub fn packed_a_len(m: usize, k: usize) -> (n: usize)
    requires
        tiled(m as int) <= usize::MAX,
        packed_len(m as int, k as int) <= usize::MAX,
    ensures
        n == packed_len(m as int, k as int),
{
    tile_blocks(m) * 16 * k
}

/// A product of two lengths.
pub(crate) fn product(a: usize, b: usize) -> (p: u128)
    ensures
        p == a * b,
{
    assert(a * b <= u64::MAX * u64::MAX) by (nonlinear_arith)
        requires
            a <= u64::MAX,
            b <= u64::MAX,
    ;
    (a as u128) * (b as u128)
}

/// Whether an `m x k` matrix of `a_len` bytes can be packed into `ap_len` bytes.
pub open spec fn packs(m: int, k: int, a_len: int, ap_len: int) -> bool {
    k % 64 == 0 && m * k <= a_len && packed_len(m, k) <= ap_len
}

/// Whether an `m x k` matrix of `a_len` bytes can be packed into `ap_len` bytes.
pub fn can_pack(m: usize, k: usize, a_len: usize, ap_len: usize) -> (r: bool)
    ensures
        r == packs(m as int, k as int, a_len as int, ap_len as int),
{
    let blocks: usize = tile_blocks(m);
    let kk: u128 = product(blocks, k);
    assert(tiled(m as int) * k == 16 * (blocks * k)) by (nonlinear_arith)
        requires
            tiled(m as int) == blocks * 16,
    ;
    k % 64 == 0 && product(m, k) <= a_len as u128 && kk <= (ap_len / 16) as u128
}

/// Whether the column blocks from `n0` to `n1` of an `n x k` weight can be
/// multiplied.
pub open spec fn multiplies(n: int, k: int, n0: int, n1: int) -> bool {
    k % 64 == 0 && n % 16 == 0 && n0 <= n1 && (n1 - n0) % 4 == 0
}

/// Whether the column blocks from `n0` to `n1` of an `n x k` weight can be
/// multiplied.
pub fn can_gemm(n: usize, k: usize, n0: usize, n1: usize) -> (r: bool)
    ensures
        r == multiplies(n as int, k as int, n0 as int, n1 as int),
{
    k % 64 == 0 && n % 16 == 0 && n0 <= n1 && (n1 - n0) % 4 == 0
}

/// Whether a length is a power of two.
pub open spec fn is_pow2(n: int) -> bool {
    exists|e: nat| n == #[trigger] pow2(e)
}

/// Whether `n` values can be transformed in blocks of `hsz`.
pub open spec fn transforms(n: int, hsz: int) -> bool {
    hsz > 0 && n % hsz == 0 && is_pow2(hsz)
}

proof fn lemma_pow2_halves(n: int, e: nat)
    requires
        n > 1,
    ensures
        n == pow2(e) ==> n % 2 == 0 && e > 0 && n / 2 == pow2((e - 1) as nat),
        n % 2 == 0 && n / 2 == pow2(e) ==> n == pow2(e + 1),
{
    vstd::arithmetic::power2::lemma2_to64();
    if e > 0 {
        vstd::arithmetic::power2::lemma_pow2_unfold(e);
    }
    vstd::arithmetic::power2::lemma_pow2_unfold(e + 1);
}

fn power_of_two(n: usize) -> (r: bool)
    requires
        n > 0,
    ensures
        r == is_pow2(n as int),
    decreases n,
{
    if n == 1 {
        proof {
            vstd::arithmetic::power2::lemma2_to64();
            assert(n == pow2(0));
        }
        return true;
    }
    proof {
        if is_pow2(n as int) {
            let e = choose|e: nat| n == #[trigger] pow2(e);
            lemma_pow2_halves(n as int, e);
            assert(n as int / 2 == pow2((e - 1) as nat));
        }
        if n % 2 == 0 && is_pow2(n as int / 2) {
            let e = choose|e: nat| n as int / 2 == #[trigger] pow2(e);
            lemma_pow2_halves(n as int, e);
            assert(n == pow2(e + 1));
        }
    }
    n % 2 == 0 && power_of_two(n / 2)
}

/// Whether `n` values can be transformed in blocks of `hsz`.
pub fn can_fwht(n: usize, hsz: usize) -> (r: bool)
    ensures
        r == transforms(n as int, hsz as int),
{
    hsz > 0 && n % hsz == 0 && power_of_two(hsz)
}

/// Whether a query can attend to the positions from `start` to `end`.
///
/// `ring` is the capacity of a ring buffer, or 0 for a cache that is read
/// linearly.
pub open spec fn attends(
    scratch_len: int,
    start: int,
    end: int,
    ring: int,
    kc_len: int,
    row_len: int,
) -> bool {
    start <= end && end - start <= scratch_len && (ring == 0 || ring * row_len <= kc_len)
}

/// Whether a query can attend to the positions from `start` to `end`.
pub fn can_attend(
    scratch_len: usize,
    start: usize,
    end: usize,
    ring: usize,
    kc_len: usize,
    row_len: usize,
) -> (r: bool)
    ensures
        r == attends(
            scratch_len as int,
            start as int,
            end as int,
            ring as int,
            kc_len as int,
            row_len as int,
        ),
{
    start <= end && end - start <= scratch_len && (ring == 0 || product(ring, row_len)
        <= kc_len as u128)
}

// ---------------------------------------------------------------- the backend
/// Which GEMM kernels run.
#[derive(Clone, Copy, Debug, PartialEq, Eq, Structural)]
pub enum Backend {
    /// AMX INT8 tiles
    Amx,
    /// AVX-512 VNNI
    Vnni,
}

/// The kernels that a wish asks for, else the tiles where the processor has
/// them and the kernel grants them.
pub open spec fn backend_for(wish: Option<Seq<char>>, has_amx: bool, granted: bool) -> Backend {
    if wish == Some("amx"@) {
        Backend::Amx
    } else if wish == Some("vnni"@) {
        Backend::Vnni
    } else if has_amx && granted {
        Backend::Amx
    } else {
        Backend::Vnni
    }
}

/// Chooses the kernels; `wish` is the value of `FGM_BACKEND`. Under a hypervisor
/// the processor can advertise tiles that the kernel refuses, so neither is
/// trusted alone.
pub fn choose_backend(wish: Option<&str>, has_amx: bool, granted: bool) -> (b: Backend)
    ensures
        b == backend_for(
            match wish {
                Some(w) => Some(w@),
                None => None,
            },
            has_amx,
            granted,
        ),
{
    proof {
        reveal_strlit("amx");
        reveal_strlit("vnni");
        assert("amx"@.len() != "vnni"@.len());
    }
    if let Some(w) = wish {
        if same_text(w, "amx") {
            return Backend::Amx;
        }
        if same_text(w, "vnni") {
            return Backend::Vnni;
        }
    }
    if has_amx && granted {
        Backend::Amx
    } else {
        Backend::Vnni
    }
}

// ---------------------------------------------------------------- the tile guard
/// What to do about the guard against tiles that a context switch has zeroed.
///
/// The stakes are not even: a guard that was not needed costs a percent or two,
/// a guard that is missing means wrong answers under load. So the search holds
/// the tiles longer and longer until it finds corruption, or has looked hard
/// enough for a clean result to be believed.
#[derive(Clone, Copy, Debug, PartialEq, Eq, Structural)]
pub enum Guard {
    /// count the corrupted trials while the tiles are held this long
    Probe { hold_us: i64 },
    /// the search is over
    Settled { on: bool, bad: usize, hold_us: i64 },
}

/// How the search begins.
pub open spec fn guard_first(wish: Option<Seq<char>>) -> Guard {
    if wish == Some("on"@) {
        Guard::Settled { on: true, bad: 0, hold_us: 0 }
    } else if wish == Some("off"@) {
        Guard::Settled { on: false, bad: 0, hold_us: 0 }
    } else {
        Guard::Probe { hold_us: 2_000 }
    }
}

/// How the search goes on.
pub open spec fn guard_after(hold_us: i64, bad: usize) -> Guard {
    if bad > 0 {
        Guard::Settled { on: true, bad, hold_us }
    } else if hold_us < 8_000 {
        Guard::Probe { hold_us: 8_000 }
    } else if hold_us < 16_000 {
        Guard::Probe { hold_us: 16_000 }
    } else {
        Guard::Settled { on: false, bad: 0, hold_us: 0 }
    }
}

/// Begins the search; `wish` is the value of `FGM_TILE_GUARD`, which decides
/// where it is `on` or `off`.
pub fn guard_start(wish: Option<&str>) -> (g: Guard)
    ensures
        g == guard_first(
            match wish {
                Some(w) => Some(w@),
                None => None,
            },
        ),
{
    proof {
        reveal_strlit("on");
        reveal_strlit("off");
        assert("on"@.len() != "off"@.len());
    }
    if let Some(w) = wish {
        if same_text(w, "on") {
            return Guard::Settled { on: true, bad: 0, hold_us: 0 };
        }
        if same_text(w, "off") {
            return Guard::Settled { on: false, bad: 0, hold_us: 0 };
        }
    }
    Guard::Probe { hold_us: 2_000 }
}

/// Goes on after a probe that found `bad` corrupted trials.
pub fn guard_next(hold_us: i64, bad: usize) -> (g: Guard)
    ensures
        g == guard_after(hold_us, bad),
{
    if bad > 0 {
        Guard::Settled { on: true, bad, hold_us }
    } else if hold_us < 8_000 {
        Guard::Probe { hold_us: 8_000 }
    } else if hold_us < 16_000 {
        Guard::Probe { hold_us: 16_000 }
    } else {
        Guard::Settled { on: false, bad: 0, hold_us: 0 }
    }
}

/// Where a search ends whose probes find `found` of the time they hold.
pub open spec fn guard_end(g: Guard, found: spec_fn(i64) -> usize) -> Guard
    decreases
            (match g {
                Guard::Probe { hold_us } => if hold_us < 8_000 {
                    3int
                } else if hold_us < 16_000 {
                    2
                } else {
                    1
                },
                Guard::Settled { .. } => 0,
            }),
{
    match g {
        Guard::Probe { hold_us } => guard_end(guard_after(hold_us, found(hold_us)), found),
        Guard::Settled { .. } => g,
    }
}

/// A wish decides. Without one the guard is on if and only if one of the three
/// probes finds corruption, and what is reported is the shortest of them.
pub proof fn law_guard_is_on_where_tiles_are_lost(
    wish: Option<Seq<char>>,
    found: spec_fn(i64) -> usize,
)
    ensures
        guard_end(guard_first(wish), found) == (if wish == Some("on"@) {
            Guard::Settled { on: true, bad: 0, hold_us: 0 }
        } else if wish == Some("off"@) {
            Guard::Settled { on: false, bad: 0, hold_us: 0 }
        } else if found(2_000) > 0 {
            Guard::Settled { on: true, bad: found(2_000), hold_us: 2_000 }
        } else if found(8_000) > 0 {
            Guard::Settled { on: true, bad: found(8_000), hold_us: 8_000 }
        } else if found(16_000) > 0 {
            Guard::Settled { on: true, bad: found(16_000), hold_us: 16_000 }
        } else {
            Guard::Settled { on: false, bad: 0, hold_us: 0 }
        }),
{
    reveal_with_fuel(guard_end, 5);
}

/// A packed matrix has room for all its rows, in whole tiles, and for less than a tile
/// more.
pub proof fn law_tiles_hold_the_rows(m: int, k: int)
    requires
        0 <= m,
        0 < k,
    ensures
        m <= tiled(m) < m + 16,
        tiled(m) % 16 == 0,
        m * k <= packed_len(m, k) < (m + 16) * k,
        packed_len(m, k) == tiled(m) * k,
{
    assert(m * k <= tiled(m) * k) by (nonlinear_arith)
        requires
            m <= tiled(m),
            0 < k,
    ;
    assert(tiled(m) * k < (m + 16) * k) by (nonlinear_arith)
        requires
            tiled(m) < m + 16,
            0 < k,
    ;
}

/// What can be multiplied can be cut: at a multiple of four blocks both halves can be
/// multiplied, and the whole of a weight can if its columns come in groups of four
/// blocks.
pub proof fn law_products_can_be_cut(n: int, k: int, n0: int, n1: int, i: int)
    requires
        multiplies(n, k, n0, n1),
        0 <= 4 * i <= n1 - n0,
    ensures
        multiplies(n, k, n0, n0 + 4 * i),
        multiplies(n, k, n0 + 4 * i, n1),
        multiplies(n, k, n0, n0),
        0 <= n && n % 64 == 0 ==> multiplies(n, k, 0, n / 16),
        k % 64 == 0,
        n % 16 == 0,
{
}

/// Neither the processor nor the system is believed alone: without a wish the tiles are
/// used only where both have them; a wish is kept whatever they say.
pub proof fn law_tiles_need_both(has_amx: bool, granted: bool, wish: Option<Seq<char>>)
    ensures
        backend_for(Some("amx"@), has_amx, granted) == Backend::Amx,
        backend_for(Some("vnni"@), has_amx, granted) == Backend::Vnni,
        backend_for(None, has_amx, granted) == Backend::Amx <==> has_amx && granted,
        wish != Some("amx"@) && wish != Some("vnni"@) ==> backend_for(wish, has_amx, granted)
            == backend_for(None, has_amx, granted),
{
    reveal_strlit("amx");
    reveal_strlit("vnni");
    assert("amx"@.len() != "vnni"@.len());
}

/// A query can attend to no more positions than its scratch holds, and in a ring only if
/// the ring's rows are there.
pub proof fn law_attention_stays_in_its_buffers(
    scratch_len: int,
    start: int,
    end: int,
    ring: int,
    kc_len: int,
    row_len: int,
    p: int,
)
    requires
        attends(scratch_len, start, end, ring, kc_len, row_len),
        start <= p < end,
        0 <= row_len,
    ensures
        0 <= p - start < scratch_len,
        ring > 0 && 0 <= p ==> (p % ring) * row_len + row_len <= kc_len,
{
    if ring > 0 && 0 <= p {
        let s = p % ring;
        assert(0 <= s < ring) by {
            vstd::arithmetic::div_mod::lemma_mod_bound(p, ring);
        }
        assert(s * row_len + row_len <= ring * row_len) by (nonlinear_arith)
            requires
                s < ring,
                0 <= row_len,
        ;
    }
}

} // verus!
