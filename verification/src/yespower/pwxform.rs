//! pwxform (parallel wide transform over S-boxes) and the BlockMix that
//! runs it over a whole block, with the state they thread through.

use crate::Version;
use crate::yespower::block::{blkcpy, blkxor, region_write, seq_xor};
use crate::yespower::salsa::{salsa20, salsa20_block};
use vstd::arithmetic::power2::{lemma2_to64, lemma_pow2_pos, lemma_pow2_strictly_increases, pow2};
use vstd::prelude::*;

verus! {

/// Number of 64-bit lanes processed as one "simple" unit inside pwxform.
pub const PWX_SIMPLE: usize = 2;

/// How many gather slots (independent S-box lookups) run in parallel.
pub const PWX_GATHER: usize = 4;

/// pwxform rounds in yespower 0.5.
pub const PWX_ROUNDS_0_5: u32 = 6;

/// pwxform rounds in yespower 1.0.
pub const PWX_ROUNDS_1_0: u32 = 3;

/// log2 of the number of S-box entries per table in yespower 0.5.
pub const SWIDTH_0_5: u32 = 8;

/// log2 of the number of S-box entries per table in yespower 1.0.
pub const SWIDTH_1_0: u32 = 11;

/// Bytes touched by one pwxform invocation (gather * simple * 8).
pub const PWX_BYTES: usize = PWX_GATHER * PWX_SIMPLE * 8;

/// Words touched by one pwxform invocation.
pub const PWX_WORDS: usize = PWX_BYTES / 4;

/// Minimum legal `r`: the working block must hold one pwxform chunk
/// (`PWX_BYTES` rounded up to whole 128-byte blocks).
pub const RMIN: u32 = 1;

/// Bytes in one S-box table for a given `swidth`.
pub fn swidth_to_sbytes1(swidth: u32) -> (n: usize)
    requires
        swidth <= 27,
    ensures
        n == pow2(swidth as nat) * 16,
{
    proof {
        lemma2_to64();
        if swidth < 27 {
            lemma_pow2_strictly_increases(swidth as nat, 27);
        }
        vstd::bits::lemma_usize_shl_is_mul(1, swidth as usize);
        assert((1usize << swidth) == (1usize << (swidth as usize))) by (bit_vector);
    }
    (1usize << swidth) * PWX_SIMPLE * 8
}

/// Mask that turns a 32-bit word into a byte offset of an S-box entry pair.
pub fn swidth_to_smask(swidth: u32) -> (m: u32)
    requires
        swidth <= 28,
    ensures
        m == (pow2(swidth as nat) - 1) * 16,
{
    proof {
        lemma2_to64();
        if swidth < 28 {
            lemma_pow2_strictly_increases(swidth as nat, 28);
        }
        vstd::bits::lemma_u32_shl_is_mul(1, swidth);
        assert(pow2(swidth as nat) <= 268435456);
        assert((1u32 << swidth) >= 1);
        assert(((1u32 << swidth) - 1) * 2 * 8 <= 0xffff_ffff);
    }
    ((1u32 << swidth) - 1) * (PWX_SIMPLE as u32) * 8
}

/// State threaded through pwxform / BlockMix.
///
/// `s0` / `s1` / `s2` are base indices, in 64-bit entry pairs, of three
/// windows of the flat S-box buffer; in 1.0 they rotate after each pwxform
/// call, and `w` is where the next S-box write goes.
#[derive(Clone, Copy)]
pub struct PwxformCtx {
    pub version: Version,
    /// Salsa20 rounds used after pwxform (8 for 0.5, 2 for 1.0).
    pub salsa20_rounds: u32,
    pub pwx_rounds: u32,
    pub swidth: u32,
    pub sbytes: usize,
    pub smask: u32,
    pub s0: usize,
    pub s1: usize,
    pub s2: usize,
    /// Write cursor for S-box updates (1.0 only).
    pub w: usize,
}

/// Words in the S-box buffer of a version.
pub open spec fn sbox_words(version: Version) -> nat {
    match version {
        Version::V0_5 => 2048,
        Version::V1_0 => 24576,
    }
}

/// The state that yespower sets up for a version, and that each pwxform
/// call keeps: the version's geometry, and (1.0) windows in one of their
/// three rotations with an entry-pair write cursor that is a multiple of 8
/// within a window.
pub open spec fn ctx_wf(ctx: PwxformCtx) -> bool {
    match ctx.version {
        Version::V0_5 => {
            &&& ctx.salsa20_rounds == 8
            &&& ctx.pwx_rounds == PWX_ROUNDS_0_5
            &&& ctx.swidth == SWIDTH_0_5
            &&& ctx.sbytes == 8192
            &&& ctx.smask == 4080
            &&& ctx.s0 == 0
            &&& ctx.s1 == 512
            &&& ctx.s2 == 1024
            &&& ctx.w == 0
        },
        Version::V1_0 => {
            &&& ctx.salsa20_rounds == 2
            &&& ctx.pwx_rounds == PWX_ROUNDS_1_0
            &&& ctx.swidth == SWIDTH_1_0
            &&& ctx.sbytes == 98304
            &&& ctx.smask == 32752
            &&& {
                ||| (ctx.s0 == 0 && ctx.s1 == 4096 && ctx.s2 == 8192)
                ||| (ctx.s0 == 8192 && ctx.s1 == 0 && ctx.s2 == 4096)
                ||| (ctx.s0 == 4096 && ctx.s1 == 8192 && ctx.s2 == 0)
            }
            &&& ctx.w % 8 == 0
            &&& ctx.w < 4096
        },
    }
}

/// Entries (64-bit) in one S-box window of width `swidth`: `2^(swidth+1)`.
pub open spec fn pwx_window_entries(swidth: u32) -> nat {
    2 * pow2(swidth as nat)
}

/// The window at entry pair `base` lies within an S-box buffer of `len`
/// words.
pub open spec fn pwx_window_fits(base: usize, swidth: u32, len: nat) -> bool {
    2 * (base + pwx_window_entries(swidth)) <= len
}

/// What one pwxform call needs of its state and of an S-box buffer of
/// `len` words: the index mask matches the width, the S0 and S1 windows lie
/// in the buffer, and (1.0) the three rounds write their eight entry pairs
/// inside a window.
pub open spec fn pwx_geometry(ctx: PwxformCtx, len: nat) -> bool {
    &&& ctx.swidth <= 28
    &&& ctx.smask == (pow2(ctx.swidth as nat) - 1) * 16
    &&& pwx_window_fits(ctx.s0, ctx.swidth, len)
    &&& pwx_window_fits(ctx.s1, ctx.swidth, len)
    &&& ctx.version is V1_0 ==> {
        &&& ctx.pwx_rounds == PWX_ROUNDS_1_0
        &&& ctx.w + 8 <= pwx_window_entries(ctx.swidth)
    }
}

/// A geometry that holds again after each pwxform call: besides
/// [`pwx_geometry`], (1.0) the S2 window lies in the buffer too, windows
/// hold at least eight entries, and the cursor is a multiple of 8.
pub open spec fn pwx_geometry_kept(ctx: PwxformCtx, len: nat) -> bool {
    &&& pwx_geometry(ctx, len)
    &&& ctx.version is V1_0 ==> {
        &&& pwx_window_fits(ctx.s2, ctx.swidth, len)
        &&& ctx.swidth >= 2
        &&& ctx.w % 8 == 0
    }
}

/// Whether word `q` of the S-boxes is one that a 1.0 pwxform call from
/// state `ctx` may write: the eight entry pairs from the cursor, in S0 and
/// in S1.
pub open spec fn pwx_written(ctx: PwxformCtx, q: int) -> bool {
    ||| 2 * (ctx.s0 + ctx.w) <= q < 2 * (ctx.s0 + ctx.w + 8)
    ||| 2 * (ctx.s1 + ctx.w) <= q < 2 * (ctx.s1 + ctx.w + 8)
}

/// `ctx` with its windows rotated `k` times by `(S0, S1, S2) <- (S2, S0, S1)`
/// (three rotations bring them back).
pub open spec fn pwx_rotate(ctx: PwxformCtx, k: nat) -> PwxformCtx {
    if k % 3 == 0 {
        ctx
    } else if k % 3 == 1 {
        PwxformCtx { s0: ctx.s2, s1: ctx.s0, s2: ctx.s1, ..ctx }
    } else {
        PwxformCtx { s0: ctx.s1, s1: ctx.s2, s2: ctx.s0, ..ctx }
    }
}

/// The 64-bit S-box entry `idx` of the window at entry pair `base`
/// (stored as a low word, then a high word).
pub open spec fn sbox_entry(s: Seq<u32>, base: int, idx: int) -> u64 {
    (((s[(base + idx) * 2 + 1] as u64) << 32u64) + (s[(base + idx) * 2] as u64)) as u64
}

/// `s` with entry `idx` of the window at `base` set to `(lo, hi)`.
pub open spec fn sbox_set(s: Seq<u32>, base: int, idx: int, lo: u32, hi: u32) -> Seq<u32> {
    s.update((base + idx) * 2, lo).update((base + idx) * 2 + 1, hi)
}

/// One lane: `(xh * xl + S0) xor S1` in 64-bit wrapping arithmetic.
pub open spec fn pwx_lane(xl: u32, xh: u32, s0v: u64, s1v: u64) -> u64 {
    (xh as u64).wrapping_mul(xl as u64).wrapping_add(s0v) ^ s1v
}

/// Gather slot `j` of pwxform round `i` with write cursor `w`: both lanes
/// of the slot, then (1.0, round 0 or the first half of the slots) the
/// write of the new lanes into S1 (odd slots, advancing `w`) or S0.
pub open spec fn pwx_gather(b: Seq<u32>, s: Seq<u32>, ctx: PwxformCtx, w: int, i: int, j: int) -> (
    Seq<u32>,
    Seq<u32>,
    int,
) {
    let p0 = ((b[j * 4] & ctx.smask) / 8) as int;
    let p1 = ((b[j * 4 + 1] & ctx.smask) / 8) as int;
    let x0 = pwx_lane(
        b[j * 4],
        b[j * 4 + 1],
        sbox_entry(s, ctx.s0 as int, p0),
        sbox_entry(s, ctx.s1 as int, p1),
    );
    let x1 = pwx_lane(
        b[j * 4 + 2],
        b[j * 4 + 3],
        sbox_entry(s, ctx.s0 as int, p0 + 1),
        sbox_entry(s, ctx.s1 as int, p1 + 1),
    );
    let b2 = b.update(j * 4, x0 as u32).update(j * 4 + 1, (x0 >> 32u64) as u32).update(
        j * 4 + 2,
        x1 as u32,
    ).update(j * 4 + 3, (x1 >> 32u64) as u32);
    if ctx.version is V1_0 && (i == 0 || j < 2) {
        if j % 2 == 1 {
            let s2 = sbox_set(s, ctx.s1 as int, w, x0 as u32, (x0 >> 32u64) as u32);
            (b2, sbox_set(s2, ctx.s1 as int, w + 1, x1 as u32, (x1 >> 32u64) as u32), w + 2)
        } else {
            let s2 = sbox_set(s, ctx.s0 as int, w, x0 as u32, (x0 >> 32u64) as u32);
            (b2, sbox_set(s2, ctx.s0 as int, w + 1, x1 as u32, (x1 >> 32u64) as u32), w)
        }
    } else {
        (b2, s, w)
    }
}

/// The first `t` gather steps of pwxform (step `t` is slot `t mod 4` of
/// round `t / 4`): block, S-boxes and write cursor.
pub open spec fn pwx_steps(b: Seq<u32>, s: Seq<u32>, ctx: PwxformCtx, t: nat) -> (
    Seq<u32>,
    Seq<u32>,
    int,
)
    decreases t,
{
    if t == 0 {
        (b, s, ctx.w as int)
    } else {
        let prev = pwx_steps(b, s, ctx, (t - 1) as nat);
        pwx_gather(prev.0, prev.1, ctx, prev.2, (t - 1) / 4, (t - 1) % 4)
    }
}

/// pwxform on a 16-word chunk: all rounds, then (1.0) the rotation
/// `(S0, S1, S2) <- (S2, S0, S1)` and the write cursor taken modulo the
/// window size.
pub open spec fn pwxform_chunk(b: Seq<u32>, s: Seq<u32>, ctx: PwxformCtx) -> (
    Seq<u32>,
    Seq<u32>,
    PwxformCtx,
) {
    let r = pwx_steps(b, s, ctx, ctx.pwx_rounds as nat * 4);
    if ctx.version is V0_5 {
        (r.0, r.1, ctx)
    } else {
        (
            r.0,
            r.1,
            PwxformCtx {
                s0: ctx.s2,
                s1: ctx.s0,
                s2: ctx.s1,
                w: (r.2 % (pwx_window_entries(ctx.swidth) as int)) as usize,
                ..ctx
            },
        )
    }
}

/// In 0.5 pwxform only reads the S-boxes: they, and the state, are left
/// as they were.
pub proof fn lemma_pwxform_v0_5_reads_only(b: Seq<u32>, s: Seq<u32>, ctx: PwxformCtx)
    requires
        ctx.version is V0_5,
    ensures
        pwxform_chunk(b, s, ctx).1 == s,
        pwxform_chunk(b, s, ctx).2 == ctx,
{
    lemma_pwx_steps_v0_5(b, s, ctx, ctx.pwx_rounds as nat * 4);
}

/// Helper for [`lemma_pwxform_v0_5_reads_only`]: no step of a 0.5 pwxform
/// writes the S-boxes or moves the cursor.
proof fn lemma_pwx_steps_v0_5(b: Seq<u32>, s: Seq<u32>, ctx: PwxformCtx, t: nat)
    requires
        ctx.version is V0_5,
    ensures
        pwx_steps(b, s, ctx, t).1 == s,
        pwx_steps(b, s, ctx, t).2 == ctx.w,
    decreases t,
{
    if t > 0 {
        lemma_pwx_steps_v0_5(b, s, ctx, (t - 1) as nat);
    }
}

/// 1.0: after `t <= 12` gather steps the cursor has advanced by two for
/// each odd-slot write so far, and only words of the eight entry pairs from
/// the starting cursor, in S0 and S1, differ from `s`.
proof fn lemma_pwx_steps_v1_0(b: Seq<u32>, s: Seq<u32>, ctx: PwxformCtx, t: nat)
    requires
        ctx.version is V1_0,
        t <= 12,
        2 * (ctx.s0 + ctx.w + 8) <= s.len(),
        2 * (ctx.s1 + ctx.w + 8) <= s.len(),
    ensures
        pwx_steps(b, s, ctx, t).2 == ctx.w + 2 * pwx_writes_before(t as int / 4, t as int % 4),
        pwx_steps(b, s, ctx, t).1.len() == s.len(),
        forall|q: int|
            0 <= q < s.len() && !pwx_written(ctx, q) ==> #[trigger] pwx_steps(b, s, ctx, t).1[q] == s[q],
    decreases t,
{
    if t > 0 {
        lemma_pwx_steps_v1_0(b, s, ctx, (t - 1) as nat);
        let prev = pwx_steps(b, s, ctx, (t - 1) as nat);
        let i = (t - 1) / 4;
        let j = (t - 1) % 4;
        assert(t / 4 == if j == 3 { i + 1 } else { i });
        assert(t % 4 == if j == 3 { 0 } else { j + 1 });
        let cur = pwx_steps(b, s, ctx, t);
        assert(cur == pwx_gather(prev.0, prev.1, ctx, prev.2, i as int, j as int));
        assert forall|q: int| 0 <= q < s.len() && !pwx_written(ctx, q) implies #[trigger] cur.1[q] == s[q] by {
            assert(prev.1[q] == s[q]);
        }
    }
}

/// 1.0 pwxform with its three rounds: the windows rotate, the cursor
/// advances by eight entries modulo the window size, and only the eight
/// entry pairs from the cursor in S0 and in S1 are written.
pub proof fn lemma_pwxform_v1_0_writes(b: Seq<u32>, s: Seq<u32>, ctx: PwxformCtx)
    requires
        ctx.version is V1_0,
        ctx.pwx_rounds == PWX_ROUNDS_1_0,
        2 * (ctx.s0 + ctx.w + 8) <= s.len(),
        2 * (ctx.s1 + ctx.w + 8) <= s.len(),
    ensures
        pwxform_chunk(b, s, ctx).2 == (PwxformCtx {
            s0: ctx.s2,
            s1: ctx.s0,
            s2: ctx.s1,
            w: ((ctx.w + 8) % (pwx_window_entries(ctx.swidth) as int)) as usize,
            ..ctx
        }),
        pwxform_chunk(b, s, ctx).1.len() == s.len(),
        forall|q: int|
            0 <= q < s.len() && !pwx_written(ctx, q) ==> #[trigger] pwxform_chunk(b, s, ctx).1[q] == s[q],
{
    lemma_pwx_steps_v1_0(b, s, ctx, 12);
}

/// From a state with [`pwx_geometry`], a pwxform call keeps
/// [`pwx_geometry_kept`] and [`ctx_wf`] where they held before.
pub proof fn lemma_pwx_geometry_kept(b: Seq<u32>, s: Seq<u32>, ctx: PwxformCtx)
    requires
        pwx_geometry(ctx, s.len()),
    ensures
        pwxform_chunk(b, s, ctx).1.len() == s.len(),
        pwx_geometry_kept(ctx, s.len()) ==> pwx_geometry_kept(pwxform_chunk(b, s, ctx).2, s.len()),
        ctx_wf(ctx) ==> ctx_wf(pwxform_chunk(b, s, ctx).2),
{
    lemma2_to64();
    if ctx.version is V0_5 {
        lemma_pwxform_v0_5_reads_only(b, s, ctx);
    } else {
        lemma_pow2_pos(ctx.swidth as nat);
        lemma_pwxform_v1_0_writes(b, s, ctx);
        if ctx.swidth >= 2 && ctx.w % 8 == 0 {
            let p = pow2(ctx.swidth as nat);
            vstd::arithmetic::power2::lemma_pow2_adds(2, (ctx.swidth - 2) as nat);
            assert(pow2(2) == 4);
            assert(p == 4 * pow2((ctx.swidth - 2) as nat));
            let big = pwx_window_entries(ctx.swidth) as int;
            vstd::arithmetic::div_mod::lemma_mod_multiples_basic(pow2((ctx.swidth - 2) as nat) as int, 8);
            assert(big == pow2((ctx.swidth - 2) as nat) * 8);
            assert(big % 8 == 0);
            let w = ctx.w as int;
            if w + 8 < big {
                vstd::arithmetic::div_mod::lemma_small_mod((w + 8) as nat, big as nat);
            } else {
                vstd::arithmetic::div_mod::lemma_mod_self_0(big);
            }
            assert(((w + 8) % big) % 8 == 0);
            assert((w + 8) % big + 8 <= big);
        }
    }
}

/// The state yespower sets up for a version, with an S-box buffer of that
/// version's size, has the geometry that pwxform keeps.
pub proof fn lemma_ctx_wf_geometry(ctx: PwxformCtx, len: nat)
    requires
        ctx_wf(ctx),
        len == sbox_words(ctx.version),
    ensures
        pwx_geometry_kept(ctx, len),
        ctx.salsa20_rounds < u32::MAX,
{
    lemma2_to64();
}

/// Low word of S-box entry `idx` of the window at entry pair `base_pairs`.
pub fn pair_lo(s: &[u32], base_pairs: usize, idx: usize) -> (v: u32)
    requires
        (base_pairs + idx) * 2 < s@.len(),
    ensures
        v == s@[(base_pairs + idx) * 2],
{
    proof {
        let len = s.len();
        assert(len == s@.len());
    }
    s[(base_pairs + idx) * 2]
}

/// High word of S-box entry `idx` of the window at entry pair `base_pairs`.
pub fn pair_hi(s: &[u32], base_pairs: usize, idx: usize) -> (v: u32)
    requires
        (base_pairs + idx) * 2 + 1 < s@.len(),
    ensures
        v == s@[(base_pairs + idx) * 2 + 1],
{
    proof {
        let len = s.len();
        assert(len == s@.len());
    }
    s[(base_pairs + idx) * 2 + 1]
}

/// Store `(lo, hi)` as S-box entry `idx` of the window at `base_pairs`.
pub fn set_pair(s: &mut [u32], base_pairs: usize, idx: usize, lo: u32, hi: u32)
    requires
        (base_pairs + idx) * 2 + 1 < old(s)@.len(),
    ensures
        final(s)@ == sbox_set(old(s)@, base_pairs as int, idx as int, lo, hi),
{
    proof {
        let len = s.len();
        assert(len == s@.len());
    }
    s[(base_pairs + idx) * 2] = lo;
    s[(base_pairs + idx) * 2 + 1] = hi;
}

/// Lane `k` of gather slot `j`: `B[j][k] <- (hi * lo + S0[p0 + k]) xor S1[p1 + k]`.
fn pwx_simple_lane(
    b: &mut [u32; PWX_WORDS],
    s: &[u32],
    s0: usize,
    p0: usize,
    s1: usize,
    p1: usize,
    j: usize,
    k: usize,
)
    requires
        j < PWX_GATHER,
        k < PWX_SIMPLE,
        (s0 + p0 + k) * 2 + 1 < s@.len(),
        (s1 + p1 + k) * 2 + 1 < s@.len(),
    ensures
        ({
            let x = pwx_lane(
                old(b)@[j * 4 + k * 2],
                old(b)@[j * 4 + k * 2 + 1],
                sbox_entry(s@, s0 as int, p0 + k),
                sbox_entry(s@, s1 as int, p1 + k),
            );
            final(b)@ == old(b)@.update(j * 4 + k * 2, x as u32).update(
                j * 4 + k * 2 + 1,
                (x >> 32u64) as u32,
            )
        }),
{
    proof {
        let len = s.len();
        assert(len == s@.len());
    }
    let h0 = pair_hi(s, s0, p0 + k);
    let l0 = pair_lo(s, s0, p0 + k);
    let h1 = pair_hi(s, s1, p1 + k);
    let l1 = pair_lo(s, s1, p1 + k);
    assert(((h0 as u64) << 32u64) + (l0 as u64) <= 0xffff_ffff_ffff_ffffu64) by (bit_vector);
    assert(((h1 as u64) << 32u64) + (l1 as u64) <= 0xffff_ffff_ffff_ffffu64) by (bit_vector);
    let s0v = ((h0 as u64) << 32u64) + l0 as u64;
    let s1v = ((h1 as u64) << 32u64) + l1 as u64;

    let xl = b[j * PWX_SIMPLE * 2 + k * 2];
    let xh = b[j * PWX_SIMPLE * 2 + k * 2 + 1];

    let mut x = (xh as u64).wrapping_mul(xl as u64);
    x = x.wrapping_add(s0v);
    x ^= s1v;

    b[j * PWX_SIMPLE * 2 + k * 2] = x as u32;
    b[j * PWX_SIMPLE * 2 + k * 2 + 1] = (x >> 32u64) as u32;
}

/// 1.0: how many odd-slot S1 writes (each advancing the cursor by two
/// entries) come before slot `j` of round `i`.
pub open spec fn pwx_writes_before(i: int, j: int) -> int {
    if i == 0 {
        j / 2
    } else {
        2 + (i - 1) + if j >= 2 {
            1int
        } else {
            0int
        }
    }
}

/// Gather slot `j` of round `i`: both lanes, then the 1.0 S-box writes;
/// returns the advanced write cursor.
fn pwx_gather_slot(
    b: &mut [u32; PWX_WORDS],
    s: &mut [u32],
    ctx: &PwxformCtx,
    w: usize,
    i: u32,
    j: usize,
) -> (w2: usize)
    requires
        pwx_geometry(*ctx, old(s)@.len()),
        i < ctx.pwx_rounds,
        j < PWX_GATHER,
        ctx.version is V0_5 ==> w == ctx.w,
        ctx.version is V1_0 ==> w == ctx.w + 2 * pwx_writes_before(i as int, j as int),
    ensures
        final(s)@.len() == old(s)@.len(),
        (final(b)@, final(s)@, w2 as int) == pwx_gather(old(b)@, old(s)@, *ctx, w as int, i as int, j as int),
        ctx.version is V0_5 ==> w2 == ctx.w,
        ctx.version is V1_0 ==> w2 == ctx.w + 2 * pwx_writes_before(i as int, j + 1),
{
    let ghost bj = b@;
    let ghost sj = s@;
    let mut w = w;
    let smask = ctx.smask;
    let s0 = ctx.s0;
    let s1 = ctx.s1;
    let xl = b[j * PWX_SIMPLE * 2];
    let xh = b[j * PWX_SIMPLE * 2 + 1];
    // Mask, then /8: a word becomes an entry-pair index into the S-box.
    let p0 = (xl & smask) as usize / 8;
    let p1 = (xh & smask) as usize / 8;
    proof {
        assert((xl & smask) <= smask && (xh & smask) <= smask) by (bit_vector);
        lemma_pow2_pos(ctx.swidth as nat);
    }
    pwx_simple_lane(b, s, s0, p0, s1, p1, j, 0);
    pwx_simple_lane(b, s, s0, p0, s1, p1, j, 1);
    let ghost bl = b@;
    assert(bl =~= pwx_gather(bj, sj, *ctx, w as int, i as int, j as int).0);

    // 1.0: write the updated lanes back into S0/S1.
    if ctx.version != Version::V0_5 && (i == 0 || j < PWX_GATHER / 2) {
        assert((j & 1 != 0) == (j % 2 == 1)) by (bit_vector);
        if j & 1 != 0 {
            let lo = b[j * PWX_SIMPLE * 2];
            let hi = b[j * PWX_SIMPLE * 2 + 1];
            set_pair(s, s1, w, lo, hi);
            w += 1;
            let lo = b[j * PWX_SIMPLE * 2 + 2];
            let hi = b[j * PWX_SIMPLE * 2 + 3];
            set_pair(s, s1, w, lo, hi);
            w += 1;
        } else {
            let lo = b[j * PWX_SIMPLE * 2];
            let hi = b[j * PWX_SIMPLE * 2 + 1];
            set_pair(s, s0, w + 0, lo, hi);
            let lo = b[j * PWX_SIMPLE * 2 + 2];
            let hi = b[j * PWX_SIMPLE * 2 + 3];
            set_pair(s, s0, w + 1, lo, hi);
        }
    }
    w
}

/// Parallel wide transform: multiply-xor the 16-word chunk `b[0..16]`
/// against two S-box tables. For each gather slot `j`, the low/high words
/// of its first lane select entries of S0 and S1, and each lane becomes
/// `(xh * xl + S0[p0 + k]) xor S1[p1 + k]`. In 1.0 the new lanes are also
/// written back into the S-boxes (eight entry pairs from the cursor, in S0
/// and S1), the cursor advances by eight entries modulo the window size,
/// and the three windows rotate. In 0.5 the S-boxes and the state are only
/// read. The rest of `b` is left as it was.
pub fn pwxform(b: &mut [u32], s: &mut [u32], ctx: &mut PwxformCtx)
    requires
        old(b)@.len() >= PWX_WORDS,
        pwx_geometry(*old(ctx), old(s)@.len()),
    ensures
        final(b)@.len() == old(b)@.len(),
        final(s)@.len() == old(s)@.len(),
        ({
            let c = pwxform_chunk(old(b)@.subrange(0, 16), old(s)@, *old(ctx));
            &&& final(b)@.subrange(0, 16) == c.0
            &&& final(s)@ == c.1
            &&& *final(ctx) == c.2
        }),
        final(b)@.subrange(16, old(b)@.len() as int) == old(b)@.subrange(16, old(b)@.len() as int),
        old(ctx).version is V0_5 ==> final(s)@ == old(s)@ && *final(ctx) == *old(ctx),
        old(ctx).version is V1_0 ==> *final(ctx) == (PwxformCtx {
            s0: old(ctx).s2,
            s1: old(ctx).s0,
            s2: old(ctx).s1,
            w: ((old(ctx).w + 8) % (pwx_window_entries(old(ctx).swidth) as int)) as usize,
            ..*old(ctx)
        }),
        old(ctx).version is V1_0 ==> forall|q: int|
            0 <= q < old(s)@.len() && !pwx_written(*old(ctx), q) ==> #[trigger] final(s)@[q] == old(s)@[q],
        pwx_geometry_kept(*old(ctx), old(s)@.len()) ==> pwx_geometry_kept(*final(ctx), final(s)@.len()),
        ctx_wf(*old(ctx)) ==> ctx_wf(*final(ctx)),
{
    let ghost bo = b@;
    let ghost sb0 = s@;
    let ghost c0 = *ctx;
    let mut x = [0u32; PWX_WORDS];
    blkcpy(&mut x, 0, b, 0, PWX_WORDS);
    let ghost b0 = x@;
    assert(b0 =~= bo.subrange(0, 16));
    let mut w = ctx.w;
    let s0 = ctx.s0;
    let s1 = ctx.s1;
    let s2 = ctx.s2;
    let rounds = ctx.pwx_rounds;

    for i in 0..rounds
        invariant
            *ctx == c0,
            pwx_geometry(c0, sb0.len()),
            rounds == c0.pwx_rounds,
            s0 == c0.s0,
            s1 == c0.s1,
            s2 == c0.s2,
            s@.len() == sb0.len(),
            (x@, s@, w as int) == pwx_steps(b0, sb0, c0, (i * 4) as nat),
            c0.version is V0_5 ==> w == c0.w,
            c0.version is V1_0 ==> w == c0.w + 2 * pwx_writes_before(i as int, 0),
    {
        for j in 0..PWX_GATHER
            invariant
                *ctx == c0,
                pwx_geometry(c0, sb0.len()),
                i < rounds,
                rounds == c0.pwx_rounds,
                s0 == c0.s0,
                s1 == c0.s1,
                s2 == c0.s2,
                s@.len() == sb0.len(),
                (x@, s@, w as int) == pwx_steps(b0, sb0, c0, (i * 4 + j) as nat),
                c0.version is V0_5 ==> w == c0.w,
                c0.version is V1_0 ==> w == c0.w + 2 * pwx_writes_before(i as int, j as int),
        {
            let ghost bj = x@;
            let ghost sj = s@;
            let ghost wj = w as int;
            w = pwx_gather_slot(&mut x, s, ctx, w, i, j);
            proof {
                let t = (i * 4 + j) as nat;
                assert(t / 4 == i && t % 4 == j);
                assert(pwx_steps(b0, sb0, c0, t + 1) == pwx_gather(bj, sj, c0, wj, i as int, j as int));
            }
        }
    }

    blkcpy(b, 0, &x, 0, PWX_WORDS);
    assert(b@.subrange(0, 16) =~= x@);
    assert(b@.subrange(16, bo.len() as int) =~= bo.subrange(16, bo.len() as int));

    if ctx.version != Version::V0_5 {
        // Rotate the three S-box windows: (S0, S1, S2) <- (S2, S0, S1)
        ctx.s0 = s2;
        ctx.s1 = s0;
        ctx.s2 = s1;
        proof {
            let sw = c0.swidth;
            lemma2_to64();
            lemma_pow2_strictly_increases(sw as nat, 29);
            vstd::bits::lemma_usize_shl_is_mul(1, sw as usize);
            assert((1usize << sw) == (1usize << (sw as usize))) by (bit_vector);
            vstd::arithmetic::power2::lemma_pow2_unfold((sw + 1) as nat);
            vstd::bits::lemma_usize_low_bits_mask_is_mod(w, (sw + 1) as nat);
            assert(w == c0.w + 8);
        }
        ctx.w = w & ((1usize << ctx.swidth) * PWX_SIMPLE - 1);
    }
    proof {
        if c0.version is V0_5 {
            lemma_pwxform_v0_5_reads_only(b0, sb0, c0);
        } else {
            lemma_pwxform_v1_0_writes(b0, sb0, c0);
        }
        lemma_pwx_geometry_kept(b0, sb0, c0);
    }
}

/// The first `i` pwxform steps of BlockMix on a `128 r`-byte block: the
/// block, the running chunk `x`, the S-boxes and the state.
pub open spec fn blockmix_pwx_steps(blk: Seq<u32>, s: Seq<u32>, ctx: PwxformCtx, r: nat, i: nat) -> (
    Seq<u32>,
    Seq<u32>,
    Seq<u32>,
    PwxformCtx,
)
    decreases i,
{
    if i == 0 {
        (blk, blk.subrange((2 * r - 1) * 16, (2 * r * 16) as int), s, ctx)
    } else {
        let p = blockmix_pwx_steps(blk, s, ctx, r, (i - 1) as nat);
        let x = seq_xor(p.1, p.0.subrange((i - 1) * 16, (i * 16) as int));
        let q = pwxform_chunk(x, p.2, p.3);
        (region_write(p.0, (i - 1) * 16, q.0), q.0, q.1, q.2)
    }
}

/// BlockMix with pwxform over a `128 r`-byte block: chain pwxform through
/// the `2 r` chunks of 64 bytes (each XORed with the previous result), then
/// Salsa20 on the last chunk.
pub open spec fn blockmix_pwxform_block(blk: Seq<u32>, s: Seq<u32>, ctx: PwxformCtx, r: nat) -> (
    Seq<u32>,
    Seq<u32>,
    PwxformCtx,
) {
    let p = blockmix_pwx_steps(blk, s, ctx, r, 2 * r);
    let last = (2 * r - 1) * 16;
    (
        region_write(p.0, last, salsa20_block(p.0.subrange(last, last + 16), p.3.salsa20_rounds)),
        p.2,
        p.3,
    )
}

/// BlockMix keeps the length of the block.
pub proof fn lemma_blockmix_pwxform_len(blk: Seq<u32>, s: Seq<u32>, ctx: PwxformCtx, r: nat)
    requires
        blk.len() == 32 * r,
    ensures
        blockmix_pwxform_block(blk, s, ctx, r).0.len() == 32 * r,
{
    lemma_blockmix_pwx_steps_len(blk, s, ctx, r, 2 * r);
}

/// The chained pwxform steps of BlockMix keep the length of the block.
proof fn lemma_blockmix_pwx_steps_len(blk: Seq<u32>, s: Seq<u32>, ctx: PwxformCtx, r: nat, i: nat)
    requires
        blk.len() == 32 * r,
    ensures
        blockmix_pwx_steps(blk, s, ctx, r, i).0.len() == 32 * r,
    decreases i,
{
    if i > 0 {
        lemma_blockmix_pwx_steps_len(blk, s, ctx, r, (i - 1) as nat);
    }
}

/// The chained pwxform steps of BlockMix keep [`pwx_geometry_kept`] and
/// [`ctx_wf`]; in 0.5 they leave the S-boxes and the state as they were, in
/// 1.0 each step rotates the windows once and advances the cursor by eight
/// entries modulo the window size.
proof fn lemma_blockmix_pwx_steps_ctx(blk: Seq<u32>, s: Seq<u32>, ctx: PwxformCtx, r: nat, i: nat)
    requires
        pwx_geometry_kept(ctx, s.len()),
    ensures
        blockmix_pwx_steps(blk, s, ctx, r, i).2.len() == s.len(),
        blockmix_pwx_steps(blk, s, ctx, r, i).3.version == ctx.version,
        blockmix_pwx_steps(blk, s, ctx, r, i).3.salsa20_rounds == ctx.salsa20_rounds,
        pwx_geometry_kept(blockmix_pwx_steps(blk, s, ctx, r, i).3, s.len()),
        ctx_wf(ctx) ==> ctx_wf(blockmix_pwx_steps(blk, s, ctx, r, i).3),
        ctx.version is V0_5 ==> blockmix_pwx_steps(blk, s, ctx, r, i).2 == s
            && blockmix_pwx_steps(blk, s, ctx, r, i).3 == ctx,
        ctx.version is V1_0 ==> blockmix_pwx_steps(blk, s, ctx, r, i).3 == (PwxformCtx {
            w: ((ctx.w + 8 * i) % (pwx_window_entries(ctx.swidth) as int)) as usize,
            ..pwx_rotate(ctx, i)
        }),
    decreases i,
{
    if i > 0 {
        lemma_blockmix_pwx_steps_ctx(blk, s, ctx, r, (i - 1) as nat);
        let p = blockmix_pwx_steps(blk, s, ctx, r, (i - 1) as nat);
        let x = seq_xor(p.1, p.0.subrange((i - 1) * 16, (i * 16) as int));
        lemma_pwx_geometry_kept(x, p.2, p.3);
        if ctx.version is V0_5 {
            lemma_pwxform_v0_5_reads_only(x, p.2, p.3);
        } else {
            lemma_pwxform_v1_0_writes(x, p.2, p.3);
            let big = pwx_window_entries(ctx.swidth) as int;
            lemma_pow2_pos(ctx.swidth as nat);
            lemma2_to64();
            lemma_pow2_strictly_increases(ctx.swidth as nat, 29);
            vstd::arithmetic::div_mod::lemma_add_mod_noop_right(8, ctx.w + 8 * (i - 1), big);
            assert(8 + (ctx.w + 8 * (i - 1)) == ctx.w + 8 * i);
            let c = pwxform_chunk(x, p.2, p.3).2;
            assert(p.3.swidth == ctx.swidth);
            assert(big < 0x4000_0000);
            assert(p.3.w as int == (ctx.w + 8 * (i - 1)) % big);
            assert(c.w as int == (ctx.w + 8 * i) % big);
            let q = pwx_rotate(ctx, i);
            assert(c.s0 == q.s0 && c.s1 == q.s1 && c.s2 == q.s2);
            assert(c.w == ((ctx.w + 8 * i) % big) as usize);
            assert(blockmix_pwx_steps(blk, s, ctx, r, i).3 == c);
            assert(c == (PwxformCtx { w: ((ctx.w + 8 * i) % big) as usize, ..q }));
        }
    } else if ctx.version is V1_0 {
        lemma_pow2_pos(ctx.swidth as nat);
        vstd::arithmetic::div_mod::lemma_small_mod(ctx.w as nat, pwx_window_entries(ctx.swidth));
    }
}

/// pwxform maps a 16-word chunk to a 16-word chunk.
proof fn lemma_pwx_steps_chunk_len(b: Seq<u32>, s: Seq<u32>, ctx: PwxformCtx, t: nat)
    requires
        b.len() == 16,
    ensures
        pwx_steps(b, s, ctx, t).0.len() == 16,
    decreases t,
{
    if t > 0 {
        lemma_pwx_steps_chunk_len(b, s, ctx, (t - 1) as nat);
    }
}

/// After `k` chained steps of BlockMix: the chunks from `k` on are still
/// the input's, the running chunk is chunk `k - 1`, and each chunk `j < k`
/// is what step `j + 1` wrote.
proof fn lemma_blockmix_pwx_steps_shape(blk: Seq<u32>, s: Seq<u32>, ctx: PwxformCtx, r: nat, k: nat)
    requires
        r >= 1,
        blk.len() == 32 * r,
        k <= 2 * r,
    ensures
        blockmix_pwx_steps(blk, s, ctx, r, k).0.len() == 32 * r,
        blockmix_pwx_steps(blk, s, ctx, r, k).1.len() == 16,
        forall|t: int| 16 * k <= t < 32 * r ==> #[trigger] blockmix_pwx_steps(blk, s, ctx, r, k).0[t] == blk[t],
        k >= 1 ==> blockmix_pwx_steps(blk, s, ctx, r, k).1 == blockmix_pwx_steps(blk, s, ctx, r, k).0.subrange(
            16 * (k - 1),
            16 * (k as int),
        ),
        forall|j: nat, t: int|
            j < k && 16 * j <= t < 16 * j + 16 ==> blockmix_pwx_steps(blk, s, ctx, r, k).0[t]
                == #[trigger] blockmix_pwx_steps(blk, s, ctx, r, j + 1).0[t],
    decreases k,
{
    if k > 0 {
        lemma_blockmix_pwx_steps_shape(blk, s, ctx, r, (k - 1) as nat);
        let p = blockmix_pwx_steps(blk, s, ctx, r, (k - 1) as nat);
        let x = seq_xor(p.1, p.0.subrange((k - 1) * 16, (k * 16) as int));
        lemma_pwx_steps_chunk_len(x, p.2, p.3, p.3.pwx_rounds as nat * 4);
        let q = pwxform_chunk(x, p.2, p.3);
        let c = blockmix_pwx_steps(blk, s, ctx, r, k);
        assert(c.0 == region_write(p.0, (k - 1) * 16, q.0));
        assert(c.1 =~= c.0.subrange(16 * (k - 1), 16 * (k as int)));
        assert forall|j: nat, t: int| j < k && 16 * j <= t < 16 * j + 16 implies c.0[t]
            == #[trigger] blockmix_pwx_steps(blk, s, ctx, r, j + 1).0[t] by {
            if j + 1 < k {
                assert(p.0[t] == blockmix_pwx_steps(blk, s, ctx, r, j + 1).0[t]);
            }
        }
    }
}

/// BlockMix with pwxform chains pwxform through every one of the `2 r`
/// chunks of 16 words: output chunk `i` is pwxform of input chunk `i`
/// XORed with the output chunk before it (for `i = 0`, with the last input
/// chunk), under the S-boxes and state that the `i` calls before it left;
/// the last chunk is then also put through Salsa20.
pub proof fn lemma_blockmix_pwxform_chain(blk: Seq<u32>, s: Seq<u32>, ctx: PwxformCtx, r: nat, i: nat)
    requires
        r >= 1,
        blk.len() == 32 * r,
        i < 2 * r,
    ensures
        ({
            let m = blockmix_pwxform_block(blk, s, ctx, r);
            let out = m.0;
            let prev = if i == 0 {
                blk.subrange(16 * (2 * r - 1), 32 * r as int)
            } else {
                out.subrange(16 * (i - 1), 16 * (i as int))
            };
            let st = blockmix_pwx_steps(blk, s, ctx, r, i);
            let y = pwxform_chunk(seq_xor(prev, blk.subrange(16 * (i as int), 16 * (i as int) + 16)), st.2, st.3).0;
            &&& out.len() == 32 * r
            &&& i + 1 < 2 * r ==> out.subrange(16 * (i as int), 16 * (i as int) + 16) == y
            &&& i + 1 == 2 * r ==> out.subrange(16 * (i as int), 16 * (i as int) + 16) == salsa20_block(y, m.2.salsa20_rounds)
        }),
{
    let m = blockmix_pwxform_block(blk, s, ctx, r);
    let out = m.0;
    let big = blockmix_pwx_steps(blk, s, ctx, r, 2 * r);
    lemma_blockmix_pwx_steps_shape(blk, s, ctx, r, 2 * r);
    lemma_blockmix_pwx_steps_shape(blk, s, ctx, r, i);
    lemma_blockmix_pwx_steps_shape(blk, s, ctx, r, i + 1);
    let last = (2 * r - 1) * 16;
    let sal = salsa20_block(big.0.subrange(last, last + 16), big.3.salsa20_rounds);
    assert(out == region_write(big.0, last, sal));
    let st = blockmix_pwx_steps(blk, s, ctx, r, i);
    let nx = blockmix_pwx_steps(blk, s, ctx, r, i + 1);
    let prev = if i == 0 {
        blk.subrange(16 * (2 * r - 1), 32 * r as int)
    } else {
        out.subrange(16 * (i - 1), 16 * (i as int))
    };
    // The running chunk before step `i + 1` is `prev`.
    if i == 0 {
        assert(st.1 == prev);
    } else {
        assert forall|t: int| 0 <= t < 16 implies #[trigger] st.1[t] == prev[t] by {
            let u = 16 * (i - 1) + t;
            assert(big.0[u] == blockmix_pwx_steps(blk, s, ctx, r, ((i - 1) as nat + 1) as nat).0[u]);
            assert(out[u] == big.0[u]);
        }
        assert(st.1 =~= prev);
    }
    // Input chunk `i` is still in place before step `i + 1`.
    assert(st.0.subrange(16 * (i as int), 16 * (i as int) + 16) =~= blk.subrange(16 * (i as int), 16 * (i as int) + 16));
    let x = seq_xor(st.1, st.0.subrange((i as int) * 16, ((i + 1) as int) * 16));
    assert(x == seq_xor(prev, blk.subrange(16 * (i as int), 16 * (i as int) + 16)));
    let q = pwxform_chunk(x, st.2, st.3);
    lemma_pwx_steps_chunk_len(x, st.2, st.3, st.3.pwx_rounds as nat * 4);
    assert(nx.0 == region_write(st.0, (i as int) * 16, q.0));
    // Output chunk `i` is what step `i + 1` wrote.
    if i + 1 < 2 * r {
        assert forall|t: int| 0 <= t < 16 implies #[trigger] out.subrange(16 * (i as int), 16 * (i as int) + 16)[t] == q.0[t] by {
            let u = 16 * i + t;
            assert(big.0[u] == blockmix_pwx_steps(blk, s, ctx, r, i + 1).0[u]);
        }
        assert(out.subrange(16 * (i as int), 16 * (i as int) + 16) =~= q.0);
    } else {
        assert(big.0.subrange(last, last + 16) =~= q.0) by {
            assert forall|t: int| 0 <= t < 16 implies #[trigger] big.0.subrange(last, last + 16)[t] == q.0[t] by {
                let u = last + t;
                assert(big.0[u] == blockmix_pwx_steps(blk, s, ctx, r, i + 1).0[u]);
            }
        }
        assert(out.subrange(16 * (i as int), 16 * (i as int) + 16) =~= sal);
    }
}

/// BlockMix used by the main SMix loops, on the `128 r`-byte block at word
/// `off` of `b`: pwxform over the whole block, then Salsa20 on what is left
/// (with 64-byte pwxform chunks, only the last chunk).
#[verifier::rlimit(50)]
pub fn blockmix_pwxform(b: &mut [u32], off: usize, s: &mut [u32], ctx: &mut PwxformCtx, r: usize)
    requires
        r >= 1,
        128 * r <= usize::MAX,
        off + 32 * r <= old(b)@.len(),
        pwx_geometry_kept(*old(ctx), old(s)@.len()),
        old(ctx).salsa20_rounds < u32::MAX,
    ensures
        final(s)@.len() == old(s)@.len(),
        ({
            let m = blockmix_pwxform_block(
                old(b)@.subrange(off as int, off + 32 * r),
                old(s)@,
                *old(ctx),
                r as nat,
            );
            &&& final(b)@ == region_write(old(b)@, off as int, m.0)
            &&& final(s)@ == m.1
            &&& *final(ctx) == m.2
        }),
        final(b)@.len() == old(b)@.len(),
        final(b)@.subrange(0, off as int) == old(b)@.subrange(0, off as int),
        final(b)@.subrange(off + 32 * r, old(b)@.len() as int) == old(b)@.subrange(
            off + 32 * r,
            old(b)@.len() as int,
        ),
        final(ctx).version == old(ctx).version,
        final(ctx).salsa20_rounds == old(ctx).salsa20_rounds,
        old(ctx).version is V0_5 ==> final(s)@ == old(s)@ && *final(ctx) == *old(ctx),
        old(ctx).version is V1_0 ==> *final(ctx) == (PwxformCtx {
            w: ((old(ctx).w + 16 * r) % (pwx_window_entries(old(ctx).swidth) as int)) as usize,
            ..pwx_rotate(*old(ctx), 2 * r as nat)
        }),
        pwx_geometry_kept(*final(ctx), final(s)@.len()),
        ctx_wf(*old(ctx)) ==> ctx_wf(*final(ctx)),
{
    let ghost b0 = b@;
    let ghost blk = b0.subrange(off as int, off + 32 * r);
    let ghost s0 = s@;
    let ghost c0 = *ctx;
    let mut x = [0u32; PWX_WORDS];
    // How many pwxform-sized chunks fit in a 128 r-byte block.
    let r1 = 128 * r / PWX_BYTES;
    assert(128 * r / 64 == 2 * r) by (nonlinear_arith);
    assert(r1 == 2 * r);
    proof {
        let blen = b.len();
        assert(blen == b0.len());
    }
    assert(off + (r1 - 1) * PWX_WORDS + PWX_WORDS <= b0.len());

    blkcpy(&mut x, 0, b, off + (r1 - 1) * PWX_WORDS, PWX_WORDS);
    assert(x@ =~= blk.subrange((2 * r - 1) * 16, 2 * r * 16));

    for i in 0..r1
        invariant
            r1 == 2 * r,
            r >= 1,
            off + 32 * r <= b0.len(),
            b0.len() <= usize::MAX,
            blk == b0.subrange(off as int, off + 32 * r),
            b@.len() == b0.len(),
            pwx_geometry_kept(c0, s0.len()),
            pwx_geometry_kept(*ctx, s@.len()),
            s@.len() == s0.len(),
            ({
                let p = blockmix_pwx_steps(blk, s0, c0, r as nat, i as nat);
                &&& b@ == region_write(b0, off as int, p.0)
                &&& x@ == p.1
                &&& s@ == p.2
                &&& *ctx == p.3
            }),
            blockmix_pwx_steps(blk, s0, c0, r as nat, i as nat).0.len() == 32 * r,
    {
        let ghost p = blockmix_pwx_steps(blk, s0, c0, r as nat, i as nat);
        assert(b@.subrange(off + i * 16, off + i * 16 + 16) =~= p.0.subrange(i * 16, i * 16 + 16));
        if r1 > 1 {
            blkxor(&mut x, 0, b, off + i * PWX_WORDS, PWX_WORDS);
        }
        assert(x@ =~= seq_xor(p.1, p.0.subrange(i * 16, i * 16 + 16)));
        assert(x@.subrange(0, 16) =~= x@);
        pwxform(&mut x, s, ctx);
        assert(x@.subrange(0, 16) =~= x@);
        blkcpy(b, off + i * PWX_WORDS, &x, 0, PWX_WORDS);
        proof {
            let q = blockmix_pwx_steps(blk, s0, c0, r as nat, (i + 1) as nat);
            assert(b@ =~= region_write(b0, off as int, q.0));
        }
    }

    let ghost p = blockmix_pwx_steps(blk, s0, c0, r as nat, 2 * r as nat);
    proof {
        lemma_blockmix_pwx_steps_ctx(blk, s0, c0, r as nat, 2 * r as nat);
    }
    // After pwxform, mix the remaining Salsa20 sub-blocks (classic BlockMix tail).
    assert((r1 - 1) * 64 / 64 == r1 - 1) by (nonlinear_arith)
        requires
            r1 >= 1,
    ;
    let mut i = (r1 - 1) * PWX_BYTES / 64;
    assert(i == 2 * r - 1);
    let mut t = [0u32; 16];
    blkcpy(&mut t, 0, b, off + i * 16, 16);
    assert(t@ =~= p.0.subrange(i * 16, i * 16 + 16));
    assert(t@.subrange(0, 16) =~= t@);
    salsa20(&mut t, ctx.salsa20_rounds);
    assert(t@ =~= t@.subrange(0, 16));
    blkcpy(b, off + i * 16, &t, 0, 16);
    let ghost m = blockmix_pwxform_block(blk, s0, c0, r as nat);
    assert(b@ =~= region_write(b0, off as int, m.0));

    i += 1;
    // With 64-byte pwxform chunks the last chunk is the last sub-block, so
    // this loop finds nothing left to do.
    while i < 2 * r
        invariant
            i == 2 * r,
            b@ == region_write(b0, off as int, m.0),
            s@ == m.1,
            *ctx == m.2,
            ctx.salsa20_rounds < u32::MAX,
        decreases 2 * r - i,
    {
        let mut t = [0u32; 16];
        blkcpy(&mut t, 0, b, off + i * 16, 16);
        blkxor(&mut t, 0, b, off + (i - 1) * 16, 16);
        salsa20(&mut t, ctx.salsa20_rounds);
        blkcpy(b, off + i * 16, &t, 0, 16);
        i += 1;
    }
    proof {
        lemma_blockmix_pwxform_len(blk, s0, c0, r as nat);
        assert(b@.subrange(0, off as int) =~= b0.subrange(0, off as int));
        assert(b@.subrange(off + 32 * r, b0.len() as int) =~= b0.subrange(off + 32 * r, b0.len() as int));
        assert(8 * (2 * r) == 16 * r);
    }
}

} // verus!
