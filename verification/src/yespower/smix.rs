//! SMix: S-box initialization, the fill of `V`, and the random-access
//! passes over it.

use crate::sha256::{le32dec, le32dec_word, le32enc, le32enc_word, lemma_le32_roundtrip};
use crate::Version;
use crate::yespower::block::{blkcpy, blkxor, region_write, seq_xor};
use crate::yespower::index::{integerify, wrap, wrap_index};
use crate::yespower::pwxform::{
    blockmix_pwxform, blockmix_pwxform_block, lemma_blockmix_pwxform_len, lemma_ctx_wf_geometry, ctx_wf, sbox_words,
    PwxformCtx,
};
use crate::yespower::salsa::{blockmix_salsa, blockmix_salsa_block, lemma_shuffle_index, shuffle_index, unshuffle_index};
use vstd::prelude::*;

verus! {

/// The working block of `r` 128-byte blocks as SMix sees it: each host word
/// decoded as little-endian, and each 64-byte sub-block unshuffled into
/// Salsa20 state order.
pub open spec fn smix_decode(b: Seq<u32>, r: nat) -> Seq<u32> {
    Seq::new(32 * r, |t: int| le32dec(b[(t / 16) * 16 + shuffle_index(t % 16)]))
}

/// The inverse of [`smix_decode`]: shuffle each sub-block back into SIMD
/// order and store each word as little-endian.
pub open spec fn smix_encode(x: Seq<u32>, r: nat) -> Seq<u32> {
    Seq::new(32 * r, |t: int| le32enc(x[(t / 16) * 16 + unshuffle_index(t % 16)]))
}

/// Decoding what was encoded gives the words back.
pub proof fn lemma_decode_encode(x: Seq<u32>, r: nat)
    requires
        x.len() == 32 * r,
    ensures
        smix_decode(smix_encode(x, r), r) == x,
{
    let e = smix_encode(x, r);
    assert forall|t: int| 0 <= t < 32 * r implies #[trigger] smix_decode(e, r)[t] == x[t] by {
        let k = t / 16;
        let i = t % 16;
        lemma_shuffle_index(i, shuffle_index(i));
        let u = k * 16 + shuffle_index(i);
        assert(0 <= u < 32 * r) by (nonlinear_arith)
            requires
                t == k * 16 + i,
                0 <= i < 16,
                0 <= shuffle_index(i) < 16,
                0 <= t < 32 * r,
                u == k * 16 + shuffle_index(i),
        ;
        assert(u / 16 == k && u % 16 == shuffle_index(i)) by (nonlinear_arith)
            requires
                u == k * 16 + shuffle_index(i),
                0 <= shuffle_index(i) < 16,
        ;
        assert(unshuffle_index(shuffle_index(i)) == i);
        lemma_le32_roundtrip(x[t]);
    }
    assert(smix_decode(e, r) =~= x);
}

/// Load the first `32 r` words of `x` from `b` in SMix order
/// (`le32dec` plus unshuffle).
fn smix_load(b: &[u32], x: &mut [u32], r: usize)
    requires
        32 * r <= b@.len(),
        32 * r <= old(x)@.len(),
    ensures
        final(x)@ == region_write(old(x)@, 0, smix_decode(b@, r as nat)),
{
    let ghost x0 = x@;
    proof {
        let xl = x.len();
        assert(xl == x0.len());
    }
    for k in 0..2 * r
        invariant
            32 * r <= b@.len(),
            32 * r <= x0.len(),
            x0.len() <= usize::MAX,
            x@.len() == x0.len(),
            forall|t: int|
                0 <= t < x0.len() ==> #[trigger] x@[t] == if t < 16 * k {
                    smix_decode(b@, r as nat)[t]
                } else {
                    x0[t]
                },
    {
        for i in 0..16
            invariant
                k < 2 * r,
                32 * r <= b@.len(),
                32 * r <= x0.len(),
                x0.len() <= usize::MAX,
                x@.len() == x0.len(),
                forall|t: int|
                    0 <= t < x0.len() ==> #[trigger] x@[t] == if t < 16 * k + i {
                        smix_decode(b@, r as nat)[t]
                    } else {
                        x0[t]
                    },
        {
            proof {
                lemma_shuffle_index(i as int, 0);
                let t = k * 16 + i;
                assert(t / 16 == k && t % 16 == i) by (nonlinear_arith)
                    requires
                        t == k * 16 + i,
                        0 <= i < 16,
                ;
                assert(k * 16 + 16 <= 32 * r);
            }
            x[k * 16 + i] = le32dec_word(b[k * 16 + (i * 5 % 16)]);
        }
    }
    assert(x@ =~= region_write(x0, 0, smix_decode(b@, r as nat)));
}

/// Store the first `32 r` words of `x` into `b` in host order
/// (shuffle plus `le32enc`).
fn smix_store(x: &[u32], b: &mut [u32], r: usize)
    requires
        32 * r <= old(b)@.len(),
        32 * r <= x@.len(),
    ensures
        final(b)@ == region_write(old(b)@, 0, smix_encode(x@, r as nat)),
{
    let ghost b0 = b@;
    proof {
        let bl = b.len();
        assert(bl == b0.len());
    }
    for k in 0..2 * r
        invariant
            32 * r <= b0.len(),
            32 * r <= x@.len(),
            b0.len() <= usize::MAX,
            b@.len() == b0.len(),
            forall|t: int|
                0 <= t < b0.len() ==> #[trigger] b@[t] == if t < 16 * k {
                    smix_encode(x@, r as nat)[t]
                } else {
                    b0[t]
                },
    {
        for i in 0..16
            invariant
                k < 2 * r,
                32 * r <= b0.len(),
                32 * r <= x@.len(),
                b0.len() <= usize::MAX,
                b@.len() == b0.len(),
                forall|t: int|
                    0 <= t < b0.len() ==> #[trigger] b@[t] == if t < 16 * k || (16 * k <= t < 16
                        * k + 16 && unshuffle_index(t - 16 * k) < i) {
                        smix_encode(x@, r as nat)[t]
                    } else {
                        b0[t]
                    },
        {
            proof {
                assert forall|m: int| 0 <= m < 16 implies (unshuffle_index(m) == i) == (m
                    == shuffle_index(i as int)) && 0 <= unshuffle_index(m) < 16 by {
                    lemma_shuffle_index(i as int, m);
                }
                lemma_shuffle_index(i as int, 0);
                assert forall|t: int| 16 * k <= t < 16 * k + 16 implies #[trigger] (t / 16) == k && t
                    % 16 == t - 16 * k by {
                    assert(t / 16 == k && t % 16 == t - 16 * k) by (nonlinear_arith)
                        requires
                            16 * k <= t < 16 * k + 16,
                    ;
                }
                assert(k * 16 + 16 <= 32 * r);
            }
            b[k * 16 + (i * 5 % 16)] = le32enc_word(x[k * 16 + i]);
        }
        proof {
            assert forall|m: int| 0 <= m < 16 implies 0 <= #[trigger] unshuffle_index(m) < 16 by {
                lemma_shuffle_index(0, m);
            }
        }
    }
    assert(b@ =~= region_write(b0, 0, smix_encode(x@, r as nat)));
}

/// Block count used while the S-boxes serve as `V` (one 128-byte block).
const SBOX_R: usize = 1;

/// One iteration `k` of the S-box initialization loop on the 32-word state
/// `x`, with the S-box buffer `s` as `V`: store `x` as `V[k]`, XOR in
/// `V[wrap(Integerify(x), k)]` from `k = 2` on, then BlockMix with plain
/// Salsa20.
pub open spec fn smix1_sbox_step(x: Seq<u32>, s: Seq<u32>, rounds: u32, k: int) -> (Seq<u32>, Seq<u32>) {
    let s1 = region_write(s, k * 32, x);
    let x1 = if k > 1 {
        let j = wrap_index(x[16] as nat, k as nat) as int;
        seq_xor(x, s1.subrange(j * 32, j * 32 + 32))
    } else {
        x
    };
    (blockmix_salsa_block(x1, rounds), s1)
}

/// The first `i` iterations of the S-box initialization loop.
pub open spec fn smix1_sbox_steps(x: Seq<u32>, s: Seq<u32>, rounds: u32, i: nat) -> (Seq<u32>, Seq<u32>)
    decreases i,
{
    if i == 0 {
        (x, s)
    } else {
        let p = smix1_sbox_steps(x, s, rounds, (i - 1) as nat);
        smix1_sbox_step(p.0, p.1, rounds, i - 1)
    }
}

/// One iteration `i` of the S-box initialization loop on `x[0..32]`.
fn smix1_sbox_iter(s: &mut [u32], x: &mut [u32], i: u32, rounds: u32)
    requires
        32 <= old(x)@.len(),
        32 * (i + 1) <= old(s)@.len(),
        rounds < u32::MAX,
    ensures
        final(x)@.len() == old(x)@.len(),
        final(s)@.len() == old(s)@.len(),
        ({
            let q = smix1_sbox_step(old(x)@.subrange(0, 32), old(s)@, rounds, i as int);
            &&& final(x)@.subrange(0, 32) == q.0
            &&& final(s)@ == q.1
        }),
        final(x)@.subrange(32, old(x)@.len() as int) == old(x)@.subrange(32, old(x)@.len() as int),
        forall|t: int| 32 * (i + 1) <= t < old(s)@.len() ==> #[trigger] final(s)@[t] == old(s)@[t],
{
    let ghost x0 = x@.subrange(0, 32);
    proof {
        let sl = s.len();
        assert(sl == old(s)@.len());
    }
    let s_words = 32 * SBOX_R;
    let i = i as usize;
    blkcpy(s, i * s_words, x, 0, s_words);
    let ghost s1 = s@;
    assert(s1 == region_write(old(s)@, i * 32, x0));
    if i > 1 {
        let j = wrap(integerify(x, SBOX_R), i as u32) as usize;
        blkxor(x, 0, s, j * s_words, s_words);
        assert(x@.subrange(0, 32) =~= seq_xor(x0, s1.subrange(j * 32, j * 32 + 32)));
    }
    let ghost xm = x@;
    assert(xm.subrange(0, 32) =~= if i > 1 {
        let j = wrap_index(x0[16] as nat, i as nat) as int;
        seq_xor(x0, s1.subrange(j * 32, j * 32 + 32))
    } else {
        x0
    });
    blockmix_salsa(x, rounds);
    assert(x@.subrange(0, 32) =~= smix1_sbox_step(x0, old(s)@, rounds, i as int).0);
    assert(x@.subrange(32, old(x)@.len() as int) =~= old(x)@.subrange(32, old(x)@.len() as int));
}

/// First SMix1 pass: the S-box buffer itself is `V` with `r = 1`, mixed
/// with plain Salsa20 BlockMix. This fills (initializes) the S-boxes before
/// the pwxform-based loops.
pub fn smix1_sbox(b: &mut [u32], n: u32, s: &mut [u32], x: &mut [u32], ctx: &PwxformCtx)
    requires
        32 <= old(b)@.len(),
        32 <= old(x)@.len(),
        32 * n <= old(s)@.len(),
        n > 0 ==> ctx.salsa20_rounds < u32::MAX,
    ensures
        ({
            let p = smix1_sbox_steps(smix_decode(old(b)@, 1), old(s)@, ctx.salsa20_rounds, n as nat);
            &&& final(b)@ == region_write(old(b)@, 0, smix_encode(p.0, 1))
            &&& final(s)@ == p.1
            &&& final(x)@ == p.0 + old(x)@.subrange(32, old(x)@.len() as int)
        }),
        final(s)@.len() == old(s)@.len(),
        final(s)@.subrange(32 * n, old(s)@.len() as int) == old(s)@.subrange(32 * n, old(s)@.len() as int),
        final(b)@.subrange(32, old(b)@.len() as int) == old(b)@.subrange(32, old(b)@.len() as int),
{
    let ghost x0 = smix_decode(b@, 1);
    let ghost s0 = s@;
    let ghost xs = x@;
    let ghost xl = x@.len();

    // Host words -> Salsa20 order (le32dec + unshuffle).
    smix_load(b, x, SBOX_R);
    assert(x@.subrange(0, 32) =~= x0);
    assert(x@.subrange(32, xl as int) =~= xs.subrange(32, xl as int));

    for i in 0..n
        invariant
            32 <= xl,
            x@.len() == xl,
            32 * n <= s0.len(),
            s@.len() == s0.len(),
            n > 0 ==> ctx.salsa20_rounds < u32::MAX,
            ({
                let p = smix1_sbox_steps(x0, s0, ctx.salsa20_rounds, i as nat);
                &&& x@.subrange(0, 32) == p.0
                &&& s@ == p.1
            }),
            x@.subrange(32, xl as int) == xs.subrange(32, xl as int),
            forall|t: int| 32 * i <= t < s0.len() ==> #[trigger] s@[t] == s0[t],
    {
        smix1_sbox_iter(s, x, i, ctx.salsa20_rounds);
    }

    // Salsa20 order -> host words (shuffle + le32enc).
    let ghost xf = x@;
    smix_store(x, b, SBOX_R);
    assert(smix_encode(xf, 1) =~= smix_encode(xf.subrange(0, 32), 1));
    assert(x@ =~= xf.subrange(0, 32) + xs.subrange(32, xl as int));
    assert(s@.subrange(32 * n, s0.len() as int) =~= s0.subrange(32 * n, s0.len() as int));
    assert(b@.subrange(32, b@.len() as int) =~= old(b)@.subrange(32, b@.len() as int));
}

/// Block `k` of a buffer of `w`-word blocks ends within `n` blocks.
proof fn lemma_block_in_range(k: int, n: int, w: int)
    requires
        0 <= k < n,
        0 <= w,
    ensures
        0 <= k * w,
        k * w + w <= n * w,
{
    assert(k * w + w <= n * w) by (nonlinear_arith)
        requires
            0 <= k < n,
            0 <= w,
    ;
    assert(0 <= k * w) by (nonlinear_arith)
        requires
            0 <= k,
            0 <= w,
    ;
}

/// 1.0 warm-up step `k`: copy 128-byte sub-block `k - 1` of `x` into
/// sub-block `k`, then BlockMix it (with pwxform, `r = 1`).
pub open spec fn smix1_warmup_step(x: Seq<u32>, s: Seq<u32>, ctx: PwxformCtx, k: int) -> (
    Seq<u32>,
    Seq<u32>,
    PwxformCtx,
) {
    let x1 = region_write(x, k * 32, x.subrange((k - 1) * 32, k * 32));
    let m = blockmix_pwxform_block(x1.subrange(k * 32, k * 32 + 32), s, ctx, 1);
    (region_write(x1, k * 32, m.0), m.1, m.2)
}

/// The first `c` warm-up steps (`k = 1..=c`).
pub open spec fn smix1_warmup(x: Seq<u32>, s: Seq<u32>, ctx: PwxformCtx, c: nat) -> (
    Seq<u32>,
    Seq<u32>,
    PwxformCtx,
)
    decreases c,
{
    if c == 0 {
        (x, s, ctx)
    } else {
        let p = smix1_warmup(x, s, ctx, (c - 1) as nat);
        smix1_warmup_step(p.0, p.1, p.2, c as int)
    }
}

/// Iteration `k` of SMix1: store `x` as `V[k]`, XOR in
/// `V[wrap(Integerify(x), k)]` from `k = 2` on, then BlockMix with pwxform.
pub open spec fn smix1_step(x: Seq<u32>, v: Seq<u32>, s: Seq<u32>, ctx: PwxformCtx, r: nat, k: int) -> (
    Seq<u32>,
    Seq<u32>,
    Seq<u32>,
    PwxformCtx,
) {
    let w = 32 * r;
    let v1 = region_write(v, k * w, x);
    let x1 = if k > 1 {
        let j = wrap_index(x[(2 * r - 1) * 16] as nat, k as nat) as int;
        seq_xor(x, v1.subrange(j * w, j * w + w))
    } else {
        x
    };
    let m = blockmix_pwxform_block(x1, s, ctx, r);
    (m.0, v1, m.1, m.2)
}

/// The first `i` iterations of SMix1.
pub open spec fn smix1_steps(x: Seq<u32>, v: Seq<u32>, s: Seq<u32>, ctx: PwxformCtx, r: nat, i: nat) -> (
    Seq<u32>,
    Seq<u32>,
    Seq<u32>,
    PwxformCtx,
)
    decreases i,
{
    if i == 0 {
        (x, v, s, ctx)
    } else {
        let p = smix1_steps(x, v, s, ctx, r, (i - 1) as nat);
        smix1_step(p.0, p.1, p.2, p.3, r, i - 1)
    }
}

/// SMix1 on the block `b`: decode, (1.0) warm up, `n` iterations filling
/// `V`, encode back.
pub open spec fn smix1_block(b: Seq<u32>, v: Seq<u32>, s: Seq<u32>, ctx: PwxformCtx, r: nat, n: nat) -> (
    Seq<u32>,
    Seq<u32>,
    Seq<u32>,
    PwxformCtx,
) {
    let x0 = smix_decode(b, r);
    let w = if ctx.version is V1_0 {
        smix1_warmup(x0, s, ctx, (r - 1) as nat)
    } else {
        (x0, s, ctx)
    };
    let p = smix1_steps(w.0, v, w.1, w.2, r, n);
    (smix_encode(p.0, r), p.1, p.2, p.3)
}

/// 1.0 warm-up step `k` on the state `x[0..32 r]`; the rest of `x` is left
/// as it was.
fn smix1_warmup_iter(x: &mut [u32], s: &mut [u32], ctx: &mut PwxformCtx, r: usize, k: usize)
    requires
        1 <= k < r,
        32 * r <= old(x)@.len(),
        ctx_wf(*old(ctx)),
        old(s)@.len() == sbox_words(old(ctx).version),
    ensures
        ctx_wf(*final(ctx)),
        final(ctx).version == old(ctx).version,
        final(s)@.len() == old(s)@.len(),
        final(x)@.len() == old(x)@.len(),
        (final(x)@.subrange(0, 32 * r as int), final(s)@, *final(ctx)) == smix1_warmup_step(
            old(x)@.subrange(0, 32 * r as int),
            old(s)@,
            *old(ctx),
            k as int,
        ),
        final(x)@.subrange(32 * r as int, old(x)@.len() as int) == old(x)@.subrange(
            32 * r as int,
            old(x)@.len() as int,
        ),
{
    let ghost x0 = x@;
    let ghost xs = x0.subrange(0, 32 * r as int);
    proof {
        let xl = x.len();
        assert(xl == x0.len());
    }
    // Copy sub-block k - 1 into sub-block k.
    let mut i: usize = 0;
    while i < 32
        invariant
            1 <= k < r,
            32 * r <= x0.len(),
            x0.len() <= usize::MAX,
            x@.len() == x0.len(),
            i <= 32,
            forall|t: int|
                0 <= t < x0.len() ==> #[trigger] x@[t] == if k * 32 <= t < k * 32 + i {
                    x0[t - 32]
                } else {
                    x0[t]
                },
        decreases 32 - i,
    {
        x[k * 32 + i] = x[(k - 1) * 32 + i];
        i += 1;
    }
    let ghost x1 = region_write(x0, k * 32, x0.subrange((k - 1) * 32, k * 32 as int));
    let ghost x1s = region_write(xs, k * 32, xs.subrange((k - 1) * 32, k * 32 as int));
    assert(x@ =~= x1);
    assert(x1.subrange(k * 32, k * 32 + 32) =~= x1s.subrange(k * 32, k * 32 + 32));
    proof {
        lemma_ctx_wf_geometry(*ctx, s@.len());
    }
    blockmix_pwxform(x, k * 32, s, ctx, 1);
    proof {
        let m = blockmix_pwxform_block(x1s.subrange(k * 32, k * 32 + 32), old(s)@, *old(ctx), 1);
        lemma_blockmix_pwxform_len(x1s.subrange(k * 32, k * 32 + 32), old(s)@, *old(ctx), 1);
        assert(x@.subrange(0, 32 * r as int) =~= region_write(x1s, k * 32, m.0));
        assert(x@.subrange(32 * r as int, x0.len() as int) =~= x0.subrange(32 * r as int, x0.len() as int));
    }
}

/// Iteration `i` of SMix1 on the state `x[0..32 r]`; the rest of `x` is
/// left as it was, and `V` changes only in block `i`.
fn smix1_iter(v: &mut [u32], x: &mut [u32], s: &mut [u32], ctx: &mut PwxformCtx, r: usize, i: u32)
    requires
        r >= 1,
        128 * r <= usize::MAX,
        32 * r <= old(x)@.len(),
        32 * r * (i + 1) <= old(v)@.len(),
        ctx_wf(*old(ctx)),
        old(s)@.len() == sbox_words(old(ctx).version),
    ensures
        ctx_wf(*final(ctx)),
        final(ctx).version == old(ctx).version,
        final(s)@.len() == old(s)@.len(),
        final(v)@.len() == old(v)@.len(),
        final(x)@.len() == old(x)@.len(),
        (final(x)@.subrange(0, 32 * r as int), final(v)@, final(s)@, *final(ctx)) == smix1_step(
            old(x)@.subrange(0, 32 * r as int),
            old(v)@,
            old(s)@,
            *old(ctx),
            r as nat,
            i as int,
        ),
        final(x)@.subrange(32 * r as int, old(x)@.len() as int) == old(x)@.subrange(
            32 * r as int,
            old(x)@.len() as int,
        ),
        forall|t: int| 32 * r * (i + 1) <= t < old(v)@.len() ==> #[trigger] final(v)@[t] == old(v)@[t],
{
    let ghost xf = x@;
    let ghost x0 = xf.subrange(0, 32 * r as int);
    let ghost v0 = v@;
    proof {
        let vl = v.len();
        assert(vl == v0.len());
        lemma_block_in_range(i as int, i + 1, 32 * r);
        assert(32 * r * (i + 1) == i * (32 * r) + 32 * r) by (nonlinear_arith);
    }
    let s_words = 32 * r;
    let i = i as usize;
    blkcpy(v, i * s_words, x, 0, s_words);
    let ghost v1 = v@;
    assert(v1 == region_write(v0, i * (32 * r), x0));
    if i > 1 {
        let j = wrap(integerify(x, r), i as u32) as usize;
        proof {
            lemma_block_in_range(j as int, i as int, 32 * r);
        }
        blkxor(x, 0, v, j * s_words, s_words);
        assert(x@.subrange(0, 32 * r as int) =~= seq_xor(x0, v1.subrange(j * (32 * r), j * (32 * r) + 32 * r)));
    }
    let ghost xm = x@;
    assert(xm.subrange(0, 32 * r as int) =~= if i > 1 {
        let j = wrap_index(x0[(2 * r - 1) * 16] as nat, i as nat) as int;
        seq_xor(x0, v1.subrange(j * (32 * r), j * (32 * r) + 32 * r))
    } else {
        x0
    });
    assert(xm.subrange(32 * r as int, xf.len() as int) =~= xf.subrange(32 * r as int, xf.len() as int));
    proof {
        lemma_ctx_wf_geometry(*ctx, s@.len());
    }
    blockmix_pwxform(x, 0, s, ctx, r);
    proof {
        let m = blockmix_pwxform_block(xm.subrange(0, 32 * r as int), old(s)@, *old(ctx), r as nat);
        lemma_blockmix_pwxform_len(xm.subrange(0, 32 * r as int), old(s)@, *old(ctx), r as nat);
        assert(x@.subrange(0, 32 * r as int) =~= m.0);
        assert(x@.subrange(32 * r as int, xf.len() as int) =~= xf.subrange(32 * r as int, xf.len() as int));
    }
}

/// SMix1: fill `V[0..n)` with successive BlockMix outputs. In 1.0 each
/// 128-byte sub-block is first BlockMixed once (warm-up). Only the first
/// `32 r` words of `b` and `x` and the first `32 r n` words of `v` are used;
/// the rest of each is left as it was.
pub fn smix1(
    b: &mut [u32],
    r: usize,
    n: u32,
    v: &mut [u32],
    x: &mut [u32],
    s: &mut [u32],
    ctx: &mut PwxformCtx,
)
    requires
        r >= 1,
        128 * r <= usize::MAX,
        32 * r <= old(b)@.len(),
        32 * r <= old(x)@.len(),
        32 * r * n <= old(v)@.len(),
        ctx_wf(*old(ctx)),
        old(s)@.len() == sbox_words(old(ctx).version),
    ensures
        ctx_wf(*final(ctx)),
        final(ctx).version == old(ctx).version,
        final(s)@.len() == old(s)@.len(),
        final(v)@.len() == old(v)@.len(),
        final(x)@.len() == old(x)@.len(),
        ({
            let p = smix1_block(old(b)@, old(v)@, old(s)@, *old(ctx), r as nat, n as nat);
            &&& final(b)@ == region_write(old(b)@, 0, p.0)
            &&& final(v)@ == p.1
            &&& final(s)@ == p.2
            &&& *final(ctx) == p.3
        }),
        final(x)@.subrange(32 * r as int, old(x)@.len() as int) == old(x)@.subrange(
            32 * r as int,
            old(x)@.len() as int,
        ),
        final(b)@.subrange(32 * r as int, old(b)@.len() as int) == old(b)@.subrange(
            32 * r as int,
            old(b)@.len() as int,
        ),
        final(v)@.subrange(32 * r * n, old(v)@.len() as int) == old(v)@.subrange(
            32 * r * n,
            old(v)@.len() as int,
        ),
{
    let ghost b0 = b@;
    let ghost v0 = v@;
    let ghost s0 = s@;
    let ghost c0 = *ctx;
    let ghost xf = x@;
    let ghost xl = xf.len();
    let ghost tail = xf.subrange(32 * r as int, xl as int);
    let ghost x0 = smix_decode(b0, r as nat);

    smix_load(b, x, r);
    assert(x@.subrange(0, 32 * r as int) =~= x0);
    assert(x@.subrange(32 * r as int, xl as int) =~= tail);

    // 1.0 warm-up: BlockMix each 128-byte sub-block once before the V loop.
    if ctx.version != Version::V0_5 {
        for k in 1..r
            invariant
                r >= 1,
                32 * r <= xl,
                x@.len() == xl,
                x@.subrange(32 * r as int, xl as int) == tail,
                ctx_wf(*ctx),
                ctx.version == c0.version,
                s@.len() == sbox_words(c0.version),
                (x@.subrange(0, 32 * r as int), s@, *ctx) == smix1_warmup(x0, s0, c0, (k - 1) as nat),
        {
            smix1_warmup_iter(x, s, ctx, r, k);
        }
    }
    let ghost w = if c0.version is V1_0 {
        smix1_warmup(x0, s0, c0, (r - 1) as nat)
    } else {
        (x0, s0, c0)
    };
    assert((x@.subrange(0, 32 * r as int), s@, *ctx) == w);

    for i in 0..n
        invariant
            r >= 1,
            128 * r <= usize::MAX,
            32 * r <= xl,
            x@.len() == xl,
            x@.subrange(32 * r as int, xl as int) == tail,
            32 * r * n <= v0.len(),
            v@.len() == v0.len(),
            ctx_wf(*ctx),
            ctx.version == c0.version,
            s@.len() == sbox_words(c0.version),
            ({
                let p = smix1_steps(w.0, v0, w.1, w.2, r as nat, i as nat);
                &&& x@.subrange(0, 32 * r as int) == p.0
                &&& v@ == p.1
                &&& s@ == p.2
                &&& *ctx == p.3
            }),
            forall|t: int| 32 * r * i <= t < v0.len() ==> #[trigger] v@[t] == v0[t],
    {
        proof {
            lemma_block_in_range(i as int, n as int, 32 * r);
            assert(32 * r * (i + 1) == i * (32 * r) + 32 * r) by (nonlinear_arith);
            assert(32 * r * n == n * (32 * r)) by (nonlinear_arith);
        }
        smix1_iter(v, x, s, ctx, r, i);
    }

    // Salsa20 order -> host words (shuffle + le32enc).
    let ghost xe = x@;
    smix_store(x, b, r);
    assert(smix_encode(xe, r as nat) =~= smix_encode(xe.subrange(0, 32 * r as int), r as nat));
    assert(b@.subrange(32 * r as int, b0.len() as int) =~= b0.subrange(32 * r as int, b0.len() as int));
    assert(v@.subrange(32 * r * n, v0.len() as int) =~= v0.subrange(32 * r * n, v0.len() as int));
}

/// One SMix2 iteration: `j = Integerify(x) mod n`, `x ^= V[j]`, store `x`
/// back as `V[j]` unless the pass is the read-only one (`nloop == 2`),
/// then BlockMix with pwxform.
pub open spec fn smix2_step(
    x: Seq<u32>,
    v: Seq<u32>,
    s: Seq<u32>,
    ctx: PwxformCtx,
    r: nat,
    n: u32,
    nloop: u32,
) -> (Seq<u32>, Seq<u32>, Seq<u32>, PwxformCtx) {
    let w = 32 * r;
    let j = (x[(2 * r - 1) * 16] & ((n - 1) as u32)) as int;
    let x1 = seq_xor(x, v.subrange(j * w, j * w + w));
    let v1 = if nloop != 2 {
        region_write(v, j * w, x1)
    } else {
        v
    };
    let m = blockmix_pwxform_block(x1, s, ctx, r);
    (m.0, v1, m.1, m.2)
}

/// The first `i` iterations of an SMix2 pass of `nloop` iterations.
pub open spec fn smix2_steps(
    x: Seq<u32>,
    v: Seq<u32>,
    s: Seq<u32>,
    ctx: PwxformCtx,
    r: nat,
    n: u32,
    nloop: u32,
    i: nat,
) -> (Seq<u32>, Seq<u32>, Seq<u32>, PwxformCtx)
    decreases i,
{
    if i == 0 {
        (x, v, s, ctx)
    } else {
        let p = smix2_steps(x, v, s, ctx, r, n, nloop, (i - 1) as nat);
        smix2_step(p.0, p.1, p.2, p.3, r, n, nloop)
    }
}

/// A pass of exactly two iterations is the read-only one: it leaves `V`
/// as it was.
pub proof fn lemma_smix2_read_only_pass(
    x: Seq<u32>,
    v: Seq<u32>,
    s: Seq<u32>,
    ctx: PwxformCtx,
    r: nat,
    n: u32,
    i: nat,
)
    ensures
        smix2_steps(x, v, s, ctx, r, n, 2, i).1 == v,
    decreases i,
{
    if i > 0 {
        lemma_smix2_read_only_pass(x, v, s, ctx, r, n, (i - 1) as nat);
    }
}

/// One SMix2 iteration on the state `x[0..32 r]`; the rest of `x`, and `V`
/// past its first `n` blocks, are left as they were.
fn smix2_iter(v: &mut [u32], x: &mut [u32], s: &mut [u32], ctx: &mut PwxformCtx, r: usize, n: u32, nloop: u32)
    requires
        r >= 1,
        n >= 1,
        128 * r <= usize::MAX,
        32 * r <= old(x)@.len(),
        32 * r * n <= old(v)@.len(),
        ctx_wf(*old(ctx)),
        old(s)@.len() == sbox_words(old(ctx).version),
    ensures
        ctx_wf(*final(ctx)),
        final(ctx).version == old(ctx).version,
        final(s)@.len() == old(s)@.len(),
        final(v)@.len() == old(v)@.len(),
        final(x)@.len() == old(x)@.len(),
        (final(x)@.subrange(0, 32 * r as int), final(v)@, final(s)@, *final(ctx)) == smix2_step(
            old(x)@.subrange(0, 32 * r as int),
            old(v)@,
            old(s)@,
            *old(ctx),
            r as nat,
            n,
            nloop,
        ),
        final(x)@.subrange(32 * r as int, old(x)@.len() as int) == old(x)@.subrange(
            32 * r as int,
            old(x)@.len() as int,
        ),
        forall|t: int| 32 * r * n <= t < old(v)@.len() ==> #[trigger] final(v)@[t] == old(v)@[t],
{
    let ghost xf = x@;
    let ghost x0 = xf.subrange(0, 32 * r as int);
    let ghost v0 = v@;
    proof {
        let vl = v.len();
        assert(vl == v0.len());
    }
    let s_words = 32 * r;
    // `n` is a power of two in yespower, so `& (n - 1)` is a cheap modulo.
    let ival = integerify(x, r);
    let j = (ival & (n - 1)) as usize;
    proof {
        assert(ival & ((n - 1) as u32) <= ((n - 1) as u32)) by (bit_vector);
        lemma_block_in_range(j as int, n as int, 32 * r);
        assert(32 * r * n == n * (32 * r)) by (nonlinear_arith);
    }
    blkxor(x, 0, v, j * s_words, s_words);
    let ghost x1 = x@;
    assert(x1.subrange(0, 32 * r as int) =~= seq_xor(x0, v0.subrange(j * (32 * r), j * (32 * r) + 32 * r)));
    assert(x1.subrange(32 * r as int, xf.len() as int) =~= xf.subrange(32 * r as int, xf.len() as int));
    if nloop != 2 {
        blkcpy(v, j * s_words, x, 0, s_words);
    }
    proof {
        lemma_ctx_wf_geometry(*ctx, s@.len());
    }
    blockmix_pwxform(x, 0, s, ctx, r);
    proof {
        let m = blockmix_pwxform_block(x1.subrange(0, 32 * r as int), old(s)@, *old(ctx), r as nat);
        lemma_blockmix_pwxform_len(x1.subrange(0, 32 * r as int), old(s)@, *old(ctx), r as nat);
        assert(x@.subrange(0, 32 * r as int) =~= m.0);
        assert(x@.subrange(32 * r as int, xf.len() as int) =~= xf.subrange(32 * r as int, xf.len() as int));
    }
}

/// Encoding what was decoded gives the first `32 r` words of the block back.
pub proof fn lemma_encode_decode(b: Seq<u32>, r: nat)
    requires
        32 * r <= b.len(),
    ensures
        smix_encode(smix_decode(b, r), r) == b.subrange(0, 32 * r as int),
{
    let d = smix_decode(b, r);
    assert forall|t: int| 0 <= t < 32 * r implies #[trigger] smix_encode(d, r)[t] == b[t] by {
        let k = t / 16;
        let i = t % 16;
        lemma_shuffle_index(unshuffle_index(i), i);
        let u = k * 16 + unshuffle_index(i);
        assert(0 <= u < 32 * r) by (nonlinear_arith)
            requires
                t == k * 16 + i,
                0 <= i < 16,
                0 <= unshuffle_index(i) < 16,
                0 <= t < 32 * r,
                u == k * 16 + unshuffle_index(i),
        ;
        assert(u / 16 == k && u % 16 == unshuffle_index(i)) by (nonlinear_arith)
            requires
                u == k * 16 + unshuffle_index(i),
                0 <= unshuffle_index(i) < 16,
        ;
        assert(shuffle_index(unshuffle_index(i)) == i);
        lemma_le32_roundtrip(b[t]);
    }
    assert(smix_encode(d, r) =~= b.subrange(0, 32 * r as int));
}

/// SMix2: `nloop` random-access passes over `V`. With `nloop == 2` the
/// write-back into `V` is skipped (read-only accesses). Only the
/// first `32 r` words of `b` and `x` and the first `32 r n` words of `v` are
/// used; the rest of each is left as it was. With no iterations `b` is only
/// decoded and encoded back, which leaves it as it was.
pub fn smix2(
    b: &mut [u32],
    r: usize,
    n: u32,
    nloop: u32,
    v: &mut [u32],
    x: &mut [u32],
    s: &mut [u32],
    ctx: &mut PwxformCtx,
)
    requires
        32 * r <= old(b)@.len(),
        32 * r <= old(x)@.len(),
        nloop > 0 ==> {
            &&& r >= 1
            &&& n >= 1
            &&& 128 * r <= usize::MAX
            &&& 32 * r * n <= old(v)@.len()
            &&& ctx_wf(*old(ctx))
            &&& old(s)@.len() == sbox_words(old(ctx).version)
        },
    ensures
        ctx_wf(*old(ctx)) ==> ctx_wf(*final(ctx)),
        final(ctx).version == old(ctx).version,
        final(s)@.len() == old(s)@.len(),
        final(v)@.len() == old(v)@.len(),
        final(x)@.len() == old(x)@.len(),
        ({
            let p = smix2_steps(smix_decode(old(b)@, r as nat), old(v)@, old(s)@, *old(ctx), r as nat, n, nloop, nloop as nat);
            &&& final(b)@ == region_write(old(b)@, 0, smix_encode(p.0, r as nat))
            &&& final(x)@.subrange(0, 32 * r as int) == p.0
            &&& final(v)@ == p.1
            &&& final(s)@ == p.2
            &&& *final(ctx) == p.3
        }),
        final(x)@.subrange(32 * r as int, old(x)@.len() as int) == old(x)@.subrange(
            32 * r as int,
            old(x)@.len() as int,
        ),
        final(b)@.subrange(32 * r as int, old(b)@.len() as int) == old(b)@.subrange(
            32 * r as int,
            old(b)@.len() as int,
        ),
        nloop > 0 ==> final(v)@.subrange(32 * r * n, old(v)@.len() as int) == old(v)@.subrange(
            32 * r * n,
            old(v)@.len() as int,
        ),
        nloop == 0 ==> final(b)@ == old(b)@,
{
    let ghost b0 = b@;
    let ghost v0 = v@;
    let ghost s0 = s@;
    let ghost c0 = *ctx;
    let ghost xf = x@;
    let ghost xl = xf.len();
    let ghost tail = xf.subrange(32 * r as int, xl as int);
    let ghost x0 = smix_decode(b0, r as nat);

    smix_load(b, x, r);
    assert(x@.subrange(0, 32 * r as int) =~= x0);
    assert(x@.subrange(32 * r as int, xl as int) =~= tail);

    for i in 0..nloop
        invariant
            32 * r <= xl,
            x@.len() == xl,
            x@.subrange(32 * r as int, xl as int) == tail,
            nloop > 0 ==> {
                &&& r >= 1
                &&& n >= 1
                &&& 128 * r <= usize::MAX
                &&& 32 * r * n <= v0.len()
                &&& ctx_wf(*ctx)
                &&& s@.len() == sbox_words(c0.version)
            },
            ctx_wf(c0) ==> ctx_wf(*ctx),
            v@.len() == v0.len(),
            s@.len() == s0.len(),
            ctx.version == c0.version,
            ({
                let p = smix2_steps(x0, v0, s0, c0, r as nat, n, nloop, i as nat);
                &&& x@.subrange(0, 32 * r as int) == p.0
                &&& v@ == p.1
                &&& s@ == p.2
                &&& *ctx == p.3
            }),
            nloop > 0 ==> forall|t: int| 32 * r * n <= t < v0.len() ==> #[trigger] v@[t] == v0[t],
    {
        smix2_iter(v, x, s, ctx, r, n, nloop);
    }

    let ghost xe = x@;
    smix_store(x, b, r);
    assert(smix_encode(xe, r as nat) =~= smix_encode(xe.subrange(0, 32 * r as int), r as nat));
    assert(b@.subrange(32 * r as int, b0.len() as int) =~= b0.subrange(32 * r as int, b0.len() as int));
    proof {
        if nloop > 0 {
            assert(v@.subrange(32 * r * n, v0.len() as int) =~= v0.subrange(32 * r * n, v0.len() as int));
        } else {
            lemma_encode_decode(b0, r as nat);
            assert(b@ =~= b0);
        }
    }
}

/// `n / 3` rounded up.
pub open spec fn div_ceil3(n: u32) -> u32 {
    (n / 3 + if n % 3 == 0 {
        0u32
    } else {
        1u32
    }) as u32
}

/// Iteration counts of the two SMix2 passes, `(read-write, read-only)`:
/// both start from `ceil(n / 3)`; the total is rounded up to even, the
/// read-write count rounded down (0.5) or up (1.0) to even.
pub open spec fn smix2_loop_counts(n: u32, version: Version) -> (u32, u32) {
    let c = div_ceil3(n);
    let all = c + c % 2;
    let rw = match version {
        Version::V0_5 => c - c % 2,
        Version::V1_0 => c + c % 2,
    };
    (rw as u32, (all - rw) as u32)
}

/// The first half of SMix on the state `x` (32 r words in Salsa20 order):
/// the S-box initialization on its first 128-byte block, then SMix1 (with
/// the 1.0 warm-up). Returns the state, `V`, the S-boxes and the pwxform
/// state.
pub open spec fn smix_fill_state(x: Seq<u32>, v: Seq<u32>, s: Seq<u32>, ctx: PwxformCtx, r: nat, n: u32) -> (
    Seq<u32>,
    Seq<u32>,
    Seq<u32>,
    PwxformCtx,
) {
    let p0 = smix1_sbox_steps(x.subrange(0, 32), s, ctx.salsa20_rounds, (ctx.sbytes / 128) as nat);
    let x1 = p0.0 + x.subrange(32, 32 * r as int);
    let w = if ctx.version is V1_0 {
        smix1_warmup(x1, p0.1, ctx, (r - 1) as nat)
    } else {
        (x1, p0.1, ctx)
    };
    smix1_steps(w.0, v, w.1, w.2, r, n as nat)
}

/// The whole SMix on the state `x` (32 r words in Salsa20 order): the
/// S-box initialization and SMix1 ([`smix_fill_state`]), then the
/// read-write and the read-only SMix2 passes. Returns the final state, `V`,
/// the S-boxes and the pwxform state.
pub open spec fn smix_state(x: Seq<u32>, v: Seq<u32>, s: Seq<u32>, ctx: PwxformCtx, r: nat, n: u32) -> (
    Seq<u32>,
    Seq<u32>,
    Seq<u32>,
    PwxformCtx,
) {
    let loops = smix2_loop_counts(n, ctx.version);
    let p1 = smix_fill_state(x, v, s, ctx, r, n);
    let p2 = smix2_steps(p1.0, p1.1, p1.2, p1.3, r, n, loops.0, loops.0 as nat);
    smix2_steps(p2.0, p2.1, p2.2, p2.3, r, n, loops.1, loops.1 as nat)
}

/// The lengths of the two SMix2 passes of SMix: with `c = ceil(n / 3)`,
/// the read-write pass runs `c` rounded down to even iterations in 0.5 and
/// `c` rounded up to even in 1.0, and the two passes together run `c`
/// rounded up to even; so the second, read-only pass has 2 iterations in 0.5
/// when `c` is odd and none otherwise (`n = 1024`: 342 and 0; `n = 2048`:
/// 682 and 2; `n = 4096`: 1366 and 0).
pub proof fn lemma_smix_pass_lengths(x: Seq<u32>, v: Seq<u32>, s: Seq<u32>, ctx: PwxformCtx, r: nat, n: u32)
    ensures
        ({
            let c = (n + 2) / 3;
            let all = (c + 1) / 2 * 2;
            let rw = if ctx.version is V0_5 {
                c / 2 * 2
            } else {
                all
            };
            let p1 = smix_fill_state(x, v, s, ctx, r, n);
            let p2 = smix2_steps(p1.0, p1.1, p1.2, p1.3, r, n, rw as u32, rw as nat);
            smix_state(x, v, s, ctx, r, n) == smix2_steps(
                p2.0,
                p2.1,
                p2.2,
                p2.3,
                r,
                n,
                (all - rw) as u32,
                (all - rw) as nat,
            )
        }),
{
    let c = (n + 2) / 3;
    assert(div_ceil3(n) == c);
}

/// Decoding a block whose first 128-byte sub-block was just stored from
/// `y` gives `y`, followed by the rest of the decoded block.
proof fn lemma_decode_first_block(b: Seq<u32>, y: Seq<u32>, r: nat)
    requires
        r >= 1,
        b.len() >= 32 * r,
        y.len() == 32,
    ensures
        smix_decode(region_write(b, 0, smix_encode(y, 1)), r) == y + smix_decode(b, r).subrange(
            32,
            32 * r as int,
        ),
{
    let b1 = region_write(b, 0, smix_encode(y, 1));
    let lhs = smix_decode(b1, r);
    let rhs = y + smix_decode(b, r).subrange(32, 32 * r as int);
    assert forall|t: int| 0 <= t < 32 * r implies #[trigger] lhs[t] == rhs[t] by {
        let k = t / 16;
        let i = t % 16;
        lemma_shuffle_index(i, shuffle_index(i));
        let u = k * 16 + shuffle_index(i);
        assert(0 <= u < 32 * r && (t < 32 <==> u < 32)) by (nonlinear_arith)
            requires
                t == k * 16 + i,
                0 <= i < 16,
                0 <= shuffle_index(i) < 16,
                0 <= t < 32 * r,
                u == k * 16 + shuffle_index(i),
        ;
        if t < 32 {
            assert(u / 16 == k && u % 16 == shuffle_index(i)) by (nonlinear_arith)
                requires
                    u == k * 16 + shuffle_index(i),
                    0 <= shuffle_index(i) < 16,
            ;
            lemma_le32_roundtrip(y[t]);
        }
    }
    assert(lhs =~= rhs);
}

/// Decoding reads only the first `32 r` words: a block whose first `32 r`
/// words were just stored from `y` decodes to `y`.
proof fn lemma_decode_stored(b: Seq<u32>, y: Seq<u32>, r: nat)
    requires
        b.len() >= 32 * r,
        y.len() == 32 * r,
    ensures
        smix_decode(region_write(b, 0, smix_encode(y, r)), r) == y,
{
    lemma_decode_encode(y, r);
    let b1 = region_write(b, 0, smix_encode(y, r));
    assert forall|t: int| 0 <= t < 32 * r implies #[trigger] smix_decode(b1, r)[t] == smix_decode(
        smix_encode(y, r),
        r,
    )[t] by {
        let i = t % 16;
        lemma_shuffle_index(i, 0);
        let u = (t / 16) * 16 + shuffle_index(i);
        assert(0 <= u < 32 * r) by (nonlinear_arith)
            requires
                t == (t / 16) * 16 + i,
                0 <= i < 16,
                0 <= shuffle_index(i) < 16,
                0 <= t < 32 * r,
                u == (t / 16) * 16 + shuffle_index(i),
        ;
    }
    assert(smix_decode(b1, r) =~= smix_decode(smix_encode(y, r), r));
}

/// The SMix steps keep the length of the state (and of `V`).
proof fn lemma_smix_lengths(x: Seq<u32>, v: Seq<u32>, s: Seq<u32>, ctx: PwxformCtx, r: nat, n: u32, i: nat)
    requires
        x.len() == 32 * r,
    ensures
        smix1_steps(x, v, s, ctx, r, i).0.len() == 32 * r,
        smix1_warmup(x, s, ctx, i).0.len() == 32 * r,
        forall|nloop: u32| #[trigger] smix2_steps(x, v, s, ctx, r, n, nloop, i).0.len() == 32 * r,
    decreases i,
{
    if i > 0 {
        lemma_smix_lengths(x, v, s, ctx, r, n, (i - 1) as nat);
        let p = smix1_steps(x, v, s, ctx, r, (i - 1) as nat);
        let k = i - 1;
        let v1 = region_write(p.1, k * (32 * r), p.0);
        lemma_blockmix_pwxform_len(
            if k > 1 {
                let j = wrap_index(p.0[(2 * r - 1) * 16] as nat, k as nat) as int;
                seq_xor(p.0, v1.subrange(j * (32 * r), j * (32 * r) + 32 * r))
            } else {
                p.0
            },
            p.2,
            p.3,
            r,
        );
        assert forall|nloop: u32| #[trigger] smix2_steps(x, v, s, ctx, r, n, nloop, i).0.len() == 32
            * r by {
            let q = smix2_steps(x, v, s, ctx, r, n, nloop, (i - 1) as nat);
            let j = (q.0[(2 * r - 1) * 16] & ((n - 1) as u32)) as int;
            lemma_blockmix_pwxform_len(
                seq_xor(q.0, q.1.subrange(j * (32 * r), j * (32 * r) + 32 * r)),
                q.2,
                q.3,
                r,
            );
        }
    }
}

/// The first half of SMix keeps the length of the state.
proof fn lemma_smix_fill_len(x: Seq<u32>, v: Seq<u32>, s: Seq<u32>, ctx: PwxformCtx, r: nat, n: u32)
    requires
        r >= 1,
        x.len() == 32 * r,
    ensures
        smix_fill_state(x, v, s, ctx, r, n).0.len() == 32 * r,
{
    let p0 = smix1_sbox_steps(x.subrange(0, 32), s, ctx.salsa20_rounds, (ctx.sbytes / 128) as nat);
    lemma_sbox_len(x.subrange(0, 32), s, ctx.salsa20_rounds, (ctx.sbytes / 128) as nat);
    let x1 = p0.0 + x.subrange(32, 32 * r as int);
    let w = if ctx.version is V1_0 {
        smix1_warmup(x1, p0.1, ctx, (r - 1) as nat)
    } else {
        (x1, p0.1, ctx)
    };
    lemma_smix_lengths(x1, v, p0.1, ctx, r, n, (r - 1) as nat);
    lemma_smix_lengths(w.0, v, w.1, w.2, r, n, n as nat);
}

/// SMix keeps the length of the state.
pub proof fn lemma_smix_state_len(x: Seq<u32>, v: Seq<u32>, s: Seq<u32>, ctx: PwxformCtx, r: nat, n: u32)
    requires
        r >= 1,
        x.len() == 32 * r,
    ensures
        smix_state(x, v, s, ctx, r, n).0.len() == 32 * r,
{
    let loops = smix2_loop_counts(n, ctx.version);
    lemma_smix_fill_len(x, v, s, ctx, r, n);
    let p1 = smix_fill_state(x, v, s, ctx, r, n);
    lemma_smix_lengths(p1.0, p1.1, p1.2, p1.3, r, n, loops.0 as nat);
    let p2 = smix2_steps(p1.0, p1.1, p1.2, p1.3, r, n, loops.0, loops.0 as nat);
    lemma_smix_lengths(p2.0, p2.1, p2.2, p2.3, r, n, loops.1 as nat);
}

/// The S-box initialization keeps the 32-word state a 32-word state.
proof fn lemma_sbox_len(x: Seq<u32>, s: Seq<u32>, rounds: u32, i: nat)
    requires
        x.len() == 32,
    ensures
        smix1_sbox_steps(x, s, rounds, i).0.len() == 32,
    decreases i,
{
    if i > 0 {
        lemma_sbox_len(x, s, rounds, (i - 1) as nat);
    }
}

/// Writing a prefix over a shorter prefix hides the shorter one.
proof fn lemma_region_write_prefix(b: Seq<u32>, e1: Seq<u32>, e2: Seq<u32>)
    requires
        e1.len() <= e2.len(),
    ensures
        region_write(region_write(b, 0, e1), 0, e2) == region_write(b, 0, e2),
{
    assert(region_write(region_write(b, 0, e1), 0, e2) =~= region_write(b, 0, e2));
}

/// The first half of SMix on the block `b`: the S-box initialization
/// (`smix1_sbox`), then SMix1 filling `V` (`smix1`). Only the first `32 r`
/// words of `b` and `x` and the first `32 r n` words of `v` are used; the
/// rest of each is left as it was.
#[verifier::rlimit(100)]
fn smix_fill(b: &mut [u32], r: usize, n: u32, v: &mut [u32], x: &mut [u32], s: &mut [u32], ctx: &mut PwxformCtx)
    requires
        r >= 1,
        128 * r <= usize::MAX,
        32 * r <= old(b)@.len(),
        32 * r <= old(x)@.len(),
        32 * r * n <= old(v)@.len(),
        ctx_wf(*old(ctx)),
        old(s)@.len() == sbox_words(old(ctx).version),
    ensures
        ({
            let p = smix_fill_state(smix_decode(old(b)@, r as nat), old(v)@, old(s)@, *old(ctx), r as nat, n);
            &&& final(b)@ == region_write(old(b)@, 0, smix_encode(p.0, r as nat))
            &&& final(v)@ == p.1
            &&& final(s)@ == p.2
            &&& *final(ctx) == p.3
        }),
        ctx_wf(*final(ctx)),
        final(ctx).version == old(ctx).version,
        final(x)@.len() == old(x)@.len(),
        final(v)@.len() == old(v)@.len(),
        final(s)@.len() == old(s)@.len(),
        final(x)@.subrange(32 * r as int, old(x)@.len() as int) == old(x)@.subrange(
            32 * r as int,
            old(x)@.len() as int,
        ),
        final(v)@.subrange(32 * r * n, old(v)@.len() as int) == old(v)@.subrange(
            32 * r * n,
            old(v)@.len() as int,
        ),
{
    let ghost b0 = b@;
    let ghost v0 = v@;
    let ghost s0 = s@;
    let ghost c0 = *ctx;
    let ghost xo = x@;
    let ghost x0 = smix_decode(b0, r as nat);

    // First loop uses S as V (S-box init via Salsa20).
    let nsb = (ctx.sbytes / 128) as u32;
    smix1_sbox(b, nsb, s, x, ctx);
    let ghost p0 = smix1_sbox_steps(x0.subrange(0, 32), s0, c0.salsa20_rounds, nsb as nat);
    let ghost x1 = p0.0 + x0.subrange(32, 32 * r as int);
    assert(smix_decode(b0, 1) =~= x0.subrange(0, 32));
    assert(smix_decode(b@, r as nat) == x1) by {
        lemma_sbox_len(x0.subrange(0, 32), s0, c0.salsa20_rounds, nsb as nat);
        lemma_decode_first_block(b0, p0.0, r as nat);
    }
    assert(x@.subrange(32 * r as int, xo.len() as int) =~= xo.subrange(32 * r as int, xo.len() as int));
    let ghost b1 = b@;
    smix1(b, r, n, v, x, s, ctx);
    proof {
        let f = smix_fill_state(x0, v0, s0, c0, r as nat, n);
        let q = smix1_block(b1, v0, p0.1, c0, r as nat, n as nat);
        assert(q.0 == smix_encode(f.0, r as nat) && q.1 == f.1 && q.2 == f.2 && q.3 == f.3);
        lemma_region_write_prefix(b0, smix_encode(p0.0, 1), q.0);
    }
}

/// Full SMix of yespower on the block `b`:
///
/// 1. `smix1_sbox` initializes the S-boxes using Salsa20 BlockMix,
/// 2. `smix1` fills `V`,
/// 3. `smix2` runs the read-write, then the read-only random walk over `V`.
///
/// Only the first `32 r` words of `b` and `x` and the first `32 r n` words
/// of `v` are used; the rest of each is left as it was.
#[verifier::rlimit(100)]
pub fn smix(b: &mut [u32], r: usize, n: u32, v: &mut [u32], x: &mut [u32], s: &mut [u32], ctx: &mut PwxformCtx)
    requires
        r >= 1,
        128 * r <= usize::MAX,
        32 * r <= old(b)@.len(),
        32 * r <= old(x)@.len(),
        32 * r * n <= old(v)@.len(),
        ctx_wf(*old(ctx)),
        old(s)@.len() == sbox_words(old(ctx).version),
    ensures
        ({
            let p = smix_state(smix_decode(old(b)@, r as nat), old(v)@, old(s)@, *old(ctx), r as nat, n);
            &&& final(b)@ == region_write(old(b)@, 0, smix_encode(p.0, r as nat))
            &&& final(x)@.subrange(0, 32 * r as int) == p.0
            &&& final(v)@ == p.1
            &&& final(s)@ == p.2
            &&& *final(ctx) == p.3
        }),
        ctx_wf(*final(ctx)),
        final(ctx).version == old(ctx).version,
        final(x)@.len() == old(x)@.len(),
        final(v)@.len() == old(v)@.len(),
        final(s)@.len() == old(s)@.len(),
        final(x)@.subrange(32 * r as int, old(x)@.len() as int) == old(x)@.subrange(
            32 * r as int,
            old(x)@.len() as int,
        ),
        final(b)@.subrange(32 * r as int, old(b)@.len() as int) == old(b)@.subrange(
            32 * r as int,
            old(b)@.len() as int,
        ),
        final(v)@.subrange(32 * r * n, old(v)@.len() as int) == old(v)@.subrange(
            32 * r * n,
            old(v)@.len() as int,
        ),
{
    let ghost b0 = b@;
    let ghost v0 = v@;
    let ghost xo = x@;
    let ghost x0 = smix_decode(b0, r as nat);
    let ghost loops = smix2_loop_counts(n, ctx.version);

    // Loop counts: ceil(n / 3), rounded to even as each version asks.
    let mut nloop_all = n / 3 + if n % 3 != 0 {
        1
    } else {
        0
    };
    let mut nloop_rw = nloop_all;
    let ghost c = nloop_all;
    assert(c == div_ceil3(n));

    nloop_all += 1;
    nloop_all &= !1u32;  // force even
    assert((((c + 1) as u32) & !1u32) == c + c % 2) by (bit_vector)
        requires
            c < 0xffff_fff0u32,
    ;
    if ctx.version == Version::V0_5 {
        nloop_rw &= !1u32;
        assert((c & !1u32) == c - c % 2) by (bit_vector);
    } else {
        nloop_rw += 1;
        nloop_rw &= !1u32;
    }
    assert(nloop_rw == loops.0);
    assert(nloop_all - nloop_rw == loops.1);

    smix_fill(b, r, n, v, x, s, ctx);
    let ghost b2 = b@;
    let ghost p1 = smix_fill_state(x0, v0, old(s)@, *old(ctx), r as nat, n);
    assert(smix_decode(b2, r as nat) == p1.0) by {
        lemma_smix_fill_len(x0, v0, old(s)@, *old(ctx), r as nat, n);
        lemma_decode_stored(b0, p1.0, r as nat);
    }
    smix2(b, r, n, nloop_rw, v, x, s, ctx);
    let ghost b3 = b@;
    let ghost p2 = smix2_steps(p1.0, p1.1, p1.2, p1.3, r as nat, n, loops.0, loops.0 as nat);
    assert(smix_decode(b3, r as nat) == p2.0) by {
        lemma_smix_fill_len(x0, v0, old(s)@, *old(ctx), r as nat, n);
        lemma_smix_lengths(p1.0, p1.1, p1.2, p1.3, r as nat, n, loops.0 as nat);
        lemma_decode_stored(b2, p2.0, r as nat);
    }
    smix2(b, r, n, nloop_all - nloop_rw, v, x, s, ctx);
    proof {
        let p3 = smix2_steps(p2.0, p2.1, p2.2, p2.3, r as nat, n, loops.1, loops.1 as nat);
        lemma_smix_fill_len(x0, v0, old(s)@, *old(ctx), r as nat, n);
        lemma_smix_lengths(p1.0, p1.1, p1.2, p1.3, r as nat, n, loops.0 as nat);
        lemma_smix_lengths(p2.0, p2.1, p2.2, p2.3, r as nat, n, loops.1 as nat);
        lemma_region_write_prefix(b0, smix_encode(p1.0, r as nat), smix_encode(p2.0, r as nat));
        lemma_region_write_prefix(b0, smix_encode(p2.0, r as nat), smix_encode(p3.0, r as nat));
        assert(b@.subrange(32 * r as int, b0.len() as int) =~= b0.subrange(32 * r as int, b0.len() as int));
    }
}

} // verus!
