//! The Salsa20 core on blocks stored in SIMD-shuffled word order, and the
//! plain Salsa20 BlockMix used while the S-boxes are initialized.

use crate::yespower::block::{blkcpy, blkxor, region_write, seq_xor};
use vstd::prelude::*;

verus! {

/// `a` rotated left by `k` bits, `0 < k < 32`.
pub open spec fn rotl(a: u32, k: u32) -> u32 {
    (a << k) | (a >> ((32 - k) as u32))
}

/// One quarter-round update: `x[a] ^= rotl(x[b] + x[c], k)`.
pub open spec fn salsa_step(x: Seq<u32>, a: int, b: int, c: int, k: u32) -> Seq<u32> {
    x.update(a, x[a] ^ rotl(x[b].wrapping_add(x[c]), k))
}

/// One Salsa20 double round (a column round, then a row round).
pub open spec fn double_round(x: Seq<u32>) -> Seq<u32> {
    // column rounds
    let x = salsa_step(x, 4, 0, 12, 7);
    let x = salsa_step(x, 8, 4, 0, 9);
    let x = salsa_step(x, 12, 8, 4, 13);
    let x = salsa_step(x, 0, 12, 8, 18);
    let x = salsa_step(x, 9, 5, 1, 7);
    let x = salsa_step(x, 13, 9, 5, 9);
    let x = salsa_step(x, 1, 13, 9, 13);
    let x = salsa_step(x, 5, 1, 13, 18);
    let x = salsa_step(x, 14, 10, 6, 7);
    let x = salsa_step(x, 2, 14, 10, 9);
    let x = salsa_step(x, 6, 2, 14, 13);
    let x = salsa_step(x, 10, 6, 2, 18);
    let x = salsa_step(x, 3, 15, 11, 7);
    let x = salsa_step(x, 7, 3, 15, 9);
    let x = salsa_step(x, 11, 7, 3, 13);
    let x = salsa_step(x, 15, 11, 7, 18);
    // row rounds
    let x = salsa_step(x, 1, 0, 3, 7);
    let x = salsa_step(x, 2, 1, 0, 9);
    let x = salsa_step(x, 3, 2, 1, 13);
    let x = salsa_step(x, 0, 3, 2, 18);
    let x = salsa_step(x, 6, 5, 4, 7);
    let x = salsa_step(x, 7, 6, 5, 9);
    let x = salsa_step(x, 4, 7, 6, 13);
    let x = salsa_step(x, 5, 4, 7, 18);
    let x = salsa_step(x, 11, 10, 9, 7);
    let x = salsa_step(x, 8, 11, 10, 9);
    let x = salsa_step(x, 9, 8, 11, 13);
    let x = salsa_step(x, 10, 9, 8, 18);
    let x = salsa_step(x, 12, 15, 14, 7);
    let x = salsa_step(x, 13, 12, 15, 9);
    let x = salsa_step(x, 14, 13, 12, 13);
    salsa_step(x, 15, 14, 13, 18)
}

/// `count` double rounds applied to `x`.
pub open spec fn double_rounds(x: Seq<u32>, count: nat) -> Seq<u32>
    decreases count,
{
    if count == 0 {
        x
    } else {
        double_round(double_rounds(x, (count - 1) as nat))
    }
}

/// The Salsa20 core with `rounds` rounds (rounded up to an even count) on
/// 16 words stored in SIMD order: word `i` of the block is word `5 i mod 16`
/// of the Salsa20 state; the result is the mixed state added word-wise to
/// the input (feed-forward).
pub open spec fn salsa20_block(b: Seq<u32>, rounds: u32) -> Seq<u32> {
    let x = Seq::new(16, |j: int| b[unshuffle_index(j)]);
    let y = double_rounds(x, ((rounds as nat + 1) / 2) as nat);
    Seq::new(16, |i: int| b[i].wrapping_add(y[shuffle_index(i)]))
}

/// `a` rotated left by `k` bits.
fn rotl_word(a: u32, k: u32) -> (r: u32)
    requires
        0 < k < 32,
    ensures
        r == rotl(a, k),
{
    (a << k) | (a >> (32 - k))
}

/// `x[a] ^= rotl(x[b] + x[c], k)` in place.
fn quarter_step(x: &mut [u32; 16], a: usize, b: usize, c: usize, k: u32)
    requires
        a < 16,
        b < 16,
        c < 16,
        0 < k < 32,
    ensures
        final(x)@ == salsa_step(old(x)@, a as int, b as int, c as int, k),
{
    x[a] ^= rotl_word(x[b].wrapping_add(x[c]), k);
}

/// One double round in place.
fn double_round_in_place(x: &mut [u32; 16])
    ensures
        final(x)@ == double_round(old(x)@),
{
    // column rounds
    quarter_step(x, 4, 0, 12, 7);
    quarter_step(x, 8, 4, 0, 9);
    quarter_step(x, 12, 8, 4, 13);
    quarter_step(x, 0, 12, 8, 18);
    quarter_step(x, 9, 5, 1, 7);
    quarter_step(x, 13, 9, 5, 9);
    quarter_step(x, 1, 13, 9, 13);
    quarter_step(x, 5, 1, 13, 18);
    quarter_step(x, 14, 10, 6, 7);
    quarter_step(x, 2, 14, 10, 9);
    quarter_step(x, 6, 2, 14, 13);
    quarter_step(x, 10, 6, 2, 18);
    quarter_step(x, 3, 15, 11, 7);
    quarter_step(x, 7, 3, 15, 9);
    quarter_step(x, 11, 7, 3, 13);
    quarter_step(x, 15, 11, 7, 18);
    // row rounds
    quarter_step(x, 1, 0, 3, 7);
    quarter_step(x, 2, 1, 0, 9);
    quarter_step(x, 3, 2, 1, 13);
    quarter_step(x, 0, 3, 2, 18);
    quarter_step(x, 6, 5, 4, 7);
    quarter_step(x, 7, 6, 5, 9);
    quarter_step(x, 4, 7, 6, 13);
    quarter_step(x, 5, 4, 7, 18);
    quarter_step(x, 11, 10, 9, 7);
    quarter_step(x, 8, 11, 10, 9);
    quarter_step(x, 9, 8, 11, 13);
    quarter_step(x, 10, 9, 8, 18);
    quarter_step(x, 12, 15, 14, 7);
    quarter_step(x, 13, 12, 15, 9);
    quarter_step(x, 14, 13, 12, 13);
    quarter_step(x, 15, 14, 13, 18);
}

/// Where word `i` of a block sits in the Salsa20 state.
pub open spec fn shuffle_index(i: int) -> int {
    (i * 5) % 16
}

/// Which word of a block holds word `j` of the Salsa20 state.
pub open spec fn unshuffle_index(j: int) -> int {
    (j * 13) % 16
}

/// The two index maps are inverse permutations of `0..16`.
pub proof fn lemma_shuffle_index(i: int, j: int)
    requires
        0 <= i < 16,
        0 <= j < 16,
    ensures
        0 <= shuffle_index(i) < 16,
        0 <= unshuffle_index(j) < 16,
        (unshuffle_index(j) == i) == (j == shuffle_index(i)),
{
    let (u, v) = (i as u32, j as u32);
    assert(u < 16 && v < 16 ==> ((((v * 13) % 16) == u) == (v == (u * 5) % 16))) by (bit_vector);
    assert(shuffle_index(i) == ((u * 5) % 16) as int);
    assert(unshuffle_index(j) == ((v * 13) % 16) as int);
}

/// Salsa20 core on the first 16 words of `b` (a 64-byte block), with
/// `rounds` rounds; the rest of `b` is left as it was.
///
/// The `5 i mod 16` permutation undoes the SIMD word order in which blocks are stored
/// before the rounds and restores it afterwards. Each loop pass is one
/// double round, so an odd `rounds` acts as the next even count.
pub fn salsa20(b: &mut [u32], rounds: u32)
    requires
        old(b)@.len() >= 16,
        rounds < u32::MAX,
    ensures
        final(b)@.len() == old(b)@.len(),
        final(b)@.subrange(0, 16) == salsa20_block(old(b)@.subrange(0, 16), rounds),
        final(b)@.subrange(16, old(b)@.len() as int) == old(b)@.subrange(16, old(b)@.len() as int),
{
    let ghost b0 = b@;
    let mut x = [0u32; 16];

    // SIMD unshuffle into scalar column/row order
    for i in 0..16
        invariant
            b@ == b0,
            b0.len() >= 16,
            forall|j: int|
                0 <= j < 16 ==> #[trigger] x@[j] == if unshuffle_index(j) < i {
                    b0[unshuffle_index(j)]
                } else {
                    0
                },
    {
        proof {
            assert forall|j: int| 0 <= j < 16 implies (unshuffle_index(j) == i) == (j
                == shuffle_index(i as int)) && 0 <= unshuffle_index(j) < 16 by {
                lemma_shuffle_index(i as int, j);
            }
            lemma_shuffle_index(i as int, 0);
        }
        x[i * 5 % 16] = b[i];
    }
    let ghost x0 = x@;
    assert(x0 =~= Seq::new(16, |j: int| b0.subrange(0, 16)[unshuffle_index(j)]));

    // Each pass is one column round and one row round (two of `rounds`).
    let mut i: u32 = 0;
    while i < rounds
        invariant
            rounds < u32::MAX,
            i % 2 == 0,
            i <= rounds + 1,
            x@ == double_rounds(x0, (i / 2) as nat),
            b@ == b0,
        decreases rounds + 1 - i,
    {
        double_round_in_place(&mut x);
        i += 2;
    }
    assert(i / 2 == (rounds as nat + 1) / 2);
    let ghost y = x@;

    // SIMD shuffle back, adding the input block (feed-forward)
    for i in 0..16
        invariant
            b0.len() >= 16,
            b@.len() == b0.len(),
            y == x@,
            y.len() == 16,
            forall|k: int| 0 <= k < i ==> #[trigger] b@[k] == b0[k].wrapping_add(y[shuffle_index(k)]),
            forall|k: int| i <= k < b0.len() ==> #[trigger] b@[k] == b0[k],
    {
        proof {
            lemma_shuffle_index(i as int, 0);
        }
        b[i] = b[i].wrapping_add(x[i * 5 % 16]);
    }
    assert(b@.subrange(0, 16) =~= salsa20_block(b0.subrange(0, 16), rounds));
    assert(b@.subrange(16, b0.len() as int) =~= b0.subrange(16, b0.len() as int));
}

/// With no rounds the core only unshuffles, shuffles back and adds, so each
/// word of the block is doubled.
pub proof fn lemma_salsa20_zero_rounds(b: Seq<u32>)
    requires
        b.len() == 16,
    ensures
        salsa20_block(b, 0) == Seq::new(16, |i: int| b[i].wrapping_add(b[i])),
{
    assert forall|i: int| 0 <= i < 16 implies #[trigger] salsa20_block(b, 0)[i] == b[i].wrapping_add(b[i]) by {
        lemma_shuffle_index(i, shuffle_index(i));
    }
    assert(salsa20_block(b, 0) =~= Seq::new(16, |i: int| b[i].wrapping_add(b[i])));
}

/// The rounds run in pairs (a double round per pass), so an odd count acts
/// as the next even count.
pub proof fn lemma_salsa20_odd_rounds(b: Seq<u32>, k: u32)
    requires
        k < 0x7fff_ffff,
    ensures
        salsa20_block(b, (2 * k + 1) as u32) == salsa20_block(b, (2 * k + 2) as u32),
{
    assert(((2 * k + 1) as nat + 1) / 2 == ((2 * k + 2) as nat + 1) / 2);
}

/// BlockMix with plain Salsa20 over one 128-byte block (two 64-byte halves).
pub open spec fn blockmix_salsa_block(b: Seq<u32>, rounds: u32) -> Seq<u32> {
    let y0 = salsa20_block(seq_xor(b.subrange(16, 32), b.subrange(0, 16)), rounds);
    let y1 = salsa20_block(seq_xor(y0, b.subrange(16, 32)), rounds);
    y0 + y1
}

/// BlockMix with plain Salsa20 on the first 32 words of `b`, used only while
/// the S-boxes are initialized; the rest of `b` is left as it was.
pub fn blockmix_salsa(b: &mut [u32], rounds: u32)
    requires
        old(b)@.len() >= 32,
        rounds < u32::MAX,
    ensures
        final(b)@ == blockmix_salsa_block(old(b)@.subrange(0, 32), rounds) + old(b)@.subrange(
            32,
            old(b)@.len() as int,
        ),
{
    let ghost b0 = b@;
    let ghost blk = b0.subrange(0, 32);
    let ghost y0 = salsa20_block(seq_xor(blk.subrange(16, 32), blk.subrange(0, 16)), rounds);
    let ghost y1 = salsa20_block(seq_xor(y0, blk.subrange(16, 32)), rounds);
    let mut x = [0u32; 16];
    blkcpy(&mut x, 0, b, 16, 16);
    assert(x@ =~= blk.subrange(16, 32));

    for i in 0usize..2
        invariant
            b0.len() >= 32,
            rounds < u32::MAX,
            blk == b0.subrange(0, 32),
            y0 == salsa20_block(seq_xor(blk.subrange(16, 32), blk.subrange(0, 16)), rounds),
            y1 == salsa20_block(seq_xor(y0, blk.subrange(16, 32)), rounds),
            x@ == if i == 0 {
                blk.subrange(16, 32)
            } else if i == 1 {
                y0
            } else {
                y1
            },
            b@ == if i == 0 {
                b0
            } else if i == 1 {
                region_write(b0, 0, y0)
            } else {
                region_write(region_write(b0, 0, y0), 16, y1)
            },
    {
        let ghost xb = x@;
        let ghost bb = b@;
        assert(bb.subrange(i * 16, i * 16 + 16) =~= blk.subrange(i * 16, i * 16 + 16 as int));
        blkxor(&mut x, 0, b, i * 16, 16);
        let ghost xpre = seq_xor(xb, blk.subrange(i * 16, i * 16 + 16 as int));
        assert(x@ =~= xpre);
        assert(xpre.subrange(0, 16) =~= xpre);
        salsa20(&mut x, rounds);
        assert(x@ =~= x@.subrange(0, 16));
        assert(x@ == salsa20_block(xpre, rounds));
        blkcpy(b, i * 16, &x, 0, 16);
        assert(x@.subrange(0, 16) =~= x@);
        proof {
            if i == 0 {
                assert(b@ =~= region_write(b0, 0, y0));
            } else {
                assert(b@ =~= region_write(region_write(b0, 0, y0), 16, y1));
            }
        }
    }
    assert(b@ =~= blockmix_salsa_block(blk, rounds) + b0.subrange(32, b0.len() as int));
}

} // verus!
