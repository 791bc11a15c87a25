//! Whole-block copy and XOR on word buffers (scrypt's `blkcpy` / `blkxor`),
//! addressed by offset since the blocks live inside larger buffers.

use vstd::prelude::*;

verus! {

/// `dst` with the words from `off` on replaced by `src`.
pub open spec fn region_write(dst: Seq<u32>, off: int, src: Seq<u32>) -> Seq<u32> {
    Seq::new(dst.len(), |k: int| if off <= k < off + src.len() { src[k - off] } else { dst[k] })
}

/// The word-wise XOR of two equally long word sequences.
pub open spec fn seq_xor(a: Seq<u32>, b: Seq<u32>) -> Seq<u32> {
    Seq::new(a.len(), |i: int| a[i] ^ b[i])
}

/// Copy `len` words from `src[soff..]` to `dst[doff..]`.
pub fn blkcpy(dst: &mut [u32], doff: usize, src: &[u32], soff: usize, len: usize)
    requires
        doff + len <= old(dst)@.len(),
        soff + len <= src@.len(),
    ensures
        final(dst)@ == region_write(old(dst)@, doff as int, src@.subrange(soff as int, soff + len)),
{
    let ghost d0 = dst@;
    let mut i: usize = 0;
    while i < len
        invariant
            i <= len,
            doff + len <= d0.len(),
            soff + len <= src@.len(),
            dst@.len() == d0.len(),
            dst@.len() == dst.len(),
            src@.len() == src.len(),
            forall|k: int|
                0 <= k < d0.len() ==> #[trigger] dst@[k] == if doff <= k < doff + i {
                    src@[soff + k - doff]
                } else {
                    d0[k]
                },
        decreases len - i,
    {
        dst[doff + i] = src[soff + i];
        i += 1;
    }
    assert(dst@ =~= region_write(d0, doff as int, src@.subrange(soff as int, soff + len)));
}

/// XOR `len` words of `src[soff..]` into `dst[doff..]`.
pub fn blkxor(dst: &mut [u32], doff: usize, src: &[u32], soff: usize, len: usize)
    requires
        doff + len <= old(dst)@.len(),
        soff + len <= src@.len(),
    ensures
        final(dst)@ == region_write(
            old(dst)@,
            doff as int,
            seq_xor(old(dst)@.subrange(doff as int, doff + len), src@.subrange(soff as int, soff + len)),
        ),
{
    let ghost d0 = dst@;
    let mut i: usize = 0;
    while i < len
        invariant
            i <= len,
            doff + len <= d0.len(),
            soff + len <= src@.len(),
            dst@.len() == d0.len(),
            dst@.len() == dst.len(),
            src@.len() == src.len(),
            forall|k: int|
                0 <= k < d0.len() ==> #[trigger] dst@[k] == if doff <= k < doff + i {
                    d0[k] ^ src@[soff + k - doff]
                } else {
                    d0[k]
                },
        decreases len - i,
    {
        dst[doff + i] = dst[doff + i] ^ src[soff + i];
        i += 1;
    }
    assert(dst@ =~= region_write(
        d0,
        doff as int,
        seq_xor(d0.subrange(doff as int, doff + len), src@.subrange(soff as int, soff + len)),
    ));
}

} // verus!
