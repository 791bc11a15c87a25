//! Data-dependent indexing: `integerify`, `p2floor` and `wrap`, with the
//! powers of two they rest on.

use vstd::arithmetic::power2::{lemma_pow2_pos, lemma_pow2_strictly_increases, lemma_pow2_unfold, pow2};
use vstd::prelude::*;

verus! {

/// `n` is a power of two.
pub open spec fn is_power_of_two(n: nat) -> bool {
    exists|k: nat| n == pow2(k)
}

/// The largest power of two not above `x`; 0 for 0.
pub open spec fn pow2_floor(x: nat) -> nat
    decreases x,
{
    if x < 2 {
        x
    } else {
        2 * pow2_floor(x / 2)
    }
}

/// Where `wrap` sends `x` for a bound `i > 0`: the low bits of `x` below
/// `p = pow2_floor(i)`, shifted up into `[i - p, i)`.
pub open spec fn wrap_index(x: nat, i: nat) -> nat {
    (x % pow2_floor(i) + (i - pow2_floor(i))) as nat
}

/// `pow2_floor(x)` is a power of two with `p <= x < 2 p`.
pub proof fn lemma_pow2_floor(x: nat)
    requires
        x >= 1,
    ensures
        is_power_of_two(pow2_floor(x)),
        pow2_floor(x) <= x < 2 * pow2_floor(x),
    decreases x,
{
    if x < 2 {
        assert(pow2(0) == 1) by {
            lemma_pow2_unfold(1);
            lemma_pow2_pos(0);
            vstd::arithmetic::power2::lemma2_to64();
        }
        assert(pow2_floor(x) == pow2(0));
    } else {
        lemma_pow2_floor(x / 2);
        let k = choose|k: nat| pow2_floor(x / 2) == pow2(k);
        lemma_pow2_unfold(k + 1);
        assert(pow2_floor(x) == pow2(k + 1));
    }
}

/// Between `x / 2` (exclusive) and `x` there is only one power of two.
pub proof fn lemma_pow2_between_unique(x: nat, p: nat, q: nat)
    requires
        is_power_of_two(p),
        is_power_of_two(q),
        p <= x < 2 * p,
        q <= x < 2 * q,
    ensures
        p == q,
{
    let a = choose|k: nat| p == pow2(k);
    let b = choose|k: nat| q == pow2(k);
    if a < b {
        lemma_pow2_unfold(a + 1);
        if a + 1 < b {
            lemma_pow2_strictly_increases(a + 1, b);
        }
    } else if b < a {
        lemma_pow2_unfold(b + 1);
        if b + 1 < a {
            lemma_pow2_strictly_increases(b + 1, a);
        }
    }
}

/// A nonzero word with a single set bit is a power of two.
pub proof fn lemma_single_bit_is_pow2(y: u32)
    requires
        y != 0,
        y & ((y - 1) as u32) == 0,
    ensures
        is_power_of_two(y as nat),
    decreases y,
{
    if y == 1 {
        vstd::arithmetic::power2::lemma2_to64();
        assert(y as nat == pow2(0));
    } else {
        let h = y >> 1u32;
        assert(y != 0 && y != 1 && y & ((y - 1) as u32) == 0 ==> (y >> 1u32) != 0 && (y >> 1u32) & (
        ((y >> 1u32) - 1) as u32) == 0 && y == 2 * (y >> 1u32)) by (bit_vector);
        lemma_single_bit_is_pow2(h);
        let k = choose|k: nat| h as nat == pow2(k);
        lemma_pow2_unfold(k + 1);
        assert(y as nat == pow2(k + 1));
    }
}

/// A power of two that fits in a word has a single set bit.
pub proof fn lemma_pow2_is_single_bit(n: u32)
    requires
        is_power_of_two(n as nat),
    ensures
        n != 0,
        n & ((n - 1) as u32) == 0,
{
    let k = choose|k: nat| n as nat == pow2(k);
    lemma_pow2_pos(k);
    if k >= 32 {
        vstd::arithmetic::power2::lemma2_to64();
        if k > 32 {
            lemma_pow2_strictly_increases(32, k);
        }
        assert(false);
    }
    vstd::bits::lemma_u32_shl_is_mul(1u32, k as u32);
    let s = k as u32;
    assert(1u32 << s == n);
    assert(s < 32 ==> (1u32 << s) & (((1u32 << s) - 1) as u32) == 0) by (bit_vector);
}

/// For a word, "power of two" is the single-set-bit test `n & (n - 1) == 0`.
pub proof fn lemma_power_of_two_bits(n: u32)
    ensures
        is_power_of_two(n as nat) <==> (n != 0 && n & ((n - 1) as u32) == 0),
{
    if n != 0 && n & ((n - 1) as u32) == 0 {
        lemma_single_bit_is_pow2(n);
    }
    if is_power_of_two(n as nat) {
        lemma_pow2_is_single_bit(n);
    }
}

/// Masking with `n - 1` is reduction modulo the power of two `n`.
proof fn lemma_mask_is_mod(x: u32, n: u32)
    requires
        is_power_of_two(n as nat),
    ensures
        n != 0,
        x & ((n - 1) as u32) == x % n,
{
    let k = choose|k: nat| n as nat == pow2(k);
    lemma_pow2_pos(k);
    if k >= 32 {
        vstd::arithmetic::power2::lemma2_to64();
        if k > 32 {
            lemma_pow2_strictly_increases(32, k);
        }
        assert(false);
    }
    vstd::bits::lemma_u32_low_bits_mask_is_mod(x, k);
}

/// The word that scrypt's `Integerify` reads: the first word of the last
/// 64-byte sub-block of a `128 r`-byte block.
pub fn integerify(b: &[u32], r: usize) -> (j: u32)
    requires
        r >= 1,
        (2 * r - 1) * 16 < b@.len(),
    ensures
        j == b@[(2 * r - 1) * 16],
{
    let len = b.len();
    assert(len == b@.len());
    b[(2 * r - 1) * 16]
}

/// Largest power of two `<= x` (0 for 0), by clearing the lowest set bit
/// until a single bit remains.
pub fn p2floor(x: u32) -> (p: u32)
    ensures
        p == pow2_floor(x as nat),
        x >= 1 ==> is_power_of_two(p as nat) && p <= x < 2 * p,
{
    let x0 = x;
    let mut cur = x;
    assert(x0 != 0 ==> x0 & x0 == x0 && (x0 >> 1u32) < x0) by (bit_vector);
    loop
        invariant
            x0 == x,
            x0 == 0 ==> cur == 0,
            x0 != 0 ==> cur != 0 && cur & x0 == cur && (x0 >> 1u32) < cur,
        decreases cur,
    {
        let ws = cur.wrapping_sub(1);
        let y = cur & ws;
        assert(cur == 0 ==> cur & ws == 0) by (bit_vector);
        if y == 0 {
            proof {
                if x0 == 0 {
                    assert(cur == 0);
                    assert(pow2_floor(0) == 0);
                } else {
                    assert(cur.wrapping_sub(1) == (cur - 1) as u32);
                    lemma_single_bit_is_pow2(cur);
                    assert(cur & x0 == cur && (x0 >> 1u32) < cur ==> cur <= x0 && x0 < 2 * cur)
                        by (bit_vector);
                    lemma_pow2_floor(x0 as nat);
                    lemma_pow2_between_unique(x0 as nat, cur as nat, pow2_floor(x0 as nat));
                    assert(cur == pow2_floor(x0 as nat));
                }
            }
            return cur;
        }
        proof {
            assert(cur != 0);
            assert(ws == (cur - 1) as u32);
            assert(cur != 0 && cur & x0 == cur && (x0 >> 1u32) < cur && (cur & ((cur - 1) as u32)) != 0 ==> ((cur
                & ((cur - 1) as u32)) & x0) == (cur & ((cur - 1) as u32)) && (x0 >> 1u32) < (cur & ((cur
                - 1) as u32)) && (cur & ((cur - 1) as u32)) < cur) by (bit_vector);
        }
        cur = y;
    }
}

/// Map `x` into `[0, i)` the way scrypt/yescrypt do while `V` is being
/// filled and `i` need not be a power of two.
pub fn wrap(x: u32, i: u32) -> (w: u32)
    requires
        i >= 1,
    ensures
        w == wrap_index(x as nat, i as nat),
        w < i,
{
    let n = p2floor(i);
    proof {
        lemma_pow2_is_single_bit(n);
        lemma_mask_is_mod(x, n);
    }
    (x & (n - 1)) + (i - n)
}

/// When `i` is a power of two, `wrap(x, i)` is `x mod i`.
pub proof fn lemma_wrap_power_of_two(x: nat, i: nat)
    requires
        is_power_of_two(i),
    ensures
        wrap_index(x, i) == x % i,
{
    let k = choose|k: nat| i == pow2(k);
    lemma_pow2_pos(k);
    lemma_pow2_floor(i);
    lemma_pow2_between_unique(i, i, pow2_floor(i));
}

} // verus!
