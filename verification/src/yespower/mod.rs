//! yespower: SMix with pwxform and Salsa20, and the finalization.
//!
//! ```text
//! src --SHA-256--> password
//!        |
//!   PBKDF2-SHA256 (1 round) --> working block B (128 r bytes)
//!        |
//!      SMix (S-box init -> fill V[0..N) -> random read-write / read-only passes)
//!        |
//!   finalize (0.5: PBKDF2 + optional HMAC; 1.0: HMAC over the tail of B)
//!        |
//!     32-byte hash
//! ```

use crate::sha256::{
    bytes_from_words, hmac_sha256, hmac_sha256_tag, le_bytes, le_word, lemma_le32dec_of_ne_word,
    lemma_ne_roundtrip, ne_bytes_of, ne_words, pbkdf2_sha256, pbkdf2_sha256_output, sha256,
    sha256_digest, words_from_bytes,
};
use crate::yespower::index::{is_power_of_two, lemma_power_of_two_bits};
use crate::yespower::pwxform::{
    ctx_wf, sbox_words, swidth_to_sbytes1, swidth_to_smask, PwxformCtx, PWX_ROUNDS_0_5, PWX_ROUNDS_1_0,
    PWX_SIMPLE, RMIN, SWIDTH_0_5, SWIDTH_1_0,
};
use crate::yespower::salsa::{lemma_shuffle_index, shuffle_index, unshuffle_index};
use crate::yespower::smix::{lemma_smix_state_len, smix, smix_decode, smix_encode, smix_state};
use crate::{Error, Params, Version};
use vstd::arithmetic::power2::{lemma2_to64, lemma_pow2_strictly_increases, pow2};
use vstd::prelude::*;

pub mod block;
pub mod index;
pub mod pwxform;
pub mod salsa;
pub mod smix;

verus! {

/// The parameters that yespower accepts: `n` a power of two in
/// `1024..=512 * 1024`, `r` in `8..=32` (which also covers the minimum
/// `RMIN`).
pub open spec fn params_valid(n: u32, r: u32) -> bool {
    &&& 1024 <= n <= 512 * 1024
    &&& 8 <= r <= 32
    &&& is_power_of_two(n as nat)
}

/// The bytes of an optional personalization.
pub open spec fn pers_view(pers: Option<&[u8]>) -> Option<Seq<u8>> {
    match pers {
        Some(p) => Some(p@),
        None => None,
    }
}

/// The pwxform state that yespower starts from: the version's Salsa20 and
/// pwxform round counts, S-box geometry, and windows at 0, 1 and 2 tables.
pub open spec fn initial_ctx(version: Version) -> PwxformCtx {
    match version {
        Version::V0_5 => PwxformCtx {
            version,
            salsa20_rounds: 8,
            pwx_rounds: PWX_ROUNDS_0_5,
            swidth: SWIDTH_0_5,
            sbytes: 8192,
            smask: 4080,
            s0: 0,
            s1: 512,
            s2: 1024,
            w: 0,
        },
        Version::V1_0 => PwxformCtx {
            version,
            salsa20_rounds: 2,
            pwx_rounds: PWX_ROUNDS_1_0,
            swidth: SWIDTH_1_0,
            sbytes: 98304,
            smask: 32752,
            s0: 0,
            s1: 4096,
            s2: 8192,
            w: 0,
        },
    }
}

/// The SMix state (Salsa20 order) of a `128 r`-byte block: word `t` is the
/// little-endian word `(t / 16) * 16 + 5 (t mod 16) mod 16` of the bytes.
pub open spec fn smix_in(bytes: Seq<u8>, r: nat) -> Seq<u32> {
    Seq::new(
        32 * r,
        |t: int|
            {
                let w = (t / 16) * 16 + shuffle_index(t % 16);
                le_word(bytes.subrange(4 * w, 4 * w + 4))
            },
    )
}

/// The `128 r` bytes of an SMix state: each word shuffled back into place
/// and stored little-endian.
pub open spec fn smix_out(x: Seq<u32>, r: nat) -> Seq<u8> {
    Seq::new(
        128 * r,
        |k: int|
            {
                let w = k / 4;
                le_bytes(x[(w / 16) * 16 + unshuffle_index(w % 16)])[k % 4]
            },
    )
}

/// yespower of `src` with the given parameters: the 32-byte hash.
///
/// `B = PBKDF2-SHA256(SHA-256(src), salt, 1, 128 r)` where the salt is
/// `src` (0.5) or the personalization, empty when absent (1.0); then SMix
/// on `B` with `V` and the S-boxes starting zeroed; then 0.5:
/// `dk = PBKDF2-SHA256(B[0..32], B', 1, 32)`, and with a personalization
/// `SHA-256(HMAC-SHA256(dk, pers))`; 1.0: `HMAC-SHA256(B'[128 r - 64..], B[0..32])`,
/// where `B'` is the mixed block.
pub open spec fn yespower_hash(src: Seq<u8>, version: Version, n: u32, r: u32, pers: Option<Seq<u8>>) -> Seq<u8> {
    let password = sha256_digest(src);
    let salt = match version {
        Version::V0_5 => src,
        Version::V1_0 => match pers {
            Some(p) => p,
            None => Seq::empty(),
        },
    };
    let b = pbkdf2_sha256_output(password, salt, 1, 128 * r as nat);
    let prefix = b.subrange(0, 32);
    let mixed = smix_out(
        smix_state(
            smix_in(b, r as nat),
            Seq::new((32 * r * n) as nat, |i: int| 0u32),
            Seq::new(sbox_words(version), |i: int| 0u32),
            initial_ctx(version),
            r as nat,
            n,
        ).0,
        r as nat,
    );
    match version {
        Version::V0_5 => {
            let dk = pbkdf2_sha256_output(prefix, mixed, 1, 32);
            match pers {
                Some(p) => sha256_digest(hmac_sha256_tag(dk, p)),
                None => dk,
            }
        },
        Version::V1_0 => hmac_sha256_tag(mixed.subrange(128 * r - 64, 128 * r as int), prefix),
    }
}

/// The parameters yespower accepts are exactly `n = 2^k` with
/// `10 <= k <= 19` (`1024..=512 * 1024`) and `r` in `8..=32`: any other `n`,
/// such as a multiple of 1024 that is not a power of two, is refused.
pub proof fn lemma_params_valid_exactly(n: u32, r: u32)
    ensures
        params_valid(n, r) <==> (8 <= r <= 32 && exists|k: nat| 10 <= k <= 19 && n as nat == pow2(k)),
{
    lemma2_to64();
    if params_valid(n, r) {
        let k = choose|k: nat| n as nat == pow2(k);
        if k < 10 {
            if k < 9 {
                lemma_pow2_strictly_increases(k, 9);
            }
        }
        if k > 19 {
            if k > 20 {
                lemma_pow2_strictly_increases(20, k);
            }
        }
        assert(10 <= k <= 19);
    }
    if 8 <= r <= 32 && exists|k: nat| 10 <= k <= 19 && n as nat == pow2(k) {
        let k = choose|k: nat| 10 <= k <= 19 && n as nat == pow2(k);
        if k > 10 {
            lemma_pow2_strictly_increases(10, k);
        }
        if k < 19 {
            lemma_pow2_strictly_increases(k, 19);
        }
        assert(is_power_of_two(n as nat));
    }
}

/// In 1.0, for every `r`, the hash is HMAC-SHA256 keyed with the last 64
/// bytes of the mixed `128 r`-byte block, over the first 32 bytes of the
/// block before mixing; that block is PBKDF2-SHA256 (one round) of the
/// input's SHA-256 digest, salted with the personalization (nothing when it
/// is absent).
pub proof fn lemma_v1_0_hash_structure(src: Seq<u8>, n: u32, r: u32, pers: Option<Seq<u8>>)
    ensures
        ({
            let salt = match pers {
                Some(p) => p,
                None => Seq::<u8>::empty(),
            };
            let b = pbkdf2_sha256_output(sha256_digest(src), salt, 1, 128 * r as nat);
            let mixed = yespower_mixed(b, Version::V1_0, n, r);
            &&& mixed.len() == 128 * r
            &&& yespower_hash(src, Version::V1_0, n, r, pers) == hmac_sha256_tag(
                mixed.subrange(mixed.len() - 64, mixed.len() as int),
                b.subrange(0, 32),
            )
        }),
{
}

/// In 1.0 the whole personalization, byte for byte, is the PBKDF2 salt of
/// the block that is mixed and whose first 32 bytes are the final HMAC's
/// message.
pub proof fn lemma_v1_0_pers_is_salt(src: Seq<u8>, n: u32, r: u32, pers: Seq<u8>)
    ensures
        ({
            let b = pbkdf2_sha256_output(sha256_digest(src), pers, 1, 128 * r as nat);
            let mixed = yespower_mixed(b, Version::V1_0, n, r);
            yespower_hash(src, Version::V1_0, n, r, Some(pers)) == hmac_sha256_tag(
                mixed.subrange(128 * r - 64, 128 * r as int),
                b.subrange(0, 32),
            )
        }),
{
}

/// In 0.5 the block is PBKDF2-SHA256 (one round) of the input's digest
/// salted with the input itself; the hash without personalization is
/// PBKDF2-SHA256 (one round, 32 bytes) keyed with the first 32 bytes of that
/// block and salted with the whole mixed block.
pub proof fn lemma_v0_5_hash_structure(src: Seq<u8>, n: u32, r: u32)
    ensures
        ({
            let b = pbkdf2_sha256_output(sha256_digest(src), src, 1, 128 * r as nat);
            let mixed = yespower_mixed(b, Version::V0_5, n, r);
            yespower_hash(src, Version::V0_5, n, r, None) == pbkdf2_sha256_output(
                b.subrange(0, 32),
                mixed,
                1,
                32,
            )
        }),
{
}

/// In 1.0 a missing personalization and an empty one both give an empty
/// PBKDF2 salt, hence the same hash.
pub proof fn lemma_v1_0_none_pers_is_empty_pers(src: Seq<u8>, n: u32, r: u32)
    ensures
        yespower_hash(src, Version::V1_0, n, r, None) == yespower_hash(
            src,
            Version::V1_0,
            n,
            r,
            Some(Seq::empty()),
        ),
{
}

/// In 0.5 the personalization is a final domain separator: the
/// personalized hash is `SHA-256(HMAC-SHA256(h, pers))` of the hash `h`
/// without personalization (so an empty personalization differs from none).
pub proof fn lemma_v0_5_pers_is_final_step(src: Seq<u8>, n: u32, r: u32, pers: Seq<u8>)
    ensures
        yespower_hash(src, Version::V0_5, n, r, Some(pers)) == sha256_digest(
            hmac_sha256_tag(yespower_hash(src, Version::V0_5, n, r, None), pers),
        ),
{
}

/// In 0.5 the input is also the PBKDF2 salt and the personalization only
/// enters at the end; in 1.0 the personalization is the salt and the input
/// enters only through its SHA-256 digest: two inputs with the same digest
/// give the same 1.0 hash.
pub proof fn lemma_v1_0_input_through_digest(src1: Seq<u8>, src2: Seq<u8>, n: u32, r: u32, pers: Option<Seq<u8>>)
    requires
        sha256_digest(src1) == sha256_digest(src2),
    ensures
        yespower_hash(src1, Version::V1_0, n, r, pers) == yespower_hash(src2, Version::V1_0, n, r, pers),
{
}

/// yespower is a function of its input and parameters: two calls with the
/// same input and parameters give the same digest.
pub proof fn lemma_yespower_deterministic(
    src: Seq<u8>,
    version: Version,
    n: u32,
    r: u32,
    pers: Option<Seq<u8>>,
    h1: Seq<u8>,
    h2: Seq<u8>,
)
    requires
        h1 == yespower_hash(src, version, n, r, pers),
        h2 == yespower_hash(src, version, n, r, pers),
    ensures
        h1 == h2,
{
}

/// Host words read from a block, decoded as SMix decodes them, are the
/// block's SMix state.
proof fn lemma_decode_words(bytes: Seq<u8>, r: nat)
    requires
        bytes.len() == 128 * r,
    ensures
        smix_decode(ne_words(bytes), r) == smix_in(bytes, r),
{
    let words = ne_words(bytes);
    assert forall|t: int| 0 <= t < 32 * r implies #[trigger] smix_decode(words, r)[t] == smix_in(
        bytes,
        r,
    )[t] by {
        let i = t % 16;
        lemma_shuffle_index(i, 0);
        let w = (t / 16) * 16 + shuffle_index(i);
        assert(0 <= w < 32 * r) by (nonlinear_arith)
            requires
                t == (t / 16) * 16 + i,
                0 <= i < 16,
                0 <= shuffle_index(i) < 16,
                0 <= t < 32 * r,
                w == (t / 16) * 16 + shuffle_index(i),
        ;
        lemma_le32dec_of_ne_word(bytes.subrange(4 * w, 4 * w + 4));
    }
    assert(smix_decode(words, r) =~= smix_in(bytes, r));
}

/// The host bytes of an SMix-encoded state are the state's bytes.
proof fn lemma_encode_bytes(x: Seq<u32>, r: nat)
    requires
        x.len() == 32 * r,
    ensures
        ne_bytes_of(smix_encode(x, r)) == smix_out(x, r),
{
    let e = smix_encode(x, r);
    assert forall|k: int| 0 <= k < 128 * r implies #[trigger] ne_bytes_of(e)[k] == smix_out(x, r)[k] by {
        let w = k / 4;
        let i = w % 16;
        lemma_shuffle_index(0, i);
        let u = (w / 16) * 16 + unshuffle_index(i);
        assert(0 <= w < 32 * r && 0 <= u < 32 * r) by (nonlinear_arith)
            requires
                0 <= k < 128 * r,
                w == k / 4,
                w == (w / 16) * 16 + i,
                0 <= i < 16,
                0 <= unshuffle_index(i) < 16,
                u == (w / 16) * 16 + unshuffle_index(i),
        ;
        lemma_ne_roundtrip(x[u], le_bytes(x[u]));
        crate::sha256::lemma_le_word_of_bytes(x[u]);
        crate::sha256::lemma_le_bytes_of_word(le_bytes(x[u]));
        lemma_ne_roundtrip(0, le_bytes(x[u]));
    }
    assert(ne_bytes_of(e) =~= smix_out(x, r));
}

/// The mixed block of yespower for the PBKDF2 output `b_bytes`: SMix with
/// the version's geometry on a zeroed `V` and zeroed S-boxes, as bytes.
pub open spec fn yespower_mixed(b_bytes: Seq<u8>, version: Version, n: u32, r: u32) -> Seq<u8> {
    smix_out(
        smix_state(
            smix_in(b_bytes, r as nat),
            Seq::new((32 * r * n) as nat, |i: int| 0u32),
            Seq::new(sbox_words(version), |i: int| 0u32),
            initial_ctx(version),
            r as nat,
            n,
        ).0,
        r as nat,
    )
}

/// The pwxform state that yespower starts from for `version`:
/// version-specific Salsa20 / pwxform round counts and S-box sizes, with
/// three contiguous S-box windows.
pub fn new_pwxform_ctx(version: Version) -> (ctx: PwxformCtx)
    ensures
        ctx == initial_ctx(version),
        ctx_wf(ctx),
        ctx.sbytes / 4 == sbox_words(version),
{
    proof {
        lemma2_to64();
    }
    let (salsa20_rounds, pwx_rounds, swidth, sbytes) = match version {
        Version::V0_5 => (8u32, PWX_ROUNDS_0_5, SWIDTH_0_5, 2 * swidth_to_sbytes1(SWIDTH_0_5)),
        Version::V1_0 => (2u32, PWX_ROUNDS_1_0, SWIDTH_1_0, 3 * swidth_to_sbytes1(SWIDTH_1_0)),
    };
    assert((1usize << 8u32) == 256 && (1usize << 11u32) == 2048) by (bit_vector);
    let swidth_pairs = (1usize << swidth) * PWX_SIMPLE;
    PwxformCtx {
        version,
        salsa20_rounds,
        pwx_rounds,
        swidth,
        sbytes,
        smask: swidth_to_smask(swidth),
        // Three contiguous S-box windows inside `s`.
        s0: 0,
        s1: swidth_pairs,
        s2: swidth_pairs * 2,
        w: 0,
    }
}

/// Stage 2 of yespower: allocate `V`, the scratch block and the S-boxes,
/// run SMix on the block `b_bytes` (the PBKDF2 output, `128 r` bytes) and
/// return the mixed block as bytes.
#[verifier::spinoff_prover]
pub fn yespower_mix(b_bytes: &[u8], version: Version, n: u32, r: u32) -> (mixed: Vec<u8>)
    requires
        params_valid(n, r),
        b_bytes@.len() == 128 * r,
    ensures
        mixed@ == yespower_mixed(b_bytes@, version, n, r),
        mixed@.len() == 128 * r,
{
    proof {
        lemma_power_of_two_bits(n);
    }
    let r_usz = r as usize;
    let b_size = 128 * r_usz;
    // V: N snapshots of B, X: scratch, S: pwxform S-boxes
    assert((b_size / 4) * (n as usize) <= 32 * 32 * 524288) by (nonlinear_arith)
        requires
            b_size == 128 * r_usz,
            r_usz <= 32,
            n <= 524288,
    ;
    let mut v = vec![0u32; (b_size / 4) * n as usize];
    let mut x = vec![0u32; b_size / 4];

    let mut ctx = new_pwxform_ctx(version);
    let mut s = vec![0u32; ctx.sbytes / 4];
    assert(ctx == initial_ctx(version));
    assert(v@ =~= Seq::new((32 * r * n) as nat, |i: int| 0u32));
    assert(s@ =~= Seq::new(sbox_words(version), |i: int| 0u32));

    let mut b = words_from_bytes(b_bytes);
    proof {
        lemma_decode_words(b_bytes@, r as nat);
        assert((b_size / 4) * n as usize == 32 * r_usz * n);
    }
    smix(&mut b, r_usz, n, &mut v, &mut x, &mut s, &mut ctx);
    proof {
        let p = smix_state(
            smix_in(b_bytes@, r as nat),
            Seq::new((32 * r * n) as nat, |i: int| 0u32),
            Seq::new(sbox_words(version), |i: int| 0u32),
            initial_ctx(version),
            r as nat,
            n,
        );
        lemma_smix_state_len(smix_in(b_bytes@, r as nat), Seq::new((32 * r * n) as nat, |i: int| 0u32),
            Seq::new(sbox_words(version), |i: int| 0u32), initial_ctx(version), r as nat, n);
        lemma_encode_bytes(p.0, r as nat);
    }
    bytes_from_words(&b)
}

/// Compute yespower(src, params), the 256-bit hash.
///
/// Returns [`Error::InvalidParams`] when `n` / `r` are outside the ranges
/// accepted by yespower (power-of-two `n` in
/// `1024..=512 * 1024`, `r` in `8..=32`).
pub fn yespower(src: &[u8], params: &Params<'_>) -> (res: Result<[u8; 32], Error>)
    ensures
        res is Ok <==> params_valid(params.n, params.r),
        res matches Ok(h) ==> h@ == yespower_hash(
            src@,
            params.version,
            params.n,
            params.r,
            pers_view(params.pers),
        ),
        res matches Err(e) ==> e == Error::InvalidParams,
{
    let version = params.version;
    let n = params.n;
    let r = params.r;
    let pers = params.pers;

    proof {
        lemma_power_of_two_bits(n);
    }
    // `(n & (n - 1)) != 0` is the classic "not a power of two" bit trick.
    if n < 1024 || n > 512 * 1024 || r < 8 || r > 32 || (n & (n - 1)) != 0 || r < RMIN {
        return Err(Error::InvalidParams);
    }

    let b_size = 128 * r as usize;
    let mut b_bytes = vec![0u8; b_size];

    // Stage 1: derive the initial B from src.
    let sha_bytes = sha256(src);

    // The salt is a key behavioural difference between versions.
    let empty: &[u8] = &[];
    let salt: &[u8] = match version {
        Version::V0_5 => src,
        Version::V1_0 => pers.unwrap_or(empty),
    };
    pbkdf2_sha256(&sha_bytes, salt, 1, &mut b_bytes);

    // Keep the first 32 bytes of B: the "password" of the final KDF / HMAC.
    let mut prefix = [0u8; 32];
    for i in 0..32
        invariant
            b_bytes@.len() == b_size,
            b_size >= 1024,
            forall|k: int| 0 <= k < i ==> #[trigger] prefix@[k] == b_bytes@[k],
    {
        prefix[i] = b_bytes[i];
    }
    assert(prefix@ =~= b_bytes@.subrange(0, 32));

    // Stage 2: the RAM-hard mix.
    let b_as_bytes = yespower_mix(&b_bytes, version, n, r);

    // Stage 3: finalize to 32 bytes.
    let dst = match version {
        Version::V0_5 => {
            let mut dk = [0u8; 32];
            pbkdf2_sha256(&prefix, &b_as_bytes, 1, &mut dk);
            // Optional personalization: HMAC(dk, pers) then SHA-256.
            match pers {
                Some(p) => {
                    let h = hmac_sha256(&dk, p);
                    sha256(&h)
                },
                None => dk,
            }
        },
        Version::V1_0 => {
            // The last 64 bytes of B are the HMAC key; the message is the
            // first 32 bytes of B from before SMix.
            let key = &b_as_bytes.as_slice()[b_size - 64..b_size];
            hmac_sha256(key, &prefix)
        },
    };
    assert(empty@ =~= Seq::<u8>::empty());
    Ok(dst)
}

} // verus!
