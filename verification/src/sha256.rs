//! SHA-256, HMAC-SHA256 and PBKDF2-HMAC-SHA256, and the helpers that
//! treat a byte buffer as an array of host-order `u32` words.

use hmac::{Hmac, Mac};
use pbkdf2::pbkdf2_hmac;
use sha2::{Digest, Sha256};
use vstd::endian::{endianness, Endian};
use vstd::prelude::*;

verus! {

/// The SHA-256 digest of `data` (FIPS 180-4), as computed by `sha2`.
pub uninterp spec fn sha256_digest(data: Seq<u8>) -> Seq<u8>;

/// The HMAC key block for SHA-256 (RFC 2104): the key, or its digest when
/// it is longer than the 64-byte block, padded with zero bytes to 64 bytes.
pub open spec fn hmac_key_block(key: Seq<u8>) -> Seq<u8> {
    let k = if key.len() <= 64 {
        key
    } else {
        sha256_digest(key)
    };
    Seq::new(64, |i: int| if i < k.len() { k[i] } else { 0u8 })
}

/// The HMAC-SHA256 tag (RFC 2104) of `data` under `key`:
/// `H((K0 xor opad) || H((K0 xor ipad) || data))`, with `ipad` the byte
/// `0x36` and `opad` the byte `0x5c` repeated over the key block `K0`.
pub open spec fn hmac_sha256_tag(key: Seq<u8>, data: Seq<u8>) -> Seq<u8> {
    let k0 = hmac_key_block(key);
    let inner = sha256_digest(k0.map_values(|b: u8| b ^ 0x36u8) + data);
    sha256_digest(k0.map_values(|b: u8| b ^ 0x5cu8) + inner)
}

/// The four bytes of `x`, most significant first.
pub open spec fn be_bytes(x: u32) -> Seq<u8> {
    le_bytes(x).reverse()
}

/// `U_(j+1)` of PBKDF2-HMAC-SHA256 block `i` (counted from 0): the first is
/// the HMAC of `salt || BE32(i + 1)`, each next one the HMAC of the one
/// before, all keyed with `password`.
pub open spec fn pbkdf2_u(password: Seq<u8>, salt: Seq<u8>, i: nat, j: nat) -> Seq<u8>
    decreases j,
{
    if j == 0 {
        hmac_sha256_tag(password, salt + be_bytes((i + 1) as u32))
    } else {
        hmac_sha256_tag(password, pbkdf2_u(password, salt, i, (j - 1) as nat))
    }
}

/// `U_1 xor ... xor U_(j+1)` of PBKDF2-HMAC-SHA256 block `i`.
pub open spec fn pbkdf2_xor(password: Seq<u8>, salt: Seq<u8>, i: nat, j: nat) -> Seq<u8>
    decreases j,
{
    if j == 0 {
        pbkdf2_u(password, salt, i, 0)
    } else {
        let a = pbkdf2_xor(password, salt, i, (j - 1) as nat);
        let u = pbkdf2_u(password, salt, i, j);
        Seq::new(a.len(), |k: int| a[k] ^ u[k])
    }
}

/// The first `len` bytes of PBKDF2-HMAC-SHA256 (RFC 8018) of `password`
/// and `salt` with `rounds` iterations: 32-byte blocks, block `i` being
/// the XOR of `U_1 .. U_rounds`; a count of 0 runs as 1.
pub open spec fn pbkdf2_sha256_output(password: Seq<u8>, salt: Seq<u8>, rounds: u32, len: nat) -> Seq<u8> {
    let c: nat = if rounds == 0 {
        0
    } else {
        (rounds - 1) as nat
    };
    Seq::new(len, |k: int| pbkdf2_xor(password, salt, (k / 32) as nat, c)[k % 32])
}

/// One-shot SHA-256 digest.
///
/// Trusted: calls `sha2::Sha256::digest`; the contract claims that the
/// 32 bytes returned are the SHA-256 digest of `data`.
#[verifier::external_body]
pub fn sha256(data: &[u8]) -> (h: [u8; 32])
    ensures
        h@ == sha256_digest(data@),
{
    Sha256::digest(data).into()
}

/// HMAC-SHA256 keyed with `key`, over `data`.
///
/// Trusted: calls `hmac::Hmac::<Sha256>::new_from_slice`, `update` and
/// `finalize`; the contract claims that the 32 bytes returned are the HMAC
/// tag as [`hmac_sha256_tag`] writes it out (RFC 2104 over SHA-256, 64-byte
/// key block). `new_from_slice` accepts keys of every length (it pads or
/// hashes the key), so the `expect` never fires.
#[verifier::external_body]
fn hmac_sha256_raw(key: &[u8], data: &[u8]) -> (tag: [u8; 32])
    ensures
        tag@ == hmac_sha256_tag(key@, data@),
{
    let mut mac = <Hmac<Sha256> as Mac>::new_from_slice(key).expect("HMAC accepts any key length");
    mac.update(data);
    mac.finalize().into_bytes().into()
}

/// HMAC-SHA256(key, data): the 32-byte authentication tag.
pub fn hmac_sha256(key: &[u8], data: &[u8]) -> (tag: [u8; 32])
    ensures
        tag@ == hmac_sha256_tag(key@, data@),
{
    hmac_sha256_raw(key, data)
}

/// PBKDF2-HMAC-SHA256 into `out`; the length of `out` is the derived-key length.
///
/// Trusted: calls `pbkdf2::pbkdf2_hmac::<Sha256>`; the contract claims that
/// `out` is filled, over its whole length, with the derived key as
/// [`pbkdf2_sha256_output`] writes it out. The crate numbers the 32-byte
/// output blocks with a `u32` counter starting at 1, which `requires` keeps
/// from overflowing (at most `u32::MAX` blocks); `rounds == 0` runs as one
/// round.
#[verifier::external_body]
pub fn pbkdf2_sha256(password: &[u8], salt: &[u8], rounds: u32, out: &mut [u8])
    requires
        old(out)@.len() <= 32 * 0xffff_ffff,
    ensures
        final(out)@.len() == old(out)@.len(),
        final(out)@ == pbkdf2_sha256_output(password@, salt@, rounds, old(out)@.len()),
{
    pbkdf2_hmac::<Sha256>(password, salt, rounds, out);
}

/// The four bytes of `x`, least significant first.
pub open spec fn le_bytes(x: u32) -> Seq<u8> {
    seq![x as u8, (x >> 8u32) as u8, (x >> 16u32) as u8, (x >> 24u32) as u8]
}

/// The word whose little-endian bytes are `b[0..4]`.
pub open spec fn le_word(b: Seq<u8>) -> u32 {
    (b[0] as u32) | ((b[1] as u32) << 8u32) | ((b[2] as u32) << 16u32) | ((b[3] as u32) << 24u32)
}

/// The four bytes of `x` in the byte order of the executing hardware.
pub open spec fn ne_bytes(x: u32) -> Seq<u8> {
    match endianness() {
        Endian::Little => le_bytes(x),
        Endian::Big => le_bytes(x).reverse(),
    }
}

/// The word whose bytes in the order of the executing hardware are `b[0..4]`.
pub open spec fn ne_word(b: Seq<u8>) -> u32 {
    match endianness() {
        Endian::Little => le_word(b),
        Endian::Big => le_word(b.reverse()),
    }
}

/// `x` with its four bytes in reverse order.
pub open spec fn swap_bytes(x: u32) -> u32 {
    le_word(le_bytes(x).reverse())
}

/// Trusted: `u32::to_ne_bytes`, documented to return the memory
/// representation of the integer in the native byte order.
#[verifier::external_body]
fn u32_to_ne_bytes(x: u32) -> (b: [u8; 4])
    ensures
        b@ == ne_bytes(x),
{
    x.to_ne_bytes()
}

/// Trusted: `u32::from_ne_bytes`, documented to build an integer from its
/// memory representation in the native byte order.
#[verifier::external_body]
fn u32_from_ne_bytes(b: [u8; 4]) -> (x: u32)
    ensures
        x == ne_word(b@),
{
    u32::from_ne_bytes(b)
}

/// The four bytes of `x`, least significant first (what `u32::to_le_bytes`
/// returns).
fn u32_to_le_bytes(x: u32) -> (b: [u8; 4])
    ensures
        b@ == le_bytes(x),
{
    let b: [u8; 4] = [x as u8, (x >> 8u32) as u8, (x >> 16u32) as u8, (x >> 24u32) as u8];
    assert(b@ =~= le_bytes(x));
    b
}

/// The word whose little-endian bytes are `b` (what `u32::from_le_bytes`
/// returns).
fn u32_from_le_bytes(b: [u8; 4]) -> (x: u32)
    ensures
        x == le_word(b@),
{
    (b[0] as u32) | ((b[1] as u32) << 8u32) | ((b[2] as u32) << 16u32) | ((b[3] as u32) << 24u32)
}

/// What `le32dec_word` gives for the host word `w` (`le32dec`).
pub open spec fn le32dec(w: u32) -> u32 {
    le_word(ne_bytes(w))
}

/// What `le32enc_word` gives for the value `x` (`le32enc`).
pub open spec fn le32enc(x: u32) -> u32 {
    ne_word(le_bytes(x))
}

/// The host words that a byte buffer holds, four bytes each, in order;
/// trailing bytes that do not fill a word are left out.
pub open spec fn ne_words(bytes: Seq<u8>) -> Seq<u32> {
    Seq::new(bytes.len() / 4, |i: int| ne_word(bytes.subrange(4 * i, 4 * i + 4)))
}

/// The bytes that host words occupy in memory, word after word.
pub open spec fn ne_bytes_of(words: Seq<u32>) -> Seq<u8> {
    Seq::new(4 * words.len(), |k: int| ne_bytes(words[k / 4])[k % 4])
}

/// Decoding the little-endian bytes of a word gives the word back.
pub proof fn lemma_le_word_of_bytes(x: u32)
    ensures
        le_word(le_bytes(x)) == x,
        le_bytes(x).len() == 4,
{
    assert(((x as u8) as u32) | ((((x >> 8u32) as u8) as u32) << 8u32) | ((((x >> 16u32) as u8)
        as u32) << 16u32) | ((((x >> 24u32) as u8) as u32) << 24u32) == x) by (bit_vector);
}

/// Encoding the word that four bytes decode to gives the bytes back.
pub proof fn lemma_le_bytes_of_word(b: Seq<u8>)
    requires
        b.len() == 4,
    ensures
        le_bytes(le_word(b)) == b,
{
    let (b0, b1, b2, b3) = (b[0], b[1], b[2], b[3]);
    let x = le_word(b);
    assert(x == (b0 as u32) | ((b1 as u32) << 8u32) | ((b2 as u32) << 16u32) | ((b3 as u32)
        << 24u32));
    assert(((b0 as u32) | ((b1 as u32) << 8u32) | ((b2 as u32) << 16u32) | ((b3 as u32) << 24u32))
        as u8 == b0 && (((b0 as u32) | ((b1 as u32) << 8u32) | ((b2 as u32) << 16u32) | ((b3
        as u32) << 24u32)) >> 8u32) as u8 == b1 && (((b0 as u32) | ((b1 as u32) << 8u32) | ((b2
        as u32) << 16u32) | ((b3 as u32) << 24u32)) >> 16u32) as u8 == b2 && (((b0 as u32) | ((b1
        as u32) << 8u32) | ((b2 as u32) << 16u32) | ((b3 as u32) << 24u32)) >> 24u32) as u8 == b3)
        by (bit_vector);
    assert(le_bytes(x) =~= b);
}

/// Host-order encoding and decoding of one word undo each other.
pub proof fn lemma_ne_roundtrip(x: u32, b: Seq<u8>)
    requires
        b.len() == 4,
    ensures
        ne_word(ne_bytes(x)) == x,
        ne_bytes(ne_word(b)) == b,
        ne_bytes(x).len() == 4,
{
    lemma_le_word_of_bytes(x);
    lemma_le_bytes_of_word(b);
    lemma_le_bytes_of_word(b.reverse());
    assert(le_bytes(x).reverse().reverse() =~= le_bytes(x));
    assert(b.reverse().reverse() =~= b);
}


/// Load a host-order `u32` word as little-endian (`le32dec`): the identity
/// on a little-endian host, a byte swap on a big-endian one.
pub fn le32dec_word(w: u32) -> (x: u32)
    ensures
        x == le32dec(w),
        endianness() is Little ==> x == w,
        endianness() is Big ==> x == swap_bytes(w),
{
    proof {
        lemma_le_word_of_bytes(w);
    }
    u32_from_le_bytes(u32_to_ne_bytes(w))
}

/// Store a value into a host-order `u32` word as little-endian (`le32enc`);
/// the inverse of [`le32dec_word`].
pub fn le32enc_word(x: u32) -> (w: u32)
    ensures
        w == le32enc(x),
        endianness() is Little ==> w == x,
        endianness() is Big ==> w == swap_bytes(x),
{
    proof {
        lemma_le_word_of_bytes(x);
    }
    u32_from_ne_bytes(u32_to_le_bytes(x))
}

/// Decoding what `le32enc` stored gives the value back, and the other way round.
pub proof fn lemma_le32_roundtrip(x: u32)
    ensures
        le32dec(le32enc(x)) == x,
        le32enc(le32dec(x)) == x,
{
    lemma_le_word_of_bytes(x);
    lemma_ne_roundtrip(x, le_bytes(x));
    lemma_le_bytes_of_word(ne_bytes(x));
}

/// A word that was read from bytes in host order and is then decoded as
/// little-endian is the little-endian reading of those bytes.
pub proof fn lemma_le32dec_of_ne_word(b: Seq<u8>)
    requires
        b.len() == 4,
    ensures
        le32dec(ne_word(b)) == le_word(b),
        ne_bytes(le32enc(le_word(b))) == b,
{
    lemma_ne_roundtrip(0, b);
    lemma_le_bytes_of_word(b);
    lemma_ne_roundtrip(0, le_bytes(le_word(b)));
}

/// Interpret a byte buffer as host `u32` words the way C casts
/// `uint8_t*` to `uint32_t*` (native byte order, 4-byte chunks; trailing
/// bytes that do not fill a word are dropped).
pub fn words_from_bytes(bytes: &[u8]) -> (words: Vec<u32>)
    ensures
        words@ == ne_words(bytes@),
{
    let n = bytes.len() / 4;
    let mut words: Vec<u32> = Vec::with_capacity(n);
    let mut i: usize = 0;
    while i < n
        invariant
            n == bytes@.len() / 4,
            bytes@.len() == bytes.len(),
            i <= n,
            words@.len() == i,
            forall|j: int| 0 <= j < i ==> words@[j] == ne_word(bytes@.subrange(4 * j, 4 * j + 4)),
        decreases n - i,
    {
        let chunk: [u8; 4] = [bytes[4 * i], bytes[4 * i + 1], bytes[4 * i + 2], bytes[4 * i + 3]];
        assert(chunk@ =~= bytes@.subrange(4 * i as int, 4 * i + 4));
        words.push(u32_from_ne_bytes(chunk));
        i += 1;
    }
    assert(words@ =~= ne_words(bytes@));
    words
}

/// Flatten host `u32` words back to bytes (native memory layout).
pub fn bytes_from_words(words: &[u32]) -> (bytes: Vec<u8>)
    ensures
        bytes@ == ne_bytes_of(words@),
{
    let n = words.len();
    let mut bytes: Vec<u8> = Vec::new();
    let mut i: usize = 0;
    while i < n
        invariant
            n == words@.len(),
            i <= n,
            bytes@.len() == 4 * i,
            forall|k: int| 0 <= k < 4 * i ==> bytes@[k] == ne_bytes(words@[k / 4])[k % 4],
        decreases n - i,
    {
        let b = u32_to_ne_bytes(words[i]);
        proof {
            lemma_ne_roundtrip(words@[i as int], b@);
        }
        bytes.push(b[0]);
        bytes.push(b[1]);
        bytes.push(b[2]);
        bytes.push(b[3]);
        i += 1;
    }
    assert(bytes@ =~= ne_bytes_of(words@));
    bytes
}

/// Flattening words to bytes and reading them back gives the words.
pub proof fn lemma_words_bytes_roundtrip(words: Seq<u32>)
    ensures
        ne_words(ne_bytes_of(words)) == words,
{
    let bytes = ne_bytes_of(words);
    assert forall|i: int| 0 <= i < words.len() implies ne_word(bytes.subrange(4 * i, 4 * i + 4))
        == words[i] by {
        lemma_ne_roundtrip(words[i], seq![0u8, 0u8, 0u8, 0u8]);
        assert(bytes.subrange(4 * i, 4 * i + 4) =~= ne_bytes(words[i]));
    }
    assert(ne_words(bytes) =~= words);
}

/// Reading a buffer whose length is a multiple of four as words and
/// flattening them gives the buffer back.
pub proof fn lemma_bytes_words_roundtrip(bytes: Seq<u8>)
    requires
        bytes.len() % 4 == 0,
    ensures
        ne_bytes_of(ne_words(bytes)) == bytes,
{
    let words = ne_words(bytes);
    let back = ne_bytes_of(words);
    assert forall|k: int| 0 <= k < bytes.len() implies back[k] == bytes[k] by {
        let i = k / 4;
        let chunk = bytes.subrange(4 * i, 4 * i + 4);
        lemma_ne_roundtrip(0, chunk);
        assert(chunk[k % 4] == bytes[k]);
    }
    assert(back =~= bytes);
}

} // verus!
