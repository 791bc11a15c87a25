//! SHA-256, PBKDF2 and the host-word layout helpers.

use yespower::sha256::{
    bytes_from_words, hmac_sha256, le32dec_word, le32enc_word, pbkdf2_sha256, sha256, words_from_bytes,
};

#[test]
fn sha256_empty_nist() {
    // SHA256("")
    let h = sha256(b"");
    assert_eq!(
        h,
        [
            0xe3, 0xb0, 0xc4, 0x42, 0x98, 0xfc, 0x1c, 0x14, 0x9a, 0xfb, 0xf4, 0xc8, 0x99, 0x6f,
            0xb9, 0x24, 0x27, 0xae, 0x41, 0xe4, 0x64, 0x9b, 0x93, 0x4c, 0xa4, 0x95, 0x99, 0x1b,
            0x78, 0x52, 0xb8, 0x55
        ]
    );
}

#[test]
fn pbkdf2_sha256_rfc6070_c1() {
    // RFC 6070: password="password", salt="salt", c=1, dkLen=20
    let mut out = [0u8; 20];
    pbkdf2_sha256(b"password", b"salt", 1, &mut out);
    assert_eq!(
        out,
        [
            0x12, 0x0f, 0xb6, 0xcf, 0xfc, 0xf8, 0xb3, 0x2c, 0x43, 0xe7, 0x22, 0x52, 0x56, 0xc4,
            0xf8, 0x37, 0xa8, 0x65, 0x48, 0xc9
        ]
    );
}

#[test]
fn words_bytes_roundtrip_native_layout() {
    let bytes: Vec<u8> = (0..32).collect();
    let words = words_from_bytes(&bytes);
    assert_eq!(bytes_from_words(&words), bytes);
}

#[test]
fn le32_codec_roundtrip() {
    for x in [0u32, 1, 0xff, 0x0102_0304, u32::MAX] {
        assert_eq!(le32dec_word(le32enc_word(x)), x);
    }
}

#[test]
fn hmac_sha256_rfc4231_case2() {
    // RFC 4231, test case 2: key "Jefe", data "what do ya want for nothing?"
    let tag = hmac_sha256(b"Jefe", b"what do ya want for nothing?");
    assert_eq!(
        tag,
        [
            0x5b, 0xdc, 0xc1, 0x46, 0xbf, 0x60, 0x75, 0x4e, 0x6a, 0x04, 0x24, 0x26, 0x08, 0x95,
            0x75, 0xc7, 0x5a, 0x00, 0x3f, 0x08, 0x9d, 0x27, 0x39, 0x83, 0x9d, 0xec, 0x58, 0xb9,
            0x64, 0xec, 0x38, 0x43
        ]
    );
}

#[test]
fn pbkdf2_sha256_rfc7914_two_blocks() {
    // RFC 7914 section 11: PBKDF2-HMAC-SHA256("passwd", "salt", 1, 64)
    let mut out = [0u8; 64];
    pbkdf2_sha256(b"passwd", b"salt", 1, &mut out);
    assert_eq!(
        out.to_vec(),
        vec![
            0x55, 0xac, 0x04, 0x6e, 0x56, 0xe3, 0x08, 0x9f, 0xec, 0x16, 0x91, 0xc2, 0x25, 0x44,
            0xb6, 0x05, 0xf9, 0x41, 0x85, 0x21, 0x6d, 0xde, 0x04, 0x65, 0xe6, 0x8b, 0x9d, 0x57,
            0xc2, 0x0d, 0xac, 0xbc, 0x49, 0xca, 0x9c, 0xcc, 0xf1, 0x79, 0xb6, 0x45, 0x99, 0x16,
            0x64, 0xb3, 0x9d, 0x77, 0xef, 0x31, 0x7c, 0x71, 0xb8, 0x45, 0xb1, 0xe3, 0x0b, 0xd5,
            0x09, 0x11, 0x20, 0x41, 0xd3, 0xa1, 0x97, 0x83
        ]
    );
}

#[test]
fn words_from_bytes_follows_host_order() {
    let bytes = [0x01u8, 0x02, 0x03, 0x04, 0x05, 0x06, 0x07, 0x08, 0x09];
    let words = words_from_bytes(&bytes);
    // The trailing byte that does not fill a word is dropped.
    assert_eq!(words.len(), 2);
    assert_eq!(words[0], u32::from_ne_bytes([1, 2, 3, 4]));
    assert_eq!(words[1], u32::from_ne_bytes([5, 6, 7, 8]));
    assert_eq!(bytes_from_words(&words), bytes[..8].to_vec());
}

#[test]
fn le32dec_reads_little_endian_memory() {
    let w = u32::from_ne_bytes([0x04, 0x03, 0x02, 0x01]);
    assert_eq!(le32dec_word(w), 0x0102_0304);
    assert_eq!(le32enc_word(0x0102_0304).to_ne_bytes(), [0x04, 0x03, 0x02, 0x01]);
}
