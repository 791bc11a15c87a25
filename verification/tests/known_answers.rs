//! Published test vectors of yespower, on the input `src[i] = 3 i`
//! (80 bytes).

use yespower::{yespower, Params, Version};

fn src_pattern() -> [u8; 80] {
    let mut src = [0u8; 80];
    for (i, b) in src.iter_mut().enumerate() {
        *b = (i * 3) as u8;
    }
    src
}

#[test]
fn known_answer_v0_5_n2048_r8_client_key() {
    let src = src_pattern();
    let got = yespower(
        &src,
        &Params {
            version: Version::V0_5,
            n: 2048,
            r: 8,
            pers: Some(b"Client Key"),
        },
    )
    .unwrap();
    let expected: [u8; 32] = [
        0xa5, 0x9f, 0xec, 0x4c, 0x4f, 0xdd, 0xa1, 0x6e, 0x3b, 0x14, 0x05, 0xad, 0xda, 0x66, 0xd5, 0x25,
        0xb6, 0x8e, 0x7c, 0xad, 0xfc, 0xfe, 0x6a, 0xc0, 0x66, 0xc7, 0xad, 0x11, 0x8c, 0xd8, 0x05, 0x90,
    ];
    assert_eq!(got, expected);
}

#[test]
fn known_answer_v1_0_n2048_r8_no_pers() {
    let src = src_pattern();
    let got = yespower(
        &src,
        &Params {
            version: Version::V1_0,
            n: 2048,
            r: 8,
            pers: None,
        },
    )
    .unwrap();
    let expected: [u8; 32] = [
        0x69, 0xe0, 0xe8, 0x95, 0xb3, 0xdf, 0x7a, 0xee, 0xb8, 0x37, 0xd7, 0x1f, 0xe1, 0x99, 0xe9, 0xd3,
        0x4f, 0x7e, 0xc4, 0x6e, 0xcb, 0xca, 0x7a, 0x2c, 0x43, 0x08, 0xe5, 0x18, 0x57, 0xae, 0x9b, 0x46,
    ];
    assert_eq!(got, expected);
}
