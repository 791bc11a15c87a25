//! The private yespower primitives: `p2floor`, `wrap`, `salsa20`, `integerify`.

use yespower::{integerify, new_pwxform_ctx, p2floor, pwxform, salsa20, smix2, wrap, Version};

#[test]
fn p2floor_powers_and_in_between() {
    assert_eq!(p2floor(1), 1);
    assert_eq!(p2floor(2), 2);
    assert_eq!(p2floor(3), 2);
    assert_eq!(p2floor(1024), 1024);
    assert_eq!(p2floor(1025), 1024);
    assert_eq!(p2floor(4095), 2048);
    assert_eq!(p2floor(4096), 4096);
}

#[test]
fn p2floor_edges() {
    assert_eq!(p2floor(0), 0);
    assert_eq!(p2floor(u32::MAX), 0x8000_0000);
    assert_eq!(p2floor(0x8000_0000), 0x8000_0000);
    assert_eq!(p2floor(0x7fff_ffff), 0x4000_0000);
}

#[test]
fn wrap_maps_into_half_open_range() {
    // wrap(x, i) in [0, i)
    for i in 2u32..64 {
        for x in 0..256 {
            let w = wrap(x, i);
            assert!(w < i, "wrap({x}, {i}) = {w}");
        }
    }
}

#[test]
fn wrap_matches_scrypt_style_examples() {
    // When i is a power of two, wrap(x, i) == x % i
    assert_eq!(wrap(5, 8), 5);
    assert_eq!(wrap(13, 8), 5);
    // When i is not a power of two: n = p2floor(i), result = (x & (n-1)) + (i - n)
    // i = 6 -> n = 4 -> wrap(x,6) = (x & 3) + 2
    assert_eq!(wrap(0, 6), 2);
    assert_eq!(wrap(1, 6), 3);
    assert_eq!(wrap(3, 6), 5);
    assert_eq!(wrap(4, 6), 2);
}

#[test]
fn wrap_with_bound_one_is_zero() {
    for x in [0u32, 1, 7, u32::MAX] {
        assert_eq!(wrap(x, 1), 0);
    }
    assert_eq!(wrap(u32::MAX, u32::MAX), u32::MAX - 1);
}

#[test]
fn salsa20_is_deterministic_and_mixes() {
    let mut b = [0u32; 16];
    for (i, w) in b.iter_mut().enumerate() {
        *w = (i as u32).wrapping_mul(0x9e37_79b9);
    }
    let before = b;
    salsa20(&mut b, 8);
    assert_ne!(b, before, "salsa20 must modify the block");
    let mut again = before;
    salsa20(&mut again, 8);
    assert_eq!(b, again, "salsa20 must be deterministic");
}

#[test]
fn salsa20_zero_rounds_is_shuffle_add_only() {
    // With 0 rounds the column/row loop is skipped; only unshuffle+add remains.
    let mut b = [1u32; 16];
    salsa20(&mut b, 0);
    // After unshuffle into x and add: B[i] += x[i*5%16] where x[j*5%16]=B_orig[j]=1
    // so every B[i] becomes 2.
    assert_eq!(b, [2u32; 16]);
}

#[test]
fn salsa20_odd_rounds_run_as_next_even() {
    let mut a = [0u32; 16];
    for (i, w) in a.iter_mut().enumerate() {
        *w = 0x0101_0101u32.wrapping_mul(i as u32 + 1);
    }
    let mut b = a;
    salsa20(&mut a, 1);
    salsa20(&mut b, 2);
    assert_eq!(a, b);
}

#[test]
fn salsa20_leaves_words_past_the_block() {
    let mut b = [3u32; 20];
    salsa20(&mut b, 2);
    assert_eq!(&b[16..], &[3u32; 4]);
}

#[test]
fn salsa20_8_matches_the_published_core() {
    // The Salsa20/8 core of RFC 7914 section 8, with the input written in
    // the SIMD word order (word i of the state stored at position 13 i mod 16).
    let input: [u8; 64] = [
        0x7e, 0x87, 0x9a, 0x21, 0x4f, 0x3e, 0xc9, 0x86, 0x7c, 0xa9, 0x40, 0xe6, 0x41, 0x71, 0x8f,
        0x26, 0xba, 0xee, 0x55, 0x5b, 0x8c, 0x61, 0xc1, 0xb5, 0x0d, 0xf8, 0x46, 0x11, 0x6d, 0xcd,
        0x3b, 0x1d, 0xee, 0x24, 0xf3, 0x19, 0xdf, 0x9b, 0x3d, 0x85, 0x14, 0x12, 0x1e, 0x4b, 0x5a,
        0xc5, 0xaa, 0x32, 0x76, 0x02, 0x1d, 0x29, 0x09, 0xc7, 0x48, 0x29, 0xed, 0xeb, 0xc6, 0x8d,
        0xb8, 0xb8, 0xc2, 0x5e,
    ];
    let output: [u8; 64] = [
        0xa4, 0x1f, 0x85, 0x9c, 0x66, 0x08, 0xcc, 0x99, 0x3b, 0x81, 0xca, 0xcb, 0x02, 0x0c, 0xef,
        0x05, 0x04, 0x4b, 0x21, 0x81, 0xa2, 0xfd, 0x33, 0x7d, 0xfd, 0x7b, 0x1c, 0x63, 0x96, 0x68,
        0x2f, 0x29, 0xb4, 0x39, 0x31, 0x68, 0xe3, 0xc9, 0xe6, 0xbc, 0xfe, 0x6b, 0xc5, 0xb7, 0xa0,
        0x6d, 0x96, 0xba, 0xe4, 0x24, 0xcc, 0x10, 0x2c, 0x91, 0x74, 0x5c, 0x24, 0xad, 0x67, 0x3d,
        0xc7, 0x61, 0x8f, 0x81,
    ];
    let word = |bytes: &[u8; 64], i: usize| {
        u32::from_le_bytes([bytes[4 * i], bytes[4 * i + 1], bytes[4 * i + 2], bytes[4 * i + 3]])
    };
    let mut b = [0u32; 16];
    for j in 0..16 {
        b[(j * 13) % 16] = word(&input, j);
    }
    salsa20(&mut b, 8);
    for j in 0..16 {
        assert_eq!(b[(j * 13) % 16], word(&output, j), "state word {j}");
    }
}

#[test]
fn integerify_reads_last_block_word0() {
    let mut b = vec![0u32; 32 * 2];
    let r = 2usize;
    b[(2 * r - 1) * 16] = 0xdead_beef;
    assert_eq!(integerify(&b, r), 0xdead_beef);
}

#[test]
fn pwxform_v0_5_only_reads_the_sboxes() {
    let mut ctx = new_pwxform_ctx(Version::V0_5);
    let mut s: Vec<u32> = (0..ctx.sbytes as u32 / 4).map(|i| i.wrapping_mul(0x0101_0101)).collect();
    let s_before = s.clone();
    let mut b = [0u32; 16];
    for (i, w) in b.iter_mut().enumerate() {
        *w = (i as u32 + 1).wrapping_mul(0x2545_f491);
    }
    let b_before = b;
    pwxform(&mut b, &mut s, &mut ctx);
    assert_eq!(s, s_before);
    assert_ne!(b, b_before);
    assert_eq!((ctx.s0, ctx.s1, ctx.s2, ctx.w), (0, 512, 1024, 0));
}

#[test]
fn pwxform_v1_0_writes_and_rotates() {
    let mut ctx = new_pwxform_ctx(Version::V1_0);
    assert_eq!((ctx.s0, ctx.s1, ctx.s2, ctx.w), (0, 4096, 8192, 0));
    let mut s = vec![0u32; ctx.sbytes / 4];
    let mut b = [7u32; 16];
    pwxform(&mut b, &mut s, &mut ctx);
    // (S0, S1, S2) <- (S2, S0, S1), and eight entries were written.
    assert_eq!((ctx.s0, ctx.s1, ctx.s2, ctx.w), (8192, 0, 4096, 8));
    assert!(s.iter().any(|&w| w != 0));
    // Three calls bring the windows back.
    pwxform(&mut b, &mut s, &mut ctx);
    pwxform(&mut b, &mut s, &mut ctx);
    assert_eq!((ctx.s0, ctx.s1, ctx.s2, ctx.w), (0, 4096, 8192, 24));
}

#[test]
fn smix2_read_only_pass_keeps_v() {
    let r = 1usize;
    let n = 4u32;
    let mut ctx = new_pwxform_ctx(Version::V1_0);
    let mut s: Vec<u32> = (0..ctx.sbytes as u32 / 4).map(|i| i ^ 0x5a5a_5a5a).collect();
    let mut v: Vec<u32> = (0..32 * n).map(|i| i.wrapping_mul(0x9e37_79b9)).collect();
    let mut b: Vec<u32> = (0..32u32).map(|i| i * 3 + 1).collect();
    let mut x = vec![0u32; 32];
    let v_before = v.clone();
    let b_before = b.clone();
    smix2(&mut b, r, n, 2, &mut v, &mut x, &mut s, &mut ctx);
    assert_eq!(v, v_before);
    assert_ne!(b, b_before);
    // A pass of another length writes back into V.
    smix2(&mut b, r, n, 3, &mut v, &mut x, &mut s, &mut ctx);
    assert_ne!(v, v_before);
}

#[test]
fn smix2_without_iterations_leaves_block() {
    let mut ctx = new_pwxform_ctx(Version::V0_5);
    let ctx_before = ctx;
    let mut s: Vec<u32> = Vec::new();
    let mut v: Vec<u32> = Vec::new();
    let mut b: Vec<u32> = (0..64u32).map(|i| i.wrapping_mul(0x0101_0101) ^ 0x8000_0001).collect();
    let mut x = vec![7u32; 64];
    let b_before = b.clone();
    // No iteration: nothing of V, the S-boxes or n is needed.
    smix2(&mut b, 2, 0, 0, &mut v, &mut x, &mut s, &mut ctx);
    assert_eq!(b, b_before);
    assert!(v.is_empty() && s.is_empty());
    assert_eq!(
        (ctx.s0, ctx.s1, ctx.s2, ctx.w),
        (ctx_before.s0, ctx_before.s1, ctx_before.s2, ctx_before.w)
    );
}

#[test]
fn smix2_leaves_buffer_tails() {
    let r = 1usize;
    let n = 4u32;
    let mut ctx = new_pwxform_ctx(Version::V1_0);
    let mut s: Vec<u32> = (0..ctx.sbytes as u32 / 4).map(|i| i ^ 0x5a5a_5a5a).collect();
    let mut v: Vec<u32> = (0..32 * n + 10).map(|i| i.wrapping_mul(0x9e37_79b9)).collect();
    let mut b: Vec<u32> = (0..40u32).map(|i| i * 3 + 1).collect();
    let mut x = vec![0xdead_beefu32; 45];
    let v_before = v.clone();
    let b_before = b.clone();
    smix2(&mut b, r, n, 3, &mut v, &mut x, &mut s, &mut ctx);
    assert_ne!(&b[..32], &b_before[..32]);
    assert_eq!(&b[32..], &b_before[32..]);
    assert_ne!(&v[..128], &v_before[..128]);
    assert_eq!(&v[128..], &v_before[128..]);
    assert!(x[32..].iter().all(|&w| w == 0xdead_beef));
}

#[test]
fn pwxform_v0_5_other_window_layout_and_longer_buffers() {
    let mut ctx = new_pwxform_ctx(Version::V0_5);
    ctx.s0 = 512;
    ctx.s1 = 0;
    let ctx_before = ctx;
    let mut s: Vec<u32> = (0..3000u32).map(|i| i.wrapping_mul(0x0101_0101) ^ 0x1234).collect();
    let s_before = s.clone();
    let mut b: Vec<u32> = (0..20u32).map(|i| (i + 1).wrapping_mul(0x2545_f491)).collect();
    let b_before = b.clone();
    pwxform(&mut b, &mut s, &mut ctx);
    assert_eq!(s, s_before);
    assert_ne!(&b[..16], &b_before[..16]);
    assert_eq!(&b[16..], &b_before[16..]);
    assert_eq!(
        (ctx.s0, ctx.s1, ctx.s2, ctx.w),
        (ctx_before.s0, ctx_before.s1, ctx_before.s2, ctx_before.w)
    );
}

#[test]
fn pwxform_v1_0_write_set_and_cursor_wrap() {
    let mut ctx = new_pwxform_ctx(Version::V1_0);
    ctx.s0 = 4096;
    ctx.s1 = 0;
    ctx.s2 = 8192;
    ctx.w = 4088;
    let mut s: Vec<u32> = (0..26000u32).map(|i| i.wrapping_mul(0x9e37_79b9)).collect();
    let s_before = s.clone();
    let mut b = [3u32; 16];
    pwxform(&mut b, &mut s, &mut ctx);
    // Windows rotate, and the cursor wraps: (4088 + 8) mod 4096 = 0.
    assert_eq!((ctx.s0, ctx.s1, ctx.s2, ctx.w), (8192, 4096, 0, 0));
    let written = |q: usize| {
        (2 * (4096 + 4088)..2 * (4096 + 4096)).contains(&q) || (2 * 4088..2 * 4096).contains(&q)
    };
    for q in 0..s.len() {
        if !written(q) {
            assert_eq!(s[q], s_before[q], "word {q} outside the write set changed");
        }
    }
    assert!((0..s.len()).any(|q| written(q) && s[q] != s_before[q]));
}
