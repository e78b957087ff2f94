use nuc2bit::hamming::{hamming, hamming_lanes, hamming_scalar, hamming_scalar_fast};
use nuc2bit::nuc2bit::nuc2bit;
use nuc2bit::popcount::{popcount, popcount_lanes, popcount_scalar, popcount_scalar_fast};
use nuc2bit::utils::complement;

#[test]
fn test_popcount_scalar() {
    assert_eq!(popcount_scalar(&vec![0x0101010101010101; 128], 8192), 1024);
    assert_eq!(popcount_scalar_fast(&vec![0x0101010101010101; 128], 8192), 1024);
    assert_eq!(popcount_scalar(&vec![0b010101], 6), 3);
    assert_eq!(popcount_scalar_fast(&vec![0b010101], 6), 3);
}

#[test]
fn test_popcount_avx() {
    assert_eq!(popcount_lanes(&vec![0x0101010101010101; 128], 8192), 1024);
    assert_eq!(popcount_lanes(&vec![0b010101], 6), 3);
}

#[test]
fn test_popcount_sse() {
    assert_eq!(popcount(&vec![0x0101010101010101; 128], 8192), 1024);
    assert_eq!(popcount(&vec![0b010101], 6), 3);
}

#[test]
fn test_hamming_scalar() {
    assert_eq!(
        hamming_scalar(
            &vec![0x0101010101010101; 128],
            &vec![0x0101010101010100; 128],
            4096
        ),
        128
    );
    assert_eq!(
        hamming_scalar_fast(
            &vec![0x0101010101010101; 128],
            &vec![0x0101010101010100; 128],
            4096
        ),
        128
    );
    assert_eq!(hamming_scalar(&vec![0b010101], &vec![0b010100], 3), 1);
    assert_eq!(hamming_scalar_fast(&vec![0b010101], &vec![0b010100], 3), 1);
}

#[test]
fn test_hamming_avx() {
    assert_eq!(
        hamming_lanes(
            &vec![0x0101010101010101; 128],
            &vec![0x0101010101010100; 128],
            4096
        ),
        128
    );
    assert_eq!(hamming_lanes(&vec![0b010101], &vec![0b010100], 3), 1);
}

#[test]
fn test_hamming_sse() {
    assert_eq!(
        hamming(
            &vec![0x0101010101010101; 128],
            &vec![0x0101010101010100; 128],
            4096
        ),
        128
    );
    assert_eq!(hamming(&vec![0b010101], &vec![0b010100], 3), 1);
}

fn sample_words(n: usize, seed: u64) -> Vec<u64> {
    let mut x = seed;
    (0..n)
        .map(|_| {
            x = x.wrapping_mul(6364136223846793005).wrapping_add(1442695040888963407);
            x
        })
        .collect()
}

#[test]
fn test_popcount_tiers_agree() {
    let bits = sample_words(80, 3);
    for len in [0usize, 1, 6, 63, 64, 65, 512, 513, 1000, 4096, 5119, 5120] {
        let expect = popcount_scalar(&bits, len);
        assert_eq!(popcount_scalar_fast(&bits, len), expect);
        assert_eq!(popcount_lanes(&bits, len), expect);
        assert_eq!(popcount(&bits, len), expect);
    }
}

#[test]
fn test_popcount_additivity() {
    // word-aligned split of one buffer
    let bits = sample_words(128, 7);
    assert_eq!(
        popcount(&bits, 8192),
        popcount(&bits, 4096) + popcount(&bits[64..], 4096)
    );
    // split of a symbol sequence at any symbol boundary: re-encode each part
    let seq: Vec<u8> = (0..100).map(|i| b"ACGT"[(i * 5 + 2) % 4]).collect();
    let whole = nuc2bit(&seq);
    for k in [1usize, 7, 32, 33, 50, 99] {
        let first = nuc2bit(&seq[..k]);
        let rest = nuc2bit(&seq[k..]);
        assert_eq!(
            popcount(&whole, 2 * seq.len()),
            popcount(&first, 2 * k) + popcount(&rest, 2 * (seq.len() - k))
        );
    }
}

#[test]
fn test_hamming_tiers_agree() {
    let a = sample_words(80, 11);
    let mut b = a.clone();
    for i in (0..80).step_by(3) {
        b[i] ^= 1u64 << (i % 60);
    }
    for len in [0usize, 1, 3, 31, 32, 33, 256, 257, 1000, 2048, 2560, 2549] {
        let expect = hamming_scalar(&a, &b, len);
        assert_eq!(hamming_scalar_fast(&a, &b, len), expect);
        assert_eq!(hamming_lanes(&a, &b, len), expect);
        assert_eq!(hamming(&a, &b, len), expect);
    }
}

#[test]
fn test_hamming_identity_and_bounds() {
    let a = sample_words(40, 17);
    let b = sample_words(40, 23);
    for len in [0usize, 1, 31, 32, 500, 1280] {
        assert_eq!(hamming(&a, &a, len), 0);
        assert!(hamming(&a, &b, len) <= len);
    }
}

#[test]
fn test_hamming_of_complements() {
    let a = sample_words(40, 29);
    let b = sample_words(40, 31);
    let ca = complement(&a);
    let cb = complement(&b);
    for len in [0usize, 5, 32, 777, 1280] {
        assert_eq!(hamming(&ca, &cb, len), hamming(&a, &b, len));
    }
}

#[test]
fn test_logical_length_masks_tail() {
    // bits beyond the logical length are never counted
    assert_eq!(popcount(&vec![u64::MAX], 3), 3);
    assert_eq!(popcount(&vec![u64::MAX; 2], 64), 64);
    assert_eq!(popcount(&vec![0u64], 0), 0);
    // symbols beyond the logical count are never compared
    let a = vec![0x0000_0000_0000_00FFu64];
    let b = vec![0xFFFF_FFFF_0000_00FFu64];
    assert_eq!(hamming(&a, &b, 4), 0);
    assert_eq!(hamming(&a, &b, 32), 16);
}
