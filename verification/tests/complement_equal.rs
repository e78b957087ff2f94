use nuc2bit::bit2nuc::decode;
use nuc2bit::nuc2bit::nuc2bit;
use nuc2bit::utils::{complement, complement_narrow, complement_scalar, complement_wide, equal};

fn sample_words(n: usize, seed: u64) -> Vec<u64> {
    let mut x = seed;
    (0..n)
        .map(|_| {
            x = x.wrapping_mul(6364136223846793005).wrapping_add(1442695040888963407);
            x
        })
        .collect()
}

#[test]
fn test_complement_involution() {
    // bit for bit, tail padding included
    for n in [0usize, 1, 2, 3, 4, 5, 9, 128] {
        let bits = sample_words(n, 41);
        assert_eq!(complement(&complement(&bits)), bits);
    }
}

#[test]
fn test_complement_symbols() {
    // A and T swap, C and G swap
    let bits = nuc2bit(b"ATCGTTAA");
    let comp = complement(&bits);
    assert_eq!(decode(&comp, 8).unwrap(), b"TAGCAATT".to_vec());
}

#[test]
fn test_complement_tiers_agree() {
    for n in [0usize, 1, 2, 3, 4, 5, 7, 8, 33] {
        let bits = sample_words(n, 43);
        let expect = complement_scalar(&bits);
        assert_eq!(complement_wide(&bits), expect);
        assert_eq!(complement_narrow(&bits), expect);
        assert_eq!(complement(&bits), expect);
    }
}

#[test]
fn test_equal_ignores_tail_padding() {
    // same first 10 symbols, different padding beyond them
    let a = vec![0x000F_FFFF_u64, 77];
    let b = vec![0xABC0_0000_001F_FFFF_u64, 99];
    assert_eq!(equal(&a, &b, 10), true);
    assert_eq!(equal(&a, &b, 11), false);
    // whole-word agreement, then a difference in the second word
    let c = vec![0x000F_FFFF_u64, 77];
    let d = vec![0x000F_FFFF_u64, 76];
    assert_eq!(equal(&c, &d, 32), true);
    assert_eq!(equal(&c, &d, 33), false);
}

#[test]
fn test_equal_basic() {
    let a = sample_words(10, 47);
    let mut b = a.clone();
    assert_eq!(equal(&a, &b, 320), true);
    assert_eq!(equal(&a, &b, 0), true);
    b[9] ^= 0b11 << 62;
    assert_eq!(equal(&a, &b, 319), true);
    assert_eq!(equal(&a, &b, 320), false);
}

#[test]
fn test_equal_matches_hamming() {
    let a = sample_words(6, 53);
    let mut b = a.clone();
    b[2] ^= 0b10 << 20;
    for len in [0usize, 64, 74, 75, 100, 192] {
        assert_eq!(
            equal(&a, &b, len),
            nuc2bit::hamming::hamming(&a, &b, len) == 0
        );
    }
}
