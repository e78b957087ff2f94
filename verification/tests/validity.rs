use nuc2bit::check::{check, check_narrow, check_scalar, check_wide, pub_check_scalar};

#[test]
fn test_check_scalar() {
    assert_eq!(pub_check_scalar(b"AUCGATCGATCGATCGATCGATCGATCGATCG"), true);
    assert_eq!(pub_check_scalar(b"AUCGATCGATCGATCGATCGATCGATCGATCGb"), false);
    assert_eq!(pub_check_scalar(b"BBBBBBBBBBBBBBBBBBBBBBBBBBBBBBBBBBBBBB"), false);
    assert_eq!(pub_check_scalar(b"ATUCG"), true);
    assert_eq!(pub_check_scalar(b"ATUCG "), false);
}

#[test]
fn test_check_avx() {
    assert_eq!(check_wide(b"AUCGATCGATCGATCGATCGATCGATCGATCG"), true);
    assert_eq!(check_wide(b"AUCGATCGATCGATCGATCGATCGATCGATCGb"), false);
    assert_eq!(check_wide(b"BBBBBBBBBBBBBBBBBBBBBBBBBBBBBBBBBBBBBB"), false);
    assert_eq!(check_wide(b"ATUCG"), true);
    assert_eq!(check_wide(b"ATUCG "), false);
}

#[test]
fn test_check_sse() {
    assert_eq!(check_narrow(b"AUCGATCGATCGATCGATCGATCGATCGATCG"), true);
    assert_eq!(check_narrow(b"AUCGATCGATCGATCGATCGATCGATCGATCGb"), false);
    assert_eq!(check_narrow(b"BBBBBBBBBBBBBBBBBBBBBBBBBBBBBBBBBBBBBB"), false);
    assert_eq!(check_narrow(b"ATUCG"), true);
    assert_eq!(check_narrow(b"ATUCG "), false);
}

#[test]
fn test_check_boundaries() {
    // empty is vacuously valid
    assert_eq!(check(b""), true);
    assert_eq!(check(b"ATCG"), true);
    assert_eq!(check(b"ATCGx"), false);
    // one block minus one character, single invalid trailing byte:
    // exercises the tail handling behind a fully valid block
    let mut seq = vec![b'G'; 31];
    seq[30] = b'!';
    assert_eq!(check(&seq), false);
    assert_eq!(check(&vec![b'G'; 31]), true);
}

#[test]
fn test_check_tiers_agree() {
    let cases: Vec<Vec<u8>> = vec![
        Vec::new(),
        b"acgtu".to_vec(),
        vec![b't'; 16],
        vec![b'u'; 17],
        vec![b'C'; 32],
        vec![b'g'; 33],
        vec![b'A'; 100],
        {
            let mut s = vec![b'A'; 64];
            s[63] = 0;
            s
        },
        {
            let mut s = vec![b'A'; 64];
            s[0] = 200;
            s
        },
        {
            let mut s = vec![b'A'; 40];
            s[35] = b'N';
            s
        },
    ];
    for seq in cases {
        let expect = check_scalar(&seq);
        assert_eq!(check_wide(&seq), expect);
        assert_eq!(check_narrow(&seq), expect);
        assert_eq!(check(&seq), expect);
    }
}

#[test]
fn test_check_every_byte() {
    // exactly the ten symbol bytes pass, every other byte value fails
    for b in 0..=255u8 {
        let expect = matches!(b, b'A' | b'C' | b'G' | b'T' | b'U' | b'a' | b'c' | b'g' | b't' | b'u');
        assert_eq!(check(&[b]), expect, "byte {}", b);
        // and inside a block of valid symbols
        let mut seq = vec![b'A'; 32];
        seq[17] = b;
        assert_eq!(check(&seq), expect, "byte {} in block", b);
    }
}
