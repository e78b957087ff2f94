use nuc2bit::bit2nuc::{decode, decode_narrow, decode_wide, pub_decode_lut, LengthError};
use nuc2bit::nuc2bit::{nuc2bit, nuc2bit_lut, nuc2bit_narrow, nuc2bit_wide};

#[test]
fn test_decode_lut() {
    assert_eq!(
        pub_decode_lut(
            &vec![0b1101100011011000110110001101100011011000110110001101100011011000],
            32
        ),
        b"ATCGATCGATCGATCGATCGATCGATCGATCG"
    );
    assert_eq!(pub_decode_lut(&vec![0b11011000], 4), b"ATCG");
}

#[test]
fn test_decode_avx() {
    assert_eq!(
        decode_wide(
            &vec![0b1101100011011000110110001101100011011000110110001101100011011000],
            32
        ),
        b"ATCGATCGATCGATCGATCGATCGATCGATCG"
    );
    assert_eq!(decode_wide(&vec![0b11011000], 4), b"ATCG");
}

#[test]
fn test_decode_sse() {
    assert_eq!(
        decode_narrow(
            &vec![0b1101100011011000110110001101100011011000110110001101100011011000],
            32
        ),
        b"ATCGATCGATCGATCGATCGATCGATCGATCG"
    );
    assert_eq!(decode_narrow(&vec![0b11011000], 4), b"ATCG");
}

#[test]
fn test_roundtrip_canonical() {
    let seq = b"ATCGATCGATCGATCGATCGATCGATCGATCGATCGA";
    let bits = nuc2bit(seq);
    assert_eq!(decode(&bits, seq.len()).unwrap(), seq.to_vec());
}

#[test]
fn test_roundtrip_lowercase_and_u() {
    // lowercase canonicalizes to upper case, U and u to T
    let bits = nuc2bit(b"acgtu");
    assert_eq!(decode(&bits, 5).unwrap(), b"ACGTT".to_vec());
    let bits = nuc2bit(b"UT");
    assert_eq!(decode(&bits, 2).unwrap(), b"TT".to_vec());
}

#[test]
fn test_roundtrip_block_boundaries() {
    // lengths at and around the word and block boundaries
    for len in [1usize, 15, 16, 17, 31, 32, 33, 47, 48, 63, 64, 65, 100] {
        let seq: Vec<u8> = (0..len)
            .map(|i| b"ACGT"[(i * 7 + i / 3) % 4])
            .collect();
        let bits = nuc2bit(&seq);
        assert_eq!(bits.len(), (len + 31) / 32);
        assert_eq!(decode(&bits, len).unwrap(), seq);
    }
}

#[test]
fn test_encoder_tiers_agree() {
    // the three encoder tiers pack identical codes for valid symbols
    for len in [0usize, 5, 16, 21, 32, 37, 64, 95] {
        let seq: Vec<u8> = (0..len)
            .map(|i| b"acgtuACGTU"[(i * 3 + 1) % 10])
            .collect();
        let lut = nuc2bit_lut(&seq);
        let wide = nuc2bit_wide(&seq);
        let narrow = nuc2bit_narrow(&seq);
        let canon = decode(&lut, len).unwrap();
        assert_eq!(decode(&wide, len).unwrap(), canon);
        assert_eq!(decode(&narrow, len).unwrap(), canon);
        assert_eq!(decode(&nuc2bit(&seq), len).unwrap(), canon);
    }
}

#[test]
fn test_decoder_tiers_agree() {
    let bits: Vec<u64> = (0..9u64).map(|i| i.wrapping_mul(0x9E37_79B9_7F4A_7C15)).collect();
    for len in [0usize, 1, 15, 16, 17, 32, 33, 100, 288] {
        let lut = pub_decode_lut(&bits, len);
        assert_eq!(decode_wide(&bits, len), lut);
        assert_eq!(decode_narrow(&bits, len), lut);
        assert_eq!(decode(&bits, len).unwrap(), lut);
    }
}

#[test]
fn test_decode_length_error() {
    assert_eq!(decode(&vec![0b11011000], 33), Err(LengthError));
    assert_eq!(decode(&Vec::new(), 1), Err(LengthError));
    assert_eq!(decode(&Vec::new(), 0).unwrap(), Vec::<u8>::new());
    assert_eq!(decode(&vec![0b11011000], 32).unwrap().len(), 32);
}

#[test]
fn test_encode_capacity() {
    // word count is always ceil(len / 32)
    assert_eq!(nuc2bit(b"").len(), 0);
    assert_eq!(nuc2bit(&vec![b'A'; 32]).len(), 1);
    assert_eq!(nuc2bit(&vec![b'A'; 33]).len(), 2);
}

#[test]
fn test_encode_decode_atcg() {
    // the four-symbol scenario: encode, then decode with length 4
    let bits = nuc2bit(b"ATCG");
    assert_eq!(decode(&bits, 4).unwrap(), b"ATCG".to_vec());
    // and through each encoder tier
    assert_eq!(decode(&nuc2bit_lut(b"ATCG"), 4).unwrap(), b"ATCG".to_vec());
    assert_eq!(nuc2bit_lut(b"ATCG"), vec![0b11011000]);
}

#[test]
fn test_table_tier_unmapped_byte_policy() {
    // the table tier maps a byte outside the symbol set to code 0,
    // which decodes as 'A'; callers wanting rejection check first
    let bits = nuc2bit_lut(b"NCG");
    assert_eq!(decode(&bits, 3).unwrap(), b"ACG".to_vec());
}
