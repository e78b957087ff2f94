//! The laws the library keeps, stated over the model and proved once for
//! all inputs: the encode/decode round trip, the involution of the
//! complement, the additivity of the population count under a split, and
//! the identity, bound and complement-invariance of the Hamming distance.

use vstd::prelude::*;

verus! {

use crate::bits::{
    lemma_count_bits_split,
    lemma_diff_le,
    lemma_index64,
    lemma_lane_le3,
};
use crate::model::{
    COMPLEMENT_MASK,
    UC_A,
    UC_C,
    UC_G,
    UC_T,
    all_nuc,
    bit_at,
    canonical_sym,
    code_at,
    code_of,
    comp_words,
    count_bits,
    count_bits_range,
    decoded,
    diff_count,
};
use crate::utils::lemma_comp_code_at;

/// Round trip: a packed buffer that carries the code of every symbol of a
/// recognized-symbol sequence decodes, over the sequence's length, to the
/// sequence's canonical form (upper case, `U` rewritten to `T`). Any
/// encoder tier's output satisfies the code premise, so decoding what any
/// tier encoded gives the canonical sequence back.
pub proof fn lemma_encode_decode_roundtrip(nuc: Seq<u8>, words: Seq<u64>)
    requires
        all_nuc(nuc),
        forall|i: int| 0 <= i < nuc.len() ==> code_at(words, i) == code_of(nuc[i]),
    ensures
        decoded(words, nuc.len() as int) == nuc.map(|i: int, b: u8| canonical_sym(b)),
{
    assert(decoded(words, nuc.len() as int) =~= nuc.map(|i: int, b: u8| canonical_sym(b)));
}

/// Round trip on already-canonical sequences: over upper-case `A C G T` the
/// round trip reproduces the input exactly.
pub proof fn lemma_roundtrip_canonical(nuc: Seq<u8>, words: Seq<u64>)
    requires
        forall|i: int|
            0 <= i < nuc.len() ==> (nuc[i] == UC_A || nuc[i] == UC_C || nuc[i] == UC_G || nuc[i]
                == UC_T),
        forall|i: int| 0 <= i < nuc.len() ==> code_at(words, i) == code_of(nuc[i]),
    ensures
        decoded(words, nuc.len() as int) == nuc,
{
    assert(decoded(words, nuc.len() as int) =~= nuc);
}

/// Complementing twice is the identity, bit for bit, tail padding included:
/// the complement is an XOR against a fixed mask and XOR is self-inverse.
pub proof fn lemma_complement_involution(x: Seq<u64>)
    ensures
        comp_words(comp_words(x)) == x,
{
    assert forall|i: int| 0 <= i < x.len() implies comp_words(comp_words(x))[i] == x[i] by {
        let w = x[i];
        assert((w ^ 0xAAAA_AAAA_AAAA_AAAAu64) ^ 0xAAAA_AAAA_AAAA_AAAAu64 == w) by (bit_vector);
        assert(COMPLEMENT_MASK == 0xAAAA_AAAA_AAAA_AAAAu64);
    }
    assert(comp_words(comp_words(x)) =~= x);
}

/// Popcount additivity at any split point: the count over the first `len`
/// bits is the count over the first `k` plus the count over bits `k..len`.
pub proof fn lemma_popcount_additive(words: Seq<u64>, k: int, len: int)
    requires
        0 <= k <= len,
    ensures
        count_bits(words, len) == count_bits(words, k) + count_bits_range(words, k, len),
{
    lemma_count_bits_split(words, k, len);
}

/// The bits of a buffer's word-aligned suffix are the buffer's own bits,
/// shifted down by whole words.
proof fn lemma_count_bits_skip(words: Seq<u64>, q: int, m: int)
    requires
        0 <= q <= words.len(),
        0 <= m <= (words.len() - q) * 64,
    ensures
        count_bits(words.skip(q), m) == count_bits_range(words, 64 * q, 64 * q + m),
    decreases m,
{
    if m > 0 {
        lemma_count_bits_skip(words, q, m - 1);
        lemma_index64((m - 1) / 64, (m - 1) % 64);
        lemma_index64(q + (m - 1) / 64, (m - 1) % 64);
        assert(words.skip(q)[(m - 1) / 64] == words[q + (m - 1) / 64]);
        assert(bit_at(words.skip(q), m - 1) == bit_at(words, 64 * q + (m - 1)));
    }
}

/// Popcount additivity at a word boundary, with the rest taken as a packed
/// buffer of its own: splitting off the first `q` words splits the count.
pub proof fn lemma_popcount_split_buffer(words: Seq<u64>, q: int, len: int)
    requires
        0 <= q <= words.len(),
        64 * q <= len <= words.len() * 64,
    ensures
        count_bits(words, len) == count_bits(words, 64 * q) + count_bits(
            words.skip(q),
            len - 64 * q,
        ),
{
    lemma_count_bits_split(words, 64 * q, len);
    lemma_count_bits_skip(words, q, len - 64 * q);
}

/// A buffer is at Hamming distance zero from itself, over any length.
pub proof fn lemma_hamming_self(a: Seq<u64>, len: int)
    ensures
        diff_count(a, a, len) == 0,
    decreases len,
{
    if len > 0 {
        lemma_hamming_self(a, len - 1);
    }
}

/// The Hamming distance never exceeds the number of symbols compared.
pub proof fn lemma_hamming_le_len(a: Seq<u64>, b: Seq<u64>, len: int)
    requires
        0 <= len,
    ensures
        0 <= diff_count(a, b, len) <= len,
{
    lemma_diff_le(a, b, len);
}

/// Complementing both buffers leaves their Hamming distance unchanged: the
/// complement maps each code bijectively, so two positions differ after
/// complementing exactly when they differed before.
pub proof fn lemma_hamming_complement(a: Seq<u64>, b: Seq<u64>, len: int)
    requires
        0 <= len,
        len <= a.len() * 32,
        len <= b.len() * 32,
    ensures
        diff_count(comp_words(a), comp_words(b), len) == diff_count(a, b, len),
    decreases len,
{
    if len > 0 {
        lemma_hamming_complement(a, b, len - 1);
        let i = len - 1;
        lemma_comp_code_at(a, i);
        lemma_comp_code_at(b, i);
        lemma_lane_le3(a[i / 32], (2 * (i % 32)) as u64);
        lemma_lane_le3(b[i / 32], (2 * (i % 32)) as u64);
    }
}

} // verus!
