//! Complement of a packed buffer, and equality of two packed buffers up to
//! a logical symbol count.
//!
//! The complement XORs every word against `COMPLEMENT_MASK`, which flips the
//! high bit of every 2-bit code and so swaps the codes of `A` and `T` and of
//! `C` and `G`. No tier needs the logical length: complementing tail padding
//! is harmless, since padding is never read with correct length bookkeeping.

use vstd::prelude::*;

verus! {

use crate::bits::{
    lane_reduce64,
    lemma_and_xor_distrib,
    lemma_diff_mono,
    lemma_diff_word,
    lemma_diff_word_masked,
    lemma_eq_upto_iff_diff_zero,
    lemma_low_mask_wf,
    lemma_pop_nonzero,
    lemma_pop_zero,
    lemma_reduce_nonzero,
    lemma_reduce_self,
};
use crate::model::{COMPLEMENT_MASK, code_at, comp_code, comp_words, diff_count, eq_upto};

/// Complementing one 2-bit lane: XOR against the alternating mask flips the
/// lane's high bit, which is exactly `comp_code` on the lane's value.
proof fn lemma_comp_lane(w: u64, s: u64)
    by (bit_vector)
    requires
        s <= 62,
        s % 2 == 0,
    ensures
        ((w ^ 0xAAAA_AAAA_AAAA_AAAAu64) >> s) & 3 == ((w >> s) & 3) ^ 2,
        (w >> s) & 3 <= 3,
        comp_code((w >> s) & 3) == ((w >> s) & 3) ^ 2,
{
}

/// Every symbol of the complemented buffer carries the complementary code.
pub proof fn lemma_comp_code_at(words: Seq<u64>, i: int)
    requires
        0 <= i,
        i / 32 < words.len(),
    ensures
        code_at(comp_words(words), i) == comp_code(code_at(words, i)),
{
    let q = i / 32;
    let s = 2 * (i % 32);
    lemma_comp_lane(words[q], s as u64);
    assert(comp_words(words)[q] == words[q] ^ COMPLEMENT_MASK);
}

/// Complement one word at a time.
#[verifier::loop_isolation(false)]
pub fn complement_scalar(bits: &[u64]) -> (r: Vec<u64>)
    ensures
        r@ == comp_words(bits@),
{
    let mut res: Vec<u64> = Vec::new();
    let mut i: usize = 0;
    while i < bits.len()
        invariant
            i <= bits@.len(),
            res@.len() == i as int,
            forall|k: int| 0 <= k < i ==> res@[k] == (bits@[k] ^ COMPLEMENT_MASK),
        decreases bits@.len() - i,
    {
        res.push(bits[i] ^ COMPLEMENT_MASK);
        i = i + 1;
    }
    proof {
        assert(res@ =~= comp_words(bits@));
    }
    res
}

/// Complement four words per step, the remainder one at a time. The result
/// is identical to `complement_scalar`.
#[verifier::loop_isolation(false)]
pub fn complement_wide(bits: &[u64]) -> (r: Vec<u64>)
    ensures
        r@ == comp_words(bits@),
{
    let mut res: Vec<u64> = Vec::new();
    let end_idx = bits.len() / 4;
    let mut blk: usize = 0;
    while blk < end_idx
        invariant
            blk <= end_idx,
            res@.len() == 4 * blk as int,
            forall|k: int| 0 <= k < 4 * blk ==> res@[k] == (bits@[k] ^ COMPLEMENT_MASK),
        decreases end_idx - blk,
    {
        let idx = 4 * blk;
        res.push(bits[idx] ^ COMPLEMENT_MASK);
        res.push(bits[idx + 1] ^ COMPLEMENT_MASK);
        res.push(bits[idx + 2] ^ COMPLEMENT_MASK);
        res.push(bits[idx + 3] ^ COMPLEMENT_MASK);
        blk = blk + 1;
    }
    let mut i: usize = 4 * end_idx;
    while i < bits.len()
        invariant
            4 * end_idx <= i <= bits@.len(),
            res@.len() == i as int,
            forall|k: int| 0 <= k < i ==> res@[k] == (bits@[k] ^ COMPLEMENT_MASK),
        decreases bits@.len() - i,
    {
        res.push(bits[i] ^ COMPLEMENT_MASK);
        i = i + 1;
    }
    proof {
        assert(res@ =~= comp_words(bits@));
    }
    res
}

/// Complement two words per step, the remainder one at a time. The result
/// is identical to `complement_scalar`.
#[verifier::loop_isolation(false)]
pub fn complement_narrow(bits: &[u64]) -> (r: Vec<u64>)
    ensures
        r@ == comp_words(bits@),
{
    let mut res: Vec<u64> = Vec::new();
    let end_idx = bits.len() / 2;
    let mut blk: usize = 0;
    while blk < end_idx
        invariant
            blk <= end_idx,
            res@.len() == 2 * blk as int,
            forall|k: int| 0 <= k < 2 * blk ==> res@[k] == (bits@[k] ^ COMPLEMENT_MASK),
        decreases end_idx - blk,
    {
        let idx = 2 * blk;
        res.push(bits[idx] ^ COMPLEMENT_MASK);
        res.push(bits[idx + 1] ^ COMPLEMENT_MASK);
        blk = blk + 1;
    }
    if bits.len() % 2 > 0 {
        res.push(bits[2 * end_idx] ^ COMPLEMENT_MASK);
    }
    proof {
        assert(res@ =~= comp_words(bits@));
    }
    res
}

/// The symbol-wise complement of a packed buffer: a fresh buffer of the same
/// word count in which every 2-bit code is replaced by its complementary
/// code (`A` with `T`, `C` with `G`), tail padding included.
///
/// Dispatches on the input size: at least four words take the four-word
/// tier, at least two the two-word tier, anything shorter the one-word tier.
/// All tiers return the same buffer, bit for bit.
pub fn complement(bits: &[u64]) -> (r: Vec<u64>)
    ensures
        r@ == comp_words(bits@),
        r@.len() == bits@.len(),
        forall|i: int|
            0 <= i < bits@.len() * 32 ==> code_at(r@, i) == comp_code(code_at(bits@, i)),
{
    let res = if bits.len() >= 4 {
        complement_wide(bits)
    } else if bits.len() >= 2 {
        complement_narrow(bits)
    } else {
        complement_scalar(bits)
    };
    proof {
        assert forall|i: int|
            0 <= i < bits@.len() * 32 implies code_at(res@, i) == comp_code(
            code_at(bits@, i),
        ) by {
            lemma_comp_code_at(bits@, i);
        }
    }
    res
}

/// Are two packed buffers equal over their first `len` symbols? Whole words
/// are compared directly; the final partial word is compared only on the low
/// `2 * (len % 32)` bits, so tail padding never influences the answer.
///
/// The logical length must fit in both buffers. Returns true exactly when
/// every one of the first `len` codes agrees — equivalently, when the
/// Hamming distance over those symbols is zero.
#[verifier::loop_isolation(false)]
pub fn equal(a: &[u64], b: &[u64], len: usize) -> (r: bool)
    requires
        len <= a@.len() * 32,
        len <= b@.len() * 32,
    ensures
        r == eq_upto(a@, b@, len as int),
{
    proof {
        lemma_eq_upto_iff_diff_zero(a@, b@, len as int);
    }
    let end_idx = len / 32;
    let mut i: usize = 0;
    while i < end_idx
        invariant
            i <= end_idx,
            diff_count(a@, b@, 32 * i as int) == 0,
        decreases end_idx - i,
    {
        proof {
            lemma_diff_word(a@, b@, i as int);
        }
        if a[i] != b[i] {
            proof {
                lemma_reduce_nonzero(a@[i as int], b@[i as int]);
                lemma_pop_nonzero(lane_reduce64(a@[i as int] ^ b@[i as int]));
                lemma_diff_mono(a@, b@, 32 * (i as int) + 32, len as int);
            }
            return false;
        }
        proof {
            lemma_reduce_self(a@[i as int]);
            lemma_pop_zero();
        }
        i = i + 1;
    }
    let leftover = len % 32;
    if leftover > 0 {
        proof {
            lemma_low_mask_wf((2 * leftover) as u64);
            lemma_diff_word_masked(a@, b@, end_idx as int, leftover as int);
            lemma_and_xor_distrib(a@[end_idx as int], b@[end_idx as int], ((1u64 << ((2
                * leftover) as u64)) - 1) as u64);
        }
        let mask = (1u64 << ((2 * leftover) as u64)) - 1;
        if (a[end_idx] & mask) != (b[end_idx] & mask) {
            proof {
                lemma_reduce_nonzero(a@[end_idx as int] & mask, b@[end_idx as int] & mask);
                lemma_pop_nonzero(lane_reduce64((a@[end_idx as int] ^ b@[end_idx as int]) & mask));
            }
            return false;
        }
        proof {
            lemma_reduce_self(a@[end_idx as int] & mask);
            lemma_pop_zero();
        }
    }
    true
}

} // verus!
