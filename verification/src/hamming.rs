//! Hamming distance at symbol granularity: at how many of the first `len`
//! 2-bit codes two packed buffers differ. Every tier XORs the buffers word
//! by word, folds each 2-bit lane of the XOR to a single "differs" flag, and
//! counts the flags; the final partial word is masked to exactly the
//! remaining symbols.

use vstd::prelude::*;

verus! {

use crate::bits::{
    lane_reduce64,
    lemma_diff_le,
    lemma_diff_word,
    lemma_diff_word_masked,
    lemma_low_mask_wf,
};
use crate::model::diff_count;
use crate::popcount::{byte_counts, word_popcount};

/// Count the differing symbols among the first `len`, one word at a time.
///
/// The logical length must fit in both buffers.
#[verifier::loop_isolation(false)]
pub fn hamming_scalar(a: &[u64], b: &[u64], len: usize) -> (r: usize)
    requires
        len <= a@.len() * 32,
        len <= b@.len() * 32,
    ensures
        r as int == diff_count(a@, b@, len as int),
{
    let mut res: usize = 0;
    let end_idx = len / 32;
    let mut i: usize = 0;
    while i < end_idx
        invariant
            i <= end_idx,
            res as int == diff_count(a@, b@, 32 * i as int),
            res as int <= 32 * i as int,
        decreases end_idx - i,
    {
        let xor = a[i] ^ b[i];
        let reduced = ((xor >> 1) | xor) & 0x5555_5555_5555_5555u64;
        proof {
            lemma_diff_word(a@, b@, i as int);
            lemma_diff_le(a@, b@, 32 * (i as int) + 32);
            assert(reduced == lane_reduce64(xor));
        }
        res = res + (word_popcount(reduced) as usize);
        i = i + 1;
    }
    let leftover = len % 32;
    if leftover > 0 {
        proof {
            lemma_low_mask_wf((2 * leftover) as u64);
            lemma_diff_word_masked(a@, b@, end_idx as int, leftover as int);
            lemma_diff_le(a@, b@, len as int);
        }
        let xor = (a[end_idx] ^ b[end_idx]) & ((1u64 << ((2 * leftover) as u64)) - 1);
        let reduced = ((xor >> 1) | xor) & 0x5555_5555_5555_5555u64;
        res = res + (word_popcount(reduced) as usize);
    }
    res
}

/// Count the differing symbols among the first `len`, four words per step.
///
/// The block loop keeps four independent accumulators, as a vectorized
/// reduction would keep four lanes; leftover whole words and the masked
/// partial word follow one at a time. The result is identical to
/// `hamming_scalar`.
#[verifier::loop_isolation(false)]
pub fn hamming_scalar_fast(a: &[u64], b: &[u64], len: usize) -> (r: usize)
    requires
        len <= a@.len() * 32,
        len <= b@.len() * 32,
    ensures
        r as int == diff_count(a@, b@, len as int),
{
    let mut res0: usize = 0;
    let mut res1: usize = 0;
    let mut res2: usize = 0;
    let mut res3: usize = 0;
    let end = len / 32;
    let end_idx = end / 4;
    let mut idx: usize = 0;
    let mut blk: usize = 0;
    while blk < end_idx
        invariant
            blk <= end_idx,
            idx == 4 * blk,
            res0 as int + res1 as int + res2 as int + res3 as int == diff_count(
                a@,
                b@,
                32 * idx as int,
            ),
            res0 as int + res1 as int + res2 as int + res3 as int <= 32 * idx as int,
        decreases end_idx - blk,
    {
        proof {
            lemma_diff_word(a@, b@, idx as int);
            lemma_diff_word(a@, b@, idx as int + 1);
            lemma_diff_word(a@, b@, idx as int + 2);
            lemma_diff_word(a@, b@, idx as int + 3);
            lemma_diff_le(a@, b@, 32 * (idx as int));
            lemma_diff_le(a@, b@, 32 * (idx as int) + 32);
            lemma_diff_le(a@, b@, 32 * (idx as int) + 64);
            lemma_diff_le(a@, b@, 32 * (idx as int) + 96);
            lemma_diff_le(a@, b@, 32 * (idx as int) + 128);
        }
        let xor0 = a[idx] ^ b[idx];
        let red0 = ((xor0 >> 1) | xor0) & 0x5555_5555_5555_5555u64;
        res0 = res0 + (word_popcount(red0) as usize);
        let xor1 = a[idx + 1] ^ b[idx + 1];
        let red1 = ((xor1 >> 1) | xor1) & 0x5555_5555_5555_5555u64;
        res1 = res1 + (word_popcount(red1) as usize);
        let xor2 = a[idx + 2] ^ b[idx + 2];
        let red2 = ((xor2 >> 1) | xor2) & 0x5555_5555_5555_5555u64;
        res2 = res2 + (word_popcount(red2) as usize);
        let xor3 = a[idx + 3] ^ b[idx + 3];
        let red3 = ((xor3 >> 1) | xor3) & 0x5555_5555_5555_5555u64;
        res3 = res3 + (word_popcount(red3) as usize);
        idx = idx + 4;
        blk = blk + 1;
    }
    let mut i: usize = idx;
    while i < end
        invariant
            4 * end_idx <= i <= end,
            res0 as int + res1 as int + res2 as int + res3 as int == diff_count(
                a@,
                b@,
                32 * i as int,
            ),
            res0 as int + res1 as int + res2 as int + res3 as int <= 32 * i as int,
        decreases end - i,
    {
        let xor = a[i] ^ b[i];
        let reduced = ((xor >> 1) | xor) & 0x5555_5555_5555_5555u64;
        proof {
            lemma_diff_word(a@, b@, i as int);
            lemma_diff_le(a@, b@, 32 * (i as int) + 32);
        }
        res0 = res0 + (word_popcount(reduced) as usize);
        i = i + 1;
    }
    let leftover = len % 32;
    if leftover > 0 {
        proof {
            lemma_low_mask_wf((2 * leftover) as u64);
            lemma_diff_word_masked(a@, b@, end as int, leftover as int);
            lemma_diff_le(a@, b@, len as int);
        }
        let xor = (a[end] ^ b[end]) & ((1u64 << ((2 * leftover) as u64)) - 1);
        let reduced = ((xor >> 1) | xor) & 0x5555_5555_5555_5555u64;
        res1 = res1 + (word_popcount(reduced) as usize);
    }
    (res0 + res1) + (res2 + res3)
}

/// The empty accumulator has every lane clear.
proof fn lemma_zero_lanes()
    by (bit_vector)
    ensures
        0u64 & 0xFF == 0,
        (0u64 >> 8) & 0xFF == 0,
        (0u64 >> 16) & 0xFF == 0,
        (0u64 >> 24) & 0xFF == 0,
        (0u64 >> 32) & 0xFF == 0,
        (0u64 >> 40) & 0xFF == 0,
        (0u64 >> 48) & 0xFF == 0,
        (0u64 >> 56) & 0xFF == 0,
        0u64 >> 56 < 256,
{
}

/// Adding two lane words whose lane-wise sums stay below 256 adds every
/// lane independently: no carry crosses a lane boundary and the 64-bit add
/// cannot wrap.
proof fn lemma_lane_add(x: u64, y: u64)
    by (bit_vector)
    requires
        (x & 0xFF) + (y & 0xFF) < 256,
        ((x >> 8) & 0xFF) + ((y >> 8) & 0xFF) < 256,
        ((x >> 16) & 0xFF) + ((y >> 16) & 0xFF) < 256,
        ((x >> 24) & 0xFF) + ((y >> 24) & 0xFF) < 256,
        ((x >> 32) & 0xFF) + ((y >> 32) & 0xFF) < 256,
        ((x >> 40) & 0xFF) + ((y >> 40) & 0xFF) < 256,
        ((x >> 48) & 0xFF) + ((y >> 48) & 0xFF) < 256,
        ((x >> 56) & 0xFF) + ((y >> 56) & 0xFF) < 256,
        x >> 56 < 256,
        y >> 56 < 256,
    ensures
        x + y <= 0xFFFF_FFFF_FFFF_FFFF,
        ((x + y) as u64) & 0xFF == (x & 0xFF) + (y & 0xFF),
        (((x + y) as u64) >> 8) & 0xFF == ((x >> 8) & 0xFF) + ((y >> 8) & 0xFF),
        (((x + y) as u64) >> 16) & 0xFF == ((x >> 16) & 0xFF) + ((y >> 16) & 0xFF),
        (((x + y) as u64) >> 24) & 0xFF == ((x >> 24) & 0xFF) + ((y >> 24) & 0xFF),
        (((x + y) as u64) >> 32) & 0xFF == ((x >> 32) & 0xFF) + ((y >> 32) & 0xFF),
        (((x + y) as u64) >> 40) & 0xFF == ((x >> 40) & 0xFF) + ((y >> 40) & 0xFF),
        (((x + y) as u64) >> 48) & 0xFF == ((x >> 48) & 0xFF) + ((y >> 48) & 0xFF),
        (((x + y) as u64) >> 56) & 0xFF == ((x >> 56) & 0xFF) + ((y >> 56) & 0xFF),
        ((x + y) as u64) >> 56 < 256,
{
}

/// Count the differing symbols among the first `len` with eight byte-wide
/// lane accumulators, eight words per block.
///
/// Each word pair's lane reduction contributes its eight per-byte counts
/// (at most 8 each) to the eight 8-bit lanes of one accumulator word, so a
/// lane holds at most 64 after a block of 8 and can never wrap: the same
/// reduction-interval discipline as the lane popcount. Lanes are extracted
/// and summed after every block; leftover whole words and the masked
/// partial word follow one at a time. The result is identical to
/// `hamming_scalar`.
#[verifier::loop_isolation(false)]
pub fn hamming_lanes(a: &[u64], b: &[u64], len: usize) -> (r: usize)
    requires
        len <= a@.len() * 32,
        len <= b@.len() * 32,
    ensures
        r as int == diff_count(a@, b@, len as int),
{
    let mut res: usize = 0;
    let end = len / 32;
    let blocks = end / 8;
    let mut blk: usize = 0;
    let mut idx: usize = 0;
    while blk < blocks
        invariant
            blk <= blocks,
            idx == 8 * blk,
            res as int == diff_count(a@, b@, 32 * idx as int),
            res as int <= 32 * idx as int,
        decreases blocks - blk,
    {
        let mut acc: u64 = 0;
        let mut t: usize = 0;
        proof {
            lemma_zero_lanes();
        }
        while t < 8
            invariant
                t <= 8,
                acc & 0xFF <= 8 * t,
                (acc >> 8) & 0xFF <= 8 * t,
                (acc >> 16) & 0xFF <= 8 * t,
                (acc >> 24) & 0xFF <= 8 * t,
                (acc >> 32) & 0xFF <= 8 * t,
                (acc >> 40) & 0xFF <= 8 * t,
                (acc >> 48) & 0xFF <= 8 * t,
                (acc >> 56) & 0xFF <= 8 * t,
                acc >> 56 < 256,
                (acc & 0xFF) + ((acc >> 8) & 0xFF) + ((acc >> 16) & 0xFF) + ((acc >> 24) & 0xFF)
                    + ((acc >> 32) & 0xFF) + ((acc >> 40) & 0xFF) + ((acc >> 48) & 0xFF) + ((acc
                    >> 56) & 0xFF) == diff_count(a@, b@, 32 * (idx + t) as int) - diff_count(
                    a@,
                    b@,
                    32 * idx as int,
                ),
            decreases 8 - t,
        {
            let xor = a[idx + t] ^ b[idx + t];
            let reduced = ((xor >> 1) | xor) & 0x5555_5555_5555_5555u64;
            let c = byte_counts(reduced);
            proof {
                lemma_lane_add(acc, c);
                lemma_diff_word(a@, b@, idx as int + t as int);
            }
            acc = acc + c;
            t = t + 1;
        }
        let h = (acc & 0xFF) + ((acc >> 8) & 0xFF) + ((acc >> 16) & 0xFF) + ((acc >> 24) & 0xFF) + (
        (acc >> 32) & 0xFF) + ((acc >> 40) & 0xFF) + ((acc >> 48) & 0xFF) + ((acc >> 56) & 0xFF);
        proof {
            lemma_diff_le(a@, b@, 32 * (idx as int) + 256);
        }
        res = res + (h as usize);
        idx = idx + 8;
        blk = blk + 1;
    }
    let mut i: usize = idx;
    while i < end
        invariant
            8 * blocks <= i <= end,
            res as int == diff_count(a@, b@, 32 * i as int),
            res as int <= 32 * i as int,
        decreases end - i,
    {
        let xor = a[i] ^ b[i];
        let reduced = ((xor >> 1) | xor) & 0x5555_5555_5555_5555u64;
        proof {
            lemma_diff_word(a@, b@, i as int);
            lemma_diff_le(a@, b@, 32 * (i as int) + 32);
        }
        res = res + (word_popcount(reduced) as usize);
        i = i + 1;
    }
    let leftover = len % 32;
    if leftover > 0 {
        proof {
            lemma_low_mask_wf((2 * leftover) as u64);
            lemma_diff_word_masked(a@, b@, end as int, leftover as int);
            lemma_diff_le(a@, b@, len as int);
        }
        let xor = (a[end] ^ b[end]) & ((1u64 << ((2 * leftover) as u64)) - 1);
        let reduced = ((xor >> 1) | xor) & 0x5555_5555_5555_5555u64;
        res = res + (word_popcount(reduced) as usize);
    }
    res
}

/// The Hamming distance between two packed buffers over their first `len`
/// symbols: the number of 2-bit code positions at which they differ.
///
/// Dispatches on the input size: short buffers take the one-word-at-a-time
/// tier, longer ones the byte-lane block tier. Every tier returns exactly
/// the number of differing positions, so the choice never shows in the
/// result.
pub fn hamming(a: &[u64], b: &[u64], len: usize) -> (r: usize)
    requires
        len <= a@.len() * 32,
        len <= b@.len() * 32,
    ensures
        r as int == diff_count(a@, b@, len as int),
{
    if len / 64 <= 8 {
        return hamming_scalar(a, b, len);
    }
    hamming_lanes(a, b, len)
}

} // verus!
