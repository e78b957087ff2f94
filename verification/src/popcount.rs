//! Population count over a packed buffer, restricted to a logical bit
//! length: only the first `len` bits are counted, and the final partial word
//! is masked down to exactly the remaining bits before counting.
//!
//! Every tier builds on one verified per-word count that reduces the word a
//! nibble at a time. The word tier takes one word per step, the four-word
//! tier unrolls by four, and the lane tier accumulates per-byte counts in
//! eight 8-bit lanes of a single accumulator word, reducing the lanes to
//! the running total once per eight-word block — before any lane can wrap.

use vstd::prelude::*;

verus! {

use crate::bits::{
    bit64,
    lemma_count_bits_le,
    lemma_count_bits_word,
    lemma_count_bits_extend,
    lemma_low_mask_wf,
    lemma_pop_below_bound,
    lemma_pop_below_zero_high,
    lemma_pop_mask,
};
use crate::model::{count_bits, pop64, pop_below};

/// The four bits of the nibble at bit offset `s` of `w`, read back as bits
/// of `w` itself.
proof fn lemma_nibble_bits(w: u64, s: u64)
    by (bit_vector)
    requires
        s <= 60,
    ensures
        ((w >> s) & 0xF) & 1 == (w >> s) & 1,
        (((w >> s) & 0xF) >> 1) & 1 == (w >> ((s + 1) as u64)) & 1,
        (((w >> s) & 0xF) >> 2) & 1 == (w >> ((s + 2) as u64)) & 1,
        (((w >> s) & 0xF) >> 3) & 1 == (w >> ((s + 3) as u64)) & 1,
        ((w >> s) & 0xF) & 1 <= 1,
        (((w >> s) & 0xF) >> 1) & 1 <= 1,
        (((w >> s) & 0xF) >> 2) & 1 <= 1,
        (((w >> s) & 0xF) >> 3) & 1 <= 1,
{
}

/// Summing the four bits of the nibble at offset `s` advances the low-`s`
/// count of `w` by four positions.
proof fn lemma_nibble_pop(w: u64, s: int)
    requires
        0 <= s,
        s + 4 <= 64,
    ensures
        pop_below(w, s + 4) == pop_below(w, s) + (((w >> (s as u64)) & 0xF) & 1) + ((((w >> (
            s as u64)) & 0xF) >> 1) & 1) + ((((w >> (s as u64)) & 0xF) >> 2) & 1) + ((((w >> (
            s as u64)) & 0xF) >> 3) & 1),
        (((w >> (s as u64)) & 0xF) & 1) <= 1,
        ((((w >> (s as u64)) & 0xF) >> 1) & 1) <= 1,
        ((((w >> (s as u64)) & 0xF) >> 2) & 1) <= 1,
        ((((w >> (s as u64)) & 0xF) >> 3) & 1) <= 1,
{
    let su = s as u64;
    lemma_nibble_bits(w, su);
    assert(bit64(w, s) == (w >> su) & 1);
    assert(bit64(w, s + 1) == (w >> ((su + 1) as u64)) & 1);
    assert(bit64(w, s + 2) == (w >> ((su + 2) as u64)) & 1);
    assert(bit64(w, s + 3) == (w >> ((su + 3) as u64)) & 1);
    assert(pop_below(w, s + 4) == pop_below(w, s + 3) + bit64(w, s + 3) as int);
    assert(pop_below(w, s + 3) == pop_below(w, s + 2) + bit64(w, s + 2) as int);
    assert(pop_below(w, s + 2) == pop_below(w, s + 1) + bit64(w, s + 1) as int);
    assert(pop_below(w, s + 1) == pop_below(w, s) + bit64(w, s) as int);
}

/// Population count of one word, a nibble at a time.
pub fn word_popcount(w: u64) -> (c: u32)
    ensures
        c as int == pop64(w),
        c <= 64,
{
    let mut c: u32 = 0;
    let mut i: usize = 0;
    while i < 16
        invariant
            i <= 16,
            c as int == pop_below(w, 4 * i as int),
            c <= 4 * i,
        decreases 16 - i,
    {
        let s: u64 = (i as u64) * 4;
        let nib = (w >> s) & 0xF;
        proof {
            lemma_nibble_pop(w, 4 * i as int);
        }
        let cnt: u64 = (nib & 1) + ((nib >> 1) & 1) + ((nib >> 2) & 1) + ((nib >> 3) & 1);
        c = c + (cnt as u32);
        i = i + 1;
    }
    proof {
        lemma_pop_below_bound(w, 64);
    }
    c
}

/// Bit `j` of the byte at offset `s` of `w`, read back as a bit of `w`.
proof fn lemma_byte_bits(w: u64, s: u64, j: u64)
    by (bit_vector)
    requires
        s <= 56,
        s % 8 == 0,
        j < 64,
    ensures
        j < 8 ==> (((w >> s) & 0xFF) >> j) & 1 == (w >> ((s + j) as u64)) & 1,
        j >= 8 ==> (((w >> s) & 0xFF) >> j) & 1 == 0,
{
}

/// Counting one more byte of a word advances its low-bit count by the
/// byte's own population count.
proof fn lemma_pop_byte_partial(w: u64, s: int, k: int)
    requires
        0 <= s,
        s % 8 == 0,
        s + 8 <= 64,
        0 <= k <= 8,
    ensures
        pop_below(w, s + k) == pop_below(w, s) + pop_below(((w >> (s as u64)) & 0xFF), k),
    decreases k,
{
    if k > 0 {
        lemma_pop_byte_partial(w, s, k - 1);
        lemma_byte_bits(w, s as u64, (k - 1) as u64);
        assert(bit64(w, s + k - 1) == (w >> ((s + k - 1) as u64)) & 1);
        assert(bit64(((w >> (s as u64)) & 0xFF), k - 1) == (((w >> (s as u64)) & 0xFF) >> ((k
            - 1) as u64)) & 1);
    }
}

/// The population count of the byte at offset `s` of `w` is the count of
/// the corresponding eight bits of `w`.
proof fn lemma_pop_byte(w: u64, s: int)
    requires
        0 <= s,
        s % 8 == 0,
        s + 8 <= 64,
    ensures
        pop64(((w >> (s as u64)) & 0xFF)) == pop_below(w, s + 8) - pop_below(w, s),
        pop64(((w >> (s as u64)) & 0xFF)) <= 8,
{
    let byte = ((w >> (s as u64)) & 0xFF);
    lemma_pop_byte_partial(w, s, 8);
    assert forall|j: int| 8 <= j < 64 implies bit64(byte, j) == 0 by {
        lemma_byte_bits(w, s as u64, j as u64);
    }
    lemma_pop_below_zero_high(byte, 8, 64);
    lemma_pop_below_bound(byte, 8);
}

/// Eight byte-sized values assembled into the eight lanes of one word read
/// back unchanged.
proof fn lemma_lane_pack(
    v0: u64,
    v1: u64,
    v2: u64,
    v3: u64,
    v4: u64,
    v5: u64,
    v6: u64,
    v7: u64,
)
    by (bit_vector)
    requires
        v0 < 256,
        v1 < 256,
        v2 < 256,
        v3 < 256,
        v4 < 256,
        v5 < 256,
        v6 < 256,
        v7 < 256,
    ensures
        (v0 | (v1 << 8) | (v2 << 16) | (v3 << 24) | (v4 << 32) | (v5 << 40) | (v6 << 48) | (v7
            << 56)) & 0xFF == v0,
        ((v0 | (v1 << 8) | (v2 << 16) | (v3 << 24) | (v4 << 32) | (v5 << 40) | (v6 << 48) | (v7
            << 56)) >> 8) & 0xFF == v1,
        ((v0 | (v1 << 8) | (v2 << 16) | (v3 << 24) | (v4 << 32) | (v5 << 40) | (v6 << 48) | (v7
            << 56)) >> 16) & 0xFF == v2,
        ((v0 | (v1 << 8) | (v2 << 16) | (v3 << 24) | (v4 << 32) | (v5 << 40) | (v6 << 48) | (v7
            << 56)) >> 24) & 0xFF == v3,
        ((v0 | (v1 << 8) | (v2 << 16) | (v3 << 24) | (v4 << 32) | (v5 << 40) | (v6 << 48) | (v7
            << 56)) >> 32) & 0xFF == v4,
        ((v0 | (v1 << 8) | (v2 << 16) | (v3 << 24) | (v4 << 32) | (v5 << 40) | (v6 << 48) | (v7
            << 56)) >> 40) & 0xFF == v5,
        ((v0 | (v1 << 8) | (v2 << 16) | (v3 << 24) | (v4 << 32) | (v5 << 40) | (v6 << 48) | (v7
            << 56)) >> 48) & 0xFF == v6,
        ((v0 | (v1 << 8) | (v2 << 16) | (v3 << 24) | (v4 << 32) | (v5 << 40) | (v6 << 48) | (v7
            << 56)) >> 56) & 0xFF == v7,
{
}

/// Adding two lane words whose lane-wise sums stay below 256 adds every
/// lane independently: no carry crosses a lane boundary and the 64-bit add
/// cannot wrap.
proof fn lemma_lane_add(x: u64, y: u64)
    by (bit_vector)
    requires
        (x & 0xFF) + (y & 0xFF) < 256,
        ((x >> 8) & 0xFF) + ((y >> 8) & 0xFF) < 256,
        ((x >> 16) & 0xFF) + ((y >> 16) & 0xFF) < 256,
        ((x >> 24) & 0xFF) + ((y >> 24) & 0xFF) < 256,
        ((x >> 32) & 0xFF) + ((y >> 32) & 0xFF) < 256,
        ((x >> 40) & 0xFF) + ((y >> 40) & 0xFF) < 256,
        ((x >> 48) & 0xFF) + ((y >> 48) & 0xFF) < 256,
        ((x >> 56) & 0xFF) + ((y >> 56) & 0xFF) < 256,
        x >> 56 < 256,
        y >> 56 < 256,
    ensures
        x + y <= 0xFFFF_FFFF_FFFF_FFFF,
        ((x + y) as u64) & 0xFF == (x & 0xFF) + (y & 0xFF),
        (((x + y) as u64) >> 8) & 0xFF == ((x >> 8) & 0xFF) + ((y >> 8) & 0xFF),
        (((x + y) as u64) >> 16) & 0xFF == ((x >> 16) & 0xFF) + ((y >> 16) & 0xFF),
        (((x + y) as u64) >> 24) & 0xFF == ((x >> 24) & 0xFF) + ((y >> 24) & 0xFF),
        (((x + y) as u64) >> 32) & 0xFF == ((x >> 32) & 0xFF) + ((y >> 32) & 0xFF),
        (((x + y) as u64) >> 40) & 0xFF == ((x >> 40) & 0xFF) + ((y >> 40) & 0xFF),
        (((x + y) as u64) >> 48) & 0xFF == ((x >> 48) & 0xFF) + ((y >> 48) & 0xFF),
        (((x + y) as u64) >> 56) & 0xFF == ((x >> 56) & 0xFF) + ((y >> 56) & 0xFF),
        ((x + y) as u64) >> 56 < 256,
{
}

/// The eight byte-lane population counts of one word, packed into the eight
/// lanes of the result; the lanes sum to the word's population count.
pub(crate) fn byte_counts(w: u64) -> (c: u64)
    ensures
        (c & 0xFF) + ((c >> 8) & 0xFF) + ((c >> 16) & 0xFF) + ((c >> 24) & 0xFF) + ((c >> 32)
            & 0xFF) + ((c >> 40) & 0xFF) + ((c >> 48) & 0xFF) + ((c >> 56) & 0xFF) == pop64(w),
        c & 0xFF <= 8,
        (c >> 8) & 0xFF <= 8,
        (c >> 16) & 0xFF <= 8,
        (c >> 24) & 0xFF <= 8,
        (c >> 32) & 0xFF <= 8,
        (c >> 40) & 0xFF <= 8,
        (c >> 48) & 0xFF <= 8,
        (c >> 56) & 0xFF <= 8,
        c >> 56 < 256,
{
    let v0 = (word_popcount(w & 0xFF) as u64);
    let v1 = (word_popcount((w >> 8) & 0xFF) as u64);
    let v2 = (word_popcount((w >> 16) & 0xFF) as u64);
    let v3 = (word_popcount((w >> 24) & 0xFF) as u64);
    let v4 = (word_popcount((w >> 32) & 0xFF) as u64);
    let v5 = (word_popcount((w >> 40) & 0xFF) as u64);
    let v6 = (word_popcount((w >> 48) & 0xFF) as u64);
    let v7 = (word_popcount((w >> 56) & 0xFF) as u64);
    proof {
        assert((w >> 0) & 0xFF == w & 0xFF) by (bit_vector);
        lemma_pop_byte(w, 0);
        lemma_pop_byte(w, 8);
        lemma_pop_byte(w, 16);
        lemma_pop_byte(w, 24);
        lemma_pop_byte(w, 32);
        lemma_pop_byte(w, 40);
        lemma_pop_byte(w, 48);
        lemma_pop_byte(w, 56);
        lemma_lane_pack(v0, v1, v2, v3, v4, v5, v6, v7);
        assert(pop_below(w, 0) == 0);
    }
    let c = v0 | (v1 << 8) | (v2 << 16) | (v3 << 24) | (v4 << 32) | (v5 << 40) | (v6 << 48) | (v7
        << 56);
    proof {
        assert(c >> 56 < 256) by (bit_vector)
            requires
                c == v0 | (v1 << 8) | (v2 << 16) | (v3 << 24) | (v4 << 32) | (v5 << 40) | (v6
                    << 48) | (v7 << 56),
                v7 < 256,
        ;
    }
    c
}

/// Count the set bits among the first `len` bits, one word at a time.
///
/// The logical length must fit in the buffer; the final partial word is
/// masked to exactly `len % 64` bits before counting.
#[verifier::loop_isolation(false)]
pub fn popcount_scalar(bits: &[u64], len: usize) -> (r: usize)
    requires
        len <= bits@.len() * 64,
    ensures
        r as int == count_bits(bits@, len as int),
{
    let mut res: usize = 0;
    let end_idx = len / 64;
    let mut i: usize = 0;
    while i < end_idx
        invariant
            i <= end_idx,
            res as int == count_bits(bits@, 64 * i as int),
        decreases end_idx - i,
    {
        proof {
            lemma_count_bits_word(bits@, i as int);
            lemma_count_bits_le(bits@, 64 * (i as int) + 64);
        }
        res = res + (word_popcount(bits[i]) as usize);
        i = i + 1;
    }
    let leftover = len % 64;
    if leftover > 0 {
        proof {
            lemma_low_mask_wf(leftover as u64);
            lemma_pop_mask(bits@[end_idx as int], leftover as int);
            lemma_count_bits_extend(bits@, end_idx as int, leftover as int);
            lemma_count_bits_le(bits@, len as int);
        }
        let masked = bits[end_idx] & ((1u64 << (leftover as u64)) - 1);
        res = res + (word_popcount(masked) as usize);
    }
    res
}

/// Count the set bits among the first `len` bits, four words per step.
///
/// The block loop keeps four independent accumulators, as a vectorized
/// reduction would keep four lanes; leftover whole words and the masked
/// partial word follow one at a time. The result is identical to
/// `popcount_scalar`.
#[verifier::loop_isolation(false)]
pub fn popcount_scalar_fast(bits: &[u64], len: usize) -> (r: usize)
    requires
        len <= bits@.len() * 64,
    ensures
        r as int == count_bits(bits@, len as int),
{
    let mut res0: usize = 0;
    let mut res1: usize = 0;
    let mut res2: usize = 0;
    let mut res3: usize = 0;
    let end = len / 64;
    let end_idx = end / 4;
    let mut idx: usize = 0;
    let mut blk: usize = 0;
    while blk < end_idx
        invariant
            blk <= end_idx,
            idx == 4 * blk,
            res0 as int + res1 as int + res2 as int + res3 as int == count_bits(
                bits@,
                64 * idx as int,
            ),
            res0 as int + res1 as int + res2 as int + res3 as int <= 64 * idx as int,
        decreases end_idx - blk,
    {
        proof {
            lemma_count_bits_word(bits@, idx as int);
            lemma_count_bits_word(bits@, idx as int + 1);
            lemma_count_bits_word(bits@, idx as int + 2);
            lemma_count_bits_word(bits@, idx as int + 3);
            lemma_pop_below_bound(bits@[idx as int], 64);
            lemma_pop_below_bound(bits@[idx as int + 1], 64);
            lemma_pop_below_bound(bits@[idx as int + 2], 64);
            lemma_pop_below_bound(bits@[idx as int + 3], 64);
        }
        res0 = res0 + (word_popcount(bits[idx]) as usize);
        res1 = res1 + (word_popcount(bits[idx + 1]) as usize);
        res2 = res2 + (word_popcount(bits[idx + 2]) as usize);
        res3 = res3 + (word_popcount(bits[idx + 3]) as usize);
        idx = idx + 4;
        blk = blk + 1;
    }
    let mut i: usize = idx;
    while i < end
        invariant
            4 * end_idx <= i <= end,
            res0 as int + res1 as int + res2 as int + res3 as int == count_bits(
                bits@,
                64 * i as int,
            ),
            res0 as int + res1 as int + res2 as int + res3 as int <= 64 * i as int,
        decreases end - i,
    {
        proof {
            lemma_count_bits_word(bits@, i as int);
            lemma_pop_below_bound(bits@[i as int], 64);
        }
        res0 = res0 + (word_popcount(bits[i]) as usize);
        i = i + 1;
    }
    let leftover = len % 64;
    if leftover > 0 {
        proof {
            lemma_low_mask_wf(leftover as u64);
            lemma_pop_mask(bits@[end as int], leftover as int);
            lemma_count_bits_extend(bits@, end as int, leftover as int);
            lemma_pop_below_bound(bits@[end as int], leftover as int);
        }
        let masked = bits[end] & ((1u64 << (leftover as u64)) - 1);
        res1 = res1 + (word_popcount(masked) as usize);
    }
    (res0 + res1) + (res2 + res3)
}

/// The empty accumulator has every lane clear.
proof fn lemma_zero_lanes()
    by (bit_vector)
    ensures
        0u64 & 0xFF == 0,
        (0u64 >> 8) & 0xFF == 0,
        (0u64 >> 16) & 0xFF == 0,
        (0u64 >> 24) & 0xFF == 0,
        (0u64 >> 32) & 0xFF == 0,
        (0u64 >> 40) & 0xFF == 0,
        (0u64 >> 48) & 0xFF == 0,
        (0u64 >> 56) & 0xFF == 0,
        0u64 >> 56 < 256,
{
}

/// Count the set bits among the first `len` bits with eight byte-wide lane
/// accumulators, eight words per block.
///
/// Each word contributes its eight per-byte counts (at most 8 each) to the
/// eight 8-bit lanes of one accumulator word. A lane grows by at most 8 per
/// word, so after 8 words it holds at most 64 and can never wrap its 8 bits:
/// that bound is the invariant the block length is chosen for, and it is
/// what the lane-wise addition lemma demands. At the end of every block the
/// lanes are extracted and summed into the running total and the
/// accumulator resets. Leftover whole words and the masked partial word
/// follow one at a time. The result is identical to `popcount_scalar`.
#[verifier::loop_isolation(false)]
pub fn popcount_lanes(bits: &[u64], len: usize) -> (r: usize)
    requires
        len <= bits@.len() * 64,
    ensures
        r as int == count_bits(bits@, len as int),
{
    let mut res: usize = 0;
    let end = len / 64;
    let blocks = end / 8;
    let mut blk: usize = 0;
    let mut idx: usize = 0;
    while blk < blocks
        invariant
            blk <= blocks,
            idx == 8 * blk,
            res as int == count_bits(bits@, 64 * idx as int),
            res as int <= 64 * idx as int,
        decreases blocks - blk,
    {
        let mut acc: u64 = 0;
        let mut t: usize = 0;
        proof {
            lemma_zero_lanes();
        }
        while t < 8
            invariant
                t <= 8,
                acc & 0xFF <= 8 * t,
                (acc >> 8) & 0xFF <= 8 * t,
                (acc >> 16) & 0xFF <= 8 * t,
                (acc >> 24) & 0xFF <= 8 * t,
                (acc >> 32) & 0xFF <= 8 * t,
                (acc >> 40) & 0xFF <= 8 * t,
                (acc >> 48) & 0xFF <= 8 * t,
                (acc >> 56) & 0xFF <= 8 * t,
                acc >> 56 < 256,
                (acc & 0xFF) + ((acc >> 8) & 0xFF) + ((acc >> 16) & 0xFF) + ((acc >> 24) & 0xFF)
                    + ((acc >> 32) & 0xFF) + ((acc >> 40) & 0xFF) + ((acc >> 48) & 0xFF) + ((acc
                    >> 56) & 0xFF) == count_bits(bits@, 64 * (idx + t) as int) - count_bits(
                    bits@,
                    64 * idx as int,
                ),
            decreases 8 - t,
        {
            let c = byte_counts(bits[idx + t]);
            proof {
                lemma_lane_add(acc, c);
                lemma_count_bits_word(bits@, idx as int + t as int);
            }
            acc = acc + c;
            t = t + 1;
        }
        let h = (acc & 0xFF) + ((acc >> 8) & 0xFF) + ((acc >> 16) & 0xFF) + ((acc >> 24) & 0xFF) + (
        (acc >> 32) & 0xFF) + ((acc >> 40) & 0xFF) + ((acc >> 48) & 0xFF) + ((acc >> 56) & 0xFF);
        proof {
            lemma_count_bits_le(bits@, 64 * (idx as int) + 512);
        }
        res = res + (h as usize);
        idx = idx + 8;
        blk = blk + 1;
    }
    let mut i: usize = idx;
    while i < end
        invariant
            8 * blocks <= i <= end,
            res as int == count_bits(bits@, 64 * i as int),
            res as int <= 64 * i as int,
        decreases end - i,
    {
        proof {
            lemma_count_bits_word(bits@, i as int);
            lemma_pop_below_bound(bits@[i as int], 64);
        }
        res = res + (word_popcount(bits[i]) as usize);
        i = i + 1;
    }
    let leftover = len % 64;
    if leftover > 0 {
        proof {
            lemma_low_mask_wf(leftover as u64);
            lemma_pop_mask(bits@[end as int], leftover as int);
            lemma_count_bits_extend(bits@, end as int, leftover as int);
            lemma_pop_below_bound(bits@[end as int], leftover as int);
        }
        let masked = bits[end] & ((1u64 << (leftover as u64)) - 1);
        res = res + (word_popcount(masked) as usize);
    }
    res
}

/// Count the set bits among the first `len` bits of a packed buffer.
///
/// Dispatches on the input size: short buffers take the one-word-at-a-time
/// tier, longer ones the byte-lane block tier. Every tier returns exactly
/// the number of set bits among the first `len` bits, so the choice never
/// shows in the result.
pub fn popcount(bits: &[u64], len: usize) -> (r: usize)
    requires
        len <= bits@.len() * 64,
    ensures
        r as int == count_bits(bits@, len as int),
{
    if len / 64 <= 8 {
        return popcount_scalar(bits, len);
    }
    popcount_lanes(bits, len)
}

} // verus!
