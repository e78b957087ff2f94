//! Bit-level lemmas shared by the codec and the analytics: how word-aligned
//! indices split into a word number and an in-word offset, how masking a word
//! restricts its population count, and how per-word counts accumulate into
//! the buffer-wide counts of the model.

use vstd::prelude::*;

verus! {

use vstd::arithmetic::div_mod::lemma_fundamental_div_mod_converse;
use vstd::std_specs::bits::{axiom_u64_trailing_zeros, u64_trailing_zeros};

use crate::model::{
    bit_at,
    code_at,
    count_bits,
    count_bits_range,
    diff_count,
    eq_upto,
    pop64,
    pop_below,
};

/// One word of a packed buffer reduced to one "this 2-bit lane is nonzero"
/// flag per lane: bit `2j` of the result says whether lane `j` is nonzero,
/// every odd bit is clear. Applied to the XOR of two packed words it marks
/// the symbol positions at which they differ.
pub open spec fn lane_reduce64(x: u64) -> u64 {
    ((x >> 1) | x) & 0x5555_5555_5555_5555u64
}

/// The 2-bit lane `j` of one word.
pub open spec fn lane64(x: u64, j: int) -> u64 {
    (x >> ((2 * j) as u64)) & 3
}

/// Bit `j` of one word, for `0 <= j < 64`.
pub open spec fn bit64(w: u64, j: int) -> u64 {
    (w >> (j as u64)) & 1
}

/// Splitting a bit index into its word number and in-word offset.
pub proof fn lemma_index64(q: int, j: int)
    requires
        0 <= q,
        0 <= j < 64,
    ensures
        (64 * q + j) / 64 == q,
        (64 * q + j) % 64 == j,
{
    lemma_fundamental_div_mod_converse(64 * q + j, 64, q, j);
}

/// Splitting a symbol index into its word number and in-word offset.
pub proof fn lemma_index32(q: int, j: int)
    requires
        0 <= q,
        0 <= j < 32,
    ensures
        (32 * q + j) / 32 == q,
        (32 * q + j) % 32 == j,
{
    lemma_fundamental_div_mod_converse(32 * q + j, 32, q, j);
}

/// Bit `64q + j` of a buffer is bit `j` of word `q`.
pub proof fn lemma_bit_at_word(words: Seq<u64>, q: int, j: int)
    requires
        0 <= q < words.len(),
        0 <= j < 64,
    ensures
        bit_at(words, 64 * q + j) == bit64(words[q], j),
{
    lemma_index64(q, j);
}

/// Code `32q + j` of a buffer sits at bits `2j` and `2j + 1` of word `q`.
pub proof fn lemma_code_at_word(words: Seq<u64>, q: int, j: int)
    requires
        0 <= q < words.len(),
        0 <= j < 32,
    ensures
        code_at(words, 32 * q + j) == (words[q] >> ((2 * j) as u64)) & 3,
{
    lemma_index32(q, j);
}

/// A single bit is 0 or 1.
pub proof fn lemma_bit64_le(w: u64, j: int)
    ensures
        bit64(w, j) <= 1,
{
    let ju = j as u64;
    assert((w >> ju) & 1 <= 1) by (bit_vector);
}

/// The low-`k` population count of a word lies between 0 and `k`.
pub proof fn lemma_pop_below_bound(w: u64, k: int)
    ensures
        0 <= pop_below(w, k) <= if k <= 0 {
            0int
        } else {
            k
        },
    decreases k,
{
    if k > 0 {
        lemma_pop_below_bound(w, k - 1);
        lemma_bit64_le(w, k - 1);
    }
}

/// Two words with the same low `k` bits have the same low-`k` count.
pub proof fn lemma_pop_below_agree(x: u64, y: u64, k: int)
    requires
        forall|j: int| 0 <= j < k ==> bit64(x, j) == bit64(y, j),
    ensures
        pop_below(x, k) == pop_below(y, k),
    decreases k,
{
    if k > 0 {
        lemma_pop_below_agree(x, y, k - 1);
        assert(bit64(x, k - 1) == bit64(y, k - 1));
    }
}

/// A word whose bits from `r` upward are clear counts the same over all 64
/// bits as over its low `r`.
pub proof fn lemma_pop_below_zero_high(w: u64, r: int, k: int)
    requires
        0 <= r <= k <= 64,
        forall|j: int| r <= j < k ==> bit64(w, j) == 0,
    ensures
        pop_below(w, k) == pop_below(w, r),
    decreases k,
{
    if k > r {
        lemma_pop_below_zero_high(w, r, k - 1);
        assert(bit64(w, k - 1) == 0);
    }
}

/// A low mask with `r` set bits is at least 1, so building it by
/// subtraction cannot wrap.
pub proof fn lemma_low_mask_wf(r: u64)
    by (bit_vector)
    requires
        0 < r < 64,
    ensures
        (1u64 << r) >= 1,
{
}

/// How each bit of `w & ((1 << r) - 1)` relates to the bits of `w`.
proof fn lemma_mask_bit(w: u64, r: u64, j: u64)
    by (bit_vector)
    requires
        r < 64,
        j < 64,
    ensures
        j < r ==> ((w & (((1u64 << r) - 1) as u64)) >> j) & 1 == (w >> j) & 1,
        j >= r ==> ((w & (((1u64 << r) - 1) as u64)) >> j) & 1 == 0,
{
}

/// Masking a word to its low `r` bits makes its full population count equal
/// to the low-`r` count of the unmasked word.
pub proof fn lemma_pop_mask(w: u64, r: int)
    requires
        0 < r < 64,
    ensures
        pop64((w & (((1u64 << (r as u64)) - 1) as u64))) == pop_below(w, r),
{
    let m = (w & (((1u64 << (r as u64)) - 1) as u64));
    assert forall|j: int| 0 <= j < r implies bit64(m, j) == bit64(w, j) by {
        lemma_mask_bit(w, r as u64, j as u64);
    }
    assert forall|j: int| r <= j < 64 implies bit64(m, j) == 0 by {
        lemma_mask_bit(w, r as u64, j as u64);
    }
    lemma_pop_below_zero_high(m, r, 64);
    lemma_pop_below_agree(m, w, r);
}

/// The buffer-wide count through bit `64q + j` is the count through the end
/// of word `q - 1` plus the low-`j` count of word `q`.
pub proof fn lemma_count_bits_extend(words: Seq<u64>, q: int, j: int)
    requires
        0 <= q < words.len(),
        0 <= j <= 64,
    ensures
        count_bits(words, 64 * q + j) == count_bits(words, 64 * q) + pop_below(words[q], j),
    decreases j,
{
    if j > 0 {
        lemma_count_bits_extend(words, q, j - 1);
        lemma_bit_at_word(words, q, j - 1);
    }
}

/// Consuming one whole word adds its population count.
pub proof fn lemma_count_bits_word(words: Seq<u64>, q: int)
    requires
        0 <= q < words.len(),
    ensures
        count_bits(words, 64 * q + 64) == count_bits(words, 64 * q) + pop64(words[q]),
{
    lemma_count_bits_extend(words, q, 64);
}

/// The count of set bits never exceeds the number of bits counted.
pub proof fn lemma_count_bits_le(words: Seq<u64>, len: int)
    ensures
        0 <= count_bits(words, len) <= if len <= 0 {
            0int
        } else {
            len
        },
    decreases len,
{
    if len > 0 {
        lemma_count_bits_le(words, len - 1);
        lemma_bit64_le(words[(len - 1) / 64], (len - 1) % 64);
    }
}

/// Counting more low bits of a word never counts fewer.
pub proof fn lemma_pop_below_mono(w: u64, k1: int, k2: int)
    requires
        k1 <= k2,
    ensures
        pop_below(w, k1) <= pop_below(w, k2),
    decreases k2 - k1,
{
    if k1 < k2 {
        lemma_pop_below_mono(w, k1, k2 - 1);
    }
}

/// A nonzero word has at least one set bit.
pub proof fn lemma_pop_nonzero(w: u64)
    requires
        w != 0,
    ensures
        pop64(w) > 0,
{
    axiom_u64_trailing_zeros(w);
    let t = u64_trailing_zeros(w) as int;
    assert(bit64(w, t) == 1);
    assert(pop_below(w, t + 1) == pop_below(w, t) + 1);
    lemma_pop_below_bound(w, t);
    lemma_pop_below_mono(w, t + 1, 64);
}

/// How the bits of the lane reduction follow from the lanes of the word:
/// the even bit of each lane becomes the lane's nonzero flag, the odd bit
/// clears.
proof fn lemma_lane_reduce_bits(x: u64, s: u64)
    by (bit_vector)
    requires
        s <= 62,
        s % 2 == 0,
    ensures
        (lane_reduce64(x) >> s) & 1 == (if (x >> s) & 3 == 0 {
            0u64
        } else {
            1u64
        }),
        (lane_reduce64(x) >> ((s + 1) as u64)) & 1 == 0,
{
}

/// Two words agree on a 2-bit lane exactly when their XOR clears that lane.
proof fn lemma_xor_lane(aw: u64, bw: u64, s: u64)
    by (bit_vector)
    requires
        s <= 62,
    ensures
        (((aw ^ bw) >> s) & 3 == 0) <==> ((aw >> s) & 3 == (bw >> s) & 3),
{
}

/// Masking a word to its low `2r` bits keeps the lanes below `r` and clears
/// the lanes from `r` upward.
proof fn lemma_masked_lane(x: u64, r: u64, s: u64)
    by (bit_vector)
    requires
        0 < r < 32,
        s <= 62,
        s % 2 == 0,
    ensures
        s < 2 * r ==> ((x & (((1u64 << ((2 * r) as u64)) - 1) as u64)) >> s) & 3 == (x >> s) & 3,
        s >= 2 * r ==> ((x & (((1u64 << ((2 * r) as u64)) - 1) as u64)) >> s) & 3 == 0,
{
}

/// XOR of distinct words is nonzero, and the lane reduction keeps a nonzero
/// word nonzero.
pub proof fn lemma_reduce_nonzero(aw: u64, bw: u64)
    by (bit_vector)
    requires
        aw != bw,
    ensures
        lane_reduce64(aw ^ bw) != 0,
{
}

/// A 2-bit lane holds a value below 4.
pub proof fn lemma_lane_le3(w: u64, s: u64)
    by (bit_vector)
    ensures
        (w >> s) & 3 <= 3,
{
}

/// Shifting the zero word gives zero, whatever the shift.
pub proof fn lemma_zero_shift()
    by (bit_vector)
    ensures
        forall|s: u64| #[trigger] (0u64 >> s) == 0u64,
{
}

/// XOR of a word with itself reduces to nothing.
pub proof fn lemma_reduce_self(w: u64)
    by (bit_vector)
    ensures
        lane_reduce64(w ^ w) == 0,
{
}

/// Masking distributes over XOR.
pub proof fn lemma_and_xor_distrib(aw: u64, bw: u64, m: u64)
    by (bit_vector)
    ensures
        (aw & m) ^ (bw & m) == (aw ^ bw) & m,
{
}

/// The zero word has no set bits.
pub proof fn lemma_pop_zero()
    ensures
        pop64(0) == 0,
{
    assert forall|j: int| 0 <= j < 64 implies bit64(0u64, j) == 0 by {
        let ju = j as u64;
        assert((0u64 >> ju) & 1 == 0) by (bit_vector);
    }
    lemma_pop_below_zero_high(0u64, 0, 64);
}

/// Counting the differing symbols of word `q` through a helper word `y`
/// whose 2-bit lanes flag exactly those differences: the first `j <= bound`
/// lanes of the reduction of `y` count the differences among the first `j`
/// symbols of the word.
proof fn lemma_diff_lanes_partial(a: Seq<u64>, b: Seq<u64>, q: int, y: u64, bound: int, j: int)
    requires
        0 <= q < a.len(),
        q < b.len(),
        0 <= j <= bound <= 32,
        forall|t: int|
            0 <= t < bound ==> ((code_at(a, 32 * q + t) == code_at(b, 32 * q + t)) <==> #[trigger] lane64(y, t) == 0),
    ensures
        diff_count(a, b, 32 * q + j) == diff_count(a, b, 32 * q) + pop_below(
            lane_reduce64(y),
            2 * j,
        ),
    decreases j,
{
    if j > 0 {
        lemma_diff_lanes_partial(a, b, q, y, bound, j - 1);
        let red = lane_reduce64(y);
        lemma_lane_reduce_bits(y, (2 * (j - 1)) as u64);
        assert(bit64(red, 2 * j - 2) == (if (y >> ((2 * (j - 1)) as u64)) & 3 == 0 {
            0u64
        } else {
            1u64
        }));
        assert(bit64(red, 2 * j - 1) == 0);
        assert(pop_below(red, 2 * j) == pop_below(red, 2 * j - 1) + bit64(red, 2 * j - 1));
        assert(pop_below(red, 2 * j - 1) == pop_below(red, 2 * j - 2) + bit64(red, 2 * j - 2));
        lemma_code_at_word(a, q, j - 1);
        lemma_code_at_word(b, q, j - 1);
        assert((code_at(a, 32 * q + (j - 1)) == code_at(b, 32 * q + (j - 1))) <==> lane64(
            y,
            j - 1,
        ) == 0);
    }
}

/// As `lemma_diff_lanes_partial`, with the lanes from `bound` upward known
/// clear, so the whole reduction counts the first `bound` symbols.
proof fn lemma_diff_lanes(a: Seq<u64>, b: Seq<u64>, q: int, y: u64, bound: int)
    requires
        0 <= q < a.len(),
        q < b.len(),
        0 < bound <= 32,
        forall|t: int|
            0 <= t < bound ==> ((code_at(a, 32 * q + t) == code_at(b, 32 * q + t)) <==> #[trigger] lane64(y, t) == 0),
        forall|t: int| bound <= t < 32 ==> #[trigger] lane64(y, t) == 0,
    ensures
        diff_count(a, b, 32 * q + bound) == diff_count(a, b, 32 * q) + pop64(lane_reduce64(y)),
{
    lemma_diff_lanes_partial(a, b, q, y, bound, bound);
    let red = lane_reduce64(y);
    assert forall|k: int| 2 * bound <= k < 64 implies bit64(red, k) == 0 by {
        if k % 2 == 0 {
            let t = k / 2;
            assert(lane64(y, t) == 0);
            lemma_lane_reduce_bits(y, k as u64);
        } else {
            lemma_lane_reduce_bits(y, (k - 1) as u64);
        }
    }
    lemma_pop_below_zero_high(red, 2 * bound, 64);
}

/// The differing symbols of one whole packed word: XOR the words, reduce the
/// lanes, count the flags.
pub proof fn lemma_diff_word(a: Seq<u64>, b: Seq<u64>, q: int)
    requires
        0 <= q < a.len(),
        q < b.len(),
    ensures
        diff_count(a, b, 32 * q + 32) == diff_count(a, b, 32 * q) + pop64(
            lane_reduce64(a[q] ^ b[q]),
        ),
{
    let y = a[q] ^ b[q];
    assert forall|t: int| 0 <= t < 32 implies ((code_at(a, 32 * q + t) == code_at(
        b,
        32 * q + t,
    )) <==> #[trigger] lane64(y, t) == 0) by {
        lemma_code_at_word(a, q, t);
        lemma_code_at_word(b, q, t);
        lemma_xor_lane(a[q], b[q], (2 * t) as u64);
    }
    lemma_diff_lanes(a, b, q, y, 32);
}

/// The differing symbols of a final partial word: mask the XOR down to the
/// `r` remaining symbols before reducing and counting.
pub proof fn lemma_diff_word_masked(a: Seq<u64>, b: Seq<u64>, q: int, r: int)
    requires
        0 <= q < a.len(),
        q < b.len(),
        0 < r < 32,
    ensures
        diff_count(a, b, 32 * q + r) == diff_count(a, b, 32 * q) + pop64(
            lane_reduce64((a[q] ^ b[q]) & (((1u64 << ((2 * r) as u64)) - 1) as u64)),
        ),
{
    let x = a[q] ^ b[q];
    let y = x & (((1u64 << ((2 * r) as u64)) - 1) as u64);
    assert forall|t: int| 0 <= t < r implies ((code_at(a, 32 * q + t) == code_at(
        b,
        32 * q + t,
    )) <==> #[trigger] lane64(y, t) == 0) by {
        lemma_code_at_word(a, q, t);
        lemma_code_at_word(b, q, t);
        lemma_xor_lane(a[q], b[q], (2 * t) as u64);
        lemma_masked_lane(x, r as u64, (2 * t) as u64);
    }
    assert forall|t: int| r <= t < 32 implies #[trigger] lane64(y, t) == 0 by {
        lemma_masked_lane(x, r as u64, (2 * t) as u64);
    }
    lemma_diff_lanes(a, b, q, y, r);
}

/// The number of differing symbol positions lies between 0 and the number of
/// positions compared.
pub proof fn lemma_diff_le(a: Seq<u64>, b: Seq<u64>, len: int)
    ensures
        0 <= diff_count(a, b, len) <= if len <= 0 {
            0int
        } else {
            len
        },
    decreases len,
{
    if len > 0 {
        lemma_diff_le(a, b, len - 1);
    }
}

/// Comparing more symbols never finds fewer differences.
pub proof fn lemma_diff_mono(a: Seq<u64>, b: Seq<u64>, k1: int, k2: int)
    requires
        k1 <= k2,
    ensures
        diff_count(a, b, k1) <= diff_count(a, b, k2),
    decreases k2 - k1,
{
    if k1 < k2 {
        lemma_diff_mono(a, b, k1, k2 - 1);
    }
}

/// Two packed buffers agree on their first `len` symbols exactly when their
/// Hamming distance over those symbols is zero.
pub proof fn lemma_eq_upto_iff_diff_zero(a: Seq<u64>, b: Seq<u64>, len: int)
    requires
        0 <= len,
    ensures
        eq_upto(a, b, len) <==> diff_count(a, b, len) == 0,
    decreases len,
{
    if len > 0 {
        lemma_eq_upto_iff_diff_zero(a, b, len - 1);
        lemma_diff_le(a, b, len - 1);
        if diff_count(a, b, len) == 0 {
            assert(eq_upto(a, b, len - 1));
            assert(code_at(a, len - 1) == code_at(b, len - 1));
            assert forall|i: int| 0 <= i < len implies code_at(a, i) == code_at(b, i) by {
                if i < len - 1 {
                    assert(code_at(a, i) == code_at(b, i));
                }
            }
        }
        if eq_upto(a, b, len) {
            assert(code_at(a, len - 1) == code_at(b, len - 1));
            assert forall|i: int| 0 <= i < len - 1 implies code_at(a, i) == code_at(b, i) by {
                assert(code_at(a, i) == code_at(b, i));
            }
        }
    }
}

/// A prefix count plus the count over the remaining range gives the whole.
pub proof fn lemma_count_bits_split(words: Seq<u64>, k: int, len: int)
    requires
        0 <= k <= len,
    ensures
        count_bits(words, len) == count_bits(words, k) + count_bits_range(words, k, len),
    decreases len - k,
{
    if len > k {
        lemma_count_bits_split(words, k, len - 1);
    }
}

} // verus!
