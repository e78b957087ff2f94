//! The encoder: an ASCII symbol buffer packed into 2-bit codes, 32 codes per
//! 64-bit word.
//!
//! The per-symbol tier looks every byte up in the mapping table and ORs its
//! code into the right word at the right shift. The block tiers exploit the
//! ASCII encoding instead: for every recognized symbol, upper or lower case,
//! bits 1 and 2 of the byte already are the symbol's code, so a block packs
//! 32 (or twice 16) bytes by plain shifts; the tail re-invokes the table
//! technique and merges the resulting word.
//!
//! Bytes outside the symbol set have no defined code: the table tier maps
//! them to code 0, the block tiers pack their raw bits 1 and 2. Callers that
//! need rejection run the validity checker first; every tier pins the codes
//! of all recognized symbols and the word count.

use vstd::prelude::*;

verus! {

use crate::bits::{lane64, lemma_code_at_word, lemma_zero_shift};
use crate::model::{
    LC_C,
    LC_G,
    LC_T,
    LC_U,
    UC_C,
    UC_G,
    UC_T,
    UC_U,
    code_at,
    code_of,
    is_nuc,
    words_for,
};

/// Bits 1 and 2 of a byte, the code the block tiers extract.
pub open spec fn extract_code(b: u8) -> u64 {
    ((b >> 1) & 3) as u64
}

/// For every recognized symbol the extracted bits equal the table's code.
proof fn lemma_extract_is_code(b: u8)
    by (bit_vector)
    ensures
        is_nuc(b) ==> extract_code(b) == code_of(b),
        extract_code(b) < 4,
{
}

/// ORing a code into a word whose bits from `s` upward are clear places the
/// code at lane `s / 2` and leaves the bits above the lane clear.
proof fn lemma_or_lane_new(w: u64, c: u64, s: u64)
    by (bit_vector)
    requires
        s <= 62,
        s % 2 == 0,
        w >> s == 0,
        c < 4,
    ensures
        ((w | (c << s)) >> s) & 3 == c,
        s <= 60 ==> (w | (c << s)) >> ((s + 2) as u64) == 0,
{
}

/// ORing a code in at `s` leaves every lane below `s` unchanged.
proof fn lemma_or_lane_keep(w: u64, c: u64, s: u64, t: u64)
    by (bit_vector)
    requires
        t < s,
        s <= 62,
        t % 2 == 0,
        s % 2 == 0,
        c < 4,
    ensures
        ((w | (c << s)) >> t) & 3 == (w >> t) & 3,
{
}

/// The mapping table: the 2-bit code of one symbol byte, both cases, with
/// unrecognized bytes mapping to 0.
pub fn code_of_byte(b: u8) -> (c: u64)
    ensures
        c == code_of(b),
        c < 4,
{
    if b == UC_C || b == LC_C {
        1
    } else if b == UC_T || b == LC_T || b == UC_U || b == LC_U {
        2
    } else if b == UC_G || b == LC_G {
        3
    } else {
        0
    }
}

/// Pack `count` symbols starting at `base` into one word through the
/// mapping table, lane by lane.
#[verifier::loop_isolation(false)]
fn pack_word_table(nuc: &[u8], base: usize, count: usize) -> (w: u64)
    requires
        base + count <= nuc@.len(),
        count <= 32,
    ensures
        forall|t: int| 0 <= t < count ==> #[trigger] lane64(w, t) == code_of(nuc@[base + t]),
{
    let n = nuc.len();
    proof {
        lemma_zero_shift();
    }
    let mut w: u64 = 0;
    let mut j: usize = 0;
    while j < count
        invariant
            j <= count,
            j < 32 ==> w >> ((2 * j) as u64) == 0,
            forall|t: int| 0 <= t < j ==> #[trigger] lane64(w, t) == code_of(nuc@[base + t]),
        decreases count - j,
    {
        let code = code_of_byte(nuc[base + j]);
        let s = (2 * j) as u64;
        proof {
            lemma_or_lane_new(w, code, s);
            assert forall|t: int| 0 <= t < j implies #[trigger] lane64(w | (code << s), t)
                == lane64(w, t) by {
                lemma_or_lane_keep(w, code, s, (2 * t) as u64);
            }
        }
        w = w | (code << s);
        j = j + 1;
    }
    w
}

/// Pack 32 symbols starting at `base` into one word by bit extraction.
#[verifier::loop_isolation(false)]
fn pack_word_extract(nuc: &[u8], base: usize) -> (w: u64)
    requires
        base + 32 <= nuc@.len(),
    ensures
        forall|t: int| 0 <= t < 32 ==> #[trigger] lane64(w, t) == extract_code(nuc@[base + t]),
{
    let n = nuc.len();
    proof {
        lemma_zero_shift();
    }
    let mut w: u64 = 0;
    let mut j: usize = 0;
    while j < 32
        invariant
            j <= 32,
            j < 32 ==> w >> ((2 * j) as u64) == 0,
            forall|t: int| 0 <= t < j ==> #[trigger] lane64(w, t) == extract_code(nuc@[base + t]),
        decreases 32 - j,
    {
        let code = ((nuc[base + j] >> 1) & 3) as u64;
        let s = (2 * j) as u64;
        proof {
            lemma_extract_is_code(nuc@[base + j as int]);
            lemma_or_lane_new(w, code, s);
            assert forall|t: int| 0 <= t < j implies #[trigger] lane64(w | (code << s), t)
                == lane64(w, t) by {
                lemma_or_lane_keep(w, code, s, (2 * t) as u64);
            }
        }
        w = w | (code << s);
        j = j + 1;
    }
    w
}

/// Pack 16 symbols starting at `base` into the low half of a word by bit
/// extraction.
#[verifier::loop_isolation(false)]
fn pack_half_extract(nuc: &[u8], base: usize) -> (h: u64)
    requires
        base + 16 <= nuc@.len(),
    ensures
        forall|t: int| 0 <= t < 16 ==> #[trigger] lane64(h, t) == extract_code(nuc@[base + t]),
        h >> 32 == 0,
{
    let n = nuc.len();
    proof {
        lemma_zero_shift();
    }
    let mut w: u64 = 0;
    let mut j: usize = 0;
    while j < 16
        invariant
            j <= 16,
            w >> ((2 * j) as u64) == 0,
            forall|t: int| 0 <= t < j ==> #[trigger] lane64(w, t) == extract_code(nuc@[base + t]),
        decreases 16 - j,
    {
        let code = ((nuc[base + j] >> 1) & 3) as u64;
        let s = (2 * j) as u64;
        proof {
            lemma_extract_is_code(nuc@[base + j as int]);
            lemma_or_lane_new(w, code, s);
            assert forall|t: int| 0 <= t < j implies #[trigger] lane64(w | (code << s), t)
                == lane64(w, t) by {
                lemma_or_lane_keep(w, code, s, (2 * t) as u64);
            }
        }
        w = w | (code << s);
        j = j + 1;
    }
    w
}

/// A word built from two packed halves reads the low half on lanes 0 to 15
/// and the high half on lanes 16 to 31.
proof fn lemma_combine_halves(lo: u64, hi: u64, s: u64)
    by (bit_vector)
    requires
        lo >> 32 == 0,
        s <= 30,
        s % 2 == 0,
    ensures
        ((lo | (hi << 32)) >> s) & 3 == (lo >> s) & 3,
        ((lo | (hi << 32)) >> ((s + 32) as u64)) & 3 == (hi >> s) & 3,
{
}

/// Encode one symbol at a time through the mapping table, ORing each code
/// into the right word at the right shift.
#[verifier::loop_isolation(false)]
pub fn nuc2bit_lut(nuc: &[u8]) -> (r: Vec<u64>)
    ensures
        r@.len() == words_for(nuc@.len() as int),
        forall|i: int| 0 <= i < nuc@.len() ==> code_at(r@, i) == code_of(nuc@[i]),
{
    let n = nuc.len();
    let words = n / 32 + if n % 32 == 0 {
        0
    } else {
        1
    };
    let mut res: Vec<u64> = Vec::new();
    let mut z: usize = 0;
    while z < words
        invariant
            z <= words,
            res@.len() == z,
            forall|k: int| 0 <= k < z ==> res@[k] == 0u64,
        decreases words - z,
    {
        res.push(0u64);
        z = z + 1;
    }
    proof {
        lemma_zero_shift();
    }
    let mut i: usize = 0;
    while i < n
        invariant
            i <= n,
            res@.len() == words,
            forall|k: int| 0 <= k < i ==> code_at(res@, k) == code_of(nuc@[k]),
            i < n ==> res@[(i as int) / 32] >> ((2 * ((i as int) % 32)) as u64) == 0,
            forall|q: int| (i as int) / 32 < q < words ==> res@[q] == 0u64,
        decreases n - i,
    {
        let offset = i / 32;
        let shift = (2 * (i % 32)) as u64;
        let code = code_of_byte(nuc[i]);
        let w = res[offset];
        let ghost prev = res@;
        proof {
            lemma_or_lane_new(w, code, shift);
        }
        res[offset] = w | (code << shift);
        proof {
            assert forall|k: int| 0 <= k < i + 1 implies code_at(res@, k) == code_of(
                nuc@[k],
            ) by {
                if k < i {
                    assert(code_at(prev, k) == code_of(nuc@[k]));
                    if k / 32 == offset as int {
                        lemma_or_lane_keep(w, code, shift, (2 * (k % 32)) as u64);
                    } else {
                        assert(res@[k / 32] == prev[k / 32]);
                    }
                } else {
                    assert(res@[k / 32] == w | (code << shift));
                }
            }
            if i + 1 < n {
                if (i + 1) % 32 == 0 {
                    assert(res@[(i as int + 1) / 32] == 0u64);
                }
            }
        }
        i = i + 1;
    }
    res
}

/// Encode 32 bytes per step by bit extraction; the tail re-invokes the
/// mapping-table technique on the remaining bytes and merges its word.
///
/// Agrees with `nuc2bit_lut` on every buffer of recognized symbols.
#[verifier::loop_isolation(false)]
pub fn nuc2bit_wide(nuc: &[u8]) -> (r: Vec<u64>)
    ensures
        r@.len() == words_for(nuc@.len() as int),
        forall|i: int|
            0 <= i < nuc@.len() && is_nuc(nuc@[i]) ==> code_at(r@, i) == code_of(nuc@[i]),
{
    let n = nuc.len();
    let full = n / 32;
    let mut res: Vec<u64> = Vec::new();
    let mut blk: usize = 0;
    while blk < full
        invariant
            blk <= full,
            res@.len() == blk,
            forall|i: int|
                0 <= i < 32 * blk && is_nuc(nuc@[i]) ==> code_at(res@, i) == code_of(nuc@[i]),
        decreases full - blk,
    {
        let w = pack_word_extract(nuc, 32 * blk);
        let ghost prev = res@;
        res.push(w);
        proof {
            assert forall|i: int|
                0 <= i < 32 * (blk + 1) && is_nuc(nuc@[i]) implies code_at(res@, i) == code_of(
                nuc@[i],
            ) by {
                if 32 * blk <= i {
                    let t = i - 32 * (blk as int);
                    lemma_code_at_word(res@, blk as int, t);
                    assert(lane64(w, t) == extract_code(nuc@[32 * (blk as int) + t]));
                    lemma_extract_is_code(nuc@[i]);
                } else {
                    assert(code_at(prev, i) == code_of(nuc@[i]));
                    assert(res@[i / 32] == prev[i / 32]);
                }
            }
        }
        blk = blk + 1;
    }
    if n % 32 > 0 {
        let w = pack_word_table(nuc, 32 * full, n - 32 * full);
        let ghost prev = res@;
        res.push(w);
        proof {
            assert forall|i: int|
                0 <= i < n && is_nuc(nuc@[i]) implies code_at(res@, i) == code_of(nuc@[i]) by {
                if 32 * full <= i {
                    let t = i - 32 * (full as int);
                    lemma_code_at_word(res@, full as int, t);
                    assert(lane64(w, t) == code_of(nuc@[32 * (full as int) + t]));
                } else {
                    assert(code_at(prev, i) == code_of(nuc@[i]));
                    assert(res@[i / 32] == prev[i / 32]);
                }
            }
        }
    }
    res
}

/// Encode 16 bytes per half-step by bit extraction, combining two halves
/// into each word; the tail re-invokes the mapping-table technique.
///
/// Agrees with `nuc2bit_lut` and `nuc2bit_wide` on every buffer of
/// recognized symbols.
#[verifier::loop_isolation(false)]
pub fn nuc2bit_narrow(nuc: &[u8]) -> (r: Vec<u64>)
    ensures
        r@.len() == words_for(nuc@.len() as int),
        forall|i: int|
            0 <= i < nuc@.len() && is_nuc(nuc@[i]) ==> code_at(r@, i) == code_of(nuc@[i]),
{
    let n = nuc.len();
    let full = n / 32;
    let mut res: Vec<u64> = Vec::new();
    let mut blk: usize = 0;
    while blk < full
        invariant
            blk <= full,
            res@.len() == blk,
            forall|i: int|
                0 <= i < 32 * blk && is_nuc(nuc@[i]) ==> code_at(res@, i) == code_of(nuc@[i]),
        decreases full - blk,
    {
        let lo = pack_half_extract(nuc, 32 * blk);
        let hi = pack_half_extract(nuc, 32 * blk + 16);
        let w = lo | (hi << 32);
        proof {
            assert forall|t: int| 0 <= t < 32 implies #[trigger] lane64(w, t) == extract_code(
                nuc@[32 * (blk as int) + t],
            ) by {
                if t < 16 {
                    assert(lane64(lo, t) == extract_code(nuc@[32 * (blk as int) + t]));
                    lemma_combine_halves(lo, hi, (2 * t) as u64);
                } else {
                    assert(lane64(hi, t - 16) == extract_code(
                        nuc@[32 * (blk as int) + 16 + (t - 16)],
                    ));
                    lemma_combine_halves(lo, hi, (2 * (t - 16)) as u64);
                }
            }
        }
        let ghost prev = res@;
        res.push(w);
        proof {
            assert forall|i: int|
                0 <= i < 32 * (blk + 1) && is_nuc(nuc@[i]) implies code_at(res@, i) == code_of(
                nuc@[i],
            ) by {
                if 32 * blk <= i {
                    let t = i - 32 * (blk as int);
                    lemma_code_at_word(res@, blk as int, t);
                    assert(lane64(w, t) == extract_code(nuc@[32 * (blk as int) + t]));
                    lemma_extract_is_code(nuc@[i]);
                } else {
                    assert(code_at(prev, i) == code_of(nuc@[i]));
                    assert(res@[i / 32] == prev[i / 32]);
                }
            }
        }
        blk = blk + 1;
    }
    if n % 32 > 0 {
        let w = pack_word_table(nuc, 32 * full, n - 32 * full);
        let ghost prev = res@;
        res.push(w);
        proof {
            assert forall|i: int|
                0 <= i < n && is_nuc(nuc@[i]) implies code_at(res@, i) == code_of(nuc@[i]) by {
                if 32 * full <= i {
                    let t = i - 32 * (full as int);
                    lemma_code_at_word(res@, full as int, t);
                    assert(lane64(w, t) == code_of(nuc@[32 * (full as int) + t]));
                } else {
                    assert(code_at(prev, i) == code_of(nuc@[i]));
                    assert(res@[i / 32] == prev[i / 32]);
                }
            }
        }
    }
    res
}

/// Encode an ASCII symbol buffer into a packed buffer of
/// `ceil(len / 32)` words, two bits per symbol.
///
/// Dispatches on the input size: at least 32 bytes take the 32-byte block
/// tier, at least 16 the 16-byte block tier, anything shorter the
/// per-symbol table tier. Every recognized symbol's code is the same
/// whatever the tier; a byte outside the symbol set has no defined code
/// (run the validity checker first when that matters).
pub fn nuc2bit(nuc: &[u8]) -> (r: Vec<u64>)
    ensures
        r@.len() == words_for(nuc@.len() as int),
        forall|i: int|
            0 <= i < nuc@.len() && is_nuc(nuc@[i]) ==> code_at(r@, i) == code_of(nuc@[i]),
{
    if nuc.len() >= 32 {
        return nuc2bit_wide(nuc);
    }
    if nuc.len() >= 16 {
        return nuc2bit_narrow(nuc);
    }
    nuc2bit_lut(nuc)
}

} // verus!
