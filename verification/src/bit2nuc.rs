//! The decoder: a packed buffer and a logical symbol count turned back into
//! an ASCII symbol buffer of exactly that many canonical symbols.
//!
//! The per-symbol tier extracts each 2-bit code by shift and mask and maps
//! it through the 4-entry table. The block tiers walk a whole word (or a
//! 32-bit half-word) at a time, decoding its 32 (or 16) codes in one pass,
//! and fall back to the per-symbol technique for the tail. Tail padding
//! beyond the requested count is never read.

use vstd::prelude::*;

verus! {

use crate::bits::{lemma_code_at_word, lemma_lane_le3};
use crate::model::{UC_A, UC_C, UC_G, UC_T, code_at, decoded, sym_of};

/// Asking for more symbols than the packed buffer can hold.
#[derive(Clone, Copy, Debug, PartialEq, Eq, Structural)]
pub struct LengthError;

/// The 4-entry table: the canonical ASCII symbol of one 2-bit code.
pub fn sym_of_code(c: u64) -> (b: u8)
    requires
        c < 4,
    ensures
        b == sym_of(c),
{
    if c == 0 {
        UC_A
    } else if c == 1 {
        UC_C
    } else if c == 2 {
        UC_T
    } else {
        UC_G
    }
}

/// The shift-and-mask index arithmetic of the per-symbol tier.
proof fn lemma_decode_index(i: usize)
    by (bit_vector)
    ensures
        i >> 5 == i / 32,
        ((i & 31) << 1) == 2 * (i % 32),
        i % 32 < 32,
{
}

/// Decode one symbol at a time: extract the code by shift and mask, map it
/// through the table.
#[verifier::loop_isolation(false)]
fn decode_lut(bits: &[u64], len: usize) -> (r: Vec<u8>)
    requires
        len <= bits@.len() * 32,
    ensures
        r@ == decoded(bits@, len as int),
{
    let mut res: Vec<u8> = Vec::new();
    let mut i: usize = 0;
    while i < len
        invariant
            i <= len,
            res@.len() == i as int,
            forall|k: int| 0 <= k < i ==> res@[k] == sym_of(code_at(bits@, k)),
        decreases len - i,
    {
        proof {
            lemma_decode_index(i);
        }
        let offset = i >> 5;
        let shift = ((i & 31) << 1) as u64;
        let curr = bits[offset];
        let code = (curr >> shift) & 3;
        proof {
            lemma_lane_le3(curr, shift);
        }
        res.push(sym_of_code(code));
        i = i + 1;
    }
    proof {
        assert(res@ =~= decoded(bits@, len as int));
    }
    res
}

/// The per-symbol decoding tier, callable on its own.
pub fn pub_decode_lut(bits: &[u64], len: usize) -> (r: Vec<u8>)
    requires
        len <= bits@.len() * 32,
    ensures
        r@ == decoded(bits@, len as int),
{
    decode_lut(bits, len)
}

/// Decode a whole word per step, 32 symbols at a time; the tail re-invokes
/// the per-symbol technique. The result is identical to the per-symbol tier.
#[verifier::loop_isolation(false)]
pub fn decode_wide(bits: &[u64], len: usize) -> (r: Vec<u8>)
    requires
        len <= bits@.len() * 32,
    ensures
        r@ == decoded(bits@, len as int),
{
    let mut res: Vec<u8> = Vec::new();
    let full = len / 32;
    let mut q: usize = 0;
    while q < full
        invariant
            q <= full,
            res@.len() == 32 * q as int,
            forall|k: int| 0 <= k < 32 * q ==> res@[k] == sym_of(code_at(bits@, k)),
        decreases full - q,
    {
        let curr = bits[q];
        let mut j: usize = 0;
        while j < 32
            invariant
                j <= 32,
                res@.len() == 32 * q as int + j as int,
                forall|k: int| 0 <= k < 32 * q + j ==> res@[k] == sym_of(code_at(bits@, k)),
            decreases 32 - j,
        {
            let code = (curr >> ((2 * j) as u64)) & 3;
            proof {
                lemma_lane_le3(curr, (2 * j) as u64);
                lemma_code_at_word(bits@, q as int, j as int);
            }
            res.push(sym_of_code(code));
            j = j + 1;
        }
        q = q + 1;
    }
    let mut i: usize = 32 * full;
    while i < len
        invariant
            32 * full <= i <= len,
            res@.len() == i as int,
            forall|k: int| 0 <= k < i ==> res@[k] == sym_of(code_at(bits@, k)),
        decreases len - i,
    {
        proof {
            lemma_decode_index(i);
        }
        let offset = i >> 5;
        let shift = ((i & 31) << 1) as u64;
        let curr = bits[offset];
        let code = (curr >> shift) & 3;
        proof {
            lemma_lane_le3(curr, shift);
        }
        res.push(sym_of_code(code));
        i = i + 1;
    }
    proof {
        assert(res@ =~= decoded(bits@, len as int));
    }
    res
}

/// Decode a 32-bit half-word per step, 16 symbols at a time; the tail
/// re-invokes the per-symbol technique. The result is identical to the
/// per-symbol tier.
#[verifier::loop_isolation(false)]
pub fn decode_narrow(bits: &[u64], len: usize) -> (r: Vec<u8>)
    requires
        len <= bits@.len() * 32,
    ensures
        r@ == decoded(bits@, len as int),
{
    let mut res: Vec<u8> = Vec::new();
    let halves = len / 16;
    let mut h: usize = 0;
    while h < halves
        invariant
            h <= halves,
            res@.len() == 16 * h as int,
            forall|k: int| 0 <= k < 16 * h ==> res@[k] == sym_of(code_at(bits@, k)),
        decreases halves - h,
    {
        let curr = bits[h / 2];
        let base = 16 * (h % 2);
        let mut j: usize = 0;
        while j < 16
            invariant
                j <= 16,
                res@.len() == 16 * h as int + j as int,
                forall|k: int| 0 <= k < 16 * h + j ==> res@[k] == sym_of(code_at(bits@, k)),
            decreases 16 - j,
        {
            let code = (curr >> ((2 * (base + j)) as u64)) & 3;
            proof {
                lemma_lane_le3(curr, (2 * (base + j)) as u64);
                lemma_code_at_word(bits@, (h / 2) as int, (base + j) as int);
                assert(32 * ((h as int) / 2) + (16 * ((h as int) % 2) + j) == 16 * h + j);
            }
            res.push(sym_of_code(code));
            j = j + 1;
        }
        h = h + 1;
    }
    let mut i: usize = 16 * halves;
    while i < len
        invariant
            16 * halves <= i <= len,
            res@.len() == i as int,
            forall|k: int| 0 <= k < i ==> res@[k] == sym_of(code_at(bits@, k)),
        decreases len - i,
    {
        proof {
            lemma_decode_index(i);
        }
        let offset = i >> 5;
        let shift = ((i & 31) << 1) as u64;
        let curr = bits[offset];
        let code = (curr >> shift) & 3;
        proof {
            lemma_lane_le3(curr, shift);
        }
        res.push(sym_of_code(code));
        i = i + 1;
    }
    proof {
        assert(res@ =~= decoded(bits@, len as int));
    }
    res
}

/// Decode the first `len` symbols of a packed buffer into a fresh ASCII
/// buffer of exactly `len` canonical symbols.
///
/// Fails with a `LengthError`, before reading any word, exactly when `len`
/// exceeds the buffer's symbol capacity of 32 codes per word. On success
/// dispatches on the size: at least 32 symbols take the whole-word tier, at
/// least 16 the half-word tier, anything shorter the per-symbol tier; every
/// tier returns the same bytes.
pub fn decode(bits: &[u64], len: usize) -> (r: Result<Vec<u8>, LengthError>)
    ensures
        r is Ok <==> len <= bits@.len() * 32,
        r matches Ok(v) ==> v@ == decoded(bits@, len as int),
{
    if len / 32 > bits.len() || (len / 32 == bits.len() && len % 32 > 0) {
        return Err(LengthError);
    }
    if len >= 32 {
        return Ok(decode_wide(bits, len));
    }
    if len >= 16 {
        return Ok(decode_narrow(bits, len));
    }
    Ok(decode_lut(bits, len))
}

} // verus!
