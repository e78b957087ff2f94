//! The validity checker: does a buffer hold only recognized nucleotide
//! symbols? The empty buffer is vacuously valid.
//!
//! The per-byte tier tests each byte against the symbol set directly, four
//! bytes per step. The block tiers use a bitmap membership test instead:
//! every recognized symbol lies in the ASCII range 64 to 127, so one 64-bit
//! bitmap indexed by the low six bits decides membership for that range and
//! everything outside the range fails outright. A block accumulates one
//! "invalid" flag across its bytes and short-circuits on the first bad
//! block; tail bytes take the per-byte test.

use vstd::prelude::*;

verus! {

use crate::model::{
    LC_A,
    LC_C,
    LC_G,
    LC_T,
    LC_U,
    UC_A,
    UC_C,
    UC_G,
    UC_T,
    UC_U,
    all_nuc,
    is_nuc,
};

/// Membership bitmap for bytes 64 to 127: bit `b - 64` is set exactly for
/// the ten recognized symbol bytes.
pub const NUC_BITMAP: u64 = 0x0030_008A_0030_008A;

/// The bitmap test agrees with the symbol set: within the range the indexed
/// bit decides membership, outside the range nothing is a symbol.
proof fn lemma_bitmap_flag(b: u8)
    by (bit_vector)
    ensures
        (64 <= b && b < 128) ==> (((((0x0030_008A_0030_008Au64 >> ((b - 64) as u64)) & 1) ^ 1) == 0)
            == is_nuc(b)),
        (b < 64 || b >= 128) ==> !is_nuc(b),
{
}

/// A word stays zero under OR exactly when both operands are zero.
proof fn lemma_or_zero(x: u64, y: u64)
    by (bit_vector)
    ensures
        ((x | y) == 0) == (x == 0 && y == 0),
{
}

/// Is this byte a recognized symbol? The membership table, written out.
pub fn is_nuc_byte(b: u8) -> (r: bool)
    ensures
        r == is_nuc(b),
{
    b == UC_A || b == UC_C || b == UC_G || b == UC_T || b == UC_U || b == LC_A || b == LC_C || b
        == LC_G || b == LC_T || b == LC_U
}

/// Check four bytes per step against the membership table, then the
/// remainder one at a time, short-circuiting on the first invalid byte.
#[verifier::loop_isolation(false)]
pub fn check_scalar(nuc: &[u8]) -> (r: bool)
    ensures
        r == all_nuc(nuc@),
{
    let n = nuc.len();
    let end_idx = n / 4;
    let mut i: usize = 0;
    while i < end_idx
        invariant
            i <= end_idx,
            forall|k: int| 0 <= k < 4 * i ==> is_nuc(nuc@[k]),
        decreases end_idx - i,
    {
        let a = !is_nuc_byte(nuc[4 * i]) || !is_nuc_byte(nuc[4 * i + 1]);
        let b = !is_nuc_byte(nuc[4 * i + 2]) || !is_nuc_byte(nuc[4 * i + 3]);
        if a || b {
            return false;
        }
        i = i + 1;
    }
    let mut k: usize = 4 * end_idx;
    while k < n
        invariant
            4 * end_idx <= k <= n,
            forall|t: int| 0 <= t < k ==> is_nuc(nuc@[t]),
        decreases n - k,
    {
        if !is_nuc_byte(nuc[k]) {
            return false;
        }
        k = k + 1;
    }
    true
}

/// Check one block of `count` bytes starting at `base` with the bitmap
/// test, accumulating a single invalid flag across the block.
#[verifier::loop_isolation(false)]
fn check_block_bitmap(nuc: &[u8], base: usize, count: usize) -> (ok: bool)
    requires
        base + count <= nuc@.len(),
    ensures
        ok == (forall|t: int| 0 <= t < count ==> is_nuc(#[trigger] nuc@[base + t])),
{
    let n = nuc.len();
    let mut bad: u64 = 0;
    let mut j: usize = 0;
    while j < count
        invariant
            j <= count,
            (bad == 0) <==> (forall|t: int| 0 <= t < j ==> is_nuc(#[trigger] nuc@[base + t])),
        decreases count - j,
    {
        let b = nuc[base + j];
        let flag: u64 = if b < 64 || b >= 128 {
            1
        } else {
            ((NUC_BITMAP >> ((b - 64) as u64)) & 1) ^ 1
        };
        proof {
            lemma_bitmap_flag(b);
            lemma_or_zero(bad, flag);
            assert((flag == 0) == is_nuc(nuc@[base + j as int]));
        }
        let ghost old_bad = bad;
        bad = bad | flag;
        proof {
            if bad == 0 {
                assert forall|t: int| 0 <= t < j + 1 implies is_nuc(#[trigger] nuc@[base + t]) by {
                    if t < j {
                        assert(is_nuc(nuc@[base + t]));
                    }
                }
            } else {
                if old_bad == 0 {
                    assert(!is_nuc(nuc@[base + j as int]));
                }
            }
        }
        j = j + 1;
    }
    bad == 0
}

/// Check 32 bytes per block with the bitmap test, short-circuiting on the
/// first bad block; tail bytes take the per-byte test. The result is
/// identical to `check_scalar`.
#[verifier::loop_isolation(false)]
pub fn check_wide(nuc: &[u8]) -> (r: bool)
    ensures
        r == all_nuc(nuc@),
{
    let n = nuc.len();
    let full = n / 32;
    let mut blk: usize = 0;
    while blk < full
        invariant
            blk <= full,
            forall|k: int| 0 <= k < 32 * blk ==> is_nuc(nuc@[k]),
        decreases full - blk,
    {
        if !check_block_bitmap(nuc, 32 * blk, 32) {
            return false;
        }
        proof {
            assert forall|k: int| 0 <= k < 32 * (blk + 1) implies is_nuc(nuc@[k]) by {
                if 32 * blk <= k {
                    assert(is_nuc(nuc@[32 * (blk as int) + (k - 32 * (blk as int))]));
                }
            }
        }
        blk = blk + 1;
    }
    let mut k: usize = 32 * full;
    while k < n
        invariant
            32 * full <= k <= n,
            forall|t: int| 0 <= t < k ==> is_nuc(nuc@[t]),
        decreases n - k,
    {
        if !is_nuc_byte(nuc[k]) {
            return false;
        }
        k = k + 1;
    }
    true
}

/// Check 16 bytes per block with the bitmap test, short-circuiting on the
/// first bad block; tail bytes take the per-byte test. The result is
/// identical to `check_scalar`.
#[verifier::loop_isolation(false)]
pub fn check_narrow(nuc: &[u8]) -> (r: bool)
    ensures
        r == all_nuc(nuc@),
{
    let n = nuc.len();
    let full = n / 16;
    let mut blk: usize = 0;
    while blk < full
        invariant
            blk <= full,
            forall|k: int| 0 <= k < 16 * blk ==> is_nuc(nuc@[k]),
        decreases full - blk,
    {
        if !check_block_bitmap(nuc, 16 * blk, 16) {
            return false;
        }
        proof {
            assert forall|k: int| 0 <= k < 16 * (blk + 1) implies is_nuc(nuc@[k]) by {
                if 16 * blk <= k {
                    assert(is_nuc(nuc@[16 * (blk as int) + (k - 16 * (blk as int))]));
                }
            }
        }
        blk = blk + 1;
    }
    let mut k: usize = 16 * full;
    while k < n
        invariant
            16 * full <= k <= n,
            forall|t: int| 0 <= t < k ==> is_nuc(nuc@[t]),
        decreases n - k,
    {
        if !is_nuc_byte(nuc[k]) {
            return false;
        }
        k = k + 1;
    }
    true
}

/// Is every byte of the buffer a recognized nucleotide symbol (one of
/// `A C G T U`, either case)? True of the empty buffer.
///
/// Dispatches on the input size: at least 32 bytes take the 32-byte block
/// tier, at least 16 the 16-byte block tier, anything shorter the per-byte
/// tier. Every tier returns the same answer.
pub fn check(nuc: &[u8]) -> (r: bool)
    ensures
        r == all_nuc(nuc@),
{
    if nuc.len() >= 32 {
        return check_wide(nuc);
    }
    if nuc.len() >= 16 {
        return check_narrow(nuc);
    }
    check_scalar(nuc)
}

/// The four-bytes-per-step membership tier, callable on its own.
pub fn pub_check_scalar(nuc: &[u8]) -> (r: bool)
    ensures
        r == all_nuc(nuc@),
{
    check_scalar(nuc)
}

} // verus!
