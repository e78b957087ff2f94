//! The mathematical model of the codec: which bytes are nucleotide symbols,
//! the bijection between symbols and 2-bit codes, and how a sequence of
//! packed 64-bit words is read at symbol and at bit granularity.

use vstd::prelude::*;

verus! {


/// ASCII codes of the recognized symbols.
pub const UC_A: u8 = 65;

pub const UC_C: u8 = 67;

pub const UC_G: u8 = 71;

pub const UC_T: u8 = 84;

pub const UC_U: u8 = 85;

pub const LC_A: u8 = 97;

pub const LC_C: u8 = 99;

pub const LC_G: u8 = 103;

pub const LC_T: u8 = 116;

pub const LC_U: u8 = 117;

/// The word each complement tier XORs against: bit `0b10` of every 2-bit
/// code flipped, which swaps the codes of `A` and `T` and of `C` and `G`.
pub const COMPLEMENT_MASK: u64 = 0xAAAA_AAAA_AAAA_AAAA;

/// Is `b` a recognized nucleotide symbol (one of `A C G T U`, either case)?
pub open spec fn is_nuc(b: u8) -> bool {
    b == UC_A || b == UC_C || b == UC_G || b == UC_T || b == UC_U
        || b == LC_A || b == LC_C || b == LC_G || b == LC_T || b == LC_U
}

/// Every byte of `s` is a recognized nucleotide symbol.
pub open spec fn all_nuc(s: Seq<u8>) -> bool {
    forall|i: int| 0 <= i < s.len() ==> is_nuc(s[i])
}

/// The 2-bit code of a symbol: `A` is 0, `C` is 1, `T` (and its synonym `U`)
/// is 2, `G` is 3, case insensitive. Bytes outside the symbol set map to 0;
/// the encoder documents that policy rather than failing.
pub open spec fn code_of(b: u8) -> u64 {
    if b == UC_C || b == LC_C {
        1
    } else if b == UC_T || b == LC_T || b == UC_U || b == LC_U {
        2
    } else if b == UC_G || b == LC_G {
        3
    } else {
        0
    }
}

/// The canonical symbol of a 2-bit code: the exact inverse of `code_of`
/// restricted to upper-case `A C T G` (`U` decodes as `T`).
pub open spec fn sym_of(c: u64) -> u8 {
    if c == 0 {
        UC_A
    } else if c == 1 {
        UC_C
    } else if c == 2 {
        UC_T
    } else {
        UC_G
    }
}

/// The canonical form of a symbol: upper case, with `U` rewritten to `T`.
pub open spec fn canonical_sym(b: u8) -> u8 {
    sym_of(code_of(b))
}

/// The complementary code: `A` and `T` swap, `C` and `G` swap.
pub open spec fn comp_code(c: u64) -> u64 {
    if c == 0 {
        2
    } else if c == 1 {
        3
    } else if c == 2 {
        0
    } else {
        1
    }
}

/// How many words a packed buffer of `n` symbols occupies: 32 codes per word,
/// rounded up.
pub open spec fn words_for(n: int) -> int {
    n / 32 + if n % 32 == 0 {
        0int
    } else {
        1int
    }
}

/// The 2-bit code of symbol `i` in a packed buffer: codes fill each word from
/// the least significant pair upward, then continue in the next word.
pub open spec fn code_at(words: Seq<u64>, i: int) -> u64 {
    (words[i / 32] >> ((2 * (i % 32)) as u64)) & 3
}

/// Bit `i` of a packed buffer, in the same least-significant-first order.
pub open spec fn bit_at(words: Seq<u64>, i: int) -> u64 {
    (words[i / 64] >> ((i % 64) as u64)) & 1
}

/// The symbol sequence a packed buffer holds: the first `len` codes, each
/// mapped to its canonical symbol.
pub open spec fn decoded(words: Seq<u64>, len: int) -> Seq<u8> {
    Seq::new(len as nat, |i: int| sym_of(code_at(words, i)))
}

/// The buffer with every word XORed against `COMPLEMENT_MASK`: every code
/// replaced by its complementary code, tail padding included.
pub open spec fn comp_words(words: Seq<u64>) -> Seq<u64> {
    Seq::new(words.len(), |i: int| words[i] ^ COMPLEMENT_MASK)
}

/// How many of the first `len` bits of a packed buffer are set.
pub open spec fn count_bits(words: Seq<u64>, len: int) -> int
    decreases len,
{
    if len <= 0 {
        0
    } else {
        count_bits(words, len - 1) + bit_at(words, len - 1) as int
    }
}

/// How many of the bits at positions `lo..hi` are set.
pub open spec fn count_bits_range(words: Seq<u64>, lo: int, hi: int) -> int
    decreases hi - lo,
{
    if hi <= lo {
        0
    } else {
        count_bits_range(words, lo, hi - 1) + bit_at(words, hi - 1) as int
    }
}

/// At how many of the first `len` symbol positions two packed buffers differ.
pub open spec fn diff_count(a: Seq<u64>, b: Seq<u64>, len: int) -> int
    decreases len,
{
    if len <= 0 {
        0
    } else {
        diff_count(a, b, len - 1) + if code_at(a, len - 1) == code_at(b, len - 1) {
            0int
        } else {
            1int
        }
    }
}

/// Two packed buffers agree on their first `len` symbols; the tail padding
/// beyond `len` plays no part.
pub open spec fn eq_upto(a: Seq<u64>, b: Seq<u64>, len: int) -> bool {
    forall|i: int| 0 <= i < len ==> code_at(a, i) == code_at(b, i)
}

/// How many of the low `k` bits of one word are set.
pub open spec fn pop_below(w: u64, k: int) -> int
    decreases k,
{
    if k <= 0 {
        0
    } else {
        pop_below(w, k - 1) + ((w >> ((k - 1) as u64)) & 1) as int
    }
}

/// The population count of one word.
pub open spec fn pop64(w: u64) -> int {
    pop_below(w, 64)
}

} // verus!
