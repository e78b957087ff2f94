//! A 2-bit nucleotide codec with bit-level analytics on the packed form.
//!
//! Sequences of ASCII nucleotide symbols (`A`, `C`, `G`, `T`, `U`, case
//! insensitive) are packed into 64-bit words, two bits per symbol, least
//! significant pair first. All analytics (validity check, complement,
//! popcount, Hamming distance, equality up to a logical length) operate
//! directly on the packed words. Every operation comes in several tiers —
//! a simple per-element tier and block-oriented tiers working a word or a
//! block of words at a time — all proved to return the same value, so the
//! dispatching entry points may pick any of them.

pub mod bit2nuc;
pub mod bits;
pub mod check;
pub mod hamming;
pub mod laws;
pub mod model;
pub mod nuc2bit;
pub mod popcount;
pub mod utils;
