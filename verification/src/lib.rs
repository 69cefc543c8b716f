//! A verified decoder for the legacy `.lzma` stream format and for raw LZMA2
//! chunk streams.
//!
//! The crate is organised bottom-up:
//! - [`byte_reader`] holds the in-memory byte source that all decoding reads
//!   from,
//! - [`range_dec`] holds the binary arithmetic (range) decoder,
//! - [`lz_decoder`] holds the cyclic dictionary window,
//! - [`state`] and [`decoder`] hold the LZMA literal/match state machine,
//! - [`lzma_reader`] and [`lzma2_reader`] wire those together behind the two
//!   public reader facades.

use vstd::prelude::*;

pub mod byte_reader;
pub mod decoder;
pub mod lz_decoder;
pub mod lzma2_reader;
pub mod lzma_reader;
pub mod range_dec;
pub mod state;

verus! {

/// Smallest dictionary a decoder will actually allocate; smaller requests are
/// rounded up to this.
pub const DICT_SIZE_MIN: u64 = 4096;

/// Largest dictionary size accepted in a `.lzma` header.
pub const DICT_SIZE_MAX: u64 = 0xFFFF_FFFF_FFFF_FFF0u64;

/// Adaptive probabilities are 11-bit quantities; this is `1 << 11`.
pub const BIT_MODEL_TOTAL: u16 = 2048;

/// Initial value of every adaptive probability: half of [`BIT_MODEL_TOTAL`].
pub const PROB_INIT: u16 = 1024;

/// How errors surface from every decoding entry point. Errors are values;
/// nothing in this crate panics.
#[derive(Clone, Copy, Debug, PartialEq, Eq, Structural)]
pub enum Error {
    /// Malformed header, out-of-range properties, illegal chunk control byte,
    /// non-zero range-coder prime byte, or a match distance that reaches
    /// beyond the bytes decoded so far.
    InvalidInput,
    /// The stream claims to end while the decoder still holds unfinished
    /// work (a pending match, unread compressed bytes, or a non-zero
    /// range-coder word when a strict end is expected).
    InvalidData,
    /// The requested configuration exceeds the caller-supplied memory limit.
    OutOfMemory,
    /// The byte source ran out in the middle of a chunk.
    UnexpectedEof,
}

/// Every adaptive probability stays inside `[0, BIT_MODEL_TOTAL - 1]`.
pub open spec fn probs_ok(s: Seq<u16>) -> bool {
    forall|i: int| 0 <= i < s.len() ==> s[i] <= 2047
}

} // verus!
