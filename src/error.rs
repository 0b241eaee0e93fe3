//! Errors of the codec.

use vstd::prelude::*;

verus! {

/// What can go wrong while encoding a sequence or decoding its triples.
#[derive(Debug, PartialEq, Eq)]
pub enum IcgrError {
    /// Two adjacent decoded chunks disagree on the symbols they share: the
    /// tail of the earlier chunk and the head of the later one.
    OverlapMismatch { expected: Vec<u8>, actual: Vec<u8> },
    /// A chunk holds fewer symbols than the overlap it must share.
    ChunkTooShort,
    /// The reassembled sequence does not have the length the triples announce.
    LengthMismatch { expected: usize, actual: usize },
    /// A triple announces a chunk length outside `1..=MAX_DECODED_LEN`.
    InvalidBlockLength(usize),
    /// Strict encoding met a symbol other than `A`, `T`, `C` or `G`.
    UnknownNucleotide(char),
}

} // verus!
