//! Shared constants and type aliases for the trie's encoding.

use vstd::prelude::*;

verus! {

/// Levels below the cutoff are encoded densely when this is set.
pub const K_INCLUDE_DENSE: bool = true;

/// Favour the dense encoding for a level while
/// `dense_cost * K_SPARSE_DENSE_RATIO < sparse_cost`.
pub const K_SPARSE_DENSE_RATIO: u32 = 64;

/// Bits per machine word of the packed bit vectors.
pub const K_WORD_SIZE: usize = 64;

/// Mask selecting the most significant bit of a word; bit `i` of a word is
/// stored at `K_MSB_MASK >> i`, so bit 0 is the most significant.
pub const K_MSB_MASK: u64 = 0x8000000000000000;

/// A word with every bit set.
pub const K_ONE_MASK: u64 = 0xFFFFFFFFFFFFFFFF;

/// Label byte standing for "the key ends at this node".
pub const K_TERMINATOR: u8 = 0;

/// Fixed fan-out of a dense node: one slot per possible label byte.
pub const K_FANOUT: usize = 256;

/// Sentinel returned by searches that found no key.
pub const K_NOT_FOUND: usize = usize::MAX;

/// Number of grid neighbours of a point: 3 steps in each of 3 dimensions.
pub const EXTEND_NUMBER: usize = 27;

#[allow(non_camel_case_types)]
pub type level_t = usize;

#[allow(non_camel_case_types)]
pub type position_t = usize;

#[allow(non_camel_case_types)]
pub type word_t = u64;

#[allow(non_camel_case_types)]
pub type label_t = u8;

/// How stored suffixes are encoded. Only whole key tails are kept.
#[derive(Copy, Clone, PartialEq, Eq, Structural)]
pub enum SuffixType {
    KNone,
}

/// Errors surfaced by trie construction and deserialization.
#[derive(Copy, Clone, Debug, PartialEq, Eq, Structural)]
pub enum TrieError {
    /// The key set handed to the builder was not sorted ascending with
    /// adjacent duplicates collapsed.
    UnsortedInput,
    /// The builder produced arrays that fail the trie's internal checks;
    /// the input violated a construction assumption.
    BuildFailure,
    /// The serialized bytes do not spell a well-formed index.
    CorruptedIndex,
}

} // verus!
