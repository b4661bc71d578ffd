//! Suffix-word construction. Whole key tails are kept verbatim in the
//! trie's suffix store, so no per-key suffix bits are packed and the
//! constructed suffix word is always empty.

use vstd::prelude::*;
use crate::config::{SuffixType, word_t};

verus! {

/// Builder of per-key suffix words.
pub struct BitvectorSuffix {}

impl BitvectorSuffix {
    /// The suffix word packed for one key: empty for every suffix mode the
    /// trie stores, since tails live verbatim in the suffix store.
    pub fn construct_suffix(suffix_type: SuffixType) -> (r: word_t)
        ensures
            r == 0,
    {
        match suffix_type {
            SuffixType::KNone => 0,
        }
    }

    /// An empty suffix-bit store.
    pub fn new() -> BitvectorSuffix {
        BitvectorSuffix {  }
    }
}

} // verus!
