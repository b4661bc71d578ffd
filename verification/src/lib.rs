//! A succinct ordered-key trie: a compact, read-only index over a sorted set
//! of byte-string keys. Trie topology is encoded as bit vectors with
//! rank/select support instead of node pointers. Shallow levels use a dense
//! 256-slot bitmap per node; deep levels use a sparse label-run encoding.
//! Key tails that the trie path does not distinguish are kept in a shared
//! suffix store and compared byte for byte, so lookups have no false
//! positives. The whole index serializes to a length-prefixed, big-endian
//! byte format and deserializes back to byte-identical state.

pub mod bitvector;
pub mod builder;
pub mod codec;
pub mod config;
pub mod label_vector;
pub mod louds_dense;
pub mod louds_sparse;
pub mod popcount;
pub mod rank;
pub mod select;
pub mod suffix;
pub mod trajectory;
pub mod trie;
