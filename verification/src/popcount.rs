//! Verified bit-counting primitives over packed word arrays, used by the
//! rank and select structures.

use vstd::prelude::*;
use crate::bitvector::{count_ones, packed_bit, read_packed_bit};
use crate::config::{position_t, word_t};

verus! {

/// The `len` bits of a packed word array starting at bit position `lo`.
pub open spec fn packed_range(words: Seq<u64>, lo: int, len: nat) -> Seq<bool> {
    Seq::new(len, |i: int| packed_bit(words, lo + i))
}

/// Counting a concatenation counts each part.
pub proof fn lemma_count_ones_concat(a: Seq<bool>, b: Seq<bool>)
    ensures
        count_ones(a + b) == count_ones(a) + count_ones(b),
    decreases b.len(),
{
    if b.len() == 0 {
        assert(a + b =~= a);
    } else {
        lemma_count_ones_concat(a, b.drop_last());
        assert((a + b).drop_last() =~= a + b.drop_last());
        assert((a + b).last() == b.last());
    }
}

/// Counts the set bits among the `nbits` bits that start at bit position
/// `start_word * 64` of a packed word array.
pub fn popcount_linear(bits: &Vec<word_t>, start_word: position_t, nbits: position_t) -> (r:
    position_t)
    requires
        start_word * 64 + nbits <= bits@.len() * 64,
        start_word * 64 + nbits <= usize::MAX,
    ensures
        r == count_ones(packed_range(bits@, start_word * 64, nbits as nat)),
{
    let ghost s = packed_range(bits@, start_word * 64, nbits as nat);
    let base: position_t = start_word * 64;
    let mut count: position_t = 0;
    let mut j: position_t = 0;
    while j < nbits
        invariant
            j <= nbits,
            base == start_word * 64,
            base + nbits <= bits@.len() * 64,
            base + nbits <= usize::MAX,
            s == packed_range(bits@, base as int, nbits as nat),
            count == count_ones(s.take(j as int)),
            count <= j,
        decreases nbits - j,
    {
        let b = read_packed_bit(bits, base + j);
        proof {
            assert(s.take(j + 1).drop_last() =~= s.take(j as int));
            assert(s.take(j + 1).last() == packed_bit(bits@, base + j));
        }
        if b {
            count = count + 1;
        }
        j = j + 1;
    }
    proof {
        assert(s.take(nbits as int) =~= s);
    }
    count
}

/// Offset of the `k`-th set bit of the word `x`, counting set bits from the
/// most significant end.
pub fn select64_popcount_search(x: word_t, k: position_t) -> (r: position_t)
    requires
        1 <= k <= count_ones(packed_range(seq![x], 0, 64)),
    ensures
        r < 64,
        packed_bit(seq![x], r as int),
        count_ones(packed_range(seq![x], 0, (r + 1) as nat)) == k,
{
    let ghost s = packed_range(seq![x], 0, 64);
    let words = make_single_word_vec(x);
    let mut count: position_t = 0;
    let mut j: position_t = 0;
    while j < 64
        invariant
            j <= 64,
            words@ =~= seq![x],
            s == packed_range(seq![x], 0, 64),
            count == count_ones(s.take(j as int)),
            count < k,
            k <= count_ones(s),
        decreases 64 - j,
    {
        let b = read_packed_bit(&words, j);
        proof {
            assert(s.take(j + 1).drop_last() =~= s.take(j as int));
            assert(s.take(j + 1).last() == packed_bit(seq![x], j as int));
        }
        if b {
            count = count + 1;
            if count == k {
                proof {
                    assert(packed_range(seq![x], 0, (j + 1) as nat) =~= s.take(j + 1));
                }
                return j;
            }
        }
        j = j + 1;
    }
    proof {
        assert(s.take(64) =~= s);
        assert(false);
    }
    vstd::pervasive::unreached()
}

/// A one-element word vector, to read bits of a single word.
fn make_single_word_vec(x: word_t) -> (r: Vec<word_t>)
    ensures
        r@ =~= seq![x],
{
    let mut v: Vec<word_t> = Vec::new();
    v.push(x);
    v
}

} // verus!
