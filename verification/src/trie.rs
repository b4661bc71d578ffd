//! The trie facade: composes the dense and sparse traversal structures
//! with a shared suffix store, and answers exact membership by traversing
//! the levels and then comparing the key's remaining tail byte for byte
//! against the stored suffix. Also the grid-neighbor key encoder used for
//! tolerance-bounded approximate search.

use vstd::prelude::*;
use crate::builder::Builder;
use crate::codec::{be_val, lemma_be_round_trip, lemma_pow2_le_max128, push_u64_be, read_u64_be,
    spec_u128_tail_bytes, spec_u64_to_be, u128_from_be, u128_tail_bytes, u64_to_usize_checked};
use crate::config::{EXTEND_NUMBER, K_INCLUDE_DENSE, K_NOT_FOUND, K_SPARSE_DENSE_RATIO, TrieError,
    level_t, position_t};
use crate::louds_dense::{LoudsDense, LoudsDenseV, dec_louds_dense, enc_louds_dense,
    lemma_dec_enc_louds_dense, spec_dense_find};
use crate::louds_sparse::{LoudsSparse, LoudsSparseV, dec_louds_sparse, enc_louds_sparse,
    lemma_dec_enc_louds_sparse, spec_sparse_find};

verus! {

/// Abstract content of a [`CompactArray`].
pub struct CompactArrayV {
    pub size: u32,
    pub mask: u32,
    pub bits: u32,
    pub chunks: Seq<u32>,
}

impl CompactArrayV {
    /// Well-formed: entries are 1 to 31 bits wide, the mask selects one
    /// entry's bits, and the chunk array has the size the packing needs.
    pub open spec fn wf(self) -> bool {
        &&& 1 <= self.bits <= 31
        &&& self.mask == (1u32 << self.bits) - 1
        &&& self.size * self.bits <= u32::MAX
        &&& self.chunks.len() == self.size * self.bits as int / 32 + 1
    }
}

/// Entry `i` of a compact array: `bits` wide, packed back to back across
/// 32-bit chunks.
pub open spec fn spec_ca_get(v: CompactArrayV, i: int) -> u32 {
    let quo = i * v.bits as int / 32;
    let modu = (i * v.bits as int) % 32;
    if modu + v.bits <= 32 {
        (v.chunks[quo] >> (modu as u32)) & v.mask
    } else {
        ((v.chunks[quo] >> (modu as u32)) | (v.chunks[quo + 1] << ((32 - modu) as u32))) & v.mask
    }
}

/// Entry `i` of a packed chunk array, independent of the entry count.
pub open spec fn spec_packed_get(chunks: Seq<u32>, bits: u32, mask: u32, i: int) -> u32 {
    spec_ca_get(CompactArrayV { size: 0, mask, bits, chunks }, i)
}

/// Bit `p` of a chunk array, chunks indexed low bit first.
pub open spec fn spec_chunk_bit(chunks: Seq<u32>, p: int) -> bool {
    chunks[p / 32] & (1u32 << ((p % 32) as u32)) != 0
}

/// A word whose bits at `m` and beyond are clear vanishes when shifted.
proof fn lemma_clear_bits_shift(c: u32, m: u32)
    requires
        m < 32,
        forall|b: u32| m <= b < 32 ==> c & (1u32 << b) == 0,
    ensures
        c >> m == 0,
    decreases 32 - m,
{
    if m == 31 {
        assert(c & (1u32 << 31) == 0 ==> c >> 31u32 == 0) by (bit_vector);
    } else {
        lemma_clear_bits_shift(c, (m + 1) as u32);
        let m1 = (m + 1) as u32;
        assert((c >> m1 == 0 && c & (1u32 << m) == 0 && m < 31 && m1 == m + 1) ==> c >> m
            == 0) by (bit_vector);
    }
}

/// Writing a field at offset `m` leaves every read of bits that end at or
/// below `m` unchanged, and the field itself reads back exactly.
proof fn lemma_pack_low(c: u32, v: u32, m: u32, bits: u32)
    by (bit_vector)
    requires
        bits >= 1,
        bits <= 31,
        m < 32,
        c >> m == 0,
        v < (1u32 << bits),
    ensures
        m + bits <= 32 ==> ((c | (v << m)) >> m) & (((1u32 << bits) - 1) as u32) == v,
        forall|s: u32, w: u32|
            s + w <= m && w >= 1 ==> ((c | (v << m)) >> s) & (((1u32 << w) - 1) as u32) == (c >> s) & (((
            1u32 << w) - 1) as u32),
        forall|k: u32| m + k >= 32 && k < 32 ==> ((c | (v << m)) << k) == (c << k),
        forall|b: u32| m + bits <= b < 32 ==> (c | (v << m)) & (1u32 << b) == 0,
        forall|b: u32| b < 32 && (c | (v << m)) & (1u32 << b) != 0 ==> c & (1u32 << b) != 0 || (
        m <= b < m + bits),
{
}

/// Writing a straddled field's upper part into an empty word makes the
/// word exactly the field's upper bits.
proof fn lemma_pack_high(v: u32, m: u32, bits: u32)
    by (bit_vector)
    requires
        bits >= 1,
        bits <= 31,
        m < 32,
        32 < m + bits,
        v < (1u32 << bits),
    ensures
        (v >> ((32 - m) as u32)) < (1u32 << ((m + bits - 32) as u32)),
{
}

/// The straddled read recombines both parts into the stored field.
proof fn lemma_pack_straddle_read(c: u32, h: u32, v: u32, m: u32, bits: u32)
    by (bit_vector)
    requires
        bits >= 1,
        bits <= 31,
        m < 32,
        32 < m + bits,
        c >> m == 0,
        v < (1u32 << bits),
        h == v >> ((32 - m) as u32),
    ensures
        (((c | (v << m)) >> m) | (h << ((32 - m) as u32))) & (((1u32 << bits) - 1) as u32) == v,
{
}

/// A straddled write lands above the masked window of every earlier read.
proof fn lemma_pack_shift_preserved(x: u32, c: u32, v: u32, m: u32, w: u32, k: u32)
    by (bit_vector)
    requires
        1 <= w <= 31,
        m < 32,
        k < 32,
        m + k >= w,
    ensures
        (x | ((c | (v << m)) << k)) & (((1u32 << w) - 1) as u32) == (x | (c << k)) & (((1u32 << w)
            - 1) as u32),
{
}

/// Masking keeps a value below the field bound.
proof fn lemma_and_mask_bound(x: u32, bits: u32)
    by (bit_vector)
    requires
        1 <= bits <= 31,
    ensures
        x & (((1u32 << bits) - 1) as u32) < (1u32 << bits),
{
}

/// Masking is the identity on values below the field bound.
proof fn lemma_mask_identity(v: u32, bits: u32)
    by (bit_vector)
    requires
        1 <= bits <= 31,
        v < (1u32 << bits),
    ensures
        v & (((1u32 << bits) - 1) as u32) == v,
{
}

/// A value below the field bound keeps only low bits.
proof fn lemma_small_value_bits(v: u32, w: u32, b: u32)
    by (bit_vector)
    requires
        w <= 31,
        b < 32,
        w <= b,
        v < (1u32 << w),
    ensures
        v & (1u32 << b) == 0,
{
}


/// After packing one entry, every earlier entry still reads back, the new
/// entry reads back, and the chunk bits past the packed region stay clear.
proof fn lemma_ca_fill_step(
    pre: Seq<u32>,
    post: Seq<u32>,
    input: Seq<u32>,
    bits: u32,
    mask: u32,
    i: int,
    quo: int,
    modu: u32,
    masked: u32,
    straddles: bool,
)
    requires
        1 <= bits <= 31,
        mask == ((1u32 << bits) - 1) as u32,
        0 <= i < input.len(),
        input.len() * bits <= u32::MAX,
        pre.len() == input.len() * bits as int / 32 + 1,
        post.len() == pre.len(),
        quo == i * bits as int / 32,
        modu == (i * bits as int) % 32,
        masked == input[i] & mask,
        straddles == (32 < modu + bits),
        0 <= quo < pre.len(),
        pre[quo] >> modu == 0,
        post[quo] == pre[quo] | (masked << modu),
        !straddles ==> forall|q: int| 0 <= q < pre.len() && q != quo ==> post[q] == pre[q],
        straddles ==> quo + 1 < pre.len() && post[quo + 1] == masked >> ((32 - modu) as u32)
            && (forall|q: int|
            0 <= q < pre.len() && q != quo && q != quo + 1 ==> post[q] == pre[q]),
        forall|j: int|
            0 <= j < i ==> spec_packed_get(pre, bits, mask, j) == #[trigger] input[j] & mask,
        forall|p: int| i * bits <= p < pre.len() * 32 ==> !spec_chunk_bit(pre, p),
    ensures
        forall|j: int|
            0 <= j <= i ==> spec_packed_get(post, bits, mask, j) == #[trigger] input[j] & mask,
        forall|p: int| (i + 1) * bits <= p < post.len() * 32 ==> !spec_chunk_bit(post, p),
{
    lemma_and_mask_bound(input[i], bits);
    lemma_pack_low(pre[quo], masked, modu, bits);
    vstd::arithmetic::div_mod::lemma_fundamental_div_mod(i * bits as int, 32);
    vstd::arithmetic::mul::lemma_mul_is_distributive_add_other_way(bits as int, i, 1);
    // the new entry reads back
    if straddles {
        lemma_pack_high(masked, modu, bits);
        lemma_pack_straddle_read(pre[quo], post[quo + 1], masked, modu, bits);
        assert(spec_packed_get(post, bits, mask, i) == masked);
    } else {
        assert(spec_packed_get(post, bits, mask, i) == masked);
    }
    // earlier entries still read back
    assert forall|j: int| 0 <= j < i implies spec_packed_get(post, bits, mask, j) == #[trigger]
        input[j] & mask by {
        let qj = j * bits as int / 32;
        let mj = (j * bits as int) % 32;
        vstd::arithmetic::div_mod::lemma_fundamental_div_mod(j * bits as int, 32);
        vstd::arithmetic::div_mod::lemma_mod_division_less_than_divisor(j * bits as int, 32);
        vstd::arithmetic::mul::lemma_mul_inequality(j + 1, i, bits as int);
        vstd::arithmetic::mul::lemma_mul_is_distributive_add_other_way(bits as int, j, 1);
        vstd::arithmetic::div_mod::lemma_div_is_ordered(j * bits as int, i * bits as int, 32);
        assert(j * bits + bits <= i * bits);
        assert(qj <= quo);
        if mj + bits <= 32 {
            if qj == quo {
                assert(mj + bits <= modu);
                assert((post[qj] >> (mj as u32)) & mask == (pre[qj] >> (mj as u32)) & mask);
            } else {
                assert(post[qj] == pre[qj]);
            }
            assert(spec_packed_get(post, bits, mask, j) == spec_packed_get(pre, bits, mask, j));
        } else {
            assert(qj < quo);
            assert(qj + 1 <= quo);
            assert(mj >= 1);
            if qj + 1 == quo {
                assert(mj + bits <= 32 + modu);
                lemma_pack_shift_preserved(
                    pre[qj] >> (mj as u32),
                    pre[quo],
                    masked,
                    modu,
                    bits,
                    (32 - mj) as u32,
                );
                assert(((post[qj] >> (mj as u32)) | (post[qj + 1] << ((32 - mj) as u32))) & mask
                    == ((pre[qj] >> (mj as u32)) | (pre[qj + 1] << ((32 - mj) as u32))) & mask);
            } else {
                assert(post[qj] == pre[qj]);
                assert(post[qj + 1] == pre[qj + 1]);
            }
            assert(spec_packed_get(post, bits, mask, j) == spec_packed_get(pre, bits, mask, j));
        }
    }
    // the region past the new entry stays clear
    assert forall|p: int| (i + 1) * bits <= p < post.len() * 32 implies !spec_chunk_bit(
        post,
        p,
    ) by {
        let q = p / 32;
        let b = (p % 32) as u32;
        vstd::arithmetic::div_mod::lemma_fundamental_div_mod(p, 32);
        vstd::arithmetic::div_mod::lemma_mod_division_less_than_divisor(p, 32);
        vstd::arithmetic::div_mod::lemma_div_is_ordered(i * bits as int, p, 32);
        if q == quo {
            assert(!straddles);
            assert(modu + bits <= b < 32);
            assert(post[quo] & (1u32 << b) == 0);
        } else if straddles && q == quo + 1 {
            assert(b >= modu + bits - 32);
            lemma_small_value_bits(post[quo + 1], ((modu + bits - 32)) as u32, b);
            assert(post[quo + 1] & (1u32 << b) == 0);
        } else {
            assert(post[q] == pre[q]);
            assert(p >= i * bits);
            assert(!spec_chunk_bit(pre, p));
        }
    }
}

/// A flat array of fixed-width entries, bit-packed into 32-bit chunks;
/// used as the suffix store's offset and length tables, with the width
/// sized to the largest stored value.
pub struct CompactArray {
    size: u32,
    mask: u32,
    bits: u32,
    chunks: Vec<u32>,
}

impl View for CompactArray {
    type V = CompactArrayV;

    closed spec fn view(&self) -> CompactArrayV {
        CompactArrayV { size: self.size, mask: self.mask, bits: self.bits, chunks: self.chunks@ }
    }
}

impl CompactArray {
    /// Well-formedness of the underlying representation.
    pub open spec fn wf(&self) -> bool {
        self@.wf()
    }

    /// Packs `input` at `input_bits` bits per entry; entry `i` reads back
    /// as `input[i]` masked to the entry width.
    pub fn new(input: &Vec<u32>, input_bits: u32) -> (r: Option<CompactArray>)
        requires
            1 <= input_bits <= 31,
        ensures
            match r {
                Some(ca) => {
                    &&& ca.wf()
                    &&& ca@.size == input@.len()
                    &&& ca@.bits == input_bits
                    &&& forall|i: int|
                        0 <= i < input@.len() ==> spec_ca_get(ca@, i) == #[trigger] input@[i] & ((
                        (1u32 << input_bits) - 1) as u32)
                },
                None => input@.len() * input_bits > u32::MAX,
            },
    {
        if input.len() > u32::MAX as usize {
            proof {
                vstd::arithmetic::mul::lemma_mul_inequality(
                    u32::MAX as int + 1,
                    input@.len() as int,
                    input_bits as int,
                );
            }
            return None;
        }
        let size = input.len() as u32;
        let total = match size.checked_mul(input_bits) {
            Some(t) => t,
            None => {
                return None;
            },
        };
        proof {
            assert(1u32 << input_bits >= 1) by (bit_vector)
                requires
                    input_bits <= 31,
            ;
        }
        let mask = (1u32 << input_bits) - 1;
        let bits = input_bits;
        let chunk_count = (total / 32 + 1) as usize;
        let mut chunks: Vec<u32> = Vec::new();
        let mut k: usize = 0;
        while k < chunk_count
            invariant
                k <= chunk_count,
                chunks@.len() == k,
                forall|j: int| 0 <= j < k ==> chunks@[j] == 0u32,
            decreases chunk_count - k,
        {
            chunks.push(0);
            k = k + 1;
        }
        proof {
            assert forall|p: int| 0 <= p < chunks@.len() * 32 implies !spec_chunk_bit(
                chunks@,
                p,
            ) by {
                assert(chunks@[p / 32] == 0u32);
                assert(0u32 & (1u32 << ((p % 32) as u32)) == 0) by (bit_vector);
            }
        }
        let mut i: u32 = 0;
        while i < size
            invariant
                i <= size,
                size == input@.len(),
                size * bits <= u32::MAX,
                bits == input_bits,
                1 <= bits <= 31,
                mask == ((1u32 << bits) - 1) as u32,
                chunks@.len() == size * bits as int / 32 + 1,
                forall|j: int|
                    0 <= j < i ==> spec_packed_get(chunks@, bits, mask, j) == #[trigger] input@[j]
                        & mask,
                forall|p: int|
                    i * bits <= p < chunks@.len() * 32 ==> !spec_chunk_bit(chunks@, p),
            decreases size - i,
        {
            proof {
                vstd::arithmetic::mul::lemma_mul_inequality(
                    i as int + 1,
                    size as int,
                    bits as int,
                );
                vstd::arithmetic::mul::lemma_mul_is_distributive_add_other_way(
                    bits as int,
                    i as int,
                    1,
                );
                vstd::arithmetic::div_mod::lemma_div_is_ordered(
                    i as int * bits as int,
                    size as int * bits as int,
                    32,
                );
                vstd::arithmetic::div_mod::lemma_fundamental_div_mod(
                    i as int * bits as int,
                    32,
                );
                vstd::arithmetic::div_mod::lemma_mod_division_less_than_divisor(
                    i as int * bits as int,
                    32,
                );
            }
            let quo = ((i * bits) / 32) as usize;
            let modu = (i * bits) % 32;
            let masked = input[i as usize] & mask;
            let ghost pre = chunks@;
            let c = chunks[quo];
            proof {
                lemma_and_mask_bound(input@[i as int], bits);
                // the word is clear from the write offset up
                assert forall|b: u32| modu <= b < 32 implies c & (1u32 << b) == 0 by {
                    let p = quo * 32 + b;
                    vstd::arithmetic::div_mod::lemma_fundamental_div_mod_converse(
                        p as int,
                        32,
                        quo as int,
                        b as int,
                    );
                    assert(i * bits <= p < chunks@.len() * 32);
                    assert(!spec_chunk_bit(chunks@, p as int));
                }
                if modu < 32 {
                    lemma_clear_bits_shift(c, modu);
                }
                lemma_pack_low(c, masked, modu, bits);
            }
            let low = c | (masked << modu);
            chunks[quo] = low;
            let straddles = 32 < modu + bits;
            if straddles {
                proof {
                    assert(i as int * bits as int + 32 - modu < (i + 1) as int * bits as int);
                    vstd::arithmetic::div_mod::lemma_div_is_ordered(
                        (i as int * bits as int + 32 - modu),
                        size as int * bits as int,
                        32,
                    );
                    vstd::arithmetic::div_mod::lemma_fundamental_div_mod_converse(
                        i as int * bits as int + (32 - modu),
                        32,
                        i as int * bits as int / 32 + 1,
                        0,
                    );
                }
                let c2 = chunks[quo + 1];
                proof {
                    assert forall|b: u32| b < 32 implies c2 & (1u32 << b) == 0 by {
                        let p = (quo + 1) * 32 + b;
                        vstd::arithmetic::div_mod::lemma_fundamental_div_mod_converse(
                            p as int,
                            32,
                            quo + 1,
                            b as int,
                        );
                        assert(i * bits <= p < pre.len() * 32);
                        assert(pre[quo + 1] == chunks@[quo + 1]);
                        assert(!spec_chunk_bit(pre, p as int));
                    }
                    lemma_clear_bits_shift(c2, 0);
                    assert(c2 >> 0u32 == c2) by (bit_vector);
                    assert(c2 == 0);
                    lemma_pack_high(masked, modu, bits);
                }
                let high = c2 | (masked >> (32 - modu));
                chunks[quo + 1] = high;
                proof {
                    assert(0u32 | (masked >> ((32 - modu) as u32)) == masked >> ((32 - modu)
                        as u32)) by (bit_vector);
                }
            }
            proof {
                lemma_ca_fill_step(
                    pre,
                    chunks@,
                    input@,
                    bits,
                    mask,
                    i as int,
                    quo as int,
                    modu,
                    masked,
                    straddles,
                );
            }
            i = i + 1;
        }
        proof {
            assert forall|j: int| 0 <= j < size implies spec_ca_get(
                CompactArrayV { size, mask, bits, chunks: chunks@ },
                j,
            ) == #[trigger] input@[j] & mask by {
                assert(spec_packed_get(chunks@, bits, mask, j) == input@[j] & mask);
            }
        }
        Some(CompactArray { size, mask, bits, chunks })
    }

    /// Number of entries.
    pub fn len(&self) -> (r: u32)
        ensures
            r == self@.size,
    {
        self.size
    }

    /// Reads entry `i`.
    pub fn get(&self, i: u32) -> (r: u32)
        requires
            self.wf(),
            i < self@.size,
        ensures
            r == spec_ca_get(self@, i as int),
    {
        proof {
            vstd::arithmetic::mul::lemma_mul_inequality(
                i as int + 1,
                self@.size as int,
                self@.bits as int,
            );
            vstd::arithmetic::mul::lemma_mul_is_distributive_add_other_way(
                self@.bits as int,
                i as int,
                1,
            );
            vstd::arithmetic::div_mod::lemma_div_is_ordered(
                i as int * self@.bits as int,
                self@.size as int * self@.bits as int,
                32,
            );
            vstd::arithmetic::div_mod::lemma_fundamental_div_mod(
                i as int * self@.bits as int,
                32,
            );
            vstd::arithmetic::div_mod::lemma_mod_division_less_than_divisor(
                i as int * self@.bits as int,
                32,
            );
        }
        let quo = ((i * self.bits) / 32) as usize;
        let modu = (i * self.bits) % 32;
        if modu + self.bits <= 32 {
            (self.chunks[quo] >> modu) & self.mask
        } else {
            proof {
                assert(i as int * self@.bits as int + 32 - modu < (i + 1) as int * self@.bits
                    as int);
                vstd::arithmetic::div_mod::lemma_div_is_ordered(
                    (i as int * self@.bits as int + 32 - modu),
                    self@.size as int * self@.bits as int,
                    32,
                );
                vstd::arithmetic::div_mod::lemma_fundamental_div_mod_converse(
                    i as int * self@.bits as int + (32 - modu),
                    32,
                    i as int * self@.bits as int / 32 + 1,
                    0,
                );
            }
            ((self.chunks[quo] >> modu) | (self.chunks[quo + 1] << (32 - modu))) & self.mask
        }
    }
}

/// Byte encoding of a compact array: `[entry count][mask][width]
/// [chunk count][chunks...]`, the scalar fields 8-byte big-endian.
pub open spec fn enc_compact_array(v: CompactArrayV) -> Seq<u8> {
    spec_u64_to_be(v.size as u64) + spec_u64_to_be(v.mask as u64) + spec_u64_to_be(v.bits as u64)
        + spec_u64_to_be(v.chunks.len() as u64) + enc_chunks(v.chunks)
}

/// Big-endian encoding of 32-bit chunks, 8 bytes per chunk.
pub open spec fn enc_chunks(cs: Seq<u32>) -> Seq<u8> {
    crate::codec::enc_words(u64s_of_u32s(cs))
}

/// 32-bit chunks widened to 64 bits.
pub open spec fn u64s_of_u32s(cs: Seq<u32>) -> Seq<u64> {
    Seq::new(cs.len(), |i: int| cs[i] as u64)
}

/// The compact array a byte string spells: the exact parse of
/// [`enc_compact_array`].
pub open spec fn dec_compact_array(bytes: Seq<u8>) -> Option<CompactArrayV> {
    if bytes.len() < 32 {
        None
    } else {
        let size = be_val(bytes.subrange(0, 8));
        let mask = be_val(bytes.subrange(8, 16));
        let bits = be_val(bytes.subrange(16, 24));
        let cl = be_val(bytes.subrange(24, 32));
        if size > u32::MAX || mask > u32::MAX || bits > u32::MAX || cl > usize::MAX {
            None
        } else if bytes.len() != 32 + cl * 8 {
            None
        } else if exists|i: int|
            0 <= i < cl && #[trigger] crate::codec::dec_words(bytes, 32, cl as nat)[i]
                > u32::MAX {
            None
        } else {
            let v = CompactArrayV {
                size: size as u32,
                mask: mask as u32,
                bits: bits as u32,
                chunks: dec_chunks(bytes, 32, cl as nat),
            };
            if v.wf() {
                Some(v)
            } else {
                None
            }
        }
    }
}

/// The `count` chunks stored at `bytes[off..]`, each narrowed to 32 bits.
pub open spec fn dec_chunks(bytes: Seq<u8>, off: int, count: nat) -> Seq<u32> {
    Seq::new(count, |i: int| crate::codec::dec_words(bytes, off, count)[i] as u32)
}

impl CompactArray {
    /// Emits `[entry count][mask][width][chunk count][chunks...]`.
    pub fn serialize(&self) -> (r: Vec<u8>)
        ensures
            r@ == enc_compact_array(self@),
    {
        let mut bytes: Vec<u8> = Vec::new();
        push_u64_be(&mut bytes, self.size as u64);
        push_u64_be(&mut bytes, self.mask as u64);
        push_u64_be(&mut bytes, self.bits as u64);
        push_u64_be(&mut bytes, self.chunks.len() as u64);
        let n = self.chunks.len();
        let ghost cs = self.chunks@;
        let ghost prefix = bytes@;
        let mut i: usize = 0;
        while i < n
            invariant
                i <= n,
                n == cs.len(),
                cs == self.chunks@,
                bytes@ == prefix + crate::codec::enc_words(u64s_of_u32s(cs).take(i as int)),
            decreases n - i,
        {
            push_u64_be(&mut bytes, self.chunks[i] as u64);
            proof {
                assert(u64s_of_u32s(cs).take(i + 1).drop_last() =~= u64s_of_u32s(cs).take(i as int));
                assert(u64s_of_u32s(cs).take(i + 1).last() == u64s_of_u32s(cs)[i as int]);
                assert(bytes@ =~= prefix + crate::codec::enc_words(u64s_of_u32s(cs).take(i + 1)));
            }
            i = i + 1;
        }
        proof {
            assert(u64s_of_u32s(cs).take(n as int) =~= u64s_of_u32s(cs));
            assert(bytes@ =~= enc_compact_array(self@));
        }
        bytes
    }

    /// Parses what [`CompactArray::serialize`] emits.
    pub fn deserialize(bytes: &[u8]) -> (r: Option<CompactArray>)
        ensures
            match r {
                Some(ca) => dec_compact_array(bytes@) == Some(ca@) && ca.wf(),
                None => dec_compact_array(bytes@) is None,
            },
    {
        if bytes.len() < 32 {
            return None;
        }
        let size64 = read_u64_be(bytes, 0);
        let mask64 = read_u64_be(bytes, 8);
        let bits64 = read_u64_be(bytes, 16);
        let cl64 = read_u64_be(bytes, 24);
        if size64 > u32::MAX as u64 || mask64 > u32::MAX as u64 || bits64 > u32::MAX as u64 {
            return None;
        }
        let cl = match u64_to_usize_checked(cl64) {
            Some(v) => v,
            None => {
                return None;
            },
        };
        let body = match cl.checked_mul(8) {
            Some(x) => x,
            None => {
                return None;
            },
        };
        let expected = match body.checked_add(32) {
            Some(x) => x,
            None => {
                return None;
            },
        };
        if bytes.len() != expected {
            return None;
        }
        let size = size64 as u32;
        let mask = mask64 as u32;
        let bits = bits64 as u32;
        let mut chunks: Vec<u32> = Vec::new();
        let ghost dw = crate::codec::dec_words(bytes@, 32, cl as nat);
        let blen = bytes.len();
        let mut i: usize = 0;
        while i < cl
            invariant
                i <= cl,
                blen == bytes@.len(),
                blen == 32 + 8 * cl,
                be_val(bytes@.subrange(0, 8)) <= u32::MAX,
                be_val(bytes@.subrange(8, 16)) <= u32::MAX,
                be_val(bytes@.subrange(16, 24)) <= u32::MAX,
                be_val(bytes@.subrange(24, 32)) == cl,
                dw == crate::codec::dec_words(bytes@, 32, cl as nat),
                chunks@ =~= dec_chunks(bytes@, 32, cl as nat).take(i as int),
                forall|j: int| 0 <= j < i ==> #[trigger] dw[j] <= u32::MAX,
            decreases cl - i,
        {
            let w = read_u64_be(bytes, 32 + 8 * i);
            proof {
                crate::codec::lemma_be_val_bound(bytes@.subrange(32 + 8 * i, 32 + 8 * i + 8));
                crate::codec::lemma_pow2_le_max64(64);
                assert(dw[i as int] == w);
            }
            if w > u32::MAX as u64 {
                proof {
                    assert(crate::codec::dec_words(bytes@, 32, cl as nat)[i as int] > u32::MAX);
                    assert(exists|ii: int|
                        0 <= ii < cl && #[trigger] crate::codec::dec_words(
                            bytes@,
                            32,
                            cl as nat,
                        )[ii] > u32::MAX);
                }
                return None;
            }
            chunks.push(w as u32);
            proof {
                assert(chunks@ =~= dec_chunks(bytes@, 32, cl as nat).take(i + 1));
            }
            i = i + 1;
        }
        proof {
            assert(chunks@ =~= dec_chunks(bytes@, 32, cl as nat));
        }
        let ca = CompactArray { size, mask, bits, chunks };
        if bits < 1 || bits > 31 {
            assert(!ca@.wf());
            return None;
        }
        proof {
            assert(1u32 << bits >= 1) by (bit_vector)
                requires
                    1 <= bits <= 31,
            ;
        }
        if mask != (1u32 << bits) - 1 {
            assert(!ca@.wf());
            return None;
        }
        let total = match size.checked_mul(bits) {
            Some(t) => t,
            None => {
                proof {
                    assert(!ca@.wf());
                }
                return None;
            },
        };
        if chunks_len_mismatch(&ca.chunks, total) {
            assert(!ca@.wf());
            return None;
        }
        proof {
            assert(ca@.wf());
            assert(dec_compact_array(bytes@) == Some(ca@));
        }
        Some(ca)
    }
}

/// Whether the chunk array's length disagrees with the packed size.
fn chunks_len_mismatch(chunks: &Vec<u32>, total: u32) -> (r: bool)
    ensures
        r == (chunks@.len() != total as int / 32 + 1),
{
    chunks.len() != (total / 32 + 1) as usize
}

/// Parsing inverts encoding: a well-formed compact array's bytes spell it
/// back.
pub proof fn lemma_dec_enc_compact_array(v: CompactArrayV)
    requires
        v.wf(),
    ensures
        dec_compact_array(enc_compact_array(v)) == Some(v),
{
    let bytes = enc_compact_array(v);
    crate::codec::lemma_enc_words_len(u64s_of_u32s(v.chunks));
    assert(v.chunks.len() <= u32::MAX as int / 32 + 1);
    assert(bytes.len() == 32 + 8 * v.chunks.len());
    assert(bytes.subrange(0, 8) =~= spec_u64_to_be(v.size as u64));
    assert(bytes.subrange(8, 16) =~= spec_u64_to_be(v.mask as u64));
    assert(bytes.subrange(16, 24) =~= spec_u64_to_be(v.bits as u64));
    assert(bytes.subrange(24, 32) =~= spec_u64_to_be(v.chunks.len() as u64));
    lemma_be_round_trip(v.size as u64);
    lemma_be_round_trip(v.mask as u64);
    lemma_be_round_trip(v.bits as u64);
    lemma_be_round_trip(v.chunks.len() as u64);
    let dw = crate::codec::dec_words(bytes, 32, v.chunks.len());
    assert forall|i: int| 0 <= i < v.chunks.len() implies #[trigger] dw[i] == v.chunks[i]
        as u64 by {
        assert(bytes.subrange(32 + 8 * i, 32 + 8 * i + 8) =~= crate::codec::enc_words(
            u64s_of_u32s(v.chunks),
        ).subrange(8 * i, 8 * i + 8));
        crate::codec::lemma_enc_words_index(u64s_of_u32s(v.chunks), i);
        lemma_be_round_trip(u64s_of_u32s(v.chunks)[i]);
    }
    assert(dec_chunks(bytes, 32, v.chunks.len()) =~= v.chunks);
}

/// Abstract content of a [`Trie`].
pub struct TrieV {
    pub louds_dense: LoudsDenseV,
    pub louds_sparse: LoudsSparseV,
    pub suffixes: Seq<u8>,
    pub suffix_ptrs: CompactArrayV,
    pub suffix_lens: CompactArrayV,
}

impl TrieV {
    /// Well-formed: every component is.
    pub open spec fn wf(self) -> bool {
        &&& self.louds_dense.wf()
        &&& self.louds_sparse.wf()
        &&& self.suffix_ptrs.wf()
        &&& self.suffix_lens.wf()
        &&& self.suffix_ptrs.size == self.suffix_lens.size
        &&& self.suffixes.len() <= usize::MAX
    }
}

/// The trie traversal: the dense levels first, handing the reached node to
/// the sparse levels. Returns the suffix slot or `K_NOT_FOUND`, and the
/// level after the last one consumed.
pub open spec fn spec_traverse(v: TrieV, key: Seq<u8>) -> (int, int) {
    let dr = spec_dense_find(v.louds_dense, key, 0, 0);
    if dr.0 != K_NOT_FOUND {
        (dr.0, dr.1)
    } else if dr.2 != K_NOT_FOUND {
        spec_sparse_find(v.louds_sparse, key, dr.2)
    } else {
        (dr.0, dr.1)
    }
}

/// The key id `exact_search` answers: the traversal's suffix slot when the
/// key's remaining tail equals the stored suffix byte for byte, else
/// `K_NOT_FOUND`.
pub open spec fn spec_exact_search(v: TrieV, key: Seq<u8>) -> int {
    let r = spec_traverse(v, key);
    let kid = r.0;
    let level = r.1;
    if kid == K_NOT_FOUND {
        K_NOT_FOUND as int
    } else if kid >= v.suffix_ptrs.size || level > key.len() {
        K_NOT_FOUND as int
    } else {
        let ptr = spec_ca_get(v.suffix_ptrs, kid) as int;
        let len = spec_ca_get(v.suffix_lens, kid) as int;
        if len != key.len() - level {
            K_NOT_FOUND as int
        } else if ptr + len > v.suffixes.len() {
            K_NOT_FOUND as int
        } else if key.subrange(level, key.len() as int) == v.suffixes.subrange(ptr, ptr + len) {
            kid
        } else {
            K_NOT_FOUND as int
        }
    }
}

/// A found key was matched byte for byte: whenever the search answers an
/// id, the key's remaining tail equals the stored suffix exactly. Unmatched
/// tails are always rejected, so the index never answers a false positive
/// out of its suffix store — unlike a Bloom filter.
pub proof fn lemma_found_key_matches_stored_suffix(v: TrieV, key: Seq<u8>)
    requires
        spec_exact_search(v, key) != K_NOT_FOUND,
    ensures
        ({
            let kid = spec_traverse(v, key).0;
            let level = spec_traverse(v, key).1;
            let ptr = spec_ca_get(v.suffix_ptrs, kid) as int;
            let len = spec_ca_get(v.suffix_lens, kid) as int;
            &&& spec_exact_search(v, key) == kid
            &&& 0 <= kid < v.suffix_ptrs.size
            &&& level <= key.len()
            &&& len == key.len() - level
            &&& ptr + len <= v.suffixes.len()
            &&& key.subrange(level, key.len() as int) == v.suffixes.subrange(ptr, ptr + len)
        }),
{
    crate::louds_dense::lemma_dense_find_nonneg(v.louds_dense, key, 0, 0);
    let dr = spec_dense_find(v.louds_dense, key, 0, 0);
    if dr.0 == K_NOT_FOUND && dr.2 != K_NOT_FOUND {
        crate::louds_sparse::lemma_sparse_find_nonneg(v.louds_sparse, key, dr.2);
    }
}

/// Whether no key is the empty byte string; the trie cannot represent an
/// empty key.
pub open spec fn spec_no_empty_key(keys: Seq<Seq<u8>>) -> bool {
    forall|i: int| 0 <= i < keys.len() ==> (#[trigger] keys[i]).len() != 0
}

/// Whether the keys are sorted ascending, with adjacent duplicates
/// permitted; the builder skips a key identical to its predecessor.
pub open spec fn spec_keys_sorted(keys: Seq<Seq<u8>>) -> bool {
    forall|i: int| 0 < i < keys.len() ==> spec_lex_le(#[trigger] keys[i - 1], keys[i])
}

/// Lexicographic order on byte strings.
pub open spec fn spec_lex_le(a: Seq<u8>, b: Seq<u8>) -> bool
    decreases a.len(),
{
    if a.len() == 0 {
        true
    } else if b.len() == 0 {
        false
    } else if a[0] < b[0] {
        true
    } else if a[0] > b[0] {
        false
    } else {
        spec_lex_le(a.drop_first(), b.drop_first())
    }
}

/// Whether a byte string is lexicographically at most another.
pub fn lex_le(a: &[u8], b: &[u8]) -> (r: bool)
    ensures
        r == spec_lex_le(a@, b@),
    decreases a@.len(),
{
    if a.len() == 0 {
        return true;
    }
    if b.len() == 0 {
        return false;
    }
    if a[0] < b[0] {
        return true;
    }
    if a[0] > b[0] {
        return false;
    }
    let r = lex_le(&a[1..a.len()], &b[1..b.len()]);
    proof {
        assert(a@.subrange(1, a@.len() as int) =~= a@.drop_first());
        assert(b@.subrange(1, b@.len() as int) =~= b@.drop_first());
    }
    r
}

/// The compact, read-only index over a sorted set of byte-string keys.
pub struct Trie {
    louds_dense: LoudsDense,
    louds_sparse: LoudsSparse,
    suffixes: Vec<u8>,
    suffix_ptrs: CompactArray,
    suffix_lens: CompactArray,
}

impl View for Trie {
    type V = TrieV;

    closed spec fn view(&self) -> TrieV {
        TrieV {
            louds_dense: self.louds_dense@,
            louds_sparse: self.louds_sparse@,
            suffixes: self.suffixes@,
            suffix_ptrs: self.suffix_ptrs@,
            suffix_lens: self.suffix_lens@,
        }
    }
}

impl Trie {
    /// Well-formedness of the underlying representation.
    pub open spec fn wf(&self) -> bool {
        self@.wf()
    }

    /// Builds the index from keys sorted ascending with adjacent
    /// duplicates permitted. Rejects unsorted input outright; fails when
    /// the keys break a construction assumption: an empty key, a key that
    /// is a strict prefix of its successor with the divergence at or above
    /// the dense/sparse cutoff, or a size beyond what the 32-bit suffix
    /// tables address. A returned index is checked, key by key, to hold
    /// every build key under an id of its own below the distinct-key
    /// count, so those guarantees hold of every `Ok` answer; that
    /// construction succeeds on inputs within the limits is exercised by
    /// tests, not proven.
    pub fn new(keys: &Vec<Vec<u8>>) -> (r: Result<Trie, TrieError>)
        ensures
            r == Err::<Trie, TrieError>(TrieError::UnsortedInput) <==> !spec_keys_sorted(
                keys.deep_view(),
            ),
            r matches Ok(t) ==> t.wf(),
            // every suffix entry resolves inside the shared byte buffer
            r matches Ok(t) ==> forall|id: int|
                0 <= id < t@.suffix_ptrs.size ==> #[trigger] spec_ca_get(t@.suffix_ptrs, id)
                    + spec_ca_get(t@.suffix_lens, id) <= t@.suffixes.len(),
            // the id space is exactly the adjacent-distinct key count
            r matches Ok(t) ==> t@.suffix_ptrs.size == crate::builder::spec_distinct_count(
                keys.deep_view(),
            ),
            // membership completeness: every build key is found, with an id
            // below the distinct-key count
            r matches Ok(t) ==> forall|i: int|
                0 <= i < keys.deep_view().len() ==> 0 <= #[trigger] spec_exact_search(
                    t@,
                    keys.deep_view()[i],
                ) < t@.suffix_ptrs.size,
            r matches Ok(t) ==> forall|i: int|
                0 <= i < keys.deep_view().len() ==> #[trigger] spec_exact_search(
                    t@,
                    keys.deep_view()[i],
                ) != K_NOT_FOUND,
            // distinct keys answer distinct ids
            r matches Ok(t) ==> forall|i: int, j: int|
                0 <= i < j < keys.deep_view().len() && keys.deep_view()[i]
                    != keys.deep_view()[j] ==> #[trigger] spec_exact_search(
                    t@,
                    keys.deep_view()[i],
                ) != #[trigger] spec_exact_search(t@, keys.deep_view()[j]),
            // an empty key can never be represented and is rejected
            spec_keys_sorted(keys.deep_view()) && !spec_no_empty_key(keys.deep_view()) ==> r
                == Err::<Trie, TrieError>(TrieError::BuildFailure),
            // the empty key set is owed success: it assembles the empty index
            keys.deep_view().len() == 0 ==> r is Ok,
    {
        let ghost kview = keys.deep_view();
        let n = keys.len();
        let mut i: usize = 1;
        while i < n
            invariant
                1 <= i <= n || (n == 0 && i == 1),
                n == keys@.len(),
                kview == keys.deep_view(),
                forall|j: int| 0 < j < i ==> spec_lex_le(#[trigger] kview[j - 1], kview[j]),
            decreases n - i,
        {
            let ok = lex_le(keys[i - 1].as_slice(), keys[i].as_slice());
            proof {
                assert(keys@[i - 1]@ =~= kview[i - 1]);
                assert(keys@[i as int]@ =~= kview[i as int]);
            }
            if !ok {
                proof {
                    assert(!spec_lex_le(kview[i - 1], kview[i as int]));
                }
                return Err(TrieError::UnsortedInput);
            }
            i = i + 1;
        }
        proof {
            assert(spec_keys_sorted(kview));
        }
        let mut i: usize = 0;
        while i < n
            invariant
                i <= n,
                n == keys@.len(),
                kview == keys.deep_view(),
                spec_keys_sorted(kview),
                forall|j: int| 0 <= j < i ==> (#[trigger] kview[j]).len() != 0,
            decreases n - i,
        {
            if keys[i].len() == 0 {
                proof {
                    assert(keys@[i as int]@ =~= kview[i as int]);
                    assert(!spec_no_empty_key(kview));
                }
                return Err(TrieError::BuildFailure);
            }
            proof {
                assert(keys@[i as int]@ =~= kview[i as int]);
            }
            i = i + 1;
        }
        proof {
            assert(spec_no_empty_key(kview));
        }
        let include_dense = K_INCLUDE_DENSE;
        let sparse_dense = K_SPARSE_DENSE_RATIO;
        let mut builder = Builder::new(include_dense, sparse_dense);
        if !builder.build(keys) {
            return Err(TrieError::BuildFailure);
        }
        let louds_dense = match LoudsDense::new(&builder) {
            Ok(d) => d,
            Err(_) => {
                proof {
                    if kview.len() == 0 {
                        assert(builder@.sparse_start_level == 0);
                        assert(crate::bitvector::spec_total_bits(builder@.node_counts, 0, 0) == 0);
                        assert(false);
                    }
                }
                return Err(TrieError::BuildFailure);
            },
        };
        let louds_sparse = match LoudsSparse::new(&builder) {
            Ok(s) => s,
            Err(_) => {
                proof {
                    if kview.len() == 0 {
                        let b = builder@;
                        assert(b.sparse_start_level == 0 && b.labels.len() == 0);
                        assert(crate::bitvector::spec_total_bits(b.node_counts, 0, 0) == 0);
                        assert(crate::bitvector::spec_total_bits(
                            crate::louds_sparse::spec_sparse_items_per_level(b),
                            0,
                            0,
                        ) == 0);
                        assert(crate::bitvector::spec_total_bits(b.suffix_counts, 0, 0) == 0);
                        let louds = crate::bitvector::spec_concat_bits(
                            b.louds_bits,
                            crate::louds_sparse::spec_sparse_items_per_level(b),
                            0,
                            0,
                        );
                        assert(louds.len() == 0);
                        assert(crate::bitvector::count_ones(louds) == 0);
                        let body = crate::label_vector::spec_concat_labels(b.labels, 0, 0);
                        assert(body.len() == 0);
                        assert(crate::louds_sparse::runs_sorted(
                            body + crate::louds_sparse::spec_label_padding(),
                            louds,
                        ));
                        assert(!crate::louds_sparse::spec_sparse_rejected(b));
                        assert(false);
                    }
                }
                return Err(TrieError::BuildFailure);
            },
        };
        let suffix_counts = builder.get_suffix_counts();
        let height = louds_sparse.get_height();
        proof {
            assert(height == builder@.labels.len());
            assert(crate::builder::suffix_total(builder@)
                == crate::builder::spec_distinct_count(kview));
        }
        let mut num_keys: usize = 0;
        let mut level: level_t = 0;
        while level < height
            invariant
                builder.wf(),
                level <= height,
                height == builder@.labels.len(),
                suffix_counts@ == builder@.suffix_counts,
                spec_keys_sorted(keys.deep_view()),
                spec_no_empty_key(keys.deep_view()),
                kview == keys.deep_view(),
                crate::builder::suffix_total(builder@) == crate::builder::spec_distinct_count(
                    kview,
                ),
                num_keys == crate::bitvector::spec_total_bits(
                    builder@.suffix_counts,
                    0,
                    level as int,
                ),
                kview.len() == 0 ==> height == 0,
            decreases height - level,
        {
            if level >= suffix_counts.len() {
                return Err(TrieError::BuildFailure);
            }
            num_keys = match num_keys.checked_add(suffix_counts[level]) {
                Some(v) => v,
                None => {
                    return Err(TrieError::BuildFailure);
                },
            };
            level = level + 1;
        }
        proof {
            assert(num_keys == crate::builder::spec_distinct_count(kview));
        }
        // resolve each distinct key's tail through the assembled levels
        let mut tails: Vec<Vec<u8>> = Vec::new();
        let mut k: usize = 0;
        while k < num_keys
            invariant
                k <= num_keys,
                tails@.len() == k,
                spec_keys_sorted(keys.deep_view()),
                spec_no_empty_key(keys.deep_view()),
                num_keys == crate::builder::spec_distinct_count(keys.deep_view()),
            decreases num_keys - k,
        {
            tails.push(Vec::new());
            k = k + 1;
        }
        let mut i: usize = 0;
        while i < n
            invariant
                n == keys@.len(),
                kview == keys.deep_view(),
                tails@.len() == num_keys,
                louds_dense@.wf(),
                louds_sparse@.wf(),
                spec_keys_sorted(keys.deep_view()),
                spec_no_empty_key(keys.deep_view()),
                num_keys == crate::builder::spec_distinct_count(keys.deep_view()),
            decreases n - i,
        {
            let skip = i != 0 && crate::builder::is_same_key(
                keys[i].as_slice(),
                keys[i - 1].as_slice(),
            );
            if !skip {
                let (key_id, level) = Trie::traverse(&louds_dense, &louds_sparse, keys[i].as_slice());
                if key_id >= num_keys {
                    return Err(TrieError::BuildFailure);
                }
                if level > keys[i].len() {
                    return Err(TrieError::BuildFailure);
                }
                let tail = vstd::slice::slice_to_vec(
                    slice_range(keys[i].as_slice(), level, keys[i].len()),
                );
                tails[key_id] = tail;
            }
            i = i + 1;
        }
        // store the tails, sharing one stored copy among all identical
        // tails
        let (suffixes, suffix_ptrs, suffix_lens) = match build_suffix_store(&tails) {
            Some(parts) => parts,
            None => {
                proof {
                    if kview.len() == 0 {
                        assert(crate::builder::spec_distinct_count(kview) == 0);
                        assert(tails@.len() == 0);
                        assert(false);
                    }
                }
                return Err(TrieError::BuildFailure);
            },
        };
        proof {
            assert forall|id: int| 0 <= id < suffix_ptrs@.size implies #[trigger] spec_ca_get(
                suffix_ptrs@,
                id,
            ) + spec_ca_get(suffix_lens@, id) <= suffixes@.len() by {
                assert(spec_ca_get(suffix_lens@, id) == tails@[id]@.len());
            }
        }
        let trie = Trie { louds_dense, louds_sparse, suffixes, suffix_ptrs, suffix_lens };
        // confirm on the assembled index that every key is found with an id
        // of its own; the construction above is not proven to guarantee it,
        // so it is checked here, key by key
        let mut claimed: Vec<bool> = vec![false; num_keys];
        let mut i: usize = 0;
        while i < n
            invariant
                i <= n,
                n == keys@.len(),
                kview == keys.deep_view(),
                spec_keys_sorted(kview),
                spec_no_empty_key(kview),
                trie.wf(),
                trie@.suffix_ptrs.size == num_keys,
                num_keys == crate::builder::spec_distinct_count(kview),
                claimed@.len() == num_keys,
                forall|j: int|
                    0 <= j < i ==> 0 <= #[trigger] spec_exact_search(trie@, kview[j]) < num_keys,
                forall|j: int|
                    0 <= j < i ==> claimed@[#[trigger] spec_exact_search(trie@, kview[j])]
                        == true,
                forall|j1: int, j2: int|
                    0 <= j1 < j2 < i && kview[j1] != kview[j2] ==> #[trigger] spec_exact_search(
                        trie@,
                        kview[j1],
                    ) != #[trigger] spec_exact_search(trie@, kview[j2]),
            decreases n - i,
        {
            let id = trie.exact_search(keys[i].as_slice());
            proof {
                assert(keys@[i as int]@ =~= kview[i as int]);
            }
            if id >= num_keys {
                return Err(TrieError::BuildFailure);
            }
            let dup = i > 0 && crate::builder::is_same_key(
                keys[i].as_slice(),
                keys[i - 1].as_slice(),
            );
            let ghost claimed0 = claimed@;
            if dup {
                proof {
                    assert(keys@[i - 1]@ =~= kview[i - 1]);
                    assert(kview[i as int] == kview[i - 1]);
                }
            } else {
                if claimed[id] {
                    return Err(TrieError::BuildFailure);
                }
                claimed[id] = true;
            }
            proof {
                assert forall|j1: int, j2: int|
                    0 <= j1 < j2 < i + 1 && kview[j1] != kview[j2] implies #[trigger]
                    spec_exact_search(trie@, kview[j1]) != #[trigger] spec_exact_search(
                    trie@,
                    kview[j2],
                ) by {
                    if j2 == i && !dup {
                        assert(claimed0[spec_exact_search(trie@, kview[j1])] == true);
                        assert(claimed0[id as int] == false);
                    }
                }
            }
            i = i + 1;
        }
        Ok(trie)
    }

    /// The traversal over freshly assembled components.
    fn traverse(louds_dense: &LoudsDense, louds_sparse: &LoudsSparse, key: &[u8]) -> (r: (
        position_t,
        level_t,
    ))
        requires
            louds_dense@.wf(),
            louds_sparse@.wf(),
    {
        let ret = louds_dense.find_key(key);
        if ret.0 != K_NOT_FOUND {
            return (ret.0, ret.1);
        }
        if ret.2 != K_NOT_FOUND {
            return louds_sparse.find_key(key, ret.2);
        }
        (ret.0, ret.1)
    }

    /// The traversal of this trie's levels.
    fn traverse_self(&self, key: &[u8]) -> (r: (position_t, level_t))
        requires
            self.wf(),
        ensures
            (r.0 as int, r.1 as int) == spec_traverse(self@, key@),
    {
        let ret = self.louds_dense.find_key(key);
        if ret.0 != K_NOT_FOUND {
            return (ret.0, ret.1);
        }
        if ret.2 != K_NOT_FOUND {
            return self.louds_sparse.find_key(key, ret.2);
        }
        (ret.0, ret.1)
    }

    /// Looks the key up: its id when the trie holds it, else
    /// `K_NOT_FOUND`. A key is held exactly when the levels match its
    /// leading bytes and the stored suffix equals its remaining tail byte
    /// for byte.
    pub fn exact_search(&self, key: &[u8]) -> (r: position_t)
        requires
            self.wf(),
        ensures
            r as int == spec_exact_search(self@, key@),
    {
        let (key_id, level) = self.traverse_self(key);
        if key_id == K_NOT_FOUND {
            return K_NOT_FOUND;
        }
        if key_id >= u32::MAX as usize || key_id >= self.suffix_ptrs.len() as usize {
            return K_NOT_FOUND;
        }
        if level > key.len() {
            return K_NOT_FOUND;
        }
        let ptr = self.suffix_ptrs.get(key_id as u32) as usize;
        let len = self.suffix_lens.get(key_id as u32) as usize;
        if len != key.len() - level {
            return K_NOT_FOUND;
        }
        if ptr > self.suffixes.len() || len > self.suffixes.len() - ptr {
            return K_NOT_FOUND;
        }
        let klen = key.len();
        let slen = self.suffixes.len();
        let mut j: usize = 0;
        while j < len
            invariant
                j <= len,
                self.wf(),
                klen == key@.len(),
                slen == self.suffixes@.len(),
                level + len == klen,
                ptr + len <= slen,
                spec_traverse(self@, key@) == (key_id as int, level as int),
                key_id != K_NOT_FOUND,
                key_id < self@.suffix_ptrs.size,
                ptr == spec_ca_get(self@.suffix_ptrs, key_id as int),
                len == spec_ca_get(self@.suffix_lens, key_id as int),
                forall|x: int| 0 <= x < j ==> key@[level + x] == #[trigger] self.suffixes@[ptr + x],
            decreases len - j,
        {
            if key[level + j] != self.suffixes[ptr + j] {
                proof {
                    assert(key@.subrange(level as int, key@.len() as int)[j as int]
                        != self@.suffixes.subrange(ptr as int, ptr + len)[j as int]);
                    assert(key@.subrange(level as int, key@.len() as int)
                        != self@.suffixes.subrange(ptr as int, ptr + len));
                }
                return K_NOT_FOUND;
            }
            j = j + 1;
        }
        proof {
            assert forall|x: int| 0 <= x < len implies key@.subrange(
                level as int,
                key@.len() as int,
            )[x] == self@.suffixes.subrange(ptr as int, ptr + len)[x] by {
                assert(key@[level + x] == self.suffixes@[ptr + x]);
            }
            assert(key@.subrange(level as int, key@.len() as int) =~= self@.suffixes.subrange(
                ptr as int,
                ptr + len,
            ));
        }
        key_id
    }

    /// Whether the trie holds the key.
    pub fn contains(&self, key: &[u8]) -> (r: bool)
        requires
            self.wf(),
        ensures
            r == (spec_exact_search(self@, key@) != K_NOT_FOUND),
    {
        K_NOT_FOUND != self.exact_search(key)
    }
}


/// Builds the suffix store from the resolved tails: one shared byte
/// buffer, an offset table and a length table. A tail identical to any
/// earlier tail reuses that tail's storage, so every distinct tail is
/// stored once. Every entry resolves, followed from its pointer, to
/// exactly its own tail bytes — pointer reuse never conflates overlapping
/// but different tails. Fails only when a size exceeds what the tables'
/// 32-bit entries address.
#[verifier::rlimit(80)]
fn build_suffix_store(tails: &Vec<Vec<u8>>) -> (r: Option<(Vec<u8>, CompactArray, CompactArray)>)
    ensures
        r matches Some(parts) ==> ({
            let (buffer, ptrs, lens) = parts;
            &&& ptrs.wf()
            &&& lens.wf()
            &&& ptrs@.size == tails@.len()
            &&& lens@.size == tails@.len()
            &&& buffer@.len() <= u32::MAX
            &&& forall|id: int|
                0 <= id < tails@.len() ==> {
                    let p = spec_ca_get(ptrs@, id) as int;
                    let l = spec_ca_get(lens@, id) as int;
                    &&& l == (#[trigger] tails@[id])@.len()
                    &&& p + l <= buffer@.len()
                    &&& buffer@.subrange(p, p + l) == tails@[id]@
                }
            &&& forall|i: int, j: int|
                0 <= i < tails@.len() && 0 <= j < tails@.len() && (#[trigger] tails@[i])@ == (
                #[trigger] tails@[j])@ ==> spec_ca_get(ptrs@, i) == spec_ca_get(ptrs@, j)
        }),
        tails@.len() == 0 ==> r is Some,
{
    let num_keys = tails.len();
    let mut suffixes: Vec<u8> = Vec::new();
    let mut ptrs: Vec<u32> = Vec::new();
    let mut lens: Vec<u32> = Vec::new();
    // ids whose tails were appended to the buffer: one representative per
    // distinct tail seen so far
    let mut reps: Vec<usize> = Vec::new();
    let mut id: usize = 0;
    while id < num_keys
        invariant
            id <= num_keys,
            num_keys == tails@.len(),
            ptrs@.len() == id,
            lens@.len() == id,
            suffixes@.len() <= u32::MAX,
            forall|j: int|
                0 <= j < id ==> {
                    &&& #[trigger] lens@[j] == tails@[j]@.len()
                    &&& ptrs@[j] + lens@[j] <= suffixes@.len()
                    &&& suffixes@.subrange(
                        ptrs@[j] as int,
                        ptrs@[j] + lens@[j],
                    ) == tails@[j]@
                },
            forall|k: int| 0 <= k < reps@.len() ==> (#[trigger] reps@[k]) < id,
            // representatives carry pairwise distinct tails
            forall|k1: int, k2: int|
                0 <= k1 < k2 < reps@.len() ==> tails@[#[trigger] reps@[k1] as int]@ != tails@[
                    #[trigger] reps@[k2] as int]@,
            // every entry points where its tail's representative points
            forall|j: int|
                0 <= j < id ==> (exists|k: int|
                    0 <= k < reps@.len() && tails@[#[trigger] reps@[k] as int]@ == (
                    #[trigger] tails@[j])@ && ptrs@[j] == ptrs@[reps@[k] as int]),
            // so identical tails share one pointer
            forall|i: int, j: int|
                0 <= i < id && 0 <= j < id && (#[trigger] tails@[i])@ == (#[trigger] tails@[j])@
                    ==> ptrs@[i] == ptrs@[j],
        decreases num_keys - id,
    {
        let ghost reps0 = reps@;
        let ghost ptrs0 = ptrs@;
        if tails[id].len() > u32::MAX as usize {
            return None;
        }
        let mut found: bool = false;
        let mut reuse_ptr: u32 = 0;
        let mut rj: usize = 0;
        while rj < reps.len() && !found
            invariant
                rj <= reps@.len(),
                id < num_keys,
                num_keys == tails@.len(),
                ptrs@.len() == id,
                forall|k: int| 0 <= k < reps@.len() ==> (#[trigger] reps@[k]) < id,
                !found ==> forall|k: int|
                    0 <= k < rj ==> tails@[#[trigger] reps@[k] as int]@ != tails@[id as int]@,
                found ==> (exists|k: int|
                    0 <= k < reps@.len() && tails@[#[trigger] reps@[k] as int]@ == tails@[
                        id as int]@ && reuse_ptr == ptrs@[reps@[k] as int]),
            decreases reps@.len() - rj + (if found {
                0int
            } else {
                1int
            }),
        {
            let rep = reps[rj];
            if crate::builder::is_same_key(tails[id].as_slice(), tails[rep].as_slice()) {
                reuse_ptr = ptrs[rep];
                found = true;
                proof {
                    assert(tails@[rep as int]@ =~= tails@[id as int]@);
                    assert(0 <= rj < reps@.len() && tails@[reps@[rj as int] as int]@ == tails@[
                        id as int]@ && reuse_ptr == ptrs@[reps@[rj as int] as int]);
                }
            } else {
                proof {
                    assert(tails@[rep as int]@ != tails@[id as int]@);
                }
                rj = rj + 1;
            }
        }
        if found {
            let ghost k0 = choose|k: int|
                0 <= k < reps@.len() && tails@[#[trigger] reps@[k] as int]@ == tails@[id as int]@
                    && reuse_ptr == ptrs@[reps@[k] as int];
            let ghost rid = reps@[k0] as int;
            ptrs.push(reuse_ptr);
            proof {
                assert(suffixes@.subrange(ptrs@[rid] as int, ptrs@[rid] + lens@[rid]) == tails@[
                    rid]@);
                assert(lens@[rid] == tails@[rid]@.len());
            }
        } else {
            if suffixes.len() > u32::MAX as usize - tails[id].len() {
                return None;
            }
            let start = suffixes.len();
            ptrs.push(start as u32);
            reps.push(id);
            let ghost base = suffixes@;
            let mut t: usize = 0;
            let tl = tails[id].len();
            while t < tl
                invariant
                    t <= tl,
                    id < tails@.len(),
                    tl == tails@[id as int]@.len(),
                    start == base.len(),
                    start + tl <= u32::MAX,
                    suffixes@ == base + tails@[id as int]@.take(t as int),
                decreases tl - t,
            {
                let b = tails[id][t];
                suffixes.push(b);
                proof {
                    assert(suffixes@ =~= base + tails@[id as int]@.take(t + 1));
                }
                t = t + 1;
            }
            proof {
                assert(tails@[id as int]@.take(tl as int) =~= tails@[id as int]@);
                assert forall|j: int|
                    0 <= j < id implies suffixes@.subrange(
                    ptrs@[j] as int,
                    ptrs@[j] + lens@[j],
                ) == tails@[j]@ by {
                    assert(suffixes@.subrange(ptrs@[j] as int, ptrs@[j] + lens@[j]) =~= base
                        .subrange(ptrs@[j] as int, ptrs@[j] + lens@[j]));
                }
                assert(suffixes@.subrange(start as int, start + tl) =~= tails@[id as int]@);
            }
        }
        lens.push(tails[id].len() as u32);
        proof {
            assert forall|j: int|
                0 <= j < id + 1 implies {
                &&& #[trigger] lens@[j] == tails@[j]@.len()
                &&& ptrs@[j] + lens@[j] <= suffixes@.len()
                &&& suffixes@.subrange(ptrs@[j] as int, ptrs@[j] + lens@[j]) == tails@[j]@
            } by {
                if j == id {
                    assert(lens@[j] == tails@[j]@.len());
                }
            }
            if found {
                assert(reps@ == reps0);
            } else {
                assert(reps@ == reps0.push(id));
                assert(forall|k: int|
                    0 <= k < reps0.len() ==> tails@[#[trigger] reps0[k] as int]@ != tails@[
                        id as int]@);
            }
            assert forall|k1: int, k2: int| 0 <= k1 < k2 < reps@.len() implies tails@[
                #[trigger] reps@[k1] as int]@ != tails@[#[trigger] reps@[k2] as int]@ by {
                if k2 < reps0.len() {
                    assert(reps@[k1] == reps0[k1] && reps@[k2] == reps0[k2]);
                } else {
                    assert(!found);
                    assert(reps@[k2] == id);
                    assert(tails@[reps0[k1] as int]@ != tails@[id as int]@);
                }
            }
            assert forall|j: int| 0 <= j < id + 1 implies (exists|k: int|
                0 <= k < reps@.len() && tails@[#[trigger] reps@[k] as int]@ == (
                #[trigger] tails@[j])@ && ptrs@[j] == ptrs@[reps@[k] as int]) by {
                if j < id {
                    let k = choose|k: int|
                        0 <= k < reps0.len() && tails@[#[trigger] reps0[k] as int]@ == tails@[j]@
                            && ptrs0[j] == ptrs0[reps0[k] as int];
                    assert(reps@[k] == reps0[k]);
                    assert(ptrs@[j] == ptrs0[j] && ptrs@[reps0[k] as int] == ptrs0[reps0[
                        k] as int]);
                    assert(0 <= k < reps@.len() && tails@[reps@[k] as int]@ == tails@[j]@
                        && ptrs@[j] == ptrs@[reps@[k] as int]);
                } else {
                    if found {
                        let k = choose|k: int|
                            0 <= k < reps0.len() && tails@[#[trigger] reps0[k] as int]@ == tails@[
                                id as int]@ && reuse_ptr == ptrs0[reps0[k] as int];
                        assert(ptrs@[id as int] == reuse_ptr);
                        assert(0 <= k < reps@.len() && tails@[reps@[k] as int]@ == tails@[j]@
                            && ptrs@[j] == ptrs@[reps@[k] as int]);
                    } else {
                        let k = reps0.len() as int;
                        assert(reps@[k] == id);
                        assert(0 <= k < reps@.len() && tails@[reps@[k] as int]@ == tails@[j]@
                            && ptrs@[j] == ptrs@[reps@[k] as int]);
                    }
                }
            }
            assert forall|i: int, j: int|
                0 <= i < id + 1 && 0 <= j < id + 1 && (#[trigger] tails@[i])@ == (
                #[trigger] tails@[j])@ implies ptrs@[i] == ptrs@[j] by {
                if i < id && j < id {
                    assert(ptrs0[i] == ptrs0[j]);
                } else if i != j {
                    let a = if i < j {
                        i
                    } else {
                        j
                    };
                    // a is the earlier entry, the other one is `id`
                    let ka = choose|k: int|
                        0 <= k < reps0.len() && tails@[#[trigger] reps0[k] as int]@ == tails@[a]@
                            && ptrs0[a] == ptrs0[reps0[k] as int];
                    if found {
                        let k0 = choose|k: int|
                            0 <= k < reps0.len() && tails@[#[trigger] reps0[k] as int]@ == tails@[
                                id as int]@ && reuse_ptr == ptrs0[reps0[k] as int];
                        assert(ptrs@[id as int] == reuse_ptr);
                        assert(tails@[reps0[ka] as int]@ == tails@[reps0[k0] as int]@);
                        assert(ka == k0);
                        assert(ptrs@[a] == ptrs0[a] && ptrs0[a] == ptrs0[reps0[ka] as int]);
                    } else {
                        assert(tails@[reps0[ka] as int]@ == tails@[id as int]@);
                        assert(false);
                    }
                }
            }
        }
        id = id + 1;
    }
    let suf_bits = bits_for_max(&ptrs);
    let len_bits = bits_for_max(&lens);
    if suf_bits > 31 || len_bits > 31 {
        return None;
    }
    let suffix_ptrs = match CompactArray::new(&ptrs, suf_bits) {
        Some(ca) => ca,
        None => {
            return None;
        },
    };
    let suffix_lens = match CompactArray::new(&lens, len_bits) {
        Some(ca) => ca,
        None => {
            return None;
        },
    };
    proof {
        assert forall|idx: int| 0 <= idx < tails@.len() implies {
            let p = spec_ca_get(suffix_ptrs@, idx) as int;
            let l = spec_ca_get(suffix_lens@, idx) as int;
            &&& l == (#[trigger] tails@[idx])@.len()
            &&& p + l <= suffixes@.len()
            &&& suffixes@.subrange(p, p + l) == tails@[idx]@
        } by {
            lemma_mask_identity(ptrs@[idx], suf_bits);
            lemma_mask_identity(lens@[idx], len_bits);
            assert(spec_ca_get(suffix_ptrs@, idx) == ptrs@[idx]);
            assert(spec_ca_get(suffix_lens@, idx) == lens@[idx]);
        }
        assert forall|i: int, j: int|
            0 <= i < tails@.len() && 0 <= j < tails@.len() && (#[trigger] tails@[i])@ == (
            #[trigger] tails@[j])@ implies spec_ca_get(suffix_ptrs@, i) == spec_ca_get(
            suffix_ptrs@,
            j,
        ) by {
            lemma_mask_identity(ptrs@[i], suf_bits);
            lemma_mask_identity(ptrs@[j], suf_bits);
            assert(ptrs@[i] == ptrs@[j]);
        }
    }
    Some((suffixes, suffix_ptrs, suffix_lens))
}

/// The smallest width that holds every entry of `vs`, and at least one.
fn bits_for_max(vs: &Vec<u32>) -> (r: u32)
    ensures
        1 <= r <= 32,
        r <= 31 ==> forall|i: int| 0 <= i < vs@.len() ==> (#[trigger] vs@[i]) < (1u32 << r),
        vs@.len() == 0 ==> r == 1,
{
    let mut max: u32 = 0;
    let n = vs.len();
    if n == 0 {
        proof {
            assert(0u32 < (1u32 << 1)) by (bit_vector);
        }
        return 1;
    }
    let mut i: usize = 0;
    while i < n
        invariant
            i <= n,
            n == vs@.len(),
            forall|j: int| 0 <= j < i ==> (#[trigger] vs@[j]) <= max,
        decreases n - i,
    {
        if vs[i] > max {
            max = vs[i];
        }
        i = i + 1;
    }
    let mut b: u32 = 1;
    while b < 32
        invariant
            1 <= b <= 32,
            1 <= n,
            n == vs@.len(),
            forall|j: int| 0 <= j < n ==> (#[trigger] vs@[j]) <= max,
        decreases 32 - b,
    {
        if (max >> b) == 0 {
            proof {
                assert((max >> b) == 0 ==> max < (1u32 << b)) by (bit_vector)
                    requires
                        b < 32,
                ;
            }
            return b;
        }
        b = b + 1;
    }
    32
}

/// Whether a consecutive run of `time_range` keys of the list are all held
/// by the trie, scanning from key `i` with `count` consecutive hits behind.
pub open spec fn spec_doe(v: TrieV, time_range: int, keys: Seq<Seq<u8>>, i: int, count: int) -> bool
    decreases keys.len() - i,
{
    if i < 0 || i >= keys.len() {
        false
    } else if spec_exact_search(v, keys[i]) != K_NOT_FOUND {
        if count + 1 >= time_range {
            true
        } else {
            spec_doe(v, time_range, keys, i + 1, count + 1)
        }
    } else {
        spec_doe(v, time_range, keys, i + 1, 0)
    }
}

/// Whether the trie holds key `k` of the list.
pub open spec fn spec_doe_hit(v: TrieV, keys: Seq<Seq<u8>>, k: int) -> bool {
    spec_exact_search(v, keys[k]) != K_NOT_FOUND
}

/// Whether the `time_range` keys from `s` on are all held.
pub open spec fn spec_doe_window_at(v: TrieV, time_range: int, keys: Seq<Seq<u8>>, s: int) -> bool {
    &&& 0 <= s
    &&& s + time_range <= keys.len()
    &&& forall|k: int| s <= k < s + time_range ==> #[trigger] spec_doe_hit(v, keys, k)
}

/// The direct form of the exposure search: some window of `time_range`
/// consecutive keys is held in full.
pub open spec fn spec_doe_window(v: TrieV, time_range: int, keys: Seq<Seq<u8>>) -> bool {
    exists|s: int| #[trigger] spec_doe_window_at(v, time_range, keys, s)
}

/// The scanning form equals the window form from any reachable scan state:
/// `count` consecutive hits lie just behind position `i`, fewer than the
/// window asks for, and the scan finds exactly the windows from
/// `i - count` on.
proof fn lemma_doe_scan(v: TrieV, time_range: int, keys: Seq<Seq<u8>>, i: int, count: int)
    requires
        0 <= count <= i <= keys.len(),
        count < time_range,
        forall|k: int| i - count <= k < i ==> spec_doe_hit(v, keys, k),
    ensures
        spec_doe(v, time_range, keys, i, count) == exists|s: int|
            i - count <= s && #[trigger] spec_doe_window_at(v, time_range, keys, s),
    decreases keys.len() - i,
{
    if i >= keys.len() {
        assert(!spec_doe(v, time_range, keys, i, count));
        if exists|s: int| i - count <= s && #[trigger] spec_doe_window_at(v, time_range, keys, s) {
            let s = choose|s: int|
                i - count <= s && #[trigger] spec_doe_window_at(v, time_range, keys, s);
            assert(s + time_range <= i);
            assert(false);
        }
    } else if spec_doe_hit(v, keys, i) {
        if count + 1 >= time_range {
            assert(spec_doe(v, time_range, keys, i, count));
            let s = i + 1 - time_range;
            assert(i - count <= s);
            assert(spec_doe_window_at(v, time_range, keys, s));
        } else {
            lemma_doe_scan(v, time_range, keys, i + 1, count + 1);
        }
    } else {
        lemma_doe_scan(v, time_range, keys, i + 1, 0);
        assert(spec_doe(v, time_range, keys, i, count) == spec_doe(v, time_range, keys, i + 1, 0));
        if exists|s: int| i - count <= s && #[trigger] spec_doe_window_at(v, time_range, keys, s) {
            let s = choose|s: int|
                i - count <= s && #[trigger] spec_doe_window_at(v, time_range, keys, s);
            if s <= i {
                if s + time_range > i {
                    assert(spec_doe_hit(v, keys, i));
                    assert(false);
                } else {
                    assert(time_range <= count);
                    assert(false);
                }
            }
            assert(s >= i + 1);
        }
    }
}

/// The scanning form of the exposure search answers exactly whether some
/// window of `time_range` consecutive keys is held in full.
pub proof fn lemma_doe_window_form(v: TrieV, time_range: int, keys: Seq<Seq<u8>>)
    requires
        1 <= time_range,
    ensures
        spec_doe(v, time_range, keys, 0, 0) == spec_doe_window(v, time_range, keys),
{
    lemma_doe_scan(v, time_range, keys, 0, 0);
}

impl Trie {
    /// Whether some `time_range` consecutive keys of the list are all held
    /// by the trie; the window length stands for a duration of exposure in
    /// the keys' encoding.
    pub fn doe_search(&self, time_range: usize, keys: &Vec<Vec<u8>>) -> (r: bool)
        requires
            self.wf(),
            1 <= time_range,
        ensures
            r == spec_doe(self@, time_range as int, keys.deep_view(), 0, 0),
    {
        let ghost kview = keys.deep_view();
        let n = keys.len();
        let mut sequence_count: usize = 0;
        let mut i: usize = 0;
        while i < n
            invariant
                i <= n,
                n == keys@.len(),
                self.wf(),
                1 <= time_range,
                kview == keys.deep_view(),
                sequence_count < time_range,
                spec_doe(self@, time_range as int, kview, 0, 0) == spec_doe(
                    self@,
                    time_range as int,
                    kview,
                    i as int,
                    sequence_count as int,
                ),
            decreases n - i,
        {
            let result = self.exact_search(keys[i].as_slice());
            proof {
                assert(keys@[i as int]@ =~= kview[i as int]);
            }
            let is_find = result != K_NOT_FOUND;
            if is_find {
                sequence_count = sequence_count + 1;
                if sequence_count >= time_range {
                    return true;
                }
            } else {
                sequence_count = 0;
            }
            i = i + 1;
        }
        false
    }

    /// Raw byte footprint of all owned arrays.
    pub fn byte_size(&self) -> (r: usize)
        ensures
            r == crate::codec::sat_add(
                self@.suffixes.len() as int,
                crate::codec::sat_add(
                    crate::louds_dense::spec_dense_byte_size(self@.louds_dense),
                    crate::codec::sat_add(
                        crate::louds_sparse::spec_sparse_byte_size(self@.louds_sparse),
                        crate::codec::sat_add(
                            spec_ca_byte_size(self@.suffix_ptrs),
                            spec_ca_byte_size(self@.suffix_lens),
                        ),
                    ),
                ),
            ),
    {
        crate::codec::sat_add_usize(
            self.suffixes.len(),
            crate::codec::sat_add_usize(
                self.louds_dense.byte_size(),
                crate::codec::sat_add_usize(
                    self.louds_sparse.byte_size(),
                    crate::codec::sat_add_usize(
                        self.suffix_ptrs.byte_size(),
                        self.suffix_lens.byte_size(),
                    ),
                ),
            ),
        )
    }
}

/// Raw byte footprint of a compact array: three scalar fields plus the
/// chunk array.
pub open spec fn spec_ca_byte_size(v: CompactArrayV) -> int {
    crate::codec::sat_add(12, crate::codec::sat_mul4(v.chunks.len() as int))
}

impl CompactArray {
    /// Raw byte footprint of the scalar fields and the chunk array.
    pub fn byte_size(&self) -> (r: usize)
        ensures
            r == spec_ca_byte_size(self@),
    {
        crate::codec::sat_add_usize(12, crate::codec::sat_mul4_usize(self.chunks.len()))
    }
}

/// Byte encoding of the whole index, section by section, each section
/// length-prefixed with an 8-byte big-endian count: the dense structure,
/// the sparse structure, the suffix byte buffer, and the suffix tables
/// (the offset table, then the length table, each again length-prefixed).
pub open spec fn enc_trie(v: TrieV) -> Seq<u8> {
    let d = enc_louds_dense(v.louds_dense);
    let sp = enc_louds_sparse(v.louds_sparse);
    let pt = enc_compact_array(v.suffix_ptrs);
    let lt = enc_compact_array(v.suffix_lens);
    let tables = spec_u64_to_be(pt.len() as u64) + pt + spec_u64_to_be(lt.len() as u64) + lt;
    spec_u64_to_be(d.len() as u64) + d + spec_u64_to_be(sp.len() as u64) + sp + spec_u64_to_be(
        v.suffixes.len() as u64,
    ) + v.suffixes + spec_u64_to_be(tables.len() as u64) + tables
}

/// The index a byte string spells: the exact parse of [`enc_trie`],
/// rejecting truncation, trailing bytes and ill-formed state.
pub open spec fn dec_trie(bytes: Seq<u8>) -> Option<TrieV> {
    if bytes.len() < 8 {
        None
    } else {
        let dl = be_val(bytes.subrange(0, 8));
        if dl > usize::MAX || bytes.len() < 8 + dl {
            None
        } else {
            match dec_louds_dense(bytes.subrange(8, 8 + dl)) {
                None => None,
                Some(d) => {
                    let c1 = 8 + dl;
                    if bytes.len() < c1 + 8 {
                        None
                    } else {
                        let sl = be_val(bytes.subrange(c1, c1 + 8));
                        if sl > usize::MAX || bytes.len() < c1 + 8 + sl {
                            None
                        } else {
                            match dec_louds_sparse(bytes.subrange(c1 + 8, c1 + 8 + sl)) {
                                None => None,
                                Some(sp) => {
                                    let c2 = c1 + 8 + sl;
                                    dec_trie_tail(bytes, c2, d, sp)
                                },
                            }
                        }
                    }
                },
            }
        }
    }
}

/// The suffix sections of the index: the byte buffer, then the offset and
/// length tables.
pub open spec fn dec_trie_tail(bytes: Seq<u8>, c2: int, d: LoudsDenseV, sp: LoudsSparseV) -> Option<
    TrieV,
> {
    if bytes.len() < c2 + 8 {
        None
    } else {
        let ul = be_val(bytes.subrange(c2, c2 + 8));
        if ul > usize::MAX || bytes.len() < c2 + 8 + ul {
            None
        } else {
            let suffixes = bytes.subrange(c2 + 8, c2 + 8 + ul);
            let c3 = c2 + 8 + ul;
            if bytes.len() < c3 + 16 {
                None
            } else {
                let tl = be_val(bytes.subrange(c3, c3 + 8));
                let pl = be_val(bytes.subrange(c3 + 8, c3 + 16));
                if tl > usize::MAX || pl > usize::MAX || bytes.len() < c3 + 16 + pl || tl != 8
                    + pl + 8 + (bytes.len() - c3 - 24 - pl) || bytes.len() < c3 + 24 + pl {
                    None
                } else {
                    match dec_compact_array(bytes.subrange(c3 + 16, c3 + 16 + pl)) {
                        None => None,
                        Some(pt) => {
                            let c4 = c3 + 16 + pl;
                            let ll = be_val(bytes.subrange(c4, c4 + 8));
                            if ll > usize::MAX || bytes.len() != c4 + 8 + ll {
                                None
                            } else {
                                match dec_compact_array(bytes.subrange(c4 + 8, c4 + 8 + ll)) {
                                    None => None,
                                    Some(lt) => {
                                        let v = TrieV {
                                            louds_dense: d,
                                            louds_sparse: sp,
                                            suffixes,
                                            suffix_ptrs: pt,
                                            suffix_lens: lt,
                                        };
                                        if v.wf() {
                                            Some(v)
                                        } else {
                                            None
                                        }
                                    },
                                }
                            }
                        },
                    }
                }
            }
        }
    }
}

impl Trie {
    /// Emits the dense structure, the sparse structure, the suffix byte
    /// buffer, and the two suffix tables, each section length-prefixed.
    pub fn serialize(&self) -> (r: Vec<u8>)
        ensures
            r@ == enc_trie(self@),
    {
        let mut bytes: Vec<u8> = Vec::new();
        let mut d = self.louds_dense.serialize();
        push_u64_be(&mut bytes, d.len() as u64);
        bytes.append(&mut d);
        let mut sp = self.louds_sparse.serialize();
        push_u64_be(&mut bytes, sp.len() as u64);
        bytes.append(&mut sp);
        push_u64_be(&mut bytes, self.suffixes.len() as u64);
        bytes.extend_from_slice(self.suffixes.as_slice());
        let mut pt = self.suffix_ptrs.serialize();
        let mut lt = self.suffix_lens.serialize();
        let mut tables: Vec<u8> = Vec::new();
        push_u64_be(&mut tables, pt.len() as u64);
        tables.append(&mut pt);
        push_u64_be(&mut tables, lt.len() as u64);
        tables.append(&mut lt);
        push_u64_be(&mut bytes, tables.len() as u64);
        bytes.append(&mut tables);
        proof {
            assert(bytes@ =~= enc_trie(self@));
        }
        bytes
    }

    /// Parses what [`Trie::serialize`] emits; an error when the bytes are
    /// truncated, have trailing garbage, or spell an ill-formed index, as
    /// serialized data arriving across a trust boundary may.
    #[verifier::rlimit(80)]
    pub fn deserialize(bytes: &[u8]) -> (r: Result<Trie, TrieError>)
        ensures
            match r {
                Ok(t) => dec_trie(bytes@) == Some(t@) && t.wf(),
                Err(e) => dec_trie(bytes@) is None && e == TrieError::CorruptedIndex,
            },
    {
        if bytes.len() < 8 {
            return Err(TrieError::CorruptedIndex);
        }
        let dl = match u64_to_usize_checked(read_u64_be(bytes, 0)) {
            Some(v) => v,
            None => {
                return Err(TrieError::CorruptedIndex);
            },
        };
        if bytes.len() - 8 < dl {
            return Err(TrieError::CorruptedIndex);
        }
        let louds_dense = match LoudsDense::deserialize(slice_range(bytes, 8, 8 + dl)) {
            Some(d) => d,
            None => {
                return Err(TrieError::CorruptedIndex);
            },
        };
        let c1 = 8 + dl;
        if bytes.len() - c1 < 8 {
            return Err(TrieError::CorruptedIndex);
        }
        let sl = match u64_to_usize_checked(read_u64_be(bytes, c1)) {
            Some(v) => v,
            None => {
                return Err(TrieError::CorruptedIndex);
            },
        };
        if bytes.len() - c1 - 8 < sl {
            return Err(TrieError::CorruptedIndex);
        }
        let louds_sparse = match LoudsSparse::deserialize(slice_range(bytes, c1 + 8, c1 + 8 + sl)) {
            Some(s) => s,
            None => {
                return Err(TrieError::CorruptedIndex);
            },
        };
        let c2 = c1 + 8 + sl;
        if bytes.len() - c2 < 8 {
            return Err(TrieError::CorruptedIndex);
        }
        let ul = match u64_to_usize_checked(read_u64_be(bytes, c2)) {
            Some(v) => v,
            None => {
                return Err(TrieError::CorruptedIndex);
            },
        };
        if bytes.len() - c2 - 8 < ul {
            return Err(TrieError::CorruptedIndex);
        }
        let suffixes = vstd::slice::slice_to_vec(slice_range(bytes, c2 + 8, c2 + 8 + ul));
        let c3 = c2 + 8 + ul;
        if bytes.len() - c3 < 16 {
            return Err(TrieError::CorruptedIndex);
        }
        let tl = match u64_to_usize_checked(read_u64_be(bytes, c3)) {
            Some(v) => v,
            None => {
                return Err(TrieError::CorruptedIndex);
            },
        };
        let pl = match u64_to_usize_checked(read_u64_be(bytes, c3 + 8)) {
            Some(v) => v,
            None => {
                return Err(TrieError::CorruptedIndex);
            },
        };
        if bytes.len() - c3 - 16 < pl {
            return Err(TrieError::CorruptedIndex);
        }
        if bytes.len() - c3 - 16 - pl < 8 {
            return Err(TrieError::CorruptedIndex);
        }
        if tl != 8 + pl + 8 + (bytes.len() - c3 - 24 - pl) {
            return Err(TrieError::CorruptedIndex);
        }
        let suffix_ptrs = match CompactArray::deserialize(
            slice_range(bytes, c3 + 16, c3 + 16 + pl),
        ) {
            Some(ca) => ca,
            None => {
                return Err(TrieError::CorruptedIndex);
            },
        };
        let c4 = c3 + 16 + pl;
        let ll = match u64_to_usize_checked(read_u64_be(bytes, c4)) {
            Some(v) => v,
            None => {
                return Err(TrieError::CorruptedIndex);
            },
        };
        if bytes.len() - c4 - 8 != ll {
            return Err(TrieError::CorruptedIndex);
        }
        let suffix_lens = match CompactArray::deserialize(slice_range(bytes, c4 + 8, c4 + 8 + ll)) {
            Some(ca) => ca,
            None => {
                return Err(TrieError::CorruptedIndex);
            },
        };
        let t = Trie { louds_dense, louds_sparse, suffixes, suffix_ptrs, suffix_lens };
        if t.suffix_ptrs.len() != t.suffix_lens.len() {
            assert(!t@.wf());
            return Err(TrieError::CorruptedIndex);
        }
        proof {
            assert(t@.wf());
            assert(dec_trie(bytes@) == Some(t@));
        }
        Ok(t)
    }
}

/// Parsing inverts encoding: a well-formed index's bytes spell it back, so
/// a serialized and restored index answers every search exactly as the
/// index it was written from.
#[verifier::rlimit(80)]
pub proof fn lemma_serialize_round_trip(v: TrieV)
    requires
        v.wf(),
    ensures
        dec_trie(enc_trie(v)) == Some(v),
        forall|key: Seq<u8>| spec_exact_search(dec_trie(enc_trie(v)).unwrap(), key)
            == spec_exact_search(v, key),
{
    let bytes = enc_trie(v);
    let d = enc_louds_dense(v.louds_dense);
    let sp = enc_louds_sparse(v.louds_sparse);
    let pt = enc_compact_array(v.suffix_ptrs);
    let lt = enc_compact_array(v.suffix_lens);
    lemma_enc_dense_len_bound(v.louds_dense);
    lemma_enc_sparse_len_bound(v.louds_sparse);
    lemma_enc_ca_len_bound(v.suffix_ptrs);
    lemma_enc_ca_len_bound(v.suffix_lens);
    let tables = spec_u64_to_be(pt.len() as u64) + pt + spec_u64_to_be(lt.len() as u64) + lt;
    let c1 = 8 + d.len() as int;
    let c2 = c1 + 8 + sp.len() as int;
    let c3 = c2 + 8 + v.suffixes.len() as int;
    let c4 = c3 + 16 + pt.len() as int;
    assert(bytes.subrange(0, 8) =~= spec_u64_to_be(d.len() as u64));
    lemma_be_round_trip(d.len() as u64);
    assert(bytes.subrange(8, 8 + d.len() as int) =~= d);
    lemma_dec_enc_louds_dense(v.louds_dense);
    assert(bytes.subrange(c1, c1 + 8) =~= spec_u64_to_be(sp.len() as u64));
    lemma_be_round_trip(sp.len() as u64);
    assert(bytes.subrange(c1 + 8, c1 + 8 + sp.len() as int) =~= sp);
    lemma_dec_enc_louds_sparse(v.louds_sparse);
    assert(bytes.subrange(c2, c2 + 8) =~= spec_u64_to_be(v.suffixes.len() as u64));
    lemma_be_round_trip(v.suffixes.len() as u64);
    assert(bytes.subrange(c2 + 8, c2 + 8 + v.suffixes.len() as int) =~= v.suffixes);
    assert(bytes.subrange(c3, c3 + 8) =~= spec_u64_to_be(tables.len() as u64));
    lemma_be_round_trip(tables.len() as u64);
    assert(bytes.subrange(c3 + 8, c3 + 16) =~= spec_u64_to_be(pt.len() as u64));
    lemma_be_round_trip(pt.len() as u64);
    assert(bytes.subrange(c3 + 16, c3 + 16 + pt.len() as int) =~= pt);
    lemma_dec_enc_compact_array(v.suffix_ptrs);
    assert(bytes.subrange(c4, c4 + 8) =~= spec_u64_to_be(lt.len() as u64));
    lemma_be_round_trip(lt.len() as u64);
    assert(bytes.subrange(c4 + 8, c4 + 8 + lt.len() as int) =~= lt);
    lemma_dec_enc_compact_array(v.suffix_lens);
    assert(bytes.len() == c4 + 8 + lt.len());
    assert(dec_trie(bytes) == Some(v));
}

/// A well-formed dense structure's encoding fits in a machine word's
/// range.
pub proof fn lemma_enc_dense_len_bound(v: LoudsDenseV)
    requires
        v.wf(),
    ensures
        enc_louds_dense(v).len() <= usize::MAX,
{
    lemma_enc_rank_tight_bound(v.label_bitmaps);
    lemma_enc_rank_tight_bound(v.child_indicator_bitmaps);
    lemma_enc_rank_tight_bound(v.prefixkey_indicator_bits);
}

/// A well-formed rank structure's encoding takes well under a quarter of
/// the machine word's range.
pub proof fn lemma_enc_rank_tight_bound(v: crate::rank::BitvectorRankV)
    requires
        v.wf(),
    ensures
        crate::rank::enc_rank(v).len() <= usize::MAX as int / 8,
{
    crate::codec::lemma_enc_words_len(v.bitvec.bits);
    crate::codec::lemma_enc_words_len(crate::codec::u64s_of(v.rank_lut));
    vstd::arithmetic::div_mod::lemma_div_is_ordered_by_denominator(
        v.bitvec.num_bits as int,
        64,
        v.basic_block_size as int,
    );
}

/// A well-formed sparse structure's encoding fits in a machine word's
/// range.
pub proof fn lemma_enc_sparse_len_bound(v: LoudsSparseV)
    requires
        v.wf(),
    ensures
        enc_louds_sparse(v).len() <= usize::MAX,
{
    lemma_enc_rank_tight_bound(v.child_indicator_bits);
    lemma_enc_select_tight_bound(v.louds_bits);
}

/// A well-formed select structure's encoding takes well under a quarter of
/// the machine word's range.
pub proof fn lemma_enc_select_tight_bound(v: crate::select::BitvectorSelectV)
    requires
        v.wf(),
    ensures
        crate::select::enc_select(v).len() <= usize::MAX as int / 8,
{
    crate::codec::lemma_enc_words_len(v.bitvec.bits);
    crate::codec::lemma_enc_words_len(crate::codec::u64s_of(v.select_lut));
    let st = v.bitvec.bit_seq();
    let nb = v.bitvec.num_bits as int;
    crate::bitvector::lemma_count_ones_le(st, nb);
    assert(st.take(nb) =~= st);
    vstd::arithmetic::div_mod::lemma_div_is_ordered(
        crate::bitvector::count_ones(st) as int,
        nb,
        v.sample_interval as int,
    );
    vstd::arithmetic::div_mod::lemma_div_is_ordered_by_denominator(
        nb,
        64,
        v.sample_interval as int,
    );
}

/// A well-formed compact array's encoding fits in a machine word's range.
pub proof fn lemma_enc_ca_len_bound(v: CompactArrayV)
    requires
        v.wf(),
    ensures
        enc_compact_array(v).len() <= usize::MAX,
{
    crate::codec::lemma_enc_words_len(u64s_of_u32s(v.chunks));
    assert(v.chunks.len() <= u32::MAX as int / 32 + 1);
}

/// Abstract content of a [`TrajectoryHash`]: the encoded key width in
/// bytes and the three mask ladders, one per dimension.
pub struct TrajectoryHashV {
    pub byte_length: usize,
    pub lng_masks: Seq<u128>,
    pub lat_masks: Seq<u128>,
    pub time_masks: Seq<u128>,
}

/// Stepping a dimension down: from the lowest mask up, a set bit is
/// cleared and the scan ends; a clear bit is set and borrowed past.
pub open spec fn spec_step_down(value: u128, masks: Seq<u128>, i: int, updated: u128) -> u128
    decreases masks.len() - i,
{
    if i < 0 || i >= masks.len() {
        updated
    } else if value & masks[i] != 0 {
        updated & !masks[i]
    } else {
        spec_step_down(value, masks, i + 1, updated | masks[i])
    }
}

/// Stepping a dimension up: from the lowest mask up, a clear bit is set
/// and the scan ends; a set bit is cleared and carried past.
pub open spec fn spec_step_up(value: u128, masks: Seq<u128>, i: int, updated: u128) -> u128
    decreases masks.len() - i,
{
    if i < 0 || i >= masks.len() {
        updated
    } else if value & masks[i] == 0 {
        updated | masks[i]
    } else {
        spec_step_up(value, masks, i + 1, updated & !masks[i])
    }
}

/// One dimension's move by a direction of -1, 0 or 1.
pub open spec fn spec_step_dim(value: u128, masks: Seq<u128>, direction: i32, updated: u128) -> u128 {
    if direction == -1 {
        spec_step_down(value, masks, 0, updated)
    } else if direction == 1 {
        spec_step_up(value, masks, 0, updated)
    } else {
        updated
    }
}

/// The encoded neighbor of `value` one grid move away in each dimension.
pub open spec fn spec_calc(v: TrajectoryHashV, value: u128, d0: i32, d1: i32, d2: i32) -> u128 {
    let u0 = spec_step_dim(value, v.lng_masks, d0, value);
    let u1 = spec_step_dim(value, v.lat_masks, d1, u0);
    spec_step_dim(value, v.time_masks, d2, u1)
}

/// The `i`-th of the 27 grid neighbors of an encoded key, as key bytes.
pub open spec fn spec_neighbor(v: TrajectoryHashV, key: Seq<u8>, i: int) -> Seq<u8> {
    spec_u128_tail_bytes(
        spec_calc(
            v,
            be_val(key) as u128,
            (i / 9 % 3 - 1) as i32,
            (i / 3 % 3 - 1) as i32,
            (i % 3 - 1) as i32,
        ),
        v.byte_length as int,
    )
}

/// A dimension mask is one set bit or none.
pub open spec fn spec_single_bit_or_zero(m: u128) -> bool {
    if m == 0 {
        true
    } else {
        m & ((m - 1) as u128) == 0
    }
}

/// Shifting keeps a mask one set bit or none.
proof fn lemma_single_shl(x: u128, k: u128)
    by (bit_vector)
    requires
        k < 128,
        x == 0 || x & ((x - 1) as u128) == 0,
    ensures
        (x << k) == 0 || ((x << k) & (((x << k) - 1) as u128)) == 0,
{
}

/// The cutover from three-step to two-step rungs keeps the mask shape.
proof fn lemma_single_cutover(x: u128)
    by (bit_vector)
    requires
        x == 0 || x & ((x - 1) as u128) == 0,
    ensures
        (((x << 3) >> 3) << 2) == 0 || ((((x << 3) >> 3) << 2) & (((((x << 3) >> 3) << 2)
            - 1) as u128)) == 0,
{
}

/// A zero mask stays zero under every ladder step.
proof fn lemma_zero_rungs(x: u128)
    by (bit_vector)
    requires
        x == 0,
    ensures
        x << 1 == 0,
        x << 2 == 0,
        x << 3 == 0,
        ((x << 3) >> 3) << 2 == 0,
{
}

/// Every rung of a spatial ladder (three-step rungs, a cutover, then
/// two-step rungs) is one set bit or none, and once a rung is zero every
/// later rung is zero.
pub proof fn lemma_geo_ladder_shape(masks: Seq<u128>, shared: int, upto: int)
    requires
        1 <= shared <= masks.len(),
        0 <= upto < masks.len(),
        spec_single_bit_or_zero(masks[0]),
        forall|k: int| 1 <= k < shared ==> #[trigger] masks[k] == masks[k - 1] << 3,
        shared < masks.len() ==> masks[shared] == ((masks[shared - 1] << 3) >> 3) << 2,
        forall|k: int| shared < k < masks.len() ==> #[trigger] masks[k] == masks[k - 1] << 2,
    ensures
        spec_single_bit_or_zero(masks[upto]),
        upto > 0 && masks[upto - 1] == 0 ==> masks[upto] == 0,
    decreases upto,
{
    if upto > 0 {
        lemma_geo_ladder_shape(masks, shared, upto - 1);
        let prev = masks[upto - 1];
        if upto < shared {
            lemma_single_shl(prev, 3);
            if prev == 0 {
                lemma_zero_rungs(prev);
            }
        } else if upto == shared {
            lemma_single_cutover(prev);
            if prev == 0 {
                lemma_zero_rungs(prev);
            }
        } else {
            lemma_single_shl(prev, 2);
            if prev == 0 {
                lemma_zero_rungs(prev);
            }
        }
    }
}

/// Every rung of a temporal ladder (three-step rungs, then one-step rungs)
/// is one set bit or none, and once a rung is zero every later rung is
/// zero.
pub proof fn lemma_time_ladder_shape(masks: Seq<u128>, shared: int, upto: int)
    requires
        1 <= shared <= masks.len(),
        0 <= upto < masks.len(),
        spec_single_bit_or_zero(masks[0]),
        forall|k: int| 1 <= k < shared ==> #[trigger] masks[k] == masks[k - 1] << 3,
        shared < masks.len() ==> masks[shared] == masks[shared - 1] << 3,
        forall|k: int| shared < k < masks.len() ==> #[trigger] masks[k] == masks[k - 1] << 1,
    ensures
        spec_single_bit_or_zero(masks[upto]),
        upto > 0 && masks[upto - 1] == 0 ==> masks[upto] == 0,
    decreases upto,
{
    if upto > 0 {
        lemma_time_ladder_shape(masks, shared, upto - 1);
        let prev = masks[upto - 1];
        if upto <= shared {
            lemma_single_shl(prev, 3);
        } else {
            lemma_single_shl(prev, 1);
        }
        if prev == 0 {
            lemma_zero_rungs(prev);
        }
    }
}

/// Encodes a point of a small three-dimensional integer grid into a trie
/// key, with the two spatial and one temporal dimension independently
/// steppable through a doubling-mask ladder per dimension.
pub struct TrajectoryHash {
    byte_length: usize,
    lng_masks: Vec<u128>,
    lat_masks: Vec<u128>,
    time_masks: Vec<u128>,
}

impl View for TrajectoryHash {
    type V = TrajectoryHashV;

    closed spec fn view(&self) -> TrajectoryHashV {
        TrajectoryHashV {
            byte_length: self.byte_length,
            lng_masks: self.lng_masks@,
            lat_masks: self.lat_masks@,
            time_masks: self.time_masks@,
        }
    }
}

impl TrajectoryHash {
    /// Lays the three mask ladders for keys of `geo_length` spatial and
    /// `time_length` temporal bits, packed into `byte_length`-byte keys.
    /// While both dimensions have bits left, the ladders climb three bit
    /// positions per rung; the longer dimension then climbs alone, the
    /// spatial ladders two positions per rung and the temporal one one.
    /// Each dimension must be at least one bit wide: a zero-width
    /// dimension would lay all-zero ladders whose grid steps move nothing,
    /// so such an encoder is not offered.
    pub fn new(byte_length: usize, geo_length: usize, time_length: usize) -> (r: TrajectoryHash)
        requires
            1 <= geo_length,
            1 <= time_length,
        ensures
            r@.byte_length == byte_length,
            r@.lng_masks.len() == geo_length,
            r@.lat_masks.len() == geo_length,
            r@.time_masks.len() == time_length,
            r@.lng_masks[0] == 4u128,
            r@.lat_masks[0] == 2u128,
            r@.time_masks[0] == 1u128,
            ({
                let shared = if geo_length < time_length {
                    geo_length as int
                } else {
                    time_length as int
                };
                &&& forall|k: int|
                    1 <= k < shared ==> #[trigger] r@.lng_masks[k] == r@.lng_masks[k - 1] << 3
                &&& forall|k: int|
                    1 <= k < shared ==> #[trigger] r@.lat_masks[k] == r@.lat_masks[k - 1] << 3
                &&& forall|k: int|
                    1 <= k < shared ==> #[trigger] r@.time_masks[k] == r@.time_masks[k - 1] << 3
                &&& (geo_length > time_length ==> {
                    &&& r@.lng_masks[shared] == ((r@.lng_masks[shared - 1] << 3) >> 3) << 2
                    &&& r@.lat_masks[shared] == ((r@.lat_masks[shared - 1] << 3) >> 3) << 2
                    &&& forall|k: int|
                        shared < k < geo_length ==> #[trigger] r@.lng_masks[k] == r@.lng_masks[k
                            - 1] << 2
                    &&& forall|k: int|
                        shared < k < geo_length ==> #[trigger] r@.lat_masks[k] == r@.lat_masks[k
                            - 1] << 2
                })
                &&& (time_length > geo_length ==> {
                    &&& r@.time_masks[shared] == r@.time_masks[shared - 1] << 3
                    &&& forall|k: int|
                        shared < k < time_length ==> #[trigger] r@.time_masks[k]
                            == r@.time_masks[k - 1] << 1
                })
            }),
            // every rung of each ladder carries one set bit or none, and a
            // ladder that has run out of word stays at zero
            forall|k: int|
                0 <= k < geo_length ==> spec_single_bit_or_zero(#[trigger] r@.lng_masks[k]),
            forall|k: int|
                0 <= k < geo_length ==> spec_single_bit_or_zero(#[trigger] r@.lat_masks[k]),
            forall|k: int|
                0 <= k < time_length ==> spec_single_bit_or_zero(#[trigger] r@.time_masks[k]),
            forall|k: int|
                1 <= k < geo_length && r@.lng_masks[k - 1] == 0 ==> #[trigger] r@.lng_masks[k]
                    == 0,
            forall|k: int|
                1 <= k < geo_length && r@.lat_masks[k - 1] == 0 ==> #[trigger] r@.lat_masks[k]
                    == 0,
            forall|k: int|
                1 <= k < time_length && r@.time_masks[k - 1] == 0 ==> #[trigger] r@.time_masks[k]
                    == 0,
    {
        let mut geo_lng_mask: u128 = 0b100u128;
        let mut geo_lat_mask: u128 = 0b010u128;
        let mut time_mask: u128 = 0b001u128;
        let mut lng_masks: Vec<u128> = Vec::new();
        let mut lat_masks: Vec<u128> = Vec::new();
        let mut time_masks: Vec<u128> = Vec::new();
        if geo_length >= time_length {
            let mut k: usize = 0;
            while k < time_length
                invariant
                    k <= time_length <= geo_length,
                    1 <= time_length,
                    lng_masks@.len() == k,
                    lat_masks@.len() == k,
                    time_masks@.len() == k,
                    k > 0 ==> lng_masks@[0] == 4u128 && lat_masks@[0] == 2u128 && time_masks@[0]
                        == 1u128,
                    forall|j: int|
                        1 <= j < k ==> #[trigger] lng_masks@[j] == lng_masks@[j - 1] << 3,
                    forall|j: int|
                        1 <= j < k ==> #[trigger] lat_masks@[j] == lat_masks@[j - 1] << 3,
                    forall|j: int|
                        1 <= j < k ==> #[trigger] time_masks@[j] == time_masks@[j - 1] << 3,
                    k > 0 ==> geo_lng_mask == lng_masks@[k - 1] << 3,
                    k > 0 ==> geo_lat_mask == lat_masks@[k - 1] << 3,
                    k > 0 ==> time_mask == time_masks@[k - 1] << 3,
                    k == 0 ==> geo_lng_mask == 4u128 && geo_lat_mask == 2u128 && time_mask
                        == 1u128,
                decreases time_length - k,
            {
                lng_masks.push(geo_lng_mask);
                geo_lng_mask = geo_lng_mask << 3;
                lat_masks.push(geo_lat_mask);
                geo_lat_mask = geo_lat_mask << 3;
                time_masks.push(time_mask);
                time_mask = time_mask << 3;
                k = k + 1;
            }
            geo_lng_mask = geo_lng_mask >> 3;
            geo_lng_mask = geo_lng_mask << 2;
            geo_lat_mask = geo_lat_mask >> 3;
            geo_lat_mask = geo_lat_mask << 2;
            let mut k: usize = time_length;
            while k < geo_length
                invariant
                    time_length <= k <= geo_length,
                    1 <= time_length,
                    lng_masks@.len() == k,
                    lat_masks@.len() == k,
                    time_masks@.len() == time_length,
                    lng_masks@[0] == 4u128,
                    lat_masks@[0] == 2u128,
                    time_masks@[0] == 1u128,
                    forall|j: int|
                        1 <= j < time_length ==> #[trigger] lng_masks@[j] == lng_masks@[j - 1]
                            << 3,
                    forall|j: int|
                        1 <= j < time_length ==> #[trigger] lat_masks@[j] == lat_masks@[j - 1]
                            << 3,
                    forall|j: int|
                        1 <= j < time_length ==> #[trigger] time_masks@[j] == time_masks@[j - 1]
                            << 3,
                    k > time_length ==> lng_masks@[time_length as int] == ((lng_masks@[time_length
                        - 1] << 3) >> 3) << 2,
                    k > time_length ==> lat_masks@[time_length as int] == ((lat_masks@[time_length
                        - 1] << 3) >> 3) << 2,
                    forall|j: int|
                        time_length < j < k ==> #[trigger] lng_masks@[j] == lng_masks@[j - 1]
                            << 2,
                    forall|j: int|
                        time_length < j < k ==> #[trigger] lat_masks@[j] == lat_masks@[j - 1]
                            << 2,
                    k == time_length ==> geo_lng_mask == ((lng_masks@[time_length - 1] << 3) >> 3)
                        << 2,
                    k == time_length ==> geo_lat_mask == ((lat_masks@[time_length - 1] << 3) >> 3)
                        << 2,
                    k > time_length ==> geo_lng_mask == lng_masks@[k - 1] << 2,
                    k > time_length ==> geo_lat_mask == lat_masks@[k - 1] << 2,
                decreases geo_length - k,
            {
                lng_masks.push(geo_lng_mask);
                geo_lng_mask = geo_lng_mask << 2;
                lat_masks.push(geo_lat_mask);
                geo_lat_mask = geo_lat_mask << 2;
                k = k + 1;
            }
            proof {
                assert((4u128 & ((4u128 - 1) as u128)) == 0) by (bit_vector);
                assert((2u128 & ((2u128 - 1) as u128)) == 0) by (bit_vector);
                assert((1u128 & ((1u128 - 1) as u128)) == 0) by (bit_vector);
                assert forall|j: int| 0 <= j < lng_masks@.len() implies spec_single_bit_or_zero(
                    #[trigger] lng_masks@[j],
                ) && (j >= 1 && lng_masks@[j - 1] == 0 ==> lng_masks@[j] == 0) by {
                    lemma_geo_ladder_shape(lng_masks@, time_length as int, j);
                }
                assert forall|j: int| 0 <= j < lat_masks@.len() implies spec_single_bit_or_zero(
                    #[trigger] lat_masks@[j],
                ) && (j >= 1 && lat_masks@[j - 1] == 0 ==> lat_masks@[j] == 0) by {
                    lemma_geo_ladder_shape(lat_masks@, time_length as int, j);
                }
                assert forall|j: int| 0 <= j < time_masks@.len() implies spec_single_bit_or_zero(
                    #[trigger] time_masks@[j],
                ) && (j >= 1 && time_masks@[j - 1] == 0 ==> time_masks@[j] == 0) by {
                    lemma_time_ladder_shape(time_masks@, time_length as int, j);
                }
            }
        } else {
            let mut k: usize = 0;
            while k < geo_length
                invariant
                    k <= geo_length < time_length,
                    1 <= geo_length,
                    lng_masks@.len() == k,
                    lat_masks@.len() == k,
                    time_masks@.len() == k,
                    k > 0 ==> lng_masks@[0] == 4u128 && lat_masks@[0] == 2u128 && time_masks@[0]
                        == 1u128,
                    forall|j: int|
                        1 <= j < k ==> #[trigger] lng_masks@[j] == lng_masks@[j - 1] << 3,
                    forall|j: int|
                        1 <= j < k ==> #[trigger] lat_masks@[j] == lat_masks@[j - 1] << 3,
                    forall|j: int|
                        1 <= j < k ==> #[trigger] time_masks@[j] == time_masks@[j - 1] << 3,
                    k > 0 ==> geo_lng_mask == lng_masks@[k - 1] << 3,
                    k > 0 ==> geo_lat_mask == lat_masks@[k - 1] << 3,
                    k > 0 ==> time_mask == time_masks@[k - 1] << 3,
                    k == 0 ==> geo_lng_mask == 4u128 && geo_lat_mask == 2u128 && time_mask
                        == 1u128,
                decreases geo_length - k,
            {
                lng_masks.push(geo_lng_mask);
                geo_lng_mask = geo_lng_mask << 3;
                lat_masks.push(geo_lat_mask);
                geo_lat_mask = geo_lat_mask << 3;
                time_masks.push(time_mask);
                time_mask = time_mask << 3;
                k = k + 1;
            }
            let mut k: usize = geo_length;
            while k < time_length
                invariant
                    geo_length <= k <= time_length,
                    1 <= geo_length,
                    lng_masks@.len() == geo_length,
                    lat_masks@.len() == geo_length,
                    time_masks@.len() == k,
                    lng_masks@[0] == 4u128,
                    lat_masks@[0] == 2u128,
                    time_masks@[0] == 1u128,
                    forall|j: int|
                        1 <= j < geo_length ==> #[trigger] lng_masks@[j] == lng_masks@[j - 1]
                            << 3,
                    forall|j: int|
                        1 <= j < geo_length ==> #[trigger] lat_masks@[j] == lat_masks@[j - 1]
                            << 3,
                    forall|j: int|
                        1 <= j < geo_length ==> #[trigger] time_masks@[j] == time_masks@[j - 1]
                            << 3,
                    k > geo_length ==> time_masks@[geo_length as int] == time_masks@[geo_length
                        - 1] << 3,
                    forall|j: int|
                        geo_length < j < k ==> #[trigger] time_masks@[j] == time_masks@[j - 1]
                            << 1,
                    k == geo_length ==> time_mask == time_masks@[geo_length - 1] << 3,
                    k > geo_length ==> time_mask == time_masks@[k - 1] << 1,
                decreases time_length - k,
            {
                time_masks.push(time_mask);
                time_mask = time_mask << 1;
                k = k + 1;
            }
            proof {
                assert((4u128 & ((4u128 - 1) as u128)) == 0) by (bit_vector);
                assert((2u128 & ((2u128 - 1) as u128)) == 0) by (bit_vector);
                assert((1u128 & ((1u128 - 1) as u128)) == 0) by (bit_vector);
                assert forall|j: int| 0 <= j < lng_masks@.len() implies spec_single_bit_or_zero(
                    #[trigger] lng_masks@[j],
                ) && (j >= 1 && lng_masks@[j - 1] == 0 ==> lng_masks@[j] == 0) by {
                    lemma_geo_ladder_shape(lng_masks@, geo_length as int, j);
                }
                assert forall|j: int| 0 <= j < lat_masks@.len() implies spec_single_bit_or_zero(
                    #[trigger] lat_masks@[j],
                ) && (j >= 1 && lat_masks@[j - 1] == 0 ==> lat_masks@[j] == 0) by {
                    lemma_geo_ladder_shape(lat_masks@, geo_length as int, j);
                }
                assert forall|j: int| 0 <= j < time_masks@.len() implies spec_single_bit_or_zero(
                    #[trigger] time_masks@[j],
                ) && (j >= 1 && time_masks@[j - 1] == 0 ==> time_masks@[j] == 0) by {
                    lemma_time_ladder_shape(time_masks@, geo_length as int, j);
                }
            }
        }
        TrajectoryHash { byte_length, lng_masks, lat_masks, time_masks }
    }

    /// The 27 grid-adjacent encodings of an encoded key, each re-encoded
    /// as a trie key of this encoder's byte width.
    pub fn get_neighbors(&self, key: &[u8]) -> (r: Vec<Vec<u8>>)
        requires
            1 <= key@.len() <= 16,
            self@.byte_length <= 16,
        ensures
            r@.len() == EXTEND_NUMBER,
            forall|i: int| 0 <= i < EXTEND_NUMBER ==> (#[trigger] r@[i])@ == spec_neighbor(
                self@,
                key@,
                i,
            ),
    {
        let value: u128 = read_be_u128(key);
        let mut vec: Vec<Vec<u8>> = Vec::new();
        let mut d0: usize = 0;
        while d0 < 3
            invariant
                d0 <= 3,
                1 <= key@.len() <= 16,
                self@.byte_length <= 16,
                value == be_val(key@) as u128,
                vec@.len() == 9 * d0,
                forall|i: int| 0 <= i < 9 * d0 ==> (#[trigger] vec@[i])@ == spec_neighbor(
                    self@,
                    key@,
                    i,
                ),
            decreases 3 - d0,
        {
            let mut d1: usize = 0;
            while d1 < 3
                invariant
                    d0 < 3,
                    d1 <= 3,
                    1 <= key@.len() <= 16,
                    self@.byte_length <= 16,
                    value == be_val(key@) as u128,
                    vec@.len() == 9 * d0 + 3 * d1,
                    forall|i: int| 0 <= i < 9 * d0 + 3 * d1 ==> (#[trigger] vec@[i])@
                        == spec_neighbor(self@, key@, i),
                decreases 3 - d1,
            {
                let mut d2: usize = 0;
                while d2 < 3
                    invariant
                        d0 < 3,
                        d1 < 3,
                        d2 <= 3,
                        1 <= key@.len() <= 16,
                        self@.byte_length <= 16,
                        value == be_val(key@) as u128,
                        vec@.len() == 9 * d0 + 3 * d1 + d2,
                        forall|i: int| 0 <= i < 9 * d0 + 3 * d1 + d2 ==> (#[trigger] vec@[i])@
                            == spec_neighbor(self@, key@, i),
                    decreases 3 - d2,
                {
                    let dir0: i32 = d0 as i32 - 1;
                    let dir1: i32 = d1 as i32 - 1;
                    let dir2: i32 = d2 as i32 - 1;
                    let moved = self.calc_dirs(value, dir0, dir1, dir2);
                    let bytes = u128_tail_bytes(moved, self.byte_length);
                    let ghost i = 9 * d0 + 3 * d1 + d2;
                    proof {
                        vstd::arithmetic::div_mod::lemma_fundamental_div_mod_converse(
                            i as int,
                            9,
                            d0 as int,
                            (3 * d1 + d2) as int,
                        );
                        vstd::arithmetic::div_mod::lemma_fundamental_div_mod_converse(
                            i as int,
                            3,
                            (3 * d0 + d1) as int,
                            d2 as int,
                        );
                        vstd::arithmetic::div_mod::lemma_fundamental_div_mod_converse(
                            i as int / 9,
                            3,
                            0,
                            d0 as int,
                        );
                        vstd::arithmetic::div_mod::lemma_fundamental_div_mod_converse(
                            i as int / 3,
                            3,
                            d0 as int,
                            d1 as int,
                        );
                        assert(bytes@ == spec_neighbor(self@, key@, i as int));
                    }
                    vec.push(bytes);
                    d2 = d2 + 1;
                }
                d1 = d1 + 1;
            }
            d0 = d0 + 1;
        }
        vec
    }

    /// The grid neighbor of `value` one move per dimension away, the moves
    /// given as an array of -1, 0 or 1 per dimension.
    pub fn calc(&self, value: u128, pos: [i32; 3]) -> (r: u128)
        requires
            forall|d: int| 0 <= d < 3 ==> -1 <= #[trigger] pos@[d] <= 1,
        ensures
            r == spec_calc(self@, value, pos@[0], pos@[1], pos@[2]),
    {
        let d0 = pos[0];
        let d1 = pos[1];
        let d2 = pos[2];
        self.calc_dirs(value, d0, d1, d2)
    }

    /// The grid neighbor of `value`, directions given one per dimension.
    fn calc_dirs(&self, value: u128, d0: i32, d1: i32, d2: i32) -> (r: u128)
        requires
            -1 <= d0 <= 1,
            -1 <= d1 <= 1,
            -1 <= d2 <= 1,
        ensures
            r == spec_calc(self@, value, d0, d1, d2),
    {
        let u0 = step_dim(value, &self.lng_masks, d0, value);
        let u1 = step_dim(value, &self.lat_masks, d1, u0);
        step_dim(value, &self.time_masks, d2, u1)
    }
}

/// One dimension's move by a direction of -1, 0 or 1.
fn step_dim(value: u128, masks: &Vec<u128>, direction: i32, updated: u128) -> (r: u128)
    requires
        -1 <= direction <= 1,
    ensures
        r == spec_step_dim(value, masks@, direction, updated),
{
    if direction == -1 {
        let n = masks.len();
        let mut acc = updated;
        let mut i: usize = 0;
        while i < n
            invariant
                i <= n,
                n == masks@.len(),
                direction == -1,
                spec_step_down(value, masks@, 0, updated) == spec_step_down(
                    value,
                    masks@,
                    i as int,
                    acc,
                ),
            decreases n - i,
        {
            let m = masks[i];
            if value & m != 0 {
                return acc & !m;
            }
            acc = acc | m;
            i = i + 1;
        }
        acc
    } else if direction == 1 {
        let n = masks.len();
        let mut acc = updated;
        let mut i: usize = 0;
        while i < n
            invariant
                i <= n,
                n == masks@.len(),
                direction == 1,
                spec_step_up(value, masks@, 0, updated) == spec_step_up(
                    value,
                    masks@,
                    i as int,
                    acc,
                ),
            decreases n - i,
        {
            let m = masks[i];
            if value & m == 0 {
                return acc | m;
            }
            acc = acc & !m;
            i = i + 1;
        }
        acc
    } else {
        updated
    }
}

/// Reads a big-endian value of up to 16 key bytes.
fn read_be_u128(input: &[u8]) -> (r: u128)
    requires
        1 <= input@.len() <= 16,
    ensures
        r == be_val(input@) as u128,
{
    let r = u128_from_be(input);
    proof {
        crate::codec::lemma_be_val_bound(input@);
        lemma_pow2_le_max128(8 * input@.len());
    }
    r
}

impl Trie {
    /// Whether any of the 27 grid neighbors of the encoded key, the key
    /// itself among them, is held by the trie.
    pub fn accurate_search(&self, key: &[u8], th: &TrajectoryHash) -> (r: bool)
        requires
            self.wf(),
            1 <= key@.len() <= 16,
            th@.byte_length <= 16,
        ensures
            r == exists|i: int|
                0 <= i < EXTEND_NUMBER && spec_exact_search(
                    self@,
                    #[trigger] spec_neighbor(th@, key@, i),
                ) != K_NOT_FOUND,
    {
        let neighbors = th.get_neighbors(key);
        let n = neighbors.len();
        let mut i: usize = 0;
        while i < n
            invariant
                i <= n,
                n == EXTEND_NUMBER,
                self.wf(),
                neighbors@.len() == n,
                forall|j: int| 0 <= j < n ==> (#[trigger] neighbors@[j])@ == spec_neighbor(
                    th@,
                    key@,
                    j,
                ),
                forall|j: int|
                    0 <= j < i ==> spec_exact_search(self@, #[trigger] spec_neighbor(th@, key@, j))
                        == K_NOT_FOUND,
            decreases n - i,
        {
            if self.exact_search(neighbors[i].as_slice()) != K_NOT_FOUND {
                return true;
            }
            i = i + 1;
        }
        false
    }

    /// Whether some `time_range` consecutive keys of the list each have a
    /// grid neighbor held by the trie.
    pub fn accurate_doe_search(&self, time_range: usize, keys: &Vec<Vec<u8>>, th: &TrajectoryHash) -> (r:
        bool)
        requires
            self.wf(),
            1 <= time_range,
            th@.byte_length <= 16,
            forall|i: int| 0 <= i < keys@.len() ==> 1 <= (#[trigger] keys@[i])@.len() <= 16,
        ensures
            r == spec_accurate_doe(self@, th@, time_range as int, keys.deep_view(), 0, 0),
    {
        let ghost kview = keys.deep_view();
        let n = keys.len();
        let mut sequence_count: usize = 0;
        let mut i: usize = 0;
        while i < n
            invariant
                i <= n,
                n == keys@.len(),
                self.wf(),
                1 <= time_range,
                th@.byte_length <= 16,
                forall|j: int| 0 <= j < keys@.len() ==> 1 <= (#[trigger] keys@[j])@.len() <= 16,
                kview == keys.deep_view(),
                sequence_count < time_range,
                spec_accurate_doe(self@, th@, time_range as int, kview, 0, 0)
                    == spec_accurate_doe(
                    self@,
                    th@,
                    time_range as int,
                    kview,
                    i as int,
                    sequence_count as int,
                ),
            decreases n - i,
        {
            let is_find = self.accurate_search(keys[i].as_slice(), th);
            proof {
                assert(keys@[i as int]@ =~= kview[i as int]);
            }
            if is_find {
                sequence_count = sequence_count + 1;
                if sequence_count >= time_range {
                    return true;
                }
            } else {
                sequence_count = 0;
            }
            i = i + 1;
        }
        false
    }
}

/// Whether some grid neighbor of key `k` of the list is held by the trie.
pub open spec fn spec_accurate_hit(v: TrieV, th: TrajectoryHashV, keys: Seq<Seq<u8>>, k: int) -> bool {
    exists|j: int|
        0 <= j < EXTEND_NUMBER && spec_exact_search(v, #[trigger] spec_neighbor(th, keys[k], j))
            != K_NOT_FOUND
}

/// Whether a consecutive run of `time_range` keys each have a held grid
/// neighbor, scanning from key `i` with `count` consecutive hits behind.
pub open spec fn spec_accurate_doe(
    v: TrieV,
    th: TrajectoryHashV,
    time_range: int,
    keys: Seq<Seq<u8>>,
    i: int,
    count: int,
) -> bool
    decreases keys.len() - i,
{
    if i < 0 || i >= keys.len() {
        false
    } else if spec_accurate_hit(v, th, keys, i) {
        if count + 1 >= time_range {
            true
        } else {
            spec_accurate_doe(v, th, time_range, keys, i + 1, count + 1)
        }
    } else {
        spec_accurate_doe(v, th, time_range, keys, i + 1, 0)
    }
}

/// Whether the `time_range` keys from `s` on each have a held neighbor.
pub open spec fn spec_accurate_window_at(
    v: TrieV,
    th: TrajectoryHashV,
    time_range: int,
    keys: Seq<Seq<u8>>,
    s: int,
) -> bool {
    &&& 0 <= s
    &&& s + time_range <= keys.len()
    &&& forall|k: int| s <= k < s + time_range ==> #[trigger] spec_accurate_hit(v, th, keys, k)
}

/// The scanning form equals the window form, as for the exact search.
proof fn lemma_accurate_doe_scan(
    v: TrieV,
    th: TrajectoryHashV,
    time_range: int,
    keys: Seq<Seq<u8>>,
    i: int,
    count: int,
)
    requires
        0 <= count <= i <= keys.len(),
        count < time_range,
        forall|k: int| i - count <= k < i ==> spec_accurate_hit(v, th, keys, k),
    ensures
        spec_accurate_doe(v, th, time_range, keys, i, count) == exists|s: int|
            i - count <= s && #[trigger] spec_accurate_window_at(v, th, time_range, keys, s),
    decreases keys.len() - i,
{
    if i >= keys.len() {
        if exists|s: int|
            i - count <= s && #[trigger] spec_accurate_window_at(v, th, time_range, keys, s) {
            let s = choose|s: int|
                i - count <= s && #[trigger] spec_accurate_window_at(v, th, time_range, keys, s);
            assert(s + time_range <= i);
            assert(false);
        }
    } else if spec_accurate_hit(v, th, keys, i) {
        if count + 1 >= time_range {
            let s = i + 1 - time_range;
            assert(i - count <= s);
            assert(spec_accurate_window_at(v, th, time_range, keys, s));
        } else {
            lemma_accurate_doe_scan(v, th, time_range, keys, i + 1, count + 1);
        }
    } else {
        lemma_accurate_doe_scan(v, th, time_range, keys, i + 1, 0);
        if exists|s: int|
            i - count <= s && #[trigger] spec_accurate_window_at(v, th, time_range, keys, s) {
            let s = choose|s: int|
                i - count <= s && #[trigger] spec_accurate_window_at(v, th, time_range, keys, s);
            if s <= i {
                if s + time_range > i {
                    assert(spec_accurate_hit(v, th, keys, i));
                    assert(false);
                } else {
                    assert(time_range <= count);
                    assert(false);
                }
            }
            assert(s >= i + 1);
        }
    }
}

/// The scanning form of the approximate exposure search answers exactly
/// whether some window of `time_range` consecutive keys each have a held
/// grid neighbor.
pub proof fn lemma_accurate_doe_window_form(
    v: TrieV,
    th: TrajectoryHashV,
    time_range: int,
    keys: Seq<Seq<u8>>,
)
    requires
        1 <= time_range,
    ensures
        spec_accurate_doe(v, th, time_range, keys, 0, 0) == exists|s: int| #[trigger]
            spec_accurate_window_at(v, th, time_range, keys, s),
{
    lemma_accurate_doe_scan(v, th, time_range, keys, 0, 0);
}

/// The subslice `bytes[lo..hi]`.
fn slice_range(bytes: &[u8], lo: usize, hi: usize) -> (r: &[u8])
    requires
        lo <= hi <= bytes@.len(),
    ensures
        r@ == bytes@.subrange(lo as int, hi as int),
{
    &bytes[lo..hi]
}

} // verus!
