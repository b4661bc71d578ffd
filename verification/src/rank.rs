//! Rank support: 1-based count of set bits in `[0, pos]` of a bit vector,
//! answered from a block-granular cumulative lookup table.

use vstd::prelude::*;
use vstd::arithmetic::div_mod::{lemma_fundamental_div_mod, lemma_div_is_ordered,
    lemma_mod_division_less_than_divisor, lemma_remainder_lower};
use crate::bitvector::{BitVector, BitVectorV, count_ones, dec_bitvector, enc_bitvector,
    lemma_count_ones_le, lemma_dec_enc_bitvector, spec_concat_bits, spec_total_bits};
use crate::codec::{be_val, dec_usizes, dec_words, enc_words, lemma_be_round_trip, lemma_enc_words_len,
    push_u64_be, push_usizes_be, read_u64_be, read_usizes_be, spec_u64_to_be, u64s_of,
    u64_to_usize_checked, usize_vecs_equal};
use crate::config::{K_WORD_SIZE, level_t, position_t, word_t};
use crate::popcount::{lemma_count_ones_concat, packed_range, popcount_linear};

verus! {

/// Abstract content of a [`BitvectorRank`].
pub struct BitvectorRankV {
    pub bitvec: BitVectorV,
    pub basic_block_size: usize,
    pub rank_lut: Seq<usize>,
}

impl BitvectorRankV {
    /// Well-formed: the bit vector is well-formed, the block size is a
    /// positive multiple of the word size, and entry `i` of the lookup
    /// table counts the set bits strictly before block `i`.
    pub open spec fn wf(self) -> bool {
        &&& self.bitvec.wf()
        &&& self.basic_block_size >= 64
        &&& self.basic_block_size % 64 == 0
        &&& self.rank_lut.len() == self.bitvec.num_bits as int / self.basic_block_size as int + 1
        &&& forall|i: int|
            0 <= i < self.rank_lut.len() ==> #[trigger] self.rank_lut[i] == count_ones(
                self.bitvec.bit_seq().take(i * self.basic_block_size),
            )
    }
}

/// A bit vector with a rank lookup table.
pub struct BitvectorRank {
    bitvec: BitVector,
    basic_block_size: position_t,
    rank_lut: Vec<position_t>,
}

impl View for BitvectorRank {
    type V = BitvectorRankV;

    closed spec fn view(&self) -> BitvectorRankV {
        BitvectorRankV {
            bitvec: self.bitvec@,
            basic_block_size: self.basic_block_size,
            rank_lut: self.rank_lut@,
        }
    }
}

impl BitvectorRank {
    /// Well-formedness of the underlying representation.
    pub open spec fn wf(&self) -> bool {
        self@.wf()
    }

    /// The logical bit sequence of the underlying vector.
    pub open spec fn bit_seq(&self) -> Seq<bool> {
        self@.bitvec.bit_seq()
    }

    /// Builds the concatenated bit vector and its rank lookup table.
    /// Returns `None` when the total bit count overflows the machine word.
    pub fn new(
        basic_block_size: position_t,
        bitvector_per_level: &Vec<Vec<word_t>>,
        num_bits_per_level: &Vec<position_t>,
        start_level: level_t,
        end_level: level_t,
    ) -> (r: Option<BitvectorRank>)
        requires
            basic_block_size >= 64,
            basic_block_size % 64 == 0,
            end_level <= bitvector_per_level@.len(),
            end_level <= num_bits_per_level@.len(),
            end_level == 0 ==> bitvector_per_level@.len() == 0,
            forall|l: int|
                start_level <= l < end_level ==> num_bits_per_level@[l]
                    <= #[trigger] bitvector_per_level@[l]@.len() * 64,
        ensures
            ({
                let total = spec_total_bits(
                    num_bits_per_level@,
                    start_level as int,
                    end_level as int,
                );
                match r {
                    Some(rk) => {
                        &&& rk.wf()
                        &&& rk@.basic_block_size == basic_block_size
                        &&& rk@.bitvec.num_bits == total
                        &&& rk.bit_seq() == spec_concat_bits(
                            bitvector_per_level.deep_view(),
                            num_bits_per_level@,
                            start_level as int,
                            end_level as int,
                        )
                    },
                    None => total > usize::MAX / 4,
                }
            }),
    {
        let bitvec = match BitVector::new(
            bitvector_per_level,
            num_bits_per_level,
            start_level,
            end_level,
        ) {
            Some(bv) => bv,
            None => {
                return None;
            },
        };
        let rank_lut = build_rank_lut(&bitvec, basic_block_size);
        Some(BitvectorRank { bitvec, basic_block_size, rank_lut })
    }

    /// The underlying bit vector.
    pub fn get_bitvec(&self) -> (r: &BitVector)
        ensures
            r@ == self@.bitvec,
    {
        &self.bitvec
    }

    /// Counts the set bits in positions `[0, pos]`: the position is
    /// zero-based and the count one-based, so for bits `100101000`,
    /// `rank(3)` is 2.
    pub fn rank(&self, pos: position_t) -> (r: position_t)
        requires
            self.wf(),
            pos < self@.bitvec.num_bits,
        ensures
            r == count_ones(self.bit_seq().take(pos + 1)),
    {
        let ghost s = self.bit_seq();
        let bbs = self.basic_block_size;
        let word_per_basic_block: position_t = bbs / K_WORD_SIZE;
        let block_id: position_t = pos / bbs;
        let offset: position_t = pos % bbs;
        proof {
            lemma_fundamental_div_mod(pos as int, bbs as int);
            lemma_div_is_ordered(pos as int, self@.bitvec.num_bits as int, bbs as int);
            lemma_mod_division_less_than_divisor(pos as int, bbs as int);
            lemma_fundamental_div_mod(bbs as int, 64);
            vstd::arithmetic::mul::lemma_mul_is_commutative(block_id as int, bbs as int);
            assert(block_id * bbs == block_id * (word_per_basic_block * 64));
            vstd::arithmetic::mul::lemma_mul_is_associative(
                block_id as int,
                word_per_basic_block as int,
                64,
            );
            assert(block_id * bbs + offset == pos);
            lemma_count_ones_le(s, block_id as int * bbs as int);
        }
        let start_word = block_id * word_per_basic_block;
        let base = self.rank_lut[block_id];
        let ghost nb = self@.bitvec.num_bits;
        proof {
            assert(start_word * 64 == block_id * bbs);
            assert(start_word * 64 + (offset + 1) <= nb);
            assert(nb <= self@.bitvec.bits.len() * 64);
        }
        let in_block = popcount_linear(self.bitvec.get_bits(), start_word, offset + 1);
        proof {
            let cut = block_id as int * bbs as int;
            assert(s.take(pos + 1) =~= s.take(cut) + packed_range(
                self@.bitvec.bits,
                cut,
                (offset + 1) as nat,
            ));
            lemma_count_ones_concat(
                s.take(cut),
                packed_range(self@.bitvec.bits, cut, (offset + 1) as nat),
            );
            lemma_count_ones_le(s, pos + 1);
        }
        base + in_block
    }
}

/// Raw byte footprint of a rank structure.
pub open spec fn spec_rank_byte_size(v: BitvectorRankV) -> int {
    crate::codec::sat_add(
        crate::bitvector::spec_bitvector_byte_size(v.bitvec),
        crate::codec::sat_add(8, crate::codec::sat_mul8(v.rank_lut.len() as int)),
    )
}

/// Builds the rank lookup table: entry `i` counts the set bits strictly
/// before block `i`.
fn build_rank_lut(bitvec: &BitVector, basic_block_size: position_t) -> (r: Vec<position_t>)
    requires
        bitvec.wf(),
        basic_block_size >= 64,
        basic_block_size % 64 == 0,
    ensures
        r@.len() == bitvec@.num_bits as int / basic_block_size as int + 1,
        forall|i: int|
            0 <= i < r@.len() ==> #[trigger] r@[i] == count_ones(
                bitvec.bit_seq().take(i * basic_block_size),
            ),
{
    let ghost s = bitvec.bit_seq();
    let ghost nb = bitvec@.num_bits;
    let bbs = basic_block_size;
    let word_per_basic_block: position_t = bbs / K_WORD_SIZE;
    let num_bits = bitvec.get_num_bits();
    proof {
        lemma_fundamental_div_mod(nb as int, bbs as int);
        lemma_remainder_lower(nb as int, bbs as int);
        lemma_fundamental_div_mod(bbs as int, 64);
        vstd::arithmetic::div_mod::lemma_div_is_ordered_by_denominator(nb as int, 64, bbs as int);
        assert(nb as int / bbs as int <= nb as int / 64);
    }
    let num_blocks: position_t = num_bits / bbs + 1;
    let mut rank_lut: Vec<position_t> = vec![0; num_blocks];
    let mut cumu_rank: position_t = 0;
    let mut i: position_t = 0;
    while i < num_blocks - 1
        invariant
            i <= num_blocks - 1,
            num_blocks == nb as int / bbs as int + 1,
            bbs >= 64,
            bbs % 64 == 0,
            word_per_basic_block == bbs as int / 64,
            word_per_basic_block * 64 == bbs,
            (num_blocks - 1) * bbs <= nb,
            bitvec.wf(),
            nb == bitvec@.num_bits,
            s == bitvec.bit_seq(),
            rank_lut@.len() == num_blocks,
            cumu_rank == count_ones(s.take(i * bbs)),
            forall|j: int|
                0 <= j < i ==> #[trigger] rank_lut@[j] == count_ones(s.take(j * bbs)),
        decreases num_blocks - 1 - i,
    {
        proof {
            vstd::arithmetic::mul::lemma_mul_inequality(
                i + 1,
                num_blocks - 1 as int,
                bbs as int,
            );
            assert((i + 1) * bbs <= (num_blocks - 1) * bbs);
            assert(i * bbs + bbs == (i + 1) * bbs) by {
                vstd::arithmetic::mul::lemma_mul_is_distributive_add_other_way(
                    bbs as int,
                    i as int,
                    1,
                );
            }
            lemma_count_ones_le(s, i as int * bbs as int);
            vstd::arithmetic::mul::lemma_mul_is_associative(
                i as int,
                word_per_basic_block as int,
                64,
            );
        }
        rank_lut[i] = cumu_rank;
        let start_word = i * word_per_basic_block;
        proof {
            assert(start_word * 64 == i * bbs);
            assert(start_word * 64 + bbs <= nb);
            assert(nb <= bitvec@.bits.len() * 64);
        }
        let add = popcount_linear(bitvec.get_bits(), start_word, bbs);
        proof {
            let cut = i as int * bbs as int;
            assert(s.take(cut + bbs) =~= s.take(cut) + packed_range(
                bitvec@.bits,
                cut,
                bbs as nat,
            ));
            lemma_count_ones_concat(s.take(cut), packed_range(bitvec@.bits, cut, bbs as nat));
            lemma_count_ones_le(s, cut + bbs);
        }
        cumu_rank = cumu_rank + add;
        i = i + 1;
    }
    rank_lut[num_blocks - 1] = cumu_rank;
    rank_lut
}

/// Byte encoding of a rank structure:
/// `[bit vector byte count][bit vector][basic block size][table length]
/// [table entries...]`, every scalar 8-byte big-endian.
pub open spec fn enc_rank(v: BitvectorRankV) -> Seq<u8> {
    let bvb = enc_bitvector(v.bitvec);
    spec_u64_to_be(bvb.len() as u64) + bvb + spec_u64_to_be(v.basic_block_size as u64)
        + spec_u64_to_be(v.rank_lut.len() as u64) + enc_words(u64s_of(v.rank_lut))
}

/// The rank structure a byte string spells: the exact parse of
/// [`enc_rank`], rejecting truncation, trailing bytes and ill-formed state.
pub open spec fn dec_rank(bytes: Seq<u8>) -> Option<BitvectorRankV> {
    if bytes.len() < 8 {
        None
    } else {
        let bl = be_val(bytes.subrange(0, 8));
        if bl > usize::MAX || bytes.len() < 8 + bl {
            None
        } else {
            match dec_bitvector(bytes.subrange(8, 8 + bl)) {
                None => None,
                Some(bv) => {
                    let c = 8 + bl;
                    if bytes.len() < c + 16 {
                        None
                    } else {
                        let bbs = be_val(bytes.subrange(c, c + 8));
                        let ll = be_val(bytes.subrange(c + 8, c + 16));
                        if bbs > usize::MAX || ll > usize::MAX {
                            None
                        } else if bytes.len() != c + 16 + ll * 8 {
                            None
                        } else if exists|i: int|
                            0 <= i < ll && #[trigger] dec_words(bytes, c + 16, ll as nat)[i]
                                > usize::MAX {
                            None
                        } else {
                            let v = BitvectorRankV {
                                bitvec: bv,
                                basic_block_size: bbs as usize,
                                rank_lut: dec_usizes(bytes, c + 16, ll as nat),
                            };
                            if v.wf() {
                                Some(v)
                            } else {
                                None
                            }
                        }
                    }
                },
            }
        }
    }
}

impl BitvectorRank {
    /// Raw byte footprint of the bit vector, the block-size field and the
    /// lookup table.
    pub fn byte_size(&self) -> (r: usize)
        ensures
            r == spec_rank_byte_size(self@),
    {
        crate::codec::sat_add_usize(
            self.bitvec.byte_size(),
            crate::codec::sat_add_usize(8, crate::codec::sat_mul8_usize(self.rank_lut.len())),
        )
    }

    /// Emits the bit vector, then the block size and the lookup table, each
    /// section length-prefixed.
    pub fn serialize(&self) -> (r: Vec<u8>)
        ensures
            r@ == enc_rank(self@),
    {
        let mut bytes: Vec<u8> = Vec::new();
        let mut bvb = self.bitvec.serialize();
        push_u64_be(&mut bytes, bvb.len() as u64);
        bytes.append(&mut bvb);
        push_u64_be(&mut bytes, self.basic_block_size as u64);
        push_u64_be(&mut bytes, self.rank_lut.len() as u64);
        push_usizes_be(&mut bytes, &self.rank_lut);
        proof {
            assert(bytes@ =~= enc_rank(self@));
        }
        bytes
    }

    /// Parses what [`BitvectorRank::serialize`] emits; `None` when the
    /// bytes are truncated, have trailing garbage, or spell an ill-formed
    /// structure.
    pub fn deserialize(bytes: &[u8]) -> (r: Option<BitvectorRank>)
        ensures
            match r {
                Some(rk) => dec_rank(bytes@) == Some(rk@) && rk.wf(),
                None => dec_rank(bytes@) is None,
            },
    {
        if bytes.len() < 8 {
            return None;
        }
        let bl64 = read_u64_be(bytes, 0);
        let bl = match u64_to_usize_checked(bl64) {
            Some(v) => v,
            None => {
                return None;
            },
        };
        if bytes.len() < 8 || bytes.len() - 8 < bl {
            return None;
        }
        let bitvec = match BitVector::deserialize(slice_range(bytes, 8, 8 + bl)) {
            Some(bv) => bv,
            None => {
                return None;
            },
        };
        let c = 8 + bl;
        if bytes.len() < 16 || bytes.len() - 16 < c {
            return None;
        }
        let bbs64 = read_u64_be(bytes, c);
        let ll64 = read_u64_be(bytes, c + 8);
        let bbs = match u64_to_usize_checked(bbs64) {
            Some(v) => v,
            None => {
                return None;
            },
        };
        let ll = match u64_to_usize_checked(ll64) {
            Some(v) => v,
            None => {
                return None;
            },
        };
        let body = match ll.checked_mul(8) {
            Some(x) => x,
            None => {
                return None;
            },
        };
        let tail = match body.checked_add(16) {
            Some(x) => x,
            None => {
                return None;
            },
        };
        let expected = match tail.checked_add(c) {
            Some(x) => x,
            None => {
                return None;
            },
        };
        if bytes.len() != expected {
            return None;
        }
        let rank_lut = match read_usizes_be(bytes, c + 16, ll) {
            Some(v) => v,
            None => {
                return None;
            },
        };
        let rk = BitvectorRank { bitvec, basic_block_size: bbs, rank_lut };
        if bbs < 64 || bbs % K_WORD_SIZE != 0 {
            assert(!rk@.wf());
            return None;
        }
        let rebuilt = build_rank_lut(&rk.bitvec, bbs);
        if !usize_vecs_equal(&rk.rank_lut, &rebuilt) {
            proof {
                if rk@.wf() {
                    assert(rk.rank_lut@.len() == rebuilt@.len());
                    assert forall|j: int| 0 <= j < rebuilt@.len() implies rk.rank_lut@[j]
                        == rebuilt@[j] by {
                        assert(rebuilt@[j] == count_ones(
                            rk.bitvec.bit_seq().take(j * bbs),
                        ));
                    }
                    assert(rk.rank_lut@ =~= rebuilt@);
                }
            }
            return None;
        }
        proof {
            assert(rk.rank_lut@.len() == rk@.bitvec.num_bits as int / bbs as int + 1);
            assert forall|i: int| 0 <= i < rk.rank_lut@.len() implies #[trigger] rk.rank_lut@[i]
                == count_ones(rk@.bitvec.bit_seq().take(i * bbs)) by {
                assert(rk.rank_lut@[i] == rebuilt@[i]);
            }
            assert(rk@.wf());
            assert(dec_rank(bytes@) == Some(rk@));
        }
        Some(rk)
    }
}

/// The subslice `bytes[lo..hi]`.
fn slice_range(bytes: &[u8], lo: usize, hi: usize) -> (r: &[u8])
    requires
        lo <= hi <= bytes@.len(),
    ensures
        r@ == bytes@.subrange(lo as int, hi as int),
{
    &bytes[lo..hi]
}

/// Parsing inverts encoding: a well-formed rank structure's bytes spell it
/// back.
pub proof fn lemma_dec_enc_rank(v: BitvectorRankV)
    requires
        v.wf(),
    ensures
        dec_rank(enc_rank(v)) == Some(v),
{
    let bytes = enc_rank(v);
    let bvb = enc_bitvector(v.bitvec);
    let bl = bvb.len() as int;
    let c = 8 + bl;
    crate::codec::lemma_enc_words_len(v.bitvec.bits);
    assert(bl == 16 + 8 * v.bitvec.bits.len());
    assert(v.bitvec.bits.len() <= usize::MAX as int / 64 + 1);
    assert(bl <= usize::MAX);
    lemma_enc_words_len(u64s_of(v.rank_lut));
    assert(bytes.len() == c + 16 + 8 * v.rank_lut.len());
    assert(bytes.subrange(0, 8) =~= spec_u64_to_be(bvb.len() as u64));
    lemma_be_round_trip(bvb.len() as u64);
    assert(bytes.subrange(8, 8 + bl) =~= bvb);
    lemma_dec_enc_bitvector(v.bitvec);
    assert(v.rank_lut.len() <= usize::MAX as int / 64 + 1) by {
        vstd::arithmetic::div_mod::lemma_div_is_ordered_by_denominator(
            v.bitvec.num_bits as int,
            64,
            v.basic_block_size as int,
        );
        vstd::arithmetic::div_mod::lemma_div_is_ordered(
            v.bitvec.num_bits as int,
            usize::MAX as int,
            64,
        );
    }
    assert(bytes.subrange(c, c + 8) =~= spec_u64_to_be(v.basic_block_size as u64));
    assert(bytes.subrange(c + 8, c + 16) =~= spec_u64_to_be(v.rank_lut.len() as u64));
    lemma_be_round_trip(v.basic_block_size as u64);
    lemma_be_round_trip(v.rank_lut.len() as u64);
    let dw = dec_words(bytes, c + 16, v.rank_lut.len());
    assert forall|i: int| 0 <= i < v.rank_lut.len() implies #[trigger] dw[i] == v.rank_lut[i]
        as u64 by {
        assert(bytes.subrange(c + 16 + 8 * i, c + 16 + 8 * i + 8) =~= enc_words(
            u64s_of(v.rank_lut),
        ).subrange(8 * i, 8 * i + 8));
        crate::codec::lemma_enc_words_index(u64s_of(v.rank_lut), i);
        lemma_be_round_trip(u64s_of(v.rank_lut)[i]);
    }
    assert(dec_usizes(bytes, c + 16, v.rank_lut.len()) =~= v.rank_lut);
}

} // verus!
