//! A packed bit vector assembled from per-level word arrays. Bit `i` of a
//! word sequence lives in word `i / 64` at offset `i % 64`, offset 0 being
//! the most significant bit of the word.

use vstd::prelude::*;
use crate::codec::{be_val, dec_words, enc_words, lemma_be_round_trip, lemma_enc_words_index,
    lemma_enc_words_len, push_u64_be, push_words_be, read_u64_be, read_words_be,
    spec_u64_to_be, u64_to_usize_checked};
use crate::config::{K_MSB_MASK, K_WORD_SIZE, level_t, position_t, word_t};

verus! {

/// Bit `off` of word `w`; offset 0 is the most significant bit.
pub open spec fn word_bit(w: u64, off: int) -> bool {
    w & (K_MSB_MASK >> (off as u64)) != 0
}

/// Bit `i` of a packed word sequence.
pub open spec fn packed_bit(words: Seq<u64>, i: int) -> bool {
    word_bit(words[i / 64], i % 64)
}

/// The first `n` bits of a packed word sequence, as a boolean sequence.
pub open spec fn packed_bits(words: Seq<u64>, n: nat) -> Seq<bool> {
    Seq::new(n, |i: int| packed_bit(words, i))
}

/// Number of set bits in `s`.
pub open spec fn count_ones(s: Seq<bool>) -> nat
    decreases s.len(),
{
    if s.len() == 0 {
        0
    } else {
        count_ones(s.drop_last()) + if s.last() {
            1nat
        } else {
            0nat
        }
    }
}

/// Counting one more bit adds that bit's value to the count.
pub proof fn lemma_count_ones_take_succ(s: Seq<bool>, i: int)
    requires
        0 <= i < s.len(),
    ensures
        count_ones(s.take(i + 1)) == count_ones(s.take(i)) + if s[i] {
            1nat
        } else {
            0nat
        },
{
    assert(s.take(i + 1).drop_last() =~= s.take(i));
    assert(s.take(i + 1).last() == s[i]);
}

/// A prefix of length `i` has at most `i` set bits, and fewer than `i`
/// when some bit of the prefix is clear.
pub proof fn lemma_count_ones_le(s: Seq<bool>, i: int)
    requires
        0 <= i <= s.len(),
    ensures
        count_ones(s.take(i)) <= i,
    decreases i,
{
    if i > 0 {
        lemma_count_ones_le(s, i - 1);
        lemma_count_ones_take_succ(s, i - 1);
    }
}

/// Counting set bits is monotone in the length of the prefix.
pub proof fn lemma_count_ones_monotone(s: Seq<bool>, i: int, j: int)
    requires
        0 <= i <= j <= s.len(),
    ensures
        count_ones(s.take(i)) <= count_ones(s.take(j)),
    decreases j - i,
{
    if i < j {
        lemma_count_ones_monotone(s, i, j - 1);
        lemma_count_ones_take_succ(s, j - 1);
    }
}

/// Setting one bit of a word sets exactly that bit and keeps the others.
pub proof fn lemma_or_mask_bit(w: u64, off: u64, j: u64)
    by (bit_vector)
    requires
        off < 64,
        j < 64,
    ensures
        ((w | (0x8000000000000000u64 >> off)) & (0x8000000000000000u64 >> j) != 0) <==> (j == off
            || w & (0x8000000000000000u64 >> j) != 0),
{
}

/// The zero word has no set bit.
pub proof fn lemma_zero_word_bit(j: u64)
    by (bit_vector)
    requires
        j < 64,
    ensures
        0u64 & (0x8000000000000000u64 >> j) == 0,
{
}

/// A sequence of zero words holds no set bit.
pub proof fn lemma_packed_zero_words(words: Seq<u64>)
    requires
        forall|j: int| 0 <= j < words.len() ==> words[j] == 0u64,
    ensures
        forall|i: int| 0 <= i < words.len() * 64 ==> !(#[trigger] packed_bit(words, i)),
{
    assert forall|i: int| 0 <= i < words.len() * 64 implies !(#[trigger] packed_bit(words, i)) by {
        vstd::arithmetic::div_mod::lemma_div_is_ordered_by_denominator(i, 1, 64);
        assert(i / 64 < words.len()) by {
            if i / 64 >= words.len() {
                vstd::arithmetic::div_mod::lemma_fundamental_div_mod(i, 64);
                vstd::arithmetic::mul::lemma_mul_inequality(
                    words.len() as int,
                    i / 64,
                    64,
                );
            }
        }
        assert(words[i / 64] == 0u64);
        lemma_zero_word_bit((i % 64) as u64);
    }
}

/// The concatenation of per-level bits is as long as the level totals say.
pub proof fn lemma_concat_bits_len(
    words_per_level: Seq<Seq<u64>>,
    bits_per_level: Seq<usize>,
    start: int,
    end: int,
)
    ensures
        spec_concat_bits(words_per_level, bits_per_level, start, end).len() == spec_total_bits(
            bits_per_level,
            start,
            end,
        ),
    decreases end - start,
{
    lemma_total_bits_nonneg(bits_per_level, start, end);
    if start < end {
        lemma_concat_bits_len(words_per_level, bits_per_level, start, end - 1);
    }
}

/// Bit `o` of level `l` sits at position `total bits before l` + `o` of the
/// concatenation.
pub proof fn lemma_concat_bits_index(
    words_per_level: Seq<Seq<u64>>,
    bits_per_level: Seq<usize>,
    start: int,
    end: int,
    l: int,
    o: int,
)
    requires
        start <= l < end,
        0 <= o < bits_per_level[l],
    ensures
        spec_concat_bits(words_per_level, bits_per_level, start, end)[spec_total_bits(
            bits_per_level,
            start,
            l,
        ) + o] == packed_bit(words_per_level[l], o),
    decreases end - l,
{
    let prefix = spec_concat_bits(words_per_level, bits_per_level, start, end - 1);
    let run = packed_bits(words_per_level[end - 1], bits_per_level[end - 1] as nat);
    let idx = spec_total_bits(bits_per_level, start, l) + o;
    lemma_concat_bits_len(words_per_level, bits_per_level, start, end - 1);
    lemma_total_bits_nonneg(bits_per_level, start, l);
    if l == end - 1 {
        assert(spec_total_bits(bits_per_level, start, l) == prefix.len());
        assert((prefix + run)[idx] == run[o]);
    } else {
        lemma_concat_bits_index(words_per_level, bits_per_level, start, end - 1, l, o);
        assert(spec_total_bits(bits_per_level, start, l + 1) == spec_total_bits(
            bits_per_level,
            start,
            l,
        ) + bits_per_level[l]);
        lemma_total_bits_monotone(bits_per_level, start, l + 1, end - 1);
        assert(idx < prefix.len());
        assert((prefix + run)[idx] == prefix[idx]);
    }
}

/// Raw byte footprint of a bit vector: the bit-count field plus the word
/// array, topping out at the machine word's maximum.
pub open spec fn spec_bitvector_byte_size(v: BitVectorV) -> int {
    crate::codec::sat_add(8, crate::codec::sat_mul8(v.bits.len() as int))
}

/// Byte encoding of a bit vector: `[num_bits][word count][words...]`,
/// every field 8-byte big-endian.
pub open spec fn enc_bitvector(v: BitVectorV) -> Seq<u8> {
    spec_u64_to_be(v.num_bits as u64) + spec_u64_to_be(v.bits.len() as u64) + enc_words(v.bits)
}

/// The bit vector a byte string spells: the exact parse of
/// [`enc_bitvector`], rejecting truncation, trailing bytes and ill-formed
/// state.
pub open spec fn dec_bitvector(bytes: Seq<u8>) -> Option<BitVectorV> {
    if bytes.len() < 16 {
        None
    } else {
        let nb = be_val(bytes.subrange(0, 8));
        let wl = be_val(bytes.subrange(8, 16));
        if nb > usize::MAX || wl > usize::MAX {
            None
        } else if bytes.len() != 16 + wl * 8 {
            None
        } else {
            let v = BitVectorV { num_bits: nb as usize, bits: dec_words(bytes, 16, wl as nat) };
            if v.wf() {
                Some(v)
            } else {
                None
            }
        }
    }
}

/// Parsing inverts encoding: a well-formed bit vector's bytes spell it
/// back.
pub proof fn lemma_dec_enc_bitvector(v: BitVectorV)
    requires
        v.wf(),
    ensures
        dec_bitvector(enc_bitvector(v)) == Some(v),
{
    let bytes = enc_bitvector(v);
    lemma_enc_words_len(v.bits);
    assert(bytes.len() == 16 + 8 * v.bits.len());
    assert(bytes.subrange(0, 8) =~= spec_u64_to_be(v.num_bits as u64));
    assert(bytes.subrange(8, 16) =~= spec_u64_to_be(v.bits.len() as u64));
    lemma_be_round_trip(v.num_bits as u64);
    lemma_be_round_trip(v.bits.len() as u64);
    let ws = dec_words(bytes, 16, v.bits.len());
    assert forall|i: int| 0 <= i < v.bits.len() implies ws[i] == v.bits[i] by {
        assert(bytes.subrange(16 + 8 * i, 16 + 8 * i + 8) =~= enc_words(v.bits).subrange(
            8 * i,
            8 * i + 8,
        ));
        lemma_enc_words_index(v.bits, i);
        lemma_be_round_trip(v.bits[i]);
    }
    assert(ws =~= v.bits);
}

/// Per-level bit totals are never negative.
pub proof fn lemma_total_bits_nonneg(bits_per_level: Seq<usize>, start: int, end: int)
    ensures
        0 <= spec_total_bits(bits_per_level, start, end),
    decreases end - start,
{
    if start < end {
        lemma_total_bits_nonneg(bits_per_level, start, end - 1);
    }
}

/// Abstract content of a [`BitVector`]: its logical bit count and its words.
pub struct BitVectorV {
    pub num_bits: usize,
    pub bits: Seq<u64>,
}

impl BitVectorV {
    /// The logical bit sequence.
    pub open spec fn bit_seq(self) -> Seq<bool> {
        packed_bits(self.bits, self.num_bits as nat)
    }

    /// Well-formed: the bit count stays below a quarter of the machine
    /// word's range, so every derived size fits; the word array is exactly
    /// as long as the bit count needs; and the padding bits of the last
    /// word are clear.
    pub open spec fn wf(self) -> bool {
        &&& self.num_bits <= usize::MAX / 4
        &&& self.bits.len() == spec_words_for_bits(self.num_bits as int)
        &&& forall|i: int|
            self.num_bits <= i < self.bits.len() * 64 ==> !(#[trigger] packed_bit(self.bits, i))
    }
}

/// Number of 64-bit words needed to hold `num_bits` bits.
pub open spec fn spec_words_for_bits(num_bits: int) -> int {
    if num_bits % 64 == 0 {
        num_bits / 64
    } else {
        num_bits / 64 + 1
    }
}

/// Sum of the per-level bit counts over levels `[start, end)`.
pub open spec fn spec_total_bits(bits_per_level: Seq<usize>, start: int, end: int) -> int
    decreases end - start,
{
    if start >= end {
        0
    } else {
        spec_total_bits(bits_per_level, start, end - 1) + bits_per_level[end - 1]
    }
}

/// Concatenation of the first `bits_per_level[l]` bits of each level's
/// word array, over levels `[start, end)`.
pub open spec fn spec_concat_bits(
    words_per_level: Seq<Seq<u64>>,
    bits_per_level: Seq<usize>,
    start: int,
    end: int,
) -> Seq<bool>
    decreases end - start,
{
    if start >= end {
        Seq::empty()
    } else {
        spec_concat_bits(words_per_level, bits_per_level, start, end - 1) + packed_bits(
            words_per_level[end - 1],
            bits_per_level[end - 1] as nat,
        )
    }
}

/// A word-packed sequence of bits concatenated from several per-level
/// arrays, read by position.
pub struct BitVector {
    num_bits: position_t,
    bits: Vec<word_t>,
}

impl View for BitVector {
    type V = BitVectorV;

    closed spec fn view(&self) -> BitVectorV {
        BitVectorV { num_bits: self.num_bits, bits: self.bits@ }
    }
}

/// Sets bit `pos` of a packed word array.
pub fn set_packed_bit(bits: &mut Vec<word_t>, pos: position_t)
    requires
        pos < old(bits)@.len() * 64,
    ensures
        final(bits)@.len() == old(bits)@.len(),
        forall|j: int|
            0 <= j < final(bits)@.len() * 64 ==> packed_bit(final(bits)@, j) == (j == pos
                || packed_bit(old(bits)@, j)),
{
    let word_id: position_t = pos / K_WORD_SIZE;
    let offset: position_t = pos % K_WORD_SIZE;
    let updated: word_t = bits[word_id] | (K_MSB_MASK >> (offset as u64));
    bits[word_id] = updated;
    proof {
        assert forall|j: int| 0 <= j < bits@.len() * 64 implies packed_bit(bits@, j) == (j == pos
            || packed_bit(old(bits)@, j)) by {
            let jw = j / 64;
            let jo = j % 64;
            if jw == word_id {
                lemma_or_mask_bit(old(bits)@[jw], offset as u64, jo as u64);
                assert(j == pos <==> (jw == pos as int / 64 && jo == pos as int % 64));
            } else {
                assert(bits@[jw] == old(bits)@[jw]);
            }
        }
    }
}

/// Reads bit `pos` of a packed word array.
pub fn read_packed_bit(bits: &Vec<word_t>, pos: position_t) -> (r: bool)
    requires
        pos < bits@.len() * 64,
    ensures
        r == packed_bit(bits@, pos as int),
{
    let word_id: position_t = pos / K_WORD_SIZE;
    let offset: position_t = pos % K_WORD_SIZE;
    (bits[word_id] & (K_MSB_MASK >> (offset as u64))) != 0
}

impl BitVector {
    /// Well-formedness of the underlying representation.
    pub open spec fn wf(&self) -> bool {
        self@.wf()
    }

    /// The logical bit sequence this vector holds.
    pub open spec fn bit_seq(&self) -> Seq<bool> {
        self@.bit_seq()
    }

    /// Builds the concatenation of the first `num_bits_per_level[l]` bits
    /// of each level's word array, for levels `[start_level, end_level)`;
    /// an `end_level` of zero means all levels. Returns `None` when the
    /// total bit count overflows the machine word.
    pub fn new(
        bitvector_per_level: &Vec<Vec<word_t>>,
        num_bits_per_level: &Vec<position_t>,
        start_level: level_t,
        end_level: level_t,
    ) -> (r: Option<BitVector>)
        requires
            end_level == 0 ==> ({
                &&& bitvector_per_level@.len() <= num_bits_per_level@.len()
                &&& forall|l: int|
                    start_level <= l < bitvector_per_level@.len()
                        ==> num_bits_per_level@[l] <= #[trigger] bitvector_per_level@[l]@.len()
                        * 64
            }),
            end_level != 0 ==> ({
                &&& end_level <= bitvector_per_level@.len()
                &&& end_level <= num_bits_per_level@.len()
                &&& forall|l: int|
                    start_level <= l < end_level ==> num_bits_per_level@[l]
                        <= #[trigger] bitvector_per_level@[l]@.len() * 64
            }),
        ensures
            ({
                let end = if end_level == 0 {
                    bitvector_per_level@.len() as int
                } else {
                    end_level as int
                };
                let total = spec_total_bits(num_bits_per_level@, start_level as int, end);
                match r {
                    Some(bv) => {
                        &&& bv.wf()
                        &&& bv@.num_bits == total
                        &&& bv.bit_seq() == spec_concat_bits(
                            bitvector_per_level.deep_view(),
                            num_bits_per_level@,
                            start_level as int,
                            end,
                        )
                    },
                    None => total > usize::MAX / 4,
                }
            }),
    {
        let end_level = if end_level == 0 {
            bitvector_per_level.len()
        } else {
            end_level
        };
        let num_bits = match Self::total_num_bits(num_bits_per_level, start_level, end_level) {
            Some(n) => n,
            None => {
                return None;
            },
        };
        if num_bits > usize::MAX / 4 {
            return None;
        }
        let num_words = Self::num_words_from_num_bits(num_bits);
        let mut bit_vector = BitVector { num_bits, bits: vec_of_zero_words(num_words) };
        bit_vector.concatenate_bitvectors(
            bitvector_per_level,
            num_bits_per_level,
            start_level,
            end_level,
        );
        Some(bit_vector)
    }

    /// The raw word array.
    pub fn get_bits(&self) -> (r: &Vec<word_t>)
        ensures
            r@ == self@.bits,
    {
        &self.bits
    }

    /// The logical number of bits.
    pub fn get_num_bits(&self) -> (r: position_t)
        ensures
            r == self@.num_bits,
    {
        self.num_bits
    }

    /// Sums the per-level bit counts; `None` when the sum overflows.
    fn total_num_bits(
        num_bits_per_level: &Vec<position_t>,
        start_level: level_t,
        end_level: level_t,
    ) -> (r: Option<position_t>)
        requires
            end_level <= num_bits_per_level@.len(),
        ensures
            match r {
                Some(n) => n == spec_total_bits(
                    num_bits_per_level@,
                    start_level as int,
                    end_level as int,
                ),
                None => spec_total_bits(num_bits_per_level@, start_level as int, end_level as int)
                    > usize::MAX,
            },
    {
        let mut num_bits: position_t = 0;
        let mut level = start_level;
        if level > end_level {
            return Some(0);
        }
        while level < end_level
            invariant
                start_level <= level <= end_level,
                end_level <= num_bits_per_level@.len(),
                num_bits == spec_total_bits(num_bits_per_level@, start_level as int, level as int),
            decreases end_level - level,
        {
            num_bits = match num_bits.checked_add(num_bits_per_level[level]) {
                Some(n) => n,
                None => {
                    proof {
                        lemma_total_bits_monotone(
                            num_bits_per_level@,
                            start_level as int,
                            level + 1,
                            end_level as int,
                        );
                    }
                    return None;
                },
            };
            level = level + 1;
        }
        Some(num_bits)
    }

    /// Number of words needed to hold `num_bits` bits.
    fn num_words_from_num_bits(num_bits: position_t) -> (r: position_t)
        ensures
            r == spec_words_for_bits(num_bits as int),
            num_bits <= r * 64,
    {
        if num_bits % K_WORD_SIZE == 0 {
            num_bits / K_WORD_SIZE
        } else {
            num_bits / K_WORD_SIZE + 1
        }
    }

    /// Number of words this vector occupies.
    fn num_words(&self) -> (r: position_t)
        requires
            self.wf(),
        ensures
            r == self@.bits.len(),
    {
        if self.num_bits % K_WORD_SIZE == 0 {
            self.num_bits / K_WORD_SIZE
        } else {
            self.num_bits / K_WORD_SIZE + 1
        }
    }

    /// Copies the per-level bits into this vector, one bit at a time, so
    /// that level boundaries that do not align to words are stitched
    /// seamlessly.
    fn concatenate_bitvectors(
        &mut self,
        bitvector_per_level: &Vec<Vec<word_t>>,
        num_bits_per_level: &Vec<position_t>,
        start_level: level_t,
        end_level: level_t,
    )
        requires
            end_level <= bitvector_per_level@.len(),
            end_level <= num_bits_per_level@.len(),
            forall|l: int|
                start_level <= l < end_level ==> num_bits_per_level@[l]
                    <= #[trigger] bitvector_per_level@[l]@.len() * 64,
            old(self)@.num_bits == spec_total_bits(
                num_bits_per_level@,
                start_level as int,
                end_level as int,
            ),
            old(self)@.num_bits <= usize::MAX / 4,
            old(self)@.bits.len() == spec_words_for_bits(old(self)@.num_bits as int),
            forall|j: int|
                0 <= j < old(self)@.bits.len() * 64 ==> !packed_bit(old(self)@.bits, j),
        ensures
            final(self)@.num_bits == old(self)@.num_bits,
            final(self).wf(),
            final(self).bit_seq() == spec_concat_bits(
                bitvector_per_level.deep_view(),
                num_bits_per_level@,
                start_level as int,
                end_level as int,
            ),
    {
        let ghost words = bitvector_per_level.deep_view();
        let ghost per = num_bits_per_level@;
        let ghost target = spec_concat_bits(words, per, start_level as int, end_level as int);
        let ghost num_bits = self@.num_bits;
        proof {
            lemma_concat_bits_len(words, per, start_level as int, end_level as int);
        }
        let mut bit_pos: position_t = 0;
        let mut level = start_level;
        if level > end_level {
            proof {
                assert(self.bit_seq() =~= target);
            }
            return;
        }
        while level < end_level
            invariant
                start_level <= level <= end_level,
                end_level <= bitvector_per_level@.len(),
                end_level <= num_bits_per_level@.len(),
                words == bitvector_per_level.deep_view(),
                per == num_bits_per_level@,
                target == spec_concat_bits(words, per, start_level as int, end_level as int),
                forall|l: int|
                    start_level <= l < end_level ==> num_bits_per_level@[l]
                        <= #[trigger] bitvector_per_level@[l]@.len() * 64,
                num_bits == self@.num_bits,
                num_bits == spec_total_bits(per, start_level as int, end_level as int),
                self@.bits.len() == spec_words_for_bits(num_bits as int),
                bit_pos == spec_total_bits(per, start_level as int, level as int),
                bit_pos <= num_bits,
                forall|x: int| 0 <= x < bit_pos ==> self.bit_seq()[x] == target[x],
                forall|j: int|
                    bit_pos <= j < self@.bits.len() * 64 ==> !packed_bit(self@.bits, j),
            decreases end_level - level,
        {
            let level_bits = num_bits_per_level[level];
            let level_words = &bitvector_per_level[level];
            proof {
                lemma_total_bits_monotone(per, start_level as int, level + 1, end_level as int);
            }
            let mut i: position_t = 0;
            while i < level_bits
                invariant
                    i <= level_bits,
                    start_level <= level < end_level,
                    end_level <= bitvector_per_level@.len(),
                    end_level <= num_bits_per_level@.len(),
                    words == bitvector_per_level.deep_view(),
                    per == num_bits_per_level@,
                    target == spec_concat_bits(words, per, start_level as int, end_level as int),
                    level_bits == per[level as int],
                    level_words@ == words[level as int],
                    level_bits <= level_words@.len() * 64,
                    num_bits == self@.num_bits,
                    num_bits == spec_total_bits(per, start_level as int, end_level as int),
                    self@.bits.len() == spec_words_for_bits(num_bits as int),
                    bit_pos == spec_total_bits(per, start_level as int, level as int) + i,
                    bit_pos + (level_bits - i) <= num_bits,
                    forall|x: int| 0 <= x < bit_pos ==> self.bit_seq()[x] == target[x],
                    forall|j: int|
                        bit_pos <= j < self@.bits.len() * 64 ==> !packed_bit(self@.bits, j),
                decreases level_bits - i,
            {
                let b = read_packed_bit(level_words, i);
                let ghost prev = self@.bits;
                proof {
                    assert(bit_pos < num_bits);
                    assert(num_bits <= self@.bits.len() * 64);
                }
                if b {
                    set_packed_bit(&mut self.bits, bit_pos);
                }
                proof {
                    lemma_concat_bits_index(
                        words,
                        per,
                        start_level as int,
                        end_level as int,
                        level as int,
                        i as int,
                    );
                    assert(target[bit_pos as int] == packed_bit(words[level as int], i as int));
                    assert(packed_bit(self@.bits, bit_pos as int) == b);
                    assert forall|x: int| 0 <= x < bit_pos + 1 implies self.bit_seq()[x]
                        == target[x] by {
                        if x < bit_pos {
                            assert(packed_bit(self@.bits, x) == packed_bit(prev, x));
                        }
                    }
                }
                bit_pos = bit_pos + 1;
                i = i + 1;
            }
            proof {
                lemma_total_bits_monotone(per, start_level as int, level + 1, end_level as int);
            }
            level = level + 1;
        }
        proof {
            assert(self.bit_seq() =~= target);
        }
    }

    /// Emits `[num_bits][word count][words...]`, each field 8-byte
    /// big-endian.
    pub fn serialize(&self) -> (r: Vec<u8>)
        ensures
            r@ == enc_bitvector(self@),
    {
        let mut bytes: Vec<u8> = Vec::new();
        push_u64_be(&mut bytes, self.num_bits as u64);
        push_u64_be(&mut bytes, self.bits.len() as u64);
        push_words_be(&mut bytes, &self.bits);
        proof {
            assert(bytes@ =~= enc_bitvector(self@));
        }
        bytes
    }

    /// Parses what [`BitVector::serialize`] emits; `None` when the bytes
    /// are truncated, have trailing garbage, or spell an ill-formed vector.
    pub fn deserialize(bytes: &[u8]) -> (r: Option<BitVector>)
        ensures
            match r {
                Some(bv) => dec_bitvector(bytes@) == Some(bv@) && bv.wf(),
                None => dec_bitvector(bytes@) is None,
            },
    {
        if bytes.len() < 16 {
            return None;
        }
        let nb64 = read_u64_be(bytes, 0);
        let wl64 = read_u64_be(bytes, 8);
        let num_bits = match u64_to_usize_checked(nb64) {
            Some(v) => v,
            None => {
                return None;
            },
        };
        let wl = match u64_to_usize_checked(wl64) {
            Some(v) => v,
            None => {
                return None;
            },
        };
        let body = match wl.checked_mul(8) {
            Some(x) => x,
            None => {
                return None;
            },
        };
        let expected = match body.checked_add(16) {
            Some(x) => x,
            None => {
                return None;
            },
        };
        if bytes.len() != expected {
            return None;
        }
        let words = read_words_be(bytes, 16, wl);
        let bv = BitVector { num_bits, bits: words };
        if num_bits > usize::MAX / 4 {
            assert(!bv@.wf());
            return None;
        }
        let expect_words = Self::num_words_from_num_bits(num_bits);
        if wl != expect_words {
            assert(!bv@.wf());
            return None;
        }
        if num_bits % K_WORD_SIZE != 0 {
            let rem = num_bits % K_WORD_SIZE;
            let last = bv.bits[wl - 1];
            if !word_padding_clear(last, rem) {
                proof {
                    let o = choose|o: int| rem <= o < 64 && word_bit(last, o);
                    let p = (wl - 1) * 64 + o;
                    vstd::arithmetic::div_mod::lemma_fundamental_div_mod_converse(p, 64, wl - 1, o);
                    assert(packed_bit(bv@.bits, p));
                    assert(num_bits <= p < wl * 64);
                    assert(!bv@.wf());
                }
                return None;
            }
            proof {
                assert forall|i: int| num_bits <= i < wl * 64 implies !packed_bit(bv@.bits, i) by {
                    let o = i - (wl - 1) * 64;
                    vstd::arithmetic::div_mod::lemma_fundamental_div_mod_converse(
                        i,
                        64,
                        wl - 1,
                        o,
                    );
                    assert(rem <= o < 64);
                    assert(!word_bit(last, o));
                }
            }
        } else {
            proof {
                assert(wl * 64 == num_bits);
            }
        }
        proof {
            assert(bv@.wf());
            assert(dec_bitvector(bytes@) == Some(bv@));
        }
        Some(bv)
    }

    /// Raw byte footprint of the bit-count field and the word array.
    pub fn byte_size(&self) -> (r: usize)
        ensures
            r == spec_bitvector_byte_size(self@),
    {
        crate::codec::sat_add_usize(8, crate::codec::sat_mul8_usize(self.bits.len()))
    }

    /// Reads bit `pos`.
    pub fn read_bit(&self, pos: position_t) -> (r: bool)
        requires
            self.wf(),
            pos < self@.num_bits,
        ensures
            r == self.bit_seq()[pos as int],
    {
        proof {
            lemma_pos_in_words(self@.num_bits as int, pos as int);
        }
        read_packed_bit(&self.bits, pos)
    }

    /// Distance from `pos` to the next set bit after it; when no later bit
    /// is set, the distance to the end of the vector.
    pub fn distance_to_next_set_bit(&self, pos: position_t) -> (r: position_t)
        requires
            self.wf(),
            pos < self@.num_bits,
        ensures
            1 <= r,
            pos + r <= self@.num_bits,
            forall|j: int| pos < j < pos + r ==> !self.bit_seq()[j],
            pos + r < self@.num_bits ==> self.bit_seq()[pos + r],
    {
        let num_bits = self.num_bits;
        let mut i: position_t = pos + 1;
        while i < num_bits
            invariant
                self.wf(),
                pos < i <= num_bits,
                num_bits == self@.num_bits,
                forall|j: int| pos < j < i ==> !self.bit_seq()[j],
            decreases num_bits - i,
        {
            if self.read_bit(i) {
                return i - pos;
            }
            i = i + 1;
        }
        num_bits - pos
    }
}

/// Whether the bits of `last` at offsets `rem` and beyond are all clear.
fn word_padding_clear(last: word_t, rem: position_t) -> (r: bool)
    requires
        1 <= rem < 64,
    ensures
        r == forall|o: int| rem <= o < 64 ==> !(#[trigger] word_bit(last, o)),
{
    let mut k = rem;
    while k < K_WORD_SIZE
        invariant
            rem <= k <= K_WORD_SIZE,
            forall|o: int| rem <= o < k ==> !(#[trigger] word_bit(last, o)),
        decreases K_WORD_SIZE - k,
    {
        if (last & (K_MSB_MASK >> (k as u64))) != 0 {
            assert(word_bit(last, k as int));
            return false;
        }
        k = k + 1;
    }
    true
}

/// A vector of `n` zero words.
fn vec_of_zero_words(n: usize) -> (r: Vec<word_t>)
    ensures
        r@.len() == n,
        forall|j: int| 0 <= j < n * 64 ==> !packed_bit(r@, j),
{
    let r = vec![0u64; n];
    proof {
        assert forall|j: int| 0 <= j < n * 64 implies !packed_bit(r@, j) by {
            lemma_zero_word_bit((j % 64) as u64);
        }
    }
    r
}

/// Any position below the bit count lies inside the word array.
pub proof fn lemma_pos_in_words(num_bits: int, pos: int)
    requires
        0 <= pos < num_bits,
    ensures
        pos / 64 < spec_words_for_bits(num_bits),
        pos % 64 < 64,
{
}

/// Per-level bit totals grow with the level range.
pub proof fn lemma_total_bits_monotone(bits_per_level: Seq<usize>, start: int, mid: int, end: int)
    requires
        start <= mid <= end,
    ensures
        spec_total_bits(bits_per_level, start, mid) <= spec_total_bits(bits_per_level, start, end),
    decreases end - mid,
{
    if mid < end {
        lemma_total_bits_monotone(bits_per_level, start, mid, end - 1);
    }
}

} // verus!
