//! Select support: 1-based position of the `k`-th set bit of a bit vector,
//! answered from sparsely sampled positions plus a local forward scan.

use vstd::prelude::*;
use vstd::arithmetic::div_mod::{lemma_fundamental_div_mod, lemma_fundamental_div_mod_converse,
    lemma_div_is_ordered, lemma_div_is_ordered_by_denominator, lemma_mod_division_less_than_divisor};
use crate::bitvector::{BitVector, BitVectorV, count_ones, dec_bitvector, enc_bitvector,
    lemma_count_ones_le, lemma_count_ones_monotone, lemma_count_ones_take_succ,
    lemma_dec_enc_bitvector, spec_concat_bits, spec_total_bits};
use crate::codec::{be_val, dec_usizes, dec_words, enc_words, lemma_be_round_trip,
    lemma_enc_words_index, lemma_enc_words_len, push_u64_be, push_usizes_be, read_u64_be,
    read_usizes_be, spec_u64_to_be, u64s_of, u64_to_usize_checked, usize_vecs_equal};
use crate::config::{level_t, position_t, word_t};

verus! {

/// Whether `pos` is where the `k`-th set bit of `s` sits.
pub open spec fn nth_one_at(s: Seq<bool>, k: int, pos: int) -> bool {
    &&& 0 <= pos < s.len()
    &&& s[pos]
    &&& count_ones(s.take(pos + 1)) == k
}

/// The `k`-th set bit sits at one position only.
pub proof fn lemma_nth_one_unique(s: Seq<bool>, k: int, p1: int, p2: int)
    requires
        nth_one_at(s, k, p1),
        nth_one_at(s, k, p2),
    ensures
        p1 == p2,
{
    if p1 < p2 {
        lemma_count_ones_take_succ(s, p2);
        lemma_count_ones_monotone(s, p1 + 1, p2);
    }
    if p2 < p1 {
        lemma_count_ones_take_succ(s, p1);
        lemma_count_ones_monotone(s, p2 + 1, p1);
    }
}

/// Abstract content of a [`BitvectorSelect`].
pub struct BitvectorSelectV {
    pub bitvec: BitVectorV,
    pub sample_interval: usize,
    pub select_lut: Seq<usize>,
}

impl BitvectorSelectV {
    /// Well-formed: the bit vector is well-formed and starts with a set bit
    /// whenever it has one at all, the sample interval is positive, slot 0
    /// of the lookup table is position 0, and slot `i > 0` holds the
    /// position of the `i * sample_interval`-th set bit.
    pub open spec fn wf(self) -> bool {
        let s = self.bitvec.bit_seq();
        &&& self.bitvec.wf()
        &&& self.sample_interval >= 64
        &&& count_ones(s) > 0 ==> s[0]
        &&& self.select_lut.len() == count_ones(s) as int / self.sample_interval as int + 1
        &&& self.select_lut.len() <= usize::MAX
        &&& self.select_lut[0] == 0
        &&& forall|i: int|
            1 <= i < self.select_lut.len() ==> nth_one_at(
                s,
                i * self.sample_interval,
                #[trigger] self.select_lut[i] as int,
            )
    }
}

/// A bit vector with a sampled select lookup table.
pub struct BitvectorSelect {
    bitvec: BitVector,
    sample_interval: position_t,
    select_lut: Vec<position_t>,
}

impl View for BitvectorSelect {
    type V = BitvectorSelectV;

    closed spec fn view(&self) -> BitvectorSelectV {
        BitvectorSelectV {
            bitvec: self.bitvec@,
            sample_interval: self.sample_interval,
            select_lut: self.select_lut@,
        }
    }
}

impl BitvectorSelect {
    /// Well-formedness of the underlying representation.
    pub open spec fn wf(&self) -> bool {
        self@.wf()
    }

    /// The logical bit sequence of the underlying vector.
    pub open spec fn bit_seq(&self) -> Seq<bool> {
        self@.bitvec.bit_seq()
    }

    /// Builds the concatenated bit vector and its select lookup table.
    /// `None` when the total bit count overflows the machine word, or when
    /// the assembled vector has a set bit but starts with a clear one, which
    /// the sampling scheme cannot represent.
    pub fn new(
        sample_interval: position_t,
        bitvector_per_level: &Vec<Vec<word_t>>,
        num_bits_per_level: &Vec<position_t>,
        start_level: level_t,
        end_level: level_t,
    ) -> (r: Option<BitvectorSelect>)
        requires
            sample_interval >= 64,
            end_level <= bitvector_per_level@.len(),
            end_level <= num_bits_per_level@.len(),
            end_level == 0 ==> bitvector_per_level@.len() == 0,
            forall|l: int|
                start_level <= l < end_level ==> num_bits_per_level@[l]
                    <= #[trigger] bitvector_per_level@[l]@.len() * 64,
        ensures
            ({
                let total = spec_total_bits(
                    num_bits_per_level@,
                    start_level as int,
                    end_level as int,
                );
                let target = spec_concat_bits(
                    bitvector_per_level.deep_view(),
                    num_bits_per_level@,
                    start_level as int,
                    end_level as int,
                );
                match r {
                    Some(se) => {
                        &&& se.wf()
                        &&& se@.sample_interval == sample_interval
                        &&& se@.bitvec.num_bits == total
                        &&& se.bit_seq() == target
                    },
                    None => total > usize::MAX / 4 || (count_ones(target) > 0 && !target[0]),
                }
            }),
    {
        let bitvec = match BitVector::new(
            bitvector_per_level,
            num_bits_per_level,
            start_level,
            end_level,
        ) {
            Some(bv) => bv,
            None => {
                return None;
            },
        };
        let (select_lut, total_ones) = build_select_lut(&bitvec, sample_interval);
        if total_ones > 0 && !bitvec.read_bit(0) {
            return None;
        }
        Some(BitvectorSelect { bitvec, sample_interval, select_lut })
    }

    /// The underlying bit vector.
    pub fn get_bitvec(&self) -> (r: &BitVector)
        ensures
            r@ == self@.bitvec,
    {
        &self.bitvec
    }

    /// Like [`BitvectorSelect::select`], but answers `None` when fewer than
    /// `rank` bits are set.
    pub fn select_checked(&self, rank: position_t) -> (r: Option<position_t>)
        requires
            self.wf(),
            1 <= rank,
        ensures
            match r {
                Some(p) => rank <= count_ones(self.bit_seq()) && nth_one_at(
                    self.bit_seq(),
                    rank as int,
                    p as int,
                ),
                None => rank > count_ones(self.bit_seq()),
            },
    {
        proof {
            lemma_count_ones_le(self.bit_seq(), self.bit_seq().len() as int);
            assert(self.bit_seq().take(self.bit_seq().len() as int) =~= self.bit_seq());
        }
        let total = self.count_total_ones();
        if rank > total {
            None
        } else {
            Some(self.select(rank))
        }
    }

    /// Number of set bits in the whole vector.
    fn count_total_ones(&self) -> (r: position_t)
        requires
            self.wf(),
        ensures
            r == count_ones(self.bit_seq()),
    {
        let ghost s = self.bit_seq();
        let nb = self.bitvec.get_num_bits();
        let mut count: position_t = 0;
        let mut p: position_t = 0;
        proof {
            lemma_count_ones_le(s, s.len() as int);
        }
        while p < nb
            invariant
                self.wf(),
                s == self.bit_seq(),
                nb == self@.bitvec.num_bits,
                p <= nb,
                count == count_ones(s.take(p as int)),
                count <= p,
            decreases nb - p,
        {
            let b = self.bitvec.read_bit(p);
            proof {
                lemma_count_ones_take_succ(s, p as int);
            }
            if b {
                count = count + 1;
            }
            p = p + 1;
        }
        proof {
            assert(s.take(nb as int) =~= s);
        }
        count
    }

    /// Position of the `rank`-th set bit: the position is zero-based and
    /// the rank one-based, so for bits `100101000`, `select(3)` is 5.
    pub fn select(&self, rank: position_t) -> (r: position_t)
        requires
            self.wf(),
            1 <= rank <= count_ones(self.bit_seq()),
        ensures
            nth_one_at(self.bit_seq(), rank as int, r as int),
    {
        let ghost s = self.bit_seq();
        let interval = self.sample_interval;
        let lut_idx = rank / interval;
        let mut rank_left = rank % interval;
        proof {
            lemma_fundamental_div_mod(rank as int, interval as int);
            lemma_mod_division_less_than_divisor(rank as int, interval as int);
            lemma_div_is_ordered(rank as int, count_ones(s) as int, interval as int);
            lemma_count_ones_le(s, s.len() as int);
            assert(s.take(s.len() as int) =~= s);
            assert(interval * (rank as int / interval as int) + rank as int % interval as int
                == rank);
            if lut_idx == 0 {
                assert(interval * (rank as int / interval as int) == 0) by {
                    vstd::arithmetic::mul::lemma_mul_by_zero_is_zero(interval as int);
                }
                assert(rank as int % interval as int == rank);
            }
        }
        if lut_idx == 0 {
            rank_left = rank_left - 1;
        }
        let pos = self.select_lut[lut_idx];
        let ghost base = rank - rank_left;
        proof {
            if lut_idx == 0 {
                assert(count_ones(s) > 0);
                assert(s[0]);
                lemma_count_ones_take_succ(s, 0);
                assert(count_ones(s.take(1)) == 1);
                assert(pos == 0);
                assert(nth_one_at(s, base as int, pos as int));
            } else {
                vstd::arithmetic::mul::lemma_mul_is_commutative(lut_idx as int, interval as int);
                assert(base == lut_idx * interval);
                assert(nth_one_at(s, lut_idx * interval, pos as int));
            }
        }
        if rank_left == 0 {
            return pos;
        }
        let ghost nb = self@.bitvec.num_bits;
        let mut p = pos + 1;
        let mut left = rank_left;
        proof {
            lemma_count_ones_take_succ(s, pos as int);
        }
        while left > 0
            invariant
                self.wf(),
                s == self.bit_seq(),
                nb == self@.bitvec.num_bits,
                nb == s.len(),
                1 <= left <= rank,
                p <= nb,
                rank <= count_ones(s),
                count_ones(s.take(p as int)) == rank - left,
            decreases nb - p,
        {
            proof {
                lemma_count_ones_monotone(s, p as int, nb as int);
                assert(s.take(nb as int) =~= s);
                if p == nb {
                    assert(false);
                }
            }
            let b = self.bitvec.read_bit(p);
            proof {
                lemma_count_ones_take_succ(s, p as int);
            }
            if b {
                left = left - 1;
                if left == 0 {
                    return p;
                }
            }
            p = p + 1;
        }
        proof {
            assert(false);
        }
        vstd::pervasive::unreached()
    }
}

/// Raw byte footprint of a select structure.
pub open spec fn spec_select_byte_size(v: BitvectorSelectV) -> int {
    crate::codec::sat_add(
        crate::bitvector::spec_bitvector_byte_size(v.bitvec),
        crate::codec::sat_add(8, crate::codec::sat_mul8(v.select_lut.len() as int)),
    )
}

/// Builds the select lookup table. Slot 0 holds position 0; slot `i > 0`
/// holds the position of the `i * sample_interval`-th set bit. Also returns
/// the total number of set bits.
fn build_select_lut(bitvec: &BitVector, sample_interval: position_t) -> (r: (
    Vec<position_t>,
    position_t,
))
    requires
        bitvec.wf(),
        sample_interval >= 1,
    ensures
        ({
            let (lut, total) = r;
            let s = bitvec.bit_seq();
            &&& total == count_ones(s)
            &&& lut@.len() == total as int / sample_interval as int + 1
            &&& lut@.len() <= usize::MAX
            &&& lut@[0] == 0
            &&& forall|i: int|
                1 <= i < lut@.len() ==> nth_one_at(
                    s,
                    i * sample_interval,
                    #[trigger] lut@[i] as int,
                )
        }),
{
    let ghost s = bitvec.bit_seq();
    let nb = bitvec.get_num_bits();
    let mut lut: Vec<position_t> = Vec::new();
    lut.push(0);
    let mut count: position_t = 0;
    let mut p: position_t = 0;
    while p < nb
        invariant
            bitvec.wf(),
            s == bitvec.bit_seq(),
            nb == bitvec@.num_bits,
            nb == s.len(),
            p <= nb,
            count == count_ones(s.take(p as int)),
            count <= p,
            sample_interval >= 1,
            lut@.len() == count as int / sample_interval as int + 1,
            lut@[0] == 0,
            forall|i: int|
                1 <= i < lut@.len() ==> nth_one_at(
                    s,
                    i * sample_interval,
                    #[trigger] lut@[i] as int,
                ),
        decreases nb - p,
    {
        let b = bitvec.read_bit(p);
        proof {
            lemma_count_ones_take_succ(s, p as int);
            lemma_count_ones_le(s, p + 1);
        }
        if b {
            count = count + 1;
            proof {
                lemma_fundamental_div_mod(count as int, sample_interval as int);
                lemma_mod_division_less_than_divisor(count as int, sample_interval as int);
                lemma_fundamental_div_mod((count - 1) as int, sample_interval as int);
                lemma_mod_division_less_than_divisor((count - 1) as int, sample_interval as int);
            }
            if count % sample_interval == 0 {
                lut.push(p);
                proof {
                    let k = sample_interval as int;
                    let q = count as int / k;
                    assert(count == k * q);
                    assert(q * k == count) by {
                        vstd::arithmetic::mul::lemma_mul_is_commutative(q, k);
                    }
                    assert((q - 1) * k == q * k - k) by {
                        vstd::arithmetic::mul::lemma_mul_is_distributive_sub_other_way(
                            k,
                            q,
                            1,
                        );
                    }
                    lemma_fundamental_div_mod_converse(count - 1 as int, k, q - 1, k - 1);
                    assert((count - 1) as int / k == q - 1);
                    assert(lut@.len() == q + 1);
                    assert(lut@[q] == p);
                    assert(nth_one_at(s, q * k, p as int));
                }
            } else {
                proof {
                    let k = sample_interval as int;
                    let q = (count - 1) as int / k;
                    let r0 = (count - 1) as int % k;
                    assert(count - 1 == k * q + r0);
                    assert(q * k == k * q) by {
                        vstd::arithmetic::mul::lemma_mul_is_commutative(q, k);
                    }
                    assert(r0 + 1 < k) by {
                        if r0 + 1 == k {
                            assert((q + 1) * k == q * k + k) by {
                                vstd::arithmetic::mul::lemma_mul_is_distributive_add_other_way(
                                    k,
                                    q,
                                    1,
                                );
                            }
                            lemma_fundamental_div_mod_converse(count as int, k, q + 1, 0);
                            assert(count as int % k == 0);
                            assert(false);
                        }
                    }
                    lemma_fundamental_div_mod_converse(count as int, k, q, r0 + 1);
                    assert(count as int / k == q);
                }
            }
        }
        p = p + 1;
    }
    proof {
        assert(s.take(nb as int) =~= s);
    }
    let n = lut.len();
    (lut, count)
}

/// Byte encoding of a select structure:
/// `[bit vector byte count][bit vector][sample interval][table length]
/// [table entries...]`, every scalar 8-byte big-endian.
pub open spec fn enc_select(v: BitvectorSelectV) -> Seq<u8> {
    let bvb = enc_bitvector(v.bitvec);
    spec_u64_to_be(bvb.len() as u64) + bvb + spec_u64_to_be(v.sample_interval as u64)
        + spec_u64_to_be(v.select_lut.len() as u64) + enc_words(u64s_of(v.select_lut))
}

/// The select structure a byte string spells: the exact parse of
/// [`enc_select`], rejecting truncation, trailing bytes and ill-formed
/// state.
pub open spec fn dec_select(bytes: Seq<u8>) -> Option<BitvectorSelectV> {
    if bytes.len() < 8 {
        None
    } else {
        let bl = be_val(bytes.subrange(0, 8));
        if bl > usize::MAX || bytes.len() < 8 + bl {
            None
        } else {
            match dec_bitvector(bytes.subrange(8, 8 + bl)) {
                None => None,
                Some(bv) => {
                    let c = 8 + bl;
                    if bytes.len() < c + 16 {
                        None
                    } else {
                        let si = be_val(bytes.subrange(c, c + 8));
                        let ll = be_val(bytes.subrange(c + 8, c + 16));
                        if si > usize::MAX || ll > usize::MAX {
                            None
                        } else if bytes.len() != c + 16 + ll * 8 {
                            None
                        } else if exists|i: int|
                            0 <= i < ll && #[trigger] dec_words(bytes, c + 16, ll as nat)[i]
                                > usize::MAX {
                            None
                        } else {
                            let v = BitvectorSelectV {
                                bitvec: bv,
                                sample_interval: si as usize,
                                select_lut: dec_usizes(bytes, c + 16, ll as nat),
                            };
                            if v.wf() {
                                Some(v)
                            } else {
                                None
                            }
                        }
                    }
                },
            }
        }
    }
}

impl BitvectorSelect {
    /// Raw byte footprint of the bit vector, the interval field and the
    /// lookup table.
    pub fn byte_size(&self) -> (r: usize)
        ensures
            r == spec_select_byte_size(self@),
    {
        crate::codec::sat_add_usize(
            self.bitvec.byte_size(),
            crate::codec::sat_add_usize(8, crate::codec::sat_mul8_usize(self.select_lut.len())),
        )
    }

    /// Emits the bit vector, then the sample interval and the lookup table,
    /// each section length-prefixed.
    pub fn serialize(&self) -> (r: Vec<u8>)
        ensures
            r@ == enc_select(self@),
    {
        let mut bytes: Vec<u8> = Vec::new();
        let mut bvb = self.bitvec.serialize();
        push_u64_be(&mut bytes, bvb.len() as u64);
        bytes.append(&mut bvb);
        push_u64_be(&mut bytes, self.sample_interval as u64);
        push_u64_be(&mut bytes, self.select_lut.len() as u64);
        push_usizes_be(&mut bytes, &self.select_lut);
        proof {
            assert(bytes@ =~= enc_select(self@));
        }
        bytes
    }

    /// Parses what [`BitvectorSelect::serialize`] emits; `None` when the
    /// bytes are truncated, have trailing garbage, or spell an ill-formed
    /// structure.
    pub fn deserialize(bytes: &[u8]) -> (r: Option<BitvectorSelect>)
        ensures
            match r {
                Some(se) => dec_select(bytes@) == Some(se@) && se.wf(),
                None => dec_select(bytes@) is None,
            },
    {
        if bytes.len() < 8 {
            return None;
        }
        let bl64 = read_u64_be(bytes, 0);
        let bl = match u64_to_usize_checked(bl64) {
            Some(v) => v,
            None => {
                return None;
            },
        };
        if bytes.len() < 8 || bytes.len() - 8 < bl {
            return None;
        }
        let bitvec = match BitVector::deserialize(slice_range(bytes, 8, 8 + bl)) {
            Some(bv) => bv,
            None => {
                return None;
            },
        };
        let c = 8 + bl;
        if bytes.len() < 16 || bytes.len() - 16 < c {
            return None;
        }
        let si64 = read_u64_be(bytes, c);
        let ll64 = read_u64_be(bytes, c + 8);
        let si = match u64_to_usize_checked(si64) {
            Some(v) => v,
            None => {
                return None;
            },
        };
        let ll = match u64_to_usize_checked(ll64) {
            Some(v) => v,
            None => {
                return None;
            },
        };
        let body = match ll.checked_mul(8) {
            Some(x) => x,
            None => {
                return None;
            },
        };
        let tail = match body.checked_add(16) {
            Some(x) => x,
            None => {
                return None;
            },
        };
        let expected = match tail.checked_add(c) {
            Some(x) => x,
            None => {
                return None;
            },
        };
        if bytes.len() != expected {
            return None;
        }
        let select_lut = match read_usizes_be(bytes, c + 16, ll) {
            Some(v) => v,
            None => {
                return None;
            },
        };
        let se = BitvectorSelect { bitvec, sample_interval: si, select_lut };
        if si < 64 {
            assert(!se@.wf());
            return None;
        }
        let (rebuilt, total) = build_select_lut(&se.bitvec, si);
        if total > 0 && !se.bitvec.read_bit(0) {
            proof {
                assert(!se@.wf());
            }
            return None;
        }
        if !usize_vecs_equal(&se.select_lut, &rebuilt) {
            proof {
                let s = se.bit_seq();
                if se@.wf() {
                    assert(se.select_lut@.len() == rebuilt@.len());
                    assert forall|j: int| 0 <= j < rebuilt@.len() implies se.select_lut@[j]
                        == rebuilt@[j] by {
                        if j >= 1 {
                            lemma_nth_one_unique(
                                s,
                                j * si,
                                se.select_lut@[j] as int,
                                rebuilt@[j] as int,
                            );
                        }
                    }
                    assert(se.select_lut@ =~= rebuilt@);
                }
            }
            return None;
        }
        proof {
            assert forall|i: int| 1 <= i < se.select_lut@.len() implies nth_one_at(
                se.bit_seq(),
                i * si,
                #[trigger] se.select_lut@[i] as int,
            ) by {
                assert(se.select_lut@[i] == rebuilt@[i]);
            }
            assert(se@.wf());
            assert(dec_select(bytes@) == Some(se@));
        }
        Some(se)
    }
}

/// The subslice `bytes[lo..hi]`.
fn slice_range(bytes: &[u8], lo: usize, hi: usize) -> (r: &[u8])
    requires
        lo <= hi <= bytes@.len(),
    ensures
        r@ == bytes@.subrange(lo as int, hi as int),
{
    &bytes[lo..hi]
}

/// Parsing inverts encoding: a well-formed select structure's bytes spell
/// it back.
pub proof fn lemma_dec_enc_select(v: BitvectorSelectV)
    requires
        v.wf(),
    ensures
        dec_select(enc_select(v)) == Some(v),
{
    let bytes = enc_select(v);
    let bvb = enc_bitvector(v.bitvec);
    let bl = bvb.len() as int;
    let c = 8 + bl;
    lemma_enc_words_len(v.bitvec.bits);
    assert(bl == 16 + 8 * v.bitvec.bits.len());
    assert(v.bitvec.bits.len() <= usize::MAX as int / 64 + 1);
    assert(bl <= usize::MAX);
    lemma_enc_words_len(u64s_of(v.select_lut));
    assert(bytes.len() == c + 16 + 8 * v.select_lut.len());
    assert(bytes.subrange(0, 8) =~= spec_u64_to_be(bvb.len() as u64));
    lemma_be_round_trip(bvb.len() as u64);
    assert(bytes.subrange(8, 8 + bl) =~= bvb);
    lemma_dec_enc_bitvector(v.bitvec);
    assert(v.select_lut.len() <= usize::MAX);
    assert(bytes.subrange(c, c + 8) =~= spec_u64_to_be(v.sample_interval as u64));
    assert(bytes.subrange(c + 8, c + 16) =~= spec_u64_to_be(v.select_lut.len() as u64));
    lemma_be_round_trip(v.sample_interval as u64);
    lemma_be_round_trip(v.select_lut.len() as u64);
    let dw = dec_words(bytes, c + 16, v.select_lut.len());
    assert forall|i: int| 0 <= i < v.select_lut.len() implies #[trigger] dw[i] == v.select_lut[i]
        as u64 by {
        assert(bytes.subrange(c + 16 + 8 * i, c + 16 + 8 * i + 8) =~= enc_words(
            u64s_of(v.select_lut),
        ).subrange(8 * i, 8 * i + 8));
        lemma_enc_words_index(u64s_of(v.select_lut), i);
        lemma_be_round_trip(u64s_of(v.select_lut)[i]);
    }
    assert(dec_usizes(bytes, c + 16, v.select_lut.len()) =~= v.select_lut);
}

} // verus!
