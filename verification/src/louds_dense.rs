//! Constant-time-per-level traversal for the levels below the dense/sparse
//! cutoff. Each node occupies a fixed 256-slot bitmap range; presence of
//! label `c` at node `n` is bit `n * 256 + c` of the label bitmap.

use vstd::prelude::*;
use crate::bitvector::{count_ones, spec_concat_bits, spec_total_bits};
use crate::builder::Builder;
use crate::codec::{be_val, lemma_be_round_trip, push_u64_be, read_u64_be, spec_u64_to_be,
    u64_to_usize_checked};
use crate::config::{K_FANOUT, K_NOT_FOUND, level_t, position_t, TrieError};
use crate::rank::{BitvectorRank, BitvectorRankV, dec_rank, enc_rank, lemma_dec_enc_rank};

verus! {

/// Abstract content of a [`LoudsDense`].
pub struct LoudsDenseV {
    pub height: usize,
    pub label_bitmaps: BitvectorRankV,
    pub child_indicator_bitmaps: BitvectorRankV,
    pub prefixkey_indicator_bits: BitvectorRankV,
}

impl LoudsDenseV {
    /// Well-formed: the three rank structures are well-formed, the label
    /// and child bitmaps are equally long, and each node owns exactly 256
    /// label slots.
    pub open spec fn wf(self) -> bool {
        &&& self.label_bitmaps.wf()
        &&& self.child_indicator_bitmaps.wf()
        &&& self.prefixkey_indicator_bits.wf()
        &&& self.child_indicator_bitmaps.bitvec.num_bits == self.label_bitmaps.bitvec.num_bits
        &&& self.label_bitmaps.bitvec.num_bits == 256 * self.prefixkey_indicator_bits.bitvec.num_bits
    }

    /// The label bitmap's bit sequence.
    pub open spec fn labels(self) -> Seq<bool> {
        self.label_bitmaps.bitvec.bit_seq()
    }

    /// The child-indicator bitmap's bit sequence.
    pub open spec fn childs(self) -> Seq<bool> {
        self.child_indicator_bitmaps.bitvec.bit_seq()
    }

    /// The prefix-terminal marker's bit sequence.
    pub open spec fn prefixes(self) -> Seq<bool> {
        self.prefixkey_indicator_bits.bitvec.bit_seq()
    }
}

/// Rank of position `pos` in bit sequence `s`: set bits in `[0, pos]`.
pub open spec fn spec_rank(s: Seq<bool>, pos: int) -> int {
    count_ones(s.take(pos + 1)) as int
}

/// Position of the key's suffix among the dense levels' suffix slots, per
/// the rank bookkeeping; `K_NOT_FOUND` when the counts are inconsistent.
pub open spec fn spec_dense_suffix_pos(v: LoudsDenseV, pos: int, is_prefix_key: bool) -> int {
    let node_num = pos / 256;
    let base = spec_rank(v.labels(), pos) - spec_rank(v.childs(), pos) + spec_rank(
        v.prefixes(),
        node_num,
    ) - 1;
    let adjusted = if is_prefix_key && v.labels()[pos] && !v.childs()[pos] {
        base - 1
    } else {
        base
    };
    if adjusted < 0 || adjusted > usize::MAX {
        K_NOT_FOUND as int
    } else {
        adjusted
    }
}

/// One step short of `find_key`: what the dense traversal answers from
/// `level` at node `node_num`. The result triple is the suffix position or
/// `K_NOT_FOUND`, the level after the last one consumed, and the node to
/// hand the sparse traversal, or `K_NOT_FOUND` when the search ended here.
pub open spec fn spec_dense_find(v: LoudsDenseV, key: Seq<u8>, level: int, node_num: int) -> (
    int,
    int,
    int,
)
    decreases v.height - level,
{
    if level >= v.height {
        (K_NOT_FOUND as int, v.height as int, node_num)
    } else if node_num >= v.prefixes().len() {
        (K_NOT_FOUND as int, level, K_NOT_FOUND as int)
    } else if level >= key.len() {
        if v.prefixes()[node_num] {
            (spec_dense_suffix_pos(v, node_num * 256, true), level, K_NOT_FOUND as int)
        } else {
            (K_NOT_FOUND as int, level, K_NOT_FOUND as int)
        }
    } else {
        let pos = node_num * 256 + key[level];
        if !v.labels()[pos] {
            (K_NOT_FOUND as int, level + 1, K_NOT_FOUND as int)
        } else if !v.childs()[pos] {
            (spec_dense_suffix_pos(v, pos, false), level + 1, K_NOT_FOUND as int)
        } else {
            spec_dense_find(v, key, level + 1, spec_rank(v.childs(), pos))
        }
    }
}

/// The dense traversal never answers a negative suffix position.
pub proof fn lemma_dense_find_nonneg(v: LoudsDenseV, key: Seq<u8>, level: int, node_num: int)
    ensures
        spec_dense_find(v, key, level, node_num).0 >= 0,
    decreases v.height - level,
{
    if level < v.height && node_num < v.prefixes().len() && level < key.len() {
        let pos = node_num * 256 + key[level];
        if v.labels()[pos] && v.childs()[pos] {
            lemma_dense_find_nonneg(v, key, level + 1, spec_rank(v.childs(), pos));
        }
    }
}

/// Traversal structure for the dense levels.
pub struct LoudsDense {
    height: level_t,
    label_bitmaps: BitvectorRank,
    child_indicator_bitmaps: BitvectorRank,
    prefixkey_indicator_bits: BitvectorRank,
}

impl View for LoudsDense {
    type V = LoudsDenseV;

    closed spec fn view(&self) -> LoudsDenseV {
        LoudsDenseV {
            height: self.height,
            label_bitmaps: self.label_bitmaps@,
            child_indicator_bitmaps: self.child_indicator_bitmaps@,
            prefixkey_indicator_bits: self.prefixkey_indicator_bits@,
        }
    }
}

/// The per-level bit counts of the dense bitmaps: 256 slots per node.
pub open spec fn spec_dense_bits_per_level(b: crate::builder::BuilderV) -> Seq<usize> {
    Seq::new(b.sparse_start_level as nat, |l: int| (256 * b.node_counts[l]) as usize)
}

/// Scaling every level's count by 256 scales the total by 256.
proof fn lemma_total_bits_scaled(a: Seq<usize>, b: Seq<usize>, start: int, end: int)
    requires
        forall|l: int| start <= l < end ==> a[l] == 256 * #[trigger] b[l],
    ensures
        spec_total_bits(a, start, end) == 256 * spec_total_bits(b, start, end),
    decreases end - start,
{
    if start < end {
        lemma_total_bits_scaled(a, b, start, end - 1);
    }
}

impl LoudsDense {
    /// Assembles the dense traversal structure from the builder's bitmaps:
    /// the three rank structures hold exactly the concatenations of the
    /// builder's per-level label bitmaps, child-indicator bitmaps and
    /// prefix-terminal marker bits for the levels below the cutoff — bits
    /// whose meaning over the sparse arrays `Builder::build` states
    /// through `spec_dense_content`. Fails exactly when a bitmap's bit
    /// count overflows what a bit vector addresses.
    pub fn new(builder: &Builder) -> (r: Result<LoudsDense, TrieError>)
        requires
            builder.wf(),
            builder@.wf_dense(),
        ensures
            r matches Ok(d) ==> {
                let b = builder@;
                let ssl = b.sparse_start_level as int;
                &&& d@.wf()
                &&& d@.height == b.sparse_start_level
                &&& d@.labels() == spec_concat_bits(
                    b.bitmap_labels,
                    spec_dense_bits_per_level(b),
                    0,
                    ssl,
                )
                &&& d@.childs() == spec_concat_bits(
                    b.bitmap_child_indicator_bits,
                    spec_dense_bits_per_level(b),
                    0,
                    ssl,
                )
                &&& d@.prefixes() == spec_concat_bits(b.prefixkey_indicator_bits, b.node_counts, 0, ssl)
            },
            (r matches Err(e) && e == TrieError::BuildFailure) <==> ((exists|l: int|
                0 <= l < builder@.sparse_start_level && 256 * (#[trigger] builder@.node_counts[l])
                    > usize::MAX) || 256 * spec_total_bits(
                builder@.node_counts,
                0,
                builder@.sparse_start_level as int,
            ) > usize::MAX / 4),
            r is Err ==> r == Err::<LoudsDense, TrieError>(TrieError::BuildFailure),
    {
        let height = builder.get_sparse_start_level();
        let bitmap_labels = builder.get_bit_map_labels();
        let mut num_bits_per_level: Vec<position_t> = Vec::new();
        let mut level: level_t = 0;
        while level < height
            invariant
                builder.wf(),
                builder@.wf_dense(),
                level <= height,
                height == builder@.sparse_start_level,
                bitmap_labels.deep_view() == builder@.bitmap_labels,
                num_bits_per_level@.len() == level,
                forall|l: int|
                    0 <= l < level ==> #[trigger] num_bits_per_level@[l]
                        == builder@.bitmap_labels[l].len() * 64,
                forall|l: int|
                    0 <= l < level ==> #[trigger] num_bits_per_level@[l] == 256
                        * builder@.node_counts[l],
            decreases height - level,
        {
            let words = bitmap_labels[level].len();
            proof {
                assert(builder@.bitmap_labels[level as int].len() == 4 * builder@.node_counts[
                    level as int]);
                vstd::arithmetic::mul::lemma_mul_is_associative(
                    4,
                    builder@.node_counts[level as int] as int,
                    64,
                );
            }
            let bits = match words.checked_mul(64) {
                Some(v) => v,
                None => {
                    proof {
                        assert(256 * builder@.node_counts[level as int] > usize::MAX);
                    }
                    return Err(TrieError::BuildFailure);
                },
            };
            proof {
                assert(bits == 256 * builder@.node_counts[level as int]);
            }
            num_bits_per_level.push(bits);
            level = level + 1;
        }
        proof {
            assert(num_bits_per_level@ =~= spec_dense_bits_per_level(builder@));
            lemma_total_bits_scaled(num_bits_per_level@, builder@.node_counts, 0, height as int);
        }
        let label_bitmaps = match BitvectorRank::new(
            512,
            bitmap_labels,
            &num_bits_per_level,
            0,
            height,
        ) {
            Some(rk) => rk,
            None => {
                return Err(TrieError::BuildFailure);
            },
        };
        proof {
            assert(label_bitmaps@.bitvec.num_bits == spec_total_bits(
                num_bits_per_level@,
                0,
                height as int,
            ));
            assert(label_bitmaps@.bitvec.num_bits <= usize::MAX / 4);
            assert(256 * spec_total_bits(builder@.node_counts, 0, height as int) <= usize::MAX
                / 4);
            crate::bitvector::lemma_total_bits_nonneg(builder@.node_counts, 0, height as int);
            assert forall|l: int| 0 <= l < builder@.sparse_start_level implies 256 * (#[trigger]
                builder@.node_counts[l]) <= usize::MAX by {
                assert(num_bits_per_level@[l] == 256 * builder@.node_counts[l]);
            }
        }
        let bitmap_childs = builder.get_bitmap_child_indicator_bits();
        proof {
            assert forall|l: int| 0 <= l < height implies num_bits_per_level@[l] <= #[trigger]
                bitmap_childs@[l]@.len() * 64 by {
                assert(bitmap_childs@[l]@ == builder@.bitmap_child_indicator_bits[l]);
                assert(builder@.bitmap_child_indicator_bits[l].len() == 4 * builder@.node_counts[l]);
                vstd::arithmetic::mul::lemma_mul_is_associative(
                    4,
                    builder@.node_counts[l] as int,
                    64,
                );
            }
        }
        let child_indicator_bitmaps = match BitvectorRank::new(
            512,
            bitmap_childs,
            &num_bits_per_level,
            0,
            height,
        ) {
            Some(rk) => rk,
            None => {
                proof {
                    assert(false);
                }
                return Err(TrieError::BuildFailure);
            },
        };
        let prefix_words = builder.get_prefixkey_indicator_bits();
        let node_counts = builder.get_node_counts();
        proof {
            assert forall|l: int| 0 <= l < height implies node_counts@[l] <= #[trigger]
                prefix_words@[l]@.len() * 64 by {
                assert(prefix_words@[l]@ == builder@.prefixkey_indicator_bits[l]);
            }
        }
        let prefixkey_indicator_bits = match BitvectorRank::new(
            512,
            prefix_words,
            node_counts,
            0,
            height,
        ) {
            Some(rk) => rk,
            None => {
                proof {
                    assert(spec_total_bits(builder@.node_counts, 0, height as int) <= 256
                        * spec_total_bits(builder@.node_counts, 0, height as int));
                    assert(false);
                }
                return Err(TrieError::BuildFailure);
            },
        };
        Ok(
            LoudsDense {
                height,
                label_bitmaps,
                child_indicator_bitmaps,
                prefixkey_indicator_bits,
            },
        )
    }

    /// Walks the dense levels with the key. Returns the suffix position or
    /// `K_NOT_FOUND`, the level after the last one consumed, and, when the
    /// key outlives the dense levels, the node to hand the sparse
    /// traversal, else `K_NOT_FOUND`.
    pub fn find_key(&self, key: &[u8]) -> (r: (position_t, level_t, position_t))
        requires
            self@.wf(),
        ensures
            (r.0 as int, r.1 as int, r.2 as int) == spec_dense_find(self@, key@, 0, 0),
    {
        let ghost v = self@;
        let height = self.height;
        let pbits = self.prefixkey_indicator_bits.get_bitvec().get_num_bits();
        let key_len = key.len();
        let mut node_num: position_t = 0;
        let mut level: level_t = 0;
        while level < height
            invariant
                self@ == v,
                v.wf(),
                height == v.height,
                pbits == v.prefixes().len(),
                key_len == key@.len(),
                level <= height,
                spec_dense_find(v, key@, 0, 0) == spec_dense_find(
                    v,
                    key@,
                    level as int,
                    node_num as int,
                ),
            decreases height - level,
        {
            if node_num >= pbits {
                return (K_NOT_FOUND, level, K_NOT_FOUND);
            }
            let pos = node_num * K_FANOUT;
            proof {
                vstd::arithmetic::mul::lemma_mul_inequality(
                    node_num + 1,
                    pbits as int,
                    256,
                );
                vstd::arithmetic::mul::lemma_mul_is_distributive_add_other_way(
                    256,
                    node_num as int,
                    1,
                );
                assert(pos + 256 <= v.labels().len());
            }
            if level >= key_len {
                if self.prefixkey_indicator_bits.get_bitvec().read_bit(node_num) {
                    let sp = self.get_suffix_pos(pos, true);
                    return (sp, level, K_NOT_FOUND);
                } else {
                    return (K_NOT_FOUND, level, K_NOT_FOUND);
                }
            }
            let pos = pos + (key[level] as usize);
            if !self.label_bitmaps.get_bitvec().read_bit(pos) {
                return (K_NOT_FOUND, level + 1, K_NOT_FOUND);
            }
            if !self.child_indicator_bitmaps.get_bitvec().read_bit(pos) {
                let sp = self.get_suffix_pos(pos, false);
                return (sp, level + 1, K_NOT_FOUND);
            }
            node_num = self.get_child_node_num(pos);
            proof {
                crate::bitvector::lemma_count_ones_le(v.childs(), pos + 1);
            }
            level = level + 1;
        }
        (K_NOT_FOUND, height, node_num)
    }

    /// Resolves a suffix slot from the rank bookkeeping at `pos`;
    /// `K_NOT_FOUND` when the counts are inconsistent.
    fn get_suffix_pos(&self, pos: position_t, is_prefix_key: bool) -> (r: position_t)
        requires
            self@.wf(),
            pos < self@.labels().len(),
        ensures
            r as int == spec_dense_suffix_pos(self@, pos as int, is_prefix_key),
    {
        let ghost v = self@;
        let node_num: position_t = pos / K_FANOUT;
        proof {
            let pb = v.prefixes().len() as int;
            vstd::arithmetic::div_mod::lemma_div_is_ordered(pos as int, 256 * pb - 1, 256);
            vstd::arithmetic::mul::lemma_mul_is_distributive_sub(256, pb, 1);
            vstd::arithmetic::div_mod::lemma_fundamental_div_mod_converse(
                256 * pb - 1,
                256,
                pb - 1,
                255,
            );
            assert(node_num < pb);
            crate::bitvector::lemma_count_ones_le(v.labels(), pos + 1);
            crate::bitvector::lemma_count_ones_le(v.childs(), pos + 1);
            crate::bitvector::lemma_count_ones_le(v.prefixes(), node_num + 1);
        }
        let label_rank = self.label_bitmaps.rank(pos);
        let child_rank = self.child_indicator_bitmaps.rank(pos);
        let prefix_rank = self.prefixkey_indicator_bits.rank(node_num);
        let positive: u128 = label_rank as u128 + prefix_rank as u128;
        let debit: u128 = child_rank as u128 + 1;
        let extra: u128 = if is_prefix_key && self.label_bitmaps.get_bitvec().read_bit(pos)
            && !self.child_indicator_bitmaps.get_bitvec().read_bit(pos) {
            1
        } else {
            0
        };
        if positive < debit + extra {
            return K_NOT_FOUND;
        }
        let suffix_pos = positive - debit - extra;
        if suffix_pos > usize::MAX as u128 {
            return K_NOT_FOUND;
        }
        suffix_pos as usize
    }

    /// The child node a set child-indicator bit leads to.
    fn get_child_node_num(&self, pos: position_t) -> (r: position_t)
        requires
            self@.wf(),
            pos < self@.childs().len(),
        ensures
            r as int == spec_rank(self@.childs(), pos as int),
    {
        self.child_indicator_bitmaps.rank(pos)
    }
}

/// Raw byte footprint of the dense structure.
pub open spec fn spec_dense_byte_size(v: LoudsDenseV) -> int {
    crate::codec::sat_add(
        8,
        crate::codec::sat_add(
            crate::rank::spec_rank_byte_size(v.label_bitmaps),
            crate::codec::sat_add(
                crate::rank::spec_rank_byte_size(v.child_indicator_bitmaps),
                crate::rank::spec_rank_byte_size(v.prefixkey_indicator_bits),
            ),
        ),
    )
}

/// Byte encoding of the dense structure: the height, then the three rank
/// structures, each section length-prefixed.
pub open spec fn enc_louds_dense(v: LoudsDenseV) -> Seq<u8> {
    let lb = enc_rank(v.label_bitmaps);
    let cb = enc_rank(v.child_indicator_bitmaps);
    let pb = enc_rank(v.prefixkey_indicator_bits);
    spec_u64_to_be(v.height as u64) + spec_u64_to_be(lb.len() as u64) + lb + spec_u64_to_be(
        cb.len() as u64,
    ) + cb + spec_u64_to_be(pb.len() as u64) + pb
}

/// The dense structure a byte string spells: the exact parse of
/// [`enc_louds_dense`].
pub open spec fn dec_louds_dense(bytes: Seq<u8>) -> Option<LoudsDenseV> {
    if bytes.len() < 16 {
        None
    } else {
        let height = be_val(bytes.subrange(0, 8));
        let ll = be_val(bytes.subrange(8, 16));
        if height > usize::MAX || ll > usize::MAX || bytes.len() < 16 + ll {
            None
        } else {
            match dec_rank(bytes.subrange(16, 16 + ll)) {
                None => None,
                Some(lb) => {
                    let c1 = 16 + ll;
                    if bytes.len() < c1 + 8 {
                        None
                    } else {
                        let cl = be_val(bytes.subrange(c1, c1 + 8));
                        if cl > usize::MAX || bytes.len() < c1 + 8 + cl {
                            None
                        } else {
                            match dec_rank(bytes.subrange(c1 + 8, c1 + 8 + cl)) {
                                None => None,
                                Some(cb) => {
                                    let c2 = c1 + 8 + cl;
                                    if bytes.len() < c2 + 8 {
                                        None
                                    } else {
                                        let pl = be_val(bytes.subrange(c2, c2 + 8));
                                        if pl > usize::MAX || bytes.len() != c2 + 8 + pl {
                                            None
                                        } else {
                                            match dec_rank(
                                                bytes.subrange(c2 + 8, c2 + 8 + pl),
                                            ) {
                                                None => None,
                                                Some(pb) => {
                                                    let v = LoudsDenseV {
                                                        height: height as usize,
                                                        label_bitmaps: lb,
                                                        child_indicator_bitmaps: cb,
                                                        prefixkey_indicator_bits: pb,
                                                    };
                                                    if v.wf() {
                                                        Some(v)
                                                    } else {
                                                        None
                                                    }
                                                },
                                            }
                                        }
                                    }
                                },
                            }
                        }
                    }
                },
            }
        }
    }
}

impl LoudsDense {
    /// Raw byte footprint of the height field and the three rank
    /// structures.
    pub fn byte_size(&self) -> (r: usize)
        ensures
            r == spec_dense_byte_size(self@),
    {
        crate::codec::sat_add_usize(
            8,
            crate::codec::sat_add_usize(
                self.label_bitmaps.byte_size(),
                crate::codec::sat_add_usize(
                    self.child_indicator_bitmaps.byte_size(),
                    self.prefixkey_indicator_bits.byte_size(),
                ),
            ),
        )
    }

    /// Emits the height, then the three rank structures, each section
    /// length-prefixed.
    pub fn serialize(&self) -> (r: Vec<u8>)
        ensures
            r@ == enc_louds_dense(self@),
    {
        let mut bytes: Vec<u8> = Vec::new();
        push_u64_be(&mut bytes, self.height as u64);
        let mut lb = self.label_bitmaps.serialize();
        push_u64_be(&mut bytes, lb.len() as u64);
        bytes.append(&mut lb);
        let mut cb = self.child_indicator_bitmaps.serialize();
        push_u64_be(&mut bytes, cb.len() as u64);
        bytes.append(&mut cb);
        let mut pb = self.prefixkey_indicator_bits.serialize();
        push_u64_be(&mut bytes, pb.len() as u64);
        bytes.append(&mut pb);
        proof {
            assert(bytes@ =~= enc_louds_dense(self@));
        }
        bytes
    }

    /// Parses what [`LoudsDense::serialize`] emits.
    pub fn deserialize(bytes: &[u8]) -> (r: Option<LoudsDense>)
        ensures
            match r {
                Some(d) => dec_louds_dense(bytes@) == Some(d@) && d@.wf(),
                None => dec_louds_dense(bytes@) is None,
            },
    {
        if bytes.len() < 16 {
            return None;
        }
        let height = match u64_to_usize_checked(read_u64_be(bytes, 0)) {
            Some(v) => v,
            None => {
                return None;
            },
        };
        let ll = match u64_to_usize_checked(read_u64_be(bytes, 8)) {
            Some(v) => v,
            None => {
                return None;
            },
        };
        if bytes.len() < 16 || bytes.len() - 16 < ll {
            return None;
        }
        let label_bitmaps = match BitvectorRank::deserialize(slice_range(bytes, 16, 16 + ll)) {
            Some(rk) => rk,
            None => {
                return None;
            },
        };
        let c1 = 16 + ll;
        if bytes.len() - c1 < 8 {
            return None;
        }
        let cl = match u64_to_usize_checked(read_u64_be(bytes, c1)) {
            Some(v) => v,
            None => {
                return None;
            },
        };
        if bytes.len() - c1 - 8 < cl {
            return None;
        }
        let child_indicator_bitmaps = match BitvectorRank::deserialize(
            slice_range(bytes, c1 + 8, c1 + 8 + cl),
        ) {
            Some(rk) => rk,
            None => {
                return None;
            },
        };
        let c2 = c1 + 8 + cl;
        if bytes.len() - c2 < 8 {
            return None;
        }
        let pl = match u64_to_usize_checked(read_u64_be(bytes, c2)) {
            Some(v) => v,
            None => {
                return None;
            },
        };
        if bytes.len() - c2 - 8 != pl {
            return None;
        }
        let prefixkey_indicator_bits = match BitvectorRank::deserialize(
            slice_range(bytes, c2 + 8, c2 + 8 + pl),
        ) {
            Some(rk) => rk,
            None => {
                return None;
            },
        };
        let d = LoudsDense { height, label_bitmaps, child_indicator_bitmaps, prefixkey_indicator_bits };
        let lnb = d.label_bitmaps.get_bitvec().get_num_bits();
        let cnb = d.child_indicator_bitmaps.get_bitvec().get_num_bits();
        let pnb = d.prefixkey_indicator_bits.get_bitvec().get_num_bits();
        if cnb != lnb {
            assert(!d@.wf());
            return None;
        }
        if pnb > usize::MAX / 256 || lnb != 256 * pnb {
            assert(!d@.wf());
            return None;
        }
        proof {
            assert(d@.wf());
            assert(dec_louds_dense(bytes@) == Some(d@));
        }
        Some(d)
    }
}

/// The subslice `bytes[lo..hi]`.
fn slice_range(bytes: &[u8], lo: usize, hi: usize) -> (r: &[u8])
    requires
        lo <= hi <= bytes@.len(),
    ensures
        r@ == bytes@.subrange(lo as int, hi as int),
{
    &bytes[lo..hi]
}

/// Parsing inverts encoding: a well-formed dense structure's bytes spell
/// it back.
pub proof fn lemma_dec_enc_louds_dense(v: LoudsDenseV)
    requires
        v.wf(),
    ensures
        dec_louds_dense(enc_louds_dense(v)) == Some(v),
{
    let bytes = enc_louds_dense(v);
    let lb = enc_rank(v.label_bitmaps);
    let cb = enc_rank(v.child_indicator_bitmaps);
    let pb = enc_rank(v.prefixkey_indicator_bits);
    lemma_enc_rank_len_bound(v.label_bitmaps);
    lemma_enc_rank_len_bound(v.child_indicator_bitmaps);
    lemma_enc_rank_len_bound(v.prefixkey_indicator_bits);
    let c1 = 16 + lb.len() as int;
    let c2 = c1 + 8 + cb.len() as int;
    assert(bytes.subrange(0, 8) =~= spec_u64_to_be(v.height as u64));
    assert(bytes.subrange(8, 16) =~= spec_u64_to_be(lb.len() as u64));
    lemma_be_round_trip(v.height as u64);
    lemma_be_round_trip(lb.len() as u64);
    assert(bytes.subrange(16, 16 + lb.len() as int) =~= lb);
    lemma_dec_enc_rank(v.label_bitmaps);
    assert(bytes.subrange(c1, c1 + 8) =~= spec_u64_to_be(cb.len() as u64));
    lemma_be_round_trip(cb.len() as u64);
    assert(bytes.subrange(c1 + 8, c1 + 8 + cb.len() as int) =~= cb);
    lemma_dec_enc_rank(v.child_indicator_bitmaps);
    assert(bytes.subrange(c2, c2 + 8) =~= spec_u64_to_be(pb.len() as u64));
    lemma_be_round_trip(pb.len() as u64);
    assert(bytes.subrange(c2 + 8, c2 + 8 + pb.len() as int) =~= pb);
    lemma_dec_enc_rank(v.prefixkey_indicator_bits);
}

/// A well-formed rank structure's encoding fits in a machine word's range.
pub proof fn lemma_enc_rank_len_bound(v: BitvectorRankV)
    requires
        v.wf(),
    ensures
        enc_rank(v).len() <= usize::MAX,
{
    crate::codec::lemma_enc_words_len(v.bitvec.bits);
    crate::codec::lemma_enc_words_len(crate::codec::u64s_of(v.rank_lut));
    vstd::arithmetic::div_mod::lemma_div_is_ordered_by_denominator(
        v.bitvec.num_bits as int,
        64,
        v.basic_block_size as int,
    );
}

} // verus!
