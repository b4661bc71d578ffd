//! Traversal structure for the levels at and above the dense/sparse
//! cutoff: variable-length label runs per node, located by select over the
//! LOUDS bits, searched through the label vector.

use vstd::prelude::*;
use crate::bitvector::{BitVector, count_ones, lemma_count_ones_le, lemma_count_ones_take_succ,
    spec_concat_bits, spec_total_bits};
use crate::builder::Builder;
use crate::codec::{be_val, lemma_be_round_trip, push_u64_be, read_u64_be, spec_u64_to_be,
    u64_to_usize_checked};
use crate::config::{K_NOT_FOUND, TrieError, level_t, position_t};
use crate::label_vector::{LabelVector, dec_label_vector, enc_label_vector,
    lemma_dec_enc_label_vector, run_sorted, spec_concat_labels, spec_total_labels};
use crate::rank::{BitvectorRank, BitvectorRankV, dec_rank, enc_rank, lemma_dec_enc_rank};
use crate::select::{BitvectorSelect, BitvectorSelectV, dec_select, enc_select,
    lemma_dec_enc_select, lemma_nth_one_unique, nth_one_at};

verus! {

/// Position of the first set bit after `p`, or the sequence's length when
/// none follows.
pub open spec fn next_one_or_end(s: Seq<bool>, p: int) -> int
    decreases s.len() - p when 0 <= p <= s.len()
{
    if p + 1 >= s.len() {
        s.len() as int
    } else if s[p + 1] {
        p + 1
    } else {
        next_one_or_end(s, p + 1)
    }
}

/// The next set bit is exactly where a clear gap ends.
pub proof fn lemma_next_one(s: Seq<bool>, p: int, q: int)
    requires
        0 <= p < s.len(),
        p < q <= s.len(),
        forall|j: int| p < j < q ==> !s[j],
        q < s.len() ==> s[q],
    ensures
        next_one_or_end(s, p) == q,
    decreases q - p,
{
    if p + 1 >= s.len() {
    } else if s[p + 1] {
    } else {
        lemma_next_one(s, p + 1, q);
    }
}

/// Every node's label run ascends as the label search expects.
pub open spec fn runs_sorted(labels: Seq<u8>, louds: Seq<bool>) -> bool {
    forall|p: int|
        0 <= p < louds.len() && louds[p] ==> run_sorted(
            labels,
            p,
            #[trigger] next_one_or_end(louds, p) - p,
        )
}

/// Index of the first occurrence of `target` in `labels[lo..hi]`, or -1.
pub open spec fn first_match(labels: Seq<u8>, target: u8, lo: int, hi: int) -> int
    decreases hi - lo,
{
    if lo >= hi {
        -1
    } else if labels[lo] == target {
        lo
    } else {
        first_match(labels, target, lo + 1, hi)
    }
}

/// A first match is an occurrence of the target.
pub proof fn lemma_first_match(labels: Seq<u8>, target: u8, lo: int, hi: int)
    ensures
        first_match(labels, target, lo, hi) != -1 ==> lo <= first_match(labels, target, lo, hi)
            < hi && labels[first_match(labels, target, lo, hi)] == target,
    decreases hi - lo,
{
    if lo < hi && labels[lo] != target {
        lemma_first_match(labels, target, lo + 1, hi);
    }
}

/// Where no first match exists, no slot matches.
pub proof fn lemma_first_match_none(labels: Seq<u8>, target: u8, lo: int, hi: int, i: int)
    requires
        0 <= lo,
        first_match(labels, target, lo, hi) == -1,
        lo <= i < hi,
    ensures
        labels[i] != target,
    decreases hi - lo,
{
    if i > lo {
        lemma_first_match_none(labels, target, lo + 1, hi, i);
    }
}

/// What the size-adaptive label search answers: whether the target occurs
/// in the run, and where.
pub open spec fn spec_label_search(labels: Seq<u8>, target: u8, pos: int, len: int) -> (bool, int) {
    let fm = first_match(labels, target, pos, pos + len);
    if fm == -1 {
        (false, pos)
    } else {
        (true, fm)
    }
}

/// Abstract content of a [`LoudsSparse`].
pub struct LoudsSparseV {
    pub height: usize,
    pub start_level: usize,
    pub node_count_dense: usize,
    pub child_count_dense: usize,
    pub value_count_dense: usize,
    pub labels: Seq<u8>,
    pub child_indicator_bits: BitvectorRankV,
    pub louds_bits: BitvectorSelectV,
}

impl LoudsSparseV {
    /// Well-formed: the rank and select structures are well-formed over
    /// equally long bit vectors, the label array covers every bit slot with
    /// room for a wide read past the end, and every node's label run is
    /// sorted.
    pub open spec fn wf(self) -> bool {
        &&& self.child_indicator_bits.wf()
        &&& self.louds_bits.wf()
        &&& self.child_indicator_bits.bitvec.num_bits == self.louds_bits.bitvec.num_bits
        &&& self.labels.len() == self.louds_bits.bitvec.num_bits + 17
        &&& self.labels.len() + 64 <= usize::MAX
        &&& runs_sorted(self.labels, self.louds_bits.bitvec.bit_seq())
    }

    /// The LOUDS bits.
    pub open spec fn louds(self) -> Seq<bool> {
        self.louds_bits.bitvec.bit_seq()
    }

    /// The child-indicator bits.
    pub open spec fn childs(self) -> Seq<bool> {
        self.child_indicator_bits.bitvec.bit_seq()
    }
}

/// Rank of position `pos`: set bits in `[0, pos]`.
pub open spec fn spec_rank(s: Seq<bool>, pos: int) -> int {
    count_ones(s.take(pos + 1)) as int
}

/// The position of the `k`-th set bit.
pub open spec fn spec_nth_one(s: Seq<bool>, k: int) -> int {
    choose|p: int| nth_one_at(s, k, p)
}

/// What the sparse traversal answers from `level` at label-run position
/// `pos`: the suffix position or `K_NOT_FOUND`, and the level after the
/// last one consumed.
pub open spec fn spec_sparse_rec(v: LoudsSparseV, key: Seq<u8>, level: int, pos: int) -> (int, int)
    decreases key.len() - level,
{
    let n = v.louds().len() as int;
    if level >= key.len() {
        (K_NOT_FOUND as int, key.len() as int)
    } else if pos >= n {
        (K_NOT_FOUND as int, level)
    } else {
        let d = next_one_or_end(v.louds(), pos) - pos;
        let sres = spec_label_search(v.labels, key[level], pos, d);
        if !sres.0 {
            (K_NOT_FOUND as int, level)
        } else {
            let fpos = sres.1;
            if !v.childs()[fpos] {
                let sp = fpos - spec_rank(v.childs(), fpos) + v.value_count_dense;
                if sp > usize::MAX || sp < 0 {
                    (K_NOT_FOUND as int, level + 1)
                } else {
                    (sp, level + 1)
                }
            } else {
                let cn = spec_rank(v.childs(), fpos) + v.child_count_dense;
                if cn > usize::MAX {
                    (K_NOT_FOUND as int, level + 1)
                } else if cn < v.node_count_dense || cn - v.node_count_dense + 1 > usize::MAX {
                    (K_NOT_FOUND as int, level + 1)
                } else {
                    let rk = cn - v.node_count_dense + 1;
                    if rk > count_ones(v.louds()) {
                        (K_NOT_FOUND as int, level + 1)
                    } else {
                        spec_sparse_rec(v, key, level + 1, spec_nth_one(v.louds(), rk))
                    }
                }
            }
        }
    }
}

/// What `find_key` answers for a key handed over at node `in_node`.
pub open spec fn spec_sparse_find(v: LoudsSparseV, key: Seq<u8>, in_node: int) -> (int, int) {
    if in_node < v.node_count_dense || in_node - v.node_count_dense + 1 > usize::MAX {
        (K_NOT_FOUND as int, v.start_level as int)
    } else {
        let rk = in_node - v.node_count_dense + 1;
        if rk > count_ones(v.louds()) {
            (K_NOT_FOUND as int, v.start_level as int)
        } else {
            spec_sparse_rec(v, key, v.start_level as int, spec_nth_one(v.louds(), rk))
        }
    }
}

/// The sparse traversal never answers a negative suffix position.
pub proof fn lemma_sparse_rec_nonneg(v: LoudsSparseV, key: Seq<u8>, level: int, pos: int)
    ensures
        spec_sparse_rec(v, key, level, pos).0 >= 0,
    decreases key.len() - level,
{
    let n = v.louds().len() as int;
    if level < key.len() && pos < n {
        let d = next_one_or_end(v.louds(), pos) - pos;
        let sres = spec_label_search(v.labels, key[level], pos, d);
        if sres.0 && v.childs()[sres.1] {
            let cn = spec_rank(v.childs(), sres.1) + v.child_count_dense;
            if cn <= usize::MAX && cn >= v.node_count_dense && cn - v.node_count_dense + 1
                <= usize::MAX {
                let rk = cn - v.node_count_dense + 1;
                if rk <= count_ones(v.louds()) {
                    lemma_sparse_rec_nonneg(v, key, level + 1, spec_nth_one(v.louds(), rk));
                }
            }
        }
    }
}

/// The sparse hand-off never answers a negative suffix position.
pub proof fn lemma_sparse_find_nonneg(v: LoudsSparseV, key: Seq<u8>, in_node: int)
    ensures
        spec_sparse_find(v, key, in_node).0 >= 0,
{
    if in_node >= v.node_count_dense && in_node - v.node_count_dense + 1 <= usize::MAX {
        let rk = in_node - v.node_count_dense + 1;
        if rk <= count_ones(v.louds()) {
            lemma_sparse_rec_nonneg(v, key, v.start_level as int, spec_nth_one(v.louds(), rk));
        }
    }
}

/// Traversal structure for the sparse levels.
pub struct LoudsSparse {
    height: level_t,
    start_level: level_t,
    node_count_dense: position_t,
    child_count_dense: position_t,
    value_count_dense: position_t,
    labels: LabelVector,
    child_indicator_bits: BitvectorRank,
    louds_bits: BitvectorSelect,
}

impl View for LoudsSparse {
    type V = LoudsSparseV;

    closed spec fn view(&self) -> LoudsSparseV {
        LoudsSparseV {
            height: self.height,
            start_level: self.start_level,
            node_count_dense: self.node_count_dense,
            child_count_dense: self.child_count_dense,
            value_count_dense: self.value_count_dense,
            labels: self.labels@,
            child_indicator_bits: self.child_indicator_bits@,
            louds_bits: self.louds_bits@,
        }
    }
}

/// The per-level label counts of the sparse levels.
pub open spec fn spec_sparse_items_per_level(b: crate::builder::BuilderV) -> Seq<usize> {
    Seq::new(b.labels.len(), |l: int| b.labels[l].len() as usize)
}

/// The conditions under which the sparse structure cannot be assembled: a
/// handoff counter overflows the machine word, every level lies below the
/// cutoff, the cutoff level holds no node, a bit or label total outgrows
/// what the bit structures address, the LOUDS bits cannot anchor the
/// select sampling, or a node's label run is not sorted.
pub open spec fn spec_sparse_rejected(b: crate::builder::BuilderV) -> bool {
    let ssl = b.sparse_start_level as int;
    let h = b.labels.len() as int;
    let items = spec_sparse_items_per_level(b);
    let body = spec_concat_labels(b.labels, ssl, h);
    let louds = spec_concat_bits(b.louds_bits, items, ssl, h);
    ||| spec_total_bits(b.node_counts, 0, ssl) > usize::MAX
    ||| (ssl > 0 && ssl >= h)
    ||| (ssl > 0 && ssl < h && spec_total_bits(b.node_counts, 0, ssl) + b.node_counts[ssl]
        > usize::MAX)
    ||| (ssl > 0 && ssl < h && spec_total_bits(b.node_counts, 0, ssl) + b.node_counts[ssl] == 0)
    ||| spec_total_bits(items, ssl, h) > usize::MAX / 4
    ||| (count_ones(louds) > 0 && !louds[0])
    ||| spec_total_bits(b.suffix_counts, 0, ssl) > usize::MAX
    ||| body.len() + 17 > usize::MAX - 64
    ||| !runs_sorted(body + spec_label_padding(), louds)
}

/// The 17 zero bytes padding the label array for wide reads.
pub open spec fn spec_label_padding() -> Seq<u8> {
    Seq::new(17, |i: int| 0u8)
}

/// Totals agree when the per-level counts are the level lengths.
proof fn lemma_total_matches_labels(
    per: Seq<usize>,
    levels: Seq<Seq<u8>>,
    start: int,
    end: int,
)
    requires
        forall|l: int| start <= l < end ==> per[l] == (#[trigger] levels[l]).len(),
    ensures
        spec_total_bits(per, start, end) == spec_total_labels(levels, start, end),
    decreases end - start,
{
    if start < end {
        lemma_total_matches_labels(per, levels, start, end - 1);
    }
}

impl LoudsSparse {
    /// Assembles the sparse traversal structure from the builder's arrays:
    /// the label array is the concatenation of the per-level labels from
    /// the cutoff up (plus zero padding), the child-indicator and LOUDS bit
    /// vectors are the corresponding concatenations, and the three handoff
    /// counters sum the dense levels' node and suffix counts. Fails when a
    /// size overflows the machine word, when all levels are below the
    /// cutoff, when the LOUDS bits cannot anchor the select sampling, or
    /// when a node's label run is not sorted, which the sorted key order
    /// rules out.
    pub fn new(builder: &Builder) -> (r: Result<LoudsSparse, TrieError>)
        requires
            builder.wf(),
            builder@.sparse_start_level <= builder@.labels.len(),
        ensures
            r matches Ok(s) ==> {
                let b = builder@;
                let ssl = b.sparse_start_level as int;
                let h = b.labels.len() as int;
                let body = spec_concat_labels(b.labels, ssl, h);
                &&& s@.wf()
                &&& s@.height == h
                &&& s@.start_level == ssl
                &&& s@.node_count_dense == spec_total_bits(b.node_counts, 0, ssl)
                &&& s@.value_count_dense == spec_total_bits(b.suffix_counts, 0, ssl)
                &&& s@.child_count_dense == (if ssl == 0 {
                    0int
                } else {
                    spec_total_bits(b.node_counts, 0, ssl) + b.node_counts[ssl] - 1
                })
                &&& s@.labels.len() == body.len() + 17
                &&& s@.labels.take(body.len() as int) == body
                &&& forall|i: int| body.len() <= i < s@.labels.len() ==> s@.labels[i] == 0
                &&& s@.childs() == spec_concat_bits(
                    b.child_indicator_bits,
                    spec_sparse_items_per_level(b),
                    ssl,
                    h,
                )
                &&& s@.louds() == spec_concat_bits(
                    b.louds_bits,
                    spec_sparse_items_per_level(b),
                    ssl,
                    h,
                )
            },
            r is Err <==> spec_sparse_rejected(builder@),
            r is Err ==> r == Err::<LoudsSparse, TrieError>(TrieError::BuildFailure),
    {
        let ghost bv = builder@;
        let ghost items = spec_sparse_items_per_level(bv);
        let ghost body = spec_concat_labels(bv.labels, bv.sparse_start_level as int, bv.labels.len() as int);
        let height = builder.get_labels().len();
        let start_level = builder.get_sparse_start_level();
        let node_counts = builder.get_node_counts();
        let mut node_count_dense: position_t = 0;
        let mut level: level_t = 0;
        while level < start_level
            invariant
                builder.wf(),
                bv == builder@,
                level <= start_level,
                start_level == bv.sparse_start_level,
                start_level <= builder@.labels.len(),
                node_counts@ == builder@.node_counts,
                node_count_dense == spec_total_bits(builder@.node_counts, 0, level as int),
            decreases start_level - level,
        {
            node_count_dense = match node_count_dense.checked_add(node_counts[level]) {
                Some(v) => v,
                None => {
                    proof {
                        crate::bitvector::lemma_total_bits_nonneg(
                            bv.node_counts,
                            0,
                            level as int,
                        );
                        crate::bitvector::lemma_total_bits_monotone(
                            bv.node_counts,
                            0,
                            level + 1,
                            start_level as int,
                        );
                        assert(spec_total_bits(bv.node_counts, 0, start_level as int)
                            > usize::MAX);
                    }
                    return Err(TrieError::BuildFailure);
                },
            };
            level = level + 1;
        }
        let child_count_dense = if start_level == 0 {
            0
        } else {
            if start_level >= height {
                return Err(TrieError::BuildFailure);
            }
            let with_nodes = match node_count_dense.checked_add(node_counts[start_level]) {
                Some(v) => v,
                None => {
                    return Err(TrieError::BuildFailure);
                },
            };
            if with_nodes == 0 {
                return Err(TrieError::BuildFailure);
            }
            with_nodes - 1
        };
        let labels = match LabelVector::new(builder.get_labels(), start_level, height) {
            Some(lv) => lv,
            None => {
                proof {
                    assert(body.len() + 17 > usize::MAX);
                }
                return Err(TrieError::BuildFailure);
            },
        };
        let builder_labels = builder.get_labels();
        let mut num_items_per_level: Vec<position_t> = Vec::new();
        let mut level: level_t = 0;
        while level < height
            invariant
                builder.wf(),
                level <= height,
                height == builder@.labels.len(),
                builder_labels.deep_view() == builder@.labels,
                num_items_per_level@.len() == level,
                forall|l: int|
                    0 <= l < level ==> #[trigger] num_items_per_level@[l]
                        == builder@.labels[l].len(),
            decreases height - level,
        {
            num_items_per_level.push(builder_labels[level].len());
            level = level + 1;
        }
        proof {
            lemma_total_matches_labels(
                num_items_per_level@,
                builder@.labels,
                start_level as int,
                height as int,
            );
            crate::label_vector::lemma_concat_labels_len(
                builder@.labels,
                start_level as int,
                height as int,
            );
            assert(num_items_per_level@ =~= items);
        }
        let child_words_ref = builder.get_child_indicator_bits();
        let louds_words_ref = builder.get_louds_bits();
        proof {
            assert forall|l: int| start_level <= l < height implies num_items_per_level@[l] <= (
            #[trigger] child_words_ref@[l]@.len()) * 64 by {
                assert(child_words_ref@[l]@ == builder@.child_indicator_bits[l]);
                crate::builder::lemma_level_words_cover(builder@.labels[l].len() as int);
            }
            assert forall|l: int| start_level <= l < height implies num_items_per_level@[l] <= (
            #[trigger] louds_words_ref@[l]@.len()) * 64 by {
                assert(louds_words_ref@[l]@ == builder@.louds_bits[l]);
                crate::builder::lemma_level_words_cover(builder@.labels[l].len() as int);
            }
        }
        let child_indicator_bits = match BitvectorRank::new(
            512,
            child_words_ref,
            &num_items_per_level,
            start_level,
            height,
        ) {
            Some(rk) => rk,
            None => {
                return Err(TrieError::BuildFailure);
            },
        };
        let louds_bits = match BitvectorSelect::new(
            64,
            louds_words_ref,
            &num_items_per_level,
            start_level,
            height,
        ) {
            Some(se) => se,
            None => {
                return Err(TrieError::BuildFailure);
            },
        };
        let suffix_counts = builder.get_suffix_counts();
        let mut value_count_dense: position_t = 0;
        let mut level: level_t = 0;
        while level < start_level
            invariant
                builder.wf(),
                bv == builder@,
                level <= start_level,
                start_level == bv.sparse_start_level,
                start_level <= builder@.labels.len(),
                suffix_counts@ == builder@.suffix_counts,
                value_count_dense == spec_total_bits(builder@.suffix_counts, 0, level as int),
            decreases start_level - level,
        {
            value_count_dense = match value_count_dense.checked_add(suffix_counts[level]) {
                Some(v) => v,
                None => {
                    proof {
                        crate::bitvector::lemma_total_bits_nonneg(
                            bv.suffix_counts,
                            0,
                            level as int,
                        );
                        crate::bitvector::lemma_total_bits_monotone(
                            bv.suffix_counts,
                            0,
                            level + 1,
                            start_level as int,
                        );
                        assert(spec_total_bits(bv.suffix_counts, 0, start_level as int)
                            > usize::MAX);
                    }
                    return Err(TrieError::BuildFailure);
                },
            };
            level = level + 1;
        }
        if labels.label_count() > usize::MAX - 64 {
            return Err(TrieError::BuildFailure);
        }
        let sparse = LoudsSparse {
            height,
            start_level,
            node_count_dense,
            child_count_dense,
            value_count_dense,
            labels,
            child_indicator_bits,
            louds_bits,
        };
        proof {
            assert(sparse.labels@ =~= body + spec_label_padding());
        }
        if !check_runs_sorted(&sparse.labels, sparse.louds_bits.get_bitvec()) {
            return Err(TrieError::BuildFailure);
        }
        proof {
            assert(child_indicator_bits@.bitvec.num_bits == spec_total_bits(
                items,
                start_level as int,
                height as int,
            ));
            assert(spec_total_bits(items, start_level as int, height as int) <= usize::MAX / 4);
            assert(!spec_sparse_rejected(builder@));
        }
        Ok(sparse)
    }

    /// Number of levels the whole trie has.
    pub fn get_height(&self) -> (r: level_t)
        ensures
            r == self@.height,
    {
        self.height
    }

    /// Walks the sparse levels with the key from the node the dense levels
    /// handed over. Returns the suffix position or `K_NOT_FOUND`, and the
    /// level after the last one consumed.
    pub fn find_key(&self, key: &[u8], in_node_num: position_t) -> (r: (position_t, level_t))
        requires
            self@.wf(),
        ensures
            (r.0 as int, r.1 as int) == spec_sparse_find(self@, key@, in_node_num as int),
    {
        let ghost v = self@;
        let ghost louds_seq = v.louds();
        let start_level = self.start_level;
        if in_node_num < self.node_count_dense {
            return (K_NOT_FOUND, start_level);
        }
        let rank0 = match (in_node_num - self.node_count_dense).checked_add(1) {
            Some(x) => x,
            None => {
                return (K_NOT_FOUND, start_level);
            },
        };
        let pos = match self.louds_bits.select_checked(rank0) {
            Some(p) => p,
            None => {
                return (K_NOT_FOUND, start_level);
            },
        };
        proof {
            assert(nth_one_at(louds_seq, rank0 as int, pos as int));
            lemma_nth_one_unique(
                louds_seq,
                rank0 as int,
                pos as int,
                spec_nth_one(louds_seq, rank0 as int),
            );
        }
        if start_level > key.len() {
            proof {
                assert(spec_sparse_rec(v, key@, start_level as int, pos as int) == (
                    K_NOT_FOUND as int,
                    key@.len() as int,
                ));
            }
            return (K_NOT_FOUND, key.len());
        }
        self.find_from(key, start_level, pos)
    }

    /// One sparse traversal step and everything below it.
    fn find_from(&self, key: &[u8], level: level_t, pos: position_t) -> (r: (
        position_t,
        level_t,
    ))
        requires
            self@.wf(),
            pos < self@.louds().len(),
            self@.louds()[pos as int],
            level <= key@.len(),
        ensures
            (r.0 as int, r.1 as int) == spec_sparse_rec(self@, key@, level as int, pos as int),
        decreases key@.len() - level,
    {
        let ghost v = self@;
        let ghost louds_seq = v.louds();
        let key_len = key.len();
        if level >= key_len {
            return (K_NOT_FOUND, key_len);
        }
        let lbv = self.louds_bits.get_bitvec();
        let d = lbv.distance_to_next_set_bit(pos);
        proof {
            assert(lbv.bit_seq() == louds_seq);
            assert forall|j: int| pos < j < pos + d implies !louds_seq[j] by {
                assert(!lbv.bit_seq()[j]);
            }
            lemma_next_one(louds_seq, pos as int, pos + d);
            assert(run_sorted(v.labels, pos as int, d as int));
        }
        let (found, fpos) = self.labels.search(key[level], pos, d);
        proof {
            let p0 = pos as int;
            let l0 = d as int;
            let fm = first_match(v.labels, key@[level as int], p0, p0 + l0);
            lemma_first_match(v.labels, key@[level as int], p0, p0 + l0);
            if found {
                let w = choose|i: int|
                    p0 <= i < p0 + l0 && v.labels[i] == key@[level as int];
                if fm == -1 {
                    lemma_first_match_none(v.labels, key@[level as int], p0, p0 + l0, w);
                }
                assert(fm != -1);
                if fm < fpos {
                    assert(v.labels[fm] < v.labels[fpos as int]);
                }
                if fm > fpos {
                    assert(v.labels[fpos as int] < v.labels[fm]);
                }
                assert(fm == fpos);
            } else {
                if fm != -1 {
                    assert(v.labels[fm] == key@[level as int]);
                    assert(false);
                }
            }
        }
        if !found {
            return (K_NOT_FOUND, level);
        }
        proof {
            lemma_count_ones_take_succ(v.childs(), fpos as int);
            lemma_count_ones_le(v.childs(), fpos as int);
        }
        if !self.child_indicator_bits.get_bitvec().read_bit(fpos) {
            let sp = fpos - self.child_indicator_bits.rank(fpos);
            let full = match sp.checked_add(self.value_count_dense) {
                Some(x) => x,
                None => {
                    return (K_NOT_FOUND, level + 1);
                },
            };
            return (full, level + 1);
        }
        let cn = match self.child_indicator_bits.rank(fpos).checked_add(self.child_count_dense) {
            Some(x) => x,
            None => {
                return (K_NOT_FOUND, level + 1);
            },
        };
        if cn < self.node_count_dense {
            return (K_NOT_FOUND, level + 1);
        }
        let rk = match (cn - self.node_count_dense).checked_add(1) {
            Some(x) => x,
            None => {
                return (K_NOT_FOUND, level + 1);
            },
        };
        let npos = match self.louds_bits.select_checked(rk) {
            Some(p) => p,
            None => {
                return (K_NOT_FOUND, level + 1);
            },
        };
        proof {
            assert(nth_one_at(louds_seq, rk as int, npos as int));
            lemma_nth_one_unique(
                louds_seq,
                rk as int,
                npos as int,
                spec_nth_one(louds_seq, rk as int),
            );
        }
        self.find_from(key, level + 1, npos)
    }
}

/// Checks that one node's label run ascends as the label search expects.
fn check_one_run(labels: &LabelVector, pos: position_t, len: position_t) -> (r: bool)
    requires
        1 <= len,
        pos + len <= labels@.len(),
    ensures
        r == run_sorted(labels@, pos as int, len as int),
{
    let total = labels.label_count();
    let mut j: position_t = 1;
    while j < len
        invariant
            1 <= j <= len || (len < 1 && j == 1),
            pos + len <= labels@.len(),
            labels@.len() == total,
            forall|k: int| pos + 1 <= k < pos + j ==> labels@[k - 1] < #[trigger] labels@[k],
        decreases len - j,
    {
        if !(labels.read(pos + j - 1) < labels.read(pos + j)) {
            return false;
        }
        j = j + 1;
    }
    proof {
        assert forall|i: int, j2: int|
            pos <= i < j2 < pos + len implies #[trigger] labels@[i] < #[trigger] labels@[j2] by {
            lemma_adjacent_pairwise(labels@, pos as int, pos + len as int, i, j2);
        }
    }
    true
}

/// Adjacent ascent over a range gives pairwise ascent.
proof fn lemma_adjacent_pairwise(s: Seq<u8>, lo: int, hi: int, i: int, j: int)
    requires
        forall|k: int| lo + 1 <= k < hi ==> s[k - 1] < #[trigger] s[k],
        lo <= i < j < hi,
    ensures
        s[i] < s[j],
    decreases j - i,
{
    if j == i + 1 {
        assert(s[j - 1] < s[j]);
    } else {
        lemma_adjacent_pairwise(s, lo, hi, i + 1, j);
        assert(s[i] < s[i + 1]);
    }
}

/// Checks that every node's label run is sorted.
fn check_runs_sorted(labels: &LabelVector, louds: &BitVector) -> (r: bool)
    requires
        louds.wf(),
        louds@.num_bits + 17 <= labels@.len(),
    ensures
        r == runs_sorted(labels@, louds.bit_seq()),
{
    let ghost s = louds.bit_seq();
    let n = louds.get_num_bits();
    let mut p: position_t = 0;
    while p < n
        invariant
            louds.wf(),
            s == louds.bit_seq(),
            n == louds@.num_bits,
            n + 17 <= labels@.len(),
            p <= n,
            forall|q: int|
                0 <= q < p && s[q] ==> run_sorted(
                    labels@,
                    q,
                    #[trigger] next_one_or_end(s, q) - q,
                ),
        decreases n - p,
    {
        if louds.read_bit(p) {
            let d = louds.distance_to_next_set_bit(p);
            proof {
                lemma_next_one(s, p as int, p + d);
            }
            if !check_one_run(labels, p, d) {
                return false;
            }
            proof {
                assert forall|q: int|
                    0 <= q < p + d && s[q] implies run_sorted(
                    labels@,
                    q,
                    #[trigger] next_one_or_end(s, q) - q,
                ) by {
                    if q > p {
                        assert(!s[q]);
                    }
                }
            }
            p = p + d;
        } else {
            p = p + 1;
        }
    }
    true
}

/// Raw byte footprint of the sparse structure.
pub open spec fn spec_sparse_byte_size(v: LoudsSparseV) -> int {
    crate::codec::sat_add(
        40,
        crate::codec::sat_add(
            v.labels.len() as int,
            crate::codec::sat_add(
                crate::rank::spec_rank_byte_size(v.child_indicator_bits),
                crate::select::spec_select_byte_size(v.louds_bits),
            ),
        ),
    )
}

/// Byte encoding of the sparse structure: five scalar fields, then the
/// label vector, the child-indicator rank, and the LOUDS select structure,
/// each section length-prefixed.
pub open spec fn enc_louds_sparse(v: LoudsSparseV) -> Seq<u8> {
    let lv = enc_label_vector(v.labels);
    let cb = enc_rank(v.child_indicator_bits);
    let lb = enc_select(v.louds_bits);
    spec_u64_to_be(v.height as u64) + spec_u64_to_be(v.start_level as u64) + spec_u64_to_be(
        v.node_count_dense as u64,
    ) + spec_u64_to_be(v.child_count_dense as u64) + spec_u64_to_be(v.value_count_dense as u64)
        + spec_u64_to_be(lv.len() as u64) + lv + spec_u64_to_be(cb.len() as u64) + cb
        + spec_u64_to_be(lb.len() as u64) + lb
}

/// The sparse structure a byte string spells: the exact parse of
/// [`enc_louds_sparse`].
pub open spec fn dec_louds_sparse(bytes: Seq<u8>) -> Option<LoudsSparseV> {
    if bytes.len() < 48 {
        None
    } else {
        let height = be_val(bytes.subrange(0, 8));
        let start_level = be_val(bytes.subrange(8, 16));
        let ncd = be_val(bytes.subrange(16, 24));
        let ccd = be_val(bytes.subrange(24, 32));
        let vcd = be_val(bytes.subrange(32, 40));
        let ll = be_val(bytes.subrange(40, 48));
        if height > usize::MAX || start_level > usize::MAX || ncd > usize::MAX || ccd
            > usize::MAX || vcd > usize::MAX || ll > usize::MAX || bytes.len() < 48 + ll {
            None
        } else {
            match dec_label_vector(bytes.subrange(48, 48 + ll)) {
                None => None,
                Some(labels) => {
                    let c1 = 48 + ll;
                    if bytes.len() < c1 + 8 {
                        None
                    } else {
                        let cl = be_val(bytes.subrange(c1, c1 + 8));
                        if cl > usize::MAX || bytes.len() < c1 + 8 + cl {
                            None
                        } else {
                            match dec_rank(bytes.subrange(c1 + 8, c1 + 8 + cl)) {
                                None => None,
                                Some(cb) => {
                                    let c2 = c1 + 8 + cl;
                                    if bytes.len() < c2 + 8 {
                                        None
                                    } else {
                                        let sl = be_val(bytes.subrange(c2, c2 + 8));
                                        if sl > usize::MAX || bytes.len() != c2 + 8 + sl {
                                            None
                                        } else {
                                            match dec_select(
                                                bytes.subrange(c2 + 8, c2 + 8 + sl),
                                            ) {
                                                None => None,
                                                Some(lb) => {
                                                    let v = LoudsSparseV {
                                                        height: height as usize,
                                                        start_level: start_level as usize,
                                                        node_count_dense: ncd as usize,
                                                        child_count_dense: ccd as usize,
                                                        value_count_dense: vcd as usize,
                                                        labels,
                                                        child_indicator_bits: cb,
                                                        louds_bits: lb,
                                                    };
                                                    if v.wf() {
                                                        Some(v)
                                                    } else {
                                                        None
                                                    }
                                                },
                                            }
                                        }
                                    }
                                },
                            }
                        }
                    }
                },
            }
        }
    }
}

impl LoudsSparse {
    /// Raw byte footprint of the scalar fields, the label array and the two
    /// bit structures.
    pub fn byte_size(&self) -> (r: usize)
        ensures
            r == spec_sparse_byte_size(self@),
    {
        crate::codec::sat_add_usize(
            40,
            crate::codec::sat_add_usize(
                self.labels.byte_size(),
                crate::codec::sat_add_usize(
                    self.child_indicator_bits.byte_size(),
                    self.louds_bits.byte_size(),
                ),
            ),
        )
    }

    /// Emits the five scalar fields, then the label vector, the
    /// child-indicator rank, and the LOUDS select structure, each section
    /// length-prefixed.
    pub fn serialize(&self) -> (r: Vec<u8>)
        ensures
            r@ == enc_louds_sparse(self@),
    {
        let mut bytes: Vec<u8> = Vec::new();
        push_u64_be(&mut bytes, self.height as u64);
        push_u64_be(&mut bytes, self.start_level as u64);
        push_u64_be(&mut bytes, self.node_count_dense as u64);
        push_u64_be(&mut bytes, self.child_count_dense as u64);
        push_u64_be(&mut bytes, self.value_count_dense as u64);
        let mut lv = self.labels.serialize();
        push_u64_be(&mut bytes, lv.len() as u64);
        bytes.append(&mut lv);
        let mut cb = self.child_indicator_bits.serialize();
        push_u64_be(&mut bytes, cb.len() as u64);
        bytes.append(&mut cb);
        let mut lb = self.louds_bits.serialize();
        push_u64_be(&mut bytes, lb.len() as u64);
        bytes.append(&mut lb);
        proof {
            assert(bytes@ =~= enc_louds_sparse(self@));
        }
        bytes
    }

    /// Parses what [`LoudsSparse::serialize`] emits.
    pub fn deserialize(bytes: &[u8]) -> (r: Option<LoudsSparse>)
        ensures
            match r {
                Some(s) => dec_louds_sparse(bytes@) == Some(s@) && s@.wf(),
                None => dec_louds_sparse(bytes@) is None,
            },
    {
        if bytes.len() < 48 {
            return None;
        }
        let height = match u64_to_usize_checked(read_u64_be(bytes, 0)) {
            Some(v) => v,
            None => {
                return None;
            },
        };
        let start_level = match u64_to_usize_checked(read_u64_be(bytes, 8)) {
            Some(v) => v,
            None => {
                return None;
            },
        };
        let node_count_dense = match u64_to_usize_checked(read_u64_be(bytes, 16)) {
            Some(v) => v,
            None => {
                return None;
            },
        };
        let child_count_dense = match u64_to_usize_checked(read_u64_be(bytes, 24)) {
            Some(v) => v,
            None => {
                return None;
            },
        };
        let value_count_dense = match u64_to_usize_checked(read_u64_be(bytes, 32)) {
            Some(v) => v,
            None => {
                return None;
            },
        };
        let ll = match u64_to_usize_checked(read_u64_be(bytes, 40)) {
            Some(v) => v,
            None => {
                return None;
            },
        };
        if bytes.len() - 48 < ll {
            return None;
        }
        let labels = match LabelVector::deserialize(slice_range(bytes, 48, 48 + ll)) {
            Some(lv) => lv,
            None => {
                return None;
            },
        };
        let c1 = 48 + ll;
        if bytes.len() - c1 < 8 {
            return None;
        }
        let cl = match u64_to_usize_checked(read_u64_be(bytes, c1)) {
            Some(v) => v,
            None => {
                return None;
            },
        };
        if bytes.len() - c1 - 8 < cl {
            return None;
        }
        let child_indicator_bits = match BitvectorRank::deserialize(
            slice_range(bytes, c1 + 8, c1 + 8 + cl),
        ) {
            Some(rk) => rk,
            None => {
                return None;
            },
        };
        let c2 = c1 + 8 + cl;
        if bytes.len() - c2 < 8 {
            return None;
        }
        let sl = match u64_to_usize_checked(read_u64_be(bytes, c2)) {
            Some(v) => v,
            None => {
                return None;
            },
        };
        if bytes.len() - c2 - 8 != sl {
            return None;
        }
        let louds_bits = match BitvectorSelect::deserialize(
            slice_range(bytes, c2 + 8, c2 + 8 + sl),
        ) {
            Some(se) => se,
            None => {
                return None;
            },
        };
        let sparse = LoudsSparse {
            height,
            start_level,
            node_count_dense,
            child_count_dense,
            value_count_dense,
            labels,
            child_indicator_bits,
            louds_bits,
        };
        let cnb = sparse.child_indicator_bits.get_bitvec().get_num_bits();
        let lnb = sparse.louds_bits.get_bitvec().get_num_bits();
        if cnb != lnb {
            assert(!sparse@.wf());
            return None;
        }
        if lnb > usize::MAX - 17 || sparse.labels.label_count() != lnb + 17 {
            assert(!sparse@.wf());
            return None;
        }
        if sparse.labels.label_count() > usize::MAX - 64 {
            assert(!sparse@.wf());
            return None;
        }
        if !check_runs_sorted(&sparse.labels, sparse.louds_bits.get_bitvec()) {
            assert(!sparse@.wf());
            return None;
        }
        proof {
            assert(sparse@.wf());
            assert(dec_louds_sparse(bytes@) == Some(sparse@));
        }
        Some(sparse)
    }
}

/// The subslice `bytes[lo..hi]`.
fn slice_range(bytes: &[u8], lo: usize, hi: usize) -> (r: &[u8])
    requires
        lo <= hi <= bytes@.len(),
    ensures
        r@ == bytes@.subrange(lo as int, hi as int),
{
    &bytes[lo..hi]
}

/// Parsing inverts encoding: a well-formed sparse structure's bytes spell
/// it back.
pub proof fn lemma_dec_enc_louds_sparse(v: LoudsSparseV)
    requires
        v.wf(),
    ensures
        dec_louds_sparse(enc_louds_sparse(v)) == Some(v),
{
    let bytes = enc_louds_sparse(v);
    let lv = enc_label_vector(v.labels);
    let cb = enc_rank(v.child_indicator_bits);
    let lb = enc_select(v.louds_bits);
    crate::louds_dense::lemma_enc_rank_len_bound(v.child_indicator_bits);
    lemma_enc_select_len_bound(v.louds_bits);
    assert(lv.len() == 8 + v.labels.len());
    let c1 = 48 + lv.len() as int;
    let c2 = c1 + 8 + cb.len() as int;
    assert(bytes.subrange(0, 8) =~= spec_u64_to_be(v.height as u64));
    assert(bytes.subrange(8, 16) =~= spec_u64_to_be(v.start_level as u64));
    assert(bytes.subrange(16, 24) =~= spec_u64_to_be(v.node_count_dense as u64));
    assert(bytes.subrange(24, 32) =~= spec_u64_to_be(v.child_count_dense as u64));
    assert(bytes.subrange(32, 40) =~= spec_u64_to_be(v.value_count_dense as u64));
    assert(bytes.subrange(40, 48) =~= spec_u64_to_be(lv.len() as u64));
    lemma_be_round_trip(v.height as u64);
    lemma_be_round_trip(v.start_level as u64);
    lemma_be_round_trip(v.node_count_dense as u64);
    lemma_be_round_trip(v.child_count_dense as u64);
    lemma_be_round_trip(v.value_count_dense as u64);
    lemma_be_round_trip(lv.len() as u64);
    assert(bytes.subrange(48, 48 + lv.len() as int) =~= lv);
    lemma_dec_enc_label_vector(v.labels);
    assert(bytes.subrange(c1, c1 + 8) =~= spec_u64_to_be(cb.len() as u64));
    lemma_be_round_trip(cb.len() as u64);
    assert(bytes.subrange(c1 + 8, c1 + 8 + cb.len() as int) =~= cb);
    lemma_dec_enc_rank(v.child_indicator_bits);
    assert(bytes.subrange(c2, c2 + 8) =~= spec_u64_to_be(lb.len() as u64));
    lemma_be_round_trip(lb.len() as u64);
    assert(bytes.subrange(c2 + 8, c2 + 8 + lb.len() as int) =~= lb);
    lemma_dec_enc_select(v.louds_bits);
}

/// A well-formed select structure's encoding fits in a machine word's
/// range.
pub proof fn lemma_enc_select_len_bound(v: BitvectorSelectV)
    requires
        v.wf(),
    ensures
        enc_select(v).len() <= usize::MAX,
{
    crate::codec::lemma_enc_words_len(v.bitvec.bits);
    crate::codec::lemma_enc_words_len(crate::codec::u64s_of(v.select_lut));
    let s = v.bitvec.bit_seq();
    let nb = v.bitvec.num_bits as int;
    lemma_count_ones_le(s, nb);
    assert(s.take(nb) =~= s);
    vstd::arithmetic::div_mod::lemma_div_is_ordered(
        count_ones(s) as int,
        nb,
        v.sample_interval as int,
    );
    vstd::arithmetic::div_mod::lemma_div_is_ordered_by_denominator(
        nb,
        64,
        v.sample_interval as int,
    );
    vstd::arithmetic::div_mod::lemma_div_is_ordered(nb, usize::MAX as int, 64);
}

} // verus!
